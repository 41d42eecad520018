//! The schema check: coerce where the coercion is honest, ask where it is
//! not, and let unknown keys through.

use vstd::prelude::*;

use crate::digest::{Question, QuestionView, Repair, RepairView};
use crate::json::{json_text, kind_name, well_keyed, JsonView, Value};
use crate::schema::{schema_name, Field, Schema};
use crate::textmap::{
    keys_increasing, lemma_sorted_delete, lemma_sorted_insert, lookup, sorted_delete, sorted_insert,
    TextMap,
};
use crate::number::{float_text_value, num_lt, num_text, parse_float_text, NumView, Number};
use crate::repair::{trim, trim_chars};
use crate::text::{debug_str, debug_text, dec_chars, string_from_chars, texts};

verus! {

broadcast use crate::json::group_json_view;

// ---------------------------------------------------------------------------
// Text helpers
// ---------------------------------------------------------------------------

pub open spec fn ascii_lower_char(c: char) -> char {
    if 'A' <= c <= 'Z' {
        ((c as u8 + 32) as u8) as char
    } else {
        c
    }
}

/// ASCII letters lowercased, everything else kept (`to_ascii_lowercase`).
pub open spec fn ascii_lower(s: Seq<char>) -> Seq<char> {
    s.map_values(|c: char| ascii_lower_char(c))
}

fn ascii_lower_char_exec(c: char) -> (r: char)
    ensures
        r == ascii_lower_char(c),
{
    if 'A' <= c && c <= 'Z' {
        (c as u8 + 32) as char
    } else {
        c
    }
}

pub fn ascii_lowercase(s: &[char]) -> (r: Vec<char>)
    ensures
        r@ == ascii_lower(s@),
{
    let mut out: Vec<char> = Vec::new();
    let mut i: usize = 0;
    while i < s.len()
        invariant
            i <= s@.len(),
            out@ == ascii_lower(s@).take(i as int),
        decreases s@.len() - i,
    {
        out.push(ascii_lower_char_exec(s[i]));
        assert(out@ =~= ascii_lower(s@).take(i + 1));
        i = i + 1;
    }
    assert(ascii_lower(s@).take(s@.len() as int) =~= ascii_lower(s@));
    out
}

/// `pat` occurs at position `i` of `s`.
pub open spec fn occurs_at(s: Seq<char>, i: int, pat: Seq<char>) -> bool {
    0 <= i && i + pat.len() <= s.len() && s.subrange(i, i + pat.len()) == pat
}

/// The first position at or after `i` where `pat` occurs.
pub open spec fn find_sub(s: Seq<char>, i: int, pat: Seq<char>) -> Option<int>
    decreases s.len() + 1 - i,
{
    if i < 0 || i + pat.len() > s.len() {
        None
    } else if occurs_at(s, i, pat) {
        Some(i)
    } else {
        find_sub(s, i + 1, pat)
    }
}

proof fn lemma_find_sub(s: Seq<char>, i: int, pat: Seq<char>)
    ensures
        find_sub(s, i, pat) matches Some(k) ==> i <= k && k + pat.len() <= s.len(),
    decreases s.len() + 1 - i,
{
    if 0 <= i && i + pat.len() <= s.len() && !occurs_at(s, i, pat) {
        lemma_find_sub(s, i + 1, pat);
    }
}

fn occurs_at_exec(s: &[char], i: usize, pat: &[char]) -> (r: bool)
    requires
        i <= s@.len(),
    ensures
        r == occurs_at(s@, i as int, pat@),
{
    assert(s@.len() == s.len());
    let n = pat.len();
    if n > s.len() - i {
        return false;
    }
    let mut k: usize = 0;
    while k < n
        invariant
            n == pat@.len(),
            i + n <= s@.len(),
            s@.len() == s.len(),
            k <= n,
            forall|m: int| 0 <= m < k ==> s@[i + m] == pat@[m],
        decreases n - k,
    {
        if s[i + k] != pat[k] {
            assert(s@.subrange(i as int, i + n)[k as int] != pat@[k as int]);
            return false;
        }
        k = k + 1;
    }
    assert(s@.subrange(i as int, i + n) =~= pat@);
    true
}

fn find_sub_exec(s: &[char], pat: &[char]) -> (r: Option<usize>)
    ensures
        match find_sub(s@, 0, pat@) {
            Some(k) => r == Some(k as usize),
            None => r is None,
        },
{
    proof {
        lemma_find_sub(s@, 0, pat@);
    }
    if pat.len() == 0 {
        assert(s@.subrange(0, 0) =~= pat@);
        return Some(0);
    }
    let mut i: usize = 0;
    while i < s.len() && pat.len() <= s.len() - i
        invariant
            i <= s@.len(),
            pat@.len() > 0,
            find_sub(s@, 0, pat@) == find_sub(s@, i as int, pat@),
        decreases s@.len() + 1 - i,
    {
        if occurs_at_exec(s, i, pat) {
            return Some(i);
        }
        i = i + 1;
    }
    None
}

/// `t` read as a finite number after trimming.
pub open spec fn trimmed_number(t: Seq<char>) -> Option<NumView> {
    float_text_value(trim(t))
}

fn trimmed_number_exec(t: &[char]) -> (r: Option<Number>)
    ensures
        match trimmed_number(t@) {
            Some(n) => r matches Some(x) && x@ == n,
            None => r is None,
        },
{
    let u = trim_chars(t);
    parse_float_text(u.as_slice())
}

// ---------------------------------------------------------------------------
// Reading a number out of a string
// ---------------------------------------------------------------------------

/// The hedging prefixes, in the order they are tried.
pub open spec fn hedge_prefix(k: int) -> Seq<char> {
    if k == 0 {
        "~"@
    } else if k == 1 {
        "about "@
    } else if k == 2 {
        "around "@
    } else if k == 3 {
        "approx "@
    } else if k == 4 {
        "approximately "@
    } else {
        "roughly "@
    }
}

/// The number after the first hedging prefix, from the `k`-th on, that
/// `lower` starts with and that leaves a number behind.
pub open spec fn hedged_from(lower: Seq<char>, k: int) -> Option<NumView>
    decreases 6 - k,
{
    if k >= 6 {
        None
    } else {
        let p = hedge_prefix(k);
        if p.len() <= lower.len() && lower.take(p.len() as int) == p && trimmed_number(
            lower.skip(p.len() as int),
        ) is Some {
            trimmed_number(lower.skip(p.len() as int))
        } else {
            hedged_from(lower, k + 1)
        }
    }
}

/// The two numbers on either side of the first `sep`, when both are
/// numbers.
pub open spec fn two_readings(t: Seq<char>, sep: Seq<char>) -> Option<(NumView, NumView)> {
    match find_sub(t, 0, sep) {
        None => None,
        Some(k) => match (
            trimmed_number(t.take(k)),
            trimmed_number(t.skip(k + sep.len())),
        ) {
            (Some(x), Some(y)) => Some((x, y)),
            _ => None,
        },
    }
}

/// Whether a vague quantifier occurs in `lower`.
pub open spec fn is_vague(lower: Seq<char>) -> bool {
    find_sub(lower, 0, "a few"@) is Some || find_sub(lower, 0, "several"@) is Some || find_sub(
        lower,
        0,
        "some"@,
    ) is Some || find_sub(lower, 0, "a couple"@) is Some
}

/// The outcome of checking one value: the value kept, the repairs made and
/// the questions raised.
pub type CheckOut = (JsonView, Seq<RepairView>, Seq<QuestionView>);

pub open spec fn question(path: Seq<char>, prompt: Seq<char>, candidates: Seq<Seq<char>>) -> QuestionView {
    QuestionView { path, prompt, candidates }
}

/// A bound as a prompt shows it, with `none` standing for an open end.
pub open spec fn bound_text(b: Option<NumView>, none: Seq<char>) -> Seq<char> {
    match b {
        Some(m) => num_text(m),
        None => none,
    }
}

/// The question a number outside its range raises, if it is outside.
pub open spec fn range_questions(
    n: NumView,
    min: Option<NumView>,
    max: Option<NumView>,
    path: Seq<char>,
) -> Seq<QuestionView> {
    let low = min matches Some(m) && num_lt(n, m);
    let high = max matches Some(m) && num_lt(m, n);
    if low || high {
        seq![
            question(
                path,
                num_text(n) + " is outside the allowed range "@ + bound_text(min, "-∞"@) + "..="@
                    + bound_text(max, "∞"@),
                Seq::empty(),
            ),
        ]
    } else {
        Seq::empty()
    }
}

/// A string where a number was expected: one number is coerced, a hedge
/// resolved, two readings or a range asked about with candidates, a vague
/// quantity or anything else asked about openly.
pub open spec fn numeric_string(
    s: Seq<char>,
    min: Option<NumView>,
    max: Option<NumView>,
    path: Seq<char>,
) -> CheckOut {
    let t = trim(s);
    let lower = ascii_lower(t);
    match float_text_value(t) {
        Some(n) => (
            JsonView::Num(n),
            seq![RepairView::Coerced { path, from: "string "@ + debug_text(s), to: "number"@ }],
            range_questions(n, min, max, path),
        ),
        None => match hedged_from(lower, 0) {
            Some(n) => (
                JsonView::Num(n),
                seq![RepairView::HedgeResolved { path, original: s }],
                range_questions(n, min, max, path),
            ),
            None => match two_readings(lower, " or "@) {
                Some((x, y)) => (
                    JsonView::Null,
                    Seq::empty(),
                    seq![
                        question(
                            path,
                            debug_text(s) + " holds two readings — which did they mean?"@,
                            seq![num_text(x), num_text(y)],
                        ),
                    ],
                ),
                None => match (if two_readings(t, "-"@) is Some {
                    two_readings(t, "-"@)
                } else {
                    two_readings(t, "–"@)
                }) {
                    Some((x, y)) => (
                        JsonView::Null,
                        Seq::empty(),
                        seq![
                            question(
                                path,
                                debug_text(s) + " is a range — which value should apply?"@,
                                seq![num_text(x), num_text(y)],
                            ),
                        ],
                    ),
                    None => if is_vague(lower) {
                        (
                            JsonView::Null,
                            Seq::empty(),
                            seq![
                                question(
                                    path,
                                    debug_text(s)
                                        + " is a vague quantity — what number should it be?"@,
                                    Seq::empty(),
                                ),
                            ],
                        )
                    } else {
                        (
                            JsonView::Null,
                            Seq::empty(),
                            seq![
                                question(
                                    path,
                                    "expected a number, got "@ + debug_text(s),
                                    Seq::empty(),
                                ),
                            ],
                        )
                    },
                },
            },
        },
    }
}

pub open spec fn opt_num(o: Option<Number>) -> Option<NumView> {
    match o {
        Some(n) => Some(n@),
        None => None,
    }
}

pub open spec fn repair_views(v: Seq<Repair>) -> Seq<RepairView> {
    crate::digest::repair_views(v)
}

pub open spec fn question_views(v: Seq<Question>) -> Seq<QuestionView> {
    crate::digest::question_views(v)
}

fn push_question(questions: &mut Vec<Question>, path: &String, prompt: String, candidates: Vec<String>)
    ensures
        question_views(final(questions)@) == question_views(old(questions)@).push(
            question(path@, prompt@, crate::text::texts(candidates@)),
        ),
{
    questions.push(Question { path: path.clone(), prompt, candidates });
    assert(question_views(questions@) =~= question_views(old(questions)@).push(
        question(path@, prompt@, crate::text::texts(candidates@)),
    ));
}

fn push_repair(repairs: &mut Vec<Repair>, r: Repair)
    ensures
        repair_views(final(repairs)@) == repair_views(old(repairs)@).push(r@),
{
    repairs.push(r);
    assert(repair_views(repairs@) =~= repair_views(old(repairs)@).push(r@));
}

fn bound_string(b: &Option<Number>, none: &str) -> (r: String)
    ensures
        r@ == bound_text(opt_num(*b), none@),
{
    match b {
        Some(m) => m.to_text(),
        None => String::from_str(none),
    }
}

/// Asks about `n` when it falls outside `min..=max`.
pub fn range_check(
    n: &Number,
    min: &Option<Number>,
    max: &Option<Number>,
    path: &String,
    questions: &mut Vec<Question>,
)
    ensures
        question_views(final(questions)@) == question_views(old(questions)@) + range_questions(
            n@,
            opt_num(*min),
            opt_num(*max),
            path@,
        ),
{
    let low = match min {
        Some(m) => n.lt(m),
        None => false,
    };
    let high = match max {
        Some(m) => m.lt(n),
        None => false,
    };
    if low || high {
        let mut prompt = n.to_text();
        prompt.append(" is outside the allowed range ");
        prompt.append(bound_string(min, "-∞").as_str());
        prompt.append("..=");
        prompt.append(bound_string(max, "∞").as_str());
        let candidates: Vec<String> = Vec::new();
        assert(crate::text::texts(candidates@) =~= Seq::<Seq<char>>::empty());
        push_question(questions, path, prompt, candidates);
    } else {
        assert(question_views(old(questions)@) + Seq::<QuestionView>::empty() =~= question_views(
            old(questions)@,
        ));
    }
}

fn hedge_prefix_exec(k: usize) -> (r: &'static str)
    ensures
        r@ == hedge_prefix(k as int),
{
    if k == 0 {
        "~"
    } else if k == 1 {
        "about "
    } else if k == 2 {
        "around "
    } else if k == 3 {
        "approx "
    } else if k == 4 {
        "approximately "
    } else {
        "roughly "
    }
}

fn hedged_exec(lower: &[char]) -> (r: Option<Number>)
    ensures
        match hedged_from(lower@, 0) {
            Some(n) => r matches Some(x) && x@ == n,
            None => r is None,
        },
{
    let mut k: usize = 0;
    while k < 6
        invariant
            k <= 6,
            hedged_from(lower@, 0) == hedged_from(lower@, k as int),
        decreases 6 - k,
    {
        let p = crate::text::chars_of(hedge_prefix_exec(k));
        if occurs_at_exec(lower, 0, p.as_slice()) {
            let rest = vstd::slice::slice_subrange(lower, p.len(), lower.len());
            assert(lower@.take(p@.len() as int) =~= lower@.subrange(0, p@.len() as int));
            assert(rest@ =~= lower@.skip(p@.len() as int));
            match trimmed_number_exec(rest) {
                Some(n) => {
                    return Some(n);
                },
                None => {},
            }
        } else {
            assert(!(p@.len() <= lower@.len() && lower@.take(p@.len() as int) == p@)) by {
                if p@.len() <= lower@.len() && lower@.take(p@.len() as int) == p@ {
                    assert(lower@.subrange(0, p@.len() as int) =~= lower@.take(p@.len() as int));
                }
            }
        }
        k = k + 1;
    }
    None
}

fn two_readings_exec(t: &[char], sep: &str) -> (r: Option<(Number, Number)>)
    ensures
        match two_readings(t@, sep@) {
            Some((x, y)) => r matches Some((a, b)) && a@ == x && b@ == y,
            None => r is None,
        },
{
    let sp = crate::text::chars_of(sep);
    proof {
        lemma_find_sub(t@, 0, sep@);
    }
    match find_sub_exec(t, sp.as_slice()) {
        None => None,
        Some(k) => {
            assert(t@.len() == t.len());
            let a = vstd::slice::slice_subrange(t, 0, k);
            let b = vstd::slice::slice_subrange(t, k + sp.len(), t.len());
            assert(a@ =~= t@.take(k as int));
            assert(b@ =~= t@.skip(k + sep@.len()));
            match (trimmed_number_exec(a), trimmed_number_exec(b)) {
                (Some(x), Some(y)) => Some((x, y)),
                _ => None,
            }
        },
    }
}

fn is_vague_exec(lower: &[char]) -> (r: bool)
    ensures
        r == is_vague(lower@),
{
    let a = crate::text::chars_of("a few");
    let b = crate::text::chars_of("several");
    let c = crate::text::chars_of("some");
    let d = crate::text::chars_of("a couple");
    find_sub_exec(lower, a.as_slice()).is_some() || find_sub_exec(lower, b.as_slice()).is_some()
        || find_sub_exec(lower, c.as_slice()).is_some() || find_sub_exec(
        lower,
        d.as_slice(),
    ).is_some()
}

fn two_number_strings(x: &Number, y: &Number) -> (r: Vec<String>)
    ensures
        crate::text::texts(r@) == seq![num_text(x@), num_text(y@)],
{
    let mut v: Vec<String> = Vec::new();
    v.push(x.to_text());
    v.push(y.to_text());
    assert(crate::text::texts(v@) =~= seq![num_text(x@), num_text(y@)]);
    v
}

fn quoted_prompt(s: &String, tail: &str) -> (r: String)
    ensures
        r@ == debug_text(s@) + tail@,
{
    let mut p = debug_str(s.as_str());
    p.append(tail);
    p
}

/// Reads a number out of a string where a number was expected.
pub fn digest_numeric_string(
    s: &String,
    min: &Option<Number>,
    max: &Option<Number>,
    path: &String,
    repairs: &mut Vec<Repair>,
    questions: &mut Vec<Question>,
) -> (r: crate::json::Value)
    ensures
        ({
            let c = numeric_string(s@, opt_num(*min), opt_num(*max), path@);
            &&& r@ == c.0
            &&& repair_views(final(repairs)@) == repair_views(old(repairs)@) + c.1
            &&& question_views(final(questions)@) == question_views(old(questions)@) + c.2
        }),
{
    let chars = crate::text::chars_of(s.as_str());
    let t = trim_chars(chars.as_slice());
    let lower = ascii_lowercase(t.as_slice());
    let ghost c = numeric_string(s@, opt_num(*min), opt_num(*max), path@);
    if let Some(n) = parse_float_text(t.as_slice()) {
        let mut from = String::from_str("string ");
        from.append(debug_str(s.as_str()).as_str());
        push_repair(
            repairs,
            Repair::Coerced { path: path.clone(), from, to: String::from_str("number") },
        );
        range_check(&n, min, max, path, questions);
        assert(repair_views(repairs@) =~= repair_views(old(repairs)@) + c.1);
        return crate::json::Value::Num(n);
    }
    if let Some(n) = hedged_exec(lower.as_slice()) {
        push_repair(repairs, Repair::HedgeResolved { path: path.clone(), original: s.clone() });
        range_check(&n, min, max, path, questions);
        assert(repair_views(repairs@) =~= repair_views(old(repairs)@) + c.1);
        return crate::json::Value::Num(n);
    }
    assert(repair_views(old(repairs)@) + Seq::<RepairView>::empty() =~= repair_views(
        old(repairs)@,
    ));
    if let Some((x, y)) = two_readings_exec(lower.as_slice(), " or ") {
        let prompt = quoted_prompt(s, " holds two readings — which did they mean?");
        push_question(questions, path, prompt, two_number_strings(&x, &y));
        assert(question_views(questions@) =~= question_views(old(questions)@) + c.2);
        return crate::json::Value::Null;
    }
    let dashed = match two_readings_exec(t.as_slice(), "-") {
        Some(p) => Some(p),
        None => two_readings_exec(t.as_slice(), "–"),
    };
    if let Some((x, y)) = dashed {
        let prompt = quoted_prompt(s, " is a range — which value should apply?");
        push_question(questions, path, prompt, two_number_strings(&x, &y));
        assert(question_views(questions@) =~= question_views(old(questions)@) + c.2);
        return crate::json::Value::Null;
    }
    let none: Vec<String> = Vec::new();
    assert(crate::text::texts(none@) =~= Seq::<Seq<char>>::empty());
    if is_vague_exec(lower.as_slice()) {
        let prompt = quoted_prompt(s, " is a vague quantity — what number should it be?");
        push_question(questions, path, prompt, none);
    } else {
        let mut prompt = String::from_str("expected a number, got ");
        prompt.append(debug_str(s.as_str()).as_str());
        push_question(questions, path, prompt, none);
    }
    assert(question_views(questions@) =~= question_views(old(questions)@) + c.2);
    crate::json::Value::Null
}

// ---------------------------------------------------------------------------
// The check
// ---------------------------------------------------------------------------

pub open spec fn is_true_word(w: Seq<char>) -> bool {
    w == "true"@ || w == "yes"@ || w == "y"@ || w == "1"@
}

pub open spec fn is_false_word(w: Seq<char>) -> bool {
    w == "false"@ || w == "no"@ || w == "n"@ || w == "0"@
}

/// A string where a boolean was expected: yes/no words are coerced, anything
/// else is asked about.
pub open spec fn bool_string(s: Seq<char>, path: Seq<char>) -> CheckOut {
    let w = ascii_lower(trim(s));
    if is_true_word(w) {
        (
            JsonView::Bool(true),
            seq![RepairView::Coerced { path, from: "string "@ + debug_text(s), to: "bool"@ }],
            Seq::empty(),
        )
    } else if is_false_word(w) {
        (
            JsonView::Bool(false),
            seq![RepairView::Coerced { path, from: "string "@ + debug_text(s), to: "bool"@ }],
            Seq::empty(),
        )
    } else {
        (
            JsonView::Null,
            Seq::empty(),
            seq![
                question(
                    path,
                    "expected true/false, got "@ + debug_text(s),
                    seq!["true"@, "false"@],
                ),
            ],
        )
    }
}

/// The options equal to `folded` once lowercased, in order.
pub open spec fn folded_hits(opts: Seq<Seq<char>>, folded: Seq<char>) -> Seq<Seq<char>>
    decreases opts.len(),
{
    if opts.len() == 0 {
        Seq::empty()
    } else {
        let h = folded_hits(opts.drop_last(), folded);
        if ascii_lower(opts.last()) == folded {
            h.push(opts.last())
        } else {
            h
        }
    }
}

/// A string checked against fixed options: an exact option is kept, a
/// unique match ignoring case is folded, and several matches or none are
/// asked about.
pub open spec fn choice_check(s: Seq<char>, opts: Seq<Seq<char>>, path: Seq<char>) -> CheckOut {
    if opts.contains(s) {
        (JsonView::Str(s), Seq::empty(), Seq::empty())
    } else {
        let hits = folded_hits(opts, ascii_lower(trim(s)));
        if hits.len() == 1 {
            (
                JsonView::Str(hits[0]),
                seq![RepairView::CaseFolded { path, original: s }],
                Seq::empty(),
            )
        } else if hits.len() >= 2 {
            (
                JsonView::Null,
                Seq::empty(),
                seq![
                    question(
                        path,
                        debug_text(s) + " matches more than one option ignoring case"@,
                        hits,
                    ),
                ],
            )
        } else {
            (
                JsonView::Null,
                Seq::empty(),
                seq![question(path, debug_text(s) + " is not a known option"@, opts)],
            )
        }
    }
}

/// A value of the wrong type with no honest coercion: asked about.
pub open spec fn mismatch(schema: Schema, v: JsonView, path: Seq<char>) -> CheckOut {
    (
        JsonView::Null,
        Seq::empty(),
        seq![
            question(
                path,
                "expected "@ + schema_name(schema) + ", got "@ + kind_name(v) + " ("@ + json_text(
                    v,
                ) + ")"@,
                Seq::empty(),
            ),
        ],
    )
}

/// The path of item `i` under `path`.
pub open spec fn index_path(path: Seq<char>, i: int) -> Seq<char> {
    path + "["@ + dec_chars(i as nat) + "]"@
}

/// The path of field `name` under `path`.
pub open spec fn field_path(path: Seq<char>, name: Seq<char>) -> Seq<char> {
    path + "."@ + name
}

/// `v` checked against `schema` at `path`.
pub open spec fn check_spec(v: JsonView, schema: Schema, path: Seq<char>) -> CheckOut
    decreases schema, 0nat,
{
    match schema {
        Schema::Any => (v, Seq::empty(), Seq::empty()),
        Schema::Bool => match v {
            JsonView::Bool(b) => (JsonView::Bool(b), Seq::empty(), Seq::empty()),
            JsonView::Str(s) => bool_string(s, path),
            _ => mismatch(schema, v, path),
        },
        Schema::Num { min, max } => match v {
            JsonView::Num(n) => (
                JsonView::Num(n),
                Seq::empty(),
                range_questions(n, opt_num(min), opt_num(max), path),
            ),
            JsonView::Str(s) => numeric_string(s, opt_num(min), opt_num(max), path),
            _ => mismatch(schema, v, path),
        },
        Schema::Str => match v {
            JsonView::Str(s) => (JsonView::Str(s), Seq::empty(), Seq::empty()),
            JsonView::Num(n) => (
                JsonView::Str(num_text(n)),
                seq![RepairView::Coerced { path, from: "number"@, to: "string"@ }],
                Seq::empty(),
            ),
            JsonView::Bool(b) => (
                JsonView::Str(
                    if b {
                        "true"@
                    } else {
                        "false"@
                    },
                ),
                seq![RepairView::Coerced { path, from: "bool"@, to: "string"@ }],
                Seq::empty(),
            ),
            _ => mismatch(schema, v, path),
        },
        Schema::Choice(opts) => match v {
            JsonView::Str(s) => choice_check(s, texts(opts@), path),
            _ => mismatch(schema, v, path),
        },
        Schema::Arr(inner) => match v {
            JsonView::Arr(items) => {
                let (vs, rs, qs) = check_items(items, *inner, path);
                (JsonView::Arr(vs), rs, qs)
            },
            _ => mismatch(schema, v, path),
        },
        Schema::Obj(fields) => match v {
            JsonView::Obj(entries) => {
                proof {
                    assert(decreases_to!(schema => fields));
                    assert(decreases_to!(fields => fields@));
                }
                let (rem, out, rs, qs) = fields_fold(entries, fields@, path);
                (JsonView::Obj(merge_rest(out, rem)), rs, qs)
            },
            _ => mismatch(schema, v, path),
        },
    }
}

/// Items checked one after another against `inner`, each at its index.
pub open spec fn check_items(items: Seq<JsonView>, inner: Schema, path: Seq<char>) -> (
    Seq<JsonView>,
    Seq<RepairView>,
    Seq<QuestionView>,
)
    decreases inner, items.len() + 1,
{
    if items.len() == 0 {
        (Seq::empty(), Seq::empty(), Seq::empty())
    } else {
        let (vs, rs, qs) = check_items(items.drop_last(), inner, path);
        let (v, r, q) = check_spec(items.last(), inner, index_path(path, items.len() - 1));
        (vs.push(v), rs + r, qs + q)
    }
}

/// The declared fields applied in order to the members of an object: the
/// members not yet claimed, the checked members, and the repairs and
/// questions so far.
pub open spec fn fields_fold(
    entries: Seq<(Seq<char>, JsonView)>,
    fields: Seq<Field>,
    path: Seq<char>,
) -> (Seq<(Seq<char>, JsonView)>, Seq<(Seq<char>, JsonView)>, Seq<RepairView>, Seq<QuestionView>)
    decreases fields, 0nat,
{
    if fields.len() == 0 {
        (entries, Seq::empty(), Seq::empty(), Seq::empty())
    } else {
        let (rem, out, rs, qs) = fields_fold(entries, fields.drop_last(), path);
        let f = fields.last();
        let fpath = field_path(path, f.name@);
        match lookup(rem, f.name@) {
            Some(v) => if v == JsonView::Null && !f.required && !(f.schema is Any) {
                (
                    sorted_delete(rem, f.name@),
                    out,
                    rs.push(RepairView::DroppedNullOptional { path: fpath }),
                    qs,
                )
            } else {
                proof {
                    assert(decreases_to!(fields => fields[fields.len() - 1]));
                    assert(decreases_to!(fields[fields.len() - 1] => fields[fields.len() - 1].schema));
                }
                let (cv, r2, q2) = check_spec(v, f.schema, fpath);
                (sorted_delete(rem, f.name@), sorted_insert(out, f.name@, cv), rs + r2, qs + q2)
            },
            None => if f.required {
                (rem, out, rs, qs.push(question(fpath, "required field is missing"@, Seq::empty())))
            } else {
                (rem, out, rs, qs)
            },
        }
    }
}

/// The members no field claimed, stored into the checked object: unknown
/// keys pass through untouched.
pub open spec fn merge_rest(
    out: Seq<(Seq<char>, JsonView)>,
    rem: Seq<(Seq<char>, JsonView)>,
) -> Seq<(Seq<char>, JsonView)>
    decreases rem.len(),
{
    if rem.len() == 0 {
        out
    } else {
        sorted_insert(merge_rest(out, rem.drop_last()), rem.last().0, rem.last().1)
    }
}

fn string_is(a: &Vec<char>, lit: &str) -> (r: bool)
    ensures
        r == (a@ == lit@),
{
    let s = string_from_chars(a.as_slice());
    crate::erasure::str_eq(s.as_str(), lit)
}

fn no_candidates() -> (r: Vec<String>)
    ensures
        texts(r@) == Seq::<Seq<char>>::empty(),
{
    let r: Vec<String> = Vec::new();
    assert(texts(r@) =~= Seq::<Seq<char>>::empty());
    r
}

fn bool_string_exec(
    s: &String,
    path: &String,
    repairs: &mut Vec<Repair>,
    questions: &mut Vec<Question>,
) -> (r: Value)
    ensures
        ({
            let c = bool_string(s@, path@);
            &&& r@ == c.0
            &&& repair_views(final(repairs)@) == repair_views(old(repairs)@) + c.1
            &&& question_views(final(questions)@) == question_views(old(questions)@) + c.2
        }),
{
    let ghost c = bool_string(s@, path@);
    let chars = crate::text::chars_of(s.as_str());
    let t = trim_chars(chars.as_slice());
    let w = ascii_lowercase(t.as_slice());
    let yes = string_is(&w, "true") || string_is(&w, "yes") || string_is(&w, "y") || string_is(
        &w,
        "1",
    );
    let no = string_is(&w, "false") || string_is(&w, "no") || string_is(&w, "n") || string_is(
        &w,
        "0",
    );
    if yes || no {
        let mut from = String::from_str("string ");
        from.append(debug_str(s.as_str()).as_str());
        push_repair(
            repairs,
            Repair::Coerced { path: path.clone(), from, to: String::from_str("bool") },
        );
        assert(repair_views(repairs@) =~= repair_views(old(repairs)@) + c.1);
        assert(question_views(questions@) =~= question_views(old(questions)@) + c.2);
        Value::Bool(yes)
    } else {
        let mut prompt = String::from_str("expected true/false, got ");
        prompt.append(debug_str(s.as_str()).as_str());
        let mut candidates: Vec<String> = Vec::new();
        candidates.push(String::from_str("true"));
        candidates.push(String::from_str("false"));
        assert(texts(candidates@) =~= seq!["true"@, "false"@]);
        push_question(questions, path, prompt, candidates);
        assert(repair_views(repairs@) =~= repair_views(old(repairs)@) + c.1);
        assert(question_views(questions@) =~= question_views(old(questions)@) + c.2);
        Value::Null
    }
}

fn choice_exec(
    s: &String,
    opts: &Vec<String>,
    path: &String,
    repairs: &mut Vec<Repair>,
    questions: &mut Vec<Question>,
) -> (r: Value)
    ensures
        ({
            let c = choice_check(s@, texts(opts@), path@);
            &&& r@ == c.0
            &&& repair_views(final(repairs)@) == repair_views(old(repairs)@) + c.1
            &&& question_views(final(questions)@) == question_views(old(questions)@) + c.2
        }),
{
    let ghost o = texts(opts@);
    let ghost c = choice_check(s@, o, path@);
    let mut i: usize = 0;
    while i < opts.len()
        invariant
            i <= opts@.len(),
            o == texts(opts@),
            c == choice_check(s@, o, path@),
            repairs@ == old(repairs)@,
            questions@ == old(questions)@,
            forall|k: int| 0 <= k < i ==> o[k] != s@,
        decreases opts@.len() - i,
    {
        if crate::erasure::str_eq(opts[i].as_str(), s.as_str()) {
            assert(o[i as int] == s@);
            assert(o.contains(s@));
            assert(repair_views(repairs@) =~= repair_views(old(repairs)@) + c.1);
            assert(question_views(questions@) =~= question_views(old(questions)@) + c.2);
            return Value::Str(s.clone());
        }
        i = i + 1;
    }
    assert(!o.contains(s@));
    let chars = crate::text::chars_of(s.as_str());
    let t = trim_chars(chars.as_slice());
    let folded = ascii_lowercase(t.as_slice());
    let mut hits: Vec<String> = Vec::new();
    let mut j: usize = 0;
    assert(o.take(0) =~= Seq::<Seq<char>>::empty());
    while j < opts.len()
        invariant
            j <= opts@.len(),
            o == texts(opts@),
            texts(hits@) == folded_hits(o.take(j as int), folded@),
        decreases opts@.len() - j,
    {
        let oc = crate::text::chars_of(opts[j].as_str());
        let lo = ascii_lowercase(oc.as_slice());
        let ghost before = hits@;
        assert(o.take(j + 1).drop_last() =~= o.take(j as int));
        if crate::lenient::chars_eq(&lo, &folded) {
            hits.push(opts[j].clone());
            assert(texts(hits@) =~= texts(before).push(o[j as int]));
        }
        j = j + 1;
    }
    assert(o.take(opts@.len() as int) =~= o);
    if hits.len() == 1 {
        push_repair(repairs, Repair::CaseFolded { path: path.clone(), original: s.clone() });
        assert(repair_views(repairs@) =~= repair_views(old(repairs)@) + c.1);
        assert(question_views(questions@) =~= question_views(old(questions)@) + c.2);
        assert(texts(hits@)[0] == hits@[0]@);
        Value::Str(hits[0].clone())
    } else if hits.len() >= 2 {
        let mut prompt = debug_str(s.as_str());
        prompt.append(" matches more than one option ignoring case");
        push_question(questions, path, prompt, hits);
        assert(repair_views(repairs@) =~= repair_views(old(repairs)@) + c.1);
        assert(question_views(questions@) =~= question_views(old(questions)@) + c.2);
        Value::Null
    } else {
        let mut prompt = debug_str(s.as_str());
        prompt.append(" is not a known option");
        push_question(questions, path, prompt, crate::text::copy_strings(opts));
        assert(repair_views(repairs@) =~= repair_views(old(repairs)@) + c.1);
        assert(question_views(questions@) =~= question_views(old(questions)@) + c.2);
        Value::Null
    }
}

fn mismatch_exec(
    schema: &Schema,
    value: &Value,
    path: &String,
    repairs: &mut Vec<Repair>,
    questions: &mut Vec<Question>,
) -> (r: Value)
    ensures
        ({
            let c = mismatch(*schema, value@, path@);
            &&& r@ == c.0
            &&& repair_views(final(repairs)@) == repair_views(old(repairs)@) + c.1
            &&& question_views(final(questions)@) == question_views(old(questions)@) + c.2
        }),
{
    let ghost c = mismatch(*schema, value@, path@);
    let mut prompt = String::from_str("expected ");
    prompt.append(schema.name());
    prompt.append(", got ");
    prompt.append(value.type_label());
    prompt.append(" (");
    prompt.append(value.to_string().as_str());
    prompt.append(")");
    push_question(questions, path, prompt, no_candidates());
    assert(repair_views(repairs@) =~= repair_views(old(repairs)@) + c.1);
    assert(question_views(questions@) =~= question_views(old(questions)@) + c.2);
    Value::Null
}

/// `path` followed by `[i]`.
fn index_path_exec(path: &String, i: usize) -> (r: String)
    ensures
        r@ == index_path(path@, i as int),
{
    let mut r = path.clone();
    r.append("[");
    r.append(crate::text::usize_to_string(i).as_str());
    r.append("]");
    r
}

/// `path` followed by `.name`.
fn field_path_exec(path: &String, name: &String) -> (r: String)
    ensures
        r@ == field_path(path@, name@),
{
    let mut r = path.clone();
    r.append(".");
    r.append(name.as_str());
    r
}

/// Checks `value` against `schema` at `path`: the value kept, with the
/// repairs made and the questions raised appended in order.
pub fn check(
    value: &Value,
    schema: &Schema,
    path: &String,
    repairs: &mut Vec<Repair>,
    questions: &mut Vec<Question>,
) -> (r: Value)
    ensures
        ({
            let c = check_spec(value@, *schema, path@);
            &&& r@ == c.0
            &&& repair_views(final(repairs)@) == repair_views(old(repairs)@) + c.1
            &&& question_views(final(questions)@) == question_views(old(questions)@) + c.2
        }),
    decreases schema, 0nat,
{
    let ghost c = check_spec(value@, *schema, path@);
    match schema {
        Schema::Any => {
            assert(c == (value@, Seq::<RepairView>::empty(), Seq::<QuestionView>::empty()));
            assert(repair_views(repairs@) =~= repair_views(old(repairs)@) + c.1);
            assert(question_views(questions@) =~= question_views(old(questions)@) + c.2);
            let r = value.duplicate();
            assert(r@ == c.0);
            r
        },
        Schema::Bool => match value {
            Value::Bool(b) => {
                assert(repair_views(repairs@) =~= repair_views(old(repairs)@) + c.1);
                assert(question_views(questions@) =~= question_views(old(questions)@) + c.2);
                Value::Bool(*b)
            },
            Value::Str(s) => bool_string_exec(s, path, repairs, questions),
            _ => mismatch_exec(schema, value, path, repairs, questions),
        },
        Schema::Num { min, max } => match value {
            Value::Num(n) => {
                range_check(n, min, max, path, questions);
                assert(repair_views(repairs@) =~= repair_views(old(repairs)@) + c.1);
                Value::Num(n.duplicate())
            },
            Value::Str(s) => digest_numeric_string(s, min, max, path, repairs, questions),
            _ => mismatch_exec(schema, value, path, repairs, questions),
        },
        Schema::Str => match value {
            Value::Str(s) => {
                assert(repair_views(repairs@) =~= repair_views(old(repairs)@) + c.1);
                assert(question_views(questions@) =~= question_views(old(questions)@) + c.2);
                Value::Str(s.clone())
            },
            Value::Num(n) => {
                push_repair(
                    repairs,
                    Repair::Coerced {
                        path: path.clone(),
                        from: String::from_str("number"),
                        to: String::from_str("string"),
                    },
                );
                assert(repair_views(repairs@) =~= repair_views(old(repairs)@) + c.1);
                assert(question_views(questions@) =~= question_views(old(questions)@) + c.2);
                Value::Str(n.to_text())
            },
            Value::Bool(b) => {
                push_repair(
                    repairs,
                    Repair::Coerced {
                        path: path.clone(),
                        from: String::from_str("bool"),
                        to: String::from_str("string"),
                    },
                );
                assert(repair_views(repairs@) =~= repair_views(old(repairs)@) + c.1);
                assert(question_views(questions@) =~= question_views(old(questions)@) + c.2);
                if *b {
                    Value::Str(String::from_str("true"))
                } else {
                    Value::Str(String::from_str("false"))
                }
            },
            _ => mismatch_exec(schema, value, path, repairs, questions),
        },
        Schema::Choice(opts) => match value {
            Value::Str(s) => choice_exec(s, opts, path, repairs, questions),
            _ => mismatch_exec(schema, value, path, repairs, questions),
        },
        Schema::Arr(inner) => match value {
            Value::Arr(items) => {
                proof {
                    assert(decreases_to!(*schema => (*schema)->Arr_0));
                }
                let vs = check_items_exec(items, inner, path, repairs, questions);
                Value::Arr(vs)
            },
            _ => mismatch_exec(schema, value, path, repairs, questions),
        },
        Schema::Obj(fields) => match value {
            Value::Obj(m) => {
                proof {
                    assert(decreases_to!(*schema => (*schema)->Obj_0));
                }
                let out = check_object_exec(m, fields, path, repairs, questions);
                Value::Obj(out)
            },
            _ => mismatch_exec(schema, value, path, repairs, questions),
        },
    }
}

fn check_items_exec(
    items: &Vec<Value>,
    inner: &Schema,
    path: &String,
    repairs: &mut Vec<Repair>,
    questions: &mut Vec<Question>,
) -> (r: Vec<Value>)
    ensures
        ({
            let c = check_items(crate::json::item_views(items@), *inner, path@);
            &&& crate::json::item_views(r@) == c.0
            &&& repair_views(final(repairs)@) == repair_views(old(repairs)@) + c.1
            &&& question_views(final(questions)@) == question_views(old(questions)@) + c.2
        }),
    decreases inner, 1nat,
{
    let ghost views = crate::json::item_views(items@);
    let ghost r0 = repair_views(repairs@);
    let ghost q0 = question_views(questions@);
    let mut out: Vec<Value> = Vec::new();
    let mut i: usize = 0;
    assert(views.take(0) =~= Seq::<JsonView>::empty());
    assert(crate::json::item_views(out@) =~= Seq::<JsonView>::empty());
    assert(r0 + Seq::<RepairView>::empty() =~= r0);
    assert(q0 + Seq::<QuestionView>::empty() =~= q0);
    while i < items.len()
        invariant
            i <= items@.len(),
            views == crate::json::item_views(items@),
            r0 == repair_views(old(repairs)@),
            q0 == question_views(old(questions)@),
            ({
                let c = check_items(views.take(i as int), *inner, path@);
                &&& crate::json::item_views(out@) == c.0
                &&& repair_views(repairs@) == r0 + c.1
                &&& question_views(questions@) == q0 + c.2
            }),
        decreases items@.len() - i,
    {
        let ghost prev = check_items(views.take(i as int), *inner, path@);
        let p = index_path_exec(path, i);
        let v = check(&items[i], inner, &p, repairs, questions);
        out.push(v);
        proof {
            let t = views.take(i + 1);
            assert(t.drop_last() =~= views.take(i as int));
            assert(t.last() == views[i as int]);
            let step = check_spec(views[i as int], *inner, index_path(path@, i as int));
            assert(crate::json::item_views(out@) =~= prev.0.push(step.0));
            assert(repair_views(repairs@) =~= r0 + (prev.1 + step.1));
            assert(question_views(questions@) =~= q0 + (prev.2 + step.2));
        }
        i = i + 1;
    }
    assert(views.take(items@.len() as int) =~= views);
    out
}

fn check_object_exec(
    m: &TextMap<Value>,
    fields: &Vec<Field>,
    path: &String,
    repairs: &mut Vec<Repair>,
    questions: &mut Vec<Question>,
) -> (r: TextMap<Value>)
    ensures
        ({
            let st = fields_fold(crate::json::member_views(m.entries()), fields@, path@);
            &&& crate::json::member_views(r.entries()) == merge_rest(st.1, st.0)
            &&& repair_views(final(repairs)@) == repair_views(old(repairs)@) + st.2
            &&& question_views(final(questions)@) == question_views(old(questions)@) + st.3
        }),
    decreases fields, 1nat,
{
    let ghost entries = crate::json::member_views(m.entries());
    let ghost r0 = repair_views(repairs@);
    let ghost q0 = question_views(questions@);
    let mut rem = crate::json::duplicate_members(m);
    let mut out: TextMap<Value> = TextMap::new();
    let mut i: usize = 0;
    assert(fields@.take(0) =~= Seq::<Field>::empty());
    assert(crate::json::member_views(out.entries()) =~= Seq::<(Seq<char>, JsonView)>::empty());
    assert(r0 + Seq::<RepairView>::empty() =~= r0);
    assert(q0 + Seq::<QuestionView>::empty() =~= q0);
    while i < fields.len()
        invariant
            i <= fields@.len(),
            entries == crate::json::member_views(m.entries()),
            r0 == repair_views(old(repairs)@),
            q0 == question_views(old(questions)@),
            ({
                let st = fields_fold(entries, fields@.take(i as int), path@);
                &&& crate::json::member_views(rem.entries()) == st.0
                &&& crate::json::member_views(out.entries()) == st.1
                &&& repair_views(repairs@) == r0 + st.2
                &&& question_views(questions@) == q0 + st.3
            }),
        decreases fields@.len() - i,
    {
        let ghost prev = fields_fold(entries, fields@.take(i as int), path@);
        proof {
            let t = fields@.take(i + 1);
            assert(t.drop_last() =~= fields@.take(i as int));
            assert(t.last() == fields@[i as int]);
        }
        let f = &fields[i];
        let ghost next = fields_fold(entries, fields@.take(i + 1), path@);
        let fpath = field_path_exec(path, &f.name);
        let ghost e_rem = rem.entries();
        let ghost e_out = out.entries();
        proof {
            crate::json::lemma_member_views_lookup(e_rem, f.name@);
            crate::json::lemma_member_views_delete(e_rem, f.name@);
        }
        match rem.remove(f.name.as_str()) {
            Some(v) => {
                let drop_null = match v {
                    Value::Null => !f.required && !matches!(f.schema, Schema::Any),
                    _ => false,
                };
                if drop_null {
                    push_repair(repairs, Repair::DroppedNullOptional { path: fpath });
                    proof {
                        assert(repair_views(repairs@) =~= r0 + prev.2.push(
                            RepairView::DroppedNullOptional { path: field_path(path@, f.name@) },
                        ));
                        assert(lookup(prev.0, f.name@) == Some(v@));
                        assert(next.0 == crate::json::member_views(rem.entries()));
                        assert(next.1 == crate::json::member_views(out.entries()));
                        assert(repair_views(repairs@) == r0 + next.2);
                        assert(question_views(questions@) == q0 + next.3);
                    }
                } else {
                    proof {
                        assert(decreases_to!(*fields => fields@));
                        assert(decreases_to!(fields@ => fields@[i as int]));
                        assert(decreases_to!(fields@[i as int] => fields@[i as int].schema));
                    }
                    let cv = check(&v, &f.schema, &fpath, repairs, questions);
                    let ghost step = check_spec(v@, f.schema, field_path(path@, f.name@));
                    proof {
                        crate::json::lemma_member_views_insert(e_out, f.name@, cv);
                        assert(repair_views(repairs@) =~= r0 + (prev.2 + step.1));
                        assert(question_views(questions@) =~= q0 + (prev.3 + step.2));
                    }
                    out.insert(f.name.clone(), cv);
                    proof {
                        assert(crate::json::member_views(out.entries()) == sorted_insert(
                            prev.1,
                            f.name@,
                            step.0,
                        ));
                        assert(crate::json::member_views(rem.entries()) == sorted_delete(
                            prev.0,
                            f.name@,
                        ));
                        assert(lookup(prev.0, f.name@) == Some(v@));
                        assert(!(v@ == JsonView::Null && !f.required && !(f.schema is Any)));
                        assert(next.0 == crate::json::member_views(rem.entries()));
                        assert(next.1 == crate::json::member_views(out.entries()));
                        assert(repair_views(repairs@) == r0 + next.2);
                        assert(question_views(questions@) == q0 + next.3);
                    }
                }
            },
            None => {
                if f.required {
                    let prompt = String::from_str("required field is missing");
                    push_question(questions, &fpath, prompt, no_candidates());
                    proof {
                        assert(question_views(questions@) =~= q0 + prev.3.push(
                            question(
                                field_path(path@, f.name@),
                                "required field is missing"@,
                                Seq::empty(),
                            ),
                        ));
                    }
                }
                proof {
                    assert(lookup(prev.0, f.name@) is None);
                    assert(next.0 == crate::json::member_views(rem.entries()));
                    assert(next.1 == crate::json::member_views(out.entries()));
                    assert(repair_views(repairs@) == r0 + next.2);
                    assert(question_views(questions@) == q0 + next.3);
                }
            },
        }
        i = i + 1;
    }
    assert(fields@.take(fields@.len() as int) =~= fields@);
    let ghost st = fields_fold(entries, fields@, path@);
    let ghost rest = crate::json::member_views(rem.entries());
    let mut k: usize = 0;
    assert(rest.take(0) =~= Seq::<(Seq<char>, JsonView)>::empty());
    while k < rem.len()
        invariant
            k <= rem.entries().len(),
            rest == crate::json::member_views(rem.entries()),
            crate::json::member_views(out.entries()) == merge_rest(st.1, rest.take(k as int)),
        decreases rem.entries().len() - k,
    {
        let (key, val) = rem.entry(k);
        let ghost e_out = out.entries();
        let d = val.duplicate();
        proof {
            crate::json::lemma_member_views_insert(e_out, key@, d);
            let t = rest.take(k + 1);
            assert(t.drop_last() =~= rest.take(k as int));
            assert(t.last() == rest[k as int]);
            assert(rest[k as int] == (key@, d@));
        }
        out.insert(key.clone(), d);
        k = k + 1;
    }
    assert(rest.take(rem.entries().len() as int) =~= rest);
    out
}

} // verus!

verus! {

// ---------------------------------------------------------------------------
// What every check keeps
// ---------------------------------------------------------------------------

/// Storing the unclaimed members in turn: a member of `rem` wins, and where
/// `rem` has none the checked member stands.
pub proof fn lemma_merge_rest(out: Seq<(Seq<char>, JsonView)>, rem: Seq<(Seq<char>, JsonView)>)
    requires
        keys_increasing(out),
    ensures
        keys_increasing(merge_rest(out, rem)),
        forall|q: Seq<char>|
            #[trigger] lookup(merge_rest(out, rem), q) == match lookup(rem, q) {
                Some(x) => Some(x),
                None => lookup(out, q),
            },
    decreases rem.len(),
{
    if rem.len() > 0 {
        lemma_merge_rest(out, rem.drop_last());
        lemma_sorted_insert(merge_rest(out, rem.drop_last()), rem.last().0, rem.last().1);
    }
}

/// Folding the declared fields over an object leaves a key that no field
/// names where it was: still among the unclaimed members, with its value,
/// and absent from the checked ones.
pub proof fn lemma_fields_fold_unclaimed(
    entries: Seq<(Seq<char>, JsonView)>,
    fields: Seq<Field>,
    path: Seq<char>,
    k: Seq<char>,
)
    requires
        keys_increasing(entries),
        forall|i: int| 0 <= i < fields.len() ==> (#[trigger] fields[i]).name@ != k,
    ensures
        ({
            let (rem, out, rs, qs) = fields_fold(entries, fields, path);
            &&& keys_increasing(rem)
            &&& keys_increasing(out)
            &&& lookup(rem, k) == lookup(entries, k)
            &&& lookup(out, k) is None
        }),
    decreases fields.len(),
{
    if fields.len() > 0 {
        let pre = fields.drop_last();
        assert forall|i: int| 0 <= i < pre.len() implies (#[trigger] pre[i]).name@ != k by {
            assert(pre[i] == fields[i]);
        }
        lemma_fields_fold_unclaimed(entries, pre, path, k);
        let (rem, out, rs, qs) = fields_fold(entries, pre, path);
        let f = fields.last();
        assert(f == fields[fields.len() - 1]);
        match lookup(rem, f.name@) {
            Some(v) => {
                lemma_sorted_delete(rem, f.name@);
                let (cv, r2, q2) = check_spec(v, f.schema, field_path(path, f.name@));
                lemma_sorted_insert(out, f.name@, cv);
            },
            None => {},
        }
    }
}

/// Extra meaning is kept, not refused: a member that no declared field
/// names comes through an object check with the value it had.
pub proof fn law_unknown_keys_pass_through(
    entries: Seq<(Seq<char>, JsonView)>,
    fields: Vec<Field>,
    path: Seq<char>,
    k: Seq<char>,
)
    requires
        keys_increasing(entries),
        forall|i: int| 0 <= i < fields@.len() ==> (#[trigger] fields@[i]).name@ != k,
    ensures
        check_spec(JsonView::Obj(entries), Schema::Obj(fields), path).0 matches JsonView::Obj(
            members,
        ) && keys_increasing(members) && lookup(members, k) == lookup(entries, k),
{
    lemma_fields_fold_unclaimed(entries, fields@, path, k);
    let (rem, out, rs, qs) = fields_fold(entries, fields@, path);
    lemma_merge_rest(out, rem);
}

/// A check that repairs nothing and asks nothing hands its value back.
proof fn lemma_quiet_check(v: JsonView, schema: Schema, path: Seq<char>)
    requires
        well_keyed(v),
        check_spec(v, schema, path).1.len() == 0,
        check_spec(v, schema, path).2.len() == 0,
    ensures
        check_spec(v, schema, path).0 == v,
    decreases schema, 0nat,
{
    match schema {
        Schema::Arr(inner) => {
            if let JsonView::Arr(items) = v {
                crate::json::lemma_items_well_keyed(items);
                lemma_quiet_items(items, *inner, path);
            }
        },
        Schema::Obj(fields) => {
            if let JsonView::Obj(entries) = v {
                crate::json::lemma_members_well_keyed(entries);
                assert(decreases_to!(schema => fields));
                assert(decreases_to!(fields => fields@));
                lemma_quiet_fields(entries, fields@, path);
                let (rem, out, rs, qs) = fields_fold(entries, fields@, path);
                lemma_merge_rest(out, rem);
                crate::textmap::lemma_sorted_ext(merge_rest(out, rem), entries);
            }
        },
        _ => {},
    }
}

proof fn lemma_quiet_items(items: Seq<JsonView>, inner: Schema, path: Seq<char>)
    requires
        forall|i: int| 0 <= i < items.len() ==> #[trigger] well_keyed(items[i]),
        check_items(items, inner, path).1.len() == 0,
        check_items(items, inner, path).2.len() == 0,
    ensures
        check_items(items, inner, path).0 == items,
    decreases inner, items.len() + 1,
{
    if items.len() > 0 {
        let pre = items.drop_last();
        assert forall|i: int| 0 <= i < pre.len() implies #[trigger] well_keyed(pre[i]) by {
            assert(pre[i] == items[i]);
        }
        let (vs, rs, qs) = check_items(pre, inner, path);
        let (w, r, q) = check_spec(items.last(), inner, index_path(path, items.len() - 1));
        assert((rs + r).len() == rs.len() + r.len());
        assert((qs + q).len() == qs.len() + q.len());
        lemma_quiet_items(pre, inner, path);
        assert(well_keyed(items[items.len() - 1]));
        lemma_quiet_check(items.last(), inner, index_path(path, items.len() - 1));
        assert(vs.push(w) =~= items);
    }
}

/// Folding the fields quietly claims members without changing them: every
/// key holds in the unclaimed members or, failing that, in the checked
/// ones what it held in the object.
proof fn lemma_quiet_fields(entries: Seq<(Seq<char>, JsonView)>, fields: Seq<Field>, path: Seq<char>)
    requires
        keys_increasing(entries),
        forall|i: int| 0 <= i < entries.len() ==> #[trigger] well_keyed(entries[i].1),
        fields_fold(entries, fields, path).2.len() == 0,
        fields_fold(entries, fields, path).3.len() == 0,
    ensures
        ({
            let (rem, out, rs, qs) = fields_fold(entries, fields, path);
            &&& keys_increasing(rem)
            &&& keys_increasing(out)
            &&& forall|q: Seq<char>|
                #[trigger] lookup(entries, q) == match lookup(rem, q) {
                    Some(x) => Some(x),
                    None => lookup(out, q),
                }
        }),
    decreases fields, 0nat,
{
    if fields.len() == 0 {
        assert forall|q: Seq<char>| #[trigger] lookup(entries, q) == match lookup(entries, q) {
            Some(x) => Some(x),
            None => lookup(Seq::<(Seq<char>, JsonView)>::empty(), q),
        } by {}
    } else {
        let pre = fields.drop_last();
        let (rem, out, rs, qs) = fields_fold(entries, pre, path);
        let f = fields.last();
        let fpath = field_path(path, f.name@);
        match lookup(rem, f.name@) {
            Some(v) => {
                if v == JsonView::Null && !f.required && !(f.schema is Any) {
                    assert(rs.push(RepairView::DroppedNullOptional { path: fpath }).len() > 0);
                } else {
                    assert(decreases_to!(fields => fields[fields.len() - 1]));
                    assert(decreases_to!(fields[fields.len() - 1] => fields[fields.len() - 1].schema));
                    let (cv, r2, q2) = check_spec(v, f.schema, fpath);
                    assert((rs + r2).len() == rs.len() + r2.len());
                    assert((qs + q2).len() == qs.len() + q2.len());
                    lemma_quiet_fields(entries, pre, path);
                    assert(lookup(entries, f.name@) == Some(v));
                    crate::textmap::lemma_lookup_member(entries, f.name@);
                    let j = choose|j: int| 0 <= j < entries.len() && #[trigger] entries[j].1 == v;
                    assert(well_keyed(entries[j].1));
                    lemma_quiet_check(v, f.schema, fpath);
                    lemma_sorted_delete(rem, f.name@);
                    lemma_sorted_insert(out, f.name@, cv);
                }
            },
            None => {
                if f.required {
                    assert(qs.push(question(fpath, "required field is missing"@, Seq::empty())).len()
                        > 0);
                } else {
                    lemma_quiet_fields(entries, pre, path);
                }
            },
        }
    }
}

/// Nothing changes silently: a check that records no repair and raises no
/// question returns the value it was given, unchanged.
pub proof fn law_quiet_check_keeps_the_value(v: JsonView, schema: Schema, path: Seq<char>)
    requires
        well_keyed(v),
        check_spec(v, schema, path).1.len() == 0,
        check_spec(v, schema, path).2.len() == 0,
    ensures
        check_spec(v, schema, path).0 == v,
{
    lemma_quiet_check(v, schema, path);
}

// ---------------------------------------------------------------------------
// What a settled value conforms to
// ---------------------------------------------------------------------------

/// `n` lies within the bounds that are given.
pub open spec fn in_range(n: NumView, min: Option<NumView>, max: Option<NumView>) -> bool {
    &&& !(min matches Some(m) && num_lt(n, m))
    &&& !(max matches Some(m) && num_lt(m, n))
}

/// `v` has the shape `schema` asks for: the right kind, numbers within
/// their bounds, strings among the options, items and declared fields
/// conforming in turn, required fields present. Undeclared members are
/// free.
pub open spec fn conforms(v: JsonView, schema: Schema) -> bool
    decreases schema, 0nat,
{
    match schema {
        Schema::Any => true,
        Schema::Bool => v is Bool,
        Schema::Num { min, max } => v matches JsonView::Num(n) && in_range(
            n,
            opt_num(min),
            opt_num(max),
        ),
        Schema::Str => v is Str,
        Schema::Choice(opts) => v matches JsonView::Str(s) && texts(opts@).contains(s),
        Schema::Arr(inner) => v matches JsonView::Arr(items) && items_conform(items, *inner),
        Schema::Obj(fields) => v matches JsonView::Obj(members) && {
            proof {
                assert(decreases_to!(schema => fields));
                assert(decreases_to!(fields => fields@));
            }
            fields_conform(members, fields@)
        },
    }
}

/// Every item conforms to `inner`.
pub open spec fn items_conform(items: Seq<JsonView>, inner: Schema) -> bool
    decreases inner, items.len() + 1,
{
    if items.len() == 0 {
        true
    } else {
        items_conform(items.drop_last(), inner) && conforms(items.last(), inner)
    }
}

/// No field before `k` has the name of field `k`: the first field of a
/// name is the one that claims it.
pub open spec fn first_named(fields: Seq<Field>, k: int) -> bool {
    forall|j: int| 0 <= j < k ==> #[trigger] fields[j].name@ != fields[k].name@
}

/// Every field that claims its name is honoured by `members`: a present
/// value conforms to the field's schema, and a required field is present.
pub open spec fn fields_conform(members: Seq<(Seq<char>, JsonView)>, fields: Seq<Field>) -> bool
    decreases fields, 0nat,
{
    if fields.len() == 0 {
        true
    } else {
        let f = fields.last();
        fields_conform(members, fields.drop_last()) && (first_named(fields, fields.len() - 1)
            ==> match lookup(members, f.name@) {
            Some(x) => {
                proof {
                    assert(decreases_to!(fields => fields[fields.len() - 1]));
                    assert(decreases_to!(fields[fields.len() - 1] => fields[fields.len() - 1].schema));
                }
                conforms(x, f.schema)
            },
            None => !f.required,
        })
    }
}

proof fn lemma_fields_conform_frame(
    a: Seq<(Seq<char>, JsonView)>,
    b: Seq<(Seq<char>, JsonView)>,
    fields: Seq<Field>,
)
    requires
        forall|j: int|
            0 <= j < fields.len() ==> lookup(a, (#[trigger] fields[j]).name@) == lookup(
                b,
                fields[j].name@,
            ),
    ensures
        fields_conform(a, fields) == fields_conform(b, fields),
    decreases fields.len(),
{
    if fields.len() > 0 {
        let pre = fields.drop_last();
        assert forall|j: int| 0 <= j < pre.len() implies lookup(a, (#[trigger] pre[j]).name@)
            == lookup(b, pre[j].name@) by {
            assert(pre[j] == fields[j]);
        }
        lemma_fields_conform_frame(a, b, pre);
        assert(fields.last() == fields[fields.len() - 1]);
    }
}

proof fn lemma_folded_hits(opts: Seq<Seq<char>>, folded: Seq<char>)
    ensures
        forall|i: int|
            0 <= i < folded_hits(opts, folded).len() ==> opts.contains(
                #[trigger] folded_hits(opts, folded)[i],
            ),
    decreases opts.len(),
{
    if opts.len() > 0 {
        let pre = opts.drop_last();
        lemma_folded_hits(pre, folded);
        let h = folded_hits(pre, folded);
        assert forall|i: int|
            0 <= i < folded_hits(opts, folded).len() implies opts.contains(
            #[trigger] folded_hits(opts, folded)[i],
        ) by {
            if i < h.len() {
                assert(folded_hits(opts, folded)[i] == h[i]);
                let j = choose|j: int| 0 <= j < pre.len() && pre[j] == h[i];
                assert(opts[j] == h[i]);
            } else {
                assert(opts[opts.len() - 1] == opts.last());
            }
        }
    }
}

/// A check that raises no question settles on a value that conforms.
proof fn lemma_check_conforms(v: JsonView, schema: Schema, path: Seq<char>)
    requires
        well_keyed(v),
        check_spec(v, schema, path).2.len() == 0,
    ensures
        conforms(check_spec(v, schema, path).0, schema),
    decreases schema, 0nat,
{
    match schema {
        Schema::Choice(opts) => {
            if let JsonView::Str(s) = v {
                lemma_folded_hits(texts(opts@), ascii_lower(trim(s)));
            }
        },
        Schema::Arr(inner) => {
            if let JsonView::Arr(items) = v {
                crate::json::lemma_items_well_keyed(items);
                lemma_items_conform(items, *inner, path);
            }
        },
        Schema::Obj(fields) => {
            if let JsonView::Obj(entries) = v {
                crate::json::lemma_members_well_keyed(entries);
                assert(decreases_to!(schema => fields));
                assert(decreases_to!(fields => fields@));
                lemma_fold_conforms(entries, fields@, path);
                let (rem, out, rs, qs) = fields_fold(entries, fields@, path);
                lemma_merge_rest(out, rem);
                let fs = fields@;
                assert forall|j: int| 0 <= j < fs.len() implies lookup(
                    merge_rest(out, rem),
                    (#[trigger] fs[j]).name@,
                ) == lookup(out, fs[j].name@) by {
                    assert(lookup(rem, fs[j].name@) is None);
                }
                lemma_fields_conform_frame(merge_rest(out, rem), out, fs);
            }
        },
        _ => {},
    }
}

proof fn lemma_items_conform(items: Seq<JsonView>, inner: Schema, path: Seq<char>)
    requires
        forall|i: int| 0 <= i < items.len() ==> #[trigger] well_keyed(items[i]),
        check_items(items, inner, path).2.len() == 0,
    ensures
        items_conform(check_items(items, inner, path).0, inner),
    decreases inner, items.len() + 1,
{
    if items.len() > 0 {
        let pre = items.drop_last();
        assert forall|i: int| 0 <= i < pre.len() implies #[trigger] well_keyed(pre[i]) by {
            assert(pre[i] == items[i]);
        }
        let (vs, rs, qs) = check_items(pre, inner, path);
        let (w, r, q) = check_spec(items.last(), inner, index_path(path, items.len() - 1));
        assert((qs + q).len() == qs.len() + q.len());
        lemma_items_conform(pre, inner, path);
        assert(well_keyed(items[items.len() - 1]));
        lemma_check_conforms(items.last(), inner, index_path(path, items.len() - 1));
        assert(vs.push(w).drop_last() =~= vs);
    }
}

/// Folding the declared fields: every name a field declares is claimed
/// from the unclaimed members, every other name is left where it was, and
/// with no question raised the checked members honour every field.
proof fn lemma_fold_conforms(entries: Seq<(Seq<char>, JsonView)>, fields: Seq<Field>, path: Seq<char>)
    requires
        keys_increasing(entries),
        forall|i: int| 0 <= i < entries.len() ==> #[trigger] well_keyed(entries[i].1),
    ensures
        ({
            let (rem, out, rs, qs) = fields_fold(entries, fields, path);
            &&& keys_increasing(rem)
            &&& keys_increasing(out)
            &&& forall|j: int| 0 <= j < fields.len() ==> lookup(rem, (#[trigger] fields[j]).name@) is None
            &&& forall|q: Seq<char>|
                (forall|j: int| 0 <= j < fields.len() ==> (#[trigger] fields[j]).name@ != q) ==> (
                #[trigger] lookup(rem, q) == lookup(entries, q) && lookup(out, q) is None)
            &&& qs.len() == 0 ==> fields_conform(out, fields)
        }),
    decreases fields, 0nat,
{
    if fields.len() > 0 {
        let pre = fields.drop_last();
        lemma_fold_conforms(entries, pre, path);
        let (rem, out, rs, qs) = fields_fold(entries, pre, path);
        let f = fields.last();
        let name = f.name@;
        let k = fields.len() - 1;
        assert(f == fields[k]);
        let fpath = field_path(path, name);
        assert forall|j: int| 0 <= j < pre.len() implies (#[trigger] pre[j]) == fields[j] by {}
        let r = fields_fold(entries, fields, path);
        if first_named(fields, k) {
            assert forall|j: int| 0 <= j < pre.len() implies (#[trigger] pre[j]).name@ != name by {
                assert(fields[j].name@ != fields[k].name@);
            }
            assert(lookup(rem, name) == lookup(entries, name));
            assert(lookup(out, name) is None);
        } else {
            let j0 = choose|j: int| 0 <= j < k && fields[j].name@ == fields[k].name@;
            assert(pre[j0].name@ == name);
            assert(lookup(rem, name) is None);
        }
        match lookup(rem, name) {
            Some(v) => {
                lemma_sorted_delete(rem, name);
                if v == JsonView::Null && !f.required && !(f.schema is Any) {
                    assert(r.1 == out);
                } else {
                    assert(decreases_to!(fields => fields[fields.len() - 1]));
                    assert(decreases_to!(fields[fields.len() - 1] => fields[fields.len() - 1].schema));
                    let (cv, r2, q2) = check_spec(v, f.schema, fpath);
                    assert((qs + q2).len() == qs.len() + q2.len());
                    lemma_sorted_insert(out, name, cv);
                    if qs.len() == 0 && q2.len() == 0 {
                        crate::textmap::lemma_lookup_member(entries, name);
                        let j = choose|j: int| 0 <= j < entries.len() && #[trigger] entries[j].1 == v;
                        assert(well_keyed(entries[j].1));
                        lemma_check_conforms(v, f.schema, fpath);
                        assert forall|j: int| 0 <= j < pre.len() implies lookup(
                            r.1,
                            (#[trigger] pre[j]).name@,
                        ) == lookup(out, pre[j].name@) by {
                            assert(pre[j] == fields[j]);
                            assert(lookup(rem, pre[j].name@) is None);
                        }
                        lemma_fields_conform_frame(r.1, out, pre);
                    }
                }
            },
            None => {
                if f.required {
                    assert(r.3 == qs.push(question(fpath, "required field is missing"@, Seq::empty())));
                }
            },
        }
        assert forall|q: Seq<char>|
            (forall|j: int| 0 <= j < fields.len() ==> (#[trigger] fields[j]).name@ != q) implies (
            #[trigger] lookup(r.0, q) == lookup(entries, q) && lookup(r.1, q) is None) by {
            assert(fields[k].name@ != q);
            assert forall|j: int| 0 <= j < pre.len() implies (#[trigger] pre[j]).name@ != q by {
                assert(fields[j].name@ != q);
            }
        }
        assert forall|j: int| 0 <= j < fields.len() implies lookup(r.0, (#[trigger] fields[j]).name@)
            is None by {
            if j < k {
                assert(pre[j] == fields[j]);
            }
        }
    }
}

/// There is no state where a value you cannot trust is handed over: a
/// check that raises no question settles on a value that conforms to its
/// schema.
pub proof fn law_unquestioned_check_conforms(v: JsonView, schema: Schema, path: Seq<char>)
    requires
        well_keyed(v),
        check_spec(v, schema, path).2.len() == 0,
    ensures
        conforms(check_spec(v, schema, path).0, schema),
{
    lemma_check_conforms(v, schema, path);
}

// ---------------------------------------------------------------------------
// A range is asked about, never collapsed
// ---------------------------------------------------------------------------

proof fn lemma_find_sub_occurs(s: Seq<char>, i: int, pat: Seq<char>)
    ensures
        find_sub(s, i, pat) matches Some(k) ==> occurs_at(s, k, pat),
    decreases s.len() + 1 - i,
{
    if 0 <= i && i + pat.len() <= s.len() && !occurs_at(s, i, pat) {
        lemma_find_sub_occurs(s, i + 1, pat);
    }
}

proof fn lemma_find_single(t: Seq<char>, a: Seq<char>, c: char, i: int)
    requires
        0 <= i <= a.len(),
        t.len() > a.len(),
        t.take(a.len() as int) == a,
        t[a.len() as int] == c,
        !a.contains(c),
    ensures
        find_sub(t, i, seq![c]) == Some(a.len() as int),
    decreases a.len() - i,
{
    if i < a.len() {
        assert(t[i] == a[i]);
        assert(!occurs_at(t, i, seq![c])) by {
            if occurs_at(t, i, seq![c]) {
                assert(t.subrange(i, i + 1)[0] == t[i]);
                assert(a.contains(c));
            }
        }
        lemma_find_single(t, a, c, i + 1);
    } else {
        assert(t.subrange(i, i + 1) =~= seq![c]);
    }
}

/// A quantity written as a range `x-y` (or `x–y`), whose sides are numbers
/// and which is not itself a number, a hedged number or an either-or
/// reading, is never resolved: the check withholds the value, repairs
/// nothing, and asks one question at the path whose candidates are exactly
/// the two numbers, in order.
pub proof fn law_range_is_asked_not_collapsed(
    s: Seq<char>,
    min: Option<Number>,
    max: Option<Number>,
    path: Seq<char>,
    a: Seq<char>,
    dash: char,
    b: Seq<char>,
    x: NumView,
    y: NumView,
)
    requires
        trim(s) == a + seq![dash] + b,
        dash == '-' || (dash == '–' && !trim(s).contains('-')),
        !a.contains(dash),
        trimmed_number(a) == Some(x),
        trimmed_number(b) == Some(y),
        float_text_value(trim(s)) is None,
        hedged_from(ascii_lower(trim(s)), 0) is None,
        two_readings(ascii_lower(trim(s)), " or "@) is None,
    ensures
        check_spec(JsonView::Str(s), Schema::Num { min, max }, path).0 == JsonView::Null,
        check_spec(JsonView::Str(s), Schema::Num { min, max }, path).1.len() == 0,
        check_spec(JsonView::Str(s), Schema::Num { min, max }, path).2.len() == 1,
        check_spec(JsonView::Str(s), Schema::Num { min, max }, path).2[0].path == path,
        check_spec(JsonView::Str(s), Schema::Num { min, max }, path).2[0].candidates == seq![
            num_text(x),
            num_text(y),
        ],
{
    let t = trim(s);
    assert(t.take(a.len() as int) =~= a);
    assert(t[a.len() as int] == dash);
    lemma_find_single(t, a, dash, 0);
    assert(seq![dash].len() == 1);
    assert(t.skip(a.len() + 1int) =~= b);
    if dash == '-' {
        assert("-"@ =~= seq!['-']) by {
            reveal_strlit("-");
        }
        assert(two_readings(t, "-"@) == Some((x, y)));
    } else {
        assert("–"@ =~= seq!['–']) by {
            reveal_strlit("–");
        }
        assert("-"@ =~= seq!['-']) by {
            reveal_strlit("-");
        }
        lemma_find_sub(t, 0, "-"@);
        lemma_find_sub_occurs(t, 0, "-"@);
        if find_sub(t, 0, "-"@) is Some {
            let k = find_sub(t, 0, "-"@)->Some_0;
            assert(occurs_at(t, k, "-"@));
            assert(t.subrange(k, k + 1)[0] == t[k]);
            assert(t.contains('-'));
        }
        assert(two_readings(t, "-"@) is None);
        assert(two_readings(t, "–"@) == Some((x, y)));
    }
}

} // verus!
