//! The drift report: two provenance envelopes read under a closed contract,
//! compared concept by concept and case by case, and the finding written as
//! one JSON report that keeps both histories attached.

use vstd::prelude::*;

use crate::check::{ascii_lower, ascii_lowercase};
use crate::report::{
    Members, no_members, put, rejection, rejection_json, string_array, strings_json, stored, text_value, with,
};
use crate::erasure::str_eq;
use crate::json::{item_views, kind_name, member_views, p_document, parse, JsonView, Value};
use crate::number::{
    count_num, num_lt, num_zero, truncated_units, units_text, units_to_text, NumView, Number,
};
use crate::ontology::{
    canonical_definition_spec, definitions_differ, keys_missing_from, keys_redefined, opt_str,
    text_entries, BehaviorProbe, BehaviorReading, OntologySnapshot,
};
use crate::provenance::{
    case_views, cases_from, share_views, ComparisonError, EnvelopeComparison, Labor,
    ProvenanceEnvelope, ProvenanceLabel,
};
use crate::text::{blank, debug_str, debug_text, dec_chars, is_blank, string_from_chars, texts, usize_to_string};
use crate::textmap::{entry_views, has_key, keys_increasing, lookup, TextMap};

verus! {

broadcast use crate::json::group_json_view;

/// A refusal as plain values: the path of the offending value, and why.
pub type Refusal = (Seq<char>, Seq<char>);

/// An input refused by the envelope contract.
#[derive(Debug, Clone, PartialEq, Eq)]
pub struct InputError {
    pub path: String,
    pub message: String,
}

impl View for InputError {
    type V = Refusal;

    open spec fn view(&self) -> Refusal {
        (self.path@, self.message@)
    }
}

impl InputError {
    pub fn new(path: &str, message: &str) -> (r: Self)
        ensures
            r@ == (path@, message@),
    {
        InputError { path: String::from_str(path), message: String::from_str(message) }
    }

    /// `"<path>: <message>"`.
    pub fn to_string(&self) -> (r: String)
        ensures
            r@ == self.path@ + ": "@ + self.message@,
    {
        let mut r = self.path.clone();
        r.append(": ");
        r.append(self.message.as_str());
        r
    }
}

/// `path.key`.
pub open spec fn dotted(path: Seq<char>, key: Seq<char>) -> Seq<char> {
    path + "."@ + key
}

fn dotted_exec(path: &str, key: &str) -> (r: String)
    ensures
        r@ == dotted(path@, key@),
{
    let mut r = String::from_str(path);
    r.append(".");
    r.append(key);
    r
}

fn refuse<A>(path: &str, message: &str) -> (r: Result<A, InputError>)
    ensures
        r matches Err(e) && e@ == (path@, message@),
{
    Err(InputError::new(path, message))
}

// ---------------------------------------------------------------------------
// Reading one value
// ---------------------------------------------------------------------------

pub open spec fn expect_object_spec(v: JsonView, path: Seq<char>) -> Result<Members, Refusal> {
    match v {
        JsonView::Obj(m) => Ok(m),
        _ => Err((path, "expected object, got "@ + kind_name(v))),
    }
}

/// The members of an object, or a refusal naming what was there instead.
pub fn expect_object<'a>(value: &'a Value, path: &str) -> (r: Result<&'a TextMap<Value>, InputError>)
    ensures
        match expect_object_spec(value@, path@) {
            Ok(m) => r matches Ok(o) && member_views(o.entries()) == m,
            Err(e) => r matches Err(x) && x@ == e,
        },
{
    match value {
        Value::Obj(m) => Ok(m),
        _ => {
            let mut message = String::from_str("expected object, got ");
            message.append(value.type_label());
            refuse(path, message.as_str())
        },
    }
}

pub open spec fn expect_array_spec(v: JsonView, path: Seq<char>) -> Result<Seq<JsonView>, Refusal> {
    match v {
        JsonView::Arr(items) => Ok(items),
        _ => Err((path, "expected array, got "@ + kind_name(v))),
    }
}

/// The items of an array, or a refusal naming what was there instead.
pub fn expect_array<'a>(value: &'a Value, path: &str) -> (r: Result<&'a Vec<Value>, InputError>)
    ensures
        match expect_array_spec(value@, path@) {
            Ok(items) => r matches Ok(a) && item_views(a@) == items,
            Err(e) => r matches Err(x) && x@ == e,
        },
{
    match value {
        Value::Arr(items) => Ok(items),
        _ => {
            let mut message = String::from_str("expected array, got ");
            message.append(value.type_label());
            refuse(path, message.as_str())
        },
    }
}

pub open spec fn expect_string_spec(v: JsonView, path: Seq<char>) -> Result<Seq<char>, Refusal> {
    match v {
        JsonView::Str(s) => if !is_blank(s) {
            Ok(s)
        } else {
            Err((path, "string must not be empty"@))
        },
        _ => Err((path, "expected string, got "@ + kind_name(v))),
    }
}

/// A string that is not blank, or a refusal.
pub fn expect_string(value: &Value, path: &str) -> (r: Result<String, InputError>)
    ensures
        match expect_string_spec(value@, path@) {
            Ok(s) => r matches Ok(x) && x@ == s,
            Err(e) => r matches Err(x) && x@ == e,
        },
{
    match value {
        Value::Str(s) => if !blank(s.as_str()) {
            Ok(s.clone())
        } else {
            refuse(path, "string must not be empty")
        },
        _ => {
            let mut message = String::from_str("expected string, got ");
            message.append(value.type_label());
            refuse(path, message.as_str())
        },
    }
}

// ---------------------------------------------------------------------------
// Reading the fields of an object
// ---------------------------------------------------------------------------

pub open spec fn required_spec(m: Members, key: Seq<char>, path: Seq<char>) -> Result<JsonView, Refusal> {
    match lookup(m, key) {
        Some(v) => Ok(v),
        None => Err((dotted(path, key), "required field is missing"@)),
    }
}

/// The value of a field the contract requires.
pub fn required<'a>(object: &'a TextMap<Value>, key: &str, path: &str) -> (r: Result<
    &'a Value,
    InputError,
>)
    ensures
        match required_spec(member_views(object.entries()), key@, path@) {
            Ok(v) => r matches Ok(x) && x@ == v,
            Err(e) => r matches Err(x) && x@ == e,
        },
{
    proof {
        crate::json::lemma_member_views_lookup(object.entries(), key@);
    }
    match object.get(key) {
        Some(v) => Ok(v),
        None => {
            let p = dotted_exec(path, key);
            refuse(p.as_str(), "required field is missing")
        },
    }
}

pub open spec fn required_string_spec(m: Members, key: Seq<char>, path: Seq<char>) -> Result<
    Seq<char>,
    Refusal,
> {
    match required_spec(m, key, path) {
        Ok(v) => expect_string_spec(v, dotted(path, key)),
        Err(e) => Err(e),
    }
}

/// A required field holding a string that is not blank.
pub fn required_string(object: &TextMap<Value>, key: &str, path: &str) -> (r: Result<
    String,
    InputError,
>)
    ensures
        match required_string_spec(member_views(object.entries()), key@, path@) {
            Ok(s) => r matches Ok(x) && x@ == s,
            Err(e) => r matches Err(x) && x@ == e,
        },
{
    let v = required(object, key, path)?;
    let p = dotted_exec(path, key);
    expect_string(v, p.as_str())
}

pub open spec fn is_hex_char(c: char) -> bool {
    ('0' <= c <= '9') || ('a' <= c <= 'f') || ('A' <= c <= 'F')
}

/// Sixty-four hexadecimal digits.
pub open spec fn is_sha256_text(s: Seq<char>) -> bool {
    s.len() == 64 && forall|i: int| 0 <= i < s.len() ==> is_hex_char(#[trigger] s[i])
}

fn is_sha256_exec(s: &Vec<char>) -> (r: bool)
    ensures
        r == is_sha256_text(s@),
{
    if s.len() != 64 {
        return false;
    }
    let mut i: usize = 0;
    while i < s.len()
        invariant
            i <= s@.len(),
            forall|k: int| 0 <= k < i ==> is_hex_char(#[trigger] s@[k]),
        decreases s@.len() - i,
    {
        let c = s[i];
        if !(('0' <= c && c <= '9') || ('a' <= c && c <= 'f') || ('A' <= c && c <= 'F')) {
            return false;
        }
        i = i + 1;
    }
    true
}

pub open spec fn required_sha256_spec(m: Members, key: Seq<char>, path: Seq<char>) -> Result<
    Seq<char>,
    Refusal,
> {
    match required_string_spec(m, key, path) {
        Ok(s) => if is_sha256_text(s) {
            Ok(ascii_lower(s))
        } else {
            Err((dotted(path, key), "expected a 64-character SHA-256 hex digest"@))
        },
        Err(e) => Err(e),
    }
}

/// A required SHA-256 digest, lowercased.
pub fn required_sha256(object: &TextMap<Value>, key: &str, path: &str) -> (r: Result<
    String,
    InputError,
>)
    ensures
        match required_sha256_spec(member_views(object.entries()), key@, path@) {
            Ok(s) => r matches Ok(x) && x@ == s,
            Err(e) => r matches Err(x) && x@ == e,
        },
{
    let value = required_string(object, key, path)?;
    let chars = crate::text::chars_of(value.as_str());
    if !is_sha256_exec(&chars) {
        let p = dotted_exec(path, key);
        return refuse(p.as_str(), "expected a 64-character SHA-256 hex digest");
    }
    let lower = ascii_lowercase(chars.as_slice());
    Ok(string_from_chars(lower.as_slice()))
}

/// The first key of `m` from position `i` on that `allowed` does not list.
pub open spec fn first_unknown(m: Members, allowed: Seq<Seq<char>>, i: int) -> Option<Seq<char>>
    decreases m.len() - i,
{
    if i < 0 || i >= m.len() {
        None
    } else if !allowed.contains(m[i].0) {
        Some(m[i].0)
    } else {
        first_unknown(m, allowed, i + 1)
    }
}

pub open spec fn reject_unknown_spec(m: Members, allowed: Seq<Seq<char>>, path: Seq<char>) -> Result<
    (),
    Refusal,
> {
    match first_unknown(m, allowed, 0) {
        Some(f) => Err(
            (
                dotted(path, f),
                "unknown field; the strict envelope contract rejects data it cannot preserve"@,
            ),
        ),
        None => Ok(()),
    }
}

pub open spec fn str_list(v: Seq<&str>) -> Seq<Seq<char>> {
    v.map_values(|s: &str| s@)
}

fn listed_in(allowed: &[&str], key: &str) -> (r: bool)
    ensures
        r == str_list(allowed@).contains(key@),
{
    let mut i: usize = 0;
    while i < allowed.len()
        invariant
            i <= allowed@.len(),
            forall|k: int| 0 <= k < i ==> #[trigger] str_list(allowed@)[k] != key@,
        decreases allowed@.len() - i,
    {
        if str_eq(allowed[i], key) {
            assert(str_list(allowed@)[i as int] == key@);
            return true;
        }
        i = i + 1;
    }
    false
}

/// Refuses an object holding a field the contract does not name: data that
/// could not be preserved is not silently dropped.
pub fn reject_unknown_fields(object: &TextMap<Value>, allowed: &[&str], path: &str) -> (r: Result<
    (),
    InputError,
>)
    ensures
        match reject_unknown_spec(member_views(object.entries()), str_list(allowed@), path@) {
            Ok(()) => r is Ok,
            Err(e) => r matches Err(x) && x@ == e,
        },
{
    let ghost m = member_views(object.entries());
    let ghost al = str_list(allowed@);
    let mut i: usize = 0;
    while i < object.len()
        invariant
            i <= object.entries().len(),
            m == member_views(object.entries()),
            al == str_list(allowed@),
            first_unknown(m, al, 0) == first_unknown(m, al, i as int),
        decreases object.entries().len() - i,
    {
        let (k, _) = object.entry(i);
        assert(m[i as int].0 == k@);
        if !listed_in(allowed, k.as_str()) {
            let p = dotted_exec(path, k.as_str());
            return refuse(
                p.as_str(),
                "unknown field; the strict envelope contract rejects data it cannot preserve",
            );
        }
        i = i + 1;
    }
    Ok(())
}

// ---------------------------------------------------------------------------
// Numbers
// ---------------------------------------------------------------------------

pub open spec fn required_number_spec(m: Members, key: Seq<char>, path: Seq<char>) -> Result<
    NumView,
    Refusal,
> {
    match required_spec(m, key, path) {
        Ok(JsonView::Num(n)) => Ok(n),
        Ok(v) => Err((dotted(path, key), "expected number, got "@ + kind_name(v))),
        Err(e) => Err(e),
    }
}

/// A required number.
pub fn required_number(object: &TextMap<Value>, key: &str, path: &str) -> (r: Result<
    Number,
    InputError,
>)
    ensures
        match required_number_spec(member_views(object.entries()), key@, path@) {
            Ok(n) => r matches Ok(x) && x@ == n,
            Err(e) => r matches Err(x) && x@ == e,
        },
{
    let v = required(object, key, path)?;
    match v {
        Value::Num(n) => Ok(n.duplicate()),
        _ => {
            let p = dotted_exec(path, key);
            let mut message = String::from_str("expected number, got ");
            message.append(v.type_label());
            refuse(p.as_str(), message.as_str())
        },
    }
}

/// The largest integer a JSON number holds exactly as an IEEE double.
pub open spec fn exact_integer_limit() -> nat {
    9_007_199_254_740_991
}

pub open spec fn required_u64_spec(m: Members, key: Seq<char>, path: Seq<char>) -> Result<
    nat,
    Refusal,
> {
    match required_number_spec(m, key, path) {
        Ok(n) => if n.neg || !(n.digits.len() <= n.exp) || truncated_units(n, 0)
            > exact_integer_limit() {
            Err(
                (
                    dotted(path, key),
                    "expected a non-negative integer no larger than JSON's exact-integer limit"@,
                ),
            )
        } else {
            Ok(truncated_units(n, 0))
        },
        Err(e) => Err(e),
    }
}

/// A required whole number from zero up to the exact-integer limit.
pub fn required_u64(object: &TextMap<Value>, key: &str, path: &str) -> (r: Result<u64, InputError>)
    ensures
        match required_u64_spec(member_views(object.entries()), key@, path@) {
            Ok(n) => r matches Ok(x) && x == n,
            Err(e) => r matches Err(x) && x@ == e,
        },
{
    let number = required_number(object, key, path)?;
    if !number.is_negative() && number.is_integral() {
        match number.truncated_units(0) {
            Some(v) => if v <= 9_007_199_254_740_991u128 {
                return Ok(v as u64);
            },
            None => {},
        }
    }
    let p = dotted_exec(path, key);
    refuse(p.as_str(), "expected a non-negative integer no larger than JSON's exact-integer limit")
}

// ---------------------------------------------------------------------------
// The provenance label
// ---------------------------------------------------------------------------

/// A provenance label as plain values.
pub struct LabelView {
    pub corpus: Seq<char>,
    pub source_uri: Seq<char>,
    pub corpus_sha256: Seq<char>,
    pub tokens: nat,
    pub vintage: Seq<char>,
    pub languages: Seq<(Seq<char>, NumView)>,
    pub labor: Labor,
    pub notes: Seq<Seq<char>>,
}

pub open spec fn label_view(l: ProvenanceLabel) -> LabelView {
    LabelView {
        corpus: l.corpus@,
        source_uri: l.source_uri@,
        corpus_sha256: l.corpus_sha256@,
        tokens: l.tokens as nat,
        vintage: l.vintage@,
        languages: share_views(l.languages@),
        labor: l.annotator_labor,
        notes: texts(l.notes@),
    }
}

pub open spec fn num_one() -> NumView {
    NumView { neg: false, digits: seq![1u8], exp: 1 }
}

/// The path of item `i` of an array at `path`.
pub open spec fn item_path(path: Seq<char>, i: nat) -> Seq<char> {
    path + "["@ + dec_chars(i) + "]"@
}

fn item_path_exec(path: &str, i: usize) -> (r: String)
    ensures
        r@ == item_path(path@, i as nat),
{
    let mut r = String::from_str(path);
    r.append("[");
    r.append(usize_to_string(i).as_str());
    r.append("]");
    r
}

pub open spec fn language_codes(langs: Seq<(Seq<char>, NumView)>) -> Seq<Seq<char>> {
    langs.map_values(|p: (Seq<char>, NumView)| p.0)
}

/// One language share: an object of a code not seen before and a share from
/// zero to one.
pub open spec fn language_spec(
    item: JsonView,
    path: Seq<char>,
    seen: Seq<(Seq<char>, NumView)>,
) -> Result<(Seq<char>, NumView), Refusal> {
    match expect_object_spec(item, path) {
        Err(e) => Err(e),
        Ok(o) => match reject_unknown_spec(o, seq!["code"@, "share"@], path) {
            Err(e) => Err(e),
            Ok(_) => match required_string_spec(o, "code"@, path) {
                Err(e) => Err(e),
                Ok(code) => if language_codes(seen).contains(code) {
                    Err((dotted(path, "code"@), "duplicate language code "@ + debug_text(code)))
                } else {
                    match required_number_spec(o, "share"@, path) {
                        Err(e) => Err(e),
                        Ok(share) => if num_lt(share, num_zero()) || num_lt(num_one(), share) {
                            Err(
                                (
                                    dotted(path, "share"@),
                                    "share must be a finite number between 0 and 1"@,
                                ),
                            )
                        } else {
                            Ok((code, share))
                        },
                    }
                },
            },
        },
    }
}

/// The language shares in order, or the first refusal.
pub open spec fn languages_spec(items: Seq<JsonView>) -> Result<Seq<(Seq<char>, NumView)>, Refusal>
    decreases items.len(),
{
    if items.len() == 0 {
        Ok(Seq::empty())
    } else {
        match languages_spec(items.drop_last()) {
            Err(e) => Err(e),
            Ok(seen) => match language_spec(
                items.last(),
                item_path("$.provenance.languages"@, (items.len() - 1) as nat),
                seen,
            ) {
                Err(e) => Err(e),
                Ok(l) => Ok(seen.push(l)),
            },
        }
    }
}

/// The shares summed, each cut off below the thirtieth decimal place, in
/// units of 10^-30.
pub open spec fn share_units(langs: Seq<(Seq<char>, NumView)>) -> nat
    decreases langs.len(),
{
    if langs.len() == 0 {
        0
    } else {
        share_units(langs.drop_last()) + truncated_units(langs.last().1, 30)
    }
}

pub open spec fn units_per_one() -> nat {
    1_000_000_000_000_000_000_000_000_000_000
}

pub open spec fn tolerance_units() -> nat {
    1_000_000_000_000_000_000_000_000
}

/// The shares total one within one part in a million. The sum is exact
/// (after each share is cut off below the thirtieth decimal place), not a
/// sum of binary floats, so totals within rounding error of the bound can
/// be judged otherwise than a float sum would judge them.
pub open spec fn shares_total_one(langs: Seq<(Seq<char>, NumView)>) -> bool {
    units_per_one() - tolerance_units() <= share_units(langs) <= units_per_one()
        + tolerance_units()
}

pub open spec fn share_total_message(langs: Seq<(Seq<char>, NumView)>) -> Seq<char> {
    if share_units(langs) > u128::MAX {
        "language shares must total 1.0; got more than "@ + units_text(u128::MAX as nat, 30)
    } else {
        "language shares must total 1.0; got "@ + units_text(share_units(langs), 30)
    }
}

pub open spec fn labor_spec(s: Seq<char>) -> Option<Labor> {
    if s == "credited"@ {
        Some(Labor::Credited)
    } else if s == "uncredited"@ {
        Some(Labor::Uncredited)
    } else {
        None
    }
}

pub open spec fn notes_spec(items: Seq<JsonView>) -> Result<Seq<Seq<char>>, Refusal>
    decreases items.len(),
{
    if items.len() == 0 {
        Ok(Seq::empty())
    } else {
        match notes_spec(items.drop_last()) {
            Err(e) => Err(e),
            Ok(acc) => match expect_string_spec(
                items.last(),
                item_path("$.provenance.notes"@, (items.len() - 1) as nat),
            ) {
                Err(e) => Err(e),
                Ok(n) => Ok(acc.push(n)),
            },
        }
    }
}

pub open spec fn provenance_fields() -> Seq<Seq<char>> {
    seq![
        "corpus"@,
        "source_uri"@,
        "sha256"@,
        "tokens"@,
        "vintage"@,
        "languages"@,
        "annotator_labor"@,
        "notes"@,
    ]
}

/// The scalar fields of a label: corpus, source, digest, vintage, tokens and
/// labor, read in that order.
pub open spec fn label_head_spec(o: Members) -> Result<
    (Seq<char>, Seq<char>, Seq<char>, Seq<char>, nat, Labor),
    Refusal,
> {
    let p = "$.provenance"@;
    match required_string_spec(o, "corpus"@, p) {
        Err(e) => Err(e),
        Ok(corpus) => match required_string_spec(o, "source_uri"@, p) {
            Err(e) => Err(e),
            Ok(uri) => match required_sha256_spec(o, "sha256"@, p) {
                Err(e) => Err(e),
                Ok(sha) => match required_string_spec(o, "vintage"@, p) {
                    Err(e) => Err(e),
                    Ok(vintage) => match required_u64_spec(o, "tokens"@, p) {
                        Err(e) => Err(e),
                        Ok(tokens) => match required_string_spec(o, "annotator_labor"@, p) {
                            Err(e) => Err(e),
                            Ok(l) => match labor_spec(l) {
                                None => Err(
                                    (
                                        "$.provenance.annotator_labor"@,
                                        "expected `credited` or `uncredited`"@,
                                    ),
                                ),
                                Some(labor) => Ok((corpus, uri, sha, vintage, tokens, labor)),
                            },
                        },
                    },
                },
            },
        },
    }
}

/// The language shares, checked to total one, then the notes.
pub open spec fn label_tail_spec(o: Members) -> Result<
    (Seq<(Seq<char>, NumView)>, Seq<Seq<char>>),
    Refusal,
> {
    let p = "$.provenance"@;
    match required_spec(o, "languages"@, p) {
        Err(e) => Err(e),
        Ok(lv) => match expect_array_spec(lv, "$.provenance.languages"@) {
            Err(e) => Err(e),
            Ok(items) => if items.len() == 0 {
                Err(("$.provenance.languages"@, "at least one language share is required"@))
            } else {
                match languages_spec(items) {
                    Err(e) => Err(e),
                    Ok(langs) => if !shares_total_one(langs) {
                        Err(("$.provenance.languages"@, share_total_message(langs)))
                    } else {
                        match required_spec(o, "notes"@, p) {
                            Err(e) => Err(e),
                            Ok(nv) => match expect_array_spec(nv, "$.provenance.notes"@) {
                                Err(e) => Err(e),
                                Ok(ns) => match notes_spec(ns) {
                                    Err(e) => Err(e),
                                    Ok(notes) => Ok((langs, notes)),
                                },
                            },
                        }
                    },
                }
            },
        },
    }
}

/// What the provenance section of an envelope says, or the first refusal.
pub open spec fn provenance_spec(v: JsonView) -> Result<LabelView, Refusal> {
    match expect_object_spec(v, "$.provenance"@) {
        Err(e) => Err(e),
        Ok(o) => match reject_unknown_spec(o, provenance_fields(), "$.provenance"@) {
            Err(e) => Err(e),
            Ok(_) => match label_head_spec(o) {
                Err(e) => Err(e),
                Ok((corpus, source_uri, corpus_sha256, vintage, tokens, labor)) => match label_tail_spec(
                    o,
                ) {
                    Err(e) => Err(e),
                    Ok((languages, notes)) => Ok(
                        LabelView {
                            corpus,
                            source_uri,
                            corpus_sha256,
                            tokens,
                            vintage,
                            languages,
                            labor,
                            notes,
                        },
                    ),
                },
            },
        },
    }
}

proof fn lemma_languages_stop(items: Seq<JsonView>, n: int)
    requires
        0 <= n <= items.len(),
        languages_spec(items.take(n)) is Err,
    ensures
        languages_spec(items) == languages_spec(items.take(n)),
    decreases items.len() - n,
{
    if n < items.len() {
        let t = items.take(n + 1);
        assert(t.drop_last() =~= items.take(n));
        lemma_languages_stop(items, n + 1);
    } else {
        assert(items.take(n) =~= items);
    }
}

proof fn lemma_notes_stop(items: Seq<JsonView>, n: int)
    requires
        0 <= n <= items.len(),
        notes_spec(items.take(n)) is Err,
    ensures
        notes_spec(items) == notes_spec(items.take(n)),
    decreases items.len() - n,
{
    if n < items.len() {
        let t = items.take(n + 1);
        assert(t.drop_last() =~= items.take(n));
        lemma_notes_stop(items, n + 1);
    } else {
        assert(items.take(n) =~= items);
    }
}

fn code_seen(seen: &Vec<(String, Number)>, code: &String) -> (r: bool)
    ensures
        r == language_codes(share_views(seen@)).contains(code@),
{
    let ghost codes = language_codes(share_views(seen@));
    let mut i: usize = 0;
    while i < seen.len()
        invariant
            i <= seen@.len(),
            codes == language_codes(share_views(seen@)),
            forall|k: int| 0 <= k < i ==> #[trigger] codes[k] != code@,
        decreases seen@.len() - i,
    {
        if str_eq(seen[i].0.as_str(), code.as_str()) {
            assert(codes[i as int] == code@);
            return true;
        }
        i = i + 1;
    }
    false
}

fn parse_language(item: &Value, path: &str, seen: &Vec<(String, Number)>) -> (r: Result<
    (String, Number),
    InputError,
>)
    ensures
        match language_spec(item@, path@, share_views(seen@)) {
            Ok(l) => r matches Ok(x) && (x.0@, x.1@) == l,
            Err(e) => r matches Err(x) && x@ == e,
        },
{
    let o = expect_object(item, path)?;
    let allowed: [&str; 2] = ["code", "share"];
    assert(str_list(allowed@) =~= seq!["code"@, "share"@]);
    reject_unknown_fields(o, &allowed, path)?;
    let code = required_string(o, "code", path)?;
    if code_seen(seen, &code) {
        let p = dotted_exec(path, "code");
        let mut message = String::from_str("duplicate language code ");
        message.append(debug_str(code.as_str()).as_str());
        return refuse(p.as_str(), message.as_str());
    }
    let share = required_number(o, "share", path)?;
    let zero = Number::zero();
    let one = Number::from_int(1);
    assert(one@ == num_one()) by {
        reveal_with_fuel(crate::number::int_digits, 2);
        reveal_with_fuel(crate::number::first_nonzero, 3);
        reveal_with_fuel(crate::number::end_nonzero, 3);
        assert(crate::number::int_digits(1) == seq![1u8]);
        assert(seq![1u8].subrange(0, 1) =~= seq![1u8]);
    }
    if share.lt(&zero) || one.lt(&share) {
        let p = dotted_exec(path, "share");
        return refuse(p.as_str(), "share must be a finite number between 0 and 1");
    }
    Ok((code, share))
}

fn parse_languages(items: &Vec<Value>) -> (r: Result<Vec<(String, Number)>, InputError>)
    ensures
        match languages_spec(item_views(items@)) {
            Ok(l) => r matches Ok(x) && share_views(x@) == l,
            Err(e) => r matches Err(x) && x@ == e,
        },
{
    let ghost iv = item_views(items@);
    let mut out: Vec<(String, Number)> = Vec::new();
    let mut i: usize = 0;
    assert(iv.take(0) =~= Seq::<JsonView>::empty());
    assert(share_views(out@) =~= Seq::<(Seq<char>, NumView)>::empty());
    while i < items.len()
        invariant
            i <= items@.len(),
            iv == item_views(items@),
            languages_spec(iv.take(i as int)) == Ok::<Seq<(Seq<char>, NumView)>, Refusal>(
                share_views(out@),
            ),
        decreases items@.len() - i,
    {
        let path = item_path_exec("$.provenance.languages", i);
        let ghost t = iv.take(i + 1);
        assert(t.drop_last() =~= iv.take(i as int));
        assert(t.last() == items@[i as int]@);
        match parse_language(&items[i], path.as_str(), &out) {
            Ok(l) => {
                let ghost before = out@;
                out.push(l);
                assert(share_views(out@) =~= share_views(before).push((l.0@, l.1@)));
            },
            Err(e) => {
                proof {
                    lemma_languages_stop(iv, i + 1);
                }
                return Err(e);
            },
        }
        i = i + 1;
    }
    assert(iv.take(i as int) =~= iv);
    Ok(out)
}

fn parse_notes(items: &Vec<Value>) -> (r: Result<Vec<String>, InputError>)
    ensures
        match notes_spec(item_views(items@)) {
            Ok(n) => r matches Ok(x) && texts(x@) == n,
            Err(e) => r matches Err(x) && x@ == e,
        },
{
    let ghost iv = item_views(items@);
    let mut out: Vec<String> = Vec::new();
    let mut i: usize = 0;
    assert(iv.take(0) =~= Seq::<JsonView>::empty());
    assert(texts(out@) =~= Seq::<Seq<char>>::empty());
    while i < items.len()
        invariant
            i <= items@.len(),
            iv == item_views(items@),
            notes_spec(iv.take(i as int)) == Ok::<Seq<Seq<char>>, Refusal>(texts(out@)),
        decreases items@.len() - i,
    {
        let path = item_path_exec("$.provenance.notes", i);
        let ghost t = iv.take(i + 1);
        assert(t.drop_last() =~= iv.take(i as int));
        assert(t.last() == items@[i as int]@);
        match expect_string(&items[i], path.as_str()) {
            Ok(n) => {
                let ghost before = out@;
                out.push(n);
                assert(texts(out@) =~= texts(before).push(n@));
            },
            Err(e) => {
                proof {
                    lemma_notes_stop(iv, i + 1);
                }
                return Err(e);
            },
        }
        i = i + 1;
    }
    assert(iv.take(i as int) =~= iv);
    Ok(out)
}

proof fn lemma_share_units_prefix(langs: Seq<(Seq<char>, NumView)>, i: int, j: int)
    requires
        0 <= i <= j <= langs.len(),
    ensures
        share_units(langs.take(i)) <= share_units(langs.take(j)),
    decreases j - i,
{
    if i < j {
        lemma_share_units_prefix(langs, i, j - 1);
        assert(langs.take(j).drop_last() =~= langs.take(j - 1));
    }
}

/// The shares summed in units of 10^-30; `None` when the sum does not fit
/// in a `u128`.
fn share_total(langs: &Vec<(String, Number)>) -> (r: Option<u128>)
    ensures
        match r {
            Some(t) => t == share_units(share_views(langs@)),
            None => share_units(share_views(langs@)) > u128::MAX,
        },
{
    let ghost sv = share_views(langs@);
    let mut total: u128 = 0;
    let mut i: usize = 0;
    assert(sv.take(0) =~= Seq::<(Seq<char>, NumView)>::empty());
    while i < langs.len()
        invariant
            i <= langs@.len(),
            sv == share_views(langs@),
            total == share_units(sv.take(i as int)),
        decreases langs@.len() - i,
    {
        let ghost t = sv.take(i + 1);
        assert(t.drop_last() =~= sv.take(i as int));
        assert(t.last().1 == langs@[i as int].1@);
        match langs[i].1.truncated_units(30) {
            Some(u) => match total.checked_add(u) {
                Some(x) => {
                    total = x;
                },
                None => {
                    proof {
                        lemma_share_units_prefix(sv, i + 1, sv.len() as int);
                        assert(sv.take(sv.len() as int) =~= sv);
                    }
                    return None;
                },
            },
            None => {
                proof {
                    lemma_share_units_prefix(sv, i + 1, sv.len() as int);
                    assert(sv.take(sv.len() as int) =~= sv);
                }
                return None;
            },
        }
        i = i + 1;
    }
    assert(sv.take(i as int) =~= sv);
    Some(total)
}

/// Reads the provenance section of an envelope: a closed object whose
/// language shares have unique codes, lie between zero and one and total
/// one, and whose labor is named.
pub fn parse_provenance(value: &Value) -> (r: Result<ProvenanceLabel, InputError>)
    ensures
        match provenance_spec(value@) {
            Ok(l) => r matches Ok(x) && label_view(x) == l,
            Err(e) => r matches Err(x) && x@ == e,
        },
{
    let p = "$.provenance";
    let object = expect_object(value, p)?;
    let allowed: [&str; 8] = [
        "corpus",
        "source_uri",
        "sha256",
        "tokens",
        "vintage",
        "languages",
        "annotator_labor",
        "notes",
    ];
    assert(str_list(allowed@) =~= provenance_fields());
    reject_unknown_fields(object, &allowed, p)?;
    let corpus = required_string(object, "corpus", p)?;
    let source_uri = required_string(object, "source_uri", p)?;
    let corpus_sha256 = required_sha256(object, "sha256", p)?;
    let vintage = required_string(object, "vintage", p)?;
    let tokens = required_u64(object, "tokens", p)?;
    let labor_text = required_string(object, "annotator_labor", p)?;
    let annotator_labor = if str_eq(labor_text.as_str(), "credited") {
        Labor::Credited
    } else if str_eq(labor_text.as_str(), "uncredited") {
        Labor::Uncredited
    } else {
        return refuse("$.provenance.annotator_labor", "expected `credited` or `uncredited`");
    };
    let languages_value = required(object, "languages", p)?;
    let items = expect_array(languages_value, "$.provenance.languages")?;
    if items.len() == 0 {
        return refuse("$.provenance.languages", "at least one language share is required");
    }
    let languages = parse_languages(items)?;
    match share_total(&languages) {
        Some(t) => {
            if t < 999_999_000_000_000_000_000_000_000_000u128 || t
                > 1_000_001_000_000_000_000_000_000_000_000u128 {
                let mut message = String::from_str("language shares must total 1.0; got ");
                message.append(units_to_text(t, 30).as_str());
                return refuse("$.provenance.languages", message.as_str());
            }
        },
        None => {
            let mut message = String::from_str("language shares must total 1.0; got more than ");
            message.append(units_to_text(u128::MAX, 30).as_str());
            return refuse("$.provenance.languages", message.as_str());
        },
    }
    let notes_value = required(object, "notes", p)?;
    let note_items = expect_array(notes_value, "$.provenance.notes")?;
    let notes = parse_notes(note_items)?;
    Ok(
        ProvenanceLabel {
            corpus,
            source_uri,
            corpus_sha256,
            tokens,
            vintage,
            languages,
            annotator_labor,
            notes,
        },
    )
}

// ---------------------------------------------------------------------------
// The ontology and the behavior cases
// ---------------------------------------------------------------------------

/// Concept definitions in key order, or the first refusal.
pub open spec fn concepts_spec(m: Members) -> Result<Seq<(Seq<char>, Seq<char>)>, Refusal>
    decreases m.len(),
{
    if m.len() == 0 {
        Ok(Seq::empty())
    } else {
        match concepts_spec(m.drop_last()) {
            Err(e) => Err(e),
            Ok(acc) => if is_blank(m.last().0) {
                Err(("$.ontology.concepts"@, "concept names must not be empty"@))
            } else {
                match expect_string_spec(m.last().1, dotted("$.ontology.concepts"@, m.last().0)) {
                    Err(e) => Err(e),
                    Ok(d) => Ok(acc.push((m.last().0, d))),
                }
            },
        }
    }
}

/// What the ontology section says: name, version and definitions in key
/// order, or the first refusal.
pub open spec fn ontology_spec(v: JsonView) -> Result<
    (Seq<char>, Seq<char>, Seq<(Seq<char>, Seq<char>)>),
    Refusal,
> {
    let p = "$.ontology"@;
    match expect_object_spec(v, p) {
        Err(e) => Err(e),
        Ok(o) => match reject_unknown_spec(o, seq!["name"@, "version"@, "concepts"@], p) {
            Err(e) => Err(e),
            Ok(_) => match required_string_spec(o, "name"@, p) {
                Err(e) => Err(e),
                Ok(name) => match required_string_spec(o, "version"@, p) {
                    Err(e) => Err(e),
                    Ok(version) => match required_spec(o, "concepts"@, p) {
                        Err(e) => Err(e),
                        Ok(cv) => match expect_object_spec(cv, "$.ontology.concepts"@) {
                            Err(e) => Err(e),
                            Ok(co) => if co.len() == 0 {
                                Err(("$.ontology.concepts"@, "at least one concept is required"@))
                            } else {
                                match concepts_spec(co) {
                                    Err(e) => Err(e),
                                    Ok(concepts) => Ok((name, version, concepts)),
                                }
                            },
                        },
                    },
                },
            },
        },
    }
}

proof fn lemma_concepts_stop(m: Members, n: int)
    requires
        0 <= n <= m.len(),
        concepts_spec(m.take(n)) is Err,
    ensures
        concepts_spec(m) == concepts_spec(m.take(n)),
    decreases m.len() - n,
{
    if n < m.len() {
        assert(m.take(n + 1).drop_last() =~= m.take(n));
        lemma_concepts_stop(m, n + 1);
    } else {
        assert(m.take(n) =~= m);
    }
}

fn parse_concepts(concepts: &TextMap<Value>) -> (r: Result<Vec<(String, String)>, InputError>)
    ensures
        match concepts_spec(member_views(concepts.entries())) {
            Ok(c) => r matches Ok(x) && text_entries(entry_views(x@)) == c && keys_increasing(
                entry_views(x@),
            ),
            Err(e) => r matches Err(x) && x@ == e,
        },
{
    proof {
        use_type_invariant(concepts);
    }
    let ghost m = member_views(concepts.entries());
    let mut entries: Vec<(String, String)> = Vec::new();
    let mut i: usize = 0;
    assert(m.take(0) =~= Seq::<(Seq<char>, JsonView)>::empty());
    assert(text_entries(entry_views(entries@)) =~= Seq::<(Seq<char>, Seq<char>)>::empty());
    while i < concepts.len()
        invariant
            i <= concepts.entries().len(),
            m == member_views(concepts.entries()),
            keys_increasing(concepts.entries()),
            concepts_spec(m.take(i as int)) == Ok::<Seq<(Seq<char>, Seq<char>)>, Refusal>(
                text_entries(entry_views(entries@)),
            ),
            entries@.len() == i,
            forall|k: int| 0 <= k < i ==> #[trigger] entries@[k].0@ == concepts.entries()[k].0,
        decreases concepts.entries().len() - i,
    {
        let (concept, definition) = concepts.entry(i);
        let ghost t = m.take(i + 1);
        assert(t.drop_last() =~= m.take(i as int));
        assert(t.last() == (concept@, definition@));
        if blank(concept.as_str()) {
            proof {
                lemma_concepts_stop(m, i + 1);
            }
            return refuse("$.ontology.concepts", "concept names must not be empty");
        }
        let path = dotted_exec("$.ontology.concepts", concept.as_str());
        match expect_string(definition, path.as_str()) {
            Ok(d) => {
                let ghost before = entries@;
                entries.push((concept.clone(), d));
                assert(text_entries(entry_views(entries@)) =~= text_entries(
                    entry_views(before),
                ).push((concept@, d@)));
            },
            Err(e) => {
                proof {
                    lemma_concepts_stop(m, i + 1);
                }
                return Err(e);
            },
        }
        i = i + 1;
    }
    assert(m.take(i as int) =~= m);
    assert(keys_increasing(entry_views(entries@))) by {
        assert forall|a: int, b: int| 0 <= a < b < entry_views(entries@).len() implies crate::textmap::key_lt(
            #[trigger] entry_views(entries@)[a].0,
            #[trigger] entry_views(entries@)[b].0,
        ) by {
            assert(entries@[a].0@ == concepts.entries()[a].0);
            assert(entries@[b].0@ == concepts.entries()[b].0);
        }
    }
    Ok(entries)
}

/// Reads the ontology section: a closed object naming at least one concept,
/// each with a definition.
pub fn parse_ontology(value: &Value) -> (r: Result<OntologySnapshot, InputError>)
    ensures
        match ontology_spec(value@) {
            Ok((name, version, concepts)) => r matches Ok(s) && s.name@ == name && s.version@
                == version && text_entries(s.concepts.entries()) == concepts,
            Err(e) => r matches Err(x) && x@ == e,
        },
{
    let p = "$.ontology";
    let object = expect_object(value, p)?;
    let allowed: [&str; 3] = ["name", "version", "concepts"];
    assert(str_list(allowed@) =~= seq!["name"@, "version"@, "concepts"@]);
    reject_unknown_fields(object, &allowed, p)?;
    let name = required_string(object, "name", p)?;
    let version = required_string(object, "version", p)?;
    let concepts_value = required(object, "concepts", p)?;
    let concepts = expect_object(concepts_value, "$.ontology.concepts")?;
    if concepts.len() == 0 {
        return refuse("$.ontology.concepts", "at least one concept is required");
    }
    let entries = parse_concepts(concepts)?;
    Ok(OntologySnapshot { name, version, concepts: TextMap::from_sorted(entries) })
}

/// A behavior reading as plain values: input, classification, route.
pub type ReadingView = (Seq<char>, Seq<char>, Seq<char>);

pub open spec fn reading_view(b: BehaviorReading) -> ReadingView {
    (b.input@, b.classification@, b.route@)
}

pub open spec fn reading_entries(e: Seq<(Seq<char>, BehaviorReading)>) -> Seq<(Seq<char>, ReadingView)> {
    e.map_values(|p: (Seq<char>, BehaviorReading)| (p.0, reading_view(p.1)))
}

/// One recorded case: a closed object with its input, classification and
/// route.
pub open spec fn case_spec(v: JsonView, path: Seq<char>) -> Result<ReadingView, Refusal> {
    match expect_object_spec(v, path) {
        Err(e) => Err(e),
        Ok(o) => match reject_unknown_spec(o, seq!["input"@, "classification"@, "route"@], path) {
            Err(e) => Err(e),
            Ok(_) => match required_string_spec(o, "input"@, path) {
                Err(e) => Err(e),
                Ok(input) => match required_string_spec(o, "classification"@, path) {
                    Err(e) => Err(e),
                    Ok(classification) => match required_string_spec(o, "route"@, path) {
                        Err(e) => Err(e),
                        Ok(route) => Ok((input, classification, route)),
                    },
                },
            },
        },
    }
}

pub open spec fn cases_spec(m: Members) -> Result<Seq<(Seq<char>, ReadingView)>, Refusal>
    decreases m.len(),
{
    if m.len() == 0 {
        Ok(Seq::empty())
    } else {
        match cases_spec(m.drop_last()) {
            Err(e) => Err(e),
            Ok(acc) => if is_blank(m.last().0) {
                Err(("$.behavior.cases"@, "behavior case IDs must not be empty"@))
            } else {
                match case_spec(m.last().1, dotted("$.behavior.cases"@, m.last().0)) {
                    Err(e) => Err(e),
                    Ok(b) => Ok(acc.push((m.last().0, b))),
                }
            },
        }
    }
}

/// What the behavior section says: the recorded cases in key order, or the
/// first refusal.
pub open spec fn behavior_spec(v: JsonView) -> Result<Seq<(Seq<char>, ReadingView)>, Refusal> {
    let p = "$.behavior"@;
    match expect_object_spec(v, p) {
        Err(e) => Err(e),
        Ok(o) => match reject_unknown_spec(o, seq!["cases"@], p) {
            Err(e) => Err(e),
            Ok(_) => match required_spec(o, "cases"@, p) {
                Err(e) => Err(e),
                Ok(cv) => match expect_object_spec(cv, "$.behavior.cases"@) {
                    Err(e) => Err(e),
                    Ok(co) => if co.len() == 0 {
                        Err(("$.behavior.cases"@, "at least one behavior case is required"@))
                    } else {
                        cases_spec(co)
                    },
                },
            },
        },
    }
}

proof fn lemma_cases_stop(m: Members, n: int)
    requires
        0 <= n <= m.len(),
        cases_spec(m.take(n)) is Err,
    ensures
        cases_spec(m) == cases_spec(m.take(n)),
    decreases m.len() - n,
{
    if n < m.len() {
        assert(m.take(n + 1).drop_last() =~= m.take(n));
        lemma_cases_stop(m, n + 1);
    } else {
        assert(m.take(n) =~= m);
    }
}

fn parse_case(value: &Value, path: &str) -> (r: Result<BehaviorReading, InputError>)
    ensures
        match case_spec(value@, path@) {
            Ok(b) => r matches Ok(x) && reading_view(x) == b,
            Err(e) => r matches Err(x) && x@ == e,
        },
{
    let reading = expect_object(value, path)?;
    let allowed: [&str; 3] = ["input", "classification", "route"];
    assert(str_list(allowed@) =~= seq!["input"@, "classification"@, "route"@]);
    reject_unknown_fields(reading, &allowed, path)?;
    let input = required_string(reading, "input", path)?;
    let classification = required_string(reading, "classification", path)?;
    let route = required_string(reading, "route", path)?;
    Ok(BehaviorReading { input, classification, route })
}

fn parse_cases(cases: &TextMap<Value>) -> (r: Result<Vec<(String, BehaviorReading)>, InputError>)
    ensures
        match cases_spec(member_views(cases.entries())) {
            Ok(c) => r matches Ok(x) && reading_entries(case_views(x@)) == c && keys_increasing(
                case_views(x@),
            ),
            Err(e) => r matches Err(x) && x@ == e,
        },
{
    proof {
        use_type_invariant(cases);
    }
    let ghost m = member_views(cases.entries());
    let mut parsed: Vec<(String, BehaviorReading)> = Vec::new();
    let mut i: usize = 0;
    assert(m.take(0) =~= Seq::<(Seq<char>, JsonView)>::empty());
    assert(reading_entries(case_views(parsed@)) =~= Seq::<(Seq<char>, ReadingView)>::empty());
    while i < cases.len()
        invariant
            i <= cases.entries().len(),
            m == member_views(cases.entries()),
            keys_increasing(cases.entries()),
            cases_spec(m.take(i as int)) == Ok::<Seq<(Seq<char>, ReadingView)>, Refusal>(
                reading_entries(case_views(parsed@)),
            ),
            parsed@.len() == i,
            forall|k: int| 0 <= k < i ==> #[trigger] parsed@[k].0@ == cases.entries()[k].0,
        decreases cases.entries().len() - i,
    {
        let (case_id, value) = cases.entry(i);
        let ghost t = m.take(i + 1);
        assert(t.drop_last() =~= m.take(i as int));
        assert(t.last() == (case_id@, value@));
        if blank(case_id.as_str()) {
            proof {
                lemma_cases_stop(m, i + 1);
            }
            return refuse("$.behavior.cases", "behavior case IDs must not be empty");
        }
        let path = dotted_exec("$.behavior.cases", case_id.as_str());
        match parse_case(value, path.as_str()) {
            Ok(b) => {
                let ghost before = parsed@;
                parsed.push((case_id.clone(), b));
                assert(reading_entries(case_views(parsed@)) =~= reading_entries(
                    case_views(before),
                ).push((case_id@, reading_view(b))));
            },
            Err(e) => {
                proof {
                    lemma_cases_stop(m, i + 1);
                }
                return Err(e);
            },
        }
        i = i + 1;
    }
    assert(m.take(i as int) =~= m);
    assert(keys_increasing(case_views(parsed@))) by {
        assert forall|a: int, b: int| 0 <= a < b < case_views(parsed@).len() implies crate::textmap::key_lt(
            #[trigger] case_views(parsed@)[a].0,
            #[trigger] case_views(parsed@)[b].0,
        ) by {
            assert(parsed@[a].0@ == cases.entries()[a].0);
            assert(parsed@[b].0@ == cases.entries()[b].0);
        }
    }
    Ok(parsed)
}

/// Reads the behavior section: a closed object with at least one recorded
/// case, each named and closed in turn.
pub fn parse_behavior(value: &Value) -> (r: Result<Vec<(String, BehaviorReading)>, InputError>)
    ensures
        match behavior_spec(value@) {
            Ok(cases) => r matches Ok(x) && reading_entries(case_views(x@)) == cases
                && keys_increasing(case_views(x@)),
            Err(e) => r matches Err(x) && x@ == e,
        },
{
    let p = "$.behavior";
    let object = expect_object(value, p)?;
    let allowed: [&str; 1] = ["cases"];
    assert(str_list(allowed@) =~= seq!["cases"@]);
    reject_unknown_fields(object, &allowed, p)?;
    let cases_value = required(object, "cases", p)?;
    let cases = expect_object(cases_value, "$.behavior.cases")?;
    if cases.len() == 0 {
        return refuse("$.behavior.cases", "at least one behavior case is required");
    }
    parse_cases(cases)
}

// ---------------------------------------------------------------------------
// The envelope
// ---------------------------------------------------------------------------

/// An envelope as plain values.
pub struct EnvelopeData {
    pub artifact_id: Seq<char>,
    pub artifact_version: Seq<char>,
    pub artifact_uri: Seq<char>,
    pub artifact_sha256: Seq<char>,
    pub label: LabelView,
    pub ontology_name: Seq<char>,
    pub ontology_version: Seq<char>,
    pub concepts: Seq<(Seq<char>, Seq<char>)>,
    pub behavior_sha256: Seq<char>,
    pub cases: Seq<(Seq<char>, ReadingView)>,
}

pub open spec fn envelope_data(e: ProvenanceEnvelope) -> EnvelopeData {
    EnvelopeData {
        artifact_id: e.artifact_id@,
        artifact_version: e.artifact_version@,
        artifact_uri: e.artifact_uri@,
        artifact_sha256: e.artifact_sha256@,
        label: label_view(e.provenance),
        ontology_name: e.ontology.name@,
        ontology_version: e.ontology.version@,
        concepts: text_entries(e.ontology.concepts.entries()),
        behavior_sha256: e.behavior_sha256@,
        cases: reading_entries(e.behavior_cases.entries()),
    }
}

/// The artifact section: id, version, source and digest.
pub open spec fn artifact_spec(root: Members) -> Result<
    (Seq<char>, Seq<char>, Seq<char>, Seq<char>),
    Refusal,
> {
    let p = "$.artifact"@;
    match required_spec(root, "artifact"@, "$"@) {
        Err(e) => Err(e),
        Ok(av) => match expect_object_spec(av, p) {
            Err(e) => Err(e),
            Ok(a) => match reject_unknown_spec(
                a,
                seq!["id"@, "version"@, "source_uri"@, "sha256"@],
                p,
            ) {
                Err(e) => Err(e),
                Ok(_) => match required_string_spec(a, "id"@, p) {
                    Err(e) => Err(e),
                    Ok(id) => match required_string_spec(a, "version"@, p) {
                        Err(e) => Err(e),
                        Ok(version) => match required_string_spec(a, "source_uri"@, p) {
                            Err(e) => Err(e),
                            Ok(uri) => match required_sha256_spec(a, "sha256"@, p) {
                                Err(e) => Err(e),
                                Ok(sha) => Ok((id, version, uri, sha)),
                            },
                        },
                    },
                },
            },
        },
    }
}

/// What a parsed envelope says, or the first refusal.
pub open spec fn envelope_value_spec(v: JsonView) -> Result<EnvelopeData, Refusal> {
    match expect_object_spec(v, "$"@) {
        Err(e) => Err(e),
        Ok(root) => match reject_unknown_spec(
            root,
            seq!["artifact"@, "provenance"@, "ontology"@, "behavior"@],
            "$"@,
        ) {
            Err(e) => Err(e),
            Ok(_) => match artifact_spec(root) {
                Err(e) => Err(e),
                Ok((id, version, uri, sha)) => match required_spec(root, "provenance"@, "$"@) {
                    Err(e) => Err(e),
                    Ok(pv) => match provenance_spec(pv) {
                        Err(e) => Err(e),
                        Ok(label) => match required_spec(root, "ontology"@, "$"@) {
                            Err(e) => Err(e),
                            Ok(ov) => match ontology_spec(ov) {
                                Err(e) => Err(e),
                                Ok((name, oversion, concepts)) => match required_spec(
                                    root,
                                    "behavior"@,
                                    "$"@,
                                ) {
                                    Err(e) => Err(e),
                                    Ok(bv) => match behavior_spec(bv) {
                                        Err(e) => Err(e),
                                        Ok(cases) => Ok(
                                            EnvelopeData {
                                                artifact_id: id,
                                                artifact_version: version,
                                                artifact_uri: uri,
                                                artifact_sha256: sha,
                                                label,
                                                ontology_name: name,
                                                ontology_version: oversion,
                                                concepts,
                                                behavior_sha256: Seq::empty(),
                                                cases,
                                            },
                                        ),
                                    },
                                },
                            },
                        },
                    },
                },
            },
        },
    }
}

/// What the text of an envelope says: strict JSON under the closed
/// envelope contract, or the first refusal.
pub open spec fn envelope_spec(raw: Seq<char>) -> Result<EnvelopeData, Refusal> {
    match p_document(raw) {
        Err((at, msg)) => Err(("byte "@ + dec_chars(at as nat), "invalid JSON: "@ + msg)),
        Ok(v) => envelope_value_spec(v),
    }
}

proof fn lemma_cases_from_sorted(s: Seq<(Seq<char>, BehaviorReading)>)
    requires
        keys_increasing(s),
    ensures
        cases_from(s) == s,
    decreases s.len(),
{
    if s.len() > 0 {
        let pre = s.drop_last();
        assert(keys_increasing(pre)) by {
            assert forall|i: int, j: int| 0 <= i < j < pre.len() implies crate::textmap::key_lt(
                #[trigger] pre[i].0,
                #[trigger] pre[j].0,
            ) by {
                assert(pre[i] == s[i] && pre[j] == s[j]);
            }
        }
        lemma_cases_from_sorted(pre);
        assert(pre == s.take(s.len() - 1));
        crate::textmap::lemma_append_sorted(pre, s.last().0, s.last().1, s, s.len() - 1);
        assert(pre.push(s.last()) =~= s);
    }
}

fn parse_artifact(root: &TextMap<Value>) -> (r: Result<(String, String, String, String), InputError>)
    ensures
        match artifact_spec(member_views(root.entries())) {
            Ok((id, version, uri, sha)) => r matches Ok(x) && x.0@ == id && x.1@ == version && x.2@
                == uri && x.3@ == sha,
            Err(e) => r matches Err(x) && x@ == e,
        },
{
    let p = "$.artifact";
    let artifact_value = required(root, "artifact", "$")?;
    let artifact = expect_object(artifact_value, p)?;
    let allowed: [&str; 4] = ["id", "version", "source_uri", "sha256"];
    assert(str_list(allowed@) =~= seq!["id"@, "version"@, "source_uri"@, "sha256"@]);
    reject_unknown_fields(artifact, &allowed, p)?;
    let id = required_string(artifact, "id", p)?;
    let version = required_string(artifact, "version", p)?;
    let uri = required_string(artifact, "source_uri", p)?;
    let sha = required_sha256(artifact, "sha256", p)?;
    Ok((id, version, uri, sha))
}

/// Reads an envelope: strict JSON holding exactly an artifact, its corpus
/// provenance, its ontology and its recorded behavior cases.
pub fn parse_envelope(raw: &str) -> (r: Result<ProvenanceEnvelope, InputError>)
    ensures
        match envelope_spec(raw@) {
            Ok(d) => r matches Ok(e) && envelope_data(e) == d && e.behavior_uri@.len() == 0,
            Err(x) => r matches Err(y) && y@ == x,
        },
{
    let value = match parse(raw) {
        Ok(v) => v,
        Err(e) => {
            let mut path = String::from_str("byte ");
            path.append(usize_to_string(e.at).as_str());
            let mut message = String::from_str("invalid JSON: ");
            message.append(e.msg.as_str());
            return refuse(path.as_str(), message.as_str());
        },
    };
    let root = expect_object(&value, "$")?;
    let allowed: [&str; 4] = ["artifact", "provenance", "ontology", "behavior"];
    assert(str_list(allowed@) =~= seq!["artifact"@, "provenance"@, "ontology"@, "behavior"@]);
    reject_unknown_fields(root, &allowed, "$")?;
    let (id, version, uri, sha) = parse_artifact(root)?;
    let provenance = parse_provenance(required(root, "provenance", "$")?)?;
    let ontology = parse_ontology(required(root, "ontology", "$")?)?;
    let cases = parse_behavior(required(root, "behavior", "$")?)?;
    proof {
        lemma_cases_from_sorted(case_views(cases@));
    }
    let envelope = ProvenanceEnvelope::new(
        id.as_str(),
        version.as_str(),
        uri.as_str(),
        sha.as_str(),
        provenance,
        ontology,
    );
    Ok(envelope.with_behavior_cases(cases))
}

// ---------------------------------------------------------------------------
// Writing JSON
// ---------------------------------------------------------------------------

#[verifier::opaque]
pub open spec fn reading_json(b: ReadingView) -> JsonView {
    JsonView::Obj(
        with(
            with(with(no_members(), "classification"@, JsonView::Str(b.1)), "input"@, JsonView::Str(b.0)),
            "route"@,
            JsonView::Str(b.2),
        ),
    )
}

/// A behavior reading as JSON.
pub fn behavior_reading_value(reading: &BehaviorReading) -> (r: Value)
    ensures
        r@ == reading_json(reading_view(*reading)),
{
    reveal(reading_json);
    let mut m: TextMap<Value> = TextMap::new();
    assert(member_views(m.entries()) =~= no_members());
    put(&mut m, "classification", text_value(&reading.classification));
    put(&mut m, "input", text_value(&reading.input));
    put(&mut m, "route", text_value(&reading.route));
    Value::Obj(m)
}

#[verifier::opaque]
pub open spec fn definition_json(d: Option<Seq<char>>) -> JsonView {
    JsonView::Obj(
        with(
            with(
                no_members(),
                "definition"@,
                match d {
                    Some(t) => JsonView::Str(t),
                    None => JsonView::Null,
                },
            ),
            "recognized"@,
            JsonView::Bool(d is Some),
        ),
    )
}

/// One side of a concept probe as JSON: the definition, if the concept is
/// recognized there.
pub fn reading_value(definition: &Option<String>) -> (r: Value)
    ensures
        r@ == definition_json(crate::ontology::opt_str(*definition)),
{
    reveal(definition_json);
    let mut m: TextMap<Value> = TextMap::new();
    assert(member_views(m.entries()) =~= no_members());
    let d = match definition {
        Some(t) => text_value(t),
        None => Value::Null,
    };
    put(&mut m, "definition", d);
    put(&mut m, "recognized", Value::Bool(definition.is_some()));
    Value::Obj(m)
}

pub open spec fn concept_members(concepts: Seq<(Seq<char>, Seq<char>)>) -> Members {
    concepts.map_values(|p: (Seq<char>, Seq<char>)| (p.0, JsonView::Str(p.1)))
}

#[verifier::opaque]
pub open spec fn ontology_json(
    name: Seq<char>,
    version: Seq<char>,
    concepts: Seq<(Seq<char>, Seq<char>)>,
) -> JsonView {
    JsonView::Obj(
        with(
            with(
                with(no_members(), "concepts"@, JsonView::Obj(stored(concept_members(concepts)))),
                "name"@,
                JsonView::Str(name),
            ),
            "version"@,
            JsonView::Str(version),
        ),
    )
}

/// An ontology snapshot as JSON.
pub fn ontology_value(snapshot: &OntologySnapshot) -> (r: Value)
    ensures
        r@ == ontology_json(
            snapshot.name@,
            snapshot.version@,
            text_entries(snapshot.concepts.entries()),
        ),
{
    reveal(ontology_json);
    let ghost cm = concept_members(text_entries(snapshot.concepts.entries()));
    let mut concepts: TextMap<Value> = TextMap::new();
    let mut i: usize = 0;
    assert(cm.take(0) =~= Seq::<(Seq<char>, JsonView)>::empty());
    while i < snapshot.concepts.len()
        invariant
            i <= snapshot.concepts.entries().len(),
            cm == concept_members(text_entries(snapshot.concepts.entries())),
            member_views(concepts.entries()) == stored(cm.take(i as int)),
        decreases snapshot.concepts.entries().len() - i,
    {
        let (concept, definition) = snapshot.concepts.entry(i);
        assert(cm.take(i + 1).drop_last() =~= cm.take(i as int));
        assert(cm.take(i + 1).last() == (concept@, JsonView::Str(definition@)));
        put(&mut concepts, concept.as_str(), text_value(definition));
        i = i + 1;
    }
    assert(cm.take(i as int) =~= cm);
    let mut m: TextMap<Value> = TextMap::new();
    assert(member_views(m.entries()) =~= no_members());
    put(&mut m, "concepts", Value::Obj(concepts));
    put(&mut m, "name", text_value(&snapshot.name));
    put(&mut m, "version", text_value(&snapshot.version));
    Value::Obj(m)
}

pub open spec fn share_json(code: Seq<char>, share: NumView) -> JsonView {
    JsonView::Obj(
        with(with(no_members(), "code"@, JsonView::Str(code)), "share"@, JsonView::Num(share)),
    )
}

pub open spec fn shares_json(langs: Seq<(Seq<char>, NumView)>) -> JsonView {
    JsonView::Arr(langs.map_values(|p: (Seq<char>, NumView)| share_json(p.0, p.1)))
}

pub open spec fn labor_text(l: Labor) -> Seq<char> {
    match l {
        Labor::Credited => "credited"@,
        Labor::Uncredited => "uncredited"@,
    }
}

#[verifier::opaque]
pub open spec fn provenance_json(l: LabelView) -> JsonView {
    JsonView::Obj(
        with(
            with(
                with(
                    with(
                        with(
                            with(
                                with(
                                    with(
                                        no_members(),
                                        "annotator_labor"@,
                                        JsonView::Str(labor_text(l.labor)),
                                    ),
                                    "corpus"@,
                                    JsonView::Str(l.corpus),
                                ),
                                "sha256"@,
                                JsonView::Str(l.corpus_sha256),
                            ),
                            "source_uri"@,
                            JsonView::Str(l.source_uri),
                        ),
                        "languages"@,
                        shares_json(l.languages),
                    ),
                    "notes"@,
                    strings_json(l.notes),
                ),
                "tokens"@,
                JsonView::Num(count_num(l.tokens)),
            ),
            "vintage"@,
            JsonView::Str(l.vintage),
        ),
    )
}

fn shares_value(languages: &Vec<(String, Number)>) -> (r: Value)
    ensures
        r@ == shares_json(share_views(languages@)),
{
    let ghost sv = share_views(languages@);
    let mut items: Vec<Value> = Vec::new();
    let mut i: usize = 0;
    while i < languages.len()
        invariant
            i <= languages@.len(),
            sv == share_views(languages@),
            item_views(items@) == sv.take(i as int).map_values(
                |p: (Seq<char>, NumView)| share_json(p.0, p.1),
            ),
        decreases languages@.len() - i,
    {
        let mut m: TextMap<Value> = TextMap::new();
        assert(member_views(m.entries()) =~= no_members());
        put(&mut m, "code", text_value(&languages[i].0));
        put(&mut m, "share", Value::Num(languages[i].1.duplicate()));
        let ghost before = items@;
        items.push(Value::Obj(m));
        assert(item_views(items@) =~= item_views(before).push(
            share_json(languages@[i as int].0@, languages@[i as int].1@),
        ));
        assert(sv.take(i + 1).map_values(|p: (Seq<char>, NumView)| share_json(p.0, p.1)) =~= sv.take(
            i as int,
        ).map_values(|p: (Seq<char>, NumView)| share_json(p.0, p.1)).push(
            share_json(languages@[i as int].0@, languages@[i as int].1@),
        ));
        i = i + 1;
    }
    assert(sv.take(i as int) =~= sv);
    Value::Arr(items)
}

/// A provenance label as JSON.
pub fn provenance_value(label: &ProvenanceLabel) -> (r: Value)
    ensures
        r@ == provenance_json(label_view(*label)),
{
    reveal(provenance_json);
    let mut m: TextMap<Value> = TextMap::new();
    assert(member_views(m.entries()) =~= no_members());
    let labor = match label.annotator_labor {
        Labor::Credited => "credited",
        Labor::Uncredited => "uncredited",
    };
    put(&mut m, "annotator_labor", Value::Str(String::from_str(labor)));
    put(&mut m, "corpus", text_value(&label.corpus));
    put(&mut m, "sha256", text_value(&label.corpus_sha256));
    put(&mut m, "source_uri", text_value(&label.source_uri));
    put(&mut m, "languages", shares_value(&label.languages));
    put(&mut m, "notes", string_array(&label.notes));
    put(&mut m, "tokens", Value::Num(Number::from_u64(label.tokens)));
    put(&mut m, "vintage", text_value(&label.vintage));
    Value::Obj(m)
}

pub open spec fn case_members(cases: Seq<(Seq<char>, ReadingView)>) -> Members {
    cases.map_values(|p: (Seq<char>, ReadingView)| (p.0, reading_json(p.1)))
}

#[verifier::opaque]
pub open spec fn envelope_json(d: EnvelopeData) -> JsonView {
    JsonView::Obj(
        with(
            with(
                with(
                    with(
                        no_members(),
                        "artifact"@,
                        JsonView::Obj(
                            with(
                                with(
                                    with(
                                        with(no_members(), "id"@, JsonView::Str(d.artifact_id)),
                                        "source_uri"@,
                                        JsonView::Str(d.artifact_uri),
                                    ),
                                    "sha256"@,
                                    JsonView::Str(d.artifact_sha256),
                                ),
                                "version"@,
                                JsonView::Str(d.artifact_version),
                            ),
                        ),
                    ),
                    "behavior"@,
                    JsonView::Obj(
                        with(no_members(), "cases"@, JsonView::Obj(stored(case_members(d.cases)))),
                    ),
                ),
                "ontology"@,
                ontology_json(d.ontology_name, d.ontology_version, d.concepts),
            ),
            "provenance"@,
            provenance_json(d.label),
        ),
    )
}

/// An envelope as JSON: artifact, behavior cases, ontology and provenance.
pub fn envelope_value(envelope: &ProvenanceEnvelope) -> (r: Value)
    ensures
        r@ == envelope_json(envelope_data(*envelope)),
{
    reveal(envelope_json);
    let mut artifact: TextMap<Value> = TextMap::new();
    assert(member_views(artifact.entries()) =~= no_members());
    put(&mut artifact, "id", text_value(&envelope.artifact_id));
    put(&mut artifact, "source_uri", text_value(&envelope.artifact_uri));
    put(&mut artifact, "sha256", text_value(&envelope.artifact_sha256));
    put(&mut artifact, "version", text_value(&envelope.artifact_version));
    let ghost cm = case_members(reading_entries(envelope.behavior_cases.entries()));
    let mut cases: TextMap<Value> = TextMap::new();
    let mut i: usize = 0;
    assert(cm.take(0) =~= Seq::<(Seq<char>, JsonView)>::empty());
    while i < envelope.behavior_cases.len()
        invariant
            i <= envelope.behavior_cases.entries().len(),
            cm == case_members(reading_entries(envelope.behavior_cases.entries())),
            member_views(cases.entries()) == stored(cm.take(i as int)),
        decreases envelope.behavior_cases.entries().len() - i,
    {
        let (case_id, reading) = envelope.behavior_cases.entry(i);
        assert(cm.take(i + 1).drop_last() =~= cm.take(i as int));
        assert(cm.take(i + 1).last() == (case_id@, reading_json(reading_view(*reading))));
        put(&mut cases, case_id.as_str(), behavior_reading_value(reading));
        i = i + 1;
    }
    assert(cm.take(i as int) =~= cm);
    let mut behavior: TextMap<Value> = TextMap::new();
    assert(member_views(behavior.entries()) =~= no_members());
    put(&mut behavior, "cases", Value::Obj(cases));
    let mut m: TextMap<Value> = TextMap::new();
    assert(member_views(m.entries()) =~= no_members());
    put(&mut m, "artifact", Value::Obj(artifact));
    put(&mut m, "behavior", Value::Obj(behavior));
    put(&mut m, "ontology", ontology_value(&envelope.ontology));
    put(&mut m, "provenance", provenance_value(&envelope.provenance));
    Value::Obj(m)
}

// ---------------------------------------------------------------------------
// The report
// ---------------------------------------------------------------------------

/// Everything a drift report states, as plain values.
pub struct ReportParts {
    pub baseline: EnvelopeData,
    pub observed: EnvelopeData,
    pub name: Seq<char>,
    pub from_version: Seq<char>,
    pub to_version: Seq<char>,
    pub added: Seq<Seq<char>>,
    pub removed: Seq<Seq<char>>,
    pub redefined: Seq<Seq<char>>,
    pub concept: Seq<char>,
    pub baseline_definition: Option<Seq<char>>,
    pub observed_definition: Option<Seq<char>>,
    pub case_id: Seq<char>,
    pub input: Seq<char>,
    pub baseline_reading: ReadingView,
    pub observed_reading: ReadingView,
    pub drift_detected: bool,
}

/// The classification or the route differs between two readings.
pub open spec fn readings_differ(a: ReadingView, b: ReadingView) -> bool {
    a.1 != b.1 || a.2 != b.2
}

#[verifier::opaque]
pub open spec fn report_json(p: ReportParts) -> JsonView {
    let behavior_probe = with(
        with(
            with(
                with(
                    with(no_members(), "baseline"@, reading_json(p.baseline_reading)),
                    "case_id"@,
                    JsonView::Str(p.case_id),
                ),
                "changed"@,
                JsonView::Bool(readings_differ(p.baseline_reading, p.observed_reading)),
            ),
            "input"@,
            JsonView::Str(p.input),
        ),
        "observed"@,
        reading_json(p.observed_reading),
    );
    let ontology = with(
        with(
            with(
                with(
                    with(
                        with(no_members(), "added"@, strings_json(p.added)),
                        "from_version"@,
                        JsonView::Str(p.from_version),
                    ),
                    "name"@,
                    JsonView::Str(p.name),
                ),
                "redefined"@,
                strings_json(p.redefined),
            ),
            "removed"@,
            strings_json(p.removed),
        ),
        "to_version"@,
        JsonView::Str(p.to_version),
    );
    let semantic_probe = with(
        with(
            with(
                with(no_members(), "baseline"@, definition_json(p.baseline_definition)),
                "changed"@,
                JsonView::Bool(definitions_differ(p.baseline_definition, p.observed_definition)),
            ),
            "concept"@,
            JsonView::Str(p.concept),
        ),
        "observed"@,
        definition_json(p.observed_definition),
    );
    let comparison = with(
        with(
            with(no_members(), "behavior_probe"@, JsonView::Obj(behavior_probe)),
            "ontology"@,
            JsonView::Obj(ontology),
        ),
        "semantic_probe"@,
        JsonView::Obj(semantic_probe),
    );
    let envelopes = with(
        with(no_members(), "baseline"@, envelope_json(p.baseline)),
        "observed"@,
        envelope_json(p.observed),
    );
    JsonView::Obj(
        with(
            with(
                with(no_members(), "comparison"@, JsonView::Obj(comparison)),
                "envelopes"@,
                JsonView::Obj(envelopes),
            ),
            "status"@,
            JsonView::Str(
                if p.drift_detected {
                    "drift_detected"@
                } else {
                    "stable"@
                },
            ),
        ),
    )
}

/// What a comparison and a behavior probe report.
pub open spec fn parts_of(c: EnvelopeComparison, b: BehaviorProbe, drift_detected: bool) -> ReportParts {
    ReportParts {
        baseline: envelope_data(c.baseline),
        observed: envelope_data(c.observed),
        name: c.ontology_drift.ontology@,
        from_version: c.ontology_drift.from_version@,
        to_version: c.ontology_drift.to_version@,
        added: texts(c.ontology_drift.added@),
        removed: texts(c.ontology_drift.removed@),
        redefined: texts(c.ontology_drift.redefined@),
        concept: c.probe.concept@,
        baseline_definition: opt_str(c.probe.baseline_definition),
        observed_definition: opt_str(c.probe.observed_definition),
        case_id: b.case_id@,
        input: b.input@,
        baseline_reading: reading_view(b.baseline),
        observed_reading: reading_view(b.observed),
        drift_detected,
    }
}

/// The report of a comparison: the behavior probe, the ontology diff and the
/// concept probe, both envelopes whole, and the status.
pub fn report_value(comparison: &EnvelopeComparison, behavior: &BehaviorProbe, drift_detected: bool) -> (r:
    Value)
    ensures
        r@ == report_json(parts_of(*comparison, *behavior, drift_detected)),
{
    reveal(report_json);
    let mut probe: TextMap<Value> = TextMap::new();
    assert(member_views(probe.entries()) =~= no_members());
    put(&mut probe, "baseline", behavior_reading_value(&behavior.baseline));
    put(&mut probe, "case_id", text_value(&behavior.case_id));
    put(&mut probe, "changed", Value::Bool(behavior.changed()));
    put(&mut probe, "input", text_value(&behavior.input));
    put(&mut probe, "observed", behavior_reading_value(&behavior.observed));
    let drift = &comparison.ontology_drift;
    let mut ontology: TextMap<Value> = TextMap::new();
    assert(member_views(ontology.entries()) =~= no_members());
    put(&mut ontology, "added", string_array(&drift.added));
    put(&mut ontology, "from_version", text_value(&drift.from_version));
    put(&mut ontology, "name", text_value(&drift.ontology));
    put(&mut ontology, "redefined", string_array(&drift.redefined));
    put(&mut ontology, "removed", string_array(&drift.removed));
    put(&mut ontology, "to_version", text_value(&drift.to_version));
    let mut semantic: TextMap<Value> = TextMap::new();
    assert(member_views(semantic.entries()) =~= no_members());
    put(&mut semantic, "baseline", reading_value(&comparison.probe.baseline_definition));
    put(&mut semantic, "changed", Value::Bool(comparison.probe.changed()));
    put(&mut semantic, "concept", text_value(&comparison.probe.concept));
    put(&mut semantic, "observed", reading_value(&comparison.probe.observed_definition));
    let mut comparison_members: TextMap<Value> = TextMap::new();
    assert(member_views(comparison_members.entries()) =~= no_members());
    put(&mut comparison_members, "behavior_probe", Value::Obj(probe));
    put(&mut comparison_members, "ontology", Value::Obj(ontology));
    put(&mut comparison_members, "semantic_probe", Value::Obj(semantic));
    let mut envelopes: TextMap<Value> = TextMap::new();
    assert(member_views(envelopes.entries()) =~= no_members());
    put(&mut envelopes, "baseline", envelope_value(&comparison.baseline));
    put(&mut envelopes, "observed", envelope_value(&comparison.observed));
    let mut m: TextMap<Value> = TextMap::new();
    assert(member_views(m.entries()) =~= no_members());
    put(&mut m, "comparison", Value::Obj(comparison_members));
    put(&mut m, "envelopes", Value::Obj(envelopes));
    let status = if drift_detected {
        "drift_detected"
    } else {
        "stable"
    };
    put(&mut m, "status", Value::Str(String::from_str(status)));
    Value::Obj(m)
}

// ---------------------------------------------------------------------------
// Comparing two envelopes
// ---------------------------------------------------------------------------

/// Concepts of `a` that `b` lacks, in key order.
pub open spec fn missing_concepts(
    a: Seq<(Seq<char>, Seq<char>)>,
    b: Seq<(Seq<char>, Seq<char>)>,
) -> Seq<Seq<char>> {
    a.filter_map(
        |e: (Seq<char>, Seq<char>)|
            if !has_key(b, e.0) {
                Some(e.0)
            } else {
                None
            },
    )
}

/// Concepts of `a` that `b` defines differently beyond case and white
/// space, in key order.
pub open spec fn redefined_concepts(
    a: Seq<(Seq<char>, Seq<char>)>,
    b: Seq<(Seq<char>, Seq<char>)>,
) -> Seq<Seq<char>> {
    a.filter_map(
        |e: (Seq<char>, Seq<char>)|
            match lookup(b, e.0) {
                Some(d) => if canonical_definition_spec(e.1) != canonical_definition_spec(d) {
                    Some(e.0)
                } else {
                    None
                },
                None => None,
            },
    )
}

/// Why the behavior probe is refused, or the two readings it compares.
pub open spec fn behavior_outcome(bd: EnvelopeData, od: EnvelopeData, case: Seq<char>) -> Result<
    (ReadingView, ReadingView),
    Seq<char>,
> {
    if bd.behavior_sha256 != od.behavior_sha256 {
        Err(
            "behavior corpus mismatch: baseline "@ + debug_text(bd.behavior_sha256) + ", observed "@
                + debug_text(od.behavior_sha256),
        )
    } else {
        match (lookup(bd.cases, case), lookup(od.cases, case)) {
            (Some(b), Some(o)) => if b.0 != o.0 {
                Err(
                    "behavior case "@ + debug_text(case)
                        + " does not contain the same input on both sides"@,
                )
            } else if lookup(bd.concepts, b.1) is None {
                Err(
                    "baseline"@ + " behavior case "@ + debug_text(case) + " references unknown concept "@
                        + debug_text(b.1),
                )
            } else if lookup(od.concepts, o.1) is None {
                Err(
                    "observed"@ + " behavior case "@ + debug_text(case) + " references unknown concept "@
                        + debug_text(o.1),
                )
            } else {
                Ok((b, o))
            },
            _ => Err("behavior case "@ + debug_text(case) + " is not recorded in both snapshots"@),
        }
    }
}

/// What a successful comparison reports.
pub open spec fn report_parts(
    bd: EnvelopeData,
    od: EnvelopeData,
    probe: Seq<char>,
    case: Seq<char>,
    readings: (ReadingView, ReadingView),
) -> ReportParts {
    let added = missing_concepts(od.concepts, bd.concepts);
    let removed = missing_concepts(bd.concepts, od.concepts);
    let redefined = redefined_concepts(bd.concepts, od.concepts);
    ReportParts {
        baseline: bd,
        observed: od,
        name: bd.ontology_name,
        from_version: bd.ontology_version,
        to_version: od.ontology_version,
        added,
        removed,
        redefined,
        concept: probe,
        baseline_definition: lookup(bd.concepts, probe),
        observed_definition: lookup(od.concepts, probe),
        case_id: case,
        input: readings.0.0,
        baseline_reading: readings.0,
        observed_reading: readings.1,
        drift_detected: !(added.len() == 0 && removed.len() == 0 && redefined.len() == 0),
    }
}

/// What comparing two read envelopes reports, once the probe and the case
/// are named.
pub open spec fn comparison_report(
    bd: EnvelopeData,
    od: EnvelopeData,
    probe: Seq<char>,
    case: Seq<char>,
) -> (JsonView, int) {
    if bd.artifact_id != od.artifact_id {
        (
            rejection_json(
                "comparison"@,
                "incomparable_envelopes"@,
                "artifact mismatch: baseline "@ + debug_text(bd.artifact_id)
                    + ", observed "@ + debug_text(od.artifact_id),
                None,
            ),
            1,
        )
    } else if bd.ontology_name != od.ontology_name {
        (
            rejection_json(
                "comparison"@,
                "incomparable_envelopes"@,
                "ontology mismatch: baseline "@ + debug_text(bd.ontology_name)
                    + ", observed "@ + debug_text(od.ontology_name),
                None,
            ),
            1,
        )
    } else if lookup(bd.concepts, probe) is None && lookup(od.concepts, probe) is None {
        (
            rejection_json(
                "comparison"@,
                "unknown_probe"@,
                "probe concept "@ + debug_text(probe) + " is absent from both snapshots"@,
                Some("$.probe"@),
            ),
            1,
        )
    } else {
        match behavior_outcome(bd, od, case) {
            Err(message) => (
                rejection_json(
                    "comparison"@,
                    "invalid_behavior_probe"@,
                    message,
                    Some("$.case"@),
                ),
                1,
            ),
            Ok(readings) => {
                let parts = report_parts(bd, od, probe, case, readings);
                (
                    report_json(parts),
                    if parts.drift_detected {
                        2
                    } else {
                        0
                    },
                )
            },
        }
    }
}

/// The whole analysis: the report and its exit status — 0 stable, 2 drift
/// detected, 1 refused.
pub open spec fn analyze_spec(
    baseline_raw: Seq<char>,
    observed_raw: Seq<char>,
    probe: Seq<char>,
    case: Seq<char>,
) -> (JsonView, int) {
    match envelope_spec(baseline_raw) {
        Err((path, message)) => (
            rejection_json("baseline"@, "invalid_envelope"@, message, Some(path)),
            1,
        ),
        Ok(bd) => match envelope_spec(observed_raw) {
            Err((path, message)) => (
                rejection_json("observed"@, "invalid_envelope"@, message, Some(path)),
                1,
            ),
            Ok(od) => if is_blank(probe) {
                (
                    rejection_json(
                        "comparison"@,
                        "invalid_probe"@,
                        "probe concept must not be empty"@,
                        Some("$.probe"@),
                    ),
                    1,
                )
            } else if is_blank(case) {
                (
                    rejection_json(
                        "comparison"@,
                        "invalid_case"@,
                        "behavior case must not be empty"@,
                        Some("$.case"@),
                    ),
                    1,
                )
            } else {
                comparison_report(bd, od, probe, case)
            },
        },
    }
}

proof fn lemma_text_lookup(e: Seq<(Seq<char>, String)>, k: Seq<char>)
    ensures
        lookup(text_entries(e), k) == opt_str(lookup(e, k)),
    decreases e.len(),
{
    if e.len() > 0 {
        assert(text_entries(e).drop_last() =~= text_entries(e.drop_last()));
        lemma_text_lookup(e.drop_last(), k);
    }
}

proof fn lemma_reading_lookup(e: Seq<(Seq<char>, BehaviorReading)>, k: Seq<char>)
    ensures
        lookup(reading_entries(e), k) == match lookup(e, k) {
            Some(b) => Some(reading_view(b)),
            None => None,
        },
    decreases e.len(),
{
    if e.len() > 0 {
        assert(reading_entries(e).drop_last() =~= reading_entries(e.drop_last()));
        lemma_reading_lookup(e.drop_last(), k);
    }
}

proof fn lemma_text_has_key(e: Seq<(Seq<char>, String)>, k: Seq<char>)
    ensures
        has_key(text_entries(e), k) == has_key(e, k),
{
    if has_key(e, k) {
        let i = choose|i: int| 0 <= i < e.len() && #[trigger] e[i].0 == k;
        assert(text_entries(e)[i].0 == k);
    }
    if has_key(text_entries(e), k) {
        let i = choose|i: int| 0 <= i < text_entries(e).len() && #[trigger] text_entries(e)[i].0 == k;
        assert(e[i].0 == k);
    }
}

proof fn lemma_missing_text(a: Seq<(Seq<char>, String)>, b: Seq<(Seq<char>, String)>)
    ensures
        keys_missing_from(a, b) == missing_concepts(text_entries(a), text_entries(b)),
    decreases a.len(),
{
    if a.len() > 0 {
        lemma_missing_text(a.drop_last(), b);
        assert(text_entries(a).drop_last() =~= text_entries(a.drop_last()));
        lemma_text_has_key(b, a.last().0);
    }
}

proof fn lemma_redefined_text(a: Seq<(Seq<char>, String)>, b: Seq<(Seq<char>, String)>)
    ensures
        keys_redefined(a, b) == redefined_concepts(text_entries(a), text_entries(b)),
    decreases a.len(),
{
    if a.len() > 0 {
        lemma_redefined_text(a.drop_last(), b);
        assert(text_entries(a).drop_last() =~= text_entries(a.drop_last()));
        lemma_text_lookup(b, a.last().0);
    }
}

/// Compares two read envelopes once the probe and the case are named.
#[verifier::rlimit(40)]
fn compare_envelopes(
    baseline: &ProvenanceEnvelope,
    observed: &ProvenanceEnvelope,
    probe: &str,
    case_id: &str,
) -> (r: (Value, i32))
    ensures
        r.0@ == comparison_report(envelope_data(*baseline), envelope_data(*observed), probe@, case_id@).0,
        r.1 == comparison_report(envelope_data(*baseline), envelope_data(*observed), probe@, case_id@).1,
{
    let ghost bd = envelope_data(*baseline);
    let ghost od = envelope_data(*observed);
    proof {
        lemma_text_lookup(baseline.ontology.concepts.entries(), probe@);
        lemma_text_lookup(observed.ontology.concepts.entries(), probe@);
    }
    match baseline.compare(observed, probe) {
        Ok(comparison) => {
            proof {
                lemma_reading_lookup(baseline.behavior_cases.entries(), case_id@);
                lemma_reading_lookup(observed.behavior_cases.entries(), case_id@);
                if let (Some(b), Some(o)) = (
                    lookup(baseline.behavior_cases.entries(), case_id@),
                    lookup(observed.behavior_cases.entries(), case_id@),
                ) {
                    lemma_text_lookup(baseline.ontology.concepts.entries(), b.classification@);
                    lemma_text_lookup(observed.ontology.concepts.entries(), o.classification@);
                }
            }
            let behavior = match baseline.probe_behavior(observed, case_id) {
                Ok(b) => b,
                Err(error) => {
                    let message = error.to_string();
                    return (
                        rejection(
                            "comparison",
                            "invalid_behavior_probe",
                            message.as_str(),
                            Some("$.case"),
                        ),
                        1,
                    );
                },
            };
            let drift_detected = comparison.drift_detected();
            proof {
                let c = comparison;
                lemma_missing_text(observed.ontology.concepts.entries(), baseline.ontology.concepts.entries());
                lemma_missing_text(baseline.ontology.concepts.entries(), observed.ontology.concepts.entries());
                lemma_redefined_text(baseline.ontology.concepts.entries(), observed.ontology.concepts.entries());
                assert(texts(c.ontology_drift.added@) =~= crate::ontology::str_views(c.ontology_drift.added@));
                assert(texts(c.ontology_drift.removed@) =~= crate::ontology::str_views(c.ontology_drift.removed@));
                assert(texts(c.ontology_drift.redefined@) =~= crate::ontology::str_views(
                    c.ontology_drift.redefined@,
                ));
                assert(envelope_data(c.baseline) == bd);
                assert(envelope_data(c.observed) == od);
                assert(parts_of(c, behavior, drift_detected) == report_parts(
                    bd,
                    od,
                    probe@,
                    case_id@,
                    (reading_view(behavior.baseline), reading_view(behavior.observed)),
                ));
            }
            let code = if drift_detected {
                2
            } else {
                0
            };
            (report_value(&comparison, &behavior, drift_detected), code)
        },
        Err(ComparisonError::UnknownProbe { concept }) => {
            let mut message = String::from_str("probe concept ");
            message.append(crate::text::debug_str(concept.as_str()).as_str());
            message.append(" is absent from both snapshots");
            (rejection("comparison", "unknown_probe", message.as_str(), Some("$.probe")), 1)
        },
        Err(error) => {
            let message = error.to_string();
            (rejection("comparison", "incomparable_envelopes", message.as_str(), None), 1)
        },
    }
}

/// Compares two envelopes read from text: reads both under the envelope
/// contract, refuses a blank probe or case, compares the ontologies and
/// probes one concept and one recorded case, and reports the finding with
/// its exit status — 0 stable, 2 drift detected, 1 refused.
pub fn analyze(baseline_raw: &str, observed_raw: &str, probe: &str, case_id: &str) -> (r: (
    Value,
    i32,
))
    ensures
        r.0@ == analyze_spec(baseline_raw@, observed_raw@, probe@, case_id@).0,
        r.1 == analyze_spec(baseline_raw@, observed_raw@, probe@, case_id@).1,
{
    let baseline = match parse_envelope(baseline_raw) {
        Ok(e) => e,
        Err(error) => {
            return (
                rejection(
                    "baseline",
                    "invalid_envelope",
                    error.message.as_str(),
                    Some(error.path.as_str()),
                ),
                1,
            );
        },
    };
    let observed = match parse_envelope(observed_raw) {
        Ok(e) => e,
        Err(error) => {
            return (
                rejection(
                    "observed",
                    "invalid_envelope",
                    error.message.as_str(),
                    Some(error.path.as_str()),
                ),
                1,
            );
        },
    };
    if blank(probe) {
        return (
            rejection(
                "comparison",
                "invalid_probe",
                "probe concept must not be empty",
                Some("$.probe"),
            ),
            1,
        );
    }
    if blank(case_id) {
        return (
            rejection("comparison", "invalid_case", "behavior case must not be empty", Some("$.case")),
            1,
        );
    }
    compare_envelopes(&baseline, &observed, probe, case_id)
}

// ---------------------------------------------------------------------------
// Reading a report
// ---------------------------------------------------------------------------

/// The value of member `k` when `v` is an object holding it.
pub open spec fn member(v: JsonView, k: Seq<char>) -> Option<JsonView> {
    match v {
        JsonView::Obj(m) => lookup(m, k),
        _ => None,
    }
}

fn member_of<'a>(v: &'a Value, k: &str) -> (r: Option<&'a Value>)
    ensures
        crate::json::opt_view(
            match r {
                Some(x) => Some(*x),
                None => None,
            },
        ) == member(v@, k@),
{
    match v {
        Value::Obj(m) => {
            proof {
                crate::json::lemma_member_views_lookup(m.entries(), k@);
            }
            m.get(k)
        },
        _ => None,
    }
}

pub open spec fn status_spec(v: JsonView) -> Option<Seq<char>> {
    match member(v, "status"@) {
        Some(JsonView::Str(s)) => Some(s),
        _ => None,
    }
}

/// The status a report gives, if it gives one.
pub fn status(value: &Value) -> (r: Option<String>)
    ensures
        crate::ontology::opt_str(r) == status_spec(value@),
{
    match member_of(value, "status") {
        Some(Value::Str(s)) => Some(s.clone()),
        _ => None,
    }
}

/// Whether the probe under `comparison.<probe>` of a report records a
/// change, if the report says.
pub open spec fn probe_changed_spec(v: JsonView, probe: Seq<char>) -> Option<bool> {
    match member(v, "comparison"@) {
        Some(c) => match member(c, probe) {
            Some(p) => match member(p, "changed"@) {
                Some(JsonView::Bool(b)) => Some(b),
                _ => None,
            },
            None => None,
        },
        None => None,
    }
}

fn probe_changed(value: &Value, probe: &str) -> (r: Option<bool>)
    ensures
        r == probe_changed_spec(value@, probe@),
{
    let comparison = member_of(value, "comparison")?;
    let p = member_of(comparison, probe)?;
    match member_of(p, "changed") {
        Some(Value::Bool(b)) => Some(*b),
        _ => None,
    }
}

/// Whether a report's concept probe records a changed meaning.
pub fn semantic_probe_changed(value: &Value) -> (r: Option<bool>)
    ensures
        r == probe_changed_spec(value@, "semantic_probe"@),
{
    probe_changed(value, "semantic_probe")
}

/// Whether a report's behavior probe records a changed classification or
/// route.
pub fn behavior_probe_changed(value: &Value) -> (r: Option<bool>)
    ensures
        r == probe_changed_spec(value@, "behavior_probe"@),
{
    probe_changed(value, "behavior_probe")
}

// ---------------------------------------------------------------------------
// Comparing an envelope with itself
// ---------------------------------------------------------------------------

proof fn lemma_concepts_keys(m: Members)
    ensures
        concepts_spec(m) matches Ok(c) ==> c.len() == m.len() && forall|i: int|
            0 <= i < c.len() ==> #[trigger] c[i].0 == m[i].0,
    decreases m.len(),
{
    if m.len() > 0 {
        lemma_concepts_keys(m.drop_last());
        if let Ok(c) = concepts_spec(m) {
            assert forall|i: int| 0 <= i < c.len() implies #[trigger] c[i].0 == m[i].0 by {
                if i < c.len() - 1 {
                    assert(m.drop_last()[i] == m[i]);
                }
            }
        }
    }
}

proof fn lemma_member_well_keyed(m: Members, k: Seq<char>)
    requires
        crate::json::members_well_keyed(m),
    ensures
        lookup(m, k) matches Some(v) ==> crate::json::well_keyed(v),
{
    crate::json::lemma_members_well_keyed(m);
    crate::textmap::lemma_lookup_member(m, k);
    if let Some(v) = lookup(m, k) {
        let j = choose|j: int| 0 <= j < m.len() && #[trigger] m[j].1 == v;
        assert(crate::json::well_keyed(m[j].1));
    }
}

/// The concepts of an envelope read from text are in increasing key order.
proof fn lemma_envelope_concepts_sorted(raw: Seq<char>)
    ensures
        envelope_spec(raw) matches Ok(d) ==> keys_increasing(d.concepts),
{
    crate::json::lemma_document_well_keyed(raw);
    if let (Ok(v), Ok(d)) = (p_document(raw), envelope_spec(raw)) {
        let root = v->Obj_0;
        lemma_member_well_keyed(root, "ontology"@);
        let ov = lookup(root, "ontology"@)->Some_0;
        let o = ov->Obj_0;
        lemma_member_well_keyed(o, "concepts"@);
        let co = lookup(o, "concepts"@)->Some_0->Obj_0;
        lemma_concepts_keys(co);
        assert forall|i: int, j: int| 0 <= i < j < d.concepts.len() implies crate::textmap::key_lt(
            #[trigger] d.concepts[i].0,
            #[trigger] d.concepts[j].0,
        ) by {
            assert(d.concepts[i].0 == co[i].0);
            assert(d.concepts[j].0 == co[j].0);
        }
    }
}

proof fn lemma_nothing_missing_text(a: Seq<(Seq<char>, Seq<char>)>, b: Seq<(Seq<char>, Seq<char>)>)
    requires
        forall|i: int| 0 <= i < a.len() ==> has_key(b, #[trigger] a[i].0),
    ensures
        missing_concepts(a, b).len() == 0,
    decreases a.len(),
{
    if a.len() > 0 {
        let pre = a.drop_last();
        assert forall|i: int| 0 <= i < pre.len() implies has_key(b, #[trigger] pre[i].0) by {
            assert(pre[i] == a[i]);
        }
        lemma_nothing_missing_text(pre, b);
        assert(has_key(b, a[a.len() - 1].0));
    }
}

proof fn lemma_nothing_redefined_text(
    a: Seq<(Seq<char>, Seq<char>)>,
    b: Seq<(Seq<char>, Seq<char>)>,
)
    requires
        forall|i: int| 0 <= i < a.len() ==> lookup(b, #[trigger] a[i].0) == Some(a[i].1),
    ensures
        redefined_concepts(a, b).len() == 0,
    decreases a.len(),
{
    if a.len() > 0 {
        let pre = a.drop_last();
        assert forall|i: int| 0 <= i < pre.len() implies lookup(b, #[trigger] pre[i].0) == Some(
            pre[i].1,
        ) by {
            assert(pre[i] == a[i]);
        }
        lemma_nothing_redefined_text(pre, b);
        assert(a.last() == a[a.len() - 1]);
    }
}

/// The exit status follows the ontology alone: a comparison that is not
/// refused is stable (0) exactly when no concept was added, removed or
/// redefined, and reports drift (2) otherwise. The behaviour probe is
/// reported, but does not decide the status.
pub proof fn law_status_follows_the_ontology_diff(
    bd: EnvelopeData,
    od: EnvelopeData,
    probe: Seq<char>,
    case: Seq<char>,
)
    requires
        comparison_report(bd, od, probe, case).1 != 1,
    ensures
        comparison_report(bd, od, probe, case).1 == 0 || comparison_report(bd, od, probe, case).1
            == 2,
        comparison_report(bd, od, probe, case).1 == 0 <==> (missing_concepts(
            od.concepts,
            bd.concepts,
        ).len() == 0 && missing_concepts(bd.concepts, od.concepts).len() == 0
            && redefined_concepts(bd.concepts, od.concepts).len() == 0),
{
}

/// An envelope compared with itself never reports drift: the comparison is
/// stable, or it is refused.
pub proof fn law_self_comparison_never_reports_drift(raw: Seq<char>, probe: Seq<char>, case: Seq<char>)
    ensures
        analyze_spec(raw, raw, probe, case).1 != 2,
{
    lemma_envelope_concepts_sorted(raw);
    if let Ok(d) = envelope_spec(raw) {
        let c = d.concepts;
        assert forall|i: int| 0 <= i < c.len() implies has_key(c, #[trigger] c[i].0) by {}
        assert forall|i: int| 0 <= i < c.len() implies lookup(c, #[trigger] c[i].0) == Some(c[i].1) by {
            crate::textmap::lemma_lookup_index(c, c[i].0, i);
        }
        lemma_nothing_missing_text(c, c);
        lemma_nothing_redefined_text(c, c);
    }
}

} // verus!
