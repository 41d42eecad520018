//! Clarification answers: applied only at the paths digestion asked about,
//! and recorded apart from the repairs.

use vstd::prelude::*;

use crate::check::{check, check_spec};
use crate::digest::{
    answer_views, check_value, many_documents_question, multi_document_question,
    question_views, repair_views, settle, Answer, AnswerError, Digestion, Outcome, OutcomeView,
    Question, Repair, RepairView,
};
use crate::json::{
    duplicate_items, duplicate_members, item_views, JsonView, Value,
};
use crate::lenient::{lenient, parse_leniently, Lenient, LenientView};
use crate::number::dec_value;
use crate::schema::Schema;
use crate::textmap::{lookup, sorted_insert};

verus! {

broadcast use crate::json::group_json_view;

/// One step of an answer path: an object key or an array index.
#[derive(Debug)]
pub enum PathSegment {
    Key(String),
    Index(usize),
}

pub enum SegmentView {
    Key(Seq<char>),
    Index(nat),
}

impl View for PathSegment {
    type V = SegmentView;

    open spec fn view(&self) -> SegmentView {
        match *self {
            PathSegment::Key(k) => SegmentView::Key(k@),
            PathSegment::Index(i) => SegmentView::Index(i as nat),
        }
    }
}

pub open spec fn segment_views(v: Seq<PathSegment>) -> Seq<SegmentView> {
    v.map_values(|s: PathSegment| s@)
}

/// The end of a key segment starting at `i`: the next `.` or `[`, or the
/// end of the path.
pub open spec fn key_end(p: Seq<char>, i: int) -> int
    decreases p.len() - i,
{
    if 0 <= i < p.len() && p[i] != '.' && p[i] != '[' {
        key_end(p, i + 1)
    } else {
        i
    }
}

/// The end of the digits starting at `i`.
pub open spec fn digits_end(p: Seq<char>, i: int) -> int
    decreases p.len() - i,
{
    if 0 <= i < p.len() && '0' <= p[i] <= '9' {
        digits_end(p, i + 1)
    } else {
        i
    }
}

/// The segments of path `p` from `i` on, after `acc`: `.key` with a
/// non-empty key, or `[digits]` with an index that fits a `usize`.
pub open spec fn segments_from(p: Seq<char>, i: int, acc: Seq<SegmentView>) -> Option<
    Seq<SegmentView>,
>
    decreases p.len() - i,
{
    if i < 0 || i >= p.len() {
        if acc.len() > 0 {
            Some(acc)
        } else {
            None
        }
    } else if p[i] == '.' {
        let end = key_end(p, i + 1);
        if i + 1 < end <= p.len() {
            segments_from(p, end, acc.push(SegmentView::Key(p.subrange(i + 1, end))))
        } else {
            None
        }
    } else if p[i] == '[' {
        let end = digits_end(p, i + 1);
        if i + 1 < end < p.len() && p[end] == ']' && dec_value(p.subrange(i + 1, end))
            <= usize::MAX {
            segments_from(
                p,
                end + 1,
                acc.push(SegmentView::Index(dec_value(p.subrange(i + 1, end)))),
            )
        } else {
            None
        }
    } else {
        None
    }
}

/// The segments of an answer path: `$` followed by at least one segment.
pub open spec fn path_segments(p: Seq<char>) -> Option<Seq<SegmentView>> {
    if p.len() <= 1 || p[0] != '$' {
        None
    } else {
        segments_from(p, 1, Seq::empty())
    }
}

proof fn lemma_segments_nonempty(p: Seq<char>, i: int, acc: Seq<SegmentView>)
    ensures
        segments_from(p, i, acc) matches Some(s) ==> s.len() > 0,
    decreases p.len() - i,
{
    if 0 <= i < p.len() {
        if p[i] == '.' {
            let end = key_end(p, i + 1);
            if i + 1 < end <= p.len() {
                lemma_segments_nonempty(p, end, acc.push(SegmentView::Key(p.subrange(i + 1, end))));
            }
        } else if p[i] == '[' {
            let end = digits_end(p, i + 1);
            if i + 1 < end < p.len() && p[end] == ']' && dec_value(p.subrange(i + 1, end))
                <= usize::MAX {
                lemma_segments_nonempty(
                    p,
                    end + 1,
                    acc.push(SegmentView::Index(dec_value(p.subrange(i + 1, end)))),
                );
            }
        }
    }
}

proof fn lemma_key_end(p: Seq<char>, i: int)
    requires
        0 <= i <= p.len(),
    ensures
        i <= key_end(p, i) <= p.len(),
    decreases p.len() - i,
{
    if i < p.len() && p[i] != '.' && p[i] != '[' {
        lemma_key_end(p, i + 1);
    }
}

proof fn lemma_digits_end(p: Seq<char>, i: int)
    requires
        0 <= i <= p.len(),
    ensures
        i <= digits_end(p, i) <= p.len(),
        crate::number::all_digits(p.subrange(i, digits_end(p, i))),
    decreases p.len() - i,
{
    if i < p.len() && '0' <= p[i] <= '9' {
        lemma_digits_end(p, i + 1);
        assert forall|k: int| 0 <= k < p.subrange(i, digits_end(p, i)).len() implies '0'
            <= #[trigger] p.subrange(i, digits_end(p, i))[k] <= '9' by {
            if k > 0 {
                assert(p.subrange(i, digits_end(p, i))[k] == p.subrange(
                    i + 1,
                    digits_end(p, i + 1),
                )[k - 1]);
            }
        }
    } else {
        assert(p.subrange(i, i).len() == 0);
    }
}

/// Parses an answer path such as `$.qty` or `$.items[2].name`.
pub fn parse_json_path(path: &str) -> (r: Option<Vec<PathSegment>>)
    ensures
        match path_segments(path@) {
            Some(s) => r matches Some(v) && segment_views(v@) == s,
            None => r is None,
        },
{
    let p = crate::text::chars_of(path);
    if p.len() <= 1 || p[0] != '$' {
        return None;
    }
    let mut segments: Vec<PathSegment> = Vec::new();
    let mut i: usize = 1;
    assert(segment_views(segments@) =~= Seq::<SegmentView>::empty());
    loop
        invariant
            1 <= i <= p@.len(),
            p@ == path@,
            path_segments(path@) == segments_from(p@, i as int, segment_views(segments@)),
        decreases p@.len() - i,
    {
        if i >= p.len() {
            if segments.len() > 0 {
                return Some(segments);
            } else {
                return None;
            }
        }
        let ghost before = segment_views(segments@);
        if p[i] == '.' {
            let start = i + 1;
            let mut end = start;
            proof {
                lemma_key_end(p@, start as int);
            }
            while end < p.len() && p[end] != '.' && p[end] != '['
                invariant
                    start <= end <= p@.len(),
                    key_end(p@, end as int) == key_end(p@, start as int),
                decreases p@.len() - end,
            {
                end = end + 1;
            }
            if end == start {
                return None;
            }
            let key = crate::text::string_from_chars(
                vstd::slice::slice_subrange(p.as_slice(), start, end),
            );
            segments.push(PathSegment::Key(key));
            assert(segment_views(segments@) =~= before.push(
                SegmentView::Key(p@.subrange(start as int, end as int)),
            ));
            i = end;
        } else if p[i] == '[' {
            let start = i + 1;
            let mut end = start;
            proof {
                lemma_digits_end(p@, start as int);
            }
            while end < p.len() && '0' <= p[end] && p[end] <= '9'
                invariant
                    start <= end <= p@.len(),
                    digits_end(p@, end as int) == digits_end(p@, start as int),
                decreases p@.len() - end,
            {
                end = end + 1;
            }
            if end == start || end >= p.len() || p[end] != ']' {
                return None;
            }
            let digits = vstd::slice::slice_subrange(p.as_slice(), start, end);
            let v = crate::number::dec_value_clamped(digits);
            if v > usize::MAX as i128 {
                return None;
            }
            segments.push(PathSegment::Index(v as usize));
            assert(segment_views(segments@) =~= before.push(
                SegmentView::Index(dec_value(p@.subrange(start as int, end as int))),
            ));
            i = end + 1;
        } else {
            return None;
        }
    }
}

/// `v` with the value at `segs[k..]` replaced by `rep`, when every step
/// exists: keys descend into objects (the last one may be new), indices
/// into arrays (within bounds).
pub open spec fn set_from(v: JsonView, segs: Seq<SegmentView>, k: int, rep: JsonView) -> Option<
    JsonView,
>
    decreases segs.len() - k,
{
    if k < 0 || k >= segs.len() {
        None
    } else if k == segs.len() - 1 {
        match (segs[k], v) {
            (SegmentView::Key(key), JsonView::Obj(m)) => Some(
                JsonView::Obj(sorted_insert(m, key, rep)),
            ),
            (SegmentView::Index(i), JsonView::Arr(a)) => if i < a.len() {
                Some(JsonView::Arr(a.update(i as int, rep)))
            } else {
                None
            },
            _ => None,
        }
    } else {
        match (segs[k], v) {
            (SegmentView::Key(key), JsonView::Obj(m)) => match lookup(m, key) {
                Some(child) => match set_from(child, segs, k + 1, rep) {
                    Some(c) => Some(JsonView::Obj(sorted_insert(m, key, c))),
                    None => None,
                },
                None => None,
            },
            (SegmentView::Index(i), JsonView::Arr(a)) => if i < a.len() {
                match set_from(a[i as int], segs, k + 1, rep) {
                    Some(c) => Some(JsonView::Arr(a.update(i as int, c))),
                    None => None,
                }
            } else {
                None
            },
            _ => None,
        }
    }
}

/// `v` with the value at answer path `path` replaced by `rep`; `$` replaces
/// the whole value. `None` when the path is invalid or leads nowhere.
pub open spec fn set_path_spec(v: JsonView, path: Seq<char>, rep: JsonView) -> Option<JsonView> {
    if path == "$"@ {
        Some(rep)
    } else {
        match path_segments(path) {
            Some(segs) => set_from(v, segs, 0, rep),
            None => None,
        }
    }
}

fn set_at(v: &Value, segs: &Vec<PathSegment>, k: usize, rep: Value) -> (r: Option<Value>)
    requires
        k < segs@.len(),
    ensures
        match set_from(v@, segment_views(segs@), k as int, rep@) {
            Some(x) => r matches Some(y) && y@ == x,
            None => r is None,
        },
    decreases segs@.len() - k,
{
    let last = k == segs.len() - 1;
    match (&segs[k], v) {
        (PathSegment::Key(key), Value::Obj(m)) => {
            if last {
                let mut out = duplicate_members(m);
                let ghost e = out.entries();
                proof {
                    crate::json::lemma_member_views_insert(e, key@, rep);
                }
                out.insert(key.clone(), rep);
                Some(Value::Obj(out))
            } else {
                proof {
                    crate::json::lemma_member_views_lookup(m.entries(), key@);
                }
                match m.get(key.as_str()) {
                    Some(child) => match set_at(child, segs, k + 1, rep) {
                        Some(c) => {
                            let mut out = duplicate_members(m);
                            let ghost e = out.entries();
                            proof {
                                crate::json::lemma_member_views_insert(e, key@, c);
                            }
                            out.insert(key.clone(), c);
                            Some(Value::Obj(out))
                        },
                        None => None,
                    },
                    None => None,
                }
            }
        },
        (PathSegment::Index(i), Value::Arr(a)) => {
            if *i >= a.len() {
                return None;
            }
            if last {
                let mut out = duplicate_items(a);
                out.set(*i, rep);
                assert(item_views(out@) =~= item_views(a@).update(*i as int, rep@));
                Some(Value::Arr(out))
            } else {
                match set_at(&a[*i], segs, k + 1, rep) {
                    Some(c) => {
                        let mut out = duplicate_items(a);
                        let ghost cv = c@;
                        out.set(*i, c);
                        assert(item_views(out@) =~= item_views(a@).update(*i as int, cv));
                        Some(Value::Arr(out))
                    },
                    None => None,
                }
            }
        },
        _ => None,
    }
}

/// `root` with the value at `path` replaced by `replacement`.
pub fn set_json_path(root: &Value, path: &str, replacement: Value) -> (r: Result<Value, AnswerError>)
    ensures
        match set_path_spec(root@, path@, replacement@) {
            Some(x) => r matches Ok(y) && y@ == x,
            None => r matches Err(AnswerError::InvalidPath { path: p }) && p@ == path@,
        },
{
    if crate::erasure::str_eq(path, "$") {
        return Ok(replacement);
    }
    proof {
        lemma_segments_nonempty(path@, 1, Seq::empty());
    }
    match parse_json_path(path) {
        None => Err(AnswerError::InvalidPath { path: String::from_str(path) }),
        Some(segs) => match set_at(root, &segs, 0, replacement) {
            Some(v) => Ok(v),
            None => Err(AnswerError::InvalidPath { path: String::from_str(path) }),
        },
    }
}

/// A refused answer as plain values.
pub enum AnswerErrorView {
    Parse(int, Seq<char>),
    NotRequested(Seq<char>),
    Duplicate(Seq<char>),
    InvalidPath(Seq<char>),
}

impl View for AnswerError {
    type V = AnswerErrorView;

    open spec fn view(&self) -> AnswerErrorView {
        match *self {
            AnswerError::Parse(p) => AnswerErrorView::Parse(p.at as int, p.msg@),
            AnswerError::NotRequested { path } => AnswerErrorView::NotRequested(path@),
            AnswerError::Duplicate { path } => AnswerErrorView::Duplicate(path@),
            AnswerError::InvalidPath { path } => AnswerErrorView::InvalidPath(path@),
        }
    }
}

pub open spec fn question_paths(qs: Seq<crate::digest::QuestionView>) -> Seq<Seq<char>> {
    qs.map_values(|q: crate::digest::QuestionView| q.path)
}

pub open spec fn answer_paths(a: Seq<(Seq<char>, JsonView)>) -> Seq<Seq<char>> {
    a.map_values(|x: (Seq<char>, JsonView)| x.0)
}

/// Answers applied in order to `v`: each must be at a requested path, no
/// path may be answered twice, and each path must lead somewhere.
pub open spec fn apply_answers(
    v: JsonView,
    requested: Seq<Seq<char>>,
    answers: Seq<(Seq<char>, JsonView)>,
) -> Result<JsonView, AnswerErrorView>
    decreases answers.len(),
{
    if answers.len() == 0 {
        Ok(v)
    } else {
        match apply_answers(v, requested, answers.drop_last()) {
            Err(e) => Err(e),
            Ok(w) => {
                let a = answers.last();
                if !requested.contains(a.0) {
                    Err(AnswerErrorView::NotRequested(a.0))
                } else if answer_paths(answers.drop_last()).contains(a.0) {
                    Err(AnswerErrorView::Duplicate(a.0))
                } else {
                    match set_path_spec(w, a.0, a.1) {
                        Some(x) => Ok(x),
                        None => Err(AnswerErrorView::InvalidPath(a.0)),
                    }
                }
            },
        }
    }
}

/// With several documents the only question is which one: the one answer
/// allowed is at `$`, and it chooses.
pub open spec fn choose_document(answers: Seq<(Seq<char>, JsonView)>) -> Result<
    Option<JsonView>,
    AnswerErrorView,
>
    decreases answers.len(),
{
    if answers.len() == 0 {
        Ok(None)
    } else {
        match choose_document(answers.drop_last()) {
            Err(e) => Err(e),
            Ok(prev) => {
                let a = answers.last();
                if a.0 != "$"@ {
                    Err(AnswerErrorView::NotRequested(a.0))
                } else if prev is Some {
                    Err(AnswerErrorView::Duplicate(a.0))
                } else {
                    Ok(Some(a.1))
                }
            },
        }
    }
}

/// What digesting `raw` with `answers` gives: the outcome and repairs, or
/// the refusal.
pub open spec fn answered_spec(
    raw: Seq<char>,
    schema: Schema,
    answers: Seq<(Seq<char>, JsonView)>,
) -> Result<(OutcomeView, Seq<RepairView>), AnswerErrorView> {
    let (res, tags) = lenient(raw);
    match res {
        Err((at, msg)) => Err(AnswerErrorView::Parse(at, msg)),
        Ok(LenientView::Many(docs)) => match choose_document(answers) {
            Err(e) => Err(e),
            Ok(Some(v)) => {
                let c = check_spec(v, schema, "$"@);
                Ok((settle(c), repair_views(tags) + c.1))
            },
            Ok(None) => Ok(
                (OutcomeView::Clarify(seq![many_documents_question(docs)]), repair_views(tags)),
            ),
        },
        Ok(LenientView::One(v)) => {
            let requested = question_paths(check_spec(v, schema, "$"@).2);
            match apply_answers(v, requested, answers) {
                Err(e) => Err(e),
                Ok(w) => {
                    let c = check_spec(w, schema, "$"@);
                    Ok((settle(c), repair_views(tags) + c.1))
                },
            }
        },
    }
}

fn requested_contains(questions: &Vec<Question>, path: &String) -> (r: bool)
    ensures
        r == question_paths(question_views(questions@)).contains(path@),
{
    let ghost qp = question_paths(question_views(questions@));
    let mut i: usize = 0;
    while i < questions.len()
        invariant
            i <= questions@.len(),
            qp == question_paths(question_views(questions@)),
            forall|k: int| 0 <= k < i ==> qp[k] != path@,
        decreases questions@.len() - i,
    {
        if crate::erasure::str_eq(questions[i].path.as_str(), path.as_str()) {
            assert(qp[i as int] == path@);
            return true;
        }
        i = i + 1;
    }
    false
}

fn answered_before(answers: &Vec<Answer>, n: usize, path: &String) -> (r: bool)
    requires
        n <= answers@.len(),
    ensures
        r == answer_paths(answer_views(answers@).take(n as int)).contains(path@),
{
    let ghost ap = answer_paths(answer_views(answers@).take(n as int));
    let mut i: usize = 0;
    while i < n
        invariant
            i <= n <= answers@.len(),
            ap == answer_paths(answer_views(answers@).take(n as int)),
            forall|k: int| 0 <= k < i ==> ap[k] != path@,
        decreases n - i,
    {
        if crate::erasure::str_eq(answers[i].path.as_str(), path.as_str()) {
            assert(ap[i as int] == path@);
            return true;
        }
        i = i + 1;
    }
    false
}

proof fn lemma_apply_error_sticks(
    v: JsonView,
    requested: Seq<Seq<char>>,
    s: Seq<(Seq<char>, JsonView)>,
    n: int,
    j: int,
)
    requires
        0 <= n <= j <= s.len(),
        apply_answers(v, requested, s.take(n)) is Err,
    ensures
        apply_answers(v, requested, s.take(j)) == apply_answers(v, requested, s.take(n)),
    decreases j - n,
{
    if j > n {
        lemma_apply_error_sticks(v, requested, s, n, j - 1);
        assert(s.take(j).drop_last() =~= s.take(j - 1));
    }
}

proof fn lemma_choose_error_sticks(s: Seq<(Seq<char>, JsonView)>, n: int, j: int)
    requires
        0 <= n <= j <= s.len(),
        choose_document(s.take(n)) is Err,
    ensures
        choose_document(s.take(j)) == choose_document(s.take(n)),
    decreases j - n,
{
    if j > n {
        lemma_choose_error_sticks(s, n, j - 1);
        assert(s.take(j).drop_last() =~= s.take(j - 1));
    }
}

fn choose_answer(answers: &Vec<Answer>) -> (r: Result<Option<Value>, AnswerError>)
    ensures
        match choose_document(answer_views(answers@)) {
            Ok(o) => r matches Ok(x) && crate::json::opt_view(x) == o,
            Err(e) => r matches Err(x) && x@ == e,
        },
{
    let ghost av = answer_views(answers@);
    let mut chosen: Option<Value> = None;
    let mut i: usize = 0;
    assert(av.take(0) =~= Seq::<(Seq<char>, JsonView)>::empty());
    while i < answers.len()
        invariant
            i <= answers@.len(),
            av == answer_views(answers@),
            choose_document(av.take(i as int)) == Ok::<Option<JsonView>, AnswerErrorView>(
                crate::json::opt_view(chosen),
            ),
        decreases answers@.len() - i,
    {
        proof {
            let t = av.take(i + 1);
            assert(t.drop_last() =~= av.take(i as int));
            assert(t.last() == av[i as int]);
        }
        if !crate::erasure::str_eq(answers[i].path.as_str(), "$") || chosen.is_some() {
            proof {
                lemma_choose_error_sticks(av, i + 1, av.len() as int);
                assert(av.take(av.len() as int) =~= av);
            }
            if !crate::erasure::str_eq(answers[i].path.as_str(), "$") {
                return Err(AnswerError::NotRequested { path: answers[i].path.clone() });
            }
            return Err(AnswerError::Duplicate { path: answers[i].path.clone() });
        }
        chosen = Some(answers[i].value.duplicate());
        i = i + 1;
    }
    assert(av.take(answers@.len() as int) =~= av);
    Ok(chosen)
}

fn apply_all(value: Value, questions: &Vec<Question>, answers: &Vec<Answer>) -> (r: Result<
    Value,
    AnswerError,
>)
    ensures
        match apply_answers(
            value@,
            question_paths(question_views(questions@)),
            answer_views(answers@),
        ) {
            Ok(w) => r matches Ok(x) && x@ == w,
            Err(e) => r matches Err(x) && x@ == e,
        },
{
    let ghost av = answer_views(answers@);
    let ghost requested = question_paths(question_views(questions@));
    let ghost v0 = value@;
    let mut current = value;
    let mut i: usize = 0;
    assert(av.take(0) =~= Seq::<(Seq<char>, JsonView)>::empty());
    while i < answers.len()
        invariant
            i <= answers@.len(),
            av == answer_views(answers@),
            requested == question_paths(question_views(questions@)),
            v0 == value@,
            apply_answers(v0, requested, av.take(i as int)) == Ok::<JsonView, AnswerErrorView>(
                current@,
            ),
        decreases answers@.len() - i,
    {
        proof {
            let t = av.take(i + 1);
            assert(t.drop_last() =~= av.take(i as int));
            assert(t.last() == av[i as int]);
            assert(answer_paths(av.take(i as int)) =~= answer_paths(
                answer_views(answers@).take(i as int),
            ));
            assert(av.take(av.len() as int) =~= av);
        }
        let a = &answers[i];
        if !requested_contains(questions, &a.path) {
            proof {
                lemma_apply_error_sticks(v0, requested, av, i + 1, av.len() as int);
            }
            return Err(AnswerError::NotRequested { path: a.path.clone() });
        }
        if answered_before(answers, i, &a.path) {
            proof {
                lemma_apply_error_sticks(v0, requested, av, i + 1, av.len() as int);
            }
            return Err(AnswerError::Duplicate { path: a.path.clone() });
        }
        current = match set_json_path(&current, a.path.as_str(), a.value.duplicate()) {
            Ok(v) => v,
            Err(e) => {
                proof {
                    lemma_apply_error_sticks(v0, requested, av, i + 1, av.len() as int);
                }
                return Err(e);
            },
        };
        i = i + 1;
    }
    assert(av.take(answers@.len() as int) =~= av);
    Ok(current)
}

/// Digests `raw`, applying `answers` only to the ambiguities digestion
/// actually raised, then validates again. Missing answers remain questions;
/// unrelated paths cannot be overwritten this way.
pub fn digest_with_answers(raw: &str, schema: &Schema, answers: Vec<Answer>) -> (r: Result<
    Digestion,
    AnswerError,
>)
    ensures
        match answered_spec(raw@, *schema, answer_views(answers@)) {
            Ok((o, reps)) => r matches Ok(d) && d.outcome@ == o && repair_views(d.repairs@) == reps
                && d.answers == answers,
            Err(e) => r matches Err(x) && x@ == e,
        },
{
    let chars = crate::text::chars_of(raw);
    let mut repairs: Vec<Repair> = Vec::new();
    let parsed = match parse_leniently(chars.as_slice(), &mut repairs) {
        Err(e) => {
            return Err(AnswerError::Parse(e));
        },
        Ok(l) => l,
    };
    assert(repairs@ =~= lenient(raw@).1);
    match parsed {
        Lenient::Many(documents) => match choose_answer(&answers) {
            Err(e) => Err(e),
            Ok(Some(v)) => Ok(check_value(&v, schema, repairs, answers)),
            Ok(None) => {
                let q = multi_document_question(&documents);
                let mut questions: Vec<Question> = Vec::new();
                questions.push(q);
                assert(question_views(questions@) =~= seq![
                    many_documents_question(crate::lenient::char_views(documents@)),
                ]);
                Ok(Digestion { outcome: Outcome::Clarify(questions), repairs, answers })
            },
        },
        Lenient::One(value) => {
            let mut scratch: Vec<Repair> = Vec::new();
            let mut questions: Vec<Question> = Vec::new();
            let root = String::from_str("$");
            let _ = check(&value, schema, &root, &mut scratch, &mut questions);
            assert(question_views(questions@) =~= check_spec(value@, *schema, "$"@).2);
            match apply_all(value, &questions, &answers) {
                Err(e) => Err(e),
                Ok(current) => Ok(check_value(&current, schema, repairs, answers)),
            }
        },
    }
}

/// Answers apply only where digestion asked: when answering succeeds, every
/// answer is at a requested path and no path is answered twice.
pub proof fn law_answers_only_at_requested_paths(
    v: JsonView,
    requested: Seq<Seq<char>>,
    answers: Seq<(Seq<char>, JsonView)>,
)
    requires
        apply_answers(v, requested, answers) is Ok,
    ensures
        forall|i: int| 0 <= i < answers.len() ==> requested.contains(#[trigger] answers[i].0),
        forall|i: int, j: int|
            0 <= i < j < answers.len() ==> #[trigger] answers[i].0 != #[trigger] answers[j].0,
    decreases answers.len(),
{
    if answers.len() > 0 {
        let pre = answers.drop_last();
        law_answers_only_at_requested_paths(v, requested, pre);
        let last = answers.last();
        assert forall|i: int| 0 <= i < answers.len() implies requested.contains(
            #[trigger] answers[i].0,
        ) by {
            if i < answers.len() - 1 {
                assert(answers[i] == pre[i]);
            }
        }
        assert forall|i: int, j: int|
            0 <= i < j < answers.len() implies #[trigger] answers[i].0 != #[trigger] answers[j].0 by {
            assert(answers[i] == pre[i]);
            if j == answers.len() - 1 {
                assert(answer_paths(pre)[i] == pre[i].0);
            } else {
                assert(answers[j] == pre[j]);
            }
        }
    }
}

/// Answering with no answers is digesting: the outcome and the repairs are
/// those that digestion alone gives.
pub proof fn law_no_answers_is_plain_digestion(raw: Seq<char>, schema: Schema)
    ensures
        crate::digest::digest_spec(raw, schema) matches Ok(d) ==> answered_spec(
            raw,
            schema,
            Seq::empty(),
        ) == Ok::<(OutcomeView, Seq<RepairView>), AnswerErrorView>(d),
        crate::digest::digest_spec(raw, schema) matches Err((at, msg)) ==> answered_spec(
            raw,
            schema,
            Seq::empty(),
        ) == Err::<(OutcomeView, Seq<RepairView>), AnswerErrorView>(AnswerErrorView::Parse(at, msg)),
{
}

/// The paths a digestion asked about: none when it resolved.
pub open spec fn asked_paths(o: OutcomeView) -> Seq<Seq<char>> {
    match o {
        OutcomeView::Clarify(qs) => question_paths(qs),
        OutcomeView::Resolved(_) => Seq::empty(),
    }
}

proof fn lemma_choose_document(answers: Seq<(Seq<char>, JsonView)>)
    ensures
        choose_document(answers) is Ok ==> answers.len() <= 1 && (forall|i: int|
            0 <= i < answers.len() ==> #[trigger] answers[i].0 == "$"@) && (choose_document(
            answers,
        )->Ok_0 is None <==> answers.len() == 0),
    decreases answers.len(),
{
    if answers.len() > 0 {
        lemma_choose_document(answers.drop_last());
        if choose_document(answers) is Ok {
            assert(answers.drop_last().len() == 0);
            assert(answers[0] == answers.last());
        }
    }
}

/// Answers answer what digestion asked: when answering succeeds, every
/// answer is at a path the plain digestion asked about, in the order
/// given, and no path is answered twice; so an answer anywhere else is
/// refused.
pub proof fn law_answers_answer_what_digestion_asked(
    raw: Seq<char>,
    schema: Schema,
    answers: Seq<(Seq<char>, JsonView)>,
)
    requires
        crate::digest::digest_spec(raw, schema) is Ok,
    ensures
        answered_spec(raw, schema, answers) is Ok ==> (forall|i: int|
            0 <= i < answers.len() ==> asked_paths(
                crate::digest::digest_spec(raw, schema)->Ok_0.0,
            ).contains(#[trigger] answers[i].0)) && (forall|i: int, j: int|
            0 <= i < j < answers.len() ==> #[trigger] answers[i].0 != #[trigger] answers[j].0),
        (exists|i: int|
            0 <= i < answers.len() && !asked_paths(
                crate::digest::digest_spec(raw, schema)->Ok_0.0,
            ).contains(#[trigger] answers[i].0)) ==> answered_spec(raw, schema, answers) is Err,
{
    let (res, tags) = lenient(raw);
    let asked = asked_paths(crate::digest::digest_spec(raw, schema)->Ok_0.0);
    match res {
        Ok(LenientView::Many(docs)) => {
            lemma_choose_document(answers);
            let qs = seq![crate::digest::many_documents_question(docs)];
            assert(asked == question_paths(qs));
            assert(asked[0] == "$"@);
            if choose_document(answers) is Ok {
                assert forall|i: int| 0 <= i < answers.len() implies asked.contains(
                    #[trigger] answers[i].0,
                ) by {
                    assert(asked[0] == answers[i].0);
                }
            }
        },
        Ok(LenientView::One(v)) => {
            let c = check_spec(v, schema, "$"@);
            let requested = question_paths(c.2);
            if c.2.len() == 0 {
                assert(requested =~= Seq::<Seq<char>>::empty());
            }
            assert(asked == requested);
            if apply_answers(v, requested, answers) is Ok {
                law_answers_only_at_requested_paths(v, requested, answers);
            }
        },
        Err(_) => {},
    }
}

proof fn lemma_insert_keeps_well_keyed(m: Seq<(Seq<char>, JsonView)>, key: Seq<char>, c: JsonView)
    requires
        crate::textmap::keys_increasing(m),
        crate::json::members_well_keyed(m),
        crate::json::well_keyed(c),
    ensures
        crate::json::well_keyed(JsonView::Obj(sorted_insert(m, key, c))),
{
    let r = sorted_insert(m, key, c);
    crate::textmap::lemma_sorted_insert(m, key, c);
    crate::json::lemma_members_well_keyed(m);
    assert forall|i: int| 0 <= i < r.len() implies #[trigger] crate::json::well_keyed(r[i].1) by {
        crate::textmap::lemma_lookup_index(r, r[i].0, i);
        if r[i].0 != key {
            assert(lookup(m, r[i].0) == Some(r[i].1));
            crate::textmap::lemma_lookup_member(m, r[i].0);
            let j = choose|j: int| 0 <= j < m.len() && #[trigger] m[j].1 == r[i].1;
            assert(crate::json::well_keyed(m[j].1));
        }
    }
    crate::json::lemma_members_well_keyed_from(r);
}

proof fn lemma_update_keeps_well_keyed(a: Seq<JsonView>, i: int, c: JsonView)
    requires
        0 <= i < a.len(),
        crate::json::items_well_keyed(a),
        crate::json::well_keyed(c),
    ensures
        crate::json::well_keyed(JsonView::Arr(a.update(i, c))),
{
    crate::json::lemma_items_well_keyed(a);
    let r = a.update(i, c);
    assert forall|k: int| 0 <= k < r.len() implies #[trigger] crate::json::well_keyed(r[k]) by {
        if k != i {
            assert(r[k] == a[k]);
        }
    }
    crate::json::lemma_items_well_keyed_from(r);
}

/// Replacing a value inside a well-keyed value by a well-keyed one keeps
/// every object's keys in order.
proof fn lemma_set_from_well_keyed(v: JsonView, segs: Seq<SegmentView>, k: int, rep: JsonView)
    requires
        crate::json::well_keyed(v),
        crate::json::well_keyed(rep),
    ensures
        set_from(v, segs, k, rep) matches Some(x) ==> crate::json::well_keyed(x),
    decreases segs.len() - k,
{
    if 0 <= k < segs.len() {
        match (segs[k], v) {
            (SegmentView::Key(key), JsonView::Obj(m)) => {
                if k == segs.len() - 1 {
                    lemma_insert_keeps_well_keyed(m, key, rep);
                } else if let Some(child) = lookup(m, key) {
                    crate::textmap::lemma_lookup_member(m, key);
                    crate::json::lemma_members_well_keyed(m);
                    let j = choose|j: int| 0 <= j < m.len() && #[trigger] m[j].1 == child;
                    assert(crate::json::well_keyed(m[j].1));
                    lemma_set_from_well_keyed(child, segs, k + 1, rep);
                    if let Some(c) = set_from(child, segs, k + 1, rep) {
                        lemma_insert_keeps_well_keyed(m, key, c);
                    }
                }
            },
            (SegmentView::Index(i), JsonView::Arr(a)) => {
                if i < a.len() {
                    if k == segs.len() - 1 {
                        lemma_update_keeps_well_keyed(a, i as int, rep);
                    } else {
                        crate::json::lemma_items_well_keyed(a);
                        lemma_set_from_well_keyed(a[i as int], segs, k + 1, rep);
                        if let Some(c) = set_from(a[i as int], segs, k + 1, rep) {
                            lemma_update_keeps_well_keyed(a, i as int, c);
                        }
                    }
                }
            },
            _ => {},
        }
    }
}

proof fn lemma_apply_answers_well_keyed(
    v: JsonView,
    requested: Seq<Seq<char>>,
    answers: Seq<(Seq<char>, JsonView)>,
)
    requires
        crate::json::well_keyed(v),
        forall|i: int| 0 <= i < answers.len() ==> #[trigger] crate::json::well_keyed(answers[i].1),
    ensures
        apply_answers(v, requested, answers) matches Ok(w) ==> crate::json::well_keyed(w),
    decreases answers.len(),
{
    if answers.len() > 0 {
        let pre = answers.drop_last();
        assert forall|i: int| 0 <= i < pre.len() implies #[trigger] crate::json::well_keyed(
            pre[i].1,
        ) by {
            assert(pre[i] == answers[i]);
        }
        lemma_apply_answers_well_keyed(v, requested, pre);
        let a = answers.last();
        assert(crate::json::well_keyed(answers[answers.len() - 1].1));
        if let Ok(w) = apply_answers(v, requested, pre) {
            if a.0 != "$"@ {
                if let Some(segs) = path_segments(a.0) {
                    lemma_set_from_well_keyed(w, segs, 0, a.1);
                }
            }
        }
    }
}

proof fn lemma_choose_document_value(answers: Seq<(Seq<char>, JsonView)>)
    ensures
        choose_document(answers) matches Ok(Some(v)) ==> exists|i: int|
            0 <= i < answers.len() && #[trigger] answers[i].1 == v,
    decreases answers.len(),
{
    if answers.len() > 0 {
        lemma_choose_document_value(answers.drop_last());
        if let Ok(Some(v)) = choose_document(answers) {
            if let Ok(None) = choose_document(answers.drop_last()) {
                assert(answers[answers.len() - 1].1 == v);
            } else {
                let i = choose|i: int| 0 <= i < answers.drop_last().len() && #[trigger] answers.drop_last()[i].1 == v;
                assert(answers[i].1 == v);
            }
        }
    }
}

/// Answering keeps the promise too: when every answer's value keeps its
/// object keys in order (as every parsed answer does), a digestion with
/// answers that resolves hands over a value that conforms to the schema.
pub proof fn law_answered_value_conforms(
    raw: Seq<char>,
    schema: Schema,
    answers: Seq<(Seq<char>, JsonView)>,
)
    requires
        forall|i: int| 0 <= i < answers.len() ==> #[trigger] crate::json::well_keyed(answers[i].1),
    ensures
        answered_spec(raw, schema, answers) matches Ok((OutcomeView::Resolved(v), _))
            ==> crate::check::conforms(v, schema),
{
    crate::lenient::lemma_lenient_well_keyed(raw);
    match lenient(raw).0 {
        Ok(LenientView::Many(docs)) => {
            lemma_choose_document_value(answers);
            if let Ok(Some(v)) = choose_document(answers) {
                let i = choose|i: int| 0 <= i < answers.len() && #[trigger] answers[i].1 == v;
                if check_spec(v, schema, "$"@).2.len() == 0 {
                    crate::check::law_unquestioned_check_conforms(v, schema, "$"@);
                }
            }
        },
        Ok(LenientView::One(v)) => {
            let requested = question_paths(check_spec(v, schema, "$"@).2);
            lemma_apply_answers_well_keyed(v, requested, answers);
            if let Ok(w) = apply_answers(v, requested, answers) {
                if check_spec(w, schema, "$"@).2.len() == 0 {
                    crate::check::law_unquestioned_check_conforms(w, schema, "$"@);
                }
            }
        },
        Err(_) => {},
    }
}

// ---------------------------------------------------------------------------
// An answer replaces exactly the value at its path
// ---------------------------------------------------------------------------

/// The value found by following `segs` from segment `k` on, if the path
/// leads somewhere.
pub open spec fn get_from(v: JsonView, segs: Seq<SegmentView>, k: int) -> Option<JsonView>
    decreases segs.len() - k,
{
    if k < 0 || k >= segs.len() {
        Some(v)
    } else {
        match (segs[k], v) {
            (SegmentView::Key(key), JsonView::Obj(m)) => match lookup(m, key) {
                Some(c) => get_from(c, segs, k + 1),
                None => None,
            },
            (SegmentView::Index(i), JsonView::Arr(a)) => if i < a.len() {
                get_from(a[i as int], segs, k + 1)
            } else {
                None
            },
            _ => None,
        }
    }
}

/// `w` is `v` except along `segs` from segment `k` on: at every object on
/// the path the other members are as they were, and at every array on the
/// path the other items are as they were.
pub open spec fn agrees_off_path(v: JsonView, w: JsonView, segs: Seq<SegmentView>, k: int) -> bool
    decreases segs.len() - k,
{
    if k < 0 || k >= segs.len() {
        true
    } else {
        match (segs[k], v, w) {
            (SegmentView::Key(key), JsonView::Obj(m), JsonView::Obj(m2)) => (forall|q: Seq<char>|
                q != key ==> #[trigger] lookup(m2, q) == lookup(m, q)) && (k + 1 < segs.len()
                ==> match (lookup(m, key), lookup(m2, key)) {
                (Some(c), Some(c2)) => agrees_off_path(c, c2, segs, k + 1),
                _ => false,
            }),
            (SegmentView::Index(i), JsonView::Arr(a), JsonView::Arr(a2)) => a2.len() == a.len() && i
                < a.len() && (forall|j: int| 0 <= j < a.len() && j != i ==> #[trigger] a2[j] == a[j])
                && (k + 1 < segs.len() ==> agrees_off_path(a[i as int], a2[i as int], segs, k + 1)),
            _ => false,
        }
    }
}

proof fn lemma_set_from_places(v: JsonView, segs: Seq<SegmentView>, k: int, rep: JsonView)
    requires
        crate::json::well_keyed(v),
        0 <= k,
    ensures
        set_from(v, segs, k, rep) matches Some(w) ==> get_from(w, segs, k) == Some(rep)
            && agrees_off_path(v, w, segs, k),
    decreases segs.len() - k,
{
    if k < segs.len() {
        match (segs[k], v) {
            (SegmentView::Key(key), JsonView::Obj(m)) => {
                crate::json::lemma_members_well_keyed(m);
                if k == segs.len() - 1 {
                    crate::textmap::lemma_sorted_insert(m, key, rep);
                    assert(get_from(rep, segs, k + 1) == Some(rep));
                } else if let Some(child) = lookup(m, key) {
                    crate::textmap::lemma_lookup_member(m, key);
                    let j = choose|j: int| 0 <= j < m.len() && #[trigger] m[j].1 == child;
                    assert(crate::json::well_keyed(m[j].1));
                    lemma_set_from_places(child, segs, k + 1, rep);
                    if let Some(c) = set_from(child, segs, k + 1, rep) {
                        crate::textmap::lemma_sorted_insert(m, key, c);
                    }
                }
            },
            (SegmentView::Index(i), JsonView::Arr(a)) => {
                if i < a.len() && k < segs.len() - 1 {
                    crate::json::lemma_items_well_keyed(a);
                    lemma_set_from_places(a[i as int], segs, k + 1, rep);
                    if let Some(c) = set_from(a[i as int], segs, k + 1, rep) {
                        assert(a.update(i as int, c)[i as int] == c);
                    }
                } else if i < a.len() {
                    assert(get_from(rep, segs, k + 1) == Some(rep));
                    assert(a.update(i as int, rep)[i as int] == rep);
                }
            },
            _ => {},
        }
    }
}

/// An answer changes only the value at its path: after setting `rep` at a
/// path below the root, reading the path gives `rep`, and every member
/// beside the path, at every level along it, is as it was. At `$` the
/// answer is the whole value.
pub proof fn law_answer_replaces_only_its_path(v: JsonView, path: Seq<char>, rep: JsonView)
    requires
        crate::json::well_keyed(v),
    ensures
        path == "$"@ ==> set_path_spec(v, path, rep) == Some(rep),
        path != "$"@ ==> (set_path_spec(v, path, rep) matches Some(w) ==> path_segments(path) matches Some(
            segs,
        ) && get_from(w, segs, 0) == Some(rep) && agrees_off_path(v, w, segs, 0)),
{
    if path != "$"@ {
        if let Some(segs) = path_segments(path) {
            lemma_set_from_places(v, segs, 0, rep);
        }
    }
}

} // verus!
