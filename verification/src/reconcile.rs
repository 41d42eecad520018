//! Reconciliation: several samples of the same request, digested apart and
//! committed once. Agreement is committed; disagreement becomes a question
//! with the disagreeing readings as candidates.

use vstd::prelude::*;

use crate::digest::{
    digest, digest_spec, question_views, Digestion, Outcome, OutcomeView, Question,
    QuestionView, RepairView,
};
use crate::json::{json_text, member_views, JsonView, ParseError, Value};
use crate::schema::Schema;
use crate::text::texts;
use crate::textmap::{
    has_key, keys_increasing, lemma_lookup_absent, lemma_sorted_insert, lookup, sorted_insert,
    TextMap,
};

verus! {

broadcast use crate::json::group_json_view;

// ---------------------------------------------------------------------------
// Merging questions
// ---------------------------------------------------------------------------

/// `c` extended with each incoming candidate it does not hold yet, in order.
pub open spec fn add_missing(c: Seq<Seq<char>>, incoming: Seq<Seq<char>>) -> Seq<Seq<char>>
    decreases incoming.len(),
{
    if incoming.len() == 0 {
        c
    } else {
        let d = add_missing(c, incoming.drop_last());
        if d.contains(incoming.last()) {
            d
        } else {
            d.push(incoming.last())
        }
    }
}

/// The first question at or after `i` asked at `p`.
pub open spec fn path_index(qs: Seq<QuestionView>, p: Seq<char>, i: int) -> Option<int>
    decreases qs.len() - i,
{
    if i < 0 || i >= qs.len() {
        None
    } else if qs[i].path == p {
        Some(i)
    } else {
        path_index(qs, p, i + 1)
    }
}

/// One incoming question merged: a question at the same path gains the new
/// candidates; otherwise the question is added.
pub open spec fn merge_q(qs: Seq<QuestionView>, q: QuestionView) -> Seq<QuestionView> {
    match path_index(qs, q.path, 0) {
        Some(i) => qs.update(
            i,
            QuestionView {
                path: qs[i].path,
                prompt: qs[i].prompt,
                candidates: add_missing(qs[i].candidates, q.candidates),
            },
        ),
        None => qs.push(q),
    }
}

pub open spec fn merge_all(qs: Seq<QuestionView>, incoming: Seq<QuestionView>) -> Seq<QuestionView>
    decreases incoming.len(),
{
    if incoming.len() == 0 {
        qs
    } else {
        merge_q(merge_all(qs, incoming.drop_last()), incoming.last())
    }
}

proof fn lemma_path_index(qs: Seq<QuestionView>, p: Seq<char>, i: int)
    requires
        0 <= i,
    ensures
        path_index(qs, p, i) matches Some(k) ==> i <= k < qs.len() && qs[k].path == p,
    decreases qs.len() - i,
{
    if i < qs.len() && qs[i].path != p {
        lemma_path_index(qs, p, i + 1);
    }
}

fn contains_text(v: &Vec<String>, s: &String) -> (r: bool)
    ensures
        r == texts(v@).contains(s@),
{
    let mut i: usize = 0;
    while i < v.len()
        invariant
            i <= v@.len(),
            forall|k: int| 0 <= k < i ==> texts(v@)[k] != s@,
        decreases v@.len() - i,
    {
        if crate::erasure::str_eq(v[i].as_str(), s.as_str()) {
            assert(texts(v@)[i as int] == s@);
            return true;
        }
        i = i + 1;
    }
    false
}

/// Merges `incoming` into `questions`: a question at the same path gains
/// the candidates it lacks, in order; otherwise the question is added.
pub fn merge_question(questions: &mut Vec<Question>, incoming: &Question)
    ensures
        question_views(final(questions)@) == merge_q(question_views(old(questions)@), incoming@),
{
    let ghost qs = question_views(questions@);
    proof {
        lemma_path_index(qs, incoming@.path, 0);
    }
    let mut i: usize = 0;
    while i < questions.len()
        invariant
            i <= questions@.len(),
            qs == question_views(questions@),
            qs == question_views(old(questions)@),
            path_index(qs, incoming@.path, 0) == path_index(qs, incoming@.path, i as int),
        decreases questions@.len() - i,
    {
        if crate::erasure::str_eq(questions[i].path.as_str(), incoming.path.as_str()) {
            let mut existing = questions[i].duplicate();
            let ghost start = texts(existing.candidates@);
            assert(start == qs[i as int].candidates);
            assert(path_index(qs, incoming@.path, 0) == Some(i as int));
            let mut k: usize = 0;
            assert(texts(incoming.candidates@).take(0) =~= Seq::<Seq<char>>::empty());
            while k < incoming.candidates.len()
                invariant
                    k <= incoming.candidates@.len(),
                    i < questions@.len(),
                    qs == question_views(questions@),
                    qs == question_views(old(questions)@),
                    path_index(qs, incoming@.path, 0) == Some(i as int),
                    start == qs[i as int].candidates,
                    texts(existing.candidates@) == add_missing(
                        start,
                        texts(incoming.candidates@).take(k as int),
                    ),
                    existing.path@ == qs[i as int].path,
                    existing.prompt@ == qs[i as int].prompt,
                decreases incoming.candidates@.len() - k,
            {
                let ghost inc = texts(incoming.candidates@).take(k + 1);
                assert(inc.drop_last() =~= texts(incoming.candidates@).take(k as int));
                assert(inc.last() == incoming.candidates@[k as int]@);
                if !contains_text(&existing.candidates, &incoming.candidates[k]) {
                    let ghost before = existing.candidates@;
                    existing.candidates.push(incoming.candidates[k].clone());
                    assert(texts(existing.candidates@) =~= texts(before).push(
                        incoming.candidates@[k as int]@,
                    ));
                }
                k = k + 1;
            }
            assert(texts(incoming.candidates@).take(incoming.candidates@.len() as int) =~= texts(
                incoming.candidates@,
            ));
            let ghost updated = existing@;
            questions.set(i, existing);
            assert(question_views(questions@) =~= qs.update(i as int, updated));
            return ;
        }
        i = i + 1;
    }
    questions.push(incoming.duplicate());
    assert(question_views(questions@) =~= qs.push(incoming@));
}

// ---------------------------------------------------------------------------
// Whole-value majority
// ---------------------------------------------------------------------------

/// How many of `vs` equal `v`.
pub open spec fn count_in(vs: Seq<JsonView>, v: JsonView) -> nat
    decreases vs.len(),
{
    if vs.len() == 0 {
        0
    } else {
        count_in(vs.drop_last(), v) + if vs.last() == v {
            1nat
        } else {
            0nat
        }
    }
}

/// The first value with the highest count, scanning from `i` with the best
/// so far.
pub open spec fn best_from(vs: Seq<JsonView>, i: int, best: Option<(JsonView, nat)>) -> Option<
    (JsonView, nat),
>
    decreases vs.len() - i,
{
    if i < 0 || i >= vs.len() {
        best
    } else {
        let c = count_in(vs, vs[i]);
        let nb = match best {
            None => Some((vs[i], c)),
            Some((_, bc)) => if c > bc {
                Some((vs[i], c))
            } else {
                best
            },
        };
        best_from(vs, i + 1, nb)
    }
}

/// The question raised when samples disagree with no majority.
pub open spec fn no_majority(vs: Seq<JsonView>) -> OutcomeView {
    OutcomeView::Clarify(
        seq![
            QuestionView {
                path: "$"@,
                prompt: "samples disagree with no majority"@,
                candidates: vs.map_values(|v: JsonView| json_text(v)),
            },
        ],
    )
}

/// The value more than half the samples agree on, or the question.
pub open spec fn majority_outcome(vs: Seq<JsonView>) -> OutcomeView {
    match best_from(vs, 0, None) {
        Some((v, c)) => if c * 2 > vs.len() {
            OutcomeView::Resolved(v)
        } else {
            no_majority(vs)
        },
        None => no_majority(vs),
    }
}

pub open spec fn value_views(v: Seq<Value>) -> Seq<JsonView> {
    v.map_values(|x: Value| x@)
}

fn count_same(vs: &Vec<Value>, v: &Value) -> (r: usize)
    ensures
        r == count_in(value_views(vs@), v@),
{
    let ghost w = value_views(vs@);
    let mut c: usize = 0;
    let mut i: usize = 0;
    assert(w.take(0) =~= Seq::<JsonView>::empty());
    while i < vs.len()
        invariant
            i <= vs@.len(),
            w == value_views(vs@),
            c == count_in(w.take(i as int), v@),
            c <= i,
        decreases vs@.len() - i,
    {
        let ghost t = w.take(i + 1);
        assert(t.drop_last() =~= w.take(i as int));
        if vs[i].same(v) {
            c = c + 1;
        }
        i = i + 1;
    }
    assert(w.take(vs@.len() as int) =~= w);
    c
}

fn no_majority_exec(vs: &Vec<Value>) -> (r: Outcome)
    ensures
        r@ == no_majority(value_views(vs@)),
{
    let mut candidates: Vec<String> = Vec::new();
    let mut i: usize = 0;
    while i < vs.len()
        invariant
            i <= vs@.len(),
            texts(candidates@) == value_views(vs@).map_values(|v: JsonView| json_text(v)).take(
                i as int,
            ),
        decreases vs@.len() - i,
    {
        let ghost before = candidates@;
        let t = vs[i].to_string();
        assert(t@ == json_text(vs@[i as int]@));
        candidates.push(t);
        assert(texts(candidates@) =~= texts(before).push(json_text(vs@[i as int]@)));
        assert(value_views(vs@).map_values(|v: JsonView| json_text(v)).take(i + 1) =~= value_views(
            vs@,
        ).map_values(|v: JsonView| json_text(v)).take(i as int).push(json_text(vs@[i as int]@)));
        i = i + 1;
    }
    assert(value_views(vs@).map_values(|v: JsonView| json_text(v)).take(vs@.len() as int)
        =~= value_views(vs@).map_values(|v: JsonView| json_text(v)));
    let mut qs: Vec<Question> = Vec::new();
    qs.push(
        Question {
            path: String::from_str("$"),
            prompt: String::from_str("samples disagree with no majority"),
            candidates,
        },
    );
    let r = Outcome::Clarify(qs);
    assert(question_views(qs@) =~= seq![
        QuestionView {
            path: "$"@,
            prompt: "samples disagree with no majority"@,
            candidates: value_views(vs@).map_values(|v: JsonView| json_text(v)),
        },
    ]);
    r
}

/// Whole-value majority over the resolved samples.
pub fn majority(resolved: &Vec<Value>) -> (r: Outcome)
    ensures
        r@ == majority_outcome(value_views(resolved@)),
{
    let ghost w = value_views(resolved@);
    let mut best: Option<(usize, usize)> = None;
    let mut i: usize = 0;
    while i < resolved.len()
        invariant
            i <= resolved@.len(),
            w == value_views(resolved@),
            best_from(w, 0, None) == best_from(
                w,
                i as int,
                match best {
                    Some((k, c)) => Some((w[k as int], c as nat)),
                    None => None,
                },
            ),
            best matches Some((k, c)) ==> k < resolved@.len() && c <= resolved@.len(),
        decreases resolved@.len() - i,
    {
        let c = count_same(resolved, &resolved[i]);
        proof {
            assert(c <= resolved@.len()) by {
                lemma_count_bound(w, w[i as int]);
            }
        }
        match best {
            None => {
                best = Some((i, c));
            },
            Some((_, bc)) => {
                if c > bc {
                    best = Some((i, c));
                }
            },
        }
        i = i + 1;
    }
    match best {
        Some((k, c)) => {
            if c > resolved.len() / 2 {
                Outcome::Resolved(resolved[k].duplicate())
            } else {
                no_majority_exec(resolved)
            }
        },
        None => no_majority_exec(resolved),
    }
}

proof fn lemma_count_bound(vs: Seq<JsonView>, v: JsonView)
    ensures
        count_in(vs, v) <= vs.len(),
    decreases vs.len(),
{
    if vs.len() > 0 {
        lemma_count_bound(vs.drop_last(), v);
    }
}

// ---------------------------------------------------------------------------
// Field-wise majority
// ---------------------------------------------------------------------------

pub type Members = Seq<(Seq<char>, JsonView)>;

/// `ks` with the keys of `entries` added.
pub open spec fn insert_keys(ks: Seq<(Seq<char>, ())>, entries: Members) -> Seq<(Seq<char>, ())>
    decreases entries.len(),
{
    if entries.len() == 0 {
        ks
    } else {
        sorted_insert(insert_keys(ks, entries.drop_last()), entries.last().0, ())
    }
}

/// Every key of every object, once each, in key order.
pub open spec fn key_set(objs: Seq<Members>) -> Seq<(Seq<char>, ())>
    decreases objs.len(),
{
    if objs.len() == 0 {
        Seq::empty()
    } else {
        insert_keys(key_set(objs.drop_last()), objs.last())
    }
}

/// The first position at or after `i` whose value is `v`.
pub open spec fn tally_index(counts: Seq<(JsonView, nat)>, v: JsonView, i: int) -> Option<int>
    decreases counts.len() - i,
{
    if i < 0 || i >= counts.len() {
        None
    } else if counts[i].0 == v {
        Some(i)
    } else {
        tally_index(counts, v, i + 1)
    }
}

/// One more reading of `v`.
pub open spec fn bump(counts: Seq<(JsonView, nat)>, v: JsonView) -> Seq<(JsonView, nat)> {
    match tally_index(counts, v, 0) {
        Some(k) => counts.update(k, (v, counts[k].1 + 1)),
        None => counts.push((v, 1)),
    }
}

/// The distinct readings of `key` across the objects that hold it, with
/// their counts, in order of first appearance.
pub open spec fn tally(objs: Seq<Members>, key: Seq<char>) -> Seq<(JsonView, nat)>
    decreases objs.len(),
{
    if objs.len() == 0 {
        Seq::empty()
    } else {
        let prev = tally(objs.drop_last(), key);
        match lookup(objs.last(), key) {
            Some(v) => bump(prev, v),
            None => prev,
        }
    }
}

/// `x` placed after every reading counted at least as often.
pub open spec fn ins_desc(sorted: Seq<(JsonView, nat)>, x: (JsonView, nat)) -> Seq<(JsonView, nat)>
    decreases sorted.len(),
{
    if sorted.len() == 0 {
        seq![x]
    } else if sorted[0].1 >= x.1 {
        seq![sorted[0]] + ins_desc(sorted.drop_first(), x)
    } else {
        seq![x] + sorted
    }
}

/// Readings ordered by count, most frequent first, ties in order of first
/// appearance.
pub open spec fn sort_desc(s: Seq<(JsonView, nat)>) -> Seq<(JsonView, nat)>
    decreases s.len(),
{
    if s.len() == 0 {
        Seq::empty()
    } else {
        ins_desc(sort_desc(s.drop_last()), s.last())
    }
}

/// Keys `ks` decided in order: a reading held by more than half of the `n`
/// samples is committed, otherwise the field is asked about with every
/// reading as a candidate.
pub open spec fn decide_keys(objs: Seq<Members>, n: nat, ks: Seq<Seq<char>>) -> (
    Members,
    Seq<QuestionView>,
)
    decreases ks.len(),
{
    if ks.len() == 0 {
        (Seq::empty(), Seq::empty())
    } else {
        let (out, qs) = decide_keys(objs, n, ks.drop_last());
        let key = ks.last();
        let sorted = sort_desc(tally(objs, key));
        if sorted.len() > 0 && sorted[0].1 * 2 > n {
            (sorted_insert(out, key, sorted[0].0), qs)
        } else {
            (
                out,
                qs.push(
                    QuestionView {
                        path: "$."@ + key,
                        prompt: "samples disagree on this field"@,
                        candidates: sorted.map_values(|p: (JsonView, nat)| json_text(p.0)),
                    },
                ),
            )
        }
    }
}

/// Field-wise majority over resolved objects.
pub open spec fn objects_outcome(objs: Seq<Members>) -> OutcomeView {
    let ks = key_set(objs).map_values(|p: (Seq<char>, ())| p.0);
    let (out, qs) = decide_keys(objs, objs.len(), ks);
    if qs.len() == 0 {
        OutcomeView::Resolved(JsonView::Obj(out))
    } else {
        OutcomeView::Clarify(qs)
    }
}

proof fn lemma_ins_desc_at(sorted: Seq<(JsonView, nat)>, x: (JsonView, nat), p: int)
    requires
        0 <= p <= sorted.len(),
        forall|k: int| 0 <= k < p ==> sorted[k].1 >= x.1,
        p < sorted.len() ==> sorted[p].1 < x.1,
    ensures
        ins_desc(sorted, x) == sorted.insert(p, x),
    decreases sorted.len(),
{
    if sorted.len() == 0 {
        assert(sorted.insert(p, x) =~= seq![x]);
    } else if p == 0 {
        assert(sorted.insert(0, x) =~= seq![x] + sorted);
    } else {
        let t = sorted.drop_first();
        assert forall|k: int| 0 <= k < p - 1 implies t[k].1 >= x.1 by {
            assert(t[k] == sorted[k + 1]);
        }
        lemma_ins_desc_at(t, x, p - 1);
        assert(seq![sorted[0]] + t.insert(p - 1, x) =~= sorted.insert(p, x));
    }
}

proof fn lemma_tally_index(counts: Seq<(JsonView, nat)>, v: JsonView, i: int)
    requires
        0 <= i,
    ensures
        tally_index(counts, v, i) matches Some(k) ==> i <= k < counts.len() && counts[k].0 == v,
    decreases counts.len() - i,
{
    if i < counts.len() && counts[i].0 != v {
        lemma_tally_index(counts, v, i + 1);
    }
}

pub open spec fn count_views(c: Seq<(Value, usize)>) -> Seq<(JsonView, nat)> {
    c.map_values(|p: (Value, usize)| (p.0@, p.1 as nat))
}

fn bump_exec(counts: &mut Vec<(Value, usize)>, v: &Value, bound: usize)
    requires
        bound < usize::MAX,
        forall|k: int| 0 <= k < old(counts)@.len() ==> #[trigger] old(counts)@[k].1 <= bound,
    ensures
        count_views(final(counts)@) == bump(count_views(old(counts)@), v@),
        forall|k: int| 0 <= k < final(counts)@.len() ==> #[trigger] final(counts)@[k].1 <= bound + 1,
{
    let ghost cv = count_views(counts@);
    proof {
        lemma_tally_index(cv, v@, 0);
    }
    let mut i: usize = 0;
    while i < counts.len()
        invariant
            i <= counts@.len(),
            counts@ == old(counts)@,
            bound < usize::MAX,
            forall|k: int| 0 <= k < counts@.len() ==> #[trigger] counts@[k].1 <= bound,
            cv == count_views(counts@),
            tally_index(cv, v@, 0) == tally_index(cv, v@, i as int),
        decreases counts@.len() - i,
    {
        if counts[i].0.same(v) {
            let c = counts[i].1;
            let d = v.duplicate();
            counts.set(i, (d, c + 1));
            assert(count_views(counts@) =~= cv.update(i as int, (v@, cv[i as int].1 + 1)));
            return ;
        }
        i = i + 1;
    }
    counts.push((v.duplicate(), 1));
    assert(count_views(counts@) =~= cv.push((v@, 1)));
}

/// The members of an object value.
pub open spec fn members_of(v: JsonView) -> Members {
    match v {
        JsonView::Obj(m) => m,
        _ => Seq::empty(),
    }
}

pub open spec fn all_members(vs: Seq<JsonView>) -> Seq<Members> {
    vs.map_values(|v: JsonView| members_of(v))
}

fn tally_exec(objs: &Vec<Value>, key: &String) -> (r: Vec<(Value, usize)>)
    ensures
        count_views(r@) == tally(all_members(value_views(objs@)), key@),
        forall|k: int| 0 <= k < r@.len() ==> #[trigger] r@[k].1 <= objs@.len(),
{
    let ghost ms = all_members(value_views(objs@));
    let mut counts: Vec<(Value, usize)> = Vec::new();
    let mut i: usize = 0;
    assert(count_views(counts@) =~= Seq::<(JsonView, nat)>::empty());
    assert(ms.take(0) =~= Seq::<Members>::empty());
    while i < objs.len()
        invariant
            i <= objs@.len(),
            ms == all_members(value_views(objs@)),
            count_views(counts@) == tally(ms.take(i as int), key@),
            forall|k: int| 0 <= k < counts@.len() ==> #[trigger] counts@[k].1 <= i,
        decreases objs@.len() - i,
    {
        proof {
            let t = ms.take(i + 1);
            assert(t.drop_last() =~= ms.take(i as int));
            assert(t.last() == members_of(objs@[i as int]@));
        }
        match &objs[i] {
            Value::Obj(m) => {
                proof {
                    crate::json::lemma_member_views_lookup(m.entries(), key@);
                }
                match m.get(key.as_str()) {
                    Some(v) => {
                        bump_exec(&mut counts, v, i);
                    },
                    None => {},
                }
            },
            _ => {},
        }
        i = i + 1;
    }
    assert(ms.take(objs@.len() as int) =~= ms);
    counts
}

fn sort_counts(c: &Vec<(Value, usize)>) -> (r: Vec<(Value, usize)>)
    ensures
        count_views(r@) == sort_desc(count_views(c@)),
        forall|k: int| 0 <= k < r@.len() ==> exists|j: int| 0 <= j < c@.len() && #[trigger] r@[k].1 == c@[j].1,
{
    let ghost cv = count_views(c@);
    let mut sorted: Vec<(Value, usize)> = Vec::new();
    let mut k: usize = 0;
    assert(cv.take(0) =~= Seq::<(JsonView, nat)>::empty());
    assert(count_views(sorted@) =~= Seq::<(JsonView, nat)>::empty());
    while k < c.len()
        invariant
            k <= c@.len(),
            cv == count_views(c@),
            count_views(sorted@) == sort_desc(cv.take(k as int)),
            forall|a: int| 0 <= a < sorted@.len() ==> exists|j: int| 0 <= j < c@.len() && #[trigger] sorted@[a].1 == c@[j].1,
        decreases c@.len() - k,
    {
        let x = c[k].1;
        let mut p: usize = 0;
        while p < sorted.len() && sorted[p].1 >= x
            invariant
                p <= sorted@.len(),
                forall|a: int| 0 <= a < p ==> #[trigger] sorted@[a].1 >= x,
            decreases sorted@.len() - p,
        {
            p = p + 1;
        }
        let ghost sv = count_views(sorted@);
        proof {
            let t = cv.take(k + 1);
            assert(t.drop_last() =~= cv.take(k as int));
            assert(t.last() == cv[k as int]);
            lemma_ins_desc_at(sv, cv[k as int], p as int);
        }
        let d = c[k].0.duplicate();
        let ghost before = sorted@;
        sorted.insert(p, (d, x));
        assert(count_views(sorted@) =~= sv.insert(p as int, cv[k as int]));
        assert forall|a: int| 0 <= a < sorted@.len() implies exists|j: int| 0 <= j < c@.len() && #[trigger] sorted@[a].1 == c@[j].1 by {
            if a < p {
                assert(sorted@[a] == before[a]);
            } else if a == p {
                assert(sorted@[a].1 == c@[k as int].1);
            } else {
                assert(sorted@[a] == before[a - 1]);
            }
        }
        k = k + 1;
    }
    assert(cv.take(c@.len() as int) =~= cv);
    sorted
}

fn key_set_exec(objs: &Vec<Value>) -> (r: TextMap<()>)
    ensures
        r.entries() == key_set(all_members(value_views(objs@))),
{
    let ghost ms = all_members(value_views(objs@));
    let mut ks: TextMap<()> = TextMap::new();
    let mut i: usize = 0;
    assert(ms.take(0) =~= Seq::<Members>::empty());
    while i < objs.len()
        invariant
            i <= objs@.len(),
            ms == all_members(value_views(objs@)),
            ks.entries() == key_set(ms.take(i as int)),
        decreases objs@.len() - i,
    {
        proof {
            let t = ms.take(i + 1);
            assert(t.drop_last() =~= ms.take(i as int));
            assert(t.last() == members_of(objs@[i as int]@));
        }
        let ghost start = ks.entries();
        match &objs[i] {
            Value::Obj(m) => {
                let ghost mv = member_views(m.entries());
                let mut j: usize = 0;
                assert(mv.take(0) =~= Seq::<(Seq<char>, JsonView)>::empty());
                while j < m.len()
                    invariant
                        j <= m.entries().len(),
                        mv == member_views(m.entries()),
                        ks.entries() == insert_keys(start, mv.take(j as int)),
                    decreases m.entries().len() - j,
                {
                    let (k, _) = m.entry(j);
                    proof {
                        let t = mv.take(j + 1);
                        assert(t.drop_last() =~= mv.take(j as int));
                        assert(t.last().0 == k@);
                    }
                    ks.insert(k.clone(), ());
                    j = j + 1;
                }
                assert(mv.take(m.entries().len() as int) =~= mv);
            },
            _ => {
                assert(insert_keys(start, Seq::empty()) == start);
            },
        }
        i = i + 1;
    }
    assert(ms.take(objs@.len() as int) =~= ms);
    ks
}

/// Field-wise majority over resolved objects: each key is committed when
/// more than half of the samples agree on its value, and asked about
/// otherwise.
pub fn reconcile_objects(resolved: &Vec<Value>) -> (r: Outcome)
    ensures
        r@ == objects_outcome(all_members(value_views(resolved@))),
{
    let ghost ms = all_members(value_views(resolved@));
    let ks = key_set_exec(resolved);
    let ghost keys = key_set(ms).map_values(|p: (Seq<char>, ())| p.0);
    let n = resolved.len();
    let mut out: TextMap<Value> = TextMap::new();
    let mut questions: Vec<Question> = Vec::new();
    let mut i: usize = 0;
    assert(keys.take(0) =~= Seq::<Seq<char>>::empty());
    assert(member_views(out.entries()) =~= Seq::<(Seq<char>, JsonView)>::empty());
    assert(question_views(questions@) =~= Seq::<QuestionView>::empty());
    while i < ks.len()
        invariant
            i <= ks.entries().len(),
            n == resolved@.len(),
            ms == all_members(value_views(resolved@)),
            ks.entries() == key_set(ms),
            keys == key_set(ms).map_values(|p: (Seq<char>, ())| p.0),
            ({
                let st = decide_keys(ms, n as nat, keys.take(i as int));
                &&& member_views(out.entries()) == st.0
                &&& question_views(questions@) == st.1
            }),
        decreases ks.entries().len() - i,
    {
        let (k, _) = ks.entry(i);
        proof {
            let t = keys.take(i + 1);
            assert(t.drop_last() =~= keys.take(i as int));
            assert(t.last() == k@);
        }
        let key = k.clone();
        let counts = tally_exec(resolved, &key);
        let sorted = sort_counts(&counts);
        let ghost sv = count_views(sorted@);
        if sorted.len() > 0 && sorted[0].1 > n / 2 {
            let d = sorted[0].0.duplicate();
            let ghost e = out.entries();
            proof {
                crate::json::lemma_member_views_insert(e, key@, d);
            }
            out.insert(key, d);
        } else {
            let mut candidates: Vec<String> = Vec::new();
            let mut j: usize = 0;
            while j < sorted.len()
                invariant
                    j <= sorted@.len(),
                    sv == count_views(sorted@),
                    texts(candidates@) == sv.map_values(|p: (JsonView, nat)| json_text(p.0)).take(
                        j as int,
                    ),
                decreases sorted@.len() - j,
            {
                let ghost before = candidates@;
                let t = sorted[j].0.to_string();
                candidates.push(t);
                assert(texts(candidates@) =~= texts(before).push(json_text(sv[j as int].0)));
                assert(sv.map_values(|p: (JsonView, nat)| json_text(p.0)).take(j + 1) =~= sv.map_values(
                    |p: (JsonView, nat)| json_text(p.0),
                ).take(j as int).push(json_text(sv[j as int].0)));
                j = j + 1;
            }
            assert(sv.map_values(|p: (JsonView, nat)| json_text(p.0)).take(sorted@.len() as int)
                =~= sv.map_values(|p: (JsonView, nat)| json_text(p.0)));
            let mut path = String::from_str("$.");
            path.append(key.as_str());
            let ghost before = question_views(questions@);
            questions.push(
                Question {
                    path,
                    prompt: String::from_str("samples disagree on this field"),
                    candidates,
                },
            );
            assert(question_views(questions@) =~= before.push(
                QuestionView {
                    path: "$."@ + key@,
                    prompt: "samples disagree on this field"@,
                    candidates: sv.map_values(|p: (JsonView, nat)| json_text(p.0)),
                },
            ));
        }
        i = i + 1;
    }
    assert(keys.take(ks.entries().len() as int) =~= keys);
    if questions.len() == 0 {
        Outcome::Resolved(Value::Obj(out))
    } else {
        Outcome::Clarify(questions)
    }
}

// ---------------------------------------------------------------------------
// Reconciling samples
// ---------------------------------------------------------------------------

/// Every question the samples still raise, merged by path in sample order.
pub open spec fn unresolved_of(os: Seq<OutcomeView>) -> Seq<QuestionView>
    decreases os.len(),
{
    if os.len() == 0 {
        Seq::empty()
    } else {
        let acc = unresolved_of(os.drop_last());
        match os.last() {
            OutcomeView::Clarify(qs) => merge_all(acc, qs),
            OutcomeView::Resolved(_) => acc,
        }
    }
}

/// The resolved values, in sample order.
pub open spec fn resolved_of(os: Seq<OutcomeView>) -> Seq<JsonView>
    decreases os.len(),
{
    if os.len() == 0 {
        Seq::empty()
    } else {
        let acc = resolved_of(os.drop_last());
        match os.last() {
            OutcomeView::Resolved(v) => acc.push(v),
            OutcomeView::Clarify(_) => acc,
        }
    }
}

pub open spec fn all_same(vs: Seq<JsonView>) -> bool {
    forall|i: int| 0 <= i < vs.len() ==> #[trigger] vs[i] == vs[0]
}

pub open spec fn all_objects(vs: Seq<JsonView>) -> bool {
    forall|i: int| 0 <= i < vs.len() ==> #[trigger] vs[i] is Obj
}

/// The committed outcome of several digested samples: a sample that still
/// needs clarification keeps its questions; unanimity is committed; objects
/// are reconciled field by field; other values by whole-value majority.
pub open spec fn reconcile_outcomes(os: Seq<OutcomeView>) -> OutcomeView {
    let un = unresolved_of(os);
    if un.len() > 0 {
        OutcomeView::Clarify(un)
    } else {
        let vs = resolved_of(os);
        if vs.len() > 0 && all_same(vs) {
            OutcomeView::Resolved(vs[0])
        } else if all_objects(vs) {
            objects_outcome(all_members(vs))
        } else {
            majority_outcome(vs)
        }
    }
}

/// Each sample digested, or the first parse error.
pub open spec fn digest_all(samples: Seq<Seq<char>>, schema: Schema) -> Result<
    Seq<(OutcomeView, Seq<RepairView>)>,
    (int, Seq<char>),
>
    decreases samples.len(),
{
    if samples.len() == 0 {
        Ok(Seq::empty())
    } else {
        match digest_all(samples.drop_last(), schema) {
            Err(e) => Err(e),
            Ok(ds) => match digest_spec(samples.last(), schema) {
                Err(e) => Err(e),
                Ok(d) => Ok(ds.push(d)),
            },
        }
    }
}

pub open spec fn outcomes_of(ds: Seq<(OutcomeView, Seq<RepairView>)>) -> Seq<OutcomeView> {
    ds.map_values(|d: (OutcomeView, Seq<RepairView>)| d.0)
}

/// What reconciling the samples gives: the committed outcome and each
/// sample's digestion, or the refusal.
pub open spec fn reconcile_spec(samples: Seq<Seq<char>>, schema: Schema) -> Result<
    (OutcomeView, Seq<(OutcomeView, Seq<RepairView>)>),
    (int, Seq<char>),
> {
    if samples.len() == 0 {
        Err((0, "reconciliation requires at least one sample"@))
    } else {
        match digest_all(samples, schema) {
            Err(e) => Err(e),
            Ok(ds) => Ok((reconcile_outcomes(outcomes_of(ds)), ds)),
        }
    }
}

/// Several samples reconciled, with each sample's digestion.
#[derive(Debug)]
pub struct Reconciliation {
    pub outcome: Outcome,
    pub per_sample: Vec<Digestion>,
}

pub open spec fn digestion_views(v: Seq<Digestion>) -> Seq<(OutcomeView, Seq<RepairView>)> {
    v.map_values(|d: Digestion| (d.outcome@, crate::digest::repair_views(d.repairs@)))
}

pub open spec fn sample_views(s: Seq<&str>) -> Seq<Seq<char>> {
    s.map_values(|x: &str| x@)
}

proof fn lemma_digest_all_error(samples: Seq<Seq<char>>, schema: Schema, n: int, j: int)
    requires
        0 <= n <= j <= samples.len(),
        digest_all(samples.take(n), schema) is Err,
    ensures
        digest_all(samples.take(j), schema) == digest_all(samples.take(n), schema),
    decreases j - n,
{
    if j > n {
        lemma_digest_all_error(samples, schema, n, j - 1);
        assert(samples.take(j).drop_last() =~= samples.take(j - 1));
    }
}

fn digest_samples(samples: &[&str], schema: &Schema) -> (r: Result<Vec<Digestion>, ParseError>)
    ensures
        match digest_all(sample_views(samples@), *schema) {
            Ok(ds) => r matches Ok(v) && digestion_views(v@) == ds,
            Err((at, msg)) => r matches Err(e) && e.at == at && e.msg@ == msg,
        },
        r matches Ok(v) ==> forall|k: int| 0 <= k < v@.len() ==> (#[trigger] v@[k]).answers@.len() == 0,
{
    let ghost sv = sample_views(samples@);
    let mut out: Vec<Digestion> = Vec::new();
    let mut i: usize = 0;
    assert(sv.take(0) =~= Seq::<Seq<char>>::empty());
    assert(digestion_views(out@) =~= Seq::<(OutcomeView, Seq<RepairView>)>::empty());
    while i < samples.len()
        invariant
            i <= samples@.len(),
            sv == sample_views(samples@),
            digest_all(sv.take(i as int), *schema) == Ok::<
                Seq<(OutcomeView, Seq<RepairView>)>,
                (int, Seq<char>),
            >(digestion_views(out@)),
            forall|k: int| 0 <= k < out@.len() ==> (#[trigger] out@[k]).answers@.len() == 0,
        decreases samples@.len() - i,
    {
        proof {
            let t = sv.take(i + 1);
            assert(t.drop_last() =~= sv.take(i as int));
            assert(t.last() == samples@[i as int]@);
            assert(sv.take(sv.len() as int) =~= sv);
        }
        match digest(samples[i], schema) {
            Ok(d) => {
                let ghost before = out@;
                out.push(d);
                assert(digestion_views(out@) =~= digestion_views(before).push(
                    (d.outcome@, crate::digest::repair_views(d.repairs@)),
                ));
            },
            Err(e) => {
                proof {
                    lemma_digest_all_error(sv, *schema, i + 1, sv.len() as int);
                }
                return Err(e);
            },
        }
        i = i + 1;
    }
    assert(sv.take(samples@.len() as int) =~= sv);
    Ok(out)
}

/// Digests several samples of the same request and reconciles them.
pub fn reconcile(samples: &[&str], schema: &Schema) -> (r: Result<Reconciliation, ParseError>)
    ensures
        match reconcile_spec(sample_views(samples@), *schema) {
            Ok((o, ds)) => r matches Ok(x) && x.outcome@ == o && digestion_views(x.per_sample@)
                == ds && forall|k: int|
                0 <= k < x.per_sample@.len() ==> (#[trigger] x.per_sample@[k]).answers@.len() == 0,
            Err((at, msg)) => r matches Err(e) && e.at == at && e.msg@ == msg,
        },
{
    if samples.len() == 0 {
        return Err(
            ParseError { at: 0, msg: String::from_str("reconciliation requires at least one sample") },
        );
    }
    let digestions = match digest_samples(samples, schema) {
        Ok(d) => d,
        Err(e) => {
            return Err(e);
        },
    };
    let ghost os = outcomes_of(digestion_views(digestions@));
    let mut unresolved: Vec<Question> = Vec::new();
    let mut resolved: Vec<Value> = Vec::new();
    let mut i: usize = 0;
    assert(os.take(0) =~= Seq::<OutcomeView>::empty());
    assert(question_views(unresolved@) =~= Seq::<QuestionView>::empty());
    assert(value_views(resolved@) =~= Seq::<JsonView>::empty());
    while i < digestions.len()
        invariant
            i <= digestions@.len(),
            os == outcomes_of(digestion_views(digestions@)),
            question_views(unresolved@) == unresolved_of(os.take(i as int)),
            value_views(resolved@) == resolved_of(os.take(i as int)),
        decreases digestions@.len() - i,
    {
        proof {
            let t = os.take(i + 1);
            assert(t.drop_last() =~= os.take(i as int));
            assert(t.last() == digestions@[i as int].outcome@);
        }
        match &digestions[i].outcome {
            Outcome::Clarify(questions) => {
                let ghost start = question_views(unresolved@);
                let ghost qv = question_views(questions@);
                let mut k: usize = 0;
                assert(qv.take(0) =~= Seq::<QuestionView>::empty());
                while k < questions.len()
                    invariant
                        k <= questions@.len(),
                        qv == question_views(questions@),
                        question_views(unresolved@) == merge_all(start, qv.take(k as int)),
                    decreases questions@.len() - k,
                {
                    proof {
                        let t = qv.take(k + 1);
                        assert(t.drop_last() =~= qv.take(k as int));
                        assert(t.last() == questions@[k as int]@);
                    }
                    merge_question(&mut unresolved, &questions[k]);
                    k = k + 1;
                }
                assert(qv.take(questions@.len() as int) =~= qv);
            },
            Outcome::Resolved(v) => {
                let ghost before = resolved@;
                resolved.push(v.duplicate());
                assert(value_views(resolved@) =~= value_views(before).push(v@));
            },
        }
        i = i + 1;
    }
    assert(os.take(digestions@.len() as int) =~= os);
    if unresolved.len() > 0 {
        return Ok(Reconciliation { outcome: Outcome::Clarify(unresolved), per_sample: digestions });
    }
    let ghost vs = value_views(resolved@);
    let mut same = true;
    let mut objects = true;
    let mut j: usize = 0;
    while j < resolved.len()
        invariant
            j <= resolved@.len(),
            vs == value_views(resolved@),
            same == (forall|a: int| 0 <= a < j ==> #[trigger] vs[a] == vs[0]),
            objects == (forall|a: int| 0 <= a < j ==> #[trigger] vs[a] is Obj),
        decreases resolved@.len() - j,
    {
        let eq = resolved[j].same(&resolved[0]);
        let ob = resolved[j].as_obj().is_some();
        proof {
            assert(vs[j as int] == resolved@[j as int]@);
            assert(vs[0] == resolved@[0]@);
            assert(ob == (vs[j as int] is Obj));
        }
        same = same && eq;
        objects = objects && ob;
        j = j + 1;
    }
    let outcome = if same && resolved.len() > 0 {
        Outcome::Resolved(resolved[0].duplicate())
    } else if objects {
        reconcile_objects(&resolved)
    } else {
        majority(&resolved)
    };
    Ok(Reconciliation { outcome, per_sample: digestions })
}

// ---------------------------------------------------------------------------
// What reconciliation keeps
// ---------------------------------------------------------------------------

/// Some question in `qs` is asked at `p` and offers every candidate in
/// `cands`.
pub open spec fn asks(qs: Seq<QuestionView>, p: Seq<char>, cands: Seq<Seq<char>>) -> bool {
    exists|k: int|
        0 <= k < qs.len() && (#[trigger] qs[k]).path == p && forall|x: Seq<char>|
            cands.contains(x) ==> qs[k].candidates.contains(x)
}

proof fn lemma_add_missing(c: Seq<Seq<char>>, incoming: Seq<Seq<char>>)
    ensures
        forall|x: Seq<char>|
            c.contains(x) || incoming.contains(x) ==> #[trigger] add_missing(c, incoming).contains(x),
    decreases incoming.len(),
{
    if incoming.len() > 0 {
        let pre = incoming.drop_last();
        lemma_add_missing(c, pre);
        let d = add_missing(c, pre);
        assert forall|x: Seq<char>|
            c.contains(x) || incoming.contains(x) implies #[trigger] add_missing(c, incoming).contains(x) by {
            if incoming.contains(x) && x != incoming.last() {
                let i = choose|i: int| 0 <= i < incoming.len() && incoming[i] == x;
                assert(pre[i] == x);
            }
            if !d.contains(incoming.last()) {
                if d.contains(x) {
                    let i = choose|i: int| 0 <= i < d.len() && d[i] == x;
                    assert(d.push(incoming.last())[i] == x);
                } else {
                    assert(d.push(incoming.last())[d.len() as int] == x);
                }
            }
        }
    }
}

proof fn lemma_merge_q(qs: Seq<QuestionView>, q: QuestionView)
    ensures
        asks(merge_q(qs, q), q.path, q.candidates),
        forall|p: Seq<char>, cands: Seq<Seq<char>>|
            #[trigger] asks(qs, p, cands) ==> asks(merge_q(qs, q), p, cands),
{
    let r = merge_q(qs, q);
    lemma_path_index(qs, q.path, 0);
    match path_index(qs, q.path, 0) {
        Some(i) => {
            lemma_add_missing(qs[i].candidates, q.candidates);
            assert(r[i].path == q.path);
            assert forall|x: Seq<char>| q.candidates.contains(x) implies r[i].candidates.contains(x) by {
                assert(add_missing(qs[i].candidates, q.candidates).contains(x));
            }
            assert forall|p: Seq<char>, cands: Seq<Seq<char>>|
                #[trigger] asks(qs, p, cands) implies asks(r, p, cands) by {
                let k = choose|k: int|
                    0 <= k < qs.len() && (#[trigger] qs[k]).path == p && forall|x: Seq<char>|
                        cands.contains(x) ==> qs[k].candidates.contains(x);
                if k == i {
                    assert forall|x: Seq<char>| cands.contains(x) implies r[k].candidates.contains(x) by {
                        assert(add_missing(qs[i].candidates, q.candidates).contains(x));
                    }
                }
                assert(r[k].path == p);
            }
        },
        None => {
            assert(r[qs.len() as int] == q);
            assert forall|p: Seq<char>, cands: Seq<Seq<char>>|
                #[trigger] asks(qs, p, cands) implies asks(r, p, cands) by {
                let k = choose|k: int|
                    0 <= k < qs.len() && (#[trigger] qs[k]).path == p && forall|x: Seq<char>|
                        cands.contains(x) ==> qs[k].candidates.contains(x);
                assert(r[k] == qs[k]);
            }
        },
    }
}

proof fn lemma_merge_all(qs: Seq<QuestionView>, incoming: Seq<QuestionView>)
    ensures
        forall|j: int|
            0 <= j < incoming.len() ==> asks(
                merge_all(qs, incoming),
                (#[trigger] incoming[j]).path,
                incoming[j].candidates,
            ),
        forall|p: Seq<char>, cands: Seq<Seq<char>>|
            #[trigger] asks(qs, p, cands) ==> asks(merge_all(qs, incoming), p, cands),
    decreases incoming.len(),
{
    if incoming.len() > 0 {
        let pre = incoming.drop_last();
        lemma_merge_all(qs, pre);
        let m = merge_all(qs, pre);
        lemma_merge_q(m, incoming.last());
        assert forall|j: int| 0 <= j < incoming.len() implies asks(
            merge_all(qs, incoming),
            (#[trigger] incoming[j]).path,
            incoming[j].candidates,
        ) by {
            if j < incoming.len() - 1 {
                assert(pre[j] == incoming[j]);
                assert(asks(m, pre[j].path, pre[j].candidates));
            }
        }
    }
}

proof fn lemma_unresolved_keeps(os: Seq<OutcomeView>, i: int, j: int)
    requires
        0 <= i < os.len(),
        os[i] matches OutcomeView::Clarify(qs) && 0 <= j < qs.len(),
    ensures
        asks(unresolved_of(os), os[i]->Clarify_0[j].path, os[i]->Clarify_0[j].candidates),
    decreases os.len(),
{
    let qs = os[i]->Clarify_0;
    let pre = os.drop_last();
    if i < os.len() - 1 {
        assert(pre[i] == os[i]);
        lemma_unresolved_keeps(pre, i, j);
        if let OutcomeView::Clarify(last) = os.last() {
            lemma_merge_all(unresolved_of(pre), last);
            assert(asks(unresolved_of(pre), qs[j].path, qs[j].candidates));
        }
    } else {
        lemma_merge_all(unresolved_of(pre), qs);
        assert(asks(merge_all(unresolved_of(pre), qs), qs[j].path, qs[j].candidates));
    }
}

/// Reconciliation never discards a clarifying sample: when any sample still
/// asks a question, the reconciled outcome asks it too, at the same path and
/// with every candidate that sample offered.
pub proof fn law_clarifying_sample_is_never_discarded(os: Seq<OutcomeView>, i: int, j: int)
    requires
        0 <= i < os.len(),
        os[i] matches OutcomeView::Clarify(qs) && 0 <= j < qs.len(),
    ensures
        reconcile_outcomes(os) matches OutcomeView::Clarify(merged) && asks(
            merged,
            os[i]->Clarify_0[j].path,
            os[i]->Clarify_0[j].candidates,
        ),
{
    lemma_unresolved_keeps(os, i, j);
}

proof fn lemma_unanimous(os: Seq<OutcomeView>, v: JsonView)
    requires
        forall|i: int| 0 <= i < os.len() ==> #[trigger] os[i] == OutcomeView::Resolved(v),
    ensures
        unresolved_of(os).len() == 0,
        resolved_of(os).len() == os.len(),
        forall|i: int| 0 <= i < os.len() ==> #[trigger] resolved_of(os)[i] == v,
    decreases os.len(),
{
    if os.len() > 0 {
        let pre = os.drop_last();
        assert forall|i: int| 0 <= i < pre.len() implies #[trigger] pre[i] == OutcomeView::Resolved(v) by {
            assert(pre[i] == os[i]);
        }
        lemma_unanimous(pre, v);
        assert(os.last() == os[os.len() - 1]);
    }
}

/// Unanimity is committed: when every sample resolves to the same value,
/// the reconciled outcome is that value.
pub proof fn law_unanimous_samples_commit(os: Seq<OutcomeView>, v: JsonView)
    requires
        os.len() > 0,
        forall|i: int| 0 <= i < os.len() ==> #[trigger] os[i] == OutcomeView::Resolved(v),
    ensures
        reconcile_outcomes(os) == OutcomeView::Resolved(v),
{
    lemma_unanimous(os, v);
    let vs = resolved_of(os);
    assert(vs[0] == v);
}

proof fn lemma_count_bounds(vs: Seq<JsonView>, a: JsonView, b: JsonView)
    ensures
        count_in(vs, a) <= vs.len(),
        a != b ==> count_in(vs, a) + count_in(vs, b) <= vs.len(),
    decreases vs.len(),
{
    if vs.len() > 0 {
        lemma_count_bounds(vs.drop_last(), a, b);
    }
}

proof fn lemma_best_from(vs: Seq<JsonView>, i: int, best: Option<(JsonView, nat)>)
    requires
        0 <= i,
        best matches Some((b, c)) ==> c == count_in(vs, b),
    ensures
        best_from(vs, i, best) matches Some((b, c)) ==> c == count_in(vs, b),
        forall|k: int|
            i <= k < vs.len() ==> (best_from(vs, i, best) matches Some((b, c)) && c >= count_in(
                vs,
                #[trigger] vs[k],
            )),
        best matches Some((b0, c0)) ==> (best_from(vs, i, best) matches Some((b, c)) && c >= c0),
    decreases vs.len() - i,
{
    if i < vs.len() {
        let c = count_in(vs, vs[i]);
        let nb = match best {
            None => Some((vs[i], c)),
            Some((_, bc)) => if c > bc {
                Some((vs[i], c))
            } else {
                best
            },
        };
        lemma_best_from(vs, i + 1, nb);
    }
}

/// Whole-value majority: a value is committed exactly when more than half
/// of the samples hold it.
pub proof fn law_majority_is_more_than_half(vs: Seq<JsonView>, w: JsonView)
    ensures
        majority_outcome(vs) == OutcomeView::Resolved(w) <==> count_in(vs, w) * 2 > vs.len(),
{
    lemma_best_from(vs, 0, None);
    if count_in(vs, w) * 2 > vs.len() {
        lemma_count_bounds(vs, w, w);
        if vs.len() == 0 {
            assert(count_in(vs, w) == 0);
        }
        if count_in(vs, w) > 0 && !vs.contains(w) {
            lemma_count_absent(vs, w);
        }
        let k = choose|k: int| 0 <= k < vs.len() && vs[k] == w;
        let (b, c) = best_from(vs, 0, None)->Some_0;
        assert(c >= count_in(vs, vs[k]));
        lemma_count_bounds(vs, b, w);
    }
}

proof fn lemma_count_absent(vs: Seq<JsonView>, w: JsonView)
    requires
        !vs.contains(w),
    ensures
        count_in(vs, w) == 0,
    decreases vs.len(),
{
    if vs.len() > 0 {
        assert(!vs.drop_last().contains(w)) by {
            if vs.drop_last().contains(w) {
                let i = choose|i: int| 0 <= i < vs.drop_last().len() && vs.drop_last()[i] == w;
                assert(vs[i] == w);
            }
        }
        lemma_count_absent(vs.drop_last(), w);
        assert(vs[vs.len() - 1] != w);
    }
}

// ---------------------------------------------------------------------------
// Field-wise majority, stated over the samples
// ---------------------------------------------------------------------------

/// How many of the objects hold `v` under `key`.
pub open spec fn field_count(objs: Seq<Members>, key: Seq<char>, v: JsonView) -> nat
    decreases objs.len(),
{
    if objs.len() == 0 {
        0
    } else {
        field_count(objs.drop_last(), key, v) + if lookup(objs.last(), key) == Some(v) {
            1nat
        } else {
            0nat
        }
    }
}

/// Some object holds `key`.
pub open spec fn held_by_some(objs: Seq<Members>, key: Seq<char>) -> bool {
    exists|i: int| 0 <= i < objs.len() && #[trigger] lookup(objs[i], key) is Some
}

proof fn lemma_field_counts_disjoint(objs: Seq<Members>, key: Seq<char>, a: JsonView, b: JsonView)
    ensures
        field_count(objs, key, a) <= objs.len(),
        a != b ==> field_count(objs, key, a) + field_count(objs, key, b) <= objs.len(),
    decreases objs.len(),
{
    if objs.len() > 0 {
        lemma_field_counts_disjoint(objs.drop_last(), key, a, b);
    }
}

proof fn lemma_field_count_absent(objs: Seq<Members>, key: Seq<char>, v: JsonView)
    requires
        !held_by_some(objs, key),
    ensures
        field_count(objs, key, v) == 0,
    decreases objs.len(),
{
    if objs.len() > 0 {
        let pre = objs.drop_last();
        assert(!held_by_some(pre, key)) by {
            if held_by_some(pre, key) {
                let i = choose|i: int| 0 <= i < pre.len() && #[trigger] lookup(pre[i], key) is Some;
                assert(pre[i] == objs[i]);
            }
        }
        lemma_field_count_absent(pre, key, v);
        assert(lookup(objs[objs.len() - 1], key) is None);
    }
}

proof fn lemma_tally_index_none(counts: Seq<(JsonView, nat)>, v: JsonView, i: int)
    requires
        0 <= i,
        tally_index(counts, v, i) is None,
    ensures
        forall|k: int| i <= k < counts.len() ==> #[trigger] counts[k].0 != v,
    decreases counts.len() - i,
{
    if i < counts.len() {
        lemma_tally_index_none(counts, v, i + 1);
    }
}

/// The tally holds each reading once, with the number of objects that hold
/// it, and holds every reading some object holds.
proof fn lemma_tally(objs: Seq<Members>, key: Seq<char>)
    ensures
        forall|a: int, b: int|
            0 <= a < b < tally(objs, key).len() ==> #[trigger] tally(objs, key)[a].0
                != #[trigger] tally(objs, key)[b].0,
        forall|a: int|
            0 <= a < tally(objs, key).len() ==> #[trigger] tally(objs, key)[a].1 == field_count(
                objs,
                key,
                tally(objs, key)[a].0,
            ) && tally(objs, key)[a].1 > 0,
        forall|w: JsonView|
            #[trigger] field_count(objs, key, w) > 0 ==> exists|a: int|
                0 <= a < tally(objs, key).len() && #[trigger] tally(objs, key)[a].0 == w,
    decreases objs.len(),
{
    if objs.len() > 0 {
        let pre = objs.drop_last();
        lemma_tally(pre, key);
        let prev = tally(pre, key);
        let t = tally(objs, key);
        match lookup(objs.last(), key) {
            None => {
                assert forall|w: JsonView| #[trigger] field_count(objs, key, w) > 0 implies exists|
                    a: int,
                | 0 <= a < t.len() && #[trigger] t[a].0 == w by {
                    assert(field_count(pre, key, w) > 0);
                }
            },
            Some(x) => {
                lemma_tally_index(prev, x, 0);
                match tally_index(prev, x, 0) {
                    Some(k) => {
                        assert(t == prev.update(k, (x, prev[k].1 + 1)));
                        assert forall|w: JsonView| #[trigger] field_count(objs, key, w) > 0 implies exists|
                            a: int,
                        | 0 <= a < t.len() && #[trigger] t[a].0 == w by {
                            if w == x {
                                assert(t[k].0 == w);
                            } else {
                                assert(field_count(pre, key, w) > 0);
                                let a = choose|a: int| 0 <= a < prev.len() && #[trigger] prev[a].0 == w;
                                assert(t[a].0 == w);
                            }
                        }
                        assert forall|a: int| 0 <= a < t.len() implies #[trigger] t[a].1 == field_count(
                            objs,
                            key,
                            t[a].0,
                        ) && t[a].1 > 0 by {
                            if a != k {
                                assert(prev[a].0 != prev[k].0);
                            }
                        }
                        assert forall|a: int, b: int| 0 <= a < b < t.len() implies #[trigger] t[a].0
                            != #[trigger] t[b].0 by {
                            assert(prev[a].0 != prev[b].0);
                        }
                    },
                    None => {
                        lemma_tally_index_none(prev, x, 0);
                        assert(t == prev.push((x, 1nat)));
                        assert(field_count(pre, key, x) == 0) by {
                            if field_count(pre, key, x) > 0 {
                                let a = choose|a: int| 0 <= a < prev.len() && #[trigger] prev[a].0 == x;
                            }
                        }
                        assert forall|w: JsonView| #[trigger] field_count(objs, key, w) > 0 implies exists|
                            a: int,
                        | 0 <= a < t.len() && #[trigger] t[a].0 == w by {
                            if w == x {
                                assert(t[prev.len() as int].0 == w);
                            } else {
                                assert(field_count(pre, key, w) > 0);
                                let a = choose|a: int| 0 <= a < prev.len() && #[trigger] prev[a].0 == w;
                                assert(t[a].0 == w);
                            }
                        }
                        assert forall|a: int| 0 <= a < t.len() implies #[trigger] t[a].1 == field_count(
                            objs,
                            key,
                            t[a].0,
                        ) && t[a].1 > 0 by {
                            if a < prev.len() {
                                assert(t[a] == prev[a]);
                            }
                        }
                        assert forall|a: int, b: int| 0 <= a < b < t.len() implies #[trigger] t[a].0
                            != #[trigger] t[b].0 by {
                            if b < prev.len() {
                                assert(prev[a].0 != prev[b].0);
                            } else {
                                assert(t[a] == prev[a]);
                            }
                        }
                    },
                }
            },
        }
    }
}

/// The first reading after sorting is one of the readings, counted at
/// least as often as every other.
proof fn lemma_sort_top(s: Seq<(JsonView, nat)>)
    ensures
        sort_desc(s).len() == s.len(),
        s.len() > 0 ==> s.contains(sort_desc(s)[0]),
        forall|j: int| 0 <= j < s.len() ==> sort_desc(s)[0].1 >= #[trigger] s[j].1,
    decreases s.len(),
{
    if s.len() > 0 {
        let pre = s.drop_last();
        lemma_sort_top(pre);
        lemma_ins_desc_len(sort_desc(pre), s.last());
        let p = sort_desc(pre);
        let x = s.last();
        if p.len() > 0 {
            let j0 = choose|j: int| 0 <= j < pre.len() && pre[j] == p[0];
            assert(s[j0] == p[0]);
        } else {
            assert(s[s.len() - 1] == x);
        }
        assert forall|j: int| 0 <= j < s.len() implies sort_desc(s)[0].1 >= #[trigger] s[j].1 by {
            if j < s.len() - 1 {
                assert(s[j] == pre[j]);
            }
        }
    }
}

proof fn lemma_ins_desc_len(sorted: Seq<(JsonView, nat)>, x: (JsonView, nat))
    ensures
        ins_desc(sorted, x).len() == sorted.len() + 1,
    decreases sorted.len(),
{
    if sorted.len() > 0 && sorted[0].1 >= x.1 {
        lemma_ins_desc_len(sorted.drop_first(), x);
    }
}

proof fn lemma_lookup_has<V>(s: Seq<(Seq<char>, V)>, k: Seq<char>)
    ensures
        lookup(s, k) is Some <==> has_key(s, k),
    decreases s.len(),
{
    if s.len() > 0 {
        lemma_lookup_has(s.drop_last(), k);
        if has_key(s.drop_last(), k) {
            let i = choose|i: int| 0 <= i < s.drop_last().len() && #[trigger] s.drop_last()[i].0 == k;
            assert(s[i].0 == k);
        }
        if has_key(s, k) && s.last().0 != k {
            let i = choose|i: int| 0 <= i < s.len() && #[trigger] s[i].0 == k;
            assert(s.drop_last()[i].0 == k);
        }
        if s.last().0 == k {
            assert(s[s.len() - 1].0 == k);
        }
    } else {
        lemma_lookup_absent(s, k);
    }
}

proof fn lemma_insert_keys(ks: Seq<(Seq<char>, ())>, entries: Members)
    requires
        keys_increasing(ks),
    ensures
        keys_increasing(insert_keys(ks, entries)),
        forall|q: Seq<char>|
            #[trigger] lookup(insert_keys(ks, entries), q) is Some <==> lookup(ks, q) is Some
                || lookup(entries, q) is Some,
    decreases entries.len(),
{
    if entries.len() > 0 {
        lemma_insert_keys(ks, entries.drop_last());
        lemma_sorted_insert(insert_keys(ks, entries.drop_last()), entries.last().0, ());
    }
}

/// The key set holds, in key order, exactly the keys some object holds.
proof fn lemma_key_set(objs: Seq<Members>)
    ensures
        keys_increasing(key_set(objs)),
        forall|q: Seq<char>| #[trigger] lookup(key_set(objs), q) is Some <==> held_by_some(objs, q),
    decreases objs.len(),
{
    if objs.len() > 0 {
        let pre = objs.drop_last();
        lemma_key_set(pre);
        lemma_insert_keys(key_set(pre), objs.last());
        assert forall|q: Seq<char>| #[trigger] lookup(key_set(objs), q) is Some <==> held_by_some(
            objs,
            q,
        ) by {
            if held_by_some(objs, q) {
                let i = choose|i: int| 0 <= i < objs.len() && #[trigger] lookup(objs[i], q) is Some;
                if i < objs.len() - 1 {
                    assert(pre[i] == objs[i]);
                }
            }
            if held_by_some(pre, q) {
                let i = choose|i: int| 0 <= i < pre.len() && #[trigger] lookup(pre[i], q) is Some;
                assert(pre[i] == objs[i]);
            }
            if lookup(objs.last(), q) is Some {
                assert(lookup(objs[objs.len() - 1], q) is Some);
            }
        }
    } else {
        assert forall|q: Seq<char>| #[trigger] lookup(key_set(objs), q) is Some <==> held_by_some(
            objs,
            q,
        ) by {}
    }
}

/// The reading of `key` counted most often, ties going to the first seen.
pub open spec fn top_reading(objs: Seq<Members>, key: Seq<char>) -> (JsonView, nat) {
    sort_desc(tally(objs, key))[0]
}

/// Some reading of `key` is held by more than half of `n` samples.
pub open spec fn field_majority(objs: Seq<Members>, n: nat, key: Seq<char>) -> bool {
    sort_desc(tally(objs, key)).len() > 0 && top_reading(objs, key).1 * 2 > n
}

proof fn lemma_contains_drop_last<A>(ks: Seq<A>, q: A)
    requires
        ks.len() > 0,
    ensures
        ks.contains(q) <==> ks.drop_last().contains(q) || ks.last() == q,
{
    if ks.contains(q) && ks.last() != q {
        let i = choose|i: int| 0 <= i < ks.len() && ks[i] == q;
        assert(ks.drop_last()[i] == q);
    }
    if ks.drop_last().contains(q) {
        let i = choose|i: int| 0 <= i < ks.drop_last().len() && ks.drop_last()[i] == q;
        assert(ks[i] == q);
    }
    if ks.last() == q {
        assert(ks[ks.len() - 1] == q);
    }
}

/// Deciding keys `ks`: a key with a majority reading holds it, every other
/// key is missing from the result and is asked about.
proof fn lemma_decide_keys(objs: Seq<Members>, n: nat, ks: Seq<Seq<char>>)
    ensures
        keys_increasing(decide_keys(objs, n, ks).0),
        forall|q: Seq<char>|
            #[trigger] lookup(decide_keys(objs, n, ks).0, q) == if ks.contains(q) && field_majority(
                objs,
                n,
                q,
            ) {
                Some(top_reading(objs, q).0)
            } else {
                None
            },
        forall|q: Seq<char>|
            ks.contains(q) && !field_majority(objs, n, q) ==> exists|j: int|
                0 <= j < decide_keys(objs, n, ks).1.len() && #[trigger] decide_keys(
                    objs,
                    n,
                    ks,
                ).1[j].path == "$."@ + q,
    decreases ks.len(),
{
    if ks.len() == 0 {
        assert forall|q: Seq<char>| #[trigger] lookup(decide_keys(objs, n, ks).0, q) == if ks.contains(q)
            && field_majority(objs, n, q) {
            Some(top_reading(objs, q).0)
        } else {
            None
        } by {}
    } else {
        let pre = ks.drop_last();
        let key = ks.last();
        lemma_decide_keys(objs, n, pre);
        let (out, qs) = decide_keys(objs, n, pre);
        let r = decide_keys(objs, n, ks);
        if field_majority(objs, n, key) {
            lemma_sorted_insert(out, key, top_reading(objs, key).0);
        }
        assert forall|q: Seq<char>| #[trigger] lookup(r.0, q) == if ks.contains(q) && field_majority(
            objs,
            n,
            q,
        ) {
            Some(top_reading(objs, q).0)
        } else {
            None
        } by {
            lemma_contains_drop_last(ks, q);
        }
        assert forall|q: Seq<char>| ks.contains(q) && !field_majority(objs, n, q) implies exists|
            j: int,
        | 0 <= j < r.1.len() && #[trigger] r.1[j].path == "$."@ + q by {
            lemma_contains_drop_last(ks, q);
            if q == key {
                assert(r.1[qs.len() as int].path == "$."@ + q);
            } else {
                let j = choose|j: int| 0 <= j < qs.len() && #[trigger] qs[j].path == "$."@ + q;
                assert(r.1[j] == qs[j]);
            }
        }
    }
}

proof fn lemma_field_count_held(objs: Seq<Members>, key: Seq<char>, i: int)
    requires
        0 <= i < objs.len(),
        lookup(objs[i], key) is Some,
    ensures
        field_count(objs, key, lookup(objs[i], key)->Some_0) > 0,
    decreases objs.len(),
{
    if i < objs.len() - 1 {
        let pre = objs.drop_last();
        assert(pre[i] == objs[i]);
        lemma_field_count_held(pre, key, i);
    }
}

/// Field-wise reconciliation commits, under each key, exactly the reading
/// that more than half of the samples hold there; a key that some sample
/// holds with no such reading is asked about at its path.
pub proof fn law_fields_commit_by_majority(objs: Seq<Members>, key: Seq<char>, v: JsonView)
    ensures
        objects_outcome(objs) matches OutcomeView::Resolved(JsonView::Obj(out)) ==> (lookup(
            out,
            key,
        ) == Some(v) <==> field_count(objs, key, v) * 2 > objs.len()),
        held_by_some(objs, key) && (forall|w: JsonView|
            #[trigger] field_count(objs, key, w) * 2 <= objs.len()) ==> (objects_outcome(
            objs,
        ) matches OutcomeView::Clarify(qs) && exists|j: int|
            0 <= j < qs.len() && #[trigger] qs[j].path == "$."@ + key),
{
    let n = objs.len();
    let kset = key_set(objs);
    let ks = kset.map_values(|p: (Seq<char>, ())| p.0);
    lemma_key_set(objs);
    lemma_lookup_has(kset, key);
    assert(ks.contains(key) <==> held_by_some(objs, key)) by {
        if has_key(kset, key) {
            let i = choose|i: int| 0 <= i < kset.len() && #[trigger] kset[i].0 == key;
            assert(ks[i] == key);
        }
        if ks.contains(key) {
            let i = choose|i: int| 0 <= i < ks.len() && ks[i] == key;
            assert(kset[i].0 == key);
        }
    }
    lemma_decide_keys(objs, n, ks);
    let (out, qs) = decide_keys(objs, n, ks);
    let t = tally(objs, key);
    lemma_tally(objs, key);
    lemma_sort_top(t);
    if held_by_some(objs, key) {
        let i = choose|i: int| 0 <= i < objs.len() && #[trigger] lookup(objs[i], key) is Some;
        lemma_field_count_held(objs, key, i);
        let x = lookup(objs[i], key)->Some_0;
        let ax = choose|a: int| 0 <= a < t.len() && #[trigger] t[a].0 == x;
        let top = top_reading(objs, key);
        let at = choose|a: int| 0 <= a < t.len() && t[a] == top;
        assert(t[at] == top);
        assert(top.1 == field_count(objs, key, top.0));
        if field_count(objs, key, v) * 2 > n {
            let av = choose|a: int| 0 <= a < t.len() && #[trigger] t[a].0 == v;
            assert(top.1 >= t[av].1);
            lemma_field_counts_disjoint(objs, key, top.0, v);
        }
        if forall|w: JsonView| #[trigger] field_count(objs, key, w) * 2 <= n {
            assert(field_count(objs, key, top.0) * 2 <= n);
            assert(!field_majority(objs, n, key));
            let j = choose|j: int| 0 <= j < qs.len() && #[trigger] qs[j].path == "$."@ + key;
            assert(objects_outcome(objs) == OutcomeView::Clarify(qs));
            let asked = objects_outcome(objs)->Clarify_0;
            assert(asked[j].path == "$."@ + key);
        }
    } else {
        lemma_field_count_absent(objs, key, v);
    }
}

// ---------------------------------------------------------------------------
// The merged questions are exactly the samples' questions, one per path
// ---------------------------------------------------------------------------

/// No two questions share a path.
pub open spec fn distinct_paths(qs: Seq<QuestionView>) -> bool {
    forall|a: int, b: int| 0 <= a < b < qs.len() ==> #[trigger] qs[a].path != #[trigger] qs[b].path
}

/// Some question of `qs` is asked at `p`.
pub open spec fn has_path(qs: Seq<QuestionView>, p: Seq<char>) -> bool {
    exists|k: int| 0 <= k < qs.len() && #[trigger] qs[k].path == p
}

/// Some sample still asks a question at `p`.
pub open spec fn raised(os: Seq<OutcomeView>, p: Seq<char>) -> bool {
    exists|i: int| 0 <= i < os.len() && #[trigger] os[i] is Clarify && has_path(os[i]->Clarify_0, p)
}

proof fn lemma_path_index_none(qs: Seq<QuestionView>, p: Seq<char>, i: int)
    requires
        0 <= i,
        path_index(qs, p, i) is None,
    ensures
        forall|k: int| i <= k < qs.len() ==> #[trigger] qs[k].path != p,
    decreases qs.len() - i,
{
    if i < qs.len() {
        lemma_path_index_none(qs, p, i + 1);
    }
}

proof fn lemma_merge_q_paths(qs: Seq<QuestionView>, q: QuestionView)
    requires
        distinct_paths(qs),
    ensures
        distinct_paths(merge_q(qs, q)),
        forall|p: Seq<char>| #[trigger] has_path(merge_q(qs, q), p) ==> has_path(qs, p) || q.path == p,
{
    let r = merge_q(qs, q);
    lemma_path_index(qs, q.path, 0);
    match path_index(qs, q.path, 0) {
        Some(i) => {
            assert forall|a: int, b: int| 0 <= a < b < r.len() implies #[trigger] r[a].path
                != #[trigger] r[b].path by {
                assert(r[a].path == qs[a].path && r[b].path == qs[b].path);
            }
            assert forall|p: Seq<char>| #[trigger] has_path(r, p) implies has_path(qs, p) || q.path
                == p by {
                let k = choose|k: int| 0 <= k < r.len() && #[trigger] r[k].path == p;
                assert(qs[k].path == p);
            }
        },
        None => {
            lemma_path_index_none(qs, q.path, 0);
            assert forall|a: int, b: int| 0 <= a < b < r.len() implies #[trigger] r[a].path
                != #[trigger] r[b].path by {
                if b < qs.len() {
                    assert(r[a] == qs[a] && r[b] == qs[b]);
                } else {
                    assert(r[a] == qs[a]);
                    assert(r[b] == q);
                }
            }
            assert forall|p: Seq<char>| #[trigger] has_path(r, p) implies has_path(qs, p) || q.path
                == p by {
                let k = choose|k: int| 0 <= k < r.len() && #[trigger] r[k].path == p;
                if k < qs.len() {
                    assert(r[k] == qs[k]);
                }
            }
        },
    }
}

proof fn lemma_merge_all_paths(qs: Seq<QuestionView>, incoming: Seq<QuestionView>)
    requires
        distinct_paths(qs),
    ensures
        distinct_paths(merge_all(qs, incoming)),
        forall|p: Seq<char>|
            #[trigger] has_path(merge_all(qs, incoming), p) ==> has_path(qs, p) || has_path(
                incoming,
                p,
            ),
    decreases incoming.len(),
{
    if incoming.len() > 0 {
        let pre = incoming.drop_last();
        lemma_merge_all_paths(qs, pre);
        lemma_merge_q_paths(merge_all(qs, pre), incoming.last());
        assert forall|p: Seq<char>| #[trigger] has_path(merge_all(qs, incoming), p) implies has_path(
            qs,
            p,
        ) || has_path(incoming, p) by {
            if has_path(pre, p) {
                let k = choose|k: int| 0 <= k < pre.len() && #[trigger] pre[k].path == p;
                assert(incoming[k].path == p);
            }
            if incoming.last().path == p {
                assert(incoming[incoming.len() - 1].path == p);
            }
        }
    }
}

proof fn lemma_unresolved_paths(os: Seq<OutcomeView>)
    ensures
        distinct_paths(unresolved_of(os)),
        forall|p: Seq<char>| #[trigger] has_path(unresolved_of(os), p) ==> raised(os, p),
    decreases os.len(),
{
    if os.len() > 0 {
        let pre = os.drop_last();
        lemma_unresolved_paths(pre);
        let acc = unresolved_of(pre);
        match os.last() {
            OutcomeView::Clarify(qs) => {
                lemma_merge_all_paths(acc, qs);
                assert forall|p: Seq<char>| #[trigger] has_path(unresolved_of(os), p) implies raised(
                    os,
                    p,
                ) by {
                    if has_path(acc, p) {
                        let i = choose|i: int|
                            0 <= i < pre.len() && #[trigger] pre[i] is Clarify && has_path(
                                pre[i]->Clarify_0,
                                p,
                            );
                        assert(os[i] == pre[i]);
                    } else {
                        assert(os[os.len() - 1] == os.last());
                    }
                }
            },
            OutcomeView::Resolved(_) => {
                assert forall|p: Seq<char>| #[trigger] has_path(unresolved_of(os), p) implies raised(
                    os,
                    p,
                ) by {
                    let i = choose|i: int|
                        0 <= i < pre.len() && #[trigger] pre[i] is Clarify && has_path(
                            pre[i]->Clarify_0,
                            p,
                        );
                    assert(os[i] == pre[i]);
                }
            },
        }
    }
}

/// Every candidate of `cands` is among those of `u`.
pub open spec fn holds_all(u: QuestionView, cands: Seq<Seq<char>>) -> bool {
    forall|x: Seq<char>| cands.contains(x) ==> #[trigger] u.candidates.contains(x)
}

/// When some sample still asks, reconciliation asks exactly the samples'
/// questions merged by path: one question per path, a path exactly when
/// some sample asked there, and the question at a path holds every
/// candidate any sample offered there.
pub proof fn law_open_questions_are_merged_by_path(os: Seq<OutcomeView>, i: int)
    requires
        0 <= i < os.len(),
        os[i] matches OutcomeView::Clarify(qs) && qs.len() > 0,
    ensures
        reconcile_outcomes(os) matches OutcomeView::Clarify(us) && distinct_paths(us) && (forall|
            p: Seq<char>,
        | #[trigger] has_path(us, p) <==> raised(os, p)) && (forall|k: int, j: int, m: int|
            0 <= k < os.len() && os[k] is Clarify && 0 <= j < os[k]->Clarify_0.len() && 0 <= m
                < us.len() && us[m].path == os[k]->Clarify_0[j].path ==> holds_all(
                #[trigger] us[m],
                #[trigger] os[k]->Clarify_0[j].candidates,
            )),
{
    lemma_unresolved_paths(os);
    lemma_unresolved_keeps(os, i, 0);
    let un = unresolved_of(os);
    assert(un.len() > 0);
    assert forall|p: Seq<char>| #[trigger] has_path(un, p) <==> raised(os, p) by {
        if raised(os, p) {
            let k = choose|k: int| 0 <= k < os.len() && #[trigger] os[k] is Clarify && has_path(
                os[k]->Clarify_0,
                p,
            );
            let j = choose|j: int| 0 <= j < os[k]->Clarify_0.len() && #[trigger] os[k]->Clarify_0[j].path == p;
            lemma_unresolved_keeps(os, k, j);
            let m = choose|m: int|
                0 <= m < un.len() && (#[trigger] un[m]).path == p && forall|x: Seq<char>|
                    os[k]->Clarify_0[j].candidates.contains(x) ==> un[m].candidates.contains(x);
        }
    }
    assert forall|k: int, j: int, m: int|
        0 <= k < os.len() && os[k] is Clarify && 0 <= j < os[k]->Clarify_0.len() && 0 <= m < un.len()
            && un[m].path == os[k]->Clarify_0[j].path implies holds_all(
        #[trigger] un[m],
        #[trigger] os[k]->Clarify_0[j].candidates,
    ) by {
        lemma_unresolved_keeps(os, k, j);
        let m2 = choose|m2: int|
            0 <= m2 < un.len() && (#[trigger] un[m2]).path == os[k]->Clarify_0[j].path && forall|
                x: Seq<char>,
            | os[k]->Clarify_0[j].candidates.contains(x) ==> un[m2].candidates.contains(x);
        if m2 != m {
            if m < m2 {
                assert(un[m].path != un[m2].path);
            } else {
                assert(un[m2].path != un[m].path);
            }
        }
    }
}

proof fn lemma_digest_all_ok(samples: Seq<Seq<char>>, schema: Schema)
    requires
        forall|k: int| 0 <= k < samples.len() ==> #[trigger] digest_spec(samples[k], schema) is Ok,
    ensures
        digest_all(samples, schema) matches Ok(ds) && ds.len() == samples.len() && forall|k: int|
            0 <= k < samples.len() ==> #[trigger] ds[k] == digest_spec(samples[k], schema)->Ok_0,
    decreases samples.len(),
{
    if samples.len() > 0 {
        let pre = samples.drop_last();
        assert forall|k: int| 0 <= k < pre.len() implies #[trigger] digest_spec(pre[k], schema) is Ok by {
            assert(pre[k] == samples[k]);
        }
        lemma_digest_all_ok(pre, schema);
        assert(digest_spec(samples[samples.len() - 1], schema) is Ok);
        let ds = digest_all(samples, schema)->Ok_0;
        assert forall|k: int| 0 <= k < samples.len() implies #[trigger] ds[k] == digest_spec(
            samples[k],
            schema,
        )->Ok_0 by {
            if k < samples.len() - 1 {
                assert(pre[k] == samples[k]);
            }
        }
    }
}

/// Reconciliation never discards a clarifying sample: when every sample
/// digests and one still asks, the reconciliation keeps each sample's
/// digestion and asks exactly the samples' questions merged by path, one
/// question per path, each holding every candidate any sample offered at
/// that path.
pub proof fn law_reconcile_merges_every_open_question(
    samples: Seq<Seq<char>>,
    schema: Schema,
    i: int,
)
    requires
        forall|k: int| 0 <= k < samples.len() ==> #[trigger] digest_spec(samples[k], schema) is Ok,
        0 <= i < samples.len(),
        digest_spec(samples[i], schema)->Ok_0.0 is Clarify,
    ensures
        reconcile_spec(samples, schema) matches Ok((OutcomeView::Clarify(us), ds)) && ds.len()
            == samples.len() && (forall|k: int|
            0 <= k < samples.len() ==> #[trigger] ds[k] == digest_spec(samples[k], schema)->Ok_0)
            && distinct_paths(us) && (forall|p: Seq<char>|
            #[trigger] has_path(us, p) <==> raised(outcomes_of(ds), p)) && (forall|
            k: int,
            j: int,
            m: int,
        |
            0 <= k < ds.len() && ds[k].0 is Clarify && 0 <= j < ds[k].0->Clarify_0.len() && 0 <= m
                < us.len() && us[m].path == ds[k].0->Clarify_0[j].path ==> holds_all(
                #[trigger] us[m],
                #[trigger] ds[k].0->Clarify_0[j].candidates,
            )),
{
    lemma_digest_all_ok(samples, schema);
    let ds = digest_all(samples, schema)->Ok_0;
    let os = outcomes_of(ds);
    crate::digest::law_clarification_always_asks(samples[i], schema);
    assert(os[i] == ds[i].0);
    law_open_questions_are_merged_by_path(os, i);
    let us = reconcile_outcomes(os)->Clarify_0;
    assert forall|k: int, j: int, m: int|
        0 <= k < ds.len() && ds[k].0 is Clarify && 0 <= j < ds[k].0->Clarify_0.len() && 0 <= m
            < us.len() && us[m].path == ds[k].0->Clarify_0[j].path implies holds_all(
        #[trigger] us[m],
        #[trigger] ds[k].0->Clarify_0[j].candidates,
    ) by {
        assert(os[k] == ds[k].0);
    }
}

// ---------------------------------------------------------------------------
// A field question offers every reading
// ---------------------------------------------------------------------------

/// The readings of counted pairs, in order.
pub open spec fn readings_of(s: Seq<(JsonView, nat)>) -> Seq<JsonView> {
    s.map_values(|p: (JsonView, nat)| p.0)
}

proof fn lemma_ins_desc_elems(sorted: Seq<(JsonView, nat)>, x: (JsonView, nat))
    ensures
        forall|y: (JsonView, nat)| #[trigger] ins_desc(sorted, x).contains(y) <==> sorted.contains(y) || y == x,
        readings_of(sorted).no_duplicates() && !readings_of(sorted).contains(x.0) ==> readings_of(
            ins_desc(sorted, x),
        ).no_duplicates(),
    decreases sorted.len(),
{
    let r = ins_desc(sorted, x);
    if sorted.len() == 0 {
        assert(r == seq![x]);
        assert forall|y: (JsonView, nat)| #[trigger] r.contains(y) <==> sorted.contains(y) || y == x by {
            if r.contains(y) {
                assert(r[0] == y);
            }
            if y == x {
                assert(r[0] == y);
            }
        }
    } else if sorted[0].1 >= x.1 {
        let t = sorted.drop_first();
        lemma_ins_desc_elems(t, x);
        let it = ins_desc(t, x);
        assert(r == seq![sorted[0]] + it);
        assert forall|y: (JsonView, nat)| #[trigger] r.contains(y) <==> sorted.contains(y) || y == x by {
            if r.contains(y) {
                let q = choose|q: int| 0 <= q < r.len() && r[q] == y;
                if q > 0 {
                    assert(it[q - 1] == y);
                    assert(it.contains(y));
                    if t.contains(y) {
                        let u = choose|u: int| 0 <= u < t.len() && t[u] == y;
                        assert(sorted[u + 1] == y);
                    }
                } else {
                    assert(sorted[0] == y);
                }
            }
            if sorted.contains(y) {
                let q = choose|q: int| 0 <= q < sorted.len() && sorted[q] == y;
                if q > 0 {
                    assert(t[q - 1] == y);
                    assert(t.contains(y));
                    assert(ins_desc(t, x).contains(y));
                    let u = choose|u: int| 0 <= u < it.len() && it[u] == y;
                    assert(r[u + 1] == y);
                } else {
                    assert(r[0] == y);
                }
            }
            if y == x {
                assert(ins_desc(t, x).contains(x));
                let u = choose|u: int| 0 <= u < it.len() && it[u] == y;
                assert(r[u + 1] == y);
            }
        }
        if readings_of(sorted).no_duplicates() && !readings_of(sorted).contains(x.0) {
            assert(readings_of(t).no_duplicates()) by {
                assert forall|a: int, b: int|
                    0 <= a < readings_of(t).len() && 0 <= b < readings_of(t).len() && a != b implies readings_of(
                    t,
                )[a] != readings_of(t)[b] by {
                    assert(readings_of(t)[a] == readings_of(sorted)[a + 1]);
                    assert(readings_of(t)[b] == readings_of(sorted)[b + 1]);
                }
            }
            assert(!readings_of(t).contains(x.0)) by {
                if readings_of(t).contains(x.0) {
                    let a = choose|a: int| 0 <= a < readings_of(t).len() && readings_of(t)[a] == x.0;
                    assert(readings_of(sorted)[a + 1] == x.0);
                }
            }
            let rr = readings_of(r);
            assert forall|a: int, b: int| 0 <= a < rr.len() && 0 <= b < rr.len() && a != b implies rr[a]
                != rr[b] by {
                if a > 0 && b > 0 {
                    assert(rr[a] == readings_of(it)[a - 1]);
                    assert(rr[b] == readings_of(it)[b - 1]);
                } else {
                    let c = if a == 0 { b } else { a };
                    assert(rr[0] == sorted[0].0);
                    assert(it.contains(r[c]));
                    assert(rr[c] == r[c].0);
                    if t.contains(r[c]) {
                        let u = choose|u: int| 0 <= u < t.len() && t[u] == r[c];
                        assert(readings_of(sorted)[u + 1] == r[c].0);
                        assert(readings_of(sorted)[0] == sorted[0].0);
                    } else {
                        assert(r[c] == x);
                        assert(readings_of(sorted)[0] == sorted[0].0);
                    }
                }
            }
        }
    } else {
        assert(r == seq![x] + sorted);
        assert forall|y: (JsonView, nat)| #[trigger] r.contains(y) <==> sorted.contains(y) || y == x by {
            if r.contains(y) {
                let q = choose|q: int| 0 <= q < r.len() && r[q] == y;
                if q > 0 {
                    assert(sorted[q - 1] == y);
                }
            }
            if sorted.contains(y) {
                let q = choose|q: int| 0 <= q < sorted.len() && sorted[q] == y;
                assert(r[q + 1] == y);
            }
            if y == x {
                assert(r[0] == y);
            }
        }
        if readings_of(sorted).no_duplicates() && !readings_of(sorted).contains(x.0) {
            let rr = readings_of(r);
            assert forall|a: int, b: int| 0 <= a < rr.len() && 0 <= b < rr.len() && a != b implies rr[a]
                != rr[b] by {
                if a > 0 && b > 0 {
                    assert(rr[a] == readings_of(sorted)[a - 1]);
                    assert(rr[b] == readings_of(sorted)[b - 1]);
                } else {
                    let c = if a == 0 { b } else { a };
                    assert(rr[c] == readings_of(sorted)[c - 1]);
                }
            }
        }
    }
}

proof fn lemma_sort_desc_elems(s: Seq<(JsonView, nat)>)
    ensures
        forall|y: (JsonView, nat)| #[trigger] sort_desc(s).contains(y) <==> s.contains(y),
        readings_of(s).no_duplicates() ==> readings_of(sort_desc(s)).no_duplicates(),
    decreases s.len(),
{
    if s.len() > 0 {
        let pre = s.drop_last();
        lemma_sort_desc_elems(pre);
        lemma_ins_desc_elems(sort_desc(pre), s.last());
        assert forall|y: (JsonView, nat)| #[trigger] sort_desc(s).contains(y) <==> s.contains(y) by {
            if pre.contains(y) {
                let q = choose|q: int| 0 <= q < pre.len() && pre[q] == y;
                assert(s[q] == y);
            }
            if s.contains(y) {
                let q = choose|q: int| 0 <= q < s.len() && s[q] == y;
                if q < s.len() - 1 {
                    assert(pre[q] == y);
                }
            }
        }
        if readings_of(s).no_duplicates() {
            assert(readings_of(pre).no_duplicates()) by {
                assert forall|a: int, b: int|
                    0 <= a < readings_of(pre).len() && 0 <= b < readings_of(pre).len() && a != b implies readings_of(
                    pre,
                )[a] != readings_of(pre)[b] by {
                    assert(readings_of(pre)[a] == readings_of(s)[a]);
                    assert(readings_of(pre)[b] == readings_of(s)[b]);
                }
            }
            assert(!readings_of(sort_desc(pre)).contains(s.last().0)) by {
                if readings_of(sort_desc(pre)).contains(s.last().0) {
                    let a = choose|a: int|
                        0 <= a < readings_of(sort_desc(pre)).len() && readings_of(sort_desc(pre))[a]
                            == s.last().0;
                    assert(sort_desc(pre).contains(sort_desc(pre)[a]));
                    let q = choose|q: int| 0 <= q < pre.len() && pre[q] == sort_desc(pre)[a];
                    assert(readings_of(s)[q] == readings_of(s)[s.len() - 1]);
                }
            }
        }
    }
}

proof fn lemma_field_path_injective(a: Seq<char>, b: Seq<char>)
    requires
        "$."@ + a == "$."@ + b,
    ensures
        a == b,
{
    assert(a =~= ("$."@ + a).skip(("$."@).len() as int));
    assert(b =~= ("$."@ + b).skip(("$."@).len() as int));
}

/// The key a field question's path names.
spec fn path_key(p: Seq<char>) -> Seq<char> {
    p.skip(2)
}

proof fn lemma_decide_questions(objs: Seq<Members>, n: nat, ks: Seq<Seq<char>>)
    ensures
        forall|j: int|
            0 <= j < decide_keys(objs, n, ks).1.len() ==> ({
                let q = #[trigger] decide_keys(objs, n, ks).1[j];
                &&& ks.contains(path_key(q.path))
                &&& q.path == "$."@ + path_key(q.path)
                &&& q.candidates == sort_desc(tally(objs, path_key(q.path))).map_values(
                    |p: (JsonView, nat)| json_text(p.0),
                )
            }),
    decreases ks.len(),
{
    reveal_strlit("$.");
    if ks.len() > 0 {
        let pre = ks.drop_last();
        lemma_decide_questions(objs, n, pre);
        let qs = decide_keys(objs, n, pre).1;
        let r = decide_keys(objs, n, ks).1;
        assert forall|j: int| 0 <= j < r.len() implies ({
            let q = #[trigger] r[j];
            &&& ks.contains(path_key(q.path))
            &&& q.path == "$."@ + path_key(q.path)
            &&& q.candidates == sort_desc(tally(objs, path_key(q.path))).map_values(
                |p: (JsonView, nat)| json_text(p.0),
            )
        }) by {
            if j < qs.len() {
                assert(r[j] == qs[j]);
                lemma_contains_drop_last(ks, path_key(qs[j].path));
            } else {
                let key = ks.last();
                lemma_contains_drop_last(ks, key);
                assert(r[j].path == "$."@ + key);
                assert(path_key(r[j].path) =~= key);
            }
        }
    }
}

/// When field-wise reconciliation asks about a key, the question offers the
/// text of every distinct reading that any sample holds under that key,
/// each exactly once, and nothing else.
pub proof fn law_field_question_offers_every_reading(objs: Seq<Members>, key: Seq<char>, j: int)
    requires
        objects_outcome(objs) matches OutcomeView::Clarify(qs) && 0 <= j < qs.len() && qs[j].path
            == "$."@ + key,
    ensures
        exists|rs: Seq<JsonView>|
            #![trigger rs.no_duplicates()]
            rs.no_duplicates() && objects_outcome(objs)->Clarify_0[j].candidates == rs.map_values(
                |w: JsonView| json_text(w),
            ) && forall|w: JsonView| #[trigger] rs.contains(w) <==> field_count(objs, key, w) > 0,
{
    let n = objs.len();
    let ks = key_set(objs).map_values(|p: (Seq<char>, ())| p.0);
    let qs = decide_keys(objs, n, ks).1;
    lemma_decide_questions(objs, n, ks);
    let k2 = path_key(qs[j].path);
    lemma_field_path_injective(key, k2);
    let t = tally(objs, key);
    let sorted = sort_desc(t);
    lemma_tally(objs, key);
    lemma_sort_desc_elems(t);
    let rs = readings_of(sorted);
    assert(readings_of(t).no_duplicates()) by {
        assert forall|a: int, b: int|
            0 <= a < readings_of(t).len() && 0 <= b < readings_of(t).len() && a != b implies readings_of(
            t,
        )[a] != readings_of(t)[b] by {
            if a < b {
                assert(t[a].0 != t[b].0);
            } else {
                assert(t[b].0 != t[a].0);
            }
        }
    }
    assert(qs[j].candidates =~= rs.map_values(|w: JsonView| json_text(w)));
    assert forall|w: JsonView| #[trigger] rs.contains(w) <==> field_count(objs, key, w) > 0 by {
        if rs.contains(w) {
            let a = choose|a: int| 0 <= a < rs.len() && rs[a] == w;
            assert(sorted.contains(sorted[a]));
            let b = choose|b: int| 0 <= b < t.len() && t[b] == sorted[a];
            assert(t[b].1 == field_count(objs, key, t[b].0));
        }
        if field_count(objs, key, w) > 0 {
            let b = choose|b: int| 0 <= b < t.len() && #[trigger] t[b].0 == w;
            assert(t.contains(t[b]));
            assert(sort_desc(t).contains(t[b]));
            let a = choose|a: int| 0 <= a < sorted.len() && sorted[a] == t[b];
            assert(rs[a] == w);
        }
    }
}

} // verus!
