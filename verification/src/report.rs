//! Writing JSON reports: objects built member by member, and the one shape
//! every refusal takes.

use vstd::prelude::*;

use crate::json::{item_views, member_views, JsonView, Value};
use crate::text::texts;
use crate::textmap::{sorted_insert, TextMap};

verus! {

broadcast use crate::json::group_json_view;

/// The members of a JSON object, in key order.
pub type Members = Seq<(Seq<char>, JsonView)>;

/// `m` with `k` set to `v`.
pub open spec fn with(m: Members, k: Seq<char>, v: JsonView) -> Members {
    sorted_insert(m, k, v)
}

pub open spec fn no_members() -> Members {
    Seq::empty()
}

/// The members stored one after another.
pub open spec fn stored(pairs: Members) -> Members
    decreases pairs.len(),
{
    if pairs.len() == 0 {
        Seq::empty()
    } else {
        with(stored(pairs.drop_last()), pairs.last().0, pairs.last().1)
    }
}

pub(crate) fn put(m: &mut TextMap<Value>, k: &str, v: Value)
    ensures
        member_views(final(m).entries()) == with(member_views(old(m).entries()), k@, v@),
{
    proof {
        crate::json::lemma_member_views_insert(m.entries(), k@, v);
    }
    m.insert(String::from_str(k), v);
}

pub(crate) fn text_value(s: &String) -> (r: Value)
    ensures
        r@ == JsonView::Str(s@),
{
    Value::Str(s.clone())
}

pub open spec fn strings_json(v: Seq<Seq<char>>) -> JsonView {
    JsonView::Arr(v.map_values(|s: Seq<char>| JsonView::Str(s)))
}

/// An array of strings.
pub fn string_array(values: &Vec<String>) -> (r: Value)
    ensures
        r@ == strings_json(texts(values@)),
{
    let mut items: Vec<Value> = Vec::new();
    let mut i: usize = 0;
    while i < values.len()
        invariant
            i <= values@.len(),
            item_views(items@) == texts(values@).take(i as int).map_values(
                |s: Seq<char>| JsonView::Str(s),
            ),
        decreases values@.len() - i,
    {
        let ghost before = items@;
        items.push(text_value(&values[i]));
        assert(item_views(items@) =~= item_views(before).push(JsonView::Str(values@[i as int]@)));
        assert(texts(values@).take(i + 1).map_values(|s: Seq<char>| JsonView::Str(s)) =~= texts(
            values@,
        ).take(i as int).map_values(|s: Seq<char>| JsonView::Str(s)).push(
            JsonView::Str(values@[i as int]@),
        ));
        i = i + 1;
    }
    assert(texts(values@).take(i as int) =~= texts(values@));
    Value::Arr(items)
}

#[verifier::opaque]
pub open spec fn rejection_json(
    stage: Seq<char>,
    code: Seq<char>,
    message: Seq<char>,
    path: Option<Seq<char>>,
) -> JsonView {
    let error = with(
        with(with(no_members(), "code"@, JsonView::Str(code)), "message"@, JsonView::Str(message)),
        "stage"@,
        JsonView::Str(stage),
    );
    JsonView::Obj(
        with(
            with(
                no_members(),
                "error"@,
                JsonView::Obj(
                    match path {
                        Some(p) => with(error, "path"@, JsonView::Str(p)),
                        None => error,
                    },
                ),
            ),
            "status"@,
            JsonView::Str("rejected"@),
        ),
    )
}

pub open spec fn opt_path(p: Option<&str>) -> Option<Seq<char>> {
    match p {
        Some(s) => Some(s@),
        None => None,
    }
}

/// The report of a refused comparison: the stage, a stable code, the
/// message and, where there is one, the path of the offending input.
pub fn rejection(stage: &str, code: &str, message: &str, path: Option<&str>) -> (r: Value)
    ensures
        r@ == rejection_json(stage@, code@, message@, opt_path(path)),
{
    reveal(rejection_json);
    let mut error: TextMap<Value> = TextMap::new();
    assert(member_views(error.entries()) =~= no_members());
    put(&mut error, "code", Value::Str(String::from_str(code)));
    put(&mut error, "message", Value::Str(String::from_str(message)));
    put(&mut error, "stage", Value::Str(String::from_str(stage)));
    match path {
        Some(p) => put(&mut error, "path", Value::Str(String::from_str(p))),
        None => {},
    }
    let mut m: TextMap<Value> = TextMap::new();
    assert(member_views(m.entries()) =~= no_members());
    put(&mut m, "error", Value::Obj(error));
    put(&mut m, "status", Value::Str(String::from_str("rejected")));
    Value::Obj(m)
}

} // verus!
