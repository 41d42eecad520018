//! What the memory store reports when it lets go: sweep counts and erasure
//! receipts that commit to what was forgotten without retaining it.

use vstd::prelude::*;

use crate::erasure::utf8;
use crate::fnv::{fnv1a, fnv1a_extend, FNV_OFFSET};
use crate::text::{dec_chars, hex16, hex_digits, le_bytes, u64_le_bytes, usize_to_string};

verus! {

/// What a sweep released, and why.
#[derive(Debug, Clone, Copy, PartialEq, Eq, Structural)]
pub struct Swept {
    pub expired: usize,
    pub faded: usize,
}

/// Proof of deletion: how many memories were released, and a receipt whose
/// hash covers the ids, subjects and contents of everything erased.
#[derive(Debug, Clone, PartialEq, Eq)]
pub struct ErasureReceipt {
    pub erased: usize,
    pub receipt: String,
}

/// One erased memory as the receipt sees it: id, subject, content.
pub type Erased = (u64, String, String);

pub open spec fn erased_views(v: Seq<Erased>) -> Seq<(u64, Seq<char>, Seq<char>)> {
    v.map_values(|m: Erased| (m.0, m.1@, m.2@))
}

/// The receipt hash: FNV-1a over each erased memory's id (eight
/// little-endian bytes), subject bytes and content bytes, in order.
pub open spec fn erasure_hash(h: u64, erased: Seq<(u64, Seq<char>, Seq<char>)>) -> u64
    decreases erased.len(),
{
    if erased.len() == 0 {
        h
    } else {
        let m = erased.last();
        fnv1a(
            fnv1a(fnv1a(erasure_hash(h, erased.drop_last()), le_bytes(m.0 as nat, 8)), utf8(m.1)),
            utf8(m.2),
        )
    }
}

/// The receipt text for a list of erased memories.
pub open spec fn receipt_text(erased: Seq<(u64, Seq<char>, Seq<char>)>) -> Seq<char> {
    "lethe://era/"@ + hex_digits(erasure_hash(FNV_OFFSET, erased), 16)
}

/// The receipt for the memories erased, in the order they were erased.
pub fn erasure_receipt(erased: &Vec<Erased>) -> (r: ErasureReceipt)
    ensures
        r.erased == erased@.len(),
        r.receipt@ == receipt_text(erased_views(erased@)),
{
    let ghost ev = erased_views(erased@);
    let mut hash = FNV_OFFSET;
    let mut i: usize = 0;
    assert(ev.take(0) =~= Seq::<(u64, Seq<char>, Seq<char>)>::empty());
    while i < erased.len()
        invariant
            i <= erased@.len(),
            ev == erased_views(erased@),
            hash == erasure_hash(FNV_OFFSET, ev.take(i as int)),
        decreases erased@.len() - i,
    {
        let m = &erased[i];
        let id = u64_le_bytes(m.0);
        hash = fnv1a_extend(hash, id.as_slice());
        hash = fnv1a_extend(hash, m.1.as_str().as_bytes());
        hash = fnv1a_extend(hash, m.2.as_str().as_bytes());
        assert(ev.take(i + 1).drop_last() =~= ev.take(i as int));
        i = i + 1;
    }
    assert(ev.take(erased@.len() as int) =~= ev);
    let mut receipt = String::from_str("lethe://era/");
    receipt.append(hex16(hash).as_str());
    ErasureReceipt { erased: erased.len(), receipt }
}

impl ErasureReceipt {
    /// `"<n> memories released — <receipt>"`.
    pub fn to_string(&self) -> (r: String)
        ensures
            r@ == dec_chars(self.erased as nat) + " memories released — "@ + self.receipt@,
    {
        let mut r = usize_to_string(self.erased);
        r.append(" memories released — ");
        r.append(self.receipt.as_str());
        r
    }
}

/// Item `i` is marked for erasure.
pub open spec fn marked_at(erase: Seq<bool>, i: int) -> bool {
    0 <= i < erase.len() && erase[i]
}

/// The items kept and the items erased, each in their original order: an
/// item is erased exactly when its mark is set.
pub open spec fn split_marked<T>(items: Seq<T>, erase: Seq<bool>) -> (Seq<T>, Seq<T>)
    decreases items.len(),
{
    if items.len() == 0 {
        (Seq::empty(), Seq::empty())
    } else {
        let (kept, erased) = split_marked(items.drop_last(), erase);
        if marked_at(erase, items.len() - 1) {
            (kept, erased.push(items.last()))
        } else {
            (kept.push(items.last()), erased)
        }
    }
}

/// Erasure on demand: splits `items` by their marks into what stays and
/// what is released, keeping the order of each. An item without a mark
/// stays.
pub fn partition_marked<T>(items: Vec<T>, erase: &Vec<bool>) -> (r: (Vec<T>, Vec<T>))
    ensures
        r.0@ == split_marked(items@, erase@).0,
        r.1@ == split_marked(items@, erase@).1,
{
    let ghost all = items@;
    let mut rest = items;
    let mut kept: Vec<T> = Vec::new();
    let mut erased: Vec<T> = Vec::new();
    let mut i: usize = 0;
    let n = rest.len();
    assert(all.take(0) =~= Seq::<T>::empty());
    while rest.len() > 0
        invariant
            all.len() == n,
            i + rest@.len() == all.len(),
            rest@ == all.skip(i as int),
            kept@ == split_marked(all.take(i as int), erase@).0,
            erased@ == split_marked(all.take(i as int), erase@).1,
        decreases rest@.len(),
    {
        let x = rest.remove(0);
        proof {
            assert(x == all[i as int]);
            assert(all.take(i + 1).drop_last() =~= all.take(i as int));
            assert(all.take(i + 1).last() == x);
            assert(rest@ =~= all.skip(i + 1));
        }
        let marked = i < erase.len() && erase[i];
        if marked {
            erased.push(x);
        } else {
            kept.push(x);
        }
        i = i + 1;
    }
    assert(all.take(i as int) =~= all);
    (kept, erased)
}

proof fn lemma_split_by_predicate<T>(items: Seq<T>, erase: Seq<bool>, p: spec_fn(T) -> bool)
    requires
        forall|i: int| 0 <= i < items.len() ==> marked_at(erase, i) == p(#[trigger] items[i]),
    ensures
        split_marked(items, erase).1 == items.filter(p),
        split_marked(items, erase).0 == items.filter(|x: T| !p(x)),
    decreases items.len(),
{
    reveal(Seq::filter);
    if items.len() > 0 {
        let pre = items.drop_last();
        assert forall|i: int| 0 <= i < pre.len() implies marked_at(erase, i) == p(#[trigger] pre[i]) by {
            assert(pre[i] == items[i]);
        }
        lemma_split_by_predicate(pre, erase, p);
        assert(marked_at(erase, items.len() - 1) == p(items[items.len() - 1]));
    }
}

proof fn lemma_split_unmarked<T>(items: Seq<T>, erase: Seq<bool>)
    requires
        forall|i: int| 0 <= i < items.len() ==> !#[trigger] marked_at(erase, i),
    ensures
        split_marked(items, erase).1.len() == 0,
        split_marked(items, erase).0 == items,
    decreases items.len(),
{
    if items.len() > 0 {
        let pre = items.drop_last();
        lemma_split_unmarked(pre, erase);
        assert(!marked_at(erase, items.len() - 1));
        assert(pre.push(items.last()) =~= items);
    }
}

/// Forgetting by a predicate: marking each item by the predicate releases
/// exactly the items it holds of and keeps the others, each in their order;
/// forgetting again by the same predicate releases nothing.
pub proof fn law_forget_releases_exactly_the_matching<T>(items: Seq<T>, p: spec_fn(T) -> bool)
    ensures
        split_marked(items, items.map_values(p)).1 == items.filter(p),
        split_marked(items, items.map_values(p)).0 == items.filter(|x: T| !p(x)),
        ({
            let kept = split_marked(items, items.map_values(p)).0;
            split_marked(kept, kept.map_values(p)).1.len() == 0
        }),
{
    lemma_split_by_predicate(items, items.map_values(p), p);
    let kept = items.filter(|x: T| !p(x));
    assert forall|i: int| 0 <= i < kept.len() implies !#[trigger] marked_at(kept.map_values(p), i) by {
        items.filter_lemma(|x: T| !p(x));
        assert((|x: T| !p(x))(kept[i]));
    }
    lemma_split_unmarked(kept, kept.map_values(p));
}

} // verus!
