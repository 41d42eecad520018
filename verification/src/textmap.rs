//! A map keyed by text, kept in the byte order of its keys: the order in
//! which `BTreeMap<String, _>` holds and walks its entries.

use vstd::prelude::*;
use vstd::utf8::{encode_utf8, encode_utf8_decode_utf8};

use crate::text::{bytes_lt, slice_lt};

verus! {

pub open spec fn key_lt(a: Seq<char>, b: Seq<char>) -> bool {
    bytes_lt(encode_utf8(a), encode_utf8(b))
}

pub proof fn lemma_bytes_lt_irreflexive(a: Seq<u8>)
    ensures
        !bytes_lt(a, a),
    decreases a.len(),
{
    if a.len() > 0 {
        lemma_bytes_lt_irreflexive(a.drop_first());
    }
}

pub proof fn lemma_bytes_lt_transitive(a: Seq<u8>, b: Seq<u8>, c: Seq<u8>)
    requires
        bytes_lt(a, b),
        bytes_lt(b, c),
    ensures
        bytes_lt(a, c),
    decreases a.len(),
{
    if a.len() > 0 && b.len() > 0 && c.len() > 0 {
        if a[0] == b[0] && b[0] == c[0] {
            lemma_bytes_lt_transitive(a.drop_first(), b.drop_first(), c.drop_first());
        }
    }
}

pub proof fn lemma_bytes_lt_total(a: Seq<u8>, b: Seq<u8>)
    requires
        a != b,
    ensures
        bytes_lt(a, b) || bytes_lt(b, a),
    decreases a.len(),
{
    if a.len() == 0 {
        if b.len() == 0 {
            assert(a =~= b);
        }
    } else if b.len() > 0 && a[0] == b[0] {
        if a.drop_first() == b.drop_first() {
            assert(a =~= seq![a[0]] + a.drop_first());
            assert(b =~= seq![b[0]] + b.drop_first());
        }
        lemma_bytes_lt_total(a.drop_first(), b.drop_first());
    }
}

pub proof fn lemma_key_lt_irreflexive(a: Seq<char>)
    ensures
        !key_lt(a, a),
{
    lemma_bytes_lt_irreflexive(encode_utf8(a));
}

pub proof fn lemma_key_lt_transitive(a: Seq<char>, b: Seq<char>, c: Seq<char>)
    requires
        key_lt(a, b),
        key_lt(b, c),
    ensures
        key_lt(a, c),
{
    lemma_bytes_lt_transitive(encode_utf8(a), encode_utf8(b), encode_utf8(c));
}

pub proof fn lemma_key_lt_total(a: Seq<char>, b: Seq<char>)
    requires
        a != b,
    ensures
        key_lt(a, b) || key_lt(b, a),
{
    encode_utf8_decode_utf8(a);
    encode_utf8_decode_utf8(b);
    lemma_bytes_lt_total(encode_utf8(a), encode_utf8(b));
}

/// Entries whose keys strictly increase.
pub open spec fn keys_increasing<V>(s: Seq<(Seq<char>, V)>) -> bool {
    forall|i: int, j: int| 0 <= i < j < s.len() ==> key_lt(#[trigger] s[i].0, #[trigger] s[j].0)
}

/// The value stored under `k`, if any.
pub open spec fn lookup<V>(s: Seq<(Seq<char>, V)>, k: Seq<char>) -> Option<V>
    decreases s.len(),
{
    if s.len() == 0 {
        None
    } else if s.last().0 == k {
        Some(s.last().1)
    } else {
        lookup(s.drop_last(), k)
    }
}

pub open spec fn has_key<V>(s: Seq<(Seq<char>, V)>, k: Seq<char>) -> bool {
    exists|i: int| 0 <= i < s.len() && #[trigger] s[i].0 == k
}

pub proof fn lemma_lookup_index<V>(s: Seq<(Seq<char>, V)>, k: Seq<char>, i: int)
    requires
        keys_increasing(s),
        0 <= i < s.len(),
        s[i].0 == k,
    ensures
        lookup(s, k) == Some(s[i].1),
    decreases s.len(),
{
    if i < s.len() - 1 {
        if s.last().0 == k {
            lemma_key_lt_irreflexive(k);
            assert(key_lt(s[i].0, s[s.len() - 1].0));
        }
        lemma_lookup_index(s.drop_last(), k, i);
    }
}

pub proof fn lemma_lookup_absent<V>(s: Seq<(Seq<char>, V)>, k: Seq<char>)
    requires
        forall|i: int| 0 <= i < s.len() ==> #[trigger] s[i].0 != k,
    ensures
        lookup(s, k) is None,
    decreases s.len(),
{
    if s.len() > 0 {
        assert(s[s.len() - 1].0 != k);
        lemma_lookup_absent(s.drop_last(), k);
    }
}

pub proof fn lemma_lookup_some<V>(s: Seq<(Seq<char>, V)>, k: Seq<char>)
    requires
        keys_increasing(s),
    ensures
        lookup(s, k) is Some <==> has_key(s, k),
{
    if has_key(s, k) {
        let i = choose|i: int| 0 <= i < s.len() && #[trigger] s[i].0 == k;
        lemma_lookup_index(s, k, i);
    } else {
        lemma_lookup_absent(s, k);
    }
}

/// A value `lookup` finds is the value of some entry.
pub proof fn lemma_lookup_member<V>(s: Seq<(Seq<char>, V)>, k: Seq<char>)
    ensures
        lookup(s, k) matches Some(x) ==> exists|j: int| 0 <= j < s.len() && #[trigger] s[j].1 == x,
    decreases s.len(),
{
    if s.len() > 0 && s.last().0 != k {
        lemma_lookup_member(s.drop_last(), k);
        if let Some(x) = lookup(s, k) {
            let j = choose|j: int| 0 <= j < s.drop_last().len() && #[trigger] s.drop_last()[j].1 == x;
            assert(s[j].1 == x);
        }
    } else if s.len() > 0 {
        assert(s[s.len() - 1].1 == s.last().1);
    }
}

pub open spec fn entry_views<V>(s: Seq<(String, V)>) -> Seq<(Seq<char>, V)> {
    Seq::new(s.len(), |i: int| (s[i].0@, s[i].1))
}

/// `s` with `(k, v)` stored in key order, replacing any entry under `k`.
pub open spec fn sorted_insert<V>(s: Seq<(Seq<char>, V)>, k: Seq<char>, v: V) -> Seq<(Seq<char>, V)>
    decreases s.len(),
{
    if s.len() == 0 {
        seq![(k, v)]
    } else if s[0].0 == k {
        seq![(k, v)] + s.drop_first()
    } else if key_lt(k, s[0].0) {
        seq![(k, v)] + s
    } else {
        seq![s[0]] + sorted_insert(s.drop_first(), k, v)
    }
}

proof fn lemma_sorted_insert_at<V>(s: Seq<(Seq<char>, V)>, k: Seq<char>, v: V, p: int)
    requires
        0 <= p <= s.len(),
        forall|j: int| 0 <= j < p ==> key_lt(#[trigger] s[j].0, k),
        p < s.len() ==> s[p].0 == k || key_lt(k, s[p].0),
    ensures
        p < s.len() && s[p].0 == k ==> sorted_insert(s, k, v) == s.update(p, (k, v)),
        !(p < s.len() && s[p].0 == k) ==> sorted_insert(s, k, v) == s.insert(p, (k, v)),
    decreases s.len(),
{
    if s.len() == 0 {
        assert(s.insert(p, (k, v)) =~= seq![(k, v)]);
    } else if p == 0 {
        if s[0].0 == k {
            assert(s.update(0, (k, v)) =~= seq![(k, v)] + s.drop_first());
        } else {
            assert(s.insert(0, (k, v)) =~= seq![(k, v)] + s);
        }
    } else {
        let t = s.drop_first();
        if s[0].0 == k {
            lemma_key_lt_irreflexive(k);
        }
        if key_lt(k, s[0].0) {
            lemma_key_lt_irreflexive(k);
            lemma_key_lt_transitive(k, s[0].0, k);
        }
        assert forall|j: int| 0 <= j < p - 1 implies key_lt(#[trigger] t[j].0, k) by {
            assert(t[j] == s[j + 1]);
        }
        lemma_sorted_insert_at(t, k, v, p - 1);
        if p < s.len() && s[p].0 == k {
            assert(s.update(p, (k, v)) =~= seq![s[0]] + t.update(p - 1, (k, v)));
        } else {
            assert(s.insert(p, (k, v)) =~= seq![s[0]] + t.insert(p - 1, (k, v)));
        }
    }
}

/// `s` without its entry under `k`, if any.
pub open spec fn sorted_delete<V>(s: Seq<(Seq<char>, V)>, k: Seq<char>) -> Seq<(Seq<char>, V)>
    decreases s.len(),
{
    if s.len() == 0 {
        s
    } else if s[0].0 == k {
        s.drop_first()
    } else {
        seq![s[0]] + sorted_delete(s.drop_first(), k)
    }
}

proof fn lemma_drop_first_increasing<V>(s: Seq<(Seq<char>, V)>)
    requires
        keys_increasing(s),
        s.len() > 0,
    ensures
        keys_increasing(s.drop_first()),
{
    let t = s.drop_first();
    assert forall|i: int, j: int| 0 <= i < j < t.len() implies key_lt(
        #[trigger] t[i].0,
        #[trigger] t[j].0,
    ) by {
        assert(t[i] == s[i + 1]);
        assert(t[j] == s[j + 1]);
    }
}

proof fn lemma_sorted_delete_at<V>(s: Seq<(Seq<char>, V)>, k: Seq<char>, p: int)
    requires
        keys_increasing(s),
        0 <= p < s.len(),
        s[p].0 == k,
    ensures
        sorted_delete(s, k) == s.remove(p),
    decreases s.len(),
{
    if p == 0 {
        assert(s.drop_first() =~= s.remove(0));
    } else {
        assert(key_lt(s[0].0, s[p].0));
        if s[0].0 == k {
            lemma_key_lt_irreflexive(k);
        }
        lemma_drop_first_increasing(s);
        lemma_sorted_delete_at(s.drop_first(), k, p - 1);
        assert(seq![s[0]] + s.drop_first().remove(p - 1) =~= s.remove(p));
    }
}

proof fn lemma_sorted_delete_absent<V>(s: Seq<(Seq<char>, V)>, k: Seq<char>)
    requires
        forall|i: int| 0 <= i < s.len() ==> #[trigger] s[i].0 != k,
    ensures
        sorted_delete(s, k) == s,
    decreases s.len(),
{
    if s.len() > 0 {
        assert(s[0].0 != k);
        assert forall|i: int| 0 <= i < s.drop_first().len() implies #[trigger] s.drop_first()[i].0
            != k by {
            assert(s.drop_first()[i] == s[i + 1]);
        }
        lemma_sorted_delete_absent(s.drop_first(), k);
        assert(seq![s[0]] + s.drop_first() =~= s);
    }
}

/// Inserting the next entry of a key-ordered list into its prefix appends it.
pub proof fn lemma_append_sorted<V>(pre: Seq<(Seq<char>, V)>, k: Seq<char>, v: V, s: Seq<(Seq<char>, V)>, i: int)
    requires
        keys_increasing(s),
        0 <= i < s.len(),
        pre == s.take(i),
        s[i] == (k, v),
    ensures
        sorted_insert(pre, k, v) == pre.push((k, v)),
{
    assert forall|j: int| 0 <= j < i implies key_lt(#[trigger] pre[j].0, k) by {
        assert(pre[j] == s[j]);
        assert(key_lt(s[j].0, s[i].0));
    }
    lemma_sorted_insert_at(pre, k, v, i);
    assert(pre.insert(i, (k, v)) =~= pre.push((k, v)));
}

/// Two key-ordered entry lists that store the same values are the same list.
pub proof fn lemma_sorted_ext<V>(a: Seq<(Seq<char>, V)>, b: Seq<(Seq<char>, V)>)
    requires
        keys_increasing(a),
        keys_increasing(b),
        forall|k: Seq<char>| #[trigger] lookup(a, k) == lookup(b, k),
    ensures
        a == b,
    decreases a.len() + b.len(),
{
    if a.len() == 0 {
        if b.len() > 0 {
            lemma_lookup_index(b, b[0].0, 0);
            assert(lookup(a, b[0].0) is None);
        }
        assert(a =~= b);
    } else {
        lemma_lookup_index(a, a[0].0, 0);
        lemma_lookup_some(b, a[0].0);
        let j = choose|j: int| 0 <= j < b.len() && #[trigger] b[j].0 == a[0].0;
        lemma_lookup_index(b, a[0].0, j);
        if j > 0 {
            lemma_lookup_index(b, b[0].0, 0);
            lemma_lookup_some(a, b[0].0);
            let i = choose|i: int| 0 <= i < a.len() && #[trigger] a[i].0 == b[0].0;
            if i == 0 {
                lemma_key_lt_irreflexive(b[0].0);
            } else {
                lemma_key_lt_transitive(a[0].0, a[i].0, a[0].0);
                lemma_key_lt_irreflexive(a[0].0);
            }
        }
        let ta = a.drop_first();
        let tb = b.drop_first();
        assert forall|k: Seq<char>| #[trigger] lookup(ta, k) == lookup(tb, k) by {
            if k == a[0].0 {
                assert forall|i: int| 0 <= i < ta.len() implies #[trigger] ta[i].0 != k by {
                    assert(ta[i] == a[i + 1]);
                    lemma_key_lt_irreflexive(k);
                }
                assert forall|i: int| 0 <= i < tb.len() implies #[trigger] tb[i].0 != k by {
                    assert(tb[i] == b[i + 1]);
                    lemma_key_lt_irreflexive(k);
                }
                lemma_lookup_absent(ta, k);
                lemma_lookup_absent(tb, k);
            } else {
                lemma_drop_first_lookup(a, k);
                lemma_drop_first_lookup(b, k);
            }
        }
        assert(keys_increasing(ta)) by {
            assert forall|i: int, j2: int| 0 <= i < j2 < ta.len() implies key_lt(
                #[trigger] ta[i].0,
                #[trigger] ta[j2].0,
            ) by {
                assert(ta[i] == a[i + 1]);
                assert(ta[j2] == a[j2 + 1]);
            }
        }
        assert(keys_increasing(tb)) by {
            assert forall|i: int, j2: int| 0 <= i < j2 < tb.len() implies key_lt(
                #[trigger] tb[i].0,
                #[trigger] tb[j2].0,
            ) by {
                assert(tb[i] == b[i + 1]);
                assert(tb[j2] == b[j2 + 1]);
            }
        }
        lemma_sorted_ext(ta, tb);
        assert(a =~= seq![a[0]] + ta);
        assert(b =~= seq![b[0]] + tb);
    }
}

proof fn lemma_drop_first_lookup<V>(a: Seq<(Seq<char>, V)>, k: Seq<char>)
    requires
        a.len() > 0,
        a[0].0 != k,
    ensures
        lookup(a.drop_first(), k) == lookup(a, k),
    decreases a.len(),
{
    if a.len() > 1 {
        assert(a.drop_first().last() == a.last());
        if a.last().0 != k {
            lemma_drop_first_lookup(a.drop_last(), k);
            assert(a.drop_last().drop_first() =~= a.drop_first().drop_last());
            assert(lookup(a, k) == lookup(a.drop_last(), k));
            assert(lookup(a.drop_first(), k) == lookup(a.drop_first().drop_last(), k));
        } else {
            assert(lookup(a, k) == Some(a.last().1));
            assert(lookup(a.drop_first(), k) == Some(a.drop_first().last().1));
        }
    } else {
        assert(a.drop_first().len() == 0);
        assert(a.drop_last().len() == 0);
    }
}

/// Storing `(k, v)` keeps the keys increasing; afterwards `k` holds `v` and
/// every other key holds what it held before.
pub proof fn lemma_sorted_insert<V>(s: Seq<(Seq<char>, V)>, k: Seq<char>, v: V)
    requires
        keys_increasing(s),
    ensures
        keys_increasing(sorted_insert(s, k, v)),
        forall|q: Seq<char>|
            #[trigger] lookup(sorted_insert(s, k, v), q) == if q == k {
                Some(v)
            } else {
                lookup(s, q)
            },
        forall|i: int|
            0 <= i < sorted_insert(s, k, v).len() ==> (#[trigger] sorted_insert(s, k, v)[i]).0 == k
                || has_key(s, sorted_insert(s, k, v)[i].0),
    decreases s.len(),
{
    let r = sorted_insert(s, k, v);
    if s.len() == 0 {
        assert forall|q: Seq<char>| #[trigger] lookup(r, q) == if q == k {
            Some(v)
        } else {
            lookup(s, q)
        } by {
            assert(r == seq![(k, v)]);
            assert(r.last() == (k, v));
            assert(r.drop_last().len() == 0);
            assert(lookup(r.drop_last(), q) is None);
            assert(lookup(s, q) is None);
        }
    } else if s[0].0 == k || key_lt(k, s[0].0) {
        let t = if s[0].0 == k {
            s.drop_first()
        } else {
            s
        };
        assert(r == seq![(k, v)] + t);
        assert forall|i: int, j: int| 0 <= i < j < r.len() implies key_lt(
            #[trigger] r[i].0,
            #[trigger] r[j].0,
        ) by {
            if s[0].0 == k {
                assert(r[j] == s[j]);
                if i > 0 {
                    assert(r[i] == s[i]);
                }
            } else {
                assert(r[j] == s[j - 1]);
                if i > 0 {
                    assert(r[i] == s[i - 1]);
                } else if j - 1 > 0 {
                    lemma_key_lt_transitive(k, s[0].0, s[j - 1].0);
                }
            }
        }
        assert forall|q: Seq<char>| #[trigger] lookup(r, q) == if q == k {
            Some(v)
        } else {
            lookup(s, q)
        } by {
            if q == k {
                lemma_lookup_index(r, q, 0);
            } else {
                lemma_drop_first_lookup(r, q);
                assert(r.drop_first() == t);
                if s[0].0 == k {
                    lemma_drop_first_lookup(s, q);
                }
            }
        }
        assert forall|i: int| 0 <= i < r.len() implies (#[trigger] r[i]).0 == k || has_key(
            s,
            r[i].0,
        ) by {
            if i > 0 {
                if s[0].0 == k {
                    assert(r[i] == s[i]);
                } else {
                    assert(r[i] == s[i - 1]);
                }
            }
        }
    } else {
        let t = s.drop_first();
        lemma_drop_first_increasing(s);
        lemma_sorted_insert(t, k, v);
        let rt = sorted_insert(t, k, v);
        assert(r == seq![s[0]] + rt);
        if !key_lt(s[0].0, k) {
            lemma_key_lt_total(s[0].0, k);
        }
        assert forall|i: int| 0 <= i < r.len() implies (#[trigger] r[i]).0 == k || has_key(
            s,
            r[i].0,
        ) by {
            if i > 0 {
                assert(r[i] == rt[i - 1]);
                if rt[i - 1].0 != k {
                    let j = choose|j: int| 0 <= j < t.len() && #[trigger] t[j].0 == rt[i - 1].0;
                    assert(s[j + 1] == t[j]);
                }
            } else {
                assert(s[0].0 == r[0].0);
            }
        }
        assert forall|i: int, j: int| 0 <= i < j < r.len() implies key_lt(
            #[trigger] r[i].0,
            #[trigger] r[j].0,
        ) by {
            assert(r[j] == rt[j - 1]);
            if i > 0 {
                assert(r[i] == rt[i - 1]);
            } else {
                if rt[j - 1].0 != k {
                    let m = choose|m: int| 0 <= m < t.len() && #[trigger] t[m].0 == rt[j - 1].0;
                    assert(t[m] == s[m + 1]);
                }
            }
        }
        assert forall|q: Seq<char>| #[trigger] lookup(r, q) == if q == k {
            Some(v)
        } else {
            lookup(s, q)
        } by {
            if q == s[0].0 {
                lemma_lookup_index(r, q, 0);
                lemma_lookup_index(s, q, 0);
            } else {
                lemma_drop_first_lookup(r, q);
                lemma_drop_first_lookup(s, q);
                assert(r.drop_first() == rt);
            }
        }
    }
}

/// Removing `k` keeps the keys increasing; afterwards `k` holds nothing and
/// every other key holds what it held before.
pub proof fn lemma_sorted_delete<V>(s: Seq<(Seq<char>, V)>, k: Seq<char>)
    requires
        keys_increasing(s),
    ensures
        keys_increasing(sorted_delete(s, k)),
        forall|q: Seq<char>|
            #[trigger] lookup(sorted_delete(s, k), q) == if q == k {
                None
            } else {
                lookup(s, q)
            },
{
    lemma_lookup_some(s, k);
    if has_key(s, k) {
        let p = choose|p: int| 0 <= p < s.len() && #[trigger] s[p].0 == k;
        lemma_sorted_delete_at(s, k, p);
        let ne = s.remove(p);
        assert forall|i: int, j: int| 0 <= i < j < ne.len() implies key_lt(
            #[trigger] ne[i].0,
            #[trigger] ne[j].0,
        ) by {
            if i < p {
                if j >= p {
                    assert(ne[j] == s[j + 1]);
                }
            } else {
                assert(ne[i] == s[i + 1]);
                assert(ne[j] == s[j + 1]);
            }
        }
        assert forall|q: Seq<char>| #[trigger] lookup(ne, q) == if q == k {
            None
        } else {
            lookup(s, q)
        } by {
            if has_key(ne, q) {
                let i = choose|i: int| 0 <= i < ne.len() && #[trigger] ne[i].0 == q;
                lemma_lookup_index(ne, q, i);
                if i < p {
                    assert(ne[i] == s[i]);
                    lemma_lookup_index(s, q, i);
                    if q == k {
                        lemma_key_lt_irreflexive(q);
                    }
                } else {
                    assert(ne[i] == s[i + 1]);
                    lemma_lookup_index(s, q, i + 1);
                    if q == k {
                        lemma_key_lt_irreflexive(q);
                    }
                }
            } else {
                lemma_lookup_some(ne, q);
                if q != k {
                    assert forall|i: int| 0 <= i < s.len() implies #[trigger] s[i].0 != q by {
                        if i < p {
                            assert(ne[i] == s[i]);
                        } else if i > p {
                            assert(ne[i - 1] == s[i]);
                        }
                    }
                    lemma_lookup_absent(s, q);
                }
            }
        }
    } else {
        assert forall|i: int| 0 <= i < s.len() implies #[trigger] s[i].0 != k by {}
        lemma_sorted_delete_absent(s, k);
        lemma_lookup_absent(s, k);
    }
}

/// A map from texts to `V`, its entries in increasing byte order of keys.
#[derive(Debug, PartialEq)]
pub struct TextMap<V> {
    pub(crate) entries: Vec<(String, V)>,
}

impl<V> TextMap<V> {
    /// The entries, keys as texts, in key order.
    pub closed spec fn entries(&self) -> Seq<(Seq<char>, V)> {
        entry_views(self.entries@)
    }

    pub(crate) proof fn lemma_entries_def(&self)
        ensures
            self.entries() == entry_views(self.entries@),
    {
    }

    /// Keys strictly increase: no key occurs twice.
    #[verifier::type_invariant]
    pub open spec fn well_sorted(&self) -> bool {
        keys_increasing(self.entries())
    }

    pub fn new() -> (m: Self)
        ensures
            m.entries() == Seq::<(Seq<char>, V)>::empty(),
    {
        let v: Vec<(String, V)> = Vec::new();
        assert(entry_views(v@) =~= Seq::<(Seq<char>, V)>::empty());
        assert(keys_increasing(entry_views(v@)));
        TextMap { entries: v }
    }

    /// A map holding exactly `entries`, whose keys already increase.
    pub(crate) fn from_sorted(entries: Vec<(String, V)>) -> (m: Self)
        requires
            keys_increasing(entry_views(entries@)),
        ensures
            m.entries() == entry_views(entries@),
    {
        TextMap { entries }
    }

    pub fn len(&self) -> (n: usize)
        ensures
            n == self.entries().len(),
    {
        self.entries.len()
    }

    pub fn is_empty(&self) -> (b: bool)
        ensures
            b == (self.entries().len() == 0),
    {
        self.entries.len() == 0
    }

    /// The key and value at position `i` in key order.
    pub fn entry(&self, i: usize) -> (r: (&String, &V))
        requires
            i < self.entries().len(),
        ensures
            r.0@ == self.entries()[i as int].0,
            *r.1 == self.entries()[i as int].1,
    {
        let e = &self.entries[i];
        (&e.0, &e.1)
    }

    /// The position of `k`, if it is a key.
    pub fn position(&self, k: &str) -> (r: Option<usize>)
        ensures
            r matches Some(i) ==> i < self.entries().len() && self.entries()[i as int].0 == k@,
            r is None ==> !has_key(self.entries(), k@),
    {
        let mut i: usize = 0;
        while i < self.entries.len()
            invariant
                i <= self.entries@.len(),
                forall|j: int| 0 <= j < i ==> #[trigger] self.entries()[j].0 != k@,
            decreases self.entries@.len() - i,
        {
            if crate::erasure::str_eq(self.entries[i].0.as_str(), k) {
                return Some(i);
            }
            i = i + 1;
        }
        None
    }

    pub fn get(&self, k: &str) -> (r: Option<&V>)
        ensures
            match r {
                Some(v) => lookup(self.entries(), k@) == Some(*v),
                None => lookup(self.entries(), k@) is None,
            },
    {
        proof {
            use_type_invariant(self);
        }
        match self.position(k) {
            Some(i) => {
                proof {
                    lemma_lookup_index(self.entries(), k@, i as int);
                }
                Some(&self.entries[i].1)
            },
            None => {
                proof {
                    lemma_lookup_some(self.entries(), k@);
                }
                None
            },
        }
    }

    pub fn contains_key(&self, k: &str) -> (b: bool)
        ensures
            b == (lookup(self.entries(), k@) is Some),
    {
        match self.get(k) {
            Some(_) => true,
            None => false,
        }
    }

    /// Stores `v` under `k`, returning the value it replaces.
    pub fn insert(&mut self, k: String, v: V) -> (r: Option<V>)
        ensures
            r == lookup(old(self).entries(), k@),
            final(self).entries() == sorted_insert(old(self).entries(), k@, v),
            forall|q: Seq<char>|
                #![trigger lookup(final(self).entries(), q)]
                lookup(final(self).entries(), q) == if q == k@ {
                    Some(v)
                } else {
                    lookup(old(self).entries(), q)
                },
            final(self).entries().len() == old(self).entries().len() + if has_key(
                old(self).entries(),
                k@,
            ) {
                0int
            } else {
                1int
            },
    {
        proof {
            use_type_invariant(&*self);
        }
        let ghost e = self.entries();
        let mut p: usize = 0;
        while p < self.entries.len() && slice_lt(
            self.entries[p].0.as_str().as_bytes(),
            k.as_str().as_bytes(),
        )
            invariant
                e == self.entries(),
                keys_increasing(e),
                p <= e.len(),
                forall|j: int| 0 <= j < p ==> key_lt(#[trigger] e[j].0, k@),
            decreases e.len() - p,
        {
            p = p + 1;
        }
        proof {
            lemma_lookup_some(e, k@);
            if p < e.len() && e[p as int].0 != k@ && !key_lt(k@, e[p as int].0) {
                lemma_key_lt_total(k@, e[p as int].0);
            }
            lemma_sorted_insert_at(e, k@, v, p as int);
        }
        if p < self.entries.len() && crate::erasure::str_eq(self.entries[p].0.as_str(), k.as_str()) {
            proof {
                lemma_lookup_index(e, k@, p as int);
            }
            let ghost ne = e.update(p as int, (k@, v));
            let mut entries: Vec<(String, V)> = Vec::new();
            std::mem::swap(&mut entries, &mut self.entries);
            let (_, old_value) = entries.remove(p);
            entries.insert(p, (k, v));
            assert(entry_views(entries@) =~= ne);
            proof {
                assert forall|i: int, j: int| 0 <= i < j < ne.len() implies key_lt(
                    #[trigger] ne[i].0,
                    #[trigger] ne[j].0,
                ) by {
                    assert(ne[i].0 == e[i].0);
                    assert(ne[j].0 == e[j].0);
                }
                assert forall|q: Seq<char>|
                    #![trigger lookup(ne, q)]
                    lookup(ne, q) == if q == k@ {
                        Some(v)
                    } else {
                        lookup(e, q)
                    } by {
                    if q == k@ {
                        lemma_lookup_index(ne, q, p as int);
                    } else if has_key(e, q) {
                        let i = choose|i: int| 0 <= i < e.len() && #[trigger] e[i].0 == q;
                        lemma_lookup_index(e, q, i);
                        lemma_lookup_index(ne, q, i);
                    } else {
                        assert forall|i: int| 0 <= i < ne.len() implies #[trigger] ne[i].0 != q by {
                            assert(ne[i].0 == e[i].0);
                        }
                        lemma_lookup_absent(ne, q);
                        lemma_lookup_some(e, q);
                    }
                }
            }
            self.entries = entries;
            Some(old_value)
        } else {
            proof {
                if p < e.len() {
                    if !key_lt(k@, e[p as int].0) {
                        lemma_key_lt_total(k@, e[p as int].0);
                    }
                }
                assert forall|i: int| 0 <= i < e.len() implies #[trigger] e[i].0 != k@ by {
                    if i < p {
                        lemma_key_lt_irreflexive(k@);
                    } else if i > p {
                        lemma_key_lt_transitive(k@, e[p as int].0, e[i].0);
                        lemma_key_lt_irreflexive(k@);
                    } else {
                        lemma_key_lt_irreflexive(k@);
                    }
                }
                lemma_lookup_absent(e, k@);
            }
            let ghost ne = e.insert(p as int, (k@, v));
            let mut entries: Vec<(String, V)> = Vec::new();
            std::mem::swap(&mut entries, &mut self.entries);
            entries.insert(p, (k, v));
            assert(entry_views(entries@) =~= ne);
            proof {
                assert forall|i: int, j: int| 0 <= i < j < ne.len() implies key_lt(
                    #[trigger] ne[i].0,
                    #[trigger] ne[j].0,
                ) by {
                    if j < p {
                    } else if j == p {
                        assert(ne[i].0 == e[i].0);
                    } else if i < p {
                        assert(ne[j].0 == e[j - 1].0);
                        lemma_key_lt_transitive(e[i].0, k@, e[p as int].0);
                        if j - 1 > p {
                            lemma_key_lt_transitive(e[i].0, e[p as int].0, e[j - 1].0);
                        }
                    } else if i == p {
                        assert(ne[j].0 == e[j - 1].0);
                        if j - 1 > p {
                            lemma_key_lt_transitive(k@, e[p as int].0, e[j - 1].0);
                        }
                    } else {
                        assert(ne[i].0 == e[i - 1].0);
                        assert(ne[j].0 == e[j - 1].0);
                    }
                }
                assert forall|q: Seq<char>|
                    #![trigger lookup(ne, q)]
                    lookup(ne, q) == if q == k@ {
                        Some(v)
                    } else {
                        lookup(e, q)
                    } by {
                    if q == k@ {
                        lemma_lookup_index(ne, q, p as int);
                    } else if has_key(e, q) {
                        let i = choose|i: int| 0 <= i < e.len() && #[trigger] e[i].0 == q;
                        lemma_lookup_index(e, q, i);
                        if i < p {
                            lemma_lookup_index(ne, q, i);
                        } else {
                            assert(ne[i + 1] == e[i]);
                            lemma_lookup_index(ne, q, i + 1);
                        }
                    } else {
                        assert forall|i: int| 0 <= i < ne.len() implies #[trigger] ne[i].0 != q by {
                            if i < p {
                                assert(ne[i] == e[i]);
                            } else if i > p {
                                assert(ne[i] == e[i - 1]);
                            }
                        }
                        lemma_lookup_absent(ne, q);
                        lemma_lookup_some(e, q);
                    }
                }
            }
            self.entries = entries;
            None
        }
    }

    /// Removes the entry under `k`, returning its value.
    pub fn remove(&mut self, k: &str) -> (r: Option<V>)
        ensures
            r == lookup(old(self).entries(), k@),
            final(self).entries() == sorted_delete(old(self).entries(), k@),
            r is None ==> final(self).entries() == old(self).entries(),
            forall|q: Seq<char>|
                #![trigger lookup(final(self).entries(), q)]
                lookup(final(self).entries(), q) == if q == k@ {
                    None
                } else {
                    lookup(old(self).entries(), q)
                },
            final(self).entries().len() == old(self).entries().len() - if has_key(
                old(self).entries(),
                k@,
            ) {
                1int
            } else {
                0int
            },
    {
        proof {
            use_type_invariant(&*self);
        }
        let ghost e = self.entries();
        proof {
            lemma_lookup_some(e, k@);
        }
        match self.position(k) {
            None => {
                proof {
                    lemma_lookup_absent(e, k@);
                    lemma_sorted_delete_absent(e, k@);
                }
                None
            },
            Some(p) => {
                proof {
                    lemma_lookup_index(e, k@, p as int);
                    lemma_sorted_delete_at(e, k@, p as int);
                }
                let ghost ne = e.remove(p as int);
                let mut entries: Vec<(String, V)> = Vec::new();
            std::mem::swap(&mut entries, &mut self.entries);
                let (_, value) = entries.remove(p);
                assert(entry_views(entries@) =~= ne);
                proof {
                    assert forall|i: int, j: int| 0 <= i < j < ne.len() implies key_lt(
                        #[trigger] ne[i].0,
                        #[trigger] ne[j].0,
                    ) by {
                        if i < p {
                            if j < p {
                            } else {
                                assert(ne[j] == e[j + 1]);
                            }
                        } else {
                            assert(ne[i] == e[i + 1]);
                            assert(ne[j] == e[j + 1]);
                        }
                    }
                    assert forall|q: Seq<char>|
                        #![trigger lookup(ne, q)]
                        lookup(ne, q) == if q == k@ {
                            None
                        } else {
                            lookup(e, q)
                        } by {
                        if has_key(ne, q) {
                            let i = choose|i: int| 0 <= i < ne.len() && #[trigger] ne[i].0 == q;
                            lemma_lookup_index(ne, q, i);
                            if i < p {
                                assert(ne[i] == e[i]);
                                lemma_lookup_index(e, q, i);
                                if q == k@ {
                                    lemma_key_lt_irreflexive(q);
                                }
                            } else {
                                assert(ne[i] == e[i + 1]);
                                lemma_lookup_index(e, q, i + 1);
                                if q == k@ {
                                    lemma_key_lt_irreflexive(q);
                                }
                            }
                        } else {
                            lemma_lookup_some(ne, q);
                            if q != k@ {
                                assert forall|i: int| 0 <= i < e.len() implies #[trigger] e[i].0 != q by {
                                    if i < p {
                                        assert(ne[i] == e[i]);
                                    } else if i > p {
                                        assert(ne[i - 1] == e[i]);
                                    }
                                }
                                lemma_lookup_absent(e, q);
                            }
                        }
                    }
                }
                self.entries = entries;
                Some(value)
            },
        }
    }
}

} // verus!
