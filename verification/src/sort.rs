//! Sorting by a key of bytes.

use crate::text::{
    bytes_before, bytes_lt, bytes_lt_irreflexive, bytes_lt_total, bytes_lt_transitive,
};
use vstd::prelude::*;
use vstd::seq_lib::*;

verus! {

/// Something that is sorted by a sequence of bytes.
pub trait Keyed {
    /// What it is sorted by.
    spec fn key(&self) -> Seq<u8>;

    /// What it is sorted by.
    fn key_bytes(&self) -> (r: &[u8])
        ensures
            r@ == self.key(),
    ;
}

/// No element comes before one that stands earlier.
pub open spec fn in_key_order<T: Keyed>(s: Seq<T>) -> bool {
    forall|i: int, j: int|
        0 <= i < j < s.len() ==> !bytes_lt((#[trigger] s[j]).key(), (#[trigger] s[i]).key())
}

/// Sorts a list by its keys.
pub fn sort_by_key<T: Keyed>(items: Vec<T>) -> (r: Vec<T>)
    ensures
        in_key_order(r@),
        forall|i: int, j: int|
            0 <= i < j < r@.len() ==> !bytes_lt((#[trigger] r@[j]).key(), (#[trigger] r@[i]).key()),
        r@.to_multiset() == items@.to_multiset(),
{
    broadcast use group_to_multiset_ensures;

    let ghost all = items@;
    let mut rest = items;
    let mut out: Vec<T> = Vec::new();
    assert(rest@.to_multiset().add(out@.to_multiset()) =~= all.to_multiset());
    while rest.len() > 0
        invariant
            in_key_order(out@),
            rest@.to_multiset().add(out@.to_multiset()) == all.to_multiset(),
        decreases rest.len(),
    {
        let ghost rest0 = rest@;
        let ghost out0 = out@;
        let x = rest.pop().unwrap();
        let mut p: usize = 0;
        while p < out.len() && bytes_before(out[p].key_bytes(), x.key_bytes())
            invariant
                p <= out.len(),
                forall|j: int| 0 <= j < p ==> bytes_lt((#[trigger] out@[j]).key(), x.key()),
            decreases out.len() - p,
        {
            p = p + 1;
        }
        out.insert(p, x);
        proof {
            lemma_insert_in_order(out0, p as int, x);
            assert(rest0 =~= rest@.push(x));
            to_multiset_build(rest@, x);
            to_multiset_insert(out0, p as int, x);
            assert(rest@.to_multiset().add(out@.to_multiset()) =~= rest0.to_multiset().add(
                out0.to_multiset(),
            ));
        }
    }
    assert(rest@ =~= Seq::empty());
    assert(rest@.to_multiset().add(out@.to_multiset()) =~= out@.to_multiset());
    out
}

proof fn lemma_insert_in_order<T: Keyed>(s: Seq<T>, p: int, x: T)
    requires
        in_key_order(s),
        0 <= p <= s.len(),
        forall|j: int| 0 <= j < p ==> bytes_lt((#[trigger] s[j]).key(), x.key()),
        p < s.len() ==> !bytes_lt(s[p].key(), x.key()),
    ensures
        in_key_order(s.insert(p, x)),
{
    let r = s.insert(p, x);
    assert forall|i: int, j: int| 0 <= i < j < r.len() implies !bytes_lt(
        (#[trigger] r[j]).key(),
        (#[trigger] r[i]).key(),
    ) by {
        if j == p {
            assert(r[i] == s[i]);
            if bytes_lt(x.key(), s[i].key()) {
                bytes_lt_transitive(x.key(), s[i].key(), x.key());
            }
        } else if i == p {
            assert(r[j] == s[j - 1]);
            let y = s[j - 1].key();
            if bytes_lt(y, x.key()) && p < j - 1 {
                bytes_lt_total(x.key(), s[p].key());
                if x.key() != s[p].key() {
                    bytes_lt_transitive(y, x.key(), s[p].key());
                }
            }
        } else {
            let a = if i < p {
                i
            } else {
                i - 1
            };
            let b = if j < p {
                j
            } else {
                j - 1
            };
            assert(r[i] == s[a] && r[j] == s[b]);
        }
    }
}

/// The keys increase from each element to the next.
pub open spec fn increasing<A>(s: Seq<A>, key: spec_fn(A) -> Seq<u8>) -> bool {
    forall|i: int, j: int|
        0 <= i < j < s.len() ==> bytes_lt(key(#[trigger] s[i]), key(#[trigger] s[j]))
}

/// There is only one way to put things in the order of their keys, if no two
/// have the same.
pub proof fn order_is_unique<A>(a: Seq<A>, b: Seq<A>, key: spec_fn(A) -> Seq<u8>)
    requires
        increasing(a, key),
        increasing(b, key),
        forall|x: A| a.contains(x) <==> b.contains(x),
    ensures
        a == b,
    decreases a.len(),
{
    if a.len() == 0 {
        if b.len() > 0 {
            assert(b.contains(b[0]));
        }
        assert(a =~= b);
    } else {
        assert(a.contains(a[0]));
        assert(b.len() > 0);
        lemma_same_first(a, b, key);
        let (s, t) = (a.drop_first(), b.drop_first());
        assert forall|x: A| s.contains(x) <==> t.contains(x) by {
            lemma_rest_contains(a, x, key);
            lemma_rest_contains(b, x, key);
        }
        order_is_unique(s, t, key);
        assert(a =~= seq![a[0]] + s);
        assert(b =~= seq![b[0]] + t);
    }
}

proof fn lemma_same_first<A>(a: Seq<A>, b: Seq<A>, key: spec_fn(A) -> Seq<u8>)
    requires
        increasing(a, key),
        increasing(b, key),
        a.len() > 0,
        b.len() > 0,
        forall|x: A| a.contains(x) <==> b.contains(x),
    ensures
        a[0] == b[0],
{
    assert(a.contains(a[0]));
    assert(b.contains(b[0]));
    let k = choose|k: int| 0 <= k < b.len() && b[k] == a[0];
    let m = choose|m: int| 0 <= m < a.len() && a[m] == b[0];
    if k > 0 && m > 0 {
        bytes_lt_transitive(key(a[0]), key(b[0]), key(a[0]));
        bytes_lt_irreflexive(key(a[0]));
    }
}

proof fn lemma_rest_contains<A>(a: Seq<A>, x: A, key: spec_fn(A) -> Seq<u8>)
    requires
        increasing(a, key),
        a.len() > 0,
    ensures
        a.drop_first().contains(x) <==> a.contains(x) && x != a[0],
{
    let s = a.drop_first();
    if s.contains(x) {
        let i = choose|i: int| 0 <= i < s.len() && s[i] == x;
        assert(a[i + 1] == x);
        if x == a[0] {
            bytes_lt_irreflexive(key(x));
        }
    }
    if a.contains(x) && x != a[0] {
        let i = choose|i: int| 0 <= i < a.len() && a[i] == x;
        assert(s[i - 1] == x);
    }
}

} // verus!
