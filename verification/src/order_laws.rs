//! What start orders guarantee.

use crate::order::{
    dependents, distinct_names, edges, edges_upto, freed, in_degree, incoming, is_start_sequence,
    loaded, occurrences, queued, releases, roots, roots_upto, unit_edges, Edge, Node,
};
use vstd::prelude::*;
use vstd::seq_lib::*;
use vstd::set_lib::*;

verus! {

/// The unit at `i` lists the unit at `j` in its `after`.
pub open spec fn comes_after(g: Seq<Node>, i: int, j: int) -> bool {
    g[i].after.contains(g[j].name)
}

/// `c` walks in a circle through `g`: each unit lists the next one, and the
/// last lists the first.
pub open spec fn is_cycle(g: Seq<Node>, c: Seq<int>) -> bool {
    &&& c.len() > 0
    &&& forall|k: int| 0 <= k < c.len() ==> 0 <= #[trigger] c[k] < g.len()
    &&& forall|k: int| 0 <= k < c.len() - 1 ==> comes_after(g, #[trigger] c[k], c[k + 1])
    &&& comes_after(g, c[c.len() - 1], c[0])
}

/// Units wait for each other in a circle.
pub open spec fn has_cycle(g: Seq<Node>) -> bool {
    exists|c: Seq<int>| #[trigger] is_cycle(g, c)
}

proof fn lemma_prefix_of_sum<A>(a: Seq<A>, b: Seq<A>, c: Seq<A>)
    requires
        b.is_prefix_of(c),
    ensures
        (a + b).is_prefix_of(a + c),
{
    assert(a + b =~= (a + c).subrange(0, (a + b).len() as int)) by {
        assert forall|i: int| 0 <= i < (a + b).len() implies (a + b)[i] == #[trigger] (a + c)[i] by {
            if i >= a.len() {
                assert(b[i - a.len()] == c.subrange(0, b.len() as int)[i - a.len()]);
            }
        }
    }
}

proof fn lemma_releases_prefix(g: Seq<Node>, s: Seq<Seq<char>>, k: int)
    requires
        0 <= k <= s.len(),
    ensures
        releases(g, s.take(k)).is_prefix_of(releases(g, s)),
    decreases s.len(),
{
    if k == s.len() {
        assert(s.take(k) =~= s);
    } else {
        lemma_releases_prefix(g, s.drop_last(), k);
        assert(s.drop_last().take(k) =~= s.take(k));
        let (a, b) = (releases(g, s.drop_last()), releases(g, s));
        let p = releases(g, s.take(k));
        assert forall|i: int| 0 <= i < p.len() implies p[i] == #[trigger] b[i] by {
            assert(p[i] == a.subrange(0, p.len() as int)[i]);
        }
        assert(p =~= b.subrange(0, p.len() as int));
    }
}

proof fn lemma_freed_prefix(g: Seq<Node>, r: Seq<Seq<char>>, k: int)
    requires
        0 <= k <= r.len(),
    ensures
        freed(g, r.take(k)).is_prefix_of(freed(g, r)),
    decreases r.len(),
{
    if k == r.len() {
        assert(r.take(k) =~= r);
    } else {
        lemma_freed_prefix(g, r.drop_last(), k);
        assert(r.drop_last().take(k) =~= r.take(k));
        let (a, b) = (freed(g, r.drop_last()), freed(g, r));
        let p = freed(g, r.take(k));
        assert forall|i: int| 0 <= i < p.len() implies p[i] == #[trigger] b[i] by {
            assert(p[i] == a.subrange(0, p.len() as int)[i]);
        }
        assert(p =~= b.subrange(0, p.len() as int));
    }
}

proof fn lemma_queued_prefix(g: Seq<Node>, s: Seq<Seq<char>>, k: int)
    requires
        0 <= k <= s.len(),
    ensures
        queued(g, s.take(k)).is_prefix_of(queued(g, s)),
{
    lemma_releases_prefix(g, s, k);
    let (p, r) = (releases(g, s.take(k)), releases(g, s));
    assert(p =~= r.take(p.len() as int));
    lemma_freed_prefix(g, r, p.len() as int);
    lemma_prefix_of_sum(roots(g), freed(g, p), freed(g, r));
}

/// In a start sequence, the unit at `k` is the one that stands at `k` in the
/// queue when the units before it have been started.
proof fn lemma_turn(g: Seq<Node>, q: Seq<Seq<char>>, k: int)
    requires
        is_start_sequence(g, q),
        0 <= k < q.len(),
    ensures
        queued(g, q.take(k)).len() > k,
        q[k] == queued(g, q.take(k))[k],
{
    lemma_queued_prefix(g, q, k);
    let p = queued(g, q.take(k));
    assert(p.len() > k);
    assert(p[k] == q.subrange(0, p.len() as int)[k]);
}

/// Units have one start sequence: whatever it was computed with, a start
/// order is the same.
pub proof fn start_sequence_unique(g: Seq<Node>, q: Seq<Seq<char>>, r: Seq<Seq<char>>)
    requires
        is_start_sequence(g, q),
        is_start_sequence(g, r),
    ensures
        q == r,
{
    let m = if q.len() < r.len() {
        q.len()
    } else {
        r.len()
    };
    lemma_agree(g, q, r, m);
    if q.len() < r.len() {
        assert(q =~= r.take(q.len() as int));
        lemma_turn(g, r, q.len() as int);
    } else if r.len() < q.len() {
        assert(r =~= q.take(r.len() as int));
        lemma_turn(g, q, r.len() as int);
    } else {
        assert(q =~= q.take(m as int));
        assert(r =~= r.take(m as int));
    }
}

proof fn lemma_agree(g: Seq<Node>, q: Seq<Seq<char>>, r: Seq<Seq<char>>, k: nat)
    requires
        is_start_sequence(g, q),
        is_start_sequence(g, r),
        k <= q.len(),
        k <= r.len(),
    ensures
        q.take(k as int) == r.take(k as int),
    decreases k,
{
    if k > 0 {
        lemma_agree(g, q, r, (k - 1) as nat);
        lemma_turn(g, q, k - 1);
        lemma_turn(g, r, k - 1);
        assert(q.take(k as int) =~= q.take(k - 1).push(q[k - 1]));
        assert(r.take(k as int) =~= r.take(k - 1).push(r[k - 1]));
    }
    assert(q.take(k as int) =~= r.take(k as int));
}

// Edges.

proof fn lemma_unit_edges(g: Seq<Node>, u: Node, k: nat)
    requires
        k <= u.after.len(),
    ensures
        forall|e: Edge| #[trigger]
            unit_edges(g, u, k).contains(e) ==> e.unit == u.name && loaded(g, e.dep)
                && u.after.contains(e.dep),
        forall|j: int|
            0 <= j < k && loaded(g, #[trigger] u.after[j]) ==> unit_edges(g, u, k).contains(
                Edge { dep: u.after[j], unit: u.name },
            ),
    decreases k,
{
    if k > 0 {
        lemma_unit_edges(g, u, (k - 1) as nat);
        let before = unit_edges(g, u, (k - 1) as nat);
        let now = unit_edges(g, u, k);
        let dep = u.after[k - 1];
        assert forall|e: Edge| #[trigger] now.contains(e) implies e.unit == u.name && loaded(
            g,
            e.dep,
        ) && u.after.contains(e.dep) by {
            let i = choose|i: int| 0 <= i < now.len() && now[i] == e;
            if i < before.len() {
                assert(before[i] == e);
                assert(before.contains(e));
            }
        }
        assert forall|j: int| 0 <= j < k && loaded(g, #[trigger] u.after[j]) implies now.contains(
            Edge { dep: u.after[j], unit: u.name },
        ) by {
            let e = Edge { dep: u.after[j], unit: u.name };
            if j < k - 1 {
                assert(before.contains(e));
                let i = choose|i: int| 0 <= i < before.len() && before[i] == e;
                assert(now[i] == e);
            } else {
                assert(now[now.len() - 1] == e);
            }
        }
    }
}

proof fn lemma_edges_upto(g: Seq<Node>, i: nat)
    requires
        i <= g.len(),
    ensures
        forall|e: Edge| #[trigger]
            edges_upto(g, i).contains(e) ==> loaded(g, e.dep) && exists|u: int|
                0 <= u < i && (#[trigger] g[u]).name == e.unit && g[u].after.contains(e.dep),
        forall|u: int, j: int|
            0 <= u < i && 0 <= j < g[u].after.len() && loaded(g, #[trigger] g[u].after[j])
                ==> edges_upto(g, i).contains(Edge { dep: g[u].after[j], unit: g[u].name }),
    decreases i,
{
    if i > 0 {
        lemma_edges_upto(g, (i - 1) as nat);
        let before = edges_upto(g, (i - 1) as nat);
        let now = edges_upto(g, i);
        let last = g[i - 1];
        let own = unit_edges(g, last, last.after.len());
        lemma_unit_edges(g, last, last.after.len());
        assert forall|e: Edge| #[trigger] now.contains(e) implies loaded(g, e.dep) && exists|u: int|
            0 <= u < i && (#[trigger] g[u]).name == e.unit && g[u].after.contains(e.dep) by {
            let k = choose|k: int| 0 <= k < now.len() && now[k] == e;
            if k < before.len() {
                assert(before[k] == e);
                assert(before.contains(e));
            } else {
                assert(own[k - before.len()] == e);
                assert(own.contains(e));
                assert(g[i - 1].name == e.unit);
            }
        }
        assert forall|u: int, j: int|
            0 <= u < i && 0 <= j < g[u].after.len() && loaded(
                g,
                #[trigger] g[u].after[j],
            ) implies now.contains(Edge { dep: g[u].after[j], unit: g[u].name }) by {
            let e = Edge { dep: g[u].after[j], unit: g[u].name };
            if u < i - 1 {
                assert(before.contains(e));
                let k = choose|k: int| 0 <= k < before.len() && before[k] == e;
                assert(now[k] == e);
            } else {
                assert(own.contains(e));
                let k = choose|k: int| 0 <= k < own.len() && own[k] == e;
                assert(now[before.len() + k] == e);
            }
        }
    }
}

proof fn lemma_incoming_positive(es: Seq<Edge>, d: Seq<char>)
    ensures
        incoming(es, d) > 0 <==> exists|k: int| 0 <= k < es.len() && (#[trigger] es[k]).unit == d,
    decreases es.len(),
{
    if es.len() > 0 {
        lemma_incoming_positive(es.drop_last(), d);
        let t = es.drop_last();
        if incoming(t, d) > 0 {
            let k = choose|k: int| 0 <= k < t.len() && (#[trigger] t[k]).unit == d;
            assert(es[k].unit == d);
        }
        if es.last().unit == d {
            assert(es[es.len() - 1].unit == d);
        }
        if exists|k: int| 0 <= k < es.len() && (#[trigger] es[k]).unit == d {
            let k = choose|k: int| 0 <= k < es.len() && (#[trigger] es[k]).unit == d;
            if k < t.len() {
                assert(t[k].unit == d);
            }
        }
    }
}

/// How many of the edges lead from one of `from` to `d`.
spec fn incoming_from(es: Seq<Edge>, from: Seq<Seq<char>>, d: Seq<char>) -> nat
    decreases es.len(),
{
    if es.len() == 0 {
        0
    } else {
        incoming_from(es.drop_last(), from, d) + if es.last().unit == d && from.contains(
            es.last().dep,
        ) {
            1nat
        } else {
            0nat
        }
    }
}

proof fn lemma_incoming_from_bound(es: Seq<Edge>, from: Seq<Seq<char>>, d: Seq<char>)
    ensures
        incoming_from(es, from, d) <= incoming(es, d),
        incoming_from(es, from, d) == incoming(es, d) <==> forall|k: int|
            0 <= k < es.len() && (#[trigger] es[k]).unit == d ==> from.contains(es[k].dep),
    decreases es.len(),
{
    if es.len() > 0 {
        let t = es.drop_last();
        lemma_incoming_from_bound(t, from, d);
        let all_t = forall|k: int|
            0 <= k < t.len() && (#[trigger] t[k]).unit == d ==> from.contains(t[k].dep);
        let all_e = forall|k: int|
            0 <= k < es.len() && (#[trigger] es[k]).unit == d ==> from.contains(es[k].dep);
        if all_e {
            assert forall|k: int| 0 <= k < t.len() && (#[trigger] t[k]).unit == d implies from.contains(
                t[k].dep,
            ) by {
                assert(es[k] == t[k]);
            }
            assert(es[es.len() - 1] == es.last());
        }
        if all_t && (es.last().unit == d ==> from.contains(es.last().dep)) {
            assert forall|k: int| 0 <= k < es.len() && (#[trigger] es[k]).unit == d implies from.contains(
                es[k].dep,
            ) by {
                if k < t.len() {
                    assert(t[k] == es[k]);
                }
            }
        }
    }
}

proof fn lemma_occurrences_sum(a: Seq<Seq<char>>, b: Seq<Seq<char>>, d: Seq<char>)
    ensures
        occurrences(a + b, d) == occurrences(a, d) + occurrences(b, d),
    decreases b.len(),
{
    if b.len() == 0 {
        assert(a + b =~= a);
    } else {
        lemma_occurrences_sum(a, b.drop_last(), d);
        assert((a + b).drop_last() =~= a + b.drop_last());
    }
}

proof fn lemma_incoming_from_push(es: Seq<Edge>, from: Seq<Seq<char>>, n: Seq<char>, d: Seq<char>)
    requires
        !from.contains(n),
    ensures
        incoming_from(es, from.push(n), d) == incoming_from(es, from, d) + occurrences(
            dependents(es, n),
            d,
        ),
    decreases es.len(),
{
    if es.len() > 0 {
        lemma_incoming_from_push(es.drop_last(), from, n, d);
        let e = es.last();
        let p = from.push(n);
        assert(p.contains(e.dep) <==> from.contains(e.dep) || e.dep == n) by {
            if from.contains(e.dep) {
                let i = choose|i: int| 0 <= i < from.len() && from[i] == e.dep;
                assert(p[i] == e.dep);
            }
            assert(p[from.len() as int] == n);
        }
        if e.dep == n {
            let before = dependents(es.drop_last(), n);
            assert(dependents(es, n).drop_last() =~= before);
        }
    }
}

/// With nothing started twice, a unit has been released once for every edge
/// from a started unit.
proof fn lemma_release_count(g: Seq<Node>, started: Seq<Seq<char>>, d: Seq<char>)
    requires
        started.no_duplicates(),
    ensures
        occurrences(releases(g, started), d) == incoming_from(edges(g), started, d),
    decreases started.len(),
{
    let es = edges(g);
    if started.len() == 0 {
        lemma_incoming_from_none(es, started, d);
    } else {
        let (s, n) = (started.drop_last(), started.last());
        assert(!s.contains(n)) by {
            if s.contains(n) {
                let i = choose|i: int| 0 <= i < s.len() && s[i] == n;
                assert(started[i] == started[started.len() - 1]);
            }
        }
        assert(s.no_duplicates());
        lemma_release_count(g, s, d);
        assert(s.push(n) =~= started);
        lemma_incoming_from_push(es, s, n, d);
        lemma_occurrences_sum(releases(g, s), dependents(es, n), d);
    }
}

proof fn lemma_incoming_from_none(es: Seq<Edge>, from: Seq<Seq<char>>, d: Seq<char>)
    requires
        from.len() == 0,
    ensures
        incoming_from(es, from, d) == 0,
    decreases es.len(),
{
    if es.len() > 0 {
        lemma_incoming_from_none(es.drop_last(), from, d);
    }
}

proof fn lemma_freed(g: Seq<Node>, r: Seq<Seq<char>>)
    ensures
        freed(g, r).no_duplicates(),
        forall|d: Seq<char>| #[trigger]
            freed(g, r).contains(d) <==> in_degree(g, d) >= 1 && occurrences(r, d) >= in_degree(g, d),
    decreases r.len(),
{
    if r.len() == 0 {
        assert forall|d: Seq<char>| #[trigger] freed(g, r).contains(d) <==> in_degree(g, d) >= 1
            && occurrences(r, d) >= in_degree(g, d) by {}
    } else {
        let t = r.drop_last();
        lemma_freed(g, t);
        let (before, now, last) = (freed(g, t), freed(g, r), r.last());
        assert forall|d: Seq<char>| #[trigger] now.contains(d) <==> in_degree(g, d) >= 1
            && occurrences(r, d) >= in_degree(g, d) by {
            assert(before.contains(d) <==> in_degree(g, d) >= 1 && occurrences(t, d) >= in_degree(
                g,
                d,
            ));
            assert(now.contains(d) <==> before.contains(d) || (now.len() > before.len() && d
                == last)) by {
                if before.contains(d) {
                    let i = choose|i: int| 0 <= i < before.len() && before[i] == d;
                    assert(now[i] == d);
                }
                if now.len() > before.len() {
                    assert(now[before.len() as int] == last);
                }
                if now.contains(d) {
                    let i = choose|i: int| 0 <= i < now.len() && now[i] == d;
                    if i < before.len() {
                        assert(before[i] == d);
                    }
                }
            }
        }
        assert(now.no_duplicates()) by {
            if now.len() > before.len() {
                assert(!before.contains(last));
                assert forall|i: int, j: int| 0 <= i < now.len() && 0 <= j < now.len() && i
                    != j implies now[i] != now[j] by {
                    if i < before.len() && j < before.len() {
                        assert(before[i] != before[j]);
                    } else if i < before.len() {
                        assert(before[i] == now[i]);
                    } else {
                        assert(before[j] == now[j]);
                    }
                }
            }
        }
    }
}

proof fn lemma_roots(g: Seq<Node>, i: nat)
    requires
        i <= g.len(),
    ensures
        forall|d: Seq<char>| #[trigger]
            roots_upto(g, i).contains(d) <==> in_degree(g, d) == 0 && exists|u: int|
                0 <= u < i && (#[trigger] g[u]).name == d,
        distinct_names(g) ==> roots_upto(g, i).no_duplicates(),
    decreases i,
{
    if i == 0 {
        assert(roots_upto(g, i).len() == 0);
    } else {
        lemma_roots(g, (i - 1) as nat);
        let (before, now, last) = (roots_upto(g, (i - 1) as nat), roots_upto(g, i), g[i - 1].name);
        assert forall|d: Seq<char>| #[trigger] now.contains(d) <==> in_degree(g, d) == 0 && exists|
            u: int,
        |
            0 <= u < i && (#[trigger] g[u]).name == d by {
            assert(now.contains(d) <==> before.contains(d) || (now.len() > before.len() && d
                == last)) by {
                if before.contains(d) {
                    let k = choose|k: int| 0 <= k < before.len() && before[k] == d;
                    assert(now[k] == d);
                }
                if now.len() > before.len() {
                    assert(now[before.len() as int] == last);
                }
                if now.contains(d) {
                    let k = choose|k: int| 0 <= k < now.len() && now[k] == d;
                    if k < before.len() {
                        assert(before[k] == d);
                    }
                }
            }
            if d == last {
                assert(g[i - 1].name == d);
            }
        }
        if distinct_names(g) && now.len() > before.len() {
            assert(!before.contains(last)) by {
                if before.contains(last) {
                    let u = choose|u: int| 0 <= u < i - 1 && (#[trigger] g[u]).name == last;
                    assert(g[u].name != g[i - 1].name);
                }
            }
            assert forall|a: int, b: int| 0 <= a < now.len() && 0 <= b < now.len() && a
                != b implies now[a] != now[b] by {
                if a < before.len() && b < before.len() {
                    assert(before[a] != before[b]);
                } else if a < before.len() {
                    assert(before[a] == now[a]);
                } else {
                    assert(before[b] == now[b]);
                }
            }
        }
    }
}

/// A start sequence of distinct units holds no name twice, and only names of
/// units.
proof fn lemma_sequence_names(g: Seq<Node>, q: Seq<Seq<char>>)
    requires
        distinct_names(g),
        is_start_sequence(g, q),
    ensures
        q.no_duplicates(),
        forall|k: int| 0 <= k < q.len() ==> loaded(g, #[trigger] q[k]),
{
    let r = roots(g);
    let f = freed(g, releases(g, q));
    lemma_roots(g, g.len());
    lemma_freed(g, releases(g, q));
    lemma_edges_upto(g, g.len());
    assert forall|i: int, j: int| 0 <= i < r.len() && 0 <= j < f.len() implies r[i] != f[j] by {
        assert(r.contains(r[i]));
        assert(f.contains(f[j]));
    }
    lemma_no_dup_in_concat(r, f);
    assert forall|k: int| 0 <= k < q.len() implies loaded(g, #[trigger] q[k]) by {
        if k < r.len() {
            assert(r.contains(r[k]));
        } else {
            let d = f[k - r.len()];
            assert(f.contains(d));
            lemma_incoming_positive(edges(g), d);
            let e = choose|e: int| 0 <= e < edges(g).len() && (#[trigger] edges(g)[e]).unit == d;
            assert(edges(g).contains(edges(g)[e]));
        }
    }
}

/// What the unit at position `p` of a start sequence lists and is loaded
/// stands before `p`.
proof fn lemma_deps_before(g: Seq<Node>, q: Seq<Seq<char>>, p: int, i: int, j: int)
    requires
        distinct_names(g),
        is_start_sequence(g, q),
        0 <= p < q.len(),
        0 <= i < g.len(),
        q[p] == g[i].name,
        0 <= j < g[i].after.len(),
        loaded(g, g[i].after[j]),
    ensures
        q.take(p).contains(g[i].after[j]),
{
    let (d, dep) = (g[i].name, g[i].after[j]);
    let es = edges(g);
    lemma_edges_upto(g, g.len());
    assert(es.contains(Edge { dep, unit: d }));
    let e = choose|e: int| 0 <= e < es.len() && es[e] == (Edge { dep, unit: d });
    assert(es[e].unit == d);
    lemma_incoming_positive(es, d);
    lemma_roots(g, g.len());
    lemma_turn(g, q, p);
    let s = q.take(p);
    let rel = releases(g, s);
    lemma_freed(g, rel);
    if p < roots(g).len() {
        assert(roots(g).contains(roots(g)[p]));
    }
    assert(freed(g, rel)[p - roots(g).len()] == d);
    assert(freed(g, rel).contains(d));
    lemma_sequence_names(g, q);
    assert(s.no_duplicates());
    lemma_release_count(g, s, d);
    lemma_incoming_from_bound(es, s, d);
    assert(s.contains(es[e].dep));
}

/// A start order of units with distinct names holds each of them exactly once,
/// and each after every loaded unit that it lists.
pub proof fn start_order_respects_after(g: Seq<Node>, q: Seq<Seq<char>>)
    requires
        distinct_names(g),
        is_start_sequence(g, q),
        q.len() == g.len(),
    ensures
        q.no_duplicates(),
        forall|n: Seq<char>| #[trigger] q.contains(n) <==> loaded(g, n),
        forall|p: int, r: int, i: int|
            0 <= p < q.len() && 0 <= r < q.len() && 0 <= i < g.len() && #[trigger] q[p]
                == (#[trigger] g[i]).name && g[i].after.contains(#[trigger] q[r]) ==> r < p,
{
    lemma_sequence_names(g, q);
    let names = g.map_values(|n: Node| n.name);
    assert(names.no_duplicates()) by {
        assert forall|a: int, b: int| 0 <= a < names.len() && 0 <= b < names.len() && a
            != b implies names[a] != names[b] by {
            if a < b {
                assert(g[a].name != g[b].name);
            } else {
                assert(g[b].name != g[a].name);
            }
        }
    }
    names.unique_seq_to_set();
    q.unique_seq_to_set();
    seq_to_set_is_finite(names);
    seq_to_set_is_finite(q);
    assert(q.to_set().subset_of(names.to_set())) by {
        assert forall|n: Seq<char>| q.to_set().contains(n) implies names.to_set().contains(n) by {
            let k = choose|k: int| 0 <= k < q.len() && q[k] == n;
            assert(loaded(g, q[k]));
            let i = choose|i: int| 0 <= i < g.len() && (#[trigger] g[i]).name == n;
            assert(names[i] == n);
        }
    }
    lemma_subset_equality(q.to_set(), names.to_set());
    assert forall|n: Seq<char>| #[trigger] q.contains(n) <==> loaded(g, n) by {
        assert(q.to_set().contains(n) <==> names.to_set().contains(n));
        if loaded(g, n) {
            let i = choose|i: int| 0 <= i < g.len() && (#[trigger] g[i]).name == n;
            assert(names[i] == n);
        }
        if q.contains(n) {
            let k = choose|k: int| 0 <= k < q.len() && q[k] == n;
            assert(loaded(g, q[k]));
        }
    }
    assert forall|p: int, r: int, i: int|
        0 <= p < q.len() && 0 <= r < q.len() && 0 <= i < g.len() && #[trigger] q[p]
            == (#[trigger] g[i]).name && g[i].after.contains(#[trigger] q[r]) implies r < p by {
        let j = choose|j: int| 0 <= j < g[i].after.len() && g[i].after[j] == q[r];
        assert(loaded(g, q[r]));
        lemma_deps_before(g, q, p, i, j);
        let k = choose|k: int| 0 <= k < q.take(p).len() && q.take(p)[k] == q[r];
        assert(q[k] == q[r]);
    }
}

/// A unit that is left out of a start sequence lists a loaded unit that is
/// left out too.
proof fn lemma_stuck(g: Seq<Node>, q: Seq<Seq<char>>, i: int) -> (j: int)
    requires
        distinct_names(g),
        is_start_sequence(g, q),
        0 <= i < g.len(),
        !q.contains(g[i].name),
    ensures
        0 <= j < g.len(),
        !q.contains(g[j].name),
        comes_after(g, i, j),
{
    let d = g[i].name;
    let es = edges(g);
    let rel = releases(g, q);
    lemma_sequence_names(g, q);
    lemma_roots(g, g.len());
    lemma_freed(g, rel);
    lemma_release_count(g, q, d);
    lemma_incoming_from_bound(es, q, d);
    lemma_edges_upto(g, g.len());
    if roots(g).contains(d) {
        let k = choose|k: int| 0 <= k < roots(g).len() && roots(g)[k] == d;
        assert(q[k] == d);
    }
    if freed(g, rel).contains(d) {
        let k = choose|k: int| 0 <= k < freed(g, rel).len() && freed(g, rel)[k] == d;
        assert(q[roots(g).len() + k] == d);
    }
    assert(in_degree(g, d) >= 1);
    assert(incoming_from(es, q, d) != incoming(es, d));
    let e = choose|e: int|
        0 <= e < es.len() && (#[trigger] es[e]).unit == d && !q.contains(es[e].dep);
    assert(es.contains(es[e]));
    let u = choose|u: int|
        0 <= u < g.len() && (#[trigger] g[u]).name == d && g[u].after.contains(es[e].dep);
    assert(u == i) by {
        if u < i {
            assert(g[u].name != g[i].name);
        } else if i < u {
            assert(g[i].name != g[u].name);
        }
    }
    let j = choose|j: int| 0 <= j < g.len() && (#[trigger] g[j]).name == es[e].dep;
    j
}

/// A walk of `n + 1` units that are left out, each listing the next.
proof fn lemma_walk(g: Seq<Node>, q: Seq<Seq<char>>, i: int, n: nat) -> (w: Seq<int>)
    requires
        distinct_names(g),
        is_start_sequence(g, q),
        0 <= i < g.len(),
        !q.contains(g[i].name),
    ensures
        w.len() == n + 1,
        forall|k: int|
            0 <= k < w.len() ==> 0 <= #[trigger] w[k] < g.len() && !q.contains(g[w[k]].name),
        forall|k: int| 0 <= k < w.len() - 1 ==> comes_after(g, #[trigger] w[k], w[k + 1]),
    decreases n,
{
    if n == 0 {
        seq![i]
    } else {
        let v = lemma_walk(g, q, i, (n - 1) as nat);
        let last = v[v.len() - 1];
        let j = lemma_stuck(g, q, last);
        let w = v.push(j);
        assert forall|k: int| 0 <= k < w.len() - 1 implies comes_after(
            g,
            #[trigger] w[k],
            w[k + 1],
        ) by {
            assert(w[k] == v[k]);
            if k < v.len() - 1 {
                assert(w[k + 1] == v[k + 1]);
            }
        }
        w
    }
}

proof fn lemma_pigeonhole(w: Seq<int>, n: nat)
    requires
        w.len() > n,
        forall|k: int| 0 <= k < w.len() ==> 0 <= #[trigger] w[k] < n,
    ensures
        !w.no_duplicates(),
{
    if w.no_duplicates() {
        w.unique_seq_to_set();
        lemma_int_range(0, n as int);
        let all = set_int_range(0, n as int);
        assert(w.to_set().subset_of(all)) by {
            assert forall|x: int| w.to_set().contains(x) implies all.contains(x) by {
                let k = choose|k: int| 0 <= k < w.len() && w[k] == x;
                assert(0 <= w[k] < n);
            }
        }
        lemma_len_subset(w.to_set(), all);
    }
}

proof fn lemma_position_falls(
    g: Seq<Node>,
    q: Seq<Seq<char>>,
    c: Seq<int>,
    pos: spec_fn(int) -> int,
    k: nat,
)
    requires
        k < c.len(),
        forall|m: int| 0 <= m < c.len() - 1 ==> pos(#[trigger] c[m + 1]) < pos(c[m]),
    ensures
        pos(c[k as int]) <= pos(c[0]) - k,
    decreases k,
{
    if k > 0 {
        lemma_position_falls(g, q, c, pos, (k - 1) as nat);
        assert(pos(c[(k - 1) + 1]) < pos(c[k - 1]));
    }
}

/// Units with distinct names can be put in a start order exactly if they do
/// not wait for each other in a circle.
pub proof fn start_order_exists_unless_cycle(g: Seq<Node>, q: Seq<Seq<char>>)
    requires
        distinct_names(g),
        is_start_sequence(g, q),
    ensures
        q.len() == g.len() <==> !has_cycle(g),
{
    if q.len() == g.len() {
        start_order_respects_after(g, q);
        if has_cycle(g) {
            let c = choose|c: Seq<int>| #[trigger] is_cycle(g, c);
            let pos = |i: int| q.index_of(g[i].name);
            assert forall|i: int| 0 <= i < g.len() implies 0 <= #[trigger] pos(i) < q.len()
                && q[pos(i)] == g[i].name by {
                assert(loaded(g, g[i].name));
                assert(q.contains(g[i].name));
            }
            assert forall|m: int| 0 <= m < c.len() - 1 implies pos(#[trigger] c[m + 1]) < pos(
                c[m],
            ) by {
                assert(comes_after(g, c[m], c[m + 1]));
                let (a, b) = (c[m], c[m + 1]);
                assert(q[pos(a)] == g[a].name && q[pos(b)] == g[b].name);
                assert(g[a].after.contains(q[pos(b)]));
            }
            lemma_position_falls(g, q, c, pos, (c.len() - 1) as nat);
            let (a, b) = (c[c.len() - 1], c[0]);
            assert(q[pos(a)] == g[a].name && q[pos(b)] == g[b].name);
            assert(g[a].after.contains(q[pos(b)]));
        }
    } else {
        lemma_sequence_names(g, q);
        let left_out = exists|i: int| 0 <= i < g.len() && !q.contains((#[trigger] g[i]).name);
        assert(left_out) by {
            if !left_out {
                lemma_all_named(g, q);
            }
        }
        let i = choose|i: int| 0 <= i < g.len() && !q.contains((#[trigger] g[i]).name);
        let w = lemma_walk(g, q, i, g.len());
        lemma_pigeonhole(w, g.len());
        let (a, b) = choose|a: int, b: int|
            0 <= a < w.len() && 0 <= b < w.len() && a != b && w[a] == w[b];
        let (a, b) = if a < b {
            (a, b)
        } else {
            (b, a)
        };
        let c = w.subrange(a, b);
        assert forall|k: int| 0 <= k < c.len() - 1 implies comes_after(
            g,
            #[trigger] c[k],
            c[k + 1],
        ) by {
            assert(comes_after(g, w[a + k], w[a + k + 1]));
        }
        assert(comes_after(g, w[b - 1], w[b - 1 + 1]));
        assert(is_cycle(g, c));
    }
}

proof fn lemma_all_named(g: Seq<Node>, q: Seq<Seq<char>>)
    requires
        distinct_names(g),
        q.no_duplicates(),
        forall|k: int| 0 <= k < q.len() ==> loaded(g, #[trigger] q[k]),
        forall|i: int| 0 <= i < g.len() ==> q.contains((#[trigger] g[i]).name),
    ensures
        q.len() == g.len(),
{
    let names = g.map_values(|n: Node| n.name);
    assert forall|a: int, b: int| 0 <= a < names.len() && 0 <= b < names.len() && a
        != b implies names[a] != names[b] by {
        if a < b {
            assert(g[a].name != g[b].name);
        } else {
            assert(g[b].name != g[a].name);
        }
    }
    names.unique_seq_to_set();
    q.unique_seq_to_set();
    assert(q.to_set() =~= names.to_set()) by {
        assert forall|n: Seq<char>| q.to_set().contains(n) <==> names.to_set().contains(n) by {
            if q.contains(n) {
                let k = choose|k: int| 0 <= k < q.len() && q[k] == n;
                assert(loaded(g, q[k]));
                let i = choose|i: int| 0 <= i < g.len() && (#[trigger] g[i]).name == n;
                assert(names[i] == n);
            }
            if names.contains(n) {
                let i = choose|i: int| 0 <= i < names.len() && names[i] == n;
                assert(q.contains(g[i].name));
            }
        }
    }
}

// What is listed counts, not how.

/// The same units in the same order, each of which lists the same loaded units
/// as in the other, however often, in whatever order, and whatever else.
pub open spec fn same_dependencies(g: Seq<Node>, h: Seq<Node>) -> bool {
    &&& g.len() == h.len()
    &&& forall|i: int| 0 <= i < g.len() ==> (#[trigger] g[i]).name == (#[trigger] h[i]).name
    &&& forall|i: int, n: Seq<char>|
        0 <= i < g.len() && loaded(g, n) ==> (#[trigger] g[i].after.contains(n)
            <==> #[trigger] h[i].after.contains(n))
}

/// Every loaded unit that `u` lists has been started.
spec fn satisfied(g: Seq<Node>, u: Node, started: Seq<Seq<char>>) -> bool {
    forall|n: Seq<char>| loaded(g, n) && #[trigger] u.after.contains(n) ==> started.contains(n)
}

/// Which of the first `i` units wait for the last started unit and for nothing
/// else.
spec fn ready_upto(g: Seq<Node>, started: Seq<Seq<char>>, i: nat) -> Seq<Seq<char>>
    decreases i,
{
    if i == 0 {
        seq![]
    } else {
        let before = ready_upto(g, started, (i - 1) as nat);
        let u = g[i - 1];
        if u.after.contains(started.last()) && satisfied(g, u, started) {
            before.push(u.name)
        } else {
            before
        }
    }
}

/// The units that are set free by starting these, one after the other.
spec fn set_free(g: Seq<Node>, started: Seq<Seq<char>>) -> Seq<Seq<char>>
    decreases started.len(),
{
    if started.len() == 0 {
        seq![]
    } else {
        set_free(g, started.drop_last()) + ready_upto(g, started, g.len())
    }
}

proof fn lemma_dependents_sum(a: Seq<Edge>, b: Seq<Edge>, n: Seq<char>)
    ensures
        dependents(a + b, n) == dependents(a, n) + dependents(b, n),
    decreases b.len(),
{
    if b.len() == 0 {
        assert(a + b =~= a);
        assert(dependents(a, n) + dependents(b, n) =~= dependents(a, n));
    } else {
        lemma_dependents_sum(a, b.drop_last(), n);
        assert((a + b).drop_last() =~= a + b.drop_last());
        assert(dependents(a + b, n) =~= dependents(a, n) + dependents(b, n));
    }
}

proof fn lemma_own_dependents(g: Seq<Node>, u: Node, k: nat, n: Seq<char>, d: Seq<char>)
    requires
        k <= u.after.len(),
    ensures
        forall|j: int|
            0 <= j < dependents(unit_edges(g, u, k), n).len() ==> #[trigger] dependents(
                unit_edges(g, u, k),
                n,
            )[j] == u.name,
        dependents(unit_edges(g, u, k), n).len() > 0 <==> loaded(g, n) && exists|j: int|
            0 <= j < k && #[trigger] u.after[j] == n,
        occurrences(dependents(unit_edges(g, u, k), n), d) == if d == u.name {
            dependents(unit_edges(g, u, k), n).len()
        } else {
            0
        },
    decreases k,
{
    if k > 0 {
        lemma_own_dependents(g, u, (k - 1) as nat, n, d);
        let (before, now) = (unit_edges(g, u, (k - 1) as nat), unit_edges(g, u, k));
        let dep = u.after[k - 1];
        if loaded(g, dep) {
            assert(now.drop_last() =~= before);
            if dep == n {
                assert(dependents(now, n).drop_last() =~= dependents(before, n));
            }
        }
        if exists|j: int| 0 <= j < k && #[trigger] u.after[j] == n {
            let j = choose|j: int| 0 <= j < k && #[trigger] u.after[j] == n;
            if j < k - 1 {
                assert(u.after[j] == n);
            }
        }
    }
}

/// A unit is released by another as often as it lists it.
proof fn lemma_dependents_count(g: Seq<Node>, k: nat, n: Seq<char>, j: int)
    requires
        distinct_names(g),
        k <= g.len(),
        0 <= j < g.len(),
    ensures
        occurrences(dependents(edges_upto(g, k), n), g[j].name) == if j < k {
            dependents(unit_edges(g, g[j], g[j].after.len()), n).len()
        } else {
            0
        },
    decreases k,
{
    if k > 0 {
        let u = g[k - 1];
        let own = unit_edges(g, u, u.after.len());
        let before = edges_upto(g, (k - 1) as nat);
        lemma_dependents_count(g, (k - 1) as nat, n, j);
        lemma_dependents_sum(before, own, n);
        lemma_own_dependents(g, u, u.after.len(), n, g[j].name);
        lemma_occurrences_sum(dependents(before, n), dependents(own, n), g[j].name);
        if j < k - 1 {
            assert(g[j].name != g[k - 1].name);
        } else if k - 1 < j {
            assert(g[k - 1].name != g[j].name);
        }
    }
}

/// Releasing the same unit a few times sets it free at the last time, if that
/// is as often as it needs.
proof fn lemma_freed_repeat(g: Seq<Node>, x: Seq<Seq<char>>, y: Seq<Seq<char>>, d: Seq<char>)
    requires
        forall|j: int| 0 <= j < y.len() ==> #[trigger] y[j] == d,
        occurrences(x, d) + y.len() <= in_degree(g, d),
    ensures
        freed(g, x + y) == if y.len() > 0 && occurrences(x, d) + y.len() == in_degree(g, d) {
            freed(g, x).push(d)
        } else {
            freed(g, x)
        },
        occurrences(x + y, d) == occurrences(x, d) + y.len(),
    decreases y.len(),
{
    if y.len() == 0 {
        assert(x + y =~= x);
    } else {
        let t = y.drop_last();
        assert forall|j: int| 0 <= j < t.len() implies #[trigger] t[j] == d by {
            assert(y[j] == d);
        }
        lemma_freed_repeat(g, x, t, d);
        assert((x + y).drop_last() =~= x + t);
        assert(y[y.len() - 1] == d);
        assert((x + y).last() == d);
    }
}

/// With nothing started twice, a unit was released as often as it needs exactly
/// if all that it lists was started, and never more often.
proof fn lemma_released_enough(g: Seq<Node>, started: Seq<Seq<char>>, i: int)
    requires
        distinct_names(g),
        started.no_duplicates(),
        0 <= i < g.len(),
    ensures
        occurrences(releases(g, started), g[i].name) <= in_degree(g, g[i].name),
        occurrences(releases(g, started), g[i].name) == in_degree(g, g[i].name) <==> satisfied(
            g,
            g[i],
            started,
        ),
{
    let (es, d) = (edges(g), g[i].name);
    lemma_release_count(g, started, d);
    lemma_incoming_from_bound(es, started, d);
    lemma_edges_upto(g, g.len());
    let all = forall|k: int|
        0 <= k < es.len() && (#[trigger] es[k]).unit == d ==> started.contains(es[k].dep);
    if all {
        assert forall|n: Seq<char>| loaded(g, n) && #[trigger] g[i].after.contains(
            n,
        ) implies started.contains(n) by {
            let j = choose|j: int| 0 <= j < g[i].after.len() && g[i].after[j] == n;
            assert(loaded(g, g[i].after[j]));
            let e = Edge { dep: n, unit: d };
            assert(es.contains(e));
            let k = choose|k: int| 0 <= k < es.len() && es[k] == e;
            assert(es[k].unit == d);
        }
    }
    if satisfied(g, g[i], started) {
        assert forall|k: int| 0 <= k < es.len() && (
        #[trigger] es[k]).unit == d implies started.contains(es[k].dep) by {
            assert(es.contains(es[k]));
            let u = choose|u: int|
                0 <= u < g.len() && (#[trigger] g[u]).name == d && g[u].after.contains(es[k].dep);
            if u < i {
                assert(g[u].name != g[i].name);
            } else if i < u {
                assert(g[i].name != g[u].name);
            }
            assert(g[i].after.contains(es[k].dep));
        }
    }
}

/// Starting one more unit sets those free that wait for nothing else.
proof fn lemma_freed_step(g: Seq<Node>, started: Seq<Seq<char>>, i: nat)
    requires
        distinct_names(g),
        started.no_duplicates(),
        started.len() > 0,
        loaded(g, started.last()),
        i <= g.len(),
    ensures
        freed(
            g,
            releases(g, started.drop_last()) + dependents(edges_upto(g, i), started.last()),
        ) == freed(g, releases(g, started.drop_last())) + ready_upto(g, started, i),
    decreases i,
{
    let n = started.last();
    let r = releases(g, started.drop_last());
    if i == 0 {
        assert(r + dependents(edges_upto(g, i), n) =~= r);
        assert(freed(g, r) + ready_upto(g, started, i) =~= freed(g, r));
    } else {
        let b = (i - 1) as nat;
        lemma_freed_step(g, started, b);
        let u = g[i - 1];
        let d = u.name;
        let own = unit_edges(g, u, u.after.len());
        let x = r + dependents(edges_upto(g, b), n);
        let y = dependents(own, n);
        lemma_dependents_sum(edges_upto(g, b), own, n);
        assert(r + dependents(edges_upto(g, i), n) =~= x + y);
        lemma_own_dependents(g, u, u.after.len(), n, d);
        lemma_occurrences_sum(r, dependents(edges_upto(g, b), n), d);
        lemma_occurrences_sum(r, dependents(edges(g), n), d);
        lemma_dependents_count(g, b, n, i - 1);
        lemma_dependents_count(g, g.len(), n, i - 1);
        lemma_released_enough(g, started, i - 1);
        lemma_freed_repeat(g, x, y, d);
        assert(u.after.contains(n) <==> exists|j: int|
            0 <= j < u.after.len() && #[trigger] u.after[j] == n);
        assert(freed(g, x + y) =~= freed(g, r) + ready_upto(g, started, i));
    }
}

/// What is set free depends on what units list, not on how.
proof fn lemma_freed_is_set_free(g: Seq<Node>, started: Seq<Seq<char>>)
    requires
        distinct_names(g),
        started.no_duplicates(),
        forall|k: int| 0 <= k < started.len() ==> loaded(g, #[trigger] started[k]),
    ensures
        freed(g, releases(g, started)) == set_free(g, started),
    decreases started.len(),
{
    if started.len() > 0 {
        let s = started.drop_last();
        assert forall|k: int| 0 <= k < s.len() implies loaded(g, #[trigger] s[k]) by {
            assert(loaded(g, started[k]));
        }
        lemma_freed_is_set_free(g, s);
        assert(loaded(g, started[started.len() - 1]));
        lemma_freed_step(g, started, g.len());
    }
}

proof fn lemma_same_loaded(g: Seq<Node>, h: Seq<Node>, n: Seq<char>)
    requires
        same_dependencies(g, h),
    ensures
        loaded(g, n) <==> loaded(h, n),
{
    if loaded(g, n) {
        let i = choose|i: int| 0 <= i < g.len() && (#[trigger] g[i]).name == n;
        assert(h[i].name == n);
    }
    if loaded(h, n) {
        let i = choose|i: int| 0 <= i < h.len() && (#[trigger] h[i]).name == n;
        assert(g[i].name == n);
    }
}

proof fn lemma_same_satisfied(g: Seq<Node>, h: Seq<Node>, i: int, started: Seq<Seq<char>>)
    requires
        same_dependencies(g, h),
        0 <= i < g.len(),
    ensures
        satisfied(g, g[i], started) <==> satisfied(h, h[i], started),
{
    assert forall|n: Seq<char>| #[trigger] loaded(g, n) <==> loaded(h, n) by {
        lemma_same_loaded(g, h, n);
    }
    if satisfied(g, g[i], started) {
        assert forall|n: Seq<char>| loaded(h, n) && #[trigger] h[i].after.contains(
            n,
        ) implies started.contains(n) by {
            assert(loaded(g, n));
            assert(g[i].after.contains(n));
        }
    }
    if satisfied(h, h[i], started) {
        assert forall|n: Seq<char>| loaded(g, n) && #[trigger] g[i].after.contains(
            n,
        ) implies started.contains(n) by {
            assert(h[i].after.contains(n));
        }
    }
}

proof fn lemma_same_ready(g: Seq<Node>, h: Seq<Node>, started: Seq<Seq<char>>, i: nat)
    requires
        same_dependencies(g, h),
        started.len() > 0,
        loaded(g, started.last()),
        i <= g.len(),
    ensures
        ready_upto(g, started, i) == ready_upto(h, started, i),
    decreases i,
{
    if i > 0 {
        lemma_same_ready(g, h, started, (i - 1) as nat);
        lemma_same_satisfied(g, h, i - 1, started);
        assert(g[i - 1].after.contains(started.last()) <==> h[i - 1].after.contains(
            started.last(),
        ));
        assert(g[i - 1].name == h[i - 1].name);
    }
}

proof fn lemma_same_set_free(g: Seq<Node>, h: Seq<Node>, started: Seq<Seq<char>>)
    requires
        same_dependencies(g, h),
        forall|k: int| 0 <= k < started.len() ==> loaded(g, #[trigger] started[k]),
    ensures
        set_free(g, started) == set_free(h, started),
    decreases started.len(),
{
    if started.len() > 0 {
        let s = started.drop_last();
        assert forall|k: int| 0 <= k < s.len() implies loaded(g, #[trigger] s[k]) by {
            assert(loaded(g, started[k]));
        }
        lemma_same_set_free(g, h, s);
        assert(loaded(g, started[started.len() - 1]));
        lemma_same_ready(g, h, started, g.len());
    }
}

proof fn lemma_same_roots(g: Seq<Node>, h: Seq<Node>, i: nat)
    requires
        distinct_names(g),
        distinct_names(h),
        same_dependencies(g, h),
        i <= g.len(),
    ensures
        roots_upto(g, i) == roots_upto(h, i),
    decreases i,
{
    if i > 0 {
        lemma_same_roots(g, h, (i - 1) as nat);
        let none = Seq::<Seq<char>>::empty();
        lemma_released_enough(g, none, i - 1);
        lemma_released_enough(h, none, i - 1);
        lemma_same_satisfied(g, h, i - 1, none);
        assert(g[i - 1].name == h[i - 1].name);
    }
}

proof fn lemma_same_queued(g: Seq<Node>, h: Seq<Node>, started: Seq<Seq<char>>)
    requires
        distinct_names(g),
        distinct_names(h),
        same_dependencies(g, h),
        started.no_duplicates(),
        forall|k: int| 0 <= k < started.len() ==> loaded(g, #[trigger] started[k]),
    ensures
        queued(g, started) == queued(h, started),
{
    assert forall|k: int| 0 <= k < started.len() implies loaded(h, #[trigger] started[k]) by {
        lemma_same_loaded(g, h, started[k]);
    }
    lemma_same_roots(g, h, g.len());
    lemma_freed_is_set_free(g, started);
    lemma_freed_is_set_free(h, started);
    lemma_same_set_free(g, h, started);
}

/// The start sequence of units depends on which loaded units each of them lists,
/// and not on the order in which it lists them, on repetitions, or on names that
/// belong to no unit.
pub proof fn after_lists_count_as_sets(g: Seq<Node>, h: Seq<Node>, q: Seq<Seq<char>>)
    requires
        distinct_names(g),
        same_dependencies(g, h),
        is_start_sequence(g, q),
    ensures
        is_start_sequence(h, q),
{
    assert(distinct_names(h)) by {
        assert forall|i: int, j: int| 0 <= i < j < h.len() implies (#[trigger] h[i]).name != (
        #[trigger] h[j]).name by {
            assert(g[i].name != g[j].name);
        }
    }
    lemma_sequence_names(g, q);
    lemma_same_queued(g, h, q);
    assert forall|k: int| 0 <= k < q.len() implies (#[trigger] queued(h, q.take(k))).len() > k by {
        let s = q.take(k);
        assert forall|j: int| 0 <= j < s.len() implies loaded(g, #[trigger] s[j]) by {
            assert(loaded(g, q[j]));
        }
        assert(s.no_duplicates());
        lemma_same_queued(g, h, s);
        assert(queued(g, q.take(k)).len() > k);
    }
}

/// Units that list the same loaded units have the same start order, or none
/// both.
pub proof fn same_dependencies_same_order(
    g: Seq<Node>,
    h: Seq<Node>,
    q: Seq<Seq<char>>,
    r: Seq<Seq<char>>,
)
    requires
        distinct_names(g),
        same_dependencies(g, h),
        is_start_sequence(g, q),
        is_start_sequence(h, r),
    ensures
        q == r,
        q.len() == g.len() <==> r.len() == h.len(),
{
    after_lists_count_as_sets(g, h, q);
    start_sequence_unique(h, q, r);
}

// Which of two units starts first.

/// In the order `q`, the unit at `i` waits for the unit at position `k`, and for
/// none behind it; or for none at all, and then `k` is -1.
pub open spec fn waits_until(g: Seq<Node>, q: Seq<Seq<char>>, i: int, k: int) -> bool {
    if k == -1 {
        forall|n: Seq<char>| #[trigger] g[i].after.contains(n) ==> !loaded(g, n)
    } else {
        &&& 0 <= k < q.len()
        &&& loaded(g, q[k])
        &&& g[i].after.contains(q[k])
        &&& forall|n: Seq<char>| #[trigger]
            g[i].after.contains(n) && loaded(g, n) ==> q.take(k + 1).contains(n)
    }
}

/// The unit at `i` comes before that at `j` among those that wait until `a` and
/// until `b`.
spec fn sooner(a: int, i: int, b: int, j: int) -> bool {
    a < b || (a == b && i < j)
}

proof fn lemma_waits_once(g: Seq<Node>, q: Seq<Seq<char>>, i: int, a: int, b: int)
    requires
        q.no_duplicates(),
        waits_until(g, q, i, a),
        waits_until(g, q, i, b),
    ensures
        a == b,
{
    if a != b {
        let (lo, hi) = if a < b {
            (a, b)
        } else {
            (b, a)
        };
        assert(g[i].after.contains(q[hi]) && loaded(g, q[hi]));
        if lo != -1 {
            let s = q.take(lo + 1);
            assert(s.contains(q[hi]));
            let m = choose|m: int| 0 <= m < s.len() && s[m] == q[hi];
            assert(q[m] == q[hi]);
        }
    }
}

proof fn lemma_index_once(g: Seq<Node>, i: int, j: int)
    requires
        distinct_names(g),
        0 <= i < g.len(),
        0 <= j < g.len(),
        g[i].name == g[j].name,
    ensures
        i == j,
{
    if i < j {
        assert(g[i].name != g[j].name);
    } else if j < i {
        assert(g[j].name != g[i].name);
    }
}

/// Units without dependencies keep the order in which they are defined.
proof fn lemma_roots_in_order(g: Seq<Node>, q: Seq<Seq<char>>, n: nat)
    requires
        distinct_names(g),
        n <= g.len(),
    ensures
        forall|t: int|
            0 <= t < roots_upto(g, n).len() ==> exists|i: int|
                0 <= i < n && (#[trigger] g[i]).name == (#[trigger] roots_upto(g, n)[t])
                    && waits_until(g, q, i, -1),
        forall|t: int, u: int, i: int, j: int|
            0 <= t < u < roots_upto(g, n).len() && 0 <= i < g.len() && 0 <= j < g.len()
                && #[trigger] roots_upto(g, n)[t] == (#[trigger] g[i]).name
                && #[trigger] roots_upto(g, n)[u] == (#[trigger] g[j]).name ==> i < j,
    decreases n,
{
    if n > 0 {
        let m = (n - 1) as nat;
        lemma_roots_in_order(g, q, m);
        let (before, now) = (roots_upto(g, m), roots_upto(g, n));
        let none = Seq::<Seq<char>>::empty();
        lemma_released_enough(g, none, n - 1);
        assert forall|t: int| 0 <= t < now.len() implies exists|i: int|
            0 <= i < n && (#[trigger] g[i]).name == (#[trigger] now[t]) && waits_until(
                g,
                q,
                i,
                -1,
            ) by {
            if t < before.len() {
                assert(now[t] == before[t]);
                let i = choose|i: int|
                    0 <= i < m && (#[trigger] g[i]).name == before[t] && waits_until(g, q, i, -1);
                assert(g[i].name == now[t]);
            } else {
                assert(satisfied(g, g[n - 1], none));
                assert forall|d: Seq<char>| #[trigger] g[n - 1].after.contains(d) implies !loaded(
                    g,
                    d,
                ) by {
                    if loaded(g, d) {
                        assert(none.contains(d));
                    }
                }
                assert(g[n - 1].name == now[t]);
            }
        }
        assert forall|t: int, u: int, i: int, j: int|
            0 <= t < u < now.len() && 0 <= i < g.len() && 0 <= j < g.len() && #[trigger] now[t] == (
            #[trigger] g[i]).name && #[trigger] now[u] == (#[trigger] g[j]).name implies i < j by {
            assert(now[t] == before[t]);
            if u < before.len() {
                assert(now[u] == before[u]);
            } else {
                let k = choose|k: int|
                    0 <= k < m && (#[trigger] g[k]).name == before[t] && waits_until(g, q, k, -1);
                lemma_index_once(g, i, k);
                lemma_index_once(g, j, n - 1);
            }
        }
    }
}

/// Units that wait for the same unit last keep the order in which they are
/// defined.
proof fn lemma_ready_in_order(g: Seq<Node>, q: Seq<Seq<char>>, k: int, n: nat)
    requires
        distinct_names(g),
        0 <= k < q.len(),
        loaded(g, q[k]),
        n <= g.len(),
    ensures
        forall|t: int|
            0 <= t < ready_upto(g, q.take(k + 1), n).len() ==> exists|i: int|
                0 <= i < n && (#[trigger] g[i]).name == (#[trigger] ready_upto(
                    g,
                    q.take(k + 1),
                    n,
                )[t]) && waits_until(g, q, i, k),
        forall|t: int, u: int, i: int, j: int|
            0 <= t < u < ready_upto(g, q.take(k + 1), n).len() && 0 <= i < g.len() && 0 <= j
                < g.len() && #[trigger] ready_upto(g, q.take(k + 1), n)[t] == (
            #[trigger] g[i]).name && #[trigger] ready_upto(g, q.take(k + 1), n)[u] == (
            #[trigger] g[j]).name ==> i < j,
    decreases n,
{
    let s = q.take(k + 1);
    assert(s.last() == q[k]);
    if n > 0 {
        let m = (n - 1) as nat;
        lemma_ready_in_order(g, q, k, m);
        let (before, now) = (ready_upto(g, s, m), ready_upto(g, s, n));
        assert forall|t: int| 0 <= t < now.len() implies exists|i: int|
            0 <= i < n && (#[trigger] g[i]).name == (#[trigger] now[t]) && waits_until(
                g,
                q,
                i,
                k,
            ) by {
            if t < before.len() {
                assert(now[t] == before[t]);
                let i = choose|i: int|
                    0 <= i < m && (#[trigger] g[i]).name == before[t] && waits_until(g, q, i, k);
                assert(g[i].name == now[t]);
            } else {
                assert(g[n - 1].name == now[t]);
                assert(waits_until(g, q, n - 1, k));
            }
        }
        assert forall|t: int, u: int, i: int, j: int|
            0 <= t < u < now.len() && 0 <= i < g.len() && 0 <= j < g.len() && #[trigger] now[t] == (
            #[trigger] g[i]).name && #[trigger] now[u] == (#[trigger] g[j]).name implies i < j by {
            assert(now[t] == before[t]);
            if u < before.len() {
                assert(now[u] == before[u]);
            } else {
                let x = choose|x: int|
                    0 <= x < m && (#[trigger] g[x]).name == before[t] && waits_until(g, q, x, k);
                lemma_index_once(g, i, x);
                lemma_index_once(g, j, n - 1);
            }
        }
    }
}

/// A unit in a list waits until some position before `m`.
spec fn waiting_in(g: Seq<Node>, q: Seq<Seq<char>>, name: Seq<char>, m: int) -> bool {
    exists|i: int, k: int|
        0 <= i < g.len() && 0 <= k < m && g[i].name == name && #[trigger] waits_until(g, q, i, k)
}

/// Units that are set free one after the other are sooner one than the other.
proof fn lemma_set_free_in_order(g: Seq<Node>, q: Seq<Seq<char>>, m: int)
    requires
        distinct_names(g),
        q.no_duplicates(),
        forall|k: int| 0 <= k < q.len() ==> loaded(g, #[trigger] q[k]),
        0 <= m <= q.len(),
    ensures
        forall|t: int|
            0 <= t < set_free(g, q.take(m)).len() ==> waiting_in(
                g,
                q,
                #[trigger] set_free(g, q.take(m))[t],
                m,
            ),
        forall|t: int, u: int, i: int, j: int, a: int, b: int|
            0 <= t < u < set_free(g, q.take(m)).len() && 0 <= i < g.len() && 0 <= j < g.len()
                && #[trigger] set_free(g, q.take(m))[t] == g[i].name && #[trigger] set_free(
                g,
                q.take(m),
            )[u] == g[j].name && #[trigger] waits_until(g, q, i, a) && #[trigger] waits_until(
                g,
                q,
                j,
                b,
            ) ==> sooner(a, i, b, j),
    decreases m,
{
    if m > 0 {
        let s = q.take(m);
        lemma_set_free_in_order(g, q, m - 1);
        assert(s.drop_last() =~= q.take(m - 1));
        assert(loaded(g, q[m - 1]));
        lemma_ready_in_order(g, q, m - 1, g.len());
        assert(q.take((m - 1) + 1) == s);
        let (before, own) = (set_free(g, q.take(m - 1)), ready_upto(g, s, g.len()));
        let now = set_free(g, s);
        assert(now == before + own);
        assert forall|t: int| 0 <= t < now.len() implies waiting_in(g, q, #[trigger] now[t], m) by {
            if t < before.len() {
                assert(waiting_in(g, q, before[t], m - 1));
                let (i, k) = choose|i: int, k: int|
                    0 <= i < g.len() && 0 <= k < m - 1 && g[i].name == before[t]
                        && #[trigger] waits_until(g, q, i, k);
                assert(waits_until(g, q, i, k));
            } else {
                let x = own[t - before.len()];
                let i = choose|i: int|
                    0 <= i < g.len() && (#[trigger] g[i]).name == x && waits_until(
                        g,
                        q,
                        i,
                        m - 1,
                    );
                assert(waits_until(g, q, i, m - 1));
            }
        }
        assert forall|t: int, u: int, i: int, j: int, a: int, b: int|
            0 <= t < u < now.len() && 0 <= i < g.len() && 0 <= j < g.len() && #[trigger] now[t]
                == g[i].name && #[trigger] now[u] == g[j].name && #[trigger] waits_until(
                g,
                q,
                i,
                a,
            ) && #[trigger] waits_until(g, q, j, b) implies sooner(a, i, b, j) by {
            if u < before.len() {
                assert(now[t] == before[t] && now[u] == before[u]);
            } else {
                let y = own[u - before.len()];
                let j2 = choose|j2: int|
                    0 <= j2 < g.len() && (#[trigger] g[j2]).name == y && waits_until(
                        g,
                        q,
                        j2,
                        m - 1,
                    );
                lemma_index_once(g, j, j2);
                lemma_waits_once(g, q, j, b, m - 1);
                if t < before.len() {
                    assert(waiting_in(g, q, before[t], m - 1));
                    let (i2, k2) = choose|i2: int, k2: int|
                        0 <= i2 < g.len() && 0 <= k2 < m - 1 && g[i2].name == before[t]
                            && #[trigger] waits_until(g, q, i2, k2);
                    lemma_index_once(g, i, i2);
                    lemma_waits_once(g, q, i, a, k2);
                } else {
                    let x = own[t - before.len()];
                    let i2 = choose|i2: int|
                        0 <= i2 < g.len() && (#[trigger] g[i2]).name == x && waits_until(
                            g,
                            q,
                            i2,
                            m - 1,
                        );
                    lemma_index_once(g, i, i2);
                    lemma_waits_once(g, q, i, a, m - 1);
                    assert(own[t - before.len()] == g[i].name);
                    assert(own[u - before.len()] == g[j].name);
                }
            }
        }
    }
}

proof fn lemma_order_is_by_wait(
    g: Seq<Node>,
    q: Seq<Seq<char>>,
    p: int,
    r: int,
    i: int,
    j: int,
    a: int,
    b: int,
)
    requires
        distinct_names(g),
        is_start_sequence(g, q),
        0 <= p < r < q.len(),
        0 <= i < g.len(),
        0 <= j < g.len(),
        q[p] == g[i].name,
        q[r] == g[j].name,
        waits_until(g, q, i, a),
        waits_until(g, q, j, b),
    ensures
        sooner(a, i, b, j),
{
    lemma_sequence_names(g, q);
    lemma_freed_is_set_free(g, q);
    lemma_roots_in_order(g, q, g.len());
    let m = q.len() as int;
    assert(q.take(m) =~= q);
    lemma_set_free_in_order(g, q, m);
    let (roots, rest) = (roots(g), set_free(g, q));
    assert(q == roots + rest);
    let k = roots.len();
    if p < k {
        assert(roots[p] == q[p]);
        let i2 = choose|i2: int|
            0 <= i2 < g.len() && (#[trigger] g[i2]).name == roots[p] && waits_until(g, q, i2, -1);
        lemma_index_once(g, i, i2);
        lemma_waits_once(g, q, i, a, -1);
    }
    if r < k {
        assert(roots[r] == q[r]);
        let j2 = choose|j2: int|
            0 <= j2 < g.len() && (#[trigger] g[j2]).name == roots[r] && waits_until(g, q, j2, -1);
        lemma_index_once(g, j, j2);
        lemma_waits_once(g, q, j, b, -1);
        assert(roots[p] == g[i].name && roots[r] == g[j].name);
    } else {
        assert(rest[r - k] == q[r]);
        assert(waiting_in(g, q, rest[r - k], m));
        let (j2, k2) = choose|j2: int, k2: int|
            0 <= j2 < g.len() && 0 <= k2 < m && g[j2].name == rest[r - k]
                && #[trigger] waits_until(g, q, j2, k2);
        lemma_index_once(g, j, j2);
        lemma_waits_once(g, q, j, b, k2);
        if p >= k {
            assert(rest[p - k] == q[p]);
            assert(rest[p - k] == g[i].name && rest[r - k] == g[j].name);
        }
    }
}

/// Of two units, the one starts first whose last dependency starts first, a unit
/// without dependencies before one with some. If that is the same, they start in
/// the order in which they are defined.
pub proof fn units_start_as_soon_as_they_can(
    g: Seq<Node>,
    q: Seq<Seq<char>>,
    p: int,
    r: int,
    i: int,
    j: int,
    a: int,
    b: int,
)
    requires
        distinct_names(g),
        is_start_sequence(g, q),
        0 <= p < q.len(),
        0 <= r < q.len(),
        0 <= i < g.len(),
        0 <= j < g.len(),
        i != j,
        q[p] == g[i].name,
        q[r] == g[j].name,
        waits_until(g, q, i, a),
        waits_until(g, q, j, b),
    ensures
        p < r <==> a < b || (a == b && i < j),
{
    if p < r {
        lemma_order_is_by_wait(g, q, p, r, i, j, a, b);
    } else if r < p {
        lemma_order_is_by_wait(g, q, r, p, j, i, b, a);
    } else {
        lemma_index_once(g, i, j);
    }
}

/// Units that list no loaded unit start in the order in which they are defined.
pub proof fn independent_units_keep_their_order(g: Seq<Node>, q: Seq<Seq<char>>)
    requires
        distinct_names(g),
        is_start_sequence(g, q),
        forall|i: int, n: Seq<char>|
            0 <= i < g.len() && #[trigger] g[i].after.contains(n) ==> !loaded(g, n),
    ensures
        q == g.map_values(|n: Node| n.name),
{
    let names = g.map_values(|n: Node| n.name);
    lemma_all_roots(g, g.len());
    lemma_queued_prefix(g, q, 0);
    assert(q.take(0) =~= seq![]);
    lemma_sequence_names(g, q);
    lemma_freed(g, releases(g, q));
    assert(freed(g, releases(g, q)) =~= seq![]) by {
        let f = freed(g, releases(g, q));
        if f.len() > 0 {
            let d = f[0];
            assert(f.contains(d));
            assert(q[roots(g).len() as int] == d);
            let k = roots(g).len() as int;
            assert(loaded(g, q[k]));
            let i = choose|i: int| 0 <= i < g.len() && (#[trigger] g[i]).name == d;
            assert(names[i] == d);
            assert(roots(g)[i] == d);
            assert(q[i] == q[k]);
        }
    }
    assert(q =~= names);
}

proof fn lemma_all_roots(g: Seq<Node>, n: nat)
    requires
        distinct_names(g),
        n <= g.len(),
        forall|i: int, d: Seq<char>|
            0 <= i < g.len() && #[trigger] g[i].after.contains(d) ==> !loaded(g, d),
    ensures
        roots_upto(g, n) == g.map_values(|n: Node| n.name).take(n as int),
    decreases n,
{
    let names = g.map_values(|n: Node| n.name);
    if n > 0 {
        lemma_all_roots(g, (n - 1) as nat);
        let none = Seq::<Seq<char>>::empty();
        lemma_released_enough(g, none, n - 1);
        assert(satisfied(g, g[n - 1], none));
        assert(names.take(n as int) =~= names.take(n - 1).push(names[n - 1]));
    } else {
        assert(names.take(0) =~= seq![]);
    }
}

} // verus!
