//! The order in which units are started: a topological sort by `after`.
//!
//! Units whose dependencies are all started wait in a queue, first come first
//! served. Starting a unit releases each unit that listed it in `after`, once
//! for every time it was listed; a unit joins the queue when it has been
//! released as often as it lists loaded units.

use crate::config::UnitConfig;
use crate::order_laws::{has_cycle, start_order_exists_unless_cycle};
use vstd::prelude::*;

verus! {

/// What ordering looks at in a unit: its name and what it comes after.
pub struct Node {
    pub name: Seq<char>,
    pub after: Seq<Seq<char>>,
}

/// One mention of a loaded unit in an `after` list.
pub struct Edge {
    /// The unit that is mentioned.
    pub dep: Seq<char>,
    /// The unit whose list it is.
    pub unit: Seq<char>,
}

pub open spec fn node(u: UnitConfig) -> Node {
    Node { name: u.name@, after: u.after@.map_values(|s: String| s@) }
}

/// The units as nodes, in the same order.
pub open spec fn graph(units: Seq<UnitConfig>) -> Seq<Node> {
    units.map_values(|u: UnitConfig| node(u))
}

/// Some unit has this name.
pub open spec fn loaded(g: Seq<Node>, n: Seq<char>) -> bool {
    exists|i: int| 0 <= i < g.len() && (#[trigger] g[i]).name == n
}

/// No two units share a name.
pub open spec fn distinct_names(g: Seq<Node>) -> bool {
    forall|i: int, j: int| 0 <= i < j < g.len() ==> (#[trigger] g[i]).name != (#[trigger] g[j]).name
}

/// The mentions of loaded units among the first `k` names that `u` comes after.
/// Names that belong to no unit count as satisfied and leave no edge.
pub open spec fn unit_edges(g: Seq<Node>, u: Node, k: nat) -> Seq<Edge>
    decreases k,
{
    if k == 0 {
        seq![]
    } else {
        let before = unit_edges(g, u, (k - 1) as nat);
        let dep = u.after[k - 1];
        if loaded(g, dep) {
            before.push(Edge { dep, unit: u.name })
        } else {
            before
        }
    }
}

/// The edges of the first `i` units, unit by unit.
pub open spec fn edges_upto(g: Seq<Node>, i: nat) -> Seq<Edge>
    decreases i,
{
    if i == 0 {
        seq![]
    } else {
        edges_upto(g, (i - 1) as nat) + unit_edges(g, g[i - 1], g[i - 1].after.len())
    }
}

/// All edges, in the order in which the units list them.
pub open spec fn edges(g: Seq<Node>) -> Seq<Edge> {
    edges_upto(g, g.len())
}

/// How many of the edges lead to the unit `d`.
pub open spec fn incoming(es: Seq<Edge>, d: Seq<char>) -> nat
    decreases es.len(),
{
    if es.len() == 0 {
        0
    } else {
        incoming(es.drop_last(), d) + if es.last().unit == d { 1nat } else { 0nat }
    }
}

/// How often `d` lists a loaded unit in its `after`.
pub open spec fn in_degree(g: Seq<Node>, d: Seq<char>) -> nat {
    incoming(edges(g), d)
}

/// The units that list `n`, in the order of the edges.
pub open spec fn dependents(es: Seq<Edge>, n: Seq<char>) -> Seq<Seq<char>>
    decreases es.len(),
{
    if es.len() == 0 {
        seq![]
    } else {
        let before = dependents(es.drop_last(), n);
        if es.last().dep == n {
            before.push(es.last().unit)
        } else {
            before
        }
    }
}

/// The releases that starting these units causes, one after the other.
pub open spec fn releases(g: Seq<Node>, started: Seq<Seq<char>>) -> Seq<Seq<char>>
    decreases started.len(),
{
    if started.len() == 0 {
        seq![]
    } else {
        releases(g, started.drop_last()) + dependents(edges(g), started.last())
    }
}

/// How often `d` occurs in `s`.
pub open spec fn occurrences(s: Seq<Seq<char>>, d: Seq<char>) -> nat
    decreases s.len(),
{
    if s.len() == 0 {
        0
    } else {
        occurrences(s.drop_last(), d) + if s.last() == d { 1nat } else { 0nat }
    }
}

/// The units that these releases set free: each at the release that makes as
/// many as it lists loaded units.
pub open spec fn freed(g: Seq<Node>, released: Seq<Seq<char>>) -> Seq<Seq<char>>
    decreases released.len(),
{
    if released.len() == 0 {
        seq![]
    } else {
        let before = freed(g, released.drop_last());
        let d = released.last();
        if occurrences(released, d) == in_degree(g, d) {
            before.push(d)
        } else {
            before
        }
    }
}

/// The names among the first `i` units that list no loaded unit.
pub open spec fn roots_upto(g: Seq<Node>, i: nat) -> Seq<Seq<char>>
    decreases i,
{
    if i == 0 {
        seq![]
    } else {
        let before = roots_upto(g, (i - 1) as nat);
        if in_degree(g, g[i - 1].name) == 0 {
            before.push(g[i - 1].name)
        } else {
            before
        }
    }
}

/// The names of the units that list no loaded unit, in the order of the units.
pub open spec fn roots(g: Seq<Node>) -> Seq<Seq<char>> {
    roots_upto(g, g.len())
}

/// Everything that has joined the queue when `started` has been started.
pub open spec fn queued(g: Seq<Node>, started: Seq<Seq<char>>) -> Seq<Seq<char>> {
    roots(g) + freed(g, releases(g, started))
}

/// `q` is the order in which the queue hands out units: starting all of `q`
/// queues exactly `q`, and each unit was in the queue when its turn came.
pub open spec fn is_start_sequence(g: Seq<Node>, q: Seq<Seq<char>>) -> bool {
    &&& q == queued(g, q)
    &&& forall|k: int| 0 <= k < q.len() ==> (#[trigger] queued(g, q.take(k))).len() > k
}

/// The strings of a list.
pub open spec fn strings(s: Seq<String>) -> Seq<Seq<char>> {
    s.map_values(|x: String| x@)
}

/// Why units could not be ordered.
#[derive(Clone, Copy, PartialEq, Eq, Structural, Debug)]
pub enum OrderError {
    /// Units wait for each other.
    DependencyCycle,
}

impl OrderError {
    /// What the error says.
    pub open spec fn message_spec(self) -> Seq<char> {
        "dependency cycle detected among service units (check `after` fields)"@
    }

    /// What the error says.
    pub fn message(self) -> (r: &'static str)
        ensures
            r@ == self.message_spec(),
    {
        "dependency cycle detected among service units (check `after` fields)"
    }
}

/// `c` is the first position in `g` of its name.
spec fn canon(g: Seq<Node>, c: int) -> bool {
    &&& 0 <= c < g.len()
    &&& forall|j: int| 0 <= j < c ==> (#[trigger] g[j]).name != g[c].name
}

spec fn names_at(g: Seq<Node>, ids: Seq<usize>) -> Seq<Seq<char>> {
    ids.map_values(|i: usize| g[i as int].name)
}

spec fn all_canon(g: Seq<Node>, ids: Seq<usize>) -> bool {
    forall|k: int| 0 <= k < ids.len() ==> canon(g, #[trigger] ids[k] as int)
}

/// Pairs of positions that stand for edges.
spec fn edges_at(g: Seq<Node>, es: Seq<(usize, usize)>) -> Seq<Edge> {
    es.map_values(|e: (usize, usize)| Edge { dep: g[e.0 as int].name, unit: g[e.1 as int].name })
}

spec fn all_canon_edges(g: Seq<Node>, es: Seq<(usize, usize)>) -> bool {
    forall|k: int| 0 <= k < es.len() ==> canon(g, (#[trigger] es[k]).0 as int) && canon(
        g,
        es[k].1 as int,
    )
}

/// Position of the first unit with this name.
fn first_position(units: &[UnitConfig], name: &String) -> (r: Option<usize>)
    ensures
        match r {
            Some(c) => canon(graph(units@), c as int) && graph(units@)[c as int].name == name@,
            None => !loaded(graph(units@), name@),
        },
{
    let mut i: usize = 0;
    while i < units.len()
        invariant
            i <= units.len(),
            forall|j: int| 0 <= j < i ==> (#[trigger] graph(units@)[j]).name != name@,
        decreases units.len() - i,
    {
        if units[i].name == *name {
            return Some(i);
        }
        i = i + 1;
    }
    None
}

/// The edges of the units, as pairs of positions: the unit that is mentioned,
/// and the unit whose list it is.
fn collect_edges(units: &[UnitConfig]) -> (es: Vec<(usize, usize)>)
    ensures
        all_canon_edges(graph(units@), es@),
        edges_at(graph(units@), es@) == edges(graph(units@)),
{
    let ghost g = graph(units@);
    let mut es: Vec<(usize, usize)> = Vec::new();
    let mut i: usize = 0;
    assert(edges_at(g, es@) =~= edges_upto(g, 0));
    while i < units.len()
        invariant
            i <= units.len(),
            g == graph(units@),
            all_canon_edges(g, es@),
            edges_at(g, es@) == edges_upto(g, i as nat),
        decreases units.len() - i,
    {
        assert(g[i as int].name == units@[i as int].name@);
        let own = match first_position(units, &units[i].name) {
            Some(c) => c,
            None => i,
        };
        let mut j: usize = 0;
        assert(edges_at(g, es@) =~= edges_upto(g, i as nat) + unit_edges(g, g[i as int], 0));
        while j < units[i].after.len()
            invariant
                i < units.len(),
                j <= units@[i as int].after.len(),
                g == graph(units@),
                canon(g, own as int),
                g[own as int].name == g[i as int].name,
                all_canon_edges(g, es@),
                edges_at(g, es@) == edges_upto(g, i as nat) + unit_edges(g, g[i as int], j as nat),
            decreases units@[i as int].after.len() - j,
        {
            let ghost before = es@;
            assert(g[i as int].after[j as int] == units@[i as int].after@[j as int]@);
            if let Some(d) = first_position(units, &units[i].after[j]) {
                assert(g[d as int].name == g[i as int].after[j as int]);
                es.push((d, own));
                assert(edges_at(g, es@) =~= edges_at(g, before).push(
                    Edge { dep: g[d as int].name, unit: g[own as int].name },
                ));
                assert(edges_at(g, es@) =~= edges_upto(g, i as nat) + unit_edges(
                    g,
                    g[i as int],
                    (j + 1) as nat,
                ));
            }
            j = j + 1;
        }
        assert(g[i as int].after.len() == units@[i as int].after.len());
        i = i + 1;
    }
    es
}

/// How often each position is the unit of an edge.
fn count_incoming(n: usize, es: &Vec<(usize, usize)>, Ghost(g): Ghost<Seq<Node>>) -> (deg: Vec<usize>)
    requires
        n == g.len(),
        all_canon_edges(g, es@),
    ensures
        deg.len() == n,
        forall|c: int|
            canon(g, c) ==> #[trigger] deg@[c] == incoming(edges_at(g, es@), g[c].name),
{
    let mut deg: Vec<usize> = Vec::new();
    let mut i: usize = 0;
    while i < n
        invariant
            i <= n,
            deg.len() == i,
            forall|c: int| 0 <= c < i ==> #[trigger] deg@[c] == 0,
        decreases n - i,
    {
        deg.push(0);
        i = i + 1;
    }
    let mut e: usize = 0;
    while e < es.len()
        invariant
            e <= es.len(),
            n == g.len(),
            deg.len() == n,
            all_canon_edges(g, es@),
            forall|c: int|
                canon(g, c) ==> #[trigger] deg@[c] == incoming(
                    edges_at(g, es@).take(e as int),
                    g[c].name,
                ),
        decreases es.len() - e,
    {
        let unit = es[e].1;
        let ghost all = edges_at(g, es@);
        assert(all.take(e + 1).drop_last() =~= all.take(e as int));
        assert(canon(g, es@[e as int].1 as int));
        proof {
            lemma_incoming_bound(all.take(e as int), g[unit as int].name);
        }
        let ghost before = deg@;
        assert(deg@[unit as int] == incoming(all.take(e as int), g[unit as int].name));
        deg.set(unit, deg[unit] + 1);
        assert forall|c: int| canon(g, c) implies #[trigger] deg@[c] == incoming(
            all.take(e + 1),
            g[c].name,
        ) by {
            assert(before[c] == incoming(all.take(e as int), g[c].name));
            if c != unit {
                lemma_canon_names(g, c, unit as int);
            }
        }
        e = e + 1;
    }
    assert(edges_at(g, es@).take(e as int) =~= edges_at(g, es@));
    deg
}

/// What each unit still waits for after these releases.
spec fn tracks(g: Seq<Node>, remaining: Seq<usize>, released: Seq<Seq<char>>) -> bool {
    &&& remaining.len() == g.len()
    &&& forall|c: int|
        canon(g, c) ==> #[trigger] remaining[c] == if occurrences(released, g[c].name) < in_degree(
            g,
            g[c].name,
        ) {
            in_degree(g, g[c].name) - occurrences(released, g[c].name)
        } else {
            0
        }
}

spec fn total(s: Seq<usize>) -> nat
    decreases s.len(),
{
    if s.len() == 0 {
        0
    } else {
        total(s.drop_last()) + s.last() as nat
    }
}

proof fn lemma_total_update(s: Seq<usize>, i: int, v: usize)
    requires
        0 <= i < s.len(),
    ensures
        total(s.update(i, v)) == total(s) - s[i] + v,
    decreases s.len(),
{
    if i == s.len() - 1 {
        assert(s.update(i, v).drop_last() =~= s.drop_last());
    } else {
        assert(s.update(i, v).drop_last() =~= s.drop_last().update(i, v));
        lemma_total_update(s.drop_last(), i, v);
    }
}

/// Starts the unit at position `n`: releases its dependents, and queues those
/// that this sets free.
fn release_dependents(
    n: usize,
    es: &Vec<(usize, usize)>,
    remaining: &mut Vec<usize>,
    queue: &mut Vec<usize>,
    Ghost(g): Ghost<Seq<Node>>,
    Ghost(started): Ghost<Seq<Seq<char>>>,
)
    requires
        canon(g, n as int),
        all_canon_edges(g, es@),
        edges_at(g, es@) == edges(g),
        tracks(g, old(remaining)@, releases(g, started)),
        all_canon(g, old(queue)@),
        names_at(g, old(queue)@) == queued(g, started),
    ensures
        tracks(g, final(remaining)@, releases(g, started.push(g[n as int].name))),
        all_canon(g, final(queue)@),
        names_at(g, final(queue)@) == queued(g, started.push(g[n as int].name)),
        old(queue)@.is_prefix_of(final(queue)@),
        total(final(remaining)@) + final(queue)@.len() <= total(old(remaining)@) + old(queue)@.len(),
{
    let ghost all = edges(g);
    let ghost name = g[n as int].name;
    let ghost base = releases(g, started);
    let mut e: usize = 0;
    assert(base + dependents(all.take(0), name) =~= base);
    while e < es.len()
        invariant
            e <= es.len(),
            canon(g, n as int),
            name == g[n as int].name,
            all == edges(g),
            all_canon_edges(g, es@),
            edges_at(g, es@) == all,
            base == releases(g, started),
            tracks(g, remaining@, base + dependents(all.take(e as int), name)),
            all_canon(g, queue@),
            names_at(g, queue@) == roots(g) + freed(
                g,
                base + dependents(all.take(e as int), name),
            ),
            old(queue)@.is_prefix_of(queue@),
            total(remaining@) + queue@.len() <= total(old(remaining)@) + old(queue)@.len(),
        decreases es.len() - e,
    {
        let ghost rel = base + dependents(all.take(e as int), name);
        assert(all.take(e + 1).drop_last() =~= all.take(e as int));
        assert(all[e as int] == Edge {
            dep: g[es@[e as int].0 as int].name,
            unit: g[es@[e as int].1 as int].name,
        });
        assert(canon(g, es@[e as int].0 as int) && canon(g, es@[e as int].1 as int));
        if es[e].0 == n {
            let d = es[e].1;
            let ghost dn = g[d as int].name;
            let ghost rem0 = remaining@;
            let ghost queue0 = queue@;
            let ghost rel1 = base + dependents(all.take(e + 1), name);
            assert(rel1 =~= rel.push(dn));
            assert(rel1.drop_last() =~= rel);
            assert(rem0[d as int] == remaining@[d as int]);
            if remaining[d] > 0 {
                let left = remaining[d] - 1;
                remaining.set(d, left);
                proof {
                    lemma_total_update(rem0, d as int, left);
                }
                if left == 0 {
                    queue.push(d);
                    assert(names_at(g, queue@) =~= names_at(g, queue0).push(dn));
                }
            }
            assert forall|c: int| canon(g, c) implies #[trigger] remaining@[c] == if occurrences(
                rel1,
                g[c].name,
            ) < in_degree(g, g[c].name) {
                in_degree(g, g[c].name) - occurrences(rel1, g[c].name)
            } else {
                0
            } by {
                assert(rem0[c] == rem0[c]);
                if c != d {
                    lemma_canon_names(g, c, d as int);
                }
            }
            assert(names_at(g, queue@) =~= roots(g) + freed(g, rel1));
        } else {
            proof {
                lemma_canon_names(g, es@[e as int].0 as int, n as int);
            }
        }
        e = e + 1;
    }
    assert(all.take(e as int) =~= all);
    assert(started.push(name).drop_last() =~= started);
}

/// The positions of the units that list no loaded unit.
fn collect_roots(units: &[UnitConfig], deg: &Vec<usize>) -> (queue: Vec<usize>)
    requires
        deg.len() == units.len(),
        forall|c: int|
            canon(graph(units@), c) ==> #[trigger] deg@[c] == in_degree(
                graph(units@),
                graph(units@)[c].name,
            ),
    ensures
        all_canon(graph(units@), queue@),
        names_at(graph(units@), queue@) == roots(graph(units@)),
{
    let ghost g = graph(units@);
    let mut queue: Vec<usize> = Vec::new();
    let mut i: usize = 0;
    assert(names_at(g, queue@) =~= roots_upto(g, 0));
    while i < units.len()
        invariant
            i <= units.len(),
            g == graph(units@),
            deg.len() == units.len(),
            forall|c: int| canon(g, c) ==> #[trigger] deg@[c] == in_degree(g, g[c].name),
            all_canon(g, queue@),
            names_at(g, queue@) == roots_upto(g, i as nat),
        decreases units.len() - i,
    {
        assert(g[i as int].name == units@[i as int].name@);
        let own = match first_position(units, &units[i].name) {
            Some(c) => c,
            None => i,
        };
        let ghost before = queue@;
        assert(canon(g, own as int));
        assert(deg@[own as int] == in_degree(g, g[own as int].name));
        if deg[own] == 0 {
            queue.push(own);
            assert(names_at(g, queue@) =~= names_at(g, before).push(g[own as int].name));
        }
        i = i + 1;
    }
    queue
}

/// Sorts the units by their `after` lists and returns their names in start
/// order. Names in `after` that belong to no unit are ignored. Fails when not
/// every unit can be reached.
pub fn resolve_start_order(units: &[UnitConfig]) -> (r: Result<Vec<String>, OrderError>)
    ensures
        match r {
            Ok(order) => {
                &&& is_start_sequence(graph(units@), strings(order@))
                &&& order@.len() == units@.len()
            },
            Err(OrderError::DependencyCycle) => exists|q: Seq<Seq<char>>| #[trigger]
                is_start_sequence(graph(units@), q) && q.len() != units@.len(),
        },
        distinct_names(graph(units@)) ==> (r is Ok <==> !has_cycle(graph(units@))),
{
    let ghost g = graph(units@);
    let es = collect_edges(units);
    let mut remaining = count_incoming(units.len(), &es, Ghost(g));
    let mut queue = collect_roots(units, &remaining);
    let mut head: usize = 0;
    assert(releases(g, names_at(g, queue@).take(0)) =~= seq![]);
    assert(names_at(g, queue@) =~= queued(g, names_at(g, queue@).take(0)));
    while head < queue.len()
        invariant
            head <= queue.len(),
            g == graph(units@),
            all_canon_edges(g, es@),
            edges_at(g, es@) == edges(g),
            all_canon(g, queue@),
            tracks(g, remaining@, releases(g, names_at(g, queue@).take(head as int))),
            names_at(g, queue@) == queued(g, names_at(g, queue@).take(head as int)),
            forall|k: int|
                0 <= k < head ==> (#[trigger] queued(g, names_at(g, queue@).take(k))).len() > k,
        decreases total(remaining@) + queue.len() - head,
    {
        let ghost q0 = names_at(g, queue@);
        let n = queue[head];
        let ghost before = queue@;
        release_dependents(
            n,
            &es,
            &mut remaining,
            &mut queue,
            Ghost(g),
            Ghost(q0.take(head as int)),
        );
        let ghost q1 = names_at(g, queue@);
        assert(q0.is_prefix_of(q1)) by {
            assert forall|k: int| 0 <= k < q0.len() implies q0[k] == #[trigger] q1[k] by {
                assert(before[k] == queue@[k]);
            }
            assert(q1.take(q0.len() as int) =~= q0);
        }
        assert(q0.take(head as int).push(g[n as int].name) =~= q1.take(head + 1));
        assert forall|k: int| 0 <= k < head + 1 implies (#[trigger] queued(g, q1.take(k))).len()
            > k by {
            assert(q1.take(k) =~= q0.take(k));
        }
        head = head + 1;
    }
    let ghost q = names_at(g, queue@);
    assert(q.take(head as int) =~= q);
    assert(is_start_sequence(g, q));
    proof {
        if distinct_names(g) {
            start_order_exists_unless_cycle(g, q);
        }
    }
    if queue.len() != units.len() {
        return Err(OrderError::DependencyCycle);
    }
    let mut order: Vec<String> = Vec::new();
    let mut i: usize = 0;
    while i < queue.len()
        invariant
            i <= queue.len(),
            g == graph(units@),
            all_canon(g, queue@),
            order.len() == i,
            forall|k: int| 0 <= k < i ==> (#[trigger] order@[k])@ == names_at(g, queue@)[k],
        decreases queue.len() - i,
    {
        assert(canon(g, queue@[i as int] as int));
        order.push(units[queue[i]].name.clone());
        i = i + 1;
    }
    assert(strings(order@) =~= q);
    Ok(order)
}

proof fn lemma_incoming_bound(es: Seq<Edge>, d: Seq<char>)
    ensures
        incoming(es, d) <= es.len(),
    decreases es.len(),
{
    if es.len() > 0 {
        lemma_incoming_bound(es.drop_last(), d);
    }
}

proof fn lemma_canon_names(g: Seq<Node>, a: int, b: int)
    requires
        canon(g, a),
        canon(g, b),
        a != b,
    ensures
        g[a].name != g[b].name,
{
    if a < b {
        assert(g[a].name != g[b].name);
    } else {
        assert(g[b].name != g[a].name);
    }
}

} // verus!
