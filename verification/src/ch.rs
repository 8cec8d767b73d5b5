use vstd::prelude::*;
use crate::bitset::BitSet;
use crate::dijkstra::{add_weight, blocked_by, filled, lemma_graph_targets, not_reached, Dijkstra, Distance};
use crate::graph::{add_edge_spec, lemma_add_edge_in_range, wrapping_i32_succ, Edge, EdgeCounter, Graph, Node};
use crate::parallel::{current_num_threads, shortcuts_in_parallel, sort_by_edge_difference};
use crate::min_queue::{lemma_push_keeps, lemma_remove_keeps, pops_first, MinQueue};
use crate::paths::{
    back_reaches_with, in_arc, is_distance, lemma_distance_unique, search_result, lemma_extend_back_walk,
    lemma_extend_walk, lemma_reaches_bound, lemma_trivial_back_walk, lemma_trivial_walk,
    none_blocked, out_arc, paired, reaches_with, targets_in_range,
};
use crate::contraction::{
    among, contraction_inv, dominated, fits_at, grows, ids, lemma_finished, lemma_grows_trans, lemma_round,
    no_loops, positive, same_distances, lemma_same_distances, lemma_round_weak, round_apart,
};
use crate::selection::{lemma_selection, lemma_selection_apart, lemma_selection_list};
use crate::levels::{
    lemma_levels_end, lemma_levels_raise, lemma_levels_start, lemma_round_levels, levels_apart, levels_kept, planned,
    results_apart,
};
use crate::hierarchy::{bypassed, lemma_bypassed_up_down, levels_differ};
use crate::hierarchy::{
    dist_le, dists_valid, frontier_ok, keys_above, lemma_meeting_at_least, lemma_meetings_swap,
    lemma_meeting_walk, lemma_query_complete, lemma_stalled_not_lightest, lemma_up_relaxed_mono, meetings_ok,
    settled_below, side_distance, side_walk, up_down, up_relaxed,
};
use crate::bypass::{dips_ok, lemma_dips_end, lemma_dips_start, lemma_round_dips};
use crate::climb::{
    climb_walk, dist_in, dists_in, frontier_in, lemma_extend_climb, lemma_least_up_down, lemma_meeting_up_down,
    lemma_query_least, lemma_trivial_climb, walk_in,
};

verus! {

/// A shortcut to insert: the walk `from -> (contracted node) -> to`.
pub struct Shortcut {
    pub from: u64,
    pub to: u64,
    pub weight: u64,
    pub edge_id_a: u64,
    pub edge_id_b: u64,
}

impl Shortcut {
    pub fn new(from: u64, to: u64, weight: u64, edge_id_a: u64, edge_id_b: u64) -> (s: Self)
        ensures
            s == (Shortcut { from, to, weight, edge_id_a, edge_id_b }),
    {
        Shortcut { from, to, weight, edge_id_a, edge_id_b }
    }
}

/// The forward edge that a shortcut becomes, numbered `id`.
pub open spec fn shortcut_edge(sc: Shortcut, id: i32) -> Edge {
    Edge {
        target: sc.to,
        weight: sc.weight,
        edge_id_a: Some(sc.edge_id_a),
        edge_id_b: Some(sc.edge_id_b),
        id,
        dir: true,
    }
}

/// The edge lists and the creation count after adding the shortcuts `scs`
/// in order, each as a new edge from its `from` node.
pub open spec fn insert_shortcuts(adj: Seq<Seq<Edge>>, created: i32, scs: Seq<Shortcut>) -> (Seq<
    Seq<Edge>,
>, i32)
    decreases scs.len(),
{
    if scs.len() == 0 {
        (adj, created)
    } else {
        let prev = insert_shortcuts(adj, created, scs.drop_last());
        let id = wrapping_i32_succ(prev.1);
        (add_edge_spec(prev.0, scs.last().from as int, shortcut_edge(scs.last(), id)), id)
    }
}

pub open spec fn with_level(nodes: Seq<Node>, u: int, level: u16) -> Seq<Node> {
    nodes.update(u, Node { level, ..nodes[u] })
}

/// The graph, nodes, creation count and contracted marks after applying the
/// planned shortcuts of a round, node by node: the node's shortcuts are
/// added, the node gets `level`, and it is marked contracted.
pub open spec fn contraction_round(
    adj: Seq<Seq<Edge>>,
    nodes: Seq<Node>,
    created: i32,
    bits: Seq<bool>,
    results: Seq<(usize, Seq<Shortcut>)>,
    level: u16,
) -> (Seq<Seq<Edge>>, Seq<Node>, i32, Seq<bool>)
    decreases results.len(),
{
    if results.len() == 0 {
        (adj, nodes, created, bits)
    } else {
        let prev = contraction_round(adj, nodes, created, bits, results.drop_last(), level);
        let node = results.last().0;
        let ins = insert_shortcuts(prev.0, prev.2, results.last().1);
        (ins.0, with_level(prev.1, node as int, level), ins.1, prev.3.update(node as int, true))
    }
}

/// For each node of the set, in order, the shortcuts its contraction requires.
pub open spec fn planned_shortcuts(
    adj: Seq<Seq<Edge>>,
    bl: Seq<bool>,
    set: Seq<(isize, usize)>,
) -> Seq<(usize, Seq<Shortcut>)> {
    Seq::new(set.len(), |i: int| (set[i].1, node_shortcuts(adj, bl, set[i].1 as int)))
}

/// The number of edges at a node in direction `dir` whose target is not contracted.
pub open spec fn live_count(list: Seq<Edge>, bl: Seq<bool>, dir: bool) -> nat {
    list.filter(|e: Edge| e.dir == dir && !bl[e.target as int]).len()
}

/// The edge difference `i * o - i - o` of a node with `i` incoming and `o`
/// outgoing live edges, or `isize::MAX` when it does not fit in an `isize`.
pub open spec fn edge_difference(i: int, o: int) -> int {
    if i <= isize::MAX && o <= isize::MAX && i * o <= isize::MAX {
        i * o - i - o
    } else {
        isize::MAX as int
    }
}

pub open spec fn node_edge_difference(adj: Seq<Seq<Edge>>, bl: Seq<bool>, u: int) -> int {
    edge_difference(live_count(adj[u], bl, false) as int, live_count(adj[u], bl, true) as int)
}

/// Node `u` is the target of an edge stored at a selected node.
pub open spec fn next_to_selection(adj: Seq<Seq<Edge>>, sel: Seq<(isize, usize)>, u: int) -> bool {
    exists|i: int, k: int|
        0 <= i < sel.len() && 0 <= k < adj[sel[i].1 as int].len() && (#[trigger] adj[sel[i].1 as int][k]).target
            == u
}

/// One greedy pass over `nodes`: a node next to an already selected node is
/// deferred; any other node is selected together with its edge difference.
pub open spec fn greedy_selection(adj: Seq<Seq<Edge>>, bl: Seq<bool>, nodes: Seq<usize>) -> (Seq<
    (isize, usize),
>, Seq<usize>)
    decreases nodes.len(),
{
    if nodes.len() == 0 {
        (seq![], seq![])
    } else {
        let prev = greedy_selection(adj, bl, nodes.drop_last());
        let u = nodes.last();
        if next_to_selection(adj, prev.0, u as int) {
            (prev.0, prev.1.push(u))
        } else {
            (prev.0.push((node_edge_difference(adj, bl, u as int) as isize, u)), prev.1)
        }
    }
}

pub open spec fn key_is(k: isize) -> spec_fn((isize, usize)) -> bool {
    |p: (isize, usize)| p.0 == k
}

/// The entries of `s` with key `k`, in order.
pub open spec fn keyed(s: Seq<(isize, usize)>, k: isize) -> Seq<(isize, usize)> {
    s.filter(key_is(k))
}

/// `b` is `a` sorted by key, with entries of equal key in their order in `a`.
pub open spec fn is_stable_sort(a: Seq<(isize, usize)>, b: Seq<(isize, usize)>) -> bool {
    &&& b.len() == a.len()
    &&& forall|i: int, j: int| 0 <= i <= j < b.len() ==> (#[trigger] b[i]).0 <= (#[trigger] b[j]).0
    &&& forall|k: isize| #[trigger] keyed(b, k) == keyed(a, k)
}

/// The number of leading entries with a key of at most 0.
pub open spec fn nonpositive_prefix(s: Seq<(isize, usize)>) -> int
    decreases s.len(),
{
    if s.len() == 0 {
        0
    } else if s[0].0 <= 0 {
        1 + nonpositive_prefix(s.drop_first())
    } else {
        0
    }
}

pub open spec fn ceil_div(a: int, b: int) -> int {
    a / b + if a % b != 0 {
        1int
    } else {
        0int
    }
}

/// How many entries of the sorted candidates are contracted in this round:
/// all those with an edge difference of at most 0, and at least a sixteenth;
/// when there are none such, an eighth.
pub open spec fn cutoff(s: Seq<(isize, usize)>) -> int {
    let z = nonpositive_prefix(s);
    if z > 0 {
        if z >= ceil_div(s.len() as int, 16) {
            z
        } else {
            ceil_div(s.len() as int, 16)
        }
    } else {
        ceil_div(s.len() as int, 8)
    }
}

/// Whether the pair of a backward edge `a` (the road edge `a.target -> node`)
/// and a forward edge `b` (the road edge `node -> b.target`) needs a shortcut:
/// their combined weight fits, and no walk between their far ends that avoids
/// the contracted nodes is lighter.
pub open spec fn qualifies(adj: Seq<Seq<Edge>>, bl: Seq<bool>, a: Edge, b: Edge) -> bool {
    &&& a.weight + b.weight <= u64::MAX
    &&& a.weight + b.weight <= usize::MAX
    &&& exists|d: int|
        d <= usize::MAX && d >= a.weight + b.weight && #[trigger] is_distance(
            adj,
            blocked_by(bl),
            a.target as int,
            b.target as int,
            d,
        )
}

pub open spec fn make_shortcut(a: Edge, b: Edge) -> Shortcut {
    Shortcut {
        from: a.target,
        to: b.target,
        weight: (a.weight + b.weight) as u64,
        edge_id_a: a.id as u64,
        edge_id_b: b.id as u64,
    }
}

/// The shortcuts for the backward edge `a` paired with each forward edge of
/// `list` into a node that is not contracted, in the order of `list`.
pub open spec fn shortcut_row(adj: Seq<Seq<Edge>>, bl: Seq<bool>, a: Edge, list: Seq<Edge>) -> Seq<
    Shortcut,
>
    decreases list.len(),
{
    if list.len() == 0 {
        seq![]
    } else {
        let b = list.last();
        shortcut_row(adj, bl, a, list.drop_last()) + if b.dir && !bl[b.target as int] && qualifies(
            adj,
            bl,
            a,
            b,
        ) {
            seq![make_shortcut(a, b)]
        } else {
            seq![]
        }
    }
}

/// The rows of every backward edge of `ins` from a node that is not contracted.
pub open spec fn shortcut_table(
    adj: Seq<Seq<Edge>>,
    bl: Seq<bool>,
    ins: Seq<Edge>,
    list: Seq<Edge>,
) -> Seq<Shortcut>
    decreases ins.len(),
{
    if ins.len() == 0 {
        seq![]
    } else {
        let a = ins.last();
        shortcut_table(adj, bl, ins.drop_last(), list) + if !a.dir && !bl[a.target as int] {
            shortcut_row(adj, bl, a, list)
        } else {
            seq![]
        }
    }
}

/// The shortcuts that contracting `node` requires.
pub open spec fn node_shortcuts(adj: Seq<Seq<Edge>>, bl: Seq<bool>, node: int) -> Seq<Shortcut> {
    shortcut_table(adj, bl, adj[node], adj[node])
}

proof fn lemma_row_in_range(adj: Seq<Seq<Edge>>, bl: Seq<bool>, a: Edge, list: Seq<Edge>, n: int)
    requires
        a.target < n,
        forall|i: int| 0 <= i < list.len() ==> (#[trigger] list[i]).target < n,
    ensures
        forall|i: int|
            0 <= i < shortcut_row(adj, bl, a, list).len() ==> (#[trigger] shortcut_row(adj, bl, a, list)[i]).from
                < n && shortcut_row(adj, bl, a, list)[i].to < n,
    decreases list.len(),
{
    if list.len() > 0 {
        let prev = shortcut_row(adj, bl, a, list.drop_last());
        let full = shortcut_row(adj, bl, a, list);
        lemma_row_in_range(adj, bl, a, list.drop_last(), n);
        assert(list.last() == list[list.len() - 1]);
        assert forall|i: int| 0 <= i < full.len() implies (#[trigger] full[i]).from < n && full[i].to < n by {
            if i < prev.len() {
                assert(full[i] == prev[i]);
            } else {
                assert(full[i] == make_shortcut(a, list.last()));
            }
        }
    }
}

proof fn lemma_table_in_range(adj: Seq<Seq<Edge>>, bl: Seq<bool>, ins: Seq<Edge>, list: Seq<Edge>, n: int)
    requires
        forall|i: int| 0 <= i < ins.len() ==> (#[trigger] ins[i]).target < n,
        forall|i: int| 0 <= i < list.len() ==> (#[trigger] list[i]).target < n,
    ensures
        forall|i: int|
            0 <= i < shortcut_table(adj, bl, ins, list).len() ==> (#[trigger] shortcut_table(adj, bl, ins, list)[i]).from
                < n && shortcut_table(adj, bl, ins, list)[i].to < n,
    decreases ins.len(),
{
    if ins.len() > 0 {
        let prev = shortcut_table(adj, bl, ins.drop_last(), list);
        let full = shortcut_table(adj, bl, ins, list);
        let row = shortcut_row(adj, bl, ins.last(), list);
        lemma_table_in_range(adj, bl, ins.drop_last(), list, n);
        assert(ins.last() == ins[ins.len() - 1]);
        lemma_row_in_range(adj, bl, ins.last(), list, n);
        assert forall|i: int| 0 <= i < full.len() implies (#[trigger] full[i]).from < n && full[i].to < n by {
            if i < prev.len() {
                assert(full[i] == prev[i]);
            } else {
                assert(full[i] == row[i - prev.len()]);
            }
        }
    }
}

/// The number of edges of `list` in direction `dir` into nodes not marked in `contracted`.
fn live_degree(list: &Vec<Edge>, contracted: &BitSet, dir: bool, Ghost(n): Ghost<int>) -> (c: usize)
    requires
        n <= usize::MAX,
        forall|i: int| 0 <= i < list@.len() ==> (#[trigger] list@[i]).target < n,
        n <= contracted@.len(),
    ensures
        c == live_count(list@, contracted@, dir),
{
    let ghost bl = contracted@;
    let mut c: usize = 0;
    let mut i: usize = 0;
    while i < list.len()
        invariant
            i <= list@.len(),
            bl == contracted@,
            n <= bl.len(),
            n <= usize::MAX,
            forall|j: int| 0 <= j < list@.len() ==> (#[trigger] list@[j]).target < n,
            c == list@.take(i as int).filter(|e: Edge| e.dir == dir && !bl[e.target as int]).len(),
            c <= i,
        decreases list@.len() - i,
    {
        proof {
            reveal_with_fuel(Seq::<_>::filter, 1);
            assert(list@.take(i as int + 1).drop_last() =~= list@.take(i as int));
            assert(list@.take(i as int + 1).last() == list@[i as int]);
        }
        let e = list[i];
        assert(e.target < n);
        let v = e.target as usize;
        assert(v as int == e.target as int);
        if e.dir == dir && !contracted.get(v) {
            c = c + 1;
        }
        i = i + 1;
    }
    proof {
        assert(list@.take(list@.len() as int) =~= list@);
    }
    c
}

/// The edge difference of a node with `i` incoming and `o` outgoing live edges.
fn edge_difference_of(i: usize, o: usize) -> (d: isize)
    ensures
        d == edge_difference(i as int, o as int),
{
    if i <= isize::MAX as usize && o <= isize::MAX as usize {
        let ii = i as isize;
        let oo = o as isize;
        match ii.checked_mul(oo) {
            Some(p) => {
                assert(p - ii - oo >= isize::MIN) by (nonlinear_arith)
                    requires
                        p == ii * oo,
                        0 <= ii <= isize::MAX,
                        0 <= oo <= isize::MAX,
                ;
                p - ii - oo
            },
            None => isize::MAX,
        }
    } else {
        isize::MAX
    }
}

proof fn lemma_round_len(
    adj: Seq<Seq<Edge>>,
    nodes: Seq<Node>,
    created: i32,
    bits: Seq<bool>,
    results: Seq<(usize, Seq<Shortcut>)>,
    level: u16,
)
    requires
        forall|i: int| 0 <= i < results.len() ==> (#[trigger] results[i]).0 < bits.len(),
    ensures
        contraction_round(adj, nodes, created, bits, results, level).3.len() == bits.len(),
    decreases results.len(),
{
    if results.len() > 0 {
        lemma_round_len(adj, nodes, created, bits, results.drop_last(), level);
    }
}

proof fn lemma_nonpositive_prefix(s: Seq<(isize, usize)>, i: int)
    requires
        0 <= i <= s.len(),
        forall|j: int| 0 <= j < i ==> (#[trigger] s[j]).0 <= 0,
        i == s.len() || s[i].0 > 0,
    ensures
        nonpositive_prefix(s) == i,
    decreases i,
{
    if i > 0 {
        assert(s[0].0 <= 0);
        assert forall|j: int| 0 <= j < i - 1 implies (#[trigger] s.drop_first()[j]).0 <= 0 by {
            assert(s.drop_first()[j] == s[j + 1]);
        }
        if i < s.len() {
            assert(s.drop_first()[i - 1] == s[i]);
        }
        lemma_nonpositive_prefix(s.drop_first(), i - 1);
    }
}

proof fn lemma_greedy_facts(adj: Seq<Seq<Edge>>, bl: Seq<bool>, nodes: Seq<usize>, n: int)
    requires
        forall|i: int| 0 <= i < nodes.len() ==> (#[trigger] nodes[i]) < n,
    ensures
        greedy_selection(adj, bl, nodes).0.len() + greedy_selection(adj, bl, nodes).1.len() == nodes.len(),
        nodes.len() > 0 ==> greedy_selection(adj, bl, nodes).0.len() > 0,
        forall|i: int|
            0 <= i < greedy_selection(adj, bl, nodes).0.len() ==> (#[trigger] greedy_selection(
                adj,
                bl,
                nodes,
            ).0[i]).1 < n,
        forall|i: int|
            0 <= i < greedy_selection(adj, bl, nodes).1.len() ==> (#[trigger] greedy_selection(
                adj,
                bl,
                nodes,
            ).1[i]) < n,
    decreases nodes.len(),
{
    if nodes.len() > 0 {
        let prev = greedy_selection(adj, bl, nodes.drop_last());
        lemma_greedy_facts(adj, bl, nodes.drop_last(), n);
        let u = nodes.last();
        assert(u == nodes[nodes.len() - 1]);
        if prev.0.len() == 0 {
            assert(!next_to_selection(adj, prev.0, u as int));
        }
        let g = greedy_selection(adj, bl, nodes);
        assert forall|i: int| 0 <= i < g.0.len() implies (#[trigger] g.0[i]).1 < n by {
            if i < prev.0.len() {
                assert(g.0[i] == prev.0[i]);
            }
        }
        assert forall|i: int| 0 <= i < g.1.len() implies (#[trigger] g.1[i]) < n by {
            if i < prev.1.len() {
                assert(g.1[i] == prev.1[i]);
            }
        }
    }
}

/// `b` is the weight of a forward walk from `s` to some node `m` plus that
/// of a backward walk from `t` to the same `m`.
pub open spec fn meets(adj: Seq<Seq<Edge>>, s: int, t: int, b: int) -> bool {
    exists|m: int, a: int, c: int|
        #![trigger reaches_with(adj, none_blocked(), s, m, a), back_reaches_with(adj, t, m, c)]
        0 <= m < adj.len() && reaches_with(adj, none_blocked(), s, m, a) && back_reaches_with(
            adj,
            t,
            m,
            c,
        ) && b == a + c
}

/// `d` is the weight of a walk from `root` to `x` in the direction of the search.
pub open spec fn side_reaches(adj: Seq<Seq<Edge>>, forward: bool, root: int, x: int, d: int) -> bool {
    if forward {
        reaches_with(adj, none_blocked(), root, x, d)
    } else {
        back_reaches_with(adj, root, x, d)
    }
}

/// The distance recorded for `x` is that of a walk from `root`.
pub open spec fn side_valid(
    adj: Seq<Seq<Edge>>,
    forward: bool,
    root: int,
    dist: Seq<Option<usize>>,
    x: int,
) -> bool {
    &&& 0 <= x < dist.len()
    &&& dist[x] is Some
    &&& side_reaches(adj, forward, root, x, dist[x].unwrap() as int)
}

/// What one direction of a query keeps true: every waiting entry and every
/// visited node has a recorded distance that is the weight of a walk from the
/// root, and every waiting key is such a weight too.
pub open spec fn side_inv(
    adj: Seq<Seq<Edge>>,
    forward: bool,
    root: int,
    dist: Seq<Option<usize>>,
    q: Seq<Distance>,
    visited: Seq<usize>,
) -> bool {
    &&& forall|j: int|
        0 <= j < q.len() ==> side_valid(adj, forward, root, dist, (#[trigger] q[j]).id as int)
            && side_reaches(adj, forward, root, q[j].id as int, q[j].weight as int)
    &&& forall|j: int| 0 <= j < visited.len() ==> side_valid(adj, forward, root, dist, #[trigger] visited[j] as int)
}

/// What a query owes when it starts with no distance recorded from an
/// earlier query and every stored edge has a partner no heavier at its
/// other end: a lightest walk from `s` to `t` that the hierarchy offers as
/// climbing and then descending, and that weighs less than `usize::MAX`, is
/// found, and a result at all only comes with a walk from `s` to `t`.
pub open spec fn query_exact(graph: Graph, fresh: bool, s: int, t: int, r: Option<usize>) -> bool {
    let adj = graph.adj();
    &&& fresh && paired(adj) ==> forall|d: int|
        #[trigger] is_distance(adj, none_blocked(), s, t, d) && d < usize::MAX && up_down(adj, graph.nodes@, s, t, d)
            ==> r == Some(d as usize)
    &&& paired(adj) ==> (r matches Some(b) ==> exists|d: int| d <= b && #[trigger] reaches_with(adj, none_blocked(), s, t, d))
}

/// What a query without stall-on-demand owes when it starts with no
/// distance recorded from an earlier query and every stored edge has a
/// partner no heavier at its other end, whatever the levels: it returns the
/// weight of a lightest walk that climbs and then descends, or nothing when
/// no such walk weighs less than `usize::MAX`.
pub open spec fn query_least(graph: Graph, fresh: bool, s: int, t: int, r: Option<usize>) -> bool {
    let adj = graph.adj();
    fresh && paired(adj) ==> {
        &&& r matches Some(b) ==> up_down(adj, graph.nodes@, s, t, b as int)
        &&& forall|d: int| #[trigger] up_down(adj, graph.nodes@, s, t, d) && d < usize::MAX ==> (r matches Some(b) && b <= d)
    }
}

/// One side of a query that follows any walks keeps what the plain
/// invariants of the hierarchy say.
proof fn lemma_side_ok_plain(
    adj: Seq<Seq<Edge>>,
    nodes: Seq<Node>,
    forward: bool,
    root: int,
    dist: Seq<Option<usize>>,
    q: Seq<Distance>,
    vis: Seq<usize>,
    best: int,
)
    requires
        side_ok(adj, nodes, false, forward, root, dist, q, vis, best),
    ensures
        dists_valid(adj, forward, root, dist),
        frontier_ok(adj, nodes, forward, root, dist, q, vis, best),
{
    assert forall|x: int| 0 <= x < dist.len() && (#[trigger] dist[x]) is Some implies side_walk(adj, forward, root, x,
        dist[x].unwrap() as int) by {
        assert(walk_in(adj, nodes, false, forward, root, x, dist[x].unwrap() as int));
    }
    assert forall|x: int|
        0 <= x < dist.len() && (#[trigger] dist[x]) is Some && side_distance(adj, forward, root, x, dist[x].unwrap() as int)
            && dist[x].unwrap() <= best implies q.contains(Distance { weight: dist[x].unwrap(), id: x as usize }) || (
        vis.contains(x as usize) && up_relaxed(adj, nodes, forward, dist, x, dist[x].unwrap() as int)) by {
        assert(dist_in(adj, nodes, false, forward, root, x, dist[x].unwrap() as int));
    }
}

/// The best meeting weight found so far: none yet, or a real meeting.
pub open spec fn best_ok(adj: Seq<Seq<Edge>>, s: int, t: int, best: usize) -> bool {
    best == usize::MAX || meets(adj, s, t, best as int)
}

/// Recorded distances read as numbers, `None` counting as `usize::MAX + 1`.
pub open spec fn opt_total(d: Seq<Option<usize>>) -> int
    decreases d.len(),
{
    if d.len() == 0 {
        0
    } else {
        opt_total(d.drop_last()) + match d.last() {
            Some(v) => v as int,
            None => usize::MAX as int + 1,
        }
    }
}

proof fn lemma_opt_total_update(d: Seq<Option<usize>>, i: int, v: usize)
    requires
        0 <= i < d.len(),
    ensures
        opt_total(d.update(i, Some(v))) == opt_total(d) - match d[i] {
            Some(x) => x as int,
            None => usize::MAX as int + 1,
        } + v,
        opt_total(d) >= 0,
    decreases d.len(),
{
    if i == d.len() - 1 {
        assert(d.update(i, Some(v)).drop_last() =~= d.drop_last());
        lemma_opt_total_nonneg(d.drop_last());
    } else {
        assert(d.update(i, Some(v)).drop_last() =~= d.drop_last().update(i, Some(v)));
        lemma_opt_total_update(d.drop_last(), i, v);
    }
}

proof fn lemma_opt_total_nonneg(d: Seq<Option<usize>>)
    ensures
        opt_total(d) >= 0,
    decreases d.len(),
{
    if d.len() > 0 {
        lemma_opt_total_nonneg(d.drop_last());
    }
}

/// Whether `v` occurs in `list`.
fn contains_node(list: &Vec<usize>, v: usize) -> (r: bool)
    ensures
        r == list@.contains(v),
{
    let mut i: usize = 0;
    while i < list.len()
        invariant
            i <= list@.len(),
            forall|j: int| 0 <= j < i ==> list@[j] != v,
        decreases list@.len() - i,
    {
        if list[i] == v {
            assert(list@[i as int] == v);
            return true;
        }
        i = i + 1;
    }
    false
}

/// `x + y` when it fits in a `usize`.
fn add_dist(x: usize, y: usize) -> (r: Option<usize>)
    ensures
        r is Some <==> x + y <= usize::MAX,
        r matches Some(z) ==> z == x + y,
{
    if y > usize::MAX - x {
        None
    } else {
        Some(x + y)
    }
}

/// The edge `e` stored at `u` runs against the direction of the search to a
/// node on a higher level whose recorded distance plus the edge's weight is
/// below `du`.
pub open spec fn stalls_through(
    e: Edge,
    nodes: Seq<Node>,
    forward: bool,
    dist: Seq<Option<usize>>,
    u: int,
    du: int,
) -> bool {
    &&& e.dir != forward
    &&& nodes[u].level < nodes[e.target as int].level
    &&& dist[e.target as int] is Some
    &&& dist[e.target as int].unwrap() + e.weight < du
}

/// Stall-on-demand: whether some neighbour `v` of `u` on a higher level,
/// joined to `u` by an edge against the direction of the search, is known
/// to reach `u` more cheaply than `du`.
fn is_stalled(graph: &Graph, forward: bool, dist: &Vec<Option<usize>>, u: usize, du: usize) -> (r: bool)
    requires
        graph.well_formed(),
        u < graph.nodes@.len(),
        dist@.len() == graph.nodes@.len(),
    ensures
        r ==> du > 0,
        r <==> exists|i: int|
            0 <= i < graph.adj()[u as int].len() && #[trigger] stalls_through(
                graph.adj()[u as int][i],
                graph.nodes@,
                forward,
                dist@,
                u as int,
                du as int,
            ),
{
    let n = graph.nodes.len();
    let level_u = graph.nodes[u].level;
    let len = graph.edges[u].len();
    let ghost adj = graph.adj();
    proof {
        assert(adj[u as int] == graph.edges@[u as int]@);
    }
    let mut k: usize = 0;
    while k < len
        invariant
            n == graph.nodes@.len(),
            k <= len,
            len == graph.edges@[u as int]@.len(),
            u < graph.edges@.len(),
            adj == graph.adj(),
            adj[u as int] == graph.edges@[u as int]@,
            level_u == graph.nodes@[u as int].level,
            dist@.len() == graph.nodes@.len(),
            graph.well_formed(),
            forall|j: int|
                0 <= j < k ==> !#[trigger] stalls_through(adj[u as int][j], graph.nodes@, forward, dist@, u as int, du as int),
        decreases len - k,
    {
        let edge = graph.edges[u][k];
        assert(edge.target < graph.nodes@.len());
        assert(edge == adj[u as int][k as int]);
        if edge.dir != forward {
            let v = edge.target as usize;
            assert(v as int == edge.target as int);
            if graph.nodes[v].level > level_u {
                let dv = match dist[v] {
                    Some(x) => x,
                    None => usize::MAX,
                };
                match add_weight(dv, edge.weight) {
                    Some(vd) => {
                        if vd < du {
                            proof {
                                assert(dist@[v as int] is Some);
                                assert(stalls_through(adj[u as int][k as int], graph.nodes@, forward, dist@, u as int, du as int));
                            }
                            return true;
                        }
                    },
                    None => {},
                }
            }
        }
        k = k + 1;
    }
    false
}

/// Everything one direction of a query keeps true: recorded distances and
/// waiting entries are weights of walks from the root, visited nodes are
/// settled below every waiting weight, and the frontier covers every node
/// whose lightest distance is recorded and no more than `best`.
pub open spec fn side_ok(
    adj: Seq<Seq<Edge>>,
    nodes: Seq<Node>,
    up: bool,
    forward: bool,
    root: int,
    dist: Seq<Option<usize>>,
    q: Seq<Distance>,
    vis: Seq<usize>,
    best: int,
) -> bool {
    &&& side_inv(adj, forward, root, dist, q, vis)
    &&& dists_in(adj, nodes, up, forward, root, dist)
    &&& keys_above(dist, q)
    &&& settled_below(dist, q, vis)
    &&& frontier_in(adj, nodes, up, forward, root, dist, q, vis, best)
}

proof fn lemma_frontier_best_mono(
    adj: Seq<Seq<Edge>>,
    nodes: Seq<Node>,
    up: bool,
    forward: bool,
    root: int,
    dist: Seq<Option<usize>>,
    q: Seq<Distance>,
    vis: Seq<usize>,
    best: int,
    best2: int,
)
    requires
        frontier_in(adj, nodes, up, forward, root, dist, q, vis, best),
        best2 <= best,
    ensures
        frontier_in(adj, nodes, up, forward, root, dist, q, vis, best2),
{
}

/// One step of one direction of a contraction-hierarchy query: pops the
/// next entry, prunes it when it is stale, heavier than `best`, or (with
/// stall-on-demand) reachable more cheaply from a higher node, and otherwise
/// records a possible meeting and relaxes the upward edges. Returns whether
/// the entry was pruned, and the new best meeting weight.
fn search_step(
    graph: &Graph,
    forward: bool,
    stall: bool,
    dist: &mut Vec<Option<usize>>,
    other_dist: &Vec<Option<usize>>,
    heap: &mut MinQueue,
    visited: &mut Vec<usize>,
    other_visited: &Vec<usize>,
    best: usize,
    Ghost(s): Ghost<usize>,
    Ghost(t): Ghost<usize>,
    Ghost(strong): Ghost<bool>,
    Ghost(up): Ghost<bool>,
) -> (res: (bool, usize))
    requires
        graph.well_formed(),
        strong ==> paired(graph.adj()),
        up ==> !stall,
        strong && up ==> dists_in(graph.adj(), graph.nodes@, true, !forward, if forward { t as int } else { s as int }, other_dist@),
        old(dist)@.len() == graph.nodes@.len(),
        other_dist@.len() == graph.nodes@.len(),
        forall|j: int| 0 <= j < old(heap)@.len() ==> (#[trigger] old(heap)@[j]).id < graph.nodes@.len(),
        forall|j: int| 0 <= j < old(visited)@.len() ==> #[trigger] old(visited)@[j] < graph.nodes@.len(),
        side_inv(graph.adj(), forward, if forward { s as int } else { t as int }, old(dist)@, old(heap)@, old(visited)@),
        strong ==> side_ok(graph.adj(), graph.nodes@, up, forward, if forward { s as int } else { t as int }, old(dist)@, old(heap)@, old(visited)@, best as int),
        forall|j: int|
            0 <= j < other_visited@.len() ==> side_valid(
                graph.adj(),
                !forward,
                if forward { t as int } else { s as int },
                other_dist@,
                #[trigger] other_visited@[j] as int,
            ),
        strong ==> meetings_ok(old(dist)@, old(visited)@, other_dist@, other_visited@, best as int) || ({
            let root = if forward { s } else { t };
            old(heap)@ == seq![Distance { weight: 0, id: root }] && old(dist)@[root as int] == Some(0usize)
                && other_visited@.contains(root) && other_dist@[root as int] == Some(0usize)
        }),
        best_ok(graph.adj(), s as int, t as int, best),
        s < graph.nodes@.len(),
        t < graph.nodes@.len(),
    ensures
        final(dist)@.len() == graph.nodes@.len(),
        forall|j: int| 0 <= j < final(heap)@.len() ==> (#[trigger] final(heap)@[j]).id < graph.nodes@.len(),
        forall|j: int| 0 <= j < final(visited)@.len() ==> #[trigger] final(visited)@[j] < graph.nodes@.len(),
        side_inv(graph.adj(), forward, if forward { s as int } else { t as int }, final(dist)@, final(heap)@, final(visited)@),
        strong ==> side_ok(graph.adj(), graph.nodes@, up, forward, if forward { s as int } else { t as int }, final(dist)@, final(heap)@, final(visited)@, res.1 as int),
        strong && up ==> res.1 == best || up_down(graph.adj(), graph.nodes@, s as int, t as int, res.1 as int),
        strong ==> meetings_ok(final(dist)@, final(visited)@, other_dist@, other_visited@, res.1 as int),
        dist_le(final(dist)@, old(dist)@),
        best_ok(graph.adj(), s as int, t as int, res.1),
        res.1 <= best,
        old(heap)@.len() == 0 ==> final(heap)@ == old(heap)@ && final(dist)@ == old(dist)@ && !res.0,
        old(heap)@.len() > 0 ==> opt_total(final(dist)@) + final(heap)@.len() < opt_total(old(dist)@) + old(heap)@.len(),
        ({
            let root = if forward { s } else { t };
            old(heap)@ == seq![Distance { weight: 0, id: root }] && old(dist)@[root as int] == Some(0usize)
                && other_visited@.contains(root) && other_dist@[root as int] == Some(0usize) ==> res.1 == 0
        }),
{
    let ghost adj = graph.adj();
    let ghost nodes = graph.nodes@;
    let ghost root: int = if forward { s as int } else { t as int };
    let ghost other_root: int = if forward { t as int } else { s as int };
    let ghost dist0 = dist@;
    let ghost vis0 = visited@;
    let n = graph.nodes.len();
    proof {
        lemma_graph_targets(graph);
        lemma_opt_total_nonneg(dist@);
    }
    let ghost q0 = heap@;
    let top = heap.pop();
    let e = match top {
        None => { return (false, best); },
        Some(e) => e,
    };
    let d = e.weight;
    let u = e.id;
    let ghost i0 = choose|i: int| 0 <= i < q0.len() && q0[i] == e && heap@ == q0.remove(i);
    let ghost q1 = heap@;
    proof {
        assert(q0[i0] == e);
        if q0 == seq![Distance { weight: 0, id: if forward { s } else { t } }] {
            assert(e == q0[0]);
        }
        assert(side_valid(adj, forward, root, dist@, u as int));
        assert forall|j: int| 0 <= j < heap@.len() implies (#[trigger] heap@[j]).id < graph.nodes@.len()
            && side_valid(adj, forward, root, dist@, heap@[j].id as int)
            && side_reaches(adj, forward, root, heap@[j].id as int, heap@[j].weight as int)
            && (strong ==> dist@[heap@[j].id as int].unwrap() <= heap@[j].weight)
            && q0[i0].weight <= heap@[j].weight by {
            if j < i0 {
                assert(heap@[j] == q0[j]);
            } else {
                assert(heap@[j] == q0[j + 1]);
            }
            assert(pops_first(e, heap@[j]));
        }
    }
    proof {
      if strong {
        assert(settled_below(dist@, q1, visited@)) by {
            assert forall|j: int, k: int| 0 <= j < visited@.len() && 0 <= k < q1.len() implies (#[trigger] visited@[j])
                < dist@.len() && dist@[visited@[j] as int] is Some && dist@[visited@[j] as int].unwrap() <= (
            #[trigger] q1[k]).weight by {
                if k < i0 {
                    assert(q1[k] == q0[k]);
                } else {
                    assert(q1[k] == q0[k + 1]);
                }
            }
        }
        assert(keys_above(dist@, q0));
        assert(dist@[u as int] is Some && dist@[u as int].unwrap() <= d);
        // the frontier after the pop: only the popped entry left the queue
        assert forall|x: int|
            0 <= x < dist@.len() && (#[trigger] dist@[x]) is Some && q0.contains(
                Distance { weight: dist@[x].unwrap(), id: x as usize },
            ) && !(x == u as int && dist@[x].unwrap() == d) implies q1.contains(
            Distance { weight: dist@[x].unwrap(), id: x as usize },
        ) by {
            lemma_remove_keeps(q0, i0, Distance { weight: dist@[x].unwrap(), id: x as usize });
        }
      }
    }
    let du = match dist[u] {
        Some(x) => x,
        None => usize::MAX,
    };
    if d > du || d > best {
        proof {
          if strong {
            assert(keys_above(dist@, heap@)) by {
                assert forall|k: int| 0 <= k < heap@.len() implies (#[trigger] heap@[k]).id < dist@.len() && dist@[heap@[k].id as int] is Some
                    && dist@[heap@[k].id as int].unwrap() <= heap@[k].weight by {
                    assert(side_valid(adj, forward, root, dist@, heap@[k].id as int));
                }
            }
          }
        }
        return (true, best);
    }
    proof {
        if strong {
            assert(du == d);
        }
    }
    let level_u = graph.nodes[u].level;
    let len = graph.edges[u].len();
    proof {
        assert(adj[u as int] == graph.edges@[u as int]@);
    }
    if stall && is_stalled(graph, forward, dist, u, du) {
        proof {
          if strong {
            let i = choose|i: int|
                0 <= i < graph.adj()[u as int].len() && (#[trigger] graph.adj()[u as int][i]).dir != forward
                    && graph.nodes@[u as int].level < graph.nodes@[graph.adj()[u as int][i].target as int].level
                    && dist@[graph.adj()[u as int][i].target as int] is Some
                    && dist@[graph.adj()[u as int][i].target as int].unwrap() + graph.adj()[u as int][i].weight < du;
            assert(adj[u as int][i].target < adj.len());
            assert(dists_valid(adj, forward, root, dist@)) by {
                assert forall|x: int| 0 <= x < dist@.len() && (#[trigger] dist@[x]) is Some implies side_walk(adj, forward,
                    root, x, dist@[x].unwrap() as int) by {
                    assert(walk_in(adj, nodes, up, forward, root, x, dist@[x].unwrap() as int));
                }
            }
            lemma_stalled_not_lightest(adj, forward, root, dist@, u as int, i, du as int);
            assert(!dist_in(adj, nodes, up, forward, root, u as int, du as int));
            assert(keys_above(dist@, heap@)) by {
                assert forall|k: int| 0 <= k < heap@.len() implies (#[trigger] heap@[k]).id < dist@.len() && dist@[heap@[k].id as int] is Some
                    && dist@[heap@[k].id as int].unwrap() <= heap@[k].weight by {
                    assert(side_valid(adj, forward, root, dist@, heap@[k].id as int));
                }
            }
          }
        }
        return (true, best);
    }
    visited.push(u);
    let mut new_best = best;
    if contains_node(other_visited, u) {
        let ghost j = choose|j: int| 0 <= j < other_visited@.len() && other_visited@[j] == u;
        assert(side_valid(adj, !forward, other_root, other_dist@, other_visited@[j] as int));
        let du_own = match dist[u] {
            Some(x) => x,
            None => usize::MAX,
        };
        let du_other = match other_dist[u] {
            Some(x) => x,
            None => usize::MAX,
        };
        match add_dist(du_own, du_other) {
            Some(sum) => {
                if sum < new_best {
                    new_best = sum;
                    proof {
                        if forward {
                            assert(reaches_with(adj, none_blocked(), s as int, u as int, du_own as int));
                            assert(back_reaches_with(adj, t as int, u as int, du_other as int));
                        } else {
                            assert(reaches_with(adj, none_blocked(), s as int, u as int, du_other as int));
                            assert(back_reaches_with(adj, t as int, u as int, du_own as int));
                        }
                        if strong && up {
                            assert(walk_in(adj, nodes, up, forward, root, u as int, du_own as int));
                            assert(walk_in(adj, nodes, true, !forward, other_root, u as int, du_other as int));
                            if forward {
                                lemma_meeting_up_down(adj, nodes, s as int, t as int, u as int, du_own as int, du_other as int);
                            } else {
                                lemma_meeting_up_down(adj, nodes, s as int, t as int, u as int, du_other as int, du_own as int);
                            }
                        }
                    }
                }
            },
            None => {},
        }
    }
    let ghost vis1 = visited@;
    let ghost dist_mid = dist@;
    proof {
        assert(vis1[vis1.len() - 1] == u);
        assert forall|j: int| 0 <= j < visited@.len() implies side_valid(adj, forward, root, dist@,
            #[trigger] visited@[j] as int) by {
            if j < visited@.len() - 1 {
                assert(visited@[j] == old(visited)@[j]);
            }
        }
    }
    proof {
      if strong {
        assert forall|x: usize| #[trigger] vis1.contains(x) implies x < dist_mid.len() && dist_mid[x as int] is Some
            && dist_mid[x as int].unwrap() <= d by {
            let j = choose|j: int| 0 <= j < vis1.len() && vis1[j] == x;
            if j < vis1.len() - 1 {
                assert(vis0[j] == x);
                assert(settled_below(dist0, q0, vis0));
                assert(vis0[j] < dist0.len() && dist0[vis0[j] as int] is Some && dist0[vis0[j] as int].unwrap() <= q0[i0].weight);
            }
        }
        assert(meetings_ok(dist@, visited@, other_dist@, other_visited@, new_best as int)) by {
          if new_best > 0 {
            assert forall|x: usize|
                #![trigger visited@.contains(x), other_visited@.contains(x)]
                visited@.contains(x) && other_visited@.contains(x) && dist@[x as int] is Some && other_dist@[x as int] is Some
                    && dist@[x as int].unwrap() + other_dist@[x as int].unwrap() <= usize::MAX implies new_best
                <= dist@[x as int].unwrap() + other_dist@[x as int].unwrap() by {
                if x != u {
                    let j = choose|j: int| 0 <= j < visited@.len() && visited@[j] == x;
                    assert(j < visited@.len() - 1);
                    assert(vis0[j] == x);
                    assert(vis0.contains(x));
                }
            }
          }
        }
      }
    }
    let mut k: usize = 0;
    while k < len
        invariant
            k <= len,
            n == graph.nodes@.len(),
            root == (if forward { s as int } else { t as int }),
            len == adj[u as int].len(),
            adj == graph.adj(),
            nodes == graph.nodes@,
            targets_in_range(adj),
            u < adj.len(),
            level_u == nodes[u as int].level,
            side_reaches(adj, forward, root, u as int, d as int),
            dist@.len() == graph.nodes@.len(),
            graph.well_formed(),
            visited@ == vis1,
            vis1.contains(u),
            strong ==> dist_mid[u as int] == Some(d),
            strong ==> forall|x: usize| #[trigger] vis1.contains(x) ==> x < dist_mid.len() && dist_mid[x as int] is Some
                && dist_mid[x as int].unwrap() <= d,
            strong ==> forall|x: usize| #[trigger] vis1.contains(x) ==> dist@[x as int] == dist_mid[x as int],
            forall|j: int| 0 <= j < visited@.len() ==> #[trigger] visited@[j] < graph.nodes@.len(),
            forall|j: int| 0 <= j < heap@.len() ==> (#[trigger] heap@[j]).id < graph.nodes@.len(),
            side_inv(adj, forward, root, dist@, heap@, visited@),
            strong ==> dists_in(adj, nodes, up, forward, root, dist@),
            dist_le(dist@, dist_mid),
            dist_mid.len() == dist@.len(),
            heap@.len() >= q1.len(),
            forall|j: int| 0 <= j < q1.len() ==> heap@[j] == q1[j],
            forall|j: int| q1.len() <= j < heap@.len() ==> (#[trigger] heap@[j]).weight >= d,
            forall|j: int| 0 <= j < q1.len() ==> (#[trigger] q1[j]).weight >= d,
            strong ==> keys_above(dist@, heap@),
            forall|x: int|
                0 <= x < dist@.len() && (#[trigger] dist@[x]) != dist_mid[x] ==> dist@[x] is Some && heap@.contains(
                    Distance { weight: dist@[x].unwrap(), id: x as usize },
                ),
            forall|i: int|
                0 <= i < k && (#[trigger] adj[u as int][i]).dir == forward && nodes[u as int].level
                    < nodes[adj[u as int][i].target as int].level && d + adj[u as int][i].weight < usize::MAX ==> dist@[adj[u as int][i].target as int] is Some
                    && dist@[adj[u as int][i].target as int].unwrap() <= d + adj[u as int][i].weight,
            opt_total(dist@) + heap@.len() <= opt_total(old(dist)@) + q0.len() - 1,
        decreases len - k,
    {
        let edge = graph.edges[u][k];
        proof {
            assert(edge == adj[u as int][k as int]);
            assert(edge.target < adj.len());
        }
        assert(edge.target < n);
        if edge.dir == forward {
            let v = edge.target as usize;
            assert(v as int == edge.target as int);
            if graph.nodes[v].level > level_u {
                match add_weight(d, edge.weight) {
                    Some(new_dist) => {
                        let dv = match dist[v] {
                            Some(x) => x,
                            None => usize::MAX,
                        };
                        if new_dist < dv {
                            let ghost dd = dist@;
                            let ghost qq = heap@;
                            proof {
                                if forward {
                                    assert(out_arc(adj, none_blocked(), u as int, v as int, edge.weight as int));
                                    lemma_extend_walk(adj, none_blocked(), s as int, u as int, v as int, d as int,
                                        edge.weight as int);
                                } else {
                                    assert(in_arc(adj, u as int, v as int, edge.weight as int));
                                    lemma_extend_back_walk(adj, t as int, u as int, v as int, d as int, edge.weight as int);
                                }
                                lemma_opt_total_update(dd, v as int, new_dist);
                                if strong && vis1.contains(v) {
                                    assert(dd[v as int] == dist_mid[v as int]);
                                }
                            }
                            dist.set(v, Some(new_dist));
                            heap.push(Distance::new(new_dist, v));
                            proof {
                                let ent = Distance { weight: new_dist, id: v };
                                assert(heap@ == qq.push(ent));
                                assert(strong ==> !vis1.contains(v));
                                assert forall|j: int| 0 <= j < heap@.len() implies side_valid(adj, forward, root, dist@,
                                    (#[trigger] heap@[j]).id as int)
                                    && side_reaches(adj, forward, root, heap@[j].id as int, heap@[j].weight as int)
                                    && heap@[j].id < graph.nodes@.len() by {
                                    if j < qq.len() {
                                        assert(heap@[j] == qq[j]);
                                        assert(side_valid(adj, forward, root, dd, qq[j].id as int));
                                    }
                                }
                                assert forall|j: int| 0 <= j < visited@.len() implies side_valid(adj, forward, root,
                                    dist@, #[trigger] visited@[j] as int) by {
                                    assert(side_valid(adj, forward, root, dd, visited@[j] as int));
                                }
                                if strong {
                                if up {
                                    assert(dd[u as int] == Some(d));
                                    assert(walk_in(adj, nodes, up, forward, root, u as int, d as int));
                                    lemma_extend_climb(adj, nodes, forward, root, u as int, v as int, d as int, edge.weight as int);
                                }
                                assert(dists_in(adj, nodes, up, forward, root, dist@)) by {
                                    assert forall|x: int| 0 <= x < dist@.len() && (#[trigger] dist@[x]) is Some implies walk_in(
                                        adj, nodes, up, forward, root, x, dist@[x].unwrap() as int) by {
                                        if x != v as int {
                                            assert(dist@[x] == dd[x]);
                                        }
                                    }
                                }
                                assert(keys_above(dist@, heap@)) by {
                                    assert forall|kk: int| 0 <= kk < heap@.len() implies (#[trigger] heap@[kk]).id < dist@.len()
                                        && dist@[heap@[kk].id as int] is Some && dist@[heap@[kk].id as int].unwrap()
                                        <= heap@[kk].weight by {
                                        if kk < qq.len() {
                                            assert(heap@[kk] == qq[kk]);
                                        }
                                    }
                                }
                                }
                                assert(dist_le(dist@, dist_mid)) by {
                                    assert forall|x: int| 0 <= x < dist_mid.len() && (#[trigger] dist_mid[x]) is Some implies dist@[x] is Some
                                        && dist@[x].unwrap() <= dist_mid[x].unwrap() by {
                                        assert(dd[x] is Some && dd[x].unwrap() <= dist_mid[x].unwrap());
                                    }
                                }
                                assert forall|x: int|
                                    0 <= x < dist@.len() && (#[trigger] dist@[x]) != dist_mid[x] implies dist@[x] is Some
                                    && heap@.contains(Distance { weight: dist@[x].unwrap(), id: x as usize }) by {
                                    if x == v as int {
                                        lemma_push_keeps(qq, ent, ent);
                                    } else {
                                        assert(dist@[x] == dd[x]);
                                        lemma_push_keeps(qq, ent, Distance { weight: dd[x].unwrap(), id: x as usize });
                                    }
                                }
                                if strong {
                                assert forall|x: usize| #[trigger] vis1.contains(x) implies dist@[x as int] == dist_mid[x as int] by {
                                    if x != v {
                                        assert(dist@[x as int] == dd[x as int]);
                                    }
                                }
                                }
                                assert forall|i: int|
                                    0 <= i < k + 1 && (#[trigger] adj[u as int][i]).dir == forward && nodes[u as int].level
                                        < nodes[adj[u as int][i].target as int].level && d + adj[u as int][i].weight < usize::MAX implies dist@[adj[u as int][i].target as int] is Some
                                        && dist@[adj[u as int][i].target as int].unwrap() <= d + adj[u as int][i].weight by {
                                    let y = adj[u as int][i].target as int;
                                    if i < k {
                                        assert(dd[y] is Some && dd[y].unwrap() <= d + adj[u as int][i].weight);
                                    }
                                }
                            }
                        } else {
                            proof {
                                if dist@[v as int] is None {
                                    assert(new_dist == usize::MAX);
                                }
                            }
                        }
                    },
                    None => {},
                }
            }
        }
        k = k + 1;
    }
    proof {
        assert(dist_le(dist@, dist0)) by {
            assert forall|y: int| 0 <= y < dist0.len() && (#[trigger] dist0[y]) is Some implies dist@[y] is Some
                && dist@[y].unwrap() <= dist0[y].unwrap() by {
                assert(dist_mid[y] == dist0[y]);
            }
        }
    }
    proof {
      if strong {
        let best1 = new_best as int;
        assert(up_relaxed(adj, nodes, forward, dist@, u as int, d as int));
        assert(dist@[u as int] == Some(d));
        assert(settled_below(dist@, heap@, visited@)) by {
            assert forall|j: int, kk: int| 0 <= j < visited@.len() && 0 <= kk < heap@.len() implies (#[trigger] visited@[j])
                < dist@.len() && dist@[visited@[j] as int] is Some && dist@[visited@[j] as int].unwrap() <= (
            #[trigger] heap@[kk]).weight by {
                let x = visited@[j];
                assert(vis1.contains(x));
                if kk < q1.len() {
                    assert(heap@[kk] == q1[kk]);
                }
            }
        }
        assert(frontier_in(adj, nodes, up, forward, root, dist@, heap@, visited@, best1)) by {
            assert forall|x: int|
                0 <= x < dist@.len() && (#[trigger] dist@[x]) is Some && dist_in(adj, nodes, up, forward, root, x, dist@[x].unwrap() as int)
                    && dist@[x].unwrap() <= best1 implies heap@.contains(Distance { weight: dist@[x].unwrap(), id: x as usize }) || (
                visited@.contains(x as usize) && up_relaxed(adj, nodes, forward, dist@, x, dist@[x].unwrap() as int)) by {
                if x == u as int {
                } else if dist@[x] != dist_mid[x] {
                } else {
                    assert(dist@[x] == dist0[x]);
                    assert(frontier_in(adj, nodes, up, forward, root, dist0, q0, vis0, best as int));
                    let ent = Distance { weight: dist0[x].unwrap(), id: x as usize };
                    if q0.contains(ent) {
                        assert(q1.contains(ent));
                        let j = choose|j: int| 0 <= j < q1.len() && q1[j] == ent;
                        assert(heap@[j] == ent);
                    } else {
                        assert(vis0.contains(x as usize));
                        let j = choose|j: int| 0 <= j < vis0.len() && vis0[j] == x as usize;
                        assert(vis1[j] == x as usize);
                        assert forall|i: int| 0 <= i < adj[x].len() implies 0 <= (#[trigger] adj[x][i]).target < dist0.len() by {
                        }
                        assert(dist_le(dist@, dist0)) by {
                            assert forall|y: int| 0 <= y < dist0.len() && (#[trigger] dist0[y]) is Some implies dist@[y] is Some
                                && dist@[y].unwrap() <= dist0[y].unwrap() by {
                                assert(dist_mid[y] == dist0[y]);
                            }
                        }
                        lemma_up_relaxed_mono(adj, nodes, forward, dist0, dist@, x, dist0[x].unwrap() as int);
                    }
                }
            }
        }
        assert(dist_le(dist@, dist0)) by {
            assert forall|y: int| 0 <= y < dist0.len() && (#[trigger] dist0[y]) is Some implies dist@[y] is Some
                && dist@[y].unwrap() <= dist0[y].unwrap() by {
                assert(dist_mid[y] == dist0[y]);
            }
        }
        assert(meetings_ok(dist@, visited@, other_dist@, other_visited@, best1)) by {
            assert forall|x: usize|
                #![trigger visited@.contains(x), other_visited@.contains(x)]
                visited@.contains(x) && other_visited@.contains(x) && dist@[x as int] is Some && other_dist@[x as int] is Some
                    && dist@[x as int].unwrap() + other_dist@[x as int].unwrap() <= usize::MAX implies best1
                <= dist@[x as int].unwrap() + other_dist@[x as int].unwrap() by {
                assert(dist@[x as int] == dist_mid[x as int]);
            }
        }
      }
    }
    (false, new_best)
}

/// Clears the recorded distances of every node in `visited`, emptying it.
fn clear_visited(
    visited: &mut Vec<usize>,
    dist_a: &mut Vec<Option<usize>>,
    dist_b: &mut Vec<Option<usize>>,
    Ghost(n): Ghost<nat>,
)
    requires
        n <= usize::MAX,
        old(dist_a)@.len() == n,
        old(dist_b)@.len() == n,
        forall|j: int| 0 <= j < old(visited)@.len() ==> #[trigger] old(visited)@[j] < n,
    ensures
        final(visited)@.len() == 0,
        final(dist_a)@.len() == n,
        final(dist_b)@.len() == n,
        forall|x: int|
            0 <= x < n ==> if old(visited)@.contains(x as usize) {
                final(dist_a)@[x] is None && final(dist_b)@[x] is None
            } else {
                final(dist_a)@[x] == old(dist_a)@[x] && final(dist_b)@[x] == old(dist_b)@[x]
            },
{
    let ghost v0 = visited@;
    while visited.len() > 0
        invariant
            visited@ == v0.take(visited@.len() as int),
            visited@.len() <= v0.len(),
            dist_a@.len() == n,
            dist_b@.len() == n,
            n <= usize::MAX,
            forall|j: int| 0 <= j < v0.len() ==> #[trigger] v0[j] < n,
            forall|x: int|
                0 <= x < n ==> if v0.subrange(visited@.len() as int, v0.len() as int).contains(x as usize) {
                    dist_a@[x] is None && dist_b@[x] is None
                } else {
                    dist_a@[x] == old(dist_a)@[x] && dist_b@[x] == old(dist_b)@[x]
                },
        decreases visited@.len(),
    {
        let ghost len = visited@.len() as int;
        let node = visited.pop().unwrap();
        proof {
            assert(v0.take(len)[len - 1] == node);
            assert(v0[len - 1] == node);
            assert(visited@ =~= v0.take(len - 1));
        }
        dist_a.set(node, None);
        dist_b.set(node, None);
        proof {
            let before = v0.subrange(len, v0.len() as int);
            let after = v0.subrange(len - 1, v0.len() as int);
            assert(after =~= seq![node].add(before));
            assert forall|x: int| 0 <= x < n implies (#[trigger] after.contains(x as usize) <==> (x == node as int
                || before.contains(x as usize))) by {
                if after.contains(x as usize) {
                    let j = choose|j: int| 0 <= j < after.len() && after[j] == x as usize;
                    if j > 0 {
                        assert(before[j - 1] == x as usize);
                    }
                }
                if before.contains(x as usize) {
                    let j = choose|j: int| 0 <= j < before.len() && before[j] == x as usize;
                    assert(after[j + 1] == x as usize);
                }
                if x == node as int {
                    assert(after[0] == node);
                }
            }
        }
    }
    proof {
        assert(v0.subrange(0, v0.len() as int) =~= v0);
    }
}

/// Preprocessing and queries of a contraction hierarchy over a road graph.
pub struct CH {
    graph: Graph,
    counter: EdgeCounter,
    dist_forward: Vec<Option<usize>>,
    dist_backward: Vec<Option<usize>>,
    visited_forward: Vec<usize>,
    visited_backward: Vec<usize>,
    heap_forward: MinQueue,
    heap_backward: MinQueue,
    complete: Ghost<bool>,
}

impl CH {
    /// The last preprocessing ran until no node was left to contract (it
    /// did not run out of level numbers first). `ch_preprocess` promises
    /// this for graphs of at most 65536 nodes.
    pub closed spec fn fully_contracted(&self) -> bool {
        self.complete@
    }

    pub closed spec fn spec_graph(&self) -> Graph {
        self.graph
    }

    pub closed spec fn spec_counter(&self) -> EdgeCounter {
        self.counter
    }

    /// Distances recorded by the forward search.
    pub closed spec fn forward_dists(&self) -> Seq<Option<usize>> {
        self.dist_forward@
    }

    /// Distances recorded by the backward search.
    pub closed spec fn backward_dists(&self) -> Seq<Option<usize>> {
        self.dist_backward@
    }

    pub closed spec fn forward_visited(&self) -> Seq<usize> {
        self.visited_forward@
    }

    pub closed spec fn backward_visited(&self) -> Seq<usize> {
        self.visited_backward@
    }

    pub closed spec fn forward_queue(&self) -> Seq<Distance> {
        self.heap_forward@
    }

    pub closed spec fn backward_queue(&self) -> Seq<Distance> {
        self.heap_backward@
    }

    /// No distance is recorded from an earlier query.
    pub open spec fn fresh(&self) -> bool {
        forall|x: int|
            0 <= x < self.forward_dists().len() ==> (#[trigger] self.forward_dists()[x]) is None
                && self.backward_dists()[x] is None
    }

    pub closed spec fn wf(&self) -> bool {
        let n = self.graph.nodes@.len();
        &&& self.graph.well_formed()
        &&& self.dist_forward@.len() == n
        &&& self.dist_backward@.len() == n
        &&& forall|j: int| 0 <= j < self.visited_forward@.len() ==> #[trigger] self.visited_forward@[j] < n
        &&& forall|j: int| 0 <= j < self.visited_backward@.len() ==> #[trigger] self.visited_backward@[j] < n
        &&& forall|j: int| 0 <= j < self.heap_forward@.len() ==> (#[trigger] self.heap_forward@[j]).id < n
        &&& forall|j: int| 0 <= j < self.heap_backward@.len() ==> (#[trigger] self.heap_backward@[j]).id < n
    }

    /// Takes over `graph`; `counter` numbers the edges created from now on.
    pub fn new(graph: Graph, counter: EdgeCounter) -> (ch: Self)
        requires
            graph.well_formed(),
        ensures
            ch.wf(),
            ch.spec_graph() == graph,
            ch.spec_counter() == counter,
            ch.forward_dists() == Seq::new(graph.nodes@.len(), |i: int| None::<usize>),
            ch.backward_dists() == Seq::new(graph.nodes@.len(), |i: int| None::<usize>),
            ch.forward_visited().len() == 0,
            ch.backward_visited().len() == 0,
            ch.forward_queue().len() == 0,
            ch.backward_queue().len() == 0,
    {
        let n = graph.num_nodes();
        let dist_forward = filled(n, None);
        let dist_backward = filled(n, None);
        let visited_forward = Vec::new();
        let visited_backward = Vec::new();
        let heap_forward = MinQueue::new();
        let heap_backward = MinQueue::new();
        CH {
            graph,
            counter,
            dist_forward,
            dist_backward,
            visited_forward,
            visited_backward,
            heap_forward,
            heap_backward,
            complete: Ghost(false),
        }
    }

    /// The graph, with the shortcuts and levels added so far.
    pub fn graph(&self) -> (g: &Graph)
        ensures
            *g == self.spec_graph(),
    {
        &self.graph
    }

    /// Hands back the graph and the edge counter.
    pub fn into_parts(self) -> (r: (Graph, EdgeCounter))
        ensures
            r.0 == self.spec_graph(),
            r.1 == self.spec_counter(),
    {
        (self.graph, self.counter)
    }

    /// Forgets the previous query: the distances of the visited nodes are
    /// cleared in both directions, and the visited lists and queues are
    /// emptied. Other recorded distances are left as they are.
    pub fn cleanup(&mut self)
        requires
            old(self).wf(),
        ensures
            final(self).wf(),
            final(self).spec_graph() == old(self).spec_graph(),
            final(self).spec_counter() == old(self).spec_counter(),
            final(self).forward_visited().len() == 0,
            final(self).backward_visited().len() == 0,
            final(self).forward_queue().len() == 0,
            final(self).backward_queue().len() == 0,
            forall|x: int|
                0 <= x < old(self).spec_graph().nodes@.len() ==> if old(self).forward_visited().contains(
                    x as usize,
                ) || old(self).backward_visited().contains(x as usize) {
                    final(self).forward_dists()[x] is None && final(self).backward_dists()[x] is None
                } else {
                    final(self).forward_dists()[x] == old(self).forward_dists()[x]
                        && final(self).backward_dists()[x] == old(self).backward_dists()[x]
                },
    {
        let nn = self.graph.nodes.len();
        let ghost n = nn as nat;
        let ghost df0 = self.dist_forward@;
        let ghost db0 = self.dist_backward@;
        clear_visited(&mut self.visited_forward, &mut self.dist_forward, &mut self.dist_backward, Ghost(n));
        let ghost df1 = self.dist_forward@;
        let ghost db1 = self.dist_backward@;
        clear_visited(&mut self.visited_backward, &mut self.dist_forward, &mut self.dist_backward, Ghost(n));
        self.heap_forward.clear();
        self.heap_backward.clear();
    }

    /// A bidirectional search that only follows edges to higher levels, with
    /// stall-on-demand. A returned distance is the weight of a forward walk
    /// from `source` to some node plus that of a backward walk from `target`
    /// to the same node; a query from a node to itself gives `Some(0)`.
    pub fn ch_query(&mut self, source: usize, target: usize) -> (r: Option<usize>)
        requires
            old(self).wf(),
            source < old(self).spec_graph().nodes@.len(),
            target < old(self).spec_graph().nodes@.len(),
        ensures
            final(self).wf(),
            final(self).spec_graph() == old(self).spec_graph(),
            final(self).spec_counter() == old(self).spec_counter(),
            r matches Some(b) ==> b < usize::MAX && meets(
                old(self).spec_graph().adj(),
                source as int,
                target as int,
                b as int,
            ),
            source == target ==> r == Some(0usize),
            query_exact(old(self).spec_graph(), old(self).fresh(), source as int, target as int, r),
    {
        self.query(source, target, true)
    }

    /// The same search as `ch_query`, without stall-on-demand. From a fresh
    /// state on a paired graph it returns, whatever the levels, the weight
    /// of a lightest walk that climbs and then descends (`query_least`).
    pub fn ch_query_without_sod(&mut self, source: usize, target: usize) -> (r: Option<usize>)
        requires
            old(self).wf(),
            source < old(self).spec_graph().nodes@.len(),
            target < old(self).spec_graph().nodes@.len(),
        ensures
            final(self).wf(),
            final(self).spec_graph() == old(self).spec_graph(),
            final(self).spec_counter() == old(self).spec_counter(),
            r matches Some(b) ==> b < usize::MAX && meets(
                old(self).spec_graph().adj(),
                source as int,
                target as int,
                b as int,
            ),
            source == target ==> r == Some(0usize),
            query_exact(old(self).spec_graph(), old(self).fresh(), source as int, target as int, r),
            query_least(old(self).spec_graph(), old(self).fresh(), source as int, target as int, r),
    {
        self.query(source, target, false)
    }

    fn query(&mut self, source: usize, target: usize, stall: bool) -> (r: Option<usize>)
        requires
            old(self).wf(),
            source < old(self).spec_graph().nodes@.len(),
            target < old(self).spec_graph().nodes@.len(),
        ensures
            final(self).wf(),
            final(self).spec_graph() == old(self).spec_graph(),
            final(self).spec_counter() == old(self).spec_counter(),
            r matches Some(b) ==> b < usize::MAX && meets(
                old(self).spec_graph().adj(),
                source as int,
                target as int,
                b as int,
            ),
            source == target ==> r == Some(0usize),
            query_exact(old(self).spec_graph(), old(self).fresh(), source as int, target as int, r),
            !stall ==> query_least(old(self).spec_graph(), old(self).fresh(), source as int, target as int, r),
    {
        let ghost strong = old(self).fresh() && paired(self.graph.adj());
        let ghost up = !stall;
        let nn = self.graph.nodes.len();
        proof {
            lemma_graph_targets(&self.graph);
        }
        self.cleanup();
        let ghost adj = self.graph.adj();
        let ghost nodes = self.graph.nodes@;
        self.dist_forward.set(source, Some(0));
        self.heap_forward.push(Distance::new(0, source));
        self.visited_forward.push(source);
        self.dist_backward.set(target, Some(0));
        self.heap_backward.push(Distance::new(0, target));
        self.visited_backward.push(target);
        let mut best = usize::MAX;
        let ghost mut first = true;
        proof {
            lemma_trivial_walk(adj, none_blocked(), source as int);
            lemma_trivial_back_walk(adj, target as int);
            assert(self.heap_forward@ =~= seq![Distance { weight: 0, id: source }]);
            assert(self.heap_backward@ =~= seq![Distance { weight: 0, id: target }]);
            assert(self.visited_forward@ =~= seq![source]);
            assert(self.visited_backward@ =~= seq![target]);
            assert(self.visited_backward@[0] == target);
            if source == target {
                assert(self.dist_forward@[source as int] == Some(0usize));
            }
            if strong {
                let df = self.dist_forward@;
                let db = self.dist_backward@;
                assert forall|x: int| 0 <= x < df.len() && (#[trigger] df[x]) is Some implies x == source as int by {
                    if x != source as int {
                        assert(df[x] == old(self).dist_forward@[x]);
                    }
                }
                assert forall|x: int| 0 <= x < db.len() && (#[trigger] db[x]) is Some implies x == target as int by {
                    if x != target as int {
                        assert(db[x] == old(self).dist_backward@[x]);
                    }
                }
                lemma_trivial_climb(adj, nodes, true, source as int);
                lemma_trivial_climb(adj, nodes, false, target as int);
                assert(side_ok(adj, nodes, up, true, source as int, df, self.heap_forward@, self.visited_forward@, best as int)) by {
                    assert(self.heap_forward@[0] == Distance { weight: 0, id: source });
                    assert forall|x: int|
                        0 <= x < df.len() && (#[trigger] df[x]) is Some && dist_in(adj, nodes, up, true, source as int, x, df[x].unwrap() as int)
                            && df[x].unwrap() <= best implies self.heap_forward@.contains(Distance { weight: df[x].unwrap(), id: x as usize }) || (
                        self.visited_forward@.contains(x as usize) && up_relaxed(adj, nodes, true, df, x, df[x].unwrap() as int)) by {
                        assert(x == source as int);
                    }
                }
                assert(side_ok(adj, nodes, up, false, target as int, db, self.heap_backward@, self.visited_backward@, best as int)) by {
                    assert(self.heap_backward@[0] == Distance { weight: 0, id: target });
                    assert forall|x: int|
                        0 <= x < db.len() && (#[trigger] db[x]) is Some && dist_in(adj, nodes, up, false, target as int, x, db[x].unwrap() as int)
                            && db[x].unwrap() <= best implies self.heap_backward@.contains(Distance { weight: db[x].unwrap(), id: x as usize }) || (
                        self.visited_backward@.contains(x as usize) && up_relaxed(adj, nodes, false, db, x, db[x].unwrap() as int)) by {
                        assert(x == target as int);
                    }
                }
                if source != target {
                    assert forall|x: usize|
                        #![trigger self.visited_forward@.contains(x), self.visited_backward@.contains(x)]
                        self.visited_forward@.contains(x) && self.visited_backward@.contains(x) implies false by {
                        let i = choose|i: int| 0 <= i < self.visited_forward@.len() && self.visited_forward@[i] == x;
                        let j = choose|j: int| 0 <= j < self.visited_backward@.len() && self.visited_backward@[j] == x;
                    }
                }
            }
        }
        while !self.heap_forward.is_empty() || !self.heap_backward.is_empty()
            invariant
                self.wf(),
                nn == self.graph.nodes@.len(),
                nodes == self.graph.nodes@,
                strong == (old(self).fresh() && paired(adj)),
                up == !stall,
                strong ==> side_ok(adj, nodes, up, true, source as int, self.dist_forward@, self.heap_forward@, self.visited_forward@, best as int),
                strong ==> side_ok(adj, nodes, up, false, target as int, self.dist_backward@, self.heap_backward@, self.visited_backward@, best as int),
                strong && up ==> best == usize::MAX || up_down(adj, nodes, source as int, target as int, best as int),
                strong ==> meetings_ok(self.dist_forward@, self.visited_forward@, self.dist_backward@, self.visited_backward@, best as int)
                    || (first && source == target),
                strong ==> self.dist_forward@[source as int] == Some(0usize) && self.dist_backward@[target as int] == Some(0usize),
                self.graph == old(self).graph,
                self.counter == old(self).counter,
                adj == self.graph.adj(),
                source < self.graph.nodes@.len(),
                target < self.graph.nodes@.len(),
                side_inv(adj, true, source as int, self.dist_forward@, self.heap_forward@, self.visited_forward@),
                side_inv(adj, false, target as int, self.dist_backward@, self.heap_backward@, self.visited_backward@),
                best_ok(adj, source as int, target as int, best),
                first ==> self.heap_forward@ == seq![Distance { weight: 0, id: source }]
                    && self.dist_forward@[source as int] == Some(0usize)
                    && self.visited_backward@.contains(target)
                    && self.dist_backward@[target as int] == Some(0usize),
                !first && source == target ==> best == 0,
            decreases opt_total(self.dist_forward@) + opt_total(self.dist_backward@) + self.heap_forward@.len()
                + self.heap_backward@.len(),
        {
            proof {
                lemma_opt_total_nonneg(self.dist_forward@);
                lemma_opt_total_nonneg(self.dist_backward@);
            }
            let ghost best0 = best;
            let (pruned, b) = search_step(
                &self.graph,
                true,
                stall,
                &mut self.dist_forward,
                &self.dist_backward,
                &mut self.heap_forward,
                &mut self.visited_forward,
                &self.visited_backward,
                best,
                Ghost(source),
                Ghost(target),
                Ghost(strong),
                Ghost(up),
            );
            best = b;
            proof {
                first = false;
                lemma_opt_total_nonneg(self.dist_forward@);
                if strong {
                    lemma_frontier_best_mono(adj, nodes, up, false, target as int, self.dist_backward@, self.heap_backward@,
                        self.visited_backward@, best0 as int, best as int);
                }
            }
            if pruned {
                continue;
            }
            let ghost best1 = best;
            proof {
                if strong {
                    lemma_meetings_swap(self.dist_forward@, self.visited_forward@, self.dist_backward@,
                        self.visited_backward@, best as int);
                }
            }
            let (_pruned, b) = search_step(
                &self.graph,
                false,
                stall,
                &mut self.dist_backward,
                &self.dist_forward,
                &mut self.heap_backward,
                &mut self.visited_backward,
                &self.visited_forward,
                best,
                Ghost(source),
                Ghost(target),
                Ghost(strong),
                Ghost(up),
            );
            best = b;
            proof {
                lemma_opt_total_nonneg(self.dist_backward@);
                if strong {
                    lemma_frontier_best_mono(adj, nodes, up, true, source as int, self.dist_forward@, self.heap_forward@,
                        self.visited_forward@, best1 as int, best as int);
                    lemma_meetings_swap(self.dist_forward@, self.visited_forward@, self.dist_backward@,
                        self.visited_backward@, best as int);
                }
            }
        }
        proof {
            if paired(adj) && best < usize::MAX {
                let (m, a, c) = choose|m: int, a: int, c: int|
                    #![trigger reaches_with(adj, none_blocked(), source as int, m, a), back_reaches_with(adj, target as int, m, c)]
                    0 <= m < adj.len() && reaches_with(adj, none_blocked(), source as int, m, a)
                        && back_reaches_with(adj, target as int, m, c) && best == a + c;
                lemma_meeting_walk(adj, source as int, target as int, m, a, c);
            }
            if strong {
                assert(self.heap_forward@ =~= Seq::<Distance>::empty());
                assert(self.heap_backward@ =~= Seq::<Distance>::empty());
                assert forall|dd: int|
                    #[trigger] is_distance(adj, none_blocked(), source as int, target as int, dd) && dd < usize::MAX
                        && up_down(adj, nodes, source as int, target as int, dd) implies best == dd by {
                    if best < usize::MAX {
                        let (m, a, c) = choose|m: int, a: int, c: int|
                            #![trigger reaches_with(adj, none_blocked(), source as int, m, a), back_reaches_with(adj, target as int, m, c)]
                            0 <= m < adj.len() && reaches_with(adj, none_blocked(), source as int, m, a)
                                && back_reaches_with(adj, target as int, m, c) && best == a + c;
                        lemma_meeting_at_least(adj, source as int, target as int, dd, m, a, c);
                    }
                    if first {
                        assert(self.heap_forward@.len() > 0);
                    }
                    if up {
                        assert(best <= dd) by {
                            let d0 = lemma_least_up_down(adj, nodes, source as int, target as int, dd);
                            lemma_query_least(adj, nodes, source as int, target as int, d0, self.dist_forward@,
                                self.visited_forward@, self.dist_backward@, self.visited_backward@, best as int);
                        }
                    } else {
                        lemma_side_ok_plain(adj, nodes, true, source as int, self.dist_forward@, self.heap_forward@,
                            self.visited_forward@, best as int);
                        lemma_side_ok_plain(adj, nodes, false, target as int, self.dist_backward@, self.heap_backward@,
                            self.visited_backward@, best as int);
                        lemma_query_complete(adj, nodes, source as int, target as int, dd, self.dist_forward@,
                            self.visited_forward@, self.dist_backward@, self.visited_backward@, best as int);
                    }
                }
                if up {
                    assert forall|d: int| #[trigger] up_down(adj, nodes, source as int, target as int, d) && d < usize::MAX
                        implies best <= d by {
                        if first {
                            assert(self.heap_forward@.len() > 0);
                        }
                        let d0 = lemma_least_up_down(adj, nodes, source as int, target as int, d);
                        lemma_query_least(adj, nodes, source as int, target as int, d0, self.dist_forward@,
                            self.visited_forward@, self.dist_backward@, self.visited_backward@, best as int);
                    }
                }
            }
        }
        if best == usize::MAX {
            None
        } else {
            Some(best)
        }
    }

    /// The shortcuts needed to contract `node`, one for each pair of a
    /// backward and a forward edge at `node` into nodes that are not
    /// contracted, where no lighter witness walk avoids the contracted nodes.
    fn calc_shortcuts(&self, dijkstra: &mut Dijkstra, node: usize, contracted: &BitSet) -> (r: Vec<
        Shortcut,
    >)
        requires
            self.wf(),
            old(dijkstra).wf(),
            *old(dijkstra).graph() == self.spec_graph(),
            node < self.spec_graph().nodes@.len(),
            contracted@.len() >= self.spec_graph().nodes@.len(),
            old(dijkstra).start() is Some ==> old(dijkstra).search_blocked() == contracted@,
        ensures
            final(dijkstra).wf(),
            *final(dijkstra).graph() == self.spec_graph(),
            final(dijkstra).start() is Some ==> final(dijkstra).search_blocked() == contracted@,
            r@ == node_shortcuts(self.spec_graph().adj(), contracted@, node as int),
    {
        let ghost adj = self.graph.adj();
        let ghost bl = contracted@;
        let ghost list = adj[node as int];
        let n = self.graph.nodes.len();
        let len = self.graph.edges[node].len();
        proof {
            lemma_graph_targets(&self.graph);
            assert(list == self.graph.edges@[node as int]@);
        }
        let mut shortcuts: Vec<Shortcut> = Vec::new();
        let mut i: usize = 0;
        while i < len
            invariant
                self.wf(),
                adj == self.graph.adj(),
                targets_in_range(adj),
                n == adj.len(),
                node < n,
                list == adj[node as int],
                len == list.len(),
                i <= len,
                bl == contracted@,
                contracted@.len() >= n,
                dijkstra.wf(),
                *dijkstra.graph() == self.graph,
                dijkstra.start() is Some ==> dijkstra.search_blocked() == bl,
                shortcuts@ == shortcut_table(adj, bl, list.take(i as int), list),
            decreases len - i,
        {
            let a = self.graph.edges[node][i];
            proof {
                assert(a == list[i as int]);
                assert(a.target < n);
                assert(list.take(i as int + 1).drop_last() =~= list.take(i as int));
                assert(list.take(i as int + 1).last() == a);
            }
            if !a.dir && !contracted.get(a.target as usize) {
                let mut j: usize = 0;
                let ghost base = shortcuts@;
                while j < len
                    invariant
                        self.wf(),
                        adj == self.graph.adj(),
                        targets_in_range(adj),
                        n == adj.len(),
                        node < n,
                        list == adj[node as int],
                        len == list.len(),
                        j <= len,
                        a.target < n,
                        bl == contracted@,
                        contracted@.len() >= n,
                        dijkstra.wf(),
                        *dijkstra.graph() == self.graph,
                        dijkstra.start() is Some ==> dijkstra.search_blocked() == bl,
                        shortcuts@ == base + shortcut_row(adj, bl, a, list.take(j as int)),
                    decreases len - j,
                {
                    let b = self.graph.edges[node][j];
                    proof {
                        assert(b == list[j as int]);
                        assert(b.target < n);
                        assert(list.take(j as int + 1).drop_last() =~= list.take(j as int));
                        assert(list.take(j as int + 1).last() == b);
                    }
                    let mut keep = false;
                    if b.dir && !contracted.get(b.target as usize) {
                        match a.weight.checked_add(b.weight) {
                            Some(direct) => {
                                if direct <= usize::MAX as u64 {
                                    let shortest = dijkstra.shortest_path_consider_contraction(
                                        a.target as usize,
                                        b.target as usize,
                                        contracted,
                                    );
                                    match shortest {
                                        Some(d) => {
                                            keep = d >= direct as usize;
                                            proof {
                                                if keep {
                                                    assert(is_distance(adj, blocked_by(bl), a.target as int, b.target as int, d as int));
                                                } else {
                                                    assert forall|d2: int| d2 <= usize::MAX && d2 >= a.weight + b.weight
                                                        implies !#[trigger] is_distance(adj, blocked_by(bl), a.target as int,
                                                        b.target as int, d2) by {
                                                        if is_distance(adj, blocked_by(bl), a.target as int, b.target as int, d2) {
                                                            lemma_distance_unique(adj, blocked_by(bl), a.target as int,
                                                                b.target as int, d as int, d2);
                                                        }
                                                    }
                                                }
                                            }
                                        },
                                        None => {
                                            proof {
                                                assert forall|d2: int| d2 <= usize::MAX && d2 >= a.weight + b.weight
                                                    implies !#[trigger] is_distance(adj, blocked_by(bl), a.target as int,
                                                    b.target as int, d2) by {
                                                    if is_distance(adj, blocked_by(bl), a.target as int, b.target as int, d2) {
                                                        lemma_reaches_bound(adj, blocked_by(bl), a.target as int,
                                                            b.target as int, d2, not_reached());
                                                    }
                                                }
                                            }
                                        },
                                    }
                                }
                            },
                            None => {},
                        }
                    }
                    assert(keep == (b.dir && !bl[b.target as int] && qualifies(adj, bl, a, b)));
                    if keep {
                        shortcuts.push(Shortcut::new(a.target, b.target, a.weight + b.weight, a.id as u64, b.id as u64));
                    }
                    proof {
                        assert(shortcuts@ =~= base + shortcut_row(adj, bl, a, list.take(j as int + 1)));
                    }
                    j = j + 1;
                }
                proof {
                    assert(list.take(len as int) =~= list);
                }
            }
            proof {
                assert(shortcuts@ =~= shortcut_table(adj, bl, list.take(i as int + 1), list));
            }
            i = i + 1;
        }
        proof {
            assert(list.take(len as int) =~= list);
        }
        shortcuts
    }

    /// The shortcuts of each node of `chunk`, in order, computed with one
    /// Dijkstra search state shared along the chunk.
    pub(crate) fn shortcuts_for_chunk(&self, chunk: &[(isize, usize)], contracted: &BitSet) -> (r: Vec<
        (usize, Vec<Shortcut>),
    >)
        requires
            self.wf(),
            contracted@.len() >= self.spec_graph().nodes@.len(),
            forall|i: int| 0 <= i < chunk@.len() ==> (#[trigger] chunk@[i]).1 < self.spec_graph().nodes@.len(),
        ensures
            r@.len() == chunk@.len(),
            forall|i: int|
                0 <= i < chunk@.len() ==> (#[trigger] r@[i]).0 == chunk@[i].1 && r@[i].1@ == node_shortcuts(
                    self.spec_graph().adj(),
                    contracted@,
                    chunk@[i].1 as int,
                ),
    {
        let mut dijkstra = Dijkstra::new(&self.graph);
        let mut r: Vec<(usize, Vec<Shortcut>)> = Vec::new();
        let mut i: usize = 0;
        while i < chunk.len()
            invariant
                self.wf(),
                contracted@.len() >= self.spec_graph().nodes@.len(),
                forall|j: int| 0 <= j < chunk@.len() ==> (#[trigger] chunk@[j]).1 < self.spec_graph().nodes@.len(),
                i <= chunk@.len(),
                r@.len() == i,
                dijkstra.wf(),
                *dijkstra.graph() == self.graph,
                dijkstra.start() is Some ==> dijkstra.search_blocked() == contracted@,
                forall|j: int|
                    0 <= j < i ==> (#[trigger] r@[j]).0 == chunk@[j].1 && r@[j].1@ == node_shortcuts(
                        self.spec_graph().adj(),
                        contracted@,
                        chunk@[j].1 as int,
                    ),
            decreases chunk@.len() - i,
        {
            let node = chunk[i].1;
            let shortcuts = self.calc_shortcuts(&mut dijkstra, node, contracted);
            r.push((node, shortcuts));
            i = i + 1;
        }
        r
    }

    /// Adds the shortcuts that contracting each node of `independent_set`
    /// requires (all computed on the graph as it is before this round), gives
    /// those nodes `level`, and marks them contracted.
    fn contract_independent_set(
        &mut self,
        independent_set: &Vec<(isize, usize)>,
        level: u16,
        contracted: &mut BitSet,
    )
        requires
            old(self).wf(),
            old(contracted)@.len() >= old(self).spec_graph().nodes@.len(),
            forall|i: int|
                0 <= i < independent_set@.len() ==> (#[trigger] independent_set@[i]).1 < old(
                    self,
                ).spec_graph().nodes@.len(),
        ensures
            final(self).wf(),
            final(self).spec_graph().nodes@.len() == old(self).spec_graph().nodes@.len(),
            final(self).forward_dists() == old(self).forward_dists(),
            final(self).backward_dists() == old(self).backward_dists(),
            final(self).forward_visited() == old(self).forward_visited(),
            final(self).backward_visited() == old(self).backward_visited(),
            final(self).forward_queue() == old(self).forward_queue(),
            final(self).backward_queue() == old(self).backward_queue(),
            ({
                let r = contraction_round(
                    old(self).spec_graph().adj(),
                    old(self).spec_graph().nodes@,
                    old(self).spec_counter().created,
                    old(contracted)@,
                    planned_shortcuts(old(self).spec_graph().adj(), old(contracted)@, independent_set@),
                    level,
                );
                &&& final(self).spec_graph().adj() == r.0
                &&& final(self).spec_graph().nodes@ == r.1
                &&& final(self).spec_counter().created == r.2
                &&& final(contracted)@ == r.3
            }),
    {
        let ghost adj0 = self.graph.adj();
        let ghost nodes0 = self.graph.nodes@;
        let ghost c0 = self.counter.created;
        let ghost bits0 = contracted@;
        let ghost plan = planned_shortcuts(adj0, bits0, independent_set@);
        let n = self.graph.nodes.len();
        let len = independent_set.len();
        let threads = current_num_threads();
        let threads = if threads == 0 { 1 } else { threads };
        let chunk_size = if len == 0 {
            1
        } else {
            assert((len - 1) as int / threads as int <= len - 1) by (nonlinear_arith)
                requires
                    threads >= 1,
                    len >= 1,
            ;
            (len - 1) / threads + 1
        };
        let results = shortcuts_in_parallel(self, independent_set, contracted, chunk_size);
        proof {
            lemma_graph_targets(&self.graph);
            assert forall|i: int, j: int|
                0 <= i < results@.len() && 0 <= j < results@[i].1@.len() implies (#[trigger] results@[i].1@[j]).from < n
                    && results@[i].1@[j].to < n by {
                let u = independent_set@[i].1 as int;
                let list = adj0[u];
                assert forall|x: int| 0 <= x < list.len() implies (#[trigger] list[x]).target < n by {
                }
                lemma_table_in_range(adj0, bits0, list, list, n as int);
            }
        }
        let mut k: usize = 0;
        while k < results.len()
            invariant
                n == self.graph.nodes@.len(),
                self.graph.well_formed(),
                self.dist_forward@.len() == n,
                self.dist_backward@.len() == n,
                self.wf(),
                self.dist_forward == old(self).dist_forward,
                self.dist_backward == old(self).dist_backward,
                self.visited_forward == old(self).visited_forward,
                self.visited_backward == old(self).visited_backward,
                self.heap_forward == old(self).heap_forward,
                self.heap_backward == old(self).heap_backward,
                contracted@.len() >= n,
                results@.len() == plan.len(),
                k <= results@.len(),
                plan == planned_shortcuts(adj0, bits0, independent_set@),
                forall|i: int|
                    0 <= i < results@.len() ==> (#[trigger] results@[i]).0 == plan[i].0 && results@[i].1@
                        == plan[i].1,
                forall|i: int| 0 <= i < results@.len() ==> (#[trigger] results@[i]).0 < n,
                forall|i: int, j: int|
                    0 <= i < results@.len() && 0 <= j < results@[i].1@.len() ==> (#[trigger] results@[i].1@[j]).from < n
                        && results@[i].1@[j].to < n,
                ({
                    let r = contraction_round(adj0, nodes0, c0, bits0, plan.take(k as int), level);
                    &&& self.graph.adj() == r.0
                    &&& self.graph.nodes@ == r.1
                    &&& self.counter.created == r.2
                    &&& contracted@ == r.3
                }),
            decreases results@.len() - k,
        {
            let ghost before = contraction_round(adj0, nodes0, c0, bits0, plan.take(k as int), level);
            let node = results[k].0;
            let shortcuts = &results[k].1;
            let mut j: usize = 0;
            while j < shortcuts.len()
                invariant
                    n == self.graph.nodes@.len(),
                    self.graph.well_formed(),
                    self.wf(),
                    self.dist_forward == old(self).dist_forward,
                    self.dist_backward == old(self).dist_backward,
                    self.visited_forward == old(self).visited_forward,
                    self.visited_backward == old(self).visited_backward,
                    self.heap_forward == old(self).heap_forward,
                    self.heap_backward == old(self).heap_backward,
                    node < n,
                    j <= shortcuts@.len(),
                    forall|i: int| 0 <= i < shortcuts@.len() ==> (#[trigger] shortcuts@[i]).from < n && shortcuts@[i].to < n,
                    self.graph.nodes@ == before.1,
                    ({
                        let ins = insert_shortcuts(before.0, before.2, shortcuts@.take(j as int));
                        &&& self.graph.adj() == ins.0
                        &&& self.counter.created == ins.1
                    }),
                decreases shortcuts@.len() - j,
            {
                let sc = &shortcuts[j];
                let edge = Edge::new(&mut self.counter, sc.to, sc.weight, Some(sc.edge_id_a), Some(sc.edge_id_b));
                proof {
                    assert(shortcuts@.take(j as int + 1).drop_last() =~= shortcuts@.take(j as int));
                    assert(shortcuts@.take(j as int + 1).last() == *sc);
                    lemma_graph_targets(&self.graph);
                    lemma_add_edge_in_range(self.graph.adj(), sc.from as int, edge);
                }
                self.graph.add_edge(sc.from as usize, edge);
                proof {
                    let a = self.graph.adj();
                    assert forall|u: int, i: int|
                        0 <= u < self.graph.edges@.len() && 0 <= i < self.graph.edges@[u]@.len() implies (
                        #[trigger] self.graph.edges@[u]@[i]).target < self.graph.nodes@.len() by {
                        assert(a[u] == self.graph.edges@[u]@);
                    }
                }
                j = j + 1;
            }
            proof {
                assert(shortcuts@.take(shortcuts@.len() as int) =~= shortcuts@);
            }
            self.graph.node_at_mut(node).set_level(level);
            contracted.set(node, true);
            proof {
                assert(plan.take(k as int + 1).drop_last() =~= plan.take(k as int));
                assert(plan.take(k as int + 1).last() == plan[k as int]);
                assert(self.graph.nodes@ =~= with_level(before.1, node as int, level));
            }
            k = k + 1;
        }
        proof {
            assert(plan.take(plan.len() as int) =~= plan);
        }
    }

    /// Picks the nodes to contract next. A greedy pass over `nodes` skips
    /// every node next to an already picked one; the picked nodes are sorted
    /// by edge difference (stably), and the first `cutoff` of them are
    /// returned. `nodes` becomes the skipped nodes followed by the picked
    /// nodes that were not returned.
    fn find_independent_set(&self, nodes: &mut Vec<usize>, contracted: &BitSet) -> (r: Vec<(isize, usize)>)
        requires
            self.wf(),
            contracted@.len() >= self.spec_graph().nodes@.len(),
            forall|i: int| 0 <= i < old(nodes)@.len() ==> (#[trigger] old(nodes)@[i]) < self.spec_graph().nodes@.len(),
        ensures
            ({
                let g = greedy_selection(self.spec_graph().adj(), contracted@, old(nodes)@);
                exists|sorted: Seq<(isize, usize)>|
                    #[trigger] is_stable_sort(g.0, sorted) && 0 <= cutoff(sorted) <= sorted.len() && r@ == sorted.take(cutoff(sorted)) && final(nodes)@
                        == g.1 + sorted.skip(cutoff(sorted)).map_values(|p: (isize, usize)| p.1)
            }),
            final(nodes)@.len() + r@.len() == old(nodes)@.len(),
            old(nodes)@.len() > 0 ==> r@.len() > 0,
            forall|i: int| 0 <= i < final(nodes)@.len() ==> (#[trigger] final(nodes)@[i]) < self.spec_graph().nodes@.len(),
            forall|i: int| 0 <= i < r@.len() ==> (#[trigger] r@[i]).1 < self.spec_graph().nodes@.len(),
    {
        let ghost adj = self.graph.adj();
        let ghost bl = contracted@;
        let ghost nodes0 = nodes@;
        let n = self.graph.nodes.len();
        proof {
            lemma_graph_targets(&self.graph);
            lemma_greedy_facts(adj, bl, nodes0, n as int);
        }
        let mut independent_set: Vec<(isize, usize)> = Vec::new();
        let mut blocked = BitSet::new(n);
        let mut blocked_nodes: Vec<usize> = Vec::new();
        let mut i: usize = 0;
        while i < nodes.len()
            invariant
                self.wf(),
                adj == self.graph.adj(),
                targets_in_range(adj),
                n == adj.len(),
                bl == contracted@,
                contracted@.len() >= n,
                nodes@ == nodes0,
                forall|j: int| 0 <= j < nodes0.len() ==> (#[trigger] nodes0[j]) < n,
                i <= nodes0.len(),
                blocked@.len() >= n,
                (independent_set@, blocked_nodes@) == greedy_selection(adj, bl, nodes0.take(i as int)),
                forall|x: int| 0 <= x < n ==> #[trigger] blocked@[x] == next_to_selection(adj, independent_set@, x),
            decreases nodes0.len() - i,
        {
            let node = nodes[i];
            proof {
                assert(nodes0.take(i as int + 1).drop_last() =~= nodes0.take(i as int));
                assert(nodes0.take(i as int + 1).last() == node);
                assert(node < n);
            }
            if blocked.get(node) {
                blocked_nodes.push(node);
            } else {
                let ghost sel0 = independent_set@;
                proof {
                    assert(adj[node as int] == self.graph.edges@[node as int]@);
                }
                let in_num = live_degree(&self.graph.edges[node], contracted, false, Ghost(n as int));
                let out_num = live_degree(&self.graph.edges[node], contracted, true, Ghost(n as int));
                independent_set.push((edge_difference_of(in_num, out_num), node));
                let len = self.graph.edges[node].len();
                let mut k: usize = 0;
                while k < len
                    invariant
                        self.wf(),
                        adj == self.graph.adj(),
                        targets_in_range(adj),
                        n == adj.len(),
                        node < n,
                        len == adj[node as int].len(),
                        k <= len,
                        blocked@.len() >= n,
                        independent_set@ == sel0.push(independent_set@.last()),
                        independent_set@.last().1 == node,
                        forall|x: int|
                            0 <= x < n ==> #[trigger] blocked@[x] == (next_to_selection(adj, sel0, x) || exists|kk: int|
                                0 <= kk < k && (#[trigger] adj[node as int][kk]).target == x),
                    decreases len - k,
                {
                    let t = self.graph.edges[node][k].target;
                    proof {
                        assert(self.graph.edges@[node as int]@[k as int] == adj[node as int][k as int]);
                        assert(t < n);
                    }
                    let ghost b0 = blocked@;
                    blocked.set(t as usize, true);
                    proof {
                        assert forall|x: int| 0 <= x < n implies #[trigger] blocked@[x] == (next_to_selection(adj, sel0, x)
                            || exists|kk: int| 0 <= kk < k + 1 && (#[trigger] adj[node as int][kk]).target == x) by {
                            if x == t as int {
                                assert(adj[node as int][k as int].target == x);
                            } else {
                                assert(blocked@[x] == b0[x]);
                                if exists|kk: int| 0 <= kk < k + 1 && (#[trigger] adj[node as int][kk]).target == x {
                                    let kk = choose|kk: int| 0 <= kk < k + 1 && (#[trigger] adj[node as int][kk]).target == x;
                                    assert(kk < k);
                                }
                            }
                        }
                    }
                    k = k + 1;
                }
                proof {
                    let sel = independent_set@;
                    assert forall|x: int| 0 <= x < n implies #[trigger] blocked@[x] == next_to_selection(adj, sel, x) by {
                        if next_to_selection(adj, sel, x) {
                            let (ii, kk) = choose|ii: int, kk: int|
                                0 <= ii < sel.len() && 0 <= kk < adj[sel[ii].1 as int].len() && (#[trigger] adj[sel[ii].1 as int][kk]).target == x;
                            if ii < sel0.len() {
                                assert(sel[ii] == sel0[ii]);
                                assert(next_to_selection(adj, sel0, x));
                            } else {
                                assert(sel[ii].1 == node);
                            }
                        }
                        if next_to_selection(adj, sel0, x) {
                            let (ii, kk) = choose|ii: int, kk: int|
                                0 <= ii < sel0.len() && 0 <= kk < adj[sel0[ii].1 as int].len() && (#[trigger] adj[sel0[ii].1 as int][kk]).target == x;
                            assert(sel[ii] == sel0[ii]);
                        }
                        if exists|kk: int| 0 <= kk < len && (#[trigger] adj[node as int][kk]).target == x {
                            let kk = choose|kk: int| 0 <= kk < len && (#[trigger] adj[node as int][kk]).target == x;
                            assert(sel[sel.len() - 1].1 == node);
                            assert(adj[sel[sel.len() - 1].1 as int][kk].target == x);
                        }
                    }
                }
            }
            i = i + 1;
        }
        proof {
            assert(nodes0.take(nodes0.len() as int) =~= nodes0);
        }
        let ghost sel = independent_set@;
        let ghost def = blocked_nodes@;
        sort_by_edge_difference(&mut independent_set);
        let ghost sorted = independent_set@;
        let len = independent_set.len();
        let mut zero_or_less: usize = 0;
        while zero_or_less < len && independent_set[zero_or_less].0 <= 0
            invariant
                len == sorted.len(),
                independent_set@ == sorted,
                zero_or_less <= len,
                forall|j: int| 0 <= j < zero_or_less ==> (#[trigger] sorted[j]).0 <= 0,
            decreases len - zero_or_less,
        {
            zero_or_less = zero_or_less + 1;
        }
        proof {
            lemma_nonpositive_prefix(sorted, zero_or_less as int);
        }
        let sixteenth = len / 16 + if len % 16 != 0 { 1 } else { 0 };
        let eighth = len / 8 + if len % 8 != 0 { 1 } else { 0 };
        let cut = if zero_or_less > 0 {
            if zero_or_less >= sixteenth { zero_or_less } else { sixteenth }
        } else {
            eighth
        };
        assert(cut == cutoff(sorted));
        let mut j: usize = cut;
        while j < len
            invariant
                cut <= j <= len,
                len == sorted.len(),
                independent_set@ == sorted,
                blocked_nodes@ == def + sorted.subrange(cut as int, j as int).map_values(|p: (isize, usize)| p.1),
            decreases len - j,
        {
            blocked_nodes.push(independent_set[j].1);
            proof {
                assert(sorted.subrange(cut as int, j as int + 1).map_values(|p: (isize, usize)| p.1) =~= sorted.subrange(
                    cut as int,
                    j as int,
                ).map_values(|p: (isize, usize)| p.1).push(sorted[j as int].1));
            }
            j = j + 1;
        }
        independent_set.truncate(cut);
        *nodes = blocked_nodes;
        proof {
            assert(sorted.subrange(cut as int, len as int) =~= sorted.skip(cut as int));
            assert(independent_set@ =~= sorted.take(cut as int));
            assert(is_stable_sort(sel, sorted));
            let g = greedy_selection(adj, bl, nodes0);
            assert(g.0 == sel && g.1 == def);
            assert forall|x: int| 0 <= x < sel.len() implies (#[trigger] sel[x]).1 < n by {}
            assert forall|x: int| 0 <= x < sorted.len() implies (#[trigger] sorted[x]).1 < n by {
                let k = sorted[x].0;
                assert(keyed(sorted, k) == keyed(sel, k));
                sorted.filter_lemma(key_is(k));
                sel.filter_lemma(key_is(k));
                assert(sorted.contains(sorted[x]));
                let f = keyed(sel, k);
                assert(keyed(sorted, k).contains(sorted[x]));
                assert(f.contains(sorted[x]));
                sel.lemma_filter_contains_rev(key_is(k), sorted[x]);
                let y = choose|y: int| 0 <= y < sel.len() && sel[y] == sorted[x];
            }
        }
        independent_set
    }

    /// Contracts every node, round by round: each round picks an independent
    /// set of the remaining nodes, adds the shortcuts their contraction needs,
    /// and gives them the round's number as level. Stops when no node is
    /// left, or when the level numbers run out. The state of queries is left
    /// as it is. Every old edge stays in its place, no heavier; the levels
    /// handed out are the round numbers (`levels_by_round`); and on a paired
    /// graph the distances stay and, once every node is contracted, the
    /// graph is a hierarchy (`preprocess_ok`).
    pub fn ch_preprocess(&mut self)
        requires
            old(self).wf(),
        ensures
            final(self).wf(),
            final(self).spec_graph().nodes@.len() == old(self).spec_graph().nodes@.len(),
            final(self).forward_dists() == old(self).forward_dists(),
            final(self).backward_dists() == old(self).backward_dists(),
            final(self).forward_visited() == old(self).forward_visited(),
            final(self).backward_visited() == old(self).backward_visited(),
            final(self).forward_queue() == old(self).forward_queue(),
            final(self).backward_queue() == old(self).backward_queue(),
            preprocess_ok(old(self).spec_graph(), final(self).spec_graph(), final(self).fully_contracted()),
            old(self).spec_graph().nodes@.len() <= 65536 ==> final(self).fully_contracted(),
            grows(old(self).spec_graph().adj(), final(self).spec_graph().adj()),
            exists|rounds: Seq<Seq<usize>>|
                #[trigger] levels_by_round(old(self).spec_graph().nodes@, final(self).spec_graph().nodes@, rounds,
                    final(self).fully_contracted()),
    {
        let ghost g0 = self.graph.adj();
        let ghost n0 = self.graph.nodes@;
        let ghost mut rounds: Seq<Seq<usize>> = Seq::empty();
        let ghost strong = paired(g0) && positive(g0) && no_loops(g0);
        let ghost weak = paired(g0);
        let n = self.graph.num_nodes();
        proof {
            lemma_graph_targets(&self.graph);
        }
        let mut contracted = BitSet::new(n);
        let mut nodes: Vec<usize> = Vec::new();
        let mut u: usize = 0;
        while u < n
            invariant
                u <= n,
                nodes@.len() == u,
                forall|i: int| 0 <= i < u ==> nodes@[i] == i,
            decreases n - u,
        {
            nodes.push(u);
            u = u + 1;
        }
        proof {
            if strong {
                lemma_preprocess_start(g0, self.graph.nodes@, contracted@, nodes@);
            }
            lemma_dominated_self(g0);
            assert(grows(g0, g0));
            lemma_levels_start(g0, self.graph.nodes@, contracted@);
            lemma_dips_start(g0, self.graph.nodes@, contracted@);
            assert forall|i: int, j: int| 0 <= i < nodes@.len() && 0 <= j < nodes@.len() && i != j implies nodes@[i] != nodes@[j] by {}
            assert forall|x: int| 0 <= x < n && !#[trigger] contracted@[x] implies nodes@.contains(x as usize) by {
                assert(nodes@[x] == x);
            }
        }
        let mut level: u16 = 0;
        loop
            invariant_except_break
                strong ==> contraction_inv(self.graph.adj(), g0, self.graph.nodes@, contracted@, level as int),
                weak ==> levels_kept(self.graph.adj(), self.graph.nodes@, contracted@, level as int),
                rounds.len() == level,
            invariant
                self.wf(),
                n0 == old(self).graph.nodes@,
                rounds.len() <= level + 1,
                rounds_ok(n0, self.graph.nodes@, contracted@, rounds),
                n == self.spec_graph().nodes@.len(),
                contracted@.len() >= n,
                forall|i: int| 0 <= i < nodes@.len() ==> (#[trigger] nodes@[i]) < n,
                self.forward_dists() == old(self).forward_dists(),
                self.backward_dists() == old(self).backward_dists(),
                self.forward_visited() == old(self).forward_visited(),
                self.backward_visited() == old(self).backward_visited(),
                self.forward_queue() == old(self).forward_queue(),
                self.backward_queue() == old(self).backward_queue(),
                g0 == old(self).graph.adj(),
                strong == (paired(g0) && positive(g0) && no_loops(g0)),
                strong ==> grows(g0, self.graph.adj()),
                list_ok(nodes@, contracted@, n as int),
                nodes@.len() + level <= n,
                weak == paired(g0),
                weak ==> paired(self.graph.adj()) && dominated(self.graph.adj(), g0),
                weak ==> dips_ok(self.graph.adj(), self.graph.nodes@, contracted@),
                grows(g0, self.graph.adj()),
            ensures
                strong ==> contraction_inv(self.graph.adj(), g0, self.graph.nodes@, contracted@, level as int + 1),
                weak ==> levels_kept(self.graph.adj(), self.graph.nodes@, contracted@, level as int + 1),
                n <= 65536 ==> nodes@.len() == 0,
            decreases nodes@.len(),
        {
            let ghost nodes_before = nodes@;
            let ghost adj0 = self.spec_graph().adj();
            let ghost nodes0 = self.spec_graph().nodes@;
            let ghost c0 = self.spec_counter().created;
            let ghost bits0 = contracted@;
            let independent_set = self.find_independent_set(&mut nodes, &contracted);
            if independent_set.len() == 0 {
                proof {
                    if strong {
                        lemma_inv_weaken(self.graph.adj(), g0, self.graph.nodes@, contracted@, level as int, level as int + 1);
                    }
                    if weak {
                        lemma_levels_raise(self.graph.adj(), self.graph.nodes@, contracted@, level as int, level as int + 1);
                    }
                }
                break;
            }
            self.contract_independent_set(&independent_set, level, &mut contracted);
            proof {
                let plan = planned_shortcuts(adj0, bits0, independent_set@);
                assert forall|i: int| 0 <= i < plan.len() implies (#[trigger] plan[i]).0 < bits0.len() by {
                    assert(plan[i].0 == independent_set@[i].1);
                }
                lemma_round_len(adj0, nodes0, c0, bits0, plan, level);
                assert(targets_in_range(adj0));
                assert forall|k: int| 0 <= k < plan.len() implies (#[trigger] plan[k]).0 < adj0.len() && plan[k].1
                    == node_shortcuts(adj0, bits0, plan[k].0 as int) by {
                    assert(plan[k].0 == independent_set@[k].1);
                }
                lemma_round_weak(adj0, g0, nodes0, c0, bits0, plan, level);
                lemma_grows_trans(g0, adj0, self.graph.adj());
                if weak {
                    lemma_preprocess_round_weak(adj0, nodes0, c0, bits0, nodes_before, independent_set@, nodes@, level,
                        self.graph.adj(), self.graph.nodes@, contracted@);
                }
                lemma_list_step(adj0, nodes0, c0, bits0, nodes_before, independent_set@, nodes@, level, contracted@);
                lemma_rounds_step(adj0, nodes0, c0, bits0, independent_set@, level, n0, rounds);
                rounds = rounds.push(ids(independent_set@));
                if strong {
                    lemma_graph_targets(&self.graph);
                    lemma_preprocess_round(g0, adj0, nodes0, c0, bits0, nodes_before, independent_set@, nodes@, level,
                        self.graph.adj(), self.graph.nodes@, contracted@);
                }
            }
            if level == u16::MAX {
                break;
            }
            level = level + 1;
        }
        let done = nodes.len() == 0;
        self.complete = Ghost(done);
        proof {
            if done {
                assert forall|x: int| 0 <= x < n implies #[trigger] in_rounds(rounds, x) by {
                    if !contracted@[x] {
                        assert(nodes@.contains(x as usize));
                    }
                }
            }
            assert(levels_by_round(n0, self.graph.nodes@, rounds, done));
            assert(self.fully_contracted() == done);
            assert(levels_by_round(old(self).spec_graph().nodes@, self.spec_graph().nodes@, rounds, self.fully_contracted()));
            if strong {
                lemma_preprocess_end(g0, self.graph.adj(), self.graph.nodes@, contracted@, nodes@, level as int + 1, done);
            }
            if weak {
                lemma_same_distances(g0, self.graph.adj());
                if done {
                    assert forall|x: int| 0 <= x < n implies #[trigger] contracted@[x] by {
                        if !contracted@[x] {
                            assert(nodes@.contains(x as usize));
                        }
                    }
                    lemma_graph_targets(&self.graph);
                    lemma_levels_end(self.graph.adj(), self.graph.nodes@, contracted@, level as int + 1);
                    let a1 = self.graph.adj();
                    if forall|v: int| 0 <= v < a1.len() ==> #[trigger] fits_at(a1, v) {
                        lemma_dips_end(a1, self.graph.nodes@, contracted@);
                    }
                }
            }
        }
    }
}

/// `x` is one of the nodes of `rounds`.
pub open spec fn in_rounds(rounds: Seq<Seq<usize>>, x: int) -> bool {
    exists|r: int, i: int| 0 <= r < rounds.len() && 0 <= i < rounds[r].len() && #[trigger] rounds[r][i] == x
}

/// The levels that preprocessing hands out, round by round: the nodes that
/// round `r` contracts get level `r`, every round contracts a node, a node
/// that no round contracts keeps its level, and once every node is
/// contracted each one is in a round.
pub open spec fn levels_by_round(before: Seq<Node>, after: Seq<Node>, rounds: Seq<Seq<usize>>, complete: bool) -> bool {
    &&& forall|r: int, i: int|
        0 <= r < rounds.len() && 0 <= i < rounds[r].len() ==> (#[trigger] rounds[r][i]) < after.len()
            && after[rounds[r][i] as int].level == r
    &&& forall|r: int| 0 <= r < rounds.len() ==> #[trigger] rounds[r].len() > 0
    &&& forall|x: int| 0 <= x < after.len() && !in_rounds(rounds, x) ==> #[trigger] after[x].level == before[x].level
    &&& complete ==> forall|x: int| 0 <= x < after.len() ==> #[trigger] in_rounds(rounds, x)
}

/// The rounds so far: their nodes are exactly the contracted ones and have
/// their round's number as level, and the other nodes keep theirs.
pub open spec fn rounds_ok(n0: Seq<Node>, nodes: Seq<Node>, bits: Seq<bool>, rounds: Seq<Seq<usize>>) -> bool {
    &&& nodes.len() == n0.len()
    &&& forall|r: int, i: int|
        0 <= r < rounds.len() && 0 <= i < rounds[r].len() ==> (#[trigger] rounds[r][i]) < nodes.len()
            && nodes[rounds[r][i] as int].level == r
    &&& forall|r: int| 0 <= r < rounds.len() ==> #[trigger] rounds[r].len() > 0
    &&& forall|x: int| 0 <= x < nodes.len() ==> #[trigger] bits[x] == in_rounds(rounds, x)
    &&& forall|x: int| 0 <= x < nodes.len() && !in_rounds(rounds, x) ==> #[trigger] nodes[x].level == n0[x].level
}

/// A round adds the nodes it contracts as a new round with the next number.
proof fn lemma_rounds_step(
    adj0: Seq<Seq<Edge>>,
    nodes0: Seq<Node>,
    c0: i32,
    bits0: Seq<bool>,
    set: Seq<(isize, usize)>,
    level: u16,
    n0: Seq<Node>,
    rounds: Seq<Seq<usize>>,
)
    requires
        targets_in_range(adj0),
        adj0.len() <= usize::MAX,
        nodes0.len() == adj0.len(),
        bits0.len() >= adj0.len(),
        rounds_ok(n0, nodes0, bits0, rounds),
        rounds.len() == level,
        set.len() > 0,
        forall|p: int| 0 <= p < set.len() ==> (#[trigger] set[p]).1 < adj0.len() && !bits0[set[p].1 as int],
    ensures
        ({
            let r = contraction_round(adj0, nodes0, c0, bits0, planned_shortcuts(adj0, bits0, set), level);
            rounds_ok(n0, r.1, r.3, rounds.push(ids(set)))
        }),
{
    let plan = planned_shortcuts(adj0, bits0, set);
    assert forall|k: int| 0 <= k < plan.len() implies (#[trigger] plan[k]).0 < adj0.len() && plan[k].1 == node_shortcuts(
        adj0,
        bits0,
        plan[k].0 as int,
    ) by {
        assert(plan[k].0 == set[k].1);
    }
    assert(adj0.len() <= u64::MAX);
    crate::levels::lemma_round_slots(adj0, nodes0, c0, bits0, plan, level);
    let r = contraction_round(adj0, nodes0, c0, bits0, plan, level);
    let si = ids(set);
    let r2 = rounds.push(si);
    let n = nodes0.len();
    assert forall|x: int| 0 <= x < n implies planned(plan, x) == si.contains(x as usize) by {
        if planned(plan, x) {
            let p = choose|p: int| 0 <= p < plan.len() && #[trigger] plan[p].0 == x;
            assert(si[p] == x as usize);
        }
        if si.contains(x as usize) {
            let p = choose|p: int| 0 <= p < si.len() && si[p] == x as usize;
            assert(plan[p].0 == x);
        }
    }
    assert forall|x: int| 0 <= x < n implies in_rounds(r2, x) == (in_rounds(rounds, x) || si.contains(x as usize)) by {
        if in_rounds(r2, x) {
            let (q, i) = choose|q: int, i: int| 0 <= q < r2.len() && 0 <= i < r2[q].len() && #[trigger] r2[q][i] == x;
            if q < rounds.len() {
                assert(r2[q] == rounds[q]);
                assert(rounds[q][i] == x);
            } else {
                assert(r2[q] == si);
            }
        }
        if in_rounds(rounds, x) {
            let (q, i) = choose|q: int, i: int| 0 <= q < rounds.len() && 0 <= i < rounds[q].len() && #[trigger] rounds[q][i] == x;
            assert(r2[q] == rounds[q]);
            assert(r2[q][i] == x);
        }
        if si.contains(x as usize) {
            let p = choose|p: int| 0 <= p < si.len() && si[p] == x as usize;
            let q = rounds.len() as int;
            assert(r2[q] == si);
            assert(r2[q][p] == x);
        }
    }
    assert forall|q: int, i: int| 0 <= q < r2.len() && 0 <= i < r2[q].len() implies (#[trigger] r2[q][i]) < r.1.len()
        && r.1[r2[q][i] as int].level == q by {
        let x = r2[q][i] as int;
        if q < rounds.len() {
            assert(r2[q] == rounds[q]);
            assert(rounds[q][i] == x);
            assert(in_rounds(rounds, x));
            assert(bits0[x]);
            if planned(plan, x) {
                let p = choose|p: int| 0 <= p < plan.len() && #[trigger] plan[p].0 == x;
                assert(plan[p].0 == set[p].1);
                assert(!bits0[set[p].1 as int]);
            }
        } else {
            assert(r2[q] == si);
            assert(si[i] == set[i].1);
            assert(si.contains(x as usize));
        }
    }
    assert forall|q: int| 0 <= q < r2.len() implies #[trigger] r2[q].len() > 0 by {
        if q < rounds.len() {
            assert(r2[q] == rounds[q]);
        }
    }
    assert forall|x: int| 0 <= x < n && !in_rounds(r2, x) implies #[trigger] r.1[x].level == n0[x].level by {}
}

/// What preprocessing owes. For a graph whose stored edges are paired, the
/// graph stays paired and keeps its distances, whatever its weights, and
/// once every node is contracted no edge joins two different nodes of the
/// same level and, wherever the edges at a node combine without overflow,
/// every dip can be bypassed. When moreover every edge weighs more than nothing and none
/// points back to its own node, the graph stays so; and once every node is
/// contracted, wherever the edges at a node combine without overflow, every
/// dip can be bypassed and no edge joins nodes of the same level.
pub open spec fn preprocess_ok(before: Graph, after: Graph, complete: bool) -> bool {
    let a0 = before.adj();
    let a1 = after.adj();
    &&& paired(a0) ==> paired(a1) && same_distances(a0, a1)
    &&& paired(a0) && complete ==> levels_apart(a1, after.nodes@)
    &&& (paired(a0) && complete && forall|v: int| 0 <= v < a1.len() ==> #[trigger] fits_at(a1, v)) ==> bypassed(a1, after.nodes@)
    &&& paired(a0) && positive(a0) && no_loops(a0) ==> {
        &&& positive(a1) && no_loops(a1)
        &&& (complete && forall|v: int| 0 <= v < a1.len() ==> #[trigger] fits_at(a1, v)) ==> bypassed(a1, after.nodes@)
            && levels_differ(a1, after.nodes@)
    }
}

/// The list of nodes left to contract: no repeats, none contracted, and
/// every node that is not contracted is in it.
pub open spec fn list_ok(list: Seq<usize>, bits: Seq<bool>, n: int) -> bool {
    &&& list.no_duplicates()
    &&& forall|i: int| 0 <= i < list.len() ==> (#[trigger] list[i]) < n && !bits[list[i] as int]
    &&& forall|x: int| 0 <= x < n && !#[trigger] bits[x] ==> list.contains(x as usize)
}

proof fn lemma_inv_weaken(adj: Seq<Seq<Edge>>, g0: Seq<Seq<Edge>>, nodes: Seq<Node>, bits: Seq<bool>, l1: int, l2: int)
    requires
        contraction_inv(adj, g0, nodes, bits, l1),
        l1 <= l2,
    ensures
        contraction_inv(adj, g0, nodes, bits, l2),
{
}

/// A graph is dominated by itself: each edge is a walk.
proof fn lemma_dominated_self(g0: Seq<Seq<Edge>>)
    ensures
        dominated(g0, g0),
{
    assert forall|x: int, y: int, w: int| #[trigger] out_arc(g0, none_blocked(), x, y, w) implies exists|w2: int|
        w2 <= w && #[trigger] reaches_with(g0, none_blocked(), x, y, w2) by {
        lemma_trivial_walk(g0, none_blocked(), x);
        lemma_extend_walk(g0, none_blocked(), x, x, y, 0, w);
    }
}

proof fn lemma_preprocess_start(g0: Seq<Seq<Edge>>, nodes: Seq<Node>, bits: Seq<bool>, list: Seq<usize>)
    requires
        paired(g0),
        positive(g0),
        no_loops(g0),
        targets_in_range(g0),
        g0.len() <= usize::MAX,
        nodes.len() == g0.len(),
        bits.len() >= g0.len(),
        forall|i: int| 0 <= i < bits.len() ==> !#[trigger] bits[i],
        list.len() == g0.len(),
        forall|i: int| 0 <= i < list.len() ==> list[i] == i,
    ensures
        contraction_inv(g0, g0, nodes, bits, 0),
        grows(g0, g0),
        list_ok(list, bits, g0.len() as int),
{
    assert forall|x: int, y: int, w: int| #[trigger] out_arc(g0, none_blocked(), x, y, w) implies exists|w2: int|
        w2 <= w && #[trigger] reaches_with(g0, none_blocked(), x, y, w2) by {
        lemma_trivial_walk(g0, none_blocked(), x);
        lemma_extend_walk(g0, none_blocked(), x, x, y, 0, w);
    }
    assert forall|i: int, j: int| 0 <= i < list.len() && 0 <= j < list.len() && i != j implies list[i] != list[j] by {}
    assert forall|x: int| 0 <= x < g0.len() && !#[trigger] bits[x] implies list.contains(x as usize) by {
        assert(list[x] == x);
    }
}

proof fn lemma_preprocess_round(
    g0: Seq<Seq<Edge>>,
    adj0: Seq<Seq<Edge>>,
    nodes0: Seq<Node>,
    c0: i32,
    bits0: Seq<bool>,
    list0: Seq<usize>,
    set: Seq<(isize, usize)>,
    list1: Seq<usize>,
    level: u16,
    adj1: Seq<Seq<Edge>>,
    nodes1: Seq<Node>,
    bits1: Seq<bool>,
)
    requires
        contraction_inv(adj0, g0, nodes0, bits0, level as int),
        grows(g0, adj0),
        list_ok(list0, bits0, adj0.len() as int),
        ({
            let g = greedy_selection(adj0, bits0, list0);
            exists|sorted: Seq<(isize, usize)>|
                #[trigger] is_stable_sort(g.0, sorted) && 0 <= cutoff(sorted) <= sorted.len() && set == sorted.take(cutoff(sorted))
                    && list1 == g.1 + sorted.skip(cutoff(sorted)).map_values(|p: (isize, usize)| p.1)
        }),
        ({
            let r = contraction_round(adj0, nodes0, c0, bits0, planned_shortcuts(adj0, bits0, set), level);
            &&& adj1 == r.0
            &&& nodes1 == r.1
            &&& bits1 == r.3
        }),
        targets_in_range(adj1),
        adj1.len() == adj0.len(),
    ensures
        contraction_inv(adj1, g0, nodes1, bits1, level + 1),
        paired(adj1) && positive(adj1) && no_loops(adj1) && dominated(adj1, g0),
        grows(g0, adj1),
        list_ok(list1, bits1, adj0.len() as int),
        bits1.len() == bits0.len(),
        forall|x: int| 0 <= x < bits0.len() && #[trigger] bits0[x] ==> bits1[x],
{
    let g = greedy_selection(adj0, bits0, list0);
    let sorted = choose|sorted: Seq<(isize, usize)>|
        #[trigger] is_stable_sort(g.0, sorted) && 0 <= cutoff(sorted) <= sorted.len() && set == sorted.take(cutoff(sorted))
            && list1 == g.1 + sorted.skip(cutoff(sorted)).map_values(|p: (isize, usize)| p.1);
    lemma_selection(adj0, bits0, list0, sorted, set, list1);
    lemma_round(adj0, g0, nodes0, c0, bits0, set, level, set.len() as int);
    let plan = planned_shortcuts(adj0, bits0, set);
    assert(plan.take(set.len() as int) =~= plan);
    lemma_grows_trans(g0, adj0, adj1);
    let n = adj0.len();
    assert forall|x: int| 0 <= x < n implies #[trigger] bits1[x] == (bits0[x] || ids(set).contains(x as usize)) by {
        assert(bits1[x] == (bits0[x] || among(set, set.len() as int, x)));
        if among(set, set.len() as int, x) {
            let p = choose|p: int| 0 <= p < set.len() && #[trigger] set[p].1 == x;
            assert(ids(set)[p] == x as usize);
        }
        if ids(set).contains(x as usize) {
            let p = choose|p: int| 0 <= p < ids(set).len() && ids(set)[p] == x as usize;
            assert(set[p].1 == x);
        }
    }
    assert forall|x: int| 0 <= x < n && #[trigger] bits1[x] implies nodes1[x].level < level + 1 by {
        if among(set, set.len() as int, x) {
        } else {
            assert(bits0[x]);
        }
    }
    assert forall|x: int| n <= x < bits1.len() implies !#[trigger] bits1[x] by {
        assert(!bits0[x]);
        if among(set, set.len() as int, x) {
            let p = choose|p: int| 0 <= p < set.len() && #[trigger] set[p].1 == x;
        }
    }
    assert forall|i: int| 0 <= i < list1.len() implies (#[trigger] list1[i]) < n && !bits1[list1[i] as int] by {
        assert(list1.contains(list1[i]));
        assert(list0.contains(list1[i]) && !ids(set).contains(list1[i]));
        let j = choose|j: int| 0 <= j < list0.len() && list0[j] == list1[i];
    }
    assert forall|x: int| 0 <= x < n && !#[trigger] bits1[x] implies list1.contains(x as usize) by {
        assert(!bits0[x]);
        assert(list0.contains(x as usize));
        assert(!ids(set).contains(x as usize));
    }
}

/// A round keeps the levels apart, and the list of nodes left, whatever
/// the weights of a paired graph.
proof fn lemma_preprocess_round_weak(
    adj0: Seq<Seq<Edge>>,
    nodes0: Seq<Node>,
    c0: i32,
    bits0: Seq<bool>,
    list0: Seq<usize>,
    set: Seq<(isize, usize)>,
    list1: Seq<usize>,
    level: u16,
    adj1: Seq<Seq<Edge>>,
    nodes1: Seq<Node>,
    bits1: Seq<bool>,
)
    requires
        paired(adj0),
        targets_in_range(adj0),
        adj0.len() <= usize::MAX,
        nodes0.len() == adj0.len(),
        bits0.len() >= adj0.len(),
        levels_kept(adj0, nodes0, bits0, level as int),
        dips_ok(adj0, nodes0, bits0),
        list_ok(list0, bits0, adj0.len() as int),
        ({
            let g = greedy_selection(adj0, bits0, list0);
            exists|sorted: Seq<(isize, usize)>|
                #[trigger] is_stable_sort(g.0, sorted) && 0 <= cutoff(sorted) <= sorted.len() && set == sorted.take(cutoff(sorted))
                    && list1 == g.1 + sorted.skip(cutoff(sorted)).map_values(|p: (isize, usize)| p.1)
        }),
        ({
            let r = contraction_round(adj0, nodes0, c0, bits0, planned_shortcuts(adj0, bits0, set), level);
            &&& adj1 == r.0
            &&& nodes1 == r.1
            &&& bits1 == r.3
        }),
    ensures
        levels_kept(adj1, nodes1, bits1, level + 1),
        dips_ok(adj1, nodes1, bits1),
{
    let g = greedy_selection(adj0, bits0, list0);
    let sorted = choose|sorted: Seq<(isize, usize)>|
        #[trigger] is_stable_sort(g.0, sorted) && 0 <= cutoff(sorted) <= sorted.len() && set == sorted.take(cutoff(sorted))
            && list1 == g.1 + sorted.skip(cutoff(sorted)).map_values(|p: (isize, usize)| p.1);
    lemma_selection_apart(adj0, bits0, list0, sorted, set, list1);
    assert(round_apart(adj0, bits0, set));
    let plan = planned_shortcuts(adj0, bits0, set);
    let si = ids(set);
    assert forall|k: int| 0 <= k < plan.len() implies (#[trigger] plan[k]).0 < adj0.len() && !bits0[plan[k].0 as int]
        && plan[k].1 == node_shortcuts(adj0, bits0, plan[k].0 as int) by {
        assert(plan[k].0 == set[k].1);
    }
    assert forall|p: int, q: int, i: int|
        0 <= p < plan.len() && 0 <= q < plan.len() && plan[p].0 != plan[q].0 && 0 <= i < adj0[plan[p].0 as int].len() implies (
        #[trigger] adj0[plan[p].0 as int][i]).target != #[trigger] plan[q].0 by {
        assert(plan[p].0 == si[p] && plan[q].0 == si[q]);
        assert(adj0[si[p] as int][i].target != si[q]);
    }
    assert(results_apart(adj0, bits0, plan));
    assert(adj0.len() <= u64::MAX);
    lemma_round_levels(adj0, nodes0, c0, bits0, plan, level);
    lemma_round_dips(adj0, nodes0, c0, bits0, plan, level);
}

/// A round keeps the list of nodes left, whatever the graph: it holds,
/// without repeats, exactly the nodes not contracted; and the round
/// contracts nodes that were not contracted.
proof fn lemma_list_step(
    adj0: Seq<Seq<Edge>>,
    nodes0: Seq<Node>,
    c0: i32,
    bits0: Seq<bool>,
    list0: Seq<usize>,
    set: Seq<(isize, usize)>,
    list1: Seq<usize>,
    level: u16,
    bits1: Seq<bool>,
)
    requires
        targets_in_range(adj0),
        adj0.len() <= usize::MAX,
        nodes0.len() == adj0.len(),
        bits0.len() >= adj0.len(),
        list_ok(list0, bits0, adj0.len() as int),
        ({
            let g = greedy_selection(adj0, bits0, list0);
            exists|sorted: Seq<(isize, usize)>|
                #[trigger] is_stable_sort(g.0, sorted) && 0 <= cutoff(sorted) <= sorted.len() && set == sorted.take(cutoff(sorted))
                    && list1 == g.1 + sorted.skip(cutoff(sorted)).map_values(|p: (isize, usize)| p.1)
        }),
        bits1 == contraction_round(adj0, nodes0, c0, bits0, planned_shortcuts(adj0, bits0, set), level).3,
    ensures
        list_ok(list1, bits1, adj0.len() as int),
        forall|p: int| 0 <= p < set.len() ==> (#[trigger] set[p]).1 < adj0.len() && !bits0[set[p].1 as int],
{
    let g = greedy_selection(adj0, bits0, list0);
    let sorted = choose|sorted: Seq<(isize, usize)>|
        #[trigger] is_stable_sort(g.0, sorted) && 0 <= cutoff(sorted) <= sorted.len() && set == sorted.take(cutoff(sorted))
            && list1 == g.1 + sorted.skip(cutoff(sorted)).map_values(|p: (isize, usize)| p.1);
    lemma_selection_list(adj0, bits0, list0, sorted, set, list1);
    let plan = planned_shortcuts(adj0, bits0, set);
    let si = ids(set);
    assert forall|k: int| 0 <= k < plan.len() implies (#[trigger] plan[k]).0 < adj0.len() && plan[k].1 == node_shortcuts(
        adj0,
        bits0,
        plan[k].0 as int,
    ) by {
        assert(plan[k].0 == set[k].1);
    }
    assert(adj0.len() <= u64::MAX);
    crate::levels::lemma_round_slots(adj0, nodes0, c0, bits0, plan, level);
    let n = adj0.len();
    assert forall|x: int| 0 <= x < n implies #[trigger] bits1[x] == (bits0[x] || si.contains(x as usize)) by {
        if planned(plan, x) {
            let p = choose|p: int| 0 <= p < plan.len() && #[trigger] plan[p].0 == x;
            assert(si[p] == x as usize);
        }
        if si.contains(x as usize) {
            let p = choose|p: int| 0 <= p < si.len() && si[p] == x as usize;
            assert(plan[p].0 == x);
        }
    }
    assert forall|i: int| 0 <= i < list1.len() implies (#[trigger] list1[i]) < n && !bits1[list1[i] as int] by {
        assert(list1.contains(list1[i]));
        assert(list0.contains(list1[i]) && !si.contains(list1[i]));
        let j = choose|j: int| 0 <= j < list0.len() && list0[j] == list1[i];
    }
    assert forall|x: int| 0 <= x < n && !#[trigger] bits1[x] implies list1.contains(x as usize) by {
        assert(!bits0[x]);
        assert(list0.contains(x as usize));
        assert(!si.contains(x as usize));
    }
}

proof fn lemma_preprocess_end(
    g0: Seq<Seq<Edge>>,
    adj: Seq<Seq<Edge>>,
    nodes: Seq<Node>,
    bits: Seq<bool>,
    list: Seq<usize>,
    level: int,
    done: bool,
)
    requires
        contraction_inv(adj, g0, nodes, bits, level),
        grows(g0, adj),
        list_ok(list, bits, adj.len() as int),
        done == (list.len() == 0),
    ensures
        paired(adj) && positive(adj) && no_loops(adj),
        same_distances(g0, adj),
        (done && forall|v: int| 0 <= v < adj.len() ==> #[trigger] fits_at(adj, v)) ==> bypassed(adj, nodes)
            && levels_differ(adj, nodes),
{
    lemma_same_distances(g0, adj);
    if done && forall|v: int| 0 <= v < adj.len() ==> #[trigger] fits_at(adj, v) {
        assert forall|x: int| 0 <= x < adj.len() implies #[trigger] bits[x] by {
            if !bits[x] {
                assert(list.contains(x as usize));
            }
        }
        lemma_finished(adj, g0, nodes, bits, level);
    }
}


/// The hierarchy that a complete preprocessing builds offers every distance
/// of the graph it started from: in the preprocessed graph the distance is
/// the same and is the weight of a walk that climbs and then descends. With
/// `query_exact`, a query from a fresh state therefore returns it. This
/// holds for every graph whose stored edges are paired, whatever the
/// weights, edges from a node to itself included, once the preprocessed
/// edges at each node combine without overflow.
pub proof fn lemma_preprocessed_offers_distances(before: Graph, after: Graph, s: int, t: int, d: int)
    requires
        preprocess_ok(before, after, true),
        paired(before.adj()),
        after.nodes@.len() == after.adj().len(),
        forall|v: int| 0 <= v < after.adj().len() ==> #[trigger] fits_at(after.adj(), v),
        is_distance(before.adj(), none_blocked(), s, t, d),
    ensures
        is_distance(after.adj(), none_blocked(), s, t, d),
        up_down(after.adj(), after.nodes@, s, t, d),
{
    let a1 = after.adj();
    assert(is_distance(a1, none_blocked(), s, t, d));
    let (p, ws) = choose|p: Seq<int>, ws: Seq<int>|
        #[trigger] crate::paths::walk_between(a1, none_blocked(), s, t, p, ws) && crate::paths::weight_sum(ws) == d;
    lemma_bypassed_up_down(a1, after.nodes@, s, t, d, p, ws);
}


/// A query of either kind on a completely preprocessed graph, from a fresh
/// state, agrees with a plain Dijkstra search on the graph it started from,
/// whenever that search finds a distance below `usize::MAX`. The conditions
/// are those of `lemma_preprocessed_offers_distances`: paired stored edges,
/// any weights, and preprocessed edges that combine without overflow; `q`
/// is what the query returned.
pub proof fn lemma_query_agrees_with_dijkstra(before: Graph, after: Graph, s: int, t: int, r: int, q: Option<usize>)
    requires
        preprocess_ok(before, after, true),
        paired(before.adj()),
        after.nodes@.len() == after.adj().len(),
        forall|v: int| 0 <= v < after.adj().len() ==> #[trigger] fits_at(after.adj(), v),
        search_result(before.adj(), none_blocked(), s, t, r),
        r < usize::MAX,
        query_exact(after, true, s, t, q),
    ensures
        q == Some(r as usize),
{
    lemma_preprocessed_offers_distances(before, after, s, t, r);
}

} // verus!
