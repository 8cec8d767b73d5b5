//! Why contraction leaves every dip bypassed whatever the weights of a
//! paired graph: a round changes the edges at a node it contracts only by
//! that node's own shortcuts, which are never lighter than an edge it
//! already had, so the lightest edges at the node stay as they were and the
//! witness search made with them still holds.
use vstd::prelude::*;
use crate::graph::{add_edge_spec, first_slot, lemma_first_slot, merge_edge, Edge, Node};
use crate::ch::{
    contraction_round, insert_shortcuts, make_shortcut, node_shortcuts, qualifies, shortcut_edge, shortcut_table,
    with_level, Shortcut,
};
use crate::contraction::{
    above, adds_only, combines, dip_bypassed, fits_at, from_pair, frozen, grows, has_edge_for, lemma_add_edge_arcs,
    lemma_arc_grows, lemma_distance_exists, lemma_frozen_trans, lemma_grows_trans, lemma_reach_grows,
    lemma_table_members, lemma_unblock, lemma_way_around_grows, way_around,
};
use crate::dijkstra::blocked_by;
use crate::levels::{levels_kept, planned, results_apart};
use crate::paths::{
    in_arc, is_distance, lemma_extend_walk, lemma_trivial_walk, none_blocked, out_arc, paired, reaches_with,
    targets_in_range,
};

verus! {

/// `e`, stored at `y`, is one of the two copies of the shortcut `sc`: the
/// forward one at its start or the backward one at its end.
pub open spec fn copy_of(sc: Shortcut, y: int, e: Edge) -> bool {
    ||| y == sc.from && e.dir && e.target == sc.to && e.weight == sc.weight
    ||| y == sc.to && !e.dir && e.target == sc.from && e.weight == sc.weight
}

/// `e`, stored at `y`, is a copy of one of the shortcuts planned in `results`.
pub open spec fn planned_copy(results: Seq<(usize, Seq<Shortcut>)>, y: int, e: Edge) -> bool {
    exists|k: int, j: int| 0 <= k < results.len() && 0 <= j < results[k].1.len() && #[trigger] copy_of(results[k].1[j], y, e)
}

/// Every edge of `a2` is stored in `a1` in the same place, or is a copy of a
/// shortcut planned in `results`.
pub open spec fn origin(a1: Seq<Seq<Edge>>, a2: Seq<Seq<Edge>>, results: Seq<(usize, Seq<Shortcut>)>) -> bool {
    forall|y: int, i: int|
        0 <= y < a2.len() && 0 <= i < a2[y].len() ==> (i < a1[y].len() && #[trigger] a2[y][i] == a1[y][i]) || planned_copy(
            results,
            y,
            a2[y][i],
        )
}

/// The `i`-th edge of `a2` at `y` is stored in `a1` in the same place, or
/// is a copy of one of the shortcuts `scs`.
pub open spec fn placed_or_copy(a1: Seq<Seq<Edge>>, a2: Seq<Seq<Edge>>, scs: Seq<Shortcut>, y: int, i: int) -> bool {
    (i < a1[y].len() && a2[y][i] == a1[y][i]) || exists|j: int| 0 <= j < scs.len() && #[trigger] copy_of(scs[j], y, a2[y][i])
}

/// At every contracted node where the edges combine without overflow, every
/// dip has a way around.
pub open spec fn dips_ok(adj: Seq<Seq<Edge>>, nodes: Seq<Node>, bits: Seq<bool>) -> bool {
    forall|v: int| 0 <= v < adj.len() && bits[v] && fits_at(adj, v) ==> #[trigger] dip_bypassed(adj, nodes, bits, v)
}

/// Inserting shortcuts whose ends are outside `keep`: the graph grows away
/// from `keep`, each new edge is a copy of one of them, and each of them
/// has an edge no heavier.
proof fn lemma_insert_origin(adj: Seq<Seq<Edge>>, created: i32, scs: Seq<Shortcut>, keep: spec_fn(int) -> bool)
    requires
        adj.len() <= u64::MAX,
        forall|k: int|
            0 <= k < scs.len() ==> (#[trigger] scs[k]).from < adj.len() && scs[k].to < adj.len() && !keep(scs[k].from as int)
                && !keep(scs[k].to as int),
    ensures
        insert_shortcuts(adj, created, scs).0.len() == adj.len(),
        grows(adj, insert_shortcuts(adj, created, scs).0),
        frozen(adj, insert_shortcuts(adj, created, scs).0, keep),
        forall|y: int, i: int|
            0 <= y < adj.len() && 0 <= i < insert_shortcuts(adj, created, scs).0[y].len() ==> #[trigger] placed_or_copy(
                adj,
                insert_shortcuts(adj, created, scs).0,
                scs,
                y,
                i,
            ),
        forall|j: int| 0 <= j < scs.len() ==> has_edge_for(insert_shortcuts(adj, created, scs).0, #[trigger] scs[j]),
    decreases scs.len(),
{
    let fin = insert_shortcuts(adj, created, scs).0;
    if scs.len() == 0 {
        assert(fin == adj);
        assert(grows(adj, adj));
        assert forall|y: int, i: int| 0 <= y < adj.len() && 0 <= i < fin[y].len() implies #[trigger] placed_or_copy(adj, fin, scs, y, i) by {}
    } else {
        let s0 = scs.drop_last();
        assert forall|k: int| 0 <= k < s0.len() implies (#[trigger] s0[k]).from < adj.len() && s0[k].to < adj.len()
            && !keep(s0[k].from as int) && !keep(s0[k].to as int) by {
            assert(s0[k] == scs[k]);
        }
        lemma_insert_origin(adj, created, s0, keep);
        let prev = insert_shortcuts(adj, created, s0);
        let last = scs.len() - 1;
        let sc = scs.last();
        assert(sc == scs[last]);
        let id = crate::graph::wrapping_i32_succ(prev.1);
        let e = shortcut_edge(sc, id);
        assert(fin == add_edge_spec(prev.0, sc.from as int, e));
        lemma_add_edge_arcs(prev.0, sc.from as int, e, keep);
        lemma_grows_trans(adj, prev.0, fin);
        lemma_frozen_trans(adj, prev.0, fin, keep);
        assert forall|y: int, i: int| 0 <= y < adj.len() && 0 <= i < fin[y].len() implies #[trigger] placed_or_copy(adj, fin, scs, y, i) by {
            assert(adds_only(prev.0, fin, sc.from as int, sc.to as int, sc.weight as int));
            if i < prev.0[y].len() && fin[y][i] == prev.0[y][i] {
                assert(placed_or_copy(adj, prev.0, s0, y, i));
                if !(i < adj[y].len() && prev.0[y][i] == adj[y][i]) {
                    let j = choose|j: int| 0 <= j < s0.len() && #[trigger] copy_of(s0[j], y, prev.0[y][i]);
                    assert(s0[j] == scs[j]);
                    assert(copy_of(scs[j], y, fin[y][i]));
                }
            } else {
                assert(copy_of(scs[last], y, fin[y][i]));
            }
        }
        assert forall|j: int| 0 <= j < scs.len() implies has_edge_for(fin, #[trigger] scs[j]) by {
            if j < last {
                assert(s0[j] == scs[j]);
                assert(has_edge_for(prev.0, s0[j]));
                let x = choose|x: int| x <= s0[j].weight && #[trigger] out_arc(prev.0, none_blocked(), s0[j].from as int, s0[j].to as int, x);
                lemma_arc_grows(prev.0, fin, s0[j].from as int, s0[j].to as int, x);
                let x2 = choose|x2: int| x2 <= x && #[trigger] out_arc(fin, none_blocked(), s0[j].from as int, s0[j].to as int, x2);
            } else {
                let x = choose|x: int| x <= e.weight && #[trigger] out_arc(fin, none_blocked(), sc.from as int, e.target as int, x);
            }
        }
    }
}

/// A shortcut planned at `v` combines two edges stored at `v` into nodes
/// that are not contracted.
proof fn lemma_planned_pair(adj0: Seq<Seq<Edge>>, bits0: Seq<bool>, v: int, sc: Shortcut) -> (ij: (int, int))
    requires
        targets_in_range(adj0),
        0 <= v < adj0.len(),
        from_pair(adj0, bits0, adj0[v], adj0[v], sc),
    ensures
        0 <= ij.0 < adj0[v].len(),
        0 <= ij.1 < adj0[v].len(),
        combines(adj0, bits0, adj0[v][ij.0], adj0[v][ij.1], sc),
        sc.from < adj0.len() && sc.to < adj0.len(),
{
    let list = adj0[v];
    let (i, j) = choose|i: int, j: int| 0 <= i < list.len() && 0 <= j < list.len() && #[trigger] combines(adj0, bits0, list[i], list[j], sc);
    assert(adj0[v][i].target < adj0.len());
    assert(adj0[v][j].target < adj0.len());
    (i, j)
}

/// A round of contraction: the graph grows away from the nodes contracted
/// before, each new edge is a copy of a planned shortcut, and each planned
/// shortcut has an edge no heavier.
pub proof fn lemma_round_origin(
    adj0: Seq<Seq<Edge>>,
    nodes0: Seq<Node>,
    c0: i32,
    bits0: Seq<bool>,
    results: Seq<(usize, Seq<Shortcut>)>,
    level: u16,
)
    requires
        targets_in_range(adj0),
        adj0.len() <= u64::MAX,
        bits0.len() >= adj0.len(),
        forall|k: int|
            0 <= k < results.len() ==> (#[trigger] results[k]).0 < adj0.len() && results[k].1 == node_shortcuts(
                adj0,
                bits0,
                results[k].0 as int,
            ),
    ensures
        ({
            let r = contraction_round(adj0, nodes0, c0, bits0, results, level);
            &&& r.0.len() == adj0.len()
            &&& grows(adj0, r.0)
            &&& frozen(adj0, r.0, blocked_by(bits0))
            &&& origin(adj0, r.0, results)
            &&& forall|k: int, j: int|
                0 <= k < results.len() && 0 <= j < results[k].1.len() ==> has_edge_for(r.0, #[trigger] results[k].1[j])
        }),
    decreases results.len(),
{
    let r = contraction_round(adj0, nodes0, c0, bits0, results, level);
    let keep = blocked_by(bits0);
    if results.len() == 0 {
        assert(grows(adj0, adj0));
    } else {
        let r0 = results.drop_last();
        assert forall|k: int| 0 <= k < r0.len() implies (#[trigger] r0[k]).0 < adj0.len() && r0[k].1 == node_shortcuts(
            adj0,
            bits0,
            r0[k].0 as int,
        ) by {
            assert(r0[k] == results[k]);
        }
        lemma_round_origin(adj0, nodes0, c0, bits0, r0, level);
        let prev = contraction_round(adj0, nodes0, c0, bits0, r0, level);
        let lastk = results.len() - 1;
        let last = results.last();
        assert(last == results[lastk]);
        let v = last.0 as int;
        let scs = last.1;
        let list = adj0[v];
        lemma_table_members(adj0, bits0, list, list);
        assert forall|k: int| 0 <= k < scs.len() implies (#[trigger] scs[k]).from < prev.0.len() && scs[k].to < prev.0.len()
            && !keep(scs[k].from as int) && !keep(scs[k].to as int) by {
            assert(from_pair(adj0, bits0, list, list, scs[k]));
            let ij = lemma_planned_pair(adj0, bits0, v, scs[k]);
        }
        lemma_insert_origin(prev.0, prev.2, scs, keep);
        let ins = insert_shortcuts(prev.0, prev.2, scs);
        assert(r == (ins.0, with_level(prev.1, v, level), ins.1, prev.3.update(v, true)));
        lemma_grows_trans(adj0, prev.0, r.0);
        lemma_frozen_trans(adj0, prev.0, r.0, keep);
        assert forall|y: int, i: int| 0 <= y < r.0.len() && 0 <= i < r.0[y].len() implies (i < adj0[y].len()
            && #[trigger] r.0[y][i] == adj0[y][i]) || planned_copy(results, y, r.0[y][i]) by {
            assert(placed_or_copy(prev.0, r.0, scs, y, i));
            if i < prev.0[y].len() && r.0[y][i] == prev.0[y][i] {
                if !(i < adj0[y].len() && prev.0[y][i] == adj0[y][i]) {
                    assert(planned_copy(r0, y, prev.0[y][i]));
                    let (k, j) = choose|k: int, j: int| 0 <= k < r0.len() && 0 <= j < r0[k].1.len() && #[trigger] copy_of(r0[k].1[j], y, prev.0[y][i]);
                    assert(r0[k] == results[k]);
                    assert(copy_of(results[k].1[j], y, r.0[y][i]));
                }
            } else {
                let j = choose|j: int| 0 <= j < scs.len() && #[trigger] copy_of(scs[j], y, r.0[y][i]);
                assert(results[lastk].1[j] == scs[j]);
            }
        }
        assert forall|k: int, j: int| 0 <= k < results.len() && 0 <= j < results[k].1.len() implies has_edge_for(
            r.0,
            #[trigger] results[k].1[j],
        ) by {
            if k < lastk {
                assert(r0[k] == results[k]);
                let sc = r0[k].1[j];
                assert(has_edge_for(prev.0, sc));
                let x = choose|x: int| x <= sc.weight && #[trigger] out_arc(prev.0, none_blocked(), sc.from as int, sc.to as int, x);
                lemma_arc_grows(prev.0, r.0, sc.from as int, sc.to as int, x);
                let x2 = choose|x2: int| x2 <= x && #[trigger] out_arc(r.0, none_blocked(), sc.from as int, sc.to as int, x2);
            } else {
                assert(has_edge_for(ins.0, scs[j]));
            }
        }
    }
}

/// In a list, an edge of the lightest weight among those with the same
/// target and direction as the `i`-th one.
pub proof fn lemma_slot_min(list: Seq<Edge>, i: int) -> (im: int)
    requires
        0 <= i < list.len(),
    ensures
        0 <= im < list.len(),
        list[im].dir == list[i].dir,
        list[im].target == list[i].target,
        list[im].weight <= list[i].weight,
        forall|j: int|
            0 <= j < list.len() && list[j].dir == list[i].dir && list[j].target == list[i].target ==> list[im].weight
                <= #[trigger] list[j].weight,
    decreases list[i].weight,
{
    if exists|j: int|
        0 <= j < list.len() && list[j].dir == list[i].dir && list[j].target == list[i].target && #[trigger] list[j].weight
            < list[i].weight {
        let j = choose|j: int|
            0 <= j < list.len() && list[j].dir == list[i].dir && list[j].target == list[i].target && #[trigger] list[j].weight
                < list[i].weight;
        lemma_slot_min(list, j)
    } else {
        i
    }
}

/// A copy of a shortcut planned for a round, stored at a node `v` that the
/// round contracts, or pointing to it, is a copy of one of `v`'s own.
pub proof fn lemma_own_copy(
    adj0: Seq<Seq<Edge>>,
    bits0: Seq<bool>,
    results: Seq<(usize, Seq<Shortcut>)>,
    kv: int,
    y: int,
    e: Edge,
) -> (ij: (int, int))
    requires
        targets_in_range(adj0),
        results_apart(adj0, bits0, results),
        0 <= kv < results.len(),
        planned_copy(results, y, e),
        y == results[kv].0 || e.target == results[kv].0,
    ensures
        ({
            let v = results[kv].0 as int;
            let sc = make_shortcut(adj0[v][ij.0], adj0[v][ij.1]);
            &&& 0 <= ij.0 < adj0[v].len()
            &&& 0 <= ij.1 < adj0[v].len()
            &&& combines(adj0, bits0, adj0[v][ij.0], adj0[v][ij.1], sc)
            &&& copy_of(sc, y, e)
        }),
{
    let v = results[kv].0 as int;
    let (k, j) = choose|k: int, j: int| 0 <= k < results.len() && 0 <= j < results[k].1.len() && #[trigger] copy_of(results[k].1[j], y, e);
    let z = results[k].0 as int;
    let sc = results[k].1[j];
    assert(results[k].1 == node_shortcuts(adj0, bits0, z));
    lemma_table_members(adj0, bits0, adj0[z], adj0[z]);
    assert(from_pair(adj0, bits0, adj0[z], adj0[z], sc));
    let ij = lemma_planned_pair(adj0, bits0, z, sc);
    let a = adj0[z][ij.0];
    let b = adj0[z][ij.1];
    // the copy touches `v`, so `v` is next to `z`, which makes them one node
    if results[k].0 != results[kv].0 {
        if sc.from == v {
            assert(adj0[results[k].0 as int][ij.0].target != results[kv].0);
        } else {
            assert(sc.to == v);
            assert(adj0[results[k].0 as int][ij.1].target != results[kv].0);
        }
    }
    ij
}

/// A dip at a node that a round contracts, between nodes left for later:
/// after the round it has a way around.
#[verifier::rlimit(60)]
proof fn lemma_round_dip(
    adj0: Seq<Seq<Edge>>,
    a2: Seq<Seq<Edge>>,
    bits0: Seq<bool>,
    results: Seq<(usize, Seq<Shortcut>)>,
    kv: int,
    u: int,
    w: int,
    w1: int,
    w2: int,
)
    requires
        paired(adj0),
        targets_in_range(adj0),
        bits0.len() >= adj0.len(),
        grows(adj0, a2),
        origin(adj0, a2, results),
        forall|k: int, j: int|
            0 <= k < results.len() && 0 <= j < results[k].1.len() ==> has_edge_for(a2, #[trigger] results[k].1[j]),
        results_apart(adj0, bits0, results),
        0 <= kv < results.len(),
        !bits0[u],
        !bits0[w],
        fits_at(a2, results[kv].0 as int),
        out_arc(a2, none_blocked(), u, results[kv].0 as int, w1),
        out_arc(a2, none_blocked(), results[kv].0 as int, w, w2),
    ensures
        way_around(a2, u, w, w1 + w2),
{
    let v = results[kv].0 as int;
    let list = adj0[v];
    assert(!bits0[v]);
    // an edge at `v` for the dip's first arc, no heavier
    let i1 = choose|i: int|
        0 <= i < a2[u].len() && (#[trigger] a2[u][i]).dir && a2[u][i].target == v && a2[u][i].weight == w1
            && !none_blocked()(v);
    let ia0: int = if i1 < adj0[u].len() && a2[u][i1] == adj0[u][i1] {
        assert(out_arc(adj0, none_blocked(), u, v, w1));
        let w1p = choose|w1p: int| w1p <= w1 && #[trigger] in_arc(adj0, v, u, w1p);
        choose|ip: int| 0 <= ip < list.len() && !(#[trigger] list[ip]).dir && list[ip].target == u && list[ip].weight == w1p
    } else {
        let ij = lemma_own_copy(adj0, bits0, results, kv, u, a2[u][i1]);
        ij.0
    };
    assert(0 <= ia0 < list.len() && !list[ia0].dir && list[ia0].target == u && list[ia0].weight <= w1);
    // an edge at `v` for the dip's second arc, no heavier
    let j1 = choose|j: int|
        0 <= j < a2[v].len() && (#[trigger] a2[v][j]).dir && a2[v][j].target == w && a2[v][j].weight == w2
            && !none_blocked()(w);
    let ib0: int = if j1 < adj0[v].len() && a2[v][j1] == adj0[v][j1] {
        j1
    } else {
        let ij = lemma_own_copy(adj0, bits0, results, kv, v, a2[v][j1]);
        ij.1
    };
    assert(0 <= ib0 < list.len() && list[ib0].dir && list[ib0].target == w && list[ib0].weight <= w2);
    // the lightest edges of the two slots kept their weights
    let ia = lemma_slot_min(list, ia0);
    let ib = lemma_slot_min(list, ib0);
    assert(a2[v][ia].weight == list[ia].weight) by {
        if !(ia < adj0[v].len() && a2[v][ia] == adj0[v][ia]) {
            let ij = lemma_own_copy(adj0, bits0, results, kv, v, a2[v][ia]);
            assert(list[ij.0].target == u && !list[ij.0].dir);
        }
    }
    assert(a2[v][ib].weight == list[ib].weight) by {
        if !(ib < adj0[v].len() && a2[v][ib] == adj0[v][ib]) {
            let ij = lemma_own_copy(adj0, bits0, results, kv, v, a2[v][ib]);
            assert(list[ij.1].target == w && list[ij.1].dir);
        }
    }
    let a = list[ia];
    let b = list[ib];
    assert(a.weight + b.weight <= u64::MAX && a.weight + b.weight <= usize::MAX) by {
        assert(a2[v][ia].weight + a2[v][ib].weight <= u64::MAX);
    }
    assert(a.weight <= w1 && b.weight <= w2);
    if qualifies(adj0, bits0, a, b) {
        lemma_table_members(adj0, bits0, list, list);
        assert(results[kv].1 == node_shortcuts(adj0, bits0, v));
        assert(node_shortcuts(adj0, bits0, v) == shortcut_table(adj0, bits0, list, list));
        assert(shortcut_table(adj0, bits0, list, list).contains(make_shortcut(list[ia], list[ib])));
        let sc = make_shortcut(a, b);
        let k = choose|k: int| 0 <= k < results[kv].1.len() && results[kv].1[k] == sc;
        assert(has_edge_for(a2, results[kv].1[k]));
        let x = choose|x: int| x <= sc.weight && #[trigger] out_arc(a2, none_blocked(), sc.from as int, sc.to as int, x);
        assert(out_arc(a2, none_blocked(), u, w, x));
    } else {
        let bl = blocked_by(bits0);
        assert(in_arc(adj0, v, u, a.weight as int));
        let w0 = choose|w0: int| w0 <= a.weight && #[trigger] out_arc(adj0, none_blocked(), u, v, w0);
        let i0 = choose|i0: int|
            0 <= i0 < adj0[u].len() && (#[trigger] adj0[u][i0]).dir && adj0[u][i0].target == v && adj0[u][i0].weight == w0
                && !none_blocked()(v);
        assert(out_arc(adj0, bl, u, v, w0));
        assert(out_arc(adj0, bl, v, w, b.weight as int));
        lemma_trivial_walk(adj0, bl, u);
        lemma_extend_walk(adj0, bl, u, u, v, 0, w0);
        lemma_extend_walk(adj0, bl, u, v, w, w0, b.weight as int);
        lemma_distance_exists(adj0, bl, u, w, w0 + b.weight);
        let d0 = choose|d: int| d <= w0 + b.weight && #[trigger] is_distance(adj0, bl, u, w, d);
        if d0 >= a.weight + b.weight {
            assert(qualifies(adj0, bits0, a, b));
        }
        lemma_unblock(adj0, bl, u, w, d0);
        lemma_reach_grows(adj0, a2, u, w, d0);
        let d2 = choose|d2: int| d2 <= d0 && #[trigger] reaches_with(a2, none_blocked(), u, w, d2);
    }
}

/// A round of contraction keeps every dip at a contracted node bypassed,
/// whatever the weights of a paired graph, and bypasses those at the nodes
/// it contracts.
pub proof fn lemma_round_dips(
    adj0: Seq<Seq<Edge>>,
    nodes0: Seq<Node>,
    c0: i32,
    bits0: Seq<bool>,
    results: Seq<(usize, Seq<Shortcut>)>,
    level: u16,
)
    requires
        paired(adj0),
        targets_in_range(adj0),
        adj0.len() <= u64::MAX,
        bits0.len() >= adj0.len(),
        nodes0.len() == adj0.len(),
        results_apart(adj0, bits0, results),
        levels_kept(adj0, nodes0, bits0, level as int),
        dips_ok(adj0, nodes0, bits0),
    ensures
        ({
            let r = contraction_round(adj0, nodes0, c0, bits0, results, level);
            dips_ok(r.0, r.1, r.3)
        }),
{
    lemma_round_origin(adj0, nodes0, c0, bits0, results, level);
    crate::levels::lemma_round_slots(adj0, nodes0, c0, bits0, results, level);
    let r = contraction_round(adj0, nodes0, c0, bits0, results, level);
    let a2 = r.0;
    let keep = blocked_by(bits0);
    assert forall|v: int| 0 <= v < a2.len() && r.3[v] && fits_at(a2, v) implies #[trigger] dip_bypassed(a2, r.1, r.3, v) by {
        if bits0[v] {
            lemma_old_dips(adj0, nodes0, c0, bits0, results, level, v);
        } else {
            lemma_new_dips(adj0, nodes0, c0, bits0, results, level, v);
        }
    }
}

#[verifier::rlimit(80)]
#[verifier::spinoff_prover]
proof fn lemma_old_dips(
    adj0: Seq<Seq<Edge>>,
    nodes0: Seq<Node>,
    c0: i32,
    bits0: Seq<bool>,
    results: Seq<(usize, Seq<Shortcut>)>,
    level: u16,
    v: int,
)
    requires
        paired(adj0),
        targets_in_range(adj0),
        adj0.len() <= u64::MAX,
        bits0.len() >= adj0.len(),
        nodes0.len() == adj0.len(),
        results_apart(adj0, bits0, results),
        levels_kept(adj0, nodes0, bits0, level as int),
        dips_ok(adj0, nodes0, bits0),
        0 <= v < adj0.len(),
        bits0[v],
        fits_at(contraction_round(adj0, nodes0, c0, bits0, results, level).0, v),
    ensures
        ({
            let r = contraction_round(adj0, nodes0, c0, bits0, results, level);
            dip_bypassed(r.0, r.1, r.3, v)
        }),
{
    lemma_round_origin(adj0, nodes0, c0, bits0, results, level);
    crate::levels::lemma_round_slots(adj0, nodes0, c0, bits0, results, level);
    let r = contraction_round(adj0, nodes0, c0, bits0, results, level);
    let a2 = r.0;
    let keep = blocked_by(bits0);
    {
        {
            assert(a2[v] == adj0[v]);
            assert(fits_at(adj0, v));
            assert(dip_bypassed(adj0, nodes0, bits0, v));
            if planned(results, v) {
                let k = choose|k: int| 0 <= k < results.len() && #[trigger] results[k].0 == v;
            }
            assert forall|u: int, w: int, w1: int, w2: int|
                out_arc(a2, none_blocked(), u, v, w1) && out_arc(a2, none_blocked(), v, w, w2) && u != w && above(
                    r.1,
                    r.3,
                    v,
                    u,
                ) && above(r.1, r.3, v, w) implies way_around(a2, u, w, w1 + w2) by {
                let i = choose|i: int|
                    0 <= i < a2[u].len() && (#[trigger] a2[u][i]).dir && a2[u][i].target == v && a2[u][i].weight == w1
                        && !none_blocked()(v);
                assert(i < adj0[u].len() && a2[u][i] == adj0[u][i]);
                assert(out_arc(adj0, none_blocked(), u, v, w1));
                let j = choose|j: int|
                    0 <= j < a2[v].len() && (#[trigger] a2[v][j]).dir && a2[v][j].target == w && a2[v][j].weight == w2
                        && !none_blocked()(w);
                assert(adj0[v][j] == a2[v][j]);
                assert(out_arc(adj0, none_blocked(), v, w, w2));
                assert(adj0[u][i].target < adj0.len());
                assert(adj0[v][j].target < adj0.len());
                assert(above(nodes0, bits0, v, u)) by {
                    if planned(results, u) {
                        let k = choose|k: int| 0 <= k < results.len() && #[trigger] results[k].0 == u;
                    }
                }
                assert(above(nodes0, bits0, v, w)) by {
                    if planned(results, w) {
                        let k = choose|k: int| 0 <= k < results.len() && #[trigger] results[k].0 == w;
                    }
                }
                lemma_way_around_grows(adj0, a2, u, w, w1 + w2);
            }
        }
    }
}

proof fn lemma_new_dips(
    adj0: Seq<Seq<Edge>>,
    nodes0: Seq<Node>,
    c0: i32,
    bits0: Seq<bool>,
    results: Seq<(usize, Seq<Shortcut>)>,
    level: u16,
    v: int,
)
    requires
        paired(adj0),
        targets_in_range(adj0),
        adj0.len() <= u64::MAX,
        bits0.len() >= adj0.len(),
        nodes0.len() == adj0.len(),
        results_apart(adj0, bits0, results),
        levels_kept(adj0, nodes0, bits0, level as int),
        0 <= v < adj0.len(),
        !bits0[v],
        contraction_round(adj0, nodes0, c0, bits0, results, level).3[v],
        fits_at(contraction_round(adj0, nodes0, c0, bits0, results, level).0, v),
    ensures
        ({
            let r = contraction_round(adj0, nodes0, c0, bits0, results, level);
            dip_bypassed(r.0, r.1, r.3, v)
        }),
{
    lemma_round_origin(adj0, nodes0, c0, bits0, results, level);
    crate::levels::lemma_round_slots(adj0, nodes0, c0, bits0, results, level);
    let r = contraction_round(adj0, nodes0, c0, bits0, results, level);
    let a2 = r.0;
    {
        {
            assert(planned(results, v));
            let kv = choose|k: int| 0 <= k < results.len() && #[trigger] results[k].0 == v;
            assert forall|u: int, w: int, w1: int, w2: int|
                out_arc(a2, none_blocked(), u, v, w1) && out_arc(a2, none_blocked(), v, w, w2) && u != w && above(
                    r.1,
                    r.3,
                    v,
                    u,
                ) && above(r.1, r.3, v, w) implies way_around(a2, u, w, w1 + w2) by {
                let i = choose|i: int|
                    0 <= i < a2[u].len() && (#[trigger] a2[u][i]).dir && a2[u][i].target == v && a2[u][i].weight == w1
                        && !none_blocked()(v);
                let j = choose|j: int|
                    0 <= j < a2[v].len() && (#[trigger] a2[v][j]).dir && a2[v][j].target == w && a2[v][j].weight == w2
                        && !none_blocked()(w);
                assert(0 <= u < adj0.len());
                assert(0 <= w < adj0.len()) by {
                    if j < adj0[v].len() && a2[v][j] == adj0[v][j] {
                        assert(adj0[v][j].target < adj0.len());
                    } else {
                        let ij = lemma_own_copy(adj0, bits0, results, kv, v, a2[v][j]);
                        assert(adj0[v][ij.1].target < adj0.len());
                    }
                }
                assert(r.1[v].level == level);
                assert(!r.3[u]) by {
                    if r.3[u] {
                        if !planned(results, u) {
                            assert(bits0[u]);
                        }
                    }
                }
                assert(!r.3[w]) by {
                    if r.3[w] {
                        if !planned(results, w) {
                            assert(bits0[w]);
                        }
                    }
                }
                lemma_round_dip(adj0, a2, bits0, results, kv, u, w, w1, w2);
            }
        }
    }
}

/// Nothing is contracted yet: nothing to bypass.
pub proof fn lemma_dips_start(adj: Seq<Seq<Edge>>, nodes: Seq<Node>, bits: Seq<bool>)
    requires
        forall|i: int| 0 <= i < bits.len() ==> !#[trigger] bits[i],
        bits.len() >= adj.len(),
    ensures
        dips_ok(adj, nodes, bits),
{
}

/// Once every node is contracted, and wherever the edges at a node combine
/// without overflow, every dip can be bypassed.
pub proof fn lemma_dips_end(adj: Seq<Seq<Edge>>, nodes: Seq<Node>, bits: Seq<bool>)
    requires
        dips_ok(adj, nodes, bits),
        forall|x: int| 0 <= x < adj.len() ==> #[trigger] bits[x],
        forall|v: int| 0 <= v < adj.len() ==> #[trigger] fits_at(adj, v),
    ensures
        crate::hierarchy::bypassed(adj, nodes),
{
    assert forall|u: int, v: int, w: int, w1: int, w2: int|
        #![trigger out_arc(adj, none_blocked(), u, v, w1), out_arc(adj, none_blocked(), v, w, w2)]
        out_arc(adj, none_blocked(), u, v, w1) && out_arc(adj, none_blocked(), v, w, w2) && u != w
            && nodes[v].level < nodes[u].level && nodes[v].level < nodes[w].level implies (exists|w3: int|
            w3 <= w1 + w2 && #[trigger] out_arc(adj, none_blocked(), u, w, w3)) || (exists|d: int|
            d < w1 + w2 && #[trigger] reaches_with(adj, none_blocked(), u, w, d)) by {
        assert(bits[v]);
        assert(fits_at(adj, v));
        assert(dip_bypassed(adj, nodes, bits, v));
        assert(above(nodes, bits, v, u) && above(nodes, bits, v, w));
        assert(way_around(adj, u, w, w1 + w2));
    }
}

/// `e` has the target, the direction and the shortcut ids of `f`.
pub open spec fn same_ids(e: Edge, f: Edge) -> bool {
    e.target == f.target && e.dir == f.dir && e.edge_id_a == f.edge_id_a && e.edge_id_b == f.edge_id_b
}

/// `e`, stored at `y`, is a copy of the shortcut `sc` carrying its ids: the
/// forward copy at its start or the backward one at its end.
pub open spec fn carries(sc: Shortcut, y: int, e: Edge) -> bool {
    &&& e.edge_id_a == Some(sc.edge_id_a)
    &&& e.edge_id_b == Some(sc.edge_id_b)
    &&& (y == sc.from && e.dir && e.target == sc.to) || (y == sc.to && !e.dir && e.target == sc.from)
}

/// `e`, stored at `y`, is a copy of one of the shortcuts `scs` carrying its ids.
pub open spec fn carried_by(scs: Seq<Shortcut>, y: int, e: Edge) -> bool {
    exists|j: int| 0 <= j < scs.len() && #[trigger] carries(scs[j], y, e)
}

proof fn lemma_merge_ids(l: Seq<Edge>, e: Edge)
    ensures
        merge_edge(l, e).len() >= l.len(),
        forall|i: int| 0 <= i < l.len() ==> same_ids(#[trigger] merge_edge(l, e)[i], l[i]),
        forall|i: int| l.len() <= i < merge_edge(l, e).len() ==> #[trigger] merge_edge(l, e)[i] == e,
{
    lemma_first_slot(l, e);
}

/// Merging an edge and its backward copy keeps the target, the direction
/// and the ids of every stored edge, and appends only the two copies.
proof fn lemma_add_edge_ids(adj: Seq<Seq<Edge>>, u: int, e: Edge)
    requires
        0 <= u < adj.len(),
        0 <= e.target < adj.len(),
    ensures
        add_edge_spec(adj, u, e).len() == adj.len(),
        forall|x: int| 0 <= x < adj.len() ==> #[trigger] add_edge_spec(adj, u, e)[x].len() >= adj[x].len(),
        forall|x: int, i: int|
            0 <= x < adj.len() && 0 <= i < adj[x].len() ==> same_ids(#[trigger] add_edge_spec(adj, u, e)[x][i], adj[x][i]),
        forall|x: int, i: int|
            0 <= x < adj.len() && adj[x].len() <= i < add_edge_spec(adj, u, e)[x].len() ==> (x == u && same_ids(
                #[trigger] add_edge_spec(adj, u, e)[x][i],
                e,
            )) || (x == e.target && same_ids(add_edge_spec(adj, u, e)[x][i], e.reverse_spec(u as u64))),
{
    let t = e.target as int;
    let rev = e.reverse_spec(u as u64);
    let mid = adj.update(u, merge_edge(adj[u], e));
    let fin = add_edge_spec(adj, u, e);
    assert(fin == mid.update(t, merge_edge(mid[t], rev)));
    lemma_merge_ids(adj[u], e);
    lemma_merge_ids(mid[t], rev);
    assert forall|x: int| 0 <= x < adj.len() implies #[trigger] fin[x].len() >= adj[x].len() by {
        if x == t {
            assert(fin[x] == merge_edge(mid[t], rev));
        }
    }
    assert forall|x: int, i: int| 0 <= x < adj.len() && 0 <= i < adj[x].len() implies same_ids(#[trigger] fin[x][i], adj[x][i]) by {
        if x == t {
            assert(fin[x][i] == merge_edge(mid[t], rev)[i]);
            if x == u {
                assert(mid[x][i] == merge_edge(adj[u], e)[i]);
            }
        } else if x == u {
            assert(fin[x][i] == merge_edge(adj[u], e)[i]);
        }
    }
    assert forall|x: int, i: int| 0 <= x < adj.len() && adj[x].len() <= i < fin[x].len() implies (x == u && same_ids(
        #[trigger] fin[x][i],
        e,
    )) || (x == t && same_ids(fin[x][i], rev)) by {
        if x == t {
            assert(fin[x][i] == merge_edge(mid[t], rev)[i]);
            if i < mid[t].len() {
                if x == u {
                    assert(mid[x][i] == merge_edge(adj[u], e)[i]);
                }
            }
        } else if x == u {
            assert(fin[x][i] == merge_edge(adj[u], e)[i]);
        }
    }
}

/// Inserting shortcuts keeps the target, the direction and the ids of every
/// stored edge, and every edge it appends is a copy of one of them carrying
/// its ids.
proof fn lemma_insert_ids(adj: Seq<Seq<Edge>>, created: i32, scs: Seq<Shortcut>)
    requires
        forall|k: int| 0 <= k < scs.len() ==> (#[trigger] scs[k]).from < adj.len() && scs[k].to < adj.len(),
    ensures
        insert_shortcuts(adj, created, scs).0.len() == adj.len(),
        forall|x: int| 0 <= x < adj.len() ==> #[trigger] insert_shortcuts(adj, created, scs).0[x].len() >= adj[x].len(),
        forall|x: int, i: int|
            0 <= x < adj.len() && 0 <= i < adj[x].len() ==> same_ids(#[trigger] insert_shortcuts(adj, created, scs).0[x][i], adj[x][i]),
        forall|x: int, i: int|
            0 <= x < adj.len() && adj[x].len() <= i < insert_shortcuts(adj, created, scs).0[x].len() ==> #[trigger] carried_by(
                scs,
                x,
                insert_shortcuts(adj, created, scs).0[x][i],
            ),
    decreases scs.len(),
{
    let fin = insert_shortcuts(adj, created, scs).0;
    if scs.len() == 0 {
        assert(fin == adj);
    } else {
        let s0 = scs.drop_last();
        assert forall|k: int| 0 <= k < s0.len() implies (#[trigger] s0[k]).from < adj.len() && s0[k].to < adj.len() by {
            assert(s0[k] == scs[k]);
        }
        lemma_insert_ids(adj, created, s0);
        let prev = insert_shortcuts(adj, created, s0);
        let last = scs.len() - 1;
        let sc = scs.last();
        assert(sc == scs[last]);
        let id = crate::graph::wrapping_i32_succ(prev.1);
        let e = shortcut_edge(sc, id);
        assert(fin == add_edge_spec(prev.0, sc.from as int, e));
        lemma_add_edge_ids(prev.0, sc.from as int, e);
        lemma_merge_ids(prev.0[sc.from as int], e);
        assert forall|x: int| 0 <= x < adj.len() implies #[trigger] fin[x].len() >= adj[x].len() by {
            assert(fin[x].len() >= prev.0[x].len());
        }
        assert forall|x: int, i: int| 0 <= x < adj.len() && 0 <= i < adj[x].len() implies same_ids(#[trigger] fin[x][i], adj[x][i]) by {
            assert(same_ids(prev.0[x][i], adj[x][i]));
            assert(same_ids(fin[x][i], prev.0[x][i]));
        }
        assert forall|x: int, i: int| 0 <= x < adj.len() && adj[x].len() <= i < fin[x].len() implies #[trigger] carried_by(
            scs,
            x,
            fin[x][i],
        ) by {
            if i < prev.0[x].len() {
                assert(same_ids(fin[x][i], prev.0[x][i]));
                assert(carried_by(s0, x, prev.0[x][i]));
                let j = choose|j: int| 0 <= j < s0.len() && #[trigger] carries(s0[j], x, prev.0[x][i]);
                assert(s0[j] == scs[j]);
                assert(carries(scs[j], x, fin[x][i]));
            } else {
                assert(carries(scs[last], x, fin[x][i]));
            }
        }
    }
}

/// `e`, stored at `x`, is a copy of a shortcut through `v` that carries the
/// ids of the two edges it replaces: the backward edge at `v` for the road
/// edge from its start into `v`, and the forward edge from `v` to its end.
pub open spec fn stands_for(adj0: Seq<Seq<Edge>>, v: int, x: int, e: Edge) -> bool {
    exists|ia: int, ib: int|
        0 <= ia < adj0[v].len() && 0 <= ib < adj0[v].len() && {
            let a = #[trigger] adj0[v][ia];
            let b = #[trigger] adj0[v][ib];
            &&& !a.dir && b.dir
            &&& e.edge_id_a == Some(a.id as u64)
            &&& e.edge_id_b == Some(b.id as u64)
            &&& (x == a.target && e.dir && e.target == b.target) || (x == b.target && !e.dir && e.target == a.target)
        }
}

/// `e`, stored at `x`, stands for a shortcut through one of the nodes that
/// `results` contracts.
pub open spec fn shortcut_of_round(adj0: Seq<Seq<Edge>>, results: Seq<(usize, Seq<Shortcut>)>, x: int, e: Edge) -> bool {
    exists|k: int| 0 <= k < results.len() && #[trigger] stands_for(adj0, results[k].0 as int, x, e)
}

/// A round of contraction keeps the target, the direction and the shortcut
/// ids of every edge stored before it, and every edge it appends is a copy
/// of a shortcut through a node it contracts, carrying the ids of the two
/// edges at that node that the shortcut replaces, the incoming one first.
pub proof fn lemma_round_shortcut_ids(
    adj0: Seq<Seq<Edge>>,
    nodes0: Seq<Node>,
    c0: i32,
    bits0: Seq<bool>,
    results: Seq<(usize, Seq<Shortcut>)>,
    level: u16,
)
    requires
        targets_in_range(adj0),
        forall|k: int|
            0 <= k < results.len() ==> (#[trigger] results[k]).0 < adj0.len() && results[k].1 == node_shortcuts(
                adj0,
                bits0,
                results[k].0 as int,
            ),
    ensures
        ({
            let r = contraction_round(adj0, nodes0, c0, bits0, results, level);
            &&& r.0.len() == adj0.len()
            &&& forall|x: int| 0 <= x < adj0.len() ==> #[trigger] r.0[x].len() >= adj0[x].len()
            &&& forall|x: int, i: int| 0 <= x < adj0.len() && 0 <= i < adj0[x].len() ==> same_ids(#[trigger] r.0[x][i], adj0[x][i])
            &&& forall|x: int, i: int|
                0 <= x < adj0.len() && adj0[x].len() <= i < r.0[x].len() ==> #[trigger] shortcut_of_round(
                    adj0,
                    results,
                    x,
                    r.0[x][i],
                )
        }),
    decreases results.len(),
{
    let r = contraction_round(adj0, nodes0, c0, bits0, results, level);
    if results.len() > 0 {
        let r0 = results.drop_last();
        assert forall|k: int| 0 <= k < r0.len() implies (#[trigger] r0[k]).0 < adj0.len() && r0[k].1 == node_shortcuts(
            adj0,
            bits0,
            r0[k].0 as int,
        ) by {
            assert(r0[k] == results[k]);
        }
        lemma_round_shortcut_ids(adj0, nodes0, c0, bits0, r0, level);
        let prev = contraction_round(adj0, nodes0, c0, bits0, r0, level);
        let lastk = results.len() - 1;
        let last = results.last();
        assert(last == results[lastk]);
        let v = last.0 as int;
        let scs = last.1;
        let list = adj0[v];
        lemma_table_members(adj0, bits0, list, list);
        assert forall|k: int| 0 <= k < scs.len() implies (#[trigger] scs[k]).from < prev.0.len() && scs[k].to < prev.0.len() by {
            assert(from_pair(adj0, bits0, list, list, scs[k]));
            let ij = lemma_planned_pair(adj0, bits0, v, scs[k]);
        }
        lemma_insert_ids(prev.0, prev.2, scs);
        let ins = insert_shortcuts(prev.0, prev.2, scs);
        assert(r == (ins.0, with_level(prev.1, v, level), ins.1, prev.3.update(v, true)));
        assert forall|x: int| 0 <= x < adj0.len() implies #[trigger] r.0[x].len() >= adj0[x].len() by {
            assert(prev.0[x].len() >= adj0[x].len());
        }
        assert forall|x: int, i: int| 0 <= x < adj0.len() && 0 <= i < adj0[x].len() implies same_ids(#[trigger] r.0[x][i], adj0[x][i]) by {
            assert(same_ids(prev.0[x][i], adj0[x][i]));
        }
        assert forall|x: int, i: int| 0 <= x < adj0.len() && adj0[x].len() <= i < r.0[x].len() implies #[trigger] shortcut_of_round(
            adj0,
            results,
            x,
            r.0[x][i],
        ) by {
            if i < prev.0[x].len() {
                assert(same_ids(r.0[x][i], prev.0[x][i]));
                assert(shortcut_of_round(adj0, r0, x, prev.0[x][i]));
                let k = choose|k: int| 0 <= k < r0.len() && #[trigger] stands_for(adj0, r0[k].0 as int, x, prev.0[x][i]);
                assert(r0[k] == results[k]);
                let (ia, ib) = choose|ia: int, ib: int|
                    0 <= ia < adj0[r0[k].0 as int].len() && 0 <= ib < adj0[r0[k].0 as int].len() && {
                        let a = #[trigger] adj0[r0[k].0 as int][ia];
                        let b = #[trigger] adj0[r0[k].0 as int][ib];
                        &&& !a.dir && b.dir
                        &&& prev.0[x][i].edge_id_a == Some(a.id as u64)
                        &&& prev.0[x][i].edge_id_b == Some(b.id as u64)
                        &&& (x == a.target && prev.0[x][i].dir && prev.0[x][i].target == b.target) || (x == b.target
                            && !prev.0[x][i].dir && prev.0[x][i].target == a.target)
                    };
                assert(stands_for(adj0, results[k].0 as int, x, r.0[x][i]));
            } else {
                assert(carried_by(scs, x, r.0[x][i]));
                let j = choose|j: int| 0 <= j < scs.len() && #[trigger] carries(scs[j], x, r.0[x][i]);
                assert(from_pair(adj0, bits0, list, list, scs[j]));
                let ij = lemma_planned_pair(adj0, bits0, v, scs[j]);
                let a = adj0[v][ij.0];
                let b = adj0[v][ij.1];
                assert(scs[j] == make_shortcut(a, b));
                assert(stands_for(adj0, v, x, r.0[x][i]));
                assert(results[lastk].0 as int == v);
            }
        }
    } else {
        assert(r.0 == adj0);
    }
}

} // verus!
