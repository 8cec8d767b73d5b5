//! What contraction does to the stored edges: it keeps every edge (at most
//! lighter), adds only shortcuts between nodes not yet contracted, and
//! keeps every edge partnered at its other end.
use vstd::prelude::*;
use crate::graph::{add_edge_spec, first_slot, lemma_first_slot, lowered, merge_edge, same_slot, Edge};
use crate::graph::Node;
use crate::ch::{
    contraction_round, insert_shortcuts, make_shortcut, node_shortcuts, planned_shortcuts, qualifies,
    shortcut_edge, shortcut_row, shortcut_table, with_level, Shortcut,
};
use crate::paths::{
    in_arc, is_distance, is_walk, lemma_concat_walk, lemma_extend_walk, lemma_prefix_weight,
    lemma_trivial_walk, no_lighter_walk, none_blocked, out_arc, paired, reaches_with, targets_in_range,
    walk_between, weight_sum,
};
use crate::dijkstra::blocked_by;

verus! {

/// `a2` keeps every edge of `a1` in its place, with the same target and
/// direction and no greater weight, and may store more edges after them.
pub open spec fn grows(a1: Seq<Seq<Edge>>, a2: Seq<Seq<Edge>>) -> bool {
    &&& a2.len() == a1.len()
    &&& forall|x: int| 0 <= x < a1.len() ==> #[trigger] a2[x].len() >= a1[x].len()
    &&& forall|x: int, i: int|
        0 <= x < a1.len() && 0 <= i < a1[x].len() ==> (#[trigger] a2[x][i]).target == a1[x][i].target
            && a2[x][i].dir == a1[x][i].dir && a2[x][i].weight <= a1[x][i].weight
}

/// Every edge that `a2` stores at a node of `keep`, or that points to one,
/// is stored in `a1` in the same place.
pub open spec fn frozen(a1: Seq<Seq<Edge>>, a2: Seq<Seq<Edge>>, keep: spec_fn(int) -> bool) -> bool {
    &&& forall|x: int| 0 <= x < a1.len() && keep(x) ==> #[trigger] a2[x] == a1[x]
    &&& forall|x: int, i: int|
        0 <= x < a2.len() && 0 <= i < a2[x].len() && keep(a2[x][i].target as int) ==> i < a1[x].len()
            && #[trigger] a2[x][i] == a1[x][i]
}

/// Every edge of `a2` is stored in `a1` in the same place, or is a forward
/// edge from `u` to `w`, or a backward edge at `w` to `u`, of weight `x`.
pub open spec fn adds_only(a1: Seq<Seq<Edge>>, a2: Seq<Seq<Edge>>, u: int, w: int, x: int) -> bool {
    forall|y: int, i: int|
        0 <= y < a2.len() && 0 <= i < a2[y].len() ==> (i < a1[y].len() && #[trigger] a2[y][i] == a1[y][i]) || (
        y == u && a2[y][i].dir && a2[y][i].target == w && a2[y][i].weight == x) || (y == w && !a2[y][i].dir
            && a2[y][i].target == u && a2[y][i].weight == x)
}

proof fn lemma_merge_facts(l: Seq<Edge>, e: Edge)
    ensures
        merge_edge(l, e).len() >= l.len(),
        forall|i: int|
            0 <= i < l.len() ==> (#[trigger] merge_edge(l, e)[i]).target == l[i].target && merge_edge(l, e)[i].dir
                == l[i].dir && merge_edge(l, e)[i].weight <= l[i].weight,
        forall|i: int|
            0 <= i < merge_edge(l, e).len() ==> (i < l.len() && #[trigger] merge_edge(l, e)[i] == l[i]) || (
            same_slot(merge_edge(l, e)[i], e) && merge_edge(l, e)[i].weight == e.weight),
        exists|i: int|
            0 <= i < merge_edge(l, e).len() && same_slot(#[trigger] merge_edge(l, e)[i], e) && merge_edge(l, e)[i].weight
                <= e.weight,
{
    lemma_first_slot(l, e);
    let k = first_slot(l, e);
    let m = merge_edge(l, e);
    if k < l.len() {
        assert(m[k] == lowered(l[k], e.weight));
        assert(same_slot(m[k], e) && m[k].weight <= e.weight);
    } else {
        assert(m[l.len() as int] == e);
        assert(same_slot(m[l.len() as int], e) && m[l.len() as int].weight <= e.weight);
    }
}

/// Merging a forward edge from `u` and its backward copy: nothing is lost,
/// every edge is partnered as before, and only the merged slots change.
pub proof fn lemma_add_edge_arcs(adj: Seq<Seq<Edge>>, u: int, e: Edge, keep: spec_fn(int) -> bool)
    requires
        e.dir,
        0 <= u < adj.len(),
        u <= u64::MAX,
        0 <= e.target < adj.len(),
        !keep(u),
        !keep(e.target as int),
    ensures
        grows(adj, add_edge_spec(adj, u, e)),
        frozen(adj, add_edge_spec(adj, u, e), keep),
        adds_only(adj, add_edge_spec(adj, u, e), u, e.target as int, e.weight as int),
        exists|x: int| x <= e.weight && #[trigger] out_arc(add_edge_spec(adj, u, e), none_blocked(), u, e.target as int, x),
        exists|x: int| x <= e.weight && #[trigger] in_arc(add_edge_spec(adj, u, e), e.target as int, u, x),
{
    let w = e.target as int;
    let rev = e.reverse_spec(u as u64);
    assert(rev.target == u && !rev.dir && rev.weight == e.weight);
    let mid = adj.update(u, merge_edge(adj[u], e));
    let fin = mid.update(w, merge_edge(mid[w], rev));
    assert(fin == add_edge_spec(adj, u, e));
    lemma_merge_facts(adj[u], e);
    lemma_merge_facts(mid[w], rev);
    assert(grows(adj, fin)) by {
        assert forall|x: int, i: int| 0 <= x < adj.len() && 0 <= i < adj[x].len() implies (#[trigger] fin[x][i]).target
            == adj[x][i].target && fin[x][i].dir == adj[x][i].dir && fin[x][i].weight <= adj[x][i].weight by {
            if x == w {
                if x == u {
                    assert(mid[x][i].target == adj[x][i].target);
                }
                assert(fin[x][i] == merge_edge(mid[w], rev)[i]);
            } else if x == u {
                assert(fin[x][i] == merge_edge(adj[u], e)[i]);
            }
        }
    }
    assert(adds_only(adj, fin, u, w, e.weight as int)) by {
        assert forall|y: int, i: int| 0 <= y < fin.len() && 0 <= i < fin[y].len() implies (i < adj[y].len() && #[trigger] fin[y][i]
            == adj[y][i]) || (y == u && fin[y][i].dir && fin[y][i].target == w && fin[y][i].weight == e.weight) || (
        y == w && !fin[y][i].dir && fin[y][i].target == u && fin[y][i].weight == e.weight) by {
            if y == w {
                let m2 = merge_edge(mid[w], rev);
                assert(fin[y][i] == m2[i]);
                if i < mid[w].len() && m2[i] == mid[w][i] {
                    if y == u {
                        let m1 = merge_edge(adj[u], e);
                        assert(mid[w] == m1);
                    }
                }
            } else if y == u {
                assert(fin[y][i] == merge_edge(adj[u], e)[i]);
            }
        }
    }
    assert(frozen(adj, fin, keep)) by {
        assert forall|x: int, i: int|
            0 <= x < fin.len() && 0 <= i < fin[x].len() && keep(fin[x][i].target as int) implies i < adj[x].len()
                && #[trigger] fin[x][i] == adj[x][i] by {
            assert(adds_only(adj, fin, u, w, e.weight as int));
            assert((i < adj[x].len() && fin[x][i] == adj[x][i]) || (x == u && fin[x][i].dir && fin[x][i].target == w
                && fin[x][i].weight == e.weight) || (x == w && !fin[x][i].dir && fin[x][i].target == u
                && fin[x][i].weight == e.weight));
        }
    }
    let i1 = choose|i: int|
        0 <= i < merge_edge(adj[u], e).len() && same_slot(#[trigger] merge_edge(adj[u], e)[i], e) && merge_edge(
            adj[u],
            e,
        )[i].weight <= e.weight;
    let i2 = choose|i: int|
        0 <= i < merge_edge(mid[w], rev).len() && same_slot(#[trigger] merge_edge(mid[w], rev)[i], rev)
            && merge_edge(mid[w], rev)[i].weight <= rev.weight;
    // the new forward edge survives the merge of the backward copy
    if w == u {
        assert(fin[u][i1].target == merge_edge(adj[u], e)[i1].target);
        assert(fin[u][i1].dir == merge_edge(adj[u], e)[i1].dir);
        assert(fin[u][i1].weight <= merge_edge(adj[u], e)[i1].weight);
        assert(out_arc(fin, none_blocked(), u, w, fin[u][i1].weight as int));
    } else {
        assert(fin[u] == merge_edge(adj[u], e));
        assert(out_arc(fin, none_blocked(), u, w, fin[u][i1].weight as int));
    }
    assert(fin[w] == merge_edge(mid[w], rev));
    assert(in_arc(fin, w, u, fin[w][i2].weight as int));
}

/// Merging an edge and its backward copy into a paired graph leaves it paired.
pub proof fn lemma_add_edge_paired(adj: Seq<Seq<Edge>>, u: int, e: Edge)
    requires
        paired(adj),
        e.dir,
        0 <= u < adj.len(),
        u <= u64::MAX,
        0 <= e.target < adj.len(),
    ensures
        paired(add_edge_spec(adj, u, e)),
{
    let keep = |x: int| false;
    lemma_add_edge_arcs(adj, u, e, keep);
    let fin = add_edge_spec(adj, u, e);
    let w = e.target as int;
    let xo = choose|x: int| x <= e.weight && #[trigger] out_arc(fin, none_blocked(), u, w, x);
    let xi = choose|x: int| x <= e.weight && #[trigger] in_arc(fin, w, u, x);
    assert forall|a: int, b: int, c: int| #[trigger] out_arc(fin, none_blocked(), a, b, c) implies exists|c2: int|
        c2 <= c && #[trigger] in_arc(fin, b, a, c2) by {
        let i = choose|i: int|
            0 <= i < fin[a].len() && (#[trigger] fin[a][i]).dir && fin[a][i].target == b && fin[a][i].weight == c
                && !none_blocked()(b);
        if i < adj[a].len() && fin[a][i] == adj[a][i] {
            assert(out_arc(adj, none_blocked(), a, b, c));
            let c1 = choose|c2: int| c2 <= c && #[trigger] in_arc(adj, b, a, c2);
            let j = choose|j: int|
                0 <= j < adj[b].len() && !(#[trigger] adj[b][j]).dir && adj[b][j].target == a && adj[b][j].weight == c1;
            assert(fin[b][j].target == a && !fin[b][j].dir && fin[b][j].weight <= c1);
            assert(in_arc(fin, b, a, fin[b][j].weight as int));
        } else {
            assert(a == u && b == w && c == e.weight);
            assert(in_arc(fin, b, a, xi));
        }
    }
    assert forall|a: int, b: int, c: int| #[trigger] in_arc(fin, a, b, c) implies exists|c2: int|
        c2 <= c && #[trigger] out_arc(fin, none_blocked(), b, a, c2) by {
        let i = choose|i: int|
            0 <= i < fin[a].len() && !(#[trigger] fin[a][i]).dir && fin[a][i].target == b && fin[a][i].weight == c;
        if i < adj[a].len() && fin[a][i] == adj[a][i] {
            assert(in_arc(adj, a, b, c));
            let c1 = choose|c2: int| c2 <= c && #[trigger] out_arc(adj, none_blocked(), b, a, c2);
            let j = choose|j: int|
                0 <= j < adj[b].len() && (#[trigger] adj[b][j]).dir && adj[b][j].target == a && adj[b][j].weight == c1
                    && !none_blocked()(a);
            assert(fin[b][j].target == a && fin[b][j].dir && fin[b][j].weight <= c1);
            assert(out_arc(fin, none_blocked(), b, a, fin[b][j].weight as int));
        } else {
            assert(a == w && b == u && c == e.weight);
            assert(out_arc(fin, none_blocked(), b, a, xo));
        }
    }
}


/// Every stored edge weighs more than nothing.
pub open spec fn positive(adj: Seq<Seq<Edge>>) -> bool {
    forall|x: int, i: int| 0 <= x < adj.len() && 0 <= i < adj[x].len() ==> (#[trigger] adj[x][i]).weight > 0
}

/// No stored edge points back to the node that stores it.
pub open spec fn no_loops(adj: Seq<Seq<Edge>>) -> bool {
    forall|x: int, i: int| 0 <= x < adj.len() && 0 <= i < adj[x].len() ==> (#[trigger] adj[x][i]).target != x
}

/// An edge of `a2` persists in `a1` at no greater weight, or lighter.
pub proof fn lemma_arc_grows(a1: Seq<Seq<Edge>>, a2: Seq<Seq<Edge>>, x: int, y: int, w: int)
    requires
        grows(a1, a2),
        out_arc(a1, none_blocked(), x, y, w),
    ensures
        exists|w2: int| w2 <= w && #[trigger] out_arc(a2, none_blocked(), x, y, w2),
{
    let i = choose|i: int|
        0 <= i < a1[x].len() && (#[trigger] a1[x][i]).dir && a1[x][i].target == y && a1[x][i].weight == w
            && !none_blocked()(y);
    assert(a2[x][i].target == y && a2[x][i].dir && a2[x][i].weight <= w);
    assert(out_arc(a2, none_blocked(), x, y, a2[x][i].weight as int));
}

/// A walk of `a1` is walked in a graph that grew from it, at no greater weight.
pub proof fn lemma_walk_grows(a1: Seq<Seq<Edge>>, a2: Seq<Seq<Edge>>, p: Seq<int>, ws: Seq<int>)
    requires
        grows(a1, a2),
        is_walk(a1, none_blocked(), p, ws),
    ensures
        exists|d: int| d <= weight_sum(ws) && #[trigger] reaches_with(a2, none_blocked(), p[0], p.last(), d),
    decreases ws.len(),
{
    if ws.len() == 0 {
        lemma_trivial_walk(a2, none_blocked(), p[0]);
        assert(reaches_with(a2, none_blocked(), p[0], p.last(), 0));
    } else {
        let k = ws.len() - 1;
        let p0 = p.drop_last();
        let ws0 = ws.drop_last();
        assert forall|j: int| 0 <= j < ws0.len() implies #[trigger] out_arc(a1, none_blocked(), p0[j], p0[j + 1], ws0[j]) by {
            assert(out_arc(a1, none_blocked(), p[j], p[j + 1], ws[j]));
        }
        lemma_walk_grows(a1, a2, p0, ws0);
        let d0 = choose|d: int| d <= weight_sum(ws0) && #[trigger] reaches_with(a2, none_blocked(), p0[0], p0.last(), d);
        assert(out_arc(a1, none_blocked(), p[k], p[k + 1], ws[k]));
        lemma_arc_grows(a1, a2, p[k], p[k + 1], ws[k]);
        let w2 = choose|w2: int| w2 <= ws[k] && #[trigger] out_arc(a2, none_blocked(), p[k], p[k + 1], w2);
        assert(p0.last() == p[k]);
        lemma_extend_walk(a2, none_blocked(), p[0], p[k], p[k + 1], d0, w2);
        assert(p.last() == p[k + 1]);
    }
}

/// Some walk of `a1` from `x` to `y` weighs `d`: then some walk of a graph
/// that grew from `a1` weighs no more.
pub proof fn lemma_reach_grows(a1: Seq<Seq<Edge>>, a2: Seq<Seq<Edge>>, x: int, y: int, d: int)
    requires
        grows(a1, a2),
        reaches_with(a1, none_blocked(), x, y, d),
    ensures
        exists|d2: int| d2 <= d && #[trigger] reaches_with(a2, none_blocked(), x, y, d2),
{
    let (p, ws) = choose|p: Seq<int>, ws: Seq<int>|
        #[trigger] walk_between(a1, none_blocked(), x, y, p, ws) && weight_sum(ws) == d;
    lemma_walk_grows(a1, a2, p, ws);
}

pub proof fn lemma_grows_trans(a1: Seq<Seq<Edge>>, a2: Seq<Seq<Edge>>, a3: Seq<Seq<Edge>>)
    requires
        grows(a1, a2),
        grows(a2, a3),
    ensures
        grows(a1, a3),
{
    assert forall|x: int, i: int| 0 <= x < a1.len() && 0 <= i < a1[x].len() implies (#[trigger] a3[x][i]).target
        == a1[x][i].target && a3[x][i].dir == a1[x][i].dir && a3[x][i].weight <= a1[x][i].weight by {
        assert(a2[x][i].target == a1[x][i].target);
        assert(a2[x].len() >= a1[x].len());
    }
    assert forall|x: int| 0 <= x < a1.len() implies #[trigger] a3[x].len() >= a1[x].len() by {
        assert(a2[x].len() >= a1[x].len());
    }
}

pub proof fn lemma_frozen_trans(a1: Seq<Seq<Edge>>, a2: Seq<Seq<Edge>>, a3: Seq<Seq<Edge>>, keep: spec_fn(int) -> bool)
    requires
        grows(a1, a2),
        grows(a2, a3),
        frozen(a1, a2, keep),
        frozen(a2, a3, keep),
    ensures
        frozen(a1, a3, keep),
{
    assert forall|x: int, i: int|
        0 <= x < a3.len() && 0 <= i < a3[x].len() && keep(a3[x][i].target as int) implies i < a1[x].len()
            && #[trigger] a3[x][i] == a1[x][i] by {
        assert(i < a2[x].len() && a3[x][i] == a2[x][i]);
        assert(a2[x][i] == a1[x][i]);
    }
    assert forall|x: int| 0 <= x < a1.len() && keep(x) implies #[trigger] a3[x] == a1[x] by {
        assert(a2[x] == a1[x]);
    }
}


/// `sc` combines a backward edge of `ins` with a forward edge of `list`.
pub open spec fn from_pair(adj: Seq<Seq<Edge>>, bl: Seq<bool>, ins: Seq<Edge>, list: Seq<Edge>, sc: Shortcut) -> bool {
    exists|i: int, j: int| 0 <= i < ins.len() && 0 <= j < list.len() && #[trigger] combines(adj, bl, ins[i], list[j], sc)
}

/// `sc` combines the backward edge `a` with the forward edge `b` into a
/// node not contracted, as contraction does when they qualify.
pub open spec fn combines(adj: Seq<Seq<Edge>>, bl: Seq<bool>, a: Edge, b: Edge, sc: Shortcut) -> bool {
    &&& !a.dir
    &&& !bl[a.target as int]
    &&& b.dir
    &&& !bl[b.target as int]
    &&& qualifies(adj, bl, a, b)
    &&& sc == make_shortcut(a, b)
}

proof fn lemma_row_members(adj: Seq<Seq<Edge>>, bl: Seq<bool>, a: Edge, list: Seq<Edge>)
    requires
        !a.dir,
        !bl[a.target as int],
    ensures
        forall|k: int|
            0 <= k < shortcut_row(adj, bl, a, list).len() ==> exists|j: int|
                0 <= j < list.len() && combines(adj, bl, a, #[trigger] list[j], #[trigger] shortcut_row(adj, bl, a, list)[k]),
        forall|j: int|
            0 <= j < list.len() && (#[trigger] list[j]).dir && !bl[list[j].target as int] && qualifies(adj, bl, a, list[j])
                ==> shortcut_row(adj, bl, a, list).contains(make_shortcut(a, list[j])),
    decreases list.len(),
{
    if list.len() > 0 {
        let l0 = list.drop_last();
        lemma_row_members(adj, bl, a, l0);
        let prev = shortcut_row(adj, bl, a, l0);
        let row = shortcut_row(adj, bl, a, list);
        let b = list.last();
        assert(b == list[list.len() - 1]);
        assert forall|k: int| 0 <= k < row.len() implies exists|j: int|
            0 <= j < list.len() && combines(adj, bl, a, #[trigger] list[j], #[trigger] row[k]) by {
            if k < prev.len() {
                assert(row[k] == prev[k]);
                let j = choose|j: int| 0 <= j < l0.len() && combines(adj, bl, a, #[trigger] l0[j], prev[k]);
                assert(l0[j] == list[j]);
            } else {
                assert(row[k] == make_shortcut(a, b));
                assert(combines(adj, bl, a, list[list.len() - 1], row[k]));
            }
        }
        assert forall|j: int|
            0 <= j < list.len() && (#[trigger] list[j]).dir && !bl[list[j].target as int] && qualifies(adj, bl, a, list[j])
                implies row.contains(make_shortcut(a, list[j])) by {
            if j < l0.len() {
                assert(l0[j] == list[j]);
                let k = choose|k: int| 0 <= k < prev.len() && prev[k] == make_shortcut(a, l0[j]);
                assert(row[k] == prev[k]);
            } else {
                assert(row[prev.len() as int] == make_shortcut(a, b));
            }
        }
    }
}

/// The shortcuts of a table are exactly the qualifying combinations of a
/// backward edge of `ins` and a forward edge of `list`.
pub proof fn lemma_table_members(adj: Seq<Seq<Edge>>, bl: Seq<bool>, ins: Seq<Edge>, list: Seq<Edge>)
    ensures
        forall|k: int|
            0 <= k < shortcut_table(adj, bl, ins, list).len() ==> from_pair(adj, bl, ins, list, #[trigger] shortcut_table(adj, bl, ins, list)[k]),
        forall|i: int, j: int|
            0 <= i < ins.len() && 0 <= j < list.len() && !ins[i].dir && !bl[ins[i].target as int] && list[j].dir
                && !bl[list[j].target as int] && qualifies(adj, bl, ins[i], list[j]) ==> #[trigger] shortcut_table(
                adj,
                bl,
                ins,
                list,
            ).contains(#[trigger] make_shortcut(ins[i], list[j])),
    decreases ins.len(),
{
    if ins.len() > 0 {
        let i0 = ins.drop_last();
        lemma_table_members(adj, bl, i0, list);
        let prev = shortcut_table(adj, bl, i0, list);
        let tab = shortcut_table(adj, bl, ins, list);
        let a = ins.last();
        assert(a == ins[ins.len() - 1]);
        let live = !a.dir && !bl[a.target as int];
        if live {
            lemma_row_members(adj, bl, a, list);
        }
        let row = if live { shortcut_row(adj, bl, a, list) } else { Seq::<Shortcut>::empty() };
        assert(tab == prev + row);
        assert forall|k: int| 0 <= k < tab.len() implies from_pair(adj, bl, ins, list, #[trigger] tab[k]) by {
            if k < prev.len() {
                assert(tab[k] == prev[k]);
                assert(from_pair(adj, bl, i0, list, prev[k]));
                let (i, j) = choose|i: int, j: int|
                    0 <= i < i0.len() && 0 <= j < list.len() && #[trigger] combines(adj, bl, i0[i], list[j], prev[k]);
                assert(i0[i] == ins[i]);
                assert(combines(adj, bl, ins[i], list[j], tab[k]));
            } else {
                assert(live);
                let kk = k - prev.len();
                assert(tab[k] == row[kk]);
                assert(row[kk] == shortcut_row(adj, bl, a, list)[kk]);
                let j = choose|j: int|
                    0 <= j < list.len() && combines(adj, bl, a, #[trigger] list[j], #[trigger] shortcut_row(adj, bl, a, list)[kk]);
                let i = ins.len() - 1;
                assert(ins[i] == a);
                assert(combines(adj, bl, ins[i], list[j], tab[k]));
            }
        }
        assert forall|i: int, j: int|
            0 <= i < ins.len() && 0 <= j < list.len() && !ins[i].dir && !bl[ins[i].target as int] && list[j].dir
                && !bl[list[j].target as int] && qualifies(adj, bl, ins[i], list[j]) implies #[trigger] tab.contains(
            #[trigger] make_shortcut(ins[i], list[j])) by {
            if i < i0.len() {
                assert(i0[i] == ins[i]);
                assert(prev.contains(make_shortcut(i0[i], list[j])));
                let k = choose|k: int| 0 <= k < prev.len() && prev[k] == make_shortcut(i0[i], list[j]);
                assert(tab[k] == prev[k]);
            } else {
                assert(row.contains(make_shortcut(a, list[j])));
                let k = choose|k: int| 0 <= k < row.len() && row[k] == make_shortcut(a, list[j]);
                assert(tab[prev.len() + k] == row[k]);
            }
        }
    } else {
        assert(shortcut_table(adj, bl, ins, list) =~= Seq::<Shortcut>::empty());
        assert(shortcut_table(adj, bl, ins, list).len() == 0);
    }
}


/// Every shortcut planned at `v` stands for the two edges it replaces: a
/// backward edge stored at `v`, for the road edge from the shortcut's start
/// into `v`, and a forward edge from `v` to the shortcut's end, both to
/// nodes not contracted. The shortcut weighs the two together and carries
/// their ids: the incoming edge's first, the outgoing edge's second.
pub proof fn lemma_shortcut_ids(adj: Seq<Seq<Edge>>, bl: Seq<bool>, v: int, k: int)
    requires
        0 <= v < adj.len(),
        0 <= k < node_shortcuts(adj, bl, v).len(),
    ensures
        exists|i: int, j: int|
            0 <= i < adj[v].len() && 0 <= j < adj[v].len() && {
                let a = #[trigger] adj[v][i];
                let b = #[trigger] adj[v][j];
                let sc = node_shortcuts(adj, bl, v)[k];
                &&& !a.dir && b.dir
                &&& !bl[a.target as int] && !bl[b.target as int]
                &&& sc.from == a.target && sc.to == b.target
                &&& sc.weight == a.weight + b.weight
                &&& sc.edge_id_a == a.id as u64
                &&& sc.edge_id_b == b.id as u64
            },
{
    let list = adj[v];
    lemma_table_members(adj, bl, list, list);
    let sc = node_shortcuts(adj, bl, v)[k];
    assert(from_pair(adj, bl, list, list, sc));
    let (i, j) = choose|i: int, j: int| 0 <= i < list.len() && 0 <= j < list.len() && #[trigger] combines(adj, bl, list[i], list[j], sc);
    assert(adj[v][i] == list[i] && adj[v][j] == list[j]);
}

/// `adj` has a forward edge for the shortcut `sc`, no heavier than it.
pub open spec fn has_edge_for(adj: Seq<Seq<Edge>>, sc: Shortcut) -> bool {
    exists|x: int| x <= sc.weight && #[trigger] out_arc(adj, none_blocked(), sc.from as int, sc.to as int, x)
}

/// Every forward edge of `adj` is no lighter than some walk of `g0` between its ends.
pub open spec fn dominated(adj: Seq<Seq<Edge>>, g0: Seq<Seq<Edge>>) -> bool {
    forall|x: int, y: int, w: int| #[trigger]
        out_arc(adj, none_blocked(), x, y, w) ==> exists|w2: int| w2 <= w && #[trigger] reaches_with(g0, none_blocked(), x, y, w2)
}

/// Merging a shortcut edge keeps the graph paired, positive, free of
/// loops, and dominated by `g0`, when the shortcut itself is.
#[verifier::rlimit(80)]
proof fn lemma_add_edge_keeps(adj: Seq<Seq<Edge>>, g0: Seq<Seq<Edge>>, u: int, e: Edge, keep: spec_fn(int) -> bool)
    requires
        e.dir,
        0 <= u < adj.len(),
        u <= u64::MAX,
        0 <= e.target < adj.len(),
        u != e.target,
        e.weight > 0,
        !keep(u),
        !keep(e.target as int),
        exists|w2: int| w2 <= e.weight && #[trigger] reaches_with(g0, none_blocked(), u, e.target as int, w2),
    ensures
        grows(adj, add_edge_spec(adj, u, e)),
        frozen(adj, add_edge_spec(adj, u, e), keep),
        exists|x: int| x <= e.weight && #[trigger] out_arc(add_edge_spec(adj, u, e), none_blocked(), u, e.target as int, x),
        paired(adj) ==> paired(add_edge_spec(adj, u, e)),
        positive(adj) ==> positive(add_edge_spec(adj, u, e)),
        no_loops(adj) ==> no_loops(add_edge_spec(adj, u, e)),
        dominated(adj, g0) ==> dominated(add_edge_spec(adj, u, e), g0),
{
    lemma_add_edge_arcs(adj, u, e, keep);
    let fin = add_edge_spec(adj, u, e);
    let w = e.target as int;
    if paired(adj) {
        lemma_add_edge_paired(adj, u, e);
    }
    if positive(adj) {
        assert forall|x: int, i: int| 0 <= x < fin.len() && 0 <= i < fin[x].len() implies (#[trigger] fin[x][i]).weight > 0 by {
            if i < adj[x].len() && fin[x][i] == adj[x][i] {
            }
        }
    }
    if no_loops(adj) {
        assert forall|x: int, i: int| 0 <= x < fin.len() && 0 <= i < fin[x].len() implies (#[trigger] fin[x][i]).target != x by {
            if i < adj[x].len() && fin[x][i] == adj[x][i] {
            }
        }
    }
    if dominated(adj, g0) {
        assert forall|x: int, y: int, c: int| #[trigger] out_arc(fin, none_blocked(), x, y, c) implies exists|w2: int|
            w2 <= c && #[trigger] reaches_with(g0, none_blocked(), x, y, w2) by {
            let i = choose|i: int|
                0 <= i < fin[x].len() && (#[trigger] fin[x][i]).dir && fin[x][i].target == y && fin[x][i].weight == c
                    && !none_blocked()(y);
            if i < adj[x].len() && fin[x][i] == adj[x][i] {
                assert(out_arc(adj, none_blocked(), x, y, c));
            } else {
                assert(x == u && y == w && c == e.weight);
            }
        }
    }
}

/// Inserting a list of shortcuts, each between nodes outside `keep`: the
/// graph only grows, edges touching `keep` stay, each shortcut leaves an
/// edge no heavier than itself, and the graph stays paired, positive, free
/// of loops and dominated by `g0`.
pub proof fn lemma_insert_keeps(
    adj: Seq<Seq<Edge>>,
    g0: Seq<Seq<Edge>>,
    created: i32,
    scs: Seq<Shortcut>,
    keep: spec_fn(int) -> bool,
)
    requires
        forall|k: int|
            0 <= k < scs.len() ==> (#[trigger] scs[k]).from < adj.len() && scs[k].to < adj.len() && scs[k].from
                != scs[k].to && scs[k].weight > 0 && !keep(scs[k].from as int) && !keep(scs[k].to as int)
                && exists|w2: int| w2 <= scs[k].weight && #[trigger] reaches_with(g0, none_blocked(), scs[k].from as int, scs[k].to as int, w2),
    ensures
        grows(adj, insert_shortcuts(adj, created, scs).0),
        frozen(adj, insert_shortcuts(adj, created, scs).0, keep),
        forall|k: int| 0 <= k < scs.len() ==> has_edge_for(insert_shortcuts(adj, created, scs).0, #[trigger] scs[k]),
        paired(adj) ==> paired(insert_shortcuts(adj, created, scs).0),
        positive(adj) ==> positive(insert_shortcuts(adj, created, scs).0),
        no_loops(adj) ==> no_loops(insert_shortcuts(adj, created, scs).0),
        dominated(adj, g0) ==> dominated(insert_shortcuts(adj, created, scs).0, g0),
    decreases scs.len(),
{
    if scs.len() == 0 {
        assert(grows(adj, adj));
        assert(frozen(adj, adj, keep));
    } else {
        let s0 = scs.drop_last();
        assert forall|k: int| 0 <= k < s0.len() implies (#[trigger] s0[k]).from < adj.len() && s0[k].to < adj.len() && s0[k].from
            != s0[k].to && s0[k].weight > 0 && !keep(s0[k].from as int) && !keep(s0[k].to as int)
            && exists|w2: int| w2 <= s0[k].weight && #[trigger] reaches_with(g0, none_blocked(), s0[k].from as int, s0[k].to as int, w2) by {
            assert(s0[k] == scs[k]);
        }
        lemma_insert_keeps(adj, g0, created, s0, keep);
        let prev = insert_shortcuts(adj, created, s0);
        let sc = scs.last();
        assert(sc == scs[scs.len() - 1]);
        let id = crate::graph::wrapping_i32_succ(prev.1);
        let e = shortcut_edge(sc, id);
        let fin = insert_shortcuts(adj, created, scs);
        assert(fin.0 == add_edge_spec(prev.0, sc.from as int, e));
        lemma_add_edge_keeps(prev.0, g0, sc.from as int, e, keep);
        lemma_grows_trans(adj, prev.0, fin.0);
        lemma_frozen_trans(adj, prev.0, fin.0, keep);
        assert forall|k: int| 0 <= k < scs.len() implies has_edge_for(fin.0, #[trigger] scs[k]) by {
            if k < s0.len() {
                assert(s0[k] == scs[k]);
                assert(has_edge_for(prev.0, s0[k]));
                let x = choose|x: int| x <= s0[k].weight && #[trigger] out_arc(prev.0, none_blocked(), s0[k].from as int, s0[k].to as int, x);
                lemma_arc_grows(prev.0, fin.0, s0[k].from as int, s0[k].to as int, x);
            }
        }
    }
}


/// Merging an edge that some walk of `g0` undercuts keeps the graph paired
/// and dominated by `g0`, and only grows it.
proof fn lemma_add_edge_weak(adj: Seq<Seq<Edge>>, g0: Seq<Seq<Edge>>, u: int, e: Edge)
    requires
        e.dir,
        0 <= u < adj.len(),
        u <= u64::MAX,
        0 <= e.target < adj.len(),
    ensures
        grows(adj, add_edge_spec(adj, u, e)),
        paired(adj) ==> paired(add_edge_spec(adj, u, e)),
        dominated(adj, g0) && (exists|w2: int| w2 <= e.weight && #[trigger] reaches_with(g0, none_blocked(), u, e.target as int, w2))
            ==> dominated(add_edge_spec(adj, u, e), g0),
{
    let keep = |x: int| false;
    lemma_add_edge_arcs(adj, u, e, keep);
    let fin = add_edge_spec(adj, u, e);
    let w = e.target as int;
    if paired(adj) {
        lemma_add_edge_paired(adj, u, e);
    }
    if dominated(adj, g0) && (exists|w2: int| w2 <= e.weight && #[trigger] reaches_with(g0, none_blocked(), u, e.target as int, w2)) {
        assert forall|x: int, y: int, c: int| #[trigger] out_arc(fin, none_blocked(), x, y, c) implies exists|w2: int|
            w2 <= c && #[trigger] reaches_with(g0, none_blocked(), x, y, w2) by {
            let i = choose|i: int|
                0 <= i < fin[x].len() && (#[trigger] fin[x][i]).dir && fin[x][i].target == y && fin[x][i].weight == c
                    && !none_blocked()(y);
            if i < adj[x].len() && fin[x][i] == adj[x][i] {
                assert(out_arc(adj, none_blocked(), x, y, c));
            } else {
                assert(x == u && y == w && c == e.weight);
            }
        }
    }
}

/// Some walk of `g0` between the ends of `sc` is no heavier than it.
pub open spec fn undercut(g0: Seq<Seq<Edge>>, sc: Shortcut) -> bool {
    exists|w2: int| w2 <= sc.weight && #[trigger] reaches_with(g0, none_blocked(), sc.from as int, sc.to as int, w2)
}

/// Inserting shortcuts that walks of `g0` undercut keeps the graph paired
/// and dominated by `g0`, and only grows it.
proof fn lemma_insert_weak(adj: Seq<Seq<Edge>>, g0: Seq<Seq<Edge>>, created: i32, scs: Seq<Shortcut>)
    requires
        forall|k: int| 0 <= k < scs.len() ==> (#[trigger] scs[k]).from < adj.len() && scs[k].to < adj.len(),
    ensures
        grows(adj, insert_shortcuts(adj, created, scs).0),
        paired(adj) ==> paired(insert_shortcuts(adj, created, scs).0),
        dominated(adj, g0) && (forall|k: int| 0 <= k < scs.len() ==> undercut(g0, #[trigger] scs[k]))
            ==> dominated(insert_shortcuts(adj, created, scs).0, g0),
    decreases scs.len(),
{
    if scs.len() == 0 {
        assert(grows(adj, adj));
    } else {
        let s0 = scs.drop_last();
        assert forall|k: int| 0 <= k < s0.len() implies (#[trigger] s0[k]).from < adj.len() && s0[k].to < adj.len() by {
            assert(s0[k] == scs[k]);
        }
        if forall|k: int| 0 <= k < scs.len() ==> undercut(g0, #[trigger] scs[k]) {
            assert forall|k: int| 0 <= k < s0.len() implies undercut(g0, #[trigger] s0[k]) by {
                assert(s0[k] == scs[k]);
            }
        }
        lemma_insert_weak(adj, g0, created, s0);
        let prev = insert_shortcuts(adj, created, s0);
        let sc = scs.last();
        assert(sc == scs[scs.len() - 1]);
        let id = crate::graph::wrapping_i32_succ(prev.1);
        let e = shortcut_edge(sc, id);
        let fin = insert_shortcuts(adj, created, scs);
        assert(fin.0 == add_edge_spec(prev.0, sc.from as int, e));
        lemma_add_edge_weak(prev.0, g0, sc.from as int, e);
        lemma_grows_trans(adj, prev.0, fin.0);
        if dominated(adj, g0) && (forall|k: int| 0 <= k < scs.len() ==> undercut(g0, #[trigger] scs[k])) {
            assert(dominated(prev.0, g0));
            let k = scs.len() - 1;
            assert(undercut(g0, scs[k]));
            let w2 = choose|w2: int| w2 <= scs[k].weight && #[trigger] reaches_with(g0, none_blocked(), scs[k].from as int, scs[k].to as int, w2);
            assert(reaches_with(g0, none_blocked(), sc.from as int, e.target as int, w2));
        }
    }
}

/// A shortcut planned at `v` joins two nodes, and some walk of `g0` between
/// them is no heavier.
proof fn lemma_shortcut_walk(adj0: Seq<Seq<Edge>>, g0: Seq<Seq<Edge>>, bits0: Seq<bool>, v: int, sc: Shortcut)
    requires
        targets_in_range(adj0),
        paired(adj0),
        dominated(adj0, g0),
        0 <= v < adj0.len(),
        from_pair(adj0, bits0, adj0[v], adj0[v], sc),
    ensures
        sc.from < adj0.len() && sc.to < adj0.len(),
        exists|w2: int| w2 <= sc.weight && #[trigger] reaches_with(g0, none_blocked(), sc.from as int, sc.to as int, w2),
{
    let list = adj0[v];
    let (i, j) = choose|i: int, j: int| 0 <= i < list.len() && 0 <= j < list.len() && #[trigger] combines(adj0, bits0, list[i], list[j], sc);
    let a = list[i];
    let b = list[j];
    let u = a.target as int;
    let w = b.target as int;
    assert(adj0[v][i].target < adj0.len());
    assert(adj0[v][j].target < adj0.len());
    assert(sc.weight == a.weight + b.weight);
    assert(sc.from as int == u && sc.to as int == w);
    assert(in_arc(adj0, v, u, a.weight as int));
    let w0 = choose|w0: int| w0 <= a.weight && #[trigger] out_arc(adj0, none_blocked(), u, v, w0);
    let g1 = choose|g1: int| g1 <= w0 && #[trigger] reaches_with(g0, none_blocked(), u, v, g1);
    assert(out_arc(adj0, none_blocked(), v, w, b.weight as int));
    let g2 = choose|g2: int| g2 <= b.weight && #[trigger] reaches_with(g0, none_blocked(), v, w, g2);
    lemma_concat_walk(g0, none_blocked(), u, v, w, g1, g2);
}

proof fn lemma_shortcut_ends(adj0: Seq<Seq<Edge>>, bits0: Seq<bool>, v: int, sc: Shortcut)
    requires
        targets_in_range(adj0),
        0 <= v < adj0.len(),
        from_pair(adj0, bits0, adj0[v], adj0[v], sc),
    ensures
        sc.from < adj0.len() && sc.to < adj0.len(),
{
    let list = adj0[v];
    let (i, j) = choose|i: int, j: int| 0 <= i < list.len() && 0 <= j < list.len() && #[trigger] combines(adj0, bits0, list[i], list[j], sc);
    assert(adj0[v][i].target < adj0.len());
    assert(adj0[v][j].target < adj0.len());
}

/// A round of contraction only grows the graph; on a paired graph it keeps
/// it paired and, whatever the weights, dominated by `g0` where it was.
pub proof fn lemma_round_weak(
    adj0: Seq<Seq<Edge>>,
    g0: Seq<Seq<Edge>>,
    nodes0: Seq<Node>,
    c0: i32,
    bits0: Seq<bool>,
    results: Seq<(usize, Seq<Shortcut>)>,
    level: u16,
)
    requires
        targets_in_range(adj0),
        forall|k: int|
            0 <= k < results.len() ==> (#[trigger] results[k]).0 < adj0.len() && results[k].1 == node_shortcuts(
                adj0,
                bits0,
                results[k].0 as int,
            ),
    ensures
        ({
            let r = contraction_round(adj0, nodes0, c0, bits0, results, level);
            &&& grows(adj0, r.0)
            &&& paired(adj0) ==> paired(r.0)
            &&& paired(adj0) && dominated(adj0, g0) ==> dominated(r.0, g0)
        }),
    decreases results.len(),
{
    if results.len() == 0 {
        assert(grows(adj0, adj0));
    } else {
        let r0 = results.drop_last();
        assert forall|k: int| 0 <= k < r0.len() implies (#[trigger] r0[k]).0 < adj0.len() && r0[k].1 == node_shortcuts(
            adj0,
            bits0,
            r0[k].0 as int,
        ) by {
            assert(r0[k] == results[k]);
        }
        lemma_round_weak(adj0, g0, nodes0, c0, bits0, r0, level);
        let prev = contraction_round(adj0, nodes0, c0, bits0, r0, level);
        let last = results.last();
        assert(last == results[results.len() - 1]);
        let v = last.0 as int;
        let scs = last.1;
        let list = adj0[v];
        lemma_table_members(adj0, bits0, list, list);
        assert forall|k: int| 0 <= k < scs.len() implies (#[trigger] scs[k]).from < prev.0.len() && scs[k].to < prev.0.len() by {
            assert(from_pair(adj0, bits0, list, list, scs[k]));
            lemma_shortcut_ends(adj0, bits0, v, scs[k]);
        }
        if paired(adj0) && dominated(adj0, g0) {
            assert forall|k: int| 0 <= k < scs.len() implies undercut(g0, #[trigger] scs[k]) by {
                assert(from_pair(adj0, bits0, list, list, scs[k]));
                lemma_shortcut_walk(adj0, g0, bits0, v, scs[k]);
            }
        }
        lemma_insert_weak(prev.0, g0, prev.2, scs);
        lemma_grows_trans(adj0, prev.0, contraction_round(adj0, nodes0, c0, bits0, results, level).0);
    }
}

/// A walk that avoids blocked nodes is a walk.
pub proof fn lemma_unblock(adj: Seq<Seq<Edge>>, blocked: spec_fn(int) -> bool, s: int, t: int, d: int)
    requires
        reaches_with(adj, blocked, s, t, d),
    ensures
        reaches_with(adj, none_blocked(), s, t, d),
{
    let (p, ws) = choose|p: Seq<int>, ws: Seq<int>|
        #[trigger] walk_between(adj, blocked, s, t, p, ws) && weight_sum(ws) == d;
    assert forall|j: int| 0 <= j < ws.len() implies #[trigger] out_arc(adj, none_blocked(), p[j], p[j + 1], ws[j]) by {
        assert(out_arc(adj, blocked, p[j], p[j + 1], ws[j]));
    }
    assert(walk_between(adj, none_blocked(), s, t, p, ws));
}

/// Where some walk leads, a lightest one does, no heavier.
pub proof fn lemma_distance_exists(adj: Seq<Seq<Edge>>, blocked: spec_fn(int) -> bool, s: int, t: int, x: int)
    requires
        reaches_with(adj, blocked, s, t, x),
    ensures
        exists|d: int| d <= x && #[trigger] is_distance(adj, blocked, s, t, d),
    decreases x,
{
    let (p, ws) = choose|p: Seq<int>, ws: Seq<int>|
        #[trigger] walk_between(adj, blocked, s, t, p, ws) && weight_sum(ws) == x;
    lemma_prefix_weight(adj, blocked, p, ws, ws.len() as int, ws.len() as int);
    assert(ws.take(ws.len() as int) =~= ws);
    if no_lighter_walk(adj, blocked, s, t, x) {
        assert(is_distance(adj, blocked, s, t, x));
    } else {
        let (q, qs) = choose|q: Seq<int>, qs: Seq<int>|
            #[trigger] walk_between(adj, blocked, s, t, q, qs) && !(weight_sum(qs) >= x);
        lemma_prefix_weight(adj, blocked, q, qs, qs.len() as int, qs.len() as int);
        assert(qs.take(qs.len() as int) =~= qs);
        assert(reaches_with(adj, blocked, s, t, weight_sum(qs)));
        lemma_distance_exists(adj, blocked, s, t, weight_sum(qs));
    }
}

/// `u` may lie above `v` in the finished hierarchy: it is not contracted
/// yet, or it was given a higher level.
pub open spec fn above(nodes: Seq<Node>, bits: Seq<bool>, v: int, u: int) -> bool {
    !bits[u] || nodes[v].level < nodes[u].level
}

/// A way between `u` and `w` no heavier than `b`: an edge, or a lighter walk.
pub open spec fn way_around(adj: Seq<Seq<Edge>>, u: int, w: int, b: int) -> bool {
    ||| exists|w3: int| w3 <= b && #[trigger] out_arc(adj, none_blocked(), u, w, w3)
    ||| exists|d: int| d < b && #[trigger] reaches_with(adj, none_blocked(), u, w, d)
}

/// Any two edges at `v` add up to a weight that fits in a `u64` and a `usize`.
pub open spec fn fits_at(adj: Seq<Seq<Edge>>, v: int) -> bool {
    forall|i: int, j: int|
        0 <= i < adj[v].len() && 0 <= j < adj[v].len() ==> #[trigger] adj[v][i].weight + #[trigger] adj[v][j].weight
            <= u64::MAX && adj[v][i].weight + adj[v][j].weight <= usize::MAX
}

/// Every dip at `v` between nodes that may lie above it has a way around.
pub open spec fn dip_bypassed(adj: Seq<Seq<Edge>>, nodes: Seq<Node>, bits: Seq<bool>, v: int) -> bool {
    forall|u: int, w: int, w1: int, w2: int|
        #![trigger out_arc(adj, none_blocked(), u, v, w1), out_arc(adj, none_blocked(), v, w, w2)]
        out_arc(adj, none_blocked(), u, v, w1) && out_arc(adj, none_blocked(), v, w, w2) && u != w && above(
            nodes,
            bits,
            v,
            u,
        ) && above(nodes, bits, v, w) ==> way_around(adj, u, w, w1 + w2)
}

/// What contraction guarantees of the nodes contracted so far: dips at them
/// can be bypassed (where their edges combine without overflow), and no
/// edge joins two of them on the same level.
pub open spec fn contracted_ok(adj: Seq<Seq<Edge>>, nodes: Seq<Node>, bits: Seq<bool>) -> bool {
    &&& forall|v: int| 0 <= v < bits.len() && bits[v] && fits_at(adj, v) ==> #[trigger] dip_bypassed(adj, nodes, bits, v)
    &&& forall|x: int, y: int, w: int| #[trigger]
        out_arc(adj, none_blocked(), x, y, w) && bits[x] && bits[y] ==> nodes[x].level != nodes[y].level
}

pub proof fn lemma_way_around_grows(a1: Seq<Seq<Edge>>, a2: Seq<Seq<Edge>>, u: int, w: int, b: int)
    requires
        grows(a1, a2),
        way_around(a1, u, w, b),
    ensures
        way_around(a2, u, w, b),
{
    if exists|w3: int| w3 <= b && #[trigger] out_arc(a1, none_blocked(), u, w, w3) {
        let w3 = choose|w3: int| w3 <= b && #[trigger] out_arc(a1, none_blocked(), u, w, w3);
        lemma_arc_grows(a1, a2, u, w, w3);
        let w4 = choose|w4: int| w4 <= w3 && #[trigger] out_arc(a2, none_blocked(), u, w, w4);
    } else {
        let d = choose|d: int| d < b && #[trigger] reaches_with(a1, none_blocked(), u, w, d);
        lemma_reach_grows(a1, a2, u, w, d);
        let d2 = choose|d2: int| d2 <= d && #[trigger] reaches_with(a2, none_blocked(), u, w, d2);
    }
}

/// Growing the graph away from the contracted nodes keeps what contraction
/// guaranteed of them.
pub proof fn lemma_contracted_ok_stable(
    a1: Seq<Seq<Edge>>,
    a2: Seq<Seq<Edge>>,
    nodes: Seq<Node>,
    bits: Seq<bool>,
    keep: spec_fn(int) -> bool,
)
    requires
        contracted_ok(a1, nodes, bits),
        grows(a1, a2),
        frozen(a1, a2, keep),
        bits.len() >= a1.len(),
        forall|x: int| 0 <= x < bits.len() && bits[x] ==> #[trigger] keep(x),
    ensures
        contracted_ok(a2, nodes, bits),
{
    assert forall|v: int| 0 <= v < bits.len() && bits[v] && fits_at(a2, v) implies #[trigger] dip_bypassed(a2, nodes, bits, v) by {
      if v >= a1.len() {
        assert forall|u: int, w: int, w1: int, w2: int|
            out_arc(a2, none_blocked(), u, v, w1) && out_arc(a2, none_blocked(), v, w, w2) && u != w && above(
                nodes,
                bits,
                v,
                u,
            ) && above(nodes, bits, v, w) implies way_around(a2, u, w, w1 + w2) by {
        }
      } else {
        assert(keep(v));
        assert(a2[v] == a1[v]);
        assert(fits_at(a1, v));
        assert(dip_bypassed(a1, nodes, bits, v));
        assert forall|u: int, w: int, w1: int, w2: int|
            out_arc(a2, none_blocked(), u, v, w1) && out_arc(a2, none_blocked(), v, w, w2) && u != w && above(
                nodes,
                bits,
                v,
                u,
            ) && above(nodes, bits, v, w) implies way_around(a2, u, w, w1 + w2) by {
            let i = choose|i: int|
                0 <= i < a2[u].len() && (#[trigger] a2[u][i]).dir && a2[u][i].target == v && a2[u][i].weight == w1
                    && !none_blocked()(v);
            assert(i < a1[u].len() && a2[u][i] == a1[u][i]);
            assert(out_arc(a1, none_blocked(), u, v, w1));
            let j = choose|j: int|
                0 <= j < a2[v].len() && (#[trigger] a2[v][j]).dir && a2[v][j].target == w && a2[v][j].weight == w2
                    && !none_blocked()(w);
            assert(a1[v][j] == a2[v][j]);
            assert(out_arc(a1, none_blocked(), v, w, w2));
            lemma_way_around_grows(a1, a2, u, w, w1 + w2);
        }
      }
    }
    assert forall|x: int, y: int, w: int| #[trigger]
        out_arc(a2, none_blocked(), x, y, w) && bits[x] && bits[y] implies nodes[x].level != nodes[y].level by {
        let i = choose|i: int|
            0 <= i < a2[x].len() && (#[trigger] a2[x][i]).dir && a2[x][i].target == y && a2[x][i].weight == w
                && !none_blocked()(y);
        assert(keep(x));
        assert(a2[x] == a1[x]);
        assert(out_arc(a1, none_blocked(), x, y, w));
    }
}


/// No node of `set` stores an edge to a node of `set`, itself included.
pub open spec fn isolated(adj: Seq<Seq<Edge>>, set: Seq<usize>) -> bool {
    forall|p: int, q: int, k: int|
        0 <= p < set.len() && 0 <= q < set.len() && 0 <= k < adj[set[p] as int].len() ==> (#[trigger] adj[set[p] as int][k]).target
            != #[trigger] set[q]
}

/// One dip at a node being contracted: the shortcut for it was inserted,
/// or a lighter walk avoids the contracted nodes.
#[verifier::rlimit(80)]
proof fn lemma_contract_dip(
    adj0: Seq<Seq<Edge>>,
    a2: Seq<Seq<Edge>>,
    bits0: Seq<bool>,
    keep: spec_fn(int) -> bool,
    v: int,
    u: int,
    w: int,
    w1: int,
    w2: int,
)
    requires
        paired(adj0),
        targets_in_range(adj0),
        grows(adj0, a2),
        frozen(adj0, a2, keep),
        keep(v),
        0 <= v < adj0.len(),
        bits0.len() >= adj0.len(),
        !bits0[v],
        !bits0[u],
        !bits0[w],
        fits_at(adj0, v),
        forall|k: int|
            0 <= k < node_shortcuts(adj0, bits0, v).len() ==> has_edge_for(a2, #[trigger] node_shortcuts(adj0, bits0, v)[k]),
        out_arc(a2, none_blocked(), u, v, w1),
        out_arc(a2, none_blocked(), v, w, w2),
    ensures
        way_around(a2, u, w, w1 + w2),
{
    let list = adj0[v];
    assert(a2[v] == adj0[v]);
    let i = choose|i: int|
        0 <= i < a2[u].len() && (#[trigger] a2[u][i]).dir && a2[u][i].target == v && a2[u][i].weight == w1
            && !none_blocked()(v);
    assert(i < adj0[u].len() && a2[u][i] == adj0[u][i]);
    assert(out_arc(adj0, none_blocked(), u, v, w1));
    let j = choose|j: int|
        0 <= j < a2[v].len() && (#[trigger] a2[v][j]).dir && a2[v][j].target == w && a2[v][j].weight == w2
            && !none_blocked()(w);
    assert(list[j] == a2[v][j]);
    let w1p = choose|w1p: int| w1p <= w1 && #[trigger] in_arc(adj0, v, u, w1p);
    let ip = choose|ip: int|
        0 <= ip < adj0[v].len() && !(#[trigger] adj0[v][ip]).dir && adj0[v][ip].target == u && adj0[v][ip].weight == w1p;
    let a = list[ip];
    let b = list[j];
    assert(a.weight + b.weight <= u64::MAX && a.weight + b.weight <= usize::MAX);
    assert(a.target as int == u && b.target as int == w);
    if qualifies(adj0, bits0, a, b) {
        lemma_table_members(adj0, bits0, list, list);
        assert(node_shortcuts(adj0, bits0, v) == shortcut_table(adj0, bits0, list, list));
        assert(shortcut_table(adj0, bits0, list, list).contains(make_shortcut(list[ip], list[j])));
        let sc = make_shortcut(a, b);
        let k = choose|k: int| 0 <= k < node_shortcuts(adj0, bits0, v).len() && node_shortcuts(adj0, bits0, v)[k] == sc;
        assert(has_edge_for(a2, node_shortcuts(adj0, bits0, v)[k]));
        let x = choose|x: int| x <= sc.weight && #[trigger] out_arc(a2, none_blocked(), sc.from as int, sc.to as int, x);
        assert(sc.from as int == u && sc.to as int == w);
        assert(sc.weight == w1p + w2);
        assert(out_arc(a2, none_blocked(), u, w, x));
    } else {
        let bl = blocked_by(bits0);
        let w0 = choose|w0: int| w0 <= w1p && #[trigger] out_arc(adj0, none_blocked(), u, v, w0);
        let i0 = choose|i0: int|
            0 <= i0 < adj0[u].len() && (#[trigger] adj0[u][i0]).dir && adj0[u][i0].target == v && adj0[u][i0].weight == w0
                && !none_blocked()(v);
        assert(out_arc(adj0, bl, u, v, w0));
        assert(out_arc(adj0, bl, v, w, w2));
        lemma_trivial_walk(adj0, bl, u);
        lemma_extend_walk(adj0, bl, u, u, v, 0, w0);
        lemma_extend_walk(adj0, bl, u, v, w, w0, w2);
        lemma_distance_exists(adj0, bl, u, w, w0 + w2);
        let d0 = choose|d: int| d <= w0 + w2 && #[trigger] is_distance(adj0, bl, u, w, d);
        if d0 >= a.weight + b.weight {
            assert(qualifies(adj0, bits0, a, b));
        }
        lemma_unblock(adj0, bl, u, w, d0);
        lemma_reach_grows(adj0, a2, u, w, d0);
        let d2 = choose|d2: int| d2 <= d0 && #[trigger] reaches_with(a2, none_blocked(), u, w, d2);
    }
}

/// Contracting `v`: once its shortcuts are in, every dip at `v` between
/// nodes that are still to be contracted has a way around.
pub proof fn lemma_contract_node(
    adj0: Seq<Seq<Edge>>,
    a2: Seq<Seq<Edge>>,
    nodes2: Seq<Node>,
    bits0: Seq<bool>,
    bits2: Seq<bool>,
    keep: spec_fn(int) -> bool,
    v: int,
    level: u16,
)
    requires
        paired(adj0),
        targets_in_range(adj0),
        grows(adj0, a2),
        frozen(adj0, a2, keep),
        keep(v),
        0 <= v < adj0.len(),
        bits0.len() >= adj0.len(),
        bits2.len() >= adj0.len(),
        nodes2.len() == adj0.len(),
        !bits0[v],
        forall|k: int|
            0 <= k < node_shortcuts(adj0, bits0, v).len() ==> has_edge_for(a2, #[trigger] node_shortcuts(adj0, bits0, v)[k]),
        bits2[v],
        nodes2[v].level == level,
        forall|x: int| 0 <= x < bits2.len() && #[trigger] bits2[x] ==> nodes2[x].level <= level,
        forall|x: int| 0 <= x < bits0.len() && #[trigger] bits0[x] ==> bits2[x],
    ensures
        fits_at(a2, v) ==> dip_bypassed(a2, nodes2, bits2, v),
{
    if fits_at(a2, v) {
        assert(a2[v] == adj0[v]);
        assert(fits_at(adj0, v));
        assert forall|u: int, w: int, w1: int, w2: int|
            out_arc(a2, none_blocked(), u, v, w1) && out_arc(a2, none_blocked(), v, w, w2) && u != w && above(
                nodes2,
                bits2,
                v,
                u,
            ) && above(nodes2, bits2, v, w) implies way_around(a2, u, w, w1 + w2) by {
            assert(!bits2[u] && !bits2[w]);
            lemma_contract_dip(adj0, a2, bits0, keep, v, u, w, w1, w2);
        }
    }
}


/// The nodes of a set of candidates.
pub open spec fn ids(set: Seq<(isize, usize)>) -> Seq<usize> {
    set.map_values(|p: (isize, usize)| p.1)
}

/// `x` is contracted already or is one of the set.
pub open spec fn kept(bits: Seq<bool>, set: Seq<(isize, usize)>) -> spec_fn(int) -> bool {
    |x: int| bits[x] || exists|p: int| 0 <= p < set.len() && #[trigger] set[p].1 == x
}

/// `x` is among the first `k` nodes of the set.
pub open spec fn among(set: Seq<(isize, usize)>, k: int, x: int) -> bool {
    exists|p: int| 0 <= p < k && #[trigger] set[p].1 == x
}

/// A shortcut planned for the `k`-th node of an isolated set joins two
/// different nodes outside the set that are not contracted, weighs more
/// than nothing, and is no lighter than a walk of `g0`.
proof fn lemma_shortcut_sound(
    adj0: Seq<Seq<Edge>>,
    g0: Seq<Seq<Edge>>,
    bits0: Seq<bool>,
    set: Seq<(isize, usize)>,
    k: int,
    sc: Shortcut,
)
    requires
        targets_in_range(adj0),
        paired(adj0),
        positive(adj0),
        dominated(adj0, g0),
        bits0.len() >= adj0.len(),
        0 <= k < set.len(),
        set[k].1 < adj0.len(),
        isolated(adj0, ids(set)),
        from_pair(adj0, bits0, adj0[set[k].1 as int], adj0[set[k].1 as int], sc),
    ensures
        sc.from < adj0.len() && sc.to < adj0.len() && sc.from != sc.to && sc.weight > 0,
        !kept(bits0, set)(sc.from as int) && !kept(bits0, set)(sc.to as int),
        exists|w2: int| w2 <= sc.weight && #[trigger] reaches_with(g0, none_blocked(), sc.from as int, sc.to as int, w2),
{
    let v = set[k].1 as int;
    let list = adj0[v];
    let (i, j) = choose|i: int, j: int| 0 <= i < list.len() && 0 <= j < list.len() && #[trigger] combines(adj0, bits0, list[i], list[j], sc);
    let a = list[i];
    let b = list[j];
    let u = a.target as int;
    let w = b.target as int;
    assert(adj0[v][i].target < adj0.len());
    assert(adj0[v][j].target < adj0.len());
    assert(a.weight > 0 && b.weight > 0);
    assert(sc.weight == a.weight + b.weight);
    assert(sc.from as int == u && sc.to as int == w);
    assert forall|p: int| 0 <= p < set.len() implies #[trigger] set[p].1 != u && set[p].1 != w by {
        assert(ids(set)[k] == set[k].1);
        assert(ids(set)[p] == set[p].1);
        assert(adj0[ids(set)[k] as int][i].target != ids(set)[p]);
        assert(adj0[ids(set)[k] as int][j].target != ids(set)[p]);
    }
    // the two ends differ: a walk from a node to itself weighs nothing
    if u == w {
        let bl = blocked_by(bits0);
        let d = choose|d: int| d <= usize::MAX && d >= a.weight + b.weight && #[trigger] is_distance(adj0, bl, u, w, d);
        lemma_trivial_walk(adj0, bl, u);
        let (p, ws) = choose|p: Seq<int>, ws: Seq<int>| #[trigger] walk_between(adj0, bl, u, u, p, ws) && weight_sum(ws) == 0;
    }
    // the shortcut is no lighter than the walk through `v`
    assert(in_arc(adj0, v, u, a.weight as int));
    let w0 = choose|w0: int| w0 <= a.weight && #[trigger] out_arc(adj0, none_blocked(), u, v, w0);
    let g1 = choose|g1: int| g1 <= w0 && #[trigger] reaches_with(g0, none_blocked(), u, v, g1);
    assert(out_arc(adj0, none_blocked(), v, w, b.weight as int));
    let g2 = choose|g2: int| g2 <= b.weight && #[trigger] reaches_with(g0, none_blocked(), v, w, g2);
    lemma_concat_walk(g0, none_blocked(), u, v, w, g1, g2);
}

/// A dip guarantee survives when fewer nodes may lie above.
proof fn lemma_dip_mono(
    adj: Seq<Seq<Edge>>,
    n1: Seq<Node>,
    b1: Seq<bool>,
    n2: Seq<Node>,
    b2: Seq<bool>,
    v: int,
)
    requires
        0 <= v < adj.len(),
        forall|i: int| 0 <= i < adj[v].len() ==> (#[trigger] adj[v][i]).target < adj.len(),
        dip_bypassed(adj, n1, b1, v),
        forall|u: int| 0 <= u < adj.len() && #[trigger] above(n2, b2, v, u) ==> above(n1, b1, v, u),
    ensures
        dip_bypassed(adj, n2, b2, v),
{
    assert forall|u: int, w: int, w1: int, w2: int|
        out_arc(adj, none_blocked(), u, v, w1) && out_arc(adj, none_blocked(), v, w, w2) && u != w && above(
            n2,
            b2,
            v,
            u,
        ) && above(n2, b2, v, w) implies way_around(adj, u, w, w1 + w2) by {
        assert(above(n1, b1, v, u));
        assert(0 <= w < adj.len()) by {
            let j = choose|j: int|
                0 <= j < adj[v].len() && (#[trigger] adj[v][j]).dir && adj[v][j].target == w && adj[v][j].weight == w2
                    && !none_blocked()(w);
        }
        assert(above(n1, b1, v, w));
    }
}


/// What a set of candidates must be to be contracted in one round: its
/// nodes exist, are not contracted yet, are all different, and no edge joins
/// two of them.
pub open spec fn round_ready(adj0: Seq<Seq<Edge>>, bits0: Seq<bool>, set: Seq<(isize, usize)>) -> bool {
    &&& forall|p: int| 0 <= p < set.len() ==> (#[trigger] set[p]).1 < adj0.len() && !bits0[set[p].1 as int]
    &&& forall|p: int, q: int| 0 <= p < set.len() && 0 <= q < set.len() && p != q ==> (#[trigger] set[p]).1 != (#[trigger] set[q]).1
    &&& isolated(adj0, ids(set))
}

/// No node of `set` stores an edge to another node of `set`.
pub open spec fn isolated_apart(adj: Seq<Seq<Edge>>, set: Seq<usize>) -> bool {
    forall|p: int, q: int, k: int|
        0 <= p < set.len() && 0 <= q < set.len() && set[p] != set[q] && 0 <= k < adj[set[p] as int].len() ==> (
        #[trigger] adj[set[p] as int][k]).target != #[trigger] set[q]
}

/// A set of candidates as one round picks it: its nodes exist, are not
/// contracted yet, are all different, and no edge joins two different ones.
pub open spec fn round_apart(adj0: Seq<Seq<Edge>>, bits0: Seq<bool>, set: Seq<(isize, usize)>) -> bool {
    &&& forall|p: int| 0 <= p < set.len() ==> (#[trigger] set[p]).1 < adj0.len() && !bits0[set[p].1 as int]
    &&& forall|p: int, q: int| 0 <= p < set.len() && 0 <= q < set.len() && p != q ==> (#[trigger] set[p]).1 != (#[trigger] set[q]).1
    &&& isolated_apart(adj0, ids(set))
}

/// What holds of a graph while it is contracted: stored edges are paired,
/// weigh more than nothing and join different nodes, every forward edge is
/// no lighter than a walk of the graph `g0` it started as, and contraction's
/// guarantees hold of the nodes contracted so far, which all have levels
/// below `level`.
pub open spec fn contraction_inv(
    adj: Seq<Seq<Edge>>,
    g0: Seq<Seq<Edge>>,
    nodes: Seq<Node>,
    bits: Seq<bool>,
    level: int,
) -> bool {
    &&& adj.len() <= usize::MAX
    &&& targets_in_range(adj)
    &&& paired(adj)
    &&& positive(adj)
    &&& no_loops(adj)
    &&& dominated(adj, g0)
    &&& bits.len() >= adj.len()
    &&& nodes.len() == adj.len()
    &&& contracted_ok(adj, nodes, bits)
    &&& forall|x: int| 0 <= x < adj.len() && #[trigger] bits[x] ==> nodes[x].level < level
    &&& forall|x: int| adj.len() <= x < bits.len() ==> !#[trigger] bits[x]
}

/// The first `k` nodes of a ready set, contracted in order: the graph grows
/// away from the contracted nodes and the set, keeps its good properties,
/// and contraction's guarantees extend to the newly contracted nodes.
#[verifier::rlimit(100)]
pub proof fn lemma_round(
    adj0: Seq<Seq<Edge>>,
    g0: Seq<Seq<Edge>>,
    nodes0: Seq<Node>,
    c0: i32,
    bits0: Seq<bool>,
    set: Seq<(isize, usize)>,
    level: u16,
    k: int,
)
    requires
        contraction_inv(adj0, g0, nodes0, bits0, level as int),
        round_ready(adj0, bits0, set),
        0 <= k <= set.len(),
    ensures
        ({
            let r = contraction_round(adj0, nodes0, c0, bits0, planned_shortcuts(adj0, bits0, set).take(k), level);
            &&& grows(adj0, r.0)
            &&& frozen(adj0, r.0, kept(bits0, set))
            &&& paired(r.0) && positive(r.0) && no_loops(r.0) && dominated(r.0, g0)
            &&& r.3.len() == bits0.len() && r.1.len() == nodes0.len()
            &&& forall|x: int| 0 <= x < bits0.len() ==> #[trigger] r.3[x] == (bits0[x] || among(set, k, x))
            &&& forall|x: int|
                0 <= x < nodes0.len() ==> #[trigger] r.1[x] == (if among(set, k, x) {
                    Node { level, ..nodes0[x] }
                } else {
                    nodes0[x]
                })
            &&& contracted_ok(r.0, r.1, r.3)
        }),
    decreases k,
{
    let plan = planned_shortcuts(adj0, bits0, set);
    let keep = kept(bits0, set);
    let n = adj0.len();
    if k == 0 {
        assert(plan.take(0) =~= Seq::<(usize, Seq<Shortcut>)>::empty());
        assert(grows(adj0, adj0));
        assert(frozen(adj0, adj0, keep));
        assert forall|x: int| 0 <= x < nodes0.len() implies #[trigger] nodes0[x] == (if among(set, 0, x) {
            Node { level, ..nodes0[x] }
        } else {
            nodes0[x]
        }) by {
        }
    } else {
        let j = k - 1;
        lemma_round(adj0, g0, nodes0, c0, bits0, set, level, j);
        assert(plan.take(k).drop_last() =~= plan.take(j));
        let prev = contraction_round(adj0, nodes0, c0, bits0, plan.take(j), level);
        let v = set[j].1 as int;
        let scs = node_shortcuts(adj0, bits0, v);
        assert(plan.take(k).last() == (set[j].1, scs));
        let ins = insert_shortcuts(prev.0, prev.2, scs);
        let nodes1 = with_level(prev.1, v, level);
        let bits1 = prev.3.update(v, true);
        let r = contraction_round(adj0, nodes0, c0, bits0, plan.take(k), level);
        assert(r == (ins.0, nodes1, ins.1, bits1));
        // the shortcuts of `v` are sound
        lemma_table_members(adj0, bits0, adj0[v], adj0[v]);
        assert forall|q: int|
            0 <= q < scs.len() implies (#[trigger] scs[q]).from < prev.0.len() && scs[q].to < prev.0.len() && scs[q].from
                != scs[q].to && scs[q].weight > 0 && !keep(scs[q].from as int) && !keep(scs[q].to as int)
                && exists|w2: int| w2 <= scs[q].weight && #[trigger] reaches_with(g0, none_blocked(), scs[q].from as int, scs[q].to as int, w2) by {
            assert(from_pair(adj0, bits0, adj0[v], adj0[v], scs[q]));
            lemma_shortcut_sound(adj0, g0, bits0, set, j, scs[q]);
        }
        lemma_insert_keeps(prev.0, g0, prev.2, scs, keep);
        lemma_grows_trans(adj0, prev.0, ins.0);
        lemma_frozen_trans(adj0, prev.0, ins.0, keep);
        // v was not contracted before
        assert(!among(set, j, v)) by {
            if among(set, j, v) {
                let p = choose|p: int| 0 <= p < j && #[trigger] set[p].1 == v;
                assert(set[p].1 != set[j].1);
            }
        }
        assert(!bits0[v]);
        assert(!prev.3[v]);
        assert(keep(v)) by {
            assert(set[j].1 == v);
        }
        assert forall|x: int| 0 <= x < prev.3.len() && prev.3[x] implies #[trigger] keep(x) by {
            assert(prev.3[x] == (bits0[x] || among(set, j, x)));
            if !bits0[x] {
                let p = choose|p: int| 0 <= p < j && #[trigger] set[p].1 == x;
            }
        }
        lemma_contracted_ok_stable(prev.0, ins.0, prev.1, prev.3, keep);
        // the new marks and levels
        assert forall|x: int| 0 <= x < bits0.len() implies #[trigger] bits1[x] == (bits0[x] || among(set, k, x)) by {
            if x == v {
                assert(set[j].1 == x);
            } else {
                assert(bits1[x] == prev.3[x]);
                if among(set, k, x) {
                    let p = choose|p: int| 0 <= p < k && #[trigger] set[p].1 == x;
                    assert(p < j);
                }
            }
        }
        assert forall|x: int| 0 <= x < nodes0.len() implies #[trigger] nodes1[x] == (if among(set, k, x) {
            Node { level, ..nodes0[x] }
        } else {
            nodes0[x]
        }) by {
            if x == v {
                assert(set[j].1 == x);
                assert(prev.1[x] == nodes0[x]);
            } else {
                assert(nodes1[x] == prev.1[x]);
                if among(set, k, x) {
                    let p = choose|p: int| 0 <= p < k && #[trigger] set[p].1 == x;
                    assert(p < j);
                }
            }
        }
        // contraction's guarantees, old nodes and v
        lemma_round_guarantees(adj0, g0, nodes0, bits0, set, level, j, prev.0, ins.0, prev.1, prev.3, nodes1, bits1, scs);
    }
}


/// Contracting the `j`-th node `v` of a ready set, after its shortcuts are
/// in: contraction's guarantees hold of the contracted nodes and of `v`.
#[verifier::rlimit(100)]
proof fn lemma_round_guarantees(
    adj0: Seq<Seq<Edge>>,
    g0: Seq<Seq<Edge>>,
    nodes0: Seq<Node>,
    bits0: Seq<bool>,
    set: Seq<(isize, usize)>,
    level: u16,
    j: int,
    a_prev: Seq<Seq<Edge>>,
    a_ins: Seq<Seq<Edge>>,
    prev_nodes: Seq<Node>,
    prev_bits: Seq<bool>,
    nodes1: Seq<Node>,
    bits1: Seq<bool>,
    scs: Seq<Shortcut>,
)
    requires
        contraction_inv(adj0, g0, nodes0, bits0, level as int),
        round_ready(adj0, bits0, set),
        0 <= j < set.len(),
        scs == node_shortcuts(adj0, bits0, set[j].1 as int),
        grows(adj0, a_ins),
        frozen(adj0, a_ins, kept(bits0, set)),
        no_loops(a_ins),
        contracted_ok(a_ins, prev_nodes, prev_bits),
        prev_bits.len() == bits0.len(),
        prev_nodes.len() == nodes0.len(),
        forall|x: int| 0 <= x < bits0.len() ==> #[trigger] prev_bits[x] == (bits0[x] || among(set, j, x)),
        forall|x: int|
            0 <= x < nodes0.len() ==> #[trigger] prev_nodes[x] == (if among(set, j, x) {
                Node { level, ..nodes0[x] }
            } else {
                nodes0[x]
            }),
        nodes1 == with_level(prev_nodes, set[j].1 as int, level),
        bits1 == prev_bits.update(set[j].1 as int, true),
        !among(set, j, set[j].1 as int),
        forall|q: int| 0 <= q < scs.len() ==> has_edge_for(a_ins, #[trigger] scs[q]),
    ensures
        contracted_ok(a_ins, nodes1, bits1),
{
    let v = set[j].1 as int;
    let keep = kept(bits0, set);
    let n = adj0.len();
    assert(!bits0[v]);
    assert(keep(v)) by {
        assert(set[j].1 == v);
    }
    assert(a_ins[v] == adj0[v]);
    // a node of the set is never the target of an edge stored at another node of the set
    assert forall|x: int, i: int|
        0 <= x < n && 0 <= i < adj0[x].len() && (exists|p: int| 0 <= p < set.len() && #[trigger] set[p].1 == x) implies (
        #[trigger] adj0[x][i]).target != v by {
        let p = choose|p: int| 0 <= p < set.len() && #[trigger] set[p].1 == x;
        assert(ids(set)[p] == set[p].1);
        assert(ids(set)[j] == set[j].1);
        assert(adj0[ids(set)[p] as int][i].target != ids(set)[j]);
    }
    // contracted nodes have levels up to `level`
    assert forall|x: int| 0 <= x < bits1.len() && #[trigger] bits1[x] implies nodes1[x].level <= level by {
        if x != v {
            assert(prev_bits[x]);
            assert(nodes1[x] == prev_nodes[x]);
            if !among(set, j, x) {
                assert(bits0[x]);
            }
        }
    }
    assert forall|x: int| 0 <= x < bits0.len() && #[trigger] bits0[x] implies bits1[x] by {
        if x != v {
            assert(prev_bits[x]);
        }
    }
    lemma_contract_node(adj0, a_ins, nodes1, bits0, bits1, keep, v, level);
    assert forall|w: int| 0 <= w < bits1.len() && bits1[w] && fits_at(a_ins, w) implies #[trigger] dip_bypassed(a_ins, nodes1, bits1, w) by {
        if w != v {
            assert(prev_bits[w]);
            assert(dip_bypassed(a_ins, prev_nodes, prev_bits, w));
            assert forall|u: int| 0 <= u < a_ins.len() && #[trigger] above(nodes1, bits1, w, u) implies above(prev_nodes, prev_bits, w, u) by {
                if u == v {
                    assert(!prev_bits[v]);
                } else {
                    assert(bits1[u] == prev_bits[u]);
                    assert(nodes1[u] == prev_nodes[u]);
                    assert(nodes1[w] == prev_nodes[w]);
                }
            }
            assert(keep(w)) by {
                if !bits0[w] {
                    assert(among(set, j, w));
                    let p = choose|p: int| 0 <= p < j && #[trigger] set[p].1 == w;
                }
            }
            assert(a_ins[w] == adj0[w]);
            assert forall|i: int| 0 <= i < a_ins[w].len() implies (#[trigger] a_ins[w][i]).target < a_ins.len() by {
                assert(a_ins[w][i] == adj0[w][i]);
            }
            lemma_dip_mono(a_ins, prev_nodes, prev_bits, nodes1, bits1, w);
        }
    }
    assert forall|x: int, y: int, c: int| #[trigger]
        out_arc(a_ins, none_blocked(), x, y, c) && bits1[x] && bits1[y] implies nodes1[x].level != nodes1[y].level by {
        let i = choose|i: int|
            0 <= i < a_ins[x].len() && (#[trigger] a_ins[x][i]).dir && a_ins[x][i].target == y && a_ins[x][i].weight == c
                && !none_blocked()(y);
        assert(a_ins[x][i].target != x);
        if x == v {
            assert(a_ins[x][i] == adj0[x][i]);
            assert(adj0[v][i].target == y);
            assert(!(exists|p: int| 0 <= p < set.len() && #[trigger] set[p].1 == y)) by {
                if exists|p: int| 0 <= p < set.len() && #[trigger] set[p].1 == y {
                    let p = choose|p: int| 0 <= p < set.len() && #[trigger] set[p].1 == y;
                    assert(ids(set)[p] == set[p].1);
                    assert(ids(set)[j] == set[j].1);
                    assert(adj0[ids(set)[j] as int][i].target != ids(set)[p]);
                }
            }
            assert(prev_bits[y]);
            assert(!among(set, j, y)) by {
                if among(set, j, y) {
                    let p = choose|p: int| 0 <= p < j && #[trigger] set[p].1 == y;
                }
            }
            assert(bits0[y]);
            assert(nodes1[y] == nodes0[y]);
        } else if y == v {
            assert(i < adj0[x].len() && a_ins[x][i] == adj0[x][i]);
            assert(!(exists|p: int| 0 <= p < set.len() && #[trigger] set[p].1 == x));
            assert(prev_bits[x]);
            assert(!among(set, j, x)) by {
                if among(set, j, x) {
                    let p = choose|p: int| 0 <= p < j && #[trigger] set[p].1 == x;
                }
            }
            assert(bits0[x]);
            assert(nodes1[x] == nodes0[x]);
        } else {
            assert(prev_bits[x] && prev_bits[y]);
            assert(nodes1[x] == prev_nodes[x]);
            assert(nodes1[y] == prev_nodes[y]);
        }
    }
}


/// A walk of a graph dominated by `g0` is no lighter than a walk of `g0`
/// between the same ends.
pub proof fn lemma_walk_dominated(adj: Seq<Seq<Edge>>, g0: Seq<Seq<Edge>>, p: Seq<int>, ws: Seq<int>)
    requires
        dominated(adj, g0),
        is_walk(adj, none_blocked(), p, ws),
    ensures
        exists|d: int| d <= weight_sum(ws) && #[trigger] reaches_with(g0, none_blocked(), p[0], p.last(), d),
    decreases ws.len(),
{
    if ws.len() == 0 {
        lemma_trivial_walk(g0, none_blocked(), p[0]);
        assert(reaches_with(g0, none_blocked(), p[0], p.last(), 0));
    } else {
        let k = ws.len() - 1;
        let p0 = p.drop_last();
        let ws0 = ws.drop_last();
        assert forall|j: int| 0 <= j < ws0.len() implies #[trigger] out_arc(adj, none_blocked(), p0[j], p0[j + 1], ws0[j]) by {
            assert(out_arc(adj, none_blocked(), p[j], p[j + 1], ws[j]));
        }
        lemma_walk_dominated(adj, g0, p0, ws0);
        let d0 = choose|d: int| d <= weight_sum(ws0) && #[trigger] reaches_with(g0, none_blocked(), p0[0], p0.last(), d);
        assert(out_arc(adj, none_blocked(), p[k], p[k + 1], ws[k]));
        let d1 = choose|d1: int| d1 <= ws[k] && #[trigger] reaches_with(g0, none_blocked(), p[k], p[k + 1], d1);
        assert(p0.last() == p[k]);
        lemma_concat_walk(g0, none_blocked(), p[0], p[k], p[k + 1], d0, d1);
        assert(p.last() == p[k + 1]);
    }
}

/// Two graphs with the same lightest walks between any two nodes.
pub open spec fn same_distances(a1: Seq<Seq<Edge>>, a2: Seq<Seq<Edge>>) -> bool {
    forall|s: int, t: int, d: int| #[trigger]
        is_distance(a1, none_blocked(), s, t, d) <==> #[trigger] is_distance(a2, none_blocked(), s, t, d)
}

/// A graph that grew from `g0` and is dominated by it has its distances.
pub proof fn lemma_same_distances(g0: Seq<Seq<Edge>>, adj: Seq<Seq<Edge>>)
    requires
        grows(g0, adj),
        dominated(adj, g0),
    ensures
        same_distances(g0, adj),
{
    assert forall|s: int, t: int, d: int| #[trigger] is_distance(g0, none_blocked(), s, t, d) implies #[trigger] is_distance(adj, none_blocked(), s, t, d) by {
        lemma_reach_grows(g0, adj, s, t, d);
        let d2 = choose|d2: int| d2 <= d && #[trigger] reaches_with(adj, none_blocked(), s, t, d2);
        assert forall|p: Seq<int>, ws: Seq<int>| #[trigger] walk_between(adj, none_blocked(), s, t, p, ws) implies weight_sum(ws) >= d by {
            lemma_walk_dominated(adj, g0, p, ws);
            let d3 = choose|d3: int| d3 <= weight_sum(ws) && #[trigger] reaches_with(g0, none_blocked(), p[0], p.last(), d3);
            let (q, qs) = choose|q: Seq<int>, qs: Seq<int>| #[trigger] walk_between(g0, none_blocked(), s, t, q, qs) && weight_sum(qs) == d3;
        }
        let (q, qs) = choose|q: Seq<int>, qs: Seq<int>| #[trigger] walk_between(adj, none_blocked(), s, t, q, qs) && weight_sum(qs) == d2;
    }
    assert forall|s: int, t: int, d: int| #[trigger] is_distance(adj, none_blocked(), s, t, d) implies #[trigger] is_distance(g0, none_blocked(), s, t, d) by {
        let (p, ws) = choose|p: Seq<int>, ws: Seq<int>| #[trigger] walk_between(adj, none_blocked(), s, t, p, ws) && weight_sum(ws) == d;
        lemma_walk_dominated(adj, g0, p, ws);
        let d2 = choose|d2: int| d2 <= d && #[trigger] reaches_with(g0, none_blocked(), s, t, d2);
        assert forall|q: Seq<int>, qs: Seq<int>| #[trigger] walk_between(g0, none_blocked(), s, t, q, qs) implies weight_sum(qs) >= d by {
            lemma_walk_grows(g0, adj, q, qs);
            let d3 = choose|d3: int| d3 <= weight_sum(qs) && #[trigger] reaches_with(adj, none_blocked(), q[0], q.last(), d3);
            let (r, rs) = choose|r: Seq<int>, rs: Seq<int>| #[trigger] walk_between(adj, none_blocked(), s, t, r, rs) && weight_sum(rs) == d3;
        }
        let (q, qs) = choose|q: Seq<int>, qs: Seq<int>| #[trigger] walk_between(g0, none_blocked(), s, t, q, qs) && weight_sum(qs) == d2;
    }
}

/// Once every node is contracted, and wherever the edges at a node combine
/// without overflow, the graph is a hierarchy: every dip can be bypassed
/// and no edge joins nodes of the same level.
#[verifier::rlimit(40)]
pub proof fn lemma_finished(adj: Seq<Seq<Edge>>, g0: Seq<Seq<Edge>>, nodes: Seq<Node>, bits: Seq<bool>, level: int)
    requires
        contraction_inv(adj, g0, nodes, bits, level),
        forall|x: int| 0 <= x < adj.len() ==> #[trigger] bits[x],
        forall|v: int| 0 <= v < adj.len() ==> #[trigger] fits_at(adj, v),
    ensures
        crate::hierarchy::bypassed(adj, nodes),
        crate::hierarchy::levels_differ(adj, nodes),
{
    assert forall|u: int, v: int, w: int, w1: int, w2: int|
        #![trigger out_arc(adj, none_blocked(), u, v, w1), out_arc(adj, none_blocked(), v, w, w2)]
        out_arc(adj, none_blocked(), u, v, w1) && out_arc(adj, none_blocked(), v, w, w2) && u != w
            && nodes[v].level < nodes[u].level && nodes[v].level < nodes[w].level implies (exists|w3: int|
            w3 <= w1 + w2 && #[trigger] out_arc(adj, none_blocked(), u, w, w3)) || (exists|d: int|
            d < w1 + w2 && #[trigger] reaches_with(adj, none_blocked(), u, w, d)) by {
        assert(bits[v]);
        assert(fits_at(adj, v));
        assert(dip_bypassed(adj, nodes, bits, v));
        assert(above(nodes, bits, v, u) && above(nodes, bits, v, w));
        assert(way_around(adj, u, w, w1 + w2));
    }
    assert forall|x: int, y: int, c: int| #[trigger]
        out_arc(adj, none_blocked(), x, y, c) implies nodes[x].level != nodes[y].level by {
        let i = choose|i: int|
            0 <= i < adj[x].len() && (#[trigger] adj[x][i]).dir && adj[x][i].target == y && adj[x][i].weight == c
                && !none_blocked()(y);
        assert(adj[x][i].target < adj.len());
        assert(bits[x] && bits[y]);
    }
}


/// The lists after appending the forward edge `e` at `u` and its backward
/// copy at `e.target`.
pub open spec fn pushed_pair(adj: Seq<Seq<Edge>>, u: int, e: Edge) -> Seq<Seq<Edge>> {
    let a1 = adj.update(u, adj[u].push(e));
    a1.update(e.target as int, a1[e.target as int].push(e.reverse_spec(u as u64)))
}

proof fn lemma_push_pair_slots(adj: Seq<Seq<Edge>>, u: int, e: Edge)
    requires
        e.dir,
        0 <= u < adj.len(),
        u <= u64::MAX,
        0 <= e.target < adj.len(),
    ensures
        pushed_pair(adj, u, e).len() == adj.len(),
        forall|y: int, i: int|
            0 <= y < adj.len() && 0 <= i < pushed_pair(adj, u, e)[y].len() ==> (i < adj[y].len()
                && #[trigger] pushed_pair(adj, u, e)[y][i] == adj[y][i]) || (y == u && pushed_pair(adj, u, e)[y][i] == e)
                || (y == e.target && pushed_pair(adj, u, e)[y][i] == e.reverse_spec(u as u64)),
        forall|y: int, i: int| 0 <= y < adj.len() && 0 <= i < adj[y].len() ==> #[trigger] pushed_pair(adj, u, e)[y][i] == adj[y][i],
        out_arc(pushed_pair(adj, u, e), none_blocked(), u, e.target as int, e.weight as int),
        in_arc(pushed_pair(adj, u, e), e.target as int, u, e.weight as int),
{
    let w = e.target as int;
    let rev = e.reverse_spec(u as u64);
    assert(rev.target == u && !rev.dir && rev.weight == e.weight);
    let a1 = adj.update(u, adj[u].push(e));
    let a2 = a1.update(w, a1[w].push(rev));
    assert(a2 == pushed_pair(adj, u, e));
    assert forall|y: int, i: int| 0 <= y < adj.len() && 0 <= i < a2[y].len() implies (i < adj[y].len() && #[trigger] a2[y][i]
        == adj[y][i]) || (y == u && a2[y][i] == e) || (y == w && a2[y][i] == rev) by {
        if y == w && y == u {
            assert(a1[u] == adj[u].push(e));
        }
    }
    assert(a2[u][adj[u].len() as int] == e) by {
        if u == w {
            assert(a1[u] == adj[u].push(e));
        }
    }
    assert(out_arc(a2, none_blocked(), u, w, e.weight as int));
    assert(a2[w][a1[w].len() as int] == rev);
    assert(in_arc(a2, w, u, e.weight as int));
    assert forall|y: int, i: int| 0 <= y < adj.len() && 0 <= i < adj[y].len() implies #[trigger] a2[y][i] == adj[y][i] by {
        if y == u {
            assert(a1[y][i] == adj[y][i]);
        }
    }
}

/// Appending a forward edge and its backward copy keeps a graph paired,
/// positive (for a positive edge), and free of loops (for an edge between two
/// nodes).
pub proof fn lemma_push_pair(adj: Seq<Seq<Edge>>, u: int, e: Edge)
    requires
        e.dir,
        0 <= u < adj.len(),
        u <= u64::MAX,
        0 <= e.target < adj.len(),
    ensures
        pushed_pair(adj, u, e).len() == adj.len(),
        paired(adj) ==> paired(pushed_pair(adj, u, e)),
        positive(adj) && e.weight > 0 ==> positive(pushed_pair(adj, u, e)),
        no_loops(adj) && u != e.target ==> no_loops(pushed_pair(adj, u, e)),
{
    lemma_push_pair_slots(adj, u, e);
    let a2 = pushed_pair(adj, u, e);
    let rev = e.reverse_spec(u as u64);
    if paired(adj) {
        assert forall|a: int, b: int, c: int| #[trigger] out_arc(a2, none_blocked(), a, b, c) implies exists|c2: int|
            c2 <= c && #[trigger] in_arc(a2, b, a, c2) by {
            let i = choose|i: int|
                0 <= i < a2[a].len() && (#[trigger] a2[a][i]).dir && a2[a][i].target == b && a2[a][i].weight == c
                    && !none_blocked()(b);
            if i < adj[a].len() && a2[a][i] == adj[a][i] {
                assert(out_arc(adj, none_blocked(), a, b, c));
                let c1 = choose|c2: int| c2 <= c && #[trigger] in_arc(adj, b, a, c2);
                let j = choose|j: int|
                    0 <= j < adj[b].len() && !(#[trigger] adj[b][j]).dir && adj[b][j].target == a && adj[b][j].weight == c1;
                assert(a2[b][j] == adj[b][j]);
                assert(in_arc(a2, b, a, c1));
            } else {
                assert(a2[a][i] == e);
            }
        }
        assert forall|a: int, b: int, c: int| #[trigger] in_arc(a2, a, b, c) implies exists|c2: int|
            c2 <= c && #[trigger] out_arc(a2, none_blocked(), b, a, c2) by {
            let i = choose|i: int|
                0 <= i < a2[a].len() && !(#[trigger] a2[a][i]).dir && a2[a][i].target == b && a2[a][i].weight == c;
            if i < adj[a].len() && a2[a][i] == adj[a][i] {
                assert(in_arc(adj, a, b, c));
                let c1 = choose|c2: int| c2 <= c && #[trigger] out_arc(adj, none_blocked(), b, a, c2);
                let j = choose|j: int|
                    0 <= j < adj[b].len() && (#[trigger] adj[b][j]).dir && adj[b][j].target == a && adj[b][j].weight == c1
                        && !none_blocked()(a);
                assert(a2[b][j] == adj[b][j]);
                assert(out_arc(a2, none_blocked(), b, a, c1));
            } else {
                assert(a2[a][i] == rev);
            }
        }
    }
    if positive(adj) && e.weight > 0 {
        assert forall|x: int, i: int| 0 <= x < a2.len() && 0 <= i < a2[x].len() implies (#[trigger] a2[x][i]).weight > 0 by {
            if i < adj[x].len() && a2[x][i] == adj[x][i] {
            }
        }
    }
    if no_loops(adj) && u != e.target {
        assert forall|x: int, i: int| 0 <= x < a2.len() && 0 <= i < a2[x].len() implies (#[trigger] a2[x][i]).target != x by {
            if i < adj[x].len() && a2[x][i] == adj[x][i] {
            }
        }
    }
}

} // verus!
