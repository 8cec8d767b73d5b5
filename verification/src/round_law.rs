//! What one round of contraction keeps: between the nodes it leaves, the
//! lightest walk that avoids the contracted nodes weighs as much after the
//! round as before, whatever the weights of a paired graph.
use vstd::prelude::*;
use crate::graph::{Edge, Node};
use crate::ch::{contraction_round, make_shortcut, node_shortcuts, planned_shortcuts, qualifies, shortcut_table, Shortcut};
use crate::contraction::{
    combines, fits_at, from_pair, grows, has_edge_for, ids, lemma_distance_exists, lemma_table_members, round_apart,
};
use crate::bypass::{copy_of, lemma_round_origin, origin, planned_copy};
use crate::dijkstra::blocked_by;
use crate::levels::{lemma_round_slots, planned, results_apart};
use crate::paths::{
    in_arc, is_distance, is_walk, lemma_concat_walk, lemma_extend_walk, lemma_split_walk, lemma_trivial_walk,
    lemma_weight_sum_concat, no_lighter_walk, none_blocked, out_arc, paired, reaches_with, targets_in_range,
    walk_between, weight_sum,
};

verus! {

/// Two walks, the second starting where the first ends, joined.
proof fn lemma_join(adj: Seq<Seq<Edge>>, bl: spec_fn(int) -> bool, p1: Seq<int>, ws1: Seq<int>, p2: Seq<int>, ws2: Seq<int>)
    requires
        is_walk(adj, bl, p1, ws1),
        is_walk(adj, bl, p2, ws2),
        p1.last() == p2[0],
    ensures
        is_walk(adj, bl, p1 + p2.drop_first(), ws1 + ws2),
        (p1 + p2.drop_first())[0] == p1[0],
        (p1 + p2.drop_first()).last() == p2.last(),
        weight_sum(ws1 + ws2) == weight_sum(ws1) + weight_sum(ws2),
        (ws1 + ws2).len() == ws1.len() + ws2.len(),
{
    let p = p1 + p2.drop_first();
    let ws = ws1 + ws2;
    lemma_weight_sum_concat(ws1, ws2);
    assert forall|j: int| 0 <= j < ws.len() implies #[trigger] out_arc(adj, bl, p[j], p[j + 1], ws[j]) by {
        if j < ws1.len() {
            assert(out_arc(adj, bl, p1[j], p1[j + 1], ws1[j]));
        } else {
            let k = j - ws1.len();
            assert(out_arc(adj, bl, p2[k], p2[k + 1], ws2[k]));
        }
    }
    if p2.len() == 1 {
        assert(p =~= p1);
    }
}

/// Edge weights, and so walk weights, are never negative.
proof fn lemma_nonneg(adj: Seq<Seq<Edge>>, bl: spec_fn(int) -> bool, p: Seq<int>, ws: Seq<int>)
    requires
        is_walk(adj, bl, p, ws),
    ensures
        weight_sum(ws) >= 0,
{
    crate::paths::lemma_prefix_weight(adj, bl, p, ws, ws.len() as int, ws.len() as int);
    assert(ws.take(ws.len() as int) =~= ws);
}

/// A walk of `a1` avoiding `b1` is walked in a graph grown from `a1`, at no
/// greater weight, and avoids `b2` where its nodes after the first do.
proof fn lemma_grown_walk(a1: Seq<Seq<Edge>>, a2: Seq<Seq<Edge>>, b1: Seq<bool>, b2: Seq<bool>, p: Seq<int>, ws: Seq<int>)
    requires
        grows(a1, a2),
        is_walk(a1, blocked_by(b1), p, ws),
        forall|i: int| 1 <= i < p.len() ==> !b2[#[trigger] p[i]],
    ensures
        exists|d: int| d <= weight_sum(ws) && #[trigger] reaches_with(a2, blocked_by(b2), p[0], p.last(), d),
    decreases ws.len(),
{
    if ws.len() == 0 {
        lemma_trivial_walk(a2, blocked_by(b2), p[0]);
        assert(reaches_with(a2, blocked_by(b2), p[0], p.last(), 0));
    } else {
        let k = ws.len() - 1;
        let p0 = p.drop_last();
        let ws0 = ws.drop_last();
        assert forall|j: int| 0 <= j < ws0.len() implies #[trigger] out_arc(a1, blocked_by(b1), p0[j], p0[j + 1], ws0[j]) by {
            assert(out_arc(a1, blocked_by(b1), p[j], p[j + 1], ws[j]));
        }
        assert forall|i: int| 1 <= i < p0.len() implies !b2[#[trigger] p0[i]] by {
            assert(p0[i] == p[i]);
        }
        lemma_grown_walk(a1, a2, b1, b2, p0, ws0);
        let d0 = choose|d: int| d <= weight_sum(ws0) && #[trigger] reaches_with(a2, blocked_by(b2), p0[0], p0.last(), d);
        assert(out_arc(a1, blocked_by(b1), p[k], p[k + 1], ws[k]));
        let x = p[k];
        let y = p[k + 1];
        let i = choose|i: int|
            0 <= i < a1[x].len() && (#[trigger] a1[x][i]).dir && a1[x][i].target == y && a1[x][i].weight == ws[k]
                && !blocked_by(b1)(y);
        assert(a2[x][i].target == y && a2[x][i].dir && a2[x][i].weight <= ws[k]);
        assert(!b2[p[k + 1]]);
        assert(out_arc(a2, blocked_by(b2), x, y, a2[x][i].weight as int));
        assert(p0.last() == x);
        lemma_extend_walk(a2, blocked_by(b2), p[0], x, y, d0, a2[x][i].weight as int);
        assert(p.last() == y);
        assert(ws.drop_last() == ws0);
    }
}

/// After a round, a walk that avoids the contracted nodes is matched by a
/// walk before it, no heavier, that avoids the nodes contracted before.
proof fn lemma_walk_before(
    adj0: Seq<Seq<Edge>>,
    a2: Seq<Seq<Edge>>,
    bits0: Seq<bool>,
    bits2: Seq<bool>,
    results: Seq<(usize, Seq<Shortcut>)>,
    p: Seq<int>,
    ws: Seq<int>,
)
    requires
        paired(adj0),
        targets_in_range(adj0),
        origin(adj0, a2, results),
        results_apart(adj0, bits0, results),
        bits0.len() >= adj0.len(),
        a2.len() == adj0.len(),
        forall|x: int| 0 <= x < adj0.len() && !#[trigger] bits2[x] ==> !bits0[x],
        is_walk(a2, blocked_by(bits2), p, ws),
        0 <= p[0] < adj0.len(),
    ensures
        exists|d: int| d <= weight_sum(ws) && #[trigger] reaches_with(adj0, blocked_by(bits0), p[0], p.last(), d),
    decreases ws.len(),
{
    let bl = blocked_by(bits0);
    if ws.len() == 0 {
        lemma_trivial_walk(adj0, bl, p[0]);
        assert(reaches_with(adj0, bl, p[0], p.last(), 0));
    } else {
        let k = ws.len() - 1;
        let p0 = p.drop_last();
        let ws0 = ws.drop_last();
        assert forall|j: int| 0 <= j < ws0.len() implies #[trigger] out_arc(a2, blocked_by(bits2), p0[j], p0[j + 1], ws0[j]) by {
            assert(out_arc(a2, blocked_by(bits2), p[j], p[j + 1], ws[j]));
        }
        lemma_walk_before(adj0, a2, bits0, bits2, results, p0, ws0);
        let d0 = choose|d: int| d <= weight_sum(ws0) && #[trigger] reaches_with(adj0, bl, p0[0], p0.last(), d);
        assert(out_arc(a2, blocked_by(bits2), p[k], p[k + 1], ws[k]));
        let x = p[k];
        let y = p[k + 1];
        assert(p0.last() == x);
        assert(ws.drop_last() == ws0);
        assert(ws.last() == ws[k]);
        assert(weight_sum(ws) == weight_sum(ws0) + ws[k]);
        assert(p.last() == y);
        let i = choose|i: int|
            0 <= i < a2[x].len() && (#[trigger] a2[x][i]).dir && a2[x][i].target == y && a2[x][i].weight == ws[k]
                && !blocked_by(bits2)(y);
        let e = a2[x][i];
        if i < adj0[x].len() && e == adj0[x][i] {
            assert(adj0[x][i].target < adj0.len());
            assert(!bits0[y]);
            assert(out_arc(adj0, bl, x, y, ws[k]));
            lemma_extend_walk(adj0, bl, p[0], x, y, d0, ws[k]);
        } else {
            assert(planned_copy(results, x, e));
            let (kk, jj) = choose|kk: int, jj: int| 0 <= kk < results.len() && 0 <= jj < results[kk].1.len() && #[trigger] copy_of(results[kk].1[jj], x, e);
            let z = results[kk].0 as int;
            let sc = results[kk].1[jj];
            lemma_table_members(adj0, bits0, adj0[z], adj0[z]);
            assert(from_pair(adj0, bits0, adj0[z], adj0[z], sc));
            let (ia, ib) = choose|ia: int, ib: int|
                0 <= ia < adj0[z].len() && 0 <= ib < adj0[z].len() && #[trigger] combines(adj0, bits0, adj0[z][ia], adj0[z][ib], sc);
            let a = adj0[z][ia];
            let b = adj0[z][ib];
            assert(sc.from == x && sc.to == y);
            assert(in_arc(adj0, z, x, a.weight as int));
            let w0 = choose|w0: int| w0 <= a.weight && #[trigger] out_arc(adj0, none_blocked(), x, z, w0);
            assert(!bits0[z]);
            let i0 = choose|i0: int|
                0 <= i0 < adj0[x].len() && (#[trigger] adj0[x][i0]).dir && adj0[x][i0].target == z && adj0[x][i0].weight == w0
                    && !none_blocked()(z);
            assert(out_arc(adj0, bl, x, z, w0));
            assert(adj0[z][ib].target < adj0.len());
            assert(!bits0[y]);
            assert(out_arc(adj0, bl, z, y, b.weight as int));
            lemma_extend_walk(adj0, bl, p[0], x, z, d0, w0);
            lemma_extend_walk(adj0, bl, p[0], z, y, d0 + w0, b.weight as int);
        }
    }
}

/// A dip at a node that a round contracts, on a walk before the round:
/// after the round an edge joins its ends no heavier, or before the round a
/// lighter walk joined them that avoids the contracted nodes.
proof fn lemma_segment(
    adj0: Seq<Seq<Edge>>,
    a2: Seq<Seq<Edge>>,
    bits0: Seq<bool>,
    results: Seq<(usize, Seq<Shortcut>)>,
    kv: int,
    x: int,
    y: int,
    w1: int,
    w2: int,
) -> (short: bool)
    requires
        paired(adj0),
        targets_in_range(adj0),
        bits0.len() >= adj0.len(),
        grows(adj0, a2),
        origin(adj0, a2, results),
        forall|k: int, j: int|
            0 <= k < results.len() && 0 <= j < results[k].1.len() ==> has_edge_for(a2, #[trigger] results[k].1[j]),
        results_apart(adj0, bits0, results),
        0 <= kv < results.len(),
        !bits0[x],
        !bits0[y],
        fits_at(a2, results[kv].0 as int),
        out_arc(adj0, none_blocked(), x, results[kv].0 as int, w1),
        out_arc(adj0, none_blocked(), results[kv].0 as int, y, w2),
    ensures
        short ==> exists|w3: int| w3 <= w1 + w2 && #[trigger] out_arc(a2, none_blocked(), x, y, w3),
        !short ==> exists|d: int| d < w1 + w2 && #[trigger] reaches_with(adj0, blocked_by(bits0), x, y, d),
{
    let v = results[kv].0 as int;
    let list = adj0[v];
    assert(!bits0[v]);
    let w1p = choose|w1p: int| w1p <= w1 && #[trigger] in_arc(adj0, v, x, w1p);
    let ia0 = choose|ip: int| 0 <= ip < list.len() && !(#[trigger] list[ip]).dir && list[ip].target == x && list[ip].weight == w1p;
    let ib0 = choose|j: int|
        0 <= j < list.len() && (#[trigger] list[j]).dir && list[j].target == y && list[j].weight == w2 && !none_blocked()(y);
    let ia = crate::bypass::lemma_slot_min(list, ia0);
    let ib = crate::bypass::lemma_slot_min(list, ib0);
    assert(a2[v][ia].weight == list[ia].weight) by {
        if !(ia < adj0[v].len() && a2[v][ia] == adj0[v][ia]) {
            let ij = crate::bypass::lemma_own_copy(adj0, bits0, results, kv, v, a2[v][ia]);
            assert(list[ij.0].target == x && !list[ij.0].dir);
        }
    }
    assert(a2[v][ib].weight == list[ib].weight) by {
        if !(ib < adj0[v].len() && a2[v][ib] == adj0[v][ib]) {
            let ij = crate::bypass::lemma_own_copy(adj0, bits0, results, kv, v, a2[v][ib]);
            assert(list[ij.1].target == y && list[ij.1].dir);
        }
    }
    let a = list[ia];
    let b = list[ib];
    assert(a.weight + b.weight <= u64::MAX && a.weight + b.weight <= usize::MAX) by {
        assert(a2[v][ia].weight + a2[v][ib].weight <= u64::MAX);
    }
    if qualifies(adj0, bits0, a, b) {
        lemma_table_members(adj0, bits0, list, list);
        assert(results[kv].1 == node_shortcuts(adj0, bits0, v));
        assert(node_shortcuts(adj0, bits0, v) == shortcut_table(adj0, bits0, list, list));
        assert(shortcut_table(adj0, bits0, list, list).contains(make_shortcut(list[ia], list[ib])));
        let sc = make_shortcut(a, b);
        let k = choose|k: int| 0 <= k < results[kv].1.len() && results[kv].1[k] == sc;
        assert(has_edge_for(a2, results[kv].1[k]));
        let x3 = choose|x3: int| x3 <= sc.weight && #[trigger] out_arc(a2, none_blocked(), sc.from as int, sc.to as int, x3);
        assert(out_arc(a2, none_blocked(), x, y, x3));
        true
    } else {
        let bl = blocked_by(bits0);
        assert(in_arc(adj0, v, x, a.weight as int));
        let w0 = choose|w0: int| w0 <= a.weight && #[trigger] out_arc(adj0, none_blocked(), x, v, w0);
        let i0 = choose|i0: int|
            0 <= i0 < adj0[x].len() && (#[trigger] adj0[x][i0]).dir && adj0[x][i0].target == v && adj0[x][i0].weight == w0
                && !none_blocked()(v);
        assert(out_arc(adj0, bl, x, v, w0));
        assert(out_arc(adj0, bl, v, y, b.weight as int));
        lemma_trivial_walk(adj0, bl, x);
        lemma_extend_walk(adj0, bl, x, x, v, 0, w0);
        lemma_extend_walk(adj0, bl, x, v, y, w0, b.weight as int);
        lemma_distance_exists(adj0, bl, x, y, w0 + b.weight);
        let d0 = choose|d: int| d <= w0 + b.weight && #[trigger] is_distance(adj0, bl, x, y, d);
        if d0 >= a.weight + b.weight {
            assert(qualifies(adj0, bits0, a, b));
        }
        assert(reaches_with(adj0, bl, x, y, d0));
        false
    }
}

/// The weight of a walk, around its `j`-th node.
proof fn lemma_weight_parts(ws: Seq<int>, j: int)
    requires
        1 <= j < ws.len(),
    ensures
        weight_sum(ws) == weight_sum(ws.take(j - 1)) + ws[j - 1] + ws[j] + weight_sum(ws.skip(j + 1)),
        weight_sum(ws.take(j)) == weight_sum(ws.take(j - 1)) + ws[j - 1],
{
    let mid = seq![ws[j - 1], ws[j]];
    assert(ws =~= ws.take(j - 1) + mid + ws.skip(j + 1));
    lemma_weight_sum_concat(ws.take(j - 1) + mid, ws.skip(j + 1));
    lemma_weight_sum_concat(ws.take(j - 1), mid);
    assert(mid.drop_last() =~= seq![ws[j - 1]]);
    assert(seq![ws[j - 1]].drop_last() =~= Seq::<int>::empty());
    assert(weight_sum(Seq::<int>::empty()) == 0);
    assert(weight_sum(seq![ws[j - 1]]) == ws[j - 1]);
    assert(mid.last() == ws[j]);
    assert(weight_sum(mid) == ws[j - 1] + ws[j]);
    assert(ws.take(j).drop_last() =~= ws.take(j - 1));
    assert(ws.take(j).last() == ws[j - 1]);
}

/// The first node of `p`, from the `i`-th on, that the round contracts.
proof fn lemma_first_planned(results: Seq<(usize, Seq<Shortcut>)>, p: Seq<int>, i: int) -> (j: int)
    requires
        1 <= i <= p.len(),
        exists|k: int| i <= k < p.len() && #[trigger] planned(results, p[k]),
    ensures
        i <= j < p.len(),
        planned(results, p[j]),
        forall|k: int| i <= k < j ==> !#[trigger] planned(results, p[k]),
    decreases p.len() - i,
{
    if planned(results, p[i]) {
        i
    } else {
        assert(exists|k: int| i + 1 <= k < p.len() && #[trigger] planned(results, p[k])) by {
            let k = choose|k: int| i <= k < p.len() && #[trigger] planned(results, p[k]);
            assert(k != i);
        }
        lemma_first_planned(results, p, i + 1)
    }
}

/// Before a round, a walk between two nodes that the round leaves, avoiding
/// the nodes contracted before, is matched after the round by a walk no
/// heavier that avoids the contracted nodes.
#[verifier::rlimit(100)]
#[verifier::spinoff_prover]
proof fn lemma_walk_after(
    adj0: Seq<Seq<Edge>>,
    a2: Seq<Seq<Edge>>,
    bits0: Seq<bool>,
    bits2: Seq<bool>,
    results: Seq<(usize, Seq<Shortcut>)>,
    p: Seq<int>,
    ws: Seq<int>,
)
    requires
        paired(adj0),
        targets_in_range(adj0),
        bits0.len() >= adj0.len(),
        grows(adj0, a2),
        origin(adj0, a2, results),
        forall|k: int, j: int|
            0 <= k < results.len() && 0 <= j < results[k].1.len() ==> has_edge_for(a2, #[trigger] results[k].1[j]),
        results_apart(adj0, bits0, results),
        forall|x: int| 0 <= x < adj0.len() ==> #[trigger] bits2[x] == (bits0[x] || planned(results, x)),
        forall|k: int| 0 <= k < results.len() ==> fits_at(a2, #[trigger] results[k].0 as int),
        is_walk(adj0, blocked_by(bits0), p, ws),
        0 <= p[0] < adj0.len(),
        !bits2[p[0]],
        !bits2[p.last()],
    ensures
        exists|d: int| d <= weight_sum(ws) && #[trigger] reaches_with(a2, blocked_by(bits2), p[0], p.last(), d),
    decreases weight_sum(ws), ws.len(),
{
    let bl0 = blocked_by(bits0);
    let bl2 = blocked_by(bits2);
    let n = adj0.len();
    lemma_nonneg(adj0, bl0, p, ws);
    assert forall|i: int| 1 <= i < p.len() implies 0 <= #[trigger] p[i] < n && !bits0[p[i]] by {
        let k = i - 1;
        assert(out_arc(adj0, bl0, p[k], p[k + 1], ws[k]));
        let e = choose|e: int| 0 <= e < adj0[p[k]].len() && (#[trigger] adj0[p[k]][e]).dir && adj0[p[k]][e].target == p[k + 1]
            && adj0[p[k]][e].weight == ws[k] && !bl0(p[k + 1]);
        assert(adj0[p[k]][e].target < n);
    }
    if exists|k: int| 1 <= k < p.len() && #[trigger] planned(results, p[k]) {
        let j = lemma_first_planned(results, p, 1);
        let v = p[j];
        let kv = choose|k: int| 0 <= k < results.len() && #[trigger] results[k].0 == v;
        assert(j < p.len() - 1) by {
            if j == p.len() - 1 {
                assert(bits2[p.last()]);
            }
        }
        let x = p[j - 1];
        let y = p[j + 1];
        let w1 = ws[j - 1];
        let w2 = ws[j];
        assert(!planned(results, x) && !bits0[x]) by {
            if j - 1 == 0 {
                assert(!bits2[p[0]]);
            }
        }
        assert(!bits0[y]);
        lemma_weight_parts(ws, j);
        lemma_split_walk(adj0, bl0, p, ws, j - 1);
        lemma_split_walk(adj0, bl0, p, ws, j);
        lemma_split_walk(adj0, bl0, p, ws, j + 1);
        let pre_p = p.take(j);
        let pre_w = ws.take(j - 1);
        let suf_p = p.skip(j + 1);
        let suf_w = ws.skip(j + 1);
        lemma_nonneg(adj0, bl0, pre_p, pre_w);
        lemma_nonneg(adj0, bl0, suf_p, suf_w);
        assert(out_arc(adj0, bl0, p[j - 1], p[j], ws[j - 1]));
        assert(out_arc(adj0, bl0, p[j], p[j + 1], ws[j]));
        assert(w1 >= 0 && w2 >= 0);
        if y == v {
            // an edge from `v` to itself: leave it out
            let lp = p.take(j + 1);
            let lw = ws.take(j);
            lemma_join(adj0, bl0, lp, lw, suf_p, suf_w);
            let np = lp + suf_p.drop_first();
            let nw = lw + suf_w;
            assert(np[0] == p[0] && np.last() == p.last());
            lemma_nonneg(adj0, bl0, np, nw);
            lemma_walk_after(adj0, a2, bits0, bits2, results, np, nw);
        } else if y == x {
            // a detour from `x` to `v` and back: leave it out
            lemma_join(adj0, bl0, pre_p, pre_w, suf_p, suf_w);
            let np = pre_p + suf_p.drop_first();
            let nw = pre_w + suf_w;
            assert(np[0] == p[0] && np.last() == p.last());
            lemma_nonneg(adj0, bl0, np, nw);
            lemma_walk_after(adj0, a2, bits0, bits2, results, np, nw);
        } else {
            assert(!planned(results, y)) by {
                if planned(results, y) {
                    let q = choose|q: int| 0 <= q < results.len() && #[trigger] results[q].0 == y;
                    let e = choose|e: int| 0 <= e < adj0[v].len() && (#[trigger] adj0[v][e]).dir && adj0[v][e].target == y
                        && adj0[v][e].weight == w2 && !bl0(y);
                    assert(adj0[results[kv].0 as int][e].target != results[q].0);
                }
            }
            assert(!bits2[y]);
            let i1 = choose|e: int| 0 <= e < adj0[x].len() && (#[trigger] adj0[x][e]).dir && adj0[x][e].target == v
                && adj0[x][e].weight == w1 && !bl0(v);
            assert(out_arc(adj0, none_blocked(), x, v, w1));
            let i2 = choose|e: int| 0 <= e < adj0[v].len() && (#[trigger] adj0[v][e]).dir && adj0[v][e].target == y
                && adj0[v][e].weight == w2 && !bl0(y);
            assert(out_arc(adj0, none_blocked(), v, y, w2));
            let short = lemma_segment(adj0, a2, bits0, results, kv, x, y, w1, w2);
            if short {
                assert forall|i: int| 1 <= i < pre_p.len() implies !bits2[#[trigger] pre_p[i]] by {
                    assert(pre_p[i] == p[i]);
                    assert(!planned(results, p[i]));
                }
                lemma_grown_walk(adj0, a2, bits0, bits2, pre_p, pre_w);
                let d1 = choose|d: int| d <= weight_sum(pre_w) && #[trigger] reaches_with(a2, bl2, pre_p[0], pre_p.last(), d);
                let w3 = choose|w3: int| w3 <= w1 + w2 && #[trigger] out_arc(a2, none_blocked(), x, y, w3);
                let e3 = choose|e: int| 0 <= e < a2[x].len() && (#[trigger] a2[x][e]).dir && a2[x][e].target == y
                    && a2[x][e].weight == w3 && !none_blocked()(y);
                assert(out_arc(a2, bl2, x, y, w3));
                lemma_extend_walk(a2, bl2, p[0], x, y, d1, w3);
                assert(suf_p[0] == y && suf_p.last() == p.last());
                lemma_walk_after(adj0, a2, bits0, bits2, results, suf_p, suf_w);
                let d3 = choose|d: int| d <= weight_sum(suf_w) && #[trigger] reaches_with(a2, bl2, suf_p[0], suf_p.last(), d);
                lemma_concat_walk(a2, bl2, p[0], y, p.last(), d1 + w3, d3);
            } else {
                let d = choose|d: int| d < w1 + w2 && #[trigger] reaches_with(adj0, bl0, x, y, d);
                let (q, qs) = choose|q: Seq<int>, qs: Seq<int>| #[trigger] walk_between(adj0, bl0, x, y, q, qs) && weight_sum(qs) == d;
                lemma_join(adj0, bl0, pre_p, pre_w, q, qs);
                let mp = pre_p + q.drop_first();
                let mw = pre_w + qs;
                lemma_join(adj0, bl0, mp, mw, suf_p, suf_w);
                let np = mp + suf_p.drop_first();
                let nw = mw + suf_w;
                assert(np[0] == p[0] && np.last() == p.last());
                lemma_nonneg(adj0, bl0, np, nw);
                assert(weight_sum(nw) < weight_sum(ws));
                lemma_walk_after(adj0, a2, bits0, bits2, results, np, nw);
            }
        }
    } else {
        assert forall|i: int| 1 <= i < p.len() implies !bits2[#[trigger] p[i]] by {
            assert(!planned(results, p[i]));
        }
        lemma_grown_walk(adj0, a2, bits0, bits2, p, ws);
    }
}

/// One round of contraction keeps the distances among the nodes it leaves:
/// between two nodes that are not contracted after the round, a walk that
/// avoids the contracted nodes weighs `d` at its lightest after the round
/// exactly when a walk that avoids the nodes contracted before weighs `d`
/// at its lightest before it, and there is such a walk after the round
/// exactly when there is one before. This holds for any paired graph,
/// whatever its weights, edges from a node to itself included, wherever the
/// edges at the contracted nodes combine without overflow after the round.
pub proof fn lemma_round_keeps_distances(
    adj0: Seq<Seq<Edge>>,
    nodes0: Seq<Node>,
    c0: i32,
    bits0: Seq<bool>,
    set: Seq<(isize, usize)>,
    level: u16,
    u: int,
    w: int,
    d: int,
)
    requires
        paired(adj0),
        targets_in_range(adj0),
        adj0.len() <= u64::MAX,
        bits0.len() >= adj0.len(),
        nodes0.len() == adj0.len(),
        round_apart(adj0, bits0, set),
        ({
            let r = contraction_round(adj0, nodes0, c0, bits0, planned_shortcuts(adj0, bits0, set), level);
            &&& forall|p: int| 0 <= p < set.len() ==> #[trigger] fits_at(r.0, set[p].1 as int)
            &&& 0 <= u < adj0.len() && 0 <= w < adj0.len()
            &&& !r.3[u] && !r.3[w]
        }),
    ensures
        ({
            let r = contraction_round(adj0, nodes0, c0, bits0, planned_shortcuts(adj0, bits0, set), level);
            &&& is_distance(adj0, blocked_by(bits0), u, w, d) <==> is_distance(r.0, blocked_by(r.3), u, w, d)
            &&& (exists|x: int| #[trigger] reaches_with(adj0, blocked_by(bits0), u, w, x)) <==> (exists|x: int|
                #[trigger] reaches_with(r.0, blocked_by(r.3), u, w, x))
        }),
{
    let plan = planned_shortcuts(adj0, bits0, set);
    let si = ids(set);
    assert forall|k: int| 0 <= k < plan.len() implies (#[trigger] plan[k]).0 < adj0.len() && !bits0[plan[k].0 as int]
        && plan[k].1 == node_shortcuts(adj0, bits0, plan[k].0 as int) by {
        assert(plan[k].0 == set[k].1);
    }
    assert forall|p: int, q: int, i: int|
        0 <= p < plan.len() && 0 <= q < plan.len() && plan[p].0 != plan[q].0 && 0 <= i < adj0[plan[p].0 as int].len() implies (
        #[trigger] adj0[plan[p].0 as int][i]).target != #[trigger] plan[q].0 by {
        assert(plan[p].0 == si[p] && plan[q].0 == si[q]);
        assert(adj0[si[p] as int][i].target != si[q]);
    }
    assert(results_apart(adj0, bits0, plan));
    lemma_round_origin(adj0, nodes0, c0, bits0, plan, level);
    lemma_round_slots(adj0, nodes0, c0, bits0, plan, level);
    let r = contraction_round(adj0, nodes0, c0, bits0, plan, level);
    let a2 = r.0;
    let bits2 = r.3;
    let bl0 = blocked_by(bits0);
    let bl2 = blocked_by(bits2);
    assert forall|k: int| 0 <= k < plan.len() implies fits_at(a2, #[trigger] plan[k].0 as int) by {
        assert(plan[k].0 == set[k].1);
    }
    assert forall|x: int| 0 <= x < adj0.len() implies #[trigger] bits2[x] == (bits0[x] || planned(plan, x)) by {}
    assert forall|x: int| 0 <= x < adj0.len() && !#[trigger] bits2[x] implies !bits0[x] by {}
    // every walk after the round is matched before it, and the other way
    assert forall|q: Seq<int>, qs: Seq<int>| #[trigger] walk_between(a2, bl2, u, w, q, qs) implies exists|e: int|
        e <= weight_sum(qs) && #[trigger] reaches_with(adj0, bl0, u, w, e) by {
        lemma_walk_before(adj0, a2, bits0, bits2, plan, q, qs);
    }
    assert forall|q: Seq<int>, qs: Seq<int>| #[trigger] walk_between(adj0, bl0, u, w, q, qs) implies exists|e: int|
        e <= weight_sum(qs) && #[trigger] reaches_with(a2, bl2, u, w, e) by {
        lemma_walk_after(adj0, a2, bits0, bits2, plan, q, qs);
    }
    if is_distance(adj0, bl0, u, w, d) {
        let (q, qs) = choose|q: Seq<int>, qs: Seq<int>| #[trigger] walk_between(adj0, bl0, u, w, q, qs) && weight_sum(qs) == d;
        let e = choose|e: int| e <= weight_sum(qs) && #[trigger] reaches_with(a2, bl2, u, w, e);
        let (q2, qs2) = choose|q2: Seq<int>, qs2: Seq<int>| #[trigger] walk_between(a2, bl2, u, w, q2, qs2) && weight_sum(qs2) == e;
        let e2 = choose|e2: int| e2 <= weight_sum(qs2) && #[trigger] reaches_with(adj0, bl0, u, w, e2);
        let (q3, qs3) = choose|q3: Seq<int>, qs3: Seq<int>| #[trigger] walk_between(adj0, bl0, u, w, q3, qs3) && weight_sum(qs3) == e2;
        assert(e == d);
        assert forall|q4: Seq<int>, qs4: Seq<int>| #[trigger] walk_between(a2, bl2, u, w, q4, qs4) implies weight_sum(qs4) >= d by {
            let e4 = choose|e4: int| e4 <= weight_sum(qs4) && #[trigger] reaches_with(adj0, bl0, u, w, e4);
            let (q5, qs5) = choose|q5: Seq<int>, qs5: Seq<int>| #[trigger] walk_between(adj0, bl0, u, w, q5, qs5) && weight_sum(qs5) == e4;
        }
        assert(is_distance(a2, bl2, u, w, d));
    }
    if is_distance(a2, bl2, u, w, d) {
        let (q, qs) = choose|q: Seq<int>, qs: Seq<int>| #[trigger] walk_between(a2, bl2, u, w, q, qs) && weight_sum(qs) == d;
        let e = choose|e: int| e <= weight_sum(qs) && #[trigger] reaches_with(adj0, bl0, u, w, e);
        let (q2, qs2) = choose|q2: Seq<int>, qs2: Seq<int>| #[trigger] walk_between(adj0, bl0, u, w, q2, qs2) && weight_sum(qs2) == e;
        let e2 = choose|e2: int| e2 <= weight_sum(qs2) && #[trigger] reaches_with(a2, bl2, u, w, e2);
        let (q3, qs3) = choose|q3: Seq<int>, qs3: Seq<int>| #[trigger] walk_between(a2, bl2, u, w, q3, qs3) && weight_sum(qs3) == e2;
        assert(e == d);
        assert forall|q4: Seq<int>, qs4: Seq<int>| #[trigger] walk_between(adj0, bl0, u, w, q4, qs4) implies weight_sum(qs4) >= d by {
            let e4 = choose|e4: int| e4 <= weight_sum(qs4) && #[trigger] reaches_with(a2, bl2, u, w, e4);
            let (q5, qs5) = choose|q5: Seq<int>, qs5: Seq<int>| #[trigger] walk_between(a2, bl2, u, w, q5, qs5) && weight_sum(qs5) == e4;
        }
        assert(is_distance(adj0, bl0, u, w, d));
    }
    if exists|x: int| #[trigger] reaches_with(adj0, bl0, u, w, x) {
        let x = choose|x: int| #[trigger] reaches_with(adj0, bl0, u, w, x);
        let (q, qs) = choose|q: Seq<int>, qs: Seq<int>| #[trigger] walk_between(adj0, bl0, u, w, q, qs) && weight_sum(qs) == x;
        let e = choose|e: int| e <= weight_sum(qs) && #[trigger] reaches_with(a2, bl2, u, w, e);
    }
    if exists|x: int| #[trigger] reaches_with(a2, bl2, u, w, x) {
        let x = choose|x: int| #[trigger] reaches_with(a2, bl2, u, w, x);
        let (q, qs) = choose|q: Seq<int>, qs: Seq<int>| #[trigger] walk_between(a2, bl2, u, w, q, qs) && weight_sum(qs) == x;
        let e = choose|e: int| e <= weight_sum(qs) && #[trigger] reaches_with(adj0, bl0, u, w, e);
    }
}

} // verus!
