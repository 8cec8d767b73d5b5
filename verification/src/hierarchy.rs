//! What a contraction-hierarchy query keeps true while it searches, and why
//! it finds a lightest walk when the hierarchy offers one that climbs and
//! then descends.
use vstd::prelude::*;
use crate::dijkstra::Distance;
use crate::graph::{Edge, Node};
use crate::paths::{
    back_reaches_with, back_walk_between, in_arc, is_back_walk, is_distance, is_walk,
    lemma_back_walk_forward, lemma_concat_walk, lemma_extend_back_walk, lemma_extend_walk,
    lemma_prefix_weight, lemma_split_back_walk, lemma_split_walk, lemma_trivial_walk, none_blocked,
    no_lighter_walk, out_arc, paired, reaches_with, targets_in_range, walk_between, weight_sum,
};

verus! {

/// `d` is the weight of a lightest backward walk from `t` to `x`.
pub open spec fn is_back_distance(adj: Seq<Seq<Edge>>, t: int, x: int, d: int) -> bool {
    &&& back_reaches_with(adj, t, x, d)
    &&& forall|p: Seq<int>, ws: Seq<int>| #[trigger]
        back_walk_between(adj, t, x, p, ws) ==> weight_sum(ws) >= d
}

/// `d` is the weight of a lightest walk from `root` to `x` in the direction
/// of the search: forward from the source, backward from the target.
pub open spec fn side_distance(adj: Seq<Seq<Edge>>, forward: bool, root: int, x: int, d: int) -> bool {
    if forward {
        is_distance(adj, none_blocked(), root, x, d)
    } else {
        is_back_distance(adj, root, x, d)
    }
}

/// `d` is the weight of some walk from `root` to `x` in the direction of the search.
pub open spec fn side_walk(adj: Seq<Seq<Edge>>, forward: bool, root: int, x: int, d: int) -> bool {
    if forward {
        reaches_with(adj, none_blocked(), root, x, d)
    } else {
        back_reaches_with(adj, root, x, d)
    }
}

/// Every edge of the search's direction that leaves `x` for a higher node
/// has been relaxed from `d`, unless the sum reaches `usize::MAX`.
pub open spec fn up_relaxed(
    adj: Seq<Seq<Edge>>,
    nodes: Seq<Node>,
    forward: bool,
    dist: Seq<Option<usize>>,
    x: int,
    d: int,
) -> bool {
    forall|i: int|
        0 <= i < adj[x].len() && (#[trigger] adj[x][i]).dir == forward && nodes[x].level
            < nodes[adj[x][i].target as int].level && d + adj[x][i].weight < usize::MAX ==> dist[adj[x][i].target as int] is Some
            && dist[adj[x][i].target as int].unwrap() <= d + adj[x][i].weight
}

/// Each recorded distance is the weight of a walk from the root.
pub open spec fn dists_valid(adj: Seq<Seq<Edge>>, forward: bool, root: int, dist: Seq<Option<usize>>) -> bool {
    forall|x: int|
        0 <= x < dist.len() && (#[trigger] dist[x]) is Some ==> side_walk(adj, forward, root, x, dist[x].unwrap() as int)
}

/// Each waiting entry weighs no less than the distance recorded for its node.
pub open spec fn keys_above(dist: Seq<Option<usize>>, q: Seq<Distance>) -> bool {
    forall|k: int|
        0 <= k < q.len() ==> (#[trigger] q[k]).id < dist.len() && dist[q[k].id as int] is Some
            && dist[q[k].id as int].unwrap() <= q[k].weight
}

/// A visited node's recorded distance is no more than any waiting weight.
pub open spec fn settled_below(dist: Seq<Option<usize>>, q: Seq<Distance>, vis: Seq<usize>) -> bool {
    forall|j: int, k: int|
        0 <= j < vis.len() && 0 <= k < q.len() ==> (#[trigger] vis[j]) < dist.len() && dist[vis[j] as int] is Some
            && dist[vis[j] as int].unwrap() <= (#[trigger] q[k]).weight
}

/// Every node whose recorded distance is a lightest one, and no more than
/// `best`, is still waiting with that weight or has been visited with its
/// upward edges relaxed.
pub open spec fn frontier_ok(
    adj: Seq<Seq<Edge>>,
    nodes: Seq<Node>,
    forward: bool,
    root: int,
    dist: Seq<Option<usize>>,
    q: Seq<Distance>,
    vis: Seq<usize>,
    best: int,
) -> bool {
    forall|x: int|
        0 <= x < dist.len() && (#[trigger] dist[x]) is Some && side_distance(adj, forward, root, x, dist[x].unwrap() as int)
            && dist[x].unwrap() <= best ==> q.contains(Distance { weight: dist[x].unwrap(), id: x as usize }) || (
        vis.contains(x as usize) && up_relaxed(adj, nodes, forward, dist, x, dist[x].unwrap() as int))
}

/// Every node visited from both sides has had its meeting counted in `best`.
pub open spec fn meetings_ok(
    d1: Seq<Option<usize>>,
    v1: Seq<usize>,
    d2: Seq<Option<usize>>,
    v2: Seq<usize>,
    best: int,
) -> bool {
    forall|x: usize|
        #![trigger v1.contains(x), v2.contains(x)]
        v1.contains(x) && v2.contains(x) && d1[x as int] is Some && d2[x as int] is Some
            && d1[x as int].unwrap() + d2[x as int].unwrap() <= usize::MAX ==> best <= d1[x as int].unwrap()
            + d2[x as int].unwrap()
}

/// `d2` records a distance wherever `d1` does, and never a larger one.
pub open spec fn dist_le(d2: Seq<Option<usize>>, d1: Seq<Option<usize>>) -> bool {
    &&& d2.len() == d1.len()
    &&& forall|x: int|
        0 <= x < d1.len() && (#[trigger] d1[x]) is Some ==> d2[x] is Some && d2[x].unwrap() <= d1[x].unwrap()
}

pub proof fn lemma_meetings_swap(
    d1: Seq<Option<usize>>,
    v1: Seq<usize>,
    d2: Seq<Option<usize>>,
    v2: Seq<usize>,
    best: int,
)
    ensures
        meetings_ok(d1, v1, d2, v2, best) == meetings_ok(d2, v2, d1, v1, best),
{
}

/// Relaxed edges stay relaxed when distances only shrink.
pub proof fn lemma_up_relaxed_mono(
    adj: Seq<Seq<Edge>>,
    nodes: Seq<Node>,
    forward: bool,
    d1: Seq<Option<usize>>,
    d2: Seq<Option<usize>>,
    x: int,
    d: int,
)
    requires
        up_relaxed(adj, nodes, forward, d1, x, d),
        dist_le(d2, d1),
        forall|i: int| 0 <= i < adj[x].len() ==> 0 <= (#[trigger] adj[x][i]).target < d1.len(),
    ensures
        up_relaxed(adj, nodes, forward, d2, x, d),
{
    assert forall|i: int|
        0 <= i < adj[x].len() && (#[trigger] adj[x][i]).dir == forward && nodes[x].level
            < nodes[adj[x][i].target as int].level && d + adj[x][i].weight < usize::MAX implies d2[adj[x][i].target as int] is Some
            && d2[adj[x][i].target as int].unwrap() <= d + adj[x][i].weight by {
        let v = adj[x][i].target as int;
        assert(d1[v] is Some);
    }
}

/// A node that a walk from a higher neighbour reaches more cheaply than `du`
/// is not at distance `du` from the root.
pub proof fn lemma_stalled_not_lightest(
    adj: Seq<Seq<Edge>>,
    forward: bool,
    root: int,
    dist: Seq<Option<usize>>,
    u: int,
    i: int,
    du: int,
)
    requires
        paired(adj),
        dists_valid(adj, forward, root, dist),
        0 <= u < adj.len(),
        0 <= i < adj[u].len(),
        adj[u][i].dir != forward,
        0 <= adj[u][i].target < dist.len(),
        dist[adj[u][i].target as int] is Some,
        dist[adj[u][i].target as int].unwrap() + adj[u][i].weight < du,
    ensures
        !side_distance(adj, forward, root, u, du),
{
    let e = adj[u][i];
    let v = e.target as int;
    let dv = dist[v].unwrap() as int;
    assert(side_walk(adj, forward, root, v, dv));
    if forward {
        assert(in_arc(adj, u, v, e.weight as int));
        let w2 = choose|w2: int| w2 <= e.weight && #[trigger] out_arc(adj, none_blocked(), v, u, w2);
        lemma_extend_walk(adj, none_blocked(), root, v, u, dv, w2);
        if is_distance(adj, none_blocked(), root, u, du) {
            let (p, ws) = choose|p: Seq<int>, ws: Seq<int>|
                #[trigger] crate::paths::walk_between(adj, none_blocked(), root, u, p, ws) && weight_sum(ws) == dv + w2;
            assert(no_lighter_walk(adj, none_blocked(), root, u, du));
        }
    } else {
        assert(out_arc(adj, none_blocked(), u, v, e.weight as int));
        let w2 = choose|w2: int| w2 <= e.weight && #[trigger] in_arc(adj, v, u, w2);
        lemma_extend_back_walk(adj, root, v, u, dv, w2);
        if is_back_distance(adj, root, u, du) {
            let (p, ws) = choose|p: Seq<int>, ws: Seq<int>|
                #[trigger] back_walk_between(adj, root, u, p, ws) && weight_sum(ws) == dv + w2;
        }
    }
}


/// The levels rise from the `j`-th node of `p` to the next.
pub open spec fn step_up(nodes: Seq<Node>, p: Seq<int>, j: int) -> bool {
    nodes[p[j]].level < nodes[p[j + 1]].level
}

/// The levels rise all along `p`.
pub open spec fn climbs(nodes: Seq<Node>, p: Seq<int>) -> bool {
    forall|j: int| 0 <= j < p.len() - 1 ==> #[trigger] step_up(nodes, p, j)
}

/// A walk forward from `s` and a walk backward from `t`, both climbing,
/// that end at the same node.
pub open spec fn up_down_witness(
    adj: Seq<Seq<Edge>>,
    nodes: Seq<Node>,
    s: int,
    t: int,
    pf: Seq<int>,
    wf: Seq<int>,
    pb: Seq<int>,
    wb: Seq<int>,
) -> bool {
    &&& walk_between(adj, none_blocked(), s, pf.last(), pf, wf)
    &&& back_walk_between(adj, t, pb.last(), pb, wb)
    &&& pf.last() == pb.last()
    &&& climbs(nodes, pf)
    &&& climbs(nodes, pb)
}

/// The hierarchy offers a walk from `s` to `t` of weight `d` that climbs and
/// then descends: a forward walk from `s` that only climbs, up to some node,
/// followed by the reverse of a backward walk from `t` that only climbs up to
/// the same node.
pub open spec fn up_down(adj: Seq<Seq<Edge>>, nodes: Seq<Node>, s: int, t: int, d: int) -> bool {
    exists|pf: Seq<int>, wf: Seq<int>, pb: Seq<int>, wb: Seq<int>|
        #[trigger] up_down_witness(adj, nodes, s, t, pf, wf, pb, wb) && weight_sum(wf) + weight_sum(wb) == d
}

proof fn lemma_walk_nonneg(adj: Seq<Seq<Edge>>, p: Seq<int>, ws: Seq<int>)
    requires
        is_walk(adj, none_blocked(), p, ws),
    ensures
        weight_sum(ws) >= 0,
{
    lemma_prefix_weight(adj, none_blocked(), p, ws, ws.len() as int, ws.len() as int);
    assert(ws.take(ws.len() as int) =~= ws);
}

proof fn lemma_back_walk_nonneg(adj: Seq<Seq<Edge>>, p: Seq<int>, ws: Seq<int>)
    requires
        is_back_walk(adj, p, ws),
    ensures
        weight_sum(ws) >= 0,
    decreases ws.len(),
{
    if ws.len() > 0 {
        let k = ws.len() - 1;
        assert(in_arc(adj, p[k], p[k + 1], ws[k]));
        let p0 = p.drop_last();
        let ws0 = ws.drop_last();
        assert forall|j: int| 0 <= j < ws0.len() implies #[trigger] in_arc(adj, p0[j], p0[j + 1], ws0[j]) by {
            assert(in_arc(adj, p[j], p[j + 1], ws[j]));
        }
        lemma_back_walk_nonneg(adj, p0, ws0);
    }
}

/// In a paired graph, a forward walk to `m` and a backward walk from `t` to
/// `m` make a walk from `s` to `t` that weighs no more than the two together.
pub proof fn lemma_meeting_walk(adj: Seq<Seq<Edge>>, s: int, t: int, m: int, a: int, c: int)
    requires
        paired(adj),
        reaches_with(adj, none_blocked(), s, m, a),
        back_reaches_with(adj, t, m, c),
    ensures
        exists|d: int| d <= a + c && #[trigger] reaches_with(adj, none_blocked(), s, t, d),
{
    let (p, ws) = choose|p: Seq<int>, ws: Seq<int>|
        #[trigger] back_walk_between(adj, t, m, p, ws) && weight_sum(ws) == c;
    lemma_back_walk_forward(adj, p, ws);
    let c2 = choose|c2: int| c2 <= weight_sum(ws) && #[trigger] reaches_with(adj, none_blocked(), p.last(), p[0], c2);
    lemma_concat_walk(adj, none_blocked(), s, m, t, a, c2);
}

/// A best meeting found by a search is no lighter than a lightest walk.
pub proof fn lemma_meeting_at_least(adj: Seq<Seq<Edge>>, s: int, t: int, dd: int, m: int, a: int, c: int)
    requires
        paired(adj),
        no_lighter_walk(adj, none_blocked(), s, t, dd),
        reaches_with(adj, none_blocked(), s, m, a),
        back_reaches_with(adj, t, m, c),
    ensures
        a + c >= dd,
{
    lemma_meeting_walk(adj, s, t, m, a, c);
    let d = choose|d: int| d <= a + c && #[trigger] reaches_with(adj, none_blocked(), s, t, d);
    let (q, qs) = choose|q: Seq<int>, qs: Seq<int>|
        #[trigger] walk_between(adj, none_blocked(), s, t, q, qs) && weight_sum(qs) == d;
}

/// On a lightest climbing-then-descending walk, the forward part up to its
/// `j`-th node is a lightest walk from `s` to that node.
proof fn lemma_forward_prefix_lightest(
    adj: Seq<Seq<Edge>>,
    nodes: Seq<Node>,
    s: int,
    t: int,
    dd: int,
    pf: Seq<int>,
    wf: Seq<int>,
    pb: Seq<int>,
    wb: Seq<int>,
    j: int,
)
    requires
        paired(adj),
        is_distance(adj, none_blocked(), s, t, dd),
        up_down_witness(adj, nodes, s, t, pf, wf, pb, wb),
        weight_sum(wf) + weight_sum(wb) == dd,
        0 <= j <= wf.len(),
    ensures
        is_distance(adj, none_blocked(), s, pf[j], weight_sum(wf.take(j))),
        weight_sum(wf.take(j)) <= dd,
{
    let ws = wf;
    let m = pf.last();
    lemma_split_walk(adj, none_blocked(), pf, ws, j);
    let pre = weight_sum(ws.take(j));
    let suf = weight_sum(ws.skip(j));
    assert(reaches_with(adj, none_blocked(), s, pf[j], pre)) by {
        assert(walk_between(adj, none_blocked(), s, pf[j], pf.take(j + 1), ws.take(j)));
    }
    lemma_back_walk_forward(adj, pb, wb);
    let c2 = choose|c2: int| c2 <= weight_sum(wb) && #[trigger] reaches_with(adj, none_blocked(), pb.last(), pb[0], c2);
    lemma_back_walk_nonneg(adj, pb, wb);
    lemma_walk_nonneg(adj, pf.skip(j), ws.skip(j));
    assert forall|p: Seq<int>, qs: Seq<int>| #[trigger] walk_between(adj, none_blocked(), s, pf[j], p, qs) implies weight_sum(qs) >= pre by {
        if weight_sum(qs) < pre {
            assert(reaches_with(adj, none_blocked(), s, pf[j], weight_sum(qs)));
            assert(reaches_with(adj, none_blocked(), pf[j], m, suf)) by {
                assert(walk_between(adj, none_blocked(), pf[j], m, pf.skip(j), ws.skip(j)));
            }
            lemma_concat_walk(adj, none_blocked(), s, pf[j], m, weight_sum(qs), suf);
            lemma_concat_walk(adj, none_blocked(), s, m, t, weight_sum(qs) + suf, c2);
            let (q2, qs2) = choose|q2: Seq<int>, qs2: Seq<int>|
                #[trigger] walk_between(adj, none_blocked(), s, t, q2, qs2) && weight_sum(qs2) == weight_sum(qs) + suf + c2;
        }
    }
}

/// On a lightest climbing-then-descending walk, the backward part up to its
/// `j`-th node is a lightest backward walk from `t` to that node.
proof fn lemma_backward_prefix_lightest(
    adj: Seq<Seq<Edge>>,
    nodes: Seq<Node>,
    s: int,
    t: int,
    dd: int,
    pf: Seq<int>,
    wf: Seq<int>,
    pb: Seq<int>,
    wb: Seq<int>,
    j: int,
)
    requires
        paired(adj),
        is_distance(adj, none_blocked(), s, t, dd),
        up_down_witness(adj, nodes, s, t, pf, wf, pb, wb),
        weight_sum(wf) + weight_sum(wb) == dd,
        0 <= j <= wb.len(),
    ensures
        is_back_distance(adj, t, pb[j], weight_sum(wb.take(j))),
        weight_sum(wb.take(j)) <= dd,
{
    let m = pb.last();
    lemma_split_back_walk(adj, pb, wb, j);
    let pre = weight_sum(wb.take(j));
    let suf = weight_sum(wb.skip(j));
    assert(back_reaches_with(adj, t, pb[j], pre)) by {
        assert(back_walk_between(adj, t, pb[j], pb.take(j + 1), wb.take(j)));
    }
    lemma_walk_nonneg(adj, pf, wf);
    lemma_back_walk_nonneg(adj, pb.take(j + 1), wb.take(j));
    lemma_back_walk_nonneg(adj, pb.skip(j), wb.skip(j));
    lemma_back_walk_forward(adj, pb.skip(j), wb.skip(j));
    let c1 = choose|c1: int| c1 <= suf && #[trigger] reaches_with(adj, none_blocked(), pb.skip(j).last(), pb.skip(j)[0], c1);
    assert(pb.skip(j).last() == m);
    assert(pb.skip(j)[0] == pb[j]);
    assert(reaches_with(adj, none_blocked(), s, m, weight_sum(wf))) by {
        assert(walk_between(adj, none_blocked(), s, m, pf, wf));
    }
    assert forall|p: Seq<int>, qs: Seq<int>| #[trigger] back_walk_between(adj, t, pb[j], p, qs) implies weight_sum(qs) >= pre by {
        if weight_sum(qs) < pre {
            lemma_back_walk_forward(adj, p, qs);
            let c2 = choose|c2: int| c2 <= weight_sum(qs) && #[trigger] reaches_with(adj, none_blocked(), p.last(), p[0], c2);
            lemma_concat_walk(adj, none_blocked(), s, m, pb[j], weight_sum(wf), c1);
            lemma_concat_walk(adj, none_blocked(), s, pb[j], t, weight_sum(wf) + c1, c2);
            let (q2, qs2) = choose|q2: Seq<int>, qs2: Seq<int>|
                #[trigger] walk_between(adj, none_blocked(), s, t, q2, qs2) && weight_sum(qs2) == weight_sum(wf) + c1 + c2;
        }
    }
}


/// When the forward search has run dry, every node of the climbing forward
/// part of a lightest walk has been visited with its lightest distance.
proof fn lemma_forward_part_settled(
    adj: Seq<Seq<Edge>>,
    nodes: Seq<Node>,
    s: int,
    t: int,
    dd: int,
    pf: Seq<int>,
    wf: Seq<int>,
    pb: Seq<int>,
    wb: Seq<int>,
    df: Seq<Option<usize>>,
    vf: Seq<usize>,
    best: int,
    j: int,
)
    requires
        paired(adj),
        targets_in_range(adj),
        nodes.len() == adj.len(),
        df.len() == adj.len(),
        0 <= s < adj.len(),
        is_distance(adj, none_blocked(), s, t, dd),
        dd < usize::MAX,
        dd <= best,
        up_down_witness(adj, nodes, s, t, pf, wf, pb, wb),
        weight_sum(wf) + weight_sum(wb) == dd,
        dists_valid(adj, true, s, df),
        frontier_ok(adj, nodes, true, s, df, Seq::<Distance>::empty(), vf, best),
        df[s] == Some(0usize),
        0 <= j <= wf.len(),
    ensures
        0 <= pf[j] < adj.len(),
        df[pf[j]] is Some,
        df[pf[j]].unwrap() == weight_sum(wf.take(j)),
        vf.contains(pf[j] as usize),
        up_relaxed(adj, nodes, true, df, pf[j], weight_sum(wf.take(j))),
    decreases j,
{
    lemma_forward_prefix_lightest(adj, nodes, s, t, dd, pf, wf, pb, wb, j);
    let x = pf[j];
    let pre = weight_sum(wf.take(j));
    if j == 0 {
        assert(wf.take(0) =~= Seq::<int>::empty());
        assert(x == s);
    } else {
        lemma_forward_part_settled(adj, nodes, s, t, dd, pf, wf, pb, wb, df, vf, best, j - 1);
        let y = pf[j - 1];
        let k = j - 1;
        assert(out_arc(adj, none_blocked(), pf[k], pf[k + 1], wf[k]));
        let i = choose|i: int|
            0 <= i < adj[y].len() && (#[trigger] adj[y][i]).dir && adj[y][i].target == x && adj[y][i].weight == wf[k]
                && !none_blocked()(x);
        assert(step_up(nodes, pf, k));
        assert(wf.take(j).drop_last() =~= wf.take(k));
        assert(pre == weight_sum(wf.take(k)) + wf[k]);
        assert(adj[y][i].target < adj.len());
        assert(df[x] is Some && df[x].unwrap() <= pre);
        assert(side_walk(adj, true, s, x, df[x].unwrap() as int));
        let (q, qs) = choose|q: Seq<int>, qs: Seq<int>|
            #[trigger] walk_between(adj, none_blocked(), s, x, q, qs) && weight_sum(qs) == df[x].unwrap() as int;
        assert(no_lighter_walk(adj, none_blocked(), s, x, pre));
    }
    assert(!Seq::<Distance>::empty().contains(Distance { weight: df[x].unwrap(), id: x as usize }));
}

/// When the backward search has run dry, every node of the climbing
/// backward part of a lightest walk has been visited with its lightest
/// backward distance.
proof fn lemma_backward_part_settled(
    adj: Seq<Seq<Edge>>,
    nodes: Seq<Node>,
    s: int,
    t: int,
    dd: int,
    pf: Seq<int>,
    wf: Seq<int>,
    pb: Seq<int>,
    wb: Seq<int>,
    db: Seq<Option<usize>>,
    vb: Seq<usize>,
    best: int,
    j: int,
)
    requires
        paired(adj),
        targets_in_range(adj),
        nodes.len() == adj.len(),
        db.len() == adj.len(),
        0 <= t < adj.len(),
        is_distance(adj, none_blocked(), s, t, dd),
        dd < usize::MAX,
        dd <= best,
        up_down_witness(adj, nodes, s, t, pf, wf, pb, wb),
        weight_sum(wf) + weight_sum(wb) == dd,
        dists_valid(adj, false, t, db),
        frontier_ok(adj, nodes, false, t, db, Seq::<Distance>::empty(), vb, best),
        db[t] == Some(0usize),
        0 <= j <= wb.len(),
    ensures
        0 <= pb[j] < adj.len(),
        db[pb[j]] is Some,
        db[pb[j]].unwrap() == weight_sum(wb.take(j)),
        vb.contains(pb[j] as usize),
        up_relaxed(adj, nodes, false, db, pb[j], weight_sum(wb.take(j))),
    decreases j,
{
    lemma_backward_prefix_lightest(adj, nodes, s, t, dd, pf, wf, pb, wb, j);
    let x = pb[j];
    let pre = weight_sum(wb.take(j));
    if j == 0 {
        assert(wb.take(0) =~= Seq::<int>::empty());
        assert(x == t);
    } else {
        lemma_backward_part_settled(adj, nodes, s, t, dd, pf, wf, pb, wb, db, vb, best, j - 1);
        let y = pb[j - 1];
        let k = j - 1;
        assert(in_arc(adj, pb[k], pb[k + 1], wb[k]));
        let i = choose|i: int|
            0 <= i < adj[y].len() && !(#[trigger] adj[y][i]).dir && adj[y][i].target == x && adj[y][i].weight == wb[k];
        assert(step_up(nodes, pb, k));
        assert(wb.take(j).drop_last() =~= wb.take(k));
        assert(pre == weight_sum(wb.take(k)) + wb[k]);
        assert(adj[y][i].target < adj.len());
        assert(db[x] is Some && db[x].unwrap() <= pre);
        assert(side_walk(adj, false, t, x, db[x].unwrap() as int));
        let (q, qs) = choose|q: Seq<int>, qs: Seq<int>|
            #[trigger] back_walk_between(adj, t, x, q, qs) && weight_sum(qs) == db[x].unwrap() as int;
    }
    assert(!Seq::<Distance>::empty().contains(Distance { weight: db[x].unwrap(), id: x as usize }));
}

/// Once both directions of a query have run dry, the best meeting is the
/// weight of a lightest walk, provided the hierarchy offers a lightest walk
/// that climbs and then descends.
pub proof fn lemma_query_complete(
    adj: Seq<Seq<Edge>>,
    nodes: Seq<Node>,
    s: int,
    t: int,
    dd: int,
    df: Seq<Option<usize>>,
    vf: Seq<usize>,
    db: Seq<Option<usize>>,
    vb: Seq<usize>,
    best: int,
)
    requires
        paired(adj),
        targets_in_range(adj),
        adj.len() <= usize::MAX,
        nodes.len() == adj.len(),
        df.len() == adj.len(),
        db.len() == adj.len(),
        0 <= s < adj.len(),
        0 <= t < adj.len(),
        is_distance(adj, none_blocked(), s, t, dd),
        dd < usize::MAX,
        dd <= best,
        up_down(adj, nodes, s, t, dd),
        dists_valid(adj, true, s, df),
        dists_valid(adj, false, t, db),
        frontier_ok(adj, nodes, true, s, df, Seq::<Distance>::empty(), vf, best),
        frontier_ok(adj, nodes, false, t, db, Seq::<Distance>::empty(), vb, best),
        df[s] == Some(0usize),
        db[t] == Some(0usize),
        meetings_ok(df, vf, db, vb, best),
    ensures
        best == dd,
{
    let (pf, wf, pb, wb) = choose|pf: Seq<int>, wf: Seq<int>, pb: Seq<int>, wb: Seq<int>|
        #[trigger] up_down_witness(adj, nodes, s, t, pf, wf, pb, wb) && weight_sum(wf) + weight_sum(wb) == dd;
    lemma_forward_part_settled(adj, nodes, s, t, dd, pf, wf, pb, wb, df, vf, best, wf.len() as int);
    lemma_backward_part_settled(adj, nodes, s, t, dd, pf, wf, pb, wb, db, vb, best, wb.len() as int);
    assert(wf.take(wf.len() as int) =~= wf);
    assert(wb.take(wb.len() as int) =~= wb);
    let m = pf.last();
    assert(pf[wf.len() as int] == m);
    assert(pb[wb.len() as int] == m);
    let mu = m as usize;
    assert(mu as int == m);
    assert(vf.contains(mu) && vb.contains(mu));
    assert(df[mu as int].unwrap() + db[mu as int].unwrap() == dd);
}


/// Wherever a walk comes down to a node from a higher neighbour and goes up
/// again to another higher neighbour, the graph offers a way between the two
/// higher nodes: an edge no heavier than the two edges, or a lighter walk.
/// Contraction leaves a graph like this.
pub open spec fn bypassed(adj: Seq<Seq<Edge>>, nodes: Seq<Node>) -> bool {
    forall|u: int, v: int, w: int, w1: int, w2: int|
        #![trigger out_arc(adj, none_blocked(), u, v, w1), out_arc(adj, none_blocked(), v, w, w2)]
        out_arc(adj, none_blocked(), u, v, w1) && out_arc(adj, none_blocked(), v, w, w2) && u != w
            && nodes[v].level < nodes[u].level && nodes[v].level < nodes[w].level ==> (exists|w3: int|
            w3 <= w1 + w2 && #[trigger] out_arc(adj, none_blocked(), u, w, w3)) || (exists|d: int|
            d < w1 + w2 && #[trigger] reaches_with(adj, none_blocked(), u, w, d))
}

/// No edge joins two nodes of the same level.
pub open spec fn levels_differ(adj: Seq<Seq<Edge>>, nodes: Seq<Node>) -> bool {
    forall|u: int, v: int, w: int| #[trigger]
        out_arc(adj, none_blocked(), u, v, w) ==> nodes[u].level != nodes[v].level
}

/// Two forward walks, the second starting where the first ends, joined.
proof fn lemma_join_walks(adj: Seq<Seq<Edge>>, p1: Seq<int>, ws1: Seq<int>, p2: Seq<int>, ws2: Seq<int>)
    requires
        is_walk(adj, none_blocked(), p1, ws1),
        is_walk(adj, none_blocked(), p2, ws2),
        p1.last() == p2[0],
    ensures
        is_walk(adj, none_blocked(), p1 + p2.drop_first(), ws1 + ws2),
        (p1 + p2.drop_first())[0] == p1[0],
        (p1 + p2.drop_first()).last() == p2.last(),
        weight_sum(ws1 + ws2) == weight_sum(ws1) + weight_sum(ws2),
{
    let p = p1 + p2.drop_first();
    let ws = ws1 + ws2;
    crate::paths::lemma_weight_sum_concat(ws1, ws2);
    assert forall|j: int| 0 <= j < ws.len() implies #[trigger] out_arc(adj, none_blocked(), p[j], p[j + 1], ws[j]) by {
        if j < ws1.len() {
            assert(out_arc(adj, none_blocked(), p1[j], p1[j + 1], ws1[j]));
        } else {
            let k = j - ws1.len();
            assert(out_arc(adj, none_blocked(), p2[k], p2[k + 1], ws2[k]));
        }
    }
    if p2.len() == 1 {
        assert(p =~= p1);
    }
}

/// A forward walk whose levels fall all along it, walked backward from its
/// end along the partners of its edges: a backward walk that climbs, and
/// weighs no more.
proof fn lemma_descent_reversed(adj: Seq<Seq<Edge>>, nodes: Seq<Node>, p: Seq<int>, ws: Seq<int>)
    requires
        paired(adj),
        is_walk(adj, none_blocked(), p, ws),
        nodes.len() == adj.len(),
        forall|j: int| 0 <= j < ws.len() ==> nodes[p[j + 1]].level < #[trigger] nodes[p[j]].level,
    ensures
        exists|pb: Seq<int>, wb: Seq<int>|
            #[trigger] back_walk_between(adj, p.last(), p[0], pb, wb) && climbs(nodes, pb) && weight_sum(wb)
                <= weight_sum(ws),
    decreases ws.len(),
{
    if ws.len() == 0 {
        let pb = seq![p[0]];
        let wb = Seq::<int>::empty();
        assert(back_walk_between(adj, p.last(), p[0], pb, wb));
        assert(climbs(nodes, pb));
    } else {
        let k = ws.len() - 1;
        let p0 = p.drop_last();
        let ws0 = ws.drop_last();
        assert forall|j: int| 0 <= j < ws0.len() implies #[trigger] out_arc(adj, none_blocked(), p0[j], p0[j + 1], ws0[j]) by {
            assert(out_arc(adj, none_blocked(), p[j], p[j + 1], ws[j]));
        }
        assert forall|j: int| 0 <= j < ws0.len() implies nodes[p0[j + 1]].level < #[trigger] nodes[p0[j]].level by {
            assert(nodes[p[j + 1]].level < nodes[p[j]].level);
        }
        lemma_descent_reversed(adj, nodes, p0, ws0);
        let (pb0, wb0) = choose|pb: Seq<int>, wb: Seq<int>|
            #[trigger] back_walk_between(adj, p0.last(), p0[0], pb, wb) && climbs(nodes, pb) && weight_sum(wb)
                <= weight_sum(ws0);
        assert(out_arc(adj, none_blocked(), p[k], p[k + 1], ws[k]));
        let w2 = choose|w2: int| w2 <= ws[k] && #[trigger] in_arc(adj, p[k + 1], p[k], w2);
        let pb = seq![p[k + 1]] + pb0;
        let wb = seq![w2] + wb0;
        crate::paths::lemma_weight_sum_concat(seq![w2], wb0);
        assert(weight_sum(seq![w2]) == w2) by {
            assert(seq![w2].drop_last() =~= Seq::<int>::empty());
            assert(seq![w2].last() == w2);
            assert(weight_sum(Seq::<int>::empty()) == 0);
        }
        assert(weight_sum(ws) == weight_sum(ws0) + ws[k]);
        assert(p0.last() == p[k]);
        assert forall|j: int| 0 <= j < wb.len() implies #[trigger] in_arc(adj, pb[j], pb[j + 1], wb[j]) by {
            if j > 0 {
                let i = j - 1;
                assert(pb[j] == pb0[i]);
                assert(pb[j + 1] == pb0[i + 1]);
                assert(wb[j] == wb0[i]);
                assert(in_arc(adj, pb0[i], pb0[i + 1], wb0[i]));
            } else {
                assert(pb[1] == pb0[0]);
            }
        }
        assert forall|j: int| 0 <= j < pb.len() - 1 implies #[trigger] step_up(nodes, pb, j) by {
            if j > 0 {
                assert(step_up(nodes, pb0, j - 1));
            } else {
                assert(pb[1] == p[k]);
                assert(nodes[p[k + 1]].level < nodes[p[k]].level);
            }
        }
        assert(pb.last() == pb0.last());
        assert(back_walk_between(adj, p.last(), p[0], pb, wb));
    }
}


/// The `j`-th node of `p` lies lower than both of its neighbours on `p`.
pub open spec fn dips(nodes: Seq<Node>, p: Seq<int>, j: int) -> bool {
    nodes[p[j]].level < nodes[p[j - 1]].level && nodes[p[j]].level < nodes[p[j + 1]].level
}

/// The first step of `p` from `i` on (of the first `k`) that goes down, or `k`.
pub open spec fn first_descent(nodes: Seq<Node>, p: Seq<int>, k: int, i: int) -> int
    decreases k - i,
{
    if i >= k {
        k
    } else if nodes[p[i]].level > nodes[p[i + 1]].level {
        i
    } else {
        first_descent(nodes, p, k, i + 1)
    }
}

proof fn lemma_first_descent(nodes: Seq<Node>, p: Seq<int>, k: int, i: int)
    requires
        0 <= i <= k,
    ensures
        i <= first_descent(nodes, p, k, i) <= k,
        forall|j: int| i <= j < first_descent(nodes, p, k, i) ==> !(nodes[p[j]].level > #[trigger] nodes[p[j + 1]].level),
        first_descent(nodes, p, k, i) < k ==> nodes[p[first_descent(nodes, p, k, i)]].level > nodes[p[first_descent(
            nodes,
            p,
            k,
            i,
        ) + 1]].level,
    decreases k - i,
{
    if i < k && !(nodes[p[i]].level > nodes[p[i + 1]].level) {
        lemma_first_descent(nodes, p, k, i + 1);
    }
}

/// A walk with no dip, whose steps all change level, climbs to a peak and
/// then only descends.
proof fn lemma_no_dip_descends(adj: Seq<Seq<Edge>>, nodes: Seq<Node>, p: Seq<int>, ws: Seq<int>, m: int, j: int)
    requires
        is_walk(adj, none_blocked(), p, ws),
        crate::levels::levels_apart(adj, nodes),
        forall|i: int| 1 <= i < ws.len() ==> !#[trigger] dips(nodes, p, i),
        forall|i: int| 0 <= i < ws.len() ==> #[trigger] p[i] != p[i + 1],
        0 <= m <= j < ws.len(),
        nodes[p[m]].level > nodes[p[m + 1]].level,
    ensures
        nodes[p[j]].level > nodes[p[j + 1]].level,
    decreases j - m,
{
    if j > m {
        lemma_no_dip_descends(adj, nodes, p, ws, m, j - 1);
        assert(out_arc(adj, none_blocked(), p[j], p[j + 1], ws[j]));
        assert(p[j] != p[j + 1]);
        assert(!dips(nodes, p, j));
    }
}

/// A dip of a lightest walk, bypassed: a lightest walk with fewer edges.
proof fn lemma_dip_bypass(
    adj: Seq<Seq<Edge>>,
    nodes: Seq<Node>,
    s: int,
    t: int,
    dd: int,
    p: Seq<int>,
    ws: Seq<int>,
    j: int,
)
    requires
        bypassed(adj, nodes),
        nodes.len() == adj.len(),
        is_distance(adj, none_blocked(), s, t, dd),
        walk_between(adj, none_blocked(), s, t, p, ws),
        weight_sum(ws) == dd,
        1 <= j < ws.len(),
        dips(nodes, p, j),
    ensures
        exists|np: Seq<int>, nw: Seq<int>|
            #[trigger] walk_between(adj, none_blocked(), s, t, np, nw) && weight_sum(nw) == dd && nw.len()
                < ws.len(),
{
    let u = p[j - 1];
    let v = p[j];
    let w = p[j + 1];
    let w1 = ws[j - 1];
    let w2 = ws[j];
    assert(out_arc(adj, none_blocked(), p[j - 1], p[j - 1 + 1], ws[j - 1]));
    assert(out_arc(adj, none_blocked(), p[j], p[j + 1], ws[j]));
    assert(w1 >= 0 && w2 >= 0);
    lemma_split_walk(adj, none_blocked(), p, ws, j - 1);
    lemma_split_walk(adj, none_blocked(), p, ws, j + 1);
    let pre_p = p.take(j);
    let pre_w = ws.take(j - 1);
    let suf_p = p.skip(j + 1);
    let suf_w = ws.skip(j + 1);
    assert(pre_p.last() == u);
    assert(suf_p[0] == w);
    assert(ws.take(j).drop_last() =~= pre_w);
    assert(ws.take(j + 1).drop_last() =~= ws.take(j));
    assert(ws.take(j).last() == w1);
    assert(ws.take(j + 1).last() == w2);
    assert(weight_sum(ws.take(j)) == weight_sum(pre_w) + w1);
    assert(weight_sum(ws.take(j + 1)) == weight_sum(ws.take(j)) + w2);
    let a = weight_sum(pre_w);
    let b = weight_sum(suf_w);
    assert(dd == a + w1 + w2 + b);
    if u == w {
        lemma_join_walks(adj, pre_p, pre_w, suf_p, suf_w);
        let np = pre_p + suf_p.drop_first();
        let nw = pre_w + suf_w;
        assert(walk_between(adj, none_blocked(), s, t, np, nw));
        assert(weight_sum(nw) >= dd);
    } else if exists|w3: int| w3 <= w1 + w2 && #[trigger] out_arc(adj, none_blocked(), u, w, w3) {
        let w3 = choose|w3: int| w3 <= w1 + w2 && #[trigger] out_arc(adj, none_blocked(), u, w, w3);
        let mid_p = seq![u, w];
        let mid_w = seq![w3];
        assert(is_walk(adj, none_blocked(), mid_p, mid_w)) by {
            assert forall|i: int| 0 <= i < mid_w.len() implies #[trigger] out_arc(adj, none_blocked(), mid_p[i], mid_p[i + 1], mid_w[i]) by {
                assert(i == 0);
            }
        }
        assert(weight_sum(mid_w) == w3) by {
            assert(mid_w.drop_last() =~= Seq::<int>::empty());
            assert(weight_sum(Seq::<int>::empty()) == 0);
        }
        lemma_join_walks(adj, pre_p, pre_w, mid_p, mid_w);
        let p1 = pre_p + mid_p.drop_first();
        let w1s = pre_w + mid_w;
        lemma_join_walks(adj, p1, w1s, suf_p, suf_w);
        let np = p1 + suf_p.drop_first();
        let nw = w1s + suf_w;
        assert(walk_between(adj, none_blocked(), s, t, np, nw));
        assert(weight_sum(nw) >= dd);
    } else {
        assert(out_arc(adj, none_blocked(), u, v, w1) && out_arc(adj, none_blocked(), v, w, w2));
        let d = choose|d: int| d < w1 + w2 && #[trigger] reaches_with(adj, none_blocked(), u, w, d);
        let (q, qs) = choose|q: Seq<int>, qs: Seq<int>|
            #[trigger] walk_between(adj, none_blocked(), u, w, q, qs) && weight_sum(qs) == d;
        lemma_join_walks(adj, pre_p, pre_w, q, qs);
        let p1 = pre_p + q.drop_first();
        let w1s = pre_w + qs;
        lemma_join_walks(adj, p1, w1s, suf_p, suf_w);
        let np = p1 + suf_p.drop_first();
        let nw = w1s + suf_w;
        assert(walk_between(adj, none_blocked(), s, t, np, nw));
        assert(weight_sum(nw) >= dd);
    }
}

/// A lightest walk without a dip climbs to a peak and then descends.
proof fn lemma_no_dip_up_down(
    adj: Seq<Seq<Edge>>,
    nodes: Seq<Node>,
    s: int,
    t: int,
    dd: int,
    p: Seq<int>,
    ws: Seq<int>,
)
    requires
        paired(adj),
        crate::levels::levels_apart(adj, nodes),
        nodes.len() == adj.len(),
        is_distance(adj, none_blocked(), s, t, dd),
        walk_between(adj, none_blocked(), s, t, p, ws),
        weight_sum(ws) == dd,
        forall|i: int| 1 <= i < ws.len() ==> !#[trigger] dips(nodes, p, i),
        forall|i: int| 0 <= i < ws.len() ==> #[trigger] p[i] != p[i + 1],
    ensures
        up_down(adj, nodes, s, t, dd),
{
    let k = ws.len() as int;
    let m = first_descent(nodes, p, k, 0);
    lemma_first_descent(nodes, p, k, 0);
    lemma_split_walk(adj, none_blocked(), p, ws, m);
    let pf = p.take(m + 1);
    let wf = ws.take(m);
    let ps = p.skip(m);
    let wsuf = ws.skip(m);
    assert forall|j: int| 0 <= j < pf.len() - 1 implies #[trigger] step_up(nodes, pf, j) by {
        assert(out_arc(adj, none_blocked(), p[j], p[j + 1], ws[j]));
        assert(p[j] != p[j + 1]);
        assert(!(nodes[p[j]].level > nodes[p[j + 1]].level));
    }
    assert forall|j: int| 0 <= j < wsuf.len() implies nodes[ps[j + 1]].level < #[trigger] nodes[ps[j]].level by {
        lemma_no_dip_descends(adj, nodes, p, ws, m, j + m);
    }
    lemma_descent_reversed(adj, nodes, ps, wsuf);
    let (pb, wb) = choose|pb: Seq<int>, wb: Seq<int>|
        #[trigger] back_walk_between(adj, ps.last(), ps[0], pb, wb) && climbs(nodes, pb) && weight_sum(wb)
            <= weight_sum(wsuf);
    assert(ps.last() == t);
    assert(ps[0] == p[m]);
    assert(pf.last() == p[m]);
    assert(up_down_witness(adj, nodes, s, t, pf, wf, pb, wb));
    assert(reaches_with(adj, none_blocked(), s, p[m], weight_sum(wf)));
    assert(back_reaches_with(adj, t, p[m], weight_sum(wb)));
    lemma_meeting_at_least(adj, s, t, dd, p[m], weight_sum(wf), weight_sum(wb));
}

/// In a paired graph where no edge joins two different nodes of equal level
/// and every dip can be bypassed, every lightest walk can be traded for one
/// that climbs and then descends: the hierarchy offers the distance. Edges
/// may weigh nothing and may point back to their own node.
pub proof fn lemma_bypassed_up_down(
    adj: Seq<Seq<Edge>>,
    nodes: Seq<Node>,
    s: int,
    t: int,
    dd: int,
    p: Seq<int>,
    ws: Seq<int>,
)
    requires
        paired(adj),
        bypassed(adj, nodes),
        crate::levels::levels_apart(adj, nodes),
        nodes.len() == adj.len(),
        is_distance(adj, none_blocked(), s, t, dd),
        walk_between(adj, none_blocked(), s, t, p, ws),
        weight_sum(ws) == dd,
    ensures
        up_down(adj, nodes, s, t, dd),
    decreases ws.len(),
{
    if exists|j: int| 0 <= j < ws.len() && #[trigger] p[j] == p[j + 1] {
        // an edge from a node to itself: leave it out
        let j = choose|j: int| 0 <= j < ws.len() && #[trigger] p[j] == p[j + 1];
        lemma_split_walk(adj, none_blocked(), p, ws, j);
        lemma_split_walk(adj, none_blocked(), p, ws, j + 1);
        let pre_p = p.take(j + 1);
        let pre_w = ws.take(j);
        let suf_p = p.skip(j + 1);
        let suf_w = ws.skip(j + 1);
        assert(ws.take(j + 1).drop_last() =~= pre_w);
        assert(ws.take(j + 1).last() == ws[j]);
        assert(out_arc(adj, none_blocked(), p[j], p[j + 1], ws[j]));
        assert(ws[j] >= 0);
        lemma_join_walks(adj, pre_p, pre_w, suf_p, suf_w);
        let np = pre_p + suf_p.drop_first();
        let nw = pre_w + suf_w;
        assert(walk_between(adj, none_blocked(), s, t, np, nw));
        assert(weight_sum(nw) >= dd);
        lemma_bypassed_up_down(adj, nodes, s, t, dd, np, nw);
    } else if exists|j: int| 1 <= j < ws.len() && #[trigger] dips(nodes, p, j) {
        let j = choose|j: int| 1 <= j < ws.len() && #[trigger] dips(nodes, p, j);
        lemma_dip_bypass(adj, nodes, s, t, dd, p, ws, j);
        let (np, nw) = choose|np: Seq<int>, nw: Seq<int>|
            #[trigger] walk_between(adj, none_blocked(), s, t, np, nw) && weight_sum(nw) == dd && nw.len()
                < ws.len();
        lemma_bypassed_up_down(adj, nodes, s, t, dd, np, nw);
    } else {
        lemma_no_dip_up_down(adj, nodes, s, t, dd, p, ws);
    }
}

} // verus!
