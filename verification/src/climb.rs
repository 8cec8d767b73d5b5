//! Walks along which the levels rise, and why a query without
//! stall-on-demand finds the lightest climb-then-descent on any levels.
use vstd::prelude::*;
use crate::dijkstra::Distance;
use crate::graph::{Edge, Node};
use crate::hierarchy::{
    climbs, meetings_ok, side_distance, side_walk, step_up, up_down, up_down_witness, up_relaxed,
};
use crate::paths::{
    back_walk_between, in_arc, is_back_walk, is_walk, lemma_split_back_walk, lemma_split_walk, lemma_weight_sum_concat,
    lemma_weight_sum_push, lemma_prefix_weight, none_blocked, out_arc, walk_between, weight_sum,
};

verus! {

/// One edge in the direction of the search: a forward edge from the
/// source's side, a backward edge from the target's side.
pub open spec fn side_arc(adj: Seq<Seq<Edge>>, forward: bool, x: int, y: int, w: int) -> bool {
    if forward {
        out_arc(adj, none_blocked(), x, y, w)
    } else {
        in_arc(adj, x, y, w)
    }
}

/// `p` is a walk in the direction of the search whose edges weigh `ws`.
pub open spec fn side_seq(adj: Seq<Seq<Edge>>, forward: bool, p: Seq<int>, ws: Seq<int>) -> bool {
    if forward {
        is_walk(adj, none_blocked(), p, ws)
    } else {
        is_back_walk(adj, p, ws)
    }
}

/// `p` is a walk from `root` to `x` in the direction of the search along
/// which the levels rise.
pub open spec fn climb_witness(
    adj: Seq<Seq<Edge>>,
    nodes: Seq<Node>,
    forward: bool,
    root: int,
    x: int,
    p: Seq<int>,
    ws: Seq<int>,
) -> bool {
    &&& side_seq(adj, forward, p, ws)
    &&& p[0] == root
    &&& p.last() == x
    &&& climbs(nodes, p)
}

/// Some climbing walk from `root` to `x` weighs `d`.
pub open spec fn climb_walk(adj: Seq<Seq<Edge>>, nodes: Seq<Node>, forward: bool, root: int, x: int, d: int) -> bool {
    exists|p: Seq<int>, ws: Seq<int>| #[trigger] climb_witness(adj, nodes, forward, root, x, p, ws) && weight_sum(ws) == d
}

/// `d` is the weight of a lightest climbing walk from `root` to `x`.
pub open spec fn climb_distance(adj: Seq<Seq<Edge>>, nodes: Seq<Node>, forward: bool, root: int, x: int, d: int) -> bool {
    &&& climb_walk(adj, nodes, forward, root, x, d)
    &&& forall|p: Seq<int>, ws: Seq<int>| #[trigger] climb_witness(adj, nodes, forward, root, x, p, ws) ==> weight_sum(ws) >= d
}

/// A walk from the root: a climbing one when `up`, any one otherwise.
pub open spec fn walk_in(adj: Seq<Seq<Edge>>, nodes: Seq<Node>, up: bool, forward: bool, root: int, x: int, d: int) -> bool {
    if up {
        climb_walk(adj, nodes, forward, root, x, d)
    } else {
        side_walk(adj, forward, root, x, d)
    }
}

/// A lightest walk from the root: among climbing ones when `up`, among all
/// otherwise.
pub open spec fn dist_in(adj: Seq<Seq<Edge>>, nodes: Seq<Node>, up: bool, forward: bool, root: int, x: int, d: int) -> bool {
    if up {
        climb_distance(adj, nodes, forward, root, x, d)
    } else {
        side_distance(adj, forward, root, x, d)
    }
}

/// Each recorded distance is the weight of a walk from the root of the kind `up` names.
pub open spec fn dists_in(adj: Seq<Seq<Edge>>, nodes: Seq<Node>, up: bool, forward: bool, root: int, dist: Seq<Option<usize>>) -> bool {
    forall|x: int|
        0 <= x < dist.len() && (#[trigger] dist[x]) is Some ==> walk_in(adj, nodes, up, forward, root, x, dist[x].unwrap() as int)
}

/// Every node whose recorded distance is a lightest one of the kind `up`
/// names, and no more than `best`, is still waiting with that weight or has
/// been visited with its upward edges relaxed.
pub open spec fn frontier_in(
    adj: Seq<Seq<Edge>>,
    nodes: Seq<Node>,
    up: bool,
    forward: bool,
    root: int,
    dist: Seq<Option<usize>>,
    q: Seq<Distance>,
    vis: Seq<usize>,
    best: int,
) -> bool {
    forall|x: int|
        0 <= x < dist.len() && (#[trigger] dist[x]) is Some && dist_in(adj, nodes, up, forward, root, x, dist[x].unwrap() as int)
            && dist[x].unwrap() <= best ==> q.contains(Distance { weight: dist[x].unwrap(), id: x as usize }) || (
        vis.contains(x as usize) && up_relaxed(adj, nodes, forward, dist, x, dist[x].unwrap() as int))
}

/// The root alone is a climbing walk of weight nothing.
pub proof fn lemma_trivial_climb(adj: Seq<Seq<Edge>>, nodes: Seq<Node>, forward: bool, root: int)
    ensures
        climb_walk(adj, nodes, forward, root, root, 0),
{
    let p = seq![root];
    let ws = Seq::<int>::empty();
    assert(climb_witness(adj, nodes, forward, root, root, p, ws));
}

/// A climbing walk to `u` followed by one edge up to `v`.
pub proof fn lemma_extend_climb(
    adj: Seq<Seq<Edge>>,
    nodes: Seq<Node>,
    forward: bool,
    root: int,
    u: int,
    v: int,
    d: int,
    w: int,
)
    requires
        climb_walk(adj, nodes, forward, root, u, d),
        side_arc(adj, forward, u, v, w),
        nodes[u].level < nodes[v].level,
    ensures
        climb_walk(adj, nodes, forward, root, v, d + w),
{
    let (p, ws) = choose|p: Seq<int>, ws: Seq<int>| #[trigger] climb_witness(adj, nodes, forward, root, u, p, ws) && weight_sum(ws) == d;
    let p2 = p.push(v);
    let ws2 = ws.push(w);
    lemma_weight_sum_push(ws, w);
    if forward {
        assert forall|j: int| 0 <= j < ws2.len() implies #[trigger] out_arc(adj, none_blocked(), p2[j], p2[j + 1], ws2[j]) by {
            if j < ws.len() {
                assert(out_arc(adj, none_blocked(), p[j], p[j + 1], ws[j]));
            }
        }
    } else {
        assert forall|j: int| 0 <= j < ws2.len() implies #[trigger] in_arc(adj, p2[j], p2[j + 1], ws2[j]) by {
            if j < ws.len() {
                assert(in_arc(adj, p[j], p[j + 1], ws[j]));
            }
        }
    }
    assert forall|j: int| 0 <= j < p2.len() - 1 implies #[trigger] step_up(nodes, p2, j) by {
        if j < p.len() - 1 {
            assert(step_up(nodes, p, j));
        }
    }
    assert(climb_witness(adj, nodes, forward, root, v, p2, ws2));
}

/// Weights of walks are never negative.
proof fn lemma_side_nonneg(adj: Seq<Seq<Edge>>, forward: bool, p: Seq<int>, ws: Seq<int>)
    requires
        side_seq(adj, forward, p, ws),
    ensures
        weight_sum(ws) >= 0,
    decreases ws.len(),
{
    if forward {
        lemma_prefix_weight(adj, none_blocked(), p, ws, ws.len() as int, ws.len() as int);
        assert(ws.take(ws.len() as int) =~= ws);
    } else if ws.len() > 0 {
        let k = ws.len() - 1;
        assert(in_arc(adj, p[k], p[k + 1], ws[k]));
        let p0 = p.drop_last();
        let ws0 = ws.drop_last();
        assert forall|j: int| 0 <= j < ws0.len() implies #[trigger] in_arc(adj, p0[j], p0[j + 1], ws0[j]) by {
            assert(in_arc(adj, p[j], p[j + 1], ws[j]));
        }
        lemma_side_nonneg(adj, forward, p0, ws0);
    }
}

/// A climbing walk cut at its `j`-th node: both parts climb.
proof fn lemma_split_climb(adj: Seq<Seq<Edge>>, nodes: Seq<Node>, forward: bool, p: Seq<int>, ws: Seq<int>, j: int)
    requires
        side_seq(adj, forward, p, ws),
        climbs(nodes, p),
        0 <= j <= ws.len(),
    ensures
        side_seq(adj, forward, p.take(j + 1), ws.take(j)),
        side_seq(adj, forward, p.skip(j), ws.skip(j)),
        climbs(nodes, p.take(j + 1)),
        climbs(nodes, p.skip(j)),
        p.take(j + 1)[0] == p[0],
        p.take(j + 1).last() == p[j],
        p.skip(j)[0] == p[j],
        p.skip(j).last() == p.last(),
        weight_sum(ws) == weight_sum(ws.take(j)) + weight_sum(ws.skip(j)),
{
    if forward {
        lemma_split_walk(adj, none_blocked(), p, ws, j);
    } else {
        lemma_split_back_walk(adj, p, ws, j);
    }
    assert forall|i: int| 0 <= i < p.take(j + 1).len() - 1 implies #[trigger] step_up(nodes, p.take(j + 1), i) by {
        assert(step_up(nodes, p, i));
    }
    assert forall|i: int| 0 <= i < p.skip(j).len() - 1 implies #[trigger] step_up(nodes, p.skip(j), i) by {
        assert(step_up(nodes, p, i + j));
    }
}

/// Two climbing walks, the second starting where the first ends, joined.
proof fn lemma_join_climb(
    adj: Seq<Seq<Edge>>,
    nodes: Seq<Node>,
    forward: bool,
    p1: Seq<int>,
    ws1: Seq<int>,
    p2: Seq<int>,
    ws2: Seq<int>,
)
    requires
        side_seq(adj, forward, p1, ws1),
        side_seq(adj, forward, p2, ws2),
        climbs(nodes, p1),
        climbs(nodes, p2),
        p1.last() == p2[0],
    ensures
        side_seq(adj, forward, p1 + p2.drop_first(), ws1 + ws2),
        climbs(nodes, p1 + p2.drop_first()),
        (p1 + p2.drop_first())[0] == p1[0],
        (p1 + p2.drop_first()).last() == p2.last(),
        weight_sum(ws1 + ws2) == weight_sum(ws1) + weight_sum(ws2),
{
    let p = p1 + p2.drop_first();
    let ws = ws1 + ws2;
    lemma_weight_sum_concat(ws1, ws2);
    if forward {
        assert forall|j: int| 0 <= j < ws.len() implies #[trigger] out_arc(adj, none_blocked(), p[j], p[j + 1], ws[j]) by {
            if j < ws1.len() {
                assert(out_arc(adj, none_blocked(), p1[j], p1[j + 1], ws1[j]));
            } else {
                let k = j - ws1.len();
                assert(out_arc(adj, none_blocked(), p2[k], p2[k + 1], ws2[k]));
            }
        }
    } else {
        assert forall|j: int| 0 <= j < ws.len() implies #[trigger] in_arc(adj, p[j], p[j + 1], ws[j]) by {
            if j < ws1.len() {
                assert(in_arc(adj, p1[j], p1[j + 1], ws1[j]));
            } else {
                let k = j - ws1.len();
                assert(in_arc(adj, p2[k], p2[k + 1], ws2[k]));
            }
        }
    }
    assert forall|j: int| 0 <= j < p.len() - 1 implies #[trigger] step_up(nodes, p, j) by {
        if j < p1.len() - 1 {
            assert(step_up(nodes, p1, j));
        } else {
            let k = j - (p1.len() - 1);
            assert(step_up(nodes, p2, k));
        }
    }
    if p2.len() == 1 {
        assert(p =~= p1);
    }
}

/// A climb-then-descent weighs at least nothing.
proof fn lemma_up_down_nonneg(adj: Seq<Seq<Edge>>, nodes: Seq<Node>, s: int, t: int, d: int)
    requires
        up_down(adj, nodes, s, t, d),
    ensures
        d >= 0,
{
    let (pf, wf, pb, wb) = choose|pf: Seq<int>, wf: Seq<int>, pb: Seq<int>, wb: Seq<int>|
        #[trigger] up_down_witness(adj, nodes, s, t, pf, wf, pb, wb) && weight_sum(wf) + weight_sum(wb) == d;
    lemma_side_nonneg(adj, true, pf, wf);
    lemma_side_nonneg(adj, false, pb, wb);
}

/// Among the climb-then-descent walks from `s` to `t` there is a lightest one.
pub proof fn lemma_least_up_down(adj: Seq<Seq<Edge>>, nodes: Seq<Node>, s: int, t: int, d: int) -> (dd: int)
    requires
        up_down(adj, nodes, s, t, d),
    ensures
        up_down(adj, nodes, s, t, dd),
        dd <= d,
        forall|d2: int| #[trigger] up_down(adj, nodes, s, t, d2) ==> d2 >= dd,
    decreases d,
{
    lemma_up_down_nonneg(adj, nodes, s, t, d);
    if exists|d2: int| #[trigger] up_down(adj, nodes, s, t, d2) && d2 < d {
        let d2 = choose|d2: int| #[trigger] up_down(adj, nodes, s, t, d2) && d2 < d;
        lemma_up_down_nonneg(adj, nodes, s, t, d2);
        lemma_least_up_down(adj, nodes, s, t, d2)
    } else {
        d
    }
}

/// A climbing walk from `s` and one from `t` (backward) that meet make a
/// climb-then-descent.
pub proof fn lemma_meeting_up_down(adj: Seq<Seq<Edge>>, nodes: Seq<Node>, s: int, t: int, m: int, a: int, c: int)
    requires
        climb_walk(adj, nodes, true, s, m, a),
        climb_walk(adj, nodes, false, t, m, c),
    ensures
        up_down(adj, nodes, s, t, a + c),
{
    let (pf, wf) = choose|p: Seq<int>, ws: Seq<int>| #[trigger] climb_witness(adj, nodes, true, s, m, p, ws) && weight_sum(ws) == a;
    let (pb, wb) = choose|p: Seq<int>, ws: Seq<int>| #[trigger] climb_witness(adj, nodes, false, t, m, p, ws) && weight_sum(ws) == c;
    assert(up_down_witness(adj, nodes, s, t, pf, wf, pb, wb));
}

/// The part of one side of a lightest climb-then-descent up to its `j`-th
/// node is a lightest climbing walk to that node.
proof fn lemma_prefix_least(
    adj: Seq<Seq<Edge>>,
    nodes: Seq<Node>,
    s: int,
    t: int,
    dd: int,
    pf: Seq<int>,
    wf: Seq<int>,
    pb: Seq<int>,
    wb: Seq<int>,
    forward: bool,
    j: int,
)
    requires
        up_down_witness(adj, nodes, s, t, pf, wf, pb, wb),
        weight_sum(wf) + weight_sum(wb) == dd,
        forall|d2: int| #[trigger] up_down(adj, nodes, s, t, d2) ==> d2 >= dd,
        0 <= j <= (if forward { wf.len() } else { wb.len() }),
    ensures
        ({
            let (p, ws, root) = if forward { (pf, wf, s) } else { (pb, wb, t) };
            &&& climb_distance(adj, nodes, forward, root, p[j], weight_sum(ws.take(j)))
            &&& 0 <= weight_sum(ws.take(j)) <= dd
        }),
{
    let (p, ws, root) = if forward { (pf, wf, s) } else { (pb, wb, t) };
    let (po, wo, oroot) = if forward { (pb, wb, t) } else { (pf, wf, s) };
    let m = pf.last();
    assert(side_seq(adj, true, pf, wf));
    assert(side_seq(adj, false, pb, wb));
    assert(side_seq(adj, forward, p, ws));
    assert(side_seq(adj, !forward, po, wo));
    lemma_split_climb(adj, nodes, forward, p, ws, j);
    let pre = weight_sum(ws.take(j));
    let suf = weight_sum(ws.skip(j));
    assert(climb_witness(adj, nodes, forward, root, p[j], p.take(j + 1), ws.take(j)));
    lemma_side_nonneg(adj, forward, p.take(j + 1), ws.take(j));
    lemma_side_nonneg(adj, forward, p.skip(j), ws.skip(j));
    lemma_side_nonneg(adj, !forward, po, wo);
    assert forall|q: Seq<int>, qs: Seq<int>| #[trigger] climb_witness(adj, nodes, forward, root, p[j], q, qs) implies weight_sum(qs)
        >= pre by {
        if weight_sum(qs) < pre {
            lemma_join_climb(adj, nodes, forward, q, qs, p.skip(j), ws.skip(j));
            let q2 = q + p.skip(j).drop_first();
            let qs2 = qs + ws.skip(j);
            assert(climb_witness(adj, nodes, forward, root, m, q2, qs2));
            assert(climb_witness(adj, nodes, !forward, oroot, m, po, wo));
            if forward {
                assert(up_down_witness(adj, nodes, s, t, q2, qs2, pb, wb));
                assert(up_down(adj, nodes, s, t, weight_sum(qs2) + weight_sum(wb)));
            } else {
                assert(up_down_witness(adj, nodes, s, t, pf, wf, q2, qs2));
                assert(up_down(adj, nodes, s, t, weight_sum(wf) + weight_sum(qs2)));
            }
        }
    }
}

/// When one side of the search has run dry, every node of that side of a
/// lightest climb-then-descent has been visited with its lightest climbing
/// distance and its upward edges relaxed.
proof fn lemma_part_settled(
    adj: Seq<Seq<Edge>>,
    nodes: Seq<Node>,
    s: int,
    t: int,
    dd: int,
    pf: Seq<int>,
    wf: Seq<int>,
    pb: Seq<int>,
    wb: Seq<int>,
    forward: bool,
    dist: Seq<Option<usize>>,
    vis: Seq<usize>,
    best: int,
    j: int,
)
    requires
        crate::paths::targets_in_range(adj),
        nodes.len() == adj.len(),
        dist.len() == adj.len(),
        0 <= s < adj.len(),
        0 <= t < adj.len(),
        up_down_witness(adj, nodes, s, t, pf, wf, pb, wb),
        weight_sum(wf) + weight_sum(wb) == dd,
        forall|d2: int| #[trigger] up_down(adj, nodes, s, t, d2) ==> d2 >= dd,
        dd < usize::MAX,
        dd <= best,
        dists_in(adj, nodes, true, forward, if forward { s } else { t }, dist),
        frontier_in(adj, nodes, true, forward, if forward { s } else { t }, dist, Seq::<Distance>::empty(), vis, best),
        dist[if forward { s } else { t }] == Some(0usize),
        0 <= j <= (if forward { wf.len() } else { wb.len() }),
    ensures
        ({
            let (p, ws) = if forward { (pf, wf) } else { (pb, wb) };
            &&& 0 <= p[j] < adj.len()
            &&& dist[p[j]] == Some(weight_sum(ws.take(j)) as usize)
            &&& vis.contains(p[j] as usize)
            &&& up_relaxed(adj, nodes, forward, dist, p[j], weight_sum(ws.take(j)))
        }),
    decreases j,
{
    let (p, ws, root) = if forward { (pf, wf, s) } else { (pb, wb, t) };
    assert(side_seq(adj, forward, p, ws));
    lemma_prefix_least(adj, nodes, s, t, dd, pf, wf, pb, wb, forward, j);
    let x = p[j];
    let pre = weight_sum(ws.take(j));
    if j == 0 {
        assert(ws.take(0) =~= Seq::<int>::empty());
        assert(x == root);
    } else {
        lemma_part_settled(adj, nodes, s, t, dd, pf, wf, pb, wb, forward, dist, vis, best, j - 1);
        let k = j - 1;
        let y = p[k];
        assert(step_up(nodes, p, k));
        assert(ws.take(j).drop_last() =~= ws.take(k));
        assert(pre == weight_sum(ws.take(k)) + ws[k]);
        if forward {
            assert(out_arc(adj, none_blocked(), p[k], p[k + 1], ws[k]));
            let i = choose|i: int|
                0 <= i < adj[y].len() && (#[trigger] adj[y][i]).dir && adj[y][i].target == x && adj[y][i].weight == ws[k]
                    && !none_blocked()(x);
            assert(adj[y][i].target < adj.len());
        } else {
            assert(in_arc(adj, p[k], p[k + 1], ws[k]));
            let i = choose|i: int|
                0 <= i < adj[y].len() && !(#[trigger] adj[y][i]).dir && adj[y][i].target == x && adj[y][i].weight == ws[k];
            assert(adj[y][i].target < adj.len());
        }
        assert(dist[x] is Some && dist[x].unwrap() <= pre);
        assert(walk_in(adj, nodes, true, forward, root, x, dist[x].unwrap() as int));
        let (q, qs) = choose|q: Seq<int>, qs: Seq<int>|
            #[trigger] climb_witness(adj, nodes, forward, root, x, q, qs) && weight_sum(qs) == dist[x].unwrap() as int;
    }
    assert(dist_in(adj, nodes, true, forward, root, x, pre));
    assert(!Seq::<Distance>::empty().contains(Distance { weight: dist[x].unwrap(), id: x as usize }));
}

/// Once both sides of a query that follows only climbing walks have run
/// dry, the best meeting is the weight of a lightest climb-then-descent.
pub proof fn lemma_query_least(
    adj: Seq<Seq<Edge>>,
    nodes: Seq<Node>,
    s: int,
    t: int,
    dd: int,
    df: Seq<Option<usize>>,
    vf: Seq<usize>,
    db: Seq<Option<usize>>,
    vb: Seq<usize>,
    best: int,
)
    requires
        crate::paths::targets_in_range(adj),
        adj.len() <= usize::MAX,
        nodes.len() == adj.len(),
        df.len() == adj.len(),
        db.len() == adj.len(),
        0 <= s < adj.len(),
        0 <= t < adj.len(),
        up_down(adj, nodes, s, t, dd),
        forall|d2: int| #[trigger] up_down(adj, nodes, s, t, d2) ==> d2 >= dd,
        dd < usize::MAX,
        dd <= best,
        dists_in(adj, nodes, true, true, s, df),
        dists_in(adj, nodes, true, false, t, db),
        frontier_in(adj, nodes, true, true, s, df, Seq::<Distance>::empty(), vf, best),
        frontier_in(adj, nodes, true, false, t, db, Seq::<Distance>::empty(), vb, best),
        df[s] == Some(0usize),
        db[t] == Some(0usize),
        meetings_ok(df, vf, db, vb, best),
    ensures
        best == dd,
{
    let (pf, wf, pb, wb) = choose|pf: Seq<int>, wf: Seq<int>, pb: Seq<int>, wb: Seq<int>|
        #[trigger] up_down_witness(adj, nodes, s, t, pf, wf, pb, wb) && weight_sum(wf) + weight_sum(wb) == dd;
    lemma_part_settled(adj, nodes, s, t, dd, pf, wf, pb, wb, true, df, vf, best, wf.len() as int);
    lemma_part_settled(adj, nodes, s, t, dd, pf, wf, pb, wb, false, db, vb, best, wb.len() as int);
    assert(wf.take(wf.len() as int) =~= wf);
    assert(wb.take(wb.len() as int) =~= wb);
    lemma_prefix_least(adj, nodes, s, t, dd, pf, wf, pb, wb, true, wf.len() as int);
    lemma_prefix_least(adj, nodes, s, t, dd, pf, wf, pb, wb, false, wb.len() as int);
    let m = pf.last();
    assert(pf[wf.len() as int] == m);
    assert(pb[wb.len() as int] == m);
    assert(0 <= m < adj.len());
    let mu = m as usize;
    assert(mu as int == m);
    assert(vf.contains(mu) && vb.contains(mu));
    assert(df[mu as int].unwrap() + db[mu as int].unwrap() == dd);
}

} // verus!
