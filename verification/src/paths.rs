//! Walks through the stored graph and their weights.
use vstd::prelude::*;
use crate::graph::Edge;

verus! {

/// There is a forward edge `u -> v` of weight `w` stored at `u`, and `v` is not blocked.
pub open spec fn out_arc(
    adj: Seq<Seq<Edge>>,
    blocked: spec_fn(int) -> bool,
    u: int,
    v: int,
    w: int,
) -> bool {
    &&& 0 <= u < adj.len()
    &&& exists|i: int|
        0 <= i < adj[u].len() && (#[trigger] adj[u][i]).dir && adj[u][i].target == v
            && adj[u][i].weight == w && !blocked(v)
}

/// There is a backward edge stored at `u` that points to `v` with weight `w`
/// (it records a road edge `v -> u`).
pub open spec fn in_arc(adj: Seq<Seq<Edge>>, u: int, v: int, w: int) -> bool {
    &&& 0 <= u < adj.len()
    &&& exists|i: int|
        0 <= i < adj[u].len() && !(#[trigger] adj[u][i]).dir && adj[u][i].target == v
            && adj[u][i].weight == w
}

/// `p` is a walk along forward edges whose weights are `ws`.
pub open spec fn is_walk(
    adj: Seq<Seq<Edge>>,
    blocked: spec_fn(int) -> bool,
    p: Seq<int>,
    ws: Seq<int>,
) -> bool {
    &&& p.len() == ws.len() + 1
    &&& forall|j: int| 0 <= j < ws.len() ==> #[trigger] out_arc(adj, blocked, p[j], p[j + 1], ws[j])
}

/// `p` is a walk along backward edges whose weights are `ws`.
pub open spec fn is_back_walk(adj: Seq<Seq<Edge>>, p: Seq<int>, ws: Seq<int>) -> bool {
    &&& p.len() == ws.len() + 1
    &&& forall|j: int| 0 <= j < ws.len() ==> #[trigger] in_arc(adj, p[j], p[j + 1], ws[j])
}

pub open spec fn weight_sum(ws: Seq<int>) -> int
    decreases ws.len(),
{
    if ws.len() == 0 {
        0
    } else {
        weight_sum(ws.drop_last()) + ws.last()
    }
}

/// A forward walk from `s` to `t`.
pub open spec fn walk_between(
    adj: Seq<Seq<Edge>>,
    blocked: spec_fn(int) -> bool,
    s: int,
    t: int,
    p: Seq<int>,
    ws: Seq<int>,
) -> bool {
    is_walk(adj, blocked, p, ws) && p[0] == s && p.last() == t
}

/// A backward walk from `s` to `t`.
pub open spec fn back_walk_between(
    adj: Seq<Seq<Edge>>,
    s: int,
    t: int,
    p: Seq<int>,
    ws: Seq<int>,
) -> bool {
    is_back_walk(adj, p, ws) && p[0] == s && p.last() == t
}

/// Some forward walk from `s` to `t` weighs `d`.
pub open spec fn reaches_with(
    adj: Seq<Seq<Edge>>,
    blocked: spec_fn(int) -> bool,
    s: int,
    t: int,
    d: int,
) -> bool {
    exists|p: Seq<int>, ws: Seq<int>|
        #[trigger] walk_between(adj, blocked, s, t, p, ws) && weight_sum(ws) == d
}

/// Some backward walk from `s` to `t` weighs `d`.
pub open spec fn back_reaches_with(adj: Seq<Seq<Edge>>, s: int, t: int, d: int) -> bool {
    exists|p: Seq<int>, ws: Seq<int>|
        #[trigger] back_walk_between(adj, s, t, p, ws) && weight_sum(ws) == d
}

/// Every forward walk from `s` to `t` weighs at least `d`.
pub open spec fn no_lighter_walk(
    adj: Seq<Seq<Edge>>,
    blocked: spec_fn(int) -> bool,
    s: int,
    t: int,
    d: int,
) -> bool {
    forall|p: Seq<int>, ws: Seq<int>|
        #[trigger] walk_between(adj, blocked, s, t, p, ws) ==> weight_sum(ws) >= d
}

/// `d` is the weight of a lightest forward walk from `s` to `t`.
pub open spec fn is_distance(
    adj: Seq<Seq<Edge>>,
    blocked: spec_fn(int) -> bool,
    s: int,
    t: int,
    d: int,
) -> bool {
    reaches_with(adj, blocked, s, t, d) && no_lighter_walk(adj, blocked, s, t, d)
}

/// The outcome of a search that counts a distance only when it is below
/// `usize::MAX`: `r` is the distance, or `usize::MAX` when no walk weighs less.
pub open spec fn search_result(
    adj: Seq<Seq<Edge>>,
    blocked: spec_fn(int) -> bool,
    s: int,
    t: int,
    r: int,
) -> bool {
    if r < usize::MAX {
        is_distance(adj, blocked, s, t, r)
    } else {
        r == usize::MAX && no_lighter_walk(adj, blocked, s, t, usize::MAX as int)
    }
}

/// No node is blocked.
pub open spec fn none_blocked() -> spec_fn(int) -> bool {
    |v: int| false
}

pub proof fn lemma_weight_sum_push(ws: Seq<int>, w: int)
    ensures
        weight_sum(ws.push(w)) == weight_sum(ws) + w,
{
    assert(ws.push(w).drop_last() =~= ws);
}

/// The walk consisting of `s` alone.
pub proof fn lemma_trivial_walk(adj: Seq<Seq<Edge>>, blocked: spec_fn(int) -> bool, s: int)
    ensures
        reaches_with(adj, blocked, s, s, 0),
{
    let p = seq![s];
    let ws = Seq::<int>::empty();
    assert(walk_between(adj, blocked, s, s, p, ws));
}

/// A walk to `u` followed by one edge `u -> v`.
pub proof fn lemma_extend_walk(
    adj: Seq<Seq<Edge>>,
    blocked: spec_fn(int) -> bool,
    s: int,
    u: int,
    v: int,
    d: int,
    w: int,
)
    requires
        reaches_with(adj, blocked, s, u, d),
        out_arc(adj, blocked, u, v, w),
    ensures
        reaches_with(adj, blocked, s, v, d + w),
{
    let (p, ws) = choose|p: Seq<int>, ws: Seq<int>|
        #[trigger] walk_between(adj, blocked, s, u, p, ws) && weight_sum(ws) == d;
    let p2 = p.push(v);
    let ws2 = ws.push(w);
    lemma_weight_sum_push(ws, w);
    assert forall|j: int| 0 <= j < ws2.len() implies #[trigger] out_arc(
        adj,
        blocked,
        p2[j],
        p2[j + 1],
        ws2[j],
    ) by {
        if j < ws.len() {
            assert(out_arc(adj, blocked, p[j], p[j + 1], ws[j]));
        }
    }
    assert(walk_between(adj, blocked, s, v, p2, ws2));
}

/// A backward walk to `u` followed by one backward edge `u -> v`.
pub proof fn lemma_extend_back_walk(adj: Seq<Seq<Edge>>, s: int, u: int, v: int, d: int, w: int)
    requires
        back_reaches_with(adj, s, u, d),
        in_arc(adj, u, v, w),
    ensures
        back_reaches_with(adj, s, v, d + w),
{
    let (p, ws) = choose|p: Seq<int>, ws: Seq<int>|
        #[trigger] back_walk_between(adj, s, u, p, ws) && weight_sum(ws) == d;
    let p2 = p.push(v);
    let ws2 = ws.push(w);
    lemma_weight_sum_push(ws, w);
    assert forall|j: int| 0 <= j < ws2.len() implies #[trigger] in_arc(
        adj,
        p2[j],
        p2[j + 1],
        ws2[j],
    ) by {
        if j < ws.len() {
            assert(in_arc(adj, p[j], p[j + 1], ws[j]));
        }
    }
    assert(back_walk_between(adj, s, v, p2, ws2));
}

pub proof fn lemma_trivial_back_walk(adj: Seq<Seq<Edge>>, s: int)
    ensures
        back_reaches_with(adj, s, s, 0),
{
    let p = seq![s];
    let ws = Seq::<int>::empty();
    assert(back_walk_between(adj, s, s, p, ws));
}

/// Weights of walks are never negative, and a prefix weighs no more than the whole.
pub proof fn lemma_prefix_weight(
    adj: Seq<Seq<Edge>>,
    blocked: spec_fn(int) -> bool,
    p: Seq<int>,
    ws: Seq<int>,
    i: int,
    j: int,
)
    requires
        is_walk(adj, blocked, p, ws),
        0 <= i <= j <= ws.len(),
    ensures
        0 <= weight_sum(ws.take(i)) <= weight_sum(ws.take(j)),
    decreases j,
{
    if j > 0 {
        assert(ws.take(j).drop_last() =~= ws.take(j - 1));
        let k = j - 1;
        assert(out_arc(adj, blocked, p[k], p[k + 1], ws[k]));
        if i < j {
            lemma_prefix_weight(adj, blocked, p, ws, i, j - 1);
        } else {
            lemma_prefix_weight(adj, blocked, p, ws, i - 1, j - 1);
        }
    } else {
        assert(ws.take(0) =~= Seq::<int>::empty());
    }
}

/// Every stored edge points to a node.
pub open spec fn targets_in_range(adj: Seq<Seq<Edge>>) -> bool {
    forall|u: int, i: int|
        0 <= u < adj.len() && 0 <= i < adj[u].len() ==> (#[trigger] adj[u][i]).target < adj.len()
}

/// Every forward edge leaving `x` towards an unblocked node has been relaxed:
/// its target is no farther than `dist(x)` plus the edge weight, unless that
/// sum reaches `cap`, the value that stands for "not reached".
pub open spec fn relaxed(
    adj: Seq<Seq<Edge>>,
    blocked: spec_fn(int) -> bool,
    dist: spec_fn(int) -> int,
    cap: int,
    x: int,
) -> bool {
    forall|i: int|
        0 <= i < adj[x].len() ==> ((#[trigger] adj[x][i]).dir && !blocked(adj[x][i].target as int)
            && dist(x) + adj[x][i].weight < cap ==> dist(adj[x][i].target as int) <= dist(x)
            + adj[x][i].weight)
}

/// The core of Dijkstra's argument. Suppose every node that is reached
/// (`dist(x) < cap`) either is still queued with a key of at least `m`, or
/// has had its edges relaxed. Then along any walk that starts at a node at
/// distance 0 and weighs less than `cap`, each node `p[j]` is already known to
/// be no farther than the prefix weight, or `m` is at most that prefix weight.
pub proof fn lemma_frontier(
    adj: Seq<Seq<Edge>>,
    blocked: spec_fn(int) -> bool,
    dist: spec_fn(int) -> int,
    cap: int,
    queued: spec_fn(int) -> bool,
    m: int,
    p: Seq<int>,
    ws: Seq<int>,
    j: int,
)
    requires
        is_walk(adj, blocked, p, ws),
        0 <= j <= ws.len(),
        targets_in_range(adj),
        0 <= p[0] < adj.len(),
        dist(p[0]) == 0,
        weight_sum(ws) < cap,
        forall|x: int|
            0 <= x < adj.len() && #[trigger] dist(x) < cap ==> queued(x) || relaxed(adj, blocked, dist, cap, x),
        forall|x: int| 0 <= x < adj.len() && dist(x) < cap && #[trigger] queued(x) ==> dist(x) >= m,
    ensures
        0 <= p[j] < adj.len(),
        dist(p[j]) <= weight_sum(ws.take(j)) || m <= weight_sum(ws.take(j)),
    decreases j,
{
    if j == 0 {
        assert(ws.take(0) =~= Seq::<int>::empty());
    } else {
        let k = j - 1;
        lemma_frontier(adj, blocked, dist, cap, queued, m, p, ws, k);
        lemma_prefix_weight(adj, blocked, p, ws, k, j);
        lemma_prefix_weight(adj, blocked, p, ws, j, ws.len() as int);
        assert(ws.take(ws.len() as int) =~= ws);
        assert(ws.take(j).drop_last() =~= ws.take(k));
        assert(weight_sum(ws.take(j)) == weight_sum(ws.take(k)) + ws[k]);
        assert(out_arc(adj, blocked, p[k], p[k + 1], ws[k]));
        let i = choose|i: int|
            0 <= i < adj[p[k]].len() && (#[trigger] adj[p[k]][i]).dir && adj[p[k]][i].target
                == p[k + 1] && adj[p[k]][i].weight == ws[k] && !blocked(p[k + 1]);
        assert(adj[p[k]][i].target < adj.len());
        if m <= weight_sum(ws.take(k)) {
        } else if queued(p[k]) && dist(p[k]) < cap {
        } else {
            assert(relaxed(adj, blocked, dist, cap, p[k]));
        }
    }
}

/// A lightest walk has only one weight.
pub proof fn lemma_distance_unique(
    adj: Seq<Seq<Edge>>,
    blocked: spec_fn(int) -> bool,
    s: int,
    t: int,
    d1: int,
    d2: int,
)
    requires
        is_distance(adj, blocked, s, t, d1),
        is_distance(adj, blocked, s, t, d2),
    ensures
        d1 == d2,
{
    let (p1, ws1) = choose|p: Seq<int>, ws: Seq<int>|
        #[trigger] walk_between(adj, blocked, s, t, p, ws) && weight_sum(ws) == d1;
    let (p2, ws2) = choose|p: Seq<int>, ws: Seq<int>|
        #[trigger] walk_between(adj, blocked, s, t, p, ws) && weight_sum(ws) == d2;
    assert(weight_sum(ws1) >= d2);
    assert(weight_sum(ws2) >= d1);
}

/// A node that some walk reaches with weight `d` is not cut off below any bound above `d`.
pub proof fn lemma_reaches_bound(
    adj: Seq<Seq<Edge>>,
    blocked: spec_fn(int) -> bool,
    s: int,
    t: int,
    d: int,
    bound: int,
)
    requires
        reaches_with(adj, blocked, s, t, d),
        no_lighter_walk(adj, blocked, s, t, bound),
    ensures
        d >= bound,
{
    let (p, ws) = choose|p: Seq<int>, ws: Seq<int>|
        #[trigger] walk_between(adj, blocked, s, t, p, ws) && weight_sum(ws) == d;
}


/// Every stored edge has a partner at its other end that is no heavier: a
/// forward edge `u -> v` a backward edge at `v` pointing to `u`, and the
/// other way round. Graphs read from a file, and kept up by `add_edge`, are
/// like this.
pub open spec fn paired(adj: Seq<Seq<Edge>>) -> bool {
    &&& forall|u: int, v: int, w: int| #[trigger]
        out_arc(adj, none_blocked(), u, v, w) ==> exists|w2: int| w2 <= w && #[trigger] in_arc(adj, v, u, w2)
    &&& forall|u: int, v: int, w: int| #[trigger]
        in_arc(adj, u, v, w) ==> exists|w2: int| w2 <= w && #[trigger] out_arc(adj, none_blocked(), v, u, w2)
}

/// Weights add up over a concatenation.
pub proof fn lemma_weight_sum_concat(a: Seq<int>, b: Seq<int>)
    ensures
        weight_sum(a + b) == weight_sum(a) + weight_sum(b),
    decreases b.len(),
{
    if b.len() == 0 {
        assert(a + b =~= a);
    } else {
        lemma_weight_sum_concat(a, b.drop_last());
        assert((a + b).drop_last() =~= a + b.drop_last());
    }
}

/// Two forward walks joined end to start.
pub proof fn lemma_concat_walk(
    adj: Seq<Seq<Edge>>,
    blocked: spec_fn(int) -> bool,
    x: int,
    y: int,
    z: int,
    d1: int,
    d2: int,
)
    requires
        reaches_with(adj, blocked, x, y, d1),
        reaches_with(adj, blocked, y, z, d2),
    ensures
        reaches_with(adj, blocked, x, z, d1 + d2),
{
    let (p1, ws1) = choose|p: Seq<int>, ws: Seq<int>|
        #[trigger] walk_between(adj, blocked, x, y, p, ws) && weight_sum(ws) == d1;
    let (p2, ws2) = choose|p: Seq<int>, ws: Seq<int>|
        #[trigger] walk_between(adj, blocked, y, z, p, ws) && weight_sum(ws) == d2;
    let p = p1 + p2.drop_first();
    let ws = ws1 + ws2;
    lemma_weight_sum_concat(ws1, ws2);
    assert forall|j: int| 0 <= j < ws.len() implies #[trigger] out_arc(adj, blocked, p[j], p[j + 1], ws[j]) by {
        if j < ws1.len() {
            assert(out_arc(adj, blocked, p1[j], p1[j + 1], ws1[j]));
        } else {
            let k = j - ws1.len();
            assert(out_arc(adj, blocked, p2[k], p2[k + 1], ws2[k]));
        }
    }
    if p2.len() == 1 {
        assert(p =~= p1);
    }
    assert(walk_between(adj, blocked, x, z, p, ws));
}

/// A forward walk cut at its `j`-th node into two walks.
pub proof fn lemma_split_walk(
    adj: Seq<Seq<Edge>>,
    blocked: spec_fn(int) -> bool,
    p: Seq<int>,
    ws: Seq<int>,
    j: int,
)
    requires
        is_walk(adj, blocked, p, ws),
        0 <= j <= ws.len(),
    ensures
        walk_between(adj, blocked, p[0], p[j], p.take(j + 1), ws.take(j)),
        walk_between(adj, blocked, p[j], p.last(), p.skip(j), ws.skip(j)),
        weight_sum(ws) == weight_sum(ws.take(j)) + weight_sum(ws.skip(j)),
{
    assert(ws.take(j) + ws.skip(j) =~= ws);
    lemma_weight_sum_concat(ws.take(j), ws.skip(j));
    assert forall|i: int| 0 <= i < ws.take(j).len() implies #[trigger] out_arc(
        adj,
        blocked,
        p.take(j + 1)[i],
        p.take(j + 1)[i + 1],
        ws.take(j)[i],
    ) by {
        assert(out_arc(adj, blocked, p[i], p[i + 1], ws[i]));
    }
    assert forall|i: int| 0 <= i < ws.skip(j).len() implies #[trigger] out_arc(
        adj,
        blocked,
        p.skip(j)[i],
        p.skip(j)[i + 1],
        ws.skip(j)[i],
    ) by {
        assert(out_arc(adj, blocked, p[i + j], p[i + j + 1], ws[i + j]));
    }
}

/// A backward walk cut at its `j`-th node into two backward walks.
pub proof fn lemma_split_back_walk(adj: Seq<Seq<Edge>>, p: Seq<int>, ws: Seq<int>, j: int)
    requires
        is_back_walk(adj, p, ws),
        0 <= j <= ws.len(),
    ensures
        back_walk_between(adj, p[0], p[j], p.take(j + 1), ws.take(j)),
        back_walk_between(adj, p[j], p.last(), p.skip(j), ws.skip(j)),
        weight_sum(ws) == weight_sum(ws.take(j)) + weight_sum(ws.skip(j)),
{
    assert(ws.take(j) + ws.skip(j) =~= ws);
    lemma_weight_sum_concat(ws.take(j), ws.skip(j));
    assert forall|i: int| 0 <= i < ws.take(j).len() implies #[trigger] in_arc(
        adj,
        p.take(j + 1)[i],
        p.take(j + 1)[i + 1],
        ws.take(j)[i],
    ) by {
        assert(in_arc(adj, p[i], p[i + 1], ws[i]));
    }
    assert forall|i: int| 0 <= i < ws.skip(j).len() implies #[trigger] in_arc(
        adj,
        p.skip(j)[i],
        p.skip(j)[i + 1],
        ws.skip(j)[i],
    ) by {
        assert(in_arc(adj, p[i + j], p[i + j + 1], ws[i + j]));
    }
}

/// In a paired graph, a backward walk from `t` to `m` can be walked forward
/// from `m` to `t`, at no greater weight.
pub proof fn lemma_back_walk_forward(adj: Seq<Seq<Edge>>, p: Seq<int>, ws: Seq<int>)
    requires
        paired(adj),
        is_back_walk(adj, p, ws),
    ensures
        exists|c: int| c <= weight_sum(ws) && #[trigger] reaches_with(adj, none_blocked(), p.last(), p[0], c),
    decreases ws.len(),
{
    if ws.len() == 0 {
        lemma_trivial_walk(adj, none_blocked(), p[0]);
        assert(p.last() == p[0]);
        assert(reaches_with(adj, none_blocked(), p.last(), p[0], 0));
    } else {
        let k = ws.len() - 1;
        let p0 = p.drop_last();
        let ws0 = ws.drop_last();
        assert forall|j: int| 0 <= j < ws0.len() implies #[trigger] in_arc(adj, p0[j], p0[j + 1], ws0[j]) by {
            assert(in_arc(adj, p[j], p[j + 1], ws[j]));
        }
        lemma_back_walk_forward(adj, p0, ws0);
        let c0 = choose|c: int| c <= weight_sum(ws0) && #[trigger] reaches_with(adj, none_blocked(), p0.last(), p0[0], c);
        assert(in_arc(adj, p[k], p[k + 1], ws[k]));
        let w2 = choose|w2: int| w2 <= ws[k] && #[trigger] out_arc(adj, none_blocked(), p[k + 1], p[k], w2);
        lemma_trivial_walk(adj, none_blocked(), p[k + 1]);
        lemma_extend_walk(adj, none_blocked(), p[k + 1], p[k + 1], p[k], 0, w2);
        assert(p0.last() == p[k]);
        lemma_concat_walk(adj, none_blocked(), p[k + 1], p[k], p[0], w2, c0);
        assert(weight_sum(ws) == weight_sum(ws0) + ws[k]);
        assert(p.last() == p[k + 1]);
        assert(reaches_with(adj, none_blocked(), p.last(), p[0], w2 + c0));
    }
}

} // verus!
