use vstd::prelude::*;
use crate::bitset::BitSet;
use crate::graph::{Edge, Graph};
use crate::min_queue::{MinQueue, pops_first, lemma_push_keeps, lemma_remove_keeps};
use crate::paths::{
    lemma_extend_walk, lemma_frontier, lemma_trivial_walk, none_blocked, out_arc, reaches_with,
    relaxed, search_result, targets_in_range, walk_between, weight_sum, is_distance, no_lighter_walk,
};

verus! {

/// A search entry: a node and a weight at which it was reached.
#[derive(Copy, Clone, PartialEq, Eq, Debug)]
pub struct Distance {
    pub weight: usize,
    pub id: usize,
}

impl Distance {
    pub fn new(weight: usize, id: usize) -> (d: Self)
        ensures
            d == (Distance { weight, id }),
    {
        Distance { weight, id }
    }
}

/// `d + w` when it fits in a `usize`, and `None` when it does not.
pub fn add_weight(d: usize, w: u64) -> (r: Option<usize>)
    ensures
        r is Some <==> d + w <= usize::MAX,
        r matches Some(x) ==> x == d + w,
{
    if w > (usize::MAX - d) as u64 {
        None
    } else {
        Some(d + w as usize)
    }
}

/// A vector of `n` copies of `value`.
pub fn filled<T: Copy>(n: usize, value: T) -> (v: Vec<T>)
    ensures
        v@ == Seq::new(n as nat, |i: int| value),
{
    let mut v: Vec<T> = Vec::new();
    let mut k: usize = 0;
    while k < n
        invariant
            k <= n,
            v@ == Seq::new(k as nat, |i: int| value),
        decreases n - k,
    {
        v.push(value);
        k = k + 1;
        proof {
            assert(v@ =~= Seq::new(k as nat, |i: int| value));
        }
    }
    v
}

pub open spec fn nat_sum(s: Seq<usize>) -> int
    decreases s.len(),
{
    if s.len() == 0 {
        0
    } else {
        nat_sum(s.drop_last()) + s.last()
    }
}

pub proof fn lemma_nat_sum_update(s: Seq<usize>, i: int, v: usize)
    requires
        0 <= i < s.len(),
    ensures
        nat_sum(s.update(i, v)) == nat_sum(s) - s[i] + v,
        nat_sum(s) >= 0,
    decreases s.len(),
{
    if i == s.len() - 1 {
        assert(s.update(i, v).drop_last() =~= s.drop_last());
        lemma_nat_sum_nonneg(s.drop_last());
    } else {
        assert(s.update(i, v).drop_last() =~= s.drop_last().update(i, v));
        lemma_nat_sum_update(s.drop_last(), i, v);
    }
}

pub proof fn lemma_nat_sum_nonneg(s: Seq<usize>)
    ensures
        nat_sum(s) >= 0,
    decreases s.len(),
{
    if s.len() > 0 {
        lemma_nat_sum_nonneg(s.drop_last());
    }
}

/// What a lazy Dijkstra search keeps true between two steps: the source is
/// at distance 0; every finite entry of `dist` is the weight of a walk from
/// the source; every waiting entry carries a weight at least the current
/// distance of its node; and every reached node either waits with its
/// current distance or has had its edges relaxed.
pub open spec fn search_inv(
    adj: Seq<Seq<Edge>>,
    blocked: spec_fn(int) -> bool,
    s: int,
    dist: Seq<usize>,
    q: Seq<Distance>,
) -> bool {
    search_inv_except(adj, blocked, s, dist, q, -1)
}

/// `search_inv` with no claim on whether node `skip` waits or is relaxed.
pub open spec fn search_inv_except(
    adj: Seq<Seq<Edge>>,
    blocked: spec_fn(int) -> bool,
    s: int,
    dist: Seq<usize>,
    q: Seq<Distance>,
    skip: int,
) -> bool {
    &&& dist.len() == adj.len()
    &&& 0 <= s < dist.len()
    &&& dist[s] == 0
    &&& forall|x: int|
        0 <= x < dist.len() && dist[x] < usize::MAX ==> reaches_with(
            adj,
            blocked,
            s,
            x,
            #[trigger] dist[x] as int,
        )
    &&& forall|j: int|
        0 <= j < q.len() ==> (#[trigger] q[j]).id < dist.len() && q[j].weight >= dist[q[j].id as int]
            && q[j].weight < usize::MAX
    &&& forall|x: int|
        0 <= x < dist.len() && dist[x] < usize::MAX && x != skip ==> #[trigger] waiting_or_relaxed(
            adj,
            blocked,
            dist,
            q,
            x,
        )
}

/// A vector of distances read as a function, `usize::MAX` meaning "not reached".
pub open spec fn as_dist(dist: Seq<usize>) -> spec_fn(int) -> int {
    |x: int| dist[x] as int
}

pub open spec fn waiting_or_relaxed(
    adj: Seq<Seq<Edge>>,
    blocked: spec_fn(int) -> bool,
    dist: Seq<usize>,
    q: Seq<Distance>,
    x: int,
) -> bool {
    q.contains(Distance { weight: dist[x], id: x as usize }) || relaxed(adj, blocked, as_dist(dist), usize::MAX as int, x)
}

/// When every waiting entry weighs at least `m` and the target is no
/// farther than `m`, the target's entry of `dist` is final.
pub proof fn lemma_search_done(
    adj: Seq<Seq<Edge>>,
    blocked: spec_fn(int) -> bool,
    s: int,
    t: int,
    dist: Seq<usize>,
    q: Seq<Distance>,
    m: int,
)
    requires
        search_inv(adj, blocked, s, dist, q),
        targets_in_range(adj),
        0 <= t < dist.len(),
        forall|j: int| 0 <= j < q.len() ==> (#[trigger] q[j]).weight >= m,
        dist[t] <= m,
    ensures
        search_result(adj, blocked, s, t, dist[t] as int),
{
    let queued = |x: int| q.contains(Distance { weight: dist[x], id: x as usize });
    assert forall|x: int|
        0 <= x < adj.len() && as_dist(dist)(x) < usize::MAX && #[trigger] queued(x) implies as_dist(dist)(x) >= m by {
        let j = choose|j: int| 0 <= j < q.len() && q[j] == Distance { weight: dist[x], id: x as usize };
        assert(q[j].weight >= m);
    }
    assert forall|x: int|
        0 <= x < adj.len() && #[trigger] as_dist(dist)(x) < usize::MAX implies queued(x) || relaxed(
            adj,
            blocked,
            as_dist(dist),
            usize::MAX as int,
            x,
        ) by {
        assert(waiting_or_relaxed(adj, blocked, dist, q, x));
    }
    assert forall|p: Seq<int>, ws: Seq<int>|
        #[trigger] walk_between(adj, blocked, s, t, p, ws) implies weight_sum(ws) >= dist[t] by {
        if weight_sum(ws) < usize::MAX {
            lemma_frontier(adj, blocked, as_dist(dist), usize::MAX as int, queued, m, p, ws, ws.len() as int);
            assert(ws.take(ws.len() as int) =~= ws);
        }
    }
    if dist[t] == usize::MAX {
        assert forall|p: Seq<int>, ws: Seq<int>|
            #[trigger] walk_between(adj, blocked, s, t, p, ws) implies weight_sum(ws) >= usize::MAX by {
        }
    }
}

/// The value that stands for "not reached" when distances are `Option<usize>`.
pub open spec fn not_reached() -> int {
    usize::MAX as int + 1
}

/// Optional distances read as a function, `None` meaning "not reached".
pub open spec fn opt_dist(w: Seq<Option<usize>>) -> spec_fn(int) -> int {
    |x: int|
        match w[x] {
            Some(v) => v as int,
            None => not_reached(),
        }
}

/// The nodes marked in `bs` are blocked: no walk may enter them.
pub open spec fn blocked_by(bs: Seq<bool>) -> spec_fn(int) -> bool {
    |v: int| bs[v]
}

/// The number of unmarked positions among the first `k`.
pub open spec fn count_unmarked(bs: Seq<bool>, k: int) -> int
    decreases k,
{
    if k <= 0 {
        0
    } else {
        count_unmarked(bs, k - 1) + if bs[k - 1] {
            0int
        } else {
            1int
        }
    }
}

proof fn lemma_count_nonneg(bs: Seq<bool>, k: int)
    ensures
        count_unmarked(bs, k) >= 0,
    decreases k,
{
    if k > 0 {
        lemma_count_nonneg(bs, k - 1);
    }
}

proof fn lemma_count_unmarked(bs: Seq<bool>, i: int, k: int)
    requires
        0 <= i < bs.len(),
        0 <= k <= bs.len(),
        !bs[i],
    ensures
        count_unmarked(bs.update(i, true), k) == count_unmarked(bs, k) - if i < k {
            1int
        } else {
            0int
        },
        count_unmarked(bs, k) >= 0,
    decreases k,
{
    if k > 0 {
        lemma_count_unmarked(bs, i, k - 1);
    }
}

/// The per-node part of the state of a resumable search: a reached node is
/// either optimized (its edges are relaxed and its distance is at most the
/// floor) or waits in the queue with its current distance.
pub open spec fn node_ok(
    adj: Seq<Seq<Edge>>,
    bl: Seq<bool>,
    w: Seq<Option<usize>>,
    opt: Seq<bool>,
    q: Seq<Distance>,
    floor: int,
    x: int,
) -> bool {
    w[x] is Some ==> if opt[x] {
        relaxed(adj, blocked_by(bl), opt_dist(w), not_reached(), x) && w[x].unwrap() <= floor
    } else {
        q.contains(Distance { weight: w[x].unwrap(), id: x as usize })
    }
}

/// The state of a resumable search from `start` that avoids the nodes of `bl`.
pub open spec fn resumable_inv(
    adj: Seq<Seq<Edge>>,
    start: Option<usize>,
    bl: Seq<bool>,
    w: Seq<Option<usize>>,
    opt: Seq<bool>,
    q: Seq<Distance>,
    visited: Seq<usize>,
    floor: int,
) -> bool {
    resumable_inv_except(adj, start, bl, w, opt, q, visited, floor, -1)
}

/// `resumable_inv` with no per-node claim on node `skip`.
pub open spec fn resumable_inv_except(
    adj: Seq<Seq<Edge>>,
    start: Option<usize>,
    bl: Seq<bool>,
    w: Seq<Option<usize>>,
    opt: Seq<bool>,
    q: Seq<Distance>,
    visited: Seq<usize>,
    floor: int,
    skip: int,
) -> bool {
    let n = adj.len();
    &&& targets_in_range(adj)
    &&& w.len() == n
    &&& opt.len() >= n
    &&& forall|j: int| 0 <= j < visited.len() ==> #[trigger] visited[j] < n
    &&& forall|x: int| 0 <= x < n && (w[x] is Some || opt[x]) ==> #[trigger] visited.contains(x as usize)
    &&& forall|x: int| 0 <= x < n && #[trigger] opt[x] ==> w[x] is Some
    &&& forall|j: int|
        0 <= j < q.len() ==> (#[trigger] q[j]).id < n && w[q[j].id as int] is Some && q[j].weight
            >= w[q[j].id as int].unwrap() && q[j].weight >= floor
    &&& start is None ==> q.len() == 0 && forall|x: int| 0 <= x < n ==> #[trigger] w[x] is None
    &&& start matches Some(s) ==> {
        &&& s < n
        &&& bl.len() >= n
        &&& w[s as int] == Some(0usize)
        &&& forall|x: int|
            0 <= x < n && #[trigger] w[x] is Some ==> reaches_with(
                adj,
                blocked_by(bl),
                s as int,
                x,
                w[x].unwrap() as int,
            )
        &&& forall|x: int| 0 <= x < n && x != skip ==> #[trigger] node_ok(adj, bl, w, opt, q, floor, x)
    }
}

/// When every waiting entry weighs at least `m` and every optimized node is
/// no farther than `m`, the distance of an optimized target is final, and a
/// target that was not reached cannot be reached below `not_reached()`.
proof fn lemma_resumable_done(
    adj: Seq<Seq<Edge>>,
    s: usize,
    bl: Seq<bool>,
    w: Seq<Option<usize>>,
    opt: Seq<bool>,
    q: Seq<Distance>,
    visited: Seq<usize>,
    floor: int,
    m: int,
    t: int,
)
    requires
        resumable_inv(adj, Some(s), bl, w, opt, q, visited, floor),
        0 <= t < adj.len(),
        forall|j: int| 0 <= j < q.len() ==> (#[trigger] q[j]).weight >= m,
        opt_dist(w)(t) <= m,
    ensures
        forall|p: Seq<int>, ws: Seq<int>|
            #[trigger] walk_between(adj, blocked_by(bl), s as int, t, p, ws) ==> weight_sum(ws)
                >= opt_dist(w)(t),
{
    let dist = opt_dist(w);
    let blocked = blocked_by(bl);
    let queued = |x: int| !opt[x];
    assert forall|x: int| 0 <= x < adj.len() && dist(x) < not_reached() && #[trigger] queued(x) implies dist(x) >= m by {
        assert(node_ok(adj, bl, w, opt, q, floor, x));
        let j = choose|j: int| 0 <= j < q.len() && q[j] == Distance { weight: w[x].unwrap(), id: x as usize };
        assert(q[j].weight >= m);
    }
    assert forall|x: int|
        0 <= x < adj.len() && #[trigger] dist(x) < not_reached() implies queued(x) || relaxed(
            adj,
            blocked,
            dist,
            not_reached(),
            x,
        ) by {
        assert(node_ok(adj, bl, w, opt, q, floor, x));
    }
    assert forall|p: Seq<int>, ws: Seq<int>|
        #[trigger] walk_between(adj, blocked, s as int, t, p, ws) implies weight_sum(ws) >= dist(t) by {
        if weight_sum(ws) < not_reached() {
            lemma_frontier(adj, blocked, dist, not_reached(), queued, m, p, ws, ws.len() as int);
            assert(ws.take(ws.len() as int) =~= ws);
        }
    }
}

/// A Dijkstra search that can be resumed: repeated queries from the same
/// source continue the search where the previous one stopped.
pub struct Dijkstra<'a> {
    graph: &'a Graph,
    weights: Vec<Option<usize>>,
    heap: MinQueue,
    visited: Vec<usize>,
    old_start: Option<usize>,
    optimized: BitSet,
    search_blocked: Ghost<Seq<bool>>,
    floor: Ghost<int>,
}

impl<'a> Dijkstra<'a> {
    pub closed spec fn graph(&self) -> &'a Graph {
        self.graph
    }

    /// The source of the search in progress, if any.
    pub closed spec fn start(&self) -> Option<usize> {
        self.old_start
    }

    /// The blocked nodes of the search in progress.
    pub closed spec fn search_blocked(&self) -> Seq<bool> {
        self.search_blocked@
    }

    pub closed spec fn wf(&self) -> bool {
        &&& self.graph.well_formed()
        &&& resumable_inv(
            self.graph.adj(),
            self.old_start,
            self.search_blocked@,
            self.weights@,
            self.optimized@,
            self.heap@,
            self.visited@,
            self.floor@,
        )
    }

    pub fn new(graph: &'a Graph) -> (d: Self)
        requires
            graph.well_formed(),
        ensures
            d.graph() == graph,
            d.wf(),
            d.start() is None,
    {
        let n = graph.num_nodes();
        let d = Dijkstra {
            graph,
            weights: filled(n, None),
            heap: MinQueue::new(),
            visited: Vec::new(),
            old_start: None,
            optimized: BitSet::new(n),
            search_blocked: Ghost(Seq::empty()),
            floor: Ghost(0),
        };
        proof {
            lemma_graph_targets(graph);
            assert forall|x: int| 0 <= x < n && #[trigger] d.optimized@[x] implies d.weights@[x] is Some by {
            }
        }
        d
    }

    /// Starts a search from `s` unless the search in progress already has
    /// source `s`; returns the distance of `t` when that search has already
    /// settled it.
    fn reset(&mut self, s: usize, t: usize, Ghost(bl): Ghost<Seq<bool>>) -> (r: Option<usize>)
        requires
            old(self).wf(),
            s < old(self).graph().nodes@.len(),
            t < old(self).graph().nodes@.len(),
            bl.len() >= old(self).graph().nodes@.len(),
            old(self).start() == Some(s) ==> old(self).search_blocked() == bl,
        ensures
            final(self).wf(),
            final(self).graph() == old(self).graph(),
            final(self).start() == Some(s),
            final(self).search_blocked() == bl,
            r matches Some(d) ==> is_distance(
                old(self).graph().adj(),
                blocked_by(bl),
                s as int,
                t as int,
                d as int,
            ),
            r is None ==> !final(self).optimized@[t as int],
            old(self).old_start == Some(s) ==> *final(self) == *old(self) && r == (if old(self).optimized@[t as int] {
                old(self).weights@[t as int]
            } else {
                None
            }),
            old(self).old_start != Some(s) ==> {
                &&& r is None
                &&& final(self).old_start == Some(s)
                &&& final(self).weights@ == Seq::new(
                    old(self).graph().nodes@.len(),
                    |v: int| if v == s as int { Some(0usize) } else { None },
                )
                &&& forall|v: int| 0 <= v < old(self).graph().nodes@.len() ==> !#[trigger] final(self).optimized@[v]
                &&& final(self).heap@ == seq![Distance { weight: 0, id: s }]
                &&& final(self).visited@ == seq![s]
            },
    {
        let ghost adj = self.graph.adj();
        let mut reset = true;
        if let Some(old_start) = self.old_start {
            if old_start == s {
                reset = false;
                if self.optimized.get(t) {
                    let r = self.weights[t];
                    proof {
                        assert(node_ok(adj, bl, self.weights@, self.optimized@, self.heap@, self.floor@, t as int));
                        lemma_resumable_done(adj, s, bl, self.weights@, self.optimized@, self.heap@, self.visited@,
                            self.floor@, self.floor@, t as int);
                    }
                    return r;
                }
            }
        }
        self.old_start = Some(s);
        if reset {
            let n = self.weights.len();
            while self.visited.len() > 0
                invariant
                    n == adj.len(),
                    self.graph == old(self).graph,
                    self.graph.well_formed(),
                    adj == self.graph.adj(),
                    self.old_start == Some(s),
                    self.weights@.len() == n,
                    self.optimized@.len() >= n,
                    forall|j: int| 0 <= j < self.visited@.len() ==> #[trigger] self.visited@[j] < n,
                    forall|x: int|
                        0 <= x < n && (self.weights@[x] is Some || self.optimized@[x]) ==> #[trigger] self.visited@.contains(
                            x as usize,
                        ),
                decreases self.visited@.len(),
            {
                let ghost vis = self.visited@;
                let node = self.visited.pop().unwrap();
                assert(vis.last() == node);
                self.weights.set(node, None);
                self.optimized.set(node, false);
                proof {
                    assert forall|x: int|
                        0 <= x < n && (self.weights@[x] is Some || self.optimized@[x]) implies #[trigger] self.visited@.contains(
                            x as usize,
                        ) by {
                        assert(vis.contains(x as usize));
                        let j = choose|j: int| 0 <= j < vis.len() && vis[j] == x as usize;
                        assert(j != vis.len() - 1);
                        assert(self.visited@[j] == x as usize);
                    }
                }
            }
            proof {
                assert forall|x: int| 0 <= x < n implies #[trigger] self.weights@[x] is None by {
                    if self.weights@[x] is Some {
                        assert(self.visited@.contains(x as usize));
                    }
                }
                assert forall|x: int| 0 <= x < n implies !#[trigger] self.optimized@[x] by {
                    if self.optimized@[x] {
                        assert(self.visited@.contains(x as usize));
                    }
                }
            }
            let ghost w_clear = self.weights@;
            let ghost opt_clear = self.optimized@;
            self.heap.clear();
            self.heap.push(Distance::new(0, s));
            self.weights.set(s, Some(0));
            self.visited.push(s);
            self.search_blocked = Ghost(bl);
            self.floor = Ghost(0);
            proof {
                lemma_graph_targets(self.graph);
                let w = self.weights@;
                let q = self.heap@;
                assert(self.visited@ =~= seq![s]);
                assert(q =~= seq![Distance { weight: 0, id: s }]);
                assert(q.contains(q[0]));
                assert(w == w_clear.update(s as int, Some(0usize)));
                assert(self.optimized@ == opt_clear);
                lemma_trivial_walk(adj, blocked_by(bl), s as int);
                assert(self.visited@[0] == s);
                assert(self.visited@.contains(s));
                assert forall|x: int| 0 <= x < n && #[trigger] w[x] is Some implies reaches_with(
                    adj,
                    blocked_by(bl),
                    s as int,
                    x,
                    w[x].unwrap() as int,
                ) by {
                    if x != s as int {
                        assert(w_clear[x] is None);
                    }
                }
                assert forall|x: int| 0 <= x < n implies #[trigger] node_ok(adj, bl, w, self.optimized@, q, 0, x) by {
                    if x != s as int {
                        assert(w_clear[x] is None);
                    }
                    assert(!opt_clear[x]);
                }
                assert forall|x: int| 0 <= x < n && (w[x] is Some || self.optimized@[x]) implies #[trigger] self.visited@.contains(
                    x as usize,
                ) by {
                    if x != s as int {
                        assert(w_clear[x] is None);
                    }
                    assert(!opt_clear[x]);
                }
                assert forall|x: int| 0 <= x < n && #[trigger] self.optimized@[x] implies w[x] is Some by {
                    assert(!opt_clear[x]);
                }
                assert(w =~= Seq::new(n as nat, |v: int| if v == s as int { Some(0usize) } else { None }));
            }
        } else {
            proof {
                assert(!self.optimized@[t as int]);
            }
        }
        None
    }

    /// The length of a shortest walk from `source` to `target` along forward
    /// edges that never enters a node marked in `contracted`, or `None` when
    /// no such walk weighs at most `usize::MAX`. A search from the same source
    /// as the previous call resumes that search; a search from another source
    /// starts afresh.
    pub fn shortest_path_consider_contraction(
        &mut self,
        source: usize,
        target: usize,
        contracted: &BitSet,
    ) -> (r: Option<usize>)
        requires
            old(self).wf(),
            source < old(self).graph().nodes@.len(),
            target < old(self).graph().nodes@.len(),
            contracted@.len() >= old(self).graph().nodes@.len(),
            old(self).start() == Some(source) ==> old(self).search_blocked() == contracted@,
        ensures
            final(self).wf(),
            final(self).graph() == old(self).graph(),
            final(self).start() == Some(source),
            final(self).search_blocked() == contracted@,
            r matches Some(d) ==> is_distance(
                old(self).graph().adj(),
                blocked_by(contracted@),
                source as int,
                target as int,
                d as int,
            ),
            r is None ==> no_lighter_walk(
                old(self).graph().adj(),
                blocked_by(contracted@),
                source as int,
                target as int,
                not_reached(),
            ),
    {
        if let Some(weight) = self.reset(source, target, Ghost(contracted@)) {
            return Some(weight);
        }
        let ghost adj = self.graph.adj();
        let ghost bl = contracted@;
        let n = self.weights.len();
        loop
            invariant
                self.wf(),
                self.graph() == old(self).graph(),
                adj == self.graph.adj(),
                n == adj.len(),
                self.start() == Some(source),
                self.search_blocked() == bl,
                bl == contracted@,
                source < n,
                target < n,
                !self.optimized@[target as int],
            decreases count_unmarked(self.optimized@, n as int), self.heap@.len(),
        {
            let ghost q0 = self.heap@;
            let ghost w0 = self.weights@;
            let ghost opt0 = self.optimized@;
            match self.heap.pop() {
                None => {
                    proof {
                        let t = target as int;
                        if w0[t] is Some {
                            assert(node_ok(adj, bl, w0, opt0, q0, self.floor@, t));
                            assert(q0.contains(Distance { weight: w0[t].unwrap(), id: target }));
                        }
                        lemma_resumable_done(adj, source, bl, w0, opt0, q0, self.visited@, self.floor@,
                            not_reached(), t);
                    }
                    return None;
                },
                Some(e) => {
                    let weight = e.weight;
                    let id = e.id;
                    let ghost i0 = choose|i: int| 0 <= i < q0.len() && q0[i] == e && self.heap@ == q0.remove(i);
                    proof {
                        assert(q0[i0] == e);
                        assert(self.heap@.len() == q0.len() - 1);
                        assert forall|j: int| 0 <= j < self.heap@.len() implies (#[trigger] self.heap@[j]).id < n
                            && w0[self.heap@[j].id as int] is Some && self.heap@[j].weight >= w0[self.heap@[j].id as int].unwrap()
                            && self.heap@[j].weight >= self.floor@ by {
                            if j < i0 {
                                assert(self.heap@[j] == q0[j]);
                            } else {
                                assert(self.heap@[j] == q0[j + 1]);
                            }
                        }
                    }
                    if self.optimized.get(id) {
                        proof {
                            lemma_count_nonneg(self.optimized@, n as int);
                            assert forall|x: int| 0 <= x < n implies #[trigger] node_ok(adj, bl, w0, opt0, self.heap@,
                                self.floor@, x) by {
                                assert(node_ok(adj, bl, w0, opt0, q0, self.floor@, x));
                                if w0[x] is Some && !opt0[x] {
                                    lemma_remove_keeps(q0, i0, Distance { weight: w0[x].unwrap(), id: x as usize });
                                }
                            }
                        }
                        continue;
                    }
                    proof {
                        assert(node_ok(adj, bl, w0, opt0, q0, self.floor@, id as int));
                        let eid = Distance { weight: w0[id as int].unwrap(), id };
                        let k = choose|k: int| 0 <= k < q0.len() && q0[k] == eid;
                        assert(pops_first(e, q0[k]));
                        assert(weight == w0[id as int].unwrap());
                        assert forall|j: int| 0 <= j < q0.len() implies (#[trigger] q0[j]).weight >= weight by {
                            assert(pops_first(e, q0[j]));
                        }
                        lemma_count_unmarked(opt0, id as int, n as int);
                    }
                    self.settle(id, weight, contracted, Ghost(q0), Ghost(i0));
                    proof {
                        lemma_count_nonneg(self.optimized@, n as int);
                    }
                    if id == target {
                        proof {
                            assert(self.weights@[target as int] == Some(weight));
                            lemma_resumable_done(adj, source, bl, self.weights@, self.optimized@, self.heap@,
                                self.visited@, self.floor@, self.floor@, target as int);
                        }
                        return Some(weight);
                    }
                },
            }
        }
    }

    /// Marks `id` optimized at distance `weight` (the smallest waiting key)
    /// and relaxes its forward edges into unblocked nodes.
    fn settle(
        &mut self,
        id: usize,
        weight: usize,
        contracted: &BitSet,
        Ghost(q0): Ghost<Seq<Distance>>,
        Ghost(i0): Ghost<int>,
    )
        requires
            old(self).graph.well_formed(),
            old(self).start() is Some,
            old(self).search_blocked() == contracted@,
            id < old(self).graph().nodes@.len(),
            !old(self).optimized@[id as int],
            old(self).weights@[id as int] == Some(weight),
            0 <= i0 < q0.len(),
            q0[i0] == (Distance { weight, id }),
            old(self).heap@ == q0.remove(i0),
            resumable_inv(
                old(self).graph().adj(),
                old(self).start(),
                contracted@,
                old(self).weights@,
                old(self).optimized@,
                q0,
                old(self).visited@,
                old(self).floor@,
            ),
            forall|j: int| 0 <= j < q0.len() ==> (#[trigger] q0[j]).weight >= weight,
        ensures
            final(self).wf(),
            final(self).graph() == old(self).graph(),
            final(self).start() == old(self).start(),
            final(self).search_blocked() == old(self).search_blocked(),
            final(self).optimized@ == old(self).optimized@.update(id as int, true),
            final(self).weights@[id as int] == Some(weight),
            final(self).floor@ == weight,
    {
        let ghost adj = self.graph.adj();
        let ghost bl = contracted@;
        let ghost s = self.old_start.unwrap();
        let ghost floor0 = self.floor@;
        let n = self.weights.len();
        proof {
            assert(q0.contains(q0[i0]));
            assert(q0[i0].weight >= floor0);
        }
        self.floor = Ghost(weight as int);
        self.optimized.set(id, true);
        let ghost opt1 = self.optimized@;
        proof {
            let w = self.weights@;
            let q = self.heap@;
            assert forall|j: int| 0 <= j < q.len() implies (#[trigger] q[j]).id < n && w[q[j].id as int] is Some
                && q[j].weight >= w[q[j].id as int].unwrap() && q[j].weight >= weight by {
                if j < i0 {
                    assert(q[j] == q0[j]);
                } else {
                    assert(q[j] == q0[j + 1]);
                }
            }
            assert forall|x: int| 0 <= x < n && #[trigger] opt1[x] implies w[x] is Some by {
                if x != id as int {
                    assert(old(self).optimized@[x]);
                }
            }
            assert forall|x: int| 0 <= x < n && (w[x] is Some || opt1[x]) implies #[trigger] self.visited@.contains(x as usize) by {
                if x != id as int {
                    assert(old(self).optimized@[x] == opt1[x]);
                }
            }
            assert forall|x: int| 0 <= x < n && x != id as int implies #[trigger] node_ok(adj, bl, w, opt1, q, weight as int, x) by {
                assert(node_ok(adj, bl, w, old(self).optimized@, q0, floor0, x));
                assert(old(self).optimized@[x] == opt1[x]);
                if w[x] is Some && !opt1[x] {
                    lemma_remove_keeps(q0, i0, Distance { weight: w[x].unwrap(), id: x as usize });
                }
            }
        }
        let len = self.graph.edges[id].len();
        proof {
            assert(adj[id as int] == self.graph.edges@[id as int]@);
        }
        let mut i: usize = 0;
        while i < len
            invariant
                self.graph == old(self).graph,
                self.graph.well_formed(),
                adj == self.graph.adj(),
                n == adj.len(),
                id < n,
                len == adj[id as int].len(),
                i <= len,
                bl == contracted@,
                contracted@.len() >= n,
                self.old_start == old(self).old_start,
                self.old_start == Some(s),
                self.search_blocked@ == bl,
                self.optimized@ == opt1,
                opt1[id as int],
                self.floor@ == weight,
                self.weights@[id as int] == Some(weight),
                resumable_inv_except(adj, Some(s), bl, self.weights@, opt1, self.heap@, self.visited@,
                    weight as int, id as int),
                forall|k: int|
                    0 <= k < i ==> ((#[trigger] adj[id as int][k]).dir && !blocked_by(bl)(adj[id as int][k].target as int)
                        && opt_dist(self.weights@)(id as int) + adj[id as int][k].weight < not_reached() ==>
                        opt_dist(self.weights@)(adj[id as int][k].target as int) <= opt_dist(self.weights@)(id as int)
                        + adj[id as int][k].weight),
            decreases len - i,
        {
            let e = self.graph.edges[id][i];
            proof {
                assert(e == adj[id as int][i as int]);
                assert(e.target < n);
            }
            if e.dir {
                let v = e.target as usize;
                assert(v as int == e.target as int);
                if !contracted.get(v) {
                    match add_weight(weight, e.weight) {
                        Some(nd) => {
                            let better = match self.weights[v] {
                                None => true,
                                Some(curr) => nd < curr,
                            };
                            if better {
                                let ghost w1 = self.weights@;
                                let ghost q1 = self.heap@;
                                let ghost vis1 = self.visited@;
                                proof {
                                    assert(node_ok(adj, bl, w1, opt1, q1, weight as int, v as int) || v == id);
                                    assert(!opt1[v as int]);
                                    assert(out_arc(adj, blocked_by(bl), id as int, v as int, e.weight as int));
                                    lemma_extend_walk(adj, blocked_by(bl), s as int, id as int, v as int, weight as int,
                                        e.weight as int);
                                }
                                self.weights.set(v, Some(nd));
                                self.heap.push(Distance::new(nd, v));
                                self.visited.push(v);
                                proof {
                                    let w = self.weights@;
                                    let q = self.heap@;
                                    let newe = Distance { weight: nd, id: v };
                                    assert(q == q1.push(newe));
                                    assert(self.visited@ == vis1.push(v));
                                    assert forall|j: int| 0 <= j < self.visited@.len() implies #[trigger] self.visited@[j] < n by {
                                        if j < vis1.len() {
                                            assert(self.visited@[j] == vis1[j]);
                                        }
                                    }
                                    assert forall|x: int| 0 <= x < n && (w[x] is Some || opt1[x]) implies #[trigger] self.visited@.contains(x as usize) by {
                                        if x == v as int {
                                            assert(self.visited@[vis1.len() as int] == v);
                                        } else {
                                            assert(w[x] == w1[x]);
                                            assert(vis1.contains(x as usize));
                                            let j = choose|j: int| 0 <= j < vis1.len() && vis1[j] == x as usize;
                                            assert(self.visited@[j] == x as usize);
                                        }
                                    }
                                    assert forall|j: int| 0 <= j < q.len() implies (#[trigger] q[j]).id < n && w[q[j].id as int] is Some
                                        && q[j].weight >= w[q[j].id as int].unwrap() && q[j].weight >= weight by {
                                        if j < q1.len() {
                                            assert(q[j] == q1[j]);
                                        } else {
                                            assert(q[j] == newe);
                                        }
                                    }
                                    assert forall|x: int| 0 <= x < n && #[trigger] w[x] is Some implies reaches_with(
                                        adj,
                                        blocked_by(bl),
                                        s as int,
                                        x,
                                        w[x].unwrap() as int,
                                    ) by {
                                        if x != v as int {
                                            assert(w1[x] is Some);
                                        }
                                    }
                                    assert forall|x: int| 0 <= x < n && x != id as int implies #[trigger] node_ok(adj, bl, w, opt1, q, weight as int, x) by {
                                        lemma_push_keeps(q1, newe, Distance { weight: w[x].unwrap(), id: x as usize });
                                        if x != v as int {
                                            assert(node_ok(adj, bl, w1, opt1, q1, weight as int, x));
                                            if w[x] is Some && opt1[x] {
                                                assert(relaxed(adj, blocked_by(bl), opt_dist(w1), not_reached(), x));
                                                assert forall|k: int| 0 <= k < adj[x].len() implies
                                                    ((#[trigger] adj[x][k]).dir && !blocked_by(bl)(adj[x][k].target as int)
                                                    && opt_dist(w)(x) + adj[x][k].weight < not_reached() ==>
                                                    opt_dist(w)(adj[x][k].target as int) <= opt_dist(w)(x) + adj[x][k].weight) by {
                                                }
                                            }
                                        }
                                    }
                                }
                            }
                        },
                        None => {},
                    }
                }
            }
            i = i + 1;
        }
        proof {
            let w = self.weights@;
            assert(relaxed(adj, blocked_by(bl), opt_dist(w), not_reached(), id as int));
            assert(node_ok(adj, bl, w, opt1, self.heap@, weight as int, id as int));
        }
    }
    /// The length of a shortest walk from `source` to `target` along forward
    /// edges, or `usize::MAX` when no walk weighs less than `usize::MAX`.
    /// This search keeps its own state and leaves `self` untouched.
    pub fn dijkstra(&self, source: usize, target: usize) -> (r: usize)
        requires
            self.graph().well_formed(),
            source < self.graph().nodes@.len(),
            target < self.graph().nodes@.len(),
        ensures
            search_result(self.graph().adj(), none_blocked(), source as int, target as int, r as int),
    {
        let n = self.graph.num_nodes();
        let ghost adj = self.graph.adj();
        let ghost blocked = none_blocked();
        let mut dist: Vec<usize> = filled(n, usize::MAX);
        let mut prev: Vec<Option<usize>> = filled(n, None);
        let mut heap = MinQueue::new();
        dist.set(source, 0);
        heap.push(Distance::new(0, source));
        proof {
            assert(adj.len() == n);
            lemma_graph_targets(self.graph);
            lemma_trivial_walk(adj, blocked, source as int);
            assert(heap@[0] == Distance { weight: dist@[source as int], id: source });
            assert forall|x: int|
                0 <= x < dist@.len() && dist@[x] < usize::MAX implies #[trigger] waiting_or_relaxed(
                adj,
                blocked,
                dist@,
                heap@,
                x,
            ) by {
                assert(x == source);
                assert(heap@.contains(heap@[0]));
            }
        }
        loop
            invariant_except_break
                search_inv(adj, blocked, source as int, dist@, heap@),
            invariant
                adj == self.graph.adj(),
                blocked == none_blocked(),
                targets_in_range(adj),
                n == adj.len(),
                n == self.graph.edges@.len(),
                dist@.len() == n,
                prev@.len() == n,
                source < n,
                target < n,
            ensures
                search_result(adj, blocked, source as int, target as int, dist@[target as int] as int),
            decreases nat_sum(dist@) + heap@.len(),
        {
            let ghost q0 = heap@;
            let top = heap.pop();
            match top {
                None => {
                    proof {
                        lemma_search_done(adj, blocked, source as int, target as int, dist@, q0, usize::MAX as int);
                    }
                    break;
                },
                Some(e) => {
                    let d = e.weight;
                    let u = e.id;
                    let ghost i0 = choose|i: int| 0 <= i < q0.len() && q0[i] == e && heap@ == q0.remove(i);
                    assert(q0[i0] == e);
                    assert(heap@.len() == q0.len() - 1);
                    if u == target {
                        proof {
                            assert forall|j: int| 0 <= j < q0.len() implies (#[trigger] q0[j]).weight >= d by {
                                assert(pops_first(e, q0[j]));
                            }
                            lemma_search_done(adj, blocked, source as int, target as int, dist@, q0, d as int);
                        }
                        break;
                    }
                    proof {
                        lemma_nat_sum_nonneg(dist@);
                        assert forall|x: int|
                            0 <= x < dist@.len() && dist@[x] < usize::MAX && x != u implies #[trigger] waiting_or_relaxed(
                            adj,
                            blocked,
                            dist@,
                            heap@,
                            x,
                        ) by {
                            assert(waiting_or_relaxed(adj, blocked, dist@, q0, x));
                            let ex = Distance { weight: dist@[x], id: x as usize };
                            if q0.contains(ex) {
                                lemma_remove_keeps(q0, i0, ex);
                            }
                        }
                        assert forall|j: int| 0 <= j < heap@.len() implies (#[trigger] heap@[j]).id < dist@.len()
                            && heap@[j].weight >= dist@[heap@[j].id as int] && heap@[j].weight < usize::MAX by {
                            if j < i0 {
                                assert(heap@[j] == q0[j]);
                            } else {
                                assert(heap@[j] == q0[j + 1]);
                            }
                        }
                    }
                    if d > dist[u] {
                        proof {
                            let eu = Distance { weight: dist@[u as int], id: u };
                            assert(waiting_or_relaxed(adj, blocked, dist@, q0, u as int));
                            if q0.contains(eu) {
                                lemma_remove_keeps(q0, i0, eu);
                            }
                        }
                        continue;
                    }
                    proof {
                        assert(dist@.len() == adj.len());
                        assert(dist@[source as int] == 0);
                        assert(forall|x: int|
                            0 <= x < dist@.len() && dist@[x] < usize::MAX ==> reaches_with(
                                adj,
                                blocked,
                                source as int,
                                x,
                                #[trigger] dist@[x] as int,
                            ));
                        assert(forall|j: int|
                            0 <= j < heap@.len() ==> (#[trigger] heap@[j]).id < dist@.len() && heap@[j].weight >= dist@[heap@[j].id as int]
                                && heap@[j].weight < usize::MAX);
                        assert(forall|x: int|
                            0 <= x < dist@.len() && dist@[x] < usize::MAX && x != u as int ==> #[trigger] waiting_or_relaxed(
                                adj,
                                blocked,
                                dist@,
                                heap@,
                                x,
                            ));
                        assert(d == dist@[u as int]);
                    }
                    self.relax_from(u, d, &mut dist, &mut prev, &mut heap, Ghost(source as int));
                    proof {
                        lemma_nat_sum_nonneg(dist@);
                    }
                },
            }
        }
        dist[target]
    }

    /// Relaxes every forward edge leaving `u`, which is at distance `d`.
    fn relax_from(
        &self,
        u: usize,
        d: usize,
        dist: &mut Vec<usize>,
        prev: &mut Vec<Option<usize>>,
        heap: &mut MinQueue,
        Ghost(s): Ghost<int>,
    )
        requires
            targets_in_range(self.graph().adj()),
            old(dist)@.len() == self.graph().edges@.len(),
            old(prev)@.len() == old(dist)@.len(),
            u < old(dist)@.len(),
            old(dist)@[u as int] == d,
            d < usize::MAX,
            search_inv_except(self.graph().adj(), none_blocked(), s, old(dist)@, old(heap)@, u as int),
        ensures
            search_inv(self.graph().adj(), none_blocked(), s, final(dist)@, final(heap)@),
            final(prev)@.len() == final(dist)@.len(),
            nat_sum(final(dist)@) + final(heap)@.len() <= nat_sum(old(dist)@) + old(heap)@.len(),
    {
        let ghost adj = self.graph.adj();
        let ghost blocked = none_blocked();
        let ghost d0 = dist@;
        let ghost q0 = heap@;
        let len = self.graph.edges[u].len();
        let n = dist.len();
        let mut i: usize = 0;
        proof {
            assert(adj[u as int] == self.graph.edges@[u as int]@);
        }
        while i < len
            invariant
                adj == self.graph.adj(),
                blocked == none_blocked(),
                targets_in_range(adj),
                len == adj[u as int].len(),
                n == dist@.len(),
                i <= len,
                dist@.len() == adj.len(),
                prev@.len() == dist@.len(),
                u < dist@.len(),
                dist@[u as int] == d,
                d < usize::MAX,
                0 <= s < dist@.len(),
                dist@[s] == 0,
                nat_sum(dist@) + heap@.len() <= nat_sum(d0) + q0.len(),
                forall|x: int|
                    0 <= x < dist@.len() && dist@[x] < usize::MAX ==> reaches_with(
                        adj,
                        blocked,
                        s,
                        x,
                        #[trigger] dist@[x] as int,
                    ),
                forall|j: int|
                    0 <= j < heap@.len() ==> (#[trigger] heap@[j]).id < dist@.len() && heap@[j].weight
                        >= dist@[heap@[j].id as int] && heap@[j].weight < usize::MAX,
                forall|x: int|
                    0 <= x < dist@.len() && dist@[x] < usize::MAX && x != u ==> #[trigger] waiting_or_relaxed(
                        adj,
                        blocked,
                        dist@,
                        heap@,
                        x,
                    ),
                forall|k: int|
                    0 <= k < i ==> ((#[trigger] adj[u as int][k]).dir && d + adj[u as int][k].weight
                        < usize::MAX ==> dist@[adj[u as int][k].target as int] <= d + adj[u as int][k].weight),
            decreases len - i,
        {
            let e = self.graph.edges[u][i];
            proof {
                assert(e == adj[u as int][i as int]);
                assert(e.target < adj.len());
            }
            assert(e.target < n);
            if e.dir {
                let v = e.target as usize;
                assert(v as int == e.target as int);
                match add_weight(d, e.weight) {
                    Some(nd) => {
                        if nd < dist[v] {
                            let ghost dd = dist@;
                            let ghost qq = heap@;
                            proof {
                                assert(!blocked(v as int));
                                assert(adj[u as int][i as int].target == v as int);
                                assert(out_arc(adj, blocked, u as int, v as int, e.weight as int));
                                lemma_extend_walk(adj, blocked, s, u as int, v as int, d as int, e.weight as int);
                                lemma_nat_sum_update(dd, v as int, nd);
                            }
                            dist.set(v, nd);
                            prev.set(v, Some(u));
                            heap.push(Distance::new(nd, v));
                            proof {
                                let newe = Distance { weight: nd, id: v };
                                assert forall|x: int|
                                    0 <= x < dist@.len() && dist@[x] < usize::MAX && x != u implies #[trigger] waiting_or_relaxed(
                                    adj,
                                    blocked,
                                    dist@,
                                    heap@,
                                    x,
                                ) by {
                                    lemma_push_keeps(qq, newe, Distance { weight: dist@[x], id: x as usize });
                                    if x != v as int {
                                        assert(waiting_or_relaxed(adj, blocked, dd, qq, x));
                                        if !qq.contains(Distance { weight: dd[x], id: x as usize }) {
                                            assert(relaxed(adj, blocked, as_dist(dd), usize::MAX as int, x));
                                            assert forall|k: int| 0 <= k < adj[x].len() implies
                                                ((#[trigger] adj[x][k]).dir && !blocked(adj[x][k].target as int)
                                                && dist@[x] + adj[x][k].weight < usize::MAX ==> dist@[adj[x][k].target as int]
                                                <= dist@[x] + adj[x][k].weight) by {
                                            }
                                        }
                                    }
                                }
                                assert forall|j: int| 0 <= j < heap@.len() implies (#[trigger] heap@[j]).id < dist@.len()
                                    && heap@[j].weight >= dist@[heap@[j].id as int] && heap@[j].weight < usize::MAX by {
                                    if j < qq.len() {
                                        assert(heap@[j] == qq[j]);
                                    } else {
                                        assert(heap@[j] == newe);
                                    }
                                }
                            }
                        }
                    },
                    None => {},
                }
            }
            i = i + 1;
        }
        proof {
            assert forall|x: int|
                0 <= x < dist@.len() && dist@[x] < usize::MAX implies #[trigger] waiting_or_relaxed(
                adj,
                blocked,
                dist@,
                heap@,
                x,
            ) by {
                if x == u as int {
                    assert forall|k: int| 0 <= k < adj[x].len() implies
                        ((#[trigger] adj[x][k]).dir && !blocked(adj[x][k].target as int)
                        && dist@[x] + adj[x][k].weight < usize::MAX ==> dist@[adj[x][k].target as int]
                        <= dist@[x] + adj[x][k].weight) by {
                    }
                }
            }
        }
    }
}

pub proof fn lemma_graph_targets(g: &Graph)
    requires
        g.well_formed(),
    ensures
        targets_in_range(g.adj()),
        g.adj().len() == g.nodes@.len(),
{
    let adj = g.adj();
    assert forall|u: int, i: int|
        0 <= u < adj.len() && 0 <= i < adj[u].len() implies (#[trigger] adj[u][i]).target
        < adj.len() by {
        assert(adj[u] == g.edges@[u]@);
        assert(g.edges@[u]@[i].target < g.nodes@.len());
    }
}

} // verus!
