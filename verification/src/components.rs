//! Weakly connected components, by depth-first search over the stored edges
//! in both directions.
use vstd::prelude::*;
use crate::graph::{Edge, Graph};
use crate::dijkstra::lemma_graph_targets;
use crate::paths::{in_arc, none_blocked, out_arc, paired, targets_in_range};
use crate::permutation::{
    inverse, is_permutation, lemma_permuted_targets, lemma_position, permuted_adj, position, relabel,
};

verus! {

/// Some edge stored at `u` points to `v` (in either direction).
pub open spec fn linked(adj: Seq<Seq<Edge>>, u: int, v: int) -> bool {
    0 <= u < adj.len() && exists|i: int| 0 <= i < adj[u].len() && (#[trigger] adj[u][i]).target == v
}

/// `p` is a chain of linked nodes.
pub open spec fn is_chain(adj: Seq<Seq<Edge>>, p: Seq<int>) -> bool {
    p.len() > 0 && forall|j: int| 0 <= j < p.len() - 1 ==> #[trigger] linked(adj, p[j], p[j + 1])
}

/// `b` can be reached from `a` along stored edges.
pub open spec fn reaches(adj: Seq<Seq<Edge>>, a: int, b: int) -> bool {
    exists|p: Seq<int>| #[trigger] is_chain(adj, p) && p[0] == a && p.last() == b
}

/// No smaller node reaches `u`.
pub open spec fn is_start(adj: Seq<Seq<Edge>>, u: int) -> bool {
    forall|j: int| 0 <= j < u ==> !#[trigger] reaches(adj, j, u)
}

/// The number of nodes below `n` that no smaller node reaches: one per
/// component when every edge is stored at both of its ends
/// (`lemma_one_start_per_component`).
pub open spec fn component_starts(adj: Seq<Seq<Edge>>, n: int) -> int
    decreases n,
{
    if n <= 0 {
        0
    } else {
        component_starts(adj, n - 1) + if is_start(adj, n - 1) {
            1int
        } else {
            0int
        }
    }
}

/// Every node linked from a marked node is marked.
pub open spec fn closed(adj: Seq<Seq<Edge>>, marked: Seq<bool>) -> bool {
    forall|u: int, v: int| 0 <= u < marked.len() && marked[u] && #[trigger] linked(adj, u, v) ==> marked[v]
}

/// In a closed set, everything reachable from a marked node is marked.
proof fn lemma_closed_reach(adj: Seq<Seq<Edge>>, marked: Seq<bool>, p: Seq<int>, k: int)
    requires
        closed(adj, marked),
        marked.len() == adj.len(),
        targets_in_range(adj),
        is_chain(adj, p),
        0 <= p[0] < marked.len(),
        marked[p[0]],
        0 <= k < p.len(),
    ensures
        0 <= p[k] < marked.len() && marked[p[k]],
    decreases k,
{
    if k > 0 {
        lemma_closed_reach(adj, marked, p, k - 1);
        let j = k - 1;
        assert(linked(adj, p[j], p[j + 1]));
        let i = choose|i: int| 0 <= i < adj[p[j]].len() && (#[trigger] adj[p[j]][i]).target == p[j + 1];
        assert(adj[p[j]][i].target < adj.len());
    }
}

proof fn lemma_reach_extend(adj: Seq<Seq<Edge>>, a: int, b: int, c: int)
    requires
        reaches(adj, a, b),
        linked(adj, b, c),
    ensures
        reaches(adj, a, c),
{
    let p = choose|p: Seq<int>| #[trigger] is_chain(adj, p) && p[0] == a && p.last() == b;
    let q = p.push(c);
    assert forall|j: int| 0 <= j < q.len() - 1 implies #[trigger] linked(adj, q[j], q[j + 1]) by {
        if j < p.len() - 1 {
            assert(linked(adj, p[j], p[j + 1]));
        }
    }
    assert(is_chain(adj, q));
}

proof fn lemma_reach_self(adj: Seq<Seq<Edge>>, a: int)
    ensures
        reaches(adj, a, a),
{
    assert(is_chain(adj, seq![a]));
}

/// In a paired graph an edge links its two ends both ways.
proof fn lemma_linked_symmetric(adj: Seq<Seq<Edge>>, u: int, v: int)
    requires
        paired(adj),
        linked(adj, u, v),
    ensures
        linked(adj, v, u),
{
    let i = choose|i: int| 0 <= i < adj[u].len() && (#[trigger] adj[u][i]).target == v;
    let e = adj[u][i];
    if e.dir {
        assert(out_arc(adj, none_blocked(), u, v, e.weight as int));
        let w2 = choose|w2: int| w2 <= e.weight && #[trigger] in_arc(adj, v, u, w2);
        let k = choose|k: int|
            0 <= k < adj[v].len() && !(#[trigger] adj[v][k]).dir && adj[v][k].target == u && adj[v][k].weight == w2;
        assert(adj[v][k].target == u);
    } else {
        assert(in_arc(adj, u, v, e.weight as int));
        let w2 = choose|w2: int| w2 <= e.weight && #[trigger] out_arc(adj, none_blocked(), v, u, w2);
        let k = choose|k: int|
            0 <= k < adj[v].len() && (#[trigger] adj[v][k]).dir && adj[v][k].target == u && adj[v][k].weight == w2
                && !(none_blocked())(u);
        assert(adj[v][k].target == u);
    }
}

proof fn lemma_reach_symmetric(adj: Seq<Seq<Edge>>, a: int, b: int)
    requires
        paired(adj),
        reaches(adj, a, b),
    ensures
        reaches(adj, b, a),
{
    let p = choose|p: Seq<int>| #[trigger] is_chain(adj, p) && p[0] == a && p.last() == b;
    let q = p.reverse();
    assert forall|j: int| 0 <= j < q.len() - 1 implies #[trigger] linked(adj, q[j], q[j + 1]) by {
        let k = p.len() - 2 - j;
        assert(linked(adj, p[k], p[k + 1]));
        assert(q[j] == p[k + 1]);
        assert(q[j + 1] == p[k]);
        lemma_linked_symmetric(adj, p[k], p[k + 1]);
    }
    assert(is_chain(adj, q));
}

proof fn lemma_reach_trans(adj: Seq<Seq<Edge>>, a: int, b: int, c: int)
    requires
        reaches(adj, a, b),
        reaches(adj, b, c),
    ensures
        reaches(adj, a, c),
{
    let p = choose|p: Seq<int>| #[trigger] is_chain(adj, p) && p[0] == a && p.last() == b;
    let q = choose|q: Seq<int>| #[trigger] is_chain(adj, q) && q[0] == b && q.last() == c;
    let r = p + q.drop_first();
    assert forall|j: int| 0 <= j < r.len() - 1 implies #[trigger] linked(adj, r[j], r[j + 1]) by {
        if j < p.len() - 1 {
            assert(linked(adj, p[j], p[j + 1]));
        } else {
            let k = j - (p.len() - 1);
            assert(linked(adj, q[k], q[k + 1]));
            assert(r[j] == q[k]);
            assert(r[j + 1] == q[k + 1]);
        }
    }
    assert(is_chain(adj, r));
    if q.len() == 1 {
        assert(r.last() == p.last());
    } else {
        assert(r.last() == q.last());
    }
}

/// Some node at most `u` that no smaller node reaches reaches `u`.
proof fn lemma_start_exists(adj: Seq<Seq<Edge>>, u: int) -> (s: int)
    requires
        0 <= u,
    ensures
        0 <= s <= u,
        is_start(adj, s),
        reaches(adj, s, u),
    decreases u,
{
    lemma_reach_self(adj, u);
    if is_start(adj, u) {
        u
    } else {
        let j = choose|j: int| 0 <= j < u && #[trigger] reaches(adj, j, u);
        let s = lemma_start_exists(adj, j);
        lemma_reach_trans(adj, s, j, u);
        s
    }
}

/// When every edge is stored at both of its ends, the nodes that
/// `component_starts` counts stand one for each weakly connected
/// component: every node is reached from one of them, and from no other.
pub proof fn lemma_one_start_per_component(adj: Seq<Seq<Edge>>, u: int)
    requires
        paired(adj),
        0 <= u < adj.len(),
    ensures
        exists|s: int| 0 <= s <= u && is_start(adj, s) && #[trigger] reaches(adj, s, u),
        forall|s1: int, s2: int|
            0 <= s1 && 0 <= s2 && is_start(adj, s1) && is_start(adj, s2) && #[trigger] reaches(adj, s1, u)
                && #[trigger] reaches(adj, s2, u) ==> s1 == s2,
{
    let s = lemma_start_exists(adj, u);
    assert(reaches(adj, s, u));
    assert forall|s1: int, s2: int|
        0 <= s1 && 0 <= s2 && is_start(adj, s1) && is_start(adj, s2) && #[trigger] reaches(adj, s1, u)
            && #[trigger] reaches(adj, s2, u) implies s1 == s2 by {
        if s1 < s2 {
            lemma_reach_symmetric(adj, s2, u);
            lemma_reach_trans(adj, s1, u, s2);
            assert(reaches(adj, s1, s2));
        } else if s2 < s1 {
            lemma_reach_symmetric(adj, s1, u);
            lemma_reach_trans(adj, s2, u, s1);
            assert(reaches(adj, s2, s1));
        }
    }
}

/// An edge of the graph links the new numbers of its ends in the renumbered
/// graph, and the other way round.
proof fn lemma_permuted_linked(adj: Seq<Seq<Edge>>, perm: Seq<usize>, u: int, v: int)
    requires
        is_permutation(perm, adj.len()),
        adj.len() <= usize::MAX,
        targets_in_range(adj),
        0 <= u < adj.len(),
        0 <= v < adj.len(),
    ensures
        linked(adj, u, v) <==> linked(permuted_adj(adj, perm), inverse(perm)[u] as int, inverse(perm)[v] as int),
{
    let n = adj.len();
    let pos = inverse(perm);
    let adj2 = permuted_adj(adj, perm);
    lemma_position(perm, n);
    let x = pos[u] as int;
    assert(position(perm, u) == x);
    assert(perm[x] == u);
    assert(adj2[x] == adj[u].map_values(|e: Edge| relabel(e, pos)));
    if linked(adj, u, v) {
        let i = choose|i: int| 0 <= i < adj[u].len() && (#[trigger] adj[u][i]).target == v;
        assert(adj2[x][i] == relabel(adj[u][i], pos));
    }
    if linked(adj2, x, pos[v] as int) {
        let i = choose|i: int| 0 <= i < adj2[x].len() && (#[trigger] adj2[x][i]).target == pos[v] as int;
        let e = adj[u][i];
        assert(adj2[x][i] == relabel(e, pos));
        let t = e.target as int;
        assert(t < n);
        assert(position(perm, t) == pos[t] as int);
        assert(perm[pos[t] as int] == t);
        assert(perm[pos[v] as int] == v);
    }
}

/// The nodes of a chain that starts at a node are nodes.
proof fn lemma_chain_in_range(adj: Seq<Seq<Edge>>, p: Seq<int>)
    requires
        targets_in_range(adj),
        is_chain(adj, p),
        0 <= p[0] < adj.len(),
    ensures
        forall|j: int| 0 <= j < p.len() ==> 0 <= #[trigger] p[j] < adj.len(),
{
    assert forall|j: int| 0 <= j < p.len() implies 0 <= #[trigger] p[j] < adj.len() by {
        if j > 0 {
            assert(linked(adj, p[j - 1], p[j - 1 + 1]));
            let u = p[j - 1];
            let i = choose|i: int| 0 <= i < adj[u].len() && (#[trigger] adj[u][i]).target == p[j];
            assert(adj[u][i].target < adj.len());
        }
    }
}

/// Reaching carries over to the new numbers, and back.
proof fn lemma_permuted_reaches(adj: Seq<Seq<Edge>>, perm: Seq<usize>, a: int, b: int)
    requires
        is_permutation(perm, adj.len()),
        adj.len() <= usize::MAX,
        targets_in_range(adj),
        0 <= a < adj.len(),
        0 <= b < adj.len(),
    ensures
        reaches(adj, a, b) <==> reaches(permuted_adj(adj, perm), inverse(perm)[a] as int, inverse(perm)[b] as int),
{
    let n = adj.len();
    let pos = inverse(perm);
    let adj2 = permuted_adj(adj, perm);
    lemma_position(perm, n);
    lemma_permuted_targets(adj, perm);
    let a2 = pos[a] as int;
    let b2 = pos[b] as int;
    assert(position(perm, a) == a2 && position(perm, b) == b2);
    if reaches(adj, a, b) {
        let p = choose|p: Seq<int>| #[trigger] is_chain(adj, p) && p[0] == a && p.last() == b;
        lemma_chain_in_range(adj, p);
        let q = p.map_values(|x: int| pos[x] as int);
        assert forall|j: int| 0 <= j < q.len() - 1 implies #[trigger] linked(adj2, q[j], q[j + 1]) by {
            assert(linked(adj, p[j], p[j + 1]));
            lemma_permuted_linked(adj, perm, p[j], p[j + 1]);
        }
        assert(is_chain(adj2, q));
        assert(q.last() == q[q.len() - 1]);
    }
    if reaches(adj2, a2, b2) {
        let q = choose|q: Seq<int>| #[trigger] is_chain(adj2, q) && q[0] == a2 && q.last() == b2;
        lemma_chain_in_range(adj2, q);
        let p = q.map_values(|x: int| perm[x] as int);
        assert forall|j: int| 0 <= j < p.len() - 1 implies #[trigger] linked(adj, p[j], p[j + 1]) by {
            assert(linked(adj2, q[j], q[j + 1]));
            let u = perm[q[j]] as int;
            let v = perm[q[j + 1]] as int;
            assert(position(perm, u) == q[j]);
            assert(position(perm, v) == q[j + 1]);
            lemma_permuted_linked(adj, perm, u, v);
        }
        assert(is_chain(adj, p));
        assert(p.last() == p[p.len() - 1]);
        assert(perm[a2] == a && perm[b2] == b);
    }
}

/// The nodes below `k` that no smaller node reaches.
pub open spec fn starts_below(adj: Seq<Seq<Edge>>, k: int) -> Set<int> {
    Set::new(|u: int| 0 <= u < k && is_start(adj, u))
}

proof fn lemma_starts_below(adj: Seq<Seq<Edge>>, k: int)
    requires
        0 <= k,
    ensures
        starts_below(adj, k).finite(),
        starts_below(adj, k).len() == component_starts(adj, k),
    decreases k,
{
    if k == 0 {
        assert(starts_below(adj, 0) =~= Set::<int>::empty());
    } else {
        lemma_starts_below(adj, k - 1);
        let prev = starts_below(adj, k - 1);
        if is_start(adj, k - 1) {
            assert(starts_below(adj, k) =~= prev.insert(k - 1));
        } else {
            assert(starts_below(adj, k) =~= prev);
        }
    }
}

/// The start of the component of `u` in `adj`.
spec fn start_of(adj: Seq<Seq<Edge>>, u: int) -> int {
    choose|s: int| 0 <= s <= u && is_start(adj, s) && #[trigger] reaches(adj, s, u)
}

/// When renumbering by `to` (undone by `back`) keeps reaching, and reaching
/// goes both ways, the starts of `a` are no more than those of `b`: each
/// start goes to the start of the component of its new number, and no two
/// starts go to the same one.
proof fn lemma_starts_map(
    a: Seq<Seq<Edge>>,
    b: Seq<Seq<Edge>>,
    to: spec_fn(int) -> int,
    back: spec_fn(int) -> int,
    n: int,
)
    requires
        0 <= n,
        forall|u: int| 0 <= u < n ==> 0 <= #[trigger] to(u) < n,
        forall|u: int| 0 <= u < n ==> 0 <= #[trigger] back(u) < n && to(back(u)) == u,
        forall|x: int, y: int|
            #![trigger reaches(a, x, y)]
            #![trigger reaches(b, to(x), to(y))]
            0 <= x < n && 0 <= y < n ==> (reaches(a, x, y) <==> reaches(b, to(x), to(y))),
        forall|x: int, y: int| 0 <= x < n && 0 <= y < n && #[trigger] reaches(a, x, y) ==> reaches(a, y, x),
    ensures
        starts_below(a, n).len() <= starts_below(b, n).len(),
{
    let sa = starts_below(a, n);
    let sb = starts_below(b, n);
    lemma_starts_below(a, n);
    lemma_starts_below(b, n);
    let f = |s: int| start_of(b, to(s));
    assert forall|s: int| sa.contains(s) implies sb.contains(#[trigger] f(s)) && reaches(b, f(s), to(s)) by {
        let t = lemma_start_exists(b, to(s));
        assert(reaches(b, t, to(s)));
    }
    assert(vstd::relations::injective_on(f, sa)) by {
        assert forall|s1: int, s2: int| sa.contains(s1) && sa.contains(s2) && #[trigger] f(s1) == #[trigger] f(s2) implies s1 == s2 by {
            let x = f(s1);
            assert(sb.contains(f(s1)) && sb.contains(f(s2)));
            let y = back(x);
            assert(to(y) == x);
            assert(reaches(b, to(y), to(s1)) && reaches(b, to(y), to(s2)));
            assert(reaches(a, y, s1) && reaches(a, y, s2));
            assert(reaches(a, s1, y) && reaches(a, s2, y));
            if s1 < s2 {
                lemma_reach_trans(a, s1, y, s2);
                assert(is_start(a, s2));
                assert(!reaches(a, s1, s2));
            } else if s2 < s1 {
                lemma_reach_trans(a, s2, y, s1);
                assert(is_start(a, s1));
                assert(!reaches(a, s2, s1));
            }
        }
    }
    let img = sa.map(f);
    vstd::set_lib::lemma_map_size(sa, img, f);
    assert(img.subset_of(sb));
    vstd::set_lib::lemma_len_subset(img, sb);
}

/// When every edge is stored at both of its ends, renumbering the nodes
/// keeps the number of weakly connected components: `component_starts` is
/// the same for the graph and for the renumbered graph.
pub proof fn lemma_permuted_components(adj: Seq<Seq<Edge>>, perm: Seq<usize>)
    requires
        is_permutation(perm, adj.len()),
        adj.len() <= usize::MAX,
        targets_in_range(adj),
        paired(adj),
    ensures
        component_starts(permuted_adj(adj, perm), adj.len() as int) == component_starts(adj, adj.len() as int),
{
    let n = adj.len() as int;
    let pos = inverse(perm);
    let adj2 = permuted_adj(adj, perm);
    let to = |u: int| pos[u] as int;
    let back = |x: int| perm[x] as int;
    lemma_position(perm, n as nat);
    lemma_permuted_targets(adj, perm);
    assert forall|u: int| 0 <= u < n implies 0 <= #[trigger] to(u) < n && 0 <= back(u) < n && to(back(u)) == u
        && back(to(u)) == u by {
        assert(position(perm, u) == pos[u] as int);
        assert(position(perm, perm[u] as int) == u);
    }
    assert forall|x: int, y: int|
        #![trigger reaches(adj, x, y)]
        #![trigger reaches(adj2, to(x), to(y))]
        0 <= x < n && 0 <= y < n implies (reaches(adj, x, y) <==> reaches(adj2, to(x), to(y))) by {
        lemma_permuted_reaches(adj, perm, x, y);
    }
    assert forall|x: int, y: int|
        #![trigger reaches(adj2, x, y)]
        #![trigger reaches(adj, back(x), back(y))]
        0 <= x < n && 0 <= y < n implies (reaches(adj2, x, y) <==> reaches(adj, back(x), back(y))) by {
        lemma_permuted_reaches(adj, perm, back(x), back(y));
        assert(to(back(x)) == x && to(back(y)) == y);
    }
    assert forall|x: int, y: int| 0 <= x < n && 0 <= y < n && #[trigger] reaches(adj, x, y) implies reaches(adj, y, x) by {
        lemma_reach_symmetric(adj, x, y);
    }
    assert forall|x: int, y: int| 0 <= x < n && 0 <= y < n && #[trigger] reaches(adj2, x, y) implies reaches(adj2, y, x) by {
        assert(reaches(adj, back(x), back(y)));
        lemma_reach_symmetric(adj, back(x), back(y));
        assert(reaches(adj, back(y), back(x)));
    }
    lemma_starts_map(adj, adj2, to, back, n);
    lemma_starts_map(adj2, adj, back, to, n);
    lemma_starts_below(adj, n);
    lemma_starts_below(adj2, n);
}

/// Marks every node reachable from `start`. The marked nodes must be closed
/// under the edges, and `start` must not be marked yet.
fn dfs(graph: &Graph, start: usize, visited: &mut Vec<bool>)
    requires
        graph.well_formed(),
        old(visited)@.len() == graph.nodes@.len(),
        start < graph.nodes@.len(),
        closed(graph.adj(), old(visited)@),
    ensures
        final(visited)@.len() == old(visited)@.len(),
        closed(graph.adj(), final(visited)@),
        forall|x: int|
            0 <= x < final(visited)@.len() ==> (#[trigger] final(visited)@[x] <==> (old(visited)@[x]
                || reaches(graph.adj(), start as int, x))),
{
    let ghost adj = graph.adj();
    let ghost v0 = visited@;
    let n = graph.nodes.len();
    proof {
        lemma_graph_targets(graph);
    }
    let mut stack: Vec<usize> = Vec::new();
    stack.push(start);
    visited.set(start, true);
    proof {
        lemma_reach_self(adj, start as int);
        assert forall|u: int, v: int|
            0 <= u < n && visited@[u] && !stack@.contains(u as usize) && #[trigger] linked(adj, u, v) implies visited@[v] by {
            if u == start as int {
                assert(stack@[0] == start);
            } else {
                assert(v0[u]);
            }
        }
        lemma_count_bound(visited@, n as int);
    }
    while stack.len() > 0
        invariant
            graph.well_formed(),
            adj == graph.adj(),
            targets_in_range(adj),
            n == adj.len(),
            start < n,
            visited@.len() == n,
            v0.len() == n,
            closed(adj, v0),
            forall|j: int| 0 <= j < stack@.len() ==> (#[trigger] stack@[j]) < n && visited@[stack@[j] as int],
            forall|x: int| 0 <= x < n ==> (#[trigger] visited@[x] <==> (v0[x] || (visited@[x] && reaches(adj, start as int, x)))),
            forall|x: int| 0 <= x < n && visited@[x] && !v0[x] ==> #[trigger] reaches(adj, start as int, x),
            visited@[start as int],
            forall|u: int, v: int|
                0 <= u < n && visited@[u] && !stack@.contains(u as usize) && #[trigger] linked(adj, u, v) ==> visited@[v],
        decreases n - count_marked(visited@, n as int), stack@.len(),
    {
        let ghost vis_before = visited@;
        let ghost st_before = stack@;
        proof {
            lemma_count_bound(vis_before, n as int);
        }
        let node = stack.pop().unwrap();
        proof {
            assert(st_before.last() == node);
            assert(stack@ =~= st_before.drop_last());
            assert forall|u: int, v: int|
                0 <= u < n && visited@[u] && !stack@.contains(u as usize) && u != node as int && #[trigger] linked(adj, u, v)
                implies visited@[v] by {
                if st_before.contains(u as usize) {
                    let j = choose|j: int| 0 <= j < st_before.len() && st_before[j] == u as usize;
                    assert(j != st_before.len() - 1);
                    assert(stack@[j] == u as usize);
                }
            }
        }
        let len = graph.edges[node].len();
        proof {
            assert(adj[node as int] == graph.edges@[node as int]@);
        }
        let mut i: usize = 0;
        while i < len
            invariant
                graph.well_formed(),
                adj == graph.adj(),
                targets_in_range(adj),
                n == adj.len(),
                start < n,
                node < n,
                len == adj[node as int].len(),
                i <= len,
                visited@.len() == n,
                v0.len() == n,
                closed(adj, v0),
                visited@[node as int],
                forall|j: int| 0 <= j < stack@.len() ==> (#[trigger] stack@[j]) < n && visited@[stack@[j] as int],
                forall|x: int| 0 <= x < n && visited@[x] && !v0[x] ==> #[trigger] reaches(adj, start as int, x),
                forall|x: int| 0 <= x < n && v0[x] ==> #[trigger] visited@[x],
                visited@[start as int],
                forall|x: int| 0 <= x < n && vis_before[x] ==> #[trigger] visited@[x],
                count_marked(visited@, n as int) - count_marked(vis_before, n as int) == stack@.len() - (st_before.len() - 1),
                stack@.len() >= st_before.len() - 1,
                st_before.len() >= 1,
                forall|k: int| 0 <= k < i ==> visited@[(#[trigger] adj[node as int][k]).target as int],
                forall|u: int, v: int|
                    0 <= u < n && visited@[u] && !stack@.contains(u as usize) && u != node as int && #[trigger] linked(adj, u, v) ==> visited@[v],
            decreases len - i,
        {
            let v = graph.edges[node][i].target as usize;
            proof {
                assert(graph.edges@[node as int]@[i as int] == adj[node as int][i as int]);
                assert(adj[node as int][i as int].target < n);
            }
            if !visited[v] {
                let ghost vb = visited@;
                let ghost sb = stack@;
                visited.set(v, true);
                stack.push(v);
                proof {
                    assert(reaches(adj, start as int, node as int) || v0[node as int]);
                    if !v0[node as int] {
                        assert(linked(adj, node as int, v as int));
                        lemma_reach_extend(adj, start as int, node as int, v as int);
                    } else {
                        assert(linked(adj, node as int, v as int));
                        assert(v0[v as int]);
                    }
                    lemma_count_marked(vb, v as int, n as int);
                    assert forall|u: int, w: int|
                        0 <= u < n && visited@[u] && !stack@.contains(u as usize) && u != node as int && #[trigger] linked(adj, u, w)
                        implies visited@[w] by {
                        if u != v as int {
                            if sb.contains(u as usize) {
                                let j = choose|j: int| 0 <= j < sb.len() && sb[j] == u as usize;
                                assert(stack@[j] == u as usize);
                            }
                        } else {
                            assert(stack@[stack@.len() - 1] == v);
                        }
                    }
                    assert forall|j: int| 0 <= j < stack@.len() implies (#[trigger] stack@[j]) < n && visited@[stack@[j] as int] by {
                        if j < sb.len() {
                            assert(stack@[j] == sb[j]);
                        }
                    }
                }
            }
            i = i + 1;
        }
        proof {
            assert forall|u: int, v: int|
                0 <= u < n && visited@[u] && !stack@.contains(u as usize) && #[trigger] linked(adj, u, v) implies visited@[v] by {
                if u == node as int {
                    let k = choose|k: int| 0 <= k < adj[u].len() && (#[trigger] adj[u][k]).target == v;
                    assert(visited@[adj[node as int][k].target as int]);
                }
            }
            assert forall|x: int| 0 <= x < n implies (#[trigger] visited@[x] <==> (v0[x] || (visited@[x] && reaches(adj, start as int, x)))) by {
            }
            lemma_count_bound(visited@, n as int);
        }
    }
    proof {
        assert forall|x: int| 0 <= x < n implies (#[trigger] visited@[x] <==> (v0[x] || reaches(adj, start as int, x))) by {
            if reaches(adj, start as int, x) && !visited@[x] {
                let p = choose|p: Seq<int>| #[trigger] is_chain(adj, p) && p[0] == start as int && p.last() == x;
                assert(closed(adj, visited@));
                lemma_closed_reach(adj, visited@, p, p.len() - 1);
            }
        }
    }
}

/// The number of marked positions among the first `k`.
pub open spec fn count_marked(s: Seq<bool>, k: int) -> int
    decreases k,
{
    if k <= 0 {
        0
    } else {
        count_marked(s, k - 1) + if s[k - 1] {
            1int
        } else {
            0int
        }
    }
}

proof fn lemma_count_marked(s: Seq<bool>, i: int, k: int)
    requires
        0 <= i < s.len(),
        0 <= k <= s.len(),
        !s[i],
    ensures
        count_marked(s.update(i, true), k) == count_marked(s, k) + if i < k {
            1int
        } else {
            0int
        },
    decreases k,
{
    if k > 0 {
        lemma_count_marked(s, i, k - 1);
    }
}

proof fn lemma_count_bound(s: Seq<bool>, k: int)
    requires
        0 <= k,
    ensures
        0 <= count_marked(s, k) <= k,
    decreases k,
{
    if k > 0 {
        lemma_count_bound(s, k - 1);
    }
}

/// The number of nodes that no smaller node reaches along stored edges. When
/// every edge is stored at both of its ends, as the graph reader stores
/// them, these nodes stand one for each weakly connected component
/// (`lemma_one_start_per_component`).
pub fn compute_weakly_connected_components(graph: &Graph) -> (count: usize)
    requires
        graph.well_formed(),
    ensures
        count == component_starts(graph.adj(), graph.nodes@.len() as int),
{
    let n = graph.nodes.len();
    let ghost adj = graph.adj();
    proof {
        lemma_graph_targets(graph);
    }
    let mut visited: Vec<bool> = Vec::new();
    let mut k: usize = 0;
    while k < n
        invariant
            k <= n,
            visited@ == Seq::new(k as nat, |i: int| false),
        decreases n - k,
    {
        visited.push(false);
        k = k + 1;
        proof {
            assert(visited@ =~= Seq::new(k as nat, |i: int| false));
        }
    }
    let mut count: usize = 0;
    let mut start: usize = 0;
    while start < n
        invariant
            graph.well_formed(),
            adj == graph.adj(),
            targets_in_range(adj),
            n == adj.len(),
            start <= n,
            visited@.len() == n,
            closed(adj, visited@),
            count == component_starts(adj, start as int),
            count <= start,
            forall|x: int| 0 <= x < n ==> (#[trigger] visited@[x] <==> exists|j: int| 0 <= j < start && #[trigger] reaches(adj, j, x)),
        decreases n - start,
    {
        proof {
            assert(component_starts(adj, start as int + 1) == component_starts(adj, start as int) + if forall|j: int|
                0 <= j < start ==> !#[trigger] reaches(adj, j, start as int) {
                1int
            } else {
                0int
            });
        }
        if !visited[start] {
            let ghost vb = visited@;
            dfs(graph, start, &mut visited);
            count = count + 1;
            proof {
                assert forall|x: int| 0 <= x < n implies (#[trigger] visited@[x] <==> exists|j: int| 0 <= j < start + 1 && #[trigger] reaches(adj, j, x)) by {
                    if visited@[x] {
                        if vb[x] {
                            let j = choose|j: int| 0 <= j < start && #[trigger] reaches(adj, j, x);
                            assert(reaches(adj, j, x));
                        } else {
                            assert(reaches(adj, start as int, x));
                        }
                    }
                    if exists|j: int| 0 <= j < start + 1 && #[trigger] reaches(adj, j, x) {
                        let j = choose|j: int| 0 <= j < start + 1 && #[trigger] reaches(adj, j, x);
                        if j < start {
                            assert(vb[x]);
                        }
                    }
                }
            }
        } else {
            proof {
                let j0 = choose|j: int| 0 <= j < start && #[trigger] reaches(adj, j, start as int);
                assert(!(forall|j: int| 0 <= j < start ==> !#[trigger] reaches(adj, j, start as int)));
                assert forall|x: int| 0 <= x < n implies (#[trigger] visited@[x] <==> exists|j: int| 0 <= j < start + 1 && #[trigger] reaches(adj, j, x)) by {
                    if exists|j: int| 0 <= j < start + 1 && #[trigger] reaches(adj, j, x) {
                        let j = choose|j: int| 0 <= j < start + 1 && #[trigger] reaches(adj, j, x);
                        if j == start as int {
                            let p = choose|p: Seq<int>| #[trigger] is_chain(adj, p) && p[0] == start as int && p.last() == x;
                            lemma_closed_reach(adj, visited@, p, p.len() - 1);
                        }
                    }
                }
            }
        }
        start = start + 1;
    }
    count
}

} // verus!
