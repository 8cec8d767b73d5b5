//! Renumbering the nodes of a graph, by a given or by a random permutation.
use vstd::prelude::*;
use rand::seq::SliceRandom;
use crate::graph::{forward_count, forward_total, Edge, Graph, Node};
use crate::paths::{
    is_distance, is_walk, no_lighter_walk, none_blocked, out_arc, reaches_with, targets_in_range, walk_between,
    weight_sum,
};

verus! {

/// `perm` lists each of the nodes `0..n` exactly once.
pub open spec fn is_permutation(perm: Seq<usize>, n: nat) -> bool {
    &&& perm.len() == n
    &&& forall|i: int| 0 <= i < n ==> #[trigger] perm[i] < n
    &&& perm.no_duplicates()
}

/// The place of node `u` in `perm`: its new number.
pub open spec fn position(perm: Seq<usize>, u: int) -> int {
    choose|i: int| 0 <= i < perm.len() && perm[i] == u
}

/// The new number of every node.
pub open spec fn inverse(perm: Seq<usize>) -> Seq<usize> {
    Seq::new(perm.len(), |u: int| position(perm, u) as usize)
}

/// The nodes `0..n` in order.
pub open spec fn identity(n: nat) -> Seq<usize> {
    Seq::new(n, |i: int| i as usize)
}

/// An edge whose target is renumbered by `pos`.
pub open spec fn relabel(e: Edge, pos: Seq<usize>) -> Edge {
    Edge { target: pos[e.target as int] as u64, ..e }
}

/// New node `i` is old node `perm[i]`.
pub open spec fn permuted_nodes(nodes: Seq<Node>, perm: Seq<usize>) -> Seq<Node> {
    Seq::new(perm.len(), |i: int| nodes[perm[i] as int])
}

/// New node `i` has the edges of old node `perm[i]`, in the same order, with
/// their targets renumbered.
pub open spec fn permuted_adj(adj: Seq<Seq<Edge>>, perm: Seq<usize>) -> Seq<Seq<Edge>> {
    Seq::new(
        perm.len(),
        |i: int| adj[perm[i] as int].map_values(|e: Edge| relabel(e, inverse(perm))),
    )
}

/// Every node has one place in a permutation, and `position` finds it.
pub proof fn lemma_position(perm: Seq<usize>, n: nat)
    requires
        is_permutation(perm, n),
        n <= usize::MAX + 1,
    ensures
        forall|u: int|
            0 <= u < n ==> 0 <= #[trigger] position(perm, u) < n && perm[position(perm, u)] == u,
        forall|i: int| 0 <= i < n ==> #[trigger] position(perm, perm[i] as int) == i,
{
    broadcast use vstd::seq_lib::group_to_multiset_ensures;
    let id = identity(n);
    assert(id.no_duplicates());
    id.unique_seq_to_set();
    perm.unique_seq_to_set();
    vstd::seq_lib::seq_to_set_is_finite(perm);
    vstd::seq_lib::seq_to_set_is_finite(id);
    assert(perm.to_set().subset_of(id.to_set())) by {
        assert forall|x: usize| perm.to_set().contains(x) implies id.to_set().contains(x) by {
            let i = choose|i: int| 0 <= i < perm.len() && perm[i] == x;
            assert(id[perm[i] as int] == x);
        }
    }
    assert(id.to_set().finite());
    vstd::set_lib::lemma_subset_equality(perm.to_set(), id.to_set());
    assert forall|u: int| 0 <= u < n implies 0 <= #[trigger] position(perm, u) < n && perm[position(
        perm,
        u,
    )] == u by {
        assert(id[u] == u as usize);
        assert(id.to_set().contains(u as usize));
        assert(perm.to_set().contains(u as usize));
    }
    assert forall|i: int| 0 <= i < n implies #[trigger] position(perm, perm[i] as int) == i by {
        let u = perm[i] as int;
        assert(perm[position(perm, u)] == u);
    }
}

/// An arc of the graph is an arc of the renumbered graph between the new
/// numbers of its ends, and the other way round.
proof fn lemma_permuted_arc(adj: Seq<Seq<Edge>>, perm: Seq<usize>, u: int, v: int, w: int)
    requires
        is_permutation(perm, adj.len()),
        adj.len() <= usize::MAX,
        targets_in_range(adj),
        0 <= u < adj.len(),
        0 <= v < adj.len(),
    ensures
        out_arc(adj, none_blocked(), u, v, w) <==> out_arc(
            permuted_adj(adj, perm),
            none_blocked(),
            inverse(perm)[u] as int,
            inverse(perm)[v] as int,
            w,
        ),
{
    let n = adj.len();
    let pos = inverse(perm);
    let adj2 = permuted_adj(adj, perm);
    lemma_position(perm, n);
    let x = pos[u] as int;
    assert(position(perm, u) == x);
    assert(perm[x] == u);
    assert(adj2[x] == adj[u].map_values(|e: Edge| relabel(e, pos)));
    if out_arc(adj, none_blocked(), u, v, w) {
        let i = choose|i: int|
            0 <= i < adj[u].len() && (#[trigger] adj[u][i]).dir && adj[u][i].target == v && adj[u][i].weight == w
                && !(none_blocked())(v);
        assert(adj2[x][i] == relabel(adj[u][i], pos));
    }
    if out_arc(adj2, none_blocked(), x, pos[v] as int, w) {
        let i = choose|i: int|
            0 <= i < adj2[x].len() && (#[trigger] adj2[x][i]).dir && adj2[x][i].target == pos[v] as int
                && adj2[x][i].weight == w && !(none_blocked())(pos[v] as int);
        let e = adj[u][i];
        assert(adj2[x][i] == relabel(e, pos));
        let t = e.target as int;
        assert(t < n);
        assert(position(perm, t) == pos[t] as int);
        assert(perm[pos[t] as int] == t);
        assert(perm[pos[v] as int] == v);
    }
}

/// The nodes of a walk are nodes of the graph.
proof fn lemma_walk_in_range(adj: Seq<Seq<Edge>>, p: Seq<int>, ws: Seq<int>)
    requires
        targets_in_range(adj),
        is_walk(adj, none_blocked(), p, ws),
        0 <= p[0] < adj.len(),
    ensures
        forall|j: int| 0 <= j < p.len() ==> 0 <= #[trigger] p[j] < adj.len(),
{
    assert forall|j: int| 0 <= j < p.len() implies 0 <= #[trigger] p[j] < adj.len() by {
        if j > 0 {
            assert(out_arc(adj, none_blocked(), p[j - 1], p[j - 1 + 1], ws[j - 1]));
            let u = p[j - 1];
            let i = choose|i: int|
                0 <= i < adj[u].len() && (#[trigger] adj[u][i]).dir && adj[u][i].target == p[j]
                    && adj[u][i].weight == ws[j - 1] && !(none_blocked())(p[j]);
            assert(adj[u][i].target < adj.len());
        }
    }
}

/// The renumbered graph has its edges in range too.
pub proof fn lemma_permuted_targets(adj: Seq<Seq<Edge>>, perm: Seq<usize>)
    requires
        is_permutation(perm, adj.len()),
        adj.len() <= usize::MAX,
        targets_in_range(adj),
    ensures
        permuted_adj(adj, perm).len() == adj.len(),
        targets_in_range(permuted_adj(adj, perm)),
{
    let n = adj.len();
    let pos = inverse(perm);
    let adj2 = permuted_adj(adj, perm);
    lemma_position(perm, n);
    assert forall|x: int, i: int| 0 <= x < adj2.len() && 0 <= i < adj2[x].len() implies (#[trigger] adj2[x][i]).target
        < adj2.len() by {
        let e = adj[perm[x] as int][i];
        assert(adj2[x][i] == relabel(e, pos));
        assert(e.target < n);
        assert(0 <= position(perm, e.target as int) < n);
    }
}

/// A walk renumbered node by node is a walk of the renumbered graph with
/// the same weights.
proof fn lemma_walk_renumbered(adj: Seq<Seq<Edge>>, perm: Seq<usize>, p: Seq<int>, ws: Seq<int>)
    requires
        is_permutation(perm, adj.len()),
        adj.len() <= usize::MAX,
        targets_in_range(adj),
        is_walk(adj, none_blocked(), p, ws),
        0 <= p[0] < adj.len(),
    ensures
        is_walk(permuted_adj(adj, perm), none_blocked(), p.map_values(|x: int| inverse(perm)[x] as int), ws),
{
    let pos = inverse(perm);
    let q = p.map_values(|x: int| pos[x] as int);
    lemma_walk_in_range(adj, p, ws);
    assert forall|j: int| 0 <= j < ws.len() implies #[trigger] out_arc(
        permuted_adj(adj, perm),
        none_blocked(),
        q[j],
        q[j + 1],
        ws[j],
    ) by {
        assert(out_arc(adj, none_blocked(), p[j], p[j + 1], ws[j]));
        assert(0 <= p[j] < adj.len() && 0 <= p[j + 1] < adj.len());
        lemma_permuted_arc(adj, perm, p[j], p[j + 1], ws[j]);
    }
}

/// A walk of the renumbered graph, with each node taken back to its old
/// number, is a walk of the graph with the same weights.
proof fn lemma_walk_numbered_back(adj: Seq<Seq<Edge>>, perm: Seq<usize>, q: Seq<int>, ws: Seq<int>)
    requires
        is_permutation(perm, adj.len()),
        adj.len() <= usize::MAX,
        targets_in_range(adj),
        is_walk(permuted_adj(adj, perm), none_blocked(), q, ws),
        0 <= q[0] < adj.len(),
    ensures
        is_walk(adj, none_blocked(), q.map_values(|x: int| perm[x] as int), ws),
{
    let n = adj.len();
    let pos = inverse(perm);
    let adj2 = permuted_adj(adj, perm);
    let p = q.map_values(|x: int| perm[x] as int);
    lemma_position(perm, n);
    lemma_permuted_targets(adj, perm);
    lemma_walk_in_range(adj2, q, ws);
    assert forall|j: int| 0 <= j < ws.len() implies #[trigger] out_arc(adj, none_blocked(), p[j], p[j + 1], ws[j]) by {
        assert(out_arc(adj2, none_blocked(), q[j], q[j + 1], ws[j]));
        assert(0 <= q[j] < n && 0 <= q[j + 1] < n);
        let u = perm[q[j]] as int;
        let v = perm[q[j + 1]] as int;
        assert(position(perm, u) == q[j]);
        assert(position(perm, v) == q[j + 1]);
        lemma_permuted_arc(adj, perm, u, v, ws[j]);
    }
}

proof fn lemma_walks_renumbered(adj: Seq<Seq<Edge>>, perm: Seq<usize>, s: int, t: int)
    requires
        is_permutation(perm, adj.len()),
        adj.len() <= usize::MAX,
        targets_in_range(adj),
        0 <= s < adj.len(),
        0 <= t < adj.len(),
    ensures
        forall|p: Seq<int>, ws: Seq<int>| #[trigger] walk_between(adj, none_blocked(), s, t, p, ws) ==> walk_between(
            permuted_adj(adj, perm),
            none_blocked(),
            inverse(perm)[s] as int,
            inverse(perm)[t] as int,
            p.map_values(|x: int| inverse(perm)[x] as int),
            ws,
        ),
{
    lemma_position(perm, adj.len());
    assert forall|p: Seq<int>, ws: Seq<int>| #[trigger] walk_between(adj, none_blocked(), s, t, p, ws) implies walk_between(
        permuted_adj(adj, perm),
        none_blocked(),
        inverse(perm)[s] as int,
        inverse(perm)[t] as int,
        p.map_values(|x: int| inverse(perm)[x] as int),
        ws,
    ) by {
        lemma_walk_renumbered(adj, perm, p, ws);
    }
}

proof fn lemma_walks_numbered_back(adj: Seq<Seq<Edge>>, perm: Seq<usize>, s: int, t: int)
    requires
        is_permutation(perm, adj.len()),
        adj.len() <= usize::MAX,
        targets_in_range(adj),
        0 <= s < adj.len(),
        0 <= t < adj.len(),
    ensures
        forall|q: Seq<int>, ws: Seq<int>|
            #[trigger] walk_between(
                permuted_adj(adj, perm),
                none_blocked(),
                inverse(perm)[s] as int,
                inverse(perm)[t] as int,
                q,
                ws,
            ) ==> walk_between(adj, none_blocked(), s, t, q.map_values(|x: int| perm[x] as int), ws),
{
    let n = adj.len();
    lemma_position(perm, n);
    let s2 = inverse(perm)[s] as int;
    let t2 = inverse(perm)[t] as int;
    assert(position(perm, s) == s2 && position(perm, t) == t2);
    assert forall|q: Seq<int>, ws: Seq<int>|
        #[trigger] walk_between(permuted_adj(adj, perm), none_blocked(), s2, t2, q, ws) implies walk_between(
        adj,
        none_blocked(),
        s,
        t,
        q.map_values(|x: int| perm[x] as int),
        ws,
    ) by {
        lemma_walk_numbered_back(adj, perm, q, ws);
    }
}

/// Renumbering the nodes keeps every distance: `d` is the weight of a
/// lightest walk from `s` to `t` exactly when it is that of a lightest walk
/// between their new numbers in the renumbered graph.
pub proof fn lemma_permuted_distance(adj: Seq<Seq<Edge>>, perm: Seq<usize>, s: int, t: int, d: int)
    requires
        is_permutation(perm, adj.len()),
        adj.len() <= usize::MAX,
        targets_in_range(adj),
        0 <= s < adj.len(),
        0 <= t < adj.len(),
    ensures
        is_distance(adj, none_blocked(), s, t, d) <==> is_distance(
            permuted_adj(adj, perm),
            none_blocked(),
            inverse(perm)[s] as int,
            inverse(perm)[t] as int,
            d,
        ),
{
    let pos = inverse(perm);
    let adj2 = permuted_adj(adj, perm);
    let s2 = pos[s] as int;
    let t2 = pos[t] as int;
    lemma_walks_renumbered(adj, perm, s, t);
    lemma_walks_numbered_back(adj, perm, s, t);
    if reaches_with(adj, none_blocked(), s, t, d) {
        let (p, ws) = choose|p: Seq<int>, ws: Seq<int>|
            #[trigger] walk_between(adj, none_blocked(), s, t, p, ws) && weight_sum(ws) == d;
        assert(walk_between(adj2, none_blocked(), s2, t2, p.map_values(|x: int| pos[x] as int), ws));
    }
    if reaches_with(adj2, none_blocked(), s2, t2, d) {
        let (q, ws) = choose|q: Seq<int>, ws: Seq<int>|
            #[trigger] walk_between(adj2, none_blocked(), s2, t2, q, ws) && weight_sum(ws) == d;
        assert(walk_between(adj, none_blocked(), s, t, q.map_values(|x: int| perm[x] as int), ws));
    }
    if no_lighter_walk(adj, none_blocked(), s, t, d) {
        assert forall|q: Seq<int>, ws: Seq<int>| #[trigger] walk_between(adj2, none_blocked(), s2, t2, q, ws) implies weight_sum(ws) >= d by {
            assert(walk_between(adj, none_blocked(), s, t, q.map_values(|x: int| perm[x] as int), ws));
        }
    }
    if no_lighter_walk(adj2, none_blocked(), s2, t2, d) {
        assert forall|p: Seq<int>, ws: Seq<int>| #[trigger] walk_between(adj, none_blocked(), s, t, p, ws) implies weight_sum(ws) >= d by {
            assert(walk_between(adj2, none_blocked(), s2, t2, p.map_values(|x: int| pos[x] as int), ws));
        }
    }
}

/// The sum of a sequence of counts.
pub open spec fn count_sum(s: Seq<nat>) -> nat
    decreases s.len(),
{
    if s.len() == 0 {
        0
    } else {
        count_sum(s.drop_last()) + s.last()
    }
}

proof fn lemma_count_sum_remove(s: Seq<nat>, k: int)
    requires
        0 <= k < s.len(),
    ensures
        count_sum(s) == count_sum(s.remove(k)) + s[k],
    decreases s.len(),
{
    if k == s.len() - 1 {
        assert(s.remove(k) =~= s.drop_last());
    } else {
        let r = s.remove(k);
        assert(r.drop_last() =~= s.drop_last().remove(k));
        assert(r.last() == s.last());
        lemma_count_sum_remove(s.drop_last(), k);
    }
}

/// Taking the counts in the order of a permutation keeps their sum.
proof fn lemma_count_sum_permuted(s: Seq<nat>, perm: Seq<usize>)
    requires
        is_permutation(perm, s.len()),
        s.len() <= usize::MAX,
    ensures
        count_sum(Seq::new(s.len(), |i: int| s[perm[i] as int])) == count_sum(s),
    decreases s.len(),
{
    let n = s.len();
    let t = Seq::new(n, |i: int| s[perm[i] as int]);
    if n > 0 {
        lemma_position(perm, n);
        let k = position(perm, n - 1);
        assert(0 <= k < n && perm[k] == n - 1);
        let perm2 = perm.remove(k);
        let s2 = s.drop_last();
        assert forall|i: int| 0 <= i < n - 1 implies #[trigger] perm2[i] < n - 1 by {
            let j = if i < k { i } else { i + 1 };
            assert(perm2[i] == perm[j]);
            assert(j != k);
            assert(perm[j] != perm[k]);
        }
        assert(perm2.no_duplicates()) by {
            assert forall|i: int, j: int| 0 <= i < perm2.len() && 0 <= j < perm2.len() && i != j implies perm2[i]
                != perm2[j] by {
                let a = if i < k { i } else { i + 1 };
                let b = if j < k { j } else { j + 1 };
                assert(perm2[i] == perm[a] && perm2[j] == perm[b]);
            }
        }
        assert(is_permutation(perm2, s2.len()));
        lemma_count_sum_permuted(s2, perm2);
        let t2 = Seq::new(s2.len(), |i: int| s2[perm2[i] as int]);
        lemma_count_sum_remove(t, k);
        assert(t.remove(k) =~= t2) by {
            assert forall|i: int| 0 <= i < n - 1 implies t.remove(k)[i] == t2[i] by {
                let j = if i < k { i } else { i + 1 };
                assert(t.remove(k)[i] == t[j]);
                assert(perm2[i] == perm[j]);
            }
        }
        assert(t[k] == s.last());
    }
}

/// The forward counts of the lists.
pub open spec fn forward_counts(adj: Seq<Seq<Edge>>) -> Seq<nat> {
    Seq::new(adj.len(), |u: int| forward_count(adj[u]))
}

proof fn lemma_forward_total_sum(adj: Seq<Seq<Edge>>, k: int)
    requires
        0 <= k <= adj.len(),
    ensures
        forward_total(adj, k) == count_sum(forward_counts(adj).take(k)),
    decreases k,
{
    if k > 0 {
        lemma_forward_total_sum(adj, k - 1);
        assert(forward_counts(adj).take(k).drop_last() =~= forward_counts(adj).take(k - 1));
    }
}

proof fn lemma_forward_count_relabel(list: Seq<Edge>, pos: Seq<usize>)
    ensures
        forward_count(list.map_values(|e: Edge| relabel(e, pos))) == forward_count(list),
    decreases list.len(),
{
    reveal_with_fuel(Seq::<_>::filter, 1);
    let m = list.map_values(|e: Edge| relabel(e, pos));
    if list.len() > 0 {
        lemma_forward_count_relabel(list.drop_last(), pos);
        assert(m.drop_last() =~= list.drop_last().map_values(|e: Edge| relabel(e, pos)));
        assert(m.last().dir == list.last().dir);
    }
}

/// Renumbering the nodes keeps the number of edges.
pub proof fn lemma_permuted_edge_count(adj: Seq<Seq<Edge>>, perm: Seq<usize>)
    requires
        is_permutation(perm, adj.len()),
        adj.len() <= usize::MAX,
    ensures
        forward_total(permuted_adj(adj, perm), adj.len() as int) == forward_total(adj, adj.len() as int),
{
    let n = adj.len();
    let adj2 = permuted_adj(adj, perm);
    let c = forward_counts(adj);
    lemma_forward_total_sum(adj, n as int);
    lemma_forward_total_sum(adj2, n as int);
    assert(c.take(n as int) =~= c);
    assert(forward_counts(adj2).take(n as int) =~= forward_counts(adj2));
    assert(forward_counts(adj2) =~= Seq::new(c.len(), |i: int| c[perm[i] as int])) by {
        assert forall|i: int| 0 <= i < n implies forward_counts(adj2)[i] == c[perm[i] as int] by {
            lemma_forward_count_relabel(adj[perm[i] as int], inverse(perm));
        }
    }
    lemma_count_sum_permuted(c, perm);
}

/// A sequence with the same elements as `0..n` is a permutation of them.
proof fn lemma_shuffled_identity(perm: Seq<usize>, n: nat)
    requires
        n <= usize::MAX + 1,
        perm.to_multiset() == identity(n).to_multiset(),
    ensures
        is_permutation(perm, n),
{
    broadcast use vstd::seq_lib::group_to_multiset_ensures;
    let id = identity(n);
    assert(id.no_duplicates());
    id.lemma_multiset_has_no_duplicates();
    perm.lemma_multiset_has_no_duplicates_conv();
    assert(perm.len() == n) by {
        vstd::seq_lib::to_multiset_len(perm);
        vstd::seq_lib::to_multiset_len(id);
    }
    assert forall|i: int| 0 <= i < n implies #[trigger] perm[i] < n by {
        assert(perm.to_multiset().contains(perm[i]));
        assert(id.contains(perm[i]));
    }
}

/// The graph with its nodes renumbered: new node `i` is old node `perm[i]`.
pub fn permute_nodes(graph: &Graph, perm: &Vec<usize>) -> (g: Graph)
    requires
        graph.well_formed(),
        is_permutation(perm@, graph.nodes@.len()),
    ensures
        g.well_formed(),
        g.nodes@ == permuted_nodes(graph.nodes@, perm@),
        g.adj() == permuted_adj(graph.adj(), perm@),
{
    let n = graph.nodes.len();
    let ghost adj = graph.adj();
    let ghost pos = inverse(perm@);
    proof {
        lemma_position(perm@, n as nat);
    }
    // the inverse permutation: old number -> new number
    let mut new_index: Vec<usize> = Vec::new();
    let mut k: usize = 0;
    while k < n
        invariant
            k <= n,
            new_index@.len() == k,
        decreases n - k,
    {
        new_index.push(0);
        k = k + 1;
    }
    let mut i: usize = 0;
    while i < n
        invariant
            n == perm@.len(),
            is_permutation(perm@, n as nat),
            i <= n,
            new_index@.len() == n,
            forall|j: int| 0 <= j < i ==> new_index@[#[trigger] perm@[j] as int] == j,
        decreases n - i,
    {
        let old_i = perm[i];
        new_index.set(old_i, i);
        proof {
            assert forall|j: int| 0 <= j < i + 1 implies new_index@[#[trigger] perm@[j] as int] == j by {
                if j < i {
                    assert(perm@[j] != perm@[i as int]);
                }
            }
        }
        i = i + 1;
    }
    proof {
        assert forall|u: int| 0 <= u < n implies #[trigger] new_index@[u] == pos[u] by {
            let p = position(perm@, u);
            assert(perm@[p] == u);
        }
        assert(new_index@ =~= pos);
    }
    let mut nodes: Vec<Node> = Vec::new();
    let mut edges: Vec<Vec<Edge>> = Vec::new();
    let mut new_u: usize = 0;
    while new_u < n
        invariant
            graph.well_formed(),
            adj == graph.adj(),
            n == graph.nodes@.len(),
            n == perm@.len(),
            is_permutation(perm@, n as nat),
            new_index@ == pos,
            pos == inverse(perm@),
            forall|u: int| 0 <= u < n ==> #[trigger] pos[u] < n,
            new_u <= n,
            nodes@ == permuted_nodes(graph.nodes@, perm@).take(new_u as int),
            edges@.len() == new_u,
            forall|j: int| 0 <= j < new_u ==> (#[trigger] edges@[j])@ == permuted_adj(adj, perm@)[j],
        decreases n - new_u,
    {
        let u = perm[new_u];
        let node = &graph.nodes[u];
        nodes.push(Node::new(node.osm_id, node.lat, node.lon, node.level));
        let list = &graph.edges[u];
        proof {
            assert(list@ == adj[u as int]);
        }
        let mut renumbered: Vec<Edge> = Vec::new();
        let mut x: usize = 0;
        while x < list.len()
            invariant
                graph.well_formed(),
                n == graph.nodes@.len(),
                u < n,
                *list == graph.edges@[u as int],
                new_index@ == pos,
                pos.len() == n,
                x <= list@.len(),
                renumbered@ == list@.take(x as int).map_values(|e: Edge| relabel(e, pos)),
            decreases list@.len() - x,
        {
            let e = list[x];
            assert(e.target < n);
            let mut moved = e;
            moved.target = new_index[e.target as usize] as u64;
            renumbered.push(moved);
            x = x + 1;
            proof {
                assert(renumbered@ =~= list@.take(x as int).map_values(|e: Edge| relabel(e, pos)));
            }
        }
        proof {
            assert(list@.take(list@.len() as int) =~= list@);
        }
        edges.push(renumbered);
        new_u = new_u + 1;
        proof {
            assert(nodes@ =~= permuted_nodes(graph.nodes@, perm@).take(new_u as int));
        }
    }
    let g = Graph::new(nodes, edges);
    proof {
        assert(permuted_nodes(graph.nodes@, perm@).take(n as int) =~= permuted_nodes(graph.nodes@, perm@));
        assert(g.adj() =~= permuted_adj(adj, perm@));
        assert forall|v: int, j: int|
            0 <= v < g.edges@.len() && 0 <= j < g.edges@[v]@.len() implies (
            #[trigger] g.edges@[v]@[j]).target < g.nodes@.len() by {
            assert(g.edges@[v]@ == permuted_adj(adj, perm@)[v]);
            let old_list = adj[perm@[v] as int];
            assert(old_list[j] == graph.edges@[perm@[v] as int]@[j]);
        }
    }
    g
}

/// `SliceRandom::shuffle` with `rand::thread_rng()`. rand shuffles by
/// swapping elements, so the result holds the same elements as before; the
/// order it comes out in rests on chance and is not stated.
#[verifier::external_body]
fn shuffle(v: &mut Vec<usize>)
    ensures
        final(v)@.to_multiset() == old(v)@.to_multiset(),
{
    v.shuffle(&mut rand::thread_rng());
}

/// The graph with its nodes renumbered by a random permutation.
pub fn permuting_nodes_randomly(graph: &Graph) -> (g: Graph)
    requires
        graph.well_formed(),
    ensures
        g.well_formed(),
        exists|perm: Seq<usize>|
            #[trigger] is_permutation(perm, graph.nodes@.len()) && g.nodes@ == permuted_nodes(
                graph.nodes@,
                perm,
            ) && g.adj() == permuted_adj(graph.adj(), perm),
{
    let n = graph.nodes.len();
    let mut perm: Vec<usize> = Vec::new();
    let mut i: usize = 0;
    while i < n
        invariant
            i <= n,
            perm@ == identity(i as nat),
        decreases n - i,
    {
        perm.push(i);
        i = i + 1;
        proof {
            assert(perm@ =~= identity(i as nat));
        }
    }
    shuffle(&mut perm);
    proof {
        lemma_shuffled_identity(perm@, n as nat);
    }
    permute_nodes(graph, &perm)
}

} // verus!
