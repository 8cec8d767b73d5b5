//! Why the nodes picked for one round of contraction form a set that no
//! edge joins, and why the remaining list is exactly the nodes still to be
//! contracted.
use vstd::prelude::*;
use crate::ch::{cutoff, greedy_selection, is_stable_sort, key_is, keyed, next_to_selection};
use crate::contraction::{among, ids, isolated, isolated_apart, no_loops, round_apart, round_ready};
use crate::graph::Edge;
use crate::paths::{in_arc, none_blocked, out_arc, paired};

verus! {

proof fn lemma_push_no_dup<A>(s: Seq<A>, x: A)
    requires
        s.no_duplicates(),
        !s.contains(x),
    ensures
        s.push(x).no_duplicates(),
        forall|y: A| #[trigger] s.push(x).contains(y) <==> (s.contains(y) || y == x),
{
    assert forall|i: int, j: int| 0 <= i < s.push(x).len() && 0 <= j < s.push(x).len() && i != j implies s.push(x)[i]
        != s.push(x)[j] by {
        if i < s.len() && j < s.len() {
        } else if i < s.len() {
            assert(s.contains(s[i]));
        } else {
            assert(s.contains(s[j]));
        }
    }
    assert forall|y: A| #[trigger] s.push(x).contains(y) implies (s.contains(y) || y == x) by {
        let i = choose|i: int| 0 <= i < s.push(x).len() && s.push(x)[i] == y;
        if i < s.len() {
            assert(s[i] == y);
        }
    }
    assert forall|y: A| s.contains(y) || y == x implies #[trigger] s.push(x).contains(y) by {
        if y == x {
            assert(s.push(x)[s.len() as int] == x);
        } else {
            let i = choose|i: int| 0 <= i < s.len() && s[i] == y;
            assert(s.push(x)[i] == y);
        }
    }
}

proof fn lemma_contains_push<A>(s: Seq<A>, x: A)
    ensures
        forall|y: A| #[trigger] s.push(x).contains(y) <==> (s.contains(y) || y == x),
{
    assert forall|y: A| #[trigger] s.push(x).contains(y) implies (s.contains(y) || y == x) by {
        let i = choose|i: int| 0 <= i < s.push(x).len() && s.push(x)[i] == y;
        if i < s.len() {
            assert(s[i] == y);
        }
    }
    assert forall|y: A| s.contains(y) || y == x implies #[trigger] s.push(x).contains(y) by {
        if y == x {
            assert(s.push(x)[s.len() as int] == x);
        } else {
            let i = choose|i: int| 0 <= i < s.len() && s[i] == y;
            assert(s.push(x)[i] == y);
        }
    }
}

/// The greedy pass splits the list: every node lands among the selected or
/// the deferred, and a list without repeats is split into two without
/// repeats and without a common node.
pub proof fn lemma_greedy_partition(adj: Seq<Seq<Edge>>, bl: Seq<bool>, nodes: Seq<usize>)
    ensures
        forall|x: usize|
            #[trigger] nodes.contains(x) <==> (ids(greedy_selection(adj, bl, nodes).0).contains(x) || greedy_selection(
                adj,
                bl,
                nodes,
            ).1.contains(x)),
        nodes.no_duplicates() ==> ids(greedy_selection(adj, bl, nodes).0).no_duplicates() && greedy_selection(
            adj,
            bl,
            nodes,
        ).1.no_duplicates() && forall|x: usize|
            !(#[trigger] ids(greedy_selection(adj, bl, nodes).0).contains(x) && greedy_selection(adj, bl, nodes).1.contains(x)),
    decreases nodes.len(),
{
    let g = greedy_selection(adj, bl, nodes);
    if nodes.len() == 0 {
        assert(ids(g.0) =~= Seq::<usize>::empty());
    } else {
        let n0 = nodes.drop_last();
        let u = nodes.last();
        lemma_greedy_partition(adj, bl, n0);
        let prev = greedy_selection(adj, bl, n0);
        assert(nodes == n0.push(u));
        lemma_contains_push(n0, u);
        if nodes.no_duplicates() {
            assert(n0.no_duplicates()) by {
                assert forall|i: int, j: int| 0 <= i < n0.len() && 0 <= j < n0.len() && i != j implies n0[i] != n0[j] by {
                    assert(nodes[i] == n0[i] && nodes[j] == n0[j]);
                }
            }
            assert(!n0.contains(u)) by {
                if n0.contains(u) {
                    let i = choose|i: int| 0 <= i < n0.len() && n0[i] == u;
                    assert(nodes[i] == u && nodes[nodes.len() - 1] == u);
                }
            }
        }
        if next_to_selection(adj, prev.0, u as int) {
            assert(g == (prev.0, prev.1.push(u)));
            lemma_contains_push(prev.1, u);
            if nodes.no_duplicates() {
                lemma_push_no_dup(prev.1, u);
            }
        } else {
            let e = (crate::ch::node_edge_difference(adj, bl, u as int) as isize, u);
            assert(g == (prev.0.push(e), prev.1));
            assert(ids(prev.0.push(e)) =~= ids(prev.0).push(u));
            lemma_contains_push(ids(prev.0), u);
            if nodes.no_duplicates() {
                lemma_push_no_dup(ids(prev.0), u);
            }
        }
    }
}

/// In a paired graph without loops, no edge joins two nodes that the greedy
/// pass selects.
pub proof fn lemma_greedy_isolated(adj: Seq<Seq<Edge>>, bl: Seq<bool>, nodes: Seq<usize>)
    requires
        paired(adj),
        no_loops(adj),
        forall|i: int| 0 <= i < nodes.len() ==> (#[trigger] nodes[i]) < adj.len(),
    ensures
        isolated(adj, ids(greedy_selection(adj, bl, nodes).0)),
        forall|p: int|
            0 <= p < greedy_selection(adj, bl, nodes).0.len() ==> (#[trigger] greedy_selection(adj, bl, nodes).0[p]).1
                < adj.len(),
    decreases nodes.len(),
{
    let g = greedy_selection(adj, bl, nodes);
    if nodes.len() > 0 {
        let n0 = nodes.drop_last();
        let u = nodes.last();
        assert(u == nodes[nodes.len() - 1]);
        assert forall|i: int| 0 <= i < n0.len() implies (#[trigger] n0[i]) < adj.len() by {
            assert(n0[i] == nodes[i]);
        }
        lemma_greedy_isolated(adj, bl, n0);
        let prev = greedy_selection(adj, bl, n0);
        if !next_to_selection(adj, prev.0, u as int) {
            let e = (crate::ch::node_edge_difference(adj, bl, u as int) as isize, u);
            assert(g.0 == prev.0.push(e));
            let s0 = ids(prev.0);
            let s1 = ids(g.0);
            assert(s1 =~= s0.push(u));
            assert forall|p: int, q: int, k: int|
                0 <= p < s1.len() && 0 <= q < s1.len() && 0 <= k < adj[s1[p] as int].len() implies (#[trigger] adj[s1[p] as int][k]).target
                    != #[trigger] s1[q] by {
                let last = s0.len() as int;
                if p < last && q < last {
                    assert(s1[p] == s0[p] && s1[q] == s0[q]);
                    assert(adj[s0[p] as int][k].target != s0[q]);
                } else if p < last {
                    assert(s1[q] == u);
                    assert(s0[p] == prev.0[p].1);
                    if adj[s1[p] as int][k].target == u {
                        assert(next_to_selection(adj, prev.0, u as int));
                    }
                } else if q < last {
                    assert(s1[p] == u);
                    let y = s0[q];
                    assert(y == prev.0[q].1);
                    let ed = adj[u as int][k];
                    if ed.target == y {
                        if ed.dir {
                            assert(out_arc(adj, none_blocked(), u as int, y as int, ed.weight as int));
                            let w2 = choose|w2: int| w2 <= ed.weight && #[trigger] in_arc(adj, y as int, u as int, w2);
                            let k2 = choose|k2: int|
                                0 <= k2 < adj[y as int].len() && !(#[trigger] adj[y as int][k2]).dir && adj[y as int][k2].target
                                    == u && adj[y as int][k2].weight == w2;
                            assert(adj[prev.0[q].1 as int][k2].target == u);
                            assert(next_to_selection(adj, prev.0, u as int));
                        } else {
                            assert(in_arc(adj, u as int, y as int, ed.weight as int));
                            let w2 = choose|w2: int| w2 <= ed.weight && #[trigger] out_arc(adj, none_blocked(), y as int, u as int, w2);
                            let k2 = choose|k2: int|
                                0 <= k2 < adj[y as int].len() && (#[trigger] adj[y as int][k2]).dir && adj[y as int][k2].target
                                    == u && adj[y as int][k2].weight == w2 && !none_blocked()(u as int);
                            assert(adj[prev.0[q].1 as int][k2].target == u);
                            assert(next_to_selection(adj, prev.0, u as int));
                        }
                    }
                } else {
                    assert(s1[p] == u && s1[q] == u);
                }
            }
            assert forall|p: int| 0 <= p < g.0.len() implies (#[trigger] g.0[p]).1 < adj.len() by {
                if p < prev.0.len() {
                    assert(g.0[p] == prev.0[p]);
                }
            }
        } else {
            assert(g.0 == prev.0);
        }
    } else {
        assert(ids(g.0) =~= Seq::<usize>::empty());
    }
}

/// In a paired graph, no edge joins two different nodes that the greedy
/// pass selects.
pub proof fn lemma_greedy_apart(adj: Seq<Seq<Edge>>, bl: Seq<bool>, nodes: Seq<usize>)
    requires
        paired(adj),
        forall|i: int| 0 <= i < nodes.len() ==> (#[trigger] nodes[i]) < adj.len(),
    ensures
        isolated_apart(adj, ids(greedy_selection(adj, bl, nodes).0)),
        forall|p: int|
            0 <= p < greedy_selection(adj, bl, nodes).0.len() ==> (#[trigger] greedy_selection(adj, bl, nodes).0[p]).1
                < adj.len(),
    decreases nodes.len(),
{
    let g = greedy_selection(adj, bl, nodes);
    if nodes.len() > 0 {
        let n0 = nodes.drop_last();
        let u = nodes.last();
        assert(u == nodes[nodes.len() - 1]);
        assert forall|i: int| 0 <= i < n0.len() implies (#[trigger] n0[i]) < adj.len() by {
            assert(n0[i] == nodes[i]);
        }
        lemma_greedy_apart(adj, bl, n0);
        let prev = greedy_selection(adj, bl, n0);
        if !next_to_selection(adj, prev.0, u as int) {
            let e = (crate::ch::node_edge_difference(adj, bl, u as int) as isize, u);
            assert(g.0 == prev.0.push(e));
            let s0 = ids(prev.0);
            let s1 = ids(g.0);
            assert(s1 =~= s0.push(u));
            assert forall|p: int, q: int, k: int|
                0 <= p < s1.len() && 0 <= q < s1.len() && s1[p] != s1[q] && 0 <= k < adj[s1[p] as int].len() implies (#[trigger] adj[s1[p] as int][k]).target
                    != #[trigger] s1[q] by {
                let last = s0.len() as int;
                if p < last && q < last {
                    assert(s1[p] == s0[p] && s1[q] == s0[q]);
                    assert(s0[p] != s0[q]);
                    assert(adj[s0[p] as int][k].target != s0[q]);
                } else if p < last {
                    assert(s1[q] == u);
                    assert(s0[p] == prev.0[p].1);
                    if adj[s1[p] as int][k].target == u {
                        assert(next_to_selection(adj, prev.0, u as int));
                    }
                } else if q < last {
                    assert(s1[p] == u);
                    let y = s0[q];
                    assert(y == prev.0[q].1);
                    let ed = adj[u as int][k];
                    if ed.target == y {
                        if ed.dir {
                            assert(out_arc(adj, none_blocked(), u as int, y as int, ed.weight as int));
                            let w2 = choose|w2: int| w2 <= ed.weight && #[trigger] in_arc(adj, y as int, u as int, w2);
                            let k2 = choose|k2: int|
                                0 <= k2 < adj[y as int].len() && !(#[trigger] adj[y as int][k2]).dir && adj[y as int][k2].target
                                    == u && adj[y as int][k2].weight == w2;
                            assert(adj[prev.0[q].1 as int][k2].target == u);
                            assert(next_to_selection(adj, prev.0, u as int));
                        } else {
                            assert(in_arc(adj, u as int, y as int, ed.weight as int));
                            let w2 = choose|w2: int| w2 <= ed.weight && #[trigger] out_arc(adj, none_blocked(), y as int, u as int, w2);
                            let k2 = choose|k2: int|
                                0 <= k2 < adj[y as int].len() && (#[trigger] adj[y as int][k2]).dir && adj[y as int][k2].target
                                    == u && adj[y as int][k2].weight == w2 && !none_blocked()(u as int);
                            assert(adj[prev.0[q].1 as int][k2].target == u);
                            assert(next_to_selection(adj, prev.0, u as int));
                        }
                    }
                } else {
                    assert(s1[p] == u && s1[q] == u);
                }
            }
            assert forall|p: int| 0 <= p < g.0.len() implies (#[trigger] g.0[p]).1 < adj.len() by {
                if p < prev.0.len() {
                    assert(g.0[p] == prev.0[p]);
                }
            }
        } else {
            assert(g.0 == prev.0);
        }
    } else {
        assert(ids(g.0) =~= Seq::<usize>::empty());
    }
}

/// How often `e` occurs among the elements of `s` that pass `p`.
proof fn lemma_filter_count<A>(s: Seq<A>, p: spec_fn(A) -> bool, e: A)
    ensures
        s.filter(p).to_multiset().count(e) == if p(e) {
            s.to_multiset().count(e)
        } else {
            0
        },
    decreases s.len(),
{
    reveal(Seq::filter);
    broadcast use vstd::seq_lib::group_to_multiset_ensures, vstd::multiset::group_multiset_axioms;
    if s.len() == 0 {
        assert(s.filter(p) =~= Seq::<A>::empty());
    } else {
        lemma_filter_count(s.drop_last(), p, e);
        assert(s =~= s.drop_last().push(s.last()));
    }
}

/// A stable sort only reorders: it keeps every element as often as it was.
pub proof fn lemma_stable_sort_same(a: Seq<(isize, usize)>, b: Seq<(isize, usize)>)
    requires
        is_stable_sort(a, b),
    ensures
        a.to_multiset() =~= b.to_multiset(),
{
    assert forall|e: (isize, usize)| #[trigger] a.to_multiset().count(e) == b.to_multiset().count(e) by {
        assert(keyed(b, e.0) == keyed(a, e.0));
        lemma_filter_count(a, key_is(e.0), e);
        lemma_filter_count(b, key_is(e.0), e);
    }
}


/// The node ids of the sorted candidates are those of the selected ones,
/// without repeats.
#[verifier::rlimit(80)]
proof fn lemma_sorted_ids(adj: Seq<Seq<Edge>>, bits0: Seq<bool>, nodes: Seq<usize>, sorted: Seq<(isize, usize)>)
    requires
        nodes.no_duplicates(),
        is_stable_sort(greedy_selection(adj, bits0, nodes).0, sorted),
    ensures
        ids(sorted).no_duplicates(),
        forall|x: usize| #[trigger] ids(sorted).contains(x) <==> ids(greedy_selection(adj, bits0, nodes).0).contains(x),
{
    broadcast use vstd::seq_lib::group_to_multiset_ensures;
    let g = greedy_selection(adj, bits0, nodes);
    lemma_greedy_partition(adj, bits0, nodes);
    lemma_stable_sort_same(g.0, sorted);
    let gi = ids(g.0);
    assert forall|p: int| 0 <= p < sorted.len() implies exists|q: int| 0 <= q < g.0.len() && g.0[q] == #[trigger] sorted[p] by {
        assert(sorted.to_multiset().count(sorted[p]) > 0);
        assert(g.0.contains(sorted[p]));
    }
    assert forall|q: int| 0 <= q < g.0.len() implies exists|p: int| 0 <= p < sorted.len() && sorted[p] == #[trigger] g.0[q] by {
        assert(g.0.to_multiset().count(g.0[q]) > 0);
        assert(sorted.contains(g.0[q]));
    }
    assert(g.0.no_duplicates()) by {
        assert forall|i: int, j: int| 0 <= i < g.0.len() && 0 <= j < g.0.len() && i != j implies g.0[i] != g.0[j] by {
            assert(gi[i] == g.0[i].1 && gi[j] == g.0[j].1);
        }
    }
    g.0.lemma_multiset_has_no_duplicates();
    sorted.lemma_multiset_has_no_duplicates_conv();
    let si = ids(sorted);
    assert forall|p: int, q: int| 0 <= p < si.len() && 0 <= q < si.len() && p != q implies si[p] != si[q] by {
        let p2 = choose|p2: int| 0 <= p2 < g.0.len() && g.0[p2] == #[trigger] sorted[p];
        let q2 = choose|q2: int| 0 <= q2 < g.0.len() && g.0[q2] == #[trigger] sorted[q];
        assert(gi[p2] == g.0[p2].1 && gi[q2] == g.0[q2].1);
        assert(sorted[p] != sorted[q]);
    }
    assert forall|x: usize| #[trigger] si.contains(x) <==> gi.contains(x) by {
        if si.contains(x) {
            let p = choose|p: int| 0 <= p < si.len() && si[p] == x;
            let q = choose|q: int| 0 <= q < g.0.len() && g.0[q] == #[trigger] sorted[p];
            assert(gi[q] == x);
        }
        if gi.contains(x) {
            let q = choose|q: int| 0 <= q < gi.len() && gi[q] == x;
            let p = choose|p: int| 0 <= p < sorted.len() && sorted[p] == #[trigger] g.0[q];
            assert(si[p] == x);
        }
    }
}

/// The list left for later rounds holds, without repeats, exactly the nodes
/// of the old list that are not in the set.
proof fn lemma_rest(nodes: Seq<usize>, gi: Seq<usize>, g1: Seq<usize>, si: Seq<usize>, c: int, rest: Seq<usize>)
    requires
        si.no_duplicates(),
        g1.no_duplicates(),
        forall|x: usize| !(#[trigger] gi.contains(x) && g1.contains(x)),
        forall|x: usize| #[trigger] nodes.contains(x) <==> (gi.contains(x) || g1.contains(x)),
        forall|x: usize| #[trigger] si.contains(x) <==> gi.contains(x),
        0 <= c <= si.len(),
        rest == g1 + si.skip(c),
    ensures
        rest.no_duplicates(),
        forall|x: usize| #[trigger] rest.contains(x) <==> (nodes.contains(x) && !si.take(c).contains(x)),
{
    let ti = si.take(c);
    let ki = si.skip(c);
    assert forall|x: usize| #[trigger] ki.contains(x) <==> (si.contains(x) && !ti.contains(x)) by {
        if ki.contains(x) {
            let p = choose|p: int| 0 <= p < ki.len() && ki[p] == x;
            assert(si[p + c] == x);
            if ti.contains(x) {
                let q = choose|q: int| 0 <= q < ti.len() && ti[q] == x;
                assert(si[q] == x);
            }
        }
        if si.contains(x) && !ti.contains(x) {
            let p = choose|p: int| 0 <= p < si.len() && si[p] == x;
            if p < c {
                assert(ti[p] == x);
            } else {
                assert(ki[p - c] == x);
            }
        }
    }
    assert(ki.no_duplicates()) by {
        assert forall|i: int, j: int| 0 <= i < ki.len() && 0 <= j < ki.len() && i != j implies ki[i] != ki[j] by {
            assert(ki[i] == si[i + c] && ki[j] == si[j + c]);
        }
    }
    assert forall|i: int, j: int| 0 <= i < g1.len() && 0 <= j < ki.len() implies g1[i] != ki[j] by {
        assert(g1.contains(g1[i]));
        assert(ki.contains(ki[j]));
    }
    vstd::seq_lib::lemma_no_dup_in_concat(g1, ki);
    assert forall|x: usize| #[trigger] rest.contains(x) <==> (g1.contains(x) || ki.contains(x)) by {
        if rest.contains(x) {
            let p = choose|p: int| 0 <= p < rest.len() && rest[p] == x;
            if p < g1.len() {
                assert(g1[p] == x);
            } else {
                assert(ki[p - g1.len()] == x);
            }
        }
        if g1.contains(x) {
            let p = choose|p: int| 0 <= p < g1.len() && g1[p] == x;
            assert(rest[p] == x);
        }
        if ki.contains(x) {
            let p = choose|p: int| 0 <= p < ki.len() && ki[p] == x;
            assert(rest[p + g1.len()] == x);
        }
    }
    assert forall|x: usize| #[trigger] rest.contains(x) <==> (nodes.contains(x) && !ti.contains(x)) by {
        if ti.contains(x) {
            let q = choose|q: int| 0 <= q < ti.len() && ti[q] == x;
            assert(si[q] == x);
            assert(si.contains(x));
            assert(gi.contains(x));
        }
        if g1.contains(x) {
            assert(nodes.contains(x));
        }
        if ki.contains(x) {
            assert(si.contains(x));
            assert(gi.contains(x));
        }
        if nodes.contains(x) && !ti.contains(x) && !g1.contains(x) {
            assert(gi.contains(x));
            assert(si.contains(x));
        }
    }
}

/// The set a round contracts, and the list left for later rounds: the set
/// is ready to be contracted, and the list holds, without repeats, exactly
/// the nodes of the old list that are not in the set.
pub proof fn lemma_selection(
    adj: Seq<Seq<Edge>>,
    bits0: Seq<bool>,
    nodes: Seq<usize>,
    sorted: Seq<(isize, usize)>,
    set: Seq<(isize, usize)>,
    rest: Seq<usize>,
)
    requires
        paired(adj),
        no_loops(adj),
        bits0.len() >= adj.len(),
        nodes.no_duplicates(),
        forall|i: int| 0 <= i < nodes.len() ==> (#[trigger] nodes[i]) < adj.len() && !bits0[nodes[i] as int],
        is_stable_sort(greedy_selection(adj, bits0, nodes).0, sorted),
        0 <= cutoff(sorted) <= sorted.len(),
        set == sorted.take(cutoff(sorted)),
        rest == greedy_selection(adj, bits0, nodes).1 + sorted.skip(cutoff(sorted)).map_values(|p: (isize, usize)| p.1),
    ensures
        round_ready(adj, bits0, set),
        rest.no_duplicates(),
        forall|x: usize| #[trigger] rest.contains(x) <==> (nodes.contains(x) && !ids(set).contains(x)),
{
    let g = greedy_selection(adj, bits0, nodes);
    let c = cutoff(sorted);
    lemma_greedy_partition(adj, bits0, nodes);
    assert forall|i: int| 0 <= i < nodes.len() implies (#[trigger] nodes[i]) < adj.len() by {}
    lemma_greedy_isolated(adj, bits0, nodes);
    lemma_sorted_ids(adj, bits0, nodes, sorted);
    let gi = ids(g.0);
    let si = ids(sorted);
    let ti = ids(set);
    assert(ti =~= si.take(c));
    assert(sorted.skip(c).map_values(|p: (isize, usize)| p.1) =~= si.skip(c));
    lemma_rest(nodes, gi, g.1, si, c, rest);
    assert forall|p: int| 0 <= p < set.len() implies (#[trigger] set[p]).1 < adj.len() && !bits0[set[p].1 as int] by {
        assert(set[p] == sorted[p]);
        assert(si[p] == set[p].1);
        assert(si.contains(si[p]));
        assert(gi.contains(si[p]));
        assert(nodes.contains(si[p]));
    }
    assert forall|p: int, q: int| 0 <= p < set.len() && 0 <= q < set.len() && p != q implies (#[trigger] set[p]).1 != (
    #[trigger] set[q]).1 by {
        assert(set[p] == sorted[p] && set[q] == sorted[q]);
        assert(si[p] == sorted[p].1 && si[q] == sorted[q].1);
    }
    assert forall|p: int, q: int, k: int|
        0 <= p < ti.len() && 0 <= q < ti.len() && 0 <= k < adj[ti[p] as int].len() implies (#[trigger] adj[ti[p] as int][k]).target
            != #[trigger] ti[q] by {
        assert(ti[p] == si[p] && ti[q] == si[q]);
        assert(si.contains(si[p]) && si.contains(si[q]));
        assert(gi.contains(si[p]) && gi.contains(si[q]));
        let p2 = choose|p2: int| 0 <= p2 < gi.len() && gi[p2] == si[p];
        let q2 = choose|q2: int| 0 <= q2 < gi.len() && gi[q2] == si[q];
        assert(adj[gi[p2] as int][k].target != gi[q2]);
    }
}

/// The set a round contracts, and the list left for later rounds, whatever
/// the graph: the set holds different nodes of the list, and the list left
/// holds, without repeats, exactly the nodes of the old list that are not in
/// the set.
pub proof fn lemma_selection_list(
    adj: Seq<Seq<Edge>>,
    bits0: Seq<bool>,
    nodes: Seq<usize>,
    sorted: Seq<(isize, usize)>,
    set: Seq<(isize, usize)>,
    rest: Seq<usize>,
)
    requires
        bits0.len() >= adj.len(),
        nodes.no_duplicates(),
        forall|i: int| 0 <= i < nodes.len() ==> (#[trigger] nodes[i]) < adj.len() && !bits0[nodes[i] as int],
        is_stable_sort(greedy_selection(adj, bits0, nodes).0, sorted),
        0 <= cutoff(sorted) <= sorted.len(),
        set == sorted.take(cutoff(sorted)),
        rest == greedy_selection(adj, bits0, nodes).1 + sorted.skip(cutoff(sorted)).map_values(|p: (isize, usize)| p.1),
    ensures
        forall|p: int| 0 <= p < set.len() ==> (#[trigger] set[p]).1 < adj.len() && !bits0[set[p].1 as int],
        rest.no_duplicates(),
        forall|x: usize| #[trigger] rest.contains(x) <==> (nodes.contains(x) && !ids(set).contains(x)),
{
    let g = greedy_selection(adj, bits0, nodes);
    let c = cutoff(sorted);
    lemma_greedy_partition(adj, bits0, nodes);
    lemma_sorted_ids(adj, bits0, nodes, sorted);
    let gi = ids(g.0);
    let si = ids(sorted);
    let ti = ids(set);
    assert(ti =~= si.take(c));
    assert(sorted.skip(c).map_values(|p: (isize, usize)| p.1) =~= si.skip(c));
    lemma_rest(nodes, gi, g.1, si, c, rest);
    assert forall|p: int| 0 <= p < set.len() implies (#[trigger] set[p]).1 < adj.len() && !bits0[set[p].1 as int] by {
        assert(set[p] == sorted[p]);
        assert(si[p] == set[p].1);
        assert(si.contains(si[p]));
        assert(gi.contains(si[p]));
        assert(nodes.contains(si[p]));
    }
}

/// The set a round contracts, and the list left for later rounds: the set
/// is ready to be contracted, and the list holds, without repeats, exactly
/// the nodes of the old list that are not in the set.
pub proof fn lemma_selection_apart(
    adj: Seq<Seq<Edge>>,
    bits0: Seq<bool>,
    nodes: Seq<usize>,
    sorted: Seq<(isize, usize)>,
    set: Seq<(isize, usize)>,
    rest: Seq<usize>,
)
    requires
        paired(adj),
        bits0.len() >= adj.len(),
        nodes.no_duplicates(),
        forall|i: int| 0 <= i < nodes.len() ==> (#[trigger] nodes[i]) < adj.len() && !bits0[nodes[i] as int],
        is_stable_sort(greedy_selection(adj, bits0, nodes).0, sorted),
        0 <= cutoff(sorted) <= sorted.len(),
        set == sorted.take(cutoff(sorted)),
        rest == greedy_selection(adj, bits0, nodes).1 + sorted.skip(cutoff(sorted)).map_values(|p: (isize, usize)| p.1),
    ensures
        round_apart(adj, bits0, set),
        rest.no_duplicates(),
        forall|x: usize| #[trigger] rest.contains(x) <==> (nodes.contains(x) && !ids(set).contains(x)),
{
    let g = greedy_selection(adj, bits0, nodes);
    let c = cutoff(sorted);
    lemma_greedy_partition(adj, bits0, nodes);
    assert forall|i: int| 0 <= i < nodes.len() implies (#[trigger] nodes[i]) < adj.len() by {}
    lemma_greedy_apart(adj, bits0, nodes);
    lemma_sorted_ids(adj, bits0, nodes, sorted);
    let gi = ids(g.0);
    let si = ids(sorted);
    let ti = ids(set);
    assert(ti =~= si.take(c));
    assert(sorted.skip(c).map_values(|p: (isize, usize)| p.1) =~= si.skip(c));
    lemma_rest(nodes, gi, g.1, si, c, rest);
    assert forall|p: int| 0 <= p < set.len() implies (#[trigger] set[p]).1 < adj.len() && !bits0[set[p].1 as int] by {
        assert(set[p] == sorted[p]);
        assert(si[p] == set[p].1);
        assert(si.contains(si[p]));
        assert(gi.contains(si[p]));
        assert(nodes.contains(si[p]));
    }
    assert forall|p: int, q: int| 0 <= p < set.len() && 0 <= q < set.len() && p != q implies (#[trigger] set[p]).1 != (
    #[trigger] set[q]).1 by {
        assert(set[p] == sorted[p] && set[q] == sorted[q]);
        assert(si[p] == sorted[p].1 && si[q] == sorted[q].1);
    }
    assert forall|p: int, q: int, k: int|
        0 <= p < ti.len() && 0 <= q < ti.len() && ti[p] != ti[q] && 0 <= k < adj[ti[p] as int].len() implies (#[trigger] adj[ti[p] as int][k]).target
            != #[trigger] ti[q] by {
        assert(ti[p] == si[p] && ti[q] == si[q]);
        assert(si.contains(si[p]) && si.contains(si[q]));
        assert(gi.contains(si[p]) && gi.contains(si[q]));
        let p2 = choose|p2: int| 0 <= p2 < gi.len() && gi[p2] == si[p];
        let q2 = choose|q2: int| 0 <= q2 < gi.len() && gi[q2] == si[q];
        assert(adj[gi[p2] as int][k].target != gi[q2]);
    }
}

} // verus!
