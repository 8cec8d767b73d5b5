//! How contraction hands out levels, whatever the weights: a node gets the
//! number of the round that contracts it, and since a round contracts nodes
//! that no edge joins, and its shortcuts join nodes that stay, no edge ever
//! joins two different nodes of the same level.
use vstd::prelude::*;
use crate::graph::{add_edge_spec, Edge, Node};
use crate::ch::{contraction_round, insert_shortcuts, node_shortcuts, shortcut_edge, with_level, Shortcut};
use crate::contraction::{adds_only, combines, from_pair, lemma_add_edge_arcs, lemma_table_members};
use crate::paths::{none_blocked, out_arc, targets_in_range};

verus! {

/// Some edge stored at `x`, in either direction, points to `y`.
pub open spec fn slot(adj: Seq<Seq<Edge>>, x: int, y: int) -> bool {
    exists|i: int| 0 <= i < adj[x].len() && (#[trigger] adj[x][i]).target == y
}

/// `x` and `y` are both not contracted, and edges stored at `v` point to both.
pub open spec fn joined_at(adj0: Seq<Seq<Edge>>, bits0: Seq<bool>, v: int, x: int, y: int) -> bool {
    &&& !bits0[x] && slot(adj0, v, x)
    &&& !bits0[y] && slot(adj0, v, y)
}

/// `x` is one of the nodes that `results` contracts.
pub open spec fn planned(results: Seq<(usize, Seq<Shortcut>)>, x: int) -> bool {
    exists|k: int| 0 <= k < results.len() && #[trigger] results[k].0 == x
}

/// `x` and `y` are the two ends of `sc`.
pub open spec fn ends(sc: Shortcut, x: int, y: int) -> bool {
    (x == sc.from && y == sc.to) || (x == sc.to && y == sc.from)
}

/// Contracted nodes have levels below `level`, and no edge stored at a
/// contracted node points to a different contracted node of the same level.
pub open spec fn levels_kept(adj: Seq<Seq<Edge>>, nodes: Seq<Node>, bits: Seq<bool>, level: int) -> bool {
    &&& forall|x: int| 0 <= x < adj.len() && #[trigger] bits[x] ==> nodes[x].level < level
    &&& forall|x: int, y: int|
        0 <= x < adj.len() && 0 <= y < adj.len() && x != y && bits[x] && bits[y] && #[trigger] slot(adj, x, y)
            ==> nodes[x].level != nodes[y].level
}

/// No forward edge joins two different nodes of the same level.
pub open spec fn levels_apart(adj: Seq<Seq<Edge>>, nodes: Seq<Node>) -> bool {
    forall|u: int, v: int, w: int| #[trigger] out_arc(adj, none_blocked(), u, v, w) && u != v ==> nodes[u].level != nodes[v].level
}

/// What a round needs of the nodes it contracts: they exist, are not yet
/// contracted, get the shortcuts planned for them, and no edge stored at
/// one points to another.
pub open spec fn results_apart(adj0: Seq<Seq<Edge>>, bits0: Seq<bool>, results: Seq<(usize, Seq<Shortcut>)>) -> bool {
    &&& forall|k: int|
        0 <= k < results.len() ==> (#[trigger] results[k]).0 < adj0.len() && !bits0[results[k].0 as int]
            && results[k].1 == node_shortcuts(adj0, bits0, results[k].0 as int)
    &&& forall|p: int, q: int, i: int|
        0 <= p < results.len() && 0 <= q < results.len() && results[p].0 != results[q].0 && 0 <= i
            < adj0[results[p].0 as int].len() ==> (#[trigger] adj0[results[p].0 as int][i]).target != #[trigger] results[q].0
}

/// Merging a forward edge and its backward copy stores edges only between
/// its two ends.
proof fn lemma_add_edge_slots(adj: Seq<Seq<Edge>>, u: int, e: Edge)
    requires
        e.dir,
        0 <= u < adj.len(),
        u <= u64::MAX,
        0 <= e.target < adj.len(),
    ensures
        add_edge_spec(adj, u, e).len() == adj.len(),
        forall|x: int, y: int|
            0 <= x < adj.len() && #[trigger] slot(add_edge_spec(adj, u, e), x, y) ==> slot(adj, x, y) || (x == u && y
                == e.target) || (x == e.target && y == u),
{
    let keep = |x: int| false;
    lemma_add_edge_arcs(adj, u, e, keep);
    let fin = add_edge_spec(adj, u, e);
    assert forall|x: int, y: int| 0 <= x < adj.len() && #[trigger] slot(fin, x, y) implies slot(adj, x, y) || (x == u
        && y == e.target) || (x == e.target && y == u) by {
        let i = choose|i: int| 0 <= i < fin[x].len() && (#[trigger] fin[x][i]).target == y;
        assert(adds_only(adj, fin, u, e.target as int, e.weight as int));
        if i < adj[x].len() && fin[x][i] == adj[x][i] {
            assert(adj[x][i].target == y);
        }
    }
}

/// Inserting shortcuts stores edges only between the ends of one of them.
proof fn lemma_insert_slots(adj: Seq<Seq<Edge>>, created: i32, scs: Seq<Shortcut>)
    requires
        adj.len() <= u64::MAX,
        forall|k: int| 0 <= k < scs.len() ==> (#[trigger] scs[k]).from < adj.len() && scs[k].to < adj.len(),
    ensures
        insert_shortcuts(adj, created, scs).0.len() == adj.len(),
        forall|x: int, y: int|
            0 <= x < adj.len() && #[trigger] slot(insert_shortcuts(adj, created, scs).0, x, y) ==> slot(adj, x, y)
                || exists|k: int| 0 <= k < scs.len() && #[trigger] ends(scs[k], x, y),
    decreases scs.len(),
{
    if scs.len() > 0 {
        let s0 = scs.drop_last();
        assert forall|k: int| 0 <= k < s0.len() implies (#[trigger] s0[k]).from < adj.len() && s0[k].to < adj.len() by {
            assert(s0[k] == scs[k]);
        }
        lemma_insert_slots(adj, created, s0);
        let prev = insert_shortcuts(adj, created, s0);
        let sc = scs.last();
        let last = scs.len() - 1;
        assert(sc == scs[last]);
        let id = crate::graph::wrapping_i32_succ(prev.1);
        let e = shortcut_edge(sc, id);
        let fin = insert_shortcuts(adj, created, scs);
        assert(fin.0 == add_edge_spec(prev.0, sc.from as int, e));
        lemma_add_edge_slots(prev.0, sc.from as int, e);
        assert forall|x: int, y: int| 0 <= x < adj.len() && #[trigger] slot(fin.0, x, y) implies slot(adj, x, y)
            || exists|k: int| 0 <= k < scs.len() && #[trigger] ends(scs[k], x, y) by {
            if slot(prev.0, x, y) {
                if !slot(adj, x, y) {
                    let k = choose|k: int| 0 <= k < s0.len() && #[trigger] ends(s0[k], x, y);
                    assert(s0[k] == scs[k]);
                    assert(ends(scs[k], x, y));
                }
            } else {
                assert(ends(scs[last], x, y));
            }
        }
    } else {
        assert(insert_shortcuts(adj, created, scs).0 == adj);
    }
}

/// A shortcut planned at `v` joins two nodes that are not contracted and
/// that edges stored at `v` point to.
proof fn lemma_shortcut_joins(adj0: Seq<Seq<Edge>>, bits0: Seq<bool>, v: int, sc: Shortcut)
    requires
        targets_in_range(adj0),
        0 <= v < adj0.len(),
        from_pair(adj0, bits0, adj0[v], adj0[v], sc),
    ensures
        sc.from < adj0.len() && sc.to < adj0.len(),
        joined_at(adj0, bits0, v, sc.from as int, sc.to as int),
        joined_at(adj0, bits0, v, sc.to as int, sc.from as int),
{
    let list = adj0[v];
    let (i, j) = choose|i: int, j: int| 0 <= i < list.len() && 0 <= j < list.len() && #[trigger] combines(adj0, bits0, list[i], list[j], sc);
    assert(adj0[v][i].target < adj0.len());
    assert(adj0[v][j].target < adj0.len());
    assert(slot(adj0, v, sc.from as int));
    assert(slot(adj0, v, sc.to as int));
}

/// A round of contraction marks the nodes it contracts, gives them `level`,
/// and stores new edges only between two nodes that edges at one contracted
/// node point to and that are not contracted.
pub proof fn lemma_round_slots(
    adj0: Seq<Seq<Edge>>,
    nodes0: Seq<Node>,
    c0: i32,
    bits0: Seq<bool>,
    results: Seq<(usize, Seq<Shortcut>)>,
    level: u16,
)
    requires
        targets_in_range(adj0),
        adj0.len() <= u64::MAX,
        bits0.len() >= adj0.len(),
        nodes0.len() == adj0.len(),
        forall|k: int|
            0 <= k < results.len() ==> (#[trigger] results[k]).0 < adj0.len() && results[k].1 == node_shortcuts(
                adj0,
                bits0,
                results[k].0 as int,
            ),
    ensures
        ({
            let r = contraction_round(adj0, nodes0, c0, bits0, results, level);
            &&& r.0.len() == adj0.len() && r.1.len() == nodes0.len() && r.3.len() == bits0.len()
            &&& forall|x: int| 0 <= x < bits0.len() ==> #[trigger] r.3[x] == (bits0[x] || planned(results, x))
            &&& forall|x: int|
                0 <= x < nodes0.len() ==> #[trigger] r.1[x].level == (if planned(results, x) {
                    level
                } else {
                    nodes0[x].level
                })
            &&& forall|x: int, y: int|
                0 <= x < adj0.len() && #[trigger] slot(r.0, x, y) ==> slot(adj0, x, y) || exists|k: int|
                    0 <= k < results.len() && #[trigger] joined_at(adj0, bits0, results[k].0 as int, x, y)
        }),
    decreases results.len(),
{
    let r = contraction_round(adj0, nodes0, c0, bits0, results, level);
    if results.len() == 0 {
        assert forall|x: int| 0 <= x < bits0.len() implies #[trigger] r.3[x] == (bits0[x] || planned(results, x)) by {}
    } else {
        let r0 = results.drop_last();
        assert forall|k: int| 0 <= k < r0.len() implies (#[trigger] r0[k]).0 < adj0.len() && r0[k].1 == node_shortcuts(
            adj0,
            bits0,
            r0[k].0 as int,
        ) by {
            assert(r0[k] == results[k]);
        }
        lemma_round_slots(adj0, nodes0, c0, bits0, r0, level);
        let prev = contraction_round(adj0, nodes0, c0, bits0, r0, level);
        let lastk = results.len() - 1;
        let last = results.last();
        assert(last == results[lastk]);
        let v = last.0 as int;
        let scs = last.1;
        let list = adj0[v];
        lemma_table_members(adj0, bits0, list, list);
        assert forall|k: int| 0 <= k < scs.len() implies (#[trigger] scs[k]).from < prev.0.len() && scs[k].to < prev.0.len() by {
            assert(from_pair(adj0, bits0, list, list, scs[k]));
            lemma_shortcut_joins(adj0, bits0, v, scs[k]);
        }
        lemma_insert_slots(prev.0, prev.2, scs);
        let ins = insert_shortcuts(prev.0, prev.2, scs);
        assert(r == (ins.0, with_level(prev.1, v, level), ins.1, prev.3.update(v, true)));
        assert forall|x: int| 0 <= x < bits0.len() implies #[trigger] r.3[x] == (bits0[x] || planned(results, x)) by {
            if planned(results, x) && x != v {
                let k = choose|k: int| 0 <= k < results.len() && #[trigger] results[k].0 == x;
                assert(r0[k] == results[k]);
                assert(planned(r0, x));
            }
            if planned(r0, x) {
                let k = choose|k: int| 0 <= k < r0.len() && #[trigger] r0[k].0 == x;
                assert(r0[k] == results[k]);
            }
            if x == v {
                assert(results[lastk].0 == x);
            }
        }
        assert forall|x: int| 0 <= x < nodes0.len() implies #[trigger] r.1[x].level == (if planned(results, x) {
            level
        } else {
            nodes0[x].level
        }) by {
            if planned(results, x) && x != v {
                let k = choose|k: int| 0 <= k < results.len() && #[trigger] results[k].0 == x;
                assert(r0[k] == results[k]);
                assert(planned(r0, x));
            }
            if planned(r0, x) {
                let k = choose|k: int| 0 <= k < r0.len() && #[trigger] r0[k].0 == x;
                assert(r0[k] == results[k]);
            }
            if x == v {
                assert(results[lastk].0 == x);
            }
        }
        assert forall|x: int, y: int| 0 <= x < adj0.len() && #[trigger] slot(r.0, x, y) implies slot(adj0, x, y)
            || exists|k: int| 0 <= k < results.len() && #[trigger] joined_at(adj0, bits0, results[k].0 as int, x, y) by {
            if slot(prev.0, x, y) {
                if !slot(adj0, x, y) {
                    let k = choose|k: int| 0 <= k < r0.len() && #[trigger] joined_at(adj0, bits0, r0[k].0 as int, x, y);
                    assert(r0[k] == results[k]);
                }
            } else {
                let k = choose|k: int| 0 <= k < scs.len() && #[trigger] ends(scs[k], x, y);
                assert(from_pair(adj0, bits0, list, list, scs[k]));
                lemma_shortcut_joins(adj0, bits0, v, scs[k]);
                assert(joined_at(adj0, bits0, results[lastk].0 as int, x, y));
            }
        }
    }
}

/// A round that contracts nodes no edge joins keeps the levels apart, one
/// level higher.
pub proof fn lemma_round_levels(
    adj0: Seq<Seq<Edge>>,
    nodes0: Seq<Node>,
    c0: i32,
    bits0: Seq<bool>,
    results: Seq<(usize, Seq<Shortcut>)>,
    level: u16,
)
    requires
        targets_in_range(adj0),
        adj0.len() <= u64::MAX,
        bits0.len() >= adj0.len(),
        nodes0.len() == adj0.len(),
        results_apart(adj0, bits0, results),
        levels_kept(adj0, nodes0, bits0, level as int),
    ensures
        ({
            let r = contraction_round(adj0, nodes0, c0, bits0, results, level);
            &&& levels_kept(r.0, r.1, r.3, level as int + 1)
            &&& forall|x: int| 0 <= x < bits0.len() ==> #[trigger] r.3[x] == (bits0[x] || planned(results, x))
        }),
{
    lemma_round_slots(adj0, nodes0, c0, bits0, results, level);
    let r = contraction_round(adj0, nodes0, c0, bits0, results, level);
    let n = adj0.len();
    assert forall|x: int| 0 <= x < r.0.len() && #[trigger] r.3[x] implies r.1[x].level < level + 1 by {
        if !planned(results, x) {
            assert(bits0[x]);
        }
    }
    assert forall|x: int, y: int|
        0 <= x < r.0.len() && 0 <= y < r.0.len() && x != y && r.3[x] && r.3[y] && #[trigger] slot(r.0, x, y) implies r.1[x].level
            != r.1[y].level by {
        assert(r.3[x] == (bits0[x] || planned(results, x)));
        assert(r.3[y] == (bits0[y] || planned(results, y)));
        if slot(adj0, x, y) {
            let i = choose|i: int| 0 <= i < adj0[x].len() && (#[trigger] adj0[x][i]).target == y;
            if planned(results, x) && planned(results, y) {
                let p = choose|p: int| 0 <= p < results.len() && #[trigger] results[p].0 == x;
                let q = choose|q: int| 0 <= q < results.len() && #[trigger] results[q].0 == y;
                assert(adj0[results[p].0 as int][i].target != results[q].0);
            } else if planned(results, x) {
                let p = choose|p: int| 0 <= p < results.len() && #[trigger] results[p].0 == x;
                assert(!bits0[results[p].0 as int]);
                assert(bits0[y]);
            } else if planned(results, y) {
                let q = choose|q: int| 0 <= q < results.len() && #[trigger] results[q].0 == y;
                assert(!bits0[results[q].0 as int]);
                assert(bits0[x]);
            } else {
                assert(bits0[x] && bits0[y]);
            }
        } else {
            let k = choose|k: int| 0 <= k < results.len() && #[trigger] joined_at(adj0, bits0, results[k].0 as int, x, y);
            let v = results[k].0 as int;
            assert(!bits0[x] && !bits0[y]);
            let p = choose|p: int| 0 <= p < results.len() && #[trigger] results[p].0 == x;
            let q = choose|q: int| 0 <= q < results.len() && #[trigger] results[q].0 == y;
            let i = choose|i: int| 0 <= i < adj0[v].len() && (#[trigger] adj0[v][i]).target == x;
            let j = choose|j: int| 0 <= j < adj0[v].len() && (#[trigger] adj0[v][j]).target == y;
            if results[k].0 != results[p].0 {
                assert(adj0[results[k].0 as int][i].target != results[p].0);
            }
            if results[k].0 != results[q].0 {
                assert(adj0[results[k].0 as int][j].target != results[q].0);
            }
        }
    }
}

/// Nothing is contracted yet: the levels are kept apart trivially.
pub proof fn lemma_levels_start(adj: Seq<Seq<Edge>>, nodes: Seq<Node>, bits: Seq<bool>)
    requires
        forall|i: int| 0 <= i < bits.len() ==> !#[trigger] bits[i],
        bits.len() >= adj.len(),
    ensures
        levels_kept(adj, nodes, bits, 0),
{
}

/// A bound on the levels may be raised.
pub proof fn lemma_levels_raise(adj: Seq<Seq<Edge>>, nodes: Seq<Node>, bits: Seq<bool>, l1: int, l2: int)
    requires
        levels_kept(adj, nodes, bits, l1),
        l1 <= l2,
    ensures
        levels_kept(adj, nodes, bits, l2),
{
}

/// Once every node is contracted, no forward edge joins two different nodes
/// of the same level.
pub proof fn lemma_levels_end(adj: Seq<Seq<Edge>>, nodes: Seq<Node>, bits: Seq<bool>, level: int)
    requires
        targets_in_range(adj),
        levels_kept(adj, nodes, bits, level),
        forall|x: int| 0 <= x < adj.len() ==> #[trigger] bits[x],
    ensures
        levels_apart(adj, nodes),
{
    assert forall|u: int, v: int, w: int| #[trigger] out_arc(adj, none_blocked(), u, v, w) && u != v implies nodes[u].level
        != nodes[v].level by {
        let i = choose|i: int|
            0 <= i < adj[u].len() && (#[trigger] adj[u][i]).dir && adj[u][i].target == v && adj[u][i].weight == w
                && !none_blocked()(v);
        assert(adj[u][i].target < adj.len());
        assert(slot(adj, u, v));
        assert(bits[u] && bits[v]);
    }
}

} // verus!
