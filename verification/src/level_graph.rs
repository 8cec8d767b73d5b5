//! Graphs whose nodes are numbered in the order of their levels, with the
//! outgoing and the incoming edges stored as offset arrays.
use vstd::prelude::*;
use vstd::relations::{sorted_by, total_ordering};
use crate::fmi::{as_u64, edge_from_tokens, edge_line, EdgeRecord, FmiError};
use crate::graph::{wrapping_i32_succ, Edge, EdgeCounter};
use crate::text::{all_digits, digits_part, digits_value, lemma_number_reads, number_text, content_lines, parse_unsigned, parse_unsigned_exec, read_lines, split_tokens, tokens, views};

verus! {

/// The views of a sequence of edge lists.
pub open spec fn list_views(v: Seq<Vec<Edge>>) -> Seq<Seq<Edge>> {
    v.map_values(|l: Vec<Edge>| l@)
}

/// Edge lists stored one after another: the list of node `u` is
/// `edges[offsets[u] .. offsets[u + 1]]`.
pub struct OffsetArray {
    pub edges: Vec<Edge>,
    pub offsets: Vec<u64>,
}

impl OffsetArray {
    /// This array stores the lists `adj`, in order.
    pub open spec fn stores(&self, adj: Seq<Seq<Edge>>) -> bool {
        &&& self.edges@ == adj.flatten()
        &&& self.offsets@.len() == adj.len() + 1
        &&& forall|u: int|
            0 <= u <= adj.len() ==> #[trigger] self.offsets@[u] == adj.take(u).flatten().len()
    }
}

proof fn lemma_prefix_flat_len(adj: Seq<Seq<Edge>>, k: int)
    requires
        0 <= k <= adj.len(),
    ensures
        adj.take(k).flatten_alt().len() <= adj.flatten_alt().len(),
    decreases adj.len(),
{
    if k == adj.len() {
        assert(adj.take(k) =~= adj);
    } else {
        assert(adj.drop_last().take(k) =~= adj.take(k));
        lemma_prefix_flat_len(adj.drop_last(), k);
    }
}

/// Lays the lists of `adj_list` out one after another; the offset of each
/// node is the number of edges before its list.
pub fn create_offset_array(adj_list: Vec<Vec<Edge>>) -> (r: OffsetArray)
    requires
        list_views(adj_list@).flatten().len() <= u64::MAX,
    ensures
        r.stores(list_views(adj_list@)),
{
    let ghost adj = list_views(adj_list@);
    let n = adj_list.len();
    proof {
        adj.lemma_flatten_and_flatten_alt_are_equivalent();
    }
    let mut flat_edges: Vec<Edge> = Vec::new();
    let mut nodes: Vec<u64> = Vec::new();
    let mut current_offset: u64 = 0;
    nodes.push(0);
    proof {
        assert(adj.take(0) =~= Seq::<Seq<Edge>>::empty());
    }
    let mut i: usize = 0;
    while i < n
        invariant
            adj == list_views(adj_list@),
            n == adj.len(),
            adj.flatten_alt().len() <= u64::MAX,
            i <= n,
            flat_edges@ == adj.take(i as int).flatten_alt(),
            current_offset == flat_edges@.len(),
            nodes@.len() == i + 1,
            forall|u: int| 0 <= u <= i ==> #[trigger] nodes@[u] == adj.take(u).flatten_alt().len(),
        decreases n - i,
    {
        let list = &adj_list[i];
        proof {
            assert(list@ == adj[i as int]);
            lemma_prefix_flat_len(adj, i + 1);
            assert(adj.take(i + 1).drop_last() =~= adj.take(i as int));
            assert(adj.take(i + 1).last() == adj[i as int]);
        }
        let ghost base = flat_edges@;
        let mut j: usize = 0;
        while j < list.len()
            invariant
                j <= list@.len(),
                flat_edges@ == base + list@.take(j as int),
            decreases list@.len() - j,
        {
            flat_edges.push(list[j]);
            j = j + 1;
            proof {
                assert(list@.take(j as int) =~= list@.take(j - 1).push(list@[j - 1]));
            }
        }
        proof {
            assert(list@.take(list@.len() as int) =~= list@);
        }
        current_offset = flat_edges.len() as u64;
        nodes.push(current_offset);
        i = i + 1;
    }
    proof {
        assert(adj.take(n as int) =~= adj);
        assert forall|u: int| 0 <= u <= adj.len() implies #[trigger] nodes@[u] == adj.take(
            u,
        ).flatten().len() by {
            adj.take(u).lemma_flatten_and_flatten_alt_are_equivalent();
        }
    }
    OffsetArray { edges: flat_edges, offsets: nodes }
}


/// The level of a node line: its sixth field.
pub open spec fn level_field(toks: Seq<Seq<u8>>) -> Option<u64> {
    if toks.len() < 6 {
        None
    } else {
        as_u64(parse_unsigned(toks[5], u64::MAX as int))
    }
}

/// An edge line of a graph file with levels: read as `edge_line` reads it,
/// but the sixth and the seventh field must both be there.
pub open spec fn level_edge_field(toks: Seq<Seq<u8>>) -> Option<EdgeRecord> {
    if toks.len() < 7 {
        None
    } else {
        edge_line(toks)
    }
}

/// A graph file with levels: the node count and the edge count on the first
/// two content lines, then that many node lines, of which only the level is
/// read, and that many edge lines.
pub open spec fn spec_parse_levels(text: Seq<u8>) -> Option<(Seq<u64>, Seq<EdgeRecord>)> {
    let ls = content_lines(text);
    if ls.len() < 2 {
        None
    } else {
        match (parse_unsigned(ls[0], usize::MAX as int), parse_unsigned(ls[1], usize::MAX as int)) {
            (Some(nn), Some(ne)) => if ls.len() >= 2 + nn + ne && (forall|i: int|
                0 <= i < nn ==> (#[trigger] level_field(tokens(ls[2 + i]))) is Some) && (forall|i: int|
                0 <= i < ne ==> (#[trigger] level_edge_field(tokens(ls[2 + nn + i]))) is Some) {
                Some(
                    (
                        Seq::new(nn as nat, |i: int| level_field(tokens(ls[2 + i])).unwrap()),
                        Seq::new(ne as nat, |i: int| level_edge_field(tokens(ls[2 + nn + i])).unwrap()),
                    ),
                )
            } else {
                None
            },
            _ => None,
        }
    }
}

/// Level first, then node number.
pub open spec fn pair_leq() -> spec_fn((u64, usize), (u64, usize)) -> bool {
    |a: (u64, usize), b: (u64, usize)| a.0 < b.0 || (a.0 == b.0 && a.1 <= b.1)
}

/// Each node's level beside its number.
pub open spec fn indexed_levels(levels: Seq<u64>) -> Seq<(u64, usize)> {
    Seq::new(levels.len(), |i: int| (levels[i], i as usize))
}

/// The nodes ordered by level, nodes of equal level by their number.
pub open spec fn level_order(levels: Seq<u64>) -> Seq<(u64, usize)> {
    indexed_levels(levels).sort_by(pair_leq())
}

/// The levels in the level order.
pub open spec fn sorted_levels(levels: Seq<u64>) -> Seq<u64> {
    level_order(levels).map_values(|p: (u64, usize)| p.0)
}

/// The new number of node `u`: its place in the level order.
pub open spec fn new_number(levels: Seq<u64>, u: int) -> int {
    choose|i: int| 0 <= i < levels.len() && level_order(levels)[i].1 == u
}

/// The new number of every node.
pub open spec fn renumbering(levels: Seq<u64>) -> Seq<usize> {
    Seq::new(levels.len(), |u: int| new_number(levels, u) as usize)
}

proof fn lemma_pair_leq_total()
    ensures
        total_ordering(pair_leq()),
{
}

/// The level order holds every node once, with its level, and `new_number`
/// is the place of each node in it.
pub proof fn lemma_level_order(levels: Seq<u64>)
    requires
        levels.len() <= usize::MAX,
    ensures
        level_order(levels).len() == levels.len(),
        sorted_by(level_order(levels), pair_leq()),
        forall|i: int|
            0 <= i < levels.len() ==> (#[trigger] level_order(levels)[i]).1 < levels.len()
                && level_order(levels)[i].0 == levels[level_order(levels)[i].1 as int],
        forall|i: int, j: int|
            0 <= i < levels.len() && 0 <= j < levels.len() && i != j ==> (#[trigger] level_order(
                levels,
            )[i]).1 != (#[trigger] level_order(levels)[j]).1,
        forall|u: int|
            0 <= u < levels.len() ==> 0 <= #[trigger] new_number(levels, u) < levels.len()
                && level_order(levels)[new_number(levels, u)].1 == u,
{
    broadcast use vstd::seq_lib::group_to_multiset_ensures;
    let ix = indexed_levels(levels);
    let ord = level_order(levels);
    lemma_pair_leq_total();
    ix.lemma_sort_by_ensures(pair_leq());
    vstd::seq_lib::lemma_multiset_commutative(ix, ord);
    assert(ix.to_multiset().len() == ix.len());
    assert(ord.to_multiset().len() == ord.len());
    assert(ix.no_duplicates()) by {
        assert forall|i: int, j: int|
            0 <= i < ix.len() && 0 <= j < ix.len() && i != j implies ix[i] != ix[j] by {
            assert(ix[i].1 == i as usize);
            assert(ix[j].1 == j as usize);
        }
    }
    ix.lemma_multiset_has_no_duplicates();
    ord.lemma_multiset_has_no_duplicates_conv();
    assert forall|i: int| 0 <= i < ord.len() implies exists|k: int|
        0 <= k < ix.len() && ix[k] == #[trigger] ord[i] by {
        assert(ord.to_multiset().contains(ord[i]));
        assert(ix.contains(ord[i]));
    }
    assert forall|i: int| 0 <= i < levels.len() implies (#[trigger] ord[i]).1 < levels.len()
        && ord[i].0 == levels[ord[i].1 as int] by {
        let k = choose|k: int| 0 <= k < ix.len() && ix[k] == ord[i];
        assert(ix[k] == (levels[k], k as usize));
    }
    assert forall|i: int, j: int|
        0 <= i < levels.len() && 0 <= j < levels.len() && i != j implies (#[trigger] ord[i]).1 != (
        #[trigger] ord[j]).1 by {
        let k = choose|k: int| 0 <= k < ix.len() && ix[k] == ord[i];
        let m = choose|m: int| 0 <= m < ix.len() && ix[m] == ord[j];
        assert(ix[k] == (levels[k], k as usize));
        assert(ix[m] == (levels[m], m as usize));
    }
    assert forall|u: int| 0 <= u < levels.len() implies 0 <= #[trigger] new_number(levels, u)
        < levels.len() && level_order(levels)[new_number(levels, u)].1 == u by {
        assert(ix[u] == (levels[u], u as usize));
        assert(ix.to_multiset().contains(ix[u]));
        assert(ord.contains(ix[u]));
        let i = choose|i: int| 0 <= i < ord.len() && ord[i] == ix[u];
        assert(0 <= i < levels.len() && ord[i].1 == u);
    }
}

/// In the level order the levels never decrease.
pub proof fn lemma_sorted_levels_ascend(levels: Seq<u64>)
    requires
        levels.len() <= usize::MAX,
    ensures
        sorted_levels(levels).len() == levels.len(),
        forall|i: int, j: int|
            0 <= i <= j < levels.len() ==> sorted_levels(levels)[i] <= sorted_levels(levels)[j],
{
    lemma_level_order(levels);
    let ord = level_order(levels);
    assert forall|i: int, j: int| 0 <= i <= j < levels.len() implies sorted_levels(levels)[i]
        <= sorted_levels(levels)[j] by {
        if i < j {
            assert((pair_leq())(ord[i], ord[j]));
        }
    }
}

/// The outgoing lists, the incoming lists, and the creation count after
/// reading the edge lines `es` into `n` empty lists of each kind, with node
/// `u` renamed `num[u]`: each line adds a numbered edge to the target at its
/// source, then a numbered edge to the source, with the two shortcut ids
/// swapped, at its target.
pub open spec fn build_level_adj(n: nat, es: Seq<EdgeRecord>, num: Seq<usize>, created: i32) -> (
    Seq<Seq<Edge>>,
    Seq<Seq<Edge>>,
    i32,
)
    decreases es.len(),
{
    if es.len() == 0 {
        (Seq::new(n, |i: int| Seq::<Edge>::empty()), Seq::new(n, |i: int| Seq::<Edge>::empty()), created)
    } else {
        let prev = build_level_adj(n, es.drop_last(), num, created);
        let r = es.last();
        let s = num[r.source as int];
        let t = num[r.target as int];
        let id_out = wrapping_i32_succ(prev.2);
        let id_in = wrapping_i32_succ(id_out);
        let out_edge = Edge {
            target: t as u64,
            weight: r.weight,
            edge_id_a: r.edge_id_a,
            edge_id_b: r.edge_id_b,
            id: id_out,
            dir: true,
        };
        let in_edge = Edge {
            target: s as u64,
            weight: r.weight,
            edge_id_a: r.edge_id_b,
            edge_id_b: r.edge_id_a,
            id: id_in,
            dir: true,
        };
        (
            prev.0.update(s as int, prev.0[s as int].push(out_edge)),
            prev.1.update(t as int, prev.1[t as int].push(in_edge)),
            id_in,
        )
    }
}

proof fn lemma_flat_len_push(adj: Seq<Seq<Edge>>, s: int, e: Edge)
    requires
        0 <= s < adj.len(),
    ensures
        adj.update(s, adj[s].push(e)).flatten_alt().len() == adj.flatten_alt().len() + 1,
    decreases adj.len(),
{
    let a2 = adj.update(s, adj[s].push(e));
    if s == adj.len() - 1 {
        assert(a2.drop_last() =~= adj.drop_last());
    } else {
        assert(a2.drop_last() =~= adj.drop_last().update(s, adj.drop_last()[s].push(e)));
        lemma_flat_len_push(adj.drop_last(), s, e);
    }
}

proof fn lemma_empty_flat_len(n: nat)
    ensures
        Seq::new(n, |i: int| Seq::<Edge>::empty()).flatten_alt().len() == 0,
    decreases n,
{
    if n > 0 {
        assert(Seq::new(n, |i: int| Seq::<Edge>::empty()).drop_last() =~= Seq::new(
            (n - 1) as nat,
            |i: int| Seq::<Edge>::empty(),
        ));
        lemma_empty_flat_len((n - 1) as nat);
    }
}

/// Each edge line adds one edge to the outgoing lists and one to the
/// incoming lists.
proof fn lemma_build_level_adj(n: nat, es: Seq<EdgeRecord>, num: Seq<usize>, created: i32)
    requires
        num.len() == n,
        forall|u: int| 0 <= u < n ==> #[trigger] num[u] < n,
        forall|i: int| 0 <= i < es.len() ==> (#[trigger] es[i]).source < n && es[i].target < n,
    ensures
        build_level_adj(n, es, num, created).0.len() == n,
        build_level_adj(n, es, num, created).1.len() == n,
        build_level_adj(n, es, num, created).0.flatten_alt().len() == es.len(),
        build_level_adj(n, es, num, created).1.flatten_alt().len() == es.len(),
    decreases es.len(),
{
    if es.len() == 0 {
        lemma_empty_flat_len(n);
    } else {
        let prev = build_level_adj(n, es.drop_last(), num, created);
        lemma_build_level_adj(n, es.drop_last(), num, created);
        let r = es.last();
        assert(r == es[es.len() - 1]);
        let s = num[r.source as int];
        let t = num[r.target as int];
        let id_out = wrapping_i32_succ(prev.2);
        let id_in = wrapping_i32_succ(id_out);
        lemma_flat_len_push(
            prev.0,
            s as int,
            Edge {
                target: t as u64,
                weight: r.weight,
                edge_id_a: r.edge_id_a,
                edge_id_b: r.edge_id_b,
                id: id_out,
                dir: true,
            },
        );
        lemma_flat_len_push(
            prev.1,
            t as int,
            Edge {
                target: s as u64,
                weight: r.weight,
                edge_id_a: r.edge_id_b,
                edge_id_b: r.edge_id_a,
                id: id_in,
                dir: true,
            },
        );
    }
}

/// A graph read from a file with levels, its nodes renumbered in level
/// order: node `i` is the `i`-th node of the level order, `levels[i]` its
/// level, and the edges carry the new numbers.
pub struct LevelGraph {
    pub num_nodes: usize,
    pub levels: Vec<u64>,
    pub outgoing: OffsetArray,
    pub incoming: OffsetArray,
}

/// `slice::sort` on pairs. The standard library documents that the slice
/// ends up in ascending order of `Ord`, which for tuples is lexicographic,
/// and a sort only moves the elements.
#[verifier::external_body]
fn sort_pairs(v: &mut Vec<(u64, usize)>)
    ensures
        final(v)@.to_multiset() == old(v)@.to_multiset(),
        sorted_by(final(v)@, pair_leq()),
{
    v.sort();
}

fn parse_level_line(line: &[u8]) -> (r: Option<u64>)
    ensures
        r == level_field(tokens(line@)),
{
    let toks = split_tokens(line);
    if toks.len() < 6 {
        return None;
    }
    proof {
        assert(views(toks@)[5] == toks@[5]@);
    }
    parse_unsigned_exec(toks[5].as_slice(), u64::MAX)
}

fn parse_level_edge_line(line: &[u8]) -> (r: Option<EdgeRecord>)
    ensures
        r == level_edge_field(tokens(line@)),
{
    let toks = split_tokens(line);
    if toks.len() < 7 {
        return None;
    }
    edge_from_tokens(&toks)
}


/// Whether an edge line names a node that does not exist.
pub open spec fn names_missing_node(n: nat, es: Seq<EdgeRecord>) -> bool {
    exists|i: int| 0 <= i < es.len() && ((#[trigger] es[i]).source >= n || es[i].target >= n)
}

/// Reads a graph file with levels and renumbers its nodes in level order,
/// numbering the new edges with `counter`. A file that does not read is
/// refused as malformed; one with an edge line naming a node that does not
/// exist is refused as such. Nothing is numbered when the file is refused.
pub fn parse_graph(text: &[u8], counter: &mut EdgeCounter) -> (r: Result<LevelGraph, FmiError>)
    ensures
        match spec_parse_levels(text@) {
            None => r == Err::<LevelGraph, FmiError>(FmiError::Malformed) && *final(counter) == *old(
                counter,
            ),
            Some((lv, es)) => if names_missing_node(lv.len(), es) {
                r == Err::<LevelGraph, FmiError>(FmiError::NodeOutOfRange) && *final(counter) == *old(
                    counter,
                )
            } else {
                r matches Ok(g) && {
                    let b = build_level_adj(lv.len(), es, renumbering(lv), old(counter).created);
                    &&& g.num_nodes == lv.len()
                    &&& g.levels@ == sorted_levels(lv)
                    &&& forall|i: int, j: int|
                        0 <= i <= j < g.levels@.len() ==> g.levels@[i] <= g.levels@[j]
                    &&& g.outgoing.stores(b.0)
                    &&& g.incoming.stores(b.1)
                    &&& final(counter).created == b.2
                }
            },
        },
{
    let lines = read_lines(text);
    let ghost ls = views(lines@);
    assert(ls == content_lines(text@));
    if lines.len() < 2 {
        return Err(FmiError::Malformed);
    }
    proof {
        assert(ls[0] == lines@[0]@);
        assert(ls[1] == lines@[1]@);
    }
    let num_nodes = match parse_unsigned_exec(lines[0].as_slice(), usize::MAX as u64) {
        Some(v) => v as usize,
        None => {
            return Err(FmiError::Malformed);
        },
    };
    let num_edges = match parse_unsigned_exec(lines[1].as_slice(), usize::MAX as u64) {
        Some(v) => v as usize,
        None => {
            return Err(FmiError::Malformed);
        },
    };
    let nl = lines.len();
    if nl - 2 < num_nodes || nl - 2 - num_nodes < num_edges {
        return Err(FmiError::Malformed);
    }
    let mut levels: Vec<u64> = Vec::new();
    let mut i: usize = 0;
    while i < num_nodes
        invariant
            ls == views(lines@),
            ls == content_lines(text@),
            parse_unsigned(ls[0], usize::MAX as int) == Some(num_nodes as int),
            parse_unsigned(ls[1], usize::MAX as int) == Some(num_edges as int),
            nl == lines@.len(),
            lines@.len() >= 2 + num_nodes + num_edges,
            i <= num_nodes,
            levels@.len() == i,
            forall|j: int| 0 <= j < i ==> level_field(tokens(ls[2 + j])) == Some(#[trigger] levels@[j]),
        decreases num_nodes - i,
    {
        proof {
            assert(ls[2 + i] == lines@[2 + i]@);
        }
        let parsed = parse_level_line(lines[2 + i].as_slice());
        match parsed {
            None => {
                return Err(FmiError::Malformed);
            },
            Some(l) => {
                levels.push(l);
            },
        }
        i = i + 1;
    }
    let mut edges: Vec<EdgeRecord> = Vec::new();
    let mut k: usize = 0;
    while k < num_edges
        invariant
            ls == views(lines@),
            ls == content_lines(text@),
            parse_unsigned(ls[0], usize::MAX as int) == Some(num_nodes as int),
            parse_unsigned(ls[1], usize::MAX as int) == Some(num_edges as int),
            nl == lines@.len(),
            lines@.len() >= 2 + num_nodes + num_edges,
            k <= num_edges,
            edges@.len() == k,
            forall|j: int|
                0 <= j < k ==> level_edge_field(tokens(ls[2 + num_nodes + j])) == Some(
                    #[trigger] edges@[j],
                ),
            levels@.len() == num_nodes,
            forall|j: int| 0 <= j < num_nodes ==> level_field(tokens(ls[2 + j])) == Some(#[trigger] levels@[j]),
        decreases num_edges - k,
    {
        proof {
            assert(ls[2 + num_nodes + k] == lines@[2 + num_nodes + k]@);
        }
        let parsed = parse_level_edge_line(lines[2 + num_nodes + k].as_slice());
        match parsed {
            None => {
                return Err(FmiError::Malformed);
            },
            Some(er) => {
                edges.push(er);
            },
        }
        k = k + 1;
    }
    let ghost lv = levels@;
    let ghost es = edges@;
    proof {
        let nn = num_nodes as int;
        let ne = num_edges as int;
        assert forall|j: int| 0 <= j < nn implies (#[trigger] level_field(tokens(ls[2 + j]))) is Some by {
            assert(level_field(tokens(ls[2 + j])) == Some(levels@[j]));
        }
        assert forall|j: int| 0 <= j < ne implies (#[trigger] level_edge_field(tokens(ls[2 + nn + j]))) is Some by {
            assert(level_edge_field(tokens(ls[2 + nn + j])) == Some(edges@[j]));
        }
        assert(lv =~= Seq::new(nn as nat, |j: int| level_field(tokens(ls[2 + j])).unwrap()));
        assert(es =~= Seq::new(ne as nat, |j: int| level_edge_field(tokens(ls[2 + nn + j])).unwrap()));
        assert(spec_parse_levels(text@) == Some((lv, es)));
    }
    let n = num_nodes;
    let mut q: usize = 0;
    while q < edges.len()
        invariant
            n == lv.len(),
            es == edges@,
            spec_parse_levels(text@) == Some((lv, es)),
            *counter == *old(counter),
            q <= es.len(),
            forall|j: int| 0 <= j < q ==> (#[trigger] es[j]).source < n && es[j].target < n,
        decreases es.len() - q,
    {
        if edges[q].source >= n || edges[q].target >= n {
            proof {
                assert(names_missing_node(lv.len(), es));
            }
            return Err(FmiError::NodeOutOfRange);
        }
        q = q + 1;
    }
    assert(!names_missing_node(lv.len(), es));
    // order the nodes by level, then by number
    let mut order: Vec<(u64, usize)> = Vec::new();
    let mut u: usize = 0;
    while u < n
        invariant
            n == lv.len(),
            lv == levels@,
            u <= n,
            order@ == indexed_levels(lv).take(u as int),
        decreases n - u,
    {
        order.push((levels[u], u));
        u = u + 1;
        proof {
            assert(order@ =~= indexed_levels(lv).take(u as int));
        }
    }
    proof {
        assert(indexed_levels(lv).take(n as int) =~= indexed_levels(lv));
    }
    sort_pairs(&mut order);
    proof {
        lemma_pair_leq_total();
        indexed_levels(lv).lemma_sort_by_ensures(pair_leq());
        vstd::seq_lib::lemma_sorted_unique(order@, level_order(lv), pair_leq());
        lemma_level_order(lv);
    }
    let ghost ord = level_order(lv);
    assert(order@ == ord);
    let mut new_id: Vec<usize> = Vec::new();
    let mut sorted: Vec<u64> = Vec::new();
    let mut v: usize = 0;
    while v < n
        invariant
            n == lv.len(),
            order@ == ord,
            ord == level_order(lv),
            ord.len() == n,
            v <= n,
            new_id@.len() == v,
            forall|j: int| 0 <= j < v ==> #[trigger] new_id@[j] == 0,
            sorted@ == sorted_levels(lv).take(v as int),
        decreases n - v,
    {
        new_id.push(0);
        sorted.push(order[v].0);
        v = v + 1;
        proof {
            assert(sorted@ =~= sorted_levels(lv).take(v as int));
        }
    }
    proof {
        assert(sorted_levels(lv).take(n as int) =~= sorted_levels(lv));
    }
    let mut p: usize = 0;
    while p < n
        invariant
            n == lv.len(),
            order@ == ord,
            ord == level_order(lv),
            ord.len() == n,
            p <= n,
            new_id@.len() == n,
            forall|i: int| 0 <= i < n ==> (#[trigger] ord[i]).1 < n,
            forall|i: int, j: int| 0 <= i < n && 0 <= j < n && i != j ==> (#[trigger] ord[i]).1 != (#[trigger] ord[j]).1,
            forall|i: int| 0 <= i < p ==> new_id@[(#[trigger] ord[i]).1 as int] == i,
        decreases n - p,
    {
        let old_u = order[p].1;
        new_id.set(old_u, p);
        p = p + 1;
    }
    proof {
        assert forall|x: int| 0 <= x < n implies #[trigger] new_id@[x] == renumbering(lv)[x] by {
            let i = new_number(lv, x);
            assert(ord[i].1 == x);
        }
        assert(new_id@ =~= renumbering(lv));
    }
    let ghost num = new_id@;
    // the edge lists, renumbered
    let mut out_adj: Vec<Vec<Edge>> = Vec::new();
    let mut in_adj: Vec<Vec<Edge>> = Vec::new();
    let mut w: usize = 0;
    while w < n
        invariant
            w <= n,
            out_adj@.len() == w,
            in_adj@.len() == w,
            forall|j: int| 0 <= j < w ==> (#[trigger] out_adj@[j])@ == Seq::<Edge>::empty(),
            forall|j: int| 0 <= j < w ==> (#[trigger] in_adj@[j])@ == Seq::<Edge>::empty(),
        decreases n - w,
    {
        out_adj.push(Vec::new());
        in_adj.push(Vec::new());
        w = w + 1;
    }
    let ghost c0 = counter.created;
    proof {
        assert(list_views(out_adj@) =~= build_level_adj(n as nat, es.take(0), num, c0).0);
        assert(list_views(in_adj@) =~= build_level_adj(n as nat, es.take(0), num, c0).1);
    }
    let mut e: usize = 0;
    while e < edges.len()
        invariant
            n == lv.len(),
            es == edges@,
            e <= es.len(),
            num == new_id@,
            num.len() == n,
            forall|x: int| 0 <= x < n ==> #[trigger] num[x] < n,
            forall|j: int| 0 <= j < es.len() ==> (#[trigger] es[j]).source < n && es[j].target < n,
            out_adj@.len() == n,
            in_adj@.len() == n,
            list_views(out_adj@) == build_level_adj(n as nat, es.take(e as int), num, c0).0,
            list_views(in_adj@) == build_level_adj(n as nat, es.take(e as int), num, c0).1,
            counter.created == build_level_adj(n as nat, es.take(e as int), num, c0).2,
        decreases es.len() - e,
    {
        let r = edges[e];
        proof {
            assert(es.take(e as int + 1).drop_last() =~= es.take(e as int));
            assert(es.take(e as int + 1).last() == r);
        }
        let s = new_id[r.source];
        let t = new_id[r.target];
        let out_edge = Edge::new(counter, t as u64, r.weight, r.edge_id_a, r.edge_id_b);
        let in_edge = Edge::new(counter, s as u64, r.weight, r.edge_id_b, r.edge_id_a);
        let ghost a0 = list_views(out_adj@);
        let ghost b0 = list_views(in_adj@);
        out_adj[s].push(out_edge);
        in_adj[t].push(in_edge);
        proof {
            assert(list_views(out_adj@) =~= a0.update(s as int, a0[s as int].push(out_edge)));
            assert(list_views(in_adj@) =~= b0.update(t as int, b0[t as int].push(in_edge)));
        }
        e = e + 1;
    }
    proof {
        assert(es.take(es.len() as int) =~= es);
        lemma_build_level_adj(n as nat, es, num, c0);
        let b = build_level_adj(n as nat, es, num, c0);
        b.0.lemma_flatten_and_flatten_alt_are_equivalent();
        b.1.lemma_flatten_and_flatten_alt_are_equivalent();
        lemma_sorted_levels_ascend(lv);
    }
    let outgoing = create_offset_array(out_adj);
    let incoming = create_offset_array(in_adj);
    Ok(LevelGraph { num_nodes: n, levels: sorted, outgoing, incoming })
}

/// `t` writes, in decimal, a number no greater than `max`.
pub open spec fn writes_at_most(t: Seq<u8>, max: int) -> bool {
    t.len() > 0 && all_digits(t) && digits_value(t) <= max
}

/// An edge line of a graph file with levels, with at least seven fields
/// whose first three write a source and a target that fit in `usize` and a
/// weight that fits in `u64`, is read as those numbers, however large the
/// node numbers are.
pub proof fn lemma_level_edge_reads(toks: Seq<Seq<u8>>, s: int, t: int, w: int)
    requires
        toks.len() >= 7,
        number_text(toks[0], s),
        number_text(toks[1], t),
        number_text(toks[2], w),
        s <= usize::MAX,
        t <= usize::MAX,
        w <= u64::MAX,
    ensures
        level_edge_field(toks) matches Some(r) && r.source == s && r.target == t && r.weight == w,
{
    crate::fmi::lemma_edge_line_reads(toks, s, t, w);
}

/// What an edge line of a graph file with levels says: it has at least
/// seven fields, and the source, the target and the weight are the numbers
/// written in the first three.
pub proof fn lemma_level_edge_fields(toks: Seq<Seq<u8>>)
    ensures
        level_edge_field(toks) matches Some(r) ==> {
            &&& toks.len() >= 7
            &&& number_text(digits_part(toks[0]), r.source as int)
            &&& number_text(digits_part(toks[1]), r.target as int)
            &&& number_text(digits_part(toks[2]), r.weight as int)
        },
{
    crate::fmi::lemma_edge_line_fields(toks);
}

/// The level of a node line is the number written in its sixth field.
pub proof fn lemma_level_field_reads(toks: Seq<Seq<u8>>, l: int)
    ensures
        toks.len() >= 6 && number_text(toks[5], l) && l <= u64::MAX ==> level_field(toks) == Some(l as u64),
        level_field(toks) matches Some(x) ==> toks.len() >= 6 && number_text(digits_part(toks[5]), x as int),
{
    if toks.len() >= 6 {
        lemma_number_reads(toks[5], l, u64::MAX as int);
    }
}

/// A graph file with levels whose lines all read is read: when the first two
/// content lines write the node count and the edge count, every node line
/// writes a level in its sixth field, and every edge line has seven fields
/// or more and writes a source, a target (any that fit in `usize`) and a
/// weight in its first three, the file gives those levels and those edges,
/// in order. So `parse_graph` refuses such a file as malformed never.
pub proof fn lemma_levels_file_reads(text: Seq<u8>, nn: int, ne: int)
    requires
        content_lines(text).len() >= 2 + nn + ne,
        number_text(content_lines(text)[0], nn),
        number_text(content_lines(text)[1], ne),
        nn <= usize::MAX,
        ne <= usize::MAX,
        forall|i: int|
            0 <= i < nn ==> #[trigger] tokens(content_lines(text)[2 + i]).len() >= 6 && writes_at_most(
                tokens(content_lines(text)[2 + i])[5],
                u64::MAX as int,
            ),
        forall|i: int|
            0 <= i < ne ==> {
                let toks = #[trigger] tokens(content_lines(text)[2 + nn + i]);
                &&& toks.len() >= 7
                &&& writes_at_most(toks[0], usize::MAX as int)
                &&& writes_at_most(toks[1], usize::MAX as int)
                &&& writes_at_most(toks[2], u64::MAX as int)
            },
    ensures
        spec_parse_levels(text) matches Some((lv, es)) && {
            &&& lv.len() == nn
            &&& es.len() == ne
            &&& forall|i: int| 0 <= i < nn ==> #[trigger] lv[i] == digits_value(tokens(content_lines(text)[2 + i])[5])
            &&& forall|i: int|
                0 <= i < ne ==> {
                    let toks = tokens(content_lines(text)[2 + nn + i]);
                    &&& (#[trigger] es[i]).source == digits_value(toks[0])
                    &&& es[i].target == digits_value(toks[1])
                    &&& es[i].weight == digits_value(toks[2])
                }
        },
{
    let ls = content_lines(text);
    lemma_number_reads(ls[0], nn, usize::MAX as int);
    lemma_number_reads(ls[1], ne, usize::MAX as int);
    assert forall|i: int| 0 <= i < nn implies (#[trigger] level_field(tokens(ls[2 + i]))) == Some(
        digits_value(tokens(ls[2 + i])[5]) as u64,
    ) by {
        let toks = tokens(ls[2 + i]);
        crate::text::lemma_number_reads(toks[5], digits_value(toks[5]), u64::MAX as int);
        lemma_level_field_reads(toks, digits_value(toks[5]));
    }
    assert forall|i: int| 0 <= i < ne implies (#[trigger] level_edge_field(tokens(ls[2 + nn + i]))) matches Some(r)
        && r.source == digits_value(tokens(ls[2 + nn + i])[0]) && r.target == digits_value(tokens(ls[2 + nn + i])[1])
        && r.weight == digits_value(tokens(ls[2 + nn + i])[2]) by {
        let toks = tokens(ls[2 + nn + i]);
        lemma_number_reads(toks[0], digits_value(toks[0]), usize::MAX as int);
        lemma_number_reads(toks[1], digits_value(toks[1]), usize::MAX as int);
        lemma_number_reads(toks[2], digits_value(toks[2]), u64::MAX as int);
        lemma_level_edge_reads(toks, digits_value(toks[0]), digits_value(toks[1]), digits_value(toks[2]));
    }
    assert(forall|i: int| 0 <= i < nn ==> (#[trigger] level_field(tokens(ls[2 + i]))) is Some);
    assert(forall|i: int| 0 <= i < ne ==> (#[trigger] level_edge_field(tokens(ls[2 + nn + i]))) is Some);
    let (lv, es) = spec_parse_levels(text).unwrap();
    assert forall|i: int| 0 <= i < nn implies #[trigger] lv[i] == digits_value(tokens(ls[2 + i])[5]) by {
        let toks = tokens(ls[2 + i]);
        lemma_number_reads(toks[5], digits_value(toks[5]), u64::MAX as int);
        assert(level_field(toks) == Some(digits_value(toks[5]) as u64));
        assert(lv[i] == level_field(toks).unwrap());
    }
    assert forall|i: int| 0 <= i < ne implies {
        let toks = tokens(ls[2 + nn + i]);
        &&& (#[trigger] es[i]).source == digits_value(toks[0])
        &&& es[i].target == digits_value(toks[1])
        &&& es[i].weight == digits_value(toks[2])
    } by {
        assert(level_edge_field(tokens(ls[2 + nn + i])) is Some);
    }
}

} // verus!
