//! The text format of road graphs (`.fmi`) and of query files.
use vstd::prelude::*;
use crate::graph::{forward_count, forward_total, wrapping_i32_succ, Edge, EdgeCounter, Graph, Node};
use crate::contraction::{lemma_push_pair, no_loops, positive, pushed_pair};
use crate::paths::{in_arc, none_blocked, out_arc, paired};
use crate::text::{
    all_digits, digits_part, lemma_number_reads, number_text,
    check_utf8, content_lines, is_utf8, lines_of, parse_unsigned, parse_unsigned_exec, read_lines, split_lines,
    space_suffix, split_tokens, token_fold, tokens, views,
};

verus! {

/// A node line of a graph file. The coordinates are kept as their text.
pub struct NodeRecord {
    pub osm_id: u64,
    pub lat: Vec<u8>,
    pub lon: Vec<u8>,
    pub level: u16,
}

impl NodeRecord {
    pub open spec fn view(&self) -> (u64, Seq<u8>, Seq<u8>, u16) {
        (self.osm_id, self.lat@, self.lon@, self.level)
    }
}

/// An edge line of a graph file.
#[derive(Clone, Copy, Debug, PartialEq, Eq)]
pub struct EdgeRecord {
    pub source: usize,
    pub target: usize,
    pub weight: u64,
    pub edge_id_a: Option<u64>,
    pub edge_id_b: Option<u64>,
}

/// The content of a graph file.
pub struct FmiGraph {
    pub nodes: Vec<NodeRecord>,
    pub edges: Vec<EdgeRecord>,
}

#[derive(Debug, Clone, Copy, PartialEq, Eq)]
pub enum FmiError {
    /// A line or a field is missing, or a number does not read.
    Malformed,
    /// An edge names a node that does not exist.
    NodeOutOfRange,
}

pub open spec fn as_u64(x: Option<int>) -> Option<u64> {
    match x {
        Some(v) => Some(v as u64),
        None => None,
    }
}

/// A node line, `<ID> <OSMID> <Lat> <Lon> <Height> <Level>`: the OSM id from
/// the second field, the coordinates from the third and the fourth, and the
/// level from the sixth field when there is one (0 otherwise).
pub open spec fn node_line(toks: Seq<Seq<u8>>) -> Option<(u64, Seq<u8>, Seq<u8>, u16)> {
    if toks.len() < 4 {
        None
    } else {
        match parse_unsigned(toks[1], u64::MAX as int) {
            None => None,
            Some(osm) => if toks.len() >= 6 {
                match parse_unsigned(toks[5], u16::MAX as int) {
                    None => None,
                    Some(l) => Some((osm as u64, toks[2], toks[3], l as u16)),
                }
            } else {
                Some((osm as u64, toks[2], toks[3], 0u16))
            },
        }
    }
}

/// An edge line: source, target and weight, and the ids of the two edges
/// that a shortcut stands for in the sixth and seventh fields, where they read.
pub open spec fn edge_line(toks: Seq<Seq<u8>>) -> Option<EdgeRecord> {
    if toks.len() < 3 {
        None
    } else {
        match (
            parse_unsigned(toks[0], usize::MAX as int),
            parse_unsigned(toks[1], usize::MAX as int),
            parse_unsigned(toks[2], u64::MAX as int),
        ) {
            (Some(s), Some(t), Some(w)) => Some(
                EdgeRecord {
                    source: s as usize,
                    target: t as usize,
                    weight: w as u64,
                    edge_id_a: if toks.len() > 5 {
                        as_u64(parse_unsigned(toks[5], u64::MAX as int))
                    } else {
                        None
                    },
                    edge_id_b: if toks.len() > 6 {
                        as_u64(parse_unsigned(toks[6], u64::MAX as int))
                    } else {
                        None
                    },
                },
            ),
            _ => None,
        }
    }
}

/// A graph file: the node count and the edge count on the first two content
/// lines, then that many node lines and edge lines. Lines after them are ignored.
pub open spec fn spec_parse_fmi(text: Seq<u8>) -> Option<
    (Seq<(u64, Seq<u8>, Seq<u8>, u16)>, Seq<EdgeRecord>),
> {
    let ls = content_lines(text);
    if ls.len() < 2 {
        None
    } else {
        match (parse_unsigned(ls[0], usize::MAX as int), parse_unsigned(ls[1], usize::MAX as int)) {
            (Some(nn), Some(ne)) => if ls.len() >= 2 + nn + ne && (forall|i: int|
                0 <= i < nn ==> (#[trigger] node_line(tokens(ls[2 + i]))) is Some) && (forall|i: int|
                0 <= i < ne ==> (#[trigger] edge_line(tokens(ls[2 + nn + i]))) is Some) {
                Some(
                    (
                        Seq::new(nn as nat, |i: int| node_line(tokens(ls[2 + i])).unwrap()),
                        Seq::new(ne as nat, |i: int| edge_line(tokens(ls[2 + nn + i])).unwrap()),
                    ),
                )
            } else {
                None
            },
            _ => None,
        }
    }
}

fn parse_node_line(line: &[u8]) -> (r: Option<NodeRecord>)
    ensures
        match node_line(tokens(line@)) {
            Some(v) => r matches Some(x) && x@ == v,
            None => r is None,
        },
{
    let toks = split_tokens(line);
    let ghost t = views(toks@);
    if toks.len() < 4 {
        return None;
    }
    proof {
        assert(t[1] == toks@[1]@);
        assert(t[2] == toks@[2]@);
        assert(t[3] == toks@[3]@);
    }
    let osm = match parse_unsigned_exec(toks[1].as_slice(), u64::MAX) {
        Some(v) => v,
        None => {
            return None;
        },
    };
    let level: u16 = if toks.len() >= 6 {
        proof {
            assert(t[5] == toks@[5]@);
        }
        match parse_unsigned_exec(toks[5].as_slice(), u16::MAX as u64) {
            Some(v) => v as u16,
            None => {
                return None;
            },
        }
    } else {
        0
    };
    Some(NodeRecord { osm_id: osm, lat: toks[2].clone(), lon: toks[3].clone(), level })
}

fn parse_optional_id(toks: &Vec<Vec<u8>>, k: usize) -> (r: Option<u64>)
    ensures
        r == (if toks@.len() > k {
            as_u64(parse_unsigned(toks@[k as int]@, u64::MAX as int))
        } else {
            None
        }),
{
    if toks.len() > k {
        parse_unsigned_exec(toks[k].as_slice(), u64::MAX)
    } else {
        None
    }
}

fn parse_edge_line(line: &[u8]) -> (r: Option<EdgeRecord>)
    ensures
        r == edge_line(tokens(line@)),
{
    let toks = split_tokens(line);
    edge_from_tokens(&toks)
}

/// Reads an edge line given as its tokens.
pub(crate) fn edge_from_tokens(toks: &Vec<Vec<u8>>) -> (r: Option<EdgeRecord>)
    ensures
        r == edge_line(views(toks@)),
{
    let ghost t = views(toks@);
    if toks.len() < 3 {
        return None;
    }
    proof {
        assert(t[0] == toks@[0]@);
        assert(t[1] == toks@[1]@);
        assert(t[2] == toks@[2]@);
        if toks@.len() > 5 {
            assert(t[5] == toks@[5]@);
        }
        if toks@.len() > 6 {
            assert(t[6] == toks@[6]@);
        }
    }
    let s = parse_unsigned_exec(toks[0].as_slice(), usize::MAX as u64);
    let tg = parse_unsigned_exec(toks[1].as_slice(), usize::MAX as u64);
    let w = parse_unsigned_exec(toks[2].as_slice(), u64::MAX);
    match (s, tg, w) {
        (Some(s), Some(tg), Some(w)) => {
            let a = parse_optional_id(toks, 5);
            let b = parse_optional_id(toks, 6);
            Some(
                EdgeRecord {
                    source: s as usize,
                    target: tg as usize,
                    weight: w,
                    edge_id_a: a,
                    edge_id_b: b,
                },
            )
        },
        _ => None,
    }
}

/// Reads a graph file.
pub fn parse_fmi(text: &[u8]) -> (r: Result<FmiGraph, FmiError>)
    ensures
        match spec_parse_fmi(text@) {
            Some((ns, es)) => r matches Ok(g) && g.edges@ == es && g.nodes@.len() == ns.len() && forall|i: int|
                0 <= i < ns.len() ==> (#[trigger] g.nodes@[i])@ == ns[i],
            None => r == Err::<FmiGraph, FmiError>(FmiError::Malformed),
        },
{
    let lines = read_lines(text);
    let ghost ls = views(lines@);
    assert(ls == content_lines(text@));
    if lines.len() < 2 {
        return Err(FmiError::Malformed);
    }
    proof {
        assert(ls[0] == lines@[0]@);
        assert(ls[1] == lines@[1]@);
    }
    let num_nodes = match parse_unsigned_exec(lines[0].as_slice(), usize::MAX as u64) {
        Some(v) => v as usize,
        None => {
            return Err(FmiError::Malformed);
        },
    };
    let num_edges = match parse_unsigned_exec(lines[1].as_slice(), usize::MAX as u64) {
        Some(v) => v as usize,
        None => {
            return Err(FmiError::Malformed);
        },
    };
    let nl = lines.len();
    if nl - 2 < num_nodes || nl - 2 - num_nodes < num_edges {
        return Err(FmiError::Malformed);
    }
    let mut nodes: Vec<NodeRecord> = Vec::new();
    let mut i: usize = 0;
    while i < num_nodes
        invariant
            ls == views(lines@),
            ls == content_lines(text@),
            parse_unsigned(ls[0], usize::MAX as int) == Some(num_nodes as int),
            parse_unsigned(ls[1], usize::MAX as int) == Some(num_edges as int),
            nl == lines@.len(),
            lines@.len() >= 2 + num_nodes + num_edges,
            i <= num_nodes,
            nodes@.len() == i,
            forall|j: int| 0 <= j < i ==> node_line(tokens(ls[2 + j])) == Some((#[trigger] nodes@[j])@),
        decreases num_nodes - i,
    {
        proof {
            assert(ls[2 + i] == lines@[2 + i]@);
        }
        let parsed = parse_node_line(lines[2 + i].as_slice());
        if parsed.is_none() {
            proof {
                assert(node_line(tokens(ls[2 + i as int])) is None);
            }
            return Err(FmiError::Malformed);
        }
        let nr = parsed.unwrap();
        proof {
            assert(node_line(tokens(ls[2 + i as int])) is Some);
            assert(nr@ == node_line(tokens(ls[2 + i as int])).unwrap());
        }
        let ghost old_nodes = nodes@;
        nodes.push(nr);
        proof {
            assert forall|j: int| 0 <= j < i + 1 implies node_line(tokens(ls[2 + j])) == Some(
            (#[trigger] nodes@[j])@) by {
                if j < i {
                    assert(nodes@[j] == old_nodes[j]);
                }
            }
        }
        i = i + 1;
    }
    let mut edges: Vec<EdgeRecord> = Vec::new();
    let mut k: usize = 0;
    while k < num_edges
        invariant
            ls == views(lines@),
            ls == content_lines(text@),
            parse_unsigned(ls[0], usize::MAX as int) == Some(num_nodes as int),
            parse_unsigned(ls[1], usize::MAX as int) == Some(num_edges as int),
            nl == lines@.len(),
            lines@.len() >= 2 + num_nodes + num_edges,
            k <= num_edges,
            edges@.len() == k,
            forall|j: int| 0 <= j < k ==> edge_line(tokens(ls[2 + num_nodes + j])) == Some(#[trigger] edges@[j]),
            nodes@.len() == num_nodes,
            forall|j: int| 0 <= j < num_nodes ==> node_line(tokens(ls[2 + j])) == Some((#[trigger] nodes@[j])@),
        decreases num_edges - k,
    {
        proof {
            assert(ls[2 + num_nodes + k] == lines@[2 + num_nodes + k]@);
        }
        let parsed = parse_edge_line(lines[2 + num_nodes + k].as_slice());
        if parsed.is_none() {
            proof {
                assert(edge_line(tokens(ls[2 + num_nodes + k as int])) is None);
            }
            return Err(FmiError::Malformed);
        }
        let er = parsed.unwrap();
        let ghost old_edges = edges@;
        edges.push(er);
        proof {
            assert forall|j: int| 0 <= j < k + 1 implies edge_line(tokens(ls[2 + num_nodes + j])) == Some(
                #[trigger] edges@[j]) by {
                if j < k {
                    assert(edges@[j] == old_edges[j]);
                }
            }
        }
        k = k + 1;
    }
    proof {
        let nn = num_nodes as int;
        let ne = num_edges as int;
        assert forall|j: int| 0 <= j < nn implies (#[trigger] node_line(tokens(ls[2 + j]))) is Some by {
            assert(node_line(tokens(ls[2 + j])) == Some(nodes@[j]@));
        }
        assert forall|j: int| 0 <= j < ne implies (#[trigger] edge_line(tokens(ls[2 + nn + j]))) is Some by {
            assert(edge_line(tokens(ls[2 + nn + j])) == Some(edges@[j]));
        }
        assert forall|j: int| 0 <= j < nn implies (#[trigger] nodes@[j])@ == node_line(tokens(ls[2 + j])).unwrap() by {
        }
        assert(edges@ =~= Seq::new(ne as nat, |j: int| edge_line(tokens(ls[2 + nn + j])).unwrap()));
    }
    Ok(FmiGraph { nodes, edges })
}

/// The edge lists built from the edge lines, starting with `n` empty lists:
/// each line adds its forward edge (numbered by the counter) at its source
/// and the backward copy at its target.
pub open spec fn build_adj(n: nat, es: Seq<EdgeRecord>, created: i32) -> (Seq<Seq<Edge>>, i32)
    decreases es.len(),
{
    if es.len() == 0 {
        (Seq::new(n, |i: int| Seq::<Edge>::empty()), created)
    } else {
        let prev = build_adj(n, es.drop_last(), created);
        let r = es.last();
        let id = wrapping_i32_succ(prev.1);
        let e = Edge {
            target: r.target as u64,
            weight: r.weight,
            edge_id_a: r.edge_id_a,
            edge_id_b: r.edge_id_b,
            id,
            dir: true,
        };
        let a1 = prev.0.update(r.source as int, prev.0[r.source as int].push(e));
        (a1.update(r.target as int, a1[r.target as int].push(e.reverse_spec(r.source as u64))), id)
    }
}

pub proof fn lemma_build_adj(n: nat, es: Seq<EdgeRecord>, created: i32)
    requires
        forall|i: int| 0 <= i < es.len() ==> (#[trigger] es[i]).source < n && es[i].target < n,
    ensures
        build_adj(n, es, created).0.len() == n,
        forall|u: int, i: int|
            0 <= u < n && 0 <= i < build_adj(n, es, created).0[u].len() ==> (#[trigger] build_adj(
                n,
                es,
                created,
            ).0[u][i]).target < n,
    decreases es.len(),
{
    if es.len() > 0 {
        lemma_build_adj(n, es.drop_last(), created);
        assert(es.last() == es[es.len() - 1]);
    }
}

/// The lists built from edge lines are paired; they weigh more than nothing
/// when every line does, and never point back to their own node when no line
/// joins a node to itself.
proof fn lemma_build_adj_paired(n: nat, es: Seq<EdgeRecord>, created: i32)
    requires
        n <= usize::MAX,
        forall|i: int| 0 <= i < es.len() ==> (#[trigger] es[i]).source < n && es[i].target < n,
    ensures
        paired(build_adj(n, es, created).0),
        (forall|i: int| 0 <= i < es.len() ==> (#[trigger] es[i]).weight > 0) ==> positive(build_adj(n, es, created).0),
        (forall|i: int| 0 <= i < es.len() ==> (#[trigger] es[i]).source != es[i].target) ==> no_loops(build_adj(n, es, created).0),
    decreases es.len(),
{
    lemma_build_adj(n, es, created);
    if es.len() == 0 {
        let a = build_adj(n, es, created).0;
        assert forall|u: int, v: int, w: int| #[trigger] out_arc(a, none_blocked(), u, v, w) implies exists|w2: int|
            w2 <= w && #[trigger] in_arc(a, v, u, w2) by {
        }
        assert forall|u: int, v: int, w: int| #[trigger] in_arc(a, u, v, w) implies exists|w2: int|
            w2 <= w && #[trigger] out_arc(a, none_blocked(), v, u, w2) by {
        }
    } else {
        let e0 = es.drop_last();
        assert forall|i: int| 0 <= i < e0.len() implies (#[trigger] e0[i]).source < n && e0[i].target < n by {
            assert(e0[i] == es[i]);
        }
        lemma_build_adj_paired(n, e0, created);
        lemma_build_adj(n, e0, created);
        let prev = build_adj(n, e0, created);
        let r = es.last();
        assert(r == es[es.len() - 1]);
        let id = wrapping_i32_succ(prev.1);
        let e = Edge {
            target: r.target as u64,
            weight: r.weight,
            edge_id_a: r.edge_id_a,
            edge_id_b: r.edge_id_b,
            id,
            dir: true,
        };
        assert(build_adj(n, es, created).0 == pushed_pair(prev.0, r.source as int, e));
        lemma_push_pair(prev.0, r.source as int, e);
        if forall|i: int| 0 <= i < es.len() ==> (#[trigger] es[i]).weight > 0 {
            assert forall|i: int| 0 <= i < e0.len() implies (#[trigger] e0[i]).weight > 0 by {
                assert(e0[i] == es[i]);
            }
        }
        if forall|i: int| 0 <= i < es.len() ==> (#[trigger] es[i]).source != es[i].target {
            assert forall|i: int| 0 <= i < e0.len() implies (#[trigger] e0[i]).source != e0[i].target by {
                assert(e0[i] == es[i]);
            }
        }
    }
}

impl Graph {
    /// Builds the graph of `nodes` and the edge lines `edges`, numbering the
    /// new edges with `counter`. An edge line naming a node that does not
    /// exist is refused, and nothing is numbered then.
    pub fn from_records(nodes: Vec<Node>, edges: &Vec<EdgeRecord>, counter: &mut EdgeCounter) -> (r: Result<
        Graph,
        FmiError,
    >)
        ensures
            (exists|i: int|
                0 <= i < edges@.len() && ((#[trigger] edges@[i]).source >= nodes@.len() || edges@[i].target
                    >= nodes@.len())) ==> r == Err::<Graph, FmiError>(FmiError::NodeOutOfRange) && *final(counter)
                == *old(counter),
            r matches Ok(g) ==> g.well_formed() && g.nodes@ == nodes@ && g.adj() == build_adj(
                nodes@.len(),
                edges@,
                old(counter).created,
            ).0 && final(counter).created == build_adj(nodes@.len(), edges@, old(counter).created).1,
            (forall|i: int|
                0 <= i < edges@.len() ==> (#[trigger] edges@[i]).source < nodes@.len() && edges@[i].target
                    < nodes@.len()) ==> r is Ok,
            r matches Ok(g) ==> paired(g.adj()),
            (forall|i: int| 0 <= i < edges@.len() ==> (#[trigger] edges@[i]).weight > 0) ==> (r matches Ok(g) ==> positive(g.adj())),
            (forall|i: int| 0 <= i < edges@.len() ==> (#[trigger] edges@[i]).source != edges@[i].target)
                ==> (r matches Ok(g) ==> no_loops(g.adj())),
    {
        let n = nodes.len();
        let mut i: usize = 0;
        while i < edges.len()
            invariant
                n == nodes@.len(),
                i <= edges@.len(),
                forall|j: int| 0 <= j < i ==> (#[trigger] edges@[j]).source < n && edges@[j].target < n,
            decreases edges@.len() - i,
        {
            if edges[i].source >= n || edges[i].target >= n {
                return Err(FmiError::NodeOutOfRange);
            }
            i = i + 1;
        }
        let mut adj: Vec<Vec<Edge>> = Vec::new();
        let mut u: usize = 0;
        while u < n
            invariant
                u <= n,
                adj@.len() == u,
                forall|j: int| 0 <= j < u ==> (#[trigger] adj@[j])@ == Seq::<Edge>::empty(),
            decreases n - u,
        {
            adj.push(Vec::new());
            u = u + 1;
        }
        let ghost c0 = counter.created;
        proof {
            assert(adj@.map_values(|l: Vec<Edge>| l@) =~= build_adj(n as nat, edges@.take(0), c0).0);
        }
        let mut k: usize = 0;
        while k < edges.len()
            invariant
                n == nodes@.len(),
                k <= edges@.len(),
                adj@.len() == n,
                forall|j: int| 0 <= j < edges@.len() ==> (#[trigger] edges@[j]).source < n && edges@[j].target < n,
                adj@.map_values(|l: Vec<Edge>| l@) == build_adj(n as nat, edges@.take(k as int), c0).0,
                counter.created == build_adj(n as nat, edges@.take(k as int), c0).1,
            decreases edges@.len() - k,
        {
            let r = edges[k];
            proof {
                assert(edges@.take(k as int + 1).drop_last() =~= edges@.take(k as int));
                assert(edges@.take(k as int + 1).last() == r);
            }
            let e = Edge::new(counter, r.target as u64, r.weight, r.edge_id_a, r.edge_id_b);
            let rev = e.reverse(r.source as u64);
            let ghost a0 = adj@.map_values(|l: Vec<Edge>| l@);
            adj[r.source].push(e);
            let ghost a1 = adj@.map_values(|l: Vec<Edge>| l@);
            assert(a1 =~= a0.update(r.source as int, a0[r.source as int].push(e)));
            adj[r.target].push(rev);
            proof {
                assert(adj@.map_values(|l: Vec<Edge>| l@) =~= a1.update(r.target as int, a1[r.target as int].push(rev)));
            }
            k = k + 1;
        }
        proof {
            assert(edges@.take(edges@.len() as int) =~= edges@);
            lemma_build_adj(n as nat, edges@, c0);
            lemma_build_adj_paired(n as nat, edges@, c0);
        }
        let g = Graph { nodes, edges: adj };
        proof {
            let a = g.adj();
            assert forall|uu: int, ii: int|
                0 <= uu < g.edges@.len() && 0 <= ii < g.edges@[uu]@.len() implies (#[trigger] g.edges@[uu]@[ii]).target
                < g.nodes@.len() by {
                assert(a[uu] == g.edges@[uu]@);
            }
        }
        Ok(g)
    }
}

/// A query line: a source and a target, the first two fields of a line that
/// is neither blank nor a comment; a line whose first two fields do not both
/// read as numbers, or that has fewer than two, gives no query.
pub open spec fn query_line(toks: Seq<Seq<u8>>) -> Option<(usize, usize)> {
    if toks.len() < 2 || toks[0][0] == 35u8 {
        None
    } else {
        match (parse_unsigned(toks[0], usize::MAX as int), parse_unsigned(toks[1], usize::MAX as int)) {
            (Some(s), Some(t)) => Some((s as usize, t as usize)),
            _ => None,
        }
    }
}

/// The queries of the lines of `ls`, in order.
pub open spec fn queries_of(ls: Seq<Seq<u8>>) -> Seq<(usize, usize)>
    decreases ls.len(),
{
    if ls.len() == 0 {
        seq![]
    } else {
        queries_of(ls.drop_last()) + match query_line(tokens(ls.last())) {
            Some(q) => seq![q],
            None => seq![],
        }
    }
}

/// The number of lines at the start of `ls` that are well-formed UTF-8.
pub open spec fn utf8_lines(ls: Seq<Seq<u8>>) -> int
    decreases ls.len(),
{
    if ls.len() == 0 {
        0
    } else if is_utf8(ls[0]) {
        1 + utf8_lines(ls.drop_first())
    } else {
        0
    }
}

proof fn lemma_utf8_lines(ls: Seq<Seq<u8>>, i: int)
    requires
        0 <= i <= ls.len(),
        forall|j: int| 0 <= j < i ==> is_utf8(#[trigger] ls[j]),
        i == ls.len() || !is_utf8(ls[i]),
    ensures
        utf8_lines(ls) == i,
    decreases i,
{
    if i > 0 {
        let d = ls.drop_first();
        assert(is_utf8(ls[0]));
        assert forall|j: int| 0 <= j < i - 1 implies is_utf8(#[trigger] d[j]) by {
            assert(d[j] == ls[j + 1]);
        }
        if i < ls.len() {
            assert(d[i - 1] == ls[i]);
        }
        lemma_utf8_lines(d, i - 1);
    }
}

/// Reads a query file: one `source target` pair per line. Reading stops at
/// the first line that is not well-formed UTF-8.
pub fn parse_queries(text: &[u8]) -> (r: Vec<(usize, usize)>)
    ensures
        r@ == queries_of(lines_of(text@).take(utf8_lines(lines_of(text@)))),
{
    let lines = split_lines(text);
    let ghost ls = views(lines@);
    let mut r: Vec<(usize, usize)> = Vec::new();
    let mut i: usize = 0;
    while i < lines.len()
        invariant_except_break
            r@ == queries_of(ls.take(i as int)),
        invariant
            ls == views(lines@),
            ls == lines_of(text@),
            i <= lines@.len(),
            forall|j: int| 0 <= j < i ==> is_utf8(#[trigger] ls[j]),
        ensures
            r@ == queries_of(ls.take(i as int)),
            i == ls.len() || !is_utf8(ls[i as int]),
        decreases lines@.len() - i,
    {
        if !check_utf8(lines[i].as_slice()) {
            proof {
                assert(ls[i as int] == lines@[i as int]@);
            }
            break;
        }
        proof {
            assert(ls[i as int] == lines@[i as int]@);
        }
        proof {
            assert(ls.take(i as int + 1).drop_last() =~= ls.take(i as int));
            assert(ls.take(i as int + 1).last() == lines@[i as int]@);
        }
        let toks = split_tokens(lines[i].as_slice());
        let ghost t = views(toks@);
        proof {
            lemma_tokens_nonempty(lines@[i as int]@);
            if toks@.len() > 0 {
                assert(t[0] == toks@[0]@);
            }
        }
        if toks.len() >= 2 && toks[0][0] != 35u8 {
            proof {
                assert(t[0] == toks@[0]@);
                assert(t[1] == toks@[1]@);
            }
            let s = parse_unsigned_exec(toks[0].as_slice(), usize::MAX as u64);
            let t2 = parse_unsigned_exec(toks[1].as_slice(), usize::MAX as u64);
            match (s, t2) {
                (Some(s), Some(t2)) => {
                    r.push((s as usize, t2 as usize));
                },
                _ => {},
            }
        } else {
            proof {
                if toks@.len() >= 2 {
                    assert(t[0] == toks@[0]@);
                }
            }
        }
        proof {
            assert(r@ =~= queries_of(ls.take(i as int + 1)));
        }
        i = i + 1;
    }
    proof {
        lemma_utf8_lines(ls, i as int);
    }
    r
}

/// An input line: exactly two fields, which must read as numbers.
pub open spec fn pair_line(toks: Seq<Seq<u8>>) -> Option<Option<(usize, usize)>> {
    if toks.len() != 2 {
        Some(None)
    } else {
        match (parse_unsigned(toks[0], usize::MAX as int), parse_unsigned(toks[1], usize::MAX as int)) {
            (Some(s), Some(t)) => Some(Some((s as usize, t as usize))),
            _ => None,
        }
    }
}

/// The pairs of the lines of `ls`, or `None` when a line of two fields does not read.
pub open spec fn pairs_of(ls: Seq<Seq<u8>>) -> Option<Seq<(usize, usize)>>
    decreases ls.len(),
{
    if ls.len() == 0 {
        Some(seq![])
    } else {
        match (pairs_of(ls.drop_last()), pair_line(tokens(ls.last()))) {
            (Some(prev), Some(Some(p))) => Some(prev.push(p)),
            (Some(prev), Some(None)) => Some(prev),
            _ => None,
        }
    }
}

/// Reads a file of `source target` pairs: lines with other than two fields
/// are skipped, and a line of two fields that are not both numbers is refused.
pub fn parse_input_pairs(text: &[u8]) -> (r: Result<Vec<(usize, usize)>, FmiError>)
    ensures
        match pairs_of(lines_of(text@)) {
            Some(ps) => r matches Ok(v) && v@ == ps,
            None => r == Err::<Vec<(usize, usize)>, FmiError>(FmiError::Malformed),
        },
{
    let lines = split_lines(text);
    let ghost ls = views(lines@);
    let mut r: Vec<(usize, usize)> = Vec::new();
    let mut i: usize = 0;
    while i < lines.len()
        invariant
            ls == views(lines@),
            ls == lines_of(text@),
            i <= lines@.len(),
            pairs_of(ls.take(i as int)) == Some(r@),
        decreases lines@.len() - i,
    {
        proof {
            assert(ls.take(i as int + 1).drop_last() =~= ls.take(i as int));
            assert(ls.take(i as int + 1).last() == lines@[i as int]@);
        }
        let toks = split_tokens(lines[i].as_slice());
        let ghost t = views(toks@);
        if toks.len() == 2 {
            proof {
                assert(t[0] == toks@[0]@);
                assert(t[1] == toks@[1]@);
            }
            let s = parse_unsigned_exec(toks[0].as_slice(), usize::MAX as u64);
            let t2 = parse_unsigned_exec(toks[1].as_slice(), usize::MAX as u64);
            match (s, t2) {
                (Some(s), Some(t2)) => {
                    r.push((s as usize, t2 as usize));
                },
                _ => {
                    proof {
                        lemma_pairs_none_stays(ls, i as int + 1);
                    }
                    return Err(FmiError::Malformed);
                },
            }
        }
        i = i + 1;
    }
    proof {
        assert(ls.take(ls.len() as int) =~= ls);
    }
    Ok(r)
}

proof fn lemma_pairs_none_stays(ls: Seq<Seq<u8>>, k: int)
    requires
        0 < k <= ls.len(),
        pairs_of(ls.take(k)) is None,
    ensures
        pairs_of(ls) is None,
    decreases ls.len() - k,
{
    if k < ls.len() {
        assert(ls.take(k + 1).drop_last() =~= ls.take(k));
        lemma_pairs_none_stays(ls, k + 1);
    } else {
        assert(ls.take(k) =~= ls);
    }
}

proof fn lemma_tokens_nonempty(t: Seq<u8>)
    ensures
        forall|i: int| 0 <= i < tokens(t).len() ==> (#[trigger] tokens(t)[i]).len() > 0,
{
    lemma_token_fold_nonempty(t);
    let f = token_fold(t);
    if f.1.len() > 0 {
        assert forall|i: int| 0 <= i < tokens(t).len() implies (#[trigger] tokens(t)[i]).len() > 0 by {
            if i < f.0.len() {
                assert(tokens(t)[i] == f.0[i]);
            }
        }
    }
}

proof fn lemma_token_fold_nonempty(t: Seq<u8>)
    ensures
        forall|i: int| 0 <= i < token_fold(t).0.len() ==> (#[trigger] token_fold(t).0[i]).len() > 0,
    decreases t.len(),
{
    if t.len() > 0 {
        let p = if space_suffix(t) > 0 { t.take(t.len() - space_suffix(t)) } else { t.drop_last() };
        lemma_token_fold_nonempty(p);
        let prev = token_fold(p);
        let f = token_fold(t);
        assert forall|i: int| 0 <= i < f.0.len() implies (#[trigger] f.0[i]).len() > 0 by {
            if i < prev.0.len() {
                assert(f.0[i] == prev.0[i]);
            }
        }
    }
}

impl Graph {
    /// Every forward edge with the node it leaves, by node and then in stored order.
    pub fn forward_edge_list(&self) -> (r: Vec<(usize, Edge)>)
        ensures
            r@ == forward_pairs(self.adj(), self.adj().len() as int),
            r@.len() == self.spec_num_edges(),
    {
        proof {
            lemma_forward_pairs_len(self.adj(), self.adj().len() as int);
        }
        let mut r: Vec<(usize, Edge)> = Vec::new();
        let mut u: usize = 0;
        while u < self.edges.len()
            invariant
                u <= self.edges@.len(),
                r@ == forward_pairs(self.adj(), u as int),
            decreases self.edges@.len() - u,
        {
            let len = self.edges[u].len();
            let mut i: usize = 0;
            let ghost base = r@;
            proof {
                assert(self.adj()[u as int] == self.edges@[u as int]@);
            }
            while i < len
                invariant
                    u < self.edges@.len(),
                    len == self.adj()[u as int].len(),
                    i <= len,
                    r@ == base + forward_from(u as int, self.adj()[u as int].take(i as int)),
                decreases len - i,
            {
                let e = self.edges[u][i];
                proof {
                    let l = self.adj()[u as int];
                    assert(l.take(i as int + 1).drop_last() =~= l.take(i as int));
                    assert(l.take(i as int + 1).last() == e);
                }
                if e.dir {
                    r.push((u, e));
                }
                proof {
                    assert(r@ =~= base + forward_from(u as int, self.adj()[u as int].take(i as int + 1)));
                }
                i = i + 1;
            }
            proof {
                assert(self.adj()[u as int].take(len as int) =~= self.adj()[u as int]);
            }
            u = u + 1;
        }
        r
    }
}

/// The forward edges of `list`, each paired with `u`.
pub open spec fn forward_from(u: int, list: Seq<Edge>) -> Seq<(usize, Edge)>
    decreases list.len(),
{
    if list.len() == 0 {
        seq![]
    } else {
        forward_from(u, list.drop_last()) + if list.last().dir {
            seq![(u as usize, list.last())]
        } else {
            seq![]
        }
    }
}

proof fn lemma_forward_from_len(u: int, list: Seq<Edge>)
    ensures
        forward_from(u, list).len() == forward_count(list),
    decreases list.len(),
{
    reveal_with_fuel(Seq::<_>::filter, 1);
    if list.len() > 0 {
        lemma_forward_from_len(u, list.drop_last());
    }
}

/// There are as many listed pairs as forward edges.
pub proof fn lemma_forward_pairs_len(adj: Seq<Seq<Edge>>, k: int)
    ensures
        forward_pairs(adj, k).len() == forward_total(adj, k),
    decreases k,
{
    if k > 0 {
        lemma_forward_pairs_len(adj, k - 1);
        lemma_forward_from_len(k - 1, adj[k - 1]);
    }
}

/// The forward edges of the first `k` nodes, each paired with its node.
pub open spec fn forward_pairs(adj: Seq<Seq<Edge>>, k: int) -> Seq<(usize, Edge)>
    decreases k,
{
    if k <= 0 {
        seq![]
    } else {
        forward_pairs(adj, k - 1) + forward_from(k - 1, adj[k - 1])
    }
}

/// What a node line says: the OSM id written in its second field, the texts
/// of its third and fourth fields as coordinates, and the level written in
/// its sixth field, or level 0 when the line has no sixth field, whatever
/// its fifth field (the height) holds.
pub proof fn lemma_node_line_fields(toks: Seq<Seq<u8>>)
    ensures
        node_line(toks) matches Some(r) ==> {
            &&& toks.len() >= 4
            &&& number_text(digits_part(toks[1]), r.0 as int)
            &&& r.1 == toks[2]
            &&& r.2 == toks[3]
            &&& toks.len() < 6 ==> r.3 == 0
            &&& toks.len() >= 6 ==> number_text(digits_part(toks[5]), r.3 as int)
        },
{
    if toks.len() >= 4 {
        lemma_number_reads(toks[1], 0, u64::MAX as int);
        if toks.len() >= 6 {
            lemma_number_reads(toks[5], 0, u16::MAX as int);
        }
    }
}

/// A node line with an OSM id and, when it has a sixth field, a level written
/// in decimal is read: its level is the one written there, or 0 without a
/// sixth field.
pub proof fn lemma_node_line_reads(toks: Seq<Seq<u8>>, osm: int, level: int)
    requires
        toks.len() >= 4,
        number_text(toks[1], osm),
        osm <= u64::MAX,
        toks.len() >= 6 ==> number_text(toks[5], level) && level <= u16::MAX,
        toks.len() < 6 ==> level == 0,
    ensures
        node_line(toks) == Some((osm as u64, toks[2], toks[3], level as u16)),
{
    lemma_number_reads(toks[1], osm, u64::MAX as int);
    if toks.len() >= 6 {
        lemma_number_reads(toks[5], level, u16::MAX as int);
    }
}

/// What `parse_fmi` gives for each node: the OSM id and the level written on
/// its line, and level 0 for a line without a sixth field.
pub proof fn lemma_fmi_node_levels(text: Seq<u8>)
    ensures
        spec_parse_fmi(text) matches Some((ns, es)) ==> forall|i: int|
            0 <= i < ns.len() ==> {
                let toks = tokens(content_lines(text)[2 + i]);
                &&& number_text(digits_part(toks[1]), (#[trigger] ns[i]).0 as int)
                &&& toks.len() < 6 ==> ns[i].3 == 0
                &&& toks.len() >= 6 ==> number_text(digits_part(toks[5]), ns[i].3 as int)
            },
{
    if spec_parse_fmi(text) is Some {
        let (ns, es) = spec_parse_fmi(text).unwrap();
        let ls = content_lines(text);
        let nn = parse_unsigned(ls[0], usize::MAX as int).unwrap();
        let ne = parse_unsigned(ls[1], usize::MAX as int).unwrap();
        lemma_number_reads(ls[0], 0, usize::MAX as int);
        assert(ns == Seq::new(nn as nat, |i: int| node_line(tokens(ls[2 + i])).unwrap()));
        assert(ls.len() >= 2 + nn + ne && forall|i: int| 0 <= i < nn ==> (#[trigger] node_line(tokens(ls[2 + i]))) is Some);
        assert forall|i: int| 0 <= i < ns.len() implies {
            let toks = tokens(content_lines(text)[2 + i]);
            &&& number_text(digits_part(toks[1]), (#[trigger] ns[i]).0 as int)
            &&& toks.len() < 6 ==> ns[i].3 == 0
            &&& toks.len() >= 6 ==> number_text(digits_part(toks[5]), ns[i].3 as int)
        } by {
            assert(node_line(tokens(ls[2 + i])) is Some);
            assert(ns[i] == node_line(tokens(ls[2 + i])).unwrap());
            lemma_node_line_fields(tokens(ls[2 + i]));
        }
    }
}

/// An edge line whose first three fields write a source and a target that
/// fit in `usize` and a weight that fits in `u64` is read as those numbers,
/// however large the node numbers are.
pub proof fn lemma_edge_line_reads(toks: Seq<Seq<u8>>, s: int, t: int, w: int)
    requires
        toks.len() >= 3,
        number_text(toks[0], s),
        number_text(toks[1], t),
        number_text(toks[2], w),
        s <= usize::MAX,
        t <= usize::MAX,
        w <= u64::MAX,
    ensures
        edge_line(toks) matches Some(r) && r.source == s && r.target == t && r.weight == w,
{
    lemma_number_reads(toks[0], s, usize::MAX as int);
    lemma_number_reads(toks[1], t, usize::MAX as int);
    lemma_number_reads(toks[2], w, u64::MAX as int);
}

/// What an edge line says: the source, the target and the weight written in
/// its first three fields.
pub proof fn lemma_edge_line_fields(toks: Seq<Seq<u8>>)
    ensures
        edge_line(toks) matches Some(r) ==> {
            &&& toks.len() >= 3
            &&& number_text(digits_part(toks[0]), r.source as int)
            &&& number_text(digits_part(toks[1]), r.target as int)
            &&& number_text(digits_part(toks[2]), r.weight as int)
        },
{
    if toks.len() >= 3 {
        lemma_number_reads(toks[0], 0, usize::MAX as int);
        lemma_number_reads(toks[1], 0, usize::MAX as int);
        lemma_number_reads(toks[2], 0, u64::MAX as int);
    }
}

/// A line whose first two fields write numbers that fit in `usize` asks the
/// query from the first to the second, however large they are.
pub proof fn lemma_query_line_reads(toks: Seq<Seq<u8>>, s: int, t: int)
    requires
        toks.len() >= 2,
        number_text(toks[0], s),
        number_text(toks[1], t),
        s <= usize::MAX,
        t <= usize::MAX,
    ensures
        query_line(toks) == Some((s as usize, t as usize)),
{
    assert(crate::text::is_digit(toks[0][0]));
    lemma_number_reads(toks[0], s, usize::MAX as int);
    lemma_number_reads(toks[1], t, usize::MAX as int);
}

/// A query that a line asks is the pair of numbers written in its first two fields.
pub proof fn lemma_query_line_fields(toks: Seq<Seq<u8>>)
    ensures
        query_line(toks) matches Some(q) ==> {
            &&& toks.len() >= 2
            &&& number_text(digits_part(toks[0]), q.0 as int)
            &&& number_text(digits_part(toks[1]), q.1 as int)
        },
{
    if toks.len() >= 2 {
        lemma_number_reads(toks[0], 0, usize::MAX as int);
        lemma_number_reads(toks[1], 0, usize::MAX as int);
    }
}

/// One more line that writes two numbers fitting in `usize` in its first two
/// fields adds that query, and only it, after the queries of the lines before.
pub proof fn lemma_queries_push(ls: Seq<Seq<u8>>, l: Seq<u8>, s: int, t: int)
    requires
        tokens(l).len() >= 2,
        number_text(tokens(l)[0], s),
        number_text(tokens(l)[1], t),
        s <= usize::MAX,
        t <= usize::MAX,
    ensures
        queries_of(ls.push(l)) == queries_of(ls).push((s as usize, t as usize)),
{
    lemma_query_line_reads(tokens(l), s, t);
    assert(ls.push(l).drop_last() =~= ls);
    assert(ls.push(l).last() == l);
    assert(queries_of(ls).push((s as usize, t as usize)) =~= queries_of(ls) + seq![(s as usize, t as usize)]);
}

/// A line with fewer than two fields, or whose first field starts with `#`
/// (a comment), asks no query: the queries are those of the lines before.
pub proof fn lemma_queries_skip(ls: Seq<Seq<u8>>, l: Seq<u8>)
    requires
        tokens(l).len() < 2 || tokens(l)[0][0] == 35u8,
    ensures
        queries_of(ls.push(l)) == queries_of(ls),
{
    assert(ls.push(l).drop_last() =~= ls);
    assert(ls.push(l).last() == l);
    assert(queries_of(ls) + Seq::<(usize, usize)>::empty() =~= queries_of(ls));
}

} // verus!
