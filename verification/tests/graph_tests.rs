use ch_routing::{parse_fmi, Edge, EdgeCounter, EdgeRecord, FmiError, FmiGraph, Graph, Node};

const EXAMPLE: &str = "# a small road graph
#
5
6
0 100 48.5 9.1 0
1 101 48.6 9.2 0
2 102 48.7 9.3 0
3 103 48.8 9.4 0
4 104 48.9 9.5 0
0 1 4 0 0
1 2 1 0 0
0 2 7 0 0
2 3 3 0 0
3 4 2 0 0
1 3 9 0 0
";

fn coordinate(field: &[u8]) -> u32 {
    let value: f32 = std::str::from_utf8(field).unwrap().parse().unwrap();
    value.to_bits()
}

fn nodes_of(fmi: &FmiGraph) -> Vec<Node> {
    fmi.nodes
        .iter()
        .map(|r| Node::new(r.osm_id, coordinate(&r.lat), coordinate(&r.lon), r.level))
        .collect()
}

fn build(text: &str) -> (Graph, EdgeCounter) {
    let fmi = parse_fmi(text.as_bytes()).ok().unwrap();
    let mut counter = EdgeCounter::new();
    let graph = Graph::from_records(nodes_of(&fmi), &fmi.edges, &mut counter).unwrap();
    (graph, counter)
}

fn summary(e: &Edge) -> (u64, u64, Option<u64>, Option<u64>, i32, bool) {
    (e.target, e.weight, e.edge_id_a, e.edge_id_b, e.id, e.dir)
}

fn plain_nodes(n: usize) -> Vec<Node> {
    (0..n).map(|i| Node::new(i as u64, 0, 0, 0)).collect()
}

fn record(source: usize, target: usize, weight: u64) -> EdgeRecord {
    EdgeRecord { source, target, weight, edge_id_a: None, edge_id_b: None }
}

#[test]
fn node_new_keeps_fields() {
    let n = Node::new(42, 7, 9, 3);
    assert_eq!(n.osm_id, 42);
    assert_eq!(n.lat, 7);
    assert_eq!(n.lon, 9);
    assert_eq!(n.level, 3);
}

#[test]
fn node_set_level_changes_only_level() {
    let mut n = Node::new(42, 7, 9, 3);
    n.set_level(11);
    assert_eq!(n.level, 11);
    assert_eq!(n.osm_id, 42);
    assert_eq!(n.lat, 7);
    assert_eq!(n.lon, 9);
}

#[test]
fn edge_ids_count_creations() {
    let mut counter = EdgeCounter::new();
    assert_eq!(counter.get_creation_count(), 0);
    let a = Edge::new(&mut counter, 3, 10, None, None);
    let b = Edge::new(&mut counter, 4, 20, Some(1), Some(2));
    assert_eq!(a.id, 1);
    assert_eq!(b.id, 2);
    assert!(a.dir && b.dir);
    assert_eq!(summary(&b), (4, 20, Some(1), Some(2), 2, true));
    assert_eq!(counter.get_creation_count(), 2);
}

#[test]
fn edge_counter_wraps_around() {
    let mut counter = EdgeCounter { created: i32::MAX };
    let e = Edge::new(&mut counter, 0, 1, None, None);
    assert_eq!(e.id, i32::MIN);
    assert_eq!(counter.created, i32::MIN);
}

#[test]
fn edge_reverse_points_back() {
    let mut counter = EdgeCounter::new();
    let e = Edge::new(&mut counter, 3, 10, Some(5), None);
    let r = e.reverse(8);
    assert_eq!(summary(&r), (8, 10, Some(5), None, 1, false));
    assert_eq!(summary(&e), (3, 10, Some(5), None, 1, true));
}

#[test]
fn graph_new_and_counts() {
    let mut counter = EdgeCounter::new();
    let e = Edge::new(&mut counter, 1, 5, None, None);
    let edges = vec![vec![e], vec![e.reverse(0)]];
    let g = Graph::new(plain_nodes(2), edges);
    assert_eq!(g.num_nodes(), 2);
    assert_eq!(g.num_edges(), 1);
    assert_eq!(g.node_at(1).osm_id, 1);
}

#[test]
fn from_records_stores_both_copies() {
    let (g, counter) = build(EXAMPLE);
    assert_eq!(g.num_nodes(), 5);
    assert_eq!(g.num_edges(), 6);
    assert_eq!(counter.get_creation_count(), 6);
    let list0: Vec<_> = g.edges[0].iter().map(summary).collect();
    assert_eq!(list0, vec![(1, 4, None, None, 1, true), (2, 7, None, None, 3, true)]);
    let list1: Vec<_> = g.edges[1].iter().map(summary).collect();
    assert_eq!(
        list1,
        vec![(0, 4, None, None, 1, false), (2, 1, None, None, 2, true), (3, 9, None, None, 6, true)]
    );
    let list4: Vec<_> = g.edges[4].iter().map(summary).collect();
    assert_eq!(list4, vec![(3, 2, None, None, 5, false)]);
}

#[test]
fn from_records_keeps_node_fields() {
    let (g, _) = build(EXAMPLE);
    let n = g.node_at(2);
    assert_eq!(n.osm_id, 102);
    assert_eq!(n.lat, 48.7f32.to_bits());
    assert_eq!(n.lon, 9.3f32.to_bits());
    assert_eq!(n.level, 0);
}

#[test]
fn from_records_refuses_missing_node() {
    let mut counter = EdgeCounter { created: 17 };
    let edges = vec![record(0, 1, 3), record(1, 2, 4)];
    let r = Graph::from_records(plain_nodes(2), &edges, &mut counter);
    assert!(matches!(r, Err(FmiError::NodeOutOfRange)));
    assert_eq!(counter.created, 17);
}

#[test]
fn from_records_numbers_from_counter() {
    let mut counter = EdgeCounter { created: 100 };
    let edges = vec![record(0, 1, 3), record(1, 0, 4)];
    let g = Graph::from_records(plain_nodes(2), &edges, &mut counter).unwrap();
    assert_eq!(counter.created, 102);
    assert_eq!(g.edges[0][0].id, 101);
    assert_eq!(g.edges[0][1].id, 102);
    assert!(!g.edges[0][1].dir);
}

#[test]
fn add_edge_lowers_existing_weight() {
    let (mut g, mut counter) = build(EXAMPLE);
    let e = Edge::new(&mut counter, 1, 2, Some(8), Some(9));
    g.add_edge(0, e);
    assert_eq!(g.num_edges(), 6);
    assert_eq!(summary(&g.edges[0][0]), (1, 2, None, None, 1, true));
    assert_eq!(summary(&g.edges[1][0]), (0, 2, None, None, 1, false));
}

#[test]
fn add_edge_keeps_lighter_weight() {
    let (mut g, mut counter) = build(EXAMPLE);
    let e = Edge::new(&mut counter, 1, 50, None, None);
    g.add_edge(0, e);
    assert_eq!(g.edges[0][0].weight, 4);
    assert_eq!(g.edges[1][0].weight, 4);
    assert_eq!(g.edges[0].len(), 2);
}

#[test]
fn add_edge_appends_new_edge() {
    let (mut g, mut counter) = build(EXAMPLE);
    let e = Edge::new(&mut counter, 4, 30, Some(1), Some(2));
    g.add_edge(0, e);
    assert_eq!(g.num_edges(), 7);
    assert_eq!(summary(g.edges[0].last().unwrap()), (4, 30, Some(1), Some(2), 7, true));
    assert_eq!(summary(g.edges[4].last().unwrap()), (0, 30, Some(1), Some(2), 7, false));
}

#[test]
fn outgoing_and_incoming_filter_by_direction() {
    let (g, _) = build(EXAMPLE);
    let out: Vec<u64> = g.outgoing_edges(1).iter().map(|e| e.target).collect();
    let inc: Vec<u64> = g.incoming_edges(1).iter().map(|e| e.target).collect();
    assert_eq!(out, vec![2, 3]);
    assert_eq!(inc, vec![0]);
    assert!(g.outgoing_edges(4).is_empty());
}

#[test]
fn node_at_mut_sets_level() {
    let (mut g, _) = build(EXAMPLE);
    g.node_at_mut(3).set_level(9);
    assert_eq!(g.node_at(3).level, 9);
    assert_eq!(g.node_at(2).level, 0);
}

#[test]
fn forward_edge_list_lists_each_edge_once() {
    let (g, _) = build(EXAMPLE);
    let list: Vec<(usize, u64, u64)> =
        g.forward_edge_list().iter().map(|(u, e)| (*u, e.target, e.weight)).collect();
    assert_eq!(list, vec![(0, 1, 4), (0, 2, 7), (1, 2, 1), (1, 3, 9), (2, 3, 3), (3, 4, 2)]);
    assert_eq!(list.len(), g.num_edges());
}

/// The weights of the edges stored at `u` in direction `dir` that point to `v`, in order.
fn slot_weights(g: &Graph, u: usize, dir: bool, v: usize) -> Vec<u64> {
    g.edges[u].iter().filter(|e| e.dir == dir && e.target as usize == v).map(|e| e.weight).collect()
}

fn assert_mirrored(g: &Graph) {
    let n = g.num_nodes();
    for u in 0..n {
        for v in 0..n {
            assert_eq!(slot_weights(g, u, true, v), slot_weights(g, v, false, u), "{} -> {}", u, v);
        }
    }
}

#[test]
fn add_edge_keeps_the_graph_mirrored() {
    let (mut g, mut counter) = build(EXAMPLE);
    assert_mirrored(&g);
    for (s, t, w) in [(0, 1, 2), (0, 4, 30), (0, 4, 10), (2, 2, 5), (2, 2, 1), (4, 0, 3)] {
        let e = Edge::new(&mut counter, t, w, None, None);
        g.add_edge(s, e);
        assert_mirrored(&g);
    }
    assert_eq!(slot_weights(&g, 0, true, 4), vec![10]);
    assert_eq!(slot_weights(&g, 2, false, 2), vec![1]);
}
