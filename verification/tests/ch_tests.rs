use ch_routing::{parse_fmi, Dijkstra, EdgeCounter, FmiGraph, Graph, Node, Shortcut, CH};

const EXAMPLE: &str = "5
6
0 100 48.5 9.1 0
1 101 48.6 9.2 0
2 102 48.7 9.3 0
3 103 48.8 9.4 0
4 104 48.9 9.5 0
0 1 4 0 0
1 2 1 0 0
0 2 7 0 0
2 3 3 0 0
3 4 2 0 0
1 3 9 0 0
";

/// A grid of `w` by `h` nodes: two-way edges along the rows, one-way edges
/// down the columns, and edges up the even columns.
fn grid_text(w: usize, h: usize) -> String {
    let mut edges: Vec<(usize, usize, u64)> = Vec::new();
    for y in 0..h {
        for x in 0..w {
            let u = y * w + x;
            if x + 1 < w {
                let weight = ((x * 7 + y * 3) % 9 + 1) as u64;
                edges.push((u, u + 1, weight));
                edges.push((u + 1, u, weight + 1));
            }
            if y + 1 < h {
                edges.push((u, u + w, ((x + 2 * y) % 5 + 2) as u64));
                if x % 2 == 0 {
                    edges.push((u + w, u, ((3 * x + y) % 4 + 3) as u64));
                }
            }
        }
    }
    let mut text = format!("# grid\n{}\n{}\n", w * h, edges.len());
    for i in 0..w * h {
        text.push_str(&format!("{} {} 48.0 9.0 0\n", i, 1000 + i));
    }
    for (s, t, weight) in edges {
        text.push_str(&format!("{} {} {} 0 0\n", s, t, weight));
    }
    text
}

fn nodes_of(fmi: &FmiGraph) -> Vec<Node> {
    fmi.nodes.iter().map(|r| Node::new(r.osm_id, 0, 0, r.level)).collect()
}

fn build(text: &str) -> (Graph, EdgeCounter) {
    let fmi = parse_fmi(text.as_bytes()).ok().unwrap();
    let mut counter = EdgeCounter::new();
    let graph = Graph::from_records(nodes_of(&fmi), &fmi.edges, &mut counter).unwrap();
    (graph, counter)
}

fn preprocessed(text: &str) -> (Graph, EdgeCounter) {
    let (graph, counter) = build(text);
    let mut ch = CH::new(graph, counter);
    ch.ch_preprocess();
    ch.into_parts()
}

/// Runs one query on a hierarchy that has answered no query before.
fn fresh_query(graph: Graph, counter: EdgeCounter, s: usize, t: usize, sod: bool) -> (Option<usize>, Graph, EdgeCounter) {
    let mut ch = CH::new(graph, counter);
    let r = if sod { ch.ch_query(s, t) } else { ch.ch_query_without_sod(s, t) };
    let (graph, counter) = ch.into_parts();
    (r, graph, counter)
}

fn expected(reference: &Graph, s: usize, t: usize) -> Option<usize> {
    let d = Dijkstra::new(reference).dijkstra(s, t);
    if d == usize::MAX { None } else { Some(d) }
}

fn check_all_pairs(text: &str, sod: bool) {
    let (reference, _) = build(text);
    let (mut graph, mut counter) = preprocessed(text);
    let n = reference.num_nodes();
    for s in 0..n {
        for t in 0..n {
            let (r, g, c) = fresh_query(graph, counter, s, t, sod);
            assert_eq!(r, expected(&reference, s, t), "query {} -> {}", s, t);
            graph = g;
            counter = c;
        }
    }
}

#[test]
fn shortcut_new_keeps_fields() {
    let s = Shortcut::new(1, 2, 30, 4, 5);
    assert_eq!((s.from, s.to, s.weight, s.edge_id_a, s.edge_id_b), (1, 2, 30, 4, 5));
}

#[test]
fn new_hierarchy_holds_the_graph() {
    let (graph, counter) = build(EXAMPLE);
    let ch = CH::new(graph, counter);
    assert_eq!(ch.graph().num_nodes(), 5);
    assert_eq!(ch.graph().num_edges(), 6);
    let (g, c) = ch.into_parts();
    assert_eq!(g.num_edges(), 6);
    assert_eq!(c.created, 6);
}

#[test]
fn ch_query_same_node_is_zero() {
    let (graph, counter) = preprocessed(EXAMPLE);
    let mut ch = CH::new(graph, counter);
    assert_eq!(ch.ch_query(3, 3), Some(0));
    assert_eq!(ch.ch_query(0, 0), Some(0));
    assert_eq!(ch.ch_query_without_sod(4, 4), Some(0));
}

#[test]
fn ch_query_example_distances() {
    let (graph, counter) = preprocessed(EXAMPLE);
    let (r, graph, counter) = fresh_query(graph, counter, 0, 4, true);
    assert_eq!(r, Some(10));
    let (r, graph, counter) = fresh_query(graph, counter, 0, 3, true);
    assert_eq!(r, Some(8));
    let (r, _, _) = fresh_query(graph, counter, 4, 0, true);
    assert_eq!(r, None);
}

#[test]
fn ch_query_matches_dijkstra_on_example() {
    check_all_pairs(EXAMPLE, true);
}

#[test]
fn ch_query_without_sod_matches_dijkstra_on_example() {
    check_all_pairs(EXAMPLE, false);
}

#[test]
fn ch_query_matches_dijkstra_on_grid() {
    check_all_pairs(&grid_text(4, 3), true);
}

#[test]
fn ch_query_without_sod_matches_dijkstra_on_grid() {
    check_all_pairs(&grid_text(4, 3), false);
}

#[test]
fn preprocessing_keeps_distances() {
    let text = grid_text(4, 4);
    let (reference, _) = build(&text);
    let (graph, _) = preprocessed(&text);
    let before = Dijkstra::new(&reference);
    let after = Dijkstra::new(&graph);
    for s in 0..16 {
        for t in 0..16 {
            assert_eq!(before.dijkstra(s, t), after.dijkstra(s, t));
        }
    }
}

#[test]
fn preprocessing_only_adds_numbered_shortcuts() {
    let text = grid_text(4, 4);
    let (reference, created) = build(&text);
    let (graph, counter) = preprocessed(&text);
    assert_eq!(graph.num_nodes(), reference.num_nodes());
    assert!(graph.num_edges() >= reference.num_edges());
    let added = graph.num_edges() - reference.num_edges();
    assert!(counter.created as usize >= created.created as usize + added);
    for (_, e) in graph.forward_edge_list() {
        if e.id > created.created {
            assert!(e.edge_id_a.is_some() && e.edge_id_b.is_some());
        }
    }
}

#[test]
fn preprocessing_separates_neighbour_levels() {
    let (graph, _) = preprocessed(&grid_text(4, 4));
    for (u, e) in graph.forward_edge_list() {
        assert_ne!(graph.node_at(u).level, graph.node_at(e.target as usize).level);
    }
}

#[test]
fn cleanup_forgets_the_search() {
    let (graph, counter) = preprocessed(EXAMPLE);
    let mut ch = CH::new(graph, counter);
    assert_eq!(ch.ch_query(0, 0), Some(0));
    ch.cleanup();
    assert_eq!(ch.ch_query(1, 1), Some(0));
    ch.cleanup();
    assert_eq!(ch.graph().num_nodes(), 5);
}

#[test]
fn preprocessing_contracts_the_smallest_edge_difference_first() {
    // two hubs: node 0 with four neighbours, node 5 with three
    let mut text = String::from("9\n14\n");
    for i in 0..9 {
        text.push_str(&format!("{} {} 48.0 9.0 0\n", i, 700 + i));
    }
    for leaf in 1..5 {
        text.push_str(&format!("0 {} 2 0 0\n{} 0 2 0 0\n", leaf, leaf));
    }
    for leaf in 6..9 {
        text.push_str(&format!("5 {} 3 0 0\n{} 5 3 0 0\n", leaf, leaf));
    }
    let (graph, _) = preprocessed(&text);
    // only the hub with the smaller edge difference is contracted in the first round
    assert_eq!(graph.node_at(5).level, 0);
    assert!(graph.node_at(0).level >= 1);
}

#[test]
fn ch_query_with_zero_weights_and_loops() {
    let text = "6
10
0 10 48.0 9.0 0
1 11 48.0 9.0 0
2 12 48.0 9.0 0
3 13 48.0 9.0 0
4 14 48.0 9.0 0
5 15 48.0 9.0 0
0 1 0 0 0
1 2 3 0 0
2 2 1 0 0
2 3 0 0 0
3 1 0 0 0
3 4 2 0 0
4 4 0 0 0
4 5 0 0 0
5 0 4 0 0
1 1 5 0 0
";
    check_all_pairs(text, true);
    check_all_pairs(text, false);
}

const ZERO_AND_LOOPS: &str = "6
10
0 10 48.0 9.0 0
1 11 48.0 9.0 0
2 12 48.0 9.0 0
3 13 48.0 9.0 0
4 14 48.0 9.0 0
5 15 48.0 9.0 0
0 1 0 0 0
1 2 3 0 0
2 2 1 0 0
2 3 0 0 0
3 1 0 0 0
3 4 2 0 0
4 4 0 0 0
4 5 0 0 0
5 0 4 0 0
1 1 5 0 0
";

#[test]
fn preprocessing_separates_levels_with_zero_weights_and_loops() {
    let (graph, _) = preprocessed(ZERO_AND_LOOPS);
    let mut joined = 0;
    for (u, e) in graph.forward_edge_list() {
        if u != e.target as usize {
            assert_ne!(graph.node_at(u).level, graph.node_at(e.target as usize).level);
            joined += 1;
        }
    }
    assert!(joined >= 8);
}

#[test]
fn preprocessing_numbers_levels_by_round() {
    for text in [ZERO_AND_LOOPS.to_string(), grid_text(4, 3), EXAMPLE.to_string()] {
        let (graph, _) = preprocessed(&text);
        let n = graph.num_nodes();
        let top = (0..n).map(|v| graph.node_at(v).level).max().unwrap();
        // every round up to the last contracted some node
        for round in 0..=top {
            assert!((0..n).any(|v| graph.node_at(v).level == round), "round {} is empty", round);
        }
        assert!((top as usize) < n);
    }
}

#[test]
fn preprocessing_keeps_old_edges_no_heavier() {
    let (before, _) = build(ZERO_AND_LOOPS);
    let (after, _) = preprocessed(ZERO_AND_LOOPS);
    assert!(after.num_edges() >= before.num_edges());
    for u in 0..before.num_nodes() {
        let old = before.outgoing_edges(u);
        let new = after.outgoing_edges(u);
        assert!(new.len() >= old.len());
        for (a, b) in old.iter().zip(new.iter()) {
            assert_eq!(a.target, b.target);
            assert!(b.weight <= a.weight);
        }
    }
}

/// The lightest climbing walk from `root` to every node, following forward
/// edges (`forward`) or backward edges, by relaxing until nothing changes.
fn climbing_distances(g: &Graph, root: usize, forward: bool) -> Vec<Option<usize>> {
    let n = g.num_nodes();
    let mut d: Vec<Option<usize>> = vec![None; n];
    d[root] = Some(0);
    loop {
        let mut changed = false;
        for u in 0..n {
            if let Some(du) = d[u] {
                let list = if forward { g.outgoing_edges(u) } else { g.incoming_edges(u) };
                for e in list {
                    let v = e.target as usize;
                    if g.node_at(v).level > g.node_at(u).level {
                        let nd = du + e.weight as usize;
                        if d[v].map_or(true, |x| nd < x) {
                            d[v] = Some(nd);
                            changed = true;
                        }
                    }
                }
            }
        }
        if !changed {
            return d;
        }
    }
}

#[test]
fn ch_query_without_sod_finds_the_lightest_climb_and_descent() {
    // levels chosen by hand, with no preprocessing: the lightest walk 0 -> 4
    // goes down and up again, so the search must settle for a heavier one
    let mut text = String::from("6\n8\n");
    for (i, level) in [2, 0, 5, 1, 3, 4].iter().enumerate() {
        text.push_str(&format!("{} {} 48.0 9.0 0 {}\n", i, 50 + i, level));
    }
    for (s, t, w) in [(0, 1, 1), (1, 4, 1), (0, 2, 5), (2, 4, 6), (0, 3, 0), (3, 5, 2), (5, 4, 9), (2, 1, 1)] {
        text.push_str(&format!("{} {} {} 0 0\n", s, t, w));
    }
    let (graph, counter) = build(&text);
    let n = graph.num_nodes();
    let mut graph = graph;
    let mut counter = counter;
    for s in 0..n {
        for t in 0..n {
            let up = climbing_distances(&graph, s, true);
            let down = climbing_distances(&graph, t, false);
            let least = (0..n).filter_map(|m| match (up[m], down[m]) {
                (Some(a), Some(c)) => Some(a + c),
                _ => None,
            }).min();
            let (r, g, c) = fresh_query(graph, counter, s, t, false);
            assert_eq!(r, least, "query {} -> {}", s, t);
            graph = g;
            counter = c;
        }
    }
    let (r, g, c) = fresh_query(graph, counter, 0, 4, false);
    assert_eq!(r, Some(11));
    let (reference, _) = build(&text);
    assert_eq!(expected(&reference, 0, 4), Some(2));
    let _ = (g, c);
}

#[test]
fn stall_on_demand_can_miss_the_lightest_climb_where_levels_are_no_hierarchy() {
    // node 1 is reached more cheaply down from node 2 than up from node 0,
    // so stall-on-demand prunes it, and with it the only climb to node 3
    let mut text = String::from("5\n5\n");
    for (i, level) in [1, 2, 5, 3, 0].iter().enumerate() {
        text.push_str(&format!("{} {} 48.0 9.0 0 {}\n", i, 80 + i, level));
    }
    for (s, t, w) in [(0, 1, 10), (0, 2, 1), (2, 1, 1), (1, 3, 1), (3, 4, 1)] {
        text.push_str(&format!("{} {} {} 0 0\n", s, t, w));
    }
    let (graph, counter) = build(&text);
    let (with_stall, graph, counter) = fresh_query(graph, counter, 0, 4, true);
    let (without_stall, _, _) = fresh_query(graph, counter, 0, 4, false);
    assert_eq!(with_stall, None);
    assert_eq!(without_stall, Some(12));
}
