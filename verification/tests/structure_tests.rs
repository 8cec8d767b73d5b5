use ch_routing::components::compute_weakly_connected_components;
use ch_routing::permutation::{permute_nodes, permuting_nodes_randomly};
use ch_routing::working_graph::{Edge as WorkingEdge, WorkingGraph};
use ch_routing::{Dijkstra, EdgeCounter, EdgeRecord, Graph, Node};

fn plain_nodes(n: usize) -> Vec<Node> {
    (0..n).map(|i| Node::new(500 + i as u64, i as u32, 0, 0)).collect()
}

fn graph_of(n: usize, edges: &[(usize, usize, u64)]) -> Graph {
    let records: Vec<EdgeRecord> = edges
        .iter()
        .map(|&(source, target, weight)| EdgeRecord { source, target, weight, edge_id_a: None, edge_id_b: None })
        .collect();
    let mut counter = EdgeCounter::new();
    Graph::from_records(plain_nodes(n), &records, &mut counter).unwrap()
}

fn plain_edge(target: usize, weight: u64) -> WorkingEdge {
    WorkingEdge { target, weight, is_shortcut: false, middle: None }
}

#[test]
fn working_graph_starts_uncontracted() {
    let out = vec![vec![plain_edge(1, 4)], vec![]];
    let inc = vec![vec![], vec![plain_edge(0, 4)]];
    let g = WorkingGraph::new(2, out, inc, vec![3, 7]);
    assert_eq!(g.n, 2);
    assert_eq!(g.contracted, vec![false, false]);
    assert!(!g.is_contracted(0) && !g.is_contracted(1));
    assert_eq!(g.level(0), 3);
    assert_eq!(g.level(1), 7);
    assert_eq!(g.outgoing(0).len(), 1);
    assert_eq!(g.outgoing(0)[0].target, 1);
    assert_eq!(g.incoming(1)[0].target, 0);
    assert!(g.incoming(0).is_empty());
}

#[test]
fn working_graph_contract_and_set_level() {
    let mut g = WorkingGraph::new(3, vec![vec![], vec![], vec![]], vec![vec![], vec![], vec![]], vec![0, 0, 0]);
    g.contract(1);
    g.set_level(2, 9);
    assert_eq!(g.contracted, vec![false, true, false]);
    assert_eq!(g.levels, vec![0, 0, 9]);
    assert!(g.is_contracted(1));
}

#[test]
fn working_graph_add_shortcut_appends_both_ends() {
    let mut g = WorkingGraph::new(3, vec![vec![plain_edge(1, 2)], vec![], vec![]], vec![vec![], vec![], vec![]], vec![0, 0, 0]);
    g.add_shortcut(0, 2, 11, 1);
    assert_eq!(g.outgoing(0).len(), 2);
    let s = &g.outgoing(0)[1];
    assert_eq!((s.target, s.weight, s.is_shortcut, s.middle), (2, 11, true, Some(1)));
    let i = &g.incoming(2)[0];
    assert_eq!((i.target, i.weight, i.is_shortcut, i.middle), (2, 11, true, Some(1)));
    assert!(g.incoming(0).is_empty() && g.outgoing(2).is_empty());
}

#[test]
fn components_of_connected_graph() {
    let g = graph_of(5, &[(0, 1, 4), (1, 2, 1), (0, 2, 7), (2, 3, 3), (3, 4, 2), (1, 3, 9)]);
    assert_eq!(compute_weakly_connected_components(&g), 1);
}

#[test]
fn components_ignore_edge_direction() {
    let g = graph_of(4, &[(1, 0, 1), (1, 2, 1), (3, 2, 1)]);
    assert_eq!(compute_weakly_connected_components(&g), 1);
}

#[test]
fn components_count_isolated_nodes() {
    let g = graph_of(7, &[(0, 1, 4), (2, 1, 1), (5, 6, 2)]);
    assert_eq!(compute_weakly_connected_components(&g), 4);
    let empty = graph_of(0, &[]);
    assert_eq!(compute_weakly_connected_components(&empty), 0);
}

#[test]
fn permute_nodes_renumbers_nodes_and_targets() {
    let g = graph_of(3, &[(0, 1, 5), (1, 2, 6)]);
    let p = permute_nodes(&g, &vec![2, 0, 1]);
    let osm: Vec<u64> = p.nodes.iter().map(|n| n.osm_id).collect();
    assert_eq!(osm, vec![502, 500, 501]);
    let list = |u: usize| -> Vec<(u64, u64, bool)> { p.edges[u].iter().map(|e| (e.target, e.weight, e.dir)).collect() };
    assert_eq!(list(0), vec![(2, 6, false)]);
    assert_eq!(list(1), vec![(2, 5, true)]);
    assert_eq!(list(2), vec![(1, 5, false), (0, 6, true)]);
    assert_eq!(Dijkstra::new(&p).dijkstra(1, 0), 11);
}

#[test]
fn permute_nodes_by_identity_changes_nothing() {
    let g = graph_of(3, &[(0, 1, 5), (1, 2, 6), (2, 0, 1)]);
    let p = permute_nodes(&g, &vec![0, 1, 2]);
    for u in 0..3 {
        let a: Vec<(u64, u64, bool, i32)> = g.edges[u].iter().map(|e| (e.target, e.weight, e.dir, e.id)).collect();
        let b: Vec<(u64, u64, bool, i32)> = p.edges[u].iter().map(|e| (e.target, e.weight, e.dir, e.id)).collect();
        assert_eq!(a, b);
    }
}

#[test]
fn random_permutation_keeps_the_graph() {
    let edges = [(0, 1, 4), (1, 2, 1), (0, 2, 7), (2, 3, 3), (3, 4, 2), (1, 3, 9), (5, 4, 1)];
    let g = graph_of(6, &edges);
    let p = permuting_nodes_randomly(&g);
    assert_eq!(p.num_nodes(), 6);
    assert_eq!(p.num_edges(), g.num_edges());
    assert_eq!(compute_weakly_connected_components(&p), compute_weakly_connected_components(&g));
    // new number of each old node, found by its OSM id
    let mut place = vec![0usize; 6];
    for (i, n) in p.nodes.iter().enumerate() {
        place[(n.osm_id - 500) as usize] = i;
    }
    let before = Dijkstra::new(&g);
    let after = Dijkstra::new(&p);
    for s in 0..6 {
        for t in 0..6 {
            assert_eq!(before.dijkstra(s, t), after.dijkstra(place[s], place[t]));
        }
    }
}

#[test]
fn working_graph_remembers_a_run_of_calls() {
    let mut g = WorkingGraph::new(4, vec![vec![], vec![], vec![], vec![]], vec![vec![], vec![], vec![], vec![]], vec![5, 6, 7, 8]);
    g.contract(2);
    g.set_level(1, 3);
    g.add_shortcut(0, 3, 4, 2);
    g.set_level(1, 9);
    g.contract(0);
    g.set_level(3, 1);
    g.contract(2);
    for v in 0..4 {
        assert_eq!(g.is_contracted(v), v == 0 || v == 2);
    }
    assert_eq!((g.level(0), g.level(1), g.level(2), g.level(3)), (5, 9, 7, 1));
}
