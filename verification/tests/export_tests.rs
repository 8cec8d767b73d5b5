use ch_routing::export::export_text;
use ch_routing::{parse_fmi, Edge, EdgeCounter, EdgeRecord, Graph, Node};

fn small_graph() -> Graph {
    let mut counter = EdgeCounter::new();
    let a = Edge::new(&mut counter, 1, 5, Some(7), None);
    let b = Edge::new(&mut counter, 0, 12, None, None);
    let nodes = vec![Node::new(100, 0, 0, 3), Node::new(101, 0, 0, 0)];
    Graph::new(nodes, vec![vec![a, b.reverse(1)], vec![a.reverse(0), b]])
}

fn small_coords() -> Vec<(Vec<u8>, Vec<u8>)> {
    vec![(b"48.5".to_vec(), b"9.25".to_vec()), (b"48.75".to_vec(), b"9".to_vec())]
}

#[test]
fn export_text_writes_the_graph_file_format() {
    let text = export_text(&small_graph(), &small_coords());
    let mut expected = String::new();
    for _ in 0..10 {
        expected.push_str("# \n");
    }
    expected.push_str("2\n2\n0 100 48.5 9.25 0 3\n1 101 48.75 9 0 0\n0 1 5 0 0 7 None\n1 0 12 0 0 None None\n");
    assert_eq!(String::from_utf8(text).unwrap(), expected);
}

#[test]
fn export_text_reads_back() {
    let g = small_graph();
    let text = export_text(&g, &small_coords());
    let back = parse_fmi(&text).ok().unwrap();
    assert_eq!(back.nodes.len(), 2);
    assert_eq!(back.nodes[0].osm_id, 100);
    assert_eq!(back.nodes[0].lat, b"48.5".to_vec());
    assert_eq!(back.nodes[0].lon, b"9.25".to_vec());
    assert_eq!(back.nodes[0].level, 3);
    assert_eq!(back.nodes[1].osm_id, 101);
    assert_eq!(back.nodes[1].lon, b"9".to_vec());
    assert_eq!(back.nodes[1].level, 0);
    assert_eq!(
        back.edges,
        vec![
            EdgeRecord { source: 0, target: 1, weight: 5, edge_id_a: Some(7), edge_id_b: None },
            EdgeRecord { source: 1, target: 0, weight: 12, edge_id_a: None, edge_id_b: None },
        ]
    );
}

#[test]
fn export_text_of_empty_graph() {
    let g = Graph::new(vec![], vec![]);
    let text = export_text(&g, &vec![]);
    let mut expected = String::new();
    for _ in 0..10 {
        expected.push_str("# \n");
    }
    expected.push_str("0\n0\n");
    assert_eq!(String::from_utf8(text).unwrap(), expected);
}

#[test]
fn export_text_writes_large_numbers() {
    let mut counter = EdgeCounter::new();
    let e = Edge::new(&mut counter, 0, u64::MAX, Some(u64::MAX), Some(0));
    let g = Graph::new(vec![Node::new(18446744073709551615, 0, 0, 65535)], vec![vec![e, e.reverse(0)]]);
    let text = String::from_utf8(export_text(&g, &vec![(b"-0.5".to_vec(), b"NaN".to_vec())])).unwrap();
    assert!(text.ends_with(
        "1\n1\n0 18446744073709551615 -0.5 NaN 0 65535\n0 0 18446744073709551615 0 0 18446744073709551615 0\n"
    ));
}

#[test]
fn export_then_read_gives_the_same_graph() {
    let mut counter = EdgeCounter::new();
    let a = Edge::new(&mut counter, 1, 5, Some(7), None);
    let b = Edge::new(&mut counter, 2, 0, None, Some(3));
    let c = Edge::new(&mut counter, 0, 12, None, None);
    let d = Edge::new(&mut counter, 2, 2, Some(1), Some(2));
    let nodes = vec![Node::new(100, 0, 0, 3), Node::new(101, 0, 0, 0), Node::new(102, 0, 0, 1)];
    let g = Graph::new(
        nodes,
        vec![vec![c.reverse(1), a, b], vec![a.reverse(0), c, d], vec![d.reverse(1), b.reverse(0)]],
    );
    let coords = vec![(b"1".to_vec(), b"2".to_vec()); 3];
    let back = parse_fmi(&export_text(&g, &coords)).ok().unwrap();
    let nodes: Vec<Node> = back.nodes.iter().map(|r| Node::new(r.osm_id, 0, 0, r.level)).collect();
    let mut counter2 = EdgeCounter::new();
    let h = Graph::from_records(nodes, &back.edges, &mut counter2).ok().unwrap();
    assert_eq!(h.num_nodes(), g.num_nodes());
    assert_eq!(h.num_edges(), g.num_edges());
    for u in 0..g.num_nodes() {
        assert_eq!(h.node_at(u).osm_id, g.node_at(u).osm_id);
        assert_eq!(h.node_at(u).level, g.node_at(u).level);
        let view = |x: &Graph| -> Vec<(u64, u64, Option<u64>, Option<u64>)> {
            x.outgoing_edges(u).iter().map(|e| (e.target, e.weight, e.edge_id_a, e.edge_id_b)).collect()
        };
        assert_eq!(view(&h), view(&g));
    }
}
