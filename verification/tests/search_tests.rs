use std::cmp::Ordering;
use ch_routing::{parse_fmi, BitSet, Dijkstra, Distance, EdgeCounter, FmiGraph, Graph, MinQueue, Node};

const EXAMPLE: &str = "5
6
0 100 48.5 9.1 0
1 101 48.6 9.2 0
2 102 48.7 9.3 0
3 103 48.8 9.4 0
4 104 48.9 9.5 0
0 1 4 0 0
1 2 1 0 0
0 2 7 0 0
2 3 3 0 0
3 4 2 0 0
1 3 9 0 0
";

fn nodes_of(fmi: &FmiGraph) -> Vec<Node> {
    fmi.nodes.iter().map(|r| Node::new(r.osm_id, 0, 0, r.level)).collect()
}

fn build(text: &str) -> Graph {
    let fmi = parse_fmi(text.as_bytes()).ok().unwrap();
    let mut counter = EdgeCounter::new();
    Graph::from_records(nodes_of(&fmi), &fmi.edges, &mut counter).unwrap()
}

#[test]
fn distance_new_keeps_fields() {
    let d = Distance::new(7, 3);
    assert_eq!(d, Distance { weight: 7, id: 3 });
}

#[test]
fn distance_order_puts_lightest_first() {
    assert_eq!(Distance::new(2, 4).partial_cmp(&Distance::new(5, 1)), Some(Ordering::Greater));
    assert_eq!(Distance::new(5, 1).partial_cmp(&Distance::new(2, 4)), Some(Ordering::Less));
    assert_eq!(Distance::new(2, 9).partial_cmp(&Distance::new(2, 4)), Some(Ordering::Greater));
    assert_eq!(Distance::new(2, 4).partial_cmp(&Distance::new(2, 9)), Some(Ordering::Less));
    assert_eq!(Distance::new(3, 3).partial_cmp(&Distance::new(3, 3)), Some(Ordering::Equal));
    assert!(Distance::new(1, 0) > Distance::new(7, 0));
}

#[test]
fn min_queue_pops_lightest_first() {
    let mut q = MinQueue::new();
    assert!(q.is_empty());
    q.push(Distance::new(5, 1));
    q.push(Distance::new(2, 4));
    q.push(Distance::new(2, 9));
    q.push(Distance::new(8, 0));
    assert_eq!(q.len(), 4);
    assert_eq!(q.pop(), Some(Distance::new(2, 9)));
    assert_eq!(q.pop(), Some(Distance::new(2, 4)));
    assert_eq!(q.pop(), Some(Distance::new(5, 1)));
    q.clear();
    assert!(q.is_empty());
    assert_eq!(q.pop(), None);
}

#[test]
fn bitset_sets_and_clears_bits() {
    let mut b = BitSet::new(130);
    assert!(!b.get(0));
    assert!(!b.get(129));
    b.set(129, true);
    b.set(64, true);
    b.set(3, true);
    assert!(b.get(129) && b.get(64) && b.get(3));
    assert!(!b.get(128) && !b.get(65) && !b.get(2));
    b.set(64, false);
    assert!(!b.get(64));
    b.clear(3);
    assert!(!b.get(3));
    assert!(b.get(129));
}

#[test]
fn bitset_capacity_rounds_up() {
    let b = BitSet::new(1);
    assert!(!b.get(63));
}

#[test]
fn dijkstra_finds_shortest_distances() {
    let g = build(EXAMPLE);
    let d = Dijkstra::new(&g);
    assert_eq!(d.dijkstra(0, 0), 0);
    assert_eq!(d.dijkstra(0, 1), 4);
    assert_eq!(d.dijkstra(0, 2), 5);
    assert_eq!(d.dijkstra(0, 3), 8);
    assert_eq!(d.dijkstra(0, 4), 10);
    assert_eq!(d.dijkstra(1, 4), 6);
}

#[test]
fn dijkstra_follows_edge_directions() {
    let g = build(EXAMPLE);
    let d = Dijkstra::new(&g);
    assert_eq!(d.dijkstra(4, 0), usize::MAX);
    assert_eq!(d.dijkstra(3, 1), usize::MAX);
}

#[test]
fn consider_contraction_avoids_contracted_nodes() {
    let g = build(EXAMPLE);
    let mut d = Dijkstra::new(&g);
    let mut contracted = BitSet::new(5);
    contracted.set(2, true);
    assert_eq!(d.shortest_path_consider_contraction(0, 3, &contracted), Some(13));
    assert_eq!(d.shortest_path_consider_contraction(0, 4, &contracted), Some(15));
    assert_eq!(d.shortest_path_consider_contraction(0, 1, &contracted), Some(4));
    assert_eq!(d.shortest_path_consider_contraction(0, 2, &contracted), None);
}

#[test]
fn consider_contraction_restarts_for_new_source() {
    let g = build(EXAMPLE);
    let mut d = Dijkstra::new(&g);
    let mut contracted = BitSet::new(5);
    contracted.set(2, true);
    assert_eq!(d.shortest_path_consider_contraction(0, 4, &contracted), Some(15));
    let free = BitSet::new(5);
    assert_eq!(d.shortest_path_consider_contraction(1, 4, &free), Some(6));
    assert_eq!(d.shortest_path_consider_contraction(1, 0, &free), None);
    assert_eq!(d.shortest_path_consider_contraction(0, 4, &free), Some(10));
    assert_eq!(d.shortest_path_consider_contraction(0, 0, &free), Some(0));
}

#[test]
fn consider_contraction_matches_dijkstra_without_contraction() {
    let g = build(EXAMPLE);
    let plain = Dijkstra::new(&g);
    let mut d = Dijkstra::new(&g);
    let free = BitSet::new(5);
    for s in 0..5 {
        for t in 0..5 {
            let r = d.shortest_path_consider_contraction(s, t, &free);
            let expected = plain.dijkstra(s, t);
            if expected == usize::MAX {
                assert_eq!(r, None);
            } else {
                assert_eq!(r, Some(expected));
            }
        }
    }
}
