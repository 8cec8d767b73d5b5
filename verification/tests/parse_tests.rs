use ch_routing::level_graph::{create_offset_array, parse_graph, LevelGraph};
use ch_routing::text::{parse_unsigned_exec, read_lines, split_lines, split_tokens};
use ch_routing::{parse_fmi, parse_input_pairs, parse_queries, Edge, EdgeCounter, EdgeRecord, FmiError};

fn bytes(lines: &[Vec<u8>]) -> Vec<String> {
    lines.iter().map(|l| String::from_utf8(l.clone()).unwrap()).collect()
}

fn summary(e: &Edge) -> (u64, u64, Option<u64>, Option<u64>, i32, bool) {
    (e.target, e.weight, e.edge_id_a, e.edge_id_b, e.id, e.dir)
}

#[test]
fn parse_unsigned_reads_decimal_numbers() {
    assert_eq!(parse_unsigned_exec(b"0", 10), Some(0));
    assert_eq!(parse_unsigned_exec(b"007", 10), Some(7));
    assert_eq!(parse_unsigned_exec(b"+5", 10), Some(5));
    assert_eq!(parse_unsigned_exec(b"18446744073709551615", u64::MAX), Some(u64::MAX));
}

#[test]
fn parse_unsigned_refuses_other_text() {
    assert_eq!(parse_unsigned_exec(b"", 10), None);
    assert_eq!(parse_unsigned_exec(b"+", 10), None);
    assert_eq!(parse_unsigned_exec(b"-1", 10), None);
    assert_eq!(parse_unsigned_exec(b"1a", 10), None);
    assert_eq!(parse_unsigned_exec(b" 1", 10), None);
    assert_eq!(parse_unsigned_exec(b"11", 10), None);
    assert_eq!(parse_unsigned_exec(b"18446744073709551616", u64::MAX), None);
}

#[test]
fn split_lines_strips_line_ends() {
    let lines = split_lines(b"a\r\nb\n\nc");
    assert_eq!(bytes(&lines), vec!["a", "b", "", "c"]);
    assert_eq!(bytes(&split_lines(b"x\n")), vec!["x"]);
    assert!(split_lines(b"").is_empty());
}

#[test]
fn split_tokens_splits_on_whitespace() {
    let toks = split_tokens(b"  12\t3  abc \r");
    assert_eq!(bytes(&toks), vec!["12", "3", "abc"]);
    assert!(split_tokens(b" \t ").is_empty());
}

#[test]
fn read_lines_drops_blank_and_comment_lines() {
    let lines = read_lines(b"# head\n\n1\n#x\n 2\n3\n");
    assert_eq!(bytes(&lines), vec!["1", " 2", "3"]);
}

#[test]
fn parse_fmi_reads_nodes_and_edges() {
    let text = b"# comment\r\n\r\n2\r\n1\r\n0 7 48.1 9.5 0 3\r\n1 8 48.2 9.6\r\n0 1 12 0 0 5 6\r\n";
    let g = parse_fmi(text).ok().unwrap();
    assert_eq!(g.nodes.len(), 2);
    assert_eq!(g.nodes[0].osm_id, 7);
    assert_eq!(g.nodes[0].lat, b"48.1".to_vec());
    assert_eq!(g.nodes[0].lon, b"9.5".to_vec());
    assert_eq!(g.nodes[0].level, 3);
    assert_eq!(g.nodes[1].osm_id, 8);
    assert_eq!(g.nodes[1].level, 0);
    assert_eq!(
        g.edges,
        vec![EdgeRecord { source: 0, target: 1, weight: 12, edge_id_a: Some(5), edge_id_b: Some(6) }]
    );
}

#[test]
fn parse_fmi_reads_missing_shortcut_ids_as_none() {
    let text = b"2\n2\n0 1 0 0\n1 2 0 0\n0 1 3 0 0 None None\n1 0 4 0 0 9\n";
    let g = parse_fmi(text).ok().unwrap();
    assert_eq!(g.edges[0].edge_id_a, None);
    assert_eq!(g.edges[0].edge_id_b, None);
    assert_eq!(g.edges[1].edge_id_a, Some(9));
    assert_eq!(g.edges[1].edge_id_b, None);
}

#[test]
fn parse_fmi_ignores_trailing_lines() {
    let text = b"1\n0\n0 5 1 2\nwhatever comes here\n";
    let g = parse_fmi(text).ok().unwrap();
    assert_eq!(g.nodes.len(), 1);
    assert!(g.edges.is_empty());
}

#[test]
fn parse_fmi_refuses_malformed_files() {
    assert!(matches!(parse_fmi(b""), Err(FmiError::Malformed)));
    assert!(matches!(parse_fmi(b"2\n"), Err(FmiError::Malformed)));
    assert!(matches!(parse_fmi(b"x\n0\n"), Err(FmiError::Malformed)));
    assert!(matches!(parse_fmi(b"2\n0\n1 0 0\n"), Err(FmiError::Malformed)));
    assert!(matches!(parse_fmi(b"1\n0\n1 0\n"), Err(FmiError::Malformed)));
    assert!(matches!(parse_fmi(b"1\n1\n1 0 0\n0 0 x\n"), Err(FmiError::Malformed)));
    assert!(matches!(parse_fmi(b"1\n0\n1 0 0 0 0 high\n"), Err(FmiError::Malformed)));
    assert!(matches!(parse_fmi(b"1 \n0\n1 0 0\n"), Err(FmiError::Malformed)));
    assert!(matches!(parse_fmi(b"1\n0\n5 1 2\n"), Err(FmiError::Malformed)));
    assert!(matches!(parse_fmi(b"1\n0\n0 x 1 2\n"), Err(FmiError::Malformed)));
}

#[test]
fn parse_queries_reads_pairs() {
    let text = b"# queries\n0 4\n\n  3 1 extra\nbad line\n7\n#9 9\n2 x\n5 6\r\n";
    assert_eq!(parse_queries(text), vec![(0, 4), (3, 1), (5, 6)]);
    assert!(parse_queries(b"").is_empty());
}

#[test]
fn parse_input_pairs_reads_two_field_lines() {
    let text = b"0 4\n1 2 3\n\n9\n5 6\n";
    assert_eq!(parse_input_pairs(text), Ok(vec![(0, 4), (5, 6)]));
}

#[test]
fn parse_input_pairs_refuses_non_numbers() {
    assert_eq!(parse_input_pairs(b"0 4\n1 x\n"), Err(FmiError::Malformed));
    assert_eq!(parse_input_pairs(b"-1 4\n"), Err(FmiError::Malformed));
}

#[test]
fn create_offset_array_lays_lists_out() {
    let mut counter = EdgeCounter::new();
    let a = Edge::new(&mut counter, 1, 5, None, None);
    let b = Edge::new(&mut counter, 2, 6, None, None);
    let c = Edge::new(&mut counter, 0, 7, None, None);
    let arr = create_offset_array(vec![vec![a, b], vec![], vec![c]]);
    assert_eq!(arr.offsets, vec![0, 2, 2, 3]);
    let ids: Vec<i32> = arr.edges.iter().map(|e| e.id).collect();
    assert_eq!(ids, vec![1, 2, 3]);
    let empty = create_offset_array(vec![]);
    assert_eq!(empty.offsets, vec![0]);
    assert!(empty.edges.is_empty());
}

const LEVELS: &[u8] = b"# levels
3
2
0 10 48.0 9.0 0 2
1 11 48.1 9.1 0 0
2 12 48.2 9.2 0 1
0 1 5 0 0 -1 -1
1 2 3 0 0 7 8
";

fn level_graph(text: &[u8], counter: &mut EdgeCounter) -> LevelGraph {
    match parse_graph(text, counter) {
        Ok(g) => g,
        Err(e) => panic!("unexpected error {:?}", e),
    }
}

#[test]
fn parse_graph_renumbers_by_level() {
    let mut counter = EdgeCounter::new();
    let g = level_graph(LEVELS, &mut counter);
    assert_eq!(g.num_nodes, 3);
    assert_eq!(g.levels, vec![0, 1, 2]);
    assert_eq!(counter.created, 4);
    assert_eq!(g.outgoing.offsets, vec![0, 1, 1, 2]);
    let out: Vec<_> = g.outgoing.edges.iter().map(summary).collect();
    assert_eq!(out, vec![(1, 3, Some(7), Some(8), 3, true), (0, 5, None, None, 1, true)]);
    assert_eq!(g.incoming.offsets, vec![0, 1, 2, 2]);
    let inc: Vec<_> = g.incoming.edges.iter().map(summary).collect();
    assert_eq!(inc, vec![(2, 5, None, None, 2, true), (0, 3, Some(8), Some(7), 4, true)]);
}

#[test]
fn parse_graph_keeps_order_of_equal_levels() {
    let text = b"3\n1\n0 0 0 0 0 4\n1 0 0 0 0 4\n2 0 0 0 0 1\n0 1 2 0 0 0 0\n";
    let mut counter = EdgeCounter::new();
    let g = level_graph(text, &mut counter);
    assert_eq!(g.levels, vec![1, 4, 4]);
    assert_eq!(g.outgoing.offsets, vec![0, 0, 1, 1]);
    assert_eq!(g.outgoing.edges[0].target, 2);
    assert_eq!(g.incoming.offsets, vec![0, 0, 0, 1]);
    assert_eq!(g.incoming.edges[0].target, 1);
}

#[test]
fn parse_graph_refuses_missing_level() {
    let text = b"1\n0\n0 10 48.0 9.0 0\n";
    let mut counter = EdgeCounter { created: 5 };
    assert!(matches!(parse_graph(text, &mut counter), Err(FmiError::Malformed)));
    assert_eq!(counter.created, 5);
}

#[test]
fn parse_graph_refuses_short_edge_line() {
    let text = b"2\n1\n0 1 2 3 4 0\n1 1 2 3 4 0\n0 1 5 0 0\n";
    let mut counter = EdgeCounter::new();
    assert!(matches!(parse_graph(text, &mut counter), Err(FmiError::Malformed)));
}

#[test]
fn parse_graph_refuses_missing_node() {
    let text = b"2\n1\n0 1 2 3 4 0\n1 1 2 3 4 0\n0 2 5 0 0 1 1\n";
    let mut counter = EdgeCounter { created: 3 };
    assert!(matches!(parse_graph(text, &mut counter), Err(FmiError::NodeOutOfRange)));
    assert_eq!(counter.created, 3);
}

#[test]
fn split_tokens_splits_on_unicode_whitespace() {
    let line = "12\u{a0}3\u{3000}x\u{2009}y\u{85}z\u{1680}w\u{2028}v\u{205f}u\u{202f}t".as_bytes();
    assert_eq!(bytes(&split_tokens(line)), vec!["12", "3", "x", "y", "z", "w", "v", "u", "t"]);
    // characters that are not whitespace stay inside a token
    let other = "caf\u{e9} \u{2080}\u{160}\u{20a0}".as_bytes();
    assert_eq!(bytes(&split_tokens(other)), vec!["caf\u{e9}", "\u{2080}\u{160}\u{20a0}"]);
}

#[test]
fn parse_fmi_reads_unicode_separated_fields() {
    let text = "1\u{a0}\n0\n0\u{3000}7 48.1 9.5\n".as_bytes();
    assert!(matches!(parse_fmi(text), Err(FmiError::Malformed)));
    let text = "1\n0\n0\u{3000}7\u{a0}48.1 9.5\n".as_bytes();
    let g = parse_fmi(text).ok().unwrap();
    assert_eq!(g.nodes[0].osm_id, 7);
    assert_eq!(g.nodes[0].lat, b"48.1".to_vec());
}

#[test]
fn parse_queries_trims_unicode_whitespace() {
    let text = "\u{a0}0\u{2003}4\u{3000}\n\u{a0}# 1 2\n".as_bytes();
    assert_eq!(parse_queries(text), vec![(0, 4)]);
    assert_eq!(parse_input_pairs("0\u{a0}4\n".as_bytes()), Ok(vec![(0, 4)]));
}

#[test]
fn parse_queries_stops_at_invalid_utf8() {
    let mut text = b"0 4\n1 2\n".to_vec();
    text.extend_from_slice(&[0xFF, b' ', b'7', b'\n']);
    text.extend_from_slice(b"5 6\n");
    assert_eq!(parse_queries(&text), vec![(0, 4), (1, 2)]);
    let mut text = b"0 4\n".to_vec();
    text.extend_from_slice("\u{e9}t\u{e9} 1 2\n3 4\n".as_bytes());
    assert_eq!(parse_queries(&text), vec![(0, 4), (3, 4)]);
    let mut text = b"0 4\n".to_vec();
    text.extend_from_slice(&[0xED, 0xA0, 0x80, b'\n', b'3', b' ', b'4']);
    assert_eq!(parse_queries(&text), vec![(0, 4)]);
}
