use tracing_sim::codec::{decode_ferried, encode_ferried, DecodeError};
use tracing_sim::ferried::FerriedData;
use tracing_sim::filter::{create_target_graph, get_value_for_storage, leaf_height, mid_height, parse_height};
use tracing_sim::graph::{
    find_leaves, find_root, generate_target_graph, get_node_with_id, get_out_degree, has_property_subset,
    AttrGraph,
};
use tracing_sim::iso::{find_mapping_shamir_centralized, max_matching, MatchError, NO_MATCH};

fn s(x: &str) -> String {
    x.to_string()
}

fn make_small_target_graph() -> AttrGraph {
    let vertices = vec![s("a"), s("b"), s("c")];
    let edges = vec![(s("a"), s("b")), (s("b"), s("c"))];
    let props = vec![
        (s("a"), vec![(s("node.metadata.WORKLOAD_NAME"), s("a"))]),
        (s("b"), vec![(s("node.metadata.WORKLOAD_NAME"), s("b"))]),
        (s("c"), vec![(s("node.metadata.WORKLOAD_NAME"), s("c"))]),
    ];
    generate_target_graph(&vertices, &edges, &props).unwrap()
}

fn little_branching_graph() -> AttrGraph {
    let mut g = AttrGraph::new();
    for i in 0..6 {
        g.add_node(i.to_string(), Vec::new());
    }
    for (a, b) in [(0, 1), (0, 2), (0, 3), (1, 4), (3, 5)] {
        g.add_edge(a, b);
    }
    g
}

fn tree(labels: &[&str], edges: &[(usize, usize)]) -> AttrGraph {
    let mut g = AttrGraph::new();
    for l in labels {
        g.add_node(s(l), Vec::new());
    }
    for (a, b) in edges {
        g.add_edge(*a, *b);
    }
    g
}

#[test]
fn utils_test_generate_target_graph() {
    let graph = make_small_target_graph();
    assert_eq!(graph.node_count(), 3);
    assert_eq!(graph.edge_count(), 2);
}

#[test]
fn graph_utils_test_generate_target_graph() {
    let vertices = vec![s("a"), s("b"), s("c")];
    let edges = vec![(s("a"), s("b")), (s("b"), s("c"))];
    let props: Vec<(String, Vec<(String, String)>)> = Vec::new();
    let graph = generate_target_graph(&vertices, &edges, &props).unwrap();
    assert_eq!(graph.node_count(), 3);
    assert_eq!(graph.edge_count(), 2);
}

#[test]
fn target_graph_with_unknown_vertex_is_refused() {
    let vertices = vec![s("a")];
    let edges = vec![(s("a"), s("q"))];
    assert!(generate_target_graph(&vertices, &edges, &Vec::new()).is_none());
}

#[test]
fn utils_test_find_leaves() {
    let graph = little_branching_graph();
    let leaves = find_leaves(&graph);
    let correct_leaves = vec![2, 4, 5];
    for leaf in &leaves {
        assert!(correct_leaves.contains(leaf));
    }
}

#[test]
fn iso_test_find_leaves() {
    let graph = little_branching_graph();
    assert_eq!(find_leaves(&graph), vec![2, 4, 5]);
}

#[test]
fn roots_degree_and_lookup() {
    let graph = little_branching_graph();
    assert_eq!(find_root(&graph), Some(0));
    assert_eq!(get_out_degree(&graph, None), Some(3));
    assert_eq!(get_out_degree(&graph, Some(3)), Some(1));
    assert_eq!(get_out_degree(&graph, Some(9)), None);
    assert_eq!(get_node_with_id(&graph, &s("4")), Some(4));
    assert_eq!(get_node_with_id(&graph, &s("x")), None);
    let chain = tree(&["0", "1", "2", "3", "4", "5", "6"], &[(0, 1), (1, 2), (2, 3), (3, 4), (4, 5), (5, 6)]);
    assert_eq!(get_out_degree(&chain, None), Some(1));
}

#[test]
fn property_subset() {
    let sup = vec![(s("a"), s("1")), (s("b"), s("2"))];
    assert!(has_property_subset(&sup, &vec![(s("b"), s("2"))]));
    assert!(has_property_subset(&sup, &Vec::new()));
    assert!(!has_property_subset(&sup, &vec![(s("b"), s("3"))]));
    assert!(!has_property_subset(&sup, &vec![(s("c"), s("2"))]));
}

#[test]
fn matcher_finds_contained_pattern() {
    let g = tree(&["r", "x", "y", "z"], &[(0, 1), (0, 2), (2, 3)]);
    let h = tree(&["*", "*", "*"], &[(0, 1), (1, 2)]);
    assert_eq!(find_mapping_shamir_centralized(&g, &h), Ok(Some(vec![(0, 0), (1, 2), (2, 3)])));
    let h = tree(&["r", "*", "z"], &[(0, 1), (1, 2)]);
    assert_eq!(find_mapping_shamir_centralized(&g, &h), Ok(Some(vec![(0, 0), (1, 2), (2, 3)])));
}

#[test]
fn matcher_needs_distinct_children() {
    let g = tree(&["r", "x", "y"], &[(0, 1), (0, 2)]);
    let wide = tree(&["*", "*", "*", "*"], &[(0, 1), (0, 2), (0, 3)]);
    assert_eq!(find_mapping_shamir_centralized(&g, &wide), Ok(None));
    let deep = tree(&["*", "*", "*"], &[(0, 1), (1, 2)]);
    assert_eq!(find_mapping_shamir_centralized(&g, &deep), Ok(None));
    let labelled = tree(&["r", "q"], &[(0, 1)]);
    assert_eq!(find_mapping_shamir_centralized(&g, &labelled), Ok(None));
}

#[test]
fn matcher_uses_a_real_matching() {
    // x1 fits under both children, x2 only under the first: a greedy pick fails.
    let mut g = AttrGraph::new();
    g.add_node(s("r"), Vec::new());
    g.add_node(s("c1"), vec![(s("k"), s("1")), (s("j"), s("1"))]);
    g.add_node(s("c2"), vec![(s("k"), s("1"))]);
    g.add_edge(0, 1);
    g.add_edge(0, 2);
    let mut h = AttrGraph::new();
    h.add_node(s("*"), Vec::new());
    h.add_node(s("*"), vec![(s("k"), s("1"))]);
    h.add_node(s("*"), vec![(s("j"), s("1"))]);
    h.add_edge(0, 1);
    h.add_edge(0, 2);
    assert_eq!(find_mapping_shamir_centralized(&g, &h), Ok(Some(vec![(0, 0), (1, 2), (2, 1)])));
}

#[test]
fn matcher_is_deterministic() {
    let g = tree(&["r", "a", "b", "c", "d"], &[(0, 1), (0, 2), (1, 3), (2, 4)]);
    let h = tree(&["*", "*", "*"], &[(0, 1), (1, 2)]);
    let first = find_mapping_shamir_centralized(&g, &h);
    let second = find_mapping_shamir_centralized(&g, &h);
    assert_eq!(first, second);
    assert_eq!(first, Ok(Some(vec![(0, 0), (1, 1), (2, 3)])));
}

#[test]
fn matcher_errors() {
    let two_roots = tree(&["a", "b"], &[]);
    let g = tree(&["r"], &[]);
    assert_eq!(find_mapping_shamir_centralized(&g, &two_roots), Err(MatchError::MalformedPattern));
    let h = tree(&["*"], &[]);
    assert_eq!(find_mapping_shamir_centralized(&two_roots, &h), Err(MatchError::MalformedTrace));
    assert_eq!(find_mapping_shamir_centralized(&AttrGraph::new(), &h), Ok(None));
}

fn sample() -> FerriedData {
    let mut fd = FerriedData::new();
    fd.trace_graph.add_node(s("p\"q"), vec![(s("height"), s("1"))]);
    fd.trace_graph.add_node(s("r\\s"), Vec::new());
    fd.trace_graph.add_edge(0, 1);
    fd.unassigned_properties.push((s("zz"), s("k"), s("v")));
    fd
}

#[test]
fn encoding_is_exact() {
    let mut fd = FerriedData::new();
    fd.trace_graph.add_node(s("a"), vec![(s("k"), s("v"))]);
    fd.trace_graph.add_node(s("b"), Vec::new());
    fd.trace_graph.add_edge(0, 1);
    fd.unassigned_properties.push((s("c"), s("k2"), s("v2")));
    assert_eq!(
        encode_ferried(&fd),
        "{\"trace_graph\":{\"nodes\":[[\"a\",[[\"k\",\"v\"]]],[\"b\",[]]],\"edges\":[[0,1]]},\"unassigned_properties\":[[\"c\",\"k2\",\"v2\"]]}"
    );
}

#[test]
fn encoding_round_trips() {
    let fd = sample();
    let text = encode_ferried(&fd);
    assert!(text.contains("p\\\"q"));
    assert!(text.contains("r\\\\s"));
    let back = decode_ferried(&text).unwrap();
    assert_eq!(back.trace_graph.nodes[0].label, "p\"q");
    assert_eq!(back.trace_graph.nodes[1].label, "r\\s");
    assert_eq!(back.trace_graph.edges, vec![(0, 1)]);
    assert_eq!(encode_ferried(&back), text);
    let mut big = FerriedData::new();
    for i in 0..12 {
        big.trace_graph.add_node(i.to_string(), Vec::new());
    }
    big.trace_graph.add_edge(10, 11);
    let t = encode_ferried(&big);
    assert!(t.contains("[10,11]"));
    assert_eq!(encode_ferried(&decode_ferried(&t).unwrap()), t);
}

#[test]
fn decoding_refuses_bad_text() {
    assert_eq!(decode_ferried("garbage").err(), Some(DecodeError::Malformed));
    let bad_edge = "{\"trace_graph\":{\"nodes\":[[\"a\",[]]],\"edges\":[[0,1]]},\"unassigned_properties\":[]}";
    assert_eq!(decode_ferried(bad_edge).err(), Some(DecodeError::Malformed));
    let leading_zero = "{\"trace_graph\":{\"nodes\":[[\"a\",[]],[\"b\",[]]],\"edges\":[[0,01]]},\"unassigned_properties\":[]}";
    assert!(decode_ferried(leading_zero).is_err());
}

#[test]
fn assign_properties_twice_is_once() {
    let mut fd = FerriedData::new();
    fd.trace_graph.add_node(s("x"), Vec::new());
    fd.unassigned_properties.push((s("x"), s("k"), s("1")));
    fd.unassigned_properties.push((s("y"), s("k"), s("2")));
    fd.unassigned_properties.push((s("x"), s("k"), s("3")));
    fd.assign_properties();
    let once = encode_ferried(&fd);
    assert_eq!(fd.trace_graph.nodes[0].attrs, vec![(s("k"), s("3"))]);
    assert_eq!(fd.unassigned_properties, vec![(s("y"), s("k"), s("2"))]);
    fd.assign_properties();
    assert_eq!(encode_ferried(&fd), once);
}

#[test]
fn merging_with_itself_changes_nothing() {
    let mut fd = sample();
    fd.assign_properties();
    let before = encode_ferried(&fd);
    let copy = fd.duplicate();
    fd.merge_from(&copy);
    assert_eq!(encode_ferried(&fd), before);
}

#[test]
fn merge_unions_by_label() {
    let mut a = FerriedData::new();
    a.trace_graph.add_node(s("x"), Vec::new());
    let mut b = FerriedData::new();
    b.trace_graph.add_node(s("y"), Vec::new());
    b.trace_graph.add_node(s("x"), vec![(s("k"), s("v"))]);
    b.trace_graph.add_edge(1, 0);
    b.unassigned_properties.push((s("y"), s("h"), s("1")));
    a.merge_from(&b);
    assert_eq!(a.trace_graph.node_count(), 2);
    assert_eq!(a.trace_graph.nodes[1].label, "y");
    assert_eq!(a.trace_graph.edges, vec![(0, 1)]);
    assert_eq!(a.trace_graph.nodes[1].attrs, vec![(s("h"), s("1"))]);
    assert!(a.unassigned_properties.is_empty());
}

#[test]
fn heights() {
    assert_eq!(leaf_height(), 0);
    assert_eq!(mid_height(&vec![s("1"), s("3"), s("x")]), 4);
    assert_eq!(mid_height(&vec![s("nope")]), 1);
    assert_eq!(parse_height(&s("42")), Some(42));
    assert_eq!(parse_height(&s("4a")), None);
    assert_eq!(parse_height(&s("+7")), Some(7));
    assert_eq!(parse_height(&s("+")), None);
    assert_eq!(parse_height(&s("007")), Some(7));
    assert_eq!(parse_height(&s("")), None);
    assert_eq!(parse_height(&s("4294967295")), Some(4294967295));
    assert_eq!(parse_height(&s("4294967296")), None);
}

#[test]
fn value_for_storage_reads_mapped_height() {
    let target = create_target_graph();
    let mut fd = FerriedData::new();
    fd.trace_graph.add_node(s("svc"), vec![(s("height"), s("5"))]);
    fd.trace_graph.add_node(s("other"), Vec::new());
    assert_eq!(get_value_for_storage(&target, &vec![(1, 1), (0, 0)], &fd), Some(s("5")));
    assert_eq!(get_value_for_storage(&target, &vec![(0, 1)], &fd), None);
    assert_eq!(get_value_for_storage(&target, &vec![(1, 0)], &fd), None);
}

#[test]
fn test_get_out_degree() {
    // the trace "0;1;2;3;4;5;6": each node calls the one before it
    let straight_graph = tree(
        &["0", "1", "2", "3", "4", "5", "6"],
        &[(1, 0), (2, 1), (3, 2), (4, 3), (5, 4), (6, 5)],
    );
    assert!(get_out_degree(&straight_graph, None) == Some(1));
}

#[test]
fn test_get_node_with_id() {
    // the trace "0;1;2;3"
    let graph = tree(&["0", "1", "2", "3"], &[(1, 0), (2, 1), (3, 2)]);
    let ret = get_node_with_id(&graph, &s("0"));
    assert!(!ret.is_none());
}

#[test]
fn matching_uses_edges_and_distinct_columns() {
    let adj = vec![vec![true, true], vec![true, false], vec![false, false]];
    let m = max_matching(&adj, 2);
    assert_eq!(m, vec![1, 0, NO_MATCH]);
}

#[test]
fn decoding_merges_duplicate_labels() {
    let text = "{\"trace_graph\":{\"nodes\":[[\"a\",[]],[\"b\",[]],[\"a\",[[\"k\",\"v\"]]]],\"edges\":[[0,1],[2,1]]},\"unassigned_properties\":[]}";
    let d = tracing_sim::filter::decode_merged(text).unwrap();
    assert_eq!(d.trace_graph.node_count(), 2);
    assert_eq!(d.trace_graph.edges, vec![(0, 1)]);
    assert!(decode_ferried(text).unwrap().trace_graph.node_count() == 3);
}
