use indexmap::IndexMap;
use tracing_sim::codec::{decode_ferried, encode_ferried};
use tracing_sim::graph::get_node_with_id;
use tracing_sim::filter::Filter;
use tracing_sim::graph::AttrGraph;
use tracing_sim::iso::find_mapping_shamir_centralized;
use tracing_sim::rpc::Rpc;

fn service(name: &str) -> Filter {
    let mut props = IndexMap::new();
    props.insert("node.metadata.WORKLOAD_NAME".to_string(), name.to_string());
    Filter::new_with_envoy_properties(props)
}

fn hop(f: &mut Filter, m: &Rpc, direction: &str, location: &str) -> Vec<Rpc> {
    let mut x = m.duplicate();
    x.set_header("direction", direction.to_string());
    x.set_header("location", location.to_string());
    f.execute(&x)
}

fn storage_count(msgs: &[Rpc]) -> usize {
    msgs.iter()
        .filter(|m| m.header("dest") == Some("storage".to_string()))
        .count()
}

#[test]
fn linear_trace_emits_root_height() {
    let mut pp = service("productpage-v1");
    let mut reviews = service("reviews-v1");
    let mut ratings = service("ratings-v1");
    let mut storage = 0;
    let m = hop(&mut pp, &Rpc::new("0", 7), "request", "ingress").remove(0);
    let m = hop(&mut pp, &m, "request", "egress").remove(0);
    let m = hop(&mut reviews, &m, "request", "ingress").remove(0);
    let m = hop(&mut reviews, &m, "request", "egress").remove(0);
    let m = hop(&mut ratings, &m, "request", "ingress").remove(0);
    let out = hop(&mut ratings, &m, "response", "egress");
    storage += storage_count(&out);
    let m = hop(&mut reviews, &out[0], "response", "ingress").remove(0);
    let out = hop(&mut reviews, &m, "response", "egress");
    storage += storage_count(&out);
    let m = hop(&mut pp, &out[0], "response", "ingress").remove(0);
    let out = hop(&mut pp, &m, "response", "egress");
    storage += storage_count(&out);
    assert_eq!(storage, 1);
    assert_eq!(out.len(), 2);
    assert_eq!(out[1].data, "2");
    assert_eq!(out[1].header("src"), Some("productpage-v1".to_string()));
    assert_eq!(out[1].header("direction"), Some("request".to_string()));
    assert_eq!(out[1].uid, 7);
}

#[test]
fn single_node_trace_emits_nothing() {
    let mut pp = service("productpage-v1");
    let out = hop(&mut pp, &Rpc::new("0", 1), "response", "egress");
    assert_eq!(out.len(), 1);
    assert_eq!(storage_count(&out), 0);

    let mut trace = AttrGraph::new();
    trace.add_node("productpage-v1".to_string(), Vec::new());
    let mut pattern = AttrGraph::new();
    let a = pattern.add_node("*".to_string(), Vec::new());
    let b = pattern.add_node("*".to_string(), Vec::new());
    pattern.add_edge(a, b);
    assert_eq!(find_mapping_shamir_centralized(&trace, &pattern), Ok(None));
}

#[test]
fn branching_trace_matches_linear_pattern() {
    let mut pp = service("productpage-v1");
    let mut reviews = service("reviews-v1");
    let mut ratings = service("ratings-v1");
    let mut details = service("details-v1");
    let mut storage = 0;
    let m = hop(&mut pp, &Rpc::new("0", 3), "request", "ingress").remove(0);
    let m = hop(&mut pp, &m, "request", "egress").remove(0);
    let m = hop(&mut reviews, &m, "request", "ingress").remove(0);
    let m = hop(&mut reviews, &m, "request", "egress").remove(0);
    let m = hop(&mut ratings, &m, "request", "ingress").remove(0);
    let out = hop(&mut ratings, &m, "response", "egress");
    storage += storage_count(&out);
    let m = hop(&mut reviews, &out[0], "response", "ingress").remove(0);
    let out = hop(&mut reviews, &m, "response", "egress");
    storage += storage_count(&out);
    hop(&mut pp, &out[0], "response", "ingress");
    let m = hop(&mut pp, &Rpc::new("0", 3), "request", "egress").remove(0);
    let m = hop(&mut details, &m, "request", "ingress").remove(0);
    let out = hop(&mut details, &m, "response", "egress");
    storage += storage_count(&out);
    let m = hop(&mut pp, &out[0], "response", "ingress").remove(0);
    let out = hop(&mut pp, &m, "response", "egress");
    storage += storage_count(&out);
    assert_eq!(storage, 1);
    assert_eq!(out.len(), 2);
    let carried = decode_ferried(&out[0].header("ferried_data").unwrap()).unwrap();
    let root = get_node_with_id(&carried.trace_graph, &"productpage-v1".to_string()).unwrap();
    let height = carried.trace_graph.nodes[root]
        .attrs
        .iter()
        .find(|(k, _)| k == "height")
        .map(|(_, v)| v.clone());
    assert_eq!(Some(out[1].data.clone()), height);
}

#[test]
fn duplicate_request_stores_once() {
    let mut upstream = service("reviews-v1");
    let m = hop(&mut upstream, &Rpc::new("0", 9), "request", "ingress").remove(0);

    let mut once = service("ratings-v1");
    hop(&mut once, &m, "request", "ingress");
    let mut twice = service("ratings-v1");
    hop(&mut twice, &m, "request", "ingress");
    hop(&mut twice, &m, "request", "ingress");

    let a = encode_ferried(&once.stored_data(9));
    let b = encode_ferried(&twice.stored_data(9));
    assert_eq!(a, b);
    assert!(a.contains("ratings-v1"));
}

#[test]
fn request_from_an_origin_carries_just_that_node() {
    let mut pp = service("productpage-v1");
    let out = hop(&mut pp, &Rpc::new("0", 4), "request", "egress");
    let text = out[0].header("ferried_data").unwrap();
    assert_eq!(
        text,
        "{\"trace_graph\":{\"nodes\":[[\"productpage-v1\",[[\"node.metadata.WORKLOAD_NAME\",\"productpage-v1\"]]]],\"edges\":[]},\"unassigned_properties\":[]}"
    );
}

#[test]
fn request_with_stored_data_carries_it() {
    let mut reviews = service("reviews-v1");
    hop(&mut reviews, &Rpc::new("0", 5), "request", "ingress");
    let mut m = Rpc::new("0", 5);
    m.set_header("ferried_data", "not data".to_string());
    let out = hop(&mut reviews, &m, "request", "egress");
    assert_eq!(out.len(), 1);
    assert_eq!(
        out[0].header("ferried_data"),
        Some("{\"trace_graph\":{\"nodes\":[],\"edges\":[]},\"unassigned_properties\":[[\"reviews-v1\",\"node.metadata.WORKLOAD_NAME\",\"reviews-v1\"]]}".to_string())
    );
}
