use queues::IsQueue;
use tracing_sim::edge::Edge;
use tracing_sim::node::{route_with_choice, Node};
use tracing_sim::plugin::{PluginWrapper, SimError};
use tracing_sim::rpc::Rpc;
use tracing_sim::simulator::{Element, Simulator};
use tracing_sim::traffic::TrafficGenerator;
use tracing_sim::udf::{Count, State};

#[test]
fn node_test_node_creation() {
    let _node = Node::new("0", 2, 2, 1, None, 1);
}

#[test]
fn node_test_node_capacity_and_egress_rate() {
    let mut node = Node::new("0", 2, 1, 0, None, 1);
    node.add_connection("foo".to_string());
    assert!(node.capacity == 2);
    assert!(node.egress_rate == 1);
    node.recv(Rpc::new("0", 0), 0, "0");
    node.recv(Rpc::new("0", 1), 0, "0");
    assert!(node.queue.size() == 2);
    node.recv(Rpc::new("0", 2), 0, "0");
    assert!(node.queue.size() == 2);
    let mut uid = 10;
    node.tick(0, &mut uid);
    assert!(node.queue.size() == 1);
}

#[test]
fn node_test_plugin_initialization() {
    let node = Node::new("0", 2, 1, 0, Some("target/debug/libfilter_example"), 1);
    assert!(!node.plugin.is_none());
}

#[test]
fn capacity_two_keeps_two_of_three() {
    let mut node = Node::new("n", 2, 5, 0, None, 3);
    node.add_connection("e".to_string());
    for uid in 0..3 {
        node.recv(Rpc::new("x", uid), 4, "m");
    }
    assert_eq!(node.queue.size(), 2);
    assert_eq!(node.dequeue(0).unwrap().rpc.uid, 0);
    assert_eq!(node.dequeue(0).unwrap().rpc.uid, 1);
}

#[test]
fn node_without_neighbors_drops() {
    let mut node = Node::new("n", 4, 1, 0, None, 3);
    node.recv(Rpc::new("x", 0), 0, "m");
    assert_eq!(node.queue.size(), 0);
}

#[test]
fn routing_picks_a_neighbor_and_records_it() {
    let mut node = Node::new("n", 4, 1, 0, None, 11);
    node.add_connection("e1".to_string());
    node.add_connection("e2".to_string());
    let routed = node.route_rpc(Rpc::new("x", 0));
    assert_eq!(routed.len(), 1);
    let d = routed[0].destination.clone();
    assert!(d == "e1" || d == "e2");
    assert_eq!(routed[0].rpc.header("dest"), Some(d));
}

#[test]
fn routing_keeps_a_neighbor_dest() {
    let neighbors = vec!["e1".to_string(), "e2".to_string()];
    let mut m = Rpc::new("x", 0);
    m.set_header("dest", "e2".to_string());
    let routed = route_with_choice(&neighbors, m, 0);
    assert_eq!(routed[0].destination, "e2");
    let routed = route_with_choice(&neighbors, Rpc::new("x", 1), 1);
    assert_eq!(routed[0].destination, "e2");
    assert_eq!(routed[0].rpc.header("dest"), Some("e2".to_string()));
}

#[test]
fn generating_node_sends_fresh_requests() {
    let mut node = Node::new("gen", 4, 2, 2, None, 0);
    node.add_connection("e".to_string());
    let mut uid = 5;
    let out = node.tick(12, &mut uid);
    assert_eq!(out.len(), 2);
    assert_eq!(out[0].0.data, "12");
    assert_eq!(out[0].0.uid, 5);
    assert_eq!(out[1].0.uid, 6);
    assert_eq!(out[0].1, "e");
    assert_eq!(out[0].0.header("direction"), Some("request".to_string()));
    assert_eq!(uid, 7);
}

#[test]
fn edge_delivers_after_latency() {
    let mut e = Edge::new(3, "e", "a", "b", false);
    assert!(e.tick(0).is_empty());
    e.recv(Rpc::new("p", 1), 0, "a");
    assert!(e.tick(1).is_empty());
    assert!(e.tick(2).is_empty());
    let out = e.tick(3);
    assert_eq!(out.len(), 1);
    assert_eq!(out[0].0.uid, 1);
    assert_eq!(out[0].1, "b");
    assert!(e.tick(4).is_empty());
}

#[test]
fn one_way_edge_drops_reverse_traffic() {
    let mut e = Edge::new(1, "e", "a", "b", true);
    e.tick(0);
    e.recv(Rpc::new("p", 1), 0, "b");
    e.recv(Rpc::new("p", 2), 0, "a");
    let out = e.tick(1);
    assert_eq!(out.len(), 1);
    assert_eq!(out[0].0.uid, 2);
}

#[test]
fn edge_keeps_fifo_order() {
    let mut e = Edge::new(2, "e", "a", "b", false);
    e.tick(0);
    e.recv(Rpc::new("p", 1), 0, "a");
    e.recv(Rpc::new("p", 2), 0, "b");
    e.tick(1);
    let out = e.tick(2);
    assert_eq!(out.len(), 2);
    assert_eq!(out[0].0.uid, 1);
    assert_eq!(out[0].1, "b");
    assert_eq!(out[1].0.uid, 2);
    assert_eq!(out[1].1, "a");
}

#[test]
fn simulator_rejects_duplicates_and_unknown_endpoints() {
    let mut sim = Simulator::new();
    assert_eq!(sim.add_node("a", 4, 1, 0, None), Ok(()));
    assert_eq!(sim.add_node("a", 4, 1, 0, None), Err(SimError::DuplicateId));
    assert_eq!(sim.add_edge(1, "e", "a", "zz", false), Err(SimError::UnknownEndpoint));
    assert_eq!(sim.add_node("b", 4, 1, 0, None), Ok(()));
    assert_eq!(sim.add_edge(1, "e", "a", "b", false), Ok(()));
    assert_eq!(sim.add_edge(1, "e", "a", "b", false), Err(SimError::DuplicateId));
}

fn queue_len(sim: &Simulator, id: &str) -> usize {
    for e in &sim.elements {
        if let Element::Node(n) = e {
            if n.id == id {
                return n.queue.size();
            }
        }
    }
    panic!("no node {}", id);
}

#[test]
fn simulator_moves_messages_and_bounds_queues() {
    let mut sim = Simulator::new();
    sim.add_node("gen", 10, 3, 3, None).unwrap();
    sim.add_node("sink", 2, 0, 0, None).unwrap();
    sim.add_edge(1, "g->s", "gen", "sink", true).unwrap();
    for t in 0..6 {
        sim.tick(t);
        assert!(queue_len(&sim, "sink") <= 2);
    }
    assert_eq!(queue_len(&sim, "sink"), 0);
    sim.add_node("hub", 2, 0, 0, None).unwrap();
    sim.add_edge(1, "hub->sink", "hub", "sink", false).unwrap();
    for t in 6..10 {
        sim.tick(t);
        assert!(queue_len(&sim, "sink") <= 2);
    }
}

#[test]
fn simulator_delivers_through_an_edge() {
    let mut sim = Simulator::new();
    sim.add_node("gen", 10, 1, 1, None).unwrap();
    sim.add_node("sink", 5, 0, 0, None).unwrap();
    sim.add_node("tail", 5, 0, 0, None).unwrap();
    sim.add_edge(2, "g->s", "gen", "sink", true).unwrap();
    sim.add_edge(1, "s->t", "sink", "tail", true).unwrap();
    sim.tick(0);
    sim.tick(1);
    assert_eq!(queue_len(&sim, "sink"), 0);
    sim.tick(2);
    assert_eq!(queue_len(&sim, "sink"), 1);
}

#[test]
fn plugin_holds_one_message_until_tick() {
    let mut p = PluginWrapper::new("n_plugin", "libfilter_example", "n");
    let mut m = Rpc::new("x", 0);
    m.set_header("direction", "request".to_string());
    m.set_header("location", "egress".to_string());
    p.recv(m.duplicate(), 0, "n");
    assert!(p.stored_rpc.is_some());
    let out = p.tick(0);
    assert!(p.stored_rpc.is_none());
    assert_eq!(out.len(), 1);
    assert!(p.tick(1).is_empty());
}

#[test]
fn rpc_constructors_and_size() {
    let r = Rpc::new_with_src_dest("abc", "xy", "z", 4);
    assert_eq!(r.header("src"), Some("xy".to_string()));
    assert_eq!(r.header("dest"), Some("z".to_string()));
    assert_eq!(r.len(), 3 + 3 + 2 + 4 + 1);
    let s = Rpc::new_with_src("é", "", 0);
    assert_eq!(s.len(), 2 + 3);
}

#[test]
fn count_state_and_traffic() {
    assert_eq!(Count::new().execute(), 1);
    assert_eq!(Count { counter: 41 }.execute(), 42);
    let s = State::new_with_str("abc".to_string());
    assert_eq!(s.type_of_state, Some("String".to_string()));
    assert_eq!(s.string_data, Some("abc".to_string()));
    assert!(State::new().string_data.is_none());
    let mut g = TrafficGenerator::new(2, 0);
    g.add_connection(7);
    let mut uid = 3;
    let out = g.tick(15, &mut uid);
    assert_eq!(out.len(), 2);
    assert_eq!(out[0].0.data, "15");
    assert_eq!(out[1].0.uid, 4);
    assert_eq!(out[0].1, Some(7));
    assert_eq!(uid, 5);
}

#[test]
fn short_queue_is_drained_without_generating() {
    let mut node = Node::new("n", 5, 3, 4, None, 0);
    node.add_connection("e".to_string());
    node.recv(Rpc::new("x", 40), 0, "m");
    let mut uid = 100;
    let out = node.tick(1, &mut uid);
    assert_eq!(out.len(), 1);
    assert_eq!(out[0].0.uid, 40);
    assert_eq!(uid, 100);
    let out = node.tick(2, &mut uid);
    assert_eq!(out.len(), 3);
    assert_eq!(out[2].0.uid, 102);
}

#[test]
fn add_edge_rewires_neighbor_lists() {
    let mut sim = Simulator::new();
    sim.add_node("a", 4, 1, 0, None).unwrap();
    sim.add_node("b", 4, 1, 0, None).unwrap();
    sim.add_node("c", 4, 1, 0, None).unwrap();
    sim.add_edge(1, "ab", "a", "b", false).unwrap();
    sim.add_edge(1, "bc", "b", "c", true).unwrap();
    let neighbors = |id: &str| -> Vec<String> {
        for e in &sim.elements {
            if let Element::Node(n) = e {
                if n.id == id {
                    return n.neighbors.clone();
                }
            }
        }
        panic!("no node {}", id);
    };
    assert_eq!(neighbors("a"), vec!["ab".to_string()]);
    assert_eq!(neighbors("b"), vec!["ab".to_string(), "bc".to_string()]);
    assert!(neighbors("c").is_empty());
}

#[test]
fn fresh_edge_can_receive_before_ticking() {
    let mut e = Edge::new(2, "e", "a", "b", false);
    e.recv(Rpc::new("p", 1), 5, "a");
    assert!(e.tick(6).is_empty());
    assert_eq!(e.tick(7).len(), 1);
}
