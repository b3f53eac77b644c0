//! A tick-driven simulator of service-mesh tracing: nodes, edges and per-node filters
//! that assemble a trace graph in message headers and match it against a pattern.
pub mod graph;
pub mod ferried;
pub mod rpc;
pub mod iso;
pub mod codec;
pub mod filter;
pub mod plugin;
pub mod node;
pub mod edge;
pub mod simulator;
pub mod udf;
pub mod traffic;
