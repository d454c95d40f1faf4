//! What the node's two servers and its peer client decide: the messages
//! exchanged between nodes, and how each request is answered.

pub mod http_server;
pub mod node_client;
pub mod node_server;
