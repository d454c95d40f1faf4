//! The node's configuration, as given on the command line.

use crate::text::{decimal, push_decimal};
use vstd::prelude::*;

verus! {

#[derive(Debug, Clone)]
pub struct Config {
    pub host: String,
    pub http_port: u16,
    pub node_port: u16,
    pub node_id: String,
    pub peers: Vec<String>,
    pub max_entries: u64,
    pub default_ttl_secs: u64,
    pub replication_factor: usize,
    pub data_dir: String,
    pub virtual_nodes: usize,
    pub gossip_interval_secs: u64,
    pub heartbeat_interval_secs: u64,
    pub circuit_breaker_threshold: u64,
    pub circuit_breaker_timeout_secs: u64,
    pub snapshot_interval_secs: u64,
    pub request_timeout_secs: u64,
}

/// `"{host}:{port}"`.
pub open spec fn host_port(host: Seq<char>, port: nat) -> Seq<char> {
    host + seq![':'] + decimal(port)
}

/// Builds `"{host}:{port}"`.
pub fn format_host_port(host: &str, port: u16) -> (r: String)
    ensures
        r@ == host_port(host@, port as nat),
{
    let mut s = host.to_owned();
    s.push(':');
    push_decimal(&mut s, port as u64);
    assert(s@ =~= host_port(host@, port as nat));
    s
}

impl Config {
    /// The node's public address, `"{host}:{http_port}"`.
    pub fn node_addr(&self) -> (r: String)
        ensures
            r@ == host_port(self.host@, self.http_port as nat),
    {
        format_host_port(self.host.as_str(), self.http_port)
    }

    /// The node's internal address, `"{host}:{node_port}"`.
    pub fn node_internal_addr(&self) -> (r: String)
        ensures
            r@ == host_port(self.host@, self.node_port as nat),
    {
        format_host_port(self.host.as_str(), self.node_port)
    }
}

} // verus!
