use distributed_cache::config::Config;

fn config(host: &str, http_port: u16, node_port: u16) -> Config {
    Config {
        host: host.to_string(),
        http_port,
        node_port,
        node_id: "node-1".to_string(),
        peers: vec![],
        max_entries: 10_000_000,
        default_ttl_secs: 3600,
        replication_factor: 2,
        data_dir: "./data".to_string(),
        virtual_nodes: 256,
        gossip_interval_secs: 30,
        heartbeat_interval_secs: 5,
        circuit_breaker_threshold: 5,
        circuit_breaker_timeout_secs: 30,
        snapshot_interval_secs: 60,
        request_timeout_secs: 10,
    }
}

#[test]
fn node_addresses_join_host_and_port() {
    let c = config("127.0.0.1", 8080, 9090);
    assert_eq!(c.node_addr(), "127.0.0.1:8080");
    assert_eq!(c.node_internal_addr(), "127.0.0.1:9090");
}

#[test]
fn node_addresses_with_extreme_ports() {
    let c = config("cache.local", 0, 65535);
    assert_eq!(c.node_addr(), "cache.local:0");
    assert_eq!(c.node_internal_addr(), "cache.local:65535");
}
