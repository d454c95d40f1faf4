use distributed_cache::cluster::ClusterState;
use distributed_cache::config::Config;
use distributed_cache::error::CacheError;
use distributed_cache::router::{peer_to_node_id, SmartRouter};

fn config(peers: &[&str]) -> Config {
    Config {
        host: "127.0.0.1".to_string(),
        http_port: 8080,
        node_port: 9090,
        node_id: "node-1".to_string(),
        peers: peers.iter().map(|p| p.to_string()).collect(),
        max_entries: 1000,
        default_ttl_secs: 3600,
        replication_factor: 2,
        data_dir: "./data".to_string(),
        virtual_nodes: 64,
        gossip_interval_secs: 30,
        heartbeat_interval_secs: 5,
        circuit_breaker_threshold: 2,
        circuit_breaker_timeout_secs: 3600,
        snapshot_interval_secs: 60,
        request_timeout_secs: 10,
    }
}

#[test]
fn peer_id_replaces_colons_and_dots() {
    assert_eq!(peer_to_node_id("127.0.0.1:8081"), "node-127-0-0-1-8081");
    assert_eq!(peer_to_node_id("cache-b:9000"), "node-cache-b-9000");
    assert_eq!(peer_to_node_id(""), "node-");
}

#[test]
fn router_ring_holds_the_node_and_its_peers() {
    let router = SmartRouter::new(config(&["127.0.0.1:8081", "127.0.0.1:8082"]));
    let mut seen = std::collections::HashSet::new();
    for i in 0..200 {
        seen.insert(router.primary_node(&format!("key-{}", i)).unwrap());
    }
    assert!(seen.len() <= 3);
    assert!(seen.iter().all(|n| n == "node-1" || n == "node-127-0-0-1-8081" || n == "node-127-0-0-1-8082"));
}

#[test]
fn is_local_matches_the_primary() {
    let router = SmartRouter::new(config(&["127.0.0.1:8081"]));
    for i in 0..50 {
        let key = format!("k{}", i);
        let primary = router.primary_node(&key).unwrap();
        assert_eq!(router.is_local(&key), primary == "node-1");
    }
}

#[test]
fn replicas_start_with_the_primary() {
    let router = SmartRouter::new(config(&["127.0.0.1:8081", "127.0.0.1:8082"]));
    for i in 0..50 {
        let key = format!("k{}", i);
        let replicas = router.replica_nodes(&key);
        assert_eq!(replicas.len(), 2);
        assert_eq!(replicas[0], router.primary_node(&key).unwrap());
        assert_ne!(replicas[0], replicas[1]);
    }
}

#[test]
fn alone_a_node_owns_everything() {
    let router = SmartRouter::new(config(&[]));
    assert!(router.is_local("anything"));
    assert_eq!(router.replica_nodes("anything"), vec!["node-1".to_string()]);
}

#[test]
fn empty_ring_has_no_node_for_a_key() {
    let mut router = SmartRouter::new(config(&[]));
    router.remove_node("node-1");
    assert!(matches!(router.primary_node("k"), Err(CacheError::NoNodeAvailable(k)) if k == "k"));
    assert!(!router.is_local("k"));
    assert!(matches!(router.best_available_node("k"), Err(CacheError::NoNodeAvailable(_))));
    router.add_node("node-1");
    assert!(router.is_local("k"));
}

#[test]
fn node_address_of_self_and_peers() {
    let cfg = config(&["127.0.0.1:8081"]);
    let router = SmartRouter::new(cfg.clone());
    let cluster = ClusterState::new_at(cfg, 100);
    assert_eq!(router.node_address(&cluster, "node-1"), Some("127.0.0.1:8080".to_string()));
    assert_eq!(router.node_address(&cluster, "node-127-0-0-1-8081"), Some("127.0.0.1:8081".to_string()));
    assert_eq!(router.node_address(&cluster, "stranger"), None);
}

#[test]
fn breakers_open_after_threshold_failures() {
    let mut router = SmartRouter::new(config(&["127.0.0.1:8081"]));
    let peer = "node-127-0-0-1-8081";
    assert!(!router.is_circuit_open(peer));
    router.record_failure(peer);
    assert!(!router.is_circuit_open(peer));
    router.record_failure(peer);
    assert!(router.is_circuit_open(peer));
    assert_eq!(router.circuit_breaker_for(peer).state_str(), "open");
    assert_eq!(router.circuit_breaker_for("node-1").state_str(), "closed");
}

#[test]
fn best_available_node_is_the_primary_while_it_admits() {
    let mut router = SmartRouter::new(config(&["127.0.0.1:8081", "127.0.0.1:8082"]));
    for i in 0..30 {
        let key = format!("k{}", i);
        let primary = router.primary_node(&key).unwrap();
        assert_eq!(router.best_available_node(&key).unwrap(), primary);
    }
}

#[test]
fn best_available_node_skips_open_breakers() {
    let mut router = SmartRouter::new(config(&["127.0.0.1:8081", "127.0.0.1:8082"]));
    let key = "some-key";
    let order = router.replica_nodes(key);
    let first = order[0].clone();
    router.record_failure(&first);
    router.record_failure(&first);
    let best = router.best_available_node(key).unwrap();
    assert_ne!(best, first);
    assert_eq!(best, order[1]);
}

#[test]
fn best_available_node_fails_when_every_breaker_is_open() {
    let mut router = SmartRouter::new(config(&["127.0.0.1:8081"]));
    for n in ["node-1", "node-127-0-0-1-8081"] {
        router.record_failure(n);
        router.record_failure(n);
    }
    assert!(matches!(router.best_available_node("k"), Err(CacheError::NoNodeAvailable(k)) if k == "k"));
}

#[test]
fn a_success_resets_a_nodes_failures() {
    let mut router = SmartRouter::new(config(&[]));
    router.record_failure("node-1");
    router.record_success("node-1");
    router.record_failure("node-1");
    assert!(!router.is_circuit_open("node-1"));
}
