use distributed_cache::cluster::gossip::GossipMessage;
use distributed_cache::cluster::{ClusterState, NodeInfo, NodeStatus};
use distributed_cache::config::Config;
use distributed_cache::error::CacheError;
use distributed_cache::network::http_server::{
    cluster_info, effective_ttl, finish_forward_delete, finish_forward_get, finish_forward_set, forward_target, get_result,
    local_delete, local_get, replication_targets, SetQuery, STATUS_BAD_GATEWAY, STATUS_NOT_FOUND, STATUS_OK,
    STATUS_SERVICE_UNAVAILABLE,
};
use distributed_cache::network::node_client::{value_from_reply, DeleteRequest, GetRequest, GetResponse, SetRequest};
use distributed_cache::network::node_server::{get_reply, serve_delete, serve_get, serve_gossip, serve_set_at};
use distributed_cache::router::SmartRouter;
use distributed_cache::storage::engine::{CacheValue, StorageEngine};

fn config(peers: &[&str]) -> Config {
    Config {
        host: "127.0.0.1".to_string(),
        http_port: 8080,
        node_port: 9090,
        node_id: "node-1".to_string(),
        peers: peers.iter().map(|p| p.to_string()).collect(),
        max_entries: 1000,
        default_ttl_secs: 3600,
        replication_factor: 3,
        data_dir: "./data".to_string(),
        virtual_nodes: 64,
        gossip_interval_secs: 30,
        heartbeat_interval_secs: 5,
        circuit_breaker_threshold: 1,
        circuit_breaker_timeout_secs: 3600,
        snapshot_interval_secs: 60,
        request_timeout_secs: 10,
    }
}

fn value(data: &str) -> CacheValue {
    CacheValue::new_at(data.as_bytes().to_vec(), Some(300), 1_700_000_000)
}

#[test]
fn reply_not_found_means_no_value() {
    let r = value_from_reply(GetResponse { found: false, value: None, expires_at_unix: None, created_at_unix: 0 });
    assert!(matches!(r, Ok(None)));
}

#[test]
fn reply_found_without_bytes_is_an_upstream_error() {
    let r = value_from_reply(GetResponse { found: true, value: None, expires_at_unix: None, created_at_unix: 3 });
    assert!(matches!(r, Err(CacheError::Upstream(m)) if m == "missing value"));
}

#[test]
fn reply_found_gives_the_value() {
    let r = value_from_reply(GetResponse {
        found: true,
        value: Some(b"v".to_vec()),
        expires_at_unix: Some(20),
        created_at_unix: 10,
    });
    let v = r.unwrap().unwrap();
    assert_eq!(v.data, b"v".to_vec());
    assert_eq!(v.expires_at_unix, Some(20));
    assert_eq!(v.created_at_unix, 10);
}

#[test]
fn get_reply_for_a_value_and_for_nothing() {
    let r = get_reply(Some(value("x")));
    assert!(r.found);
    assert_eq!(r.value, Some(b"x".to_vec()));
    assert_eq!(r.expires_at_unix, Some(1_700_000_300));
    assert_eq!(r.created_at_unix, 1_700_000_000);
    let n = get_reply(None);
    assert!(!n.found);
    assert_eq!(n.value, None);
    assert_eq!(n.expires_at_unix, None);
    assert_eq!(n.created_at_unix, 0);
}

#[test]
fn peer_write_then_read_and_delete() {
    let mut e = StorageEngine::new(config(&[]));
    let ok = serve_set_at(&mut e, SetRequest { key: "t".to_string(), value: b"w".to_vec(), ttl_secs: Some(60) }, 1000);
    assert!(ok.success);
    assert!(ok.message.is_none());
    assert_eq!(e.get_at("t", 1001).unwrap().expires_at_unix, Some(1060));
    serve_set_at(&mut e, SetRequest { key: "k".to_string(), value: b"v".to_vec(), ttl_secs: None }, 1000);
    let got = serve_get(&mut e, &GetRequest { key: "k".to_string() });
    assert!(got.found);
    assert_eq!(got.value, Some(b"v".to_vec()));
    let del = serve_delete(&mut e, &DeleteRequest { key: "k".to_string() });
    assert!(del.success);
    let again = serve_delete(&mut e, &DeleteRequest { key: "k".to_string() });
    assert!(!again.success);
    assert!(!serve_get(&mut e, &GetRequest { key: "k".to_string() }).found);
}

#[test]
fn gossip_from_a_peer_is_merged() {
    let mut cluster = ClusterState::new_at(config(&[]), 1000);
    let msg = GossipMessage {
        from_id: "node-2".to_string(),
        nodes: vec![NodeInfo {
            id: "node-2".to_string(),
            addr: "10.0.0.2:8080".to_string(),
            node_port: 9090,
            status: NodeStatus::Healthy,
            last_seen: u64::MAX,
        }],
        timestamp: 1000,
    };
    assert_eq!(serve_gossip(&mut cluster, msg), 2);
    assert_eq!(cluster.node_address("node-2"), Some("10.0.0.2:8080".to_string()));
}

#[test]
fn ttl_is_the_query_or_the_default() {
    assert_eq!(effective_ttl(&SetQuery { ttl: Some(5) }, 3600), Some(5));
    assert_eq!(effective_ttl(&SetQuery { ttl: None }, 3600), Some(3600));
    assert_eq!(effective_ttl(&SetQuery { ttl: Some(0) }, 3600), Some(0));
}

#[test]
fn get_result_shows_the_bytes_as_text() {
    let r = get_result("my-key".to_string(), &value("my-value"), "node-3".to_string());
    assert_eq!(r.key, "my-key");
    assert_eq!(r.value, "my-value");
    assert_eq!(r.expires_at_unix, Some(1_700_000_300));
    assert_eq!(r.created_at_unix, 1_700_000_000);
    assert_eq!(r.served_by, "node-3");
}

#[test]
fn get_result_replaces_invalid_utf8() {
    let v = CacheValue::new_at(vec![0xff, b'a'], None, 1);
    let r = get_result("k".to_string(), &v, "n".to_string());
    assert_eq!(r.value, "\u{fffd}a");
}

#[test]
fn local_get_of_a_missing_key_is_not_found() {
    let mut e = StorageEngine::new(config(&[]));
    assert!(matches!(local_get(&mut e, "k"), Err(s) if s == STATUS_NOT_FOUND));
    e.set("k".to_string(), CacheValue::new(b"v".to_vec(), None));
    assert_eq!(local_get(&mut e, "k").unwrap().data, b"v".to_vec());
}

#[test]
fn local_delete_reports_whether_the_key_was_there() {
    let mut e = StorageEngine::new(config(&[]));
    e.set("k".to_string(), value("v"));
    let d = local_delete(&mut e, "k".to_string());
    assert_eq!(d.key, "k");
    assert!(d.deleted);
    assert!(!local_delete(&mut e, "k".to_string()).deleted);
}

#[test]
fn cluster_info_lists_the_cluster() {
    let cfg = config(&["10.0.0.2:8080"]);
    let cluster = ClusterState::new_at(cfg.clone(), 1000);
    let mut e = StorageEngine::new(cfg.clone());
    e.set("a".to_string(), value("1"));
    let info = cluster_info(&cfg, &cluster, &e);
    assert_eq!(info.node_id, "node-1");
    assert_eq!(info.nodes.len(), 2);
    assert_eq!(info.total_entries, 1);
}

#[test]
fn replication_targets_are_the_other_replicas_with_addresses() {
    let cfg = config(&["10.0.0.2:8080", "10.0.0.3:8080"]);
    let router = SmartRouter::new(cfg.clone());
    let cluster = ClusterState::new_at(cfg, 1000);
    for i in 0..20 {
        let key = format!("k{}", i);
        let targets = replication_targets(&router, &cluster, "node-1", &key);
        assert_eq!(targets.len(), 2);
        for (id, addr) in &targets {
            assert_ne!(id, "node-1");
            assert_eq!(Some(addr.clone()), cluster.node_address(id));
        }
    }
}

#[test]
fn replication_targets_skip_nodes_without_address() {
    let cfg = config(&[]);
    let mut router = SmartRouter::new(cfg.clone());
    router.add_node("phantom");
    let cluster = ClusterState::new_at(cfg, 1000);
    assert!(replication_targets(&router, &cluster, "node-1", "k").is_empty());
}

#[test]
fn forward_target_is_the_primary_with_its_address() {
    let cfg = config(&["10.0.0.2:8080"]);
    let mut router = SmartRouter::new(cfg.clone());
    let cluster = ClusterState::new_at(cfg, 1000);
    let key = "k1";
    let primary = router.primary_node(key).unwrap();
    let (node, addr) = forward_target(&mut router, &cluster, key).unwrap();
    assert_eq!(node, primary);
    assert_eq!(Some(addr), router.node_address(&cluster, &node));
}

#[test]
fn forward_target_is_unavailable_when_every_breaker_is_open() {
    let cfg = config(&["10.0.0.2:8080"]);
    let mut router = SmartRouter::new(cfg.clone());
    let cluster = ClusterState::new_at(cfg, 1000);
    router.record_failure("node-1");
    router.record_failure("node-10-0-0-2-8080");
    assert!(matches!(forward_target(&mut router, &cluster, "k"), Err(s) if s == STATUS_SERVICE_UNAVAILABLE));
}

#[test]
fn forward_target_is_unavailable_without_an_address() {
    let cfg = config(&[]);
    let mut router = SmartRouter::new(cfg.clone());
    router.remove_node("node-1");
    router.add_node("phantom");
    let cluster = ClusterState::new_at(cfg, 1000);
    assert!(matches!(forward_target(&mut router, &cluster, "k"), Err(s) if s == STATUS_SERVICE_UNAVAILABLE));
}

#[test]
fn forwarded_read_outcomes() {
    let mut router = SmartRouter::new(config(&["10.0.0.2:8080"]));
    let peer = "node-10-0-0-2-8080";
    let v = finish_forward_get(&mut router, peer, Ok(Some(value("x")))).unwrap();
    assert_eq!(v.data, b"x".to_vec());
    assert!(matches!(finish_forward_get(&mut router, peer, Ok(None)), Err(s) if s == STATUS_NOT_FOUND));
    assert!(!router.is_circuit_open(peer));
    let failed = finish_forward_get(&mut router, peer, Err(CacheError::Upstream("down".to_string())));
    assert!(matches!(failed, Err(s) if s == STATUS_BAD_GATEWAY));
    assert!(router.is_circuit_open(peer));
}

#[test]
fn forwarded_write_and_removal_outcomes() {
    let mut router = SmartRouter::new(config(&["10.0.0.2:8080"]));
    let peer = "node-10-0-0-2-8080";
    assert_eq!(finish_forward_set(&mut router, peer, Ok(())), STATUS_OK);
    let d = finish_forward_delete(&mut router, peer, "k", Ok(true)).unwrap();
    assert_eq!(d.key, "k");
    assert!(d.deleted);
    assert_eq!(finish_forward_set(&mut router, peer, Err(CacheError::Upstream("x".to_string()))), STATUS_BAD_GATEWAY);
    assert!(router.is_circuit_open(peer));
    assert!(matches!(
        finish_forward_delete(&mut router, peer, "k", Err(CacheError::Upstream("x".to_string()))),
        Err(s) if s == STATUS_BAD_GATEWAY
    ));
}
