use distributed_cache::cluster::gossip::{
    gossip_message, gossip_message_at, gossip_targets_from, heartbeat_targets, peer_addresses, record_gossip_sent,
    record_health_check, select_gossip_targets,
};
use distributed_cache::cluster::{ClusterState, NodeInfo, NodeStatus};
use distributed_cache::config::Config;

fn config(peers: &[&str]) -> Config {
    Config {
        host: "127.0.0.1".to_string(),
        http_port: 8080,
        node_port: 9090,
        node_id: "node-1".to_string(),
        peers: peers.iter().map(|p| p.to_string()).collect(),
        max_entries: 1000,
        default_ttl_secs: 3600,
        replication_factor: 2,
        data_dir: "./data".to_string(),
        virtual_nodes: 16,
        gossip_interval_secs: 30,
        heartbeat_interval_secs: 5,
        circuit_breaker_threshold: 5,
        circuit_breaker_timeout_secs: 30,
        snapshot_interval_secs: 60,
        request_timeout_secs: 10,
    }
}

fn node(id: &str, addr: &str, status: NodeStatus, last_seen: u64) -> NodeInfo {
    NodeInfo { id: id.to_string(), addr: addr.to_string(), node_port: 9091, status, last_seen }
}

fn find(state: &ClusterState, id: &str) -> NodeInfo {
    state.all_nodes().into_iter().find(|n| n.id == id).unwrap()
}

#[test]
fn internal_addr_replaces_the_port() {
    let n = node("n", "10.0.0.7:8081", NodeStatus::Unknown, 0);
    assert_eq!(n.internal_addr(), "10.0.0.7:9091");
    let bare = node("n", "hostname", NodeStatus::Unknown, 0);
    assert_eq!(bare.internal_addr(), "hostname:9091");
}

#[test]
fn a_new_state_knows_itself_and_its_peers() {
    let state = ClusterState::new_at(config(&["127.0.0.1:8081", "127.0.0.1:8082"]), 1000);
    assert_eq!(state.node_count(), 3);
    let me = find(&state, "node-1");
    assert_eq!(me.addr, "127.0.0.1:8080");
    assert_eq!(me.status, NodeStatus::Healthy);
    assert_eq!(me.last_seen, 1000);
    let peer = find(&state, "node-127-0-0-1-8081");
    assert_eq!(peer.addr, "127.0.0.1:8081");
    assert_eq!(peer.status, NodeStatus::Unknown);
    assert_eq!(peer.last_seen, 0);
    assert_eq!(peer.node_port, 9090);
    assert_eq!(state.node_address("node-127-0-0-1-8082"), Some("127.0.0.1:8082".to_string()));
    assert_eq!(state.node_address("nobody"), None);
}

#[test]
fn merge_keeps_the_most_recent_sighting() {
    let mut state = ClusterState::new_at(config(&["127.0.0.1:8081"]), 1000);
    let id = "node-127-0-0-1-8081";
    state.merge_gossip_at(vec![node(id, "elsewhere:1", NodeStatus::Healthy, 990)], 1000);
    let n = find(&state, id);
    assert_eq!(n.status, NodeStatus::Healthy);
    assert_eq!(n.last_seen, 990);
    assert_eq!(n.addr, "127.0.0.1:8081");
    state.merge_gossip_at(vec![node(id, "x:1", NodeStatus::Unhealthy, 980)], 1000);
    let n = find(&state, id);
    assert_eq!(n.status, NodeStatus::Healthy);
    assert_eq!(n.last_seen, 990);
}

#[test]
fn merge_adds_unknown_nodes_and_ignores_records_about_itself() {
    let mut state = ClusterState::new_at(config(&[]), 1000);
    state.merge_gossip_at(
        vec![
            node("node-9", "10.0.0.9:8080", NodeStatus::Healthy, 999),
            node("node-1", "fake:1", NodeStatus::Unhealthy, 5000),
        ],
        1000,
    );
    assert_eq!(state.node_count(), 2);
    assert_eq!(find(&state, "node-9").addr, "10.0.0.9:8080");
    let me = find(&state, "node-1");
    assert_eq!(me.status, NodeStatus::Healthy);
    assert_eq!(me.addr, "127.0.0.1:8080");
}

#[test]
fn merge_marks_stale_nodes_unhealthy() {
    // Stale after 3 x 5 s without a sighting.
    let mut state = ClusterState::new_at(config(&[]), 1000);
    state.merge_gossip_at(
        vec![
            node("recent", "r:1", NodeStatus::Healthy, 990),
            node("old", "o:1", NodeStatus::Healthy, 980),
            node("never", "n:1", NodeStatus::Healthy, 0),
        ],
        1000,
    );
    assert_eq!(find(&state, "recent").status, NodeStatus::Healthy);
    assert_eq!(find(&state, "old").status, NodeStatus::Unhealthy);
    assert_eq!(find(&state, "never").status, NodeStatus::Healthy);
    assert_eq!(find(&state, "node-1").status, NodeStatus::Healthy);
}

#[test]
fn a_sighting_after_now_is_not_stale() {
    let mut state = ClusterState::new_at(config(&[]), 1000);
    state.merge_gossip_at(vec![node("ahead", "a:1", NodeStatus::Healthy, 5000)], 1000);
    assert_eq!(find(&state, "ahead").status, NodeStatus::Healthy);
}

#[test]
fn merge_at_exactly_the_threshold_is_not_stale() {
    let mut state = ClusterState::new_at(config(&[]), 1000);
    state.merge_gossip_at(vec![node("edge", "e:1", NodeStatus::Healthy, 985)], 1000);
    assert_eq!(find(&state, "edge").status, NodeStatus::Healthy);
}

#[test]
fn healthy_nodes_lists_only_healthy_ones() {
    let mut state = ClusterState::new_at(config(&["127.0.0.1:8081", "127.0.0.1:8082"]), 1000);
    state.mark_healthy_at("node-127-0-0-1-8081", 1001);
    let healthy = state.healthy_nodes();
    assert_eq!(healthy.len(), 2);
    assert!(healthy.iter().all(|n| n.status == NodeStatus::Healthy));
    assert_eq!(find(&state, "node-127-0-0-1-8081").last_seen, 1001);
}

#[test]
fn marking_and_sighting_unknown_nodes_changes_nothing() {
    let mut state = ClusterState::new_at(config(&[]), 1000);
    state.mark_healthy_at("ghost", 5);
    state.mark_unhealthy("ghost");
    state.update_last_seen_at("ghost", 5);
    assert_eq!(state.node_count(), 1);
}

#[test]
fn mark_unhealthy_and_update_last_seen() {
    let mut state = ClusterState::new_at(config(&["127.0.0.1:8081"]), 1000);
    let id = "node-127-0-0-1-8081";
    state.mark_unhealthy(id);
    assert_eq!(find(&state, id).status, NodeStatus::Unhealthy);
    state.update_last_seen_at(id, 1234);
    let n = find(&state, id);
    assert_eq!(n.last_seen, 1234);
    assert_eq!(n.status, NodeStatus::Unhealthy);
}

#[test]
fn upsert_replaces_the_record() {
    let mut state = ClusterState::new_at(config(&[]), 1000);
    state.upsert_node(node("n2", "a:1", NodeStatus::Healthy, 7));
    state.upsert_node(node("n2", "b:2", NodeStatus::Unknown, 8));
    assert_eq!(state.node_count(), 2);
    assert_eq!(find(&state, "n2").addr, "b:2");
}

#[test]
fn gossip_reaches_half_the_peers() {
    let state = ClusterState::new_at(
        config(&["10.0.0.1:1", "10.0.0.2:1", "10.0.0.3:1", "10.0.0.4:1"]),
        1000,
    );
    let targets = select_gossip_targets(&state, "node-1");
    assert_eq!(targets.len(), 2);
    assert_ne!(targets[0], targets[1]);
    for t in &targets {
        assert!(t.starts_with("10.0.0."));
    }
}

#[test]
fn gossip_reaches_the_only_peer_and_nobody_when_alone() {
    let one = ClusterState::new_at(config(&["10.0.0.1:1"]), 1000);
    assert_eq!(select_gossip_targets(&one, "node-1"), vec!["10.0.0.1:1".to_string()]);
    let alone = ClusterState::new_at(config(&[]), 1000);
    assert!(select_gossip_targets(&alone, "node-1").is_empty());
}

#[test]
fn gossip_message_carries_everything_known() {
    let state = ClusterState::new_at(config(&["10.0.0.1:1"]), 1000);
    let msg = gossip_message(&state, "node-1");
    assert_eq!(msg.from_id, "node-1");
    assert_eq!(msg.nodes.len(), 2);
    let at = gossip_message_at(&state, "node-1", 4242);
    assert_eq!(at.timestamp, 4242);
    assert_eq!(at.nodes.len(), 2);
}

#[test]
fn heartbeat_checks_every_other_node() {
    let state = ClusterState::new_at(config(&["10.0.0.1:1", "10.0.0.2:1"]), 1000);
    let targets = heartbeat_targets(&state, "node-1");
    assert_eq!(targets.len(), 2);
    assert!(targets.iter().all(|n| n.id != "node-1"));
}

#[test]
fn health_check_verdicts() {
    let mut state = ClusterState::new_at(config(&["10.0.0.1:1"]), 1000);
    let id = "node-10-0-0-1-1";
    record_health_check(&mut state, id, true);
    assert_eq!(find(&state, id).status, NodeStatus::Healthy);
    assert!(find(&state, id).last_seen > 0);
    record_health_check(&mut state, id, false);
    assert_eq!(find(&state, id).status, NodeStatus::Unhealthy);
}

#[test]
fn peer_addresses_list_every_other_node_once() {
    let state = ClusterState::new_at(config(&["10.0.0.1:1", "10.0.0.2:1", "10.0.0.3:1"]), 1000);
    let mut peers = peer_addresses(&state, "node-1");
    peers.sort();
    assert_eq!(peers, vec!["10.0.0.1:1".to_string(), "10.0.0.2:1".to_string(), "10.0.0.3:1".to_string()]);
}

#[test]
fn gossip_targets_are_the_peers_at_the_drawn_positions() {
    let peers: Vec<String> = vec!["a:1".to_string(), "b:1".to_string(), "c:1".to_string(), "d:1".to_string()];
    assert_eq!(gossip_targets_from(&peers, &vec![2, 0]), vec!["c:1".to_string(), "a:1".to_string()]);
    assert!(gossip_targets_from(&peers, &vec![]).is_empty());
}

#[test]
fn a_delivered_gossip_marks_this_node_seen() {
    let mut state = ClusterState::new_at(config(&[]), 5);
    record_gossip_sent(&mut state, "node-1", false);
    assert_eq!(find(&state, "node-1").last_seen, 5);
    record_gossip_sent(&mut state, "node-1", true);
    assert!(find(&state, "node-1").last_seen > 5);
}
