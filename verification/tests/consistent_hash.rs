use distributed_cache::router::consistent_hash::ConsistentHashRing;

fn three_node_ring() -> ConsistentHashRing {
    let mut ring = ConsistentHashRing::new(1);
    ring.add_node("a");
    ring.add_node("b");
    ring.add_node("c");
    ring
}

#[test]
fn empty_ring_has_no_owner() {
    let ring = ConsistentHashRing::new(8);
    assert_eq!(ring.get_node("anything"), None);
    assert!(ring.get_nodes("anything", 3).is_empty());
    assert_eq!(ring.node_count(), 0);
}

#[test]
fn owner_is_first_point_at_or_after_the_key_hash() {
    // Points (first eight bytes of SHA-256, big-endian): a-vnode-0 < c-vnode-0 < b-vnode-0.
    let ring = three_node_ring();
    assert_eq!(ring.get_node("k1"), Some("b"));
    assert_eq!(ring.get_node("k2"), Some("a"));
    assert_eq!(ring.get_node("k3"), Some("c"));
    assert_eq!(ring.get_node("my-key"), Some("c"));
}

#[test]
fn owner_lookup_wraps_past_the_last_point() {
    // "user:42" hashes above every point, so the first point owns it.
    let ring = three_node_ring();
    assert_eq!(ring.get_node("user:42"), Some("a"));
}

#[test]
fn get_nodes_walks_clockwise_over_distinct_nodes() {
    let ring = three_node_ring();
    assert_eq!(ring.get_nodes("k1", 3), vec!["b".to_string(), "a".to_string(), "c".to_string()]);
    assert_eq!(ring.get_nodes("k1", 2), vec!["b".to_string(), "a".to_string()]);
    assert_eq!(ring.get_nodes("k2", 5), vec!["a".to_string(), "c".to_string(), "b".to_string()]);
}

#[test]
fn get_nodes_with_count_zero_still_gives_the_owner() {
    let ring = three_node_ring();
    assert_eq!(ring.get_nodes("k1", 0), vec!["b".to_string()]);
}

#[test]
fn first_replica_is_the_owner() {
    let mut ring = ConsistentHashRing::new(16);
    for n in ["n1", "n2", "n3", "n4"] {
        ring.add_node(n);
    }
    for i in 0..50 {
        let key = format!("key-{}", i);
        let owner = ring.get_node(&key).unwrap().to_string();
        let nodes = ring.get_nodes(&key, 3);
        assert_eq!(nodes.len(), 3);
        assert_eq!(nodes[0], owner);
        assert!(nodes[0] != nodes[1] && nodes[1] != nodes[2] && nodes[0] != nodes[2]);
    }
}

#[test]
fn single_node_owns_every_key() {
    let mut ring = ConsistentHashRing::new(32);
    ring.add_node("only");
    for key in ["a", "b", "user:1", "", "zzz"] {
        assert_eq!(ring.get_node(key), Some("only"));
    }
    assert_eq!(ring.node_count(), 1);
}

#[test]
fn added_node_owns_its_own_points() {
    let ring = three_node_ring();
    // A key equal to a virtual node's name hashes exactly onto that point.
    assert_eq!(ring.get_node("a-vnode-0"), Some("a"));
    assert_eq!(ring.get_node("b-vnode-0"), Some("b"));
    assert_eq!(ring.get_node("c-vnode-0"), Some("c"));
}

#[test]
fn removed_node_owns_nothing() {
    let mut ring = ConsistentHashRing::new(16);
    ring.add_node("x");
    ring.add_node("y");
    ring.add_node("z");
    ring.remove_node("y");
    assert_eq!(ring.node_count(), 2);
    for i in 0..50 {
        let key = format!("k{}", i);
        assert_ne!(ring.get_node(&key), Some("y"));
        assert!(!ring.get_nodes(&key, 5).contains(&"y".to_string()));
    }
}

#[test]
fn node_count_counts_distinct_nodes() {
    let mut ring = ConsistentHashRing::new(4);
    ring.add_node("a");
    ring.add_node("a");
    ring.add_node("b");
    assert_eq!(ring.node_count(), 2);
}

#[test]
fn adding_a_node_moves_keys_only_to_it() {
    let mut ring = ConsistentHashRing::new(16);
    for n in ["n1", "n2", "n3"] {
        ring.add_node(n);
    }
    let keys: Vec<String> = (0..100).map(|i| format!("key-{}", i)).collect();
    let before: Vec<String> = keys.iter().map(|k| ring.get_node(k).unwrap().to_string()).collect();
    ring.add_node("n4");
    assert_eq!(ring.node_count(), 4);
    for (k, old) in keys.iter().zip(before.iter()) {
        let now = ring.get_node(k).unwrap();
        assert!(now == old || now == "n4");
    }
}

#[test]
fn removing_a_node_just_added_restores_every_owner() {
    let mut ring = ConsistentHashRing::new(16);
    for n in ["n1", "n2", "n3"] {
        ring.add_node(n);
    }
    let keys: Vec<String> = (0..100).map(|i| format!("key-{}", i)).collect();
    let before: Vec<Vec<String>> = keys.iter().map(|k| ring.get_nodes(k, 2)).collect();
    ring.add_node("n4");
    ring.remove_node("n4");
    assert_eq!(ring.node_count(), 3);
    for (k, old) in keys.iter().zip(before.iter()) {
        assert_eq!(&ring.get_nodes(k, 2), old);
    }
}

#[test]
fn fewer_replicas_are_a_prefix_of_more() {
    let mut ring = ConsistentHashRing::new(8);
    for n in ["a", "b", "c", "d"] {
        ring.add_node(n);
    }
    for i in 0..30 {
        let key = format!("k{}", i);
        let two = ring.get_nodes(&key, 2);
        let four = ring.get_nodes(&key, 4);
        assert_eq!(&four[..2], &two[..]);
    }
}
