use distributed_cache::config::Config;
use distributed_cache::storage::engine::{CacheValue, StorageEngine};
use distributed_cache::storage::eviction::eviction_pass_at;

fn config(max_entries: u64) -> Config {
    Config {
        host: "127.0.0.1".to_string(),
        http_port: 8080,
        node_port: 9090,
        node_id: "node-1".to_string(),
        peers: vec![],
        max_entries,
        default_ttl_secs: 3600,
        replication_factor: 2,
        data_dir: "./data".to_string(),
        virtual_nodes: 16,
        gossip_interval_secs: 30,
        heartbeat_interval_secs: 5,
        circuit_breaker_threshold: 5,
        circuit_breaker_timeout_secs: 30,
        snapshot_interval_secs: 60,
        request_timeout_secs: 10,
    }
}

fn value_at(data: &str, ttl: Option<u64>, now: u64) -> CacheValue {
    CacheValue::new_at(data.as_bytes().to_vec(), ttl, now)
}

#[test]
fn value_expiry_is_creation_time_plus_ttl() {
    let v = value_at("x", Some(300), 1_700_000_000);
    assert_eq!(v.created_at_unix, 1_700_000_000);
    assert_eq!(v.expires_at_unix, Some(1_700_000_300));
    let w = value_at("x", None, 1_700_000_000);
    assert_eq!(w.expires_at_unix, None);
}

#[test]
fn value_expiry_holds_at_the_largest_time() {
    let v = value_at("x", Some(10), u64::MAX - 4);
    assert_eq!(v.expires_at_unix, Some(u64::MAX));
    assert!(!v.is_expired_at(u64::MAX - 4));
    let w = value_at("x", Some(u64::MAX), 1_700_000_000);
    assert_eq!(w.expires_at_unix, Some(u64::MAX));
}

#[test]
fn value_expires_when_now_reaches_expiry() {
    let v = value_at("x", Some(10), 100);
    assert!(!v.is_expired_at(109));
    assert!(v.is_expired_at(110));
    assert!(v.is_expired_at(111));
}

#[test]
fn value_without_ttl_never_expires() {
    let v = CacheValue::new(b"forever".to_vec(), None);
    assert!(!v.is_expired());
    assert!(!v.is_expired_at(u64::MAX));
}

#[test]
fn value_created_now_with_ttl() {
    let v = CacheValue::new(b"abc".to_vec(), Some(60));
    assert_eq!(v.data, b"abc".to_vec());
    assert_eq!(v.expires_at_unix, Some(v.created_at_unix + 60));
    assert!(!v.is_expired());
}

#[test]
fn to_bytes_holds_the_data() {
    let v = value_at("payload", None, 1);
    assert_eq!(&v.to_bytes()[..], b"payload");
}

#[test]
fn get_after_set_gives_the_value() {
    let mut e = StorageEngine::new(config(100));
    e.set("k".to_string(), value_at("v1", Some(100), 1000));
    let got = e.get_at("k", 1050).unwrap();
    assert_eq!(got.data, b"v1".to_vec());
    assert_eq!(got.expires_at_unix, Some(1100));
    assert_eq!(e.len(), 1);
}

#[test]
fn get_of_expired_value_removes_it() {
    let mut e = StorageEngine::new(config(100));
    e.set("k".to_string(), value_at("v1", Some(100), 1000));
    assert!(e.get_at("k", 1100).is_none());
    assert!(!e.contains("k"));
    assert_eq!(e.len(), 0);
}

#[test]
fn get_of_missing_key_is_none() {
    let mut e = StorageEngine::new(config(100));
    assert!(e.get_at("nope", 1).is_none());
    assert_eq!(e.len(), 0);
}

#[test]
fn overwrite_does_not_grow_the_count() {
    let mut e = StorageEngine::new(config(100));
    e.set("k".to_string(), value_at("v1", None, 1));
    e.set("k".to_string(), value_at("v2", None, 2));
    assert_eq!(e.len(), 1);
    assert_eq!(e.get_at("k", 3).unwrap().data, b"v2".to_vec());
}

#[test]
fn delete_then_get_finds_nothing() {
    let mut e = StorageEngine::new(config(100));
    e.set("k".to_string(), value_at("v", None, 1));
    assert!(e.delete("k"));
    assert!(!e.delete("k"));
    assert!(e.get_at("k", 2).is_none());
    assert_eq!(e.len(), 0);
}

#[test]
fn evict_expired_removes_only_expired_entries() {
    let mut e = StorageEngine::new(config(100));
    e.set("old1".to_string(), value_at("a", Some(10), 100));
    e.set("old2".to_string(), value_at("b", Some(20), 100));
    e.set("live".to_string(), value_at("c", Some(1000), 100));
    e.set("forever".to_string(), value_at("d", None, 100));
    assert_eq!(e.evict_expired_at(120), 2);
    assert_eq!(e.len(), 2);
    assert!(e.contains("live"));
    assert!(e.contains("forever"));
    assert!(!e.contains("old1"));
    assert_eq!(e.evict_expired_at(120), 0);
}

#[test]
fn evict_lfu_removes_least_used_first() {
    let mut e = StorageEngine::new(config(100));
    e.set("hot".to_string(), value_at("a", None, 1));
    e.set("warm".to_string(), value_at("b", None, 1));
    e.set("cold".to_string(), value_at("c", None, 1));
    for _ in 0..3 {
        e.get_at("hot", 2);
    }
    e.get_at("warm", 2);
    assert_eq!(e.evict_lfu(1), 1);
    assert!(!e.contains("cold"));
    assert_eq!(e.evict_lfu(1), 1);
    assert!(!e.contains("warm"));
    assert!(e.contains("hot"));
    assert_eq!(e.len(), 1);
}

#[test]
fn evict_lru_removes_the_least_recently_used() {
    let mut e = StorageEngine::new(config(100));
    e.set("a".to_string(), value_at("1", None, 1));
    e.set("b".to_string(), value_at("2", None, 1));
    e.set("c".to_string(), value_at("3", None, 1));
    e.get_at("a", 2);
    assert_eq!(e.evict_lru(1), 1);
    assert!(!e.contains("b"));
    assert_eq!(e.evict_lru(1), 1);
    assert!(!e.contains("c"));
    assert!(e.contains("a"));
}

#[test]
fn a_rewrite_counts_as_the_latest_use() {
    let mut e = StorageEngine::new(config(100));
    e.set("a".to_string(), value_at("1", None, 1));
    e.set("b".to_string(), value_at("2", None, 1));
    e.set("a".to_string(), value_at("3", None, 1));
    assert_eq!(e.evict_lru(1), 1);
    assert!(!e.contains("b"));
    assert!(e.contains("a"));
}

#[test]
fn evict_lru_removes_the_number_asked() {
    let mut e = StorageEngine::new(config(100));
    for i in 0..5 {
        e.set(format!("k{}", i), value_at("v", None, 1));
    }
    assert_eq!(e.evict_lru(2), 2);
    assert_eq!(e.len(), 3);
    assert_eq!(e.evict_lru(10), 3);
    assert_eq!(e.len(), 0);
    assert_eq!(e.evict_lru(1), 0);
}

#[test]
fn restore_does_not_recount_a_stored_key() {
    let mut e = StorageEngine::new(config(100));
    e.set("k".to_string(), value_at("old", None, 1));
    e.restore_entries_at(vec![("k".to_string(), value_at("new", None, 5)), ("j".to_string(), value_at("x", None, 5))], 10);
    assert_eq!(e.len(), 2);
    assert_eq!(e.get_at("k", 11).unwrap().data, b"new".to_vec());
}

#[test]
fn snapshot_then_restore_gives_back_live_values() {
    let mut e = StorageEngine::new(config(100));
    e.set("a".to_string(), value_at("1", None, 100));
    e.set("b".to_string(), value_at("2", Some(50), 100));
    e.set("gone".to_string(), value_at("3", Some(5), 100));
    let snap = e.snapshot_entries_at(120);
    assert_eq!(snap.len(), 2);
    let mut f = StorageEngine::new(config(100));
    f.restore_entries_at(snap, 120);
    assert_eq!(f.len(), 2);
    assert_eq!(f.get_at("a", 121).unwrap().data, b"1".to_vec());
    assert_eq!(f.get_at("b", 121).unwrap().data, b"2".to_vec());
    assert!(!f.contains("gone"));
}

#[test]
fn restore_skips_expired_items_and_counts_each_key_once() {
    let mut e = StorageEngine::new(config(100));
    let items = vec![
        ("a".to_string(), value_at("1", None, 10)),
        ("a".to_string(), value_at("2", None, 10)),
        ("old".to_string(), value_at("3", Some(1), 10)),
    ];
    e.restore_entries_at(items, 20);
    assert_eq!(e.len(), 1);
    assert_eq!(e.get_at("a", 21).unwrap().data, b"2".to_vec());
    assert!(!e.contains("old"));
}

#[test]
fn eviction_pass_brings_the_store_within_its_limit() {
    let mut e = StorageEngine::new(config(10));
    for i in 0..3 {
        e.set(format!("exp{}", i), value_at("x", Some(5), 100));
    }
    for i in 0..12 {
        e.set(format!("live{}", i), value_at("x", None, 100));
    }
    let (expired, evicted) = eviction_pass_at(&mut e, 200);
    assert_eq!(expired, 3);
    assert_eq!(evicted, 3);
    assert_eq!(e.len(), 9);
    assert!(e.len() <= e.max_entries());
}

#[test]
fn eviction_pass_within_the_limit_only_expires() {
    let mut e = StorageEngine::new(config(10));
    e.set("a".to_string(), value_at("x", Some(5), 100));
    e.set("b".to_string(), value_at("x", None, 100));
    assert_eq!(eviction_pass_at(&mut e, 200), (1, 0));
    assert_eq!(e.len(), 1);
}
