use distributed_cache::config::Config;
use distributed_cache::persistence::wal::{
    encode_record, read_frame, read_records, replay_entries, replayable_entries, wal_header, WalEntry, WalFrame, WalStop,
    RECORDS_START,
};
use distributed_cache::storage::engine::StorageEngine;

fn config() -> Config {
    Config {
        host: "127.0.0.1".to_string(),
        http_port: 8080,
        node_port: 9090,
        node_id: "node-1".to_string(),
        peers: vec![],
        max_entries: 1000,
        default_ttl_secs: 3600,
        replication_factor: 2,
        data_dir: "./data".to_string(),
        virtual_nodes: 16,
        gossip_interval_secs: 30,
        heartbeat_interval_secs: 5,
        circuit_breaker_threshold: 5,
        circuit_breaker_timeout_secs: 30,
        snapshot_interval_secs: 60,
        request_timeout_secs: 10,
    }
}

fn log_of(records: &[&[u8]]) -> Vec<u8> {
    let mut log = wal_header();
    for r in records {
        log.extend(encode_record(r));
    }
    log
}

#[test]
fn header_is_magic_and_version() {
    assert_eq!(wal_header(), b"DCWL\x01".to_vec());
    assert_eq!(RECORDS_START, 5);
}

#[test]
fn record_is_checksum_length_then_data() {
    // CRC-32 (IEEE) of "hello" is 0x3610a686.
    let r = encode_record(b"hello");
    assert_eq!(r, vec![0x86, 0xa6, 0x10, 0x36, 5, 0, 0, 0, b'h', b'e', b'l', b'l', b'o']);
    let empty = encode_record(b"");
    assert_eq!(empty, vec![0, 0, 0, 0, 0, 0, 0, 0]);
}

#[test]
fn log_reads_back_what_was_written() {
    let log = log_of(&[b"hello", b"", b"abc"]);
    let (records, stop) = read_records(&log);
    assert_eq!(records, vec![b"hello".to_vec(), Vec::new(), b"abc".to_vec()]);
    assert!(matches!(stop, WalStop::End));
}

#[test]
fn empty_log_reads_nothing() {
    let (records, stop) = read_records(&wal_header());
    assert!(records.is_empty());
    assert!(matches!(stop, WalStop::End));
    let (records, stop) = read_records(&[]);
    assert!(records.is_empty());
    assert!(matches!(stop, WalStop::End));
}

#[test]
fn reading_stops_at_a_corrupt_record() {
    let mut log = log_of(&[b"first", b"second", b"third"]);
    let second_data = 5 + 8 + 5 + 8;
    log[second_data] ^= 0xff;
    let (records, stop) = read_records(&log);
    assert_eq!(records, vec![b"first".to_vec()]);
    assert!(matches!(stop, WalStop::Corrupt));
}

#[test]
fn reading_fails_at_a_record_cut_short() {
    let mut log = log_of(&[b"first", b"second"]);
    log.pop();
    let (records, stop) = read_records(&log);
    assert_eq!(records, vec![b"first".to_vec()]);
    assert!(matches!(stop, WalStop::Truncated));
}

#[test]
fn a_partial_length_field_is_a_record_cut_short() {
    let mut log = wal_header();
    log.extend([1, 2, 3, 4, 5, 6]);
    assert!(matches!(read_frame(&log, 5), WalFrame::Truncated));
    let (_, stop) = read_records(&log);
    assert!(matches!(stop, WalStop::Truncated));
}

#[test]
fn fewer_than_four_trailing_bytes_end_the_log() {
    let mut log = log_of(&[b"x"]);
    log.extend([9, 9, 9]);
    let (records, stop) = read_records(&log);
    assert_eq!(records, vec![b"x".to_vec()]);
    assert!(matches!(stop, WalStop::End));
}

#[test]
fn read_frame_gives_the_data_and_next_position() {
    let log = log_of(&[b"abc", b"de"]);
    match read_frame(&log, 5) {
        WalFrame::Record { data, next } => {
            assert_eq!(data, b"abc".to_vec());
            assert_eq!(next, 16);
        }
        _ => panic!("expected a record"),
    }
}

fn put(key: &str, value: &str, ttl: Option<u64>) -> WalEntry {
    WalEntry::Put { key: key.to_string(), value: value.as_bytes().to_vec(), ttl_secs: ttl }
}

#[test]
fn replayable_entries_stop_at_the_first_undecodable_record() {
    let decoded = vec![Some(put("a", "1", None)), None, Some(put("b", "2", None))];
    let entries = replayable_entries(decoded, WalStop::Truncated).unwrap();
    assert_eq!(entries.len(), 1);
}

#[test]
fn replayable_entries_fail_on_a_cut_log_fully_decoded() {
    let decoded = vec![Some(put("a", "1", None)), Some(WalEntry::Delete { key: "a".to_string() })];
    assert!(replayable_entries(decoded, WalStop::Truncated).is_none());
}

#[test]
fn replayable_entries_keep_all_when_the_log_ends_cleanly() {
    let decoded = vec![Some(put("a", "1", None)), Some(WalEntry::Checkpoint { timestamp: 7 })];
    assert_eq!(replayable_entries(decoded, WalStop::End).unwrap().len(), 2);
    let decoded = vec![Some(put("a", "1", None))];
    assert_eq!(replayable_entries(decoded, WalStop::Corrupt).unwrap().len(), 1);
    assert_eq!(replayable_entries(vec![], WalStop::End).unwrap().len(), 0);
}

#[test]
fn replay_applies_entries_in_order() {
    let mut engine = StorageEngine::new(config());
    let entries = vec![
        put("a", "1", None),
        put("b", "2", Some(3600)),
        WalEntry::Checkpoint { timestamp: 5 },
        put("a", "3", None),
        WalEntry::Delete { key: "b".to_string() },
        WalEntry::Delete { key: "missing".to_string() },
    ];
    assert_eq!(replay_entries(&mut engine, entries), 6);
    assert_eq!(engine.len(), 1);
    assert_eq!(engine.get("a").unwrap().data, b"3".to_vec());
    assert!(!engine.contains("b"));
}
