use distributed_cache::persistence::snapshot::{is_snapshot_name, latest_snapshot, name_less, snapshot_file_name, snapshots_to_remove};

fn names(v: &[&str]) -> Vec<String> {
    v.iter().map(|s| s.to_string()).collect()
}

#[test]
fn snapshot_file_name_holds_the_time() {
    assert_eq!(snapshot_file_name(1_700_000_000), "snapshot-1700000000.bin");
    assert_eq!(snapshot_file_name(0), "snapshot-0.bin");
    assert_eq!(snapshot_file_name(u64::MAX), "snapshot-18446744073709551615.bin");
}

#[test]
fn snapshot_names_are_recognised() {
    assert!(is_snapshot_name(&snapshot_file_name(42)));
    assert!(is_snapshot_name("snapshot-1.bin"));
    assert!(is_snapshot_name("snapshot-.bin"));
    assert!(is_snapshot_name("snapshot-x.tar.bin"));
    assert!(!is_snapshot_name("snapshot-1.bin.bak"));
    assert!(!is_snapshot_name("snapshot-1.json"));
    assert!(!is_snapshot_name("snap-1.bin"));
    assert!(!is_snapshot_name("cache.wal"));
    assert!(!is_snapshot_name("snapshot-"));
    assert!(!is_snapshot_name(""));
}

#[test]
fn names_are_ordered_character_by_character() {
    assert!(name_less("a", "b"));
    assert!(name_less("ab", "abc"));
    assert!(!name_less("abc", "ab"));
    assert!(!name_less("b", "a"));
    assert!(!name_less("same", "same"));
    assert!(name_less("", "x"));
    assert!(name_less("snapshot-100.bin", "snapshot-200.bin"));
}

#[test]
fn latest_snapshot_is_the_greatest_snapshot_name() {
    let dir = names(&["cache.wal", "snapshot-100.bin", "snapshot-300.bin", "snapshot-200.bin", "zzz.bin"]);
    assert_eq!(latest_snapshot(&dir), Some(2));
}

#[test]
fn latest_snapshot_of_a_directory_without_snapshots_is_none() {
    assert_eq!(latest_snapshot(&names(&["cache.wal", "cache.wal.17"])), None);
    assert_eq!(latest_snapshot(&Vec::new()), None);
}

#[test]
fn latest_snapshot_goes_by_name_not_by_number() {
    let dir = names(&["snapshot-100.bin", "snapshot-99.bin"]);
    assert_eq!(latest_snapshot(&dir), Some(1));
}

#[test]
fn cleanup_removes_all_but_the_three_latest() {
    let dir = names(&[
        "snapshot-500.bin",
        "cache.wal",
        "snapshot-100.bin",
        "snapshot-400.bin",
        "snapshot-200.bin",
        "snapshot-300.bin",
    ]);
    assert_eq!(snapshots_to_remove(&dir, 3), vec![2, 4]);
}

#[test]
fn cleanup_with_few_snapshots_removes_nothing() {
    let dir = names(&["snapshot-1.bin", "snapshot-2.bin", "other.bin"]);
    assert!(snapshots_to_remove(&dir, 3).is_empty());
}

#[test]
fn cleanup_never_removes_the_latest_snapshot() {
    let dir = names(&["snapshot-3.bin", "snapshot-1.bin", "snapshot-2.bin"]);
    let latest = latest_snapshot(&dir).unwrap();
    assert!(!snapshots_to_remove(&dir, 1).contains(&latest));
    assert_eq!(snapshots_to_remove(&dir, 1), vec![1, 2]);
}

#[test]
fn cleanup_keeping_none_removes_every_snapshot() {
    let dir = names(&["snapshot-1.bin", "x.txt", "snapshot-2.bin"]);
    assert_eq!(snapshots_to_remove(&dir, 0), vec![0, 2]);
}
