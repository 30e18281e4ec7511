use rust_ai_runtime::history::{
    current_unix_timestamp, id_of_millis, next_history_id, seconds_of_millis, HistoryRecord, HistoryStore,
};

fn rec(id: u64, timestamp: u64) -> HistoryRecord {
    HistoryRecord::with_timestamp(id, timestamp, "m".to_string(), "p".to_string(), "r".to_string(), 1)
}

fn ids(records: &[HistoryRecord]) -> Vec<u64> {
    records.iter().map(|r| r.id).collect()
}

#[test]
fn list_is_newest_first() {
    let records = vec![rec(1, 30), rec(2, 10), rec(3, 20)];
    assert_eq!(ids(&HistoryStore::list(records, 10)), vec![1, 3, 2]);
}

#[test]
fn list_keeps_at_most_limit() {
    let records = vec![rec(1, 30), rec(2, 10), rec(3, 20)];
    assert_eq!(ids(&HistoryStore::list(records.clone(), 2)), vec![1, 3]);
    assert!(HistoryStore::list(records, 0).is_empty());
}

#[test]
fn equal_timestamps_put_later_records_first() {
    let records = vec![rec(1, 5), rec(2, 5), rec(3, 7), rec(4, 5)];
    assert_eq!(ids(&HistoryStore::list(records, 10)), vec![3, 4, 2, 1]);
}

#[test]
fn list_of_nothing_is_empty() {
    assert!(HistoryStore::list(Vec::new(), 3).is_empty());
}

#[test]
fn append_adds_at_the_end() {
    let mut records = vec![rec(1, 1)];
    HistoryStore::append(&mut records, rec(2, 0));
    assert_eq!(ids(&records), vec![1, 2]);
}

#[test]
fn store_keeps_its_path() {
    let store = HistoryStore::new("history/history.json".to_string());
    assert_eq!(store.path(), "history/history.json");
}

#[test]
fn new_records_are_stamped_now() {
    let before = current_unix_timestamp();
    let r = HistoryRecord::new(9, "m".to_string(), "p".to_string(), "r".to_string(), 3);
    let after = current_unix_timestamp();
    assert!(before <= r.timestamp && r.timestamp <= after);
    assert!(before > 1_600_000_000);
    assert_eq!(r.id, 9);
    assert_eq!(r.elapsed_ms, 3);
    let id = next_history_id();
    assert!(id / 1000 >= before);
}

#[test]
fn appended_newest_record_comes_first() {
    let mut records = vec![rec(1, 50), rec(2, 70), rec(3, 70)];
    HistoryStore::append(&mut records, rec(4, 70));
    let listed = HistoryStore::list(records, 1);
    assert_eq!(ids(&listed), vec![4]);
}

#[test]
fn large_limit_lists_every_record() {
    let records = vec![rec(1, 3), rec(2, 1), rec(3, 2), rec(4, 3)];
    let mut listed = ids(&HistoryStore::list(records, 100));
    assert_eq!(listed, vec![4, 1, 3, 2]);
    listed.sort();
    assert_eq!(listed, vec![1, 2, 3, 4]);
}

#[test]
fn clock_readings_to_seconds_and_ids() {
    assert_eq!(seconds_of_millis(1_700_000_123_999), 1_700_000_123);
    assert_eq!(seconds_of_millis(999), 0);
    assert_eq!(id_of_millis(1_700_000_123_999), 1_700_000_123_999);
    assert_eq!(id_of_millis((1u128 << 64) + 5), 5);
}
