//! Single requests to the store, the table, the lock encoding and the oracle.

use percolator::bytes::{relate_bytes, Relation};
use percolator::cell::{Column, Value};
use percolator::error::{text_contains, Error, ErrorKind};
use percolator::lock::{decode_lock, encode_lock};
use percolator::msg::{
    CommitRequest, GetRequest, PessimisticLockRequest, PrewriteRequest, RollbackRequest,
    TimestampRequest,
};
use percolator::oracle::TimestampOracle;
use percolator::storage::{MemoryStorage, TTL};
use percolator::table::KvTable;

fn get(s: &mut MemoryStorage, key: &[u8], start_ts: u64) -> Result<Vec<u8>, String> {
    s.get(GetRequest { key: key.to_vec(), start_ts }).map(|r| r.value).map_err(|e| e.message)
}

fn prewrite(
    s: &mut MemoryStorage,
    key: &[u8],
    value: &[u8],
    start_ts: u64,
    primary: &[u8],
) -> Result<(), String> {
    s.prewrite(PrewriteRequest {
        key: key.to_vec(),
        value: value.to_vec(),
        start_ts,
        primary: primary.to_vec(),
    })
    .map(|_| ())
    .map_err(|e| e.message)
}

fn lock(
    s: &mut MemoryStorage,
    key: &[u8],
    start_ts: u64,
    for_update_ts: u64,
    primary: &[u8],
) -> Result<(), String> {
    s.pessimistic_lock(PessimisticLockRequest {
        key: key.to_vec(),
        start_ts,
        for_update_ts,
        primary: primary.to_vec(),
    })
    .map(|_| ())
    .map_err(|e| e.message)
}

fn commit(s: &mut MemoryStorage, key: &[u8], start_ts: u64, commit_ts: u64) -> bool {
    s.commit(CommitRequest { key: key.to_vec(), value: vec![], start_ts, commit_ts }).unwrap().ok
}

fn rollback(s: &mut MemoryStorage, key: &[u8], start_ts: u64) {
    s.rollback(RollbackRequest { key: key.to_vec(), start_ts }).unwrap();
}

#[test]
fn lock_encoding_round_trip() {
    let cell = encode_lock(b"pk", true);
    assert!(cell == Value::Vector(vec![1, b'p', b'k']));
    assert_eq!(decode_lock(&cell), Some((b"pk".to_vec(), true)));
    let cell = encode_lock(b"", false);
    assert!(cell == Value::Vector(vec![0]));
    assert_eq!(decode_lock(&cell), Some((vec![], false)));
    assert_eq!(decode_lock(&Value::Vector(vec![])), None);
    assert_eq!(decode_lock(&Value::Timestamp(3)), None);
    assert_eq!(decode_lock(&Value::Vector(vec![2, 9])), Some((vec![9], false)));
}

#[test]
fn byte_strings_sort_lexicographically() {
    let rel = |a: &[u8], b: &[u8]| relate_bytes(&a.to_vec(), &b.to_vec());
    assert_eq!(rel(b"", b""), Relation::Same);
    assert_eq!(rel(b"", b"a"), Relation::Before);
    assert_eq!(rel(b"ab", b"a"), Relation::After);
    assert_eq!(rel(b"abc", b"abd"), Relation::Before);
    assert_eq!(rel(b"\xff", b"a\xff"), Relation::After);
}

#[test]
fn table_reads_the_latest_version_in_range() {
    let mut table = KvTable::default();
    for ts in [5u64, 1, 9, 3] {
        table.write(b"k".to_vec(), Column::Write, ts, Value::Timestamp(ts * 10));
        table.write(b"j".to_vec(), Column::Write, ts + 100, Value::Timestamp(0));
        table.write(b"kk".to_vec(), Column::Write, ts + 100, Value::Timestamp(0));
    }
    let read = |lo, hi| {
        table.read(b"k".to_vec(), Column::Write, lo, hi).map(|(row, value)| (row.1, value.clone()))
    };
    assert!(read(None, None) == Some((9, Value::Timestamp(90))));
    assert!(read(None, Some(8)) == Some((5, Value::Timestamp(50))));
    assert!(read(None, Some(5)) == Some((5, Value::Timestamp(50))));
    assert!(read(Some(2), Some(4)) == Some((3, Value::Timestamp(30))));
    assert!(read(Some(6), Some(8)).is_none());
    assert!(read(Some(10), None).is_none());
    assert!(read(None, Some(0)).is_none());
    assert!(table.read(b"k".to_vec(), Column::Data, None, None).is_none());
}

#[test]
fn table_overwrites_and_erases() {
    let mut table = KvTable::default();
    table.write(b"k".to_vec(), Column::Data, 1, Value::Vector(vec![1]));
    table.write(b"k".to_vec(), Column::Data, 1, Value::Vector(vec![2]));
    let copy = table.clone();
    table.erase(b"k".to_vec(), Column::Data, 2);
    assert!(table.read(b"k".to_vec(), Column::Data, None, None).is_some());
    table.erase(b"k".to_vec(), Column::Data, 1);
    assert!(table.read(b"k".to_vec(), Column::Data, None, None).is_none());
    let (row, value) = copy.read(b"k".to_vec(), Column::Data, None, None).unwrap();
    assert_eq!(*row, (b"k".to_vec(), 1));
    assert!(*value == Value::Vector(vec![2]));
}

#[test]
fn table_finds_the_earliest_commit_of_data() {
    let mut table = KvTable::default();
    table.write(b"k".to_vec(), Column::Write, 8, Value::Timestamp(4));
    table.write(b"k".to_vec(), Column::Write, 6, Value::Timestamp(4));
    table.write(b"k".to_vec(), Column::Write, 5, Value::Timestamp(3));
    table.write(b"j".to_vec(), Column::Write, 1, Value::Timestamp(4));
    table.write(b"k".to_vec(), Column::Write, 2, Value::Vector(vec![4]));
    assert_eq!(table.find_write_commit_ts(b"k", 4), Some(6));
    assert_eq!(table.find_write_commit_ts(b"k", 3), Some(5));
    assert_eq!(table.find_write_commit_ts(b"k", 9), None);
    assert_eq!(table.find_write_commit_ts(b"l", 4), None);
}

#[test]
fn oracle_follows_the_clock_and_never_goes_back() {
    let mut oracle = TimestampOracle::new();
    assert_eq!(oracle.last_issued(), 0);
    assert_eq!(oracle.issue(Some(100)), 100);
    assert_eq!(oracle.issue(Some(100)), 101);
    assert_eq!(oracle.issue(Some(7)), 102);
    assert_eq!(oracle.issue(None), 103);
    assert_eq!(oracle.issue(Some((1 << 64) + 500)), 500);
    assert_eq!(oracle.last_issued(), 500);
}

#[test]
fn oracle_reads_the_system_clock() {
    let before = std::time::UNIX_EPOCH.elapsed().unwrap().as_nanos() as u64;
    let mut oracle = TimestampOracle::default();
    let first = oracle.get_timestamp(TimestampRequest {}).unwrap().timestamp;
    let after = std::time::UNIX_EPOCH.elapsed().unwrap().as_nanos() as u64;
    assert!(before <= first && first <= after);
    let second = oracle.get_timestamp(TimestampRequest {}).unwrap().timestamp;
    assert!(second > first);
}

#[test]
fn prewrite_commit_get() {
    let mut s = MemoryStorage::default();
    assert_eq!(get(&mut s, b"k", 50), Ok(vec![]));
    prewrite(&mut s, b"k", b"v", 10, b"k").unwrap();
    assert_eq!(get(&mut s, b"k", 50), Err("key is locked".to_string()));
    assert!(commit(&mut s, b"k", 10, 20));
    assert_eq!(get(&mut s, b"k", 19), Ok(vec![]));
    assert_eq!(get(&mut s, b"k", 20), Ok(b"v".to_vec()));
    assert_eq!(get(&mut s, b"k", u64::MAX), Ok(b"v".to_vec()));
    // The transaction is over on this key.
    assert!(!commit(&mut s, b"k", 10, 30));
    rollback(&mut s, b"k", 10);
    assert_eq!(get(&mut s, b"k", 50), Ok(b"v".to_vec()));
}

#[test]
fn prewrite_conflicts() {
    let mut s = MemoryStorage::default();
    prewrite(&mut s, b"k", b"v", 10, b"").unwrap();
    // An empty primary stands for the key; its own prewrite lock is a conflict, too.
    assert_eq!(prewrite(&mut s, b"k", b"v", 10, b"k"), Err("lock conflict".to_string()));
    assert_eq!(prewrite(&mut s, b"k", b"w", 5, b"k"), Err("lock conflict".to_string()));
    assert_eq!(prewrite(&mut s, b"k", b"w", 10 + TTL, b"k"), Err("lock conflict".to_string()));
    assert!(commit(&mut s, b"k", 10, 20));
    assert_eq!(prewrite(&mut s, b"k", b"w", 19, b"k"), Err("write conflict".to_string()));
    assert_eq!(prewrite(&mut s, b"k", b"w", 20, b"k"), Ok(()));
    assert!(!commit(&mut s, b"k", 11, 40));
}

#[test]
fn expired_lock_is_taken_over() {
    let mut s = MemoryStorage::default();
    prewrite(&mut s, b"k", b"old", 10, b"k").unwrap();
    prewrite(&mut s, b"k", b"new", 11 + TTL, b"k").unwrap();
    assert!(!commit(&mut s, b"k", 10, 20 + TTL));
    assert!(commit(&mut s, b"k", 11 + TTL, 30 + TTL));
    assert_eq!(get(&mut s, b"k", 30 + TTL), Ok(b"new".to_vec()));
}

#[test]
fn expired_lock_goes_even_with_a_write_conflict() {
    let mut s = MemoryStorage::default();
    let late = 20 + 2 * TTL;
    prewrite(&mut s, b"k", b"a", 5, b"k").unwrap();
    assert!(commit(&mut s, b"k", 5, late + 50));
    // Nothing stops a pessimistic lock at a timestamp past that commit.
    lock(&mut s, b"k", 10, late + 60, b"k").unwrap();
    assert_eq!(prewrite(&mut s, b"k", b"b", late, b"k"), Err("write conflict".to_string()));
    assert!(!commit(&mut s, b"k", 10, late + 70));
}

#[test]
fn get_clears_an_expired_lock() {
    let mut s = MemoryStorage::default();
    prewrite(&mut s, b"k", b"v", 10, b"k").unwrap();
    assert_eq!(get(&mut s, b"k", 10 + TTL), Err("key is locked".to_string()));
    assert_eq!(get(&mut s, b"k", 11 + TTL), Ok(vec![]));
    assert!(!commit(&mut s, b"k", 10, 12 + TTL));
}

#[test]
fn get_clears_an_expired_secondary_with_its_primary() {
    let mut s = MemoryStorage::default();
    prewrite(&mut s, b"p", b"pv", 10, b"p").unwrap();
    prewrite(&mut s, b"q", b"qv", 10, b"p").unwrap();
    assert_eq!(get(&mut s, b"q", 20), Err("key is locked".to_string()));
    assert_eq!(get(&mut s, b"q", 11 + TTL), Ok(vec![]));
    assert!(!commit(&mut s, b"p", 10, 30 + TTL));
}

#[test]
fn get_resolves_a_secondary() {
    let mut s = MemoryStorage::default();
    prewrite(&mut s, b"p", b"pv", 10, b"p").unwrap();
    prewrite(&mut s, b"q", b"qv", 10, b"p").unwrap();
    assert!(commit(&mut s, b"p", 10, 15));
    s.back_off_maybe_clean_up_lock(12, b"q".to_vec());
    assert_eq!(get(&mut s, b"q", 14), Ok(vec![]));
    assert_eq!(get(&mut s, b"q", 15), Ok(b"qv".to_vec()));

    prewrite(&mut s, b"p", b"pv2", 20, b"p").unwrap();
    prewrite(&mut s, b"q", b"qv2", 20, b"p").unwrap();
    rollback(&mut s, b"p", 20);
    assert_eq!(get(&mut s, b"q", 25), Ok(b"qv".to_vec()));
    assert!(!commit(&mut s, b"q", 20, 30));
}

#[test]
fn pessimistic_lock_conflicts() {
    let mut s = MemoryStorage::default();
    lock(&mut s, b"k", 10, 12, b"k").unwrap();
    // Asking again is fine, whatever the timestamp.
    lock(&mut s, b"k", 10, u64::MAX, b"").unwrap();
    assert_eq!(lock(&mut s, b"k", 10, 12, b"other"), Err("lock conflict".to_string()));
    assert_eq!(lock(&mut s, b"k", 11, 13, b"k"), Err("lock conflict".to_string()));
    assert_eq!(lock(&mut s, b"k", 11, 10 + TTL, b"k"), Err("lock conflict".to_string()));
    // Locked without data: committing it shows the empty value.
    assert!(commit(&mut s, b"k", 10, 20));
    assert_eq!(get(&mut s, b"k", 30), Ok(vec![]));
    assert_eq!(lock(&mut s, b"k", 15, 19, b"k"), Err("write conflict".to_string()));
    lock(&mut s, b"k", 15, 20, b"k").unwrap();
    lock(&mut s, b"k", 16, 16 + TTL, b"k").unwrap();
    assert_eq!(lock(&mut s, b"k", 15, 20, b"k"), Err("lock conflict".to_string()));
}

#[test]
fn last_timestamp_has_nothing_after_it() {
    let mut s = MemoryStorage::default();
    lock(&mut s, b"k", 10, u64::MAX, b"k").unwrap();
    assert!(commit(&mut s, b"k", 10, u64::MAX));
    lock(&mut s, b"k", 11, u64::MAX, b"k").unwrap();
    prewrite(&mut s, b"k", b"v", u64::MAX, b"k").unwrap();
}

#[test]
fn pessimistic_lock_is_downgraded_by_prewrite() {
    let mut s = MemoryStorage::default();
    lock(&mut s, b"k", 10, 12, b"k").unwrap();
    prewrite(&mut s, b"k", b"v", 10, b"k").unwrap();
    // Now it is a prewrite lock.
    assert_eq!(prewrite(&mut s, b"k", b"v", 10, b"k"), Err("lock conflict".to_string()));
    assert!(commit(&mut s, b"k", 10, 20));
    assert_eq!(get(&mut s, b"k", 20), Ok(b"v".to_vec()));
}

#[test]
fn pessimistic_lock_holds_against_a_commit_in_between() {
    let mut s = MemoryStorage::default();
    prewrite(&mut s, b"k", b"a", 5, b"k").unwrap();
    assert!(commit(&mut s, b"k", 5, 15));
    lock(&mut s, b"k", 10, 16, b"k").unwrap();
    prewrite(&mut s, b"k", b"b", 10, b"k").unwrap();
    assert!(commit(&mut s, b"k", 10, 20));
    assert_eq!(get(&mut s, b"k", 19), Ok(b"a".to_vec()));
    assert_eq!(get(&mut s, b"k", 20), Ok(b"b".to_vec()));
}

#[test]
fn rollback_undoes_prewrite_and_spares_the_rest() {
    let mut s = MemoryStorage::default();
    prewrite(&mut s, b"k", b"v", 10, b"k").unwrap();
    rollback(&mut s, b"k", 11);
    assert_eq!(get(&mut s, b"k", 20), Err("key is locked".to_string()));
    rollback(&mut s, b"k", 10);
    assert_eq!(get(&mut s, b"k", 20), Ok(vec![]));
    prewrite(&mut s, b"k", b"w", 12, b"k").unwrap();
}

#[test]
fn errors_tell_write_conflicts_apart() {
    let e = |text: &str| Error::new(ErrorKind::Other, text).is_write_conflict();
    assert!(e("write conflict"));
    assert!(e("rpc failed: write conflict on k"));
    assert!(!e("lock conflict"));
    assert!(!e("write  conflict"));
    assert!(!e(""));
    assert!(text_contains("abc", ""));
    assert!(text_contains("aab", "ab"));
    assert!(!text_contains("ab", "abc"));
}

#[test]
fn get_of_a_resolved_key_changes_nothing_more() {
    let mut s = MemoryStorage::default();
    prewrite(&mut s, b"p", b"pv", 10, b"p").unwrap();
    prewrite(&mut s, b"q", b"qv", 10, b"p").unwrap();
    assert!(commit(&mut s, b"p", 10, 15));
    assert_eq!(get(&mut s, b"q", 20), Ok(b"qv".to_vec()));
    assert_eq!(get(&mut s, b"q", 20), Ok(b"qv".to_vec()));
    assert!(!commit(&mut s, b"q", 10, 30));
}

#[test]
fn requests_leave_other_keys_alone() {
    let mut s = MemoryStorage::default();
    prewrite(&mut s, b"a", b"1", 10, b"a").unwrap();
    assert!(commit(&mut s, b"a", 10, 20));
    prewrite(&mut s, b"b", b"2", 30, b"b").unwrap();
    lock(&mut s, b"c", 30, 31, b"b").unwrap();
    rollback(&mut s, b"c", 30);
    assert_eq!(get(&mut s, b"a", 40), Ok(b"1".to_vec()));
    assert_eq!(get(&mut s, b"c", 40), Ok(vec![]));
    assert_eq!(get(&mut s, b"b", 40), Err("key is locked".to_string()));
}

#[test]
fn rollback_undoes_a_pessimistic_lock() {
    let mut s = MemoryStorage::default();
    lock(&mut s, b"k", 10, 12, b"k").unwrap();
    assert_eq!(get(&mut s, b"k", 20), Err("key is locked".to_string()));
    rollback(&mut s, b"k", 10);
    assert_eq!(get(&mut s, b"k", 20), Ok(vec![]));
    assert!(!commit(&mut s, b"k", 10, 30));
    lock(&mut s, b"k", 11, 12, b"k").unwrap();
}

#[test]
fn get_releases_a_secondary_that_was_only_locked() {
    let mut s = MemoryStorage::default();
    prewrite(&mut s, b"b", b"old", 1, b"b").unwrap();
    assert!(commit(&mut s, b"b", 1, 2));
    lock(&mut s, b"a", 10, 11, b"a").unwrap();
    lock(&mut s, b"b", 10, 12, b"a").unwrap();
    prewrite(&mut s, b"a", b"x", 10, b"a").unwrap();
    assert!(commit(&mut s, b"a", 10, 20));
    assert_eq!(get(&mut s, b"b", 30), Ok(b"old".to_vec()));
    // The lock is gone.
    assert!(!commit(&mut s, b"b", 10, 40));
    lock(&mut s, b"b", 31, 31, b"b").unwrap();
}

#[test]
fn only_committed_values_are_read() {
    let mut s = MemoryStorage::default();
    prewrite(&mut s, b"k", b"dropped", 10, b"k").unwrap();
    rollback(&mut s, b"k", 10);
    prewrite(&mut s, b"k", b"kept", 20, b"k").unwrap();
    assert!(commit(&mut s, b"k", 20, 25));
    prewrite(&mut s, b"k", b"pending", 30, b"k").unwrap();
    assert_eq!(get(&mut s, b"k", 40), Err("key is locked".to_string()));
    assert_eq!(get(&mut s, b"k", 31 + TTL), Ok(b"kept".to_vec()));
}

#[test]
fn releasing_a_lock_keeps_a_value_committed_before() {
    let mut s = MemoryStorage::default();
    prewrite(&mut s, b"a", b"av", 10, b"a").unwrap();
    prewrite(&mut s, b"k", b"kv", 10, b"a").unwrap();
    assert!(commit(&mut s, b"a", 10, 20));
    assert!(commit(&mut s, b"k", 10, 20));
    lock(&mut s, b"k", 10, 25, b"a").unwrap();
    assert_eq!(get(&mut s, b"k", 30), Ok(b"kv".to_vec()));
    assert!(!commit(&mut s, b"k", 10, 40));
}
