use state_cache::access::MergeError;
use state_cache::bytes::{CacheKey, CacheValue};
use state_cache::cache_log::{CacheLog, ReadError, ValueExists};

fn key(s: &str) -> CacheKey {
    CacheKey::new(s.as_bytes().to_vec())
}

fn val(s: &str) -> Option<CacheValue> {
    Some(CacheValue::new(s.as_bytes().to_vec()))
}

fn sorted_writes(log: CacheLog) -> Vec<(CacheKey, Option<CacheValue>)> {
    let mut w = log.take_writes();
    w.sort_by(|a, b| a.0.cmp(&b.0));
    w
}

#[test]
fn repeated_read_of_same_value_is_idempotent() {
    let mut once = CacheLog::default();
    once.add_read(key("k"), val("v")).unwrap();
    let mut thrice = CacheLog::default();
    for _ in 0..3 {
        assert_eq!(thrice.add_read(key("k"), val("v")), Ok(()));
    }
    assert_eq!(thrice.len(), once.len());
    assert_eq!(thrice.get_value(&key("k")), once.get_value(&key("k")));
    assert_eq!(thrice.take_writes(), once.take_writes());
}

#[test]
fn read_of_different_value_is_inconsistent() {
    let mut log = CacheLog::default();
    log.add_read(key("k"), val("v")).unwrap();
    assert_eq!(
        log.add_read(key("k"), val("w")),
        Err(ReadError::InconsistentRead { expected: val("v"), found: val("w") })
    );
    assert_eq!(log.get_value(&key("k")), ValueExists::Yes(val("v")));
}

#[test]
fn read_after_write_must_observe_written_value() {
    let mut log = CacheLog::default();
    log.add_write(key("k"), val("1"));
    assert_eq!(log.add_read(key("k"), val("1")), Ok(()));
    assert_eq!(
        log.add_read(key("k"), None),
        Err(ReadError::InconsistentRead { expected: val("1"), found: None })
    );
}

#[test]
fn last_write_wins() {
    let mut twice = CacheLog::default();
    twice.add_read(key("k"), val("0")).unwrap();
    twice.add_write(key("k"), val("1"));
    twice.add_write(key("k"), val("2"));
    let mut once = CacheLog::default();
    once.add_read(key("k"), val("0")).unwrap();
    once.add_write(key("k"), val("2"));
    assert_eq!(twice.get_value(&key("k")), once.get_value(&key("k")));
    assert_eq!(twice.take_writes(), once.take_writes());
}

#[test]
fn last_write_wins_without_read() {
    let mut log = CacheLog::default();
    log.add_write(key("k"), val("1"));
    log.add_write(key("k"), None);
    assert_eq!(log.take_writes(), vec![(key("k"), None)]);
}

#[test]
fn writing_back_read_value_is_no_write() {
    let mut log = CacheLog::default();
    log.add_read(key("k"), val("v")).unwrap();
    log.add_write(key("k"), val("v"));
    assert_eq!(log.add_read(key("k"), val("v")), Ok(()));
    assert!(log.take_writes().is_empty());
}

#[test]
fn take_writes_drops_pure_reads() {
    let mut log = CacheLog::default();
    log.add_read(key("r"), val("1")).unwrap();
    log.add_read(key("rw"), val("1")).unwrap();
    log.add_write(key("rw"), val("2"));
    log.add_write(key("w"), None);
    assert_eq!(sorted_writes(log), vec![(key("rw"), val("2")), (key("w"), None)]);
}

#[test]
fn get_value_of_untouched_key_is_no() {
    let mut log = CacheLog::default();
    log.add_write(key("a"), None);
    assert_eq!(log.get_value(&key("b")), ValueExists::No);
    assert_eq!(log.get_value(&key("a")), ValueExists::Yes(None));
}

#[test]
fn merging_empty_log_changes_nothing() {
    let mut left = CacheLog::default();
    left.add_read(key("a"), val("1")).unwrap();
    left.add_write(key("b"), val("2"));
    assert_eq!(left.merge_left(CacheLog::default()), Ok(()));
    assert_eq!(left.len(), 2);
    assert_eq!(left.get_value(&key("a")), ValueExists::Yes(val("1")));
    assert_eq!(sorted_writes(left), vec![(key("b"), val("2"))]);
}

#[test]
fn merging_into_empty_log_gives_other() {
    let mut right = CacheLog::default();
    right.add_read(key("a"), val("1")).unwrap();
    right.add_write(key("b"), val("2"));
    let mut left = CacheLog::default();
    assert_eq!(left.merge_left(right), Ok(()));
    assert_eq!(left.len(), 2);
    assert_eq!(left.get_value(&key("a")), ValueExists::Yes(val("1")));
    assert_eq!(sorted_writes(left), vec![(key("b"), val("2"))]);
}

#[test]
fn merge_keeps_first_read_and_last_write() {
    let mut left = CacheLog::default();
    left.add_read(key("k1"), val("1")).unwrap();
    left.add_write(key("k2"), val("2"));
    let mut right = CacheLog::default();
    right.add_read(key("k1"), val("1")).unwrap();
    right.add_write(key("k1"), val("9"));
    right.add_write(key("k3"), val("3"));
    assert_eq!(left.merge_left(right), Ok(()));
    assert_eq!(left.len(), 3);
    assert_eq!(
        sorted_writes(left),
        vec![(key("k1"), val("9")), (key("k2"), val("2")), (key("k3"), val("3"))]
    );
}

#[test]
fn failed_merge_leaves_log_unchanged() {
    let mut left = CacheLog::default();
    left.add_write(key("a"), val("1"));
    left.add_read(key("b"), val("1")).unwrap();
    let mut right = CacheLog::default();
    right.add_write(key("c"), val("3"));
    right.add_read(key("b"), val("2")).unwrap();
    right.add_write(key("a"), val("5"));
    let r = left.merge_left(right);
    assert_eq!(r, Err(MergeError::ReadThenRead { left: val("1"), right: val("2") }));
    assert_eq!(left.len(), 2);
    assert_eq!(left.get_value(&key("a")), ValueExists::Yes(val("1")));
    assert_eq!(left.get_value(&key("c")), ValueExists::No);
}

#[test]
fn merge_reads_left_takes_read_halves() {
    let mut left = CacheLog::default();
    let mut right = CacheLog::default();
    right.add_read(key("r"), val("1")).unwrap();
    right.add_read(key("rw"), val("2")).unwrap();
    right.add_write(key("rw"), val("3"));
    right.add_write(key("w"), val("4"));
    assert_eq!(left.merge_reads_left(right), Ok(()));
    assert_eq!(left.len(), 2);
    assert_eq!(left.get_value(&key("rw")), ValueExists::Yes(val("2")));
    assert_eq!(left.get_value(&key("w")), ValueExists::No);
    assert!(left.take_writes().is_empty());
}

#[test]
fn merge_writes_left_takes_write_halves() {
    let mut left = CacheLog::default();
    left.add_read(key("rw"), val("0")).unwrap();
    let mut right = CacheLog::default();
    right.add_read(key("r"), val("1")).unwrap();
    right.add_read(key("rw"), val("2")).unwrap();
    right.add_write(key("rw"), val("3"));
    right.add_write(key("w"), val("4"));
    assert_eq!(left.merge_writes_left(right), Ok(()));
    assert_eq!(left.len(), 2);
    assert_eq!(left.get_value(&key("r")), ValueExists::No);
    assert_eq!(sorted_writes(left), vec![(key("rw"), val("3")), (key("w"), val("4"))]);
}

#[test]
fn merge_reads_left_reports_conflict() {
    let mut left = CacheLog::default();
    left.add_write(key("k"), val("1"));
    let mut right = CacheLog::default();
    right.add_read(key("k"), val("2")).unwrap();
    right.add_write(key("k"), val("3"));
    assert_eq!(
        left.merge_reads_left(right),
        Err(MergeError::WriteThenRead { write: val("1"), read: val("2") })
    );
}

#[test]
fn len_and_is_empty() {
    let mut log = CacheLog::with_capacity(8);
    assert!(log.is_empty());
    assert_eq!(log.len(), 0);
    log.add_write(key("a"), None);
    log.add_write(key("a"), val("1"));
    log.add_read(key("b"), None).unwrap();
    assert!(!log.is_empty());
    assert_eq!(log.len(), 2);
}
