use state_cache::access::{Access, MergeError};
use state_cache::bytes::CacheValue;

fn val(s: &str) -> Option<CacheValue> {
    Some(CacheValue::new(s.as_bytes().to_vec()))
}

fn rtw(original: Option<CacheValue>, modified: Option<CacheValue>) -> Access {
    Access::ReadThenWrite { original, modified }
}

#[test]
fn write_of_value_read_keeps_read() {
    let mut a = Access::Read(val("1"));
    a.write_value(val("1"));
    assert_eq!(a, Access::Read(val("1")));
}

#[test]
fn write_after_read_becomes_read_then_write() {
    let mut a = Access::Read(val("1"));
    a.write_value(val("2"));
    assert_eq!(a, rtw(val("1"), val("2")));
}

#[test]
fn write_restoring_original_collapses_to_read() {
    let mut a = rtw(val("1"), val("2"));
    a.write_value(val("1"));
    assert_eq!(a, Access::Read(val("1")));
}

#[test]
fn write_over_read_then_write_replaces_modified() {
    let mut a = rtw(val("1"), val("2"));
    a.write_value(None);
    assert_eq!(a, rtw(val("1"), None));
}

#[test]
fn write_over_write_replaces() {
    let mut a = Access::Write(val("1"));
    a.write_value(val("1"));
    assert_eq!(a, Access::Write(val("1")));
    a.write_value(val("3"));
    assert_eq!(a, Access::Write(val("3")));
}

#[test]
fn last_value_of_each_variant() {
    assert_eq!(Access::Read(val("r")).last_value(), &val("r"));
    assert_eq!(rtw(val("o"), val("m")).last_value(), &val("m"));
    assert_eq!(Access::Write(None).last_value(), &None);
}

#[test]
fn merge_read_read_consistent() {
    let mut a = Access::Read(val("1"));
    assert_eq!(a.merge(Access::Read(val("1"))), Ok(()));
    assert_eq!(a, Access::Read(val("1")));
}

#[test]
fn merge_read_read_conflict() {
    let mut a = Access::Read(val("1"));
    let r = a.merge(Access::Read(val("2")));
    assert_eq!(r, Err(MergeError::ReadThenRead { left: val("1"), right: val("2") }));
    assert_eq!(a, Access::Read(val("1")));
}

#[test]
fn merge_read_then_read_write() {
    let mut a = Access::Read(val("1"));
    assert_eq!(a.merge(rtw(val("1"), val("2"))), Ok(()));
    assert_eq!(a, rtw(val("1"), val("2")));
}

#[test]
fn merge_read_then_read_write_conflict() {
    let mut a = Access::Read(val("1"));
    let r = a.merge(rtw(None, val("2")));
    assert_eq!(r, Err(MergeError::ReadThenRead { left: val("1"), right: None }));
    assert_eq!(a, Access::Read(val("1")));
}

#[test]
fn merge_read_then_write() {
    let mut a = Access::Read(val("1"));
    assert_eq!(a.merge(Access::Write(val("7"))), Ok(()));
    assert_eq!(a, rtw(val("1"), val("7")));
}

#[test]
fn merge_read_write_then_read() {
    let mut a = rtw(val("1"), val("2"));
    assert_eq!(a.merge(Access::Read(val("2"))), Ok(()));
    assert_eq!(a, rtw(val("1"), val("2")));
}

#[test]
fn merge_read_write_then_read_conflict() {
    let mut a = rtw(val("1"), val("2"));
    let r = a.merge(Access::Read(val("1")));
    assert_eq!(r, Err(MergeError::WriteThenRead { write: val("2"), read: val("1") }));
    assert_eq!(a, rtw(val("1"), val("2")));
}

#[test]
fn merge_read_write_then_read_write() {
    let mut a = rtw(val("1"), val("2"));
    assert_eq!(a.merge(rtw(val("2"), val("3"))), Ok(()));
    assert_eq!(a, rtw(val("1"), val("3")));
}

#[test]
fn merge_read_write_then_read_write_conflict() {
    let mut a = rtw(val("1"), val("2"));
    let r = a.merge(rtw(val("9"), val("3")));
    assert_eq!(r, Err(MergeError::WriteThenRead { write: val("2"), read: val("9") }));
}

#[test]
fn merge_read_write_then_write() {
    let mut a = rtw(val("1"), val("2"));
    assert_eq!(a.merge(Access::Write(val("5"))), Ok(()));
    assert_eq!(a, rtw(val("1"), val("5")));
}

#[test]
fn merge_write_then_read_becomes_read() {
    let mut a = Access::Write(val("4"));
    assert_eq!(a.merge(Access::Read(val("4"))), Ok(()));
    assert_eq!(a, Access::Read(val("4")));
}

#[test]
fn merge_write_then_read_conflict() {
    let mut a = Access::Write(val("4"));
    let r = a.merge(Access::Read(None));
    assert_eq!(r, Err(MergeError::WriteThenRead { write: val("4"), read: None }));
    assert_eq!(a, Access::Write(val("4")));
}

#[test]
fn merge_write_then_read_write() {
    let mut a = Access::Write(val("4"));
    assert_eq!(a.merge(rtw(val("4"), val("6"))), Ok(()));
    assert_eq!(a, Access::Write(val("6")));
}

#[test]
fn merge_write_then_read_write_conflict() {
    let mut a = Access::Write(val("4"));
    let r = a.merge(rtw(val("5"), val("6")));
    assert_eq!(r, Err(MergeError::WriteThenRead { write: val("4"), read: val("5") }));
}

#[test]
fn merge_write_then_write() {
    let mut a = Access::Write(val("4"));
    assert_eq!(a.merge(Access::Write(None)), Ok(()));
    assert_eq!(a, Access::Write(None));
}
