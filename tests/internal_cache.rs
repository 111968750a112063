use state_cache::access::MergeError;
use state_cache::bytes::{CacheKey, CacheValue};
use state_cache::cache_log::{ReadError, ValueExists};
use state_cache::internal_cache::{OrderedReadsAndWrites, StorageInternalCache};
use state_cache::storage::{Storage, StorageKey, StorageValue};
use std::cell::RefCell;
use std::collections::HashMap;

/// A backend over an in-memory map of versioned cache keys, counting its reads.
struct MapBackend {
    data: HashMap<Vec<u8>, Vec<u8>>,
    calls: RefCell<Vec<(Vec<u8>, Option<u64>)>>,
}

impl MapBackend {
    fn new() -> Self {
        MapBackend { data: HashMap::new(), calls: RefCell::new(Vec::new()) }
    }

    fn with(pairs: &[(&str, &str)], version: Option<u64>) -> Self {
        let mut b = MapBackend::new();
        for (k, v) in pairs {
            let ck = skey(k).to_cache_key_version(version);
            b.data.insert((*ck.key).clone(), v.as_bytes().to_vec());
        }
        b
    }

    fn apply(&mut self, writes: &[(CacheKey, Option<CacheValue>)]) {
        for (k, v) in writes {
            match v {
                Some(v) => {
                    self.data.insert((*k.key).clone(), (*v.value).clone());
                }
                None => {
                    self.data.remove(&*k.key);
                }
            }
        }
    }
}

impl Storage for MapBackend {
    type Witness = ();

    fn get(&self, key: &StorageKey, version: Option<u64>, _witness: &()) -> Option<StorageValue> {
        self.calls.borrow_mut().push(((*key.key).clone(), version));
        let ck = key.to_cache_key_version(version);
        self.data.get(&*ck.key).map(|v| StorageValue::new(v.clone()))
    }
}

fn skey(s: &str) -> StorageKey {
    StorageKey::new(s.as_bytes().to_vec())
}

fn sval(s: &str) -> StorageValue {
    StorageValue::new(s.as_bytes().to_vec())
}

fn key(s: &str) -> CacheKey {
    CacheKey::new(s.as_bytes().to_vec())
}

fn val(s: &str) -> Option<CacheValue> {
    Some(CacheValue::new(s.as_bytes().to_vec()))
}

#[test]
fn read_absent_write_read_again_hits_backend_once() {
    let backend = MapBackend::new();
    let mut cache = StorageInternalCache::default();
    assert_eq!(cache.get_or_fetch(&skey("a"), &backend, &()), None);
    cache.set(&skey("a"), sval("1"));
    assert_eq!(cache.get_or_fetch(&skey("a"), &backend, &()), Some(sval("1")));
    assert_eq!(backend.calls.borrow().len(), 1);
    let out = OrderedReadsAndWrites::from(cache);
    assert_eq!(out.ordered_writes, vec![(key("a"), val("1"))]);
    assert_eq!(out.ordered_reads, vec![(key("a"), None)]);
}

#[test]
fn child_read_then_write_merges_into_parent_read() {
    let backend = MapBackend::with(&[("x", "5")], None);
    let mut parent = StorageInternalCache::default();
    assert_eq!(parent.get_or_fetch(&skey("x"), &backend, &()), Some(sval("5")));
    let mut child = StorageInternalCache::default();
    assert_eq!(child.get_or_fetch(&skey("x"), &backend, &()), Some(sval("5")));
    child.set(&skey("x"), sval("9"));
    assert_eq!(parent.merge_left(child), Ok(()));
    assert_eq!(parent.try_get(&skey("x")), ValueExists::Yes(val("9")));
    let out = OrderedReadsAndWrites::from(parent);
    assert_eq!(out.ordered_writes, vec![(key("x"), val("9"))]);
}

#[test]
fn child_read_disagreeing_with_parent_write_fails() {
    let backend = MapBackend::with(&[("y", "2")], None);
    let mut parent = StorageInternalCache::default();
    parent.set(&skey("y"), sval("1"));
    let mut child = StorageInternalCache::default();
    assert_eq!(child.get_or_fetch(&skey("y"), &backend, &()), Some(sval("2")));
    assert_eq!(
        parent.merge_left(child),
        Err(MergeError::WriteThenRead { write: val("1"), read: val("2") })
    );
    assert_eq!(parent.try_get(&skey("y")), ValueExists::Yes(val("1")));
}

#[test]
fn absent_fetch_is_remembered() {
    let backend = MapBackend::new();
    let mut cache = StorageInternalCache::default();
    assert_eq!(cache.get_or_fetch(&skey("z"), &backend, &()), None);
    assert_eq!(cache.try_get(&skey("z")), ValueExists::Yes(None));
    assert_eq!(cache.get_or_fetch(&skey("z"), &backend, &()), None);
    assert_eq!(backend.calls.borrow().len(), 1);
    assert_eq!(cache.ordered_db_reads, vec![(key("z"), None)]);
}

#[test]
fn version_scopes_keys_and_backend_reads() {
    let k = skey("a");
    assert_eq!(*k.to_cache_key_version(None).key, b"a".to_vec());
    assert_eq!(*k.to_cache_key_version(Some(1)).key, vec![0, 0, 0, 0, 0, 0, 0, 1, b'a']);
    assert_eq!(
        *k.to_cache_key_version(Some(0x0102030405060708)).key,
        vec![1, 2, 3, 4, 5, 6, 7, 8, b'a']
    );
    assert_ne!(k.to_cache_key_version(Some(1)), k.to_cache_key_version(Some(2)));

    let backend = MapBackend::with(&[("a", "v3")], Some(3));
    let mut cache = StorageInternalCache::new_with_version(3);
    assert_eq!(cache.version, Some(3));
    assert_eq!(cache.get_or_fetch(&k, &backend, &()), Some(sval("v3")));
    assert_eq!(backend.calls.borrow()[0], (b"a".to_vec(), Some(3)));
    assert_eq!(cache.ordered_db_reads[0].0, k.to_cache_key_version(Some(3)));
    let mut other = StorageInternalCache::new_with_version(4);
    assert_eq!(other.get_or_fetch(&k, &backend, &()), None);
}

#[test]
fn set_delete_and_try_get() {
    let mut cache = StorageInternalCache::default();
    assert_eq!(cache.try_get(&skey("k")), ValueExists::No);
    cache.set(&skey("k"), sval("1"));
    assert_eq!(cache.try_get(&skey("k")), ValueExists::Yes(val("1")));
    cache.delete(&skey("k"));
    assert_eq!(cache.try_get(&skey("k")), ValueExists::Yes(None));
    let out = OrderedReadsAndWrites::from_cache(cache);
    assert_eq!(out.ordered_writes, vec![(key("k"), None)]);
    assert!(out.ordered_reads.is_empty());
}

#[test]
fn ordered_writes_are_sorted_and_reads_chronological() {
    let backend = MapBackend::with(&[("r2", "x"), ("r1", "y")], None);
    let mut cache = StorageInternalCache::default();
    cache.set(&skey("b"), sval("2"));
    cache.get_or_fetch(&skey("r2"), &backend, &());
    cache.set(&skey("ab"), sval("3"));
    cache.get_or_fetch(&skey("r1"), &backend, &());
    cache.set(&skey("a"), sval("1"));
    cache.delete(&skey("c"));
    let out = OrderedReadsAndWrites::from(cache);
    assert_eq!(out.ordered_reads, vec![(key("r2"), val("x")), (key("r1"), val("y"))]);
    assert_eq!(
        out.ordered_writes,
        vec![(key("a"), val("1")), (key("ab"), val("3")), (key("b"), val("2")), (key("c"), None)]
    );
}

#[test]
fn add_read_inconsistent_changes_nothing() {
    let mut cache = StorageInternalCache::default();
    assert_eq!(cache.add_read(key("k"), val("1")), Ok(()));
    assert_eq!(
        cache.add_read(key("k"), val("2")),
        Err(ReadError::InconsistentRead { expected: val("1"), found: val("2") })
    );
    assert_eq!(cache.ordered_db_reads, vec![(key("k"), val("1"))]);
}

fn three_scopes(backend: &MapBackend) -> (StorageInternalCache, StorageInternalCache, StorageInternalCache) {
    let mut a = StorageInternalCache::default();
    a.get_or_fetch(&skey("p"), backend, &());
    a.set(&skey("q"), sval("1"));
    let mut b = StorageInternalCache::default();
    b.get_or_fetch(&skey("p"), backend, &());
    b.set(&skey("p"), sval("2"));
    b.set(&skey("r"), sval("3"));
    let mut c = StorageInternalCache::default();
    c.set(&skey("p"), sval("4"));
    c.get_or_fetch(&skey("s"), backend, &());
    c.delete(&skey("q"));
    (a, b, c)
}

#[test]
fn merge_grouping_gives_same_ordered_writes() {
    let backend = MapBackend::with(&[("p", "0"), ("s", "5")], None);
    let (mut a, b, c) = three_scopes(&backend);
    assert_eq!(a.merge_left(b), Ok(()));
    assert_eq!(a.merge_left(c), Ok(()));
    let left = OrderedReadsAndWrites::from(a);

    let (mut a, mut b, c) = three_scopes(&backend);
    assert_eq!(b.merge_left(c), Ok(()));
    assert_eq!(a.merge_left(b), Ok(()));
    let right = OrderedReadsAndWrites::from(a);

    assert_eq!(left.ordered_writes, right.ordered_writes);
    assert_eq!(left.ordered_reads, right.ordered_reads);
    assert_eq!(
        left.ordered_writes,
        vec![(key("p"), val("4")), (key("q"), None), (key("r"), val("3"))]
    );
}

#[test]
fn applied_writes_reproduce_last_values() {
    let mut backend = MapBackend::with(&[("a", "1"), ("b", "2"), ("c", "3")], Some(7));
    let mut cache = StorageInternalCache::new_with_version(7);
    cache.get_or_fetch(&skey("a"), &backend, &());
    cache.get_or_fetch(&skey("b"), &backend, &());
    cache.set(&skey("b"), sval("20"));
    cache.delete(&skey("c"));
    cache.set(&skey("d"), sval("40"));
    let last: Vec<(StorageKey, Option<StorageValue>)> = ["a", "b", "c", "d"]
        .iter()
        .map(|k| (skey(k), cache.get_or_fetch(&skey(k), &backend, &())))
        .collect();
    let out = OrderedReadsAndWrites::from(cache);
    backend.apply(&out.ordered_writes);
    let mut again = StorageInternalCache::new_with_version(7);
    for (k, v) in &last {
        assert_eq!(&again.get_or_fetch(k, &backend, &()), v);
    }
    let mut other_version = StorageInternalCache::new_with_version(8);
    assert_eq!(other_version.get_or_fetch(&skey("d"), &backend, &()), None);
}

fn run_ops(cache: &mut StorageInternalCache, backend: &MapBackend) -> Vec<Option<StorageValue>> {
    let mut results = Vec::new();
    results.push(cache.get_or_fetch(&skey("a"), backend, &()));
    cache.set(&skey("a"), sval("2"));
    results.push(cache.get_or_fetch(&skey("a"), backend, &()));
    results.push(cache.get_or_fetch(&skey("b"), backend, &()));
    cache.delete(&skey("c"));
    results.push(cache.get_or_fetch(&skey("c"), backend, &()));
    results.push(cache.get_or_fetch(&skey("d"), backend, &()));
    results
}

#[test]
fn replay_against_recorded_reads_reproduces_scope() {
    let backend = MapBackend::with(&[("a", "1"), ("b", "5"), ("c", "7"), ("e", "9")], Some(2));
    let mut first = StorageInternalCache::new_with_version(2);
    let first_results = run_ops(&mut first, &backend);
    let out = OrderedReadsAndWrites::from(first);

    let mut recorded = MapBackend::new();
    for (k, v) in &out.ordered_reads {
        if let Some(v) = v {
            recorded.data.insert((*k.key).clone(), (*v.value).clone());
        }
    }
    let mut again = StorageInternalCache::new_with_version(2);
    let again_results = run_ops(&mut again, &recorded);
    assert_eq!(again_results, first_results);
    assert_eq!(again.ordered_db_reads, out.ordered_reads);
    let out_again = OrderedReadsAndWrites::from(again);
    assert_eq!(out_again.ordered_writes, out.ordered_writes);
}
