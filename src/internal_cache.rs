//! The cache of one scope: its log, the backend reads in the order they happened,
//! and the projection of a finished scope into ordered reads and writes.
use crate::access::{AccessView, MergeError};
use crate::bytes::{val_view, CacheKey, CacheValue};
use crate::cache_log::{
    after_read, after_write, conflict, merged, mergeable, read_consistent, read_parts, value_of,
    write_parts, writes_of, CacheLog, LogView, ReadError, ValueExists,
};
use crate::keyed::{keyed_map, keys_sorted, keys_unique, lemma_sorted_unique};
use crate::storage::{stored_view, versioned_key, Storage, StorageKey, StorageValue};
use vstd::prelude::*;

verus! {

/// The keys and values of a list of pairs, as bytes.
pub open spec fn pairs_view(s: Seq<(CacheKey, Option<CacheValue>)>) -> Seq<(Seq<u8>, Option<Seq<u8>>)> {
    s.map_values(|p: (CacheKey, Option<CacheValue>)| (p.0@, val_view(p.1)))
}

/// Caches reads and writes of one scope. On the first read of a key the value is fetched
/// from the backend; later reads are answered from the cache.
pub struct StorageInternalCache {
    /// Transaction cache.
    pub tx_cache: CacheLog,
    /// Backend reads, in the order they happened.
    pub ordered_db_reads: Vec<(CacheKey, Option<CacheValue>)>,
    /// Version that scopes every key of this cache.
    pub version: Option<u64>,
}

impl Default for StorageInternalCache {
    fn default() -> (r: Self)
        ensures
            r.tx_cache@ == LogView::empty(),
            r.ordered_db_reads@.len() == 0,
            r.version is None,
    {
        StorageInternalCache { tx_cache: CacheLog::default(), ordered_db_reads: Vec::new(), version: None }
    }
}

impl StorageInternalCache {
    /// Creates an empty cache whose keys are scoped by `version`.
    pub fn new_with_version(version: u64) -> (r: Self)
        ensures
            r.tx_cache@ == LogView::empty(),
            r.ordered_db_reads@.len() == 0,
            r.version == Some(version),
    {
        StorageInternalCache { tx_cache: CacheLog::default(), ordered_db_reads: Vec::new(), version: Some(version) }
    }

    /// Gets the value of `key` from the cache, or on a miss reads it from `value_reader`
    /// (the key as given, this cache's version, `witness`), records that read (an absent
    /// value too) and returns it.
    pub fn get_or_fetch<S: Storage>(&mut self, key: &StorageKey, value_reader: &S, witness: &S::Witness) -> (r:
        Option<StorageValue>)
        ensures
            final(self).version == old(self).version,
            ({
                let k = versioned_key(key@, old(self).version);
                if old(self).tx_cache@.contains_key(k) {
                    &&& stored_view(r) == old(self).tx_cache@[k].last()
                    &&& final(self).tx_cache@ == old(self).tx_cache@
                    &&& final(self).ordered_db_reads@ == old(self).ordered_db_reads@
                } else {
                    &&& call_ensures(S::get, (value_reader, key, old(self).version, witness), r)
                    &&& final(self).tx_cache@ == old(self).tx_cache@.insert(k, AccessView::Read(stored_view(r)))
                    &&& pairs_view(final(self).ordered_db_reads@) == pairs_view(old(self).ordered_db_reads@).push(
                        (k, stored_view(r)),
                    )
                }
            }),
    {
        let cache_key = key.to_cache_key_version(self.version);
        match self.get_value_from_cache(&cache_key) {
            ValueExists::Yes(cached) => match cached {
                Some(v) => Some(StorageValue::from_cache_value(v)),
                None => None,
            },
            ValueExists::No => {
                let storage_value = value_reader.get(key, self.version, witness);
                let cache_value = match &storage_value {
                    Some(v) => Some(v.clone().into_cache_value()),
                    None => None,
                };
                let _ = self.add_read(cache_key, cache_value);
                storage_value
            },
        }
    }

    /// Gets the cached value of `key`, reporting whether the scope holds one.
    pub fn try_get(&self, key: &StorageKey) -> (r: ValueExists)
        ensures
            ({
                let k = versioned_key(key@, self.version);
                match r {
                    ValueExists::Yes(v) => self.tx_cache@.contains_key(k) && val_view(v) == self.tx_cache@[k].last(),
                    ValueExists::No => !self.tx_cache@.contains_key(k),
                }
            }),
    {
        let cache_key = key.to_cache_key_version(self.version);
        self.get_value_from_cache(&cache_key)
    }

    /// Writes `value` at `key`.
    pub fn set(&mut self, key: &StorageKey, value: StorageValue)
        ensures
            final(self).tx_cache@ == after_write(old(self).tx_cache@, versioned_key(key@, old(self).version), Some(value@)),
            final(self).ordered_db_reads == old(self).ordered_db_reads,
            final(self).version == old(self).version,
    {
        let cache_key = key.to_cache_key_version(self.version);
        let cache_value = value.into_cache_value();
        self.tx_cache.add_write(cache_key, Some(cache_value));
    }

    /// Deletes the value at `key`.
    pub fn delete(&mut self, key: &StorageKey)
        ensures
            final(self).tx_cache@ == after_write(old(self).tx_cache@, versioned_key(key@, old(self).version), None),
            final(self).ordered_db_reads == old(self).ordered_db_reads,
            final(self).version == old(self).version,
    {
        let cache_key = key.to_cache_key_version(self.version);
        self.tx_cache.add_write(cache_key, None);
    }

    fn get_value_from_cache(&self, cache_key: &CacheKey) -> (r: ValueExists)
        ensures
            match r {
                ValueExists::Yes(v) => self.tx_cache@.contains_key(cache_key@) && val_view(v)
                    == self.tx_cache@[cache_key@].last(),
                ValueExists::No => !self.tx_cache@.contains_key(cache_key@),
            },
    {
        self.tx_cache.get_value(cache_key)
    }

    /// Merges the later scope `rhs` into this one. On a conflict `self` is left as it was.
    pub fn merge_left(&mut self, rhs: Self) -> (r: Result<(), MergeError>)
        ensures
            r is Ok <==> mergeable(old(self).tx_cache@, rhs.tx_cache@),
            r is Ok ==> final(self).tx_cache@ == merged(old(self).tx_cache@, rhs.tx_cache@),
            r matches Err(e) ==> final(self).tx_cache@ == old(self).tx_cache@ && conflict(
                old(self).tx_cache@,
                rhs.tx_cache@,
                e@,
            ),
            final(self).ordered_db_reads == old(self).ordered_db_reads,
            final(self).version == old(self).version,
    {
        self.tx_cache.merge_left(rhs.tx_cache)
    }

    /// Merges the reads of the later scope `rhs` into this one. On a conflict `self` is left as it was.
    pub fn merge_reads_left(&mut self, rhs: Self) -> (r: Result<(), MergeError>)
        ensures
            r is Ok <==> mergeable(old(self).tx_cache@, read_parts(rhs.tx_cache@)),
            r is Ok ==> final(self).tx_cache@ == merged(old(self).tx_cache@, read_parts(rhs.tx_cache@)),
            r matches Err(e) ==> final(self).tx_cache@ == old(self).tx_cache@ && conflict(
                old(self).tx_cache@,
                read_parts(rhs.tx_cache@),
                e@,
            ),
            final(self).ordered_db_reads == old(self).ordered_db_reads,
            final(self).version == old(self).version,
    {
        self.tx_cache.merge_reads_left(rhs.tx_cache)
    }

    /// Merges the writes of the later scope `rhs` into this one. On a conflict `self` is left as it was.
    pub fn merge_writes_left(&mut self, rhs: Self) -> (r: Result<(), MergeError>)
        ensures
            r is Ok <==> mergeable(old(self).tx_cache@, write_parts(rhs.tx_cache@)),
            r is Ok ==> final(self).tx_cache@ == merged(old(self).tx_cache@, write_parts(rhs.tx_cache@)),
            r matches Err(e) ==> final(self).tx_cache@ == old(self).tx_cache@ && conflict(
                old(self).tx_cache@,
                write_parts(rhs.tx_cache@),
                e@,
            ),
            final(self).ordered_db_reads == old(self).ordered_db_reads,
            final(self).version == old(self).version,
    {
        self.tx_cache.merge_writes_left(rhs.tx_cache)
    }

    /// Records `value`, read from the backend at `key`: in the log and, when it agrees with
    /// the log, at the end of the ordered reads. A disagreeing read changes nothing.
    pub fn add_read(&mut self, key: CacheKey, value: Option<CacheValue>) -> (r: Result<(), ReadError>)
        ensures
            r is Ok <==> read_consistent(old(self).tx_cache@, key@, val_view(value)),
            r is Ok ==> {
                &&& final(self).tx_cache@ == after_read(old(self).tx_cache@, key@, val_view(value))
                &&& pairs_view(final(self).ordered_db_reads@) == pairs_view(old(self).ordered_db_reads@).push(
                    (key@, val_view(value)),
                )
            },
            r matches Err(ReadError::InconsistentRead { expected, found }) ==> {
                &&& final(self).tx_cache@ == old(self).tx_cache@
                &&& final(self).ordered_db_reads == old(self).ordered_db_reads
                &&& val_view(expected) == old(self).tx_cache@[key@].last()
                &&& val_view(found) == val_view(value)
            },
            final(self).version == old(self).version,
    {
        let entry = (key.clone(), value.clone());
        match self.tx_cache.add_read(key, value) {
            Ok(()) => {
                let ghost before = self.ordered_db_reads@;
                self.ordered_db_reads.push(entry);
                proof {
                    assert(pairs_view(self.ordered_db_reads@) =~= pairs_view(before).push((entry.0@, val_view(entry.1))));
                }
                Ok(())
            },
            Err(e) => Err(e),
        }
    }
}

/// The values read from the backend and the values to be written, both in deterministic order.
#[derive(Debug)]
pub struct OrderedReadsAndWrites {
    /// Backend reads, in the order they happened.
    pub ordered_reads: Vec<(CacheKey, Option<CacheValue>)>,
    /// Writes, by key in byte order.
    pub ordered_writes: Vec<(CacheKey, Option<CacheValue>)>,
}

impl Default for OrderedReadsAndWrites {
    fn default() -> (r: Self)
        ensures
            r.ordered_reads@.len() == 0,
            r.ordered_writes@.len() == 0,
    {
        OrderedReadsAndWrites { ordered_reads: Vec::new(), ordered_writes: Vec::new() }
    }
}

impl OrderedReadsAndWrites {
    /// Projects a finished scope: its backend reads as they happened, and each key it
    /// writes once, with its final value, in key byte order.
    pub fn from_cache(val: StorageInternalCache) -> (r: Self)
        ensures
            r.ordered_reads == val.ordered_db_reads,
            keys_sorted(r.ordered_writes@),
            keys_unique(r.ordered_writes@),
            keyed_map(r.ordered_writes@, value_of()) == writes_of(val.tx_cache@),
    {
        let writes = val.tx_cache.take_writes();
        proof {
            lemma_sorted_unique(writes@);
        }
        OrderedReadsAndWrites { ordered_reads: val.ordered_db_reads, ordered_writes: writes }
    }
}

/// The projection of a finished scope, as [`OrderedReadsAndWrites::from_cache`] makes it.
impl From<StorageInternalCache> for OrderedReadsAndWrites {
    fn from(val: StorageInternalCache) -> (r: Self)
        ensures
            r.ordered_reads == val.ordered_db_reads,
            keys_sorted(r.ordered_writes@),
            keys_unique(r.ordered_writes@),
            keyed_map(r.ordered_writes@, value_of()) == writes_of(val.tx_cache@),
    {
        OrderedReadsAndWrites::from_cache(val)
    }
}

impl vstd::std_specs::convert::FromSpecImpl<StorageInternalCache> for OrderedReadsAndWrites {
    open spec fn obeys_from_spec() -> bool {
        false
    }

    open spec fn from_spec(v: StorageInternalCache) -> Self {
        arbitrary()
    }
}

} // verus!
