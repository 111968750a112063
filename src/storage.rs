//! Keys and values as the storage backend sees them, the versioned cache key of
//! a storage key, and the backend's single-key read.
use crate::bytes::{bytes_eq, CacheKey, CacheValue};
use std::sync::Arc;
use vstd::prelude::*;

verus! {

/// A key of the storage backend.
#[derive(Debug, Eq)]
pub struct StorageKey {
    /// The bytes of the key.
    pub key: Arc<Vec<u8>>,
}

/// A value of the storage backend.
#[derive(Debug, Eq)]
pub struct StorageValue {
    /// The bytes of the value.
    pub value: Arc<Vec<u8>>,
}

impl View for StorageKey {
    type V = Seq<u8>;

    open spec fn view(&self) -> Seq<u8> {
        self.key@
    }
}

impl View for StorageValue {
    type V = Seq<u8>;

    open spec fn view(&self) -> Seq<u8> {
        self.value@
    }
}

/// The bytes of a possibly absent storage value.
pub open spec fn stored_view(v: Option<StorageValue>) -> Option<Seq<u8>> {
    match v {
        Some(s) => Some(s@),
        None => None,
    }
}

/// The eight bytes of `v`, most significant first.
pub open spec fn version_bytes(v: u64) -> Seq<u8> {
    seq![
        (v >> 56u64) as u8,
        (v >> 48u64) as u8,
        (v >> 40u64) as u8,
        (v >> 32u64) as u8,
        (v >> 24u64) as u8,
        (v >> 16u64) as u8,
        (v >> 8u64) as u8,
        v as u8,
    ]
}

/// The cache key of storage key `k` in a scope of version `version`: the key itself, or
/// the key prefixed with the version's bytes.
pub open spec fn versioned_key(k: Seq<u8>, version: Option<u64>) -> Seq<u8> {
    match version {
        None => k,
        Some(v) => version_bytes(v) + k,
    }
}

/// Under one version, distinct storage keys have distinct cache keys.
pub proof fn lemma_versioned_key_injective(a: Seq<u8>, b: Seq<u8>, version: Option<u64>)
    ensures
        versioned_key(a, version) == versioned_key(b, version) ==> a == b,
{
    if let Some(v) = version {
        if versioned_key(a, version) == versioned_key(b, version) {
            let p = version_bytes(v);
            assert(a =~= (p + a).subrange(8, (p + a).len() as int));
            assert(b =~= (p + b).subrange(8, (p + b).len() as int));
        }
    }
}

impl StorageKey {
    /// Wraps the given bytes as a storage key.
    pub fn new(bytes: Vec<u8>) -> (r: StorageKey)
        ensures
            r@ == bytes@,
    {
        StorageKey { key: Arc::new(bytes) }
    }

    /// The cache key of this storage key in a scope of version `version`.
    pub fn to_cache_key_version(&self, version: Option<u64>) -> (r: CacheKey)
        ensures
            r@ == versioned_key(self@, version),
    {
        match version {
            None => CacheKey { key: self.key.clone() },
            Some(v) => {
                let mut bytes: Vec<u8> = Vec::new();
                bytes.push((v >> 56u64) as u8);
                bytes.push((v >> 48u64) as u8);
                bytes.push((v >> 40u64) as u8);
                bytes.push((v >> 32u64) as u8);
                bytes.push((v >> 24u64) as u8);
                bytes.push((v >> 16u64) as u8);
                bytes.push((v >> 8u64) as u8);
                bytes.push(v as u8);
                proof {
                    assert(bytes@ =~= version_bytes(v));
                }
                let n = self.key.len();
                let mut i: usize = 0;
                while i < n
                    invariant
                        n == self.key@.len(),
                        i <= n,
                        bytes@ == version_bytes(v) + self.key@.subrange(0, i as int),
                    decreases n - i,
                {
                    proof {
                        assert(self.key@.subrange(0, i + 1) =~= self.key@.subrange(0, i as int).push(
                            self.key@[i as int],
                        ));
                    }
                    bytes.push(self.key[i]);
                    i = i + 1;
                }
                proof {
                    assert(self.key@.subrange(0, n as int) =~= self.key@);
                }
                CacheKey { key: Arc::new(bytes) }
            },
        }
    }
}

impl StorageValue {
    /// Wraps the given bytes as a storage value.
    pub fn new(bytes: Vec<u8>) -> (r: StorageValue)
        ensures
            r@ == bytes@,
    {
        StorageValue { value: Arc::new(bytes) }
    }

    /// The cache value holding the same bytes.
    pub fn into_cache_value(self) -> (r: CacheValue)
        ensures
            r@ == self@,
    {
        CacheValue { value: self.value }
    }

    /// The storage value holding the bytes of a cache value.
    pub fn from_cache_value(v: CacheValue) -> (r: StorageValue)
        ensures
            r@ == v@,
    {
        StorageValue { value: v.value }
    }
}

impl Clone for StorageKey {
    fn clone(&self) -> (r: Self)
        ensures
            r == *self,
    {
        StorageKey { key: self.key.clone() }
    }
}

impl Clone for StorageValue {
    fn clone(&self) -> (r: Self)
        ensures
            r == *self,
    {
        StorageValue { value: self.value.clone() }
    }
}

impl PartialEq for StorageKey {
    fn eq(&self, other: &StorageKey) -> (r: bool) {
        bytes_eq(&self.key, &other.key)
    }
}

impl vstd::std_specs::cmp::PartialEqSpecImpl for StorageKey {
    open spec fn obeys_eq_spec() -> bool {
        true
    }

    open spec fn eq_spec(&self, other: &StorageKey) -> bool {
        self@ == other@
    }
}

impl PartialEq for StorageValue {
    fn eq(&self, other: &StorageValue) -> (r: bool) {
        bytes_eq(&self.value, &other.value)
    }
}

impl vstd::std_specs::cmp::PartialEqSpecImpl for StorageValue {
    open spec fn obeys_eq_spec() -> bool {
        true
    }

    open spec fn eq_spec(&self, other: &StorageValue) -> bool {
        self@ == other@
    }
}

/// A versioned key-value store that answers single-key reads.
pub trait Storage {
    /// Data the store may use to prove a read; the cache only passes it on.
    type Witness;

    /// The value stored at `key` in version `version`, or `None` if there is none.
    fn get(&self, key: &StorageKey, version: Option<u64>, witness: &Self::Witness) -> Option<StorageValue>;
}

} // verus!
