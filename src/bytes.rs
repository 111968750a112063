//! Keys and values of the cache: shared, immutable byte sequences, with
//! byte equality and the lexicographic byte order.
use std::sync::Arc;
use vstd::prelude::*;

verus! {

/// A key for a cache set.
#[derive(Debug, Eq, Hash, PartialOrd, Ord)]
pub struct CacheKey {
    /// The key of the cache entry.
    pub key: Arc<Vec<u8>>,
}

/// A value stored in the cache.
#[derive(Debug, Eq)]
pub struct CacheValue {
    /// The value of the cache entry.
    pub value: Arc<Vec<u8>>,
}

impl View for CacheKey {
    type V = Seq<u8>;

    open spec fn view(&self) -> Seq<u8> {
        self.key@
    }
}

impl View for CacheValue {
    type V = Seq<u8>;

    open spec fn view(&self) -> Seq<u8> {
        self.value@
    }
}

/// The bytes of a possibly absent value; `None` is a tombstone.
pub open spec fn val_view(v: Option<CacheValue>) -> Option<Seq<u8>> {
    match v {
        Some(c) => Some(c@),
        None => None,
    }
}

/// Byte-wise equality of two byte vectors.
pub fn bytes_eq(a: &Vec<u8>, b: &Vec<u8>) -> (r: bool)
    ensures
        r == (a@ == b@),
{
    if a.len() != b.len() {
        return false;
    }
    let mut i: usize = 0;
    while i < a.len()
        invariant
            a@.len() == b@.len(),
            i <= a@.len(),
            a@.subrange(0, i as int) == b@.subrange(0, i as int),
        decreases a@.len() - i,
    {
        if a[i] != b[i] {
            return false;
        }
        proof {
            assert(a@.subrange(0, i + 1) == a@.subrange(0, i as int).push(a@[i as int]));
            assert(b@.subrange(0, i + 1) == b@.subrange(0, i as int).push(b@[i as int]));
        }
        i = i + 1;
    }
    proof {
        assert(a@ == a@.subrange(0, a@.len() as int));
        assert(b@ == b@.subrange(0, b@.len() as int));
    }
    true
}

impl CacheKey {
    /// Wraps the given bytes as a key.
    pub fn new(bytes: Vec<u8>) -> (r: CacheKey)
        ensures
            r@ == bytes@,
    {
        CacheKey { key: Arc::new(bytes) }
    }
}

impl CacheValue {
    /// Wraps the given bytes as a value.
    pub fn new(bytes: Vec<u8>) -> (r: CacheValue)
        ensures
            r@ == bytes@,
    {
        CacheValue { value: Arc::new(bytes) }
    }
}

impl Clone for CacheKey {
    fn clone(&self) -> (r: Self)
        ensures
            r == *self,
    {
        CacheKey { key: self.key.clone() }
    }
}

impl Clone for CacheValue {
    fn clone(&self) -> (r: Self)
        ensures
            r == *self,
    {
        CacheValue { value: self.value.clone() }
    }
}

impl PartialEq for CacheKey {
    fn eq(&self, other: &CacheKey) -> (r: bool) {
        bytes_eq(&self.key, &other.key)
    }
}

impl vstd::std_specs::cmp::PartialEqSpecImpl for CacheKey {
    open spec fn obeys_eq_spec() -> bool {
        true
    }

    open spec fn eq_spec(&self, other: &CacheKey) -> bool {
        self@ == other@
    }
}

impl PartialEq for CacheValue {
    fn eq(&self, other: &CacheValue) -> (r: bool) {
        bytes_eq(&self.value, &other.value)
    }
}

impl vstd::std_specs::cmp::PartialEqSpecImpl for CacheValue {
    open spec fn obeys_eq_spec() -> bool {
        true
    }

    open spec fn eq_spec(&self, other: &CacheValue) -> bool {
        self@ == other@
    }
}

/// Whether two possibly absent values hold the same bytes.
pub fn same_value(a: &Option<CacheValue>, b: &Option<CacheValue>) -> (r: bool)
    ensures
        r == (val_view(*a) == val_view(*b)),
{
    match (a, b) {
        (Some(x), Some(y)) => bytes_eq(&x.value, &y.value),
        (None, None) => true,
        _ => false,
    }
}

/// Whether `a` comes strictly before `b` in lexicographic byte order, both
/// being equal on their first `i` bytes.
pub open spec fn lex_lt_from(a: Seq<u8>, b: Seq<u8>, i: nat) -> bool
    decreases a.len() - i,
{
    if i >= a.len() {
        i < b.len()
    } else if i >= b.len() {
        false
    } else if a[i as int] != b[i as int] {
        a[i as int] < b[i as int]
    } else {
        lex_lt_from(a, b, i + 1)
    }
}

/// Strict lexicographic byte order, the order of `Vec<u8>` in std.
pub open spec fn lex_lt(a: Seq<u8>, b: Seq<u8>) -> bool {
    lex_lt_from(a, b, 0)
}

proof fn lemma_lex_irreflexive_from(a: Seq<u8>, i: nat)
    ensures
        !lex_lt_from(a, a, i),
    decreases a.len() - i,
{
    if i < a.len() {
        lemma_lex_irreflexive_from(a, i + 1);
    }
}

proof fn lemma_lex_asymmetric_from(a: Seq<u8>, b: Seq<u8>, i: nat)
    ensures
        !(lex_lt_from(a, b, i) && lex_lt_from(b, a, i)),
    decreases a.len() - i,
{
    if i < a.len() && i < b.len() && a[i as int] == b[i as int] {
        lemma_lex_asymmetric_from(a, b, i + 1);
    }
}

proof fn lemma_lex_total_from(a: Seq<u8>, b: Seq<u8>, i: nat)
    requires
        i <= a.len(),
        i <= b.len(),
        a.subrange(0, i as int) == b.subrange(0, i as int),
        a != b,
    ensures
        lex_lt_from(a, b, i) || lex_lt_from(b, a, i),
    decreases a.len() - i,
{
    if i == a.len() && i == b.len() {
        assert(a == a.subrange(0, i as int));
        assert(b == b.subrange(0, i as int));
    } else if i < a.len() && i < b.len() && a[i as int] == b[i as int] {
        assert(a.subrange(0, (i + 1) as int) == a.subrange(0, i as int).push(a[i as int]));
        assert(b.subrange(0, (i + 1) as int) == b.subrange(0, i as int).push(b[i as int]));
        lemma_lex_total_from(a, b, i + 1);
    }
}

proof fn lemma_lex_transitive_from(a: Seq<u8>, b: Seq<u8>, c: Seq<u8>, i: nat)
    requires
        lex_lt_from(a, b, i),
        lex_lt_from(b, c, i),
    ensures
        lex_lt_from(a, c, i),
    decreases a.len() - i,
{
    if i < a.len() && i < b.len() && i < c.len() && a[i as int] == b[i as int] && b[i as int]
        == c[i as int] {
        lemma_lex_transitive_from(a, b, c, i + 1);
    }
}

/// The byte order is a strict total order.
pub proof fn lemma_lex_order(a: Seq<u8>, b: Seq<u8>, c: Seq<u8>)
    ensures
        !lex_lt(a, a),
        !(lex_lt(a, b) && lex_lt(b, a)),
        a != b ==> lex_lt(a, b) || lex_lt(b, a),
        lex_lt(a, b) && lex_lt(b, c) ==> lex_lt(a, c),
{
    lemma_lex_irreflexive_from(a, 0);
    lemma_lex_asymmetric_from(a, b, 0);
    if a != b {
        assert(a.subrange(0, 0) == b.subrange(0, 0));
        lemma_lex_total_from(a, b, 0);
    }
    if lex_lt(a, b) && lex_lt(b, c) {
        lemma_lex_transitive_from(a, b, c, 0);
    }
}

/// Compares two byte vectors in lexicographic order.
pub fn bytes_lt(a: &Vec<u8>, b: &Vec<u8>) -> (r: bool)
    ensures
        r == lex_lt(a@, b@),
{
    let mut i: usize = 0;
    while i < a.len() && i < b.len()
        invariant
            i <= a@.len(),
            i <= b@.len(),
            lex_lt(a@, b@) == lex_lt_from(a@, b@, i as nat),
        decreases a@.len() - i,
    {
        if a[i] != b[i] {
            return a[i] < b[i];
        }
        i = i + 1;
    }
    i < b.len()
}

} // verus!
