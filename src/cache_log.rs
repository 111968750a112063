//! The log of one scope: for each key touched, the history of that key.
use crate::access::{Access, AccessView, MergeError, MergeErrorView};
use crate::bytes::{lex_lt, same_value, val_view, CacheKey, CacheValue};
use crate::keyed::{
    has_key, keyed_map, keys_sorted, keys_unique, lemma_keyed_index, lemma_keyed_insert,
    lemma_keyed_len, lemma_keyed_push, lemma_keyed_update, lemma_prefix_push, lemma_sorted_unique,
    lemma_sorted_update, search_key,
};
use vstd::prelude::*;

verus! {

/// The content of a [`CacheLog`]: the history of each key it holds.
pub type LogView = Map<Seq<u8>, AccessView>;

/// The content of an entry of a [`CacheLog`].
pub open spec fn access_of() -> spec_fn(Access) -> AccessView {
    |a: Access| a@
}

/// The bytes of a listed value.
pub open spec fn value_of() -> spec_fn(Option<CacheValue>) -> Option<Seq<u8>> {
    |v: Option<CacheValue>| val_view(v)
}

/// Cache entry can be in three states: never inserted in the cache (`No`),
/// present but empty (`Yes(None)`), present with a value (`Yes(Some(value))`).
#[derive(PartialEq, Eq, Debug)]
pub enum ValueExists {
    /// The key exists in the cache.
    Yes(Option<CacheValue>),
    /// The key does not exist in the cache.
    No,
}

/// An error raised when a key is read again with a value other than the one the scope holds.
#[derive(PartialEq, Eq, Debug)]
pub enum ReadError {
    /// The scope holds `expected` for the key, and the read found `found`.
    InconsistentRead { expected: Option<CacheValue>, found: Option<CacheValue> },
}

/// A read of `v` at `k` agrees with what the log holds.
pub open spec fn read_consistent(m: LogView, k: Seq<u8>, v: Option<Seq<u8>>) -> bool {
    m.contains_key(k) ==> m[k].last() == v
}

/// The log after a consistent read of `v` at `k`: only a first read is kept.
pub open spec fn after_read(m: LogView, k: Seq<u8>, v: Option<Seq<u8>>) -> LogView {
    if m.contains_key(k) {
        m
    } else {
        m.insert(k, AccessView::Read(v))
    }
}

/// The log after a write of `v` at `k`.
pub open spec fn after_write(m: LogView, k: Seq<u8>, v: Option<Seq<u8>>) -> LogView {
    if m.contains_key(k) {
        m.insert(k, m[k].after_write(v))
    } else {
        m.insert(k, AccessView::Write(v))
    }
}

/// The final value of every key that the log writes.
pub open spec fn writes_of(m: LogView) -> Map<Seq<u8>, Option<Seq<u8>>> {
    Map::new(|k: Seq<u8>| m.contains_key(k) && m[k].written() is Some, |k: Seq<u8>| m[k].written()->Some_0)
}

/// The read half of each history: a first read, as a plain read.
pub open spec fn read_parts(m: LogView) -> LogView {
    Map::new(
        |k: Seq<u8>| m.contains_key(k) && m[k].first_read() is Some,
        |k: Seq<u8>| AccessView::Read(m[k].first_read()->Some_0),
    )
}

/// The write half of each history: a final write, as a plain write.
pub open spec fn write_parts(m: LogView) -> LogView {
    Map::new(
        |k: Seq<u8>| m.contains_key(k) && m[k].written() is Some,
        |k: Seq<u8>| AccessView::Write(m[k].written()->Some_0),
    )
}

/// No key's history in `l` conflicts with its history in the later log `r`.
pub open spec fn mergeable(l: LogView, r: LogView) -> bool {
    forall|k: Seq<u8>| #[trigger] l.contains_key(k) && r.contains_key(k) ==> (l[k].merge_with(r[k]) is Ok)
}

/// Some key's history in `l` conflicts with its history in `r`, with error `e`.
pub open spec fn conflict(l: LogView, r: LogView, e: MergeErrorView) -> bool {
    exists|k: Seq<u8>| #[trigger] l.contains_key(k) && r.contains_key(k) && l[k].merge_with(r[k]) == Err::<AccessView, MergeErrorView>(e)
}

/// The log `l` followed by the later log `r`: keys of one side only are kept,
/// shared keys get their merged history.
pub open spec fn merged(l: LogView, r: LogView) -> LogView {
    Map::new(
        |k: Seq<u8>| l.contains_key(k) || r.contains_key(k),
        |k: Seq<u8>|
            if l.contains_key(k) && r.contains_key(k) {
                l[k].merge_with(r[k])->Ok_0
            } else if r.contains_key(k) {
                r[k]
            } else {
                l[k]
            },
    )
}

/// Which part of each history of a later log is merged.
enum Part {
    All,
    Reads,
    Writes,
}

impl Part {
    spec fn apply(self, a: AccessView) -> Option<AccessView> {
        match self {
            Part::All => Some(a),
            Part::Reads => match a.first_read() {
                Some(v) => Some(AccessView::Read(v)),
                None => None,
            },
            Part::Writes => match a.written() {
                Some(v) => Some(AccessView::Write(v)),
                None => None,
            },
        }
    }

    spec fn of(self, m: LogView) -> LogView {
        match self {
            Part::All => m,
            Part::Reads => read_parts(m),
            Part::Writes => write_parts(m),
        }
    }

    proof fn lemma_of(self, m: LogView, k: Seq<u8>)
        ensures
            self.of(m).contains_key(k) == (m.contains_key(k) && self.apply(m[k]) is Some),
            self.of(m).contains_key(k) ==> self.of(m)[k] == self.apply(m[k])->Some_0,
    {
    }

    proof fn lemma_of_insert(self, m: LogView, k: Seq<u8>, a: AccessView)
        requires
            !m.contains_key(k),
        ensures
            self.of(m.insert(k, a)) == match self.apply(a) {
                Some(x) => self.of(m).insert(k, x),
                None => self.of(m),
            },
    {
        let lhs = self.of(m.insert(k, a));
        let rhs = match self.apply(a) {
            Some(x) => self.of(m).insert(k, x),
            None => self.of(m),
        };
        assert forall|j: Seq<u8>| #[trigger] lhs.contains_key(j) == rhs.contains_key(j) by {
            self.lemma_of(m.insert(k, a), j);
            self.lemma_of(m, j);
        }
        assert forall|j: Seq<u8>| #[trigger] lhs.contains_key(j) implies lhs[j] == rhs[j] by {
            self.lemma_of(m.insert(k, a), j);
            self.lemma_of(m, j);
        }
        assert(lhs =~= rhs);
    }

    fn filter(&self, a: &Access) -> (r: Option<Access>)
        ensures
            match self.apply(a@) {
                Some(x) => r matches Some(y) && y@ == x,
                None => r is None,
            },
    {
        match self {
            Part::All => Some(a.clone()),
            Part::Reads => match a {
                Access::Read(v) => Some(Access::Read(v.clone())),
                Access::ReadThenWrite { original, .. } => Some(Access::Read(original.clone())),
                Access::Write(_) => None,
            },
            Part::Writes => match a {
                Access::Read(_) => None,
                Access::ReadThenWrite { modified, .. } => Some(Access::Write(modified.clone())),
                Access::Write(v) => Some(Access::Write(v.clone())),
            },
        }
    }
}

proof fn lemma_merged_insert(l: LogView, q: LogView, k: Seq<u8>, x: AccessView)
    requires
        !q.contains_key(k),
    ensures
        merged(l, q.insert(k, x)) == merged(l, q).insert(
            k,
            if l.contains_key(k) {
                l[k].merge_with(x)->Ok_0
            } else {
                x
            },
        ),
{
    assert(merged(l, q.insert(k, x)) =~= merged(l, q).insert(
        k,
        if l.contains_key(k) {
            l[k].merge_with(x)->Ok_0
        } else {
            x
        },
    ));
}

/// CacheLog keeps track of the original and current values of each key accessed.
/// By tracking original values, write patterns where a key is changed temporarily
/// and then reset to its original value are detected and eliminated.
/// The entries are kept in key byte order, so a key is found by binary search.
pub struct CacheLog {
    log: Vec<(CacheKey, Access)>,
}

impl View for CacheLog {
    type V = LogView;

    closed spec fn view(&self) -> LogView {
        keyed_map(self.log@, access_of())
    }
}

impl Default for CacheLog {
    fn default() -> (r: Self)
        ensures
            r@ == LogView::empty(),
    {
        let r = CacheLog { log: Vec::new() };
        assert(r@ =~= LogView::empty());
        r
    }
}

impl CacheLog {
    #[verifier::type_invariant]
    spec fn inv(self) -> bool {
        keys_sorted(self.log@)
    }

    /// Creates an empty cache log with room for `capacity` keys.
    pub fn with_capacity(capacity: usize) -> (r: Self)
        ensures
            r@ == LogView::empty(),
    {
        let r = CacheLog { log: Vec::with_capacity(capacity) };
        assert(r@ =~= LogView::empty());
        r
    }

    /// Moves the entries out, leaving the log empty.
    fn take_log(&mut self) -> (r: Vec<(CacheKey, Access)>)
        ensures
            r == old(self).log,
            final(self).log@ == Seq::<(CacheKey, Access)>::empty(),
    {
        let mut log: Vec<(CacheKey, Access)> = Vec::new();
        std::mem::swap(&mut self.log, &mut log);
        log
    }

    /// Returns the owned key/value pairs that the log writes, each key once with its final value;
    /// keys that were only read are dropped.
    pub fn take_writes(self) -> (r: Vec<(CacheKey, Option<CacheValue>)>)
        ensures
            keys_sorted(r@),
            keyed_map(r@, value_of()) == writes_of(self@),
    {
        proof {
            use_type_invariant(&self);
            lemma_sorted_unique(self.log@);
        }
        let mut out: Vec<(CacheKey, Option<CacheValue>)> = Vec::new();
        let n = self.log.len();
        let mut i: usize = 0;
        proof {
            assert(keyed_map(out@, value_of()) =~= writes_of(keyed_map(self.log@.subrange(0, 0), access_of())));
        }
        while i < n
            invariant
                n == self.log@.len(),
                i <= n,
                keys_unique(self.log@),
                keys_sorted(self.log@),
                keys_unique(out@),
                keys_sorted(out@),
                forall|a: int, b: int| 0 <= a < out@.len() && i <= b < n ==> lex_lt(#[trigger] out@[a].0@, #[trigger] self.log@[b].0@),
                keyed_map(out@, value_of()) == writes_of(keyed_map(self.log@.subrange(0, i as int), access_of())),
            decreases n - i,
        {
            let ghost pre = keyed_map(self.log@.subrange(0, i as int), access_of());
            let ghost k = self.log@[i as int].0@;
            let ghost a = self.log@[i as int].1@;
            proof {
                lemma_prefix_push(self.log@, i as int);
                lemma_keyed_push(self.log@.subrange(0, i as int), access_of(), self.log@[i as int]);
                assert(!pre.contains_key(k));
                assert(!keyed_map(out@, value_of()).contains_key(k));
            }
            let written = match &self.log[i].1 {
                Access::Read(_) => None,
                Access::ReadThenWrite { modified, .. } => Some(modified.clone()),
                Access::Write(v) => Some(v.clone()),
            };
            match written {
                Some(v) => {
                    let entry = (self.log[i].0.clone(), v);
                    let ghost before = out@;
                    proof {
                        lemma_keyed_push(out@, value_of(), entry);
                        assert(writes_of(pre.insert(k, a)) =~= writes_of(pre).insert(k, val_view(entry.1)));
                    }
                    out.push(entry);
                    proof {
                        assert forall|x: int, y: int| 0 <= x < y < out@.len() implies lex_lt(#[trigger] out@[x].0@, #[trigger] out@[y].0@) by {
                            if y == before.len() {
                                assert(lex_lt(before[x].0@, self.log@[i as int].0@));
                            } else {
                                assert(out@[x] == before[x] && out@[y] == before[y]);
                            }
                        }
                        assert forall|x: int, b: int| 0 <= x < out@.len() && i + 1 <= b < n implies lex_lt(#[trigger] out@[x].0@, #[trigger] self.log@[b].0@) by {
                            if x == before.len() {
                                assert(lex_lt(self.log@[i as int].0@, self.log@[b].0@));
                            } else {
                                assert(out@[x] == before[x]);
                            }
                        }
                    }
                },
                None => {
                    proof {
                        assert(writes_of(pre.insert(k, a)) =~= writes_of(pre));
                    }
                },
            }
            i = i + 1;
        }
        proof {
            assert(self.log@.subrange(0, n as int) =~= self.log@);
        }
        out
    }

    /// Reports the value a read of `key` must observe, or `No` if the scope never touched it.
    pub fn get_value(&self, key: &CacheKey) -> (r: ValueExists)
        ensures
            match r {
                ValueExists::Yes(v) => self@.contains_key(key@) && val_view(v) == self@[key@].last(),
                ValueExists::No => !self@.contains_key(key@),
            },
    {
        proof {
            use_type_invariant(self);
        }
        proof {
            lemma_sorted_unique(self.log@);
        }
        match search_key(&self.log, key) {
            Ok(i) => {
                proof {
                    lemma_keyed_index(self.log@, access_of(), i as int);
                }
                ValueExists::Yes(self.log[i].1.last_value().clone())
            },
            Err(_) => ValueExists::No,
        }
    }

    /// Records a read of `value` at `key`. The first read of a key is kept; a later one must
    /// agree with what the scope holds for the key and is then discarded.
    pub fn add_read(&mut self, key: CacheKey, value: Option<CacheValue>) -> (r: Result<(), ReadError>)
        ensures
            r is Ok <==> read_consistent(old(self)@, key@, val_view(value)),
            r is Ok ==> final(self)@ == after_read(old(self)@, key@, val_view(value)),
            r matches Err(ReadError::InconsistentRead { expected, found }) ==> {
                &&& final(self)@ == old(self)@
                &&& val_view(expected) == old(self)@[key@].last()
                &&& val_view(found) == val_view(value)
            },
    {
        proof {
            use_type_invariant(&*self);
            lemma_sorted_unique(self.log@);
        }
        match search_key(&self.log, &key) {
            Ok(i) => {
                proof {
                    lemma_keyed_index(self.log@, access_of(), i as int);
                }
                let last_value = self.log[i].1.last_value();
                if !same_value(last_value, &value) {
                    return Err(ReadError::InconsistentRead { expected: last_value.clone(), found: value });
                }
                Ok(())
            },
            Err(pos) => {
                let entry = (key, Access::Read(value));
                proof {
                    lemma_keyed_insert(self.log@, access_of(), pos as int, entry);
                }
                let mut log = self.take_log();
                log.insert(pos, entry);
                self.log = log;
                Ok(())
            },
        }
    }

    /// Records a write of `value` at `key`.
    pub fn add_write(&mut self, key: CacheKey, value: Option<CacheValue>)
        ensures
            final(self)@ == after_write(old(self)@, key@, val_view(value)),
    {
        proof {
            use_type_invariant(&*self);
            lemma_sorted_unique(self.log@);
        }
        match search_key(&self.log, &key) {
            Ok(i) => {
                proof {
                    lemma_keyed_index(self.log@, access_of(), i as int);
                }
                let mut access = self.log[i].1.clone();
                access.write_value(value);
                let entry = (key, access);
                proof {
                    lemma_keyed_update(self.log@, access_of(), i as int, entry);
                    lemma_sorted_update(self.log@, i as int, entry);
                }
                let mut log = self.take_log();
                log.set(i, entry);
                self.log = log;
            },
            Err(pos) => {
                let entry = (key, Access::Write(value));
                proof {
                    lemma_keyed_insert(self.log@, access_of(), pos as int, entry);
                }
                let mut log = self.take_log();
                log.insert(pos, entry);
                self.log = log;
            },
        }
    }

    /// Merges the later log `rhs` into this one, keeping the first read (from `self`) and the
    /// last write (from `rhs`) of each key. On a conflict `self` is left as it was.
    pub fn merge_left(&mut self, rhs: Self) -> (r: Result<(), MergeError>)
        ensures
            r is Ok <==> mergeable(old(self)@, rhs@),
            r is Ok ==> final(self)@ == merged(old(self)@, rhs@),
            r matches Err(e) ==> final(self)@ == old(self)@ && conflict(old(self)@, rhs@, e@),
    {
        self.merge_left_with_filter_map(rhs, Part::All)
    }

    /// Merges only the writes of the later log `rhs` into this one, each as a plain write.
    /// On a conflict `self` is left as it was.
    pub fn merge_writes_left(&mut self, rhs: Self) -> (r: Result<(), MergeError>)
        ensures
            r is Ok <==> mergeable(old(self)@, write_parts(rhs@)),
            r is Ok ==> final(self)@ == merged(old(self)@, write_parts(rhs@)),
            r matches Err(e) ==> final(self)@ == old(self)@ && conflict(old(self)@, write_parts(rhs@), e@),
    {
        self.merge_left_with_filter_map(rhs, Part::Writes)
    }

    /// Merges only the reads of the later log `rhs` into this one, each as a plain read.
    /// On a conflict `self` is left as it was.
    pub fn merge_reads_left(&mut self, rhs: Self) -> (r: Result<(), MergeError>)
        ensures
            r is Ok <==> mergeable(old(self)@, read_parts(rhs@)),
            r is Ok ==> final(self)@ == merged(old(self)@, read_parts(rhs@)),
            r matches Err(e) ==> final(self)@ == old(self)@ && conflict(old(self)@, read_parts(rhs@), e@),
    {
        self.merge_left_with_filter_map(rhs, Part::Reads)
    }

    fn merge_left_with_filter_map(&mut self, rhs: Self, part: Part) -> (r: Result<(), MergeError>)
        ensures
            r is Ok <==> mergeable(old(self)@, part.of(rhs@)),
            r is Ok ==> final(self)@ == merged(old(self)@, part.of(rhs@)),
            r matches Err(e) ==> final(self)@ == old(self)@ && conflict(old(self)@, part.of(rhs@), e@),
    {
        proof {
            use_type_invariant(&*self);
            use_type_invariant(&rhs);
            lemma_sorted_unique(self.log@);
            lemma_sorted_unique(rhs.log@);
        }
        let ghost l = self@;
        let ghost p = part.of(rhs@);
        let n = rhs.log.len();
        // First pass: find a conflict before anything changes.
        let mut i: usize = 0;
        while i < n
            invariant
                n == rhs.log@.len(),
                i <= n,
                keys_unique(rhs.log@),
                keys_unique(self.log@),
                keys_sorted(self.log@),
                self@ == l,
                p == part.of(rhs@),
                forall|k: Seq<u8>|
                    #[trigger] p.contains_key(k) && l.contains_key(k) && has_key(rhs.log@.subrange(0, i as int), k)
                        ==> (l[k].merge_with(p[k]) is Ok),
            decreases n - i,
        {
            let ghost k = rhs.log@[i as int].0@;
            proof {
                lemma_keyed_index(rhs.log@, access_of(), i as int);
                part.lemma_of(rhs@, k);
                lemma_prefix_push(rhs.log@, i as int);
            }
            if let Some(a) = part.filter(&rhs.log[i].1) {
                if let Ok(j) = search_key(&self.log, &rhs.log[i].0) {
                    proof {
                        lemma_keyed_index(self.log@, access_of(), j as int);
                    }
                    if let Err(e) = self.log[j].1.merged_with(a) {
                        proof {
                            assert(l.contains_key(k) && p.contains_key(k));
                        }
                        return Err(e);
                    }
                }
            }
            proof {
                assert forall|k2: Seq<u8>|
                    #[trigger] p.contains_key(k2) && l.contains_key(k2) && has_key(rhs.log@.subrange(0, i + 1), k2)
                        implies (l[k2].merge_with(p[k2]) is Ok) by {
                    let s = rhs.log@.subrange(0, i + 1);
                    let t = choose|t: int| 0 <= t < s.len() && #[trigger] s[t].0@ == k2;
                    if t < i {
                        assert(rhs.log@.subrange(0, i as int)[t] == s[t]);
                    } else {
                        assert(k2 == k);
                        assert(has_key(self.log@, k));
                    }
                }
            }
            i = i + 1;
        }
        proof {
            assert(rhs.log@.subrange(0, n as int) =~= rhs.log@);
            assert forall|k: Seq<u8>| #[trigger] l.contains_key(k) && p.contains_key(k) implies (l[k].merge_with(p[k]) is Ok) by {
                part.lemma_of(rhs@, k);
            }
        }
        // Second pass: no conflict is left, so every merge succeeds.
        let mut log = self.take_log();
        let mut i: usize = 0;
        proof {
            assert(part.of(keyed_map(rhs.log@.subrange(0, 0), access_of())) =~= LogView::empty());
            assert(merged(l, LogView::empty()) =~= l);
        }
        while i < n
            invariant
                n == rhs.log@.len(),
                i <= n,
                keys_unique(rhs.log@),
                keys_sorted(log@),
                p == part.of(rhs@),
                mergeable(l, p),
                keyed_map(log@, access_of()) == merged(l, part.of(keyed_map(rhs.log@.subrange(0, i as int), access_of()))),
            decreases n - i,
        {
            let ghost pre = keyed_map(rhs.log@.subrange(0, i as int), access_of());
            let ghost q = part.of(pre);
            let ghost k = rhs.log@[i as int].0@;
            let ghost a = rhs.log@[i as int].1@;
            proof {
                lemma_keyed_index(rhs.log@, access_of(), i as int);
                part.lemma_of(rhs@, k);
                lemma_prefix_push(rhs.log@, i as int);
                lemma_keyed_push(rhs.log@.subrange(0, i as int), access_of(), rhs.log@[i as int]);
                assert(!pre.contains_key(k));
                part.lemma_of(pre, k);
                part.lemma_of_insert(pre, k, a);
                assert(keyed_map(rhs.log@.subrange(0, i + 1), access_of()) == pre.insert(k, a));
                assert(!q.contains_key(k));
            }
            if let Some(x) = part.filter(&rhs.log[i].1) {
                proof {
                    lemma_merged_insert(l, q, k, x@);
                }
                proof {
                    lemma_sorted_unique(log@);
                }
                match search_key(&log, &rhs.log[i].0) {
                    Ok(j) => {
                        proof {
                            lemma_keyed_index(log@, access_of(), j as int);
                        }
                        proof {
                            assert(l.contains_key(k));
                            assert(log@[j as int].1@ == l[k]);
                            assert(p.contains_key(k) && p[k] == x@);
                        }
                        let mut access = log[j].1.clone();
                        let _ = access.merge(x);
                        let entry = (log[j].0.clone(), access);
                        proof {
                            lemma_keyed_update(log@, access_of(), j as int, entry);
                            lemma_sorted_update(log@, j as int, entry);
                            assert(entry.1@ == l[k].merge_with(x@)->Ok_0);
                        }
                        log.set(j, entry);
                    },
                    Err(pos) => {
                        let entry = (rhs.log[i].0.clone(), x);
                        proof {
                            lemma_keyed_insert(log@, access_of(), pos as int, entry);
                            assert(!keyed_map(log@, access_of()).contains_key(k));
                            assert(!merged(l, q).contains_key(k));
                            assert(!l.contains_key(k));
                        }
                        log.insert(pos, entry);
                    },
                }
            }
            i = i + 1;
        }
        proof {
            assert(rhs.log@.subrange(0, n as int) =~= rhs.log@);
        }
        self.log = log;
        Ok(())
    }

    /// Returns the number of keys in the log.
    pub fn len(&self) -> (r: usize)
        ensures
            r == self@.len(),
    {
        proof {
            use_type_invariant(self);
            lemma_sorted_unique(self.log@);
            lemma_keyed_len(self.log@, access_of());
        }
        self.log.len()
    }

    /// Returns `true` if the log holds no key.
    pub fn is_empty(&self) -> (r: bool)
        ensures
            r == (self@.len() == 0),
    {
        proof {
            use_type_invariant(self);
            lemma_sorted_unique(self.log@);
            lemma_keyed_len(self.log@, access_of());
        }
        self.log.len() == 0
    }
}

} // verus!
