//! Sequences of key/payload entries with pairwise distinct keys, read as maps
//! from key bytes to the payloads' contents, and kept in key byte order.
use crate::bytes::{bytes_lt, lemma_lex_order, lex_lt, CacheKey};
use vstd::prelude::*;

verus! {

/// Whether some entry of `s` has key bytes `k`.
pub open spec fn has_key<A>(s: Seq<(CacheKey, A)>, k: Seq<u8>) -> bool {
    exists|i: int| 0 <= i < s.len() && #[trigger] s[i].0@ == k
}

/// The position of an entry of `s` with key bytes `k`, if there is one.
pub open spec fn key_index<A>(s: Seq<(CacheKey, A)>, k: Seq<u8>) -> int {
    choose|i: int| 0 <= i < s.len() && #[trigger] s[i].0@ == k
}

/// No two entries of `s` have the same key bytes.
pub open spec fn keys_unique<A>(s: Seq<(CacheKey, A)>) -> bool {
    forall|i: int, j: int|
        0 <= i < s.len() && 0 <= j < s.len() && i != j ==> #[trigger] s[i].0@ != #[trigger] s[j].0@
}

/// The map from each key of `s` to `f` of its payload.
pub open spec fn keyed_map<A, B>(s: Seq<(CacheKey, A)>, f: spec_fn(A) -> B) -> Map<Seq<u8>, B> {
    Map::new(|k: Seq<u8>| has_key(s, k), |k: Seq<u8>| f(s[key_index(s, k)].1))
}

/// An entry's key is in the map, with `f` of that entry's payload.
pub proof fn lemma_keyed_index<A, B>(s: Seq<(CacheKey, A)>, f: spec_fn(A) -> B, i: int)
    requires
        keys_unique(s),
        0 <= i < s.len(),
    ensures
        keyed_map(s, f).contains_key(s[i].0@),
        keyed_map(s, f)[s[i].0@] == f(s[i].1),
{
    let k = s[i].0@;
    assert(has_key(s, k));
    let j = key_index(s, k);
    assert(s[j].0@ == k);
    assert(i == j);
}

/// Appending an entry with a new key inserts that key.
pub proof fn lemma_keyed_push<A, B>(s: Seq<(CacheKey, A)>, f: spec_fn(A) -> B, x: (CacheKey, A))
    requires
        keys_unique(s),
        !has_key(s, x.0@),
    ensures
        keys_unique(s.push(x)),
        keyed_map(s.push(x), f) == keyed_map(s, f).insert(x.0@, f(x.1)),
{
    let t = s.push(x);
    assert forall|i: int, j: int|
        0 <= i < t.len() && 0 <= j < t.len() && i != j implies #[trigger] t[i].0@ != #[trigger] t[j].0@ by {
        if i == s.len() {
            assert(s[j].0@ == t[j].0@);
        } else if j == s.len() {
            assert(s[i].0@ == t[i].0@);
        }
    }
    let m = keyed_map(s, f).insert(x.0@, f(x.1));
    assert forall|k: Seq<u8>| #[trigger] m.contains_key(k) == has_key(t, k) by {
        if has_key(s, k) {
            let i = choose|i: int| 0 <= i < s.len() && #[trigger] s[i].0@ == k;
            assert(t[i].0@ == k);
        }
        if has_key(t, k) && k != x.0@ {
            let i = choose|i: int| 0 <= i < t.len() && #[trigger] t[i].0@ == k;
            assert(s[i].0@ == k);
        }
        if k == x.0@ {
            assert(t[s.len() as int].0@ == k);
        }
    }
    assert forall|k: Seq<u8>| #[trigger] m.contains_key(k) implies keyed_map(t, f)[k] == m[k] by {
        let i = choose|i: int| 0 <= i < t.len() && #[trigger] t[i].0@ == k;
        lemma_keyed_index(t, f, i);
        if i < s.len() {
            assert(s[i] == t[i]);
            lemma_keyed_index(s, f, i);
        }
    }
    assert(keyed_map(t, f) =~= m);
}

/// Replacing the payload of an entry updates that key.
pub proof fn lemma_keyed_update<A, B>(s: Seq<(CacheKey, A)>, f: spec_fn(A) -> B, i: int, x: (CacheKey, A))
    requires
        keys_unique(s),
        0 <= i < s.len(),
        x.0@ == s[i].0@,
    ensures
        keys_unique(s.update(i, x)),
        keyed_map(s.update(i, x), f) == keyed_map(s, f).insert(x.0@, f(x.1)),
{
    let t = s.update(i, x);
    assert forall|a: int, b: int|
        0 <= a < t.len() && 0 <= b < t.len() && a != b implies #[trigger] t[a].0@ != #[trigger] t[b].0@ by {
        assert(t[a].0@ == s[a].0@);
        assert(t[b].0@ == s[b].0@);
    }
    let m = keyed_map(s, f).insert(x.0@, f(x.1));
    assert forall|k: Seq<u8>| #[trigger] m.contains_key(k) == has_key(t, k) by {
        if has_key(s, k) {
            let j = choose|j: int| 0 <= j < s.len() && #[trigger] s[j].0@ == k;
            assert(t[j].0@ == k);
        }
        if has_key(t, k) {
            let j = choose|j: int| 0 <= j < t.len() && #[trigger] t[j].0@ == k;
            assert(s[j].0@ == k);
        }
        assert(t[i].0@ == x.0@);
    }
    assert forall|k: Seq<u8>| #[trigger] m.contains_key(k) implies keyed_map(t, f)[k] == m[k] by {
        let j = choose|j: int| 0 <= j < t.len() && #[trigger] t[j].0@ == k;
        lemma_keyed_index(t, f, j);
        if j != i {
            assert(s[j] == t[j]);
            lemma_keyed_index(s, f, j);
        }
    }
    assert(keyed_map(t, f) =~= m);
}

/// The map of a sequence has one key per entry.
pub proof fn lemma_keyed_len<A, B>(s: Seq<(CacheKey, A)>, f: spec_fn(A) -> B)
    requires
        keys_unique(s),
    ensures
        keyed_map(s, f).dom().finite(),
        keyed_map(s, f).dom().len() == s.len(),
    decreases s.len(),
{
    if s.len() == 0 {
        assert(keyed_map(s, f).dom() =~= Set::empty());
    } else {
        let p = s.drop_last();
        let x = s.last();
        assert(s == p.push(x));
        assert(keys_unique(p)) by {
            assert forall|i: int, j: int|
                0 <= i < p.len() && 0 <= j < p.len() && i != j implies #[trigger] p[i].0@
                != #[trigger] p[j].0@ by {
                assert(p[i] == s[i] && p[j] == s[j]);
            }
        }
        assert(!has_key(p, x.0@)) by {
            if has_key(p, x.0@) {
                let i = choose|i: int| 0 <= i < p.len() && #[trigger] p[i].0@ == x.0@;
                assert(s[i].0@ == s[s.len() - 1].0@);
            }
        }
        lemma_keyed_len(p, f);
        lemma_keyed_push(p, f, x);
    }
}

/// The entries before position `i`, and the one at `i`, make the entries before `i + 1`.
pub proof fn lemma_prefix_push<A>(s: Seq<(CacheKey, A)>, i: int)
    requires
        keys_unique(s),
        0 <= i < s.len(),
    ensures
        keys_unique(s.subrange(0, i)),
        !has_key(s.subrange(0, i), s[i].0@),
        s.subrange(0, i + 1) == s.subrange(0, i).push(s[i]),
{
    let p = s.subrange(0, i);
    assert forall|a: int, b: int|
        0 <= a < p.len() && 0 <= b < p.len() && a != b implies #[trigger] p[a].0@ != #[trigger] p[b].0@ by {
        assert(p[a] == s[a] && p[b] == s[b]);
    }
    if has_key(p, s[i].0@) {
        let a = choose|a: int| 0 <= a < p.len() && #[trigger] p[a].0@ == s[i].0@;
        assert(p[a] == s[a]);
    }
    assert(s.subrange(0, i + 1) =~= p.push(s[i]));
}

/// The keys of `s` are in strictly increasing byte order.
pub open spec fn keys_sorted<A>(s: Seq<(CacheKey, A)>) -> bool {
    forall|i: int, j: int| 0 <= i < j < s.len() ==> lex_lt(#[trigger] s[i].0@, #[trigger] s[j].0@)
}

/// Keys in strictly increasing order are distinct.
pub proof fn lemma_sorted_unique<A>(s: Seq<(CacheKey, A)>)
    requires
        keys_sorted(s),
    ensures
        keys_unique(s),
{
    assert forall|i: int, j: int| 0 <= i < s.len() && 0 <= j < s.len() && i != j implies #[trigger] s[i].0@
        != #[trigger] s[j].0@ by {
        lemma_lex_order(s[i].0@, s[j].0@, s[i].0@);
    }
}

/// Replacing an entry by one with the same key keeps the order.
pub proof fn lemma_sorted_update<A>(s: Seq<(CacheKey, A)>, i: int, x: (CacheKey, A))
    requires
        keys_sorted(s),
        0 <= i < s.len(),
        x.0@ == s[i].0@,
    ensures
        keys_sorted(s.update(i, x)),
{
    let t = s.update(i, x);
    assert forall|a: int, b: int| 0 <= a < b < t.len() implies lex_lt(#[trigger] t[a].0@, #[trigger] t[b].0@) by {
        assert(t[a].0@ == s[a].0@ && t[b].0@ == s[b].0@);
    }
}

/// Inserting an entry with a new key at its place in the order inserts that key.
pub proof fn lemma_keyed_insert<A, B>(s: Seq<(CacheKey, A)>, f: spec_fn(A) -> B, pos: int, x: (CacheKey, A))
    requires
        keys_sorted(s),
        0 <= pos <= s.len(),
        forall|j: int| 0 <= j < pos ==> lex_lt(#[trigger] s[j].0@, x.0@),
        forall|j: int| pos <= j < s.len() ==> lex_lt(x.0@, #[trigger] s[j].0@),
    ensures
        keys_sorted(s.insert(pos, x)),
        keyed_map(s.insert(pos, x), f) == keyed_map(s, f).insert(x.0@, f(x.1)),
{
    let t = s.insert(pos, x);
    assert(t.len() == s.len() + 1);
    lemma_lex_order(x.0@, x.0@, x.0@);
    lemma_sorted_unique(s);
    assert forall|i: int, j: int| 0 <= i < j < t.len() implies lex_lt(#[trigger] t[i].0@, #[trigger] t[j].0@) by {
        if i < pos && j > pos {
            assert(t[i] == s[i] && t[j] == s[j - 1]);
            lemma_lex_order(t[i].0@, x.0@, t[j].0@);
        } else if i < pos && j < pos {
            assert(t[i] == s[i] && t[j] == s[j]);
        } else if i > pos {
            assert(t[i] == s[i - 1] && t[j] == s[j - 1]);
        } else if i == pos {
            assert(t[j] == s[j - 1]);
        } else {
            assert(t[i] == s[i]);
        }
    }
    lemma_sorted_unique(t);
    let m = keyed_map(s, f).insert(x.0@, f(x.1));
    assert forall|k: Seq<u8>| #[trigger] m.contains_key(k) == has_key(t, k) by {
        if has_key(s, k) {
            let a = choose|a: int| 0 <= a < s.len() && #[trigger] s[a].0@ == k;
            if a < pos {
                assert(t[a] == s[a]);
            } else {
                assert(t[a + 1] == s[a]);
            }
        }
        if has_key(t, k) {
            let a = choose|a: int| 0 <= a < t.len() && #[trigger] t[a].0@ == k;
            if a < pos {
                assert(t[a] == s[a]);
            } else if a > pos {
                assert(t[a] == s[a - 1]);
            }
        }
        assert(t[pos] == x);
    }
    assert forall|k: Seq<u8>| #[trigger] m.contains_key(k) implies keyed_map(t, f)[k] == m[k] by {
        let a = choose|a: int| 0 <= a < t.len() && #[trigger] t[a].0@ == k;
        lemma_keyed_index(t, f, a);
        if a < pos {
            assert(t[a] == s[a]);
            lemma_keyed_index(s, f, a);
        } else if a > pos {
            assert(t[a] == s[a - 1]);
            lemma_keyed_index(s, f, a - 1);
        } else {
            assert(t[a] == x);
        }
    }
    assert(keyed_map(t, f) =~= m);
}

/// Finds `key` in entries sorted by key: its position, or the position where it would go.
pub fn search_key<A>(s: &Vec<(CacheKey, A)>, key: &CacheKey) -> (r: Result<usize, usize>)
    requires
        keys_sorted(s@),
    ensures
        match r {
            Ok(i) => i < s@.len() && s@[i as int].0@ == key@,
            Err(pos) => {
                &&& pos <= s@.len()
                &&& !has_key(s@, key@)
                &&& forall|j: int| 0 <= j < pos ==> lex_lt(#[trigger] s@[j].0@, key@)
                &&& forall|j: int| pos <= j < s@.len() ==> lex_lt(key@, #[trigger] s@[j].0@)
            },
        },
{
    let mut lo: usize = 0;
    let mut hi: usize = s.len();
    while lo < hi
        invariant
            keys_sorted(s@),
            lo <= hi <= s@.len(),
            forall|j: int| 0 <= j < lo ==> lex_lt(#[trigger] s@[j].0@, key@),
            forall|j: int| hi <= j < s@.len() ==> lex_lt(key@, #[trigger] s@[j].0@),
        decreases hi - lo,
    {
        let mid = lo + (hi - lo) / 2;
        if bytes_lt(&s[mid].0.key, &key.key) {
            proof {
                assert forall|j: int| 0 <= j < mid + 1 implies lex_lt(#[trigger] s@[j].0@, key@) by {
                    if j < mid {
                        lemma_lex_order(s@[j].0@, s@[mid as int].0@, key@);
                    }
                }
            }
            lo = mid + 1;
        } else if bytes_lt(&key.key, &s[mid].0.key) {
            proof {
                assert forall|j: int| mid <= j < s@.len() implies lex_lt(key@, #[trigger] s@[j].0@) by {
                    if j > mid {
                        lemma_lex_order(key@, s@[mid as int].0@, s@[j].0@);
                    }
                }
            }
            hi = mid;
        } else {
            proof {
                lemma_lex_order(s@[mid as int].0@, key@, s@[mid as int].0@);
            }
            return Ok(mid);
        }
    }
    proof {
        if has_key(s@, key@) {
            let a = choose|a: int| 0 <= a < s@.len() && #[trigger] s@[a].0@ == key@;
            lemma_lex_order(key@, key@, key@);
        }
    }
    Err(lo)
}

} // verus!
