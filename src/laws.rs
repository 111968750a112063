//! Laws of the cache: what holds of every log and every sequence of operations.
use crate::access::AccessView;
use crate::cache_log::{after_read, after_write, mergeable, merged, read_consistent, value_of, writes_of, LogView};
use crate::bytes::{lemma_lex_order, lex_lt, CacheKey, CacheValue};
use crate::internal_cache::pairs_view;
use crate::keyed::{
    has_key, keyed_map, keys_sorted, keys_unique, lemma_keyed_index, lemma_keyed_len, lemma_keyed_push,
    lemma_sorted_unique,
};
use vstd::prelude::*;

verus! {

/// Reading a value twice at a key is the same as reading it once; once a key is read,
/// a read of any other value there is inconsistent.
pub proof fn lemma_read_idempotent(m: LogView, k: Seq<u8>, v: Option<Seq<u8>>, w: Option<Seq<u8>>)
    requires
        read_consistent(m, k, v),
    ensures
        read_consistent(after_read(m, k, v), k, v),
        after_read(after_read(m, k, v), k, v) == after_read(m, k, v),
        w != v ==> !read_consistent(after_read(m, k, v), k, w),
{
}

/// Of two writes at a key, the last one wins: the log ends as if only it had happened.
pub proof fn lemma_last_write_wins(m: LogView, k: Seq<u8>, v1: Option<Seq<u8>>, v2: Option<Seq<u8>>)
    ensures
        after_write(after_write(m, k, v1), k, v2) == after_write(m, k, v2),
{
    assert(after_write(after_write(m, k, v1), k, v2) =~= after_write(m, k, v2));
}

/// Reading a value, writing it back and reading it again succeeds, and leaves no write of
/// the key behind, unless the scope had already written the key without reading that value
/// first.
pub proof fn lemma_write_back_is_no_write(m: LogView, k: Seq<u8>, v: Option<Seq<u8>>)
    requires
        read_consistent(m, k, v),
        m.contains_key(k) ==> m[k].first_read() == Some(v),
    ensures
        read_consistent(after_write(after_read(m, k, v), k, v), k, v),
        !writes_of(after_read(after_write(after_read(m, k, v), k, v), k, v)).contains_key(k),
{
}

/// Merging an empty log into a log, or a log into an empty one, gives that log.
pub proof fn lemma_merge_identity(l: LogView)
    ensures
        mergeable(l, LogView::empty()),
        merged(l, LogView::empty()) == l,
        mergeable(LogView::empty(), l),
        merged(LogView::empty(), l) == l,
{
    assert(merged(l, LogView::empty()) =~= l);
    assert(merged(LogView::empty(), l) =~= l);
}

/// Whether the histories of one key in three consecutive scopes are of the two shapes on
/// which grouping the merges differently changes the write set: a write, then a read and
/// write, then a read; or a read, then a write, then a read. A write that a later read
/// confirms becomes a read, so for these the grouping decides whether the write survives.
pub open spec fn regroup_sensitive(x: AccessView, y: AccessView, z: AccessView) -> bool {
    ||| (x is Write && y is ReadThenWrite && z is Read)
    ||| (x is Read && y is Write && z is Read)
}

proof fn lemma_access_regroup(x: AccessView, y: AccessView, z: AccessView)
    requires
        x.merge_with(y) is Ok,
        (x.merge_with(y)->Ok_0).merge_with(z) is Ok,
        y.merge_with(z) is Ok,
        x.merge_with(y.merge_with(z)->Ok_0) is Ok,
        !regroup_sensitive(x, y, z),
    ensures
        ((x.merge_with(y)->Ok_0).merge_with(z)->Ok_0).written() == (x.merge_with(y.merge_with(z)->Ok_0)->Ok_0).written(),
{
}

/// Merging three consecutive scopes left to right gives the same write set as merging the
/// last two first, when no merge conflicts and no key has a regroup-sensitive history.
pub proof fn lemma_merge_associative(a: LogView, b: LogView, c: LogView)
    requires
        mergeable(a, b),
        mergeable(merged(a, b), c),
        mergeable(b, c),
        mergeable(a, merged(b, c)),
        forall|k: Seq<u8>|
            a.contains_key(k) && b.contains_key(k) && c.contains_key(k) ==> !regroup_sensitive(
                #[trigger] a[k],
                b[k],
                c[k],
            ),
    ensures
        writes_of(merged(merged(a, b), c)) == writes_of(merged(a, merged(b, c))),
{
    let left = merged(merged(a, b), c);
    let right = merged(a, merged(b, c));
    assert forall|k: Seq<u8>| #[trigger] left.contains_key(k) implies left[k] .written() == right[k].written() by {
        assert(mergeable(a, b) ==> (a.contains_key(k) && b.contains_key(k) ==> (a[k].merge_with(b[k]) is Ok)));
        if a.contains_key(k) && b.contains_key(k) && c.contains_key(k) {
            assert(merged(a, b).contains_key(k));
            assert(merged(b, c).contains_key(k));
            lemma_access_regroup(a[k], b[k], c[k]);
        } else if a.contains_key(k) && b.contains_key(k) {
        } else if b.contains_key(k) && c.contains_key(k) {
            assert(merged(b, c).contains_key(k));
        } else if a.contains_key(k) && c.contains_key(k) {
            assert(merged(a, b).contains_key(k));
        }
    }
    assert(writes_of(left) =~= writes_of(right));
}

proof fn lemma_sorted_keys_agree(s1: Seq<(CacheKey, Option<CacheValue>)>, s2: Seq<(CacheKey, Option<CacheValue>)>, i: int)
    requires
        keys_sorted(s1),
        keys_sorted(s2),
        keyed_map(s1, value_of()) == keyed_map(s2, value_of()),
        0 <= i <= s1.len(),
        i <= s2.len(),
    ensures
        forall|j: int| 0 <= j < i ==> #[trigger] s1[j].0@ == s2[j].0@,
    decreases i,
{
    if i > 0 {
        let t = i - 1;
        lemma_sorted_keys_agree(s1, s2, t);
        let k1 = s1[t].0@;
        let k2 = s2[t].0@;
        if k1 != k2 {
            lemma_lex_order(k1, k2, k1);
            assert(has_key(s1, k1));
            assert(keyed_map(s1, value_of()).contains_key(k1));
            assert(has_key(s2, k1));
            let j = choose|j: int| 0 <= j < s2.len() && #[trigger] s2[j].0@ == k1;
            if j < t {
                assert(s1[j].0@ == s2[j].0@);
                lemma_lex_order(s1[j].0@, s1[t].0@, s1[j].0@);
            } else {
                assert(j != t);
                assert(lex_lt(k2, k1));
            }
            assert(has_key(s2, k2));
            assert(keyed_map(s2, value_of()).contains_key(k2));
            assert(has_key(s1, k2));
            let j2 = choose|j: int| 0 <= j < s1.len() && #[trigger] s1[j].0@ == k2;
            if j2 < t {
                assert(s1[j2].0@ == s2[j2].0@);
                lemma_lex_order(s2[j2].0@, s2[t].0@, s2[j2].0@);
            } else {
                assert(j2 != t);
                assert(lex_lt(k1, k2));
            }
        }
    }
}

/// A list of pairs in strictly increasing key order is determined by the map it lists:
/// two such lists of the same write set are the same list.
pub proof fn lemma_ordered_writes_determined(s1: Seq<(CacheKey, Option<CacheValue>)>, s2: Seq<(CacheKey, Option<CacheValue>)>)
    requires
        keys_sorted(s1),
        keys_sorted(s2),
        keyed_map(s1, value_of()) == keyed_map(s2, value_of()),
    ensures
        pairs_view(s1) == pairs_view(s2),
{
    lemma_sorted_unique(s1);
    lemma_sorted_unique(s2);
    lemma_keyed_len(s1, value_of());
    lemma_keyed_len(s2, value_of());
    lemma_sorted_keys_agree(s1, s2, s1.len() as int);
    assert forall|j: int| 0 <= j < s1.len() implies #[trigger] pairs_view(s1)[j] == pairs_view(s2)[j] by {
        assert(s1[j].0@ == s2[j].0@);
        lemma_keyed_index(s1, value_of(), j);
        lemma_keyed_index(s2, value_of(), j);
    }
    assert(pairs_view(s1) =~= pairs_view(s2));
}

/// Merging three consecutive scopes left to right, or the last two first, gives the same
/// ordered writes, when no merge conflicts and no key has a regroup-sensitive history.
pub proof fn lemma_merge_associative_ordered(
    a: LogView,
    b: LogView,
    c: LogView,
    w_left: Seq<(CacheKey, Option<CacheValue>)>,
    w_right: Seq<(CacheKey, Option<CacheValue>)>,
)
    requires
        mergeable(a, b),
        mergeable(merged(a, b), c),
        mergeable(b, c),
        mergeable(a, merged(b, c)),
        forall|k: Seq<u8>|
            a.contains_key(k) && b.contains_key(k) && c.contains_key(k) ==> !regroup_sensitive(
                #[trigger] a[k],
                b[k],
                c[k],
            ),
        keys_sorted(w_left),
        keyed_map(w_left, value_of()) == writes_of(merged(merged(a, b), c)),
        keys_sorted(w_right),
        keyed_map(w_right, value_of()) == writes_of(merged(a, merged(b, c))),
    ensures
        pairs_view(w_left) == pairs_view(w_right),
{
    lemma_merge_associative(a, b, c);
    lemma_ordered_writes_determined(w_left, w_right);
}

/// What a backend holds at a key; a key it does not hold reads as absent.
pub open spec fn backend_get(b: Map<Seq<u8>, Option<Seq<u8>>>, k: Seq<u8>) -> Option<Seq<u8>> {
    if b.contains_key(k) {
        b[k]
    } else {
        None
    }
}

/// The backend read as a function from key to value.
pub open spec fn backend_answer(b: Map<Seq<u8>, Option<Seq<u8>>>) -> spec_fn(Seq<u8>) -> Option<Seq<u8>> {
    |j: Seq<u8>| backend_get(b, j)
}

/// The backend after applying `ws` in order.
pub open spec fn apply_writes(
    b: Map<Seq<u8>, Option<Seq<u8>>>,
    ws: Seq<(Seq<u8>, Option<Seq<u8>>)>,
) -> Map<Seq<u8>, Option<Seq<u8>>>
    decreases ws.len(),
{
    if ws.len() == 0 {
        b
    } else {
        apply_writes(b, ws.drop_last()).insert(ws.last().0, ws.last().1)
    }
}

proof fn lemma_apply_writes(b: Map<Seq<u8>, Option<Seq<u8>>>, ws: Seq<(CacheKey, Option<CacheValue>)>, k: Seq<u8>)
    requires
        keys_unique(ws),
    ensures
        backend_get(apply_writes(b, pairs_view(ws)), k) == if keyed_map(ws, value_of()).contains_key(k) {
            keyed_map(ws, value_of())[k]
        } else {
            backend_get(b, k)
        },
    decreases ws.len(),
{
    if ws.len() > 0 {
        let p = ws.drop_last();
        let x = ws.last();
        assert(ws == p.push(x));
        assert(pairs_view(ws).drop_last() =~= pairs_view(p));
        assert(keys_unique(p)) by {
            assert forall|i: int, j: int|
                0 <= i < p.len() && 0 <= j < p.len() && i != j implies #[trigger] p[i].0@ != #[trigger] p[j].0@ by {
                assert(p[i] == ws[i] && p[j] == ws[j]);
            }
        }
        assert(!has_key(p, x.0@)) by {
            if has_key(p, x.0@) {
                let i = choose|i: int| 0 <= i < p.len() && #[trigger] p[i].0@ == x.0@;
                assert(ws[i].0@ == ws[ws.len() - 1].0@);
            }
        }
        lemma_keyed_push(p, value_of(), x);
        lemma_apply_writes(b, p, k);
    } else {
        assert(pairs_view(ws) =~= Seq::<(Seq<u8>, Option<Seq<u8>>)>::empty());
    }
}

/// Applying a scope's write set to a backend that agrees with the scope's first reads
/// leaves, at every key the scope touched, the value the scope last saw there: reading
/// it again from the updated backend observes what the scope ended with. Keys the scope
/// did not write keep their old value; a fresh scope reading a touched key from the
/// updated backend observes that value. Keys are cache keys, so a scope's version is part of
/// each of them: the updated backend is read back under that same version.
pub proof fn lemma_round_trip(
    l: LogView,
    ws: Seq<(CacheKey, Option<CacheValue>)>,
    b: Map<Seq<u8>, Option<Seq<u8>>>,
    k: Seq<u8>,
)
    requires
        keys_unique(ws),
        keyed_map(ws, value_of()) == writes_of(l),
        forall|j: Seq<u8>| #[trigger] l.contains_key(j) && l[j].first_read() is Some ==> backend_get(b, j) == l[j].first_read()->Some_0,
    ensures
        l.contains_key(k) ==> backend_get(apply_writes(b, pairs_view(ws)), k) == l[k].last(),
        !writes_of(l).contains_key(k) ==> backend_get(apply_writes(b, pairs_view(ws)), k) == backend_get(b, k),
        l.contains_key(k) ==> run_scope(
            seq![ScopeOp::Get(k)],
            backend_answer(apply_writes(b, pairs_view(ws))),
        ).results == seq![l[k].last()],
{
    lemma_apply_writes(b, ws, k);
    let ops = seq![ScopeOp::Get(k)];
    assert(ops.drop_last() =~= Seq::<ScopeOp>::empty());
    assert(ops.last() == ScopeOp::Get(k));
    let answer = backend_answer(apply_writes(b, pairs_view(ws)));
    let start = run_scope(ops.drop_last(), answer);
    assert(start.log == LogView::empty() && start.results == Seq::<Option<Seq<u8>>>::empty());
    assert(run_scope(ops, answer) == scope_step(start, ScopeOp::Get(k), answer));
    assert(run_scope(ops, answer).results =~= seq![answer(k)]);
    if l.contains_key(k) {
        assert(l.contains_key(k) && l[k].first_read() is Some ==> backend_get(b, k) == l[k].first_read()->Some_0);
    }
}

/// One operation of a scope on its cache, over cache keys: a read through the cache
/// (`get_or_fetch`), or a write (`set`, or `delete` as a write of `None`).
pub enum ScopeOp {
    Get(Seq<u8>),
    Put(Seq<u8>, Option<Seq<u8>>),
}

/// What a scope has done so far: its log, its backend reads in order, and what each of its
/// reads returned.
pub struct ScopeRun {
    pub log: LogView,
    pub reads: Seq<(Seq<u8>, Option<Seq<u8>>)>,
    pub results: Seq<Option<Seq<u8>>>,
}

/// One more operation, with `answer` giving the backend's value of a key on a miss; these
/// are the steps that `get_or_fetch`, `set` and `delete` take.
pub open spec fn scope_step(s: ScopeRun, op: ScopeOp, answer: spec_fn(Seq<u8>) -> Option<Seq<u8>>) -> ScopeRun {
    match op {
        ScopeOp::Get(k) => if s.log.contains_key(k) {
            ScopeRun { log: s.log, reads: s.reads, results: s.results.push(s.log[k].last()) }
        } else {
            ScopeRun {
                log: s.log.insert(k, AccessView::Read(answer(k))),
                reads: s.reads.push((k, answer(k))),
                results: s.results.push(answer(k)),
            }
        },
        ScopeOp::Put(k, v) => ScopeRun { log: after_write(s.log, k, v), reads: s.reads, results: s.results },
    }
}

/// A scope that starts with an empty cache and performs `ops` against a backend that
/// answers `answer`.
pub open spec fn run_scope(ops: Seq<ScopeOp>, answer: spec_fn(Seq<u8>) -> Option<Seq<u8>>) -> ScopeRun
    decreases ops.len(),
{
    if ops.len() == 0 {
        ScopeRun { log: LogView::empty(), reads: Seq::empty(), results: Seq::empty() }
    } else {
        scope_step(run_scope(ops.drop_last(), answer), ops.last(), answer)
    }
}

/// Re-executing a scope against any backend that answers each of the scope's recorded
/// reads with the recorded value reproduces the scope: the same results for every read,
/// the same recorded reads, and the same log, hence the same ordered reads and writes.
pub proof fn lemma_replay(
    ops: Seq<ScopeOp>,
    first: spec_fn(Seq<u8>) -> Option<Seq<u8>>,
    again: spec_fn(Seq<u8>) -> Option<Seq<u8>>,
)
    requires
        forall|i: int|
            0 <= i < run_scope(ops, first).reads.len() ==> again(#[trigger] run_scope(ops, first).reads[i].0)
                == run_scope(ops, first).reads[i].1,
    ensures
        run_scope(ops, again) == run_scope(ops, first),
    decreases ops.len(),
{
    if ops.len() > 0 {
        let p = ops.drop_last();
        let before = run_scope(p, first);
        let after = run_scope(ops, first);
        assert(ops.drop_last() == p);
        assert forall|i: int| 0 <= i < before.reads.len() implies again(#[trigger] before.reads[i].0)
            == before.reads[i].1 by {
            assert(after.reads[i] == before.reads[i]);
        }
        lemma_replay(p, first, again);
        assert(after == scope_step(before, ops.last(), first));
        assert(run_scope(ops, again) == scope_step(before, ops.last(), again));
        if let ScopeOp::Get(k) = ops.last() {
            if !before.log.contains_key(k) {
                let n = before.reads.len() as int;
                assert(after.reads.len() == n + 1);
                assert(after.reads[n] == (k, first(k)));
                assert(again(run_scope(ops, first).reads[n].0) == run_scope(ops, first).reads[n].1);
            }
        }
    }
}

} // verus!
