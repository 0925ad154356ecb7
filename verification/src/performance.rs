//! Caching support: content hashes, and least-recently-used caches of
//! reference searches and parse trees kept in `lru` lists (the `LruCache`
//! type is declared in `document`), with the workspace version that cached
//! searches are keyed by.
use vstd::prelude::*;
use std::hash::{Hash, Hasher};
use crate::protocol::Location;

verus! {

/// What std's `DefaultHasher`, as `DefaultHasher::new()` makes it, gives for a
/// string hashed with `Hash for str`.
pub uninterp spec fn content_hash_of(s: Seq<char>) -> u64;

/// std's `DefaultHasher::new()` fed the string through `Hash for str`, then
/// `finish`.  Stated: the hash is a function of the text alone (the hasher
/// starts from fixed keys); which value it is, is not stated.
#[verifier::external_body]
fn default_hash_of_str(content: &str) -> (r: u64)
    ensures
        r == content_hash_of(content@),
{
    let mut hasher = std::collections::hash_map::DefaultHasher::new();
    content.hash(&mut hasher);
    hasher.finish()
}

/// The hash of a document's content, used to key cached parse trees.
pub fn calculate_content_hash(content: &str) -> (r: u64)
    ensures
        r == content_hash_of(content@),
{
    default_hash_of_str(content)
}

/// Equal contents hash equally.
pub proof fn law_equal_content_equal_hash(a: &str, b: &str)
    requires
        a@ == b@,
    ensures
        content_hash_of(a@) == content_hash_of(b@),
{
}

/// The key of a cached reference search: the symbol and the workspace version
/// the search was made at.
#[derive(Debug, Clone, PartialEq, Eq, Hash)]
pub struct ReferenceCacheKey {
    pub symbol_name: String,
    pub workspace_version: u64,
}

/// The position of key `k` in an LRU list of entries, or -1.
pub open spec fn lru_index<K, V>(e: Seq<(K, V)>, k: K) -> int
    decreases e.len(),
{
    if e.len() == 0 {
        -1
    } else if e.last().0 == k {
        e.len() - 1
    } else {
        lru_index(e.drop_last(), k)
    }
}

/// Whether the list has an entry for `k`.
pub open spec fn lru_has<K, V>(e: Seq<(K, V)>, k: K) -> bool {
    lru_index(e, k) >= 0
}

/// The value of the entry for `k`.
pub open spec fn lru_value<K, V>(e: Seq<(K, V)>, k: K) -> V {
    e[lru_index(e, k)].1
}

/// Whether an entry is for a key other than `k`.
pub open spec fn key_differs<K, V>(k: K) -> spec_fn((K, V)) -> bool {
    |x: (K, V)| x.0 != k
}

/// The list without the entry for `k`.
pub open spec fn lru_without<K, V>(e: Seq<(K, V)>, k: K) -> Seq<(K, V)> {
    e.filter(key_differs(k))
}

/// The list after a read of `k`: its entry becomes the most recent one.
pub open spec fn lru_touch<K, V>(e: Seq<(K, V)>, k: K) -> Seq<(K, V)> {
    if lru_has(e, k) {
        lru_without(e, k).push((k, lru_value(e, k)))
    } else {
        e
    }
}

/// The list after `put`: the entry becomes the most recent one; a new key in
/// a full list evicts the least recently used entry.
pub open spec fn lru_put<K, V>(e: Seq<(K, V)>, cap: nat, k: K, v: V) -> Seq<(K, V)> {
    if lru_has(e, k) {
        lru_without(e, k).push((k, v))
    } else if e.len() >= cap {
        e.drop_first().push((k, v))
    } else {
        e.push((k, v))
    }
}

/// No key has two entries.
pub open spec fn lru_distinct<K, V>(e: Seq<(K, V)>) -> bool {
    forall|a: int, b: int|
        0 <= a < e.len() && 0 <= b < e.len() && a != b ==> (#[trigger] e[a]).0 != (#[trigger] e[b]).0
}

/// A list that an LRU cache of capacity `cap` can hold.
pub open spec fn lru_wf<K, V>(e: Seq<(K, V)>, cap: nat) -> bool {
    &&& lru_distinct(e)
    &&& e.len() <= cap
    &&& cap >= 1
}

pub proof fn lemma_lru_index<K, V>(e: Seq<(K, V)>, k: K)
    ensures
        -1 <= lru_index(e, k) < e.len(),
        lru_index(e, k) >= 0 ==> e[lru_index(e, k)].0 == k,
        lru_index(e, k) == -1 ==> forall|j: int| 0 <= j < e.len() ==> (#[trigger] e[j]).0 != k,
    decreases e.len(),
{
    if e.len() > 0 {
        lemma_lru_index(e.drop_last(), k);
        if e.last().0 != k {
            assert forall|j: int| 0 <= j < e.len() - 1 implies e[j] == e.drop_last()[j] by {}
        }
    }
}

/// After the workspace version goes up to `version`, the references cached
/// at an older version are gone: no key of an older version has an entry in
/// what `invalidate_workspace` (and so `increment_workspace_version`) keeps.
pub proof fn law_version_bump_hides_older(
    e: Seq<((Seq<char>, u64), CachedReferenceResult)>,
    version: u64,
    name: Seq<char>,
    older: u64,
)
    requires
        older < version,
    ensures
        !lru_has(
            e.filter(|x: ((Seq<char>, u64), CachedReferenceResult)| is_current(x, version)),
            (name, older),
        ),
{
    let pred = |x: ((Seq<char>, u64), CachedReferenceResult)| is_current(x, version);
    let f = e.filter(pred);
    e.filter_lemma(pred);
    lemma_lru_index(f, (name, older));
    if lru_index(f, (name, older)) >= 0 {
        assert(pred(f[lru_index(f, (name, older))]));
    }
}

/// Filtering twice is filtering once by both predicates.
pub proof fn lemma_filter_filter<A>(s: Seq<A>, p: spec_fn(A) -> bool, q: spec_fn(A) -> bool)
    ensures
        s.filter(p).filter(q) == s.filter(|x: A| p(x) && q(x)),
    decreases s.len(),
{
    reveal(Seq::filter);
    if s.len() > 0 {
        lemma_filter_filter(s.drop_last(), p, q);
        let pq = |x: A| p(x) && q(x);
        let fp = s.drop_last().filter(p);
        if p(s.last()) {
            fp.lemma_filter_push(s.last(), q);
        }
    }
}

/// Filters by predicates that agree on the elements are equal.
pub proof fn lemma_filter_congruent<A>(s: Seq<A>, p: spec_fn(A) -> bool, q: spec_fn(A) -> bool)
    requires
        forall|i: int| 0 <= i < s.len() ==> p(#[trigger] s[i]) == q(s[i]),
    ensures
        s.filter(p) == s.filter(q),
    decreases s.len(),
{
    reveal(Seq::filter);
    if s.len() > 0 {
        assert forall|i: int| 0 <= i < s.drop_last().len() implies p(#[trigger] s.drop_last()[i])
            == q(s.drop_last()[i]) by {
            assert(s.drop_last()[i] == s[i]);
        }
        lemma_filter_congruent(s.drop_last(), p, q);
        assert(p(s[s.len() - 1]) == q(s[s.len() - 1]));
    }
}

/// A filter that keeps every element keeps the sequence.
pub proof fn lemma_filter_all<A>(s: Seq<A>, p: spec_fn(A) -> bool)
    requires
        forall|i: int| 0 <= i < s.len() ==> p(#[trigger] s[i]),
    ensures
        s.filter(p) == s,
    decreases s.len(),
{
    reveal(Seq::filter);
    if s.len() > 0 {
        assert forall|i: int| 0 <= i < s.drop_last().len() implies p(#[trigger] s.drop_last()[i]) by {
            assert(s.drop_last()[i] == s[i]);
        }
        lemma_filter_all(s.drop_last(), p);
        assert(p(s[s.len() - 1]));
        assert(s.drop_last().push(s.last()) =~= s);
    }
}

/// A filter of a list with distinct keys has distinct keys, and each of its
/// entries is an entry of the list.
pub proof fn lemma_filter_distinct<K, V>(e: Seq<(K, V)>, p: spec_fn((K, V)) -> bool)
    requires
        lru_distinct(e),
    ensures
        lru_distinct(e.filter(p)),
        forall|j: int| 0 <= j < e.filter(p).len() ==> e.contains(#[trigger] e.filter(p)[j]),
        e.filter(p).len() <= e.len(),
    decreases e.len(),
{
    reveal(Seq::filter);
    if e.len() > 0 {
        let d = e.drop_last();
        assert(lru_distinct(d)) by {
            assert forall|a: int, b: int|
                0 <= a < d.len() && 0 <= b < d.len() && a != b implies (#[trigger] d[a]).0
                != (#[trigger] d[b]).0 by {
                assert(d[a] == e[a] && d[b] == e[b]);
            }
        }
        lemma_filter_distinct(d, p);
        let f = d.filter(p);
        assert forall|j: int| 0 <= j < f.len() implies e.contains(#[trigger] f[j]) by {
            let w = choose|w: int| 0 <= w < d.len() && d[w] == f[j];
            assert(e[w] == f[j]);
        }
        if p(e.last()) {
            let g = f.push(e.last());
            assert forall|j: int| 0 <= j < f.len() implies (#[trigger] f[j]).0 != e.last().0 by {
                let w = choose|w: int| 0 <= w < d.len() && d[w] == f[j];
                assert(e[w] == f[j]);
                assert(e[e.len() - 1] == e.last());
            }
            assert forall|a: int, b: int|
                0 <= a < g.len() && 0 <= b < g.len() && a != b implies (#[trigger] g[a]).0
                != (#[trigger] g[b]).0 by {
                if a < f.len() && b < f.len() {
                    assert(g[a] == f[a] && g[b] == f[b]);
                } else if a < f.len() {
                    assert(g[a] == f[a]);
                } else if b < f.len() {
                    assert(g[b] == f[b]);
                }
            }
            assert forall|j: int| 0 <= j < g.len() implies e.contains(#[trigger] g[j]) by {
                if j < f.len() {
                    assert(g[j] == f[j]);
                } else {
                    assert(e[e.len() - 1] == g[j]);
                }
            }
        }
    }
}

/// Without the entry of a key it has, a list with distinct keys is one shorter,
/// and has no entry for that key.
pub proof fn lemma_without<K, V>(e: Seq<(K, V)>, k: K)
    requires
        lru_distinct(e),
    ensures
        lru_distinct(lru_without(e, k)),
        !lru_has(lru_without(e, k), k),
        lru_has(e, k) ==> lru_without(e, k).len() == e.len() - 1,
        !lru_has(e, k) ==> lru_without(e, k) == e,
        forall|j: int| 0 <= j < lru_without(e, k).len() ==> e.contains(#[trigger] lru_without(e, k)[j]),
    decreases e.len(),
{
    let p = key_differs::<K, V>(k);
    lemma_filter_distinct(e, p);
    let w = lru_without(e, k);
    lemma_lru_index(w, k);
    if lru_index(w, k) >= 0 {
        e.lemma_filter_pred(p, lru_index(w, k));
    }
    lemma_lru_index(e, k);
    if !lru_has(e, k) {
        lemma_filter_all(e, p);
    } else if e.len() > 0 {
        reveal(Seq::filter);
        let d = e.drop_last();
        assert(lru_distinct(d)) by {
            assert forall|a: int, b: int|
                0 <= a < d.len() && 0 <= b < d.len() && a != b implies (#[trigger] d[a]).0
                != (#[trigger] d[b]).0 by {
                assert(d[a] == e[a] && d[b] == e[b]);
            }
        }
        lemma_lru_index(d, k);
        if e.last().0 == k {
            assert forall|j: int| 0 <= j < d.len() implies p(#[trigger] d[j]) by {
                assert(d[j] == e[j]);
                assert(e[e.len() - 1] == e.last());
            }
            lemma_filter_all(d, p);
        } else {
            assert(lru_index(e, k) == lru_index(d, k));
            lemma_without(d, k);
        }
    }
}

/// A read keeps a list well formed, and keeps what it holds for the key read.
pub proof fn lemma_touch<K, V>(e: Seq<(K, V)>, cap: nat, k: K)
    requires
        lru_wf(e, cap),
    ensures
        lru_wf(lru_touch(e, k), cap),
        lru_without(lru_touch(e, k), k) == lru_without(e, k),
        lru_has(lru_touch(e, k), k) == lru_has(e, k),
        lru_has(e, k) ==> lru_value(lru_touch(e, k), k) == lru_value(e, k),
{
    lemma_without(e, k);
    let w = lru_without(e, k);
    if lru_has(e, k) {
        let x = (k, lru_value(e, k));
        let t = w.push(x);
        w.lemma_filter_push(x, key_differs::<K, V>(k));
        lemma_without(w, k);
        lemma_lru_index(w, k);
        assert forall|a: int, b: int|
            0 <= a < t.len() && 0 <= b < t.len() && a != b implies (#[trigger] t[a]).0
            != (#[trigger] t[b]).0 by {
            if a < w.len() && b < w.len() {
                assert(t[a] == w[a] && t[b] == w[b]);
            } else if a < w.len() {
                assert(t[a] == w[a]);
            } else if b < w.len() {
                assert(t[b] == w[b]);
            }
        }
    } else {
        lemma_filter_all(e, key_differs::<K, V>(k));
    }
}

/// Read back after a write: after `put(k, v)` the list has an entry for `k`
/// holding `v` (so a `get` of `k` finds `v`), and it is still a list that the
/// cache can hold.
pub proof fn law_put_read_back<K, V>(e: Seq<(K, V)>, cap: nat, k: K, v: V)
    requires
        lru_wf(e, cap),
    ensures
        lru_wf(lru_put(e, cap, k, v), cap),
        lru_has(lru_put(e, cap, k, v), k),
        lru_value(lru_put(e, cap, k, v), k) == v,
{
    lemma_without(e, k);
    lemma_lru_index(e, k);
    let w = if lru_has(e, k) {
        lru_without(e, k)
    } else if e.len() >= cap {
        e.drop_first()
    } else {
        e
    };
    let t = w.push((k, v));
    assert(t == lru_put(e, cap, k, v));
    assert(lru_distinct(w) && forall|j: int| 0 <= j < w.len() ==> (#[trigger] w[j]).0 != k) by {
        if lru_has(e, k) {
            lemma_lru_index(w, k);
        } else if e.len() >= cap {
            assert forall|j: int| 0 <= j < w.len() implies (#[trigger] w[j]).0 != k by {
                assert(w[j] == e[j + 1]);
            }
            assert forall|a: int, b: int|
                0 <= a < w.len() && 0 <= b < w.len() && a != b implies (#[trigger] w[a]).0
                != (#[trigger] w[b]).0 by {
                assert(w[a] == e[a + 1] && w[b] == e[b + 1]);
            }
        }
    }
    assert forall|a: int, b: int|
        0 <= a < t.len() && 0 <= b < t.len() && a != b implies (#[trigger] t[a]).0
        != (#[trigger] t[b]).0 by {
        if a < w.len() && b < w.len() {
            assert(t[a] == w[a] && t[b] == w[b]);
        } else if a < w.len() {
            assert(t[a] == w[a]);
        } else if b < w.len() {
            assert(t[b] == w[b]);
        }
    }
}

/// std's `Instant`, opaque: a moment of the monotonic clock.
#[verifier::external_type_specification]
#[verifier::external_body]
pub struct ExInstant(std::time::Instant);

/// `Instant::now`: the present moment of the monotonic clock.  Nothing is
/// stated of it: it depends on when the call is made.
#[verifier::external_body]
fn instant_now() -> (r: std::time::Instant) {
    std::time::Instant::now()
}

/// `Instant::elapsed`, in nanoseconds: the time since `at`.  Nothing is stated
/// of it: it depends on when the call is made.
#[verifier::external_body]
fn nanos_since(at: &std::time::Instant) -> (r: u128) {
    at.elapsed().as_nanos()
}

/// A cached reference search: the locations found, when they were found, and
/// for how many nanoseconds they stay valid.
#[derive(Debug)]
pub struct CachedReferenceResult {
    pub references: Vec<Location>,
    pub created_at: std::time::Instant,
    pub ttl_nanos: u128,
}

/// Two cached results with the same locations, moment of creation and time
/// to live.
pub open spec fn same_result(a: CachedReferenceResult, b: CachedReferenceResult) -> bool {
    &&& a.references@ == b.references@
    &&& a.created_at == b.created_at
    &&& a.ttl_nanos == b.ttl_nanos
}

impl Clone for CachedReferenceResult {
    /// A result with the same locations, moment of creation and time to live.
    fn clone(&self) -> (r: Self)
        ensures
            same_result(r, *self),
    {
        let references = self.references.clone();
        assert(references@ =~= self.references@);
        CachedReferenceResult { references, created_at: self.created_at, ttl_nanos: self.ttl_nanos }
    }
}

impl CachedReferenceResult {
    /// A result found now.
    pub fn new(references: Vec<Location>, ttl_nanos: u128) -> (r: CachedReferenceResult)
        ensures
            r.references == references,
            r.ttl_nanos == ttl_nanos,
    {
        CachedReferenceResult { references, created_at: instant_now(), ttl_nanos }
    }

    /// Whether a result that is `elapsed_nanos` old has outlived its time to live.
    pub fn is_expired_after(&self, elapsed_nanos: u128) -> (r: bool)
        ensures
            r == (elapsed_nanos > self.ttl_nanos),
    {
        elapsed_nanos > self.ttl_nanos
    }

    /// Whether the result has outlived its time to live by now: the age read
    /// from the clock is handed to `is_expired_after`.  A result whose time
    /// to live is the largest `u128` never expires.
    pub fn is_expired(&self) -> (r: bool)
        ensures
            self.ttl_nanos == u128::MAX ==> !r,
    {
        let elapsed = nanos_since(&self.created_at);
        self.is_expired_after(elapsed)
    }

    pub fn get_references(&self) -> (r: &Vec<Location>)
        ensures
            r == &self.references,
    {
        &self.references
    }
}

/// A key of the reference cache's list, as a plain value.
pub open spec fn reference_key(k: (String, u64)) -> (Seq<char>, u64) {
    (k.0@, k.1)
}

/// The entries of a reference cache's LRU list, least recently used first:
/// each key (symbol name, workspace version) with its cached result.
pub uninterp spec fn reference_lru_entries(
    c: lru::LruCache<(String, u64), CachedReferenceResult>,
) -> Seq<((Seq<char>, u64), CachedReferenceResult)>;

/// The capacity a reference cache's LRU list was made with.
pub uninterp spec fn reference_lru_cap(c: lru::LruCache<(String, u64), CachedReferenceResult>) -> nat;

/// `LruCache::new` with a non-zero capacity: an empty list.
#[verifier::external_body]
fn reference_lru_new(cap: usize) -> (c: lru::LruCache<(String, u64), CachedReferenceResult>)
    requires
        cap > 0,
    ensures
        reference_lru_entries(c).len() == 0,
        reference_lru_cap(c) == cap,
{
    lru::LruCache::new(std::num::NonZeroUsize::new(cap).unwrap())
}

/// `LruCache::get`: the entry of the key, which becomes the most recent one.
#[verifier::external_body]
fn reference_lru_get<'a>(
    c: &'a mut lru::LruCache<(String, u64), CachedReferenceResult>,
    k: &(String, u64),
) -> (r: Option<&'a CachedReferenceResult>)
    ensures
        r.is_some() == lru_has(reference_lru_entries(*old(c)), reference_key(*k)),
        r matches Some(v) ==> *v == lru_value(reference_lru_entries(*old(c)), reference_key(*k)),
        reference_lru_entries(*final(c)) == lru_touch(reference_lru_entries(*old(c)), reference_key(*k)),
        reference_lru_cap(*final(c)) == reference_lru_cap(*old(c)),
{
    c.get(k)
}

/// `LruCache::peek`, the moment the key's entry was made; the entry's
/// recency is left as it is.
#[verifier::external_body]
fn reference_lru_created_at(
    c: &lru::LruCache<(String, u64), CachedReferenceResult>,
    k: &(String, u64),
) -> (r: Option<std::time::Instant>)
    ensures
        r.is_some() == lru_has(reference_lru_entries(*c), reference_key(*k)),
        r matches Some(t) ==> t == lru_value(reference_lru_entries(*c), reference_key(*k)).created_at,
{
    c.peek(k).map(|v| v.created_at)
}

/// `LruCache::put` (see `lru_put`).
#[verifier::external_body]
fn reference_lru_put(
    c: &mut lru::LruCache<(String, u64), CachedReferenceResult>,
    k: (String, u64),
    v: CachedReferenceResult,
)
    ensures
        reference_lru_entries(*final(c)) == lru_put(
            reference_lru_entries(*old(c)),
            reference_lru_cap(*old(c)),
            reference_key(k),
            v,
        ),
        reference_lru_cap(*final(c)) == reference_lru_cap(*old(c)),
{
    let _ = c.put(k, v);
}

/// `LruCache::contains`: whether the key has an entry (its recency unchanged).
#[verifier::external_body]
fn reference_lru_contains(c: &lru::LruCache<(String, u64), CachedReferenceResult>, k: &(String, u64)) -> (r: bool)
    ensures
        r == lru_has(reference_lru_entries(*c), reference_key(*k)),
{
    c.contains(k)
}

/// `LruCache::pop`: the key's entry leaves the list.
#[verifier::external_body]
fn reference_lru_pop(c: &mut lru::LruCache<(String, u64), CachedReferenceResult>, k: &(String, u64))
    ensures
        reference_lru_entries(*final(c)) == lru_without(reference_lru_entries(*old(c)), reference_key(*k)),
        reference_lru_cap(*final(c)) == reference_lru_cap(*old(c)),
{
    let _ = c.pop(k);
}

/// `LruCache::clear`: no entry is left.
#[verifier::external_body]
fn reference_lru_clear(c: &mut lru::LruCache<(String, u64), CachedReferenceResult>)
    ensures
        reference_lru_entries(*final(c)).len() == 0,
        reference_lru_cap(*final(c)) == reference_lru_cap(*old(c)),
{
    c.clear()
}

/// `LruCache::len`.
#[verifier::external_body]
fn reference_lru_len(c: &lru::LruCache<(String, u64), CachedReferenceResult>) -> (r: usize)
    ensures
        r == reference_lru_entries(*c).len(),
{
    c.len()
}

/// `LruCache::cap`.
#[verifier::external_body]
fn reference_lru_cap_of(c: &lru::LruCache<(String, u64), CachedReferenceResult>) -> (r: usize)
    ensures
        r == reference_lru_cap(*c),
{
    c.cap().get()
}

/// `LruCache::iter`, keys only: the keys, the most recently used first.
#[verifier::external_body]
fn reference_lru_keys(c: &lru::LruCache<(String, u64), CachedReferenceResult>) -> (r: Vec<(String, u64)>)
    ensures
        r.len() == reference_lru_entries(*c).len(),
        forall|i: int|
            0 <= i < r.len() ==> reference_key(#[trigger] r@[i]) == reference_lru_entries(*c)[r.len()
                - 1 - i].0,
{
    c.iter().map(|(k, _)| k.clone()).collect()
}

/// Hit and miss counts and the size of a cache.
#[derive(Debug, Clone, Copy)]
pub struct CacheStats {
    pub capacity: usize,
    pub size: usize,
    pub hit_count: u64,
    pub miss_count: u64,
}

/// A least-recently-used cache of reference searches, keyed by symbol name and
/// workspace version, that counts its hits and misses.
pub struct ReferenceCache {
    cache: lru::LruCache<(String, u64), CachedReferenceResult>,
    hit_count: u64,
    miss_count: u64,
}

/// A key of the cache, as a plain value.
pub open spec fn cache_key(key: ReferenceCacheKey) -> (Seq<char>, u64) {
    (key.symbol_name@, key.workspace_version)
}

/// Whether a cached result's workspace version is `version` or later.
pub open spec fn is_current(x: ((Seq<char>, u64), CachedReferenceResult), version: u64) -> bool {
    x.0.1 >= version
}

/// Whether a key's workspace version is older than `version` and the key is
/// among `keys`.
pub open spec fn stale_among(
    x: ((Seq<char>, u64), CachedReferenceResult),
    keys: Seq<(Seq<char>, u64)>,
    version: u64,
) -> bool {
    x.0.1 < version && keys.contains(x.0)
}

impl ReferenceCache {
    /// The entries, the least recently used first.
    pub closed spec fn entries(&self) -> Seq<((Seq<char>, u64), CachedReferenceResult)> {
        reference_lru_entries(self.cache)
    }

    /// The most entries the cache holds.
    pub closed spec fn capacity(&self) -> nat {
        reference_lru_cap(self.cache)
    }

    pub closed spec fn hits(&self) -> u64 {
        self.hit_count
    }

    pub closed spec fn misses(&self) -> u64 {
        self.miss_count
    }

    /// The cache's invariant: keys are distinct and within the capacity.
    pub open spec fn wf(&self) -> bool {
        lru_wf(self.entries(), self.capacity())
    }

    /// An empty cache of `capacity` entries.
    pub fn new(capacity: usize) -> (r: ReferenceCache)
        requires
            capacity > 0,
        ensures
            r.wf(),
            r.entries().len() == 0,
            r.capacity() == capacity,
            r.hits() == 0,
            r.misses() == 0,
    {
        ReferenceCache { cache: reference_lru_new(capacity), hit_count: 0, miss_count: 0 }
    }

    /// The cached result of `key` when its entry is `age` nanoseconds old: a
    /// hit when the key has an entry that has not outlived its time to live
    /// (after which the entry is the most recent one); otherwise a miss,
    /// after which the key has no entry.
    pub fn get_at_age(&mut self, key: &ReferenceCacheKey, age: u128) -> (r: Option<CachedReferenceResult>)
        requires
            old(self).wf(),
            old(self).hits() < u64::MAX,
            old(self).misses() < u64::MAX,
        ensures
            final(self).wf(),
            final(self).capacity() == old(self).capacity(),
            r is Some <==> lru_has(old(self).entries(), cache_key(*key)) && age <= lru_value(
                old(self).entries(),
                cache_key(*key),
            ).ttl_nanos,
            r matches Some(v) ==> {
                &&& same_result(v, lru_value(old(self).entries(), cache_key(*key)))
                &&& final(self).entries() == lru_touch(old(self).entries(), cache_key(*key))
                &&& final(self).hits() == old(self).hits() + 1
                &&& final(self).misses() == old(self).misses()
            },
            r is None ==> {
                &&& final(self).entries() == lru_without(old(self).entries(), cache_key(*key))
                &&& final(self).hits() == old(self).hits()
                &&& final(self).misses() == old(self).misses() + 1
            },
    {
        let k = (key.symbol_name.clone(), key.workspace_version);
        let ghost e = self.entries();
        let ghost kv = cache_key(*key);
        proof {
            lemma_touch(e, self.capacity(), kv);
            lemma_without(e, kv);
        }
        let found = match reference_lru_get(&mut self.cache, &k) {
            Some(v) => Some(v.clone()),
            None => None,
        };
        if let Some(result) = found {
            if !result.is_expired_after(age) {
                self.hit_count = self.hit_count + 1;
                return Some(result);
            }
        }
        if reference_lru_contains(&self.cache, &k) {
            reference_lru_pop(&mut self.cache, &k);
        }
        self.miss_count = self.miss_count + 1;
        None
    }

    /// The cached result of `key` if it has not expired: the age of the
    /// key's entry is read from the clock and handed to `get_at_age`.  A key
    /// without an entry is a miss; an entry whose time to live is the
    /// largest `u128` is always a hit.
    pub fn get(&mut self, key: &ReferenceCacheKey) -> (r: Option<CachedReferenceResult>)
        requires
            old(self).wf(),
            old(self).hits() < u64::MAX,
            old(self).misses() < u64::MAX,
        ensures
            final(self).wf(),
            final(self).capacity() == old(self).capacity(),
            !lru_has(old(self).entries(), cache_key(*key)) ==> r is None,
            lru_has(old(self).entries(), cache_key(*key)) && lru_value(
                old(self).entries(),
                cache_key(*key),
            ).ttl_nanos == u128::MAX ==> r is Some,
            r matches Some(v) ==> {
                &&& lru_has(old(self).entries(), cache_key(*key))
                &&& same_result(v, lru_value(old(self).entries(), cache_key(*key)))
                &&& final(self).entries() == lru_touch(old(self).entries(), cache_key(*key))
                &&& final(self).hits() == old(self).hits() + 1
                &&& final(self).misses() == old(self).misses()
            },
            r is None ==> {
                &&& final(self).entries() == lru_without(old(self).entries(), cache_key(*key))
                &&& final(self).hits() == old(self).hits()
                &&& final(self).misses() == old(self).misses() + 1
            },
    {
        let k = (key.symbol_name.clone(), key.workspace_version);
        let age = match reference_lru_created_at(&self.cache, &k) {
            Some(at) => nanos_since(&at),
            None => 0,
        };
        self.get_at_age(key, age)
    }

    /// Cache `result` under `key` (see `lru_put`).
    pub fn put(&mut self, key: ReferenceCacheKey, result: CachedReferenceResult)
        requires
            old(self).wf(),
        ensures
            final(self).wf(),
            final(self).capacity() == old(self).capacity(),
            final(self).entries() == lru_put(old(self).entries(), old(self).capacity(), cache_key(key), result),
            final(self).hits() == old(self).hits(),
            final(self).misses() == old(self).misses(),
    {
        proof {
            law_put_read_back(self.entries(), self.capacity(), cache_key(key), result);
        }
        reference_lru_put(&mut self.cache, (key.symbol_name, key.workspace_version), result);
    }

    /// Drop every entry made at a workspace version older than
    /// `workspace_version`; the others stay, in their order.
    pub fn invalidate_workspace(&mut self, workspace_version: u64)
        requires
            old(self).wf(),
        ensures
            final(self).wf(),
            final(self).capacity() == old(self).capacity(),
            final(self).entries() == old(self).entries().filter(
                |x: ((Seq<char>, u64), CachedReferenceResult)| is_current(x, workspace_version),
            ),
            final(self).hits() == old(self).hits(),
            final(self).misses() == old(self).misses(),
    {
        let ghost e0 = self.entries();
        let ghost cap = self.capacity();
        let keys = reference_lru_keys(&self.cache);
        let ghost ks = keys@.map_values(|k: (String, u64)| reference_key(k));
        let n = keys.len();
        proof {
            lemma_filter_all(e0, |x: ((Seq<char>, u64), CachedReferenceResult)| !stale_among(x, ks.take(0), workspace_version));
        }
        let mut i: usize = 0;
        while i < n
            invariant
                i <= n,
                n == keys.len(),
                n == e0.len(),
                ks == keys@.map_values(|k: (String, u64)| reference_key(k)),
                forall|j: int| 0 <= j < n ==> reference_key(#[trigger] keys@[j]) == e0[n - 1 - j].0,
                lru_wf(e0, cap),
                self.capacity() == cap,
                self.hits() == old(self).hits(),
                self.misses() == old(self).misses(),
                e0 == old(self).entries(),
                cap == old(self).capacity(),
                self.entries() == e0.filter(
                    |x: ((Seq<char>, u64), CachedReferenceResult)| !stale_among(x, ks.take(i as int), workspace_version),
                ),
            decreases n - i,
        {
            let ghost before = self.entries();
            let ghost p = |x: ((Seq<char>, u64), CachedReferenceResult)| !stale_among(x, ks.take(i as int), workspace_version);
            let ghost q = |x: ((Seq<char>, u64), CachedReferenceResult)| !stale_among(x, ks.take(i + 1), workspace_version);
            let ghost ki = ks[i as int];
            assert(ki == reference_key(keys@[i as int]));
            let ghost t0 = ks.take(i as int);
            let ghost t1 = ks.take(i + 1);
            assert forall|y: (Seq<char>, u64)| #[trigger] t1.contains(y) == (t0.contains(y) || y == ki) by {
                if t1.contains(y) {
                    let w = choose|w: int| 0 <= w < t1.len() && #[trigger] t1[w] == y;
                    if w < i {
                        assert(t0[w] == y);
                    }
                }
                if t0.contains(y) {
                    let w = choose|w: int| 0 <= w < t0.len() && #[trigger] t0[w] == y;
                    assert(t1[w] == y);
                }
                if y == ki {
                    assert(t1[i as int] == y);
                }
            }
            assert(before == e0.filter(p));
            if keys[i].1 < workspace_version {
                reference_lru_pop(&mut self.cache, &keys[i]);
                proof {
                    let ne = key_differs::<(Seq<char>, u64), CachedReferenceResult>(ki);
                    assert(self.entries() == before.filter(ne));
                    lemma_filter_filter(e0, p, ne);
                    lemma_filter_congruent(e0, |x: ((Seq<char>, u64), CachedReferenceResult)| p(x) && ne(x), q);
                    assert(self.entries() == e0.filter(q));
                }
            } else {
                proof {
                    lemma_filter_congruent(e0, p, q);
                    assert(self.entries() == e0.filter(q));
                }
            }
            i = i + 1;
            proof {
                lemma_filter_congruent(
                    e0,
                    q,
                    |x: ((Seq<char>, u64), CachedReferenceResult)| !stale_among(x, ks.take(i as int), workspace_version),
                );
            }
        }
        proof {
            assert(ks.take(n as int) =~= ks);
            assert forall|j: int| 0 <= j < e0.len() implies ks.contains(#[trigger] e0[j].0) by {
                assert(ks[n - 1 - j] == e0[j].0);
            }
            lemma_filter_congruent(
                e0,
                |x: ((Seq<char>, u64), CachedReferenceResult)| !stale_among(x, ks.take(n as int), workspace_version),
                |x: ((Seq<char>, u64), CachedReferenceResult)| is_current(x, workspace_version),
            );
            lemma_filter_distinct(e0, |x: ((Seq<char>, u64), CachedReferenceResult)| is_current(x, workspace_version));
        }
    }

    /// Drop every entry and reset the counts.
    pub fn clear(&mut self)
        requires
            old(self).wf(),
        ensures
            final(self).wf(),
            final(self).capacity() == old(self).capacity(),
            final(self).entries().len() == 0,
            final(self).hits() == 0,
            final(self).misses() == 0,
    {
        reference_lru_clear(&mut self.cache);
        self.hit_count = 0;
        self.miss_count = 0;
    }

    /// The capacity, the number of entries, and the counts.
    pub fn get_stats(&self) -> (r: CacheStats)
        ensures
            r.capacity == self.capacity(),
            r.size == self.entries().len(),
            r.hit_count == self.hits(),
            r.miss_count == self.misses(),
    {
        CacheStats {
            capacity: reference_lru_cap_of(&self.cache),
            size: reference_lru_len(&self.cache),
            hit_count: self.hit_count,
            miss_count: self.miss_count,
        }
    }
}

/// tree-sitter's `Tree`, opaque: a parsed document, only carried through.
#[verifier::external_type_specification]
#[verifier::external_body]
pub struct ExTree(tree_sitter::Tree);

/// `Tree::clone` (tree-sitter's `ts_tree_copy`): another handle on the same
/// parsed tree.  Nothing is stated of the tree, which Verus cannot look into.
#[verifier::external_body]
fn tree_clone(t: &tree_sitter::Tree) -> (r: tree_sitter::Tree) {
    t.clone()
}

/// A parsed tree and when it was cached.
#[derive(Debug)]
pub struct CachedParseTree {
    pub tree: tree_sitter::Tree,
    pub created_at: std::time::Instant,
}

/// The key of a cached parse tree: the document's URI and its content hash.
#[derive(Debug, Clone, PartialEq, Eq, Hash)]
pub struct ParseTreeCacheKey {
    pub uri: String,
    pub content_hash: u64,
}

/// A key of the parse tree cache, as a plain value.
pub open spec fn tree_key(k: (String, u64)) -> (Seq<char>, u64) {
    (k.0@, k.1)
}

/// The entries of a parse tree cache's LRU list, least recently used first:
/// each key (URI, content hash) with its cached tree.
pub uninterp spec fn tree_lru_entries(
    c: lru::LruCache<(String, u64), CachedParseTree>,
) -> Seq<((Seq<char>, u64), CachedParseTree)>;

/// The capacity a parse tree cache's LRU list was made with.
pub uninterp spec fn tree_lru_cap(c: lru::LruCache<(String, u64), CachedParseTree>) -> nat;

/// `LruCache::new` with a non-zero capacity: an empty list.
#[verifier::external_body]
fn tree_lru_new(cap: usize) -> (c: lru::LruCache<(String, u64), CachedParseTree>)
    requires
        cap > 0,
    ensures
        tree_lru_entries(c).len() == 0,
        tree_lru_cap(c) == cap,
{
    lru::LruCache::new(std::num::NonZeroUsize::new(cap).unwrap())
}

/// `LruCache::get`: the entry of the key, which becomes the most recent one.
#[verifier::external_body]
fn tree_lru_get<'a>(
    c: &'a mut lru::LruCache<(String, u64), CachedParseTree>,
    k: &(String, u64),
) -> (r: Option<&'a CachedParseTree>)
    ensures
        r.is_some() == lru_has(tree_lru_entries(*old(c)), tree_key(*k)),
        r matches Some(v) ==> *v == lru_value(tree_lru_entries(*old(c)), tree_key(*k)),
        tree_lru_entries(*final(c)) == lru_touch(tree_lru_entries(*old(c)), tree_key(*k)),
        tree_lru_cap(*final(c)) == tree_lru_cap(*old(c)),
{
    c.get(k)
}

/// `LruCache::put` (see `lru_put`).
#[verifier::external_body]
fn tree_lru_put(c: &mut lru::LruCache<(String, u64), CachedParseTree>, k: (String, u64), v: CachedParseTree)
    ensures
        tree_lru_entries(*final(c)) == lru_put(tree_lru_entries(*old(c)), tree_lru_cap(*old(c)), tree_key(k), v),
        tree_lru_cap(*final(c)) == tree_lru_cap(*old(c)),
{
    let _ = c.put(k, v);
}

/// `LruCache::clear`: no entry is left.
#[verifier::external_body]
fn tree_lru_clear(c: &mut lru::LruCache<(String, u64), CachedParseTree>)
    ensures
        tree_lru_entries(*final(c)).len() == 0,
        tree_lru_cap(*final(c)) == tree_lru_cap(*old(c)),
{
    c.clear()
}

/// `LruCache::len`.
#[verifier::external_body]
fn tree_lru_len(c: &lru::LruCache<(String, u64), CachedParseTree>) -> (r: usize)
    ensures
        r == tree_lru_entries(*c).len(),
{
    c.len()
}

/// `LruCache::cap`.
#[verifier::external_body]
fn tree_lru_cap_of(c: &lru::LruCache<(String, u64), CachedParseTree>) -> (r: usize)
    ensures
        r == tree_lru_cap(*c),
{
    c.cap().get()
}

/// A least-recently-used cache of parsed trees, keyed by URI and content
/// hash, that counts its hits and misses.
pub struct ParseTreeCache {
    cache: lru::LruCache<(String, u64), CachedParseTree>,
    hit_count: u64,
    miss_count: u64,
}

/// A key of the parse tree cache, as a plain value.
pub open spec fn parse_key(key: ParseTreeCacheKey) -> (Seq<char>, u64) {
    (key.uri@, key.content_hash)
}

impl ParseTreeCache {
    /// The entries, the least recently used first.
    pub closed spec fn entries(&self) -> Seq<((Seq<char>, u64), CachedParseTree)> {
        tree_lru_entries(self.cache)
    }

    /// The most entries the cache holds.
    pub closed spec fn capacity(&self) -> nat {
        tree_lru_cap(self.cache)
    }

    pub closed spec fn hits(&self) -> u64 {
        self.hit_count
    }

    pub closed spec fn misses(&self) -> u64 {
        self.miss_count
    }

    /// The cache's invariant: keys are distinct and within the capacity.
    pub open spec fn wf(&self) -> bool {
        lru_wf(self.entries(), self.capacity())
    }

    /// An empty cache of `capacity` entries.
    pub fn new(capacity: usize) -> (r: ParseTreeCache)
        requires
            capacity > 0,
        ensures
            r.wf(),
            r.entries().len() == 0,
            r.capacity() == capacity,
            r.hits() == 0,
            r.misses() == 0,
    {
        ParseTreeCache { cache: tree_lru_new(capacity), hit_count: 0, miss_count: 0 }
    }

    /// The tree cached under `key` (a hit, after which its entry is the most
    /// recent one), or `None` (a miss).
    pub fn get(&mut self, key: &ParseTreeCacheKey) -> (r: Option<tree_sitter::Tree>)
        requires
            old(self).wf(),
            old(self).hits() < u64::MAX,
            old(self).misses() < u64::MAX,
        ensures
            final(self).wf(),
            final(self).capacity() == old(self).capacity(),
            r.is_some() == lru_has(old(self).entries(), parse_key(*key)),
            final(self).entries() == lru_touch(old(self).entries(), parse_key(*key)),
            r.is_some() ==> final(self).hits() == old(self).hits() + 1 && final(self).misses()
                == old(self).misses(),
            r is None ==> final(self).hits() == old(self).hits() && final(self).misses()
                == old(self).misses() + 1,
    {
        let k = (key.uri.clone(), key.content_hash);
        proof {
            lemma_touch(self.entries(), self.capacity(), parse_key(*key));
        }
        let found = tree_lru_get(&mut self.cache, &k);
        match found {
            Some(cached) => {
                let tree = tree_clone(&cached.tree);
                self.hit_count = self.hit_count + 1;
                Some(tree)
            },
            None => {
                self.miss_count = self.miss_count + 1;
                None
            },
        }
    }

    /// Cache `tree` under `key`, stamped with the present time (see `lru_put`).
    pub fn put(&mut self, key: ParseTreeCacheKey, tree: tree_sitter::Tree)
        requires
            old(self).wf(),
        ensures
            final(self).wf(),
            final(self).capacity() == old(self).capacity(),
            lru_has(final(self).entries(), parse_key(key)),
            lru_value(final(self).entries(), parse_key(key)).tree == tree,
            final(self).entries() == lru_put(
                old(self).entries(),
                old(self).capacity(),
                parse_key(key),
                lru_value(final(self).entries(), parse_key(key)),
            ),
            final(self).hits() == old(self).hits(),
            final(self).misses() == old(self).misses(),
    {
        let cached = CachedParseTree { tree, created_at: instant_now() };
        proof {
            law_put_read_back(self.entries(), self.capacity(), parse_key(key), cached);
        }
        tree_lru_put(&mut self.cache, (key.uri, key.content_hash), cached);
    }

    /// The capacity, the number of entries, and the counts.
    pub fn get_stats(&self) -> (r: CacheStats)
        ensures
            r.capacity == self.capacity(),
            r.size == self.entries().len(),
            r.hit_count == self.hits(),
            r.miss_count == self.misses(),
    {
        CacheStats {
            capacity: tree_lru_cap_of(&self.cache),
            size: tree_lru_len(&self.cache),
            hit_count: self.hit_count,
            miss_count: self.miss_count,
        }
    }
}

/// Eviction: a `put` of a new key into a full list evicts the least recently
/// used entry, and the list stays full.
pub proof fn law_put_evicts_least_recent<K, V>(e: Seq<(K, V)>, cap: nat, k: K, v: V)
    requires
        lru_wf(e, cap),
        !lru_has(e, k),
        e.len() == cap,
    ensures
        !lru_has(lru_put(e, cap, k, v), e[0].0),
        lru_put(e, cap, k, v).len() == cap,
        lru_put(e, cap, k, v) == e.drop_first().push((k, v)),
{
    let t = lru_put(e, cap, k, v);
    lemma_lru_index(e, k);
    lemma_lru_index(t, e[0].0);
    if lru_has(t, e[0].0) {
        let j = lru_index(t, e[0].0);
        if j < t.len() - 1 {
            assert(t[j] == e[j + 1]);
        } else {
            assert(t[j].0 == k);
            assert(e[0].0 != k);
        }
    }
}

/// Statistics of the caches and the workspace version.
#[derive(Debug, Clone, Copy)]
pub struct PerformanceStats {
    pub reference_cache: CacheStats,
    pub parse_tree_cache: CacheStats,
    pub workspace_version: u64,
}

/// The caches of the server and the version of the workspace that cached
/// reference searches are keyed by.
pub struct PerformanceManager {
    reference_cache: ReferenceCache,
    parse_tree_cache: ParseTreeCache,
    workspace_version: u64,
}

impl PerformanceManager {
    pub closed spec fn references(&self) -> ReferenceCache {
        self.reference_cache
    }

    pub closed spec fn parse_trees(&self) -> ParseTreeCache {
        self.parse_tree_cache
    }

    pub closed spec fn version(&self) -> u64 {
        self.workspace_version
    }

    pub open spec fn wf(&self) -> bool {
        self.references().wf() && self.parse_trees().wf()
    }

    /// Empty caches of the given sizes, at workspace version 0.
    pub fn new(reference_cache_size: usize, parse_tree_cache_size: usize) -> (r: PerformanceManager)
        requires
            reference_cache_size > 0,
            parse_tree_cache_size > 0,
        ensures
            r.wf(),
            r.version() == 0,
            r.references().entries().len() == 0,
            r.references().capacity() == reference_cache_size,
            r.references().hits() == 0,
            r.references().misses() == 0,
            r.parse_trees().entries().len() == 0,
            r.parse_trees().capacity() == parse_tree_cache_size,
            r.parse_trees().hits() == 0,
            r.parse_trees().misses() == 0,
    {
        PerformanceManager {
            reference_cache: ReferenceCache::new(reference_cache_size),
            parse_tree_cache: ParseTreeCache::new(parse_tree_cache_size),
            workspace_version: 0,
        }
    }

    /// The workspace changed: the version goes up by one, and reference
    /// searches cached at older versions are dropped.
    pub fn increment_workspace_version(&mut self)
        requires
            old(self).wf(),
            old(self).version() < u64::MAX,
        ensures
            final(self).wf(),
            final(self).version() == old(self).version() + 1,
            final(self).references().entries() == old(self).references().entries().filter(
                |x: ((Seq<char>, u64), CachedReferenceResult)| is_current(x, final(self).version()),
            ),
            final(self).references().capacity() == old(self).references().capacity(),
            final(self).references().hits() == old(self).references().hits(),
            final(self).references().misses() == old(self).references().misses(),
            final(self).parse_trees() == old(self).parse_trees(),
    {
        self.workspace_version = self.workspace_version + 1;
        let v = self.workspace_version;
        self.reference_cache.invalidate_workspace(v);
    }

    pub fn get_workspace_version(&self) -> (r: u64)
        ensures
            r == self.version(),
    {
        self.workspace_version
    }

    /// Cache the references found for `symbol_name` at the present workspace
    /// version, valid for `ttl_nanos` nanoseconds.
    pub fn cache_references(&mut self, symbol_name: String, references: Vec<Location>, ttl_nanos: u128)
        requires
            old(self).wf(),
        ensures
            final(self).wf(),
            final(self).version() == old(self).version(),
            lru_has(final(self).references().entries(), (symbol_name@, old(self).version())),
            lru_value(final(self).references().entries(), (symbol_name@, old(self).version())).references
                == references,
            lru_value(final(self).references().entries(), (symbol_name@, old(self).version())).ttl_nanos
                == ttl_nanos,
            final(self).references().entries() == lru_put(
                old(self).references().entries(),
                old(self).references().capacity(),
                (symbol_name@, old(self).version()),
                lru_value(final(self).references().entries(), (symbol_name@, old(self).version())),
            ),
            final(self).references().capacity() == old(self).references().capacity(),
            final(self).references().hits() == old(self).references().hits(),
            final(self).references().misses() == old(self).references().misses(),
            final(self).parse_trees() == old(self).parse_trees(),
    {
        let key = ReferenceCacheKey { symbol_name, workspace_version: self.workspace_version };
        let result = CachedReferenceResult::new(references, ttl_nanos);
        proof {
            law_put_read_back(
                self.reference_cache.entries(),
                self.reference_cache.capacity(),
                cache_key(key),
                result,
            );
        }
        self.reference_cache.put(key, result);
    }

    /// The references cached for `symbol_name` at the present workspace
    /// version when their entry is `age` nanoseconds old (see
    /// `ReferenceCache::get_at_age`).
    pub fn get_cached_references_at_age(&mut self, symbol_name: &str, age: u128) -> (r: Option<Vec<Location>>)
        requires
            old(self).wf(),
            old(self).references().hits() < u64::MAX,
            old(self).references().misses() < u64::MAX,
        ensures
            final(self).wf(),
            final(self).version() == old(self).version(),
            final(self).parse_trees() == old(self).parse_trees(),
            final(self).references().capacity() == old(self).references().capacity(),
            r is Some <==> lru_has(old(self).references().entries(), (symbol_name@, old(self).version()))
                && age <= lru_value(old(self).references().entries(), (symbol_name@, old(self).version())).ttl_nanos,
            r matches Some(v) ==> {
                &&& v@ == lru_value(old(self).references().entries(), (symbol_name@, old(self).version())).references@
                &&& final(self).references().entries() == lru_touch(
                    old(self).references().entries(),
                    (symbol_name@, old(self).version()),
                )
                &&& final(self).references().hits() == old(self).references().hits() + 1
                &&& final(self).references().misses() == old(self).references().misses()
            },
            r is None ==> {
                &&& final(self).references().entries() == lru_without(
                    old(self).references().entries(),
                    (symbol_name@, old(self).version()),
                )
                &&& final(self).references().hits() == old(self).references().hits()
                &&& final(self).references().misses() == old(self).references().misses() + 1
            },
    {
        let key = ReferenceCacheKey {
            symbol_name: symbol_name.to_string(),
            workspace_version: self.workspace_version,
        };
        match self.reference_cache.get_at_age(&key, age) {
            Some(result) => Some(result.references),
            None => None,
        }
    }

    /// The references cached for `symbol_name` at the present workspace
    /// version, if they have not expired (see `ReferenceCache::get`).
    pub fn get_cached_references(&mut self, symbol_name: &str) -> (r: Option<Vec<Location>>)
        requires
            old(self).wf(),
            old(self).references().hits() < u64::MAX,
            old(self).references().misses() < u64::MAX,
        ensures
            final(self).wf(),
            final(self).version() == old(self).version(),
            final(self).parse_trees() == old(self).parse_trees(),
            final(self).references().capacity() == old(self).references().capacity(),
            !lru_has(old(self).references().entries(), (symbol_name@, old(self).version())) ==> r is None,
            lru_has(old(self).references().entries(), (symbol_name@, old(self).version()))
                && lru_value(old(self).references().entries(), (symbol_name@, old(self).version())).ttl_nanos
                == u128::MAX ==> r is Some,
            r matches Some(v) ==> {
                &&& lru_has(old(self).references().entries(), (symbol_name@, old(self).version()))
                &&& v@ == lru_value(old(self).references().entries(), (symbol_name@, old(self).version())).references@
                &&& final(self).references().entries() == lru_touch(
                    old(self).references().entries(),
                    (symbol_name@, old(self).version()),
                )
                &&& final(self).references().hits() == old(self).references().hits() + 1
                &&& final(self).references().misses() == old(self).references().misses()
            },
            r is None ==> {
                &&& final(self).references().entries() == lru_without(
                    old(self).references().entries(),
                    (symbol_name@, old(self).version()),
                )
                &&& final(self).references().hits() == old(self).references().hits()
                &&& final(self).references().misses() == old(self).references().misses() + 1
            },
    {
        let key = ReferenceCacheKey {
            symbol_name: symbol_name.to_string(),
            workspace_version: self.workspace_version,
        };
        match self.reference_cache.get(&key) {
            Some(result) => Some(result.references),
            None => None,
        }
    }

    /// Cache the tree parsed from the document `uri` whose content hashes to
    /// `content_hash`.
    pub fn cache_parse_tree(&mut self, uri: String, content_hash: u64, tree: tree_sitter::Tree)
        requires
            old(self).wf(),
        ensures
            final(self).wf(),
            final(self).version() == old(self).version(),
            final(self).references() == old(self).references(),
            lru_has(final(self).parse_trees().entries(), (uri@, content_hash)),
            lru_value(final(self).parse_trees().entries(), (uri@, content_hash)).tree == tree,
            final(self).parse_trees().entries() == lru_put(
                old(self).parse_trees().entries(),
                old(self).parse_trees().capacity(),
                (uri@, content_hash),
                lru_value(final(self).parse_trees().entries(), (uri@, content_hash)),
            ),
            final(self).parse_trees().capacity() == old(self).parse_trees().capacity(),
            final(self).parse_trees().hits() == old(self).parse_trees().hits(),
            final(self).parse_trees().misses() == old(self).parse_trees().misses(),
    {
        self.parse_tree_cache.put(ParseTreeCacheKey { uri, content_hash }, tree);
    }

    /// The tree cached for `uri` and `content_hash`, if any (see
    /// `ParseTreeCache::get`).
    pub fn get_cached_parse_tree(&mut self, uri: &str, content_hash: u64) -> (r: Option<tree_sitter::Tree>)
        requires
            old(self).wf(),
            old(self).parse_trees().hits() < u64::MAX,
            old(self).parse_trees().misses() < u64::MAX,
        ensures
            final(self).wf(),
            final(self).version() == old(self).version(),
            final(self).references() == old(self).references(),
            final(self).parse_trees().capacity() == old(self).parse_trees().capacity(),
            r.is_some() == lru_has(old(self).parse_trees().entries(), (uri@, content_hash)),
            final(self).parse_trees().entries() == lru_touch(
                old(self).parse_trees().entries(),
                (uri@, content_hash),
            ),
            r.is_some() ==> final(self).parse_trees().hits() == old(self).parse_trees().hits() + 1
                && final(self).parse_trees().misses() == old(self).parse_trees().misses(),
            r is None ==> final(self).parse_trees().hits() == old(self).parse_trees().hits()
                && final(self).parse_trees().misses() == old(self).parse_trees().misses() + 1,
    {
        let key = ParseTreeCacheKey { uri: uri.to_string(), content_hash };
        self.parse_tree_cache.get(&key)
    }

    /// The statistics of both caches and the workspace version.
    pub fn get_performance_stats(&self) -> (r: PerformanceStats)
        ensures
            r.reference_cache.capacity == self.references().capacity(),
            r.reference_cache.size == self.references().entries().len(),
            r.reference_cache.hit_count == self.references().hits(),
            r.reference_cache.miss_count == self.references().misses(),
            r.parse_tree_cache.capacity == self.parse_trees().capacity(),
            r.parse_tree_cache.size == self.parse_trees().entries().len(),
            r.parse_tree_cache.hit_count == self.parse_trees().hits(),
            r.parse_tree_cache.miss_count == self.parse_trees().misses(),
            r.workspace_version == self.version(),
    {
        PerformanceStats {
            reference_cache: self.reference_cache.get_stats(),
            parse_tree_cache: self.parse_tree_cache.get_stats(),
            workspace_version: self.workspace_version,
        }
    }

    /// Empty both caches; the reference cache's counts start again, the parse
    /// tree cache's counts stay.
    pub fn clear_all_caches(&mut self)
        requires
            old(self).wf(),
        ensures
            final(self).wf(),
            final(self).version() == old(self).version(),
            final(self).references().entries().len() == 0,
            final(self).references().capacity() == old(self).references().capacity(),
            final(self).references().hits() == 0,
            final(self).references().misses() == 0,
            final(self).parse_trees().entries().len() == 0,
            final(self).parse_trees().capacity() == old(self).parse_trees().capacity(),
            final(self).parse_trees().hits() == old(self).parse_trees().hits(),
            final(self).parse_trees().misses() == old(self).parse_trees().misses(),
    {
        self.reference_cache.clear();
        tree_lru_clear(&mut self.parse_tree_cache.cache);
    }
}

/// The items cut into consecutive batches of `n`, the last one possibly
/// shorter; no items give no batch.
pub open spec fn batches_of<T>(s: Seq<T>, n: nat) -> Seq<Seq<T>>
    decreases s.len(),
{
    if s.len() == 0 || n == 0 {
        Seq::empty()
    } else if s.len() <= n {
        seq![s]
    } else {
        seq![s.take(n as int)] + batches_of(s.skip(n as int), n)
    }
}

pub open spec fn batch_views<T>(v: Seq<Vec<T>>) -> Seq<Seq<T>> {
    v.map_values(|b: Vec<T>| b@)
}

/// The batches in which a batched operation is run over `items`: consecutive
/// runs of `batch_size` items, in order, the last one possibly shorter
/// (std's `chunks`, which panics on a size of zero).
pub fn batch_chunks<T>(items: Vec<T>, batch_size: usize) -> (r: Vec<Vec<T>>)
    requires
        batch_size > 0,
    ensures
        batch_views(r@) == batches_of(items@, batch_size as nat),
{
    let mut out: Vec<Vec<T>> = Vec::new();
    let mut rest = items;
    let ghost all = rest@;
    assert(batch_views(out@) =~= Seq::<Seq<T>>::empty());
    while rest.len() > batch_size
        invariant
            batch_size > 0,
            batch_views(out@) + batches_of(rest@, batch_size as nat) == batches_of(all, batch_size as nat),
        decreases rest.len(),
    {
        let tail = rest.split_off(batch_size);
        let ghost before = rest@ + tail@;
        assert(before.take(batch_size as int) =~= rest@);
        assert(before.skip(batch_size as int) =~= tail@);
        let ghost prev = out@;
        out.push(rest);
        assert(batch_views(out@) =~= batch_views(prev).push(before.take(batch_size as int)));
        assert(batch_views(out@) + batches_of(tail@, batch_size as nat) =~= batch_views(prev)
            + batches_of(before, batch_size as nat));
        rest = tail;
    }
    if rest.len() > 0 {
        let ghost prev = out@;
        let ghost last = rest@;
        out.push(rest);
        assert(batch_views(out@) =~= batch_views(prev).push(last));
        assert(batches_of(last, batch_size as nat) =~= seq![last]);
        assert(batch_views(out@) =~= batch_views(prev) + batches_of(last, batch_size as nat));
    } else {
        assert(batches_of(rest@, batch_size as nat) =~= Seq::<Seq<T>>::empty());
        assert(batch_views(out@) + Seq::<Seq<T>>::empty() =~= batch_views(out@));
    }
    out
}

/// The batches joined, in order.
pub open spec fn joined<T>(bs: Seq<Seq<T>>) -> Seq<T>
    decreases bs.len(),
{
    if bs.len() == 0 {
        Seq::empty()
    } else {
        bs[0] + joined(bs.skip(1))
    }
}

/// Batching keeps every item, in order: the batches joined give back the
/// items, and each batch holds at least one item and at most `n`.
pub proof fn law_batches_keep_items<T>(s: Seq<T>, n: nat)
    requires
        n > 0,
    ensures
        joined(batches_of(s, n)) == s,
        forall|i: int| 0 <= i < batches_of(s, n).len() ==> 0 < (#[trigger] batches_of(s, n)[i]).len() <= n,
    decreases s.len(),
{
    let b = batches_of(s, n);
    if s.len() == 0 {
        assert(b.len() == 0);
        assert(joined(b) =~= s);
    } else if s.len() <= n {
        assert(b =~= seq![s]);
        assert(b.skip(1) =~= Seq::<Seq<T>>::empty());
        assert(joined(b.skip(1)) =~= Seq::<T>::empty());
        assert(joined(b) =~= s);
    } else {
        law_batches_keep_items(s.skip(n as int), n);
        let rest = batches_of(s.skip(n as int), n);
        assert(b == seq![s.take(n as int)] + rest);
        assert(b.skip(1) =~= rest);
        assert(b[0] == s.take(n as int));
        assert(s.take(n as int) + s.skip(n as int) =~= s);
        assert forall|i: int| 0 <= i < b.len() implies 0 < (#[trigger] b[i]).len() <= n by {
            if i > 0 {
                assert(b[i] == rest[i - 1]);
            }
        }
    }
}

} // verus!
