//! A bounded cache of committed values in front of an optional fallback store.

use vstd::prelude::*;

use crate::crdt::state::value::Value;
use crate::store::traits::{
    FallbackStore,
    StoreError,
    WriteOnlyStore,
    updates_wf,
    values_wf,
};

verus! {

/// A `quick_cache::unsync::Cache` from `u64` keys to values. Verus cannot
/// take the cache type itself (its default hasher names a type of a crate
/// that this library does not depend on), so it is held here, out of
/// Verus's sight, and reached only through the functions below.
#[verifier::external_body]
pub struct QuickCache {
    inner: quick_cache::unsync::Cache<u64, Value>,
}

/// The key-value pairs that a `quick_cache` cache holds (its resident items).
pub uninterp spec fn cache_contents(cache: QuickCache) -> Map<u64, Value>;

/// The number of items that a `quick_cache` cache was made to hold (its
/// weight capacity; every item weighs one).
pub uninterp spec fn cache_capacity(cache: QuickCache) -> nat;

/// `quick_cache::unsync::Cache::new`: an empty cache whose weight capacity is
/// `capacity` items.
#[verifier::external_body]
fn cache_new(capacity: usize) -> (r: QuickCache)
    ensures
        cache_contents(r).is_empty(),
        cache_capacity(r) == capacity,
{
    QuickCache { inner: quick_cache::unsync::Cache::new(capacity) }
}

/// `quick_cache::unsync::Cache::contains_key`: whether `key` is resident.
#[verifier::external_body]
fn cache_contains_key(cache: &QuickCache, key: &u64) -> (r: bool)
    ensures
        r == cache_contents(*cache).contains_key(*key),
{
    cache.inner.contains_key(key)
}

/// `quick_cache::unsync::Cache::peek`: the value of a resident key, without
/// touching its hotness.
#[verifier::external_body]
fn cache_peek<'c>(cache: &'c QuickCache, key: &u64) -> (r: Option<
    &'c Value,
>)
    ensures
        match r {
            Some(v) => cache_contents(*cache).contains_key(*key) && *v == cache_contents(
                *cache,
            )[*key],
            None => !cache_contents(*cache).contains_key(*key),
        },
{
    cache.inner.peek(key)
}

/// `quick_cache::unsync::Cache::insert`: stores the pair, possibly evicting
/// other items to stay within capacity. Every resident pair afterwards is the
/// new pair or one that was resident before, and the capacity stays. While
/// the resident items are fewer than the capacity, nothing is evicted and the
/// pair becomes resident. When the cache is full, which items stay (the new
/// one included) depends on its replacement state, which is left unsaid.
#[verifier::external_body]
fn cache_insert(cache: &mut QuickCache, key: u64, value: Value)
    ensures
        cache_capacity(*final(cache)) == cache_capacity(*old(cache)),
        cache_contents(*final(cache)).dom().finite(),
        cache_contents(*old(cache)).dom().finite() && cache_contents(*old(cache)).dom().len()
            < cache_capacity(*old(cache)) ==> cache_contents(*final(cache)) == cache_contents(
            *old(cache),
        ).insert(key, value),
        forall|k: u64| #[trigger]
            cache_contents(*final(cache)).contains_key(k) ==> (k == key && cache_contents(
                *final(cache),
            )[k] == value) || (k != key && cache_contents(*old(cache)).contains_key(k)
                && cache_contents(*final(cache))[k] == cache_contents(*old(cache))[k]),
{
    cache.inner.insert(key, value)
}

/// `m` after committing `updates` in turn with nothing evicted: each pair
/// whose key is not held yet is added, so the first value given for a key
/// wins and values already held stay.
pub open spec fn commit_all(m: Map<u64, Value>, updates: Seq<(u64, Value)>) -> Map<u64, Value>
    decreases updates.len(),
{
    if updates.len() == 0 {
        m
    } else {
        let before = commit_all(m, updates.drop_last());
        let (k, v) = updates.last();
        if before.contains_key(k) {
            before
        } else {
            before.insert(k, v)
        }
    }
}

/// Committing adds at most one key per update, and keeps a finite map finite.
pub proof fn lemma_commit_all_size(m: Map<u64, Value>, updates: Seq<(u64, Value)>)
    requires
        m.dom().finite(),
    ensures
        commit_all(m, updates).dom().finite(),
        commit_all(m, updates).dom().len() <= m.dom().len() + updates.len(),
    decreases updates.len(),
{
    if updates.len() > 0 {
        lemma_commit_all_size(m, updates.drop_last());
    }
}

/// Committed values in a bounded cache, with an optional fallback store that
/// answers for the keys the cache does not hold.
pub struct CachedStore<'a, F> {
    cache: QuickCache,
    fallback: Option<&'a F>,
}

impl<'a, F: FallbackStore> CachedStore<'a, F> {
    /// The values that the cache itself holds.
    pub closed spec fn cached(&self) -> Map<u64, Value> {
        cache_contents(self.cache)
    }

    /// The number of items that the cache was made to hold.
    pub closed spec fn capacity(&self) -> nat {
        cache_capacity(self.cache)
    }

    /// The values of the fallback store, empty when there is none.
    pub closed spec fn fallback_contents(&self) -> Map<u64, Value> {
        match self.fallback {
            Some(f) => f.contents(),
            None => Map::empty(),
        }
    }

    /// An empty cache for about `capacity` items over `fallback`.
    pub fn new(capacity: usize, fallback: Option<&'a F>) -> (r: CachedStore<'a, F>)
        requires
            fallback matches Some(f) ==> f.store_wf(),
        ensures
            r.store_wf(),
            r.writable_wf(),
            r.cached().is_empty(),
            r.capacity() == capacity,
            r.fallback_contents() == match fallback {
                Some(f) => f.contents(),
                None => Map::<u64, Value>::empty(),
            },
    {
        CachedStore { cache: cache_new(capacity), fallback }
    }
}

impl<'a, F: FallbackStore> FallbackStore for CachedStore<'a, F> {
    /// The cached values, and the fallback's values for the keys the cache
    /// does not hold.
    closed spec fn contents(&self) -> Map<u64, Value> {
        self.fallback_contents().union_prefer_right(self.cached())
    }

    closed spec fn store_wf(&self) -> bool {
        &&& values_wf(self.cached())
        &&& self.cached().dom().finite()
        &&& self.fallback matches Some(f) ==> f.store_wf()
    }

    proof fn lemma_contents_wf(&self) {
        if let Some(f) = self.fallback {
            f.lemma_contents_wf();
        }
    }

    fn contains_key(&self, key: &u64) -> (r: bool) {
        cache_contains_key(&self.cache, key) || match self.fallback {
            Some(f) => f.contains_key(key),
            None => false,
        }
    }

    fn get(&self, key: &u64) -> (r: Option<&Value>) {
        match cache_peek(&self.cache, key) {
            Some(value) => Some(value),
            None => match self.fallback {
                Some(f) => f.get(key),
                None => None,
            },
        }
    }
}

impl<'a, F: FallbackStore> WriteOnlyStore for CachedStore<'a, F> {
    closed spec fn writable_wf(&self) -> bool {
        self.store_wf()
    }

    /// Accepts any updates and keeps none: staging is left to the caches
    /// above.
    fn stage(&mut self, updates: Vec<(u64, Value)>) -> (r: Result<(), StoreError>)
        ensures
            r is Ok,
            *final(self) == *old(self),
            final(self).store_wf(),
    {
        Ok(())
    }

    /// Caches each pair whose key the cache does not hold yet, so that the
    /// first value given for a key wins; the fallback is not changed. When the
    /// cache has room for all updates nothing is evicted; otherwise it may
    /// evict other items to make room.
    fn commit(&mut self, updates: Vec<(u64, Value)>)
        ensures
            final(self).store_wf(),
            final(self).fallback_contents() == old(self).fallback_contents(),
            final(self).capacity() == old(self).capacity(),
            old(self).cached().dom().len() + updates@.len() <= old(self).capacity()
                ==> final(self).cached() == commit_all(old(self).cached(), updates@),
            forall|k: u64| #[trigger]
                final(self).cached().contains_key(k) ==> (old(self).cached().contains_key(k)
                    && final(self).cached()[k] == old(self).cached()[k]) || exists|i: int|
                    0 <= i < updates@.len() && updates@[i].0 == k && updates@[i].1
                        == final(self).cached()[k],
    {
        let ghost start = self.cached();
        let ghost all = updates@;
        for pair in it: updates.into_iter()
            invariant
                it.seq() == all,
                updates_wf(all),
                self.store_wf(),
                self.fallback == old(self).fallback,
                self.capacity() == old(self).capacity(),
                start.dom().finite(),
                start.dom().len() + all.len() <= self.capacity() ==> self.cached() == commit_all(
                    start,
                    all.take(it.index() as int),
                ),
                forall|k: u64| #[trigger]
                    self.cached().contains_key(k) ==> (start.contains_key(k) && self.cached()[k]
                        == start[k]) || exists|i: int|
                        0 <= i < it.index() && all[i].0 == k && all[i].1 == self.cached()[k],
        {
            let ghost idx = it.index() as int;
            let ghost before = self.cached();
            let (key, value) = pair;
            proof {
                assert(all.take(idx + 1).drop_last() =~= all.take(idx));
                assert(all.take(idx + 1).last() == all[idx]);
                lemma_commit_all_size(start, all.take(idx));
            }
            if !cache_contains_key(&self.cache, &key) {
                proof {
                    assert(all[idx] == (key, value));
                    assert(value.wf());
                }
                cache_insert(&mut self.cache, key, value);
                proof {
                    assert forall|k: u64| #[trigger] self.cached().contains_key(k) implies self.cached()[k].wf() by {
                        if k != key {
                            assert(before.contains_key(k));
                        }
                    }
                    assert forall|k: u64| #[trigger]
                        self.cached().contains_key(k) implies (start.contains_key(k)
                            && self.cached()[k] == start[k]) || exists|i: int|
                            0 <= i < idx + 1 && all[i].0 == k && all[i].1 == self.cached()[k] by {
                        if k == key {
                            assert(all[idx].0 == k && all[idx].1 == self.cached()[k]);
                        } else {
                            assert(before.contains_key(k));
                        }
                    }
                }
            }
        }
        proof {
            assert(all.take(all.len() as int) =~= all);
        }
    }
}

} // verus!
