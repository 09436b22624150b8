use vstd::prelude::*;

use crate::collections::shard_map::{ShardMap, insert_all, lemma_last_update_wins};
use crate::crdt::state::value::Value;
use crate::store::traits::{
    FallbackStore,
    NoFallback,
    StoreError,
    WriteOnlyStore,
    updates_wf,
    values_wf,
};

verus! {

/// The state transitions of a block: the values staged so far, an absent
/// value standing for a deletion, over an optional fallback store.
pub struct BlockCache<'a, F> {
    pub cache: ShardMap<Value>,
    fallback: Option<&'a F>,
}

/// The values visible through a block cache that holds `staged` over a
/// fallback holding `fallback`: a staged value hides the fallback's, and a
/// staged absent value hides the key.
pub open spec fn layered(staged: Map<u64, Value>, fallback: Map<u64, Value>) -> Map<u64, Value> {
    Map::new(
        |k: u64|
            if staged.contains_key(k) {
                !(staged[k] is Absent)
            } else {
                fallback.contains_key(k)
            },
        |k: u64|
            if staged.contains_key(k) {
                staged[k]
            } else {
                fallback[k]
            },
    )
}

impl<'a> BlockCache<'a, NoFallback> {
    /// An empty cache with no fallback.
    pub fn new() -> (r: BlockCache<'a, NoFallback>)
        ensures
            r.store_wf(),
            r.writable_wf(),
            r.store_wf(),
            r.staged() == Map::<u64, Value>::empty(),
            r.fallback_contents() == Map::<u64, Value>::empty(),
    {
        BlockCache { cache: ShardMap::new(16), fallback: None }
    }
}

impl<'a, F: FallbackStore> BlockCache<'a, F> {
    /// The values staged in this block.
    pub closed spec fn staged(&self) -> Map<u64, Value> {
        self.cache@
    }

    /// The values of the fallback store, empty when there is none.
    pub closed spec fn fallback_contents(&self) -> Map<u64, Value> {
        match self.fallback {
            Some(f) => f.contents(),
            None => Map::empty(),
        }
    }

    /// An empty cache over `fallback`.
    pub fn new_with_fallback(fallback: Option<&'a F>) -> (r: BlockCache<'a, F>)
        requires
            fallback matches Some(f) ==> f.store_wf(),
        ensures
            r.store_wf(),
            r.writable_wf(),
            r.store_wf(),
            r.staged() == Map::<u64, Value>::empty(),
            r.fallback_contents() == match fallback {
                Some(f) => f.contents(),
                None => Map::<u64, Value>::empty(),
            },
    {
        BlockCache { cache: ShardMap::new(16), fallback }
    }
}

impl<'a, F: FallbackStore> FallbackStore for BlockCache<'a, F> {
    closed spec fn contents(&self) -> Map<u64, Value> {
        layered(self.staged(), self.fallback_contents())
    }

    closed spec fn store_wf(&self) -> bool {
        &&& self.cache.wf()
        &&& values_wf(self.cache@)
        &&& self.fallback matches Some(f) ==> f.store_wf()
    }

    proof fn lemma_contents_wf(&self) {
        if let Some(f) = self.fallback {
            f.lemma_contents_wf();
        }
    }

    /// Whether a value is visible: staged and present, or, when nothing is
    /// staged for the key, in the fallback.
    fn contains_key(&self, key: &u64) -> (r: bool) {
        match self.cache.get(key) {
            Some(Value::Absent) => false,
            Some(_) => true,
            None => match self.fallback {
                Some(f) => f.contains_key(key),
                None => false,
            },
        }
    }

    fn get(&self, key: &u64) -> (r: Option<&Value>) {
        match self.cache.get(key) {
            Some(Value::Absent) => None,
            Some(value) => Some(value),
            None => match self.fallback {
                Some(f) => f.get(key),
                None => None,
            },
        }
    }
}

impl<'a, F: FallbackStore> WriteOnlyStore for BlockCache<'a, F> {
    closed spec fn writable_wf(&self) -> bool {
        self.store_wf()
    }

    /// Stages every pair, the last value given for a key winning; an absent
    /// value stages a deletion. Never fails.
    fn stage(&mut self, updates: Vec<(u64, Value)>) -> (r: Result<(), StoreError>)
        ensures
            r is Ok,
            final(self).store_wf(),
            final(self).staged() == insert_all(old(self).staged(), updates@),
            final(self).fallback_contents() == old(self).fallback_contents(),
    {
        let ghost before = self.cache@;
        self.cache.apply_batch(updates);
        proof {
            lemma_insert_all_wf(before, updates@);
        }
        Ok(())
    }

    /// Leaves the cache as it is.
    fn commit(&mut self, updates: Vec<(u64, Value)>)
        ensures
            *final(self) == *old(self),
            final(self).store_wf(),
    {
    }
}

/// Inserting well-formed values keeps every value well formed.
pub proof fn lemma_insert_all_wf(m: Map<u64, Value>, updates: Seq<(u64, Value)>)
    requires
        values_wf(m),
        updates_wf(updates),
    ensures
        values_wf(insert_all(m, updates)),
    decreases updates.len(),
{
    if updates.len() > 0 {
        let rest = updates.drop_last();
        assert(updates_wf(rest)) by {
            assert forall|i: int| 0 <= i < rest.len() implies (#[trigger] rest[i]).1.wf() by {
                assert(rest[i] == updates[i]);
            }
        }
        lemma_insert_all_wf(m, rest);
        assert(updates[updates.len() - 1].1.wf());
    }
}

/// What a block cache shows for a key is its last staged value: a present
/// value is visible as staged, an absent one hides the key, whatever the
/// fallback holds.
pub proof fn lemma_last_staged_wins(
    staged: Map<u64, Value>,
    fallback: Map<u64, Value>,
    updates: Seq<(u64, Value)>,
    i: int,
)
    requires
        0 <= i < updates.len(),
        forall|j: int| i < j < updates.len() ==> #[trigger] updates[j].0 != updates[i].0,
    ensures
        layered(insert_all(staged, updates), fallback).contains_key(updates[i].0) == !(
        updates[i].1 is Absent),
        !(updates[i].1 is Absent) ==> layered(insert_all(staged, updates), fallback)[updates[i].0]
            == updates[i].1,
{
    lemma_last_update_wins(staged, updates, i);
}

/// What a block cache shows is its staged values over its fallback's, as
/// `layered` puts them: so a read after staging gives the last value staged
/// for the key (nothing for an absent one), or, with nothing staged, the
/// fallback's value; staging never changes the fallback.
pub proof fn lemma_contents_layered<'a, F: FallbackStore>(c: &BlockCache<'a, F>)
    ensures
        c.contents() == layered(c.staged(), c.fallback_contents()),
{
}

/// The last value staged for `k` among `updates`, if any.
pub open spec fn last_staged(updates: Seq<(u64, Value)>, k: u64) -> Option<Value>
    decreases updates.len(),
{
    if updates.len() == 0 {
        None
    } else if updates.last().0 == k {
        Some(updates.last().1)
    } else {
        last_staged(updates.drop_last(), k)
    }
}

/// Staging `a` and then `b` stages `a` followed by `b`.
pub proof fn lemma_insert_all_append(m: Map<u64, Value>, a: Seq<(u64, Value)>, b: Seq<(u64, Value)>)
    ensures
        insert_all(insert_all(m, a), b) == insert_all(m, a + b),
    decreases b.len(),
{
    if b.len() == 0 {
        assert(a + b =~= a);
    } else {
        lemma_insert_all_append(m, a, b.drop_last());
        assert((a + b).drop_last() =~= a + b.drop_last());
        assert((a + b).last() == b.last());
    }
}

/// After staging `updates` (in one call or split over several, by
/// `lemma_insert_all_append`), a block cache shows for each key the last
/// value staged for it (nothing when that value is absent), and for a key
/// with nothing staged what it showed before (the fallback's value, for a
/// fresh cache); with `lemma_contents_layered` this is what `get` and
/// `contains_key` report, and staging never changes the fallback.
pub proof fn lemma_reads_after_staging(
    staged: Map<u64, Value>,
    fallback: Map<u64, Value>,
    updates: Seq<(u64, Value)>,
    k: u64,
)
    ensures
        ({
            let after = layered(insert_all(staged, updates), fallback);
            let before = layered(staged, fallback);
            match last_staged(updates, k) {
                Some(v) => after.contains_key(k) == !(v is Absent) && (!(v is Absent)
                    ==> after[k] == v),
                None => after.contains_key(k) == before.contains_key(k) && (before.contains_key(k)
                    ==> after[k] == before[k]),
            }
        }),
    decreases updates.len(),
{
    if updates.len() > 0 {
        lemma_reads_after_staging(staged, fallback, updates.drop_last(), k);
    }
}

} // verus!
