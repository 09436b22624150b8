use vstd::prelude::*;

use crate::crdt::state::delta::Delta;
use crate::crdt::state::error::StateError;
use crate::crdt::state::numeric::Numeric;
use crate::crdt::state::tracked_value::{TrackedValue, TrackedView, next_count};
use crate::crdt::state::value::{Value, ValueModel, value_add_outcome, value_applied, value_delta};
use crate::execution::error::Error;
use crate::store::traits::{
    FallbackStore,
    NoFallback,
    StoreError,
    WriteOnlyStore,
    updates_wf,
    values_wf,
};
use std::collections::HashMap;

verus! {

broadcast use vstd::std_specs::hash::group_hash_axioms;

/// The record that an execution starts from for `key`: its own record if it
/// has one, and otherwise a fresh record of the fallback's value (or of no
/// value).
pub open spec fn base_record(
    records: Map<u64, TrackedView>,
    fallback: Map<u64, Value>,
    id: u64,
    key: u64,
) -> TrackedView {
    if records.contains_key(key) {
        records[key]
    } else if fallback.contains_key(key) {
        TrackedView::fresh(id, fallback[key]@)
    } else {
        TrackedView::fresh(id, ValueModel::Absent)
    }
}

/// Whether a value for `key` is visible: the record's, if there is one, and
/// otherwise the fallback's.
pub open spec fn visible_in(records: Map<u64, TrackedView>, fallback: Map<u64, Value>, key: u64) -> bool {
    if records.contains_key(key) {
        records[key].live()
    } else {
        fallback.contains_key(key)
    }
}

/// A value result of a value operation, as a cache result.
pub open spec fn state_result(r: Result<(), StateError>) -> Result<(), Error> {
    match r {
        Ok(()) => Ok(()),
        Err(e) => Err(Error::State(e)),
    }
}

/// A value result of a value operation, as a store result.
pub open spec fn store_state_result(r: Result<(), StateError>) -> Result<(), StoreError> {
    match r {
        Ok(()) => Ok(()),
        Err(e) => Err(StoreError::State(e)),
    }
}

/// Whether a value carries a pending change to hand on rather than a value
/// to store: a numeric delta, or pending set operations.
pub open spec fn carries_delta(v: ValueModel) -> bool {
    match v {
        ValueModel::Numeric(Numeric::I64(n)) => n.delta != 0,
        ValueModel::Numeric(Numeric::U64(n)) => n.delta is Some,
        ValueModel::Numeric(Numeric::U256(n)) => n.delta is Some,
        ValueModel::U64Set(_, pending) => pending is Some,
        _ => false,
    }
}

/// What staging one update `(key, v)` does: a value the cache cannot see is
/// created (or revived); over a visible one, an absent value deletes it, a
/// value carrying a pending change has that change added, and any other value
/// (a committed state, as `drain` hands them out) replaces it and counts a
/// write.
pub open spec fn stage_step(
    before: Map<u64, TrackedView>,
    fallback: Map<u64, Value>,
    id: u64,
    key: u64,
    v: ValueModel,
    r: Result<(), StoreError>,
    after: Map<u64, TrackedView>,
) -> bool {
    let b = base_record(before, fallback, id, key);
    if !visible_in(before, fallback, key) {
        if v is Absent {
            r == Err::<(), StoreError>(StoreError::SetNoneToValue) && after == before.insert(key, b)
        } else {
            r is Ok && after == before.insert(key, b.after_set(v))
        }
    } else if v is Absent {
        &&& after == before.insert(key, b.after_delete())
        &&& b.live() ==> r is Ok
        &&& !b.live() ==> r == Err::<(), StoreError>(StoreError::DeleteNonexistingEntry)
    } else if carries_delta(v) {
        if !b.live() {
            &&& r == Err::<(), StoreError>(
                StoreError::State(StateError::CannotAddDeltaToMissingValue),
            )
            &&& after == before.insert(key, b)
        } else {
            exists|sr: Result<(), StateError>, nv: ValueModel|
                #![trigger value_add_outcome(b.value, value_delta(v), sr, nv)]
                value_add_outcome(b.value, value_delta(v), sr, nv) && r == store_state_result(sr)
                    && after == before.insert(
                    key,
                    TrackedView { value: nv, deltas: next_count(b.deltas), ..b },
                )
        }
    } else {
        r is Ok && after == before.insert(
            key,
            TrackedView { value: v, writes: next_count(b.writes), ..b },
        )
    }
}

/// A run of staging: `states[i]` are the records before update `i`, and
/// `results[i]` what staging it gave; the run stops at the first error, or
/// when every update is staged.
pub open spec fn staged_run(
    before: Map<u64, TrackedView>,
    fallback: Map<u64, Value>,
    id: u64,
    updates: Seq<(u64, ValueModel)>,
    states: Seq<Map<u64, TrackedView>>,
    results: Seq<Result<(), StoreError>>,
    r: Result<(), StoreError>,
    after: Map<u64, TrackedView>,
) -> bool {
    &&& states.len() == results.len() + 1
    &&& results.len() <= updates.len()
    &&& states[0] == before
    &&& after == states.last()
    &&& forall|i: int|
        0 <= i < results.len() ==> stage_step(
            states[i],
            fallback,
            id,
            updates[i].0,
            updates[i].1,
            #[trigger] results[i],
            states[i + 1],
        )
    &&& forall|i: int| 0 <= i < results.len() - 1 ==> #[trigger] results[i] is Ok
    &&& r is Ok ==> results.len() == updates.len() && (results.len() > 0 ==> results.last() is Ok)
    &&& r is Err ==> results.len() > 0 && results.last() == r
}

/// What staging `updates` in turn does, stopping at the first error: the
/// result `r` and the records `after`.
pub open spec fn staged(
    before: Map<u64, TrackedView>,
    fallback: Map<u64, Value>,
    id: u64,
    updates: Seq<(u64, ValueModel)>,
    r: Result<(), StoreError>,
    after: Map<u64, TrackedView>,
) -> bool {
    exists|states: Seq<Map<u64, TrackedView>>, results: Seq<Result<(), StoreError>>|
        #[trigger] staged_run(before, fallback, id, updates, states, results, r, after)
}

/// The records of a map, each as a model.
pub open spec fn records_of(m: Map<u64, TrackedValue>) -> Map<u64, TrackedView> {
    Map::new(|k: u64| m.contains_key(k), |k: u64| m[k]@)
}

/// Replacing one record replaces its model.
pub proof fn lemma_records_replace(
    before: Map<u64, TrackedValue>,
    after: Map<u64, TrackedValue>,
    key: u64,
    rec: TrackedValue,
)
    requires
        before.contains_key(key),
        after == before.remove(key).insert(key, rec),
    ensures
        records_of(after) == records_of(before).insert(key, rec@),
{
    assert(records_of(after) =~= records_of(before).insert(key, rec@));
}

/// Updates with their values as models.
pub open spec fn update_models(updates: Seq<(u64, Value)>) -> Seq<(u64, ValueModel)> {
    updates.map_values(|p: (u64, Value)| (p.0, p.1@))
}

/// Whether `v` carries a pending change.
fn value_carries_delta(v: &Value) -> (r: bool)
    ensures
        r == carries_delta(v@),
{
    match v {
        Value::Numeric(Numeric::I64(n)) => n.delta != 0,
        Value::Numeric(Numeric::U64(n)) => n.delta.is_some(),
        Value::Numeric(Numeric::U256(n)) => n.delta.is_some(),
        Value::U64Set(s) => s.delta.is_some(),
        _ => false,
    }
}

/// One more access, wrapping around at `u32::MAX`.
fn bump(c: u32) -> (r: u32)
    ensures
        r == next_count(c),
{
    c.wrapping_add(1)
}

/// The records of one execution: every key it touched, with its accesses and
/// its view of the value, over a fallback store that it never writes to.
pub struct VmCache<'a, F> {
    pub id: u64,
    pub cache: HashMap<u64, TrackedValue>,
    order: Vec<u64>,
    fallback: Option<&'a F>,
}

impl<'a> VmCache<'a, NoFallback> {
    /// An empty cache with no fallback; its records carry `id`.
    pub fn new(id: u64) -> (r: VmCache<'a, NoFallback>)
        ensures
            r.wf(),
            r.writable_wf(),
            r.store_wf(),
            r.cache_id() == id,
            r.records() == Map::<u64, TrackedView>::empty(),
            r.fallback_contents() == Map::<u64, Value>::empty(),
    {
        VmCache { id, cache: HashMap::new(), order: Vec::new(), fallback: None }
    }
}

impl<'a, F: FallbackStore> VmCache<'a, F> {
    /// The values of the fallback store, empty when there is none.
    pub closed spec fn fallback_contents(&self) -> Map<u64, Value> {
        match self.fallback {
            Some(f) => f.contents(),
            None => Map::empty(),
        }
    }

    /// The id that the records carry.
    pub closed spec fn cache_id(&self) -> u64 {
        self.id
    }

    /// The records, each as a model.
    pub closed spec fn records(&self) -> Map<u64, TrackedView> {
        records_of(self.cache@)
    }

    /// The records are well formed, the fallback is consistent, and the keys
    /// are listed once each in the order they were first touched.
    pub closed spec fn wf(&self) -> bool {
        &&& forall|k: u64| #[trigger] self.cache@.contains_key(k) ==> self.cache@[k].wf()
        &&& self.fallback matches Some(f) ==> f.store_wf()
        &&& self.order@.no_duplicates()
        &&& forall|k: u64| #[trigger] self.cache@.contains_key(k) <==> self.order@.contains(k)
    }

    /// The record that an operation on `key` starts from.
    pub open spec fn base(&self, key: u64) -> TrackedView {
        base_record(self.records(), self.fallback_contents(), self.cache_id(), key)
    }

    /// Whether a value for `key` is visible to the execution.
    pub open spec fn visible(&self, key: u64) -> bool {
        visible_in(self.records(), self.fallback_contents(), key)
    }

    /// An empty cache over `fallback`; its records carry `id`.
    pub fn new_with_fallback(id: u64, fallback: &'a F) -> (r: VmCache<'a, F>)
        requires
            fallback.store_wf(),
        ensures
            r.wf(),
            r.writable_wf(),
            r.store_wf(),
            r.cache_id() == id,
            r.records() == Map::<u64, TrackedView>::empty(),
            r.fallback_contents() == fallback.contents(),
    {
        let r = VmCache { id, cache: HashMap::new(), order: Vec::new(), fallback: Some(fallback) };
        assert(r.records() =~= Map::<u64, TrackedView>::empty());
        r
    }

    /// The number of records.
    pub fn size(&self) -> (r: u64)
        ensures
            r == self.records().dom().len(),
    {
        proof {
            assert(self.records().dom() =~= self.cache@.dom());
        }
        self.cache.len() as u64
    }

    /// Makes sure that `key` has a record, starting one from the fallback if
    /// needed.
    fn ensure_record(&mut self, key: u64)
        requires
            old(self).wf(),
        ensures
            final(self).wf(),
            final(self).cache_id() == old(self).cache_id(),
            final(self).fallback == old(self).fallback,
            final(self).records() == old(self).records().insert(key, old(self).base(key)),
            final(self).cache@.contains_key(key),
            final(self).order@.contains(key),
            old(self).cache@.contains_key(key) ==> final(self).cache@[key] == old(self).cache@[key],
    {
        if self.cache.contains_key(&key) {
            proof {
                assert(self.cache@.contains_key(key));
                assert(self.order@.contains(key));
                assert(self.records() =~= self.records().insert(key, self.base(key)));
            }
            return;
        }
        let rec = match self.fallback {
            Some(f) => match f.get(&key) {
                Some(v) => {
                    proof {
                        f.lemma_contents_wf();
                    }
                    TrackedValue::new_borrowed(v.clone(), self.id)
                },
                None => TrackedValue::new_owned_empty(self.id),
            },
            None => TrackedValue::new_owned_empty(self.id),
        };
        let ghost before = self.records();
        let ghost b = self.base(key);
        assert(rec@ == b);
        self.cache.insert(key, rec);
        self.order.push(key);
        assert(self.order@[self.order@.len() - 1] == key);
        proof {
            assert(self.records() =~= before.insert(key, b));
            assert forall|k: u64| #[trigger] self.cache@.contains_key(k) <==> self.order@.contains(k) by {
                if k != key {
                    assert(old(self).cache@.contains_key(k) <==> old(self).order@.contains(k));
                    assert(self.order@.contains(k) ==> old(self).order@.contains(k)) by {
                        if self.order@.contains(k) {
                            let i = choose|i: int| 0 <= i < self.order@.len() && self.order@[i] == k;
                            assert(old(self).order@[i] == k);
                        }
                    }
                    assert(old(self).order@.contains(k) ==> self.order@.contains(k)) by {
                        if old(self).order@.contains(k) {
                            let i = choose|i: int| 0 <= i < old(self).order@.len() && old(self).order@[i] == k;
                            assert(self.order@[i] == k);
                        }
                    }
                } else {
                    assert(self.order@[self.order@.len() - 1] == key);
                }
            }
        }
    }

    /// Takes the record of `key` out of the map; it must be there.
    fn take(&mut self, key: u64) -> (rec: TrackedValue)
        requires
            old(self).wf(),
            old(self).cache@.contains_key(key),
        ensures
            rec == old(self).cache@[key],
            rec.wf(),
            final(self).cache@ == old(self).cache@.remove(key),
            final(self).order == old(self).order,
            final(self).cache_id() == old(self).cache_id(),
            final(self).fallback == old(self).fallback,
    {
        match self.cache.remove(&key) {
            Some(rec) => rec,
            None => TrackedValue::new_owned_empty(self.id),
        }
    }

    /// Puts back a record taken with `take`.
    fn put(&mut self, key: u64, rec: TrackedValue)
        requires
            old(self).order@.contains(key),
            !old(self).cache@.contains_key(key),
            rec.wf(),
            old(self).order@.no_duplicates(),
            forall|k: u64| #[trigger] old(self).cache@.contains_key(k) ==> old(self).cache@[k].wf(),
            forall|k: u64|
                k != key ==> (#[trigger] old(self).cache@.contains_key(k) <==> old(self).order@.contains(k)),
            old(self).fallback matches Some(f) ==> f.store_wf(),
        ensures
            final(self).wf(),
            final(self).cache@ == old(self).cache@.insert(key, rec),
            final(self).order == old(self).order,
            final(self).cache_id() == old(self).cache_id(),
            final(self).fallback == old(self).fallback,
    {
        self.cache.insert(key, rec);
    }

    /// The value of `key` as the execution sees it, its pending delta
    /// applied; counts a read, starting a record if needed.
    pub fn get(&mut self, key: &u64) -> (r: Option<Value>)
        requires
            old(self).wf(),
        ensures
            final(self).wf(),
            final(self).writable_wf(),
            final(self).store_wf(),
            final(self).cache_id() == old(self).cache_id(),
            final(self).fallback_contents() == old(self).fallback_contents(),
            final(self).records() == old(self).records().insert(*key, old(self).base(*key).after_get()),
            old(self).base(*key).live() ==> (r matches Some(v) && (if old(self).base(*key).deltas > 0 {
                value_applied(old(self).base(*key).value, v@)
            } else {
                v@ == old(self).base(*key).value
            })),
            !old(self).base(*key).live() ==> r is None,
    {
        let ghost start = self.records();
        let ghost b = self.base(*key);
        self.ensure_record(*key);
        let ghost ens = self.cache@;
        proof {
            assert(self.records()[*key] == b);
            assert(self.cache@[*key]@ == b);
        }
        let mut rec = self.take(*key);
        assert(rec@ == b);
        let touched = rec.has_delta();
        let result = match rec.get() {
            Some(v) => if touched {
                Some(v.applied())
            } else {
                Some(v.clone())
            },
            None => None,
        };
        let ghost done = rec;
        self.put(*key, rec);
        proof {
            lemma_records_replace(ens, self.cache@, *key, done);
            assert(start.insert(*key, b).insert(*key, done@) =~= start.insert(*key, done@));
            assert(self.records() =~= start.insert(*key, b.after_get()));
        }
        result
    }

    /// Creates `value` under `key`, or revives a deleted one. An absent value
    /// is refused without touching the records; a visible value is not
    /// replaced, and the attempt counts as an existence check.
    pub fn insert(&mut self, key: &u64, value: Value) -> (r: Result<(), Error>)
        requires
            old(self).wf(),
            value.wf(),
        ensures
            final(self).wf(),
            final(self).writable_wf(),
            final(self).store_wf(),
            final(self).cache_id() == old(self).cache_id(),
            final(self).fallback_contents() == old(self).fallback_contents(),
            value is Absent ==> r == Err::<(), Error>(Error::Store(StoreError::ValueCannotBeNone))
                && final(self).records() == old(self).records(),
            !(value is Absent) && old(self).base(*key).live() ==> {
                &&& r == Err::<(), Error>(Error::Store(StoreError::ValueCannotBeRecreated))
                &&& final(self).records() == old(self).records().insert(
                    *key,
                    old(self).base(*key).after_check(),
                )
            },
            !(value is Absent) && !old(self).base(*key).live() ==> {
                &&& r is Ok
                &&& final(self).records() == old(self).records().insert(
                    *key,
                    old(self).base(*key).after_set(value@),
                )
            },
    {
        if let Value::Absent = value {
            return Err(Error::Store(StoreError::ValueCannotBeNone));
        }
        let ghost start = self.records();
        let ghost b = self.base(*key);
        self.ensure_record(*key);
        let ghost ens = self.cache@;
        proof {
            assert(self.records()[*key] == b);
            assert(self.cache@[*key]@ == b);
        }
        let mut rec = self.take(*key);
        assert(rec@ == b);
        if rec.is_live() {
            rec.check();
            let ghost done = rec;
            self.put(*key, rec);
            proof {
                lemma_records_replace(ens, self.cache@, *key, done);
                assert(start.insert(*key, b).insert(*key, done@) =~= start.insert(*key, done@));
                assert(self.records() =~= start.insert(*key, b.after_check()));
            }
            return Err(Error::Store(StoreError::ValueCannotBeRecreated));
        }
        let result = rec.set(value);
        let ghost done = rec;
        self.put(*key, rec);
        proof {
            lemma_records_replace(ens, self.cache@, *key, done);
            assert(start.insert(*key, b).insert(*key, done@) =~= start.insert(*key, done@));
            assert(self.records() =~= start.insert(*key, b.after_set(value@)));
        }
        match result {
            Ok(()) => Ok(()),
            Err(e) => Err(Error::Store(e)),
        }
    }

    /// Adds `delta` to the visible value of `key`, counting the delta; a
    /// value that is not visible takes none.
    pub fn add_delta(&mut self, key: &u64, delta: Delta) -> (r: Result<(), Error>)
        requires
            old(self).wf(),
        ensures
            final(self).wf(),
            final(self).writable_wf(),
            final(self).store_wf(),
            final(self).cache_id() == old(self).cache_id(),
            final(self).fallback_contents() == old(self).fallback_contents(),
            !old(self).base(*key).live() ==> {
                &&& r == Err::<(), Error>(
                    Error::State(StateError::CannotAddDeltaToMissingValue),
                )
                &&& final(self).records() == old(self).records().insert(*key, old(self).base(*key))
            },
            old(self).base(*key).live() ==> exists|sr: Result<(), StateError>, nv: ValueModel|
                #![trigger value_add_outcome(old(self).base(*key).value, delta@, sr, nv)]
                value_add_outcome(old(self).base(*key).value, delta@, sr, nv) && r == state_result(
                    sr,
                ) && final(self).records() == old(self).records().insert(
                    *key,
                    TrackedView {
                        value: nv,
                        deltas: next_count(old(self).base(*key).deltas),
                        ..old(self).base(*key)
                    },
                ),
    {
        let ghost start = self.records();
        let ghost b = self.base(*key);
        let ghost d = delta@;
        self.ensure_record(*key);
        let ghost ens = self.cache@;
        proof {
            assert(self.records()[*key] == b);
            assert(self.cache@[*key]@ == b);
        }
        let mut rec = self.take(*key);
        assert(rec@ == b);
        let result = rec.add_delta(delta);
        let ghost nv = rec.value@;
        let ghost done = rec;
        self.put(*key, rec);
        proof {
            lemma_records_replace(ens, self.cache@, *key, done);
            assert(start.insert(*key, b).insert(*key, done@) =~= start.insert(*key, done@));
            if b.live() {
                assert(self.records() =~= start.insert(
                    *key,
                    TrackedView { value: nv, deltas: next_count(b.deltas), ..b },
                ));
                assert(value_add_outcome(b.value, d, result, nv));
            } else {
                assert(self.records() =~= start.insert(*key, b));
            }
        }
        match result {
            Ok(()) => Ok(()),
            Err(e) => Err(Error::State(e)),
        }
    }

    /// Whether a value for `key` is visible, without recording anything.
    pub fn exists_key(&self, key: &u64) -> (r: bool)
        requires
            self.wf(),
        ensures
            r == self.visible(*key),
    {
        match self.cache.get(key) {
            Some(rec) => rec.is_live(),
            None => match self.fallback {
                Some(f) => f.contains_key(key),
                None => false,
            },
        }
    }

    /// Deletes the visible value of `key` behind a tombstone; counts a write
    /// either way.
    pub fn delete(&mut self, key: &u64) -> (r: Result<(), Error>)
        requires
            old(self).wf(),
        ensures
            final(self).wf(),
            final(self).writable_wf(),
            final(self).store_wf(),
            final(self).cache_id() == old(self).cache_id(),
            final(self).fallback_contents() == old(self).fallback_contents(),
            final(self).records() == old(self).records().insert(*key, old(self).base(*key).after_delete()),
            old(self).base(*key).live() ==> r is Ok,
            !old(self).base(*key).live() ==> r == Err::<(), Error>(
                Error::Store(StoreError::DeleteNonexistingEntry),
            ),
    {
        let ghost start = self.records();
        let ghost b = self.base(*key);
        self.ensure_record(*key);
        let ghost ens = self.cache@;
        proof {
            assert(self.records()[*key] == b);
            assert(self.cache@[*key]@ == b);
        }
        let mut rec = self.take(*key);
        assert(rec@ == b);
        let result = rec.delete();
        let ghost done = rec;
        self.put(*key, rec);
        proof {
            lemma_records_replace(ens, self.cache@, *key, done);
            assert(start.insert(*key, b).insert(*key, done@) =~= start.insert(*key, done@));
            assert(self.records() =~= start.insert(*key, b.after_delete()));
        }
        match result {
            Ok(()) => Ok(()),
            Err(e) => Err(Error::Store(e)),
        }
    }

    /// Hands out every record, each key once, and the transitions that the
    /// execution leaves: for each changed record (not only read or checked,
    /// not created and then deleted, and either live or behind a tombstone),
    /// the key with its value, its pending delta applied, or an absent value
    /// for a deletion. The cache is empty afterwards.
    pub fn drain(&mut self) -> (r: (Vec<(u64, TrackedValue)>, Vec<(u64, Value)>))
        requires
            old(self).wf(),
        ensures
            final(self).wf(),
            final(self).writable_wf(),
            final(self).store_wf(),
            final(self).cache_id() == old(self).cache_id(),
            final(self).fallback_contents() == old(self).fallback_contents(),
            final(self).records() == Map::<u64, TrackedView>::empty(),
            forall|i: int|
                0 <= i < r.0@.len() ==> old(self).records().contains_key(#[trigger] r.0@[i].0)
                    && r.0@[i].1@ == old(self).records()[r.0@[i].0],
            forall|k: u64| #[trigger]
                old(self).records().contains_key(k) ==> exists|i: int|
                    0 <= i < r.0@.len() && #[trigger] r.0@[i].0 == k,
            forall|i: int, j: int| 0 <= i < j < r.0@.len() ==> #[trigger] r.0@[i].0 != #[trigger] r.0@[j].0,
            forall|i: int|
                0 <= i < r.1@.len() ==> {
                    let rec = old(self).records()[#[trigger] r.1@[i].0];
                    &&& old(self).records().contains_key(r.1@[i].0)
                    &&& rec.dirty()
                    &&& rec.tombstone ==> r.1@[i].1 is Absent
                    &&& !rec.tombstone ==> value_applied(rec.value, r.1@[i].1@)
                },
            forall|k: u64| #[trigger]
                old(self).records().contains_key(k) && old(self).records()[k].dirty() ==> exists|
                    i: int,
                | 0 <= i < r.1@.len() && #[trigger] r.1@[i].0 == k,
            forall|i: int, j: int| 0 <= i < j < r.1@.len() ==> #[trigger] r.1@[i].0 != #[trigger] r.1@[j].0,
    {
        let ghost start = self.records();
        let ghost order = self.order@;
        let mut accesses: Vec<(u64, TrackedValue)> = Vec::new();
        let mut transitions: Vec<(u64, Value)> = Vec::new();
        let mut i: usize = 0;
        while i < self.order.len()
            invariant
                self.order@ == order,
                order.no_duplicates(),
                i <= order.len(),
                forall|k: u64| #[trigger] start.contains_key(k) <==> order.contains(k),
                forall|k: u64| #[trigger] self.cache@.contains_key(k) ==> self.cache@[k].wf(),
                forall|k: u64|
                    #[trigger] self.cache@.contains_key(k) <==> (start.contains_key(k)
                        && !order.take(i as int).contains(k)),
                forall|k: u64| #[trigger] self.cache@.contains_key(k) ==> self.cache@[k]@ == start[k],
                accesses@.len() == i,
                forall|j: int| 0 <= j < i ==> #[trigger] accesses@[j].0 == order[j] && accesses@[j].1@
                    == start[order[j]],
                forall|j: int|
                    0 <= j < transitions@.len() ==> {
                        let rec = start[#[trigger] transitions@[j].0];
                        &&& order.take(i as int).contains(transitions@[j].0)
                        &&& start.contains_key(transitions@[j].0)
                        &&& rec.dirty()
                        &&& rec.tombstone ==> transitions@[j].1 is Absent
                        &&& !rec.tombstone ==> value_applied(rec.value, transitions@[j].1@)
                    },
                forall|j: int|
                    0 <= j < i && #[trigger] start[order[j]].dirty() ==> exists|t: int|
                        0 <= t < transitions@.len() && #[trigger] transitions@[t].0 == order[j],
                forall|a: int, c: int|
                    0 <= a < c < transitions@.len() ==> #[trigger] transitions@[a].0
                        != #[trigger] transitions@[c].0,
                self.fallback == old(self).fallback,
                self.id == old(self).id,
                forall|k: u64| #[trigger] old(self).cache@.contains_key(k) ==> start.contains_key(k),
            decreases order.len() - i,
        {
            let key = self.order[i];
            proof {
                assert(order.contains(key));
                assert(!order.take(i as int).contains(key)) by {
                    if order.take(i as int).contains(key) {
                        let j = choose|j: int| 0 <= j < i && order.take(i as int)[j] == key;
                        assert(order[j] == order[i as int]);
                    }
                }
                assert(order.take(i + 1) =~= order.take(i as int).push(key));
                let next = order.take(i + 1);
                let prev = order.take(i as int);
                assert forall|k: u64| next.contains(k) <==> (prev.contains(k) || k == key) by {
                    if next.contains(k) && k != key {
                        let j = choose|j: int| 0 <= j < next.len() && next[j] == k;
                        assert(prev[j] == k);
                    }
                    if prev.contains(k) {
                        let j = choose|j: int| 0 <= j < prev.len() && prev[j] == k;
                        assert(next[j] == k);
                    }
                    if k == key {
                        assert(next[i as int] == k);
                    }
                }
            }
            let rec = match self.cache.remove(&key) {
                Some(rec) => rec,
                None => TrackedValue::new_owned_empty(self.id),
            };
            let ghost before = transitions@;
            if !rec.is_read_only() && !rec.is_creation_cancelled() && (rec.is_live()
                || rec.is_tombstone()) {
                let value = if rec.is_tombstone() {
                    Value::Absent
                } else {
                    rec.value().applied()
                };
                transitions.push((key, value));
                assert(transitions@[transitions@.len() - 1].0 == key);
            }
            proof {
                assert forall|j: int|
                    0 <= j < i + 1 && #[trigger] start[order[j]].dirty() implies exists|t: int|
                        0 <= t < transitions@.len() && #[trigger] transitions@[t].0 == order[j] by {
                    if j < i {
                        let t = choose|t: int| 0 <= t < before.len() && #[trigger] before[t].0 == order[j];
                        assert(transitions@[t].0 == order[j]);
                    } else {
                        assert(transitions@[transitions@.len() - 1].0 == order[j]);
                    }
                }
            }
            accesses.push((key, rec));
            i = i + 1;
        }
        assert(order.take(order.len() as int) =~= order);
        proof {
            assert forall|i: int, j: int| 0 <= i < j < accesses@.len() implies #[trigger] accesses@[i].0
                != #[trigger] accesses@[j].0 by {
                assert(order[i] != order[j]);
            }
            assert(start == old(self).records());
            assert(i == order.len());
            assert forall|k: u64| #[trigger] old(self).records().contains_key(k) implies exists|i: int|
                0 <= i < accesses@.len() && #[trigger] accesses@[i].0 == k by {
                assert(order.contains(k));
                let i = choose|i: int| 0 <= i < order.len() && order[i] == k;
                assert(accesses@[i].0 == order[i]);
                assert(accesses@[i].0 == k);
            }
            assert forall|k: u64| #[trigger]
                start.contains_key(k) && start[k].dirty() implies exists|i: int|
                0 <= i < transitions@.len() && #[trigger] transitions@[i].0 == k by {
                let j = choose|j: int| 0 <= j < order.len() && order[j] == k;
                assert(start[order[j]].dirty());
            }
        }
        self.order = Vec::new();
        proof {
            assert(self.records() =~= Map::<u64, TrackedView>::empty());
        }
        let ghost acc = accesses@;
        let r = (accesses, transitions);
        assert(r.0@ == acc);
        r
    }
}

impl<'a, F: FallbackStore> FallbackStore for VmCache<'a, F> {
    /// The live values of the records, and the fallback's values for the keys
    /// without a record; a deleted record hides the fallback's value.
    closed spec fn contents(&self) -> Map<u64, Value> {
        Map::new(
            |k: u64|
                if self.cache@.contains_key(k) {
                    self.cache@[k].live()
                } else {
                    self.fallback_contents().contains_key(k)
                },
            |k: u64|
                if self.cache@.contains_key(k) {
                    self.cache@[k].value
                } else {
                    self.fallback_contents()[k]
                },
        )
    }

    closed spec fn store_wf(&self) -> bool {
        self.wf()
    }

    proof fn lemma_contents_wf(&self) {
        if let Some(f) = self.fallback {
            f.lemma_contents_wf();
        }
    }

    fn contains_key(&self, key: &u64) -> (r: bool) {
        self.exists_key(key)
    }

    /// Reads without recording anything.
    fn get(&self, key: &u64) -> (r: Option<&Value>) {
        match self.cache.get(key) {
            Some(rec) => if rec.is_live() {
                Some(rec.value())
            } else {
                None
            },
            None => match self.fallback {
                Some(f) => f.get(key),
                None => None,
            },
        }
    }
}

impl<'a, F: FallbackStore> WriteOnlyStore for VmCache<'a, F> {
    closed spec fn writable_wf(&self) -> bool {
        self.wf()
    }

    /// Stages each update in turn (see `stage_step`), stopping at the first
    /// error.
    fn stage(&mut self, updates: Vec<(u64, Value)>) -> (r: Result<(), StoreError>)
        ensures
            final(self).store_wf(),
            final(self).cache_id() == old(self).cache_id(),
            final(self).fallback_contents() == old(self).fallback_contents(),
            staged(
                old(self).records(),
                old(self).fallback_contents(),
                old(self).cache_id(),
                update_models(updates@),
                r,
                final(self).records(),
            ),
    {
        let ghost start = self.records();
        let ghost fb = self.fallback_contents();
        let ghost all = update_models(updates@);
        let ghost values = updates@;
        let ghost mut states: Seq<Map<u64, TrackedView>> = seq![start];
        let ghost mut results: Seq<Result<(), StoreError>> = Seq::empty();
        for pair in it: updates.into_iter()
            invariant
                it.seq() == values,
                all == update_models(values),
                values == updates@,
                start == old(self).records(),
                updates_wf(values),
                self.wf(),
                self.id == old(self).id,
                self.fallback == old(self).fallback,
                fb == self.fallback_contents(),
                all.len() == values.len(),
                states.len() == results.len() + 1,
                results.len() == it.index(),
                states[0] == start,
                states.last() == self.records(),
                forall|i: int|
                    0 <= i < results.len() ==> stage_step(
                        states[i],
                        fb,
                        self.id,
                        all[i].0,
                        all[i].1,
                        #[trigger] results[i],
                        states[i + 1],
                    ),
                forall|i: int| 0 <= i < results.len() ==> #[trigger] results[i] is Ok,
        {
            let ghost idx = it.index() as int;
            let ghost mid = self.records();
            let (key, value) = pair;
            proof {
                assert(values[idx] == (key, value));
                assert(value.wf());
                assert(all[idx] == (key, value@));
            }
            let ghost b = self.base(key);
            let result: Result<(), StoreError> = if !self.exists_key(&key) {
                self.ensure_record(key);
                let ghost ens = self.cache@;
                proof {
                    assert(self.records()[key] == b);
                    assert(self.cache@[key]@ == b);
                }
                let mut rec = self.take(key);
                assert(rec@ == b);
                let r = rec.set(value);
                let ghost done = rec;
                self.put(key, rec);
                proof {
                    lemma_records_replace(ens, self.cache@, key, done);
                    assert(mid.insert(key, b).insert(key, done@) =~= mid.insert(key, done@));
                }
                r
            } else {
                self.ensure_record(key);
                let ghost ens = self.cache@;
                proof {
                    assert(self.records()[key] == b);
                    assert(self.cache@[key]@ == b);
                }
                let mut rec = self.take(key);
                assert(rec@ == b);
                let r = if let Value::Absent = value {
                    rec.delete()
                } else if value_carries_delta(&value) {
                    let delta = value.delta();
                    let ghost d = delta@;
                    let s = rec.add_delta(delta);
                    proof {
                        if b.live() {
                            assert(value_add_outcome(b.value, value_delta(value@), s, rec.value@));
                        }
                    }
                    match s {
                        Ok(()) => Ok(()),
                        Err(e) => Err(StoreError::State(e)),
                    }
                } else {
                    rec.value = value;
                    rec.writes = bump(rec.writes);
                    Ok(())
                };
                let ghost done = rec;
                self.put(key, rec);
                proof {
                    lemma_records_replace(ens, self.cache@, key, done);
                    assert(mid.insert(key, b).insert(key, done@) =~= mid.insert(key, done@));
                }
                r
            };
            proof {
                assert(stage_step(mid, fb, self.id, key, value@, result, self.records())) by {
                    assert(self.records() =~= mid.insert(key, self.records()[key]));
                }
                states = states.push(self.records());
                results = results.push(result);
            }
            match result {
                Ok(()) => {},
                Err(e) => {
                    proof {
                        assert(result == Err::<(), StoreError>(e));
                        assert(staged_run(start, fb, self.id, all, states, results, Err(e), self.records()));
                        assert(staged(start, fb, self.id, all, Err(e), self.records()));
                    }
                    return Err(e);
                },
            }
        }
        proof {
            assert(staged_run(start, fb, self.id, all, states, results, Ok(()), self.records()));
        }
        Ok(())
    }

    /// Leaves the cache as it is; its transitions leave through `drain`.
    fn commit(&mut self, updates: Vec<(u64, Value)>)
        ensures
            *final(self) == *old(self),
            final(self).store_wf(),
    {
    }
}

/// A value that `insert` accepts is visible afterwards, and a value that
/// `delete` removes is not; other keys are untouched.
pub proof fn lemma_insert_then_delete(
    records: Map<u64, TrackedView>,
    fallback: Map<u64, Value>,
    id: u64,
    key: u64,
    other: u64,
    v: ValueModel,
)
    requires
        !base_record(records, fallback, id, key).live(),
        !(v is Absent),
        other != key,
    ensures
        ({
            let created = records.insert(key, base_record(records, fallback, id, key).after_set(v));
            let deleted = created.insert(key, base_record(created, fallback, id, key).after_delete());
            &&& visible_in(created, fallback, key)
            &&& base_record(created, fallback, id, key).value == v
            &&& !visible_in(deleted, fallback, key)
            &&& visible_in(created, fallback, other) == visible_in(records, fallback, other)
            &&& visible_in(deleted, fallback, other) == visible_in(records, fallback, other)
        }),
{
}

/// The existence of a key follows a single optional value: a key is visible
/// exactly when its record holds a live value; a read or an existence check
/// changes neither; a refused insert (of a visible key) changes nothing, an
/// accepted one makes the inserted value visible; a delete leaves the key not
/// visible. A fallback value stands for itself unless it is absent.
pub proof fn lemma_existence_model(
    records: Map<u64, TrackedView>,
    fallback: Map<u64, Value>,
    id: u64,
    key: u64,
    v: ValueModel,
)
    requires
        !(v is Absent),
        fallback.contains_key(key) ==> !(fallback[key]@ is Absent),
    ensures
        ({
            let b = base_record(records, fallback, id, key);
            let read = records.insert(key, b.after_get());
            let checked = records.insert(key, b.after_check());
            let set = records.insert(key, b.after_set(v));
            let deleted = records.insert(key, b.after_delete());
            &&& visible_in(records, fallback, key) == b.live()
            &&& visible_in(read, fallback, key) == b.live()
            &&& base_record(read, fallback, id, key).value == b.value
            &&& visible_in(checked, fallback, key) == b.live()
            &&& base_record(checked, fallback, id, key).value == b.value
            &&& !b.live() ==> visible_in(set, fallback, key) && base_record(
                set,
                fallback,
                id,
                key,
            ).value == v
            &&& !visible_in(deleted, fallback, key)
        }),
{
}

/// What a cache shows without recording a read follows its records: a key
/// is there exactly when it is visible, with the value of its record (or of
/// the fallback, for a key without a record). With `lemma_existence_model`,
/// an untracked read after any run of inserts, deletes and reads gives the
/// value that the run leaves.
pub proof fn lemma_contents_follow_records<'a, F: FallbackStore>(c: &VmCache<'a, F>, key: u64)
    ensures
        c.contents().contains_key(key) == c.visible(key),
        c.visible(key) ==> c.contents()[key]@ == c.base(key).value,
{
}

/// One operation on a key's record, as the cache's methods leave it: kind 1
/// inserts `v` (refused, with an existence check counted, when a value is
/// live), kind 2 deletes, any other kind reads.
pub open spec fn key_step(rec: TrackedView, kind: int, v: ValueModel) -> TrackedView {
    if kind == 1 {
        if rec.live() {
            rec.after_check()
        } else {
            rec.after_set(v)
        }
    } else if kind == 2 {
        rec.after_delete()
    } else {
        rec.after_get()
    }
}

/// A key's record after `ops` in turn.
pub open spec fn key_run(rec: TrackedView, ops: Seq<(int, ValueModel)>) -> TrackedView
    decreases ops.len(),
{
    if ops.len() == 0 {
        rec
    } else {
        key_step(key_run(rec, ops.drop_last()), ops.last().0, ops.last().1)
    }
}

/// The value that a single optional value holds after `ops`: an insert
/// fills an empty one, a delete empties it, a read changes nothing.
pub open spec fn model_run(m: Option<ValueModel>, ops: Seq<(int, ValueModel)>) -> Option<
    ValueModel,
>
    decreases ops.len(),
{
    if ops.len() == 0 {
        m
    } else {
        let before = model_run(m, ops.drop_last());
        let (kind, v) = ops.last();
        if kind == 1 {
            if before is Some {
                before
            } else {
                Some(v)
            }
        } else if kind == 2 {
            None
        } else {
            before
        }
    }
}

/// After any run of inserts (of present values), deletes and reads on a
/// key, its record holds a live value exactly when the single optional
/// value does, and then the same value; so each insert is refused exactly
/// when a value is there and each delete fails exactly when none is. With
/// `base_record` of a key's new record being that record, and
/// `lemma_contents_follow_records`, this is what `exists_key` and an
/// untracked read report after such a run on a cache.
pub proof fn lemma_existence_over_runs(
    rec: TrackedView,
    m: Option<ValueModel>,
    ops: Seq<(int, ValueModel)>,
)
    requires
        forall|i: int| 0 <= i < ops.len() && (#[trigger] ops[i]).0 == 1 ==> !(ops[i].1 is Absent),
        rec.live() <==> m is Some,
        m matches Some(v) ==> rec.value == v,
    ensures
        key_run(rec, ops).live() <==> model_run(m, ops) is Some,
        model_run(m, ops) matches Some(v) ==> key_run(rec, ops).value == v,
    decreases ops.len(),
{
    if ops.len() > 0 {
        let rest = ops.drop_last();
        assert forall|i: int| 0 <= i < rest.len() && (#[trigger] rest[i]).0 == 1 implies !(
        rest[i].1 is Absent) by {
            assert(rest[i] == ops[i]);
        }
        lemma_existence_over_runs(rec, m, rest);
        assert(ops.last() == ops[ops.len() - 1]);
    }
}

/// A key's new record is what the cache then holds for it.
pub proof fn lemma_record_is_base(
    records: Map<u64, TrackedView>,
    fallback: Map<u64, Value>,
    id: u64,
    key: u64,
    t: TrackedView,
)
    ensures
        base_record(records.insert(key, t), fallback, id, key) == t,
        visible_in(records.insert(key, t), fallback, key) == t.live(),
{
}

} // verus!
