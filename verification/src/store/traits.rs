use vstd::prelude::*;

use crate::crdt::state::error::StateError;
use crate::crdt::state::value::Value;

verus! {

/// Errors of the stores and of the records they keep.
#[derive(Debug, PartialEq, Eq)]
pub enum StoreError {
    ValueCannotBeRecreated,
    NotFound,
    EntryNotFound,
    SetNoneToValue,
    DeleteNonexistingEntry,
    ValueCannotBeNone,
    State(StateError),
}

/// Whether every value of `m` is well formed.
pub open spec fn values_wf(m: Map<u64, Value>) -> bool {
    forall|k: u64| #[trigger] m.contains_key(k) ==> m[k].wf()
}

/// Whether every value of `updates` is well formed.
pub open spec fn updates_wf(updates: Seq<(u64, Value)>) -> bool {
    forall|i: int| 0 <= i < updates.len() ==> (#[trigger] updates[i]).1.wf()
}

/// A store that can be read from: the values that a cache falls back on.
pub trait FallbackStore {
    /// The values that the store holds.
    spec fn contents(&self) -> Map<u64, Value>;

    /// The store's own consistency.
    spec fn store_wf(&self) -> bool;

    /// The values of a consistent store are well formed.
    proof fn lemma_contents_wf(&self)
        requires
            self.store_wf(),
        ensures
            values_wf(self.contents()),
    ;

    /// Whether the store holds a value for `key`.
    fn contains_key(&self, key: &u64) -> (r: bool)
        requires
            self.store_wf(),
        ensures
            r == self.contents().contains_key(*key),
    ;

    /// The value held for `key`, if any.
    fn get(&self, key: &u64) -> (r: Option<&Value>)
        requires
            self.store_wf(),
        ensures
            match r {
                Some(v) => self.contents().contains_key(*key) && *v == self.contents()[*key],
                None => !self.contents().contains_key(*key),
            },
    ;
}

/// A store that takes batches of updates: `stage` makes them visible,
/// `commit` makes them durable.
pub trait WriteOnlyStore {
    /// The store's own consistency.
    spec fn writable_wf(&self) -> bool;

    fn stage(&mut self, updates: Vec<(u64, Value)>) -> (r: Result<(), StoreError>)
        requires
            old(self).writable_wf(),
            updates_wf(updates@),
        ensures
            final(self).writable_wf(),
    ;

    fn commit(&mut self, updates: Vec<(u64, Value)>)
        requires
            old(self).writable_wf(),
            updates_wf(updates@),
        ensures
            final(self).writable_wf(),
    ;
}

/// The store with nothing in it, for a cache that has no fallback.
pub struct NoFallback;

impl FallbackStore for NoFallback {
    open spec fn contents(&self) -> Map<u64, Value> {
        Map::empty()
    }

    open spec fn store_wf(&self) -> bool {
        true
    }

    proof fn lemma_contents_wf(&self) {
    }

    fn contains_key(&self, key: &u64) -> (r: bool) {
        false
    }

    fn get(&self, key: &u64) -> (r: Option<&Value>) {
        None
    }
}

} // verus!
