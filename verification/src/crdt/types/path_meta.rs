use vstd::prelude::*;

use crate::collections::delta_set::{DeltaSet, DeltaSetView};
use crate::crdt::crdt::Crdt;
use crate::crdt::state::error::StateError;
use crate::crdt::types::u64_set::append_unique;

verus! {

/// The pending change of a path's children: keys to insert and keys to
/// remove, each list without repetition.
#[derive(Debug, PartialEq)]
pub struct PathDelta {
    pub added: Vec<u64>,
    pub removed: Vec<u64>,
}

/// The children of a path, as a replicated key set, with an optional pending
/// delta.
#[derive(Debug, PartialEq)]
pub struct PathMeta {
    pub entries: DeltaSet,
    pub delta: Option<PathDelta>,
}

/// The state of a set after applying a path delta and committing.
pub open spec fn path_applied(v: DeltaSetView, removed: Seq<u64>, added: Seq<u64>) -> DeltaSetView {
    let w = v.applied(removed, added);
    DeltaSetView { slots: w.slots, index: w.index, committed: w.index }
}

/// Whether `keys` holds `key`.
fn contains_key(keys: &Vec<u64>, key: u64) -> (r: bool)
    ensures
        r == keys@.contains(key),
{
    let mut i: usize = 0;
    while i < keys.len()
        invariant
            i <= keys.len(),
            forall|j: int| 0 <= j < i ==> keys@[j] != key,
        decreases keys.len() - i,
    {
        if keys[i] == key {
            return true;
        }
        i = i + 1;
    }
    false
}

/// Appends to `pending` each key of `keys` that it does not hold yet.
fn push_unique_keys(pending: &mut Vec<u64>, keys: &[u64])
    ensures
        final(pending)@ == append_unique(old(pending)@, keys@),
{
    let ghost start = pending@;
    let mut i: usize = 0;
    while i < keys.len()
        invariant
            i <= keys.len(),
            pending@ == append_unique(start, keys@.take(i as int)),
        decreases keys.len() - i,
    {
        assert(keys@.take(i + 1).drop_last() =~= keys@.take(i as int));
        if !contains_key(pending, keys[i]) {
            pending.push(keys[i]);
        }
        i = i + 1;
    }
    assert(keys@.take(keys.len() as int) =~= keys@);
}

/// A copy of `keys`.
fn copy_keys(keys: &Vec<u64>) -> (r: Vec<u64>)
    ensures
        r@ == keys@,
{
    let mut r: Vec<u64> = Vec::new();
    let mut i: usize = 0;
    while i < keys.len()
        invariant
            i <= keys.len(),
            r@ == keys@.take(i as int),
        decreases keys.len() - i,
    {
        r.push(keys[i]);
        i = i + 1;
        assert(r@ == keys@.take(i as int));
    }
    assert(keys@.take(keys.len() as int) =~= keys@);
    r
}

impl Default for PathDelta {
    fn default() -> (r: PathDelta)
        ensures
            r.added@ == Seq::<u64>::empty(),
            r.removed@ == Seq::<u64>::empty(),
    {
        PathDelta { added: Vec::new(), removed: Vec::new() }
    }
}

impl Clone for PathDelta {
    fn clone(&self) -> (r: PathDelta)
        ensures
            r.added@ == self.added@,
            r.removed@ == self.removed@,
    {
        PathDelta { added: copy_keys(&self.added), removed: copy_keys(&self.removed) }
    }
}

impl PathMeta {
    /// An empty path with no pending delta.
    pub fn new() -> (r: Result<PathMeta, StateError>)
        ensures
            r matches Ok(p) && p.crdt_wf() && p.entries@.slots.len() == 0 && p.entries@.live()
                == Set::<u64>::empty() && p.delta is None,
    {
        Ok(PathMeta::default())
    }
}

impl Default for PathMeta {
    fn default() -> (r: PathMeta)
        ensures
            r.crdt_wf(),
            r.entries@.slots == Seq::<Option<u64>>::empty(),
            r.entries@.index == Map::<u64, u64>::empty(),
            r.entries@.committed == Map::<u64, u64>::empty(),
            r.delta is None,
    {
        PathMeta { entries: DeltaSet::new(16), delta: None }
    }
}

impl Clone for PathMeta {
    fn clone(&self) -> (r: PathMeta)
        ensures
            r.entries@ == self.entries@,
            r.delta is Some <==> self.delta is Some,
            r.delta matches Some(d) ==> d.added@ == self.delta->0.added@ && d.removed@
                == self.delta->0.removed@,
    {
        let delta = match &self.delta {
            Some(d) => Some(d.clone()),
            None => None,
        };
        PathMeta { entries: self.entries.clone(), delta }
    }
}

impl Crdt<DeltaSet, PathDelta> for PathMeta {
    type Error = StateError;

    open spec fn crdt_wf(&self) -> bool {
        self.entries.wf()
    }

    open spec fn accepts_deltas(&self) -> bool {
        self.crdt_wf()
    }

    /// The committed children; always present.
    fn value(&self) -> (r: Option<&DeltaSet>)
        ensures
            r == Some(&self.entries),
    {
        Some(&self.entries)
    }

    fn delta(&self) -> (r: Option<&PathDelta>)
        ensures
            r == match self.delta {
                Some(d) => Some(&d),
                None => None,
            },
    {
        match &self.delta {
            Some(d) => Some(d),
            None => None,
        }
    }

    /// Appends to the pending additions and removals each key of `delta`'s
    /// that they do not hold yet, starting from none; never fails.
    fn add_delta(&mut self, delta: &PathDelta) -> (r: Result<&PathDelta, StateError>)
        ensures
            final(self).entries == old(self).entries,
            final(self).delta matches Some(d) && d.added@ == append_unique(
                match old(self).delta {
                    Some(p) => p.added@,
                    None => Seq::<u64>::empty(),
                },
                delta.added@,
            ) && d.removed@ == append_unique(
                match old(self).delta {
                    Some(p) => p.removed@,
                    None => Seq::<u64>::empty(),
                },
                delta.removed@,
            ),
            r matches Ok(p) && *p == final(self).delta->0,
    {
        let mut pending = match self.delta.take() {
            Some(p) => p,
            None => PathDelta::default(),
        };
        push_unique_keys(&mut pending.added, delta.added.as_slice());
        push_unique_keys(&mut pending.removed, delta.removed.as_slice());
        self.delta = Some(pending);
        match &self.delta {
            Some(p) => Ok(p),
            None => Err(StateError::NoValue),
        }
    }

    /// Removes the pending removals, inserts the pending additions, commits,
    /// and clears the pending delta.
    fn apply_delta(&mut self) -> (r: &PathMeta)
        ensures
            final(self).delta is None,
            old(self).delta matches Some(d) ==> final(self).entries@ == path_applied(
                old(self).entries@,
                d.removed@,
                d.added@,
            ),
            old(self).delta is None ==> final(self).entries@ == old(self).entries@,
            *r == *final(self),
    {
        if let Some(pending) = self.delta.take() {
            self.entries.apply_delta(pending.removed.as_slice(), pending.added.as_slice());
            self.entries.commit();
        }
        self
    }

    fn limits(&self) -> (r: Option<(&DeltaSet, &DeltaSet)>)
        ensures
            r is None,
    {
        None
    }

    fn is_numeric(&self) -> (r: bool)
        ensures
            !r,
    {
        false
    }

    fn is_commutative(&self) -> (r: bool)
        ensures
            r,
    {
        true
    }
}

} // verus!
