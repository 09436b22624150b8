use vstd::prelude::*;

use crate::crdt::state::delta::Delta;
use crate::crdt::state::error::StateError;
use crate::crdt::state::value::{Value, ValueModel, value_add_outcome, value_applied};
use crate::store::traits::StoreError;

verus! {

/// A value as one execution sees it, with a count of each kind of access:
/// reads, existence checks, writes, deltas and creations. A deleted value is
/// kept behind a tombstone.
#[derive(Debug)]
pub struct TrackedValue {
    pub id: u64,
    pub value: Value,
    pub reads: u32,
    pub checks: u32,
    pub writes: u32,
    pub deltas: u32,
    pub creates: u32,
    pub is_new: bool,
    pub tombstone: bool,
}

/// What a record holds, with its value as a model.
pub struct TrackedView {
    pub id: u64,
    pub value: ValueModel,
    pub reads: u32,
    pub checks: u32,
    pub writes: u32,
    pub deltas: u32,
    pub creates: u32,
    pub is_new: bool,
    pub tombstone: bool,
}

impl View for TrackedValue {
    type V = TrackedView;

    open spec fn view(&self) -> TrackedView {
        TrackedView {
            id: self.id,
            value: self.value@,
            reads: self.reads,
            checks: self.checks,
            writes: self.writes,
            deltas: self.deltas,
            creates: self.creates,
            is_new: self.is_new,
            tombstone: self.tombstone,
        }
    }
}

impl TrackedView {
    /// A record with no accesses yet, of a value that existed before.
    pub open spec fn fresh(id: u64, value: ValueModel) -> TrackedView {
        TrackedView {
            id,
            value,
            reads: 0,
            checks: 0,
            writes: 0,
            deltas: 0,
            creates: 0,
            is_new: false,
            tombstone: false,
        }
    }

    /// A value that exists: present and not deleted.
    pub open spec fn live(self) -> bool {
        !self.tombstone && !(self.value is Absent)
    }

    /// Neither written, given a delta, created nor deleted.
    pub open spec fn read_only(self) -> bool {
        self.writes == 0 && self.deltas == 0 && self.creates == 0 && !self.tombstone
    }

    /// Created by the execution and then deleted.
    pub open spec fn creation_cancelled(self) -> bool {
        self.is_new && self.tombstone
    }

    /// Changed in a way that outlives the execution: written, given a delta,
    /// created or deleted (not a creation that was then deleted), and now
    /// either holding a live value or behind a tombstone. A failed delete of
    /// a missing value leaves neither.
    pub open spec fn dirty(self) -> bool {
        &&& !self.read_only()
        &&& !self.creation_cancelled()
        &&& self.live() || self.tombstone
    }

    /// The record after a read.
    pub open spec fn after_get(self) -> TrackedView {
        TrackedView { reads: next_count(self.reads), ..self }
    }

    /// The record after an existence check.
    pub open spec fn after_check(self) -> TrackedView {
        TrackedView { checks: next_count(self.checks), ..self }
    }

    /// The record after a delete: a live value goes behind a tombstone.
    pub open spec fn after_delete(self) -> TrackedView {
        TrackedView {
            writes: next_count(self.writes),
            tombstone: self.tombstone || self.live(),
            ..self
        }
    }

    /// The record after setting a present value `v`.
    pub open spec fn after_set(self, v: ValueModel) -> TrackedView {
        if self.live() {
            TrackedView { writes: next_count(self.writes), ..self }
        } else if self.tombstone {
            TrackedView { value: v, tombstone: false, writes: next_count(self.writes), ..self }
        } else {
            TrackedView { value: v, is_new: true, creates: next_count(self.creates), ..self }
        }
    }
}

/// A counter after one more access; counters wrap around at `u32::MAX`.
pub open spec fn next_count(c: u32) -> u32 {
    if c == u32::MAX {
        0
    } else {
        (c + 1) as u32
    }
}

/// One more access, wrapping around at `u32::MAX`.
fn bump(c: u32) -> (r: u32)
    ensures
        r == next_count(c),
{
    c.wrapping_add(1)
}

/// The access counts and flags of a record, everything but its value.
pub open spec fn same_history(a: TrackedValue, b: TrackedValue) -> bool {
    &&& a.id == b.id
    &&& a.reads == b.reads
    &&& a.checks == b.checks
    &&& a.writes == b.writes
    &&& a.deltas == b.deltas
    &&& a.creates == b.creates
    &&& a.is_new == b.is_new
    &&& a.tombstone == b.tombstone
}

impl TrackedValue {
    /// The value is well formed.
    pub open spec fn wf(self) -> bool {
        self.value.wf()
    }

    /// A value that exists: present and not deleted.
    pub open spec fn live(self) -> bool {
        !self.tombstone && !(self.value is Absent)
    }

    /// A record of a missing value, with no accesses yet.
    pub fn new_owned_empty(id: u64) -> (r: TrackedValue)
        ensures
            r == (TrackedValue {
                id,
                value: Value::Absent,
                reads: 0,
                checks: 0,
                writes: 0,
                deltas: 0,
                creates: 0,
                is_new: false,
                tombstone: false,
            }),
    {
        TrackedValue {
            id,
            value: Value::Absent,
            reads: 0,
            checks: 0,
            writes: 0,
            deltas: 0,
            creates: 0,
            is_new: false,
            tombstone: false,
        }
    }

    /// A record of a value created by this execution.
    pub fn new_owned(value: Value, id: u64) -> (r: TrackedValue)
        ensures
            r == (TrackedValue {
                id,
                value,
                reads: 0,
                checks: 0,
                writes: 0,
                deltas: 0,
                creates: 1,
                is_new: true,
                tombstone: false,
            }),
    {
        TrackedValue {
            id,
            value,
            reads: 0,
            checks: 0,
            writes: 0,
            deltas: 0,
            creates: 1,
            is_new: true,
            tombstone: false,
        }
    }

    /// A record of a value that existed before this execution.
    pub fn new_borrowed(value: Value, id: u64) -> (r: TrackedValue)
        ensures
            r == (TrackedValue {
                id,
                value,
                reads: 0,
                checks: 0,
                writes: 0,
                deltas: 0,
                creates: 0,
                is_new: false,
                tombstone: false,
            }),
    {
        TrackedValue {
            id,
            value,
            reads: 0,
            checks: 0,
            writes: 0,
            deltas: 0,
            creates: 0,
            is_new: false,
            tombstone: false,
        }
    }

    /// A copy of the record.
    pub fn owned_clone(&self) -> (r: TrackedValue)
        ensures
            same_history(r, *self),
            r.value@ == self.value@,
            self.wf() ==> r.wf(),
    {
        TrackedValue {
            id: self.id,
            value: self.value.clone(),
            reads: self.reads,
            checks: self.checks,
            writes: self.writes,
            deltas: self.deltas,
            creates: self.creates,
            is_new: self.is_new,
            tombstone: self.tombstone,
        }
    }

    /// The same record, owned.
    pub fn into_owned(self) -> (r: TrackedValue)
        ensures
            r == self,
    {
        self
    }

    /// The value, without counting a read.
    pub fn value(&self) -> (r: &Value)
        ensures
            *r == self.value,
    {
        &self.value
    }

    /// Stores `value` where there is none, or revives a deleted value. An
    /// absent `value` is refused with nothing changed; a live value is not
    /// replaced, but the attempt counts as a write.
    pub fn set(&mut self, value: Value) -> (r: Result<(), StoreError>)
        ensures
            value is Absent ==> r == Err::<(), StoreError>(StoreError::SetNoneToValue)
                && *final(self) == *old(self),
            !(value is Absent) ==> final(self)@ == old(self)@.after_set(value@),
            !(value is Absent) ==> (r is Ok <==> !old(self).live()),
            !(value is Absent) && old(self).live() ==> {
                &&& r == Err::<(), StoreError>(StoreError::ValueCannotBeRecreated)
                &&& *final(self) == (TrackedValue { writes: next_count(old(self).writes), ..*old(self) })
            },
            !(value is Absent) && !old(self).live() && old(self).tombstone ==> {
                &&& r is Ok
                &&& *final(self) == (TrackedValue {
                    value,
                    tombstone: false,
                    writes: next_count(old(self).writes),
                    ..*old(self)
                })
            },
            !(value is Absent) && !old(self).live() && !old(self).tombstone ==> {
                &&& r is Ok
                &&& *final(self) == (TrackedValue {
                    value,
                    is_new: true,
                    creates: next_count(old(self).creates),
                    ..*old(self)
                })
            },
    {
        if let Value::Absent = value {
            return Err(StoreError::SetNoneToValue);
        }
        if self.is_live() {
            self.writes = bump(self.writes);
            return Err(StoreError::ValueCannotBeRecreated);
        }
        self.value = value;
        if self.tombstone {
            self.tombstone = false;
            self.writes = bump(self.writes);
            return Ok(());
        }
        self.is_new = true;
        self.creates = bump(self.creates);
        Ok(())
    }

    /// Deletes a live value behind a tombstone, keeping it; counts a write
    /// either way.
    pub fn delete(&mut self) -> (r: Result<(), StoreError>)
        ensures
            old(self).live() ==> r is Ok && *final(self) == (TrackedValue {
                tombstone: true,
                writes: next_count(old(self).writes),
                ..*old(self)
            }),
            !old(self).live() ==> r == Err::<(), StoreError>(StoreError::DeleteNonexistingEntry)
                && *final(self) == (TrackedValue { writes: next_count(old(self).writes), ..*old(self) }),
            final(self)@ == old(self)@.after_delete(),
    {
        self.writes = bump(self.writes);
        if !self.is_live() {
            return Err(StoreError::DeleteNonexistingEntry);
        }
        self.tombstone = true;
        Ok(())
    }

    /// The value if it is live; counts a read either way.
    pub fn get(&mut self) -> (r: Option<&Value>)
        ensures
            *final(self) == (TrackedValue { reads: next_count(old(self).reads), ..*old(self) }),
            final(self)@ == old(self)@.after_get(),
            old(self).live() ==> r == Some(&old(self).value),
            !old(self).live() ==> r is None,
    {
        self.reads = bump(self.reads);
        if self.is_live() {
            Some(&self.value)
        } else {
            None
        }
    }

    /// Counts an existence check.
    pub fn check(&mut self)
        ensures
            *final(self) == (TrackedValue { checks: next_count(old(self).checks), ..*old(self) }),
            final(self)@ == old(self)@.after_check(),
    {
        self.checks = bump(self.checks);
    }

    /// Adds `delta` to a live value, counting the delta; a missing or deleted
    /// value takes none.
    pub fn add_delta(&mut self, delta: Delta) -> (r: Result<(), StateError>)
        requires
            old(self).wf(),
        ensures
            final(self).wf(),
            !old(self).live() ==> r == Err::<(), StateError>(
                StateError::CannotAddDeltaToMissingValue,
            ) && *final(self) == *old(self),
            old(self).live() ==> {
                &&& same_history(
                    *final(self),
                    TrackedValue { deltas: next_count(old(self).deltas), ..*old(self) },
                )
                &&& value_add_outcome(old(self).value@, delta@, r, final(self).value@)
            },
    {
        if !self.is_live() {
            return Err(StateError::CannotAddDeltaToMissingValue);
        }
        self.deltas = bump(self.deltas);
        self.value.add_delta(&delta)
    }

    /// Commits the pending delta of the value, counting a write.
    pub fn apply_delta(&mut self) -> (r: Option<&Value>)
        requires
            old(self).wf(),
        ensures
            final(self).wf(),
            same_history(*final(self), TrackedValue { writes: next_count(old(self).writes), ..*old(self) }),
            value_applied(old(self).value@, final(self).value@),
            r == Some(&final(self).value),
    {
        self.writes = bump(self.writes);
        self.value.apply_delta();
        Some(&self.value)
    }

    pub fn has_delta(&self) -> (r: bool)
        ensures
            r == (self.deltas > 0),
    {
        self.deltas > 0
    }

    /// Neither written, given a delta, created nor deleted.
    pub fn is_read_only(&self) -> (r: bool)
        ensures
            r == (self.writes == 0 && self.deltas == 0 && self.creates == 0 && !self.tombstone),
    {
        self.writes == 0 && self.deltas == 0 && self.creates == 0 && !self.tombstone
    }

    /// Created by this execution and then deleted.
    pub fn is_creation_cancelled(&self) -> (r: bool)
        ensures
            r == (self.is_new && self.tombstone),
    {
        self.is_new() && self.is_tombstone()
    }

    pub fn is_live(&self) -> (r: bool)
        ensures
            r == self.live(),
    {
        !self.is_tombstone() && !self.is_none()
    }

    pub fn is_tombstone(&self) -> (r: bool)
        ensures
            r == self.tombstone,
    {
        self.tombstone
    }

    pub fn is_none(&self) -> (r: bool)
        ensures
            r == (self.value is Absent),
    {
        match self.value {
            Value::Absent => true,
            _ => false,
        }
    }

    pub fn is_new(&self) -> (r: bool)
        ensures
            r == self.is_new,
    {
        self.is_new
    }
}

/// A record stays read-only through reads and existence checks; a delete,
/// or setting a present value, makes it a mutation (short of a counter
/// wrapping around).
pub proof fn lemma_read_only_until_mutated(t: TrackedView, v: ValueModel)
    requires
        t.read_only(),
        !(v is Absent),
    ensures
        t.after_get().read_only(),
        t.after_check().read_only(),
        !t.after_delete().read_only(),
        !t.after_set(v).read_only(),
{
}

/// A value created by the execution and then deleted again leaves no
/// change behind.
pub proof fn lemma_create_then_delete(t: TrackedView, v: ValueModel)
    requires
        !t.live(),
        !t.tombstone,
        !(v is Absent),
    ensures
        t.after_set(v).live(),
        t.after_set(v).value == v,
        !t.after_set(v).after_delete().live(),
        !t.after_set(v).after_delete().dirty(),
{
}

} // verus!
