use vstd::prelude::*;

use crate::collections::delta_set::{DeltaSet, DeltaSetView};
use crate::crdt::crdt::Crdt;
use crate::crdt::state::delta::DeltaOp;
use crate::crdt::state::error::StateError;

verus! {

/// A replicated set of `u64` keys whose pending delta is a list of distinct
/// insertions (`Add`) and removals (`Sub`).
#[derive(Debug, PartialEq)]
pub struct U64Set {
    pub entries: DeltaSet,
    pub delta: Option<Vec<DeltaOp<u64>>>,
}

/// `ops` appended to `pending`, each skipped if an equal operation is already
/// there.
pub open spec fn append_unique<T>(pending: Seq<T>, ops: Seq<T>) -> Seq<T>
    decreases ops.len(),
{
    if ops.len() == 0 {
        pending
    } else {
        let front = append_unique(pending, ops.drop_last());
        if front.contains(ops.last()) {
            front
        } else {
            front.push(ops.last())
        }
    }
}

/// The operands of the insertions in `ops`, in order.
pub open spec fn added_keys(ops: Seq<DeltaOp<u64>>) -> Seq<u64>
    decreases ops.len(),
{
    if ops.len() == 0 {
        Seq::empty()
    } else {
        match ops.last() {
            DeltaOp::Add(k) => added_keys(ops.drop_last()).push(k),
            DeltaOp::Sub(_) => added_keys(ops.drop_last()),
        }
    }
}

/// The operands of the removals in `ops`, in order.
pub open spec fn removed_keys(ops: Seq<DeltaOp<u64>>) -> Seq<u64>
    decreases ops.len(),
{
    if ops.len() == 0 {
        Seq::empty()
    } else {
        match ops.last() {
            DeltaOp::Sub(k) => removed_keys(ops.drop_last()).push(k),
            DeltaOp::Add(_) => removed_keys(ops.drop_last()),
        }
    }
}

/// The state of a set after applying `pending` and committing.
pub open spec fn applied_and_committed(v: DeltaSetView, pending: Seq<DeltaOp<u64>>) -> DeltaSetView {
    let w = v.applied(removed_keys(pending), added_keys(pending));
    DeltaSetView { slots: w.slots, index: w.index, committed: w.index }
}

/// Whether two operations are equal.
fn same_op(a: &DeltaOp<u64>, b: &DeltaOp<u64>) -> (r: bool)
    ensures
        r == (*a == *b),
{
    match (a, b) {
        (DeltaOp::Add(x), DeltaOp::Add(y)) => *x == *y,
        (DeltaOp::Sub(x), DeltaOp::Sub(y)) => *x == *y,
        _ => false,
    }
}

/// Whether `ops` holds an operation equal to `op`.
fn contains_op(ops: &Vec<DeltaOp<u64>>, op: &DeltaOp<u64>) -> (r: bool)
    ensures
        r == ops@.contains(*op),
{
    let mut i: usize = 0;
    while i < ops.len()
        invariant
            i <= ops.len(),
            forall|j: int| 0 <= j < i ==> ops@[j] != *op,
        decreases ops.len() - i,
    {
        if same_op(&ops[i], op) {
            return true;
        }
        i = i + 1;
    }
    false
}

/// Appends to `pending` each operation of `ops` that it does not hold yet.
pub(crate) fn push_unique_ops(pending: &mut Vec<DeltaOp<u64>>, ops: &[DeltaOp<u64>])
    ensures
        final(pending)@ == append_unique(old(pending)@, ops@),
{
    let ghost start = pending@;
    let mut i: usize = 0;
    while i < ops.len()
        invariant
            i <= ops.len(),
            pending@ == append_unique(start, ops@.take(i as int)),
        decreases ops.len() - i,
    {
        assert(ops@.take(i + 1).drop_last() =~= ops@.take(i as int));
        if !contains_op(pending, &ops[i]) {
            pending.push(ops[i]);
        }
        i = i + 1;
    }
    assert(ops@.take(ops.len() as int) =~= ops@);
}

/// Splits `ops` into the keys it inserts and the keys it removes, each in
/// order.
pub(crate) fn split_ops(ops: &[DeltaOp<u64>]) -> (r: (Vec<u64>, Vec<u64>))
    ensures
        r.0@ == added_keys(ops@),
        r.1@ == removed_keys(ops@),
{
    let mut added: Vec<u64> = Vec::new();
    let mut removed: Vec<u64> = Vec::new();
    let mut i: usize = 0;
    while i < ops.len()
        invariant
            i <= ops.len(),
            added@ == added_keys(ops@.take(i as int)),
            removed@ == removed_keys(ops@.take(i as int)),
        decreases ops.len() - i,
    {
        assert(ops@.take(i + 1).drop_last() =~= ops@.take(i as int));
        match ops[i] {
            DeltaOp::Add(k) => added.push(k),
            DeltaOp::Sub(k) => removed.push(k),
        }
        i = i + 1;
    }
    assert(ops@.take(ops.len() as int) =~= ops@);
    (added, removed)
}

/// A copy of `ops`.
pub(crate) fn copy_ops(ops: &[DeltaOp<u64>]) -> (r: Vec<DeltaOp<u64>>)
    ensures
        r@ == ops@,
{
    let mut r: Vec<DeltaOp<u64>> = Vec::new();
    let mut i: usize = 0;
    while i < ops.len()
        invariant
            i <= ops.len(),
            r@ == ops@.take(i as int),
        decreases ops.len() - i,
    {
        r.push(ops[i]);
        i = i + 1;
        assert(r@ == ops@.take(i as int));
    }
    assert(ops@.take(ops.len() as int) =~= ops@);
    r
}

impl U64Set {
    /// An empty set with no pending delta.
    pub fn new() -> (r: Result<U64Set, StateError>)
        ensures
            r matches Ok(s) && s.crdt_wf() && s.entries@.slots.len() == 0 && s.entries@.live()
                == Set::<u64>::empty() && s.delta is None,
    {
        Ok(U64Set::default())
    }
}

impl Default for U64Set {
    fn default() -> (r: U64Set)
        ensures
            r.crdt_wf(),
            r.entries@.slots == Seq::<Option<u64>>::empty(),
            r.entries@.index == Map::<u64, u64>::empty(),
            r.entries@.committed == Map::<u64, u64>::empty(),
            r.delta is None,
    {
        U64Set { entries: DeltaSet::new(16), delta: None }
    }
}

impl Clone for U64Set {
    fn clone(&self) -> (r: U64Set)
        ensures
            r.entries@ == self.entries@,
            r.delta is Some <==> self.delta is Some,
            r.delta matches Some(d) ==> d@ == self.delta->0@,
    {
        let delta = match &self.delta {
            Some(d) => Some(copy_ops(d.as_slice())),
            None => None,
        };
        U64Set { entries: self.entries.clone(), delta }
    }
}

impl Crdt<DeltaSet, [DeltaOp<u64>]> for U64Set {
    type Error = StateError;

    open spec fn crdt_wf(&self) -> bool {
        self.entries.wf()
    }

    open spec fn accepts_deltas(&self) -> bool {
        self.crdt_wf()
    }

    /// The committed entries; always present.
    fn value(&self) -> (r: Option<&DeltaSet>)
        ensures
            r == Some(&self.entries),
    {
        Some(&self.entries)
    }

    fn delta(&self) -> (r: Option<&[DeltaOp<u64>]>)
        ensures
            r is Some <==> self.delta is Some,
            r matches Some(s) ==> s@ == self.delta->0@,
    {
        match &self.delta {
            Some(d) => Some(d.as_slice()),
            None => None,
        }
    }

    /// Appends to the pending operations each operation of `delta` that they
    /// do not hold yet, starting from none; never fails.
    fn add_delta(&mut self, delta: &[DeltaOp<u64>]) -> (r: Result<&[DeltaOp<u64>], StateError>)
        ensures
            final(self).entries == old(self).entries,
            final(self).delta matches Some(d) && d@ == append_unique(
                match old(self).delta {
                    Some(p) => p@,
                    None => Seq::<DeltaOp<u64>>::empty(),
                },
                delta@,
            ),
            r matches Ok(s) && s@ == final(self).delta->0@,
    {
        let mut pending = match self.delta.take() {
            Some(p) => p,
            None => Vec::new(),
        };
        push_unique_ops(&mut pending, delta);
        self.delta = Some(pending);
        match &self.delta {
            Some(p) => Ok(p.as_slice()),
            None => Err(StateError::NoValue),
        }
    }

    /// Removes the keys of the pending removals, inserts the keys of the
    /// pending insertions, commits, and clears the pending delta.
    fn apply_delta(&mut self) -> (r: &U64Set)
        ensures
            final(self).delta is None,
            old(self).delta matches Some(d) ==> final(self).entries@ == applied_and_committed(
                old(self).entries@,
                d@,
            ),
            old(self).delta is None ==> final(self).entries@ == old(self).entries@,
            *r == *final(self),
    {
        if let Some(pending) = self.delta.take() {
            let (added, removed) = split_ops(pending.as_slice());
            self.entries.apply_delta(removed.as_slice(), added.as_slice());
            self.entries.commit();
        }
        self
    }

    fn limits(&self) -> (r: Option<(&DeltaSet, &DeltaSet)>)
        ensures
            r is None,
    {
        None
    }

    fn is_numeric(&self) -> (r: bool)
        ensures
            !r,
    {
        false
    }

    fn is_commutative(&self) -> (r: bool)
        ensures
            r,
    {
        true
    }
}

} // verus!
