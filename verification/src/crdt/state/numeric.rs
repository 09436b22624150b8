use vstd::prelude::*;

use crate::crdt::crdt::Crdt;
use crate::crdt::state::delta::{Delta, DeltaModel, DeltaOp};
use crate::crdt::state::error::StateError;
use crate::crdt::types::int64::I64;
use crate::crdt::types::u256::{U256, is_net_delta};
use crate::crdt::types::uint64::{U64, net_delta};

verus! {

/// A numeric value of one of the three counter types.
#[derive(Debug, PartialEq)]
pub enum Numeric {
    I64(I64),
    U64(U64),
    U256(U256),
}

/// The pending delta of a numeric value (`Absent` when there is none).
pub open spec fn numeric_delta(n: Numeric) -> DeltaModel {
    match n {
        Numeric::I64(v) => DeltaModel::I64(v.delta),
        Numeric::U64(v) => match v.delta {
            Some(op) => DeltaModel::U64(op),
            None => DeltaModel::Absent,
        },
        Numeric::U256(v) => match v.delta {
            Some(op) => DeltaModel::U256(op),
            None => DeltaModel::Absent,
        },
    }
}

/// What `add_delta(delta)` does to a numeric value `n`: `Ok` with the new
/// value, or the error it reports (the value then stays as it was).
pub open spec fn numeric_add_outcome(n: Numeric, delta: DeltaModel, r: Result<(), StateError>, after: Numeric) -> bool {
    match (n, delta) {
        (_, DeltaModel::Absent) => r is Ok && after == n,
        (Numeric::I64(v), DeltaModel::I64(d)) => match v.add_fault(d) {
            None => r is Ok && after == Numeric::I64(
                I64 { value: v.value, delta: (v.delta + d) as i64, limits: v.limits },
            ),
            Some(f) => (r matches Err(StateError::I64(e)) && e.fault() == f && e.message() == v.add_message(d))
                && after == n,
        },
        (Numeric::U64(v), DeltaModel::U64(op)) => match v.add_fault(op) {
            None => r is Ok && after == Numeric::U64(
                U64 {
                    value: v.value,
                    delta: Some(net_delta(v.value as int, v.projected(op))),
                    limits: v.limits,
                },
            ),
            Some(f) => (r matches Err(StateError::U64(e)) && e.fault() == f && e.message() == v.add_message(op))
                && after == n,
        },
        (Numeric::U256(v), DeltaModel::U256(op)) => match v.add_fault(op) {
            None => r is Ok && (after matches Numeric::U256(w) && w.value == v.value && w.limits
                == v.limits && (w.delta matches Some(net) && is_net_delta(
                net,
                v.value.value() as int,
                v.projected(op),
            ))),
            Some(f) => (r matches Err(StateError::U256(e)) && e.fault() == f && e.message() == v.add_message(op))
                && after == n,
        },
        _ => r == Err::<(), StateError>(StateError::TypeMismatch) && after == n,
    }
}

/// The value that a numeric value will hold once its delta is applied.
pub open spec fn numeric_pending(n: Numeric) -> int {
    match n {
        Numeric::I64(v) => v.pending_value(),
        Numeric::U64(v) => v.pending_value(),
        Numeric::U256(v) => v.pending_value(),
    }
}

/// The limits and the kind of a numeric value: what stays fixed under
/// `add_delta` and `apply_delta`.
pub open spec fn same_kind_and_limits(a: Numeric, b: Numeric) -> bool {
    match (a, b) {
        (Numeric::I64(x), Numeric::I64(y)) => x.limits == y.limits,
        (Numeric::U64(x), Numeric::U64(y)) => x.limits == y.limits,
        (Numeric::U256(x), Numeric::U256(y)) => x.limits == y.limits,
        _ => false,
    }
}

/// The state a numeric value reaches when its delta is applied: the pending
/// value committed, no delta left.
pub open spec fn numeric_applied(n: Numeric, after: Numeric) -> bool {
    &&& same_kind_and_limits(n, after)
    &&& match after {
        Numeric::I64(w) => w.value == numeric_pending(n) && w.delta == 0,
        Numeric::U64(w) => w.value == numeric_pending(n) && w.delta is None,
        Numeric::U256(w) => w.value.value() == numeric_pending(n) && w.delta is None,
    }
}

impl Numeric {
    /// The states on which the operations are defined.
    pub open spec fn wf(self) -> bool {
        match self {
            Numeric::I64(v) => v.crdt_wf(),
            Numeric::U64(v) => v.crdt_wf(),
            Numeric::U256(v) => v.crdt_wf(),
        }
    }

    /// The states on which `add_delta` is defined: any signed counter, and
    /// the well-formed unsigned ones.
    pub open spec fn accepts_deltas(self) -> bool {
        match self {
            Numeric::I64(v) => v.accepts_deltas(),
            Numeric::U64(v) => v.accepts_deltas(),
            Numeric::U256(v) => v.accepts_deltas(),
        }
    }

    /// The same value, owned.
    pub fn into_owned(self) -> (r: Numeric)
        ensures
            r == self,
    {
        self
    }

    /// An owned copy of `value`.
    pub fn from_borrowed(value: &Numeric) -> (r: Numeric)
        ensures
            r == *value,
    {
        value.clone()
    }

    /// The pending delta, `Delta::Absent` when there is none.
    pub fn delta(&self) -> (r: Delta)
        ensures
            r@ == numeric_delta(*self),
    {
        match self {
            Numeric::I64(v) => Delta::I64(v.delta),
            Numeric::U64(v) => match v.delta {
                Some(op) => Delta::U64(op),
                None => Delta::Absent,
            },
            Numeric::U256(v) => match v.delta {
                Some(op) => Delta::U256(op),
                None => Delta::Absent,
            },
        }
    }

    /// Adds a delta of the value's own kind; `Delta::Absent` changes nothing,
    /// and a delta of another kind is a type mismatch.
    pub fn add_delta(&mut self, delta: &Delta) -> (r: Result<(), StateError>)
        requires
            old(self).accepts_deltas(),
        ensures
            old(self).wf() ==> final(self).wf(),
            numeric_add_outcome(*old(self), delta@, r, *final(self)),
    {
        if let Delta::Absent = delta {
            return Ok(());
        }
        match self {
            Numeric::I64(v) => match delta {
                Delta::I64(d) => match v.add_delta(d) {
                    Ok(_) => Ok(()),
                    Err(e) => Err(e),
                },
                _ => Err(StateError::TypeMismatch),
            },
            Numeric::U64(v) => match delta {
                Delta::U64(op) => match v.add_delta(op) {
                    Ok(_) => Ok(()),
                    Err(e) => Err(e),
                },
                _ => Err(StateError::TypeMismatch),
            },
            Numeric::U256(v) => match delta {
                Delta::U256(op) => match v.add_delta(op) {
                    Ok(_) => Ok(()),
                    Err(e) => Err(e),
                },
                _ => Err(StateError::TypeMismatch),
            },
        }
    }

    /// Commits the pending delta.
    pub fn apply_delta(&mut self) -> (r: &Numeric)
        requires
            old(self).wf(),
        ensures
            final(self).wf(),
            numeric_applied(*old(self), *final(self)),
            *r == *final(self),
    {
        match self {
            Numeric::I64(v) => {
                v.apply_delta();
            },
            Numeric::U64(v) => {
                v.apply_delta();
            },
            Numeric::U256(v) => {
                v.apply_delta();
            },
        }
        self
    }
}

impl Clone for Numeric {
    fn clone(&self) -> (r: Numeric)
        ensures
            r == *self,
    {
        match self {
            Numeric::I64(v) => Numeric::I64(v.clone()),
            Numeric::U64(v) => Numeric::U64(v.clone()),
            Numeric::U256(v) => Numeric::U256(v.clone()),
        }
    }
}

} // verus!
