use vstd::prelude::*;

use crate::crdt::crdt::{CacheableCrdt, Crdt};
use crate::crdt::state::delta::DeltaOp;
use crate::crdt::state::error::{
    NumericError, NumericFault, StateError, decimal, describe_u64, limits_fault, limits_text,
    overflow_text, underflow_text,
};

verus! {

/// An unsigned 64-bit counter: a committed `value`, an optional pending
/// `delta` (a net addition or subtraction), and `(lower, upper)` limits.
#[derive(Debug, PartialEq)]
pub struct U64 {
    pub value: u64,
    pub delta: Option<DeltaOp<u64>>,
    pub limits: (u64, u64),
}

/// The value `value` moved by `delta`.
pub open spec fn moved(value: int, delta: Option<DeltaOp<u64>>) -> int {
    match delta {
        None => value,
        Some(DeltaOp::Add(d)) => value + d,
        Some(DeltaOp::Sub(d)) => value - d,
    }
}

/// The amount of a pending delta, zero when there is none.
pub open spec fn pending_amount(delta: Option<DeltaOp<u64>>) -> u64 {
    match delta {
        None => 0,
        Some(DeltaOp::Add(d)) => d,
        Some(DeltaOp::Sub(d)) => d,
    }
}

/// The amount of a delta.
pub open spec fn amount(op: DeltaOp<u64>) -> u64 {
    match op {
        DeltaOp::Add(d) => d,
        DeltaOp::Sub(d) => d,
    }
}

/// The message of a failed limit check of `value` against `[lower, upper]`.
pub open spec fn limits_message_u64(f: NumericFault, lower: u64, upper: u64, value: int) -> Seq<char> {
    limits_text(f, decimal(value as nat), decimal(lower as nat), decimal(upper as nat))
}

/// The net delta that takes `value` to `target`: a subtraction when the target
/// is smaller, an addition otherwise.
pub open spec fn net_delta(value: int, target: int) -> DeltaOp<u64> {
    if target < value {
        DeltaOp::Sub((value - target) as u64)
    } else {
        DeltaOp::Add((target - value) as u64)
    }
}

impl U64 {
    /// The value that the counter will hold once the pending delta is applied.
    pub open spec fn pending_value(self) -> int {
        moved(self.value as int, self.delta)
    }

    /// The value that `add_delta(op)` aims for.
    pub open spec fn projected(self, op: DeltaOp<u64>) -> int {
        moved(self.pending_value(), Some(op))
    }

    /// Which check, if any, `add_delta(op)` fails.
    pub open spec fn add_fault(self, op: DeltaOp<u64>) -> Option<NumericFault> {
        let projected = self.projected(op);
        if projected > u64::MAX {
            Some(NumericFault::Overflow)
        } else if projected < 0 {
            Some(NumericFault::Underflow)
        } else {
            limits_fault(self.limits.0 as int, self.limits.1 as int, projected)
        }
    }

    /// The message of the error that `add_delta(op)` reports, when it fails.
    pub open spec fn add_message(self, op: DeltaOp<u64>) -> Seq<char> {
        let projected = self.projected(op);
        let value = decimal(self.value as nat);
        let pending = decimal(pending_amount(self.delta) as nat);
        let incoming = decimal(amount(op) as nat);
        match self.add_fault(op) {
            Some(NumericFault::Overflow) => overflow_text(value, pending, incoming),
            Some(NumericFault::Underflow) => underflow_text(value, pending, incoming),
            Some(f) => limits_message_u64(f, self.limits.0, self.limits.1, projected),
            None => Seq::empty(),
        }
    }

    /// A counter starting at zero with the given limits, which must hold zero.
    pub fn new(lower: u64, upper: u64) -> (r: Result<U64, StateError>)
        ensures
            match limits_fault(lower as int, upper as int, 0) {
                None => r == Ok::<U64, StateError>(U64 { value: 0, delta: None, limits: (lower, upper) }),
                Some(f) => r matches Err(StateError::U64(e)) && e.fault() == f
                    && e.message() == limits_message_u64(f, lower, upper, 0),
            },
    {
        Self::check_against_limits(lower, upper, 0)?;
        Ok(U64 { value: 0, delta: None, limits: (lower, upper) })
    }

    fn check_against_limits(lower: u64, upper: u64, value: u64) -> (r: Result<(), StateError>)
        ensures
            match limits_fault(lower as int, upper as int, value as int) {
                None => r is Ok,
                Some(f) => r matches Err(StateError::U64(e)) && e.fault() == f
                    && e.message() == limits_message_u64(f, lower, upper, value as int),
            },
    {
        if lower > upper {
            return Err(StateError::U64(NumericError::invalid_limits_u64(lower, upper)));
        }
        if value < lower {
            return Err(
                StateError::U64(
                    NumericError::below_lower_limit(
                        describe_u64(value),
                        describe_u64(lower),
                        describe_u64(upper),
                    ),
                ),
            );
        }
        if value > upper {
            return Err(
                StateError::U64(
                    NumericError::above_upper_limit(
                        describe_u64(value),
                        describe_u64(lower),
                        describe_u64(upper),
                    ),
                ),
            );
        }
        Ok(())
    }

    /// The net delta that `add_delta(operation)` would leave pending, or the
    /// error it would report; `self` is not changed.
    fn try_delta(&self, operation: &DeltaOp<u64>) -> (r: Result<DeltaOp<u64>, StateError>)
        requires
            self.crdt_wf(),
        ensures
            match self.add_fault(*operation) {
                None => r == Ok::<DeltaOp<u64>, StateError>(
                    net_delta(self.value as int, self.projected(*operation)),
                ),
                Some(f) => r matches Err(StateError::U64(e)) && e.fault() == f
                    && e.message() == self.add_message(*operation),
            },
    {
        let pending = match &self.delta {
            Some(DeltaOp::Add(value)) => *value,
            Some(DeltaOp::Sub(value)) => *value,
            None => 0,
        };
        let current = match &self.delta {
            Some(DeltaOp::Add(value)) => self.value + *value,
            Some(DeltaOp::Sub(value)) => self.value - *value,
            None => self.value,
        };
        let projected = match operation {
            DeltaOp::Add(delta) => match current.checked_add(*delta) {
                Some(p) => p,
                None => {
                    return Err(
                        StateError::U64(
                            NumericError::overflow(
                                describe_u64(self.value),
                                describe_u64(pending),
                                describe_u64(*delta),
                            ),
                        ),
                    );
                },
            },
            DeltaOp::Sub(delta) => match current.checked_sub(*delta) {
                Some(p) => p,
                None => {
                    return Err(
                        StateError::U64(
                            NumericError::underflow(
                                describe_u64(self.value),
                                describe_u64(pending),
                                describe_u64(*delta),
                            ),
                        ),
                    );
                },
            },
        };
        Self::check_against_limits(self.limits.0, self.limits.1, projected)?;
        Ok(
            if projected < self.value {
                DeltaOp::Sub(self.value - projected)
            } else {
                DeltaOp::Add(projected - self.value)
            },
        )
    }

    fn update_delta(&mut self, operation: DeltaOp<u64>) -> (r: Result<&DeltaOp<u64>, StateError>)
        requires
            old(self).crdt_wf(),
        ensures
            match old(self).add_fault(operation) {
                None => {
                    &&& final(self).delta == Some(
                        net_delta(old(self).value as int, old(self).projected(operation)),
                    )
                    &&& r matches Ok(p) && final(self).delta == Some(*p)
                    &&& final(self).value == old(self).value
                    &&& final(self).limits == old(self).limits
                },
                Some(f) => {
                    &&& r matches Err(StateError::U64(e)) && e.fault() == f
                        && e.message() == old(self).add_message(operation)
                    &&& *final(self) == *old(self)
                },
            },
    {
        let next = self.try_delta(&operation)?;
        self.delta = Some(next);
        match &self.delta {
            Some(op) => Ok(op),
            None => Err(StateError::NoValue),
        }
    }
}

impl Clone for U64 {
    fn clone(&self) -> (r: U64)
        ensures
            r == *self,
    {
        U64 { value: self.value, delta: self.delta, limits: self.limits }
    }
}

impl Default for U64 {
    fn default() -> (r: U64)
        ensures
            r == (U64 { value: 0, delta: None, limits: (0, u64::MAX) }),
    {
        U64 { value: 0, delta: None, limits: (0, u64::MAX) }
    }
}

impl Crdt<u64, DeltaOp<u64>> for U64 {
    type Error = StateError;

    /// The pending value fits in a `u64`.
    open spec fn crdt_wf(&self) -> bool {
        0 <= self.pending_value() <= u64::MAX
    }

    open spec fn accepts_deltas(&self) -> bool {
        self.crdt_wf()
    }

    fn value(&self) -> (r: Option<&u64>)
        ensures
            r == Some(&self.value),
    {
        Some(&self.value)
    }

    fn delta(&self) -> (r: Option<&DeltaOp<u64>>)
        ensures
            r matches Some(d) ==> self.delta == Some(*d),
            r is None <==> self.delta is None,
    {
        match &self.delta {
            Some(d) => Some(d),
            None => None,
        }
    }

    /// Moves the pending value by `delta`: on success the pending delta
    /// becomes the net change from the committed value to the projected value;
    /// on failure (overflow, underflow, limits) nothing changes.
    fn add_delta(&mut self, delta: &DeltaOp<u64>) -> (r: Result<&DeltaOp<u64>, StateError>)
        ensures
            match old(self).add_fault(*delta) {
                None => {
                    &&& final(self).delta == Some(
                        net_delta(old(self).value as int, old(self).projected(*delta)),
                    )
                    &&& r matches Ok(p) && final(self).delta == Some(*p)
                    &&& final(self).value == old(self).value
                    &&& final(self).limits == old(self).limits
                },
                Some(f) => {
                    &&& r matches Err(StateError::U64(e)) && e.fault() == f
                        && e.message() == old(self).add_message(*delta)
                    &&& *final(self) == *old(self)
                },
            },
    {
        self.update_delta(*delta)
    }

    /// Moves the committed value to the pending value and clears the delta.
    fn apply_delta(&mut self) -> (r: &U64)
        ensures
            final(self).value == old(self).pending_value(),
            final(self).delta is None,
            final(self).limits == old(self).limits,
            *r == *final(self),
    {
        match self.delta {
            Some(DeltaOp::Add(d)) => {
                self.value = self.value + d;
            },
            Some(DeltaOp::Sub(d)) => {
                self.value = self.value - d;
            },
            None => {},
        }
        self.delta = None;
        self
    }

    fn limits(&self) -> (r: Option<(&u64, &u64)>)
        ensures
            r == Some((&self.limits.0, &self.limits.1)),
    {
        Some((&self.limits.0, &self.limits.1))
    }

    fn is_numeric(&self) -> (r: bool)
        ensures
            r,
    {
        true
    }

    fn is_commutative(&self) -> (r: bool)
        ensures
            r,
    {
        true
    }
}

impl CacheableCrdt<u64, DeltaOp<u64>> for U64 {
    fn cache_weight(&self) -> (r: usize)
        ensures
            r == vstd::layout::size_of::<U64>(),
    {
        core::mem::size_of::<U64>()
    }
}

/// Deltas commute: when `a` then `b`, and `b` then `a`, are both accepted
/// (each step as `add_delta` leaves the counter on success), the two orders
/// leave the same counter, whose pending value has moved by both operations.
pub proof fn lemma_deltas_commute(
    x: U64,
    a: DeltaOp<u64>,
    b: DeltaOp<u64>,
    xa: U64,
    xab: U64,
    xb: U64,
    xba: U64,
)
    requires
        x.add_fault(a) is None,
        xa == (U64 { delta: Some(net_delta(x.value as int, x.projected(a))), ..x }),
        xa.add_fault(b) is None,
        xab == (U64 { delta: Some(net_delta(xa.value as int, xa.projected(b))), ..xa }),
        x.add_fault(b) is None,
        xb == (U64 { delta: Some(net_delta(x.value as int, x.projected(b))), ..x }),
        xb.add_fault(a) is None,
        xba == (U64 { delta: Some(net_delta(xb.value as int, xb.projected(a))), ..xb }),
    ensures
        xab == xba,
        xab.pending_value() == moved(moved(x.pending_value(), Some(a)), Some(b)),
{
}

} // verus!
