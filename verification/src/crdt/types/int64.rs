use vstd::prelude::*;

use crate::crdt::crdt::{CacheableCrdt, Crdt};
use crate::crdt::state::error::{
    NumericError, NumericFault, StateError, describe_i64, limits_fault, limits_text, overflow_text,
    signed_decimal, underflow_text,
};

verus! {

/// A signed 64-bit counter: a committed `value`, a pending `delta`, and the
/// `(lower, upper)` limits that the value plus the delta must respect.
#[derive(Debug, PartialEq)]
pub struct I64 {
    pub value: i64,
    pub delta: i64,
    pub limits: (i64, i64),
}

/// The message of a failed limit check of `value` against `[lower, upper]`.
pub open spec fn limits_message_i64(f: NumericFault, lower: i64, upper: i64, value: int) -> Seq<char> {
    limits_text(f, signed_decimal(value), signed_decimal(lower as int), signed_decimal(upper as int))
}

impl I64 {
    /// The value that the counter will hold once the pending delta is applied.
    pub open spec fn pending_value(self) -> int {
        self.value + self.delta
    }

    /// Which check, if any, `add_delta(d)` fails.
    pub open spec fn add_fault(self, d: i64) -> Option<NumericFault> {
        let accumulated = self.delta + d;
        let projected = self.value + accumulated;
        if accumulated < i64::MIN {
            Some(NumericFault::Underflow)
        } else if accumulated > i64::MAX {
            Some(NumericFault::Overflow)
        } else if projected < i64::MIN {
            Some(NumericFault::Underflow)
        } else if projected > i64::MAX {
            Some(NumericFault::Overflow)
        } else if projected < self.limits.0 {
            Some(NumericFault::BelowLowerLimit)
        } else if projected > self.limits.1 {
            Some(NumericFault::AboveUpperLimit)
        } else {
            None
        }
    }

    /// The message of the error that `add_delta(d)` reports, when it fails.
    pub open spec fn add_message(self, d: i64) -> Seq<char> {
        let value = signed_decimal(self.value as int);
        let pending = signed_decimal(self.delta as int);
        let incoming = signed_decimal(d as int);
        match self.add_fault(d) {
            Some(NumericFault::Overflow) => overflow_text(value, pending, incoming),
            Some(NumericFault::Underflow) => underflow_text(value, pending, incoming),
            Some(f) => limits_message_i64(f, self.limits.0, self.limits.1, self.value + self.delta + d),
            None => Seq::empty(),
        }
    }

    /// A counter starting at zero with the given limits, which must hold zero.
    pub fn new(lower: i64, upper: i64) -> (r: Result<I64, StateError>)
        ensures
            match limits_fault(lower as int, upper as int, 0) {
                None => r == Ok::<I64, StateError>(I64 { value: 0, delta: 0, limits: (lower, upper) }),
                Some(f) => r matches Err(StateError::I64(e)) && e.fault() == f
                    && e.message() == limits_message_i64(f, lower, upper, 0),
            },
    {
        Self::check_limits(lower, upper, 0)?;
        Ok(I64 { value: 0, delta: 0, limits: (lower, upper) })
    }

    fn check_limits(lower: i64, upper: i64, value: i64) -> (r: Result<(), StateError>)
        ensures
            match limits_fault(lower as int, upper as int, value as int) {
                None => r is Ok,
                Some(f) => r matches Err(StateError::I64(e)) && e.fault() == f
                    && e.message() == limits_message_i64(f, lower, upper, value as int),
            },
    {
        if lower > upper {
            Err(StateError::I64(NumericError::invalid_limits_i64(lower, upper)))
        } else if value < lower {
            Err(
                StateError::I64(
                    NumericError::below_lower_limit(
                        describe_i64(value),
                        describe_i64(lower),
                        describe_i64(upper),
                    ),
                ),
            )
        } else if value > upper {
            Err(
                StateError::I64(
                    NumericError::above_upper_limit(
                        describe_i64(value),
                        describe_i64(lower),
                        describe_i64(upper),
                    ),
                ),
            )
        } else {
            Ok(())
        }
    }

    fn arithmetic_error(&self, delta: i64, under: bool) -> (e: StateError)
        ensures
            e matches StateError::I64(n) && n.fault() == if under {
                NumericFault::Underflow
            } else {
                NumericFault::Overflow
            } && n.message() == if under {
                underflow_text(
                    signed_decimal(self.value as int),
                    signed_decimal(self.delta as int),
                    signed_decimal(delta as int),
                )
            } else {
                overflow_text(
                    signed_decimal(self.value as int),
                    signed_decimal(self.delta as int),
                    signed_decimal(delta as int),
                )
            },
    {
        let value = describe_i64(self.value);
        let pending = describe_i64(self.delta);
        let incoming = describe_i64(delta);
        if under {
            StateError::I64(NumericError::underflow(value, pending, incoming))
        } else {
            StateError::I64(NumericError::overflow(value, pending, incoming))
        }
    }
}

impl Clone for I64 {
    fn clone(&self) -> (r: I64)
        ensures
            r == *self,
    {
        I64 { value: self.value, delta: self.delta, limits: self.limits }
    }
}

impl Default for I64 {
    fn default() -> (r: I64)
        ensures
            r == (I64 { value: 0, delta: 0, limits: (i64::MIN, i64::MAX) }),
    {
        I64 { value: 0, delta: 0, limits: (i64::MIN, i64::MAX) }
    }
}

impl Crdt<i64, i64> for I64 {
    type Error = StateError;

    /// The pending value fits in an `i64`, so applying the delta cannot overflow.
    open spec fn crdt_wf(&self) -> bool {
        i64::MIN <= self.pending_value() <= i64::MAX
    }

    /// Every state accepts a delta: the sums are checked.
    open spec fn accepts_deltas(&self) -> bool {
        true
    }

    fn value(&self) -> (r: Option<&i64>)
        ensures
            r == Some(&self.value),
    {
        Some(&self.value)
    }

    fn delta(&self) -> (r: Option<&i64>)
        ensures
            r == Some(&self.delta),
    {
        Some(&self.delta)
    }

    /// Accumulates `delta`; fails, leaving the counter unchanged, when the
    /// accumulated delta or the projected value overflows, or when the
    /// projected value leaves the limits.
    fn add_delta(&mut self, delta: &i64) -> (r: Result<&i64, StateError>)
        ensures
            match old(self).add_fault(*delta) {
                None => {
                    &&& r matches Ok(p) && *p == final(self).delta
                    &&& final(self).delta == old(self).delta + *delta
                    &&& final(self).value == old(self).value
                    &&& final(self).limits == old(self).limits
                },
                Some(f) => {
                    &&& r matches Err(StateError::I64(e)) && e.fault() == f
                        && e.message() == old(self).add_message(*delta)
                    &&& *final(self) == *old(self)
                },
            },
    {
        let incoming = *delta;
        let accumulated = match self.delta.checked_add(incoming) {
            Some(a) => a,
            None => {
                return Err(self.arithmetic_error(incoming, incoming < 0));
            },
        };
        let projected = match self.value.checked_add(accumulated) {
            Some(p) => p,
            None => {
                return Err(self.arithmetic_error(incoming, accumulated < 0));
            },
        };
        let (lower, upper) = self.limits;
        if projected < lower {
            return Err(
                StateError::I64(
                    NumericError::below_lower_limit(
                        describe_i64(projected),
                        describe_i64(lower),
                        describe_i64(upper),
                    ),
                ),
            );
        }
        if projected > upper {
            return Err(
                StateError::I64(
                    NumericError::above_upper_limit(
                        describe_i64(projected),
                        describe_i64(lower),
                        describe_i64(upper),
                    ),
                ),
            );
        }
        self.delta = accumulated;
        Ok(&self.delta)
    }

    /// Adds the pending delta to the value and clears it.
    fn apply_delta(&mut self) -> (r: &I64)
        ensures
            final(self).value == old(self).pending_value(),
            final(self).delta == 0,
            final(self).limits == old(self).limits,
            *r == *final(self),
    {
        self.value = self.value + self.delta;
        self.delta = 0;
        self
    }

    fn limits(&self) -> (r: Option<(&i64, &i64)>)
        ensures
            r == Some((&self.limits.0, &self.limits.1)),
    {
        Some((&self.limits.0, &self.limits.1))
    }

    fn is_numeric(&self) -> (r: bool)
        ensures
            r,
    {
        true
    }

    fn is_commutative(&self) -> (r: bool)
        ensures
            r,
    {
        true
    }
}

impl CacheableCrdt<i64, i64> for I64 {
    fn cache_weight(&self) -> (r: usize)
        ensures
            r == vstd::layout::size_of::<I64>(),
    {
        core::mem::size_of::<I64>()
    }
}

/// Deltas commute: when `a` then `b`, and `b` then `a`, are both accepted
/// (each step as `add_delta` leaves the counter on success), the two orders
/// leave the same counter, whose pending value has moved by `a + b`.
pub proof fn lemma_deltas_commute(x: I64, a: i64, b: i64, xa: I64, xab: I64, xb: I64, xba: I64)
    requires
        x.add_fault(a) is None,
        xa == (I64 { delta: (x.delta + a) as i64, ..x }),
        xa.add_fault(b) is None,
        xab == (I64 { delta: (xa.delta + b) as i64, ..xa }),
        x.add_fault(b) is None,
        xb == (I64 { delta: (x.delta + b) as i64, ..x }),
        xb.add_fault(a) is None,
        xba == (I64 { delta: (xb.delta + a) as i64, ..xb }),
    ensures
        xab == xba,
        xab.pending_value() == x.pending_value() + a + b,
{
}

} // verus!
