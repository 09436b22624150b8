use vstd::prelude::*;

use crate::crdt::crdt::{CacheableCrdt, Crdt};
use crate::crdt::state::delta::DeltaOp;
use crate::crdt::state::error::{
    NumericError, NumericFault, StateError, decimal, limits_fault, limits_text, overflow_text,
    underflow_text,
};
use crate::crdt::types::word::{
    Word256,
    describe_word,
    word_checked_add,
    word_checked_sub,
    word_less,
    word_modulus,
    word_wrapping_add,
    word_wrapping_sub,
    lemma_value_bounds,
};
use vstd::arithmetic::div_mod::lemma_small_mod;

verus! {

/// An unsigned 256-bit counter: a committed `value`, an optional pending
/// `delta` (a net addition or subtraction), and `(lower, upper)` limits.
#[derive(Debug, PartialEq)]
pub struct U256 {
    pub value: Word256,
    pub delta: Option<DeltaOp<Word256>>,
    pub limits: (Word256, Word256),
}

/// `value` moved by `delta`, wrapping modulo 2^256 as the number type's `+`
/// and `-` do.
pub open spec fn moved_word(value: nat, delta: Option<DeltaOp<Word256>>) -> int {
    match delta {
        None => value as int,
        Some(DeltaOp::Add(d)) => (value + d.value()) as int % (word_modulus() as int),
        Some(DeltaOp::Sub(d)) => (value - d.value()) as int % (word_modulus() as int),
    }
}

/// The operation moves `value` to `target`: a subtraction of the difference
/// when the target is smaller, an addition otherwise.
pub open spec fn is_net_delta(op: DeltaOp<Word256>, value: int, target: int) -> bool {
    if target < value {
        op is Sub && op.operand().value() == value - target
    } else {
        op is Add && op.operand().value() == target - value
    }
}

/// The message of a failed limit check of `value` against `[lower, upper]`.
pub open spec fn limits_message_word(
    f: NumericFault,
    lower: Word256,
    upper: Word256,
    value: int,
) -> Seq<char> {
    limits_text(f, decimal(value as nat), decimal(lower.value()), decimal(upper.value()))
}

impl U256 {
    /// The value that the counter will hold once the pending delta is applied.
    pub open spec fn pending_value(self) -> int {
        moved_word(self.value.value(), self.delta)
    }

    /// The value that `add_delta(op)` aims for (not reduced modulo 2^256).
    pub open spec fn projected(self, op: DeltaOp<Word256>) -> int {
        match op {
            DeltaOp::Add(d) => self.pending_value() + d.value(),
            DeltaOp::Sub(d) => self.pending_value() - d.value(),
        }
    }

    /// Which check, if any, `add_delta(op)` fails.
    pub open spec fn add_fault(self, op: DeltaOp<Word256>) -> Option<NumericFault> {
        let projected = self.projected(op);
        if projected >= word_modulus() {
            Some(NumericFault::Overflow)
        } else if projected < 0 {
            Some(NumericFault::Underflow)
        } else {
            limits_fault(self.limits.0.value() as int, self.limits.1.value() as int, projected)
        }
    }

    /// The amount that an overflow or underflow message gives as the pending
    /// delta: that of the pending delta, or the incoming one when none is pending.
    pub open spec fn reported_pending(self, op: DeltaOp<Word256>) -> Word256 {
        match self.delta {
            Some(d) => d.operand(),
            None => op.operand(),
        }
    }

    /// The message of the error that `add_delta(op)` reports, when it fails.
    pub open spec fn add_message(self, op: DeltaOp<Word256>) -> Seq<char> {
        let value = decimal(self.value.value());
        let pending = decimal(self.reported_pending(op).value());
        let incoming = decimal(op.operand().value());
        match self.add_fault(op) {
            Some(NumericFault::Overflow) => overflow_text(value, pending, incoming),
            Some(NumericFault::Underflow) => underflow_text(value, pending, incoming),
            Some(f) => limits_message_word(f, self.limits.0, self.limits.1, self.projected(op)),
            None => Seq::empty(),
        }
    }

    /// A counter starting at zero with the given limits, which must hold zero.
    pub fn new(lower: Word256, upper: Word256) -> (r: Result<U256, StateError>)
        ensures
            match limits_fault(lower.value() as int, upper.value() as int, 0) {
                None => r matches Ok(c) && c.value.value() == 0 && c.delta is None && c.limits == (
                lower, upper),
                Some(f) => r matches Err(StateError::U256(e)) && e.fault() == f
                    && e.message() == limits_message_word(f, lower, upper, 0),
            },
    {
        let zero = Word256::zero();
        Self::check_against_limits(lower, upper, zero)?;
        Ok(U256 { value: zero, delta: None, limits: (lower, upper) })
    }

    fn check_against_limits(lower: Word256, upper: Word256, value: Word256) -> (r: Result<
        (),
        StateError,
    >)
        ensures
            match limits_fault(lower.value() as int, upper.value() as int, value.value() as int) {
                None => r is Ok,
                Some(f) => r matches Err(StateError::U256(e)) && e.fault() == f
                    && e.message() == limits_message_word(f, lower, upper, value.value() as int),
            },
    {
        if word_less(upper, lower) {
            return Err(StateError::U256(NumericError::invalid_limits_word(lower, upper)));
        }
        if word_less(value, lower) {
            return Err(
                StateError::U256(
                    NumericError::below_lower_limit(
                        describe_word(value),
                        describe_word(lower),
                        describe_word(upper),
                    ),
                ),
            );
        }
        if word_less(upper, value) {
            return Err(
                StateError::U256(
                    NumericError::above_upper_limit(
                        describe_word(value),
                        describe_word(lower),
                        describe_word(upper),
                    ),
                ),
            );
        }
        Ok(())
    }

    /// The net delta that `add_delta(operation)` would leave pending, or the
    /// error it would report; `self` is not changed.
    fn try_delta(&self, operation: &DeltaOp<Word256>) -> (r: Result<DeltaOp<Word256>, StateError>)
        ensures
            match self.add_fault(*operation) {
                None => r matches Ok(op) && is_net_delta(
                    op,
                    self.value.value() as int,
                    self.projected(*operation),
                ),
                Some(f) => r matches Err(StateError::U256(e)) && e.fault() == f
                    && e.message() == self.add_message(*operation),
            },
    {
        let current = match &self.delta {
            Some(DeltaOp::Add(delta)) => word_wrapping_add(self.value, *delta),
            Some(DeltaOp::Sub(delta)) => word_wrapping_sub(self.value, *delta),
            None => self.value,
        };
        assert(current.value() == self.pending_value());
        let pending = match &self.delta {
            Some(DeltaOp::Add(delta)) => *delta,
            Some(DeltaOp::Sub(delta)) => *delta,
            None => match operation {
                DeltaOp::Add(delta) => *delta,
                DeltaOp::Sub(delta) => *delta,
            },
        };
        let projected = match operation {
            DeltaOp::Add(delta) => match word_checked_add(current, *delta) {
                Some(p) => p,
                None => {
                    return Err(
                        StateError::U256(
                            NumericError::overflow(
                                describe_word(self.value),
                                describe_word(pending),
                                describe_word(*delta),
                            ),
                        ),
                    );
                },
            },
            DeltaOp::Sub(delta) => match word_checked_sub(current, *delta) {
                Some(p) => p,
                None => {
                    return Err(
                        StateError::U256(
                            NumericError::underflow(
                                describe_word(self.value),
                                describe_word(pending),
                                describe_word(*delta),
                            ),
                        ),
                    );
                },
            },
        };
        Self::check_against_limits(self.limits.0, self.limits.1, projected)?;
        assert(projected.value() == self.projected(*operation));
        if word_less(projected, self.value) {
            let difference = word_wrapping_sub(self.value, projected);
            proof {
                lemma_value_bounds(self.value);
                lemma_small_mod(
                    (self.value.value() - projected.value()) as nat,
                    word_modulus(),
                );
            }
            Ok(DeltaOp::Sub(difference))
        } else {
            let difference = word_wrapping_sub(projected, self.value);
            proof {
                lemma_value_bounds(projected);
                lemma_small_mod(
                    (projected.value() - self.value.value()) as nat,
                    word_modulus(),
                );
            }
            Ok(DeltaOp::Add(difference))
        }
    }

    fn update_delta(&mut self, operation: DeltaOp<Word256>) -> (r: Result<
        &DeltaOp<Word256>,
        StateError,
    >)
        ensures
            match old(self).add_fault(operation) {
                None => {
                    &&& final(self).delta matches Some(op) && is_net_delta(
                        op,
                        old(self).value.value() as int,
                        old(self).projected(operation),
                    )
                    &&& r matches Ok(p) && final(self).delta == Some(*p)
                    &&& final(self).value == old(self).value
                    &&& final(self).limits == old(self).limits
                },
                Some(f) => {
                    &&& r matches Err(StateError::U256(e)) && e.fault() == f
                        && e.message() == old(self).add_message(operation)
                    &&& *final(self) == *old(self)
                },
            },
    {
        let next = self.try_delta(&operation)?;
        self.delta = Some(next);
        match &self.delta {
            Some(op) => Ok(op),
            None => Err(StateError::NoValue),
        }
    }
}

impl Clone for U256 {
    fn clone(&self) -> (r: U256)
        ensures
            r == *self,
    {
        U256 { value: self.value, delta: self.delta, limits: self.limits }
    }
}

impl Default for U256 {
    fn default() -> (r: U256)
        ensures
            r.value.value() == 0,
            r.delta is None,
            r.limits.0.value() == 0,
            r.limits.1.value() == word_modulus() - 1,
    {
        U256 { value: Word256::zero(), delta: None, limits: (Word256::zero(), Word256::max()) }
    }
}

impl Crdt<Word256, DeltaOp<Word256>> for U256 {
    type Error = StateError;

    /// Every state is valid: the number type's arithmetic wraps.
    open spec fn crdt_wf(&self) -> bool {
        true
    }

    open spec fn accepts_deltas(&self) -> bool {
        self.crdt_wf()
    }

    fn value(&self) -> (r: Option<&Word256>)
        ensures
            r == Some(&self.value),
    {
        Some(&self.value)
    }

    fn delta(&self) -> (r: Option<&DeltaOp<Word256>>)
        ensures
            r matches Some(d) ==> self.delta == Some(*d),
            r is None <==> self.delta is None,
    {
        match &self.delta {
            Some(d) => Some(d),
            None => None,
        }
    }

    /// Moves the pending value by `delta`: on success the pending delta
    /// becomes the net change from the committed value to the projected value;
    /// on failure (overflow, underflow, limits) nothing changes.
    fn add_delta(&mut self, delta: &DeltaOp<Word256>) -> (r: Result<&DeltaOp<Word256>, StateError>)
        ensures
            match old(self).add_fault(*delta) {
                None => {
                    &&& final(self).delta matches Some(op) && is_net_delta(
                        op,
                        old(self).value.value() as int,
                        old(self).projected(*delta),
                    )
                    &&& r matches Ok(p) && final(self).delta == Some(*p)
                    &&& final(self).value == old(self).value
                    &&& final(self).limits == old(self).limits
                },
                Some(f) => {
                    &&& r matches Err(StateError::U256(e)) && e.fault() == f
                        && e.message() == old(self).add_message(*delta)
                    &&& *final(self) == *old(self)
                },
            },
    {
        self.update_delta(*delta)
    }

    /// Moves the committed value to the pending value and clears the delta.
    fn apply_delta(&mut self) -> (r: &U256)
        ensures
            final(self).value.value() == old(self).pending_value(),
            final(self).delta is None,
            final(self).limits == old(self).limits,
            *r == *final(self),
    {
        match self.delta {
            Some(DeltaOp::Add(d)) => {
                self.value = word_wrapping_add(self.value, d);
            },
            Some(DeltaOp::Sub(d)) => {
                self.value = word_wrapping_sub(self.value, d);
            },
            None => {},
        }
        self.delta = None;
        self
    }

    fn limits(&self) -> (r: Option<(&Word256, &Word256)>)
        ensures
            r == Some((&self.limits.0, &self.limits.1)),
    {
        Some((&self.limits.0, &self.limits.1))
    }

    fn is_numeric(&self) -> (r: bool)
        ensures
            r,
    {
        true
    }

    fn is_commutative(&self) -> (r: bool)
        ensures
            r,
    {
        true
    }
}

impl CacheableCrdt<Word256, DeltaOp<Word256>> for U256 {
    fn cache_weight(&self) -> (r: usize)
        ensures
            r == vstd::layout::size_of::<U256>(),
    {
        core::mem::size_of::<U256>()
    }
}

/// Deltas commute: when `a` then `b`, and `b` then `a`, are both accepted
/// (each step as `add_delta` leaves the counter on success), the two orders
/// leave the same committed value and limits, and the same pending value,
/// moved by both operations.
pub proof fn lemma_deltas_commute(
    x: U256,
    a: DeltaOp<Word256>,
    b: DeltaOp<Word256>,
    xa: U256,
    xab: U256,
    xb: U256,
    xba: U256,
)
    requires
        x.add_fault(a) is None,
        xa.value == x.value && xa.limits == x.limits,
        xa.delta matches Some(op) && is_net_delta(op, x.value.value() as int, x.projected(a)),
        xa.add_fault(b) is None,
        xab.value == xa.value && xab.limits == xa.limits,
        xab.delta matches Some(op) && is_net_delta(op, xa.value.value() as int, xa.projected(b)),
        x.add_fault(b) is None,
        xb.value == x.value && xb.limits == x.limits,
        xb.delta matches Some(op) && is_net_delta(op, x.value.value() as int, x.projected(b)),
        xb.add_fault(a) is None,
        xba.value == xb.value && xba.limits == xb.limits,
        xba.delta matches Some(op) && is_net_delta(op, xb.value.value() as int, xb.projected(a)),
    ensures
        xab.value == xba.value,
        xab.limits == xba.limits,
        xab.pending_value() == xba.pending_value(),
        xa.pending_value() == x.projected(a),
        xab.pending_value() == xa.projected(b),
{
    lemma_net_pending(x, a, xa);
    lemma_net_pending(xa, b, xab);
    lemma_net_pending(x, b, xb);
    lemma_net_pending(xb, a, xba);
}

/// After an accepted delta the pending value is the projected one.
pub proof fn lemma_net_pending(x: U256, op: DeltaOp<Word256>, y: U256)
    requires
        x.add_fault(op) is None,
        y.value == x.value,
        y.delta matches Some(d) && is_net_delta(d, x.value.value() as int, x.projected(op)),
    ensures
        y.pending_value() == x.projected(op),
{
    let t = x.projected(op);
    let v = x.value.value() as int;
    let d = y.delta->0;
    assert(0 <= t < word_modulus());
    if t < v {
        assert(v - d.operand().value() == t);
        lemma_small_mod(t as nat, word_modulus());
    } else {
        assert(v + d.operand().value() == t);
        lemma_small_mod(t as nat, word_modulus());
    }
}

} // verus!
