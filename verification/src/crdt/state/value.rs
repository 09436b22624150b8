use vstd::prelude::*;

use crate::collections::delta_set::{DeltaSet, DeltaSetView};
use crate::crdt::crdt::Crdt;
use crate::crdt::state::delta::{Delta, DeltaModel, DeltaOp};
use crate::crdt::state::error::StateError;
use crate::crdt::state::numeric::{Numeric, numeric_add_outcome, numeric_applied, numeric_delta};
use crate::crdt::types::bytes::Bytes;
use crate::crdt::types::int64::I64;
use crate::crdt::types::u256::U256;
use crate::crdt::types::u64_set::{U64Set, append_unique, applied_and_committed, copy_ops};
use crate::crdt::types::uint64::U64;
use crate::crdt::types::word::Word256;

verus! {

/// A value of any kind, or its absence.
#[derive(Debug, PartialEq)]
pub enum Value {
    Bytes(Bytes),
    U64Set(U64Set),
    Numeric(Numeric),
    Absent,
}

/// What a value holds, with its byte strings and lists as sequences.
pub enum ValueModel {
    Bytes(Option<Seq<u8>>),
    U64Set(DeltaSetView, Option<Seq<DeltaOp<u64>>>),
    Numeric(Numeric),
    Absent,
}

impl View for Value {
    type V = ValueModel;

    open spec fn view(&self) -> ValueModel {
        match *self {
            Value::Bytes(b) => ValueModel::Bytes(b@),
            Value::U64Set(s) => ValueModel::U64Set(
                s.entries@,
                match s.delta {
                    Some(d) => Some(d@),
                    None => None,
                },
            ),
            Value::Numeric(n) => ValueModel::Numeric(n),
            Value::Absent => ValueModel::Absent,
        }
    }
}

/// What `add_delta(delta)` does to a value that holds `v`: the result `r`
/// and what the value holds after, `after`.
pub open spec fn value_add_outcome(
    v: ValueModel,
    delta: DeltaModel,
    r: Result<(), StateError>,
    after: ValueModel,
) -> bool {
    match (v, delta) {
        (_, DeltaModel::Absent) => r is Ok && after == v,
        (ValueModel::Bytes(_), DeltaModel::Bytes(d)) => r is Ok && after == ValueModel::Bytes(Some(d)),
        (ValueModel::U64Set(entries, pending), DeltaModel::U64Set(d)) => r is Ok && after
            == ValueModel::U64Set(
            entries,
            Some(
                append_unique(
                    match pending {
                        Some(p) => p,
                        None => Seq::empty(),
                    },
                    d,
                ),
            ),
        ),
        (ValueModel::Numeric(n), _) => after matches ValueModel::Numeric(m) && numeric_add_outcome(
            n,
            delta,
            r,
            m,
        ),
        (ValueModel::Absent, _) => r == Err::<(), StateError>(StateError::NoValue) && after == v,
        _ => r == Err::<(), StateError>(StateError::TypeMismatch) && after == v,
    }
}

/// The pending delta of a value (`Absent` when there is none): a byte
/// value's delta is its bytes.
pub open spec fn value_delta(v: ValueModel) -> DeltaModel {
    match v {
        ValueModel::Bytes(b) => match b {
            Some(s) => DeltaModel::Bytes(s),
            None => DeltaModel::Absent,
        },
        ValueModel::U64Set(_, pending) => match pending {
            Some(ops) => DeltaModel::U64Set(ops),
            None => DeltaModel::Absent,
        },
        ValueModel::Numeric(n) => numeric_delta(n),
        ValueModel::Absent => DeltaModel::Absent,
    }
}

/// The value `after` that applying the pending delta of `v` leaves.
pub open spec fn value_applied(v: ValueModel, after: ValueModel) -> bool {
    match v {
        ValueModel::Bytes(b) => after == ValueModel::Bytes(b),
        ValueModel::U64Set(entries, delta) => after == ValueModel::U64Set(
            match delta {
                Some(d) => applied_and_committed(entries, d),
                None => entries,
            },
            None,
        ),
        ValueModel::Numeric(n) => after matches ValueModel::Numeric(m) && numeric_applied(n, m),
        ValueModel::Absent => after == ValueModel::Absent,
    }
}

impl Value {
    /// The states on which the operations are defined.
    pub open spec fn wf(self) -> bool {
        match self {
            Value::Bytes(b) => b.crdt_wf(),
            Value::U64Set(s) => s.crdt_wf(),
            Value::Numeric(n) => n.wf(),
            Value::Absent => true,
        }
    }

    /// The values on which `add_delta` is defined.
    pub open spec fn accepts_deltas(self) -> bool {
        match self {
            Value::Bytes(b) => b.accepts_deltas(),
            Value::U64Set(s) => s.accepts_deltas(),
            Value::Numeric(n) => n.accepts_deltas(),
            Value::Absent => true,
        }
    }

    /// The same value, owned.
    pub fn into_owned(self) -> (r: Value)
        ensures
            r == self,
    {
        self
    }

    /// An owned copy of `value`.
    pub fn from_borrowed(value: &Value) -> (r: Value)
        ensures
            r@ == value@,
            value.wf() ==> r.wf(),
    {
        value.clone()
    }

    /// The committed number of a signed counter; `None` for other kinds.
    pub fn as_i64(&self) -> (r: Option<i64>)
        ensures
            r == match *self {
                Value::Numeric(Numeric::I64(v)) => Some(v.value),
                _ => None,
            },
    {
        match self {
            Value::Numeric(Numeric::I64(v)) => Some(v.value),
            _ => None,
        }
    }

    /// The committed number of an unsigned counter; `None` for other kinds.
    pub fn as_u64(&self) -> (r: Option<u64>)
        ensures
            r == match *self {
                Value::Numeric(Numeric::U64(v)) => Some(v.value),
                _ => None,
            },
    {
        match self {
            Value::Numeric(Numeric::U64(v)) => Some(v.value),
            _ => None,
        }
    }

    /// The committed number of a 256-bit counter; `None` for other kinds.
    pub fn as_u256(&self) -> (r: Option<Word256>)
        ensures
            r == match *self {
                Value::Numeric(Numeric::U256(v)) => Some(v.value),
                _ => None,
            },
    {
        match self {
            Value::Numeric(Numeric::U256(v)) => Some(v.value),
            _ => None,
        }
    }

    /// The bytes of a byte value; `None` for other kinds or an empty value.
    pub fn as_bytes(&self) -> (r: Option<&[u8]>)
        ensures
            match *self {
                Value::Bytes(b) => match b@ {
                    Some(s) => r matches Some(x) && x@ == s,
                    None => r is None,
                },
                _ => r is None,
            },
    {
        match self {
            Value::Bytes(b) => b.value(),
            _ => None,
        }
    }

    /// The entries of a set; `None` for other kinds.
    pub fn as_u64_set(&self) -> (r: Option<&DeltaSet>)
        ensures
            r == match *self {
                Value::U64Set(s) => Some(&s.entries),
                _ => None,
            },
    {
        match self {
            Value::U64Set(s) => s.value(),
            _ => None,
        }
    }

    pub fn is_numeric(&self) -> (r: bool)
        ensures
            r == (*self is Numeric),
    {
        match self {
            Value::Numeric(_) => true,
            _ => false,
        }
    }

    /// Whether concurrent deltas to the value can be merged in any order:
    /// true for sets and numbers.
    pub fn is_commutative(&self) -> (r: bool)
        ensures
            r == (*self is U64Set || *self is Numeric),
    {
        match self {
            Value::Bytes(b) => b.is_commutative(),
            Value::U64Set(s) => s.is_commutative(),
            Value::Numeric(_) => true,
            Value::Absent => false,
        }
    }

    /// The pending delta, `Delta::Absent` when there is none.
    pub fn delta(&self) -> (r: Delta)
        ensures
            r@ == value_delta(self@),
    {
        match self {
            Value::Bytes(b) => match b.delta() {
                Some(d) => Delta::Bytes(vstd::slice::slice_to_vec(d)),
                None => Delta::Absent,
            },
            Value::U64Set(s) => match s.delta() {
                Some(d) => Delta::U64Set(copy_ops(d)),
                None => Delta::Absent,
            },
            Value::Numeric(n) => n.delta(),
            Value::Absent => Delta::Absent,
        }
    }

    /// Adds a delta of the value's own kind; `Delta::Absent` changes nothing,
    /// an absent value takes no delta, and a delta of another kind is a type
    /// mismatch.
    pub fn add_delta(&mut self, delta: &Delta) -> (r: Result<(), StateError>)
        requires
            old(self).accepts_deltas(),
        ensures
            old(self).wf() ==> final(self).wf(),
            value_add_outcome(old(self)@, delta@, r, final(self)@),
    {
        if let Delta::Absent = delta {
            return Ok(());
        }
        match self {
            Value::Bytes(b) => match delta {
                Delta::Bytes(d) => match b.add_delta(d.as_slice()) {
                    Ok(_) => Ok(()),
                    Err(e) => Err(e),
                },
                _ => Err(StateError::TypeMismatch),
            },
            Value::U64Set(s) => match delta {
                Delta::U64Set(d) => match s.add_delta(d.as_slice()) {
                    Ok(_) => Ok(()),
                    Err(e) => Err(e),
                },
                _ => Err(StateError::TypeMismatch),
            },
            Value::Numeric(n) => n.add_delta(delta),
            Value::Absent => Err(StateError::NoValue),
        }
    }

    /// Commits the pending delta.
    pub fn apply_delta(&mut self) -> (r: &Value)
        requires
            old(self).wf(),
        ensures
            final(self).wf(),
            value_applied(old(self)@, final(self)@),
            *r == *final(self),
    {
        match self {
            Value::Bytes(b) => {
                b.apply_delta();
            },
            Value::U64Set(s) => {
                s.apply_delta();
            },
            Value::Numeric(n) => {
                n.apply_delta();
            },
            Value::Absent => {},
        }
        self
    }

    /// A copy with the pending delta committed; `self` is not changed.
    pub fn applied(&self) -> (r: Value)
        requires
            self.wf(),
        ensures
            r.wf(),
            value_applied(self@, r@),
    {
        let mut copy = self.clone();
        copy.apply_delta();
        copy
    }
}

impl Clone for Value {
    fn clone(&self) -> (r: Value)
        ensures
            r@ == self@,
            self.wf() ==> r.wf(),
    {
        match self {
            Value::Bytes(b) => Value::Bytes(b.clone()),
            Value::U64Set(s) => Value::U64Set(s.clone()),
            Value::Numeric(n) => Value::Numeric(n.clone()),
            Value::Absent => Value::Absent,
        }
    }
}

impl From<Bytes> for Value {
    fn from(value: Bytes) -> (r: Value) {
        Value::Bytes(value)
    }
}

impl vstd::std_specs::convert::FromSpecImpl<Bytes> for Value {
    open spec fn obeys_from_spec() -> bool {
        true
    }

    open spec fn from_spec(value: Bytes) -> Value {
        Value::Bytes(value)
    }
}

impl From<U64Set> for Value {
    fn from(value: U64Set) -> (r: Value) {
        Value::U64Set(value)
    }
}

impl vstd::std_specs::convert::FromSpecImpl<U64Set> for Value {
    open spec fn obeys_from_spec() -> bool {
        true
    }

    open spec fn from_spec(value: U64Set) -> Value {
        Value::U64Set(value)
    }
}

impl From<I64> for Value {
    fn from(value: I64) -> (r: Value) {
        Value::Numeric(Numeric::I64(value))
    }
}

impl vstd::std_specs::convert::FromSpecImpl<I64> for Value {
    open spec fn obeys_from_spec() -> bool {
        true
    }

    open spec fn from_spec(value: I64) -> Value {
        Value::Numeric(Numeric::I64(value))
    }
}

impl From<U64> for Value {
    fn from(value: U64) -> (r: Value) {
        Value::Numeric(Numeric::U64(value))
    }
}

impl vstd::std_specs::convert::FromSpecImpl<U64> for Value {
    open spec fn obeys_from_spec() -> bool {
        true
    }

    open spec fn from_spec(value: U64) -> Value {
        Value::Numeric(Numeric::U64(value))
    }
}

impl From<U256> for Value {
    fn from(value: U256) -> (r: Value) {
        Value::Numeric(Numeric::U256(value))
    }
}

impl vstd::std_specs::convert::FromSpecImpl<U256> for Value {
    open spec fn obeys_from_spec() -> bool {
        true
    }

    open spec fn from_spec(value: U256) -> Value {
        Value::Numeric(Numeric::U256(value))
    }
}

} // verus!
