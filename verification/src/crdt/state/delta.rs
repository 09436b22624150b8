use vstd::prelude::*;

use crate::crdt::types::word::Word256;

verus! {

/// A single pending change: an addition or a subtraction of a magnitude, or,
/// for sets, the insertion or removal of an element.
#[derive(Clone, Copy, Debug, PartialEq, Eq)]
pub enum DeltaOp<T> {
    Add(T),
    Sub(T),
}

impl<T: Copy> DeltaOp<T> {
    /// The magnitude (or element) that the operation carries.
    pub open spec fn operand(self) -> T {
        match self {
            DeltaOp::Add(v) => v,
            DeltaOp::Sub(v) => v,
        }
    }
}

/// A delta addressed to any kind of value.
#[derive(Clone, Debug, PartialEq)]
pub enum Delta {
    Bytes(Vec<u8>),
    I64(i64),
    U64(DeltaOp<u64>),
    U256(DeltaOp<Word256>),
    U64Set(Vec<DeltaOp<u64>>),
    Absent,
}

/// What a delta holds, with its lists as sequences.
pub enum DeltaModel {
    Bytes(Seq<u8>),
    I64(i64),
    U64(DeltaOp<u64>),
    U256(DeltaOp<Word256>),
    U64Set(Seq<DeltaOp<u64>>),
    Absent,
}

impl View for Delta {
    type V = DeltaModel;

    open spec fn view(&self) -> DeltaModel {
        match *self {
            Delta::Bytes(b) => DeltaModel::Bytes(b@),
            Delta::I64(d) => DeltaModel::I64(d),
            Delta::U64(op) => DeltaModel::U64(op),
            Delta::U256(op) => DeltaModel::U256(op),
            Delta::U64Set(ops) => DeltaModel::U64Set(ops@),
            Delta::Absent => DeltaModel::Absent,
        }
    }
}

} // verus!
