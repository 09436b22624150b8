use rust_common_lib::crdt::codecs::internal::{u256 as u256_codec, uint64 as uint64_codec};
use rust_common_lib::crdt::crdt::Crdt;
use rust_common_lib::crdt::state::{Delta, DeltaOp, Numeric, NumericError, StateError, TrackedValue, Value};
use rust_common_lib::crdt::types::word::Word256;
use rust_common_lib::crdt::types::{Bytes, I64, U256, U64};
use rust_common_lib::store::StoreError;

fn w(value: u64) -> Word256 {
    Word256::from_u64(value)
}

#[test]
fn unsigned_subtraction_rejects_other_numeric_types() {
    let mut u64_value: Value = U64::default().into();
    let mut u256_value: Value = U256::default().into();
    assert_eq!(
        u64_value.add_delta(&Delta::U256(DeltaOp::Sub(Word256::zero()))),
        Err(StateError::TypeMismatch)
    );
    assert_eq!(
        u256_value.add_delta(&Delta::U64(DeltaOp::Sub(0))),
        Err(StateError::TypeMismatch)
    );
}

#[test]
fn u64_mixed_deltas_are_deferred_and_cancel_in_both_directions() {
    let mut value: Value = U64::default().into();
    value.add_delta(&Delta::U64(DeltaOp::Add(10))).unwrap();
    value.apply_delta();
    value.add_delta(&Delta::U64(DeltaOp::Sub(7))).unwrap();
    assert_eq!(value.as_u64(), Some(10));
    value.add_delta(&Delta::U64(DeltaOp::Add(9))).unwrap();
    assert_eq!(value.applied().as_u64(), Some(12));
    value.add_delta(&Delta::U64(DeltaOp::Sub(5))).unwrap();
    assert_eq!(value.applied().as_u64(), Some(7));
    value.add_delta(&Delta::U64(DeltaOp::Add(3))).unwrap();
    assert_eq!(value.applied().as_u64(), Some(10));
    value.add_delta(&Delta::U64(DeltaOp::Sub(10))).unwrap();
    value.apply_delta();
    value.apply_delta();
    assert_eq!(value.as_u64(), Some(0));
    value.add_delta(&Delta::U64(DeltaOp::Sub(0))).unwrap();
    assert_eq!(value.applied().as_u64(), Some(0));
}

#[test]
fn u256_mixed_deltas_are_deferred_and_cancel_in_both_directions() {
    let mut value: Value = U256::default().into();
    value.add_delta(&Delta::U256(DeltaOp::Add(w(10)))).unwrap();
    value.apply_delta();
    value.add_delta(&Delta::U256(DeltaOp::Sub(w(7)))).unwrap();
    assert_eq!(value.as_u256(), Some(w(10)));
    value.add_delta(&Delta::U256(DeltaOp::Add(w(9)))).unwrap();
    assert_eq!(value.applied().as_u256(), Some(w(12)));
    value.add_delta(&Delta::U256(DeltaOp::Sub(w(5)))).unwrap();
    assert_eq!(value.applied().as_u256(), Some(w(7)));
    value.add_delta(&Delta::U256(DeltaOp::Add(w(3)))).unwrap();
    assert_eq!(value.applied().as_u256(), Some(w(10)));
    value.add_delta(&Delta::U256(DeltaOp::Sub(w(10)))).unwrap();
    value.apply_delta();
    value.apply_delta();
    assert_eq!(value.as_u256(), Some(w(0)));
    value.add_delta(&Delta::U256(DeltaOp::Sub(w(0)))).unwrap();
    assert_eq!(value.applied().as_u256(), Some(w(0)));
}

#[test]
fn u64_full_unsigned_range_and_failed_operations_preserve_state() {
    let mut value: Value = U64::default().into();
    let before = value.clone();
    assert!(matches!(
        value.add_delta(&Delta::U64(DeltaOp::Sub(1))),
        Err(StateError::U64(NumericError::Underflow(_)))
    ));
    assert!(value == before);
    value.add_delta(&Delta::U64(DeltaOp::Add(u64::MAX))).unwrap();
    let before = value.clone();
    assert!(matches!(
        value.add_delta(&Delta::U64(DeltaOp::Add(1))),
        Err(StateError::U64(NumericError::Overflow(_)))
    ));
    assert!(value == before);
    value.apply_delta();
    value.add_delta(&Delta::U64(DeltaOp::Sub(u64::MAX))).unwrap();
    let before = value.clone();
    assert!(matches!(
        value.add_delta(&Delta::U64(DeltaOp::Sub(1))),
        Err(StateError::U64(NumericError::Underflow(_)))
    ));
    assert!(value == before);
    value.add_delta(&Delta::U64(DeltaOp::Add(u64::MAX))).unwrap();
    assert_eq!(value.applied().as_u64(), Some(u64::MAX));
    value.add_delta(&Delta::U64(DeltaOp::Sub(u64::MAX))).unwrap();
    value.apply_delta();
    assert_eq!(value.as_u64(), Some(0));
}

#[test]
fn u256_full_unsigned_range_and_failed_operations_preserve_state() {
    let mut value: Value = U256::default().into();
    let before = value.clone();
    assert!(matches!(
        value.add_delta(&Delta::U256(DeltaOp::Sub(w(1)))),
        Err(StateError::U256(NumericError::Underflow(_)))
    ));
    assert!(value == before);
    value.add_delta(&Delta::U256(DeltaOp::Add(Word256::max()))).unwrap();
    let before = value.clone();
    assert!(matches!(
        value.add_delta(&Delta::U256(DeltaOp::Add(w(1)))),
        Err(StateError::U256(NumericError::Overflow(_)))
    ));
    assert!(value == before);
    value.apply_delta();
    value.add_delta(&Delta::U256(DeltaOp::Sub(Word256::max()))).unwrap();
    let before = value.clone();
    assert!(matches!(
        value.add_delta(&Delta::U256(DeltaOp::Sub(w(1)))),
        Err(StateError::U256(NumericError::Underflow(_)))
    ));
    assert!(value == before);
    value.add_delta(&Delta::U256(DeltaOp::Add(Word256::max()))).unwrap();
    assert_eq!(value.applied().as_u256(), Some(Word256::max()));
    value.add_delta(&Delta::U256(DeltaOp::Sub(Word256::max()))).unwrap();
    value.apply_delta();
    assert_eq!(value.as_u256(), Some(w(0)));
}

#[test]
fn u64_limits_are_checked_before_mutating_pending_delta() {
    let mut value = U64 {
        value: 10,
        limits: (5, 15),
        ..Default::default()
    };
    value.add_delta(&DeltaOp::Sub(5)).unwrap();
    let before = value.clone();
    assert!(matches!(
        value.add_delta(&DeltaOp::Sub(1)),
        Err(StateError::U64(NumericError::BelowLowerLimit(_)))
    ));
    assert!(value == before);
    value.add_delta(&DeltaOp::Add(10)).unwrap();
    let before = value.clone();
    assert!(matches!(
        value.add_delta(&DeltaOp::Add(1)),
        Err(StateError::U64(NumericError::AboveUpperLimit(_)))
    ));
    assert!(value == before);
    value.apply_delta();
    assert_eq!(value.value(), Some(&15));
    assert_eq!(value.delta, None);
}

#[test]
fn u256_limits_are_checked_before_mutating_pending_delta() {
    let mut value = U256 {
        value: w(10),
        limits: (w(5), w(15)),
        ..Default::default()
    };
    value.add_delta(&DeltaOp::Sub(w(5))).unwrap();
    let before = value.clone();
    assert!(matches!(
        value.add_delta(&DeltaOp::Sub(w(1))),
        Err(StateError::U256(NumericError::BelowLowerLimit(_)))
    ));
    assert!(value == before);
    value.add_delta(&DeltaOp::Add(w(10))).unwrap();
    let before = value.clone();
    assert!(matches!(
        value.add_delta(&DeltaOp::Add(w(1))),
        Err(StateError::U256(NumericError::AboveUpperLimit(_)))
    ));
    assert!(value == before);
    value.apply_delta();
    assert_eq!(value.value(), Some(&w(15)));
    assert_eq!(value.delta, None);
}

#[test]
fn u64_subtraction_survives_internal_codec() {
    let mut value = U64::default();
    value.add_delta(&DeltaOp::Add(u64::MAX)).unwrap();
    value.apply_delta();
    value.add_delta(&DeltaOp::Sub(u64::MAX)).unwrap();
    let encoded = uint64_codec::encode(&value).unwrap();
    assert_eq!(encoded[0], 15);
    let mut decoded = uint64_codec::decode(&encoded).unwrap();
    assert!(decoded == value);
    decoded.apply_delta();
    assert_eq!(decoded.value(), Some(&0));
    assert!(uint64_codec::decode(&[16]).is_err());
}

#[test]
fn u256_subtraction_survives_internal_codec() {
    let mut value = U256::default();
    value.add_delta(&DeltaOp::Add(Word256::max())).unwrap();
    value.apply_delta();
    value.add_delta(&DeltaOp::Sub(Word256::max())).unwrap();
    let encoded = u256_codec::encode(&value).unwrap();
    assert_eq!(encoded[0], 15);
    let mut decoded = u256_codec::decode(&encoded).unwrap();
    assert!(decoded == value);
    decoded.apply_delta();
    assert_eq!(decoded.value(), Some(&w(0)));
    assert!(u256_codec::decode(&[16]).is_err());
}

#[test]
fn numeric_delta_reports_the_pending_delta() {
    let mut counter = I64::default();
    counter.add_delta(&-4).unwrap();
    let numeric = Numeric::I64(counter);
    assert_eq!(numeric.delta(), Delta::I64(-4));
    let untouched = Numeric::U64(U64::default());
    assert_eq!(untouched.delta(), Delta::Absent);
    let mut value: Value = Bytes::default().into();
    assert_eq!(value.add_delta(&Delta::Absent), Ok(()));
    assert_eq!(value.add_delta(&Delta::I64(1)), Err(StateError::TypeMismatch));
}

#[test]
fn write_preserves_history_and_clears_tombstone() {
    let mut record = TrackedValue::new_owned(U64::default().into(), 7);
    let _ = record.get();
    record.check();
    assert!(record.add_delta(Delta::Absent).is_ok());
    let deleted_value = record.value().clone();
    assert!(record.delete().is_ok());
    assert!(record.is_tombstone());
    assert!(record.value() == &deleted_value);
    let previous_writes = record.writes;
    let value = Value::Numeric(Numeric::U64(U64::default()));

    record.set(value.clone()).unwrap();

    assert_eq!(record.reads, 1);
    assert_eq!(record.checks, 1);
    assert_eq!(record.deltas, 1);
    assert_eq!(record.writes, previous_writes + 1);
    assert!(!record.is_tombstone());
    assert!(record.value() == &value);
}

#[test]
fn constructors_record_id_and_origin() {
    let owned = TrackedValue::new_owned(U64::default().into(), 11);
    assert_eq!(owned.id, 11);
    assert!(owned.is_new());
    assert_eq!(owned.creates, 1);

    let value: Value = U64::default().into();
    let borrowed = TrackedValue::new_borrowed(Value::from_borrowed(&value), 12);
    assert_eq!(borrowed.id, 12);
    assert!(!borrowed.is_new());
    assert_eq!(borrowed.creates, 0);
}

#[test]
fn only_mutations_make_a_record_non_read_only() {
    let mut record = TrackedValue::new_borrowed(U64::default().into(), 7);
    assert!(record.is_read_only());

    assert!(record.get().is_some());
    assert!(record.is_read_only());

    record.check();
    assert!(record.is_read_only());

    assert_eq!(
        record.set(U64::default().into()),
        Err(StoreError::ValueCannotBeRecreated)
    );
    assert!(!record.is_read_only());
}

#[test]
fn ownership_conversions_preserve_id() {
    let record = TrackedValue::new_owned(U64::default().into(), 42);

    assert_eq!(record.owned_clone().id, 42);
    assert_eq!(record.into_owned().id, 42);
}

#[test]
fn created_then_deleted_record_is_cancelled() {
    let mut record = TrackedValue::new_owned_empty(3);
    assert!(record.is_none());
    assert!(!record.is_live());
    assert_eq!(record.set(Value::Absent), Err(StoreError::SetNoneToValue));
    assert_eq!(
        record.add_delta(Delta::I64(1)),
        Err(StateError::CannotAddDeltaToMissingValue)
    );
    assert_eq!(record.delete(), Err(StoreError::DeleteNonexistingEntry));

    record.set(I64::default().into()).unwrap();
    assert!(record.is_live());
    assert!(record.is_new());
    assert!(record.delete().is_ok());
    assert!(record.is_creation_cancelled());
    assert!(record.get().is_none());
}

#[test]
fn tracked_delta_is_applied_on_request() {
    let mut record = TrackedValue::new_borrowed(I64::default().into(), 1);
    assert!(!record.has_delta());
    record.add_delta(Delta::I64(5)).unwrap();
    assert!(record.has_delta());
    assert_eq!(record.value().as_i64(), Some(0));
    let applied = record.apply_delta().cloned();
    assert_eq!(applied.and_then(|v| v.as_i64()), Some(5));
    assert_eq!(record.writes, 1);
}
