use rust_common_lib::crdt::crdt::{CacheableCrdt, Crdt};
use rust_common_lib::crdt::state::{DeltaOp, NumericError, StateError};
use rust_common_lib::crdt::types::word::Word256;
use rust_common_lib::crdt::types::{Bytes, I64, PathDelta, PathMeta, U256, U64, U64Set};

#[test]
fn bytes_default_has_no_value_or_delta() {
    let bytes = Bytes::default();

    assert_eq!(bytes.value(), None);
    assert_eq!(bytes.delta.as_deref(), None);
    assert_eq!(bytes.limits(), None);
    assert!(!bytes.is_numeric());
    assert!(!bytes.is_commutative());
}

#[test]
fn bytes_delta_is_the_current_value() {
    let mut bytes = Bytes::default();

    bytes.add_delta(&[1, 2, 3]).expect("add delta");

    assert_eq!(bytes.value(), Some(&[1, 2, 3][..]));
    assert_eq!(bytes.delta.as_deref(), Some(&[1, 2, 3][..]));
}

#[test]
fn bytes_setting_delta_again_replaces_the_value() {
    let mut bytes = Bytes::default();
    bytes.add_delta(&[1, 2, 3]).expect("add delta");

    bytes.add_delta(&[4, 5]).expect("replace delta");

    assert_eq!(bytes.value(), Some(&[4, 5][..]));
    assert_eq!(bytes.delta.as_deref(), Some(&[4, 5][..]));
}

#[test]
fn bytes_apply_delta_is_a_no_op() {
    let mut bytes = Bytes::default();
    bytes.add_delta(&[1, 2, 3]).expect("add delta");

    assert_eq!(bytes.apply_delta().value(), Some(&[1, 2, 3][..]));
    assert_eq!(bytes.delta.as_deref(), Some(&[1, 2, 3][..]));
}

#[test]
fn bytes_empty_delta_is_preserved() {
    let mut bytes = Bytes::default();
    bytes.add_delta(&[]).expect("add empty delta");

    assert_eq!(bytes.value(), Some(&[][..]));
    assert_eq!(bytes.delta.as_deref(), Some(&[][..]));
}

#[test]
fn bytes_cache_weight_counts_struct_and_payload_bytes() {
    let mut bytes = Bytes::default();
    let base = std::mem::size_of::<Bytes>();
    assert_eq!(bytes.cache_weight(), base);

    bytes.add_delta(&[1, 2, 3]).expect("add delta");
    assert_eq!(bytes.cache_weight(), base + 3);

    bytes.add_delta(&[4, 5]).expect("replace delta");
    assert_eq!(bytes.cache_weight(), base + 2);
}

#[test]
fn tests_default_has_no_value_or_delta() {
    let bytes = Bytes::default();

    assert_eq!(bytes.value(), None);
    assert_eq!(bytes.delta.as_deref(), None);
    assert_eq!(bytes.limits(), None);
    assert!(!bytes.is_numeric());
    assert!(!bytes.is_commutative());
}

#[test]
fn tests_delta_is_the_current_value() {
    let mut bytes = Bytes::default();

    bytes.add_delta(&[1, 2, 3]).expect("add delta");

    assert_eq!(bytes.value(), Some(&[1, 2, 3][..]));
    assert_eq!(bytes.delta.as_deref(), Some(&[1, 2, 3][..]));
}

#[test]
fn tests_setting_delta_again_replaces_the_value() {
    let mut bytes = Bytes::default();
    bytes.add_delta(&[1, 2, 3]).expect("add delta");

    bytes.add_delta(&[4, 5]).expect("replace delta");

    assert_eq!(bytes.value(), Some(&[4, 5][..]));
    assert_eq!(bytes.delta.as_deref(), Some(&[4, 5][..]));
}

#[test]
fn tests_apply_delta_is_a_no_op() {
    let mut bytes = Bytes::default();
    bytes.add_delta(&[1, 2, 3]).expect("add delta");

    assert_eq!(bytes.apply_delta().value(), Some(&[1, 2, 3][..]));
    assert_eq!(bytes.delta.as_deref(), Some(&[1, 2, 3][..]));
}

#[test]
fn tests_empty_delta_is_preserved() {
    let mut bytes = Bytes::default();
    bytes.add_delta(&[]).expect("add empty delta");

    assert_eq!(bytes.value(), Some(&[][..]));
    assert_eq!(bytes.delta.as_deref(), Some(&[][..]));
}

#[test]
fn tests_cache_weight_counts_struct_and_payload_bytes() {
    let mut bytes = Bytes::default();
    let base = std::mem::size_of::<Bytes>();
    assert_eq!(bytes.cache_weight(), base);

    bytes.add_delta(&[1, 2, 3]).expect("add delta");
    assert_eq!(bytes.cache_weight(), base + 3);

    bytes.add_delta(&[4, 5]).expect("replace delta");
    assert_eq!(bytes.cache_weight(), base + 2);
}

#[test]
fn i64_constructor_validates_bounds_before_initial_value() {
    assert!(I64::new(-10, 10).is_ok());
    assert!(matches!(
        I64::new(10, -10),
        Err(StateError::I64(NumericError::InvalidLimits(_)))
    ));
}

#[test]
fn int64_constructor_validates_bounds_before_initial_value() {
    assert!(I64::new(-10, 10).is_ok());
    assert!(matches!(
        I64::new(10, -10),
        Err(StateError::I64(NumericError::InvalidLimits(_)))
    ));
}

#[test]
fn u64_constructor_uses_lower_then_upper() {
    assert!(U64::new(0, 100).is_ok());
    assert!(U64::new(100, 0).is_err());
}

#[test]
fn uint64_constructor_uses_lower_then_upper() {
    assert!(U64::new(0, 100).is_ok());
    assert!(U64::new(100, 0).is_err());
}

#[test]
fn delta_uses_add_and_sub_operations() {
    let mut value = U64::default();

    value.add_delta(&DeltaOp::Add(10)).unwrap();
    value.add_delta(&DeltaOp::Sub(3)).unwrap();
    assert_eq!(value.delta, Some(DeltaOp::Add(7)));

    value.apply_delta();
    assert_eq!(value.value, 7);
    assert_eq!(value.delta, None);

    value.add_delta(&DeltaOp::Sub(2)).unwrap();
    assert_eq!(value.delta, Some(DeltaOp::Sub(2)));

    value.apply_delta();
    assert_eq!(value.value, 5);
    assert_eq!(value.delta, None);
}

#[test]
fn u256_constructor_uses_lower_then_upper() {
    assert!(U256::new(Word256::zero(), Word256::from_u64(100)).is_ok());
    assert!(U256::new(Word256::from_u64(100), Word256::zero()).is_err());
}

#[test]
fn path_default_is_empty() {
    let path = PathMeta::default();

    assert_eq!(path.value().unwrap().len(), 0);
    assert_eq!(path.delta.as_ref(), None);
    assert!(!path.is_numeric());
    assert!(path.is_commutative());
}

#[test]
fn path_add_delta_does_not_change_value_until_applied() {
    let mut path = PathMeta::default();
    let delta = PathDelta {
        added: vec![10, 20],
        removed: vec![],
    };

    path.add_delta(&delta).unwrap();

    assert_eq!(path.value().unwrap().get(&10), None);
    assert_eq!(path.delta.as_ref(), Some(&delta));
}

#[test]
fn path_apply_delta_adds_and_removes_entries() {
    let mut path = PathMeta::default();
    path.add_delta(&PathDelta {
        added: vec![10, 20],
        removed: vec![],
    })
    .unwrap();
    path.apply_delta();

    path.add_delta(&PathDelta {
        added: vec![30],
        removed: vec![10],
    })
    .unwrap();
    path.apply_delta();

    let entries = path.value().unwrap();
    assert_eq!(entries.get(&10), None);
    assert_eq!(entries.get(&20), Some(20));
    assert_eq!(entries.get(&30), Some(30));
    assert_eq!(path.delta.as_ref(), None);
}

#[test]
fn path_add_delta_accumulates_unique_entries() {
    let mut path = PathMeta::default();
    path.add_delta(&PathDelta {
        added: vec![10, 20],
        removed: vec![30],
    })
    .unwrap();
    path.add_delta(&PathDelta {
        added: vec![20, 30],
        removed: vec![30, 40],
    })
    .unwrap();

    assert_eq!(
        path.delta.as_ref(),
        Some(&PathDelta {
            added: vec![10, 20, 30],
            removed: vec![30, 40],
        })
    );

    path.apply_delta();
    let entries = path.value().unwrap();
    assert_eq!(entries.get(&10), Some(10));
    assert_eq!(entries.get(&20), Some(20));
    assert_eq!(entries.get(&30), Some(30));
    assert_eq!(entries.get(&40), None);
}

#[test]
fn path_meta_default_is_empty() {
    let path = PathMeta::default();

    assert_eq!(path.value().unwrap().len(), 0);
    assert_eq!(path.delta.as_ref(), None);
    assert!(!path.is_numeric());
    assert!(path.is_commutative());
}

#[test]
fn path_meta_add_delta_does_not_change_value_until_applied() {
    let mut path = PathMeta::default();
    let delta = PathDelta {
        added: vec![10, 20],
        removed: vec![],
    };

    path.add_delta(&delta).unwrap();

    assert_eq!(path.value().unwrap().get(&10), None);
    assert_eq!(path.delta.as_ref(), Some(&delta));
}

#[test]
fn path_meta_apply_delta_adds_and_removes_entries() {
    let mut path = PathMeta::default();
    path.add_delta(&PathDelta {
        added: vec![10, 20],
        removed: vec![],
    })
    .unwrap();
    path.apply_delta();

    path.add_delta(&PathDelta {
        added: vec![30],
        removed: vec![10],
    })
    .unwrap();
    path.apply_delta();

    let entries = path.value().unwrap();
    assert_eq!(entries.get(&10), None);
    assert_eq!(entries.get(&20), Some(20));
    assert_eq!(entries.get(&30), Some(30));
    assert_eq!(path.delta.as_ref(), None);
}

#[test]
fn path_meta_add_delta_accumulates_unique_entries() {
    let mut path = PathMeta::default();
    path.add_delta(&PathDelta {
        added: vec![10, 20],
        removed: vec![30],
    })
    .unwrap();
    path.add_delta(&PathDelta {
        added: vec![20, 30],
        removed: vec![30, 40],
    })
    .unwrap();

    assert_eq!(
        path.delta.as_ref(),
        Some(&PathDelta {
            added: vec![10, 20, 30],
            removed: vec![30, 40],
        })
    );

    path.apply_delta();
    let entries = path.value().unwrap();
    assert_eq!(entries.get(&10), Some(10));
    assert_eq!(entries.get(&20), Some(20));
    assert_eq!(entries.get(&30), Some(30));
    assert_eq!(entries.get(&40), None);
}

#[test]
fn u64_set_default_is_empty() {
    let set = U64Set::default();

    assert_eq!(set.value().unwrap().len(), 0);
    assert_eq!(set.delta.as_ref(), None);
    assert!(!set.is_numeric());
    assert!(set.is_commutative());
}

#[test]
fn u64_set_add_delta_does_not_change_value_until_applied() {
    let mut set = U64Set::default();
    let delta = vec![DeltaOp::Add(10), DeltaOp::Add(20)];

    set.add_delta(&delta).unwrap();

    assert_eq!(set.value().unwrap().get(&10), None);
    assert_eq!(set.delta.as_ref(), Some(&delta));
}

#[test]
fn u64_set_apply_delta_adds_and_removes_entries() {
    let mut set = U64Set::default();
    set.add_delta(&[DeltaOp::Add(10), DeltaOp::Add(20)]).unwrap();
    set.apply_delta();

    set.add_delta(&[DeltaOp::Add(30), DeltaOp::Sub(10)]).unwrap();
    set.apply_delta();

    let entries = set.value().unwrap();
    assert_eq!(entries.get(&10), None);
    assert_eq!(entries.get(&20), Some(20));
    assert_eq!(entries.get(&30), Some(30));
    assert_eq!(set.delta.as_ref(), None);
}

#[test]
fn u64_set_add_delta_accumulates_unique_entries() {
    let mut set = U64Set::default();
    set.add_delta(&[DeltaOp::Add(10), DeltaOp::Add(20), DeltaOp::Sub(30)])
        .unwrap();
    set.add_delta(&[
        DeltaOp::Add(20),
        DeltaOp::Add(30),
        DeltaOp::Sub(30),
        DeltaOp::Sub(40),
    ])
    .unwrap();

    assert_eq!(
        set.delta.as_ref(),
        Some(&vec![
            DeltaOp::Add(10),
            DeltaOp::Add(20),
            DeltaOp::Sub(30),
            DeltaOp::Add(30),
            DeltaOp::Sub(40),
        ])
    );

    set.apply_delta();
    let entries = set.value().unwrap();
    assert_eq!(entries.get(&10), Some(10));
    assert_eq!(entries.get(&20), Some(20));
    assert_eq!(entries.get(&30), Some(30));
    assert_eq!(entries.get(&40), None);
}

#[test]
fn int64_deltas_commute_when_both_orders_are_accepted() {
    let mut first = I64::new(-100, 100).unwrap();
    first.add_delta(&30).unwrap();
    first.add_delta(&-50).unwrap();
    let mut second = I64::new(-100, 100).unwrap();
    second.add_delta(&-50).unwrap();
    second.add_delta(&30).unwrap();
    assert_eq!(first, second);
    assert_eq!(first.delta, -20);
    assert_eq!(first.apply_delta().value, -20);
}

#[test]
fn int64_rejected_delta_leaves_the_counter_unchanged() {
    let mut value = I64::new(-10, 10).unwrap();
    value.add_delta(&5).unwrap();
    assert!(matches!(
        value.add_delta(&6),
        Err(StateError::I64(NumericError::AboveUpperLimit(_)))
    ));
    assert!(matches!(
        value.add_delta(&-16),
        Err(StateError::I64(NumericError::BelowLowerLimit(_)))
    ));
    assert_eq!(value.delta, 5);
    assert_eq!(value.value, 0);

    let mut wide = I64::default();
    wide.add_delta(&i64::MAX).unwrap();
    assert!(matches!(
        wide.add_delta(&1),
        Err(StateError::I64(NumericError::Overflow(_)))
    ));
    let mut low = I64::default();
    low.add_delta(&i64::MIN).unwrap();
    assert!(matches!(
        low.add_delta(&-1),
        Err(StateError::I64(NumericError::Underflow(_)))
    ));
}

#[test]
fn uint64_deltas_commute_and_reject_underflow() {
    let mut first = U64::new(0, 50).unwrap();
    first.add_delta(&DeltaOp::Add(20)).unwrap();
    first.add_delta(&DeltaOp::Sub(5)).unwrap();
    first.add_delta(&DeltaOp::Add(3)).unwrap();
    let mut second = U64::new(0, 50).unwrap();
    second.add_delta(&DeltaOp::Add(3)).unwrap();
    second.add_delta(&DeltaOp::Add(20)).unwrap();
    second.add_delta(&DeltaOp::Sub(5)).unwrap();
    assert_eq!(first, second);
    assert_eq!(first.delta, Some(DeltaOp::Add(18)));

    assert!(matches!(
        first.add_delta(&DeltaOp::Sub(19)),
        Err(StateError::U64(NumericError::Underflow(_)))
    ));
    assert!(matches!(
        first.add_delta(&DeltaOp::Add(33)),
        Err(StateError::U64(NumericError::AboveUpperLimit(_)))
    ));
    assert_eq!(first.delta, Some(DeltaOp::Add(18)));
}

#[test]
fn u256_deltas_move_the_pending_value() {
    let mut value = U256::default();
    value.add_delta(&DeltaOp::Add(Word256::from_u64(10))).unwrap();
    value.add_delta(&DeltaOp::Sub(Word256::from_u64(4))).unwrap();
    assert_eq!(value.delta, Some(DeltaOp::Add(Word256::from_u64(6))));
    value.apply_delta();
    assert_eq!(value.value, Word256::from_u64(6));
    assert_eq!(value.delta, None);

    let mut top = U256::default();
    top.add_delta(&DeltaOp::Add(Word256::max())).unwrap();
    assert!(matches!(
        top.add_delta(&DeltaOp::Add(Word256::from_u64(1))),
        Err(StateError::U256(NumericError::Overflow(_)))
    ));
}

#[test]
fn numeric_errors_name_the_values_in_decimal() {
    assert_eq!(
        U64::new(5, 3),
        Err(StateError::U64(NumericError::InvalidLimits(
            "lower limit 5 exceeds upper limit 3".to_string()
        )))
    );
    let mut value = I64::new(-10, 10).unwrap();
    assert_eq!(
        value.add_delta(&-11),
        Err(StateError::I64(NumericError::BelowLowerLimit(
            "value -11 is below limits [-10, 10]".to_string()
        )))
    );
    let mut counter = U64::new(0, 50).unwrap();
    counter.add_delta(&DeltaOp::Add(7)).unwrap();
    assert_eq!(
        counter.add_delta(&DeltaOp::Sub(9)),
        Err(StateError::U64(NumericError::Underflow(
            "operation underflowed: value 0, pending delta 7, incoming delta 9".to_string()
        )))
    );
    let mut top = U256::default();
    top.add_delta(&DeltaOp::Add(Word256::max())).unwrap();
    assert_eq!(
        top.add_delta(&DeltaOp::Add(Word256::from_u64(1))),
        Err(StateError::U256(NumericError::Overflow(
            "operation overflowed: value 0, pending delta 115792089237316195423570985008687907853269984665640564039457584007913129639935, incoming delta 1".to_string()
        )))
    );
}
