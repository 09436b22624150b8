use rust_common_lib::collections::delta_set::DeltaSet;

const ALPHA: u64 = 1;
const BETA: u64 = 2;
const GAMMA: u64 = 3;
const DELTA: u64 = 4;

fn values(set: &DeltaSet) -> Vec<u64> {
    let mut values = set.iter_live();
    values.sort();
    values
}

#[test]
fn insert_and_get_by_key_and_index() {
    let mut set = DeltaSet::new(4);

    assert_eq!(set.insert(ALPHA), Some(0));
    assert_eq!(set.insert(BETA), Some(1));

    assert_eq!(set.get(&ALPHA), Some(ALPHA));
    assert_eq!(set.get_at(1), Some(BETA));
    assert_eq!(set.get_at(2), None);
}

#[test]
fn duplicate_insert_is_rejected() {
    let mut set = DeltaSet::new(0);

    assert_eq!(set.insert(ALPHA), Some(0));
    assert_eq!(set.insert(ALPHA), None);
    assert_eq!(set.len(), 1);
}

#[test]
fn remove_by_key_and_index_clears_elements() {
    let mut set = DeltaSet::new(0);
    set.insert(ALPHA);
    set.insert(BETA);

    assert_eq!(set.remove(&ALPHA), Some((ALPHA, 0)));
    assert_eq!(set.get(&ALPHA), None);
    assert_eq!(set.get_at(0), None);

    assert_eq!(set.remove_at(1), Some((BETA, 1)));
    assert_eq!(set.get(&BETA), None);
    assert_eq!(set.get_at(1), None);
}

#[test]
fn diff_reports_added_and_removed_keys() {
    let mut set = DeltaSet::new(0);
    set.insert(ALPHA);
    set.insert(BETA);
    set.commit();

    set.remove(&ALPHA);
    set.insert(GAMMA);

    let (mut added, mut removed) = set.diff();
    added.sort();
    removed.sort();

    assert_eq!(added, vec![GAMMA]);
    assert_eq!(removed, vec![ALPHA]);
}

#[test]
fn apply_delta_keeps_elements_and_keys_consistent() {
    let mut set = DeltaSet::new(0);
    set.insert(ALPHA);
    set.insert(BETA);

    set.apply_delta(&[ALPHA], &[GAMMA]);

    assert_eq!(set.get(&ALPHA), None);
    assert_eq!(set.get_at(0), None);
    assert_eq!(set.get(&GAMMA), Some(GAMMA));
}

#[test]
fn compact_removes_holes_and_reindexes_remaining_keys() {
    let mut set = DeltaSet::new(0);
    set.insert(ALPHA);
    set.insert(BETA);
    set.insert(GAMMA);
    set.remove(&BETA);

    set.compact();

    assert_eq!(set.get_at(0), Some(ALPHA));
    assert_eq!(set.get_at(1), Some(GAMMA));
    assert_eq!(set.get(&GAMMA), Some(GAMMA));
    assert_eq!(set.insert(DELTA), Some(2));
    assert_eq!(set.get(&DELTA), Some(DELTA));
}

#[test]
fn three_sets_converge_after_add_and_remove_deltas() {
    let (one, two, three, four, five, six) = (1u64, 2u64, 3u64, 4u64, 5u64, 6u64);
    let mut a = DeltaSet::new(0);
    let mut b = DeltaSet::new(0);
    let mut c = DeltaSet::new(0);

    assert!(!a.is_dirty());
    assert!(!b.is_dirty());
    assert!(!c.is_dirty());

    for value in [one, two, three] {
        a.insert(value);
    }
    for value in [three, four, five] {
        b.insert(value);
    }
    for value in [five, six, one] {
        c.insert(value);
    }

    let (a_added, a_removed) = a.diff();
    let (b_added, b_removed) = b.diff();
    let (c_added, c_removed) = c.diff();

    for set in [&mut a, &mut b, &mut c] {
        set.apply_delta(&a_removed, &a_added);
        set.apply_delta(&b_removed, &b_added);
        set.apply_delta(&c_removed, &c_added);
    }

    assert_eq!(values(&a), values(&b));
    assert_eq!(values(&b), values(&c));

    a.commit();
    b.commit();
    c.commit();

    for value in [one, two] {
        a.remove(&value);
    }
    for value in [two, three] {
        b.remove(&value);
    }
    for value in [three, four] {
        c.remove(&value);
    }

    let (a_added, a_removed) = a.diff();
    let (b_added, b_removed) = b.diff();
    let (c_added, c_removed) = c.diff();

    for set in [&mut a, &mut b, &mut c] {
        set.apply_delta(&a_removed, &a_added);
        set.apply_delta(&b_removed, &b_added);
        set.apply_delta(&c_removed, &c_added);
    }

    assert_eq!(values(&a), values(&b));
    assert_eq!(values(&b), values(&c));
    assert_eq!(values(&a), vec![five, six]);
}

#[test]
fn sets_built_from_elements_and_slots_agree() {
    let from_elements = DeltaSet::try_from_elements(vec![7, 8, 9]).unwrap();
    assert_eq!(from_elements.slots(), &[Some(7), Some(8), Some(9)][..]);
    assert!(!from_elements.is_dirty());
    assert!(DeltaSet::try_from_elements(vec![7, 7]).is_none());

    let from_slots = DeltaSet::try_from_slots(vec![Some(7), None, Some(9)]).unwrap();
    assert_eq!(from_slots.get_at(1), None);
    assert_eq!(from_slots.get(&9), Some(9));
    assert_eq!(from_slots.len(), 3);
    assert!(DeltaSet::try_from_slots(vec![Some(7), Some(7)]).is_none());
}

#[test]
fn compact_reports_how_many_keys_moved() {
    let mut set = DeltaSet::try_from_slots(vec![Some(1), None, Some(3), Some(4)]).unwrap();
    assert_eq!(set.compact(), 2);
    assert_eq!(set.slots(), &[Some(1), Some(3), Some(4)][..]);
    assert_eq!(set.compact(), 0);
}

#[test]
fn replaying_a_diff_rebuilds_the_live_keys() {
    let mut origin = DeltaSet::new(0);
    origin.insert(10);
    origin.insert(20);
    origin.commit();
    origin.remove(&10);
    origin.insert(30);
    let (added, removed) = origin.diff();

    let mut replica = DeltaSet::try_from_elements(vec![10, 20]).unwrap();
    replica.apply_delta(&removed, &added);
    assert_eq!(values(&replica), values(&origin));
    assert!(replica.is_dirty());
    replica.commit();
    assert!(!replica.is_dirty());
}
