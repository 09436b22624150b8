//! The persistent hash map of the `im` crate, as the index of a `DeltaSet`:
//! its contents are named, and each method that the set calls has a contract
//! over that name.

use vstd::prelude::*;

verus! {

#[verifier::external_type_specification]
#[verifier::external_body]
#[verifier::reject_recursive_types(K)]
#[verifier::reject_recursive_types(V)]
#[verifier::reject_recursive_types(S)]
pub struct ExImHashMap<K, V, S>(im::HashMap<K, V, S>);

/// The key-value pairs that an `im::HashMap` holds.
pub uninterp spec fn im_contents(map: im::HashMap<u64, u64>) -> Map<u64, u64>;

/// `im::HashMap::new`: an empty map.
#[verifier::external_body]
pub(crate) fn im_new() -> (r: im::HashMap<u64, u64>)
    ensures
        im_contents(r).is_empty(),
{
    im::HashMap::new()
}

/// `im::HashMap::get`: the value stored under `key`, if any.
#[verifier::external_body]
pub(crate) fn im_get(map: &im::HashMap<u64, u64>, key: &u64) -> (r: Option<u64>)
    ensures
        r == (if im_contents(*map).contains_key(*key) {
            Some(im_contents(*map)[*key])
        } else {
            None
        }),
{
    map.get(key).copied()
}

/// `im::HashMap::contains_key`.
#[verifier::external_body]
pub(crate) fn im_contains_key(map: &im::HashMap<u64, u64>, key: &u64) -> (r: bool)
    ensures
        r == im_contents(*map).contains_key(*key),
{
    map.contains_key(key)
}

/// `im::HashMap::insert`: stores `value` under `key`, returning the value it
/// replaced.
#[verifier::external_body]
pub(crate) fn im_insert(map: &mut im::HashMap<u64, u64>, key: u64, value: u64) -> (r: Option<u64>)
    ensures
        im_contents(*final(map)) == im_contents(*old(map)).insert(key, value),
        r == (if im_contents(*old(map)).contains_key(key) {
            Some(im_contents(*old(map))[key])
        } else {
            None
        }),
{
    map.insert(key, value)
}

/// `im::HashMap::remove_with_key`: removes `key`, returning the pair it held.
#[verifier::external_body]
pub(crate) fn im_remove_with_key(map: &mut im::HashMap<u64, u64>, key: &u64) -> (r: Option<
    (u64, u64),
>)
    ensures
        im_contents(*final(map)) == im_contents(*old(map)).remove(*key),
        r == (if im_contents(*old(map)).contains_key(*key) {
            Some((*key, im_contents(*old(map))[*key]))
        } else {
            None
        }),
{
    map.remove_with_key(key)
}

/// `Clone` of `im::HashMap`: a map with the same contents.
#[verifier::external_body]
pub(crate) fn im_clone(map: &im::HashMap<u64, u64>) -> (r: im::HashMap<u64, u64>)
    ensures
        im_contents(r) == im_contents(*map),
{
    map.clone()
}

/// `PartialEq` of `im::HashMap`: whether both maps hold the same pairs.
#[verifier::external_body]
pub(crate) fn im_eq(a: &im::HashMap<u64, u64>, b: &im::HashMap<u64, u64>) -> (r: bool)
    ensures
        r == (im_contents(*a) == im_contents(*b)),
{
    a == b
}

/// `im::HashMap::relative_complement`: the pairs of `a` whose keys `b` lacks.
#[verifier::external_body]
pub(crate) fn im_relative_complement(a: im::HashMap<u64, u64>, b: im::HashMap<u64, u64>) -> (r:
    im::HashMap<u64, u64>)
    ensures
        im_contents(r) == im_contents(a).remove_keys(im_contents(b).dom()),
{
    a.relative_complement(b)
}

/// The keys of an `im::HashMap`, each once, in the map's iteration order.
#[verifier::external_body]
pub(crate) fn im_into_keys(map: im::HashMap<u64, u64>) -> (r: Vec<u64>)
    ensures
        r@.no_duplicates(),
        r@.to_set() == im_contents(map).dom(),
{
    map.into_iter().map(|(key, _)| key).collect()
}

} // verus!
