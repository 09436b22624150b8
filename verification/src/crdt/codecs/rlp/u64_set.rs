//! The storage form of a key set: a list of its live keys in slot order;
//! pending operations are not stored.

use vstd::prelude::*;

use super::StorageError;
use super::key_list::{self, decode_keys, encode_keys, keys_length, slots_of};
use crate::collections::delta_set::{lemma_live_in_order_unique, lemma_wf_slots_unique, live_in_order};
use crate::crdt::types::u64_set::U64Set;

verus! {

/// The stored form of a set.
pub open spec fn spec_encode(x: U64Set) -> Seq<u8> {
    key_list::spec_encode(live_in_order(x.entries@.slots))
}

/// A decoded set as a model: its slots and the rest of the input.
pub open spec fn decoded(r: Result<(U64Set, &[u8]), StorageError>) -> Result<
    (Seq<Option<u64>>, Seq<u8>),
    Option<&'static str>,
> {
    match r {
        Ok((set, rest)) => Ok((set.entries@.slots, rest@)),
        Err(StorageError::Rlp(_)) => Err(None),
        Err(StorageError::Invalid(m)) => Err(Some(m)),
    }
}

/// `s` starts with the stored form of `x`, and `rest` follows it.
pub open spec fn stored(s: Seq<u8>, x: U64Set, rest: Seq<u8>) -> bool {
    s == spec_encode(x) + rest
}

/// Appends the stored form of `value` to `out`.
pub fn encode(value: &U64Set, out: &mut Vec<u8>)
    requires
        9 * live_in_order(value.entries@.slots).len() <= usize::MAX,
    ensures
        final(out)@ == old(out)@ + spec_encode(*value),
{
    let keys = value.entries.iter_live();
    encode_keys(&keys, out)
}

/// The size of the stored form of `value`.
pub fn length(value: &U64Set) -> (r: usize)
    requires
        9 * live_in_order(value.entries@.slots).len() <= usize::MAX - 9,
    ensures
        r == spec_encode(*value).len(),
{
    let keys = value.entries.iter_live();
    keys_length(&keys)
}

/// Reads a stored set from the front of `input`, as a clean compact set
/// with no pending operations. Decoding what `encode` wrote gives back the
/// live keys, in order, without the empty slots.
pub fn decode(input: &[u8]) -> (r: Result<(U64Set, &[u8]), StorageError>)
    ensures
        decoded(r) == match key_list::spec_decode(input@, "duplicate U64Set entry") {
            Ok((keys, rest)) => Ok((slots_of(keys), rest)),
            Err(e) => Err(e),
        },
        r matches Ok((set, _)) ==> set.entries.wf() && set.entries@.committed
            == set.entries@.index && set.delta is None,
        forall|x: U64Set, rest: Seq<u8>| #[trigger]
            stored(input@, x, rest) && x.entries.wf() ==> (r matches Ok((y, tail))
                && y.entries@.slots == slots_of(live_in_order(x.entries@.slots)) && y.delta is None
                && tail@ == rest),
        r matches Ok((y, tail)) ==> exists|keys: Seq<u64>|
            #![trigger key_list::spec_encode(keys)]
            input@ == key_list::spec_encode(keys) + tail@ && keys.no_duplicates()
                && y.entries@.slots == slots_of(keys),
        r == Err::<(U64Set, &[u8]), StorageError>(StorageError::Invalid("duplicate U64Set entry"))
            ==> exists|keys: Seq<u64>, rest: Seq<u8>|
            #![trigger key_list::spec_encode(keys), key_list::stored(input@, keys, rest)]
            key_list::stored(input@, keys, rest) && !keys.no_duplicates(),
{
    let result = decode_keys(input, "duplicate U64Set entry");
    proof {
        assert forall|x: U64Set, rest: Seq<u8>| #[trigger]
            stored(input@, x, rest) implies key_list::stored(
            input@,
            live_in_order(x.entries@.slots),
            rest,
        ) && (x.entries.wf() ==> live_in_order(x.entries@.slots).no_duplicates()) by {
            if x.entries.wf() {
                lemma_wf_slots_unique(x.entries@);
                lemma_live_in_order_unique(x.entries@.slots);
            }
        }
    }
    match result {
        Ok((entries, rest)) => Ok((U64Set { entries, delta: None }, rest)),
        Err(e) => Err(e),
    }
}

} // verus!
