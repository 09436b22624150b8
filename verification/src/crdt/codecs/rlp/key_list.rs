//! The storage form of a key set: one list of the live keys in slot order.

use vstd::prelude::*;

use super::{
    StorageError,
    lemma_be_len,
    lemma_list_prefix,
    lemma_pow256_bounds,
    lemma_uint_prefix,
    length_of_length,
    put_list_header,
    put_u64,
    rlp_list_header,
    rlp_list_split,
    rlp_u64_split,
    rlp_uint,
    rlp_uints,
    take_list,
    take_u64,
    u64_length,
};
use crate::collections::delta_set::DeltaSet;

verus! {

/// The stored form of some keys: a list of their RLP.
pub open spec fn spec_encode(keys: Seq<u64>) -> Seq<u8> {
    rlp_list_header(rlp_uints(keys).len()) + rlp_uints(keys)
}

/// The keys that a run of RLP numbers holds, as the reader reads them until
/// the input is used up; `None` if a read fails.
pub open spec fn read_keys(p: Seq<u8>) -> Option<Seq<u64>>
    decreases p.len(),
{
    if p.len() == 0 {
        Some(Seq::empty())
    } else {
        match rlp_u64_split(p) {
            None => None,
            Some((k, next)) => if next.len() < p.len() {
                match read_keys(next) {
                    Some(ks) => Some(seq![k] + ks),
                    None => None,
                }
            } else {
                None
            },
        }
    }
}

/// What decoding a stored key list gives: the keys and the input after the
/// list; `Err(None)` for malformed RLP, and `Err(Some(duplicate))` when a
/// key occurs twice.
pub open spec fn spec_decode(s: Seq<u8>, duplicate: &'static str) -> Result<
    (Seq<u64>, Seq<u8>),
    Option<&'static str>,
> {
    match rlp_list_split(s) {
        None => Err(None),
        Some((p, rest)) => match read_keys(p) {
            None => Err(None),
            Some(keys) => if keys.no_duplicates() {
                Ok((keys, rest))
            } else {
                Err(Some(duplicate))
            },
        },
    }
}

/// A decoded key list as a model: the keys of its slots and the rest of
/// the input.
pub open spec fn decoded(r: Result<(DeltaSet, &[u8]), StorageError>) -> Result<
    (Seq<Option<u64>>, Seq<u8>),
    Option<&'static str>,
> {
    match r {
        Ok((set, rest)) => Ok((set@.slots, rest@)),
        Err(StorageError::Rlp(_)) => Err(None),
        Err(StorageError::Invalid(m)) => Err(Some(m)),
    }
}

/// The slots that a list of keys fills: one per key, in order.
pub open spec fn slots_of(keys: Seq<u64>) -> Seq<Option<u64>> {
    keys.map_values(|k: u64| Some(k))
}

/// The RLP of some keys followed by one more key.
pub proof fn lemma_rlp_uints_push(keys: Seq<u64>, k: u64)
    ensures
        rlp_uints(keys.push(k)) == rlp_uints(keys) + rlp_uint(k as nat),
    decreases keys.len(),
{
    if keys.len() == 0 {
        assert(keys.push(k).skip(1) =~= Seq::<u64>::empty());
        assert(rlp_uints(Seq::<u64>::empty()) == Seq::<u8>::empty());
        assert(keys.push(k)[0] == k);
        assert(rlp_uints(keys.push(k)) == rlp_uint(k as nat) + Seq::<u8>::empty());
        assert(rlp_uints(keys.push(k)) =~= rlp_uints(keys) + rlp_uint(k as nat));
    } else {
        assert(keys.push(k).skip(1) =~= keys.skip(1).push(k));
        assert(keys.push(k)[0] == keys[0]);
        lemma_rlp_uints_push(keys.skip(1), k);
        assert(rlp_uints(keys.push(k)) == rlp_uint(keys[0] as nat) + rlp_uints(keys.skip(1).push(k)));
        assert(rlp_uints(keys.push(k)) =~= rlp_uints(keys) + rlp_uint(k as nat));
    }
}

/// The RLP of some keys is at most 9 bytes per key, and empty exactly when
/// there are no keys.
pub proof fn lemma_rlp_uints_len(keys: Seq<u64>)
    ensures
        rlp_uints(keys).len() <= 9 * keys.len(),
        rlp_uints(keys).len() == 0 <==> keys.len() == 0,
    decreases keys.len(),
{
    if keys.len() > 0 {
        lemma_pow256_bounds();
        lemma_be_len(keys[0] as nat, 8);
        lemma_rlp_uints_len(keys.skip(1));
    }
}

/// The size of the RLP of `keys`.
fn keys_payload_length(keys: &Vec<u64>) -> (r: usize)
    requires
        9 * keys@.len() <= usize::MAX,
    ensures
        r == rlp_uints(keys@).len(),
{
    let mut total: usize = 0;
    let mut i: usize = 0;
    while i < keys.len()
        invariant
            i <= keys@.len(),
            9 * keys@.len() <= usize::MAX,
            total == rlp_uints(keys@.take(i as int)).len(),
        decreases keys.len() - i,
    {
        proof {
            lemma_rlp_uints_push(keys@.take(i as int), keys@[i as int]);
            assert(keys@.take(i + 1) =~= keys@.take(i as int).push(keys@[i as int]));
            lemma_rlp_uints_len(keys@.take(i + 1));
        }
        total = total + u64_length(keys[i]);
        i = i + 1;
    }
    assert(keys@.take(keys@.len() as int) =~= keys@);
    total
}

/// Appends the stored form of `keys` to `out`.
pub(crate) fn encode_keys(keys: &Vec<u64>, out: &mut Vec<u8>)
    requires
        9 * keys@.len() <= usize::MAX,
    ensures
        final(out)@ == old(out)@ + spec_encode(keys@),
{
    let payload_length = keys_payload_length(keys);
    put_list_header(out, payload_length);
    let ghost start = out@;
    let mut i: usize = 0;
    while i < keys.len()
        invariant
            i <= keys@.len(),
            out@ == start + rlp_uints(keys@.take(i as int)),
        decreases keys.len() - i,
    {
        proof {
            lemma_rlp_uints_push(keys@.take(i as int), keys@[i as int]);
            assert(keys@.take(i + 1) =~= keys@.take(i as int).push(keys@[i as int]));
        }
        put_u64(out, keys[i]);
        i = i + 1;
    }
    assert(keys@.take(keys@.len() as int) =~= keys@);
}

/// The size of the stored form of `keys`.
pub(crate) fn keys_length(keys: &Vec<u64>) -> (r: usize)
    requires
        9 * keys@.len() <= usize::MAX - 9,
    ensures
        r == spec_encode(keys@).len(),
{
    let payload_length = keys_payload_length(keys);
    proof {
        lemma_rlp_uints_len(keys@);
    }
    payload_length + length_of_length(payload_length)
}

/// `s` starts with the stored form of `keys`, and `rest` follows it.
pub open spec fn stored(s: Seq<u8>, keys: Seq<u64>, rest: Seq<u8>) -> bool {
    s == spec_encode(keys) + rest
}

/// Reads a stored key list from the front of `input`, as a clean compact
/// set; a key that occurs twice is refused with `duplicate`. Decoding what
/// `encode_keys` wrote gives back the keys.
pub(crate) fn decode_keys<'a>(input: &'a [u8], duplicate: &'static str) -> (r: Result<
    (DeltaSet, &'a [u8]),
    StorageError,
>)
    ensures
        decoded(r) == match spec_decode(input@, duplicate) {
            Ok((keys, rest)) => Ok((slots_of(keys), rest)),
            Err(e) => Err(e),
        },
        r matches Ok((set, _)) ==> set.wf() && set@.committed == set@.index,
        forall|keys: Seq<u64>, rest: Seq<u8>| #[trigger]
            stored(input@, keys, rest) && keys.no_duplicates() ==> (r matches Ok((set, tail))
                && set@.slots == slots_of(keys) && tail@ == rest),
        r matches Ok((set, tail)) ==> exists|keys: Seq<u64>|
            #![trigger spec_encode(keys)]
            input@ == spec_encode(keys) + tail@ && keys.no_duplicates() && set@.slots == slots_of(
                keys,
            ),
        r == Err::<(DeltaSet, &'a [u8]), StorageError>(StorageError::Invalid(duplicate))
            ==> exists|keys: Seq<u64>, rest: Seq<u8>|
            #![trigger spec_encode(keys), stored(input@, keys, rest)]
            stored(input@, keys, rest) && !keys.no_duplicates(),
{
    proof {
        lemma_pow256_bounds();
        assert(vstd::slice::spec_slice_len(input) == input@.len());
    }
    let (items, rest) = match take_list(input) {
        Ok(split) => split,
        Err(e) => {
            proof {
                assert forall|keys: Seq<u64>, rest0: Seq<u8>| !#[trigger] stored(
                    input@,
                    keys,
                    rest0,
                ) by {
                    if stored(input@, keys, rest0) {
                        assert(input@ == rlp_list_header(rlp_uints(keys).len()) + rlp_uints(keys)
                            + rest0);
                    }
                }
            }
            return Err(StorageError::Rlp(e));
        },
    };
    proof {
        assert forall|keys: Seq<u64>, rest0: Seq<u8>| #[trigger]
            stored(input@, keys, rest0) implies items@ == rlp_uints(keys) && rest@ == rest0 by {
            lemma_list_prefix(items@, rest@, rlp_uints(keys), rest0);
        }
    }
    let mut payload = items;
    let mut entries: Vec<u64> = Vec::new();
    proof {
        assert(items@ =~= rlp_uints(entries@) + payload@);
        assert(entries@ + Seq::<u64>::empty() =~= entries@);
        match read_keys(payload@) {
            Some(ks) => {
                assert(entries@ + ks =~= ks);
            },
            None => {},
        }
        assert forall|keys: Seq<u64>, rest0: Seq<u8>| #[trigger]
            stored(input@, keys, rest0) implies entries@.len() <= keys.len() && entries@
                == keys.take(entries@.len() as int) && payload@ == rlp_uints(
                keys.skip(entries@.len() as int),
            ) by {
            assert(keys.take(0) =~= Seq::<u64>::empty());
            assert(keys.skip(0) =~= keys);
        }
    }
    while !payload.is_empty()
        invariant
            payload@.len() <= items@.len(),
            rlp_list_split(input@) == Some((items@, rest@)),
            read_keys(items@) == match read_keys(payload@) {
                Some(ks) => Some(entries@ + ks),
                None => None,
            },
            input@ == rlp_list_header(items@.len()) + items@ + rest@,
            items@ == rlp_uints(entries@) + payload@,
            forall|keys: Seq<u64>, rest0: Seq<u8>| #[trigger]
                stored(input@, keys, rest0) ==> entries@.len() <= keys.len() && entries@
                    == keys.take(entries@.len() as int) && payload@ == rlp_uints(
                    keys.skip(entries@.len() as int),
                ),
        decreases payload@.len(),
    {
        let ghost n = entries@.len() as int;
        let (k, next) = match take_u64(payload) {
            Ok(split) => split,
            Err(e) => {
                proof {
                    assert forall|keys: Seq<u64>, rest0: Seq<u8>| !#[trigger] stored(
                        input@,
                        keys,
                        rest0,
                    ) by {
                        if stored(input@, keys, rest0) {
                            lemma_pow256_bounds();
                            lemma_rlp_uints_len(keys.skip(n));
                            assert(payload@ == rlp_uint(keys[n] as nat) + rlp_uints(
                                keys.skip(n + 1),
                            )) by {
                                assert(keys.skip(n).skip(1) =~= keys.skip(n + 1));
                            }
                        }
                    }
                }
                return Err(StorageError::Rlp(e));
            },
        };
        proof {
            lemma_pow256_bounds();
            lemma_be_len(k as nat, 8);
            assert(next@.len() < payload@.len());
            assert forall|keys: Seq<u64>, rest0: Seq<u8>| #[trigger]
                stored(input@, keys, rest0) implies (entries@.push(k)).len() <= keys.len()
                && entries@.push(k) == keys.take(n + 1) && next@ == rlp_uints(keys.skip(n + 1)) by {
                lemma_rlp_uints_len(keys.skip(n));
                assert(keys.skip(n).skip(1) =~= keys.skip(n + 1));
                lemma_be_len(keys[n] as nat, 8);
                lemma_uint_prefix(k as nat, keys[n] as nat, next@, rlp_uints(keys.skip(n + 1)));
                assert(entries@.push(k) =~= keys.take(n + 1));
            }
            assert((entries@ + seq![k]) =~= entries@.push(k));
            match read_keys(next@) {
                Some(ks) => {
                    assert(entries@ + (seq![k] + ks) =~= entries@.push(k) + ks);
                },
                None => {},
            }
        }
        proof {
            lemma_rlp_uints_push(entries@, k);
            assert(items@ =~= rlp_uints(entries@.push(k)) + next@);
        }
        entries.push(k);
        payload = next;
    }
    proof {
        assert(entries@ + Seq::<u64>::empty() =~= entries@);
        assert(items@ =~= rlp_uints(entries@));
        assert(input@ =~= spec_encode(entries@) + rest@);
        assert(stored(input@, entries@, rest@));
        assert forall|keys: Seq<u64>, rest0: Seq<u8>| #[trigger]
            stored(input@, keys, rest0) implies entries@ == keys by {
            lemma_rlp_uints_len(keys.skip(entries@.len() as int));
            assert(keys.take(keys.len() as int) =~= keys);
        }
    }
    match DeltaSet::try_from_elements(entries) {
        Some(set) => Ok((set, rest)),
        None => Err(StorageError::Invalid(duplicate)),
    }
}

} // verus!
