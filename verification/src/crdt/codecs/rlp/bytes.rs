//! The storage form of a byte string value: a list of the presence flag and
//! the bytes (empty when there are none).

use vstd::prelude::*;

use super::{
    StorageError,
    bytes_length,
    lemma_be_len,
    lemma_list_prefix,
    lemma_pow256_bounds,
    lemma_string_prefix,
    lemma_uint_prefix,
    length_of_length,
    pow256,
    put_bytes,
    put_list_header,
    put_u8,
    rlp_list_header,
    rlp_list_split,
    rlp_string,
    rlp_string_split,
    rlp_u8_split,
    rlp_uint,
    take_bytes,
    take_list,
    take_u8,
    u8_length,
};
use crate::crdt::types::bytes::Bytes;

verus! {

/// The bytes that are stored for a value: its bytes, or none when it has none.
pub open spec fn stored_bytes(x: Option<Seq<u8>>) -> Seq<u8> {
    match x {
        Some(v) => v,
        None => Seq::empty(),
    }
}

/// The presence flag of a value: 1 when it holds bytes.
pub open spec fn presence(x: Option<Seq<u8>>) -> nat {
    if x is Some {
        1
    } else {
        0
    }
}

/// The items of the stored list: the presence flag and the bytes.
pub open spec fn payload(x: Option<Seq<u8>>) -> Seq<u8> {
    rlp_uint(presence(x)) + rlp_string(stored_bytes(x))
}

/// The stored form of a value.
pub open spec fn spec_encode(x: Option<Seq<u8>>) -> Seq<u8> {
    rlp_list_header(payload(x).len()) + payload(x)
}

/// What `decode` makes of `s`: the value and the input after its list;
/// `Err(None)` for malformed RLP, `Err(Some(..))` for invalid items.
pub open spec fn spec_decode(s: Seq<u8>) -> Result<(Option<Seq<u8>>, Seq<u8>), Option<&'static str>> {
    match rlp_list_split(s) {
        None => Err(None),
        Some((p, rest)) => match rlp_u8_split(p) {
            None => Err(None),
            Some((is_some, p1)) => match rlp_string_split(p1) {
                None => Err(None),
                Some((value, p2)) => if is_some > 1 || p2.len() != 0 {
                    Err(Some("invalid Bytes encoding"))
                } else {
                    Ok((if is_some == 1 { Some(value) } else { None }, rest))
                },
            },
        },
    }
}

/// A decoding outcome as a model: the value's view and the rest of the
/// input; or `None` for malformed RLP and the message for invalid items.
pub open spec fn bytes_outcome(r: Result<(Bytes, &[u8]), StorageError>) -> Result<
    (Option<Seq<u8>>, Seq<u8>),
    Option<&'static str>,
> {
    match r {
        Ok((v, rest)) => Ok((v@, rest@)),
        Err(StorageError::Rlp(_)) => Err(None),
        Err(StorageError::Invalid(m)) => Err(Some(m)),
    }
}

/// The stored form's size is that of its parts.
proof fn lemma_sizes(x: Option<Seq<u8>>)
    ensures
        payload(x).len() == rlp_uint(presence(x)).len() + rlp_string(stored_bytes(x)).len(),
        rlp_uint(presence(x)).len() == 1,
        spec_encode(x).len() == rlp_list_header(payload(x).len()).len() + payload(x).len(),
{
}

/// Appends the stored form of `value` to `out`.
pub fn encode(value: &Bytes, out: &mut Vec<u8>)
    requires
        spec_encode(value@).len() <= usize::MAX,
    ensures
        final(out)@ == old(out)@ + spec_encode(value@),
{
    let is_some: u8 = match &value.delta {
        Some(_) => 1,
        None => 0,
    };
    let empty: Vec<u8> = Vec::new();
    let bytes: &[u8] = match &value.delta {
        Some(v) => v.as_slice(),
        None => empty.as_slice(),
    };
    proof {
        lemma_sizes(value@);
    }
    let payload_length = u8_length(is_some) + bytes_length(bytes);
    let ghost start = out@;
    put_list_header(out, payload_length);
    put_u8(out, is_some);
    put_bytes(out, bytes);
    proof {
        assert(out@ =~= start + spec_encode(value@));
    }
}

/// The size of the stored form of `value`.
pub fn length(value: &Bytes) -> (r: usize)
    requires
        spec_encode(value@).len() <= usize::MAX,
    ensures
        r == spec_encode(value@).len(),
{
    let is_some: u8 = match &value.delta {
        Some(_) => 1,
        None => 0,
    };
    let empty: Vec<u8> = Vec::new();
    let bytes: &[u8] = match &value.delta {
        Some(v) => v.as_slice(),
        None => empty.as_slice(),
    };
    proof {
        lemma_sizes(value@);
    }
    let payload_length = u8_length(is_some) + bytes_length(bytes);
    payload_length + length_of_length(payload_length)
}

/// A stored list of the two items: the presence flag and the bytes, whatever
/// they hold.
pub open spec fn stored_items(is_some: u8, bytes: Seq<u8>) -> Seq<u8> {
    let p = rlp_uint(is_some as nat) + rlp_string(bytes);
    rlp_list_header(p.len()) + p
}

/// `s` starts with the stored form of `x`, and `rest` follows it.
pub open spec fn stored(s: Seq<u8>, x: Option<Seq<u8>>, rest: Seq<u8>) -> bool {
    s == spec_encode(x) + rest
}

/// Reads a stored value from the front of `input`, giving it and the input
/// after it. Decoding what `encode` wrote gives the value back.
pub fn decode(input: &[u8]) -> (r: Result<(Bytes, &[u8]), StorageError>)
    ensures
        bytes_outcome(r) == spec_decode(input@),
        forall|x: Option<Seq<u8>>, rest: Seq<u8>| #[trigger]
            stored(input@, x, rest) ==> (r matches Ok((y, tail)) && y@ == x && tail@ == rest),
        r matches Ok((y, tail)) ==> exists|is_some: u8, bytes: Seq<u8>|
            #![trigger stored_items(is_some, bytes)]
            {
                &&& input@ == stored_items(is_some, bytes) + tail@
                &&& is_some <= 1
                &&& y@ == if is_some == 1 {
                    Some(bytes)
                } else {
                    None
                }
            },
{
    proof {
        lemma_pow256_bounds();
        assert(vstd::slice::spec_slice_len(input) == input@.len());
    }
    let (items, rest) = match take_list(input) {
        Ok(split) => split,
        Err(e) => {
            proof {
                assert forall|x: Option<Seq<u8>>, rest0: Seq<u8>|
                    !#[trigger] stored(input@, x, rest0) by {
                    if stored(input@, x, rest0) {
                        assert(input@ == rlp_list_header(payload(x).len()) + payload(x) + rest0);
                    }
                }
            }
            return Err(StorageError::Rlp(e));
        },
    };
    proof {
        assert forall|x: Option<Seq<u8>>, rest0: Seq<u8>| #[trigger]
            stored(input@, x, rest0) implies items@ == payload(x) && rest@ == rest0 by {
            lemma_sizes(x);
            lemma_list_prefix(items@, rest@, payload(x), rest0);
        }
    }
    let (is_some, p1) = match take_u8(items) {
        Ok(split) => split,
        Err(e) => {
            proof {
                assert forall|x: Option<Seq<u8>>, rest0: Seq<u8>|
                    !#[trigger] stored(input@, x, rest0) by {
                    if stored(input@, x, rest0) {
                        let flag: u8 = if x is Some { 1 } else { 0 };
                        assert(items@ == rlp_uint(flag as nat) + rlp_string(stored_bytes(x)));
                    }
                }
            }
            return Err(StorageError::Rlp(e));
        },
    };
    proof {
        assert forall|x: Option<Seq<u8>>, rest0: Seq<u8>| #[trigger]
            stored(input@, x, rest0) implies is_some == presence(x) && p1@ == rlp_string(
            stored_bytes(x),
        ) by {
            lemma_uint_prefix(is_some as nat, presence(x), p1@, rlp_string(stored_bytes(x)));
        }
    }
    let (value, p2) = match take_bytes(p1) {
        Ok(split) => split,
        Err(e) => {
            proof {
                assert forall|x: Option<Seq<u8>>, rest0: Seq<u8>|
                    !#[trigger] stored(input@, x, rest0) by {
                    if stored(input@, x, rest0) {
                        assert(p1@ == rlp_string(stored_bytes(x)) + Seq::<u8>::empty());
                    }
                }
            }
            return Err(StorageError::Rlp(e));
        },
    };
    proof {
        assert forall|x: Option<Seq<u8>>, rest0: Seq<u8>| #[trigger]
            stored(input@, x, rest0) implies value@ == stored_bytes(x) && p2@.len() == 0 by {
            assert(p1@ == rlp_string(stored_bytes(x)) + Seq::<u8>::empty());
            lemma_string_prefix(value@, p2@, stored_bytes(x), Seq::<u8>::empty());
        }
    }
    if is_some > 1 || !p2.is_empty() {
        return Err(StorageError::Invalid("invalid Bytes encoding"));
    }
    let delta = if is_some == 1 {
        Some(vstd::slice::slice_to_vec(value))
    } else {
        None
    };
    proof {
        assert(p2@ =~= Seq::<u8>::empty());
        assert(items@ =~= rlp_uint(is_some as nat) + rlp_string(value@));
        assert(input@ =~= stored_items(is_some, value@) + rest@);
    }
    Ok((Bytes { delta }, rest))
}

} // verus!
