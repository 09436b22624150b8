//! The storage form of a signed counter: a list of the value flag, the
//! zigzag-coded value, the limits flag and the zigzag-coded limits.

use vstd::prelude::*;

use super::{
    StorageError,
    lemma_be_len,
    lemma_list_prefix,
    lemma_pow256_bounds,
    lemma_uint_prefix,
    length_of_length,
    pow256,
    put_list_header,
    put_u64,
    put_u8,
    rlp_list_header,
    rlp_list_split,
    rlp_u64_split,
    rlp_u8_split,
    rlp_uint,
    take_list,
    take_u64,
    take_u8,
    u64_length,
    u8_length,
};
use crate::crdt::types::int64::I64;

verus! {

/// The zigzag code of a signed number: `2x` for `x >= 0` and `-2x - 1`
/// otherwise, so that small magnitudes get small codes.
pub open spec fn zigzag(x: i64) -> u64 {
    if x >= 0 {
        (2 * x) as u64
    } else {
        (-2 * x - 1) as u64
    }
}

/// The signed number whose zigzag code is `v`.
pub open spec fn unzigzag(v: u64) -> i64 {
    if v % 2 == 0 {
        (v / 2) as i64
    } else {
        (-(v / 2) - 1) as i64
    }
}

/// The items of the stored list: the value flag (always 1), the value, the
/// limits flag (always 1) and both limits.
pub open spec fn payload(x: I64) -> Seq<u8> {
    rlp_uint(1) + rlp_uint(zigzag(x.value) as nat) + rlp_uint(1) + rlp_uint(
        zigzag(x.limits.0) as nat,
    ) + rlp_uint(zigzag(x.limits.1) as nat)
}

/// The stored form of a counter; its pending delta is left out.
pub open spec fn spec_encode(x: I64) -> Seq<u8> {
    rlp_list_header(payload(x).len()) + payload(x)
}

/// The counter as stored: the committed value and limits, no delta.
pub open spec fn committed(x: I64) -> I64 {
    I64 { delta: 0, ..x }
}

/// What `decode` makes of `s`: the counter and the input after its list;
/// `Err(None)` for malformed RLP, `Err(Some(..))` for invalid items.
pub open spec fn spec_decode(s: Seq<u8>) -> Result<(I64, Seq<u8>), Option<&'static str>> {
    match rlp_list_split(s) {
        None => Err(None),
        Some((p, rest)) => match rlp_u8_split(p) {
            None => Err(None),
            Some((has_value, p1)) => match rlp_u64_split(p1) {
                None => Err(None),
                Some((value, p2)) => match rlp_u8_split(p2) {
                    None => Err(None),
                    Some((has_limits, p3)) => match rlp_u64_split(p3) {
                        None => Err(None),
                        Some((lower, p4)) => match rlp_u64_split(p4) {
                            None => Err(None),
                            Some((upper, p5)) => if has_value > 1 || has_limits > 1 || p5.len()
                                != 0 {
                                Err(Some("invalid I64 encoding"))
                            } else {
                                Ok(
                                    (
                                        I64 {
                                            value: if has_value == 1 {
                                                unzigzag(value)
                                            } else {
                                                0
                                            },
                                            delta: 0,
                                            limits: if has_limits == 1 {
                                                (unzigzag(lower), unzigzag(upper))
                                            } else {
                                                (i64::MIN, i64::MAX)
                                            },
                                        },
                                        rest,
                                    ),
                                )
                            },
                        },
                    },
                },
            },
        },
    }
}

/// The zigzag code, computed with shifts.
fn zigzag_code(value: i64) -> (r: u64)
    ensures
        r == zigzag(value),
{
    let r = ((value as u64) << 1) ^ ((value >> 63) as u64);
    assert(r == zigzag(value)) by (bit_vector)
        requires
            r == ((value as u64) << 1) ^ ((value >> 63) as u64),
    ;
    r
}

/// The number of a zigzag code, computed with shifts.
fn unzigzag_code(code: u64) -> (r: i64)
    ensures
        r == unzigzag(code),
{
    let low = (code & 1) as i64;
    assert(low == 0 || low == 1) by (bit_vector)
        requires
            low == (code & 1) as i64,
    ;
    let mask: i64 = 0 - low;
    let r = ((code >> 1) as i64) ^ mask;
    assert(r == unzigzag(code)) by (bit_vector)
        requires
            low == (code & 1) as i64,
            mask == (if low == 1 { -1i64 } else { 0i64 }),
            r == ((code >> 1) as i64) ^ mask,
    ;
    r
}

/// Decoding a zigzag code gives the number back.
pub proof fn lemma_zigzag_round_trip(x: i64)
    ensures
        unzigzag(zigzag(x)) == x,
{
}

/// Appends the stored form of `value` to `out`.
pub fn encode(value: &I64, out: &mut Vec<u8>)
    ensures
        final(out)@ == old(out)@ + spec_encode(*value),
{
    let has_value: u8 = 1;
    let code = zigzag_code(value.value);
    let has_limits: u8 = 1;
    let lower = zigzag_code(value.limits.0);
    let upper = zigzag_code(value.limits.1);
    let payload_length = u8_length(has_value) + u64_length(code) + u8_length(has_limits)
        + u64_length(lower) + u64_length(upper);
    let ghost start = out@;
    put_list_header(out, payload_length);
    put_u8(out, has_value);
    put_u64(out, code);
    put_u8(out, has_limits);
    put_u64(out, lower);
    put_u64(out, upper);
    proof {
        assert(payload(*value).len() == payload_length);
        assert(out@ =~= start + spec_encode(*value));
    }
}

/// The size of the stored form of `value`.
pub fn length(value: &I64) -> (r: usize)
    ensures
        r == spec_encode(*value).len(),
{
    let has_value: u8 = 1;
    let code = zigzag_code(value.value);
    let has_limits: u8 = 1;
    let lower = zigzag_code(value.limits.0);
    let upper = zigzag_code(value.limits.1);
    let payload_length = u8_length(has_value) + u64_length(code) + u8_length(has_limits)
        + u64_length(lower) + u64_length(upper);
    assert(payload(*value).len() == payload_length);
    payload_length + length_of_length(payload_length)
}

/// A stored list of the five items: the value flag, the value, the limits
/// flag and the two limits (numbers in their zigzag code), whatever they hold.
pub open spec fn stored_items(has_value: u8, value: i64, has_limits: u8, lower: i64, upper: i64) -> Seq<u8> {
    let p = rlp_uint(has_value as nat) + rlp_uint(zigzag(value) as nat) + rlp_uint(
        has_limits as nat,
    ) + rlp_uint(zigzag(lower) as nat) + rlp_uint(zigzag(upper) as nat);
    rlp_list_header(p.len()) + p
}

/// Every code is the zigzag code of the number it decodes to.
pub proof fn lemma_unzigzag_round_trip(v: u64)
    ensures
        zigzag(unzigzag(v)) == v,
{
}

/// An input read item by item into a list of five items is a stored list of
/// those items (the numbers decoded from their codes) and the rest.
proof fn lemma_stored_items_read(
    input: Seq<u8>,
    items: Seq<u8>,
    rest: Seq<u8>,
    has_value: u8,
    p1: Seq<u8>,
    value: u64,
    p2: Seq<u8>,
    has_limits: u8,
    p3: Seq<u8>,
    lower: u64,
    p4: Seq<u8>,
    upper: u64,
    p5: Seq<u8>,
)
    requires
        input == rlp_list_header(items.len()) + items + rest,
        items == rlp_uint(has_value as nat) + p1,
        p1 == rlp_uint(value as nat) + p2,
        p2 == rlp_uint(has_limits as nat) + p3,
        p3 == rlp_uint(lower as nat) + p4,
        p4 == rlp_uint(upper as nat) + p5,
        p5.len() == 0,
    ensures
        input == stored_items(has_value, unzigzag(value), has_limits, unzigzag(lower), unzigzag(upper))
            + rest,
{
    lemma_unzigzag_round_trip(value);
    lemma_unzigzag_round_trip(lower);
    lemma_unzigzag_round_trip(upper);
    assert(items =~= rlp_uint(has_value as nat) + rlp_uint(value as nat) + rlp_uint(
        has_limits as nat,
    ) + rlp_uint(lower as nat) + rlp_uint(upper as nat));
}

/// `s` starts with the stored form of `x`, and `rest` follows it.
pub open spec fn stored(s: Seq<u8>, x: I64, rest: Seq<u8>) -> bool {
    s == spec_encode(x) + rest
}

/// The items of the stored list after its first `k` items.
pub open spec fn items_after(x: I64, k: int) -> Seq<u8> {
    if k <= 0 {
        payload(x)
    } else if k == 1 {
        rlp_uint(zigzag(x.value) as nat) + rlp_uint(1) + rlp_uint(zigzag(x.limits.0) as nat)
            + rlp_uint(zigzag(x.limits.1) as nat)
    } else if k == 2 {
        rlp_uint(1) + rlp_uint(zigzag(x.limits.0) as nat) + rlp_uint(zigzag(x.limits.1) as nat)
    } else if k == 3 {
        rlp_uint(zigzag(x.limits.0) as nat) + rlp_uint(zigzag(x.limits.1) as nat)
    } else if k == 4 {
        rlp_uint(zigzag(x.limits.1) as nat)
    } else {
        Seq::empty()
    }
}

/// The `k`-th item of the stored list, as a number.
pub open spec fn item(x: I64, k: int) -> nat {
    if k == 0 || k == 2 {
        1
    } else if k == 1 {
        zigzag(x.value) as nat
    } else if k == 3 {
        zigzag(x.limits.0) as nat
    } else {
        zigzag(x.limits.1) as nat
    }
}

/// Each suffix of the items is the next item and the suffix after it.
pub proof fn lemma_items(x: I64)
    ensures
        forall|k: int| 0 <= k < 5 ==> #[trigger] items_after(x, k) == rlp_uint(item(x, k))
            + items_after(x, k + 1),
        payload(x).len() <= 45,
{
    assert(items_after(x, 0) =~= rlp_uint(item(x, 0)) + items_after(x, 1));
    assert(items_after(x, 1) =~= rlp_uint(item(x, 1)) + items_after(x, 2));
    assert(items_after(x, 2) =~= rlp_uint(item(x, 2)) + items_after(x, 3));
    assert(items_after(x, 3) =~= rlp_uint(item(x, 3)) + items_after(x, 4));
    assert(items_after(x, 4) =~= rlp_uint(item(x, 4)) + items_after(x, 5));
    lemma_pow256_bounds();
    lemma_be_len(item(x, 1), 8);
    lemma_be_len(item(x, 3), 8);
    lemma_be_len(item(x, 4), 8);
}

/// What the `k`-th item read gives: if `input` holds a stored counter, the
/// piece `piece` that was to start with item `k` does, and the reader, if it
/// succeeds, gives that item and the suffix after it.
proof fn lemma_item_read(input: Seq<u8>, piece: Seq<u8>, k: int, value: nat, next: Seq<u8>)
    requires
        0 <= k < 5,
        value < pow256(32),
        piece == rlp_uint(value) + next,
        forall|x: I64, rest: Seq<u8>| #[trigger]
            stored(input, x, rest) ==> piece == items_after(x, k),
    ensures
        forall|x: I64, rest: Seq<u8>| #[trigger]
            stored(input, x, rest) ==> value == item(x, k) && next == items_after(x, k + 1),
{
    assert forall|x: I64, rest: Seq<u8>| #[trigger]
        stored(input, x, rest) implies value == item(x, k) && next == items_after(x, k + 1) by {
        lemma_items(x);
        lemma_pow256_bounds();
        assert(item(x, k) < pow256(32));
        lemma_uint_prefix(value, item(x, k), next, items_after(x, k + 1));
    }
}

/// Reads a stored counter from the front of `input`, giving it and the
/// input after it. Decoding what `encode` wrote gives back the committed
/// state.
pub fn decode(input: &[u8]) -> (r: Result<(I64, &[u8]), StorageError>)
    ensures
        super::outcome(r) == spec_decode(input@),
        forall|x: I64, rest: Seq<u8>| #[trigger]
            stored(input@, x, rest) ==> (r matches Ok((y, tail)) && y == committed(x) && tail@
                == rest),
        r matches Ok((y, tail)) ==> exists|
            has_value: u8,
            value: i64,
            has_limits: u8,
            lower: i64,
            upper: i64,
        |
            #![trigger stored_items(has_value, value, has_limits, lower, upper)]
            {
                &&& input@ == stored_items(has_value, value, has_limits, lower, upper) + tail@
                &&& has_value <= 1 && has_limits <= 1
                &&& y.delta == 0
                &&& y.value == if has_value == 1 {
                    value
                } else {
                    0
                }
                &&& y.limits == if has_limits == 1 {
                    (lower, upper)
                } else {
                    (i64::MIN, i64::MAX)
                }
            },
{
    proof {
        lemma_pow256_bounds();
        assert(vstd::slice::spec_slice_len(input) == input@.len());
    }
    let (items, rest) = match take_list(input) {
        Ok(split) => split,
        Err(e) => {
            proof {
                assert forall|x: I64, rest0: Seq<u8>| !#[trigger] stored(input@, x, rest0) by {
                    if stored(input@, x, rest0) {
                        assert(input@ == rlp_list_header(payload(x).len()) + payload(x) + rest0);
                    }
                }
            }
            return Err(StorageError::Rlp(e));
        },
    };
    proof {
        assert forall|x: I64, rest0: Seq<u8>| #[trigger]
            stored(input@, x, rest0) implies items@ == items_after(x, 0) && rest@ == rest0 by {
            lemma_items(x);
            lemma_list_prefix(items@, rest@, payload(x), rest0);
        }
    }
    let (has_value, p1) = match take_u8(items) {
        Ok(split) => split,
        Err(e) => {
            proof {
                assert forall|x: I64, rest0: Seq<u8>| !#[trigger] stored(input@, x, rest0) by {
                    if stored(input@, x, rest0) {
                        lemma_items(x);
                        assert(items@ == rlp_uint(1u8 as nat) + items_after(x, 1));
                    }
                }
            }
            return Err(StorageError::Rlp(e));
        },
    };
    proof {
        lemma_item_read(input@, items@, 0, has_value as nat, p1@);
    }
    let (value, p2) = match take_u64(p1) {
        Ok(split) => split,
        Err(e) => {
            proof {
                assert forall|x: I64, rest0: Seq<u8>| !#[trigger] stored(input@, x, rest0) by {
                    if stored(input@, x, rest0) {
                        lemma_items(x);
                        assert(p1@ == rlp_uint(zigzag(x.value) as nat) + items_after(x, 2));
                    }
                }
            }
            return Err(StorageError::Rlp(e));
        },
    };
    proof {
        lemma_item_read(input@, p1@, 1, value as nat, p2@);
    }
    let (has_limits, p3) = match take_u8(p2) {
        Ok(split) => split,
        Err(e) => {
            proof {
                assert forall|x: I64, rest0: Seq<u8>| !#[trigger] stored(input@, x, rest0) by {
                    if stored(input@, x, rest0) {
                        lemma_items(x);
                        assert(p2@ == rlp_uint(1u8 as nat) + items_after(x, 3));
                    }
                }
            }
            return Err(StorageError::Rlp(e));
        },
    };
    proof {
        lemma_item_read(input@, p2@, 2, has_limits as nat, p3@);
    }
    let (lower, p4) = match take_u64(p3) {
        Ok(split) => split,
        Err(e) => {
            proof {
                assert forall|x: I64, rest0: Seq<u8>| !#[trigger] stored(input@, x, rest0) by {
                    if stored(input@, x, rest0) {
                        lemma_items(x);
                        assert(p3@ == rlp_uint(zigzag(x.limits.0) as nat) + items_after(x, 4));
                    }
                }
            }
            return Err(StorageError::Rlp(e));
        },
    };
    proof {
        lemma_item_read(input@, p3@, 3, lower as nat, p4@);
    }
    let (upper, p5) = match take_u64(p4) {
        Ok(split) => split,
        Err(e) => {
            proof {
                assert forall|x: I64, rest0: Seq<u8>| !#[trigger] stored(input@, x, rest0) by {
                    if stored(input@, x, rest0) {
                        lemma_items(x);
                        assert(p4@ == rlp_uint(zigzag(x.limits.1) as nat) + items_after(x, 5));
                    }
                }
            }
            return Err(StorageError::Rlp(e));
        },
    };
    proof {
        lemma_item_read(input@, p4@, 4, upper as nat, p5@);
    }
    if has_value > 1 || has_limits > 1 || !p5.is_empty() {
        return Err(StorageError::Invalid("invalid I64 encoding"));
    }
    let decoded = I64 {
        value: if has_value == 1 {
            unzigzag_code(value)
        } else {
            0
        },
        delta: 0,
        limits: if has_limits == 1 {
            (unzigzag_code(lower), unzigzag_code(upper))
        } else {
            (i64::MIN, i64::MAX)
        },
    };
    proof {
        lemma_stored_items_read(
            input@,
            items@,
            rest@,
            has_value,
            p1@,
            value,
            p2@,
            has_limits,
            p3@,
            lower,
            p4@,
            upper,
            p5@,
        );
    }
    proof {
        assert forall|x: I64, rest0: Seq<u8>| #[trigger]
            stored(input@, x, rest0) implies decoded == committed(x) && rest@ == rest0 by {
            lemma_zigzag_round_trip(x.value);
            lemma_zigzag_round_trip(x.limits.0);
            lemma_zigzag_round_trip(x.limits.1);
        }
    }
    Ok((decoded, rest))
}

} // verus!
