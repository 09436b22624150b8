//! The storage form of a 256-bit counter: a list of the value flag, the
//! value, the limits flag and the limits.

use vstd::prelude::*;

use super::{
    StorageError,
    lemma_be_len,
    lemma_list_prefix,
    lemma_pow256_bounds,
    lemma_uint_prefix,
    lemma_word_bound,
    length_of_length,
    pow256,
    put_list_header,
    put_u8,
    put_word,
    rlp_list_header,
    rlp_list_split,
    rlp_u8_split,
    rlp_uint,
    rlp_word_split,
    take_list,
    take_u8,
    take_word,
    u8_length,
    word_length,
};
use crate::crdt::types::u256::U256;
use crate::crdt::types::word::{Word256, lemma_value_injective, word_modulus};

verus! {

/// The items of the stored list: the value flag (always 1), the value, the
/// limits flag (always 1) and both limits.
pub open spec fn payload(x: U256) -> Seq<u8> {
    rlp_uint(1) + rlp_uint(x.value.value()) + rlp_uint(1) + rlp_uint(
        x.limits.0.value(),
    ) + rlp_uint(x.limits.1.value())
}

/// The stored form of a counter; its pending delta is left out.
pub open spec fn spec_encode(x: U256) -> Seq<u8> {
    rlp_list_header(payload(x).len()) + payload(x)
}

/// The counter as stored: the committed value and limits, no delta.
pub open spec fn committed(x: U256) -> U256 {
    U256 { delta: None, ..x }
}

/// What `decode` makes of `s`: the counter and the input after its list;
/// `Err(None)` for malformed RLP, `Err(Some(..))` for invalid items.
pub open spec fn spec_decode(s: Seq<u8>) -> Result<(U256, Seq<u8>), Option<&'static str>> {
    match rlp_list_split(s) {
        None => Err(None),
        Some((p, rest)) => match rlp_u8_split(p) {
            None => Err(None),
            Some((has_value, p1)) => match rlp_word_split(p1) {
                None => Err(None),
                Some((value, p2)) => match rlp_u8_split(p2) {
                    None => Err(None),
                    Some((has_limits, p3)) => match rlp_word_split(p3) {
                        None => Err(None),
                        Some((lower, p4)) => match rlp_word_split(p4) {
                            None => Err(None),
                            Some((upper, p5)) => if has_value > 1 || has_limits > 1 || p5.len()
                                != 0 {
                                Err(Some("invalid U256 encoding"))
                            } else {
                                Ok(
                                    (
                                        U256 {
                                            value: if has_value == 1 {
                                                value
                                            } else {
                                                Word256 { limbs: [0, 0, 0, 0] }
                                            },
                                            delta: None,
                                            limits: if has_limits == 1 {
                                                (lower, upper)
                                            } else {
                                                (
                                                    Word256 { limbs: [0, 0, 0, 0] },
                                                    Word256 {
                                                        limbs: [u64::MAX, u64::MAX, u64::MAX, u64::MAX],
                                                    },
                                                )
                                            },
                                        },
                                        rest,
                                    ),
                                )
                            },
                        },
                    },
                },
            },
        },
    }
}

/// Appends the stored form of `value` to `out`.
pub fn encode(value: &U256, out: &mut Vec<u8>)
    ensures
        final(out)@ == old(out)@ + spec_encode(*value),
{
    let has_value: u8 = 1;
    let number = value.value;
    let has_limits: u8 = 1;
    let (lower, upper) = value.limits;
    let payload_length = u8_length(has_value) + word_length(number) + u8_length(has_limits)
        + word_length(lower) + word_length(upper);
    let ghost start = out@;
    put_list_header(out, payload_length);
    put_u8(out, has_value);
    put_word(out, number);
    put_u8(out, has_limits);
    put_word(out, lower);
    put_word(out, upper);
    proof {
        assert(payload(*value).len() == payload_length);
        assert(out@ =~= start + spec_encode(*value));
    }
}

/// The size of the stored form of `value`.
pub fn length(value: &U256) -> (r: usize)
    ensures
        r == spec_encode(*value).len(),
{
    let has_value: u8 = 1;
    let number = value.value;
    let has_limits: u8 = 1;
    let (lower, upper) = value.limits;
    let payload_length = u8_length(has_value) + word_length(number) + u8_length(has_limits)
        + word_length(lower) + word_length(upper);
    assert(payload(*value).len() == payload_length);
    payload_length + length_of_length(payload_length)
}

/// A stored list of the five items: the value flag, the value, the limits
/// flag and the two limits, whatever they hold.
pub open spec fn stored_items(has_value: u8, value: Word256, has_limits: u8, lower: Word256, upper: Word256) -> Seq<u8> {
    let p = rlp_uint(has_value as nat) + rlp_uint(value.value()) + rlp_uint(has_limits as nat)
        + rlp_uint(lower.value()) + rlp_uint(upper.value());
    rlp_list_header(p.len()) + p
}

/// `s` starts with the stored form of `x`, and `rest` follows it.
pub open spec fn stored(s: Seq<u8>, x: U256, rest: Seq<u8>) -> bool {
    s == spec_encode(x) + rest
}

/// The items of the stored list after its first `k` items.
pub open spec fn items_after(x: U256, k: int) -> Seq<u8> {
    if k <= 0 {
        payload(x)
    } else if k == 1 {
        rlp_uint(x.value.value()) + rlp_uint(1) + rlp_uint(x.limits.0.value())
            + rlp_uint(x.limits.1.value())
    } else if k == 2 {
        rlp_uint(1) + rlp_uint(x.limits.0.value()) + rlp_uint(x.limits.1.value())
    } else if k == 3 {
        rlp_uint(x.limits.0.value()) + rlp_uint(x.limits.1.value())
    } else if k == 4 {
        rlp_uint(x.limits.1.value())
    } else {
        Seq::empty()
    }
}

/// The `k`-th item of the stored list, as a number.
pub open spec fn item(x: U256, k: int) -> nat {
    if k == 0 || k == 2 {
        1
    } else if k == 1 {
        x.value.value()
    } else if k == 3 {
        x.limits.0.value()
    } else {
        x.limits.1.value()
    }
}

/// Each suffix of the items is the next item and the suffix after it.
pub proof fn lemma_items(x: U256)
    ensures
        forall|k: int| 0 <= k < 5 ==> #[trigger] items_after(x, k) == rlp_uint(item(x, k))
            + items_after(x, k + 1),
        payload(x).len() <= 103,
{
    assert(items_after(x, 0) =~= rlp_uint(item(x, 0)) + items_after(x, 1));
    assert(items_after(x, 1) =~= rlp_uint(item(x, 1)) + items_after(x, 2));
    assert(items_after(x, 2) =~= rlp_uint(item(x, 2)) + items_after(x, 3));
    assert(items_after(x, 3) =~= rlp_uint(item(x, 3)) + items_after(x, 4));
    assert(items_after(x, 4) =~= rlp_uint(item(x, 4)) + items_after(x, 5));
    lemma_word_bound(x.value);
    lemma_word_bound(x.limits.0);
    lemma_word_bound(x.limits.1);
    lemma_be_len(item(x, 1), 32);
    lemma_be_len(item(x, 3), 32);
    lemma_be_len(item(x, 4), 32);
}

/// What the `k`-th item read gives: if `input` holds a stored counter, the
/// piece `piece` that was to start with item `k` does, and the reader, if it
/// succeeds, gives that item and the suffix after it.
proof fn lemma_item_read(input: Seq<u8>, piece: Seq<u8>, k: int, value: nat, next: Seq<u8>)
    requires
        0 <= k < 5,
        value < pow256(32),
        piece == rlp_uint(value) + next,
        forall|x: U256, rest: Seq<u8>| #[trigger]
            stored(input, x, rest) ==> piece == items_after(x, k),
    ensures
        forall|x: U256, rest: Seq<u8>| #[trigger]
            stored(input, x, rest) ==> value == item(x, k) && next == items_after(x, k + 1),
{
    assert forall|x: U256, rest: Seq<u8>| #[trigger]
        stored(input, x, rest) implies value == item(x, k) && next == items_after(x, k + 1) by {
        lemma_items(x);
        lemma_pow256_bounds();
        lemma_word_bound(x.value);
        lemma_word_bound(x.limits.0);
        lemma_word_bound(x.limits.1);
        assert(item(x, k) < pow256(32));
        lemma_uint_prefix(value, item(x, k), next, items_after(x, k + 1));
    }
}

/// Reads a stored counter from the front of `input`, giving it and the
/// input after it. Decoding what `encode` wrote gives back the committed
/// state.
pub fn decode(input: &[u8]) -> (r: Result<(U256, &[u8]), StorageError>)
    ensures
        super::outcome(r) == spec_decode(input@),
        forall|x: U256, rest: Seq<u8>| #[trigger]
            stored(input@, x, rest) ==> (r matches Ok((y, tail)) && y == committed(x) && tail@
                == rest),
        r matches Ok((y, tail)) ==> exists|
            has_value: u8,
            value: Word256,
            has_limits: u8,
            lower: Word256,
            upper: Word256,
        |
            #![trigger stored_items(has_value, value, has_limits, lower, upper)]
            {
                &&& input@ == stored_items(has_value, value, has_limits, lower, upper) + tail@
                &&& has_value <= 1 && has_limits <= 1
                &&& y.delta is None
                &&& if has_value == 1 {
                    y.value == value
                } else {
                    y.value.value() == 0
                }
                &&& if has_limits == 1 {
                    y.limits == (lower, upper)
                } else {
                    y.limits.0.value() == 0 && y.limits.1.value() == word_modulus() - 1
                }
            },
{
    proof {
        lemma_pow256_bounds();
        assert(vstd::slice::spec_slice_len(input) == input@.len());
    }
    let (items, rest) = match take_list(input) {
        Ok(split) => split,
        Err(e) => {
            proof {
                assert forall|x: U256, rest0: Seq<u8>| !#[trigger] stored(input@, x, rest0) by {
                    if stored(input@, x, rest0) {
                        assert(input@ == rlp_list_header(payload(x).len()) + payload(x) + rest0);
                    }
                }
            }
            return Err(StorageError::Rlp(e));
        },
    };
    proof {
        assert forall|x: U256, rest0: Seq<u8>| #[trigger]
            stored(input@, x, rest0) implies items@ == items_after(x, 0) && rest@ == rest0 by {
            lemma_items(x);
            lemma_list_prefix(items@, rest@, payload(x), rest0);
        }
    }
    let (has_value, p1) = match take_u8(items) {
        Ok(split) => split,
        Err(e) => {
            proof {
                assert forall|x: U256, rest0: Seq<u8>| !#[trigger] stored(input@, x, rest0) by {
                    if stored(input@, x, rest0) {
                        lemma_items(x);
                        assert(items@ == rlp_uint(1u8 as nat) + items_after(x, 1));
                    }
                }
            }
            return Err(StorageError::Rlp(e));
        },
    };
    proof {
        lemma_pow256_bounds();
        lemma_item_read(input@, items@, 0, has_value as nat, p1@);
    }
    let (value, p2) = match take_word(p1) {
        Ok(split) => split,
        Err(e) => {
            proof {
                assert forall|x: U256, rest0: Seq<u8>| !#[trigger] stored(input@, x, rest0) by {
                    if stored(input@, x, rest0) {
                        lemma_items(x);
                        assert(p1@ == rlp_uint(x.value.value()) + items_after(x, 2));
                    }
                }
            }
            return Err(StorageError::Rlp(e));
        },
    };
    proof {
        lemma_word_bound(value);
        lemma_item_read(input@, p1@, 1, value.value(), p2@);
    }
    let (has_limits, p3) = match take_u8(p2) {
        Ok(split) => split,
        Err(e) => {
            proof {
                assert forall|x: U256, rest0: Seq<u8>| !#[trigger] stored(input@, x, rest0) by {
                    if stored(input@, x, rest0) {
                        lemma_items(x);
                        assert(p2@ == rlp_uint(1u8 as nat) + items_after(x, 3));
                    }
                }
            }
            return Err(StorageError::Rlp(e));
        },
    };
    proof {
        lemma_pow256_bounds();
        lemma_item_read(input@, p2@, 2, has_limits as nat, p3@);
    }
    let (lower, p4) = match take_word(p3) {
        Ok(split) => split,
        Err(e) => {
            proof {
                assert forall|x: U256, rest0: Seq<u8>| !#[trigger] stored(input@, x, rest0) by {
                    if stored(input@, x, rest0) {
                        lemma_items(x);
                        assert(p3@ == rlp_uint(x.limits.0.value()) + items_after(x, 4));
                    }
                }
            }
            return Err(StorageError::Rlp(e));
        },
    };
    proof {
        lemma_word_bound(lower);
        lemma_item_read(input@, p3@, 3, lower.value(), p4@);
    }
    let (upper, p5) = match take_word(p4) {
        Ok(split) => split,
        Err(e) => {
            proof {
                assert forall|x: U256, rest0: Seq<u8>| !#[trigger] stored(input@, x, rest0) by {
                    if stored(input@, x, rest0) {
                        lemma_items(x);
                        assert(p4@ == rlp_uint(x.limits.1.value()) + items_after(x, 5));
                    }
                }
            }
            return Err(StorageError::Rlp(e));
        },
    };
    proof {
        lemma_word_bound(upper);
        lemma_item_read(input@, p4@, 4, upper.value(), p5@);
    }
    if has_value > 1 || has_limits > 1 || !p5.is_empty() {
        return Err(StorageError::Invalid("invalid U256 encoding"));
    }
    let decoded = U256 {
        value: if has_value == 1 {
            value
        } else {
            Word256::zero()
        },
        delta: None,
        limits: if has_limits == 1 {
            (lower, upper)
        } else {
            (Word256::zero(), Word256::max())
        },
    };
    proof {
        assert(items@ =~= rlp_uint(has_value as nat) + rlp_uint(value.value()) + rlp_uint(
            has_limits as nat,
        ) + rlp_uint(lower.value()) + rlp_uint(upper.value()));
        assert(input@ =~= stored_items(has_value, value, has_limits, lower, upper) + rest@);
    }
    proof {
        assert forall|x: U256, rest0: Seq<u8>| #[trigger]
            stored(input@, x, rest0) implies decoded == committed(x) && rest@ == rest0 by {
            lemma_value_injective(value, x.value);
            lemma_value_injective(lower, x.limits.0);
            lemma_value_injective(upper, x.limits.1);
        }
    }
    Ok((decoded, rest))
}

} // verus!
