use vstd::prelude::*;

use super::{
    Reader,
    Result,
    Writer,
    field_if,
    flag_set,
    flags_byte,
    has_flag,
    has_unknown_flags,
    lemma_le_round_trips,
    lemma_overwrite_concat,
    overwrite,
    short_read,
};
use crate::crdt::state::delta::DeltaOp;
use crate::crdt::types::uint64::U64;
use vstd::bytes::{spec_u64_from_le_bytes, spec_u64_to_le_bytes};

verus! {

const VALUE: u8 = 1;

const DELTA: u8 = 2;

const LIMITS: u8 = 4;

/// Marks a pending delta as a subtraction; only valid together with `DELTA`.
const SUBTRACT: u8 = 8;

/// The flags byte of a counter: value, delta and limits always, and the
/// subtraction mark when the pending delta subtracts.
pub open spec fn spec_flags(delta: Option<DeltaOp<u64>>) -> u8 {
    match delta {
        Some(DeltaOp::Sub(_)) => 15u8,
        _ => 7u8,
    }
}

/// The magnitude of the pending delta, zero when none is pending.
pub open spec fn delta_word(delta: Option<DeltaOp<u64>>) -> u64 {
    match delta {
        Some(op) => op.operand(),
        None => 0,
    }
}

/// The encoding of a counter, always 33 bytes: the flags, the value, the
/// magnitude of the pending delta (zero when none is pending), then the lower
/// and upper limits, each number as 8 little-endian bytes.
pub open spec fn spec_encode(value: U64) -> Seq<u8> {
    seq![spec_flags(value.delta)] + spec_u64_to_le_bytes(value.value) + spec_u64_to_le_bytes(
        delta_word(value.delta),
    ) + spec_u64_to_le_bytes(value.limits.0) + spec_u64_to_le_bytes(value.limits.1)
}

/// The counter that decoding an encoding gives: the same, with a pending
/// addition of zero read as no pending delta (the two move the value alike
/// and are written alike).
pub open spec fn decoded(value: U64) -> U64 {
    U64 {
        delta: match value.delta {
            Some(DeltaOp::Add(0)) => None,
            d => d,
        },
        ..value
    }
}

/// What `decode` makes of `s`: the flags byte, then each field that the flags
/// announce (absent fields take their defaults: zero value, no delta, the
/// full `u64` range), and nothing after them.
pub open spec fn spec_decode(s: Seq<u8>) -> Result<U64> {
    if s.len() < 1 {
        Err(short_read(0, 1))
    } else if s[0] > 15 || (has_flag(s[0], 8) && !has_flag(s[0], 2)) {
        Err("invalid U64 flags")
    } else {
        let flags = s[0];
        let value_at = 1int;
        let delta_at = value_at + if has_flag(flags, 1) { 8int } else { 0int };
        let limits_at = delta_at + if has_flag(flags, 2) { 8int } else { 0int };
        let end = limits_at + if has_flag(flags, 4) { 16int } else { 0int };
        if has_flag(flags, 1) && s.len() < value_at + 8 {
            Err(short_read(value_at, 8))
        } else if has_flag(flags, 2) && s.len() < delta_at + 8 {
            Err(short_read(delta_at, 8))
        } else if has_flag(flags, 4) && s.len() < limits_at + 8 {
            Err(short_read(limits_at, 8))
        } else if has_flag(flags, 4) && s.len() < limits_at + 16 {
            Err(short_read(limits_at + 8, 8))
        } else if s.len() > end {
            Err("trailing bytes")
        } else {
            let magnitude = spec_u64_from_le_bytes(s.subrange(delta_at, delta_at + 8));
            Ok(
                U64 {
                    value: if has_flag(flags, 1) {
                        spec_u64_from_le_bytes(s.subrange(value_at, value_at + 8))
                    } else {
                        0
                    },
                    delta: if !has_flag(flags, 2) {
                        None
                    } else if has_flag(flags, 8) {
                        Some(DeltaOp::Sub(magnitude))
                    } else if magnitude == 0 {
                        None
                    } else {
                        Some(DeltaOp::Add(magnitude))
                    },
                    limits: if has_flag(flags, 4) {
                        (
                            spec_u64_from_le_bytes(s.subrange(limits_at, limits_at + 8)),
                            spec_u64_from_le_bytes(s.subrange(limits_at + 8, limits_at + 16)),
                        )
                    } else {
                        (0, u64::MAX)
                    },
                },
            )
        }
    }
}

/// Decoding an encoding gives back the counter that was encoded, a pending
/// addition of zero as no pending delta.
pub proof fn lemma_round_trip(value: U64)
    ensures
        spec_decode(spec_encode(value)) == Ok::<U64, &'static str>(decoded(value)),
{
    lemma_le_round_trips();
    let s = spec_encode(value);
    assert(has_flag(7u8, 1) && has_flag(7u8, 2) && has_flag(7u8, 4) && !has_flag(7u8, 8));
    assert(has_flag(15u8, 1) && has_flag(15u8, 2) && has_flag(15u8, 4) && has_flag(15u8, 8));
    assert(s.subrange(1, 9) =~= spec_u64_to_le_bytes(value.value));
    assert(s.subrange(9, 17) =~= spec_u64_to_le_bytes(delta_word(value.delta)));
    assert(s.subrange(17, 25) =~= spec_u64_to_le_bytes(value.limits.0));
    assert(s.subrange(25, 33) =~= spec_u64_to_le_bytes(value.limits.1));
}

/// Whether a pending delta subtracts.
pub open spec fn subtracts(delta: Option<DeltaOp<u64>>) -> bool {
    match delta {
        Some(DeltaOp::Sub(_)) => true,
        _ => false,
    }
}

/// Decoding an input that carries only some of the fields gives those fields
/// and, for each missing one, its default: a zero value, no pending delta,
/// and no limits, that is the full `u64` range. A pending addition of zero
/// reads as no pending delta.
pub proof fn lemma_decode_missing_fields(
    with_value: bool,
    value: u64,
    delta: Option<DeltaOp<u64>>,
    with_limits: bool,
    lower: u64,
    upper: u64,
)
    ensures
        spec_decode(
            seq![flags_byte(with_value, delta is Some, with_limits, subtracts(delta))] + field_if(
                with_value,
                spec_u64_to_le_bytes(value),
            ) + field_if(delta is Some, spec_u64_to_le_bytes(delta_word(delta))) + field_if(
                with_limits,
                spec_u64_to_le_bytes(lower) + spec_u64_to_le_bytes(upper),
            ),
        ) == Ok::<U64, &'static str>(
            U64 {
                value: if with_value {
                    value
                } else {
                    0
                },
                delta: match delta {
                    Some(DeltaOp::Add(0)) => None,
                    d => d,
                },
                limits: if with_limits {
                    (lower, upper)
                } else {
                    (0, u64::MAX)
                },
            },
        ),
{
    lemma_le_round_trips();
    let f = flags_byte(with_value, delta is Some, with_limits, subtracts(delta));
    assert(has_flag(f, 1) == with_value && has_flag(f, 2) == delta is Some && has_flag(f, 4)
        == with_limits && has_flag(f, 8) == subtracts(delta) && f <= 15);
    let a = field_if(with_value, spec_u64_to_le_bytes(value));
    let b = field_if(delta is Some, spec_u64_to_le_bytes(delta_word(delta)));
    let c = field_if(with_limits, spec_u64_to_le_bytes(lower) + spec_u64_to_le_bytes(upper));
    let s = seq![f] + a + b + c;
    let d: int = 1int + a.len();
    let l: int = d + b.len();
    if with_value {
        assert(s.subrange(1, 9) =~= spec_u64_to_le_bytes(value));
    }
    if delta is Some {
        assert(s.subrange(d, d + 8) =~= spec_u64_to_le_bytes(delta_word(delta)));
    }
    if with_limits {
        assert(s.subrange(l, l + 8) =~= spec_u64_to_le_bytes(lower));
        assert(s.subrange(l + 8, l + 16) =~= spec_u64_to_le_bytes(upper));
    }
}

/// Inputs outside the format are refused: a flags byte with a bit other
/// than those of the fields and the sign, a subtracting sign with no delta
/// to go with it, and any byte after the last field.
pub proof fn lemma_rejects_malformed(
    s: Seq<u8>,
    with_value: bool,
    with_limits: bool,
    rest: Seq<u8>,
    value: U64,
    extra: Seq<u8>,
)
    ensures
        s.len() >= 1 && s[0] >= 16 ==> spec_decode(s) == Err::<U64, &'static str>(
            "invalid U64 flags",
        ),
        spec_decode(seq![flags_byte(with_value, false, with_limits, true)] + rest) == Err::<
            U64,
            &'static str,
        >("invalid U64 flags"),
        extra.len() > 0 ==> spec_decode(spec_encode(value) + extra) == Err::<U64, &'static str>(
            "trailing bytes",
        ),
{
    let f = flags_byte(with_value, false, with_limits, true);
    assert(has_flag(f, 8) && !has_flag(f, 2) && f <= 15);
    assert((seq![f] + rest)[0] == f);
    if extra.len() > 0 {
        lemma_encoded_len(value);
        let t = spec_encode(value) + extra;
        assert(t[0] == spec_flags(value.delta));
        assert(has_flag(5u8, 1) && !has_flag(5u8, 2) && has_flag(5u8, 4) && !has_flag(5u8, 8));
        assert(has_flag(7u8, 1) && has_flag(7u8, 2) && has_flag(7u8, 4) && !has_flag(7u8, 8));
        assert(has_flag(15u8, 1) && has_flag(15u8, 2) && has_flag(15u8, 4) && has_flag(15u8, 8));
    }
}

/// An encoding is always 33 bytes long.
pub proof fn lemma_encoded_len(value: U64)
    ensures
        spec_encode(value).len() == 33,
{
    lemma_le_round_trips();
}

/// The encoded size: always 33 bytes.
pub fn encoded_size(value: &U64) -> (r: Result<u64>)
    ensures
        r == Ok::<u64, &'static str>(33),
        spec_encode(*value).len() == 33,
{
    proof {
        lemma_encoded_len(*value);
    }
    Ok(33)
}

/// A fresh buffer holding the encoding.
pub fn encode(value: &U64) -> (r: Result<Vec<u8>>)
    ensures
        r matches Ok(v) && v@ == spec_encode(*value),
{
    let size = encoded_size(value)?;
    let mut output: Vec<u8> = vec![0; size as usize];
    let written = encode_to(value, output.as_mut_slice());
    proof {
        assert(output@.take(0) + spec_encode(*value) + output@.skip(size as int) =~= spec_encode(
            *value,
        ));
    }
    match written {
        Ok(_) => Ok(output),
        Err(e) => Err(e),
    }
}

/// Writes the encoding at the start of `output` and returns its length;
/// when `output` is too short, fails without writing.
pub fn encode_to(value: &U64, output: &mut [u8]) -> (r: Result<u64>)
    ensures
        old(output)@.len() < spec_encode(*value).len() ==> {
            &&& r == Err::<u64, &'static str>("output buffer too small")
            &&& final(output)@ == old(output)@
        },
        old(output)@.len() >= spec_encode(*value).len() ==> {
            &&& r == Ok::<u64, &'static str>(spec_encode(*value).len() as u64)
            &&& final(output)@ == overwrite(old(output)@, 0, spec_encode(*value))
        },
{
    let size = encoded_size(value)?;
    if (output.len() as u64) < size {
        return Err("output buffer too small");
    }
    let ghost start = output@;
    proof {
        lemma_le_round_trips();
    }
    assert((1u8 | 2u8) == 3u8 && (3u8 | 4u8) == 7u8 && (7u8 | 8u8) == 15u8) by (bit_vector);
    let flags = match value.delta {
        Some(DeltaOp::Sub(_)) => VALUE | DELTA | LIMITS | SUBTRACT,
        _ => VALUE | DELTA | LIMITS,
    };
    let mut writer = Writer::new(output);
    writer.write_u8(flags)?;
    writer.write_u64(value.value)?;
    let ghost a = seq![flags];
    let ghost b = spec_u64_to_le_bytes(value.value);
    proof {
        lemma_overwrite_concat(start, 0, a, b);
    }
    let ghost delta_bytes = spec_u64_to_le_bytes(delta_word(value.delta));
    let magnitude: u64 = match value.delta {
        Some(DeltaOp::Add(d)) => d,
        Some(DeltaOp::Sub(d)) => d,
        None => 0,
    };
    writer.write_u64(magnitude)?;
    proof {
        lemma_overwrite_concat(start, 0, a + b, delta_bytes);
    }
    writer.write_u64(value.limits.0)?;
    writer.write_u64(value.limits.1)?;
    proof {
        let d = spec_u64_to_le_bytes(value.limits.0);
        let e = spec_u64_to_le_bytes(value.limits.1);
        lemma_overwrite_concat(start, 0, a + b + delta_bytes, d);
        lemma_overwrite_concat(start, 0, a + b + delta_bytes + d, e);
    }
    Ok(writer.finish() as u64)
}

/// Parses one counter that fills `input` exactly.
pub fn decode(input: &[u8]) -> (r: Result<U64>)
    ensures
        r == spec_decode(input@),
{
    assert((1u8 | 2u8 | 4u8 | 8u8) == 15u8) by (bit_vector);
    let ghost s = input@;
    let mut reader = Reader::new(input);
    let flags = reader.read_u8()?;
    if has_unknown_flags(flags, VALUE | DELTA | LIMITS | SUBTRACT) || (flag_set(flags, SUBTRACT)
        && !flag_set(flags, DELTA)) {
        return Err("invalid U64 flags");
    }
    let value = if flag_set(flags, VALUE) {
        let v = reader.read_u64()?;
        assert(s.skip(1).take(8) =~= s.subrange(1, 9));
        v
    } else {
        0
    };
    let ghost delta_at = reader.offset as int;
    let delta = if flag_set(flags, DELTA) {
        let magnitude = reader.read_u64()?;
        assert(s.skip(delta_at).take(8) =~= s.subrange(delta_at, delta_at + 8));
        if flag_set(flags, SUBTRACT) {
            Some(DeltaOp::Sub(magnitude))
        } else if magnitude == 0 {
            None
        } else {
            Some(DeltaOp::Add(magnitude))
        }
    } else {
        None
    };
    let ghost limits_at = reader.offset as int;
    let limits = if flag_set(flags, LIMITS) {
        let lower = reader.read_u64()?;
        assert(s.skip(limits_at).take(8) =~= s.subrange(limits_at, limits_at + 8));
        let upper = reader.read_u64()?;
        assert(s.skip(limits_at + 8).take(8) =~= s.subrange(limits_at + 8, limits_at + 16));
        (lower, upper)
    } else {
        (u64::MIN, u64::MAX)
    };
    reader.finish()?;
    Ok(U64 { value, delta, limits })
}

/// A cut-short encoding is refused: decoding any proper prefix of an
/// encoding fails.
pub proof fn lemma_truncated_rejected(value: U64, k: int)
    requires
        0 <= k < spec_encode(value).len(),
    ensures
        spec_decode(spec_encode(value).take(k)) is Err,
{
    lemma_encoded_len(value);
    let s = spec_encode(value).take(k);
    if k > 0 {
        assert(s[0] == spec_flags(value.delta));
        assert(has_flag(7u8, 1) && has_flag(7u8, 2) && has_flag(7u8, 4));
        assert(has_flag(15u8, 1) && has_flag(15u8, 2) && has_flag(15u8, 4) && has_flag(15u8, 8));
    }
}

} // verus!
