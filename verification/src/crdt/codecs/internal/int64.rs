use vstd::prelude::*;

use super::{
    Reader,
    Result,
    Writer,
    flag_set,
    has_flag,
    has_unknown_flags,
    i64_from_le,
    i64_le_bytes,
    field_if,
    flags_byte,
    lemma_le_round_trips,
    lemma_overwrite_concat,
    overwrite,
    short_read,
};
use crate::crdt::types::int64::I64;

verus! {

const VALUE: u8 = 1;

const DELTA: u8 = 2;

const LIMITS: u8 = 4;

/// The encoding of a counter: flags `VALUE | DELTA | LIMITS`, then the value,
/// the delta, the lower and the upper limit, each as 8 little-endian bytes.
pub open spec fn spec_encode(value: I64) -> Seq<u8> {
    seq![7u8] + i64_le_bytes(value.value) + i64_le_bytes(value.delta) + i64_le_bytes(value.limits.0)
        + i64_le_bytes(value.limits.1)
}

/// What `decode` makes of `s`: the flags byte, then each field that the flags
/// announce (absent fields take their defaults: zero value, zero delta, the
/// full `i64` range), and nothing after them.
pub open spec fn spec_decode(s: Seq<u8>) -> Result<I64> {
    if s.len() < 1 {
        Err(short_read(0, 1))
    } else if s[0] > 7 {
        Err("invalid I64 flags")
    } else {
        let flags = s[0];
        let value_at = 1int;
        let delta_at = value_at + if has_flag(flags, 1) { 8int } else { 0int };
        let limits_at = delta_at + if has_flag(flags, 2) { 8int } else { 0int };
        let end = limits_at + if has_flag(flags, 4) { 16int } else { 0int };
        if has_flag(flags, 1) && s.len() < value_at + 8 {
            Err(short_read(value_at, 8))
        } else if has_flag(flags, 2) && s.len() < delta_at + 8 {
            Err(short_read(delta_at, 8))
        } else if has_flag(flags, 4) && s.len() < limits_at + 8 {
            Err(short_read(limits_at, 8))
        } else if has_flag(flags, 4) && s.len() < limits_at + 16 {
            Err(short_read(limits_at + 8, 8))
        } else if s.len() > end {
            Err("trailing bytes")
        } else {
            Ok(
                I64 {
                    value: if has_flag(flags, 1) {
                        i64_from_le(s.subrange(value_at, value_at + 8))
                    } else {
                        0
                    },
                    delta: if has_flag(flags, 2) {
                        i64_from_le(s.subrange(delta_at, delta_at + 8))
                    } else {
                        0
                    },
                    limits: if has_flag(flags, 4) {
                        (
                            i64_from_le(s.subrange(limits_at, limits_at + 8)),
                            i64_from_le(s.subrange(limits_at + 8, limits_at + 16)),
                        )
                    } else {
                        (i64::MIN, i64::MAX)
                    },
                },
            )
        }
    }
}

/// Decoding an encoding gives back the counter that was encoded.
pub proof fn lemma_round_trip(value: I64)
    ensures
        spec_decode(spec_encode(value)) == Ok::<I64, &'static str>(value),
{
    lemma_le_round_trips();
    let s = spec_encode(value);
    assert(s[0] == 7u8);
    assert(has_flag(7u8, 1) && has_flag(7u8, 2) && has_flag(7u8, 4));
    assert(s.subrange(1, 9) =~= i64_le_bytes(value.value));
    assert(s.subrange(9, 17) =~= i64_le_bytes(value.delta));
    assert(s.subrange(17, 25) =~= i64_le_bytes(value.limits.0));
    assert(s.subrange(25, 33) =~= i64_le_bytes(value.limits.1));
}

/// Decoding an input that carries only some of the fields gives those fields
/// and, for each missing one, its default: a zero value, a zero delta, and
/// no limits, that is the full `i64` range.
pub proof fn lemma_decode_missing_fields(
    with_value: bool,
    with_delta: bool,
    with_limits: bool,
    value: i64,
    delta: i64,
    lower: i64,
    upper: i64,
)
    ensures
        spec_decode(
            seq![flags_byte(with_value, with_delta, with_limits, false)] + field_if(
                with_value,
                i64_le_bytes(value),
            ) + field_if(with_delta, i64_le_bytes(delta)) + field_if(
                with_limits,
                i64_le_bytes(lower) + i64_le_bytes(upper),
            ),
        ) == Ok::<I64, &'static str>(
            I64 {
                value: if with_value {
                    value
                } else {
                    0
                },
                delta: if with_delta {
                    delta
                } else {
                    0
                },
                limits: if with_limits {
                    (lower, upper)
                } else {
                    (i64::MIN, i64::MAX)
                },
            },
        ),
{
    lemma_le_round_trips();
    let f = flags_byte(with_value, with_delta, with_limits, false);
    assert(has_flag(f, 1) == with_value && has_flag(f, 2) == with_delta && has_flag(f, 4)
        == with_limits);
    let a = field_if(with_value, i64_le_bytes(value));
    let b = field_if(with_delta, i64_le_bytes(delta));
    let c = field_if(with_limits, i64_le_bytes(lower) + i64_le_bytes(upper));
    let s = seq![f] + a + b + c;
    let d: int = 1int + a.len();
    let l: int = d + b.len();
    if with_value {
        assert(s.subrange(1, 9) =~= i64_le_bytes(value));
    }
    if with_delta {
        assert(s.subrange(d, d + 8) =~= i64_le_bytes(delta));
    }
    if with_limits {
        assert(s.subrange(l, l + 8) =~= i64_le_bytes(lower));
        assert(s.subrange(l + 8, l + 16) =~= i64_le_bytes(upper));
    }
}

/// Inputs outside the format are refused: a flags byte with a bit other
/// than those of the three fields, and any byte after the last field.
pub proof fn lemma_rejects_malformed(s: Seq<u8>, value: I64, extra: Seq<u8>)
    ensures
        s.len() >= 1 && s[0] >= 8 ==> spec_decode(s) == Err::<I64, &'static str>(
            "invalid I64 flags",
        ),
        extra.len() > 0 ==> spec_decode(spec_encode(value) + extra) == Err::<I64, &'static str>(
            "trailing bytes",
        ),
{
    if extra.len() > 0 {
        lemma_encoded_len(value);
        let t = spec_encode(value) + extra;
        assert(t[0] == 7u8);
        assert(has_flag(7u8, 1) && has_flag(7u8, 2) && has_flag(7u8, 4));
    }
}

/// Every encoding is 33 bytes long.
pub proof fn lemma_encoded_len(value: I64)
    ensures
        spec_encode(value).len() == 33,
{
    lemma_le_round_trips();
}

/// The encoded size, which is always 33 bytes.
pub fn encoded_size(value: &I64) -> (r: Result<u64>)
    ensures
        r == Ok::<u64, &'static str>(spec_encode(*value).len() as u64),
        spec_encode(*value).len() == 33,
{
    proof {
        lemma_encoded_len(*value);
    }
    Ok(33)
}

/// A fresh buffer holding the encoding.
pub fn encode(value: &I64) -> (r: Result<Vec<u8>>)
    ensures
        r matches Ok(v) && v@ == spec_encode(*value),
{
    let size = encoded_size(value)?;
    let mut output: Vec<u8> = vec![0; size as usize];
    let written = encode_to(value, output.as_mut_slice());
    proof {
        assert(output@.take(0) + spec_encode(*value) + output@.skip(33) =~= spec_encode(*value));
    }
    match written {
        Ok(_) => Ok(output),
        Err(e) => Err(e),
    }
}

/// Writes the encoding at the start of `output` and returns its length;
/// when `output` is too short, fails without writing.
pub fn encode_to(value: &I64, output: &mut [u8]) -> (r: Result<u64>)
    ensures
        old(output)@.len() < spec_encode(*value).len() ==> {
            &&& r == Err::<u64, &'static str>("output buffer too small")
            &&& final(output)@ == old(output)@
        },
        old(output)@.len() >= spec_encode(*value).len() ==> {
            &&& r == Ok::<u64, &'static str>(spec_encode(*value).len() as u64)
            &&& final(output)@ == overwrite(old(output)@, 0, spec_encode(*value))
        },
{
    let size = encoded_size(value)?;
    if (output.len() as u64) < size {
        return Err("output buffer too small");
    }
    let ghost start = output@;
    proof {
        lemma_le_round_trips();
    }
    let mut writer = Writer::new(output);
    assert((1u8 | 2u8 | 4u8) == 7u8) by (bit_vector);
    writer.write_u8(VALUE | DELTA | LIMITS)?;
    writer.write_i64(value.value)?;
    writer.write_i64(value.delta)?;
    writer.write_i64(value.limits.0)?;
    writer.write_i64(value.limits.1)?;
    proof {
        let a = seq![7u8];
        let b = i64_le_bytes(value.value);
        let c = i64_le_bytes(value.delta);
        let d = i64_le_bytes(value.limits.0);
        let e = i64_le_bytes(value.limits.1);
        lemma_overwrite_concat(start, 0, a, b);
        lemma_overwrite_concat(start, 0, a + b, c);
        lemma_overwrite_concat(start, 0, a + b + c, d);
        lemma_overwrite_concat(start, 0, a + b + c + d, e);
    }
    Ok(writer.finish() as u64)
}

/// Parses one counter that fills `input` exactly.
pub fn decode(input: &[u8]) -> (r: Result<I64>)
    ensures
        r == spec_decode(input@),
{
    assert((1u8 | 2u8 | 4u8) == 7u8) by (bit_vector);
    let ghost s = input@;
    let mut reader = Reader::new(input);
    let flags = reader.read_u8()?;
    if has_unknown_flags(flags, VALUE | DELTA | LIMITS) {
        return Err("invalid I64 flags");
    }
    let value = if flag_set(flags, VALUE) {
        let v = reader.read_i64()?;
        assert(s.skip(1).take(8) =~= s.subrange(1, 9));
        v
    } else {
        0
    };
    let ghost delta_at = reader.offset as int;
    let delta = if flag_set(flags, DELTA) {
        let d = reader.read_i64()?;
        assert(s.skip(delta_at).take(8) =~= s.subrange(delta_at, delta_at + 8));
        d
    } else {
        0
    };
    let ghost limits_at = reader.offset as int;
    let limits = if flag_set(flags, LIMITS) {
        let lower = reader.read_i64()?;
        assert(s.skip(limits_at).take(8) =~= s.subrange(limits_at, limits_at + 8));
        let upper = reader.read_i64()?;
        assert(s.skip(limits_at + 8).take(8) =~= s.subrange(limits_at + 8, limits_at + 16));
        (lower, upper)
    } else {
        (i64::MIN, i64::MAX)
    };
    reader.finish()?;
    Ok(I64 { value, delta, limits })
}

/// A cut-short encoding is refused: decoding any proper prefix of an
/// encoding fails.
pub proof fn lemma_truncated_rejected(value: I64, k: int)
    requires
        0 <= k < spec_encode(value).len(),
    ensures
        spec_decode(spec_encode(value).take(k)) is Err,
{
    lemma_encoded_len(value);
    let s = spec_encode(value).take(k);
    if k > 0 {
        assert(s[0] == 7u8);
        assert(has_flag(7u8, 1) && has_flag(7u8, 2) && has_flag(7u8, 4));
    }
}

} // verus!
