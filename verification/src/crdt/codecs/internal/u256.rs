use vstd::prelude::*;

use super::{
    Reader,
    Result,
    Writer,
    field_if,
    flag_set,
    flags_byte,
    has_flag,
    has_unknown_flags,
    lemma_overwrite_concat,
    overwrite,
    short_read,
};
use crate::crdt::state::delta::DeltaOp;
use crate::crdt::types::u256::U256;
use crate::crdt::types::word::{Word256, lemma_le_bytes_round_trip, word_modulus, word_to_le_bytes};

verus! {

const VALUE: u8 = 1;

const DELTA: u8 = 2;

const LIMITS: u8 = 4;

/// Marks a pending delta as a subtraction; only valid together with `DELTA`.
const SUBTRACT: u8 = 8;

/// The flags byte of a counter: value and limits always, the delta when one is
/// pending, and the subtraction mark when it subtracts.
pub open spec fn spec_flags(delta: Option<DeltaOp<Word256>>) -> u8 {
    match delta {
        None => 5u8,
        Some(DeltaOp::Add(_)) => 7u8,
        Some(DeltaOp::Sub(_)) => 15u8,
    }
}

/// The encoding of a counter: the flags, the value, the magnitude of the
/// pending delta if there is one, then the lower and upper limits, each number
/// as 32 little-endian bytes.
pub open spec fn spec_encode(value: U256) -> Seq<u8> {
    let delta_bytes = match value.delta {
        Some(op) => op.operand().le_bytes(),
        None => Seq::<u8>::empty(),
    };
    seq![spec_flags(value.delta)] + value.value.le_bytes() + delta_bytes + value.limits.0.le_bytes()
        + value.limits.1.le_bytes()
}

/// What `decode` makes of `s`: the flags byte, then each field that the flags
/// announce (absent fields take their defaults: zero value, no delta, the
/// full 256-bit range), and nothing after them.
pub open spec fn spec_decode(s: Seq<u8>) -> Result<U256> {
    if s.len() < 1 {
        Err(short_read(0, 1))
    } else if s[0] > 15 || (has_flag(s[0], 8) && !has_flag(s[0], 2)) {
        Err("invalid U256 flags")
    } else {
        let flags = s[0];
        let value_at = 1int;
        let delta_at = value_at + if has_flag(flags, 1) { 32int } else { 0int };
        let limits_at = delta_at + if has_flag(flags, 2) { 32int } else { 0int };
        let end = limits_at + if has_flag(flags, 4) { 64int } else { 0int };
        if has_flag(flags, 1) && s.len() < value_at + 32 {
            Err(short_read(value_at, 32))
        } else if has_flag(flags, 2) && s.len() < delta_at + 32 {
            Err(short_read(delta_at, 32))
        } else if has_flag(flags, 4) && s.len() < limits_at + 32 {
            Err(short_read(limits_at, 32))
        } else if has_flag(flags, 4) && s.len() < limits_at + 64 {
            Err(short_read(limits_at + 32, 32))
        } else if s.len() > end {
            Err("trailing bytes")
        } else {
            let magnitude = Word256::from_le_bytes_spec(s.subrange(delta_at, delta_at + 32));
            Ok(
                U256 {
                    value: if has_flag(flags, 1) {
                        Word256::from_le_bytes_spec(s.subrange(value_at, value_at + 32))
                    } else {
                        Word256 { limbs: [0, 0, 0, 0] }
                    },
                    delta: if !has_flag(flags, 2) {
                        None
                    } else if has_flag(flags, 8) {
                        Some(DeltaOp::Sub(magnitude))
                    } else {
                        Some(DeltaOp::Add(magnitude))
                    },
                    limits: if has_flag(flags, 4) {
                        (
                            Word256::from_le_bytes_spec(s.subrange(limits_at, limits_at + 32)),
                            Word256::from_le_bytes_spec(s.subrange(limits_at + 32, limits_at + 64)),
                        )
                    } else {
                        (
                            Word256 { limbs: [0, 0, 0, 0] },
                            Word256 { limbs: [u64::MAX, u64::MAX, u64::MAX, u64::MAX] },
                        )
                    },
                },
            )
        }
    }
}

/// Decoding an encoding gives back the counter that was encoded.
pub proof fn lemma_round_trip(value: U256)
    ensures
        spec_decode(spec_encode(value)) == Ok::<U256, &'static str>(value),
{
    lemma_le_bytes_round_trip(value.value);
    lemma_le_bytes_round_trip(value.limits.0);
    lemma_le_bytes_round_trip(value.limits.1);
    let s = spec_encode(value);
    assert(has_flag(5u8, 1) && !has_flag(5u8, 2) && has_flag(5u8, 4) && !has_flag(5u8, 8));
    assert(has_flag(7u8, 1) && has_flag(7u8, 2) && has_flag(7u8, 4) && !has_flag(7u8, 8));
    assert(has_flag(15u8, 1) && has_flag(15u8, 2) && has_flag(15u8, 4) && has_flag(15u8, 8));
    assert(s.subrange(1, 33) =~= value.value.le_bytes());
    match value.delta {
        Some(op) => {
            lemma_le_bytes_round_trip(op.operand());
            assert(s.subrange(33, 65) =~= op.operand().le_bytes());
            assert(s.subrange(65, 97) =~= value.limits.0.le_bytes());
            assert(s.subrange(97, 129) =~= value.limits.1.le_bytes());
        },
        None => {
            assert(s.subrange(33, 65) =~= value.limits.0.le_bytes());
            assert(s.subrange(65, 97) =~= value.limits.1.le_bytes());
        },
    }
}

/// Whether a pending delta subtracts.
pub open spec fn subtracts(delta: Option<DeltaOp<Word256>>) -> bool {
    match delta {
        Some(DeltaOp::Sub(_)) => true,
        _ => false,
    }
}

/// Decoding an input that carries only some of the fields gives those fields
/// and, for each missing one, its default: a zero value, no pending delta,
/// and no limits, that is the full 256-bit range from 0 to 2^256 - 1.
pub proof fn lemma_decode_missing_fields(
    with_value: bool,
    value: Word256,
    delta: Option<DeltaOp<Word256>>,
    with_limits: bool,
    lower: Word256,
    upper: Word256,
)
    ensures
        ({
            let s = seq![flags_byte(with_value, delta is Some, with_limits, subtracts(delta))]
                + field_if(with_value, value.le_bytes()) + field_if(
                delta is Some,
                match delta {
                    Some(op) => op.operand().le_bytes(),
                    None => Seq::empty(),
                },
            ) + field_if(with_limits, lower.le_bytes() + upper.le_bytes());
            spec_decode(s) matches Ok(x) && x.delta == delta && (if with_value {
                x.value == value
            } else {
                x.value.value() == 0
            }) && (if with_limits {
                x.limits == (lower, upper)
            } else {
                x.limits.0.value() == 0 && x.limits.1.value() == word_modulus() - 1
            })
        }),
{
    let f = flags_byte(with_value, delta is Some, with_limits, subtracts(delta));
    assert(has_flag(f, 1) == with_value && has_flag(f, 2) == delta is Some && has_flag(f, 4)
        == with_limits && has_flag(f, 8) == subtracts(delta) && f <= 15);
    lemma_le_bytes_round_trip(value);
    lemma_le_bytes_round_trip(lower);
    lemma_le_bytes_round_trip(upper);
    let db = match delta {
        Some(op) => op.operand().le_bytes(),
        None => Seq::empty(),
    };
    if let Some(op) = delta {
        lemma_le_bytes_round_trip(op.operand());
    }
    let a = field_if(with_value, value.le_bytes());
    let b = field_if(delta is Some, db);
    let c = field_if(with_limits, lower.le_bytes() + upper.le_bytes());
    let s = seq![f] + a + b + c;
    let d: int = 1int + a.len();
    let l: int = d + b.len();
    if with_value {
        assert(s.subrange(1, 33) =~= value.le_bytes());
    }
    if delta is Some {
        assert(s.subrange(d, d + 32) =~= db);
    }
    if with_limits {
        assert(s.subrange(l, l + 32) =~= lower.le_bytes());
        assert(s.subrange(l + 32, l + 64) =~= upper.le_bytes());
    }
    assert(0xffff_ffff_ffff_ffffnat + 0x1_0000_0000_0000_0000nat * 0xffff_ffff_ffff_ffffnat
        + 0x1_0000_0000_0000_0000_0000_0000_0000_0000nat * 0xffff_ffff_ffff_ffffnat
        + 0x1_0000_0000_0000_0000_0000_0000_0000_0000_0000_0000_0000_0000nat
        * 0xffff_ffff_ffff_ffffnat == word_modulus() - 1);
}

/// Inputs outside the format are refused: a flags byte with a bit other
/// than those of the fields and the sign, a subtracting sign with no delta
/// to go with it, and any byte after the last field.
pub proof fn lemma_rejects_malformed(
    s: Seq<u8>,
    with_value: bool,
    with_limits: bool,
    rest: Seq<u8>,
    value: U256,
    extra: Seq<u8>,
)
    ensures
        s.len() >= 1 && s[0] >= 16 ==> spec_decode(s) == Err::<U256, &'static str>(
            "invalid U256 flags",
        ),
        spec_decode(seq![flags_byte(with_value, false, with_limits, true)] + rest) == Err::<
            U256,
            &'static str,
        >("invalid U256 flags"),
        extra.len() > 0 ==> spec_decode(spec_encode(value) + extra) == Err::<U256, &'static str>(
            "trailing bytes",
        ),
{
    let f = flags_byte(with_value, false, with_limits, true);
    assert(has_flag(f, 8) && !has_flag(f, 2) && f <= 15);
    assert((seq![f] + rest)[0] == f);
    if extra.len() > 0 {
        lemma_encoded_len(value);
        let t = spec_encode(value) + extra;
        assert(t[0] == spec_flags(value.delta));
        assert(has_flag(5u8, 1) && !has_flag(5u8, 2) && has_flag(5u8, 4) && !has_flag(5u8, 8));
        assert(has_flag(7u8, 1) && has_flag(7u8, 2) && has_flag(7u8, 4) && !has_flag(7u8, 8));
        assert(has_flag(15u8, 1) && has_flag(15u8, 2) && has_flag(15u8, 4) && has_flag(15u8, 8));
    }
}

/// An encoding is 97 bytes long, 129 with a pending delta.
pub proof fn lemma_encoded_len(value: U256)
    ensures
        spec_encode(value).len() == if value.delta is Some { 129int } else { 97int },
{
    lemma_le_bytes_round_trip(value.value);
    lemma_le_bytes_round_trip(value.limits.0);
    lemma_le_bytes_round_trip(value.limits.1);
    if let Some(op) = value.delta {
        lemma_le_bytes_round_trip(op.operand());
    }
}

/// The encoded size: 97 bytes, plus 32 when a delta is pending.
pub fn encoded_size(value: &U256) -> (r: Result<u64>)
    ensures
        r == Ok::<u64, &'static str>(spec_encode(*value).len() as u64),
        spec_encode(*value).len() == if value.delta is Some { 129int } else { 97int },
{
    proof {
        lemma_encoded_len(*value);
    }
    match value.delta {
        Some(_) => Ok(129),
        None => Ok(97),
    }
}

/// A fresh buffer holding the encoding.
pub fn encode(value: &U256) -> (r: Result<Vec<u8>>)
    ensures
        r matches Ok(v) && v@ == spec_encode(*value),
{
    let size = encoded_size(value)?;
    let mut output: Vec<u8> = vec![0; size as usize];
    let written = encode_to(value, output.as_mut_slice());
    proof {
        assert(output@.take(0) + spec_encode(*value) + output@.skip(size as int) =~= spec_encode(
            *value,
        ));
    }
    match written {
        Ok(_) => Ok(output),
        Err(e) => Err(e),
    }
}

/// Writes the encoding at the start of `output` and returns its length;
/// when `output` is too short, fails without writing.
pub fn encode_to(value: &U256, output: &mut [u8]) -> (r: Result<u64>)
    ensures
        old(output)@.len() < spec_encode(*value).len() ==> {
            &&& r == Err::<u64, &'static str>("output buffer too small")
            &&& final(output)@ == old(output)@
        },
        old(output)@.len() >= spec_encode(*value).len() ==> {
            &&& r == Ok::<u64, &'static str>(spec_encode(*value).len() as u64)
            &&& final(output)@ == overwrite(old(output)@, 0, spec_encode(*value))
        },
{
    let size = encoded_size(value)?;
    if (output.len() as u64) < size {
        return Err("output buffer too small");
    }
    let ghost start = output@;
    assert((1u8 | 4u8) == 5u8 && (5u8 | 2u8) == 7u8 && (7u8 | 8u8) == 15u8) by (bit_vector);
    let flags = match value.delta {
        None => VALUE | LIMITS,
        Some(DeltaOp::Add(_)) => VALUE | LIMITS | DELTA,
        Some(DeltaOp::Sub(_)) => VALUE | LIMITS | DELTA | SUBTRACT,
    };
    let mut writer = Writer::new(output);
    writer.write_u8(flags)?;
    let value_bytes = word_to_le_bytes(value.value);
    writer.write_bytes(&value_bytes)?;
    let ghost a = seq![flags];
    let ghost b = value.value.le_bytes();
    proof {
        lemma_overwrite_concat(start, 0, a, b);
    }
    let ghost delta_bytes = match value.delta {
        Some(op) => op.operand().le_bytes(),
        None => Seq::<u8>::empty(),
    };
    match value.delta {
        Some(DeltaOp::Add(d)) => {
            let delta_le = word_to_le_bytes(d);
            writer.write_bytes(&delta_le)?;
            proof {
                lemma_overwrite_concat(start, 0, a + b, delta_bytes);
            }
        },
        Some(DeltaOp::Sub(d)) => {
            let delta_le = word_to_le_bytes(d);
            writer.write_bytes(&delta_le)?;
            proof {
                lemma_overwrite_concat(start, 0, a + b, delta_bytes);
            }
        },
        None => {
            assert(a + b + delta_bytes =~= a + b);
        },
    }
    let lower = word_to_le_bytes(value.limits.0);
    writer.write_bytes(&lower)?;
    let upper = word_to_le_bytes(value.limits.1);
    writer.write_bytes(&upper)?;
    proof {
        let d = value.limits.0.le_bytes();
        let e = value.limits.1.le_bytes();
        lemma_overwrite_concat(start, 0, a + b + delta_bytes, d);
        lemma_overwrite_concat(start, 0, a + b + delta_bytes + d, e);
    }
    Ok(writer.finish() as u64)
}

/// Parses one counter that fills `input` exactly.
pub fn decode(input: &[u8]) -> (r: Result<U256>)
    ensures
        r == spec_decode(input@),
{
    assert((1u8 | 2u8 | 4u8 | 8u8) == 15u8) by (bit_vector);
    let ghost s = input@;
    let mut reader = Reader::new(input);
    let flags = reader.read_u8()?;
    if has_unknown_flags(flags, VALUE | DELTA | LIMITS | SUBTRACT) || (flag_set(flags, SUBTRACT)
        && !flag_set(flags, DELTA)) {
        return Err("invalid U256 flags");
    }
    let value = if flag_set(flags, VALUE) {
        let v = reader.read_word()?;
        assert(s.skip(1).take(32) =~= s.subrange(1, 33));
        v
    } else {
        Word256::zero()
    };
    let ghost delta_at = reader.offset as int;
    let delta = if flag_set(flags, DELTA) {
        let magnitude = reader.read_word()?;
        assert(s.skip(delta_at).take(32) =~= s.subrange(delta_at, delta_at + 32));
        if flag_set(flags, SUBTRACT) {
            Some(DeltaOp::Sub(magnitude))
        } else {
            Some(DeltaOp::Add(magnitude))
        }
    } else {
        None
    };
    let ghost limits_at = reader.offset as int;
    let limits = if flag_set(flags, LIMITS) {
        let lower = reader.read_word()?;
        assert(s.skip(limits_at).take(32) =~= s.subrange(limits_at, limits_at + 32));
        let upper = reader.read_word()?;
        assert(s.skip(limits_at + 32).take(32) =~= s.subrange(limits_at + 32, limits_at + 64));
        (lower, upper)
    } else {
        (Word256::zero(), Word256::max())
    };
    reader.finish()?;
    Ok(U256 { value, delta, limits })
}

/// A cut-short encoding is refused: decoding any proper prefix of an
/// encoding fails.
pub proof fn lemma_truncated_rejected(value: U256, k: int)
    requires
        0 <= k < spec_encode(value).len(),
    ensures
        spec_decode(spec_encode(value).take(k)) is Err,
{
    lemma_encoded_len(value);
    let s = spec_encode(value).take(k);
    if k > 0 {
        assert(s[0] == spec_flags(value.delta));
        assert(has_flag(5u8, 1) && !has_flag(5u8, 2) && has_flag(5u8, 4));
        assert(has_flag(7u8, 1) && has_flag(7u8, 2) && has_flag(7u8, 4));
        assert(has_flag(15u8, 1) && has_flag(15u8, 2) && has_flag(15u8, 4) && has_flag(15u8, 8));
    }
}

} // verus!
