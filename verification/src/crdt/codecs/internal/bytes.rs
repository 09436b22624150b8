use vstd::prelude::*;

use super::{
    Reader,
    Result,
    Writer,
    has_unknown_flags,
    lemma_le_round_trips,
    lemma_overwrite_concat,
    overwrite,
    short_read,
};
use crate::crdt::types::bytes::Bytes;
use vstd::bytes::{spec_u64_from_le_bytes, spec_u64_to_le_bytes};

verus! {

const PRESENT: u8 = 1;

/// The encoding of a byte value: flag 0 when empty; otherwise flag 1, the
/// length as 8 little-endian bytes, and the bytes.
pub open spec fn spec_encode(value: Option<Seq<u8>>) -> Seq<u8> {
    match value {
        None => seq![0u8],
        Some(d) => seq![1u8] + spec_u64_to_le_bytes(d.len() as u64) + d,
    }
}

/// The encoded size as a number (it may exceed `u64::MAX` in principle).
pub open spec fn spec_size(value: Option<Seq<u8>>) -> int {
    match value {
        None => 1,
        Some(d) => 9 + d.len() as int,
    }
}

/// What `decode` makes of `s`.
pub open spec fn spec_decode(s: Seq<u8>) -> Result<Option<Seq<u8>>> {
    if s.len() < 1 {
        Err(short_read(0, 1))
    } else if s[0] > 1 {
        Err("invalid Bytes flags")
    } else if s[0] == 0 {
        if s.len() > 1 {
            Err("trailing bytes")
        } else {
            Ok(None)
        }
    } else if s.len() < 9 {
        Err(short_read(1, 8))
    } else {
        let length = spec_u64_from_le_bytes(s.subrange(1, 9));
        if length > usize::MAX {
            Err("byte length exceeds usize::MAX")
        } else if 9 + length > usize::MAX {
            Err("encoded size overflow")
        } else if s.len() < 9 + length {
            Err("unexpected end of input")
        } else if s.len() > 9 + length {
            Err("trailing bytes")
        } else {
            Ok(Some(s.subrange(9, 9 + length)))
        }
    }
}

/// Decoding an encoding gives back the bytes that were encoded.
pub proof fn lemma_round_trip(value: Option<Seq<u8>>)
    requires
        spec_size(value) <= usize::MAX,
    ensures
        spec_decode(spec_encode(value)) == Ok::<Option<Seq<u8>>, &'static str>(value),
{
    lemma_le_round_trips();
    if let Some(d) = value {
        let s = spec_encode(value);
        assert(s.subrange(1, 9) =~= spec_u64_to_le_bytes(d.len() as u64));
        assert(s.subrange(9, 9 + d.len() as int) =~= d);
    }
}

/// Inputs outside the format are refused: a flags byte other than empty (0)
/// or present (1), and any byte after the encoding.
pub proof fn lemma_rejects_malformed(s: Seq<u8>, value: Option<Seq<u8>>, extra: Seq<u8>)
    requires
        spec_size(value) <= usize::MAX,
    ensures
        s.len() >= 1 && s[0] > 1 ==> spec_decode(s) == Err::<Option<Seq<u8>>, &'static str>(
            "invalid Bytes flags",
        ),
        extra.len() > 0 ==> spec_decode(spec_encode(value) + extra) == Err::<
            Option<Seq<u8>>,
            &'static str,
        >("trailing bytes"),
{
    lemma_le_round_trips();
    if extra.len() > 0 {
        let t = spec_encode(value) + extra;
        if let Some(d) = value {
            assert(t.subrange(1, 9) =~= spec_u64_to_le_bytes(d.len() as u64));
        }
    }
}

/// The encoded size, or an error when it does not fit in a `u64`.
pub fn encoded_size(value: &Bytes) -> (r: Result<u64>)
    ensures
        spec_size(value@) <= u64::MAX ==> r == Ok::<u64, &'static str>(spec_size(value@) as u64),
        spec_size(value@) > u64::MAX ==> r == Err::<u64, &'static str>("encoded size overflow"),
        r is Ok ==> spec_encode(value@).len() == spec_size(value@),
{
    proof {
        lemma_le_round_trips();
    }
    let bytes = match &value.delta {
        Some(bytes) => bytes,
        None => {
            return Ok(1);
        },
    };
    let length = bytes.len() as u64;
    match 1u64.checked_add(8) {
        Some(size) => match size.checked_add(length) {
            Some(total) => Ok(total),
            None => Err("encoded size overflow"),
        },
        None => Err("encoded size overflow"),
    }
}

/// A fresh buffer holding the encoding.
pub fn encode(value: &Bytes) -> (r: Result<Vec<u8>>)
    ensures
        spec_size(value@) <= usize::MAX ==> (r matches Ok(v) && v@ == spec_encode(value@)),
        spec_size(value@) > usize::MAX ==> r is Err,
{
    let size = encoded_size(value)?;
    if size > usize::MAX as u64 {
        return Err("encoded size exceeds usize::MAX");
    }
    let mut output: Vec<u8> = vec![0; size as usize];
    let written = encode_to(value, output.as_mut_slice());
    proof {
        assert(output@.take(0) + spec_encode(value@) + output@.skip(size as int) =~= spec_encode(
            value@,
        ));
    }
    match written {
        Ok(_) => Ok(output),
        Err(e) => Err(e),
    }
}

/// Writes the encoding at the start of `output` and returns its length;
/// when `output` is too short, fails without writing.
pub fn encode_to(value: &Bytes, output: &mut [u8]) -> (r: Result<u64>)
    ensures
        spec_size(value@) > u64::MAX ==> r == Err::<u64, &'static str>("encoded size overflow")
            && final(output)@ == old(output)@,
        spec_size(value@) <= u64::MAX && old(output)@.len() < spec_size(value@) ==> {
            &&& r == Err::<u64, &'static str>("output buffer too small")
            &&& final(output)@ == old(output)@
        },
        spec_size(value@) <= u64::MAX && old(output)@.len() >= spec_size(value@) ==> {
            &&& r == Ok::<u64, &'static str>(spec_size(value@) as u64)
            &&& final(output)@ == overwrite(old(output)@, 0, spec_encode(value@))
        },
{
    let size = encoded_size(value)?;
    if (output.len() as u64) < size {
        return Err("output buffer too small");
    }
    let ghost start = output@;
    proof {
        lemma_le_round_trips();
    }
    let mut writer = Writer::new(output);
    match &value.delta {
        Some(bytes) => {
            writer.write_u8(PRESENT)?;
            writer.write_u64(bytes.len() as u64)?;
            writer.write_bytes(bytes.as_slice())?;
            proof {
                let a = seq![1u8];
                let b = spec_u64_to_le_bytes(bytes@.len() as u64);
                lemma_overwrite_concat(start, 0, a, b);
                lemma_overwrite_concat(start, 0, a + b, bytes@);
            }
        },
        None => {
            writer.write_u8(0)?;
        },
    }
    Ok(writer.finish() as u64)
}

/// Parses one byte value that fills `input` exactly.
pub fn decode(input: &[u8]) -> (r: Result<Bytes>)
    ensures
        r is Ok <==> spec_decode(input@) is Ok,
        r matches Ok(b) ==> spec_decode(input@) == Ok::<Option<Seq<u8>>, &'static str>(b@),
        r matches Err(e) ==> spec_decode(input@) == Err::<Option<Seq<u8>>, &'static str>(e),
{
    let ghost s = input@;
    let mut reader = Reader::new(input);
    let flags = reader.read_u8()?;
    if has_unknown_flags(flags, PRESENT) {
        return Err("invalid Bytes flags");
    }
    let delta = if flags == PRESENT {
        let length = reader.read_u64()?;
        assert(s.skip(1).take(8) =~= s.subrange(1, 9));
        if length > usize::MAX as u64 {
            return Err("byte length exceeds usize::MAX");
        }
        let bytes = reader.read_bytes(length as usize)?;
        assert(s.skip(9).take(length as int) =~= s.subrange(9, 9 + length));
        Some(vstd::slice::slice_to_vec(bytes))
    } else {
        None
    };
    reader.finish()?;
    Ok(Bytes { delta })
}

/// A cut-short encoding is refused: decoding any proper prefix of an
/// encoding fails.
pub proof fn lemma_truncated_rejected(value: Option<Seq<u8>>, k: int)
    requires
        spec_size(value) <= usize::MAX,
        0 <= k < spec_encode(value).len(),
    ensures
        spec_decode(spec_encode(value).take(k)) is Err,
{
    lemma_le_round_trips();
    let s = spec_encode(value).take(k);
    if let Some(d) = value {
        if k >= 1 {
            assert(s[0] == 1u8);
        }
        if k >= 9 {
            assert(s.subrange(1, 9) =~= spec_u64_to_le_bytes(d.len() as u64));
            assert(spec_u64_from_le_bytes(s.subrange(1, 9)) == d.len());
        }
    }
}

} // verus!
