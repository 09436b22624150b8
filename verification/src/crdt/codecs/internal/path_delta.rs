use vstd::prelude::*;

use super::{
    Reader,
    Result,
    Writer,
    le_lists,
    lemma_le_round_trips,
    lemma_le_u64s,
    decodes_or_lacks_room,
    lemma_lists_round_trip,
    lemma_read_lists_alloc,
    lemma_lists_truncated,
    lemma_overwrite_concat,
    overwrite,
    read_lists,
    reserve_exact,
    u64s_at,
};
use crate::crdt::types::path_meta::PathDelta;
use vstd::bytes::spec_u64_to_le_bytes;

verus! {

/// The encoding of a path delta: the additions, then the removals, each as a
/// count and that many numbers, all as 8 little-endian bytes.
pub open spec fn spec_encode(added: Seq<u64>, removed: Seq<u64>) -> Seq<u8> {
    le_lists(added, removed)
}

/// The encoded size as a number.
pub open spec fn spec_size(added: Seq<u64>, removed: Seq<u64>) -> int {
    16 + 8 * added.len() as int + 8 * removed.len() as int
}

/// What `decode` makes of `s`, given whether each list's room could be
/// reserved.
pub open spec fn spec_decode(s: Seq<u8>, added_alloc: bool, removed_alloc: bool) -> Result<
    (Seq<u64>, Seq<u64>),
> {
    match read_lists(s, 0, added_alloc, removed_alloc) {
        Err(e) => Err(e),
        Ok((added, removed, end)) => if end < s.len() {
            Err("trailing bytes")
        } else {
            Ok((added, removed))
        },
    }
}

/// A decoded delta as its two lists.
pub open spec fn delta_lists(r: Result<PathDelta>) -> Result<(Seq<u64>, Seq<u64>)> {
    match r {
        Ok(d) => Ok((d.added@, d.removed@)),
        Err(e) => Err(e),
    }
}

/// Decoding an encoding gives back the delta that was encoded.
pub proof fn lemma_round_trip(added: Seq<u64>, removed: Seq<u64>)
    requires
        added.len() <= usize::MAX,
        removed.len() <= usize::MAX,
    ensures
        spec_decode(spec_encode(added, removed), true, true) == Ok::<
            (Seq<u64>, Seq<u64>),
            &'static str,
        >((added, removed)),
        spec_encode(added, removed).len() == spec_size(added, removed),
{
    let e = Seq::<u8>::empty();
    lemma_lists_round_trip(e, added, removed, e);
    assert(e + le_lists(added, removed) + e =~= le_lists(added, removed));
}

/// The encoded size, or an error when it does not fit in a `u64`.
pub fn encoded_size(value: &PathDelta) -> (r: Result<u64>)
    ensures
        spec_size(value.added@, value.removed@) <= u64::MAX ==> r == Ok::<u64, &'static str>(
            spec_size(value.added@, value.removed@) as u64,
        ),
        spec_size(value.added@, value.removed@) > u64::MAX ==> r == Err::<u64, &'static str>(
            "encoded size overflow",
        ),
{
    let added = value.added.len() as u64;
    let removed = value.removed.len() as u64;
    let count = match added.checked_add(removed) {
        Some(c) => c,
        None => {
            return Err("encoded size overflow");
        },
    };
    let bytes = match count.checked_mul(8) {
        Some(b) => b,
        None => {
            return Err("encoded size overflow");
        },
    };
    match bytes.checked_add(16) {
        Some(size) => Ok(size),
        None => Err("encoded size overflow"),
    }
}

/// A fresh buffer holding the encoding.
pub fn encode(value: &PathDelta) -> (r: Result<Vec<u8>>)
    ensures
        spec_size(value.added@, value.removed@) <= usize::MAX ==> (r matches Ok(v) && v@
            == spec_encode(value.added@, value.removed@)),
        spec_size(value.added@, value.removed@) > usize::MAX ==> r is Err,
{
    let size = encoded_size(value)?;
    if size > usize::MAX as u64 {
        return Err("encoded size exceeds usize::MAX");
    }
    let mut output: Vec<u8> = vec![0; size as usize];
    let written = encode_to(value, output.as_mut_slice());
    proof {
        lemma_round_trip(value.added@, value.removed@);
        let enc = spec_encode(value.added@, value.removed@);
        assert(output@.take(0) + enc + output@.skip(size as int) =~= enc);
    }
    match written {
        Ok(_) => Ok(output),
        Err(e) => Err(e),
    }
}

/// Writes the encoding at the start of `output` and returns its length;
/// when `output` is too short, fails without writing.
pub fn encode_to(value: &PathDelta, output: &mut [u8]) -> (r: Result<u64>)
    ensures
        spec_size(value.added@, value.removed@) > u64::MAX ==> r == Err::<u64, &'static str>(
            "encoded size overflow",
        ) && final(output)@ == old(output)@,
        spec_size(value.added@, value.removed@) <= u64::MAX && old(output)@.len() < spec_size(
            value.added@,
            value.removed@,
        ) ==> {
            &&& r == Err::<u64, &'static str>("output buffer too small")
            &&& final(output)@ == old(output)@
        },
        spec_size(value.added@, value.removed@) <= u64::MAX && old(output)@.len() >= spec_size(
            value.added@,
            value.removed@,
        ) ==> {
            &&& r == Ok::<u64, &'static str>(spec_size(value.added@, value.removed@) as u64)
            &&& final(output)@ == overwrite(
                old(output)@,
                0,
                spec_encode(value.added@, value.removed@),
            )
        },
{
    let size = encoded_size(value)?;
    if (output.len() as u64) < size {
        return Err("output buffer too small");
    }
    proof {
        lemma_round_trip(value.added@, value.removed@);
    }
    let mut writer = Writer::new(output);
    write_lists(value.added.as_slice(), value.removed.as_slice(), &mut writer)?;
    Ok(writer.finish() as u64)
}

/// Writes two lists, each as its count and its numbers; the room for them
/// must be there.
pub(crate) fn write_lists(first: &[u64], second: &[u64], writer: &mut Writer<'_>) -> (r: Result<
    (),
>)
    requires
        old(writer).offset + 16 + 8 * first@.len() + 8 * second@.len() <= old(writer).output@.len(),
    ensures
        final(final(writer).output)@ == final(old(writer).output)@,
        final(writer).output@.len() == old(writer).output@.len(),
        r is Ok,
        final(writer).output@ == overwrite(
            old(writer).output@,
            old(writer).offset as int,
            le_lists(first@, second@),
        ),
        final(writer).offset == old(writer).offset + le_lists(first@, second@).len(),
{
    proof {
        lemma_le_round_trips();
        lemma_le_u64s(first@);
        lemma_le_u64s(second@);
    }
    let ghost start = writer.output@;
    let ghost at = writer.offset as int;
    let ghost c1 = spec_u64_to_le_bytes(first@.len() as u64);
    let ghost c2 = spec_u64_to_le_bytes(second@.len() as u64);
    writer.write_u64(first.len() as u64)?;
    writer.write_u64s(first)?;
    proof {
        lemma_overwrite_concat(start, at, c1, super::le_u64s(first@));
    }
    writer.write_u64(second.len() as u64)?;
    proof {
        lemma_overwrite_concat(start, at, c1 + super::le_u64s(first@), c2);
    }
    writer.write_u64s(second)?;
    proof {
        lemma_overwrite_concat(start, at, c1 + super::le_u64s(first@) + c2, super::le_u64s(second@));
    }
    Ok(())
}

/// Reads one path delta from the reader's position.
pub(crate) fn read(reader: &mut Reader<'_>) -> (r: Result<PathDelta>)
    requires
        old(reader).offset <= old(reader).input@.len(),
    ensures
        final(reader).input@ == old(reader).input@,
        final(reader).offset <= final(reader).input@.len(),
        exists|a: bool, b: bool| #[trigger]
            read_lists(old(reader).input@, old(reader).offset as int, a, b) == match r {
                Ok(d) => Ok((d.added@, d.removed@, final(reader).offset as int)),
                Err(e) => Err::<(Seq<u64>, Seq<u64>, int), &'static str>(e),
            },
{
    proof {
        lemma_le_round_trips();
    }
    let ghost s = reader.input@;
    let ghost at = reader.offset as int;
    let added_count = match reader.read_u64() {
        Ok(c) => c,
        Err(e) => {
            assert(read_lists(s, at, true, true) == Err::<(Seq<u64>, Seq<u64>, int), &'static str>(e));
            return Err(e);
        },
    };
    assert(s.skip(at).take(8) =~= s.subrange(at, at + 8));
    if added_count > usize::MAX as u64 {
        assert(read_lists(s, at, true, true) == Err::<(Seq<u64>, Seq<u64>, int), &'static str>(
            "added count exceeds usize::MAX",
        ));
        return Err("added count exceeds usize::MAX");
    }
    let added_count = added_count as usize;
    if added_count > reader.remaining().saturating_sub(8) / 8 {
        assert(read_lists(s, at, true, true) == Err::<(Seq<u64>, Seq<u64>, int), &'static str>(
            "invalid added count",
        ));
        return Err("invalid added count");
    }
    let mut added: Vec<u64> = Vec::new();
    if !reserve_exact(&mut added, added_count) {
        assert(read_lists(s, at, false, true) == Err::<(Seq<u64>, Seq<u64>, int), &'static str>(
            "added allocation failed",
        ));
        return Err("added allocation failed");
    }
    let mut i: usize = 0;
    while i < added_count
        invariant
            reader.input@ == s,
            0 <= at,
            at + 8 + 8 * added_count <= s.len(),
            i <= added_count,
            reader.offset == at + 8 + 8 * i,
            added@ == u64s_at(s, at + 8, i as int),
        decreases added_count - i,
    {
        let ghost pos = reader.offset as int;
        let v = reader.read_u64()?;
        assert(s.skip(pos).take(8) =~= s.subrange(pos, pos + 8));
        added.push(v);
        i = i + 1;
        assert(added@ =~= u64s_at(s, at + 8, i as int));
    }
    let ghost p = reader.offset as int;
    let removed_count = match reader.read_u64() {
        Ok(c) => c,
        Err(e) => {
            assert(read_lists(s, at, true, true) == Err::<(Seq<u64>, Seq<u64>, int), &'static str>(e));
            return Err(e);
        },
    };
    assert(s.skip(p).take(8) =~= s.subrange(p, p + 8));
    if removed_count > usize::MAX as u64 {
        assert(read_lists(s, at, true, true) == Err::<(Seq<u64>, Seq<u64>, int), &'static str>(
            "removed count exceeds usize::MAX",
        ));
        return Err("removed count exceeds usize::MAX");
    }
    let removed_count = removed_count as usize;
    if removed_count > reader.remaining() / 8 {
        assert(read_lists(s, at, true, true) == Err::<(Seq<u64>, Seq<u64>, int), &'static str>(
            "invalid removed count",
        ));
        return Err("invalid removed count");
    }
    let mut removed: Vec<u64> = Vec::new();
    if !reserve_exact(&mut removed, removed_count) {
        assert(read_lists(s, at, true, false) == Err::<(Seq<u64>, Seq<u64>, int), &'static str>(
            "removed allocation failed",
        ));
        return Err("removed allocation failed");
    }
    let mut j: usize = 0;
    while j < removed_count
        invariant
            reader.input@ == s,
            p + 8 + 8 * removed_count <= s.len(),
            j <= removed_count,
            reader.offset == p + 8 + 8 * j,
            removed@ == u64s_at(s, p + 8, j as int),
        decreases removed_count - j,
    {
        let ghost pos = reader.offset as int;
        let v = reader.read_u64()?;
        assert(s.skip(pos).take(8) =~= s.subrange(pos, pos + 8));
        removed.push(v);
        j = j + 1;
        assert(removed@ =~= u64s_at(s, p + 8, j as int));
    }
    assert(read_lists(s, at, true, true) == Ok::<(Seq<u64>, Seq<u64>, int), &'static str>(
        (added@, removed@, reader.offset as int),
    ));
    Ok(PathDelta { added, removed })
}

/// Parses one path delta that fills `input` exactly.
pub fn decode(input: &[u8]) -> (r: Result<PathDelta>)
    ensures
        exists|a: bool, b: bool| #[trigger] spec_decode(input@, a, b) == delta_lists(r),
        forall|added: Seq<u64>, removed: Seq<u64>|
            #![trigger spec_encode(added, removed)]
            spec_encode(added, removed) == input@ && added.len() <= usize::MAX && removed.len()
                <= usize::MAX ==> decodes_or_lacks_room(delta_lists(r), (added, removed)),
{
    let mut reader = Reader::new(input);
    let value = read(&mut reader);
    let ghost (a, b) = choose|a: bool, b: bool|
        #[trigger] read_lists(input@, 0, a, b) == match value {
            Ok(d) => Ok((d.added@, d.removed@, reader.offset as int)),
            Err(e) => Err::<(Seq<u64>, Seq<u64>, int), &'static str>(e),
        };
    let value = match value {
        Ok(v) => v,
        Err(e) => {
            assert(spec_decode(input@, a, b) == delta_lists(Err(e)));
            proof {
                lemma_encoded_decodes(input@, a, b);
            }
            return Err(e);
        },
    };
    match reader.finish() {
        Ok(()) => {},
        Err(e) => {
            assert(spec_decode(input@, a, b) == delta_lists(Err(e)));
            proof {
                lemma_encoded_decodes(input@, a, b);
            }
            return Err(e);
        },
    }
    assert(spec_decode(input@, a, b) == delta_lists(Ok(value)));
    proof {
        lemma_encoded_decodes(input@, a, b);
    }
    Ok(value)
}

/// Decoding an encoding of two lists, whatever the reservations give, yields
/// the lists or a failure to reserve room.
pub proof fn lemma_encoded_decodes(s: Seq<u8>, a: bool, b: bool)
    ensures
        forall|added: Seq<u64>, removed: Seq<u64>|
            #![trigger spec_encode(added, removed)]
            spec_encode(added, removed) == s && added.len() <= usize::MAX && removed.len()
                <= usize::MAX ==> decodes_or_lacks_room(spec_decode(s, a, b), (added, removed)),
{
    assert forall|added: Seq<u64>, removed: Seq<u64>|
        #![trigger spec_encode(added, removed)]
        spec_encode(added, removed) == s && added.len() <= usize::MAX && removed.len()
            <= usize::MAX implies decodes_or_lacks_room(spec_decode(s, a, b), (added, removed)) by {
        lemma_round_trip(added, removed);
        lemma_read_lists_alloc(s, 0, a, b);
    }
}

/// A cut-short encoding is refused: decoding any proper prefix of an
/// encoding fails.
pub proof fn lemma_truncated_rejected(
    added: Seq<u64>,
    removed: Seq<u64>,
    k: int,
    added_alloc: bool,
    removed_alloc: bool,
)
    requires
        added.len() <= usize::MAX,
        removed.len() <= usize::MAX,
        0 <= k < spec_encode(added, removed).len(),
    ensures
        spec_decode(spec_encode(added, removed).take(k), added_alloc, removed_alloc) is Err,
{
    let s = spec_encode(added, removed).take(k);
    assert(s.skip(0) =~= s);
    lemma_lists_truncated(s, 0, added, removed, added_alloc, removed_alloc);
}

} // verus!
