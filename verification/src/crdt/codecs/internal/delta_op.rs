use vstd::prelude::*;

use super::path_delta::write_lists;
use super::{
    Reader,
    Result,
    Writer,
    le_lists,
    lemma_le_round_trips,
    lemma_le_u64s,
    lemma_lists_truncated,
    lemma_lists_round_trip,
    lemma_read_lists_alloc,
    decodes_or_lacks_room,
    overwrite,
    read_lists,
    reserve_exact,
    u64s_at,
};
use crate::crdt::state::delta::DeltaOp;
use crate::crdt::types::u64_set::{added_keys, removed_keys, split_ops};

verus! {

/// The insertions of `added` followed by the removals of `removed`.
pub open spec fn ops_of(added: Seq<u64>, removed: Seq<u64>) -> Seq<DeltaOp<u64>> {
    added.map_values(|k: u64| DeltaOp::Add(k)) + removed.map_values(|k: u64| DeltaOp::Sub(k))
}

/// The encoding of a list of set operations: the inserted keys, then the
/// removed keys, each as a count and that many numbers, all as 8
/// little-endian bytes. Within each kind the order is kept.
pub open spec fn spec_encode(ops: Seq<DeltaOp<u64>>) -> Seq<u8> {
    le_lists(added_keys(ops), removed_keys(ops))
}

/// The encoded size as a number.
pub open spec fn spec_size(ops: Seq<DeltaOp<u64>>) -> int {
    16 + 8 * ops.len() as int
}

/// What reading a list of operations at `at` gives: the operations and the
/// position after them, given whether each kind's room could be reserved.
pub open spec fn spec_read(s: Seq<u8>, at: int, added_alloc: bool, removed_alloc: bool) -> Result<
    (Seq<DeltaOp<u64>>, int),
> {
    match read_lists(s, at, added_alloc, removed_alloc) {
        Err(e) => Err(e),
        Ok((added, removed, end)) => Ok((ops_of(added, removed), end)),
    }
}

/// What `decode` makes of `s`.
pub open spec fn spec_decode(s: Seq<u8>, added_alloc: bool, removed_alloc: bool) -> Result<
    Seq<DeltaOp<u64>>,
> {
    match spec_read(s, 0, added_alloc, removed_alloc) {
        Err(e) => Err(e),
        Ok((ops, end)) => if end < s.len() {
            Err("trailing bytes")
        } else {
            Ok(ops)
        },
    }
}

/// A decoded list as a sequence.
pub open spec fn ops_result(r: Result<Vec<DeltaOp<u64>>>) -> Result<Seq<DeltaOp<u64>>> {
    match r {
        Ok(v) => Ok(v@),
        Err(e) => Err(e),
    }
}

/// Each operation is an insertion or a removal.
pub proof fn lemma_split_counts(ops: Seq<DeltaOp<u64>>)
    ensures
        added_keys(ops).len() + removed_keys(ops).len() == ops.len(),
    decreases ops.len(),
{
    if ops.len() > 0 {
        lemma_split_counts(ops.drop_last());
    }
}

/// The encoding is as long as `spec_size` says.
pub proof fn lemma_encoded_len(ops: Seq<DeltaOp<u64>>)
    ensures
        spec_encode(ops).len() == spec_size(ops),
{
    lemma_split_counts(ops);
    lemma_le_round_trips();
    lemma_le_u64s(added_keys(ops));
    lemma_le_u64s(removed_keys(ops));
}

/// Splitting the insertions-then-removals list of two key lists gives the
/// lists back.
pub proof fn lemma_split_ops_of(added: Seq<u64>, removed: Seq<u64>)
    ensures
        added_keys(ops_of(added, removed)) == added,
        removed_keys(ops_of(added, removed)) == removed,
    decreases added.len() + removed.len(),
{
    let ops = ops_of(added, removed);
    if removed.len() > 0 {
        lemma_split_ops_of(added, removed.drop_last());
        assert(ops.drop_last() =~= ops_of(added, removed.drop_last()));
        assert(removed.drop_last().push(removed.last()) =~= removed);
    } else if added.len() > 0 {
        lemma_split_ops_of(added.drop_last(), removed);
        assert(ops.drop_last() =~= ops_of(added.drop_last(), removed));
        assert(added.drop_last().push(added.last()) =~= added);
    } else {
        assert(ops.len() == 0);
    }
}

/// Decoding an encoding gives back every operation, the insertions first and
/// the removals after them, each kind in its order; a list in that order
/// comes back unchanged.
pub proof fn lemma_round_trip(ops: Seq<DeltaOp<u64>>)
    requires
        ops.len() <= usize::MAX,
    ensures
        spec_decode(spec_encode(ops), true, true) == Ok::<Seq<DeltaOp<u64>>, &'static str>(
            ops_of(added_keys(ops), removed_keys(ops)),
        ),
        spec_encode(ops).len() == spec_size(ops),
        ops == ops_of(added_keys(ops), removed_keys(ops)) ==> spec_decode(
            spec_encode(ops),
            true,
            true,
        ) == Ok::<Seq<DeltaOp<u64>>, &'static str>(ops),
{
    lemma_split_counts(ops);
    let e = Seq::<u8>::empty();
    lemma_lists_round_trip(e, added_keys(ops), removed_keys(ops), e);
    assert(e + spec_encode(ops) + e =~= spec_encode(ops));
}

/// The encoded size, or an error when it does not fit in a `u64`.
pub fn encoded_size(value: &[DeltaOp<u64>]) -> (r: Result<u64>)
    ensures
        spec_size(value@) <= u64::MAX ==> r == Ok::<u64, &'static str>(spec_size(value@) as u64),
        spec_size(value@) > u64::MAX ==> r == Err::<u64, &'static str>("encoded size overflow"),
{
    let count = value.len() as u64;
    let bytes = match count.checked_mul(8) {
        Some(b) => b,
        None => {
            return Err("encoded size overflow");
        },
    };
    match bytes.checked_add(16) {
        Some(size) => Ok(size),
        None => Err("encoded size overflow"),
    }
}

/// A fresh buffer holding the encoding.
pub fn encode(value: &[DeltaOp<u64>]) -> (r: Result<Vec<u8>>)
    ensures
        spec_size(value@) <= usize::MAX ==> (r matches Ok(v) && v@ == spec_encode(value@)),
        spec_size(value@) > usize::MAX ==> r is Err,
{
    let size = encoded_size(value)?;
    if size > usize::MAX as u64 {
        return Err("encoded size exceeds usize::MAX");
    }
    let mut output: Vec<u8> = vec![0; size as usize];
    let written = encode_to(value, output.as_mut_slice());
    proof {
        lemma_round_trip(value@);
        let enc = spec_encode(value@);
        assert(output@.take(0) + enc + output@.skip(size as int) =~= enc);
    }
    match written {
        Ok(_) => Ok(output),
        Err(e) => Err(e),
    }
}

/// Writes the encoding at the start of `output` and returns its length;
/// when `output` is too short, fails without writing.
pub fn encode_to(value: &[DeltaOp<u64>], output: &mut [u8]) -> (r: Result<u64>)
    ensures
        spec_size(value@) > u64::MAX ==> r == Err::<u64, &'static str>("encoded size overflow")
            && final(output)@ == old(output)@,
        spec_size(value@) <= u64::MAX && old(output)@.len() < spec_size(value@) ==> {
            &&& r == Err::<u64, &'static str>("output buffer too small")
            &&& final(output)@ == old(output)@
        },
        spec_size(value@) <= u64::MAX && old(output)@.len() >= spec_size(value@) ==> {
            &&& r == Ok::<u64, &'static str>(spec_size(value@) as u64)
            &&& final(output)@ == overwrite(old(output)@, 0, spec_encode(value@))
        },
{
    let size = encoded_size(value)?;
    if (output.len() as u64) < size {
        return Err("output buffer too small");
    }
    proof {
        lemma_round_trip(value@);
    }
    let mut writer = Writer::new(output);
    write(value, &mut writer)?;
    Ok(writer.finish() as u64)
}

/// Writes the operations at the writer's position; the room for them must be
/// there.
pub(crate) fn write(value: &[DeltaOp<u64>], writer: &mut Writer<'_>) -> (r: Result<()>)
    requires
        old(writer).offset + spec_size(value@) <= old(writer).output@.len(),
    ensures
        final(final(writer).output)@ == final(old(writer).output)@,
        final(writer).output@.len() == old(writer).output@.len(),
        r is Ok,
        final(writer).output@ == overwrite(
            old(writer).output@,
            old(writer).offset as int,
            spec_encode(value@),
        ),
        final(writer).offset == old(writer).offset + spec_encode(value@).len(),
{
    proof {
        lemma_split_counts(value@);
    }
    let (added, removed) = split_ops(value);
    write_lists(added.as_slice(), removed.as_slice(), writer)
}

/// Reads a list of operations from the reader's position.
pub(crate) fn read(reader: &mut Reader<'_>) -> (r: Result<Vec<DeltaOp<u64>>>)
    requires
        old(reader).offset <= old(reader).input@.len(),
    ensures
        final(reader).input@ == old(reader).input@,
        final(reader).offset <= final(reader).input@.len(),
        exists|a: bool, b: bool| #[trigger]
            spec_read(old(reader).input@, old(reader).offset as int, a, b) == match r {
                Ok(v) => Ok((v@, final(reader).offset as int)),
                Err(e) => Err::<(Seq<DeltaOp<u64>>, int), &'static str>(e),
            },
{
    proof {
        lemma_le_round_trips();
    }
    let ghost s = reader.input@;
    let ghost at = reader.offset as int;
    let added_count = match reader.read_u64() {
        Ok(c) => c,
        Err(e) => {
            assert(spec_read(s, at, true, true) == Err::<(Seq<DeltaOp<u64>>, int), &'static str>(e));
            return Err(e);
        },
    };
    assert(s.skip(at).take(8) =~= s.subrange(at, at + 8));
    if added_count > usize::MAX as u64 {
        assert(spec_read(s, at, true, true) == Err::<(Seq<DeltaOp<u64>>, int), &'static str>(
            "added count exceeds usize::MAX",
        ));
        return Err("added count exceeds usize::MAX");
    }
    let added_count = added_count as usize;
    if added_count > reader.remaining().saturating_sub(8) / 8 {
        assert(spec_read(s, at, true, true) == Err::<(Seq<DeltaOp<u64>>, int), &'static str>(
            "invalid added count",
        ));
        return Err("invalid added count");
    }
    let mut operations: Vec<DeltaOp<u64>> = Vec::new();
    if !reserve_exact(&mut operations, added_count) {
        assert(spec_read(s, at, false, true) == Err::<(Seq<DeltaOp<u64>>, int), &'static str>(
            "added allocation failed",
        ));
        return Err("added allocation failed");
    }
    let mut i: usize = 0;
    while i < added_count
        invariant
            reader.input@ == s,
            0 <= at,
            at + 8 + 8 * added_count <= s.len(),
            i <= added_count,
            reader.offset == at + 8 + 8 * i,
            operations@ == u64s_at(s, at + 8, i as int).map_values(|k: u64| DeltaOp::Add(k)),
        decreases added_count - i,
    {
        let ghost pos = reader.offset as int;
        let v = reader.read_u64()?;
        assert(s.skip(pos).take(8) =~= s.subrange(pos, pos + 8));
        operations.push(DeltaOp::Add(v));
        i = i + 1;
        assert(operations@ =~= u64s_at(s, at + 8, i as int).map_values(|k: u64| DeltaOp::Add(k)));
    }
    let ghost p = reader.offset as int;
    let ghost adds = operations@;
    let removed_count = match reader.read_u64() {
        Ok(c) => c,
        Err(e) => {
            assert(spec_read(s, at, true, true) == Err::<(Seq<DeltaOp<u64>>, int), &'static str>(e));
            return Err(e);
        },
    };
    assert(s.skip(p).take(8) =~= s.subrange(p, p + 8));
    if removed_count > usize::MAX as u64 {
        assert(spec_read(s, at, true, true) == Err::<(Seq<DeltaOp<u64>>, int), &'static str>(
            "removed count exceeds usize::MAX",
        ));
        return Err("removed count exceeds usize::MAX");
    }
    let removed_count = removed_count as usize;
    if removed_count > reader.remaining() / 8 {
        assert(spec_read(s, at, true, true) == Err::<(Seq<DeltaOp<u64>>, int), &'static str>(
            "invalid removed count",
        ));
        return Err("invalid removed count");
    }
    if !reserve_exact(&mut operations, removed_count) {
        assert(spec_read(s, at, true, false) == Err::<(Seq<DeltaOp<u64>>, int), &'static str>(
            "removed allocation failed",
        ));
        return Err("removed allocation failed");
    }
    let mut j: usize = 0;
    while j < removed_count
        invariant
            reader.input@ == s,
            p + 8 + 8 * removed_count <= s.len(),
            j <= removed_count,
            reader.offset == p + 8 + 8 * j,
            operations@ == adds + u64s_at(s, p + 8, j as int).map_values(|k: u64| DeltaOp::Sub(k)),
        decreases removed_count - j,
    {
        let ghost pos = reader.offset as int;
        let v = reader.read_u64()?;
        assert(s.skip(pos).take(8) =~= s.subrange(pos, pos + 8));
        operations.push(DeltaOp::Sub(v));
        j = j + 1;
        assert(operations@ =~= adds + u64s_at(s, p + 8, j as int).map_values(
            |k: u64| DeltaOp::Sub(k),
        ));
    }
    assert(spec_read(s, at, true, true) == Ok::<(Seq<DeltaOp<u64>>, int), &'static str>(
        (operations@, reader.offset as int),
    ));
    Ok(operations)
}

/// Parses one list of operations that fills `input` exactly.
pub fn decode(input: &[u8]) -> (r: Result<Vec<DeltaOp<u64>>>)
    ensures
        exists|a: bool, b: bool| #[trigger] spec_decode(input@, a, b) == ops_result(r),
        forall|ops: Seq<DeltaOp<u64>>|
            #![trigger spec_encode(ops)]
            spec_encode(ops) == input@ && ops.len() <= usize::MAX ==> decodes_or_lacks_room(
                ops_result(r),
                ops_of(added_keys(ops), removed_keys(ops)),
            ),
{
    let mut reader = Reader::new(input);
    let value = read(&mut reader);
    let ghost (a, b) = choose|a: bool, b: bool|
        #[trigger] spec_read(input@, 0, a, b) == match value {
            Ok(v) => Ok((v@, reader.offset as int)),
            Err(e) => Err::<(Seq<DeltaOp<u64>>, int), &'static str>(e),
        };
    let value = match value {
        Ok(v) => v,
        Err(e) => {
            assert(spec_decode(input@, a, b) == ops_result(Err(e)));
            proof {
                lemma_encoded_decodes(input@, a, b);
            }
            return Err(e);
        },
    };
    match reader.finish() {
        Ok(()) => {},
        Err(e) => {
            assert(spec_decode(input@, a, b) == ops_result(Err(e)));
            proof {
                lemma_encoded_decodes(input@, a, b);
            }
            return Err(e);
        },
    }
    assert(spec_decode(input@, a, b) == ops_result(Ok(value)));
    proof {
        lemma_encoded_decodes(input@, a, b);
    }
    Ok(value)
}

/// Decoding an encoding of `ops`, whatever the reservations give, yields the
/// operations (insertions first) or a failure to reserve room.
pub proof fn lemma_encoded_decodes(s: Seq<u8>, a: bool, b: bool)
    ensures
        forall|ops: Seq<DeltaOp<u64>>|
            #![trigger spec_encode(ops)]
            spec_encode(ops) == s && ops.len() <= usize::MAX ==> decodes_or_lacks_room(
                spec_decode(s, a, b),
                ops_of(added_keys(ops), removed_keys(ops)),
            ),
{
    assert forall|ops: Seq<DeltaOp<u64>>|
        #![trigger spec_encode(ops)]
        spec_encode(ops) == s && ops.len() <= usize::MAX implies decodes_or_lacks_room(
            spec_decode(s, a, b),
            ops_of(added_keys(ops), removed_keys(ops)),
        ) by {
        lemma_round_trip(ops);
        lemma_read_lists_alloc(s, 0, a, b);
    }
}

/// A cut-short encoding is refused: decoding any proper prefix of an
/// encoding fails.
pub proof fn lemma_truncated_rejected(ops: Seq<DeltaOp<u64>>, k: int, added_alloc: bool, removed_alloc: bool)
    requires
        ops.len() <= usize::MAX,
        0 <= k < spec_encode(ops).len(),
    ensures
        spec_decode(spec_encode(ops).take(k), added_alloc, removed_alloc) is Err,
{
    lemma_split_counts(ops);
    let s = spec_encode(ops).take(k);
    assert(s.skip(0) =~= s);
    lemma_lists_truncated(s, 0, added_keys(ops), removed_keys(ops), added_alloc, removed_alloc);
}

} // verus!
