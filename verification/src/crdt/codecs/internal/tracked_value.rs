use vstd::prelude::*;

use super::{
    Reader,
    Result,
    Writer,
    flag_set,
    has_flag,
    has_unknown_flags,
    lacks_room,
    lemma_le_round_trips,
    lemma_overwrite_concat,
    overwrite,
    short_read,
};
use super::{bytes, int64, u256, u64_set, uint64};
use crate::collections::delta_set::{lemma_wf_slots_unique, slots_unique};
use crate::crdt::state::delta::DeltaOp;
use crate::crdt::state::numeric::Numeric;
use crate::crdt::state::tracked_value::{TrackedValue, TrackedView};
use crate::crdt::state::value::{Value, ValueModel};
use vstd::bytes::{spec_u32_from_le_bytes, spec_u32_to_le_bytes};

verus! {

const NONE: u8 = 0;

const BYTES: u8 = 1;

const I64: u8 = 2;

const U64: u8 = 3;

const U256: u8 = 4;

const U64_SET: u8 = 5;

const IS_NEW: u8 = 1;

const TOMBSTONE: u8 = 2;

const HEADER_SIZE: u64 = 22;

/// The tag that names the kind of a value.
pub open spec fn spec_tag(v: ValueModel) -> u8 {
    match v {
        ValueModel::Absent => 0,
        ValueModel::Bytes(_) => 1,
        ValueModel::Numeric(Numeric::I64(_)) => 2,
        ValueModel::Numeric(Numeric::U64(_)) => 3,
        ValueModel::Numeric(Numeric::U256(_)) => 4,
        ValueModel::U64Set(_, _) => 5,
    }
}

/// The flags byte of a record: 1 for a new value, 2 for a tombstone.
pub open spec fn spec_flags(is_new: bool, tombstone: bool) -> u8 {
    ((if is_new { 1int } else { 0int }) + (if tombstone { 2int } else { 0int })) as u8
}

/// The encoding of a value, as the payload of a record.
pub open spec fn payload_bytes(v: ValueModel) -> Seq<u8> {
    match v {
        ValueModel::Absent => Seq::empty(),
        ValueModel::Bytes(b) => bytes::spec_encode(b),
        ValueModel::Numeric(Numeric::I64(x)) => int64::spec_encode(x),
        ValueModel::Numeric(Numeric::U64(x)) => uint64::spec_encode(x),
        ValueModel::Numeric(Numeric::U256(x)) => u256::spec_encode(x),
        ValueModel::U64Set(entries, delta) => u64_set::spec_encode(entries.slots, delta),
    }
}

/// The size of that payload, as a number.
pub open spec fn payload_size(v: ValueModel) -> int {
    match v {
        ValueModel::Absent => 0,
        ValueModel::Bytes(b) => bytes::spec_size(b),
        ValueModel::Numeric(Numeric::I64(x)) => int64::spec_encode(x).len() as int,
        ValueModel::Numeric(Numeric::U64(x)) => uint64::spec_encode(x).len() as int,
        ValueModel::Numeric(Numeric::U256(x)) => u256::spec_encode(x).len() as int,
        ValueModel::U64Set(entries, delta) => u64_set::spec_size(entries.slots, delta),
    }
}

/// The 22-byte header of a record: the value's tag, the flags, and the read,
/// check, write, delta and creation counts, each as 4 little-endian bytes.
pub open spec fn header_bytes(t: TrackedView) -> Seq<u8> {
    seq![spec_tag(t.value), spec_flags(t.is_new, t.tombstone)] + spec_u32_to_le_bytes(t.reads)
        + spec_u32_to_le_bytes(t.checks) + spec_u32_to_le_bytes(t.writes) + spec_u32_to_le_bytes(
        t.deltas,
    ) + spec_u32_to_le_bytes(t.creates)
}

/// The encoding of a record: its header, then its value. The id is not
/// encoded.
pub open spec fn spec_encode(t: TrackedView) -> Seq<u8> {
    header_bytes(t) + payload_bytes(t.value)
}

/// The encoded size as a number.
pub open spec fn spec_size(t: TrackedView) -> int {
    22 + payload_size(t.value)
}

/// A tombstone must keep the value it hides.
pub open spec fn invalid(tombstone: bool, v: ValueModel) -> bool {
    tombstone && v is Absent
}

/// A value as decoding gives it back: sets as their slots and pending
/// operations.
pub enum Payload {
    Absent,
    Bytes(Option<Seq<u8>>),
    Numeric(Numeric),
    Entries(Seq<Option<u64>>, Option<Seq<DeltaOp<u64>>>),
}

/// A decoded record: its counts, its flags and its value.
pub struct DecodedRecord {
    pub reads: u32,
    pub checks: u32,
    pub writes: u32,
    pub deltas: u32,
    pub creates: u32,
    pub is_new: bool,
    pub tombstone: bool,
    pub payload: Payload,
}

/// The `u32` stored at `at` as 4 little-endian bytes.
pub open spec fn u32_at(s: Seq<u8>, at: int) -> u32 {
    spec_u32_from_le_bytes(s.subrange(at, at + 4))
}

/// What decoding the payload `p` with tag `tag` gives.
pub open spec fn decode_payload(tag: u8, p: Seq<u8>, x: bool, a: bool, b: bool) -> Result<Payload> {
    if tag == 0 {
        if p.len() == 0 {
            Ok(Payload::Absent)
        } else {
            Err("trailing bytes")
        }
    } else if tag == 1 {
        match bytes::spec_decode(p) {
            Ok(v) => Ok(Payload::Bytes(v)),
            Err(e) => Err(e),
        }
    } else if tag == 2 {
        match int64::spec_decode(p) {
            Ok(v) => Ok(Payload::Numeric(Numeric::I64(v))),
            Err(e) => Err(e),
        }
    } else if tag == 3 {
        match uint64::spec_decode(p) {
            Ok(v) => Ok(Payload::Numeric(Numeric::U64(v))),
            Err(e) => Err(e),
        }
    } else if tag == 4 {
        match u256::spec_decode(p) {
            Ok(v) => Ok(Payload::Numeric(Numeric::U256(v))),
            Err(e) => Err(e),
        }
    } else if tag == 5 {
        match u64_set::spec_decode(p, x, a, b) {
            Ok((slots, delta)) => Ok(Payload::Entries(slots, delta)),
            Err(e) => Err(e),
        }
    } else {
        Err("invalid Tracked value tag")
    }
}

/// What `decode` makes of `s`, given whether the room for a set's slots and
/// pending operations could be reserved.
pub open spec fn spec_decode(s: Seq<u8>, x: bool, a: bool, b: bool) -> Result<DecodedRecord> {
    if s.len() < 1 {
        Err(short_read(0, 1))
    } else if s.len() < 2 {
        Err(short_read(1, 1))
    } else if s[1] > 3 {
        Err("invalid Tracked flags")
    } else if s.len() < 6 {
        Err(short_read(2, 4))
    } else if s.len() < 10 {
        Err(short_read(6, 4))
    } else if s.len() < 14 {
        Err(short_read(10, 4))
    } else if s.len() < 18 {
        Err(short_read(14, 4))
    } else if s.len() < 22 {
        Err(short_read(18, 4))
    } else {
        match decode_payload(s[0], s.skip(22), x, a, b) {
            Err(e) => Err(e),
            Ok(payload) => {
                let tombstone = has_flag(s[1], 2);
                if tombstone && payload is Absent {
                    Err("tombstone must retain a value")
                } else {
                    Ok(
                        DecodedRecord {
                            reads: u32_at(s, 2),
                            checks: u32_at(s, 6),
                            writes: u32_at(s, 10),
                            deltas: u32_at(s, 14),
                            creates: u32_at(s, 18),
                            is_new: has_flag(s[1], 1),
                            tombstone,
                            payload,
                        },
                    )
                }
            },
        }
    }
}

/// Whether a decoded value is the value `payload` describes: sets are well
/// formed, with nothing uncommitted.
pub open spec fn holds_payload(v: Value, payload: Payload) -> bool {
    match (v, payload) {
        (Value::Absent, Payload::Absent) => true,
        (Value::Bytes(x), Payload::Bytes(y)) => x@ == y,
        (Value::Numeric(x), Payload::Numeric(y)) => x == y,
        (Value::U64Set(x), Payload::Entries(slots, delta)) => {
            &&& x.entries.wf()
            &&& x.entries@.committed == x.entries@.index
            &&& x.entries@.slots == slots
            &&& u64_set::delta_seq(x.delta) == delta
        },
        _ => false,
    }
}

/// Whether a decoded record is the record `d` describes; its id is 0.
pub open spec fn holds_record(t: TrackedValue, d: DecodedRecord) -> bool {
    &&& t.id == 0
    &&& t.reads == d.reads
    &&& t.checks == d.checks
    &&& t.writes == d.writes
    &&& t.deltas == d.deltas
    &&& t.creates == d.creates
    &&& t.is_new == d.is_new
    &&& t.tombstone == d.tombstone
    &&& holds_payload(t.value, d.payload)
}

/// The payload that decoding gives back for a value.
pub open spec fn expected_payload(v: ValueModel) -> Payload {
    match v {
        ValueModel::Absent => Payload::Absent,
        ValueModel::Bytes(b) => Payload::Bytes(b),
        ValueModel::Numeric(Numeric::U64(x)) => Payload::Numeric(Numeric::U64(uint64::decoded(x))),
        ValueModel::Numeric(n) => Payload::Numeric(n),
        ValueModel::U64Set(entries, delta) => Payload::Entries(
            entries.slots,
            u64_set::decoded_delta(delta),
        ),
    }
}

/// The values that the encoding can carry back: byte strings and sets small
/// enough to be addressed, sets well formed.
pub open spec fn round_trips(v: ValueModel) -> bool {
    match v {
        ValueModel::Bytes(b) => bytes::spec_size(b) <= usize::MAX,
        ValueModel::U64Set(entries, delta) => {
            &&& entries.wf()
            &&& entries.slots.len() <= usize::MAX
            &&& 8 * crate::collections::delta_set::live_in_order(entries.slots).len() <= usize::MAX
            &&& delta matches Some(ops) ==> ops.len() <= usize::MAX
        },
        _ => true,
    }
}

/// Decoding an encoding gives back the record's counts and flags and its
/// value, a set's pending operations with the insertions first and a
/// counter's pending addition of zero as no pending delta.
pub proof fn lemma_round_trip(t: TrackedView)
    requires
        !invalid(t.tombstone, t.value),
        round_trips(t.value),
    ensures
        spec_decode(spec_encode(t), true, true, true) == Ok::<DecodedRecord, &'static str>(
            DecodedRecord {
                reads: t.reads,
                checks: t.checks,
                writes: t.writes,
                deltas: t.deltas,
                creates: t.creates,
                is_new: t.is_new,
                tombstone: t.tombstone,
                payload: expected_payload(t.value),
            },
        ),
{
    lemma_le_round_trips();
    let s = spec_encode(t);
    let h = header_bytes(t);
    assert(h.len() == 22);
    assert(s.skip(22) =~= payload_bytes(t.value));
    assert(s.subrange(2, 6) =~= spec_u32_to_le_bytes(t.reads));
    assert(s.subrange(6, 10) =~= spec_u32_to_le_bytes(t.checks));
    assert(s.subrange(10, 14) =~= spec_u32_to_le_bytes(t.writes));
    assert(s.subrange(14, 18) =~= spec_u32_to_le_bytes(t.deltas));
    assert(s.subrange(18, 22) =~= spec_u32_to_le_bytes(t.creates));
    assert(has_flag(spec_flags(t.is_new, t.tombstone), 1) == t.is_new);
    assert(has_flag(spec_flags(t.is_new, t.tombstone), 2) == t.tombstone);
    match t.value {
        ValueModel::Bytes(b) => {
            bytes::lemma_round_trip(b);
        },
        ValueModel::Numeric(Numeric::I64(x)) => {
            int64::lemma_round_trip(x);
        },
        ValueModel::Numeric(Numeric::U64(x)) => {
            uint64::lemma_round_trip(x);
        },
        ValueModel::Numeric(Numeric::U256(x)) => {
            u256::lemma_round_trip(x);
        },
        ValueModel::U64Set(entries, delta) => {
            lemma_wf_slots_unique(entries);
            u64_set::lemma_round_trip(entries.slots, delta);
        },
        ValueModel::Absent => {},
    }
}

/// Decoding an encoding, whatever the reservations give, yields the record
/// (as `lemma_round_trip` gives it) or a failure to reserve room for a set.
pub proof fn lemma_round_trip_any_room(t: TrackedView, x: bool, a: bool, b: bool)
    requires
        !invalid(t.tombstone, t.value),
        round_trips(t.value),
    ensures
        spec_decode(spec_encode(t), x, a, b) == spec_decode(spec_encode(t), true, true, true) || (
        spec_decode(spec_encode(t), x, a, b) matches Err(e) && lacks_room(e)),
        spec_decode(spec_encode(t), true, true, true) is Ok,
{
    lemma_round_trip(t);
    let s = spec_encode(t);
    if s.len() >= 22 {
        u64_set::lemma_decode_alloc(s.skip(22), x, a, b);
    }
}

/// The size of the payload of `value`, or an error when it does not fit in a
/// `u64`.
fn value_size(value: &Value) -> (r: Result<u64>)
    ensures
        payload_size(value@) <= u64::MAX ==> r == Ok::<u64, &'static str>(
            payload_size(value@) as u64,
        ),
        payload_size(value@) > u64::MAX ==> r == Err::<u64, &'static str>("encoded size overflow"),
{
    match value {
        Value::Absent => Ok(0),
        Value::Bytes(v) => bytes::encoded_size(v),
        Value::Numeric(Numeric::I64(v)) => int64::encoded_size(v),
        Value::Numeric(Numeric::U64(v)) => uint64::encoded_size(v),
        Value::Numeric(Numeric::U256(v)) => u256::encoded_size(v),
        Value::U64Set(v) => u64_set::encoded_size(v),
    }
}

/// Refuses a tombstone without the value it hides.
fn validate(value: &TrackedValue) -> (r: Result<()>)
    ensures
        invalid(value.tombstone, value.value@) ==> r == Err::<(), &'static str>(
            "tombstone must retain a value",
        ),
        !invalid(value.tombstone, value.value@) ==> r is Ok,
{
    if value.tombstone {
        if let Value::Absent = value.value {
            return Err("tombstone must retain a value");
        }
    }
    Ok(())
}

/// The encoded size, or an error for a tombstone without a value or a size
/// that does not fit in a `u64`.
pub fn encoded_size(value: &TrackedValue) -> (r: Result<u64>)
    ensures
        invalid(value.tombstone, value.value@) ==> r == Err::<u64, &'static str>(
            "tombstone must retain a value",
        ),
        !invalid(value.tombstone, value.value@) && spec_size(value@) <= u64::MAX ==> r == Ok::<
            u64,
            &'static str,
        >(spec_size(value@) as u64),
        !invalid(value.tombstone, value.value@) && spec_size(value@) > u64::MAX ==> r == Err::<
            u64,
            &'static str,
        >("encoded size overflow"),
{
    validate(value)?;
    let size = value_size(&value.value)?;
    match HEADER_SIZE.checked_add(size) {
        Some(total) => Ok(total),
        None => Err("encoded size overflow"),
    }
}

/// A fresh buffer holding the encoding.
pub fn encode(value: &TrackedValue) -> (r: Result<Vec<u8>>)
    requires
        value.wf(),
    ensures
        !invalid(value.tombstone, value.value@) && spec_size(value@) <= usize::MAX ==> (r matches Ok(
            v,
        ) && v@ == spec_encode(value@)),
        invalid(value.tombstone, value.value@) || spec_size(value@) > usize::MAX ==> r is Err,
{
    let size = encoded_size(value)?;
    if size > usize::MAX as u64 {
        return Err("encoded size exceeds usize::MAX");
    }
    let mut output: Vec<u8> = vec![0; size as usize];
    let written = encode_to(value, output.as_mut_slice());
    proof {
        lemma_encoded_len(value@);
        let enc = spec_encode(value@);
        assert(output@.take(0) + enc + output@.skip(size as int) =~= enc);
    }
    match written {
        Ok(_) => Ok(output),
        Err(e) => Err(e),
    }
}

/// Records outside the format are refused: flags other than new (1) and
/// tombstone (2), a value tag past the six kinds, and a tombstone that
/// carries no value.
pub proof fn lemma_rejects_malformed(s: Seq<u8>, x: bool, a: bool, b: bool)
    ensures
        s.len() >= 2 && s[1] > 3 ==> spec_decode(s, x, a, b) == Err::<
            DecodedRecord,
            &'static str,
        >("invalid Tracked flags"),
        s.len() >= 22 && s[1] <= 3 && s[0] > 5 ==> spec_decode(s, x, a, b) == Err::<
            DecodedRecord,
            &'static str,
        >("invalid Tracked value tag"),
        s.len() == 22 && s[0] == 0 && (s[1] == 2 || s[1] == 3) ==> spec_decode(s, x, a, b)
            == Err::<DecodedRecord, &'static str>("tombstone must retain a value"),
{
    assert(has_flag(2u8, 2) && has_flag(3u8, 2));
}

/// The encoding is as long as `spec_size` says.
pub proof fn lemma_encoded_len(t: TrackedView)
    ensures
        spec_encode(t).len() == spec_size(t),
{
    lemma_le_round_trips();
    match t.value {
        ValueModel::Bytes(b) => {
            match b {
                Some(d) => {
                    assert(bytes::spec_encode(b).len() == bytes::spec_size(b));
                },
                None => {},
            }
        },
        ValueModel::U64Set(entries, delta) => {
            u64_set::lemma_encoded_len(entries.slots, delta);
        },
        _ => {},
    }
}


/// The tag that names the kind of `value`.
fn value_tag(value: &Value) -> (r: u8)
    ensures
        r == spec_tag(value@),
{
    match value {
        Value::Absent => NONE,
        Value::Bytes(_) => BYTES,
        Value::Numeric(Numeric::I64(_)) => I64,
        Value::Numeric(Numeric::U64(_)) => U64,
        Value::Numeric(Numeric::U256(_)) => U256,
        Value::U64Set(_) => U64_SET,
    }
}

/// Writes the 22-byte header of `value` at the writer's position; the room
/// for it must be there.
fn write_header(value: &TrackedValue, writer: &mut Writer<'_>)
    requires
        old(writer).offset == 0,
        old(writer).output@.len() >= 22,
    ensures
        final(final(writer).output)@ == final(old(writer).output)@,
        final(writer).output@ == overwrite(old(writer).output@, 0, header_bytes(value@)),
        final(writer).offset == 22,
{
    proof {
        lemma_le_round_trips();
    }
    let ghost start = writer.output@;
    let tag = value_tag(&value.value);
    let flags: u8 = (if value.is_new {
        IS_NEW
    } else {
        0
    }) + (if value.tombstone {
        TOMBSTONE
    } else {
        0
    });
    let _ = writer.write_u8(tag);
    let _ = writer.write_u8(flags);
    let _ = writer.write_u32(value.reads);
    let _ = writer.write_u32(value.checks);
    let _ = writer.write_u32(value.writes);
    let _ = writer.write_u32(value.deltas);
    let _ = writer.write_u32(value.creates);
    proof {
        let t = value@;
        let a = seq![tag];
        let b = seq![flags];
        let c1 = spec_u32_to_le_bytes(t.reads);
        let c2 = spec_u32_to_le_bytes(t.checks);
        let c3 = spec_u32_to_le_bytes(t.writes);
        let c4 = spec_u32_to_le_bytes(t.deltas);
        let c5 = spec_u32_to_le_bytes(t.creates);
        lemma_overwrite_concat(start, 0, a, b);
        lemma_overwrite_concat(start, 0, a + b, c1);
        lemma_overwrite_concat(start, 0, a + b + c1, c2);
        lemma_overwrite_concat(start, 0, a + b + c1 + c2, c3);
        lemma_overwrite_concat(start, 0, a + b + c1 + c2 + c3, c4);
        lemma_overwrite_concat(start, 0, a + b + c1 + c2 + c3 + c4, c5);
        assert(a + b + c1 + c2 + c3 + c4 + c5 =~= header_bytes(t));
    }
}

/// Writes the payload of `value` over all of `payload`, which has exactly its
/// size, and returns that size.
fn write_payload(value: &Value, payload: &mut [u8]) -> (r: u64)
    requires
        value.wf(),
        old(payload)@.len() == payload_size(value@),
        payload_size(value@) <= u64::MAX,
        value@ matches ValueModel::U64Set(_, delta) ==> (delta matches Some(ops) ==> ops.len()
            <= usize::MAX),
    ensures
        final(payload)@ == payload_bytes(value@),
        r == payload_size(value@),
{
    proof {
        lemma_le_round_trips();
        if let ValueModel::U64Set(entries, delta) = value@ {
            u64_set::lemma_encoded_len(entries.slots, delta);
        }
    }
    let ghost start = payload@;
    let written = match value {
        Value::Absent => Ok(0),
        Value::Bytes(v) => bytes::encode_to(v, payload),
        Value::Numeric(Numeric::I64(v)) => int64::encode_to(v, payload),
        Value::Numeric(Numeric::U64(v)) => uint64::encode_to(v, payload),
        Value::Numeric(Numeric::U256(v)) => u256::encode_to(v, payload),
        Value::U64Set(v) => u64_set::encode_to(v, payload),
    };
    proof {
        assert(payload@ =~= payload_bytes(value@));
    }
    match written {
        Ok(n) => n,
        Err(_) => 0,
    }
}

/// Writes the encoding at the start of `output` and returns its length; fails
/// without writing for a tombstone without a value, a size that does not fit
/// in a `usize`, or a short `output`.
pub fn encode_to(value: &TrackedValue, output: &mut [u8]) -> (r: Result<u64>)
    requires
        value.wf(),
    ensures
        r is Err ==> final(output)@ == old(output)@,
        invalid(value.tombstone, value.value@) ==> r == Err::<u64, &'static str>(
            "tombstone must retain a value",
        ),
        !invalid(value.tombstone, value.value@) && spec_size(value@) > u64::MAX ==> r == Err::<
            u64,
            &'static str,
        >("encoded size overflow"),
        !invalid(value.tombstone, value.value@) && u64::MAX >= spec_size(value@) > usize::MAX
            ==> r == Err::<u64, &'static str>("encoded size exceeds usize::MAX"),
        !invalid(value.tombstone, value.value@) && spec_size(value@) <= usize::MAX && old(
            output,
        )@.len() < spec_size(value@) ==> r == Err::<u64, &'static str>("output buffer too small"),
        !invalid(value.tombstone, value.value@) && spec_size(value@) <= usize::MAX && old(
            output,
        )@.len() >= spec_size(value@) ==> {
            &&& r == Ok::<u64, &'static str>(spec_size(value@) as u64)
            &&& final(output)@ == overwrite(old(output)@, 0, spec_encode(value@))
        },
{
    let size = encoded_size(value)?;
    if size > usize::MAX as u64 {
        return Err("encoded size exceeds usize::MAX");
    }
    if (output.len() as u64) < size {
        return Err("output buffer too small");
    }
    proof {
        lemma_le_round_trips();
        lemma_encoded_len(value@);
    }
    let ghost start = output@;
    let mut writer = Writer::new(output);
    write_header(value, &mut writer);
    let ghost with_header = output@;
    assert(with_header == overwrite(start, 0, header_bytes(value@)));
    let (_, rest) = output.split_at_mut(22);
    let (payload, _) = rest.split_at_mut((size - HEADER_SIZE) as usize);
    let written = write_payload(&value.value, payload);
    if HEADER_SIZE + written != size {
        return Err("encoded size mismatch");
    }
    assert(output@ =~= overwrite(start, 0, spec_encode(value@)));
    Ok(size)
}

/// What decoding gave, as a record description.
pub open spec fn record_result(r: Result<TrackedValue>, d: Result<DecodedRecord>) -> bool {
    match (r, d) {
        (Ok(t), Ok(x)) => holds_record(t, x),
        (Err(e), Err(f)) => e == f,
        _ => false,
    }
}

/// Decodes the payload of a record with tag `tag`.
fn read_payload(tag: u8, payload: &[u8]) -> (r: Result<Value>)
    ensures
        exists|x: bool, a: bool, b: bool| #[trigger]
            decode_payload(tag, payload@, x, a, b) == match r {
                Ok(v) => Ok(
                    match v {
                        Value::U64Set(set) => Payload::Entries(
                            set.entries@.slots,
                            u64_set::delta_seq(set.delta),
                        ),
                        Value::Bytes(b) => Payload::Bytes(b@),
                        Value::Numeric(n) => Payload::Numeric(n),
                        Value::Absent => Payload::Absent,
                    },
                ),
                Err(e) => Err::<Payload, &'static str>(e),
            },
        r matches Ok(v) ==> (v matches Value::U64Set(set) ==> set.entries.wf()
            && set.entries@.committed == set.entries@.index),
        r matches Ok(v) ==> spec_tag(v@) == tag,
{
    if tag == NONE {
        if payload.len() == 0 {
            assert(decode_payload(tag, payload@, true, true, true) == Ok::<Payload, &'static str>(Payload::Absent));
            return Ok(Value::Absent);
        }
        assert(decode_payload(tag, payload@, true, true, true) == Err::<Payload, &'static str>("trailing bytes"));
        return Err("trailing bytes");
    }
    if tag == BYTES {
        let v = bytes::decode(payload);
        assert(decode_payload(tag, payload@, true, true, true) == match v {
            Ok(b) => Ok(Payload::Bytes(b@)),
            Err(e) => Err::<Payload, &'static str>(e),
        });
        return match v {
            Ok(b) => Ok(Value::Bytes(b)),
            Err(e) => Err(e),
        };
    }
    if tag == I64 {
        let v = int64::decode(payload);
        assert(decode_payload(tag, payload@, true, true, true) == match v {
            Ok(n) => Ok(Payload::Numeric(Numeric::I64(n))),
            Err(e) => Err::<Payload, &'static str>(e),
        });
        return match v {
            Ok(n) => Ok(Value::Numeric(Numeric::I64(n))),
            Err(e) => Err(e),
        };
    }
    if tag == U64 {
        let v = uint64::decode(payload);
        assert(decode_payload(tag, payload@, true, true, true) == match v {
            Ok(n) => Ok(Payload::Numeric(Numeric::U64(n))),
            Err(e) => Err::<Payload, &'static str>(e),
        });
        return match v {
            Ok(n) => Ok(Value::Numeric(Numeric::U64(n))),
            Err(e) => Err(e),
        };
    }
    if tag == U256 {
        let v = u256::decode(payload);
        assert(decode_payload(tag, payload@, true, true, true) == match v {
            Ok(n) => Ok(Payload::Numeric(Numeric::U256(n))),
            Err(e) => Err::<Payload, &'static str>(e),
        });
        return match v {
            Ok(n) => Ok(Value::Numeric(Numeric::U256(n))),
            Err(e) => Err(e),
        };
    }
    if tag == U64_SET {
        let v = u64_set::decode(payload);
        let ghost (x, a, b) = choose|x: bool, a: bool, b: bool|
            #[trigger] u64_set::spec_decode(payload@, x, a, b) == u64_set::set_result(v);
        assert(decode_payload(tag, payload@, x, a, b) == match v {
            Ok(set) => Ok(Payload::Entries(set.entries@.slots, u64_set::delta_seq(set.delta))),
            Err(e) => Err::<Payload, &'static str>(e),
        });
        return match v {
            Ok(set) => Ok(Value::U64Set(set)),
            Err(e) => Err(e),
        };
    }
    assert(decode_payload(tag, payload@, true, true, true) == Err::<Payload, &'static str>(
        "invalid Tracked value tag",
    ));
    Err("invalid Tracked value tag")
}

/// Parses one record that fills `input` exactly; its id is 0.
pub fn decode(input: &[u8]) -> (r: Result<TrackedValue>)
    ensures
        exists|x: bool, a: bool, b: bool| #[trigger]
            record_result(r, spec_decode(input@, x, a, b)),
{
    proof {
        lemma_le_round_trips();
    }
    assert((1u8 | 2u8) == 3u8) by (bit_vector);
    let ghost s = input@;
    let mut reader = Reader::new(input);
    let tag = match reader.read_u8() {
        Ok(t) => t,
        Err(e) => {
            assert(record_result(Err(e), spec_decode(s, true, true, true)));
            return Err(e);
        },
    };
    let flags = match reader.read_u8() {
        Ok(f) => f,
        Err(e) => {
            assert(record_result(Err(e), spec_decode(s, true, true, true)));
            return Err(e);
        },
    };
    if has_unknown_flags(flags, IS_NEW | TOMBSTONE) {
        assert(record_result(Err("invalid Tracked flags"), spec_decode(s, true, true, true)));
        return Err("invalid Tracked flags");
    }
    let reads = match reader.read_u32() {
        Ok(v) => v,
        Err(e) => {
            assert(record_result(Err(e), spec_decode(s, true, true, true)));
            return Err(e);
        },
    };
    let checks = match reader.read_u32() {
        Ok(v) => v,
        Err(e) => {
            assert(record_result(Err(e), spec_decode(s, true, true, true)));
            return Err(e);
        },
    };
    let writes = match reader.read_u32() {
        Ok(v) => v,
        Err(e) => {
            assert(record_result(Err(e), spec_decode(s, true, true, true)));
            return Err(e);
        },
    };
    let deltas = match reader.read_u32() {
        Ok(v) => v,
        Err(e) => {
            assert(record_result(Err(e), spec_decode(s, true, true, true)));
            return Err(e);
        },
    };
    let creates = match reader.read_u32() {
        Ok(v) => v,
        Err(e) => {
            assert(record_result(Err(e), spec_decode(s, true, true, true)));
            return Err(e);
        },
    };
    proof {
        assert(s.skip(2).take(4) =~= s.subrange(2, 6));
        assert(s.skip(6).take(4) =~= s.subrange(6, 10));
        assert(s.skip(10).take(4) =~= s.subrange(10, 14));
        assert(s.skip(14).take(4) =~= s.subrange(14, 18));
        assert(s.skip(18).take(4) =~= s.subrange(18, 22));
    }
    let remaining = reader.remaining();
    let payload = match reader.read_bytes(remaining) {
        Ok(p) => p,
        Err(e) => {
            return Err(e);
        },
    };
    assert(payload@ =~= s.skip(22));
    let value = read_payload(tag, payload);
    let ghost (x, a, b) = choose|x: bool, a: bool, b: bool|
        #[trigger] decode_payload(tag, payload@, x, a, b) == match value {
            Ok(v) => Ok(
                match v {
                    Value::U64Set(set) => Payload::Entries(
                        set.entries@.slots,
                        u64_set::delta_seq(set.delta),
                    ),
                    Value::Bytes(b) => Payload::Bytes(b@),
                    Value::Numeric(n) => Payload::Numeric(n),
                    Value::Absent => Payload::Absent,
                },
            ),
            Err(e) => Err::<Payload, &'static str>(e),
        };
    let value = match value {
        Ok(v) => v,
        Err(e) => {
            assert(record_result(Err(e), spec_decode(s, x, a, b)));
            return Err(e);
        },
    };
    let record = TrackedValue {
        id: 0,
        value,
        reads,
        checks,
        writes,
        deltas,
        creates,
        is_new: flag_set(flags, IS_NEW),
        tombstone: flag_set(flags, TOMBSTONE),
    };
    match validate(&record) {
        Ok(()) => {},
        Err(e) => {
            assert(record_result(Err(e), spec_decode(s, x, a, b)));
            return Err(e);
        },
    }
    assert(record_result(Ok(record), spec_decode(s, x, a, b)));
    Ok(record)
}

/// A cut-short encoding is refused: decoding any proper prefix of an
/// encoding fails, whatever room could be reserved.
pub proof fn lemma_truncated_rejected(t: TrackedView, k: int, x: bool, a: bool, b: bool)
    requires
        round_trips(t.value),
        0 <= k < spec_encode(t).len(),
    ensures
        spec_decode(spec_encode(t).take(k), x, a, b) is Err,
{
    lemma_le_round_trips();
    lemma_encoded_len(t);
    let e = spec_encode(t);
    let s = e.take(k);
    assert(header_bytes(t).len() == 22);
    if k >= 22 {
        let p = payload_bytes(t.value);
        assert(e.skip(22) =~= p);
        assert(s.skip(22) =~= p.take(k - 22));
        assert(s[0] == spec_tag(t.value));
        match t.value {
            ValueModel::Absent => {},
            ValueModel::Bytes(v) => {
                bytes::lemma_truncated_rejected(v, k - 22);
            },
            ValueModel::Numeric(Numeric::I64(v)) => {
                int64::lemma_truncated_rejected(v, k - 22);
            },
            ValueModel::Numeric(Numeric::U64(v)) => {
                uint64::lemma_truncated_rejected(v, k - 22);
            },
            ValueModel::Numeric(Numeric::U256(v)) => {
                u256::lemma_truncated_rejected(v, k - 22);
            },
            ValueModel::U64Set(entries, delta) => {
                u64_set::lemma_truncated_rejected(entries.slots, delta, k - 22, x, a, b);
            },
        }
    }
}

} // verus!
