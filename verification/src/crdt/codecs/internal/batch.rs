//! Several encoded values in one buffer: the number of values, then one
//! offset per value relative to the start of the payload, then the values'
//! encodings back to back.

use vstd::prelude::*;

use super::{Result, Writer, bytes, delta_op, int64, le_u64s, lemma_le_round_trips, lemma_le_u64s,
    lemma_overwrite_concat, overwrite, tracked_value, u256, u64_set, uint64};
use crate::crdt::state::delta::DeltaOp;
use crate::crdt::state::tracked_value::TrackedValue;
use crate::crdt::types::bytes::Bytes;
use crate::crdt::types::int64::I64;
use crate::crdt::types::u256::U256;
use crate::crdt::types::u64_set::U64Set;
use crate::crdt::types::uint64::U64;
use vstd::bytes::spec_u64_to_le_bytes;

verus! {

/// From this many values on, the two halves of the payload are encoded in
/// parallel.
pub const PARALLEL_THRESHOLD: usize = 2048;

/// A value that the compact format can encode, alone or in a batch.
pub trait InternalEncode: Sync {
    /// Whether the value may be encoded at all (its own invariants hold).
    spec fn encodable(&self) -> bool;

    /// What `encoded_size` reports: the size of the encoding, or why there is
    /// none.
    spec fn size_outcome(&self) -> Result<u64>;

    /// The bytes of the encoding.
    spec fn encoding(&self) -> Seq<u8>;

    /// The size of the encoding.
    fn encoded_size(&self) -> (r: Result<u64>)
        requires
            self.encodable(),
        ensures
            r == self.size_outcome(),
            r matches Ok(n) ==> self.encoding().len() == n,
    ;

    /// Writes the encoding at the start of `output` and returns its size;
    /// nothing is written when it fails.
    fn encode_to(&self, output: &mut [u8]) -> (r: Result<u64>)
        requires
            self.encodable(),
        ensures
            r is Err ==> final(output)@ == old(output)@,
            self.size_outcome() is Err ==> r == self.size_outcome(),
            self.size_outcome() is Ok && old(output)@.len() < self.size_outcome()->Ok_0 ==> r is Err,
            self.size_outcome() is Ok && old(output)@.len() >= self.size_outcome()->Ok_0 ==> {
                &&& r == self.size_outcome()
                &&& final(output)@ == overwrite(old(output)@, 0, self.encoding())
            },
    ;
}

impl InternalEncode for Bytes {
    open spec fn encodable(&self) -> bool {
        true
    }

    open spec fn size_outcome(&self) -> Result<u64> {
        if bytes::spec_size(self@) > u64::MAX {
            Err("encoded size overflow")
        } else {
            Ok(bytes::spec_size(self@) as u64)
        }
    }

    open spec fn encoding(&self) -> Seq<u8> {
        bytes::spec_encode(self@)
    }

    fn encoded_size(&self) -> (r: Result<u64>) {
        bytes::encoded_size(self)
    }

    fn encode_to(&self, output: &mut [u8]) -> (r: Result<u64>) {
        bytes::encode_to(self, output)
    }
}

impl InternalEncode for I64 {
    open spec fn encodable(&self) -> bool {
        true
    }

    open spec fn size_outcome(&self) -> Result<u64> {
        Ok(int64::spec_encode(*self).len() as u64)
    }

    open spec fn encoding(&self) -> Seq<u8> {
        int64::spec_encode(*self)
    }

    fn encoded_size(&self) -> (r: Result<u64>) {
        int64::encoded_size(self)
    }

    fn encode_to(&self, output: &mut [u8]) -> (r: Result<u64>) {
        proof {
            int64::lemma_encoded_len(*self);
        }
        int64::encode_to(self, output)
    }
}

impl InternalEncode for U64 {
    open spec fn encodable(&self) -> bool {
        true
    }

    open spec fn size_outcome(&self) -> Result<u64> {
        Ok(uint64::spec_encode(*self).len() as u64)
    }

    open spec fn encoding(&self) -> Seq<u8> {
        uint64::spec_encode(*self)
    }

    fn encoded_size(&self) -> (r: Result<u64>) {
        uint64::encoded_size(self)
    }

    fn encode_to(&self, output: &mut [u8]) -> (r: Result<u64>) {
        proof {
            uint64::lemma_encoded_len(*self);
        }
        uint64::encode_to(self, output)
    }
}

impl InternalEncode for U256 {
    open spec fn encodable(&self) -> bool {
        true
    }

    open spec fn size_outcome(&self) -> Result<u64> {
        Ok(u256::spec_encode(*self).len() as u64)
    }

    open spec fn encoding(&self) -> Seq<u8> {
        u256::spec_encode(*self)
    }

    fn encoded_size(&self) -> (r: Result<u64>) {
        u256::encoded_size(self)
    }

    fn encode_to(&self, output: &mut [u8]) -> (r: Result<u64>) {
        proof {
            u256::lemma_encoded_len(*self);
        }
        u256::encode_to(self, output)
    }
}

impl InternalEncode for Vec<DeltaOp<u64>> {
    open spec fn encodable(&self) -> bool {
        true
    }

    open spec fn size_outcome(&self) -> Result<u64> {
        if delta_op::spec_size(self@) > u64::MAX {
            Err("encoded size overflow")
        } else {
            Ok(delta_op::spec_size(self@) as u64)
        }
    }

    open spec fn encoding(&self) -> Seq<u8> {
        delta_op::spec_encode(self@)
    }

    fn encoded_size(&self) -> (r: Result<u64>) {
        proof {
            delta_op::lemma_encoded_len(self@);
        }
        delta_op::encoded_size(self.as_slice())
    }

    fn encode_to(&self, output: &mut [u8]) -> (r: Result<u64>) {
        delta_op::encode_to(self.as_slice(), output)
    }
}

impl InternalEncode for U64Set {
    open spec fn encodable(&self) -> bool {
        self.entries.wf()
    }

    open spec fn size_outcome(&self) -> Result<u64> {
        let size = u64_set::spec_size(self.entries@.slots, u64_set::delta_seq(self.delta));
        if size > u64::MAX {
            Err("encoded size overflow")
        } else {
            Ok(size as u64)
        }
    }

    open spec fn encoding(&self) -> Seq<u8> {
        u64_set::spec_encode(self.entries@.slots, u64_set::delta_seq(self.delta))
    }

    fn encoded_size(&self) -> (r: Result<u64>) {
        proof {
            u64_set::lemma_encoded_len(self.entries@.slots, u64_set::delta_seq(self.delta));
        }
        u64_set::encoded_size(self)
    }

    fn encode_to(&self, output: &mut [u8]) -> (r: Result<u64>) {
        u64_set::encode_to(self, output)
    }
}

impl InternalEncode for TrackedValue {
    open spec fn encodable(&self) -> bool {
        self.wf()
    }

    open spec fn size_outcome(&self) -> Result<u64> {
        if tracked_value::invalid(self.tombstone, self.value@) {
            Err("tombstone must retain a value")
        } else if tracked_value::spec_size(self@) > u64::MAX {
            Err("encoded size overflow")
        } else {
            Ok(tracked_value::spec_size(self@) as u64)
        }
    }

    open spec fn encoding(&self) -> Seq<u8> {
        tracked_value::spec_encode(self@)
    }

    fn encoded_size(&self) -> (r: Result<u64>) {
        proof {
            tracked_value::lemma_encoded_len(self@);
        }
        tracked_value::encoded_size(self)
    }

    fn encode_to(&self, output: &mut [u8]) -> (r: Result<u64>) {
        proof {
            tracked_value::lemma_encoded_len(self@);
            assert(vstd::slice::spec_slice_len(&*output) == output@.len());
        }
        tracked_value::encode_to(self, output)
    }
}

/// What each value's `encoded_size` reports, in order.
pub open spec fn outcomes(values: Seq<&dyn InternalEncode>) -> Seq<Result<u64>> {
    values.map_values(|v: &dyn InternalEncode| v.size_outcome())
}

/// Every value can be encoded.
pub open spec fn all_encodable(values: Seq<&dyn InternalEncode>) -> bool {
    forall|i: int| 0 <= i < values.len() ==> #[trigger] values[i].encodable()
}

/// The size of the count and offset header for `n` values.
pub open spec fn header_len(n: int) -> int {
    (n + 1) * 8
}

/// Adding the reported sizes to `start` one after another, stopping at the
/// first failure or at the first sum that does not fit in a `u64`.
pub open spec fn accumulate(outs: Seq<Result<u64>>, start: int) -> Result<u64>
    decreases outs.len(),
{
    if outs.len() == 0 {
        Ok(start as u64)
    } else {
        match accumulate(outs.drop_last(), start) {
            Err(e) => Err(e),
            Ok(total) => match outs.last() {
                Err(e) => Err(e),
                Ok(size) => if total + size > u64::MAX {
                    Err("batch encoded size overflow")
                } else {
                    Ok((total + size) as u64)
                },
            },
        }
    }
}

/// What `encoded_size` gives for a batch.
pub open spec fn spec_encoded_size(values: Seq<&dyn InternalEncode>) -> Result<u64> {
    if header_len(values.len() as int) > u64::MAX {
        Err("batch header size overflow")
    } else {
        accumulate(outcomes(values), header_len(values.len() as int))
    }
}

/// The first failure among the reported sizes, in order.
pub open spec fn first_failure(outs: Seq<Result<u64>>) -> Option<&'static str>
    decreases outs.len(),
{
    if outs.len() == 0 {
        None
    } else {
        match outs[0] {
            Err(e) => Some(e),
            Ok(_) => first_failure(outs.skip(1)),
        }
    }
}

/// The reported sizes, a failure counted as 0.
pub open spec fn sizes(outs: Seq<Result<u64>>) -> Seq<u64> {
    outs.map_values(
        |r: Result<u64>|
            match r {
                Ok(s) => s,
                Err(_) => 0u64,
            },
    )
}

/// The sum of some sizes.
pub open spec fn sum(s: Seq<u64>) -> int
    decreases s.len(),
{
    if s.len() == 0 {
        0
    } else {
        s[0] + sum(s.skip(1))
    }
}

/// The offsets of the values within the payload: each is the sum of the
/// sizes before it.
pub open spec fn offsets(s: Seq<u64>) -> Seq<u64> {
    Seq::new(s.len(), |i: int| sum(s.take(i)) as u64)
}

/// The values' encodings back to back.
pub open spec fn payload(values: Seq<&dyn InternalEncode>) -> Seq<u8>
    decreases values.len(),
{
    if values.len() == 0 {
        Seq::empty()
    } else {
        values[0].encoding() + payload(values.skip(1))
    }
}

/// The encoding of a batch: the number of values, their offsets, and their
/// encodings, all numbers as 8 little-endian bytes.
pub open spec fn spec_encode(values: Seq<&dyn InternalEncode>) -> Seq<u8> {
    spec_u64_to_le_bytes(values.len() as u64) + le_u64s(offsets(sizes(outcomes(values))))
        + payload(values)
}

/// What `encode_to` gives for a batch written into a buffer of `room` bytes.
pub open spec fn encode_outcome(values: Seq<&dyn InternalEncode>, room: int) -> Result<u64> {
    let outs = outcomes(values);
    let total = header_len(values.len() as int) + sum(sizes(outs));
    match first_failure(outs) {
        Some(e) => Err(e),
        None => if header_len(values.len() as int) > u64::MAX {
            Err("batch header size overflow")
        } else if total > u64::MAX {
            Err("batch encoded size overflow")
        } else if room < total {
            Err("output buffer too small")
        } else {
            Ok(total as u64)
        },
    }
}

/// Sums split where the sequence is split.
pub proof fn lemma_sum_append(a: Seq<u64>, b: Seq<u64>)
    ensures
        sum(a + b) == sum(a) + sum(b),
    decreases a.len(),
{
    if a.len() == 0 {
        assert(a + b =~= b);
    } else {
        assert((a + b).skip(1) =~= a.skip(1) + b);
        lemma_sum_append(a.skip(1), b);
    }
}

/// A sum is at least the sum of any prefix, and no sum is negative.
pub proof fn lemma_sum_prefix(s: Seq<u64>, i: int)
    requires
        0 <= i <= s.len(),
    ensures
        0 <= sum(s.take(i)) <= sum(s),
        sum(s.take(i)) + sum(s.skip(i)) == sum(s),
{
    lemma_sum_nonneg(s.take(i));
    lemma_sum_nonneg(s.skip(i));
    lemma_sum_append(s.take(i), s.skip(i));
    assert(s.take(i) + s.skip(i) =~= s);
}

/// No sum is negative.
pub proof fn lemma_sum_nonneg(s: Seq<u64>)
    ensures
        sum(s) >= 0,
    decreases s.len(),
{
    if s.len() > 0 {
        lemma_sum_nonneg(s.skip(1));
    }
}

/// Adding one more size at the end.
pub proof fn lemma_sum_push(s: Seq<u64>, i: int)
    requires
        0 <= i < s.len(),
    ensures
        sum(s.take(i + 1)) == sum(s.take(i)) + s[i],
{
    lemma_sum_append(s.take(i), seq![s[i]]);
    assert(s.take(i + 1) =~= s.take(i) + seq![s[i]]);
    lemma_sum_single(s[i]);
}

/// The sum of one size is that size.
pub proof fn lemma_sum_single(x: u64)
    ensures
        sum(seq![x]) == x,
{
    assert(seq![x].skip(1) =~= Seq::<u64>::empty());
    assert(sum(Seq::<u64>::empty()) == 0);
}

/// Payloads split where the values are split.
pub proof fn lemma_payload_append(a: Seq<&dyn InternalEncode>, b: Seq<&dyn InternalEncode>)
    ensures
        payload(a + b) == payload(a) + payload(b),
    decreases a.len(),
{
    if a.len() == 0 {
        assert(a + b =~= b);
        assert(payload(a) + payload(b) =~= payload(b));
    } else {
        assert((a + b).skip(1) =~= a.skip(1) + b);
        lemma_payload_append(a.skip(1), b);
        assert(payload(a + b) =~= payload(a) + payload(b));
    }
}

/// A payload is as long as the reported sizes add up to, when every value
/// reports one.
pub proof fn lemma_payload_len(values: Seq<&dyn InternalEncode>)
    requires
        forall|i: int|
            0 <= i < values.len() ==> (#[trigger] values[i].size_outcome() matches Ok(n)
                && values[i].encoding().len() == n),
    ensures
        payload(values).len() == sum(sizes(outcomes(values))),
    decreases values.len(),
{
    if values.len() > 0 {
        let rest = values.skip(1);
        assert forall|i: int| 0 <= i < rest.len() implies (#[trigger] rest[i].size_outcome() matches Ok(
            n,
        ) && rest[i].encoding().len() == n) by {
            assert(rest[i] == values[i + 1]);
        }
        lemma_payload_len(rest);
        assert(sizes(outcomes(values)).skip(1) =~= sizes(outcomes(rest)));
        assert(values[0].size_outcome() matches Ok(n) && values[0].encoding().len() == n);
    }
}

/// A failure at `i`, after none before it, is the first failure.
pub proof fn lemma_first_failure_at(outs: Seq<Result<u64>>, i: int)
    requires
        0 <= i < outs.len(),
        forall|j: int| 0 <= j < i ==> #[trigger] outs[j] is Ok,
        outs[i] is Err,
    ensures
        first_failure(outs) == Some(outs[i]->Err_0),
    decreases i,
{
    if i > 0 {
        assert(outs[0] is Ok);
        let rest = outs.skip(1);
        assert forall|j: int| 0 <= j < i - 1 implies #[trigger] rest[j] is Ok by {
            assert(rest[j] == outs[j + 1]);
        }
        lemma_first_failure_at(rest, i - 1);
    }
}

/// Without failures there is no first failure.
pub proof fn lemma_no_failure(outs: Seq<Result<u64>>)
    requires
        forall|j: int| 0 <= j < outs.len() ==> #[trigger] outs[j] is Ok,
    ensures
        first_failure(outs) is None,
    decreases outs.len(),
{
    if outs.len() > 0 {
        let rest = outs.skip(1);
        assert forall|j: int| 0 <= j < rest.len() implies #[trigger] rest[j] is Ok by {
            assert(rest[j] == outs[j + 1]);
        }
        lemma_no_failure(rest);
    }
}

/// Once the running sum has failed, it stays failed with the same error.
pub proof fn lemma_accumulate_stays_failed(outs: Seq<Result<u64>>, start: int, i: int)
    requires
        0 <= i <= outs.len(),
        accumulate(outs.take(i), start) is Err,
    ensures
        accumulate(outs, start) == accumulate(outs.take(i), start),
    decreases outs.len() - i,
{
    if i < outs.len() {
        assert(outs.take(i + 1).drop_last() =~= outs.take(i));
        lemma_accumulate_stays_failed(outs, start, i + 1);
    } else {
        assert(outs.take(i) =~= outs);
    }
}

/// A running sum that succeeds saw no failure and adds up all the sizes.
pub proof fn lemma_accumulate_ok(outs: Seq<Result<u64>>, start: int)
    requires
        0 <= start <= u64::MAX,
        accumulate(outs, start) is Ok,
    ensures
        forall|j: int| 0 <= j < outs.len() ==> #[trigger] outs[j] is Ok,
        accumulate(outs, start) == Ok::<u64, &'static str>((start + sum(sizes(outs))) as u64),
        start + sum(sizes(outs)) <= u64::MAX,
    decreases outs.len(),
{
    if outs.len() == 0 {
        assert(sizes(outs) =~= Seq::<u64>::empty());
    } else {
        let init = outs.drop_last();
        lemma_accumulate_ok(init, start);
        lemma_sum_nonneg(sizes(init));
        assert(accumulate(init, start) == Ok::<u64, &'static str>((start + sum(sizes(init))) as u64));
        assert(outs.last() is Ok);
        let size = outs.last()->Ok_0;
        assert(sizes(outs).last() == size);
        assert(start + sum(sizes(init)) + size <= u64::MAX);
        assert(sizes(outs) =~= sizes(init) + seq![sizes(outs).last()]);
        lemma_sum_append(sizes(init), seq![sizes(outs).last()]);
        lemma_sum_single(sizes(outs).last());
        assert forall|j: int| 0 <= j < outs.len() implies #[trigger] outs[j] is Ok by {
            if j < outs.len() - 1 {
                assert(outs[j] == init[j]);
            }
        }
    }
}

/// Writes the number of values and then one offset per value, each as 8
/// little-endian bytes; the sizes must add up within a `u64` and the room
/// must be there.
fn write_header(count: u64, value_sizes: &[u64], writer: &mut Writer<'_>) -> (r: Result<()>)
    requires
        old(writer).offset + 8 * (value_sizes@.len() + 1) <= old(writer).output@.len(),
        count == value_sizes@.len(),
        sum(value_sizes@) <= u64::MAX,
    ensures
        final(final(writer).output)@ == final(old(writer).output)@,
        final(writer).output@.len() == old(writer).output@.len(),
        r is Ok,
        final(writer).output@ == overwrite(
            old(writer).output@,
            old(writer).offset as int,
            spec_u64_to_le_bytes(count) + le_u64s(offsets(value_sizes@)),
        ),
{
    proof {
        lemma_le_round_trips();
    }
    let ghost start = writer.output@;
    let ghost at = writer.offset as int;
    let ghost all = offsets(value_sizes@);
    match writer.write_u64(count) {
        Ok(()) => {},
        Err(e) => {
            return Err(e);
        },
    }
    proof {
        assert(le_u64s(all.take(0)) =~= Seq::<u8>::empty());
        assert(spec_u64_to_le_bytes(count) + le_u64s(all.take(0)) =~= spec_u64_to_le_bytes(count));
    }
    let mut offset: u64 = 0;
    let mut i: usize = 0;
    while i < value_sizes.len()
        invariant
            i <= value_sizes@.len(),
            count == value_sizes@.len(),
            0 <= at,
            at + 8 * (value_sizes@.len() + 1) <= start.len(),
            sum(value_sizes@) <= u64::MAX,
            all == offsets(value_sizes@),
            writer.output@.len() == start.len(),
            writer.offset == at + 8 + 8 * i,
            offset == sum(value_sizes@.take(i as int)),
            writer.output@ == overwrite(
                start,
                at,
                spec_u64_to_le_bytes(count) + le_u64s(all.take(i as int)),
            ),
            final(writer.output)@ == final(old(writer).output)@,
        decreases value_sizes.len() - i,
    {
        proof {
            lemma_le_round_trips();
            lemma_le_u64s(all.take(i as int));
            lemma_sum_push(value_sizes@, i as int);
            lemma_sum_prefix(value_sizes@, i as int + 1);
            lemma_sum_nonneg(value_sizes@.take(i as int));
        }
        let ghost done = spec_u64_to_le_bytes(count) + le_u64s(all.take(i as int));
        match writer.write_u64(offset) {
            Ok(()) => {},
            Err(e) => {
                return Err(e);
            },
        }
        proof {
            lemma_overwrite_concat(start, at, done, spec_u64_to_le_bytes(offset));
            assert(all.take(i + 1).drop_last() =~= all.take(i as int));
            assert(all.take(i + 1).last() == offset);
            assert(done + spec_u64_to_le_bytes(offset) =~= spec_u64_to_le_bytes(count) + le_u64s(
                all.take(i + 1),
            ));
        }
        offset = offset + value_sizes[i];
        i = i + 1;
    }
    assert(all.take(value_sizes@.len() as int) =~= all);
    Ok(())
}

/// The size of a batch: the count and offsets, then every value's encoding.
pub fn encoded_size(values: &[&dyn InternalEncode]) -> (r: Result<u64>)
    requires
        all_encodable(values@),
    ensures
        r == spec_encoded_size(values@),
{
    let count = values.len() as u64;
    let header_size = match count.checked_add(1) {
        Some(c) => match c.checked_mul(8) {
            Some(h) => h,
            None => {
                return Err("batch header size overflow");
            },
        },
        None => {
            return Err("batch header size overflow");
        },
    };
    let ghost outs = outcomes(values@);
    let mut total: u64 = header_size;
    let mut i: usize = 0;
    assert(outs.take(0).len() == 0);
    while i < values.len()
        invariant
            i <= values@.len(),
            all_encodable(values@),
            outs == outcomes(values@),
            header_size == header_len(values@.len() as int),
            accumulate(outs.take(i as int), header_size as int) == Ok::<u64, &'static str>(total),
        decreases values.len() - i,
    {
        assert(values@[i as int].encodable());
        let size = match values[i].encoded_size() {
            Ok(s) => s,
            Err(e) => {
                proof {
                    assert(outs.take(i + 1).drop_last() =~= outs.take(i as int));
                    lemma_accumulate_stays_failed(outs, header_size as int, i + 1);
                }
                return Err(e);
            },
        };
        proof {
            assert(outs.take(i + 1).drop_last() =~= outs.take(i as int));
        }
        total = match total.checked_add(size) {
            Some(t) => t,
            None => {
                proof {
                    lemma_accumulate_stays_failed(outs, header_size as int, i + 1);
                }
                return Err("batch encoded size overflow");
            },
        };
        i = i + 1;
    }
    assert(outs.take(values@.len() as int) =~= outs);
    Ok(total)
}

/// A fresh buffer holding the batch.
pub fn encode(values: &[&dyn InternalEncode]) -> (r: Result<Vec<u8>>)
    requires
        all_encodable(values@),
    ensures
        spec_encoded_size(values@) matches Err(e) ==> r == Err::<Vec<u8>, &'static str>(e),
        spec_encoded_size(values@) matches Ok(n) && n > usize::MAX ==> r == Err::<
            Vec<u8>,
            &'static str,
        >("encoded size exceeds usize::MAX"),
        spec_encoded_size(values@) matches Ok(n) && n <= usize::MAX ==> (r matches Ok(v) && v@
            == spec_encode(values@)),
{
    let size = encoded_size(values)?;
    if size > usize::MAX as u64 {
        return Err("encoded size exceeds usize::MAX");
    }
    proof {
        lemma_accumulate_ok(outcomes(values@), header_len(values@.len() as int));
        lemma_no_failure(outcomes(values@));
    }
    let mut output: Vec<u8> = vec![0; size as usize];
    let written = encode_to(values, output.as_mut_slice());
    match written {
        Ok(_) => {
            proof {
                assert(overwrite(output@, 0, spec_encode(values@)) =~= spec_encode(values@)) by {
                    assert(spec_encode(values@).len() == size);
                }
            }
            Ok(output)
        },
        Err(e) => Err(e),
    }
}

/// A batch is as long as its header and the values' sizes, when every value
/// reports a size.
pub proof fn lemma_encoding_len(values: Seq<&dyn InternalEncode>)
    requires
        forall|i: int|
            0 <= i < values.len() ==> (#[trigger] values[i].size_outcome() matches Ok(n)
                && values[i].encoding().len() == n),
    ensures
        spec_encode(values).len() == header_len(values.len() as int) + sum(
            sizes(outcomes(values)),
        ),
{
    lemma_le_round_trips();
    lemma_le_u64s(offsets(sizes(outcomes(values))));
    lemma_payload_len(values);
}

/// Encodes the count, the offsets and every value into `output`, and returns
/// the size written; nothing is written when it fails.
pub fn encode_to(values: &[&dyn InternalEncode], output: &mut [u8]) -> (r: Result<u64>)
    requires
        all_encodable(values@),
    ensures
        r == encode_outcome(values@, old(output)@.len() as int),
        r is Err ==> final(output)@ == old(output)@,
        r is Ok ==> final(output)@ == overwrite(old(output)@, 0, spec_encode(values@)),
        r is Ok ==> spec_encode(values@).len() == r->Ok_0,
{
    let ghost outs = outcomes(values@);
    let mut value_sizes: Vec<u64> = Vec::new();
    let mut i: usize = 0;
    while i < values.len()
        invariant
            i <= values@.len(),
            all_encodable(values@),
            outs == outcomes(values@),
            value_sizes@ == sizes(outs).take(i as int),
            forall|j: int| 0 <= j < i ==> #[trigger] outs[j] is Ok,
            forall|j: int|
                0 <= j < i ==> (#[trigger] values@[j].size_outcome() matches Ok(n)
                    && values@[j].encoding().len() == n),
        decreases values.len() - i,
    {
        assert(values@[i as int].encodable());
        match values[i].encoded_size() {
            Ok(s) => {
                value_sizes.push(s);
            },
            Err(e) => {
                proof {
                    lemma_first_failure_at(outs, i as int);
                }
                return Err(e);
            },
        }
        assert(value_sizes@ =~= sizes(outs).take(i + 1));
        i = i + 1;
    }
    proof {
        assert(value_sizes@ =~= sizes(outs));
        lemma_no_failure(outs);
    }
    let count = values.len() as u64;
    let header_size_u64 = match count.checked_add(1) {
        Some(c) => match c.checked_mul(8) {
            Some(h) => h,
            None => {
                return Err("batch header size overflow");
            },
        },
        None => {
            return Err("batch header size overflow");
        },
    };
    let mut total_size: u64 = header_size_u64;
    let mut k: usize = 0;
    while k < value_sizes.len()
        invariant
            k <= value_sizes@.len(),
            total_size == header_size_u64 + sum(value_sizes@.take(k as int)),
            header_size_u64 == header_len(values@.len() as int),
            value_sizes@ == sizes(outs),
            outs == outcomes(values@),
            first_failure(outs) is None,
        decreases value_sizes.len() - k,
    {
        proof {
            lemma_sum_push(value_sizes@, k as int);
        }
        total_size = match total_size.checked_add(value_sizes[k]) {
            Some(t) => t,
            None => {
                proof {
                    lemma_sum_prefix(value_sizes@, k + 1);
                }
                return Err("batch encoded size overflow");
            },
        };
        k = k + 1;
    }
    assert(value_sizes@.take(value_sizes@.len() as int) =~= value_sizes@);
    proof {
        lemma_sum_prefix(value_sizes@, 0);
    }
    if (output.len() as u64) < total_size {
        return Err("output buffer too small");
    }
    let header_size = header_size_u64 as usize;
    let ghost before = output@;
    let (header, payload_section) = output.split_at_mut(header_size);
    let ghost payload_before = payload_section@;
    let mut writer = Writer::new(header);
    match write_header(count, value_sizes.as_slice(), &mut writer) {
        Ok(()) => {},
        Err(e) => {
            return Err(e);
        },
    }
    match encode_payload(values, value_sizes.as_slice(), payload_section) {
        Ok(()) => {},
        Err(e) => {
            return Err(e);
        },
    }
    proof {
        lemma_le_round_trips();
        lemma_le_u64s(offsets(value_sizes@));
        lemma_payload_len(values@);
        lemma_encoding_len(values@);
        assert(final(output)@ =~= overwrite(before, 0, spec_encode(values@)));
    }
    Ok(total_size)
}

/// Encodes each value into its own section of `output`, one after another,
/// or in two halves in parallel for large batches.
fn encode_payload(values: &[&dyn InternalEncode], value_sizes: &[u64], output: &mut [u8]) -> (r:
    Result<()>)
    requires
        all_encodable(values@),
        value_sizes@.len() == values@.len(),
        forall|i: int|
            0 <= i < values@.len() ==> #[trigger] values@[i].size_outcome() == Ok::<
                u64,
                &'static str,
            >(value_sizes@[i]),
        forall|i: int|
            0 <= i < values@.len() ==> #[trigger] values@[i].encoding().len() == value_sizes@[i],
        sum(value_sizes@) <= old(output)@.len(),
    ensures
        r is Ok,
        final(output)@ == overwrite(old(output)@, 0, payload(values@)),
{
    if values.len() < PARALLEL_THRESHOLD {
        return encode_in_order(values, value_sizes, output);
    }
    let middle = values.len() / 2;
    let mut left_size: u64 = 0;
    let mut i: usize = 0;
    proof {
        lemma_sum_prefix(value_sizes@, middle as int);
        assert(vstd::slice::spec_slice_len(&*output) == output@.len());
    }
    while i < middle
        invariant
            i <= middle <= value_sizes@.len(),
            left_size == sum(value_sizes@.take(i as int)),
            sum(value_sizes@.take(middle as int)) <= sum(value_sizes@),
            sum(value_sizes@) <= usize::MAX,
        decreases middle - i,
    {
        proof {
            lemma_sum_push(value_sizes@, i as int);
            lemma_sum_prefix(value_sizes@.take(middle as int), i + 1);
            assert(value_sizes@.take(middle as int).take(i + 1) =~= value_sizes@.take(i + 1));
        }
        left_size = match left_size.checked_add(value_sizes[i]) {
            Some(t) => t,
            None => {
                return Err("batch encoded size overflow");
            },
        };
        i = i + 1;
    }
    if left_size > usize::MAX as u64 {
        return Err("batch section exceeds usize::MAX");
    }
    let ghost before = output@;
    let (left_values, right_values) = values.split_at(middle);
    let (left_sizes, right_sizes) = value_sizes.split_at(middle);
    let (left_output, right_output) = output.split_at_mut(left_size as usize);
    proof {
        lemma_sum_prefix(value_sizes@, middle as int);
        assert(left_sizes@ =~= value_sizes@.take(middle as int));
        assert(right_sizes@ =~= value_sizes@.skip(middle as int));
        assert forall|j: int| 0 <= j < left_values@.len() implies #[trigger] left_values@[j].encodable() by {
            assert(left_values@[j] == values@[j]);
        }
        assert forall|j: int| 0 <= j < left_values@.len() implies #[trigger] left_values@[j].size_outcome() == Ok::<u64, &'static str>(left_sizes@[j]) && left_values@[j].encoding().len() == left_sizes@[j] by {
            assert(left_values@[j] == values@[j]);
        }
        assert forall|j: int| 0 <= j < right_values@.len() implies #[trigger] right_values@[j].encodable() by {
            assert(right_values@[j] == values@[middle + j]);
        }
        assert forall|j: int| 0 <= j < right_values@.len() implies #[trigger] right_values@[j].size_outcome() == Ok::<u64, &'static str>(right_sizes@[j]) && right_values@[j].encoding().len() == right_sizes@[j] by {
            assert(right_values@[j] == values@[middle + j]);
        }
    }
    let (left, right) = join_halves(
        left_values,
        left_sizes,
        left_output,
        right_values,
        right_sizes,
        right_output,
    );
    match left {
        Ok(()) => {},
        Err(e) => {
            return Err(e);
        },
    }
    proof {
        assert(values@ =~= left_values@ + right_values@);
        lemma_payload_append(left_values@, right_values@);
        lemma_payload_len(left_values@);
        lemma_payload_len(right_values@);
        assert(sizes(outcomes(left_values@)) =~= left_sizes@);
        assert(sizes(outcomes(right_values@)) =~= right_sizes@);
        assert(payload(left_values@).len() == left_size);
        assert(final(left_output)@ =~= payload(left_values@));
        assert(final(output)@ =~= overwrite(before, 0, payload(values@)));
    }
    right
}

/// Encodes the values one after another, each into the section right after
/// the previous one.
fn encode_in_order(values: &[&dyn InternalEncode], value_sizes: &[u64], output: &mut [u8]) -> (r:
    Result<()>)
    requires
        all_encodable(values@),
        value_sizes@.len() == values@.len(),
        forall|i: int|
            0 <= i < values@.len() ==> #[trigger] values@[i].size_outcome() == Ok::<
                u64,
                &'static str,
            >(value_sizes@[i]),
        forall|i: int|
            0 <= i < values@.len() ==> #[trigger] values@[i].encoding().len() == value_sizes@[i],
        sum(value_sizes@) <= old(output)@.len(),
    ensures
        r is Ok,
        final(output)@ == overwrite(old(output)@, 0, payload(values@)),
    decreases values@.len(),
{
    if values.len() == 0 {
        assert(overwrite(output@, 0, payload(values@)) =~= output@);
        return Ok(());
    }
    proof {
        lemma_sum_nonneg(value_sizes@.skip(1));
        assert(vstd::slice::spec_slice_len(&*output) == output@.len());
    }
    let size = value_sizes[0];
    let ghost before = output@;
    let (section, rest) = output.split_at_mut(size as usize);
    match values[0].encode_to(section) {
        Ok(written) => {
            if written != size {
                return Err("encoded size mismatch");
            }
        },
        Err(e) => {
            return Err(e);
        },
    }
    let (_, rest_values) = values.split_at(1);
    let (_, rest_sizes) = value_sizes.split_at(1);
    proof {
        assert(rest_sizes@ =~= value_sizes@.skip(1));
        assert forall|j: int| 0 <= j < rest_values@.len() implies #[trigger] rest_values@[j].encodable() by {
            assert(rest_values@[j] == values@[1 + j]);
        }
        assert forall|j: int| 0 <= j < rest_values@.len() implies #[trigger] rest_values@[j].size_outcome() == Ok::<u64, &'static str>(rest_sizes@[j]) && rest_values@[j].encoding().len() == rest_sizes@[j] by {
            assert(rest_values@[j] == values@[1 + j]);
        }
    }
    match encode_in_order(rest_values, rest_sizes, rest) {
        Ok(()) => {},
        Err(e) => {
            return Err(e);
        },
    }
    proof {
        assert(rest_values@ =~= values@.skip(1));
        lemma_payload_len(rest_values@);
        assert(sizes(outcomes(rest_values@)) =~= rest_sizes@);
        assert(final(section)@ =~= values@[0].encoding());
        assert(payload(values@) == values@[0].encoding() + payload(rest_values@));
        assert(final(output)@ =~= overwrite(before, 0, payload(values@)));
    }
    Ok(())
}

/// `rayon::join`: runs the two closures, possibly on two threads, and
/// returns both results; each closure only encodes its own half into its own
/// section, so the results are those of `encode_payload` on each half.
#[verifier::external_body]
fn join_halves(
    left_values: &[&dyn InternalEncode],
    left_sizes: &[u64],
    left_output: &mut [u8],
    right_values: &[&dyn InternalEncode],
    right_sizes: &[u64],
    right_output: &mut [u8],
) -> (r: (Result<()>, Result<()>))
    requires
        all_encodable(left_values@),
        left_sizes@.len() == left_values@.len(),
        forall|i: int|
            0 <= i < left_values@.len() ==> #[trigger] left_values@[i].size_outcome() == Ok::<
                u64,
                &'static str,
            >(left_sizes@[i]),
        forall|i: int|
            0 <= i < left_values@.len() ==> #[trigger] left_values@[i].encoding().len()
                == left_sizes@[i],
        sum(left_sizes@) <= old(left_output)@.len(),
        all_encodable(right_values@),
        right_sizes@.len() == right_values@.len(),
        forall|i: int|
            0 <= i < right_values@.len() ==> #[trigger] right_values@[i].size_outcome() == Ok::<
                u64,
                &'static str,
            >(right_sizes@[i]),
        forall|i: int|
            0 <= i < right_values@.len() ==> #[trigger] right_values@[i].encoding().len()
                == right_sizes@[i],
        sum(right_sizes@) <= old(right_output)@.len(),
    ensures
        r.0 is Ok,
        final(left_output)@ == overwrite(old(left_output)@, 0, payload(left_values@)),
        r.1 is Ok,
        final(right_output)@ == overwrite(old(right_output)@, 0, payload(right_values@)),
{
    rayon::join(
        || encode_payload(left_values, left_sizes, left_output),
        || encode_payload(right_values, right_sizes, right_output),
    )
}

} // verus!
