//! A compact binary format: little-endian fixed-width fields, one flags byte
//! per value, and length prefixes for variable-size parts.

pub mod batch;
pub mod bytes;
pub mod delta_op;
pub mod int64;
pub mod path_delta;
pub mod u256;
pub mod tracked_value;
pub mod u64_set;
pub mod uint64;

use vstd::prelude::*;

use crate::crdt::types::word::{Word256, word_from_le_bytes};
use vstd::bytes::{
    spec_u32_from_le_bytes,
    spec_u32_to_le_bytes,
    spec_u64_from_le_bytes,
    spec_u64_to_le_bytes,
    u32_from_le_bytes,
    u32_to_le_bytes,
    u64_from_le_bytes,
    u64_to_le_bytes,
};

verus! {

pub type Result<T> = core::result::Result<T, &'static str>;

/// `buf` with `data` written over it from position `at` on.
pub open spec fn overwrite(buf: Seq<u8>, at: int, data: Seq<u8>) -> Seq<u8> {
    buf.take(at) + data + buf.skip(at + data.len())
}

/// The eight little-endian bytes of a signed number (its two's complement).
pub open spec fn i64_le_bytes(value: i64) -> Seq<u8> {
    spec_u64_to_le_bytes(value as u64)
}

/// The signed number whose little-endian bytes are `bytes` (eight of them).
pub open spec fn i64_from_le(bytes: Seq<u8>) -> i64 {
    spec_u64_from_le_bytes(bytes) as i64
}

/// Writing `x` and then `y` right after it writes `x + y`.
pub proof fn lemma_overwrite_concat(buf: Seq<u8>, at: int, x: Seq<u8>, y: Seq<u8>)
    requires
        0 <= at,
        at + x.len() + y.len() <= buf.len(),
    ensures
        overwrite(overwrite(buf, at, x), at + x.len(), y) == overwrite(buf, at, x + y),
{
    assert(overwrite(overwrite(buf, at, x), at + x.len(), y) =~= overwrite(buf, at, x + y));
}

/// The little-endian codings of `u64` and `i64` are inverse to reading them back.
pub proof fn lemma_le_round_trips()
    ensures
        forall|x: u64| #[trigger] spec_u64_to_le_bytes(x).len() == 8,
        forall|x: u64| spec_u64_from_le_bytes(#[trigger] spec_u64_to_le_bytes(x)) == x,
        forall|x: u32| #[trigger] spec_u32_to_le_bytes(x).len() == 4,
        forall|x: u32| spec_u32_from_le_bytes(#[trigger] spec_u32_to_le_bytes(x)) == x,
        forall|x: i64| #[trigger] i64_le_bytes(x).len() == 8,
        forall|x: i64| i64_from_le(#[trigger] i64_le_bytes(x)) == x,
        forall|s: Seq<u8>|
            s.len() == 8 ==> #[trigger] spec_u64_to_le_bytes(spec_u64_from_le_bytes(s)) == s,
        forall|s: Seq<u8>|
            s.len() == 4 ==> #[trigger] spec_u32_to_le_bytes(spec_u32_from_le_bytes(s)) == s,
        forall|s: Seq<u8>| s.len() == 8 ==> #[trigger] i64_le_bytes(i64_from_le(s)) == s,
{
    vstd::bytes::lemma_auto_spec_u64_to_from_le_bytes();
    vstd::bytes::lemma_auto_spec_u32_to_from_le_bytes();
    assert forall|x: u32| spec_u32_from_le_bytes(#[trigger] spec_u32_to_le_bytes(x)) == x by {
        assert(spec_u32_to_le_bytes(x).len() == 4);
    }
    assert forall|x: u64| spec_u64_from_le_bytes(#[trigger] spec_u64_to_le_bytes(x)) == x by {
        assert(spec_u64_to_le_bytes(x).len() == 8);
    }
    assert forall|x: i64| i64_from_le(#[trigger] i64_le_bytes(x)) == x by {
        assert((x as u64) as i64 == x) by (bit_vector);
    }
    assert forall|s: Seq<u8>| s.len() == 8 implies #[trigger] i64_le_bytes(i64_from_le(s)) == s by {
        let u = spec_u64_from_le_bytes(s);
        assert(((u as i64) as u64) == u) by (bit_vector);
    }
}


/// The `u64` stored at `at` as 8 little-endian bytes.
pub open spec fn u64_at(s: Seq<u8>, at: int) -> u64 {
    spec_u64_from_le_bytes(s.subrange(at, at + 8))
}

/// `count` numbers stored one after another from `at` on.
pub open spec fn u64s_at(s: Seq<u8>, at: int, count: int) -> Seq<u64> {
    Seq::new(count as nat, |i: int| u64_at(s, at + 8 * i))
}

/// The little-endian bytes of each of `values`, one after another.
pub open spec fn le_u64s(values: Seq<u64>) -> Seq<u8>
    decreases values.len(),
{
    if values.len() == 0 {
        Seq::empty()
    } else {
        le_u64s(values.drop_last()) + spec_u64_to_le_bytes(values.last())
    }
}

/// The layout of two lists of numbers: a count and that many numbers, twice.
pub open spec fn le_lists(first: Seq<u64>, second: Seq<u64>) -> Seq<u8> {
    spec_u64_to_le_bytes(first.len() as u64) + le_u64s(first) + spec_u64_to_le_bytes(
        second.len() as u64,
    ) + le_u64s(second)
}

/// What reading two lists from position `at` of `s` gives: the lists and the
/// position after them. `first_alloc` and `second_alloc` say whether the
/// room for each list could be reserved (an empty list needs none).
pub open spec fn read_lists(s: Seq<u8>, at: int, first_alloc: bool, second_alloc: bool) -> Result<
    (Seq<u64>, Seq<u64>, int),
> {
    if s.len() < at + 8 {
        Err(short_read(at, 8))
    } else {
        let first_count = u64_at(s, at);
        let after_count = s.len() - at - 8;
        if first_count > usize::MAX {
            Err("added count exceeds usize::MAX")
        } else if first_count > (if after_count >= 8 { after_count - 8 } else { 0 }) / 8 {
            Err("invalid added count")
        } else if !first_alloc && first_count != 0 {
            Err("added allocation failed")
        } else {
            let p = at + 8 + 8 * first_count;
            if s.len() < p + 8 {
                Err(short_read(p, 8))
            } else {
                let second_count = u64_at(s, p);
                if second_count > usize::MAX {
                    Err("removed count exceeds usize::MAX")
                } else if second_count > (s.len() - p - 8) / 8 {
                    Err("invalid removed count")
                } else if !second_alloc && second_count != 0 {
                    Err("removed allocation failed")
                } else {
                    Ok(
                        (
                            u64s_at(s, at + 8, first_count as int),
                            u64s_at(s, p + 8, second_count as int),
                            p + 8 + 8 * second_count,
                        ),
                    )
                }
            }
        }
    }
}

/// A decoding outcome is `expected`, or a failure to reserve room for the
/// first list (the insertions) or the second (the removals).
pub open spec fn decodes_or_lacks_room<T>(r: Result<T>, expected: T) -> bool {
    ||| r == Ok::<T, &'static str>(expected)
    ||| r == Err::<T, &'static str>("added allocation failed")
    ||| r == Err::<T, &'static str>("removed allocation failed")
}

/// The bytes of `bytes` when `present`, nothing otherwise.
pub open spec fn field_if(present: bool, bytes: Seq<u8>) -> Seq<u8> {
    if present {
        bytes
    } else {
        Seq::empty()
    }
}

/// The flags byte announcing the value (1), the delta (2), the limits (4)
/// and a subtracting delta (8).
pub open spec fn flags_byte(with_value: bool, with_delta: bool, with_limits: bool, subtract: bool) -> u8 {
    ((if with_value { 1int } else { 0int }) + (if with_delta { 2int } else { 0int }) + (
    if with_limits { 4int } else { 0int }) + (if subtract { 8int } else { 0int })) as u8
}

/// Whether `e` reports that room could not be reserved.
pub open spec fn lacks_room(e: &'static str) -> bool {
    ||| e == "added allocation failed"
    ||| e == "removed allocation failed"
    ||| e == "slot allocation failed"
}

/// The reservations only decide whether reading the lists fails for want of
/// room: any outcome is the one with both granted, or a reservation failure.
pub proof fn lemma_read_lists_alloc(s: Seq<u8>, at: int, first_alloc: bool, second_alloc: bool)
    ensures
        read_lists(s, at, first_alloc, second_alloc) == read_lists(s, at, true, true)
            || read_lists(s, at, first_alloc, second_alloc) == Err::<
            (Seq<u64>, Seq<u64>, int),
            &'static str,
        >("added allocation failed") || read_lists(s, at, first_alloc, second_alloc) == Err::<
            (Seq<u64>, Seq<u64>, int),
            &'static str,
        >("removed allocation failed"),
{
}

/// The bytes of each number sit at their place in `le_u64s`.
pub proof fn lemma_le_u64s(values: Seq<u64>)
    ensures
        le_u64s(values).len() == 8 * values.len(),
        forall|i: int|
            0 <= i < values.len() ==> le_u64s(values).subrange(8 * i, 8 * i + 8)
                == spec_u64_to_le_bytes(#[trigger] values[i]),
    decreases values.len(),
{
    lemma_le_round_trips();
    if values.len() > 0 {
        let rest = values.drop_last();
        lemma_le_u64s(rest);
        let s = le_u64s(values);
        assert forall|i: int| 0 <= i < values.len() implies s.subrange(8 * i, 8 * i + 8)
            == spec_u64_to_le_bytes(#[trigger] values[i]) by {
            if i < rest.len() {
                assert(rest[i] == values[i]);
                assert(s.subrange(8 * i, 8 * i + 8) =~= le_u64s(rest).subrange(8 * i, 8 * i + 8));
            } else {
                assert(s.subrange(8 * i, 8 * i + 8) =~= spec_u64_to_le_bytes(values.last()));
            }
        }
    }
}

/// Reading back numbers that were laid out with `le_u64s` gives them back.
pub proof fn lemma_u64s_round_trip(prefix: Seq<u8>, values: Seq<u64>, suffix: Seq<u8>)
    ensures
        u64s_at(prefix + le_u64s(values) + suffix, prefix.len() as int, values.len() as int)
            == values,
{
    lemma_le_round_trips();
    lemma_le_u64s(values);
    let s = prefix + le_u64s(values) + suffix;
    let at = prefix.len() as int;
    assert forall|i: int| 0 <= i < values.len() implies #[trigger] u64s_at(s, at, values.len() as int)[i]
        == values[i] by {
        assert(s.subrange(at + 8 * i, at + 8 * i + 8) =~= le_u64s(values).subrange(8 * i, 8 * i + 8));
    }
    assert(u64s_at(s, at, values.len() as int) =~= values);
}

/// Reading two lists laid out with `le_lists` gives them back, and stops
/// right after them.
pub proof fn lemma_lists_round_trip(
    prefix: Seq<u8>,
    first: Seq<u64>,
    second: Seq<u64>,
    suffix: Seq<u8>,
)
    requires
        first.len() <= usize::MAX,
        second.len() <= usize::MAX,
    ensures
        read_lists(prefix + le_lists(first, second) + suffix, prefix.len() as int, true, true) == Ok::<
            (Seq<u64>, Seq<u64>, int),
            &'static str,
        >((first, second, (prefix.len() + le_lists(first, second).len()) as int)),
        le_lists(first, second).len() == 16 + 8 * first.len() + 8 * second.len(),
{
    lemma_le_round_trips();
    lemma_le_u64s(first);
    lemma_le_u64s(second);
    let at = prefix.len() as int;
    let c1 = spec_u64_to_le_bytes(first.len() as u64);
    let c2 = spec_u64_to_le_bytes(second.len() as u64);
    let s = prefix + le_lists(first, second) + suffix;
    assert(s.subrange(at, at + 8) =~= c1);
    let p = at + 8 + 8 * first.len();
    assert(s.subrange(p, p + 8) =~= c2);
    assert(s =~= (prefix + c1) + le_u64s(first) + (c2 + le_u64s(second) + suffix));
    lemma_u64s_round_trip(prefix + c1, first, c2 + le_u64s(second) + suffix);
    assert(s =~= (prefix + c1 + le_u64s(first) + c2) + le_u64s(second) + suffix);
    lemma_u64s_round_trip(prefix + c1 + le_u64s(first) + c2, second, suffix);
}

/// Reading two lists from a cut-short layout fails: when the input holds,
/// from `at` on, a proper prefix of the layout of two lists, the read is
/// refused.
pub proof fn lemma_lists_truncated(
    s: Seq<u8>,
    at: int,
    first: Seq<u64>,
    second: Seq<u64>,
    first_alloc: bool,
    second_alloc: bool,
)
    requires
        0 <= at <= s.len(),
        first.len() <= usize::MAX,
        second.len() <= usize::MAX,
        s.len() - at < le_lists(first, second).len(),
        s.skip(at) == le_lists(first, second).take(s.len() - at),
    ensures
        read_lists(s, at, first_alloc, second_alloc) is Err,
{
    lemma_le_round_trips();
    lemma_le_u64s(first);
    lemma_le_u64s(second);
    let e = le_lists(first, second);
    let k = s.len() - at;
    if k >= 8 {
        assert forall|j: int| 0 <= j < 8 implies #[trigger] s.subrange(at, at + 8)[j] == e.subrange(
            0,
            8,
        )[j] by {
            assert(s.skip(at)[j] == s[at + j]);
            assert(e.take(k)[j] == e[j]);
        }
        assert(s.subrange(at, at + 8) =~= e.subrange(0, 8));
        assert(e.subrange(0, 8) =~= spec_u64_to_le_bytes(first.len() as u64));
    }
    let p = 8 + 8 * first.len() as int;
    if k >= p + 8 {
        assert forall|j: int| 0 <= j < 8 implies #[trigger] s.subrange(at + p, at + p + 8)[j]
            == e.subrange(p, p + 8)[j] by {
            assert(s.skip(at)[p + j] == s[at + p + j]);
            assert(e.take(k)[p + j] == e[p + j]);
        }
        assert(s.subrange(at + p, at + p + 8) =~= e.subrange(p, p + 8));
        assert(e.subrange(p, p + 8) =~= spec_u64_to_le_bytes(second.len() as u64));
    }
}

/// The error of a read of `length` bytes at `offset` that runs past the
/// input: an offset overflow, or an ordinary end of input.
pub open spec fn short_read(offset: int, length: int) -> &'static str {
    if offset + length > usize::MAX {
        "encoded size overflow"
    } else {
        "unexpected end of input"
    }
}

/// Whether the flag `bit` (a power of two) is set in `flags`.
pub open spec fn has_flag(flags: u8, bit: u8) -> bool {
    (flags / bit) % 2 == 1
}

/// `flags & bit != 0`, for the single-bit flags that the formats use.
pub(crate) fn flag_set(flags: u8, bit: u8) -> (r: bool)
    requires
        bit == 1 || bit == 2 || bit == 4 || bit == 8,
    ensures
        r == has_flag(flags, bit),
{
    if bit == 1 {
        assert((flags & 1 != 0) == ((flags / 1) % 2 == 1)) by (bit_vector);
    } else if bit == 2 {
        assert((flags & 2 != 0) == ((flags / 2) % 2 == 1)) by (bit_vector);
    } else if bit == 4 {
        assert((flags & 4 != 0) == ((flags / 4) % 2 == 1)) by (bit_vector);
    } else {
        assert((flags & 8 != 0) == ((flags / 8) % 2 == 1)) by (bit_vector);
    }
    flags & bit != 0
}

/// `flags & !allowed != 0`: some bit outside `allowed` (one less than a power
/// of two) is set.
pub(crate) fn has_unknown_flags(flags: u8, allowed: u8) -> (r: bool)
    requires
        allowed == 1 || allowed == 3 || allowed == 7 || allowed == 15,
    ensures
        r == (flags > allowed),
{
    if allowed == 1 {
        assert((flags & !1u8 != 0) == (flags > 1)) by (bit_vector);
    } else if allowed == 3 {
        assert((flags & !3u8 != 0) == (flags > 3)) by (bit_vector);
    } else if allowed == 7 {
        assert((flags & !7u8 != 0) == (flags > 7)) by (bit_vector);
    } else {
        assert((flags & !15u8 != 0) == (flags > 15)) by (bit_vector);
    }
    flags & !allowed != 0
}

/// `Vec::try_reserve_exact`: asks the allocator for room for `additional`
/// more items and reports whether it got it; that depends on the allocator,
/// except that nothing needs reserving (and it succeeds) when `additional`
/// is zero. The items stay as they were either way.
#[verifier::external_body]
pub(crate) fn reserve_exact<T>(v: &mut Vec<T>, additional: usize) -> (r: bool)
    ensures
        final(v)@ == old(v)@,
        additional == 0 ==> r,
{
    v.try_reserve_exact(additional).is_ok()
}

/// Writes fields one after another into a caller's buffer.
pub(crate) struct Writer<'a> {
    pub(crate) output: &'a mut [u8],
    pub(crate) offset: usize,
}

impl<'a> Writer<'a> {
    pub(crate) fn new(output: &'a mut [u8]) -> (w: Self)
        ensures
            w.offset == 0,
            w.output@ == old(output)@,
            final(w.output)@ == final(output)@,
    {
        Writer { output, offset: 0 }
    }

    #[inline]
    pub(crate) fn write_u8(&mut self, value: u8) -> (r: Result<()>)
        requires
            old(self).offset <= old(self).output@.len(),
        ensures
            final(final(self).output)@ == final(old(self).output)@,
            final(self).output@.len() == old(self).output@.len(),
            r is Ok <==> old(self).offset + 1 <= old(self).output@.len(),
            r is Ok ==> {
                &&& final(self).output@ == overwrite(old(self).output@, old(self).offset as int, seq![value])
                &&& final(self).offset == old(self).offset + 1
            },
            r is Err ==> final(self).output@ == old(self).output@ && final(self).offset == old(self).offset,
    {
        let bytes: [u8; 1] = [value];
        assert(bytes@ =~= seq![value]);
        self.write_bytes(&bytes)
    }

    #[inline]
    pub(crate) fn write_u32(&mut self, value: u32) -> (r: Result<()>)
        requires
            old(self).offset <= old(self).output@.len(),
        ensures
            final(final(self).output)@ == final(old(self).output)@,
            final(self).output@.len() == old(self).output@.len(),
            r is Ok <==> old(self).offset + 4 <= old(self).output@.len(),
            r is Ok ==> {
                &&& final(self).output@ == overwrite(
                    old(self).output@,
                    old(self).offset as int,
                    spec_u32_to_le_bytes(value),
                )
                &&& final(self).offset == old(self).offset + 4
            },
            r is Err ==> final(self).output@ == old(self).output@ && final(self).offset == old(self).offset,
    {
        let bytes = u32_to_le_bytes(value);
        self.write_bytes(bytes.as_slice())
    }

    #[inline]
    pub(crate) fn write_u64(&mut self, value: u64) -> (r: Result<()>)
        requires
            old(self).offset <= old(self).output@.len(),
        ensures
            final(final(self).output)@ == final(old(self).output)@,
            final(self).output@.len() == old(self).output@.len(),
            r is Ok <==> old(self).offset + 8 <= old(self).output@.len(),
            r is Ok ==> {
                &&& final(self).output@ == overwrite(
                    old(self).output@,
                    old(self).offset as int,
                    spec_u64_to_le_bytes(value),
                )
                &&& final(self).offset == old(self).offset + 8
            },
            r is Err ==> final(self).output@ == old(self).output@ && final(self).offset == old(self).offset,
    {
        let bytes = u64_to_le_bytes(value);
        self.write_bytes(bytes.as_slice())
    }

    #[inline]
    pub(crate) fn write_i64(&mut self, value: i64) -> (r: Result<()>)
        requires
            old(self).offset <= old(self).output@.len(),
        ensures
            final(final(self).output)@ == final(old(self).output)@,
            final(self).output@.len() == old(self).output@.len(),
            r is Ok <==> old(self).offset + 8 <= old(self).output@.len(),
            r is Ok ==> {
                &&& final(self).output@ == overwrite(
                    old(self).output@,
                    old(self).offset as int,
                    i64_le_bytes(value),
                )
                &&& final(self).offset == old(self).offset + 8
            },
            r is Err ==> final(self).output@ == old(self).output@ && final(self).offset == old(self).offset,
    {
        self.write_u64(value as u64)
    }

    /// Copies `value` at the current position; fails without writing when it
    /// does not fit.
    #[inline]
    pub(crate) fn write_bytes(&mut self, value: &[u8]) -> (r: Result<()>)
        requires
            old(self).offset <= old(self).output@.len(),
        ensures
            final(final(self).output)@ == final(old(self).output)@,
            final(self).output@.len() == old(self).output@.len(),
            r is Ok <==> old(self).offset + value@.len() <= old(self).output@.len(),
            r is Ok ==> {
                &&& final(self).output@ == overwrite(
                    old(self).output@,
                    old(self).offset as int,
                    value@,
                )
                &&& final(self).offset == old(self).offset + value@.len()
            },
            r is Err ==> final(self).output@ == old(self).output@ && final(self).offset == old(self).offset,
    {
        let out_len = self.output.len();
        let end = match self.offset.checked_add(value.len()) {
            Some(end) => end,
            None => {
                return Err("encoded size overflow");
            },
        };
        if end > out_len {
            return Err("output buffer too small");
        }
        let start = self.offset;
        let ghost before = self.output@;
        let mut i: usize = 0;
        while i < value.len()
            invariant
                start + value@.len() <= self.output@.len(),
                self.output@.len() == out_len,
                self.output@.len() == before.len(),
                0 <= i <= value@.len(),
                self.output@ == overwrite(before, start as int, value@.take(i as int)),
                final(self.output)@ == final(old(self).output)@,
            decreases value@.len() - i,
        {
            self.output[start + i] = value[i];
            i = i + 1;
            assert(self.output@ =~= overwrite(before, start as int, value@.take(i as int)));
        }
        assert(value@.take(value@.len() as int) =~= value@);
        self.offset = end;
        Ok(())
    }


    /// Writes each of `values` as 8 little-endian bytes; the room for them
    /// must be there.
    pub(crate) fn write_u64s(&mut self, values: &[u64]) -> (r: Result<()>)
        requires
            old(self).offset + 8 * values@.len() <= old(self).output@.len(),
        ensures
            final(final(self).output)@ == final(old(self).output)@,
            final(self).output@.len() == old(self).output@.len(),
            r is Ok,
            final(self).output@ == overwrite(old(self).output@, old(self).offset as int, le_u64s(values@)),
            final(self).offset == old(self).offset + 8 * values@.len(),
    {
        let ghost start = self.output@;
        let ghost at = self.offset as int;
        let mut i: usize = 0;
        while i < values.len()
            invariant
                i <= values.len(),
                at + 8 * values@.len() <= start.len(),
                self.output@.len() == start.len(),
                self.offset == at + 8 * i,
                self.output@ == overwrite(start, at, le_u64s(values@.take(i as int))),
                final(self.output)@ == final(old(self).output)@,
            decreases values.len() - i,
        {
            proof {
                lemma_le_u64s(values@.take(i as int));
                lemma_le_round_trips();
            }
            let ghost done = le_u64s(values@.take(i as int));
            match self.write_u64(values[i]) {
                Ok(()) => {},
                Err(e) => {
                    return Err(e);
                },
            }
            proof {
                lemma_overwrite_concat(start, at, done, spec_u64_to_le_bytes(values@[i as int]));
                assert(values@.take(i + 1).drop_last() =~= values@.take(i as int));
            }
            i = i + 1;
        }
        assert(values@.take(values.len() as int) =~= values@);
        proof {
            lemma_le_u64s(values@);
        }
        Ok(())
    }

    pub(crate) fn finish(&self) -> (n: usize)
        ensures
            n == self.offset,
    {
        self.offset
    }
}

/// Reads fields one after another from an input buffer.
pub(crate) struct Reader<'a> {
    pub(crate) input: &'a [u8],
    pub(crate) offset: usize,
}

impl<'a> Reader<'a> {
    pub(crate) fn new(input: &'a [u8]) -> (r: Self)
        ensures
            r.input@ == input@,
            r.offset == 0,
    {
        Reader { input, offset: 0 }
    }

    /// The unread bytes.
    pub(crate) open spec fn rest(&self) -> Seq<u8> {
        self.input@.skip(self.offset as int)
    }

    #[inline]
    pub(crate) fn read_u8(&mut self) -> (r: Result<u8>)
        requires
            old(self).offset <= old(self).input@.len(),
        ensures
            final(self).input@ == old(self).input@,
            final(self).offset <= final(self).input@.len(),
            r is Ok <==> old(self).rest().len() >= 1,
            r matches Ok(v) ==> v == old(self).rest()[0] && final(self).offset == old(self).offset
                + 1,
            r is Err ==> r == Err::<u8, &'static str>(short_read(old(self).offset as int, 1)) && final(self).offset == old(self).offset,
    {
        let bytes = self.read_bytes(1)?;
        Ok(bytes[0])
    }

    #[inline]
    pub(crate) fn read_u32(&mut self) -> (r: Result<u32>)
        requires
            old(self).offset <= old(self).input@.len(),
        ensures
            final(self).input@ == old(self).input@,
            final(self).offset <= final(self).input@.len(),
            r is Ok <==> old(self).rest().len() >= 4,
            r matches Ok(v) ==> v == spec_u32_from_le_bytes(old(self).rest().take(4))
                && final(self).offset == old(self).offset + 4,
            r is Err ==> r == Err::<u32, &'static str>(short_read(old(self).offset as int, 4)) && final(self).offset == old(self).offset,
    {
        let bytes = self.read_bytes(4)?;
        Ok(u32_from_le_bytes(bytes))
    }

    #[inline]
    pub(crate) fn read_u64(&mut self) -> (r: Result<u64>)
        requires
            old(self).offset <= old(self).input@.len(),
        ensures
            final(self).input@ == old(self).input@,
            final(self).offset <= final(self).input@.len(),
            r is Ok <==> old(self).rest().len() >= 8,
            r matches Ok(v) ==> v == spec_u64_from_le_bytes(old(self).rest().take(8))
                && final(self).offset == old(self).offset + 8,
            r is Err ==> r == Err::<u64, &'static str>(short_read(old(self).offset as int, 8)) && final(self).offset == old(self).offset,
    {
        let bytes = self.read_bytes(8)?;
        Ok(u64_from_le_bytes(bytes))
    }

    #[inline]
    pub(crate) fn read_i64(&mut self) -> (r: Result<i64>)
        requires
            old(self).offset <= old(self).input@.len(),
        ensures
            final(self).input@ == old(self).input@,
            final(self).offset <= final(self).input@.len(),
            r is Ok <==> old(self).rest().len() >= 8,
            r matches Ok(v) ==> v == i64_from_le(old(self).rest().take(8))
                && final(self).offset == old(self).offset + 8,
            r is Err ==> r == Err::<i64, &'static str>(short_read(old(self).offset as int, 8)) && final(self).offset == old(self).offset,
    {
        let value = self.read_u64()?;
        Ok(value as i64)
    }

    /// A 256-bit number from its 32 little-endian bytes.
    #[inline]
    pub(crate) fn read_word(&mut self) -> (r: Result<Word256>)
        requires
            old(self).offset <= old(self).input@.len(),
        ensures
            final(self).input@ == old(self).input@,
            final(self).offset <= final(self).input@.len(),
            r is Ok <==> old(self).rest().len() >= 32,
            r matches Ok(v) ==> v == Word256::from_le_bytes_spec(old(self).rest().take(32))
                && final(self).offset == old(self).offset + 32,
            r is Err ==> r == Err::<Word256, &'static str>(short_read(old(self).offset as int, 32)) && final(self).offset == old(self).offset,
    {
        let bytes = self.read_bytes(32)?;
        let mut array: [u8; 32] = [0u8; 32];
        let mut i: usize = 0;
        while i < 32
            invariant
                bytes@.len() == 32,
                0 <= i <= 32,
                forall|j: int| 0 <= j < i ==> array@[j] == bytes@[j],
            decreases 32 - i,
        {
            array[i] = bytes[i];
            i = i + 1;
        }
        assert(array@ =~= bytes@);
        Ok(word_from_le_bytes(array))
    }

    /// The next `length` bytes; fails without moving when fewer remain.
    #[inline]
    pub(crate) fn read_bytes(&mut self, length: usize) -> (r: Result<&'a [u8]>)
        requires
            old(self).offset <= old(self).input@.len(),
        ensures
            final(self).input@ == old(self).input@,
            final(self).offset <= final(self).input@.len(),
            r is Ok <==> old(self).rest().len() >= length,
            r matches Ok(s) ==> s@ == old(self).rest().take(length as int) && final(self).offset
                == old(self).offset + length,
            r is Err ==> r == Err::<&'a [u8], &'static str>(
                short_read(old(self).offset as int, length as int),
            ) && final(self).offset == old(self).offset,
    {
        let input_len = self.input.len();
        let end = match self.offset.checked_add(length) {
            Some(end) => end,
            None => {
                return Err("encoded size overflow");
            },
        };
        if end > input_len {
            return Err("unexpected end of input");
        }
        let value = vstd::slice::slice_subrange(self.input, self.offset, end);
        assert(value@ =~= self.rest().take(length as int));
        self.offset = end;
        Ok(value)
    }

    pub(crate) fn remaining(&self) -> (n: usize)
        requires
            self.offset <= self.input@.len(),
        ensures
            n == self.rest().len(),
    {
        self.input.len() - self.offset
    }

    /// Succeeds only when every byte has been read.
    pub(crate) fn finish(&self) -> (r: Result<()>)
        requires
            self.offset <= self.input@.len(),
        ensures
            r is Ok <==> self.rest().len() == 0,
            r is Err ==> r == Err::<(), &'static str>("trailing bytes"),
    {
        if self.offset == self.input.len() {
            Ok(())
        } else {
            Err("trailing bytes")
        }
    }
}

} // verus!
