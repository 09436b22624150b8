use vstd::prelude::*;

use super::{
    Reader,
    Result,
    Writer,
    has_unknown_flags,
    le_lists,
    le_u64s,
    lemma_le_round_trips,
    lemma_le_u64s,
    lacks_room,
    lemma_lists_round_trip,
    lemma_read_lists_alloc,
    lemma_lists_truncated,
    lemma_overwrite_concat,
    overwrite,
    reserve_exact,
    short_read,
    u64_at,
};
use super::delta_op;
use crate::collections::delta_set::{DeltaSet, live_in_order, slots_unique};
use crate::crdt::state::delta::DeltaOp;
use crate::crdt::types::u64_set::{U64Set, added_keys, removed_keys};
use vstd::bytes::spec_u64_to_le_bytes;

verus! {

const DELTA: u8 = 1;

/// Whether slot `i` exists and holds a key.
pub open spec fn slot_live(slots: Seq<Option<u64>>, i: int) -> bool {
    0 <= i < slots.len() && slots[i] is Some
}

/// A byte with bit `j` set exactly when `bj` holds.
pub open spec fn byte_of(
    b0: bool,
    b1: bool,
    b2: bool,
    b3: bool,
    b4: bool,
    b5: bool,
    b6: bool,
    b7: bool,
) -> u8 {
    (if b0 {
        1u8
    } else {
        0u8
    }) | (if b1 {
        2u8
    } else {
        0u8
    }) | (if b2 {
        4u8
    } else {
        0u8
    }) | (if b3 {
        8u8
    } else {
        0u8
    }) | (if b4 {
        16u8
    } else {
        0u8
    }) | (if b5 {
        32u8
    } else {
        0u8
    }) | (if b6 {
        64u8
    } else {
        0u8
    }) | (if b7 {
        128u8
    } else {
        0u8
    })
}

/// Byte `b` of the occupancy bitmap: bit `j` tells whether slot `8 * b + j`
/// holds a key.
pub open spec fn bitmap_byte(slots: Seq<Option<u64>>, b: int) -> u8 {
    byte_of(
        slot_live(slots, 8 * b),
        slot_live(slots, 8 * b + 1),
        slot_live(slots, 8 * b + 2),
        slot_live(slots, 8 * b + 3),
        slot_live(slots, 8 * b + 4),
        slot_live(slots, 8 * b + 5),
        slot_live(slots, 8 * b + 6),
        slot_live(slots, 8 * b + 7),
    )
}

/// The number of bitmap bytes for `n` slots.
pub open spec fn bitmap_len(n: int) -> int {
    (n + 7) / 8
}

/// The occupancy bitmap of `slots`, one bit per slot, the unused high bits
/// of the last byte clear.
pub open spec fn spec_bitmap(slots: Seq<Option<u64>>) -> Seq<u8> {
    Seq::new(bitmap_len(slots.len() as int) as nat, |b: int| bitmap_byte(slots, b))
}

/// Whether bit `i` of `bitmap` is set.
pub open spec fn bit_set(bitmap: Seq<u8>, i: int) -> bool {
    bitmap[i / 8] & (1u8 << ((i % 8) as u8)) != 0
}

/// The number of set bits among the first `i` bits of `bitmap`.
pub open spec fn live_bits(bitmap: Seq<u8>, i: int) -> int
    decreases i,
{
    if i <= 0 {
        0
    } else {
        live_bits(bitmap, i - 1) + if bit_set(bitmap, i - 1) {
            1int
        } else {
            0int
        }
    }
}

/// The slots that a bitmap and the entries stored from `at` on describe: a
/// set bit takes the next stored entry.
pub open spec fn slots_from(s: Seq<u8>, bitmap: Seq<u8>, n: int, at: int) -> Seq<Option<u64>> {
    Seq::new(
        n as nat,
        |i: int|
            if bit_set(bitmap, i) {
                Some(u64_at(s, at + 8 * live_bits(bitmap, i)))
            } else {
                None
            },
    )
}

/// The encoding of the pending operations, if any.
pub open spec fn delta_bytes(delta: Option<Seq<DeltaOp<u64>>>) -> Seq<u8> {
    match delta {
        Some(ops) => delta_op::spec_encode(ops),
        None => Seq::empty(),
    }
}

/// The encoding of a set: a flags byte (1 when operations are pending), the
/// slot count as 8 little-endian bytes, the occupancy bitmap, the live keys in
/// slot order, then the pending operations if any.
pub open spec fn spec_encode(slots: Seq<Option<u64>>, delta: Option<Seq<DeltaOp<u64>>>) -> Seq<u8> {
    seq![if delta is Some { 1u8 } else { 0u8 }] + spec_u64_to_le_bytes(slots.len() as u64)
        + spec_bitmap(slots) + le_u64s(live_in_order(slots)) + delta_bytes(delta)
}

/// The encoded size as a number.
pub open spec fn spec_size(slots: Seq<Option<u64>>, delta: Option<Seq<DeltaOp<u64>>>) -> int {
    9 + bitmap_len(slots.len() as int) + 8 * live_in_order(slots).len() + match delta {
        Some(ops) => delta_op::spec_size(ops),
        None => 0,
    }
}

/// The mask of the bits of the last bitmap byte that stand for slots.
pub open spec fn valid_bits(n: int) -> u8 {
    ((1u8 << ((n % 8) as u8)) - 1) as u8
}

/// What `decode` makes of `s`, given whether the room for the slots and for
/// each kind of pending operation could be reserved.
pub open spec fn spec_decode(
    s: Seq<u8>,
    slot_alloc: bool,
    added_alloc: bool,
    removed_alloc: bool,
) -> Result<(Seq<Option<u64>>, Option<Seq<DeltaOp<u64>>>)> {
    if s.len() < 1 {
        Err(short_read(0, 1))
    } else if s[0] > 1 {
        Err("invalid U64Set flags")
    } else if s.len() < 9 {
        Err(short_read(1, 8))
    } else {
        let n = u64_at(s, 1) as int;
        let m = bitmap_len(n);
        if n > usize::MAX {
            Err("slot count exceeds usize::MAX")
        } else if s.len() < 9 + m {
            Err(short_read(9, m))
        } else {
            let bitmap = s.subrange(9, 9 + m);
            let count = live_bits(bitmap, n);
            if n % 8 != 0 && bitmap[m - 1] & !valid_bits(n) != 0 {
                Err("invalid U64Set bitmap")
            } else if 8 * count > usize::MAX {
                Err("live slot size overflow")
            } else if 8 * count > s.len() - (9 + m) {
                Err("invalid live slot count")
            } else if !slot_alloc && n != 0 {
                Err("slot allocation failed")
            } else {
                let slots = slots_from(s, bitmap, n, 9 + m);
                let p = 9 + m + 8 * count;
                let tail: Result<(Option<Seq<DeltaOp<u64>>>, int)> = if s[0] == 1 {
                    match delta_op::spec_read(s, p, added_alloc, removed_alloc) {
                        Err(e) => Err(e),
                        Ok((ops, end)) => Ok((Some(ops), end)),
                    }
                } else {
                    Ok((None, p))
                };
                match tail {
                    Err(e) => Err(e),
                    Ok((delta, end)) => if end < s.len() {
                        Err("trailing bytes")
                    } else if !slots_unique(slots) {
                        Err("duplicate or unindexable U64Set entry")
                    } else {
                        Ok((slots, delta))
                    },
                }
            }
        }
    }
}

/// The bits of a byte built with `byte_of` are the flags it was built from.
pub proof fn lemma_byte_bits(
    b0: bool,
    b1: bool,
    b2: bool,
    b3: bool,
    b4: bool,
    b5: bool,
    b6: bool,
    b7: bool,
    k: u8,
)
    by (bit_vector)
    requires
        k < 8,
    ensures
        (byte_of(b0, b1, b2, b3, b4, b5, b6, b7) & (1u8 << k) != 0) == ((k == 0 && b0) || (k == 1
            && b1) || (k == 2 && b2) || (k == 3 && b3) || (k == 4 && b4) || (k == 5 && b5) || (k
            == 6 && b6) || (k == 7 && b7)),
        byte_of(
            b0 && k != 0,
            b1 && k != 1,
            b2 && k != 2,
            b3 && k != 3,
            b4 && k != 4,
            b5 && k != 5,
            b6 && k != 6,
            b7 && k != 7,
        ) | (1u8 << k) == byte_of(
            b0 || k == 0,
            b1 || k == 1,
            b2 || k == 2,
            b3 || k == 3,
            b4 || k == 4,
            b5 || k == 5,
            b6 || k == 6,
            b7 || k == 7,
        ),
        k > 0 && (k <= 1 ==> !b1) && (k <= 2 ==> !b2) && (k <= 3 ==> !b3) && (k <= 4 ==> !b4) && (k
            <= 5 ==> !b5) && (k <= 6 ==> !b6) && (k <= 7 ==> !b7) ==> byte_of(
            b0,
            b1,
            b2,
            b3,
            b4,
            b5,
            b6,
            b7,
        ) & !((((1u8 << k) - 1u8) as u8)) == 0,
        byte_of(false, false, false, false, false, false, false, false) == 0,
{
}

/// Bit `i` of the bitmap of `slots` is set exactly when slot `i` holds a key.
pub proof fn lemma_bitmap_bits(slots: Seq<Option<u64>>)
    ensures
        spec_bitmap(slots).len() == bitmap_len(slots.len() as int),
        forall|i: int|
            0 <= i < slots.len() ==> #[trigger] bit_set(spec_bitmap(slots), i) == (slots[i] is Some),
        slots.len() % 8 != 0 ==> spec_bitmap(slots)[bitmap_len(slots.len() as int) - 1] & !valid_bits(
            slots.len() as int,
        ) == 0,
{
    let bm = spec_bitmap(slots);
    assert forall|i: int| 0 <= i < slots.len() implies #[trigger] bit_set(bm, i) == (
    slots[i] is Some) by {
        let b = i / 8;
        let k = (i % 8) as u8;
        lemma_byte_bits(
            slot_live(slots, 8 * b),
            slot_live(slots, 8 * b + 1),
            slot_live(slots, 8 * b + 2),
            slot_live(slots, 8 * b + 3),
            slot_live(slots, 8 * b + 4),
            slot_live(slots, 8 * b + 5),
            slot_live(slots, 8 * b + 6),
            slot_live(slots, 8 * b + 7),
            k,
        );
    }
    let n = slots.len() as int;
    if n % 8 != 0 {
        let b = bitmap_len(n) - 1;
        let k = (n % 8) as u8;
        lemma_byte_bits(
            slot_live(slots, 8 * b),
            slot_live(slots, 8 * b + 1),
            slot_live(slots, 8 * b + 2),
            slot_live(slots, 8 * b + 3),
            slot_live(slots, 8 * b + 4),
            slot_live(slots, 8 * b + 5),
            slot_live(slots, 8 * b + 6),
            slot_live(slots, 8 * b + 7),
            k,
        );
    }
}

/// The live keys before slot `i` are a prefix of all the live keys.
pub proof fn lemma_live_prefix(slots: Seq<Option<u64>>, i: int)
    requires
        0 <= i <= slots.len(),
    ensures
        live_in_order(slots.take(i)).len() <= live_in_order(slots).len(),
        live_in_order(slots.take(i)) == live_in_order(slots).take(
            live_in_order(slots.take(i)).len() as int,
        ),
    decreases slots.len() - i,
{
    if i == slots.len() {
        assert(slots.take(i) =~= slots);
        assert(live_in_order(slots) =~= live_in_order(slots).take(live_in_order(slots).len() as int));
    } else {
        lemma_live_prefix(slots, i + 1);
        assert(slots.take(i + 1).drop_last() =~= slots.take(i));
        let a = live_in_order(slots.take(i));
        let b = live_in_order(slots.take(i + 1));
        let all = live_in_order(slots);
        assert(a =~= all.take(a.len() as int)) by {
            assert(b == all.take(b.len() as int));
            assert forall|j: int| 0 <= j < a.len() implies a[j] == all[j] by {
                assert(a[j] == b[j]);
            }
        }
    }
}

/// Counting the set bits of the bitmap of `slots` counts the live keys, and
/// the key of a live slot sits at the place that count gives it.
pub proof fn lemma_live_bits(slots: Seq<Option<u64>>, i: int)
    requires
        0 <= i <= slots.len(),
    ensures
        live_bits(spec_bitmap(slots), i) == live_in_order(slots.take(i)).len(),
        i < slots.len() && slots[i] is Some ==> live_bits(spec_bitmap(slots), i) < live_in_order(
            slots,
        ).len() && live_in_order(slots)[live_bits(spec_bitmap(slots), i)] == slots[i]->0,
    decreases i,
{
    lemma_bitmap_bits(slots);
    if i > 0 {
        lemma_live_bits(slots, i - 1);
        assert(slots.take(i).drop_last() =~= slots.take(i - 1));
        assert(bit_set(spec_bitmap(slots), i - 1) == (slots[i - 1] is Some));
    }
    if i < slots.len() && slots[i] is Some {
        lemma_live_prefix(slots, i + 1);
        assert(slots.take(i + 1).drop_last() =~= slots.take(i));
        let a = live_in_order(slots.take(i + 1));
        let c = live_in_order(slots.take(i));
        assert(a == c.push(slots[i]->0));
        let all = live_in_order(slots);
        assert(a == all.take(a.len() as int));
        assert(all[c.len() as int] == a[c.len() as int]);
    }
}

/// Counting set bits never goes down, and goes up by at most one per bit.
pub proof fn lemma_live_bits_monotone(bitmap: Seq<u8>, i: int, j: int)
    requires
        0 <= i <= j,
    ensures
        live_bits(bitmap, i) <= live_bits(bitmap, j) <= live_bits(bitmap, i) + (j - i),
        live_bits(bitmap, i) >= 0,
    decreases j,
{
    if i < j {
        lemma_live_bits_monotone(bitmap, i, j - 1);
    } else if i > 0 {
        lemma_live_bits_monotone(bitmap, i - 1, i - 1);
    }
}

/// The pending operations with the insertions first, as decoding gives them
/// back.
pub open spec fn decoded_delta(delta: Option<Seq<DeltaOp<u64>>>) -> Option<Seq<DeltaOp<u64>>> {
    match delta {
        Some(ops) => Some(delta_op::ops_of(added_keys(ops), removed_keys(ops))),
        None => None,
    }
}

/// A decoded set as its slots and pending operations.
pub open spec fn set_result(r: Result<U64Set>) -> Result<(Seq<Option<u64>>, Option<Seq<DeltaOp<u64>>>)> {
    match r {
        Ok(set) => Ok(
            (
                set.entries@.slots,
                match set.delta {
                    Some(d) => Some(d@),
                    None => None,
                },
            ),
        ),
        Err(e) => Err(e),
    }
}

/// Decoding an encoding gives back the slots, and the pending operations
/// with the insertions first.
#[verifier::rlimit(40)]
pub proof fn lemma_round_trip(slots: Seq<Option<u64>>, delta: Option<Seq<DeltaOp<u64>>>)
    requires
        slots_unique(slots),
        slots.len() <= usize::MAX,
        8 * live_in_order(slots).len() <= usize::MAX,
        delta matches Some(ops) ==> ops.len() <= usize::MAX,
    ensures
        spec_decode(spec_encode(slots, delta), true, true, true) == Ok::<
            (Seq<Option<u64>>, Option<Seq<DeltaOp<u64>>>),
            &'static str,
        >((slots, decoded_delta(delta))),
        spec_encode(slots, delta).len() == spec_size(slots, delta),
{
    lemma_le_round_trips();
    lemma_bitmap_bits(slots);
    let n = slots.len() as int;
    let m = bitmap_len(n);
    let live = live_in_order(slots);
    lemma_le_u64s(live);
    let flag: u8 = if delta is Some { 1u8 } else { 0u8 };
    let head = seq![flag] + spec_u64_to_le_bytes(n as u64);
    let bm = spec_bitmap(slots);
    let body = le_u64s(live);
    let tail = delta_bytes(delta);
    let s = spec_encode(slots, delta);
    assert(s =~= head + bm + body + tail);
    assert(s.subrange(1, 9) =~= spec_u64_to_le_bytes(n as u64));
    assert(s.subrange(9, 9 + m) =~= bm);
    lemma_live_bits(slots, n);
    assert(slots.take(n) =~= slots);
    let count = live_bits(bm, n);
    assert(count == live.len());
    super::lemma_u64s_round_trip(head + bm, live, tail);
    assert(s =~= (head + bm) + body + tail);
    let decoded = slots_from(s, bm, n, 9 + m);
    assert forall|i: int| 0 <= i < n implies #[trigger] decoded[i] == slots[i] by {
        assert(bit_set(bm, i) == (slots[i] is Some));
        if slots[i] is Some {
            lemma_live_bits(slots, i);
            assert(super::u64s_at(s, 9 + m, live.len() as int)[live_bits(bm, i)] == live[live_bits(
                bm,
                i,
            )]);
        }
    }
    assert(decoded =~= slots);
    let p = 9 + m + 8 * count;
    match delta {
        Some(ops) => {
            delta_op::lemma_split_counts(ops);
            let prefix = head + bm + body;
            assert(s =~= prefix + le_lists(added_keys(ops), removed_keys(ops)) + Seq::<u8>::empty());
            lemma_lists_round_trip(prefix, added_keys(ops), removed_keys(ops), Seq::<u8>::empty());
            delta_op::lemma_round_trip(ops);
        },
        None => {},
    }
}

/// The reservations only decide whether decoding fails for want of room:
/// any outcome is the one with every reservation granted, or such a failure.
pub proof fn lemma_decode_alloc(s: Seq<u8>, x: bool, a: bool, b: bool)
    ensures
        spec_decode(s, x, a, b) == spec_decode(s, true, true, true) || (spec_decode(
            s,
            x,
            a,
            b,
        ) matches Err(e) && lacks_room(e)),
{
    if s.len() >= 9 && s[0] <= 1 {
        let n = u64_at(s, 1) as int;
        let m = bitmap_len(n);
        if s.len() >= 9 + m {
            let bitmap = s.subrange(9, 9 + m);
            let p = 9 + m + 8 * live_bits(bitmap, n);
            lemma_read_lists_alloc(s, p, a, b);
        }
    }
}

/// Decoding an encoding, whatever the reservations give, yields the slots
/// and the pending operations (insertions first), or a failure to reserve
/// room.
pub proof fn lemma_round_trip_any_room(
    slots: Seq<Option<u64>>,
    delta: Option<Seq<DeltaOp<u64>>>,
    x: bool,
    a: bool,
    b: bool,
)
    requires
        slots_unique(slots),
        slots.len() <= usize::MAX,
        8 * live_in_order(slots).len() <= usize::MAX,
        delta matches Some(ops) ==> ops.len() <= usize::MAX,
    ensures
        spec_decode(spec_encode(slots, delta), x, a, b) == Ok::<
            (Seq<Option<u64>>, Option<Seq<DeltaOp<u64>>>),
            &'static str,
        >((slots, decoded_delta(delta))) || (spec_decode(spec_encode(slots, delta), x, a, b) matches Err(
            e,
        ) && lacks_room(e)),
{
    lemma_round_trip(slots, delta);
    lemma_decode_alloc(spec_encode(slots, delta), x, a, b);
}

/// Inputs outside the format are refused: a flags byte other than 0 or 1,
/// and a bitmap with a bit set past the last of the `n` slots (when they do
/// not fill its last byte), whatever
/// follows it and whatever room could be reserved.
pub proof fn lemma_rejects_malformed(
    s: Seq<u8>,
    pending: bool,
    n: u64,
    bitmap: Seq<u8>,
    rest: Seq<u8>,
    j: u8,
    slot_alloc: bool,
    added_alloc: bool,
    removed_alloc: bool,
)
    ensures
        s.len() >= 1 && s[0] > 1 ==> spec_decode(s, slot_alloc, added_alloc, removed_alloc) == Err::<
            (Seq<Option<u64>>, Option<Seq<DeltaOp<u64>>>),
            &'static str,
        >("invalid U64Set flags"),
        n <= usize::MAX && bitmap.len() == bitmap_len(n as int) && 0 < n % 8 <= j < 8
            && bitmap[bitmap.len() - 1] & (1u8 << j) != 0 ==> spec_decode(
            seq![if pending { 1u8 } else { 0u8 }] + spec_u64_to_le_bytes(n) + bitmap + rest,
            slot_alloc,
            added_alloc,
            removed_alloc,
        ) == Err::<(Seq<Option<u64>>, Option<Seq<DeltaOp<u64>>>), &'static str>(
            "invalid U64Set bitmap",
        ),
{
    if n <= usize::MAX && bitmap.len() == bitmap_len(n as int) && 0 < n % 8 <= j < 8
        && bitmap[bitmap.len() - 1] & (1u8 << j) != 0 {
        lemma_le_round_trips();
        let f: u8 = if pending { 1u8 } else { 0u8 };
        let t = seq![f] + spec_u64_to_le_bytes(n) + bitmap + rest;
        let m = bitmap_len(n as int);
        assert(t.subrange(1, 9) =~= spec_u64_to_le_bytes(n));
        assert(u64_at(t, 1) == n);
        assert(t.subrange(9, 9 + m) =~= bitmap);
        let r: u8 = (n % 8) as u8;
        let x: u8 = bitmap[m - 1];
        assert(r == n % 8);
        assert(x & (1u8 << j) != 0 && r <= j < 8 ==> x & !(((1u8 << r) - 1) as u8) != 0)
            by (bit_vector);
    }
}

/// The encoding is as long as `spec_size` says.
pub proof fn lemma_encoded_len(slots: Seq<Option<u64>>, delta: Option<Seq<DeltaOp<u64>>>)
    ensures
        spec_encode(slots, delta).len() == spec_size(slots, delta),
{
    lemma_le_round_trips();
    lemma_le_u64s(live_in_order(slots));
    match delta {
        Some(ops) => {
            delta_op::lemma_encoded_len(ops);
        },
        None => {},
    }
}

/// The number of bitmap bytes for `n` slots.
fn bitmap_size(n: usize) -> (r: usize)
    ensures
        r == bitmap_len(n as int),
{
    n / 8 + if n % 8 != 0 {
        1
    } else {
        0
    }
}

/// Builds the occupancy bitmap of `slots`.
fn build_bitmap(slots: &[Option<u64>]) -> (r: Vec<u8>)
    ensures
        r@ == spec_bitmap(slots@),
{
    let n = slots.len();
    let m = bitmap_size(n);
    let mut bitmap: Vec<u8> = vec![0u8; m];
    proof {
        lemma_byte_bits(false, false, false, false, false, false, false, false, 0);
        assert forall|b: int| 0 <= b < m implies #[trigger] bitmap@[b] == bitmap_byte(
            slots@.take(0),
            b,
        ) by {}
    }
    let mut index: usize = 0;
    while index < n
        invariant
            n == slots@.len(),
            m == bitmap_len(n as int),
            index <= n,
            bitmap@.len() == m,
            forall|b: int| 0 <= b < m ==> #[trigger] bitmap@[b] == bitmap_byte(slots@.take(index as int), b),
        decreases n - index,
    {
        let ghost before = slots@.take(index as int);
        let ghost after = slots@.take(index + 1);
        if slots[index].is_some() {
            let b = index / 8;
            let k = (index % 8) as u8;
            proof {
                let bb = b as int;
                assert forall|x: int| #[trigger] slot_live(before, x) == (slot_live(after, x) && x
                    != index) by {}
                assert(slot_live(after, index as int));
                assert(index == 8 * bb + k);
                lemma_byte_bits(
                    slot_live(after, 8 * bb),
                    slot_live(after, 8 * bb + 1),
                    slot_live(after, 8 * bb + 2),
                    slot_live(after, 8 * bb + 3),
                    slot_live(after, 8 * bb + 4),
                    slot_live(after, 8 * bb + 5),
                    slot_live(after, 8 * bb + 6),
                    slot_live(after, 8 * bb + 7),
                    k,
                );
            }
            let byte = bitmap[b] | (1u8 << k);
            bitmap.set(b, byte);
            proof {
                assert forall|c: int| 0 <= c < m implies #[trigger] bitmap@[c] == bitmap_byte(after, c) by {
                    if c != b {
                        assert(8 * c + 7 < index || index < 8 * c);
                    }
                }
            }
        } else {
            proof {
                assert forall|x: int| #[trigger] slot_live(before, x) == slot_live(after, x) by {}
                assert forall|c: int| 0 <= c < m implies #[trigger] bitmap@[c] == bitmap_byte(after, c) by {
                }
            }
        }
        index = index + 1;
    }
    assert(slots@.take(n as int) =~= slots@);
    assert(bitmap@ =~= spec_bitmap(slots@));
    bitmap
}

/// The pending operations as a sequence, if any.
pub open spec fn delta_seq(delta: Option<Vec<DeltaOp<u64>>>) -> Option<Seq<DeltaOp<u64>>> {
    match delta {
        Some(d) => Some(d@),
        None => None,
    }
}

/// The encoded size, or an error when it does not fit in a `u64`.
pub fn encoded_size(value: &U64Set) -> (r: Result<u64>)
    ensures
        spec_size(value.entries@.slots, delta_seq(value.delta)) <= u64::MAX ==> r == Ok::<
            u64,
            &'static str,
        >(spec_size(value.entries@.slots, delta_seq(value.delta)) as u64),
        spec_size(value.entries@.slots, delta_seq(value.delta)) > u64::MAX ==> r == Err::<
            u64,
            &'static str,
        >("encoded size overflow"),
{
    let slots = value.entries.slots();
    let bitmap_bytes = bitmap_size(slots.len()) as u64;
    let ghost all = live_in_order(slots@);
    let mut live_size: u64 = 0;
    let mut i: usize = 0;
    while i < slots.len()
        invariant
            i <= slots@.len(),
            all == live_in_order(slots@),
            slots@ == value.entries@.slots,
            live_size == 8 * live_in_order(slots@.take(i as int)).len(),
        decreases slots.len() - i,
    {
        assert(slots@.take(i + 1).drop_last() =~= slots@.take(i as int));
        if slots[i].is_some() {
            live_size = match live_size.checked_add(8) {
                Some(size) => size,
                None => {
                    proof {
                        lemma_live_prefix(slots@, i + 1);
                        assert(live_in_order(slots@.take(i + 1)).len() == live_in_order(
                            slots@.take(i as int),
                        ).len() + 1);
                    }
                    return Err("encoded size overflow");
                },
            };
        }
        i = i + 1;
    }
    assert(slots@.take(slots@.len() as int) =~= slots@);
    let mut size = match 9u64.checked_add(bitmap_bytes) {
        Some(a) => match a.checked_add(live_size) {
            Some(b) => b,
            None => {
                return Err("encoded size overflow");
            },
        },
        None => {
            return Err("encoded size overflow");
        },
    };
    if let Some(delta) = &value.delta {
        let delta_size = delta_op::encoded_size(delta.as_slice())?;
        size = match size.checked_add(delta_size) {
            Some(total) => total,
            None => {
                return Err("encoded size overflow");
            },
        };
    }
    Ok(size)
}

/// A fresh buffer holding the encoding.
pub fn encode(value: &U64Set) -> (r: Result<Vec<u8>>)
    requires
        value.entries.wf(),
    ensures
        spec_size(value.entries@.slots, delta_seq(value.delta)) <= usize::MAX ==> (r matches Ok(v)
            && v@ == spec_encode(value.entries@.slots, delta_seq(value.delta))),
        spec_size(value.entries@.slots, delta_seq(value.delta)) > usize::MAX ==> r is Err,
{
    let size = encoded_size(value)?;
    if size > usize::MAX as u64 {
        return Err("encoded size exceeds usize::MAX");
    }
    let mut output: Vec<u8> = vec![0; size as usize];
    let written = encode_to(value, output.as_mut_slice());
    proof {
        lemma_encoded_len(value.entries@.slots, delta_seq(value.delta));
        let enc = spec_encode(value.entries@.slots, delta_seq(value.delta));
        assert(output@.take(0) + enc + output@.skip(size as int) =~= enc);
    }
    match written {
        Ok(_) => Ok(output),
        Err(e) => Err(e),
    }
}

/// Writes the encoding at the start of `output` and returns its length;
/// when `output` is too short, fails without writing.
pub fn encode_to(value: &U64Set, output: &mut [u8]) -> (r: Result<u64>)
    requires
        value.entries.wf(),
    ensures
        spec_size(value.entries@.slots, delta_seq(value.delta)) > u64::MAX ==> r == Err::<
            u64,
            &'static str,
        >("encoded size overflow") && final(output)@ == old(output)@,
        spec_size(value.entries@.slots, delta_seq(value.delta)) <= u64::MAX && old(output)@.len()
            < spec_size(value.entries@.slots, delta_seq(value.delta)) ==> {
            &&& r == Err::<u64, &'static str>("output buffer too small")
            &&& final(output)@ == old(output)@
        },
        spec_size(value.entries@.slots, delta_seq(value.delta)) <= u64::MAX && old(output)@.len()
            >= spec_size(value.entries@.slots, delta_seq(value.delta)) ==> {
            &&& r == Ok::<u64, &'static str>(
                spec_size(value.entries@.slots, delta_seq(value.delta)) as u64,
            )
            &&& final(output)@ == overwrite(
                old(output)@,
                0,
                spec_encode(value.entries@.slots, delta_seq(value.delta)),
            )
        },
{
    let size = encoded_size(value)?;
    if (output.len() as u64) < size {
        return Err("output buffer too small");
    }
    let slots = value.entries.slots();
    let bitmap = build_bitmap(slots);
    let live = value.entries.iter_live();
    let ghost start = output@;
    let ghost d = delta_seq(value.delta);
    proof {
        lemma_le_round_trips();
        lemma_le_u64s(live@);
        lemma_bitmap_bits(slots@);
        match d {
            Some(ops) => {
                delta_op::lemma_round_trip(ops);
            },
            None => {},
        }
    }
    let flags: u8 = if value.delta.is_some() {
        DELTA
    } else {
        0
    };
    let mut writer = Writer::new(output);
    writer.write_u8(flags)?;
    writer.write_u64(slots.len() as u64)?;
    let ghost a = seq![flags];
    let ghost b = spec_u64_to_le_bytes(slots@.len() as u64);
    proof {
        lemma_overwrite_concat(start, 0, a, b);
    }
    writer.write_bytes(bitmap.as_slice())?;
    proof {
        lemma_overwrite_concat(start, 0, a + b, bitmap@);
    }
    writer.write_u64s(live.as_slice())?;
    proof {
        lemma_overwrite_concat(start, 0, a + b + bitmap@, le_u64s(live@));
    }
    if let Some(delta) = &value.delta {
        delta_op::write(delta.as_slice(), &mut writer)?;
        proof {
            lemma_overwrite_concat(
                start,
                0,
                a + b + bitmap@ + le_u64s(live@),
                delta_op::spec_encode(delta@),
            );
        }
    } else {
        assert(a + b + bitmap@ + le_u64s(live@) + delta_bytes(d) =~= a + b + bitmap@ + le_u64s(
            live@,
        ));
    }
    let written = writer.finish() as u64;
    if written != size {
        return Err("encoded size mismatch");
    }
    Ok(written)
}

/// Parses one set that fills `input` exactly. A decoded set is well formed
/// and has nothing uncommitted.
pub fn decode(input: &[u8]) -> (r: Result<U64Set>)
    ensures
        exists|x: bool, a: bool, b: bool| #[trigger]
            spec_decode(input@, x, a, b) == set_result(r),
        r matches Ok(set) ==> set.entries.wf() && set.entries@.committed == set.entries@.index,
{
    proof {
        lemma_le_round_trips();
    }
    let ghost s = input@;
    let mut reader = Reader::new(input);
    let flags = match reader.read_u8() {
        Ok(f) => f,
        Err(e) => {
            assert(spec_decode(s, true, true, true) == set_result(Err(e)));
            return Err(e);
        },
    };
    if has_unknown_flags(flags, DELTA) {
        assert(spec_decode(s, true, true, true) == set_result(Err("invalid U64Set flags")));
        return Err("invalid U64Set flags");
    }
    let slot_count = match reader.read_u64() {
        Ok(n) => n,
        Err(e) => {
            assert(spec_decode(s, true, true, true) == set_result(Err(e)));
            return Err(e);
        },
    };
    assert(s.skip(1).take(8) =~= s.subrange(1, 9));
    if slot_count > usize::MAX as u64 {
        assert(spec_decode(s, true, true, true) == set_result(Err("slot count exceeds usize::MAX")));
        return Err("slot count exceeds usize::MAX");
    }
    let n = slot_count as usize;
    let m = bitmap_size(n);
    let bitmap = match reader.read_bytes(m) {
        Ok(b) => b,
        Err(e) => {
            assert(spec_decode(s, true, true, true) == set_result(Err(e)));
            return Err(e);
        },
    };
    let ghost bm = bitmap@;
    assert(bm =~= s.subrange(9, 9 + m));
    let remainder = n % 8;
    if remainder != 0 {
        let shift = remainder as u8;
        assert((1u8 << shift) >= 1u8) by (bit_vector)
            requires
                shift < 8,
        ;
        let valid: u8 = (1u8 << shift) - 1;
        if bitmap[m - 1] & !valid != 0 {
            assert(spec_decode(s, true, true, true) == set_result(Err("invalid U64Set bitmap")));
            return Err("invalid U64Set bitmap");
        }
    }
    let mut count: usize = 0;
    let mut index: usize = 0;
    while index < n
        invariant
            bm == bitmap@,
            bm.len() == m,
            m == bitmap_len(n as int),
            index <= n,
            count == live_bits(bm, index as int),
            count <= index,
        decreases n - index,
    {
        if bitmap[index / 8] & (1u8 << ((index % 8) as u8)) != 0 {
            count = count + 1;
        }
        index = index + 1;
    }
    let live_size = match count.checked_mul(8) {
        Some(size) => size,
        None => {
            assert(spec_decode(s, true, true, true) == set_result(Err("live slot size overflow")));
            return Err("live slot size overflow");
        },
    };
    if live_size > reader.remaining() {
        assert(spec_decode(s, true, true, true) == set_result(Err("invalid live slot count")));
        return Err("invalid live slot count");
    }
    let mut slots: Vec<Option<u64>> = Vec::new();
    if !reserve_exact(&mut slots, n) {
        assert(spec_decode(s, false, true, true) == set_result(Err("slot allocation failed")));
        return Err("slot allocation failed");
    }
    let ghost base = 9 + m;
    let ghost decoded = slots_from(s, bm, n as int, base);
    let mut index: usize = 0;
    while index < n
        invariant
            reader.input@ == s,
            bm == bitmap@,
            bm.len() == m,
            m == bitmap_len(n as int),
            base == 9 + m,
            index <= n,
            count == live_bits(bm, n as int),
            base + 8 * count <= s.len(),
            reader.offset == base + 8 * live_bits(bm, index as int),
            decoded == slots_from(s, bm, n as int, base),
            slots@ == decoded.take(index as int),
        decreases n - index,
    {
        proof {
            lemma_live_bits_monotone(bm, index + 1, n as int);
            lemma_live_bits_monotone(bm, 0, index as int);
        }
        if bitmap[index / 8] & (1u8 << ((index % 8) as u8)) == 0 {
            slots.push(None);
        } else {
            let ghost pos = reader.offset as int;
            let entry = reader.read_u64()?;
            assert(s.skip(pos).take(8) =~= s.subrange(pos, pos + 8));
            slots.push(Some(entry));
        }
        index = index + 1;
        assert(slots@ =~= decoded.take(index as int));
    }
    assert(decoded.take(n as int) =~= decoded);
    let ghost p = reader.offset as int;
    let delta = if flag_set_delta(flags) {
        let ops = delta_op::read(&mut reader);
        let ghost (a, b) = choose|a: bool, b: bool|
            #[trigger] delta_op::spec_read(s, p, a, b) == match ops {
                Ok(v) => Ok((v@, reader.offset as int)),
                Err(e) => Err::<(Seq<DeltaOp<u64>>, int), &'static str>(e),
            };
        match ops {
            Ok(v) => Some(v),
            Err(e) => {
                assert(spec_decode(s, true, a, b) == set_result(Err(e)));
                return Err(e);
            },
        }
    } else {
        None
    };
    let ghost (a, b) = if flags == 1 {
        choose|a: bool, b: bool|
            #[trigger] delta_op::spec_read(s, p, a, b) == Ok::<(Seq<DeltaOp<u64>>, int), &'static str>(
                (delta_seq(delta)->0, reader.offset as int),
            )
    } else {
        (true, true)
    };
    match reader.finish() {
        Ok(()) => {},
        Err(e) => {
            assert(spec_decode(s, true, a, b) == set_result(Err(e)));
            return Err(e);
        },
    }
    let entries = match DeltaSet::try_from_slots(slots) {
        Some(entries) => entries,
        None => {
            assert(spec_decode(s, true, a, b) == set_result(Err("duplicate or unindexable U64Set entry")));
            return Err("duplicate or unindexable U64Set entry");
        },
    };
    let set = U64Set { entries, delta };
    assert(spec_decode(s, true, a, b) == set_result(Ok(set)));
    Ok(set)
}

/// Whether the flags announce pending operations.
fn flag_set_delta(flags: u8) -> (r: bool)
    requires
        flags <= 1,
    ensures
        r == (flags == 1),
{
    assert((flags & 1u8 != 0) == (flags == 1)) by (bit_vector)
        requires
            flags <= 1,
    ;
    flags & DELTA != 0
}

/// A cut-short encoding is refused: decoding any proper prefix of an
/// encoding fails, whatever room could be reserved.
pub proof fn lemma_truncated_rejected(
    slots: Seq<Option<u64>>,
    delta: Option<Seq<DeltaOp<u64>>>,
    k: int,
    slot_alloc: bool,
    added_alloc: bool,
    removed_alloc: bool,
)
    requires
        slots.len() <= usize::MAX,
        delta matches Some(ops) ==> ops.len() <= usize::MAX,
        0 <= k < spec_encode(slots, delta).len(),
    ensures
        spec_decode(spec_encode(slots, delta).take(k), slot_alloc, added_alloc, removed_alloc)
            is Err,
{
    lemma_le_round_trips();
    lemma_bitmap_bits(slots);
    lemma_encoded_len(slots, delta);
    let n = slots.len() as int;
    let m = bitmap_len(n);
    let live = live_in_order(slots);
    lemma_le_u64s(live);
    let flag: u8 = if delta is Some { 1u8 } else { 0u8 };
    let head = seq![flag] + spec_u64_to_le_bytes(n as u64);
    let bm = spec_bitmap(slots);
    let body = le_u64s(live);
    let tail = delta_bytes(delta);
    let e = spec_encode(slots, delta);
    let s = e.take(k);
    assert(e =~= head + bm + body + tail);
    if k >= 1 {
        assert(s[0] == flag);
    }
    if k >= 9 {
        assert(s.subrange(1, 9) =~= spec_u64_to_le_bytes(n as u64));
    }
    if k >= 9 + m {
        assert(s.subrange(9, 9 + m) =~= bm);
        lemma_live_bits(slots, n);
        assert(slots.take(n) =~= slots);
        let p = 9 + m + 8 * live.len();
        if k >= p {
            match delta {
                Some(ops) => {
                    delta_op::lemma_split_counts(ops);
                    assert(e.skip(p) =~= le_lists(added_keys(ops), removed_keys(ops)));
                    assert(s.skip(p) =~= le_lists(added_keys(ops), removed_keys(ops)).take(k - p));
                    lemma_lists_truncated(s, p, added_keys(ops), removed_keys(ops), added_alloc, removed_alloc);
                },
                None => {},
            }
        }
    }
}

} // verus!
