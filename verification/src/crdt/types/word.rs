use vstd::prelude::*;

use alloy_primitives::U256 as AlloyU256;
use vstd::bytes::{spec_u64_from_le_bytes, spec_u64_to_le_bytes};

use crate::crdt::state::error::decimal;

verus! {

/// The radix of one limb.
pub open spec fn limb_base() -> nat {
    0x1_0000_0000_0000_0000nat
}

/// 2^256, one past the largest 256-bit number.
pub open spec fn word_modulus() -> nat {
    0x1_0000_0000_0000_0000_0000_0000_0000_0000_0000_0000_0000_0000_0000_0000_0000_0000nat
}

/// An unsigned 256-bit number held as four little-endian 64-bit limbs, the
/// layout of `alloy_primitives::U256`.
#[derive(Clone, Copy, Debug, PartialEq, Eq, Hash)]
pub struct Word256 {
    pub limbs: [u64; 4],
}

impl Word256 {
    /// The number that the limbs denote.
    pub open spec fn value(self) -> nat {
        (self.limbs[0] + 0x1_0000_0000_0000_0000nat * self.limbs[1]
            + 0x1_0000_0000_0000_0000_0000_0000_0000_0000nat * self.limbs[2]
            + 0x1_0000_0000_0000_0000_0000_0000_0000_0000_0000_0000_0000_0000nat * self.limbs[3]) as nat
    }

    /// The 32 little-endian bytes of the number: each limb's 8 bytes, least
    /// significant limb first.
    pub open spec fn le_bytes(self) -> Seq<u8> {
        spec_u64_to_le_bytes(self.limbs[0]) + spec_u64_to_le_bytes(self.limbs[1])
            + spec_u64_to_le_bytes(self.limbs[2]) + spec_u64_to_le_bytes(self.limbs[3])
    }

    /// The number whose little-endian bytes are `bytes` (32 of them).
    pub open spec fn from_le_bytes_spec(bytes: Seq<u8>) -> Word256 {
        Word256 {
            limbs: [
                spec_u64_from_le_bytes(bytes.subrange(0, 8)),
                spec_u64_from_le_bytes(bytes.subrange(8, 16)),
                spec_u64_from_le_bytes(bytes.subrange(16, 24)),
                spec_u64_from_le_bytes(bytes.subrange(24, 32)),
            ],
        }
    }

    pub fn zero() -> (w: Word256)
        ensures
            w.value() == 0,
            w == (Word256 { limbs: [0, 0, 0, 0] }),
    {
        Word256 { limbs: [0, 0, 0, 0] }
    }

    pub fn max() -> (w: Word256)
        ensures
            w.value() == word_modulus() - 1,
            w == (Word256 { limbs: [u64::MAX, u64::MAX, u64::MAX, u64::MAX] }),
    {
        Word256 { limbs: [u64::MAX, u64::MAX, u64::MAX, u64::MAX] }
    }

    pub fn from_u64(value: u64) -> (w: Word256)
        ensures
            w.value() == value,
    {
        Word256 { limbs: [value, 0, 0, 0] }
    }
}

/// Every limb layout denotes a number below 2^256.
pub proof fn lemma_value_bounds(w: Word256)
    ensures
        w.value() < word_modulus(),
        w.limbs[1] != 0 || w.limbs[2] != 0 || w.limbs[3] != 0 ==> w.value() >= limb_base(),
{
}

/// Two layouts denote the same number only if they are the same layout.
pub proof fn lemma_value_injective(a: Word256, b: Word256)
    requires
        a.value() == b.value(),
    ensures
        a == b,
{
    let a0 = a.limbs[0] as int;
    let a1 = a.limbs[1] as int;
    let a2 = a.limbs[2] as int;
    let a3 = a.limbs[3] as int;
    let b0 = b.limbs[0] as int;
    let b1 = b.limbs[1] as int;
    let b2 = b.limbs[2] as int;
    let b3 = b.limbs[3] as int;
    assert(a3 == b3);
    assert(a2 == b2);
    assert(a1 == b1);
    assert(a.limbs =~= b.limbs);
}

/// Reading back the 32 little-endian bytes of a number gives the number.
pub proof fn lemma_le_bytes_round_trip(w: Word256)
    ensures
        w.le_bytes().len() == 32,
        Word256::from_le_bytes_spec(w.le_bytes()) == w,
{
    vstd::bytes::lemma_auto_spec_u64_to_from_le_bytes();
    let s = w.le_bytes();
    assert(spec_u64_to_le_bytes(w.limbs[0]).len() == 8);
    assert(spec_u64_to_le_bytes(w.limbs[1]).len() == 8);
    assert(spec_u64_to_le_bytes(w.limbs[2]).len() == 8);
    assert(spec_u64_to_le_bytes(w.limbs[3]).len() == 8);
    assert(s.subrange(0, 8) =~= spec_u64_to_le_bytes(w.limbs[0]));
    assert(s.subrange(8, 16) =~= spec_u64_to_le_bytes(w.limbs[1]));
    assert(s.subrange(16, 24) =~= spec_u64_to_le_bytes(w.limbs[2]));
    assert(s.subrange(24, 32) =~= spec_u64_to_le_bytes(w.limbs[3]));
    let r = Word256::from_le_bytes_spec(s);
    assert(r.limbs =~= w.limbs);
}

/// `alloy_primitives::U256::checked_add`: the sum, or `None` when it does not
/// fit in 256 bits.
#[verifier::external_body]
pub(crate) fn word_checked_add(a: Word256, b: Word256) -> (r: Option<Word256>)
    ensures
        r is Some <==> a.value() + b.value() < word_modulus(),
        r matches Some(c) ==> c.value() == a.value() + b.value(),
{
    match AlloyU256::from_limbs(a.limbs).checked_add(AlloyU256::from_limbs(b.limbs)) {
        Some(c) => Some(Word256 { limbs: c.into_limbs() }),
        None => None,
    }
}

/// `alloy_primitives::U256::checked_sub`: the difference, or `None` when it
/// would be negative.
#[verifier::external_body]
pub(crate) fn word_checked_sub(a: Word256, b: Word256) -> (r: Option<Word256>)
    ensures
        r is Some <==> b.value() <= a.value(),
        r matches Some(c) ==> c.value() == a.value() - b.value(),
{
    match AlloyU256::from_limbs(a.limbs).checked_sub(AlloyU256::from_limbs(b.limbs)) {
        Some(c) => Some(Word256 { limbs: c.into_limbs() }),
        None => None,
    }
}

/// The `+` of `alloy_primitives::U256`, which wraps modulo 2^256.
#[verifier::external_body]
pub(crate) fn word_wrapping_add(a: Word256, b: Word256) -> (r: Word256)
    ensures
        r.value() == (a.value() + b.value()) as int % (word_modulus() as int),
{
    Word256 { limbs: (AlloyU256::from_limbs(a.limbs) + AlloyU256::from_limbs(b.limbs)).into_limbs() }
}

/// The `-` of `alloy_primitives::U256`, which wraps modulo 2^256.
#[verifier::external_body]
pub(crate) fn word_wrapping_sub(a: Word256, b: Word256) -> (r: Word256)
    ensures
        r.value() == (a.value() - b.value()) as int % (word_modulus() as int),
{
    Word256 { limbs: (AlloyU256::from_limbs(a.limbs) - AlloyU256::from_limbs(b.limbs)).into_limbs() }
}

/// The `<` of `alloy_primitives::U256`.
#[verifier::external_body]
pub(crate) fn word_less(a: Word256, b: Word256) -> (r: bool)
    ensures
        r == (a.value() < b.value()),
{
    AlloyU256::from_limbs(a.limbs) < AlloyU256::from_limbs(b.limbs)
}

/// `alloy_primitives::U256::to_le_bytes::<32>`: the limbs' little-endian bytes,
/// least significant limb first.
#[verifier::external_body]
pub(crate) fn word_to_le_bytes(a: Word256) -> (r: [u8; 32])
    ensures
        r@ == a.le_bytes(),
{
    AlloyU256::from_limbs(a.limbs).to_le_bytes::<32>()
}

/// `alloy_primitives::U256::from_le_bytes::<32>`: the number whose
/// little-endian bytes are given.
#[verifier::external_body]
pub(crate) fn word_from_le_bytes(bytes: [u8; 32]) -> (r: Word256)
    ensures
        r == Word256::from_le_bytes_spec(bytes@),
{
    Word256 { limbs: AlloyU256::from_le_bytes::<32>(bytes).into_limbs() }
}

/// The decimal rendering of `alloy_primitives::U256` (its `Display`): the
/// number's digits in base ten, with no leading zero.
#[verifier::external_body]
pub(crate) fn describe_word(a: Word256) -> (r: String)
    ensures
        r@ == decimal(a.value()),
{
    format!("{}", AlloyU256::from_limbs(a.limbs))
}

} // verus!
