//! The storage format: the committed state of a value as one RLP list of
//! integers. Pending deltas are not stored. The RLP items themselves are
//! written and read by `alloy_rlp`.

pub mod bytes;
pub mod int64;
pub mod key_list;
pub mod path_meta;
pub mod u256;
pub mod u64_set;
pub mod uint64;

use vstd::prelude::*;

use crate::crdt::types::word::Word256;
use alloy_primitives::U256 as AlloyU256;
use alloy_rlp::Error as RlpError;
use alloy_rlp::{Decodable, Encodable, Header};

verus! {

#[verifier::external_type_specification]
#[verifier::external_body]
pub struct ExRlpError(RlpError);

/// Why a stored value could not be read back.
#[derive(Debug, PartialEq, Eq)]
pub enum StorageError {
    /// The input is not the RLP structure expected (as `alloy_rlp` reports it).
    Rlp(RlpError),
    /// The items are well-formed RLP but do not make a valid value.
    Invalid(&'static str),
}

/// The minimal big-endian bytes of `n` (none for zero).
pub open spec fn be_bytes(n: nat) -> Seq<u8>
    decreases n,
{
    if n == 0 {
        Seq::empty()
    } else {
        be_bytes(n / 256).push((n % 256) as u8)
    }
}

/// 256 to the power `k`.
pub open spec fn pow256(k: nat) -> nat
    decreases k,
{
    if k == 0 {
        1
    } else {
        256 * pow256((k - 1) as nat)
    }
}

/// The number whose big-endian bytes are `s`.
pub open spec fn from_be(s: Seq<u8>) -> nat
    decreases s.len(),
{
    if s.len() == 0 {
        0
    } else {
        from_be(s.drop_last()) * 256 + s.last() as nat
    }
}

/// The RLP of an unsigned integer: `0x80` for zero, the byte itself below
/// `0x80`, and otherwise `0x80` plus the length, then the minimal big-endian
/// bytes.
pub open spec fn rlp_uint(n: nat) -> Seq<u8> {
    if n == 0 {
        seq![0x80u8]
    } else if n < 0x80 {
        seq![n as u8]
    } else {
        seq![(0x80 + be_bytes(n).len()) as u8] + be_bytes(n)
    }
}

/// The RLP header of a list whose payload is `len` bytes long.
pub open spec fn rlp_list_header(len: nat) -> Seq<u8> {
    if len < 56 {
        seq![(0xc0 + len) as u8]
    } else {
        seq![(0xf7 + be_bytes(len).len()) as u8] + be_bytes(len)
    }
}

/// The RLP header of a byte string of `len` bytes.
pub open spec fn rlp_string_header(len: nat) -> Seq<u8> {
    if len < 56 {
        seq![(0x80 + len) as u8]
    } else {
        seq![(0xb7 + be_bytes(len).len()) as u8] + be_bytes(len)
    }
}

/// The RLP of a byte string: a single byte below `0x80` stands for itself;
/// any other string gets its header.
pub open spec fn rlp_string(s: Seq<u8>) -> Seq<u8> {
    if s.len() == 1 && s[0] < 0x80 {
        s
    } else {
        rlp_string_header(s.len()) + s
    }
}

/// The RLP of each number of `keys`, back to back.
pub open spec fn rlp_uints(keys: Seq<u64>) -> Seq<u8>
    decreases keys.len(),
{
    if keys.len() == 0 {
        Seq::empty()
    } else {
        rlp_uint(keys[0] as nat) + rlp_uints(keys.skip(1))
    }
}

/// What `Header::decode_bytes(.., true)` makes of an input: the payload of
/// the list at its front and the input after that list, or `None` when it
/// fails.
pub uninterp spec fn rlp_list_split(input: Seq<u8>) -> Option<(Seq<u8>, Seq<u8>)>;

/// What `Header::decode_bytes(.., false)` makes of an input: the byte string
/// at its front and the input after it, or `None` when it fails.
pub uninterp spec fn rlp_string_split(input: Seq<u8>) -> Option<(Seq<u8>, Seq<u8>)>;

/// What `<u8 as Decodable>::decode` makes of an input: the number at its
/// front and the input after it, or `None` when it fails.
pub uninterp spec fn rlp_u8_split(input: Seq<u8>) -> Option<(u8, Seq<u8>)>;

/// What `<u64 as Decodable>::decode` makes of an input.
pub uninterp spec fn rlp_u64_split(input: Seq<u8>) -> Option<(u64, Seq<u8>)>;

/// What `<alloy_primitives::U256 as Decodable>::decode` makes of an input,
/// the number as limbs.
pub uninterp spec fn rlp_word_split(input: Seq<u8>) -> Option<(Word256, Seq<u8>)>;

/// `<u8 as Encodable>::encode`: appends the RLP of the number.
#[verifier::external_body]
pub(crate) fn put_u8(out: &mut Vec<u8>, value: u8)
    ensures
        final(out)@ == old(out)@ + rlp_uint(value as nat),
{
    value.encode(out)
}

/// `<u64 as Encodable>::encode`: appends the RLP of the number.
#[verifier::external_body]
pub(crate) fn put_u64(out: &mut Vec<u8>, value: u64)
    ensures
        final(out)@ == old(out)@ + rlp_uint(value as nat),
{
    value.encode(out)
}

/// `<alloy_primitives::U256 as Encodable>::encode` on the number that the
/// limbs denote: appends its RLP.
#[verifier::external_body]
pub(crate) fn put_word(out: &mut Vec<u8>, value: Word256)
    ensures
        final(out)@ == old(out)@ + rlp_uint(value.value()),
{
    AlloyU256::from_limbs(value.limbs).encode(out)
}

/// `<[u8] as Encodable>::encode`: appends the RLP of the byte string.
#[verifier::external_body]
pub(crate) fn put_bytes(out: &mut Vec<u8>, value: &[u8])
    ensures
        final(out)@ == old(out)@ + rlp_string(value@),
{
    value.encode(out)
}

/// `<[u8] as Encodable>::length`: the size of the byte string's RLP.
#[verifier::external_body]
pub(crate) fn bytes_length(value: &[u8]) -> (r: usize)
    requires
        rlp_string(value@).len() <= usize::MAX,
    ensures
        r == rlp_string(value@).len(),
{
    value.length()
}

/// `Header { list: true, payload_length }.encode`: appends the header of a
/// list with that payload length.
#[verifier::external_body]
pub(crate) fn put_list_header(out: &mut Vec<u8>, payload_length: usize)
    ensures
        final(out)@ == old(out)@ + rlp_list_header(payload_length as nat),
{
    Header { list: true, payload_length }.encode(out)
}

/// `<u8 as Encodable>::length`: the size of the number's RLP.
#[verifier::external_body]
pub(crate) fn u8_length(value: u8) -> (r: usize)
    ensures
        r == rlp_uint(value as nat).len(),
        r <= 2,
{
    value.length()
}

/// `<u64 as Encodable>::length`: the size of the number's RLP, at most 9.
#[verifier::external_body]
pub(crate) fn u64_length(value: u64) -> (r: usize)
    ensures
        r == rlp_uint(value as nat).len(),
        r <= 9,
{
    value.length()
}

/// `<alloy_primitives::U256 as Encodable>::length`: the size of the
/// number's RLP, at most 33.
#[verifier::external_body]
pub(crate) fn word_length(value: Word256) -> (r: usize)
    ensures
        r == rlp_uint(value.value()).len(),
        r <= 33,
{
    AlloyU256::from_limbs(value.limbs).length()
}

/// `alloy_rlp::length_of_length`: the size of a list header for a payload of
/// `payload_length` bytes, at most 9.
#[verifier::external_body]
pub(crate) fn length_of_length(payload_length: usize) -> (r: usize)
    ensures
        r == rlp_list_header(payload_length as nat).len(),
        r <= 9,
{
    alloy_rlp::length_of_length(payload_length)
}

/// `Header::decode_bytes(.., true)`: splits off the list at the front of
/// `input`, giving its payload and the rest. It succeeds exactly when the
/// input starts with the (canonical) header of a list and its whole payload.
#[verifier::external_body]
pub(crate) fn take_list(input: &[u8]) -> (r: Result<(&[u8], &[u8]), RlpError>)
    ensures
        match r {
            Ok((payload, rest)) => rlp_list_split(input@) == Some((payload@, rest@)),
            Err(_) => rlp_list_split(input@) is None,
        },
        r matches Ok((payload, rest)) ==> input@ == rlp_list_header(payload@.len()) + payload@
            + rest@,
        (exists|p: Seq<u8>, rest: Seq<u8>| input@ == rlp_list_header(p.len()) + p + rest) ==> r is Ok,
{
    let mut buf = input;
    let payload = Header::decode_bytes(&mut buf, true)?;
    Ok((payload, buf))
}

/// `Header::decode_bytes(.., false)`: splits off the byte string at the
/// front of `input`, giving it and the rest. It succeeds exactly when the
/// input starts with the (canonical) RLP of a byte string.
#[verifier::external_body]
pub(crate) fn take_bytes(input: &[u8]) -> (r: Result<(&[u8], &[u8]), RlpError>)
    ensures
        match r {
            Ok((value, rest)) => rlp_string_split(input@) == Some((value@, rest@)),
            Err(_) => rlp_string_split(input@) is None,
        },
        r matches Ok((value, rest)) ==> input@ == rlp_string(value@) + rest@,
        (exists|v: Seq<u8>, rest: Seq<u8>| input@ == rlp_string(v) + rest) ==> r is Ok,
{
    let mut buf = input;
    let value = Header::decode_bytes(&mut buf, false)?;
    Ok((value, buf))
}

/// `<u8 as Decodable>::decode`: reads the number at the front of `input`;
/// it succeeds exactly when the input starts with the (canonical) RLP of a
/// number that fits.
#[verifier::external_body]
pub(crate) fn take_u8(input: &[u8]) -> (r: Result<(u8, &[u8]), RlpError>)
    ensures
        match r {
            Ok((value, rest)) => rlp_u8_split(input@) == Some((value, rest@)),
            Err(_) => rlp_u8_split(input@) is None,
        },
        r matches Ok((value, rest)) ==> input@ == rlp_uint(value as nat) + rest@,
        (exists|v: u8, rest: Seq<u8>| input@ == rlp_uint(v as nat) + rest) ==> r is Ok,
{
    let mut buf = input;
    let value = u8::decode(&mut buf)?;
    Ok((value, buf))
}

/// `<u64 as Decodable>::decode`: reads the number at the front of `input`;
/// it succeeds exactly when the input starts with the (canonical) RLP of a
/// number that fits.
#[verifier::external_body]
pub(crate) fn take_u64(input: &[u8]) -> (r: Result<(u64, &[u8]), RlpError>)
    ensures
        match r {
            Ok((value, rest)) => rlp_u64_split(input@) == Some((value, rest@)),
            Err(_) => rlp_u64_split(input@) is None,
        },
        r matches Ok((value, rest)) ==> input@ == rlp_uint(value as nat) + rest@,
        (exists|v: u64, rest: Seq<u8>| input@ == rlp_uint(v as nat) + rest) ==> r is Ok,
{
    let mut buf = input;
    let value = u64::decode(&mut buf)?;
    Ok((value, buf))
}

/// `<alloy_primitives::U256 as Decodable>::decode`: reads the number at the
/// front of `input`, as limbs; it succeeds exactly when the input starts
/// with the (canonical) RLP of a 256-bit number.
#[verifier::external_body]
pub(crate) fn take_word(input: &[u8]) -> (r: Result<(Word256, &[u8]), RlpError>)
    ensures
        match r {
            Ok((value, rest)) => rlp_word_split(input@) == Some((value, rest@)),
            Err(_) => rlp_word_split(input@) is None,
        },
        r matches Ok((value, rest)) ==> input@ == rlp_uint(value.value()) + rest@,
        (exists|w: Word256, rest: Seq<u8>| input@ == rlp_uint(w.value()) + rest) ==> r is Ok,
{
    let mut buf = input;
    let value = AlloyU256::decode(&mut buf)?;
    Ok((Word256 { limbs: *value.as_limbs() }, buf))
}

/// A decoding outcome as a model: the value and the rest of the input; or
/// `None` for malformed RLP and the message for invalid items.
pub open spec fn outcome<T>(r: Result<(T, &[u8]), StorageError>) -> Result<
    (T, Seq<u8>),
    Option<&'static str>,
> {
    match r {
        Ok((v, rest)) => Ok((v, rest@)),
        Err(StorageError::Rlp(_)) => Err(None),
        Err(StorageError::Invalid(m)) => Err(Some(m)),
    }
}


/// Reading the big-endian bytes of a number gives the number back.
pub proof fn lemma_be_round_trip(n: nat)
    ensures
        from_be(be_bytes(n)) == n,
    decreases n,
{
    if n > 0 {
        lemma_be_round_trip(n / 256);
        assert(be_bytes(n).drop_last() == be_bytes(n / 256));
    }
}

/// A number below `256^k` has at most `k` big-endian bytes, and a nonzero
/// number has at least one.
pub proof fn lemma_be_len(n: nat, k: nat)
    requires
        n < pow256(k),
    ensures
        be_bytes(n).len() <= k,
        n > 0 ==> be_bytes(n).len() >= 1,
    decreases k,
{
    if n > 0 {
        assert(k > 0);
        assert(n / 256 < pow256((k - 1) as nat));
        lemma_be_len(n / 256, (k - 1) as nat);
    }
}

/// The bounds of the numbers that the format carries.
pub proof fn lemma_pow256_bounds()
    ensures
        pow256(8) == 0x1_0000_0000_0000_0000nat,
        pow256(32) == 0x1_0000_0000_0000_0000_0000_0000_0000_0000_0000_0000_0000_0000_0000_0000_0000_0000nat,
{
    reveal_with_fuel(pow256, 33);
}

/// A 256-bit number is below `256^32`.
pub proof fn lemma_word_bound(w: Word256)
    ensures
        w.value() < pow256(32),
{
    lemma_pow256_bounds();
}

/// The RLP of a number is never empty, and a number is told apart from the
/// input after it: equal inputs that start with the RLP of two numbers
/// below `256^32` start with the same number and continue alike.
pub proof fn lemma_uint_prefix(a: nat, b: nat, r1: Seq<u8>, r2: Seq<u8>)
    requires
        a < pow256(32),
        b < pow256(32),
        rlp_uint(a) + r1 == rlp_uint(b) + r2,
    ensures
        a == b,
        r1 == r2,
{
    lemma_be_len(a, 32);
    lemma_be_len(b, 32);
    let s = rlp_uint(a) + r1;
    assert(s[0] == rlp_uint(a)[0]);
    assert(s[0] == rlp_uint(b)[0]);
    if a >= 0x80 && b >= 0x80 {
        let la = be_bytes(a).len();
        let lb = be_bytes(b).len();
        assert(la == lb);
        assert(s.subrange(1, 1 + la as int) == be_bytes(a));
        assert(s.subrange(1, 1 + lb as int) == be_bytes(b));
        lemma_be_round_trip(a);
        lemma_be_round_trip(b);
    }
    assert(a == b);
    assert(r1 =~= s.skip(rlp_uint(a).len() as int));
    assert(r2 =~= s.skip(rlp_uint(b).len() as int));
}

/// A list header is told apart from what follows it: equal inputs that
/// start with a list header and its payload have the same payload and rest.
pub proof fn lemma_list_prefix(p1: Seq<u8>, r1: Seq<u8>, p2: Seq<u8>, r2: Seq<u8>)
    requires
        p1.len() < pow256(8),
        p2.len() < pow256(8),
        rlp_list_header(p1.len()) + p1 + r1 == rlp_list_header(p2.len()) + p2 + r2,
    ensures
        p1 == p2,
        r1 == r2,
{
    let n1 = p1.len();
    let n2 = p2.len();
    lemma_be_len(n1, 8);
    lemma_be_len(n2, 8);
    let s = rlp_list_header(n1) + p1 + r1;
    assert(s[0] == rlp_list_header(n1)[0]);
    assert(s[0] == rlp_list_header(n2)[0]);
    if n1 >= 56 && n2 >= 56 {
        let l1 = be_bytes(n1).len();
        let l2 = be_bytes(n2).len();
        assert(l1 == l2);
        assert(s.subrange(1, 1 + l1 as int) == be_bytes(n1));
        assert(s.subrange(1, 1 + l2 as int) == be_bytes(n2));
        lemma_be_round_trip(n1);
        lemma_be_round_trip(n2);
    }
    assert(n1 == n2);
    let h = rlp_list_header(n1).len() as int;
    assert(p1 =~= s.subrange(h, h + n1));
    assert(p2 =~= s.subrange(h, h + n2));
    assert(r1 =~= s.skip(h + n1));
    assert(r2 =~= s.skip(h + n2));
}

/// A byte string is told apart from what follows it: equal inputs that
/// start with the RLP of two byte strings have the same string and rest.
pub proof fn lemma_string_prefix(a: Seq<u8>, r1: Seq<u8>, b: Seq<u8>, r2: Seq<u8>)
    requires
        a.len() < pow256(8),
        b.len() < pow256(8),
        rlp_string(a) + r1 == rlp_string(b) + r2,
    ensures
        a == b,
        r1 == r2,
{
    let n1 = a.len();
    let n2 = b.len();
    lemma_be_len(n1, 8);
    lemma_be_len(n2, 8);
    let s = rlp_string(a) + r1;
    assert(s[0] == rlp_string(a)[0]);
    assert(s[0] == rlp_string(b)[0]);
    let single_a = n1 == 1 && a[0] < 0x80;
    let single_b = n2 == 1 && b[0] < 0x80;
    if single_a || single_b {
        assert(single_a && single_b);
        assert(a =~= s.take(1));
        assert(b =~= s.take(1));
        assert(r1 =~= s.skip(1));
        assert(r2 =~= s.skip(1));
    } else {
        if n1 >= 56 && n2 >= 56 {
            let l1 = be_bytes(n1).len();
            let l2 = be_bytes(n2).len();
            assert(l1 == l2);
            assert(s.subrange(1, 1 + l1 as int) == be_bytes(n1));
            assert(s.subrange(1, 1 + l2 as int) == be_bytes(n2));
            lemma_be_round_trip(n1);
            lemma_be_round_trip(n2);
        }
        assert(n1 == n2);
        let h = rlp_string_header(n1).len() as int;
        assert(a =~= s.subrange(h, h + n1));
        assert(b =~= s.subrange(h, h + n2));
        assert(r1 =~= s.skip(h + n1));
        assert(r2 =~= s.skip(h + n2));
    }
}

} // verus!
