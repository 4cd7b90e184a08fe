//! Byte-level building blocks of the wire format: NUL search, big-endian
//! integers, UTF-8 payloads and 4-byte alignment padding.

use byteorder::{BigEndian, ByteOrder};
use vstd::prelude::*;
use vstd::utf8::*;

verus! {

/// Position of the first occurrence of `x` in `b`.
pub open spec fn find_first<A>(b: Seq<A>, x: A) -> Option<nat>
    decreases b.len(),
{
    if b.len() == 0 {
        None
    } else if b[0] == x {
        Some(0)
    } else {
        match find_first(b.drop_first(), x) {
            Some(i) => Some(i + 1),
            None => None,
        }
    }
}

/// `find_first` finds `i` when `b[i]` is the first `x`.
pub proof fn lemma_find_first_at<A>(b: Seq<A>, x: A, i: int)
    requires
        0 <= i < b.len(),
        b[i] == x,
        forall|j: int| 0 <= j < i ==> b[j] != x,
    ensures
        find_first(b, x) == Some(i as nat),
    decreases i,
{
    if i > 0 {
        assert forall|j: int| 0 <= j < i - 1 implies b.drop_first()[j] != x by {
            assert(b[j + 1] != x);
        }
        lemma_find_first_at(b.drop_first(), x, i - 1);
    }
}

/// What `find_first` finds is the first `x` of `b`; when it finds nothing,
/// `b` holds no `x`.
pub proof fn lemma_find_first<A>(b: Seq<A>, x: A)
    ensures
        match find_first(b, x) {
            Some(i) => i < b.len() && b[i as int] == x && forall|j: int| 0 <= j < i ==> b[j] != x,
            None => forall|j: int| 0 <= j < b.len() ==> b[j] != x,
        },
    decreases b.len(),
{
    if b.len() > 0 {
        lemma_find_first(b.drop_first(), x);
        if b[0] != x {
            match find_first(b.drop_first(), x) {
                Some(i) => {
                    assert forall|j: int| 0 <= j < i + 1 implies b[j] != x by {
                        if j > 0 {
                            assert(b[j] == b.drop_first()[j - 1]);
                        }
                    }
                },
                None => {
                    assert forall|j: int| 0 <= j < b.len() implies b[j] != x by {
                        if j > 0 {
                            assert(b[j] == b.drop_first()[j - 1]);
                        }
                    }
                },
            }
        }
    }
}

/// `find_first` finds nothing when `x` does not occur in `b`.
pub proof fn lemma_find_first_absent<A>(b: Seq<A>, x: A)
    requires
        forall|j: int| 0 <= j < b.len() ==> b[j] != x,
    ensures
        find_first(b, x) is None,
    decreases b.len(),
{
    if b.len() > 0 {
        assert forall|j: int| 0 <= j < b.len() - 1 implies b.drop_first()[j] != x by {
            assert(b[j + 1] != x);
        }
        lemma_find_first_absent(b.drop_first(), x);
    }
}

/// Index of the first byte of `haystack` equal to `needle`.
pub fn strchr(haystack: &[u8], needle: u8) -> (r: Option<usize>)
    ensures
        match r {
            Some(i) => i < haystack@.len() && find_first(haystack@, needle) == Some(i as nat),
            None => find_first(haystack@, needle) is None,
        },
{
    let mut idx: usize = 0;
    while idx < haystack.len()
        invariant
            idx <= haystack@.len(),
            forall|j: int| 0 <= j < idx ==> haystack@[j] != needle,
        decreases haystack@.len() - idx,
    {
        if haystack[idx] == needle {
            proof {
                lemma_find_first_at(haystack@, needle, idx as int);
            }
            return Some(idx);
        }
        idx += 1;
    }
    proof {
        lemma_find_first_absent(haystack@, needle);
    }
    None
}


/// The integer held by the first four bytes of `b`, most significant first.
pub open spec fn be_u32(b: Seq<u8>) -> u32
    recommends
        b.len() >= 4,
{
    ((b[0] as u32) << 24u32) | ((b[1] as u32) << 16u32) | ((b[2] as u32) << 8u32) | (b[3] as u32)
}

/// The signed integer held by the first four bytes of `b`, two's complement.
pub open spec fn be_i32(b: Seq<u8>) -> i32
    recommends
        b.len() >= 4,
{
    be_u32(b) as i32
}

/// `v` as four bytes, most significant first.
pub open spec fn be_bytes(v: u32) -> Seq<u8> {
    seq![(v >> 24u32) as u8, (v >> 16u32) as u8, (v >> 8u32) as u8, v as u8]
}

/// Reading back four written bytes gives the integer that was written.
pub proof fn lemma_be_round_trip(v: u32)
    ensures
        be_bytes(v).len() == 4,
        be_u32(be_bytes(v)) == v,
{
    let b = be_bytes(v);
    assert(b[0] == (v >> 24u32) as u8 && b[1] == (v >> 16u32) as u8 && b[2] == (v >> 8u32) as u8
        && b[3] == v as u8);
    assert(((((v >> 24u32) as u8) as u32) << 24u32) | ((((v >> 16u32) as u8) as u32) << 16u32) | ((
    ((v >> 8u32) as u8) as u32) << 8u32) | ((v as u8) as u32) == v) by (bit_vector);
}

/// A signed integer survives the trip through its unsigned bit pattern.
pub proof fn lemma_i32_bits(n: i32)
    ensures
        (n as u32) as i32 == n,
{
    assert((n as u32) as i32 == n) by (bit_vector);
}

/// Relies on byteorder's `BigEndian::read_u32`: the first four bytes of `buf`,
/// most significant first (it panics on fewer than four).
#[verifier::external_body]
pub(crate) fn read_be_u32(buf: &[u8]) -> (r: u32)
    requires
        buf@.len() >= 4,
    ensures
        r == be_u32(buf@),
{
    BigEndian::read_u32(buf)
}

/// Relies on byteorder's `BigEndian::read_i32`: `read_u32` of the same bytes
/// cast to `i32` (it panics on fewer than four bytes).
#[verifier::external_body]
pub(crate) fn read_be_i32(buf: &[u8]) -> (r: i32)
    requires
        buf@.len() >= 4,
    ensures
        r == be_i32(buf@),
{
    BigEndian::read_i32(buf)
}

/// Relies on byteorder's `BigEndian::write_u32`: `n` as four bytes, most
/// significant first.
#[verifier::external_body]
pub(crate) fn write_be_u32(n: u32) -> (r: [u8; 4])
    ensures
        r@ == be_bytes(n),
{
    let mut buf = [0u8; 4];
    BigEndian::write_u32(&mut buf, n);
    buf
}

/// Relies on byteorder's `BigEndian::write_i32`: `write_u32` of `n` cast to
/// `u32`.
#[verifier::external_body]
pub(crate) fn write_be_i32(n: i32) -> (r: [u8; 4])
    ensures
        r@ == be_bytes(n as u32),
{
    let mut buf = [0u8; 4];
    BigEndian::write_i32(&mut buf, n);
    buf
}

/// `n` zero bytes.
pub open spec fn zeros(n: nat) -> Seq<u8> {
    Seq::new(n, |i: int| 0u8)
}

/// Length of `n` payload bytes once terminated and aligned: the smallest
/// multiple of 4 strictly greater than `n`.
pub open spec fn padded_len(n: int) -> int {
    n + 4 - n % 4
}

/// `b` followed by a NUL terminator and the NUL bytes that align it to 4.
pub open spec fn padded(b: Seq<u8>) -> Seq<u8> {
    b + zeros((4 - b.len() % 4) as nat)
}

/// Relies on `std::str::from_utf8`: it succeeds exactly on valid UTF-8, and
/// the text it returns is made of those bytes.
#[verifier::external_body]
pub(crate) fn utf8_str<'a>(b: &'a [u8]) -> (r: Option<&'a str>)
    ensures
        match r {
            Some(s) => encode_utf8(s@) == b@,
            None => !valid_utf8(b@),
        },
{
    std::str::from_utf8(b).ok()
}

/// Appends `bytes` to `into`.
pub fn push_bytes(into: &mut Vec<u8>, bytes: &[u8])
    ensures
        final(into)@ == old(into)@ + bytes@,
{
    let mut k: usize = 0;
    while k < bytes.len()
        invariant
            k <= bytes@.len(),
            into@ == old(into)@ + bytes@.take(k as int),
        decreases bytes@.len() - k,
    {
        into.push(bytes[k]);
        k += 1;
        assert(bytes@.take(k as int) == bytes@.take(k - 1).push(bytes@[k - 1]));
    }
    assert(bytes@.take(k as int) == bytes@);
}

/// Appends `bytes`, a NUL terminator and the alignment padding to `into`.
pub fn push_padded(into: &mut Vec<u8>, bytes: &[u8])
    ensures
        final(into)@ == old(into)@ + padded(bytes@),
{
    push_bytes(into, bytes);
    let pad: usize = 4 - bytes.len() % 4;
    let mut k: usize = 0;
    while k < pad
        invariant
            k <= pad,
            pad == 4 - bytes@.len() % 4,
            into@ == old(into)@ + bytes@ + zeros(k as nat),
        decreases pad - k,
    {
        into.push(0u8);
        k += 1;
        assert(zeros(k as nat) == zeros((k - 1) as nat).push(0u8));
    }
}

} // verus!
