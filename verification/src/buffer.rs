//! Access to the reference-counted byte buffers of the `bytes` crate.
//!
//! `Bytes` and `BytesMut` are opaque to the verifier. What such a buffer holds
//! is named by [`bytes_view`] and [`bytes_mut_view`], and each function below
//! makes one call into the crate and says what the call does to that content.
use bytes::{BufMut, Bytes, BytesMut};
use vstd::prelude::*;

verus! {

/// The immutable buffer type of the `bytes` crate.
#[verifier::external_type_specification]
#[verifier::external_body]
pub struct ExBytes(bytes::Bytes);

/// The growable buffer type of the `bytes` crate.
#[verifier::external_type_specification]
#[verifier::external_body]
pub struct ExBytesMut(bytes::BytesMut);

/// The bytes that a `Bytes` value holds.
pub uninterp spec fn bytes_view(b: bytes::Bytes) -> Seq<u8>;

/// The bytes that a `BytesMut` value holds.
pub uninterp spec fn bytes_mut_view(b: bytes::BytesMut) -> Seq<u8>;

/// A number in groups of seven bits, the lowest first; each byte but the last has its highest
/// bit set.
pub open spec fn varint(n: nat) -> Seq<u8>
    decreases n,
{
    if n < 128 {
        seq![n as u8]
    } else {
        seq![(n % 128 + 128) as u8] + varint(n / 128)
    }
}

/// The byte that stands for a flag.
pub open spec fn flag_byte(b: bool) -> u8 {
    if b {
        1
    } else {
        0
    }
}

/// The two little-endian bytes of a 16-bit value.
pub open spec fn le16(x: u16) -> Seq<u8> {
    seq![(x as int % 256) as u8, (x as int / 256) as u8]
}

/// The four little-endian bytes of a 32-bit value: its lower half, then its upper half.
pub open spec fn le32(x: u32) -> Seq<u8> {
    le16((x as int % 0x1_0000) as u16) + le16((x as int / 0x1_0000) as u16)
}

/// The eight little-endian bytes of a 64-bit value: its lower half, then its upper half.
pub open spec fn le64(x: u64) -> Seq<u8> {
    le32((x as int % 0x1_0000_0000) as u32) + le32((x as int / 0x1_0000_0000) as u32)
}

/// `Bytes::new`: a buffer that holds nothing.
#[verifier::external_body]
pub(crate) fn bytes_empty() -> (r: Bytes)
    ensures
        bytes_view(r) == Seq::<u8>::empty(),
{
    Bytes::new()
}

/// `Bytes::from` for a `Vec<u8>`: a buffer that holds the bytes of `data`.
#[verifier::external_body]
pub(crate) fn bytes_of(data: Vec<u8>) -> (r: Bytes)
    ensures
        bytes_view(r) == data@,
{
    Bytes::from(data)
}

/// `Bytes::clone`: a second handle on the same content.
#[verifier::external_body]
pub(crate) fn bytes_cloned(b: &Bytes) -> (r: Bytes)
    ensures
        bytes_view(r) == bytes_view(*b),
{
    b.clone()
}

/// `Bytes::as_ref`: the content as a slice.
#[verifier::external_body]
pub(crate) fn bytes_slice(b: &Bytes) -> (r: &[u8])
    ensures
        r@ == bytes_view(*b),
{
    b.as_ref()
}

/// `Bytes::slice` with an open end: the content from `begin` on. The call
/// panics when `begin` lies behind the end.
#[verifier::external_body]
pub(crate) fn bytes_from(b: &Bytes, begin: usize) -> (r: Bytes)
    requires
        begin <= bytes_view(*b).len(),
    ensures
        bytes_view(r) == bytes_view(*b).skip(begin as int),
{
    b.slice(begin..)
}

/// `Bytes::slice` with both ends: the content from `begin` to before `end`. The call
/// panics when they do not lie in this order inside the buffer.
#[verifier::external_body]
pub(crate) fn bytes_between(b: &Bytes, begin: usize, end: usize) -> (r: Bytes)
    requires
        begin <= end <= bytes_view(*b).len(),
    ensures
        bytes_view(r) == bytes_view(*b).subrange(begin as int, end as int),
{
    b.slice(begin..end)
}

/// `BytesMut::with_capacity`: an empty buffer. The allocator refuses more than
/// `isize::MAX` bytes.
#[verifier::external_body]
pub(crate) fn bytes_mut_with_capacity(capacity: usize) -> (r: BytesMut)
    requires
        capacity <= isize::MAX,
    ensures
        bytes_mut_view(r) == Seq::<u8>::empty(),
{
    BytesMut::with_capacity(capacity)
}

/// `BufMut::put_u8`: appends one byte.
#[verifier::external_body]
pub(crate) fn put_u8(buf: &mut BytesMut, x: u8)
    requires
        bytes_mut_view(*old(buf)).len() + 1 <= isize::MAX,
    ensures
        bytes_mut_view(*final(buf)) == bytes_mut_view(*old(buf)).push(x),
{
    buf.put_u8(x);
}

/// `BufMut::put_u16_le`: appends the two bytes of `x`, the lower one first.
#[verifier::external_body]
pub(crate) fn put_u16_le(buf: &mut BytesMut, x: u16)
    requires
        bytes_mut_view(*old(buf)).len() + 2 <= isize::MAX,
    ensures
        bytes_mut_view(*final(buf)) == bytes_mut_view(*old(buf)) + le16(x),
{
    buf.put_u16_le(x);
}

/// `BufMut::put_u64_le`: appends the eight bytes of `x`, the lowest one first.
#[verifier::external_body]
pub(crate) fn put_u64_le(buf: &mut BytesMut, x: u64)
    requires
        bytes_mut_view(*old(buf)).len() + 8 <= isize::MAX,
    ensures
        bytes_mut_view(*final(buf)) == bytes_mut_view(*old(buf)) + le64(x),
{
    buf.put_u64_le(x);
}

/// `BufMut::put_slice`: appends a copy of `data`.
#[verifier::external_body]
pub(crate) fn put_slice(buf: &mut BytesMut, data: &[u8])
    requires
        bytes_mut_view(*old(buf)).len() + data@.len() <= isize::MAX,
    ensures
        bytes_mut_view(*final(buf)) == bytes_mut_view(*old(buf)) + data@,
{
    buf.put_slice(data);
}

/// `BytesMut::split`: hands over the content and leaves nothing.
#[verifier::external_body]
pub(crate) fn split_off(buf: &mut BytesMut) -> (r: BytesMut)
    ensures
        bytes_mut_view(r) == bytes_mut_view(*old(buf)),
        bytes_mut_view(*final(buf)) == Seq::<u8>::empty(),
{
    buf.split()
}

/// `BytesMut::clear`: throws the content away.
#[verifier::external_body]
pub(crate) fn clear(buf: &mut BytesMut)
    ensures
        bytes_mut_view(*final(buf)) == Seq::<u8>::empty(),
{
    buf.clear();
}

/// `BytesMut::freeze`: the same content as an immutable buffer.
#[verifier::external_body]
pub(crate) fn freeze(buf: BytesMut) -> (r: Bytes)
    ensures
        bytes_view(r) == bytes_mut_view(buf),
{
    buf.freeze()
}

/// Reads the little-endian 16-bit value at `at`.
pub fn read_le16(s: &[u8], at: usize) -> (r: u16)
    requires
        at + 2 <= s@.len(),
    ensures
        le16(r) == s@.subrange(at as int, at + 2),
{
    let r: u16 = s[at] as u16 + (s[at + 1] as u16) * 256;
    r
}

proof fn lemma_quarters(r: u32, lo: u16, hi: u16)
    requires
        r == lo + hi * 0x1_0000,
    ensures
        le32(r) == le16(lo) + le16(hi),
{
    assert(r as int % 0x1_0000 == lo);
    assert(r as int / 0x1_0000 == hi);
}

/// Reads the little-endian 32-bit value at `at`.
pub fn read_le32(s: &[u8], at: usize) -> (r: u32)
    requires
        at + 4 <= s@.len(),
    ensures
        le32(r) == s@.subrange(at as int, at + 4),
{
    let _len: usize = s.len();
    let lo: u16 = read_le16(s, at);
    let hi: u16 = read_le16(s, at + 2);
    let r: u32 = lo as u32 + (hi as u32) * 0x1_0000;
    proof {
        lemma_quarters(r, lo, hi);
    }
    assert(s@.subrange(at as int, at + 4) =~= s@.subrange(at as int, at + 2) + s@.subrange(
        at + 2,
        at + 4,
    ));
    r
}

proof fn lemma_halves(r: u64, lo: u32, hi: u32)
    requires
        r == lo + hi * 0x1_0000_0000,
    ensures
        le64(r) == le32(lo) + le32(hi),
{
    assert(r as int % 0x1_0000_0000 == lo);
    assert(r as int / 0x1_0000_0000 == hi);
}

/// Reads the little-endian 64-bit value at `at`.
pub fn read_le64(s: &[u8], at: usize) -> (r: u64)
    requires
        at + 8 <= s@.len(),
    ensures
        le64(r) == s@.subrange(at as int, at + 8),
{
    let _len: usize = s.len();
    let lo: u32 = read_le32(s, at);
    let hi: u32 = read_le32(s, at + 4);
    let r: u64 = lo as u64 + (hi as u64) * 0x1_0000_0000;
    proof {
        lemma_halves(r, lo, hi);
    }
    assert(s@.subrange(at as int, at + 8) =~= s@.subrange(at as int, at + 4) + s@.subrange(
        at + 4,
        at + 8,
    ));
    r
}

/// A 16-bit value is determined by its little-endian bytes.
pub proof fn law_le16_injective(x: u16, y: u16)
    requires
        le16(x) == le16(y),
    ensures
        x == y,
{
    assert(le16(x)[0] == le16(y)[0] && le16(x)[1] == le16(y)[1]);
}

/// A 32-bit value is determined by its little-endian bytes.
pub proof fn law_le32_injective(x: u32, y: u32)
    requires
        le32(x) == le32(y),
    ensures
        x == y,
{
    let (xl, xh) = ((x as int % 0x1_0000) as u16, (x as int / 0x1_0000) as u16);
    let (yl, yh) = ((y as int % 0x1_0000) as u16, (y as int / 0x1_0000) as u16);
    assert(le16(xl) =~= le32(x).take(2) && le16(yl) =~= le32(y).take(2));
    assert(le16(xh) =~= le32(x).skip(2) && le16(yh) =~= le32(y).skip(2));
    law_le16_injective(xl, yl);
    law_le16_injective(xh, yh);
}

/// A 64-bit value is determined by its little-endian bytes.
pub proof fn law_le64_injective(x: u64, y: u64)
    requires
        le64(x) == le64(y),
    ensures
        x == y,
{
    let (xl, xh) = ((x as int % 0x1_0000_0000) as u32, (x as int / 0x1_0000_0000) as u32);
    let (yl, yh) = ((y as int % 0x1_0000_0000) as u32, (y as int / 0x1_0000_0000) as u32);
    assert(le32(xl) =~= le64(x).take(4) && le32(yl) =~= le64(y).take(4));
    assert(le32(xh) =~= le64(x).skip(4) && le32(yh) =~= le64(y).skip(4));
    law_le32_injective(xl, yl);
    law_le32_injective(xh, yh);
}

/// A number is the sum of its bytes, each with its weight, from the lowest one on.
pub proof fn law_number_from_low_bytes(x: u64)
    ensures
        ({
            let b = le64(x);
            &&& b.len() == 8
            &&& x == b[0] + 0x100 * b[1] + 0x1_0000 * b[2] + 0x100_0000 * b[3] + 0x1_0000_0000 * b[4]
                + 0x100_0000_0000 * b[5] + 0x1_0000_0000_0000 * b[6] + 0x100_0000_0000_0000 * b[7]
        }),
{
    let lo = (x as int % 0x1_0000_0000) as u32;
    let hi = (x as int / 0x1_0000_0000) as u32;
    assert(x == lo + 0x1_0000_0000 * hi);
    let b = le64(x);
    assert(b[0] == le32(lo)[0] && b[1] == le32(lo)[1] && b[2] == le32(lo)[2] && b[3] == le32(lo)[3]);
    assert(b[4] == le32(hi)[0] && b[5] == le32(hi)[1] && b[6] == le32(hi)[2] && b[7] == le32(hi)[3]);
    lemma_half_number(lo);
    lemma_half_number(hi);
}

proof fn lemma_half_number(x: u32)
    ensures
        x == le32(x)[0] + 0x100 * le32(x)[1] + 0x1_0000 * le32(x)[2] + 0x100_0000 * le32(x)[3],
{
    let lo = (x as int % 0x1_0000) as u16;
    let hi = (x as int / 0x1_0000) as u16;
    assert(x == lo + 0x1_0000 * hi);
}

} // verus!
