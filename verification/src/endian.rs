//! Big-endian fixed-width integers: what their bytes are, and the calls into
//! `byteorder` that read and write them.

use byteorder::{BigEndian, ByteOrder};
use vstd::prelude::*;

verus! {

/// The number that two bytes stand for, most significant byte first.
pub open spec fn be16(s: Seq<u8>) -> u16 {
    (s[0] as int * 0x100 + s[1] as int) as u16
}

/// The number that four bytes stand for, most significant byte first.
pub open spec fn be32(s: Seq<u8>) -> u32 {
    (be16(s.subrange(0, 2)) as int * 0x1_0000 + be16(s.subrange(2, 4)) as int) as u32
}

/// The number that eight bytes stand for, most significant byte first.
pub open spec fn be64(s: Seq<u8>) -> u64 {
    (be32(s.subrange(0, 4)) as int * 0x1_0000_0000 + be32(s.subrange(4, 8)) as int) as u64
}

/// The two bytes of a number, most significant byte first.
pub open spec fn be16_bytes(n: u16) -> Seq<u8> {
    seq![(n / 0x100) as u8, (n % 0x100) as u8]
}

/// The four bytes of a number, most significant byte first.
pub open spec fn be32_bytes(n: u32) -> Seq<u8> {
    be16_bytes((n / 0x1_0000) as u16) + be16_bytes((n % 0x1_0000) as u16)
}

/// The eight bytes of a number, most significant byte first.
pub open spec fn be64_bytes(n: u64) -> Seq<u8> {
    be32_bytes((n / 0x1_0000_0000) as u32) + be32_bytes((n % 0x1_0000_0000) as u32)
}

/// Reading only looks at the first two bytes.
pub proof fn lemma_be16_prefix(s: Seq<u8>, t: Seq<u8>)
    requires
        s.len() >= 2,
        t.len() >= 2,
        s.subrange(0, 2) == t.subrange(0, 2),
    ensures
        be16(s) == be16(t),
{
    assert(s[0] == s.subrange(0, 2)[0]);
    assert(s[1] == s.subrange(0, 2)[1]);
    assert(t[0] == t.subrange(0, 2)[0]);
    assert(t[1] == t.subrange(0, 2)[1]);
}

/// Reading only looks at the first four bytes.
pub proof fn lemma_be32_prefix(s: Seq<u8>, t: Seq<u8>)
    requires
        s.len() >= 4,
        t.len() >= 4,
        s.subrange(0, 4) == t.subrange(0, 4),
    ensures
        be32(s) == be32(t),
{
    assert(s.subrange(0, 2) == s.subrange(0, 4).subrange(0, 2));
    assert(s.subrange(2, 4) == s.subrange(0, 4).subrange(2, 4));
    assert(t.subrange(0, 2) == t.subrange(0, 4).subrange(0, 2));
    assert(t.subrange(2, 4) == t.subrange(0, 4).subrange(2, 4));
}

/// Reading only looks at the first eight bytes.
pub proof fn lemma_be64_prefix(s: Seq<u8>, t: Seq<u8>)
    requires
        s.len() >= 8,
        t.len() >= 8,
        s.subrange(0, 8) == t.subrange(0, 8),
    ensures
        be64(s) == be64(t),
{
    assert(s.subrange(0, 4) == s.subrange(0, 8).subrange(0, 4));
    assert(s.subrange(4, 8) == s.subrange(0, 8).subrange(4, 8));
    assert(t.subrange(0, 4) == t.subrange(0, 8).subrange(0, 4));
    assert(t.subrange(4, 8) == t.subrange(0, 8).subrange(4, 8));
}

/// The first two bytes alone stand for the same number.
pub proof fn lemma_be16_head(s: Seq<u8>)
    requires
        s.len() >= 2,
    ensures
        be16(s.subrange(0, 2)) == be16(s),
{
    assert(s.subrange(0, 2).subrange(0, 2) =~= s.subrange(0, 2));
    lemma_be16_prefix(s, s.subrange(0, 2));
}

/// The first four bytes alone stand for the same number.
pub proof fn lemma_be32_head(s: Seq<u8>)
    requires
        s.len() >= 4,
    ensures
        be32(s.subrange(0, 4)) == be32(s),
{
    assert(s.subrange(0, 4).subrange(0, 4) =~= s.subrange(0, 4));
    lemma_be32_prefix(s, s.subrange(0, 4));
}

/// The first eight bytes alone stand for the same number.
pub proof fn lemma_be64_head(s: Seq<u8>)
    requires
        s.len() >= 8,
    ensures
        be64(s.subrange(0, 8)) == be64(s),
{
    assert(s.subrange(0, 8).subrange(0, 8) =~= s.subrange(0, 8));
    lemma_be64_prefix(s, s.subrange(0, 8));
}

/// Two bytes written from a number read back as that number.
pub proof fn lemma_be16_round_trip(n: u16)
    ensures
        be16_bytes(n).len() == 2,
        be16(be16_bytes(n)) == n,
{
}

/// Four bytes written from a number read back as that number.
pub proof fn lemma_be32_round_trip(n: u32)
    ensures
        be32_bytes(n).len() == 4,
        be32(be32_bytes(n)) == n,
{
    let hi = (n / 0x1_0000) as u16;
    let lo = (n % 0x1_0000) as u16;
    lemma_be16_round_trip(hi);
    lemma_be16_round_trip(lo);
    assert(be32_bytes(n).subrange(0, 2) == be16_bytes(hi));
    assert(be32_bytes(n).subrange(2, 4) == be16_bytes(lo));
}

/// Eight bytes written from a number read back as that number.
pub proof fn lemma_be64_round_trip(n: u64)
    ensures
        be64_bytes(n).len() == 8,
        be64(be64_bytes(n)) == n,
{
    let hi = (n / 0x1_0000_0000) as u32;
    let lo = (n % 0x1_0000_0000) as u32;
    lemma_be32_round_trip(hi);
    lemma_be32_round_trip(lo);
    assert(be64_bytes(n).subrange(0, 4) == be32_bytes(hi));
    assert(be64_bytes(n).subrange(4, 8) == be32_bytes(lo));
}

/// Two bytes read as a number write back as those bytes.
pub proof fn lemma_be16_bytes_of_value(s: Seq<u8>)
    requires
        s.len() == 2,
    ensures
        be16_bytes(be16(s)) == s,
{
    assert(be16_bytes(be16(s)) =~= s);
}

/// Four bytes read as a number write back as those bytes.
pub proof fn lemma_be32_bytes_of_value(s: Seq<u8>)
    requires
        s.len() == 4,
    ensures
        be32_bytes(be32(s)) == s,
{
    lemma_be16_bytes_of_value(s.subrange(0, 2));
    lemma_be16_bytes_of_value(s.subrange(2, 4));
    assert(s =~= s.subrange(0, 2) + s.subrange(2, 4));
}

/// A signed 16-bit number survives the passage through its unsigned bits.
pub proof fn lemma_i16_bits(n: i16)
    ensures
        (n as u16) as i16 == n,
{
    assert((n as u16) as i16 == n) by (bit_vector);
}

/// A signed 32-bit number survives the passage through its unsigned bits.
pub proof fn lemma_i32_bits(n: i32)
    ensures
        (n as u32) as i32 == n,
{
    assert((n as u32) as i32 == n) by (bit_vector);
}

/// A signed 64-bit number survives the passage through its unsigned bits.
pub proof fn lemma_i64_bits(n: i64)
    ensures
        (n as u64) as i64 == n,
{
    assert((n as u64) as i64 == n) by (bit_vector);
}

/// A signed 8-bit number survives the passage through its unsigned bits.
pub proof fn lemma_i8_bits(n: i8)
    ensures
        (n as u8) as i8 == n,
{
    assert((n as u8) as i8 == n) by (bit_vector);
}

/// `byteorder::BigEndian::read_u16`: the first two bytes of `buf` as a
/// big-endian number. It panics on a shorter buffer.
#[verifier::external_body]
pub(crate) fn be_read_u16(buf: &[u8]) -> (r: u16)
    requires
        buf@.len() >= 2,
    ensures
        r == be16(buf@),
{
    BigEndian::read_u16(buf)
}

/// `byteorder::BigEndian::read_i16`: the first two bytes of `buf` as a
/// big-endian number in two's complement. It panics on a shorter buffer.
#[verifier::external_body]
pub(crate) fn be_read_i16(buf: &[u8]) -> (r: i16)
    requires
        buf@.len() >= 2,
    ensures
        r == be16(buf@) as i16,
{
    BigEndian::read_i16(buf)
}

/// `byteorder::BigEndian::read_u32`: the first four bytes of `buf` as a
/// big-endian number. It panics on a shorter buffer.
#[verifier::external_body]
pub(crate) fn be_read_u32(buf: &[u8]) -> (r: u32)
    requires
        buf@.len() >= 4,
    ensures
        r == be32(buf@),
{
    BigEndian::read_u32(buf)
}

/// `byteorder::BigEndian::read_i32`: the first four bytes of `buf` as a
/// big-endian number in two's complement. It panics on a shorter buffer.
#[verifier::external_body]
pub(crate) fn be_read_i32(buf: &[u8]) -> (r: i32)
    requires
        buf@.len() >= 4,
    ensures
        r == be32(buf@) as i32,
{
    BigEndian::read_i32(buf)
}

/// `byteorder::BigEndian::read_u64`: the first eight bytes of `buf` as a
/// big-endian number. It panics on a shorter buffer.
#[verifier::external_body]
pub(crate) fn be_read_u64(buf: &[u8]) -> (r: u64)
    requires
        buf@.len() >= 8,
    ensures
        r == be64(buf@),
{
    BigEndian::read_u64(buf)
}

/// `byteorder::BigEndian::read_i64`: the first eight bytes of `buf` as a
/// big-endian number in two's complement. It panics on a shorter buffer.
#[verifier::external_body]
pub(crate) fn be_read_i64(buf: &[u8]) -> (r: i64)
    requires
        buf@.len() >= 8,
    ensures
        r == be64(buf@) as i64,
{
    BigEndian::read_i64(buf)
}

/// `byteorder::BigEndian::write_u16`: replaces the first two bytes of `buf`
/// by the big-endian bytes of `n` and leaves the rest. It panics on a shorter
/// buffer.
#[verifier::external_body]
pub(crate) fn be_write_u16(buf: &mut [u8], n: u16)
    requires
        old(buf)@.len() >= 2,
    ensures
        final(buf)@ == be16_bytes(n) + old(buf)@.skip(2),
{
    BigEndian::write_u16(buf, n)
}

/// `byteorder::BigEndian::write_i16`: replaces the first two bytes of `buf`
/// by the big-endian bytes of `n` in two's complement and leaves the rest. It
/// panics on a shorter buffer.
#[verifier::external_body]
pub(crate) fn be_write_i16(buf: &mut [u8], n: i16)
    requires
        old(buf)@.len() >= 2,
    ensures
        final(buf)@ == be16_bytes(n as u16) + old(buf)@.skip(2),
{
    BigEndian::write_i16(buf, n)
}

/// `byteorder::BigEndian::write_u32`: replaces the first four bytes of `buf`
/// by the big-endian bytes of `n` and leaves the rest. It panics on a shorter
/// buffer.
#[verifier::external_body]
pub(crate) fn be_write_u32(buf: &mut [u8], n: u32)
    requires
        old(buf)@.len() >= 4,
    ensures
        final(buf)@ == be32_bytes(n) + old(buf)@.skip(4),
{
    BigEndian::write_u32(buf, n)
}

/// `byteorder::BigEndian::write_i32`: replaces the first four bytes of `buf`
/// by the big-endian bytes of `n` in two's complement and leaves the rest. It
/// panics on a shorter buffer.
#[verifier::external_body]
pub(crate) fn be_write_i32(buf: &mut [u8], n: i32)
    requires
        old(buf)@.len() >= 4,
    ensures
        final(buf)@ == be32_bytes(n as u32) + old(buf)@.skip(4),
{
    BigEndian::write_i32(buf, n)
}

/// `byteorder::BigEndian::write_u64`: replaces the first eight bytes of `buf`
/// by the big-endian bytes of `n` and leaves the rest. It panics on a shorter
/// buffer.
#[verifier::external_body]
pub(crate) fn be_write_u64(buf: &mut [u8], n: u64)
    requires
        old(buf)@.len() >= 8,
    ensures
        final(buf)@ == be64_bytes(n) + old(buf)@.skip(8),
{
    BigEndian::write_u64(buf, n)
}

/// `byteorder::BigEndian::write_i64`: replaces the first eight bytes of `buf`
/// by the big-endian bytes of `n` in two's complement and leaves the rest. It
/// panics on a shorter buffer.
#[verifier::external_body]
pub(crate) fn be_write_i64(buf: &mut [u8], n: i64)
    requires
        old(buf)@.len() >= 8,
    ensures
        final(buf)@ == be64_bytes(n as u64) + old(buf)@.skip(8),
{
    BigEndian::write_i64(buf, n)
}

} // verus!
