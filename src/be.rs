use vstd::prelude::*;
use byteorder::{BigEndian, ByteOrder};

verus! {

/// The four bytes of `n`, most significant first.
pub open spec fn be32(n: u32) -> Seq<u8> {
    seq![(n >> 24u32) as u8, (n >> 16u32) as u8, (n >> 8u32) as u8, n as u8]
}

/// The eight bytes of `n`, most significant first.
pub open spec fn be64(n: u64) -> Seq<u8> {
    be32((n >> 32u64) as u32) + be32(n as u32)
}

/// The number whose big-endian bytes are `b[0..4]`.
pub open spec fn from_be32(b: Seq<u8>) -> u32 {
    ((b[0] as u32) << 24u32) | ((b[1] as u32) << 16u32) | ((b[2] as u32) << 8u32) | (b[3] as u32)
}

/// The number whose big-endian bytes are `b[0..8]`.
pub open spec fn from_be64(b: Seq<u8>) -> u64 {
    ((from_be32(b) as u64) << 32u64) | (from_be32(b.subrange(4, 8)) as u64)
}

pub proof fn lemma_be32_round_trip(n: u32)
    ensures
        from_be32(be32(n)) == n,
{
    assert(((((n >> 24u32) as u8) as u32) << 24u32) | ((((n >> 16u32) as u8) as u32) << 16u32)
        | ((((n >> 8u32) as u8) as u32) << 8u32) | ((n as u8) as u32) == n) by (bit_vector);
}

pub proof fn lemma_be64_round_trip(n: u64)
    ensures
        from_be64(be64(n)) == n,
{
    let hi = (n >> 32u64) as u32;
    let lo = n as u32;
    lemma_be32_round_trip(hi);
    lemma_be32_round_trip(lo);
    assert(be64(n).subrange(4, 8) =~= be32(lo));
    assert(((((n >> 32u64) as u32) as u64) << 32u64) | ((n as u32) as u64) == n) by (bit_vector);
}

/// Relies on byteorder's `BigEndian::write_u32`: writes the four bytes of `n`,
/// most significant first, into a four-byte buffer.
#[verifier::external_body]
pub fn u32_to_be(n: u32) -> (r: Vec<u8>)
    ensures
        r@ == be32(n),
{
    let mut buf = vec![0u8; 4];
    BigEndian::write_u32(&mut buf, n);
    buf
}

/// Relies on byteorder's `BigEndian::write_u64`: writes the eight bytes of `n`,
/// most significant first, into an eight-byte buffer.
#[verifier::external_body]
pub fn u64_to_be(n: u64) -> (r: Vec<u8>)
    ensures
        r@ == be64(n),
{
    let mut buf = vec![0u8; 8];
    BigEndian::write_u64(&mut buf, n);
    buf
}

/// Relies on byteorder's `BigEndian::read_u32`: reads the four bytes at `pos`
/// as a big-endian number (it panics on a shorter slice, which `requires` excludes).
#[verifier::external_body]
pub fn be_to_u32(buf: &[u8], pos: usize) -> (r: u32)
    requires
        pos + 4 <= buf@.len(),
    ensures
        r == from_be32(buf@.subrange(pos as int, pos + 4)),
{
    BigEndian::read_u32(&buf[pos..])
}

/// Relies on byteorder's `BigEndian::read_u64`: reads the eight bytes at `pos`
/// as a big-endian number (it panics on a shorter slice, which `requires` excludes).
#[verifier::external_body]
pub fn be_to_u64(buf: &[u8], pos: usize) -> (r: u64)
    requires
        pos + 8 <= buf@.len(),
    ensures
        r == from_be64(buf@.subrange(pos as int, pos + 8)),
{
    BigEndian::read_u64(&buf[pos..])
}

} // verus!
