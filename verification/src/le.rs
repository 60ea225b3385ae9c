//! Integers as the files hold them: least significant byte first.

use byteorder::ByteOrder;
use vstd::prelude::*;

verus! {

/// The number that the first four bytes of `b` hold.
#[verifier::opaque]
pub open spec fn u32_le(b: Seq<u8>) -> int {
    b[0] + 0x100 * b[1] + 0x1_0000 * b[2] + 0x100_0000 * b[3]
}

/// The number that the first eight bytes of `b` hold.
#[verifier::opaque]
pub open spec fn u64_le(b: Seq<u8>) -> int {
    u32_le(b) + 0x1_0000_0000 * u32_le(b.skip(4))
}

/// The four bytes that hold `x`.
#[verifier::opaque]
pub open spec fn le_u32(x: u32) -> Seq<u8> {
    seq![
        (x % 0x100) as u8,
        (x / 0x100 % 0x100) as u8,
        (x / 0x1_0000 % 0x100) as u8,
        (x / 0x100_0000) as u8,
    ]
}

/// The eight bytes that hold `x`.
#[verifier::opaque]
pub open spec fn le_u64(x: u64) -> Seq<u8> {
    le_u32((x % 0x1_0000_0000) as u32) + le_u32((x / 0x1_0000_0000) as u32)
}

/// Four bytes hold a number below 2^32, and the bytes written for a number
/// hold that number.
pub proof fn lemma_u32_le(b: Seq<u8>, x: u32)
    ensures
        0 <= u32_le(b) <= u32::MAX,
        le_u32(x).len() == 4,
        u32_le(le_u32(x)) == x,
{
    reveal(u32_le);
    reveal(le_u32);
}

/// Eight bytes hold a number below 2^64, and the bytes written for a number
/// hold that number.
pub proof fn lemma_u64_le(b: Seq<u8>, x: u64)
    ensures
        0 <= u64_le(b) <= u64::MAX,
        le_u64(x).len() == 8,
        u64_le(le_u64(x)) == x,
{
    reveal(u64_le);
    reveal(le_u64);
    let lo = (x % 0x1_0000_0000) as u32;
    let hi = (x / 0x1_0000_0000) as u32;
    lemma_u32_le(b, lo);
    lemma_u32_le(b.skip(4), hi);
    assert(le_u64(x).skip(4) =~= le_u32(hi));
    assert(u32_le(le_u64(x)) == u32_le(le_u32(lo))) by {
        reveal(u32_le);
    }
}

/// Calls `byteorder::LittleEndian::read_u32`, which panics on fewer than four
/// bytes. Trusted: the result is the number that the first four bytes hold,
/// least significant byte first.
#[verifier::external_body]
pub(crate) fn read_u32(buf: &[u8]) -> (x: u32)
    requires
        buf@.len() >= 4,
    ensures
        x == u32_le(buf@),
{
    byteorder::LittleEndian::read_u32(buf)
}

/// Calls `byteorder::LittleEndian::read_u64`, which panics on fewer than eight
/// bytes. Trusted: the result is the number that the first eight bytes hold,
/// least significant byte first.
#[verifier::external_body]
pub(crate) fn read_u64(buf: &[u8]) -> (x: u64)
    requires
        buf@.len() >= 8,
    ensures
        x == u64_le(buf@),
{
    byteorder::LittleEndian::read_u64(buf)
}

/// Calls `byteorder::LittleEndian::write_u32` on a buffer of four bytes.
/// Trusted: the buffer then holds `x`, least significant byte first.
#[verifier::external_body]
pub(crate) fn u32_bytes(x: u32) -> (out: Vec<u8>)
    ensures
        out@ == le_u32(x),
{
    let mut out = vec![0u8; 4];
    byteorder::LittleEndian::write_u32(&mut out, x);
    out
}

/// Calls `byteorder::LittleEndian::write_u64` on a buffer of eight bytes.
/// Trusted: the buffer then holds `x`, least significant byte first.
#[verifier::external_body]
pub(crate) fn u64_bytes(x: u64) -> (out: Vec<u8>)
    ensures
        out@ == le_u64(x),
{
    let mut out = vec![0u8; 8];
    byteorder::LittleEndian::write_u64(&mut out, x);
    out
}

} // verus!
