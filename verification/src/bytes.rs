//! Big-endian integer decoding.
use vstd::prelude::*;
use byteorder::{BigEndian, ByteOrder};

verus! {

/// The value of two bytes read most significant first.
pub open spec fn be16(b0: u8, b1: u8) -> int {
    b0 * 0x100 + b1
}

/// The value of four bytes read most significant first.
pub open spec fn be32(b0: u8, b1: u8, b2: u8, b3: u8) -> int {
    b0 * 0x1000000 + b1 * 0x10000 + b2 * 0x100 + b3
}

/// The big-endian `u16` stored at `off` in `data`.
pub open spec fn be16_at(data: Seq<u8>, off: int) -> int {
    be16(data[off], data[off + 1])
}

/// The big-endian `u32` stored at `off` in `data`.
pub open spec fn be32_at(data: Seq<u8>, off: int) -> int {
    be32(data[off], data[off + 1], data[off + 2], data[off + 3])
}

/// The two's-complement reading of a 16-bit pattern.
pub open spec fn as_i16(v: int) -> int {
    if v >= 0x8000 { v - 0x10000 } else { v }
}

/// `byteorder::BigEndian::read_u16`: the first two bytes of `buf`,
/// most significant first (it panics on a shorter slice).
#[verifier::external_body]
pub(crate) fn byteorder_read_u16(buf: &[u8]) -> (r: u16)
    requires
        buf@.len() >= 2,
    ensures
        r as int == be16_at(buf@, 0),
{
    BigEndian::read_u16(buf)
}

/// `byteorder::BigEndian::read_u32`: the first four bytes of `buf`,
/// most significant first (it panics on a shorter slice).
#[verifier::external_body]
pub(crate) fn byteorder_read_u32(buf: &[u8]) -> (r: u32)
    requires
        buf@.len() >= 4,
    ensures
        r as int == be32_at(buf@, 0),
{
    BigEndian::read_u32(buf)
}

/// `byteorder::BigEndian::read_i16`: the first two bytes of `buf` read as a
/// big-endian two's-complement number (it panics on a shorter slice).
#[verifier::external_body]
pub(crate) fn byteorder_read_i16(buf: &[u8]) -> (r: i16)
    requires
        buf@.len() >= 2,
    ensures
        r as int == as_i16(be16_at(buf@, 0)),
{
    BigEndian::read_i16(buf)
}

/// The `u32` stored big-endian at `off`, decoded with `byteorder`.
pub fn be_u32_at(data: &[u8], off: usize) -> (r: u32)
    requires
        off + 4 <= data.len(),
    ensures
        r as int == be32_at(data@, off as int),
{
    byteorder_read_u32(&data[off..off + 4])
}

/// The `u16` stored big-endian at `off`, decoded with `byteorder`.
pub fn be_u16_at(data: &[u8], off: usize) -> (r: u16)
    requires
        off + 2 <= data.len(),
    ensures
        r as int == be16_at(data@, off as int),
{
    byteorder_read_u16(&data[off..off + 2])
}

/// The `i16` stored big-endian at `off`, decoded with `byteorder`.
pub fn be_i16_at(data: &[u8], off: usize) -> (r: i16)
    requires
        off + 2 <= data.len(),
    ensures
        r as int == as_i16(be16_at(data@, off as int)),
{
    byteorder_read_i16(&data[off..off + 2])
}

} // verus!
