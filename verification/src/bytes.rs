//! Little-endian decoding of fixed-width unsigned integers.
//!
//! The mathematical value of a field is given by the spec functions in this
//! module; the executable readers delegate the byte shuffling to `byteorder`.

use byteorder::{ByteOrder, LittleEndian};
use vstd::prelude::*;
use vstd::slice::slice_subrange;

verus! {

/// Value of the two bytes of `data` at `pos`, least significant byte first.
pub open spec fn spec_u16_at(data: Seq<u8>, pos: int) -> int {
    data[pos] + 256 * data[pos + 1]
}

/// Value of the four bytes of `data` at `pos`, least significant byte first.
pub open spec fn spec_u32_at(data: Seq<u8>, pos: int) -> int {
    data[pos] + 256 * data[pos + 1] + 65536 * data[pos + 2] + 16777216 * data[pos + 3]
}

/// Value of the eight bytes of `data` at `pos`, least significant byte first.
pub open spec fn spec_u64_at(data: Seq<u8>, pos: int) -> int {
    spec_u32_at(data, pos) + 4294967296 * spec_u32_at(data, pos + 4)
}

/// `byteorder::LittleEndian::read_u16`: the little-endian value of the first
/// two bytes of `buf`. The outside function panics on a shorter buffer, which
/// the precondition rules out.
#[verifier::external_body]
fn read_u16(buf: &[u8]) -> (r: u16)
    requires
        buf@.len() >= 2,
    ensures
        r as int == spec_u16_at(buf@, 0),
{
    LittleEndian::read_u16(buf)
}

/// `byteorder::LittleEndian::read_u32`: the little-endian value of the first
/// four bytes of `buf`. The outside function panics on a shorter buffer, which
/// the precondition rules out.
#[verifier::external_body]
fn read_u32(buf: &[u8]) -> (r: u32)
    requires
        buf@.len() >= 4,
    ensures
        r as int == spec_u32_at(buf@, 0),
{
    LittleEndian::read_u32(buf)
}

/// `byteorder::LittleEndian::read_u64`: the little-endian value of the first
/// eight bytes of `buf`. The outside function panics on a shorter buffer,
/// which the precondition rules out.
#[verifier::external_body]
fn read_u64(buf: &[u8]) -> (r: u64)
    requires
        buf@.len() >= 8,
    ensures
        r as int == spec_u64_at(buf@, 0),
{
    LittleEndian::read_u64(buf)
}

/// Reads the 16-bit field that starts at byte `pos` of `data`.
pub fn u16_at(data: &[u8], pos: usize) -> (r: u16)
    requires
        pos + 2 <= data@.len(),
    ensures
        r as int == spec_u16_at(data@, pos as int),
{
    let len: usize = data.len();
    assert(pos + 2 <= len);
    read_u16(slice_subrange(data, pos, pos + 2))
}

/// Reads the 32-bit field that starts at byte `pos` of `data`.
pub fn u32_at(data: &[u8], pos: usize) -> (r: u32)
    requires
        pos + 4 <= data@.len(),
    ensures
        r as int == spec_u32_at(data@, pos as int),
{
    let len: usize = data.len();
    assert(pos + 4 <= len);
    read_u32(slice_subrange(data, pos, pos + 4))
}

/// Reads the 64-bit field that starts at byte `pos` of `data`.
pub fn u64_at(data: &[u8], pos: usize) -> (r: u64)
    requires
        pos + 8 <= data@.len(),
    ensures
        r as int == spec_u64_at(data@, pos as int),
{
    let len: usize = data.len();
    assert(pos + 8 <= len);
    read_u64(slice_subrange(data, pos, pos + 8))
}

} // verus!
