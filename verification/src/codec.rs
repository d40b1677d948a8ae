//! Fixed-width little-endian integers inside byte sequences.

use byteorder::ByteOrder;
use vstd::bytes::{
    spec_u32_from_le_bytes, spec_u32_to_le_bytes, spec_u64_from_le_bytes, spec_u64_to_le_bytes,
};
use vstd::prelude::*;
use vstd::slice::slice_subrange;

verus! {

/// The 32-bit value held little-endian in the four bytes of `s` from `off`.
pub open spec fn spec_u32_at(s: Seq<u8>, off: int) -> u32 {
    spec_u32_from_le_bytes(s.subrange(off, off + 4))
}

/// The 64-bit value held little-endian in the eight bytes of `s` from `off`.
pub open spec fn spec_u64_at(s: Seq<u8>, off: int) -> u64 {
    spec_u64_from_le_bytes(s.subrange(off, off + 8))
}

/// Calls `byteorder::LittleEndian::read_u32`, which reads the first four
/// bytes of `buf` as a little-endian integer and panics on a shorter `buf`.
#[verifier::external_body]
fn le_read_u32(buf: &[u8]) -> (x: u32)
    requires
        buf@.len() >= 4,
    ensures
        x == spec_u32_from_le_bytes(buf@.subrange(0, 4)),
{
    byteorder::LittleEndian::read_u32(buf)
}

/// Calls `byteorder::LittleEndian::read_u64`, which reads the first eight
/// bytes of `buf` as a little-endian integer and panics on a shorter `buf`.
#[verifier::external_body]
fn le_read_u64(buf: &[u8]) -> (x: u64)
    requires
        buf@.len() >= 8,
    ensures
        x == spec_u64_from_le_bytes(buf@.subrange(0, 8)),
{
    byteorder::LittleEndian::read_u64(buf)
}

/// Calls `byteorder::LittleEndian::write_u32` on a fresh four-byte buffer,
/// which it fills with the little-endian bytes of `n`.
#[verifier::external_body]
fn le_write_u32(n: u32) -> (out: Vec<u8>)
    ensures
        out@ == spec_u32_to_le_bytes(n),
{
    let mut out = vec![0u8; 4];
    byteorder::LittleEndian::write_u32(&mut out, n);
    out
}

/// Calls `byteorder::LittleEndian::write_u64` on a fresh eight-byte buffer,
/// which it fills with the little-endian bytes of `n`.
#[verifier::external_body]
fn le_write_u64(n: u64) -> (out: Vec<u8>)
    ensures
        out@ == spec_u64_to_le_bytes(n),
{
    let mut out = vec![0u8; 8];
    byteorder::LittleEndian::write_u64(&mut out, n);
    out
}

/// Reads the little-endian 32-bit integer at `off`.
pub fn get_u32(data: &[u8], off: usize) -> (x: u32)
    requires
        off + 4 <= data.len(),
    ensures
        x == spec_u32_at(data@, off as int),
{
    let part = slice_subrange(data, off, off + 4);
    proof {
        assert(part@.subrange(0, 4) =~= data@.subrange(off as int, off + 4));
    }
    le_read_u32(part)
}

/// Reads the little-endian 64-bit integer at `off`.
pub fn get_u64(data: &[u8], off: usize) -> (x: u64)
    requires
        off + 8 <= data.len(),
    ensures
        x == spec_u64_at(data@, off as int),
{
    let part = slice_subrange(data, off, off + 8);
    proof {
        assert(part@.subrange(0, 8) =~= data@.subrange(off as int, off + 8));
    }
    le_read_u64(part)
}

/// Appends the four little-endian bytes of `n` to `out`.
pub fn put_u32(out: &mut Vec<u8>, n: u32)
    ensures
        final(out)@ == old(out)@ + spec_u32_to_le_bytes(n),
{
    let mut b = le_write_u32(n);
    out.append(&mut b);
}

/// Appends the eight little-endian bytes of `n` to `out`.
pub fn put_u64(out: &mut Vec<u8>, n: u64)
    ensures
        final(out)@ == old(out)@ + spec_u64_to_le_bytes(n),
{
    let mut b = le_write_u64(n);
    out.append(&mut b);
}

} // verus!
