//! Little-endian integers as they stand in the segment logs.
//!
//! The byte order itself comes from the `byteorder` crate; the functions here
//! say what its calls return in terms of `vstd::bytes`.

use byteorder::ByteOrder;
use byteorder::LittleEndian;
use vstd::bytes::*;
use vstd::prelude::*;
use vstd::slice::slice_subrange;

verus! {

broadcast use vstd::slice::group_slice_axioms;

/// `byteorder::LittleEndian::read_u16`: the integer whose little-endian form
/// is the first two bytes of `buf`. The outside function panics on a shorter
/// buffer, which the precondition leaves out.
#[verifier::external_body]
pub(crate) fn read_u16_le(buf: &[u8]) -> (n: u16)
    requires
        buf@.len() >= 2,
    ensures
        n == spec_u16_from_le_bytes(buf@.subrange(0, 2)),
{
    LittleEndian::read_u16(buf)
}

/// `byteorder::LittleEndian::read_u32`: the integer whose little-endian form
/// is the first four bytes of `buf`.
#[verifier::external_body]
pub(crate) fn read_u32_le(buf: &[u8]) -> (n: u32)
    requires
        buf@.len() >= 4,
    ensures
        n == spec_u32_from_le_bytes(buf@.subrange(0, 4)),
{
    LittleEndian::read_u32(buf)
}

/// `byteorder::LittleEndian::read_u64`: the integer whose little-endian form
/// is the first eight bytes of `buf`.
#[verifier::external_body]
pub(crate) fn read_u64_le(buf: &[u8]) -> (n: u64)
    requires
        buf@.len() >= 8,
    ensures
        n == spec_u64_from_le_bytes(buf@.subrange(0, 8)),
{
    LittleEndian::read_u64(buf)
}

/// `byteorder::LittleEndian::write_u16`: overwrites the first two bytes of
/// `buf` with the little-endian form of `n` and leaves the rest as it was.
#[verifier::external_body]
pub(crate) fn write_u16_le(buf: &mut [u8], n: u16)
    requires
        old(buf)@.len() >= 2,
    ensures
        final(buf)@ == spec_u16_to_le_bytes(n) + old(buf)@.subrange(2, old(buf)@.len() as int),
{
    LittleEndian::write_u16(buf, n)
}

/// `byteorder::LittleEndian::write_u32`: overwrites the first four bytes of
/// `buf` with the little-endian form of `n` and leaves the rest as it was.
#[verifier::external_body]
pub(crate) fn write_u32_le(buf: &mut [u8], n: u32)
    requires
        old(buf)@.len() >= 4,
    ensures
        final(buf)@ == spec_u32_to_le_bytes(n) + old(buf)@.subrange(4, old(buf)@.len() as int),
{
    LittleEndian::write_u32(buf, n)
}

/// `byteorder::LittleEndian::write_u64`: overwrites the first eight bytes of
/// `buf` with the little-endian form of `n` and leaves the rest as it was.
#[verifier::external_body]
pub(crate) fn write_u64_le(buf: &mut [u8], n: u64)
    requires
        old(buf)@.len() >= 8,
    ensures
        final(buf)@ == spec_u64_to_le_bytes(n) + old(buf)@.subrange(8, old(buf)@.len() as int),
{
    LittleEndian::write_u64(buf, n)
}

/// Appends the two bytes of `n`, least significant first.
pub fn put_u16(out: &mut Vec<u8>, n: u16)
    ensures
        final(out)@ == old(out)@ + spec_u16_to_le_bytes(n),
{
    proof {
        lemma_auto_spec_u16_to_from_le_bytes();
    }
    let mut word: Vec<u8> = vec![0u8; 2];
    write_u16_le(word.as_mut_slice(), n);
    assert(word@ =~= spec_u16_to_le_bytes(n));
    out.extend_from_slice(word.as_slice());
}

/// Appends the four bytes of `n`, least significant first.
pub fn put_u32(out: &mut Vec<u8>, n: u32)
    ensures
        final(out)@ == old(out)@ + spec_u32_to_le_bytes(n),
{
    proof {
        lemma_auto_spec_u32_to_from_le_bytes();
    }
    let mut word: Vec<u8> = vec![0u8; 4];
    write_u32_le(word.as_mut_slice(), n);
    assert(word@ =~= spec_u32_to_le_bytes(n));
    out.extend_from_slice(word.as_slice());
}

/// Appends the eight bytes of `n`, least significant first.
pub fn put_u64(out: &mut Vec<u8>, n: u64)
    ensures
        final(out)@ == old(out)@ + spec_u64_to_le_bytes(n),
{
    proof {
        lemma_auto_spec_u64_to_from_le_bytes();
    }
    let mut word: Vec<u8> = vec![0u8; 8];
    write_u64_le(word.as_mut_slice(), n);
    assert(word@ =~= spec_u64_to_le_bytes(n));
    out.extend_from_slice(word.as_slice());
}

/// The 16-bit integer that stands at `pos` in `buf`.
pub fn get_u16(buf: &[u8], pos: usize) -> (n: u16)
    requires
        pos + 2 <= buf@.len(),
    ensures
        n == spec_u16_from_le_bytes(buf@.subrange(pos as int, pos + 2)),
{
    assert(buf.len() == buf@.len());
    let word = slice_subrange(buf, pos, pos + 2);
    assert(word@.subrange(0, 2) =~= word@);
    read_u16_le(word)
}

/// The 32-bit integer that stands at `pos` in `buf`.
pub fn get_u32(buf: &[u8], pos: usize) -> (n: u32)
    requires
        pos + 4 <= buf@.len(),
    ensures
        n == spec_u32_from_le_bytes(buf@.subrange(pos as int, pos + 4)),
{
    assert(buf.len() == buf@.len());
    let word = slice_subrange(buf, pos, pos + 4);
    assert(word@.subrange(0, 4) =~= word@);
    read_u32_le(word)
}

/// The 64-bit integer that stands at `pos` in `buf`.
pub fn get_u64(buf: &[u8], pos: usize) -> (n: u64)
    requires
        pos + 8 <= buf@.len(),
    ensures
        n == spec_u64_from_le_bytes(buf@.subrange(pos as int, pos + 8)),
{
    assert(buf.len() == buf@.len());
    let word = slice_subrange(buf, pos, pos + 8);
    assert(word@.subrange(0, 8) =~= word@);
    read_u64_le(word)
}

} // verus!
