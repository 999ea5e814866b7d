//! The 16-bit cyclic redundancy check that guards each data record.
//!
//! The check is CRC-16/CCITT-FALSE: polynomial `0x1021`, initial value
//! `0xFFFF`, most significant bit first, no final inversion.

use vstd::prelude::*;

verus! {

/// The generator polynomial, without its leading term.
pub const CRC_POLYNOMIAL: u16 = 0x1021;

/// The register before the first byte.
pub const CRC_INITIAL: u16 = 0xFFFF;

/// One shift of the register.
pub open spec fn crc_shift(reg: u16) -> u16 {
    if reg & 0x8000 != 0 {
        (reg << 1) ^ CRC_POLYNOMIAL
    } else {
        reg << 1
    }
}

/// The register after `rounds` shifts.
pub open spec fn crc_shifts(reg: u16, rounds: nat) -> u16
    decreases rounds,
{
    if rounds == 0 {
        reg
    } else {
        crc_shift(crc_shifts(reg, (rounds - 1) as nat))
    }
}

/// The register after one more byte of input.
pub open spec fn crc_feed(reg: u16, byte: u8) -> u16 {
    crc_shifts(reg ^ ((byte as u16) << 8), 8)
}

/// The register after all of `bytes`, starting from `reg`.
pub open spec fn crc_fold(reg: u16, bytes: Seq<u8>) -> u16
    decreases bytes.len(),
{
    if bytes.len() == 0 {
        reg
    } else {
        crc_feed(crc_fold(reg, bytes.drop_last()), bytes.last())
    }
}

/// The check value of `bytes`.
pub open spec fn crc16(bytes: Seq<u8>) -> u16 {
    crc_fold(CRC_INITIAL, bytes)
}

/// Feeding two runs of bytes one after the other is feeding their
/// concatenation.
pub proof fn lemma_crc_fold_concat(reg: u16, a: Seq<u8>, b: Seq<u8>)
    ensures
        crc_fold(crc_fold(reg, a), b) == crc_fold(reg, a + b),
    decreases b.len(),
{
    if b.len() == 0 {
        assert(a + b =~= a);
    } else {
        lemma_crc_fold_concat(reg, a, b.drop_last());
        assert((a + b).drop_last() =~= a + b.drop_last());
        assert((a + b).last() == b.last());
    }
}

/// Feeds one byte into the register.
pub fn crc_update_byte(reg: u16, byte: u8) -> (out: u16)
    ensures
        out == crc_feed(reg, byte),
{
    let mut cur: u16 = reg ^ ((byte as u16) << 8);
    let mut round: u8 = 0;
    while round < 8
        invariant
            round <= 8,
            cur == crc_shifts(reg ^ ((byte as u16) << 8), round as nat),
        decreases 8 - round,
    {
        if cur & 0x8000 != 0 {
            cur = (cur << 1) ^ CRC_POLYNOMIAL;
        } else {
            cur = cur << 1;
        }
        round = round + 1;
    }
    cur
}

/// Feeds a run of bytes into the register.
pub fn crc_update(reg: u16, bytes: &[u8]) -> (out: u16)
    ensures
        out == crc_fold(reg, bytes@),
{
    let mut cur: u16 = reg;
    let mut i: usize = 0;
    while i < bytes.len()
        invariant
            i <= bytes@.len(),
            cur == crc_fold(reg, bytes@.take(i as int)),
        decreases bytes@.len() - i,
    {
        assert(bytes@.take(i + 1).drop_last() =~= bytes@.take(i as int));
        cur = crc_update_byte(cur, bytes[i]);
        i = i + 1;
    }
    assert(bytes@.take(i as int) =~= bytes@);
    cur
}

/// The check value of `bytes`.
pub fn checksum(bytes: &[u8]) -> (out: u16)
    ensures
        out == crc16(bytes@),
{
    crc_update(CRC_INITIAL, bytes)
}

} // verus!
