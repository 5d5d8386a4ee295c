//! The 16-bit checksum that protects every frame.
//!
//! The firmware computes CRC-16/MCRF4XX (reflected polynomial 0x1021,
//! register starting at 0xffff) a byte at a time without a lookup table.
use vstd::prelude::*;

verus! {

/// One byte of the table-free update.
pub open spec fn crc_step(crc: u16, byte: u8) -> u16 {
    let d0 = byte ^ (crc as u8);
    let d = d0 ^ ((d0 << 4u8) as u8);
    ((((d as u16) << 8u16) | (crc >> 8u16)) ^ ((d >> 4u8) as u16) ^ ((d as u16) << 3u16)) as u16
}

/// The checksum of `bytes`, as the firmware computes it.
pub open spec fn crc_of(bytes: Seq<u8>) -> u16
    decreases bytes.len(),
{
    if bytes.len() == 0 {
        0xffff
    } else {
        crc_step(crc_of(bytes.drop_last()), bytes.last())
    }
}

/// One bit of the reflected CRC register, polynomial 0x1021 reversed.
pub open spec fn crc_bit(c: u16) -> u16 {
    if c & 1 == 1 {
        (c >> 1u16) ^ 0x8408u16
    } else {
        c >> 1u16
    }
}

/// One byte of the bit-serial CRC-16/MCRF4XX.
pub open spec fn mcrf4xx_step(crc: u16, byte: u8) -> u16 {
    crc_bit(crc_bit(crc_bit(crc_bit(crc_bit(crc_bit(crc_bit(crc_bit(crc ^ (byte as u16)))))))))
}

/// CRC-16/MCRF4XX of `bytes`, bit by bit: reflected input and output,
/// register starting at 0xffff, no final xor.
pub open spec fn crc16_mcrf4xx(bytes: Seq<u8>) -> u16
    decreases bytes.len(),
{
    if bytes.len() == 0 {
        0xffff
    } else {
        mcrf4xx_step(crc16_mcrf4xx(bytes.drop_last()), bytes.last())
    }
}

/// The checksum of `buf`.
pub fn klipper_crc(buf: &[u8]) -> (r: u16)
    ensures
        r == crc_of(buf@),
{
    let mut crc: u16 = 0xffff;
    let mut i: usize = 0;
    while i < buf.len()
        invariant
            i <= buf@.len(),
            crc == crc_of(buf@.take(i as int)),
        decreases buf@.len() - i,
    {
        let mut data: u8 = buf[i];
        data ^= crc as u8;
        data ^= data << 4u8;
        crc = (((data as u16) << 8u16) | (crc >> 8u16)) ^ ((data >> 4u8) as u16) ^ ((data as u16)
            << 3u16);
        assert(buf@.take(i + 1).drop_last() =~= buf@.take(i as int));
        i += 1;
    }
    assert(buf@.take(i as int) =~= buf@);
    crc
}

/// The byte-at-a-time update agrees with eight steps of the bit-serial one.
proof fn lemma_step_matches(crc: u16, byte: u8)
    ensures
        crc_step(crc, byte) == mcrf4xx_step(crc, byte),
{
    assert(crc_step(crc, byte) == mcrf4xx_step(crc, byte)) by (bit_vector);
}

/// The checksum equals CRC-16/MCRF4XX on every byte sequence.
pub proof fn lemma_crc_is_mcrf4xx(bytes: Seq<u8>)
    ensures
        crc_of(bytes) == crc16_mcrf4xx(bytes),
    decreases bytes.len(),
{
    if bytes.len() > 0 {
        lemma_crc_is_mcrf4xx(bytes.drop_last());
        lemma_step_matches(crc_of(bytes.drop_last()), bytes.last());
    }
}

} // verus!
