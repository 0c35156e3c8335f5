// FLAC integrity check words.
//
// Two CRCs guard a FLAC stream. The frame header ends in an 8-bit CRC over
// every header byte; the whole frame ends in a 16-bit CRC over every byte of
// the frame up to that 16-bit word. Both are plain most-significant-bit-first
// CRCs with no reflection and a zero initial value. Ogg pages carry a 32-bit
// CRC of the same kind.

use vstd::prelude::*;

verus! {

/// One shift of the CRC-8 register (polynomial 0x07).
pub open spec fn crc8_shift(c: u8) -> u8 {
    if c & 0x80 != 0 {
        (c << 1u8) ^ 0x07u8
    } else {
        c << 1u8
    }
}

/// `k` shifts of the CRC-8 register.
pub open spec fn crc8_shifts(c: u8, k: nat) -> u8
    decreases k,
{
    if k == 0 {
        c
    } else {
        crc8_shift(crc8_shifts(c, (k - 1) as nat))
    }
}

/// CRC-8 (polynomial x^8 + x^2 + x + 1) of a byte sequence.
pub open spec fn spec_crc8(data: Seq<u8>) -> u8
    decreases data.len(),
{
    if data.len() == 0 {
        0
    } else {
        crc8_shifts(spec_crc8(data.drop_last()) ^ data.last(), 8)
    }
}

/// One shift of the CRC-16 register (polynomial 0x8005).
pub open spec fn crc16_shift(c: u16) -> u16 {
    if c & 0x8000 != 0 {
        (c << 1u16) ^ 0x8005u16
    } else {
        c << 1u16
    }
}

/// `k` shifts of the CRC-16 register.
pub open spec fn crc16_shifts(c: u16, k: nat) -> u16
    decreases k,
{
    if k == 0 {
        c
    } else {
        crc16_shift(crc16_shifts(c, (k - 1) as nat))
    }
}

/// CRC-16 (polynomial x^16 + x^15 + x^2 + 1) of a byte sequence.
pub open spec fn spec_crc16(data: Seq<u8>) -> u16
    decreases data.len(),
{
    if data.len() == 0 {
        0
    } else {
        crc16_shifts(spec_crc16(data.drop_last()) ^ ((data.last() as u16) << 8u16), 8)
    }
}

/// A register holding one byte in its low half shifts that byte up
/// unchanged: no set bit reaches the top within `k <= 8` shifts.
proof fn lemma_crc16_shifts_low(y: u16, k: nat)
    requires
        y < 256,
        1 <= k <= 8,
    ensures
        crc16_shifts(y, k) == y << (k as u16),
    decreases k,
{
    let j = (k - 1) as u16;
    let j1 = k as u16;
    assert((y << j) & 0x8000u16 == 0 && (y << j) << 1u16 == y << j1 && y << 0u16 == y)
        by (bit_vector)
        requires
            y < 256,
            j < 8,
            j1 == j + 1,
    ;
    if k > 1 {
        lemma_crc16_shifts_low(y, (k - 1) as nat);
    }
    assert(crc16_shifts(y, (k - 1) as nat) == y << j);
    assert(crc16_shifts(y, k) == crc16_shift(y << j));
}

/// Appending a CRC-16, high byte first, to the data it was computed over
/// gives a zero CRC: the residue a reader checks against.
pub proof fn law_crc16_residue(data: Seq<u8>)
    ensures
        spec_crc16(
            data.push((spec_crc16(data) >> 8u16) as u8).push(spec_crc16(data) as u8),
        ) == 0,
{
    let c = spec_crc16(data);
    let hi = (c >> 8u16) as u8;
    let lo = c as u8;
    let d1 = data.push(hi);
    let d2 = d1.push(lo);
    assert(d2.drop_last() =~= d1);
    assert(d1.drop_last() =~= data);
    let y = c & 0xFFu16;
    assert((c ^ ((hi as u16) << 8u16)) == y && y < 256 && ((y << 8u16) ^ ((lo as u16) << 8u16))
        == 0 && 0u16 << 8u16 == 0) by (bit_vector)
        requires
            hi == (c >> 8u16) as u8,
            lo == c as u8,
            y == c & 0xFFu16,
    ;
    lemma_crc16_shifts_low(y, 8);
    assert(spec_crc16(d1) == y << 8u16);
    lemma_crc16_shifts_low(0, 8);
    assert(spec_crc16(d2) == crc16_shifts(0, 8));
}

/// One shift of the Ogg CRC-32 register (polynomial 0x04C11DB7).
pub open spec fn crc32_shift(c: u32) -> u32 {
    if c & 0x8000_0000 != 0 {
        (c << 1u32) ^ 0x04c1_1db7u32
    } else {
        c << 1u32
    }
}

/// `k` shifts of the Ogg CRC-32 register.
pub open spec fn crc32_shifts(c: u32, k: nat) -> u32
    decreases k,
{
    if k == 0 {
        c
    } else {
        crc32_shift(crc32_shifts(c, (k - 1) as nat))
    }
}

/// The Ogg page checksum: CRC-32 with polynomial 0x04C11DB7, most significant
/// bit first, zero initial value, no reflection and no final xor.
pub open spec fn spec_ogg_crc32(data: Seq<u8>) -> u32
    decreases data.len(),
{
    if data.len() == 0 {
        0
    } else {
        crc32_shifts(spec_ogg_crc32(data.drop_last()) ^ ((data.last() as u32) << 24u32), 8)
    }
}

/// CRC-8 with polynomial x^8 + x^2 + x^1 + x^0 (0x07), used on frame headers.
pub fn crc8(data: &[u8]) -> (c: u8)
    ensures
        c == spec_crc8(data@),
{
    let mut crc: u8 = 0;
    let mut i: usize = 0;
    while i < data.len()
        invariant
            i <= data@.len(),
            crc == spec_crc8(data@.take(i as int)),
        decreases data@.len() - i,
    {
        let ghost start = crc ^ data@[i as int];
        crc ^= data[i];
        let mut k: usize = 0;
        while k < 8
            invariant
                k <= 8,
                crc == crc8_shifts(start, k as nat),
            decreases 8 - k,
        {
            crc = if crc & 0x80 != 0 {
                (crc << 1u8) ^ 0x07
            } else {
                crc << 1u8
            };
            k += 1;
        }
        assert(data@.take(i + 1).drop_last() == data@.take(i as int));
        i += 1;
    }
    assert(data@.take(data@.len() as int) == data@);
    crc
}

/// CRC-16 with polynomial x^16 + x^15 + x^2 + x^0 (0x8005), used on whole
/// frames.
pub fn crc16(data: &[u8]) -> (c: u16)
    ensures
        c == spec_crc16(data@),
{
    let mut crc: u16 = 0;
    let mut i: usize = 0;
    while i < data.len()
        invariant
            i <= data@.len(),
            crc == spec_crc16(data@.take(i as int)),
        decreases data@.len() - i,
    {
        let ghost start = crc ^ ((data@[i as int] as u16) << 8u16);
        crc ^= (data[i] as u16) << 8u16;
        let mut k: usize = 0;
        while k < 8
            invariant
                k <= 8,
                crc == crc16_shifts(start, k as nat),
            decreases 8 - k,
        {
            crc = if crc & 0x8000 != 0 {
                (crc << 1u16) ^ 0x8005
            } else {
                crc << 1u16
            };
            k += 1;
        }
        assert(data@.take(i + 1).drop_last() == data@.take(i as int));
        i += 1;
    }
    assert(data@.take(data@.len() as int) == data@);
    crc
}

/// CRC-32 with polynomial 0x04C11DB7, used on Ogg pages. It is taken over a
/// whole Ogg page with the checksum field itself zeroed.
pub fn ogg_crc32(data: &[u8]) -> (c: u32)
    ensures
        c == spec_ogg_crc32(data@),
{
    let mut crc: u32 = 0;
    let mut i: usize = 0;
    while i < data.len()
        invariant
            i <= data@.len(),
            crc == spec_ogg_crc32(data@.take(i as int)),
        decreases data@.len() - i,
    {
        let ghost start = crc ^ ((data@[i as int] as u32) << 24u32);
        crc ^= (data[i] as u32) << 24u32;
        let mut k: usize = 0;
        while k < 8
            invariant
                k <= 8,
                crc == crc32_shifts(start, k as nat),
            decreases 8 - k,
        {
            crc = if crc & 0x8000_0000 != 0 {
                (crc << 1u32) ^ 0x04c1_1db7
            } else {
                crc << 1u32
            };
            k += 1;
        }
        assert(data@.take(i + 1).drop_last() == data@.take(i as int));
        i += 1;
    }
    assert(data@.take(data@.len() as int) == data@);
    crc
}

} // verus!
