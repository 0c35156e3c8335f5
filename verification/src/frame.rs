// Frame and subframe decoding: the heart of FLAC playback.
//
// After the metadata, a FLAC stream is a sequence of frames. Each frame holds
// a short run of samples for every channel, encoded independently per channel
// as a "subframe", with an optional inter-channel transform. This module
// decodes one frame at a time into per-channel sample vectors.
//
// The decode path per frame is: read and CRC-check the header, decode one
// subframe per channel, undo any inter-channel transform, then CRC-check the
// whole frame. Every function here is specified by a function of the bytes
// and the bit position it starts at.

use crate::bits::bits_val;
use crate::bitstream::{
    BitReader, align_up, spec_read_signed, spec_read_signed_wide, spec_read_u32, spec_read_unary,
};
use crate::crc::{crc16, crc8, spec_crc16, spec_crc8};
use crate::error::{decimal, push_number, ErrorView, FlacError, SpecResult, agrees, corrupt};
use crate::metadata::StreamInfo;
use vstd::prelude::*;

verus! {

/// Hard caps so a corrupt or hostile header cannot make us allocate or loop
/// without bound.
pub const MAX_BLOCK_SIZE: u32 = 65535;

pub const MAX_LPC_ORDER: u32 = 32;

pub const MAX_PARTITION_ORDER: u32 = 16;

/// How the two channels of a stereo frame were decorrelated before encoding.
#[derive(Debug, Clone, Copy, PartialEq, Eq)]
pub enum ChannelAssignment {
    /// Each channel stored independently. The value is the channel count.
    Independent(u8),
    LeftSide,
    RightSide,
    MidSide,
}

/// The decoded fields of a frame header that the subframe decoder needs.
#[derive(Debug)]
pub struct FrameHeader {
    pub block_size: u32,
    pub channel_assignment: ChannelAssignment,
    pub bits_per_sample: u8,
}

/// Enough bits remain at `pos` for a field of `n` bits.
pub open spec fn avail(d: Seq<u8>, pos: int, n: int) -> bool {
    pos + n <= d.len() * 8
}

pub open spec fn spec_channel_count(a: ChannelAssignment) -> u8 {
    match a {
        ChannelAssignment::Independent(c) => c,
        _ => 2,
    }
}

pub fn channel_count(a: ChannelAssignment) -> (c: u8)
    ensures
        c == spec_channel_count(a),
{
    match a {
        ChannelAssignment::Independent(c) => c,
        _ => 2,
    }
}

/// The bit depth of channel `ch`'s subframe: a side channel carries one more.
pub open spec fn spec_subframe_bps(a: ChannelAssignment, ch: int, bps: u8) -> nat {
    match a {
        ChannelAssignment::LeftSide | ChannelAssignment::MidSide => if ch == 1 {
            (bps + 1) as nat
        } else {
            bps as nat
        },
        ChannelAssignment::RightSide => if ch == 0 {
            (bps + 1) as nat
        } else {
            bps as nat
        },
        _ => bps as nat,
    }
}

pub fn subframe_bits_per_sample(a: ChannelAssignment, ch: usize, bps: u8) -> (r: u32)
    ensures
        r == spec_subframe_bps(a, ch as int, bps),
{
    match a {
        ChannelAssignment::LeftSide if ch == 1 => bps as u32 + 1,
        ChannelAssignment::MidSide if ch == 1 => bps as u32 + 1,
        ChannelAssignment::RightSide if ch == 0 => bps as u32 + 1,
        _ => bps as u32,
    }
}

/// The number of continuation bytes a coded-number lead byte announces.
pub open spec fn utf8_following(first: u8) -> Option<u8> {
    if first & 0xE0u8 == 0xC0u8 {
        Some(1u8)
    } else if first & 0xF0u8 == 0xE0u8 {
        Some(2u8)
    } else if first & 0xF8u8 == 0xF0u8 {
        Some(3u8)
    } else if first & 0xFCu8 == 0xF8u8 {
        Some(4u8)
    } else if first & 0xFEu8 == 0xFCu8 {
        Some(5u8)
    } else if first == 0xFEu8 {
        Some(6u8)
    } else {
        None
    }
}

/// Reading `k` continuation bytes of a coded number onto `value`.
pub open spec fn spec_utf8_cont(d: Seq<u8>, pos: int, k: nat, value: u64) -> SpecResult<u64>
    decreases k,
{
    if k == 0 {
        Ok((value, pos))
    } else if !avail(d, pos, 8) {
        Err(ErrorView::Truncated)
    } else {
        let c = bits_val(d, pos, 8) as u8;
        if c & 0xC0u8 != 0x80u8 {
            Err(ErrorView::CorruptStream("invalid coded number continuation byte"@))
        } else {
            spec_utf8_cont(d, pos + 8, (k - 1) as nat, (value << 6u64) | ((c & 0x3Fu8) as u64))
        }
    }
}

/// FLAC's extended-UTF-8 coded number (1 to 7 bytes, up to 36 bits).
pub open spec fn spec_read_utf8_coded(d: Seq<u8>, pos: int) -> SpecResult<u64> {
    if !avail(d, pos, 8) {
        Err(ErrorView::Truncated)
    } else {
        let first = bits_val(d, pos, 8) as u8;
        if first & 0x80u8 == 0 {
            Ok((first as u64, pos + 8))
        } else {
            match utf8_following(first) {
                None => Err(ErrorView::CorruptStream("invalid coded number lead byte"@)),
                Some(n) => spec_utf8_cont(
                    d,
                    pos + 8,
                    n as nat,
                    (first & ((((1u32 << ((6 - n) as u32)) - 1) as u32) as u8)) as u64,
                ),
            }
        }
    }
}

/// Decode FLAC's extended-UTF-8 coded number (1 to 7 bytes, up to 36 bits).
pub fn read_utf8_coded(reader: &mut BitReader) -> (r: Result<u64, FlacError>)
    requires
        old(reader).wf(),
    ensures
        final(reader).wf(),
        final(reader).bytes() == old(reader).bytes(),
        final(reader).pos() >= old(reader).pos(),
        agrees(r, spec_read_utf8_coded(old(reader).bytes(), old(reader).pos())),
        spec_read_utf8_coded(old(reader).bytes(), old(reader).pos()) matches Ok((_, p))
            ==> final(reader).pos() == p,
{
    let ghost d = reader.bytes();
    let first = match reader.read_u32(8) {
        Ok(v) => v as u8,
        Err(e) => return Err(e),
    };
    proof {
        crate::bits::lemma_bits_val_bound(d, old(reader).pos(), 8);
        vstd::arithmetic::power2::lemma2_to64();
    }
    if first & 0x80 == 0 {
        return Ok(first as u64);
    }
    let n_following: u8 = if first & 0xE0 == 0xC0 {
        1
    } else if first & 0xF0 == 0xE0 {
        2
    } else if first & 0xF8 == 0xF0 {
        3
    } else if first & 0xFC == 0xF8 {
        4
    } else if first & 0xFE == 0xFC {
        5
    } else if first == 0xFE {
        6
    } else {
        return Err(corrupt("invalid coded number lead byte"));
    };
    let sh = (6 - n_following) as u32;
    assert(1u32 << sh >= 1) by (bit_vector)
        requires
            sh <= 5,
    ;
    let mask = (((1u32 << sh) - 1) as u32) as u8;
    let mut value = (first & mask) as u64;
    let mut i: u8 = 0;
    while i < n_following
        invariant
            reader.wf(),
            reader.bytes() == d,
            d == old(reader).bytes(),
            reader.pos() >= old(reader).pos(),
            i <= n_following <= 6,
            spec_read_utf8_coded(d, old(reader).pos()) == spec_utf8_cont(
                d,
                reader.pos(),
                (n_following - i) as nat,
                value,
            ),
        decreases n_following - i,
    {
        let ghost p = reader.pos();
        let cont = match reader.read_u32(8) {
            Ok(v) => v as u8,
            Err(e) => return Err(e),
        };
        proof {
            crate::bits::lemma_bits_val_bound(d, p, 8);
            vstd::arithmetic::power2::lemma2_to64();
        }
        if cont & 0xC0 != 0x80 {
            return Err(corrupt("invalid coded number continuation byte"));
        }
        value = (value << 6u64) | ((cont & 0x3F) as u64);
        i += 1;
    }
    Ok(value)
}

/// The block size a frame header's code announces, reading the trailing
/// 8 or 16 bits the code calls for.
pub open spec fn spec_block_size(d: Seq<u8>, p: int, code: u32) -> SpecResult<u32> {
    if code == 0 {
        Err(ErrorView::CorruptStream("reserved block size code 0"@))
    } else if code == 1 {
        Ok((192u32, p))
    } else if code <= 5 {
        Ok((576u32 << ((code - 2) as u32), p))
    } else if code == 6 {
        if !avail(d, p, 8) {
            Err(ErrorView::Truncated)
        } else {
            Ok(((bits_val(d, p, 8) + 1) as u32, p + 8))
        }
    } else if code == 7 {
        if !avail(d, p, 16) {
            Err(ErrorView::Truncated)
        } else {
            Ok(((bits_val(d, p, 16) + 1) as u32, p + 16))
        }
    } else {
        Ok((256u32 << ((code - 8) as u32), p))
    }
}

/// Consuming the sample-rate bytes a frame header's code calls for.
pub open spec fn spec_skip_rate(d: Seq<u8>, p: int, code: u32) -> SpecResult<()> {
    if code == 12 {
        if !avail(d, p, 8) {
            Err(ErrorView::Truncated)
        } else {
            Ok(((), p + 8))
        }
    } else if code == 13 || code == 14 {
        if !avail(d, p, 16) {
            Err(ErrorView::Truncated)
        } else {
            Ok(((), p + 16))
        }
    } else if code == 15 {
        Err(ErrorView::CorruptStream("invalid sample rate code 15"@))
    } else {
        Ok(((), p))
    }
}

/// The channel assignment a 4-bit code names, if it is not reserved.
pub open spec fn assignment_of(code: u32) -> Option<ChannelAssignment> {
    if code <= 7 {
        Some(ChannelAssignment::Independent((code + 1) as u8))
    } else if code == 8 {
        Some(ChannelAssignment::LeftSide)
    } else if code == 9 {
        Some(ChannelAssignment::RightSide)
    } else if code == 10 {
        Some(ChannelAssignment::MidSide)
    } else {
        None
    }
}

/// The sample size a 3-bit code names, if it is not reserved.
pub open spec fn sample_size_of(code: u32, stream_bps: u8) -> Option<u8> {
    if code == 0 {
        Some(stream_bps)
    } else if code == 1 {
        Some(8u8)
    } else if code == 2 {
        Some(12u8)
    } else if code == 3 {
        None
    } else if code == 4 {
        Some(16u8)
    } else if code == 5 {
        Some(20u8)
    } else if code == 6 {
        Some(24u8)
    } else {
        Some(32u8)
    }
}

/// Reading a frame header at bit `pos`.
#[verifier::opaque]
pub open spec fn spec_frame_header(d: Seq<u8>, pos: int, stream_bps: u8) -> SpecResult<
    FrameHeader,
> {
    if !avail(d, pos, 14) {
        Err(ErrorView::Truncated)
    } else if bits_val(d, pos, 14) != 0x3FFE {
        Err(ErrorView::CorruptStream("bad frame sync code"@))
    } else if !avail(d, pos, 32) {
        Err(ErrorView::Truncated)
    } else {
        let bs = bits_val(d, pos + 16, 4) as u32;
        let sr = bits_val(d, pos + 20, 4) as u32;
        let ch = bits_val(d, pos + 24, 4) as u32;
        let ss = bits_val(d, pos + 28, 3) as u32;
        match spec_read_utf8_coded(d, pos + 32) {
            Err(e) => Err(e),
            Ok((_, p1)) => match spec_block_size(d, p1, bs) {
                Err(e) => Err(e),
                Ok((size, p2)) => if size == 0 || size > MAX_BLOCK_SIZE {
                    Err(ErrorView::CorruptStream("block size out of range"@))
                } else {
                    match spec_skip_rate(d, p2, sr) {
                        Err(e) => Err(e),
                        Ok((_, p3)) => match assignment_of(ch) {
                            None => Err(ErrorView::CorruptStream("reserved channel assignment"@)),
                            Some(a) => match sample_size_of(ss, stream_bps) {
                                None => Err(
                                    ErrorView::CorruptStream("reserved sample size code 3"@),
                                ),
                                Some(b) => Ok(
                                    (
                                        FrameHeader {
                                            block_size: size,
                                            channel_assignment: a,
                                            bits_per_sample: b,
                                        },
                                        p3,
                                    ),
                                ),
                            },
                        },
                    }
                },
            },
        }
    }
}

pub fn read_frame_header(reader: &mut BitReader, stream_info: &StreamInfo) -> (r: Result<
    FrameHeader,
    FlacError,
>)
    requires
        old(reader).wf(),
    ensures
        final(reader).wf(),
        final(reader).bytes() == old(reader).bytes(),
        final(reader).pos() >= old(reader).pos(),
        agrees(
            r,
            spec_frame_header(old(reader).bytes(), old(reader).pos(), stream_info.bits_per_sample),
        ),
        spec_frame_header(old(reader).bytes(), old(reader).pos(), stream_info.bits_per_sample) matches Ok(
            (_, p),
        ) ==> final(reader).pos() == p,
        r matches Ok(h) ==> 1 <= h.block_size <= MAX_BLOCK_SIZE && (h.bits_per_sample <= 32
            || h.bits_per_sample == stream_info.bits_per_sample),
{
    let ghost d = reader.bytes();
    let ghost pos = reader.pos();
    proof {
        reveal(spec_frame_header);
        vstd::arithmetic::power2::lemma2_to64();
        crate::bits::lemma_bits_val_bound(d, pos, 14);
        crate::bits::lemma_bits_val_bound(d, pos + 16, 4);
        crate::bits::lemma_bits_val_bound(d, pos + 20, 4);
        crate::bits::lemma_bits_val_bound(d, pos + 24, 4);
        crate::bits::lemma_bits_val_bound(d, pos + 28, 3);
    }
    // Sync code: 14 bits, 0b11111111111110.
    let sync = match reader.read_u32(14) {
        Ok(v) => v,
        Err(e) => return Err(e),
    };
    if sync != 0x3FFE {
        return Err(corrupt("bad frame sync code"));
    }
    let _reserved = match reader.read_u32(1) {
        Ok(v) => v,
        Err(e) => return Err(e),
    };
    let _blocking_strategy = match reader.read_u32(1) {
        Ok(v) => v,
        Err(e) => return Err(e),
    };
    let block_size_code = match reader.read_u32(4) {
        Ok(v) => v,
        Err(e) => return Err(e),
    };
    let sample_rate_code = match reader.read_u32(4) {
        Ok(v) => v,
        Err(e) => return Err(e),
    };
    let channel_code = match reader.read_u32(4) {
        Ok(v) => v,
        Err(e) => return Err(e),
    };
    let sample_size_code = match reader.read_u32(3) {
        Ok(v) => v,
        Err(e) => return Err(e),
    };
    let _reserved2 = match reader.read_u32(1) {
        Ok(v) => v,
        Err(e) => return Err(e),
    };

    // The coded frame/sample number. We decode and discard it; sample layout
    // is driven by block sizes, not by this number.
    match read_utf8_coded(reader) {
        Ok(_) => {},
        Err(e) => return Err(e),
    }
    let ghost p1 = reader.pos();
    proof {
        crate::bits::lemma_bits_val_bound(d, p1, 8);
        crate::bits::lemma_bits_val_bound(d, p1, 16);
    }

    let block_size: u32 = if block_size_code == 0 {
        return Err(corrupt("reserved block size code 0"));
    } else if block_size_code == 1 {
        192
    } else if block_size_code <= 5 {
        576u32 << (block_size_code - 2)
    } else if block_size_code == 6 {
        match reader.read_u32(8) {
            Ok(v) => v + 1,
            Err(e) => return Err(e),
        }
    } else if block_size_code == 7 {
        match reader.read_u32(16) {
            Ok(v) => v + 1,
            Err(e) => return Err(e),
        }
    } else {
        256u32 << (block_size_code - 8)
    };
    if block_size == 0 || block_size > MAX_BLOCK_SIZE {
        return Err(corrupt("block size out of range"));
    }

    // Sample rate is read for stream validity but the value lives in
    // STREAMINFO; we consume the trailing bytes when the code calls for them.
    if sample_rate_code == 12 {
        match reader.read_u32(8) {
            Ok(_) => {},
            Err(e) => return Err(e),
        }
    } else if sample_rate_code == 13 || sample_rate_code == 14 {
        match reader.read_u32(16) {
            Ok(_) => {},
            Err(e) => return Err(e),
        }
    } else if sample_rate_code == 15 {
        return Err(corrupt("invalid sample rate code 15"));
    }
    let channel_assignment = if channel_code <= 7 {
        ChannelAssignment::Independent(channel_code as u8 + 1)
    } else if channel_code == 8 {
        ChannelAssignment::LeftSide
    } else if channel_code == 9 {
        ChannelAssignment::RightSide
    } else if channel_code == 10 {
        ChannelAssignment::MidSide
    } else {
        return Err(corrupt("reserved channel assignment"));
    };

    let bits_per_sample: u8 = if sample_size_code == 0 {
        stream_info.bits_per_sample
    } else if sample_size_code == 1 {
        8
    } else if sample_size_code == 2 {
        12
    } else if sample_size_code == 3 {
        return Err(corrupt("reserved sample size code 3"));
    } else if sample_size_code == 4 {
        16
    } else if sample_size_code == 5 {
        20
    } else if sample_size_code == 6 {
        24
    } else {
        32
    };

    Ok(FrameHeader { block_size, channel_assignment, bits_per_sample })
}

/// Zigzag decoding: even codes are non-negative, odd codes negative.
pub open spec fn zigzag_decode(v: u64) -> i64 {
    if v & 1u64 == 0 {
        (v >> 1u64) as i64
    } else {
        (-((v >> 1u64) as i64) - 1) as i64
    }
}

/// Reading one Rice-coded residual with parameter `k`.
pub open spec fn spec_read_rice(d: Seq<u8>, pos: int, k: u32) -> SpecResult<i64> {
    match spec_read_unary(d, pos) {
        Err(e) => Err(e),
        Ok((q, p1)) => {
            if k > 0 {
                match spec_read_u32(d, p1, k as nat) {
                    Err(e) => Err(e),
                    Ok((rem, p2)) => Ok(
                        (zigzag_decode(((q as u64) << (k as u64)) | (rem as u64)), p2),
                    ),
                }
            } else {
                Ok((zigzag_decode((q as u64) << (k as u64)), p1))
            }
        },
    }
}

/// Reading `k` Rice-coded residuals onto `acc`.
pub open spec fn spec_rice_run(d: Seq<u8>, pos: int, k: nat, param: u32, acc: Seq<i64>) -> SpecResult<
    Seq<i64>,
>
    decreases k,
{
    if k == 0 {
        Ok((acc, pos))
    } else {
        match spec_read_rice(d, pos, param) {
            Err(e) => Err(e),
            Ok((v, p)) => spec_rice_run(d, p, (k - 1) as nat, param, acc.push(v)),
        }
    }
}

/// Reading `k` escaped (raw signed) residuals of `raw` bits onto `acc`.
pub open spec fn spec_escaped_run(d: Seq<u8>, pos: int, k: nat, raw: u32, acc: Seq<i64>) -> SpecResult<
    Seq<i64>,
>
    decreases k,
{
    if k == 0 {
        Ok((acc, pos))
    } else if raw == 0 {
        spec_escaped_run(d, pos, (k - 1) as nat, raw, acc.push(0i64))
    } else {
        match spec_read_signed(d, pos, raw as nat) {
            Err(e) => Err(e),
            Ok((v, p)) => spec_escaped_run(d, p, (k - 1) as nat, raw, acc.push(v as i64)),
        }
    }
}

/// Reading `k` raw signed samples of `bps` bits (1 to 33) onto `acc`.
pub open spec fn spec_wide_run(d: Seq<u8>, pos: int, k: nat, bps: u32, acc: Seq<i64>) -> SpecResult<
    Seq<i64>,
>
    decreases k,
{
    if k == 0 {
        Ok((acc, pos))
    } else {
        match spec_read_signed_wide(d, pos, bps as nat) {
            Err(e) => Err(e),
            Ok((v, p)) => spec_wide_run(d, p, (k - 1) as nat, bps, acc.push(v)),
        }
    }
}

/// Reading the residual partitions `p` onward.
pub open spec fn spec_partitions(
    d: Seq<u8>,
    pos: int,
    p: nat,
    parts: nat,
    plen: nat,
    order: nat,
    pbits: u32,
    acc: Seq<i64>,
) -> SpecResult<Seq<i64>>
    decreases parts - p,
{
    if p >= parts {
        Ok((acc, pos))
    } else if p == 0 && plen < order {
        Err(ErrorView::CorruptStream("partition smaller than order"@))
    } else {
        let count: nat = if p == 0 {
            (plen - order) as nat
        } else {
            plen
        };
        if !avail(d, pos, pbits as int) {
            Err(ErrorView::Truncated)
        } else {
            let param = bits_val(d, pos, pbits as nat) as u32;
            let escape: u32 = if pbits == 4 {
                15
            } else {
                31
            };
            if param == escape {
                if !avail(d, pos + pbits, 5) {
                    Err(ErrorView::Truncated)
                } else {
                    let raw = bits_val(d, pos + pbits, 5) as u32;
                    match spec_escaped_run(d, pos + pbits + 5, count, raw, acc) {
                        Err(e) => Err(e),
                        Ok((acc2, p2)) => spec_partitions(
                            d,
                            p2,
                            p + 1,
                            parts,
                            plen,
                            order,
                            pbits,
                            acc2,
                        ),
                    }
                }
            } else {
                match spec_rice_run(d, pos + pbits, count, param, acc) {
                    Err(e) => Err(e),
                    Ok((acc2, p2)) => spec_partitions(d, p2, p + 1, parts, plen, order, pbits, acc2),
                }
            }
        }
    }
}

/// Reading the residual block of a predicted subframe of `n` samples whose
/// first `order` samples are warmup.
pub open spec fn spec_residual(d: Seq<u8>, pos: int, n: nat, order: nat) -> SpecResult<Seq<i64>> {
    if !avail(d, pos, 2) {
        Err(ErrorView::Truncated)
    } else {
        let method = bits_val(d, pos, 2);
        if method >= 2 {
            Err(ErrorView::CorruptStream("reserved residual coding method"@))
        } else if !avail(d, pos + 2, 4) {
            Err(ErrorView::Truncated)
        } else {
            let pbits: u32 = if method == 0 {
                4
            } else {
                5
            };
            let po = bits_val(d, pos + 2, 4);
            if po > MAX_PARTITION_ORDER {
                Err(ErrorView::CorruptStream("residual partition order too large"@))
            } else {
                let parts = vstd::arithmetic::power2::pow2(po);
                if n % parts != 0 {
                    Err(ErrorView::CorruptStream("block size not divisible by partition count"@))
                } else {
                    spec_partitions(d, pos + 6, 0, parts, n / parts, order, pbits, Seq::empty())
                }
            }
        }
    }
}

/// Read one Rice-coded residual with parameter `k` and zigzag-decode it.
pub fn read_rice(reader: &mut BitReader, k: u32) -> (r: Result<i64, FlacError>)
    requires
        old(reader).wf(),
        k <= 30,
    ensures
        final(reader).wf(),
        final(reader).bytes() == old(reader).bytes(),
        final(reader).pos() >= old(reader).pos(),
        agrees(r, spec_read_rice(old(reader).bytes(), old(reader).pos(), k)),
        spec_read_rice(old(reader).bytes(), old(reader).pos(), k) matches Ok((_, p)) ==> final(reader).pos() == p,
{
    let quotient = match reader.read_unary() {
        Ok(q) => q as u64,
        Err(e) => return Err(e),
    };
    let remainder: u64 = if k > 0 {
        match reader.read_u32(k) {
            Ok(v) => v as u64,
            Err(e) => return Err(e),
        }
    } else {
        0
    };
    let value = (quotient << (k as u64)) | remainder;
    if k == 0 {
        let sh = quotient << (k as u64);
        assert(sh | 0u64 == sh) by (bit_vector);
    }
    // Zigzag: even -> non-negative, odd -> negative.
    let half = value >> 1u64;
    assert(value >> 1u64 <= 0x7FFF_FFFF_FFFF_FFFFu64) by (bit_vector);
    if value & 1 == 0 {
        Ok(half as i64)
    } else {
        Ok(-(half as i64) - 1)
    }
}

/// Read `count` Rice-coded residuals with parameter `param` onto `out`.
pub fn read_rice_run(reader: &mut BitReader, count: usize, param: u32, out: &mut Vec<i64>) -> (r:
    Result<(), FlacError>)
    requires
        old(reader).wf(),
        param <= 30,
    ensures
        final(reader).wf(),
        final(reader).bytes() == old(reader).bytes(),
        final(reader).pos() >= old(reader).pos(),
        match spec_rice_run(old(reader).bytes(), old(reader).pos(), count as nat, param, old(out)@) {
            Ok((v, p)) => r is Ok && final(out)@ == v && final(reader).pos() == p,
            Err(e) => r is Err && r->Err_0@ == e,
        },
{
    let ghost d = reader.bytes();
    let mut i: usize = 0;
    while i < count
        invariant
            reader.wf(),
            reader.bytes() == d,
            d == old(reader).bytes(),
            reader.pos() >= old(reader).pos(),
            i <= count,
            param <= 30,
            spec_rice_run(d, old(reader).pos(), count as nat, param, old(out)@) == spec_rice_run(
                d,
                reader.pos(),
                (count - i) as nat,
                param,
                out@,
            ),
        decreases count - i,
    {
        let v = match read_rice(reader, param) {
            Ok(x) => x,
            Err(e) => return Err(e),
        };
        out.push(v);
        i += 1;
    }
    Ok(())
}

/// Read `count` escaped residuals, raw signed values of `raw_bits` bits (none
/// at all when the width is zero), onto `out`.
pub fn read_escaped_run(reader: &mut BitReader, count: usize, raw_bits: u32, out: &mut Vec<i64>) -> (r:
    Result<(), FlacError>)
    requires
        old(reader).wf(),
        raw_bits < 32,
    ensures
        final(reader).wf(),
        final(reader).bytes() == old(reader).bytes(),
        final(reader).pos() >= old(reader).pos(),
        match spec_escaped_run(old(reader).bytes(), old(reader).pos(), count as nat, raw_bits, old(out)@) {
            Ok((v, p)) => r is Ok && final(out)@ == v && final(reader).pos() == p,
            Err(e) => r is Err && r->Err_0@ == e,
        },
{
    let ghost d = reader.bytes();
    let mut i: usize = 0;
    while i < count
        invariant
            reader.wf(),
            reader.bytes() == d,
            d == old(reader).bytes(),
            reader.pos() >= old(reader).pos(),
            i <= count,
            raw_bits < 32,
            spec_escaped_run(d, old(reader).pos(), count as nat, raw_bits, old(out)@)
                == spec_escaped_run(d, reader.pos(), (count - i) as nat, raw_bits, out@),
        decreases count - i,
    {
        let v: i64 = if raw_bits == 0 {
            0
        } else {
            match reader.read_signed(raw_bits) {
                Ok(x) => x as i64,
                Err(e) => return Err(e),
            }
        };
        out.push(v);
        i += 1;
    }
    Ok(())
}

/// Read `count` raw signed samples of `bps` bits (1 to 33) onto `out`.
pub fn read_wide_run(reader: &mut BitReader, count: usize, bps: u32, out: &mut Vec<i64>) -> (r:
    Result<(), FlacError>)
    requires
        old(reader).wf(),
        1 <= bps <= 33,
    ensures
        final(reader).wf(),
        final(reader).bytes() == old(reader).bytes(),
        final(reader).pos() >= old(reader).pos(),
        match spec_wide_run(old(reader).bytes(), old(reader).pos(), count as nat, bps, old(out)@) {
            Ok((v, p)) => r is Ok && final(out)@ == v && final(reader).pos() == p,
            Err(e) => r is Err && r->Err_0@ == e,
        },
{
    let ghost d = reader.bytes();
    let mut i: usize = 0;
    while i < count
        invariant
            reader.wf(),
            reader.bytes() == d,
            d == old(reader).bytes(),
            reader.pos() >= old(reader).pos(),
            i <= count,
            1 <= bps <= 33,
            spec_wide_run(d, old(reader).pos(), count as nat, bps, old(out)@) == spec_wide_run(
                d,
                reader.pos(),
                (count - i) as nat,
                bps,
                out@,
            ),
        decreases count - i,
    {
        let v = match reader.read_signed_wide(bps) {
            Ok(x) => x,
            Err(e) => return Err(e),
        };
        out.push(v);
        i += 1;
    }
    Ok(())
}

/// Read the residual block (the prediction errors after the warmup samples).
pub fn read_residual(reader: &mut BitReader, block_size: usize, order: usize) -> (r: Result<
    Vec<i64>,
    FlacError,
>)
    requires
        old(reader).wf(),
        order <= block_size,
    ensures
        final(reader).wf(),
        final(reader).bytes() == old(reader).bytes(),
        final(reader).pos() >= old(reader).pos(),
        match spec_residual(old(reader).bytes(), old(reader).pos(), block_size as nat, order as nat) {
            Ok((v, p)) => r is Ok && r->Ok_0@ == v && final(reader).pos() == p,
            Err(e) => r is Err && r->Err_0@ == e,
        },
{
    let ghost d = reader.bytes();
    let ghost pos0 = reader.pos();
    proof {
        vstd::arithmetic::power2::lemma2_to64();
        crate::bits::lemma_bits_val_bound(d, pos0, 2);
        crate::bits::lemma_bits_val_bound(d, pos0 + 2, 4);
    }
    let method = match reader.read_u32(2) {
        Ok(v) => v,
        Err(e) => return Err(e),
    };
    let param_bits: u32 = if method == 0 {
        4
    } else if method == 1 {
        5
    } else {
        return Err(corrupt("reserved residual coding method"));
    };
    let escape: u32 = if param_bits == 4 {
        15
    } else {
        31
    };

    let partition_order = match reader.read_u32(4) {
        Ok(v) => v,
        Err(e) => return Err(e),
    };
    if partition_order > MAX_PARTITION_ORDER {
        return Err(corrupt("residual partition order too large"));
    }
    proof {
        vstd::bits::lemma_usize_shl_is_mul(1, partition_order as usize);
        if partition_order < 16 {
            vstd::arithmetic::power2::lemma_pow2_strictly_increases(partition_order as nat, 16);
        }
    }
    let partitions = 1usize << (partition_order as usize);
    if block_size % partitions != 0 {
        return Err(corrupt("block size not divisible by partition count"));
    }
    let partition_len = block_size / partitions;

    let mut residual: Vec<i64> = Vec::new();
    let mut p: usize = 0;
    while p < partitions
        invariant
            reader.wf(),
            reader.bytes() == d,
            d == old(reader).bytes(),
            reader.pos() >= pos0,
            pos0 == old(reader).pos(),
            p <= partitions,
            partitions >= 1,
            partition_len <= block_size,
            param_bits == 4 || param_bits == 5,
            escape == (if param_bits == 4 {
                15u32
            } else {
                31u32
            }),
            spec_residual(d, pos0, block_size as nat, order as nat) == spec_partitions(
                d,
                reader.pos(),
                p as nat,
                partitions as nat,
                partition_len as nat,
                order as nat,
                param_bits,
                residual@,
            ),
        decreases partitions - p,
    {
        // The first partition is shortened by the warmup samples.
        let count = if p == 0 {
            if partition_len < order {
                return Err(corrupt("partition smaller than order"));
            }
            partition_len - order
        } else {
            partition_len
        };

        let ghost pp = reader.pos();
        proof {
            crate::bits::lemma_bits_val_bound(d, pp, param_bits as nat);
            crate::bits::lemma_bits_val_bound(d, pp + param_bits, 5);
            vstd::arithmetic::power2::lemma2_to64();
        }
        let param = match reader.read_u32(param_bits) {
            Ok(v) => v,
            Err(e) => return Err(e),
        };
        if param == escape {
            // Escape: each residual is a raw signed value of the given width.
            let raw_bits = match reader.read_u32(5) {
                Ok(v) => v,
                Err(e) => return Err(e),
            };
            match read_escaped_run(reader, count, raw_bits, &mut residual) {
                Ok(()) => {},
                Err(e) => return Err(e),
            }
        } else {
            match read_rice_run(reader, count, param, &mut residual) {
                Ok(()) => {},
                Err(e) => return Err(e),
            }
        }
        p += 1;
    }
    Ok(residual)
}

/// The fixed-predictor prediction of the next sample from the last `order`
/// samples of `s`, in wrapping arithmetic.
pub open spec fn fixed_pred(s: Seq<i64>, order: nat) -> i64 {
    let i = s.len() as int;
    if order == 0 {
        0
    } else if order == 1 {
        s[i - 1]
    } else if order == 2 {
        2i64.wrapping_mul(s[i - 1]).wrapping_sub(s[i - 2])
    } else if order == 3 {
        3i64.wrapping_mul(s[i - 1]).wrapping_sub(3i64.wrapping_mul(s[i - 2])).wrapping_add(
            s[i - 3],
        )
    } else {
        4i64.wrapping_mul(s[i - 1]).wrapping_sub(6i64.wrapping_mul(s[i - 2])).wrapping_add(
            4i64.wrapping_mul(s[i - 3]),
        ).wrapping_sub(s[i - 4])
    }
}

/// Restoring the samples of a fixed-predictor subframe from residual `i` on.
pub open spec fn spec_restore_fixed(s: Seq<i64>, res: Seq<i64>, order: nat, i: nat) -> Seq<i64>
    decreases res.len() - i,
{
    if i >= res.len() {
        s
    } else {
        spec_restore_fixed(
            s.push(res[i as int].wrapping_add(fixed_pred(s, order))),
            res,
            order,
            i + 1,
        )
    }
}

/// The linear-predictor sum over the first `j` coefficients, in wrapping
/// arithmetic: coefficient `t` weighs the sample `t + 1` places back.
pub open spec fn lpc_sum(c: Seq<i64>, s: Seq<i64>, j: nat) -> i64
    decreases j,
{
    if j == 0 {
        0
    } else {
        lpc_sum(c, s, (j - 1) as nat).wrapping_add(
            c[j - 1].wrapping_mul(s[s.len() - 1 - (j - 1)]),
        )
    }
}

/// Restoring the samples of an LPC subframe from residual `i` on.
pub open spec fn spec_restore_lpc(s: Seq<i64>, c: Seq<i64>, res: Seq<i64>, shift: u32, i: nat) -> Seq<
    i64,
>
    decreases res.len() - i,
{
    if i >= res.len() {
        s
    } else {
        spec_restore_lpc(
            s.push(res[i as int].wrapping_add(lpc_sum(c, s, c.len()).wrapping_shr(shift))),
            c,
            res,
            shift,
            i + 1,
        )
    }
}

/// A constant subframe: one raw sample repeated for the block.
pub open spec fn spec_constant(d: Seq<u8>, pos: int, n: nat, bps: u32) -> SpecResult<Seq<i64>> {
    match spec_read_signed_wide(d, pos, bps as nat) {
        Err(e) => Err(e),
        Ok((v, p)) => Ok((Seq::new(n, |i: int| v), p)),
    }
}

/// A fixed-predictor subframe of order 0 to 4.
pub open spec fn spec_fixed(d: Seq<u8>, pos: int, n: nat, bps: u32, order: nat) -> SpecResult<
    Seq<i64>,
> {
    if order > n {
        Err(ErrorView::CorruptStream("fixed predictor order exceeds block size"@))
    } else {
        match spec_wide_run(d, pos, order, bps, Seq::empty()) {
            Err(e) => Err(e),
            Ok((w, p1)) => match spec_residual(d, p1, n, order) {
                Err(e) => Err(e),
                Ok((r, p2)) => Ok((spec_restore_fixed(w, r, order, 0), p2)),
            },
        }
    }
}

/// An LPC subframe of order 1 to 32.
pub open spec fn spec_lpc(d: Seq<u8>, pos: int, n: nat, bps: u32, order: nat) -> SpecResult<
    Seq<i64>,
> {
    if order > MAX_LPC_ORDER || order > n {
        Err(ErrorView::CorruptStream("LPC order exceeds the cap or block size"@))
    } else {
        match spec_wide_run(d, pos, order, bps, Seq::empty()) {
            Err(e) => Err(e),
            Ok((w, p1)) => {
                if !avail(d, p1, 4) {
                    Err(ErrorView::Truncated)
                } else {
                    let prec = bits_val(d, p1, 4) + 1;
                    if prec > 32 {
                        Err(ErrorView::CorruptStream("invalid LPC coefficient precision"@))
                    } else if !avail(d, p1 + 4, 5) {
                        Err(ErrorView::Truncated)
                    } else {
                        let shift = crate::bits::sign_extend(bits_val(d, p1 + 4, 5), 5);
                        if shift < 0 {
                            Err(ErrorView::CorruptStream("negative LPC shift is not supported"@))
                        } else {
                            match spec_escaped_run(d, p1 + 9, order, prec as u32, Seq::empty()) {
                                Err(e) => Err(e),
                                Ok((c, p2)) => match spec_residual(d, p2, n, order) {
                                    Err(e) => Err(e),
                                    Ok((r, p3)) => Ok(
                                        (spec_restore_lpc(w, c, r, shift as u32, 0), p3),
                                    ),
                                },
                            }
                        }
                    }
                }
            },
        }
    }
}

/// The subframe body for a type code, at an effective depth of `bps` bits.
pub open spec fn spec_subframe_body(d: Seq<u8>, pos: int, n: nat, bps: u32, t: nat) -> SpecResult<
    Seq<i64>,
> {
    if t == 0 {
        spec_constant(d, pos, n, bps)
    } else if t == 1 {
        spec_wide_run(d, pos, n, bps, Seq::empty())
    } else if 8 <= t <= 12 {
        spec_fixed(d, pos, n, bps, (t - 8) as nat)
    } else if 32 <= t <= 63 {
        spec_lpc(d, pos, n, bps, (t - 31) as nat)
    } else {
        Err(ErrorView::CorruptStream("reserved subframe type code "@ + decimal(t)))
    }
}

/// Reading one subframe of `n` samples at a depth of `bps` bits.
pub open spec fn spec_subframe(d: Seq<u8>, pos: int, n: nat, bps: nat) -> SpecResult<Seq<i64>> {
    if !avail(d, pos, 1) {
        Err(ErrorView::Truncated)
    } else if bits_val(d, pos, 1) != 0 {
        Err(ErrorView::CorruptStream("subframe padding bit was not zero"@))
    } else if !avail(d, pos, 8) {
        Err(ErrorView::Truncated)
    } else {
        let t = bits_val(d, pos + 1, 6);
        let flag = bits_val(d, pos + 7, 1);
        let wres: SpecResult<nat> = if flag == 1 {
            match spec_read_unary(d, pos + 8) {
                Err(e) => Err(e),
                Ok((u, p)) => Ok(((u + 1) as nat, p)),
            }
        } else {
            Ok((0nat, pos + 8))
        };
        match wres {
            Err(e) => Err(e),
            Ok((w, p1)) => if w > bps {
                Err(ErrorView::CorruptStream("wasted bits exceed sample depth"@))
            } else if bps - w == 0 || bps - w > 33 {
                Err(ErrorView::CorruptStream("effective sample depth out of range"@))
            } else {
                match spec_subframe_body(d, p1, n, (bps - w) as u32, t) {
                    Err(e) => Err(e),
                    Ok((s, p2)) => Ok(
                        (
                            if w > 0 {
                                Seq::new(s.len(), |i: int| s[i].wrapping_shl(w as u32))
                            } else {
                                s
                            },
                            p2,
                        ),
                    ),
                }
            },
        }
    }
}

/// A successful run of raw samples appends exactly `k` of them.
pub proof fn lemma_wide_run_len(d: Seq<u8>, pos: int, k: nat, bps: u32, acc: Seq<i64>)
    ensures
        spec_wide_run(d, pos, k, bps, acc) matches Ok((v, _)) ==> v.len() == acc.len() + k,
    decreases k,
{
    if k > 0 {
        if let Ok((v, p)) = spec_read_signed_wide(d, pos, bps as nat) {
            lemma_wide_run_len(d, p, (k - 1) as nat, bps, acc.push(v));
        }
    }
}

/// A successful run of escaped values appends exactly `k` of them.
pub proof fn lemma_escaped_run_len(d: Seq<u8>, pos: int, k: nat, raw: u32, acc: Seq<i64>)
    ensures
        spec_escaped_run(d, pos, k, raw, acc) matches Ok((v, _)) ==> v.len() == acc.len() + k,
    decreases k,
{
    if k > 0 {
        if raw == 0 {
            lemma_escaped_run_len(d, pos, (k - 1) as nat, raw, acc.push(0i64));
        } else if let Ok((v, p)) = spec_read_signed(d, pos, raw as nat) {
            lemma_escaped_run_len(d, p, (k - 1) as nat, raw, acc.push(v as i64));
        }
    }
}

/// A successful run of Rice codes appends exactly `k` values.
pub proof fn lemma_rice_run_len(d: Seq<u8>, pos: int, k: nat, param: u32, acc: Seq<i64>)
    ensures
        spec_rice_run(d, pos, k, param, acc) matches Ok((v, _)) ==> v.len() == acc.len() + k,
    decreases k,
{
    if k > 0 {
        if let Ok((v, p)) = spec_read_rice(d, pos, param) {
            lemma_rice_run_len(d, p, (k - 1) as nat, param, acc.push(v));
        }
    }
}

/// Restore a fixed-predictor subframe from its warmup samples and residual.
pub fn restore_fixed(samples: &mut Vec<i64>, residual: &[i64], order: usize)
    requires
        order <= 4,
        old(samples)@.len() == order,
    ensures
        final(samples)@ == spec_restore_fixed(old(samples)@, residual@, order as nat, 0),
{
    // Wrapping arithmetic throughout: on a valid stream the values fit and
    // wrapping is identical to ordinary arithmetic, but a corrupt stream can
    // drive this integrator past i64, and a parser of untrusted data must wrap
    // rather than panic. The STREAMINFO MD5 check rejects any such result.
    let mut i: usize = 0;
    while i < residual.len()
        invariant
            order <= 4,
            i <= residual@.len(),
            samples@.len() == order + i,
            spec_restore_fixed(old(samples)@, residual@, order as nat, 0) == spec_restore_fixed(
                samples@,
                residual@,
                order as nat,
                i as nat,
            ),
        decreases residual@.len() - i,
    {
        let r = residual[i];
        let idx = samples.len();
        let pred: i64 = if order == 0 {
            0
        } else if order == 1 {
            samples[idx - 1]
        } else if order == 2 {
            2i64.wrapping_mul(samples[idx - 1]).wrapping_sub(samples[idx - 2])
        } else if order == 3 {
            3i64.wrapping_mul(samples[idx - 1]).wrapping_sub(
                3i64.wrapping_mul(samples[idx - 2]),
            ).wrapping_add(samples[idx - 3])
        } else {
            4i64.wrapping_mul(samples[idx - 1]).wrapping_sub(
                6i64.wrapping_mul(samples[idx - 2]),
            ).wrapping_add(4i64.wrapping_mul(samples[idx - 3])).wrapping_sub(samples[idx - 4])
        };
        assert(pred == fixed_pred(samples@, order as nat));
        samples.push(r.wrapping_add(pred));
        i += 1;
    }
}

/// Restore an LPC subframe from its warmup samples, coefficients and residual.
pub fn restore_lpc(samples: &mut Vec<i64>, coeffs: &[i64], residual: &[i64], shift: u32)
    requires
        old(samples)@.len() == coeffs@.len(),
        shift < 64,
    ensures
        final(samples)@ == spec_restore_lpc(old(samples)@, coeffs@, residual@, shift, 0),
{
    let order = coeffs.len();
    let mut i: usize = 0;
    while i < residual.len()
        invariant
            order == coeffs@.len(),
            i <= residual@.len(),
            samples@.len() == order + i,
            spec_restore_lpc(old(samples)@, coeffs@, residual@, shift, 0) == spec_restore_lpc(
                samples@,
                coeffs@,
                residual@,
                shift,
                i as nat,
            ),
        decreases residual@.len() - i,
    {
        let r = residual[i];
        let idx = samples.len();
        // Wrapping accumulation so a corrupt stream cannot panic on overflow.
        let mut pred: i64 = 0;
        let mut j: usize = 0;
        while j < order
            invariant
                order == coeffs@.len(),
                j <= order,
                idx == order + i,
                samples@.len() == idx,
                pred == lpc_sum(coeffs@, samples@, j as nat),
            decreases order - j,
        {
            pred = pred.wrapping_add(coeffs[j].wrapping_mul(samples[idx - 1 - j]));
            j += 1;
        }
        samples.push(r.wrapping_add(pred.wrapping_shr(shift)));
        i += 1;
    }
}

/// A verbatim subframe: `block_size` samples of `bps` bits each.
fn decode_verbatim(reader: &mut BitReader, block_size: usize, bps: u32) -> (r: Result<
    Vec<i64>,
    FlacError,
>)
    requires
        old(reader).wf(),
        1 <= bps <= 33,
    ensures
        final(reader).wf(),
        final(reader).bytes() == old(reader).bytes(),
        final(reader).pos() >= old(reader).pos(),
        match spec_wide_run(old(reader).bytes(), old(reader).pos(), block_size as nat, bps, Seq::empty()) {
            Ok((v, p)) => r is Ok && r->Ok_0@ == v && final(reader).pos() == p,
            Err(e) => r is Err && r->Err_0@ == e,
        },
{
    let mut samples: Vec<i64> = Vec::new();
    match read_wide_run(reader, block_size, bps, &mut samples) {
        Ok(()) => Ok(samples),
        Err(e) => Err(e),
    }
}

fn decode_constant(reader: &mut BitReader, block_size: usize, bps: u32) -> (r: Result<
    Vec<i64>,
    FlacError,
>)
    requires
        old(reader).wf(),
        1 <= bps <= 33,
    ensures
        final(reader).wf(),
        final(reader).bytes() == old(reader).bytes(),
        final(reader).pos() >= old(reader).pos(),
        match spec_constant(old(reader).bytes(), old(reader).pos(), block_size as nat, bps) {
            Ok((v, p)) => r is Ok && r->Ok_0@ == v && final(reader).pos() == p,
            Err(e) => r is Err && r->Err_0@ == e,
        },
{
    let value = match reader.read_signed_wide(bps) {
        Ok(v) => v,
        Err(e) => return Err(e),
    };
    let mut samples: Vec<i64> = Vec::new();
    let mut i: usize = 0;
    while i < block_size
        invariant
            i <= block_size,
            samples@ == Seq::new(i as nat, |k: int| value),
        decreases block_size - i,
    {
        samples.push(value);
        i += 1;
        assert(samples@ =~= Seq::new(i as nat, |k: int| value));
    }
    Ok(samples)
}

fn decode_fixed(reader: &mut BitReader, block_size: usize, bps: u32, order: usize) -> (r: Result<
    Vec<i64>,
    FlacError,
>)
    requires
        old(reader).wf(),
        1 <= bps <= 33,
        order <= 4,
    ensures
        final(reader).wf(),
        final(reader).bytes() == old(reader).bytes(),
        final(reader).pos() >= old(reader).pos(),
        match spec_fixed(old(reader).bytes(), old(reader).pos(), block_size as nat, bps, order as nat) {
            Ok((v, p)) => r is Ok && r->Ok_0@ == v && final(reader).pos() == p,
            Err(e) => r is Err && r->Err_0@ == e,
        },
{
    if order > block_size {
        return Err(corrupt("fixed predictor order exceeds block size"));
    }
    // Warmup samples stored verbatim.
    let mut samples: Vec<i64> = Vec::new();
    match read_wide_run(reader, order, bps, &mut samples) {
        Ok(()) => {},
        Err(e) => return Err(e),
    }
    proof {
        lemma_wide_run_len(old(reader).bytes(), old(reader).pos(), order as nat, bps, Seq::empty());
    }
    let residual = match read_residual(reader, block_size, order) {
        Ok(r) => r,
        Err(e) => return Err(e),
    };
    restore_fixed(&mut samples, residual.as_slice(), order);
    Ok(samples)
}

fn decode_lpc(reader: &mut BitReader, block_size: usize, bps: u32, order: usize) -> (r: Result<
    Vec<i64>,
    FlacError,
>)
    requires
        old(reader).wf(),
        1 <= bps <= 33,
    ensures
        final(reader).wf(),
        final(reader).bytes() == old(reader).bytes(),
        final(reader).pos() >= old(reader).pos(),
        match spec_lpc(old(reader).bytes(), old(reader).pos(), block_size as nat, bps, order as nat) {
            Ok((v, p)) => r is Ok && r->Ok_0@ == v && final(reader).pos() == p,
            Err(e) => r is Err && r->Err_0@ == e,
        },
{
    if order as u64 > MAX_LPC_ORDER as u64 || order > block_size {
        return Err(corrupt("LPC order exceeds the cap or block size"));
    }
    let mut samples: Vec<i64> = Vec::new();
    match read_wide_run(reader, order, bps, &mut samples) {
        Ok(()) => {},
        Err(e) => return Err(e),
    }
    let ghost d = reader.bytes();
    let ghost p1 = reader.pos();
    proof {
        vstd::arithmetic::power2::lemma2_to64();
        crate::bits::lemma_bits_val_bound(d, p1, 4);
    }

    // Quantised linear-predictor coefficients.
    proof {
        crate::bits::lemma_bits_val_bound(d, p1 + 4, 5);
    }
    let precision = match reader.read_u32(4) {
        Ok(v) => v + 1,
        Err(e) => return Err(e),
    };
    if precision > 32 {
        return Err(corrupt("invalid LPC coefficient precision"));
    }
    let shift = match reader.read_signed(5) {
        Ok(v) => v,
        Err(e) => return Err(e),
    };
    if shift < 0 {
        return Err(corrupt("negative LPC shift is not supported"));
    }
    proof {
        crate::bits::lemma_bits_val_bound(d, p1 + 4, 5);
    }
    let mut coeffs: Vec<i64> = Vec::new();
    let ghost p2 = reader.pos();
    match read_escaped_run(reader, order, precision, &mut coeffs) {
        Ok(()) => {},
        Err(e) => return Err(e),
    }
    proof {
        lemma_wide_run_len(old(reader).bytes(), old(reader).pos(), order as nat, bps, Seq::empty());
        lemma_escaped_run_len(d, p2, order as nat, precision, Seq::empty());
    }
    let residual = match read_residual(reader, block_size, order) {
        Ok(r) => r,
        Err(e) => return Err(e),
    };
    restore_lpc(&mut samples, coeffs.as_slice(), residual.as_slice(), shift as u32);
    Ok(samples)
}

/// The wasted-bits restore of the subframe at `pos` would shift a
/// non-empty block of samples by 64 bits or more: possible only for a
/// declared depth of 65 or more.
pub open spec fn wasted_shift_overflows(d: Seq<u8>, pos: int, n: nat, bps: nat) -> bool {
    &&& avail(d, pos, 8)
    &&& bits_val(d, pos, 1) == 0
    &&& bits_val(d, pos + 7, 1) == 1
    &&& match spec_read_unary(d, pos + 8) {
        Ok((u, p)) => {
            let w = u + 1;
            &&& 64 <= w <= bps
            &&& 1 <= bps - w <= 33
            &&& match spec_subframe_body(d, p, n, (bps - w) as u32, bits_val(d, pos + 1, 6)) {
                Ok((smp, _)) => smp.len() > 0,
                Err(_) => false,
            }
        },
        Err(_) => false,
    }
}

#[verifier::spinoff_prover]
pub fn decode_subframe(reader: &mut BitReader, block_size: usize, bits_per_sample: u32) -> (r:
    Result<Vec<i64>, FlacError>)
    requires
        old(reader).wf(),
        bits_per_sample <= 255,
        !wasted_shift_overflows(
            old(reader).bytes(),
            old(reader).pos(),
            block_size as nat,
            bits_per_sample as nat,
        ),
    ensures
        final(reader).wf(),
        final(reader).bytes() == old(reader).bytes(),
        final(reader).pos() >= old(reader).pos(),
        match spec_subframe(old(reader).bytes(), old(reader).pos(), block_size as nat, bits_per_sample as nat) {
            Ok((v, p)) => r is Ok && r->Ok_0@ == v && final(reader).pos() == p,
            Err(e) => r is Err && r->Err_0@ == e,
        },
{
    let ghost d = reader.bytes();
    let ghost pos = reader.pos();
    proof {
        vstd::arithmetic::power2::lemma2_to64();
        crate::bits::lemma_bits_val_bound(d, pos, 1);
        crate::bits::lemma_bits_val_bound(d, pos + 1, 6);
        crate::bits::lemma_bits_val_bound(d, pos + 7, 1);
    }
    // Subframe header: a zero padding bit, 6 type bits, a wasted-bits flag.
    let pad = match reader.read_u32(1) {
        Ok(v) => v,
        Err(e) => return Err(e),
    };
    if pad != 0 {
        return Err(corrupt("subframe padding bit was not zero"));
    }
    let type_code = match reader.read_u32(6) {
        Ok(v) => v,
        Err(e) => return Err(e),
    };
    let wasted_flag = match reader.read_u32(1) {
        Ok(v) => v,
        Err(e) => return Err(e),
    };
    let wasted_bits: u32 = if wasted_flag == 1 {
        // Unary count of zeros, plus one.
        match reader.read_unary() {
            Ok(u) => u + 1,
            Err(e) => return Err(e),
        }
    } else {
        0
    };

    // Effective bit depth after removing the wasted low bits. The cap is 33,
    // not 32: a side channel of a 32-bit stream carries one extra bit.
    if wasted_bits > bits_per_sample {
        return Err(corrupt("wasted bits exceed sample depth"));
    }
    let bps = bits_per_sample - wasted_bits;
    if bps == 0 || bps > 33 {
        return Err(corrupt("effective sample depth out of range"));
    }

    let mut samples = if type_code == 0 {
        match decode_constant(reader, block_size, bps) {
            Ok(s) => s,
            Err(e) => return Err(e),
        }
    } else if type_code == 1 {
        match decode_verbatim(reader, block_size, bps) {
            Ok(s) => s,
            Err(e) => return Err(e),
        }
    } else if 8 <= type_code && type_code <= 12 {
        // 0b001000..=0b001100: fixed predictor, order in the low three bits.
        match decode_fixed(reader, block_size, bps, (type_code - 8) as usize) {
            Ok(s) => s,
            Err(e) => return Err(e),
        }
    } else if 32 <= type_code && type_code <= 63 {
        // 0b100000..=0b111111: LPC, order = low five bits + 1.
        match decode_lpc(reader, block_size, bps, (type_code - 31) as usize) {
            Ok(s) => s,
            Err(e) => return Err(e),
        }
    } else {
        let mut why = "reserved subframe type code ".to_owned();
        push_number(&mut why, type_code as u64);
        return Err(FlacError::CorruptStream(why));
    };

    if wasted_bits > 0 && samples.len() > 0 {
        // Samples are i64 here, so for a valid stream this shift cannot lose
        // a value: the effective depth and the wasted bits add up to the
        // declared depth, at most 33.
        let ghost before = samples@;
        let mut i: usize = 0;
        while i < samples.len()
            invariant
                0 < wasted_bits < 64,
                i <= samples@.len(),
                samples@.len() == before.len(),
                forall|k: int| 0 <= k < i ==> samples@[k] == before[k].wrapping_shl(wasted_bits),
                forall|k: int| i <= k < samples@.len() ==> samples@[k] == before[k],
            decreases samples@.len() - i,
        {
            let v = samples[i].wrapping_shl(wasted_bits);
            samples.set(i, v);
            i += 1;
        }
        assert(samples@ =~= Seq::new(before.len(), |k: int| before[k].wrapping_shl(wasted_bits)));
    }
    Ok(samples)
}

/// The samples of each channel, as sequences.
pub open spec fn deep(v: Seq<Vec<i64>>) -> Seq<Seq<i64>> {
    Seq::new(v.len(), |i: int| v[i]@)
}

/// The mid channel doubled, with the bit the halving dropped restored from
/// the side channel's parity.
pub open spec fn mid2(m: i64, s: i64) -> i64 {
    m.wrapping_shl(1) | (s & 1i64)
}

/// Undoing an inter-channel transform.
pub open spec fn spec_undo(a: ChannelAssignment, ch: Seq<Seq<i64>>) -> Seq<Seq<i64>> {
    match a {
        ChannelAssignment::Independent(_) => ch,
        ChannelAssignment::LeftSide => ch.update(
            1,
            Seq::new(ch[0].len(), |i: int| ch[0][i].wrapping_sub(ch[1][i])),
        ),
        ChannelAssignment::RightSide => ch.update(
            0,
            Seq::new(ch[1].len(), |i: int| ch[1][i].wrapping_add(ch[0][i])),
        ),
        ChannelAssignment::MidSide => ch.update(
            0,
            Seq::new(
                ch[0].len(),
                |i: int| mid2(ch[0][i], ch[1][i]).wrapping_add(ch[1][i]).wrapping_shr(1),
            ),
        ).update(
            1,
            Seq::new(
                ch[0].len(),
                |i: int| mid2(ch[0][i], ch[1][i]).wrapping_sub(ch[1][i]).wrapping_shr(1),
            ),
        ),
    }
}

/// Undo the inter-channel transform of a frame in place.
pub fn undo_channel_decorrelation(assignment: ChannelAssignment, channels: &mut Vec<Vec<i64>>)
    requires
        !(assignment is Independent) ==> old(channels)@.len() >= 2 && old(channels)@[0]@.len()
            == old(channels)@[1]@.len(),
    ensures
        deep(final(channels)@) == spec_undo(assignment, deep(old(channels)@)),
{
    let ghost ch = deep(channels@);
    match assignment {
        ChannelAssignment::Independent(_) => {},
        ChannelAssignment::LeftSide => {
            // ch0 = left, ch1 = side = left - right -> right = left - side.
            let n = channels[0].len();
            let mut i: usize = 0;
            while i < n
                invariant
                    channels@.len() == ch.len(),
                    ch.len() >= 2,
                    forall|c: int| 2 <= c < ch.len() ==> #[trigger] channels@[c]@ == ch[c],
                    n == ch[0].len(),
                    n == ch[1].len(),
                    i <= n,
                    channels@[0]@ == ch[0],
                    channels@[1]@.len() == n,
                    forall|k: int| 0 <= k < i ==> channels@[1]@[k] == ch[0][k].wrapping_sub(ch[1][k]),
                    forall|k: int| i <= k < n ==> channels@[1]@[k] == ch[1][k],
                decreases n - i,
            {
                let left = channels[0][i];
                let side = channels[1][i];
                channels[1].set(i, left.wrapping_sub(side));
                i += 1;
            }
            assert(channels@[1]@ =~= Seq::new(ch[0].len(), |k: int| ch[0][k].wrapping_sub(ch[1][k])));
            assert(deep(channels@) =~= spec_undo(assignment, ch));
        },
        ChannelAssignment::RightSide => {
            // ch0 = side = left - right, ch1 = right -> left = right + side.
            let n = channels[1].len();
            let mut i: usize = 0;
            while i < n
                invariant
                    channels@.len() == ch.len(),
                    ch.len() >= 2,
                    forall|c: int| 2 <= c < ch.len() ==> #[trigger] channels@[c]@ == ch[c],
                    n == ch[0].len(),
                    n == ch[1].len(),
                    i <= n,
                    channels@[1]@ == ch[1],
                    channels@[0]@.len() == n,
                    forall|k: int| 0 <= k < i ==> channels@[0]@[k] == ch[1][k].wrapping_add(ch[0][k]),
                    forall|k: int| i <= k < n ==> channels@[0]@[k] == ch[0][k],
                decreases n - i,
            {
                let side = channels[0][i];
                let right = channels[1][i];
                channels[0].set(i, right.wrapping_add(side));
                i += 1;
            }
            assert(channels@[0]@ =~= Seq::new(ch[1].len(), |k: int| ch[1][k].wrapping_add(ch[0][k])));
            assert(deep(channels@) =~= spec_undo(assignment, ch));
        },
        ChannelAssignment::MidSide => {
            // ch0 = mid = (left+right)>>1, ch1 = side = left-right.
            let n = channels[0].len();
            let mut i: usize = 0;
            while i < n
                invariant
                    channels@.len() == ch.len(),
                    ch.len() >= 2,
                    forall|c: int| 2 <= c < ch.len() ==> #[trigger] channels@[c]@ == ch[c],
                    n == ch[0].len(),
                    n == ch[1].len(),
                    i <= n,
                    channels@[0]@.len() == n,
                    channels@[1]@.len() == n,
                    forall|k: int|
                        0 <= k < i ==> channels@[0]@[k] == mid2(ch[0][k], ch[1][k]).wrapping_add(
                            ch[1][k],
                        ).wrapping_shr(1),
                    forall|k: int|
                        0 <= k < i ==> channels@[1]@[k] == mid2(ch[0][k], ch[1][k]).wrapping_sub(
                            ch[1][k],
                        ).wrapping_shr(1),
                    forall|k: int| i <= k < n ==> channels@[0]@[k] == ch[0][k],
                    forall|k: int| i <= k < n ==> channels@[1]@[k] == ch[1][k],
                decreases n - i,
            {
                let mid = channels[0][i];
                let side = channels[1][i];
                // Recover the bit lost in the mid right-shift from the side parity.
                let m2 = mid.wrapping_shl(1) | (side & 1);
                channels[0].set(i, m2.wrapping_add(side).wrapping_shr(1));
                channels[1].set(i, m2.wrapping_sub(side).wrapping_shr(1));
                i += 1;
            }
            assert(channels@[0]@ =~= Seq::new(
                ch[0].len(),
                |k: int| mid2(ch[0][k], ch[1][k]).wrapping_add(ch[1][k]).wrapping_shr(1),
            ));
            assert(channels@[1]@ =~= Seq::new(
                ch[0].len(),
                |k: int| mid2(ch[0][k], ch[1][k]).wrapping_sub(ch[1][k]).wrapping_shr(1),
            ));
            assert(deep(channels@) =~= spec_undo(assignment, ch));
        },
    }
}

/// Undoing a transform keeps the number of channels and their lengths.
pub proof fn lemma_undo_shape(a: ChannelAssignment, ch: Seq<Seq<i64>>, n: nat)
    requires
        ch.len() == spec_channel_count(a),
        forall|k: int| 0 <= k < ch.len() ==> (#[trigger] ch[k]).len() == n,
    ensures
        spec_undo(a, ch).len() == ch.len(),
        forall|k: int| 0 <= k < ch.len() ==> (#[trigger] spec_undo(a, ch)[k]).len() == n,
{
    if !(a is Independent) {
        assert(ch[0].len() == n);
        assert(ch[1].len() == n);
    }
}

/// Reading the subframes of channels `ch` onward.
pub open spec fn spec_subframes(
    d: Seq<u8>,
    pos: int,
    h: FrameHeader,
    ch: nat,
    nch: nat,
    acc: Seq<Seq<i64>>,
) -> SpecResult<Seq<Seq<i64>>>
    decreases nch - ch,
{
    if ch >= nch {
        Ok((acc, pos))
    } else {
        match spec_subframe(
            d,
            pos,
            h.block_size as nat,
            spec_subframe_bps(h.channel_assignment, ch as int, h.bits_per_sample),
        ) {
            Err(e) => Err(e),
            Ok((s, p)) => spec_subframes(d, p, h, ch + 1, nch, acc.push(s)),
        }
    }
}

/// Decoding one frame at byte-aligned bit `pos` of a stream with `nch`
/// channels: the decorrelated samples of every channel.
#[verifier::opaque]
pub open spec fn spec_frame(d: Seq<u8>, pos: int, stream_bps: u8, nch: nat) -> SpecResult<
    Seq<Seq<i64>>,
> {
    if pos % 8 != 0 {
        Err(ErrorView::CorruptStream("frame did not start on a byte boundary"@))
    } else {
        match spec_frame_header(d, pos, stream_bps) {
            Err(e) => Err(e),
            Ok((h, p1)) => if !avail(d, p1, 8) {
                Err(ErrorView::Truncated)
            } else if bits_val(d, p1, 8) != spec_crc8(d.subrange(pos / 8, p1 / 8)) {
                Err(ErrorView::CrcMismatch)
            } else if nch != spec_channel_count(h.channel_assignment) {
                Err(ErrorView::CorruptStream("frame channel count differs from the stream"@))
            } else {
                match spec_subframes(d, p1 + 8, h, 0, nch, Seq::empty()) {
                    Err(e) => Err(e),
                    Ok((chs, p2)) => {
                        let p3 = align_up(p2);
                        if !avail(d, p3, 16) {
                            Err(ErrorView::Truncated)
                        } else if bits_val(d, p3, 16) != spec_crc16(d.subrange(pos / 8, p3 / 8)) {
                            Err(ErrorView::CrcMismatch)
                        } else {
                            Ok((spec_undo(h.channel_assignment, chs), p3 + 16))
                        }
                    },
                }
            },
        }
    }
}

/// Narrowing decoded samples to 32 bits.
pub open spec fn narrow(s: Seq<i64>) -> Seq<i32> {
    Seq::new(s.len(), |i: int| s[i] as i32)
}

/// A successful subframe run yields one subframe of `n` samples per channel.
pub proof fn lemma_subframes_shape(
    d: Seq<u8>,
    pos: int,
    h: FrameHeader,
    ch: nat,
    nch: nat,
    acc: Seq<Seq<i64>>,
)
    ensures
        spec_subframes(d, pos, h, ch, nch, acc) matches Ok((v, _)) ==> ch <= nch ==> v.len() == acc.len()
            + nch - ch && forall|k: int|
            0 <= k < acc.len() ==> v[k] == acc[k],
    decreases nch - ch,
{
    if ch < nch {
        if let Ok((s, p)) = spec_subframe(
            d,
            pos,
            h.block_size as nat,
            spec_subframe_bps(h.channel_assignment, ch as int, h.bits_per_sample),
        ) {
            lemma_subframes_shape(d, p, h, ch + 1, nch, acc.push(s));
            if let Ok((v, _)) = spec_subframes(d, p, h, ch + 1, nch, acc.push(s)) {
                assert forall|k: int| 0 <= k < acc.len() implies v[k] == acc[k] by {
                    assert(acc.push(s)[k] == acc[k]);
                }
            }
        }
    }
}

/// A successful partition walk appends the declared number of residuals.
pub proof fn lemma_partitions_len(
    d: Seq<u8>,
    pos: int,
    p: nat,
    parts: nat,
    plen: nat,
    order: nat,
    pbits: u32,
    acc: Seq<i64>,
)
    requires
        p <= parts,
    ensures
        spec_partitions(d, pos, p, parts, plen, order, pbits, acc) matches Ok((v, _)) ==> v.len()
            == acc.len() + (parts - p) * plen - (if p == 0 && parts > 0 {
            order
        } else {
            0
        }),
    decreases parts - p,
{
    if p < parts && !(p == 0 && plen < order) && avail(d, pos, pbits as int) {
        let count: nat = if p == 0 {
            (plen - order) as nat
        } else {
            plen
        };
        let param = bits_val(d, pos, pbits as nat) as u32;
        let escape: u32 = if pbits == 4 {
            15
        } else {
            31
        };
        assert((parts - p) * plen == plen + (parts - (p + 1)) * plen) by (nonlinear_arith)
            requires
                p < parts,
        ;
        if param == escape {
            if avail(d, pos + pbits, 5) {
                let raw = bits_val(d, pos + pbits, 5) as u32;
                lemma_escaped_run_len(d, pos + pbits + 5, count, raw, acc);
                match spec_escaped_run(d, pos + pbits + 5, count, raw, acc) {
                    Ok((acc2, p2)) => {
                        lemma_partitions_len(d, p2, p + 1, parts, plen, order, pbits, acc2);
                        assert(spec_partitions(d, pos, p, parts, plen, order, pbits, acc)
                            == spec_partitions(d, p2, p + 1, parts, plen, order, pbits, acc2));
                    },
                    Err(_) => {},
                }
            }
        } else {
            lemma_rice_run_len(d, pos + pbits, count, param, acc);
            match spec_rice_run(d, pos + pbits, count, param, acc) {
                Ok((acc2, p2)) => {
                    lemma_partitions_len(d, p2, p + 1, parts, plen, order, pbits, acc2);
                    assert(spec_partitions(d, pos, p, parts, plen, order, pbits, acc)
                        == spec_partitions(d, p2, p + 1, parts, plen, order, pbits, acc2));
                },
                Err(_) => {},
            }
        }
    } else if p >= parts {
        assert((parts - p) * plen == 0) by (nonlinear_arith)
            requires
                p == parts,
        ;
    }
}

/// A successful residual read yields the samples after the warmup.
pub proof fn lemma_residual_len(d: Seq<u8>, pos: int, n: nat, order: nat)
    ensures
        spec_residual(d, pos, n, order) matches Ok((v, _)) ==> v.len() + order == n,
{
    if avail(d, pos, 6) && bits_val(d, pos, 2) < 2 {
        let po = bits_val(d, pos + 2, 4);
        let parts = vstd::arithmetic::power2::pow2(po);
        vstd::arithmetic::power2::lemma_pow2_pos(po);
        if n % parts == 0 {
            let pbits: u32 = if bits_val(d, pos, 2) == 0 {
                4
            } else {
                5
            };
            lemma_partitions_len(d, pos + 6, 0, parts, n / parts, order, pbits, Seq::empty());
            vstd::arithmetic::div_mod::lemma_fundamental_div_mod(n as int, parts as int);
            assert(parts * (n / parts) == (parts - 0) * (n / parts));
        }
    }
}

/// Restoring appends one sample per residual.
pub proof fn lemma_restore_fixed_len(s: Seq<i64>, res: Seq<i64>, order: nat, i: nat)
    requires
        i <= res.len(),
    ensures
        spec_restore_fixed(s, res, order, i).len() == s.len() + res.len() - i,
    decreases res.len() - i,
{
    if i < res.len() {
        lemma_restore_fixed_len(
            s.push(res[i as int].wrapping_add(fixed_pred(s, order))),
            res,
            order,
            i + 1,
        );
    }
}

/// Restoring appends one sample per residual.
pub proof fn lemma_restore_lpc_len(s: Seq<i64>, c: Seq<i64>, res: Seq<i64>, shift: u32, i: nat)
    requires
        i <= res.len(),
    ensures
        spec_restore_lpc(s, c, res, shift, i).len() == s.len() + res.len() - i,
    decreases res.len() - i,
{
    if i < res.len() {
        lemma_restore_lpc_len(
            s.push(res[i as int].wrapping_add(lpc_sum(c, s, c.len()).wrapping_shr(shift))),
            c,
            res,
            shift,
            i + 1,
        );
    }
}

/// A successful subframe holds exactly one block of samples.
pub proof fn lemma_subframe_len(d: Seq<u8>, pos: int, n: nat, bps: nat)
    ensures
        spec_subframe(d, pos, n, bps) matches Ok((v, _)) ==> v.len() == n,
{
    if avail(d, pos, 8) && bits_val(d, pos, 1) == 0 {
        let t = bits_val(d, pos + 1, 6);
        let flag = bits_val(d, pos + 7, 1);
        let wres: SpecResult<nat> = if flag == 1 {
            match spec_read_unary(d, pos + 8) {
                Err(e) => Err(e),
                Ok((u, p)) => Ok(((u + 1) as nat, p)),
            }
        } else {
            Ok((0nat, pos + 8))
        };
        if let Ok((w, p1)) = wres {
            if w <= bps && bps - w > 0 && bps - w <= 33 {
                let b = (bps - w) as u32;
                lemma_wide_run_len(d, p1, n, b, Seq::empty());
                if 8 <= t <= 12 {
                    let order = (t - 8) as nat;
                    lemma_wide_run_len(d, p1, order, b, Seq::empty());
                    if let Ok((wu, q1)) = spec_wide_run(d, p1, order, b, Seq::empty()) {
                        lemma_residual_len(d, q1, n, order);
                        if let Ok((r, q2)) = spec_residual(d, q1, n, order) {
                            lemma_restore_fixed_len(wu, r, order, 0);
                        }
                    }
                } else if 32 <= t <= 63 {
                    let order = (t - 31) as nat;
                    lemma_wide_run_len(d, p1, order, b, Seq::empty());
                    if let Ok((wu, q1)) = spec_wide_run(d, p1, order, b, Seq::empty()) {
                        if avail(d, q1, 9) {
                            let prec = bits_val(d, q1, 4) + 1;
                            let shift = crate::bits::sign_extend(bits_val(d, q1 + 4, 5), 5);
                            lemma_escaped_run_len(d, q1 + 9, order, prec as u32, Seq::empty());
                            if let Ok((c, q2)) = spec_escaped_run(
                                d,
                                q1 + 9,
                                order,
                                prec as u32,
                                Seq::empty(),
                            ) {
                                lemma_residual_len(d, q2, n, order);
                                if let Ok((r, q3)) = spec_residual(d, q2, n, order) {
                                    lemma_restore_lpc_len(wu, c, r, shift as u32, 0);
                                }
                            }
                        }
                    }
                }
            }
        }
    }
}

/// Decode the subframes of every channel of a frame.
pub fn decode_subframes(reader: &mut BitReader, header: &FrameHeader, nch: usize) -> (r: Result<
    Vec<Vec<i64>>,
    FlacError,
>)
    requires
        old(reader).wf(),
        1 <= header.block_size <= MAX_BLOCK_SIZE,
        header.bits_per_sample <= 32,
    ensures
        final(reader).wf(),
        final(reader).bytes() == old(reader).bytes(),
        final(reader).pos() >= old(reader).pos(),
        match spec_subframes(old(reader).bytes(), old(reader).pos(), *header, 0, nch as nat, Seq::empty()) {
            Ok((v, p)) => {
                &&& r is Ok
                &&& deep(r->Ok_0@) == v
                &&& final(reader).pos() == p
                &&& v.len() == nch
                &&& forall|k: int| 0 <= k < nch ==> (#[trigger] v[k]).len() == header.block_size
            },
            Err(e) => r is Err && r->Err_0@ == e,
        },
{
    let ghost d = reader.bytes();
    let n = header.block_size as usize;
    let mut decoded: Vec<Vec<i64>> = Vec::new();
    let mut ch: usize = 0;
    assert(deep(decoded@) =~= Seq::<Seq<i64>>::empty());
    while ch < nch
        invariant
            reader.wf(),
            reader.bytes() == d,
            d == old(reader).bytes(),
            reader.pos() >= old(reader).pos(),
            ch <= nch,
            decoded@.len() == ch,
            n == header.block_size,
            1 <= n <= MAX_BLOCK_SIZE,
            header.bits_per_sample <= 32,
            forall|k: int| 0 <= k < ch ==> (#[trigger] decoded@[k])@.len() == n,
            spec_subframes(d, old(reader).pos(), *header, 0, nch as nat, Seq::empty())
                == spec_subframes(d, reader.pos(), *header, ch as nat, nch as nat, deep(decoded@)),
        decreases nch - ch,
    {
        let bps = subframe_bits_per_sample(header.channel_assignment, ch, header.bits_per_sample);
        let ghost pc = reader.pos();
        let sub = match decode_subframe(reader, n, bps) {
            Ok(s) => s,
            Err(e) => return Err(e),
        };
        proof {
            lemma_subframe_len(d, pc, n as nat, bps as nat);
        }
        let ghost before = deep(decoded@);
        decoded.push(sub);
        assert(deep(decoded@) =~= before.push(sub@));
        ch += 1;
    }
    Ok(decoded)
}

/// `Vec::reserve_exact` from std: grows the capacity to hold `additional`
/// more elements without over-allocating. The contents are unchanged; std
/// panics only when the new capacity would exceed `isize::MAX` bytes, which
/// the bound excludes.
#[verifier::external_body]
fn reserve_exact(v: &mut Vec<i32>, additional: usize)
    requires
        (old(v)@.len() + additional) * 4 <= isize::MAX,
    ensures
        final(v)@ == old(v)@,
{
    v.reserve_exact(additional);
}

/// Append the narrowed samples of `src` to `dst`. Room is reserved exactly,
/// so a buffer approaching the decode cap does not double past it.
pub fn extend_narrowed(dst: &mut Vec<i32>, src: &Vec<i64>)
    ensures
        final(dst)@ == old(dst)@ + narrow(src@),
{
    let room: usize = (isize::MAX as usize) / 4;
    if dst.len() <= room && src.len() <= room - dst.len() {
        reserve_exact(dst, src.len());
    }
    let mut i: usize = 0;
    while i < src.len()
        invariant
            i <= src@.len(),
            dst@ == old(dst)@ + narrow(src@).take(i as int),
        decreases src@.len() - i,
    {
        let v = src[i] as i32;
        dst.push(v);
        i += 1;
        assert(narrow(src@).take(i as int) =~= narrow(src@).take((i - 1) as int).push(v));
    }
    assert(narrow(src@).take(src@.len() as int) =~= narrow(src@));
}

/// Append every channel of `decoded`, narrowed, to the matching channel of
/// `out`.
pub fn append_narrowed(out: &mut Vec<Vec<i32>>, decoded: &Vec<Vec<i64>>)
    requires
        old(out)@.len() == decoded@.len(),
    ensures
        final(out)@.len() == old(out)@.len(),
        forall|c: int|
            0 <= c < decoded@.len() ==> #[trigger] final(out)@[c]@ == old(out)@[c]@ + narrow(
                decoded@[c]@,
            ),
{
    let nch = decoded.len();
    let mut c: usize = 0;
    while c < nch
        invariant
            c <= nch,
            nch == decoded@.len(),
            out@.len() == nch,
            old(out)@.len() == nch,
            forall|k: int| 0 <= k < c ==> #[trigger] out@[k]@ == old(out)@[k]@ + narrow(decoded@[k]@),
            forall|k: int| c <= k < nch ==> #[trigger] out@[k] == old(out)@[k],
        decreases nch - c,
    {
        extend_narrowed(&mut out[c], &decoded[c]);
        c += 1;
    }
}

/// Decode one frame, appending its samples to `out` (one vector per channel).
///
/// `out` must already have one vector per channel. Returns the number of
/// samples per channel that this frame contributed.
#[verifier::rlimit(80)]
#[verifier::spinoff_prover]
pub fn decode_frame(reader: &mut BitReader, stream_info: &StreamInfo, out: &mut Vec<Vec<i32>>) -> (r:
    Result<usize, FlacError>)
    requires
        old(reader).wf(),
        stream_info.bits_per_sample <= 32,
    ensures
        final(reader).wf(),
        final(reader).bytes() == old(reader).bytes(),
        final(reader).pos() >= old(reader).pos(),
        match spec_frame(
            old(reader).bytes(),
            old(reader).pos(),
            stream_info.bits_per_sample,
            old(out)@.len(),
        ) {
            Ok((chs, p)) => {
                &&& r is Ok
                &&& final(reader).pos() == p
                &&& p >= old(reader).pos() + 16
                &&& final(out)@.len() == old(out)@.len()
                &&& chs.len() == old(out)@.len()
                &&& forall|c: int| 0 <= c < chs.len() ==> #[trigger] chs[c].len() == r->Ok_0
                &&& 1 <= r->Ok_0 <= MAX_BLOCK_SIZE
                &&& forall|c: int|
                    0 <= c < chs.len() ==> #[trigger] final(out)@[c]@ == old(out)@[c]@ + narrow(
                        chs[c],
                    )
            },
            Err(e) => r is Err && r->Err_0@ == e && final(out)@ == old(out)@,
        },
{
    reveal(spec_frame);
    let ghost d = reader.bytes();
    let ghost pos = reader.pos();
    if !reader.is_byte_aligned() {
        return Err(corrupt("frame did not start on a byte boundary"));
    }
    let header_start = reader.byte_position();
    let header = match read_frame_header(reader, stream_info) {
        Ok(h) => h,
        Err(e) => return Err(e),
    };

    // The header is byte aligned by construction; the CRC-8 is the next byte.
    let header_end = reader.byte_position();
    let ghost p1 = reader.pos();
    proof {
        vstd::arithmetic::power2::lemma2_to64();
        crate::bits::lemma_bits_val_bound(d, p1, 8);
    }
    let crc_stored = match reader.read_u32(8) {
        Ok(v) => v as u8,
        Err(e) => return Err(e),
    };
    let crc_calc = crc8(&reader.data()[header_start..header_end]);
    if crc_stored != crc_calc {
        return Err(FlacError::CrcMismatch);
    }

    let n = header.block_size as usize;
    if out.len() != channel_count(header.channel_assignment) as usize {
        return Err(corrupt("frame channel count differs from the stream"));
    }

    // Decode each channel's subframe. Side channels carry one extra bit, so the
    // sample plane is i64 until the inter-channel transform is undone; only then
    // does every channel fit back into i32.
    let nch = out.len();
    let mut decoded = match decode_subframes(reader, &header, nch) {
        Ok(v) => v,
        Err(e) => return Err(e),
    };
    let ghost chs = deep(decoded@);

    undo_channel_decorrelation(header.channel_assignment, &mut decoded);

    // Whole-frame CRC-16 over every byte from the header start to here.
    reader.align_to_byte();
    let frame_end = reader.byte_position();
    let ghost p3 = reader.pos();
    proof {
        crate::bits::lemma_bits_val_bound(d, p3, 16);
    }
    let crc16_stored = match reader.read_u32(16) {
        Ok(v) => v as u16,
        Err(e) => return Err(e),
    };
    let crc16_calc = crc16(&reader.data()[header_start..frame_end]);
    if crc16_stored != crc16_calc {
        return Err(FlacError::CrcMismatch);
    }

    // Narrow back to i32 for output. After decorrelation each channel holds
    // values within the stream's declared bit depth (at most 32 bits), so the
    // cast is lossless for any valid stream; a stream where it is not is caught
    // by the STREAMINFO MD5 self-check.
    proof {
        lemma_undo_shape(header.channel_assignment, chs, n as nat);
    }
    append_narrowed(out, &decoded);
    Ok(n)
}

} // verus!
