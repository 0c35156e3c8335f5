// The stream header: the `fLaC` marker and the metadata block chain.
//
// A FLAC stream opens with the four bytes `fLaC`, then one or more metadata
// blocks. The first block is always STREAMINFO and carries everything the
// decoder needs. Every other block type is skipped here. The audio frames
// begin on the byte after the block whose "last" flag is set.

use crate::bits::bits_val;
use crate::bitstream::BitReader;
use crate::error::{decimal, numbered, ErrorView, FlacError, corrupt};
use vstd::prelude::*;

verus! {

/// The fixed length of a STREAMINFO block body.
pub const STREAMINFO_LEN: usize = 34;

/// The four bytes `fLaC` open a native FLAC stream.
pub open spec fn starts_with_marker(b: Seq<u8>) -> bool {
    &&& b.len() >= 4
    &&& b[0] == 0x66u8
    &&& b[1] == 0x4Cu8
    &&& b[2] == 0x61u8
    &&& b[3] == 0x43u8
}

/// The contents of the STREAMINFO metadata block.
#[derive(Debug, Clone, PartialEq, Eq)]
pub struct StreamInfo {
    pub min_block_size: u16,
    pub max_block_size: u16,
    pub min_frame_size: u32,
    pub max_frame_size: u32,
    pub sample_rate: u32,
    pub channels: u8,
    pub bits_per_sample: u8,
    /// Total samples per channel. Zero means the encoder did not record it.
    pub total_samples: u64,
    /// MD5 of the unencoded samples, or all zero if not recorded.
    pub md5: [u8; 16],
}

/// Result of reading the stream header: the STREAMINFO and the byte offset at
/// which the first audio frame begins.
#[derive(Debug)]
pub struct Header {
    pub stream_info: StreamInfo,
    pub frame_start: usize,
}

/// The STREAMINFO fields that a 34-byte body spells.
pub open spec fn stream_info_of(si: StreamInfo, body: Seq<u8>) -> bool {
    &&& si.min_block_size == bits_val(body, 0, 16)
    &&& si.max_block_size == bits_val(body, 16, 16)
    &&& si.min_frame_size == bits_val(body, 32, 24)
    &&& si.max_frame_size == bits_val(body, 56, 24)
    &&& si.sample_rate == bits_val(body, 80, 20)
    &&& si.channels == bits_val(body, 100, 3) + 1
    &&& si.bits_per_sample == bits_val(body, 103, 5) + 1
    &&& si.total_samples == bits_val(body, 108, 36)
    &&& si.md5@ == body.subrange(18, 34)
}

/// The fault, if any, in a 34-byte STREAMINFO body.
pub open spec fn stream_info_fault(body: Seq<u8>) -> Option<ErrorView> {
    if bits_val(body, 80, 20) == 0 {
        Some(ErrorView::CorruptStream("STREAMINFO sample rate is zero"@))
    } else {
        None
    }
}

/// The 24-bit big-endian length in a metadata block header at `pos`.
pub open spec fn block_len(b: Seq<u8>, pos: int) -> int {
    b[pos + 1] as int * 65536 + b[pos + 2] as int * 256 + b[pos + 3] as int
}

/// Walking the metadata block chain from the block header at `pos`, with
/// `si` the body offset of the STREAMINFO block if one has been seen. The
/// outcome is the STREAMINFO body offset and the first frame's offset.
pub open spec fn spec_blocks_from(b: Seq<u8>, pos: int, si: Option<int>) -> Result<
    (int, int),
    ErrorView,
>
    decreases b.len() - pos,
{
    if pos < 0 || pos + 4 > b.len() {
        Err(ErrorView::Truncated)
    } else {
        let h = b[pos];
        let last = h & 0x80u8 != 0;
        let t = h & 0x7Fu8;
        let len = block_len(b, pos);
        let p = pos + 4;
        if p + len > b.len() {
            Err(ErrorView::Truncated)
        } else if t == 0 && len != 34 {
            Err(
                ErrorView::CorruptStream(
                    "STREAMINFO length is "@ + decimal(len as nat) + ", expected 34"@,
                ),
            )
        } else if t == 0 && si is Some {
            Err(ErrorView::CorruptStream("more than one STREAMINFO block"@))
        } else if t == 0 && stream_info_fault(b.subrange(p, p + 34)) is Some {
            Err(stream_info_fault(b.subrange(p, p + 34))->Some_0)
        } else if t == 127 {
            Err(ErrorView::CorruptStream("invalid metadata block type 127"@))
        } else {
            let si2 = if t == 0 {
                Some(p)
            } else {
                si
            };
            if last {
                match si2 {
                    Some(o) => Ok((o, p + len)),
                    None => Err(ErrorView::CorruptStream("no STREAMINFO block found"@)),
                }
            } else {
                spec_blocks_from(b, p + len, si2)
            }
        }
    }
}

/// Parsing the stream header: the marker, then the metadata block chain.
pub open spec fn spec_header(b: Seq<u8>) -> Result<(int, int), ErrorView> {
    if !starts_with_marker(b) {
        Err(ErrorView::NotFlac)
    } else {
        spec_blocks_from(b, 4, None)
    }
}

/// The executable header agrees with the specification's outcome.
pub open spec fn header_agrees(r: Result<Header, FlacError>, b: Seq<u8>) -> bool {
    match spec_header(b) {
        Ok((o, fs)) => r is Ok && stream_info_of(r->Ok_0.stream_info, b.subrange(o, o + 34))
            && r->Ok_0.frame_start == fs && 0 <= o && o + 34 <= fs <= b.len(),
        Err(e) => r is Err && r->Err_0@ == e,
    }
}

proof fn lemma_block_len(b1: u8, b2: u8, b3: u8)
    ensures
        ((b1 as u32) << 16u32) | ((b2 as u32) << 8u32) | (b3 as u32) == b1 as int * 65536 + b2 as int
            * 256 + b3 as int,
{
    assert(((b1 as u32) << 16u32) | ((b2 as u32) << 8u32) | (b3 as u32) == (b1 as u32) * 65536 + (
    b2 as u32) * 256 + (b3 as u32)) by (bit_vector);
}

/// Parse the `fLaC` marker and the metadata block chain, returning STREAMINFO
/// and the offset of the first frame.
pub fn read_header(bytes: &[u8]) -> (r: Result<Header, FlacError>)
    ensures
        header_agrees(r, bytes@),
{
    if bytes.len() < 4 || bytes[0] != 0x66 || bytes[1] != 0x4C || bytes[2] != 0x61 || bytes[3]
        != 0x43 {
        return Err(FlacError::NotFlac);
    }
    let ghost b = bytes@;
    let mut pos: usize = 4;
    let mut stream_info: Option<StreamInfo> = None;
    let ghost mut si_off: Option<int> = None;

    loop
        invariant_except_break
            spec_header(b) == spec_blocks_from(b, pos as int, si_off),
        invariant
            b == bytes@,
            starts_with_marker(b),
            4 <= pos <= b.len(),
            si_off is Some <==> stream_info is Some,
            si_off matches Some(o) ==> 0 <= o && o + 34 <= pos && stream_info_of(
                stream_info->Some_0,
                b.subrange(o, o + 34),
            ),
        ensures
            spec_header(b) == (match si_off {
                Some(o) => Ok((o, pos as int)),
                None => Err(ErrorView::CorruptStream("no STREAMINFO block found"@)),
            }),
        decreases b.len() - pos,
    {
        // Each block header is 4 bytes: 1 last-block bit, 7 type bits, 24 length.
        if bytes.len() - pos < 4 {
            return Err(FlacError::Truncated);
        }
        let header = bytes[pos];
        let is_last = header & 0x80 != 0;
        let block_type = header & 0x7F;
        proof {
            lemma_block_len(bytes[pos + 1], bytes[pos + 2], bytes[pos + 3]);
        }
        let length = (((bytes[pos + 1] as u32) << 16u32) | ((bytes[pos + 2] as u32) << 8u32) | (
        bytes[pos + 3] as u32)) as usize;
        pos += 4;
        if bytes.len() - pos < length {
            return Err(FlacError::Truncated);
        }
        if block_type == 0 {
            // STREAMINFO.
            if length != STREAMINFO_LEN {
                return Err(FlacError::CorruptStream(
                    numbered("STREAMINFO length is ", length as u64, ", expected 34"),
                ));
            }
            if stream_info.is_some() {
                return Err(corrupt("more than one STREAMINFO block"));
            }
            match parse_stream_info(&bytes[pos..pos + length]) {
                Ok(si) => {
                    stream_info = Some(si);
                },
                Err(e) => {
                    return Err(e);
                },
            }
            proof {
                si_off = Some(pos as int);
            }
        } else if block_type == 127 {
            return Err(corrupt("invalid metadata block type 127"));
        }
        // All other block types are skipped.

        pos += length;
        if is_last {
            break;
        }
    }

    match stream_info {
        Some(si) => Ok(Header { stream_info: si, frame_start: pos }),
        None => Err(corrupt("no STREAMINFO block found")),
    }
}

/// Parse the 34-byte body of a STREAMINFO block.
pub fn parse_stream_info(body: &[u8]) -> (r: Result<StreamInfo, FlacError>)
    requires
        body@.len() == 34,
    ensures
        match stream_info_fault(body@) {
            Some(e) => r is Err && r->Err_0@ == e,
            None => r is Ok && stream_info_of(r->Ok_0, body@),
        },
{
    let mut r = BitReader::new(body);
    proof {
        vstd::arithmetic::power2::lemma2_to64();
        crate::bits::lemma_bits_val_bound(body@, 0, 16);
        crate::bits::lemma_bits_val_bound(body@, 16, 16);
        crate::bits::lemma_bits_val_bound(body@, 32, 24);
        crate::bits::lemma_bits_val_bound(body@, 56, 24);
        crate::bits::lemma_bits_val_bound(body@, 80, 20);
        crate::bits::lemma_bits_val_bound(body@, 100, 3);
        crate::bits::lemma_bits_val_bound(body@, 103, 5);
        crate::bits::lemma_bits_val_bound(body@, 108, 36);
        vstd::arithmetic::power2::lemma2_to64_rest();
    }
    let min_block_size = match r.read_u32(16) {
        Ok(v) => v as u16,
        Err(e) => return Err(e),
    };
    let max_block_size = match r.read_u32(16) {
        Ok(v) => v as u16,
        Err(e) => return Err(e),
    };
    let min_frame_size = match r.read_u32(24) {
        Ok(v) => v,
        Err(e) => return Err(e),
    };
    let max_frame_size = match r.read_u32(24) {
        Ok(v) => v,
        Err(e) => return Err(e),
    };
    let sample_rate = match r.read_u32(20) {
        Ok(v) => v,
        Err(e) => return Err(e),
    };
    let channels = match r.read_u32(3) {
        Ok(v) => v as u8 + 1,
        Err(e) => return Err(e),
    };
    let bits_per_sample = match r.read_u32(5) {
        Ok(v) => v as u8 + 1,
        Err(e) => return Err(e),
    };
    let total_samples = match r.read_u64(36) {
        Ok(v) => v,
        Err(e) => return Err(e),
    };
    let mut md5 = [0u8; 16];
    let mut i: usize = 0;
    while i < 16
        invariant
            i <= 16,
            body@.len() == 34,
            forall|j: int| 0 <= j < i ==> md5@[j] == body@[18 + j],
        decreases 16 - i,
    {
        md5[i] = body[18 + i];
        i += 1;
    }
    assert(md5@ =~= body@.subrange(18, 34));

    if sample_rate == 0 {
        return Err(corrupt("STREAMINFO sample rate is zero"));
    }

    Ok(
        StreamInfo {
            min_block_size,
            max_block_size,
            min_frame_size,
            max_frame_size,
            sample_rate,
            channels,
            bits_per_sample,
            total_samples,
            md5,
        },
    )
}

} // verus!
