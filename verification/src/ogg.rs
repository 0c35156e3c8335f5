// Ogg encapsulation for FLAC (the `.oga` form).
//
// The native `.flac` stream is `fLaC` then metadata blocks then audio frames,
// back to back. The Ogg form wraps that same FLAC data inside the generic Ogg
// container: the FLAC bytes are cut into packets, packets are grouped into
// pages, and every page carries a header with the magic `OggS`, a granule
// (sample) position, a stream serial number, a sequence number, a checksum,
// and a table that says where each packet begins and ends.
//
// Each audio frame is exactly one Ogg packet and each metadata block is one
// packet, so decoding is "demux the pages back into the FLAC byte
// stream, then hand it to the native decoder". Encoding is the reverse.
//
// This module parses untrusted bytes: every field is bounds-checked and every
// page checksum of the FLAC stream is verified.

use crate::crc::{ogg_crc32, spec_ogg_crc32};
use crate::encoder::extend_bytes;
use crate::error::{decimal, push_number, ErrorView, FlacError, corrupt};
use vstd::prelude::*;

verus! {

/// Fixed part of a page header, before the variable segment table.
pub const OGG_HEADER_LEN: usize = 27;

/// First byte of the FLAC-to-Ogg mapping header packet.
pub const FLAC_MAPPING_TYPE: u8 = 0x7F;

/// Header-type flag bits in byte 5 of a page header.
pub const FLAG_CONTINUED: u8 = 0x01;

pub const FLAG_BOS: u8 = 0x02;

pub const FLAG_EOS: u8 = 0x04;

/// Length of the mapping-header prefix that precedes the embedded `fLaC`
/// signature: type byte (1) + "FLAC" (4) + major/minor version (2) + the
/// 16-bit header-packet count (2).
pub const MAPPING_PREFIX_LEN: usize = 9;

/// Serial number the encoder stamps on the single logical stream it writes
/// ("fLAC" as bytes, purely a label); a fixed value keeps output byte-stable.
pub const ENCODER_SERIAL: u32 = 0x664C_4143;

/// `b` holds `OggS` at `i`.
pub open spec fn ogg_magic_at(b: Seq<u8>, i: int) -> bool {
    &&& 0 <= i
    &&& i + 4 <= b.len()
    &&& b[i] == 0x4Fu8
    &&& b[i + 1] == 0x67u8
    &&& b[i + 2] == 0x67u8
    &&& b[i + 3] == 0x53u8
}

/// True when the bytes look like an Ogg stream (used to choose the decode
/// path).
pub fn is_ogg(bytes: &[u8]) -> (b: bool)
    ensures
        b == ogg_magic_at(bytes@, 0),
{
    bytes.len() >= 4 && bytes[0] == 0x4F && bytes[1] == 0x67 && bytes[2] == 0x67 && bytes[3] == 0x53
}

/// Why a first packet is not a FLAC-to-Ogg mapping header, or the number of
/// header packets it says follow it.
pub open spec fn spec_mapping_count(p: Seq<u8>) -> Result<nat, ErrorView> {
    if p.len() < MAPPING_PREFIX_LEN + 4 || p[0] != FLAC_MAPPING_TYPE || p[1] != 0x46u8 || p[2]
        != 0x4Cu8 || p[3] != 0x41u8 || p[4] != 0x43u8 || p[9] != 0x66u8 || p[10] != 0x4Cu8
        || p[11] != 0x61u8 || p[12] != 0x43u8 {
        Err(ErrorView::CorruptStream("invalid FLAC-to-Ogg mapping header"@))
    } else {
        Ok((p[7] as nat) * 256 + (p[8] as nat))
    }
}

/// Read the 16-bit "number of following header packets" field from the mapping
/// header packet, validating its signature.
pub fn mapping_header_count(first: &[u8]) -> (r: Result<usize, FlacError>)
    ensures
        match spec_mapping_count(first@) {
            Ok(n) => r is Ok && r->Ok_0 == n,
            Err(e) => r is Err && r->Err_0@ == e,
        },
{
    if first.len() < MAPPING_PREFIX_LEN + 4 || first[0] != FLAC_MAPPING_TYPE || first[1] != 0x46
        || first[2] != 0x4C || first[3] != 0x41 || first[4] != 0x43 || first[9] != 0x66
        || first[10] != 0x4C || first[11] != 0x61 || first[12] != 0x43 {
        return Err(corrupt("invalid FLAC-to-Ogg mapping header"));
    }
    Ok((first[7] as usize) * 256 + first[8] as usize)
}

/// The packets as byte sequences.
pub open spec fn packets_view(p: Seq<Vec<u8>>) -> Seq<Seq<u8>> {
    Seq::new(p.len(), |i: int| p[i]@)
}

/// Packets `from..to` back to back.
pub open spec fn concat_packets(p: Seq<Seq<u8>>, from: int, to: int) -> Seq<u8>
    decreases to - from,
{
    if to <= from {
        Seq::empty()
    } else {
        concat_packets(p, from, to - 1) + p[to - 1]
    }
}

/// The native FLAC stream carried by demuxed packets: the mapping header's
/// embedded `fLaC` and STREAMINFO, then the packets after it, up to `keep`
/// packets in all when a limit is given.
pub open spec fn spec_rebuild(p: Seq<Seq<u8>>, keep: Option<nat>) -> Result<Seq<u8>, ErrorView> {
    if p.len() == 0 {
        Err(ErrorView::Truncated)
    } else {
        match spec_mapping_count(p[0]) {
            Err(e) => Err(e),
            Ok(_) => {
                let want = match keep {
                    Some(k) => k,
                    None => p.len(),
                };
                let limit = if want < p.len() {
                    want
                } else {
                    p.len()
                };
                Ok(p[0].subrange(MAPPING_PREFIX_LEN as int, p[0].len() as int) + concat_packets(
                    p,
                    1,
                    limit as int,
                ))
            },
        }
    }
}

/// An optional count as a natural number.
pub open spec fn opt_nat(k: Option<usize>) -> Option<nat> {
    match k {
        Some(v) => Some(v as nat),
        None => None,
    }
}

/// Concatenate the demuxed packets back into a native FLAC stream: the mapping
/// header's embedded `fLaC` and STREAMINFO, then every following packet (the
/// remaining metadata blocks and the audio frames) exactly as they were.
pub fn rebuild(packets: &Vec<Vec<u8>>, keep: Option<usize>) -> (r: Result<Vec<u8>, FlacError>)
    requires
        keep matches Some(k) ==> k >= 1,
    ensures
        match spec_rebuild(packets_view(packets@), opt_nat(keep)) {
            Ok(v) => r is Ok && r->Ok_0@ == v,
            Err(e) => r is Err && r->Err_0@ == e,
        },
{
    let ghost pv = packets_view(packets@);
    if packets.len() == 0 {
        return Err(FlacError::Truncated);
    }
    let first = &packets[0];
    // Revalidate the mapping header (also covers the path without a limit).
    match mapping_header_count(first.as_slice()) {
        Ok(_) => {},
        Err(e) => return Err(e),
    }
    let want = match keep {
        Some(k) => k,
        None => packets.len(),
    };
    let limit = if want < packets.len() {
        want
    } else {
        packets.len()
    };
    let mut native: Vec<u8> = Vec::new();
    let mut j: usize = MAPPING_PREFIX_LEN;
    while j < first.len()
        invariant
            MAPPING_PREFIX_LEN <= j <= first@.len(),
            native@ == first@.subrange(MAPPING_PREFIX_LEN as int, j as int),
        decreases first@.len() - j,
    {
        native.push(first[j]);
        j += 1;
        assert(native@ =~= first@.subrange(MAPPING_PREFIX_LEN as int, j as int));
    }
    let ghost head = native@;
    let mut i: usize = 1;
    while i < limit
        invariant
            1 <= i <= limit,
            limit <= packets@.len(),
            pv == packets_view(packets@),
            native@ == head + concat_packets(pv, 1, i as int),
        decreases limit - i,
    {
        extend_bytes(&mut native, packets[i].as_slice());
        i += 1;
        assert(native@ =~= head + concat_packets(pv, 1, i as int));
    }
    assert(pv[0] == first@);
    Ok(native)
}

/// What the packet reassembly holds between pages: the unfinished packet,
/// the finished packets, and how many header packets `info` needs once the
/// mapping header has been read.
pub struct Packets {
    pub partial: Seq<u8>,
    pub done: Seq<Seq<u8>>,
    pub wanted: Option<nat>,
}

/// The result of reading a page's segments: either the state to carry on
/// with, or the final outcome of the whole demux.
pub enum SegOutcome {
    Continue(Packets),
    Done(Result<Seq<u8>, ErrorView>),
}

/// The sum of the `n` lacing values starting at `start`.
pub open spec fn seg_sum(b: Seq<u8>, start: int, n: nat) -> nat
    decreases n,
{
    if n == 0 {
        0
    } else {
        seg_sum(b, start, (n - 1) as nat) + (b[start + n - 1] as nat)
    }
}

/// Reassembling packets from segments `i..n` of a page whose lacing table
/// starts at `seg_table` and whose segment `i` begins at `seg_pos`. A packet is
/// a run of 255-valued segments ended by a segment below 255; with
/// `headers_only` the demux ends once the header packets are in.
pub open spec fn spec_segments(
    b: Seq<u8>,
    seg_table: int,
    n: nat,
    i: nat,
    seg_pos: int,
    st: Packets,
    headers_only: bool,
) -> SegOutcome
    decreases n - i,
{
    if i >= n {
        SegOutcome::Continue(st)
    } else {
        let sz = b[seg_table + i] as int;
        let partial = st.partial + b.subrange(seg_pos, seg_pos + sz);
        if sz < 255 {
            let done = st.done.push(partial);
            let wanted: Result<Option<nat>, ErrorView> = match st.wanted {
                Some(w) => Ok(Some(w)),
                None => match spec_mapping_count(done[0]) {
                    Err(e) => Err(e),
                    Ok(c) => Ok(Some(1 + c)),
                },
            };
            match wanted {
                Err(e) => SegOutcome::Done(Err(e)),
                Ok(w) => if headers_only && w is Some && done.len() >= w->Some_0 {
                    SegOutcome::Done(spec_rebuild(done, w))
                } else {
                    spec_segments(
                        b,
                        seg_table,
                        n,
                        i + 1,
                        seg_pos + sz,
                        Packets { partial: Seq::empty(), done, wanted: w },
                        headers_only,
                    )
                },
            }
        } else {
            spec_segments(
                b,
                seg_table,
                n,
                i + 1,
                seg_pos + sz,
                Packets { partial, done: st.done, wanted: st.wanted },
                headers_only,
            )
        }
    }
}

/// The exec reassembly state agrees with a spec one.
pub open spec fn packets_agree(
    partial: Vec<u8>,
    packets: Vec<Vec<u8>>,
    wanted: Option<usize>,
    st: Packets,
) -> bool {
    &&& partial@ == st.partial
    &&& packets_view(packets@) == st.done
    &&& opt_nat(wanted) == st.wanted
}

/// A header-packet count, once known, is at least one (the mapping header).
pub open spec fn wanted_ok(w: Option<nat>) -> bool {
    w matches Some(k) ==> 1 <= k <= 0x1_0000
}

/// Reassemble packets from segments `0..n_segments` of one page.
fn absorb_segments(
    bytes: &[u8],
    seg_table: usize,
    n_segments: usize,
    partial: &mut Vec<u8>,
    packets: &mut Vec<Vec<u8>>,
    wanted: &mut Option<usize>,
    headers_only: bool,
) -> (r: Option<Result<Vec<u8>, FlacError>>)
    requires
        n_segments <= 255,
        seg_table + n_segments + seg_sum(bytes@, seg_table as int, n_segments as nat)
            <= bytes@.len(),
        wanted_ok(opt_nat(*old(wanted))),
    ensures
        wanted_ok(opt_nat(*final(wanted))),
        match spec_segments(
            bytes@,
            seg_table as int,
            n_segments as nat,
            0,
            (seg_table + n_segments) as int,
            Packets {
                partial: old(partial)@,
                done: packets_view(old(packets)@),
                wanted: opt_nat(*old(wanted)),
            },
            headers_only,
        ) {
            SegOutcome::Done(res) => match res {
                Ok(v) => r matches Some(Ok(x)) && x@ == v,
                Err(e) => r matches Some(Err(x)) && x@ == e,
            },
            SegOutcome::Continue(st) => r is None && packets_agree(
                *final(partial),
                *final(packets),
                *final(wanted),
                st,
            ),
        },
{
    let ghost b = bytes@;
    let ghost goal = spec_segments(
        b,
        seg_table as int,
        n_segments as nat,
        0,
        (seg_table + n_segments) as int,
        Packets {
            partial: partial@,
            done: packets_view(packets@),
            wanted: opt_nat(*wanted),
        },
        headers_only,
    );
    let blen = bytes.len();
    let mut seg_pos = seg_table + n_segments;
    let mut i: usize = 0;
    while i < n_segments
        invariant
            goal == spec_segments(
                bytes@,
                seg_table as int,
                n_segments as nat,
                0,
                (seg_table + n_segments) as int,
                Packets {
                    partial: old(partial)@,
                    done: packets_view(old(packets)@),
                    wanted: opt_nat(*old(wanted)),
                },
                headers_only,
            ),
            blen == b.len(),
            i <= n_segments <= 255,
            seg_table + n_segments + seg_sum(b, seg_table as int, n_segments as nat) <= b.len(),
            seg_pos == seg_table + n_segments + seg_sum(b, seg_table as int, i as nat),
            b == bytes@,
            wanted_ok(opt_nat(*wanted)),
            goal == spec_segments(
                b,
                seg_table as int,
                n_segments as nat,
                i as nat,
                seg_pos as int,
                Packets {
                    partial: partial@,
                    done: packets_view(packets@),
                    wanted: opt_nat(*wanted),
                },
                headers_only,
            ),
        decreases n_segments - i,
    {
        proof {
            lemma_seg_sum_mono(b, seg_table as int, (i + 1) as nat, n_segments as nat);
        }
        let sz = bytes[seg_table + i] as usize;
        assert(seg_sum(b, seg_table as int, (i + 1) as nat) == seg_sum(b, seg_table as int, i as nat)
            + b[seg_table + i]);
        assert(seg_pos + sz <= blen);
        let ghost old_partial = partial@;
        let ghost old_done = packets_view(packets@);
        let mut j = seg_pos;
        while j < seg_pos + sz
            invariant
                seg_pos <= j <= seg_pos + sz,
                seg_pos + sz <= b.len(),
                blen == b.len(),
                b == bytes@,
                partial@ == old_partial + b.subrange(seg_pos as int, j as int),
            decreases seg_pos + sz - j,
        {
            partial.push(bytes[j]);
            j += 1;
            assert(partial@ =~= old_partial + b.subrange(seg_pos as int, j as int));
        }
        seg_pos += sz;
        if sz < 255 {
            let mut finished: Vec<u8> = Vec::new();
            std::mem::swap(partial, &mut finished);
            packets.push(finished);
            assert(packets_view(packets@) =~= old_done.push(finished@));
            if wanted.is_none() {
                match mapping_header_count(packets[0].as_slice()) {
                    Ok(c) => {
                        *wanted = Some(1 + c);
                    },
                    Err(e) => {
                        return Some(Err(e));
                    },
                }
            }
            if headers_only {
                match *wanted {
                    Some(w) => {
                        if packets.len() >= w {
                            return Some(rebuild(packets, Some(w)));
                        }
                    },
                    None => {},
                }
            }
        }
        i += 1;
    }
    None
}

pub(crate) proof fn lemma_seg_sum_mono(b: Seq<u8>, start: int, i: nat, n: nat)
    requires
        i <= n,
    ensures
        seg_sum(b, start, i) <= seg_sum(b, start, n),
    decreases n - i,
{
    if i < n {
        lemma_seg_sum_mono(b, start, i, (n - 1) as nat);
    }
}

/// A little-endian 32-bit field at `i`.
pub open spec fn le_u32_at(b: Seq<u8>, i: int) -> u32 {
    (b[i] as u32) | ((b[i + 1] as u32) << 8u32) | ((b[i + 2] as u32) << 16u32) | ((b[i + 3] as u32)
        << 24u32)
}

/// The page `b[start..end]` with its checksum field (bytes 22 to 25) zeroed,
/// as the checksum is computed.
pub open spec fn zeroed_page(b: Seq<u8>, start: int, end: int) -> Seq<u8> {
    Seq::new(
        (end - start) as nat,
        |i: int|
            if 22 <= i < 26 {
                0u8
            } else {
                b[start + i]
            },
    )
}

/// The demux is over: the stream found, if any, rebuilt from its packets.
pub open spec fn spec_finish(serial: Option<u32>, st: Packets, headers_only: bool) -> Result<
    Seq<u8>,
    ErrorView,
> {
    if serial is None {
        Err(ErrorView::NotFlac)
    } else {
        spec_rebuild(
            st.done,
            if headers_only {
                st.wanted
            } else {
                None
            },
        )
    }
}

/// Demuxing the pages from `pos` on. Until the FLAC stream's opening page is
/// found (a beginning-of-stream page whose first packet starts with the
/// mapping signature) other pages are skipped; after it, pages of other
/// serial numbers are skipped unchecked. The walk ends at the stream's
/// end-of-stream page or when no whole page header remains.
pub open spec fn spec_demux_from(
    b: Seq<u8>,
    pos: int,
    serial: Option<u32>,
    st: Packets,
    headers_only: bool,
) -> Result<Seq<u8>, ErrorView>
    decreases b.len() - pos,
{
    if pos < 0 || pos + OGG_HEADER_LEN > b.len() {
        spec_finish(serial, st, headers_only)
    } else if !ogg_magic_at(b, pos) {
        Err(ErrorView::CorruptStream("expected an Ogg page boundary"@))
    } else if b[pos + 4] != 0 {
        Err(ErrorView::Unsupported("Ogg stream structure version "@ + decimal(b[pos + 4] as nat)))
    } else {
        let flags = b[pos + 5];
        let page_serial = le_u32_at(b, pos + 14);
        let n = b[pos + 26] as nat;
        let seg_table = pos + OGG_HEADER_LEN;
        let body_start = seg_table + n;
        if body_start > b.len() {
            Err(ErrorView::Truncated)
        } else {
            let body_len = seg_sum(b, seg_table, n);
            let body_end = body_start + body_len;
            if body_end > b.len() {
                Err(ErrorView::Truncated)
            } else {
                let is_flac_bos = flags & FLAG_BOS != 0 && body_len >= 5 && b[body_start]
                    == FLAC_MAPPING_TYPE && b[body_start + 1] == 0x46u8 && b[body_start + 2]
                    == 0x4Cu8 && b[body_start + 3] == 0x41u8 && b[body_start + 4] == 0x43u8;
                if (serial is None && !is_flac_bos) || (serial matches Some(s) && s != page_serial) {
                    spec_demux_from(b, body_end, serial, st, headers_only)
                } else if spec_ogg_crc32(zeroed_page(b, pos, body_end)) != le_u32_at(b, pos + 22) {
                    Err(ErrorView::CrcMismatch)
                } else {
                    match spec_segments(b, seg_table, n, 0, body_start, st, headers_only) {
                        SegOutcome::Done(r) => r,
                        SegOutcome::Continue(st2) => if flags & FLAG_EOS != 0 {
                            spec_finish(Some(page_serial), st2, headers_only)
                        } else {
                            spec_demux_from(b, body_end, Some(page_serial), st2, headers_only)
                        },
                    }
                }
            }
        }
    }
}

/// Rebuilding the native FLAC stream carried inside an Ogg stream.
pub open spec fn spec_to_native(b: Seq<u8>, headers_only: bool) -> Result<Seq<u8>, ErrorView> {
    spec_demux_from(
        b,
        0,
        None,
        Packets { partial: Seq::empty(), done: Seq::empty(), wanted: None },
        headers_only,
    )
}

/// Read the layout of the page at `pos`: its flags, serial number, segment
/// count and the end of its body, or the fault that stops the demux there.
fn page_layout(bytes: &[u8], pos: usize) -> (r: Result<(u8, u32, usize, usize), FlacError>)
    requires
        pos + OGG_HEADER_LEN <= bytes@.len(),
    ensures
        !ogg_magic_at(bytes@, pos as int) ==> r is Err && r->Err_0@ == ErrorView::CorruptStream(
            "expected an Ogg page boundary"@,
        ),
        ogg_magic_at(bytes@, pos as int) && bytes@[pos + 4] != 0 ==> r is Err && r->Err_0@
            == ErrorView::Unsupported(
            "Ogg stream structure version "@ + decimal(bytes@[pos + 4] as nat),
        ),
        ogg_magic_at(bytes@, pos as int) && bytes@[pos + 4] == 0 ==> {
            let n = bytes@[pos + 26] as int;
            let body_start = pos + OGG_HEADER_LEN + n;
            let body_end = body_start + seg_sum(bytes@, pos + OGG_HEADER_LEN, n as nat);
            if body_start > bytes@.len() || body_end > bytes@.len() {
                r is Err && r->Err_0@ == ErrorView::Truncated
            } else {
                r == Ok::<(u8, u32, usize, usize), FlacError>(
                    (bytes@[pos + 5], le_u32_at(bytes@, pos + 14), n as usize, body_end as usize),
                )
            }
        },
{
    let ghost b = bytes@;
    let blen = bytes.len();
    if !(bytes[pos] == 0x4F && bytes[pos + 1] == 0x67 && bytes[pos + 2] == 0x67 && bytes[pos + 3]
        == 0x53) {
        // Anything that is not a page boundary is malformed.
        return Err(corrupt("expected an Ogg page boundary"));
    }
    if bytes[pos + 4] != 0 {
        let mut why = "Ogg stream structure version ".to_owned();
        push_number(&mut why, bytes[pos + 4] as u64);
        return Err(FlacError::Unsupported(why));
    }
    let flags = bytes[pos + 5];
    let page_serial = (bytes[pos + 14] as u32) | ((bytes[pos + 15] as u32) << 8u32) | ((bytes[pos
        + 16] as u32) << 16u32) | ((bytes[pos + 17] as u32) << 24u32);
    let n_segments = bytes[pos + 26] as usize;
    let seg_table = pos + OGG_HEADER_LEN;
    if n_segments > blen - seg_table {
        return Err(FlacError::Truncated);
    }
    let body_start = seg_table + n_segments;
    let mut body_len: usize = 0;
    let mut k: usize = 0;
    while k < n_segments
        invariant
            k <= n_segments <= 255,
            seg_table + n_segments <= blen,
            blen == b.len(),
            b == bytes@,
            body_len == seg_sum(b, seg_table as int, k as nat),
            body_len <= 255 * k,
        decreases n_segments - k,
    {
        body_len += bytes[seg_table + k] as usize;
        k += 1;
    }
    let body_end = match body_start.checked_add(body_len) {
        Some(e) => e,
        None => return Err(FlacError::Truncated),
    };
    if body_end > blen {
        return Err(FlacError::Truncated);
    }
    Ok((flags, page_serial, n_segments, body_end))
}

/// The page's stored checksum matches the one computed over the page with
/// its checksum field zeroed.
fn page_checksum_ok(bytes: &[u8], pos: usize, body_end: usize) -> (ok: bool)
    requires
        pos + OGG_HEADER_LEN <= body_end <= bytes@.len(),
    ensures
        ok == (spec_ogg_crc32(zeroed_page(bytes@, pos as int, body_end as int)) == le_u32_at(
            bytes@,
            pos + 22,
        )),
{
    let ghost b = bytes@;
    let blen = bytes.len();
    let stored_crc = (bytes[pos + 22] as u32) | ((bytes[pos + 23] as u32) << 8u32) | ((bytes[pos
        + 24] as u32) << 16u32) | ((bytes[pos + 25] as u32) << 24u32);
    let mut page: Vec<u8> = Vec::new();
    let mut j = pos;
    while j < body_end
        invariant
            pos <= j <= body_end <= blen,
            blen == b.len(),
            b == bytes@,
            page@ == zeroed_page(b, pos as int, j as int),
        decreases body_end - j,
    {
        if j - pos >= 22 && j - pos < 26 {
            page.push(0);
        } else {
            page.push(bytes[j]);
        }
        j += 1;
        assert(page@ =~= zeroed_page(b, pos as int, j as int));
    }
    ogg_crc32(page.as_slice()) == stored_crc
}

/// Rebuild the native FLAC byte stream carried inside an Ogg stream.
///
/// With `headers_only` the rebuild stops once every metadata block has been
/// recovered, so `info` does not have to demux a whole file. The returned bytes
/// are a native FLAC stream that the ordinary decoder reads.
pub fn to_native_flac(bytes: &[u8], headers_only: bool) -> (r: Result<Vec<u8>, FlacError>)
    ensures
        match spec_to_native(bytes@, headers_only) {
            Ok(v) => r is Ok && r->Ok_0@ == v,
            Err(e) => r is Err && r->Err_0@ == e,
        },
{
    let ghost b = bytes@;
    let ghost goal = spec_to_native(b, headers_only);
    let blen = bytes.len();
    let mut pos: usize = 0;
    let mut serial: Option<u32> = None;
    let mut partial: Vec<u8> = Vec::new();
    let mut packets: Vec<Vec<u8>> = Vec::new();
    // Number of header packets to keep for `headers_only`: the mapping header
    // plus the count it declares. Filled in once the first packet is parsed.
    let mut wanted: Option<usize> = None;
    proof {
        assert(packets_view(packets@) =~= Seq::<Seq<u8>>::empty());
    }
    loop
        invariant_except_break
            goal == spec_demux_from(
                b,
                pos as int,
                serial,
                Packets { partial: partial@, done: packets_view(packets@), wanted: opt_nat(wanted) },
                headers_only,
            ),
        invariant
            b == bytes@,
            blen == b.len(),
            pos <= blen,
            goal == spec_to_native(b, headers_only),
            wanted_ok(opt_nat(wanted)),
        ensures
            goal == spec_finish(
                serial,
                Packets { partial: partial@, done: packets_view(packets@), wanted: opt_nat(wanted) },
                headers_only,
            ),
        decreases blen - pos,
    {
        if blen - pos < OGG_HEADER_LEN {
            break;
        }
        let (flags, page_serial, n_segments, body_end) = match page_layout(bytes, pos) {
            Ok(l) => l,
            Err(e) => return Err(e),
        };
        let seg_table = pos + OGG_HEADER_LEN;
        let body_start = seg_table + n_segments;
        let body_len = body_end - body_start;

        let is_flac_bos = flags & FLAG_BOS != 0 && body_len >= 5 && bytes[body_start]
            == FLAC_MAPPING_TYPE && bytes[body_start + 1] == 0x46 && bytes[body_start + 2] == 0x4C
            && bytes[body_start + 3] == 0x41 && bytes[body_start + 4] == 0x43;

        if serial.is_none() {
            // Hunt for the FLAC logical stream's start page; skip any other
            // (a multiplexed Ogg can carry several streams).
            if is_flac_bos {
                serial = Some(page_serial);
            } else {
                pos = body_end;
                continue;
            }
        } else if serial != Some(page_serial) {
            pos = body_end;
            continue;
        }

        // Verify the checksum only on pages of our stream, computed over the
        // page with its own checksum field zeroed, so a damaged page in an
        // unrelated multiplexed stream does not stop us.
        if !page_checksum_ok(bytes, pos, body_end) {
            return Err(FlacError::CrcMismatch);
        }

        // Reassemble packets from this page's segments; a packet can cross
        // pages, which is why `partial` carries over.
        match absorb_segments(
            bytes,
            seg_table,
            n_segments,
            &mut partial,
            &mut packets,
            &mut wanted,
            headers_only,
        ) {
            Some(res) => return res,
            None => {},
        }

        if flags & FLAG_EOS != 0 {
            break;
        }
        pos = body_end;
    }

    if serial.is_none() {
        return Err(FlacError::NotFlac);
    }
    let keep = if headers_only {
        wanted
    } else {
        None
    };
    rebuild(&packets, keep)
}

/// One packet to be paged, with the granule (running sample count) that holds
/// once its data has been decoded. Metadata packets carry granule 0.
pub struct Packet {
    pub data: Vec<u8>,
    pub granule: i64,
}

/// One lacing segment: its value, and the granule of the packet it ends, if
/// it ends one.
pub struct Seg {
    pub value: u8,
    pub ends_granule: Option<i64>,
}

/// The packets as (data, granule) pairs.
pub open spec fn packet_views(p: Seq<Packet>) -> Seq<(Seq<u8>, i64)> {
    Seq::new(p.len(), |i: int| (p[i].data@, p[i].granule))
}

/// The segments as (value, granule ended) pairs.
pub open spec fn seg_views(s: Seq<Seg>) -> Seq<(u8, Option<i64>)> {
    Seq::new(s.len(), |i: int| (s[i].value, s[i].ends_granule))
}

/// The lacing of one packet of `len` bytes: a 255 for every whole 255 bytes,
/// then the remainder (possibly 0), which ends the packet.
pub open spec fn packet_lacing(len: nat, g: i64) -> Seq<(u8, Option<i64>)> {
    Seq::new(
        len / 255 + 1,
        |i: int|
            if i < len / 255 {
                (255u8, None)
            } else {
                ((len % 255) as u8, Some(g))
            },
    )
}

/// The lacing of the first `n` packets.
pub open spec fn all_lacing(p: Seq<(Seq<u8>, i64)>, n: nat) -> Seq<(u8, Option<i64>)>
    decreases n,
{
    if n == 0 {
        Seq::empty()
    } else {
        all_lacing(p, (n - 1) as nat) + packet_lacing(p[n - 1].0.len(), p[n - 1].1)
    }
}

/// The data of the first `n` packets back to back.
pub open spec fn all_data(p: Seq<(Seq<u8>, i64)>, n: nat) -> Seq<u8>
    decreases n,
{
    if n == 0 {
        Seq::empty()
    } else {
        all_data(p, (n - 1) as nat) + p[n - 1].0
    }
}

/// How many segments the page starting at segment `idx` holds: up to 255,
/// but the first packet's last segment `fl` closes the first page.
pub open spec fn page_count(len: nat, idx: nat, fl: nat) -> nat {
    let room: nat = if len - idx < 255 {
        (len - idx) as nat
    } else {
        255
    };
    if idx <= fl < idx + room {
        (fl - idx + 1) as nat
    } else {
        room
    }
}

/// The granule of the last packet ending among segments `idx..idx + c`, or -1
/// when none ends there.
pub open spec fn granule_upto(s: Seq<(u8, Option<i64>)>, idx: int, c: nat) -> i64
    decreases c,
{
    if c == 0 {
        -1i64
    } else {
        match s[idx + c - 1].1 {
            Some(g) => g,
            None => granule_upto(s, idx, (c - 1) as nat),
        }
    }
}

/// The sum of the lacing values of segments `idx..idx + c`.
pub open spec fn values_sum(s: Seq<(u8, Option<i64>)>, idx: int, c: nat) -> nat
    decreases c,
{
    if c == 0 {
        0
    } else {
        values_sum(s, idx, (c - 1) as nat) + (s[idx + c - 1].0 as nat)
    }
}

/// The little-endian bytes of a 32-bit value.
pub open spec fn le32(v: u32) -> Seq<u8> {
    seq![v as u8, (v >> 8u32) as u8, (v >> 16u32) as u8, (v >> 24u32) as u8]
}

/// The little-endian bytes of a 64-bit granule.
pub open spec fn le64(g: i64) -> Seq<u8> {
    le32(g as u64 as u32) + le32(((g as u64) >> 32u64) as u32)
}

/// A page with its checksum field zeroed.
pub open spec fn page_unsealed(flags: u8, g: i64, seq: u32, vals: Seq<u8>, body: Seq<u8>) -> Seq<
    u8,
> {
    seq![0x4Fu8, 0x67u8, 0x67u8, 0x53u8, 0u8, flags] + le64(g) + le32(ENCODER_SERIAL) + le32(seq)
        + seq![0u8, 0u8, 0u8, 0u8] + seq![vals.len() as u8] + vals + body
}

/// A page with its checksum stored.
pub open spec fn page_sealed(flags: u8, g: i64, seq: u32, vals: Seq<u8>, body: Seq<u8>) -> Seq<
    u8,
> {
    let z = page_unsealed(flags, g, seq, vals, body);
    z.subrange(0, 22) + le32(spec_ogg_crc32(z)) + z.subrange(26, z.len() as int)
}

/// The header-type flags of a page.
pub open spec fn page_flags(first: bool, eos: bool, continued: bool) -> u8 {
    (if first {
        FLAG_BOS
    } else {
        0u8
    }) | (if eos {
        FLAG_EOS
    } else {
        0u8
    }) | (if continued {
        FLAG_CONTINUED
    } else {
        0u8
    })
}

/// The pages holding segments `idx..` and the packet data from `body_pos` on.
pub open spec fn mux_from(
    s: Seq<(u8, Option<i64>)>,
    body: Seq<u8>,
    fl: nat,
    idx: nat,
    body_pos: nat,
    seq: u32,
    first: bool,
    continued: bool,
) -> Seq<u8>
    decreases s.len() - idx,
{
    if idx >= s.len() {
        Seq::empty()
    } else {
        let count = page_count(s.len(), idx, fl);
        let blen = values_sum(s, idx as int, count);
        let flags = page_flags(first, idx + count >= s.len(), continued);
        let vals = Seq::new(count, |j: int| s[idx + j].0);
        page_sealed(
            flags,
            granule_upto(s, idx as int, count),
            seq,
            vals,
            body.subrange(body_pos as int, (body_pos + blen) as int),
        ) + mux_from(
            s,
            body,
            fl,
            idx + count,
            body_pos + blen,
            seq.wrapping_add(1),
            false,
            s[idx + count - 1].0 == 255,
        )
    }
}

/// The Ogg stream the muxer writes for `p`.
pub open spec fn spec_mux(p: Seq<(Seq<u8>, i64)>) -> Seq<u8> {
    let fl: nat = if p.len() > 0 {
        p[0].0.len() / 255
    } else {
        0
    };
    mux_from(all_lacing(p, p.len()), all_data(p, p.len()), fl, 0, 0, 0, true, false)
}

pub(crate) proof fn lemma_values_sum_split(s: Seq<(u8, Option<i64>)>, idx: int, c1: nat, c2: nat)
    ensures
        values_sum(s, idx, c1 + c2) == values_sum(s, idx, c1) + values_sum(s, idx + c1, c2),
    decreases c2,
{
    if c2 > 0 {
        lemma_values_sum_split(s, idx, c1, (c2 - 1) as nat);
        assert(idx + (c1 + c2) - 1 == (idx + c1) + c2 - 1);
    }
}

pub(crate) proof fn lemma_values_sum_ext(
    s1: Seq<(u8, Option<i64>)>,
    i1: int,
    s2: Seq<(u8, Option<i64>)>,
    i2: int,
    c: nat,
)
    requires
        forall|j: int| 0 <= j < c ==> #[trigger] s1[i1 + j].0 == s2[i2 + j].0,
    ensures
        values_sum(s1, i1, c) == values_sum(s2, i2, c),
    decreases c,
{
    if c > 0 {
        lemma_values_sum_ext(s1, i1, s2, i2, (c - 1) as nat);
        assert(s1[i1 + (c - 1)].0 == s2[i2 + (c - 1)].0);
    }
}

pub(crate) proof fn lemma_lacing_prefix_sum(len: nat, g: i64, k: nat)
    requires
        k <= len / 255,
    ensures
        values_sum(packet_lacing(len, g), 0, k) == 255 * k,
    decreases k,
{
    if k > 0 {
        lemma_lacing_prefix_sum(len, g, (k - 1) as nat);
    }
}

pub(crate) proof fn lemma_lacing_sum(len: nat, g: i64)
    ensures
        values_sum(packet_lacing(len, g), 0, len / 255 + 1) == len,
{
    lemma_lacing_prefix_sum(len, g, len / 255);
}

/// The lacing values of the first `n` packets add up to their data's length.
pub(crate) proof fn lemma_all_sum(p: Seq<(Seq<u8>, i64)>, n: nat)
    requires
        n <= p.len(),
    ensures
        values_sum(all_lacing(p, n), 0, all_lacing(p, n).len()) == all_data(p, n).len(),
    decreases n,
{
    if n > 0 {
        let a = all_lacing(p, (n - 1) as nat);
        let l = packet_lacing(p[n - 1].0.len(), p[n - 1].1);
        let s = a + l;
        lemma_all_sum(p, (n - 1) as nat);
        lemma_values_sum_split(s, 0, a.len(), l.len());
        lemma_values_sum_ext(s, 0, a, 0, a.len());
        lemma_values_sum_ext(s, a.len() as int, l, 0, l.len());
        lemma_lacing_sum(p[n - 1].0.len(), p[n - 1].1);
    }
}

/// Page a sequence of FLAC packets into an Ogg stream.
///
/// The first packet (the FLAC mapping header) is placed alone on the first
/// page, as the mapping requires; the rest are packed densely, up to 255
/// segments per page. The single logical stream is stamped with a fixed serial
/// so the output is byte-stable.
#[verifier::spinoff_prover]
#[verifier::rlimit(30)]
pub fn mux(packets: &[Packet]) -> (out: Vec<u8>)
    ensures
        out@ == spec_mux(packet_views(packets@)),
{
    let ghost pv = packet_views(packets@);
    // One lacing segment per (up to) 255 bytes of packet data. The segment
    // that terminates a packet carries that packet's granule; a 255-valued
    // segment means the packet spills onto the next page.
    let mut segs: Vec<Seg> = Vec::new();
    let mut body: Vec<u8> = Vec::new();
    let mut first_packet_last_seg: usize = 0;
    let mut i: usize = 0;
    while i < packets.len()
        invariant
            i <= packets@.len(),
            pv == packet_views(packets@),
            seg_views(segs@) == all_lacing(pv, i as nat),
            body@ == all_data(pv, i as nat),
            i > 0 ==> first_packet_last_seg == pv[0].0.len() / 255,
            i == 0 ==> first_packet_last_seg == 0,
        decreases packets@.len() - i,
    {
        let packet = &packets[i];
        extend_bytes(&mut body, packet.data.as_slice());
        let len = packet.data.len();
        let ghost base = seg_views(segs@);
        let ghost lac = packet_lacing(len as nat, packet.granule);
        let mut remaining = len;
        let ghost mut k: nat = 0;
        loop
            invariant_except_break
                remaining + 255 * k == len,
            invariant
                k <= len / 255 + 1,
                seg_views(segs@) == base + lac.take(k as int),
                lac == packet_lacing(len as nat, packet.granule),
            ensures
                seg_views(segs@) == base + lac,
            decreases remaining,
        {
            let value = if remaining < 255 {
                remaining
            } else {
                255
            };
            let ends = value < 255;
            proof {
                if ends {
                    assert(len / 255 == k && len % 255 == remaining) by (nonlinear_arith)
                        requires
                            len == 255 * k + remaining,
                            remaining < 255,
                    ;
                } else {
                    assert(k < len / 255) by (nonlinear_arith)
                        requires
                            len == 255 * k + remaining,
                            remaining >= 255,
                    ;
                }
            }
            remaining -= value;
            let ghost prev = seg_views(segs@);
            segs.push(
                Seg {
                    value: value as u8,
                    ends_granule: if ends {
                        Some(packet.granule)
                    } else {
                        None
                    },
                },
            );
            assert(seg_views(segs@) =~= prev.push(
                (
                    value as u8,
                    if ends {
                        Some(packet.granule)
                    } else {
                        None
                    },
                ),
            ));
            proof {
                k = k + 1;
            }
            if ends {
                assert(seg_views(segs@) =~= base + lac);
                break;
            }
            assert(seg_views(segs@) =~= base + lac.take(k as int));
        }
        if i == 0 {
            first_packet_last_seg = segs.len() - 1;
        }
        i += 1;
        assert(pv[i - 1].0 == packet.data@);
    }
    let ghost sv = seg_views(segs@);
    let ghost fl: nat = if pv.len() > 0 {
        pv[0].0.len() / 255
    } else {
        0
    };
    let ghost goal = spec_mux(pv);
    proof {
        lemma_all_sum(pv, pv.len());
        if pv.len() == 0 {
            assert(first_packet_last_seg == fl);
        }
    }

    let body_len = body.len();
    let mut out: Vec<u8> = Vec::new();
    let mut seq: u32 = 0;
    let mut seg_idx: usize = 0;
    let mut body_pos: usize = 0;
    let mut first_page = true;
    let mut continued = false;
    while seg_idx < segs.len()
        invariant
            sv == seg_views(segs@),
            seg_idx <= segs@.len(),
            first_packet_last_seg == fl,
            body_pos + values_sum(sv, seg_idx as int, (sv.len() - seg_idx) as nat) == body@.len(),
            body_len == body@.len(),
            out@ + mux_from(sv, body@, fl, seg_idx as nat, body_pos as nat, seq, first_page, continued)
                == goal,
        decreases segs@.len() - seg_idx,
    {
        let (count, page_granule) = page_extent(&segs, seg_idx, first_packet_last_seg);
        proof {
            lemma_values_sum_split(sv, seg_idx as int, count as nat, (sv.len() - seg_idx - count) as nat);
        }
        let (vals, page_body_len) = page_lacing(&segs, seg_idx, count);
        let this_continued = continued;
        continued = segs[seg_idx + count - 1].value == 255;
        let is_eos = seg_idx + count >= segs.len();
        let flags: u8 = (if first_page {
            FLAG_BOS
        } else {
            0u8
        }) | (if is_eos {
            FLAG_EOS
        } else {
            0u8
        }) | (if this_continued {
            FLAG_CONTINUED
        } else {
            0u8
        });
        let ghost before = out@;
        write_page(
            &mut out,
            flags,
            page_granule,
            seq,
            vals.as_slice(),
            &body.as_slice()[body_pos..body_pos + page_body_len],
        );
        assert(before + mux_from(sv, body@, fl, seg_idx as nat, body_pos as nat, seq, first_page, this_continued)
            =~= out@ + mux_from(sv, body@, fl, (seg_idx + count) as nat, (body_pos + page_body_len) as nat, seq.wrapping_add(1), false, continued));

        body_pos += page_body_len;
        seg_idx += count;
        seq = seq.wrapping_add(1);
        first_page = false;
    }
    assert(out@ =~= goal);
    out
}

/// How many segments the page starting at `seg_idx` holds, and the granule
/// of the last packet ending on it.
fn page_extent(segs: &Vec<Seg>, seg_idx: usize, first_packet_last_seg: usize) -> (r: (usize, i64))
    requires
        seg_idx < segs@.len(),
    ensures
        r.0 == page_count(segs@.len() as nat, seg_idx as nat, first_packet_last_seg as nat),
        1 <= r.0,
        r.1 == granule_upto(seg_views(segs@), seg_idx as int, r.0 as nat),
{
    let ghost sv = seg_views(segs@);
    let ghost fl = first_packet_last_seg as nat;
    // Fill a page with up to 255 segments, but break right after the first
    // packet so the mapping header sits alone on the opening page.
    let n = segs.len();
    let mut count: usize = 0;
    let mut page_granule: i64 = -1;
    while seg_idx + count < n && count < 255
        invariant_except_break
            !(seg_idx <= fl < seg_idx + count),
        invariant
            n == segs@.len(),
            seg_idx < segs@.len(),
            sv == seg_views(segs@),
            fl == first_packet_last_seg,
            count <= 255,
            seg_idx + count <= segs@.len(),
            page_granule == granule_upto(sv, seg_idx as int, count as nat),
        ensures
            count == page_count(sv.len(), seg_idx as nat, fl),
            count >= 1,
            page_granule == granule_upto(sv, seg_idx as int, count as nat),
        decreases 255 - count,
    {
        match segs[seg_idx + count].ends_granule {
            Some(g) => {
                page_granule = g;
            },
            None => {},
        }
        count += 1;
        if seg_idx + count - 1 == first_packet_last_seg {
            break;
        }
    }
    (count, page_granule)
}

/// The lacing values of segments `seg_idx..seg_idx + count`, and their sum.
fn page_lacing(segs: &Vec<Seg>, seg_idx: usize, count: usize) -> (r: (Vec<u8>, usize))
    requires
        seg_idx + count <= segs@.len(),
        count <= 255,
    ensures
        r.0@ == Seq::new(count as nat, |t: int| seg_views(segs@)[seg_idx + t].0),
        r.1 == values_sum(seg_views(segs@), seg_idx as int, count as nat),
{
    let ghost sv = seg_views(segs@);
    let n = segs.len();
    let mut page_body_len: usize = 0;
    let mut vals: Vec<u8> = Vec::new();
    let mut j: usize = 0;
    while j < count
        invariant
            n == segs@.len(),
            j <= count <= 255,
            seg_idx + count <= segs@.len(),
            sv == seg_views(segs@),
            page_body_len == values_sum(sv, seg_idx as int, j as nat),
            page_body_len <= 255 * j,
            vals@ == Seq::new(j as nat, |t: int| sv[seg_idx + t].0),
        decreases count - j,
    {
        page_body_len += segs[seg_idx + j].value as usize;
        vals.push(segs[seg_idx + j].value);
        j += 1;
        assert(vals@ =~= Seq::new(j as nat, |t: int| sv[seg_idx + t].0));
    }
    (vals, page_body_len)
}

/// Append one page: its header with the checksum computed over the page with
/// the checksum field zeroed, then the lacing values and the body.
fn write_page(out: &mut Vec<u8>, flags: u8, granule: i64, seq: u32, vals: &[u8], body: &[u8])
    requires
        vals@.len() <= 255,
    ensures
        final(out)@ == old(out)@ + page_sealed(flags, granule, seq, vals@, body@),
{
    let mut page: Vec<u8> = Vec::new();
    page.push(0x4F);
    page.push(0x67);
    page.push(0x67);
    page.push(0x53);
    page.push(0);  // stream structure version
    page.push(flags);
    assert(page@ =~= seq![0x4Fu8, 0x67u8, 0x67u8, 0x53u8, 0u8, flags]);
    let gu = granule as u64;
    push_le32(&mut page, gu as u32);
    push_le32(&mut page, (gu >> 32u64) as u32);
    assert(page@ =~= seq![0x4Fu8, 0x67u8, 0x67u8, 0x53u8, 0u8, flags] + le64(granule));
    push_le32(&mut page, ENCODER_SERIAL);
    push_le32(&mut page, seq);
    push_le32(&mut page, 0);  // checksum, patched in below
    assert(le32(0) =~= seq![0u8, 0u8, 0u8, 0u8]) by {
        assert((0u32 >> 8u32) as u8 == 0u8 && (0u32 >> 16u32) as u8 == 0u8 && (0u32 >> 24u32) as u8
            == 0u8) by (bit_vector);
    }
    page.push(vals.len() as u8);
    extend_bytes(&mut page, vals);
    extend_bytes(&mut page, body);
    let ghost z = page@;
    assert(z =~= page_unsealed(flags, granule, seq, vals@, body@));
    let crc = ogg_crc32(page.as_slice());
    page[22] = crc as u8;
    page[23] = (crc >> 8u32) as u8;
    page[24] = (crc >> 16u32) as u8;
    page[25] = (crc >> 24u32) as u8;
    assert(page@ =~= z.subrange(0, 22) + le32(crc) + z.subrange(26, z.len() as int));
    extend_bytes(out, page.as_slice());
}

/// Append the little-endian bytes of a 32-bit value.
fn push_le32(out: &mut Vec<u8>, v: u32)
    ensures
        final(out)@ == old(out)@ + le32(v),
{
    out.push(v as u8);
    out.push((v >> 8u32) as u8);
    out.push((v >> 16u32) as u8);
    out.push((v >> 24u32) as u8);
    assert(final(out)@ =~= old(out)@ + le32(v));
}

} // verus!
