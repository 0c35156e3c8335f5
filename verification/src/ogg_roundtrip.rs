// What the Ogg demuxer reads back from the pages the muxer writes.
//
// The muxer lays the packets out as one run of lacing segments over the
// packets' data back to back, then cuts that run into pages. The demuxer
// walks the pages and feeds their segments, one by one, into a packet
// reassembler. `reasm` is that reassembler run over the whole segment run;
// the lemmas here show that it gives back every packet, that each page of the
// muxer's output parses and passes its checksum, and so that the demux of the
// muxer's output is the packets' native stream. From there follow the round
// trip through the Ogg container and the agreement of the two containers.
//
// The last part bounds the demux on any input: it never gives back more
// bytes than it read.

use crate::bits::bytes_of_bits;
use crate::crc::spec_ogg_crc32;
use crate::decoder::{
    body_bps, body_channels, body_rate, body_total, params_fault, spec_decode, spec_decode_native, trim,
    MAX_TOTAL_SAMPLES,
};
use crate::encoder::{
    encoded_stream, flac_marker, frame_packets, frames_from, mapping_packet, ogg_packets,
    spec_encode, spec_encode_ogg, spec_frame_bytes, spec_streaminfo_block,
    spec_vorbis_comment_block, streaminfo_bits, validate_fault, BLOCK_SIZE,
};
use crate::error::ErrorView;
use crate::md5::spec_md5;
use crate::metadata::{spec_blocks_from, spec_header, stream_info_fault};
use crate::roundtrip::{lemma_encoded_frames, lemma_encoded_header, lemma_streaminfo_body, law_round_trip};
use crate::sample_bytes::{frames_of, rectangular, sample_bytes};
use crate::{native_info, spec_info, AudioView};
use crate::ogg::{
    FLAC_MAPPING_TYPE, OGG_HEADER_LEN,     ENCODER_SERIAL, FLAG_BOS, FLAG_EOS, le32, le_u32_at, ogg_magic_at, page_flags, page_sealed,
    page_unsealed, seg_sum, zeroed_page, mux_from, page_count, granule_upto, spec_demux_from, spec_rebuild, spec_finish, spec_mux, spec_to_native, concat_packets, Packets, SegOutcome, spec_mapping_count, spec_segments, all_data, all_lacing, lemma_all_sum, lemma_lacing_prefix_sum, lemma_values_sum_ext,
    lemma_values_sum_split, packet_lacing, values_sum,
};
use vstd::prelude::*;

verus! {

/// The data of the first `m` packets.
pub open spec fn packet_data(p: Seq<(Seq<u8>, i64)>, m: nat) -> Seq<Seq<u8>> {
    Seq::new(m, |i: int| p[i].0)
}

/// The packet reassembly after the first `k` segments of the run `s` over the
/// data `d`: the unfinished packet and the finished ones.
pub open spec fn reasm(s: Seq<(u8, Option<i64>)>, d: Seq<u8>, k: nat) -> (Seq<u8>, Seq<Seq<u8>>)
    decreases k,
{
    if k == 0 {
        (Seq::empty(), Seq::empty())
    } else {
        let prev = reasm(s, d, (k - 1) as nat);
        let chunk = d.subrange(values_sum(s, 0, (k - 1) as nat) as int, values_sum(s, 0, k) as int);
        let partial = prev.0 + chunk;
        if s[k - 1].0 < 255 {
            (Seq::empty(), prev.1.push(partial))
        } else {
            (partial, prev.1)
        }
    }
}

/// The lacing and data of the first `m` packets are prefixes of those of the
/// first `n`.
pub(crate) proof fn lemma_all_prefix(p: Seq<(Seq<u8>, i64)>, m: nat, n: nat)
    requires
        m <= n <= p.len(),
    ensures
        all_lacing(p, m).len() <= all_lacing(p, n).len(),
        all_data(p, m).len() <= all_data(p, n).len(),
        all_lacing(p, n).subrange(0, all_lacing(p, m).len() as int) == all_lacing(p, m),
        all_data(p, n).subrange(0, all_data(p, m).len() as int) == all_data(p, m),
    decreases n,
{
    if n > m {
        lemma_all_prefix(p, m, (n - 1) as nat);
        let a = all_lacing(p, (n - 1) as nat);
        let d = all_data(p, (n - 1) as nat);
        assert(all_lacing(p, n).subrange(0, all_lacing(p, m).len() as int) =~= a.subrange(
            0,
            all_lacing(p, m).len() as int,
        ));
        assert(all_data(p, n).subrange(0, all_data(p, m).len() as int) =~= d.subrange(
            0,
            all_data(p, m).len() as int,
        ));
    } else {
        assert(all_lacing(p, n).subrange(0, all_lacing(p, m).len() as int) =~= all_lacing(p, m));
        assert(all_data(p, n).subrange(0, all_data(p, m).len() as int) =~= all_data(p, m));
    }
}

/// Where packet `m`'s segments and data sit in the whole run: segment `j` of
/// it is its lacing's segment `j`, the data before its `j`-th segment is the
/// earlier packets' data and `255 * j` of its own bytes, and its bytes are
/// the data between the earlier packets' and its own end.
pub(crate) proof fn lemma_packet_place(p: Seq<(Seq<u8>, i64)>, n: nat, m: nat, j: nat)
    requires
        m < n <= p.len(),
        j <= p[m as int].0.len() / 255 + 1,
    ensures
        all_lacing(p, (m + 1) as nat).len() == all_lacing(p, m).len() + p[m as int].0.len() / 255 + 1,
        all_data(p, (m + 1) as nat).len() == all_data(p, m).len() + p[m as int].0.len(),
        all_lacing(p, (m + 1) as nat).len() <= all_lacing(p, n).len(),
        j < p[m as int].0.len() / 255 + 1 ==> all_lacing(p, n)[(all_lacing(p, m).len() + j) as int]
            == packet_lacing(p[m as int].0.len(), p[m as int].1)[j as int],
        j <= p[m as int].0.len() / 255 ==> values_sum(all_lacing(p, n), 0, all_lacing(p, m).len() + j)
            == all_data(p, m).len() + 255 * j,
        j == p[m as int].0.len() / 255 + 1 ==> values_sum(
            all_lacing(p, n),
            0,
            all_lacing(p, m).len() + j,
        ) == all_data(p, m).len() + p[m as int].0.len(),
        all_data(p, (m + 1) as nat).len() <= all_data(p, n).len(),
        all_data(p, n).subrange(
            all_data(p, m).len() as int,
            all_data(p, (m + 1) as nat).len() as int,
        ) == p[m as int].0,
{
    let s = all_lacing(p, n);
    let a = all_lacing(p, m);
    let len = p[m as int].0.len();
    let l = packet_lacing(len, p[m as int].1);
    lemma_all_prefix(p, (m + 1) as nat, n);
    lemma_all_prefix(p, m, (m + 1) as nat);
    assert(all_lacing(p, (m + 1) as nat) == a + l);
    assert(all_data(p, (m + 1) as nat) == all_data(p, m) + p[m as int].0);
    if j < len / 255 + 1 {
        assert(s[(a.len() + j) as int] == all_lacing(p, (m + 1) as nat)[(a.len() + j) as int]);
    }
    lemma_values_sum_split(s, 0, a.len(), j);
    lemma_values_sum_ext(s, 0, a, 0, a.len());
    lemma_all_sum(p, m);
    assert forall|i: int| 0 <= i < j implies #[trigger] s[a.len() + i].0 == l[0 + i].0 by {
        assert(s[a.len() + i] == all_lacing(p, (m + 1) as nat)[a.len() + i]);
    }
    lemma_values_sum_ext(s, a.len() as int, l, 0, j);
    if j <= len / 255 {
        lemma_lacing_prefix_sum(len, p[m as int].1, j);
    } else {
        crate::ogg::lemma_lacing_sum(len, p[m as int].1);
    }
    let ad = all_data(p, n);
    assert(ad.subrange(all_data(p, m).len() as int, all_data(p, (m + 1) as nat).len() as int)
        =~= all_data(p, (m + 1) as nat).subrange(
        all_data(p, m).len() as int,
        all_data(p, (m + 1) as nat).len() as int,
    ));
}

/// After the segments of the first `m` packets and `j` segments of packet
/// `m`, the reassembler holds the first `m` packets whole and the first
/// `255 * j` bytes of packet `m`.
proof fn lemma_reasm_at(p: Seq<(Seq<u8>, i64)>, n: nat, m: nat, j: nat)
    requires
        n <= p.len(),
        m < n && j <= p[m as int].0.len() / 255 || m == n && j == 0,
    ensures
        reasm(all_lacing(p, n), all_data(p, n), all_lacing(p, m).len() + j).1 == packet_data(p, m),
        j == 0 ==> reasm(all_lacing(p, n), all_data(p, n), all_lacing(p, m).len() + j).0 == Seq::<
            u8,
        >::empty(),
        j > 0 ==> reasm(all_lacing(p, n), all_data(p, n), all_lacing(p, m).len() + j).0 == p[m as int].0.take(
            255 * j as int,
        ),
    decreases m, j,
{
    let s = all_lacing(p, n);
    let d = all_data(p, n);
    if j > 0 {
        let j0 = (j - 1) as nat;
        lemma_reasm_at(p, n, m, j0);
        lemma_packet_place(p, n, m, j0);
        lemma_packet_place(p, n, m, j);
        let x = p[m as int].0;
        let ad = all_data(p, m).len();
        let k = all_lacing(p, m).len() + j;
        assert(k - 1 == all_lacing(p, m).len() + j0);
        let prev = reasm(s, d, (k - 1) as nat);
        let chunk = d.subrange(ad + 255 * j0 as int, ad + 255 * j as int);
        assert(chunk =~= x.subrange(255 * j0 as int, 255 * j as int)) by {
            assert(d.subrange(ad as int, all_data(p, (m + 1) as nat).len() as int) == x);
        }
        assert(s[k - 1].0 == 255);
        if j0 == 0 {
            assert(prev.0 + chunk =~= x.take(255 * j as int));
        } else {
            assert(prev.0 + chunk =~= x.take(255 * j as int));
        }
    } else if m > 0 {
        let q = (m - 1) as nat;
        let x = p[q as int].0;
        let len = x.len();
        let jj = len / 255;
        lemma_reasm_at(p, n, q, jj);
        lemma_packet_place(p, n, q, jj);
        lemma_packet_place(p, n, q, jj + 1);
        let ad = all_data(p, q).len();
        let k = all_lacing(p, m).len();
        assert(k - 1 == all_lacing(p, q).len() + jj);
        let prev = reasm(s, d, (k - 1) as nat);
        let chunk = d.subrange(ad + 255 * jj as int, ad + len as int);
        assert(chunk =~= x.subrange(255 * jj as int, len as int)) by {
            assert(d.subrange(ad as int, all_data(p, m).len() as int) == x);
        }
        assert(s[k - 1].0 < 255);
        assert(prev.0 + chunk =~= x);
        assert(prev.1.push(x) =~= packet_data(p, m));
    } else {
        assert(packet_data(p, 0) =~= Seq::<Seq<u8>>::empty());
    }
}

/// Segment `k` of the run is segment `r.1` of packet `r.0`, or the end of the
/// run.
proof fn lemma_locate(p: Seq<(Seq<u8>, i64)>, n: nat, k: nat) -> (r: (nat, nat))
    requires
        n <= p.len(),
        k <= all_lacing(p, n).len(),
    ensures
        r.0 < n && r.1 <= p[r.0 as int].0.len() / 255 || r.0 == n && r.1 == 0,
        k == all_lacing(p, r.0).len() + r.1,
    decreases n,
{
    if n == 0 {
        (0, 0)
    } else {
        let q = (n - 1) as nat;
        let lq = all_lacing(p, q).len();
        if k >= lq {
            let j = (k - lq) as nat;
            if j == p[q as int].0.len() / 255 + 1 {
                (n, 0)
            } else {
                (q, j)
            }
        } else {
            lemma_locate(p, q, k)
        }
    }
}

/// At every point of the run the finished packets are the first few packets,
/// so the first of them, once there, is the first packet.
proof fn lemma_reasm_first(p: Seq<(Seq<u8>, i64)>, n: nat, k: nat)
    requires
        n <= p.len(),
        k <= all_lacing(p, n).len(),
    ensures
        reasm(all_lacing(p, n), all_data(p, n), k).1.len() <= n,
        reasm(all_lacing(p, n), all_data(p, n), k).1.len() > 0 ==> reasm(
            all_lacing(p, n),
            all_data(p, n),
            k,
        ).1[0] == p[0].0,
{
    let r = lemma_locate(p, n, k);
    lemma_reasm_at(p, n, r.0, r.1);
}

/// The reassembler's state as the demuxer holds it: the number of header
/// packets is known once the mapping header is in.
pub open spec fn packets_state(r: (Seq<u8>, Seq<Seq<u8>>)) -> Packets {
    Packets {
        partial: r.0,
        done: r.1,
        wanted: if r.1.len() == 0 {
            None
        } else {
            match spec_mapping_count(r.1[0]) {
                Ok(c) => Some(1 + c),
                Err(_) => None,
            }
        },
    }
}

/// Reading segments `i..count` of a page that holds segments
/// `idx..idx + count` of the run, and their data, carries the reassembly on
/// from segment `idx + i` to segment `idx + count`.
proof fn lemma_segments(
    b: Seq<u8>,
    tbl: int,
    count: nat,
    i: nat,
    p: Seq<(Seq<u8>, i64)>,
    n: nat,
    idx: nat,
)
    requires
        n <= p.len(),
        n > 0,
        spec_mapping_count(p[0].0) is Ok,
        i <= count,
        idx + count <= all_lacing(p, n).len(),
        0 <= tbl,
        tbl + count + values_sum(all_lacing(p, n), idx as int, count) <= b.len(),
        forall|j: int| 0 <= j < count ==> b[tbl + j] == #[trigger] all_lacing(p, n)[idx + j].0,
        b.subrange(
            tbl + count,
            tbl + count + values_sum(all_lacing(p, n), idx as int, count),
        ) == all_data(p, n).subrange(
            values_sum(all_lacing(p, n), 0, idx) as int,
            values_sum(all_lacing(p, n), 0, idx + count) as int,
        ),
    ensures
        spec_segments(
            b,
            tbl,
            count,
            i,
            tbl + count + values_sum(all_lacing(p, n), idx as int, i),
            packets_state(reasm(all_lacing(p, n), all_data(p, n), idx + i)),
            false,
        ) == SegOutcome::Continue(packets_state(reasm(all_lacing(p, n), all_data(p, n), idx + count))),
    decreases count - i,
{
    let s = all_lacing(p, n);
    let d = all_data(p, n);
    if i < count {
        let k = idx + i;
        let seg_pos = tbl + count + values_sum(s, idx as int, i);
        let sz = b[tbl + i] as int;
        assert(b[tbl + i] == s[(idx + i) as int].0);
        lemma_values_sum_split(s, idx as int, i, 1);
        lemma_values_sum_split(s, 0, idx, i);
        lemma_values_sum_split(s, 0, idx, i + 1);
        lemma_values_sum_split(s, idx as int, i + 1, (count - i - 1) as nat);
        lemma_values_sum_split(s, 0, idx, count);
        lemma_all_sum(p, n);
        lemma_values_sum_split(s, 0, idx + count, (s.len() - idx - count) as nat);
        let v0 = values_sum(s, 0, idx);
        let vi = values_sum(s, idx as int, i);
        assert(values_sum(s, idx as int, i + 1) == vi + sz);
        assert(b.subrange(seg_pos, seg_pos + sz) =~= d.subrange((v0 + vi) as int, v0 + vi + sz)) by {
            let body = b.subrange(tbl + count, tbl + count + values_sum(s, idx as int, count));
            assert forall|t: int| 0 <= t < sz implies #[trigger] b.subrange(seg_pos, seg_pos + sz)[t]
                == d.subrange((v0 + vi) as int, v0 + vi + sz)[t] by {
                assert(b.subrange(seg_pos, seg_pos + sz)[t] == body[vi + t]);
                assert(d.subrange((v0 + vi) as int, v0 + vi + sz)[t] == d.subrange(
                    v0 as int,
                    values_sum(s, 0, idx + count) as int,
                )[vi + t]);
            }
        }
        assert(values_sum(s, 0, k) == v0 + vi);
        assert(values_sum(s, 0, k + 1) == v0 + vi + sz);
        lemma_reasm_first(p, n, k);
        lemma_reasm_first(p, n, k + 1);
        let st = packets_state(reasm(s, d, k));
        let next = packets_state(reasm(s, d, k + 1));
        assert(reasm(s, d, k + 1) == {
            let prev = reasm(s, d, k);
            let chunk = d.subrange(values_sum(s, 0, k) as int, values_sum(s, 0, k + 1) as int);
            if s[k as int].0 < 255 {
                (Seq::<u8>::empty(), prev.1.push(prev.0 + chunk))
            } else {
                (prev.0 + chunk, prev.1)
            }
        });
        lemma_segments(b, tbl, count, i + 1, p, n, idx);
        assert(idx + (i + 1) == k + 1);
    }
}

/// A little-endian 32-bit field reads back as the value written.
proof fn lemma_le32_read(b: Seq<u8>, i: int, v: u32)
    requires
        0 <= i,
        i + 4 <= b.len(),
        b.subrange(i, i + 4) == le32(v),
    ensures
        le_u32_at(b, i) == v,
{
    let b0 = b[i];
    let b1 = b[i + 1];
    let b2 = b[i + 2];
    let b3 = b[i + 3];
    assert(b0 == b.subrange(i, i + 4)[0]);
    assert(b1 == b.subrange(i, i + 4)[1]);
    assert(b2 == b.subrange(i, i + 4)[2]);
    assert(b3 == b.subrange(i, i + 4)[3]);
    assert((b0 as u32) | ((b1 as u32) << 8u32) | ((b2 as u32) << 16u32) | ((b3 as u32) << 24u32)
        == v) by (bit_vector)
        requires
            b0 == v as u8,
            b1 == (v >> 8u32) as u8,
            b2 == (v >> 16u32) as u8,
            b3 == (v >> 24u32) as u8,
    ;
}

/// The beginning-of-stream and end-of-stream bits of a page's flags.
pub(crate) proof fn lemma_page_flags(first: bool, eos: bool, continued: bool)
    ensures
        (page_flags(first, eos, continued) & FLAG_BOS != 0) == first,
        (page_flags(first, eos, continued) & FLAG_EOS != 0) == eos,
{
    let x: u8 = if first {
        2u8
    } else {
        0u8
    };
    let y: u8 = if eos {
        4u8
    } else {
        0u8
    };
    let z: u8 = if continued {
        1u8
    } else {
        0u8
    };
    assert(page_flags(first, eos, continued) == x | y | z);
    assert(((x | y | z) & 2u8 != 0) == (x == 2u8) && ((x | y | z) & 4u8 != 0) == (y == 4u8))
        by (bit_vector)
        requires
            x == 0u8 || x == 2u8,
            y == 0u8 || y == 4u8,
            z == 0u8 || z == 1u8,
    ;
}

/// The fields of a page the muxer writes, read back where the demuxer reads
/// them.
proof fn lemma_read_page(b: Seq<u8>, pos: int, flags: u8, g: i64, sq: u32, vals: Seq<u8>, body: Seq<u8>)
    requires
        0 <= pos,
        1 <= vals.len() <= 255,
        pos + page_sealed(flags, g, sq, vals, body).len() <= b.len(),
        b.subrange(pos, pos + page_sealed(flags, g, sq, vals, body).len()) == page_sealed(
            flags,
            g,
            sq,
            vals,
            body,
        ),
    ensures
        page_sealed(flags, g, sq, vals, body).len() == 27 + vals.len() + body.len(),
        ogg_magic_at(b, pos),
        b[pos + 4] == 0,
        b[pos + 5] == flags,
        le_u32_at(b, pos + 14) == ENCODER_SERIAL,
        b[pos + 26] as nat == vals.len(),
        forall|j: int| 0 <= j < vals.len() ==> b[pos + 27 + j] == #[trigger] vals[j],
        b.subrange(pos + 27 + vals.len(), pos + 27 + vals.len() + body.len()) == body,
        spec_ogg_crc32(zeroed_page(b, pos, pos + 27 + vals.len() + body.len())) == le_u32_at(
            b,
            pos + 22,
        ),
{
    let z = page_unsealed(flags, g, sq, vals, body);
    let pg = page_sealed(flags, g, sq, vals, body);
    let crc = spec_ogg_crc32(z);
    let nv = vals.len();
    assert(z.len() == 27 + nv + body.len());
    assert(pg.len() == z.len());
    assert forall|t: int| 0 <= t < pg.len() && !(22 <= t < 26) implies #[trigger] pg[t] == z[t] by {}
    assert forall|t: int| 0 <= t < pg.len() implies #[trigger] b[pos + t] == pg[t] by {
        assert(b.subrange(pos, pos + pg.len())[t] == b[pos + t]);
    }
    assert(z[0] == 0x4Fu8 && z[1] == 0x67u8 && z[2] == 0x67u8 && z[3] == 0x53u8);
    assert(b[pos] == pg[0] && b[pos + 1] == pg[1] && b[pos + 2] == pg[2] && b[pos + 3] == pg[3]);
    assert(b[pos + 4] == pg[4] && b[pos + 5] == pg[5] && b[pos + 26] == pg[26]);
    assert(z[4] == 0 && z[5] == flags && z[26] == nv as u8);
    assert forall|j: int| 0 <= j < nv implies b[pos + 27 + j] == #[trigger] vals[j] by {
        assert(b[pos + 27 + j] == pg[27 + j]);
        assert(z[27 + j] == vals[j]);
    }
    assert(b.subrange(pos + 27 + nv, pos + 27 + nv + body.len()) =~= body) by {
        assert forall|t: int| 0 <= t < body.len() implies b.subrange(
            pos + 27 + nv,
            pos + 27 + nv + body.len(),
        )[t] == body[t] by {
            assert(b[pos + 27 + nv + t] == pg[27 + nv + t]);
            assert(z[27 + nv + t] == body[t]);
        }
    }
    assert(b.subrange(pos + 14, pos + 18) =~= le32(ENCODER_SERIAL)) by {
        assert forall|t: int| 0 <= t < 4 implies b.subrange(pos + 14, pos + 18)[t] == le32(
            ENCODER_SERIAL,
        )[t] by {
            assert(b[pos + 14 + t] == pg[14 + t]);
            assert(z[14 + t] == le32(ENCODER_SERIAL)[t]);
        }
    }
    lemma_le32_read(b, pos + 14, ENCODER_SERIAL);
    assert(b.subrange(pos + 22, pos + 26) =~= le32(crc)) by {
        assert forall|t: int| 0 <= t < 4 implies b.subrange(pos + 22, pos + 26)[t] == le32(crc)[t] by {
            assert(b[pos + 22 + t] == pg[22 + t]);
        }
    }
    lemma_le32_read(b, pos + 22, crc);
    assert(zeroed_page(b, pos, pos + 27 + nv + body.len()) =~= z) by {
        assert forall|t: int| 0 <= t < z.len() implies zeroed_page(b, pos, pos + 27 + nv + body.len())[t]
            == z[t] by {
            if 22 <= t < 26 {
                assert(z[t] == 0);
            } else {
                assert(b[pos + t] == pg[t]);
            }
        }
    }
}

/// A page's lacing sum read from its table is the sum of the run's values it
/// holds.
proof fn lemma_seg_sum_values(b: Seq<u8>, tbl: int, s: Seq<(u8, Option<i64>)>, idx: int, c: nat)
    requires
        forall|j: int| 0 <= j < c ==> b[tbl + j] == #[trigger] s[idx + j].0,
    ensures
        seg_sum(b, tbl, c) == values_sum(s, idx, c),
    decreases c,
{
    if c > 0 {
        lemma_seg_sum_values(b, tbl, s, idx, (c - 1) as nat);
        assert(b[tbl + (c - 1)] == s[idx + (c - 1)].0);
    }
}

/// The pages from segment `idx` on are at least as long as the data they
/// carry.
proof fn lemma_mux_len(
    s: Seq<(u8, Option<i64>)>,
    d: Seq<u8>,
    fl: nat,
    idx: nat,
    bp: nat,
    sq: u32,
    first: bool,
    continued: bool,
)
    requires
        idx <= s.len(),
        bp + values_sum(s, idx as int, (s.len() - idx) as nat) <= d.len(),
    ensures
        mux_from(s, d, fl, idx, bp, sq, first, continued).len() >= values_sum(
            s,
            idx as int,
            (s.len() - idx) as nat,
        ),
    decreases s.len() - idx,
{
    if idx < s.len() {
        let count = page_count(s.len(), idx, fl);
        let blen = values_sum(s, idx as int, count);
        lemma_values_sum_split(s, idx as int, count, (s.len() - idx - count) as nat);
        lemma_mux_len(
            s,
            d,
            fl,
            idx + count,
            bp + blen,
            sq.wrapping_add(1),
            false,
            s[idx + count - 1].0 == 255,
        );
    }
}

/// One page the muxer wrote, of the FLAC stream the demuxer follows: it
/// passes every check, and its segments decide what comes next. Either they
/// end the demux, or they carry the reassembly from `st` to `st2` and the
/// walk then ends (at the end-of-stream page) or goes on with the next page.
#[verifier::spinoff_prover]
proof fn lemma_demux_page(
    b: Seq<u8>,
    pos: int,
    serial: Option<u32>,
    st: Packets,
    outcome: SegOutcome,
    flags: u8,
    g: i64,
    sq: u32,
    vals: Seq<u8>,
    body: Seq<u8>,
    headers_only: bool,
)
    requires
        0 <= pos,
        1 <= vals.len() <= 255,
        pos + page_sealed(flags, g, sq, vals, body).len() <= b.len(),
        b.subrange(pos, pos + page_sealed(flags, g, sq, vals, body).len()) == page_sealed(
            flags,
            g,
            sq,
            vals,
            body,
        ),
        serial is None ==> flags & FLAG_BOS != 0 && body.len() >= 5 && body[0] == 0x7Fu8 && body[1]
            == 0x46u8 && body[2] == 0x4Cu8 && body[3] == 0x41u8 && body[4] == 0x43u8,
        serial is Some ==> serial == Some(ENCODER_SERIAL),
        seg_sum(vals, 0, vals.len()) == body.len(),
        spec_segments(b, pos + 27, vals.len(), 0, pos + 27 + vals.len(), st, headers_only)
            == outcome,
    ensures
        spec_demux_from(b, pos, serial, st, headers_only) == match outcome {
            SegOutcome::Done(r) => r,
            SegOutcome::Continue(st2) => if flags & FLAG_EOS != 0 {
                spec_finish(Some(ENCODER_SERIAL), st2, headers_only)
            } else {
                spec_demux_from(
                    b,
                    pos + page_sealed(flags, g, sq, vals, body).len(),
                    Some(ENCODER_SERIAL),
                    st2,
                    headers_only,
                )
            },
        },
{
    lemma_read_page(b, pos, flags, g, sq, vals, body);
    let nv = vals.len();
    let tbl = pos + 27;
    assert forall|j: int| 0 <= j < nv implies b[tbl + j] == #[trigger] vals[j] by {
        assert(b[pos + 27 + j] == vals[j]);
    }
    lemma_seg_sum_vals(b, tbl, vals, nv);
    let bs = tbl + nv;
    if serial is None {
        assert(b[bs] == body[0] && b[bs + 1] == body[1] && b[bs + 2] == body[2] && b[bs + 3]
            == body[3] && b[bs + 4] == body[4]) by {
            assert forall|t: int| 0 <= t < 5 implies b[bs + t] == #[trigger] body[t] by {
                assert(b.subrange(bs, bs + body.len())[t] == body[t]);
            }
        }
    }
}

/// A page's lacing sum read from its table is the sum of its values.
proof fn lemma_seg_sum_vals(b: Seq<u8>, tbl: int, vals: Seq<u8>, c: nat)
    requires
        c <= vals.len(),
        forall|j: int| 0 <= j < vals.len() ==> b[tbl + j] == #[trigger] vals[j],
    ensures
        seg_sum(b, tbl, c) == seg_sum(vals, 0, c),
    decreases c,
{
    if c > 0 {
        lemma_seg_sum_vals(b, tbl, vals, (c - 1) as nat);
        assert(b[tbl + (c - 1)] == vals[0 + (c - 1)]);
    }
}

/// A page holds between one and 255 segments, none past the run's end.
proof fn lemma_page_count(len: nat, idx: nat, fl: nat)
    requires
        idx < len,
    ensures
        1 <= page_count(len, idx, fl) <= 255,
        idx + page_count(len, idx, fl) <= len,
{
}

/// The data of the run's first `count` segments opens with the first
/// packet's first five bytes.
proof fn lemma_first_body(p: Seq<(Seq<u8>, i64)>, count: nat)
    requires
        p.len() >= 1,
        p[0].0.len() >= 5,
        1 <= count <= all_lacing(p, p.len()).len(),
    ensures
        ({
            let s = all_lacing(p, p.len());
            let d = all_data(p, p.len());
            let blen = values_sum(s, 0, count);
            &&& 5 <= blen <= d.len()
            &&& forall|t: int| 0 <= t < 5 ==> #[trigger] d.subrange(0, blen as int)[t] == p[0].0[t]
        }),
{
    let n = p.len();
    let s = all_lacing(p, n);
    let d = all_data(p, n);
    let x = p[0].0;
    lemma_packet_place(p, n, 0, 0);
    lemma_packet_place(p, n, 0, 1);
    assert(all_lacing(p, 0).len() == 0);
    assert(all_data(p, 0).len() == 0);
    lemma_values_sum_split(s, 0, 1, (count - 1) as nat);
    lemma_values_sum_split(s, 0, count, (s.len() - count) as nat);
    lemma_all_sum(p, n);
    let blen = values_sum(s, 0, count);
    assert(d.subrange(0, x.len() as int) == x);
    assert forall|t: int| 0 <= t < 5 implies #[trigger] d.subrange(0, blen as int)[t] == x[t] by {
        assert(d.subrange(0, x.len() as int)[t] == d[t]);
    }
}

/// Demuxing the muxer's pages from the one that starts at segment `idx` of
/// the run, with the reassembly of the segments before it, gives the native
/// stream of all the packets.
#[verifier::spinoff_prover]
#[verifier::rlimit(60)]
proof fn lemma_demux_pages(
    b: Seq<u8>,
    pos: int,
    p: Seq<(Seq<u8>, i64)>,
    idx: nat,
    sq: u32,
    continued: bool,
)
    requires
        p.len() >= 1,
        spec_mapping_count(p[0].0) is Ok,
        idx < all_lacing(p, p.len()).len(),
        0 <= pos <= b.len(),
        b.subrange(pos, b.len() as int) == mux_from(
            all_lacing(p, p.len()),
            all_data(p, p.len()),
            p[0].0.len() / 255,
            idx,
            values_sum(all_lacing(p, p.len()), 0, idx),
            sq,
            idx == 0,
            continued,
        ),
    ensures
        spec_demux_from(
            b,
            pos,
            if idx == 0 {
                None
            } else {
                Some(ENCODER_SERIAL)
            },
            packets_state(reasm(all_lacing(p, p.len()), all_data(p, p.len()), idx)),
            false,
        ) == spec_rebuild(packet_data(p, p.len()), None),
        ogg_magic_at(b, pos),
    decreases all_lacing(p, p.len()).len() - idx,
{
    let n = p.len();
    let s = all_lacing(p, n);
    let d = all_data(p, n);
    let fl = p[0].0.len() / 255;
    let count = page_count(s.len(), idx, fl);
    let bp = values_sum(s, 0, idx);
    let blen = values_sum(s, idx as int, count);
    let eos = idx + count >= s.len();
    let flags = page_flags(idx == 0, eos, continued);
    let vals = Seq::new(count, |j: int| s[idx + j].0);
    let body = d.subrange(bp as int, (bp + blen) as int);
    let g = granule_upto(s, idx as int, count);
    let pg = page_sealed(flags, g, sq, vals, body);
    let rest = mux_from(
        s,
        d,
        fl,
        idx + count,
        bp + blen,
        sq.wrapping_add(1),
        false,
        s[idx + count - 1].0 == 255,
    );
    assert(mux_from(s, d, fl, idx, bp, sq, idx == 0, continued) == pg + rest);
    lemma_page_count(s.len(), idx, fl);
    lemma_values_sum_split(s, 0, idx, count);
    lemma_values_sum_split(s, 0, idx + count, (s.len() - idx - count) as nat);
    lemma_all_sum(p, n);
    assert(body.len() == blen);
    assert(pg.len() == 27 + count + blen);
    assert(b.subrange(pos, pos + pg.len()) =~= pg) by {
        assert(b.subrange(pos, pos + pg.len()) =~= b.subrange(pos, b.len() as int).subrange(
            0,
            pg.len() as int,
        ));
    }
    lemma_read_page(b, pos, flags, g, sq, vals, body);
    lemma_page_flags(idx == 0, eos, continued);
    let tbl = pos + 27;
    assert forall|j: int| 0 <= j < count implies b[tbl + j] == #[trigger] s[idx + j].0 by {
        assert(b[pos + 27 + j] == vals[j]);
    }
    lemma_segments(b, tbl, count, 0, p, n, idx);
    assert forall|j: int| 0 <= j < count implies vals[0 + j] == #[trigger] s[idx + j].0 by {}
    lemma_seg_sum_values(vals, 0, s, idx as int, count);
    let st = packets_state(reasm(s, d, idx));
    let st2 = packets_state(reasm(s, d, idx + count));
    assert(idx + 0 == idx);
    if idx == 0 {
        lemma_first_body(p, count);
        assert(body == d.subrange(0, blen as int));
    }
    lemma_demux_page(
        b,
        pos,
        if idx == 0 {
            None
        } else {
            Some(ENCODER_SERIAL)
        },
        st,
        SegOutcome::Continue(st2),
        flags,
        g,
        sq,
        vals,
        body,
        false,
    );
    if eos {
        lemma_reasm_at(p, n, n, 0);
        assert(all_lacing(p, n).len() + 0 == idx + count);
    } else {
        let pos2 = pos + pg.len();
        assert(b.subrange(pos2, b.len() as int) =~= rest) by {
            assert(b.subrange(pos2, b.len() as int) =~= b.subrange(pos, b.len() as int).subrange(
                pg.len() as int,
                (b.len() - pos) as int,
            ));
        }
        lemma_demux_pages(b, pos2, p, idx + count, sq.wrapping_add(1), s[idx + count - 1].0 == 255);
    }
}

/// Demuxing what the muxer writes for packets that open with a mapping header
/// gives back the packets' native stream, whatever the packets' lengths; the
/// Ogg stream starts with a page and is no shorter than the packets' data.
pub proof fn lemma_demux_of_mux(p: Seq<(Seq<u8>, i64)>)
    requires
        p.len() >= 1,
        spec_mapping_count(p[0].0) is Ok,
    ensures
        ogg_magic_at(spec_mux(p), 0),
        spec_to_native(spec_mux(p), false) == spec_rebuild(packet_data(p, p.len()), None),
        spec_mux(p).len() >= all_data(p, p.len()).len(),
{
    let n = p.len();
    let s = all_lacing(p, n);
    let d = all_data(p, n);
    lemma_packet_place(p, n, 0, 0);
    assert(all_lacing(p, 0).len() == 0);
    let b = spec_mux(p);
    let fl = p[0].0.len() / 255;
    assert(b == mux_from(s, d, fl, 0, 0, 0, true, false));
    assert(values_sum(s, 0, 0) == 0);
    assert(b.subrange(0, b.len() as int) =~= b);
    lemma_demux_pages(b, 0, p, 0, 0, false);
    assert(packets_state(reasm(s, d, 0)) == Packets {
        partial: Seq::empty(),
        done: Seq::empty(),
        wanted: None,
    });
    lemma_all_sum(p, n);
    lemma_mux_len(s, d, fl, 0, 0, 0, true, false);
}

/// Concatenating packets `from..to` puts packet `from` first.
proof fn lemma_concat_front(q: Seq<Seq<u8>>, from: int, to: int)
    requires
        from < to,
    ensures
        concat_packets(q, from, to) == q[from] + concat_packets(q, from + 1, to),
    decreases to - from,
{
    if from + 1 < to {
        lemma_concat_front(q, from, to - 1);
        assert(q[from] + concat_packets(q, from + 1, to - 1) + q[to - 1] =~= q[from] + (
        concat_packets(q, from + 1, to - 1) + q[to - 1]));
    } else {
        assert(concat_packets(q, from, from) =~= Seq::<u8>::empty());
        assert(concat_packets(q, from + 1, to) =~= Seq::<u8>::empty());
        assert(Seq::<u8>::empty() + q[from] =~= q[from] + Seq::<u8>::empty());
    }
}

/// The packets' data back to back is their concatenation.
proof fn lemma_all_data_concat(p: Seq<(Seq<u8>, i64)>, n: nat, m: nat)
    requires
        m <= n <= p.len(),
    ensures
        all_data(p, m) == concat_packets(packet_data(p, n), 0, m as int),
    decreases m,
{
    if m > 0 {
        lemma_all_data_concat(p, n, (m - 1) as nat);
    }
}

/// The frame packets' data back to back is the native frames.
proof fn lemma_concat_frames(
    s: Seq<Seq<i32>>,
    nch: nat,
    bps: u32,
    start: nat,
    fnum: nat,
    total: nat,
    q: Seq<Seq<u8>>,
    off: int,
)
    requires
        0 <= off,
        off + frame_packets(s, nch, bps, start, fnum, total).len() <= q.len(),
        forall|i: int|
            0 <= i < frame_packets(s, nch, bps, start, fnum, total).len() ==> q[off + i]
                == (#[trigger] frame_packets(s, nch, bps, start, fnum, total)[i]).0,
    ensures
        concat_packets(q, off, off + frame_packets(s, nch, bps, start, fnum, total).len())
            == frames_from(s, nch, bps, start, fnum, total),
    decreases total - start,
{
    let f = frame_packets(s, nch, bps, start, fnum, total);
    if start < total {
        let block: nat = if total - start < BLOCK_SIZE {
            (total - start) as nat
        } else {
            BLOCK_SIZE as nat
        };
        let rest = frame_packets(s, nch, bps, start + block, fnum + 1, total);
        assert(f == seq![
            (
                spec_frame_bytes(s, nch, bps, start as int, block as int, fnum as u64),
                (start + block) as i64,
            ),
        ] + rest);
        assert forall|i: int| 0 <= i < rest.len() implies q[(off + 1) + i] == (
        #[trigger] rest[i]).0 by {
            assert(f[1 + i] == rest[i]);
            assert(q[off + (1 + i)] == f[1 + i].0);
        }
        lemma_concat_frames(s, nch, bps, start + block, fnum + 1, total, q, off + 1);
        assert(q[off] == f[0].0);
        lemma_concat_front(q, off, off + f.len());
    } else {
        assert(concat_packets(q, off, off + f.len()) =~= Seq::<u8>::empty());
    }
}

/// The native stream an Ogg encoding carries: the marker, STREAMINFO (not
/// the last block), the comment block, then the frames.
pub open spec fn ogg_native_stream(a: AudioView) -> Seq<u8> {
    let total = frames_of(a.samples);
    flac_marker() + spec_streaminfo_block(a, total, false) + spec_vorbis_comment_block()
        + frames_from(a.samples, a.channels as nat, a.bits_per_sample as u32, 0, 0, total)
}

/// The Ogg encoding of valid audio demuxes to its native stream, which is no
/// longer than the Ogg stream.
pub proof fn lemma_ogg_demux(a: AudioView)
    requires
        validate_fault(a) is None,
        frames_of(a.samples) < 0x10_0000_0000,
    ensures
        ogg_magic_at(spec_mux(ogg_packets(a)), 0),
        spec_to_native(spec_mux(ogg_packets(a)), false) == Ok::<Seq<u8>, ErrorView>(
            ogg_native_stream(a),
        ),
        ogg_native_stream(a).len() <= spec_mux(ogg_packets(a)).len(),
{
    let total = frames_of(a.samples);
    let nch = a.channels as nat;
    let bps = a.bits_per_sample as u32;
    let p = ogg_packets(a);
    let n = p.len();
    let fp = frame_packets(a.samples, nch, bps, 0, 0, total);
    let mp = mapping_packet(a, total);
    let si = spec_streaminfo_block(a, total, false);
    let vc = spec_vorbis_comment_block();
    lemma_streaminfo_body(a, total);
    assert(si.len() == 38);
    assert(mp.len() == 51);
    assert(p[0].0 == mp);
    assert(p[1].0 == vc);
    assert(mp[0] == 0x7Fu8 && mp[1] == 0x46u8 && mp[2] == 0x4Cu8 && mp[3] == 0x41u8 && mp[4]
        == 0x43u8 && mp[9] == 0x66u8 && mp[10] == 0x4Cu8 && mp[11] == 0x61u8 && mp[12] == 0x43u8);
    lemma_demux_of_mux(p);
    let q = packet_data(p, n);
    assert(mp.subrange(9, 51) =~= flac_marker() + si);
    assert forall|i: int| 0 <= i < fp.len() implies q[2 + i] == (#[trigger] fp[i]).0 by {
        assert(p[2 + i] == fp[i]);
    }
    lemma_concat_frames(a.samples, nch, bps, 0, 0, total, q, 2);
    lemma_concat_front(q, 1, n as int);
    assert(q[1] == vc);
    let fr = frames_from(a.samples, nch, bps, 0, 0, total);
    assert(concat_packets(q, 1, n as int) == vc + fr);
    assert(q[0] == mp);
    assert(ogg_native_stream(a) =~= mp.subrange(9, 51) + (vc + fr));
    lemma_all_data_concat(p, n, n);
    lemma_concat_front(q, 0, n as int);
}

/// The header of the native stream an Ogg encoding carries, whatever
/// follows the comment block: STREAMINFO's body is bytes 8 to 42 and the
/// frames start at byte 61.
proof fn lemma_ogg_native_header(a: AudioView, rest: Seq<u8>)
    requires
        validate_fault(a) is None,
        frames_of(a.samples) < 0x10_0000_0000,
    ensures
        ({
            let nb = flac_marker() + spec_streaminfo_block(a, frames_of(a.samples), false)
                + spec_vorbis_comment_block() + rest;
            &&& spec_header(nb) == Ok::<(int, int), ErrorView>((8, 61))
            &&& nb.subrange(8, 42) == bytes_of_bits(streaminfo_bits(a, frames_of(a.samples)))
                + spec_md5(sample_bytes(a.samples, a.bits_per_sample))
            &&& nb.len() == 61 + rest.len()
        }),
{
    let total = frames_of(a.samples);
    lemma_streaminfo_body(a, total);
    let sib = streaminfo_bits(a, total);
    let body = bytes_of_bits(sib) + spec_md5(sample_bytes(a.samples, a.bits_per_sample));
    let si = spec_streaminfo_block(a, total, false);
    let vc = spec_vorbis_comment_block();
    let nb = flac_marker() + si + vc + rest;
    assert(si =~= seq![0u8, 0u8, 0u8, 0x22u8] + body);
    assert(nb.subrange(8, 42) =~= body);
    assert(nb[4] == 0u8 && nb[5] == 0 && nb[6] == 0 && nb[7] == 0x22u8);
    assert(nb[42] == 0x84u8 && nb[43] == 0 && nb[44] == 0 && nb[45] == 15u8);
    assert(0u8 & 0x80u8 == 0 && 0u8 & 0x7Fu8 == 0 && 0x84u8 & 0x80u8 != 0 && 0x84u8 & 0x7Fu8
        == 4u8) by (bit_vector);
    assert(stream_info_fault(nb.subrange(8, 42)) is None);
    assert(spec_blocks_from(nb, 42, Some(8)) == Ok::<(int, int), ErrorView>((8, 61)));
    assert(spec_blocks_from(nb, 4, None) == Ok::<(int, int), ErrorView>((8, 61)));
}

/// The native stream an Ogg encoding carries decodes to the audio.
proof fn lemma_ogg_native_decodes(a: AudioView)
    requires
        validate_fault(a) is None,
        frames_of(a.samples) * a.channels <= MAX_TOTAL_SAMPLES,
        ogg_native_stream(a).len() - 61 <= usize::MAX / 8,
    ensures
        spec_decode_native(ogg_native_stream(a)) == Ok::<AudioView, ErrorView>(a),
{
    let total = frames_of(a.samples);
    let nch = a.channels as nat;
    assert(total <= MAX_TOTAL_SAMPLES) by (nonlinear_arith)
        requires
            total * nch <= MAX_TOTAL_SAMPLES,
            nch >= 1,
    ;
    lemma_encoded_header(a);
    lemma_streaminfo_body(a, total);
    lemma_encoded_frames(a);
    let nb = ogg_native_stream(a);
    let sib = streaminfo_bits(a, total);
    let body = bytes_of_bits(sib) + spec_md5(sample_bytes(a.samples, a.bits_per_sample));
    let fr = frames_from(a.samples, nch, a.bits_per_sample as u32, 0, 0, total);
    lemma_ogg_native_header(a, fr);
    assert(nb.subrange(61, nb.len() as int) =~= fr);
    let eb = encoded_stream(a);
    assert(nb.subrange(61, nb.len() as int) == eb.subrange(42, eb.len() as int));
    assert(body_channels(body) == nch);
    assert(body_total(body) == total);
    assert(params_fault(body) is None);
    assert(trim(a.samples, total) =~= a.samples) by {
        assert(rectangular(a.samples));
    }
}

/// Lossless round trip through the Ogg container: the `.oga` stream
/// `encode_ogg` writes for valid audio decodes back to exactly that audio
/// (parameters and every sample), as long as the audio is within the
/// decoder's sample cap and the stream can be addressed bit by bit.
pub proof fn law_ogg_round_trip(a: AudioView)
    requires
        spec_encode_ogg(a) is Ok,
        frames_of(a.samples) * a.channels <= MAX_TOTAL_SAMPLES,
        spec_encode_ogg(a)->Ok_0.len() <= usize::MAX / 8,
    ensures
        spec_decode(spec_encode_ogg(a)->Ok_0) == Ok::<AudioView, ErrorView>(a),
{
    let total = frames_of(a.samples);
    let nch = a.channels as nat;
    assert(total <= MAX_TOTAL_SAMPLES) by (nonlinear_arith)
        requires
            total * nch <= MAX_TOTAL_SAMPLES,
            nch >= 1,
    ;
    lemma_ogg_demux(a);
    lemma_ogg_native_decodes(a);
}

/// Re-encoding through the Ogg container is stable: decoding what
/// `encode_ogg` wrote and encoding the result again reproduces the same
/// bytes.
pub proof fn law_ogg_reencode_stable(a: AudioView)
    requires
        spec_encode_ogg(a) is Ok,
        frames_of(a.samples) * a.channels <= MAX_TOTAL_SAMPLES,
        spec_encode_ogg(a)->Ok_0.len() <= usize::MAX / 8,
    ensures
        spec_decode(spec_encode_ogg(a)->Ok_0) matches Ok(x) && spec_encode_ogg(x) == spec_encode_ogg(
            a,
        ),
{
    law_ogg_round_trip(a);
}

/// Both containers read alike: the `.flac` stream `encode` writes and the
/// `.oga` stream `encode_ogg` writes for the same valid audio decode to the
/// same result.
#[verifier::spinoff_prover]
#[verifier::rlimit(40)]
pub proof fn law_containers_agree(a: AudioView)
    requires
        spec_encode(a) is Ok,
        frames_of(a.samples) * a.channels <= MAX_TOTAL_SAMPLES,
        spec_encode_ogg(a)->Ok_0.len() <= usize::MAX / 8,
    ensures
        spec_decode(spec_encode(a)->Ok_0) == spec_decode(spec_encode_ogg(a)->Ok_0),
{
    let total = frames_of(a.samples);
    let nch = a.channels as nat;
    assert(total <= MAX_TOTAL_SAMPLES) by (nonlinear_arith)
        requires
            total * nch <= MAX_TOTAL_SAMPLES,
            nch >= 1,
    ;
    lemma_ogg_demux(a);
    lemma_encoded_header(a);
    let eb = encoded_stream(a);
    assert(eb.len() - 42 == ogg_native_stream(a).len() - 61);
    law_ogg_round_trip(a);
    law_round_trip(a);
}

/// The start of the segment run of packets whose first two are each shorter
/// than one lacing segment: one segment for each of them.
proof fn lemma_head_run(p: Seq<(Seq<u8>, i64)>)
    requires
        p.len() >= 2,
        p[0].0.len() < 255,
        p[1].0.len() < 255,
    ensures
        ({
            let s = all_lacing(p, p.len());
            let d = all_data(p, p.len());
            let l0 = p[0].0.len();
            let l1 = p[1].0.len();
            &&& s.len() >= 2
            &&& s[0].0 == l0 as u8
            &&& s[1].0 == l1 as u8
            &&& values_sum(s, 0, 1) == l0
            &&& values_sum(s, 0, 2) == l0 + l1
            &&& values_sum(s, 0, s.len()) == d.len()
            &&& d.len() >= l0 + l1
            &&& d.subrange(0, l0 as int) == p[0].0
            &&& d.subrange(l0 as int, (l0 + l1) as int) == p[1].0
        }),
{
    let n = p.len();
    let s = all_lacing(p, n);
    lemma_packet_place(p, n, 0, 0);
    lemma_packet_place(p, n, 0, 1);
    lemma_packet_place(p, n, 1, 0);
    lemma_packet_place(p, n, 1, 1);
    assert(all_lacing(p, 0).len() == 0);
    assert(all_data(p, 0).len() == 0);
    assert(s[0] == packet_lacing(p[0].0.len(), p[0].1)[0]);
    assert(s[1] == packet_lacing(p[1].0.len(), p[1].1)[0]);
    lemma_all_sum(p, n);
}

/// After the first page, which holds the mapping header alone, come the
/// pages from the second segment on.
proof fn lemma_first_page_rest(p: Seq<(Seq<u8>, i64)>)
    requires
        p.len() >= 2,
        p[0].0.len() < 255,
        p[1].0.len() < 255,
    ensures
        ({
            let s = all_lacing(p, p.len());
            let d = all_data(p, p.len());
            let b = spec_mux(p);
            let l0 = p[0].0.len();
            &&& b.len() >= 28 + l0
            &&& b.subrange(28 + l0 as int, b.len() as int) == mux_from(
                s,
                d,
                0,
                1,
                l0,
                1,
                false,
                false,
            )
        }),
{
    let n = p.len();
    let s = all_lacing(p, n);
    let d = all_data(p, n);
    let l0 = p[0].0.len();
    lemma_head_run(p);
    let b = spec_mux(p);
    let flags1 = page_flags(true, false, false);
    let vals1 = Seq::new(1, |j: int| s[0 + j].0);
    let body1 = d.subrange(0, l0 as int);
    let pg1 = page_sealed(flags1, granule_upto(s, 0, 1), 0, vals1, body1);
    let rest1 = mux_from(s, d, 0, 1, l0, 1, false, false);
    assert(l0 / 255 == 0);
    assert(b == pg1 + rest1);
    assert(pg1.len() == 28 + l0);
    assert(b.subrange(28 + l0 as int, b.len() as int) =~= rest1);
}

/// The first page holds the mapping header alone; read for the headers, it
/// leaves that packet finished and two header packets wanted, and the walk
/// goes on with the rest of the pages.
#[verifier::spinoff_prover]
proof fn lemma_first_page(p: Seq<(Seq<u8>, i64)>)
    requires
        p.len() >= 2,
        p[0].0.len() < 255,
        p[1].0.len() < 255,
        spec_mapping_count(p[0].0) == Ok::<nat, ErrorView>(1),
    ensures
        ({
            let s = all_lacing(p, p.len());
            let d = all_data(p, p.len());
            let b = spec_mux(p);
            let l0 = p[0].0.len();
            &&& b.len() >= 28 + l0 as int
            &&& b.subrange(28 + l0 as int, b.len() as int) == mux_from(s, d, 0, 1, l0, 1, false, false)
            &&& spec_to_native(b, true) == spec_demux_from(
                b,
                28 + l0 as int,
                Some(ENCODER_SERIAL),
                Packets { partial: Seq::empty(), done: seq![p[0].0], wanted: Some(2) },
                true,
            )
        }),
{
    let n = p.len();
    let s = all_lacing(p, n);
    let d = all_data(p, n);
    let x = p[0].0;
    let l0 = x.len();
    lemma_head_run(p);
    let b = spec_mux(p);
    let flags1 = page_flags(true, false, false);
    let vals1 = Seq::new(1, |j: int| s[0 + j].0);
    let body1 = d.subrange(0, l0 as int);
    let g1 = granule_upto(s, 0, 1);
    let pg1 = page_sealed(flags1, g1, 0, vals1, body1);
    let rest1 = mux_from(s, d, 0, 1, l0, 1, false, false);
    assert(l0 / 255 == 0);
    assert(b == pg1 + rest1);
    assert(b.subrange(0, pg1.len() as int) =~= pg1);
    lemma_read_page(b, 0, flags1, g1, 0, vals1, body1);
    lemma_page_flags(true, false, false);
    assert(seg_sum(vals1, 0, 0) == 0);
    assert(seg_sum(vals1, 0, 1) == l0);
    assert(b[27] == l0 as u8) by {
        assert(b[0 + 27 + 0int] == vals1[0]);
    }
    let st0 = Packets { partial: Seq::empty(), done: Seq::empty(), wanted: None };
    let st1 = Packets { partial: Seq::empty(), done: seq![x], wanted: Some(2) };
    assert(b.subrange(28, 28 + l0 as int) == x);
    assert(Seq::<Seq<u8>>::empty().push(Seq::<u8>::empty() + b.subrange(28, 28 + l0 as int)) =~= seq![x]);
    assert(spec_segments(b, 27, 1, 1, 28 + l0 as int, st1, true) == SegOutcome::Continue(st1));
    assert(spec_segments(b, 27, 1, 0, 28, st0, true) == SegOutcome::Continue(st1));
    lemma_demux_page(b, 0, None, st0, SegOutcome::Continue(st1), flags1, g1, 0, vals1, body1, true);
    assert(b.subrange(28 + l0 as int, b.len() as int) =~= rest1);
}

/// The second page: its first segment is the whole second packet.
#[verifier::spinoff_prover]
proof fn lemma_second_page(p: Seq<(Seq<u8>, i64)>) -> (r: (u8, i64, Seq<u8>, Seq<u8>))
    requires
        p.len() >= 2,
        p[0].0.len() < 255,
        p[1].0.len() < 255,
        spec_mapping_count(p[0].0) == Ok::<nat, ErrorView>(1),
    ensures
        ({
            let b = spec_mux(p);
            let pos = 28 + p[0].0.len() as int;
            let pg = page_sealed(r.0, r.1, 1, r.2, r.3);
            &&& 1 <= r.2.len() <= 255
            &&& pos + pg.len() <= b.len()
            &&& b.subrange(pos, pos + pg.len() as int) == pg
            &&& r.2[0] == p[1].0.len() as u8
            &&& seg_sum(r.2, 0, r.2.len()) == r.3.len()
            &&& r.3.len() >= p[1].0.len()
            &&& r.3.subrange(0, p[1].0.len() as int) == p[1].0
        }),
{
    let n = p.len();
    let s = all_lacing(p, n);
    let d = all_data(p, n);
    let l0 = p[0].0.len();
    let l1 = p[1].0.len();
    lemma_head_run(p);
    lemma_first_page_rest(p);
    let b = spec_mux(p);
    let pos = 28 + l0 as int;
    let rest1 = mux_from(s, d, 0, 1, l0, 1, false, false);
    let count2 = page_count(s.len(), 1, 0);
    let blen2 = values_sum(s, 1, count2);
    let eos2 = 1 + count2 >= s.len();
    let flags2 = page_flags(false, eos2, false);
    let vals2 = Seq::new(count2, |j: int| s[1 + j].0);
    let body2 = d.subrange(l0 as int, (l0 + blen2) as int);
    let g2 = granule_upto(s, 1, count2);
    let pg2 = page_sealed(flags2, g2, 1, vals2, body2);
    let rest2 = mux_from(s, d, 0, 1 + count2, l0 + blen2, 2, false, s[1 + count2 - 1].0 == 255);
    assert(rest1 == pg2 + rest2);
    lemma_values_sum_split(s, 0, 1, count2);
    lemma_values_sum_split(s, 0, 1 + count2, (s.len() - 1 - count2) as nat);
    lemma_values_sum_split(s, 1, 1, (count2 - 1) as nat);
    assert(body2.len() == blen2);
    assert(pg2.len() == 27 + count2 + blen2);
    assert(b.subrange(pos, pos + pg2.len() as int) =~= pg2) by {
        assert(b.subrange(pos, pos + pg2.len() as int) =~= rest1.subrange(0, pg2.len() as int));
    }
    assert forall|j: int| 0 <= j < count2 implies vals2[0 + j] == #[trigger] s[1 + j].0 by {}
    lemma_seg_sum_values(vals2, 0, s, 1, count2);
    assert(body2.subrange(0, l1 as int) =~= d.subrange(l0 as int, (l0 + l1) as int));
    (flags2, g2, vals2, body2)
}

/// The header-only demux of what the muxer writes for a mapping header that
/// announces one more header packet, both shorter than one lacing segment,
/// stops once that packet is in.
#[verifier::spinoff_prover]
pub proof fn lemma_headers_of_mux(p: Seq<(Seq<u8>, i64)>)
    requires
        p.len() >= 2,
        p[0].0.len() < 255,
        p[1].0.len() < 255,
        spec_mapping_count(p[0].0) == Ok::<nat, ErrorView>(1),
    ensures
        spec_to_native(spec_mux(p), true) == Ok::<Seq<u8>, ErrorView>(
            p[0].0.subrange(9, p[0].0.len() as int) + p[1].0,
        ),
{
    let x = p[0].0;
    let y = p[1].0;
    let l0 = x.len();
    let l1 = y.len();
    lemma_first_page(p);
    let b = spec_mux(p);
    let pos = 28 + l0 as int;
    let st1 = Packets { partial: Seq::empty(), done: seq![x], wanted: Some(2) };
    let (flags2, g2, vals2, body2) = lemma_second_page(p);
    lemma_read_page(b, pos, flags2, g2, 1, vals2, body2);
    let count2 = vals2.len();
    let tbl2: int = pos + 27;
    let bs2: int = tbl2 + count2;
    assert(b[tbl2] == l1 as u8) by {
        assert(b[pos + 27 + 0int] == vals2[0]);
    }
    assert(b.subrange(bs2, bs2 + l1) =~= y) by {
        assert forall|t: int| 0 <= t < l1 implies b.subrange(bs2, bs2 + l1)[t] == y[t] by {
            assert(b.subrange(bs2, bs2 + body2.len())[t] == body2[t]);
            assert(body2[t] == body2.subrange(0, l1 as int)[t]);
        }
    }
    let done2 = seq![x, y];
    assert(seq![x].push(Seq::<u8>::empty() + b.subrange(bs2, bs2 + l1)) =~= done2);
    let fin = spec_rebuild(done2, Some(2));
    assert(spec_segments(b, tbl2, count2, 0, bs2, st1, true) == SegOutcome::Done(fin));
    lemma_demux_page(
        b,
        pos,
        Some(ENCODER_SERIAL),
        st1,
        SegOutcome::Done(fin),
        flags2,
        g2,
        1,
        vals2,
        body2,
        true,
    );
    assert(concat_packets(done2, 1, 1) =~= Seq::<u8>::empty());
    assert(concat_packets(done2, 1, 2) =~= y);
}

/// The header-only demux of the Ogg encoding of valid audio stops once the
/// comment packet is in, with the marker, STREAMINFO and comment block.
pub proof fn lemma_ogg_headers(a: AudioView)
    requires
        validate_fault(a) is None,
        frames_of(a.samples) < 0x10_0000_0000,
    ensures
        spec_to_native(spec_mux(ogg_packets(a)), true) == Ok::<Seq<u8>, ErrorView>(
            flac_marker() + spec_streaminfo_block(a, frames_of(a.samples), false)
                + spec_vorbis_comment_block(),
        ),
{
    let total = frames_of(a.samples);
    let p = ogg_packets(a);
    let mp = mapping_packet(a, total);
    lemma_streaminfo_body(a, total);
    assert(mp.len() == 51);
    assert(p[0].0 == mp);
    assert(p[1].0 == spec_vorbis_comment_block());
    assert(spec_mapping_count(mp) == Ok::<nat, ErrorView>(1));
    lemma_headers_of_mux(p);
    assert(mp.subrange(9, 51) =~= flac_marker() + spec_streaminfo_block(a, total, false));
}

/// The STREAMINFO body the encoders write for `a`.
pub open spec fn encoded_body(a: AudioView) -> Seq<u8> {
    bytes_of_bits(streaminfo_bits(a, frames_of(a.samples))) + spec_md5(
        sample_bytes(a.samples, a.bits_per_sample),
    )
}

/// `info` on the Ogg encoding of valid audio reads the encoded STREAMINFO
/// body.
#[verifier::spinoff_prover]
proof fn lemma_ogg_info(a: AudioView)
    requires
        validate_fault(a) is None,
        frames_of(a.samples) < 0x10_0000_0000,
    ensures
        spec_info(spec_mux(ogg_packets(a))) == Ok::<Seq<u8>, ErrorView>(encoded_body(a)),
{
    let total = frames_of(a.samples);
    lemma_ogg_demux(a);
    lemma_ogg_headers(a);
    lemma_streaminfo_body(a, total);
    let nb = flac_marker() + spec_streaminfo_block(a, total, false) + spec_vorbis_comment_block();
    lemma_ogg_native_header(a, Seq::empty());
    assert(nb + Seq::<u8>::empty() =~= nb);
    assert(params_fault(nb.subrange(8, 42)) is None);
    assert(native_info(nb) == Ok::<Seq<u8>, ErrorView>(nb.subrange(8, 42)));
}

/// `info` on the native encoding of valid audio reads the encoded
/// STREAMINFO body.
#[verifier::spinoff_prover]
proof fn lemma_native_info(a: AudioView)
    requires
        validate_fault(a) is None,
        frames_of(a.samples) < 0x10_0000_0000,
    ensures
        spec_info(encoded_stream(a)) == Ok::<Seq<u8>, ErrorView>(encoded_body(a)),
{
    lemma_encoded_header(a);
    lemma_streaminfo_body(a, frames_of(a.samples));
    let eb = encoded_stream(a);
    assert(!ogg_magic_at(eb, 0));
    assert(params_fault(eb.subrange(8, 42)) is None);
    assert(native_info(eb) == Ok::<Seq<u8>, ErrorView>(eb.subrange(8, 42)));
}

/// The metadata `info` reads from a stream `encode_ogg` wrote is the audio's:
/// its sample rate, channel count, bit depth and length.
pub proof fn law_ogg_info_after_encode(a: AudioView)
    requires
        spec_encode_ogg(a) is Ok,
        frames_of(a.samples) < 0x10_0000_0000,
    ensures
        spec_info(spec_encode_ogg(a)->Ok_0) matches Ok(body) && body_rate(body) == a.sample_rate
            && body_channels(body) == a.channels && body_bps(body) == a.bits_per_sample
            && body_total(body) == frames_of(a.samples),
{
    lemma_ogg_info(a);
    lemma_streaminfo_body(a, frames_of(a.samples));
}

/// Both containers carry the same STREAMINFO: `info` reads the same body,
/// sample MD5 included, from the `.flac` and the `.oga` stream the encoders
/// write for the same valid audio.
pub proof fn law_containers_same_info(a: AudioView)
    requires
        spec_encode(a) is Ok,
        frames_of(a.samples) < 0x10_0000_0000,
    ensures
        spec_info(spec_encode(a)->Ok_0) is Ok,
        spec_info(spec_encode(a)->Ok_0) == spec_info(spec_encode_ogg(a)->Ok_0),
{
    lemma_ogg_info(a);
    lemma_native_info(a);
}

/// Packets `from..to` of `q` and `r` concatenate alike when they agree there.
proof fn lemma_concat_ext(q: Seq<Seq<u8>>, r: Seq<Seq<u8>>, from: int, to: int)
    requires
        forall|i: int| from <= i < to ==> q[i] == r[i],
    ensures
        concat_packets(q, from, to) == concat_packets(r, from, to),
    decreases to - from,
{
    if from < to {
        lemma_concat_ext(q, r, from, to - 1);
    }
}

/// Concatenating fewer packets gives no more bytes.
proof fn lemma_concat_len_mono(q: Seq<Seq<u8>>, from: int, to1: int, to2: int)
    requires
        to1 <= to2,
    ensures
        concat_packets(q, from, to1).len() <= concat_packets(q, from, to2).len(),
    decreases to2 - to1,
{
    if to1 < to2 {
        lemma_concat_len_mono(q, from, to1, to2 - 1);
    }
}

/// The bytes a reassembly state holds: the unfinished packet and the
/// finished ones.
pub open spec fn held(st: Packets) -> nat {
    st.partial.len() + concat_packets(st.done, 0, st.done.len() as int).len()
}

/// Finishing a packet keeps the bytes held.
proof fn lemma_held_push(done: Seq<Seq<u8>>, x: Seq<u8>)
    ensures
        concat_packets(done.push(x), 0, done.len() + 1int).len() == concat_packets(
            done,
            0,
            done.len() as int,
        ).len() + x.len(),
{
    lemma_concat_ext(done.push(x), done, 0, done.len() as int);
}

/// The native stream rebuilt from packets is no longer than the packets.
proof fn lemma_rebuild_len(q: Seq<Seq<u8>>, keep: Option<nat>)
    ensures
        spec_rebuild(q, keep) matches Ok(v) ==> v.len() <= concat_packets(q, 0, q.len() as int).len(),
{
    if q.len() > 0 && spec_mapping_count(q[0]) is Ok {
        let want = match keep {
            Some(k) => k,
            None => q.len(),
        };
        let limit = if want < q.len() {
            want
        } else {
            q.len()
        };
        lemma_concat_front(q, 0, q.len() as int);
        if limit >= 1 {
            lemma_concat_len_mono(q, 1, limit as int, q.len() as int);
        } else {
            assert(concat_packets(q, 1, limit as int) =~= Seq::<u8>::empty());
        }
    }
}

/// Reading segments `i..n` of a page adds at most their bytes to what the
/// reassembly holds, and a demux they end gives back no more than that.
proof fn lemma_segments_len(
    b: Seq<u8>,
    tbl: int,
    n: nat,
    i: nat,
    seg_pos: int,
    st: Packets,
    headers_only: bool,
)
    requires
        i <= n,
        0 <= tbl,
        0 <= seg_pos,
        seg_pos + seg_sum(b, tbl, n) - seg_sum(b, tbl, i) <= b.len(),
        tbl + n <= b.len(),
    ensures
        match spec_segments(b, tbl, n, i, seg_pos, st, headers_only) {
            SegOutcome::Continue(st2) => held(st2) <= held(st) + seg_sum(b, tbl, n) - seg_sum(
                b,
                tbl,
                i,
            ),
            SegOutcome::Done(r) => r matches Ok(v) ==> v.len() <= held(st) + seg_sum(b, tbl, n)
                - seg_sum(b, tbl, i),
        },
    decreases n - i,
{
    if i < n {
        let sz = b[tbl + i] as int;
        crate::ogg::lemma_seg_sum_mono(b, tbl, i + 1, n);
        assert(seg_sum(b, tbl, i + 1) == seg_sum(b, tbl, i) + sz);
        let partial = st.partial + b.subrange(seg_pos, seg_pos + sz);
        assert(partial.len() == st.partial.len() + sz);
        if sz < 255 {
            let done = st.done.push(partial);
            lemma_held_push(st.done, partial);
            let wanted: Result<Option<nat>, ErrorView> = match st.wanted {
                Some(w) => Ok(Some(w)),
                None => match spec_mapping_count(done[0]) {
                    Err(e) => Err(e),
                    Ok(c) => Ok(Some(1 + c)),
                },
            };
            match wanted {
                Err(e) => {},
                Ok(w) => {
                    if headers_only && w is Some && done.len() >= w->Some_0 {
                        lemma_rebuild_len(done, w);
                    } else {
                        lemma_segments_len(
                            b,
                            tbl,
                            n,
                            i + 1,
                            seg_pos + sz,
                            Packets { partial: Seq::empty(), done, wanted: w },
                            headers_only,
                        );
                    }
                },
            }
        } else {
            lemma_segments_len(
                b,
                tbl,
                n,
                i + 1,
                seg_pos + sz,
                Packets { partial, done: st.done, wanted: st.wanted },
                headers_only,
            );
        }
    }
}

/// The demux from `pos` on, with no more held than read so far, gives back
/// no more bytes than the input.
proof fn lemma_demux_len(
    b: Seq<u8>,
    pos: int,
    serial: Option<u32>,
    st: Packets,
    headers_only: bool,
)
    requires
        0 <= pos <= b.len(),
        held(st) <= pos,
    ensures
        spec_demux_from(b, pos, serial, st, headers_only) matches Ok(v) ==> v.len() <= b.len(),
    decreases b.len() - pos,
{
    if pos + OGG_HEADER_LEN > b.len() {
        lemma_rebuild_len(st.done, if headers_only { st.wanted } else { None });
    } else if ogg_magic_at(b, pos) && b[pos + 4] == 0 {
        let flags = b[pos + 5];
        let page_serial = le_u32_at(b, pos + 14);
        let n = b[pos + 26] as nat;
        let seg_table = pos + OGG_HEADER_LEN;
        let body_start = seg_table + n;
        if body_start <= b.len() {
            let body_len = seg_sum(b, seg_table, n);
            let body_end = body_start + body_len;
            if body_end <= b.len() {
                let is_flac_bos = flags & FLAG_BOS != 0 && body_len >= 5 && b[body_start]
                    == FLAC_MAPPING_TYPE && b[body_start + 1] == 0x46u8 && b[body_start + 2]
                    == 0x4Cu8 && b[body_start + 3] == 0x41u8 && b[body_start + 4] == 0x43u8;
                if (serial is None && !is_flac_bos) || (serial matches Some(s) && s != page_serial) {
                    lemma_demux_len(b, body_end, serial, st, headers_only);
                } else {
                    assert(seg_sum(b, seg_table, 0) == 0);
                    lemma_segments_len(b, seg_table, n, 0, body_start, st, headers_only);
                    match spec_segments(b, seg_table, n, 0, body_start, st, headers_only) {
                        SegOutcome::Done(r) => {},
                        SegOutcome::Continue(st2) => {
                            if flags & FLAG_EOS != 0 {
                                lemma_rebuild_len(
                                    st2.done,
                                    if headers_only {
                                        st2.wanted
                                    } else {
                                        None
                                    },
                                );
                            } else {
                                lemma_demux_len(b, body_end, Some(page_serial), st2, headers_only);
                            }
                        },
                    }
                }
            }
        }
    }
}

/// Reassembling the FLAC stream from Ogg pages never gives back more bytes
/// than the Ogg input holds: the container adds no compression, so demuxing
/// cannot expand its input.
pub proof fn law_demux_does_not_expand(b: Seq<u8>, headers_only: bool)
    ensures
        spec_to_native(b, headers_only) matches Ok(v) ==> v.len() <= b.len(),
{
    let st = Packets { partial: Seq::empty(), done: Seq::empty(), wanted: None };
    assert(concat_packets(st.done, 0, 0) =~= Seq::<u8>::empty());
    lemma_demux_len(b, 0, None, st, headers_only);
}

} // verus!
