// What the coded formats mean, stated apart from the functions that write
// and read them: how LPC prediction weighs past samples, the fixed blocking
// strategy of the frames the encoder writes, the granule positions of its Ogg
// pages, and how the metadata walk skips a block by its full length.

use crate::decoder::{spec_decode, spec_decode_native};
use crate::error::ErrorView;
use crate::frame::{lpc_sum, spec_restore_lpc};
use crate::metadata::{block_len, spec_blocks_from, spec_header, stream_info_fault};
use crate::bits::{bits_of, bits_of_bytes, bits_val, bytes_of_bits};
use crate::encoder::{
    frame_bits, frame_header_bits, frame_packets, ogg_packets, spec_frame_bytes, utf8_bits,
    BLOCK_SIZE,
};
use crate::sample_bytes::frames_of;
use crate::AudioView;
use crate::frame::spec_read_utf8_coded;
use crate::ogg::{
    all_data, all_lacing, granule_upto, le64, mux_from, ogg_magic_at, page_count, page_flags,
    page_sealed, spec_mux, values_sum, FLAG_EOS,
};
use crate::encoder::spec_encode_ogg;
use crate::roundtrip::{at, lemma_at_split, lemma_bits_to_bytes, lemma_frame_bits_len, lemma_read_field, law_utf8_round_trip};
use crate::spec_info;
use vstd::prelude::*;

verus! {

/// The LPC prediction for sample `i` of `s`, over the first `n`
/// coefficients: coefficient `j` weighs the sample `j + 1` places before `i`,
/// in wrapping 64-bit arithmetic.
pub open spec fn lpc_prediction(c: Seq<i64>, s: Seq<i64>, i: int, n: nat) -> i64
    decreases n,
{
    if n == 0 {
        0
    } else {
        lpc_prediction(c, s, i, (n - 1) as nat).wrapping_add(c[n - 1].wrapping_mul(s[i - n]))
    }
}

/// The prediction reads only the `n` samples before `i`.
proof fn lemma_prediction_window(c: Seq<i64>, s: Seq<i64>, t: Seq<i64>, i: int, n: nat)
    requires
        forall|m: int| i - n <= m < i ==> s[m] == t[m],
    ensures
        lpc_prediction(c, s, i, n) == lpc_prediction(c, t, i, n),
    decreases n,
{
    if n > 0 {
        lemma_prediction_window(c, s, t, i, (n - 1) as nat);
    }
}

/// The restore step's running sum is the prediction for the next sample.
proof fn lemma_lpc_sum_is_prediction(c: Seq<i64>, s: Seq<i64>, n: nat)
    ensures
        lpc_sum(c, s, n) == lpc_prediction(c, s, s.len() as int, n),
    decreases n,
{
    if n > 0 {
        lemma_lpc_sum_is_prediction(c, s, (n - 1) as nat);
    }
}

/// Every sample from `base` on is its residual plus the shifted prediction.
pub open spec fn lpc_restored(s: Seq<i64>, c: Seq<i64>, res: Seq<i64>, shift: u32, base: nat, upto: int) -> bool {
    forall|k: int|
        base <= k < upto ==> #[trigger] s[k] == res[k - base].wrapping_add(
            lpc_prediction(c, s, k, c.len()).wrapping_shr(shift),
        )
}

proof fn lemma_restore_lpc_from(s: Seq<i64>, c: Seq<i64>, res: Seq<i64>, shift: u32, i: nat, base: nat)
    requires
        s.len() == base + i,
        c.len() <= base,
        i <= res.len(),
        lpc_restored(s, c, res, shift, base, s.len() as int),
    ensures
        spec_restore_lpc(s, c, res, shift, i).len() == base + res.len(),
        spec_restore_lpc(s, c, res, shift, i).take(s.len() as int) == s,
        lpc_restored(
            spec_restore_lpc(s, c, res, shift, i),
            c,
            res,
            shift,
            base,
            (base + res.len()) as int,
        ),
    decreases res.len() - i,
{
    if i < res.len() {
        let x = res[i as int].wrapping_add(lpc_sum(c, s, c.len()).wrapping_shr(shift));
        let s2 = s.push(x);
        lemma_lpc_sum_is_prediction(c, s, c.len());
        lemma_prediction_window(c, s, s2, s.len() as int, c.len());
        assert forall|k: int| base <= k < s2.len() implies #[trigger] s2[k] == res[k
            - base].wrapping_add(lpc_prediction(c, s2, k, c.len()).wrapping_shr(shift)) by {
            lemma_prediction_window(c, s, s2, k, c.len());
            if k < s.len() {
                assert(s2[k] == s[k]);
            }
        }
        lemma_restore_lpc_from(s2, c, res, shift, i + 1, base);
        let out = spec_restore_lpc(s2, c, res, shift, i + 1);
        assert(out.take(s.len() as int) =~= s) by {
            assert forall|m: int| 0 <= m < s.len() implies out.take(s.len() as int)[m] == s[m] by {
                assert(out.take(s2.len() as int)[m] == s2[m]);
            }
        }
    } else {
        assert(s.take(s.len() as int) =~= s);
    }
}

/// LPC restoration: the warm-up samples stay first, one sample follows per
/// residual, and each restored sample is its residual plus the prediction
/// (coefficient `j` times the sample `j + 1` places back, summed) shifted
/// right by `shift`.
pub proof fn law_lpc_restore(w: Seq<i64>, c: Seq<i64>, res: Seq<i64>, shift: u32)
    requires
        c.len() <= w.len(),
    ensures
        spec_restore_lpc(w, c, res, shift, 0).len() == w.len() + res.len(),
        spec_restore_lpc(w, c, res, shift, 0).take(w.len() as int) == w,
        forall|k: int|
            w.len() <= k < w.len() + res.len() ==> #[trigger] spec_restore_lpc(w, c, res, shift, 0)[k]
                == res[k - w.len()].wrapping_add(
                lpc_prediction(c, spec_restore_lpc(w, c, res, shift, 0), k, c.len()).wrapping_shr(
                    shift,
                ),
            ),
{
    lemma_restore_lpc_from(w, c, res, shift, 0, w.len());
    let out = spec_restore_lpc(w, c, res, shift, 0);
    assert(lpc_restored(out, c, res, shift, w.len(), (w.len() + res.len()) as int));
}

/// A block-walk outcome with every offset moved on by `d`.
pub open spec fn shifted(r: Result<(int, int), ErrorView>, d: int) -> Result<(int, int), ErrorView> {
    match r {
        Ok((o, fs)) => Ok((o + d, fs + d)),
        Err(e) => Err(e),
    }
}

/// An optional offset moved on by `d`.
pub open spec fn shifted_at(si: Option<int>, d: int) -> Option<int> {
    match si {
        Some(o) => Some(o + d),
        None => None,
    }
}

/// Walking the metadata blocks of `c`, which holds `b`'s bytes from `pos` on
/// moved `d` places later, gives `b`'s outcome moved by `d`.
proof fn lemma_blocks_shift(b: Seq<u8>, c: Seq<u8>, d: int, pos: int, si: Option<int>)
    requires
        0 <= pos,
        0 <= d,
        c.len() == b.len() + d,
        forall|i: int| pos <= i < b.len() ==> #[trigger] c[i + d] == b[i],
    ensures
        spec_blocks_from(c, pos + d, shifted_at(si, d)) == shifted(spec_blocks_from(b, pos, si), d),
        spec_blocks_from(b, pos, si) matches Ok((o, _)) ==> o >= pos + 4 || si == Some(o),
    decreases b.len() - pos,
{
    if pos + 4 <= b.len() {
        let h = b[pos];
        assert(c[pos + d] == h);
        assert(c[pos + 1 + d] == b[pos + 1] && c[pos + 2 + d] == b[pos + 2] && c[pos + 3 + d]
            == b[pos + 3]);
        let len = block_len(b, pos);
        assert(block_len(c, pos + d) == len);
        let p = pos + 4;
        if p + len <= b.len() {
            let t = h & 0x7Fu8;
            if len == 34 {
                assert forall|k: int| 0 <= k < 34 implies #[trigger] c.subrange(p + d, p + d + 34)[k]
                    == b.subrange(p, p + 34)[k] by {
                    assert(c[(p + k) + d] == b[p + k]);
                    assert(p + d + k == (p + k) + d);
                }
                assert(c.subrange(p + d, p + d + 34) =~= b.subrange(p, p + 34));
            }
            let si2 = if t == 0 {
                Some(p)
            } else {
                si
            };
            assert(shifted_at(si2, d) == if t == 0 {
                Some(p + d)
            } else {
                shifted_at(si, d)
            });
            if h & 0x80u8 == 0 {
                lemma_blocks_shift(b, c, d, p + len, si2);
                assert(p + len + d == (p + d) + len);
            }
        }
    }
}

/// `b` with a metadata block of type `t` holding `payload` put in front of
/// its first block; the length is written as 24 bits, big-endian.
pub open spec fn with_block(b: Seq<u8>, t: u8, payload: Seq<u8>) -> Seq<u8> {
    let len = payload.len();
    b.take(4) + seq![
        t,
        (len / 0x1_0000) as u8,
        (len / 0x100 % 0x100) as u8,
        (len % 0x100) as u8,
    ] + payload + b.skip(4)
}

/// The header of `with_block(b, t, payload)` is `b`'s moved past the new
/// block.
#[verifier::spinoff_prover]
proof fn lemma_with_block_header(b: Seq<u8>, t: u8, payload: Seq<u8>)
    requires
        spec_header(b) is Ok,
        1 <= t <= 126,
        payload.len() < 0x100_0000,
    ensures
        spec_header(with_block(b, t, payload)) == shifted(spec_header(b), 4 + payload.len() as int),
        with_block(b, t, payload).len() == b.len() + 4 + payload.len(),
        forall|i: int|
            4 <= i < b.len() ==> #[trigger] with_block(b, t, payload)[i + 4 + payload.len()] == b[i],
        !ogg_magic_at(with_block(b, t, payload), 0),
        spec_header(b) matches Ok((o, _)) && o >= 8,
{
    let len = payload.len();
    let c = with_block(b, t, payload);
    let d = 4 + len as int;
    assert(b.len() >= 4);
    assert(c.len() == b.len() + d);
    assert forall|i: int| 4 <= i < b.len() implies #[trigger] c[i + d] == b[i] by {
        assert(c[i + d] == b.skip(4)[i - 4]);
    }
    assert(c[4] == t);
    assert(t & 0x80u8 == 0 && t & 0x7Fu8 == t) by (bit_vector)
        requires
            1 <= t <= 126,
    ;
    assert((len / 0x1_0000) * 0x1_0000 + (len / 0x100 % 0x100) * 0x100 + len % 0x100 == len);
    assert(block_len(c, 4) == len);
    lemma_blocks_shift(b, c, d, 4, None);
    assert(spec_blocks_from(c, 4, None) == spec_blocks_from(c, 8 + len as int, None));
    assert(c[0] == b[0] && c[1] == b[1] && c[2] == b[2] && c[3] == b[3]);
}

/// The metadata walk skips a block by its whole 24-bit length: putting a
/// block of any type but STREAMINFO, of any length below 2^24, in front of
/// a native stream's STREAMINFO changes neither what `info` reads nor what
/// `decode` gives.
#[verifier::spinoff_prover]
pub proof fn law_metadata_block_skipped(b: Seq<u8>, t: u8, payload: Seq<u8>)
    requires
        spec_header(b) is Ok,
        1 <= t <= 126,
        payload.len() < 0x100_0000,
    ensures
        spec_info(with_block(b, t, payload)) == spec_info(b),
        spec_decode(with_block(b, t, payload)) == spec_decode(b),
{
    let c = with_block(b, t, payload);
    let d = 4 + payload.len() as int;
    lemma_with_block_header(b, t, payload);
    crate::laws::lemma_header_bounds(b);
    let (o, fs) = spec_header(b)->Ok_0;
    assert(spec_header(c) == Ok::<(int, int), ErrorView>((o + d, fs + d)));
    assert(!ogg_magic_at(b, 0));
    assert(c.subrange(o + d, o + d + 34) =~= b.subrange(o, o + 34)) by {
        assert forall|k: int| 0 <= k < 34 implies #[trigger] c.subrange(o + d, o + d + 34)[k]
            == b.subrange(o, o + 34)[k] by {
            assert(c[(o + k) + d] == b[o + k]);
        }
    }
    assert(c.subrange(fs + d, c.len() as int) =~= b.subrange(fs, b.len() as int)) by {
        assert forall|k: int| 0 <= k < b.len() - fs implies #[trigger] c.subrange(
            fs + d,
            c.len() as int,
        )[k] == b.subrange(fs, b.len() as int)[k] by {
            assert(c[(fs + k) + d] == b[fs + k]);
        }
    }
}

/// Every frame the encoder writes opens with a fixed-blocking-strategy
/// header: the 14-bit sync code, a zero reserved bit, then bit 15, the
/// blocking strategy, clear (fixed block size). The coded number from bit 32
/// is therefore the frame number, and it reads back as the frame's index.
pub proof fn law_frames_use_fixed_blocking(
    s: Seq<Seq<i32>>,
    nch: nat,
    bps: u32,
    start: int,
    block: int,
    fnum: u64,
)
    requires
        fnum < 0x10_0000_0000,
    ensures
        ({
            let f = spec_frame_bytes(s, nch, bps, start, block, fnum);
            &&& bits_val(f, 0, 14) == 0x3FFE
            &&& bits_val(f, 14, 1) == 0
            &&& bits_val(f, 15, 1) == 0
            &&& spec_read_utf8_coded(f, 32) == Ok::<(u64, int), ErrorView>(
                (fnum, 32 + utf8_bits(fnum).len() as int),
            )
        }),
{
    vstd::arithmetic::power2::lemma2_to64();
    let fb = frame_bits(s, nch, bps, start, block, fnum);
    let f = spec_frame_bytes(s, nch, bps, start, block, fnum);
    lemma_frame_bits_len(s, nch, bps, start, block, fnum);
    lemma_bits_to_bytes(fb);
    assert(at(f, 0, fb)) by {
        assert(bits_of_bytes(f).subrange(0, fb.len() as int) =~= fb);
    }
    let hb = frame_header_bits(nch, block as nat, fnum);
    let rest = fb.subrange(hb.len() as int, fb.len() as int);
    assert(fb =~= hb + rest);
    lemma_at_split(f, 0, hb, rest);
    let a0 = bits_of(0x3FFE, 14);
    let a1 = bits_of(0, 1);
    let a2 = bits_of(0, 1);
    let a3 = bits_of(7, 4);
    let a4 = bits_of(0, 4);
    let a5 = bits_of((nch - 1) as u64, 4);
    let a6 = bits_of(0, 3);
    let a7 = bits_of(0, 1);
    let u = utf8_bits(fnum);
    let bb = bits_of(((block as nat) - 1) as u64, 16);
    let x1 = a0 + a1;
    let x2 = x1 + a2;
    let x7 = x2 + a3 + a4 + a5 + a6 + a7;
    let x8 = x7 + u;
    assert(hb == x8 + bb);
    lemma_at_split(f, 0, x8, bb);
    lemma_at_split(f, 0, x7, u);
    assert(x7 == x2 + (a3 + a4 + a5 + a6 + a7));
    lemma_at_split(f, 0, x2, a3 + a4 + a5 + a6 + a7);
    lemma_at_split(f, 0, x1, a2);
    lemma_at_split(f, 0, a0, a1);
    lemma_read_field(f, 0, 0x3FFE, 14);
    lemma_read_field(f, 14, 0, 1);
    lemma_read_field(f, 15, 0, 1);
    assert(x7.len() == 32);
    law_utf8_round_trip(f, 32, fnum);
}

/// The smaller of two numbers.
pub open spec fn min_int(a: int, b: int) -> int {
    if a <= b {
        a
    } else {
        b
    }
}

/// The audio packets from sample `start` on carry running sample counts:
/// packet `i` ends once `start + (i + 1) * 4096` samples, at most all of
/// them, are decoded.
proof fn lemma_frame_packet_granules(
    s: Seq<Seq<i32>>,
    nch: nat,
    bps: u32,
    start: nat,
    fnum: nat,
    total: nat,
)
    requires
        start <= total,
        total <= i64::MAX,
    ensures
        ({
            let f = frame_packets(s, nch, bps, start, fnum, total);
            &&& forall|i: int|
                0 <= i < f.len() ==> (#[trigger] f[i]).1 == min_int(
                    start + (i + 1) * BLOCK_SIZE,
                    total as int,
                )
            &&& (f.len() == 0) == (start == total)
            &&& f.len() > 0 ==> f[f.len() - 1].1 == total
        }),
    decreases total - start,
{
    if start < total {
        let block: nat = if total - start < BLOCK_SIZE {
            (total - start) as nat
        } else {
            BLOCK_SIZE as nat
        };
        let f = frame_packets(s, nch, bps, start, fnum, total);
        let rest = frame_packets(s, nch, bps, start + block, fnum + 1, total);
        lemma_frame_packet_granules(s, nch, bps, start + block, fnum + 1, total);
        assert(f.len() == rest.len() + 1);
        assert forall|i: int| 0 <= i < f.len() implies (#[trigger] f[i]).1 == min_int(
            start + (i + 1) * BLOCK_SIZE,
            total as int,
        ) by {
            if i == 0 {
                assert(f[0].1 == (start + block) as i64);
            } else {
                assert(f[i] == rest[i - 1]);
                assert(rest[i - 1].1 == min_int(start + block + i * BLOCK_SIZE, total as int));
                if block < BLOCK_SIZE {
                    assert(rest.len() == 0);
                }
            }
        }
        if rest.len() > 0 {
            assert(f[f.len() - 1] == rest[rest.len() - 1]);
        } else {
            assert(start + block == total);
        }
    }
}

/// The granule positions of the Ogg encoding's packets: the two header
/// packets carry 0, and audio packet `i` (packet `2 + i`) carries the number
/// of samples per channel decoded through it, `min((i + 1) * 4096, total)`;
/// the last packet, and so the end of the stream, carries the total.
pub proof fn law_ogg_granules(a: AudioView)
    requires
        frames_of(a.samples) <= i64::MAX,
    ensures
        ({
            let p = ogg_packets(a);
            let total = frames_of(a.samples);
            &&& p[0].1 == 0 && p[1].1 == 0
            &&& forall|i: int|
                2 <= i < p.len() ==> (#[trigger] p[i]).1 == min_int(
                    (i - 1) * BLOCK_SIZE,
                    total as int,
                )
            &&& total > 0 ==> p.len() > 2 && p[p.len() - 1].1 == total
        }),
{
    let total = frames_of(a.samples);
    let p = ogg_packets(a);
    let f = frame_packets(a.samples, a.channels as nat, a.bits_per_sample as u32, 0, 0, total);
    lemma_frame_packet_granules(a.samples, a.channels as nat, a.bits_per_sample as u32, 0, 0, total);
    assert forall|i: int| 2 <= i < p.len() implies (#[trigger] p[i]).1 == min_int(
        (i - 1) * BLOCK_SIZE,
        total as int,
    ) by {
        assert(p[i] == f[i - 2]);
    }
    if total > 0 {
        assert(p[p.len() - 1] == f[f.len() - 1]);
    }
}

/// The granule field (bytes 6 to 13) and flags (byte 5) of a page.
proof fn lemma_page_granule(flags: u8, g: i64, sq: u32, vals: Seq<u8>, body: Seq<u8>)
    ensures
        page_sealed(flags, g, sq, vals, body).len() >= 27,
        page_sealed(flags, g, sq, vals, body)[5] == flags,
        page_sealed(flags, g, sq, vals, body).subrange(6, 14) == le64(g),
{
    let z = crate::ogg::page_unsealed(flags, g, sq, vals, body);
    let pg = page_sealed(flags, g, sq, vals, body);
    assert(z.len() >= 27);
    assert forall|t: int| 0 <= t < 8 implies pg.subrange(6, 14)[t] == le64(g)[t] by {
        assert(pg[6 + t] == z[6 + t]);
    }
    assert(pg.subrange(6, 14) =~= le64(g));
}

/// The pages from segment `idx` on end with an end-of-stream page whose
/// granule is that of the run's last segment.
proof fn lemma_mux_last_page(
    s: Seq<(u8, Option<i64>)>,
    d: Seq<u8>,
    fl: nat,
    idx: nat,
    bp: nat,
    sq: u32,
    first: bool,
    continued: bool,
) -> (k: int)
    requires
        idx < s.len(),
        s[s.len() - 1].1 is Some,
    ensures
        0 <= k,
        k + 14 <= mux_from(s, d, fl, idx, bp, sq, first, continued).len(),
        mux_from(s, d, fl, idx, bp, sq, first, continued)[k + 5] & FLAG_EOS != 0,
        mux_from(s, d, fl, idx, bp, sq, first, continued).subrange(k + 6, k + 14) == le64(
            s[s.len() - 1].1->Some_0,
        ),
    decreases s.len() - idx,
{
    let count = page_count(s.len(), idx, fl);
    let blen = values_sum(s, idx as int, count);
    let eos = idx + count >= s.len();
    let flags = page_flags(first, eos, continued);
    let vals = Seq::new(count, |j: int| s[idx + j].0);
    let body = d.subrange(bp as int, (bp + blen) as int);
    let g = granule_upto(s, idx as int, count);
    let pg = page_sealed(flags, g, sq, vals, body);
    let rest = mux_from(s, d, fl, idx + count, bp + blen, sq.wrapping_add(1), false, s[idx + count - 1].0 == 255);
    let m = mux_from(s, d, fl, idx, bp, sq, first, continued);
    assert(m == pg + rest);
    lemma_page_granule(flags, g, sq, vals, body);
    assert(1 <= count && idx + count <= s.len());
    if eos {
        crate::format_laws::lemma_flags_eos(first, continued);
        assert(idx + count - 1 == s.len() - 1);
        assert(g == s[s.len() - 1].1->Some_0);
        assert(m.subrange(6, 14) =~= pg.subrange(6, 14));
        assert(m[5] == pg[5]);
        0
    } else {
        let k2 = lemma_mux_last_page(s, d, fl, idx + count, bp + blen, sq.wrapping_add(1), false, s[idx + count - 1].0 == 255);
        let k = pg.len() + k2;
        assert(m.subrange(k + 6, k + 14) =~= rest.subrange(k2 + 6, k2 + 14));
        assert(m[k + 5] == rest[k2 + 5]);
        k
    }
}

/// A page flagged end-of-stream has the end-of-stream bit set.
proof fn lemma_flags_eos(first: bool, continued: bool)
    ensures
        page_flags(first, true, continued) & FLAG_EOS != 0,
{
    crate::ogg_roundtrip::lemma_page_flags(first, true, continued);
}

/// The Ogg stream `encode_ogg` writes for valid audio with samples ends with
/// an end-of-stream page whose granule position is the total number of
/// samples per channel.
pub proof fn law_ogg_final_granule(a: AudioView)
    requires
        spec_encode_ogg(a) is Ok,
        0 < frames_of(a.samples) <= i64::MAX,
    ensures
        exists|k: int|
            0 <= k && k + 14 <= spec_encode_ogg(a)->Ok_0.len() && #[trigger] spec_encode_ogg(a)->Ok_0[k
                + 5] & FLAG_EOS != 0 && spec_encode_ogg(a)->Ok_0.subrange(k + 6, k + 14) == le64(
                frames_of(a.samples) as i64,
            ),
{
    let p = ogg_packets(a);
    let n = p.len();
    law_ogg_granules(a);
    let s = all_lacing(p, n);
    crate::ogg_roundtrip::lemma_packet_place(p, n, (n - 1) as nat, 0);
    let len = p[n - 1].0.len();
    crate::ogg_roundtrip::lemma_packet_place(p, n, (n - 1) as nat, len / 255);
    let last = all_lacing(p, (n - 1) as nat).len() + len / 255;
    crate::ogg_roundtrip::lemma_all_prefix(p, n, n);
    assert(all_lacing(p, n) == all_lacing(p, (n - 1) as nat) + crate::ogg::packet_lacing(len, p[n - 1].1));
    assert(last == s.len() - 1);
    assert(s[s.len() - 1].1 == Some(p[n - 1].1));
    let fl: nat = p[0].0.len() / 255;
    let k = lemma_mux_last_page(s, all_data(p, n), fl, 0, 0, 0, true, false);
    let b = spec_mux(p);
    assert(b == mux_from(s, all_data(p, n), fl, 0, 0, 0, true, false));
    assert(spec_encode_ogg(a)->Ok_0 == b);
    assert(p[n - 1].1 == frames_of(a.samples));
    assert(s[s.len() - 1].1->Some_0 == frames_of(a.samples) as i64);
    assert(b[k + 5] & FLAG_EOS != 0);
    assert(b.subrange(k + 6, k + 14) == le64(frames_of(a.samples) as i64));
}

} // verus!
