// Properties of the library as a whole: how `encode`, `decode` and `info`
// relate to one another, and what every successful decode guarantees.

use crate::decoder::{
    body_bps, body_channels, body_rate, body_total, params_fault, spec_decode, spec_decode_native,
    spec_frames, trim, MAX_TOTAL_SAMPLES,
};
use crate::encoder::{encoded_stream, spec_encode, spec_encode_ogg};
use crate::error::ErrorView;
use crate::md5::spec_md5;
use crate::metadata::spec_header;
use crate::ogg::{ogg_magic_at, spec_to_native};
use crate::roundtrip::{lemma_encoded_header, lemma_streaminfo_body, law_round_trip};
use crate::sample_bytes::{frames_of, sample_bytes};
use crate::{native_info, spec_info, AudioView};
use vstd::prelude::*;

verus! {

/// Encoding is a function of the audio alone: the same audio always encodes
/// to the same bytes, in either container.
pub proof fn law_encode_deterministic(a: AudioView, b: AudioView)
    requires
        a == b,
    ensures
        spec_encode(a) == spec_encode(b),
        spec_encode_ogg(a) == spec_encode_ogg(b),
{
}

/// Re-encoding is stable: decoding what `encode` wrote and encoding the
/// result again reproduces the same bytes.
pub proof fn law_reencode_stable(a: AudioView)
    requires
        spec_encode(a) is Ok,
        frames_of(a.samples) * a.channels <= MAX_TOTAL_SAMPLES,
        spec_encode(a)->Ok_0.len() - 42 <= usize::MAX / 8,
    ensures
        spec_decode(spec_encode(a)->Ok_0) matches Ok(x) && spec_encode(x) == spec_encode(a),
{
    law_round_trip(a);
}

/// The metadata `info` reads from a stream `encode` wrote is the audio's:
/// its sample rate, channel count, bit depth and length.
pub proof fn law_info_after_encode(a: AudioView)
    requires
        spec_encode(a) is Ok,
        frames_of(a.samples) < 0x10_0000_0000,
    ensures
        spec_info(spec_encode(a)->Ok_0) matches Ok(body) && body_rate(body) == a.sample_rate
            && body_channels(body) == a.channels && body_bps(body) == a.bits_per_sample
            && body_total(body) == frames_of(a.samples),
{
    let total = frames_of(a.samples);
    lemma_encoded_header(a);
    lemma_streaminfo_body(a, total);
    let b = encoded_stream(a);
    assert(!ogg_magic_at(b, 0));
    assert(params_fault(b.subrange(8, 42)) is None);
    assert(native_info(b) == Ok::<Seq<u8>, ErrorView>(b.subrange(8, 42)));
}

/// On a native stream `info` and `decode` agree: `info` fails exactly with
/// the error `decode` gives for the header and the stream parameters, and
/// when `decode` succeeds `info` reads the same rate, channels and depth.
pub proof fn law_info_agrees_with_decode(b: Seq<u8>)
    requires
        !ogg_magic_at(b, 0),
    ensures
        spec_info(b) matches Err(e) ==> spec_decode(b) == Err::<AudioView, ErrorView>(e),
        spec_decode(b) matches Ok(x) ==> (spec_info(b) matches Ok(body) && body_rate(body)
            == x.sample_rate && body_channels(body) == x.channels && body_bps(body)
            == x.bits_per_sample),
{
    if let Ok((o, _)) = spec_header(b) {
        lemma_header_bounds(b);
        let body = b.subrange(o, o + 34);
        crate::bits::lemma_bits_val_bound(body, 80, 20);
        crate::bits::lemma_bits_val_bound(body, 100, 3);
        crate::bits::lemma_bits_val_bound(body, 103, 5);
        vstd::arithmetic::power2::lemma2_to64();
    }
}

/// The metadata block chain, when it parses, puts a whole STREAMINFO body
/// before the first frame.
pub proof fn lemma_blocks_bounds(b: Seq<u8>, pos: int, si: Option<int>)
    requires
        0 <= pos,
        si matches Some(o) ==> 0 <= o && o + 34 <= pos,
    ensures
        crate::metadata::spec_blocks_from(b, pos, si) matches Ok((o, fs)) ==> 0 <= o && o + 34 <= fs
            <= b.len(),
    decreases b.len() - pos,
{
    if !(pos < 0 || pos + 4 > b.len()) {
        let h = b[pos];
        let t = h & 0x7Fu8;
        let len = crate::metadata::block_len(b, pos);
        let p = pos + 4;
        if p + len <= b.len() && !(t == 0 && len != 34) {
            let si2 = if t == 0 {
                Some(p)
            } else {
                si
            };
            if !(h & 0x80u8 != 0) {
                lemma_blocks_bounds(b, p + len, si2);
            }
        }
    }
}

/// A header that parses puts a whole STREAMINFO body before the first frame.
pub proof fn lemma_header_bounds(b: Seq<u8>)
    ensures
        spec_header(b) matches Ok((o, fs)) ==> 0 <= o && o + 34 <= fs <= b.len(),
{
    lemma_blocks_bounds(b, 4, None);
}

/// The metadata block chain reads nothing past the first frame: a stream
/// that agrees with `b` up to there parses the same.
pub proof fn lemma_blocks_prefix(b: Seq<u8>, c: Seq<u8>, pos: int, si: Option<int>)
    requires
        0 <= pos,
        si matches Some(o) ==> 0 <= o && o + 34 <= pos,
        crate::metadata::spec_blocks_from(b, pos, si) matches Ok((o, fs)) && fs <= c.len()
            && c.subrange(0, fs) == b.subrange(0, fs),
    ensures
        crate::metadata::spec_blocks_from(c, pos, si) == crate::metadata::spec_blocks_from(
            b,
            pos,
            si,
        ),
        crate::metadata::spec_blocks_from(b, pos, si) matches Ok((o, fs)) && pos + 4 <= fs,
    decreases b.len() - pos,
{
    let fs = crate::metadata::spec_blocks_from(b, pos, si)->Ok_0.1;
    lemma_blocks_bounds(b, pos, si);
    let h = b[pos];
    let t = h & 0x7Fu8;
    let len = crate::metadata::block_len(b, pos);
    let p = pos + 4;
    let si2 = if t == 0 {
        Some(p)
    } else {
        si
    };
    if !(h & 0x80u8 != 0) {
        lemma_blocks_prefix(b, c, p + len, si2);
    }
    assert forall|i: int| 0 <= i < p + len implies c[i] == b[i] by {
        assert(c.subrange(0, fs)[i] == b.subrange(0, fs)[i]);
    }
    if t == 0 {
        assert(c.subrange(p, p + 34) =~= b.subrange(p, p + 34));
    }
    assert(crate::metadata::block_len(c, pos) == len);
}

/// `info` reads only the stream header: on a native stream, whatever
/// follows the metadata (the audio, or anything else) leaves what `info`
/// returns unchanged.
pub proof fn law_info_reads_only_the_header(b: Seq<u8>, rest: Seq<u8>)
    requires
        spec_header(b) is Ok,
    ensures
        spec_info(b.subrange(0, spec_header(b)->Ok_0.1) + rest) == spec_info(b),
{
    let fs = spec_header(b)->Ok_0.1;
    lemma_header_bounds(b);
    let c = b.subrange(0, fs) + rest;
    assert(c.subrange(0, fs) =~= b.subrange(0, fs));
    lemma_blocks_prefix(b, c, 4, None);
    let o = spec_header(b)->Ok_0.0;
    assert(c[0] == b[0] && c[1] == b[1] && c[2] == b[2] && c[3] == b[3]);
    assert(!ogg_magic_at(b, 0));
    assert(!ogg_magic_at(c, 0));
    assert(c.subrange(o, o + 34) =~= b.subrange(o, o + 34));
}

/// The decoder's frame walk never passes the sample cap.
pub proof fn lemma_frames_cap(d: Seq<u8>, pos: int, out: Seq<Seq<i32>>, bps: u8, total: nat)
    requires
        out.len() >= 1,
        out[0].len() * out.len() <= MAX_TOTAL_SAMPLES,
    ensures
        spec_frames(d, pos, out, bps, total) matches Ok(o) ==> o.len() == out.len() && o[0].len()
            * o.len() <= MAX_TOTAL_SAMPLES,
    decreases d.len() * 8 - pos,
{
    if !(total > 0 && out[0].len() >= total) && !(d.len() * 8 - pos < 16) {
        if let Ok((chs, p)) = crate::frame::spec_frame(d, pos, bps, out.len()) {
            let out2 = crate::decoder::append_frame(out, chs);
            if !(out2[0].len() * out.len() > MAX_TOTAL_SAMPLES) && !(p <= pos || p > d.len() * 8) {
                lemma_frames_cap(d, p, out2, bps, total);
            }
        }
    }
}

/// Bounded output: whatever `decode` returns holds at most the cap of
/// samples summed across channels, whatever the input.
pub proof fn law_decode_cap(b: Seq<u8>)
    ensures
        spec_decode(b) matches Ok(x) ==> frames_of(x.samples) * x.channels <= MAX_TOTAL_SAMPLES,
{
    let n = if ogg_magic_at(b, 0) {
        match spec_to_native(b, false) {
            Ok(n) => n,
            Err(_) => b,
        }
    } else {
        b
    };
    if let Ok((o, fs)) = spec_header(n) {
        let body = n.subrange(o, o + 34);
        let nch = body_channels(body);
        let total = body_total(body);
        let init = Seq::new(nch, |c: int| Seq::<i32>::empty());
        if nch >= 1 {
            lemma_frames_cap(n.subrange(fs, n.len() as int), 0, init, body_bps(body) as u8, total);
            if let Ok(out) = spec_frames(
                n.subrange(fs, n.len() as int),
                0,
                init,
                body_bps(body) as u8,
                total,
            ) {
                let t = trim(out, total);
                assert(frames_of(t) <= frames_of(out));
                assert(frames_of(t) * nch <= frames_of(out) * nch) by (nonlinear_arith)
                    requires
                        frames_of(t) <= frames_of(out),
                ;
            }
        }
    }
}

/// Every successful decode of a native stream that records a digest has
/// samples whose MD5 is that digest.
pub proof fn law_decode_checks_md5(b: Seq<u8>)
    ensures
        spec_decode_native(b) matches Ok(x) ==> (spec_header(b) matches Ok((o, _)) && (b.subrange(
            o + 18,
            o + 34,
        ) != Seq::new(16, |i: int| 0u8) ==> spec_md5(sample_bytes(x.samples, x.bits_per_sample))
            == b.subrange(o + 18, o + 34))),
{
    lemma_header_bounds(b);
    if let Ok((o, _)) = spec_header(b) {
        let body = b.subrange(o, o + 34);
        assert(body.subrange(18, 34) =~= b.subrange(o + 18, o + 34));
    }
}

} // verus!
