// Top-level decode: header, then every frame, then the whole-stream MD5 check.

use crate::bits::bits_val;
use crate::bitstream::BitReader;
use crate::error::{decimal, push_number, ErrorView, FlacError, limit_exceeded};
use crate::frame::{decode_frame, narrow, spec_frame};
use crate::md5::spec_md5;
use crate::ogg::{is_ogg, ogg_magic_at, spec_to_native, to_native_flac};
use crate::metadata::{read_header, spec_header, stream_info_of, StreamInfo};
use crate::sample_bytes::{channels_view, frames_of, md5_of_samples, rectangular, sample_bytes};
use crate::{AudioView, FlacAudio};
use vstd::prelude::*;

verus! {

/// Hard ceiling on the total number of samples (summed across every channel) a
/// single decode will produce.
///
/// A crafted stream can either declare a huge sample total in STREAMINFO or
/// pack many maximum-size constant subframes into a tiny input. At four bytes
/// per decoded sample this cap bounds the output buffer near four gibibytes.
pub const MAX_TOTAL_SAMPLES: u64 = 0x4000_0000;

/// The STREAMINFO values a decode depends on, read from its 34-byte body.
pub open spec fn body_channels(body: Seq<u8>) -> nat {
    bits_val(body, 100, 3) + 1
}

pub open spec fn body_bps(body: Seq<u8>) -> nat {
    bits_val(body, 103, 5) + 1
}

pub open spec fn body_total(body: Seq<u8>) -> nat {
    bits_val(body, 108, 36)
}

pub open spec fn body_rate(body: Seq<u8>) -> nat {
    bits_val(body, 80, 20)
}

/// The fault, if any, that makes a decoder refuse a stream's parameters
/// before reading any frame.
pub open spec fn params_fault(body: Seq<u8>) -> Option<ErrorView> {
    if body_channels(body) < 1 || body_channels(body) > 8 {
        Some(ErrorView::Unsupported("channel count "@ + decimal(body_channels(body))))
    } else if body_bps(body) < 4 || body_bps(body) > 32 {
        Some(ErrorView::Unsupported(decimal(body_bps(body)) + "-bit samples"@))
    } else {
        None
    }
}

/// Appending one frame's channels to the decoded channels.
pub open spec fn append_frame(out: Seq<Seq<i32>>, chs: Seq<Seq<i64>>) -> Seq<Seq<i32>> {
    Seq::new(out.len(), |c: int| out[c] + narrow(chs[c]))
}

/// Decoding frames from bit `pos` of the audio data `d` onto `out`, until the
/// declared total is reached or fewer than two bytes remain.
pub open spec fn spec_frames(
    d: Seq<u8>,
    pos: int,
    out: Seq<Seq<i32>>,
    bps: u8,
    total: nat,
) -> Result<Seq<Seq<i32>>, ErrorView>
    decreases d.len() * 8 - pos,
{
    if total > 0 && out[0].len() >= total {
        Ok(out)
    } else if d.len() * 8 - pos < 16 {
        Ok(out)
    } else {
        match spec_frame(d, pos, bps, out.len()) {
            Err(e) => Err(e),
            Ok((chs, p)) => {
                let out2 = append_frame(out, chs);
                if out2[0].len() * out.len() > MAX_TOTAL_SAMPLES {
                    Err(
                        ErrorView::LimitExceeded(
                            "decoded sample count exceeds the 1073741824-sample decode cap"@,
                        ),
                    )
                } else if p <= pos || p > d.len() * 8 {
                    Ok(out2)
                } else {
                    spec_frames(d, p, out2, bps, total)
                }
            },
        }
    }
}

/// The outcome of the frame walk, tracking only how many samples per channel
/// have been decoded (`n`) for a stream of `nch` channels.
pub open spec fn spec_count_frames(
    d: Seq<u8>,
    pos: int,
    n: nat,
    nch: nat,
    bps: u8,
    total: nat,
) -> Result<(), ErrorView>
    decreases d.len() * 8 - pos,
{
    if total > 0 && n >= total {
        Ok(())
    } else if d.len() * 8 - pos < 16 {
        Ok(())
    } else {
        match spec_frame(d, pos, bps, nch) {
            Err(e) => Err(e),
            Ok((chs, p)) => {
                let n2 = n + chs[0].len();
                if n2 * nch > MAX_TOTAL_SAMPLES {
                    Err(
                        ErrorView::LimitExceeded(
                            "decoded sample count exceeds the 1073741824-sample decode cap"@,
                        ),
                    )
                } else if p <= pos || p > d.len() * 8 {
                    Ok(())
                } else {
                    spec_count_frames(d, p, n2, nch, bps, total)
                }
            },
        }
    }
}

/// The frame walk fails exactly when its sample count alone says it fails,
/// with the same error.
pub proof fn lemma_count_frames(d: Seq<u8>, pos: int, out: Seq<Seq<i32>>, bps: u8, total: nat)
    requires
        out.len() >= 1,
    ensures
        spec_frames(d, pos, out, bps, total) is Err <==> spec_count_frames(
            d,
            pos,
            out[0].len(),
            out.len(),
            bps,
            total,
        ) is Err,
        spec_frames(d, pos, out, bps, total) is Err ==> spec_frames(d, pos, out, bps, total)->Err_0
            == spec_count_frames(d, pos, out[0].len(), out.len(), bps, total)->Err_0,
    decreases d.len() * 8 - pos,
{
    if total > 0 && out[0].len() >= total {
    } else if d.len() * 8 - pos < 16 {
    } else {
        match spec_frame(d, pos, bps, out.len()) {
            Err(e) => {},
            Ok((chs, p)) => {
                let out2 = append_frame(out, chs);
                assert(out2[0].len() == out[0].len() + chs[0].len());
                if out2[0].len() * out.len() > MAX_TOTAL_SAMPLES {
                } else if p <= pos || p > d.len() * 8 {
                } else {
                    lemma_count_frames(d, p, out2, bps, total);
                }
            },
        }
    }
}

/// Walk the frames from `reader` counting the samples they decode to, without
/// keeping them, until the declared total is reached, fewer than two bytes
/// remain, or a frame fails. Used when the total is unknown, so a stream
/// that would exceed the decode cap is refused before its samples are held.
fn count_frames(reader: &mut BitReader, info: &StreamInfo, nch: usize) -> (r: Result<(), FlacError>)
    requires
        old(reader).wf(),
        1 <= nch <= 8,
        info.bits_per_sample <= 32,
    ensures
        match spec_count_frames(
            old(reader).bytes(),
            old(reader).pos(),
            0,
            nch as nat,
            info.bits_per_sample,
            info.total_samples as nat,
        ) {
            Ok(()) => r is Ok,
            Err(e) => r is Err && r->Err_0@ == e,
        },
{
    let ghost d = reader.bytes();
    let ghost goal = spec_count_frames(
        d,
        reader.pos(),
        0,
        nch as nat,
        info.bits_per_sample,
        info.total_samples as nat,
    );
    let total = info.total_samples;
    let mut count: u64 = 0;
    loop
        invariant_except_break
            goal == spec_count_frames(d, reader.pos(), count as nat, nch as nat, info.bits_per_sample, total as nat),
        invariant
            goal == spec_count_frames(
                old(reader).bytes(),
                old(reader).pos(),
                0,
                nch as nat,
                info.bits_per_sample,
                info.total_samples as nat,
            ),
            reader.wf(),
            reader.bytes() == d,
            1 <= nch <= 8,
            total == info.total_samples,
            info.bits_per_sample <= 32,
            count <= MAX_TOTAL_SAMPLES,
        ensures
            goal == Ok::<(), ErrorView>(()),
        decreases d.len() * 8 - reader.pos(),
    {
        if total > 0 && count >= total {
            break;
        }
        if reader.bits_left() < 16 {
            break;
        }
        let ghost pos = reader.pos();
        let mut scratch: Vec<Vec<i32>> = Vec::new();
        while scratch.len() < nch
            invariant
                scratch@.len() <= nch,
                forall|c: int| 0 <= c < scratch@.len() ==> (#[trigger] scratch@[c])@ == Seq::<i32>::empty(),
            decreases nch - scratch@.len(),
        {
            scratch.push(Vec::new());
        }
        let n = match decode_frame(reader, info, &mut scratch) {
            Ok(n) => n,
            Err(e) => {
                assert(spec_frame(d, pos, info.bits_per_sample, nch as nat) is Err);
                return Err(e);
            },
        };
        proof {
            assert(spec_frame(d, pos, info.bits_per_sample, nch as nat) is Ok);
            reader.lemma_bounds();
        }
        if exceeds_cap(count + n as u64, nch as u64) {
            return Err(limit_exceeded("decoded sample count exceeds the 1073741824-sample decode cap"));
        }
        assert(count + n <= MAX_TOTAL_SAMPLES) by (nonlinear_arith)
            requires
                (count + n) * nch <= MAX_TOTAL_SAMPLES,
                nch >= 1,
        ;
        count += n as u64;
    }
    Ok(())
}

/// Trimming every channel to the declared total, when one is declared.
pub open spec fn trim(out: Seq<Seq<i32>>, total: nat) -> Seq<Seq<i32>> {
    if total > 0 {
        Seq::new(
            out.len(),
            |c: int|
                if out[c].len() > total {
                    out[c].take(total as int)
                } else {
                    out[c]
                },
        )
    } else {
        out
    }
}

/// Trimming equal-length channels leaves them of equal length.
pub proof fn lemma_trim_rectangular(out: Seq<Seq<i32>>, total: nat)
    requires
        rectangular(out),
    ensures
        rectangular(trim(out, total)),
        trim(out, total).len() == out.len(),
{
    let t = trim(out, total);
    if total > 0 && out.len() > 0 {
        assert forall|c: int| 0 <= c < t.len() implies (#[trigger] t[c]).len() == frames_of(t) by {
            assert(out[c].len() == frames_of(out));
        }
    }
}

/// Decoding a native FLAC stream.
pub open spec fn spec_decode_native(b: Seq<u8>) -> Result<AudioView, ErrorView> {
    match spec_header(b) {
        Err(e) => Err(e),
        Ok((o, fs)) => {
            let body = b.subrange(o, o + 34);
            let nch = body_channels(body);
            let total = body_total(body);
            if params_fault(body) is Some {
                Err(params_fault(body)->Some_0)
            } else if total * nch > MAX_TOTAL_SAMPLES {
                Err(
                    ErrorView::LimitExceeded(
                        "stream declares "@ + decimal(total) + " samples across "@ + decimal(nch)
                            + " channels, above the 1073741824-sample decode cap"@,
                    ),
                )
            } else if b.len() - fs > usize::MAX / 8 {
                Err(ErrorView::LimitExceeded("stream too long to address by bit"@))
            } else {
                match spec_frames(
                    b.subrange(fs, b.len() as int),
                    0,
                    Seq::new(nch, |c: int| Seq::<i32>::empty()),
                    body_bps(body) as u8,
                    total,
                ) {
                    Err(e) => Err(e),
                    Ok(out) => {
                        let samples = trim(out, total);
                        let md5 = body.subrange(18, 34);
                        if md5 != Seq::new(16, |i: int| 0u8) && spec_md5(
                            sample_bytes(samples, body_bps(body) as u8),
                        ) != md5 {
                            Err(ErrorView::CrcMismatch)
                        } else {
                            Ok(
                                AudioView {
                                    sample_rate: body_rate(body) as u32,
                                    channels: nch as u8,
                                    bits_per_sample: body_bps(body) as u8,
                                    samples,
                                },
                            )
                        }
                    },
                }
            }
        },
    }
}

/// Reject stream parameters this decoder does not support.
pub(crate) fn check_params(info: &StreamInfo, body: Ghost<Seq<u8>>) -> (r: Result<(), FlacError>)
    requires
        body@.len() == 34,
        stream_info_of(*info, body@),
    ensures
        match params_fault(body@) {
            Some(e) => r is Err && r->Err_0@ == e,
            None => r is Ok,
        },
{
    if info.channels < 1 || info.channels > 8 {
        let mut what = "channel count ".to_owned();
        push_number(&mut what, info.channels as u64);
        return Err(FlacError::Unsupported(what));
    }
    if info.bits_per_sample < 4 || info.bits_per_sample > 32 {
        let mut what = String::new();
        push_number(&mut what, info.bits_per_sample as u64);
        what.append("-bit samples");
        assert(what@ =~= decimal(body_bps(body@)) + "-bit samples"@);
        return Err(FlacError::Unsupported(what));
    }
    Ok(())
}

/// True when `count` samples in each of `channels` channels would exceed the
/// decode cap.
fn exceeds_cap(count: u64, channels: u64) -> (b: bool)
    ensures
        b == (count * channels > MAX_TOTAL_SAMPLES),
{
    match count.checked_mul(channels) {
        None => true,
        Some(v) => v > MAX_TOTAL_SAMPLES,
    }
}

/// True when all sixteen bytes are zero.
fn all_zero(md5: &[u8; 16]) -> (b: bool)
    ensures
        b == (md5@ == Seq::new(16, |i: int| 0u8)),
{
    let mut i: usize = 0;
    while i < 16
        invariant
            i <= 16,
            forall|k: int| 0 <= k < i ==> md5@[k] == 0,
        decreases 16 - i,
    {
        if md5[i] != 0 {
            assert(md5@[i as int] != Seq::new(16, |k: int| 0u8)[i as int]);
            return false;
        }
        i += 1;
    }
    assert(md5@ =~= Seq::new(16, |k: int| 0u8));
    true
}

/// True when two digests are equal.
fn same_digest(a: &[u8; 16], b: &[u8; 16]) -> (r: bool)
    ensures
        r == (a@ == b@),
{
    let mut i: usize = 0;
    while i < 16
        invariant
            i <= 16,
            forall|k: int| 0 <= k < i ==> a@[k] == b@[k],
        decreases 16 - i,
    {
        if a[i] != b[i] {
            return false;
        }
        i += 1;
    }
    assert(a@ =~= b@);
    true
}

/// Decode frames from `reader` onto `out` until the declared total is
/// reached, fewer than two bytes remain, or a frame fails.
fn decode_frames(reader: &mut BitReader, info: &StreamInfo, out: &mut Vec<Vec<i32>>) -> (r: Result<
    (),
    FlacError,
>)
    requires
        old(reader).wf(),
        1 <= old(out)@.len() <= 8,
        info.bits_per_sample <= 32,
        rectangular(channels_view(old(out)@)),
        frames_of(channels_view(old(out)@)) <= MAX_TOTAL_SAMPLES,
    ensures
        match spec_frames(
            old(reader).bytes(),
            old(reader).pos(),
            channels_view(old(out)@),
            info.bits_per_sample,
            info.total_samples as nat,
        ) {
            Ok(o) => r is Ok && channels_view(final(out)@) == o,
            Err(e) => r is Err && r->Err_0@ == e,
        },
        r is Ok ==> rectangular(channels_view(final(out)@)) && final(out)@.len() == old(out)@.len(),
{
    let ghost d = reader.bytes();
    let ghost goal = spec_frames(
        d,
        reader.pos(),
        channels_view(out@),
        info.bits_per_sample,
        info.total_samples as nat,
    );
    let nch = out.len();
    let channels = nch as u64;
    let total = info.total_samples;
    loop
        invariant_except_break
            goal == spec_frames(d, reader.pos(), channels_view(out@), info.bits_per_sample, total as nat),
        invariant
            goal == spec_frames(
                old(reader).bytes(),
                old(reader).pos(),
                channels_view(old(out)@),
                info.bits_per_sample,
                info.total_samples as nat,
            ),
            nch == old(out)@.len(),
            reader.wf(),
            reader.bytes() == d,
            1 <= nch <= 8,
            channels == nch,
            total == info.total_samples,
            out@.len() == nch,
            info.bits_per_sample <= 32,
            rectangular(channels_view(out@)),
            frames_of(channels_view(out@)) <= MAX_TOTAL_SAMPLES,
        ensures
            goal == Ok::<Seq<Seq<i32>>, ErrorView>(channels_view(out@)),
        decreases d.len() * 8 - reader.pos(),
    {
        let ghost cv = channels_view(out@);
        assert(cv[0].len() == out@[0]@.len());
        if total > 0 && out[0].len() as u64 >= total {
            break;
        }
        // A frame needs at least its sync code plus a CRC; if fewer than two
        // bytes remain we have reached the end of the audio.
        if reader.bits_left() < 16 {
            break;
        }
        let ghost pos = reader.pos();
        proof {
            assert(!(total > 0 && cv[0].len() >= total));
            assert(d.len() * 8 - pos >= 16);
            assert(cv.len() == nch);
        }
        match decode_frame(reader, info, out) {
            Ok(_) => {
                assert(spec_frame(d, pos, info.bits_per_sample, nch as nat) is Ok);
                proof {
                    reader.lemma_bounds();
                }
            },
            Err(e) => {
                assert(spec_frame(d, pos, info.bits_per_sample, nch as nat) is Err);
                assert(goal == Err::<Seq<Seq<i32>>, ErrorView>(
                    spec_frame(d, pos, info.bits_per_sample, nch as nat)->Err_0,
                ));
                return Err(e);
            },
        }
        let ghost cv2 = channels_view(out@);
        proof {
            let chs = spec_frame(d, pos, info.bits_per_sample, nch as nat)->Ok_0.0;
            assert(cv2 =~= append_frame(cv, chs));
            assert(rectangular(cv2)) by {
                assert forall|c: int| 0 <= c < cv2.len() implies (#[trigger] cv2[c]).len()
                    == frames_of(cv2) by {
                    assert(cv[c].len() == frames_of(cv));
                    assert(cv2[c] == cv[c] + narrow(chs[c]));
                    assert(cv2[0] == cv[0] + narrow(chs[0]));
                }
            }
            assert(cv2[0].len() == out@[0]@.len());
        }

        // Enforce the cap even when the total is unknown or under-declared, so
        // a long run of expanding constant subframes cannot exhaust memory.
        if exceeds_cap(out[0].len() as u64, channels) {
            return Err(limit_exceeded("decoded sample count exceeds the 1073741824-sample decode cap"));
        }
        assert(out@[0]@.len() <= MAX_TOTAL_SAMPLES) by (nonlinear_arith)
            requires
                out@[0]@.len() * channels <= MAX_TOTAL_SAMPLES,
                channels >= 1,
        ;
    }
    Ok(())
}

/// Shorten every channel to `total` samples when a total is declared.
fn trim_to_total(out: &mut Vec<Vec<i32>>, total: u64)
    requires
        total <= MAX_TOTAL_SAMPLES,
    ensures
        channels_view(final(out)@) == trim(channels_view(old(out)@), total as nat),
{
    let ghost before = channels_view(out@);
    if total > 0 {
        let t = total as usize;
        let n = out.len();
        let mut c: usize = 0;
        while c < n
            invariant
                c <= n,
                out@.len() == n,
                n == before.len(),
                t == total,
                total > 0,
                forall|k: int| 0 <= k < c ==> (#[trigger] out@[k])@ == trim(before, total as nat)[k],
                forall|k: int| c <= k < n ==> (#[trigger] out@[k])@ == before[k],
            decreases n - c,
        {
            if out[c].len() > t {
                out[c].truncate(t);
            }
            c += 1;
        }
        assert(channels_view(out@) =~= trim(before, total as nat));
    } else {
        assert(channels_view(out@) =~= trim(before, total as nat));
    }
}

/// Decode a native FLAC byte stream into its samples and parameters.
#[verifier::spinoff_prover]
#[verifier::rlimit(40)]
pub fn decode_native(bytes: &[u8]) -> (r: Result<FlacAudio, FlacError>)
    ensures
        match spec_decode_native(bytes@) {
            Ok(a) => r is Ok && r->Ok_0@ == a,
            Err(e) => r is Err && r->Err_0@ == e,
        },
        r matches Ok(a) ==> a@.samples.len() == a.channels && rectangular(a@.samples),
{
    let ghost b = bytes@;
    let header = match read_header(bytes) {
        Ok(h) => h,
        Err(e) => return Err(e),
    };
    let ghost o = spec_header(b)->Ok_0.0;
    let ghost body = b.subrange(o, o + 34);
    let info = header.stream_info;
    match check_params(&info, Ghost(body)) {
        Ok(()) => {},
        Err(e) => return Err(e),
    }
    let nch = info.channels as usize;

    // Fail fast: a STREAMINFO total that already blows the cap is rejected
    // before a single frame is allocated or decoded.
    if exceeds_cap(info.total_samples, nch as u64) {
        let mut what = "stream declares ".to_owned();
        push_number(&mut what, info.total_samples);
        what.append(" samples across ");
        push_number(&mut what, nch as u64);
        what.append(" channels, above the 1073741824-sample decode cap");
        return Err(FlacError::LimitExceeded(what));
    }
    if bytes.len() - header.frame_start > usize::MAX / 8 {
        return Err(limit_exceeded("stream too long to address by bit"));
    }

    let audio = &bytes[header.frame_start..bytes.len()];
    let mut reader = BitReader::new(audio);
    let mut out: Vec<Vec<i32>> = Vec::new();
    while out.len() < nch
        invariant
            out@.len() <= nch,
            forall|c: int| 0 <= c < out@.len() ==> (#[trigger] out@[c])@ == Seq::<i32>::empty(),
        decreases nch - out@.len(),
    {
        out.push(Vec::new());
    }
    assert(channels_view(out@) =~= Seq::new(nch as nat, |c: int| Seq::<i32>::empty()));
    // With the total unknown, nothing bounds the samples but the cap: walk the
    // frames once without keeping samples, so a stream that would exceed the
    // cap is refused before its samples are held.
    if info.total_samples == 0 {
        let mut counter = BitReader::new(audio);
        match count_frames(&mut counter, &info, nch) {
            Ok(()) => {},
            Err(e) => {
                proof {
                    lemma_count_frames(audio@, 0, channels_view(out@), info.bits_per_sample, 0);
                }
                return Err(e);
            },
        }
    }
    match decode_frames(&mut reader, &info, &mut out) {
        Ok(()) => {},
        Err(e) => return Err(e),
    }
    assert(info.total_samples <= MAX_TOTAL_SAMPLES) by (nonlinear_arith)
        requires
            info.total_samples * nch <= MAX_TOTAL_SAMPLES,
            nch >= 1,
    ;
    let ghost untrimmed = channels_view(out@);
    trim_to_total(&mut out, info.total_samples);
    proof {
        lemma_trim_rectangular(untrimmed, info.total_samples as nat);
        assert(channels_view(out@).len() == nch);
        assert(rectangular(channels_view(out@)));
    }

    // The decisive correctness check: our samples must hash to the digest the
    // encoder stored. A zero digest means the encoder did not record one.
    if !all_zero(&info.md5) {
        let computed = md5_of_samples(&out, info.bits_per_sample);
        if !same_digest(&computed, &info.md5) {
            return Err(FlacError::CrcMismatch);
        }
    }

    Ok(
        FlacAudio {
            sample_rate: info.sample_rate,
            channels: info.channels,
            bits_per_sample: info.bits_per_sample,
            samples: out,
        },
    )
}

/// Decoding either container: an Ogg stream is first demuxed back into the
/// native FLAC stream it carries.
pub open spec fn spec_decode(b: Seq<u8>) -> Result<AudioView, ErrorView> {
    if ogg_magic_at(b, 0) {
        match spec_to_native(b, false) {
            Err(e) => Err(e),
            Ok(n) => spec_decode_native(n),
        }
    } else {
        spec_decode_native(b)
    }
}

/// Decode a FLAC byte stream, native (`fLaC`) or Ogg-wrapped (`OggS`), into
/// its samples and parameters.
pub fn decode(bytes: &[u8]) -> (r: Result<FlacAudio, FlacError>)
    ensures
        match spec_decode(bytes@) {
            Ok(a) => r is Ok && r->Ok_0@ == a,
            Err(e) => r is Err && r->Err_0@ == e,
        },
        r matches Ok(a) ==> a@.samples.len() == a.channels && rectangular(a@.samples),
{
    if is_ogg(bytes) {
        match to_native_flac(bytes, false) {
            Ok(native) => decode_native(native.as_slice()),
            Err(e) => Err(e),
        }
    } else {
        decode_native(bytes)
    }
}

} // verus!
