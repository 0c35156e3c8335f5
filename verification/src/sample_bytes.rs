// Serialising samples the way FLAC's STREAMINFO MD5 expects.
//
// FLAC's MD5 is taken over the raw samples interleaved by channel, each sample
// written as a little-endian signed integer in the smallest whole number of
// bytes that holds the bit depth (2 bytes for 16-bit, 3 for 24-bit, and so
// on). Both the decoder self-check and the encoder need exactly this byte
// stream, so the logic lives here once.

use crate::md5::{Md5, spec_md5};
use vstd::prelude::*;

verus! {

/// Bytes used per sample for a given bit depth: the depth rounded up to whole
/// bytes.
pub open spec fn spec_bytes_per_sample(bits_per_sample: u8) -> nat {
    ((bits_per_sample as nat + 7) / 8) as nat
}

/// The samples of each channel, as sequences.
pub open spec fn channels_view(v: Seq<Vec<i32>>) -> Seq<Seq<i32>> {
    Seq::new(v.len(), |i: int| v[i]@)
}

/// The low `nb` little-endian bytes of a sample's two's-complement bits.
pub open spec fn sample_le(v: i32, nb: nat) -> Seq<u8> {
    Seq::new(nb, |j: int| ((v as u32) >> ((8 * j) as u32)) as u8)
}

/// The bytes of sample `i` of the first `c` channels.
pub open spec fn frame_le(samples: Seq<Seq<i32>>, i: int, c: nat, nb: nat) -> Seq<u8>
    decreases c,
{
    if c == 0 {
        Seq::empty()
    } else {
        frame_le(samples, i, (c - 1) as nat, nb) + sample_le(samples[c - 1][i], nb)
    }
}

/// The bytes of the first `k` samples of every channel, interleaved.
pub open spec fn interleaved(samples: Seq<Seq<i32>>, k: nat, nb: nat) -> Seq<u8>
    decreases k,
{
    if k == 0 {
        Seq::empty()
    } else {
        interleaved(samples, (k - 1) as nat, nb) + frame_le(samples, k - 1, samples.len(), nb)
    }
}

/// The number of samples per channel: the length of the first channel.
pub open spec fn frames_of(samples: Seq<Seq<i32>>) -> nat {
    if samples.len() == 0 {
        0
    } else {
        samples[0].len()
    }
}

/// The byte stream FLAC's MD5 is taken over.
pub open spec fn sample_bytes(samples: Seq<Seq<i32>>, bits_per_sample: u8) -> Seq<u8> {
    interleaved(samples, frames_of(samples), spec_bytes_per_sample(bits_per_sample))
}

/// Every channel holds as many samples as the first.
pub open spec fn rectangular(samples: Seq<Seq<i32>>) -> bool {
    forall|c: int| 0 <= c < samples.len() ==> (#[trigger] samples[c]).len() == frames_of(samples)
}

/// Bytes used per sample for a given bit depth: the depth rounded up to whole
/// bytes.
pub fn bytes_per_sample(bits_per_sample: u8) -> (n: usize)
    ensures
        n == spec_bytes_per_sample(bits_per_sample),
{
    (bits_per_sample as usize + 7) / 8
}

/// Compute the FLAC sample MD5 over interleaved channel samples.
///
/// `samples[channel][index]`; every channel vector has the same length.
pub fn md5_of_samples(samples: &Vec<Vec<i32>>, bits_per_sample: u8) -> (d: [u8; 16])
    requires
        rectangular(channels_view(samples@)),
        bits_per_sample <= 32,
    ensures
        d@ == spec_md5(sample_bytes(channels_view(samples@), bits_per_sample)),
{
    let ghost sv = channels_view(samples@);
    let bps_bytes = bytes_per_sample(bits_per_sample);
    let ghost nb = bps_bytes as nat;
    let frames = if samples.len() == 0 {
        0
    } else {
        samples[0].len()
    };
    let mut hasher = Md5::new();
    let mut i: usize = 0;
    while i < frames
        invariant
            sv == channels_view(samples@),
            rectangular(sv),
            frames == frames_of(sv),
            bps_bytes <= 4,
            nb == bps_bytes,
            i <= frames,
            hasher.wf(),
            hasher@ == interleaved(sv, i as nat, nb),
        decreases frames - i,
    {
        let mut c: usize = 0;
        while c < samples.len()
            invariant
                sv == channels_view(samples@),
                rectangular(sv),
                frames == frames_of(sv),
                bps_bytes <= 4,
                nb == bps_bytes,
                i < frames,
                c <= samples@.len(),
                hasher.wf(),
                hasher@ == interleaved(sv, i as nat, nb) + frame_le(sv, i as int, c as nat, nb),
            decreases samples@.len() - c,
        {
            assert(sv[c as int].len() == frames);
            let word = samples[c][i] as u32;
            let buf: [u8; 4] = [
                word as u8,
                (word >> 8u32) as u8,
                (word >> 16u32) as u8,
                (word >> 24u32) as u8,
            ];
            let part = &buf[0..bps_bytes];
            assert(part@ =~= sample_le(sv[c as int][i as int], nb)) by {
                assert forall|j: int| 0 <= j < nb implies part@[j] == sample_le(
                    sv[c as int][i as int],
                    nb,
                )[j] by {
                    if j == 0 {
                        assert(word >> 0u32 == word) by (bit_vector);
                    }
                }
            }
            hasher.update(part);
            c += 1;
        }
        i += 1;
    }
    hasher.finalize()
}

} // verus!
