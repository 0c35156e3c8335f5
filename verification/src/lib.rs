//! A FLAC decoder and encoder whose parsing, coding and checking logic is
//! verified with Verus.
//!
//! FLAC (Free Lossless Audio Codec) stores audio so that decoding returns the
//! exact input samples, bit for bit. This crate reads a FLAC byte stream
//! into its raw integer samples and writes raw samples back into a valid FLAC
//! stream, without any lossy intermediate.
//!
//! [`FlacAudio::samples`] holds one inner vector per channel, each the same
//! length (the number of samples per channel). Samples are signed integers in
//! the stream's native bit depth, sign-extended into `i32`.

pub mod bits;
pub mod bitstream;
pub mod bitwriter;
pub mod crc;
pub mod decoder;
pub mod encoder;
pub mod error;
pub mod format_laws;
pub mod frame;
pub mod laws;
pub mod md5;
pub mod metadata;
pub mod ogg;
pub mod ogg_roundtrip;
pub mod roundtrip;
pub mod sample_bytes;

pub use error::FlacError;
pub use metadata::StreamInfo;

use crate::decoder::{check_params, params_fault, spec_decode};
use crate::encoder::{spec_encode, spec_encode_ogg};
use crate::error::ErrorView;
use crate::metadata::{read_header, spec_header, stream_info_of};
use crate::ogg::{is_ogg, ogg_magic_at, spec_to_native, to_native_flac};
use crate::sample_bytes::{channels_view, frames_of};
use vstd::prelude::*;

verus! {

/// Decoded FLAC audio: the stream parameters plus the samples, one vector per
/// channel.
#[derive(Debug, Clone, PartialEq, Eq)]
pub struct FlacAudio {
    /// Sample rate in hertz.
    pub sample_rate: u32,
    /// Number of channels (1 to 8).
    pub channels: u8,
    /// Bits per sample (4 to 32).
    pub bits_per_sample: u8,
    /// Decoded samples, `samples[channel][index]`. Every channel vector has
    /// the same length.
    pub samples: Vec<Vec<i32>>,
}

/// The mathematical view of [`FlacAudio`].
pub struct AudioView {
    pub sample_rate: u32,
    pub channels: u8,
    pub bits_per_sample: u8,
    pub samples: Seq<Seq<i32>>,
}

impl View for FlacAudio {
    type V = AudioView;

    open spec fn view(&self) -> AudioView {
        AudioView {
            sample_rate: self.sample_rate,
            channels: self.channels,
            bits_per_sample: self.bits_per_sample,
            samples: channels_view(self.samples@),
        }
    }
}

impl FlacAudio {
    /// Number of samples per channel: the length of the first channel, or
    /// zero when there is none.
    pub fn samples_per_channel(&self) -> (n: usize)
        ensures
            n == frames_of(self@.samples),
    {
        if self.samples.len() == 0 {
            0
        } else {
            self.samples[0].len()
        }
    }
}

/// The STREAMINFO body of a native stream, or why `info` refuses it: the
/// header faults, then the parameters the decoder does not support.
pub open spec fn native_info(b: Seq<u8>) -> Result<Seq<u8>, ErrorView> {
    match spec_header(b) {
        Err(e) => Err(e),
        Ok((o, _)) => {
            let body = b.subrange(o, o + 34);
            match params_fault(body) {
                Some(e) => Err(e),
                None => Ok(body),
            }
        },
    }
}

/// The STREAMINFO body `info` reads from either container, or its error.
pub open spec fn spec_info(b: Seq<u8>) -> Result<Seq<u8>, ErrorView> {
    if ogg_magic_at(b, 0) {
        match spec_to_native(b, true) {
            Err(e) => Err(e),
            Ok(n) => native_info(n),
        }
    } else {
        native_info(b)
    }
}

/// The header-only read of a native stream.
fn info_native(bytes: &[u8]) -> (r: Result<StreamInfo, FlacError>)
    ensures
        match native_info(bytes@) {
            Ok(body) => r is Ok && stream_info_of(r->Ok_0, body),
            Err(e) => r is Err && r->Err_0@ == e,
        },
{
    let header = match read_header(bytes) {
        Ok(h) => h,
        Err(e) => return Err(e),
    };
    let ghost o = spec_header(bytes@)->Ok_0.0;
    let ghost body = bytes@.subrange(o, o + 34);
    match check_params(&header.stream_info, Ghost(body)) {
        Ok(()) => Ok(header.stream_info),
        Err(e) => Err(e),
    }
}

/// Read just the stream metadata (sample rate, channels, bit depth, total
/// samples, MD5) without decoding any audio, from either container.
///
/// This parses only the `fLaC` marker and the metadata blocks (for Ogg, only
/// the header packets), so it is cheap even for a large file. It refuses a
/// channel count or bit depth the decoder does not support, with the same
/// error `decode` gives.
pub fn info(bytes: &[u8]) -> (r: Result<StreamInfo, FlacError>)
    ensures
        match spec_info(bytes@) {
            Ok(body) => r is Ok && stream_info_of(r->Ok_0, body),
            Err(e) => r is Err && r->Err_0@ == e,
        },
{
    if is_ogg(bytes) {
        match to_native_flac(bytes, true) {
            Ok(native) => info_native(native.as_slice()),
            Err(e) => Err(e),
        }
    } else {
        info_native(bytes)
    }
}

/// Decode a FLAC byte stream, native or Ogg-wrapped, into its samples and
/// parameters.
///
/// Fails if the input is not FLAC, is truncated, is corrupt, a stored CRC or
/// the sample MD5 does not match, it uses a feature this crate does not
/// implement, or it would decode to more than the sample cap.
pub fn decode(bytes: &[u8]) -> (r: Result<FlacAudio, FlacError>)
    ensures
        match spec_decode(bytes@) {
            Ok(a) => r is Ok && r->Ok_0@ == a,
            Err(e) => r is Err && r->Err_0@ == e,
        },
        r matches Ok(a) ==> a@.samples.len() == a.channels && crate::sample_bytes::rectangular(
            a@.samples,
        ),
{
    decoder::decode(bytes)
}

/// Encode samples into a valid native FLAC byte stream.
///
/// Fails with [`FlacError::InvalidInput`] if the channel vectors disagree in
/// length, the bit depth, channel count or sample rate is out of range, or a
/// sample does not fit the bit depth.
pub fn encode(audio: &FlacAudio) -> (r: Result<Vec<u8>, FlacError>)
    ensures
        match spec_encode(audio@) {
            Ok(b) => r is Ok && r->Ok_0@ == b,
            Err(e) => r is Err && r->Err_0@ == e,
        },
{
    encoder::encode(audio)
}

/// Encode samples into a FLAC stream wrapped in the Ogg container (`.oga`).
pub fn encode_ogg(audio: &FlacAudio) -> (r: Result<Vec<u8>, FlacError>)
    ensures
        match spec_encode_ogg(audio@) {
            Ok(b) => r is Ok && r->Ok_0@ == b,
            Err(e) => r is Err && r->Err_0@ == e,
        },
{
    encoder::encode_ogg(audio)
}

} // verus!
