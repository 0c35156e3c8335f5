# flac_io

A lossless FLAC decoder and encoder, native (`.flac`) and Ogg-wrapped
(`.oga`), whose parsing, coding and checking logic is verified with Verus.

## Layout

- `src/` — the verified library.
  - `bitstream.rs`, `bitwriter.rs`, `bits.rs`: the bit reader and writer and
    the bit-level model they are specified against.
  - `crc.rs`, `md5.rs`, `sample_bytes.rs`: CRC-8, CRC-16, the Ogg CRC-32, MD5
    (specified as RFC 1321) and the byte layout the sample MD5 is taken over.
  - `metadata.rs`, `frame.rs`, `decoder.rs`: the stream header, frames and
    subframes, and the whole decode with its sample cap and MD5 self-check.
  - `encoder.rs`: validation, subframe choice, frames, STREAMINFO and the Ogg
    packets.
  - `ogg.rs`: the Ogg demuxer and muxer.
  - `roundtrip.rs`, `ogg_roundtrip.rs`, `laws.rs`: what holds across the
    library — the lossless round trip through either container, agreement
    of the two containers, what `info` reports and that it reads only the
    header, the decode cap, the CRC-16 residue, the coded-number round trip,
    the encoder's choices as least-size picks, and that the Ogg demuxer
    never expands its input.
- `tests/` — tests run against the compiled library.
- `app/` — file I/O and the standard error traits on a copy of the error type.

## Trusted items

One small wrapper over std is believed without proof: `Vec::reserve_exact`,
which leaves a vector's contents unchanged. Decimal numbers in error
messages are written by verified code.
