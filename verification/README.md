# streamax_core

A pull-style demuxer for the HTTP-FLV variant that Streamax (and similar
MDVR) cameras produce, where HEVC is signalled with `codec_id = 12` in the
video tag header, and a minimal MPEG-TS muxer for HEVC + AAC. The library is
written in Verus and proved against its contracts.

- `src/flv.rs` — FLV tags, HEVC decoder configuration records, length-prefixed
  NAL units to Annex-B, and the `Demuxer`. Its contracts state what a
  demuxer has produced as a function of all bytes it was given (`flv_events`).
- `src/aac.rs` — AudioSpecificConfig parsing.
- `src/hevc.rs` — emulation-prevention removal, a bit reader with
  Exp-Golomb codes, and SPS picture dimensions.
- `src/mpegts.rs` — CRC-32/MPEG-2, PAT/PMT, PES, ADTS and TS packetization,
  and the `Muxer` as a state machine over `MuxerView`.
- `src/ffi.rs` — the flat event record and the demuxer-to-muxer pump that
  the C interface uses.
- `app/` — the `extern "C"` interface and stdin/stdout pipes (not verified).
