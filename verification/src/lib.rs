//! Demuxer for the HTTP-FLV variant used by Streamax (and similar MDVR)
//! cameras, which put `codec_id = 12 = HEVC` directly in the video tag
//! header, and a minimal MPEG-TS muxer for HEVC + AAC.
//!
//! Pull API:
//!
//!   let mut d = Demuxer::new();
//!   d.append(bytes);
//!   while let Some(ev) = d.next_event() { handle(ev); }
use vstd::prelude::*;

pub mod aac;
pub mod bits;
pub mod ffi;
pub mod flv;
pub mod hevc;
pub mod mpegts;

pub use flv::{Demuxer, Event};
pub use mpegts::Muxer as TsMuxer;

verus! {

} // verus!
