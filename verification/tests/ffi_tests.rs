use streamax_core::ffi::{CEvent, EventKind, c_event, pump_events};
use streamax_core::flv::{Demuxer, Event};
use streamax_core::mpegts::Muxer;

#[test]
fn kind_codes() {
    assert_eq!(EventKind::NoEvent.code(), 0);
    assert_eq!(EventKind::VideoConfig.code(), 1);
    assert_eq!(EventKind::VideoFrame.code(), 2);
    assert_eq!(EventKind::AudioConfig.code(), 3);
    assert_eq!(EventKind::AudioFrame.code(), 4);
    assert_eq!(EventKind::Error.code(), 99);
}

#[test]
fn flat_records() {
    let d = CEvent::default();
    assert_eq!(d.kind, EventKind::NoEvent);
    assert_eq!((d.data_len, d.pts_ms, d.width), (0, 0, 0));
    let c = c_event(&Event::VideoFrame { annex_b: vec![0, 0, 0, 1, 5], pts_ms: 7, is_keyframe: true });
    assert_eq!(c.kind, EventKind::VideoFrame);
    assert_eq!((c.data_len, c.pts_ms, c.is_keyframe), (5, 7, 1));
    let c = c_event(&Event::VideoConfig { annex_b: vec![1, 2], width: 640, height: 480 });
    assert_eq!((c.kind, c.data_len, c.width, c.height), (EventKind::VideoConfig, 2, 640, 480));
    let c = c_event(&Event::AudioConfig { config: vec![0x12, 0x10], sample_rate: 44100, channels: 2, object_type: 2 });
    assert_eq!((c.kind, c.data_len, c.sample_rate, c.channels, c.object_type), (EventKind::AudioConfig, 2, 44100, 2, 2));
    let c = c_event(&Event::AudioFrame { data: vec![1, 2, 3], pts_ms: 9 });
    assert_eq!((c.kind, c.data_len, c.pts_ms), (EventKind::AudioFrame, 3, 9));
    let c = c_event(&Event::Error("boom".to_string()));
    assert_eq!((c.kind, c.data_len), (EventKind::Error, 0));
}

fn stream() -> Vec<u8> {
    let mut s = vec![b'F', b'L', b'V', 1, 5, 0, 0, 0, 9, 0, 0, 0, 0];
    // audio config AAC LC 44.1k stereo
    s.extend_from_slice(&[8, 0, 0, 4, 0, 0, 0, 0, 0, 0, 0, 0xAF, 0, 0x12, 0x10, 0, 0, 0, 15]);
    // audio frame
    s.extend_from_slice(&[8, 0, 0, 3, 0, 0, 5, 0, 0, 0, 0, 0xAF, 1, 0x21, 0, 0, 0, 14]);
    s
}

#[test]
fn pump_feeds_muxer() {
    let mut d = Demuxer::new();
    d.append(&stream());
    let mut m = Muxer::new();
    assert!(pump_events(&mut d, &mut m).is_none());
    assert!(d.next_event().is_none());
    let out = m.drain();
    assert_eq!(out.len(), 188);
    assert_eq!(&out[..4], &[0x47, 0x41, 0x01, 0x30]);
}

#[test]
fn pump_stops_at_error() {
    let mut d = Demuxer::new();
    d.append(b"NOTFLV..........");
    let mut m = Muxer::new();
    assert_eq!(pump_events(&mut d, &mut m), Some("not an FLV stream".to_string()));
    assert!(m.drain().is_empty());
}
