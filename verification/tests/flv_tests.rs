use streamax_core::flv::{Demuxer, Event, avcc_to_annex_b, parse_hvcc};

fn flv_header() -> Vec<u8> {
    vec![b'F', b'L', b'V', 1, 5, 0, 0, 0, 9, 0, 0, 0, 0]
}

fn tag(tag_type: u8, ts: u32, body: &[u8]) -> Vec<u8> {
    let size = body.len();
    let mut t = vec![
        tag_type,
        (size >> 16) as u8,
        (size >> 8) as u8,
        size as u8,
        (ts >> 16) as u8,
        (ts >> 8) as u8,
        ts as u8,
        (ts >> 24) as u8,
        0,
        0,
        0,
    ];
    t.extend_from_slice(body);
    let prev = (size + 11) as u32;
    t.extend_from_slice(&prev.to_be_bytes());
    t
}

fn sps_nalu() -> Vec<u8> {
    vec![
        0x42, 0x01, 0x01, 0x01, 0x60, 0x00, 0x00, 0x00, 0x00, 0x90, 0x00, 0x00, 0x00, 0x00, 0x5d,
        0xa0, 0x03, 0xc0, 0x80, 0x11, 0x07, 0xcb,
    ]
}

fn hvcc_record() -> Vec<u8> {
    let mut r = vec![1u8];
    r.extend_from_slice(&[0u8; 21]);
    r.push(3); // arrays
    let vps = vec![0x40u8, 0x01, 0x0c];
    let sps = sps_nalu();
    let pps = vec![0x44u8, 0x01, 0xc1];
    for (t, n) in [(32u8, &vps), (33u8, &sps), (34u8, &pps)] {
        r.push(0x80 | t);
        r.extend_from_slice(&[0, 1]);
        r.extend_from_slice(&(n.len() as u16).to_be_bytes());
        r.extend_from_slice(n);
    }
    r
}

fn video_config_tag() -> Vec<u8> {
    let mut body = vec![0x1C, 0, 0, 0, 0];
    body.extend_from_slice(&hvcc_record());
    tag(9, 0, &body)
}

fn video_frame_tag(ts: u32, key: bool, nalu: &[u8]) -> Vec<u8> {
    let mut body = vec![if key { 0x1C } else { 0x2C }, 1, 0, 0, 0];
    body.extend_from_slice(&(nalu.len() as u32).to_be_bytes());
    body.extend_from_slice(nalu);
    tag(9, ts, &body)
}

fn audio_config_tag() -> Vec<u8> {
    tag(8, 0, &[0xAF, 0, 0x12, 0x10])
}

fn audio_frame_tag(ts: u32, data: &[u8]) -> Vec<u8> {
    let mut body = vec![0xAF, 1];
    body.extend_from_slice(data);
    tag(8, ts, &body)
}

fn sample_stream() -> Vec<u8> {
    let mut s = flv_header();
    s.extend(video_config_tag());
    s.extend(audio_config_tag());
    s.extend(video_frame_tag(40, true, &[0x26, 0x01, 0xAA, 0xBB]));
    s.extend(audio_frame_tag(23, &[1, 2, 3]));
    s.extend(tag(18, 0, &[2, 0, 10])); // script data: ignored
    s.extend(video_frame_tag(0x0100_0050, false, &[0x02, 0x01, 0xCC]));
    s
}

fn drain(d: &mut Demuxer) -> Vec<Event> {
    let mut v = Vec::new();
    while let Some(e) = d.next_event() {
        v.push(e);
    }
    v
}

fn describe(events: &[Event]) -> Vec<String> {
    events.iter().map(|e| format!("{:?}", e)).collect()
}

#[test]
fn rejects_non_flv() {
    let mut d = Demuxer::new();
    d.append(b"NOTFLV..........");
    assert!(matches!(d.next_event(), Some(Event::Error(_))));
}

#[test]
fn accepts_minimal_header() {
    let mut d = Demuxer::new();
    d.append(&[
        b'F', b'L', b'V', 1, 5, 0, 0, 0, 9, // header
        0, 0, 0, 0, // PreviousTagSize0
    ]);
    assert!(d.next_event().is_none());
    assert!(d.header_parsed());
}

#[test]
fn short_header_waits_for_more() {
    let mut d = Demuxer::new();
    d.append(b"FLV\x01\x05");
    assert!(d.next_event().is_none());
    assert!(!d.header_parsed());
    d.append(b"NOT");
    assert!(d.next_event().is_none());
}

#[test]
fn demuxes_sample_stream() {
    let mut d = Demuxer::new();
    d.append(&sample_stream());
    let ev = drain(&mut d);
    assert_eq!(ev.len(), 5);
    match &ev[0] {
        Event::VideoConfig { annex_b, width, height } => {
            assert_eq!((*width, *height), (1920, 1080));
            let mut expect = vec![0, 0, 0, 1, 0x40, 0x01, 0x0c, 0, 0, 0, 1];
            expect.extend(sps_nalu());
            expect.extend_from_slice(&[0, 0, 0, 1, 0x44, 0x01, 0xc1]);
            assert_eq!(annex_b, &expect);
        }
        e => panic!("unexpected {:?}", e),
    }
    match &ev[1] {
        Event::AudioConfig { config, sample_rate, channels, object_type } => {
            assert_eq!(config, &vec![0x12, 0x10]);
            assert_eq!((*sample_rate, *channels, *object_type), (44100, 2, 2));
        }
        e => panic!("unexpected {:?}", e),
    }
    match &ev[2] {
        Event::VideoFrame { annex_b, pts_ms, is_keyframe } => {
            assert_eq!(annex_b, &vec![0, 0, 0, 1, 0x26, 0x01, 0xAA, 0xBB]);
            assert_eq!(*pts_ms, 40);
            assert!(*is_keyframe);
        }
        e => panic!("unexpected {:?}", e),
    }
    match &ev[3] {
        Event::AudioFrame { data, pts_ms } => {
            assert_eq!(data, &vec![1, 2, 3]);
            assert_eq!(*pts_ms, 23);
        }
        e => panic!("unexpected {:?}", e),
    }
    match &ev[4] {
        Event::VideoFrame { pts_ms, is_keyframe, .. } => {
            // extended timestamp byte is the high byte
            assert_eq!(*pts_ms, 0x0100_0050);
            assert!(!*is_keyframe);
        }
        e => panic!("unexpected {:?}", e),
    }
}

#[test]
fn chunking_does_not_change_events() {
    let stream = sample_stream();
    let mut whole = Demuxer::new();
    whole.append(&stream);
    let expected = describe(&drain(&mut whole));
    for chunk in [1usize, 2, 7, 13, 50] {
        let mut d = Demuxer::new();
        let mut got = Vec::new();
        for c in stream.chunks(chunk) {
            d.append(c);
            got.extend(drain(&mut d));
        }
        assert_eq!(describe(&got), expected, "chunk size {}", chunk);
    }
}

#[test]
fn events_only_grow_with_more_bytes() {
    let stream = sample_stream();
    let mut prev: Vec<String> = Vec::new();
    for n in 0..=stream.len() {
        let mut d = Demuxer::new();
        d.append(&stream[..n]);
        let now = describe(&drain(&mut d));
        assert!(now.len() >= prev.len());
        assert_eq!(&now[..prev.len()], &prev[..]);
        prev = now;
    }
}

#[test]
fn avc_stream_poisons_and_error_is_last() {
    let mut s = flv_header();
    s.extend(audio_frame_tag(1, &[9]));
    s.extend(tag(9, 2, &[0x17, 1, 0, 0, 0, 0, 0, 0, 1, 0x65]));
    s.extend(audio_frame_tag(3, &[8]));
    let mut d = Demuxer::new();
    d.append(&s);
    let ev = drain(&mut d);
    assert_eq!(ev.len(), 2);
    assert!(matches!(ev[0], Event::AudioFrame { .. }));
    match &ev[1] {
        Event::Error(m) => assert_eq!(m, "stream is H.264/AVC; this build is HEVC-only"),
        e => panic!("unexpected {:?}", e),
    }
    d.append(&audio_frame_tag(4, &[7]));
    assert!(d.next_event().is_none());
}

#[test]
fn non_flv_message_and_poison() {
    let mut d = Demuxer::new();
    d.append(b"NOTFLV..........");
    match d.next_event() {
        Some(Event::Error(m)) => assert_eq!(m, "not an FLV stream"),
        e => panic!("unexpected {:?}", e),
    }
    d.append(&sample_stream());
    assert!(d.next_event().is_none());
}

#[test]
fn reset_starts_over() {
    let mut d = Demuxer::new();
    d.append(b"NOTFLV..........");
    d.reset();
    assert!(d.next_event().is_none());
    assert!(!d.header_parsed());
    d.append(&sample_stream());
    assert_eq!(drain(&mut d).len(), 5);
}

#[test]
fn default_is_new() {
    let mut d = Demuxer::default();
    d.append(&sample_stream());
    assert_eq!(drain(&mut d).len(), 5);
}

#[test]
fn ignored_tags_and_short_bodies() {
    let mut s = flv_header();
    s.extend(tag(9, 0, &[0x1C, 1, 0])); // too short video body
    s.extend(tag(9, 0, &[0x12, 1, 0, 0, 0, 0, 0, 0, 1, 5])); // codec 2: ignored
    s.extend(tag(8, 0, &[0xAF, 1])); // empty AAC payload
    s.extend(tag(8, 0, &[0x2F, 1, 5])); // MP3: ignored
    s.extend(tag(8, 0, &[0xAF, 0, 0x17])); // truncated ASC: no event
    s.extend(video_frame_tag(5, false, &[])); // zero-length NALU: no frame
    let mut d = Demuxer::new();
    d.append(&s);
    assert!(d.next_event().is_none());
}

#[test]
fn large_stream_compacts_and_keeps_going() {
    let mut s = flv_header();
    let payload = vec![0x55u8; 100_000];
    for i in 0..6u32 {
        s.extend(audio_frame_tag(i, &payload));
    }
    let mut d = Demuxer::new();
    let mut count = 0;
    for c in s.chunks(60_000) {
        d.append(c);
        count += drain(&mut d).len();
    }
    assert_eq!(count, 6);
}

#[test]
fn avcc_conversion() {
    let data = [0, 0, 0, 2, 0xAA, 0xBB, 0, 0, 0, 1, 0xCC, 0, 0, 0, 9, 1];
    assert_eq!(
        avcc_to_annex_b(&data),
        vec![0, 0, 0, 1, 0xAA, 0xBB, 0, 0, 0, 1, 0xCC]
    );
    assert_eq!(avcc_to_annex_b(&[0, 0, 0, 0, 1, 2]), Vec::<u8>::new());
    assert_eq!(avcc_to_annex_b(&[0, 0, 1]), Vec::<u8>::new());
}

#[test]
fn hvcc_parsing() {
    let (annex_b, w, h) = parse_hvcc(&hvcc_record()).unwrap();
    assert_eq!((w, h), (1920, 1080));
    assert_eq!(&annex_b[..4], &[0, 0, 0, 1]);
    let mut bad = hvcc_record();
    bad[0] = 2;
    assert!(parse_hvcc(&bad).is_none());
    let rec = hvcc_record();
    assert!(parse_hvcc(&rec[..rec.len() - 1]).is_none());
    let mut no_arrays = vec![1u8];
    no_arrays.extend_from_slice(&[0u8; 22]);
    assert_eq!(parse_hvcc(&no_arrays), Some((Vec::new(), 0, 0)));
}
