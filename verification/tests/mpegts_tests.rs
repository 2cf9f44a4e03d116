use streamax_core::aac::AAC_SAMPLE_RATES;
use streamax_core::mpegts::{
    AacConfig, Muxer, SYNC_BYTE, TS_PACKET_SIZE, build_pat_section, build_pes, build_pmt_section,
    crc32_mpeg2, encode_pts, sample_rate_index, wrap_adts,
};

#[test]
fn pat_section_starts_with_table_id() {
    let s = build_pat_section();
    assert_eq!(s[0], 0x00); // PAT table_id
    // 1 byte table_id + 2 length + 9 body (TS_ID..PID) + 4 CRC = 16
    assert_eq!(s.len(), 16);
}

#[test]
fn muxer_emits_packets() {
    let mut m = Muxer::new();
    m.push_video_config(&[0x00, 0x00, 0x00, 0x01, 0x40, 0x01]);
    m.push_video_frame(&[0x00, 0x00, 0x00, 0x01, 0x26, 0x01, 0x00, 0x00], 0, true);
    let out = m.drain();
    assert!(!out.is_empty(), "muxer produced no output");
    assert_eq!(out[0], SYNC_BYTE);
    assert_eq!(out.len() % TS_PACKET_SIZE, 0, "TS output is not packet-aligned");
}

#[test]
fn adts_header_size() {
    let cfg = AacConfig { sample_rate_index: 11, channels: 1, profile_minus1: 1 };
    let out = wrap_adts(&[0xAA; 100], cfg);
    assert_eq!(out.len(), 107);
    assert_eq!(out[0], 0xFF);
    assert_eq!(out[1] & 0xF0, 0xF0); // syncword
}

#[test]
fn adts_header_fields() {
    let cfg = AacConfig { sample_rate_index: 4, channels: 2, profile_minus1: 1 };
    let out = wrap_adts(&[0u8; 371], cfg);
    let frame_len = ((out[3] as usize & 3) << 11) | ((out[4] as usize) << 3) | (out[5] as usize >> 5);
    assert_eq!(frame_len, 378);
    assert_eq!(out[2] >> 6, 1);
    assert_eq!((out[2] >> 2) & 0x0F, 4);
    assert_eq!(((out[2] & 1) << 2) | (out[3] >> 6), 2);
    assert_eq!(&out[..7], &[0xFF, 0xF1, 0x50, 0x80, 0x2F, 0x5F, 0xFC]);
}

#[test]
fn crc_check_value() {
    assert_eq!(crc32_mpeg2(b"123456789"), 0x0376E6E7);
    assert_eq!(crc32_mpeg2(&[]), 0xFFFFFFFF);
}

#[test]
fn psi_sections_pass_crc() {
    assert_eq!(crc32_mpeg2(&build_pat_section()), 0);
    assert_eq!(crc32_mpeg2(&build_pmt_section(false)), 0);
    assert_eq!(crc32_mpeg2(&build_pmt_section(true)), 0);
    assert_eq!(build_pmt_section(false).len(), 21);
    assert_eq!(build_pmt_section(true).len(), 26);
    assert_eq!(&build_pat_section()[..12], &[0x00, 0xB0, 0x0D, 0x00, 0x01, 0xC1, 0, 0, 0, 1, 0xF0, 0]);
}

fn decode_pts(b: [u8; 5]) -> u64 {
    (((b[0] as u64 >> 1) & 7) << 30)
        | ((b[1] as u64) << 22)
        | ((b[2] as u64 >> 1) << 15)
        | ((b[3] as u64) << 7)
        | (b[4] as u64 >> 1)
}

#[test]
fn pts_round_trip() {
    for pts in [0u64, 1, 90, 3600 * 90_000, 0x1_FFFF_FFFF, 0x2_0000_0001, u32::MAX as u64 * 90] {
        let b = encode_pts(2, pts);
        assert_eq!(decode_pts(b), pts & 0x1_FFFF_FFFF);
        assert_eq!(b[0] >> 4, 2);
        assert_eq!(b[0] & 1, 1);
        assert_eq!(b[2] & 1, 1);
        assert_eq!(b[4] & 1, 1);
    }
    assert_eq!(encode_pts(2, 0), [0x21, 0x00, 0x01, 0x00, 0x01]);
}

#[test]
fn pes_layout() {
    let p = build_pes(0xC0, 1, &[9, 9, 9], false);
    assert_eq!(&p[..9], &[0, 0, 1, 0xC0, 0, 11, 0x80, 0x80, 5]);
    assert_eq!(&p[14..], &[9, 9, 9]);
    let v = build_pes(0xE0, 1, &[1], true);
    assert_eq!(&v[4..6], &[0, 0]);
    assert_eq!(decode_pts([v[9], v[10], v[11], v[12], v[13]]), 90);
}

#[test]
fn sample_rate_index_inverts_table() {
    for (i, sr) in AAC_SAMPLE_RATES.iter().enumerate() {
        assert_eq!(sample_rate_index(*sr), Some(i as u8));
    }
    assert_eq!(sample_rate_index(44000), None);
}

/// Reads back the PES payloads of one PID from TS bytes.
fn payloads_of(ts: &[u8], pid: u16) -> Vec<Vec<u8>> {
    let mut pes: Vec<Vec<u8>> = Vec::new();
    for p in ts.chunks(188) {
        assert_eq!(p.len(), 188);
        assert_eq!(p[0], 0x47);
        let this_pid = (((p[1] & 0x1F) as u16) << 8) | p[2] as u16;
        if this_pid != pid {
            continue;
        }
        let start = if p[3] & 0x20 != 0 { 5 + p[4] as usize } else { 4 };
        if p[1] & 0x40 != 0 {
            pes.push(Vec::new());
        }
        pes.last_mut().unwrap().extend_from_slice(&p[start..]);
    }
    pes
}

#[test]
fn packetization_restores_pes() {
    for (len, key) in [(1usize, false), (2, false), (155, true), (156, true), (157, true),
                       (162, false), (163, false), (164, false), (170, true), (183, false),
                       (184, false), (185, false), (400, true), (1000, false), (5000, true)] {
        let mut m = Muxer::new();
        m.push_video_config(&[0, 0, 0, 1, 0x40]);
        let frame: Vec<u8> = (0..len).map(|i| (i * 7 + 1) as u8).collect();
        m.push_video_frame(&frame, 33, key);
        let out = m.drain();
        assert_eq!(out.len() % 188, 0);
        let pes = payloads_of(&out, 0x100);
        assert_eq!(pes.len(), 1);
        let pes_len = 14 + if key { 5 } else { 0 } + 7 + len;
        let extra = if key { 2 } else { 0 };
        // PAT and PMT, then the PES
        assert_eq!(out.len(), 188 * (2 + (pes_len + extra + 183) / 184), "len {}", len);
        let mut nalus = Vec::new();
        if key {
            nalus.extend_from_slice(&[0, 0, 0, 1, 0x40]);
        }
        nalus.extend_from_slice(&[0, 0, 0, 1, 0x46, 0x01, 0x10]);
        nalus.extend_from_slice(&frame);
        assert_eq!(pes[0], build_pes(0xE0, 33, &nalus, true), "len {}", len);
    }
}

#[test]
fn tables_and_counters() {
    let mut m = Muxer::new();
    // nothing before a video config
    m.push_video_frame(&[1, 2, 3], 0, true);
    m.push_audio_frame(&[1, 2, 3], 0);
    assert!(m.drain().is_empty());
    m.push_video_config(&[0, 0, 0, 1, 0x40]);
    m.push_audio_config(44100, 2, 2);
    m.push_video_frame(&[1, 2, 3], 100, true);
    let out = m.drain();
    // PAT, PMT, one video packet
    assert_eq!(out.len(), 3 * 188);
    assert_eq!(&out[0..4], &[0x47, 0x40, 0x00, 0x10]);
    assert_eq!(&out[188..192], &[0x47, 0x50, 0x00, 0x10]);
    assert_eq!(&out[376..380], &[0x47, 0x41, 0x00, 0x30]);
    // PMT lists audio
    assert_eq!(&out[188 + 5..188 + 5 + 26], &build_pmt_section(true)[..]);
    // within the interval: no tables; a short PES without flags fills one
    // packet with adaptation-field stuffing
    m.push_video_frame(&[4], 500, false);
    let out = m.drain();
    assert_eq!(out.len(), 188);
    assert_eq!(&out[0..4], &[0x47, 0x41, 0x00, 0x31]);
    // 22-byte PES: field of 184 - 22 bytes, its length byte saying 161
    assert_eq!(out[4], 161);
    assert_eq!(out[5], 0x00);
    assert!(out[6..166].iter().all(|b| *b == 0xFF));
    assert_eq!(&out[166..], &build_pes(0xE0, 500, &[0, 0, 0, 1, 0x46, 0x01, 0x10, 4], true)[..]);
    // after the interval: tables again, counters advance
    m.push_audio_frame(&[7; 10], 1100);
    let out = m.drain();
    assert_eq!(out.len(), 3 * 188);
    assert_eq!(&out[0..4], &[0x47, 0x40, 0x00, 0x11]);
    assert_eq!(&out[376..380], &[0x47, 0x41, 0x01, 0x30]);
    let pes = payloads_of(&out, 0x101);
    let adts = wrap_adts(&[7; 10], AacConfig { sample_rate_index: 4, channels: 2, profile_minus1: 1 });
    assert_eq!(pes[0], build_pes(0xC0, 1100, &adts, false));
}

#[test]
fn audio_config_normalizes() {
    let mut m = Muxer::new();
    m.push_audio_config(12345, 0, 0);
    m.push_audio_frame(&[1], 0);
    let out = m.drain();
    // no video config: no tables, but the audio packet is written
    assert_eq!(out.len(), 188);
    let pes = payloads_of(&out, 0x101);
    let adts = wrap_adts(&[1], AacConfig { sample_rate_index: 4, channels: 1, profile_minus1: 0 });
    assert_eq!(pes[0], build_pes(0xC0, 0, &adts, false));
    let mut m = Muxer::default();
    m.push_audio_config(48000, 9, 5);
    m.push_audio_frame(&[1], 0);
    let pes = payloads_of(&m.drain(), 0x101);
    let adts = wrap_adts(&[1], AacConfig { sample_rate_index: 3, channels: 7, profile_minus1: 4 });
    assert_eq!(pes[0], build_pes(0xC0, 0, &adts, false));
}

#[test]
fn continuity_counter_wraps() {
    let mut m = Muxer::new();
    m.push_video_config(&[0, 0, 0, 1]);
    for i in 0..20u32 {
        m.push_video_frame(&[1], 10 + i, false);
    }
    let out = m.drain();
    let ccs: Vec<u8> = out
        .chunks(188)
        .filter(|p| p[2] == 0x00 && p[1] & 0x1F == 0x01)
        .map(|p| p[3] & 0x0F)
        .collect();
    let expect: Vec<u8> = (0..ccs.len()).map(|i| (i % 16) as u8).collect();
    assert_eq!(ccs, expect);
}

#[test]
fn adaptation_field_of_one_byte() {
    // 183-byte PES without random access: a lone adaptation_field_length 0
    let mut m = Muxer::new();
    m.push_video_config(&[0, 0, 0, 1]);
    m.push_video_frame(&[0u8], 1, true); // tables and first frame out of the way
    m.drain();
    let frame = vec![0x11u8; 162];
    m.push_video_frame(&frame, 2, false);
    let out = m.drain();
    assert_eq!(out.len(), 188);
    assert_eq!(out[3] & 0x30, 0x30);
    assert_eq!(out[4], 0);
    let mut nalus = vec![0, 0, 0, 1, 0x46, 0x01, 0x10];
    nalus.extend_from_slice(&frame);
    assert_eq!(&out[5..], &build_pes(0xE0, 2, &nalus, true)[..]);
}
