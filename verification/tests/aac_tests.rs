use streamax_core::aac::parse_audio_specific_config;

#[test]
fn parses_aac_lc_44100_stereo() {
    // AAC LC (object_type=2), 44100Hz (sf_index=4), 2ch
    // 00010 0100 0010 000 = 0x12 0x10
    let cfg = parse_audio_specific_config(&[0x12, 0x10]).unwrap();
    assert_eq!(cfg.object_type, 2);
    assert_eq!(cfg.sample_rate, 44100);
    assert_eq!(cfg.channels, 2);
}

#[test]
fn parses_escaped_object_type_and_explicit_rate() {
    // object type 31 + 6-bit ext 3 (=35), sf_index 15, rate 0x00BB80 (48000), channels 7 -> 8
    // bits: 11111 000011 1111 000000001011101110000000 0111
    let bits = ["11111", "000011", "1111", "000000001011101110000000", "0111"].concat();
    let mut bytes = Vec::new();
    let mut padded = bits.to_string();
    while padded.len() % 8 != 0 {
        padded.push('0');
    }
    for i in (0..padded.len()).step_by(8) {
        bytes.push(u8::from_str_radix(&padded[i..i + 8], 2).unwrap());
    }
    let cfg = parse_audio_specific_config(&bytes).unwrap();
    assert_eq!(cfg.object_type, 35);
    assert_eq!(cfg.sample_rate, 48000);
    assert_eq!(cfg.channels, 8);
}

#[test]
fn rejects_short_and_reserved_configs() {
    assert!(parse_audio_specific_config(&[0x12]).is_none());
    // sf_index 13 is reserved: 00010 1101 ...
    assert!(parse_audio_specific_config(&[0x16, 0x80]).is_none());
    // explicit rate truncated
    assert!(parse_audio_specific_config(&[0x17, 0x80, 0x00]).is_none());
}

#[test]
fn every_table_index_parses() {
    for i in 0..13u8 {
        let b0 = (2 << 3) | (i >> 1);
        let b1 = ((i & 1) << 7) | (1 << 3);
        let cfg = parse_audio_specific_config(&[b0, b1]).unwrap();
        assert_eq!(cfg.sample_rate, streamax_core::aac::AAC_SAMPLE_RATES[i as usize]);
        assert_eq!(cfg.channels, 1);
    }
}
