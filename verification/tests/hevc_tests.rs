use streamax_core::hevc::{BitReader, ebsp_to_rbsp, sps_dimensions};

#[test]
fn strips_emulation_prevention() {
    assert_eq!(ebsp_to_rbsp(&[0, 0, 3, 1, 0, 0, 3, 0]), vec![0, 0, 1, 0, 0, 0]);
    assert_eq!(ebsp_to_rbsp(&[0, 3, 0, 0, 3, 3]), vec![0, 3, 0, 0, 3]);
    assert_eq!(ebsp_to_rbsp(&[1, 2, 4, 0, 0, 5]), vec![1, 2, 4, 0, 0, 5]);
    assert_eq!(ebsp_to_rbsp(&[]), Vec::<u8>::new());
}

#[test]
fn reads_exp_golomb() {
    // 1 | 010 | 011 | 00100 | 0001000 -> 0, 1, 2, 3, 7
    let data = [0b1010_0110, 0b0100_0001, 0b0000_0000];
    let mut r = BitReader::new(&data);
    assert_eq!(r.ue(), Some(0));
    assert_eq!(r.ue(), Some(1));
    assert_eq!(r.ue(), Some(2));
    assert_eq!(r.ue(), Some(3));
    assert_eq!(r.ue(), Some(7));
    assert_eq!(r.ue(), None);
}

#[test]
fn exp_golomb_limits() {
    // 32 zeros, a one, 32 zeros: 2^32 - 1 still fits.
    let mut d = vec![0u8; 4];
    d.push(0x80);
    d.extend_from_slice(&[0, 0, 0, 0]);
    let mut r = BitReader::new(&d);
    assert_eq!(r.ue(), Some(u32::MAX));
    // 33 zeros: too long.
    let d = vec![0u8, 0, 0, 0, 0, 0xFF];
    let mut r = BitReader::new(&d);
    assert_eq!(r.ue(), None);
}

#[test]
fn reads_and_skips_bits() {
    let data = [0xA5, 0x0F];
    let mut r = BitReader::new(&data);
    assert_eq!(r.read(0), Some(0));
    assert_eq!(r.read(3), Some(0b101));
    assert_eq!(r.read(33), None);
    assert_eq!(r.skip(5), Some(()));
    assert_eq!(r.read(4), Some(0));
    assert_eq!(r.skip(5), None);
    assert_eq!(r.read(4), Some(0xF));
    assert_eq!(r.read(1), None);
}

#[test]
fn sps_dimensions_of_1080p() {
    let sps = [
        0x42, 0x01, 0x01, 0x01, 0x60, 0x00, 0x00, 0x00, 0x00, 0x90, 0x00, 0x00, 0x00, 0x00, 0x5d,
        0xa0, 0x03, 0xc0, 0x80, 0x11, 0x07, 0xcb,
    ];
    assert_eq!(sps_dimensions(&sps), Some((1920, 1080)));
    assert_eq!(sps_dimensions(&sps[..10]), None);
    assert_eq!(sps_dimensions(&[0x42, 0x01]), None);
}
