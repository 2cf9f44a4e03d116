//! Minimal MPEG-TS muxer for HEVC + AAC (ISO/IEC 13818-1, ISO/IEC 14496-3
//! ADTS). One video and one audio elementary stream, PTS only, no PCR.
use vstd::prelude::*;
use crate::aac::AAC_SAMPLE_RATES;

verus! {

pub const TS_PACKET_SIZE: usize = 188;
pub const SYNC_BYTE: u8 = 0x47;

pub const PID_PAT: u16 = 0x0000;
pub const PID_PMT: u16 = 0x1000;
pub const PID_VIDEO: u16 = 0x0100;
pub const PID_AUDIO: u16 = 0x0101;

pub const STREAM_ID_VIDEO: u8 = 0xE0;
pub const STREAM_ID_AUDIO: u8 = 0xC0;

pub const STREAM_TYPE_HEVC: u8 = 0x24;
pub const STREAM_TYPE_AAC: u8 = 0x0F;

pub const TABLES_INTERVAL_MS: u32 = 1000;

// ----------------------------------------------------------------------------
// CRC-32/MPEG-2
// ----------------------------------------------------------------------------

/// One bit of CRC-32/MPEG-2 (polynomial 0x04C11DB7, MSB first).
pub open spec fn crc_step(c: u32) -> u32 {
    if c & 0x8000_0000u32 != 0 {
        (c << 1u32) ^ 0x04C11DB7u32
    } else {
        c << 1u32
    }
}

/// `k` bits of CRC computation from register `c`.
pub open spec fn crc_steps(c: u32, k: nat) -> u32
    decreases k,
{
    if k == 0 {
        c
    } else {
        crc_step(crc_steps(c, (k - 1) as nat))
    }
}

/// The register after feeding byte `b`.
pub open spec fn crc_byte(c: u32, b: u8) -> u32 {
    crc_steps(c ^ ((b as u32) << 24u32), 8)
}

/// The register after feeding the bytes of `d` in order, from `c`.
pub open spec fn crc_from(c: u32, d: Seq<u8>) -> u32
    decreases d.len(),
{
    if d.len() == 0 {
        c
    } else {
        crc_from(crc_byte(c, d[0]), d.drop_first())
    }
}

/// CRC-32/MPEG-2: polynomial 0x04C11DB7, init 0xFFFFFFFF, no reflection,
/// no xorout.
pub open spec fn crc32_mpeg2_spec(d: Seq<u8>) -> u32 {
    crc_from(0xFFFF_FFFFu32, d)
}

/// CRC-32/MPEG-2 of `data`.
pub fn crc32_mpeg2(data: &[u8]) -> (crc: u32)
    ensures
        crc == crc32_mpeg2_spec(data@),
{
    let mut crc: u32 = 0xFFFFFFFF;
    let mut i: usize = 0;
    assert(data@.skip(0) =~= data@);
    while i < data.len()
        invariant
            i <= data@.len(),
            crc_from(crc, data@.skip(i as int)) == crc32_mpeg2_spec(data@),
        decreases data@.len() - i,
    {
        let b = data[i];
        assert(data@.skip(i as int).drop_first() =~= data@.skip(i + 1));
        let ghost x = crc ^ ((b as u32) << 24u32);
        crc ^= (b as u32) << 24;
        let mut k: usize = 0;
        while k < 8
            invariant
                k <= 8,
                crc == crc_steps(x, k as nat),
            decreases 8 - k,
        {
            crc = if crc & 0x8000_0000 != 0 {
                (crc << 1) ^ 0x04C11DB7
            } else {
                crc << 1
            };
            k += 1;
        }
        i += 1;
    }
    assert(data@.skip(data@.len() as int) =~= Seq::<u8>::empty());
    crc
}

/// While the register's top bit stays clear, CRC steps only shift it.
proof fn lemma_crc_steps_shift(x: u32, k: u32)
    requires
        k <= 8,
        x >> (32 - k) as u32 == 0,
    ensures
        crc_steps(x, k as nat) == x << k,
    decreases k,
{
    if k == 0 {
        assert(x << 0u32 == x) by (bit_vector);
    } else {
        assert(x >> (32 - (k - 1)) as u32 == 0) by (bit_vector)
            requires
                1 <= k <= 8,
                x >> (32 - k) as u32 == 0,
        ;
        lemma_crc_steps_shift(x, (k - 1) as u32);
        assert((x << (k - 1) as u32) & 0x8000_0000u32 == 0 && (x << (k - 1) as u32) << 1u32 == x
            << k) by (bit_vector)
            requires
                1 <= k <= 8,
                x >> (32 - k) as u32 == 0,
        ;
    }
}

/// Feeding a register its own top byte shifts it by eight bits.
proof fn lemma_crc_byte_self(r: u32)
    ensures
        crc_byte(r, (r >> 24u32) as u8) == r << 8u32,
{
    let x = r ^ ((((r >> 24u32) as u8) as u32) << 24u32);
    assert(x >> 24u32 == 0 && x << 8u32 == r << 8u32) by (bit_vector)
        requires
            x == r ^ ((((r >> 24u32) as u8) as u32) << 24u32),
    ;
    lemma_crc_steps_shift(x, 8);
}

/// Feeding a CRC register its own value, big-endian, leaves it zero: the
/// check MPEG-2 decoders make over a section with its CRC appended.
pub proof fn lemma_crc_residue_zero(c: u32)
    ensures
        crc_from(c, be_bytes32(c)) == 0,
{
    let b = be_bytes32(c);
    lemma_crc_byte_self(c);
    lemma_crc_byte_self(c << 8u32);
    lemma_crc_byte_self(c << 16u32);
    lemma_crc_byte_self(c << 24u32);
    assert({
        &&& ((c << 8u32) >> 24u32) as u8 == (c >> 16u32) as u8
        &&& ((c << 16u32) >> 24u32) as u8 == (c >> 8u32) as u8
        &&& ((c << 24u32) >> 24u32) as u8 == c as u8
        &&& (c << 8u32) << 8u32 == c << 16u32
        &&& (c << 16u32) << 8u32 == c << 24u32
        &&& (c << 24u32) << 8u32 == 0
    }) by (bit_vector);
    reveal_with_fuel(crc_from, 5);
    assert(b.drop_first().drop_first().drop_first().drop_first() =~= Seq::<u8>::empty());
}

/// A section followed by its own CRC, big-endian, has a zero CRC.
pub proof fn lemma_crc_append(d: Seq<u8>)
    ensures
        crc32_mpeg2_spec(d + be_bytes32(crc32_mpeg2_spec(d))) == 0,
{
    lemma_crc_from_concat(0xFFFF_FFFFu32, d, be_bytes32(crc32_mpeg2_spec(d)));
    lemma_crc_residue_zero(crc32_mpeg2_spec(d));
}

proof fn lemma_crc_from_concat(c: u32, a: Seq<u8>, b: Seq<u8>)
    ensures
        crc_from(c, a + b) == crc_from(crc_from(c, a), b),
    decreases a.len(),
{
    if a.len() > 0 {
        assert((a + b).drop_first() =~= a.drop_first() + b);
        lemma_crc_from_concat(crc_byte(c, a[0]), a.drop_first(), b);
    } else {
        assert(a + b =~= b);
    }
}

/// Eight CRC steps, written out.
spec fn crc_step8(x: u32) -> u32 {
    crc_step(crc_step(crc_step(crc_step(crc_step(crc_step(crc_step(crc_step(x))))))))
}

proof fn lemma_crc_byte_step8(c: u32, b: u8)
    ensures
        crc_byte(c, b) == crc_step8(c ^ ((b as u32) << 24u32)),
{
    reveal_with_fuel(crc_steps, 9);
}

/// The CRC-32/MPEG-2 check value: the CRC of the ASCII digits "123456789"
/// is 0x0376E6E7.
pub proof fn law_crc_check_value()
    ensures
        crc32_mpeg2_spec(seq![0x31u8, 0x32, 0x33, 0x34, 0x35, 0x36, 0x37, 0x38, 0x39]) == 0x0376E6E7,
{
    let d = seq![0x31u8, 0x32, 0x33, 0x34, 0x35, 0x36, 0x37, 0x38, 0x39];
    assert(crc_step8(0xCEFFFFFFu32) == 0x9EFBCF93u32 && crc_step8(0xACFBCF93u32) == 0x3FEC5E6Au32 && crc_step8(0x0CEC5E6Au32) == 0xD952F164u32 && crc_step8(0xED52F164u32) == 0xA695C4AAu32 && crc_step8(0x9395C4AAu32) == 0xBD9AB747u32 && crc_step8(0x8B9AB747u32) == 0xD8F06C8Fu32 && crc_step8(0xEFF06C8Fu32) == 0x0D8A14C4u32 && crc_step8(0x358A14C4u32) == 0x49E3C2FBu32 && crc_step8(0x70E3C2FBu32) == 0x0376E6E7u32) by (bit_vector);
    let cs = seq![0xFFFFFFFFu32, 0x9EFBCF93, 0x3FEC5E6A, 0xD952F164, 0xA695C4AA, 0xBD9AB747,
        0xD8F06C8F, 0x0D8A14C4, 0x49E3C2FB, 0x0376E6E7];
    lemma_crc_byte_step8(0xFFFFFFFFu32, 0x31u8);
    lemma_crc_byte_step8(0x9EFBCF93u32, 0x32u8);
    lemma_crc_byte_step8(0x3FEC5E6Au32, 0x33u8);
    lemma_crc_byte_step8(0xD952F164u32, 0x34u8);
    lemma_crc_byte_step8(0xA695C4AAu32, 0x35u8);
    lemma_crc_byte_step8(0xBD9AB747u32, 0x36u8);
    lemma_crc_byte_step8(0xD8F06C8Fu32, 0x37u8);
    lemma_crc_byte_step8(0x0D8A14C4u32, 0x38u8);
    lemma_crc_byte_step8(0x49E3C2FBu32, 0x39u8);
    assert(0xFFFFFFFFu32 ^ ((0x31u8 as u32) << 24u32) == 0xCEFFFFFFu32 && 0x9EFBCF93u32 ^ ((0x32u8 as u32) << 24u32) == 0xACFBCF93u32 && 0x3FEC5E6Au32 ^ ((0x33u8 as u32) << 24u32) == 0x0CEC5E6Au32 && 0xD952F164u32 ^ ((0x34u8 as u32) << 24u32) == 0xED52F164u32 && 0xA695C4AAu32 ^ ((0x35u8 as u32) << 24u32) == 0x9395C4AAu32 && 0xBD9AB747u32 ^ ((0x36u8 as u32) << 24u32) == 0x8B9AB747u32 && 0xD8F06C8Fu32 ^ ((0x37u8 as u32) << 24u32) == 0xEFF06C8Fu32 && 0x0D8A14C4u32 ^ ((0x38u8 as u32) << 24u32) == 0x358A14C4u32 && 0x49E3C2FBu32 ^ ((0x39u8 as u32) << 24u32) == 0x70E3C2FBu32) by (bit_vector);
    assert forall|i: int| 0 <= i < 9 implies #[trigger] crc_byte(cs[i], d[i]) == cs[i + 1] by {
        if i == 0 {
        } else if i == 1 {
        } else if i == 2 {
        } else if i == 3 {
        } else if i == 4 {
        } else if i == 5 {
        } else if i == 6 {
        } else if i == 7 {
        } else {
        }
    }
    lemma_crc_from_run(cs, d, 0);
    assert(d.subrange(0, 9) =~= d);
    assert(cs[0] == 0xFFFFFFFFu32 && cs[9] == 0x0376E6E7u32);
}

proof fn lemma_crc_from_run(cs: Seq<u32>, d: Seq<u8>, i: int)
    requires
        cs.len() == d.len() + 1,
        0 <= i <= d.len(),
        forall|j: int| 0 <= j < d.len() ==> #[trigger] crc_byte(cs[j], d[j]) == cs[j + 1],
    ensures
        crc_from(cs[i], d.subrange(i, d.len() as int)) == cs[d.len() as int],
    decreases d.len() - i,
{
    if i < d.len() {
        lemma_crc_from_run(cs, d, i + 1);
        assert(d.subrange(i, d.len() as int).drop_first() =~= d.subrange(i + 1, d.len() as int));
    }
    if i == 0 {
        assert(d.subrange(0, d.len() as int) =~= d);
    }
}

/// Big-endian bytes of a 32-bit value.
pub open spec fn be_bytes32(x: u32) -> Seq<u8> {
    seq![(x >> 24u32) as u8, (x >> 16u32) as u8, (x >> 8u32) as u8, x as u8]
}

fn push_be32(out: &mut Vec<u8>, x: u32)
    ensures
        final(out)@ == old(out)@ + be_bytes32(x),
{
    out.push((x >> 24) as u8);
    out.push((x >> 16) as u8);
    out.push((x >> 8) as u8);
    out.push(x as u8);
    assert(final(out)@ =~= old(out)@ + be_bytes32(x));
}

// ----------------------------------------------------------------------------
// PSI sections
// ----------------------------------------------------------------------------

/// PAT section up to (not including) its CRC: table_id 0, section length 13,
/// transport_stream_id 1, version 0 / current, program 1 on the PMT PID.
pub open spec fn pat_section_head() -> Seq<u8> {
    seq![0x00u8, 0xB0, 0x0D, 0x00, 0x01, 0xC1, 0x00, 0x00, 0x00, 0x01, 0xF0, 0x00]
}

/// The complete PAT section: head and its CRC, big-endian.
pub open spec fn pat_section_spec() -> Seq<u8> {
    pat_section_head() + be_bytes32(crc32_mpeg2_spec(pat_section_head()))
}

/// PMT section up to its CRC: program 1, PCR on the video PID, an HEVC
/// stream on the video PID and, when `has_audio`, an AAC stream on the
/// audio PID.
pub open spec fn pmt_section_head(has_audio: bool) -> Seq<u8> {
    let body = seq![0x00u8, 0x01, 0xC1, 0x00, 0x00, 0xE1, 0x00, 0xF0, 0x00, 0x24, 0xE1, 0x00, 0xF0, 0x00]
        + if has_audio {
        seq![0x0Fu8, 0xE1, 0x01, 0xF0, 0x00]
    } else {
        Seq::empty()
    };
    seq![0x02u8, 0xB0, (body.len() + 4) as u8] + body
}

pub open spec fn pmt_section_spec(has_audio: bool) -> Seq<u8> {
    pmt_section_head(has_audio) + be_bytes32(crc32_mpeg2_spec(pmt_section_head(has_audio)))
}

/// Appends the two-byte reserved-bits + 13-bit PID form used in PSI.
fn push_psi_pid(b: &mut Vec<u8>, pid: u16)
    ensures
        final(b)@ == old(b)@ + seq![0xE0u8 | (((pid >> 8u16) as u8) & 0x1Fu8), pid as u8],
{
    b.push(0xE0 | ((pid >> 8) as u8 & 0x1F));
    b.push(pid as u8);
    assert(final(b)@ =~= old(b)@ + seq![0xE0u8 | (((pid >> 8u16) as u8) & 0x1Fu8), pid as u8]);
}

proof fn lemma_pid_bytes()
    ensures
        0xE0u8 | (((PID_PMT >> 8u16) as u8) & 0x1Fu8) == 0xF0,
        PID_PMT as u8 == 0x00,
        0xE0u8 | (((PID_VIDEO >> 8u16) as u8) & 0x1Fu8) == 0xE1,
        PID_VIDEO as u8 == 0x00,
        0xE0u8 | (((PID_AUDIO >> 8u16) as u8) & 0x1Fu8) == 0xE1,
        PID_AUDIO as u8 == 0x01,
{
    assert(0xE0u8 | (((0x1000u16 >> 8u16) as u8) & 0x1Fu8) == 0xF0 && 0xE0u8 | (((0x0100u16 >> 8u16)
        as u8) & 0x1Fu8) == 0xE1 && 0xE0u8 | (((0x0101u16 >> 8u16) as u8) & 0x1Fu8) == 0xE1
        && 0x1000u16 as u8 == 0x00 && 0x0100u16 as u8 == 0x00 && 0x0101u16 as u8 == 0x01)
        by (bit_vector);
}

/// Builds the PAT section, CRC included.
pub fn build_pat_section() -> (s: Vec<u8>)
    ensures
        s@ == pat_section_spec(),
{
    let mut s: Vec<u8> = Vec::with_capacity(17);
    s.push(0x00);
    let mut b: Vec<u8> = Vec::new();
    b.push(0x00);
    b.push(0x01);
    b.push(0xC1);
    b.push(0x00);
    b.push(0x00);
    b.push(0x00);
    b.push(0x01);
    push_psi_pid(&mut b, PID_PMT);
    let section_len = b.len() + 4;
    s.push(0xB0 | ((section_len >> 8) as u8 & 0x0F));
    s.push(section_len as u8);
    proof {
        lemma_pid_bytes();
        assert(section_len == 13);
        assert(0xB0u8 | (((13usize >> 8usize) as u8) & 0x0Fu8) == 0xB0) by (bit_vector);
    }
    s.extend_from_slice(b.as_slice());
    assert(s@ =~= pat_section_head());
    let crc = crc32_mpeg2(s.as_slice());
    push_be32(&mut s, crc);
    s
}

/// Builds the PMT section, CRC included.
pub fn build_pmt_section(has_audio: bool) -> (s: Vec<u8>)
    ensures
        s@ == pmt_section_spec(has_audio),
{
    proof {
        lemma_pid_bytes();
    }
    let mut body: Vec<u8> = Vec::new();
    body.push(0x00);
    body.push(0x01);
    body.push(0xC1);
    body.push(0x00);
    body.push(0x00);
    push_psi_pid(&mut body, PID_VIDEO);
    body.push(0xF0);
    body.push(0x00);
    body.push(STREAM_TYPE_HEVC);
    push_psi_pid(&mut body, PID_VIDEO);
    body.push(0xF0);
    body.push(0x00);
    if has_audio {
        body.push(STREAM_TYPE_AAC);
        push_psi_pid(&mut body, PID_AUDIO);
        body.push(0xF0);
        body.push(0x00);
    }
    let mut s: Vec<u8> = Vec::with_capacity(body.len() + 12);
    s.push(0x02);
    let section_len = body.len() + 4;
    proof {
        assert(section_len == 18 || section_len == 23);
        assert(0xB0u8 | (((18usize >> 8usize) as u8) & 0x0Fu8) == 0xB0) by (bit_vector);
        assert(0xB0u8 | (((23usize >> 8usize) as u8) & 0x0Fu8) == 0xB0) by (bit_vector);
    }
    s.push(0xB0 | ((section_len >> 8) as u8 & 0x0F));
    s.push(section_len as u8);
    s.extend_from_slice(body.as_slice());
    assert(s@ =~= pmt_section_head(has_audio));
    let crc = crc32_mpeg2(s.as_slice());
    push_be32(&mut s, crc);
    s
}

// ----------------------------------------------------------------------------
// PES and ADTS
// ----------------------------------------------------------------------------

/// The five bytes of a 33-bit PTS field: a 4-bit marker prefix, then PTS
/// bits 32..30, 29..15 and 14..0, each group followed by a marker bit 1.
pub open spec fn encode_pts_spec(marker_high: u8, pts: u64) -> Seq<u8> {
    seq![
        (marker_high << 4u8) | (((pts >> 29u64) & 0x0Eu64) as u8) | 0x01u8,
        ((pts >> 22u64) & 0xFFu64) as u8,
        (((pts >> 14u64) & 0xFEu64) as u8) | 0x01u8,
        ((pts >> 7u64) & 0xFFu64) as u8,
        (((pts << 1u64) & 0xFEu64) as u8) | 0x01u8,
    ]
}

/// Encodes a PTS field.
pub fn encode_pts(marker_high: u8, pts: u64) -> (b: [u8; 5])
    ensures
        b@ == encode_pts_spec(marker_high, pts),
{
    let b: [u8; 5] = [
        (marker_high << 4) | (((pts >> 29) & 0x0E) as u8) | 0x01,
        ((pts >> 22) & 0xFF) as u8,
        (((pts >> 14) & 0xFE) as u8) | 0x01,
        ((pts >> 7) & 0xFF) as u8,
        (((pts << 1) & 0xFE) as u8) | 0x01,
    ];
    assert(b@ =~= encode_pts_spec(marker_high, pts));
    b
}

/// The PTS that a five-byte PTS field carries.
pub open spec fn decode_pts(b: Seq<u8>) -> u64 {
    ((((b[0] >> 1u8) & 0x07u8) as u64) << 30u64) | ((b[1] as u64) << 22u64) | (((b[2] >> 1u8)
        as u64) << 15u64) | ((b[3] as u64) << 7u64) | ((b[4] >> 1u8) as u64)
}

/// The PES_packet_length field: zero (unbounded) for video; otherwise the
/// length after the field, 16 bits, wrapping as the field does.
pub open spec fn pes_length_field(payload_len: nat, unbounded: bool) -> u16 {
    if unbounded {
        0
    } else {
        ((8 + payload_len) % 65536) as u16
    }
}

/// The PES_packet_length field for a payload of `len` bytes.
fn pes_length(len: usize, unbounded: bool) -> (r: u16)
    ensures
        r == pes_length_field(len as nat, unbounded),
{
    if unbounded {
        0
    } else {
        let header_data_len: u32 = 5;
        ((3 + header_data_len + (len % 65536) as u32) % 65536) as u16
    }
}

/// A PES packet with a PTS only (90 kHz, from milliseconds): start code
/// prefix, stream id, length field, '10' flags, PTS_DTS_flags '10', header
/// length 5, the PTS field, then the payload.
pub open spec fn pes_spec(stream_id: u8, pts_ms: u32, payload: Seq<u8>, unbounded: bool) -> Seq<u8> {
    let lf = pes_length_field(payload.len(), unbounded);
    seq![0x00u8, 0x00, 0x01, stream_id, (lf / 256) as u8, (lf % 256) as u8, 0x80, 0x80, 0x05]
        + encode_pts_spec(0x02, (pts_ms as u64 * 90) as u64) + payload
}

/// Build a PES packet with the 33-bit PTS field. `unbounded` controls
/// whether PES_packet_length is set to 0 (for video) or to the actual length.
pub fn build_pes(stream_id: u8, pts_ms: u32, payload: &[u8], unbounded: bool) -> (h: Vec<u8>)
    ensures
        h@ == pes_spec(stream_id, pts_ms, payload@, unbounded),
{
    let pts_90k: u64 = (pts_ms as u64) * 90;
    let mut h: Vec<u8> = Vec::with_capacity(14);
    h.push(0x00);
    h.push(0x00);
    h.push(0x01);
    h.push(stream_id);
    let header_data_len: u16 = 5;
    let length_field = pes_length(payload.len(), unbounded);
    h.push((length_field / 256) as u8);
    h.push((length_field % 256) as u8);
    h.push(0x80);
    h.push(0x80);
    h.push(header_data_len as u8);
    let pts = encode_pts(0x02, pts_90k);
    h.extend_from_slice(pts.as_slice());
    h.extend_from_slice(payload);
    assert(h@ =~= pes_spec(stream_id, pts_ms, payload@, unbounded));
    h
}

/// ADTS parameters of the audio stream.
#[derive(Clone, Copy)]
pub struct AacConfig {
    pub sample_rate_index: u8,
    pub channels: u8,
    /// ADTS profile = object_type - 1
    pub profile_minus1: u8,
}

/// The seven-byte ADTS header (no CRC) of a frame of `raw_len` bytes:
/// syncword, MPEG-4, layer 0, protection absent, profile, sampling index,
/// channel configuration, 13-bit frame length (header included), buffer
/// fullness 0x7FF, one raw data block.
pub open spec fn adts_header(raw_len: nat, cfg: AacConfig) -> Seq<u8> {
    let frame_len = (raw_len + 7) as usize;
    seq![
        0xFFu8,
        0xF1u8,
        ((cfg.profile_minus1 & 0x03u8) << 6u8) | ((cfg.sample_rate_index & 0x0Fu8) << 2u8) | (((
        cfg.channels & 0x04u8) >> 2u8) & 0x01u8),
        ((cfg.channels & 0x03u8) << 6u8) | (((frame_len >> 11usize) as u8) & 0x03u8),
        (frame_len >> 3usize) as u8,
        (((frame_len << 5usize) as u8) & 0xE0u8) | 0x1Fu8,
        0xFCu8,
    ]
}

/// ADTS-wrap a raw AAC frame. ISO/IEC 14496-3 1.6.2.1 / 1.A.2.2.
pub fn wrap_adts(raw_aac: &[u8], cfg: AacConfig) -> (out: Vec<u8>)
    requires
        raw_aac@.len() + 7 <= usize::MAX,
    ensures
        out@ == adts_header(raw_aac@.len(), cfg) + raw_aac@,
{
    let frame_len = raw_aac.len() + 7;
    let mut out: Vec<u8> = Vec::with_capacity(frame_len);
    out.push(0xFF);
    out.push(0xF1);
    out.push(((cfg.profile_minus1 & 0x03) << 6) | ((cfg.sample_rate_index & 0x0F) << 2) | (((
    cfg.channels & 0x04) >> 2) & 0x01));
    out.push(((cfg.channels & 0x03) << 6) | ((frame_len >> 11) as u8 & 0x03));
    out.push((frame_len >> 3) as u8);
    out.push(((frame_len << 5) as u8 & 0xE0) | 0x1F);
    out.push(0xFC);
    out.extend_from_slice(raw_aac);
    assert(out@ =~= adts_header(raw_aac@.len(), cfg) + raw_aac@);
    out
}

/// The frame length an ADTS header carries (13 bits).
pub open spec fn adts_frame_length(h: Seq<u8>) -> nat {
    (h[3] & 0x03u8) as nat * 2048 + h[4] as nat * 8 + (h[5] >> 5u8) as nat
}

/// ADTS sampling-frequency index of a sample rate, if it has one.
pub open spec fn sample_rate_index_spec(sr: u32) -> Option<u8> {
    if sr == 96000 {
        Some(0u8)
    } else if sr == 88200 {
        Some(1u8)
    } else if sr == 64000 {
        Some(2u8)
    } else if sr == 48000 {
        Some(3u8)
    } else if sr == 44100 {
        Some(4u8)
    } else if sr == 32000 {
        Some(5u8)
    } else if sr == 24000 {
        Some(6u8)
    } else if sr == 22050 {
        Some(7u8)
    } else if sr == 16000 {
        Some(8u8)
    } else if sr == 12000 {
        Some(9u8)
    } else if sr == 11025 {
        Some(10u8)
    } else if sr == 8000 {
        Some(11u8)
    } else if sr == 7350 {
        Some(12u8)
    } else {
        None
    }
}

pub fn sample_rate_index(sr: u32) -> (r: Option<u8>)
    ensures
        r == sample_rate_index_spec(sr),
{
    match sr {
        96000 => Some(0),
        88200 => Some(1),
        64000 => Some(2),
        48000 => Some(3),
        44100 => Some(4),
        32000 => Some(5),
        24000 => Some(6),
        22050 => Some(7),
        16000 => Some(8),
        12000 => Some(9),
        11025 => Some(10),
        8000 => Some(11),
        7350 => Some(12),
        _ => None,
    }
}

// ----------------------------------------------------------------------------
// Transport stream packets
// ----------------------------------------------------------------------------

/// The 4-byte TS packet header: sync byte, payload_unit_start_indicator,
/// 13-bit PID, adaptation_field_control and continuity counter.
pub open spec fn ts_header(pusi: bool, pid: u16, afc: u8, cc: u8) -> Seq<u8> {
    seq![
        0x47u8,
        (if pusi { 0x40u8 } else { 0u8 }) | (((pid >> 8u16) as u8) & 0x1Fu8),
        pid as u8,
        afc | (cc & 0x0Fu8),
    ]
}

/// A PSI packet: header with PUSI, payload only, then the payload (at most
/// 184 bytes of it) and 0xFF stuffing.
pub open spec fn psi_packet(pid: u16, cc: u8, payload: Seq<u8>) -> Seq<u8> {
    let n: nat = if payload.len() < 184 { payload.len() } else { 184 };
    ts_header(true, pid, 0x10u8, cc) + payload.subrange(0, n as int) + Seq::new(
        (184 - n) as nat,
        |_i: int| 0xFFu8,
    )
}

/// The value of the adaptation_field_length byte of a packet with
/// `remaining` PES bytes left, or `None` when the packet has no adaptation
/// field. The first packet of a random-access PES carries a flags byte with
/// random_access_indicator; a packet that the remaining bytes cannot fill is
/// padded with adaptation-field stuffing, so that the whole field (its
/// length byte included) and the payload make exactly 184 bytes.
pub open spec fn af_spec(remaining: nat, with_flags: bool) -> Option<nat> {
    if with_flags {
        if remaining < 182 {
            Some((183 - remaining) as nat)
        } else {
            Some(1nat)
        }
    } else if remaining < 184 {
        Some((183 - remaining) as nat)
    } else {
        None
    }
}

/// The bytes of an adaptation field: its length byte, then (when the length
/// is not zero) the flags byte and 0xFF stuffing.
pub open spec fn af_bytes(af: Option<nat>, flags: u8) -> Seq<u8> {
    match af {
        None => Seq::empty(),
        Some(l) => seq![l as u8] + if l > 0 {
            seq![flags] + Seq::new((l - 1) as nat, |_i: int| 0xFFu8)
        } else {
            Seq::empty()
        },
    }
}

/// The next TS packet of a PES whose unsent bytes are `rest`, and how many
/// of them it carries.
#[verifier::opaque]
pub open spec fn pes_ts_packet(pid: u16, cc: u8, first: bool, ra: bool, rest: Seq<u8>) -> (
    Seq<u8>,
    nat,
) {
    let with_flags = first && ra;
    let af = af_spec(rest.len(), with_flags);
    let start: nat = match af {
        Some(l) => 5 + l,
        None => 4,
    };
    let room: nat = (188 - start) as nat;
    let take: nat = if rest.len() < room { rest.len() } else { room };
    (
        ts_header(first, pid, if af is Some { 0x30u8 } else { 0x10u8 }, cc) + af_bytes(
            af,
            if with_flags { 0x40u8 } else { 0u8 },
        ) + rest.subrange(0, take as int) + Seq::new((room - take) as nat, |_i: int| 0u8),
        take,
    )
}

/// The TS packets that carry `rest`, the first with PUSI when `first`, with
/// continuity counters counting up from `cc`; and the counter after them.
#[verifier::opaque]
pub open spec fn pes_ts(pid: u16, cc: u8, first: bool, ra: bool, rest: Seq<u8>) -> (Seq<u8>, u8)
    decreases rest.len(),
{
    if rest.len() == 0 {
        (Seq::empty(), cc)
    } else {
        proof {
            lemma_pes_ts_packet_len(pid, cc, first, ra, rest);
        }
        let (p, take) = pes_ts_packet(pid, cc, first, ra, rest);
        let next = pes_ts(
            pid,
            ((cc + 1) % 16) as u8,
            false,
            ra,
            rest.subrange(take as int, rest.len() as int),
        );
        (p + next.0, next.1)
    }
}

/// Whether `s` is a whole number of 188-byte packets, each starting with
/// the sync byte.
pub open spec fn ts_aligned(s: Seq<u8>) -> bool
    decreases s.len(),
{
    if s.len() == 0 {
        true
    } else {
        s.len() >= 188 && s[0] == 0x47 && ts_aligned(s.subrange(188, s.len() as int))
    }
}

pub proof fn lemma_ts_aligned_concat(a: Seq<u8>, b: Seq<u8>)
    requires
        ts_aligned(a),
        ts_aligned(b),
    ensures
        ts_aligned(a + b),
    decreases a.len(),
{
    if a.len() == 0 {
        assert(a + b =~= b);
    } else {
        lemma_ts_aligned_concat(a.subrange(188, a.len() as int), b);
        assert((a + b).subrange(188, (a + b).len() as int) =~= a.subrange(188, a.len() as int)
            + b);
    }
}

pub proof fn lemma_ts_aligned_packet(p: Seq<u8>)
    requires
        p.len() == 188,
        p[0] == 0x47,
    ensures
        ts_aligned(p),
{
    reveal_with_fuel(ts_aligned, 2);
    assert(p.subrange(188, 188) =~= Seq::<u8>::empty());
}

pub proof fn lemma_pes_ts_packet_len(pid: u16, cc: u8, first: bool, ra: bool, rest: Seq<u8>)
    requires
        rest.len() > 0,
    ensures
        pes_ts_packet(pid, cc, first, ra, rest).0.len() == 188,
        pes_ts_packet(pid, cc, first, ra, rest).0[0] == 0x47,
        1 <= pes_ts_packet(pid, cc, first, ra, rest).1 <= rest.len(),
{
    reveal(pes_ts_packet);
}

pub proof fn lemma_pes_ts_aligned(pid: u16, cc: u8, first: bool, ra: bool, rest: Seq<u8>)
    ensures
        ts_aligned(pes_ts(pid, cc, first, ra, rest).0),
        pes_ts(pid, cc, first, ra, rest).1 < 16 || (rest.len() == 0 && pes_ts(
            pid,
            cc,
            first,
            ra,
            rest,
        ).1 == cc),
    decreases rest.len(),
{
    reveal(pes_ts);
    if rest.len() > 0 {
        let (p, take) = pes_ts_packet(pid, cc, first, ra, rest);
        lemma_pes_ts_packet_len(pid, cc, first, ra, rest);
        let r2 = rest.subrange(take as int, rest.len() as int);
        lemma_pes_ts_aligned(pid, ((cc + 1) % 16) as u8, false, ra, r2);
        lemma_ts_aligned_packet(p);
        lemma_ts_aligned_concat(p, pes_ts(pid, ((cc + 1) % 16) as u8, false, ra, r2).0);
    }
}

// ----------------------------------------------------------------------------
// Laws of the format
// ----------------------------------------------------------------------------

/// The payload of one 188-byte TS packet, as a demuxer reads it: after the
/// header, and after the adaptation field when adaptation_field_control
/// says there is one.
pub open spec fn ts_packet_payload(p: Seq<u8>) -> Seq<u8> {
    if p[3] & 0x20u8 != 0 {
        p.subrange(5 + p[4] as int, 188)
    } else {
        p.subrange(4, 188)
    }
}

/// The payloads of a run of TS packets, concatenated.
pub open spec fn ts_payloads(s: Seq<u8>) -> Seq<u8>
    decreases s.len(),
{
    if s.len() < 188 {
        Seq::empty()
    } else {
        ts_packet_payload(s.subrange(0, 188)) + ts_payloads(s.subrange(188, s.len() as int))
    }
}

proof fn lemma_afc_bits(cc: u8)
    ensures
        (0x30u8 | (cc & 0x0Fu8)) & 0x20u8 != 0,
        (0x10u8 | (cc & 0x0Fu8)) & 0x20u8 == 0,
{
    assert((0x30u8 | (cc & 0x0Fu8)) & 0x20u8 != 0) by (bit_vector);
    assert((0x10u8 | (cc & 0x0Fu8)) & 0x20u8 == 0) by (bit_vector);
}

proof fn lemma_pes_ts_packet_payload(pid: u16, cc: u8, first: bool, ra: bool, rest: Seq<u8>)
    requires
        rest.len() > 0,
    ensures
        ts_packet_payload(pes_ts_packet(pid, cc, first, ra, rest).0) == rest.subrange(
            0,
            pes_ts_packet(pid, cc, first, ra, rest).1 as int,
        ),
{
    reveal(pes_ts_packet);
    lemma_afc_bits(cc);
    let (p, take) = pes_ts_packet(pid, cc, first, ra, rest);
    let with_flags = first && ra;
    let af = af_spec(rest.len(), with_flags);
    if af is Some {
        let af_len = af->0;
        assert(p[4] == af_len as u8);
        assert(p.subrange(5 + af_len as int, 188) =~= rest.subrange(0, take as int));
    } else {
        assert(p.subrange(4, 188) =~= rest.subrange(0, take as int));
    }
}

/// Packetizing a PES loses nothing: a demuxer that concatenates the
/// payloads of the packets gets the PES back.
pub proof fn law_ts_payloads_restore_pes(pid: u16, cc: u8, first: bool, ra: bool, pes: Seq<u8>)
    ensures
        ts_payloads(pes_ts(pid, cc, first, ra, pes).0) == pes,
    decreases pes.len(),
{
    reveal(pes_ts);
    if pes.len() == 0 {
        assert(ts_payloads(Seq::<u8>::empty()) =~= Seq::<u8>::empty());
    } else {
        let (p, take) = pes_ts_packet(pid, cc, first, ra, pes);
        lemma_pes_ts_packet_len(pid, cc, first, ra, pes);
        lemma_pes_ts_packet_payload(pid, cc, first, ra, pes);
        let rest = pes.subrange(take as int, pes.len() as int);
        let next = pes_ts(pid, ((cc + 1) % 16) as u8, false, ra, rest);
        law_ts_payloads_restore_pes(pid, ((cc + 1) % 16) as u8, false, ra, rest);
        let all = p + next.0;
        assert(all.subrange(0, 188) =~= p);
        assert(all.subrange(188, all.len() as int) =~= next.0);
        assert(pes.subrange(0, take as int) + rest =~= pes);
    }
}

proof fn lemma_pes_ts_packet_take(pid: u16, cc: u8, first: bool, ra: bool, rest: Seq<u8>)
    requires
        rest.len() > 0,
    ensures
        pes_ts_packet(pid, cc, first, ra, rest).1 == if first && ra {
            if rest.len() < 182 {
                rest.len()
            } else {
                182
            }
        } else if rest.len() < 184 {
            rest.len()
        } else {
            184
        },
{
    reveal(pes_ts_packet);
}

proof fn lemma_pes_ts_count_plain(pid: u16, cc: u8, first: bool, ra: bool, rest: Seq<u8>)
    requires
        !(first && ra),
        cc < 16,
    ensures
        pes_ts(pid, cc, first, ra, rest).0.len() == 188 * ((rest.len() + 183) / 184),
        pes_ts(pid, cc, first, ra, rest).1 == (cc + (rest.len() + 183) / 184) % 16,
    decreases rest.len(),
{
    reveal(pes_ts);
    if rest.len() > 0 {
        lemma_pes_ts_packet_take(pid, cc, first, ra, rest);
        lemma_pes_ts_packet_len(pid, cc, first, ra, rest);
        let take = pes_ts_packet(pid, cc, first, ra, rest).1;
        let r2 = rest.subrange(take as int, rest.len() as int);
        lemma_pes_ts_count_plain(pid, ((cc + 1) % 16) as u8, false, ra, r2);
        assert((rest.len() + 183) / 184 == 1 + (r2.len() + 183) / 184);
    }
}

/// How many packets a PES takes: one per 184 bytes, rounded up, counting
/// the two bytes that the random-access flags field of the first packet
/// uses; the continuity counter advances once per packet.
pub proof fn law_pes_packet_count(pid: u16, cc: u8, ra: bool, pes: Seq<u8>)
    requires
        cc < 16,
        pes.len() > 0,
    ensures
        pes_ts(pid, cc, true, ra, pes).0.len() == 188 * ((pes.len() + (if ra { 2nat } else { 0 })
            + 183) / 184),
        pes_ts(pid, cc, true, ra, pes).1 == (cc + (pes.len() + (if ra { 2nat } else { 0 }) + 183)
            / 184) % 16,
{
    if !ra {
        lemma_pes_ts_count_plain(pid, cc, true, ra, pes);
    } else {
        reveal(pes_ts);
        lemma_pes_ts_packet_take(pid, cc, true, ra, pes);
        lemma_pes_ts_packet_len(pid, cc, true, ra, pes);
        let take = pes_ts_packet(pid, cc, true, ra, pes).1;
        let r2 = pes.subrange(take as int, pes.len() as int);
        lemma_pes_ts_count_plain(pid, ((cc + 1) % 16) as u8, false, ra, r2);
        assert((pes.len() + 2 + 183) / 184 == 1 + (r2.len() + 183) / 184);
    }
}

/// Whether a TS packet `s` (its first 188 bytes) says random access: an
/// adaptation field with a flags byte whose random_access_indicator is set.
pub open spec fn ts_random_access(s: Seq<u8>) -> bool {
    s[3] & 0x20u8 != 0 && s[4] > 0 && s[5] & 0x40u8 != 0
}

/// Packet by packet, `s` is TS packets on `pid` with continuity counters
/// counting up from `cc`: the first (when `first`) with
/// payload_unit_start_indicator, and random access exactly when `first` and
/// `ra`; every later one without either.
pub open spec fn ts_packet_headers(s: Seq<u8>, pid: u16, cc: u8, first: bool, ra: bool) -> bool
    decreases s.len(),
{
    if s.len() < 188 {
        s.len() == 0
    } else {
        &&& s[0] == 0x47
        &&& (s[1] & 0x1Fu8) as nat * 256 + s[2] as nat == pid as nat % 8192
        &&& (s[1] & 0x40u8 != 0) == first
        &&& s[3] & 0x0Fu8 == cc % 16
        &&& ts_random_access(s) == (first && ra)
        &&& ts_packet_headers(s.subrange(188, s.len() as int), pid, ((cc + 1) % 16) as u8, false, ra)
    }
}

proof fn lemma_header_bits(pusi: u8, pid: u16, afc: u8, cc: u8)
    requires
        pusi == 0x40 || pusi == 0,
        afc == 0x30 || afc == 0x10,
    ensures
        ({
            let b1 = pusi | (((pid >> 8u16) as u8) & 0x1Fu8);
            let b2 = pid as u8;
            let b3 = afc | (cc & 0x0Fu8);
            &&& (b1 & 0x1Fu8) as nat * 256 + b2 as nat == pid as nat % 8192
            &&& (b1 & 0x40u8 != 0) == (pusi == 0x40)
            &&& b3 & 0x0Fu8 == cc % 16
            &&& (b3 & 0x20u8 != 0) == (afc == 0x30)
        }),
{
    let b1 = pusi | (((pid >> 8u16) as u8) & 0x1Fu8);
    let b2 = pid as u8;
    let b3 = afc | (cc & 0x0Fu8);
    assert((b1 & 0x1Fu8) as u32 * 256 + b2 as u32 == (pid as u32) % 8192 && (b1 & 0x40u8 != 0)
        == (pusi == 0x40) && b3 & 0x0Fu8 == cc % 16 && (b3 & 0x20u8 != 0) == (afc == 0x30))
        by (bit_vector)
        requires
            pusi == 0x40 || pusi == 0,
            afc == 0x30 || afc == 0x10,
            b1 == pusi | (((pid >> 8u16) as u8) & 0x1Fu8),
            b2 == pid as u8,
            b3 == afc | (cc & 0x0Fu8),
    ;
}

proof fn lemma_pes_ts_packet_header(pid: u16, cc: u8, first: bool, ra: bool, rest: Seq<u8>)
    requires
        rest.len() > 0,
    ensures
        ({
            let p = pes_ts_packet(pid, cc, first, ra, rest).0;
            &&& p[0] == 0x47
            &&& (p[1] & 0x1Fu8) as nat * 256 + p[2] as nat == pid as nat % 8192
            &&& (p[1] & 0x40u8 != 0) == first
            &&& p[3] & 0x0Fu8 == cc % 16
            &&& ts_random_access(p) == (first && ra)
        }),
{
    reveal(pes_ts_packet);
    let with_flags = first && ra;
    let af = af_spec(rest.len(), with_flags);
    let afc = if af is Some { 0x30u8 } else { 0x10u8 };
    lemma_header_bits(if first { 0x40u8 } else { 0u8 }, pid, afc, cc);
    let p = pes_ts_packet(pid, cc, first, ra, rest).0;
    if af is Some {
        assert(p[4] == af->0 as u8);
        if af->0 > 0 {
            assert(p[5] == if with_flags { 0x40u8 } else { 0u8 });
            assert(0x40u8 & 0x40u8 != 0 && 0u8 & 0x40u8 == 0) by (bit_vector);
        }
    }
}

/// Every packet of a packetized PES carries the PID and the next continuity
/// counter; the first has payload_unit_start_indicator and, for a
/// random-access PES, random_access_indicator; no other packet has either.
pub proof fn law_pes_packet_headers(pid: u16, cc: u8, first: bool, ra: bool, pes: Seq<u8>)
    ensures
        ts_packet_headers(pes_ts(pid, cc, first, ra, pes).0, pid, cc, first, ra),
    decreases pes.len(),
{
    reveal(pes_ts);
    if pes.len() > 0 {
        let (p, take) = pes_ts_packet(pid, cc, first, ra, pes);
        lemma_pes_ts_packet_len(pid, cc, first, ra, pes);
        lemma_pes_ts_packet_header(pid, cc, first, ra, pes);
        let r2 = pes.subrange(take as int, pes.len() as int);
        let next = pes_ts(pid, ((cc + 1) % 16) as u8, false, ra, r2).0;
        law_pes_packet_headers(pid, ((cc + 1) % 16) as u8, false, ra, r2);
        let all = p + next;
        assert(all.subrange(188, all.len() as int) =~= next);
        assert(all[0] == p[0] && all[1] == p[1] && all[2] == p[2] && all[3] == p[3] && all[4]
            == p[4] && all[5] == p[5]);
    } else {
        assert(pes_ts(pid, cc, first, ra, pes).0.len() == 0);
    }
}

/// Every packet of a packetized PES is a whole, synchronized TS packet.
pub proof fn law_pes_packets_aligned(pid: u16, cc: u8, first: bool, ra: bool, pes: Seq<u8>)
    ensures
        ts_aligned(pes_ts(pid, cc, first, ra, pes).0),
{
    lemma_pes_ts_aligned(pid, cc, first, ra, pes);
}

/// The PTS field carries the PTS modulo 2^33, with all marker bits set.
pub proof fn law_pts_round_trip(marker_high: u8, pts: u64)
    ensures
        decode_pts(encode_pts_spec(marker_high, pts)) == pts & 0x1_FFFF_FFFFu64,
        encode_pts_spec(marker_high, pts)[0] & 1 == 1,
        encode_pts_spec(marker_high, pts)[2] & 1 == 1,
        encode_pts_spec(marker_high, pts)[4] & 1 == 1,
        encode_pts_spec(marker_high, pts)[0] >> 4u8 == marker_high & 0x0Fu8,
{
    let b = encode_pts_spec(marker_high, pts);
    let b0 = b[0];
    let b1 = b[1];
    let b2 = b[2];
    let b3 = b[3];
    let b4 = b[4];
    assert(((((b0 >> 1u8) & 0x07u8) as u64) << 30u64) | ((b1 as u64) << 22u64) | (((b2 >> 1u8)
        as u64) << 15u64) | ((b3 as u64) << 7u64) | ((b4 >> 1u8) as u64) == pts
        & 0x1_FFFF_FFFFu64 && b0 & 1 == 1 && b2 & 1 == 1 && b4 & 1 == 1 && b0 >> 4u8
        == marker_high & 0x0Fu8) by (bit_vector)
        requires
            b0 == (marker_high << 4u8) | (((pts >> 29u64) & 0x0Eu64) as u8) | 0x01u8,
            b1 == ((pts >> 22u64) & 0xFFu64) as u8,
            b2 == (((pts >> 14u64) & 0xFEu64) as u8) | 0x01u8,
            b3 == ((pts >> 7u64) & 0xFFu64) as u8,
            b4 == (((pts << 1u64) & 0xFEu64) as u8) | 0x01u8,
    ;
}

/// An ADTS header is seven bytes, starts with the 12-bit syncword, and its
/// frame-length field holds the frame's length (header included) modulo
/// 2^13.
pub proof fn law_adts_header(raw_len: nat, cfg: AacConfig)
    requires
        raw_len + 7 <= usize::MAX,
    ensures
        adts_header(raw_len, cfg).len() == 7,
        adts_header(raw_len, cfg)[0] == 0xFF,
        adts_header(raw_len, cfg)[1] & 0xF0u8 == 0xF0,
        adts_frame_length(adts_header(raw_len, cfg)) == (raw_len + 7) % 8192,
{
    let h = adts_header(raw_len, cfg);
    let f = (raw_len + 7) as usize;
    let ch = cfg.channels;
    let b3 = h[3];
    let b4 = h[4];
    let b5 = h[5];
    assert(0xF1u8 & 0xF0u8 == 0xF0) by (bit_vector);
    assert(((b3 & 0x03u8) as usize) * 2048 + (b4 as usize) * 8 + ((b5 >> 5u8) as usize) == f % 8192)
        by (bit_vector)
        requires
            b3 == ((ch & 0x03u8) << 6u8) | (((f >> 11usize) as u8) & 0x03u8),
            b4 == (f >> 3usize) as u8,
            b5 == (((f << 5usize) as u8) & 0xE0u8) | 0x1Fu8,
    ;
}

/// The fields of an ADTS header: MPEG-4, layer 0, no CRC; profile,
/// sampling-frequency index and channel configuration from the config (in
/// their 2, 4 and 3 bits); buffer fullness 0x7FF (variable rate); one raw
/// data block.
pub proof fn law_adts_fields(raw_len: nat, cfg: AacConfig)
    ensures
        ({
            let h = adts_header(raw_len, cfg);
            &&& (h[1] >> 3u8) & 1 == 0
            &&& (h[1] >> 1u8) & 3 == 0
            &&& h[1] & 1 == 1
            &&& h[2] >> 6u8 == cfg.profile_minus1 % 4
            &&& (h[2] >> 2u8) & 0x0F == cfg.sample_rate_index % 16
            &&& ((h[2] & 1) as nat) * 4 + (h[3] >> 6u8) as nat == cfg.channels % 8
            &&& ((h[5] & 0x1Fu8) as nat) * 64 + (h[6] >> 2u8) as nat == 0x7FF
            &&& h[6] & 3 == 0
        }),
{
    let h = adts_header(raw_len, cfg);
    let p = cfg.profile_minus1;
    let sf = cfg.sample_rate_index;
    let ch = cfg.channels;
    let b2 = h[2];
    let b3 = h[3];
    let b5 = h[5];
    let f = (raw_len + 7) as usize;
    assert((0xF1u8 >> 3u8) & 1 == 0 && (0xF1u8 >> 1u8) & 3 == 0 && 0xF1u8 & 1 == 1
        && 0xFCu8 >> 2u8 == 0x3F && 0xFCu8 & 3 == 0) by (bit_vector);
    assert(b2 >> 6u8 == p % 4 && (b2 >> 2u8) & 0x0F == sf % 16 && (b2 & 1) as u32 * 4 + (b3
        >> 6u8) as u32 == (ch % 8) as u32 && (b5 & 0x1Fu8) == 0x1F) by (bit_vector)
        requires
            b2 == ((p & 0x03u8) << 6u8) | ((sf & 0x0Fu8) << 2u8) | (((ch & 0x04u8) >> 2u8)
                & 0x01u8),
            b3 == ((ch & 0x03u8) << 6u8) | (((f >> 11usize) as u8) & 0x03u8),
            b5 == (((f << 5usize) as u8) & 0xE0u8) | 0x1Fu8,
    ;
}

/// The header of a PES: start code prefix 00 00 01, the stream id, the
/// length of what follows the length field (0 when unbounded, else modulo
/// 2^16), flags with PTS only and a 5-byte header, then a PTS field that
/// carries the time in 90 kHz ticks (modulo 2^33), then the payload.
pub proof fn law_pes_header(stream_id: u8, pts_ms: u32, payload: Seq<u8>, unbounded: bool)
    ensures
        ({
            let p = pes_spec(stream_id, pts_ms, payload, unbounded);
            &&& p.len() == 14 + payload.len()
            &&& p[0] == 0 && p[1] == 0 && p[2] == 1
            &&& p[3] == stream_id
            &&& p[4] as nat * 256 + p[5] as nat == if unbounded {
                0
            } else {
                (p.len() - 6) % 65536
            }
            &&& p[6] == 0x80 && p[7] == 0x80 && p[8] == 5
            &&& decode_pts(p.subrange(9, 14)) as nat == (pts_ms as nat * 90) % 0x2_0000_0000
            &&& p.subrange(14, p.len() as int) == payload
        }),
{
    let p = pes_spec(stream_id, pts_ms, payload, unbounded);
    let x = (pts_ms as u64 * 90) as u64;
    assert(x == pts_ms as nat * 90);
    assert(x & 0x1_FFFF_FFFFu64 == x % 0x2_0000_0000) by (bit_vector);
    law_pts_round_trip(0x02, x);
    assert(p.subrange(9, 14) =~= encode_pts_spec(0x02, (pts_ms as u64 * 90) as u64));
    assert(p.subrange(14, p.len() as int) =~= payload);
}

/// The muxer's sampling-frequency index and the AudioSpecificConfig table
/// are inverse: each table rate maps to its own index, and each index the
/// muxer gives names the rate it was given.
pub proof fn law_sample_rate_index_inverts_table(i: int, sr: u32)
    requires
        0 <= i < 13,
    ensures
        sample_rate_index_spec(AAC_SAMPLE_RATES@[i]) == Some(i as u8),
        sample_rate_index_spec(sr) matches Some(j) ==> j < 13 && AAC_SAMPLE_RATES@[j as int] == sr,
{
}

/// The PSI sections carry a correct CRC: the CRC over a whole section,
/// its CRC included, is zero, as MPEG-2 decoders check.
pub proof fn law_psi_sections_pass_crc(has_audio: bool)
    ensures
        crc32_mpeg2_spec(pat_section_spec()) == 0,
        crc32_mpeg2_spec(pmt_section_spec(has_audio)) == 0,
{
    lemma_crc_append(pat_section_head());
    lemma_crc_append(pmt_section_head(has_audio));
}

// ----------------------------------------------------------------------------
// The muxer
// ----------------------------------------------------------------------------

/// Access unit delimiter NAL unit (type 35), Annex-B.
pub open spec fn aud_nalu() -> Seq<u8> {
    seq![0x00u8, 0x00, 0x00, 0x01, 0x46, 0x01, 0x10]
}

/// The muxer's state as values.
pub struct MuxerView {
    /// Continuity counters: PAT, PMT, video, audio.
    pub cc: Seq<u8>,
    /// TS bytes not yet drained.
    pub out: Seq<u8>,
    /// VPS/SPS/PPS in Annex-B, prepended to each keyframe.
    pub video_csd: Seq<u8>,
    pub aac_config: Option<AacConfig>,
    pub last_tables_pts: u32,
    pub has_video_config: bool,
    pub has_audio_config: bool,
}

/// Counters are four 4-bit values and the output is whole TS packets.
pub open spec fn mux_wf(v: MuxerView) -> bool {
    &&& v.cc.len() == 4
    &&& forall|i: int| 0 <= i < 4 ==> #[trigger] v.cc[i] < 16
    &&& ts_aligned(v.out)
}

/// `v` after one PSI packet on `pid` with counter `idx`.
pub open spec fn write_psi_spec(v: MuxerView, pid: u16, idx: int, payload: Seq<u8>) -> MuxerView {
    MuxerView {
        out: v.out + psi_packet(pid, v.cc[idx], payload),
        cc: v.cc.update(idx, ((v.cc[idx] + 1) % 16) as u8),
        ..v
    }
}

/// PAT and PMT payloads: pointer_field 0, then the section.
pub open spec fn pat_payload() -> Seq<u8> {
    seq![0x00u8] + pat_section_spec()
}

pub open spec fn pmt_payload(has_audio: bool) -> Seq<u8> {
    seq![0x00u8] + pmt_section_spec(has_audio)
}

/// Whether PAT/PMT are due at `pts_ms`: never before a video config; on the
/// first frame (no tables sent yet, or sent at 0) and then at least every
/// TABLES_INTERVAL_MS.
pub open spec fn tables_due(v: MuxerView, pts_ms: u32) -> bool {
    v.has_video_config && (v.last_tables_pts == 0 || pts_ms >= v.last_tables_pts + 1000)
}

pub open spec fn emit_tables_spec(v: MuxerView, pts_ms: u32) -> MuxerView {
    if tables_due(v, pts_ms) {
        let v1 = write_psi_spec(v, PID_PAT, 0, pat_payload());
        let v2 = write_psi_spec(v1, PID_PMT, 1, pmt_payload(v1.has_audio_config));
        MuxerView { last_tables_pts: pts_ms, ..v2 }
    } else {
        v
    }
}

/// `v` after the TS packets of a PES on `pid` with counter `idx`.
pub open spec fn write_pes_spec(v: MuxerView, pid: u16, idx: int, pes: Seq<u8>, ra: bool) -> MuxerView {
    let (bytes, cc) = pes_ts(pid, v.cc[idx], true, ra, pes);
    MuxerView { out: v.out + bytes, cc: v.cc.update(idx, cc), ..v }
}

pub open spec fn video_config_spec(v: MuxerView, annex_b: Seq<u8>) -> MuxerView {
    MuxerView { video_csd: annex_b, has_video_config: true, ..v }
}

/// A video frame: dropped before any video config; otherwise tables when
/// due, then one PES (unbounded length) of the parameter sets (keyframes
/// only), an access unit delimiter and the frame.
pub open spec fn video_frame_spec(v: MuxerView, annex_b: Seq<u8>, pts_ms: u32, key: bool) -> MuxerView {
    if !v.has_video_config {
        v
    } else {
        let v1 = emit_tables_spec(v, pts_ms);
        let nalus = (if key { v1.video_csd } else { Seq::empty() }) + aud_nalu() + annex_b;
        write_pes_spec(v1, PID_VIDEO, 2, pes_spec(STREAM_ID_VIDEO, pts_ms, nalus, true), key)
    }
}

/// The ADTS parameters for a sample rate, channel count and object type:
/// unknown rates fall back to 44.1 kHz (index 4), channels are clamped to
/// 1..=7, profile is object type - 1 (0 for object type 0).
pub open spec fn adts_config_spec(sample_rate: u32, channels: u8, object_type: u8) -> AacConfig {
    AacConfig {
        sample_rate_index: match sample_rate_index_spec(sample_rate) {
            Some(i) => i,
            None => 4u8,
        },
        channels: if channels < 1 {
            1u8
        } else if channels > 7 {
            7u8
        } else {
            channels
        },
        profile_minus1: if object_type > 0 {
            (object_type - 1) as u8
        } else {
            0u8
        },
    }
}

pub open spec fn audio_config_spec(v: MuxerView, sample_rate: u32, channels: u8, object_type: u8) -> MuxerView {
    MuxerView {
        aac_config: Some(adts_config_spec(sample_rate, channels, object_type)),
        has_audio_config: true,
        ..v
    }
}

/// An audio frame: dropped before any audio config; otherwise tables when
/// due, then one PES (with its length) of the ADTS-wrapped frame, marked
/// random access.
pub open spec fn audio_frame_spec(v: MuxerView, raw: Seq<u8>, pts_ms: u32) -> MuxerView {
    match v.aac_config {
        None => v,
        Some(cfg) => {
            let v1 = emit_tables_spec(v, pts_ms);
            write_pes_spec(
                v1,
                PID_AUDIO,
                3,
                pes_spec(STREAM_ID_AUDIO, pts_ms, adts_header(raw.len(), cfg) + raw, false),
                true,
            )
        },
    }
}

/// MPEG-TS muxer: push configs and frames, drain TS bytes.
pub struct Muxer {
    cc: [u8; 4],
    out: Vec<u8>,
    video_csd_annex_b: Vec<u8>,
    aac_config: Option<AacConfig>,
    last_tables_pts: u32,
    has_video_config: bool,
    has_audio_config: bool,
}

impl View for Muxer {
    type V = MuxerView;

    closed spec fn view(&self) -> MuxerView {
        MuxerView {
            cc: self.cc@,
            out: self.out@,
            video_csd: self.video_csd_annex_b@,
            aac_config: self.aac_config,
            last_tables_pts: self.last_tables_pts,
            has_video_config: self.has_video_config,
            has_audio_config: self.has_audio_config,
        }
    }
}

/// Whether a packet with `remaining` PES bytes left has an adaptation
/// field, and the value of its length byte.
fn adaptation_field_len(remaining: usize, with_flags: bool) -> (r: (bool, usize))
    requires
        remaining > 0,
    ensures
        r.0 == af_spec(remaining as nat, with_flags) is Some,
        r.0 ==> r.1 == af_spec(remaining as nat, with_flags)->0,
        r.1 <= 182,
{
    let mut af_present = false;
    let mut af_len: usize = 0;
    if with_flags {
        af_len = 1;
        af_present = true;
    }
    let payload_capacity: usize = 184 - if af_present {
        af_len + 1
    } else {
        0
    };
    if remaining < payload_capacity {
        // Pad with adaptation field stuffing; a new adaptation field brings
        // its length byte, which is part of the padding.
        let need_pad = payload_capacity - remaining;
        if af_present {
            af_len += need_pad;
        } else {
            af_present = true;
            af_len = need_pad - 1;
        }
    }
    (af_present, af_len)
}

/// Appends an adaptation field (when `present`): length byte, and when the
/// length is not zero the flags byte and stuffing.
fn push_adaptation_field(pkt: &mut Vec<u8>, present: bool, len: usize, flags: u8)
    requires
        len <= 182,
    ensures
        final(pkt)@ == old(pkt)@ + af_bytes(
            if present { Some(len as nat) } else { None },
            flags,
        ),
{
    let ghost head = pkt@;
    if present {
        pkt.push(len as u8);
        if len > 0 {
            pkt.push(flags);
            let mut k: usize = 1;
            while k < len
                invariant
                    1 <= k <= len <= 182,
                    pkt@ == head + seq![len as u8, flags] + Seq::new(
                        (k - 1) as nat,
                        |_i: int| 0xFFu8,
                    ),
                decreases len - k,
            {
                pkt.push(0xFF);
                k += 1;
                assert(pkt@ =~= head + seq![len as u8, flags] + Seq::new(
                    (k - 1) as nat,
                    |_i: int| 0xFFu8,
                ));
            }
            assert(pkt@ =~= head + af_bytes(Some(len as nat), flags));
        } else {
            assert(pkt@ =~= head + af_bytes(Some(len as nat), flags));
        }
    } else {
        assert(pkt@ =~= head + af_bytes(None, flags));
    }
}

proof fn lemma_cc_next(next: u8)
    requires
        next <= 16,
    ensures
        next & 0x0Fu8 == next % 16,
{
    assert(next & 0x0Fu8 == next % 16) by (bit_vector)
        requires
            next <= 16,
    ;
}

/// One step of `pes_ts`.
proof fn lemma_pes_ts_step(pid: u16, cc: u8, first: bool, ra: bool, rest: Seq<u8>)
    requires
        rest.len() > 0,
    ensures
        ({
            let (p, take) = pes_ts_packet(pid, cc, first, ra, rest);
            let next = pes_ts(
                pid,
                ((cc + 1) % 16) as u8,
                false,
                ra,
                rest.subrange(take as int, rest.len() as int),
            );
            pes_ts(pid, cc, first, ra, rest) == (p + next.0, next.1)
        }),
{
    reveal(pes_ts);
}

impl Muxer {
    pub fn new() -> (m: Self)
        ensures
            mux_wf(m@),
            m@ == (MuxerView {
                cc: seq![0u8, 0u8, 0u8, 0u8],
                out: Seq::empty(),
                video_csd: Seq::empty(),
                aac_config: None,
                last_tables_pts: 0,
                has_video_config: false,
                has_audio_config: false,
            }),
    {
        let m = Muxer {
            cc: [0; 4],
            out: Vec::with_capacity(64 * 1024),
            video_csd_annex_b: Vec::new(),
            aac_config: None,
            last_tables_pts: 0,
            has_video_config: false,
            has_audio_config: false,
        };
        assert(m.cc@ =~= seq![0u8, 0u8, 0u8, 0u8]);
        m
    }

    pub fn push_video_config(&mut self, annex_b: &[u8])
        requires
            mux_wf(old(self)@),
        ensures
            mux_wf(final(self)@),
            final(self)@ == video_config_spec(old(self)@, annex_b@),
    {
        self.video_csd_annex_b = vstd::slice::slice_to_vec(annex_b);
        self.has_video_config = true;
    }

    pub fn push_video_frame(&mut self, annex_b: &[u8], pts_ms: u32, is_keyframe: bool)
        requires
            mux_wf(old(self)@),
        ensures
            mux_wf(final(self)@),
            final(self)@ == video_frame_spec(old(self)@, annex_b@, pts_ms, is_keyframe),
    {
        if !self.has_video_config {
            return;
        }
        self.maybe_emit_tables(pts_ms);
        let mut nalus: Vec<u8> = Vec::new();
        if is_keyframe {
            nalus.extend_from_slice(self.video_csd_annex_b.as_slice());
        }
        nalus.push(0x00);
        nalus.push(0x00);
        nalus.push(0x00);
        nalus.push(0x01);
        nalus.push(0x46);
        nalus.push(0x01);
        nalus.push(0x10);
        nalus.extend_from_slice(annex_b);
        assert(nalus@ =~= (if is_keyframe { self.video_csd_annex_b@ } else { Seq::empty() })
            + aud_nalu() + annex_b@);
        let pes = build_pes(STREAM_ID_VIDEO, pts_ms, nalus.as_slice(), true);
        self.write_pes_into_ts(PID_VIDEO, 2, pes.as_slice(), is_keyframe);
    }

    pub fn push_audio_config(&mut self, sample_rate: u32, channels: u8, object_type: u8)
        requires
            mux_wf(old(self)@),
        ensures
            mux_wf(final(self)@),
            final(self)@ == audio_config_spec(old(self)@, sample_rate, channels, object_type),
    {
        let sr_index = match sample_rate_index(sample_rate) {
            Some(i) => i,
            None => 4,
        };
        let ch = if channels < 1 {
            1
        } else {
            channels
        };
        let ch = if ch > 7 {
            7
        } else {
            ch
        };
        let profile_minus1 = if object_type > 0 {
            object_type - 1
        } else {
            0
        };
        self.aac_config = Some(
            AacConfig { sample_rate_index: sr_index, channels: ch, profile_minus1 },
        );
        self.has_audio_config = true;
    }

    pub fn push_audio_frame(&mut self, raw_aac: &[u8], pts_ms: u32)
        requires
            mux_wf(old(self)@),
            raw_aac@.len() + 7 <= usize::MAX,
        ensures
            mux_wf(final(self)@),
            final(self)@ == audio_frame_spec(old(self)@, raw_aac@, pts_ms),
    {
        let cfg = match self.aac_config {
            Some(c) => c,
            None => return,
        };
        self.maybe_emit_tables(pts_ms);
        let adts = wrap_adts(raw_aac, cfg);
        let pes = build_pes(STREAM_ID_AUDIO, pts_ms, adts.as_slice(), false);
        self.write_pes_into_ts(PID_AUDIO, 3, pes.as_slice(), true);
    }

    /// Drain any pending TS bytes.
    pub fn drain(&mut self) -> (bytes: Vec<u8>)
        requires
            mux_wf(old(self)@),
        ensures
            mux_wf(final(self)@),
            bytes@ == old(self)@.out,
            final(self)@ == (MuxerView { out: Seq::empty(), ..old(self)@ }),
    {
        let mut bytes: Vec<u8> = Vec::new();
        std::mem::swap(&mut bytes, &mut self.out);
        assert(self.out@ =~= Seq::<u8>::empty());
        bytes
    }

    fn maybe_emit_tables(&mut self, pts_ms: u32)
        requires
            mux_wf(old(self)@),
        ensures
            mux_wf(final(self)@),
            final(self)@ == emit_tables_spec(old(self)@, pts_ms),
    {
        let due = self.last_tables_pts == 0 || pts_ms.saturating_sub(self.last_tables_pts)
            >= TABLES_INTERVAL_MS;
        if !(due && self.has_video_config) {
            return;
        }
        self.write_pat();
        self.write_pmt();
        self.last_tables_pts = pts_ms;
    }

    fn write_pat(&mut self)
        requires
            mux_wf(old(self)@),
        ensures
            mux_wf(final(self)@),
            final(self)@ == write_psi_spec(old(self)@, PID_PAT, 0, pat_payload()),
    {
        let mut payload: Vec<u8> = Vec::with_capacity(20);
        payload.push(0x00);
        let section = build_pat_section();
        payload.extend_from_slice(section.as_slice());
        assert(payload@ =~= pat_payload());
        self.write_psi_packet(PID_PAT, 0, payload.as_slice());
    }

    fn write_pmt(&mut self)
        requires
            mux_wf(old(self)@),
        ensures
            mux_wf(final(self)@),
            final(self)@ == write_psi_spec(old(self)@, PID_PMT, 1, pmt_payload(old(self)@.has_audio_config)),
    {
        let mut payload: Vec<u8> = Vec::with_capacity(40);
        payload.push(0x00);
        let section = build_pmt_section(self.has_audio_config);
        payload.extend_from_slice(section.as_slice());
        assert(payload@ =~= pmt_payload(self.has_audio_config));
        self.write_psi_packet(PID_PMT, 1, payload.as_slice());
    }

    fn write_psi_packet(&mut self, pid: u16, cc_idx: usize, payload: &[u8])
        requires
            mux_wf(old(self)@),
            cc_idx < 4,
        ensures
            mux_wf(final(self)@),
            final(self)@ == write_psi_spec(old(self)@, pid, cc_idx as int, payload@),
    {
        let cc = self.cc[cc_idx];
        let mut pkt: Vec<u8> = Vec::with_capacity(188);
        pkt.push(SYNC_BYTE);
        pkt.push(0x40 | ((pid >> 8) as u8 & 0x1F));
        pkt.push(pid as u8);
        pkt.push(0x10 | (cc & 0x0F));
        let next: u8 = cc + 1;
        proof {
            lemma_cc_next(next);
        }
        self.cc[cc_idx] = next & 0x0F;
        let n = if payload.len() < 184 {
            payload.len()
        } else {
            184
        };
        pkt.extend_from_slice(vstd::slice::slice_subrange(payload, 0, n));
        while pkt.len() < 188
            invariant
                pkt@.len() <= 188,
                4 + n <= pkt@.len(),
                pkt@ == ts_header(true, pid, 0x10u8, cc) + payload@.subrange(0, n as int)
                    + Seq::new((pkt@.len() - 4 - n) as nat, |_i: int| 0xFFu8),
            decreases 188 - pkt@.len(),
        {
            pkt.push(0xFF);
            assert(pkt@ =~= ts_header(true, pid, 0x10u8, cc) + payload@.subrange(0, n as int)
                + Seq::new((pkt@.len() - 4 - n) as nat, |_i: int| 0xFFu8));
        }
        let ghost o = self.out@;
        assert(pkt@ =~= psi_packet(pid, cc, payload@));
        self.out.extend_from_slice(pkt.as_slice());
        proof {
            assert(pkt@.len() == 188);
            assert(pkt@[0] == 0x47);
            lemma_ts_aligned_packet(pkt@);
            lemma_ts_aligned_concat(o, pkt@);
            assert(self@.cc =~= old(self)@.cc.update(cc_idx as int, ((cc + 1) % 16) as u8));
            assert(self@.out == o + pkt@);
        }
    }

    /// Builds the next TS packet of a PES from byte `offset` on.
    fn build_pes_packet(pid: u16, cc: u8, first: bool, ra: bool, pes: &[u8], offset: usize) -> (r: (
        Vec<u8>,
        usize,
    ))
        requires
            offset < pes@.len(),
            cc < 16,
        ensures
            (r.0@, r.1 as nat) == pes_ts_packet(
                pid,
                cc,
                first,
                ra,
                pes@.subrange(offset as int, pes@.len() as int),
            ),
    {
        let ghost rest = pes@.subrange(offset as int, pes@.len() as int);
        let remaining = pes.len() - offset;
        let (af_present, af_len) = adaptation_field_len(remaining, first && ra);
        let af_flags: u8 = if first && ra {
            0x40
        } else {
            0
        };
        let ghost af = af_spec(rest.len(), first && ra);
        let pusi: u8 = if first {
            0x40
        } else {
            0
        };
        let afc: u8 = if af_present {
            0x30
        } else {
            0x10
        };
        let mut pkt: Vec<u8> = Vec::with_capacity(188);
        pkt.push(SYNC_BYTE);
        pkt.push(pusi | ((pid >> 8) as u8 & 0x1F));
        pkt.push(pid as u8);
        pkt.push(afc | (cc & 0x0F));
        let ghost head = pkt@;
        push_adaptation_field(&mut pkt, af_present, af_len, af_flags);
        let payload_start: usize = if af_present {
            5 + af_len
        } else {
            4
        };
        let payload_room = 188 - payload_start;
        let take = if remaining < payload_room {
            remaining
        } else {
            payload_room
        };
        pkt.extend_from_slice(vstd::slice::slice_subrange(pes, offset, offset + take));
        let ghost with_payload = pkt@;
        while pkt.len() < 188
            invariant
                with_payload.len() <= pkt@.len() <= 188,
                with_payload.len() == payload_start + take,
                pkt@ == with_payload + Seq::new(
                    (pkt@.len() - with_payload.len()) as nat,
                    |_i: int| 0u8,
                ),
            decreases 188 - pkt@.len(),
        {
            pkt.push(0);
            assert(pkt@ =~= with_payload + Seq::new(
                (pkt@.len() - with_payload.len()) as nat,
                |_i: int| 0u8,
            ));
        }
        proof {
            assert(rest.subrange(0, take as int) =~= pes@.subrange(offset as int, offset + take));
            let flags = af_flags;
            let room = (188 - payload_start) as nat;
            assert(head =~= ts_header(first, pid, afc, cc));
            assert(pkt@ =~= ts_header(first, pid, afc, cc) + af_bytes(af, flags) + rest.subrange(
                0,
                take as int,
            ) + Seq::new((room - take) as nat, |_i: int| 0u8));
            reveal(pes_ts_packet);
        }
        (pkt, take)
    }

    fn write_pes_into_ts(&mut self, pid: u16, cc_idx: usize, pes: &[u8], random_access: bool)
        requires
            mux_wf(old(self)@),
            cc_idx < 4,
        ensures
            mux_wf(final(self)@),
            final(self)@ == write_pes_spec(old(self)@, pid, cc_idx as int, pes@, random_access),
    {
        let ghost v0 = self@;
        let ghost target = pes_ts(pid, v0.cc[cc_idx as int], true, random_access, pes@);
        let mut offset: usize = 0;
        let mut first = true;
        assert(pes@.subrange(0, pes@.len() as int) =~= pes@);
        while offset < pes.len()
            invariant
                mux_wf(self@),
                cc_idx < 4,
                offset <= pes@.len(),
                self@.video_csd == v0.video_csd,
                self@.aac_config == v0.aac_config,
                self@.last_tables_pts == v0.last_tables_pts,
                self@.has_video_config == v0.has_video_config,
                self@.has_audio_config == v0.has_audio_config,
                forall|i: int| 0 <= i < 4 && i != cc_idx ==> self@.cc[i] == v0.cc[i],
                target == pes_ts(pid, v0.cc[cc_idx as int], true, random_access, pes@),
                self@.out + pes_ts(pid, self.cc[cc_idx as int], first, random_access, pes@.subrange(offset as int, pes@.len() as int)).0
                    == v0.out + target.0,
                pes_ts(pid, self.cc[cc_idx as int], first, random_access, pes@.subrange(offset as int, pes@.len() as int)).1
                    == target.1,
            decreases pes@.len() - offset,
        {
            let ghost rest = pes@.subrange(offset as int, pes@.len() as int);
            let cc = self.cc[cc_idx];
            let (pkt, take) = Self::build_pes_packet(pid, cc, first, random_access, pes, offset);
            let ghost o = self.out@;
            let ghost cc_before = self@.cc;
            let next: u8 = cc + 1;
            proof {
                lemma_pes_ts_packet_len(pid, cc, first, random_access, rest);
                lemma_pes_ts_step(pid, cc, first, random_access, rest);
                lemma_cc_next(next);
                lemma_ts_aligned_packet(pkt@);
                lemma_ts_aligned_concat(o, pkt@);
                assert(rest.subrange(take as int, rest.len() as int) =~= pes@.subrange(
                    offset + take,
                    pes@.len() as int,
                ));
            }
            self.out.extend_from_slice(pkt.as_slice());
            self.cc[cc_idx] = next & 0x0F;
            offset += take;
            first = false;
            proof {
                assert(self@.cc == cc_before.update(cc_idx as int, next & 0x0Fu8));
                assert(self@.out == o + pkt@);
                let tail = pes_ts(pid, self.cc[cc_idx as int], first, random_access, pes@.subrange(offset as int, pes@.len() as int)).0;
                assert(o + (pkt@ + tail) =~= self@.out + tail);
            }
        }
        proof {
            reveal(pes_ts);
            assert(pes@.subrange(offset as int, pes@.len() as int) =~= Seq::<u8>::empty());
            assert(self@.out =~= v0.out + target.0);
            assert(self@.cc =~= v0.cc.update(cc_idx as int, target.1));
        }
    }
}

impl Default for Muxer {
    fn default() -> (m: Self)
        ensures
            mux_wf(m@),
            m@ == (MuxerView {
                cc: seq![0u8, 0u8, 0u8, 0u8],
                out: Seq::empty(),
                video_csd: Seq::empty(),
                aac_config: None,
                last_tables_pts: 0,
                has_video_config: false,
                has_audio_config: false,
            }),
    {
        Self::new()
    }
}

// ----------------------------------------------------------------------------
// Laws of the muxer
// ----------------------------------------------------------------------------

/// Stream type and PID of elementary-stream entry `i` of a PMT section.
pub open spec fn pmt_entry(sec: Seq<u8>, i: int) -> (u8, nat) {
    (sec[12 + 5 * i], (sec[13 + 5 * i] & 0x1Fu8) as nat * 256 + sec[14 + 5 * i] as nat)
}

/// The PMT declares HEVC (type 0x24) on the PID that video packets are
/// written on and, with audio, AAC (type 0x0F) on the audio packets' PID.
pub proof fn law_pmt_declares_stream_pids(has_audio: bool)
    ensures
        pmt_section_spec(has_audio).len() == if has_audio { 26nat } else { 21nat },
        pmt_entry(pmt_section_spec(has_audio), 0) == (STREAM_TYPE_HEVC, PID_VIDEO as nat),
        has_audio ==> pmt_entry(pmt_section_spec(has_audio), 1) == (STREAM_TYPE_AAC, PID_AUDIO as nat),
{
    let sec = pmt_section_spec(has_audio);
    assert(sec[13] == 0xE1 && sec[14] == 0x00);
    assert(0xE1u8 & 0x1Fu8 == 1 && 0xE0u8 & 0x1Fu8 == 0) by (bit_vector);
    if has_audio {
        assert(sec[17] == 0x0F && sec[18] == 0xE1 && sec[19] == 0x01);
    }
}

/// Writing a PES on a PID appends whole packets on that PID whose payloads
/// are the PES, with continuity counters running on from the stored one;
/// afterwards the stored counter is the one after the last packet.
pub proof fn law_write_pes_counter(v: MuxerView, pid: u16, idx: int, pes: Seq<u8>, ra: bool)
    requires
        0 <= idx < v.cc.len(),
        v.cc[idx] < 16,
        pes.len() > 0,
    ensures
        ({
            let w = write_pes_spec(v, pid, idx, pes, ra);
            let added = w.out.subrange(v.out.len() as int, w.out.len() as int);
            &&& v.out.len() <= w.out.len()
            &&& w.out.subrange(0, v.out.len() as int) == v.out
            &&& added.len() % 188 == 0
            &&& ts_packet_headers(added, pid, v.cc[idx], true, ra)
            &&& ts_payloads(added) == pes
            &&& w.cc[idx] == (v.cc[idx] + added.len() / 188) % 16
            &&& forall|j: int| 0 <= j < v.cc.len() && j != idx ==> w.cc[j] == v.cc[j]
        }),
{
    let w = write_pes_spec(v, pid, idx, pes, ra);
    let bytes = pes_ts(pid, v.cc[idx], true, ra, pes).0;
    assert(w.out.subrange(v.out.len() as int, w.out.len() as int) =~= bytes);
    assert(w.out.subrange(0, v.out.len() as int) =~= v.out);
    law_pes_packet_count(pid, v.cc[idx], ra, pes);
    law_pes_packet_headers(pid, v.cc[idx], true, ra, pes);
    law_ts_payloads_restore_pes(pid, v.cc[idx], true, ra, pes);
}

proof fn lemma_emit_tables_keeps(v: MuxerView, pts_ms: u32)
    requires
        mux_wf(v),
    ensures
        ({
            let v1 = emit_tables_spec(v, pts_ms);
            &&& v1.cc.len() == 4
            &&& v1.cc[2] == v.cc[2]
            &&& v1.cc[3] == v.cc[3]
            &&& v1.video_csd == v.video_csd
            &&& v1.aac_config == v.aac_config
        }),
{
}

/// A video frame after a video config: tables when due, then whole packets
/// on the video PID, their counters running on from the stored one, the
/// first with payload_unit_start_indicator and (for a keyframe only)
/// random_access_indicator; their payloads are one PES with the parameter
/// sets (keyframes only), an access unit delimiter and the frame.
pub proof fn law_video_frame_packets(v: MuxerView, annex_b: Seq<u8>, pts_ms: u32, key: bool)
    requires
        mux_wf(v),
        v.has_video_config,
    ensures
        ({
            let w = video_frame_spec(v, annex_b, pts_ms, key);
            let t = emit_tables_spec(v, pts_ms).out;
            let added = w.out.subrange(t.len() as int, w.out.len() as int);
            &&& t.len() <= w.out.len()
            &&& w.out.subrange(0, t.len() as int) == t
            &&& added.len() % 188 == 0
            &&& ts_packet_headers(added, PID_VIDEO, v.cc[2], true, key)
            &&& ts_payloads(added) == pes_spec(
                STREAM_ID_VIDEO,
                pts_ms,
                (if key { v.video_csd } else { Seq::empty() }) + aud_nalu() + annex_b,
                true,
            )
            &&& w.cc[2] == (v.cc[2] + added.len() / 188) % 16
        }),
{
    lemma_emit_tables_keeps(v, pts_ms);
    let v1 = emit_tables_spec(v, pts_ms);
    let nalus = (if key { v1.video_csd } else { Seq::empty() }) + aud_nalu() + annex_b;
    law_write_pes_counter(v1, PID_VIDEO, 2, pes_spec(STREAM_ID_VIDEO, pts_ms, nalus, true), key);
}

/// An audio frame after an audio config: tables when due, then whole
/// packets on the audio PID, their counters running on from the stored one,
/// the first with payload_unit_start_indicator and random_access_indicator;
/// their payloads are one PES of the ADTS-wrapped frame.
pub proof fn law_audio_frame_packets(v: MuxerView, raw: Seq<u8>, pts_ms: u32)
    requires
        mux_wf(v),
        v.aac_config is Some,
    ensures
        ({
            let w = audio_frame_spec(v, raw, pts_ms);
            let t = emit_tables_spec(v, pts_ms).out;
            let added = w.out.subrange(t.len() as int, w.out.len() as int);
            &&& t.len() <= w.out.len()
            &&& w.out.subrange(0, t.len() as int) == t
            &&& added.len() % 188 == 0
            &&& ts_packet_headers(added, PID_AUDIO, v.cc[3], true, true)
            &&& ts_payloads(added) == pes_spec(
                STREAM_ID_AUDIO,
                pts_ms,
                adts_header(raw.len(), v.aac_config->0) + raw,
                false,
            )
            &&& w.cc[3] == (v.cc[3] + added.len() / 188) % 16
        }),
{
    lemma_emit_tables_keeps(v, pts_ms);
    let v1 = emit_tables_spec(v, pts_ms);
    let cfg = v.aac_config->0;
    law_write_pes_counter(
        v1,
        PID_AUDIO,
        3,
        pes_spec(STREAM_ID_AUDIO, pts_ms, adts_header(raw.len(), cfg) + raw, false),
        true,
    );
}

/// PAT and PMT never go out before a video config, nor within
/// TABLES_INTERVAL_MS of the last time they did (once they have gone out at
/// a time other than 0); when due they add two packets, PAT then PMT.
pub proof fn law_tables_interval(v: MuxerView, pts_ms: u32)
    requires
        mux_wf(v),
    ensures
        !v.has_video_config ==> emit_tables_spec(v, pts_ms) == v,
        (v.last_tables_pts != 0 && pts_ms < v.last_tables_pts + TABLES_INTERVAL_MS)
            ==> emit_tables_spec(v, pts_ms) == v,
        tables_due(v, pts_ms) ==> ({
            let w = emit_tables_spec(v, pts_ms);
            &&& w.out.len() == v.out.len() + 376
            &&& w.out.subrange(0, v.out.len() as int) == v.out
            &&& w.out[v.out.len() as int] == 0x47
            &&& w.out[v.out.len() + 188int] == 0x47
            &&& w.out.subrange(v.out.len() + 5int, v.out.len() + 21int) == pat_section_spec()
            &&& w.last_tables_pts == pts_ms
        }),
{
    if tables_due(v, pts_ms) {
        let v1 = write_psi_spec(v, PID_PAT, 0, pat_payload());
        let v2 = write_psi_spec(v1, PID_PMT, 1, pmt_payload(v1.has_audio_config));
        let w = emit_tables_spec(v, pts_ms);
        assert(pat_section_spec().len() == 16);
        assert(pmt_section_spec(v.has_audio_config).len() <= 26);
        let pp = psi_packet(PID_PAT, v.cc[0], pat_payload());
        assert(pp.len() == 188);
        assert(pp.subrange(5, 21) =~= pat_section_spec());
        assert(w.out.subrange(0, v.out.len() as int) =~= v.out);
        assert(w.out.subrange(v.out.len() + 5int, v.out.len() + 21int) =~= pp.subrange(5, 21));
    }
}

/// The ADTS parameters the muxer keeps for an audio config: the index of
/// the rate in the sample-rate table (44.1 kHz when the rate is not there),
/// the channel count limited to 1..=7, and the object type less one.
pub proof fn law_adts_config(sample_rate: u32, channels: u8, object_type: u8)
    ensures
        ({
            let c = adts_config_spec(sample_rate, channels, object_type);
            &&& c.sample_rate_index < 13
            &&& (exists|i: int| 0 <= i < 13 && AAC_SAMPLE_RATES@[i] == sample_rate)
                ==> AAC_SAMPLE_RATES@[c.sample_rate_index as int] == sample_rate
            &&& (forall|i: int| 0 <= i < 13 ==> AAC_SAMPLE_RATES@[i] != sample_rate)
                ==> AAC_SAMPLE_RATES@[c.sample_rate_index as int] == 44100
            &&& 1 <= c.channels <= 7
            &&& (1 <= channels <= 7 ==> c.channels == channels)
            &&& (object_type >= 1 ==> c.profile_minus1 + 1 == object_type)
        }),
{
}

} // verus!
