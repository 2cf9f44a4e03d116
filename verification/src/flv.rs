//! FLV demuxer for HEVC (codec id 12 in the video tag header) and AAC.
use vstd::prelude::*;
use vstd::string::StringExecFns;
use std::collections::VecDeque;
use crate::aac::{asc_spec, parse_audio_specific_config};
use crate::hevc::{sps_dimensions, sps_spec};

verus! {

/// Annex-B start code.
pub const START_CODE: [u8; 4] = [0, 0, 0, 1];

pub open spec fn start_code() -> Seq<u8> {
    seq![0u8, 0u8, 0u8, 1u8]
}

/// Big-endian 16-bit value at `p`.
pub open spec fn be16(d: Seq<u8>, p: int) -> nat {
    d[p] as nat * 256 + d[p + 1] as nat
}

/// Big-endian 32-bit value at `p`.
pub open spec fn be32(d: Seq<u8>, p: int) -> nat {
    d[p] as nat * 16777216 + d[p + 1] as nat * 65536 + d[p + 2] as nat * 256 + d[p + 3] as nat
}

/// Appends `src` to `out`.
fn extend_bytes(out: &mut Vec<u8>, src: &[u8])
    ensures
        final(out)@ == old(out)@ + src@,
{
    out.extend_from_slice(src);
    assert(final(out)@ =~= old(out)@ + src@);
}

/// Appends the Annex-B start code to `out`.
fn push_start_code(out: &mut Vec<u8>)
    ensures
        final(out)@ == old(out)@ + start_code(),
{
    extend_bytes(out, START_CODE.as_slice());
    assert(START_CODE@ =~= start_code());
}

// ----------------------------------------------------------------------------
// Length-prefixed NAL units to Annex-B
// ----------------------------------------------------------------------------

/// Annex-B form of the length-prefixed NAL units of `d` from `p` on: each
/// 4-byte big-endian length and its NAL unit become a start code and the NAL
/// unit. Conversion stops at the first zero length or truncated unit.
pub open spec fn avcc_from(d: Seq<u8>, p: int) -> Seq<u8>
    decreases d.len() - p,
{
    if p < 0 || p + 4 > d.len() {
        Seq::empty()
    } else {
        let n = be32(d, p);
        if n == 0 || p + 4 + n > d.len() {
            Seq::empty()
        } else {
            start_code() + d.subrange(p + 4, p + 4 + n) + avcc_from(d, p + 4 + n)
        }
    }
}

pub open spec fn avcc_to_annex_b_spec(d: Seq<u8>) -> Seq<u8> {
    avcc_from(d, 0)
}

/// Reads a big-endian 32-bit length.
fn read_be32(d: &[u8], p: usize) -> (r: usize)
    requires
        p + 4 <= d@.len(),
    ensures
        r == be32(d@, p as int),
{
    (d[p] as usize) * 16777216 + (d[p + 1] as usize) * 65536 + (d[p + 2] as usize) * 256 + (d[p
        + 3] as usize)
}

/// Reads a big-endian 16-bit length.
fn read_be16(d: &[u8], p: usize) -> (r: usize)
    requires
        p + 2 <= d@.len(),
    ensures
        r == be16(d@, p as int),
{
    (d[p] as usize) * 256 + (d[p + 1] as usize)
}

/// Converts length-prefixed (4-byte) NAL units to Annex-B.
pub fn avcc_to_annex_b(data: &[u8]) -> (out: Vec<u8>)
    ensures
        out@ == avcc_to_annex_b_spec(data@),
{
    let mut out: Vec<u8> = Vec::with_capacity(16);
    let mut p: usize = 0;
    while p <= data.len() && data.len() - p >= 4
        invariant
            p <= data@.len(),
            out@ + avcc_from(data@, p as int) == avcc_from(data@, 0),
        decreases data@.len() - p,
    {
        let len = read_be32(data, p);
        let ghost p0 = p;
        p += 4;
        if len == 0 || len > data.len() - p {
            return out;
        }
        let ghost o = out@;
        push_start_code(&mut out);
        extend_bytes(&mut out, vstd::slice::slice_subrange(data, p, p + len));
        p += len;
        assert(o + (start_code() + data@.subrange(p0 + 4, p as int) + avcc_from(data@, p as int))
            =~= out@ + avcc_from(data@, p as int));
    }
    out
}

/// The 4-byte big-endian encoding of a length below 2^32.
pub open spec fn be32_encode(n: nat) -> Seq<u8> {
    seq![
        (n / 256 / 256 / 256 % 256) as u8,
        (n / 256 / 256 % 256) as u8,
        (n / 256 % 256) as u8,
        (n % 256) as u8,
    ]
}

proof fn lemma_avcc_shift(a: Seq<u8>, b: Seq<u8>, p: int)
    requires
        0 <= p,
    ensures
        avcc_from(a + b, a.len() + p) == avcc_from(b, p),
    decreases b.len() - p,
{
    let d = a + b;
    let q = a.len() + p;
    if p + 4 <= b.len() {
        assert(d[q] == b[p] && d[q + 1] == b[p + 1] && d[q + 2] == b[p + 2] && d[q + 3] == b[p
            + 3]);
        let n = be32(b, p);
        assert(be32(d, q) == n);
        if n != 0 && p + 4 + n <= b.len() {
            assert(d.subrange(q + 4, q + 4 + n) =~= b.subrange(p + 4, p + 4 + n));
            lemma_avcc_shift(a, b, p + 4 + n);
        }
    }
}

/// Converting one length-prefixed NAL unit: a 4-byte big-endian length
/// (the full 32-bit value) followed by that many bytes becomes a start code
/// and the unit, and conversion goes on with what follows.
pub proof fn law_avcc_unit(u: Seq<u8>, rest: Seq<u8>)
    requires
        0 < u.len() < 0x1_0000_0000,
    ensures
        avcc_to_annex_b_spec(be32_encode(u.len()) + u + rest) == start_code() + u
            + avcc_to_annex_b_spec(rest),
{
    let n = u.len();
    let e = be32_encode(n);
    let d = e + u + rest;
    assert(n == 256 * (n / 256) + n % 256);
    assert(n / 256 == 256 * (n / 256 / 256) + n / 256 % 256);
    assert(n / 256 / 256 == 256 * (n / 256 / 256 / 256) + n / 256 / 256 % 256);
    assert(n / 256 / 256 / 256 < 256);
    assert(d[0] == e[0] && d[1] == e[1] && d[2] == e[2] && d[3] == e[3]);
    assert(be32(d, 0) == n);
    assert(d.subrange(4, 4 + n as int) =~= u);
    assert(d =~= (e + u) + rest);
    lemma_avcc_shift(e + u, rest, 0);
    assert(start_code() + u + avcc_from(rest, 0) =~= start_code() + d.subrange(4, 4 + n as int)
        + avcc_from(d, 4 + n as int));
}

// ----------------------------------------------------------------------------
// HEVC decoder configuration record
// ----------------------------------------------------------------------------

/// The first `n` NAL units of an hvcC array that starts at `p`, appended in
/// Annex-B form; `s0` is the last SPS seen before, updated when the array's
/// NAL type is 33 (SPS). Yields the Annex-B bytes, the last SPS and the
/// position after them; `None` on a truncated or empty unit.
pub open spec fn hvcc_nalus(d: Seq<u8>, p: int, n: nat, t: u8, s0: Option<Seq<u8>>) -> Option<
    (Seq<u8>, Option<Seq<u8>>, int),
>
    decreases n,
{
    if n == 0 {
        Some((Seq::empty(), s0, p))
    } else {
        match hvcc_nalus(d, p, (n - 1) as nat, t, s0) {
            None => None,
            Some((o, s, e)) => {
                if e + 2 > d.len() {
                    None
                } else {
                    let l = be16(d, e);
                    if e + 2 + l > d.len() || l == 0 {
                        None
                    } else {
                        let nalu = d.subrange(e + 2, e + 2 + l);
                        Some(
                            (
                                o + start_code() + nalu,
                                if t == 33 { Some(nalu) } else { s },
                                e + 2 + l,
                            ),
                        )
                    }
                }
            },
        }
    }
}

/// The first `k` NAL-unit arrays of an hvcC record (they start at byte 23):
/// each is a NAL type byte (low 6 bits), a 16-bit count, and that many
/// 16-bit-length-prefixed NAL units.
pub open spec fn hvcc_arrays(d: Seq<u8>, k: nat) -> Option<(Seq<u8>, Option<Seq<u8>>, int)>
    decreases k,
{
    if k == 0 {
        Some((Seq::empty(), None, 23))
    } else {
        match hvcc_arrays(d, (k - 1) as nat) {
            None => None,
            Some((o, s, e)) => {
                if e + 3 > d.len() {
                    None
                } else {
                    match hvcc_nalus(d, e + 3, be16(d, e + 1), d[e] & 0x3Fu8, s) {
                        None => None,
                        Some((o2, s2, e2)) => Some((o + o2, s2, e2)),
                    }
                }
            },
        }
    }
}

/// The parameter sets of an HEVCDecoderConfigurationRecord in Annex-B form,
/// with the picture size of its last SPS ((0, 0) when there is none or it
/// does not parse). `None` for a record shorter than 23 bytes, of a version
/// other than 1, or with a truncated array.
pub open spec fn hvcc_spec(d: Seq<u8>) -> Option<(Seq<u8>, u32, u32)> {
    if d.len() < 23 || d[0] != 1 {
        None
    } else {
        match hvcc_arrays(d, d[22] as nat) {
            None => None,
            Some((o, s, _)) => {
                let wh = match s {
                    Some(n) => match sps_spec(n) {
                        Some(wh) => wh,
                        None => (0u32, 0u32),
                    },
                    None => (0u32, 0u32),
                };
                Some((o, wh.0, wh.1))
            },
        }
    }
}

pub proof fn lemma_hvcc_nalus_none(d: Seq<u8>, p: int, n: nat, m: nat, t: u8, s0: Option<Seq<u8>>)
    requires
        n <= m,
        hvcc_nalus(d, p, n, t, s0) is None,
    ensures
        hvcc_nalus(d, p, m, t, s0) is None,
    decreases m,
{
    if n < m {
        lemma_hvcc_nalus_none(d, p, n, (m - 1) as nat, t, s0);
    }
}

pub proof fn lemma_hvcc_arrays_none(d: Seq<u8>, k: nat, j: nat)
    requires
        k <= j,
        hvcc_arrays(d, k) is None,
    ensures
        hvcc_arrays(d, j) is None,
    decreases j,
{
    if k < j {
        lemma_hvcc_arrays_none(d, k, (j - 1) as nat);
    }
}

/// An hvcC array holding one NAL unit: the array byte (completeness and
/// reserved bits `hi`, NAL type `t`), a count of 1, the unit's 16-bit
/// big-endian length, and the unit.
pub open spec fn hvcc_single_array(hi: u8, t: u8, u: Seq<u8>) -> Seq<u8> {
    seq![(hi * 64 + t) as u8, 0u8, 1u8, (u.len() / 256) as u8, (u.len() % 256) as u8] + u
}

proof fn lemma_hvcc_one_array(d: Seq<u8>, e: int, hi: u8, t: u8, u: Seq<u8>, s0: Option<Seq<u8>>)
    requires
        hi < 4,
        t < 64,
        0 < u.len() < 65536,
        0 <= e,
        e + 5 + u.len() <= d.len(),
        d.subrange(e, e + 5 + u.len()) == hvcc_single_array(hi, t, u),
    ensures
        d[e] & 0x3Fu8 == t,
        be16(d, e + 1) == 1,
        hvcc_nalus(d, e + 3, 1, t, s0) == Some(
            (start_code() + u, if t == 33 { Some(u) } else { s0 }, e + 5 + u.len()),
        ),
{
    let a = hvcc_single_array(hi, t, u);
    assert(d[e] == a[0] && d[e + 1] == a[1] && d[e + 2] == a[2] && d[e + 3] == a[3] && d[e + 4]
        == a[4]);
    assert(((hi * 64 + t) as u8) & 0x3Fu8 == t) by (bit_vector)
        requires
            hi < 4,
            t < 64,
    ;
    assert(be16(d, e + 3) == u.len());
    assert(a.subrange(5, 5 + u.len() as int) =~= u);
    assert(d.subrange(e + 5, e + 5 + u.len()) =~= d.subrange(e, e + 5 + u.len()).subrange(
        5,
        5 + u.len() as int,
    ));
    reveal_with_fuel(hvcc_nalus, 2);
    assert(Seq::<u8>::empty() + start_code() + u =~= start_code() + u);
}

/// A configuration record with the usual three arrays, one VPS (type 32),
/// one SPS (type 33) and one PPS (type 34), gives the three units in
/// Annex-B, in order, and the picture size of the SPS ((0, 0) when it does
/// not parse).
#[verifier::rlimit(40)]
pub proof fn law_hvcc_vps_sps_pps(
    h: Seq<u8>,
    hi: u8,
    vps: Seq<u8>,
    sps: Seq<u8>,
    pps: Seq<u8>,
)
    requires
        h.len() == 22,
        h[0] == 1,
        hi < 4,
        0 < vps.len() < 65536,
        0 < sps.len() < 65536,
        0 < pps.len() < 65536,
    ensures
        hvcc_spec(
            h + seq![3u8] + hvcc_single_array(hi, 32, vps) + hvcc_single_array(hi, 33, sps)
                + hvcc_single_array(hi, 34, pps),
        ) == Some(
            (
                start_code() + vps + start_code() + sps + start_code() + pps,
                match sps_spec(sps) {
                    Some(wh) => wh.0,
                    None => 0u32,
                },
                match sps_spec(sps) {
                    Some(wh) => wh.1,
                    None => 0u32,
                },
            ),
        ),
{
    let a1 = hvcc_single_array(hi, 32, vps);
    let a2 = hvcc_single_array(hi, 33, sps);
    let a3 = hvcc_single_array(hi, 34, pps);
    let d = h + seq![3u8] + a1 + a2 + a3;
    let e1 = 23int;
    let e2 = e1 + a1.len();
    let e3 = e2 + a2.len();
    assert(d[0] == 1 && d[22] == 3);
    assert(d.subrange(e1, e2) =~= a1);
    assert(d.subrange(e2, e3) =~= a2);
    assert(d.subrange(e3, d.len() as int) =~= a3);
    let o1 = start_code() + vps;
    let o2 = start_code() + sps;
    let o3 = start_code() + pps;
    assert(hvcc_arrays(d, 0) == Some((Seq::<u8>::empty(), None::<Seq<u8>>, 23int)));
    lemma_hvcc_one_array(d, e1, hi, 32, vps, None);
    assert(hvcc_arrays(d, 1) == Some((Seq::<u8>::empty() + o1, None::<Seq<u8>>, e2)));
    assert(Seq::<u8>::empty() + o1 =~= o1);
    lemma_hvcc_one_array(d, e2, hi, 33, sps, None);
    assert(hvcc_arrays(d, 2) == Some((o1 + o2, Some(sps), e3)));
    lemma_hvcc_one_array(d, e3, hi, 34, pps, Some(sps));
    assert(hvcc_arrays(d, 3) == Some((o1 + o2 + o3, Some(sps), d.len() as int)));
    assert(start_code() + vps + (start_code() + sps) + (start_code() + pps) =~= start_code() + vps
        + start_code() + sps + start_code() + pps);
}

/// Parses an HEVCDecoderConfigurationRecord.
pub fn parse_hvcc(data: &[u8]) -> (r: Option<(Vec<u8>, u32, u32)>)
    ensures
        match r {
            None => hvcc_spec(data@) is None,
            Some((a, w, h)) => hvcc_spec(data@) == Some((a@, w, h)),
        },
{
    if data.len() < 23 || data[0] != 1 {
        return None;
    }
    let mut p: usize = 22;
    if p >= data.len() {
        return None;
    }
    let num_arrays = data[p] as usize;
    p += 1;

    let mut annex_b: Vec<u8> = Vec::with_capacity(256);
    let mut sps_nalu: Option<&[u8]> = None;
    let ghost d = data@;

    let mut a: usize = 0;
    while a < num_arrays
        invariant
            d == data@,
            d.len() >= 23,
            num_arrays == d[22],
            a <= num_arrays,
            hvcc_arrays(d, a as nat) == Some(
                (annex_b@, (match sps_nalu {
                    Some(x) => Some(x@),
                    None => None,
                }), p as int),
            ),
            p <= d.len(),
            sps_nalu matches Some(x) ==> x@.len() < 65536,
        decreases num_arrays - a,
    {
        if data.len() - p < 3 {
            proof {
                lemma_hvcc_arrays_none(d, (a + 1) as nat, num_arrays as nat);
            }
            return None;
        }
        let nal_type = data[p] & 0x3F;
        p += 1;
        let num_nalus = read_be16(data, p);
        p += 2;
        let ghost o0 = annex_b@;
        let ghost s0: Option<Seq<u8>> = match sps_nalu {
            Some(x) => Some(x@),
            None => None,
        };
        let ghost start = p as int;
        let mut i: usize = 0;
        while i < num_nalus
            invariant
                d == data@,
                d.len() >= 23,
                num_arrays == d[22],
                a < num_arrays,
                start >= 3,
                hvcc_arrays(d, a as nat) == Some((o0, s0, start - 3)),
                start - 3 + 3 <= d.len(),
                nal_type == d[start - 3] & 0x3Fu8,
                num_nalus == be16(d, start - 2),
                i <= num_nalus,
                p <= d.len(),
                hvcc_nalus(d, start, i as nat, nal_type, s0) matches Some((o, s, e)) && annex_b@
                    == o0 + o && s == (match sps_nalu {
                    Some(x) => Some(x@),
                    None => None,
                }) && e == p,
                sps_nalu matches Some(x) ==> x@.len() < 65536,
            decreases num_nalus - i,
        {
            if data.len() - p < 2 {
                proof {
                    lemma_hvcc_nalus_none(d, start, (i + 1) as nat, num_nalus as nat, nal_type, s0);
                    lemma_hvcc_arrays_none(d, (a + 1) as nat, num_arrays as nat);
                }
                return None;
            }
            let len = read_be16(data, p);
            p += 2;
            if len > data.len() - p || len == 0 {
                proof {
                    lemma_hvcc_nalus_none(d, start, (i + 1) as nat, num_nalus as nat, nal_type, s0);
                    lemma_hvcc_arrays_none(d, (a + 1) as nat, num_arrays as nat);
                }
                return None;
            }
            let nalu = vstd::slice::slice_subrange(data, p, p + len);
            p += len;
            let ghost ob = annex_b@;
            push_start_code(&mut annex_b);
            extend_bytes(&mut annex_b, nalu);
            if nal_type == 33 {
                sps_nalu = Some(nalu);
            }
            i += 1;
            proof {
                let (o, s, e) = hvcc_nalus(d, start, (i - 1) as nat, nal_type, s0)->0;
                assert(ob + start_code() + nalu@ =~= o0 + (o + start_code() + nalu@));
            }
        }
        a += 1;
        proof {
            let (o, s, e) = hvcc_nalus(d, start, num_nalus as nat, nal_type, s0)->0;
            let (oa, sa, ea) = hvcc_arrays(d, (a - 1) as nat)->0;
            assert(oa + o =~= annex_b@);
        }
    }

    let (w, h) = match sps_nalu {
        Some(n) => match sps_dimensions(n) {
            Some(wh) => wh,
            None => (0, 0),
        },
        None => (0, 0),
    };
    Some((annex_b, w, h))
}

// ----------------------------------------------------------------------------
// Events
// ----------------------------------------------------------------------------

/// What the demuxer reports.
#[derive(Debug)]
pub enum Event {
    /// HEVC parameter sets (VPS+SPS+PPS) concatenated in Annex-B form,
    /// plus decoded resolution from SPS. Emit once before video frames.
    VideoConfig { annex_b: Vec<u8>, width: u32, height: u32 },
    /// One frame's worth of HEVC NALUs in Annex-B form.
    VideoFrame { annex_b: Vec<u8>, pts_ms: u32, is_keyframe: bool },
    /// AudioSpecificConfig (2 bytes typical). Emit once before audio frames.
    AudioConfig { config: Vec<u8>, sample_rate: u32, channels: u8, object_type: u8 },
    /// One AAC raw frame (no ADTS header). PTS in milliseconds.
    AudioFrame { data: Vec<u8>, pts_ms: u32 },
    /// Demuxer hit unrecoverable error. After this, [`Demuxer`] is poisoned.
    Error(String),
}

/// An [`Event`] with its byte strings and message as sequences.
pub enum EventView {
    VideoConfig { annex_b: Seq<u8>, width: u32, height: u32 },
    VideoFrame { annex_b: Seq<u8>, pts_ms: u32, is_keyframe: bool },
    AudioConfig { config: Seq<u8>, sample_rate: u32, channels: u8, object_type: u8 },
    AudioFrame { data: Seq<u8>, pts_ms: u32 },
    Error(Seq<char>),
}

impl View for Event {
    type V = EventView;

    open spec fn view(&self) -> EventView {
        match self {
            Event::VideoConfig { annex_b, width, height } => EventView::VideoConfig {
                annex_b: annex_b@,
                width: *width,
                height: *height,
            },
            Event::VideoFrame { annex_b, pts_ms, is_keyframe } => EventView::VideoFrame {
                annex_b: annex_b@,
                pts_ms: *pts_ms,
                is_keyframe: *is_keyframe,
            },
            Event::AudioConfig { config, sample_rate, channels, object_type } =>
                EventView::AudioConfig {
                config: config@,
                sample_rate: *sample_rate,
                channels: *channels,
                object_type: *object_type,
            },
            Event::AudioFrame { data, pts_ms } => EventView::AudioFrame {
                data: data@,
                pts_ms: *pts_ms,
            },
            Event::Error(m) => EventView::Error(m@),
        }
    }
}

/// The views of a queue of events.
pub open spec fn views(q: Seq<Event>) -> Seq<EventView> {
    q.map_values(|e: Event| e@)
}

pub open spec fn not_flv_message() -> Seq<char> {
    "not an FLV stream"@
}

pub open spec fn avc_message() -> Seq<char> {
    "stream is H.264/AVC; this build is HEVC-only"@
}

/// Events of a video tag body with timestamp `ts`, and whether it poisons
/// the stream. Codec id 12 (HEVC) is handled: packet type 0 carries an hvcC
/// record, 1 length-prefixed NAL units; codec id 7 (AVC) is an error; other
/// codecs, and bodies under five bytes, are ignored.
pub open spec fn video_events(body: Seq<u8>, ts: u32) -> (Seq<EventView>, bool) {
    if body.len() < 5 {
        (Seq::empty(), false)
    } else {
        let codec_id = body[0] & 0x0Fu8;
        if codec_id != 12 {
            if codec_id == 7 {
                (seq![EventView::Error(avc_message())], true)
            } else {
                (Seq::empty(), false)
            }
        } else {
            let is_keyframe = ((body[0] >> 4u8) & 0x0Fu8) == 1;
            let payload = body.subrange(5, body.len() as int);
            if body[1] == 0 {
                match hvcc_spec(payload) {
                    Some((a, w, h)) => (
                        seq![EventView::VideoConfig { annex_b: a, width: w, height: h }],
                        false,
                    ),
                    None => (Seq::empty(), false),
                }
            } else if body[1] == 1 {
                let a = avcc_to_annex_b_spec(payload);
                if a.len() == 0 {
                    (Seq::empty(), false)
                } else {
                    (seq![EventView::VideoFrame { annex_b: a, pts_ms: ts, is_keyframe }], false)
                }
            } else {
                (Seq::empty(), false)
            }
        }
    }
}

/// Events of an audio tag body with timestamp `ts`: AAC (sound format 10)
/// with packet type 0 (AudioSpecificConfig, reported when it parses) or 1
/// (raw frame) and a non-empty payload; everything else is ignored.
pub open spec fn audio_events(body: Seq<u8>, ts: u32) -> Seq<EventView> {
    if body.len() < 2 || ((body[0] >> 4u8) & 0x0Fu8) != 10 || body.len() == 2 {
        Seq::empty()
    } else {
        let payload = body.subrange(2, body.len() as int);
        if body[1] == 0 {
            match asc_spec(payload) {
                Some(c) => seq![
                    EventView::AudioConfig {
                        config: payload,
                        sample_rate: c.sample_rate,
                        channels: c.channels,
                        object_type: c.object_type,
                    },
                ],
                None => Seq::empty(),
            }
        } else if body[1] == 1 {
            seq![EventView::AudioFrame { data: payload, pts_ms: ts }]
        } else {
            Seq::empty()
        }
    }
}

/// The views of an event that may be absent.
pub open spec fn opt_views(ev: Option<Event>) -> Seq<EventView> {
    match ev {
        Some(e) => seq![e@],
        None => Seq::empty(),
    }
}

/// Queues `ev` when there is one.
fn push_event(events: &mut VecDeque<Event>, ev: Option<Event>)
    ensures
        views(final(events)@) == views(old(events)@) + opt_views(ev),
{
    match ev {
        Some(e) => {
            events.push_back(e);
            assert(views(final(events)@) =~= views(old(events)@) + seq![e@]);
        },
        None => {
            assert(views(old(events)@) + Seq::empty() =~= views(old(events)@));
        },
    }
}

/// Queues the events of a video tag body.
fn handle_video(events: &mut VecDeque<Event>, poisoned: &mut bool, body: &[u8], ts: u32)
    ensures
        views(final(events)@) == views(old(events)@) + video_events(body@, ts).0,
        *final(poisoned) == (*old(poisoned) || video_events(body@, ts).1),
{
    let ev: Option<Event> = if body.len() < 5 {
        None
    } else {
        let codec_id = body[0] & 0x0F;
        if codec_id != 12 {
            if codec_id == 7 {
                *poisoned = true;
                Some(Event::Error(String::from_str("stream is H.264/AVC; this build is HEVC-only")))
            } else {
                None
            }
        } else {
            let is_keyframe = ((body[0] >> 4) & 0x0F) == 1;
            let packet_type = body[1];
            let payload = vstd::slice::slice_subrange(body, 5, body.len());
            if packet_type == 0 {
                match parse_hvcc(payload) {
                    Some((annex_b, width, height)) => Some(
                        Event::VideoConfig { annex_b, width, height },
                    ),
                    None => None,
                }
            } else if packet_type == 1 {
                let annex_b = avcc_to_annex_b(payload);
                if annex_b.len() != 0 {
                    Some(Event::VideoFrame { annex_b, pts_ms: ts, is_keyframe })
                } else {
                    None
                }
            } else {
                None
            }
        }
    };
    assert(opt_views(ev) =~= video_events(body@, ts).0);
    push_event(events, ev);
}

/// Queues the events of an audio tag body.
fn handle_audio(events: &mut VecDeque<Event>, body: &[u8], ts: u32)
    ensures
        views(final(events)@) == views(old(events)@) + audio_events(body@, ts),
{
    let ev: Option<Event> = if body.len() < 2 || (body[0] >> 4) & 0x0F != 10 || body.len() == 2 {
        None
    } else {
        let aac_packet_type = body[1];
        let payload = vstd::slice::slice_subrange(body, 2, body.len());
        if aac_packet_type == 0 {
            match parse_audio_specific_config(payload) {
                Some(cfg) => Some(
                    Event::AudioConfig {
                        config: vstd::slice::slice_to_vec(payload),
                        sample_rate: cfg.sample_rate,
                        channels: cfg.channels,
                        object_type: cfg.object_type,
                    },
                ),
                None => None,
            }
        } else if aac_packet_type == 1 {
            Some(Event::AudioFrame { data: vstd::slice::slice_to_vec(payload), pts_ms: ts })
        } else {
            None
        }
    };
    assert(opt_views(ev) =~= audio_events(body@, ts));
    push_event(events, ev);
}

// ----------------------------------------------------------------------------
// The FLV stream
// ----------------------------------------------------------------------------

/// Body size of the tag at `c` (24-bit big-endian).
pub open spec fn tag_size(s: Seq<u8>, c: int) -> nat {
    s[c + 1] as nat * 65536 + s[c + 2] as nat * 256 + s[c + 3] as nat
}

/// Timestamp of the tag at `c`: 24 bits big-endian, then the extension byte
/// as the high 8 bits.
pub open spec fn tag_ts(s: Seq<u8>, c: int) -> u32 {
    (s[c + 7] as nat * 16777216 + s[c + 4] as nat * 65536 + s[c + 5] as nat * 256
        + s[c + 6] as nat) as u32
}

/// Events of one tag by its type (9 video, 8 audio, others ignored), and
/// whether it poisons the stream.
pub open spec fn tag_events(t: u8, body: Seq<u8>, ts: u32) -> (Seq<EventView>, bool) {
    if t == 9 {
        video_events(body, ts)
    } else if t == 8 {
        (audio_events(body, ts), false)
    } else {
        (Seq::empty(), false)
    }
}

/// Events of the complete tags of `s` from `c` on, up to and including the
/// first tag that poisons the stream, and whether one did. A tag is an
/// 11-byte header (type, 24-bit size, timestamp, stream id), its body, and
/// a 4-byte previous-tag size; scanning stops at the first incomplete tag.
pub open spec fn run_tags(s: Seq<u8>, c: int) -> (Seq<EventView>, bool)
    decreases s.len() - c,
{
    if c < 0 || c + 11 > s.len() {
        (Seq::empty(), false)
    } else {
        let size = tag_size(s, c);
        if c + 15 + size > s.len() {
            (Seq::empty(), false)
        } else {
            let r = tag_events(s[c] & 0x1Fu8, s.subrange(c + 11, c + 11 + size), tag_ts(s, c));
            if r.1 {
                r
            } else {
                let rest = run_tags(s, c + 15 + size);
                (r.0 + rest.0, rest.1)
            }
        }
    }
}

/// Where the scan of `run_tags(s, c)` ends.
pub open spec fn run_stop(s: Seq<u8>, c: int) -> int
    decreases s.len() - c,
{
    if c < 0 || c + 11 > s.len() {
        c
    } else {
        let size = tag_size(s, c);
        if c + 15 + size > s.len() {
            c
        } else {
            let r = tag_events(s[c] & 0x1Fu8, s.subrange(c + 11, c + 11 + size), tag_ts(s, c));
            if r.1 {
                c + 15 + size
            } else {
                run_stop(s, c + 15 + size)
            }
        }
    }
}

/// Whether `s` starts with the signature "FLV".
pub open spec fn flv_signature(s: Seq<u8>) -> bool {
    s.len() >= 3 && s[0] == 0x46 && s[1] == 0x4C && s[2] == 0x56
}

/// The events of an FLV byte stream, and whether it is poisoned: nothing
/// until the 13 bytes of file header and PreviousTagSize0 are there; an
/// error if it does not start with "FLV"; otherwise the events of its tags.
pub open spec fn flv_events(s: Seq<u8>) -> (Seq<EventView>, bool) {
    if s.len() < 13 {
        (Seq::empty(), false)
    } else if !flv_signature(s) {
        (seq![EventView::Error(not_flv_message())], true)
    } else {
        run_tags(s, 13)
    }
}

pub proof fn lemma_run_extend(s: Seq<u8>, t: Seq<u8>, c: int)
    requires
        !run_tags(s, c).1,
    ensures
        run_tags(s + t, c).0 == run_tags(s, c).0 + run_tags(s + t, run_stop(s, c)).0,
        run_tags(s + t, c).1 == run_tags(s + t, run_stop(s, c)).1,
        run_stop(s + t, c) == run_stop(s + t, run_stop(s, c)),
    decreases s.len() - c,
{
    let st = s + t;
    if c < 0 || c + 11 > s.len() {
        assert(run_tags(s, c).0 + run_tags(st, c).0 =~= run_tags(st, c).0);
    } else {
        let size = tag_size(s, c);
        assert(tag_size(st, c) == size);
        if c + 15 + size > s.len() {
            assert(run_tags(s, c).0 + run_tags(st, c).0 =~= run_tags(st, c).0);
        } else {
            assert(st.subrange(c + 11, c + 11 + size) =~= s.subrange(c + 11, c + 11 + size));
            assert(tag_ts(st, c) == tag_ts(s, c));
            assert(st[c] == s[c]);
            let r = tag_events(s[c] & 0x1Fu8, s.subrange(c + 11, c + 11 + size), tag_ts(s, c));
            lemma_run_extend(s, t, c + 15 + size);
            let e = run_stop(s, c + 15 + size);
            assert(r.0 + (run_tags(s, c + 15 + size).0 + run_tags(st, e).0) =~= r.0 + run_tags(
                s,
                c + 15 + size,
            ).0 + run_tags(st, e).0);
        }
    }
}

pub proof fn lemma_run_stop_ge(s: Seq<u8>, c: int)
    ensures
        run_stop(s, c) >= c,
    decreases s.len() - c,
{
    if c >= 0 && c + 11 <= s.len() {
        let size = tag_size(s, c);
        if c + 15 + size <= s.len() {
            lemma_run_stop_ge(s, c + 15 + size);
        }
    }
}

pub proof fn lemma_run_poison_extend(s: Seq<u8>, t: Seq<u8>, c: int)
    requires
        run_tags(s, c).1,
    ensures
        run_tags(s + t, c) == run_tags(s, c),
    decreases s.len() - c,
{
    let st = s + t;
    if c < 0 || c + 11 > s.len() {
    } else {
        let size = tag_size(s, c);
        assert(tag_size(st, c) == size);
        if c + 15 + size > s.len() {
        } else {
            assert(st.subrange(c + 11, c + 11 + size) =~= s.subrange(c + 11, c + 11 + size));
            assert(tag_ts(st, c) == tag_ts(s, c));
            assert(st[c] == s[c]);
            let r = tag_events(s[c] & 0x1Fu8, s.subrange(c + 11, c + 11 + size), tag_ts(s, c));
            if !r.1 {
                lemma_run_poison_extend(s, t, c + 15 + size);
            }
        }
    }
}

/// A poisoned stream stays as it is whatever bytes follow.
pub proof fn lemma_flv_poison_extend(s: Seq<u8>, t: Seq<u8>)
    requires
        flv_events(s).1,
    ensures
        flv_events(s + t) == flv_events(s),
{
    let st = s + t;
    assert(st.len() >= 13);
    assert(st[0] == s[0] && st[1] == s[1] && st[2] == s[2]);
    if flv_signature(s) {
        lemma_run_poison_extend(s, t, 13);
    }
}

/// Reads the type, body size and timestamp of the tag header at `k`.
fn read_tag_header(buf: &[u8], k: usize) -> (r: (u8, usize, u32))
    requires
        k + 11 <= buf@.len(),
    ensures
        r.0 == buf@[k as int] & 0x1Fu8,
        r.1 == tag_size(buf@, k as int),
        r.2 == tag_ts(buf@, k as int),
        r.1 < 0x100_0000,
{
    let tag_type = buf[k] & 0x1F;
    let data_size = (buf[k + 1] as usize) * 65536 + (buf[k + 2] as usize) * 256 + (buf[k
        + 3] as usize);
    let ts: u32 = (buf[k + 7] as u32) * 16777216 + (buf[k + 4] as u32) * 65536 + (buf[k
        + 5] as u32) * 256 + (buf[k + 6] as u32);
    (tag_type, data_size, ts)
}

proof fn lemma_tag_header_shift(r: Seq<u8>, p: Seq<u8>, base: int, k: int)
    requires
        0 <= base,
        0 <= k,
        k + 11 <= p.len(),
        base + p.len() == r.len(),
        p == r.subrange(base, r.len() as int),
    ensures
        p[k] == r[base + k],
        tag_size(p, k) == tag_size(r, base + k),
        tag_ts(p, k) == tag_ts(r, base + k),
{
    assert(p[k] == r[base + k]);
    assert(p[k + 1] == r[base + k + 1]);
    assert(p[k + 2] == r[base + k + 2]);
    assert(p[k + 3] == r[base + k + 3]);
    assert(p[k + 4] == r[base + k + 4]);
    assert(p[k + 5] == r[base + k + 5]);
    assert(p[k + 6] == r[base + k + 6]);
    assert(p[k + 7] == r[base + k + 7]);
}

// ----------------------------------------------------------------------------
// Laws of the stream
// ----------------------------------------------------------------------------

/// Whether no event of `e` is an error.
pub open spec fn no_error(e: Seq<EventView>) -> bool {
    forall|i: int| 0 <= i < e.len() ==> !(#[trigger] e[i] is Error)
}

proof fn lemma_tag_events_error(t: u8, body: Seq<u8>, ts: u32)
    ensures
        tag_events(t, body, ts).1 ==> tag_events(t, body, ts).0 =~= seq![
            EventView::Error(avc_message()),
        ],
        !tag_events(t, body, ts).1 ==> no_error(tag_events(t, body, ts).0),
{
}

proof fn lemma_run_error(s: Seq<u8>, c: int)
    ensures
        run_tags(s, c).1 ==> run_tags(s, c).0.len() > 0 && run_tags(s, c).0.last() is Error
            && no_error(run_tags(s, c).0.drop_last()),
        !run_tags(s, c).1 ==> no_error(run_tags(s, c).0),
    decreases s.len() - c,
{
    if c >= 0 && c + 11 <= s.len() {
        let size = tag_size(s, c);
        if c + 15 + size <= s.len() {
            let body = s.subrange(c + 11, c + 11 + size);
            let r = tag_events(s[c] & 0x1Fu8, body, tag_ts(s, c));
            lemma_tag_events_error(s[c] & 0x1Fu8, body, tag_ts(s, c));
            if r.1 {
                assert(r.0.drop_last() =~= Seq::<EventView>::empty());
            } else {
                lemma_run_error(s, c + 15 + size);
                let rest = run_tags(s, c + 15 + size);
                let all = r.0 + rest.0;
                assert forall|i: int| 0 <= i < all.len() - (if rest.1 { 1int } else { 0 })
                    implies !(#[trigger] all[i] is Error) by {
                    if i >= r.0.len() {
                        assert(all[i] == rest.0[i - r.0.len()]);
                        if rest.1 {
                            assert(rest.0.drop_last()[i - r.0.len()] == rest.0[i - r.0.len()]);
                        }
                    }
                }
                if rest.1 {
                    assert(all.last() == rest.0.last());
                    assert forall|i: int| 0 <= i < all.drop_last().len() implies !(
                    #[trigger] all.drop_last()[i] is Error) by {
                        assert(all.drop_last()[i] == all[i]);
                    }
                }
            }
        }
    }
}

/// An FLV tag as bytes: the type byte, the 24-bit big-endian body size,
/// the timestamp (its low 24 bits big-endian, then its high 8 bits),
/// stream id 0, the body, and the 4-byte previous-tag size.
pub open spec fn flv_tag(t: u8, body: Seq<u8>, ts: u32) -> Seq<u8> {
    let n = body.len();
    let m = ts as nat;
    seq![
        t,
        (n / 256 / 256 % 256) as u8,
        (n / 256 % 256) as u8,
        (n % 256) as u8,
        (m / 256 / 256 % 256) as u8,
        (m / 256 % 256) as u8,
        (m % 256) as u8,
        (m / 256 / 256 / 256 % 256) as u8,
        0u8,
        0u8,
        0u8,
    ] + body + be32_encode(n + 11)
}

proof fn lemma_run_shift(a: Seq<u8>, b: Seq<u8>, p: int)
    requires
        0 <= p,
    ensures
        run_tags(a + b, a.len() + p) == run_tags(b, p),
    decreases b.len() - p,
{
    let d = a + b;
    let q = a.len() + p;
    if p + 11 <= b.len() {
        assert(forall|i: int| 0 <= i < 11 ==> #[trigger] d[q + i] == b[p + i]);
        assert(d[q] == b[p] && d[q + 1] == b[p + 1] && d[q + 2] == b[p + 2] && d[q + 3] == b[p
            + 3]);
        assert(d[q + 4] == b[p + 4] && d[q + 5] == b[p + 5] && d[q + 6] == b[p + 6] && d[q + 7]
            == b[p + 7]);
        let size = tag_size(b, p);
        assert(tag_size(d, q) == size);
        assert(tag_ts(d, q) == tag_ts(b, p));
        if p + 15 + size <= b.len() {
            assert(d.subrange(q + 11, q + 11 + size) =~= b.subrange(p + 11, p + 11 + size));
            lemma_run_shift(a, b, p + 15 + size);
        }
    }
}

/// A tag in the stream is read as written: its type (low 5 bits), body and
/// timestamp give its events, and scanning goes on after it (unless it
/// poisons the stream).
pub proof fn law_flv_tag(a: Seq<u8>, t: u8, body: Seq<u8>, ts: u32, rest: Seq<u8>)
    requires
        body.len() < 0x100_0000,
    ensures
        run_tags(a + flv_tag(t, body, ts) + rest, a.len() as int) == ({
            let r = tag_events(t & 0x1Fu8, body, ts);
            if r.1 {
                r
            } else {
                (r.0 + run_tags(rest, 0).0, run_tags(rest, 0).1)
            }
        }),
{
    let g = flv_tag(t, body, ts);
    let n = body.len();
    let m = ts as nat;
    let d = g + rest;
    assert(n == 256 * (n / 256) + n % 256);
    assert(n / 256 == 256 * (n / 256 / 256) + n / 256 % 256);
    assert(n / 256 / 256 < 256);
    assert(m == 256 * (m / 256) + m % 256);
    assert(m / 256 == 256 * (m / 256 / 256) + m / 256 % 256);
    assert(m / 256 / 256 == 256 * (m / 256 / 256 / 256) + m / 256 / 256 % 256);
    assert(m / 256 / 256 / 256 < 256);
    assert(d[0] == t && d[1] == g[1] && d[2] == g[2] && d[3] == g[3]);
    assert(d[4] == g[4] && d[5] == g[5] && d[6] == g[6] && d[7] == g[7]);
    assert(tag_size(d, 0) == n);
    assert(tag_ts(d, 0) == ts);
    assert(d.subrange(11, 11 + n as int) =~= body);
    assert(g.len() == 15 + n);
    lemma_run_shift(g, rest, 0);
    lemma_run_shift(a, d, 0);
    assert(a + g + rest =~= a + d);
}

/// After the 13 bytes of a file header that starts with "FLV", a stream's
/// events are those of the tags that follow.
pub proof fn law_flv_stream(h: Seq<u8>, tags: Seq<u8>)
    requires
        h.len() == 13,
        flv_signature(h),
    ensures
        flv_events(h + tags) == run_tags(tags, 0),
{
    let s = h + tags;
    assert(s[0] == h[0] && s[1] == h[1] && s[2] == h[2]);
    lemma_run_shift(h, tags, 0);
}

proof fn lemma_nibbles(hi: u8, lo: u8)
    requires
        hi < 16,
        lo < 16,
    ensures
        ((hi * 16 + lo) as u8) & 0x0Fu8 == lo,
        (((hi * 16 + lo) as u8) >> 4u8) & 0x0Fu8 == hi,
{
    assert(((hi * 16 + lo) as u8) & 0x0Fu8 == lo && (((hi * 16 + lo) as u8) >> 4u8) & 0x0Fu8 == hi)
        by (bit_vector)
        requires
            hi < 16,
            lo < 16,
    ;
}

/// Video tag bodies: frame type (high nibble) and codec id 12 (HEVC), a
/// packet type, a 3-byte composition time, then the payload. Packet type 1
/// gives a frame of the payload's NAL units in Annex-B, a keyframe exactly
/// for frame type 1 (none when no unit converts); packet type 0 gives the
/// configuration record's parameter sets and picture size. Codec id 7 (AVC)
/// is an error that poisons the stream.
pub proof fn law_video_tag_body(ft: u8, cts: Seq<u8>, payload: Seq<u8>, ts: u32)
    requires
        ft < 16,
        cts.len() == 3,
    ensures
        video_events(seq![(ft * 16 + 12) as u8, 1u8] + cts + payload, ts) == if avcc_to_annex_b_spec(
            payload,
        ).len() == 0 {
            (Seq::<EventView>::empty(), false)
        } else {
            (
                seq![
                    EventView::VideoFrame {
                        annex_b: avcc_to_annex_b_spec(payload),
                        pts_ms: ts,
                        is_keyframe: ft == 1,
                    },
                ],
                false,
            )
        },
        video_events(seq![(ft * 16 + 12) as u8, 0u8] + cts + payload, ts) == match hvcc_spec(
            payload,
        ) {
            Some((a, w, h)) => (
                seq![EventView::VideoConfig { annex_b: a, width: w, height: h }],
                false,
            ),
            None => (Seq::<EventView>::empty(), false),
        },
        video_events(seq![(ft * 16 + 7) as u8, 1u8] + cts + payload, ts) == (
            seq![EventView::Error(avc_message())],
            true,
        ),
{
    lemma_nibbles(ft, 12);
    lemma_nibbles(ft, 7);
    let b1 = seq![(ft * 16 + 12) as u8, 1u8] + cts + payload;
    let b0 = seq![(ft * 16 + 12) as u8, 0u8] + cts + payload;
    assert(b1.subrange(5, b1.len() as int) =~= payload);
    assert(b0.subrange(5, b0.len() as int) =~= payload);
}

/// Audio tag bodies: sound format 10 (AAC) in the high nibble, then packet
/// type 1 and a raw frame (reported when not empty) or packet type 0 and an
/// AudioSpecificConfig (reported with its parsed fields when it parses).
pub proof fn law_audio_tag_body(lo: u8, data: Seq<u8>, ts: u32)
    requires
        lo < 16,
    ensures
        audio_events(seq![(10 * 16 + lo) as u8, 1u8] + data, ts) == if data.len() == 0 {
            Seq::<EventView>::empty()
        } else {
            seq![EventView::AudioFrame { data, pts_ms: ts }]
        },
        audio_events(seq![(10 * 16 + lo) as u8, 0u8] + data, ts) == match asc_spec(data) {
            Some(c) => if data.len() == 0 {
                Seq::<EventView>::empty()
            } else {
                seq![
                    EventView::AudioConfig {
                        config: data,
                        sample_rate: c.sample_rate,
                        channels: c.channels,
                        object_type: c.object_type,
                    },
                ]
            },
            None => Seq::<EventView>::empty(),
        },
{
    lemma_nibbles(10, lo);
    let b1 = seq![(10 * 16 + lo) as u8, 1u8] + data;
    let b0 = seq![(10 * 16 + lo) as u8, 0u8] + data;
    assert(b1.subrange(2, b1.len() as int) =~= data);
    assert(b0.subrange(2, b0.len() as int) =~= data);
}

/// An error event is the last event of a stream and comes exactly when the
/// stream is poisoned; no other event is an error.
pub proof fn law_error_is_last(s: Seq<u8>)
    ensures
        flv_events(s).1 <==> (flv_events(s).0.len() > 0 && flv_events(s).0.last() is Error),
        forall|i: int|
            0 <= i < flv_events(s).0.len() - 1 ==> !(#[trigger] flv_events(s).0[i] is Error),
{
    let e = flv_events(s).0;
    if s.len() >= 13 {
        if !flv_signature(s) {
        } else {
            lemma_run_error(s, 13);
            if flv_events(s).1 {
                assert forall|i: int| 0 <= i < e.len() - 1 implies !(#[trigger] e[i] is Error) by {
                    assert(e.drop_last()[i] == e[i]);
                }
            }
        }
    }
}

/// A poisoned stream ignores whatever bytes follow.
pub proof fn law_poison_is_final(s: Seq<u8>, t: Seq<u8>)
    requires
        flv_events(s).1,
    ensures
        flv_events(s + t) == flv_events(s),
{
    lemma_flv_poison_extend(s, t);
}

/// More bytes never take back or change an event: the events of a stream
/// are a prefix of the events of any continuation of it.
pub proof fn law_events_only_grow(s: Seq<u8>, t: Seq<u8>)
    ensures
        flv_events(s).0.len() <= flv_events(s + t).0.len(),
        flv_events(s + t).0.subrange(0, flv_events(s).0.len() as int) == flv_events(s).0,
{
    let st = s + t;
    if flv_events(s).1 {
        lemma_flv_poison_extend(s, t);
        assert(flv_events(s).0.subrange(0, flv_events(s).0.len() as int) =~= flv_events(s).0);
    } else if s.len() < 13 {
        assert(flv_events(s).0 =~= Seq::<EventView>::empty());
    } else {
        assert(st[0] == s[0] && st[1] == s[1] && st[2] == s[2]);
        lemma_run_extend(s, t, 13);
        assert(flv_events(st).0.subrange(0, flv_events(s).0.len() as int) =~= flv_events(s).0);
    }
}

/// How a stream is cut into chunks does not matter: two demuxers that were
/// given the same bytes, in any chunks and with any interleaving of
/// `next_event` calls, have produced the same events and agree on poison.
pub proof fn law_chunking_is_invisible(a: &Demuxer, b: &Demuxer)
    requires
        a.wf(),
        b.wf(),
        a.stream() == b.stream(),
    ensures
        a.delivered() + a.queued() == b.delivered() + b.queued(),
        a.is_poisoned() == b.is_poisoned(),
{
    a.lemma_events_of_stream();
    b.lemma_events_of_stream();
}

proof fn lemma_avcc_starts_with_start_code(d: Seq<u8>, p: int)
    ensures
        avcc_from(d, p).len() == 0 || avcc_from(d, p).subrange(0, 4) == start_code(),
{
    if p >= 0 && p + 4 <= d.len() {
        let n = be32(d, p);
        if n != 0 && p + 4 + n <= d.len() {
            let r = avcc_from(d, p);
            assert(r.subrange(0, 4) =~= start_code());
        }
    }
}

/// What every event of a stream satisfies: an audio config reports the
/// fields its config bytes parse to, a video frame is non-empty Annex-B
/// (it starts with a start code), an audio frame is shorter than a tag
/// body can be.
pub open spec fn event_well_formed(e: EventView) -> bool {
    match e {
        EventView::AudioFrame { data, .. } => data.len() < 0x100_0000,
        EventView::AudioConfig { config, sample_rate, channels, object_type } => asc_spec(config)
            matches Some(c) && c.sample_rate == sample_rate && c.channels == channels
            && c.object_type == object_type,
        EventView::VideoFrame { annex_b, .. } => annex_b.len() >= 4 && annex_b.subrange(0, 4)
            == start_code(),
        _ => true,
    }
}

proof fn lemma_tag_events_well_formed(t: u8, body: Seq<u8>, ts: u32)
    requires
        body.len() < 0x100_0000,
    ensures
        forall|i: int|
            0 <= i < tag_events(t, body, ts).0.len() ==> #[trigger] event_well_formed(
                tag_events(t, body, ts).0[i],
            ),
{
    if body.len() >= 5 {
        lemma_avcc_starts_with_start_code(body.subrange(5, body.len() as int), 0);
    }
}

proof fn lemma_run_well_formed(s: Seq<u8>, c: int)
    ensures
        forall|i: int|
            0 <= i < run_tags(s, c).0.len() ==> #[trigger] event_well_formed(run_tags(s, c).0[i]),
    decreases s.len() - c,
{
    if c >= 0 && c + 11 <= s.len() {
        let size = tag_size(s, c);
        if c + 15 + size <= s.len() {
            let body = s.subrange(c + 11, c + 11 + size);
            let r = tag_events(s[c] & 0x1Fu8, body, tag_ts(s, c));
            lemma_tag_events_well_formed(s[c] & 0x1Fu8, body, tag_ts(s, c));
            if !r.1 {
                lemma_run_well_formed(s, c + 15 + size);
                let rest = run_tags(s, c + 15 + size);
                assert forall|i: int| 0 <= i < r.0.len() + rest.0.len() implies #[trigger] event_well_formed(
                    (r.0 + rest.0)[i],
                ) by {
                    if i >= r.0.len() {
                        assert((r.0 + rest.0)[i] == rest.0[i - r.0.len()]);
                    }
                }
            }
        }
    }
}

/// Every event of every stream is well formed (see `event_well_formed`).
pub proof fn law_stream_events_well_formed(s: Seq<u8>)
    ensures
        forall|i: int|
            0 <= i < flv_events(s).0.len() ==> #[trigger] event_well_formed(flv_events(s).0[i]),
{
    if s.len() >= 13 && flv_signature(s) {
        lemma_run_well_formed(s, 13);
    }
}

/// Pull-style FLV demuxer: feed bytes with `append`, take events with
/// `next_event`.
pub struct Demuxer {
    pending: Vec<u8>,
    cursor: usize,
    header_parsed: bool,
    poisoned: bool,
    events: VecDeque<Event>,
    /// Every byte appended since creation or the last reset.
    received: Ghost<Seq<u8>>,
    /// Position of `pending[0]` in `received`.
    base: Ghost<nat>,
    /// Events already handed out by `next_event`.
    delivered: Ghost<Seq<EventView>>,
}

impl Demuxer {
    /// Every byte appended since creation or the last reset.
    pub closed spec fn stream(&self) -> Seq<u8> {
        self.received@
    }

    /// Events already handed out by `next_event`, in order.
    pub closed spec fn delivered(&self) -> Seq<EventView> {
        self.delivered@
    }

    /// Events waiting to be handed out, in order.
    pub closed spec fn queued(&self) -> Seq<EventView> {
        views(self.events@)
    }

    /// Whether the demuxer hit an unrecoverable error.
    pub closed spec fn is_poisoned(&self) -> bool {
        self.poisoned
    }

    /// Bytes already parsed that the demuxer still holds.
    pub closed spec fn held_parsed_bytes(&self) -> nat {
        self.cursor as nat
    }

    /// The demuxer's state agrees with the bytes it was given, and it holds
    /// at most 256 KiB of bytes it has already parsed.
    pub closed spec fn wf(&self) -> bool {
        &&& self.consistent()
        &&& self.cursor <= 256 * 1024
    }

    /// What it delivered and queued are the events of its stream, it is
    /// poisoned exactly when the stream is, and it waits at the first
    /// incomplete tag.
    closed spec fn consistent(&self) -> bool {
        let s = self.received@;
        let fe = flv_events(s);
        &&& self.delivered@ + views(self.events@) == fe.0
        &&& self.poisoned == fe.1
        &&& self.header_parsed == (s.len() >= 13 && flv_signature(s))
        &&& self.cursor <= self.pending@.len()
        &&& !self.poisoned ==> {
            &&& self.base@ + self.pending@.len() == s.len()
            &&& self.pending@ == s.subrange(self.base@ as int, s.len() as int)
            &&& if self.header_parsed {
                self.base@ + self.cursor == run_stop(s, 13)
            } else {
                s.len() < 13 && self.base@ == 0 && self.cursor == 0
            }
        }
    }

    /// What a well-formed demuxer has delivered and queued are exactly the
    /// events of the bytes it was given.
    pub proof fn lemma_events_of_stream(&self)
        requires
            self.wf(),
        ensures
            self.delivered() + self.queued() == flv_events(self.stream()).0,
            self.is_poisoned() == flv_events(self.stream()).1,
    {
    }

    pub fn new() -> (d: Self)
        ensures
            d.wf(),
            d.stream() == Seq::<u8>::empty(),
            d.delivered() == Seq::<EventView>::empty(),
            d.queued() == Seq::<EventView>::empty(),
    {
        let d = Demuxer {
            pending: Vec::with_capacity(128 * 1024),
            cursor: 0,
            header_parsed: false,
            poisoned: false,
            events: VecDeque::new(),
            received: Ghost(Seq::empty()),
            base: Ghost(0),
            delivered: Ghost(Seq::empty()),
        };
        assert(views(d.events@) =~= Seq::<EventView>::empty());
        assert(d.pending@ =~= d.received@.subrange(0, 0));
        d
    }

    /// Forgets all input and events: the demuxer is as new.
    pub fn reset(&mut self)
        ensures
            final(self).wf(),
            final(self).stream() == Seq::<u8>::empty(),
            final(self).delivered() == Seq::<EventView>::empty(),
            final(self).queued() == Seq::<EventView>::empty(),
    {
        self.pending.clear();
        self.cursor = 0;
        self.header_parsed = false;
        self.poisoned = false;
        self.events.clear();
        self.received = Ghost(Seq::empty());
        self.base = Ghost(0);
        self.delivered = Ghost(Seq::empty());
        assert(views(self.events@) =~= Seq::<EventView>::empty());
        assert(self.pending@ =~= self.received@.subrange(0, 0));
    }

    /// Whether the FLV file header has been read.
    pub fn header_parsed(&self) -> (r: bool)
        requires
            self.wf(),
        ensures
            r == (self.stream().len() >= 13 && flv_signature(self.stream())),
    {
        self.header_parsed
    }

    /// Push more bytes. Parses what it can; queues events.
    pub fn append(&mut self, chunk: &[u8])
        requires
            old(self).wf(),
        ensures
            final(self).wf(),
            final(self).stream() == old(self).stream() + chunk@,
            final(self).delivered() == old(self).delivered(),
            final(self).delivered() + final(self).queued() == flv_events(final(self).stream()).0,
            final(self).is_poisoned() == flv_events(final(self).stream()).1,
            final(self).held_parsed_bytes() <= 256 * 1024,
    {
        let ghost prev = self.received@;
        if self.poisoned || chunk.len() == 0 {
            proof {
                if self.poisoned {
                    lemma_flv_poison_extend(prev, chunk@);
                } else {
                    assert(prev + chunk@ =~= prev);
                }
            }
            self.received = Ghost(prev + chunk@);
            return;
        }
        self.pending.extend_from_slice(chunk);
        self.received = Ghost(prev + chunk@);
        assert(self.pending@ =~= self.received@.subrange(self.base@ as int, self.received@.len() as int));
        assert(prev =~= self.received@.subrange(0, prev.len() as int));
        self.parse(Ghost(prev));
        if self.cursor > 256 * 1024 {
            let tail = self.pending.split_off(self.cursor);
            self.base = Ghost(self.base@ + self.cursor as nat);
            self.pending = tail;
            self.cursor = 0;
            if !self.poisoned {
                assert(self.pending@ =~= self.received@.subrange(
                    self.base@ as int,
                    self.received@.len() as int,
                ));
            }
        }
    }

    /// Pop the next event, if any. None means "feed more bytes."
    pub fn next_event(&mut self) -> (r: Option<Event>)
        requires
            old(self).wf(),
        ensures
            final(self).wf(),
            final(self).stream() == old(self).stream(),
            match r {
                None => {
                    &&& old(self).queued().len() == 0
                    &&& final(self).queued() == old(self).queued()
                    &&& final(self).delivered() == old(self).delivered()
                },
                Some(e) => {
                    &&& old(self).queued().len() > 0
                    &&& e@ == old(self).queued()[0]
                    &&& final(self).queued() == old(self).queued().drop_first()
                    &&& final(self).delivered() == old(self).delivered().push(e@)
                },
            },
    {
        let r = self.events.pop_front();
        match &r {
            Some(e) => {
                self.delivered = Ghost(self.delivered@.push(e@));
                assert(views(self.events@) =~= views(old(self).events@).drop_first());
                assert(self.delivered@ + views(self.events@) =~= old(self).delivered@ + views(
                    old(self).events@,
                ));
            },
            None => {},
        }
        r
    }

    #[verifier::rlimit(40)]
    fn parse(&mut self, Ghost(prev): Ghost<Seq<u8>>)
        requires
            !old(self).poisoned,
            prev.len() <= old(self).received@.len(),
            prev == old(self).received@.subrange(0, prev.len() as int),
            old(self).delivered@ + views(old(self).events@) == flv_events(prev).0,
            !flv_events(prev).1,
            old(self).base@ + old(self).pending@.len() == old(self).received@.len(),
            old(self).pending@ == old(self).received@.subrange(
                old(self).base@ as int,
                old(self).received@.len() as int,
            ),
            old(self).cursor <= old(self).pending@.len(),
            old(self).header_parsed == (prev.len() >= 13 && flv_signature(prev)),
            if old(self).header_parsed {
                old(self).base@ + old(self).cursor == run_stop(prev, 13)
            } else {
                prev.len() < 13 && old(self).base@ == 0 && old(self).cursor == 0
            },
        ensures
            final(self).consistent(),
            final(self).received@ == old(self).received@,
            final(self).delivered@ == old(self).delivered@,
            !final(self).header_parsed ==> final(self).cursor == old(self).cursor,
    {
        let ghost r = self.received@;
        let ghost t = r.subrange(prev.len() as int, r.len() as int);
        assert(r =~= prev + t);
        if !self.header_parsed {
            if self.pending.len() - self.cursor < 13 {
                return;
            }
            if self.pending[0] != 0x46 || self.pending[1] != 0x4C || self.pending[2] != 0x56 {
                self.poisoned = true;
                let e = Event::Error(String::from_str("not an FLV stream"));
                self.events.push_back(e);
                assert(views(self.events@) =~= views(old(self).events@).push(e@));
                assert(views(old(self).events@) =~= Seq::<EventView>::empty());
                return;
            }
            self.cursor = self.cursor + 13;
            self.header_parsed = true;
            assert(views(self.events@) =~= Seq::<EventView>::empty());
        } else {
            proof {
                lemma_run_extend(prev, t, 13);
                lemma_run_stop_ge(prev, 13);
                assert(r[0] == prev[0] && r[1] == prev[1] && r[2] == prev[2]);
            }
        }
        loop
            invariant
                !self.poisoned,
                self.header_parsed,
                r == self.received@,
                r == old(self).received@,
                self.delivered@ == old(self).delivered@,
                r.len() >= 13,
                flv_signature(r),
                self.base@ + self.pending@.len() == r.len(),
                self.pending@ == r.subrange(self.base@ as int, r.len() as int),
                self.cursor <= self.pending@.len(),
                self.base@ + self.cursor >= 13,
                self.delivered@ + views(self.events@) + run_tags(r, self.base@ + self.cursor).0
                    == flv_events(r).0,
                run_tags(r, self.base@ + self.cursor).1 == flv_events(r).1,
                run_stop(r, self.base@ + self.cursor) == run_stop(r, 13),
            decreases self.pending@.len() - self.cursor,
        {
            let ghost c = self.base@ + self.cursor;
            let avail = self.pending.len() - self.cursor;
            if avail < 11 {
                assert(self.delivered@ + views(self.events@) + Seq::empty() =~= self.delivered@
                    + views(self.events@));
                return;
            }
            let k = self.cursor;
            let (tag_type, data_size, ts) = read_tag_header(self.pending.as_slice(), k);
            proof {
                lemma_tag_header_shift(r, self.pending@, self.base@ as int, k as int);
            }
            let total = 11 + data_size + 4;
            if avail < total {
                assert(self.delivered@ + views(self.events@) + Seq::empty() =~= self.delivered@
                    + views(self.events@));
                return;
            }
            let body = vstd::slice::slice_to_vec(
                vstd::slice::slice_subrange(self.pending.as_slice(), k + 11, k + 11 + data_size),
            );
            assert(body@ =~= r.subrange(c + 11, c + 11 + data_size));
            self.cursor = self.cursor + total;
            let ghost before = self.delivered@ + views(self.events@);
            if tag_type == 9 {
                handle_video(&mut self.events, &mut self.poisoned, body.as_slice(), ts);
            } else if tag_type == 8 {
                handle_audio(&mut self.events, body.as_slice(), ts);
            }
            let ghost ev = tag_events(tag_type, body@, ts);
            assert(self.delivered@ + views(self.events@) == before + ev.0);
            if self.poisoned {
                return;
            }
            assert(before + ev.0 + run_tags(r, c + total).0 =~= before + (ev.0 + run_tags(
                r,
                c + total,
            ).0));
        }
    }
}

impl Default for Demuxer {
    fn default() -> (d: Self)
        ensures
            d.wf(),
            d.stream() == Seq::<u8>::empty(),
            d.delivered() == Seq::<EventView>::empty(),
            d.queued() == Seq::<EventView>::empty(),
    {
        Self::new()
    }
}

} // verus!
