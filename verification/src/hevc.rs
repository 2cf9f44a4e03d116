//! Minimal HEVC SPS parser: extracts the picture dimensions
//! (ITU-T H.265 7.3.2.2.1, 7.4.3.2.1).
use vstd::prelude::*;
use vstd::arithmetic::power2::pow2;
use crate::bits::{bit_at, bits_value, bits_fit, lemma_bits_value_bound, lemma_shift_in, read_bit};

verus! {

// ----------------------------------------------------------------------------
// Emulation prevention
// ----------------------------------------------------------------------------

/// The RBSP of `s[i..]`, given that `z` zero bytes directly precede `s[i]`:
/// a 0x03 byte that follows two or more zero bytes is dropped (and resets
/// the count); every other byte is kept.
pub open spec fn rbsp_from(s: Seq<u8>, i: int, z: nat) -> Seq<u8>
    decreases s.len() - i,
{
    if i < 0 || i >= s.len() {
        Seq::empty()
    } else if z >= 2 && s[i] == 3 {
        rbsp_from(s, i + 1, 0)
    } else {
        seq![s[i]] + rbsp_from(s, i + 1, if s[i] == 0 { z + 1 } else { 0 })
    }
}

/// The RBSP of an EBSP: its emulation-prevention bytes removed.
pub open spec fn rbsp_of(s: Seq<u8>) -> Seq<u8> {
    rbsp_from(s, 0, 0)
}

proof fn lemma_rbsp_from_plain(s: Seq<u8>, i: int, z: nat)
    requires
        0 <= i <= s.len(),
        forall|j: int| 0 <= j < s.len() ==> #[trigger] s[j] != 3,
    ensures
        rbsp_from(s, i, z) == s.subrange(i, s.len() as int),
    decreases s.len() - i,
{
    if i < s.len() {
        lemma_rbsp_from_plain(s, i + 1, if s[i] == 0 { z + 1 } else { 0 });
        assert(seq![s[i]] + s.subrange(i + 1, s.len() as int) =~= s.subrange(i, s.len() as int));
    } else {
        assert(s.subrange(i, s.len() as int) =~= Seq::<u8>::empty());
    }
}

/// Only 0x03 bytes are ever removed: a byte string without any is its own
/// RBSP, and an RBSP is never longer than its EBSP.
pub proof fn law_rbsp_removes_only_escapes(s: Seq<u8>)
    ensures
        (forall|j: int| 0 <= j < s.len() ==> #[trigger] s[j] != 3) ==> rbsp_of(s) == s,
        rbsp_of(s).len() <= s.len(),
{
    if forall|j: int| 0 <= j < s.len() ==> #[trigger] s[j] != 3 {
        lemma_rbsp_from_plain(s, 0, 0);
        assert(s.subrange(0, s.len() as int) =~= s);
    }
    lemma_rbsp_len(s, 0, 0);
}

proof fn lemma_rbsp_len(s: Seq<u8>, i: int, z: nat)
    requires
        0 <= i <= s.len(),
    ensures
        rbsp_from(s, i, z).len() <= s.len() - i,
    decreases s.len() - i,
{
    if i < s.len() {
        lemma_rbsp_len(s, i + 1, 0);
        lemma_rbsp_len(s, i + 1, if s[i] == 0 { z + 1 } else { 0 });
    }
}

proof fn lemma_rbsp_shift(a: Seq<u8>, b: Seq<u8>, i: int, z: nat)
    requires
        0 <= i,
    ensures
        rbsp_from(a + b, a.len() + i, z) == rbsp_from(b, i, z),
    decreases b.len() - i,
{
    if i < b.len() {
        assert((a + b)[a.len() + i] == b[i]);
        lemma_rbsp_shift(a, b, i + 1, 0);
        lemma_rbsp_shift(a, b, i + 1, if b[i] == 0 { z + 1 } else { 0 });
    }
}

/// Emulation prevention, byte by byte: a 0x03 after two zero bytes is
/// dropped (and the zero count starts over); a 0x03 after a single zero, or
/// any non-zero byte that follows no zeros, is kept.
pub proof fn law_rbsp_escapes(x: u8, b: Seq<u8>)
    ensures
        rbsp_of(seq![0u8, 0u8, 3u8] + b) == seq![0u8, 0u8] + rbsp_of(b),
        rbsp_of(seq![0u8, 3u8] + b) == seq![0u8, 3u8] + rbsp_of(b),
        x != 0 ==> rbsp_of(seq![x] + b) == seq![x] + rbsp_of(b),
{
    let e = seq![0u8, 0u8, 3u8];
    lemma_rbsp_shift(e, b, 0, 0);
    reveal_with_fuel(rbsp_from, 4);
    assert(rbsp_from(e + b, 2, 2) == rbsp_from(e + b, 3, 0));
    assert(seq![0u8] + (seq![0u8] + rbsp_of(b)) =~= seq![0u8, 0u8] + rbsp_of(b));
    let f = seq![0u8, 3u8];
    lemma_rbsp_shift(f, b, 0, 0);
    assert(seq![0u8] + (seq![3u8] + rbsp_of(b)) =~= seq![0u8, 3u8] + rbsp_of(b));
    let g = seq![x];
    lemma_rbsp_shift(g, b, 0, 0);
}

/// Strip 0x000003 emulation-prevention bytes (RBSP).
pub fn ebsp_to_rbsp(ebsp: &[u8]) -> (out: Vec<u8>)
    ensures
        out@ == rbsp_of(ebsp@),
        out@.len() <= ebsp@.len(),
{
    let mut out: Vec<u8> = Vec::with_capacity(ebsp.len());
    let mut zeroes: usize = 0;
    let mut i: usize = 0;
    while i < ebsp.len()
        invariant
            i <= ebsp@.len(),
            zeroes <= i,
            out@.len() <= i,
            out@ + rbsp_from(ebsp@, i as int, zeroes as nat) == rbsp_of(ebsp@),
        decreases ebsp.len() - i,
    {
        let b = ebsp[i];
        let ghost old_out = out@;
        if zeroes >= 2 && b == 0x03 {
            zeroes = 0;
        } else {
            if b == 0 {
                zeroes += 1;
            } else {
                zeroes = 0;
            }
            out.push(b);
            assert(old_out + (seq![b] + rbsp_from(ebsp@, i + 1, zeroes as nat)) == out@ + rbsp_from(
                ebsp@,
                i + 1,
                zeroes as nat,
            ));
        }
        i += 1;
    }
    out
}

// ----------------------------------------------------------------------------
// SPS
// ----------------------------------------------------------------------------

/// Bits that sub-layer `i`'s profile and level fields take, by its two
/// presence flags at `base + 2i` and `base + 2i + 1`.
pub open spec fn ptl_layer_bits(d: Seq<u8>, base: int, i: nat) -> nat {
    (if bit_at(d, base + 2 * i) == 1 { 88nat } else { 0nat }) + (if bit_at(d, base + 2 * i + 1) == 1 {
        8nat
    } else {
        0nat
    })
}

/// Bits of the first `i` sub-layers' profile and level fields.
pub open spec fn ptl_sub_bits(d: Seq<u8>, base: int, i: nat) -> nat
    decreases i,
{
    if i == 0 {
        0
    } else {
        ptl_sub_bits(d, base, (i - 1) as nat) + ptl_layer_bits(d, base, (i - 1) as nat)
    }
}

/// The position just after a profile_tier_level() with `m` sub-layers that
/// starts at `p`: 96 bits of general profile and level, two flags per
/// sub-layer, 2-bit reserved padding up to eight sub-layers (when `m > 0`),
/// then each present sub-layer profile (88 bits) and level (8 bits).
pub open spec fn ptl_end(d: Seq<u8>, p: int, m: nat) -> int {
    let base = p + 96;
    base + 2 * m + (if 0 < m < 8 { 2 * (8 - m) } else { 0 }) + ptl_sub_bits(d, base, m)
}

pub proof fn lemma_ptl_sub_mono(d: Seq<u8>, base: int, i: nat, j: nat)
    requires
        i <= j,
    ensures
        ptl_sub_bits(d, base, i) <= ptl_sub_bits(d, base, j),
    decreases j,
{
    if i < j {
        lemma_ptl_sub_mono(d, base, i, (j - 1) as nat);
    }
}

/// A profile_tier_level() is 96 bits when there are no sub-layers; with
/// `m` sub-layers (up to 7) it adds 16 bits of flags and padding and at most
/// 96 bits per sub-layer.
pub proof fn law_ptl_size(d: Seq<u8>, p: int, m: nat)
    requires
        m < 8,
    ensures
        m == 0 ==> ptl_end(d, p, m) == p + 96,
        m > 0 ==> p + 112 <= ptl_end(d, p, m) <= p + 112 + 96 * m,
{
    lemma_ptl_sub_le(d, p + 96, m);
}

proof fn lemma_ptl_sub_le(d: Seq<u8>, base: int, i: nat)
    ensures
        ptl_sub_bits(d, base, i) <= 96 * i,
    decreases i,
{
    if i > 0 {
        lemma_ptl_sub_le(d, base, (i - 1) as nat);
    }
}

/// Cropping offsets (left, right, top, bottom) at `p`, all zero when the
/// conformance window is absent.
pub open spec fn crop_spec(d: Seq<u8>, p: int, present: bool) -> Option<(u32, u32, u32, u32)> {
    if !present {
        Some((0u32, 0u32, 0u32, 0u32))
    } else {
        match ue_spec(d, p) {
            None => None,
            Some((l, p1)) => match ue_spec(d, p1) {
                None => None,
                Some((r, p2)) => match ue_spec(d, p2) {
                    None => None,
                    Some((t, p3)) => match ue_spec(d, p3) {
                        None => None,
                        Some((b, _)) => Some((l, r, t, b)),
                    },
                },
            },
        }
    }
}

/// The cropped picture size: luma size minus the conformance window scaled
/// by SubWidthC / SubHeightC of the chroma format (Table 6-1); `None` when the
/// window is larger than the picture.
pub open spec fn dims_spec(pw: u32, ph: u32, cf: u32, c: (u32, u32, u32, u32)) -> Option<(u32, u32)> {
    let sw: int = if cf == 1 || cf == 2 { 2 } else { 1 };
    let sh: int = if cf == 1 { 2 } else { 1 };
    let w = pw - sw * (c.0 + c.1);
    let h = ph - sh * (c.2 + c.3);
    if w < 0 || h < 0 {
        None
    } else {
        Some((w as u32, h as u32))
    }
}

/// Picture dimensions of an SPS RBSP (NAL header already stripped).
pub open spec fn sps_rbsp_spec(d: Seq<u8>) -> Option<(u32, u32)> {
    let len = 8 * d.len();
    if len < 8 {
        None
    } else {
        let m = bits_value(d, 4, 3);
        let p0 = ptl_end(d, 8, m);
        if p0 > len {
            None
        } else {
            match ue_spec(d, p0) {
                None => None,
                Some((_, p1)) => match ue_spec(d, p1) {
                    None => None,
                    Some((cf, p2)) => {
                        if cf == 3 && p2 + 1 > len {
                            None
                        } else {
                            let p3 = if cf == 3 { p2 + 1 } else { p2 };
                            match ue_spec(d, p3) {
                                None => None,
                                Some((pw, p4)) => match ue_spec(d, p4) {
                                    None => None,
                                    Some((ph, p5)) => {
                                        if p5 + 1 > len {
                                            None
                                        } else {
                                            match crop_spec(d, p5 + 1, bit_at(d, p5) == 1) {
                                                None => None,
                                                Some(c) => dims_spec(pw, ph, cf, c),
                                            }
                                        }
                                    },
                                },
                            }
                        }
                    },
                },
            }
        }
    }
}

/// Picture dimensions of an HEVC SPS NAL unit (two-byte NAL header included,
/// no start code).
pub open spec fn sps_spec(nalu: Seq<u8>) -> Option<(u32, u32)> {
    if nalu.len() < 3 {
        None
    } else {
        sps_rbsp_spec(rbsp_of(nalu.subrange(2, nalu.len() as int)))
    }
}

/// The luma picture size of an SPS RBSP, its chroma_format_idc, and the
/// position of its conformance_window_flag: the fields that follow the
/// 8 header bits and the profile_tier_level() are sps_seq_parameter_set_id,
/// chroma_format_idc, separate_colour_plane_flag (4:4:4 only),
/// pic_width_in_luma_samples and pic_height_in_luma_samples.
pub open spec fn sps_luma_size(d: Seq<u8>) -> Option<(u32, u32, u32, int)> {
    if 8 * d.len() < 8 {
        None
    } else {
        let p0 = ptl_end(d, 8, bits_value(d, 4, 3));
        if p0 > 8 * d.len() {
            None
        } else {
            match ue_spec(d, p0) {
                None => None,
                Some((_, p1)) => match ue_spec(d, p1) {
                    None => None,
                    Some((cf, p2)) => {
                        if cf == 3 && p2 + 1 > 8 * d.len() {
                            None
                        } else {
                            match ue_spec(d, if cf == 3 { p2 + 1 } else { p2 }) {
                                None => None,
                                Some((pw, p4)) => match ue_spec(d, p4) {
                                    None => None,
                                    Some((ph, p5)) => Some((pw, ph, cf, p5)),
                                },
                            }
                        }
                    },
                },
            }
        }
    }
}

/// Without a conformance window (its flag bit is 0) the reported size is the
/// luma picture size; with one, the size is never larger than it.
pub proof fn law_sps_crop_only_with_window(nalu: Seq<u8>, pw: u32, ph: u32, cf: u32, p: int)
    requires
        nalu.len() >= 3,
        sps_luma_size(rbsp_of(nalu.subrange(2, nalu.len() as int))) == Some((pw, ph, cf, p)),
    ensures
        (p + 1 <= 8 * rbsp_of(nalu.subrange(2, nalu.len() as int)).len() && bit_at(
            rbsp_of(nalu.subrange(2, nalu.len() as int)),
            p,
        ) == 0) ==> sps_spec(nalu) == Some((pw, ph)),
        sps_spec(nalu) matches Some((w, h)) ==> w <= pw && h <= ph,
{
}

/// SubWidthC and SubHeightC of a chroma_format_idc (H.265 Table 6-1):
/// 4:2:0 halves both, 4:2:2 halves the width, monochrome and 4:4:4 neither.
pub open spec fn chroma_subsampling(cf: u32) -> (int, int) {
    if cf == 1 {
        (2, 2)
    } else if cf == 2 {
        (2, 1)
    } else {
        (1, 1)
    }
}

/// With a conformance window (flag bit 1, then four Exp-Golomb offsets
/// left, right, top, bottom), the size is the luma size less the offsets
/// scaled by the chroma subsampling; `None` when that is negative.
pub proof fn law_sps_window(
    nalu: Seq<u8>,
    pw: u32,
    ph: u32,
    cf: u32,
    p: int,
    l: u32,
    r: u32,
    t: u32,
    b: u32,
    p1: int,
    p2: int,
    p3: int,
    p4: int,
)
    requires
        nalu.len() >= 3,
        sps_luma_size(rbsp_of(nalu.subrange(2, nalu.len() as int))) == Some((pw, ph, cf, p)),
        p + 1 <= 8 * rbsp_of(nalu.subrange(2, nalu.len() as int)).len(),
        bit_at(rbsp_of(nalu.subrange(2, nalu.len() as int)), p) == 1,
        ue_spec(rbsp_of(nalu.subrange(2, nalu.len() as int)), p + 1) == Some((l, p1)),
        ue_spec(rbsp_of(nalu.subrange(2, nalu.len() as int)), p1) == Some((r, p2)),
        ue_spec(rbsp_of(nalu.subrange(2, nalu.len() as int)), p2) == Some((t, p3)),
        ue_spec(rbsp_of(nalu.subrange(2, nalu.len() as int)), p3) == Some((b, p4)),
    ensures
        ({
            let (sw, sh) = chroma_subsampling(cf);
            let w = pw - sw * (l + r);
            let h = ph - sh * (t + b);
            sps_spec(nalu) == if w >= 0 && h >= 0 {
                Some((w as u32, h as u32))
            } else {
                None
            }
        }),
{
}

/// Returns (width, height) parsed from an HEVC SPS NALU (Annex-B body
/// without start code, NAL header included).
#[verifier::rlimit(60)]
#[verifier::spinoff_prover]
pub fn sps_dimensions(nalu: &[u8]) -> (r: Option<(u32, u32)>)
    requires
        8 * nalu@.len() <= usize::MAX,
    ensures
        r == sps_spec(nalu@),
{
    if nalu.len() < 3 {
        return None;
    }
    let rbsp = ebsp_to_rbsp(&nalu[2..nalu.len()]);
    let ghost d = rbsp@;
    let mut r = BitReader::new(rbsp.as_slice());

    r.read(4)?;
    let max_sub_layers_minus1 = r.read(3)?;
    r.read(1)?;
    proof {
        lemma_bits_value_bound(d, 4, 3);
        vstd::arithmetic::power2::lemma2_to64();
    }
    profile_tier_level(&mut r, max_sub_layers_minus1)?;

    r.ue()?;
    let chroma_format_idc = r.ue()?;
    if chroma_format_idc == 3 {
        r.read(1)?;
    }
    let pic_width_in_luma_samples = r.ue()?;
    let pic_height_in_luma_samples = r.ue()?;

    let conformance_window_flag = r.read(1)?;
    proof {
        crate::bits::lemma_bits_value_one(d, r.bit_pos - 1);
    }
    let (mut crop_left, mut crop_right, mut crop_top, mut crop_bottom) = (0u32, 0u32, 0u32, 0u32);
    if conformance_window_flag == 1 {
        crop_left = r.ue()?;
        crop_right = r.ue()?;
        crop_top = r.ue()?;
        crop_bottom = r.ue()?;
    }
    let (sub_width_c, sub_height_c) = match chroma_format_idc {
        1 => (2u64, 2u64),
        2 => (2, 1),
        3 => (1, 1),
        _ => (1, 1),
    };
    let crop_w: u64 = sub_width_c * (crop_left as u64 + crop_right as u64);
    let crop_h: u64 = sub_height_c * (crop_top as u64 + crop_bottom as u64);
    if (pic_width_in_luma_samples as u64) < crop_w || (pic_height_in_luma_samples as u64) < crop_h {
        return None;
    }
    let width = (pic_width_in_luma_samples as u64 - crop_w) as u32;
    let height = (pic_height_in_luma_samples as u64 - crop_h) as u32;
    Some((width, height))
}

/// Skips a profile_tier_level() with `max_sub_layers_minus1` sub-layers.
fn profile_tier_level(r: &mut BitReader, max_sub_layers_minus1: u32) -> (res: Option<()>)
    requires
        old(r).wf(),
        max_sub_layers_minus1 <= 7,
    ensures
        final(r).wf(),
        final(r).data@ == old(r).data@,
        res is Some <==> ptl_end(old(r).data@, old(r).bit_pos as int, max_sub_layers_minus1 as nat)
            <= 8 * old(r).data@.len(),
        res is Some ==> final(r).bit_pos == ptl_end(
            old(r).data@,
            old(r).bit_pos as int,
            max_sub_layers_minus1 as nat,
        ),
{
    let ghost d = r.data@;
    let ghost p = old(r).bit_pos as int;
    let ghost m = max_sub_layers_minus1 as nat;
    let ghost base = p + 96;
    let ghost len = 8 * d.len();
    let ghost fin = ptl_end(d, p, m);
    assert(fin >= base + 2 * m);
    r.skip(8)?;
    r.skip(32)?;
    r.skip(4)?;
    r.skip(43)?;
    r.skip(1)?;
    r.skip(8)?;

    let mut sub_layer_profile_present: Vec<u32> = Vec::with_capacity(max_sub_layers_minus1 as usize);
    let mut sub_layer_level_present: Vec<u32> = Vec::with_capacity(max_sub_layers_minus1 as usize);
    let mut i: u32 = 0;
    while i < max_sub_layers_minus1
        invariant
            r.wf(),
            r.data@ == d,
            d == old(r).data@,
            len == 8 * d.len(),
            p == old(r).bit_pos,
            m == max_sub_layers_minus1,
            base == p + 96,
            fin == ptl_end(d, p, m),
            fin >= base + 2 * m,
            i <= max_sub_layers_minus1 <= 7,
            r.bit_pos == base + 2 * i,
            sub_layer_profile_present@.len() == i,
            sub_layer_level_present@.len() == i,
            forall|j: int|
                0 <= j < i ==> #[trigger] sub_layer_profile_present@[j] == bit_at(d, base + 2 * j),
            forall|j: int|
                0 <= j < i ==> #[trigger] sub_layer_level_present@[j] == bit_at(d, base + 2 * j + 1),
        decreases max_sub_layers_minus1 - i,
    {
        let a = r.read(1)?;
        proof {
            crate::bits::lemma_bits_value_one(d, base + 2 * i);
        }
        sub_layer_profile_present.push(a);
        let b = r.read(1)?;
        proof {
            crate::bits::lemma_bits_value_one(d, base + 2 * i + 1);
        }
        sub_layer_level_present.push(b);
        i += 1;
    }
    if max_sub_layers_minus1 > 0 {
        let mut k: u32 = max_sub_layers_minus1;
        while k < 8
            invariant
                r.wf(),
                r.data@ == d,
                d == old(r).data@,
                p == old(r).bit_pos,
                len == 8 * d.len(),
                m == max_sub_layers_minus1,
                0 < max_sub_layers_minus1 <= k <= 8,
                fin == ptl_end(d, p, m),
                fin >= base + 2 * m + 2 * (8 - m),
                r.bit_pos == base + 2 * m + 2 * (k - m),
            decreases 8 - k,
        {
            r.skip(2)?;
            k += 1;
        }
    }
    let ghost res_bits: int = if 0 < m < 8 { 2 * (8 - m) } else { 0 };
    let mut i: usize = 0;
    while i < max_sub_layers_minus1 as usize
        invariant
            r.wf(),
            r.data@ == d,
            d == old(r).data@,
            p == old(r).bit_pos,
            base == p + 96,
            len == 8 * d.len(),
            m == max_sub_layers_minus1,
            i <= m <= 7,
            res_bits == (if 0 < m < 8 { 2 * (8 - m) } else { 0 }),
            fin == base + 2 * m + res_bits + ptl_sub_bits(d, base, m),
            fin == ptl_end(d, p, m),
            r.bit_pos == base + 2 * m + res_bits + ptl_sub_bits(d, base, i as nat),
            sub_layer_profile_present@.len() == m,
            sub_layer_level_present@.len() == m,
            forall|j: int|
                0 <= j < m ==> #[trigger] sub_layer_profile_present@[j] == bit_at(d, base + 2 * j),
            forall|j: int|
                0 <= j < m ==> #[trigger] sub_layer_level_present@[j] == bit_at(d, base + 2 * j + 1),
        decreases m - i,
    {
        proof {
            lemma_ptl_sub_mono(d, base, (i + 1) as nat, m);
        }
        if sub_layer_profile_present[i] == 1 {
            r.skip(8)?;
            r.skip(32)?;
            r.skip(4)?;
            r.skip(43)?;
            r.skip(1)?;
        }
        if sub_layer_level_present[i] == 1 {
            r.skip(8)?;
        }
        i += 1;
    }
    Some(())
}

// ----------------------------------------------------------------------------
// Bit reader
// ----------------------------------------------------------------------------

/// An MSB-first reader over a byte string.
pub struct BitReader<'a> {
    pub data: &'a [u8],
    pub bit_pos: usize,
}

/// What `BitReader::read` reports for `n` bits at `pos`.
pub open spec fn read_spec(d: Seq<u8>, pos: int, n: nat) -> Option<u32> {
    if n == 0 {
        Some(0u32)
    } else if n > 32 || !bits_fit(d, pos, n) {
        None
    } else {
        Some(bits_value(d, pos, n) as u32)
    }
}

/// The number of leading zero bits of an Exp-Golomb code at `p`, counted
/// from `z` on; `None` when the bits run out or more than 32 zeros come.
pub open spec fn ue_zeros(d: Seq<u8>, p: int, z: nat) -> Option<nat>
    decreases 33 - z,
{
    if z > 32 {
        None
    } else if !bits_fit(d, p + z, 1) {
        None
    } else if bit_at(d, p + z) == 1 {
        Some(z)
    } else if z + 1 > 32 {
        None
    } else {
        ue_zeros(d, p, z + 1)
    }
}

/// The unsigned Exp-Golomb code at `p` and the position after it:
/// `z` zeros, a one, then `z` bits `rest`; its value is `2^z - 1 + rest`.
/// `None` when the code is truncated, too long, or its value exceeds `u32`.
pub open spec fn ue_spec(d: Seq<u8>, p: int) -> Option<(u32, int)> {
    match ue_zeros(d, p, 0) {
        None => None,
        Some(z) => {
            if z == 0 {
                Some((0u32, p + 1))
            } else if !bits_fit(d, p + z + 1, z) {
                None
            } else {
                let v = pow2(z) - 1 + bits_value(d, p + z + 1, z);
                if v > u32::MAX {
                    None
                } else {
                    Some((v as u32, p + 2 * z + 1))
                }
            }
        },
    }
}

proof fn lemma_bits_value_front(d: Seq<u8>, off: int, n: nat)
    ensures
        bits_value(d, off, n + 1) == bit_at(d, off) as nat * pow2(n) + bits_value(d, off + 1, n),
    decreases n,
{
    crate::bits::lemma_bits_value_one(d, off);
    if n == 0 {
        reveal_with_fuel(bits_value, 2);
        vstd::arithmetic::power2::lemma2_to64();
    } else {
        lemma_bits_value_front(d, off, (n - 1) as nat);
        vstd::arithmetic::power2::lemma_pow2_unfold(n);
        assert(bits_value(d, off, n + 1) == 2 * bits_value(d, off, n) + bit_at(d, off + n) as nat);
        assert(bits_value(d, off + 1, n) == 2 * bits_value(d, off + 1, (n - 1) as nat) + bit_at(
            d,
            off + 1 + n - 1,
        ) as nat);
        if bit_at(d, off) == 1 {
            assert(bits_value(d, off, n + 1) == pow2(n) + bits_value(d, off + 1, n));
        } else {
            assert(bits_value(d, off, n + 1) == bits_value(d, off + 1, n));
        }
    }
}

proof fn lemma_ue_zeros_run(d: Seq<u8>, p: int, z: nat, k: nat)
    requires
        k <= z < 32,
        0 <= p,
        p + z + 1 <= 8 * d.len(),
        forall|j: int| 0 <= j < z ==> #[trigger] bit_at(d, p + j) == 0,
        bit_at(d, p + z) == 1,
    ensures
        ue_zeros(d, p, k) == Some(z),
    decreases z - k,
{
    if k < z {
        assert(bit_at(d, p + k) == 0);
        lemma_ue_zeros_run(d, p, z, k + 1);
    }
}

/// An Exp-Golomb codeword is `z` zero bits, a one, and `z` more bits; its
/// value is the (z + 1)-bit number that starts at the one, less one.
pub proof fn law_ue_codeword(d: Seq<u8>, p: int, z: nat)
    requires
        0 <= p,
        z < 32,
        p + 2 * z + 1 <= 8 * d.len(),
        forall|j: int| 0 <= j < z ==> #[trigger] bit_at(d, p + j) == 0,
        bit_at(d, p + z) == 1,
    ensures
        ue_spec(d, p) == Some(((bits_value(d, p + z, z + 1) - 1) as u32, p + 2 * z + 1)),
{
    lemma_ue_zeros_run(d, p, z, 0);
    lemma_bits_value_front(d, p + z, z);
    lemma_bits_value_bound(d, p + z + 1, z);
    vstd::arithmetic::power2::lemma_pow2_strictly_increases(z, 32);
    vstd::arithmetic::power2::lemma2_to64();
    if z == 0 {
        reveal_with_fuel(bits_value, 1);
        assert(pow2(0) == 1) by {
            vstd::arithmetic::power2::lemma2_to64();
        }
    }
}

impl<'a> BitReader<'a> {
    /// The reader's position lies within its data, whose bit count fits `usize`.
    pub open spec fn wf(&self) -> bool {
        &&& 8 * self.data@.len() <= usize::MAX
        &&& self.bit_pos <= 8 * self.data@.len()
    }

    pub fn new(data: &'a [u8]) -> (r: Self)
        requires
            8 * data@.len() <= usize::MAX,
        ensures
            r.wf(),
            r.data@ == data@,
            r.bit_pos == 0,
    {
        BitReader { data, bit_pos: 0 }
    }

    /// Reads `n <= 32` bits. On success the position advances by `n`; when
    /// the data runs out the reader is left at its end.
    pub fn read(&mut self, n: usize) -> (r: Option<u32>)
        requires
            old(self).wf(),
        ensures
            final(self).wf(),
            final(self).data@ == old(self).data@,
            r == read_spec(old(self).data@, old(self).bit_pos as int, n as nat),
            r is Some ==> final(self).bit_pos == old(self).bit_pos + n,
            (r is None && n <= 32 && n > 0) ==> final(self).bit_pos == 8 * old(self).data@.len(),
            n > 32 ==> final(self).bit_pos == old(self).bit_pos,
    {
        if n == 0 {
            return Some(0);
        }
        if n > 32 {
            return None;
        }
        let ghost p0 = self.bit_pos;
        let mut v: u64 = 0;
        let mut i: usize = 0;
        while i < n
            invariant
                0 < n <= 32,
                self.wf(),
                self.data@ == old(self).data@,
                p0 == old(self).bit_pos,
                i <= n,
                self.bit_pos == p0 + i,
                v == bits_value(self.data@, p0 as int, i as nat),
            decreases n - i,
        {
            if self.bit_pos / 8 >= self.data.len() {
                return None;
            }
            let bit = read_bit(self.data, self.bit_pos);
            proof {
                lemma_bits_value_bound(self.data@, p0 as int, i as nat);
                if i < 31 {
                    vstd::arithmetic::power2::lemma_pow2_strictly_increases(i as nat, 31);
                }
                vstd::arithmetic::power2::lemma2_to64();
                lemma_shift_in(v, bit);
            }
            v = (v << 1) | (bit as u64);
            self.bit_pos += 1;
            i += 1;
        }
        proof {
            lemma_bits_value_bound(self.data@, p0 as int, n as nat);
            if n < 32 {
                vstd::arithmetic::power2::lemma_pow2_strictly_increases(n as nat, 32);
            }
            vstd::arithmetic::power2::lemma2_to64();
        }
        Some(v as u32)
    }

    /// Advances `n` bits without producing a value; fails, leaving the
    /// reader where it was, when fewer than `n` bits remain.
    pub fn skip(&mut self, n: usize) -> (r: Option<()>)
        requires
            old(self).wf(),
        ensures
            final(self).wf(),
            final(self).data@ == old(self).data@,
            r is Some <==> old(self).bit_pos + n <= 8 * old(self).data@.len(),
            r is Some ==> final(self).bit_pos == old(self).bit_pos + n,
            r is None ==> final(self).bit_pos == old(self).bit_pos,
    {
        if n > self.data.len() * 8 - self.bit_pos {
            return None;
        }
        self.bit_pos = self.bit_pos + n;
        Some(())
    }

    /// Unsigned Exp-Golomb code.
    pub fn ue(&mut self) -> (r: Option<u32>)
        requires
            old(self).wf(),
        ensures
            final(self).wf(),
            final(self).data@ == old(self).data@,
            r == (match ue_spec(old(self).data@, old(self).bit_pos as int) {
                Some((v, _)) => Some(v),
                None => None,
            }),
            ue_spec(old(self).data@, old(self).bit_pos as int) matches Some((_, e))
                ==> final(self).bit_pos == e,
    {
        let ghost d = self.data@;
        let ghost p0 = self.bit_pos as int;
        let mut zeros: usize = 0;
        loop
            invariant_except_break
                self.bit_pos == p0 + zeros,
            invariant
                self.wf(),
                self.data@ == d,
                d == old(self).data@,
                p0 == old(self).bit_pos,
                zeros <= 32,
                ue_zeros(d, p0, 0) == ue_zeros(d, p0, zeros as nat),
            ensures
                self.bit_pos == p0 + zeros + 1,
                bits_fit(d, p0 + zeros, 1),
                bit_at(d, p0 + zeros) == 1,
            decreases 33 - zeros,
        {
            let b = match self.read(1) {
                Some(b) => b,
                None => return None,
            };
            proof {
                crate::bits::lemma_bits_value_one(d, p0 + zeros);
            }
            if b != 0 {
                break;
            }
            zeros += 1;
            if zeros > 32 {
                return None;
            }
        }
        assert(ue_zeros(d, p0, zeros as nat) == Some(zeros as nat));
        if zeros == 0 {
            return Some(0);
        }
        let rest = match self.read(zeros) {
            Some(v) => v,
            None => return None,
        };
        proof {
            vstd::bits::lemma_u64_pow2_no_overflow(zeros as nat);
            vstd::bits::lemma_u64_shl_is_mul(1u64, zeros as u64);
            lemma_bits_value_bound(d, p0 + zeros + 1, zeros as nat);
            vstd::arithmetic::power2::lemma2_to64();
            if zeros < 32 {
                vstd::arithmetic::power2::lemma_pow2_strictly_increases(zeros as nat, 32);
            }
            assert(rest == bits_value(d, p0 + zeros + 1, zeros as nat));
        }
        let v: u64 = (1u64 << (zeros as u64)) - 1 + rest as u64;
        if v > 0xFFFF_FFFF {
            return None;
        }
        Some(v as u32)
    }
}

} // verus!
