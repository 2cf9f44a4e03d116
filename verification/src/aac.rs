//! AAC AudioSpecificConfig parser (ISO/IEC 14496-3, 1.6.2.1).
use vstd::prelude::*;
use crate::bits::{bits_value, bits_fit, lemma_bits_value_bound, lemma_shift_in, read_bit};

verus! {

/// The fields of an AudioSpecificConfig that the demuxer reports.
pub struct AacConfig {
    pub object_type: u8,
    pub sample_rate: u32,
    pub channels: u8,
}

/// Sampling frequencies by sampling-frequency index (0..=12).
pub const AAC_SAMPLE_RATES: [u32; 13] = [
    96000, 88200, 64000, 48000, 44100, 32000, 24000, 22050, 16000, 12000, 11025, 8000, 7350,
];

/// The value of `n` bits at `off`, read from `data`, as `read_bits` reports it:
/// `Some(0)` for `n == 0`, `None` for `n > 32` or bits past the end.
pub open spec fn read_bits_spec(data: Seq<u8>, off: int, n: nat) -> Option<u32> {
    if n == 0 {
        Some(0u32)
    } else if n > 32 || !bits_fit(data, off, n) {
        None
    } else {
        Some(bits_value(data, off, n) as u32)
    }
}

/// The AudioSpecificConfig of `d`: 5-bit object type (31 escapes to 32 + a
/// 6-bit value), 4-bit sampling-frequency index (15 escapes to a 24-bit
/// explicit rate, 13 and 14 are invalid), 4-bit channel configuration
/// (7 means 8 channels).
pub open spec fn asc_spec(d: Seq<u8>) -> Option<AacConfig> {
    if d.len() < 2 {
        None
    } else {
        let ot0: u8 = (d[0] >> 3u8) & 0x1Fu8;
        let ext = ot0 == 31;
        let object_type: u8 = if ext { (bits_value(d, 5, 6) + 32) as u8 } else { ot0 };
        let p1: int = if ext { 11 } else { 5 };
        if !bits_fit(d, p1, 4) {
            None
        } else {
            let sf = bits_value(d, p1, 4);
            let p2 = p1 + 4;
            if sf == 15 && !bits_fit(d, p2, 24) {
                None
            } else if sf != 15 && sf >= 13 {
                None
            } else {
                let sample_rate: u32 = if sf == 15 {
                    bits_value(d, p2, 24) as u32
                } else {
                    AAC_SAMPLE_RATES@[sf as int]
                };
                let p3 = if sf == 15 { p2 + 24 } else { p2 };
                if !bits_fit(d, p3, 4) {
                    None
                } else {
                    let cc = bits_value(d, p3, 4) as u8;
                    Some(
                        AacConfig {
                            object_type,
                            sample_rate,
                            channels: if cc == 7 { 8u8 } else { cc },
                        },
                    )
                }
            }
        }
    }
}

/// The two-byte AudioSpecificConfig of object type `ot` (below 31),
/// sampling-frequency index `sf` and channel configuration `ch`, padded
/// with zero bits.
pub open spec fn asc_bytes(ot: u8, sf: u8, ch: u8) -> Seq<u8> {
    seq![((ot << 3u8) | (sf >> 1u8)) as u8, (((sf & 1u8) << 7u8) | (ch << 3u8)) as u8]
}

/// A two-byte AudioSpecificConfig reads back as written: object type, the
/// table rate of its sampling-frequency index, and its channel count
/// (configuration 7 meaning 8 channels); reserved indexes 13 and 14 are
/// refused.
pub proof fn law_asc_fields(ot: u8, sf: u8, ch: u8)
    requires
        ot < 31,
        sf < 15,
        ch < 16,
    ensures
        asc_spec(asc_bytes(ot, sf, ch)) == if sf < 13 {
            Some(
                AacConfig {
                    object_type: ot,
                    sample_rate: AAC_SAMPLE_RATES@[sf as int],
                    channels: if ch == 7 { 8u8 } else { ch },
                },
            )
        } else {
            None::<AacConfig>
        },
{
    let d = asc_bytes(ot, sf, ch);
    let b0 = d[0];
    let b1 = d[1];
    reveal_with_fuel(bits_value, 5);
    assert((b0 >> 3u8) & 0x1Fu8 == ot) by (bit_vector)
        requires
            ot < 31,
            sf < 15,
            b0 == ((ot << 3u8) | (sf >> 1u8)) as u8,
    ;
    assert(8 * ((b0 >> 2u8) & 1u8) as nat + 4 * ((b0 >> 1u8) & 1u8) as nat + 2 * ((b0 >> 0u8)
        & 1u8) as nat + ((b1 >> 7u8) & 1u8) as nat == sf as nat) by (bit_vector)
        requires
            ot < 31,
            sf < 15,
            ch < 16,
            b0 == ((ot << 3u8) | (sf >> 1u8)) as u8,
            b1 == (((sf & 1u8) << 7u8) | (ch << 3u8)) as u8,
    ;
    assert(8 * ((b1 >> 6u8) & 1u8) as nat + 4 * ((b1 >> 5u8) & 1u8) as nat + 2 * ((b1 >> 4u8)
        & 1u8) as nat + ((b1 >> 3u8) & 1u8) as nat == ch as nat) by (bit_vector)
        requires
            sf < 15,
            ch < 16,
            b1 == (((sf & 1u8) << 7u8) | (ch << 3u8)) as u8,
    ;
    assert(bits_value(d, 5, 4) == sf as nat);
    assert(bits_value(d, 9, 4) == ch as nat);
}

/// Parses an AudioSpecificConfig; `None` when it is shorter than two bytes,
/// truncated, or names a reserved sampling-frequency index.
pub fn parse_audio_specific_config(data: &[u8]) -> (r: Option<AacConfig>)
    ensures
        r == asc_spec(data@),
{
    if data.len() < 2 {
        return None;
    }
    let mut object_type = (data[0] >> 3) & 0x1F;
    let mut bit_pos: usize = 5;

    if object_type == 31 {
        let v = match read_bits(data, bit_pos, 6) {
            Some(v) => v,
            None => return None,
        };
        proof {
            lemma_bits_value_bound(data@, 5, 6);
            vstd::arithmetic::power2::lemma2_to64();
        }
        bit_pos += 6;
        object_type = (v + 32) as u8;
    }
    let sf_index = match read_bits(data, bit_pos, 4) {
        Some(v) => v as usize,
        None => return None,
    };
    proof {
        lemma_bits_value_bound(data@, bit_pos as int, 4);
        vstd::arithmetic::power2::lemma2_to64();
    }
    bit_pos += 4;
    let sample_rate = if sf_index == 0x0F {
        let sr = match read_bits(data, bit_pos, 24) {
            Some(v) => v,
            None => return None,
        };
        bit_pos += 24;
        sr
    } else if sf_index < AAC_SAMPLE_RATES.len() {
        AAC_SAMPLE_RATES[sf_index]
    } else {
        return None;
    };
    let channel_config = match read_bits(data, bit_pos, 4) {
        Some(v) => v as u8,
        None => return None,
    };
    proof {
        lemma_bits_value_bound(data@, bit_pos as int, 4);
        vstd::arithmetic::power2::lemma2_to64();
    }
    let channels = if channel_config == 7 { 8 } else { channel_config };
    Some(AacConfig { object_type, sample_rate, channels })
}

/// Reads `n` bits, MSB first, starting at bit `bit_offset`.
fn read_bits(data: &[u8], bit_offset: usize, n: usize) -> (r: Option<u32>)
    requires
        bit_offset + n <= usize::MAX,
    ensures
        r == read_bits_spec(data@, bit_offset as int, n as nat),
{
    if n == 0 {
        return Some(0);
    }
    if n > 32 {
        return None;
    }
    let mut v: u64 = 0;
    let mut i: usize = 0;
    while i < n
        invariant
            0 < n <= 32,
            bit_offset + n <= usize::MAX,
            i <= n,
            i == 0 || bit_offset + i <= 8 * data@.len(),
            v == bits_value(data@, bit_offset as int, i as nat),
        decreases n - i,
    {
        let pos = bit_offset + i;
        if pos / 8 >= data.len() {
            return None;
        }
        let bit = read_bit(data, pos);
        proof {
            lemma_bits_value_bound(data@, bit_offset as int, i as nat);
            if i < 31 {
                vstd::arithmetic::power2::lemma_pow2_strictly_increases(i as nat, 31);
            }
            vstd::arithmetic::power2::lemma2_to64();
            lemma_shift_in(v, bit);
        }
        v = (v << 1) | (bit as u64);
        i += 1;
    }
    proof {
        lemma_bits_value_bound(data@, bit_offset as int, n as nat);
        if n < 32 {
            vstd::arithmetic::power2::lemma_pow2_strictly_increases(n as nat, 32);
        }
        vstd::arithmetic::power2::lemma2_to64();
    }
    Some(v as u32)
}

} // verus!
