//! Big-endian (MSB-first) bit access over byte strings.
use vstd::prelude::*;

verus! {

/// The bit at absolute bit position `pos` (MSB of byte 0 is position 0).
pub open spec fn bit_at(data: Seq<u8>, pos: int) -> u8 {
    byte_bit(data[pos / 8], (7 - pos % 8) as u8)
}

/// Bit number `k` (0 = least significant) of `byte`.
pub open spec fn byte_bit(byte: u8, k: u8) -> u8 {
    (byte >> k) & 1u8
}

pub proof fn lemma_byte_bit_le_1(byte: u8, k: u8)
    ensures
        byte_bit(byte, k) <= 1,
{
    assert((byte >> k) & 1u8 <= 1) by (bit_vector);
}

/// The unsigned value of the `n` bits that start at bit position `off`,
/// most significant bit first.
pub open spec fn bits_value(data: Seq<u8>, off: int, n: nat) -> nat
    decreases n,
{
    if n == 0 {
        0
    } else {
        2 * bits_value(data, off, (n - 1) as nat) + bit_at(data, off + n - 1) as nat
    }
}

/// Whether the `n` bits that start at `off` lie inside `data`.
pub open spec fn bits_fit(data: Seq<u8>, off: int, n: nat) -> bool {
    0 <= off && off + n <= 8 * data.len()
}

pub proof fn lemma_bits_value_bound(data: Seq<u8>, off: int, n: nat)
    ensures
        bits_value(data, off, n) < vstd::arithmetic::power2::pow2(n),
    decreases n,
{
    vstd::arithmetic::power2::lemma_pow2_pos(n);
    if n > 0 {
        lemma_bits_value_bound(data, off, (n - 1) as nat);
        vstd::arithmetic::power2::lemma_pow2_unfold(n);
        lemma_byte_bit_le_1(data[(off + n - 1) / 8], (7 - (off + n - 1) % 8) as u8);
    }
}

pub proof fn lemma_bits_value_one(data: Seq<u8>, off: int)
    ensures
        bits_value(data, off, 1) == bit_at(data, off) as nat,
        bit_at(data, off) <= 1,
{
    reveal_with_fuel(bits_value, 2);
    lemma_byte_bit_le_1(data[off / 8], (7 - off % 8) as u8);
}

/// Shifting one more bit into an accumulator of fewer than 32 bits.
pub proof fn lemma_shift_in(v: u64, b: u8)
    requires
        v < 0x8000_0000,
        b <= 1,
    ensures
        (v << 1u64) | (b as u64) == 2 * v + b,
        2 * v + b < 0x1_0000_0000,
{
    assert((v << 1u64) | (b as u64) == 2 * v + b) by (bit_vector)
        requires
            v < 0x8000_0000,
            b <= 1,
    ;
}

/// Reads one bit, as the code does it.
pub fn read_bit(data: &[u8], pos: usize) -> (b: u8)
    requires
        pos < 8 * data@.len(),
    ensures
        b == bit_at(data@, pos as int),
        b <= 1,
{
    let byte = data[pos / 8];
    proof {
        lemma_byte_bit_le_1(byte, (7 - pos % 8) as u8);
    }
    (byte >> (7 - (pos % 8)) as u8) & 1
}

} // verus!
