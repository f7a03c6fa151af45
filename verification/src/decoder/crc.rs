//! CRC-16 with the CCITT polynomial `0x1021`, initial value zero, most
//! significant bit first.

use vstd::prelude::*;

use crate::decoder::Decoder;

verus! {

/// The CCITT generator polynomial, without its leading term.
pub const CRC16_POLY: u16 = 0x1021;

/// One shift of the CRC register: the top bit leaves, and the polynomial is
/// added when that bit was set.
pub open spec fn crc16_shift(reg: u16) -> u16 {
    if reg & 0x8000 != 0 {
        (reg << 1) ^ CRC16_POLY
    } else {
        reg << 1
    }
}

/// `n` shifts of the CRC register.
pub open spec fn crc16_shifts(reg: u16, n: nat) -> u16
    decreases n,
{
    if n == 0 {
        reg
    } else {
        crc16_shifts(crc16_shift(reg), (n - 1) as nat)
    }
}

/// The register after one more byte: the byte is added to the high half,
/// then the register is shifted eight times.
pub open spec fn crc16_byte(crc: u16, byte: u8) -> u16 {
    crc16_shifts(crc ^ ((byte as u16) << 8), 8)
}

/// The CRC of `data`.
pub open spec fn crc16_of(data: Seq<u8>) -> u16
    decreases data.len(),
{
    if data.len() == 0 {
        0
    } else {
        crc16_byte(crc16_of(data.drop_last()), data.last())
    }
}

/// Eight shifts, written out.
proof fn lemma_eight_shifts(reg: u16)
    ensures
        crc16_shifts(reg, 8) == crc16_shift(
            crc16_shift(
                crc16_shift(
                    crc16_shift(crc16_shift(crc16_shift(crc16_shift(crc16_shift(reg))))),
                ),
            ),
        ),
{
    reveal_with_fuel(crc16_shifts, 9);
}

/// Data followed by its own CRC, high byte first, has the CRC zero: the
/// register is empty once it has taken in the two bytes that it held.
pub proof fn lemma_crc16_residue(data: Seq<u8>, high: u8, low: u8)
    requires
        crc16_of(data) == ((high as u16) << 8) | (low as u16),
    ensures
        crc16_of(data.push(high).push(low)) == 0,
{
    let crc = crc16_of(data);
    let first = data.push(high);
    let both = first.push(low);
    assert(first.drop_last() == data);
    assert(both.drop_last() == first);
    let after_high = crc16_byte(crc, high);
    assert(crc16_of(first) == after_high);
    lemma_eight_shifts(crc ^ ((high as u16) << 8));
    lemma_eight_shifts(after_high ^ ((low as u16) << 8));
    let reg = crc ^ ((high as u16) << 8);
    assert(reg == low as u16) by (bit_vector)
        requires
            crc == ((high as u16) << 8) | (low as u16),
            reg == crc ^ ((high as u16) << 8),
    ;
    assert(reg & 0xFF00 == 0 ==> crc16_shift(
        crc16_shift(
            crc16_shift(crc16_shift(crc16_shift(crc16_shift(crc16_shift(crc16_shift(reg)))))),
        ),
    ) == reg << 8) by (bit_vector);
    assert((low as u16) & 0xFF00 == 0) by (bit_vector);
    assert(after_high ^ ((low as u16) << 8) == 0) by (bit_vector)
        requires
            after_high == (low as u16) << 8,
    ;
    assert(crc16_shift(0) == 0) by (bit_vector);
}

/// One step of the bitwise form, which keeps the register and the rest of
/// the byte apart, agrees with one shift of the combined register.
proof fn lemma_bit_step(crc: u16, rest: u8)
    ensures
        ({
            let flip = ((crc & 0x8000) != 0) != ((rest & 0x80) != 0);
            let next: u16 = if flip {
                (crc << 1) ^ CRC16_POLY
            } else {
                crc << 1
            };
            next ^ (((rest << 1) as u16) << 8) == crc16_shift(crc ^ ((rest as u16) << 8))
        }),
{
    assert({
        let flip = ((crc & 0x8000) != 0) != ((rest & 0x80) != 0);
        let next: u16 = if flip {
            (crc << 1) ^ 0x1021u16
        } else {
            crc << 1
        };
        let reg: u16 = crc ^ ((rest as u16) << 8);
        let shifted: u16 = if reg & 0x8000 != 0 {
            (reg << 1) ^ 0x1021u16
        } else {
            reg << 1
        };
        next ^ (((rest << 1) as u16) << 8) == shifted
    }) by (bit_vector);
}

/// The low `n` bits of `b` are zero.
spec fn low_bits_clear(b: u8, n: u8) -> bool {
    (b as u16) & (((1u16 << n) - 1) as u16) == 0
}

/// Shifting a byte left clears one more of its low bits.
proof fn lemma_low_bits_step(b: u8, n: u8)
    requires
        n < 8,
        low_bits_clear(b, n),
    ensures
        low_bits_clear(b << 1, (n + 1) as u8),
{
    assert(n < 8 && (b as u16) & (((1u16 << n) - 1) as u16) == 0 ==> ((b << 1) as u16) & (((1u16
        << ((n + 1) as u8)) - 1) as u16) == 0) by (bit_vector);
}

/// Nothing is asked of a byte before the first shift, and a byte whose
/// eight bits are clear is zero.
proof fn lemma_low_bits_ends(b: u8)
    ensures
        low_bits_clear(b, 0),
        low_bits_clear(b, 8) ==> b == 0,
{
    assert((b as u16) & (((1u16 << 0u8) - 1) as u16) == 0) by (bit_vector);
    assert((b as u16) & (((1u16 << 8u8) - 1) as u16) == 0 ==> b == 0) by (bit_vector);
}

impl Decoder {
    /// Computes the CRC-16 of `data`, with polynomial `0x1021` and initial
    /// value zero.
    pub fn crc16(data: &[u8]) -> (crc: u16)
        ensures
            crc == crc16_of(data@),
    {
        let mut crc: u16 = 0x0000;
        let mut i: usize = 0;
        while i < data.len()
            invariant
                i <= data.len(),
                crc == crc16_of(data@.take(i as int)),
            decreases data.len() - i,
        {
            let mut new_byte: u8 = data[i];
            let ghost before = crc;
            let mut bit: u8 = 0;
            proof {
                lemma_low_bits_ends(new_byte);
            }
            while bit < 8
                invariant
                    bit <= 8,
                    i < data.len(),
                    low_bits_clear(new_byte, bit),
                    crc16_shifts(crc ^ ((new_byte as u16) << 8), (8 - bit) as nat) == crc16_byte(
                        before,
                        data@[i as int],
                    ),
                decreases 8 - bit,
            {
                proof {
                    lemma_bit_step(crc, new_byte);
                    lemma_low_bits_step(new_byte, bit);
                }
                if ((crc & 0x8000) != 0) != ((new_byte & 0x80) != 0) {
                    crc = (crc << 1) ^ CRC16_POLY;
                } else {
                    crc = crc << 1;
                }
                new_byte = new_byte << 1;
                bit += 1;
            }
            proof {
                lemma_low_bits_ends(new_byte);
                assert(crc ^ ((0u8 as u16) << 8) == crc) by (bit_vector);
                let done = data@.take(i + 1);
                assert(done.drop_last() == data@.take(i as int));
            }
            i += 1;
        }
        proof {
            assert(data@.take(data@.len() as int) == data@);
        }
        crc
    }
}

} // verus!
