//! The CRC-16 that protects headers and navigation tables: polynomial
//! `x^16 + x^12 + x^5 + 1`, initial value all ones, most significant bit first.

use vstd::prelude::*;

verus! {

/// The register after one more zero bit.
pub open spec fn crc_shift(crc: u16) -> u16 {
    if crc & 0x8000 != 0 { (crc << 1) ^ 0x1021 } else { crc << 1 }
}

/// The register after `n` more zero bits.
pub open spec fn crc_shifts(crc: u16, n: int) -> u16
    decreases n,
{
    if n <= 0 { crc } else { crc_shift(crc_shifts(crc, n - 1)) }
}

/// The register after one more byte.
pub open spec fn crc_byte(crc: u16, byte: u8) -> u16 {
    crc_shifts(crc ^ ((byte as u16) << 8), 8)
}

/// The register after all of `data`.
pub open spec fn crc_of(data: Seq<u8>) -> u16
    decreases data.len(),
{
    if data.len() == 0 {
        0xffff
    } else {
        crc_byte(crc_of(data.drop_last()), data.last())
    }
}

pub fn crc16_ccitt(data: &[u8]) -> (r: u16)
    ensures
        r == crc_of(data@),
{
    let mut crc: u16 = 0xffff;
    let mut i: usize = 0;
    assert(data@.take(0) =~= Seq::empty());
    while i < data.len()
        invariant
            i <= data@.len(),
            crc == crc_of(data@.take(i as int)),
        decreases data@.len() - i,
    {
        let ghost before = crc;
        let mixed: u16 = crc ^ ((data[i] as u16) << 8);
        crc = mixed;
        let mut bit: u32 = 0;
        while bit < 8
            invariant
                bit <= 8,
                crc == crc_shifts(mixed, bit as int),
            decreases 8 - bit,
        {
            crc = if crc & 0x8000 != 0 { (crc << 1) ^ 0x1021 } else { crc << 1 };
            bit = bit + 1;
        }
        assert(data@.take(i + 1).drop_last() =~= data@.take(i as int));
        i = i + 1;
    }
    assert(data@.take(i as int) =~= data@);
    crc
}

/// Running the register over its own two bytes clears it.
proof fn lemma_crc_cancels(crc: u16)
    ensures
        crc_byte(crc_byte(crc, (crc >> 8) as u8), (crc & 0xff) as u8) == 0,
{
    reveal_with_fuel(crc_shifts, 9);
    let high = (crc >> 8) as u8;
    let low = (crc & 0xff) as u8;
    let v = crc ^ ((high as u16) << 8);
    assert(v < 256 && v == low as u16) by (bit_vector)
        requires
            high == (crc >> 8) as u8,
            low == (crc & 0xff) as u8,
            v == crc ^ ((high as u16) << 8),
    ;
    assert(crc_shift(
        crc_shift(crc_shift(crc_shift(crc_shift(crc_shift(crc_shift(crc_shift(v))))))),
    ) ^ (v << 8) == 0) by (bit_vector)
        requires
            v < 256,
    ;
    let w: u16 = 0;
    assert(crc_shift(w) == 0) by (bit_vector)
        requires
            w == 0,
    ;
}

/// Data with its own CRC appended, high byte first, has CRC zero.
pub proof fn appended_crc_gives_zero(data: Seq<u8>)
    ensures
        crc_of(data.push((crc_of(data) >> 8) as u8).push((crc_of(data) & 0xff) as u8)) == 0,
{
    let crc = crc_of(data);
    let high = (crc >> 8) as u8;
    let low = (crc & 0xff) as u8;
    let one = data.push(high);
    let two = one.push(low);
    assert(one.drop_last() =~= data);
    assert(two.drop_last() =~= one);
    assert(crc_of(one) == crc_byte(crc, high));
    assert(crc_of(two) == crc_byte(crc_of(one), low));
    lemma_crc_cancels(crc);
}

} // verus!
