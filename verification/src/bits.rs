//! MSB-first bit fields: the mathematical model, and the reader that
//! every parser of the crate is stated over.

use vstd::prelude::*;

verus! {

/// The bit at index `i` of `data`, most significant bit of byte 0 first.
pub open spec fn bit_at(data: Seq<u8>, i: int) -> int {
    ((data[i / 8] >> ((7 - i % 8) as u8)) & 1) as int
}

/// The unsigned value of the `n` bits that start at bit `pos`.
pub open spec fn field(data: Seq<u8>, pos: int, n: int) -> int
    decreases n,
{
    if n <= 0 {
        0
    } else {
        2 * field(data, pos, n - 1) + bit_at(data, pos + n - 1)
    }
}

/// Number of values an `n`-bit field can take, for `n` up to 32.
pub open spec fn code_space(n: int) -> int {
    if n <= 0 { 1 }
    else if n == 1 { 2 }
    else if n == 2 { 4 }
    else if n == 3 { 8 }
    else if n == 4 { 16 }
    else if n == 5 { 32 }
    else if n == 6 { 64 }
    else if n == 7 { 128 }
    else if n == 8 { 256 }
    else if n == 9 { 0x200 }
    else if n == 10 { 0x400 }
    else if n == 11 { 0x800 }
    else if n == 12 { 0x1000 }
    else if n == 13 { 0x2000 }
    else if n == 14 { 0x4000 }
    else if n == 15 { 0x8000 }
    else if n == 16 { 0x1_0000 }
    else if n == 17 { 0x2_0000 }
    else if n == 18 { 0x4_0000 }
    else if n == 19 { 0x8_0000 }
    else if n == 20 { 0x10_0000 }
    else if n == 21 { 0x20_0000 }
    else if n == 22 { 0x40_0000 }
    else if n == 23 { 0x80_0000 }
    else if n == 24 { 0x100_0000 }
    else if n == 25 { 0x200_0000 }
    else if n == 26 { 0x400_0000 }
    else if n == 27 { 0x800_0000 }
    else if n == 28 { 0x1000_0000 }
    else if n == 29 { 0x2000_0000 }
    else if n == 30 { 0x4000_0000 }
    else if n == 31 { 0x8000_0000 }
    else { 0x1_0000_0000 }
}

/// The two's-complement value of the `n` bits that start at bit `pos`.
pub open spec fn signed_field(data: Seq<u8>, pos: int, n: int) -> int {
    let v = field(data, pos, n);
    if v >= code_space(n - 1) { v - code_space(n) } else { v }
}

/// A one-bit field as a boolean.
pub open spec fn flag(data: Seq<u8>, pos: int) -> bool {
    field(data, pos, 1) != 0
}

/// The smallest multiple of `n` that is not below `pos`.
pub open spec fn aligned(pos: int, n: int) -> int {
    if pos % n == 0 { pos } else { pos + (n - pos % n) }
}

/// Powers of two by shifting agree with the code space.
pub proof fn lemma_one_shifted(n: u32)
    requires
        n < 32,
    ensures
        (1u32 << n) as int == code_space(n as int),
{
    assert(n < 32 ==> (1u32 << n) == (if n == 0 { 1u32 } else if n == 1 { 2 } else if n == 2 { 4 }
        else if n == 3 { 8 } else if n == 4 { 16 } else if n == 5 { 32 } else if n == 6 { 64 }
        else if n == 7 { 128 } else if n == 8 { 256 } else if n == 9 { 0x200 }
        else if n == 10 { 0x400 } else if n == 11 { 0x800 } else if n == 12 { 0x1000 }
        else if n == 13 { 0x2000 } else if n == 14 { 0x4000 } else if n == 15 { 0x8000 }
        else if n == 16 { 0x1_0000 } else if n == 17 { 0x2_0000 } else if n == 18 { 0x4_0000 }
        else if n == 19 { 0x8_0000 } else if n == 20 { 0x10_0000 } else if n == 21 { 0x20_0000 }
        else if n == 22 { 0x40_0000 } else if n == 23 { 0x80_0000 } else if n == 24 { 0x100_0000 }
        else if n == 25 { 0x200_0000 } else if n == 26 { 0x400_0000 } else if n == 27 { 0x800_0000 }
        else if n == 28 { 0x1000_0000 } else if n == 29 { 0x2000_0000 }
        else if n == 30 { 0x4000_0000 } else { 0x8000_0000 })) by (bit_vector);
}

pub proof fn lemma_bit_range(data: Seq<u8>, i: int)
    ensures
        bit_at(data, i) == 0 || bit_at(data, i) == 1,
{
    let b = data[i / 8];
    let s = (7 - i % 8) as u8;
    assert(((b >> s) & 1) == 0 || ((b >> s) & 1) == 1) by (bit_vector);
}

/// A field stays inside its code space.
pub proof fn lemma_field_range(data: Seq<u8>, pos: int, n: int)
    requires
        n <= 32,
    ensures
        0 <= field(data, pos, n) < code_space(n),
    decreases n,
{
    if n > 0 {
        lemma_field_range(data, pos, n - 1);
        lemma_bit_range(data, pos + n - 1);
    }
}

/// Bit `i` of a mask.
pub open spec fn has_bit(mask: u32, i: int) -> bool {
    (mask >> (i as u32)) & 1 == 1
}

pub fn test_bit(mask: u32, i: u32) -> (r: bool)
    requires
        i < 32,
    ensures
        r == has_bit(mask, i as int),
{
    (mask >> i) & 1 == 1
}

/// Set bits among the lowest `n` of a mask.
pub open spec fn ones_below(mask: u32, n: int) -> int
    decreases n,
{
    if n <= 0 {
        0
    } else {
        ones_below(mask, n - 1) + if has_bit(mask, n - 1) { 1int } else { 0int }
    }
}

/// Set bits of a mask.
pub open spec fn ones(mask: u32) -> int {
    ones_below(mask, 32)
}

pub fn count_ones(mask: u32) -> (r: usize)
    ensures
        r == ones(mask),
        r <= 32,
{
    let mut count: usize = 0;
    let mut i: u32 = 0;
    while i < 32
        invariant
            i <= 32,
            count <= i,
            count == ones_below(mask, i as int),
        decreases 32 - i,
    {
        if test_bit(mask, i) {
            count = count + 1;
        }
        i = i + 1;
    }
    count
}

/// Dividing twice, rounding down each time, rounds down once.
pub proof fn lemma_floor_halves(v: int, d: int)
    requires
        d > 0,
    ensures
        (v / d) / 2 == v / (2 * d),
{
    let q = v / d;
    let r = v % d;
    let h = q / 2;
    let b = q % 2;
    vstd::arithmetic::div_mod::lemma_fundamental_div_mod(v, d);
    assert(v == h * (2 * d) + (d * b + r)) by (nonlinear_arith)
        requires
            v == d * q + r,
            q == 2 * h + b,
    ;
    assert(0 <= d * b + r < 2 * d) by (nonlinear_arith)
        requires
            0 <= r < d,
            b == 0 || b == 1,
    ;
    vstd::arithmetic::div_mod::lemma_fundamental_div_mod_converse(v, 2 * d, h, d * b + r);
}

proof fn lemma_shift_is_division(v: i64, n: u32)
    requires
        n <= 32,
    ensures
        (v >> n) as int == v as int / code_space(n as int),
    decreases n,
{
    if n == 0 {
        assert(v >> 0u32 == v) by (bit_vector);
    } else {
        let m: u32 = (n - 1) as u32;
        lemma_shift_is_division(v, m);
        assert(v >> n == (v >> m) / 2) by (bit_vector)
            requires
                n == m + 1,
                m < 32,
        ;
        lemma_floor_halves(v as int, code_space(m as int));
    }
}

/// `v / 2^n`, rounded toward minus infinity.
pub fn shift_right(v: i64, n: u32) -> (r: i64)
    requires
        n <= 32,
    ensures
        r as int == v as int / code_space(n as int),
{
    proof {
        lemma_shift_is_division(v, n);
    }
    v >> n
}

/// `2^n` as a machine number.
pub fn power_of_two(n: u32) -> (r: i64)
    requires
        n < 32,
    ensures
        r == code_space(n as int),
{
    proof {
        lemma_one_shifted(n);
    }
    (1u32 << n) as i64
}

/// Zero bits before the first one among the `n` bits from `p` on.
pub open spec fn zero_run(data: Seq<u8>, p: int, n: int) -> int
    decreases n,
{
    if n <= 0 || bit_at(data, p) == 1 {
        0
    } else {
        1 + zero_run(data, p + 1, n - 1)
    }
}

/// The unary code at `p`, looked for in at most `most` bits, and the position
/// after it: past the one that ends it, or where the search stopped.
pub open spec fn unary(data: Seq<u8>, lim: int, p: int, most: int) -> (int, int) {
    let n = if lim <= p { 0 } else if lim - p < most { lim - p } else { most };
    let z = zero_run(data, p, n);
    (z, if z < n { p + z + 1 } else { p + n })
}

proof fn lemma_zero_run(data: Seq<u8>, p: int, k: int, n: int)
    requires
        0 <= k <= n,
        forall|j: int| p <= j < p + k ==> #[trigger] bit_at(data, j) == 0,
    ensures
        zero_run(data, p, n) == k + zero_run(data, p + k, n - k),
    decreases k,
{
    if k > 0 {
        assert(bit_at(data, p) == 0);
        lemma_zero_run(data, p + 1, k - 1, n - 1);
    }
}

/// MSB-first cursor over the first `bit_size` bits of `data`.
#[derive(Clone, Copy)]
pub struct BitReader<'a> {
    data: &'a [u8],
    bit_size: usize,
    bit_pos: usize,
}

impl<'a> BitReader<'a> {
    pub closed spec fn data(&self) -> Seq<u8> {
        self.data@
    }

    pub closed spec fn limit(&self) -> int {
        self.bit_size as int
    }

    pub closed spec fn pos(&self) -> int {
        self.bit_pos as int
    }

    /// The limit never reaches past the last byte.
    pub open spec fn wf(&self) -> bool {
        &&& 0 <= self.limit() <= 8 * self.data().len()
        &&& 8 * self.data().len() <= usize::MAX
        &&& 0 <= self.pos() <= usize::MAX
    }

    /// Same bytes under the same limit, wherever the cursor stands.
    pub open spec fn same_source(&self, other: &BitReader) -> bool {
        &&& self.data() == other.data()
        &&& self.limit() == other.limit()
    }

    /// `n` more bits stand before the limit.
    pub open spec fn has(&self, n: int) -> bool {
        self.pos() + n <= self.limit()
    }

    pub fn new(data: &'a [u8]) -> (r: Self)
        requires
            8 * data@.len() <= usize::MAX,
        ensures
            r.wf(),
            r.data() == data@,
            r.limit() == 8 * data@.len(),
            r.pos() == 0,
    {
        BitReader { data, bit_size: data.len() * 8, bit_pos: 0 }
    }

    pub fn with_offset(data: &'a [u8], bit_pos: usize) -> (r: Self)
        requires
            8 * data@.len() <= usize::MAX,
        ensures
            r.wf(),
            r.data() == data@,
            r.limit() == 8 * data@.len(),
            r.pos() == bit_pos,
    {
        BitReader { data, bit_size: data.len() * 8, bit_pos }
    }

    pub fn position(&self) -> (r: usize)
        ensures
            r == self.pos(),
    {
        self.bit_pos
    }

    /// Move the limit to `bit_size`, or to the end of the bytes if that comes
    /// first; a cursor past the new limit moves back to it.
    pub fn set_limit_bits(&mut self, bit_size: usize)
        requires
            old(self).wf(),
        ensures
            final(self).wf(),
            final(self).data() == old(self).data(),
            final(self).limit() == if bit_size <= 8 * old(self).data().len() {
                bit_size as int
            } else {
                8 * old(self).data().len() as int
            },
            final(self).pos() == if old(self).pos() > final(self).limit() {
                final(self).limit()
            } else {
                old(self).pos()
            },
    {
        let all: usize = self.data.len() * 8;
        self.bit_size = if bit_size < all { bit_size } else { all };
        if self.bit_pos > self.bit_size {
            self.bit_pos = self.bit_size;
        }
    }

    pub fn bits_left(&self, bits: usize) -> (r: bool)
        ensures
            r == self.has(bits as int),
    {
        bits <= self.bit_size && self.bit_pos <= self.bit_size - bits
    }

    pub fn remaining(&self) -> (r: usize)
        ensures
            r == if self.pos() < self.limit() { self.limit() - self.pos() } else { 0 },
    {
        if self.bit_pos < self.bit_size { self.bit_size - self.bit_pos } else { 0 }
    }

    /// Read an unsigned field of at most 32 bits. An empty field is zero
    /// wherever the cursor stands.
    pub fn read_bits(&mut self, bits: usize) -> (r: Option<u32>)
        requires
            old(self).wf(),
        ensures
            final(self).wf(),
            final(self).same_source(old(self)),
            match r {
                Some(v) => {
                    &&& bits <= 32
                    &&& bits == 0 || old(self).has(bits as int)
                    &&& v as int == field(old(self).data(), old(self).pos(), bits as int)
                    &&& (v as int) < code_space(bits as int)
                    &&& final(self).pos() == old(self).pos() + bits
                },
                None => {
                    &&& bits > 0
                    &&& bits > 32 || !old(self).has(bits as int)
                    &&& final(self).pos() == old(self).pos()
                },
            },
    {
        if bits == 0 {
            return Some(0);
        }
        if bits > 32 || !self.bits_left(bits) {
            return None;
        }
        let mut value: u32 = 0;
        let mut done: usize = 0;
        while done < bits
            invariant
                done <= bits <= 32,
                self.wf(),
                self.same_source(old(self)),
                self.pos() == old(self).pos() + done,
                old(self).has(bits as int),
                value as int == field(old(self).data(), old(self).pos(), done as int),
            decreases bits - done,
        {
            let byte: u8 = self.data[self.bit_pos / 8];
            let shift: u8 = (7 - self.bit_pos % 8) as u8;
            let bit: u8 = (byte >> shift) & 1;
            proof {
                lemma_field_range(old(self).data(), old(self).pos(), done as int);
                lemma_bit_range(old(self).data(), old(self).pos() + done);
                assert(bit as int == bit_at(old(self).data(), old(self).pos() + done));
            }
            value = value * 2 + bit as u32;
            self.bit_pos = self.bit_pos + 1;
            done = done + 1;
        }
        proof {
            lemma_field_range(old(self).data(), old(self).pos(), bits as int);
        }
        Some(value)
    }

    /// The field that [`BitReader::read_bits`] would read, without moving.
    pub fn show_bits(&self, bits: usize) -> (r: Option<u32>)
        requires
            self.wf(),
        ensures
            match r {
                Some(v) => {
                    &&& bits <= 32
                    &&& bits == 0 || self.has(bits as int)
                    &&& v as int == field(self.data(), self.pos(), bits as int)
                    &&& (v as int) < code_space(bits as int)
                },
                None => bits > 0 && (bits > 32 || !self.has(bits as int)),
            },
    {
        let mut copy: BitReader = *self;
        copy.read_bits(bits)
    }

    pub fn read_bit(&mut self) -> (r: Option<bool>)
        requires
            old(self).wf(),
        ensures
            final(self).wf(),
            final(self).same_source(old(self)),
            match r {
                Some(v) => {
                    &&& old(self).has(1)
                    &&& v == flag(old(self).data(), old(self).pos())
                    &&& final(self).pos() == old(self).pos() + 1
                },
                None => !old(self).has(1) && final(self).pos() == old(self).pos(),
            },
    {
        match self.read_bits(1) {
            Some(v) => Some(v != 0),
            None => None,
        }
    }

    /// Read a two's-complement field of 1 to 31 bits.
    pub fn read_signed_bits(&mut self, bits: usize) -> (r: Option<i32>)
        requires
            old(self).wf(),
        ensures
            final(self).wf(),
            final(self).same_source(old(self)),
            match r {
                Some(v) => {
                    &&& 1 <= bits <= 31
                    &&& old(self).has(bits as int)
                    &&& v as int == signed_field(old(self).data(), old(self).pos(), bits as int)
                    &&& -code_space(bits - 1) <= v < code_space(bits - 1)
                    &&& final(self).pos() == old(self).pos() + bits
                },
                None => {
                    &&& bits == 0 || bits > 31 || !old(self).has(bits as int)
                    &&& final(self).pos() == old(self).pos()
                },
            },
    {
        if bits == 0 || bits > 31 {
            return None;
        }
        match self.read_bits(bits) {
            Some(v) => {
                let half: u32 = 1u32 << ((bits - 1) as u32);
                proof {
                    lemma_one_shifted((bits - 1) as u32);
                }
                if v >= half {
                    Some((v as i64 - 2 * (half as i64)) as i32)
                } else {
                    Some(v as i32)
                }
            },
            None => None,
        }
    }

    pub fn skip_bits(&mut self, bits: usize) -> (r: Option<()>)
        requires
            old(self).wf(),
        ensures
            final(self).wf(),
            final(self).same_source(old(self)),
            r is Some == old(self).has(bits as int),
            final(self).pos() == if r is Some { old(self).pos() + bits } else { old(self).pos() },
    {
        if self.bits_left(bits) {
            self.bit_pos = self.bit_pos + bits;
            Some(())
        } else {
            None
        }
    }

    /// Advance the cursor to the next multiple of `n` bits. The cursor may
    /// pass the limit; the next read then fails.
    pub fn align_bits(&mut self, n: usize)
        requires
            old(self).wf(),
            n > 0,
            old(self).pos() + n <= usize::MAX,
        ensures
            final(self).wf(),
            final(self).same_source(old(self)),
            final(self).pos() == aligned(old(self).pos(), n as int),
    {
        let rem: usize = self.bit_pos % n;
        if rem != 0 {
            self.bit_pos = self.bit_pos + (n - rem);
        }
    }

    /// Move to an absolute bit position; false, without moving, past the limit.
    pub fn seek(&mut self, pos: usize) -> (r: bool)
        requires
            old(self).wf(),
        ensures
            final(self).wf(),
            final(self).same_source(old(self)),
            r == (pos <= old(self).limit()),
            final(self).pos() == if r { pos as int } else { old(self).pos() },
    {
        if pos > self.bit_size {
            return false;
        }
        self.bit_pos = pos;
        true
    }

    /// Read a unary code: the zeros before the next one, which is consumed.
    /// Without a one in the next `most` bits the bits looked at are consumed.
    pub fn get_unary(&mut self, most: usize) -> (r: usize)
        requires
            old(self).wf(),
        ensures
            final(self).wf(),
            final(self).same_source(old(self)),
            (r as int, final(self).pos()) == unary(
                old(self).data(),
                old(self).limit(),
                old(self).pos(),
                most as int,
            ),
            r <= most,
    {
        let left: usize = self.remaining();
        let n: usize = if left < most { left } else { most };
        let mut count: usize = 0;
        while count < n
            invariant
                count <= n <= most,
                self.wf(),
                self.same_source(old(self)),
                self.pos() == old(self).pos() + count,
                n == if old(self).limit() <= old(self).pos() {
                    0
                } else if old(self).limit() - old(self).pos() < most {
                    old(self).limit() - old(self).pos()
                } else {
                    most as int
                },
                forall|j: int|
                    old(self).pos() <= j < old(self).pos() + count ==> #[trigger] bit_at(
                        old(self).data(),
                        j,
                    ) == 0,
            decreases n - count,
        {
            let byte: u8 = self.data[self.bit_pos / 8];
            let shift: u8 = (7 - self.bit_pos % 8) as u8;
            let bit: u8 = (byte >> shift) & 1;
            proof {
                lemma_bit_range(old(self).data(), old(self).pos() + count);
                assert(bit as int == bit_at(old(self).data(), old(self).pos() + count));
            }
            self.bit_pos = self.bit_pos + 1;
            if bit == 1 {
                proof {
                    lemma_zero_run(old(self).data(), old(self).pos(), count as int, n as int);
                }
                return count;
            }
            count = count + 1;
        }
        proof {
            lemma_zero_run(old(self).data(), old(self).pos(), n as int, n as int);
        }
        count
    }

    /// [`BitReader::skip_bits`], under the name used for byte-sized runs.
    pub fn skip_bits_long(&mut self, bits: usize) -> (r: Option<()>)
        requires
            old(self).wf(),
        ensures
            final(self).wf(),
            final(self).same_source(old(self)),
            r is Some == old(self).has(bits as int),
            final(self).pos() == if r is Some { old(self).pos() + bits } else { old(self).pos() },
    {
        self.skip_bits(bits)
    }
}

} // verus!
