//! MSB-first bit writer, the inverse of [`crate::bits::BitReader`].

use vstd::prelude::*;
use crate::bits::{bit_at, code_space, field};

verus! {

/// The lowest `n` bits of `value`, highest first.
pub open spec fn bits_of(value: u32, n: int) -> Seq<int> {
    Seq::new(n as nat, |k: int| ((value >> ((n - 1 - k) as u32)) & 1) as int)
}

/// `d` holds `bits` and zeros up to its end, and no byte more than they need.
pub open spec fn packed(d: Seq<u8>, bits: Seq<int>) -> bool {
    &&& d.len() == (bits.len() + 7) / 8
    &&& forall|i: int| 0 <= i < bits.len() ==> #[trigger] bit_at(d, i) == bits[i]
    &&& forall|i: int| bits.len() <= i < 8 * d.len() ==> #[trigger] bit_at(d, i) == 0
}

/// Collects fields of at most 32 bits.
pub struct BitWriter {
    bytes: Vec<u8>,
    cur: u8,
    nbits: u8,
}

impl View for BitWriter {
    type V = Seq<int>;

    closed spec fn view(&self) -> Seq<int> {
        let whole = 8 * self.bytes@.len();
        Seq::new(
            whole + self.nbits as nat,
            |i: int|
                if i < whole {
                    bit_at(self.bytes@, i)
                } else {
                    ((self.cur >> ((self.nbits - 1 - (i - whole)) as u8)) & 1) as int
                },
        )
    }
}

impl BitWriter {
    pub closed spec fn inv(&self) -> bool {
        self.nbits < 8
    }

    pub fn new() -> (r: Self)
        ensures
            r.inv(),
            r@ == Seq::<int>::empty(),
    {
        let r = BitWriter { bytes: Vec::new(), cur: 0, nbits: 0 };
        assert(r@ =~= Seq::<int>::empty());
        r
    }

    fn push_bit(&mut self, bit: u8)
        requires
            old(self).inv(),
            bit <= 1,
        ensures
            final(self).inv(),
            final(self)@ == old(self)@.push(bit as int),
    {
        let ghost whole = 8 * self.bytes@.len() as int;
        let ghost cur = self.cur;
        let ghost n = self.nbits;
        self.cur = (self.cur << 1) | bit;
        self.nbits = self.nbits + 1;
        proof {
            assert forall|j: u8| j < n implies ((self.cur >> sub_u8(n, j)) & 1) == #[trigger] ((cur
                >> sub_u8(sub_u8(n, 1), j)) & 1) by {
                let a = self.cur;
                assert((a >> ((n - j) as u8)) & 1 == (cur >> ((n - 1 - j) as u8)) & 1) by (bit_vector)
                    requires
                        j < n,
                        n < 8,
                        a == (cur << 1) | bit,
                        bit <= 1,
                ;
            }
            let a = self.cur;
            assert((a >> 0u8) & 1 == bit) by (bit_vector)
                requires
                    a == (cur << 1) | bit,
                    bit <= 1,
            ;
        }
        if self.nbits == 8 {
            self.bytes.push(self.cur);
            self.cur = 0;
            self.nbits = 0;
        }
        proof {
            let want = old(self)@.push(bit as int);
            assert(self@.len() == want.len());
            assert forall|i: int| 0 <= i < want.len() implies self@[i] == want[i] by {
                if whole <= i < whole + n {
                    let j = (i - whole) as u8;
                    assert(((cur >> sub_u8(sub_u8(n, 1), j)) & 1) == ((cur >> ((n - 1 - (i - whole)) as u8)) & 1));
                    if n == 7 {
                        assert(i / 8 == whole / 8);
                        assert(i % 8 == i - whole);
                    }
                } else if i == whole + n {
                    if n == 7 {
                        assert(i / 8 == whole / 8);
                        assert(i % 8 == 7);
                    }
                }
            }
            assert(self@ =~= want);
        }
    }

    /// Append the lowest `bits` bits of `value`.
    pub fn write(&mut self, bits: usize, value: u32)
        requires
            old(self).inv(),
            bits <= 32,
        ensures
            final(self).inv(),
            final(self)@ == old(self)@ + bits_of(value, bits as int),
    {
        let ghost want = bits_of(value, bits as int);
        let mut done: usize = 0;
        while done < bits
            invariant
                done <= bits <= 32,
                self.inv(),
                want == bits_of(value, bits as int),
                self@ == old(self)@ + want.subrange(0, done as int),
            decreases bits - done,
        {
            let shift: u32 = (bits - 1 - done) as u32;
            let bit: u32 = (value >> shift) & 1;
            assert(bit <= 1) by (bit_vector)
                requires
                    bit == (value >> shift) & 1,
            ;
            let ghost before = self@;
            self.push_bit(bit as u8);
            assert(want.subrange(0, done + 1) =~= want.subrange(0, done as int).push(want[done as int]));
            done = done + 1;
            assert(self@ =~= old(self)@ + want.subrange(0, done as int));
        }
        assert(want.subrange(0, bits as int) =~= want);
    }

    /// The bytes written, the last one filled up with zeros.
    pub fn finish(self) -> (r: Vec<u8>)
        requires
            self.inv(),
        ensures
            packed(r@, self@),
    {
        let ghost bits = self@;
        let ghost whole = 8 * self.bytes@.len() as int;
        let ghost held = self.bytes@;
        let cur: u8 = self.cur;
        let n: u8 = self.nbits;
        let mut bytes: Vec<u8> = self.bytes;
        if n > 0 {
            let room: u8 = 8 - n;
            let last: u8 = cur << room;
            bytes.push(last);
            proof {
                assert forall|i: int| whole <= i < whole + n implies #[trigger] bit_at(bytes@, i) == bits[i] by {
                    let j = (i - whole) as u8;
                    assert(i / 8 == whole / 8 && i % 8 == i - whole);
                    assert((last >> ((7 - j) as u8)) & 1 == (cur >> ((n - 1 - j) as u8)) & 1) by (bit_vector)
                        requires
                            0 < n < 8,
                            j < n,
                            room == 8 - n,
                            last == cur << room,
                    ;
                }
                assert forall|i: int| whole + n <= i < whole + 8 implies #[trigger] bit_at(bytes@, i) == 0 by {
                    let j = (i - whole) as u8;
                    assert(i / 8 == whole / 8 && i % 8 == i - whole);
                    assert((last >> ((7 - j) as u8)) & 1 == 0) by (bit_vector)
                        requires
                            0 < n < 8,
                            n <= j < 8,
                            room == 8 - n,
                            last == cur << room,
                    ;
                }
            }
        }
        assert forall|i: int| 0 <= i < whole implies #[trigger] bit_at(bytes@, i) == bits[i] by {
            assert(bytes@[i / 8] == held[i / 8]);
        }
        bytes
    }
}

spec fn sub_u8(a: u8, b: u8) -> u8 {
    (a - b) as u8
}

/// Doubling a number with its lowest bit taken apart.
proof fn lemma_halved(v: int, m: int)
    requires
        v >= 0,
        m > 0,
    ensures
        v % (2 * m) == 2 * ((v / 2) % m) + v % 2,
{
    let q = v / 2;
    let a = q / m;
    let r = q % m;
    assert(q == m * a + r) by {
        vstd::arithmetic::div_mod::lemma_fundamental_div_mod(q, m);
    }
    assert(v == (2 * m) * a + (2 * r + v % 2)) by (nonlinear_arith)
        requires
            q == m * a + r,
            v == 2 * q + v % 2,
    ;
    vstd::arithmetic::div_mod::lemma_fundamental_div_mod_converse(v, 2 * m, a, 2 * r + v % 2);
}

/// A field whose bits are those of a number has the number's value.
proof fn lemma_field_of_bits(d: Seq<u8>, p: int, value: u32, n: int)
    requires
        0 <= n <= 32,
        forall|k: int| 0 <= k < n ==> #[trigger] bit_at(d, p + k) == bits_of(value, n)[k],
    ensures
        field(d, p, n) == value as int % code_space(n),
    decreases n,
{
    if n > 0 {
        let half = value >> 1;
        assert(half == value / 2 && value & 1 == value % 2) by (bit_vector)
            requires
                half == value >> 1,
        ;
        assert forall|k: int| 0 <= k < n - 1 implies #[trigger] bit_at(d, p + k) == bits_of(
            half,
            n - 1,
        )[k] by {
            let s = (n - 2 - k) as u32;
            assert(bit_at(d, p + k) == bits_of(value, n)[k]);
            assert((value >> ((s + 1) as u32)) & 1 == ((value >> 1) >> s) & 1) by (bit_vector)
                requires
                    s <= 30,
            ;
        }
        lemma_field_of_bits(d, p, half, n - 1);
        assert(bit_at(d, p + (n - 1)) == bits_of(value, n)[n - 1]);
        assert((value >> 0u32) & 1 == value & 1) by (bit_vector);
        assert(code_space(n) == 2 * code_space(n - 1));
        lemma_halved(value as int, code_space(n - 1));
    } else {
        assert(value as int % 1 == 0);
    }
}

/// A field reads back as what was written there, whatever was written before
/// and after it.
pub proof fn reads_back_what_was_written(
    d: Seq<u8>,
    before: Seq<int>,
    value: u32,
    n: int,
    after: Seq<int>,
)
    requires
        0 <= n <= 32,
        packed(d, before + bits_of(value, n) + after),
    ensures
        field(d, before.len() as int, n) == value as int % code_space(n),
{
    let all = before + bits_of(value, n) + after;
    let p = before.len() as int;
    assert forall|k: int| 0 <= k < n implies #[trigger] bit_at(d, p + k) == bits_of(value, n)[k] by {
        assert(bit_at(d, p + k) == all[p + k]);
    }
    lemma_field_of_bits(d, p, value, n);
}

} // verus!
