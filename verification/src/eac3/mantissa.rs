//! Mantissas: how many bits a block's mantissas take, and what they decode to.

use vstd::prelude::*;
use crate::bits::{code_space, field, power_of_two, shift_right, signed_field, BitReader};
use super::allocation::AllocationState;
use super::masking::{ints, within};
use super::syncframe::ParseError;

verus! {

/// Bits of a mantissa code. Codes 1, 2 and 4 hold several mantissas.
pub open spec fn bap_bits(bap: int) -> int {
    if bap <= 0 {
        0
    } else if bap == 1 {
        5
    } else if bap == 2 {
        7
    } else if bap == 3 {
        3
    } else if bap == 4 {
        7
    } else if bap <= 13 {
        bap - 1
    } else if bap == 14 {
        14
    } else {
        16
    }
}

fn code_bits(bap: u8) -> (r: usize)
    ensures
        r == bap_bits(bap as int),
        r <= 16,
        bap >= 6 ==> r >= 5,
{
    if bap == 0 {
        0
    } else if bap == 1 {
        5
    } else if bap == 2 {
        7
    } else if bap == 3 {
        3
    } else if bap == 4 {
        7
    } else if bap <= 13 {
        bap as usize - 1
    } else if bap == 14 {
        14
    } else {
        16
    }
}

/// Division that rounds toward zero.
pub open spec fn truncated(a: int, b: int) -> int {
    if a >= 0 { a / b } else { -((-a) / b) }
}

/// Level `digit` of a symmetric quantizer, as a 24-bit fraction. There is no
/// level past the last.
pub open spec fn quantized(levels: int, digit: int) -> int {
    if digit >= levels { 0 } else { truncated(0x7f_ffff * (2 * digit + 1 - levels), levels) }
}

fn quantize(levels: i32, digit: i32) -> (r: i32)
    requires
        3 <= levels <= 15,
        0 <= digit <= 15,
    ensures
        r == quantized(levels as int, digit as int),
        -0x7f_ffff <= r <= 0x7f_ffff,
{
    if digit >= levels {
        return 0;
    }
    let numerator: i32 = 0x7f_ffff * (2 * digit + 1 - levels);
    if numerator >= 0 {
        let r: i32 = numerator / levels;
        assert(r <= 0x7f_ffff) by (nonlinear_arith)
            requires
                r == numerator / levels,
                numerator <= 0x7f_ffff * levels,
                levels > 0,
        ;
        assert(r >= 0) by (nonlinear_arith)
            requires
                r == numerator / levels,
                numerator >= 0,
                levels > 0,
        ;
        r
    } else {
        let n: i32 = -numerator;
        let r: i32 = n / levels;
        assert(r <= 0x7f_ffff) by (nonlinear_arith)
            requires
                r == n / levels,
                n <= 0x7f_ffff * levels,
                levels > 0,
        ;
        assert(r >= 0) by (nonlinear_arith)
            requires
                r == n / levels,
                n >= 0,
                levels > 0,
        ;
        -r
    }
}

/// Digit of a grouped code, counted from the least significant.
pub open spec fn digit_of(code: int, levels: int, place: int) -> int {
    if place == 0 {
        code % levels
    } else if place == 1 {
        (code / levels) % levels
    } else {
        (code / levels / levels) % levels
    }
}

/// Three mantissas of one code, the first in the most significant digit.
pub open spec fn triple(levels: int, code: int) -> Seq<int> {
    seq![
        quantized(levels, digit_of(code, levels, 2)),
        quantized(levels, digit_of(code, levels, 1)),
        quantized(levels, digit_of(code, levels, 0)),
    ]
}

/// Two mantissas of one code.
pub open spec fn pair(levels: int, code: int) -> Seq<int> {
    seq![
        quantized(levels, digit_of(code, levels, 1)),
        quantized(levels, digit_of(code, levels, 0)),
    ]
}

fn split_triple(levels: i32, code: i32) -> (r: [i32; 3])
    requires
        levels == 3 || levels == 5,
        0 <= code < 128,
    ensures
        ints(r@) == triple(levels as int, code as int),
        within(r@, 0x7f_ffff),
{
    let (a, b, c): (i32, i32, i32) = if levels == 3 {
        ((code / 3 / 3) % 3, (code / 3) % 3, code % 3)
    } else {
        ((code / 5 / 5) % 5, (code / 5) % 5, code % 5)
    };
    let r: [i32; 3] = [quantize(levels, a), quantize(levels, b), quantize(levels, c)];
    assert(ints(r@) =~= triple(levels as int, code as int));
    r
}

fn split_pair(code: i32) -> (r: [i32; 2])
    requires
        0 <= code < 128,
    ensures
        ints(r@) == pair(11, code as int),
        within(r@, 0x7f_ffff),
{
    let r: [i32; 2] = [quantize(11, (code / 11) % 11), quantize(11, code % 11)];
    assert(ints(r@) =~= pair(11, code as int));
    r
}

/// `value / 2^bits` rounded down; a shift by nothing or less changes nothing.
#[verifier::opaque]
pub open spec fn shifted(value: int, bits: int) -> int {
    if bits <= 0 {
        value
    } else if bits >= 31 {
        if value < 0 { -1 } else { 0 }
    } else {
        value / code_space(bits)
    }
}

pub fn shift_right_signed(value: i32, bits: i32) -> (r: i32)
    ensures
        r == shifted(value as int, bits as int),
{
    reveal(shifted);
    if bits <= 0 {
        value
    } else if bits >= 31 {
        if value < 0 { -1 } else { 0 }
    } else {
        let r: i64 = shift_right(value as i64, bits as u32);
        let ghost d = code_space(bits as int);
        assert(i32::MIN <= r <= i32::MAX) by (nonlinear_arith)
            requires
                r as int == value as int / d,
                d >= 1,
                i32::MIN <= value <= i32::MAX,
        ;
        r as i32
    }
}

/// A transform coefficient before it is scaled to a fraction.
#[derive(Debug, Clone, Copy, PartialEq, Eq)]
pub enum Coefficient {
    Zero,
    /// In units of `1 / (2^23 - 1)`.
    Int24(i32),
    /// In units of `1 / (2^31 - 1)`.
    Int32(i32),
}

/// Where a block stands in its mantissa groups while bits are counted.
#[derive(Debug, Clone, Copy)]
pub struct MantissaGroupState {
    pub bap1_pos: usize,
    pub bap2_pos: usize,
    pub bap4_pos: usize,
}

impl MantissaGroupState {
    pub open spec fn wf(&self) -> bool {
        self.bap1_pos < 3 && self.bap2_pos < 3 && self.bap4_pos < 2
    }

    /// Every group is used up: the next mantissa opens a new one.
    pub fn new_block() -> (r: Self)
        ensures
            r.wf(),
            r.bap1_pos == 2 && r.bap2_pos == 2 && r.bap4_pos == 1,
    {
        MantissaGroupState { bap1_pos: 2, bap2_pos: 2, bap4_pos: 1 }
    }
}

/// Where a block stands in its mantissa groups while they are decoded.
#[derive(Debug, Clone)]
pub struct MantissaDecodeState {
    pub bap1_pos: usize,
    pub bap2_pos: usize,
    pub bap4_pos: usize,
    pub bap1_next: [i32; 3],
    pub bap2_next: [i32; 3],
    pub bap4_next: [i32; 2],
}

/// What [`MantissaDecodeState`] holds.
pub ghost struct Groups {
    pub pos1: int,
    pub pos2: int,
    pub pos4: int,
    pub next1: Seq<int>,
    pub next2: Seq<int>,
    pub next4: Seq<int>,
}

impl MantissaDecodeState {
    pub open spec fn wf(&self) -> bool {
        self.bap1_pos < 3 && self.bap2_pos < 3 && self.bap4_pos < 2
    }

    pub open spec fn groups(&self) -> Groups {
        Groups {
            pos1: self.bap1_pos as int,
            pos2: self.bap2_pos as int,
            pos4: self.bap4_pos as int,
            next1: ints(self.bap1_next@),
            next2: ints(self.bap2_next@),
            next4: ints(self.bap4_next@),
        }
    }

    pub fn new_block() -> (r: Self)
        ensures
            r.wf(),
            r.bap1_pos == 2 && r.bap2_pos == 2 && r.bap4_pos == 1,
            r.bap1_next@ == seq![0i32, 0i32, 0i32],
            r.bap2_next@ == seq![0i32, 0i32, 0i32],
            r.bap4_next@ == seq![0i32, 0i32],
    {
        let r = MantissaDecodeState {
            bap1_pos: 2,
            bap2_pos: 2,
            bap4_pos: 1,
            bap1_next: [0, 0, 0],
            bap2_next: [0, 0, 0],
            bap4_next: [0, 0],
        };
        assert(r.bap1_next@ =~= seq![0i32, 0i32, 0i32]);
        assert(r.bap2_next@ =~= seq![0i32, 0i32, 0i32]);
        assert(r.bap4_next@ =~= seq![0i32, 0i32]);
        r
    }
}

pub open spec fn int24(value: int, exponent: int) -> Coefficient {
    Coefficient::Int24(shifted(value, exponent) as i32)
}

/// The coefficient of one bin read at `p`, the groups it leaves, and the next
/// position.
#[verifier::opaque]
pub open spec fn coefficient(
    d: Seq<u8>,
    lim: int,
    p: int,
    bap: int,
    exponent: int,
    g: Groups,
) -> Result<(Coefficient, Groups, int), ParseError> {
    if bap == 0 {
        Ok((Coefficient::Zero, g, p))
    } else if bap == 1 {
        if g.pos1 + 1 < 3 {
            Ok((int24(g.next1[g.pos1 + 1], exponent), Groups { pos1: g.pos1 + 1, ..g }, p))
        } else if p + 5 > lim {
            Err(ParseError::ShortPacket)
        } else {
            let next = triple(3, field(d, p, 5));
            Ok((int24(next[0], exponent), Groups { pos1: 0, next1: next, ..g }, p + 5))
        }
    } else if bap == 2 {
        if g.pos2 + 1 < 3 {
            Ok((int24(g.next2[g.pos2 + 1], exponent), Groups { pos2: g.pos2 + 1, ..g }, p))
        } else if p + 7 > lim {
            Err(ParseError::ShortPacket)
        } else {
            let next = triple(5, field(d, p, 7));
            Ok((int24(next[0], exponent), Groups { pos2: 0, next2: next, ..g }, p + 7))
        }
    } else if bap == 4 {
        if g.pos4 + 1 < 2 {
            Ok((int24(g.next4[g.pos4 + 1], exponent), Groups { pos4: g.pos4 + 1, ..g }, p))
        } else if p + 7 > lim {
            Err(ParseError::ShortPacket)
        } else {
            let next = pair(11, field(d, p, 7));
            Ok((int24(next[0], exponent), Groups { pos4: 0, next4: next, ..g }, p + 7))
        }
    } else if p + bap_bits(bap) > lim {
        Err(ParseError::ShortPacket)
    } else if bap == 3 {
        Ok((int24(quantized(7, field(d, p, 3)), exponent), g, p + 3))
    } else if bap == 5 {
        Ok((int24(quantized(15, field(d, p, 4)), exponent), g, p + 4))
    } else {
        let n = bap_bits(bap);
        let value = signed_field(d, p, n) * code_space(32 - n);
        Ok((Coefficient::Int32(shifted(value, exponent) as i32), g, p + n))
    }
}

/// The coefficients of the bins `start..end`.
pub open spec fn coefficients(
    d: Seq<u8>,
    lim: int,
    p: int,
    bap: Seq<u8>,
    exponents: Seq<int>,
    start: int,
    end: int,
    g: Groups,
) -> Result<(Seq<Coefficient>, Groups, int), ParseError>
    decreases end - start,
{
    if end <= start {
        Ok((Seq::empty(), g, p))
    } else {
        match coefficients(d, lim, p, bap, exponents, start, end - 1, g) {
            Err(e) => Err(e),
            Ok((done, h, q)) => match coefficient(
                d,
                lim,
                q,
                bap[end - 1] as int,
                exponents[end - 1],
                h,
            ) {
                Err(e) => Err(e),
                Ok((c, k, r)) => Ok((done.push(c), k, r)),
            },
        }
    }
}

proof fn lemma_coefficients_err(
    d: Seq<u8>,
    lim: int,
    p: int,
    bap: Seq<u8>,
    exponents: Seq<int>,
    start: int,
    k: int,
    end: int,
    g: Groups,
)
    requires
        k <= end,
        coefficients(d, lim, p, bap, exponents, start, k, g) is Err,
    ensures
        coefficients(d, lim, p, bap, exponents, start, end, g) == coefficients(
            d,
            lim,
            p,
            bap,
            exponents,
            start,
            k,
            g,
        ),
    decreases end - k,
{
    if k < end {
        lemma_coefficients_err(d, lim, p, bap, exponents, start, k, end - 1, g);
    }
}

/// The first bin of `start..end` whose mantissa cannot be read, or `end`.
pub open spec fn read_to(
    d: Seq<u8>,
    lim: int,
    p: int,
    bap: Seq<u8>,
    exponents: Seq<int>,
    start: int,
    end: int,
    g: Groups,
) -> int
    decreases end - start,
{
    if end <= start {
        start
    } else if coefficients(d, lim, p, bap, exponents, start, end, g) is Ok {
        end
    } else {
        read_to(d, lim, p, bap, exponents, start, end - 1, g)
    }
}

proof fn lemma_read_to(
    d: Seq<u8>,
    lim: int,
    p: int,
    bap: Seq<u8>,
    exponents: Seq<int>,
    start: int,
    k: int,
    end: int,
    g: Groups,
)
    requires
        start <= k < end,
        coefficients(d, lim, p, bap, exponents, start, k, g) is Ok,
        coefficients(d, lim, p, bap, exponents, start, k + 1, g) is Err,
    ensures
        coefficients(d, lim, p, bap, exponents, start, end, g) == coefficients(
            d,
            lim,
            p,
            bap,
            exponents,
            start,
            k + 1,
            g,
        ),
        read_to(d, lim, p, bap, exponents, start, end, g) == k,
    decreases end - k,
{
    lemma_coefficients_err(d, lim, p, bap, exponents, start, k + 1, end, g);
    if k + 1 < end {
        lemma_read_to(d, lim, p, bap, exponents, start, k, end - 1, g);
    } else {
        assert(read_to(d, lim, p, bap, exponents, start, k, g) == k);
    }
}

/// What a coefficient reader gives for one bin.
spec fn reads(
    r: Result<Coefficient, ParseError>,
    g: Groups,
    q: int,
    wanted: Result<(Coefficient, Groups, int), ParseError>,
) -> bool {
    match r {
        Ok(c) => wanted == Ok::<(Coefficient, Groups, int), ParseError>((c, g, q)),
        Err(e) => wanted == Err::<(Coefficient, Groups, int), ParseError>(e),
    }
}

proof fn lemma_scaled_range(v: int, n: int)
    requires
        5 <= n <= 16,
        -code_space(n - 1) <= v < code_space(n - 1),
    ensures
        i32::MIN <= v * code_space(32 - n) <= i32::MAX,
{
    let half = code_space(n - 1);
    let scale = code_space(32 - n);
    assert(half * scale == 0x8000_0000) by {
        if n == 5 {
        } else if n == 6 {
        } else if n == 7 {
        } else if n == 8 {
        } else if n == 9 {
        } else if n == 10 {
        } else if n == 11 {
        } else if n == 12 {
        } else if n == 13 {
        } else if n == 14 {
        } else if n == 15 {
        } else {
        }
    }
    assert(-0x8000_0000 <= v * scale <= 0x7fff_ffff) by (nonlinear_arith)
        requires
            -half <= v < half,
            half * scale == 0x8000_0000,
            scale >= 1,
    ;
}

fn read_wide(reader: &mut BitReader<'_>, bap: u8, exponent: i32) -> (r: Result<
    Coefficient,
    ParseError,
>)
    requires
        old(reader).wf(),
        6 <= bap <= 15,
    ensures
        final(reader).wf(),
        final(reader).same_source(old(reader)),
        forall|g: Groups|
            #[trigger] reads(
                r,
                g,
                final(reader).pos(),
                coefficient(
                    old(reader).data(),
                    old(reader).limit(),
                    old(reader).pos(),
                    bap as int,
                    exponent as int,
                    g,
                ),
            ),
        r is Err ==> final(reader).pos() == old(reader).pos(),
{
    proof {
        reveal(coefficient);
    }
    let n: usize = code_bits(bap);
    let Some(v) = reader.read_signed_bits(n) else {
        return Err(ParseError::ShortPacket);
    };
    let scale: i64 = power_of_two((32 - n) as u32);
    proof {
        lemma_scaled_range(v as int, n as int);
    }
    let value: i32 = (v as i64 * scale) as i32;
    Ok(Coefficient::Int32(shift_right_signed(value, exponent)))
}

fn read_coefficient(
    reader: &mut BitReader<'_>,
    bap: u8,
    exponent: i32,
    state: &mut MantissaDecodeState,
) -> (r: Result<Coefficient, ParseError>)
    requires
        old(reader).wf(),
        old(state).wf(),
        bap <= 15,
    ensures
        final(reader).wf(),
        final(reader).same_source(old(reader)),
        final(state).wf(),
        reads(
            r,
            final(state).groups(),
            final(reader).pos(),
            coefficient(
                old(reader).data(),
                old(reader).limit(),
                old(reader).pos(),
                bap as int,
                exponent as int,
                old(state).groups(),
            ),
        ),
        r is Err ==> *final(state) == *old(state) && final(reader).pos() == old(reader).pos(),
{
    proof {
        reveal(coefficient);
    }
    if bap == 0 {
        return Ok(Coefficient::Zero);
    }
    if bap == 1 {
        if state.bap1_pos + 1 == 3 {
            let Some(code) = reader.read_bits(5) else {
                return Err(ParseError::ShortPacket);
            };
            state.bap1_next = split_triple(3, code as i32);
            state.bap1_pos = 0;
        } else {
            state.bap1_pos = state.bap1_pos + 1;
        }
        return Ok(
            Coefficient::Int24(shift_right_signed(state.bap1_next[state.bap1_pos], exponent)),
        );
    }
    if bap == 2 {
        if state.bap2_pos + 1 == 3 {
            let Some(code) = reader.read_bits(7) else {
                return Err(ParseError::ShortPacket);
            };
            state.bap2_next = split_triple(5, code as i32);
            state.bap2_pos = 0;
        } else {
            state.bap2_pos = state.bap2_pos + 1;
        }
        return Ok(
            Coefficient::Int24(shift_right_signed(state.bap2_next[state.bap2_pos], exponent)),
        );
    }
    if bap == 4 {
        if state.bap4_pos + 1 == 2 {
            let Some(code) = reader.read_bits(7) else {
                return Err(ParseError::ShortPacket);
            };
            state.bap4_next = split_pair(code as i32);
            state.bap4_pos = 0;
        } else {
            state.bap4_pos = state.bap4_pos + 1;
        }
        return Ok(
            Coefficient::Int24(shift_right_signed(state.bap4_next[state.bap4_pos], exponent)),
        );
    }
    if bap == 3 {
        let Some(code) = reader.read_bits(3) else {
            return Err(ParseError::ShortPacket);
        };
        return Ok(Coefficient::Int24(shift_right_signed(quantize(7, code as i32), exponent)));
    }
    if bap == 5 {
        let Some(code) = reader.read_bits(4) else {
            return Err(ParseError::ShortPacket);
        };
        return Ok(Coefficient::Int24(shift_right_signed(quantize(15, code as i32), exponent)));
    }
    let r = read_wide(reader, bap, exponent);
    assert(reads(
        r,
        state.groups(),
        reader.pos(),
        coefficient(
            old(reader).data(),
            old(reader).limit(),
            old(reader).pos(),
            bap as int,
            exponent as int,
            state.groups(),
        ),
    ));
    r
}

fn blank() -> (r: Vec<Coefficient>)
    ensures
        r@ == Seq::new(256, |i: int| Coefficient::Zero),
{
    let mut r: Vec<Coefficient> = Vec::new();
    while r.len() < 256
        invariant
            r@.len() <= 256,
            forall|i: int| 0 <= i < r@.len() ==> r@[i] == Coefficient::Zero,
        decreases 256 - r.len(),
    {
        r.push(Coefficient::Zero);
    }
    assert(r@ =~= Seq::new(256, |i: int| Coefficient::Zero));
    r
}

/// `values` at `start` in a spectrum that is silent elsewhere.
pub open spec fn placed(values: Seq<Coefficient>, start: int) -> Seq<Coefficient> {
    Seq::new(
        256,
        |bin: int|
            if start <= bin < start + values.len() {
                values[bin - start]
            } else {
                Coefficient::Zero
            },
    )
}

/// Bins of `start..end` with allocation `value`.
pub open spec fn tally(bap: Seq<u8>, start: int, end: int, value: int) -> int
    decreases end - start,
{
    if end <= start {
        0
    } else {
        tally(bap, start, end - 1, value) + if bap[end - 1] == value { 1int } else { 0int }
    }
}

/// Bits of the ungrouped mantissas of `start..end`.
pub open spec fn single_bits(bap: Seq<u8>, start: int, end: int) -> int
    decreases end - start,
{
    if end <= start {
        0
    } else {
        let b = bap[end - 1] as int;
        single_bits(bap, start, end - 1) + if b == 1 || b == 2 || b == 4 { 0 } else { bap_bits(b) }
    }
}

/// Bits of all mantissas of `start..end` when the groups stand at the given
/// positions.
pub open spec fn mantissa_bits(
    bap: Seq<u8>,
    start: int,
    end: int,
    pos1: int,
    pos2: int,
    pos4: int,
) -> int {
    single_bits(bap, start, end) + (pos1 + tally(bap, start, end, 1)) / 3 * 5 + (pos2 + tally(
        bap,
        start,
        end,
        2,
    )) / 3 * 7 + (pos4 + tally(bap, start, end, 4)) / 2 * 7
}

impl AllocationState {
    /// Bits that the mantissas of `start..end` take.
    pub fn count_mantissa_bits(
        &self,
        start: usize,
        end: usize,
        group_state: &mut MantissaGroupState,
    ) -> (r: usize)
        requires
            self.wf(),
            end <= 256,
            old(group_state).wf(),
            forall|i: int| start <= i < end ==> #[trigger] self.bap@[i] <= 15,
        ensures
            r == mantissa_bits(
                self.bap@,
                start as int,
                end as int,
                old(group_state).bap1_pos as int,
                old(group_state).bap2_pos as int,
                old(group_state).bap4_pos as int,
            ),
            final(group_state).wf(),
            final(group_state).bap1_pos == (old(group_state).bap1_pos + tally(
                self.bap@,
                start as int,
                end as int,
                1,
            )) % 3,
            final(group_state).bap2_pos == (old(group_state).bap2_pos + tally(
                self.bap@,
                start as int,
                end as int,
                2,
            )) % 3,
            final(group_state).bap4_pos == (old(group_state).bap4_pos + tally(
                self.bap@,
                start as int,
                end as int,
                4,
            )) % 2,
    {
        let mut bits: usize = 0;
        let mut bap1: usize = 0;
        let mut bap2: usize = 0;
        let mut bap4: usize = 0;
        let mut bin: usize = start;
        while bin < end
            invariant
                self.wf(),
                end <= 256,
                start <= bin,
                start < end ==> bin <= end,
                start >= end ==> bin == start,
                forall|i: int| start <= i < end ==> #[trigger] self.bap@[i] <= 15,
                bits <= 16 * (bin - start),
                bap1 <= bin - start,
                bap2 <= bin - start,
                bap4 <= bin - start,
                bits == single_bits(self.bap@, start as int, bin as int),
                bap1 == tally(self.bap@, start as int, bin as int, 1),
                bap2 == tally(self.bap@, start as int, bin as int, 2),
                bap4 == tally(self.bap@, start as int, bin as int, 4),
            decreases end - bin,
        {
            let b: u8 = self.bap[bin];
            if b == 1 {
                bap1 = bap1 + 1;
            } else if b == 2 {
                bap2 = bap2 + 1;
            } else if b == 4 {
                bap4 = bap4 + 1;
            } else {
                bits = bits + code_bits(b);
            }
            bin = bin + 1;
        }
        bits = bits + (group_state.bap1_pos + bap1) / 3 * 5;
        bits = bits + (group_state.bap2_pos + bap2) / 3 * 7;
        bits = bits + (group_state.bap4_pos + bap4) / 2 * 7;
        group_state.bap1_pos = (group_state.bap1_pos + bap1) % 3;
        group_state.bap2_pos = (group_state.bap2_pos + bap2) % 3;
        group_state.bap4_pos = (group_state.bap4_pos + bap4) % 2;
        bits
    }

    /// Decode the mantissas of `start..end` and apply their exponents; every
    /// other coefficient is zero. A mantissa that cannot be read leaves the
    /// reader and the groups as the one before it did.
    pub fn decode_transform_coeffs(
        &self,
        reader: &mut BitReader<'_>,
        start: usize,
        end: usize,
        state: &mut MantissaDecodeState,
    ) -> (r: Result<Vec<Coefficient>, ParseError>)
        requires
            self.wf(),
            old(reader).wf(),
            old(state).wf(),
            end <= 256,
            forall|i: int| start <= i < end ==> #[trigger] self.bap@[i] <= 15,
        ensures
            final(reader).wf(),
            final(reader).same_source(old(reader)),
            final(state).wf(),
            match (r, coefficients(
                old(reader).data(),
                old(reader).limit(),
                old(reader).pos(),
                self.bap@,
                ints(self.exponents@),
                start as int,
                end as int,
                old(state).groups(),
            )) {
                (Ok(target), Ok((values, groups, q))) => {
                    &&& target@ == placed(values, start as int)
                    &&& final(state).groups() == groups
                    &&& final(reader).pos() == q
                },
                (Err(e), Err(f)) => {
                    let k = read_to(
                        old(reader).data(),
                        old(reader).limit(),
                        old(reader).pos(),
                        self.bap@,
                        ints(self.exponents@),
                        start as int,
                        end as int,
                        old(state).groups(),
                    );
                    &&& e == f
                    &&& coefficients(
                        old(reader).data(),
                        old(reader).limit(),
                        old(reader).pos(),
                        self.bap@,
                        ints(self.exponents@),
                        start as int,
                        k,
                        old(state).groups(),
                    ) matches Ok((values, groups, q)) && final(state).groups() == groups
                        && final(reader).pos() == q
                },
                _ => false,
            },
    {
        let ghost d = reader.data();
        let ghost lim = reader.limit();
        let ghost p = reader.pos();
        let ghost g = state.groups();
        let ghost exps = ints(self.exponents@);
        let mut target: Vec<Coefficient> = blank();
        let ghost mut values: Seq<Coefficient> = Seq::empty();
        let mut bin: usize = start;
        assert(target@ =~= placed(values, start as int));
        while bin < end
            invariant
                self.wf(),
                reader.wf(),
                reader.data() == d,
                reader.limit() == lim,
                state.wf(),
                d == old(reader).data(),
                lim == old(reader).limit(),
                p == old(reader).pos(),
                g == old(state).groups(),
                exps == ints(self.exponents@),
                end <= 256,
                start <= bin,
                start < end ==> bin <= end,
                start >= end ==> bin == start,
                values.len() == bin - start,
                forall|i: int| start <= i < end ==> #[trigger] self.bap@[i] <= 15,
                coefficients(d, lim, p, self.bap@, exps, start as int, bin as int, g) == Ok::<
                    (Seq<Coefficient>, Groups, int),
                    ParseError,
                >((values, state.groups(), reader.pos())),
                target@.len() == 256,
                target@ == placed(values, start as int),
            decreases end - bin,
        {
            let exponent: i32 = self.exponents[bin];
            match read_coefficient(reader, self.bap[bin], exponent, state) {
                Ok(c) => {
                    let ghost before = values;
                    proof {
                        values = values.push(c);
                    }
                    target.set(bin, c);
                    assert(target@ =~= placed(values, start as int));
                },
                Err(e) => {
                    proof {
                        lemma_read_to(
                            d,
                            lim,
                            p,
                            self.bap@,
                            exps,
                            start as int,
                            bin as int,
                            end as int,
                            g,
                        );
                    }
                    return Err(e);
                },
            }
            bin = bin + 1;
        }
        Ok(target)
    }

    /// Rows for mantissas of the bins `start..end` that are decoded for the
    /// whole frame, all zero; bins past the last one are refused.
    pub fn aht_rows(start: usize, end: usize) -> (r: Result<Vec<[i32; 6]>, ParseError>)
        ensures
            match r {
                Ok(rows) => {
                    &&& start <= end <= 256
                    &&& rows@.len() == end
                    &&& forall|bin: int|
                        0 <= bin < end ==> (#[trigger] rows@[bin])@ == Seq::new(6, |i: int| 0i32)
                },
                Err(e) => (end > 256 || start > end) && e == ParseError::InvalidHeader("aht-range"),
            },
    {
        if end > 256 || start > end {
            return Err(ParseError::InvalidHeader("aht-range"));
        }
        let mut rows: Vec<[i32; 6]> = Vec::new();
        while rows.len() < end
            invariant
                rows@.len() <= end,
                forall|bin: int|
                    0 <= bin < rows@.len() ==> (#[trigger] rows@[bin])@ == Seq::new(
                        6,
                        |i: int| 0i32,
                    ),
            decreases end - rows.len(),
        {
            let row: [i32; 6] = [0; 6];
            assert(row@ =~= Seq::new(6, |i: int| 0i32));
            rows.push(row);
        }
        Ok(rows)
    }

    /// Coefficients of one block from mantissas decoded for the whole frame,
    /// six to a bin; a block past the sixth is silent.
    pub fn extract_aht_coeffs(
        &self,
        pre_mantissas: &[[i32; 6]],
        block: usize,
        start: usize,
        end: usize,
    ) -> (r: Vec<Coefficient>)
        requires
            self.wf(),
        ensures
            r@ == Seq::new(
                256,
                |bin: int|
                    if start <= bin < end && bin < pre_mantissas@.len() {
                        int24(
                            if block < 6 { pre_mantissas@[bin]@[block as int] as int } else { 0 },
                            self.exponents@[bin] as int,
                        )
                    } else {
                        Coefficient::Zero
                    },
            ),
    {
        let mut target: Vec<Coefficient> = blank();
        let n: usize = pre_mantissas.len();
        let mut bin: usize = start;
        while bin < end && bin < n && bin < 256
            invariant
                self.wf(),
                n == pre_mantissas@.len(),
                start <= bin,
                target@.len() == 256,
                forall|i: int|
                    0 <= i < 256 ==> #[trigger] target@[i] == if start <= i < bin && i < end && i
                        < n {
                        int24(
                            if block < 6 { pre_mantissas@[i]@[block as int] as int } else { 0 },
                            self.exponents@[i] as int,
                        )
                    } else {
                        Coefficient::Zero
                    },
            decreases 256 - bin,
        {
            let pre: i32 = if block < 6 { pre_mantissas[bin][block] } else { 0 };
            target.set(bin, Coefficient::Int24(shift_right_signed(pre, self.exponents[bin])));
            bin = bin + 1;
        }
        assert(target@ =~= Seq::new(
            256,
            |bin: int|
                if start <= bin < end && bin < pre_mantissas@.len() {
                    int24(
                        if block < 6 { pre_mantissas@[bin]@[block as int] as int } else { 0 },
                        self.exponents@[bin] as int,
                    )
                } else {
                    Coefficient::Zero
                },
        ));
        target
    }
}

/// Bits that one mantissa takes when its groups stand at these positions.
spec fn step_bits(bap: int, g: Groups) -> int {
    if bap == 1 {
        if g.pos1 == 2 { 5 } else { 0 }
    } else if bap == 2 {
        if g.pos2 == 2 { 7 } else { 0 }
    } else if bap == 4 {
        if g.pos4 == 1 { 7 } else { 0 }
    } else {
        bap_bits(bap)
    }
}

proof fn lemma_one_coefficient(d: Seq<u8>, lim: int, p: int, bap: int, exponent: int, g: Groups)
    requires
        0 <= g.pos1 < 3,
        0 <= g.pos2 < 3,
        0 <= g.pos4 < 2,
    ensures
        coefficient(d, lim, p, bap, exponent, g) matches Ok((c, h, q)) ==> {
            &&& q == p + step_bits(bap, g)
            &&& h.pos1 == if bap == 1 { (g.pos1 + 1) % 3 } else { g.pos1 }
            &&& h.pos2 == if bap == 2 { (g.pos2 + 1) % 3 } else { g.pos2 }
            &&& h.pos4 == if bap == 4 { (g.pos4 + 1) % 2 } else { g.pos4 }
        },
{
    reveal(coefficient);
}

proof fn lemma_tally(bap: Seq<u8>, start: int, end: int, value: int)
    ensures
        0 <= tally(bap, start, end, value),
    decreases end - start,
{
    if start < end {
        lemma_tally(bap, start, end - 1, value);
    }
}

/// The mantissas that [`AllocationState::decode_transform_coeffs`] reads take
/// exactly the bits that [`AllocationState::count_mantissa_bits`] counts, and
/// both leave the groups at the same positions.
pub proof fn counted_bits_are_the_bits_read(
    d: Seq<u8>,
    lim: int,
    p: int,
    bap: Seq<u8>,
    exponents: Seq<int>,
    start: int,
    end: int,
    g: Groups,
)
    requires
        start <= end,
        0 <= g.pos1 < 3,
        0 <= g.pos2 < 3,
        0 <= g.pos4 < 2,
    ensures
        match coefficients(d, lim, p, bap, exponents, start, end, g) {
            Ok((values, h, q)) => {
                &&& values.len() == end - start
                &&& q == p + mantissa_bits(bap, start, end, g.pos1, g.pos2, g.pos4)
                &&& h.pos1 == (g.pos1 + tally(bap, start, end, 1)) % 3
                &&& h.pos2 == (g.pos2 + tally(bap, start, end, 2)) % 3
                &&& h.pos4 == (g.pos4 + tally(bap, start, end, 4)) % 2
            },
            Err(e) => true,
        },
    decreases end - start,
{
    if start < end {
        counted_bits_are_the_bits_read(d, lim, p, bap, exponents, start, end - 1, g);
        lemma_tally(bap, start, end - 1, 1);
        lemma_tally(bap, start, end - 1, 2);
        lemma_tally(bap, start, end - 1, 4);
        if let Ok((done, h, q)) = coefficients(d, lim, p, bap, exponents, start, end - 1, g) {
            let b = bap[end - 1] as int;
            lemma_one_coefficient(d, lim, q, b, exponents[end - 1], h);
            assert(mantissa_bits(bap, start, end, g.pos1, g.pos2, g.pos4) == mantissa_bits(
                bap,
                start,
                end - 1,
                g.pos1,
                g.pos2,
                g.pos4,
            ) + step_bits(b, h));
        }
    }
}

} // verus!
