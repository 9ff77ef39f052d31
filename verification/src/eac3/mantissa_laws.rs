//! What mantissas hold of what was quantized.

use vstd::prelude::*;
use crate::bits::{code_space, field, lemma_field_range, signed_field};
use crate::eac3::syncframe::ParseError;
use crate::eac3::mantissa::{
    bap_bits, coefficient, coefficients, pair, placed, quantized, shifted, triple, Coefficient, Groups,
};

verus! {

/// Levels of a quantizer lie the same distance above and below zero, in their
/// order, as close as whole numbers are to even parts of the full scale.
pub proof fn levels_are_symmetric(levels: int, digit: int)
    requires
        0 < levels <= 0x1_0000,
        0 <= digit < levels,
    ensures
        quantized(levels, digit) + quantized(levels, levels - 1 - digit) == 0,
        2 * digit + 1 == levels ==> quantized(levels, digit) == 0,
        2 * digit + 1 > levels ==> levels * quantized(levels, digit) <= 0x7f_ffff * (2 * digit + 1
            - levels) < levels * (quantized(levels, digit) + 1),
        quantized(levels, levels) == 0,
{
    let t = 2 * digit + 1 - levels;
    let x = 0x7f_ffff * t;
    assert(2 * (levels - 1 - digit) + 1 - levels == -t);
    assert(0x7f_ffff * (-t) == -x);
    if t == 0 {
        assert(0int / levels == 0) by (nonlinear_arith)
            requires
                levels > 0,
        ;
    }
    if t > 0 {
        vstd::arithmetic::div_mod::lemma_fundamental_div_mod(x, levels);
        let q = x / levels;
        assert(levels * (q + 1) == levels * q + levels) by (nonlinear_arith);
        assert(0 <= x % levels < levels);
    }
}

/// Three digits make a code that gives back their levels in their order.
pub proof fn triples_come_back(levels: int, a: int, b: int, c: int)
    requires
        levels > 0,
        0 <= a < levels,
        0 <= b < levels,
        0 <= c < levels,
    ensures
        triple(levels, (a * levels + b) * levels + c) == seq![
            quantized(levels, a),
            quantized(levels, b),
            quantized(levels, c),
        ],
{
    let x = a * levels + b;
    vstd::arithmetic::div_mod::lemma_fundamental_div_mod_converse(x * levels + c, levels, x, c);
    vstd::arithmetic::div_mod::lemma_fundamental_div_mod_converse(x, levels, a, b);
    assert(a % levels == a) by (nonlinear_arith)
        requires
            0 <= a < levels,
    ;
}

/// Two digits make a code that gives back their levels in their order.
pub proof fn pairs_come_back(levels: int, a: int, b: int)
    requires
        levels > 0,
        0 <= a < levels,
        0 <= b < levels,
    ensures
        pair(levels, a * levels + b) == seq![quantized(levels, a), quantized(levels, b)],
{
    vstd::arithmetic::div_mod::lemma_fundamental_div_mod_converse(a * levels + b, levels, a, b);
    assert(a % levels == a) by (nonlinear_arith)
        requires
            0 <= a < levels,
    ;
}

/// Codes are as wide as what they hold needs: triples of 3 and of 5 levels,
/// pairs of 11, and single mantissas of 7 and 15.
pub proof fn codes_fit_their_levels()
    ensures
        code_space(bap_bits(1) - 1) < 3 * 3 * 3 <= code_space(bap_bits(1)),
        code_space(bap_bits(2) - 1) < 5 * 5 * 5 <= code_space(bap_bits(2)),
        code_space(bap_bits(4) - 1) < 11 * 11 <= code_space(bap_bits(4)),
        code_space(bap_bits(3) - 1) < 7 <= code_space(bap_bits(3)),
        code_space(bap_bits(5) - 1) < 15 <= code_space(bap_bits(5)),
        forall|b: int| 6 <= b <= 13 ==> #[trigger] bap_bits(b) + 1 == b,
        bap_bits(14) == 14,
        bap_bits(15) == 16,
        bap_bits(0) == 0,
{
}

/// A shift divides by a power of two and rounds down.
pub proof fn shifts_round_down(value: int, bits: int)
    requires
        0 <= bits,
        -0x8000_0000 <= value <= 0x7fff_ffff,
    ensures
        bits == 0 ==> shifted(value, bits) == value,
        bits <= 31 ==> code_space(bits) * shifted(value, bits) <= value < code_space(bits) * (
        shifted(value, bits) + 1),
{
    reveal(shifted);
    if 0 < bits < 31 {
        let s = code_space(bits);
        vstd::arithmetic::div_mod::lemma_fundamental_div_mod(value, s);
        let q = value / s;
        assert(s * (q + 1) == s * q + s) by (nonlinear_arith);
    } else if bits == 31 {
        assert(code_space(31) == 0x8000_0000);
    } else if bits == 0 {
        assert(code_space(0) == 1);
    }
}

/// A wide mantissa is a signed fraction: it fills the word from the top, and
/// each exponent halves it.
pub proof fn wide_mantissas_fill_the_word(
    d: Seq<u8>,
    lim: int,
    p: int,
    bap: int,
    exponent: int,
    g: Groups,
)
    requires
        6 <= bap <= 15,
        0 <= exponent <= 24,
        p + bap_bits(bap) <= lim,
    ensures
        ({
            let n = bap_bits(bap);
            let full = signed_field(d, p, n) * code_space(32 - n);
            &&& coefficient(d, lim, p, bap, exponent, g) matches Ok((c, h, q))
            &&& h == g
            &&& q == p + n
            &&& c matches Coefficient::Int32(v)
            &&& code_space(exponent) * v <= full < code_space(exponent) * (v + 1)
            &&& -0x8000_0000 <= full <= 0x7fff_ffff
        }),
{
    reveal(coefficient);
    let n = bap_bits(bap);
    lemma_field_range(d, p, n);
    let x = signed_field(d, p, n);
    let full = x * code_space(32 - n);
    assert(n == 5 || n == 6 || n == 7 || n == 8 || n == 9 || n == 10 || n == 11 || n == 12 || n
        == 14 || n == 16);
    assert(-0x8000_0000 <= full <= 0x7fff_ffff);
    shifts_round_down(full, exponent);
    let v = shifted(full, exponent);
    let s = code_space(exponent);
    assert(s >= 1);
    assert(-0x8000_0000 <= v <= 0x7fff_ffff) by (nonlinear_arith)
        requires
            s >= 1,
            s * v <= full < s * (v + 1),
            -0x8000_0000 <= full <= 0x7fff_ffff,
    ;
}

/// Three mantissas of three levels come from one code, the first from its
/// highest digit, and the next three from the next.
pub proof fn ternary_mantissas_come_in_threes(
    d: Seq<u8>,
    lim: int,
    p: int,
    x: int,
    y: int,
    z: int,
    g: Groups,
    a: int,
    b: int,
    c: int,
)
    requires
        g.pos1 == 2,
        p + 5 <= lim,
        field(d, p, 5) == 9 * a + 3 * b + c,
        0 <= a < 3,
        0 <= b < 3,
        0 <= c < 3,
    ensures
        ({
            &&& coefficient(d, lim, p, 1, x, g) matches Ok((u, h, q))
            &&& u == Coefficient::Int24(shifted(quantized(3, a), x) as i32)
            &&& q == p + 5
            &&& coefficient(d, lim, q, 1, y, h) matches Ok((v, k, r))
            &&& v == Coefficient::Int24(shifted(quantized(3, b), y) as i32)
            &&& r == q
            &&& coefficient(d, lim, r, 1, z, k) matches Ok((w, l, s))
            &&& w == Coefficient::Int24(shifted(quantized(3, c), z) as i32)
            &&& s == r
            &&& l.pos1 == 2
        }),
{
    reveal(coefficient);
    triples_come_back(3, a, b, c);
    assert((a * 3 + b) * 3 + c == 9 * a + 3 * b + c);
}

/// Three mantissas of five levels come from one code, the first from its
/// highest digit, and the next three from the next.
pub proof fn quinary_mantissas_come_in_threes(
    d: Seq<u8>,
    lim: int,
    p: int,
    x: int,
    y: int,
    z: int,
    g: Groups,
    a: int,
    b: int,
    c: int,
)
    requires
        g.pos2 == 2,
        p + 7 <= lim,
        field(d, p, 7) == 25 * a + 5 * b + c,
        0 <= a < 5,
        0 <= b < 5,
        0 <= c < 5,
    ensures
        ({
            &&& coefficient(d, lim, p, 2, x, g) matches Ok((u, h, q))
            &&& u == Coefficient::Int24(shifted(quantized(5, a), x) as i32)
            &&& q == p + 7
            &&& coefficient(d, lim, q, 2, y, h) matches Ok((v, k, r))
            &&& v == Coefficient::Int24(shifted(quantized(5, b), y) as i32)
            &&& r == q
            &&& coefficient(d, lim, r, 2, z, k) matches Ok((w, l, s))
            &&& w == Coefficient::Int24(shifted(quantized(5, c), z) as i32)
            &&& s == r
            &&& l.pos2 == 2
        }),
{
    reveal(coefficient);
    triples_come_back(5, a, b, c);
    assert((a * 5 + b) * 5 + c == 25 * a + 5 * b + c);
}

/// Two mantissas of eleven levels come from one code, the first from its
/// higher digit, and the next two from the next.
pub proof fn eleven_level_mantissas_come_in_pairs(
    d: Seq<u8>,
    lim: int,
    p: int,
    x: int,
    y: int,
    g: Groups,
    a: int,
    b: int,
)
    requires
        g.pos4 == 1,
        p + 7 <= lim,
        field(d, p, 7) == 11 * a + b,
        0 <= a < 11,
        0 <= b < 11,
    ensures
        ({
            &&& coefficient(d, lim, p, 4, x, g) matches Ok((u, h, q))
            &&& u == Coefficient::Int24(shifted(quantized(11, a), x) as i32)
            &&& q == p + 7
            &&& coefficient(d, lim, q, 4, y, h) matches Ok((v, k, r))
            &&& v == Coefficient::Int24(shifted(quantized(11, b), y) as i32)
            &&& r == q
            &&& k.pos4 == 1
        }),
{
    reveal(coefficient);
    pairs_come_back(11, a, b);
    assert(a * 11 + b == 11 * a + b);
}

/// Mantissas of seven and of fifteen levels stand alone, and a bin without bits
/// is silent and reads nothing.
pub proof fn single_mantissas_stand_alone(d: Seq<u8>, lim: int, p: int, x: int, g: Groups)
    requires
        p + 4 <= lim,
    ensures
        coefficient(d, lim, p, 0, x, g) == Ok::<_, ParseError>(
            (Coefficient::Zero, g, p),
        ),
        field(d, p, 3) < 7 ==> coefficient(d, lim, p, 3, x, g) == Ok::<
            _,
            ParseError,
        >((Coefficient::Int24(shifted(quantized(7, field(d, p, 3)), x) as i32), g, p + 3)),
        field(d, p, 4) < 15 ==> coefficient(d, lim, p, 5, x, g) == Ok::<
            _,
            ParseError,
        >((Coefficient::Int24(shifted(quantized(15, field(d, p, 4)), x) as i32), g, p + 4)),
{
    reveal(coefficient);
}

/// A mantissa's groups are kept apart: one of three levels leaves those of five
/// and of eleven where they stand, and the other way round.
pub proof fn groups_are_kept_apart(
    d: Seq<u8>,
    lim: int,
    p: int,
    bap: int,
    x: int,
    g: Groups,
)
    ensures
        coefficient(d, lim, p, bap, x, g) matches Ok((c, h, q)) ==> (bap != 1 ==> h.pos1 == g.pos1
            && h.next1 == g.next1) && (bap != 2 ==> h.pos2 == g.pos2 && h.next2 == g.next2) && (bap
            != 4 ==> h.pos4 == g.pos4 && h.next4 == g.next4),
{
    reveal(coefficient);
}

/// A spectrum holds the coefficients from `start` on, in their order.
pub proof fn coefficients_keep_their_bins(values: Seq<Coefficient>, start: int, i: int)
    requires
        0 <= start,
        0 <= i < values.len(),
        start + values.len() <= 256,
    ensures
        placed(values, start).len() == 256,
        placed(values, start)[start + i] == values[i],
        forall|bin: int|
            0 <= bin < start || start + values.len() <= bin < 256 ==> #[trigger] placed(
                values,
                start,
            )[bin] == Coefficient::Zero,
{
}

/// Bins are read in turn: those of a range are those of its first part, and
/// behind them those of the rest with the groups that the first part left.
pub proof fn ranges_are_read_in_parts(
    d: Seq<u8>,
    lim: int,
    p: int,
    bap: Seq<u8>,
    exponents: Seq<int>,
    start: int,
    mid: int,
    end: int,
    g: Groups,
    low: Seq<Coefficient>,
    h: Groups,
    q: int,
    high: Seq<Coefficient>,
    k: Groups,
    r: int,
)
    requires
        start <= mid <= end,
        coefficients(d, lim, p, bap, exponents, start, mid, g) == Ok::<_, ParseError>((low, h, q)),
        coefficients(d, lim, q, bap, exponents, mid, end, h) == Ok::<_, ParseError>((high, k, r)),
    ensures
        coefficients(d, lim, p, bap, exponents, start, end, g) == Ok::<_, ParseError>(
            (low + high, k, r),
        ),
        high.len() == end - mid,
    decreases end - mid,
{
    if mid < end {
        let (most, hh, qq) = coefficients(d, lim, q, bap, exponents, mid, end - 1, h)->Ok_0;
        ranges_are_read_in_parts(
            d,
            lim,
            p,
            bap,
            exponents,
            start,
            mid,
            end - 1,
            g,
            low,
            h,
            q,
            most,
            hh,
            qq,
        );
        let (c, kk, rr) = coefficient(d, lim, qq, bap[end - 1] as int, exponents[end - 1], hh)->Ok_0;
        assert((low + most).push(c) =~= low + most.push(c));
    } else {
        assert(low + high =~= low);
    }
}

/// One bin is read with its own allocation and its own exponent.
pub proof fn bins_are_read_with_their_own_exponent(
    d: Seq<u8>,
    lim: int,
    p: int,
    bap: Seq<u8>,
    exponents: Seq<int>,
    bin: int,
    g: Groups,
)
    ensures
        coefficients(d, lim, p, bap, exponents, bin, bin + 1, g) matches Ok((v, h, q)) ==> v.len()
            == 1 && coefficient(d, lim, p, bap[bin] as int, exponents[bin], g) == Ok::<
            _,
            ParseError,
        >((v[0], h, q)),
{
    reveal_with_fuel(coefficients, 2);
}

} // verus!
