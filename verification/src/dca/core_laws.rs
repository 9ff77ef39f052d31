//! What the bands of a core frame hold of what was coded.

use vstd::prelude::*;
use crate::bits::code_space;
use crate::dca::core_audio::{
    above, band_scale, bit_len, block_digits, blocks_at, dequantized, digit, row_of, row_put,
    step_shift, written, AudioModel, BLOCK_CODE_NBITS,
};
use crate::dca::core_bands::{
    adpcm_bands, adpcm_channels, adpcm_row, hf_row, joint_row, joint_rows, lfe_values, predicted,
};
use crate::dca::core_tables::CoreTables;
use crate::dca::fixed::{
    clipped, products_are_rounded, rounded, rounding_takes_the_nearest, scaled, wrap32,
};
use crate::dca::xll_laws::nearest;

verus! {

/// The code of four digits to the base `levels`, the first the lowest.
pub open spec fn block_code(levels: int, a: int, b: int, c: int, e: int) -> int {
    a + levels * (b + levels * (c + levels * e))
}

/// A block code gives back the four samples that it was made of, the first in
/// its lowest digit, each as far from the middle as it was.
pub proof fn block_codes_come_back(levels: int, half: int, a: int, b: int, c: int, e: int)
    requires
        levels == 2 * half + 1,
        0 < half <= 1000,
        -half <= a <= half,
        -half <= b <= half,
        -half <= c <= half,
        -half <= e <= half,
    ensures
        block_digits(block_code(levels, a + half, b + half, c + half, e + half), levels) == seq![
            a as i32,
            b as i32,
            c as i32,
            e as i32,
        ],
        above(block_code(levels, a + half, b + half, c + half, e + half), levels, 4) == 0,
{
    let z = e + half;
    let y = c + half + levels * z;
    let x = b + half + levels * y;
    let w = a + half + levels * x;
    assert(w == block_code(levels, a + half, b + half, c + half, e + half));
    lemma_digit(levels, a + half, x);
    lemma_digit(levels, b + half, y);
    lemma_digit(levels, c + half, z);
    lemma_digit(levels, z, 0);
    reveal_with_fuel(digit, 5);
    reveal_with_fuel(above, 5);
    assert((levels - 1) / 2 == half);
    assert(block_digits(w, levels) =~= seq![a as i32, b as i32, c as i32, e as i32]);
}

proof fn lemma_digit(levels: int, low: int, high: int)
    requires
        0 <= low < levels,
    ensures
        (low + levels * high) % levels == low,
        (low + levels * high) / levels == high,
{
    lemma_swap(levels, high);
    vstd::arithmetic::div_mod::lemma_fundamental_div_mod_converse(
        low + levels * high,
        levels,
        high,
        low,
    );
}

/// A number with more than its four digits is no block code.
pub proof fn block_codes_have_four_digits(code: int, levels: int)
    requires
        levels > 1,
        0 <= code,
    ensures
        (above(code, levels, 4) == 0) == (code < levels * (levels * (levels * levels))),
{
    reveal_with_fuel(above, 5);
    lemma_quotient(code, levels, levels * (levels * levels));
    let c1 = code / levels;
    assert(levels * levels > 0 && levels * (levels * levels) > 0) by (nonlinear_arith)
        requires
            levels > 1,
    ;
    assert(c1 >= 0) by (nonlinear_arith)
        requires
            c1 == code / levels,
            code >= 0,
            levels > 1,
    ;
    lemma_quotient(c1, levels, levels * levels);
    let c2 = c1 / levels;
    assert(c2 >= 0) by (nonlinear_arith)
        requires
            c2 == c1 / levels,
            c1 >= 0,
            levels > 1,
    ;
    lemma_quotient(c2, levels, levels);
    let c3 = c2 / levels;
    assert(c3 >= 0) by (nonlinear_arith)
        requires
            c3 == c2 / levels,
            c2 >= 0,
            levels > 1,
    ;
    lemma_quotient(c3, levels, 1);
    let c4 = c3 / levels;
    assert(c4 >= 0) by (nonlinear_arith)
        requires
            c4 == c3 / levels,
            c3 >= 0,
            levels > 1,
    ;
    assert(above(code, levels, 4) == c4);
    assert(levels * 1 == levels);
}

proof fn lemma_quotient(code: int, levels: int, room: int)
    requires
        levels > 1,
    ensures
        (code / levels < room) == (code < levels * room),
{
    vstd::arithmetic::div_mod::lemma_fundamental_div_mod(code, levels);
    let q = code / levels;
    let r = code % levels;
    assert(0 <= r < levels);
    assert((q < room) == (levels * q + r < levels * room)) by (nonlinear_arith)
        requires
            0 <= r < levels,
    ;
}

proof fn lemma_bit_len(y: int)
    requires
        0 < y < 0x1_0000_0000,
    ensures
        1 <= bit_len(y) <= 32,
        code_space(bit_len(y) - 1) <= y < code_space(bit_len(y)),
    decreases y,
{
    if y > 1 {
        lemma_bit_len(y / 2);
        let b = bit_len(y / 2);
        assert(bit_len(y) == 1 + b);
        if b == 32 {
            assert(code_space(31) == 0x8000_0000);
        }
        crate::bit_laws::one_bit_doubles_the_codes(b);
        crate::bit_laws::one_bit_doubles_the_codes(b + 1);
    } else {
        assert(bit_len(0) == 0);
        assert(bit_len(1) == 1 + bit_len(1int / 2));
        assert(code_space(0) == 1 && code_space(1) == 2);
    }
}

/// A step of more than 24 bits keeps its highest bits: as many as leave it a
/// 23-bit number.
pub proof fn steps_keep_their_high_bits(x: int)
    requires
        0 <= x < 0x40_0000_0000_0000,
    ensures
        x <= 0x80_0000 ==> step_shift(x) == 0,
        x > 0x80_0000 ==> 0x40_0000 <= x / code_space(step_shift(x)) < 0x80_0000,
{
    if x > 0x80_0000 {
        let y = x / 0x80_0000;
        lemma_bit_len(y);
        let b = bit_len(y);
        crate::bit_laws::one_bit_doubles_the_codes(b);
        let s = code_space(b);
        let h = code_space(b - 1);
        let q = x / s;
        vstd::arithmetic::div_mod::lemma_fundamental_div_mod(x, s);
        let r = x % s;
        assert(0x40_0000 <= q < 0x80_0000) by (nonlinear_arith)
            requires
                x == s * q + r,
                0 <= r < s,
                s == 2 * h,
                h >= 1,
                h * 0x80_0000 <= x,
                x < s * 0x80_0000,
        ;
    }
}

/// A sample is the nearest to its code times the step, in units of 22 bits.
pub proof fn samples_are_code_times_step(code: int, x: int)
    requires
        0 <= x <= 0x80_0000,
        -0x1_0000_0000 < code < 0x1_0000_0000,
        -0x80_0000 * 0x40_0000 <= code * x <= 0x7f_ffff * 0x40_0000,
    ensures
        nearest(code * x, 0x40_0000, dequantized(code, x)),
{
    assert(step_shift(x) == 0 && code_space(0) == 1 && code_space(22) == 0x40_0000);
    assert(x / 1 == x);
    rounding_takes_the_nearest(code * x, 22);
}

/// A code of zero is silence, and codes of either sign stand for the same
/// height.
pub proof fn opposite_codes_are_opposite_samples(code: int, x: int)
    requires
        0 <= x <= 0x80_0000,
        -0x80_0000 * 0x40_0000 < code * x < 0x7f_ffff * 0x40_0000,
    ensures
        dequantized(0, x) == 0,
        -1 <= dequantized(code, x) + dequantized(-code, x) <= 1,
{
    assert(step_shift(x) == 0 && code_space(0) == 1 && code_space(22) == 0x40_0000);
    assert(x / 1 == x);
    assert(0 * x == 0);
    assert((-code) * x == -(code * x)) by (nonlinear_arith);
    rounding_takes_the_nearest(code * x, 22);
    rounding_takes_the_nearest(-(code * x), 22);
    rounding_takes_the_nearest(0, 22);
}

/// `next` is what the four samples before it make likely: the first coefficient
/// weighs the latest of them.
pub open spec fn likely(coeff: Seq<i16>, past: Seq<i32>, next: int) -> bool {
    nearest(
        coeff[0] * past[3] + coeff[1] * past[2] + coeff[2] * past[1] + coeff[3] * past[0],
        8192,
        next,
    )
}

/// A prediction is the likely next sample of the four from `at` on, held to the
/// range of samples.
pub proof fn predictions_weigh_the_past(coeff: Seq<i16>, row: Seq<i32>, at: int, next: int)
    requires
        coeff.len() == 4,
        0 <= at,
        at + 4 <= row.len(),
        -0x80_0000 <= next <= 0x7f_ffff,
        likely(coeff, row.subrange(at, at + 4), next),
    ensures
        predicted(coeff, row, at) == next,
{
    let past = row.subrange(at, at + 4);
    let sum = row[at + 3] * coeff[0] + row[at + 2] * coeff[1] + row[at + 1] * coeff[2] + row[at]
        * coeff[3];
    assert(past[0] == row[at] && past[1] == row[at + 1] && past[2] == row[at + 2] && past[3]
        == row[at + 3]);
    lemma_swap(row[at + 3] as int, coeff[0] as int);
    lemma_swap(row[at + 2] as int, coeff[1] as int);
    lemma_swap(row[at + 1] as int, coeff[2] as int);
    lemma_swap(row[at] as int, coeff[3] as int);
    rounding_takes_the_nearest(sum, 13);
    assert(code_space(13) == 8192);
    assert(rounded(sum, 13) == next);
}

proof fn lemma_swap(a: int, b: int)
    ensures
        a * b == b * a,
{
    assert(a * b == b * a) by (nonlinear_arith);
}

/// A band coded as what a prediction from its last four samples leaves comes
/// back: `row` holds the residuals of `x` in the `n` places after `pos + 4`.
pub proof fn predicted_bands_come_back(
    x: Seq<i32>,
    row: Seq<i32>,
    coeff: Seq<i16>,
    foreseen: Seq<int>,
    pos: int,
    n: int,
)
    requires
        coeff.len() == 4,
        x.len() == row.len(),
        0 <= pos,
        0 <= n,
        pos + 4 + n <= x.len(),
        foreseen.len() == n,
        forall|i: int| 0 <= i < x.len() && !(pos + 4 <= i < pos + 4 + n) ==> #[trigger] row[i] == x[i],
        forall|k: int| 0 <= k < n ==> -0x80_0000 <= #[trigger] foreseen[k] <= 0x7f_ffff,
        forall|k: int|
            0 <= k < n ==> likely(
                coeff,
                x.subrange(pos + k, pos + k + 4),
                #[trigger] foreseen[k],
            ),
        forall|k: int| 0 <= k < n ==> #[trigger] row[pos + 4 + k] == x[pos + 4 + k] - foreseen[k],
        forall|k: int| 0 <= k < n ==> -0x80_0000 <= #[trigger] x[pos + 4 + k] <= 0x7f_ffff,
    ensures
        adpcm_row(row, coeff, pos, n) == x,
{
    lemma_predicted_band(x, row, coeff, foreseen, pos, n, n);
    assert(adpcm_row(row, coeff, pos, n) =~= x);
}

proof fn lemma_predicted_band(
    x: Seq<i32>,
    row: Seq<i32>,
    coeff: Seq<i16>,
    foreseen: Seq<int>,
    pos: int,
    n: int,
    k: int,
)
    requires
        coeff.len() == 4,
        x.len() == row.len(),
        0 <= pos,
        0 <= k <= n,
        pos + 4 + n <= x.len(),
        foreseen.len() == n,
        forall|i: int| 0 <= i < x.len() && !(pos + 4 <= i < pos + 4 + n) ==> #[trigger] row[i] == x[i],
        forall|j: int| 0 <= j < n ==> -0x80_0000 <= #[trigger] foreseen[j] <= 0x7f_ffff,
        forall|j: int|
            0 <= j < n ==> likely(
                coeff,
                x.subrange(pos + j, pos + j + 4),
                #[trigger] foreseen[j],
            ),
        forall|j: int| 0 <= j < n ==> #[trigger] row[pos + 4 + j] == x[pos + 4 + j] - foreseen[j],
        forall|j: int| 0 <= j < n ==> -0x80_0000 <= #[trigger] x[pos + 4 + j] <= 0x7f_ffff,
    ensures
        adpcm_row(row, coeff, pos, k).len() == x.len(),
        forall|i: int|
            0 <= i < x.len() ==> #[trigger] adpcm_row(row, coeff, pos, k)[i] == if pos + 4 + k <= i
                < pos + 4 + n {
                row[i]
            } else {
                x[i]
            },
    decreases k,
{
    if k > 0 {
        lemma_predicted_band(x, row, coeff, foreseen, pos, n, k - 1);
        let r = adpcm_row(row, coeff, pos, k - 1);
        let at = pos + k - 1;
        assert(r.subrange(at, at + 4) =~= x.subrange(pos + (k - 1), pos + (k - 1) + 4));
        assert(likely(coeff, x.subrange(pos + (k - 1), pos + (k - 1) + 4), foreseen[k - 1]));
        predictions_weigh_the_past(coeff, r, at, foreseen[k - 1]);
        assert(row[pos + 4 + (k - 1)] == x[pos + 4 + (k - 1)] - foreseen[k - 1]);
        assert(-0x80_0000 <= x[pos + 4 + (k - 1)] <= 0x7f_ffff);
        assert(pos + 4 + (k - 1) == 4 + at);
    }
}

/// Where nothing is left to add, a sample is what its past makes likely; what is
/// left otherwise is the distance, unless the sum is clipped.
pub proof fn residuals_are_distances(row: Seq<i32>, coeff: Seq<i16>, pos: int, n: int, k: int)
    requires
        0 <= pos,
        0 <= k < n,
        pos + 4 + n <= row.len(),
    ensures
        ({
            let out = adpcm_row(row, coeff, pos, n);
            let i = pos + 4 + k;
            &&& out.len() == row.len()
            &&& row[i] == 0 ==> out[i] == predicted(coeff, out, pos + k)
            &&& -0x80_0000 < out[i] < 0x7f_ffff ==> out[i] - predicted(coeff, out, pos + k) == row[i]
        }),
    decreases n,
{
    lemma_untouched(row, coeff, pos, n);
    lemma_untouched(row, coeff, pos, n - 1);
    if k < n - 1 {
        residuals_are_distances(row, coeff, pos, n - 1, k);
        let r = adpcm_row(row, coeff, pos, n - 1);
        let out = adpcm_row(row, coeff, pos, n);
        assert(forall|i: int| 0 <= i < row.len() && i != pos + 4 + n - 1 ==> #[trigger] out[i] == r[i]);
        assert(out[pos + k] == r[pos + k] && out[pos + k + 1] == r[pos + k + 1] && out[pos + k + 2]
            == r[pos + k + 2] && out[pos + k + 3] == r[pos + k + 3]);
    } else {
        let r = adpcm_row(row, coeff, pos, n - 1);
        let out = adpcm_row(row, coeff, pos, n);
        let at = pos + n - 1;
        assert(r[4 + at] == row[4 + at]);
        assert(out[at] == r[at] && out[at + 1] == r[at + 1] && out[at + 2] == r[at + 2] && out[at
            + 3] == r[at + 3]);
        assert(predicted(coeff, out, at) == predicted(coeff, r, at));
        let p = predicted(coeff, r, at);
        assert(-0x80_0000 <= p <= 0x7f_ffff);
    }
}

/// Only the `n` samples after the four before `pos` change.
proof fn lemma_untouched(row: Seq<i32>, coeff: Seq<i16>, pos: int, n: int)
    requires
        0 <= pos,
        0 <= n,
        pos + 4 + n <= row.len(),
    ensures
        adpcm_row(row, coeff, pos, n).len() == row.len(),
        forall|i: int|
            0 <= i < row.len() && !(pos + 4 <= i < pos + 4 + n) ==> #[trigger] adpcm_row(
                row,
                coeff,
                pos,
                n,
            )[i] == row[i],
    decreases n,
{
    if n > 0 {
        lemma_untouched(row, coeff, pos, n - 1);
    }
}

/// No two bands share a row.
pub proof fn bands_have_their_own_rows(c: int, b: int, d: int, e: int)
    requires
        0 <= b < 32,
        0 <= e < 32,
    ensures
        row_of(c, b) == row_of(d, e) ==> c == d && b == e,
        0 <= c < 12 ==> 0 <= row_of(c, b) < 384,
{
}

/// A band is predicted with the coefficients that it names and from itself
/// alone, and only where its mode says so.
pub proof fn bands_are_predicted_alone(
    m: AudioModel,
    s: Seq<Seq<i32>>,
    pos: int,
    len: int,
    channels: int,
    ch: int,
    band: int,
)
    requires
        s.len() == 384,
        0 <= ch < channels,
        0 <= m.base,
        m.base + channels <= 12,
        0 <= band < 32,
        forall|c: int| 0 <= c < channels ==> (#[trigger] m.head.modes[c]).len() <= 32,
    ensures
        ({
            let r = row_of(m.base + ch, band);
            let out = adpcm_channels(m, s, pos, len, channels);
            &&& out.len() == 384
            &&& band < m.head.modes[ch].len() && m.head.modes[ch][band] ==> out[r] == adpcm_row(
                s[r],
                m.tables.adpcm@[m.head.predictors[ch][band] as int]@,
                pos,
                len,
            )
            &&& band >= m.head.modes[ch].len() || !m.head.modes[ch][band] ==> out[r] == s[r]
        }),
    decreases channels,
{
    lemma_channels_apart(m, s, pos, len, channels - 1);
    let before = adpcm_channels(m, s, pos, len, channels - 1);
    let k = m.head.modes[channels - 1].len() as int;
    lemma_bands_apart(m, before, channels - 1, pos, len, k);
    let r = row_of(m.base + ch, band);
    if ch < channels - 1 {
        bands_are_predicted_alone(m, s, pos, len, channels - 1, ch, band);
        assert(adpcm_bands(m, before, channels - 1, pos, len, k)[r] == before[r]);
    } else {
        assert(before[r] == s[r]);
    }
}

proof fn lemma_channels_apart(m: AudioModel, s: Seq<Seq<i32>>, pos: int, len: int, channels: int)
    requires
        s.len() == 384,
        0 <= m.base,
        0 <= channels,
        m.base + channels <= 12,
        forall|c: int| 0 <= c < channels ==> (#[trigger] m.head.modes[c]).len() <= 32,
    ensures
        adpcm_channels(m, s, pos, len, channels).len() == 384,
        forall|r: int|
            row_of(m.base + channels, 0) <= r < 384 ==> #[trigger] adpcm_channels(
                m,
                s,
                pos,
                len,
                channels,
            )[r] == s[r],
    decreases channels,
{
    if channels > 0 {
        lemma_channels_apart(m, s, pos, len, channels - 1);
        let before = adpcm_channels(m, s, pos, len, channels - 1);
        lemma_bands_apart(
            m,
            before,
            channels - 1,
            pos,
            len,
            m.head.modes[channels - 1].len() as int,
        );
    }
}

proof fn lemma_bands_apart(m: AudioModel, s: Seq<Seq<i32>>, ch: int, pos: int, len: int, k: int)
    requires
        s.len() == 384,
        0 <= m.base,
        0 <= ch,
        m.base + ch < 12,
        0 <= k <= 32,
    ensures
        ({
            let out = adpcm_bands(m, s, ch, pos, len, k);
            let first = row_of(m.base + ch, 0);
            &&& out.len() == 384
            &&& forall|r: int|
                0 <= r < 384 && !(first <= r < first + k) ==> #[trigger] out[r] == s[r]
            &&& forall|b: int|
                0 <= b < k ==> #[trigger] out[first + b] == if m.head.modes[ch][b] {
                    adpcm_row(
                        s[first + b],
                        m.tables.adpcm@[m.head.predictors[ch][b] as int]@,
                        pos,
                        len,
                    )
                } else {
                    s[first + b]
                }
        }),
    decreases k,
{
    if k > 0 {
        lemma_bands_apart(m, s, ch, pos, len, k - 1);
        let first = row_of(m.base + ch, 0);
        assert(row_of(m.base + ch, k - 1) == first + (k - 1));
    }
}

/// A vector-coded band holds, in each place, the vector's element times the
/// scale in sixteenths, and the places around it stay.
pub proof fn vectors_are_scaled(row: Seq<i32>, at: int, coeff: Seq<i8>, scale: int, len: int, i: int)
    requires
        0 <= at,
        0 <= len <= coeff.len(),
        at + len <= row.len(),
        0 <= i < row.len(),
    ensures
        hf_row(row, at, coeff, scale, len).len() == row.len(),
        !(at <= i < at + len) ==> hf_row(row, at, coeff, scale, len)[i] == row[i],
        at <= i < at + len && -0x7ff_fff0 <= coeff[i - at] * scale <= 0x7ff_fff0 ==> nearest(
            coeff[i - at] * scale,
            16,
            hf_row(row, at, coeff, scale, len)[i] as int,
        ),
{
}

/// A band taken from another channel is that channel's in the same places,
/// times the scale in units of 17 bits, and the places around it stay.
pub proof fn joint_bands_are_scaled(
    dst: Seq<i32>,
    src: Seq<i32>,
    scale: int,
    at: int,
    len: int,
    i: int,
)
    requires
        0 <= at,
        0 <= len,
        at + len <= dst.len() == src.len(),
        0 <= i < dst.len(),
    ensures
        joint_row(dst, src, scale, at, len).len() == dst.len(),
        !(at <= i < at + len) ==> joint_row(dst, src, scale, at, len)[i] == dst[i],
        at <= i < at + len && -0x80_0000 * 0x2_0000 <= src[i] * scale <= 0x7f_ffff * 0x2_0000
            ==> nearest(src[i] * scale, 0x2_0000, joint_row(dst, src, scale, at, len)[i] as int),
{
    if at <= i < at + len && -0x80_0000 * 0x2_0000 <= src[i] * scale <= 0x7f_ffff * 0x2_0000 {
        assert(code_space(17) == 0x2_0000);
        products_are_rounded(src[i] as int, scale, 17);
        assert(src[at + (i - at)] == src[i]);
    }
}

/// A channel's joint bands are those right above its own, each from the same
/// band of the source channel.
pub proof fn joint_bands_come_from_their_source(
    m: AudioModel,
    s: Seq<Seq<i32>>,
    ch: int,
    src: int,
    at: int,
    len: int,
    k: int,
    b: int,
)
    requires
        s.len() == 384,
        0 <= m.base,
        0 <= ch,
        m.base + ch < 12,
        0 <= src < 12,
        src != m.base + ch,
        0 <= k,
        m.set.nsubbands[ch] + k <= 32,
        0 <= b < 32,
    ensures
        ({
            let out = joint_rows(m, s, ch, src, at, len, k);
            let own = m.set.nsubbands[ch] as int;
            let r = row_of(m.base + ch, b);
            &&& out.len() == 384
            &&& forall|q: int|
                0 <= q < 384 && !(row_of(m.base + ch, own) <= q < row_of(m.base + ch, own + k))
                    ==> #[trigger] out[q] == s[q]
            &&& own <= b < own + k ==> out[r] == joint_row(
                s[r],
                s[row_of(src, b)],
                m.head.joint[ch][b - own] as int,
                at,
                len,
            )
        }),
    decreases k,
{
    if k > 0 {
        let own = m.set.nsubbands[ch] as int;
        joint_bands_come_from_their_source(m, s, ch, src, at, len, k - 1, b);
        joint_bands_come_from_their_source(m, s, ch, src, at, len, k - 1, own + k - 1);
    }
}

/// Low-frequency samples are their codes times the scale and 0.035.
pub proof fn low_frequency_samples_are_scaled(codes: Seq<i32>, scale: int, n: int, i: int)
    requires
        0 <= i < n <= codes.len(),
        -128 <= codes[i] <= 127,
        0 <= scale <= 0x7f_ffff,
        -8_000_000_000 <= 35 * (codes[i] * scale) <= 8_000_000_000,
    ensures
        -10_000 <= 1000 * lfe_values(codes, scale, n)[i] - 35 * (codes[i] * scale) <= 10_000,
{
    let c = codes[i] as int;
    assert(code_space(23) == 0x80_0000);
    assert(0 <= 4_697_620 * scale < 0x7fff_ffff * code_space(23));
    products_are_rounded(4_697_620, scale, 23);
    let step = scaled(4_697_620, scale, 23);
    let x = c * step;
    assert(16_777_216 * step <= 9_395_240 * scale + 8_388_608 && 16_777_216 * step > 9_395_240
        * scale - 8_388_608);
    lemma_share(c, step, scale);
    assert(wrap32(x / 16) == x / 16);
}

proof fn lemma_share(c: int, step: int, scale: int)
    requires
        -128 <= c <= 127,
        0 <= scale <= 0x7f_ffff,
        9_395_240 * scale - 8_388_608 < 16_777_216 * step <= 9_395_240 * scale + 8_388_608,
    ensures
        -1_100_000_000 <= 16_777_216 * (c * step) - 9_395_240 * (c * scale) <= 1_100_000_000,
        -1_100_000_000 <= c * scale <= 1_100_000_000,
{
    let e = 16_777_216 * step - 9_395_240 * scale;
    assert(16_777_216 * (c * step) - 9_395_240 * (c * scale) == c * e) by (nonlinear_arith)
        requires
            e == 16_777_216 * step - 9_395_240 * scale,
    ;
    assert(-1_100_000_000 <= c * e <= 1_100_000_000) by (nonlinear_arith)
        requires
            -128 <= c <= 127,
            -8_388_608 <= e <= 8_388_608,
    ;
    assert(-1_100_000_000 <= c * scale <= 1_100_000_000) by (nonlinear_arith)
        requires
            -128 <= c <= 127,
            0 <= scale <= 0x7f_ffff,
    ;
}

/// Two codes of eight samples: the second follows the first, and the first
/// holds the earlier four.
pub proof fn block_pairs_come_back(
    d: Seq<u8>,
    lim: int,
    p: int,
    t: CoreTables,
    abits: int,
    half: int,
    s: Seq<int>,
)
    requires
        t.quant_levels@[abits] == 2 * half + 1,
        0 < half <= 1000,
        s.len() == 8,
        forall|i: int| 0 <= i < 8 ==> -half <= #[trigger] s[i] <= half,
        p + 2 * BLOCK_CODE_NBITS@[abits - 1] <= lim,
        crate::bits::field(d, p, BLOCK_CODE_NBITS@[abits - 1] as int) == block_code(
            2 * half + 1,
            s[0] + half,
            s[1] + half,
            s[2] + half,
            s[3] + half,
        ),
        crate::bits::field(
            d,
            p + BLOCK_CODE_NBITS@[abits - 1],
            BLOCK_CODE_NBITS@[abits - 1] as int,
        ) == block_code(2 * half + 1, s[4] + half, s[5] + half, s[6] + half, s[7] + half),
    ensures
        blocks_at(d, lim, p, t, abits) is Ok,
        blocks_at(d, lim, p, t, abits)->Ok_0.1 == p + 2 * BLOCK_CODE_NBITS@[abits - 1],
        blocks_at(d, lim, p, t, abits)->Ok_0.0 == s.map_values(|v: int| v as i32),
{
    block_codes_come_back(2 * half + 1, half, s[0], s[1], s[2], s[3]);
    block_codes_come_back(2 * half + 1, half, s[4], s[5], s[6], s[7]);
    assert(blocks_at(d, lim, p, t, abits)->Ok_0.0 =~= s.map_values(|v: int| v as i32));
}

/// A band takes its first scale before the transition and its second from it
/// on; without one, the first throughout.
pub proof fn scales_change_at_the_transition(m: AudioModel, ch: int, band: int, ssf: int)
    requires
        0 <= ssf,
    ensures
        ssf < m.head.transition[ch][band] ==> band_scale(m, ch, band, ssf, false)
            == m.head.scales[ch][band].0,
        m.head.transition[ch][band] == 0 ==> band_scale(m, ch, band, ssf, false)
            == m.head.scales[ch][band].0,
        0 < m.head.transition[ch][band] <= ssf ==> band_scale(m, ch, band, ssf, false)
            == m.head.scales[ch][band].1,
{
}

/// A code book's adjustment of a scale is in units of 22 bits, and one of such
/// a unit leaves the scale.
pub proof fn adjustments_scale_the_scale(m: AudioModel, ch: int, band: int, ssf: int)
    ensures
        ({
            let plain = band_scale(m, ch, band, ssf, false);
            let adjust = m.set.adjust[m.head.abits[ch][band] - 1][ch] as int;
            let scaled_up = band_scale(m, ch, band, ssf, true);
            &&& adjust == 0x40_0000 && -0x80_0000 <= plain <= 0x7f_ffff ==> scaled_up == plain
            &&& 0 <= adjust * plain <= 0x7f_ffff * 0x40_0000 ==> 0x40_0000 * scaled_up <= adjust
                * plain < 0x40_0000 * (scaled_up + 1)
        }),
{
}

} // verus!
