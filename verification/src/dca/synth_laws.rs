//! What the transforms and filters of a core frame keep of their input.

use vstd::prelude::*;
use crate::bits::code_space;
use crate::dca::core_audio::written;
use crate::dca::core_bands::Audio;
use crate::dca::core_decoder::{channel_speaker, CoreModel};
use crate::dca::fixed::{clipped, products_are_rounded, rounded, rounding_takes_the_nearest, wrap32};
use crate::dca::imdct::{
    butterflies, clip_all, dct_32, dct_even, dct_odd, dot, is_loud, lowered, modulated, raised, sums_a,
    sums_b, sums_c, sums_d, weighted, DCT_A, DCT_B,
};
use crate::dca::synth::{
    bank, block_filtered, block_input, channel_pcm, doubled, filtered, last_of, lfe_sample,
    lfe_taps, mode_set, settled_sum, synthesized, taps, voices, widened, window_of, Line,
    SynthModel, SynthTables,
};
use crate::dca::xll_laws::nearest;

verus! {

/// The sum of eight numbers.
pub open spec fn sum8(f: spec_fn(int) -> int) -> int {
    f(0) + f(1) + f(2) + f(3) + f(4) + f(5) + f(6) + f(7)
}

/// The sum of seven numbers.
pub open spec fn sum7(f: spec_fn(int) -> int) -> int {
    f(0) + f(1) + f(2) + f(3) + f(4) + f(5) + f(6)
}

/// Each sum of neighbours gives back either when the other is taken away.
pub proof fn neighbours_can_be_told_apart(v: Seq<i32>, at: int, n: int, i: int)
    requires
        0 <= at,
        0 <= i < n,
        at + 2 * n <= v.len(),
    ensures
        sums_a(v, at, n).len() == n,
        sums_b(v, at, n).len() == n,
        sums_c(v, at, n).len() == n,
        sums_d(v, at, n).len() == n,
        wrap32(sums_a(v, at, n)[i] - v[at + 2 * i]) == v[at + 2 * i + 1],
        sums_b(v, at, n)[0] == v[at],
        i > 0 ==> wrap32(sums_b(v, at, n)[i] - v[at + 2 * i - 1]) == v[at + 2 * i],
        sums_c(v, at, n)[i] == v[at + 2 * i],
        sums_d(v, at, n)[0] == v[at + 1],
        i > 0 ==> wrap32(sums_d(v, at, n)[i] - v[at + 2 * i - 1]) == v[at + 2 * i + 1],
{
}

/// Clipping keeps samples of 24 bits and holds the others to the nearest.
pub proof fn clipping_keeps_small_samples(v: Seq<i32>, i: int)
    requires
        0 <= i < v.len(),
    ensures
        clip_all(v).len() == v.len(),
        -0x80_0000 <= clip_all(v)[i] <= 0x7f_ffff,
        -0x80_0000 <= v[i] <= 0x7f_ffff ==> clip_all(v)[i] == v[i],
        v[i] > 0x7f_ffff ==> clip_all(v)[i] == 0x7f_ffff,
        v[i] < -0x80_0000 ==> clip_all(v)[i] == -0x80_0000,
{
}

/// A value of the even transform is a row of its table times the eight inputs.
pub proof fn even_transforms_multiply_by_rows(v: Seq<i32>, at: int, i: int)
    requires
        0 <= i < 8,
        ({
            let sum = sum8(|k: int| DCT_A@[8 * i + k] * v[at + k]);
            -0x8000_0000 * 0x80_0000 <= sum < 0x7fff_ffff * 0x80_0000
        }),
    ensures
        dct_even(v, at).len() == 8,
        nearest(
            sum8(|k: int| DCT_A@[8 * i + k] * v[at + k]),
            0x80_0000,
            dct_even(v, at)[i] as int,
        ),
{
    reveal_with_fuel(dot, 9);
    let sum = dot(DCT_A@, 8 * i, v, at, 8);
    assert(sum == sum8(|k: int| DCT_A@[8 * i + k] * v[at + k]));
    assert(code_space(23) == 0x80_0000);
    rounding_takes_the_nearest(sum, 23);
    assert(wrap32(rounded(sum, 23)) == rounded(sum, 23));
}

/// A value of the odd transform is the first input and a row of its table times
/// the seven others.
pub proof fn odd_transforms_multiply_by_rows(v: Seq<i32>, at: int, i: int)
    requires
        0 <= i < 8,
        ({
            let sum = 0x80_0000 * v[at] + sum7(|k: int| DCT_B@[7 * i + k] * v[at + 1 + k]);
            -0x8000_0000 * 0x80_0000 <= sum < 0x7fff_ffff * 0x80_0000
        }),
    ensures
        dct_odd(v, at).len() == 8,
        nearest(
            0x80_0000 * v[at] + sum7(|k: int| DCT_B@[7 * i + k] * v[at + 1 + k]),
            0x80_0000,
            dct_odd(v, at)[i] as int,
        ),
{
    reveal_with_fuel(dot, 8);
    let sum = v[at] * 0x80_0000 + dot(DCT_B@, 7 * i, v, at + 1, 7);
    assert(dot(DCT_B@, 7 * i, v, at + 1, 7) == sum7(|k: int| DCT_B@[7 * i + k] * v[at + 1 + k]));
    assert(code_space(23) == 0x80_0000);
    rounding_takes_the_nearest(sum, 23);
    assert(wrap32(rounded(sum, 23)) == rounded(sum, 23));
}

/// A modulation turns each pair of a first and a second half into its sum and,
/// from the other end, its difference, each times its weight.
pub proof fn modulations_hold_sums_and_differences(
    table: Seq<i32>,
    v: Seq<i32>,
    at: int,
    n: int,
    i: int,
)
    requires
        0 <= at,
        0 <= i < n,
        at + 2 * n <= v.len(),
        table.len() == 2 * n,
        -0x100_0000 <= v[at + i] <= 0x100_0000,
        -0x100_0000 <= v[at + n + i] <= 0x100_0000,
        -0x1000_0000 <= table[i] <= 0x1000_0000,
        -0x1000_0000 <= table[2 * n - 1 - i] <= 0x1000_0000,
    ensures
        modulated(table, v, at, n).len() == 2 * n,
        nearest(
            table[i] * (v[at + i] + v[at + n + i]),
            0x80_0000,
            modulated(table, v, at, n)[i] as int,
        ),
        nearest(
            table[2 * n - 1 - i] * (v[at + i] - v[at + n + i]),
            0x80_0000,
            modulated(table, v, at, n)[2 * n - 1 - i] as int,
        ),
{
    assert(code_space(23) == 0x80_0000);
    let a = v[at + i] as int;
    let b = v[at + n + i] as int;
    let t = table[i] as int;
    let u = table[2 * n - 1 - i] as int;
    lemma_small(t, a + b);
    lemma_small(u, a - b);
    products_are_rounded(t, a + b, 23);
    products_are_rounded(u, a - b, 23);
    let j = 2 * n - 1 - i;
    assert(at + 2 * n - 1 - j == at + i && at + 3 * n - 1 - j == at + n + i);
}

proof fn lemma_small(t: int, x: int)
    requires
        -0x1000_0000 <= t <= 0x1000_0000,
        -0x200_0000 <= x <= 0x200_0000,
    ensures
        -0x8000_0000 * 0x80_0000 <= t * x < 0x7fff_ffff * 0x80_0000,
{
    assert(-0x20_0000_0000_0000 <= t * x <= 0x20_0000_0000_0000) by (nonlinear_arith)
        requires
            -0x1000_0000 <= t <= 0x1000_0000,
            -0x200_0000 <= x <= 0x200_0000,
    ;
}

/// A weighted pair holds the first with the weighted second added and, from the
/// other end, taken away: together they are twice the first.
pub proof fn weighted_pairs_hold_the_first_twice(
    table: Seq<i32>,
    v: Seq<i32>,
    at: int,
    n: int,
    i: int,
)
    requires
        0 <= at,
        0 <= i < n,
        at + 2 * n <= v.len(),
        table.len() >= n,
        -0x100_0000 <= v[at + i] <= 0x100_0000,
        -0x100_0000 <= v[at + n + i] <= 0x100_0000,
        -0x1000_0000 <= table[i] <= 0x1000_0000,
    ensures
        weighted(table, v, at, n).len() == 2 * n,
        weighted(table, v, at, n)[i] + weighted(table, v, at, n)[2 * n - 1 - i] == 2 * v[at + i],
        nearest(
            table[i] * v[at + n + i],
            0x80_0000,
            weighted(table, v, at, n)[i] - v[at + i],
        ),
{
    assert(code_space(23) == 0x80_0000);
    let b = v[at + n + i] as int;
    let t = table[i] as int;
    lemma_small(t, b);
    products_are_rounded(t, b, 23);
    let s = crate::dca::fixed::scaled(t, b, 23);
    assert(-0x4000_0000 <= s <= 0x4000_0000) by {
        assert(-0x20_0000_0000_0000 <= t * b <= 0x20_0000_0000_0000) by (nonlinear_arith)
            requires
                -0x1000_0000 <= t <= 0x1000_0000,
                -0x200_0000 <= b <= 0x200_0000,
        ;
    }
    let j = 2 * n - 1 - i;
    assert(at + 2 * n - 1 - j == at + i && at + 3 * n - 1 - j == at + n + i && 2 * n - 1 - j == i);
}

/// Butterflies hold the differences of values from both ends and, behind them,
/// their sums: the two together are twice the first.
pub proof fn butterflies_hold_differences_and_sums(v: Seq<i32>, i: int)
    requires
        v.len() % 2 == 0,
        0 <= i < v.len() / 2,
        -0x40_0000 <= v[i] < 0x40_0000,
        -0x40_0000 <= v[v.len() - 1 - i] < 0x40_0000,
    ensures
        butterflies(v).len() == v.len(),
        butterflies(v)[i] + butterflies(v)[v.len() / 2 + i] == 2 * v[i],
        butterflies(v)[v.len() / 2 + i] - butterflies(v)[i] == 2 * v[v.len() - 1 - i],
{
    let n = (v.len() / 2) as int;
    assert(v.len() - 1 - (n + i - n) == v.len() - 1 - i);
}

/// Quiet input is transformed as it is; loud input as its nearest quarter, and
/// the result taken four times.
pub proof fn loud_input_is_taken_in_quarters(v: Seq<i32>, w: Seq<i32>, i: int)
    requires
        0 <= i < v.len() == w.len(),
        -0x80_0000 <= v[i] <= 0x7f_ffff,
    ensures
        lowered(v).len() == v.len(),
        !is_loud(v) ==> lowered(v) == v,
        is_loud(v) ==> nearest(v[i] as int, 4, lowered(v)[i] as int),
        raised(w, is_loud(v)).len() == w.len(),
        -0x80_0000 <= w[i] <= 0x7f_ffff ==> raised(w, false)[i] == w[i],
        -0x20_0000 <= w[i] <= 0x1f_ffff ==> raised(w, true)[i] == 4 * w[i],
{
}

/// A block enters the ring where the line stands, and the line moves back by
/// its length, around the ring.
pub proof fn blocks_enter_the_ring(line: Line, window: Seq<i32>, spectrum: Seq<i32>, h: int, s: int)
    requires
        h == 16 || h == 32,
        line.h1.len() == 1024,
        0 <= line.off <= 30 * h,
        spectrum.len() == 2 * h,
    ensures
        ({
            let next = filtered(line, window, spectrum, h, s).0;
            &&& next.h1.subrange(line.off, line.off + 2 * h) == spectrum
            &&& forall|i: int|
                0 <= i < 1024 && !(line.off <= i < line.off + 2 * h) ==> #[trigger] next.h1[i]
                    == line.h1[i]
            &&& 0 <= next.off < 32 * h
            &&& (next.off + 2 * h) % (32 * h) == line.off % (32 * h)
        }),
{
    let next = filtered(line, window, spectrum, h, s).0;
    assert(next.h1.subrange(line.off, line.off + 2 * h) =~= spectrum);
    if h == 16 {
        assert((next.off + 32) % 512 == line.off % 512);
    } else {
        assert((next.off + 64) % 1024 == line.off % 1024);
    }
}

/// What eight taps of a window see of a ring.
pub open spec fn seen(window: Seq<i32>, w: int, ring: Seq<i32>, off: int, x: int, h: int) -> int {
    sum8(|k: int| window[w + 4 * h * k] * ring[(off + 4 * h * k) % (32 * h) + x])
}

proof fn lemma_seen(window: Seq<i32>, w: int, ring: Seq<i32>, off: int, x: int, h: int)
    ensures
        taps(window, w, ring, off, x, h, 8) == seen(window, w, ring, off, x, h),
{
    reveal_with_fuel(taps, 9);
}

/// Every output sample is what was held for it and what eight taps see: the
/// first half from the block's start on, the second from its middle back.
pub proof fn banks_play_what_was_held_and_seen(
    line: Line,
    window: Seq<i32>,
    spectrum: Seq<i32>,
    h: int,
    s: int,
    i: int,
)
    requires
        h == 16 || h == 32,
        s == 20 || s == 21,
        line.h1.len() == 1024,
        line.h2.len() == 64,
        0 <= i < 2 * h,
        ({
            let ring = written(line.h1, line.off, spectrum);
            let x = if i < h { i } else { 2 * h - 1 - i };
            let sum = line.h2[i] * code_space(s) + seen(window, i, ring, line.off, x, h);
            -0x7f_0000 * code_space(s) <= sum <= 0x7f_0000 * code_space(s)
        }),
    ensures
        ({
            let ring = written(line.h1, line.off, spectrum);
            let x = if i < h { i } else { 2 * h - 1 - i };
            nearest(
                line.h2[i] * code_space(s) + seen(window, i, ring, line.off, x, h),
                code_space(s),
                filtered(line, window, spectrum, h, s).1[i] as int,
            )
        }),
{
    let ring = written(line.h1, line.off, spectrum);
    let x = if i < h { i } else { 2 * h - 1 - i };
    lemma_seen(window, i, ring, line.off, x, h);
    let sum = line.h2[i] * code_space(s) + seen(window, i, ring, line.off, x, h);
    rounding_takes_the_nearest(sum, s);
    assert(code_space(20) == 0x10_0000 && code_space(21) == 0x20_0000);
}

/// Every held sample is what eight taps of the window's other part see: the
/// first half from the block's middle on, the second from its end back.
pub proof fn banks_hold_what_the_other_part_sees(
    line: Line,
    window: Seq<i32>,
    spectrum: Seq<i32>,
    h: int,
    s: int,
    i: int,
)
    requires
        h == 16 || h == 32,
        s == 20 || s == 21,
        line.h1.len() == 1024,
        line.h2.len() == 64,
        0 <= i < 2 * h,
        ({
            let ring = written(line.h1, line.off, spectrum);
            let x = if i < h { h + i } else { 3 * h - 1 - i };
            let sum = seen(window, 2 * h + i, ring, line.off, x, h);
            -0x7fff_0000 * code_space(s) <= sum <= 0x7fff_0000 * code_space(s)
        }),
    ensures
        ({
            let ring = written(line.h1, line.off, spectrum);
            let x = if i < h { h + i } else { 3 * h - 1 - i };
            nearest(
                seen(window, 2 * h + i, ring, line.off, x, h),
                code_space(s),
                filtered(line, window, spectrum, h, s).0.h2[i] as int,
            )
        }),
{
    let ring = written(line.h1, line.off, spectrum);
    let x = if i < h { h + i } else { 3 * h - 1 - i };
    lemma_seen(window, i + 2 * h, ring, line.off, x, h);
    let sum = seen(window, 2 * h + i, ring, line.off, x, h);
    rounding_takes_the_nearest(sum, s);
    assert(code_space(20) == 0x10_0000 && code_space(21) == 0x20_0000);
}

/// The sample before sample `i`, or the last of the frame before.
pub open spec fn earlier(src: Seq<i32>, hist: i32, i: int) -> int {
    if i > 0 { src[i - 1] as int } else { hist as int }
}

/// Of the two samples made of each and the one before, both lie between the
/// two, the first nearer to the earlier and the second to the later; a steady
/// signal stays.
pub proof fn doubled_samples_lie_between(src: Seq<i32>, hist: i32, i: int)
    requires
        0 <= i < src.len(),
        -0x80_0000 <= src[i] <= 0x7f_ffff,
        -0x80_0000 <= earlier(src, hist, i) <= 0x7f_ffff,
    ensures
        doubled(src, hist).len() == 2 * src.len(),
        ({
            let a = earlier(src, hist, i);
            let b = src[i] as int;
            let x = doubled(src, hist)[2 * i] as int;
            let y = doubled(src, hist)[2 * i + 1] as int;
            &&& a <= b ==> a <= x <= y <= b
            &&& b <= a ==> b <= y <= x <= a
            &&& -1 <= x + y - (a + b) <= 1
            &&& a + 8 <= b ==> x - a < b - x && b - y < y - a
            &&& b + 8 <= a ==> a - x < x - b && y - b < a - y
        }),
{
    let a = earlier(src, hist, i);
    let b = src[i] as int;
    let u = 2_097_471 * b + 6_291_137 * a;
    let w = 6_291_137 * b + 2_097_471 * a;
    assert((2 * i) / 2 == i && (2 * i + 1) / 2 == i);
    assert((2 * i) % 2 == 0 && (2 * i + 1) % 2 == 1);
    assert(code_space(23) == 0x80_0000);
    rounding_takes_the_nearest(u, 23);
    rounding_takes_the_nearest(w, 23);
    assert(crate::dca::synth::before(src, hist, i) == a);
    let x = rounded(u, 23);
    let y = rounded(w, 23);
    lemma_between(a, b, x, y);
    assert(-0x80_0000 <= x <= 0x7f_ffff && -0x80_0000 <= y <= 0x7f_ffff);
    assert(doubled(src, hist)[2 * i] == x);
    assert(doubled(src, hist)[2 * i + 1] == y);
}

proof fn lemma_between(a: int, b: int, x: int, y: int)
    requires
        nearest(2_097_471 * b + 6_291_137 * a, 0x80_0000, x),
        nearest(6_291_137 * b + 2_097_471 * a, 0x80_0000, y),
    ensures
        a <= b ==> a <= x <= y <= b,
        b <= a ==> b <= y <= x <= a,
        -1 <= x + y - (a + b) <= 1,
        a + 8 <= b ==> x - a < b - x && b - y < y - a,
        b + 8 <= a ==> a - x < x - b && y - b < a - y,
{
    if a <= b {
        assert(a <= x && x <= y && y <= b);
    } else {
        assert(b <= y && y <= x && x <= a);
    }
}

/// What a frame leaves for the next is its last sample.
pub proof fn last_samples_are_kept(src: Seq<i32>, hist: i32)
    ensures
        src.len() > 0 ==> last_of(src, hist) == src.last(),
        src.len() == 0 ==> last_of(src, hist) == hist,
{
}

/// A low-frequency sample is interpolated from the eight up to its own by the
/// filter's taps for its place, forwards in the first half of its run and
/// backwards in the second.
pub proof fn low_samples_are_interpolated(coeff: Seq<i32>, lfe: Seq<i32>, k: int)
    requires
        0 <= k,
        coeff.len() == 256,
    ensures
        ({
            let at = 8 + k / 64;
            let j = k % 64;
            let sum = if j < 32 {
                sum8(|n: int| coeff[8 * j + n] * lfe[at - n])
            } else {
                sum8(|n: int| coeff[8 * (63 - j) + (7 - n)] * lfe[at - n])
            };
            -0x80_0000 * 0x80_0000 <= sum <= 0x7f_ffff * 0x80_0000 ==> nearest(
                sum,
                0x80_0000,
                lfe_sample(coeff, lfe, k),
            )
        }),
{
    reveal_with_fuel(lfe_taps, 9);
    let at = 8 + k / 64;
    let j = k % 64;
    assert(code_space(23) == 0x80_0000);
    if j < 32 {
        assert(k % 32 == j);
        let sum = lfe_taps(coeff, 8 * j, 1, lfe, at, 8);
        assert(sum == sum8(|n: int| coeff[8 * j + n] * lfe[at - n]));
        rounding_takes_the_nearest(sum, 23);
    } else {
        let m = j - 32;
        assert(k % 32 == m);
        let sum = lfe_taps(coeff, 255 - 8 * m, -1, lfe, at, 8);
        assert(8 * (63 - j) + 7 == 255 - 8 * m);
        assert(sum == sum8(|n: int| coeff[8 * (63 - j) + (7 - n)] * lfe[at - n]));
        rounding_takes_the_nearest(sum, 23);
    }
}

/// The input of a block is the block's sample of each of the channel's 32
/// bands; the other bands of the larger bank are silent.
pub proof fn blocks_take_a_sample_of_each_band(audio: Audio, ch: int, j: int, wide: bool, b: int)
    requires
        0 <= b < 64,
    ensures
        block_input(audio, ch, j, wide).len() == if wide { 64int } else { 32int },
        b < 32 ==> block_input(audio, ch, j, wide)[b] == audio.samples[32 * ch + b][j + 4],
        wide && b >= 32 ==> block_input(audio, ch, j, wide)[b] == 0,
{
}

/// Blocks one after the other, each from the line that the one before left.
pub open spec fn in_turn(step: spec_fn(Line, int) -> (Line, Seq<i32>), line: Line, n: int) -> (
    Line,
    Seq<i32>,
)
    decreases n,
{
    if n <= 0 {
        (line, Seq::empty())
    } else {
        let (l, out) = in_turn(step, line, n - 1);
        (step(l, n - 1).0, out + step(l, n - 1).1)
    }
}

proof fn lemma_in_turn_len(
    step: spec_fn(Line, int) -> (Line, Seq<i32>),
    line: Line,
    n: int,
    c: int,
)
    requires
        0 <= n,
        forall|l: Line, j: int| (#[trigger] step(l, j)).1.len() == c,
    ensures
        in_turn(step, line, n).1.len() == c * n,
    decreases n,
{
    if n > 0 {
        lemma_in_turn_len(step, line, n - 1, c);
        assert(c * ((n - 1) + 1) == c * (n - 1) + c) by (nonlinear_arith);
        assert(step(in_turn(step, line, n - 1).0, n - 1).1.len() == c);
    } else {
        assert(c * 0 == 0);
    }
}

proof fn lemma_in_turn(
    step: spec_fn(Line, int) -> (Line, Seq<i32>),
    line: Line,
    n: int,
    j: int,
    c: int,
)
    requires
        0 <= j < n,
        0 <= c,
        forall|l: Line, j: int| (#[trigger] step(l, j)).1.len() == c,
    ensures
        in_turn(step, line, n).1.len() == c * n,
        in_turn(step, line, n).1.subrange(c * j, c * (j + 1)) == step(
            in_turn(step, line, j).0,
            j,
        ).1,
    decreases n,
{
    lemma_in_turn_len(step, line, n, c);
    lemma_in_turn_len(step, line, n - 1, c);
    let out = in_turn(step, line, n).1;
    let less = in_turn(step, line, n - 1).1;
    let more = step(in_turn(step, line, n - 1).0, n - 1).1;
    assert(c * (j + 1) == c * j + c) by (nonlinear_arith);
    assert(c * ((n - 1) + 1) == c * (n - 1) + c) by (nonlinear_arith);
    assert(c * j >= 0) by (nonlinear_arith)
        requires
            c >= 0,
            j >= 0,
    ;
    if j < n - 1 {
        lemma_in_turn(step, line, n - 1, j, c);
        assert(c * (j + 1) <= c * (n - 1)) by (nonlinear_arith)
            requires
                j + 1 <= n - 1,
                c >= 0,
        ;
        assert(out.subrange(c * j, c * (j + 1)) =~= less.subrange(c * j, c * (j + 1)));
    } else {
        assert(out.subrange(c * j, c * (j + 1)) =~= more);
    }
}

/// A channel's block as a step from the line before it.
pub open spec fn block_of(window: Seq<i32>, audio: Audio, ch: int, wide: bool) -> spec_fn(
    Line,
    int,
) -> (Line, Seq<i32>) {
    |l: Line, j: int| block_filtered(l, window, audio, ch, j, wide)
}

proof fn lemma_blocks(
    line: Line,
    window: Seq<i32>,
    audio: Audio,
    ch: int,
    wide: bool,
    n: int,
)
    ensures
        channel_pcm(line, window, audio, ch, wide, n) == in_turn(
            block_of(window, audio, ch, wide),
            line,
            n,
        ),
    decreases n,
{
    if n > 0 {
        lemma_blocks(line, window, audio, ch, wide, n - 1);
        let step = block_of(window, audio, ch, wide);
        let l = in_turn(step, line, n - 1).0;
        assert(step(l, n - 1) == block_filtered(l, window, audio, ch, n - 1, wide));
    }
}

/// A channel's blocks play one after the other, each from the line that the one
/// before left.
pub proof fn blocks_play_in_turn(
    line: Line,
    window: Seq<i32>,
    audio: Audio,
    ch: int,
    wide: bool,
    n: int,
    j: int,
)
    requires
        0 <= j < n,
    ensures
        channel_pcm(line, window, audio, ch, wide, n).1.len() == 2 * bank(wide) * n,
        channel_pcm(line, window, audio, ch, wide, n).1.subrange(
            2 * bank(wide) * j,
            2 * bank(wide) * (j + 1),
        ) == (block_of(window, audio, ch, wide))(
            channel_pcm(line, window, audio, ch, wide, j).0,
            j,
        ).1,
{
    let step = block_of(window, audio, ch, wide);
    lemma_blocks(line, window, audio, ch, wide, n);
    lemma_blocks(line, window, audio, ch, wide, j);
    lemma_block_len(window, audio, ch, wide);
    lemma_in_turn(step, line, n, j, 2 * bank(wide));
}

proof fn lemma_block_len(window: Seq<i32>, audio: Audio, ch: int, wide: bool)
    ensures
        forall|l: Line, j: int|
            (#[trigger] (block_of(window, audio, ch, wide))(l, j)).1.len() == 2 * bank(wide),
{
}

/// Every channel plays through its own line, into its speaker's slot where it
/// has one that no later channel takes.
pub proof fn channels_play_through_their_lines(
    m: CoreModel,
    t: SynthTables,
    lines: Seq<Line>,
    wide: bool,
    k: int,
    ch: int,
)
    requires
        0 <= k <= lines.len(),
        0 <= ch < lines.len(),
        forall|c: int|
            0 <= c < k ==> (#[trigger] channel_speaker(m, c) matches Some(s) ==> s < 32),
        forall|c: int|
            ch < c < k && #[trigger] channel_speaker(m, c) is Some ==> channel_speaker(m, c)
                != channel_speaker(m, ch),
    ensures
        ({
            let v = voices(m, t, lines, wide, k);
            let own = channel_pcm(
                lines[ch],
                window_of(t, m.filter_perfect, wide),
                m.audio,
                ch,
                wide,
                m.npcm,
            );
            &&& v.lines.len() == lines.len()
            &&& v.slots.len() == 32
            &&& v.lines[ch] == if ch < k { own.0 } else { lines[ch] }
            &&& ch < k ==> (channel_speaker(m, ch) matches Some(s) ==> v.slots[s as int] == Some(
                own.1,
            ))
        }),
    decreases k,
{
    if k > 0 {
        channels_play_through_their_lines(m, t, lines, wide, k - 1, ch);
        if ch < k - 1 {
            assert(channel_speaker(m, k - 1) is Some ==> channel_speaker(m, k - 1)
                != channel_speaker(m, ch));
        } else if ch == k - 1 {
            assert(voices(m, t, lines, wide, k - 1).lines[ch] == lines[ch]);
        }
        assert(channel_speaker(m, k - 1) matches Some(s) ==> s < 32);
    }
}

/// A frame at twice the rate has twice the samples.
pub proof fn doubled_frames_run_at_twice_the_rate(s: SynthModel, t: SynthTables, m: CoreModel)
    ensures
        synthesized(s, t, m, false).2.npcmsamples == 32 * m.npcm,
        synthesized(s, t, m, false).2.output_rate == m.sample_rate,
        synthesized(s, t, m, true).2.npcmsamples == 2 * synthesized(s, t, m, false).2.npcmsamples,
        synthesized(s, t, m, true).2.output_rate == 2 * synthesized(s, t, m, false).2.output_rate,
{
    let n = m.npcm;
    assert(2 * 32 * n == 2 * (2 * 16 * n)) by (nonlinear_arith);
}

/// A change of the bank's size forgets the history; without one it stays, and
/// channels that join in start without any.
pub proof fn other_banks_start_afresh(s: SynthModel, x96: bool, n: int, i: int)
    requires
        0 <= i < s.lines.len(),
        0 <= n,
    ensures
        s.x96 == x96 ==> mode_set(s, x96) == s,
        s.x96 != x96 ==> mode_set(s, x96).lines[i].off == 0 && mode_set(s, x96).lfe_hist == 0
            && mode_set(s, x96).lines[i].h1 == crate::dca::core_decoder::zeros(1024) && mode_set(
            s,
            x96,
        ).lines[i].h2 == crate::dca::core_decoder::zeros(64),
        widened(s.lines, n)[i] == s.lines[i],
        widened(s.lines, n).len() >= n,
{
}

/// Value `i`, and nothing before the first.
pub open spec fn value_at(v: Seq<i32>, i: int) -> int {
    if i < 0 { 0 } else { v[i] as int }
}

/// Samples far from the limits.
pub open spec fn small(v: Seq<i32>) -> bool {
    forall|i: int| 0 <= i < v.len() ==> -0x10_0000 <= #[trigger] v[i] <= 0x10_0000
}

/// The sums that the transforms of 32 values are of: in the first quarter four
/// neighbours from a place divisible by four on, in the second those around it,
/// in the third the value there and the one before, in the last the two pairs
/// next to these.
#[verifier::opaque]
pub open spec fn folded(v: Seq<i32>) -> Seq<i32> {
    Seq::new(
        32,
        |k: int|
            {
                let i = 4 * (k % 8);
                (if k < 8 {
                    v[i] + v[i + 1] + v[i + 2] + v[i + 3]
                } else if k < 16 {
                    value_at(v, i - 2) + value_at(v, i - 1) + v[i] + v[i + 1]
                } else if k < 24 {
                    value_at(v, i - 1) + v[i]
                } else {
                    value_at(v, i - 3) + value_at(v, i - 2) + v[i + 1] + v[i + 2]
                }) as i32
            },
    )
}

/// The transform of 32 small values is that of the sums of their neighbours:
/// even in the first quarter, odd in the others.
pub proof fn transforms_are_of_sums_of_neighbours(v: Seq<i32>, i: int)
    requires
        v.len() == 32,
        small(v),
        0 <= i < 8,
    ensures
        ({
            let f = folded(v);
            let out = dct_32(v);
            &&& out.len() == 32
            &&& out[i] == clip_all(dct_even(f, 0))[i]
            &&& out[8 + i] == clip_all(dct_odd(f, 8))[i]
            &&& out[16 + i] == clip_all(dct_odd(f, 16))[i]
            &&& out[24 + i] == clip_all(dct_odd(f, 24))[i]
        }),
{
    let f = folded(v);
    lemma_all_folded(v);
    reveal(sums_of_sums);
    lemma_quarters(dct_even(f, 0), dct_odd(f, 8), dct_odd(f, 16), dct_odd(f, 24), i);
}

/// Four runs of eight stand one behind the other.
proof fn lemma_quarters(a: Seq<i32>, b: Seq<i32>, c: Seq<i32>, e: Seq<i32>, i: int)
    requires
        a.len() == 8,
        b.len() == 8,
        c.len() == 8,
        e.len() == 8,
        0 <= i < 8,
    ensures
        clip_all(a + b + c + e).len() == 32,
        clip_all(a + b + c + e)[i] == clip_all(a)[i],
        clip_all(a + b + c + e)[8 + i] == clip_all(b)[i],
        clip_all(a + b + c + e)[16 + i] == clip_all(c)[i],
        clip_all(a + b + c + e)[24 + i] == clip_all(e)[i],
{
}

/// The sums of sums of neighbours that are transformed.
#[verifier::opaque]
spec fn sums_of_sums(v: Seq<i32>) -> Seq<i32> {
    let a = clip_all(sums_a(v, 0, 16) + sums_b(v, 0, 16));
    clip_all(sums_a(a, 0, 8) + sums_b(a, 0, 8) + sums_c(a, 16, 8) + sums_d(a, 16, 8))
}

/// One place of the sums of sums.
proof fn lemma_place(v: Seq<i32>, k: int)
    requires
        v.len() == 32,
        small(v),
        0 <= k < 32,
    ensures
        sums_of_sums(v).len() == 32,
        folded(v).len() == 32,
        sums_of_sums(v)[k] == folded(v)[k],
{
    lemma_folded(v, k % 8);
    assert(folded(v).len() == 32) by {
        reveal(folded);
    }
}

/// All places of the sums of sums.
proof fn lemma_all_folded(v: Seq<i32>)
    requires
        v.len() == 32,
        small(v),
    ensures
        sums_of_sums(v) == folded(v),
{
    lemma_place(v, 0);
    assert forall|k: int| 0 <= k < 32 implies sums_of_sums(v)[k] == folded(v)[k] by {
        lemma_place(v, k);
    }
    assert(sums_of_sums(v) =~= folded(v));
}

/// Sums of neighbours of 32 small values.
proof fn lemma_pairs(v: Seq<i32>)
    requires
        v.len() == 32,
        small(v),
    ensures
        clip_all(sums_a(v, 0, 16) + sums_b(v, 0, 16)).len() == 32,
        forall|k: int|
            0 <= k < 16 ==> #[trigger] clip_all(sums_a(v, 0, 16) + sums_b(v, 0, 16))[k] == v[2 * k]
                + v[2 * k + 1],
        forall|k: int|
            16 <= k < 32 ==> #[trigger] clip_all(sums_a(v, 0, 16) + sums_b(v, 0, 16))[k]
                == value_at(v, 2 * (k - 16) - 1) + v[2 * (k - 16)],
{
    let a = clip_all(sums_a(v, 0, 16) + sums_b(v, 0, 16));
    assert forall|k: int| 0 <= k < 16 implies #[trigger] a[k] == v[2 * k] + v[2 * k + 1] by {
        assert(-0x10_0000 <= v[2 * k] <= 0x10_0000 && -0x10_0000 <= v[2 * k + 1] <= 0x10_0000);
    }
    assert forall|k: int| 16 <= k < 32 implies #[trigger] a[k] == value_at(v, 2 * (k - 16) - 1)
        + v[2 * (k - 16)] by {
        assert(-0x10_0000 <= v[2 * (k - 16)] <= 0x10_0000);
        if k > 16 {
            assert(-0x10_0000 <= v[2 * (k - 16) - 1] <= 0x10_0000);
        }
        assert((sums_a(v, 0, 16) + sums_b(v, 0, 16))[k] == sums_b(v, 0, 16)[k - 16]);
    }
}

/// Values that two sums do not clip.
spec fn modest(a: Seq<i32>) -> bool {
    forall|x: int| 0 <= x < a.len() ==> -0x20_0000 <= #[trigger] a[x] <= 0x20_0000
}

/// Sums of neighbours of 32 sums of neighbours.
proof fn lemma_sums(a: Seq<i32>, m: int)
    requires
        a.len() == 32,
        modest(a),
        0 <= m < 8,
    ensures
        ({
            let b = clip_all(
                sums_a(a, 0, 8) + sums_b(a, 0, 8) + sums_c(a, 16, 8) + sums_d(a, 16, 8),
            );
            &&& b.len() == 32
            &&& b[m] == a[2 * m] + a[2 * m + 1]
            &&& b[8 + m] == value_at(a, 2 * m - 1) + a[2 * m]
            &&& b[16 + m] == a[16 + 2 * m]
            &&& b[24 + m] == a[16 + 2 * m + 1] + if m > 0 { a[16 + 2 * m - 1] as int } else { 0 }
        }),
{
    let parts = sums_a(a, 0, 8) + sums_b(a, 0, 8) + sums_c(a, 16, 8) + sums_d(a, 16, 8);
    assert(parts.len() == 32);
    assert(parts[m] == sums_a(a, 0, 8)[m]);
    assert(parts[8 + m] == sums_b(a, 0, 8)[m]);
    assert(parts[16 + m] == sums_c(a, 16, 8)[m]);
    assert(parts[24 + m] == sums_d(a, 16, 8)[m]);
    assert(modest(a));
    assert(-0x20_0000 <= a[2 * m] <= 0x20_0000 && -0x20_0000 <= a[2 * m + 1] <= 0x20_0000);
    assert(-0x20_0000 <= a[16 + 2 * m] <= 0x20_0000);
    assert(-0x20_0000 <= a[16 + 2 * m + 1] <= 0x20_0000);
    if m > 0 {
        assert(-0x20_0000 <= a[2 * m - 1] <= 0x20_0000);
        assert(-0x20_0000 <= a[16 + 2 * m - 1] <= 0x20_0000);
    }
}

/// One place of each quarter of the sums of those sums.
proof fn lemma_folded(v: Seq<i32>, m: int)
    requires
        v.len() == 32,
        small(v),
        0 <= m < 8,
    ensures
        ({
            let b = sums_of_sums(v);
            &&& b.len() == 32
            &&& b[m] == folded(v)[m]
            &&& b[8 + m] == folded(v)[8 + m]
            &&& b[16 + m] == folded(v)[16 + m]
            &&& b[24 + m] == folded(v)[24 + m]
        }),
{
    let a = clip_all(sums_a(v, 0, 16) + sums_b(v, 0, 16));
    reveal(sums_of_sums);
    reveal(folded);
    lemma_pairs(v);
    assert forall|x: int| 0 <= x < a.len() implies -0x20_0000 <= #[trigger] a[x] <= 0x20_0000 by {
        if x < 16 {
            assert(a[x] == v[2 * x] + v[2 * x + 1]);
        } else {
            assert(a[x] == value_at(v, 2 * (x - 16) - 1) + v[2 * (x - 16)]);
            assert(x > 16 ==> -0x10_0000 <= v[2 * (x - 16) - 1] <= 0x10_0000);
        }
    }
    lemma_sums(a, m);
    assert(a[2 * m] == v[4 * m] + v[4 * m + 1]);
    assert(a[2 * m + 1] == v[4 * m + 2] + v[4 * m + 3]);
    assert(a[16 + 2 * m] == value_at(v, 4 * m - 1) + v[4 * m]);
    assert(a[16 + 2 * m + 1] == value_at(v, 4 * m + 1) + v[4 * m + 2]);
    if m > 0 {
        assert(a[2 * m - 1] == v[4 * m - 2] + v[4 * m - 1]);
        assert(a[16 + 2 * m - 1] == value_at(v, 4 * m - 3) + v[4 * m - 2]);
    }
    assert(m % 8 == m && (8 + m) % 8 == m && (16 + m) % 8 == m && (24 + m) % 8 == m);
}

} // verus!
