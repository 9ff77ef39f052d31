//! What the filters of a lossless channel set undo.

use vstd::prelude::*;
use crate::bit_laws::one_bit_doubles_the_codes;
use crate::bits::code_space;
use crate::dca::fixed::{
    clipped, products_are_rounded, rounded, rounding_takes_the_nearest, scaled, wrap32,
};
use crate::dca::xll_filter::{
    all_paired, all_unpredicted, assembled, coefficients, filtered, lsb_shift, paired, predicted,
    reordered, summed, summed_times, unpredicted, weighted,
};
use crate::dca::xll_header::{is_order, DecorrelationModel, PredictionModel, XllChSetModel, XllFrame};

verus! {

/// Each sample less the one before it.
pub open spec fn differenced(x: Seq<i32>) -> Seq<i32> {
    Seq::new(x.len(), |i: int| if i == 0 { x[0] } else { wrap32(x[i] - x[i - 1]) as i32 })
}

/// A channel differenced `times` times over.
pub open spec fn differenced_times(x: Seq<i32>, times: int) -> Seq<i32>
    decreases times,
{
    if times <= 0 { x } else { differenced_times(differenced(x), times - 1) }
}

/// The `k` samples before `at`, the latest first, each times its weight.
pub open spec fn recent(x: Seq<i32>, at: int, weight: Seq<int>, k: int) -> int
    decreases k,
{
    if k <= 0 {
        0
    } else {
        recent(x, at, weight, k - 1) + weight[k - 1] * x[at - k]
    }
}

/// `value` is the nearest to `total / units`, the higher of two.
pub open spec fn nearest(total: int, units: int, value: int) -> bool {
    units * (2 * value - 1) <= 2 * total < units * (2 * value + 1)
}

/// `coded` holds what a prediction from the samples before leaves of `x`.
pub open spec fn coded_from_the_past(
    x: Seq<i32>,
    weight: Seq<int>,
    foreseen: Seq<int>,
    coded: Seq<i32>,
) -> bool {
    &&& coded.len() == x.len() == foreseen.len()
    &&& forall|n: int| 0 <= n < x.len() && n < weight.len() ==> #[trigger] coded[n] == x[n]
    &&& forall|n: int|
        weight.len() <= n < x.len() ==> nearest(
            recent(x, n, weight, weight.len() as int),
            65536,
            #[trigger] foreseen[n],
        )
    &&& forall|n: int|
        weight.len() <= n < x.len() ==> -0x80_0000 <= #[trigger] foreseen[n] <= 0x7f_ffff
    &&& forall|n: int|
        weight.len() <= n < x.len() ==> #[trigger] coded[n] == wrap32(x[n] + foreseen[n])
}

/// `coded` holds what the first channel of a pair leaves of the second.
pub open spec fn coded_from_a_pair(
    first: Seq<i32>,
    second: Seq<i32>,
    coeff: int,
    share: Seq<int>,
    coded: Seq<i32>,
) -> bool {
    &&& first.len() == second.len() == share.len() == coded.len()
    &&& forall|n: int|
        0 <= n < second.len() ==> nearest(#[trigger] first[n] * coeff, 8, share[n])
    &&& forall|n: int|
        0 <= n < second.len() ==> -0x8000_0000 <= #[trigger] first[n] * coeff < 0x7fff_fffc
    &&& forall|n: int|
        0 <= n < second.len() ==> #[trigger] coded[n] == wrap32(second[n] - share[n])
}

/// A running sum starts as the channel does, and each of its steps is the
/// channel's next sample.
pub proof fn sums_step_by_the_samples(buf: Seq<i32>, n: int)
    requires
        0 <= n <= buf.len(),
    ensures
        summed(buf, n).len() == n,
        n > 0 ==> summed(buf, n)[0] == buf[0],
        forall|i: int|
            1 <= i < n ==> wrap32(#[trigger] summed(buf, n)[i] - summed(buf, n)[i - 1]) == buf[i],
    decreases n,
{
    if n > 1 {
        sums_step_by_the_samples(buf, n - 1);
        let out = summed(buf, n);
        let less = summed(buf, n - 1);
        assert(out == less.push(wrap32(buf[n - 1] + less[n - 2]) as i32));
        assert forall|i: int| 1 <= i < n implies wrap32(#[trigger] out[i] - out[i - 1])
            == buf[i] by {
            if i < n - 1 {
                assert(out[i] == less[i] && out[i - 1] == less[i - 1]);
            }
        }
    }
}

/// Summing a channel up undoes taking the differences of its samples.
pub proof fn sums_undo_differences(x: Seq<i32>)
    ensures
        summed(differenced(x), x.len() as int) == x,
{
    lemma_sums(x, x.len() as int);
    assert(x.take(x.len() as int) =~= x);
}

proof fn lemma_sums(x: Seq<i32>, n: int)
    requires
        0 <= n <= x.len(),
    ensures
        summed(differenced(x), n) == x.take(n),
    decreases n,
{
    if n > 0 {
        lemma_sums(x, n - 1);
    }
    assert(summed(differenced(x), n) =~= x.take(n));
}

/// A channel differenced so many times comes back when it is summed up as many.
pub proof fn repeated_sums_undo_repeated_differences(x: Seq<i32>, times: int)
    requires
        0 <= times,
    ensures
        differenced_times(x, times).len() == x.len(),
        summed_times(differenced_times(x, times), times) == x,
    decreases times,
{
    if times > 0 {
        let d = differenced(x);
        repeated_sums_undo_repeated_differences(d, times - 1);
        sums_undo_differences(x);
    }
}

/// The weight of a sample is the one for its distance.
proof fn lemma_weighted(x: Seq<i32>, at: int, weight: Seq<int>, k: int)
    requires
        0 <= k <= weight.len() <= at <= x.len(),
    ensures
        weighted(x, at - weight.len(), weight, k) == recent(x, at, weight, weight.len() as int)
            - recent(x, at, weight, weight.len() - k),
    decreases k,
{
    if k > 0 {
        lemma_weighted(x, at, weight, k - 1);
        let j = weight.len() - k + 1;
        assert(recent(x, at, weight, j) == recent(x, at, weight, j - 1) + weight[j - 1] * x[at
            - j]);
        assert(at - weight.len() + k - 1 == at - j);
        let a = x[at - j] as int;
        let b = weight[j - 1];
        assert(a * b == b * a) by (nonlinear_arith);
    }
}

proof fn lemma_same_past(x: Seq<i32>, y: Seq<i32>, at: int, weight: Seq<int>, k: int)
    requires
        0 <= at,
        0 <= k,
        forall|i: int| at <= i < at + k ==> #[trigger] x[i] == y[i],
    ensures
        weighted(x, at, weight, k) == weighted(y, at, weight, k),
    decreases k,
{
    if k > 0 {
        lemma_same_past(x, y, at, weight, k - 1);
    }
}

/// A channel coded as what a prediction from its past leaves comes back.
pub proof fn adaptive_prediction_is_undone(
    x: Seq<i32>,
    weight: Seq<int>,
    foreseen: Seq<int>,
    coded: Seq<i32>,
)
    requires
        coded_from_the_past(x, weight, foreseen, coded),
    ensures
        predicted(coded, weight, x.len() as int) == x,
{
    lemma_undone(x, weight, foreseen, coded, x.len() as int);
    assert(x.take(x.len() as int) =~= x);
}

proof fn lemma_undone(
    x: Seq<i32>,
    weight: Seq<int>,
    foreseen: Seq<int>,
    coded: Seq<i32>,
    n: int,
)
    requires
        coded_from_the_past(x, weight, foreseen, coded),
        0 <= n <= x.len(),
    ensures
        predicted(coded, weight, n) == x.take(n),
    decreases n,
{
    if n > 0 {
        lemma_undone(x, weight, foreseen, coded, n - 1);
        let out = predicted(coded, weight, n - 1);
        let order = weight.len() as int;
        if n - 1 >= order {
            let sum = weighted(out, n - 1 - order, weight, order);
            lemma_same_past(out, x, n - 1 - order, weight, order);
            lemma_weighted(x, n - 1, weight, order);
            assert(recent(x, n - 1, weight, 0) == 0);
            rounding_takes_the_nearest(sum, 16);
            assert(code_space(16) == 65536);
            let p = foreseen[n - 1];
            let r = rounded(sum, 16);
            assert(p == r);
            assert(clipped(wrap32(r)) == p);
            assert(coded[n - 1] == wrap32(x[n - 1] + p));
            assert(wrap32(coded[n - 1] - p) == x[n - 1]);
        } else {
            assert(coded[n - 1] == x[n - 1]);
        }
        assert(predicted(coded, weight, n) =~= x.take(n));
    }
}

/// The last of the weights is the last reflection coefficient, and it turns
/// each of the others by its product with the one as far from the other end.
pub proof fn reflections_turn_the_weights(rc: Seq<i32>, n: int, k: int)
    requires
        0 < n <= rc.len(),
        0 <= k < n - 1,
        -0x8000_0000_0000 <= rc[n - 1] * coefficients(rc, n - 1)[n - 2 - k] < 0x7fff_ffff_0000,
    ensures
        coefficients(rc, n).len() == n,
        coefficients(rc, n)[n - 1] == rc[n - 1],
        nearest(
            rc[n - 1] * coefficients(rc, n - 1)[n - 2 - k],
            65536,
            coefficients(rc, n)[k] - coefficients(rc, n - 1)[k],
        ),
{
    let b = coefficients(rc, n - 1);
    products_are_rounded(rc[n - 1] as int, b[n - 2 - k], 16);
    assert(code_space(16) == 65536);
}

/// A channel coded as what its neighbour leaves of it comes back.
pub proof fn pairing_is_undone(
    first: Seq<i32>,
    second: Seq<i32>,
    coeff: int,
    share: Seq<int>,
    coded: Seq<i32>,
)
    requires
        coded_from_a_pair(first, second, coeff, share, coded),
    ensures
        paired(first, coded, coeff) == second,
{
    assert forall|n: int| 0 <= n < second.len() implies #[trigger] paired(first, coded, coeff)[n]
        == second[n] by {
        let m = first[n] * coeff;
        assert(nearest(m, 8, share[n]));
        assert(coded[n] == wrap32(second[n] - share[n]));
        assert(wrap32(m) == m);
        assert(wrap32(m + 4) / 8 == share[n]);
    }
    assert(paired(first, coded, coeff) =~= second);
}

/// The channel coded at place `i` stands where the order sends it.
pub proof fn channels_go_where_the_order_says(order: Seq<usize>, msb: Seq<Seq<i32>>, i: int)
    requires
        order.len() == msb.len(),
        is_order(order, msb.len() as int),
        0 <= i < msb.len(),
    ensures
        reordered(order, msb).len() == msb.len(),
        reordered(order, msb)[order[i] as int] == msb[i],
{
    let c = order[i];
    assert(order.contains(c));
    let j = order.index_of(c);
    assert(0 <= j < order.len() && order[j] == c);
    assert(j == i);
}

/// A set of channels comes back from its coded form: `sent` are the channels,
/// `apart` what pairing leaves of them in coded order, `coded` what prediction
/// leaves of that.
pub proof fn coded_sets_come_back(
    p: PredictionModel,
    d: DecorrelationModel,
    sent: Seq<Seq<i32>>,
    apart: Seq<Seq<i32>>,
    coded: Seq<Seq<i32>>,
    foreseen: Seq<Seq<int>>,
    share: Seq<Seq<int>>,
)
    requires
        sent.len() == apart.len() == coded.len(),
        forall|i: int|
            0 <= i < coded.len() ==> if p.reflection[i].len() > 0 {
                coded_from_the_past(
                    apart[i],
                    coefficients(p.reflection[i], p.reflection[i].len() as int),
                    foreseen[i],
                    #[trigger] coded[i],
                )
            } else {
                coded[i] == differenced_times(apart[i], p.fixed[i] as int)
            },
        !d.enabled ==> apart == sent,
        d.enabled ==> d.orig_order.len() == sent.len() && is_order(
            d.orig_order,
            sent.len() as int,
        ),
        d.enabled ==> forall|i: int|
            0 <= i < apart.len() ==> if i % 2 == 1 {
                coded_from_a_pair(
                    sent[d.orig_order[i - 1] as int],
                    sent[d.orig_order[i] as int],
                    d.coeff[i / 2] as int,
                    share[i],
                    #[trigger] apart[i],
                )
            } else {
                apart[i] == sent[d.orig_order[i] as int]
            },
    ensures
        !d.enabled ==> filtered(p, d, coded) == sent,
        d.enabled ==> forall|i: int|
            0 <= i < sent.len() ==> #[trigger] filtered(p, d, coded)[d.orig_order[i] as int]
                == sent[d.orig_order[i] as int],
{
    let plain = all_unpredicted(p, coded);
    assert forall|i: int| 0 <= i < coded.len() implies #[trigger] plain[i] == apart[i] by {
        if p.reflection[i].len() > 0 {
            let c = coefficients(p.reflection[i], p.reflection[i].len() as int);
            assert(coded_from_the_past(apart[i], c, foreseen[i], coded[i]));
            adaptive_prediction_is_undone(apart[i], c, foreseen[i], coded[i]);
        } else {
            assert(coded[i] == differenced_times(apart[i], p.fixed[i] as int));
            repeated_sums_undo_repeated_differences(apart[i], p.fixed[i] as int);
        }
    }
    assert(plain =~= apart);
    if d.enabled {
        let pairs = all_paired(d.coeff, plain);
        assert forall|i: int| 0 <= i < sent.len() implies #[trigger] filtered(
            p,
            d,
            coded,
        )[d.orig_order[i] as int] == sent[d.orig_order[i] as int] by {
            channels_go_where_the_order_says(d.orig_order, pairs, i);
            if i % 2 == 1 {
                assert(apart[i - 1] == sent[d.orig_order[i - 1] as int]);
                assert(coded_from_a_pair(
                    sent[d.orig_order[i - 1] as int],
                    sent[d.orig_order[i] as int],
                    d.coeff[i / 2] as int,
                    share[i],
                    apart[i],
                ));
                pairing_is_undone(
                    sent[d.orig_order[i - 1] as int],
                    sent[d.orig_order[i] as int],
                    d.coeff[i / 2] as int,
                    share[i],
                    apart[i],
                );
            } else {
                assert(apart[i] == sent[d.orig_order[i] as int]);
            }
        }
    }
}

pub proof fn lemma_code_spaces(shift: int, adjust: int)
    requires
        0 <= adjust <= shift <= 32,
    ensures
        code_space(shift) == code_space(adjust) * code_space(shift - adjust),
        code_space(adjust) >= 1,
        code_space(shift) >= 1,
    decreases shift - adjust,
{
    if shift > adjust {
        lemma_code_spaces(shift - 1, adjust);
        one_bit_doubles_the_codes(shift);
        one_bit_doubles_the_codes(shift - adjust);
        let a = code_space(adjust);
        let b = code_space(shift - 1 - adjust);
        assert(a * (2 * b) == 2 * (a * b)) by (nonlinear_arith);
    } else {
        assert(code_space(0) == 1);
        let a = code_space(adjust);
        assert(a * 1 == a);
    }
}

/// A sample split into high bits and low bits is put together again: the low
/// `shift` bits of `v` came, less `adjust` of them that are zero, as low bits.
pub proof fn split_samples_are_assembled(
    v: Seq<i32>,
    msb: Seq<i32>,
    lsb: Seq<i32>,
    shift: int,
    width: int,
    adjust: int,
)
    requires
        msb.len() == v.len(),
        width != 0 ==> lsb.len() == v.len(),
        0 <= adjust <= shift <= 31,
        forall|n: int| 0 <= n < v.len() ==> #[trigger] msb[n] == v[n] as int / code_space(shift),
        forall|n: int|
            0 <= n < v.len() && width != 0 && shift != 0 ==> (#[trigger] v[n] as int % code_space(
                shift,
            )) == lsb[n] * code_space(adjust),
        forall|n: int| 0 <= n < v.len() && width == 0 ==> #[trigger] v[n] as int % code_space(shift) == 0,
    ensures
        assembled(msb, lsb, shift, width, adjust) == v,
{
    let out = assembled(msb, lsb, shift, width, adjust);
    let s = code_space(shift);
    lemma_code_spaces(shift, adjust);
    assert forall|n: int| 0 <= n < v.len() implies #[trigger] out[n] == v[n] by {
        assert(msb[n] == v[n] as int / s);
        vstd::arithmetic::div_mod::lemma_fundamental_div_mod(v[n] as int, s);
        let q = v[n] as int / s;
        assert(s * q == q * s) by (nonlinear_arith);
        if shift == 0 {
            assert(s == 1);
        }
    }
    assert(out =~= v);
}

/// Low bits move the samples up by their width, gaps below them move the
/// samples up by themselves, and the first bit of a gap under low bits is free.
pub proof fn low_bits_make_room(set: XllChSetModel, frame: XllFrame, ch: int)
    requires
        frame.fixed_lsb_width == 0,
    ensures
        set.lsb.adjust[ch] <= 1 && set.lsb.widths[ch] > 0 ==> lsb_shift(set, frame, ch)
            == set.lsb.widths[ch],
        set.lsb.widths[ch] <= 1 && set.lsb.adjust[ch] > 0 ==> lsb_shift(set, frame, ch)
            == set.lsb.adjust[ch],
        set.lsb.widths[ch] > 0 && set.lsb.adjust[ch] > 0 ==> lsb_shift(set, frame, ch) + 1
            == set.lsb.widths[ch] + set.lsb.adjust[ch],
        (lsb_shift(set, frame, ch) == 0) == (set.lsb.widths[ch] == 0 && set.lsb.adjust[ch] == 0),
{
}

/// A fixed width is the room there is, whatever the channel says.
pub proof fn fixed_widths_are_the_room(set: XllChSetModel, frame: XllFrame, ch: int)
    requires
        frame.fixed_lsb_width != 0,
    ensures
        lsb_shift(set, frame, ch) == frame.fixed_lsb_width,
{
}

} // verus!
