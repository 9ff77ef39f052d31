//! From coded samples to lossless samples: prediction, decorrelation and the
//! low bits.

use vstd::prelude::*;
use crate::bits::{code_space, power_of_two, shift_right};
use crate::grammar::rows;
use super::fixed::{add32, clip23, clipped, low32, mul16, mul32, rounded, scaled, sub32, wrap32};
use super::xll_band::{narrow, XllBand};
use super::xll_header::{
    is_order, prediction_wf, reflective, DecorrelationModel, Prediction, PredictionModel,
    XllChSet, XllChSetModel, XllFrame,
};

verus! {

/// Prediction coefficients from `n` reflection coefficients.
pub open spec fn coefficients(rc: Seq<i32>, n: int) -> Seq<int>
    decreases n,
{
    if n <= 0 {
        Seq::empty()
    } else {
        let c = coefficients(rc, n - 1);
        Seq::new(
            n as nat,
            |k: int|
                if k < n - 1 {
                    c[k] + scaled(rc[n - 1] as int, c[n - 2 - k], 16)
                } else {
                    rc[n - 1] as int
                },
        )
    }
}

pub open spec fn wide(v: Seq<i32>) -> Seq<int> {
    Seq::new(v.len(), |i: int| v[i] as int)
}

/// A reflection of `t` is no larger than `t`.
proof fn lemma_reflection_shrinks(rc: i32, t: i32, bound: int)
    requires
        -65535 <= rc <= 65535,
        -bound <= t <= bound,
        0 <= bound <= 0x4000_0000,
    ensures
        -bound <= scaled(rc as int, t as int, 16) <= bound,
{
    assert(-65535 * bound <= rc * t <= 65535 * bound) by (nonlinear_arith)
        requires
            -65535 <= rc <= 65535,
            -bound <= t <= bound,
    ;
}

fn build_coefficients(rc: &Vec<i32>) -> (r: Vec<i32>)
    requires
        rc@.len() <= 15,
        reflective(rc@),
    ensures
        r@.len() == rc@.len(),
        wide(r@) == coefficients(rc@, rc@.len() as int),
{
    let mut c: Vec<i32> = Vec::new();
    let mut n: usize = 0;
    let ghost mut bound: int = 0x1_0000;
    assert(wide(c@) =~= coefficients(rc@, 0));
    while n < rc.len()
        invariant
            n <= rc@.len() <= 15,
            reflective(rc@),
            c@.len() == n,
            wide(c@) == coefficients(rc@, n as int),
            bound == 0x1_0000 * code_space(n as int),
            bound >= 0x1_0000,
            forall|k: int| 0 <= k < n ==> -bound <= 2 * #[trigger] c@[k] <= bound,
        decreases rc.len() - n,
    {
        let k0: i32 = rc[n];
        let mut next: Vec<i32> = Vec::new();
        assert(bound <= 0x4000_0000) by {
            assert(code_space(n as int) <= 0x4000);
        }
        while next.len() < n
            invariant
                n < rc@.len() <= 15,
                k0 == rc@[n as int],
                -65535 <= k0 <= 65535,
                c@.len() == n,
                next@.len() <= n,
                0x1_0000 <= bound <= 0x4000_0000,
                forall|k: int| 0 <= k < n ==> -bound <= 2 * #[trigger] c@[k] <= bound,
                forall|k: int| 0 <= k < next@.len() ==> -bound <= #[trigger] next@[k] <= bound,
                forall|k: int|
                    0 <= k < next@.len() ==> #[trigger] next@[k] == c@[k] + scaled(
                        k0 as int,
                        c@[n - 1 - k] as int,
                        16,
                    ),
            decreases n - next.len(),
        {
            let k: usize = next.len();
            let t1: i32 = c[k];
            let t2: i32 = c[n - 1 - k];
            proof {
                lemma_reflection_shrinks(k0, t2, bound / 2);
            }
            let v: i32 = t1 + mul16(k0, t2);
            next.push(v);
        }
        next.push(k0);
        proof {
            assert(code_space(n + 1) == 2 * code_space(n as int));
            bound = 2 * bound;
            assert forall|k: int| 0 <= k < n + 1 implies -bound <= 2 * #[trigger] next@[k] <= bound by {
                if k < n {
                } else {
                    assert(next@[k] == k0);
                }
            }
            assert(wide(next@) =~= coefficients(rc@, n + 1));
        }
        c = next;
        n = n + 1;
    }
    c
}

/// Weighted sum of the `k` samples from `at` on, the last weight first.
pub open spec fn weighted(out: Seq<i32>, at: int, coeff: Seq<int>, k: int) -> int
    decreases k,
{
    if k <= 0 {
        0
    } else {
        weighted(out, at, coeff, k - 1) + out[at + k - 1] * coeff[coeff.len() - k]
    }
}

/// The first `n` samples of a channel that was predicted from the samples
/// before.
pub open spec fn predicted(buf: Seq<i32>, coeff: Seq<int>, n: int) -> Seq<i32>
    decreases n,
{
    if n <= 0 {
        Seq::empty()
    } else {
        let out = predicted(buf, coeff, n - 1);
        let order = coeff.len() as int;
        out.push(
            if n - 1 < order {
                buf[n - 1]
            } else {
                let sum = weighted(out, n - 1 - order, coeff, order);
                wrap32(buf[n - 1] - clipped(wrap32(rounded(sum, 16)))) as i32
            },
        )
    }
}

proof fn lemma_predicted_len(buf: Seq<i32>, coeff: Seq<int>, n: int)
    requires
        n >= 0,
    ensures
        predicted(buf, coeff, n).len() == n,
    decreases n,
{
    if n > 0 {
        lemma_predicted_len(buf, coeff, n - 1);
    }
}

/// Round away 16 fraction bits of a sum and truncate to 32 bits.
fn norm_sum(sum: i128) -> (r: i32)
    requires
        -0x10_0000_0000_0000_0000 <= sum <= 0x10_0000_0000_0000_0000,
    ensures
        r == wrap32(rounded(sum as int, 16)),
{
    let y: i128 = sum + 0x8000;
    let q: i128 = if y >= 0 { y / 0x1_0000 } else { -((0xffff - y) / 0x1_0000) };
    low32(q as i64)
}

fn weigh(buf: &Vec<i32>, at: usize, coeff: &Vec<i32>) -> (r: i128)
    requires
        coeff@.len() <= 15,
        at + coeff@.len() <= buf@.len(),
    ensures
        r == weighted(buf@, at as int, wide(coeff@), coeff@.len() as int),
        -0x10_0000_0000_0000_0000 <= r <= 0x10_0000_0000_0000_0000,
{
    let mut sum: i128 = 0;
    let mut k: usize = 0;
    let total: usize = buf.len();
    while k < coeff.len()
        invariant
            total == buf@.len(),
            k <= coeff@.len() <= 15,
            at + coeff@.len() <= buf@.len(),
            sum == weighted(buf@, at as int, wide(coeff@), k as int),
            -0x4000_0000_0000_0000 * k <= sum <= 0x4000_0000_0000_0000 * k,
        decreases coeff.len() - k,
    {
        let a: i32 = buf[at + k];
        let b: i32 = coeff[coeff.len() - 1 - k];
        proof {
            super::fixed::lemma_product_range(a, b);
        }
        sum = sum + a as i128 * b as i128;
        k = k + 1;
    }
    sum
}

proof fn lemma_weighted_prefix(a: Seq<i32>, b: Seq<i32>, at: int, coeff: Seq<int>, k: int)
    requires
        forall|i: int| at <= i < at + k ==> a[i] == b[i],
    ensures
        weighted(a, at, coeff, k) == weighted(b, at, coeff, k),
    decreases k,
{
    if k > 0 {
        lemma_weighted_prefix(a, b, at, coeff, k - 1);
    }
}

fn predict(buf: &mut Vec<i32>, coeff: &Vec<i32>)
    requires
        coeff@.len() <= 15,
    ensures
        final(buf)@ == predicted(old(buf)@, wide(coeff@), old(buf)@.len() as int),
{
    let ghost input = buf@;
    let ghost weights = wide(coeff@);
    let order: usize = coeff.len();
    let mut n: usize = 0;
    while n < buf.len()
        invariant
            n <= buf@.len(),
            buf@.len() == input.len(),
            input == old(buf)@,
            order == coeff@.len(),
            order <= 15,
            weights == wide(coeff@),
            forall|i: int| 0 <= i < n ==> #[trigger] buf@[i] == predicted(input, weights, n as int)[i],
            forall|i: int| n <= i < buf@.len() ==> #[trigger] buf@[i] == input[i],
        decreases buf.len() - n,
    {
        let ghost out = predicted(input, weights, n as int);
        proof {
            lemma_predicted_len(input, weights, n as int);
        }
        if n >= order {
            let sum: i128 = weigh(buf, n - order, coeff);
            proof {
                lemma_weighted_prefix(buf@, out, n - order, weights, order as int);
            }
            let v: i32 = sub32(buf[n], clip23(norm_sum(sum)));
            buf.set(n, v);
        }
        proof {
            let next = predicted(input, weights, n + 1);
            assert forall|i: int| 0 <= i < n + 1 implies #[trigger] buf@[i] == next[i] by {
                if i < n {
                    assert(next[i] == out[i]);
                }
            }
        }
        n = n + 1;
    }
    proof {
        lemma_predicted_len(input, weights, input.len() as int);
    }
    assert(buf@ =~= predicted(input, weights, input.len() as int));
}

/// The first `n` running sums of a channel.
pub open spec fn summed(buf: Seq<i32>, n: int) -> Seq<i32>
    decreases n,
{
    if n <= 0 {
        Seq::empty()
    } else if n == 1 {
        seq![buf[0]]
    } else {
        let out = summed(buf, n - 1);
        out.push(wrap32(buf[n - 1] + out[n - 2]) as i32)
    }
}

/// A channel summed up `times` times over.
pub open spec fn summed_times(buf: Seq<i32>, times: int) -> Seq<i32>
    decreases times,
{
    if times <= 0 {
        buf
    } else {
        let once = summed_times(buf, times - 1);
        summed(once, once.len() as int)
    }
}

proof fn lemma_summed_len(buf: Seq<i32>, n: int)
    requires
        n >= 0,
    ensures
        summed(buf, n).len() == n,
    decreases n,
{
    if n > 1 {
        lemma_summed_len(buf, n - 1);
    }
}

fn sum_up(buf: &mut Vec<i32>)
    ensures
        final(buf)@ == summed(old(buf)@, old(buf)@.len() as int),
{
    let ghost input = buf@;
    if buf.len() == 0 {
        assert(buf@ =~= summed(input, 0));
        return;
    }
    let mut n: usize = 1;
    assert(summed(input, 1) =~= seq![input[0]]);
    while n < buf.len()
        invariant
            1 <= n <= buf@.len(),
            buf@.len() == input.len(),
            input == old(buf)@,
            forall|i: int| 0 <= i < n ==> #[trigger] buf@[i] == summed(input, n as int)[i],
            forall|i: int| n <= i < buf@.len() ==> #[trigger] buf@[i] == input[i],
        decreases buf.len() - n,
    {
        let ghost out = summed(input, n as int);
        proof {
            lemma_summed_len(input, n as int);
        }
        let v: i32 = add32(buf[n], buf[n - 1]);
        buf.set(n, v);
        proof {
            let next = summed(input, n + 1);
            assert forall|i: int| 0 <= i < n + 1 implies #[trigger] buf@[i] == next[i] by {
                if i < n {
                    assert(next[i] == out[i]);
                }
            }
        }
        n = n + 1;
    }
    proof {
        lemma_summed_len(input, input.len() as int);
    }
    assert(buf@ =~= summed(input, input.len() as int));
}

/// One channel with its prediction undone: adaptive where the set codes
/// coefficients, else running sums.
pub open spec fn unpredicted(buf: Seq<i32>, rc: Seq<i32>, times: int) -> Seq<i32> {
    if rc.len() > 0 {
        predicted(buf, coefficients(rc, rc.len() as int), buf.len() as int)
    } else {
        summed_times(buf, times)
    }
}

fn unpredict(buf: &mut Vec<i32>, rc: &Vec<i32>, times: usize)
    requires
        rc@.len() <= 15,
        reflective(rc@),
    ensures
        final(buf)@ == unpredicted(old(buf)@, rc@, times as int),
        final(buf)@.len() == old(buf)@.len(),
{
    if rc.len() > 0 {
        let coeff: Vec<i32> = build_coefficients(rc);
        predict(buf, &coeff);
        proof {
            lemma_predicted_len(old(buf)@, wide(coeff@), old(buf)@.len() as int);
        }
        return;
    }
    let mut done: usize = 0;
    while done < times
        invariant
            done <= times,
            buf@ == summed_times(old(buf)@, done as int),
            buf@.len() == old(buf)@.len(),
        decreases times - done,
    {
        proof {
            lemma_summed_len(buf@, buf@.len() as int);
        }
        sum_up(buf);
        done = done + 1;
    }
}

/// The second channel of a pair, with the first channel's share put back.
pub open spec fn paired(first: Seq<i32>, second: Seq<i32>, coeff: int) -> Seq<i32> {
    Seq::new(
        second.len(),
        |n: int| wrap32(second[n] + wrap32(wrap32(first[n] * coeff) + 4) / 8) as i32,
    )
}

fn eighth(x: i32) -> (r: i32)
    ensures
        r as int == x as int / 8,
{
    let y: i64 = shift_right(x as i64, 3);
    y as i32
}

fn pair_up(first: &Vec<i32>, second: &mut Vec<i32>, coeff: i32)
    requires
        first@.len() == old(second)@.len(),
    ensures
        final(second)@ == paired(first@, old(second)@, coeff as int),
{
    let mut n: usize = 0;
    while n < second.len()
        invariant
            n <= second@.len(),
            second@.len() == old(second)@.len(),
            first@.len() == second@.len(),
            forall|i: int|
                0 <= i < second@.len() ==> #[trigger] second@[i] == if i < n {
                    paired(first@, old(second)@, coeff as int)[i]
                } else {
                    old(second)@[i]
                },
        decreases second.len() - n,
    {
        let share: i32 = eighth(add32(mul32(first[n], coeff), 4));
        let v: i32 = add32(second[n], share);
        second.set(n, v);
        n = n + 1;
    }
    assert(second@ =~= paired(first@, old(second)@, coeff as int));
}

/// All channels with their prediction undone.
pub open spec fn all_unpredicted(p: PredictionModel, msb: Seq<Seq<i32>>) -> Seq<Seq<i32>> {
    Seq::new(msb.len(), |i: int| unpredicted(msb[i], p.reflection[i], p.fixed[i] as int))
}

/// All pairs of channels put back together.
pub open spec fn all_paired(coeff: Seq<i32>, msb: Seq<Seq<i32>>) -> Seq<Seq<i32>> {
    Seq::new(
        msb.len(),
        |i: int| if i % 2 == 1 { paired(msb[i - 1], msb[i], coeff[i / 2] as int) } else { msb[i] },
    )
}

/// The coded channels in their places.
pub open spec fn reordered(order: Seq<usize>, msb: Seq<Seq<i32>>) -> Seq<Seq<i32>> {
    Seq::new(msb.len(), |c: int| msb[order.index_of(c as usize)])
}

/// The samples of a set after prediction and decorrelation.
pub open spec fn filtered(p: PredictionModel, d: DecorrelationModel, msb: Seq<Seq<i32>>) -> Seq<
    Seq<i32>,
> {
    let plain = all_unpredicted(p, msb);
    if d.enabled { reordered(d.orig_order, all_paired(d.coeff, plain)) } else { plain }
}

/// Rows of one length.
pub open spec fn even_rows(v: Seq<Vec<i32>>, len: int) -> bool {
    forall|i: int| 0 <= i < v.len() ==> (#[trigger] v[i])@.len() == len
}

fn unpredict_all(p: &Prediction, msb: &mut Vec<Vec<i32>>, Ghost(len): Ghost<int>, nseg: usize)
    requires
        prediction_wf(*p, old(msb)@.len() as int, nseg as int),
        even_rows(old(msb)@, len),
    ensures
        final(msb)@.len() == old(msb)@.len(),
        even_rows(final(msb)@, len),
        rows(final(msb)@) == all_unpredicted(p@, rows(old(msb)@)),
{
    let ghost input = rows(msb@);
    let mut i: usize = 0;
    while i < msb.len()
        invariant
            i <= msb@.len(),
            msb@.len() == old(msb)@.len(),
            input == rows(old(msb)@),
            prediction_wf(*p, msb@.len() as int, nseg as int),
            even_rows(msb@, len),
            forall|k: int|
                0 <= k < msb@.len() ==> (#[trigger] msb@[k])@ == if k < i {
                    all_unpredicted(p@, input)[k]
                } else {
                    input[k]
                },
        decreases msb.len() - i,
    {
        assert(msb@[i as int]@ == input[i as int]);
        assert(reflective(p.reflection@[i as int]@));
        unpredict(&mut msb[i], &p.reflection[i], p.fixed[i]);
        i = i + 1;
    }
    assert(rows(msb@) =~= all_unpredicted(p@, input));
}

fn pair_all(coeff: &Vec<i32>, msb: &mut Vec<Vec<i32>>, Ghost(len): Ghost<int>)
    requires
        coeff@.len() == old(msb)@.len() / 2,
        even_rows(old(msb)@, len),
    ensures
        final(msb)@.len() == old(msb)@.len(),
        even_rows(final(msb)@, len),
        rows(final(msb)@) == all_paired(coeff@, rows(old(msb)@)),
{
    let ghost input = rows(msb@);
    let mut i: usize = 0;
    let total: usize = msb.len();
    while i < coeff.len()
        invariant
            total == msb@.len(),
            i <= coeff@.len(),
            msb@.len() == old(msb)@.len(),
            coeff@.len() == msb@.len() / 2,
            input == rows(old(msb)@),
            even_rows(msb@, len),
            forall|k: int|
                0 <= k < msb@.len() ==> (#[trigger] msb@[k])@ == if k < 2 * i {
                    all_paired(coeff@, input)[k]
                } else {
                    input[k]
                },
        decreases coeff.len() - i,
    {
        let mut second: Vec<i32> = Vec::new();
        std::mem::swap(&mut second, &mut msb[2 * i + 1]);
        pair_up(&msb[2 * i], &mut second, coeff[i]);
        std::mem::swap(&mut second, &mut msb[2 * i + 1]);
        i = i + 1;
    }
    assert(rows(msb@) =~= all_paired(coeff@, input));
}

fn find(order: &Vec<usize>, place: usize) -> (r: usize)
    requires
        is_order(order@, order@.len() as int),
        place < order@.len(),
        exists|i: int| 0 <= i < order@.len() && order@[i] == place,
    ensures
        r < order@.len(),
        order@[r as int] == place,
        r == order@.index_of(place),
{
    let mut i: usize = 0;
    while i < order.len()
        invariant
            i <= order@.len(),
            is_order(order@, order@.len() as int),
            exists|j: int| 0 <= j < order@.len() && order@[j] == place,
            forall|j: int| 0 <= j < i ==> order@[j] != place,
        decreases order.len() - i,
    {
        if order[i] == place {
            assert(order@.index_of(place) == i);
            return i;
        }
        i = i + 1;
    }
    proof {
        assert(false);
    }
    0
}

/// `n` different places below `n` are all the places there are.
proof fn lemma_order_onto(order: Seq<usize>, n: int, place: usize)
    requires
        order.len() == n,
        is_order(order, n),
        place < n <= usize::MAX,
    ensures
        exists|i: int| 0 <= i < n && order[i] == place,
{
    let image = order.to_set();
    order.unique_seq_to_set();
    let all = Set::new(|x: usize| x < n);
    lemma_below_finite(n);
    assert(image.subset_of(all));
    if !order.contains(place) {
        assert(image.subset_of(all.remove(place)));
        vstd::set_lib::lemma_len_subset(image, all.remove(place));
        assert(false);
    }
}

proof fn lemma_below_finite(n: int)
    requires
        0 <= n <= usize::MAX,
    ensures
        Set::new(|x: usize| x < n).finite(),
        Set::new(|x: usize| x < n).len() == n,
    decreases n,
{
    let all = Set::new(|x: usize| x < n);
    if n == 0 {
        assert(all =~= Set::<usize>::empty());
    } else {
        lemma_below_finite(n - 1);
        let less = Set::new(|x: usize| x < n - 1);
        assert(all =~= less.insert((n - 1) as usize));
    }
}

fn reorder(order: &Vec<usize>, msb: &mut Vec<Vec<i32>>, Ghost(len): Ghost<int>)
    requires
        order@.len() == old(msb)@.len(),
        is_order(order@, order@.len() as int),
        even_rows(old(msb)@, len),
    ensures
        final(msb)@.len() == old(msb)@.len(),
        even_rows(final(msb)@, len),
        rows(final(msb)@) == reordered(order@, rows(old(msb)@)),
{
    let ghost input = rows(msb@);
    let mut out: Vec<Vec<i32>> = Vec::new();
    let n: usize = msb.len();
    while out.len() < n
        invariant
            n == msb@.len(),
            msb@.len() == input.len(),
            order@.len() == n,
            is_order(order@, n as int),
            out@.len() <= n,
            input == rows(old(msb)@),
            old(msb)@.len() == n,
            even_rows(old(msb)@, len),
            forall|k: int|
                0 <= k < n && #[trigger] order@[k] >= out@.len() ==> msb@[k]@ == input[k],
            even_rows(out@, len),
            forall|c: int| 0 <= c < out@.len() ==> (#[trigger] out@[c])@ == reordered(order@, input)[c],
        decreases n - out.len(),
    {
        let c: usize = out.len();
        proof {
            lemma_order_onto(order@, n as int, c);
        }
        let i: usize = find(order, c);
        let mut row: Vec<i32> = Vec::new();
        std::mem::swap(&mut row, &mut msb[i]);
        assert(row@ == input[i as int]);
        assert(input[i as int].len() == len) by {
            assert(old(msb)@[i as int]@.len() == len);
        }
        out.push(row);
    }
    assert(rows(out@) =~= reordered(order@, input));
    *msb = out;
}

/// Undo the prediction of every channel and the decorrelation of the set.
pub fn chs_filter_band_data(set: &XllChSet, frame: &XllFrame, band: &mut XllBand)
    requires
        frame.wf(),
        set.wf(*frame),
        old(band).wf(*set, *frame, frame.nframesegs as int),
    ensures
        final(band).wf(*set, *frame, frame.nframesegs as int),
        final(band).coding == old(band).coding,
        final(band).lsb == old(band).lsb,
        rows(final(band).msb@) == filtered(
            set.prediction@,
            set.decorrelation@,
            rows(old(band).msb@),
        ),
{
    let ghost len = frame.nframesegs * frame.nsegsamples;
    unpredict_all(&set.prediction, &mut band.msb, Ghost(len), frame.nsegsamples);
    if set.decorrelation.enabled {
        pair_all(&set.decorrelation.coeff, &mut band.msb, Ghost(len));
        reorder(&set.decorrelation.orig_order, &mut band.msb, Ghost(len));
    }
}

/// Bits by which a channel's samples are moved up to make room for low bits.
pub open spec fn lsb_shift(set: XllChSetModel, frame: XllFrame, ch: int) -> int {
    let adjust = set.lsb.adjust[ch] as int;
    let width = set.lsb.widths[ch] as int;
    if frame.fixed_lsb_width != 0 {
        frame.fixed_lsb_width as int
    } else if width != 0 && adjust != 0 {
        width + adjust - 1
    } else {
        width + adjust
    }
}

pub fn chs_get_lsb_width(set: &XllChSet, frame: &XllFrame, ch: usize) -> (r: usize)
    requires
        frame.wf(),
        set.wf(*frame),
        ch < set.head.nchannels,
    ensures
        r == lsb_shift(set@, *frame, ch as int),
        r <= 29,
{
    let adjust: usize = set.lsb.adjust[ch];
    let width: usize = set.lsb.widths[ch];
    if frame.fixed_lsb_width != 0 {
        frame.fixed_lsb_width
    } else if width != 0 && adjust != 0 {
        width + adjust - 1
    } else {
        width + adjust
    }
}

/// Samples moved up by `shift` bits, with their low bits put in where the
/// channel has any.
pub open spec fn assembled(msb: Seq<i32>, lsb: Seq<i32>, shift: int, width: int, adjust: int) -> Seq<
    i32,
> {
    if shift == 0 {
        msb
    } else {
        Seq::new(
            msb.len(),
            |n: int|
                if width != 0 {
                    wrap32(wrap32(msb[n] * code_space(shift)) + lsb[n] * code_space(adjust)) as i32
                } else {
                    wrap32(msb[n] * code_space(shift)) as i32
                },
        )
    }
}

fn assemble(msb: &mut Vec<i32>, lsb: &Vec<i32>, shift: usize, width: usize, adjust: usize)
    requires
        shift <= 29,
        adjust <= 15,
        width != 0 ==> lsb@.len() == old(msb)@.len() && narrow(lsb@),
    ensures
        final(msb)@ == assembled(old(msb)@, lsb@, shift as int, width as int, adjust as int),
        final(msb)@.len() == old(msb)@.len(),
{
    if shift == 0 {
        return;
    }
    let up: i32 = power_of_two(shift as u32) as i32;
    let low: i32 = power_of_two(adjust as u32) as i32;
    let mut n: usize = 0;
    while n < msb.len()
        invariant
            n <= msb@.len(),
            msb@.len() == old(msb)@.len(),
            0 < shift <= 29,
            adjust <= 15,
            up == code_space(shift as int),
            low == code_space(adjust as int),
            0 < low <= 0x8000,
            width != 0 ==> lsb@.len() == msb@.len() && narrow(lsb@),
            forall|i: int|
                0 <= i < msb@.len() ==> #[trigger] msb@[i] == if i < n {
                    assembled(old(msb)@, lsb@, shift as int, width as int, adjust as int)[i]
                } else {
                    old(msb)@[i]
                },
        decreases msb.len() - n,
    {
        let high: i32 = mul32(msb[n], up);
        let v: i32 = if width != 0 {
            let b: i32 = lsb[n];
            proof {
                assert(0 <= b * low <= 0x7fff * 0x8000) by (nonlinear_arith)
                    requires
                        0 <= b < 0x8000,
                        0 < low <= 0x8000,
                ;
            }
            add32(high, b * low)
        } else {
            high
        };
        msb.set(n, v);
        n = n + 1;
    }
    assert(msb@ =~= assembled(old(msb)@, lsb@, shift as int, width as int, adjust as int));
}

/// Every channel of a set with its low bits.
pub open spec fn all_assembled(
    set: XllChSetModel,
    frame: XllFrame,
    msb: Seq<Seq<i32>>,
    lsb: Seq<Seq<i32>>,
) -> Seq<Seq<i32>> {
    Seq::new(
        msb.len(),
        |ch: int|
            assembled(
                msb[ch],
                lsb[ch],
                lsb_shift(set, frame, ch),
                set.lsb.widths[ch] as int,
                set.lsb.adjust[ch] as int,
            ),
    )
}

/// Put the low bits of every channel under its high bits.
pub fn chs_assemble_msbs_lsbs(set: &XllChSet, frame: &XllFrame, band: &mut XllBand)
    requires
        frame.wf(),
        set.wf(*frame),
        old(band).wf(*set, *frame, frame.nframesegs as int),
    ensures
        final(band).wf(*set, *frame, frame.nframesegs as int),
        final(band).coding == old(band).coding,
        final(band).lsb == old(band).lsb,
        rows(final(band).msb@) == all_assembled(
            set@,
            *frame,
            rows(old(band).msb@),
            rows(old(band).lsb@),
        ),
{
    let ghost len = frame.nframesegs * frame.nsegsamples;
    let ghost input = rows(band.msb@);
    let ghost want = all_assembled(set@, *frame, input, rows(band.lsb@));
    let mut ch: usize = 0;
    while ch < set.head.nchannels
        invariant
            ch <= set.head.nchannels,
            frame.wf(),
            set.wf(*frame),
            len == frame.nframesegs * frame.nsegsamples,
            band.wf(*set, *frame, frame.nframesegs as int),
            old(band).wf(*set, *frame, frame.nframesegs as int),
            band.lsb == old(band).lsb,
            band.coding == old(band).coding,
            input == rows(old(band).msb@),
            want == all_assembled(set@, *frame, input, rows(old(band).lsb@)),
            forall|k: int|
                0 <= k < band.msb@.len() ==> (#[trigger] band.msb@[k])@ == if k < ch {
                    want[k]
                } else {
                    input[k]
                },
        decreases set.head.nchannels - ch,
    {
        let shift: usize = chs_get_lsb_width(set, frame, ch);
        let ghost low = rows(old(band).lsb@)[ch as int];
        assert(low == band.lsb@[ch as int]@);
        assert(band.msb@[ch as int]@ == input[ch as int]);
        assert(want[ch as int] == assembled(
            input[ch as int],
            low,
            shift as int,
            set.lsb.widths@[ch as int] as int,
            set.lsb.adjust@[ch as int] as int,
        ));
        assert(band.lsb@[ch as int]@.len() == if set.lsb.widths@[ch as int] == 0 { 0 } else { len });
        assemble(&mut band.msb[ch], &band.lsb[ch], shift, set.lsb.widths[ch], set.lsb.adjust[ch]);
        ch = ch + 1;
    }
    assert(rows(band.msb@) =~= want);
}

} // verus!
