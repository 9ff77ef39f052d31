//! What the output of a lossless frame holds of what was sent.

use vstd::prelude::*;
use crate::bits::{code_space, has_bit};
use crate::dca::core_output::{slot_moved, CorePcm};
use crate::dca::fixed::{
    clipped, products_are_rounded, rounded, rounding_takes_the_nearest, scaled, wrap32,
};
use crate::dca::xll_error::XllError;
use crate::dca::xll_filter::lsb_shift;
use crate::dca::xll_header::{XllChSetModel, XllFrame};
use crate::dca::xll_laws::nearest;
use crate::dca::xll_output::{
    all_undone, combined, core_share, core_shift, core_speaker, finished_set, finished_sets,
    first_hier_dmix, frame_output, is_hier_dmix, mask_of_sets, normalized, placed_set, placed_sets,
    residual_channel, residual_channels, residual_set, stands_alone, undone, unmixed, upshifted,
};

verus! {

/// A channel builds on its own speaker of the core; only without that do the
/// side surrounds build on the surrounds.
pub proof fn channels_build_on_their_own_speaker(core_mask: u32, spkr: int)
    requires
        0 <= spkr < 32,
    ensures
        has_bit(core_mask, spkr) ==> core_speaker(core_mask, spkr) == Some(spkr),
        !has_bit(core_mask, spkr) && spkr != 9 && spkr != 10 ==> core_speaker(core_mask, spkr)
            is None,
        core_speaker(core_mask, spkr) matches Some(s) ==> has_bit(core_mask, s) && (s == spkr || s
            == spkr - 6),
        !has_bit(core_mask, 9) && has_bit(core_mask, 3) ==> core_speaker(core_mask, 9) == Some(
            3int,
        ),
        !has_bit(core_mask, 10) && has_bit(core_mask, 4) ==> core_speaker(core_mask, 10) == Some(
            4int,
        ),
{
}

/// A channel coded as what the core leaves of it comes back: `share` is the
/// core's sample in the channel's units.
pub proof fn residuals_come_back(
    x: Seq<i32>,
    core: Seq<i32>,
    share: Seq<int>,
    coded: Seq<i32>,
    shift: int,
)
    requires
        0 <= shift <= 24,
        x.len() == core.len() == share.len() == coded.len(),
        forall|n: int|
            0 <= n < x.len() ==> nearest(#[trigger] core[n] as int, code_space(shift), share[n]),
        forall|n: int| 0 <= n < x.len() ==> #[trigger] coded[n] == wrap32(x[n] - share[n]),
    ensures
        combined(coded, core, None, shift) == x,
{
    assert forall|n: int| 0 <= n < x.len() implies #[trigger] combined(coded, core, None, shift)[n]
        == x[n] by {
        assert(nearest(core[n] as int, code_space(shift), share[n]));
        assert(coded[n] == wrap32(x[n] - share[n]));
        rounding_takes_the_nearest(core[n] as int, shift);
        let h = code_space(shift);
        let r = rounded(core[n] as int, shift);
        let v = share[n];
        let t = core[n] as int;
        assert(r == v) by (nonlinear_arith)
            requires
                h >= 1,
                2 * t < h * (2 * r + 1),
                h * (2 * r - 1) <= 2 * t,
                2 * t < h * (2 * v + 1),
                h * (2 * v - 1) <= 2 * t,
        ;
    }
    assert(combined(coded, core, None, shift) =~= x);
}

/// A core scaled down for a downmix is scaled up again before it is brought to
/// the channel; a scale of one changes nothing.
pub proof fn scaled_cores_are_brought_back(x: int, inverse: int, shift: int)
    requires
        -0x80_0000 <= x <= 0x7f_ffff,
        0 <= shift <= 24,
    ensures
        core_share(x, Some(0x1_0000), shift) == core_share(x, None, shift),
        -0x8000_0000 * 0x1_0000 <= x * inverse < 0x7fff_ffff * 0x1_0000 ==> ({
            let up = scaled(x, inverse, 16);
            &&& nearest(x * inverse, 0x1_0000, up)
            &&& core_share(x, Some(inverse), shift) == clipped(core_share(up, None, shift))
        }),
{
    assert(code_space(16) == 0x1_0000 && code_space(15) == 0x8000);
    assert(x * 0x1_0000 == 0x1_0000 * x);
    assert(rounded(x * 0x1_0000, 16) == x);
    if -0x8000_0000 * 0x1_0000 <= x * inverse < 0x7fff_ffff * 0x1_0000 {
        products_are_rounded(x, inverse, 16);
    }
    rounding_takes_the_nearest(x, shift);
    let h = code_space(shift);
    let r = rounded(x, shift);
    assert(h >= 1);
    assert(-0x80_0000 <= r <= 0x80_0000) by (nonlinear_arith)
        requires
            h >= 1,
            2 * x < h * (2 * r + 1),
            h * (2 * r - 1) <= 2 * x,
            -0x80_0000 <= x <= 0x7f_ffff,
    ;
    if shift == 0 {
        assert(r == x);
    } else {
        assert(r <= 0x7f_ffff) by (nonlinear_arith)
            requires
                h >= 2,
                h * (2 * r - 1) <= 2 * x,
                x <= 0x7f_ffff,
        ;
    }
}

/// The core has 24 bits: a channel of fewer takes it down by the difference,
/// and by the room for low bits.
pub proof fn cores_are_brought_to_the_resolution(set: XllChSetModel, frame: XllFrame, ch: int)
    ensures
        set.head.pcm_bit_res + core_shift(set, frame, ch) == 24 + lsb_shift(set, frame, ch),
{
}

/// A channel coded without the core stays as it is.
pub proof fn independent_channels_stay(
    set: XllChSetModel,
    frame: XllFrame,
    ch: int,
    row: Seq<i32>,
    core: CorePcm,
    next: Option<XllChSetModel>,
)
    ensures
        has_bit(set.head.residual_encode, ch) ==> residual_channel(set, frame, ch, row, core, next)
            == Ok::<_, crate::dca::xll_error::XllError>(row),
        !has_bit(set.head.residual_encode, ch) && core_speaker(
            core.ch_mask,
            set.mapping.ch_remap[ch] as int,
        ) is None ==> residual_channel(set, frame, ch, row, core, next) is Err,
{
}

/// `row` with `share[k]` of the first `k` sources added, for each `k`.
pub open spec fn mixed(row: Seq<i32>, share: Seq<Seq<int>>, k: int) -> Seq<i32>
    decreases k,
{
    if k <= 0 {
        row
    } else {
        let before = mixed(row, share, k - 1);
        Seq::new(before.len(), |n: int| wrap32(before[n] + share[k - 1][n]) as i32)
    }
}

/// Taking the channels of a set out of one that they were mixed into undoes
/// mixing them in, each times its coefficient in units of 15 bits.
pub proof fn unmixing_undoes_mixing(
    row: Seq<i32>,
    sources: Seq<Seq<i32>>,
    coeff: Seq<i32>,
    share: Seq<Seq<int>>,
    k: int,
)
    requires
        0 <= k <= sources.len(),
        k <= coeff.len(),
        k <= share.len(),
        forall|j: int, n: int|
            0 <= j < k && 0 <= n < row.len() ==> nearest(
                sources[j][n] * coeff[j],
                0x8000,
                #[trigger] share[j][n],
            ),
        forall|j: int, n: int|
            0 <= j < k && 0 <= n < row.len() ==> -0x7fff_0000 <= #[trigger] share[j][n]
                <= 0x7fff_0000,
    ensures
        unmixed(mixed(row, share, k), sources, coeff, k) == row,
{
    lemma_all_out(row, sources, coeff, share, k, k);
    assert(unmixed(mixed(row, share, k), sources, coeff, k) =~= row);
}

/// What is left to be taken out of a mix at sample `n`.
spec fn sum_of(share: Seq<Seq<int>>, from: int, to: int, n: int) -> int
    decreases to - from,
{
    if from >= to { 0 } else { share[from][n] + sum_of(share, from + 1, to, n) }
}

proof fn lemma_sum_end(share: Seq<Seq<int>>, from: int, to: int, n: int)
    requires
        from < to,
    ensures
        sum_of(share, from, to, n) == sum_of(share, from, to - 1, n) + share[to - 1][n],
    decreases to - from,
{
    reveal_with_fuel(sum_of, 2);
    if from < to - 1 {
        lemma_sum_end(share, from + 1, to, n);
    }
}

proof fn lemma_mixed(row: Seq<i32>, share: Seq<Seq<int>>, k: int)
    requires
        0 <= k,
    ensures
        mixed(row, share, k).len() == row.len(),
        forall|n: int|
            0 <= n < row.len() ==> #[trigger] mixed(row, share, k)[n] == wrap32(
                row[n] + sum_of(share, 0, k, n),
            ),
    decreases k,
{
    if k > 0 {
        lemma_mixed(row, share, k - 1);
        assert forall|n: int| 0 <= n < row.len() implies #[trigger] mixed(row, share, k)[n]
            == wrap32(row[n] + sum_of(share, 0, k, n)) by {
            lemma_sum_end(share, 0, k, n);
            assert(mixed(row, share, k - 1)[n] == wrap32(row[n] + sum_of(share, 0, k - 1, n)));
        }
    }
}

proof fn lemma_all_out(
    row: Seq<i32>,
    sources: Seq<Seq<i32>>,
    coeff: Seq<i32>,
    share: Seq<Seq<int>>,
    k: int,
    j: int,
)
    requires
        0 <= j <= k <= sources.len(),
        k <= coeff.len(),
        k <= share.len(),
        forall|j: int, n: int|
            0 <= j < k && 0 <= n < row.len() ==> nearest(
                sources[j][n] * coeff[j],
                0x8000,
                #[trigger] share[j][n],
            ),
        forall|j: int, n: int|
            0 <= j < k && 0 <= n < row.len() ==> -0x7fff_0000 <= #[trigger] share[j][n]
                <= 0x7fff_0000,
    ensures
        unmixed(mixed(row, share, k), sources, coeff, j).len() == row.len(),
        forall|n: int|
            0 <= n < row.len() ==> #[trigger] unmixed(
                mixed(row, share, k),
                sources,
                coeff,
                j,
            )[n] == wrap32(row[n] + sum_of(share, j, k, n)),
    decreases j,
{
    let start = mixed(row, share, k);
    if j <= 0 {
        lemma_mixed(row, share, k);
    } else {
        lemma_all_out(row, sources, coeff, share, k, j - 1);
        let before = unmixed(start, sources, coeff, j - 1);
        let out = unmixed(start, sources, coeff, j);
        assert forall|n: int| 0 <= n < row.len() implies #[trigger] out[n] == wrap32(
            row[n] + sum_of(share, j, k, n),
        ) by {
            let v = share[j - 1][n];
            let m = sources[j - 1][n] * coeff[j - 1];
            assert(nearest(m, 0x8000, v));
            assert(-0x7fff_0000 <= v <= 0x7fff_0000);
            assert(code_space(15) == 0x8000);
            rounding_takes_the_nearest(m, 15);
            assert(rounded(m, 15) == v);
            assert(scaled(sources[j - 1][n] as int, coeff[j - 1] as int, 15) == v);
            assert(before[n] == wrap32(row[n] + sum_of(share, j - 1, k, n)));
        }
    }
}

/// The next set that was mixed into others is one, and none before it is.
pub proof fn mixed_sets_are_found_in_turn(sets: Seq<XllChSetModel>, i: int)
    requires
        0 <= i,
    ensures
        first_hier_dmix(sets, i) matches Some(k) ==> i <= k < sets.len() && is_hier_dmix(sets[k])
            && forall|j: int| i <= j < k ==> !is_hier_dmix(#[trigger] sets[j]),
        first_hier_dmix(sets, i) is None ==> forall|j: int|
            i <= j < sets.len() ==> !is_hier_dmix(#[trigger] sets[j]),
    decreases sets.len() - i,
{
    if i < sets.len() {
        mixed_sets_are_found_in_turn(sets, i + 1);
    }
}

/// Taking a set out touches the sets before it alone, and each of their
/// channels with its own coefficients.
pub proof fn sets_are_taken_out_of_earlier_ones(
    sets: Seq<XllChSetModel>,
    all: Seq<Seq<Seq<i32>>>,
    o: int,
    c: int,
    j: int,
)
    requires
        0 <= o < all.len(),
        0 <= c < all.len(),
        0 <= j < all[c].len(),
    ensures
        c >= o ==> undone(sets, all, o)[c] == all[c],
        c < o ==> undone(sets, all, o)[c][j] == unmixed(
            all[c][j],
            all[o],
            sets[o].mapping.downmix[sets[c].hier_ofs + j].coeff,
            all[o].len() as int,
        ),
{
}

/// Sets that were mixed into none leave everything as it is.
pub proof fn unmixed_sets_stay(sets: Seq<XllChSetModel>, all: Seq<Seq<Seq<i32>>>, o: int)
    requires
        o <= sets.len(),
        forall|i: int| 1 <= i < o ==> !is_hier_dmix(#[trigger] sets[i]),
    ensures
        all_undone(sets, all, o) == all,
    decreases o,
{
    if o > 1 {
        unmixed_sets_stay(sets, all, o - 1);
    }
}

/// Output samples have 24 bits: those of fewer are brought up, and loud ones
/// held.
pub proof fn outputs_have_24_bits(row: Seq<i32>, shift: int, n: int)
    requires
        0 <= n < row.len(),
        0 <= shift <= 24,
    ensures
        upshifted(row, shift).len() == row.len(),
        -0x80_0000 <= row[n] * code_space(shift) <= 0x7f_ffff ==> upshifted(row, shift)[n]
            == row[n] * code_space(shift),
        -0x80_0000 <= upshifted(row, shift)[n] <= 0x7f_ffff,
        shift == 0 && row[n] > 0x7f_ffff ==> upshifted(row, shift)[n] == 0x7f_ffff,
        shift == 0 && row[n] < -0x80_0000 ==> upshifted(row, shift)[n] == -0x80_0000,
{
    if shift == 0 {
        assert(code_space(0) == 1);
        assert(row[n] * 1 == row[n]);
    }
}

/// Every channel plays from its speaker's slot, and no other slot changes.
pub proof fn channels_play_from_their_slots(
    out: Seq<Option<Seq<i32>>>,
    remap: Seq<usize>,
    msb: Seq<Seq<i32>>,
    shift: int,
    k: int,
    slot: int,
)
    requires
        0 <= k <= remap.len(),
        k <= msb.len(),
        0 <= slot < out.len(),
        forall|i: int| 0 <= i < k ==> (#[trigger] remap[i]) < out.len(),
        forall|i: int, j: int| 0 <= i < j < k ==> #[trigger] remap[i] != #[trigger] remap[j],
    ensures
        placed_set(out, remap, msb, shift, k).len() == out.len(),
        forall|i: int|
            0 <= i < k && #[trigger] remap[i] == slot ==> placed_set(out, remap, msb, shift, k)[slot]
                == Some(upshifted(msb[i], shift)),
        (forall|i: int| 0 <= i < k ==> #[trigger] remap[i] != slot) ==> placed_set(
            out,
            remap,
            msb,
            shift,
            k,
        )[slot] == out[slot],
    decreases k,
{
    if k > 0 {
        channels_play_from_their_slots(out, remap, msb, shift, k - 1, slot);
        assert(remap[k - 1] < out.len());
    }
}

/// A speaker is in the mask of some sets exactly when one of them has it.
pub proof fn masks_are_the_sets_together(sets: Seq<XllChSetModel>, k: int, b: int)
    requires
        0 <= k <= sets.len(),
        0 <= b < 32,
    ensures
        has_bit(mask_of_sets(sets, k), b) <==> exists|i: int|
            0 <= i < k && has_bit((#[trigger] sets[i]).mapping.ch_mask, b),
    decreases k,
{
    if k > 0 {
        masks_are_the_sets_together(sets, k - 1, b);
        let x = mask_of_sets(sets, k - 1);
        let y = sets[k - 1].mapping.ch_mask;
        let n = b as u32;
        assert(((x | y) >> n) & 1 == 1 <==> ((x >> n) & 1 == 1 || (y >> n) & 1 == 1))
            by (bit_vector);
        if has_bit(y, b) {
            assert(has_bit(sets[k - 1].mapping.ch_mask, b));
        }
        if has_bit(x, b) {
            let i = choose|i: int|
                0 <= i < k - 1 && has_bit((#[trigger] sets[i]).mapping.ch_mask, b);
            assert(has_bit(sets[i].mapping.ch_mask, b));
        }
    } else {
        let n = b as u32;
        assert((0u32 >> n) & 1 == 0) by (bit_vector);
    }
}

/// Side surrounds that play do so from the surrounds' slots and bits, each from
/// its side's; all others stay.
pub proof fn side_surrounds_become_surrounds(slots: Seq<Option<Seq<i32>>>, mask: u32, i: int)
    requires
        slots.len() == 32,
        0 <= i < 32,
    ensures
        ({
            let (out, m) = normalized(slots, mask);
            &&& out.len() == 32
            &&& out[9] is None && out[10] is None
            &&& slots[9] is Some ==> out[3] == slots[9] && has_bit(m, 3) && !has_bit(m, 9)
            &&& slots[9] is None ==> out[3] == slots[3] && has_bit(m, 3) == has_bit(mask, 3)
                && has_bit(m, 9) == has_bit(mask, 9)
            &&& slots[10] is Some ==> out[4] == slots[10] && has_bit(m, 4) && !has_bit(m, 10)
            &&& slots[10] is None ==> out[4] == slots[4] && has_bit(m, 4) == has_bit(mask, 4)
                && has_bit(m, 10) == has_bit(mask, 10)
            &&& i != 3 && i != 4 && i != 9 && i != 10 ==> out[i] == slots[i] && has_bit(m, i)
                == has_bit(mask, i)
        }),
{
    lemma_moved_bits(mask);
    let a = (mask & !0x200u32) | 8u32;
    lemma_moved_bits(a);
    assert forall|b: int| 0 <= b < 32 && b != 3 && b != 9 implies has_bit(
        (mask & !0x200u32) | 8u32,
        b,
    ) == #[trigger] has_bit(mask, b) by {
        lemma_other_bits(mask, b);
    }
    lemma_other_bits(mask, i);
    lemma_other_bits(a, i);
    lemma_other_bits(mask, 3);
    lemma_other_bits(mask, 4);
    lemma_other_bits(mask, 9);
    lemma_other_bits(mask, 10);
    lemma_other_bits(a, 3);
    lemma_other_bits(a, 9);
}

proof fn lemma_moved_bits(mask: u32)
    ensures
        has_bit((mask & !0x200u32) | 8u32, 3),
        !has_bit((mask & !0x200u32) | 8u32, 9),
        has_bit((mask & !0x400u32) | 0x10u32, 4),
        !has_bit((mask & !0x400u32) | 0x10u32, 10),
{
    assert((((mask & !0x200u32) | 8u32) >> 3u32) & 1 == 1 && (((mask & !0x200u32) | 8u32) >> 9u32)
        & 1 == 0 && (((mask & !0x400u32) | 0x10u32) >> 4u32) & 1 == 1 && (((mask & !0x400u32)
        | 0x10u32) >> 10u32) & 1 == 0) by (bit_vector);
}

proof fn lemma_other_bits(mask: u32, b: int)
    requires
        0 <= b < 32,
    ensures
        b != 3 && b != 9 ==> has_bit((mask & !0x200u32) | 8u32, b) == has_bit(mask, b),
        b != 4 && b != 10 ==> has_bit((mask & !0x400u32) | 0x10u32, b) == has_bit(mask, b),
{
    let n = b as u32;
    assert(n < 32 && n != 3 && n != 9 ==> (((mask & !0x200u32) | 8u32) >> n) & 1 == (mask >> n) & 1)
        by (bit_vector);
    assert(n < 32 && n != 4 && n != 10 ==> (((mask & !0x400u32) | 0x10u32) >> n) & 1 == (mask >> n)
        & 1) by (bit_vector);
}

/// A slot moves whole, and leaves its place empty.
pub proof fn moved_slots_leave_their_place(v: Seq<Option<Seq<i32>>>, from: int, to: int, i: int)
    requires
        0 <= from < v.len(),
        0 <= to < v.len(),
        0 <= i < v.len(),
        from != to,
    ensures
        v[from] is Some ==> slot_moved(v, from, to)[to] == v[from] && slot_moved(v, from, to)[from]
            is None,
        v[from] is None ==> slot_moved(v, from, to) == v,
        i != from && i != to ==> slot_moved(v, from, to)[i] == v[i],
{
}

/// A set coded without the core needs none, and any other needs one.
pub proof fn residual_sets_need_the_core(
    sets: Seq<XllChSetModel>,
    frame: XllFrame,
    chs: int,
    msb: Seq<Seq<i32>>,
    lsb: Seq<Seq<i32>>,
    core: Option<CorePcm>,
)
    ensures
        stands_alone(sets[chs]) ==> finished_set(sets, frame, chs, msb, lsb, core) is Ok
            && finished_set(sets, frame, chs, msb, lsb, core) == finished_set(
            sets,
            frame,
            chs,
            msb,
            lsb,
            None,
        ),
        !stands_alone(sets[chs]) ==> finished_set(sets, frame, chs, msb, lsb, None) is Err,
{
}

/// Each channel of a set is combined with the core by itself, from its own
/// samples, and one that cannot be stops the set.
pub proof fn channels_are_combined_alone(
    set: XllChSetModel,
    frame: XllFrame,
    msb: Seq<Seq<i32>>,
    core: CorePcm,
    next: Option<XllChSetModel>,
    n: int,
    ch: int,
)
    requires
        0 <= ch < n,
    ensures
        residual_channels(set, frame, msb, core, next, n) matches Ok(rows) ==> rows.len() == n
            && residual_channel(set, frame, ch, msb[ch], core, next) == Ok::<_, XllError>(rows[ch]),
        residual_channel(set, frame, ch, msb[ch], core, next) is Err ==> residual_channels(
            set,
            frame,
            msb,
            core,
            next,
            n,
        ) is Err,
    decreases n,
{
    if ch < n - 1 {
        channels_are_combined_alone(set, frame, msb, core, next, n - 1, ch);
    } else if n > 1 {
        channels_are_combined_alone(set, frame, msb, core, next, n - 1, 0);
    }
}

/// A set over the core runs at its rate and length.
pub proof fn cores_run_along_with_their_sets(
    set: XllChSetModel,
    frame: XllFrame,
    msb: Seq<Seq<i32>>,
    core: CorePcm,
    next: Option<XllChSetModel>,
)
    ensures
        residual_set(set, frame, msb, core, next) is Ok ==> set.head.freq == core.output_rate
            && frame.nframesamples == core.npcmsamples,
        set.head.freq == core.output_rate && frame.nframesamples == core.npcmsamples
            ==> residual_set(set, frame, msb, core, next) == residual_channels(
            set,
            frame,
            msb,
            core,
            next,
            set.head.nchannels as int,
        ),
{
}

/// Each set is finished from its own bands, and one that cannot be stops the
/// frame.
pub proof fn sets_are_finished_alone(
    sets: Seq<XllChSetModel>,
    frame: XllFrame,
    msb: Seq<Seq<Seq<i32>>>,
    lsb: Seq<Seq<Seq<i32>>>,
    core: Option<CorePcm>,
    k: int,
    chs: int,
)
    requires
        0 <= chs < k,
    ensures
        finished_sets(sets, frame, msb, lsb, core, k) matches Ok(done) ==> done.len() == k
            && finished_set(sets, frame, chs, msb[chs], lsb[chs], core) == Ok::<_, XllError>(
            done[chs],
        ),
        finished_set(sets, frame, chs, msb[chs], lsb[chs], core) is Err ==> finished_sets(
            sets,
            frame,
            msb,
            lsb,
            core,
            k,
        ) is Err,
    decreases k,
{
    if chs < k - 1 {
        sets_are_finished_alone(sets, frame, msb, lsb, core, k - 1, chs);
    } else if k > 1 {
        sets_are_finished_alone(sets, frame, msb, lsb, core, k - 1, 0);
    }
}

/// A set's channels play from the slots that its mapping names; slots that it
/// does not name are those of the sets before, and without any they are silent.
pub proof fn sets_play_from_their_slots(
    sets: Seq<XllChSetModel>,
    all: Seq<Seq<Seq<i32>>>,
    shift: int,
    k: int,
    ch: int,
    slot: int,
)
    requires
        0 < k,
        placed_sets(sets, all, shift, k - 1).len() == 32,
        all[k - 1].len() <= sets[k - 1].mapping.ch_remap.len(),
        forall|i: int|
            0 <= i < all[k - 1].len() ==> (#[trigger] sets[k - 1].mapping.ch_remap[i]) < 32,
        forall|i: int, j: int|
            0 <= i < j < all[k - 1].len() ==> #[trigger] sets[k - 1].mapping.ch_remap[i]
                != #[trigger] sets[k - 1].mapping.ch_remap[j],
        0 <= ch < all[k - 1].len(),
        0 <= slot < 32,
    ensures
        placed_sets(sets, all, shift, k).len() == 32,
        placed_sets(sets, all, shift, k)[sets[k - 1].mapping.ch_remap[ch] as int] == Some(
            upshifted(all[k - 1][ch], shift),
        ),
        (forall|i: int|
            0 <= i < all[k - 1].len() ==> #[trigger] sets[k - 1].mapping.ch_remap[i] != slot)
            ==> placed_sets(sets, all, shift, k)[slot] == placed_sets(sets, all, shift, k - 1)[slot],
        placed_sets(sets, all, shift, 0)[slot] is None,
{
    let out = placed_sets(sets, all, shift, k - 1);
    let remap = sets[k - 1].mapping.ch_remap;
    let n = all[k - 1].len() as int;
    channels_play_from_their_slots(out, remap, all[k - 1], shift, n, remap[ch] as int);
    channels_play_from_their_slots(out, remap, all[k - 1], shift, n, slot);
}

/// The output runs at the rate and resolution of the first set; each slot but
/// the surrounds' is what the sets put there, raised to 24 bits.
pub proof fn outputs_are_of_the_first_set(
    sets: Seq<XllChSetModel>,
    frame: XllFrame,
    msb: Seq<Seq<Seq<i32>>>,
    lsb: Seq<Seq<Seq<i32>>>,
    core: Option<CorePcm>,
    done: Seq<Seq<Seq<i32>>>,
)
    requires
        finished_sets(sets, frame, msb, lsb, core, sets.len() as int) == Ok::<_, XllError>(done),
    ensures
        ({
            let n = sets.len() as int;
            let slots = placed_sets(
                sets,
                all_undone(sets, done, n),
                24 - sets[0].head.pcm_bit_res,
                n,
            );
            &&& frame_output(sets, frame, msb, lsb, core) matches Ok(out)
            &&& out.sample_rate == sets[0].head.freq
            &&& out.pcm_bit_res == sets[0].head.pcm_bit_res
            &&& (out.samples, out.mask) == normalized(slots, mask_of_sets(sets, n))
        }),
        finished_sets(sets, frame, msb, lsb, None, sets.len() as int) is Err ==> frame_output(
            sets,
            frame,
            msb,
            lsb,
            None,
        ) is Err,
{
}

} // verus!
