//! What exponents, masks and allocations hold of one another.

use vstd::prelude::*;
use crate::bits::field;
use crate::eac3::allocation::{
    allocated, band_power, decoded, exponent_after, exponent_step, groups_at, groups_for, power,
    segment_at, segment_count, segments_present, spread, DeltaBitAllocationMode,
    DeltaBitAllocationState, Spectrum,
};
use crate::eac3::allocation_tables::{
    allocation_at, log_correction, BAPTAB, HEBAPTAB, LATAB,
};
use crate::eac3::masking::{
    adjusted, adjustment, allocation, band_end, band_first, band_of, bin_address, compensated,
    cutoff, decayed, excitation, first_two, high_bands, log_sum, log_total, low_bands, mask_level,
    onset, raised, silence,
    Curve, DeltaSegment, Leak,
};
use crate::eac3::syncframe::ExpStrategy;

verus! {

/// Bins that share an exponent: one, two or four.
pub open spec fn shared_bins(strategy: ExpStrategy) -> int {
    match strategy {
        ExpStrategy::Reuse => 0,
        ExpStrategy::D15 => 1,
        ExpStrategy::D25 => 2,
        ExpStrategy::D45 => 4,
    }
}

/// The code of three steps of -2 to 2, the first the highest digit.
pub open spec fn group_code(a: int, b: int, c: int) -> int {
    25 * (a + 2) + 5 * (b + 2) + (c + 2)
}

/// `groups` code the steps from each of `list` to the next.
pub open spec fn steps_coded(list: Seq<int>, groups: Seq<int>) -> bool {
    &&& list.len() == 3 * groups.len() + 1
    &&& forall|i: int|
        0 <= i < groups.len() ==> #[trigger] groups[i] == group_code(
            list[3 * i + 1] - list[3 * i],
            list[3 * i + 2] - list[3 * i + 1],
            list[3 * i + 3] - list[3 * i + 2],
        )
    &&& forall|m: int| 0 <= m < list.len() - 1 ==> -2 <= list[m + 1] - #[trigger] list[m] <= 2
}

/// A group gives back the three steps that it was made of, in their order.
pub proof fn groups_hold_three_steps(a: int, b: int, c: int)
    requires
        -2 <= a <= 2,
        -2 <= b <= 2,
        -2 <= c <= 2,
    ensures
        0 <= group_code(a, b, c) < 125,
        exponent_step(group_code(a, b, c), 0) == a,
        exponent_step(group_code(a, b, c), 1) == b,
        exponent_step(group_code(a, b, c), 2) == c,
{
}

/// Exponents coded as steps come back one after the other.
pub proof fn coded_steps_come_back(list: Seq<int>, groups: Seq<int>, n: int)
    requires
        steps_coded(list, groups),
        0 <= n < list.len(),
    ensures
        exponent_after(list[0], groups, n) == list[n],
    decreases n,
{
    if n > 0 {
        coded_steps_come_back(list, groups, n - 1);
        let g = (n - 1) / 3;
        let part = (n - 1) % 3;
        assert(n - 1 == 3 * g + part);
        assert(groups[g] == group_code(
            list[3 * g + 1] - list[3 * g],
            list[3 * g + 2] - list[3 * g + 1],
            list[3 * g + 3] - list[3 * g + 2],
        ));
        assert(-2 <= list[3 * g + 1] - list[3 * g] <= 2);
        assert(-2 <= list[(3 * g + 1) + 1] - list[3 * g + 1] <= 2);
        assert(-2 <= list[(3 * g + 2) + 1] - list[3 * g + 2] <= 2);
        groups_hold_three_steps(
            list[3 * g + 1] - list[3 * g],
            list[3 * g + 2] - list[3 * g + 1],
            list[3 * g + 3] - list[3 * g + 2],
        );
    }
}

/// The groups announced for bins up to `end` reach all of them from bin 1 on,
/// and a group less would not.
pub proof fn announced_groups_cover_the_bins(end: int, strategy: ExpStrategy)
    requires
        1 <= end <= 256,
        end % 3 == 1,
        strategy != ExpStrategy::Reuse,
    ensures
        groups_for(end, strategy) is Ok,
        ({
            let reach = 3 * shared_bins(strategy) * groups_for(end, strategy)->Ok_0;
            end <= 1 + reach < end + 3 * shared_bins(strategy)
        }),
{
    match strategy {
        ExpStrategy::D15 => {
            assert(end - 1 == 3 * ((end - 1) / 3));
        },
        _ => {},
    }
}

/// The announced groups set every bin of `1..end`, each exponent that many bins
/// in a row, with the base at bin 0: a list of exponents coded as steps comes
/// back spread over the bins.
pub proof fn exponents_come_back_spread(
    before: Spectrum,
    strategy: ExpStrategy,
    end: int,
    list: Seq<int>,
    groups: Seq<int>,
    bin: int,
)
    requires
        1 <= end <= 253,
        end % 3 == 1,
        strategy != ExpStrategy::Reuse,
        groups.len() == groups_for(end, strategy)->Ok_0,
        3 * shared_bins(strategy) * groups.len() <= 255,
        steps_coded(list, groups),
        0 <= bin < end,
    ensures
        decoded(before, strategy, 0, 1, end, list[0], groups).1 is Ok,
        bin == 0 ==> decoded(before, strategy, 0, 1, end, list[0], groups).0.exponents[bin]
            == list[0],
        bin > 0 ==> (bin - 1) / shared_bins(strategy) + 1 < list.len(),
        bin > 0 ==> decoded(before, strategy, 0, 1, end, list[0], groups).0.exponents[bin]
            == list[(bin - 1) / shared_bins(strategy) + 1],
{
    announced_groups_cover_the_bins(end, strategy);
    let size = shared_bins(strategy);
    if bin > 0 {
        let k = (bin - 1) / size;
        assert(bin - 1 < 3 * size * groups.len());
        assert(k < 3 * groups.len()) by (nonlinear_arith)
            requires
                k == (bin - 1) / size,
                size > 0,
                0 <= bin - 1 < 3 * size * groups.len(),
        ;
        assert(k >= 0) by (nonlinear_arith)
            requires
                k == (bin - 1) / size,
                size > 0,
                0 <= bin - 1,
        ;
        coded_steps_come_back(list, groups, k + 1);
    }
}

/// Under the coarsest strategy the four bins from `1 + 4 * k` on share one
/// exponent; under the next two; under the finest each has its own.
pub proof fn neighbours_share_an_exponent(
    before: Seq<int>,
    base: int,
    groups: Seq<int>,
    k: int,
    j: int,
)
    requires
        0 <= k < 3 * groups.len(),
        0 <= j,
        12 * groups.len() <= 255,
    ensures
        j < 4 ==> spread(before, 0, 1, 4, base, groups)[1 + 4 * k + j] == exponent_after(
            base,
            groups,
            k + 1,
        ),
        j < 2 ==> spread(before, 0, 1, 2, base, groups)[1 + 2 * k + j] == exponent_after(
            base,
            groups,
            k + 1,
        ),
        j < 1 ==> spread(before, 0, 1, 1, base, groups)[1 + k + j] == exponent_after(
            base,
            groups,
            k + 1,
        ),
{
    if j < 2 {
        assert((1 + 2 * k + j - 1) / 2 + 1 == k + 1);
        let n = groups.len() as int;
        assert(2 * k + j < 6 * n);
        assert(3 * 2 * n == 6 * n);
    }
}

/// An exponent more is 128 less of power, and 24 of them are silence.
pub proof fn exponents_lower_the_power(
    before: Seq<int>,
    exponents: Seq<int>,
    start: int,
    end: int,
    bin: int,
    other: int,
)
    requires
        0 <= start <= bin < end <= 256,
        start <= other < end,
    ensures
        power(before, exponents, start, end)[bin] - power(before, exponents, start, end)[other]
            == 128 * (exponents[other] - exponents[bin]),
        exponents[bin] == 24 ==> power(before, exponents, start, end)[bin] == 0,
{
}

/// Bins outside the range keep their power.
pub proof fn other_bins_keep_their_power(
    before: Seq<int>,
    exponents: Seq<int>,
    start: int,
    end: int,
    bin: int,
)
    requires
        0 <= bin < 256,
        bin < start || end <= bin,
    ensures
        power(before, exponents, start, end)[bin] == before[bin],
{
}

proof fn lemma_correction(i: int)
    requires
        0 <= i < 246,
    ensures
        0 <= log_correction(i) <= 64,
{
    reveal(log_correction);
    assert(forall|k: int| 0 <= k < 246 ==> #[trigger] LATAB@[k] <= 64);
}

/// Levels add up in any order to no less than the higher and at most a doubling
/// more; equal levels are doubled, and far apart the lower does not count.
pub proof fn levels_add_up(a: int, b: int)
    ensures
        log_sum(a, b) == log_sum(b, a),
        a <= log_sum(a, b),
        b <= log_sum(a, b),
        log_sum(a, b) <= a + 64 || log_sum(a, b) <= b + 64,
        log_sum(a, a) == a + 64,
        a >= b + 490 ==> log_sum(a, b) == a,
{
    let apart = if a >= b { a - b } else { b - a };
    lemma_correction(if apart / 2 < 245 { apart / 2 } else { 245 });
    assert(log_correction(0) == 64 && log_correction(245) == 0) by {
        reveal(log_correction);
        assert(LATAB@[0] == 64 && LATAB@[245] == 0);
    }
}

/// What two levels make together falls as they move apart.
pub proof fn corrections_fall(i: int, j: int)
    requires
        0 <= i <= j < 246,
    ensures
        log_correction(j) <= log_correction(i),
    decreases j - i,
{
    reveal(log_correction);
    if i < j {
        corrections_fall(i, j - 1);
        assert(forall|k: int| 0 <= k < 245 ==> #[trigger] LATAB@[k] >= LATAB@[k + 1]);
        assert(LATAB@[j - 1] >= LATAB@[j - 1 + 1]);
    }
}

/// A run of bins together is at least as loud as each of them, and a bin alone
/// is as loud as it is.
pub proof fn runs_are_as_loud_as_their_bins(psd: Seq<int>, lo: int, hi: int, bin: int)
    requires
        lo <= bin < hi,
    ensures
        psd[bin] <= log_total(psd, lo, hi),
        hi == lo + 1 ==> log_total(psd, lo, hi) == psd[lo],
    decreases hi - lo,
{
    if hi > lo + 1 {
        levels_add_up(log_total(psd, lo, hi - 1), psd[hi - 1]);
        if bin < hi - 1 {
            runs_are_as_loud_as_their_bins(psd, lo, hi - 1, bin);
        }
    }
}

/// A band is as loud as its bins of the range together; bands without any keep
/// their level.
pub proof fn bands_hold_their_bins(
    before: Seq<int>,
    psd: Seq<int>,
    start: int,
    end: int,
    bin: int,
    band: int,
)
    requires
        0 <= start <= bin < end <= 253,
        0 <= band < 50,
    ensures
        psd[bin] <= band_power(before, psd, start, end)[band_of(bin)],
        bin < 28 ==> band_power(before, psd, start, end)[bin] == psd[bin],
        band_end(band) <= start || end <= band_first(band) ==> band_power(before, psd, start, end)[band]
            == before[band],
{
    let b = band_of(bin);
    crate::eac3::masking::bands_partition_bins(bin, b);
    crate::eac3::masking::bands_partition_bins(bin, band);
    crate::eac3::masking::bands_partition_bins(start, band);
    crate::eac3::masking::bands_partition_bins(end - 1, band);
    let lo = if band_first(b) > start { band_first(b) } else { start };
    let hi = if band_end(b) < end { band_end(b) } else { end };
    runs_are_as_loud_as_their_bins(psd, lo, hi, bin);
}

/// Bands widen from single bins to runs of 3, 6, 12 and 24 as the spectrum
/// goes up, and follow one another from bin 0 to bin 253.
pub proof fn bands_widen(band: int)
    requires
        0 <= band < 50,
    ensures
        band_first(0) == 0,
        band_end(49) == 253,
        band > 0 ==> band_first(band) == band_end(band - 1),
        ({
            let width = band_end(band) - band_first(band);
            let first = band_first(band);
            &&& first < 28 <==> width == 1
            &&& 28 <= first < 49 <==> width == 3
            &&& 49 <= first < 85 <==> width == 6
            &&& 85 <= first < 133 <==> width == 12
            &&& 133 <= first <==> width == 24
        }),
{
}

/// The louder of what is left of the past and what the band itself gives.
pub proof fn decay_keeps_the_louder(leak: int, decay: int, level: int, gain: int)
    ensures
        decayed(leak, decay, level, gain) >= leak - decay,
        decayed(leak, decay, level, gain) >= level - gain,
        decayed(leak, decay, level, gain) == leak - decay || decayed(leak, decay, level, gain)
            == level - gain,
{
}

/// Compensation is owed to a rise of two exponents below band 20, more of it in
/// the seven lowest; nothing else adds to it, and above it dies down.
pub proof fn compensation_follows_rises(previous: int, current: int, next: int, band: int)
    requires
        0 <= previous,
    ensures
        0 <= compensated(previous, current, next, band),
        compensated(previous, current, next, band) > previous ==> band < 20 && next - current
            == 256,
        band < 7 && next - current == 256 ==> compensated(previous, current, next, band) == 384,
        7 <= band < 20 && next - current == 256 ==> compensated(previous, current, next, band)
            == 320,
        band < 20 && next < current && previous >= 64 ==> previous - compensated(
            previous,
            current,
            next,
            band,
        ) == 64,
        band < 20 && next >= current && next - current != 256 ==> compensated(
            previous,
            current,
            next,
            band,
        ) == previous,
        band >= 20 && previous >= 128 ==> previous - compensated(previous, current, next, band)
            == 128,
        band >= 20 && previous < 128 ==> compensated(previous, current, next, band) == 0,
{
}

/// No level that band `b` is excited to from band `from` on is above `top`: not
/// what the leaks left, nor what any band up to it spreads.
pub open spec fn bounded_excitation(
    psd: Seq<int>,
    c: Curve,
    from: int,
    b: int,
    fast: int,
    slow: int,
    top: int,
) -> bool {
    &&& fast - c.fast_decay * (b - from + 1) <= top
    &&& slow - c.slow_decay * (b - from + 1) <= top
    &&& forall|j: int|
        from <= j <= b ==> #[trigger] psd[j] - c.fast_gain - c.fast_decay * (b - j) <= top
    &&& forall|j: int|
        from <= j <= b ==> #[trigger] psd[j] - c.slow_gain - c.slow_decay * (b - j) <= top
}

/// The excitation of a band above the compensated ones is the loudest of what
/// it and every band below it spread, fast and slow, each fallen by its decay
/// per band: it is below `top` exactly when all of them are.
pub proof fn excitation_is_the_loudest_spread(
    psd: Seq<int>,
    c: Curve,
    start: int,
    end: int,
    fast: int,
    slow: int,
    b: int,
    top: int,
)
    requires
        0 < start <= b < end <= 50,
    ensures
        (excitation(psd, c, start, end, fast, slow)[b] <= top) == bounded_excitation(
            psd,
            c,
            start,
            b,
            fast,
            slow,
            top,
        ),
{
    let s = Leak { fast, slow, low: 0, excite: silence() };
    lemma_loudest(psd, c, start, end, s, b, top);
}

proof fn lemma_kept(psd: Seq<int>, c: Curve, band: int, stop: int, s: Leak)
    requires
        0 <= band,
        stop <= 50,
        s.excite.len() == 50,
    ensures
        high_bands(psd, c, band, stop, s).excite.len() == 50,
        forall|b: int|
            0 <= b < band && b < 50 ==> #[trigger] high_bands(psd, c, band, stop, s).excite[b]
                == s.excite[b],
    decreases stop - band,
{
    if band < stop {
        let fast = decayed(s.fast, c.fast_decay as int, psd[band], c.fast_gain as int);
        let slow = decayed(s.slow, c.slow_decay as int, psd[band], c.slow_gain as int);
        let level = if fast >= slow { fast } else { slow };
        lemma_kept(
            psd,
            c,
            band + 1,
            stop,
            Leak { fast, slow, low: s.low, excite: s.excite.update(band, level) },
        );
    }
}

proof fn lemma_loudest(psd: Seq<int>, c: Curve, band: int, stop: int, s: Leak, b: int, top: int)
    requires
        0 <= band <= b < stop <= 50,
        s.excite.len() == 50,
    ensures
        (high_bands(psd, c, band, stop, s).excite[b] <= top) == bounded_excitation(
            psd,
            c,
            band,
            b,
            s.fast,
            s.slow,
            top,
        ),
    decreases b - band,
{
    let fast = decayed(s.fast, c.fast_decay as int, psd[band], c.fast_gain as int);
    let slow = decayed(s.slow, c.slow_decay as int, psd[band], c.slow_gain as int);
    let level = if fast >= slow { fast } else { slow };
    let next = Leak { fast, slow, low: s.low, excite: s.excite.update(band, level) };
    lemma_kept(psd, c, band + 1, stop, next);
    let f = c.fast_decay as int;
    let g = c.slow_decay as int;
    let w = b - band;
    assert(f * (w + 1) == f * w + f && g * (w + 1) == g * w + g) by (nonlinear_arith);
    assert(b - band + 1 == w + 1);
    if b == band {
        assert(f * 0 == 0 && g * 0 == 0);
        assert(high_bands(psd, c, band, stop, s).excite[b] == level);
        if level <= top {
            assert forall|j: int| band <= j <= b implies #[trigger] psd[j] - c.fast_gain
                - c.fast_decay * (b - j) <= top by {
                assert(c.fast_decay * (b - j) == 0);
            }
            assert forall|j: int| band <= j <= b implies #[trigger] psd[j] - c.slow_gain
                - c.slow_decay * (b - j) <= top by {
                assert(c.slow_decay * (b - j) == 0);
            }
        } else if bounded_excitation(psd, c, band, b, s.fast, s.slow, top) {
            assert(psd[band] - c.fast_gain - c.fast_decay * (b - band) <= top);
            assert(psd[band] - c.slow_gain - c.slow_decay * (b - band) <= top);
            assert(c.fast_decay * (b - band) == 0 && c.slow_decay * (b - band) == 0);
        }
    } else {
        lemma_loudest(psd, c, band + 1, stop, next, b, top);
        assert(b - (band + 1) + 1 == w);
        let whole = bounded_excitation(psd, c, band, b, s.fast, s.slow, top);
        let rest = bounded_excitation(psd, c, band + 1, b, fast, slow, top);
        if whole {
            assert(psd[band] - c.fast_gain - c.fast_decay * (b - band) <= top);
            assert(psd[band] - c.slow_gain - c.slow_decay * (b - band) <= top);
            assert(rest);
        }
        if rest {
            assert(fast - f * w <= top && slow - g * w <= top);
            assert(whole);
        }
    }
}

/// A mask is neither under the hearing threshold nor under the excitation,
/// which a band below the knee lifts by a quarter of what it lacks.
pub proof fn masks_are_heard(psd: int, excite: int, knee: int, quiet: int)
    ensures
        mask_level(psd, excite, knee, quiet) >= quiet,
        mask_level(psd, excite, knee, quiet) >= excite,
        psd >= knee ==> mask_level(psd, excite, knee, quiet) == excite || mask_level(
            psd,
            excite,
            knee,
            quiet,
        ) == quiet,
        psd < knee && mask_level(psd, excite, knee, quiet) > quiet ==> 4 * (mask_level(
            psd,
            excite,
            knee,
            quiet,
        ) - excite) <= knee - psd < 4 * (mask_level(psd, excite, knee, quiet) - excite) + 4,
        psd < knee ==> 4 * (mask_level(psd, excite, knee, quiet) - excite) + 4 > knee - psd,
{
}

/// Segments raise or lower by steps of 128, as far up as down, and never by
/// nothing.
pub proof fn adjustments_are_even(bits: int)
    requires
        0 <= bits < 8,
    ensures
        adjustment(bits) != 0,
        adjustment(bits) + adjustment(7 - bits) == 0,
        bits >= 4 ==> adjustment(bits) > 0,
        bits > 4 || 0 < bits < 4 ==> adjustment(bits) == adjustment(bits - 1) + 128,
        adjustment(4) == 128,
{
}

/// A segment starts its offset above where the one before ended, adjusts as
/// many bands as it is long, and leaves those below as they were.
pub proof fn segments_adjust_their_bands(
    mask: Seq<int>,
    band: int,
    segments: Seq<DeltaSegment>,
    k: int,
    b: int,
)
    requires
        mask.len() == 50,
        0 <= band < 50,
        0 <= k < segments.len(),
        0 <= b < 50,
    ensures
        adjusted(mask, band, segments, k).len() == 50,
        b < band + segments[k].offset ==> adjusted(mask, band, segments, k)[b] == mask[b],
        band + segments[k].offset <= b < band + segments[k].offset + segments[k].length
            ==> adjusted(mask, band, segments, k)[b] - mask[b] == adjustment(
            segments[k].bits as int,
        ),
{
    let from = band + segments[k].offset;
    let to = from + segments[k].length;
    let once = raised(mask, from, to, adjustment(segments[k].bits as int));
    lemma_below(once, to, segments, k + 1);
}

proof fn lemma_below(mask: Seq<int>, band: int, segments: Seq<DeltaSegment>, k: int)
    requires
        mask.len() == 50,
        0 <= band,
        0 <= k,
    ensures
        adjusted(mask, band, segments, k).len() == 50,
        forall|b: int|
            0 <= b < band && b < 50 ==> #[trigger] adjusted(mask, band, segments, k)[b] == mask[b],
    decreases segments.len() - k,
{
    if k < segments.len() && band < 50 {
        let from = band + segments[k].offset;
        let to = from + segments[k].length;
        let once = raised(mask, from, to, adjustment(segments[k].bits as int));
        lemma_below(once, to, segments, k + 1);
    }
}

/// A cutoff is at most 31 below what the mask leaves over the offset, held to
/// the floor; it moves up with the mask and down with the offset by whole
/// steps of 32.
pub proof fn cutoffs_follow_the_mask(mask: int, snr_offset: int, floor: int)
    ensures
        mask - snr_offset <= floor ==> cutoff(mask, snr_offset, floor) == floor,
        floor <= mask - snr_offset < floor + 8192 ==> cutoff(mask, snr_offset, floor) <= mask
            - snr_offset < cutoff(mask, snr_offset, floor) + 32,
        (cutoff(mask, snr_offset, floor) - floor) % 32 == 0,
        floor <= mask - snr_offset < floor + 8160 ==> cutoff(mask + 32, snr_offset, floor)
            == cutoff(mask, snr_offset, floor) + 32,
        cutoff(mask + 32, snr_offset + 32, floor) == cutoff(mask, snr_offset, floor),
{
}

/// Addresses count the steps of 32 by which a bin is above the cutoff, from
/// 0 to 63.
pub proof fn addresses_count_steps(psd: int, level: int)
    ensures
        0 <= bin_address(psd, level) <= 63,
        psd < level ==> bin_address(psd, level) == 0,
        level <= psd < level + 2048 ==> 32 * bin_address(psd, level) <= psd - level < 32
            * bin_address(psd, level) + 32,
        psd >= level + 2048 ==> bin_address(psd, level) == 63,
{
}

/// A higher address never gets fewer bits, under either table.
pub proof fn higher_addresses_get_more(aht: bool, i: int, j: int)
    requires
        0 <= i <= j < 64,
    ensures
        allocation_at(aht, i) <= allocation_at(aht, j),
        allocation_at(aht, 0) == 0,
        allocation_at(false, 63) == 15,
        allocation_at(true, 63) == 19,
    decreases j - i,
{
    reveal(allocation_at);
    assert(forall|k: int| 0 <= k < 63 ==> #[trigger] BAPTAB@[k] <= BAPTAB@[k + 1]);
    assert(forall|k: int| 0 <= k < 63 ==> #[trigger] HEBAPTAB@[k] <= HEBAPTAB@[k + 1]);
    if i < j {
        higher_addresses_get_more(aht, i, j - 1);
        assert(BAPTAB@[j - 1] <= BAPTAB@[j - 1 + 1]);
        assert(HEBAPTAB@[j - 1] <= HEBAPTAB@[j - 1 + 1]);
    }
}

/// Of two bins of a band the louder gets no fewer bits; bins below the range
/// keep theirs and bins above it get none.
pub proof fn louder_bins_get_more(
    before: Seq<u8>,
    psd: Seq<int>,
    mask: Seq<int>,
    start: int,
    end: int,
    snr_offset: int,
    floor: int,
    aht: bool,
    x: int,
    y: int,
)
    requires
        0 <= start <= end <= 256,
        0 <= x < 256,
        0 <= y < 256,
    ensures
        ({
            let out = allocation(before, psd, mask, start, end, snr_offset, floor, aht);
            &&& x < start ==> out[x] == before[x]
            &&& end <= x ==> out[x] == 0
            &&& start <= x < end && start <= y < end && band_of(x) == band_of(y) && psd[x]
                <= psd[y] ==> out[x] <= out[y]
            &&& start <= x < end && floor <= mask[band_of(x)] - snr_offset < floor + 8192
                && psd[x] < mask[band_of(x)] - snr_offset - 31 ==> out[x] == 0
        }),
{
    if start <= x < end {
        let level = cutoff(mask[band_of(x)], snr_offset, floor);
        let a = bin_address(psd[x], level);
        higher_addresses_get_more(aht, 0, a);
        if start <= y < end && band_of(x) == band_of(y) && psd[x] <= psd[y] {
            let b = bin_address(psd[y], level);
            assert(a <= b);
            higher_addresses_get_more(aht, a, b);
        }
    }
}

/// Wherever a set of exponents starts, its groups are spread from their offset
/// on, each exponent over its bins; other bins but the start keep theirs.
pub proof fn exponents_are_spread_from_their_offset(
    before: Spectrum,
    strategy: ExpStrategy,
    start: int,
    offset: int,
    end: int,
    list: Seq<int>,
    groups: Seq<int>,
    bin: int,
)
    requires
        strategy != ExpStrategy::Reuse,
        0 <= start <= offset,
        end <= 256,
        offset + 3 * shared_bins(strategy) * groups.len() <= 256,
        steps_coded(list, groups),
        0 <= bin < 256,
    ensures
        ({
            let size = shared_bins(strategy);
            let out = decoded(before, strategy, start, offset, end, list[0], groups).0.exponents;
            &&& decoded(before, strategy, start, offset, end, list[0], groups).1 is Ok
            &&& offset <= bin < offset + 3 * size * groups.len() ==> (bin - offset) / size + 1
                < list.len() && out[bin] == list[(bin - offset) / size + 1]
            &&& bin == start && start < offset ==> out[bin] == list[0]
            &&& bin != start && !(offset <= bin < offset + 3 * size * groups.len()) ==> out[bin]
                == before.exponents[bin]
        }),
{
    let size = shared_bins(strategy);
    if offset <= bin < offset + 3 * size * groups.len() {
        let k = (bin - offset) / size;
        assert(0 <= k < 3 * groups.len()) by (nonlinear_arith)
            requires
                k == (bin - offset) / size,
                size > 0,
                0 <= bin - offset < 3 * size * groups.len(),
        ;
        coded_steps_come_back(list, groups, k + 1);
    }
}

/// Exponents that are kept change nothing, and those past the last bin are
/// refused.
pub proof fn kept_exponents_change_nothing(
    before: Spectrum,
    strategy: ExpStrategy,
    start: int,
    offset: int,
    end: int,
    base: int,
    groups: Seq<int>,
)
    ensures
        end <= 256 ==> decoded(before, ExpStrategy::Reuse, start, offset, end, base, groups).0
            == before,
        end > 256 ==> decoded(before, strategy, start, offset, end, base, groups).1 is Err
            && decoded(before, strategy, start, offset, end, base, groups).0 == before,
        strategy != ExpStrategy::Reuse && groups.len() > 0 && offset + 3 * shared_bins(strategy)
            * groups.len() > 256 ==> decoded(before, strategy, start, offset, end, base, groups).1
            is Err,
{
}

/// Groups stand one behind the other, in seven bits each.
pub proof fn groups_stand_in_a_row(d: Seq<u8>, p: int, n: int, i: int)
    requires
        0 <= i < n,
    ensures
        groups_at(d, p, n).len() == n,
        groups_at(d, p, n)[i] == field(d, p + 7 * i, 7),
{
}

/// A segment is its offset, its length and its adjustment, and there are from
/// one to eight.
pub proof fn segments_come_back(d: Seq<u8>, lim: int, p: int, offset: int, length: int, bits: int)
    requires
        field(d, p, 5) == offset,
        field(d, p + 5, 4) == length,
        field(d, p + 9, 3) == bits,
    ensures
        segment_at(d, p).offset == offset,
        segment_at(d, p).length == length,
        segment_at(d, p).bits == bits,
        1 <= segment_count(d, p) <= 8,
        segment_count(d, p) == field(d, p, 3) + 1,
        p + 3 + 12 * segment_count(d, p) <= lim <==> segments_present(d, lim, p) == segment_count(
            d,
            p,
        ),
{
    crate::bits::lemma_field_range(d, p, 3);
    crate::bits::lemma_field_range(d, p, 5);
    crate::bits::lemma_field_range(d, p + 5, 4);
    crate::bits::lemma_field_range(d, p + 9, 3);
}

/// The lowest bands end with the first that is not above its neighbour, or with
/// the seventh.
pub proof fn the_onset_ends_with_the_fall(
    psd: Seq<int>,
    c: Curve,
    end: int,
    band: int,
    s: Leak,
    b: int,
)
    requires
        0 <= band <= 7,
        end != 7,
    ensures
        band <= onset(psd, c, end, band, s).1 <= 7,
        band <= b < onset(psd, c, end, band, s).1 - 1 ==> psd[b] > psd[b + 1],
        band < 7 ==> onset(psd, c, end, band, s).1 > band && (psd[onset(psd, c, end, band, s).1 - 1]
            <= psd[onset(psd, c, end, band, s).1] || onset(psd, c, end, band, s).1 == 7),
    decreases 7 - band,
{
    if band < 7 {
        let low = compensated(s.low, psd[band], psd[band + 1], band);
        let fast = psd[band] - c.fast_gain;
        let next = Leak {
            fast,
            slow: psd[band] - c.slow_gain,
            low,
            excite: s.excite.update(band, fast - low),
        };
        if psd[band] > psd[band + 1] {
            the_onset_ends_with_the_fall(psd, c, end, band + 1, next, b);
        }
    }
}

/// A band of the onset starts both leaks from itself, and is excited to the fast
/// one less its compensation.
pub proof fn onset_bands_start_the_leaks(psd: Seq<int>, c: Curve, end: int, band: int, s: Leak)
    requires
        0 <= band < 7,
        end != 7,
        psd[band] <= psd[band + 1],
        s.excite.len() == 50,
    ensures
        ({
            let (next, stop) = onset(psd, c, end, band, s);
            &&& stop == band + 1
            &&& next.fast + c.fast_gain == psd[band]
            &&& next.slow + c.slow_gain == psd[band]
            &&& next.low == compensated(s.low, psd[band], psd[band + 1], band)
            &&& next.excite[band] + next.low == next.fast
            &&& forall|b: int|
                0 <= b < 50 && b != band ==> #[trigger] next.excite[b] == s.excite[b]
        }),
{
}

/// A compensated band is excited to the louder of the slow leak and the fast one
/// less its compensation; each leak is the louder of what is left of it and of
/// what the band gives.
pub proof fn compensated_bands_take_the_louder_leak(
    psd: Seq<int>,
    c: Curve,
    end: int,
    band: int,
    s: Leak,
)
    requires
        0 <= band < 50,
        end != 7,
        s.excite.len() == 50,
    ensures
        ({
            let next = low_bands(psd, c, end, band, band + 1, s);
            &&& next.fast >= s.fast - c.fast_decay && next.fast >= psd[band] - c.fast_gain
            &&& next.fast == s.fast - c.fast_decay || next.fast == psd[band] - c.fast_gain
            &&& next.slow >= s.slow - c.slow_decay && next.slow >= psd[band] - c.slow_gain
            &&& next.slow == s.slow - c.slow_decay || next.slow == psd[band] - c.slow_gain
            &&& next.low == compensated(s.low, psd[band], psd[band + 1], band)
            &&& next.excite[band] >= next.slow && next.excite[band] >= next.fast - next.low
            &&& next.excite[band] == next.slow || next.excite[band] == next.fast - next.low
            &&& forall|b: int|
                0 <= b < 50 && b != band ==> #[trigger] next.excite[b] == s.excite[b]
        }),
{
    reveal_with_fuel(low_bands, 2);
}

/// Compensated bands follow one another, each from what the one before left.
pub proof fn compensated_bands_follow_one_another(
    psd: Seq<int>,
    c: Curve,
    end: int,
    band: int,
    mid: int,
    stop: int,
    s: Leak,
)
    requires
        band <= mid <= stop,
    ensures
        low_bands(psd, c, end, band, stop, s) == low_bands(
            psd,
            c,
            end,
            mid,
            stop,
            low_bands(psd, c, end, band, mid, s),
        ),
    decreases mid - band,
{
    if band < mid {
        let low = if end != 7 || band != 6 {
            compensated(s.low, psd[band], psd[band + 1], band)
        } else {
            s.low
        };
        let fast = decayed(s.fast, c.fast_decay as int, psd[band], c.fast_gain as int);
        let slow = decayed(s.slow, c.slow_decay as int, psd[band], c.slow_gain as int);
        let level = if fast - low >= slow { fast - low } else { slow };
        let next = Leak { fast, slow, low, excite: s.excite.update(band, level) };
        compensated_bands_follow_one_another(psd, c, end, band + 1, mid, stop, next);
    }
}

/// The two lowest bands are excited to themselves, less the fast gain and their
/// compensation, and leave the leaks as they came.
pub proof fn the_lowest_bands_excite_themselves(psd: Seq<int>, c: Curve, fast: int, slow: int)
    ensures
        ({
            let s = first_two(psd, c, fast, slow);
            let low = compensated(0, psd[0], psd[1], 0);
            &&& s.fast == fast
            &&& s.slow == slow
            &&& s.low == compensated(low, psd[1], psd[2], 1)
            &&& s.excite.len() == 50
            &&& psd[0] - s.excite[0] == c.fast_gain + low
            &&& psd[1] - s.excite[1] == c.fast_gain + s.low
        }),
{
}

/// A muted channel and an empty range get no bits; without segments the mask is
/// not adjusted.
pub proof fn muted_channels_get_no_bits(
    before: Seq<u8>,
    s: Spectrum,
    start: int,
    end: int,
    c: Curve,
    rate: int,
    delta: DeltaBitAllocationState,
    snr_offset: int,
    fast: int,
    slow: int,
    aht: bool,
    bin: int,
)
    requires
        0 <= bin < 256,
    ensures
        delta.mode == DeltaBitAllocationMode::MuteOutput || start >= end ==> allocated(
            before,
            s,
            start,
            end,
            c,
            rate,
            delta,
            snr_offset,
            fast,
            slow,
            aht,
        )[bin] == 0,
        0 <= end <= bin ==> allocated(
            before,
            s,
            start,
            end,
            c,
            rate,
            delta,
            snr_offset,
            fast,
            slow,
            aht,
        )[bin] == 0,
{
}

} // verus!
