//! Lossless output: residuals over the core, embedded downmixes undone, one
//! slot per speaker.

use vstd::prelude::*;
use crate::bits::{code_space, has_bit, power_of_two, shift_right, test_bit};
use crate::grammar::rows;
use super::core_output::{
    empty_slots, move_slot, set_slot, slot_moved, slot_views, CoreOutput, CorePcm,
    DCA_SPEAKER_LS, DCA_SPEAKER_LSS, DCA_SPEAKER_RS, DCA_SPEAKER_RSS,
};
use super::fixed::{add32, clip23, clipped, mul16, mul32, rmul15, rounded, scaled, sub32, wrap32};
use super::xll_band::XllBand;
use super::xll_error::XllError;
use super::xll_filter::{
    all_assembled, chs_assemble_msbs_lsbs, chs_filter_band_data, chs_get_lsb_width, even_rows,
    filtered, lsb_shift,
};
use super::xll_frame::{bands_wf, hierarchy_size, set_views, sets_wf};
use super::xll_header::{DownmixRow, XllChSet, XllChSetModel, XllFrame};

verus! {

/// The core speaker a channel builds on: its own, or the surround that the
/// core plays in its place.
pub open spec fn core_speaker(core_mask: u32, spkr: int) -> Option<int> {
    if 0 <= spkr < 32 && has_bit(core_mask, spkr) {
        Some(spkr)
    } else if spkr == 9 && has_bit(core_mask, 3) {
        Some(3int)
    } else if spkr == 10 && has_bit(core_mask, 4) {
        Some(4int)
    } else {
        None
    }
}

pub fn map_core_spkr(core_mask: u32, spkr: usize) -> (r: Option<usize>)
    ensures
        match (r, core_speaker(core_mask, spkr as int)) {
            (Some(a), Some(b)) => a == b && a < 32,
            (None, None) => true,
            _ => false,
        },
{
    if spkr < 32 && test_bit(core_mask, spkr as u32) {
        return Some(spkr);
    }
    if spkr == DCA_SPEAKER_LSS && test_bit(core_mask, 3) {
        return Some(DCA_SPEAKER_LS);
    }
    if spkr == DCA_SPEAKER_RSS && test_bit(core_mask, 4) {
        return Some(DCA_SPEAKER_RS);
    }
    None
}

/// A set whose channels were mixed into the sets before it.
pub open spec fn is_hier_dmix(set: XllChSetModel) -> bool {
    !set.mapping.primary_chset && set.mapping.dmix_embedded && set.mapping.hier_chset
}

pub fn is_hier_dmix_chset(set: &XllChSet) -> (r: bool)
    ensures
        r == is_hier_dmix(set@),
{
    !set.mapping.primary_chset && set.mapping.dmix_embedded && set.mapping.hier_chset
}

/// The first set from `i` on that was mixed into the sets before it.
pub open spec fn first_hier_dmix(sets: Seq<XllChSetModel>, i: int) -> Option<int>
    decreases sets.len() - i,
{
    if i >= sets.len() {
        None
    } else if is_hier_dmix(sets[i]) {
        Some(i)
    } else {
        first_hier_dmix(sets, i + 1)
    }
}

/// The next set that was mixed into set `chs`.
pub open spec fn next_hier_dmix(sets: Seq<XllChSetModel>, chs: int) -> Option<int> {
    if sets[chs].mapping.hier_chset { first_hier_dmix(sets, chs + 1) } else { None }
}

pub fn find_next_hier_dmix_chset(sets: &Vec<XllChSet>, chs: usize) -> (r: Option<usize>)
    requires
        chs < sets@.len(),
    ensures
        match (r, next_hier_dmix(set_views(sets@), chs as int)) {
            (Some(a), Some(b)) => a == b && chs < a < sets@.len() && is_hier_dmix(sets@[b]@),
            (None, None) => true,
            _ => false,
        },
{
    if !sets[chs].mapping.hier_chset {
        return None;
    }
    let count: usize = sets.len();
    let mut i: usize = chs + 1;
    while i < count
        invariant
            count == sets@.len(),
            chs < i <= count,
            sets@[chs as int].mapping.hier_chset,
            first_hier_dmix(set_views(sets@), chs + 1) == first_hier_dmix(set_views(sets@), i as int),
        decreases count - i,
    {
        if is_hier_dmix_chset(&sets[i]) {
            return Some(i);
        }
        i = i + 1;
    }
    None
}

/// A set's own channels lie before those of any later set.
proof fn lemma_hierarchy_grows(sets: Seq<XllChSet>, frame: XllFrame, i: int, j: int)
    requires
        sets_wf(sets, frame),
        0 <= i < j <= sets.len(),
        sets[i].mapping.hier_chset,
    ensures
        hierarchy_size(set_views(sets.take(j))) >= sets[i].hier_ofs + sets[i].head.nchannels,
    decreases j - i,
{
    let a = set_views(sets.take(j));
    let b = set_views(sets.take(j - 1));
    assert(a.drop_last() =~= b);
    assert(a.last() == sets[j - 1]@);
    if j - 1 == i {
        assert(sets[i].hier_ofs == hierarchy_size(b));
    } else {
        lemma_hierarchy_grows(sets, frame, i, j - 1);
    }
}

/// A core sample brought to a channel's resolution, rescaled where a later
/// set's downmix had scaled it.
pub open spec fn core_share(x: int, inverse: Option<int>, shift: int) -> int {
    match inverse {
        Some(inv) => clipped(rounded(scaled(x, inv, 16), shift)),
        None => rounded(x, shift),
    }
}

/// A channel with the core's share added.
pub open spec fn combined(row: Seq<i32>, core: Seq<i32>, inverse: Option<int>, shift: int) -> Seq<i32> {
    Seq::new(
        row.len(),
        |n: int| wrap32(row[n] + core_share(core[n] as int, inverse, shift)) as i32,
    )
}

fn round_down(x: i32, shift: usize) -> (r: i32)
    requires
        shift <= 24,
    ensures
        r == rounded(x as int, shift as int),
{
    if shift == 0 {
        return x;
    }
    let half: i64 = power_of_two((shift - 1) as u32);
    let v: i64 = shift_right(x as i64 + half, shift as u32);
    proof {
        let d = code_space(shift as int);
        assert(-0x8000_0000 <= v <= 0x7fff_ffff) by (nonlinear_arith)
            requires
                v as int == (x + half) / d,
                d >= 2,
                0 < half <= 0x80_0000,
                -0x8000_0000 <= x <= 0x7fff_ffff,
        ;
    }
    v as i32
}

fn combine(row: &mut Vec<i32>, core: &Vec<i32>, inverse: Option<i32>, shift: usize)
    requires
        shift <= 24,
        core@.len() == old(row)@.len(),
    ensures
        final(row)@.len() == old(row)@.len(),
        final(row)@ == combined(
            old(row)@,
            core@,
            match inverse {
                Some(v) => Some(v as int),
                None => None,
            },
            shift as int,
        ),
{
    let ghost inv = match inverse {
        Some(v) => Some(v as int),
        None => None,
    };
    let mut n: usize = 0;
    while n < row.len()
        invariant
            n <= row@.len(),
            row@.len() == old(row)@.len(),
            core@.len() == row@.len(),
            shift <= 24,
            inv == match inverse {
                Some(v) => Some(v as int),
                None => None,
            },
            forall|i: int|
                0 <= i < row@.len() ==> #[trigger] row@[i] == if i < n {
                    combined(old(row)@, core@, inv, shift as int)[i]
                } else {
                    old(row)@[i]
                },
        decreases row.len() - n,
    {
        let share: i32 = match inverse {
            Some(v) => clip23(round_down(mul16(core[n], v), shift)),
            None => round_down(core[n], shift),
        };
        let v: i32 = add32(row[n], share);
        row.set(n, v);
        n = n + 1;
    }
    assert(row@ =~= combined(old(row)@, core@, inv, shift as int));
}

/// Bits by which the core is brought down to a channel.
pub open spec fn core_shift(set: XllChSetModel, frame: XllFrame, ch: int) -> int {
    24 - set.head.pcm_bit_res + lsb_shift(set, frame, ch)
}

/// Channel `ch` of a set combined with the core, if it is coded over it.
pub open spec fn residual_channel(
    set: XllChSetModel,
    frame: XllFrame,
    ch: int,
    row: Seq<i32>,
    core: CorePcm,
    next: Option<XllChSetModel>,
) -> Result<Seq<i32>, XllError> {
    if has_bit(set.head.residual_encode, ch) {
        Ok(row)
    } else {
        match core_speaker(core.ch_mask, set.mapping.ch_remap[ch] as int) {
            None => Err(XllError::Invalid("residual references missing core channel")),
            Some(spkr) => {
                if core_shift(set, frame, ch) > 24 {
                    Err(XllError::Invalid("invalid core shift"))
                } else {
                    match core.slots[spkr] {
                        None => Err(XllError::Invalid("missing core speaker samples")),
                        Some(samples) => Ok(
                            combined(
                                row,
                                samples,
                                match next {
                                    Some(o) => Some(
                                        o.mapping.downmix[set.hier_ofs + ch].scale_inv as int,
                                    ),
                                    None => None,
                                },
                                core_shift(set, frame, ch),
                            ),
                        ),
                    }
                }
            },
        }
    }
}

/// The first `n` channels of a set combined with the core.
pub open spec fn residual_channels(
    set: XllChSetModel,
    frame: XllFrame,
    msb: Seq<Seq<i32>>,
    core: CorePcm,
    next: Option<XllChSetModel>,
    n: int,
) -> Result<Seq<Seq<i32>>, XllError>
    decreases n,
{
    if n <= 0 {
        Ok(Seq::empty())
    } else {
        match residual_channels(set, frame, msb, core, next, n - 1) {
            Err(e) => Err(e),
            Ok(done) => match residual_channel(set, frame, n - 1, msb[n - 1], core, next) {
                Err(e) => Err(e),
                Ok(row) => Ok(done.push(row)),
            },
        }
    }
}

proof fn lemma_residual_err(
    set: XllChSetModel,
    frame: XllFrame,
    msb: Seq<Seq<i32>>,
    core: CorePcm,
    next: Option<XllChSetModel>,
    k: int,
    n: int,
)
    requires
        k <= n,
        residual_channels(set, frame, msb, core, next, k) is Err,
    ensures
        residual_channels(set, frame, msb, core, next, n) == residual_channels(
            set,
            frame,
            msb,
            core,
            next,
            k,
        ),
    decreases n - k,
{
    if k < n {
        lemma_residual_err(set, frame, msb, core, next, k, n - 1);
    }
}

/// A set combined with the core, which must run at the same rate and length.
pub open spec fn residual_set(
    set: XllChSetModel,
    frame: XllFrame,
    msb: Seq<Seq<i32>>,
    core: CorePcm,
    next: Option<XllChSetModel>,
) -> Result<Seq<Seq<i32>>, XllError> {
    if set.head.freq != core.output_rate {
        Err(XllError::Invalid("core/XLL sample rate mismatch"))
    } else if frame.nframesamples != core.npcmsamples {
        Err(XllError::Invalid("core/XLL sample count mismatch"))
    } else {
        residual_channels(set, frame, msb, core, next, set.head.nchannels as int)
    }
}

pub open spec fn set_at(sets: Seq<XllChSetModel>, i: Option<int>) -> Option<XllChSetModel> {
    match i {
        Some(k) => Some(sets[k]),
        None => None,
    }
}

fn combine_channel(
    set: &XllChSet,
    frame: &XllFrame,
    ch: usize,
    row: &mut Vec<i32>,
    core: &CoreOutput,
    next: Option<&XllChSet>,
) -> (r: Result<(), XllError>)
    requires
        frame.wf(),
        set.wf(*frame),
        core.wf(),
        ch < set.head.nchannels,
        old(row)@.len() == core.npcmsamples,
        next matches Some(o) ==> set.hier_ofs + ch < o.mapping.downmix@.len(),
    ensures
        final(row)@.len() == old(row)@.len(),
        match (
            r,
            residual_channel(
                set@,
                *frame,
                ch as int,
                old(row)@,
                core@,
                match next {
                    Some(o) => Some(o@),
                    None => None,
                },
            ),
        ) {
            (Ok(_), Ok(want)) => final(row)@ == want,
            (Err(e), Err(f)) => e == f,
            _ => false,
        },
{
    if test_bit(set.head.residual_encode, ch as u32) {
        return Ok(());
    }
    let Some(spkr) = map_core_spkr(core.ch_mask, set.mapping.ch_remap[ch]) else {
        return Err(XllError::Invalid("residual references missing core channel"));
    };
    let shift: usize = 24 - set.head.pcm_bit_res + chs_get_lsb_width(set, frame, ch);
    if shift > 24 {
        return Err(XllError::Invalid("invalid core shift"));
    }
    let inverse: Option<i32> = match next {
        Some(o) => {
            let count: usize = o.mapping.downmix.len();
            assert(set.hier_ofs + ch < count);
            let row: usize = set.hier_ofs + ch;
            Some(o.mapping.downmix[row].scale_inv)
        },
        None => None,
    };
    assert(core.slots()[spkr as int] matches Some(s) ==> s.len() == core.npcmsamples);
    match &core.samples[spkr] {
        Some(samples) => {
            combine(row, samples, inverse, shift);
            Ok(())
        },
        None => Err(XllError::Invalid("missing core speaker samples")),
    }
}

/// Combine the channels of set `chs` that are coded over the core.
pub fn combine_residual_frame(
    sets: &Vec<XllChSet>,
    frame: &XllFrame,
    chs: usize,
    band: &mut XllBand,
    core: &CoreOutput,
) -> (r: Result<(), XllError>)
    requires
        frame.wf(),
        sets_wf(sets@, *frame),
        chs < sets@.len(),
        core.wf(),
        old(band).wf(sets@[chs as int], *frame, frame.nframesegs as int),
    ensures
        final(band).lsb == old(band).lsb,
        final(band).coding == old(band).coding,
        match (
            r,
            residual_set(
                sets@[chs as int]@,
                *frame,
                rows(old(band).msb@),
                core@,
                set_at(set_views(sets@), next_hier_dmix(set_views(sets@), chs as int)),
            ),
        ) {
            (Ok(_), Ok(want)) => {
                &&& rows(final(band).msb@) == want
                &&& final(band).wf(sets@[chs as int], *frame, frame.nframesegs as int)
            },
            (Err(e), Err(f)) => e == f,
            _ => false,
        },
{
    let set: &XllChSet = &sets[chs];
    assert(set.wf(*frame));
    if set.head.freq != core.output_rate {
        return Err(XllError::Invalid("core/XLL sample rate mismatch"));
    }
    if frame.nframesamples != core.npcmsamples {
        return Err(XllError::Invalid("core/XLL sample count mismatch"));
    }
    let found: Option<usize> = find_next_hier_dmix_chset(sets, chs);
    let next: Option<&XllChSet> = match found {
        Some(o) => Some(&sets[o]),
        None => None,
    };
    let ghost later = set_at(set_views(sets@), next_hier_dmix(set_views(sets@), chs as int));
    let ghost input = rows(band.msb@);
    let ghost len = frame.nframesegs * frame.nsegsamples;
    proof {
        if let Some(o) = found {
            lemma_hierarchy_grows(sets@, *frame, chs as int, o as int);
            assert(sets@[o as int].wf(*frame));
            assert(sets@[o as int].hier_ofs == hierarchy_size(set_views(sets@.take(o as int))));
        }
    }
    let mut ch: usize = 0;
    let ghost mut done: Seq<Seq<i32>> = Seq::empty();
    while ch < set.head.nchannels
        invariant
            ch <= set.head.nchannels,
            frame.wf(),
            set.wf(*frame),
            core.wf(),
            len == frame.nframesegs * frame.nsegsamples,
            len == core.npcmsamples,
            later == match next {
                Some(o) => Some(o@),
                None => None,
            },
            next matches Some(o) ==> set.hier_ofs + set.head.nchannels <= o.mapping.downmix@.len(),
            band.wf(*set, *frame, frame.nframesegs as int),
            old(band).wf(*set, *frame, frame.nframesegs as int),
            band.lsb == old(band).lsb,
            band.coding == old(band).coding,
            input == rows(old(band).msb@),
            done.len() == ch,
            residual_channels(set@, *frame, input, core@, later, ch as int) == Ok::<
                Seq<Seq<i32>>,
                XllError,
            >(done),
            residual_set(set@, *frame, input, core@, later) == residual_channels(
                set@,
                *frame,
                input,
                core@,
                later,
                set.head.nchannels as int,
            ),
            *set == sets@[chs as int],
            later == set_at(set_views(sets@), next_hier_dmix(set_views(sets@), chs as int)),
            forall|k: int|
                0 <= k < band.msb@.len() ==> (#[trigger] band.msb@[k])@ == if k < ch {
                    done[k]
                } else {
                    input[k]
                },
        decreases set.head.nchannels - ch,
    {
        proof {
            if residual_channels(set@, *frame, input, core@, later, ch + 1) is Err {
                lemma_residual_err(
                    set@,
                    *frame,
                    input,
                    core@,
                    later,
                    ch + 1,
                    set.head.nchannels as int,
                );
            }
            assert(band.msb@[ch as int]@ == input[ch as int]);
        }
        combine_channel(set, frame, ch, &mut band.msb[ch], core, next)?;
        proof {
            done = done.push(band.msb@[ch as int]@);
        }
        ch = ch + 1;
    }
    assert(rows(band.msb@) =~= done);
    Ok(())
}

/// The first `k` channels of a set taken out of a channel they were mixed
/// into.
pub open spec fn unmixed(row: Seq<i32>, sources: Seq<Seq<i32>>, coeff: Seq<i32>, k: int) -> Seq<i32>
    decreases k,
{
    if k <= 0 {
        row
    } else {
        let before = unmixed(row, sources, coeff, k - 1);
        Seq::new(
            before.len(),
            |n: int|
                wrap32(before[n] - scaled(sources[k - 1][n] as int, coeff[k - 1] as int, 15)) as i32,
        )
    }
}

fn unmix_one(row: &mut Vec<i32>, source: &Vec<i32>, coeff: i32)
    requires
        source@.len() == old(row)@.len(),
    ensures
        final(row)@ == Seq::new(
            old(row)@.len(),
            |n: int| wrap32(old(row)@[n] - scaled(source@[n] as int, coeff as int, 15)) as i32,
        ),
{
    let mut n: usize = 0;
    while n < row.len()
        invariant
            n <= row@.len(),
            row@.len() == old(row)@.len(),
            source@.len() == row@.len(),
            forall|i: int|
                0 <= i < row@.len() ==> #[trigger] row@[i] == if i < n {
                    wrap32(old(row)@[i] - scaled(source@[i] as int, coeff as int, 15)) as i32
                } else {
                    old(row)@[i]
                },
        decreases row.len() - n,
    {
        let v: i32 = sub32(row[n], rmul15(source[n], coeff));
        row.set(n, v);
        n = n + 1;
    }
    assert(row@ =~= Seq::new(
        old(row)@.len(),
        |n: int| wrap32(old(row)@[n] - scaled(source@[n] as int, coeff as int, 15)) as i32,
    ));
}

fn unmix(row: &mut Vec<i32>, sources: &Vec<Vec<i32>>, coeff: &Vec<i32>)
    requires
        coeff@.len() == sources@.len(),
        even_rows(sources@, old(row)@.len() as int),
    ensures
        final(row)@.len() == old(row)@.len(),
        final(row)@ == unmixed(old(row)@, rows(sources@), coeff@, sources@.len() as int),
{
    let mut k: usize = 0;
    while k < sources.len()
        invariant
            k <= sources@.len(),
            coeff@.len() == sources@.len(),
            row@.len() == old(row)@.len(),
            even_rows(sources@, old(row)@.len() as int),
            row@ == unmixed(old(row)@, rows(sources@), coeff@, k as int),
        decreases sources.len() - k,
    {
        assert(rows(sources@)[k as int] == sources@[k as int]@);
        unmix_one(row, &sources[k], coeff[k]);
        assert(row@ =~= unmixed(old(row)@, rows(sources@), coeff@, k + 1));
        k = k + 1;
    }
}

/// All channels, set by set.
pub open spec fn all_rows(bands: Seq<XllBand>) -> Seq<Seq<Seq<i32>>> {
    Seq::new(bands.len(), |i: int| rows(bands[i].msb@))
}

/// The sets before `o` with the channels of set `o` taken out.
pub open spec fn undone(sets: Seq<XllChSetModel>, all: Seq<Seq<Seq<i32>>>, o: int) -> Seq<Seq<Seq<i32>>> {
    Seq::new(
        all.len(),
        |c: int|
            if c < o {
                Seq::new(
                    all[c].len(),
                    |j: int|
                        unmixed(
                            all[c][j],
                            all[o],
                            sets[o].mapping.downmix[sets[c].hier_ofs + j].coeff,
                            all[o].len() as int,
                        ),
                )
            } else {
                all[c]
            },
    )
}

fn unmix_set(
    band: &mut XllBand,
    hier_ofs: usize,
    sources: &Vec<Vec<i32>>,
    downmix: &Vec<DownmixRow>,
    Ghost(len): Ghost<int>,
)
    requires
        even_rows(old(band).msb@, len),
        even_rows(sources@, len),
        hier_ofs + old(band).msb@.len() <= downmix@.len(),
        forall|i: int|
            0 <= i < downmix@.len() ==> (#[trigger] downmix@[i]).coeff@.len() == sources@.len(),
    ensures
        final(band).lsb == old(band).lsb,
        final(band).coding == old(band).coding,
        final(band).msb@.len() == old(band).msb@.len(),
        even_rows(final(band).msb@, len),
        rows(final(band).msb@) == Seq::new(
            old(band).msb@.len(),
            |j: int|
                unmixed(
                    rows(old(band).msb@)[j],
                    rows(sources@),
                    downmix@[hier_ofs + j].coeff@,
                    sources@.len() as int,
                ),
        ),
{
    let ghost input = rows(band.msb@);
    let count: usize = downmix.len();
    let ghost want = Seq::new(
        band.msb@.len(),
        |j: int|
            unmixed(
                input[j],
                rows(sources@),
                downmix@[hier_ofs + j].coeff@,
                sources@.len() as int,
            ),
    );
    let mut j: usize = 0;
    while j < band.msb.len()
        invariant
            count == downmix@.len(),
            j <= band.msb@.len(),
            band.msb@.len() == old(band).msb@.len(),
            band.lsb == old(band).lsb,
            band.coding == old(band).coding,
            input == rows(old(band).msb@),
            want == Seq::new(
                old(band).msb@.len(),
                |j: int|
                    unmixed(
                        input[j],
                        rows(sources@),
                        downmix@[hier_ofs + j].coeff@,
                        sources@.len() as int,
                    ),
            ),
            hier_ofs + band.msb@.len() <= downmix@.len(),
            even_rows(band.msb@, len),
            even_rows(sources@, len),
            forall|i: int|
                0 <= i < downmix@.len() ==> (#[trigger] downmix@[i]).coeff@.len() == sources@.len(),
            forall|k: int|
                0 <= k < band.msb@.len() ==> (#[trigger] band.msb@[k])@ == if k < j {
                    want[k]
                } else {
                    input[k]
                },
        decreases band.msb.len() - j,
    {
        assert(band.msb@[j as int]@ == input[j as int]);
        assert(downmix@[hier_ofs + j].coeff@.len() == sources@.len());
        unmix(&mut band.msb[j], sources, &downmix[hier_ofs + j].coeff);
        j = j + 1;
    }
    assert(rows(band.msb@) =~= want);
}

/// Take set `o_idx` out of every channel of the sets before it.
pub fn undo_down_mix(sets: &Vec<XllChSet>, frame: &XllFrame, o_idx: usize, bands: &mut Vec<XllBand>)
    requires
        frame.wf(),
        sets_wf(sets@, *frame),
        bands_wf(old(bands)@, sets@, *frame, frame.nframesegs as int, 0),
        o_idx < sets@.len(),
        is_hier_dmix(sets@[o_idx as int]@),
        frame.nchsets == sets@.len(),
    ensures
        bands_wf(final(bands)@, sets@, *frame, frame.nframesegs as int, 0),
        all_rows(final(bands)@) == undone(set_views(sets@), all_rows(old(bands)@), o_idx as int),
{
    let ghost len = frame.nframesegs * frame.nsegsamples;
    let ghost input = all_rows(bands@);
    let ghost want = undone(set_views(sets@), input, o_idx as int);
    assert(sets@[o_idx as int].wf(*frame));
    assert(bands@[o_idx as int].wf(sets@[o_idx as int], *frame, frame.nframesegs as int));
    let mut sources: Vec<Vec<i32>> = Vec::new();
    std::mem::swap(&mut sources, &mut bands[o_idx].msb);
    let ghost held = sources@;
    assert(rows(held) == input[o_idx as int]);
    let mut c: usize = 0;
    while c < o_idx
        invariant
            c <= o_idx < sets@.len(),
            frame.wf(),
            frame.nchsets == sets@.len(),
            sets_wf(sets@, *frame),
            sets@[o_idx as int].wf(*frame),
            is_hier_dmix(sets@[o_idx as int]@),
            len == frame.nframesegs * frame.nsegsamples,
            bands@.len() == sets@.len(),
            old(bands)@.len() == sets@.len(),
            input == all_rows(old(bands)@),
            want == undone(set_views(sets@), input, o_idx as int),
            sources@ == held,
            rows(held) == input[o_idx as int],
            held.len() == sets@[o_idx as int].head.nchannels,
            even_rows(sources@, len),
            bands@[o_idx as int].lsb == old(bands)@[o_idx as int].lsb,
            bands@[o_idx as int].coding == old(bands)@[o_idx as int].coding,
            bands_wf(old(bands)@, sets@, *frame, frame.nframesegs as int, 0),
            forall|i: int|
                0 <= i < bands@.len() && i != o_idx ==> {
                    &&& (#[trigger] bands@[i]).wf(sets@[i], *frame, frame.nframesegs as int)
                    &&& rows(bands@[i].msb@) == if i < c { want[i] } else { input[i] }
                },
        decreases o_idx - c,
    {
        proof {
            lemma_hierarchy_grows(sets@, *frame, c as int, o_idx as int);
            assert(sets@[c as int].wf(*frame));
            assert(bands@[c as int].wf(sets@[c as int], *frame, frame.nframesegs as int));
        }
        let ghost before = bands@[c as int];
        unmix_set(
            &mut bands[c],
            sets[c].hier_ofs,
            &sources,
            &sets[o_idx].mapping.downmix,
            Ghost(len),
        );
        proof {
            assert(rows(bands@[c as int].msb@) =~= want[c as int]);
        }
        c = c + 1;
    }
    std::mem::swap(&mut sources, &mut bands[o_idx].msb);
    proof {
        assert(bands@[o_idx as int].msb@ == held);
        assert(want[o_idx as int] == input[o_idx as int]);
        assert forall|i: int| 0 <= i < bands@.len() implies (#[trigger] bands@[i]).wf(
            sets@[i],
            *frame,
            if i < 0 { frame.nframesegs + 1 } else { frame.nframesegs as int },
        ) && rows(bands@[i].msb@) == want[i] by {
            assert(old(bands)@[o_idx as int].wf(
                sets@[o_idx as int],
                *frame,
                frame.nframesegs as int,
            ));
        }
        assert(all_rows(bands@) =~= want);
    }
}

/// Every channel of a set is coded without the core.
pub open spec fn stands_alone(set: XllChSetModel) -> bool {
    set.head.residual_encode == code_space(set.head.nchannels as int) - 1
}

/// Set `chs` decoded: predictors undone, the core's share and the low bits
/// added.
pub open spec fn finished_set(
    sets: Seq<XllChSetModel>,
    frame: XllFrame,
    chs: int,
    msb: Seq<Seq<i32>>,
    lsb: Seq<Seq<i32>>,
    core: Option<CorePcm>,
) -> Result<Seq<Seq<i32>>, XllError> {
    let set = sets[chs];
    let plain = filtered(set.prediction, set.decorrelation, msb);
    let with_core = if stands_alone(set) {
        Ok(plain)
    } else {
        match core {
            None => Err(XllError::Invalid("residual channels without core")),
            Some(c) => residual_set(set, frame, plain, c, set_at(sets, next_hier_dmix(sets, chs))),
        }
    };
    match with_core {
        Err(e) => Err(e),
        Ok(done) => if frame.scalable_lsbs {
            Ok(all_assembled(set, frame, done, lsb))
        } else {
            Ok(done)
        },
    }
}

fn finish_set(
    sets: &Vec<XllChSet>,
    frame: &XllFrame,
    chs: usize,
    band: &mut XllBand,
    core: Option<&CoreOutput>,
) -> (r: Result<(), XllError>)
    requires
        frame.wf(),
        sets_wf(sets@, *frame),
        chs < sets@.len(),
        core matches Some(c) ==> c.wf(),
        old(band).wf(sets@[chs as int], *frame, frame.nframesegs as int),
    ensures
        match (
            r,
            finished_set(
                set_views(sets@),
                *frame,
                chs as int,
                rows(old(band).msb@),
                rows(old(band).lsb@),
                match core {
                    Some(c) => Some(c@),
                    None => None,
                },
            ),
        ) {
            (Ok(_), Ok(want)) => {
                &&& rows(final(band).msb@) == want
                &&& final(band).wf(sets@[chs as int], *frame, frame.nframesegs as int)
            },
            (Err(e), Err(f)) => e == f,
            _ => false,
        },
{
    let set: &XllChSet = &sets[chs];
    assert(set.wf(*frame));
    chs_filter_band_data(set, frame, band);
    let full: u32 = (power_of_two(set.head.nchannels as u32) - 1) as u32;
    if set.head.residual_encode != full {
        match core {
            Some(c) => {
                combine_residual_frame(sets, frame, chs, band, c)?;
            },
            None => {
                return Err(XllError::Invalid("residual channels without core"));
            },
        }
    }
    if frame.scalable_lsbs {
        chs_assemble_msbs_lsbs(set, frame, band);
    }
    Ok(())
}

/// The low bits of all sets.
pub open spec fn all_lows(bands: Seq<XllBand>) -> Seq<Seq<Seq<i32>>> {
    Seq::new(bands.len(), |i: int| rows(bands[i].lsb@))
}

/// The first `k` sets decoded.
pub open spec fn finished_sets(
    sets: Seq<XllChSetModel>,
    frame: XllFrame,
    msb: Seq<Seq<Seq<i32>>>,
    lsb: Seq<Seq<Seq<i32>>>,
    core: Option<CorePcm>,
    k: int,
) -> Result<Seq<Seq<Seq<i32>>>, XllError>
    decreases k,
{
    if k <= 0 {
        Ok(Seq::empty())
    } else {
        match finished_sets(sets, frame, msb, lsb, core, k - 1) {
            Err(e) => Err(e),
            Ok(done) => match finished_set(sets, frame, k - 1, msb[k - 1], lsb[k - 1], core) {
                Err(e) => Err(e),
                Ok(set) => Ok(done.push(set)),
            },
        }
    }
}

proof fn lemma_finished_err(
    sets: Seq<XllChSetModel>,
    frame: XllFrame,
    msb: Seq<Seq<Seq<i32>>>,
    lsb: Seq<Seq<Seq<i32>>>,
    core: Option<CorePcm>,
    k: int,
    n: int,
)
    requires
        k <= n,
        finished_sets(sets, frame, msb, lsb, core, k) is Err,
    ensures
        finished_sets(sets, frame, msb, lsb, core, n) == finished_sets(
            sets,
            frame,
            msb,
            lsb,
            core,
            k,
        ),
    decreases n - k,
{
    if k < n {
        lemma_finished_err(sets, frame, msb, lsb, core, k, n - 1);
    }
}

fn finish_sets(
    sets: &Vec<XllChSet>,
    frame: &XllFrame,
    bands: &mut Vec<XllBand>,
    core: Option<&CoreOutput>,
) -> (r: Result<(), XllError>)
    requires
        frame.wf(),
        sets_wf(sets@, *frame),
        core matches Some(c) ==> c.wf(),
        bands_wf(old(bands)@, sets@, *frame, frame.nframesegs as int, 0),
    ensures
        match (
            r,
            finished_sets(
                set_views(sets@),
                *frame,
                all_rows(old(bands)@),
                all_lows(old(bands)@),
                match core {
                    Some(c) => Some(c@),
                    None => None,
                },
                sets@.len() as int,
            ),
        ) {
            (Ok(_), Ok(want)) => {
                &&& all_rows(final(bands)@) == want
                &&& bands_wf(final(bands)@, sets@, *frame, frame.nframesegs as int, 0)
            },
            (Err(e), Err(f)) => e == f,
            _ => false,
        },
{
    let ghost base = match core {
        Some(c) => Some(c@),
        None => None,
    };
    let ghost msb = all_rows(bands@);
    let ghost lsb = all_lows(bands@);
    let ghost mut done: Seq<Seq<Seq<i32>>> = Seq::empty();
    let mut chs: usize = 0;
    while chs < sets.len()
        invariant
            chs <= sets@.len(),
            frame.wf(),
            sets_wf(sets@, *frame),
            core matches Some(c) ==> c.wf(),
            base == match core {
                Some(c) => Some(c@),
                None => None,
            },
            old(bands)@.len() == sets@.len(),
            msb == all_rows(old(bands)@),
            lsb == all_lows(old(bands)@),
            bands_wf(bands@, sets@, *frame, frame.nframesegs as int, 0),
            done.len() == chs,
            finished_sets(set_views(sets@), *frame, msb, lsb, base, chs as int) == Ok::<
                Seq<Seq<Seq<i32>>>,
                XllError,
            >(done),
            forall|i: int| chs <= i < bands@.len() ==> #[trigger] bands@[i] == old(bands)@[i],
            forall|i: int| 0 <= i < chs ==> rows((#[trigger] bands@[i]).msb@) == done[i],
        decreases sets.len() - chs,
    {
        let ghost before = bands@;
        proof {
            if finished_sets(set_views(sets@), *frame, msb, lsb, base, chs + 1) is Err {
                lemma_finished_err(set_views(sets@), *frame, msb, lsb, base, chs + 1, sets@.len() as int);
            }
            assert(bands@[chs as int] == old(bands)@[chs as int]);
            assert(bands@[chs as int].wf(sets@[chs as int], *frame, frame.nframesegs as int));
            assert(msb[chs as int] == rows(bands@[chs as int].msb@));
            assert(lsb[chs as int] == rows(bands@[chs as int].lsb@));
        }
        finish_set(sets, frame, chs, &mut bands[chs], core)?;
        proof {
            done = done.push(rows(bands@[chs as int].msb@));
            assert forall|i: int| 0 <= i < bands@.len() implies (#[trigger] bands@[i]).wf(
                sets@[i],
                *frame,
                if i < 0 { frame.nframesegs + 1 } else { frame.nframesegs as int },
            ) by {
                if i != chs {
                    assert(bands@[i] == before[i]);
                }
            }
            assert forall|i: int| 0 <= i < chs + 1 implies rows((#[trigger] bands@[i]).msb@)
                == done[i] by {
                if i != chs {
                    assert(bands@[i] == before[i]);
                }
            }
            assert forall|i: int| chs + 1 <= i < bands@.len() implies #[trigger] bands@[i]
                == old(bands)@[i] by {
                assert(bands@[i] == before[i]);
            }
        }
        chs = chs + 1;
    }
    assert(all_rows(bands@) =~= done);
    Ok(())
}

/// All sets below `o` that were mixed into earlier ones taken out of them,
/// first to last.
pub open spec fn all_undone(sets: Seq<XllChSetModel>, all: Seq<Seq<Seq<i32>>>, o: int) -> Seq<Seq<Seq<i32>>>
    decreases o,
{
    if o <= 1 {
        all
    } else {
        let before = all_undone(sets, all, o - 1);
        if is_hier_dmix(sets[o - 1]) { undone(sets, before, o - 1) } else { before }
    }
}

fn undo_all(sets: &Vec<XllChSet>, frame: &XllFrame, bands: &mut Vec<XllBand>)
    requires
        frame.wf(),
        sets_wf(sets@, *frame),
        frame.nchsets == sets@.len(),
        bands_wf(old(bands)@, sets@, *frame, frame.nframesegs as int, 0),
    ensures
        bands_wf(final(bands)@, sets@, *frame, frame.nframesegs as int, 0),
        all_rows(final(bands)@) == all_undone(set_views(sets@), all_rows(old(bands)@), sets@.len() as int),
{
    let mut o: usize = 1;
    while o < sets.len()
        invariant
            1 <= o,
            sets@.len() > 0 ==> o <= sets@.len(),
            frame.wf(),
            sets_wf(sets@, *frame),
            frame.nchsets == sets@.len(),
            bands_wf(bands@, sets@, *frame, frame.nframesegs as int, 0),
            all_rows(bands@) == all_undone(set_views(sets@), all_rows(old(bands)@), o as int),
        decreases sets.len() - o,
    {
        if is_hier_dmix_chset(&sets[o]) {
            undo_down_mix(sets, frame, o, bands);
        }
        o = o + 1;
    }
}

/// Samples brought up by `shift` bits and held to 24.
pub open spec fn upshifted(row: Seq<i32>, shift: int) -> Seq<i32> {
    Seq::new(row.len(), |n: int| clipped(wrap32(row[n] * code_space(shift))) as i32)
}

pub fn upshift(row: &Vec<i32>, shift: usize) -> (r: Vec<i32>)
    requires
        shift <= 24,
    ensures
        r@ == upshifted(row@, shift as int),
{
    let up: i32 = power_of_two(shift as u32) as i32;
    let mut r: Vec<i32> = Vec::new();
    while r.len() < row.len()
        invariant
            r@.len() <= row@.len(),
            shift <= 24,
            up == code_space(shift as int),
            forall|n: int| 0 <= n < r@.len() ==> #[trigger] r@[n] == upshifted(row@, shift as int)[n],
        decreases row.len() - r.len(),
    {
        let v: i32 = clip23(mul32(row[r.len()], up));
        r.push(v);
    }
    assert(r@ =~= upshifted(row@, shift as int));
    r
}

/// The first `k` channels of a set in their speakers' slots.
pub open spec fn placed_set(
    out: Seq<Option<Seq<i32>>>,
    remap: Seq<usize>,
    msb: Seq<Seq<i32>>,
    shift: int,
    k: int,
) -> Seq<Option<Seq<i32>>>
    decreases k,
{
    if k <= 0 {
        out
    } else {
        placed_set(out, remap, msb, shift, k - 1).update(
            remap[k - 1] as int,
            Some(upshifted(msb[k - 1], shift)),
        )
    }
}

/// The first `k` sets in their speakers' slots.
pub open spec fn placed_sets(
    sets: Seq<XllChSetModel>,
    all: Seq<Seq<Seq<i32>>>,
    shift: int,
    k: int,
) -> Seq<Option<Seq<i32>>>
    decreases k,
{
    if k <= 0 {
        Seq::new(32, |i: int| None)
    } else {
        placed_set(
            placed_sets(sets, all, shift, k - 1),
            sets[k - 1].mapping.ch_remap,
            all[k - 1],
            shift,
            all[k - 1].len() as int,
        )
    }
}

/// Speakers of the first `k` sets.
pub open spec fn mask_of_sets(sets: Seq<XllChSetModel>, k: int) -> u32
    decreases k,
{
    if k <= 0 { 0 } else { mask_of_sets(sets, k - 1) | sets[k - 1].mapping.ch_mask }
}

/// Lossless output by speaker.
#[derive(Clone, Debug)]
pub struct XllOutput {
    pub samples: Vec<Option<Vec<i32>>>,
    pub mask: u32,
    pub sample_rate: u32,
    pub pcm_bit_res: usize,
}

pub ghost struct XllOutputModel {
    pub samples: Seq<Option<Seq<i32>>>,
    pub mask: u32,
    pub sample_rate: u32,
    pub pcm_bit_res: usize,
}

impl View for XllOutput {
    type V = XllOutputModel;

    open spec fn view(&self) -> XllOutputModel {
        XllOutputModel {
            samples: slot_views(self.samples@),
            mask: self.mask,
            sample_rate: self.sample_rate,
            pcm_bit_res: self.pcm_bit_res,
        }
    }
}

/// Slots and mask with the side surrounds in the surround slots.
pub open spec fn normalized(slots: Seq<Option<Seq<i32>>>, mask: u32) -> (Seq<Option<Seq<i32>>>, u32) {
    let left = slot_moved(slots, 9, 3);
    let mask_left = if slots[9] is Some { (mask & !0x200u32) | 8u32 } else { mask };
    let right = slot_moved(left, 10, 4);
    let mask_right = if left[10] is Some { (mask_left & !0x400u32) | 0x10u32 } else { mask_left };
    (right, mask_right)
}

/// The output of a frame, or why there is none.
pub open spec fn frame_output(
    sets: Seq<XllChSetModel>,
    frame: XllFrame,
    msb: Seq<Seq<Seq<i32>>>,
    lsb: Seq<Seq<Seq<i32>>>,
    core: Option<CorePcm>,
) -> Result<XllOutputModel, XllError> {
    match finished_sets(sets, frame, msb, lsb, core, sets.len() as int) {
        Err(e) => Err(e),
        Ok(done) => {
            let all = all_undone(sets, done, sets.len() as int);
            let head = sets[0].head;
            let slots = placed_sets(sets, all, 24 - head.pcm_bit_res, sets.len() as int);
            let (samples, mask) = normalized(slots, mask_of_sets(sets, sets.len() as int));
            Ok(
                XllOutputModel {
                    samples,
                    mask,
                    sample_rate: head.freq,
                    pcm_bit_res: head.pcm_bit_res,
                },
            )
        },
    }
}

fn place_set(out: &mut Vec<Option<Vec<i32>>>, remap: &Vec<usize>, msb: &Vec<Vec<i32>>, shift: usize)
    requires
        old(out)@.len() == 32,
        remap@.len() == msb@.len(),
        forall|i: int| 0 <= i < remap@.len() ==> #[trigger] remap@[i] < 32,
        shift <= 24,
    ensures
        final(out)@.len() == 32,
        slot_views(final(out)@) == placed_set(
            slot_views(old(out)@),
            remap@,
            rows(msb@),
            shift as int,
            msb@.len() as int,
        ),
{
    let mut k: usize = 0;
    while k < msb.len()
        invariant
            k <= msb@.len(),
            out@.len() == 32,
            remap@.len() == msb@.len(),
            forall|i: int| 0 <= i < remap@.len() ==> #[trigger] remap@[i] < 32,
            shift <= 24,
            slot_views(out@) == placed_set(
                slot_views(old(out)@),
                remap@,
                rows(msb@),
                shift as int,
                k as int,
            ),
        decreases msb.len() - k,
    {
        let row: Vec<i32> = upshift(&msb[k], shift);
        assert(rows(msb@)[k as int] == msb@[k as int]@);
        set_slot(out, remap[k], row);
        k = k + 1;
    }
}

fn place_sets(sets: &Vec<XllChSet>, frame: &XllFrame, bands: &Vec<XllBand>, shift: usize) -> (r: (
    Vec<Option<Vec<i32>>>,
    u32,
))
    requires
        frame.wf(),
        sets_wf(sets@, *frame),
        bands_wf(bands@, sets@, *frame, frame.nframesegs as int, 0),
        shift <= 24,
    ensures
        r.0@.len() == 32,
        slot_views(r.0@) == placed_sets(set_views(sets@), all_rows(bands@), shift as int, sets@.len() as int),
        r.1 == mask_of_sets(set_views(sets@), sets@.len() as int),
{
    let mut out: Vec<Option<Vec<i32>>> = empty_slots();
    let mut mask: u32 = 0;
    let mut k: usize = 0;
    while k < sets.len()
        invariant
            k <= sets@.len(),
            frame.wf(),
            sets_wf(sets@, *frame),
            bands_wf(bands@, sets@, *frame, frame.nframesegs as int, 0),
            shift <= 24,
            out@.len() == 32,
            slot_views(out@) == placed_sets(set_views(sets@), all_rows(bands@), shift as int, k as int),
            mask == mask_of_sets(set_views(sets@), k as int),
        decreases sets.len() - k,
    {
        assert(sets@[k as int].wf(*frame));
        assert(bands@[k as int].wf(sets@[k as int], *frame, frame.nframesegs as int));
        assert(all_rows(bands@)[k as int] == rows(bands@[k as int].msb@));
        place_set(&mut out, &sets[k].mapping.ch_remap, &bands[k].msb, shift);
        mask = mask | sets[k].mapping.ch_mask;
        k = k + 1;
    }
    (out, mask)
}

/// From decoded band data to the output of the frame.
pub fn filter_frame(
    sets: &Vec<XllChSet>,
    frame: &XllFrame,
    bands: &mut Vec<XllBand>,
    core: Option<&CoreOutput>,
) -> (r: Result<XllOutput, XllError>)
    requires
        frame.wf(),
        sets_wf(sets@, *frame),
        frame.nchsets == sets@.len(),
        core matches Some(c) ==> c.wf(),
        bands_wf(old(bands)@, sets@, *frame, frame.nframesegs as int, 0),
    ensures
        match (
            r,
            frame_output(
                set_views(sets@),
                *frame,
                all_rows(old(bands)@),
                all_lows(old(bands)@),
                match core {
                    Some(c) => Some(c@),
                    None => None,
                },
            ),
        ) {
            (Ok(v), Ok(want)) => v@ == want && v.samples@.len() == 32,
            (Err(e), Err(f)) => e == f,
            _ => false,
        },
{
    finish_sets(sets, frame, bands, core)?;
    undo_all(sets, frame, bands);
    assert(sets@[0].wf(*frame));
    let pcm_bit_res: usize = sets[0].head.pcm_bit_res;
    let shift: usize = 24 - pcm_bit_res;
    let (mut samples, mut mask): (Vec<Option<Vec<i32>>>, u32) = place_sets(
        sets,
        frame,
        bands,
        shift,
    );
    if move_slot(&mut samples, DCA_SPEAKER_LSS, DCA_SPEAKER_LS) {
        mask = (mask & !0x200u32) | 8u32;
    }
    if move_slot(&mut samples, DCA_SPEAKER_RSS, DCA_SPEAKER_RS) {
        mask = (mask & !0x400u32) | 0x10u32;
    }
    Ok(XllOutput { samples, mask, sample_rate: sets[0].head.freq, pcm_bit_res })
}

} // verus!
