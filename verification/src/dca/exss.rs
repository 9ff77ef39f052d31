//! Extension substream (EXSS) parser: locates the components of the audio
//! asset, in particular the lossless (XLL) bytes.

use vstd::prelude::*;
use crate::bits::{code_space, count_ones, field, flag, has_bit, ones, test_bit, BitReader};
use crate::grammar::{lemma_repeat_err, parsed, parsed_view, repeat};
use super::alternate::{
    DCA_SYNCWORD_XLL_X_ALT_D0, DCA_SYNCWORD_XLL_X_ALT_D1, DCA_SYNCWORD_XLL_X_ALT_D3,
};
use super::xll_x::DCA_SYNCWORD_XLL_X;

verus! {

pub const DCA_EXSS_LBR: u32 = 0x100;
pub const DCA_EXSS_XLL: u32 = 0x200;

/// Sample rates of the extension substream.
pub const SAMPLING_FREQS: [u32; 16] = [
    8000, 16000, 32000, 64000, 128000, 22050, 44100, 88200, 176400, 352800, 12000, 24000, 48000,
    96000, 192000, 384000,
];

#[derive(Debug, Clone, Copy, PartialEq, Eq)]
pub enum ExssError {
    /// The data ends inside a field.
    Bitstream,
    /// The named check failed.
    Invalid(&'static str),
    /// The named form is not decoded.
    Unsupported(&'static str),
}

/// The sample rate of a rate code.
pub fn sampling_freq(idx: usize) -> (r: u32)
    requires
        idx < 16,
    ensures
        r == SAMPLING_FREQS@[idx as int],
{
    SAMPLING_FREQS[idx]
}

/// A field runs past the end.
pub open spec fn short<T>() -> Result<(T, int), ExssError> {
    Err(ExssError::Bitstream)
}

fn rb(gb: &mut BitReader<'_>, n: usize) -> (r: Result<u32, ExssError>)
    requires
        old(gb).wf(),
        1 <= n <= 32,
    ensures
        final(gb).wf(),
        final(gb).same_source(old(gb)),
        old(gb).pos() <= final(gb).pos(),
        match r {
            Ok(v) => {
                &&& old(gb).has(n as int)
                &&& v as int == field(old(gb).data(), old(gb).pos(), n as int)
                &&& (v as int) < code_space(n as int)
                &&& final(gb).pos() == old(gb).pos() + n
            },
            Err(e) => !old(gb).has(n as int) && e == ExssError::Bitstream,
        },
{
    match gb.read_bits(n) {
        Some(v) => Ok(v),
        None => Err(ExssError::Bitstream),
    }
}

fn rb1(gb: &mut BitReader<'_>) -> (r: Result<bool, ExssError>)
    requires
        old(gb).wf(),
    ensures
        final(gb).wf(),
        final(gb).same_source(old(gb)),
        old(gb).pos() <= final(gb).pos(),
        match r {
            Ok(v) => {
                &&& old(gb).has(1)
                &&& v == flag(old(gb).data(), old(gb).pos())
                &&& final(gb).pos() == old(gb).pos() + 1
            },
            Err(e) => !old(gb).has(1) && e == ExssError::Bitstream,
        },
{
    match gb.read_bit() {
        Some(v) => Ok(v),
        None => Err(ExssError::Bitstream),
    }
}

fn skip(gb: &mut BitReader<'_>, n: usize) -> (r: Result<(), ExssError>)
    requires
        old(gb).wf(),
    ensures
        final(gb).wf(),
        final(gb).same_source(old(gb)),
        old(gb).pos() <= final(gb).pos(),
        match r {
            Ok(_) => old(gb).has(n as int) && final(gb).pos() == old(gb).pos() + n,
            Err(e) => !old(gb).has(n as int) && e == ExssError::Bitstream,
        },
{
    match gb.skip_bits_long(n) {
        Some(v) => Ok(v),
        None => Err(ExssError::Bitstream),
    }
}

/// Channels of a speaker mask: some bits stand for a pair.
pub open spec fn channels_for_mask(mask: u32) -> int {
    ones((mask & 0xffff) | ((mask & 0xae66) << 16))
}

fn count_chs_for_mask(mask: u32) -> (r: u32)
    ensures
        r == channels_for_mask(mask),
        r <= 32,
{
    count_ones((mask & 0xffff) | ((mask & 0xae66) << 16)) as u32
}

/// A flag that announces `n` bits to skip.
pub open spec fn optional(d: Seq<u8>, lim: int, p: int, n: int) -> Result<((), int), ExssError> {
    if p + 1 > lim {
        short()
    } else if !flag(d, p) {
        Ok(((), p + 1))
    } else if p + 1 + n > lim {
        short()
    } else {
        Ok(((), p + 1 + n))
    }
}

fn skip_optional(gb: &mut BitReader<'_>, n: usize) -> (r: Result<(), ExssError>)
    requires
        old(gb).wf(),
    ensures
        final(gb).wf(),
        final(gb).same_source(old(gb)),
        old(gb).pos() <= final(gb).pos(),
        parsed(
            r,
            optional(old(gb).data(), old(gb).limit(), old(gb).pos(), n as int),
            final(gb).pos(),
        ),
{
    if rb1(gb)? {
        skip(gb, n)?;
    }
    Ok(())
}

pub open spec fn mix_config_step(d: Seq<u8>, lim: int, nbits: int) -> spec_fn(int, int) -> Result<
    (u32, int),
    ExssError,
> {
    |i: int, q: int|
        if q + nbits > lim {
            short()
        } else {
            Ok((channels_for_mask(field(d, q, nbits) as u32) as u32, q + nbits))
        }
}

fn read_mask_counts(gb: &mut BitReader<'_>, nbits: usize, n: usize) -> (r: Result<
    Vec<u32>,
    ExssError,
>)
    requires
        old(gb).wf(),
        1 <= nbits <= 32,
    ensures
        final(gb).wf(),
        final(gb).same_source(old(gb)),
        old(gb).pos() <= final(gb).pos(),
        parsed_view(
            r,
            repeat(
                mix_config_step(old(gb).data(), old(gb).limit(), nbits as int),
                old(gb).pos(),
                n as int,
            ),
            final(gb).pos(),
        ),
        r matches Ok(v) ==> v@.len() == n && forall|i: int|
            0 <= i < v@.len() ==> #[trigger] v@[i] <= 32,
{
    let ghost step = mix_config_step(gb.data(), gb.limit(), nbits as int);
    let ghost p = gb.pos();
    let mut out: Vec<u32> = Vec::new();
    let mut i: usize = 0;
    while i < n
        invariant
            i <= n,
            1 <= nbits <= 32,
            gb.wf(),
            gb.same_source(old(gb)),
            old(gb).pos() <= gb.pos(),
            p == old(gb).pos(),
            step == mix_config_step(gb.data(), gb.limit(), nbits as int),
            out@.len() == i,
            forall|k: int| 0 <= k < i ==> #[trigger] out@[k] <= 32,
            repeat(step, p, i as int) == Ok::<(Seq<u32>, int), ExssError>((out@, gb.pos())),
        decreases n - i,
    {
        match rb(gb, nbits) {
            Ok(v) => out.push(count_chs_for_mask(v)),
            Err(e) => {
                proof {
                    lemma_repeat_err(step, p, i + 1, n as int);
                }
                return Err(e);
            },
        }
        i = i + 1;
    }
    Ok(out)
}

/// Channels of every mix output configuration; empty without mix metadata.
pub open spec fn mix_configs(d: Seq<u8>, lim: int, p: int) -> Result<((bool, Seq<u32>), int), ExssError> {
    if p + 1 > lim {
        short()
    } else if !flag(d, p) {
        Ok(((false, Seq::empty()), p + 1))
    } else if p + 7 > lim {
        short()
    } else {
        match repeat(
            mix_config_step(d, lim, 4 * (field(d, p + 3, 2) + 1)),
            p + 7,
            field(d, p + 5, 2) + 1,
        ) {
            Err(e) => Err(e),
            Ok((configs, q)) => Ok(((true, configs), q)),
        }
    }
}

/// Substream-wide fields.
pub struct StaticFields {
    pub frame_duration_samples: usize,
    pub mix_metadata_enabled: bool,
    pub mix_channels: Vec<u32>,
}

/// [`StaticFields`] over sequences.
pub struct StaticModel {
    pub frame_duration_samples: usize,
    pub mix_metadata_enabled: bool,
    pub mix_channels: Seq<u32>,
}

impl View for StaticFields {
    type V = StaticModel;

    open spec fn view(&self) -> StaticModel {
        StaticModel {
            frame_duration_samples: self.frame_duration_samples,
            mix_metadata_enabled: self.mix_metadata_enabled,
            mix_channels: self.mix_channels@,
        }
    }
}

/// No static fields.
pub open spec fn no_static() -> StaticModel {
    StaticModel {
        frame_duration_samples: 0,
        mix_metadata_enabled: false,
        mix_channels: Seq::empty(),
    }
}

/// The presentation and asset counts, both of which must be one, and the
/// active substream mask.
pub open spec fn presentation(d: Seq<u8>, lim: int, p: int, index: int) -> Result<((), int), ExssError> {
    if p + 3 > lim {
        short()
    } else if field(d, p, 3) > 0 {
        Err(ExssError::Unsupported("multiple audio presentations"))
    } else if p + 6 > lim {
        short()
    } else if field(d, p + 3, 3) > 0 {
        Err(ExssError::Unsupported("multiple audio assets"))
    } else if p + 6 + (index + 1) > lim {
        short()
    } else {
        let q = p + 6 + (index + 1);
        let n = 8 * ones(field(d, p + 6, index + 1) as u32);
        if q + n > lim {
            short()
        } else {
            Ok(((), q + n))
        }
    }
}

fn parse_presentation(gb: &mut BitReader<'_>, index: usize) -> (r: Result<(), ExssError>)
    requires
        old(gb).wf(),
        index < 4,
    ensures
        final(gb).wf(),
        final(gb).same_source(old(gb)),
        old(gb).pos() <= final(gb).pos(),
        parsed(
            r,
            presentation(old(gb).data(), old(gb).limit(), old(gb).pos(), index as int),
            final(gb).pos(),
        ),
{
    if rb(gb, 3)? > 0 {
        return Err(ExssError::Unsupported("multiple audio presentations"));
    }
    if rb(gb, 3)? > 0 {
        return Err(ExssError::Unsupported("multiple audio assets"));
    }
    let mask: u32 = rb(gb, index + 1)?;
    skip(gb, count_ones(mask) * 8)?;
    Ok(())
}

/// The static fields, if present.
pub open spec fn static_fields(d: Seq<u8>, lim: int, p: int, index: int) -> Result<
    (StaticModel, int),
    ExssError,
> {
    if p + 5 > lim {
        short()
    } else {
        match optional(d, lim, p + 5, 36) {
            Err(e) => Err(e),
            Ok((_, p1)) => match presentation(d, lim, p1, index) {
                Err(e) => Err(e),
                Ok((_, p2)) => match mix_configs(d, lim, p2) {
                    Err(e) => Err(e),
                    Ok((mix, p3)) => Ok(
                        (
                            StaticModel {
                                frame_duration_samples: (512 * (field(d, p + 2, 3) + 1)) as usize,
                                mix_metadata_enabled: mix.0,
                                mix_channels: mix.1,
                            },
                            p3,
                        ),
                    ),
                },
            },
        }
    }
}

fn parse_static_fields(gb: &mut BitReader<'_>, index: usize) -> (r: Result<StaticFields, ExssError>)
    requires
        old(gb).wf(),
        index < 4,
    ensures
        final(gb).wf(),
        final(gb).same_source(old(gb)),
        old(gb).pos() <= final(gb).pos(),
        parsed_view(
            r,
            static_fields(old(gb).data(), old(gb).limit(), old(gb).pos(), index as int),
            final(gb).pos(),
        ),
        r matches Ok(v) ==> static_wf(v@),
{
    skip(gb, 2)?;
    let frame_duration_samples: usize = 512 * (rb(gb, 3)? as usize + 1);
    skip_optional(gb, 36)?;
    parse_presentation(gb, index)?;
    let mix_metadata_enabled: bool = rb1(gb)?;
    let mut mix_channels: Vec<u32> = Vec::new();
    if mix_metadata_enabled {
        skip(gb, 2)?;
        let nbits: usize = 4 * (rb(gb, 2)? as usize + 1);
        let configs: usize = rb(gb, 2)? as usize + 1;
        mix_channels = read_mask_counts(gb, nbits, configs)?;
    }
    Ok(StaticFields { frame_duration_samples, mix_metadata_enabled, mix_channels })
}

/// Bounds on the static fields.
pub open spec fn static_wf(v: StaticModel) -> bool {
    &&& v.frame_duration_samples <= 4096
    &&& v.mix_channels.len() <= 4
    &&& forall|i: int| 0 <= i < v.mix_channels.len() ==> #[trigger] v.mix_channels[i] <= 32
}

/// What the asset's own static part says.
#[derive(Clone, Copy, Debug, PartialEq, Eq, Structural)]
pub struct AssetLayout {
    pub pcm_bit_res: u32,
    pub max_sample_rate: u32,
    pub nchannels_total: u32,
    pub one_to_one_map_ch_to_spkr: bool,
    pub embedded_stereo: bool,
    pub embedded_6ch: bool,
    pub spkr_mask_enabled: bool,
    pub spkr_mask: u32,
    pub representation_type: u32,
}

/// A layout that says nothing.
pub open spec fn blank_layout() -> AssetLayout {
    AssetLayout {
        pcm_bit_res: 0,
        max_sample_rate: 0,
        nchannels_total: 0,
        one_to_one_map_ch_to_spkr: false,
        embedded_stereo: false,
        embedded_6ch: false,
        spkr_mask_enabled: false,
        spkr_mask: 0,
        representation_type: 0,
    }
}

/// A flag that is only there under a condition.
pub open spec fn flag_if(d: Seq<u8>, lim: int, p: int, present: bool) -> Result<
    (bool, int),
    ExssError,
> {
    if !present {
        Ok((false, p))
    } else if p + 1 > lim {
        short()
    } else {
        Ok((flag(d, p), p + 1))
    }
}

fn rb1_if(gb: &mut BitReader<'_>, present: bool) -> (r: Result<bool, ExssError>)
    requires
        old(gb).wf(),
    ensures
        final(gb).wf(),
        final(gb).same_source(old(gb)),
        old(gb).pos() <= final(gb).pos(),
        parsed(
            r,
            flag_if(old(gb).data(), old(gb).limit(), old(gb).pos(), present),
            final(gb).pos(),
        ),
{
    if present { rb1(gb) } else { Ok(false) }
}

/// One entry of a remap set: a channel mask and five bits per channel in it.
pub open spec fn masked_skip_step(d: Seq<u8>, lim: int, width: int, unit: int) -> spec_fn(
    int,
    int,
) -> Result<((), int), ExssError> {
    |i: int, q: int|
        if q + width > lim {
            short()
        } else if q + width + unit * ones(field(d, q, width) as u32) > lim {
            short()
        } else {
            Ok(((), q + width + unit * ones(field(d, q, width) as u32)))
        }
}

/// `n` masks of `width` bits, each followed by `unit` bits per set bit.
pub open spec fn masked_skips(d: Seq<u8>, lim: int, p: int, width: int, unit: int, n: int) -> Result<
    (Seq<()>, int),
    ExssError,
> {
    repeat(masked_skip_step(d, lim, width, unit), p, n)
}

fn skip_masked(gb: &mut BitReader<'_>, width: usize, unit: usize, n: usize) -> (r: Result<
    (),
    ExssError,
>)
    requires
        old(gb).wf(),
        1 <= width <= 32,
        unit <= 8,
    ensures
        final(gb).wf(),
        final(gb).same_source(old(gb)),
        old(gb).pos() <= final(gb).pos(),
        match r {
            Ok(_) => masked_skips(
                old(gb).data(),
                old(gb).limit(),
                old(gb).pos(),
                width as int,
                unit as int,
                n as int,
            ) matches Ok((items, q)) && q == final(gb).pos(),
            Err(e) => masked_skips(
                old(gb).data(),
                old(gb).limit(),
                old(gb).pos(),
                width as int,
                unit as int,
                n as int,
            ) == Err::<(Seq<()>, int), ExssError>(e),
        },
{
    let ghost step = masked_skip_step(gb.data(), gb.limit(), width as int, unit as int);
    let ghost p = gb.pos();
    let ghost mut items: Seq<()> = Seq::empty();
    let mut i: usize = 0;
    while i < n
        invariant
            i <= n,
            1 <= width <= 32,
            unit <= 8,
            gb.wf(),
            gb.same_source(old(gb)),
            old(gb).pos() <= gb.pos(),
            p == old(gb).pos(),
            step == masked_skip_step(gb.data(), gb.limit(), width as int, unit as int),
            repeat(step, p, i as int) == Ok::<(Seq<()>, int), ExssError>((items, gb.pos())),
        decreases n - i,
    {
        let mask: u32 = match rb(gb, width) {
            Ok(v) => v,
            Err(e) => {
                proof {
                    lemma_repeat_err(step, p, i + 1, n as int);
                }
                return Err(e);
            },
        };
        let ones_in_mask: usize = count_ones(mask);
        assert(unit * ones_in_mask <= 8 * 32) by (nonlinear_arith)
            requires
                unit <= 8,
                ones_in_mask <= 32,
        ;
        match skip(gb, unit * ones_in_mask) {
            Ok(_) => {
                proof {
                    items = items.push(());
                }
            },
            Err(e) => {
                proof {
                    lemma_repeat_err(step, p, i + 1, n as int);
                }
                return Err(e);
            },
        }
        i = i + 1;
    }
    Ok(())
}

/// The remap sets: for every set, one mask per speaker.
pub open spec fn remap_step(d: Seq<u8>, lim: int, speakers: Seq<u32>) -> spec_fn(int, int) -> Result<
    ((), int),
    ExssError,
> {
    |i: int, q: int|
        if q + 5 > lim {
            short()
        } else {
            match masked_skips(d, lim, q + 5, field(d, q, 5) + 1, 5, speakers[i] as int) {
                Err(e) => Err(e),
                Ok((_, r)) => Ok(((), r)),
            }
        }
}

/// All remap sets over a speaker mask of `nbits` bits.
pub open spec fn remap_sets(d: Seq<u8>, lim: int, p: int, nbits: int) -> Result<((), int), ExssError> {
    if p + 3 > lim {
        short()
    } else {
        let sets = field(d, p, 3);
        if sets == 0 {
            Ok(((), p + 3))
        } else if nbits == 0 {
            Err(ExssError::Invalid("remap sets without speaker mask"))
        } else {
            match repeat(mix_config_step(d, lim, nbits), p + 3, sets) {
                Err(e) => Err(e),
                Ok((speakers, q)) => match repeat(remap_step(d, lim, speakers), q, sets) {
                    Err(e) => Err(e),
                    Ok((_, r)) => Ok(((), r)),
                },
            }
        }
    }
}

fn skip_remap_sets(gb: &mut BitReader<'_>, nbits: usize) -> (r: Result<(), ExssError>)
    requires
        old(gb).wf(),
        nbits <= 16,
    ensures
        final(gb).wf(),
        final(gb).same_source(old(gb)),
        old(gb).pos() <= final(gb).pos(),
        parsed(
            r,
            remap_sets(old(gb).data(), old(gb).limit(), old(gb).pos(), nbits as int),
            final(gb).pos(),
        ),
{
    let sets: usize = rb(gb, 3)? as usize;
    if sets == 0 {
        return Ok(());
    }
    if nbits == 0 {
        return Err(ExssError::Invalid("remap sets without speaker mask"));
    }
    let speakers: Vec<u32> = read_mask_counts(gb, nbits, sets)?;
    let ghost step = remap_step(gb.data(), gb.limit(), speakers@);
    let ghost p = gb.pos();
    let ghost mut items: Seq<()> = Seq::empty();
    let mut i: usize = 0;
    while i < sets
        invariant
            i <= sets,
            sets == speakers@.len(),
            gb.wf(),
            gb.same_source(old(gb)),
            old(gb).pos() <= gb.pos(),
            step == remap_step(gb.data(), gb.limit(), speakers@),
            remap_sets(old(gb).data(), old(gb).limit(), old(gb).pos(), nbits as int) == match repeat(
                step,
                p,
                sets as int,
            ) {
                Err(e) => Err::<((), int), ExssError>(e),
                Ok((_, r)) => Ok(((), r)),
            },
            repeat(step, p, i as int) == Ok::<(Seq<()>, int), ExssError>((items, gb.pos())),
        decreases sets - i,
    {
        let width: usize = match rb(gb, 5) {
            Ok(v) => v as usize + 1,
            Err(e) => {
                proof {
                    lemma_repeat_err(step, p, i + 1, sets as int);
                }
                return Err(e);
            },
        };
        match skip_masked(gb, width, 5, speakers[i] as usize) {
            Ok(_) => {
                proof {
                    items = items.push(());
                }
            },
            Err(e) => {
                proof {
                    lemma_repeat_err(step, p, i + 1, sets as int);
                }
                return Err(e);
            },
        }
        i = i + 1;
    }
    Ok(())
}

/// The speaker mask field: width in nibbles, then the mask.
pub open spec fn speaker_mask(d: Seq<u8>, lim: int, p: int, present: bool) -> Result<
    ((int, u32), int),
    ExssError,
> {
    if !present {
        Ok(((0, 0), p))
    } else if p + 2 > lim {
        short()
    } else {
        let nbits = 4 * (field(d, p, 2) + 1);
        if p + 2 + nbits > lim {
            short()
        } else {
            Ok(((nbits, field(d, p + 2, nbits) as u32), p + 2 + nbits))
        }
    }
}

fn read_speaker_mask(gb: &mut BitReader<'_>, present: bool) -> (r: Result<(usize, u32), ExssError>)
    requires
        old(gb).wf(),
    ensures
        final(gb).wf(),
        final(gb).same_source(old(gb)),
        old(gb).pos() <= final(gb).pos(),
        match r {
            Ok((nbits, mask)) => speaker_mask(
                old(gb).data(),
                old(gb).limit(),
                old(gb).pos(),
                present,
            ) == Ok::<((int, u32), int), ExssError>(((nbits as int, mask), final(gb).pos())) && nbits
                <= 16,
            Err(e) => speaker_mask(old(gb).data(), old(gb).limit(), old(gb).pos(), present)
                == Err::<((int, u32), int), ExssError>(e),
        },
{
    if !present {
        return Ok((0, 0));
    }
    let nbits: usize = 4 * (rb(gb, 2)? as usize + 1);
    let mask: u32 = rb(gb, nbits)?;
    Ok((nbits, mask))
}

/// Three optional descriptors: type, language, text.
pub open spec fn descriptors(d: Seq<u8>, lim: int, p: int) -> Result<((), int), ExssError> {
    match optional(d, lim, p, 4) {
        Err(e) => Err(e),
        Ok((_, p1)) => match optional(d, lim, p1, 24) {
            Err(e) => Err(e),
            Ok((_, p2)) => if p2 + 1 > lim {
                short()
            } else if !flag(d, p2) {
                Ok(((), p2 + 1))
            } else if p2 + 11 > lim {
                short()
            } else if p2 + 11 + 8 * (field(d, p2 + 1, 10) + 1) > lim {
                short()
            } else {
                Ok(((), p2 + 11 + 8 * (field(d, p2 + 1, 10) + 1)))
            },
        },
    }
}

fn skip_descriptors(gb: &mut BitReader<'_>) -> (r: Result<(), ExssError>)
    requires
        old(gb).wf(),
    ensures
        final(gb).wf(),
        final(gb).same_source(old(gb)),
        old(gb).pos() <= final(gb).pos(),
        parsed(
            r,
            descriptors(old(gb).data(), old(gb).limit(), old(gb).pos()),
            final(gb).pos(),
        ),
{
    skip_optional(gb, 4)?;
    skip_optional(gb, 24)?;
    if rb1(gb)? {
        let text: usize = rb(gb, 10)? as usize + 1;
        skip(gb, text * 8)?;
    }
    Ok(())
}

/// The speaker part of a one-to-one mapped asset.
pub open spec fn mapped_layout(d: Seq<u8>, lim: int, p: int, base: AssetLayout) -> Result<
    (AssetLayout, int),
    ExssError,
> {
    match flag_if(d, lim, p, base.nchannels_total > 2) {
        Err(e) => Err(e),
        Ok((embedded_stereo, p1)) => match flag_if(d, lim, p1, base.nchannels_total > 6) {
            Err(e) => Err(e),
            Ok((embedded_6ch, p2)) => match flag_if(d, lim, p2, true) {
                Err(e) => Err(e),
                Ok((spkr_mask_enabled, p3)) => match speaker_mask(d, lim, p3, spkr_mask_enabled) {
                    Err(e) => Err(e),
                    Ok((mask, p4)) => match remap_sets(d, lim, p4, mask.0) {
                        Err(e) => Err(e),
                        Ok((_, p5)) => Ok(
                            (
                                AssetLayout {
                                    embedded_stereo,
                                    embedded_6ch,
                                    spkr_mask_enabled,
                                    spkr_mask: mask.1,
                                    ..base
                                },
                                p5,
                            ),
                        ),
                    },
                },
            },
        },
    }
}

fn parse_mapped_layout(gb: &mut BitReader<'_>, base: AssetLayout) -> (r: Result<AssetLayout, ExssError>)
    requires
        old(gb).wf(),
    ensures
        final(gb).wf(),
        final(gb).same_source(old(gb)),
        old(gb).pos() <= final(gb).pos(),
        parsed(
            r,
            mapped_layout(old(gb).data(), old(gb).limit(), old(gb).pos(), base),
            final(gb).pos(),
        ),
        r matches Ok(v) ==> v.nchannels_total == base.nchannels_total,
{
    let embedded_stereo: bool = rb1_if(gb, base.nchannels_total > 2)?;
    let embedded_6ch: bool = rb1_if(gb, base.nchannels_total > 6)?;
    let spkr_mask_enabled: bool = rb1_if(gb, true)?;
    let (nbits, spkr_mask) = read_speaker_mask(gb, spkr_mask_enabled)?;
    skip_remap_sets(gb, nbits)?;
    Ok(AssetLayout { embedded_stereo, embedded_6ch, spkr_mask_enabled, spkr_mask, ..base })
}

/// The asset's static part.
#[verifier::opaque]
pub open spec fn asset_layout(d: Seq<u8>, lim: int, p: int) -> Result<(AssetLayout, int), ExssError> {
    match descriptors(d, lim, p) {
        Err(e) => Err(e),
        Ok((_, q)) => if q + 18 > lim {
            short()
        } else {
            let base = AssetLayout {
                pcm_bit_res: (field(d, q, 5) + 1) as u32,
                max_sample_rate: SAMPLING_FREQS@[field(d, q + 5, 4)],
                nchannels_total: (field(d, q + 9, 8) + 1) as u32,
                one_to_one_map_ch_to_spkr: flag(d, q + 17),
                ..blank_layout()
            };
            if flag(d, q + 17) {
                mapped_layout(d, lim, q + 18, base)
            } else if q + 21 > lim {
                short()
            } else {
                Ok((AssetLayout { representation_type: field(d, q + 18, 3) as u32, ..base }, q + 21))
            }
        },
    }
}

fn new_layout() -> (r: AssetLayout)
    ensures
        r == blank_layout(),
{
    AssetLayout {
        pcm_bit_res: 0,
        max_sample_rate: 0,
        nchannels_total: 0,
        one_to_one_map_ch_to_spkr: false,
        embedded_stereo: false,
        embedded_6ch: false,
        spkr_mask_enabled: false,
        spkr_mask: 0,
        representation_type: 0,
    }
}

fn parse_asset_layout(gb: &mut BitReader<'_>) -> (r: Result<AssetLayout, ExssError>)
    requires
        old(gb).wf(),
    ensures
        final(gb).wf(),
        final(gb).same_source(old(gb)),
        old(gb).pos() <= final(gb).pos(),
        parsed(
            r,
            asset_layout(old(gb).data(), old(gb).limit(), old(gb).pos()),
            final(gb).pos(),
        ),
        r matches Ok(v) ==> v.nchannels_total <= 256,
{
    proof {
        reveal(asset_layout);
    }
    skip_descriptors(gb)?;
    let pcm_bit_res: u32 = rb(gb, 5)? + 1;
    let rate: u32 = rb(gb, 4)?;
    let nchannels_total: u32 = rb(gb, 8)? + 1;
    let one_to_one_map_ch_to_spkr: bool = rb1(gb)?;
    let base = AssetLayout {
        pcm_bit_res,
        max_sample_rate: sampling_freq(rate as usize),
        nchannels_total,
        one_to_one_map_ch_to_spkr,
        ..new_layout()
    };
    if one_to_one_map_ch_to_spkr {
        parse_mapped_layout(gb, base)
    } else {
        let representation_type: u32 = rb(gb, 3)?;
        Ok(AssetLayout { representation_type, ..base })
    }
}

pub open spec fn scale_step(d: Seq<u8>, lim: int, channels: Seq<u32>, each: bool) -> spec_fn(
    int,
    int,
) -> Result<((), int), ExssError> {
    |i: int, q: int|
        {
            let n = if each { 6 * channels[i] } else { 6 };
            if q + n > lim {
                short()
            } else {
                Ok(((), q + n))
            }
        }
}

/// Mixing scales: six bits per configuration, or per channel of each.
pub open spec fn mix_scales(d: Seq<u8>, lim: int, p: int, channels: Seq<u32>, each: bool) -> Result<
    (Seq<()>, int),
    ExssError,
> {
    repeat(scale_step(d, lim, channels, each), p, channels.len() as int)
}

fn skip_mix_scales(gb: &mut BitReader<'_>, channels: &Vec<u32>, each: bool) -> (r: Result<
    (),
    ExssError,
>)
    requires
        old(gb).wf(),
        forall|i: int| 0 <= i < channels@.len() ==> #[trigger] channels@[i] <= 32,
    ensures
        final(gb).wf(),
        final(gb).same_source(old(gb)),
        old(gb).pos() <= final(gb).pos(),
        match r {
            Ok(_) => mix_scales(
                old(gb).data(),
                old(gb).limit(),
                old(gb).pos(),
                channels@,
                each,
            ) matches Ok((items, q)) && q == final(gb).pos(),
            Err(e) => mix_scales(old(gb).data(), old(gb).limit(), old(gb).pos(), channels@, each)
                == Err::<(Seq<()>, int), ExssError>(e),
        },
{
    let ghost step = scale_step(gb.data(), gb.limit(), channels@, each);
    let ghost p = gb.pos();
    let ghost mut items: Seq<()> = Seq::empty();
    let n: usize = channels.len();
    let mut i: usize = 0;
    while i < n
        invariant
            i <= n,
            n == channels@.len(),
            forall|k: int| 0 <= k < n ==> #[trigger] channels@[k] <= 32,
            gb.wf(),
            gb.same_source(old(gb)),
            old(gb).pos() <= gb.pos(),
            p == old(gb).pos(),
            step == scale_step(gb.data(), gb.limit(), channels@, each),
            repeat(step, p, i as int) == Ok::<(Seq<()>, int), ExssError>((items, gb.pos())),
        decreases n - i,
    {
        assert(channels@[i as int] <= 32);
        let bits: usize = if each { 6 * channels[i] as usize } else { 6 };
        match skip(gb, bits) {
            Ok(_) => {
                proof {
                    items = items.push(());
                }
            },
            Err(e) => {
                proof {
                    lemma_repeat_err(step, p, i + 1, n as int);
                }
                return Err(e);
            },
        }
        i = i + 1;
    }
    Ok(())
}

/// The mixing coefficients of one configuration.
pub open spec fn mix_map_step(d: Seq<u8>, lim: int, channels: Seq<u32>, inputs: int) -> spec_fn(
    int,
    int,
) -> Result<((), int), ExssError> {
    |i: int, q: int|
        if channels[i] == 0 {
            Err(ExssError::Invalid("mix config speaker mask"))
        } else {
            match masked_skips(d, lim, q, channels[i] as int, 6, inputs) {
                Err(e) => Err(e),
                Ok((_, r)) => Ok(((), r)),
            }
        }
}

/// Mixing coefficients of every configuration.
pub open spec fn mix_maps(d: Seq<u8>, lim: int, p: int, channels: Seq<u32>, inputs: int) -> Result<
    (Seq<()>, int),
    ExssError,
> {
    repeat(mix_map_step(d, lim, channels, inputs), p, channels.len() as int)
}

fn skip_mix_maps(gb: &mut BitReader<'_>, channels: &Vec<u32>, inputs: usize) -> (r: Result<
    (),
    ExssError,
>)
    requires
        old(gb).wf(),
        forall|i: int| 0 <= i < channels@.len() ==> #[trigger] channels@[i] <= 32,
    ensures
        final(gb).wf(),
        final(gb).same_source(old(gb)),
        old(gb).pos() <= final(gb).pos(),
        match r {
            Ok(_) => mix_maps(
                old(gb).data(),
                old(gb).limit(),
                old(gb).pos(),
                channels@,
                inputs as int,
            ) matches Ok((items, q)) && q == final(gb).pos(),
            Err(e) => mix_maps(
                old(gb).data(),
                old(gb).limit(),
                old(gb).pos(),
                channels@,
                inputs as int,
            ) == Err::<(Seq<()>, int), ExssError>(e),
        },
{
    let ghost step = mix_map_step(gb.data(), gb.limit(), channels@, inputs as int);
    let ghost p = gb.pos();
    let ghost mut items: Seq<()> = Seq::empty();
    let n: usize = channels.len();
    let mut i: usize = 0;
    while i < n
        invariant
            i <= n,
            n == channels@.len(),
            forall|k: int| 0 <= k < n ==> #[trigger] channels@[k] <= 32,
            gb.wf(),
            gb.same_source(old(gb)),
            old(gb).pos() <= gb.pos(),
            p == old(gb).pos(),
            step == mix_map_step(gb.data(), gb.limit(), channels@, inputs as int),
            repeat(step, p, i as int) == Ok::<(Seq<()>, int), ExssError>((items, gb.pos())),
        decreases n - i,
    {
        assert(channels@[i as int] <= 32);
        if channels[i] == 0 {
            proof {
                lemma_repeat_err(step, p, i + 1, n as int);
            }
            return Err(ExssError::Invalid("mix config speaker mask"));
        }
        match skip_masked(gb, channels[i] as usize, 6, inputs) {
            Ok(_) => {
                proof {
                    items = items.push(());
                }
            },
            Err(e) => {
                proof {
                    lemma_repeat_err(step, p, i + 1, n as int);
                }
                return Err(e);
            },
        }
        i = i + 1;
    }
    Ok(())
}

/// Channels that are mixed: those of the asset and of its embedded downmixes.
pub open spec fn mix_inputs(layout: AssetLayout) -> int {
    layout.nchannels_total + (if layout.embedded_6ch { 6int } else { 0int }) + (
    if layout.embedded_stereo { 2int } else { 0int })
}

/// The mixing metadata.
pub open spec fn mix_metadata(d: Seq<u8>, lim: int, p: int, layout: AssetLayout, channels: Seq<u32>) -> Result<
    ((), int),
    ExssError,
> {
    if p + 9 > lim {
        short()
    } else {
        let p1 = p + 9 + if field(d, p + 7, 2) == 3 { 8int } else { 3int };
        if p1 > lim || p1 + 1 > lim {
            short()
        } else {
            let each = flag(d, p1);
            match mix_scales(d, lim, p1 + 1, channels, each) {
                Err(e) => Err(e),
                Ok((_, p2)) => match mix_maps(d, lim, p2, channels, mix_inputs(layout)) {
                    Err(e) => Err(e),
                    Ok((_, p3)) => Ok(((), p3)),
                },
            }
        }
    }
}

fn skip_mix_metadata(gb: &mut BitReader<'_>, layout: AssetLayout, channels: &Vec<u32>) -> (r: Result<(), ExssError>)
    requires
        old(gb).wf(),
        layout.nchannels_total <= 256,
        forall|i: int| 0 <= i < channels@.len() ==> #[trigger] channels@[i] <= 32,
    ensures
        final(gb).wf(),
        final(gb).same_source(old(gb)),
        old(gb).pos() <= final(gb).pos(),
        parsed(
            r,
            mix_metadata(old(gb).data(), old(gb).limit(), old(gb).pos(), layout, channels@),
            final(gb).pos(),
        ),
{
    skip(gb, 1)?;
    skip(gb, 6)?;
    if rb(gb, 2)? == 3 {
        skip(gb, 8)?;
    } else {
        skip(gb, 3)?;
    }
    let each: bool = rb1(gb)?;
    skip_mix_scales(gb, channels, each)?;
    let mut inputs: usize = layout.nchannels_total as usize;
    if layout.embedded_6ch {
        inputs = inputs + 6;
    }
    if layout.embedded_stereo {
        inputs = inputs + 2;
    }
    skip_mix_maps(gb, channels, inputs)?;
    Ok(())
}

/// Dynamic range, dialogue level and mixing fields. Tells whether mixing
/// metadata was present.
#[verifier::opaque]
pub open spec fn dynamic_fields(d: Seq<u8>, lim: int, p: int, layout: AssetLayout, fields: StaticModel) -> Result<
    (bool, int),
    ExssError,
> {
    match optional(d, lim, p, 8) {
        Err(e) => Err(e),
        Ok((_, p1)) => match optional(d, lim, p1, 5) {
            Err(e) => Err(e),
            Ok((_, p2)) => {
                let p3 = if flag(d, p) && layout.embedded_stereo { p2 + 8 } else { p2 };
                if p3 > lim {
                    short()
                } else {
                    match flag_if(d, lim, p3, fields.mix_metadata_enabled) {
                        Err(e) => Err(e),
                        Ok((present, p4)) => if !present {
                            Ok((false, p4))
                        } else {
                            match mix_metadata(d, lim, p4, layout, fields.mix_channels) {
                                Err(e) => Err(e),
                                Ok((_, p5)) => Ok((true, p5)),
                            }
                        },
                    }
                }
            },
        },
    }
}

fn parse_dynamic_fields(gb: &mut BitReader<'_>, layout: AssetLayout, fields: &StaticFields) -> (r: Result<bool, ExssError>)
    requires
        old(gb).wf(),
        layout.nchannels_total <= 256,
        static_wf(fields@),
    ensures
        final(gb).wf(),
        final(gb).same_source(old(gb)),
        old(gb).pos() <= final(gb).pos(),
        parsed(
            r,
            dynamic_fields(old(gb).data(), old(gb).limit(), old(gb).pos(), layout, fields@),
            final(gb).pos(),
        ),
{
    proof {
        reveal(dynamic_fields);
    }
    let drc_present: bool = rb1(gb)?;
    if drc_present {
        skip(gb, 8)?;
    }
    skip_optional(gb, 5)?;
    if drc_present && layout.embedded_stereo {
        skip(gb, 8)?;
    }
    let present: bool = rb1_if(gb, fields.mix_metadata_enabled)?;
    if present {
        skip_mix_metadata(gb, layout, &fields.mix_channels)?;
    }
    Ok(present)
}

/// Where the lossless component starts playing.
#[derive(Clone, Copy, Debug, PartialEq, Eq, Structural)]
pub struct XllParameters {
    pub size: usize,
    pub sync_present: bool,
    pub delay_nframes: u32,
    pub sync_offset: usize,
}

pub open spec fn xll_parameters(d: Seq<u8>, lim: int, p: int, nbits: int) -> Result<
    (XllParameters, int),
    ExssError,
> {
    if p + nbits + 1 > lim {
        short()
    } else {
        let size = (field(d, p, nbits) + 1) as usize;
        let q = p + nbits + 1;
        if !flag(d, p + nbits) {
            Ok((XllParameters { size, sync_present: false, delay_nframes: 0, sync_offset: 0 }, q))
        } else if q + 9 > lim {
            short()
        } else {
            let width = field(d, q + 4, 5) + 1;
            if q + 9 + width + nbits > lim {
                short()
            } else {
                Ok(
                    (
                        XllParameters {
                            size,
                            sync_present: true,
                            delay_nframes: field(d, q + 9, width) as u32,
                            sync_offset: field(d, q + 9 + width, nbits) as usize,
                        },
                        q + 9 + width + nbits,
                    ),
                )
            }
        }
    }
}

fn parse_xll_parameters(gb: &mut BitReader<'_>, nbits: usize) -> (r: Result<XllParameters, ExssError>)
    requires
        old(gb).wf(),
        1 <= nbits <= 20,
    ensures
        final(gb).wf(),
        final(gb).same_source(old(gb)),
        old(gb).pos() <= final(gb).pos(),
        parsed(
            r,
            xll_parameters(old(gb).data(), old(gb).limit(), old(gb).pos(), nbits as int),
            final(gb).pos(),
        ),
        r matches Ok(v) ==> v.size <= 0x10_0000,
{
    let size: usize = rb(gb, nbits)? as usize + 1;
    let sync_present: bool = rb1(gb)?;
    if !sync_present {
        return Ok(XllParameters { size, sync_present, delay_nframes: 0, sync_offset: 0 });
    }
    skip(gb, 4)?;
    let width: usize = rb(gb, 5)? as usize + 1;
    let delay_nframes: u32 = rb(gb, width)?;
    let sync_offset: usize = rb(gb, nbits)? as usize;
    Ok(XllParameters { size, sync_present, delay_nframes, sync_offset })
}

/// A size field that is only there under a condition; 0 when absent.
pub open spec fn size_if(d: Seq<u8>, lim: int, p: int, n: int, present: bool) -> Result<
    (usize, int),
    ExssError,
> {
    if !present {
        Ok((0usize, p))
    } else if p + n > lim {
        short()
    } else {
        Ok(((field(d, p, n) + 1) as usize, p + n))
    }
}

fn rb_size_if(gb: &mut BitReader<'_>, n: usize, present: bool) -> (r: Result<usize, ExssError>)
    requires
        old(gb).wf(),
        1 <= n <= 14,
    ensures
        final(gb).wf(),
        final(gb).same_source(old(gb)),
        old(gb).pos() <= final(gb).pos(),
        parsed(
            r,
            size_if(old(gb).data(), old(gb).limit(), old(gb).pos(), n as int, present),
            final(gb).pos(),
        ),
        r matches Ok(v) ==> v <= 0x4000,
{
    if present { Ok(rb(gb, n)? as usize + 1) } else { Ok(0) }
}

/// A run of bits that is only there under a condition.
pub open spec fn skip_when(lim: int, p: int, n: int, present: bool) -> Result<((), int), ExssError> {
    if present && p + n > lim {
        short()
    } else {
        Ok(((), if present { p + n } else { p }))
    }
}

fn skip_if(gb: &mut BitReader<'_>, n: usize, present: bool) -> (r: Result<(), ExssError>)
    requires
        old(gb).wf(),
    ensures
        final(gb).wf(),
        final(gb).same_source(old(gb)),
        old(gb).pos() <= final(gb).pos(),
        parsed(
            r,
            skip_when(old(gb).limit(), old(gb).pos(), n as int, present),
            final(gb).pos(),
        ),
{
    if present {
        skip(gb, n)?;
    }
    Ok(())
}

/// A sized component with an optional two-bit field; 0 when absent.
pub open spec fn component(d: Seq<u8>, lim: int, p: int, present: bool) -> Result<
    (usize, int),
    ExssError,
> {
    if !present {
        Ok((0usize, p))
    } else {
        match size_if(d, lim, p, 14, true) {
            Err(e) => Err(e),
            Ok((size, p1)) => match optional(d, lim, p1, 2) {
                Err(e) => Err(e),
                Ok((_, p2)) => Ok((size, p2)),
            },
        }
    }
}

fn parse_component(gb: &mut BitReader<'_>, present: bool) -> (r: Result<usize, ExssError>)
    requires
        old(gb).wf(),
    ensures
        final(gb).wf(),
        final(gb).same_source(old(gb)),
        old(gb).pos() <= final(gb).pos(),
        parsed(
            r,
            component(old(gb).data(), old(gb).limit(), old(gb).pos(), present),
            final(gb).pos(),
        ),
        r matches Ok(v) ==> v <= 0x4000,
{
    if !present {
        return Ok(0);
    }
    let size: usize = rb_size_if(gb, 14, true)?;
    skip_optional(gb, 2)?;
    Ok(size)
}

/// Which components the asset has, and their sizes.
#[derive(Clone, Copy, Debug, PartialEq, Eq, Structural)]
pub struct Navigation {
    pub coding_mode: u32,
    pub extension_mask: u32,
    pub core_size: usize,
    pub xbr_size: usize,
    pub xxch_size: usize,
    pub xll: Option<XllParameters>,
}

/// The lossless parameters, if the component is there.
pub open spec fn xll_if(d: Seq<u8>, lim: int, p: int, nbits: int, present: bool) -> Result<
    (Option<XllParameters>, int),
    ExssError,
> {
    if !present {
        Ok((None, p))
    } else {
        match xll_parameters(d, lim, p, nbits) {
            Err(e) => Err(e),
            Ok((v, q)) => Ok((Some(v), q)),
        }
    }
}

fn parse_xll_if(gb: &mut BitReader<'_>, nbits: usize, present: bool) -> (r: Result<Option<XllParameters>, ExssError>)
    requires
        old(gb).wf(),
        1 <= nbits <= 20,
    ensures
        final(gb).wf(),
        final(gb).same_source(old(gb)),
        old(gb).pos() <= final(gb).pos(),
        parsed(
            r,
            xll_if(old(gb).data(), old(gb).limit(), old(gb).pos(), nbits as int, present),
            final(gb).pos(),
        ),
        r matches Ok(Some(v)) ==> v.size <= 0x10_0000,
{
    if present { Ok(Some(parse_xll_parameters(gb, nbits)?)) } else { Ok(None) }
}

/// Sizes of the lossy components: core, XBR and XXCH.
pub open spec fn lossy_components(d: Seq<u8>, lim: int, p: int, mask: u32) -> Result<
    ((usize, usize, usize), int),
    ExssError,
> {
    match component(d, lim, p, has_bit(mask, 4)) {
        Err(e) => Err(e),
        Ok((core_size, p1)) => match size_if(d, lim, p1, 14, has_bit(mask, 5)) {
            Err(e) => Err(e),
            Ok((xbr_size, p2)) => match size_if(d, lim, p2, 14, has_bit(mask, 6)) {
                Err(e) => Err(e),
                Ok((xxch_size, p3)) => Ok(((core_size, xbr_size, xxch_size), p3)),
            },
        },
    }
}

fn parse_lossy_components(gb: &mut BitReader<'_>, mask: u32) -> (r: Result<(usize, usize, usize), ExssError>)
    requires
        old(gb).wf(),
    ensures
        final(gb).wf(),
        final(gb).same_source(old(gb)),
        old(gb).pos() <= final(gb).pos(),
        parsed(
            r,
            lossy_components(old(gb).data(), old(gb).limit(), old(gb).pos(), mask),
            final(gb).pos(),
        ),
        r matches Ok(v) ==> v.0 <= 0x4000 && v.1 <= 0x4000 && v.2 <= 0x4000,
{
    let core_size: usize = parse_component(gb, test_bit(mask, 4))?;
    let xbr_size: usize = rb_size_if(gb, 14, test_bit(mask, 5))?;
    let xxch_size: usize = rb_size_if(gb, 14, test_bit(mask, 6))?;
    Ok((core_size, xbr_size, xxch_size))
}

/// The components after those: X96 and LBR, skipped, then the lossless one.
pub open spec fn later_components(d: Seq<u8>, lim: int, p: int, mask: u32, nbits: int) -> Result<
    (Option<XllParameters>, int),
    ExssError,
> {
    match skip_when(lim, p, 12, has_bit(mask, 7)) {
        Err(e) => Err(e),
        Ok((_, p1)) => match component(d, lim, p1, has_bit(mask, 8)) {
            Err(e) => Err(e),
            Ok((_, p2)) => xll_if(d, lim, p2, nbits, has_bit(mask, 9)),
        },
    }
}

fn parse_later_components(gb: &mut BitReader<'_>, mask: u32, nbits: usize) -> (r: Result<Option<XllParameters>, ExssError>)
    requires
        old(gb).wf(),
        1 <= nbits <= 20,
    ensures
        final(gb).wf(),
        final(gb).same_source(old(gb)),
        old(gb).pos() <= final(gb).pos(),
        parsed(
            r,
            later_components(old(gb).data(), old(gb).limit(), old(gb).pos(), mask, nbits as int),
            final(gb).pos(),
        ),
        r matches Ok(Some(v)) ==> v.size <= 0x10_0000,
{
    skip_if(gb, 12, test_bit(mask, 7))?;
    parse_component(gb, test_bit(mask, 8))?;
    parse_xll_if(gb, nbits, test_bit(mask, 9))
}

/// Components in the order of the extension mask's bits.
#[verifier::opaque]
pub open spec fn masked_components(d: Seq<u8>, lim: int, p: int, nbits: int) -> Result<
    (Navigation, int),
    ExssError,
> {
    if p + 12 > lim {
        short()
    } else {
        let mask = field(d, p, 12) as u32;
        match lossy_components(d, lim, p + 12, mask) {
            Err(e) => Err(e),
            Ok((sizes, p1)) => match later_components(d, lim, p1, mask, nbits) {
                Err(e) => Err(e),
                Ok((xll, p2)) => {
                    let p3 = if has_bit(mask, 10) { p2 + 16 } else { p2 };
                    let p4 = if has_bit(mask, 11) { p3 + 16 } else { p3 };
                    if (has_bit(mask, 10) || has_bit(mask, 11)) && p4 > lim {
                        short()
                    } else {
                        Ok(
                            (
                                Navigation {
                                    coding_mode: 0,
                                    extension_mask: mask,
                                    core_size: sizes.0,
                                    xbr_size: sizes.1,
                                    xxch_size: sizes.2,
                                    xll,
                                },
                                p4,
                            ),
                        )
                    }
                },
            },
        }
    }
}

fn parse_masked_components(gb: &mut BitReader<'_>, nbits: usize) -> (r: Result<Navigation, ExssError>)
    requires
        old(gb).wf(),
        1 <= nbits <= 20,
    ensures
        final(gb).wf(),
        final(gb).same_source(old(gb)),
        old(gb).pos() <= final(gb).pos(),
        parsed(
            r,
            masked_components(old(gb).data(), old(gb).limit(), old(gb).pos(), nbits as int),
            final(gb).pos(),
        ),
        r matches Ok(v) ==> navigation_wf(v),
{
    proof {
        reveal(masked_components);
    }
    let mask: u32 = rb(gb, 12)?;
    let (core_size, xbr_size, xxch_size) = parse_lossy_components(gb, mask)?;
    let xll: Option<XllParameters> = parse_later_components(gb, mask, nbits)?;
    if test_bit(mask, 10) {
        skip(gb, 16)?;
    }
    if test_bit(mask, 11) {
        skip(gb, 16)?;
    }
    Ok(Navigation { coding_mode: 0, extension_mask: mask, core_size, xbr_size, xxch_size, xll })
}

/// Component sizes stay inside their fields.
pub open spec fn navigation_wf(v: Navigation) -> bool {
    &&& v.core_size <= 0x4000
    &&& v.xbr_size <= 0x4000
    &&& v.xxch_size <= 0x4000
    &&& v.xll matches Some(x) ==> x.size <= 0x10_0000
}

/// The decoder navigation data of the asset.
#[verifier::opaque]
pub open spec fn navigation(d: Seq<u8>, lim: int, p: int, nbits: int) -> Result<
    (Navigation, int),
    ExssError,
> {
    if p + 2 > lim {
        short()
    } else if field(d, p, 2) == 0 {
        masked_components(d, lim, p + 2, nbits)
    } else if field(d, p, 2) == 1 {
        match xll_parameters(d, lim, p + 2, nbits) {
            Err(e) => Err(e),
            Ok((v, q)) => Ok(
                (
                    Navigation {
                        coding_mode: 1,
                        extension_mask: DCA_EXSS_XLL,
                        core_size: 0,
                        xbr_size: 0,
                        xxch_size: 0,
                        xll: Some(v),
                    },
                    q,
                ),
            ),
        }
    } else if field(d, p, 2) == 2 {
        match component(d, lim, p + 2, true) {
            Err(e) => Err(e),
            Ok((_, q)) => Ok(
                (
                    Navigation {
                        coding_mode: 2,
                        extension_mask: DCA_EXSS_LBR,
                        core_size: 0,
                        xbr_size: 0,
                        xxch_size: 0,
                        xll: None,
                    },
                    q,
                ),
            ),
        }
    } else if p + 24 > lim {
        short()
    } else {
        match optional(d, lim, p + 24, 3) {
            Err(e) => Err(e),
            Ok((_, q)) => Ok(
                (
                    Navigation {
                        coding_mode: 3,
                        extension_mask: 0,
                        core_size: 0,
                        xbr_size: 0,
                        xxch_size: 0,
                        xll: None,
                    },
                    q,
                ),
            ),
        }
    }
}

fn parse_navigation(gb: &mut BitReader<'_>, nbits: usize) -> (r: Result<Navigation, ExssError>)
    requires
        old(gb).wf(),
        1 <= nbits <= 20,
    ensures
        final(gb).wf(),
        final(gb).same_source(old(gb)),
        old(gb).pos() <= final(gb).pos(),
        parsed(
            r,
            navigation(old(gb).data(), old(gb).limit(), old(gb).pos(), nbits as int),
            final(gb).pos(),
        ),
        r matches Ok(v) ==> navigation_wf(v),
{
    proof {
        reveal(navigation);
    }
    let coding_mode: u32 = rb(gb, 2)?;
    if coding_mode == 0 {
        return parse_masked_components(gb, nbits);
    }
    let mut extension_mask: u32 = 0;
    let mut xll: Option<XllParameters> = None;
    if coding_mode == 1 {
        extension_mask = DCA_EXSS_XLL;
        xll = Some(parse_xll_parameters(gb, nbits)?);
    } else if coding_mode == 2 {
        extension_mask = DCA_EXSS_LBR;
        parse_component(gb, true)?;
    } else {
        skip(gb, 14)?;
        skip(gb, 8)?;
        skip_optional(gb, 3)?;
    }
    Ok(Navigation { coding_mode, extension_mask, core_size: 0, xbr_size: 0, xxch_size: 0, xll })
}

/// The stream id that follows a lossless component; 0 without one.
pub open spec fn stream_id(d: Seq<u8>, lim: int, p: int, present: bool) -> Result<(u32, int), ExssError> {
    if !present {
        Ok((0u32, p))
    } else if p + 3 > lim {
        short()
    } else {
        Ok((field(d, p, 3) as u32, p + 3))
    }
}

fn parse_stream_id(gb: &mut BitReader<'_>, present: bool) -> (r: Result<u32, ExssError>)
    requires
        old(gb).wf(),
    ensures
        final(gb).wf(),
        final(gb).same_source(old(gb)),
        old(gb).pos() <= final(gb).pos(),
        parsed(
            r,
            stream_id(old(gb).data(), old(gb).limit(), old(gb).pos(), present),
            final(gb).pos(),
        ),
{
    if present { rb(gb, 3) } else { Ok(0) }
}

/// One-to-one mixing scales, when the asset could have had mixing metadata
/// but did not.
pub open spec fn late_mixing(d: Seq<u8>, lim: int, p: int, present: bool, channels: Seq<u32>) -> Result<
    ((), int),
    ExssError,
> {
    match flag_if(d, lim, p, present) {
        Err(e) => Err(e),
        Ok((mixing, p1)) => if !mixing {
            Ok(((), p1))
        } else if p1 + 1 > lim {
            short()
        } else {
            match mix_scales(d, lim, p1 + 1, channels, flag(d, p1)) {
                Err(e) => Err(e),
                Ok((_, p2)) => Ok(((), p2)),
            }
        },
    }
}

fn skip_late_mixing(gb: &mut BitReader<'_>, present: bool, channels: &Vec<u32>) -> (r: Result<(), ExssError>)
    requires
        old(gb).wf(),
        forall|i: int| 0 <= i < channels@.len() ==> #[trigger] channels@[i] <= 32,
    ensures
        final(gb).wf(),
        final(gb).same_source(old(gb)),
        old(gb).pos() <= final(gb).pos(),
        parsed(
            r,
            late_mixing(old(gb).data(), old(gb).limit(), old(gb).pos(), present, channels@),
            final(gb).pos(),
        ),
{
    if rb1_if(gb, present)? {
        let each: bool = rb1(gb)?;
        skip_mix_scales(gb, channels, each)?;
    }
    Ok(())
}

/// Two flags, the second with its data skipped.
pub open spec fn late_flags(d: Seq<u8>, lim: int, p: int, duration: int) -> Result<
    ((bool, bool), int),
    ExssError,
> {
    if p + 2 > lim {
        short()
    } else if !flag(d, p + 1) {
        Ok(((flag(d, p), false), p + 2))
    } else if p + 6 + 8 * (duration / 256) > lim {
        short()
    } else {
        Ok(((flag(d, p), true), p + 6 + 8 * (duration / 256)))
    }
}

fn parse_late_flags(gb: &mut BitReader<'_>, duration: usize) -> (r: Result<(bool, bool), ExssError>)
    requires
        old(gb).wf(),
        duration <= 4096,
    ensures
        final(gb).wf(),
        final(gb).same_source(old(gb)),
        old(gb).pos() <= final(gb).pos(),
        parsed(
            r,
            late_flags(old(gb).data(), old(gb).limit(), old(gb).pos(), duration as int),
            final(gb).pos(),
        ),
{
    let decode_in_secondary: bool = rb1(gb)?;
    let drc_rev2_present: bool = rb1(gb)?;
    if drc_rev2_present {
        skip(gb, 4)?;
        skip(gb, 8 * (duration / 256))?;
    }
    Ok((decode_in_secondary, drc_rev2_present))
}

/// Byte `k` of `bits` bits from `p`, the last one padded with zeros.
pub open spec fn tail_byte(d: Seq<u8>, p: int, bits: int, k: int) -> u8 {
    if 8 * (k + 1) <= bits {
        field(d, p + 8 * k, 8) as u8
    } else {
        (field(d, p + 8 * k, bits - 8 * k) * code_space(8 - (bits - 8 * k))) as u8
    }
}

/// `bits` bits from `p`, packed into bytes.
pub open spec fn tail_bytes(d: Seq<u8>, p: int, bits: int) -> Seq<u8> {
    Seq::new(((bits + 7) / 8) as nat, |k: int| tail_byte(d, p, bits, k))
}

/// The unspecified tail of the descriptor.
pub open spec fn descriptor_tail(d: Seq<u8>, lim: int, p: int, bits: int) -> Result<
    (Seq<u8>, int),
    ExssError,
> {
    if p + bits > lim {
        short()
    } else {
        Ok((tail_bytes(d, p, bits), p + bits))
    }
}

fn read_descriptor_tail(gb: &mut BitReader<'_>, bits: usize) -> (r: Result<Vec<u8>, ExssError>)
    requires
        old(gb).wf(),
        bits <= 0x10000,
    ensures
        final(gb).wf(),
        final(gb).same_source(old(gb)),
        old(gb).pos() <= final(gb).pos(),
        parsed_view(
            r,
            descriptor_tail(old(gb).data(), old(gb).limit(), old(gb).pos(), bits as int),
            final(gb).pos(),
        ),
{
    let mut tail: Vec<u8> = Vec::new();
    if !gb.bits_left(bits) {
        return Err(ExssError::Bitstream);
    }
    let mut done: usize = 0;
    while done < bits
        invariant
            done <= bits <= 0x10000,
            done < bits ==> done == 8 * tail@.len(),
            done == bits ==> tail@.len() == (bits + 7) / 8,
            gb.wf(),
            gb.same_source(old(gb)),
            old(gb).pos() <= gb.pos(),
            old(gb).has(bits as int),
            gb.pos() == old(gb).pos() + done,
            forall|k: int|
                0 <= k < tail@.len() ==> #[trigger] tail@[k] == tail_byte(
                    old(gb).data(),
                    old(gb).pos(),
                    bits as int,
                    k,
                ),
        decreases bits - done,
    {
        let n: usize = if bits - done < 8 { bits - done } else { 8 };
        let v: u32 = rb(gb, n)?;
        let scale: u32 = match n {
            1 => 128,
            2 => 64,
            3 => 32,
            4 => 16,
            5 => 8,
            6 => 4,
            7 => 2,
            _ => 1,
        };
        assert(v * scale < 256) by (nonlinear_arith)
            requires
                v < code_space(n as int),
                1 <= n <= 8,
                scale == code_space(8 - n),
        ;
        tail.push((v * scale) as u8);
        done = done + n;
    }
    assert(tail@ =~= tail_bytes(old(gb).data(), old(gb).pos(), bits as int));
    Ok(tail)
}

/// The asset descriptor.
pub struct Descriptor {
    pub asset_index: u32,
    pub layout: AssetLayout,
    pub navigation: Navigation,
    pub hd_stream_id: u32,
    pub decode_in_secondary: bool,
    pub drc_rev2_present: bool,
    pub tail: Vec<u8>,
    pub tail_bits: usize,
}

/// [`Descriptor`] over sequences.
pub struct DescriptorModel {
    pub asset_index: u32,
    pub layout: AssetLayout,
    pub navigation: Navigation,
    pub hd_stream_id: u32,
    pub decode_in_secondary: bool,
    pub drc_rev2_present: bool,
    pub tail: Seq<u8>,
    pub tail_bits: usize,
}

impl View for Descriptor {
    type V = DescriptorModel;

    open spec fn view(&self) -> DescriptorModel {
        DescriptorModel {
            asset_index: self.asset_index,
            layout: self.layout,
            navigation: self.navigation,
            hd_stream_id: self.hd_stream_id,
            decode_in_secondary: self.decode_in_secondary,
            drc_rev2_present: self.drc_rev2_present,
            tail: self.tail@,
            tail_bits: self.tail_bits,
        }
    }
}

/// The layout part of a descriptor, present with the static fields.
pub open spec fn layout_if(d: Seq<u8>, lim: int, p: int, present: bool) -> Result<
    (AssetLayout, int),
    ExssError,
> {
    if present { asset_layout(d, lim, p) } else { Ok((blank_layout(), p)) }
}

fn parse_layout_if(gb: &mut BitReader<'_>, present: bool) -> (r: Result<AssetLayout, ExssError>)
    requires
        old(gb).wf(),
    ensures
        final(gb).wf(),
        final(gb).same_source(old(gb)),
        old(gb).pos() <= final(gb).pos(),
        parsed(
            r,
            layout_if(old(gb).data(), old(gb).limit(), old(gb).pos(), present),
            final(gb).pos(),
        ),
        r matches Ok(v) ==> v.nchannels_total <= 256,
{
    if present { parse_asset_layout(gb) } else { Ok(new_layout()) }
}

/// Everything between the layout and the tail.
pub struct AssetBody {
    pub navigation: Navigation,
    pub hd_stream_id: u32,
    pub late: (bool, bool),
}

/// The fields between the layout and the tail.
#[verifier::opaque]
pub open spec fn asset_body(
    d: Seq<u8>,
    lim: int,
    p: int,
    layout: AssetLayout,
    fields: StaticModel,
    nbits: int,
) -> Result<(AssetBody, int), ExssError> {
    match dynamic_fields(d, lim, p, layout, fields) {
        Err(e) => Err(e),
        Ok((mixed, p1)) => match navigation(d, lim, p1, nbits) {
            Err(e) => Err(e),
            Ok((navigation, p2)) => match stream_id(d, lim, p2, navigation.xll is Some) {
                Err(e) => Err(e),
                Ok((hd_stream_id, p3)) => match late_mixing(
                    d,
                    lim,
                    p3,
                    layout.one_to_one_map_ch_to_spkr && fields.mix_metadata_enabled && !mixed,
                    fields.mix_channels,
                ) {
                    Err(e) => Err(e),
                    Ok((_, p4)) => match late_flags(
                        d,
                        lim,
                        p4,
                        fields.frame_duration_samples as int,
                    ) {
                        Err(e) => Err(e),
                        Ok((late, p5)) => Ok((AssetBody { navigation, hd_stream_id, late }, p5)),
                    },
                },
            },
        },
    }
}

fn parse_asset_body(gb: &mut BitReader<'_>, layout: AssetLayout, fields: &StaticFields, nbits: usize) -> (r: Result<AssetBody, ExssError>)
    requires
        old(gb).wf(),
        1 <= nbits <= 20,
        layout.nchannels_total <= 256,
        static_wf(fields@),
    ensures
        final(gb).wf(),
        final(gb).same_source(old(gb)),
        old(gb).pos() <= final(gb).pos(),
        parsed(
            r,
            asset_body(old(gb).data(), old(gb).limit(), old(gb).pos(), layout, fields@, nbits as int),
            final(gb).pos(),
        ),
        r matches Ok(v) ==> navigation_wf(v.navigation),
{
    proof {
        reveal(asset_body);
    }
    let mixed: bool = parse_dynamic_fields(gb, layout, fields)?;
    let navigation: Navigation = parse_navigation(gb, nbits)?;
    let hd_stream_id: u32 = parse_stream_id(gb, navigation.xll.is_some())?;
    skip_late_mixing(
        gb,
        layout.one_to_one_map_ch_to_spkr && fields.mix_metadata_enabled && !mixed,
        &fields.mix_channels,
    )?;
    let late: (bool, bool) = parse_late_flags(gb, fields.frame_duration_samples)?;
    Ok(AssetBody { navigation, hd_stream_id, late })
}

/// The asset descriptor. Fields that run past its declared size are an error;
/// what its size leaves over is its tail.
#[verifier::opaque]
pub open spec fn descriptor(
    d: Seq<u8>,
    lim: int,
    p: int,
    static_present: bool,
    fields: StaticModel,
    nbits: int,
) -> Result<(DescriptorModel, int), ExssError> {
    if p + 12 > lim {
        short()
    } else {
        let end = p + 8 * (field(d, p, 9) + 1);
        match layout_if(d, lim, p + 12, static_present) {
            Err(e) => Err(e),
            Ok((layout, p1)) => match asset_body(d, lim, p1, layout, fields, nbits) {
                Err(e) => Err(e),
                Ok((body, p2)) => if p2 > end {
                    Err(ExssError::Invalid("asset descriptor fields exceed size"))
                } else {
                    match descriptor_tail(d, lim, p2, end - p2) {
                        Err(e) => Err(e),
                        Ok((tail, p3)) => Ok(
                            (
                                DescriptorModel {
                                    asset_index: field(d, p + 9, 3) as u32,
                                    layout,
                                    navigation: body.navigation,
                                    hd_stream_id: body.hd_stream_id,
                                    decode_in_secondary: body.late.0,
                                    drc_rev2_present: body.late.1,
                                    tail,
                                    tail_bits: (end - p2) as usize,
                                },
                                p3,
                            ),
                        ),
                    }
                },
            },
        }
    }
}

fn parse_descriptor(gb: &mut BitReader<'_>, static_present: bool, fields: &StaticFields, nbits: usize) -> (r: Result<Descriptor, ExssError>)
    requires
        old(gb).wf(),
        1 <= nbits <= 20,
        static_wf(fields@),
    ensures
        final(gb).wf(),
        final(gb).same_source(old(gb)),
        old(gb).pos() <= final(gb).pos(),
        parsed_view(
            r,
            descriptor(old(gb).data(), old(gb).limit(), old(gb).pos(), static_present, fields@, nbits as int),
            final(gb).pos(),
        ),
        r matches Ok(v) ==> navigation_wf(v.navigation),
{
    proof {
        reveal(descriptor);
    }
    let start: usize = gb.position();
    let size: usize = rb(gb, 9)? as usize + 1;
    let asset_index: u32 = rb(gb, 3)?;
    let layout: AssetLayout = parse_layout_if(gb, static_present)?;
    let body: AssetBody = parse_asset_body(gb, layout, fields, nbits)?;
    let used: usize = gb.position() - start;
    if used > size * 8 {
        return Err(ExssError::Invalid("asset descriptor fields exceed size"));
    }
    let tail_bits: usize = size * 8 - used;
    let tail: Vec<u8> = read_descriptor_tail(gb, tail_bits)?;
    Ok(
        Descriptor {
            asset_index,
            layout,
            navigation: body.navigation,
            hd_stream_id: body.hd_stream_id,
            decode_in_secondary: body.late.0,
            drc_rev2_present: body.late.1,
            tail,
            tail_bits,
        },
    )
}

/// The audio asset, with its components located in the substream.
#[derive(Debug, Clone)]
pub struct ExssAsset {
    pub asset_index: u32,
    pub asset_offset: usize,
    pub asset_size: usize,
    pub layout: AssetLayout,
    pub navigation: Navigation,
    pub core_offset: usize,
    pub xxch_offset: usize,
    pub xll_offset: usize,
    pub hd_stream_id: u32,
    pub decode_in_secondary: bool,
    pub drc_rev2_present: bool,
    /// Unspecified tail of the descriptor; only the first
    /// `descriptor_tail_bits` are valid.
    pub descriptor_tail: Vec<u8>,
    pub descriptor_tail_bits: usize,
}

/// [`ExssAsset`] over sequences.
pub struct ExssAssetModel {
    pub asset_offset: usize,
    pub asset_size: usize,
    pub core_offset: usize,
    pub xxch_offset: usize,
    pub xll_offset: usize,
    pub descriptor: DescriptorModel,
}

impl View for ExssAsset {
    type V = ExssAssetModel;

    open spec fn view(&self) -> ExssAssetModel {
        ExssAssetModel {
            asset_offset: self.asset_offset,
            asset_size: self.asset_size,
            core_offset: self.core_offset,
            xxch_offset: self.xxch_offset,
            xll_offset: self.xll_offset,
            descriptor: DescriptorModel {
                asset_index: self.asset_index,
                layout: self.layout,
                navigation: self.navigation,
                hd_stream_id: self.hd_stream_id,
                decode_in_secondary: self.decode_in_secondary,
                drc_rev2_present: self.drc_rev2_present,
                tail: self.descriptor_tail@,
                tail_bits: self.descriptor_tail_bits,
            },
        }
    }
}

/// A parsed extension substream.
#[derive(Debug, Clone)]
pub struct ExssParser {
    pub exss_index: u32,
    pub exss_size: usize,
    pub static_fields_present: bool,
    pub nassets: usize,
    pub asset: ExssAsset,
}

/// [`ExssParser`] over sequences.
pub struct ExssModel {
    pub exss_index: u32,
    pub exss_size: usize,
    pub static_fields_present: bool,
    pub nassets: usize,
    pub asset: ExssAssetModel,
}

impl View for ExssParser {
    type V = ExssModel;

    open spec fn view(&self) -> ExssModel {
        ExssModel {
            exss_index: self.exss_index,
            exss_size: self.exss_size,
            static_fields_present: self.static_fields_present,
            nassets: self.nassets,
            asset: self.asset@,
        }
    }
}

/// The fixed head of the substream.
#[derive(Clone, Copy, PartialEq, Eq, Structural)]
pub struct ExssHead {
    pub index: u32,
    pub header_size: usize,
    pub size_nbits: usize,
    pub size: usize,
}

/// The head: sync word and user bits unread, then index, width flag, header
/// size and substream size.
pub open spec fn exss_head(d: Seq<u8>, lim: int, p: int) -> Result<(ExssHead, int), ExssError> {
    if p + 43 > lim {
        short()
    } else {
        let w = if flag(d, p + 42) { 4int } else { 0int };
        if p + 67 + 2 * w > lim {
            short()
        } else {
            Ok(
                (
                    ExssHead {
                        index: field(d, p + 40, 2) as u32,
                        header_size: (field(d, p + 43, 8 + w) + 1) as usize,
                        size_nbits: (16 + w) as usize,
                        size: (field(d, p + 51 + w, 16 + w) + 1) as usize,
                    },
                    p + 67 + 2 * w,
                ),
            )
        }
    }
}

fn parse_head(gb: &mut BitReader<'_>) -> (r: Result<ExssHead, ExssError>)
    requires
        old(gb).wf(),
    ensures
        final(gb).wf(),
        final(gb).same_source(old(gb)),
        parsed(
            r,
            exss_head(old(gb).data(), old(gb).limit(), old(gb).pos()),
            final(gb).pos(),
        ),
        r matches Ok(v) ==> head_wf(v),
{
    skip(gb, 32)?;
    skip(gb, 8)?;
    let index: u32 = rb(gb, 2)?;
    let wide: bool = rb1(gb)?;
    let w: usize = if wide { 4 } else { 0 };
    let header_size: usize = rb(gb, 8 + w)? as usize + 1;
    let size: usize = rb(gb, 16 + w)? as usize + 1;
    Ok(ExssHead { index, header_size, size_nbits: 16 + w, size })
}

/// Bounds on the head's fields.
pub open spec fn head_wf(v: ExssHead) -> bool {
    &&& v.index < 4
    &&& v.header_size <= 0x1000
    &&& 16 <= v.size_nbits <= 20
    &&& v.size <= 0x10_0000
}

/// The static fields behind their presence flag.
pub open spec fn static_if(d: Seq<u8>, lim: int, p: int, index: int) -> Result<
    ((bool, StaticModel), int),
    ExssError,
> {
    if p + 1 > lim {
        short()
    } else if !flag(d, p) {
        Ok(((false, no_static()), p + 1))
    } else {
        match static_fields(d, lim, p + 1, index) {
            Err(e) => Err(e),
            Ok((fields, q)) => Ok(((true, fields), q)),
        }
    }
}

fn parse_static_if(gb: &mut BitReader<'_>, index: usize) -> (r: Result<
    (bool, StaticFields),
    ExssError,
>)
    requires
        old(gb).wf(),
        index < 4,
    ensures
        final(gb).wf(),
        final(gb).same_source(old(gb)),
        old(gb).pos() <= final(gb).pos(),
        match r {
            Ok((present, fields)) => static_if(
                old(gb).data(),
                old(gb).limit(),
                old(gb).pos(),
                index as int,
            ) == Ok::<((bool, StaticModel), int), ExssError>(
                ((present, fields@), final(gb).pos()),
            ) && static_wf(fields@),
            Err(e) => static_if(old(gb).data(), old(gb).limit(), old(gb).pos(), index as int)
                == Err::<((bool, StaticModel), int), ExssError>(e),
        },
{
    if rb1(gb)? {
        let fields: StaticFields = parse_static_fields(gb, index)?;
        Ok((true, fields))
    } else {
        let fields = StaticFields {
            frame_duration_samples: 0,
            mix_metadata_enabled: false,
            mix_channels: Vec::new(),
        };
        assert(fields@.mix_channels =~= Seq::empty());
        Ok((false, fields))
    }
}

/// The asset with its component offsets. A lossless component behind another
/// extension is not decoded, and components must fit in the asset.
pub open spec fn located(offset: int, size: int, descriptor: DescriptorModel) -> Result<
    ExssAssetModel,
    ExssError,
> {
    let nav = descriptor.navigation;
    let mask = nav.extension_mask;
    let base = ExssAssetModel {
        asset_offset: offset as usize,
        asset_size: size as usize,
        core_offset: (if nav.core_size > 0 { offset } else { 0 }) as usize,
        xxch_offset: (offset + nav.core_size + nav.xbr_size) as usize,
        xll_offset: (if nav.xll is Some { offset + nav.core_size } else { 0 }) as usize,
        descriptor,
    };
    if nav.xll is Some && nav.coding_mode == 0 && (has_bit(mask, 5) || has_bit(mask, 6) || has_bit(
        mask,
        7,
    ) || has_bit(mask, 8)) {
        Err(ExssError::Unsupported("intervening EXSS extension before XLL"))
    } else if nav.core_size > size {
        Err(ExssError::Invalid("core size out of bounds"))
    } else if nav.xll matches Some(x) && x.size > size - nav.core_size {
        Err(ExssError::Invalid("xll size out of bounds"))
    } else {
        Ok(base)
    }
}

fn locate(offset: usize, size: usize, descriptor: Descriptor) -> (r: Result<ExssAsset, ExssError>)
    requires
        offset <= 0x1000,
        size <= 0x10_0000,
        navigation_wf(descriptor.navigation),
    ensures
        match r {
            Ok(v) => located(offset as int, size as int, descriptor@) == Ok::<
                ExssAssetModel,
                ExssError,
            >(v@),
            Err(e) => located(offset as int, size as int, descriptor@) == Err::<
                ExssAssetModel,
                ExssError,
            >(e),
        },
        r matches Ok(v) ==> {
            &&& v.asset_offset == offset
            &&& v.asset_size == size
            &&& v.navigation == descriptor.navigation
            &&& v.navigation.xll matches Some(x) ==> v.xll_offset + x.size <= offset + size
            &&& v.xxch_offset <= 0x1_0000
        },
{
    let nav: Navigation = descriptor.navigation;
    let mask: u32 = nav.extension_mask;
    if nav.xll.is_some() && nav.coding_mode == 0 && (test_bit(mask, 5) || test_bit(mask, 6)
        || test_bit(mask, 7) || test_bit(mask, 8)) {
        return Err(ExssError::Unsupported("intervening EXSS extension before XLL"));
    }
    if nav.core_size > size {
        return Err(ExssError::Invalid("core size out of bounds"));
    }
    let mut xll_offset: usize = 0;
    if let Some(x) = nav.xll {
        xll_offset = offset + nav.core_size;
        if x.size > size - nav.core_size {
            return Err(ExssError::Invalid("xll size out of bounds"));
        }
    }
    Ok(
        ExssAsset {
            asset_index: descriptor.asset_index,
            asset_offset: offset,
            asset_size: size,
            layout: descriptor.layout,
            navigation: nav,
            core_offset: if nav.core_size > 0 { offset } else { 0 },
            xxch_offset: offset + nav.core_size + nav.xbr_size,
            xll_offset,
            hd_stream_id: descriptor.hd_stream_id,
            decode_in_secondary: descriptor.decode_in_secondary,
            drc_rev2_present: descriptor.drc_rev2_present,
            descriptor_tail: descriptor.tail,
            descriptor_tail_bits: descriptor.tail_bits,
        },
    )
}

/// The substream from its asset size on.
pub open spec fn exss_asset(
    d: Seq<u8>,
    lim: int,
    p: int,
    head: ExssHead,
    present: bool,
    fields: StaticModel,
) -> Result<ExssAssetModel, ExssError> {
    let nbits = head.size_nbits as int;
    if p + nbits > lim {
        Err(ExssError::Bitstream)
    } else {
        let size = field(d, p, nbits) + 1;
        if head.header_size + size > head.size {
            Err(ExssError::Invalid("EXSS asset out of bounds"))
        } else {
            match descriptor(d, lim, p + nbits, present, fields, nbits) {
                Err(e) => Err(e),
                Ok((v, q)) => match located(head.header_size as int, size, v) {
                    Err(e) => Err(e),
                    Ok(asset) => if 8 * head.header_size > lim {
                        Err(ExssError::Invalid("seek past end"))
                    } else {
                        Ok(asset)
                    },
                },
            }
        }
    }
}

/// The extension substream at the start of `d`.
pub open spec fn exss(d: Seq<u8>) -> Result<ExssModel, ExssError> {
    let lim = 8 * d.len() as int;
    match exss_head(d, lim, 0) {
        Err(e) => Err(e),
        Ok((head, p1)) => if head.size > d.len() {
            Err(ExssError::Invalid("packet too short for EXSS"))
        } else {
            match static_if(d, lim, p1, head.index as int) {
                Err(e) => Err(e),
                Ok((fields, p2)) => match exss_asset(d, lim, p2, head, fields.0, fields.1) {
                    Err(e) => Err(e),
                    Ok(asset) => Ok(
                        ExssModel {
                            exss_index: head.index,
                            exss_size: head.size,
                            static_fields_present: fields.0,
                            nassets: 1,
                            asset,
                        },
                    ),
                },
            }
        },
    }
}

fn parse_exss_asset(
    gb: &mut BitReader<'_>,
    head: ExssHead,
    present: bool,
    fields: &StaticFields,
) -> (r: Result<ExssAsset, ExssError>)
    requires
        old(gb).wf(),
        head_wf(head),
        static_wf(fields@),
    ensures
        match r {
            Ok(v) => exss_asset(
                old(gb).data(),
                old(gb).limit(),
                old(gb).pos(),
                head,
                present,
                fields@,
            ) == Ok::<ExssAssetModel, ExssError>(v@),
            Err(e) => exss_asset(
                old(gb).data(),
                old(gb).limit(),
                old(gb).pos(),
                head,
                present,
                fields@,
            ) == Err::<ExssAssetModel, ExssError>(e),
        },
        r matches Ok(v) ==> {
            &&& v.asset_offset + v.asset_size <= head.size
            &&& v.navigation.xll matches Some(x) ==> v.xll_offset + x.size <= head.size
            &&& v.xxch_offset <= 0x1_0000
            &&& v.navigation.xxch_size <= 0x4000
        },
{
    let size: usize = rb(gb, head.size_nbits)? as usize + 1;
    if head.header_size + size > head.size {
        return Err(ExssError::Invalid("EXSS asset out of bounds"));
    }
    let descriptor: Descriptor = parse_descriptor(gb, present, fields, head.size_nbits)?;
    let asset: ExssAsset = locate(head.header_size, size, descriptor)?;
    if !gb.seek(head.header_size * 8) {
        return Err(ExssError::Invalid("seek past end"));
    }
    Ok(asset)
}

/// First words of a spatial extension.
pub open spec fn is_extension_word(word: int) -> bool {
    ||| word == DCA_SYNCWORD_XLL_X
    ||| word == DCA_SYNCWORD_XLL_X_ALT_D0
    ||| word == DCA_SYNCWORD_XLL_X_ALT_D1
    ||| word == DCA_SYNCWORD_XLL_X_ALT_D3
}

/// Where a spatial extension follows the asset of substream `d`.
pub open spec fn after_asset(e: ExssModel, d: Seq<u8>) -> Option<int> {
    let at = e.asset.asset_offset + e.asset.asset_size;
    if at + 4 <= e.exss_size && at + 4 <= d.len() && is_extension_word(field(d, 8 * at, 32)) {
        Some(at)
    } else {
        None
    }
}

impl ExssParser {
    /// Parse an extension substream; `data` starts at its sync word.
    pub fn parse(data: &[u8]) -> (r: Result<Self, ExssError>)
        requires
            8 * data@.len() <= usize::MAX,
        ensures
            match r {
                Ok(v) => exss(data@) == Ok::<ExssModel, ExssError>(v@),
                Err(e) => exss(data@) == Err::<ExssModel, ExssError>(e),
            },
            r matches Ok(v) ==> v.exss_size <= data@.len() && v.wf(),
    {
        let mut gb: BitReader = BitReader::new(data);
        let head: ExssHead = parse_head(&mut gb)?;
        if head.size > data.len() {
            return Err(ExssError::Invalid("packet too short for EXSS"));
        }
        let (present, fields) = parse_static_if(&mut gb, head.index as usize)?;
        let asset: ExssAsset = parse_exss_asset(&mut gb, head, present, &fields)?;
        Ok(
            ExssParser {
                exss_index: head.index,
                exss_size: head.size,
                static_fields_present: present,
                nassets: 1,
                asset,
            },
        )
    }

    /// The asset lies inside the substream, and its lossless component inside
    /// the asset.
    pub open spec fn wf(&self) -> bool {
        &&& self.asset.asset_offset + self.asset.asset_size <= self.exss_size
        &&& self.exss_size <= 0x10_0000
        &&& self.asset.navigation.xll matches Some(x) ==> self.asset.xll_offset + x.size
            <= self.exss_size
        &&& self.asset.xxch_offset <= 0x1_0000
        &&& self.asset.navigation.xxch_size <= 0x4000
    }

    /// Size of the whole substream in bytes.
    pub fn substream_size(&self) -> (r: usize)
        ensures
            r == self.exss_size,
    {
        self.exss_size
    }

    /// The asset carries a lossless component.
    pub fn has_xll(&self) -> (r: bool)
        ensures
            r == (self.asset.navigation.xll is Some),
    {
        self.asset.navigation.xll.is_some()
    }

    /// Where a spatial extension follows the asset, if one does. `data` is the
    /// substream.
    pub fn extension_after_asset(&self, data: &[u8]) -> (r: Option<usize>)
        requires
            self.wf(),
            8 * data@.len() <= usize::MAX,
        ensures
            match (r, after_asset(self@, data@)) {
                (Some(v), Some(want)) => v == want,
                (None, None) => true,
                _ => false,
            },
            r matches Some(v) ==> v + 4 <= self.exss_size && v + 4 <= data@.len(),
    {
        let at: usize = self.asset.asset_offset + self.asset.asset_size;
        if at + 4 > self.exss_size || at + 4 > data.len() {
            return None;
        }
        let reader: BitReader = BitReader::with_offset(data, 8 * at);
        match reader.show_bits(32) {
            Some(word) => if word == DCA_SYNCWORD_XLL_X || word == DCA_SYNCWORD_XLL_X_ALT_D0 || word
                == DCA_SYNCWORD_XLL_X_ALT_D1 || word == DCA_SYNCWORD_XLL_X_ALT_D3 {
                Some(at)
            } else {
                None
            },
            None => None,
        }
    }

    /// The asset carries an XXCH component.
    pub fn has_xxch(&self) -> (r: bool)
        ensures
            r == (self.asset.navigation.xxch_size > 0),
    {
        self.asset.navigation.xxch_size > 0
    }
}

} // verus!
