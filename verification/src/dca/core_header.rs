//! Coding headers of the core and of the channel sets that extend it.

use vstd::prelude::*;
use crate::bits::{code_space, count_ones, field, flag, ones, BitReader};
use crate::grammar::{lemma_repeat_err, parsed, parsed_view, repeat, rows};
use super::core_tables::CoreTables;
use super::crc::{crc16_ccitt, crc_of};
use super::parser::{mode_channels, AudioMode};

verus! {

/// Why a core frame, or a channel set that extends it, was refused.
#[derive(Debug, Clone, Copy, PartialEq, Eq)]
pub enum CoreError {
    /// The data ends inside a field, or holds no code word.
    Bitstream,
    /// The named check failed.
    Invalid(&'static str),
    /// The named form is not decoded.
    Unsupported(&'static str),
}

/// A field runs past the end.
pub open spec fn short<T>() -> Result<(T, int), CoreError> {
    Err(CoreError::Bitstream)
}

pub fn rb(gb: &mut BitReader<'_>, n: usize) -> (r: Result<u32, CoreError>)
    requires
        old(gb).wf(),
        1 <= n <= 32,
    ensures
        final(gb).wf(),
        final(gb).same_source(old(gb)),
        old(gb).pos() <= final(gb).pos(),
        match r {
            Ok(v) => {
                &&& old(gb).has(n as int)
                &&& v as int == field(old(gb).data(), old(gb).pos(), n as int)
                &&& (v as int) < code_space(n as int)
                &&& final(gb).pos() == old(gb).pos() + n
            },
            Err(e) => !old(gb).has(n as int) && e == CoreError::Bitstream,
        },
{
    match gb.read_bits(n) {
        Some(v) => Ok(v),
        None => Err(CoreError::Bitstream),
    }
}

pub fn rb1(gb: &mut BitReader<'_>) -> (r: Result<bool, CoreError>)
    requires
        old(gb).wf(),
    ensures
        final(gb).wf(),
        final(gb).same_source(old(gb)),
        old(gb).pos() <= final(gb).pos(),
        match r {
            Ok(v) => {
                &&& old(gb).has(1)
                &&& v == flag(old(gb).data(), old(gb).pos())
                &&& final(gb).pos() == old(gb).pos() + 1
            },
            Err(e) => !old(gb).has(1) && e == CoreError::Bitstream,
        },
{
    match gb.read_bit() {
        Some(v) => Ok(v),
        None => Err(CoreError::Bitstream),
    }
}

/// A step that fails decides the whole repetition.
pub proof fn lemma_step_err<T>(
    step: spec_fn(int, int) -> Result<(T, int), CoreError>,
    p: int,
    k: int,
    n: int,
)
    requires
        0 <= k < n,
    ensures
        repeat(step, p, k + 1) is Err ==> repeat(step, p, n) == repeat(step, p, k + 1),
{
    if repeat(step, p, k + 1) is Err {
        lemma_repeat_err(step, p, k + 1, n);
    }
}

/// Which channel set a coding header describes.
#[derive(Clone, Copy, Debug, PartialEq, Eq, Structural)]
pub enum Header {
    /// The primary set.
    Core,
    /// Channels beyond the core's, with the downmix that was folded into it.
    Xxch,
    /// A set coded in the core syntax without a frame header of its own.
    Extension,
}

/// Subframes and channels of the primary set.
pub open spec fn core_counts(d: Seq<u8>, lim: int, p: int, mode: AudioMode) -> Result<
    ((usize, usize), int),
    CoreError,
> {
    if p + 7 > lim {
        short()
    } else if field(d, p + 4, 3) + 1 != mode_channels(mode) {
        Err(CoreError::Invalid("nchannels mismatch"))
    } else {
        Ok((((field(d, p, 4) + 1) as usize, (field(d, p + 4, 3) + 1) as usize), p + 7))
    }
}

pub fn parse_core_counts(gb: &mut BitReader<'_>, mode: AudioMode) -> (r: Result<(usize, usize), CoreError>)
    requires
        old(gb).wf(),
    ensures
        final(gb).wf(),
        final(gb).same_source(old(gb)),
        parsed(
            r,
            core_counts(old(gb).data(), old(gb).limit(), old(gb).pos(), mode),
            final(gb).pos(),
        ),
        old(gb).pos() <= final(gb).pos(),
        r matches Ok(v) ==> 1 <= v.0 <= 16 && 1 <= v.1 <= 5 && v.1 == mode_channels(mode),
{
    let nsubframes: usize = rb(gb, 4)? as usize + 1;
    let nchannels: usize = rb(gb, 3)? as usize + 1;
    if nchannels != mode.channel_count() {
        return Err(CoreError::Invalid("nchannels mismatch"));
    }
    Ok((nsubframes, nchannels))
}

/// The downmix of an XXCH set into the core.
#[derive(Clone, Debug)]
pub struct XxchDownmix {
    pub embedded: bool,
    pub scale_inv: i32,
    /// Core speakers each channel was mixed into.
    pub masks: Vec<u32>,
    /// One coefficient per speaker of each mask, lowest speaker first.
    pub coeff: Vec<i32>,
}

pub ghost struct XxchDownmixModel {
    pub embedded: bool,
    pub scale_inv: i32,
    pub masks: Seq<u32>,
    pub coeff: Seq<i32>,
}

impl View for XxchDownmix {
    type V = XxchDownmixModel;

    open spec fn view(&self) -> XxchDownmixModel {
        XxchDownmixModel {
            embedded: self.embedded,
            scale_inv: self.scale_inv,
            masks: self.masks@,
            coeff: self.coeff@,
        }
    }
}

/// The core speakers one channel was mixed into.
pub open spec fn mix_mask(d: Seq<u8>, lim: int, p: int, nbits: int, core_mask: u32) -> Result<
    (u32, int),
    CoreError,
> {
    let mask = field(d, p, nbits) as u32;
    if p + nbits > lim {
        short()
    } else if mask & core_mask != mask {
        Err(CoreError::Invalid("xxch downmix mapping mask"))
    } else {
        Ok((mask, p + nbits))
    }
}

pub open spec fn mask_step(d: Seq<u8>, lim: int, nbits: int, core_mask: u32) -> spec_fn(int, int) -> Result<
    (u32, int),
    CoreError,
> {
    |i: int, q: int| mix_mask(d, lim, q, nbits, core_mask)
}

fn read_mix_mask(gb: &mut BitReader<'_>, nbits: usize, core_mask: u32) -> (r: Result<u32, CoreError>)
    requires
        old(gb).wf(),
        1 <= nbits <= 32,
    ensures
        final(gb).wf(),
        final(gb).same_source(old(gb)),
        parsed(
            r,
            mix_mask(old(gb).data(), old(gb).limit(), old(gb).pos(), nbits as int, core_mask),
            final(gb).pos(),
        ),
        old(gb).pos() <= final(gb).pos(),
{
    let mask: u32 = rb(gb, nbits)?;
    if mask & core_mask != mask {
        return Err(CoreError::Invalid("xxch downmix mapping mask"));
    }
    Ok(mask)
}

fn read_mix_masks(gb: &mut BitReader<'_>, nbits: usize, core_mask: u32, n: usize) -> (r: Result<Vec<u32>, CoreError>)
    requires
        old(gb).wf(),
        1 <= nbits <= 32,
    ensures
        final(gb).wf(),
        final(gb).same_source(old(gb)),
        old(gb).pos() <= final(gb).pos(),
        match (r, repeat(mask_step(old(gb).data(), old(gb).limit(), nbits as int, core_mask), old(gb).pos(), n as int)) {
            (Ok(v), Ok((want, q))) => v@ == want && v@.len() == n && final(gb).pos() == q,
            (Err(e), Err(f)) => e == f,
            _ => false,
        },
{
    let ghost step = mask_step(gb.data(), gb.limit(), nbits as int, core_mask);
    let ghost p = gb.pos();
    let mut items: Vec<u32> = Vec::new();
    while items.len() < n
        invariant
            gb.wf(),
            gb.same_source(old(gb)),
            old(gb).pos() <= gb.pos(),
            p == old(gb).pos(),
            step == mask_step(gb.data(), gb.limit(), nbits as int, core_mask),
            items@.len() <= n,
            repeat(step, p, items@.len() as int) == Ok::<_, CoreError>((items@, gb.pos())),
        1 <= nbits <= 32,
        decreases n - items.len(),
    {
        let ghost before = items@;
        proof {
            lemma_step_err(step, p, items@.len() as int, n as int);
        }
        let item = read_mix_mask(gb, nbits, core_mask)?;
        items.push(item);
        assert(items@ =~= before.push(item));
    }
    Ok(items)
}

/// A downmix coefficient: six bits of gain under a sign bit.
pub open spec fn mix_gain(d: Seq<u8>, lim: int, p: int, t: CoreTables, k: int) -> Result<
    (i32, int),
    CoreError,
> {
    let code = field(d, p, 7);
    let index = 4 * (code % 64) - 3;
    let gain = if code % 64 == 0 { 0 } else { t.dmix@[index] as int };
    if p + 7 > lim {
        short()
    } else if index >= 242 {
        Err(CoreError::Invalid("xxch downmix coefficient index"))
    } else if k >= 12 {
        Err(CoreError::Invalid("xxch downmix coefficient count"))
    } else {
        Ok(((if code >= 64 { gain } else { -gain }) as i32, p + 7))
    }
}

pub open spec fn mix_gain_step(d: Seq<u8>, lim: int, t: CoreTables) -> spec_fn(int, int) -> Result<
    (i32, int),
    CoreError,
> {
    |i: int, q: int| mix_gain(d, lim, q, t, i)
}

fn read_mix_gain(gb: &mut BitReader<'_>, t: &CoreTables, k: usize) -> (r: Result<i32, CoreError>)
    requires
        old(gb).wf(),
    ensures
        final(gb).wf(),
        final(gb).same_source(old(gb)),
        parsed(
            r,
            mix_gain(old(gb).data(), old(gb).limit(), old(gb).pos(), *t, k as int),
            final(gb).pos(),
        ),
        old(gb).pos() <= final(gb).pos(),
{
    let code: u32 = rb(gb, 7)?;
    let low: usize = (code % 64) as usize;
    let mut gain: i32 = 0;
    if low != 0 {
        if 4 * low - 3 >= 242 {
            return Err(CoreError::Invalid("xxch downmix coefficient index"));
        }
        gain = t.dmix[4 * low - 3] as i32;
    }
    if k >= 12 {
        return Err(CoreError::Invalid("xxch downmix coefficient count"));
    }
    Ok(if code >= 64 { gain } else { -gain })
}

fn read_mix_gains(gb: &mut BitReader<'_>, t: &CoreTables, n: usize) -> (r: Result<Vec<i32>, CoreError>)
    requires
        old(gb).wf(),
    ensures
        final(gb).wf(),
        final(gb).same_source(old(gb)),
        old(gb).pos() <= final(gb).pos(),
        match (r, repeat(mix_gain_step(old(gb).data(), old(gb).limit(), *t), old(gb).pos(), n as int)) {
            (Ok(v), Ok((want, q))) => v@ == want && v@.len() == n && final(gb).pos() == q,
            (Err(e), Err(f)) => e == f,
            _ => false,
        },
{
    let ghost step = mix_gain_step(gb.data(), gb.limit(), *t);
    let ghost p = gb.pos();
    let mut items: Vec<i32> = Vec::new();
    while items.len() < n
        invariant
            gb.wf(),
            gb.same_source(old(gb)),
            old(gb).pos() <= gb.pos(),
            p == old(gb).pos(),
            step == mix_gain_step(gb.data(), gb.limit(), *t),
            items@.len() <= n,
            repeat(step, p, items@.len() as int) == Ok::<_, CoreError>((items@, gb.pos())),
        decreases n - items.len(),
    {
        let ghost before = items@;
        proof {
            lemma_step_err(step, p, items@.len() as int, n as int);
        }
        let item = read_mix_gain(gb, t, items.len())?;
        items.push(item);
        assert(items@ =~= before.push(item));
    }
    Ok(items)
}

/// Set bits of some masks.
pub open spec fn ones_of(masks: Seq<u32>, n: int) -> int
    decreases n,
{
    if n <= 0 { 0 } else { ones_of(masks, n - 1) + ones(masks[n - 1]) }
}

fn count_all(masks: &Vec<u32>) -> (r: usize)
    requires
        masks@.len() <= 2,
    ensures
        r == ones_of(masks@, masks@.len() as int),
{
    let mut r: usize = 0;
    let mut i: usize = 0;
    while i < masks.len()
        invariant
            i <= masks@.len() <= 2,
            r <= 32 * i,
            r == ones_of(masks@, i as int),
        decreases masks.len() - i,
    {
        r = r + count_ones(masks[i]);
        i = i + 1;
    }
    r
}

pub open spec fn xxch_downmix(
    d: Seq<u8>,
    lim: int,
    p: int,
    t: CoreTables,
    nbits: int,
    core_mask: u32,
    n: int,
) -> Result<(XxchDownmixModel, int), CoreError> {
    let index = 4 * field(d, p + 2, 6) - 44;
    if p + 1 > lim {
        short()
    } else if !flag(d, p) {
        Ok(
            (
                XxchDownmixModel {
                    embedded: false,
                    scale_inv: 0,
                    masks: Seq::empty(),
                    coeff: Seq::empty(),
                },
                p + 1,
            ),
        )
    } else if p + 8 > lim {
        short()
    } else if index < 0 || index >= 201 {
        Err(CoreError::Invalid("xxch downmix scale index"))
    } else {
        match repeat(mask_step(d, lim, nbits, core_mask), p + 8, n) {
            Err(e) => Err(e),
            Ok((masks, q)) => match repeat(mix_gain_step(d, lim, t), q, ones_of(masks, n)) {
                Err(e) => Err(e),
                Ok((coeff, s)) => Ok(
                    (
                        XxchDownmixModel {
                            embedded: flag(d, p + 1),
                            scale_inv: t.inv_dmix@[index],
                            masks,
                            coeff,
                        },
                        s,
                    ),
                ),
            },
        }
    }
}

fn parse_xxch_downmix(gb: &mut BitReader<'_>, t: &CoreTables, nbits: usize, core_mask: u32, n: usize) -> (r: Result<XxchDownmix, CoreError>)
    requires
        old(gb).wf(),
        1 <= nbits <= 32,
        n <= 2,
    ensures
        final(gb).wf(),
        final(gb).same_source(old(gb)),
        parsed_view(
            r,
            xxch_downmix(old(gb).data(), old(gb).limit(), old(gb).pos(), *t, nbits as int, core_mask, n as int),
            final(gb).pos(),
        ),
        old(gb).pos() <= final(gb).pos(),
        r matches Ok(v) ==> v.embedded ==> v.masks@.len() == n && v.coeff@.len() == ones_of(v.masks@, n as int),
{
    if !rb1(gb)? {
        let r = XxchDownmix { embedded: false, scale_inv: 0, masks: Vec::new(), coeff: Vec::new() };
        assert(r.masks@ =~= Seq::<u32>::empty());
        assert(r.coeff@ =~= Seq::<i32>::empty());
        return Ok(r);
    }
    let embedded: bool = rb1(gb)?;
    let code: usize = rb(gb, 6)? as usize;
    if 4 * code < 44 || 4 * code - 44 >= 201 {
        return Err(CoreError::Invalid("xxch downmix scale index"));
    }
    let scale_inv: i32 = t.inv_dmix[4 * code - 44];
    let masks: Vec<u32> = read_mix_masks(gb, nbits, core_mask, n)?;
    let count: usize = count_all(&masks);
    let coeff: Vec<i32> = read_mix_gains(gb, t, count)?;
    Ok(XxchDownmix { embedded, scale_inv, masks, coeff })
}

/// What an XXCH set adds to the common header.
#[derive(Clone, Debug)]
pub struct XxchHead {
    pub header_size: usize,
    pub nchannels: usize,
    pub spkr_mask: u32,
    pub downmix: XxchDownmix,
}

pub ghost struct XxchHeadModel {
    pub header_size: usize,
    pub nchannels: usize,
    pub spkr_mask: u32,
    pub downmix: XxchDownmixModel,
}

impl View for XxchHead {
    type V = XxchHeadModel;

    open spec fn view(&self) -> XxchHeadModel {
        XxchHeadModel {
            header_size: self.header_size,
            nchannels: self.nchannels,
            spkr_mask: self.spkr_mask,
            downmix: self.downmix@,
        }
    }
}

/// Head of an XXCH set: at most two channels, on speakers the core leaves free.
pub open spec fn xxch_head(d: Seq<u8>, lim: int, p: int, t: CoreTables, nbits: int, core_mask: u32) -> Result<
    (XxchHeadModel, int),
    CoreError,
> {
    let n = field(d, p + 7, 3) + 1;
    let q = p + 10 + nbits - 6;
    let mask = (64 * field(d, p + 10, nbits - 6)) as u32;
    if p + 10 > lim {
        short()
    } else if n > 2 {
        Err(CoreError::Unsupported("xxch channel count"))
    } else if q > lim {
        short()
    } else if ones(mask) != n {
        Err(CoreError::Invalid("xxch speaker layout mask"))
    } else if core_mask & mask != 0 {
        Err(CoreError::Invalid("xxch speaker mask overlaps core"))
    } else {
        match xxch_downmix(d, lim, q, t, nbits, core_mask, n) {
            Err(e) => Err(e),
            Ok((downmix, s)) => Ok(
                (
                    XxchHeadModel {
                        header_size: (field(d, p, 7) + 1) as usize,
                        nchannels: n as usize,
                        spkr_mask: mask,
                        downmix,
                    },
                    s,
                ),
            ),
        }
    }
}

proof fn lemma_mask_room(n: int, v: int)
    requires
        1 <= n <= 26,
        0 <= v < code_space(n),
    ensures
        64 * v <= 0xffff_ffff,
{
    assert(code_space(n) <= 0x400_0000);
}

fn parse_xxch_head(gb: &mut BitReader<'_>, t: &CoreTables, nbits: usize, core_mask: u32) -> (r: Result<XxchHead, CoreError>)
    requires
        old(gb).wf(),
        7 <= nbits <= 32,
    ensures
        final(gb).wf(),
        final(gb).same_source(old(gb)),
        parsed_view(
            r,
            xxch_head(old(gb).data(), old(gb).limit(), old(gb).pos(), *t, nbits as int, core_mask),
            final(gb).pos(),
        ),
        old(gb).pos() <= final(gb).pos(),
        r matches Ok(v) ==> {
            &&& 1 <= v.nchannels <= 2
            &&& 1 <= v.header_size <= 128
            &&& v.downmix.embedded ==> v.downmix.masks@.len() == v.nchannels
            &&& v.downmix.embedded ==> v.downmix.coeff@.len() == ones_of(
                v.downmix.masks@,
                v.nchannels as int,
            )
        },
{
    let header_size: usize = rb(gb, 7)? as usize + 1;
    let nchannels: usize = rb(gb, 3)? as usize + 1;
    if nchannels > 2 {
        return Err(CoreError::Unsupported("xxch channel count"));
    }
    let high: u32 = rb(gb, nbits - 6)?;
    proof {
        lemma_mask_room(nbits - 6, high as int);
    }
    let spkr_mask: u32 = 64 * high;
    if count_ones(spkr_mask) != nchannels {
        return Err(CoreError::Invalid("xxch speaker layout mask"));
    }
    if core_mask & spkr_mask != 0 {
        return Err(CoreError::Invalid("xxch speaker mask overlaps core"));
    }
    let downmix: XxchDownmix = parse_xxch_downmix(gb, t, nbits, core_mask, nchannels)?;
    Ok(XxchHead { header_size, nchannels, spkr_mask, downmix })
}

/// Coding parameters of the channels of one set.
#[derive(Clone, Debug)]
pub struct SetCoding {
    /// Active subbands of each channel.
    pub nsubbands: Vec<usize>,
    /// First vector-coded subband of each channel.
    pub vq_start: Vec<usize>,
    /// Channel, counted from 1, that the upper subbands are scaled from; 0
    /// for none.
    pub joint: Vec<usize>,
    pub transition_sel: Vec<usize>,
    pub scale_sel: Vec<usize>,
    pub alloc_sel: Vec<usize>,
    /// Book select of each quantizer, channel by channel.
    pub quant_sel: Vec<Vec<usize>>,
    /// Scale adjustment of each quantizer, channel by channel; 0 where no
    /// book is used.
    pub adjust: Vec<Vec<i32>>,
}

pub ghost struct SetModel {
    pub nsubbands: Seq<usize>,
    pub vq_start: Seq<usize>,
    pub joint: Seq<usize>,
    pub transition_sel: Seq<usize>,
    pub scale_sel: Seq<usize>,
    pub alloc_sel: Seq<usize>,
    pub quant_sel: Seq<Seq<usize>>,
    pub adjust: Seq<Seq<i32>>,
}

impl View for SetCoding {
    type V = SetModel;

    open spec fn view(&self) -> SetModel {
        SetModel {
            nsubbands: self.nsubbands@,
            vq_start: self.vq_start@,
            joint: self.joint@,
            transition_sel: self.transition_sel@,
            scale_sel: self.scale_sel@,
            alloc_sel: self.alloc_sel@,
            quant_sel: rows(self.quant_sel@),
            adjust: rows(self.adjust@),
        }
    }
}

/// A list of `n` numbers below `bound`.
pub open spec fn listed(v: Seq<usize>, n: int, bound: int) -> bool {
    v.len() == n && forall|i: int| 0 <= i < v.len() ==> #[trigger] v[i] < bound
}

impl SetCoding {
    /// Parameters of `n` channels, in a frame of `total` channels.
    pub open spec fn wf(&self, n: int, total: int) -> bool {
        &&& listed(self.nsubbands@, n, 33)
        &&& listed(self.vq_start@, n, 33)
        &&& listed(self.joint@, n, total + 1)
        &&& listed(self.transition_sel@, n, 4)
        &&& listed(self.scale_sel@, n, 7)
        &&& listed(self.alloc_sel@, n, 7)
        &&& self.quant_sel@.len() == 10
        &&& forall|b: int| 0 <= b < 10 ==> (#[trigger] self.quant_sel@[b])@.len() == n
        &&& self.adjust@.len() == 10
        &&& forall|b: int|
            0 <= b < 10 ==> (#[trigger] self.adjust@[b])@.len() == n
                && super::core_tables::positive23(self.adjust@[b]@)
    }
}

/// A field of `n` bits plus `add`.
pub open spec fn number_at(d: Seq<u8>, lim: int, q: int, n: int, add: int) -> Result<
    (usize, int),
    CoreError,
> {
    if q + n > lim { short() } else { Ok(((field(d, q, n) + add) as usize, q + n)) }
}

pub open spec fn number_step(d: Seq<u8>, lim: int, n: int, add: int) -> spec_fn(int, int) -> Result<
    (usize, int),
    CoreError,
> {
    |i: int, q: int| number_at(d, lim, q, n, add)
}

fn read_number(gb: &mut BitReader<'_>, w: usize, add: usize) -> (r: Result<usize, CoreError>)
    requires
        old(gb).wf(),
        1 <= w <= 16,
        add <= 2,
    ensures
        final(gb).wf(),
        final(gb).same_source(old(gb)),
        parsed(
            r,
            number_at(old(gb).data(), old(gb).limit(), old(gb).pos(), w as int, add as int),
            final(gb).pos(),
        ),
        old(gb).pos() <= final(gb).pos(),
        r matches Ok(v) ==> v < code_space(w as int) + add,
{
    Ok(rb(gb, w)? as usize + add)
}

pub fn read_numbers(gb: &mut BitReader<'_>, w: usize, add: usize, n: usize) -> (r: Result<Vec<usize>, CoreError>)
    requires
        old(gb).wf(),
        1 <= w <= 16,
        add <= 2,
    ensures
        final(gb).wf(),
        final(gb).same_source(old(gb)),
        old(gb).pos() <= final(gb).pos(),
        match (r, repeat(number_step(old(gb).data(), old(gb).limit(), w as int, add as int), old(gb).pos(), n as int)) {
            (Ok(v), Ok((want, q))) => v@ == want && v@.len() == n && final(gb).pos() == q,
            (Err(e), Err(f)) => e == f,
            _ => false,
        },
        r matches Ok(v) ==> listed(v@, n as int, code_space(w as int) + add),
{
    let ghost step = number_step(gb.data(), gb.limit(), w as int, add as int);
    let ghost p = gb.pos();
    let mut items: Vec<usize> = Vec::new();
    while items.len() < n
        invariant
            gb.wf(),
            gb.same_source(old(gb)),
            old(gb).pos() <= gb.pos(),
            p == old(gb).pos(),
            step == number_step(gb.data(), gb.limit(), w as int, add as int),
            items@.len() <= n,
            repeat(step, p, items@.len() as int) == Ok::<_, CoreError>((items@, gb.pos())),
        1 <= w <= 16,
        add <= 2,
            listed(items@, items@.len() as int, code_space(w as int) + add),
        decreases n - items.len(),
    {
        let ghost before = items@;
        proof {
            lemma_step_err(step, p, items@.len() as int, n as int);
        }
        let item = read_number(gb, w, add)?;
        items.push(item);
        assert(items@ =~= before.push(item));
    }
    Ok(items)
}

/// Active subbands of a channel.
pub open spec fn activity_at(d: Seq<u8>, lim: int, q: int) -> Result<(usize, int), CoreError> {
    if q + 5 > lim {
        short()
    } else if field(d, q, 5) + 2 > 32 {
        Err(CoreError::Invalid("subband activity"))
    } else {
        Ok(((field(d, q, 5) + 2) as usize, q + 5))
    }
}

pub open spec fn activity_step(d: Seq<u8>, lim: int) -> spec_fn(int, int) -> Result<
    (usize, int),
    CoreError,
> {
    |i: int, q: int| activity_at(d, lim, q)
}

fn read_activity(gb: &mut BitReader<'_>) -> (r: Result<usize, CoreError>)
    requires
        old(gb).wf(),
    ensures
        final(gb).wf(),
        final(gb).same_source(old(gb)),
        parsed(
            r,
            activity_at(old(gb).data(), old(gb).limit(), old(gb).pos()),
            final(gb).pos(),
        ),
        old(gb).pos() <= final(gb).pos(),
        r matches Ok(v) ==> v < 33,
{
    let n: usize = rb(gb, 5)? as usize + 2;
    if n > 32 {
        return Err(CoreError::Invalid("subband activity"));
    }
    Ok(n)
}

fn read_activities(gb: &mut BitReader<'_>, n: usize) -> (r: Result<Vec<usize>, CoreError>)
    requires
        old(gb).wf(),
    ensures
        final(gb).wf(),
        final(gb).same_source(old(gb)),
        old(gb).pos() <= final(gb).pos(),
        match (r, repeat(activity_step(old(gb).data(), old(gb).limit()), old(gb).pos(), n as int)) {
            (Ok(v), Ok((want, q))) => v@ == want && v@.len() == n && final(gb).pos() == q,
            (Err(e), Err(f)) => e == f,
            _ => false,
        },
        r matches Ok(v) ==> listed(v@, n as int, 33),
{
    let ghost step = activity_step(gb.data(), gb.limit());
    let ghost p = gb.pos();
    let mut items: Vec<usize> = Vec::new();
    while items.len() < n
        invariant
            gb.wf(),
            gb.same_source(old(gb)),
            old(gb).pos() <= gb.pos(),
            p == old(gb).pos(),
            step == activity_step(gb.data(), gb.limit()),
            items@.len() <= n,
            repeat(step, p, items@.len() as int) == Ok::<_, CoreError>((items@, gb.pos())),
            listed(items@, items@.len() as int, 33),
        decreases n - items.len(),
    {
        let ghost before = items@;
        proof {
            lemma_step_err(step, p, items@.len() as int, n as int);
        }
        let item = read_activity(gb)?;
        items.push(item);
        assert(items@ =~= before.push(item));
    }
    Ok(items)
}

/// Subband counts and vector starts of a set. A bare set codes all 32
/// subbands, and a field of unknown use follows its starts.
pub open spec fn subbands(d: Seq<u8>, lim: int, p: int, kind: Header, n: int) -> Result<
    ((Seq<usize>, Seq<usize>), int),
    CoreError,
> {
    if kind == Header::Extension {
        match repeat(number_step(d, lim, 5, 1), p, n) {
            Err(e) => Err(e),
            Ok((starts, q)) => match repeat(number_step(d, lim, 5, 0), q, n) {
                Err(e) => Err(e),
                Ok((_, s)) => Ok(((Seq::new(n as nat, |i: int| 32usize), starts), s)),
            },
        }
    } else {
        match repeat(activity_step(d, lim), p, n) {
            Err(e) => Err(e),
            Ok((counts, q)) => match repeat(number_step(d, lim, 5, 1), q, n) {
                Err(e) => Err(e),
                Ok((starts, s)) => Ok(((counts, starts), s)),
            },
        }
    }
}

fn full_activity(n: usize) -> (r: Vec<usize>)
    ensures
        r@ == Seq::new(n as nat, |i: int| 32usize),
{
    let mut r: Vec<usize> = Vec::new();
    while r.len() < n
        invariant
            r@.len() <= n,
            forall|i: int| 0 <= i < r@.len() ==> r@[i] == 32,
        decreases n - r.len(),
    {
        r.push(32);
    }
    assert(r@ =~= Seq::new(n as nat, |i: int| 32usize));
    r
}

fn parse_subbands(gb: &mut BitReader<'_>, kind: Header, n: usize) -> (r: Result<
    (Vec<usize>, Vec<usize>),
    CoreError,
>)
    requires
        old(gb).wf(),
    ensures
        final(gb).wf(),
        final(gb).same_source(old(gb)),
        old(gb).pos() <= final(gb).pos(),
        match (r, subbands(old(gb).data(), old(gb).limit(), old(gb).pos(), kind, n as int)) {
            (Ok((counts, starts)), Ok((want, q))) => {
                &&& want == (counts@, starts@)
                &&& final(gb).pos() == q
                &&& listed(counts@, n as int, 33)
                &&& listed(starts@, n as int, 33)
            },
            (Err(e), Err(f)) => e == f,
            _ => false,
        },
{
    if kind == Header::Extension {
        let starts: Vec<usize> = read_numbers(gb, 5, 1, n)?;
        read_numbers(gb, 5, 0, n)?;
        return Ok((full_activity(n), starts));
    }
    let counts: Vec<usize> = read_activities(gb, n)?;
    let starts: Vec<usize> = read_numbers(gb, 5, 1, n)?;
    Ok((counts, starts))
}

/// The joint source of a channel: an XXCH set counts from its own first
/// channel, and a bare set has none.
pub open spec fn joint_at(d: Seq<u8>, lim: int, q: int, kind: Header, base: int, total: int) -> Result<
    (usize, int),
    CoreError,
> {
    let code = field(d, q, 3);
    let n = if kind == Header::Extension || code == 0 {
        0
    } else if kind == Header::Xxch {
        code + base - 1
    } else {
        code
    };
    if q + 3 > lim {
        short()
    } else if n > total {
        Err(CoreError::Invalid("joint intensity"))
    } else {
        Ok((n as usize, q + 3))
    }
}

pub open spec fn joint_step(d: Seq<u8>, lim: int, kind: Header, base: int, total: int) -> spec_fn(int, int) -> Result<
    (usize, int),
    CoreError,
> {
    |i: int, q: int| joint_at(d, lim, q, kind, base, total)
}

fn read_joint(gb: &mut BitReader<'_>, kind: Header, base: usize, total: usize) -> (r: Result<usize, CoreError>)
    requires
        old(gb).wf(),
        base <= 12,
    ensures
        final(gb).wf(),
        final(gb).same_source(old(gb)),
        parsed(
            r,
            joint_at(old(gb).data(), old(gb).limit(), old(gb).pos(), kind, base as int, total as int),
            final(gb).pos(),
        ),
        old(gb).pos() <= final(gb).pos(),
        r matches Ok(v) ==> v < total + 1,
{
    let code: usize = rb(gb, 3)? as usize;
    let n: usize = if kind == Header::Extension || code == 0 {
        0
    } else if kind == Header::Xxch {
        code + base - 1
    } else {
        code
    };
    if n > total {
        return Err(CoreError::Invalid("joint intensity"));
    }
    Ok(n)
}

fn read_joints(gb: &mut BitReader<'_>, kind: Header, base: usize, total: usize, n: usize) -> (r: Result<Vec<usize>, CoreError>)
    requires
        old(gb).wf(),
        base <= 12,
    ensures
        final(gb).wf(),
        final(gb).same_source(old(gb)),
        old(gb).pos() <= final(gb).pos(),
        match (r, repeat(joint_step(old(gb).data(), old(gb).limit(), kind, base as int, total as int), old(gb).pos(), n as int)) {
            (Ok(v), Ok((want, q))) => v@ == want && v@.len() == n && final(gb).pos() == q,
            (Err(e), Err(f)) => e == f,
            _ => false,
        },
        r matches Ok(v) ==> listed(v@, n as int, total + 1),
{
    let ghost step = joint_step(gb.data(), gb.limit(), kind, base as int, total as int);
    let ghost p = gb.pos();
    let mut items: Vec<usize> = Vec::new();
    while items.len() < n
        invariant
            gb.wf(),
            gb.same_source(old(gb)),
            old(gb).pos() <= gb.pos(),
            p == old(gb).pos(),
            step == joint_step(gb.data(), gb.limit(), kind, base as int, total as int),
            items@.len() <= n,
            repeat(step, p, items@.len() as int) == Ok::<_, CoreError>((items@, gb.pos())),
        base <= 12,
            listed(items@, items@.len() as int, total + 1),
        decreases n - items.len(),
    {
        let ghost before = items@;
        proof {
            lemma_step_err(step, p, items@.len() as int, n as int);
        }
        let item = read_joint(gb, kind, base, total)?;
        items.push(item);
        assert(items@ =~= before.push(item));
    }
    Ok(items)
}

/// A code-book select of three bits, of which 7 is not allowed.
pub open spec fn select_at(d: Seq<u8>, lim: int, q: int, what: &'static str) -> Result<
    (usize, int),
    CoreError,
> {
    if q + 3 > lim {
        short()
    } else if field(d, q, 3) == 7 {
        Err(CoreError::Invalid(what))
    } else {
        Ok((field(d, q, 3) as usize, q + 3))
    }
}

pub open spec fn select_step(d: Seq<u8>, lim: int, what: &'static str) -> spec_fn(int, int) -> Result<
    (usize, int),
    CoreError,
> {
    |i: int, q: int| select_at(d, lim, q, what)
}

pub fn read_select(gb: &mut BitReader<'_>, what: &'static str) -> (r: Result<usize, CoreError>)
    requires
        old(gb).wf(),
    ensures
        final(gb).wf(),
        final(gb).same_source(old(gb)),
        parsed(
            r,
            select_at(old(gb).data(), old(gb).limit(), old(gb).pos(), what),
            final(gb).pos(),
        ),
        old(gb).pos() <= final(gb).pos(),
        r matches Ok(v) ==> v < 7,
{
    let sel: usize = rb(gb, 3)? as usize;
    if sel == 7 {
        return Err(CoreError::Invalid(what));
    }
    Ok(sel)
}

fn read_selects(gb: &mut BitReader<'_>, what: &'static str, n: usize) -> (r: Result<Vec<usize>, CoreError>)
    requires
        old(gb).wf(),
    ensures
        final(gb).wf(),
        final(gb).same_source(old(gb)),
        old(gb).pos() <= final(gb).pos(),
        match (r, repeat(select_step(old(gb).data(), old(gb).limit(), what), old(gb).pos(), n as int)) {
            (Ok(v), Ok((want, q))) => v@ == want && v@.len() == n && final(gb).pos() == q,
            (Err(e), Err(f)) => e == f,
            _ => false,
        },
        r matches Ok(v) ==> listed(v@, n as int, 7),
{
    let ghost step = select_step(gb.data(), gb.limit(), what);
    let ghost p = gb.pos();
    let mut items: Vec<usize> = Vec::new();
    while items.len() < n
        invariant
            gb.wf(),
            gb.same_source(old(gb)),
            old(gb).pos() <= gb.pos(),
            p == old(gb).pos(),
            step == select_step(gb.data(), gb.limit(), what),
            items@.len() <= n,
            repeat(step, p, items@.len() as int) == Ok::<_, CoreError>((items@, gb.pos())),
            listed(items@, items@.len() as int, 7),
        decreases n - items.len(),
    {
        let ghost before = items@;
        proof {
            lemma_step_err(step, p, items@.len() as int, n as int);
        }
        let item = read_select(gb, what)?;
        items.push(item);
        assert(items@ =~= before.push(item));
    }
    Ok(items)
}

/// The book selects of quantizer `b`, channel by channel.
pub open spec fn quant_row(d: Seq<u8>, lim: int, q: int, t: CoreTables, b: int, n: int) -> Result<
    (Seq<usize>, int),
    CoreError,
> {
    repeat(number_step(d, lim, t.quant_sel_nbits@[b] as int, 0), q, n)
}

pub open spec fn quant_step(d: Seq<u8>, lim: int, t: CoreTables, n: int) -> spec_fn(int, int) -> Result<
    (Seq<usize>, int),
    CoreError,
> {
    |i: int, q: int| quant_row(d, lim, q, t, i, n)
}

fn read_quant_rows(gb: &mut BitReader<'_>, t: &CoreTables, n: usize, books: usize) -> (r: Result<Vec<Vec<usize>>, CoreError>)
    requires
        old(gb).wf(),
        t.wf(),
        books == 10,
    ensures
        final(gb).wf(),
        final(gb).same_source(old(gb)),
        old(gb).pos() <= final(gb).pos(),
        match (r, repeat(quant_step(old(gb).data(), old(gb).limit(), *t, n as int), old(gb).pos(), books as int)) {
            (Ok(v), Ok((want, q))) => rows(v@) == want && v@.len() == books && final(gb).pos() == q,
            (Err(e), Err(f)) => e == f,
            _ => false,
        },
        r matches Ok(v) ==> forall|b: int| 0 <= b < v@.len() ==> (#[trigger] v@[b])@.len() == n,
{
    let ghost step = quant_step(gb.data(), gb.limit(), *t, n as int);
    let ghost p = gb.pos();
    let mut items: Vec<Vec<usize>> = Vec::new();
    assert(rows(items@) =~= Seq::empty());
    while items.len() < books
        invariant
            gb.wf(),
            gb.same_source(old(gb)),
            old(gb).pos() <= gb.pos(),
            p == old(gb).pos(),
            step == quant_step(gb.data(), gb.limit(), *t, n as int),
            items@.len() <= books,
            repeat(step, p, items@.len() as int) == Ok::<_, CoreError>((rows(items@), gb.pos())),
        t.wf(),
        books == 10,
            forall|b: int| 0 <= b < items@.len() ==> (#[trigger] items@[b])@.len() == n,
        decreases books - items.len(),
    {
        let ghost before = rows(items@);
        proof {
            lemma_step_err(step, p, items@.len() as int, books as int);
        }
        assert(1 <= t.quant_sel_nbits@[items@.len() as int] <= 8);
        let item = read_numbers(gb, t.quant_sel_nbits[items.len()] as usize, 0, n)?;
        items.push(item);
        assert(rows(items@) =~= before.push(item@));
    }
    Ok(items)
}

/// The scale adjustment of a channel whose quantizer uses a book.
pub open spec fn adjust_at(d: Seq<u8>, lim: int, q: int, t: CoreTables, sel: usize, groups: u8) -> Result<
    (i32, int),
    CoreError,
> {
    if sel >= groups {
        Ok((0i32, q))
    } else if q + 2 > lim {
        short()
    } else {
        Ok((t.scale_adj@[field(d, q, 2)], q + 2))
    }
}

pub open spec fn adjust_step(d: Seq<u8>, lim: int, t: CoreTables, sel: Seq<usize>, groups: u8) -> spec_fn(
    int,
    int,
) -> Result<(i32, int), CoreError> {
    |i: int, q: int| adjust_at(d, lim, q, t, sel[i], groups)
}

fn read_adjust(gb: &mut BitReader<'_>, t: &CoreTables, sel: usize, groups: u8) -> (r: Result<i32, CoreError>)
    requires
        old(gb).wf(),
        t.wf(),
    ensures
        final(gb).wf(),
        final(gb).same_source(old(gb)),
        parsed(
            r,
            adjust_at(old(gb).data(), old(gb).limit(), old(gb).pos(), *t, sel, groups),
            final(gb).pos(),
        ),
        old(gb).pos() <= final(gb).pos(),
        r matches Ok(v) ==> 0 <= v <= 0x7f_ffff,
{
    if sel >= groups as usize {
        return Ok(0);
    }
    let code: usize = rb(gb, 2)? as usize;
    assert(0 <= t.scale_adj@[code as int] <= 0x7f_ffff);
    Ok(t.scale_adj[code])
}

fn read_adjusts(gb: &mut BitReader<'_>, t: &CoreTables, sel: &Vec<usize>, groups: u8) -> (r: Result<Vec<i32>, CoreError>)
    requires
        old(gb).wf(),
        t.wf(),
    ensures
        final(gb).wf(),
        final(gb).same_source(old(gb)),
        old(gb).pos() <= final(gb).pos(),
        match (r, repeat(adjust_step(old(gb).data(), old(gb).limit(), *t, sel@, groups), old(gb).pos(), sel.len() as int)) {
            (Ok(v), Ok((want, q))) => v@ == want && v@.len() == sel.len() && final(gb).pos() == q,
            (Err(e), Err(f)) => e == f,
            _ => false,
        },
        r matches Ok(v) ==> super::core_tables::positive23(v@),
{
    let ghost step = adjust_step(gb.data(), gb.limit(), *t, sel@, groups);
    let ghost p = gb.pos();
    let mut items: Vec<i32> = Vec::new();
    while items.len() < sel.len()
        invariant
            gb.wf(),
            gb.same_source(old(gb)),
            old(gb).pos() <= gb.pos(),
            p == old(gb).pos(),
            step == adjust_step(gb.data(), gb.limit(), *t, sel@, groups),
            items@.len() <= sel.len(),
            repeat(step, p, items@.len() as int) == Ok::<_, CoreError>((items@, gb.pos())),
        t.wf(),
            super::core_tables::positive23(items@),
        decreases sel.len() - items.len(),
    {
        let ghost before = items@;
        proof {
            lemma_step_err(step, p, items@.len() as int, sel.len() as int);
        }
        let item = read_adjust(gb, t, sel[items.len()], groups)?;
        items.push(item);
        assert(items@ =~= before.push(item));
    }
    Ok(items)
}

pub open spec fn adjust_row(d: Seq<u8>, lim: int, q: int, t: CoreTables, sel: Seq<usize>, b: int) -> Result<
    (Seq<i32>, int),
    CoreError,
> {
    repeat(adjust_step(d, lim, t, sel, t.quant_groups@[b]), q, sel.len() as int)
}

pub open spec fn adjust_rows_step(d: Seq<u8>, lim: int, t: CoreTables, sel: Seq<Seq<usize>>) -> spec_fn(
    int,
    int,
) -> Result<(Seq<i32>, int), CoreError> {
    |i: int, q: int| adjust_row(d, lim, q, t, sel[i], i)
}

fn read_adjust_rows(gb: &mut BitReader<'_>, t: &CoreTables, sel: &Vec<Vec<usize>>, n: usize) -> (r: Result<Vec<Vec<i32>>, CoreError>)
    requires
        old(gb).wf(),
        t.wf(),
        sel@.len() == 10,
        forall|b: int| 0 <= b < sel@.len() ==> (#[trigger] sel@[b])@.len() == n,
    ensures
        final(gb).wf(),
        final(gb).same_source(old(gb)),
        old(gb).pos() <= final(gb).pos(),
        match (r, repeat(adjust_rows_step(old(gb).data(), old(gb).limit(), *t, rows(sel@)), old(gb).pos(), sel.len() as int)) {
            (Ok(v), Ok((want, q))) => rows(v@) == want && v@.len() == sel.len() && final(gb).pos() == q,
            (Err(e), Err(f)) => e == f,
            _ => false,
        },
        r matches Ok(v) ==> forall|b: int|
            0 <= b < v@.len() ==> (#[trigger] v@[b])@.len() == n && super::core_tables::positive23(
                v@[b]@,
            ),
{
    let ghost step = adjust_rows_step(gb.data(), gb.limit(), *t, rows(sel@));
    let ghost p = gb.pos();
    let mut items: Vec<Vec<i32>> = Vec::new();
    assert(rows(items@) =~= Seq::empty());
    while items.len() < sel.len()
        invariant
            gb.wf(),
            gb.same_source(old(gb)),
            old(gb).pos() <= gb.pos(),
            p == old(gb).pos(),
            step == adjust_rows_step(gb.data(), gb.limit(), *t, rows(sel@)),
            items@.len() <= sel.len(),
            repeat(step, p, items@.len() as int) == Ok::<_, CoreError>((rows(items@), gb.pos())),
        t.wf(),
        sel@.len() == 10,
        forall|b: int| 0 <= b < sel@.len() ==> (#[trigger] sel@[b])@.len() == n,
            forall|b: int|
                0 <= b < items@.len() ==> (#[trigger] items@[b])@.len() == n
                    && super::core_tables::positive23(items@[b]@),
        decreases sel.len() - items.len(),
    {
        let ghost before = rows(items@);
        proof {
            lemma_step_err(step, p, items@.len() as int, sel.len() as int);
        }
        assert(rows(sel@)[items@.len() as int] == sel@[items@.len() as int]@);
        let item = read_adjusts(gb, t, &sel[items.len()], t.quant_groups[items.len()])?;
        items.push(item);
        assert(rows(items@) =~= before.push(item@));
    }
    Ok(items)
}

/// The joint sources and selects of a set.
pub open spec fn selects(d: Seq<u8>, lim: int, p: int, kind: Header, base: int, total: int, n: int) -> Result<
    ((Seq<usize>, Seq<usize>, Seq<usize>, Seq<usize>), int),
    CoreError,
> {
    match repeat(joint_step(d, lim, kind, base, total), p, n) {
        Err(e) => Err(e),
        Ok((joint, a)) => match repeat(number_step(d, lim, 2, 0), a, n) {
            Err(e) => Err(e),
            Ok((transition, b)) => match repeat(select_step(d, lim, "scale factor codebook"), b, n) {
                Err(e) => Err(e),
                Ok((scale, c)) => match repeat(select_step(d, lim, "bit allocation select"), c, n) {
                    Err(e) => Err(e),
                    Ok((alloc, s)) => Ok(((joint, transition, scale, alloc), s)),
                },
            },
        },
    }
}

fn parse_selects(gb: &mut BitReader<'_>, kind: Header, base: usize, total: usize, n: usize) -> (r: Result<
    (Vec<usize>, Vec<usize>, Vec<usize>, Vec<usize>),
    CoreError,
>)
    requires
        old(gb).wf(),
        base <= 12,
    ensures
        final(gb).wf(),
        final(gb).same_source(old(gb)),
        old(gb).pos() <= final(gb).pos(),
        match (
            r,
            selects(
                old(gb).data(),
                old(gb).limit(),
                old(gb).pos(),
                kind,
                base as int,
                total as int,
                n as int,
            ),
        ) {
            (Ok(v), Ok((want, q))) => {
                &&& want == (v.0@, v.1@, v.2@, v.3@)
                &&& final(gb).pos() == q
                &&& listed(v.0@, n as int, total + 1)
                &&& listed(v.1@, n as int, 4)
                &&& listed(v.2@, n as int, 7)
                &&& listed(v.3@, n as int, 7)
            },
            (Err(e), Err(f)) => e == f,
            _ => false,
        },
{
    let joint: Vec<usize> = read_joints(gb, kind, base, total, n)?;
    let transition: Vec<usize> = read_numbers(gb, 2, 0, n)?;
    let scale: Vec<usize> = read_selects(gb, "scale factor codebook", n)?;
    let alloc: Vec<usize> = read_selects(gb, "bit allocation select", n)?;
    Ok((joint, transition, scale, alloc))
}

/// The coding parameters that every kind of header carries.
pub open spec fn set_coding(
    d: Seq<u8>,
    lim: int,
    p: int,
    t: CoreTables,
    kind: Header,
    base: int,
    n: int,
) -> Result<(SetModel, int), CoreError> {
    match subbands(d, lim, p, kind, n) {
        Err(e) => Err(e),
        Ok(((nsubbands, vq_start), a)) => match selects(d, lim, a, kind, base, base + n, n) {
            Err(e) => Err(e),
            Ok(((joint, transition_sel, scale_sel, alloc_sel), b)) => match repeat(
                quant_step(d, lim, t, n),
                b,
                10,
            ) {
                Err(e) => Err(e),
                Ok((quant_sel, c)) => match repeat(adjust_rows_step(d, lim, t, quant_sel), c, 10) {
                    Err(e) => Err(e),
                    Ok((adjust, s)) => Ok(
                        (
                            SetModel {
                                nsubbands,
                                vq_start,
                                joint,
                                transition_sel,
                                scale_sel,
                                alloc_sel,
                                quant_sel,
                                adjust,
                            },
                            s,
                        ),
                    ),
                },
            },
        },
    }
}

pub fn parse_set_coding(gb: &mut BitReader<'_>, t: &CoreTables, kind: Header, base: usize, n: usize) -> (r: Result<SetCoding, CoreError>)
    requires
        old(gb).wf(),
        t.wf(),
        base <= 12,
        n <= 12,
    ensures
        final(gb).wf(),
        final(gb).same_source(old(gb)),
        parsed_view(
            r,
            set_coding(old(gb).data(), old(gb).limit(), old(gb).pos(), *t, kind, base as int, n as int),
            final(gb).pos(),
        ),
        old(gb).pos() <= final(gb).pos(),
        r matches Ok(v) ==> v.wf(n as int, base + n),
{
    let (nsubbands, vq_start): (Vec<usize>, Vec<usize>) = parse_subbands(gb, kind, n)?;
    let (joint, transition_sel, scale_sel, alloc_sel): (
        Vec<usize>,
        Vec<usize>,
        Vec<usize>,
        Vec<usize>,
    ) = parse_selects(gb, kind, base, base + n, n)?;
    let quant_sel: Vec<Vec<usize>> = read_quant_rows(gb, t, n, 10)?;
    let adjust: Vec<Vec<i32>> = read_adjust_rows(gb, t, &quant_sel, n)?;
    Ok(
        SetCoding {
            nsubbands,
            vq_start,
            joint,
            transition_sel,
            scale_sel,
            alloc_sel,
            quant_sel,
            adjust,
        },
    )
}

/// True when the `size` bytes at bit `p` stand on a byte, inside the data, and
/// end in their own checksum.
pub open spec fn checked(d: Seq<u8>, p: int, size: int) -> bool {
    p % 8 == 0 && p / 8 + size <= d.len() && crc_of(d.subrange(p / 8, p / 8 + size)) == 0
}

pub fn crc_clean(data: &[u8], pos: usize, nbytes: usize) -> (r: bool)
    requires
        nbytes <= 0x1000,
    ensures
        r == checked(data@, pos as int, nbytes as int),
{
    if pos % 8 != 0 {
        return false;
    }
    let from: usize = pos / 8;
    if data.len() < nbytes || from > data.len() - nbytes {
        return false;
    }
    crc16_ccitt(vstd::slice::slice_subrange(data, from, from + nbytes)) == 0
}

/// Head of a bare set: its size, under a checksum, and three clear bits.
pub open spec fn bare_head(d: Seq<u8>, lim: int, p: int) -> Result<(usize, int), CoreError> {
    let size = field(d, p, 8) + 1;
    if p + 8 > lim {
        short()
    } else if !checked(d, p, size) {
        Err(CoreError::Invalid("extension set header crc"))
    } else if p + 11 > lim {
        short()
    } else if field(d, p + 8, 3) != 0 {
        Err(CoreError::Unsupported("extension set header flags"))
    } else {
        Ok((size as usize, p + 11))
    }
}

fn parse_bare_head(gb: &mut BitReader<'_>, data: &[u8]) -> (r: Result<usize, CoreError>)
    requires
        old(gb).wf(),
        old(gb).data() == data@,
    ensures
        final(gb).wf(),
        final(gb).same_source(old(gb)),
        old(gb).pos() <= final(gb).pos(),
        parsed(r, bare_head(old(gb).data(), old(gb).limit(), old(gb).pos()), final(gb).pos()),
        r matches Ok(v) ==> v <= 256,
{
    let start: usize = gb.position();
    let size: usize = rb(gb, 8)? as usize + 1;
    if !crc_clean(data, start, size) {
        return Err(CoreError::Invalid("extension set header crc"));
    }
    if rb(gb, 3)? != 0 {
        return Err(CoreError::Unsupported("extension set header flags"));
    }
    Ok(size)
}

/// Move to the end that a header at `p` states.
pub open spec fn header_end(lim: int, p: int, size: int, pos: int) -> Result<int, CoreError> {
    let end = p + 8 * size;
    if pos > end || end > lim {
        Err(CoreError::Invalid("channel set header size"))
    } else {
        Ok(end)
    }
}

fn seek_header_end(gb: &mut BitReader<'_>, start: usize, size: usize) -> (r: Result<(), CoreError>)
    requires
        old(gb).wf(),
        start <= old(gb).pos(),
        size <= 0x1000,
    ensures
        final(gb).wf(),
        final(gb).same_source(old(gb)),
        match (r, header_end(old(gb).limit(), start as int, size as int, old(gb).pos())) {
            (Ok(_), Ok(end)) => final(gb).pos() == end,
            (Err(e), Err(f)) => e == f,
            _ => false,
        },
{
    let used: usize = gb.position() - start;
    if used > 8 * size || gb.skip_bits(8 * size - used).is_none() {
        return Err(CoreError::Invalid("channel set header size"));
    }
    Ok(())
}

/// The coding header of the primary set: counts and parameters, and a
/// checksum that is not read.
#[verifier::opaque]
pub open spec fn core_coding(d: Seq<u8>, lim: int, p: int, t: CoreTables, mode: AudioMode, crc: bool) -> Result<
    ((usize, SetModel), int),
    CoreError,
> {
    match core_counts(d, lim, p, mode) {
        Err(e) => Err(e),
        Ok(((nsubframes, n), a)) => match set_coding(d, lim, a, t, Header::Core, 0, n as int) {
            Err(e) => Err(e),
            Ok((set, b)) => if !crc {
                Ok(((nsubframes, set), b))
            } else if b + 16 > lim {
                short()
            } else {
                Ok(((nsubframes, set), b + 16))
            },
        },
    }
}

pub fn parse_core_coding(gb: &mut BitReader<'_>, t: &CoreTables, mode: AudioMode, crc: bool) -> (r: Result<
    (usize, SetCoding),
    CoreError,
>)
    requires
        old(gb).wf(),
        t.wf(),
    ensures
        final(gb).wf(),
        final(gb).same_source(old(gb)),
        match (r, core_coding(old(gb).data(), old(gb).limit(), old(gb).pos(), *t, mode, crc)) {
            (Ok((a, set)), Ok((want, q))) => {
                &&& want == (a, set@)
                &&& 1 <= a <= 16
                &&& set.wf(mode_channels(mode), mode_channels(mode))
                &&& final(gb).pos() == q
            },
            (Err(e), Err(f)) => e == f,
            _ => false,
        },
{
    reveal(core_coding);
    let (nsubframes, n): (usize, usize) = parse_core_counts(gb, mode)?;
    let set: SetCoding = parse_set_coding(gb, t, Header::Core, 0, n)?;
    if crc {
        rb(gb, 16)?;
    }
    Ok((nsubframes, set))
}

/// The coding header of an XXCH set whose first channel is `base`.
#[verifier::opaque]
pub open spec fn xxch_coding(
    d: Seq<u8>,
    lim: int,
    p: int,
    t: CoreTables,
    base: int,
    nbits: int,
    core_mask: u32,
) -> Result<((XxchHeadModel, SetModel), int), CoreError> {
    match xxch_head(d, lim, p, t, nbits, core_mask) {
        Err(e) => Err(e),
        Ok((head, a)) => match set_coding(d, lim, a, t, Header::Xxch, base, head.nchannels as int) {
            Err(e) => Err(e),
            Ok((set, b)) => match header_end(lim, p, head.header_size as int, b) {
                Err(e) => Err(e),
                Ok(end) => Ok(((head, set), end)),
            },
        },
    }
}

pub fn parse_xxch_coding(
    gb: &mut BitReader<'_>,
    t: &CoreTables,
    base: usize,
    nbits: usize,
    core_mask: u32,
) -> (r: Result<(XxchHead, SetCoding), CoreError>)
    requires
        old(gb).wf(),
        t.wf(),
        base <= 5,
        7 <= nbits <= 32,
    ensures
        final(gb).wf(),
        final(gb).same_source(old(gb)),
        match (
            r,
            xxch_coding(
                old(gb).data(),
                old(gb).limit(),
                old(gb).pos(),
                *t,
                base as int,
                nbits as int,
                core_mask,
            ),
        ) {
            (Ok((head, set)), Ok((want, q))) => {
                &&& want == (head@, set@)
                &&& 1 <= head.nchannels <= 2
                &&& set.wf(head.nchannels as int, base + head.nchannels)
                &&& final(gb).pos() == q
                &&& head.downmix.embedded ==> head.downmix.masks@.len() == head.nchannels
                &&& head.downmix.embedded ==> head.downmix.coeff@.len() == ones_of(
                    head.downmix.masks@,
                    head.nchannels as int,
                )
            },
            (Err(e), Err(f)) => e == f,
            _ => false,
        },
{
    reveal(xxch_coding);
    let start: usize = gb.position();
    let head: XxchHead = parse_xxch_head(gb, t, nbits, core_mask)?;
    let set: SetCoding = parse_set_coding(gb, t, Header::Xxch, base, head.nchannels)?;
    seek_header_end(gb, start, head.header_size)?;
    Ok((head, set))
}

/// The coding header of a bare set of `n` channels from channel `base` on.
#[verifier::opaque]
pub open spec fn bare_coding(d: Seq<u8>, lim: int, p: int, t: CoreTables, base: int, n: int) -> Result<
    (SetModel, int),
    CoreError,
> {
    match bare_head(d, lim, p) {
        Err(e) => Err(e),
        Ok((size, a)) => match set_coding(d, lim, a, t, Header::Extension, base, n) {
            Err(e) => Err(e),
            Ok((set, b)) => match header_end(lim, p, size as int, b) {
                Err(e) => Err(e),
                Ok(end) => Ok((set, end)),
            },
        },
    }
}

pub fn parse_bare_coding(
    gb: &mut BitReader<'_>,
    data: &[u8],
    t: &CoreTables,
    base: usize,
    n: usize,
) -> (r: Result<SetCoding, CoreError>)
    requires
        old(gb).wf(),
        old(gb).data() == data@,
        t.wf(),
        base + n <= 12,
        n > 0,
    ensures
        final(gb).wf(),
        final(gb).same_source(old(gb)),
        parsed_view(
            r,
            bare_coding(
                old(gb).data(),
                old(gb).limit(),
                old(gb).pos(),
                *t,
                base as int,
                n as int,
            ),
            final(gb).pos(),
        ),
        r matches Ok(v) ==> v.wf(n as int, base + n),
{
    reveal(bare_coding);
    let start: usize = gb.position();
    let size: usize = parse_bare_head(gb, data)?;
    let set: SetCoding = parse_set_coding(gb, t, Header::Extension, base, n)?;
    seek_header_end(gb, start, size)?;
    Ok(set)
}


} // verus!
