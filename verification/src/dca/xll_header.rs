//! Channel-set headers of the lossless layer.

use vstd::prelude::*;
use crate::bits::{
    code_space, count_ones, field, flag, has_bit, lemma_field_range, ones, ones_below, test_bit,
    BitReader,
};
use crate::grammar::{lemma_repeat_err, parsed, parsed_view, repeat, rows};
use super::core_tables::none_negative;
use super::exss::{sampling_freq, SAMPLING_FREQS};
use super::fixed::{mul16, scaled, unfold, unfolded};
use super::xll_error::XllError;

verus! {

/// A field runs past the end.
pub open spec fn short<T>() -> Result<(T, int), XllError> {
    Err(XllError::Bitstream)
}

pub fn rb(gb: &mut BitReader<'_>, n: usize) -> (r: Result<u32, XllError>)
    requires
        old(gb).wf(),
        1 <= n <= 32,
    ensures
        final(gb).wf(),
        final(gb).same_source(old(gb)),
        old(gb).pos() <= final(gb).pos(),
        match r {
            Ok(v) => {
                &&& old(gb).has(n as int)
                &&& v as int == field(old(gb).data(), old(gb).pos(), n as int)
                &&& (v as int) < code_space(n as int)
                &&& final(gb).pos() == old(gb).pos() + n
            },
            Err(e) => !old(gb).has(n as int) && e == XllError::Bitstream,
        },
{
    match gb.read_bits(n) {
        Some(v) => Ok(v),
        None => Err(XllError::Bitstream),
    }
}

pub fn rb1(gb: &mut BitReader<'_>) -> (r: Result<bool, XllError>)
    requires
        old(gb).wf(),
    ensures
        final(gb).wf(),
        final(gb).same_source(old(gb)),
        old(gb).pos() <= final(gb).pos(),
        match r {
            Ok(v) => {
                &&& old(gb).has(1)
                &&& v == flag(old(gb).data(), old(gb).pos())
                &&& final(gb).pos() == old(gb).pos() + 1
            },
            Err(e) => !old(gb).has(1) && e == XllError::Bitstream,
        },
{
    match gb.read_bit() {
        Some(v) => Ok(v),
        None => Err(XllError::Bitstream),
    }
}

/// Constant tables of the lossless layer.
#[derive(Clone, Debug)]
pub struct XllTables {
    /// Downmix gains.
    pub dmix: [u16; 242],
    /// Inverse downmix gains, from gain 41 on.
    pub inv_dmix: [i32; 201],
    /// Channels of each primary downmix type.
    pub primary_nch: [u8; 8],
    /// Reflection coefficients.
    pub refl_coeff: [u16; 128],
}

impl XllTables {
    /// Inverse gains are not negative.
    pub open spec fn wf(&self) -> bool {
        forall|i: int| 0 <= i < 201 ==> 0 <= #[trigger] self.inv_dmix@[i]
    }

    /// Whether the tables are fit to decode with.
    pub fn is_valid(&self) -> (r: bool)
        ensures
            r == self.wf(),
    {
        none_negative(&self.inv_dmix)
    }
}

/// What all channel sets of a frame share.
#[derive(Clone, Copy, Debug, PartialEq, Eq)]
pub struct XllFrame {
    pub frame_size: u64,
    pub nchsets: usize,
    pub nframesegs: usize,
    pub nsegsamples_log2: usize,
    pub nsegsamples: usize,
    pub nframesamples: usize,
    pub seg_size_nbits: usize,
    pub band_crc_present: u32,
    pub scalable_lsbs: bool,
    pub ch_mask_nbits: usize,
    pub fixed_lsb_width: usize,
}

impl XllFrame {
    pub open spec fn wf(&self) -> bool {
        &&& 1 <= self.frame_size <= 0x1_0000_0000
        &&& 1 <= self.nchsets <= 3
        &&& 1 <= self.nframesegs <= 0x8000
        &&& 1 <= self.nsegsamples_log2 <= 15
        &&& self.nsegsamples == code_space(self.nsegsamples_log2 as int)
        &&& self.nframesamples == self.nframesegs * self.nsegsamples
        &&& self.nframesamples <= 65536
        &&& 1 <= self.seg_size_nbits <= 32
        &&& self.band_crc_present < 4
        &&& 1 <= self.ch_mask_nbits <= 32
        &&& self.fixed_lsb_width <= 15
    }
}

/// How a channel set names its speakers.
#[derive(Clone, Copy, Debug, PartialEq, Eq)]
pub enum ChsMappingSyntax {
    /// As the asset's one-to-one flag says; `allow_unmapped` is for a set
    /// that names no speakers.
    Asset { one_to_one: bool, is_primary: bool, allow_unmapped: bool },
    /// Bits in front of a set that names no speakers.
    AlternatePrefix(usize),
}

/// The fields every channel-set header starts with.
#[derive(Clone, Copy, Debug, PartialEq, Eq)]
pub struct SetHead {
    pub header_size: usize,
    pub nchannels: usize,
    /// One bit per channel that is coded without the core.
    pub residual_encode: u32,
    pub pcm_bit_res: usize,
    pub storage_bit_res: usize,
    pub freq: u32,
}

pub open spec fn head_wf(v: SetHead) -> bool {
    &&& 1 <= v.header_size <= 1024
    &&& 1 <= v.nchannels <= 8
    &&& v.storage_bit_res == 16 || v.storage_bit_res == 20 || v.storage_bit_res == 24
    &&& 1 <= v.pcm_bit_res <= v.storage_bit_res
    &&& v.freq <= 96000
}

pub open spec fn set_head(d: Seq<u8>, lim: int, p: int) -> Result<(SetHead, int), XllError> {
    let n = field(d, p + 10, 4) + 1;
    let q = p + 14 + n;
    let pcm = field(d, q, 5) + 1;
    let storage = field(d, q + 5, 5) + 1;
    let freq = SAMPLING_FREQS@[field(d, q + 10, 4)];
    if p + 14 > lim {
        short()
    } else if n > 8 {
        Err(XllError::Unsupported("too many XLL channels"))
    } else if q + 10 > lim {
        short()
    } else if storage != 16 && storage != 20 && storage != 24 {
        Err(XllError::Unsupported("XLL storage resolution"))
    } else if pcm > storage {
        Err(XllError::Invalid("XLL pcm > storage bit res"))
    } else if q + 14 > lim {
        short()
    } else if freq > 96000 {
        Err(XllError::Unsupported("XLL > 96 kHz"))
    } else if q + 16 > lim {
        short()
    } else if field(d, q + 14, 2) != 0 {
        Err(XllError::Unsupported("XLL sampling freq modifier"))
    } else if q + 18 > lim {
        short()
    } else if field(d, q + 16, 2) != 0 {
        Err(XllError::Unsupported("XLL replacement set"))
    } else {
        Ok(
            (
                SetHead {
                    header_size: (field(d, p, 10) + 1) as usize,
                    nchannels: n as usize,
                    residual_encode: field(d, p + 14, n) as u32,
                    pcm_bit_res: pcm as usize,
                    storage_bit_res: storage as usize,
                    freq,
                },
                q + 18,
            ),
        )
    }
}

fn parse_set_head(gb: &mut BitReader<'_>) -> (r: Result<SetHead, XllError>)
    requires
        old(gb).wf(),
    ensures
        final(gb).wf(),
        final(gb).same_source(old(gb)),
        parsed(
            r,
            set_head(old(gb).data(), old(gb).limit(), old(gb).pos()),
            final(gb).pos(),
        ),
        old(gb).pos() <= final(gb).pos(),
        r matches Ok(v) ==> head_wf(v),
{
    let header_size: usize = rb(gb, 10)? as usize + 1;
    let nchannels: usize = rb(gb, 4)? as usize + 1;
    if nchannels > 8 {
        return Err(XllError::Unsupported("too many XLL channels"));
    }
    let residual_encode: u32 = rb(gb, nchannels)?;
    let pcm_bit_res: usize = rb(gb, 5)? as usize + 1;
    let storage_bit_res: usize = rb(gb, 5)? as usize + 1;
    if storage_bit_res != 16 && storage_bit_res != 20 && storage_bit_res != 24 {
        return Err(XllError::Unsupported("XLL storage resolution"));
    }
    if pcm_bit_res > storage_bit_res {
        return Err(XllError::Invalid("XLL pcm > storage bit res"));
    }
    let freq: u32 = sampling_freq(rb(gb, 4)? as usize);
    if freq > 96000 {
        return Err(XllError::Unsupported("XLL > 96 kHz"));
    }
    if rb(gb, 2)? != 0 {
        return Err(XllError::Unsupported("XLL sampling freq modifier"));
    }
    if rb(gb, 2)? != 0 {
        return Err(XllError::Unsupported("XLL replacement set"));
    }
    Ok(SetHead { header_size, nchannels, residual_encode, pcm_bit_res, storage_bit_res, freq })
}

/// A nine-bit gain code: the low byte picks a gain, the top bit clear negates it.
pub open spec fn code_signed(value: int, code: int) -> int {
    if code >= 256 { value } else { -value }
}

/// One row of a downmix: what one channel took from each channel of the set.
#[derive(Clone, Debug)]
pub struct DownmixRow {
    pub scale: i32,
    pub scale_inv: i32,
    pub coeff: Vec<i32>,
}

pub ghost struct DownmixRowModel {
    pub scale: i32,
    pub scale_inv: i32,
    pub coeff: Seq<i32>,
}

impl View for DownmixRow {
    type V = DownmixRowModel;

    open spec fn view(&self) -> DownmixRowModel {
        DownmixRowModel { scale: self.scale, scale_inv: self.scale_inv, coeff: self.coeff@ }
    }
}

pub open spec fn row_views(v: Seq<DownmixRow>) -> Seq<DownmixRowModel> {
    Seq::new(v.len(), |i: int| v[i]@)
}

/// The gain of a coefficient, scaled by the row's own inverse gain if it has
/// one.
pub open spec fn gain_at(d: Seq<u8>, lim: int, q: int, t: XllTables, inverse: Option<i32>) -> Result<
    (i32, int),
    XllError,
> {
    let code = field(d, q, 9);
    if q + 9 > lim {
        short()
    } else if code % 256 >= 242 {
        Err(XllError::Invalid("XLL downmix coeff index"))
    } else {
        let gain = t.dmix@[code % 256] as int;
        let value = match inverse {
            Some(inv) => scaled(inv as int, gain, 16),
            None => gain,
        };
        Ok((code_signed(value, code) as i32, q + 9))
    }
}

pub open spec fn gain_step(d: Seq<u8>, lim: int, t: XllTables, inverse: Option<i32>) -> spec_fn(
    int,
    int,
) -> Result<(i32, int), XllError> {
    |i: int, q: int| gain_at(d, lim, q, t, inverse)
}

pub open spec fn downmix_row(
    d: Seq<u8>,
    lim: int,
    p: int,
    t: XllTables,
    primary: bool,
    n: int,
) -> Result<(DownmixRowModel, int), XllError> {
    let code = field(d, p, 9);
    let index = code % 256;
    if primary {
        match repeat(gain_step(d, lim, t, None), p, n) {
            Err(e) => Err(e),
            Ok((coeff, q)) => Ok((DownmixRowModel { scale: 0, scale_inv: 0, coeff }, q)),
        }
    } else if p + 9 > lim {
        short()
    } else if index < 41 || index >= 242 {
        Err(XllError::Invalid("XLL downmix scale index"))
    } else {
        let inv = t.inv_dmix@[index - 41];
        match repeat(gain_step(d, lim, t, Some(inv)), p + 9, n) {
            Err(e) => Err(e),
            Ok((coeff, q)) => Ok(
                (
                    DownmixRowModel {
                        scale: code_signed(t.dmix@[index] as int, code) as i32,
                        scale_inv: code_signed(inv as int, code) as i32,
                        coeff,
                    },
                    q,
                ),
            ),
        }
    }
}

proof fn lemma_gain_range(inv: i32, gain: u16)
    requires
        0 <= inv,
    ensures
        0 <= scaled(inv as int, gain as int, 16) <= 0x7fff_ffff,
{
    assert(0 <= inv * gain <= 0x7fff_ffff * 0xffff) by (nonlinear_arith)
        requires
            0 <= inv <= 0x7fff_ffff,
            0 <= gain <= 0xffff,
    ;
}

fn read_gain(gb: &mut BitReader<'_>, t: &XllTables, inverse: Option<i32>) -> (r: Result<i32, XllError>)
    requires
        old(gb).wf(),
        inverse matches Some(v) ==> v >= 0,
    ensures
        final(gb).wf(),
        final(gb).same_source(old(gb)),
        parsed(
            r,
            gain_at(old(gb).data(), old(gb).limit(), old(gb).pos(), *t, inverse),
            final(gb).pos(),
        ),
        old(gb).pos() <= final(gb).pos(),
{
    let code: u32 = rb(gb, 9)?;
    let index: usize = (code % 256) as usize;
    if index >= 242 {
        return Err(XllError::Invalid("XLL downmix coeff index"));
    }
    let gain: u16 = t.dmix[index];
    let value: i32 = match inverse {
        Some(inv) => {
            proof {
                lemma_gain_range(inv, gain);
            }
            mul16(inv, gain as i32)
        },
        None => gain as i32,
    };
    Ok(if code >= 256 { value } else { -value })
}

/// A step that fails decides the whole repetition.
pub proof fn lemma_repeat_err_of<T>(
    step: spec_fn(int, int) -> Result<(T, int), XllError>,
    p: int,
    k: int,
    n: int,
)
    requires
        0 <= k < n,
    ensures
        repeat(step, p, k + 1) is Err ==> repeat(step, p, n) == repeat(step, p, k + 1),
{
    if repeat(step, p, k + 1) is Err {
        lemma_repeat_err(step, p, k + 1, n);
    }
}

fn read_gains(gb: &mut BitReader<'_>, t: &XllTables, inverse: Option<i32>, n: usize) -> (r: Result<Vec<i32>, XllError>)
    requires
        old(gb).wf(),
        inverse matches Some(v) ==> v >= 0,
    ensures
        final(gb).wf(),
        final(gb).same_source(old(gb)),
        old(gb).pos() <= final(gb).pos(),
        match (r, repeat(gain_step(old(gb).data(), old(gb).limit(), *t, inverse), old(gb).pos(), n as int)) {
            (Ok(v), Ok((want, q))) => v@ == want && v@.len() == n && final(gb).pos() == q,
            (Err(e), Err(f)) => e == f,
            _ => false,
        },
{
    let ghost step = gain_step(gb.data(), gb.limit(), *t, inverse);
    let ghost p = gb.pos();
    let mut items: Vec<i32> = Vec::new();
    while items.len() < n
        invariant
            gb.wf(),
            gb.same_source(old(gb)),
            old(gb).pos() <= gb.pos(),
            p == old(gb).pos(),
            step == gain_step(gb.data(), gb.limit(), *t, inverse),
            items@.len() <= n,
            repeat(step, p, items@.len() as int) == Ok::<_, XllError>((items@, gb.pos())),
        inverse matches Some(v) ==> v >= 0,
        decreases n - items.len(),
    {
        let ghost before = items@;
        proof {
            lemma_repeat_err_of(step, p, items@.len() as int, n as int);
        }
        let item = read_gain(gb, t, inverse)?;
        items.push(item);
        assert(items@ =~= before.push(item));
    }
    Ok(items)
}

pub open spec fn downmix_step(d: Seq<u8>, lim: int, t: XllTables, primary: bool, n: int) -> spec_fn(
    int,
    int,
) -> Result<(DownmixRowModel, int), XllError> {
    |i: int, q: int| downmix_row(d, lim, q, t, primary, n)
}

fn read_downmix_row(gb: &mut BitReader<'_>, t: &XllTables, primary: bool, n: usize) -> (r: Result<DownmixRow, XllError>)
    requires
        old(gb).wf(),
        t.wf(),
    ensures
        final(gb).wf(),
        final(gb).same_source(old(gb)),
        parsed_view(
            r,
            downmix_row(old(gb).data(), old(gb).limit(), old(gb).pos(), *t, primary, n as int),
            final(gb).pos(),
        ),
        old(gb).pos() <= final(gb).pos(),
        r matches Ok(v) ==> v.coeff@.len() == n,
{
    if primary {
        let coeff: Vec<i32> = read_gains(gb, t, None, n)?;
        return Ok(DownmixRow { scale: 0, scale_inv: 0, coeff });
    }
    let code: u32 = rb(gb, 9)?;
    let index: usize = (code % 256) as usize;
    if index < 41 || index >= 242 {
        return Err(XllError::Invalid("XLL downmix scale index"));
    }
    let gain: i32 = t.dmix[index] as i32;
    let inv: i32 = t.inv_dmix[index - 41];
    assert(t.inv_dmix@[index - 41] >= 0);
    let coeff: Vec<i32> = read_gains(gb, t, Some(inv), n)?;
    Ok(
        DownmixRow {
            scale: if code >= 256 { gain } else { -gain },
            scale_inv: if code >= 256 { inv } else { -inv },
            coeff,
        },
    )
}

fn read_downmix(gb: &mut BitReader<'_>, t: &XllTables, primary: bool, n: usize, m: usize) -> (r: Result<Vec<DownmixRow>, XllError>)
    requires
        old(gb).wf(),
        t.wf(),
    ensures
        final(gb).wf(),
        final(gb).same_source(old(gb)),
        old(gb).pos() <= final(gb).pos(),
        match (r, repeat(downmix_step(old(gb).data(), old(gb).limit(), *t, primary, n as int), old(gb).pos(), m as int)) {
            (Ok(v), Ok((want, q))) => row_views(v@) == want && v@.len() == m && final(gb).pos() == q,
            (Err(e), Err(f)) => e == f,
            _ => false,
        },
        r matches Ok(v) ==> forall|i: int| 0 <= i < v@.len() ==> #[trigger] v@[i].coeff@.len() == n,
{
    let ghost step = downmix_step(gb.data(), gb.limit(), *t, primary, n as int);
    let ghost p = gb.pos();
    let mut items: Vec<DownmixRow> = Vec::new();
    assert(row_views(items@) =~= Seq::empty());
    while items.len() < m
        invariant
            gb.wf(),
            gb.same_source(old(gb)),
            old(gb).pos() <= gb.pos(),
            p == old(gb).pos(),
            step == downmix_step(gb.data(), gb.limit(), *t, primary, n as int),
            items@.len() <= m,
            repeat(step, p, items@.len() as int) == Ok::<_, XllError>((row_views(items@), gb.pos())),
        t.wf(),
            forall|i: int| 0 <= i < items@.len() ==> #[trigger] items@[i].coeff@.len() == n,
        decreases m - items.len(),
    {
        let ghost before = row_views(items@);
        proof {
            lemma_repeat_err_of(step, p, items@.len() as int, m as int);
        }
        let item = read_downmix_row(gb, t, primary, n)?;
        items.push(item);
        assert(row_views(items@) =~= before.push(item@));
    }
    Ok(items)
}

/// The speakers of a set and what earlier sets took from it.
#[derive(Clone, Debug)]
pub struct SetMapping {
    pub primary_chset: bool,
    pub dmix_coeffs_present: bool,
    pub dmix_embedded: bool,
    pub dmix_type: usize,
    pub hier_chset: bool,
    pub downmix: Vec<DownmixRow>,
    pub ch_mask: u32,
    /// Speaker of each channel; the channel's own index in a set that names
    /// no speakers.
    pub ch_remap: Vec<usize>,
}

pub ghost struct SetMappingModel {
    pub primary_chset: bool,
    pub dmix_coeffs_present: bool,
    pub dmix_embedded: bool,
    pub dmix_type: usize,
    pub hier_chset: bool,
    pub downmix: Seq<DownmixRowModel>,
    pub ch_mask: u32,
    pub ch_remap: Seq<usize>,
}

impl View for SetMapping {
    type V = SetMappingModel;

    open spec fn view(&self) -> SetMappingModel {
        SetMappingModel {
            primary_chset: self.primary_chset,
            dmix_coeffs_present: self.dmix_coeffs_present,
            dmix_embedded: self.dmix_embedded,
            dmix_type: self.dmix_type,
            hier_chset: self.hier_chset,
            downmix: row_views(self.downmix@),
            ch_mask: self.ch_mask,
            ch_remap: self.ch_remap@,
        }
    }
}

/// Positions of the set bits among the lowest `n` of a mask, lowest first.
pub open spec fn bit_positions(mask: u32, n: int) -> Seq<usize>
    decreases n,
{
    if n <= 0 {
        Seq::empty()
    } else if has_bit(mask, n - 1) {
        bit_positions(mask, n - 1).push((n - 1) as usize)
    } else {
        bit_positions(mask, n - 1)
    }
}

/// A mask has as many positions as bits, each below `n`.
pub proof fn lemma_positions(mask: u32, n: int)
    requires
        n <= 32,
    ensures
        bit_positions(mask, n).len() == ones_below(mask, n),
        forall|i: int| 0 <= i < bit_positions(mask, n).len() ==> #[trigger] bit_positions(mask, n)[i] < n,
    decreases n,
{
    if n > 0 {
        lemma_positions(mask, n - 1);
    }
}

pub fn mask_positions(mask: u32) -> (r: Vec<usize>)
    ensures
        r@ == bit_positions(mask, 32),
        r@.len() == ones(mask),
        forall|i: int| 0 <= i < r@.len() ==> #[trigger] r@[i] < 32,
{
    let mut r: Vec<usize> = Vec::new();
    let mut i: u32 = 0;
    while i < 32
        invariant
            i <= 32,
            r@ == bit_positions(mask, i as int),
        decreases 32 - i,
    {
        if test_bit(mask, i) {
            r.push(i as usize);
        }
        i = i + 1;
    }
    proof {
        lemma_positions(mask, 32);
    }
    r
}

/// Channel `i` of a set that names no speakers.
pub open spec fn identity(n: int) -> Seq<usize> {
    Seq::new(n as nat, |i: int| i as usize)
}

fn count_up(n: usize) -> (r: Vec<usize>)
    ensures
        r@ == identity(n as int),
{
    let mut r: Vec<usize> = Vec::new();
    while r.len() < n
        invariant
            r@.len() <= n,
            forall|i: int| 0 <= i < r@.len() ==> r@[i] == i,
        decreases n - r.len(),
    {
        let i: usize = r.len();
        r.push(i);
    }
    assert(r@ =~= identity(n as int));
    r
}

/// Downmix flags of a set with named speakers.
#[derive(Clone, Copy, Debug, PartialEq, Eq)]
pub struct DownmixFlags {
    pub primary: bool,
    pub present: bool,
    pub embedded: bool,
    pub kind: usize,
}

pub open spec fn downmix_flags(d: Seq<u8>, lim: int, p: int, is_primary: bool) -> Result<
    (DownmixFlags, int),
    XllError,
> {
    let primary = flag(d, p);
    if p + 1 > lim {
        short()
    } else if primary != is_primary {
        Err(XllError::Invalid("first XLL chset must be primary"))
    } else if p + 2 > lim {
        short()
    } else if !flag(d, p + 1) {
        Ok((DownmixFlags { primary, present: false, embedded: false, kind: 0 }, p + 2))
    } else if p + 3 > lim {
        short()
    } else if !primary {
        Ok((DownmixFlags { primary, present: true, embedded: flag(d, p + 2), kind: 0 }, p + 3))
    } else if p + 6 > lim {
        short()
    } else if field(d, p + 3, 3) >= 7 {
        Err(XllError::Invalid("XLL primary downmix type"))
    } else {
        Ok(
            (
                DownmixFlags {
                    primary,
                    present: true,
                    embedded: flag(d, p + 2),
                    kind: field(d, p + 3, 3) as usize,
                },
                p + 6,
            ),
        )
    }
}

fn parse_downmix_flags(gb: &mut BitReader<'_>, is_primary: bool) -> (r: Result<DownmixFlags, XllError>)
    requires
        old(gb).wf(),
    ensures
        final(gb).wf(),
        final(gb).same_source(old(gb)),
        parsed(
            r,
            downmix_flags(old(gb).data(), old(gb).limit(), old(gb).pos(), is_primary),
            final(gb).pos(),
        ),
        old(gb).pos() <= final(gb).pos(),
        r matches Ok(v) ==> v.kind < 7 && v.primary == is_primary,
{
    let primary: bool = rb1(gb)?;
    if primary != is_primary {
        return Err(XllError::Invalid("first XLL chset must be primary"));
    }
    let present: bool = rb1(gb)?;
    if !present {
        return Ok(DownmixFlags { primary, present, embedded: false, kind: 0 });
    }
    let embedded: bool = rb1(gb)?;
    if !primary {
        return Ok(DownmixFlags { primary, present, embedded, kind: 0 });
    }
    let kind: usize = rb(gb, 3)? as usize;
    if kind >= 7 {
        return Err(XllError::Invalid("XLL primary downmix type"));
    }
    Ok(DownmixFlags { primary, present, embedded, kind })
}

/// The rows of a set's downmix, if it has one: one per channel of a primary
/// downmix type, or per channel of the sets before it.
pub open spec fn downmix_rows(
    d: Seq<u8>,
    lim: int,
    p: int,
    t: XllTables,
    f: DownmixFlags,
    hier_ofs: int,
    n: int,
) -> Result<(Seq<DownmixRowModel>, int), XllError> {
    if !f.present {
        Ok((Seq::empty(), p))
    } else {
        let m = if f.primary { t.primary_nch@[f.kind as int] as int } else { hier_ofs };
        repeat(downmix_step(d, lim, t, f.primary, n), p, m)
    }
}

fn parse_dmix_coeffs(
    gb: &mut BitReader<'_>,
    t: &XllTables,
    f: DownmixFlags,
    hier_ofs: usize,
    n: usize,
) -> (r: Result<Vec<DownmixRow>, XllError>)
    requires
        old(gb).wf(),
        t.wf(),
        f.kind < 7,
    ensures
        final(gb).wf(),
        final(gb).same_source(old(gb)),
        old(gb).pos() <= final(gb).pos(),
        match (
            r,
            downmix_rows(
                old(gb).data(),
                old(gb).limit(),
                old(gb).pos(),
                *t,
                f,
                hier_ofs as int,
                n as int,
            ),
        ) {
            (Ok(v), Ok((want, q))) => row_views(v@) == want && final(gb).pos() == q,
            (Err(e), Err(g)) => e == g,
            _ => false,
        },
        r matches Ok(v) ==> forall|i: int| 0 <= i < v@.len() ==> #[trigger] v@[i].coeff@.len() == n,
        r matches Ok(v) ==> f.present && !f.primary ==> v@.len() == hier_ofs,
{
    if !f.present {
        let none: Vec<DownmixRow> = Vec::new();
        assert(row_views(none@) =~= Seq::empty());
        return Ok(none);
    }
    let m: usize = if f.primary { t.primary_nch[f.kind] as usize } else { hier_ofs };
    read_downmix(gb, t, f.primary, n, m)
}

/// Mapping of a set whose channels are named by a speaker mask.
pub open spec fn mapped(
    d: Seq<u8>,
    lim: int,
    p: int,
    t: XllTables,
    frame: XllFrame,
    is_primary: bool,
    hier_ofs: int,
    n: int,
) -> Result<(SetMappingModel, int), XllError> {
    match downmix_flags(d, lim, p, is_primary) {
        Err(e) => Err(e),
        Ok((f, a)) => {
            if a + 1 > lim {
                short()
            } else if !flag(d, a) && frame.nchsets != 1 {
                Err(XllError::Unsupported("XLL chset outside hierarchy"))
            } else {
                match downmix_rows(d, lim, a + 1, t, f, hier_ofs, n) {
                    Err(e) => Err(e),
                    Ok((downmix, b)) => {
                        let nbits = frame.ch_mask_nbits as int;
                        let mask = field(d, b + 1, nbits) as u32;
                        if b + 1 > lim {
                            short()
                        } else if !flag(d, b) {
                            Err(XllError::Unsupported("disabled XLL channel mask"))
                        } else if b + 1 + nbits > lim {
                            short()
                        } else if ones(mask) != n {
                            Err(XllError::Invalid("XLL channel mask popcount"))
                        } else {
                            Ok(
                                (
                                    SetMappingModel {
                                        primary_chset: f.primary,
                                        dmix_coeffs_present: f.present,
                                        dmix_embedded: f.embedded,
                                        dmix_type: f.kind,
                                        hier_chset: flag(d, a),
                                        downmix,
                                        ch_mask: mask,
                                        ch_remap: bit_positions(mask, 32),
                                    },
                                    b + 1 + nbits,
                                ),
                            )
                        }
                    },
                }
            }
        },
    }
}

pub open spec fn plain_mapping(hier: bool, mask: u32, remap: Seq<usize>) -> SetMappingModel {
    SetMappingModel {
        primary_chset: true,
        dmix_coeffs_present: false,
        dmix_embedded: false,
        dmix_type: 0,
        hier_chset: hier,
        downmix: Seq::empty(),
        ch_mask: mask,
        ch_remap: remap,
    }
}

/// Mapping of a set without one-to-one speakers: a plain stereo set, or a
/// set that names none.
pub open spec fn unmapped(
    d: Seq<u8>,
    lim: int,
    p: int,
    frame: XllFrame,
    allow_unmapped: bool,
    n: int,
) -> Result<(SetMappingModel, int), XllError> {
    if p + 1 > lim {
        short()
    } else if flag(d, p) || (!allow_unmapped && (n != 2 || frame.nchsets != 1)) {
        Err(XllError::Unsupported("custom XLL channel-to-speaker mapping"))
    } else if allow_unmapped {
        Ok((plain_mapping(true, 0, identity(n)), p + 1))
    } else {
        Ok((plain_mapping(false, 6, seq![1usize, 2usize]), p + 1))
    }
}

pub open spec fn set_mapping(
    d: Seq<u8>,
    lim: int,
    p: int,
    t: XllTables,
    frame: XllFrame,
    mapping: ChsMappingSyntax,
    hier_ofs: int,
    n: int,
) -> Result<(SetMappingModel, int), XllError> {
    match mapping {
        ChsMappingSyntax::Asset { one_to_one, is_primary, allow_unmapped } => {
            if one_to_one && !allow_unmapped {
                mapped(d, lim, p, t, frame, is_primary, hier_ofs, n)
            } else {
                unmapped(d, lim, p, frame, allow_unmapped, n)
            }
        },
        ChsMappingSyntax::AlternatePrefix(bits) => {
            if p + bits > lim {
                short()
            } else {
                Ok((plain_mapping(true, 0, identity(n)), p + bits))
            }
        },
    }
}

/// Facts about a mapping that later stages index by.
pub open spec fn mapping_wf(v: SetMapping, n: int, hier_ofs: int) -> bool {
    &&& v.ch_remap@.len() == n
    &&& forall|i: int| 0 <= i < n ==> #[trigger] v.ch_remap@[i] < 32
    &&& forall|i: int| 0 <= i < v.downmix@.len() ==> #[trigger] v.downmix@[i].coeff@.len() == n
    &&& v.dmix_embedded && !v.primary_chset ==> v.downmix@.len() == hier_ofs
}

fn parse_mapped(gb: &mut BitReader<'_>, t: &XllTables, frame: &XllFrame, is_primary: bool, hier_ofs: usize, n: usize) -> (r: Result<SetMapping, XllError>)
    requires
        old(gb).wf(),
        t.wf(),
        frame.wf(),
    ensures
        final(gb).wf(),
        final(gb).same_source(old(gb)),
        parsed_view(
            r,
            mapped(old(gb).data(), old(gb).limit(), old(gb).pos(), *t, *frame, is_primary, hier_ofs as int, n as int),
            final(gb).pos(),
        ),
        old(gb).pos() <= final(gb).pos(),
        r matches Ok(v) ==> mapping_wf(v, n as int, hier_ofs as int),
{
    let f: DownmixFlags = parse_downmix_flags(gb, is_primary)?;
    let hier_chset: bool = rb1(gb)?;
    if !hier_chset && frame.nchsets != 1 {
        return Err(XllError::Unsupported("XLL chset outside hierarchy"));
    }
    let downmix: Vec<DownmixRow> = parse_dmix_coeffs(gb, t, f, hier_ofs, n)?;
    if !rb1(gb)? {
        return Err(XllError::Unsupported("disabled XLL channel mask"));
    }
    let ch_mask: u32 = rb(gb, frame.ch_mask_nbits)?;
    if count_ones(ch_mask) != n {
        return Err(XllError::Invalid("XLL channel mask popcount"));
    }
    Ok(
        SetMapping {
            primary_chset: f.primary,
            dmix_coeffs_present: f.present,
            dmix_embedded: f.embedded,
            dmix_type: f.kind,
            hier_chset,
            downmix,
            ch_mask,
            ch_remap: mask_positions(ch_mask),
        },
    )
}

fn plain(hier_chset: bool, ch_mask: u32, ch_remap: Vec<usize>) -> (r: SetMapping)
    ensures
        r@ == plain_mapping(hier_chset, ch_mask, ch_remap@),
        r.ch_remap == ch_remap,
        r.downmix@.len() == 0,
        r.primary_chset,
{
    let r = SetMapping {
        primary_chset: true,
        dmix_coeffs_present: false,
        dmix_embedded: false,
        dmix_type: 0,
        hier_chset,
        downmix: Vec::new(),
        ch_mask,
        ch_remap,
    };
    assert(row_views(r.downmix@) =~= Seq::empty());
    r
}

fn parse_set_mapping(gb: &mut BitReader<'_>, t: &XllTables, frame: &XllFrame, mapping: ChsMappingSyntax, hier_ofs: usize, n: usize) -> (r: Result<SetMapping, XllError>)
    requires
        old(gb).wf(),
        t.wf(),
        frame.wf(),
        n <= 8,
        mapping matches ChsMappingSyntax::AlternatePrefix(bits) ==> 1 <= bits <= 32,
    ensures
        final(gb).wf(),
        final(gb).same_source(old(gb)),
        parsed_view(
            r,
            set_mapping(old(gb).data(), old(gb).limit(), old(gb).pos(), *t, *frame, mapping, hier_ofs as int, n as int),
            final(gb).pos(),
        ),
        old(gb).pos() <= final(gb).pos(),
        r matches Ok(v) ==> mapping_wf(v, n as int, hier_ofs as int),
{
    match mapping {
        ChsMappingSyntax::Asset { one_to_one, is_primary, allow_unmapped } => {
            if one_to_one && !allow_unmapped {
                return parse_mapped(gb, t, frame, is_primary, hier_ofs, n);
            }
            let custom: bool = rb1(gb)?;
            if custom || (!allow_unmapped && (n != 2 || frame.nchsets != 1)) {
                return Err(XllError::Unsupported("custom XLL channel-to-speaker mapping"));
            }
            if allow_unmapped {
                Ok(plain(true, 0, count_up(n)))
            } else {
                let mut remap: Vec<usize> = Vec::new();
                remap.push(1);
                remap.push(2);
                assert(remap@ =~= seq![1usize, 2usize]);
                Ok(plain(false, 6, remap))
            }
        },
        ChsMappingSyntax::AlternatePrefix(bits) => {
            rb(gb, bits)?;
            Ok(plain(true, 0, count_up(n)))
        },
    }
}

/// A signed number of `n` bits.
pub open spec fn linear(d: Seq<u8>, lim: int, p: int, n: int) -> Result<(i32, int), XllError> {
    if n == 0 {
        Ok((0i32, p))
    } else if p + n > lim {
        short()
    } else {
        Ok((unfolded(field(d, p, n)) as i32, p + n))
    }
}

pub fn get_linear(gb: &mut BitReader<'_>, n: usize) -> (r: Result<i32, XllError>)
    requires
        old(gb).wf(),
        n <= 32,
    ensures
        final(gb).wf(),
        final(gb).same_source(old(gb)),
        parsed(
            r,
            linear(old(gb).data(), old(gb).limit(), old(gb).pos(), n as int),
            final(gb).pos(),
        ),
        old(gb).pos() <= final(gb).pos(),
        r matches Ok(v) ==> n == 7 ==> -64 <= v <= 63,
        r matches Ok(v) ==> n == 8 ==> -128 <= v <= 127,
{
    if n == 0 {
        return Ok(0);
    }
    let v: u32 = rb(gb, n)?;
    Ok(unfold(v))
}

/// Bits that number `n` channels.
pub open spec fn ceil_log2(n: int) -> int {
    if n <= 1 {
        0
    } else if n <= 2 {
        1
    } else if n <= 4 {
        2
    } else {
        3
    }
}

/// How the channels of a set were paired and ordered before coding.
#[derive(Clone, Debug)]
pub struct Decorrelation {
    pub enabled: bool,
    /// Place of each coded channel.
    pub orig_order: Vec<usize>,
    /// Coefficient of each pair.
    pub coeff: Vec<i32>,
}

pub ghost struct DecorrelationModel {
    pub enabled: bool,
    pub orig_order: Seq<usize>,
    pub coeff: Seq<i32>,
}

impl View for Decorrelation {
    type V = DecorrelationModel;

    open spec fn view(&self) -> DecorrelationModel {
        DecorrelationModel {
            enabled: self.enabled,
            orig_order: self.orig_order@,
            coeff: self.coeff@,
        }
    }
}

/// The places of the first `i` channels: each below `n` and none twice.
pub open spec fn channel_order(d: Seq<u8>, lim: int, p: int, width: int, n: int, i: int) -> Result<
    (Seq<usize>, int),
    XllError,
>
    decreases i,
{
    if i <= 0 {
        Ok((Seq::empty(), p))
    } else {
        match channel_order(d, lim, p, width, n, i - 1) {
            Err(e) => Err(e),
            Ok((order, q)) => {
                let place = field(d, q, width) as usize;
                if q + width > lim {
                    short()
                } else if place >= n {
                    Err(XllError::Invalid("XLL original channel order"))
                } else if order.contains(place) {
                    Err(XllError::Invalid("duplicate XLL original channel order"))
                } else {
                    Ok((order.push(place), q + width))
                }
            },
        }
    }
}

proof fn lemma_order_err(d: Seq<u8>, lim: int, p: int, width: int, n: int, i: int, k: int)
    requires
        i <= k,
        channel_order(d, lim, p, width, n, i) is Err,
    ensures
        channel_order(d, lim, p, width, n, k) == channel_order(d, lim, p, width, n, i),
    decreases k - i,
{
    if i < k {
        lemma_order_err(d, lim, p, width, n, i, k - 1);
    }
}

/// Places that are all below `n` and all different.
pub open spec fn is_order(order: Seq<usize>, n: int) -> bool {
    &&& forall|i: int| 0 <= i < order.len() ==> #[trigger] order[i] < n
    &&& forall|i: int, j: int|
        0 <= i < order.len() && 0 <= j < order.len() && i != j ==> order[i] != order[j]
}

fn holds(order: &Vec<usize>, place: usize) -> (r: bool)
    ensures
        r == order@.contains(place),
{
    let mut i: usize = 0;
    while i < order.len()
        invariant
            i <= order@.len(),
            forall|j: int| 0 <= j < i ==> order@[j] != place,
        decreases order.len() - i,
    {
        if order[i] == place {
            return true;
        }
        i = i + 1;
    }
    false
}

fn read_channel_order(gb: &mut BitReader<'_>, width: usize, n: usize) -> (r: Result<
    Vec<usize>,
    XllError,
>)
    requires
        old(gb).wf(),
        1 <= width <= 3,
        n <= 8,
    ensures
        final(gb).wf(),
        final(gb).same_source(old(gb)),
        old(gb).pos() <= final(gb).pos(),
        match (
            r,
            channel_order(
                old(gb).data(),
                old(gb).limit(),
                old(gb).pos(),
                width as int,
                n as int,
                n as int,
            ),
        ) {
            (Ok(v), Ok((want, q))) => v@ == want && v@.len() == n && is_order(v@, n as int)
                && final(gb).pos() == q,
            (Err(e), Err(f)) => e == f,
            _ => false,
        },
{
    let ghost d = gb.data();
    let ghost lim = gb.limit();
    let ghost p = gb.pos();
    let mut order: Vec<usize> = Vec::new();
    while order.len() < n
        invariant
            gb.wf(),
            gb.data() == d,
            gb.limit() == lim,
            d == old(gb).data(),
            lim == old(gb).limit(),
            p == old(gb).pos(),
            p <= gb.pos(),
            1 <= width <= 3,
            order@.len() <= n,
            is_order(order@, n as int),
            channel_order(d, lim, p, width as int, n as int, order@.len() as int) == Ok::<
                (Seq<usize>, int),
                XllError,
            >((order@, gb.pos())),
        decreases n - order.len(),
    {
        proof {
            let k = order@.len() as int + 1;
            if channel_order(d, lim, p, width as int, n as int, k) is Err {
                lemma_order_err(d, lim, p, width as int, n as int, k, n as int);
            }
        }
        let place: usize = rb(gb, width)? as usize;
        if place >= n {
            return Err(XllError::Invalid("XLL original channel order"));
        }
        if holds(&order, place) {
            return Err(XllError::Invalid("duplicate XLL original channel order"));
        }
        order.push(place);
    }
    Ok(order)
}

/// The coefficient of a pair: absent, or seven signed bits.
pub open spec fn pair_coeff(d: Seq<u8>, lim: int, p: int) -> Result<(i32, int), XllError> {
    if p + 1 > lim {
        short()
    } else if flag(d, p) {
        linear(d, lim, p + 1, 7)
    } else {
        Ok((0i32, p + 1))
    }
}

pub open spec fn pair_step(d: Seq<u8>, lim: int) -> spec_fn(int, int) -> Result<(i32, int), XllError> {
    |i: int, q: int| pair_coeff(d, lim, q)
}

fn read_pair_coeff(gb: &mut BitReader<'_>) -> (r: Result<i32, XllError>)
    requires
        old(gb).wf(),
    ensures
        final(gb).wf(),
        final(gb).same_source(old(gb)),
        parsed(
            r,
            pair_coeff(old(gb).data(), old(gb).limit(), old(gb).pos()),
            final(gb).pos(),
        ),
        old(gb).pos() <= final(gb).pos(),
{
    if rb1(gb)? { get_linear(gb, 7) } else { Ok(0) }
}

fn read_pair_coeffs(gb: &mut BitReader<'_>, n: usize) -> (r: Result<Vec<i32>, XllError>)
    requires
        old(gb).wf(),
    ensures
        final(gb).wf(),
        final(gb).same_source(old(gb)),
        old(gb).pos() <= final(gb).pos(),
        match (r, repeat(pair_step(old(gb).data(), old(gb).limit()), old(gb).pos(), n as int)) {
            (Ok(v), Ok((want, q))) => v@ == want && v@.len() == n && final(gb).pos() == q,
            (Err(e), Err(f)) => e == f,
            _ => false,
        },
{
    let ghost step = pair_step(gb.data(), gb.limit());
    let ghost p = gb.pos();
    let mut items: Vec<i32> = Vec::new();
    while items.len() < n
        invariant
            gb.wf(),
            gb.same_source(old(gb)),
            old(gb).pos() <= gb.pos(),
            p == old(gb).pos(),
            step == pair_step(gb.data(), gb.limit()),
            items@.len() <= n,
            repeat(step, p, items@.len() as int) == Ok::<_, XllError>((items@, gb.pos())),
        decreases n - items.len(),
    {
        let ghost before = items@;
        proof {
            lemma_repeat_err_of(step, p, items@.len() as int, n as int);
        }
        let item = read_pair_coeff(gb)?;
        items.push(item);
        assert(items@ =~= before.push(item));
    }
    Ok(items)
}

pub open spec fn decorrelation(d: Seq<u8>, lim: int, p: int, n: int) -> Result<
    (DecorrelationModel, int),
    XllError,
> {
    if p + 1 > lim {
        short()
    } else if flag(d, p) && n > 1 {
        match channel_order(d, lim, p + 1, ceil_log2(n), n, n) {
            Err(e) => Err(e),
            Ok((orig_order, q)) => match repeat(pair_step(d, lim), q, n / 2) {
                Err(e) => Err(e),
                Ok((coeff, s)) => Ok((DecorrelationModel { enabled: true, orig_order, coeff }, s)),
            },
        }
    } else {
        Ok(
            (
                DecorrelationModel {
                    enabled: flag(d, p),
                    orig_order: identity(n),
                    coeff: Seq::new((n / 2) as nat, |i: int| 0i32),
                },
                p + 1,
            ),
        )
    }
}

fn nothing(n: usize) -> (r: Vec<i32>)
    ensures
        r@ == Seq::new(n as nat, |i: int| 0i32),
{
    let mut r: Vec<i32> = Vec::new();
    while r.len() < n
        invariant
            r@.len() <= n,
            forall|i: int| 0 <= i < r@.len() ==> r@[i] == 0,
        decreases n - r.len(),
    {
        r.push(0);
    }
    assert(r@ =~= Seq::new(n as nat, |i: int| 0i32));
    r
}

fn parse_decorrelation(gb: &mut BitReader<'_>, n: usize) -> (r: Result<Decorrelation, XllError>)
    requires
        old(gb).wf(),
        1 <= n <= 8,
    ensures
        final(gb).wf(),
        final(gb).same_source(old(gb)),
        parsed_view(
            r,
            decorrelation(old(gb).data(), old(gb).limit(), old(gb).pos(), n as int),
            final(gb).pos(),
        ),
        old(gb).pos() <= final(gb).pos(),
        r matches Ok(v) ==> v.orig_order@.len() == n && is_order(v.orig_order@, n as int),
        r matches Ok(v) ==> v.coeff@.len() == n / 2,
{
    let enabled: bool = rb1(gb)?;
    if enabled && n > 1 {
        let width: usize = if n <= 2 { 1 } else if n <= 4 { 2 } else { 3 };
        let orig_order: Vec<usize> = read_channel_order(gb, width, n)?;
        let coeff: Vec<i32> = read_pair_coeffs(gb, n / 2)?;
        return Ok(Decorrelation { enabled, orig_order, coeff });
    }
    let coeff: Vec<i32> = nothing(n / 2);
    Ok(Decorrelation { enabled, orig_order: count_up(n), coeff })
}

/// How each channel of a set is predicted.
#[derive(Clone, Debug)]
pub struct Prediction {
    pub adaptive: Vec<usize>,
    pub highest: usize,
    pub fixed: Vec<usize>,
    pub reflection: Vec<Vec<i32>>,
}

pub ghost struct PredictionModel {
    pub adaptive: Seq<usize>,
    pub highest: usize,
    pub fixed: Seq<usize>,
    pub reflection: Seq<Seq<i32>>,
}

impl View for Prediction {
    type V = PredictionModel;

    open spec fn view(&self) -> PredictionModel {
        PredictionModel {
            adaptive: self.adaptive@,
            highest: self.highest,
            fixed: self.fixed@,
            reflection: rows(self.reflection@),
        }
    }
}

/// A plain field of `n` bits.
pub open spec fn number_step(d: Seq<u8>, lim: int, n: int) -> spec_fn(int, int) -> Result<
    (usize, int),
    XllError,
> {
    |i: int, q: int| if q + n > lim { short() } else { Ok((field(d, q, n) as usize, q + n)) }
}

fn read_numbers(gb: &mut BitReader<'_>, width: usize, n: usize) -> (r: Result<Vec<usize>, XllError>)
    requires
        old(gb).wf(),
        1 <= width <= 16,
    ensures
        final(gb).wf(),
        final(gb).same_source(old(gb)),
        old(gb).pos() <= final(gb).pos(),
        match (r, repeat(number_step(old(gb).data(), old(gb).limit(), width as int), old(gb).pos(), n as int)) {
            (Ok(v), Ok((want, q))) => v@ == want && v@.len() == n && final(gb).pos() == q,
            (Err(e), Err(f)) => e == f,
            _ => false,
        },
        r matches Ok(v) ==> forall|i: int| 0 <= i < v@.len() ==> (#[trigger] v@[i] as int) < code_space(width as int),
{
    let ghost step = number_step(gb.data(), gb.limit(), width as int);
    let ghost p = gb.pos();
    let mut items: Vec<usize> = Vec::new();
    while items.len() < n
        invariant
            gb.wf(),
            gb.same_source(old(gb)),
            old(gb).pos() <= gb.pos(),
            p == old(gb).pos(),
            step == number_step(gb.data(), gb.limit(), width as int),
            items@.len() <= n,
            repeat(step, p, items@.len() as int) == Ok::<_, XllError>((items@, gb.pos())),
        1 <= width <= 16,
            forall|i: int| 0 <= i < items@.len() ==> (#[trigger] items@[i] as int) < code_space(width as int),
        decreases n - items.len(),
    {
        let ghost before = items@;
        proof {
            lemma_repeat_err_of(step, p, items@.len() as int, n as int);
        }
        let item = rb(gb, width)? as usize;
        items.push(item);
        assert(items@ =~= before.push(item));
    }
    Ok(items)
}

/// The largest of some numbers; 0 of none.
pub open spec fn largest(v: Seq<usize>) -> int
    decreases v.len(),
{
    if v.len() == 0 {
        0
    } else {
        let rest = largest(v.drop_last());
        if v.last() > rest { v.last() as int } else { rest }
    }
}

fn find_largest(v: &Vec<usize>) -> (r: usize)
    ensures
        r == largest(v@),
        forall|i: int| 0 <= i < v@.len() ==> #[trigger] v@[i] <= r,
        v@.len() > 0 ==> exists|i: int| 0 <= i < v@.len() && #[trigger] v@[i] == r,
{
    let mut r: usize = 0;
    let mut i: usize = 0;
    while i < v.len()
        invariant
            i <= v@.len(),
            r == largest(v@.take(i as int)),
            forall|j: int| 0 <= j < i ==> #[trigger] v@[j] <= r,
            i > 0 ==> exists|j: int| 0 <= j < i && #[trigger] v@[j] == r,
        decreases v.len() - i,
    {
        assert(v@.take(i + 1).drop_last() =~= v@.take(i as int));
        if v[i] > r {
            r = v[i];
        }
        if i == 0 {
            assert(v@[0] == r);
        }
        i = i + 1;
    }
    assert(v@.take(v@.len() as int) =~= v@);
    r
}

/// The fixed order of a channel, coded only without an adaptive one.
pub open spec fn fixed_order(d: Seq<u8>, lim: int, p: int, adaptive: usize) -> Result<
    (usize, int),
    XllError,
> {
    if adaptive != 0 {
        Ok((0usize, p))
    } else if p + 2 > lim {
        short()
    } else {
        Ok((field(d, p, 2) as usize, p + 2))
    }
}

pub open spec fn fixed_step(d: Seq<u8>, lim: int, adaptive: Seq<usize>) -> spec_fn(int, int) -> Result<
    (usize, int),
    XllError,
> {
    |i: int, q: int| fixed_order(d, lim, q, adaptive[i])
}

fn read_fixed_order(gb: &mut BitReader<'_>, adaptive: usize) -> (r: Result<usize, XllError>)
    requires
        old(gb).wf(),
    ensures
        final(gb).wf(),
        final(gb).same_source(old(gb)),
        parsed(
            r,
            fixed_order(old(gb).data(), old(gb).limit(), old(gb).pos(), adaptive),
            final(gb).pos(),
        ),
        old(gb).pos() <= final(gb).pos(),
        r matches Ok(v) ==> v <= 3,
{
    if adaptive != 0 { Ok(0) } else { Ok(rb(gb, 2)? as usize) }
}

fn read_fixed_orders(gb: &mut BitReader<'_>, adaptive: &Vec<usize>) -> (r: Result<Vec<usize>, XllError>)
    requires
        old(gb).wf(),
    ensures
        final(gb).wf(),
        final(gb).same_source(old(gb)),
        old(gb).pos() <= final(gb).pos(),
        match (r, repeat(fixed_step(old(gb).data(), old(gb).limit(), adaptive@), old(gb).pos(), adaptive.len() as int)) {
            (Ok(v), Ok((want, q))) => v@ == want && v@.len() == adaptive.len() && final(gb).pos() == q,
            (Err(e), Err(f)) => e == f,
            _ => false,
        },
        r matches Ok(v) ==> forall|i: int| 0 <= i < v@.len() ==> #[trigger] v@[i] <= 3,
{
    let ghost step = fixed_step(gb.data(), gb.limit(), adaptive@);
    let ghost p = gb.pos();
    let mut items: Vec<usize> = Vec::new();
    while items.len() < adaptive.len()
        invariant
            gb.wf(),
            gb.same_source(old(gb)),
            old(gb).pos() <= gb.pos(),
            p == old(gb).pos(),
            step == fixed_step(gb.data(), gb.limit(), adaptive@),
            items@.len() <= adaptive.len(),
            repeat(step, p, items@.len() as int) == Ok::<_, XllError>((items@, gb.pos())),
            forall|i: int| 0 <= i < items@.len() ==> #[trigger] items@[i] <= 3,
        decreases adaptive.len() - items.len(),
    {
        let ghost before = items@;
        proof {
            lemma_repeat_err_of(step, p, items@.len() as int, adaptive.len() as int);
        }
        let item = read_fixed_order(gb, adaptive[items.len()])?;
        items.push(item);
        assert(items@ =~= before.push(item));
    }
    Ok(items)
}

/// A reflection coefficient: a signed table index.
pub open spec fn reflection(d: Seq<u8>, lim: int, p: int, t: XllTables) -> Result<(i32, int), XllError> {
    let k = unfolded(field(d, p, 8));
    if p + 8 > lim {
        short()
    } else if k == -128 {
        Err(XllError::Invalid("XLL reflection coeff index"))
    } else if k < 0 {
        Ok(((-(t.refl_coeff@[-k] as int)) as i32, p + 8))
    } else {
        Ok((t.refl_coeff@[k] as i32, p + 8))
    }
}

pub open spec fn reflection_step(d: Seq<u8>, lim: int, t: XllTables) -> spec_fn(int, int) -> Result<
    (i32, int),
    XllError,
> {
    |i: int, q: int| reflection(d, lim, q, t)
}

pub open spec fn reflections_step(d: Seq<u8>, lim: int, t: XllTables, adaptive: Seq<usize>) -> spec_fn(
    int,
    int,
) -> Result<(Seq<i32>, int), XllError> {
    |i: int, q: int| repeat(reflection_step(d, lim, t), q, adaptive[i] as int)
}

/// Reflection coefficients stay below one.
pub open spec fn reflective(v: Seq<i32>) -> bool {
    forall|i: int| 0 <= i < v.len() ==> -65535 <= #[trigger] v[i] <= 65535
}

fn read_reflection(gb: &mut BitReader<'_>, t: &XllTables) -> (r: Result<i32, XllError>)
    requires
        old(gb).wf(),
    ensures
        final(gb).wf(),
        final(gb).same_source(old(gb)),
        parsed(
            r,
            reflection(old(gb).data(), old(gb).limit(), old(gb).pos(), *t),
            final(gb).pos(),
        ),
        old(gb).pos() <= final(gb).pos(),
        r matches Ok(v) ==> -65535 <= v <= 65535,
{
    proof {
        lemma_field_range(gb.data(), gb.pos(), 8);
    }
    let k: i32 = get_linear(gb, 8)?;
    if k == -128 {
        return Err(XllError::Invalid("XLL reflection coeff index"));
    }
    if k < 0 {
        Ok(-(t.refl_coeff[(-k) as usize] as i32))
    } else {
        Ok(t.refl_coeff[k as usize] as i32)
    }
}

fn read_reflections(gb: &mut BitReader<'_>, t: &XllTables, n: usize) -> (r: Result<Vec<i32>, XllError>)
    requires
        old(gb).wf(),
    ensures
        final(gb).wf(),
        final(gb).same_source(old(gb)),
        old(gb).pos() <= final(gb).pos(),
        match (r, repeat(reflection_step(old(gb).data(), old(gb).limit(), *t), old(gb).pos(), n as int)) {
            (Ok(v), Ok((want, q))) => v@ == want && v@.len() == n && final(gb).pos() == q,
            (Err(e), Err(f)) => e == f,
            _ => false,
        },
        r matches Ok(v) ==> reflective(v@),
{
    let ghost step = reflection_step(gb.data(), gb.limit(), *t);
    let ghost p = gb.pos();
    let mut items: Vec<i32> = Vec::new();
    while items.len() < n
        invariant
            gb.wf(),
            gb.same_source(old(gb)),
            old(gb).pos() <= gb.pos(),
            p == old(gb).pos(),
            step == reflection_step(gb.data(), gb.limit(), *t),
            items@.len() <= n,
            repeat(step, p, items@.len() as int) == Ok::<_, XllError>((items@, gb.pos())),
            reflective(items@),
        decreases n - items.len(),
    {
        let ghost before = items@;
        proof {
            lemma_repeat_err_of(step, p, items@.len() as int, n as int);
        }
        let item = read_reflection(gb, t)?;
        items.push(item);
        assert(items@ =~= before.push(item));
    }
    Ok(items)
}

fn read_all_reflections(gb: &mut BitReader<'_>, t: &XllTables, adaptive: &Vec<usize>) -> (r: Result<Vec<Vec<i32>>, XllError>)
    requires
        old(gb).wf(),
    ensures
        final(gb).wf(),
        final(gb).same_source(old(gb)),
        old(gb).pos() <= final(gb).pos(),
        match (r, repeat(reflections_step(old(gb).data(), old(gb).limit(), *t, adaptive@), old(gb).pos(), adaptive.len() as int)) {
            (Ok(v), Ok((want, q))) => rows(v@) == want && v@.len() == adaptive.len() && final(gb).pos() == q,
            (Err(e), Err(f)) => e == f,
            _ => false,
        },
        r matches Ok(v) ==> forall|i: int|
            0 <= i < v@.len() ==> reflective((#[trigger] v@[i])@) && v@[i]@.len() == adaptive@[i],
{
    let ghost step = reflections_step(gb.data(), gb.limit(), *t, adaptive@);
    let ghost p = gb.pos();
    let mut items: Vec<Vec<i32>> = Vec::new();
    assert(rows(items@) =~= Seq::empty());
    while items.len() < adaptive.len()
        invariant
            gb.wf(),
            gb.same_source(old(gb)),
            old(gb).pos() <= gb.pos(),
            p == old(gb).pos(),
            step == reflections_step(gb.data(), gb.limit(), *t, adaptive@),
            items@.len() <= adaptive.len(),
            repeat(step, p, items@.len() as int) == Ok::<_, XllError>((rows(items@), gb.pos())),
            forall|i: int|
                0 <= i < items@.len() ==> reflective((#[trigger] items@[i])@) && items@[i]@.len()
                    == adaptive@[i],
        decreases adaptive.len() - items.len(),
    {
        let ghost before = rows(items@);
        proof {
            lemma_repeat_err_of(step, p, items@.len() as int, adaptive.len() as int);
        }
        let item = read_reflections(gb, t, adaptive[items.len()])?;
        items.push(item);
        assert(rows(items@) =~= before.push(item@));
    }
    Ok(items)
}

pub open spec fn prediction(
    d: Seq<u8>,
    lim: int,
    p: int,
    t: XllTables,
    nsegsamples: int,
    n: int,
) -> Result<(PredictionModel, int), XllError> {
    match repeat(number_step(d, lim, 4), p, n) {
        Err(e) => Err(e),
        Ok((adaptive, a)) => {
            if largest(adaptive) > nsegsamples {
                Err(XllError::Invalid("XLL adaptive prediction order"))
            } else {
                match repeat(fixed_step(d, lim, adaptive), a, n) {
                    Err(e) => Err(e),
                    Ok((fixed, b)) => match repeat(reflections_step(d, lim, t, adaptive), b, n) {
                        Err(e) => Err(e),
                        Ok((reflection, c)) => Ok(
                            (
                                PredictionModel {
                                    adaptive,
                                    highest: largest(adaptive) as usize,
                                    fixed,
                                    reflection,
                                },
                                c,
                            ),
                        ),
                    },
                }
            }
        },
    }
}

/// Facts about the predictors that filtering rests on.
pub open spec fn prediction_wf(v: Prediction, n: int, nsegsamples: int) -> bool {
    &&& v.adaptive@.len() == n
    &&& v.fixed@.len() == n
    &&& v.reflection@.len() == n
    &&& v.highest <= 15
    &&& v.highest <= nsegsamples
    &&& forall|i: int| 0 <= i < n ==> #[trigger] v.adaptive@[i] <= v.highest
    &&& forall|i: int| 0 <= i < n ==> #[trigger] v.fixed@[i] <= 3
    &&& forall|i: int|
        0 <= i < n ==> reflective((#[trigger] v.reflection@[i])@) && v.reflection@[i]@.len()
            == v.adaptive@[i]
}

fn parse_prediction(gb: &mut BitReader<'_>, t: &XllTables, nsegsamples: usize, n: usize) -> (r: Result<Prediction, XllError>)
    requires
        old(gb).wf(),
        1 <= n,
    ensures
        final(gb).wf(),
        final(gb).same_source(old(gb)),
        parsed_view(
            r,
            prediction(old(gb).data(), old(gb).limit(), old(gb).pos(), *t, nsegsamples as int, n as int),
            final(gb).pos(),
        ),
        old(gb).pos() <= final(gb).pos(),
        r matches Ok(v) ==> prediction_wf(v, n as int, nsegsamples as int),
{
    let adaptive: Vec<usize> = read_numbers(gb, 4, n)?;
    let highest: usize = find_largest(&adaptive);
    if highest > nsegsamples {
        return Err(XllError::Invalid("XLL adaptive prediction order"));
    }
    let fixed: Vec<usize> = read_fixed_orders(gb, &adaptive)?;
    let reflection: Vec<Vec<i32>> = read_all_reflections(gb, t, &adaptive)?;
    Ok(Prediction { adaptive, highest, fixed, reflection })
}

/// Where the low bits of the samples stand, if they are coded apart.
#[derive(Clone, Debug)]
pub struct LsbLayout {
    pub section_size: u64,
    pub widths: Vec<usize>,
    pub adjust: Vec<usize>,
}

pub ghost struct LsbModel {
    pub section_size: u64,
    pub widths: Seq<usize>,
    pub adjust: Seq<usize>,
}

impl View for LsbLayout {
    type V = LsbModel;

    open spec fn view(&self) -> LsbModel {
        LsbModel {
            section_size: self.section_size,
            widths: self.widths@,
            adjust: self.adjust@,
        }
    }
}

/// The low-bit width of a channel; it needs a section to be coded in.
pub open spec fn lsb_width(d: Seq<u8>, lim: int, p: int, section: u64) -> Result<(usize, int), XllError> {
    if p + 4 > lim {
        short()
    } else if field(d, p, 4) != 0 && section == 0 {
        Err(XllError::Invalid("XLL LSB width without section"))
    } else {
        Ok((field(d, p, 4) as usize, p + 4))
    }
}

pub open spec fn lsb_step(d: Seq<u8>, lim: int, section: u64) -> spec_fn(int, int) -> Result<
    (usize, int),
    XllError,
> {
    |i: int, q: int| lsb_width(d, lim, q, section)
}

fn read_lsb_width(gb: &mut BitReader<'_>, section: u64) -> (r: Result<usize, XllError>)
    requires
        old(gb).wf(),
    ensures
        final(gb).wf(),
        final(gb).same_source(old(gb)),
        parsed(
            r,
            lsb_width(old(gb).data(), old(gb).limit(), old(gb).pos(), section),
            final(gb).pos(),
        ),
        old(gb).pos() <= final(gb).pos(),
        r matches Ok(v) ==> v <= 15 && (v != 0 ==> section != 0),
{
    let width: usize = rb(gb, 4)? as usize;
    if width != 0 && section == 0 {
        return Err(XllError::Invalid("XLL LSB width without section"));
    }
    Ok(width)
}

fn read_lsb_widths(gb: &mut BitReader<'_>, section: u64, n: usize) -> (r: Result<Vec<usize>, XllError>)
    requires
        old(gb).wf(),
    ensures
        final(gb).wf(),
        final(gb).same_source(old(gb)),
        old(gb).pos() <= final(gb).pos(),
        match (r, repeat(lsb_step(old(gb).data(), old(gb).limit(), section), old(gb).pos(), n as int)) {
            (Ok(v), Ok((want, q))) => v@ == want && v@.len() == n && final(gb).pos() == q,
            (Err(e), Err(f)) => e == f,
            _ => false,
        },
        r matches Ok(v) ==> forall|i: int|
            0 <= i < v@.len() ==> #[trigger] v@[i] <= 15 && (v@[i] != 0 ==> section != 0),
{
    let ghost step = lsb_step(gb.data(), gb.limit(), section);
    let ghost p = gb.pos();
    let mut items: Vec<usize> = Vec::new();
    while items.len() < n
        invariant
            gb.wf(),
            gb.same_source(old(gb)),
            old(gb).pos() <= gb.pos(),
            p == old(gb).pos(),
            step == lsb_step(gb.data(), gb.limit(), section),
            items@.len() <= n,
            repeat(step, p, items@.len() as int) == Ok::<_, XllError>((items@, gb.pos())),
            forall|i: int|
                0 <= i < items@.len() ==> #[trigger] items@[i] <= 15 && (items@[i] != 0 ==> section != 0),
        decreases n - items.len(),
    {
        let ghost before = items@;
        proof {
            lemma_repeat_err_of(step, p, items@.len() as int, n as int);
        }
        let item = read_lsb_width(gb, section)?;
        items.push(item);
        assert(items@ =~= before.push(item));
    }
    Ok(items)
}

pub open spec fn lsb_layout(d: Seq<u8>, lim: int, p: int, frame: XllFrame, n: int) -> Result<
    (LsbModel, int),
    XllError,
> {
    let width = frame.seg_size_nbits as int;
    let coded = field(d, p, width);
    let section = (if coded != 0 && frame.band_crc_present > 1 { coded + 2 } else { coded }) as u64;
    if !frame.scalable_lsbs {
        Ok(
            (
                LsbModel {
                    section_size: 0,
                    widths: Seq::new(n as nat, |i: int| 0usize),
                    adjust: Seq::new(n as nat, |i: int| 0usize),
                },
                p,
            ),
        )
    } else if p + width > lim {
        short()
    } else if coded > frame.frame_size {
        Err(XllError::Invalid("XLL LSB section size"))
    } else {
        match repeat(lsb_step(d, lim, section), p + width, n) {
            Err(e) => Err(e),
            Ok((widths, q)) => match repeat(number_step(d, lim, 4), q, n) {
                Err(e) => Err(e),
                Ok((adjust, s)) => Ok((LsbModel { section_size: section, widths, adjust }, s)),
            },
        }
    }
}

pub open spec fn lsb_wf(v: LsbLayout, n: int) -> bool {
    &&& v.section_size <= 0x1_0000_0002
    &&& v.widths@.len() == n
    &&& v.adjust@.len() == n
    &&& forall|i: int| 0 <= i < n ==> #[trigger] v.widths@[i] <= 15 && (v.widths@[i] != 0
        ==> v.section_size != 0)
    &&& forall|i: int| 0 <= i < n ==> #[trigger] v.adjust@[i] <= 15
}

fn no_widths(n: usize) -> (r: Vec<usize>)
    ensures
        r@ == Seq::new(n as nat, |i: int| 0usize),
{
    let mut r: Vec<usize> = Vec::new();
    while r.len() < n
        invariant
            r@.len() <= n,
            forall|i: int| 0 <= i < r@.len() ==> r@[i] == 0,
        decreases n - r.len(),
    {
        r.push(0);
    }
    assert(r@ =~= Seq::new(n as nat, |i: int| 0usize));
    r
}

fn parse_lsb_layout(gb: &mut BitReader<'_>, frame: &XllFrame, n: usize) -> (r: Result<LsbLayout, XllError>)
    requires
        old(gb).wf(),
        frame.wf(),
    ensures
        final(gb).wf(),
        final(gb).same_source(old(gb)),
        parsed_view(
            r,
            lsb_layout(old(gb).data(), old(gb).limit(), old(gb).pos(), *frame, n as int),
            final(gb).pos(),
        ),
        old(gb).pos() <= final(gb).pos(),
        r matches Ok(v) ==> lsb_wf(v, n as int),
{
    if !frame.scalable_lsbs {
        return Ok(LsbLayout { section_size: 0, widths: no_widths(n), adjust: no_widths(n) });
    }
    let coded: u64 = rb(gb, frame.seg_size_nbits)? as u64;
    if coded > frame.frame_size {
        return Err(XllError::Invalid("XLL LSB section size"));
    }
    let section_size: u64 = if coded != 0 && frame.band_crc_present > 1 { coded + 2 } else { coded };
    let widths: Vec<usize> = read_lsb_widths(gb, section_size, n)?;
    let adjust: Vec<usize> = read_numbers(gb, 4, n)?;
    Ok(LsbLayout { section_size, widths, adjust })
}

/// One channel set, as its header describes it.
#[derive(Clone, Debug)]
pub struct XllChSet {
    pub head: SetHead,
    /// Channels of the sets before this one.
    pub hier_ofs: usize,
    pub mapping: SetMapping,
    /// Bits of the fields that size the entropy codes.
    pub nabits: usize,
    pub decorrelation: Decorrelation,
    pub prediction: Prediction,
    pub lsb: LsbLayout,
    /// Bits between the last field and the end of the header.
    pub header_tail_bits: usize,
}

pub ghost struct XllChSetModel {
    pub head: SetHead,
    pub hier_ofs: usize,
    pub mapping: SetMappingModel,
    pub nabits: usize,
    pub decorrelation: DecorrelationModel,
    pub prediction: PredictionModel,
    pub lsb: LsbModel,
    pub header_tail_bits: usize,
}

impl View for XllChSet {
    type V = XllChSetModel;

    open spec fn view(&self) -> XllChSetModel {
        XllChSetModel {
            head: self.head,
            hier_ofs: self.hier_ofs,
            mapping: self.mapping@,
            nabits: self.nabits,
            decorrelation: self.decorrelation@,
            prediction: self.prediction@,
            lsb: self.lsb@,
            header_tail_bits: self.header_tail_bits,
        }
    }
}

impl XllChSet {
    pub open spec fn wf(&self, frame: XllFrame) -> bool {
        let n = self.head.nchannels as int;
        &&& head_wf(self.head)
        &&& mapping_wf(self.mapping, n, self.hier_ofs as int)
        &&& 4 <= self.nabits <= 5
        &&& self.decorrelation.orig_order@.len() == n
        &&& is_order(self.decorrelation.orig_order@, n)
        &&& self.decorrelation.coeff@.len() == n / 2
        &&& prediction_wf(self.prediction, n, frame.nsegsamples as int)
        &&& lsb_wf(self.lsb, n)
        &&& frame.nchsets > 1 ==> self.mapping.hier_chset
    }
}

/// Width of the entropy-code fields for a storage resolution.
pub open spec fn code_width(storage: int, nchsets: int) -> int {
    if storage > 16 || nchsets > 1 { 5 } else { 4 }
}

/// Everything after the speaker mapping.
pub open spec fn set_body(d: Seq<u8>, lim: int, p: int, t: XllTables, frame: XllFrame, n: int) -> Result<
    ((DecorrelationModel, PredictionModel, LsbModel), int),
    XllError,
> {
    match decorrelation(d, lim, p, n) {
        Err(e) => Err(e),
        Ok((dec, a)) => match prediction(d, lim, a, t, frame.nsegsamples as int, n) {
            Err(e) => Err(e),
            Ok((pred, b)) => match lsb_layout(d, lim, b, frame, n) {
                Err(e) => Err(e),
                Ok((lsb, c)) => Ok(((dec, pred, lsb), c)),
            },
        },
    }
}

/// A whole channel-set header; the cursor ends where the header's size says.
#[verifier::opaque]
pub open spec fn channel_set(
    d: Seq<u8>,
    lim: int,
    p: int,
    t: XllTables,
    frame: XllFrame,
    mapping: ChsMappingSyntax,
    hier_ofs: int,
) -> Result<(XllChSetModel, int), XllError> {
    match set_head(d, lim, p) {
        Err(e) => Err(e),
        Ok((head, a)) => {
            let n = head.nchannels as int;
            match set_mapping(d, lim, a, t, frame, mapping, hier_ofs, n) {
                Err(e) => Err(e),
                Ok((map, b)) => match set_body(d, lim, b, t, frame, n) {
                    Err(e) => Err(e),
                    Ok(((dec, pred, lsb), c)) => {
                        let end = p + 8 * head.header_size;
                        if c > end {
                            Err(XllError::Invalid("XLL channel-set fields exceed header"))
                        } else if end > lim {
                            Err(XllError::Invalid("seek past end"))
                        } else {
                            Ok(
                                (
                                    XllChSetModel {
                                        head,
                                        hier_ofs: hier_ofs as usize,
                                        mapping: map,
                                        nabits: code_width(
                                            head.storage_bit_res as int,
                                            frame.nchsets as int,
                                        ) as usize,
                                        decorrelation: dec,
                                        prediction: pred,
                                        lsb,
                                        header_tail_bits: (end - c) as usize,
                                    },
                                    end,
                                ),
                            )
                        }
                    },
                },
            }
        },
    }
}

pub fn parse_set_body(gb: &mut BitReader<'_>, t: &XllTables, frame: &XllFrame, n: usize) -> (r: Result<
    (Decorrelation, Prediction, LsbLayout),
    XllError,
>)
    requires
        old(gb).wf(),
        frame.wf(),
        1 <= n <= 8,
    ensures
        final(gb).wf(),
        final(gb).same_source(old(gb)),
        old(gb).pos() <= final(gb).pos(),
        match (
            r,
            set_body(old(gb).data(), old(gb).limit(), old(gb).pos(), *t, *frame, n as int),
        ) {
            (Ok(v), Ok((want, q))) => {
                &&& want == (v.0@, v.1@, v.2@)
                &&& final(gb).pos() == q
                &&& v.0.orig_order@.len() == n && is_order(v.0.orig_order@, n as int)
                &&& v.0.coeff@.len() == n / 2
                &&& prediction_wf(v.1, n as int, frame.nsegsamples as int)
                &&& lsb_wf(v.2, n as int)
            },
            (Err(e), Err(f)) => e == f,
            _ => false,
        },
{
    let dec: Decorrelation = parse_decorrelation(gb, n)?;
    let pred: Prediction = parse_prediction(gb, t, frame.nsegsamples, n)?;
    let lsb: LsbLayout = parse_lsb_layout(gb, frame, n)?;
    Ok((dec, pred, lsb))
}

/// Parse a channel-set header.
pub fn chs_parse_header_with_mapping(gb: &mut BitReader<'_>, t: &XllTables, frame: &XllFrame, mapping: ChsMappingSyntax, hier_ofs: usize) -> (r: Result<XllChSet, XllError>)
    requires
        old(gb).wf(),
        t.wf(),
        frame.wf(),
        mapping matches ChsMappingSyntax::AlternatePrefix(bits) ==> 1 <= bits <= 32,
    ensures
        final(gb).wf(),
        final(gb).same_source(old(gb)),
        parsed_view(
            r,
            channel_set(old(gb).data(), old(gb).limit(), old(gb).pos(), *t, *frame, mapping, hier_ofs as int),
            final(gb).pos(),
        ),
        old(gb).pos() <= final(gb).pos(),
        r matches Ok(v) ==> v.wf(*frame) && v.hier_ofs == hier_ofs,
{
    proof {
        reveal(channel_set);
    }
    let start: usize = gb.position();
    let head: SetHead = parse_set_head(gb)?;
    let n: usize = head.nchannels;
    let map: SetMapping = parse_set_mapping(gb, t, frame, mapping, hier_ofs, n)?;
    let (dec, pred, lsb): (Decorrelation, Prediction, LsbLayout) = parse_set_body(gb, t, frame, n)?;
    let used: usize = gb.position() - start;
    let size: usize = 8 * head.header_size;
    if used > size {
        return Err(XllError::Invalid("XLL channel-set fields exceed header"));
    }
    let header_tail_bits: usize = size - used;
    if gb.skip_bits(header_tail_bits).is_none() {
        return Err(XllError::Invalid("seek past end"));
    }
    let nabits: usize = if head.storage_bit_res > 16 || frame.nchsets > 1 { 5 } else { 4 };
    Ok(
        XllChSet {
            head,
            hier_ofs,
            mapping: map,
            nabits,
            decorrelation: dec,
            prediction: pred,
            lsb,
            header_tail_bits,
        },
    )
}


} // verus!
