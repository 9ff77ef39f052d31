//! A lossless frame: its common header, channel sets, navigation table and
//! band data.

use vstd::prelude::*;
use crate::bits::{aligned, code_space, field, flag, power_of_two, BitReader};
use crate::grammar::{parsed, repeat};
use super::xll_band::{blank_band, chs_parse_band_data, extended, BandModel, XllBand};
use super::xll_error::XllError;
use super::xll_header::{
    channel_set, chs_parse_header_with_mapping, lemma_repeat_err_of, rb, rb1, short,
    ChsMappingSyntax, XllChSet, XllChSetModel, XllFrame, XllTables,
};

verus! {

/// First word of a lossless frame.
pub const DCA_SYNCWORD_XLL: u32 = 0x41A2_9547;

/// The sizes of a frame, up to the number of channel sets.
pub open spec fn frame_sizes(d: Seq<u8>, lim: int, p: int) -> Result<((usize, u64, usize), int), XllError> {
    let nbits = field(d, p + 44, 5) + 1;
    let q = p + 49 + nbits;
    if p + 32 > lim {
        short()
    } else if field(d, p, 32) != DCA_SYNCWORD_XLL {
        Err(XllError::Eagain)
    } else if p + 36 > lim {
        short()
    } else if field(d, p + 32, 4) != 0 {
        Err(XllError::Unsupported("XLL stream version"))
    } else if p + 49 > lim {
        short()
    } else if q + 4 > lim {
        short()
    } else if field(d, q, 4) + 1 > 3 {
        Err(XllError::Unsupported("too many XLL channel sets"))
    } else {
        Ok(
            (
                (
                    (field(d, p + 36, 8) + 1) as usize,
                    (field(d, p + 49, nbits) + 1) as u64,
                    (field(d, q, 4) + 1) as usize,
                ),
                q + 4,
            ),
        )
    }
}

fn parse_frame_sizes(gb: &mut BitReader<'_>) -> (r: Result<(usize, u64, usize), XllError>)
    requires
        old(gb).wf(),
    ensures
        final(gb).wf(),
        final(gb).same_source(old(gb)),
        parsed(
            r,
            frame_sizes(old(gb).data(), old(gb).limit(), old(gb).pos()),
            final(gb).pos(),
        ),
        old(gb).pos() <= final(gb).pos(),
        r matches Ok(v) ==> 1 <= v.0 <= 256 && 1 <= v.1 <= 0x1_0000_0000 && 1 <= v.2 <= 3,
{
    if rb(gb, 32)? != DCA_SYNCWORD_XLL {
        return Err(XllError::Eagain);
    }
    if rb(gb, 4)? != 0 {
        return Err(XllError::Unsupported("XLL stream version"));
    }
    let header_size: usize = rb(gb, 8)? as usize + 1;
    let nbits: usize = rb(gb, 5)? as usize + 1;
    let frame_size: u64 = rb(gb, nbits)? as u64 + 1;
    let nchsets: usize = rb(gb, 4)? as usize + 1;
    if nchsets > 3 {
        return Err(XllError::Unsupported("too many XLL channel sets"));
    }
    Ok((header_size, frame_size, nchsets))
}

/// The geometry of a frame, which follows its sizes.
pub open spec fn frame_geometry(d: Seq<u8>, lim: int, p: int, frame_size: u64, nchsets: usize) -> Result<
    (XllFrame, int),
    XllError,
> {
    let segs = field(d, p, 4);
    let samples = field(d, p + 4, 4);
    let scalable = flag(d, p + 15);
    let end = if scalable { p + 25 } else { p + 21 };
    if p + 8 > lim {
        short()
    } else if samples == 0 {
        Err(XllError::Invalid("too few samples per segment"))
    } else if samples + segs > 16 {
        Err(XllError::Invalid("too many samples per frame"))
    } else if end > lim {
        short()
    } else {
        Ok(
            (
                XllFrame {
                    frame_size,
                    nchsets,
                    nframesegs: code_space(segs) as usize,
                    nsegsamples_log2: samples as usize,
                    nsegsamples: code_space(samples) as usize,
                    nframesamples: code_space(samples + segs) as usize,
                    seg_size_nbits: (field(d, p + 8, 5) + 1) as usize,
                    band_crc_present: field(d, p + 13, 2) as u32,
                    scalable_lsbs: scalable,
                    ch_mask_nbits: (field(d, p + 16, 5) + 1) as usize,
                    fixed_lsb_width: if scalable { field(d, p + 21, 4) as usize } else { 0 },
                },
                end,
            ),
        )
    }
}

proof fn lemma_powers_multiply(a: int, b: int)
    requires
        0 <= a,
        0 <= b,
        a + b <= 16,
    ensures
        code_space(a) * code_space(b) == code_space(a + b),
    decreases a,
{
    if a > 0 {
        lemma_powers_multiply(a - 1, b);
        let x = code_space(a - 1);
        let y = code_space(b);
        assert(code_space(a) == 2 * x);
        assert((2 * x) * y == 2 * (x * y)) by (nonlinear_arith);
    }
}

fn parse_frame_geometry(gb: &mut BitReader<'_>, frame_size: u64, nchsets: usize) -> (r: Result<XllFrame, XllError>)
    requires
        old(gb).wf(),
        1 <= frame_size <= 0x1_0000_0000,
        1 <= nchsets <= 3,
    ensures
        final(gb).wf(),
        final(gb).same_source(old(gb)),
        parsed(
            r,
            frame_geometry(old(gb).data(), old(gb).limit(), old(gb).pos(), frame_size, nchsets),
            final(gb).pos(),
        ),
        old(gb).pos() <= final(gb).pos(),
        r matches Ok(v) ==> v.wf() && v.nchsets == nchsets,
{
    let segs: usize = rb(gb, 4)? as usize;
    let nsegsamples_log2: usize = rb(gb, 4)? as usize;
    if nsegsamples_log2 == 0 {
        return Err(XllError::Invalid("too few samples per segment"));
    }
    if nsegsamples_log2 + segs > 16 {
        return Err(XllError::Invalid("too many samples per frame"));
    }
    proof {
        lemma_powers_multiply(segs as int, nsegsamples_log2 as int);
    }
    let nframesegs: usize = power_of_two(segs as u32) as usize;
    let nsegsamples: usize = power_of_two(nsegsamples_log2 as u32) as usize;
    let nframesamples: usize = power_of_two((nsegsamples_log2 + segs) as u32) as usize;
    let seg_size_nbits: usize = rb(gb, 5)? as usize + 1;
    let band_crc_present: u32 = rb(gb, 2)?;
    let scalable_lsbs: bool = rb1(gb)?;
    let ch_mask_nbits: usize = rb(gb, 5)? as usize + 1;
    let fixed_lsb_width: usize = if scalable_lsbs { rb(gb, 4)? as usize } else { 0 };
    Ok(
        XllFrame {
            frame_size,
            nchsets,
            nframesegs,
            nsegsamples_log2,
            nsegsamples,
            nframesamples,
            seg_size_nbits,
            band_crc_present,
            scalable_lsbs,
            ch_mask_nbits,
            fixed_lsb_width,
        },
    )
}

/// The common header; the cursor ends where the header's size says.
pub open spec fn common_header(d: Seq<u8>, lim: int, p: int) -> Result<(XllFrame, int), XllError> {
    match frame_sizes(d, lim, p) {
        Err(e) => Err(e),
        Ok(((header_size, frame_size, nchsets), a)) => match frame_geometry(
            d,
            lim,
            a,
            frame_size,
            nchsets,
        ) {
            Err(e) => Err(e),
            Ok((frame, b)) => if 8 * header_size > lim {
                Err(XllError::Invalid("seek past end"))
            } else {
                Ok((frame, 8 * header_size as int))
            },
        },
    }
}

pub fn parse_common_header(gb: &mut BitReader<'_>) -> (r: Result<XllFrame, XllError>)
    requires
        old(gb).wf(),
    ensures
        final(gb).wf(),
        final(gb).same_source(old(gb)),
        parsed(
            r,
            common_header(old(gb).data(), old(gb).limit(), old(gb).pos()),
            final(gb).pos(),
        ),
        r matches Ok(v) ==> v.wf() && final(gb).pos() <= final(gb).limit(),
{
    let (header_size, frame_size, nchsets): (usize, u64, usize) = parse_frame_sizes(gb)?;
    let frame: XllFrame = parse_frame_geometry(gb, frame_size, nchsets)?;
    if !gb.seek(8 * header_size) {
        return Err(XllError::Invalid("seek past end"));
    }
    Ok(frame)
}

/// Channels that the sets of a hierarchy bring.
pub open spec fn hierarchy_size(sets: Seq<XllChSetModel>) -> int
    decreases sets.len(),
{
    if sets.len() == 0 {
        0
    } else {
        hierarchy_size(sets.drop_last()) + if sets.last().mapping.hier_chset {
            sets.last().head.nchannels as int
        } else {
            0
        }
    }
}

pub open spec fn set_views(v: Seq<XllChSet>) -> Seq<XllChSetModel> {
    Seq::new(v.len(), |i: int| v[i]@)
}

/// The headers of the first `n` channel sets.
pub open spec fn channel_sets(
    d: Seq<u8>,
    lim: int,
    p: int,
    t: XllTables,
    frame: XllFrame,
    one_to_one: bool,
    n: int,
) -> Result<(Seq<XllChSetModel>, int), XllError>
    decreases n,
{
    if n <= 0 {
        Ok((Seq::empty(), p))
    } else {
        match channel_sets(d, lim, p, t, frame, one_to_one, n - 1) {
            Err(e) => Err(e),
            Ok((sets, q)) => match channel_set(
                d,
                lim,
                q,
                t,
                frame,
                ChsMappingSyntax::Asset { one_to_one, is_primary: n == 1, allow_unmapped: false },
                hierarchy_size(sets),
            ) {
                Err(e) => Err(e),
                Ok((set, s)) => Ok((sets.push(set), s)),
            },
        }
    }
}

proof fn lemma_sets_err(
    d: Seq<u8>,
    lim: int,
    p: int,
    t: XllTables,
    frame: XllFrame,
    one_to_one: bool,
    k: int,
    n: int,
)
    requires
        k <= n,
        channel_sets(d, lim, p, t, frame, one_to_one, k) is Err,
    ensures
        channel_sets(d, lim, p, t, frame, one_to_one, n) == channel_sets(
            d,
            lim,
            p,
            t,
            frame,
            one_to_one,
            k,
        ),
    decreases n - k,
{
    if k < n {
        lemma_sets_err(d, lim, p, t, frame, one_to_one, k, n - 1);
    }
}

/// Channel sets that fit a frame: each starts where the sets before it end.
pub open spec fn sets_wf(sets: Seq<XllChSet>, frame: XllFrame) -> bool {
    forall|i: int| 0 <= i < sets.len() ==> {
        &&& (#[trigger] sets[i]).wf(frame)
        &&& sets[i].hier_ofs == hierarchy_size(set_views(sets.take(i)))
    }
}

pub fn parse_sub_headers(gb: &mut BitReader<'_>, t: &XllTables, frame: &XllFrame, one_to_one: bool) -> (r: Result<
    Vec<XllChSet>,
    XllError,
>)
    requires
        old(gb).wf(),
        t.wf(),
        frame.wf(),
    ensures
        final(gb).wf(),
        final(gb).same_source(old(gb)),
        match (
            r,
            channel_sets(
                old(gb).data(),
                old(gb).limit(),
                old(gb).pos(),
                *t,
                *frame,
                one_to_one,
                frame.nchsets as int,
            ),
        ) {
            (Ok(v), Ok((want, q))) => {
                &&& set_views(v@) == want
                &&& v@.len() == frame.nchsets
                &&& sets_wf(v@, *frame)
                &&& final(gb).pos() == q
            },
            (Err(e), Err(f)) => e == f,
            _ => false,
        },
{
    let ghost d = gb.data();
    let ghost lim = gb.limit();
    let ghost p = gb.pos();
    let mut sets: Vec<XllChSet> = Vec::new();
    let mut nchannels: usize = 0;
    assert(set_views(sets@) =~= Seq::empty());
    while sets.len() < frame.nchsets
        invariant
            gb.wf(),
            gb.data() == d,
            gb.limit() == lim,
            d == old(gb).data(),
            lim == old(gb).limit(),
            p == old(gb).pos(),
            t.wf(),
            frame.wf(),
            sets@.len() <= frame.nchsets,
            nchannels <= 8 * sets@.len(),
            nchannels == hierarchy_size(set_views(sets@)),
            sets_wf(sets@, *frame),
            channel_sets(d, lim, p, *t, *frame, one_to_one, sets@.len() as int) == Ok::<
                (Seq<XllChSetModel>, int),
                XllError,
            >((set_views(sets@), gb.pos())),
        decreases frame.nchsets - sets.len(),
    {
        let ghost before = sets@;
        proof {
            let k = sets@.len() as int + 1;
            if channel_sets(d, lim, p, *t, *frame, one_to_one, k) is Err {
                lemma_sets_err(d, lim, p, *t, *frame, one_to_one, k, frame.nchsets as int);
            }
        }
        let mapping = ChsMappingSyntax::Asset {
            one_to_one,
            is_primary: sets.len() == 0,
            allow_unmapped: false,
        };
        let set: XllChSet = chs_parse_header_with_mapping(gb, t, frame, mapping, nchannels)?;
        if set.mapping.hier_chset {
            nchannels = nchannels + set.head.nchannels;
        }
        sets.push(set);
        proof {
            assert(set_views(sets@) =~= set_views(before).push(set@));
            assert(set_views(sets@).drop_last() =~= set_views(before));
            assert forall|i: int| 0 <= i < sets@.len() implies (#[trigger] sets@[i]).wf(*frame)
                && sets@[i].hier_ofs == hierarchy_size(set_views(sets@.take(i))) by {
                assert(sets@.take(i) =~= before.take(i));
                if i == before.len() {
                    assert(before.take(i) =~= before);
                } else {
                    assert(sets@[i] == before[i]);
                }
            }
        }
    }
    Ok(sets)
}

/// Size in bytes of one segment of one set.
pub open spec fn navi_entry(d: Seq<u8>, lim: int, p: int, frame: XllFrame) -> Result<(u64, int), XllError> {
    let n = frame.seg_size_nbits as int;
    if p + n > lim {
        short()
    } else if field(d, p, n) >= frame.frame_size {
        Err(XllError::Invalid("NAVI segment size"))
    } else {
        Ok(((field(d, p, n) + 1) as u64, p + n))
    }
}

pub open spec fn navi_step(d: Seq<u8>, lim: int, frame: XllFrame) -> spec_fn(int, int) -> Result<
    (u64, int),
    XllError,
> {
    |i: int, q: int| navi_entry(d, lim, q, frame)
}

fn read_navi_entry(gb: &mut BitReader<'_>, frame: &XllFrame) -> (r: Result<u64, XllError>)
    requires
        old(gb).wf(),
        frame.wf(),
    ensures
        final(gb).wf(),
        final(gb).same_source(old(gb)),
        parsed(
            r,
            navi_entry(old(gb).data(), old(gb).limit(), old(gb).pos(), *frame),
            final(gb).pos(),
        ),
        old(gb).pos() <= final(gb).pos(),
        r matches Ok(v) ==> v <= 0x1_0000_0000,
{
    let size: u64 = rb(gb, frame.seg_size_nbits)? as u64;
    if size >= frame.frame_size {
        return Err(XllError::Invalid("NAVI segment size"));
    }
    Ok(size + 1)
}

fn read_navi(gb: &mut BitReader<'_>, frame: &XllFrame, n: usize) -> (r: Result<Vec<u64>, XllError>)
    requires
        old(gb).wf(),
        frame.wf(),
    ensures
        final(gb).wf(),
        final(gb).same_source(old(gb)),
        old(gb).pos() <= final(gb).pos(),
        match (r, repeat(navi_step(old(gb).data(), old(gb).limit(), *frame), old(gb).pos(), n as int)) {
            (Ok(v), Ok((want, q))) => v@ == want && v@.len() == n && final(gb).pos() == q,
            (Err(e), Err(f)) => e == f,
            _ => false,
        },
        r matches Ok(v) ==> forall|i: int| 0 <= i < v@.len() ==> #[trigger] v@[i] <= 0x1_0000_0000,
{
    let ghost step = navi_step(gb.data(), gb.limit(), *frame);
    let ghost p = gb.pos();
    let mut items: Vec<u64> = Vec::new();
    while items.len() < n
        invariant
            gb.wf(),
            gb.same_source(old(gb)),
            old(gb).pos() <= gb.pos(),
            p == old(gb).pos(),
            step == navi_step(gb.data(), gb.limit(), *frame),
            items@.len() <= n,
            repeat(step, p, items@.len() as int) == Ok::<_, XllError>((items@, gb.pos())),
        frame.wf(),
            forall|i: int| 0 <= i < items@.len() ==> #[trigger] items@[i] <= 0x1_0000_0000,
        decreases n - items.len(),
    {
        let ghost before = items@;
        proof {
            lemma_repeat_err_of(step, p, items@.len() as int, n as int);
        }
        let item = read_navi_entry(gb, frame)?;
        items.push(item);
        assert(items@ =~= before.push(item));
    }
    Ok(items)
}

/// The navigation table, set by set within each segment, and its checksum.
pub open spec fn navi_table(d: Seq<u8>, lim: int, p: int, frame: XllFrame) -> Result<
    (Seq<u64>, int),
    XllError,
> {
    let n = frame.nframesegs * frame.nchsets;
    if n > 1024 {
        Err(XllError::Invalid("too many NAVI entries"))
    } else {
        match repeat(navi_step(d, lim, frame), p, n) {
            Err(e) => Err(e),
            Ok((navi, q)) => if aligned(q, 8) + 16 > lim {
                short()
            } else {
                Ok((navi, aligned(q, 8) + 16))
            },
        }
    }
}

pub fn parse_navi_table(gb: &mut BitReader<'_>, frame: &XllFrame) -> (r: Result<Vec<u64>, XllError>)
    requires
        old(gb).wf(),
        frame.wf(),
    ensures
        final(gb).wf(),
        final(gb).same_source(old(gb)),
        match (r, navi_table(old(gb).data(), old(gb).limit(), old(gb).pos(), *frame)) {
            (Ok(v), Ok((want, q))) => {
                &&& v@ == want
                &&& v@.len() == frame.nframesegs * frame.nchsets
                &&& final(gb).pos() == q
                &&& q <= final(gb).limit()
            },
            (Err(e), Err(f)) => e == f,
            _ => false,
        },
        r matches Ok(v) ==> forall|i: int| 0 <= i < v@.len() ==> #[trigger] v@[i] <= 0x1_0000_0000,
{
    proof {
        assert(frame.nframesegs * frame.nchsets <= 0x8000 * 3) by (nonlinear_arith)
            requires
                frame.nframesegs <= 0x8000,
                frame.nchsets <= 3,
        ;
    }
    let n: usize = frame.nframesegs * frame.nchsets;
    if n > 1024 {
        return Err(XllError::Invalid("too many NAVI entries"));
    }
    let navi: Vec<u64> = read_navi(gb, frame, n)?;
    let rem: usize = gb.position() % 8;
    let pad: usize = if rem == 0 { 0 } else { 8 - rem };
    if gb.skip_bits(pad + 16).is_none() {
        return Err(XllError::Bitstream);
    }
    Ok(navi)
}

/// Sum of the first `n` sizes.
pub open spec fn total(sizes: Seq<u64>, n: int) -> int
    decreases n,
{
    if n <= 0 { 0 } else { total(sizes, n - 1) + sizes[n - 1] }
}

/// The bands of all sets before any segment.
pub open spec fn blank_bands(sets: Seq<XllChSetModel>) -> Seq<BandModel> {
    Seq::new(sets.len(), |i: int| blank_band(sets[i].head.nchannels as int))
}

/// The bands of all sets after `k` entries of the navigation table, the band
/// data starting at `start`.
pub open spec fn bands_after(
    d: Seq<u8>,
    lim: int,
    start: int,
    sets: Seq<XllChSetModel>,
    frame: XllFrame,
    navi: Seq<u64>,
    k: int,
) -> Result<Seq<BandModel>, XllError>
    decreases k,
{
    if k <= 0 {
        Ok(blank_bands(sets))
    } else {
        match bands_after(d, lim, start, sets, frame, navi, k - 1) {
            Err(e) => Err(e),
            Ok(bands) => {
                let from = start + 8 * total(navi, k - 1);
                let end = from + 8 * navi[k - 1];
                let c = (k - 1) % (sets.len() as int);
                let seg = (k - 1) / (sets.len() as int);
                if end > lim {
                    Err(XllError::Invalid("NAVI position"))
                } else {
                    match extended(d, lim, from, sets[c], frame, seg, end, bands[c]) {
                        Err(e) => Err(e),
                        Ok((band, _)) => Ok(bands.update(c, band)),
                    }
                }
            },
        }
    }
}

proof fn lemma_bands_err(
    d: Seq<u8>,
    lim: int,
    start: int,
    sets: Seq<XllChSetModel>,
    frame: XllFrame,
    navi: Seq<u64>,
    k: int,
    n: int,
)
    requires
        k <= n,
        bands_after(d, lim, start, sets, frame, navi, k) is Err,
    ensures
        bands_after(d, lim, start, sets, frame, navi, n) == bands_after(
            d,
            lim,
            start,
            sets,
            frame,
            navi,
            k,
        ),
    decreases n - k,
{
    if k < n {
        lemma_bands_err(d, lim, start, sets, frame, navi, k, n - 1);
    }
}

pub open spec fn band_views(v: Seq<XllBand>) -> Seq<BandModel> {
    Seq::new(v.len(), |i: int| v[i]@)
}

/// Bands that hold `segs` segments of their sets, and one more of the first
/// `ahead` sets.
pub open spec fn bands_wf(
    bands: Seq<XllBand>,
    sets: Seq<XllChSet>,
    frame: XllFrame,
    segs: int,
    ahead: int,
) -> bool {
    &&& bands.len() == sets.len()
    &&& forall|i: int|
        0 <= i < bands.len() ==> (#[trigger] bands[i]).wf(
            sets[i],
            frame,
            if i < ahead { segs + 1 } else { segs },
        )
}

fn new_bands(sets: &Vec<XllChSet>, frame: &XllFrame) -> (r: Vec<XllBand>)
    requires
        frame.wf(),
        sets_wf(sets@, *frame),
    ensures
        band_views(r@) == blank_bands(set_views(sets@)),
        bands_wf(r@, sets@, *frame, 0, 0),
{
    let mut r: Vec<XllBand> = Vec::new();
    while r.len() < sets.len()
        invariant
            frame.wf(),
            sets_wf(sets@, *frame),
            r@.len() <= sets@.len(),
            forall|i: int|
                0 <= i < r@.len() ==> (#[trigger] r@[i])@ == blank_band(sets@[i].head.nchannels as int)
                    && r@[i].wf(sets@[i], *frame, 0),
        decreases sets.len() - r.len(),
    {
        let k: usize = r.len();
        assert(sets@[k as int].wf(*frame));
        let band: XllBand = XllBand::new(sets[k].head.nchannels);
        assert(band.wf(sets@[k as int], *frame, 0));
        r.push(band);
    }
    assert(band_views(r@) =~= blank_bands(set_views(sets@)));
    r
}

proof fn lemma_entry(seg: int, chs: int, n: int)
    requires
        0 <= seg,
        0 <= chs < n,
    ensures
        (seg * n + chs) / n == seg,
        (seg * n + chs) % n == chs,
        seg * n + chs >= 0,
{
    vstd::arithmetic::div_mod::lemma_fundamental_div_mod_converse(seg * n + chs, n, seg, chs);
    assert(seg * n >= 0) by (nonlinear_arith)
        requires
            0 <= seg,
            0 < n,
    ;
}

fn parse_one_band(
    gb: &mut BitReader<'_>,
    set: &XllChSet,
    frame: &XllFrame,
    seg: usize,
    size: u64,
    band: &mut XllBand,
) -> (r: Result<(), XllError>)
    requires
        old(gb).wf(),
        old(gb).pos() <= old(gb).limit(),
        frame.wf(),
        set.wf(*frame),
        old(band).wf(*set, *frame, seg as int),
        size <= 0x1_0000_0000,
    ensures
        final(gb).wf(),
        final(gb).same_source(old(gb)),
        ({
            let end = old(gb).pos() + 8 * size;
            if end > old(gb).limit() {
                r == Err::<(), XllError>(XllError::Invalid("NAVI position"))
            } else {
                match (
                    r,
                    extended(
                        old(gb).data(),
                        old(gb).limit(),
                        old(gb).pos(),
                        set@,
                        *frame,
                        seg as int,
                        end,
                        old(band)@,
                    ),
                ) {
                    (Ok(_), Ok((want, _))) => {
                        &&& final(band)@ == want
                        &&& final(band).wf(*set, *frame, seg + 1)
                        &&& final(gb).pos() == end
                    },
                    (Err(e), Err(f)) => e == f,
                    _ => false,
                }
            }
        }),
{
    if 8 * size > gb.remaining() as u64 {
        return Err(XllError::Invalid("NAVI position"));
    }
    let end: usize = gb.position() + (8 * size) as usize;
    chs_parse_band_data(gb, set, frame, seg, end, band)?;
    let moved: bool = gb.seek(end);
    assert(moved);
    Ok(())
}

/// Decode the band data of every segment of every set.
pub fn parse_band_data(
    gb: &mut BitReader<'_>,
    sets: &Vec<XllChSet>,
    frame: &XllFrame,
    navi: &Vec<u64>,
) -> (r: Result<Vec<XllBand>, XllError>)
    requires
        old(gb).wf(),
        old(gb).pos() <= old(gb).limit(),
        frame.wf(),
        sets@.len() == frame.nchsets,
        sets_wf(sets@, *frame),
        navi@.len() == frame.nframesegs * frame.nchsets,
        forall|i: int| 0 <= i < navi@.len() ==> #[trigger] navi@[i] <= 0x1_0000_0000,
    ensures
        final(gb).wf(),
        final(gb).same_source(old(gb)),
        match (
            r,
            bands_after(
                old(gb).data(),
                old(gb).limit(),
                old(gb).pos(),
                set_views(sets@),
                *frame,
                navi@,
                navi@.len() as int,
            ),
        ) {
            (Ok(v), Ok(want)) => {
                &&& band_views(v@) == want
                &&& bands_wf(v@, sets@, *frame, frame.nframesegs as int, 0)
                &&& final(gb).pos() == old(gb).pos() + 8 * total(navi@, navi@.len() as int)
            },
            (Err(e), Err(f)) => e == f,
            _ => false,
        },
        r is Ok ==> final(gb).pos() <= final(gb).limit(),
{
    let ghost d = gb.data();
    let ghost lim = gb.limit();
    let ghost start = gb.pos();
    let ghost models = set_views(sets@);
    let n: usize = frame.nchsets;
    let mut bands: Vec<XllBand> = new_bands(sets, frame);
    let count: usize = navi.len();
    let mut seg: usize = 0;
    let mut k: usize = 0;
    while seg < frame.nframesegs
        invariant
            gb.wf(),
            gb.data() == d,
            gb.limit() == lim,
            gb.pos() <= lim,
            d == old(gb).data(),
            lim == old(gb).limit(),
            start == old(gb).pos(),
            models == set_views(sets@),
            count == navi@.len(),
            n == frame.nchsets,
            n == sets@.len(),
            frame.wf(),
            sets_wf(sets@, *frame),
            navi@.len() == frame.nframesegs * n,
            forall|i: int| 0 <= i < navi@.len() ==> #[trigger] navi@[i] <= 0x1_0000_0000,
            seg <= frame.nframesegs,
            k == seg * n,
            k <= navi@.len(),
            bands_wf(bands@, sets@, *frame, seg as int, 0),
            gb.pos() == start + 8 * total(navi@, k as int),
            bands_after(d, lim, start, models, *frame, navi@, k as int) == Ok::<
                Seq<BandModel>,
                XllError,
            >(band_views(bands@)),
        decreases frame.nframesegs - seg,
    {
        let mut chs: usize = 0;
        proof {
            assert((seg + 1) * n <= frame.nframesegs * n) by (nonlinear_arith)
                requires
                    seg + 1 <= frame.nframesegs,
                    n >= 0,
            ;
            assert((seg + 1) * n == seg * n + n) by (nonlinear_arith);
        }
        while chs < n
            invariant
                gb.wf(),
                gb.data() == d,
                gb.limit() == lim,
                gb.pos() <= lim,
                d == old(gb).data(),
                lim == old(gb).limit(),
                start == old(gb).pos(),
                models == set_views(sets@),
                count == navi@.len(),
                n == sets@.len(),
                frame.wf(),
                sets_wf(sets@, *frame),
                forall|i: int| 0 <= i < navi@.len() ==> #[trigger] navi@[i] <= 0x1_0000_0000,
                seg < frame.nframesegs,
                chs <= n,
                k == seg * n + chs,
                seg * n + n <= navi@.len(),
                bands_wf(bands@, sets@, *frame, seg as int, chs as int),
                gb.pos() == start + 8 * total(navi@, k as int),
                bands_after(d, lim, start, models, *frame, navi@, k as int) == Ok::<
                    Seq<BandModel>,
                    XllError,
                >(band_views(bands@)),
            decreases n - chs,
        {
            let ghost before = bands@;
            proof {
                lemma_entry(seg as int, chs as int, n as int);
                if bands_after(d, lim, start, models, *frame, navi@, k + 1) is Err {
                    lemma_bands_err(
                        d,
                        lim,
                        start,
                        models,
                        *frame,
                        navi@,
                        k + 1,
                        navi@.len() as int,
                    );
                }
                assert(sets@[chs as int].wf(*frame));
                assert(bands@[chs as int].wf(sets@[chs as int], *frame, seg as int));
            }
            parse_one_band(gb, &sets[chs], frame, seg, navi[k], &mut bands[chs])?;
            proof {
                assert(band_views(bands@) =~= band_views(before).update(
                    chs as int,
                    bands@[chs as int]@,
                ));
                assert forall|i: int| 0 <= i < bands@.len() implies (#[trigger] bands@[i]).wf(
                    sets@[i],
                    *frame,
                    if i < chs + 1 { seg + 1 } else { seg as int },
                ) by {
                    if i != chs {
                        assert(bands@[i] == before[i]);
                    }
                }
            }
            chs = chs + 1;
            k = k + 1;
        }
        proof {
            assert forall|i: int| 0 <= i < bands@.len() implies (#[trigger] bands@[i]).wf(
                sets@[i],
                *frame,
                if i < 0 { seg + 2 } else { seg + 1 },
            ) by {
            }
        }
        seg = seg + 1;
    }
    assert(navi@.len() == k);
    Ok(bands)
}


} // verus!
