//! The spatial extension behind a lossless frame: where it stands, and the
//! channel sets it carries.

use vstd::prelude::*;
use vstd::slice::slice_subrange;
use crate::bits::{aligned, code_space, field, BitReader};
use crate::grammar::rows;
use super::alternate::{
    alternate_layout, geometry_wf, layout, AlternateGeometry, AlternateHeader, AlternateLayout,
    DCA_SYNCWORD_XLL_X_ALT_D0, DCA_SYNCWORD_XLL_X_ALT_D1, DCA_SYNCWORD_XLL_X_ALT_D3,
    XLL_X_ALT_FRAME_SAMPLES, XLL_X_ALT_MAX_INTERSTITIAL,
};
use super::crc::{crc16_ccitt, crc_of};
use super::xll_band::{blank_band, chs_parse_band_data, extended, BandModel, XllBand};
use super::xll_error::XllError;
use super::xll_filter::{all_assembled, chs_assemble_msbs_lsbs, chs_filter_band_data, filtered};
use super::xll_frame::{bands_after, parse_band_data, set_views, total};
use super::xll_header::{
    channel_set, chs_parse_header_with_mapping, ChsMappingSyntax, XllChSet, XllChSetModel,
    XllFrame, XllTables,
};
use super::xll_output::{upshift, upshifted};

verus! {

/// First word of the standard extension.
pub const DCA_SYNCWORD_XLL_X: u32 = 0x0200_0850;

/// Byte at which the standard extension's channel set starts.
pub const X_CHSET_OFFSET: usize = 22;

/// An extension payload found behind the band data.
#[derive(Clone, Debug)]
pub struct XPayload {
    /// One of the alternate profiles, not the standard one.
    pub alternate: bool,
    pub offset: usize,
    /// Found by the asset descriptor, not by position alone.
    pub navigated: bool,
    pub data: Vec<u8>,
}

pub ghost struct XPayloadModel {
    pub alternate: bool,
    pub offset: int,
    pub navigated: bool,
    pub data: Seq<u8>,
}

impl View for XPayload {
    type V = XPayloadModel;

    open spec fn view(&self) -> XPayloadModel {
        XPayloadModel {
            alternate: self.alternate,
            offset: self.offset as int,
            navigated: self.navigated,
            data: self.data@,
        }
    }
}

/// The descriptor's offset and size agree with the frame's end and with a
/// sync word at that place.
pub open spec fn hint_holds(d: Seq<u8>, frame_end: int, offset: int, size: int) -> bool {
    &&& size <= frame_end
    &&& frame_end - size == offset
    &&& offset + 4 <= d.len()
    &&& field(d, 8 * offset, 32) == DCA_SYNCWORD_XLL_X
}

/// End of a frame inside its bytes.
pub open spec fn frame_end(d: Seq<u8>, frame_size: u64) -> int {
    if frame_size < d.len() { frame_size as int } else { d.len() as int }
}

/// The extension after bit `pos`: at the next 32-bit boundary, or where the
/// descriptor says.
pub open spec fn x_payload(
    d: Seq<u8>,
    frame_size: u64,
    pos: int,
    hint: Option<(usize, usize)>,
) -> Option<XPayloadModel> {
    let end = frame_end(d, frame_size);
    let plain = aligned(pos, 32) / 8;
    let navigated = match hint {
        Some((offset, size)) => hint_holds(d, end, offset as int, size as int),
        None => false,
    };
    let start = if navigated { (hint->0).0 as int } else { plain };
    let sync = field(d, 8 * start, 32);
    if end <= plain || start + 4 > d.len() {
        None
    } else if sync == DCA_SYNCWORD_XLL_X || sync == DCA_SYNCWORD_XLL_X_ALT_D0 || sync
        == DCA_SYNCWORD_XLL_X_ALT_D1 || sync == DCA_SYNCWORD_XLL_X_ALT_D3 {
        Some(
            XPayloadModel {
                alternate: sync != DCA_SYNCWORD_XLL_X,
                offset: if start < end { start } else { 0 },
                navigated,
                data: d.subrange(start, end),
            },
        )
    } else {
        None
    }
}

fn word_at(data: &[u8], byte: usize) -> (r: Option<u32>)
    requires
        8 * data@.len() <= usize::MAX,
    ensures
        match r {
            Some(v) => byte + 4 <= data@.len() && v == field(data@, 8 * byte, 32),
            None => byte + 4 > data@.len(),
        },
{
    if data.len() < 4 || byte > data.len() - 4 {
        return None;
    }
    let reader: BitReader = BitReader::with_offset(data, 8 * byte);
    reader.show_bits(32)
}

fn copy_range(data: &[u8], from: usize, to: usize) -> (r: Vec<u8>)
    requires
        from <= to <= data@.len(),
    ensures
        r@ == data@.subrange(from as int, to as int),
{
    let mut r: Vec<u8> = Vec::new();
    let mut i: usize = from;
    while i < to
        invariant
            from <= i <= to <= data@.len(),
            r@ == data@.subrange(from as int, i as int),
        decreases to - i,
    {
        r.push(data[i]);
        assert(data@.subrange(from as int, i + 1) =~= data@.subrange(from as int, i as int).push(
            data@[i as int],
        ));
        i = i + 1;
    }
    r
}

/// Find the extension of a frame whose band data ended at bit `pos`.
pub fn detect_x_extension(
    data: &[u8],
    frame_size: u64,
    pos: usize,
    hint: Option<(usize, usize)>,
) -> (r: Option<XPayload>)
    requires
        8 * data@.len() <= usize::MAX,
        pos <= 8 * data@.len(),
    ensures
        match (r, x_payload(data@, frame_size, pos as int, hint)) {
            (Some(v), Some(want)) => v@ == want,
            (None, None) => true,
            _ => false,
        },
{
    let len: usize = data.len();
    let end: usize = if frame_size < len as u64 { frame_size as usize } else { len };
    let plain: usize = pos / 32 * 4 + if pos % 32 == 0 { 0 } else { 4 };
    if end <= plain {
        return None;
    }
    let mut start: usize = plain;
    let mut navigated: bool = false;
    if let Some((offset, size)) = hint {
        if size <= end && end - size == offset {
            if let Some(word) = word_at(data, offset) {
                if word == DCA_SYNCWORD_XLL_X {
                    start = offset;
                    navigated = true;
                }
            }
        }
    }
    let sync: u32 = match word_at(data, start) {
        Some(v) => v,
        None => return None,
    };
    let standard: bool = sync == DCA_SYNCWORD_XLL_X;
    if !standard && sync != DCA_SYNCWORD_XLL_X_ALT_D0 && sync != DCA_SYNCWORD_XLL_X_ALT_D1 && sync
        != DCA_SYNCWORD_XLL_X_ALT_D3 {
        return None;
    }
    Some(
        XPayload {
            alternate: !standard,
            offset: if start < end { start } else { 0 },
            navigated,
            data: copy_range(data, start, end),
        },
    )
}

/// Waveforms of an extension, none of which has a speaker.
#[derive(Clone, Debug)]
pub struct XAudio {
    pub samples: Vec<Vec<i32>>,
    pub pcm_bit_res: usize,
    pub bits_consumed: usize,
}

pub ghost struct XAudioModel {
    pub samples: Seq<Seq<i32>>,
    pub pcm_bit_res: usize,
    pub bits_consumed: int,
}

impl View for XAudio {
    type V = XAudioModel;

    open spec fn view(&self) -> XAudioModel {
        XAudioModel {
            samples: rows(self.samples@),
            pcm_bit_res: self.pcm_bit_res,
            bits_consumed: self.bits_consumed as int,
        }
    }
}

/// Entries of `w` bits from bit `p` on, each a size less one.
pub open spec fn entries(d: Seq<u8>, p: int, w: int, n: int) -> Seq<u64> {
    Seq::new(n as nat, |i: int| (field(d, p + w * i, w) + 1) as u64)
}

/// Bytes of a navigation table with its checksum.
pub open spec fn table_size(n: int, w: int) -> int {
    (n * w + 7) / 8 + 2
}

fn read_entries(data: &[u8], start: usize, w: usize, n: usize) -> (r: Vec<u64>)
    requires
        8 * data@.len() <= usize::MAX,
        1 <= w <= 32,
        n <= 0x8000,
        start + table_size(n as int, w as int) <= data@.len(),
    ensures
        r@ == entries(data@, 8 * start, w as int, n as int),
        r@.len() == n,
        forall|i: int| 0 <= i < n ==> #[trigger] r@[i] <= 0x1_0000_0000,
{
    let mut gb: BitReader = BitReader::with_offset(data, 8 * start);
    let mut r: Vec<u64> = Vec::new();
    assert(w * 0 == 0) by (nonlinear_arith);
    while r.len() < n
        invariant
            gb.wf(),
            gb.data() == data@,
            gb.limit() == 8 * data@.len(),
            1 <= w <= 32,
            n <= 0x8000,
            start + table_size(n as int, w as int) <= data@.len(),
            r@.len() <= n,
            gb.pos() == 8 * start + w * r@.len(),
            forall|i: int|
                0 <= i < r@.len() ==> #[trigger] r@[i] == field(data@, 8 * start + w * i, w as int) + 1
                    && r@[i] <= 0x1_0000_0000,
        decreases n - r.len(),
    {
        let ghost k = r@.len() as int;
        proof {
            assert(w * (k + 1) == w * k + w) by (nonlinear_arith);
            assert(w * (k + 1) <= n * w) by (nonlinear_arith)
                requires
                    k + 1 <= n,
                    w >= 1,
            ;
        }
        match gb.read_bits(w) {
            Some(v) => {
                r.push(v as u64 + 1);
            },
            None => {
                assert(false);
            },
        }
    }
    assert(r@ =~= entries(data@, 8 * start, w as int, n as int));
    r
}

fn sum(sizes: &Vec<u64>) -> (r: u64)
    requires
        sizes@.len() <= 0x8000,
        forall|i: int| 0 <= i < sizes@.len() ==> #[trigger] sizes@[i] <= 0x1_0000_0000,
    ensures
        r == total(sizes@, sizes@.len() as int),
        r <= 0x8000_0000_0000,
{
    let mut r: u64 = 0;
    let mut i: usize = 0;
    while i < sizes.len()
        invariant
            i <= sizes@.len() <= 0x8000,
            forall|i: int| 0 <= i < sizes@.len() ==> #[trigger] sizes@[i] <= 0x1_0000_0000,
            r == total(sizes@, i as int),
            r <= 0x1_0000_0000 * i,
        decreases sizes.len() - i,
    {
        r = r + sizes[i];
        i = i + 1;
    }
    r
}

/// The frame as a single channel set sees it.
pub open spec fn single(frame: XllFrame) -> XllFrame {
    XllFrame { nchsets: 1, ..frame }
}

/// The mapping of the standard extension's set.
pub open spec fn bare_mapping() -> ChsMappingSyntax {
    ChsMappingSyntax::Asset { one_to_one: false, is_primary: true, allow_unmapped: true }
}

/// The channel-set header of the standard extension: four channels, none of
/// them over the core.
pub open spec fn standard_set(d: Seq<u8>, t: XllTables, frame: XllFrame) -> Result<
    (XllChSetModel, int),
    XllError,
> {
    if d.len() <= X_CHSET_OFFSET {
        Err(XllError::Invalid("short XLL-X payload"))
    } else {
        match channel_set(
            d,
            8 * d.len() as int,
            8 * X_CHSET_OFFSET as int,
            t,
            frame,
            bare_mapping(),
            0,
        ) {
            Err(e) => Err(e),
            Ok((set, q)) => if set.head.nchannels != 4 {
                Err(XllError::Invalid("unexpected XLL-X channel count"))
            } else if set.head.residual_encode != 15 {
                Err(XllError::Unsupported("XLL-X core-referenced channels"))
            } else {
                Ok((set, q))
            },
        }
    }
}

/// Samples of a bare set from its decoded bands.
pub open spec fn bare_rows(set: XllChSetModel, frame: XllFrame, band: BandModel) -> Seq<Seq<i32>> {
    let plain = filtered(set.prediction, set.decorrelation, band.msb);
    if frame.scalable_lsbs { all_assembled(set, frame, plain, band.lsb) } else { plain }
}

/// Rows at 24 bits.
pub open spec fn raised_rows(v: Seq<Seq<i32>>, shift: int) -> Seq<Seq<i32>> {
    Seq::new(v.len(), |i: int| upshifted(v[i], shift))
}

/// Where the standard extension's segments stand: their sizes and the byte at
/// which they start.
pub open spec fn standard_navi(d: Seq<u8>, frame: XllFrame, q: int) -> Result<(Seq<u64>, int), XllError> {
    let n = frame.nframesegs as int;
    let w = frame.seg_size_nbits as int;
    let start = q / 8 + table_size(n, w);
    let navi = entries(d, 8 * (q / 8), w, n);
    let end = start + total(navi, n);
    if d.len() < start {
        Err(XllError::Invalid("short XLL-X navigation table"))
    } else if end > d.len() || d.len() - end > 5 {
        Err(XllError::Invalid("XLL-X navigation size mismatch"))
    } else {
        Ok((navi, start))
    }
}

/// The audio of a standard extension, given its set as parsed.
pub open spec fn standard_audio(
    d: Seq<u8>,
    frame: XllFrame,
    set: XllChSetModel,
    q: int,
) -> Result<XAudioModel, XllError> {
    match standard_navi(d, frame, q) {
        Err(e) => Err(e),
        Ok((navi, start)) => match bands_after(
            d,
            8 * d.len() as int,
            8 * start,
            seq![set],
            single(frame),
            navi,
            navi.len() as int,
        ) {
            Err(e) => Err(e),
            Ok(bands) => Ok(
                XAudioModel {
                    samples: raised_rows(
                        bare_rows(set, single(frame), bands[0]),
                        24 - set.head.pcm_bit_res,
                    ),
                    pcm_bit_res: set.head.pcm_bit_res,
                    bits_consumed: 8 * (start + total(navi, navi.len() as int)),
                },
            ),
        },
    }
}

fn raise_rows(v: &Vec<Vec<i32>>, shift: usize) -> (r: Vec<Vec<i32>>)
    requires
        shift <= 24,
    ensures
        rows(r@) == raised_rows(rows(v@), shift as int),
{
    let mut r: Vec<Vec<i32>> = Vec::new();
    while r.len() < v.len()
        invariant
            r@.len() <= v@.len(),
            shift <= 24,
            forall|i: int|
                0 <= i < r@.len() ==> (#[trigger] r@[i])@ == upshifted(v@[i]@, shift as int),
        decreases v.len() - r.len(),
    {
        let row: Vec<i32> = upshift(&v[r.len()], shift);
        r.push(row);
    }
    assert(rows(r@) =~= raised_rows(rows(v@), shift as int));
    r
}

/// Parse the standard extension's channel set.
fn parse_standard_set(payload: &[u8], t: &XllTables, frame: &XllFrame) -> (r: Result<
    (XllChSet, usize),
    XllError,
>)
    requires
        8 * payload@.len() <= usize::MAX,
        t.wf(),
        frame.wf(),
    ensures
        match (r, standard_set(payload@, *t, *frame)) {
            (Ok((set, q)), Ok((want, s))) => {
                &&& set@ == want
                &&& set.wf(*frame)
                &&& set.hier_ofs == 0
                &&& q == s
                &&& q <= 8 * payload@.len()
            },
            (Err(e), Err(f)) => e == f,
            _ => false,
        },
{
    if payload.len() <= X_CHSET_OFFSET {
        return Err(XllError::Invalid("short XLL-X payload"));
    }
    let mut gb: BitReader = BitReader::with_offset(payload, 8 * X_CHSET_OFFSET);
    let mapping = ChsMappingSyntax::Asset {
        one_to_one: false,
        is_primary: true,
        allow_unmapped: true,
    };
    proof {
        reveal(channel_set);
    }
    let set: XllChSet = chs_parse_header_with_mapping(&mut gb, t, frame, mapping, 0)?;
    if set.head.nchannels != 4 {
        return Err(XllError::Invalid("unexpected XLL-X channel count"));
    }
    if set.head.residual_encode != 15 {
        return Err(XllError::Unsupported("XLL-X core-referenced channels"));
    }
    Ok((set, gb.position()))
}

fn decode_standard_audio(payload: &[u8], frame: &XllFrame, set: XllChSet, q: usize) -> (r: Result<
    XAudio,
    XllError,
>)
    requires
        8 * payload@.len() <= usize::MAX,
        frame.wf(),
        set.wf(*frame),
        set.hier_ofs == 0,
        q <= 8 * payload@.len(),
    ensures
        match (r, standard_audio(payload@, *frame, set@, q as int)) {
            (Ok(v), Ok(want)) => v@ == want,
            (Err(e), Err(f)) => e == f,
            _ => false,
        },
{
    let n: usize = frame.nframesegs;
    let w: usize = frame.seg_size_nbits;
    proof {
        assert(0 <= n * w <= 0x8000 * 32) by (nonlinear_arith)
            requires
                0 <= n <= 0x8000,
                0 <= w <= 32,
        ;
    }
    let size: usize = (n * w + 7) / 8 + 2;
    let navi_start: usize = q / 8;
    if payload.len() - navi_start < size {
        return Err(XllError::Invalid("short XLL-X navigation table"));
    }
    let navi: Vec<u64> = read_entries(payload, navi_start, w, n);
    let start: usize = navi_start + size;
    let bytes: u64 = sum(&navi);
    let left: u64 = (payload.len() - start) as u64;
    if bytes > left || left - bytes > 5 {
        return Err(XllError::Invalid("XLL-X navigation size mismatch"));
    }
    let mut gb: BitReader = BitReader::with_offset(payload, 8 * start);
    let one: XllFrame = XllFrame { nchsets: 1, ..*frame };
    let shift: usize = 24 - set.head.pcm_bit_res;
    let pcm_bit_res: usize = set.head.pcm_bit_res;
    let mut sets: Vec<XllChSet> = Vec::new();
    sets.push(set);
    proof {
        assert(set_views(sets@) =~= seq![set@]);
        assert(set_views(sets@.take(0)) =~= Seq::empty());
        assert(one.nframesegs * one.nchsets == n) by (nonlinear_arith)
            requires
                one.nframesegs == n,
                one.nchsets == 1,
        ;
    }
    let mut bands: Vec<XllBand> = parse_band_data(&mut gb, &sets, &one, &navi)?;
    let ghost decoded = bands@[0]@;
    assert(bands@[0].wf(set, one, one.nframesegs as int));
    chs_filter_band_data(&sets[0], &one, &mut bands[0]);
    if one.scalable_lsbs {
        chs_assemble_msbs_lsbs(&sets[0], &one, &mut bands[0]);
    }
    assert(rows(bands@[0].msb@) == bare_rows(set@, one, decoded));
    let samples: Vec<Vec<i32>> = raise_rows(&bands[0].msb, shift);
    Ok(XAudio { samples, pcm_bit_res, bits_consumed: gb.position() })
}

/// The whole of a standard extension: its audio, and the header bits it left
/// unread once its header was accepted.
pub fn decode_standard(payload: &[u8], t: &XllTables, frame: &XllFrame) -> (r: (
    Result<XAudio, XllError>,
    usize,
))
    requires
        8 * payload@.len() <= usize::MAX,
        t.wf(),
        frame.wf(),
    ensures
        match standard_set(payload@, *t, *frame) {
            Err(e) => r.0 == Err::<XAudio, XllError>(e) && r.1 == 0,
            Ok((set, q)) => {
                &&& r.1 == set.header_tail_bits
                &&& match (r.0, standard_audio(payload@, *frame, set, q)) {
                    (Ok(v), Ok(want)) => v@ == want,
                    (Err(e), Err(f)) => e == f,
                    _ => false,
                }
            },
        },
{
    match parse_standard_set(payload, t, frame) {
        Err(e) => (Err(e), 0),
        Ok((set, q)) => {
            let tail: usize = set.header_tail_bits;
            (decode_standard_audio(payload, frame, set, q), tail)
        },
    }
}

/// The frame an alternate channel set is decoded in: 512 samples in the
/// segments its control states. Its size is never consulted.
pub open spec fn alternate_frame(g: AlternateGeometry) -> XllFrame {
    let log2 = if g.segments == 1 {
        9usize
    } else if g.segments == 2 {
        8usize
    } else if g.segments == 4 {
        7usize
    } else {
        6usize
    };
    XllFrame {
        frame_size: 1,
        nchsets: 1,
        nframesegs: g.segments,
        nsegsamples_log2: log2,
        nsegsamples: code_space(log2 as int) as usize,
        nframesamples: XLL_X_ALT_FRAME_SAMPLES,
        seg_size_nbits: g.navigation_size_bits,
        band_crc_present: 0,
        scalable_lsbs: false,
        ch_mask_nbits: 1,
        fixed_lsb_width: 0,
    }
}

fn make_alternate_frame(g: &AlternateGeometry) -> (r: XllFrame)
    requires
        geometry_wf(*g),
    ensures
        r == alternate_frame(*g),
        r.wf(),
{
    let (log2, samples): (usize, usize) = if g.segments == 1 {
        (9, 512)
    } else if g.segments == 2 {
        (8, 256)
    } else if g.segments == 4 {
        (7, 128)
    } else {
        (6, 64)
    };
    XllFrame {
        frame_size: 1,
        nchsets: 1,
        nframesegs: g.segments,
        nsegsamples_log2: log2,
        nsegsamples: samples,
        nframesamples: XLL_X_ALT_FRAME_SAMPLES,
        seg_size_nbits: g.navigation_size_bits,
        band_crc_present: 0,
        scalable_lsbs: false,
        ch_mask_nbits: 1,
        fixed_lsb_width: 0,
    }
}

/// The header of an alternate channel set, which must be the one its layout
/// announced and stand free of the core.
pub open spec fn alternate_set(
    d: Seq<u8>,
    t: XllTables,
    header: AlternateHeader,
    frame: XllFrame,
    boundary: int,
) -> Result<XllChSetModel, XllError> {
    if boundary > d.len() || header.offset + header.size > boundary {
        Err(XllError::Invalid("alternate XLL channel-set bounds"))
    } else {
        match channel_set(
            d,
            8 * d.len() as int,
            8 * header.offset as int,
            t,
            frame,
            ChsMappingSyntax::AlternatePrefix(2),
            0,
        ) {
            Err(e) => Err(e),
            Ok((set, q)) => if q != 8 * (header.offset + header.size) || set.head.nchannels
                != header.channels || set.head.residual_encode != code_space(
                header.channels as int,
            ) - 1 {
                Err(XllError::Invalid("alternate XLL channel-set header"))
            } else {
                Ok(set)
            },
        }
    }
}

/// The navigation table of an alternate set at byte `at`: its entries and the
/// byte behind it.
pub open spec fn alternate_navi(d: Seq<u8>, g: AlternateGeometry, at: int, boundary: int) -> Result<
    (Seq<u64>, int),
    XllError,
> {
    let n = g.segments as int;
    let w = g.navigation_size_bits as int;
    let start = at + table_size(n, w);
    let navi = entries(d, 8 * at, w, n);
    let end = start + total(navi, n);
    if start > boundary {
        Err(XllError::Invalid("short alternate XLL NAVI"))
    } else if crc_of(d.subrange(at, start)) != 0 {
        Err(XllError::Invalid("alternate XLL NAVI CRC"))
    } else if end > boundary {
        Err(XllError::Invalid("alternate XLL audio exceeds boundary"))
    } else if boundary - end > XLL_X_ALT_MAX_INTERSTITIAL {
        Err(XllError::Invalid("alternate XLL interstitial too large"))
    } else {
        Ok((navi, start))
    }
}

/// The band of an alternate set after `k` segments; each must end within 32
/// bits of the end its entry gives.
pub open spec fn alternate_band(
    d: Seq<u8>,
    set: XllChSetModel,
    frame: XllFrame,
    navi: Seq<u64>,
    start: int,
    k: int,
) -> Result<BandModel, XllError>
    decreases k,
{
    if k <= 0 {
        Ok(blank_band(set.head.nchannels as int))
    } else {
        match alternate_band(d, set, frame, navi, start, k - 1) {
            Err(e) => Err(e),
            Ok(band) => {
                let from = 8 * (start + total(navi, k - 1));
                let end = 8 * (start + total(navi, k));
                match extended(d, 8 * d.len() as int, from, set, frame, k - 1, end, band) {
                    Err(e) => Err(e),
                    Ok((next, q)) => if q > end || end - q > 32 {
                        Err(XllError::Invalid("alternate XLL band trailing bits"))
                    } else {
                        Ok(next)
                    },
                }
            },
        }
    }
}

proof fn lemma_alternate_err(
    d: Seq<u8>,
    set: XllChSetModel,
    frame: XllFrame,
    navi: Seq<u64>,
    start: int,
    k: int,
    n: int,
)
    requires
        k <= n,
        alternate_band(d, set, frame, navi, start, k) is Err,
    ensures
        alternate_band(d, set, frame, navi, start, n) == alternate_band(
            d,
            set,
            frame,
            navi,
            start,
            k,
        ),
    decreases n - k,
{
    if k < n {
        lemma_alternate_err(d, set, frame, navi, start, k, n - 1);
    }
}

/// One alternate channel set: its resolution, its samples, and the bit at
/// which it ends.
pub open spec fn alternate_channel_set(
    d: Seq<u8>,
    t: XllTables,
    header: AlternateHeader,
    g: AlternateGeometry,
    boundary: int,
) -> Result<(usize, Seq<Seq<i32>>, int), XllError> {
    let frame = alternate_frame(g);
    match alternate_set(d, t, header, frame, boundary) {
        Err(e) => Err(e),
        Ok(set) => match alternate_navi(d, g, header.offset + header.size, boundary) {
            Err(e) => Err(e),
            Ok((navi, start)) => match alternate_band(
                d,
                set,
                frame,
                navi,
                start,
                g.segments as int,
            ) {
                Err(e) => Err(e),
                Ok(band) => Ok(
                    (
                        set.head.pcm_bit_res,
                        bare_rows(set, frame, band),
                        8 * (start + total(navi, g.segments as int)),
                    ),
                ),
            },
        },
    }
}

fn parse_alternate_set(
    payload: &[u8],
    t: &XllTables,
    header: AlternateHeader,
    frame: &XllFrame,
    boundary: usize,
) -> (r: Result<XllChSet, XllError>)
    requires
        8 * payload@.len() <= usize::MAX,
        t.wf(),
        frame.wf(),
    ensures
        match (r, alternate_set(payload@, *t, header, *frame, boundary as int)) {
            (Ok(set), Ok(want)) => {
                &&& set@ == want
                &&& set.wf(*frame)
                &&& header.offset + header.size <= boundary <= payload@.len()
            },
            (Err(e), Err(f)) => e == f,
            _ => false,
        },
{
    if boundary > payload.len() || header.offset > boundary || header.size > boundary
        - header.offset {
        return Err(XllError::Invalid("alternate XLL channel-set bounds"));
    }
    let mut gb: BitReader = BitReader::with_offset(payload, 8 * header.offset);
    let set: XllChSet = chs_parse_header_with_mapping(
        &mut gb,
        t,
        frame,
        ChsMappingSyntax::AlternatePrefix(2),
        0,
    )?;
    if gb.position() != 8 * (header.offset + header.size) || set.head.nchannels
        != header.channels {
        return Err(XllError::Invalid("alternate XLL channel-set header"));
    }
    let full: u32 = (crate::bits::power_of_two(set.head.nchannels as u32) - 1) as u32;
    if set.head.residual_encode != full {
        return Err(XllError::Invalid("alternate XLL channel-set header"));
    }
    Ok(set)
}

fn parse_alternate_navi(payload: &[u8], g: &AlternateGeometry, at: usize, boundary: usize) -> (r: Result<
    (Vec<u64>, usize),
    XllError,
>)
    requires
        8 * payload@.len() <= usize::MAX,
        geometry_wf(*g),
        at <= boundary <= payload@.len(),
    ensures
        match (r, alternate_navi(payload@, *g, at as int, boundary as int)) {
            (Ok((navi, start)), Ok((want, s))) => {
                &&& navi@ == want
                &&& navi@.len() == g.segments
                &&& start == s
                &&& start + total(navi@, navi@.len() as int) <= boundary
                &&& forall|i: int| 0 <= i < navi@.len() ==> #[trigger] navi@[i] <= 0x1_0000_0000
            },
            (Err(e), Err(f)) => e == f,
            _ => false,
        },
{
    let n: usize = g.segments;
    let w: usize = g.navigation_size_bits;
    proof {
        assert(0 <= n * w <= 160) by (nonlinear_arith)
            requires
                0 <= n <= 8,
                0 <= w <= 20,
        ;
    }
    let size: usize = (n * w + 7) / 8 + 2;
    if size > boundary - at {
        return Err(XllError::Invalid("short alternate XLL NAVI"));
    }
    let start: usize = at + size;
    if crc16_ccitt(slice_subrange(payload, at, start)) != 0 {
        return Err(XllError::Invalid("alternate XLL NAVI CRC"));
    }
    let navi: Vec<u64> = read_entries(payload, at, w, n);
    let bytes: u64 = sum(&navi);
    let left: u64 = (boundary - start) as u64;
    if bytes > left {
        return Err(XllError::Invalid("alternate XLL audio exceeds boundary"));
    }
    if left - bytes > XLL_X_ALT_MAX_INTERSTITIAL as u64 {
        return Err(XllError::Invalid("alternate XLL interstitial too large"));
    }
    Ok((navi, start))
}

proof fn lemma_total_grows(sizes: Seq<u64>, k: int, n: int)
    requires
        0 <= k <= n <= sizes.len(),
    ensures
        0 <= total(sizes, k) <= total(sizes, n),
    decreases n,
{
    if k < n {
        lemma_total_grows(sizes, k, n - 1);
    } else if k > 0 {
        lemma_total_grows(sizes, k - 1, n - 1);
    }
}

fn parse_alternate_bands(
    payload: &[u8],
    set: &XllChSet,
    frame: &XllFrame,
    navi: &Vec<u64>,
    start: usize,
) -> (r: Result<XllBand, XllError>)
    requires
        8 * payload@.len() <= usize::MAX,
        frame.wf(),
        set.wf(*frame),
        frame.nframesegs == navi@.len(),
        start + total(navi@, navi@.len() as int) <= payload@.len(),
    ensures
        match (
            r,
            alternate_band(payload@, set@, *frame, navi@, start as int, navi@.len() as int),
        ) {
            (Ok(band), Ok(want)) => band@ == want && band.wf(*set, *frame, navi@.len() as int),
            (Err(e), Err(f)) => e == f,
            _ => false,
        },
{
    let ghost d = payload@;
    let ghost n = navi@.len() as int;
    proof {
        lemma_total_grows(navi@, 0, n);
    }
    let mut gb: BitReader = BitReader::with_offset(payload, 8 * start);
    let mut band: XllBand = XllBand::new(set.head.nchannels);
    assert(band.wf(*set, *frame, 0));
    let mut k: usize = 0;
    while k < navi.len()
        invariant
            gb.wf(),
            gb.data() == d,
            gb.limit() == 8 * d.len(),
            d == payload@,
            n == navi@.len(),
            frame.wf(),
            set.wf(*frame),
            k <= n,
            start + total(navi@, n) <= d.len(),
            gb.pos() == 8 * (start + total(navi@, k as int)),
            band.wf(*set, *frame, k as int),
            alternate_band(d, set@, *frame, navi@, start as int, k as int) == Ok::<
                BandModel,
                XllError,
            >(band@),
        decreases n - k,
    {
        proof {
            lemma_total_grows(navi@, k + 1, n);
            lemma_total_grows(navi@, k as int, n);
            if alternate_band(d, set@, *frame, navi@, start as int, k + 1) is Err {
                lemma_alternate_err(d, set@, *frame, navi@, start as int, k + 1, n);
            }
        }
        let end: usize = gb.position() + 8 * navi[k] as usize;
        chs_parse_band_data(&mut gb, set, frame, k, end, &mut band)?;
        let pos: usize = gb.position();
        if pos > end || end - pos > 32 {
            return Err(XllError::Invalid("alternate XLL band trailing bits"));
        }
        let moved: bool = gb.seek(end);
        k = k + 1;
    }
    Ok(band)
}

/// Decode one alternate channel set. What the frame around it looks like does
/// not matter, and is not touched.
fn decode_alternate_channel_set(
    payload: &[u8],
    t: &XllTables,
    header: AlternateHeader,
    geometry: AlternateGeometry,
    boundary: usize,
) -> (r: Result<(usize, Vec<Vec<i32>>, usize), XllError>)
    requires
        8 * payload@.len() <= usize::MAX,
        t.wf(),
        geometry_wf(geometry),
    ensures
        match (r, alternate_channel_set(payload@, *t, header, geometry, boundary as int)) {
            (Ok((res, v, q)), Ok((want_res, want, s))) => {
                &&& res == want_res
                &&& res <= 24
                &&& rows(v@) == want
                &&& q == s
            },
            (Err(e), Err(f)) => e == f,
            _ => false,
        },
{
    let frame: XllFrame = make_alternate_frame(&geometry);
    let set: XllChSet = parse_alternate_set(payload, t, header, &frame, boundary)?;
    let at: usize = header.offset + header.size;
    let (navi, start): (Vec<u64>, usize) = parse_alternate_navi(payload, &geometry, at, boundary)?;
    let mut band: XllBand = parse_alternate_bands(payload, &set, &frame, &navi, start)?;
    chs_filter_band_data(&set, &frame, &mut band);
    let bytes: u64 = sum(&navi);
    Ok((set.head.pcm_bit_res, band.msb, 8 * (start + bytes as usize)))
}

/// The audio of an alternate extension: both channel sets, at one resolution.
pub open spec fn alternate_audio(d: Seq<u8>, t: XllTables) -> Result<XAudioModel, XllError> {
    match layout(d) {
        Err(e) => Err(e),
        Ok(l) => match alternate_channel_set(
            d,
            t,
            l.first_header,
            l.first_geometry,
            l.second_header.offset as int,
        ) {
            Err(e) => Err(e),
            Ok((res, first, _)) => match alternate_channel_set(
                d,
                t,
                l.second_header,
                l.second_geometry,
                d.len() as int,
            ) {
                Err(e) => Err(e),
                Ok((other, second, q)) => if res != other {
                    Err(XllError::Unsupported("mixed alternate XLL PCM resolutions"))
                } else {
                    Ok(
                        XAudioModel {
                            samples: raised_rows(first + second, 24 - res),
                            pcm_bit_res: res,
                            bits_consumed: q,
                        },
                    )
                },
            },
        },
    }
}

/// Decode both channel sets of an alternate extension.
pub fn decode_alternate(payload: &[u8], t: &XllTables) -> (r: Result<XAudio, XllError>)
    requires
        8 * payload@.len() <= usize::MAX,
        t.wf(),
    ensures
        match (r, alternate_audio(payload@, *t)) {
            (Ok(v), Ok(want)) => v@ == want,
            (Err(e), Err(f)) => e == f,
            _ => false,
        },
{
    let l: AlternateLayout = alternate_layout(payload)?;
    let (res, mut first, _): (usize, Vec<Vec<i32>>, usize) = decode_alternate_channel_set(
        payload,
        t,
        l.first_header,
        l.first_geometry,
        l.second_header.offset,
    )?;
    let (other, mut second, end): (usize, Vec<Vec<i32>>, usize) = decode_alternate_channel_set(
        payload,
        t,
        l.second_header,
        l.second_geometry,
        payload.len(),
    )?;
    if res != other {
        return Err(XllError::Unsupported("mixed alternate XLL PCM resolutions"));
    }
    let ghost a = first@;
    let ghost b = second@;
    first.append(&mut second);
    assert(rows(first@) =~= rows(a) + rows(b));
    let samples: Vec<Vec<i32>> = raise_rows(&first, 24 - res);
    Ok(XAudio { samples, pcm_bit_res: res, bits_consumed: end })
}

} // verus!
