//! One DTS-HD frame at a time: a core access unit and the extension substream
//! after it. The lossless route builds on the core's residuals; the lossy one
//! adds the channels of the substream to the core's.

use vstd::prelude::*;
use vstd::slice::slice_subrange;
use crate::bits::{field, BitReader};
use crate::grammar::rows;
use super::core_decoder::{
    alike_decoders_decode_alike, bare_sets_keep_all_channels, begin_alike, core_decoded,
    core_fresh, core_reset, extension_decoded, lemma_even_bands, resets_silence_the_history,
    xxch_decoded, xxch_sets_keep_the_core, CoreDecoder, CoreModel,
};
use super::core_header::CoreError;
use super::core_output::{empty_slots, slot_views, CoreOutput, CorePcm};
use super::core_tables::CoreTables;
use super::crc::{crc16_ccitt, crc_of};
use super::exss::{after_asset, exss, ExssModel, ExssParser};
use super::exss_prefix::trailing_bytes_keep_the_substream;
use super::parser::{header, parse_header, FrameInfo, ParseError};
use super::synth::{
    alike_syntheses_play_alike, bare_sets_are_not_played, resets_silence_the_lines, sound_alike,
    synth_reset, synthesized, SynthModel, SynthState, SynthTables,
};
use super::xll::{
    lossless_output, xll_step, DecodedFrame, DecodedModel, PbrModel, XReport, XllDecoder,
    XllSource,
};
use super::xll_error::XllError;
use super::xll_header::{XllFrame, XllTables};
use super::xll_output::{XllOutput, XllOutputModel};
use super::xll_x::DCA_SYNCWORD_XLL_X;
use super::xmeta::FIXED_HEIGHT_COUNT;

verus! {

/// Bytes of a lossy extension before its navigation.
pub const LOSSY_EXTENSION_WRAPPER: usize = 22;

/// Byte at which a lossy extension's channel set starts.
pub const LOSSY_EXTENSION_SET_OFFSET: usize = 33;

/// Bytes between the wrapper and the navigation.
pub const LOSSY_EXTENSION_CONSTANT: [u8; 4] = [0x75, 0x9a, 0x19, 0x08];

/// First bytes of the navigation.
pub const LOSSY_EXTENSION_NAVIGATION_HEAD: [u8; 2] = [0x00, 0x40];

/// Byte before the channel set.
pub const LOSSY_EXTENSION_SET_MARKER: u8 = 0x02;

/// The channel set inside a lossy extension.
pub open spec fn lossy_set(d: Seq<u8>) -> Result<Seq<u8>, &'static str> {
    if d.len() < 33 {
        Err("short lossy extension")
    } else if d.subrange(22, 28) != LOSSY_EXTENSION_CONSTANT@ + LOSSY_EXTENSION_NAVIGATION_HEAD@ || d[32]
        != LOSSY_EXTENSION_SET_MARKER {
        Err("lossy extension container")
    } else if crc_of(d.subrange(26, 32)) != 0 {
        Err("lossy extension navigation crc")
    } else if 256 * d[28] + d[29] != d.len() - 33 {
        Err("lossy extension size")
    } else {
        Ok(d.subrange(33, d.len() as int))
    }
}

/// The channel set inside a lossy extension, once the container around it
/// reads as expected.
pub fn lossy_extension_set(blob: &[u8]) -> (r: Result<&[u8], &'static str>)
    ensures
        match (r, lossy_set(blob@)) {
            (Ok(v), Ok(want)) => v@ == want,
            (Err(e), Err(f)) => e == f,
            _ => false,
        },
{
    if blob.len() < LOSSY_EXTENSION_SET_OFFSET {
        return Err("short lossy extension");
    }
    let a: [u8; 4] = LOSSY_EXTENSION_CONSTANT;
    let b: [u8; 2] = LOSSY_EXTENSION_NAVIGATION_HEAD;
    let same: bool = blob[22] == a[0] && blob[23] == a[1] && blob[24] == a[2] && blob[25] == a[3]
        && blob[26] == b[0] && blob[27] == b[1];
    proof {
        let got = blob@.subrange(22, 28);
        let want = a@ + b@;
        assert(got[0] == blob@[22] && got[1] == blob@[23] && got[2] == blob@[24] && got[3]
            == blob@[25] && got[4] == blob@[26] && got[5] == blob@[27]);
        assert(same ==> got =~= want);
        assert(got == want ==> same);
    }
    if !same || blob[32] != LOSSY_EXTENSION_SET_MARKER {
        return Err("lossy extension container");
    }
    if crc16_ccitt(slice_subrange(blob, 26, 32)) != 0 {
        return Err("lossy extension navigation crc");
    }
    let size: usize = 256 * blob[28] as usize + blob[29] as usize;
    if size != blob.len() - LOSSY_EXTENSION_SET_OFFSET {
        return Err("lossy extension size");
    }
    Ok(slice_subrange(blob, LOSSY_EXTENSION_SET_OFFSET, blob.len()))
}

/// The name of a core error.
pub open spec fn core_kind(e: CoreError) -> &'static str {
    match e {
        CoreError::Bitstream => "bitstream",
        CoreError::Invalid(kind) => kind,
        CoreError::Unsupported(kind) => kind,
    }
}

pub fn core_error_kind(error: &CoreError) -> (r: &'static str)
    ensures
        r == core_kind(*error),
{
    match error {
        CoreError::Bitstream => "bitstream",
        CoreError::Invalid(kind) => kind,
        CoreError::Unsupported(kind) => kind,
    }
}

/// What an extension substream carries beyond the core.
#[derive(Clone, Copy, Debug, PartialEq, Eq, Structural)]
pub enum ExssKind {
    /// A lossless component.
    Lossless,
    /// No lossless component, but more channels or a spatial extension.
    Lossy,
    /// Nothing that is decoded.
    Core,
}

/// The kind of the substream at the start of `d`.
pub open spec fn kind_of_exss(d: Seq<u8>) -> ExssKind {
    match exss(d) {
        Err(_) => ExssKind::Core,
        Ok(e) => if e.asset.descriptor.navigation.xll is Some {
            ExssKind::Lossless
        } else if e.asset.descriptor.navigation.xxch_size > 0 || after_asset(e, d) is Some {
            ExssKind::Lossy
        } else {
            ExssKind::Core
        },
    }
}

/// Classify the substream at the start of `data`.
pub fn exss_kind(data: &[u8]) -> (r: ExssKind)
    requires
        8 * data@.len() <= usize::MAX,
    ensures
        r == kind_of_exss(data@),
{
    match ExssParser::parse(data) {
        Err(_) => ExssKind::Core,
        Ok(p) => {
            if p.has_xll() {
                ExssKind::Lossless
            } else if p.has_xxch() || p.extension_after_asset(data).is_some() {
                ExssKind::Lossy
            } else {
                ExssKind::Core
            }
        },
    }
}

/// Size of the substream at the start of `d`, if it can be read.
pub open spec fn size_of_exss(d: Seq<u8>) -> Option<usize> {
    match exss(d) {
        Ok(e) => Some(e.exss_size),
        Err(_) => None,
    }
}

/// Size of the substream at the start of `data`.
pub fn exss_substream_size(data: &[u8]) -> (r: Option<usize>)
    requires
        8 * data@.len() <= usize::MAX,
    ensures
        r == size_of_exss(data@),
{
    match ExssParser::parse(data) {
        Ok(p) => Some(p.substream_size()),
        Err(_) => None,
    }
}

/// The substream at the start of `data` carries a lossless component.
pub fn exss_has_xll(data: &[u8]) -> (r: bool)
    requires
        8 * data@.len() <= usize::MAX,
    ensures
        r == (kind_of_exss(data@) == ExssKind::Lossless),
{
    match ExssParser::parse(data) {
        Ok(p) => p.has_xll(),
        Err(_) => false,
    }
}

/// Why a frame was not decoded.
#[derive(Debug, Clone, Copy, PartialEq, Eq)]
pub enum HdError {
    Header(ParseError),
    Core,
    Exss,
    Xll(XllError),
    /// The lossless frame goes on in the next substream.
    Pending,
}

/// One decoded frame: 24-bit samples by speaker.
#[derive(Clone, Debug)]
pub struct HdFrame {
    pub sample_rate: u32,
    /// Speakers that play, one bit each.
    pub output_mask: u32,
    pub samples: Vec<Option<Vec<i32>>>,
    /// `samples` are a lossless reconstruction.
    pub lossless: bool,
    /// Why the channels of an XXCH component are missing.
    pub xxch_decode_error: Option<&'static str>,
    /// The standard spatial extension is there.
    pub x_present: bool,
    /// An alternate spatial extension is there.
    pub x_imax: bool,
    /// The bytes of the extension, from its first word on.
    pub x_payload: Vec<u8>,
    pub x_payload_offset: usize,
    /// Waveforms of the extension, which no speaker plays.
    pub x_samples: Vec<Vec<i32>>,
    pub x_pcm_bit_res: usize,
    pub x_bits_consumed: usize,
    /// Why the extension was not decoded.
    pub x_decode_error: Option<&'static str>,
    pub x_header_tail_bits: usize,
    pub xll_frame_segments: usize,
    pub xll_segment_samples: usize,
    pub xll_segment_size_bits: usize,
    pub xll_band_crc_present: u32,
    pub xll_scalable_lsbs: bool,
    /// Bits of the asset descriptor that are not read.
    pub exss_descriptor_tail: Vec<u8>,
    pub exss_descriptor_tail_bits: usize,
    /// Where the descriptor says the extension lies in the lossless frame, as
    /// far as the caller read it.
    pub x_descriptor_offset: Option<usize>,
    pub x_descriptor_size: Option<usize>,
    /// The extension was found by that, not by its position alone.
    pub x_descriptor_navigation_used: bool,
}

/// [`HdFrame`] over sequences.
pub ghost struct HdFrameModel {
    pub sample_rate: int,
    pub output_mask: u32,
    pub samples: Seq<Option<Seq<i32>>>,
    pub lossless: bool,
    pub xxch_decode_error: Option<&'static str>,
    pub x_present: bool,
    pub x_imax: bool,
    pub x_payload: Seq<u8>,
    pub x_payload_offset: int,
    pub x_samples: Seq<Seq<i32>>,
    pub x_pcm_bit_res: int,
    pub x_bits_consumed: int,
    pub x_decode_error: Option<&'static str>,
    pub x_header_tail_bits: int,
    pub xll_frame_segments: int,
    pub xll_segment_samples: int,
    pub xll_segment_size_bits: int,
    pub xll_band_crc_present: u32,
    pub xll_scalable_lsbs: bool,
    pub exss_descriptor_tail: Seq<u8>,
    pub exss_descriptor_tail_bits: int,
    pub x_descriptor_offset: Option<usize>,
    pub x_descriptor_size: Option<usize>,
    pub x_descriptor_navigation_used: bool,
}

impl View for HdFrame {
    type V = HdFrameModel;

    open spec fn view(&self) -> HdFrameModel {
        HdFrameModel {
            sample_rate: self.sample_rate as int,
            output_mask: self.output_mask,
            samples: slot_views(self.samples@),
            lossless: self.lossless,
            xxch_decode_error: self.xxch_decode_error,
            x_present: self.x_present,
            x_imax: self.x_imax,
            x_payload: self.x_payload@,
            x_payload_offset: self.x_payload_offset as int,
            x_samples: rows(self.x_samples@),
            x_pcm_bit_res: self.x_pcm_bit_res as int,
            x_bits_consumed: self.x_bits_consumed as int,
            x_decode_error: self.x_decode_error,
            x_header_tail_bits: self.x_header_tail_bits as int,
            xll_frame_segments: self.xll_frame_segments as int,
            xll_segment_samples: self.xll_segment_samples as int,
            xll_segment_size_bits: self.xll_segment_size_bits as int,
            xll_band_crc_present: self.xll_band_crc_present,
            xll_scalable_lsbs: self.xll_scalable_lsbs,
            exss_descriptor_tail: self.exss_descriptor_tail@,
            exss_descriptor_tail_bits: self.exss_descriptor_tail_bits as int,
            x_descriptor_offset: self.x_descriptor_offset,
            x_descriptor_size: self.x_descriptor_size,
            x_descriptor_navigation_used: self.x_descriptor_navigation_used,
        }
    }
}

/// A frame that holds nothing.
pub open spec fn empty_frame() -> HdFrameModel {
    HdFrameModel {
        sample_rate: 0,
        output_mask: 0,
        samples: Seq::empty(),
        lossless: false,
        xxch_decode_error: None,
        x_present: false,
        x_imax: false,
        x_payload: Seq::empty(),
        x_payload_offset: 0,
        x_samples: Seq::empty(),
        x_pcm_bit_res: 0,
        x_bits_consumed: 0,
        x_decode_error: None,
        x_header_tail_bits: 0,
        xll_frame_segments: 0,
        xll_segment_samples: 0,
        xll_segment_size_bits: 0,
        xll_band_crc_present: 0,
        xll_scalable_lsbs: false,
        exss_descriptor_tail: Seq::empty(),
        exss_descriptor_tail_bits: 0,
        x_descriptor_offset: None,
        x_descriptor_size: None,
        x_descriptor_navigation_used: false,
    }
}

impl Default for HdFrame {
    fn default() -> (r: Self)
        ensures
            r@ == empty_frame(),
    {
        let r = HdFrame {
            sample_rate: 0,
            output_mask: 0,
            samples: Vec::new(),
            lossless: false,
            xxch_decode_error: None,
            x_present: false,
            x_imax: false,
            x_payload: Vec::new(),
            x_payload_offset: 0,
            x_samples: Vec::new(),
            x_pcm_bit_res: 0,
            x_bits_consumed: 0,
            x_decode_error: None,
            x_header_tail_bits: 0,
            xll_frame_segments: 0,
            xll_segment_samples: 0,
            xll_segment_size_bits: 0,
            xll_band_crc_present: 0,
            xll_scalable_lsbs: false,
            exss_descriptor_tail: Vec::new(),
            exss_descriptor_tail_bits: 0,
            x_descriptor_offset: None,
            x_descriptor_size: None,
            x_descriptor_navigation_used: false,
        };
        assert(r@.samples =~= empty_frame().samples);
        assert(r@.x_samples =~= empty_frame().x_samples);
        assert(r@.x_payload =~= empty_frame().x_payload);
        assert(r@.exss_descriptor_tail =~= empty_frame().exss_descriptor_tail);
        r
    }
}

/// Samples of the first of `v` that plays, from slot `i` on.
pub open spec fn first_len(v: Seq<Option<Seq<i32>>>, i: int) -> int
    decreases v.len() - i,
{
    if i >= v.len() {
        0
    } else {
        match v[i] {
            Some(row) => row.len() as int,
            None => first_len(v, i + 1),
        }
    }
}

impl HdFrame {
    /// Samples of the first speaker that plays; 0 when none does.
    pub fn bed_sample_count(&self) -> (r: usize)
        ensures
            r == first_len(self@.samples, 0),
    {
        let n: usize = self.samples.len();
        let mut i: usize = 0;
        while i < n
            invariant
                i <= n,
                n == self.samples@.len(),
                first_len(self@.samples, 0) == first_len(self@.samples, i as int),
            decreases n - i,
        {
            if let Some(row) = &self.samples[i] {
                return row.len();
            }
            i = i + 1;
        }
        0
    }
}

/// Constant tables of the decoders.
#[derive(Clone, Debug)]
pub struct HdTables {
    pub core: CoreTables,
    pub synth: SynthTables,
    pub xll: XllTables,
}

impl HdTables {
    pub open spec fn wf(&self) -> bool {
        &&& self.core.wf()
        &&& self.synth.wf()
        &&& self.xll.wf()
    }

    /// Whether the tables are fit to decode with.
    pub fn is_valid(&self) -> (r: bool)
        ensures
            r == self.wf(),
    {
        self.core.is_valid() && self.synth.is_valid() && self.xll.is_valid()
    }
}

/// Decodes DTS-HD frames.
pub struct HdDecoder {
    core: CoreDecoder,
    synth: SynthState,
    xll: XllDecoder,
    /// Lossless samples of the last frame.
    output: Vec<Option<Vec<i32>>>,
}

pub ghost struct HdModel {
    pub core: CoreModel,
    pub synth: SynthModel,
    pub xll: PbrModel,
    pub output: Seq<Option<Seq<i32>>>,
}

impl HdModel {
    pub open spec fn wf(&self) -> bool {
        &&& self.core.wf()
        &&& self.core.even_bands()
        &&& self.synth.wf()
        &&& self.output.len() == 32
    }
}

/// The decoder before its first frame.
pub open spec fn hd_fresh() -> HdModel {
    HdModel {
        core: core_fresh(),
        synth: SynthModel { lines: Seq::empty(), x96: false, lfe_hist: 0 },
        xll: PbrModel { stream: 0, buffer: Seq::empty(), delay: 0 },
        output: silent(),
    }
}

/// The decoder without what earlier frames left.
pub open spec fn hd_reset(s: HdModel) -> HdModel {
    HdModel {
        core: core_reset(s.core),
        synth: synth_reset(s.synth),
        xll: PbrModel { stream: 0, buffer: Seq::empty(), delay: 0 },
        output: silent(),
    }
}

impl View for HdDecoder {
    type V = HdModel;

    closed spec fn view(&self) -> HdModel {
        HdModel {
            core: self.core@,
            synth: self.synth@,
            xll: self.xll@,
            output: slot_views(self.output@),
        }
    }
}

/// No speaker plays.
pub open spec fn silent() -> Seq<Option<Seq<i32>>> {
    Seq::new(32, |i: int| None::<Seq<i32>>)
}

/// The XXCH component of a substream, and why its channels are missing.
pub open spec fn lossy_xxch(c: CoreModel, t: CoreTables, e: ExssModel, d: Seq<u8>) -> (
    CoreModel,
    Option<&'static str>,
) {
    let at = e.asset.xxch_offset as int;
    let size = e.asset.descriptor.navigation.xxch_size as int;
    if size == 0 {
        (c, None)
    } else if at + size > d.len() {
        (c, Some("xxch component bounds"))
    } else {
        match xxch_decoded(c, t, d.subrange(at, at + size)) {
            (m, Ok(_)) => (m, None),
            (m, Err(x)) => (m, Some(core_kind(x))),
        }
    }
}

/// What a lossy substream's spatial extension gives.
pub ghost struct LossyX {
    pub payload: Seq<u8>,
    pub offset: int,
    pub standard: bool,
    pub bits: int,
    pub error: Option<&'static str>,
}

/// The spatial extension after the asset: of the standard profile the four
/// heights are decoded.
pub open spec fn lossy_x(c: CoreModel, t: CoreTables, e: ExssModel, d: Seq<u8>) -> (
    CoreModel,
    Option<LossyX>,
) {
    match after_asset(e, d) {
        None => (c, None),
        Some(at) => {
            let end = if e.exss_size < d.len() { e.exss_size as int } else { d.len() as int };
            let payload = d.subrange(at, end);
            let standard = field(d, 8 * at, 32) == DCA_SYNCWORD_XLL_X;
            let x = LossyX { payload, offset: at, standard, bits: 0, error: None };
            if !standard {
                (c, Some(LossyX { error: Some("alternate profile on a lossy carrier"), ..x }))
            } else {
                match lossy_set(payload) {
                    Err(kind) => (c, Some(LossyX { error: Some(kind), ..x })),
                    Ok(set) => match extension_decoded(c, t, set, 4) {
                        (m, Ok(bytes)) => (m, Some(LossyX { bits: 8 * bytes, ..x })),
                        (m, Err(kind)) => (m, Some(LossyX { error: Some(core_kind(kind)), ..x })),
                    },
                }
            }
        },
    }
}

/// The frame of a lossy route.
pub open spec fn lossy_frame(pcm: CorePcm, xxch: Option<&'static str>, x: Option<LossyX>) -> HdFrameModel {
    let bed = HdFrameModel {
        sample_rate: pcm.output_rate,
        output_mask: pcm.ch_mask,
        samples: pcm.slots,
        xxch_decode_error: xxch,
        x_samples: pcm.extension,
        x_pcm_bit_res: 24,
        ..empty_frame()
    };
    match x {
        None => bed,
        Some(v) => HdFrameModel {
            x_present: v.standard,
            x_imax: !v.standard,
            x_payload: v.payload,
            x_payload_offset: v.offset,
            x_bits_consumed: v.bits,
            x_decode_error: v.error,
            ..bed
        },
    }
}

/// The lossy route: the core, decoded already, with what the substream adds.
/// A component that fails costs itself alone.
pub open spec fn lossy_decoded(s: HdModel, t: HdTables, e: ExssModel, d: Seq<u8>) -> (
    HdModel,
    HdFrameModel,
) {
    let (a, xxch) = lossy_xxch(s.core, t.core, e, d);
    let (b, x) = lossy_x(a, t.core, e, d);
    let (synth, core, pcm) = synthesized(s.synth, t.synth, b, false);
    (HdModel { core, synth, output: silent(), ..s }, lossy_frame(pcm, xxch, x))
}

/// Where an asset descriptor says that the spatial extension lies in the
/// lossless frame.
#[derive(Debug, Clone, Copy, PartialEq, Eq)]
pub struct XNavigation {
    pub offset: Option<usize>,
    pub size: Option<usize>,
}

/// A descriptor that says nothing of the extension.
pub open spec fn no_navigation() -> XNavigation {
    XNavigation { offset: None, size: None }
}

/// The place, where it is stated in full.
pub open spec fn place_of(x: XNavigation) -> Option<(usize, usize)> {
    match (x.offset, x.size) {
        (Some(offset), Some(size)) => Some((offset, size)),
        _ => None,
    }
}

/// What a lossless frame gives, played as `out`.
pub open spec fn lossless_frame(
    f: DecodedModel,
    out: XllOutputModel,
    e: ExssModel,
    x: XNavigation,
) -> HdFrameModel {
    let frame = f.parsed.frame;
    let bed = HdFrameModel {
        sample_rate: out.sample_rate as int,
        output_mask: out.mask,
        samples: out.samples,
        lossless: true,
        x_header_tail_bits: f.x.header_tail_bits,
        x_decode_error: f.x.error,
        xll_frame_segments: frame.nframesegs as int,
        xll_segment_samples: frame.nsegsamples as int,
        xll_segment_size_bits: frame.seg_size_nbits as int,
        xll_band_crc_present: frame.band_crc_present,
        xll_scalable_lsbs: frame.scalable_lsbs,
        exss_descriptor_tail: e.asset.descriptor.tail,
        exss_descriptor_tail_bits: e.asset.descriptor.tail_bits as int,
        x_descriptor_offset: x.offset,
        x_descriptor_size: x.size,
        ..empty_frame()
    };
    let located = match f.x.payload {
        None => bed,
        Some(p) => HdFrameModel {
            x_present: !p.alternate,
            x_imax: p.alternate,
            x_payload: p.data,
            x_payload_offset: p.offset,
            x_descriptor_navigation_used: p.navigated,
            ..bed
        },
    };
    match f.x.audio {
        None => located,
        Some(a) => HdFrameModel {
            x_samples: a.samples,
            x_pcm_bit_res: a.pcm_bit_res as int,
            x_bits_consumed: a.bits_consumed,
            ..located
        },
    }
}

/// A lossless error as the frame's.
pub open spec fn hd_error(e: XllError) -> HdError {
    match e {
        XllError::Eagain => HdError::Pending,
        _ => HdError::Xll(e),
    }
}

/// What the substream says about its lossless component.
pub open spec fn source_of(e: ExssModel, x: XNavigation) -> XllSource {
    XllSource {
        hd_stream_id: e.asset.descriptor.hd_stream_id,
        one_to_one: e.asset.descriptor.layout.one_to_one_map_ch_to_spkr,
        parameters: e.asset.descriptor.navigation.xll->0,
        hint: place_of(x),
    }
}

/// The lossless bytes of a substream.
pub open spec fn xll_bytes(e: ExssModel, d: Seq<u8>) -> Seq<u8> {
    let at = e.asset.xll_offset as int;
    d.subrange(at, at + (e.asset.descriptor.navigation.xll->0).size)
}

/// A 48 kHz core is played at twice its rate under 96 kHz channels.
pub open spec fn doubles(f: DecodedModel, c: CoreModel) -> bool {
    f.parsed.sets[0].head.freq == 96_000 && c.sample_rate == 48_000
}

/// The lossless route.
pub open spec fn lossless_decoded(
    s: HdModel,
    t: HdTables,
    e: ExssModel,
    d: Seq<u8>,
    x: XNavigation,
) -> (HdModel, Result<HdFrameModel, HdError>) {
    match xll_step(s.xll, xll_bytes(e, d), t.xll, source_of(e, x)) {
        (xll, Err(why)) => (HdModel { xll, ..s }, Err(hd_error(why))),
        (xll, Ok(f)) => {
            let (synth, core, pcm) = synthesized(s.synth, t.synth, s.core, doubles(f, s.core));
            let next = HdModel { core, synth, xll, output: silent() };
            match lossless_output(f.parsed, Some(pcm)) {
                Err(why) => (next, Err(hd_error(why))),
                Ok(out) => (
                    HdModel { output: out.samples, ..next },
                    Ok(lossless_frame(f, out, e, x)),
                ),
            }
        },
    }
}

/// The decoder after a frame, and the frame.
pub open spec fn hd_decoded(
    s: HdModel,
    t: HdTables,
    core_au: Seq<u8>,
    d: Seq<u8>,
    x: XNavigation,
) -> (HdModel, Result<HdFrameModel, HdError>) {
    match header(core_au) {
        Err(why) => (s, Err(HdError::Header(why))),
        Ok(info) => {
            let (core, r) = core_decoded(s.core, t.core, info, core_au);
            let held = HdModel { core, ..s };
            match r {
                Err(_) => (held, Err(HdError::Core)),
                Ok(_) => match exss(d) {
                    Err(_) => (held, Err(HdError::Exss)),
                    Ok(e) => if e.asset.descriptor.navigation.xll is Some {
                        lossless_decoded(held, t, e, d, x)
                    } else {
                        let (next, frame) = lossy_decoded(held, t, e, d);
                        (next, Ok(frame))
                    },
                },
            }
        },
    }
}

fn copy_bytes(data: &[u8]) -> (r: Vec<u8>)
    ensures
        r@ == data@,
{
    let n: usize = data.len();
    let mut r: Vec<u8> = Vec::new();
    while r.len() < n
        invariant
            n == data@.len(),
            r@.len() <= n,
            forall|i: int| 0 <= i < r@.len() ==> r@[i] == data@[i],
        decreases n - r.len(),
    {
        r.push(data[r.len()]);
    }
    assert(r@ =~= data@);
    r
}

fn copy_samples(row: &Vec<i32>) -> (r: Vec<i32>)
    ensures
        r@ == row@,
{
    let n: usize = row.len();
    let mut r: Vec<i32> = Vec::new();
    while r.len() < n
        invariant
            n == row@.len(),
            r@.len() <= n,
            forall|i: int| 0 <= i < r@.len() ==> r@[i] == row@[i],
        decreases n - r.len(),
    {
        r.push(row[r.len()]);
    }
    assert(r@ =~= row@);
    r
}

fn copy_slots(v: &Vec<Option<Vec<i32>>>) -> (r: Vec<Option<Vec<i32>>>)
    ensures
        slot_views(r@) == slot_views(v@),
        r@.len() == v@.len(),
{
    let n: usize = v.len();
    let mut r: Vec<Option<Vec<i32>>> = Vec::new();
    while r.len() < n
        invariant
            n == v@.len(),
            r@.len() <= n,
            forall|i: int|
                0 <= i < r@.len() ==> #[trigger] slot_views(r@)[i] == slot_views(v@)[i],
        decreases n - r.len(),
    {
        let ghost before = r@;
        let k: usize = r.len();
        let slot: Option<Vec<i32>> = match &v[k] {
            Some(row) => Some(copy_samples(row)),
            None => None,
        };
        r.push(slot);
        assert forall|i: int| 0 <= i < r@.len() implies #[trigger] slot_views(r@)[i] == slot_views(
            v@,
        )[i] by {
            if i < k {
                assert(slot_views(before)[i] == slot_views(v@)[i]);
            }
        }
    }
    assert(slot_views(r@) =~= slot_views(v@));
    r
}

/// Decode the XXCH component of a substream.
fn decode_lossy_xxch(core: &mut CoreDecoder, t: &CoreTables, e: &ExssParser, data: &[u8]) -> (r: Option<
    &'static str,
>)
    requires
        old(core).inv(),
        old(core)@.ready(),
        t.wf(),
        e.wf(),
        8 * data@.len() <= usize::MAX,
    ensures
        (final(core)@, r) == lossy_xxch(old(core)@, *t, e@, data@),
        final(core).inv(),
        final(core)@.ready(),
{
    if !e.has_xxch() {
        return None;
    }
    let at: usize = e.asset.xxch_offset;
    let size: usize = e.asset.navigation.xxch_size;
    if at + size > data.len() {
        return Some("xxch component bounds");
    }
    match core.decode_xxch(t, slice_subrange(data, at, at + size)) {
        Ok(_) => None,
        Err(x) => Some(core_error_kind(&x)),
    }
}

/// What a lossy substream's spatial extension gives.
struct LossyExtension {
    payload: Vec<u8>,
    offset: usize,
    standard: bool,
    bits: usize,
    error: Option<&'static str>,
}

impl LossyExtension {
    spec fn model(&self) -> LossyX {
        LossyX {
            payload: self.payload@,
            offset: self.offset as int,
            standard: self.standard,
            bits: self.bits as int,
            error: self.error,
        }
    }
}

spec fn extension_model(x: Option<LossyExtension>) -> Option<LossyX> {
    match x {
        Some(v) => Some(v.model()),
        None => None,
    }
}

/// Decode the spatial extension after the asset.
fn decode_lossy_x(core: &mut CoreDecoder, t: &CoreTables, e: &ExssParser, data: &[u8]) -> (r: Option<
    LossyExtension,
>)
    requires
        old(core).inv(),
        old(core)@.ready(),
        t.wf(),
        e.wf(),
        8 * data@.len() <= usize::MAX,
    ensures
        (final(core)@, extension_model(r)) == lossy_x(old(core)@, *t, e@, data@),
        final(core).inv(),
        final(core)@.ready(),
{
    let at: usize = match e.extension_after_asset(data) {
        Some(at) => at,
        None => return None,
    };
    let size: usize = e.substream_size();
    let end: usize = if size < data.len() { size } else { data.len() };
    let blob: &[u8] = slice_subrange(data, at, end);
    let reader: BitReader = BitReader::with_offset(data, 8 * at);
    let standard: bool = match reader.show_bits(32) {
        Some(word) => word == DCA_SYNCWORD_XLL_X,
        None => false,
    };
    let mut bits: usize = 0;
    let mut error: Option<&'static str> = None;
    if standard {
        match lossy_extension_set(blob) {
            Ok(set) => {
                match core.decode_extension_set(t, set, FIXED_HEIGHT_COUNT) {
                    Ok(bytes) => {
                        bits = 8 * bytes;
                    },
                    Err(x) => {
                        error = Some(core_error_kind(&x));
                    },
                }
            },
            Err(kind) => {
                error = Some(kind);
            },
        }
    } else {
        error = Some("alternate profile on a lossy carrier");
    }
    Some(LossyExtension { payload: copy_bytes(blob), offset: at, standard, bits, error })
}

impl HdDecoder {
    /// The parts hold what the view does not show.
    pub closed spec fn sound(&self) -> bool {
        self.core.inv()
    }

    pub open spec fn inv(&self) -> bool {
        self.sound() && self@.wf()
    }

    /// The kept bytes and `n` more can be addressed by their bits.
    pub open spec fn has_room(&self, n: int) -> bool {
        8 * (self@.xll.buffer.len() + n) <= usize::MAX
    }

    pub fn new() -> (r: Self)
        ensures
            r.inv(),
            r@ == hd_fresh(),
    {
        let r = HdDecoder {
            core: CoreDecoder::new(),
            synth: SynthState::new(),
            xll: XllDecoder::new(),
            output: empty_slots(),
        };
        proof {
            lemma_even_bands(r.core);
        }
        r
    }

    /// Forget what earlier frames left, the last lossless samples too.
    pub fn reset(&mut self)
        requires
            old(self).inv(),
        ensures
            final(self).inv(),
            final(self)@ == hd_reset(old(self)@),
    {
        self.core.reset();
        self.synth.reset();
        self.xll.reset();
        self.output = empty_slots();
        proof {
            lemma_even_bands(self.core);
        }
    }

    /// Bytes of a lossless frame that wait for the next substream.
    pub fn kept_len(&self) -> (r: usize)
        ensures
            r == self@.xll.buffer.len(),
    {
        self.xll.pbr_buffer.len()
    }

    /// The lossless samples of the last frame for one speaker.
    pub fn lossless_samples(&self, speaker: usize) -> (r: Option<&Vec<i32>>)
        requires
            self.inv(),
        ensures
            match r {
                Some(row) => speaker < 32 && self@.output[speaker as int] == Some(row@),
                None => speaker >= 32 || self@.output[speaker as int] is None,
            },
    {
        if speaker >= self.output.len() {
            return None;
        }
        match &self.output[speaker] {
            Some(row) => Some(row),
            None => None,
        }
    }

    /// Decode one frame from its core access unit and its extension substream.
    pub fn decode(&mut self, t: &HdTables, core_au: &[u8], exss_data: &[u8]) -> (r: Result<
        HdFrame,
        HdError,
    >)
        requires
            old(self).inv(),
            t.wf(),
            8 * core_au@.len() <= usize::MAX,
            old(self).has_room(exss_data@.len() as int),
        ensures
            final(self).inv(),
            ({
                let (s, want) = hd_decoded(
                    old(self)@,
                    *t,
                    core_au@,
                    exss_data@,
                    no_navigation(),
                );
                &&& final(self)@ == s
                &&& match (r, want) {
                    (Ok(v), Ok(w)) => v@ == w,
                    (Err(e), Err(f)) => e == f,
                    _ => false,
                }
            }),
    {
        self.decode_navigated(t, core_au, exss_data, XNavigation { offset: None, size: None })
    }

    /// [`HdDecoder::decode`] of a frame whose asset descriptor says where the
    /// spatial extension lies.
    pub fn decode_navigated(
        &mut self,
        t: &HdTables,
        core_au: &[u8],
        exss_data: &[u8],
        navigation: XNavigation,
    ) -> (r: Result<HdFrame, HdError>)
        requires
            old(self).inv(),
            t.wf(),
            8 * core_au@.len() <= usize::MAX,
            old(self).has_room(exss_data@.len() as int),
        ensures
            final(self).inv(),
            ({
                let (s, want) = hd_decoded(
                    old(self)@,
                    *t,
                    core_au@,
                    exss_data@,
                    navigation,
                );
                &&& final(self)@ == s
                &&& match (r, want) {
                    (Ok(v), Ok(w)) => v@ == w,
                    (Err(e), Err(f)) => e == f,
                    _ => false,
                }
            }),
    {
        let info: FrameInfo = match parse_header(core_au) {
            Ok(info) => info,
            Err(e) => return Err(HdError::Header(e)),
        };
        let core: Result<(), CoreError> = self.core.decode_frame(&t.core, &info, core_au);
        proof {
            lemma_even_bands(self.core);
        }
        if core.is_err() {
            return Err(HdError::Core);
        }
        let parser: ExssParser = match ExssParser::parse(exss_data) {
            Ok(p) => p,
            Err(_) => return Err(HdError::Exss),
        };
        if parser.has_xll() {
            self.decode_lossless(t, exss_data, parser, navigation)
        } else {
            Ok(self.decode_lossy(t, exss_data, &parser))
        }
    }

    fn decode_lossy(&mut self, t: &HdTables, data: &[u8], e: &ExssParser) -> (r: HdFrame)
        requires
            old(self).inv(),
            old(self)@.core.ready(),
            t.wf(),
            e.wf(),
            8 * data@.len() <= usize::MAX,
        ensures
            final(self).inv(),
            (final(self)@, r@) == lossy_decoded(old(self)@, *t, e@, data@),
    {
        self.output = empty_slots();
        let xxch: Option<&'static str> = decode_lossy_xxch(&mut self.core, &t.core, e, data);
        let x: Option<LossyExtension> = decode_lossy_x(&mut self.core, &t.core, e, data);
        let pcm: CoreOutput = self.synth.synthesize_fixed_by_speaker(&t.synth, &mut self.core, false);
        proof {
            lemma_even_bands(self.core);
        }
        let mut frame: HdFrame = HdFrame::default();
        frame.sample_rate = pcm.output_rate;
        frame.output_mask = pcm.ch_mask;
        frame.xxch_decode_error = xxch;
        frame.x_pcm_bit_res = 24;
        frame.samples = pcm.samples;
        frame.x_samples = pcm.extension;
        if let Some(v) = x {
            frame.x_present = v.standard;
            frame.x_imax = !v.standard;
            frame.x_payload = v.payload;
            frame.x_payload_offset = v.offset;
            frame.x_bits_consumed = v.bits;
            frame.x_decode_error = v.error;
        }
        frame
    }

    fn decode_lossless(
        &mut self,
        t: &HdTables,
        data: &[u8],
        e: ExssParser,
        navigation: XNavigation,
    ) -> (r: Result<HdFrame, HdError>)
        requires
            old(self).inv(),
            old(self)@.core.ready(),
            t.wf(),
            e.wf(),
            e.exss_size <= data@.len(),
            e.asset.navigation.xll is Some,
            old(self).has_room(data@.len() as int),
        ensures
            final(self).inv(),
            ({
                let (s, want) = lossless_decoded(old(self)@, *t, e@, data@, navigation);
                &&& final(self)@ == s
                &&& match (r, want) {
                    (Ok(v), Ok(w)) => v@ == w,
                    (Err(x), Err(f)) => x == f,
                    _ => false,
                }
            }),
    {
        let ghost first = e@;
        let at: usize = e.asset.xll_offset;
        let parameters = match e.asset.navigation.xll {
            Some(p) => p,
            None => return Err(HdError::Exss),
        };
        let source: XllSource = XllSource {
            hd_stream_id: e.asset.hd_stream_id,
            one_to_one: e.asset.layout.one_to_one_map_ch_to_spkr,
            parameters,
            hint: match (navigation.offset, navigation.size) {
                (Some(offset), Some(size)) => Some((offset, size)),
                _ => None,
            },
        };
        let bytes: &[u8] = slice_subrange(data, at, at + parameters.size);
        let mut f: DecodedFrame = match self.xll.parse(bytes, &t.xll, &source) {
            Ok(f) => f,
            Err(x) => return Err(error_of(x)),
        };
        let doubled: bool = f.parsed.primary_freq() == 96_000 && self.core.sample_rate() == 48_000;
        assert(doubled == doubles(f@, self.core@));
        let pcm: CoreOutput = self.synth.synthesize_fixed_by_speaker(
            &t.synth,
            &mut self.core,
            doubled,
        );
        proof {
            lemma_even_bands(self.core);
        }
        self.output = empty_slots();
        let ghost model = f@;
        let out: XllOutput = match f.parsed.filter(Some(&pcm)) {
            Ok(out) => out,
            Err(x) => return Err(error_of(x)),
        };
        self.output = copy_slots(&out.samples);
        assert(slot_views(self.output@) == out@.samples);
        Ok(fill_frame(&f.parsed.frame, f.x, out, e, navigation, Ghost(model)))
    }
}

fn error_of(e: XllError) -> (r: HdError)
    ensures
        r == hd_error(e),
{
    match e {
        XllError::Eagain => HdError::Pending,
        other => HdError::Xll(other),
    }
}

/// The frame of a lossless route.
fn fill_frame(
    f: &XllFrame,
    x: XReport,
    out: XllOutput,
    e: ExssParser,
    navigation: XNavigation,
    Ghost(model): Ghost<DecodedModel>,
) -> (r: HdFrame)
    requires
        model.parsed.frame == *f,
        model.x == x@,
    ensures
        r@ == lossless_frame(model, out@, e@, navigation),
{
    let mut frame: HdFrame = HdFrame::default();
    frame.sample_rate = out.sample_rate;
    frame.output_mask = out.mask;
    frame.samples = out.samples;
    frame.lossless = true;
    frame.x_header_tail_bits = x.header_tail_bits;
    frame.x_decode_error = x.error;
    frame.xll_frame_segments = f.nframesegs;
    frame.xll_segment_samples = f.nsegsamples;
    frame.xll_segment_size_bits = f.seg_size_nbits;
    frame.xll_band_crc_present = f.band_crc_present;
    frame.xll_scalable_lsbs = f.scalable_lsbs;
    frame.exss_descriptor_tail_bits = e.asset.descriptor_tail_bits;
    frame.exss_descriptor_tail = e.asset.descriptor_tail;
    frame.x_descriptor_offset = navigation.offset;
    frame.x_descriptor_size = navigation.size;
    if let Some(p) = x.payload {
        frame.x_present = !p.alternate;
        frame.x_imax = p.alternate;
        frame.x_payload = p.data;
        frame.x_payload_offset = p.offset;
        frame.x_descriptor_navigation_used = p.navigated;
    }
    if let Some(a) = x.audio {
        frame.x_samples = a.samples;
        frame.x_pcm_bit_res = a.pcm_bit_res;
        frame.x_bits_consumed = a.bits_consumed;
    }
    frame
}

/// The state after a core access unit: no set extends it yet.
pub open spec fn core_only(c: CoreModel) -> bool {
    &&& c.wf()
    &&& c.nchannels == c.nchannels_core
    &&& c.extension_base == c.nchannels
    &&& c.xxch is None
    &&& c.audio.samples.len() == 384
}

/// On the lossy route no frame is dropped, and a component that fails costs
/// itself alone: the speakers play what they would play without the spatial
/// extension, and without its channels where the XXCH component fails.
pub proof fn lossy_components_cost_themselves_alone(s: HdModel, t: HdTables, e: ExssModel, d: Seq<u8>)
    requires
        core_only(s.core),
    ensures
        ({
            let frame = lossy_decoded(s, t, e, d).1;
            let (c, xxch) = lossy_xxch(s.core, t.core, e, d);
            let with = synthesized(s.synth, t.synth, c, false).2;
            let bare = synthesized(s.synth, t.synth, s.core, false).2;
            &&& frame.samples == with.slots
            &&& frame.output_mask == with.ch_mask
            &&& frame.xxch_decode_error == xxch
            &&& xxch is Some ==> frame.samples == bare.slots && frame.output_mask == bare.ch_mask
        }),
{
    let (c, xxch) = lossy_xxch(s.core, t.core, e, d);
    let at = e.asset.xxch_offset as int;
    let size = e.asset.descriptor.navigation.xxch_size as int;
    if size != 0 && at + size <= d.len() {
        xxch_sets_keep_the_core(s.core, t.core, d.subrange(at, at + size));
    }
    if xxch is Some {
        bare_sets_are_not_played(s.synth, t.synth, s.core, c, false);
    }
    if let Some(x) = after_asset(e, d) {
        let end = if e.exss_size < d.len() { e.exss_size as int } else { d.len() as int };
        if let Ok(set) = lossy_set(d.subrange(x, end)) {
            bare_sets_keep_all_channels(c, t.core, set, 4);
        }
    }
    bare_sets_are_not_played(s.synth, t.synth, c, lossy_x(c, t.core, e, d).0, false);
}

/// After a lossy frame there are no lossless samples to hand out.
pub proof fn lossy_frames_leave_no_lossless_samples(s: HdModel, t: HdTables, e: ExssModel, d: Seq<u8>)
    ensures
        lossy_decoded(s, t, e, d).0.output == silent(),
        !lossy_decoded(s, t, e, d).1.lossless,
{
}

/// What the speakers play of a lossless frame does not depend on what came of
/// its spatial extension.
pub proof fn spatial_extensions_keep_the_lossless_bed(
    s: HdModel,
    t: HdTables,
    e: ExssModel,
    d: Seq<u8>,
    n: XNavigation,
)
    ensures
        match (
            lossless_decoded(s, t, e, d, n).1,
            xll_step(s.xll, xll_bytes(e, d), t.xll, source_of(e, n)).1,
        ) {
            (Ok(frame), Ok(f)) => {
                let pcm = synthesized(s.synth, t.synth, s.core, doubles(f, s.core)).2;
                lossless_output(f.parsed, Some(pcm)) matches Ok(out) && frame.samples
                    == out.samples && frame.lossless
            },
            (Err(x), Ok(f)) => {
                let pcm = synthesized(s.synth, t.synth, s.core, doubles(f, s.core)).2;
                lossless_output(f.parsed, Some(pcm)) matches Err(y) && x == hd_error(y)
            },
            (r, Err(y)) => r == Err::<HdFrameModel, HdError>(hd_error(y)),
        },
{
}

/// What was handed out: the frame or why there is none, and the lossless
/// samples after it.
pub ghost struct Delivery {
    pub frame: Result<HdFrameModel, HdError>,
    pub lossless: Seq<Option<Seq<i32>>>,
}

/// One frame's bytes: the core access unit, the extension substream, and
/// where the spatial extension lies.
pub ghost struct FrameBytes {
    pub core: Seq<u8>,
    pub exss: Seq<u8>,
    pub navigation: XNavigation,
}

/// The decoder after the first `n` frames.
pub open spec fn state_after(s: HdModel, t: HdTables, frames: Seq<FrameBytes>, n: int) -> HdModel
    decreases n,
{
    if n <= 0 {
        s
    } else {
        let f = frames[n - 1];
        hd_decoded(state_after(s, t, frames, n - 1), t, f.core, f.exss, f.navigation).0
    }
}

/// What frame `n` of a sequence gives.
pub open spec fn delivery(s: HdModel, t: HdTables, frames: Seq<FrameBytes>, n: int) -> Delivery {
    let f = frames[n];
    let (next, frame) = hd_decoded(
        state_after(s, t, frames, n),
        t,
        f.core,
        f.exss,
        f.navigation,
    );
    Delivery { frame, lossless: next.output }
}

/// Every later frame comes out the same of both.
pub open spec fn alike(a: HdModel, b: HdModel) -> bool {
    &&& begin_alike(a.core, b.core)
    &&& sound_alike(a.synth, b.synth)
    &&& a.xll == b.xll
    &&& a.output == b.output
}

proof fn lemma_alike_step(a: HdModel, b: HdModel, t: HdTables, f: FrameBytes)
    requires
        alike(a, b),
    ensures
        ({
            let (x, r) = hd_decoded(a, t, f.core, f.exss, f.navigation);
            let (y, q) = hd_decoded(b, t, f.core, f.exss, f.navigation);
            r == q && alike(x, y)
        }),
{
    if let Ok(info) = header(f.core) {
        alike_decoders_decode_alike(a.core, b.core, t.core, info, f.core);
        let (c, r) = core_decoded(a.core, t.core, info, f.core);
        if r is Ok {
            if let Ok(e) = exss(f.exss) {
                let (x, u) = lossy_xxch(c, t.core, e, f.exss);
                let (y, v) = lossy_x(x, t.core, e, f.exss);
                alike_syntheses_play_alike(a.synth, b.synth, t.synth, y, false);
                alike_syntheses_play_alike(a.synth, b.synth, t.synth, c, false);
                alike_syntheses_play_alike(a.synth, b.synth, t.synth, c, true);
            }
        }
    }
}

proof fn lemma_alike_after(a: HdModel, b: HdModel, t: HdTables, frames: Seq<FrameBytes>, n: int)
    requires
        alike(a, b),
    ensures
        alike(state_after(a, t, frames, n), state_after(b, t, frames, n)),
    decreases n,
{
    if n > 0 {
        lemma_alike_after(a, b, t, frames, n - 1);
        lemma_alike_step(
            state_after(a, t, frames, n - 1),
            state_after(b, t, frames, n - 1),
            t,
            frames[n - 1],
        );
    }
}

/// A decoder that was reset hands out no lossless samples, and decodes every
/// later sequence of frames as a new one does: nothing of the earlier stream
/// shows in the next.
pub proof fn reset_decoders_decode_as_new_ones(
    s: HdModel,
    t: HdTables,
    frames: Seq<FrameBytes>,
    n: int,
)
    requires
        s.wf(),
        0 <= n < frames.len(),
    ensures
        hd_reset(s).output == hd_fresh().output,
        delivery(hd_reset(s), t, frames, n) == delivery(hd_fresh(), t, frames, n),
{
    resets_silence_the_history(s.core);
    resets_silence_the_lines(s.synth);
    lemma_alike_after(hd_reset(s), hd_fresh(), t, frames, n);
    lemma_alike_step(
        state_after(hd_reset(s), t, frames, n),
        state_after(hd_fresh(), t, frames, n),
        t,
        frames[n],
    );
}

/// The lossless samples that are handed out after a frame are those of its
/// speakers where the frame is lossless, and none where it is not.
pub proof fn lossless_samples_are_those_of_the_frame(
    s: HdModel,
    t: HdTables,
    core_au: Seq<u8>,
    d: Seq<u8>,
    n: XNavigation,
)
    ensures
        hd_decoded(s, t, core_au, d, n) matches (next, Ok(frame)) ==> next.output == if frame.lossless {
            frame.samples
        } else {
            silent()
        },
{
}

/// A substream is lossless exactly if it has a lossless component, and one
/// that cannot be read is neither lossless nor lossy.
pub proof fn unreadable_substreams_are_left_to_the_core(d: Seq<u8>)
    ensures
        (kind_of_exss(d) == ExssKind::Lossless) == (exss(d) matches Ok(e)
            && e.asset.descriptor.navigation.xll is Some),
        size_of_exss(d) is None ==> kind_of_exss(d) == ExssKind::Core,
{
}

/// A substream lies within its bytes, and what follows it never changes its
/// size.
pub proof fn trailing_bytes_keep_the_size(d: Seq<u8>, extra: Seq<u8>)
    ensures
        size_of_exss(d) matches Some(n) ==> {
            &&& 2 <= n <= d.len()
            &&& size_of_exss(d + extra) == Some(n)
        },
{
    trailing_bytes_keep_the_substream(d, extra);
}

} // verus!
