//! The lossless decoder: one frame at a time, through a buffer where frames
//! are spread over several substreams.

use vstd::prelude::*;
use vstd::slice::slice_subrange;
use crate::bits::BitReader;
use super::core_output::{CoreOutput, CorePcm};
use super::exss::XllParameters;
use super::xll_band::{BandModel, XllBand};
use super::xll_error::{xll_x_error_kind, XllError};
use super::xll_frame::{
    band_views, bands_after, bands_wf, channel_sets, common_header, navi_table, parse_band_data,
    parse_common_header, parse_navi_table, parse_sub_headers, set_views, sets_wf, total,
};
use super::xll_header::{XllChSet, XllChSetModel, XllFrame, XllTables};
use super::xll_output::{all_lows, all_rows, filter_frame, frame_output, XllOutput, XllOutputModel};
use super::xll_x::{
    alternate_audio, decode_alternate, decode_standard, detect_x_extension, standard_audio,
    standard_set, x_payload, XAudio, XAudioModel, XPayload, XPayloadModel,
};

verus! {

/// A frame's headers and coded samples, before they are filtered.
pub ghost struct FrameModel {
    pub frame: XllFrame,
    pub sets: Seq<XllChSetModel>,
    pub bands: Seq<BandModel>,
    /// Bit at which the band data ended.
    pub end: int,
}

/// The lossless frame at the start of `d`.
pub open spec fn xll_frame(d: Seq<u8>, t: XllTables, one_to_one: bool) -> Result<FrameModel, XllError> {
    let lim = 8 * d.len() as int;
    match common_header(d, lim, 0) {
        Err(e) => Err(e),
        Ok((frame, a)) => match channel_sets(d, lim, a, t, frame, one_to_one, frame.nchsets as int) {
            Err(e) => Err(e),
            Ok((sets, b)) => match navi_table(d, lim, b, frame) {
                Err(e) => Err(e),
                Ok((navi, c)) => match bands_after(d, lim, c, sets, frame, navi, navi.len() as int) {
                    Err(e) => Err(e),
                    Ok(bands) => Ok(
                        FrameModel { frame, sets, bands, end: c + 8 * total(navi, navi.len() as int) },
                    ),
                },
            },
        },
    }
}

/// What a parsed frame plays, over the core where it is coded over it.
pub open spec fn lossless_output(m: FrameModel, core: Option<CorePcm>) -> Result<
    XllOutputModel,
    XllError,
> {
    frame_output(
        m.sets,
        m.frame,
        Seq::new(m.bands.len(), |i: int| m.bands[i].msb),
        Seq::new(m.bands.len(), |i: int| m.bands[i].lsb),
        core,
    )
}

/// A parsed frame.
#[derive(Clone, Debug)]
pub struct ParsedFrame {
    pub frame: XllFrame,
    pub sets: Vec<XllChSet>,
    pub bands: Vec<XllBand>,
    pub end: usize,
}

impl View for ParsedFrame {
    type V = FrameModel;

    open spec fn view(&self) -> FrameModel {
        FrameModel {
            frame: self.frame,
            sets: set_views(self.sets@),
            bands: band_views(self.bands@),
            end: self.end as int,
        }
    }
}

impl ParsedFrame {
    pub open spec fn wf(&self) -> bool {
        &&& self.frame.wf()
        &&& self.sets@.len() == self.frame.nchsets
        &&& sets_wf(self.sets@, self.frame)
        &&& bands_wf(self.bands@, self.sets@, self.frame, self.frame.nframesegs as int, 0)
    }

    /// Sample rate of the first channel set.
    pub fn primary_freq(&self) -> (r: u32)
        requires
            self.wf(),
        ensures
            r == self.sets@[0].head.freq,
    {
        self.sets[0].head.freq
    }

    /// Undo the coding of the frame and place it on its speakers; channels
    /// coded over the core need its output.
    pub fn filter(&mut self, core: Option<&CoreOutput>) -> (r: Result<XllOutput, XllError>)
        requires
            old(self).wf(),
            core matches Some(c) ==> c.wf(),
        ensures
            match (
                r,
                lossless_output(
                    old(self)@,
                    match core {
                        Some(c) => Some(c@),
                        None => None,
                    },
                ),
            ) {
                (Ok(v), Ok(want)) => v@ == want && v.samples@.len() == 32,
                (Err(e), Err(f)) => e == f,
                _ => false,
            },
            final(self).frame == old(self).frame,
            final(self).sets == old(self).sets,
    {
        proof {
            assert(all_rows(self.bands@) =~= Seq::new(self@.bands.len(), |i: int| self@.bands[i].msb));
            assert(all_lows(self.bands@) =~= Seq::new(self@.bands.len(), |i: int| self@.bands[i].lsb));
        }
        filter_frame(&self.sets, &self.frame, &mut self.bands, core)
    }
}

/// Parse one lossless frame up to the end of its band data.
pub fn parse_frame(data: &[u8], t: &XllTables, one_to_one: bool) -> (r: Result<ParsedFrame, XllError>)
    requires
        8 * data@.len() <= usize::MAX,
        t.wf(),
    ensures
        match (r, xll_frame(data@, *t, one_to_one)) {
            (Ok(v), Ok(want)) => v@ == want && v.wf() && v.end <= 8 * data@.len(),
            (Err(e), Err(f)) => e == f,
            _ => false,
        },
{
    let mut gb: BitReader = BitReader::new(data);
    let frame: XllFrame = parse_common_header(&mut gb)?;
    let sets: Vec<XllChSet> = parse_sub_headers(&mut gb, t, &frame, one_to_one)?;
    let navi: Vec<u64> = parse_navi_table(&mut gb, &frame)?;
    let bands: Vec<XllBand> = parse_band_data(&mut gb, &sets, &frame, &navi)?;
    Ok(ParsedFrame { frame, sets, bands, end: gb.position() })
}

/// What came of a frame's spatial extension.
#[derive(Clone, Debug)]
pub struct XReport {
    pub payload: Option<XPayload>,
    pub audio: Option<XAudio>,
    pub error: Option<&'static str>,
    pub header_tail_bits: usize,
}

pub ghost struct XReportModel {
    pub payload: Option<XPayloadModel>,
    pub audio: Option<XAudioModel>,
    pub error: Option<&'static str>,
    pub header_tail_bits: int,
}

impl View for XReport {
    type V = XReportModel;

    open spec fn view(&self) -> XReportModel {
        XReportModel {
            payload: match self.payload {
                Some(p) => Some(p@),
                None => None,
            },
            audio: match self.audio {
                Some(a) => Some(a@),
                None => None,
            },
            error: self.error,
            header_tail_bits: self.header_tail_bits as int,
        }
    }
}

/// The name of an error.
pub open spec fn kind_of(e: XllError) -> &'static str {
    match e {
        XllError::Eagain => "eagain",
        XllError::Bitstream => "bitstream",
        XllError::Invalid(what) => what,
        XllError::Unsupported(what) => what,
    }
}

/// The report on a payload whose decode came out as `audio`.
pub open spec fn x_outcome(p: XPayloadModel, audio: Result<XAudioModel, XllError>, tail: int) -> XReportModel {
    match audio {
        Ok(a) => XReportModel {
            payload: Some(p),
            audio: Some(a),
            error: None,
            header_tail_bits: tail,
        },
        Err(e) => XReportModel {
            payload: Some(p),
            audio: None,
            error: Some(kind_of(e)),
            header_tail_bits: tail,
        },
    }
}

/// The report on the extension of a frame. A failed decode costs the
/// extension alone.
pub open spec fn x_report(
    d: Seq<u8>,
    t: XllTables,
    frame: XllFrame,
    end: int,
    hint: Option<(usize, usize)>,
) -> XReportModel {
    match x_payload(d, frame.frame_size, end, hint) {
        None => XReportModel { payload: None, audio: None, error: None, header_tail_bits: 0 },
        Some(p) => if p.alternate {
            x_outcome(p, alternate_audio(p.data, t), 0)
        } else {
            match standard_set(p.data, t, frame) {
                Err(e) => x_outcome(p, Err(e), 0),
                Ok((set, q)) => x_outcome(
                    p,
                    standard_audio(p.data, frame, set, q),
                    set.header_tail_bits as int,
                ),
            }
        },
    }
}

fn report(payload: XPayload, audio: Result<XAudio, XllError>, header_tail_bits: usize) -> (r: XReport)
    ensures
        r@ == x_outcome(
            payload@,
            match audio {
                Ok(a) => Ok(a@),
                Err(e) => Err(e),
            },
            header_tail_bits as int,
        ),
{
    match audio {
        Ok(a) => XReport { payload: Some(payload), audio: Some(a), error: None, header_tail_bits },
        Err(e) => XReport {
            payload: Some(payload),
            audio: None,
            error: Some(xll_x_error_kind(&e)),
            header_tail_bits,
        },
    }
}

/// Find and decode the extension behind a frame.
pub fn decode_x_extension(
    data: &[u8],
    t: &XllTables,
    frame: &XllFrame,
    end: usize,
    hint: Option<(usize, usize)>,
) -> (r: XReport)
    requires
        8 * data@.len() <= usize::MAX,
        t.wf(),
        frame.wf(),
        end <= 8 * data@.len(),
    ensures
        r@ == x_report(data@, *t, *frame, end as int, hint),
{
    match detect_x_extension(data, frame.frame_size, end, hint) {
        None => XReport { payload: None, audio: None, error: None, header_tail_bits: 0 },
        Some(p) => {
            assert(p.data@.len() <= data@.len());
            if p.alternate {
                let audio: Result<XAudio, XllError> = decode_alternate(&p.data, t);
                report(p, audio, 0)
            } else {
                let (audio, tail): (Result<XAudio, XllError>, usize) = decode_standard(
                    &p.data,
                    t,
                    frame,
                );
                report(p, audio, tail)
            }
        },
    }
}

/// What the substream says about its lossless component.
#[derive(Clone, Copy, Debug, PartialEq, Eq)]
pub struct XllSource {
    pub hd_stream_id: u32,
    pub one_to_one: bool,
    pub parameters: XllParameters,
    /// Offset and size of the extension, where the descriptor gives them.
    pub hint: Option<(usize, usize)>,
}

/// Bytes kept from one substream to the next.
pub struct XllDecoder {
    pub hd_stream_id: u32,
    pub pbr_buffer: Vec<u8>,
    pub pbr_delay: u32,
}

/// [`XllDecoder`] over sequences.
pub ghost struct PbrModel {
    pub stream: u32,
    pub buffer: Seq<u8>,
    pub delay: u32,
}

impl View for XllDecoder {
    type V = PbrModel;

    open spec fn view(&self) -> PbrModel {
        PbrModel { stream: self.hd_stream_id, buffer: self.pbr_buffer@, delay: self.pbr_delay }
    }
}

/// A frame and its extension.
pub ghost struct DecodedModel {
    pub parsed: FrameModel,
    pub x: XReportModel,
}

/// A frame and its extension.
#[derive(Clone, Debug)]
pub struct DecodedFrame {
    pub parsed: ParsedFrame,
    pub x: XReport,
}

impl View for DecodedFrame {
    type V = DecodedModel;

    open spec fn view(&self) -> DecodedModel {
        DecodedModel { parsed: self.parsed@, x: self.x@ }
    }
}

/// A frame with its extension, from the bytes of one or more substreams.
pub open spec fn whole_frame(d: Seq<u8>, t: XllTables, source: XllSource) -> Result<DecodedModel, XllError> {
    match xll_frame(d, t, source.one_to_one) {
        Err(e) => Err(e),
        Ok(parsed) => Ok(
            DecodedModel { parsed, x: x_report(d, t, parsed.frame, parsed.end, source.hint) },
        ),
    }
}

pub fn parse_whole_frame(data: &[u8], t: &XllTables, source: &XllSource) -> (r: Result<
    DecodedFrame,
    XllError,
>)
    requires
        8 * data@.len() <= usize::MAX,
        t.wf(),
    ensures
        match (r, whole_frame(data@, *t, *source)) {
            (Ok(v), Ok(want)) => v@ == want && v.parsed.wf(),
            (Err(e), Err(f)) => e == f,
            _ => false,
        },
{
    let parsed: ParsedFrame = parse_frame(data, t, source.one_to_one)?;
    let x: XReport = decode_x_extension(data, t, &parsed.frame, parsed.end, source.hint);
    Ok(DecodedFrame { parsed, x })
}

pub open spec fn cleared(s: PbrModel) -> PbrModel {
    PbrModel { stream: s.stream, buffer: Seq::empty(), delay: 0 }
}

/// A frame that comes out of the buffer with the new bytes behind it.
pub open spec fn buffered_step(s: PbrModel, data: Seq<u8>, t: XllTables, source: XllSource) -> (
    PbrModel,
    Result<DecodedModel, XllError>,
) {
    let all = s.buffer + data;
    if s.delay > 1 {
        (
            PbrModel { stream: s.stream, buffer: all, delay: (s.delay - 1) as u32 },
            Err(XllError::Eagain),
        )
    } else {
        match whole_frame(all, t, source) {
            Err(e) => (cleared(s), Err(e)),
            Ok(f) => {
                let size = f.parsed.frame.frame_size;
                if size > all.len() {
                    (cleared(s), Err(XllError::Invalid("xll pbr frame too large")))
                } else {
                    (
                        PbrModel {
                            stream: s.stream,
                            buffer: all.subrange(size as int, all.len() as int),
                            delay: 0,
                        },
                        Ok(f),
                    )
                }
            },
        }
    }
}

/// The frame of a substream that nothing was kept for: at its start, or at
/// the sync point the substream gives.
pub open spec fn fresh_frame(data: Seq<u8>, t: XllTables, source: XllSource) -> Result<
    DecodedModel,
    XllError,
> {
    let first = whole_frame(data, t, source);
    let sync = source.parameters;
    if first == Err::<DecodedModel, XllError>(XllError::Eagain) && sync.sync_present
        && sync.sync_offset < data.len() {
        whole_frame(data.subrange(sync.sync_offset as int, data.len() as int), t, source)
    } else {
        first
    }
}

/// A frame that starts in this substream.
pub open spec fn fresh_step(s: PbrModel, data: Seq<u8>, t: XllTables, source: XllSource) -> (
    PbrModel,
    Result<DecodedModel, XllError>,
) {
    let sync = source.parameters;
    if whole_frame(data, t, source) == Err::<DecodedModel, XllError>(XllError::Eagain)
        && sync.sync_present && sync.sync_offset < data.len() && sync.delay_nframes > 0 {
        (
            PbrModel {
                stream: s.stream,
                buffer: data.subrange(sync.sync_offset as int, data.len() as int),
                delay: sync.delay_nframes,
            },
            Err(XllError::Eagain),
        )
    } else {
        match fresh_frame(data, t, source) {
            Err(e) => (s, Err(e)),
            Ok(f) => {
                let size = f.parsed.frame.frame_size;
                if size > data.len() {
                    (s, Err(XllError::Invalid("xll frame larger than data")))
                } else {
                    (
                        PbrModel {
                            stream: s.stream,
                            buffer: data.subrange(size as int, data.len() as int),
                            delay: s.delay,
                        },
                        Ok(f),
                    )
                }
            },
        }
    }
}

/// One substream: another stream drops what was kept; bytes that were kept
/// come first.
pub open spec fn xll_step(s: PbrModel, data: Seq<u8>, t: XllTables, source: XllSource) -> (
    PbrModel,
    Result<DecodedModel, XllError>,
) {
    let s0 = if s.stream != source.hd_stream_id {
        PbrModel { stream: source.hd_stream_id, buffer: Seq::empty(), delay: 0 }
    } else {
        s
    };
    if s0.delay > 0 || s0.buffer.len() > 0 {
        buffered_step(s0, data, t, source)
    } else {
        fresh_step(s0, data, t, source)
    }
}

fn bytes_from(data: &[u8], from: usize) -> (r: Vec<u8>)
    requires
        from <= data@.len(),
    ensures
        r@ == data@.subrange(from as int, data@.len() as int),
{
    let mut r: Vec<u8> = Vec::new();
    let n: usize = data.len();
    let mut i: usize = from;
    while i < n
        invariant
            n == data@.len(),
            from <= i <= n,
            r@ == data@.subrange(from as int, i as int),
        decreases n - i,
    {
        r.push(data[i]);
        assert(data@.subrange(from as int, i + 1) =~= data@.subrange(from as int, i as int).push(
            data@[i as int],
        ));
        i = i + 1;
    }
    r
}

/// The outcome of a step, on machine values.
pub open spec fn outcome(r: Result<DecodedFrame, XllError>, want: Result<DecodedModel, XllError>) -> bool {
    match (r, want) {
        (Ok(v), Ok(w)) => v@ == w && v.parsed.wf(),
        (Err(e), Err(f)) => e == f,
        _ => false,
    }
}

impl XllDecoder {
    pub fn new() -> (r: Self)
        ensures
            r@ == (PbrModel { stream: 0, buffer: Seq::empty(), delay: 0 }),
    {
        let r = XllDecoder { hd_stream_id: 0, pbr_buffer: Vec::new(), pbr_delay: 0 };
        assert(r.pbr_buffer@ =~= Seq::<u8>::empty());
        r
    }

    /// Forget everything.
    pub fn reset(&mut self)
        ensures
            final(self)@ == (PbrModel { stream: 0, buffer: Seq::empty(), delay: 0 }),
    {
        *self = XllDecoder::new();
    }

    fn clear_pbr(&mut self)
        ensures
            final(self)@ == cleared(old(self)@),
    {
        self.pbr_buffer = Vec::new();
        self.pbr_delay = 0;
        assert(self.pbr_buffer@ =~= Seq::<u8>::empty());
    }

    fn parse_frame_pbr(&mut self, data: &[u8], t: &XllTables, source: &XllSource) -> (r: Result<
        DecodedFrame,
        XllError,
    >)
        requires
            8 * (old(self).pbr_buffer@.len() + data@.len()) <= usize::MAX,
            t.wf(),
        ensures
            ({
                let (s, want) = buffered_step(old(self)@, data@, *t, *source);
                final(self)@ == s && outcome(r, want)
            }),
    {
        let mut tail: Vec<u8> = bytes_from(data, 0);
        assert(tail@ =~= data@);
        self.pbr_buffer.append(&mut tail);
        let ghost all = self.pbr_buffer@;
        assert(all =~= old(self)@.buffer + data@);
        if self.pbr_delay > 0 {
            self.pbr_delay = self.pbr_delay - 1;
            if self.pbr_delay > 0 {
                return Err(XllError::Eagain);
            }
        }
        let mut buf: Vec<u8> = Vec::new();
        std::mem::swap(&mut buf, &mut self.pbr_buffer);
        match parse_whole_frame(&buf, t, source) {
            Err(e) => {
                self.clear_pbr();
                Err(e)
            },
            Ok(f) => {
                let size: u64 = f.parsed.frame.frame_size;
                if size > buf.len() as u64 {
                    self.clear_pbr();
                    return Err(XllError::Invalid("xll pbr frame too large"));
                }
                self.pbr_buffer = bytes_from(&buf, size as usize);
                self.pbr_delay = 0;
                Ok(f)
            },
        }
    }

    fn parse_frame_no_pbr(&mut self, data: &[u8], t: &XllTables, source: &XllSource) -> (r: Result<
        DecodedFrame,
        XllError,
    >)
        requires
            8 * data@.len() <= usize::MAX,
            t.wf(),
        ensures
            ({
                let (s, want) = fresh_step(old(self)@, data@, *t, *source);
                final(self)@ == s && outcome(r, want)
            }),
    {
        let sync: XllParameters = source.parameters;
        let mut first: Result<DecodedFrame, XllError> = parse_whole_frame(data, t, source);
        let waits: bool = match &first {
            Err(XllError::Eagain) => sync.sync_present && sync.sync_offset < data.len(),
            _ => false,
        };
        if waits {
            if sync.delay_nframes > 0 {
                self.pbr_buffer = bytes_from(data, sync.sync_offset);
                self.pbr_delay = sync.delay_nframes;
                return Err(XllError::Eagain);
            }
            let late: &[u8] = slice_subrange(data, sync.sync_offset, data.len());
            first = parse_whole_frame(late, t, source);
        }
        let f: DecodedFrame = first?;
        let size: u64 = f.parsed.frame.frame_size;
        if size > data.len() as u64 {
            return Err(XllError::Invalid("xll frame larger than data"));
        }
        self.pbr_buffer = bytes_from(data, size as usize);
        Ok(f)
    }

    /// Parse the lossless component of one substream. `Eagain` asks for the
    /// next substream; what was given is kept for it.
    pub fn parse(&mut self, data: &[u8], t: &XllTables, source: &XllSource) -> (r: Result<
        DecodedFrame,
        XllError,
    >)
        requires
            8 * (old(self).pbr_buffer@.len() + data@.len()) <= usize::MAX,
            t.wf(),
        ensures
            ({
                let (s, want) = xll_step(old(self)@, data@, *t, *source);
                final(self)@ == s && outcome(r, want)
            }),
    {
        if self.hd_stream_id != source.hd_stream_id {
            self.clear_pbr();
            self.hd_stream_id = source.hd_stream_id;
        }
        if self.pbr_delay > 0 || self.pbr_buffer.len() > 0 {
            self.parse_frame_pbr(data, t, source)
        } else {
            assert(self.pbr_buffer@ =~= Seq::<u8>::empty());
            self.parse_frame_no_pbr(data, t, source)
        }
    }
}

/// Whatever a substream gives, a frame that comes out takes its bytes with
/// it: what is kept and what the frame took make up what was there.
pub proof fn kept_bytes_follow_the_frame(s: PbrModel, data: Seq<u8>, t: XllTables, source: XllSource)
    requires
        s.stream == source.hd_stream_id,
        xll_step(s, data, t, source).1 is Ok,
    ensures
        ({
            let (next, r) = xll_step(s, data, t, source);
            let all = s.buffer + data;
            let size = (r->Ok_0).parsed.frame.frame_size as int;
            &&& size <= all.len()
            &&& next.buffer == all.subrange(size, all.len() as int)
            &&& next.delay == 0
        }),
{
    let all = s.buffer + data;
    if s.delay > 0 || s.buffer.len() > 0 {
    } else {
        assert(all =~= data);
    }
}

/// A substream of another stream is decoded as if it were the first.
pub proof fn another_stream_starts_afresh(s: PbrModel, data: Seq<u8>, t: XllTables, source: XllSource)
    requires
        s.stream != source.hd_stream_id,
    ensures
        xll_step(s, data, t, source) == xll_step(
            PbrModel { stream: source.hd_stream_id, buffer: Seq::empty(), delay: 0 },
            data,
            t,
            source,
        ),
{
}

/// A frame is decoded or refused without regard to its spatial extension.
pub proof fn extensions_never_cost_the_frame(d: Seq<u8>, t: XllTables, source: XllSource)
    ensures
        match (whole_frame(d, t, source), xll_frame(d, t, source.one_to_one)) {
            (Ok(f), Ok(parsed)) => f.parsed == parsed,
            (Err(e), Err(x)) => e == x,
            _ => false,
        },
{
}

} // verus!
