//! The core decoder: from access units to subband samples.

use vstd::prelude::*;
use crate::bits::{field, flag, has_bit, lemma_field_range, test_bit, BitReader};
use crate::grammar::rows;
use super::core_audio::shape;
use super::core_bands::{audio_of, Audio};
use super::core_frame::{
    counts_wf, frame_data, layout_wf, lemma_frame_below, lemma_frame_end, parse_frame_data,
    same_below, FrameContext, FrameModel,
};
use super::core_header::{
    bare_coding, core_coding, parse_bare_coding, parse_core_coding, parse_xxch_coding, rb, rb1,
    short, xxch_coding, CoreError, SetCoding, SetModel, XxchDownmix, XxchDownmixModel, XxchHead,
};
use super::core_output::{
    slot_views, DCA_SPEAKER_LS, DCA_SPEAKER_LSS, DCA_SPEAKER_RS, DCA_SPEAKER_RSS,
};
use super::core_tables::CoreTables;
use super::fixed::{mul_norm, scaled, sub32, wrap32};
use super::parser::{mode_channels, AudioMode, FrameInfo};

verus! {

/// First word of an XXCH frame.
pub const DCA_SYNCWORD_XXCH: u32 = 0x4700_4A03;

/// The XXCH set of a frame.
#[derive(Clone, Debug)]
pub struct XxchSet {
    /// Width of the speaker masks.
    pub mask_nbits: usize,
    /// The core's speakers, as the set names them.
    pub core_mask: u32,
    /// The set's own speakers.
    pub spkr_mask: u32,
    pub downmix: XxchDownmix,
}

pub ghost struct XxchModel {
    pub mask_nbits: usize,
    pub core_mask: u32,
    pub spkr_mask: u32,
    pub downmix: XxchDownmixModel,
}

impl View for XxchSet {
    type V = XxchModel;

    open spec fn view(&self) -> XxchModel {
        XxchModel {
            mask_nbits: self.mask_nbits,
            core_mask: self.core_mask,
            spkr_mask: self.spkr_mask,
            downmix: self.downmix@,
        }
    }
}

pub open spec fn xxch_view(x: Option<XxchSet>) -> Option<XxchModel> {
    match x {
        Some(s) => Some(s@),
        None => None,
    }
}

/// Decodes core access units and the channel sets that extend them.
#[derive(Clone, Debug)]
pub struct CoreDecoder {
    npcmblocks: usize,
    sample_rate: u32,
    lfe_present: u8,
    audio_mode: AudioMode,
    crc_present: bool,
    bit_rate_lossless: bool,
    sync_ssf: bool,
    filter_perfect: bool,
    nchannels: usize,
    /// Channels of the primary set; the others are appended after it.
    nchannels_core: usize,
    /// First channel of the bare set, or `nchannels` without one.
    extension_base: usize,
    xxch: Option<XxchSet>,
    nsubbands: Vec<usize>,
    /// Subsubframes of each subframe.
    layout: Vec<usize>,
    samples: Vec<Vec<i32>>,
    lfe_samples: Vec<i32>,
}

pub ghost struct CoreModel {
    pub npcm: int,
    pub sample_rate: u32,
    pub lfe_present: u8,
    pub audio_mode: AudioMode,
    pub crc: bool,
    pub lossless: bool,
    pub sync_ssf: bool,
    pub filter_perfect: bool,
    pub nchannels: int,
    pub nchannels_core: int,
    pub extension_base: int,
    pub xxch: Option<XxchModel>,
    pub nsubbands: Seq<usize>,
    pub layout: Seq<usize>,
    pub audio: Audio,
}

impl View for CoreDecoder {
    type V = CoreModel;

    closed spec fn view(&self) -> CoreModel {
        CoreModel {
            npcm: self.npcmblocks as int,
            sample_rate: self.sample_rate,
            lfe_present: self.lfe_present,
            audio_mode: self.audio_mode,
            crc: self.crc_present,
            lossless: self.bit_rate_lossless,
            sync_ssf: self.sync_ssf,
            filter_perfect: self.filter_perfect,
            nchannels: self.nchannels as int,
            nchannels_core: self.nchannels_core as int,
            extension_base: self.extension_base as int,
            xxch: xxch_view(self.xxch),
            nsubbands: self.nsubbands@,
            layout: self.layout@,
            audio: audio_of(self.samples@, self.lfe_samples@),
        }
    }
}

/// `n` zeros.
pub open spec fn zeros(n: int) -> Seq<i32> {
    Seq::new(n as nat, |i: int| 0i32)
}

/// A row of samples for every band, and the low-frequency samples.
pub open spec fn buffers(a: Audio, npcm: int) -> bool {
    &&& a.samples.len() == 384
    &&& forall|r: int| 0 <= r < 384 ==> (#[trigger] a.samples[r]).len() == 4 + npcm
    &&& a.lfe.len() == 8 + npcm / 2
}

impl CoreModel {
    /// Invariant of the decoder.
    pub open spec fn wf(&self) -> bool {
        &&& 0 <= self.npcm <= 128
        &&& self.npcm % 8 == 0
        &&& self.lfe_present <= 2
        &&& self.sample_rate <= 192000
        &&& 0 <= self.nchannels_core <= self.extension_base <= self.nchannels <= 12
        &&& self.nchannels_core <= 5
        &&& self.nchannels > 0 ==> buffers(self.audio, self.npcm)
        &&& self.nsubbands.len() == 12
        &&& forall|i: int| 0 <= i < 12 ==> #[trigger] self.nsubbands[i] <= 32
        &&& layout_wf(self.layout)
        &&& self.xxch matches Some(x) ==> 7 <= x.mask_nbits <= 32
    }

    /// The bands have rows of one length, or none.
    pub open spec fn even_bands(&self) -> bool {
        let rows = self.audio.samples;
        &&& rows.len() == 384 || rows.len() == 0
        &&& forall|r: int| 0 <= r < rows.len() ==> (#[trigger] rows[r]).len() == rows[0].len()
    }

    /// A frame's buffers are there.
    pub open spec fn ready(&self) -> bool {
        self.wf() && buffers(self.audio, self.npcm)
    }
}

/// The decoder before its first frame.
pub open spec fn core_fresh() -> CoreModel {
    CoreModel {
        npcm: 0,
        sample_rate: 0,
        lfe_present: 0,
        audio_mode: AudioMode::Mono,
        crc: false,
        lossless: false,
        sync_ssf: false,
        filter_perfect: false,
        nchannels: 0,
        nchannels_core: 0,
        extension_base: 0,
        xxch: None,
        nsubbands: Seq::new(12, |i: int| 0usize),
        layout: Seq::empty(),
        audio: Audio { samples: Seq::empty(), lfe: Seq::empty() },
    }
}

/// Samples of a frame of `npcm` blocks: the old ones where they have the right
/// shape, else zeros; without history none is predicted from.
pub open spec fn allocated(a: Audio, npcm: int, history: bool) -> Audio {
    let kept = a.samples.len() == 384 && a.samples[0].len() == 4 + npcm;
    Audio {
        samples: Seq::new(
            384,
            |r: int|
                Seq::new(
                    (4 + npcm) as nat,
                    |i: int| if kept && (history || i >= 4) { a.samples[r][i] } else { 0i32 },
                ),
        ),
        lfe: if a.lfe.len() == 8 + npcm / 2 { a.lfe } else { zeros(8 + npcm / 2) },
    }
}

fn zero_row(n: usize) -> (r: Vec<i32>)
    ensures
        r@ == zeros(n as int),
{
    let mut r: Vec<i32> = Vec::new();
    while r.len() < n
        invariant
            r@.len() <= n,
            forall|i: int| 0 <= i < r@.len() ==> r@[i] == 0,
        decreases n - r.len(),
    {
        r.push(0);
    }
    assert(r@ =~= zeros(n as int));
    r
}

/// Rows of one length.
pub open spec fn even(v: Seq<Vec<i32>>) -> bool {
    forall|i: int| 0 <= i < v.len() ==> (#[trigger] v[i])@.len() == v[0]@.len()
}

fn clear_history(row: &mut Vec<i32>)
    requires
        old(row)@.len() >= 4,
    ensures
        final(row)@ == Seq::new(
            old(row)@.len(),
            |i: int| if i >= 4 { old(row)@[i] } else { 0i32 },
        ),
{
    row.set(0, 0);
    row.set(1, 0);
    row.set(2, 0);
    row.set(3, 0);
    assert(row@ =~= Seq::new(old(row)@.len(), |i: int| if i >= 4 { old(row)@[i] } else { 0i32 }));
}

fn alloc_buffers(samples: &mut Vec<Vec<i32>>, lfe: &mut Vec<i32>, npcm: usize, history: bool)
    requires
        npcm <= 128,
        even(old(samples)@),
    ensures
        audio_of(final(samples)@, final(lfe)@) == allocated(
            audio_of(old(samples)@, old(lfe)@),
            npcm as int,
            history,
        ),
        shape(final(samples)@, npcm as int),
{
    let kept: bool = samples.len() == 384 && samples[0].len() == 4 + npcm;
    let ghost a = audio_of(samples@, lfe@);
    let ghost want = allocated(a, npcm as int, history);
    if !kept {
        let mut fresh: Vec<Vec<i32>> = Vec::new();
        while fresh.len() < 384
            invariant
                npcm <= 128,
                fresh@.len() <= 384,
                forall|r: int| 0 <= r < fresh@.len() ==> (#[trigger] fresh@[r])@ == zeros(4 + npcm),
            decreases 384 - fresh.len(),
        {
            let row: Vec<i32> = zero_row(4 + npcm);
            fresh.push(row);
        }
        *samples = fresh;
        assert forall|r: int| 0 <= r < 384 implies rows(samples@)[r] == #[trigger] want.samples[r] by {
            assert(samples@[r]@ =~= want.samples[r]);
        }
    } else if !history {
        let mut r: usize = 0;
        while r < 384
            invariant
                r <= 384,
                samples@.len() == 384,
                old(samples)@.len() == 384,
                even(old(samples)@),
                old(samples)@[0]@.len() == 4 + npcm,
                forall|k: int| r <= k < 384 ==> #[trigger] samples@[k]@ == old(samples)@[k]@,
                forall|k: int|
                    0 <= k < r ==> (#[trigger] samples@[k])@ == Seq::new(
                        (4 + npcm) as nat,
                        |i: int| if i >= 4 { old(samples)@[k]@[i] } else { 0i32 },
                    ),
            decreases 384 - r,
        {
            assert(old(samples)@[r as int]@.len() == 4 + npcm);
            clear_history(&mut samples[r]);
            r = r + 1;
        }
        assert forall|r: int| 0 <= r < 384 implies rows(samples@)[r] == #[trigger] want.samples[r] by {
            assert(a.samples[r] == old(samples)@[r]@);
            assert(samples@[r]@ =~= want.samples[r]);
        }
    } else {
        assert forall|r: int| 0 <= r < 384 implies rows(samples@)[r] == #[trigger] want.samples[r] by {
            assert(samples@[r]@.len() == samples@[0]@.len());
            assert(samples@[r]@ =~= want.samples[r]);
        }
    }
    assert(rows(samples@) =~= want.samples);
    assert forall|r: int| 0 <= r < 384 implies (#[trigger] samples@[r])@.len() == 4 + npcm by {
        assert(rows(samples@)[r] == want.samples[r]);
    }
    if lfe.len() != 8 + npcm / 2 {
        *lfe = zero_row(8 + npcm / 2);
    }
}

/// What the core header says of the decoding.
pub ghost struct CoreHead {
    pub crc: bool,
    pub lossless: bool,
    pub sync_ssf: bool,
    pub filter_perfect: bool,
}

/// The core header, up to the coding header.
pub open spec fn core_head(d: Seq<u8>, lim: int) -> Result<(CoreHead, int), CoreError> {
    let q = if flag(d, 38) { 104int } else { 88int };
    if lim < 39 || q + 16 > lim {
        short()
    } else {
        Ok(
            (
                CoreHead {
                    crc: flag(d, 38),
                    lossless: field(d, 70, 5) == 3,
                    sync_ssf: flag(d, 84),
                    filter_perfect: flag(d, q),
                },
                q + 16,
            ),
        )
    }
}

/// Checksum flag, lossless flag, sync flag and filter flag of the core header.
fn skip_frame_header(gb: &mut BitReader<'_>) -> (r: Result<(bool, bool, bool, bool), CoreError>)
    requires
        old(gb).wf(),
        old(gb).pos() == 0,
    ensures
        final(gb).wf(),
        final(gb).same_source(old(gb)),
        match (r, core_head(old(gb).data(), old(gb).limit())) {
            (Ok(v), Ok((h, q))) => {
                &&& h == (CoreHead {
                    crc: v.0,
                    lossless: v.1,
                    sync_ssf: v.2,
                    filter_perfect: v.3,
                })
                &&& final(gb).pos() == q
            },
            (Err(e), Err(f)) => e == f,
            _ => false,
        },
{
    rb(gb, 32)?;
    rb1(gb)?;
    rb(gb, 5)?;
    let crc: bool = rb1(gb)?;
    rb(gb, 7)?;
    rb(gb, 14)?;
    rb(gb, 6)?;
    rb(gb, 4)?;
    let rate: u32 = rb(gb, 5)?;
    rb(gb, 9)?;
    let sync_ssf: bool = rb1(gb)?;
    rb(gb, 3)?;
    if crc {
        rb(gb, 16)?;
    }
    let perfect: bool = rb1(gb)?;
    rb(gb, 15)?;
    Ok((crc, rate == 3, sync_ssf, perfect))
}

/// Band counts with those of a set from channel `base` on.
pub open spec fn counted(all: Seq<usize>, base: int, own: Seq<usize>) -> Seq<usize> {
    Seq::new(all.len(), |i: int| if base <= i < base + own.len() { own[i - base] } else { all[i] })
}

fn set_counts(all: &mut Vec<usize>, base: usize, own: &Vec<usize>)
    requires
        base + own@.len() <= old(all)@.len(),
        old(all)@.len() == 12,
    ensures
        final(all)@ == counted(old(all)@, base as int, own@),
{
    let n: usize = own.len();
    let mut i: usize = 0;
    while i < n
        invariant
            n == own@.len(),
            i <= n,
            base + n <= 12,
            all@.len() == 12,
            old(all)@.len() == 12,
            forall|k: int|
                0 <= k < 12 ==> all@[k] == if base <= k < base + i {
                    own@[k - base]
                } else {
                    old(all)@[k]
                },
        decreases n - i,
    {
        all.set(base + i, own[i]);
        i = i + 1;
    }
    assert(all@ =~= counted(old(all)@, base as int, own@));
}

/// What the subframes of a set of `n` channels from `base` on are decoded with.
pub open spec fn set_model(
    m: CoreModel,
    t: CoreTables,
    d: Seq<u8>,
    set: SetModel,
    base: int,
    n: int,
    primary: bool,
) -> FrameModel {
    FrameModel {
        d,
        lim: 8 * d.len() as int,
        tables: t,
        set,
        base,
        n,
        all: m.nsubbands,
        npcm: m.npcm,
        crc: m.crc,
        lossless: m.lossless,
        sync_ssf: m.sync_ssf,
        lfe_rate: if primary { m.lfe_present as int } else { 0 },
        primary,
        layout: m.layout,
    }
}

/// The decoder at the start of an access unit.
pub open spec fn core_begun(m: CoreModel, info: FrameInfo) -> CoreModel {
    CoreModel {
        npcm: info.npcmblocks as int,
        sample_rate: info.sample_rate,
        lfe_present: info.lfe_present,
        audio_mode: info.audio_mode,
        nchannels: 0,
        nchannels_core: 0,
        extension_base: 0,
        xxch: None,
        nsubbands: Seq::new(12, |i: int| 0usize),
        layout: Seq::empty(),
        audio: allocated(m.audio, info.npcmblocks as int, info.predictor_history),
        ..m
    }
}

/// The decoder after a core access unit, and whether it was one.
pub open spec fn core_decoded(m: CoreModel, t: CoreTables, info: FrameInfo, d: Seq<u8>) -> (
    CoreModel,
    Result<(), CoreError>,
) {
    let begun = core_begun(m, info);
    let lim = 8 * d.len() as int;
    match core_head(d, lim) {
        Err(e) => (begun, Err(e)),
        Ok((h, p)) => {
            let headed = CoreModel {
                crc: h.crc,
                lossless: h.lossless,
                sync_ssf: h.sync_ssf,
                filter_perfect: h.filter_perfect,
                ..begun
            };
            match core_coding(d, lim, p, t, info.audio_mode, h.crc) {
                Err(e) => (headed, Err(e)),
                Ok(((nsubframes, set), q)) => {
                    let n = mode_channels(info.audio_mode);
                    let coded = CoreModel {
                        nsubbands: counted(headed.nsubbands, 0, set.nsubbands),
                        ..headed
                    };
                    match frame_data(
                        set_model(coded, t, d, set, 0, n, true),
                        coded.audio,
                        q,
                        nsubframes as int,
                    ) {
                        (audio, Err(e)) => (CoreModel { audio, ..coded }, Err(e)),
                        (audio, Ok((layout, _))) => (
                            CoreModel {
                                audio,
                                layout,
                                nchannels: n,
                                nchannels_core: n,
                                extension_base: n,
                                ..coded
                            },
                            Ok(()),
                        ),
                    }
                },
            }
        },
    }
}

fn zero_rows(samples: &mut Vec<Vec<i32>>, from: usize, to: usize)
    requires
        from <= to <= old(samples)@.len(),
    ensures
        final(samples)@.len() == old(samples)@.len(),
        rows(final(samples)@) == silenced(rows(old(samples)@), from as int, to as int),
{
    let total: usize = samples.len();
    let mut r: usize = from;
    while r < to
        invariant
            from <= r <= to <= total,
            total == samples@.len(),
            total == old(samples)@.len(),
            forall|k: int|
                0 <= k < total ==> (#[trigger] samples@[k])@ == if from <= k < r {
                    zeros(old(samples)@[k]@.len() as int)
                } else {
                    old(samples)@[k]@
                },
        decreases to - r,
    {
        let n: usize = samples[r].len();
        let row: Vec<i32> = zero_row(n);
        samples.set(r, row);
        r = r + 1;
    }
    assert(rows(samples@) =~= silenced(rows(old(samples)@), from as int, to as int));
}

/// Rows `from` to `to` made silent.
pub open spec fn silenced(s: Seq<Seq<i32>>, from: int, to: int) -> Seq<Seq<i32>> {
    Seq::new(s.len(), |r: int| if from <= r < to { zeros(s[r].len() as int) } else { s[r] })
}

/// The decoder with all samples silent.
pub open spec fn core_reset(m: CoreModel) -> CoreModel {
    CoreModel {
        audio: Audio {
            samples: silenced(m.audio.samples, 0, m.audio.samples.len() as int),
            lfe: zeros(m.audio.lfe.len() as int),
        },
        ..m
    }
}

fn no_counts() -> (r: Vec<usize>)
    ensures
        r@ == Seq::new(12, |i: int| 0usize),
{
    let mut r: Vec<usize> = Vec::new();
    while r.len() < 12
        invariant
            r@.len() <= 12,
            forall|i: int| 0 <= i < r@.len() ==> r@[i] == 0,
        decreases 12 - r.len(),
    {
        r.push(0);
    }
    assert(r@ =~= Seq::new(12, |i: int| 0usize));
    r
}

impl CoreDecoder {
    pub closed spec fn inv(&self) -> bool {
        &&& self@.wf()
        &&& even(self.samples@)
        &&& self@.audio.samples.len() == 384 || self@.audio.samples.len() == 0
    }

    pub fn new() -> (r: Self)
        ensures
            r@ == core_fresh(),
            r.inv(),
    {
        let nsubbands: Vec<usize> = no_counts();
        let r = CoreDecoder {
            npcmblocks: 0,
            sample_rate: 0,
            lfe_present: 0,
            audio_mode: AudioMode::Mono,
            crc_present: false,
            bit_rate_lossless: false,
            sync_ssf: false,
            filter_perfect: false,
            nchannels: 0,
            nchannels_core: 0,
            extension_base: 0,
            xxch: None,
            nsubbands,
            layout: Vec::new(),
            samples: Vec::new(),
            lfe_samples: Vec::new(),
        };
        assert(r@.layout =~= core_fresh().layout);
        assert(r@.audio.samples =~= core_fresh().audio.samples);
        assert(r@.audio.lfe =~= core_fresh().audio.lfe);
        r
    }

    /// Silence everything that a later frame could draw on.
    pub fn reset(&mut self)
        requires
            old(self).inv(),
        ensures
            final(self)@ == core_reset(old(self)@),
            final(self).inv(),
    {
        let n: usize = self.samples.len();
        zero_rows(&mut self.samples, 0, n);
        let k: usize = self.lfe_samples.len();
        self.lfe_samples = zero_row(k);
        proof {
            assert forall|i: int| 0 <= i < self.samples@.len() implies (#[trigger] self.samples@[i])@.len()
                == self.samples@[0]@.len() by {
                assert(rows(self.samples@)[i] == self.samples@[i]@);
                assert(rows(self.samples@)[0] == self.samples@[0]@);
                assert(old(self).samples@[i]@.len() == old(self).samples@[0]@.len());
            }
            if self@.nchannels > 0 {
                assert forall|r: int| 0 <= r < 384 implies (#[trigger] self@.audio.samples[r]).len() == 4
                    + self@.npcm by {
                    assert(old(self)@.audio.samples[r].len() == 4 + self@.npcm);
                }
            }
        }
    }

    /// Decode the subframes of a set whose header is read: the subsubframes of
    /// each.
    fn decode_set(
        &mut self,
        gb: &mut BitReader<'_>,
        t: &CoreTables,
        set: &SetCoding,
        base: usize,
        n: usize,
        nsubframes: usize,
        primary: bool,
    ) -> (r: Result<Vec<usize>, CoreError>)
        requires
            old(self).inv(),
            old(self)@.ready(),
            old(gb).wf(),
            old(gb).limit() == 8 * old(gb).data().len(),
            t.wf(),
            base + n <= 12,
            set.wf(n as int, base + n),
            counts_wf(old(self)@.nsubbands, set@, base as int, n as int),
            !primary ==> nsubframes <= old(self)@.layout.len(),
        ensures
            final(self).inv(),
            final(self)@.ready(),
            final(gb).wf(),
            final(gb).same_source(old(gb)),
            match (
                r,
                frame_data(
                    set_model(
                        old(self)@,
                        *t,
                        old(gb).data(),
                        set@,
                        base as int,
                        n as int,
                        primary,
                    ),
                    old(self)@.audio,
                    old(gb).pos(),
                    nsubframes as int,
                ),
            ) {
                (Ok(v), (audio, Ok((layout, q)))) => {
                    &&& final(self)@ == (CoreModel { audio, ..old(self)@ })
                    &&& layout == v@
                    &&& v@.len() == nsubframes
                    &&& layout_wf(v@)
                    &&& final(gb).pos() == q
                },
                (Err(e), (audio, Err(x))) => {
                    &&& e == x
                    &&& final(self)@ == (CoreModel { audio, ..old(self)@ })
                },
                _ => false,
            },
    {
        let f: FrameContext<'_> = FrameContext {
            tables: t,
            set,
            base,
            n,
            all: &self.nsubbands,
            npcm: self.npcmblocks,
            crc: self.crc_present,
            lossless: self.bit_rate_lossless,
            sync_ssf: self.sync_ssf,
            lfe_rate: if primary { self.lfe_present as usize } else { 0 },
            primary,
            layout: &self.layout,
        };
        proof {
            assert forall|r: int| 0 <= r < 384 implies (#[trigger] self.samples@[r])@.len() == 4
                + self.npcmblocks by {
                assert(self@.audio.samples[r] == self.samples@[r]@);
            }
        }
        let got: Result<Vec<usize>, CoreError> = parse_frame_data(
            gb,
            &f,
            &mut self.samples,
            &mut self.lfe_samples,
            nsubframes,
        );
        proof {
            lemma_ready(*self);
        }
        got
    }

    /// Make ready for an access unit whose header says `info`.
    fn begin(&mut self, info: &FrameInfo)
        requires
            old(self).inv(),
            info.wf(),
        ensures
            final(self)@ == core_begun(old(self)@, *info),
            final(self).inv(),
            final(self)@.ready(),
    {
        self.npcmblocks = info.npcmblocks as usize;
        self.sample_rate = info.sample_rate;
        self.lfe_present = info.lfe_present;
        self.audio_mode = info.audio_mode;
        self.nchannels = 0;
        self.nchannels_core = 0;
        self.extension_base = 0;
        self.xxch = None;
        self.nsubbands = no_counts();
        self.layout = Vec::new();
        alloc_buffers(
            &mut self.samples,
            &mut self.lfe_samples,
            self.npcmblocks,
            info.predictor_history,
        );
        proof {
            assert(self.layout@ =~= Seq::<usize>::empty());
            assert(self@ == core_begun(old(self)@, *info));
            lemma_ready(*self);
        }
    }

    /// Decode one core access unit whose header says `info`.
    pub fn decode_frame(&mut self, t: &CoreTables, info: &FrameInfo, data: &[u8]) -> (r: Result<
        (),
        CoreError,
    >)
        requires
            old(self).inv(),
            t.wf(),
            info.wf(),
            8 * data@.len() <= usize::MAX,
        ensures
            (final(self)@, r) == core_decoded(old(self)@, *t, *info, data@),
            final(self).inv(),
            final(self)@.ready(),
    {
        self.begin(info);
        let mut gb: BitReader<'_> = BitReader::new(data);
        let (crc, lossless, sync_ssf, perfect): (bool, bool, bool, bool) = skip_frame_header(&mut gb)?;
        self.crc_present = crc;
        self.bit_rate_lossless = lossless;
        self.sync_ssf = sync_ssf;
        self.filter_perfect = perfect;
        let (nsubframes, set): (usize, SetCoding) = parse_core_coding(
            &mut gb,
            t,
            info.audio_mode,
            crc,
        )?;
        let n: usize = set.nsubbands.len();
        set_counts(&mut self.nsubbands, 0, &set.nsubbands);
        let got: Result<Vec<usize>, CoreError> = self.decode_set(&mut gb, t, &set, 0, n, nsubframes, true);
        match got {
            Err(e) => Err(e),
            Ok(layout) => {
                self.layout = layout;
                self.nchannels = n;
                self.nchannels_core = n;
                self.extension_base = n;
                Ok(())
            },
        }
    }
}

/// Speakers of an arrangement, one bit each, without the low-frequency one.
pub open spec fn mode_mask(mode: AudioMode) -> u32 {
    match mode {
        AudioMode::Mono => 0x01,
        AudioMode::MonoDual => 0x06,
        AudioMode::Stereo => 0x06,
        AudioMode::StereoSumDiff => 0x06,
        AudioMode::StereoTotal => 0x06,
        AudioMode::ThreeF => 0x07,
        AudioMode::TwoF1R => 0x46,
        AudioMode::ThreeF1R => 0x47,
        AudioMode::TwoF2R => 0x1e,
        AudioMode::ThreeF2R => 0x1f,
    }
}

pub fn audio_mode_ch_mask(mode: AudioMode) -> (r: u32)
    ensures
        r == mode_mask(mode),
{
    match mode {
        AudioMode::Mono => 0x01,
        AudioMode::MonoDual | AudioMode::Stereo | AudioMode::StereoSumDiff
        | AudioMode::StereoTotal => 0x06,
        AudioMode::ThreeF => 0x07,
        AudioMode::TwoF1R => 0x46,
        AudioMode::ThreeF1R => 0x47,
        AudioMode::TwoF2R => 0x1e,
        AudioMode::ThreeF2R => 0x1f,
    }
}

/// Speakers of the primary channels, in the order of the channels.
pub open spec fn mode_speakers(mode: AudioMode) -> Seq<usize> {
    match mode {
        AudioMode::Mono => seq![0],
        AudioMode::MonoDual => seq![1, 2],
        AudioMode::Stereo => seq![1, 2],
        AudioMode::StereoSumDiff => seq![1, 2],
        AudioMode::StereoTotal => seq![1, 2],
        AudioMode::ThreeF => seq![0, 1, 2],
        AudioMode::TwoF1R => seq![1, 2, 6],
        AudioMode::ThreeF1R => seq![0, 1, 2, 6],
        AudioMode::TwoF2R => seq![1, 2, 3, 4],
        AudioMode::ThreeF2R => seq![0, 1, 2, 3, 4],
    }
}

/// The speaker of primary channel `ch`.
pub open spec fn mode_speaker(mode: AudioMode, ch: int) -> Option<usize> {
    if 0 <= ch < mode_speakers(mode).len() { Some(mode_speakers(mode)[ch]) } else { None }
}

pub fn prm_ch_to_spkr(mode: AudioMode, ch: usize) -> (r: Option<usize>)
    ensures
        r == mode_speaker(mode, ch as int),
        r is Some == (ch < mode_channels(mode)),
        r matches Some(v) ==> v < 32,
{
    let row: Vec<usize> = match mode {
        AudioMode::Mono => vec![0],
        AudioMode::MonoDual | AudioMode::Stereo | AudioMode::StereoSumDiff
        | AudioMode::StereoTotal => vec![1, 2],
        AudioMode::ThreeF => vec![0, 1, 2],
        AudioMode::TwoF1R => vec![1, 2, 6],
        AudioMode::ThreeF1R => vec![0, 1, 2, 6],
        AudioMode::TwoF2R => vec![1, 2, 3, 4],
        AudioMode::ThreeF2R => vec![0, 1, 2, 3, 4],
    };
    assert(row@ =~= mode_speakers(mode));
    if ch < row.len() {
        Some(row[ch])
    } else {
        None
    }
}

/// One bit for each of the first `n` speakers.
pub open spec fn speakers_mask(speakers: Seq<usize>, n: int) -> u32
    decreases n,
{
    if n <= 0 {
        0
    } else {
        speakers_mask(speakers, n - 1) | (1u32 << (speakers[n - 1] as u32))
    }
}

/// Every primary channel has a speaker, no two share one, and together they
/// are the speakers of the arrangement.
pub proof fn speakers_make_up_the_mask(mode: AudioMode)
    ensures
        mode_speakers(mode).len() == mode_channels(mode),
        forall|i: int, j: int|
            0 <= i < j < mode_channels(mode) ==> #[trigger] mode_speakers(mode)[i]
                != #[trigger] mode_speakers(mode)[j],
        speakers_mask(mode_speakers(mode), mode_channels(mode)) == mode_mask(mode),
{
    reveal_with_fuel(speakers_mask, 6);
    assert(1u32 << 0u32 == 0x01 && 1u32 << 1u32 == 0x02 && 1u32 << 2u32 == 0x04 && 1u32 << 3u32
        == 0x08 && 1u32 << 4u32 == 0x10 && 1u32 << 6u32 == 0x40) by (bit_vector);
    assert(0u32 | 0x01 == 0x01 && 0u32 | 0x02 == 0x02 && 0x02u32 | 0x04 == 0x06 && 0x01u32 | 0x02
        == 0x03 && 0x03u32 | 0x04 == 0x07 && 0x06u32 | 0x40 == 0x46 && 0x07u32 | 0x40 == 0x47
        && 0x06u32 | 0x08 == 0x0e && 0x0eu32 | 0x10 == 0x1e && 0x07u32 | 0x08 == 0x0f && 0x0fu32
        | 0x10 == 0x1f) by (bit_vector);
}

/// Speakers of the primary set, with the low-frequency one.
pub open spec fn core_mask(mode: AudioMode, lfe_present: u8) -> u32 {
    if lfe_present != 0 { mode_mask(mode) | 0x20 } else { mode_mask(mode) }
}

/// `mask` with its surrounds under the side-surround names where `like` uses
/// those.
pub open spec fn named_like(mask: u32, like: u32) -> u32 {
    let a = if mask & 0x08 != 0 && like & 0x200 != 0 { (mask & 0xffff_fff7) | 0x200 } else { mask };
    if a & 0x10 != 0 && like & 0x400 != 0 { (a & 0xffff_ffef) | 0x400 } else { a }
}

fn name_like(mask: u32, like: u32) -> (r: u32)
    ensures
        r == named_like(mask, like),
{
    let mut m: u32 = mask;
    if m & 0x08 != 0 && like & 0x200 != 0 {
        m = (m & 0xffff_fff7) | 0x200;
    }
    if m & 0x10 != 0 && like & 0x400 != 0 {
        m = (m & 0xffff_ffef) | 0x400;
    }
    m
}

/// Head of an XXCH frame over a core with speakers `core`: its size, the width
/// of its masks, and the core's speakers as it names them.
pub open spec fn xxch_frame_head(d: Seq<u8>, core: u32) -> Result<(usize, usize, u32), CoreError> {
    let lim = 8 * d.len();
    let size = field(d, 32, 6) + 1;
    let nbits = field(d, 39, 5) + 1;
    let mask = field(d, 60, nbits) as u32;
    if lim < 32 {
        Err(CoreError::Bitstream)
    } else if field(d, 0, 32) != DCA_SYNCWORD_XXCH {
        Err(CoreError::Invalid("xxch sync"))
    } else if lim < 44 {
        Err(CoreError::Bitstream)
    } else if nbits <= 6 {
        Err(CoreError::Invalid("xxch speaker mask width"))
    } else if lim < 46 {
        Err(CoreError::Bitstream)
    } else if field(d, 44, 2) != 0 {
        Err(CoreError::Unsupported("xxch channel sets"))
    } else if lim < 60 + nbits {
        Err(CoreError::Bitstream)
    } else if named_like(core, mask) != mask {
        Err(CoreError::Invalid("xxch core speaker mask"))
    } else if 8 * size > lim {
        Err(CoreError::Invalid("xxch frame header size"))
    } else if size + field(d, 46, 14) + 1 > d.len() {
        Err(CoreError::Invalid("xxch channel set size"))
    } else {
        Ok((size as usize, nbits as usize, mask))
    }
}

/// Read the head; the set follows where the cursor is left.
fn parse_xxch_frame_head(gb: &mut BitReader<'_>, data: &[u8], core: u32) -> (r: Result<
    (usize, usize, u32),
    CoreError,
>)
    requires
        old(gb).wf(),
        old(gb).data() == data@,
        old(gb).limit() == 8 * data@.len(),
        old(gb).pos() == 0,
    ensures
        final(gb).wf(),
        final(gb).same_source(old(gb)),
        r == xxch_frame_head(data@, core),
        r matches Ok(v) ==> final(gb).pos() == 8 * v.0 && 7 <= v.1 <= 32,
{
    if rb(gb, 32)? != DCA_SYNCWORD_XXCH {
        return Err(CoreError::Invalid("xxch sync"));
    }
    let size: usize = rb(gb, 6)? as usize + 1;
    rb1(gb)?;
    let nbits: usize = rb(gb, 5)? as usize + 1;
    if nbits <= 6 {
        return Err(CoreError::Invalid("xxch speaker mask width"));
    }
    if rb(gb, 2)? != 0 {
        return Err(CoreError::Unsupported("xxch channel sets"));
    }
    let frame_size: usize = rb(gb, 14)? as usize + 1;
    let mask: u32 = rb(gb, nbits)?;
    if name_like(core, mask) != mask {
        return Err(CoreError::Invalid("xxch core speaker mask"));
    }
    if !gb.seek(size * 8) {
        return Err(CoreError::Invalid("xxch frame header size"));
    }
    if size + frame_size > data.len() {
        return Err(CoreError::Invalid("xxch channel set size"));
    }
    Ok((size, nbits, mask))
}

/// The decoder with the primary set alone.
pub open spec fn core_alone(m: CoreModel) -> CoreModel {
    CoreModel {
        nchannels: m.nchannels_core,
        extension_base: m.nchannels_core,
        xxch: None,
        ..m
    }
}

/// The decoder after an XXCH frame; without one it falls back to the primary
/// set.
pub open spec fn xxch_decoded(m: CoreModel, t: CoreTables, d: Seq<u8>) -> (
    CoreModel,
    Result<(), CoreError>,
) {
    match xxch_frame_head(d, core_mask(m.audio_mode, m.lfe_present)) {
        Err(e) => (core_alone(m), Err(e)),
        Ok((size, nbits, mask)) => match xxch_coding(
            d,
            8 * d.len() as int,
            8 * size,
            t,
            m.nchannels_core,
            nbits as int,
            mask,
        ) {
            Err(e) => (core_alone(m), Err(e)),
            Ok(((head, set), q)) => {
                let base = m.nchannels_core;
                let coded = CoreModel {
                    nsubbands: counted(m.nsubbands, base, set.nsubbands),
                    ..m
                };
                match frame_data(
                    set_model(coded, t, d, set, base, head.nchannels as int, false),
                    coded.audio,
                    q,
                    m.layout.len() as int,
                ) {
                    (audio, Err(e)) => (core_alone(CoreModel { audio, ..coded }), Err(e)),
                    (audio, Ok(_)) => (
                        CoreModel {
                            audio,
                            nchannels: base + head.nchannels,
                            extension_base: base + head.nchannels,
                            xxch: Some(
                                XxchModel {
                                    mask_nbits: nbits,
                                    core_mask: mask,
                                    spkr_mask: head.spkr_mask,
                                    downmix: head.downmix,
                                },
                            ),
                            ..coded
                        },
                        Ok(()),
                    ),
                }
            },
        },
    }
}

/// The decoder after a bare set of `n` channels, and the bytes that the set
/// took; without one its channels are silent and gone.
pub open spec fn extension_decoded(m: CoreModel, t: CoreTables, d: Seq<u8>, n: int) -> (
    CoreModel,
    Result<usize, CoreError>,
) {
    let base = m.nchannels;
    if n == 0 || base + n > 12 {
        (m, Err(CoreError::Unsupported("extension set channel count")))
    } else {
        match bare_coding(d, 8 * d.len() as int, 0, t, base, n) {
            Err(e) => (extension_dropped(m, n), Err(e)),
            Ok((set, q)) => {
                let coded = CoreModel {
                    nsubbands: counted(m.nsubbands, base, set.nsubbands),
                    ..m
                };
                match frame_data(
                    set_model(coded, t, d, set, base, n, false),
                    coded.audio,
                    q,
                    m.layout.len() as int,
                ) {
                    (audio, Err(e)) => (extension_dropped(CoreModel { audio, ..coded }, n), Err(e)),
                    (audio, Ok((_, end))) => (
                        CoreModel { audio, nchannels: base + n, extension_base: base, ..coded },
                        Ok(((end + 7) / 8) as usize),
                    ),
                }
            },
        }
    }
}

pub open spec fn extension_dropped(m: CoreModel, n: int) -> CoreModel {
    CoreModel {
        extension_base: m.nchannels,
        audio: Audio {
            samples: silenced(m.audio.samples, 32 * m.nchannels, 32 * (m.nchannels + n)),
            ..m.audio
        },
        ..m
    }
}

impl CoreDecoder {
    /// Decode an XXCH frame: channels beyond those of the core access unit that
    /// was decoded before it.
    pub fn decode_xxch(&mut self, t: &CoreTables, data: &[u8]) -> (r: Result<(), CoreError>)
        requires
            old(self).inv(),
            old(self)@.ready(),
            t.wf(),
            8 * data@.len() <= usize::MAX,
        ensures
            (final(self)@, r) == xxch_decoded(old(self)@, *t, data@),
            final(self).inv(),
            final(self)@.ready(),
    {
        let r: Result<(), CoreError> = self.parse_xxch_frame(t, data);
        if r.is_err() {
            self.nchannels = self.nchannels_core;
            self.extension_base = self.nchannels_core;
            self.xxch = None;
        }
        r
    }

    fn parse_xxch_frame(&mut self, t: &CoreTables, data: &[u8]) -> (r: Result<(), CoreError>)
        requires
            old(self).inv(),
            old(self)@.ready(),
            t.wf(),
            8 * data@.len() <= usize::MAX,
        ensures
            final(self).inv(),
            final(self)@.ready(),
            r is Ok ==> (final(self)@, r) == xxch_decoded(old(self)@, *t, data@),
            r is Err ==> (core_alone(final(self)@), r) == xxch_decoded(old(self)@, *t, data@),
    {
        let mut gb: BitReader<'_> = BitReader::new(data);
        let (size, nbits, mask): (usize, usize, u32) = parse_xxch_frame_head(
            &mut gb,
            data,
            self.core_ch_mask(),
        )?;
        let base: usize = self.nchannels_core;
        let (head, set): (XxchHead, SetCoding) = parse_xxch_coding(&mut gb, t, base, nbits, mask)?;
        set_counts(&mut self.nsubbands, base, &set.nsubbands);
        let nsubframes: usize = self.layout.len();
        self.decode_set(&mut gb, t, &set, base, head.nchannels, nsubframes, false)?;
        self.nchannels = base + head.nchannels;
        self.extension_base = base + head.nchannels;
        self.xxch = Some(
            XxchSet {
                mask_nbits: nbits,
                core_mask: mask,
                spkr_mask: head.spkr_mask,
                downmix: head.downmix,
            },
        );
        Ok(())
    }

    /// Decode a bare set of `nchannels` channels, appended to the sets of this
    /// frame. Gives the bytes up to the end of the set's last sync word.
    pub fn decode_extension_set(&mut self, t: &CoreTables, data: &[u8], nchannels: usize) -> (r: Result<
        usize,
        CoreError,
    >)
        requires
            old(self).inv(),
            old(self)@.ready(),
            t.wf(),
            8 * data@.len() <= usize::MAX,
        ensures
            (final(self)@, r) == extension_decoded(old(self)@, *t, data@, nchannels as int),
            final(self).inv(),
            final(self)@.ready(),
            r matches Ok(bytes) ==> bytes <= data@.len(),
    {
        let base: usize = self.nchannels;
        if nchannels == 0 || nchannels > 12 - base {
            return Err(CoreError::Unsupported("extension set channel count"));
        }
        match self.parse_extension(t, data, nchannels) {
            Ok(end) => {
                self.nchannels = base + nchannels;
                self.extension_base = base;
                Ok(end)
            },
            Err(e) => {
                self.extension_base = base;
                zero_rows(&mut self.samples, 32 * base, 32 * (base + nchannels));
                proof {
                    assert forall|r: int| 0 <= r < 384 implies (#[trigger] self.samples@[r])@.len() == 4
                        + self.npcmblocks by {
                        assert(rows(self.samples@)[r] == self.samples@[r]@);
                    }
                    lemma_ready(*self);
                }
                Err(e)
            },
        }
    }

    fn parse_extension(&mut self, t: &CoreTables, data: &[u8], n: usize) -> (r: Result<usize, CoreError>)
        requires
            old(self).inv(),
            old(self)@.ready(),
            t.wf(),
            8 * data@.len() <= usize::MAX,
            0 < n,
            old(self)@.nchannels + n <= 12,
        ensures
            final(self).inv(),
            final(self)@.ready(),
            final(self)@.nchannels == old(self)@.nchannels,
            r matches Ok(bytes) ==> bytes <= data@.len(),
            match r {
                Ok(end) => extension_decoded(old(self)@, *t, data@, n as int) == (
                    CoreModel {
                        nchannels: old(self)@.nchannels + n,
                        extension_base: old(self)@.nchannels,
                        ..final(self)@
                    },
                    Ok::<usize, CoreError>(end),
                ),
                Err(e) => extension_decoded(old(self)@, *t, data@, n as int) == (
                    extension_dropped(final(self)@, n as int),
                    Err::<usize, CoreError>(e),
                ),
            },
    {
        let mut gb: BitReader<'_> = BitReader::new(data);
        let base: usize = self.nchannels;
        let set: SetCoding = parse_bare_coding(&mut gb, data, t, base, n)?;
        set_counts(&mut self.nsubbands, base, &set.nsubbands);
        let nsubframes: usize = self.layout.len();
        proof {
            reveal(bare_coding);
            lemma_frame_end(
                set_model(self@, *t, data@, set@, base as int, n as int, false),
                self@.audio,
                gb.pos(),
                nsubframes as int,
            );
        }
        self.decode_set(&mut gb, t, &set, base, n, nsubframes, false)?;
        let end: usize = gb.position();
        Ok(if end % 8 == 0 { end / 8 } else { end / 8 + 1 })
    }

    /// Speakers of the primary set, with the low-frequency one.
    pub fn core_ch_mask(&self) -> (r: u32)
        ensures
            r == core_mask(self@.audio_mode, self@.lfe_present),
    {
        let mask: u32 = audio_mode_ch_mask(self.audio_mode);
        if self.lfe_present != 0 {
            mask | 0x20
        } else {
            mask
        }
    }
}

/// Bit number `index` of those set in `mask` from bit `from` to bit `to`.
pub open spec fn nth_bit(mask: u32, from: int, to: int, index: int) -> Option<usize>
    decreases to - from,
{
    if from >= to {
        None
    } else if !has_bit(mask, from) {
        nth_bit(mask, from + 1, to, index)
    } else if index == 0 {
        Some(from as usize)
    } else {
        nth_bit(mask, from + 1, to, index - 1)
    }
}

/// The speaker that channel `ch` plays through: a primary channel's by the
/// arrangement, an XXCH channel's by the set's mask; a bare set's has none.
pub open spec fn channel_speaker(m: CoreModel, ch: int) -> Option<usize> {
    if ch < m.nchannels_core {
        mode_speaker(m.audio_mode, ch)
    } else if ch >= m.extension_base {
        None
    } else {
        match m.xxch {
            None => None,
            Some(x) => nth_bit(x.spkr_mask, 6, x.mask_nbits as int, ch - m.nchannels_core),
        }
    }
}

/// The slot that a speaker of the XXCH masks plays from: the core's surrounds
/// keep theirs when the set calls them side surrounds.
pub open spec fn slot_of(mode: AudioMode, spkr: usize) -> usize {
    if spkr == DCA_SPEAKER_LSS && mode_mask(mode) & 0x08 != 0 {
        DCA_SPEAKER_LS
    } else if spkr == DCA_SPEAKER_RSS && mode_mask(mode) & 0x10 != 0 {
        DCA_SPEAKER_RS
    } else {
        spkr
    }
}

/// Speakers of the output.
pub open spec fn output_mask(m: CoreModel) -> u32 {
    let mask = core_mask(m.audio_mode, m.lfe_present);
    match m.xxch {
        Some(x) => mask | x.spkr_mask,
        None => mask,
    }
}

/// Speakers of the output, under the names that the frame gives them.
pub open spec fn named_mask(m: CoreModel) -> u32 {
    let mask = core_mask(m.audio_mode, m.lfe_present);
    match m.xxch {
        Some(x) => named_like(mask, x.core_mask) | x.spkr_mask,
        None => mask,
    }
}

/// The first 8 samples replaced by those from `n` on.
pub open spec fn shifted_lfe(v: Seq<i32>, n: int) -> Seq<i32> {
    Seq::new(v.len(), |i: int| if i < 8 { v[n + i] } else { v[i] })
}

fn shift_history(v: &mut Vec<i32>, n: usize)
    requires
        n + 8 <= old(v)@.len(),
    ensures
        final(v)@ == shifted_lfe(old(v)@, n as int),
{
    let total: usize = v.len();
    let mut i: usize = 0;
    while i < 8
        invariant
            i <= 8,
            total == v@.len(),
            total == old(v)@.len(),
            n + 8 <= total,
            forall|k: int| 0 <= k < i ==> v@[k] == old(v)@[n + k],
            forall|k: int| i <= k < total ==> v@[k] == old(v)@[k],
        decreases 8 - i,
    {
        let x: i32 = v[n + i];
        v.set(i, x);
        i = i + 1;
    }
    assert(v@ =~= shifted_lfe(old(v)@, n as int));
}

/// Samples times a gain of 16 fraction bits.
pub open spec fn amplified(row: Seq<i32>, gain: int) -> Seq<i32> {
    Seq::new(row.len(), |i: int| scaled(row[i] as int, gain, 16) as i32)
}

/// The slots of the first `k` speakers that the XXCH set's core mask names,
/// with the set's level taken back.
pub open spec fn relevelled(v: Seq<Option<Seq<i32>>>, mode: AudioMode, x: XxchModel, k: int) -> Seq<
    Option<Seq<i32>>,
>
    decreases k,
{
    if k <= 0 {
        v
    } else {
        let w = relevelled(v, mode, x, k - 1);
        let slot = slot_of(mode, (k - 1) as usize) as int;
        if !has_bit(x.core_mask, k - 1) {
            w
        } else {
            match w[slot] {
                None => w,
                Some(row) => w.update(slot, Some(amplified(row, x.downmix.scale_inv as int))),
            }
        }
    }
}

/// `dst` without `c` times `src`, as far as both go.
pub open spec fn less(dst: Seq<i32>, src: Seq<i32>, c: int) -> Seq<i32> {
    Seq::new(
        dst.len(),
        |i: int|
            if i < src.len() {
                wrap32(dst[i] - scaled(src[i] as int, c, 15)) as i32
            } else {
                dst[i]
            },
    )
}

/// Slot `dst` without `c` times slot `src`, if both play.
pub open spec fn unmixed(v: Seq<Option<Seq<i32>>>, src: int, dst: int, c: int) -> Seq<
    Option<Seq<i32>>,
> {
    if c == 0 || dst == src {
        v
    } else {
        match (v[src], v[dst]) {
            (Some(s), Some(d)) => v.update(dst, Some(less(d, s, c))),
            _ => v,
        }
    }
}

/// Slots, and how many of the coefficients have been used.
pub ghost struct Unmix {
    pub slots: Seq<Option<Seq<i32>>>,
    pub used: int,
}

/// The first `k` speakers freed from the channel that plays from slot `src`.
pub open spec fn unmix_speakers(
    u: Unmix,
    mode: AudioMode,
    x: XxchModel,
    mask: u32,
    src: int,
    k: int,
) -> Unmix
    decreases k,
{
    if k <= 0 {
        u
    } else {
        let w = unmix_speakers(u, mode, x, mask, src, k - 1);
        if !has_bit(mask, k - 1) || w.used >= x.downmix.coeff.len() {
            w
        } else {
            let c = scaled(x.downmix.coeff[w.used] as int, x.downmix.scale_inv as int, 16);
            Unmix {
                slots: unmixed(w.slots, src, slot_of(mode, (k - 1) as usize) as int, c),
                used: w.used + 1,
            }
        }
    }
}

/// The core freed from the first `k` channels of the set.
pub open spec fn unmix_channels(u: Unmix, m: CoreModel, x: XxchModel, k: int) -> Unmix
    decreases k,
{
    if k <= 0 {
        u
    } else {
        let w = unmix_channels(u, m, x, k - 1);
        match channel_speaker(m, m.nchannels_core + k - 1) {
            None => w,
            Some(src) => if k <= x.downmix.masks.len() {
                unmix_speakers(
                    w,
                    m.audio_mode,
                    x,
                    x.downmix.masks[k - 1],
                    src as int,
                    x.mask_nbits as int,
                )
            } else {
                w
            },
        }
    }
}

/// The output without the downmix that an XXCH set's encoder folded into it.
pub open spec fn undone(m: CoreModel, v: Seq<Option<Seq<i32>>>) -> Seq<Option<Seq<i32>>> {
    match m.xxch {
        None => v,
        Some(x) => if !x.downmix.embedded {
            v
        } else {
            unmix_channels(
                Unmix { slots: relevelled(v, m.audio_mode, x, x.mask_nbits as int), used: 0 },
                m,
                x,
                m.extension_base - m.nchannels_core,
            ).slots
        },
    }
}

fn amplify(row: &mut Vec<i32>, gain: i32)
    ensures
        final(row)@ == amplified(old(row)@, gain as int),
{
    let n: usize = row.len();
    let mut i: usize = 0;
    while i < n
        invariant
            i <= n,
            n == row@.len(),
            n == old(row)@.len(),
            forall|k: int| 0 <= k < i ==> row@[k] == scaled(old(row)@[k] as int, gain as int, 16),
            forall|k: int| i <= k < n ==> row@[k] == old(row)@[k],
        decreases n - i,
    {
        let x: i32 = mul_norm(row[i], gain, 16);
        row.set(i, x);
        i = i + 1;
    }
    assert(row@ =~= amplified(old(row)@, gain as int));
}

fn subtract(dst: &mut Vec<i32>, src: &Vec<i32>, c: i32)
    ensures
        final(dst)@ == less(old(dst)@, src@, c as int),
{
    let n: usize = dst.len();
    let mut i: usize = 0;
    while i < n && i < src.len()
        invariant
            i <= n,
            i <= src@.len(),
            n == dst@.len(),
            n == old(dst)@.len(),
            forall|k: int|
                0 <= k < i ==> dst@[k] == wrap32(
                    old(dst)@[k] - scaled(src@[k] as int, c as int, 15),
                ),
            forall|k: int| i <= k < n ==> dst@[k] == old(dst)@[k],
        decreases n - i,
    {
        let x: i32 = sub32(dst[i], mul_norm(src[i], c, 15));
        dst.set(i, x);
        i = i + 1;
    }
    assert(dst@ =~= less(old(dst)@, src@, c as int));
}

/// Amplify slot `at`, if it plays.
fn amplify_slot(slots: &mut Vec<Option<Vec<i32>>>, at: usize, gain: i32)
    requires
        at < old(slots)@.len(),
    ensures
        final(slots)@.len() == old(slots)@.len(),
        slot_views(final(slots)@) == match slot_views(old(slots)@)[at as int] {
            None => slot_views(old(slots)@),
            Some(row) => slot_views(old(slots)@).update(
                at as int,
                Some(amplified(row, gain as int)),
            ),
        },
{
    let mut held: Option<Vec<i32>> = None;
    std::mem::swap(&mut held, &mut slots[at]);
    if let Some(mut row) = held {
        amplify(&mut row, gain);
        slots.set(at, Some(row));
    }
    assert(slot_views(slots@) =~= match slot_views(old(slots)@)[at as int] {
        None => slot_views(old(slots)@),
        Some(row) => slot_views(old(slots)@).update(at as int, Some(amplified(row, gain as int))),
    });
}

/// Take `c` times slot `src` from slot `dst`, if both play.
fn unmix_slot(slots: &mut Vec<Option<Vec<i32>>>, src: usize, dst: usize, c: i32)
    requires
        src < old(slots)@.len(),
        dst < old(slots)@.len(),
    ensures
        final(slots)@.len() == old(slots)@.len(),
        slot_views(final(slots)@) == unmixed(
            slot_views(old(slots)@),
            src as int,
            dst as int,
            c as int,
        ),
{
    if c == 0 || dst == src {
        return;
    }
    let mut held: Option<Vec<i32>> = None;
    std::mem::swap(&mut held, &mut slots[dst]);
    if let Some(mut row) = held {
        if let Some(from) = &slots[src] {
            subtract(&mut row, from, c);
        }
        slots.set(dst, Some(row));
    }
    assert(slot_views(slots@) =~= unmixed(
        slot_views(old(slots)@),
        src as int,
        dst as int,
        c as int,
    ));
}

impl CoreDecoder {
    /// The speaker that channel `ch` plays through.
    pub fn speaker_for(&self, ch: usize) -> (r: Option<usize>)
        requires
            self.inv(),
        ensures
            r == channel_speaker(self@, ch as int),
            r matches Some(v) ==> v < 32,
    {
        if ch < self.nchannels_core {
            return prm_ch_to_spkr(self.audio_mode, ch);
        }
        if ch >= self.extension_base {
            return None;
        }
        match &self.xxch {
            None => None,
            Some(x) => {
                let mut index: usize = ch - self.nchannels_core;
                let mut spkr: usize = 6;
                let ghost want = nth_bit(x.spkr_mask, 6, x.mask_nbits as int, index as int);
                while spkr < x.mask_nbits
                    invariant
                        x.mask_nbits <= 32,
                        want == channel_speaker(self@, ch as int),
                        want == nth_bit(
                            x.spkr_mask,
                            spkr as int,
                            x.mask_nbits as int,
                            index as int,
                        ),
                    decreases x.mask_nbits - spkr,
                {
                    if test_bit(x.spkr_mask, spkr as u32) {
                        if index == 0 {
                            return Some(spkr);
                        }
                        index = index - 1;
                    }
                    spkr = spkr + 1;
                }
                None
            },
        }
    }

    fn output_slot(&self, spkr: usize) -> (r: usize)
        requires
            spkr < 32,
        ensures
            r == slot_of(self@.audio_mode, spkr),
            r < 32,
    {
        let mask: u32 = audio_mode_ch_mask(self.audio_mode);
        if spkr == DCA_SPEAKER_LSS && mask & 0x08 != 0 {
            DCA_SPEAKER_LS
        } else if spkr == DCA_SPEAKER_RSS && mask & 0x10 != 0 {
            DCA_SPEAKER_RS
        } else {
            spkr
        }
    }

    /// Speakers of the output.
    pub fn ch_mask(&self) -> (r: u32)
        ensures
            r == output_mask(self@),
    {
        let mask: u32 = self.core_ch_mask();
        match &self.xxch {
            Some(x) => mask | x.spkr_mask,
            None => mask,
        }
    }

    /// Speakers of the output, under the names that the frame gives them.
    pub fn coded_mask(&self) -> (r: u32)
        ensures
            r == named_mask(self@),
    {
        let mask: u32 = self.core_ch_mask();
        match &self.xxch {
            Some(x) => name_like(mask, x.core_mask) | x.spkr_mask,
            None => mask,
        }
    }

    /// Take back the downmix that an XXCH set's encoder folded into the core,
    /// after synthesis.
    pub fn undo_xxch_dmix(&self, samples: &mut Vec<Option<Vec<i32>>>)
        requires
            self.inv(),
            old(samples)@.len() == 32,
        ensures
            final(samples)@.len() == 32,
            slot_views(final(samples)@) == undone(self@, slot_views(old(samples)@)),
    {
        match &self.xxch {
            None => {},
            Some(x) => {
                if x.downmix.embedded {
                    self.relevel(x, samples);
                    self.unmix(x, samples);
                }
            },
        }
    }

    fn relevel(&self, x: &XxchSet, samples: &mut Vec<Option<Vec<i32>>>)
        requires
            self.inv(),
            x.mask_nbits <= 32,
            old(samples)@.len() == 32,
        ensures
            final(samples)@.len() == 32,
            slot_views(final(samples)@) == relevelled(
                slot_views(old(samples)@),
                self@.audio_mode,
                x@,
                x.mask_nbits as int,
            ),
    {
        let mut k: usize = 0;
        while k < x.mask_nbits
            invariant
                self.inv(),
                k <= x.mask_nbits <= 32,
                samples@.len() == 32,
                slot_views(samples@) == relevelled(
                    slot_views(old(samples)@),
                    self@.audio_mode,
                    x@,
                    k as int,
                ),
            decreases x.mask_nbits - k,
        {
            if test_bit(x.core_mask, k as u32) {
                amplify_slot(samples, self.output_slot(k), x.downmix.scale_inv);
            }
            k = k + 1;
        }
    }

    fn unmix(&self, x: &XxchSet, samples: &mut Vec<Option<Vec<i32>>>)
        requires
            self.inv(),
            self@.xxch == Some(x@),
            x.downmix.embedded,
            old(samples)@.len() == 32,
        ensures
            final(samples)@.len() == 32,
            slot_views(final(samples)@) == unmix_channels(
                Unmix { slots: slot_views(old(samples)@), used: 0 },
                self@,
                x@,
                self@.extension_base - self@.nchannels_core,
            ).slots,
    {
        let ghost first = Unmix { slots: slot_views(samples@), used: 0 };
        let n: usize = self.extension_base - self.nchannels_core;
        let mut used: usize = 0;
        let mut k: usize = 0;
        while k < n
            invariant
                self.inv(),
                self@.xxch == Some(x@),
                x.downmix.embedded,
                n == self@.extension_base - self@.nchannels_core,
                k <= n,
                samples@.len() == 32,
                used <= x.downmix.coeff@.len(),
                unmix_channels(first, self@, x@, k as int) == (Unmix {
                    slots: slot_views(samples@),
                    used: used as int,
                }),
            decreases n - k,
        {
            if let Some(src) = self.speaker_for(self.nchannels_core + k) {
                if k < x.downmix.masks.len() {
                    used = self.unmix_channel(x, samples, used, x.downmix.masks[k], src);
                }
            }
            k = k + 1;
        }
    }

    fn unmix_channel(
        &self,
        x: &XxchSet,
        samples: &mut Vec<Option<Vec<i32>>>,
        used: usize,
        mask: u32,
        src: usize,
    ) -> (r: usize)
        requires
            self.inv(),
            x.mask_nbits <= 32,
            used <= x.downmix.coeff@.len(),
            src < 32,
            old(samples)@.len() == 32,
        ensures
            final(samples)@.len() == 32,
            r <= x.downmix.coeff@.len(),
            (Unmix { slots: slot_views(final(samples)@), used: r as int }) == unmix_speakers(
                Unmix { slots: slot_views(old(samples)@), used: used as int },
                self@.audio_mode,
                x@,
                mask,
                src as int,
                x.mask_nbits as int,
            ),
    {
        let ghost first = Unmix { slots: slot_views(samples@), used: used as int };
        let total: usize = x.downmix.coeff.len();
        let mut at: usize = used;
        let mut k: usize = 0;
        while k < x.mask_nbits
            invariant
                self.inv(),
                k <= x.mask_nbits <= 32,
                total == x.downmix.coeff@.len(),
                at <= total,
                src < 32,
                samples@.len() == 32,
                unmix_speakers(first, self@.audio_mode, x@, mask, src as int, k as int) == (Unmix {
                    slots: slot_views(samples@),
                    used: at as int,
                }),
            decreases x.mask_nbits - k,
        {
            if test_bit(mask, k as u32) && at < total {
                let c: i32 = mul_norm(x.downmix.coeff[at], x.downmix.scale_inv, 16);
                unmix_slot(samples, src, self.output_slot(k), c);
                at = at + 1;
            }
            k = k + 1;
        }
        at
    }

    /// Channels of the bare set of this frame.
    pub fn extension_channels(&self) -> (r: std::ops::Range<usize>)
        ensures
            r.start == self@.extension_base,
            r.end == self@.nchannels,
    {
        self.extension_base..self.nchannels
    }

    /// Sample `block` of band `band` of channel `ch`.
    pub fn subband(&self, ch: usize, band: usize, block: usize) -> (r: i32)
        requires
            self.inv(),
            self@.ready(),
            ch < 12,
            band < 32,
            block < self@.npcm,
        ensures
            r == self@.audio.samples[32 * ch + band][4 + block],
    {
        assert(self@.audio.samples[32 * ch + band] == self.samples@[32 * ch + band]@);
        assert(self@.audio.samples[32 * ch + band].len() == 4 + self@.npcm);
        self.samples[32 * ch + band][4 + block]
    }

    /// Low-frequency samples: the history, and those of the frame.
    pub fn lfe(&self) -> (r: &Vec<i32>)
        ensures
            r@ == self@.audio.lfe,
    {
        &self.lfe_samples
    }

    /// Keep the last of `nlfesamples` low-frequency samples for the next frame.
    pub fn shift_lfe_history(&mut self, nlfesamples: usize)
        requires
            old(self).inv(),
            nlfesamples + 8 <= old(self)@.audio.lfe.len(),
        ensures
            final(self).inv(),
            final(self)@ == (CoreModel {
                audio: Audio {
                    lfe: shifted_lfe(old(self)@.audio.lfe, nlfesamples as int),
                    ..old(self)@.audio
                },
                ..old(self)@
            }),
    {
        shift_history(&mut self.lfe_samples, nlfesamples);
    }

    pub fn filter_perfect(&self) -> (r: bool)
        ensures
            r == self@.filter_perfect,
    {
        self.filter_perfect
    }

    pub fn nchannels(&self) -> (r: usize)
        ensures
            r == self@.nchannels,
    {
        self.nchannels
    }

    pub fn npcmblocks(&self) -> (r: usize)
        ensures
            r == self@.npcm,
    {
        self.npcmblocks
    }

    pub fn sample_rate(&self) -> (r: u32)
        ensures
            r == self@.sample_rate,
    {
        self.sample_rate
    }

    pub fn lfe_present(&self) -> (r: u8)
        ensures
            r == self@.lfe_present,
    {
        self.lfe_present
    }
}

/// Rows of the right length make the buffers.
proof fn lemma_ready(c: CoreDecoder)
    requires
        shape(c.samples@, c.npcmblocks as int),
        c.lfe_samples@.len() == 8 + c.npcmblocks / 2,
    ensures
        buffers(c@.audio, c@.npcm),
        even(c.samples@),
        c@.audio.samples.len() == 384,
{
    assert forall|r: int| 0 <= r < 384 implies (#[trigger] c@.audio.samples[r]).len() == 4 + c@.npcm by {
        assert(c.samples@[r]@.len() == 4 + c.npcmblocks);
    }
}

/// The primary set's channels and the low-frequency samples are what they
/// were.
pub open spec fn core_kept(m: CoreModel, after: CoreModel) -> bool {
    &&& same_below(m.audio.samples, after.audio.samples, 32 * m.nchannels_core)
    &&& after.audio.lfe == m.audio.lfe
    &&& after.nchannels_core == m.nchannels_core
    &&& after.npcm == m.npcm
    &&& after.sample_rate == m.sample_rate
    &&& after.lfe_present == m.lfe_present
    &&& after.audio_mode == m.audio_mode
    &&& after.filter_perfect == m.filter_perfect
}

/// An XXCH set adds channels to the primary set and changes nothing of it;
/// one that cannot be decoded leaves the primary set alone.
pub proof fn xxch_sets_keep_the_core(m: CoreModel, t: CoreTables, d: Seq<u8>)
    ensures
        core_kept(m, xxch_decoded(m, t, d).0),
        xxch_decoded(m, t, d).1 is Err ==> {
            let after = xxch_decoded(m, t, d).0;
            &&& after.nchannels == m.nchannels_core
            &&& after.extension_base == m.nchannels_core
            &&& after.xxch is None
        },
        xxch_decoded(m, t, d).1 is Ok ==> {
            let after = xxch_decoded(m, t, d).0;
            &&& m.nchannels_core < after.nchannels <= m.nchannels_core + 2
            &&& after.extension_base == after.nchannels
        },
{
    reveal(xxch_coding);
    if let Ok((size, nbits, mask)) = xxch_frame_head(d, core_mask(m.audio_mode, m.lfe_present)) {
        if let Ok(((head, set), q)) = xxch_coding(
            d,
            8 * d.len() as int,
            8 * size,
            t,
            m.nchannels_core,
            nbits as int,
            mask,
        ) {
            lemma_field_range(d, 8 * size + 7, 3);
            let base = m.nchannels_core;
            let coded = CoreModel { nsubbands: counted(m.nsubbands, base, set.nsubbands), ..m };
            lemma_frame_below(
                set_model(coded, t, d, set, base, head.nchannels as int, false),
                coded.audio,
                q,
                m.layout.len() as int,
            );
        }
    }
}

/// A bare set adds channels behind those that are there and changes nothing of
/// them, nor of what an XXCH set said; one that cannot be decoded adds none.
pub proof fn bare_sets_keep_all_channels(m: CoreModel, t: CoreTables, d: Seq<u8>, n: int)
    requires
        0 <= m.nchannels_core <= m.nchannels,
        n >= 0,
    ensures
        core_kept(m, extension_decoded(m, t, d, n).0),
        same_below(
            m.audio.samples,
            extension_decoded(m, t, d, n).0.audio.samples,
            32 * m.nchannels,
        ),
        extension_decoded(m, t, d, n).0.xxch == m.xxch,
        extension_decoded(m, t, d, n).0.nchannels == if extension_decoded(m, t, d, n).1 is Ok {
            m.nchannels + n
        } else {
            m.nchannels
        },
        extension_decoded(m, t, d, n).1 is Ok ==> extension_decoded(m, t, d, n).0.extension_base
            == m.nchannels,
{
    let base = m.nchannels;
    if n > 0 && base + n <= 12 {
        if let Ok((set, q)) = bare_coding(d, 8 * d.len() as int, 0, t, base, n) {
            let coded = CoreModel { nsubbands: counted(m.nsubbands, base, set.nsubbands), ..m };
            lemma_frame_below(
                set_model(coded, t, d, set, base, n, false),
                coded.audio,
                q,
                m.layout.len() as int,
            );
        }
    }
}

/// Every frame starts from the same samples on both.
pub open spec fn begin_alike(a: CoreModel, b: CoreModel) -> bool {
    forall|npcm: int, history: bool|
        npcm >= 0 ==> #[trigger] allocated(a.audio, npcm, history) == allocated(
            b.audio,
            npcm,
            history,
        )
}

/// The bands of a decoder have rows of one length.
pub proof fn lemma_even_bands(dec: CoreDecoder)
    requires
        dec.inv(),
    ensures
        dec@.wf(),
        dec@.even_bands(),
{
    assert forall|r: int| 0 <= r < dec@.audio.samples.len() implies (#[trigger] dec@.audio.samples[r]).len()
        == dec@.audio.samples[0].len() by {
        assert(dec@.audio.samples[r] == dec.samples@[r]@);
        assert(dec@.audio.samples[0] == dec.samples@[0]@);
    }
}

/// A decoder that was reset starts its next frame from silence, whatever it
/// had decoded: as a new one does.
pub proof fn resets_silence_the_history(m: CoreModel)
    requires
        m.wf(),
        m.even_bands(),
    ensures
        begin_alike(core_reset(m), core_fresh()),
{
    assert forall|npcm: int, history: bool| npcm >= 0 implies #[trigger] allocated(
        core_reset(m).audio,
        npcm,
        history,
    ) == allocated(core_fresh().audio, npcm, history) by {
        let a = allocated(core_reset(m).audio, npcm, history);
        let b = allocated(core_fresh().audio, npcm, history);
        assert forall|r: int| 0 <= r < 384 implies a.samples[r] == #[trigger] b.samples[r] by {
            assert(a.samples[r] =~= b.samples[r]);
        }
        assert(a.samples =~= b.samples);
        assert(a.lfe =~= b.lfe);
    }
}

/// Decoders that begin alike decode alike: an access unit gives the same
/// result on both, leaves the same samples behind, and where it is decoded
/// the same decoder.
pub proof fn alike_decoders_decode_alike(
    a: CoreModel,
    b: CoreModel,
    t: CoreTables,
    info: FrameInfo,
    d: Seq<u8>,
)
    requires
        begin_alike(a, b),
    ensures
        core_decoded(a, t, info, d).1 == core_decoded(b, t, info, d).1,
        core_decoded(a, t, info, d).0.audio == core_decoded(b, t, info, d).0.audio,
        core_decoded(a, t, info, d).1 is Ok ==> core_decoded(a, t, info, d).0 == core_decoded(
            b,
            t,
            info,
            d,
        ).0,
{
    assert(allocated(a.audio, info.npcmblocks as int, info.predictor_history) == allocated(
        b.audio,
        info.npcmblocks as int,
        info.predictor_history,
    ));
}

} // verus!
