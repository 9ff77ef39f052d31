//! The core alone: one access unit at a time, to PCM.

use vstd::prelude::*;
use crate::grammar::rows;
use super::core_decoder::{
    alike_decoders_decode_alike, begin_alike, core_decoded, core_fresh, core_reset,
    lemma_even_bands, resets_silence_the_history, CoreDecoder, CoreModel,
};
use super::core_header::CoreError;
use super::core_tables::CoreTables;
use super::parser::{header, mode_channels, parse_header, AudioMode, FrameInfo, ParseError};
use super::synth::{
    alike_syntheses_play_channels_alike, played, resets_silence_the_lines, sound_alike,
    synth_reset, SynthModel, SynthState, SynthTables,
};
use super::types::BedChannel;

verus! {

/// Why an access unit was not decoded.
#[derive(Debug, Clone, Copy, PartialEq, Eq)]
pub enum DecodeError {
    Header(ParseError),
    /// The data ends inside a field, or holds no code word.
    Bitstream,
    /// The named check failed.
    Invalid(&'static str),
}

/// A core error as the access unit's.
pub open spec fn decode_error(e: CoreError) -> DecodeError {
    match e {
        CoreError::Bitstream => DecodeError::Bitstream,
        CoreError::Invalid(what) => DecodeError::Invalid(what),
        CoreError::Unsupported(what) => DecodeError::Invalid(what),
    }
}

fn error_of(e: CoreError) -> (r: DecodeError)
    ensures
        r == decode_error(e),
{
    match e {
        CoreError::Bitstream => DecodeError::Bitstream,
        CoreError::Invalid(what) => DecodeError::Invalid(what),
        CoreError::Unsupported(what) => DecodeError::Invalid(what),
    }
}

/// Bed channel of each primary channel, in the order of the channels.
pub open spec fn beds(mode: AudioMode) -> Seq<BedChannel> {
    match mode {
        AudioMode::Mono => seq![BedChannel::Center],
        AudioMode::MonoDual => seq![BedChannel::FrontLeft, BedChannel::FrontRight],
        AudioMode::Stereo => seq![BedChannel::FrontLeft, BedChannel::FrontRight],
        AudioMode::StereoSumDiff => seq![BedChannel::FrontLeft, BedChannel::FrontRight],
        AudioMode::StereoTotal => seq![BedChannel::FrontLeft, BedChannel::FrontRight],
        AudioMode::ThreeF => seq![BedChannel::Center, BedChannel::FrontLeft, BedChannel::FrontRight],
        AudioMode::TwoF1R => seq![
            BedChannel::FrontLeft,
            BedChannel::FrontRight,
            BedChannel::RearCenter,
        ],
        AudioMode::ThreeF1R => seq![
            BedChannel::Center,
            BedChannel::FrontLeft,
            BedChannel::FrontRight,
            BedChannel::RearCenter,
        ],
        AudioMode::TwoF2R => seq![
            BedChannel::FrontLeft,
            BedChannel::FrontRight,
            BedChannel::SurroundLeft,
            BedChannel::SurroundRight,
        ],
        AudioMode::ThreeF2R => seq![
            BedChannel::Center,
            BedChannel::FrontLeft,
            BedChannel::FrontRight,
            BedChannel::SurroundLeft,
            BedChannel::SurroundRight,
        ],
    }
}

pub fn primary_bed_layout(mode: AudioMode) -> (r: Vec<BedChannel>)
    ensures
        r@ == beds(mode),
{
    let r: Vec<BedChannel> = match mode {
        AudioMode::Mono => vec![BedChannel::Center],
        AudioMode::MonoDual | AudioMode::Stereo | AudioMode::StereoSumDiff
        | AudioMode::StereoTotal => vec![BedChannel::FrontLeft, BedChannel::FrontRight],
        AudioMode::ThreeF => vec![BedChannel::Center, BedChannel::FrontLeft, BedChannel::FrontRight],
        AudioMode::TwoF1R => vec![
            BedChannel::FrontLeft,
            BedChannel::FrontRight,
            BedChannel::RearCenter,
        ],
        AudioMode::ThreeF1R => vec![
            BedChannel::Center,
            BedChannel::FrontLeft,
            BedChannel::FrontRight,
            BedChannel::RearCenter,
        ],
        AudioMode::TwoF2R => vec![
            BedChannel::FrontLeft,
            BedChannel::FrontRight,
            BedChannel::SurroundLeft,
            BedChannel::SurroundRight,
        ],
        AudioMode::ThreeF2R => vec![
            BedChannel::Center,
            BedChannel::FrontLeft,
            BedChannel::FrontRight,
            BedChannel::SurroundLeft,
            BedChannel::SurroundRight,
        ],
    };
    assert(r@ =~= beds(mode));
    r
}

/// Bed channels of an arrangement in the order of a WAV file: front left and
/// right, center, then the channels behind.
pub open spec fn wav_beds(mode: AudioMode) -> Seq<BedChannel> {
    match mode {
        AudioMode::ThreeF => seq![
            BedChannel::FrontLeft,
            BedChannel::FrontRight,
            BedChannel::Center,
        ],
        AudioMode::ThreeF1R => seq![
            BedChannel::FrontLeft,
            BedChannel::FrontRight,
            BedChannel::Center,
            BedChannel::RearCenter,
        ],
        AudioMode::ThreeF2R => seq![
            BedChannel::FrontLeft,
            BedChannel::FrontRight,
            BedChannel::Center,
            BedChannel::SurroundLeft,
            BedChannel::SurroundRight,
        ],
        _ => beds(mode),
    }
}

/// The canonical layout of an arrangement. The channels are decoded in the
/// order of [`primary_bed_layout`].
pub fn bed_layout(mode: AudioMode) -> (r: Vec<BedChannel>)
    ensures
        r@ == wav_beds(mode),
{
    let r: Vec<BedChannel> = match mode {
        AudioMode::ThreeF => vec![
            BedChannel::FrontLeft,
            BedChannel::FrontRight,
            BedChannel::Center,
        ],
        AudioMode::ThreeF1R => vec![
            BedChannel::FrontLeft,
            BedChannel::FrontRight,
            BedChannel::Center,
            BedChannel::RearCenter,
        ],
        AudioMode::ThreeF2R => vec![
            BedChannel::FrontLeft,
            BedChannel::FrontRight,
            BedChannel::Center,
            BedChannel::SurroundLeft,
            BedChannel::SurroundRight,
        ],
        _ => primary_bed_layout(mode),
    };
    assert(r@ =~= wav_beds(mode));
    r
}

/// The canonical layout holds the same bed channels as the decoded order.
pub proof fn layouts_hold_the_same_channels(mode: AudioMode, bed: BedChannel)
    ensures
        wav_beds(mode).len() == beds(mode).len(),
        wav_beds(mode).contains(bed) == beds(mode).contains(bed),
{
    let a = wav_beds(mode);
    let b = beds(mode);
    if mode == AudioMode::ThreeF || mode == AudioMode::ThreeF1R || mode == AudioMode::ThreeF2R {
        assert(a[0] == b[1] && a[1] == b[2] && a[2] == b[0]);
        assert(forall|i: int| 3 <= i < a.len() ==> #[trigger] a[i] == b[i]);
        if a.contains(bed) {
            let i = choose|i: int| 0 <= i < a.len() && a[i] == bed;
            assert(b[if i == 0 { 1 } else if i == 1 { 2 } else if i == 2 { 0 } else { i }] == bed);
        }
        if b.contains(bed) {
            let i = choose|i: int| 0 <= i < b.len() && b[i] == bed;
            assert(a[if i == 1 { 0 } else if i == 2 { 1 } else if i == 0 { 2 } else { i }] == bed);
        }
    }
}

/// Every primary channel has a bed channel, and no two share one.
pub proof fn beds_name_the_channels(mode: AudioMode, i: int, j: int)
    requires
        0 <= i < j < beds(mode).len(),
    ensures
        beds(mode).len() == mode_channels(mode),
        beds(mode)[i] != beds(mode)[j],
{
}

/// 24-bit PCM of one access unit.
#[derive(Debug, Clone)]
pub struct CorePcmFrame {
    pub sample_rate: u32,
    pub fullband_channel_order: Vec<BedChannel>,
    /// Channels in the order of `fullband_channel_order`.
    pub fullband_channels: Vec<Vec<i32>>,
    /// The low-frequency channel at 1/64 of the rate, behind the eight samples
    /// before it.
    pub lfe_channel: Option<Vec<i32>>,
    pub decoded: bool,
}

pub ghost struct CorePcmModel {
    pub sample_rate: u32,
    pub order: Seq<BedChannel>,
    pub channels: Seq<Seq<i32>>,
    pub lfe: Option<Seq<i32>>,
    pub decoded: bool,
}

impl View for CorePcmFrame {
    type V = CorePcmModel;

    open spec fn view(&self) -> CorePcmModel {
        CorePcmModel {
            sample_rate: self.sample_rate,
            order: self.fullband_channel_order@,
            channels: rows(self.fullband_channels@),
            lfe: match self.lfe_channel {
                Some(v) => Some(v@),
                None => None,
            },
            decoded: self.decoded,
        }
    }
}

/// Samples of a channel: of the first one, or of the low-frequency channel
/// alone at the full rate.
pub open spec fn channel_len(f: CorePcmModel) -> int {
    if f.channels.len() > 0 {
        f.channels[0].len() as int
    } else {
        match f.lfe {
            Some(v) => if v.len() <= 8 { 0 } else { 64 * (v.len() - 8) },
            None => 0,
        }
    }
}

impl CorePcmFrame {
    pub fn samples_per_channel(&self) -> (r: usize)
        requires
            self.lfe_channel matches Some(v) ==> 64 * v@.len() <= usize::MAX,
        ensures
            r == channel_len(self@),
    {
        if self.fullband_channels.len() > 0 {
            return self.fullband_channels[0].len();
        }
        match &self.lfe_channel {
            Some(v) => if v.len() <= 8 { 0 } else { 64 * (v.len() - 8) },
            None => 0,
        }
    }

    pub fn total_channels(&self) -> (r: usize)
        requires
            self.fullband_channels@.len() < usize::MAX,
        ensures
            r == self@.channels.len() + if self@.lfe is Some { 1int } else { 0int },
    {
        if self.lfe_channel.is_some() {
            self.fullband_channels.len() + 1
        } else {
            self.fullband_channels.len()
        }
    }
}

/// What an access unit gave.
#[derive(Debug, Clone)]
pub struct PcmPushResult {
    pub frames_seen: u64,
    pub info: FrameInfo,
    pub pcm: CorePcmFrame,
}

/// Decodes core access units.
pub struct PcmDecoder {
    frames_seen: u64,
    core: CoreDecoder,
    synth: SynthState,
}

pub ghost struct PcmModel {
    pub frames: u64,
    pub core: CoreModel,
    pub synth: SynthModel,
}

impl View for PcmDecoder {
    type V = PcmModel;

    closed spec fn view(&self) -> PcmModel {
        PcmModel { frames: self.frames_seen, core: self.core@, synth: self.synth@ }
    }
}

/// What an access unit gives, in a model.
pub ghost struct PushModel {
    pub info: FrameInfo,
    pub pcm: CorePcmModel,
}

/// The decoder after an access unit, and what the unit gave. Only units that
/// are decoded are counted.
pub open spec fn pushed(s: PcmModel, core: CoreTables, synth: SynthTables, d: Seq<u8>) -> (
    PcmModel,
    Result<PushModel, DecodeError>,
) {
    match header(d) {
        Err(e) => (s, Err(DecodeError::Header(e))),
        Ok(info) => match core_decoded(s.core, core, info, d) {
            (m, Err(e)) => (PcmModel { core: m, ..s }, Err(decode_error(e))),
            (m, Ok(_)) => {
                let (banks, after, channels, lfe) = played(s.synth, synth, m);
                (
                    PcmModel { frames: (s.frames + 1) as u64, core: after, synth: banks },
                    Ok(
                        PushModel {
                            info,
                            pcm: CorePcmModel {
                                sample_rate: info.sample_rate,
                                order: beds(info.audio_mode),
                                channels,
                                lfe,
                                decoded: true,
                            },
                        },
                    ),
                )
            },
        },
    }
}

impl PcmModel {
    pub open spec fn wf(&self) -> bool {
        &&& self.core.wf()
        &&& self.core.even_bands()
        &&& self.synth.wf()
    }
}

/// The decoder before its first unit.
pub open spec fn pcm_fresh() -> PcmModel {
    PcmModel {
        frames: 0,
        core: core_fresh(),
        synth: SynthModel { lines: Seq::empty(), x96: false, lfe_hist: 0 },
    }
}

/// The decoder without what earlier units left.
pub open spec fn pcm_reset(s: PcmModel) -> PcmModel {
    PcmModel { frames: 0, core: core_reset(s.core), synth: synth_reset(s.synth) }
}

impl PcmDecoder {
    /// The parts hold what the view does not show.
    pub closed spec fn sound(&self) -> bool {
        self.core.inv()
    }

    pub open spec fn inv(&self) -> bool {
        self.sound() && self@.wf()
    }

    pub fn new() -> (r: Self)
        ensures
            r.inv(),
            r@ == pcm_fresh(),
    {
        let r = PcmDecoder { frames_seen: 0, core: CoreDecoder::new(), synth: SynthState::new() };
        proof {
            lemma_even_bands(r.core);
        }
        r
    }

    /// Forget what earlier units left, and count from the start.
    pub fn reset(&mut self)
        requires
            old(self).inv(),
        ensures
            final(self).inv(),
            final(self)@ == pcm_reset(old(self)@),
    {
        self.frames_seen = 0;
        self.core.reset();
        self.synth.reset();
        proof {
            lemma_even_bands(self.core);
        }
    }

    /// Access units decoded.
    pub fn frames_seen(&self) -> (r: u64)
        ensures
            r == self@.frames,
    {
        self.frames_seen
    }

    /// Decode one access unit.
    pub fn push_access_unit(&mut self, core: &CoreTables, synth: &SynthTables, access_unit: &[u8]) -> (r:
        Result<PcmPushResult, DecodeError>)
        requires
            old(self).inv(),
            core.wf(),
            old(self)@.frames < u64::MAX,
            8 * access_unit@.len() <= usize::MAX,
        ensures
            final(self).inv(),
            ({
                let (s, want) = pushed(old(self)@, *core, *synth, access_unit@);
                &&& final(self)@ == s
                &&& match (r, want) {
                    (Ok(v), Ok(w)) => {
                        &&& v.frames_seen == s.frames
                        &&& v.info == w.info
                        &&& v.pcm@ == w.pcm
                    },
                    (Err(e), Err(f)) => e == f,
                    _ => false,
                }
            }),
    {
        let info: FrameInfo = match parse_header(access_unit) {
            Ok(info) => info,
            Err(e) => return Err(DecodeError::Header(e)),
        };
        let decoded: Result<(), CoreError> = self.core.decode_frame(core, &info, access_unit);
        proof {
            lemma_even_bands(self.core);
        }
        if let Err(e) = decoded {
            return Err(error_of(e));
        }
        let (channels, lfe): (Vec<Vec<i32>>, Option<Vec<i32>>) = self.synth.synthesize(
            synth,
            &mut self.core,
        );
        proof {
            lemma_even_bands(self.core);
        }
        self.frames_seen = self.frames_seen + 1;
        Ok(
            PcmPushResult {
                frames_seen: self.frames_seen,
                info,
                pcm: CorePcmFrame {
                    sample_rate: info.sample_rate,
                    fullband_channel_order: primary_bed_layout(info.audio_mode),
                    fullband_channels: channels,
                    lfe_channel: lfe,
                    decoded: true,
                },
            },
        )
    }
}

/// The decoder after the first `n` units.
pub open spec fn state_after(
    s: PcmModel,
    core: CoreTables,
    synth: SynthTables,
    units: Seq<Seq<u8>>,
    n: int,
) -> PcmModel
    decreases n,
{
    if n <= 0 {
        s
    } else {
        pushed(state_after(s, core, synth, units, n - 1), core, synth, units[n - 1]).0
    }
}

/// What unit `n` of a sequence gives.
pub open spec fn outcome(
    s: PcmModel,
    core: CoreTables,
    synth: SynthTables,
    units: Seq<Seq<u8>>,
    n: int,
) -> Result<PushModel, DecodeError> {
    pushed(state_after(s, core, synth, units, n), core, synth, units[n]).1
}

/// Every later unit comes out the same of both.
pub open spec fn alike(a: PcmModel, b: PcmModel) -> bool {
    &&& a.frames == b.frames
    &&& begin_alike(a.core, b.core)
    &&& sound_alike(a.synth, b.synth)
}

proof fn lemma_alike_step(
    a: PcmModel,
    b: PcmModel,
    core: CoreTables,
    synth: SynthTables,
    d: Seq<u8>,
)
    requires
        alike(a, b),
    ensures
        pushed(a, core, synth, d).1 == pushed(b, core, synth, d).1,
        alike(pushed(a, core, synth, d).0, pushed(b, core, synth, d).0),
{
    if let Ok(info) = header(d) {
        alike_decoders_decode_alike(a.core, b.core, core, info, d);
        let (m, r) = core_decoded(a.core, core, info, d);
        if r is Ok {
            alike_syntheses_play_channels_alike(a.synth, b.synth, synth, m);
        }
    }
}

proof fn lemma_alike_after(
    a: PcmModel,
    b: PcmModel,
    core: CoreTables,
    synth: SynthTables,
    units: Seq<Seq<u8>>,
    n: int,
)
    requires
        alike(a, b),
    ensures
        alike(state_after(a, core, synth, units, n), state_after(b, core, synth, units, n)),
    decreases n,
{
    if n > 0 {
        lemma_alike_after(a, b, core, synth, units, n - 1);
        lemma_alike_step(
            state_after(a, core, synth, units, n - 1),
            state_after(b, core, synth, units, n - 1),
            core,
            synth,
            units[n - 1],
        );
    }
}

/// A decoder that was reset counts from the start, and decodes every later
/// sequence of units as a new one does.
pub proof fn reset_decoders_decode_as_new_ones(
    s: PcmModel,
    core: CoreTables,
    synth: SynthTables,
    units: Seq<Seq<u8>>,
    n: int,
)
    requires
        s.wf(),
        0 <= n < units.len(),
    ensures
        state_after(pcm_reset(s), core, synth, units, n).frames == state_after(
            pcm_fresh(),
            core,
            synth,
            units,
            n,
        ).frames,
        outcome(pcm_reset(s), core, synth, units, n) == outcome(
            pcm_fresh(),
            core,
            synth,
            units,
            n,
        ),
{
    resets_silence_the_history(s.core);
    resets_silence_the_lines(s.synth);
    lemma_alike_after(pcm_reset(s), pcm_fresh(), core, synth, units, n);
    lemma_alike_step(
        state_after(pcm_reset(s), core, synth, units, n),
        state_after(pcm_fresh(), core, synth, units, n),
        core,
        synth,
        units[n],
    );
}

} // verus!
