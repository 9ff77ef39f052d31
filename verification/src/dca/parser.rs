//! The core frame header.

use vstd::prelude::*;
use vstd::slice::slice_subrange;
use crate::bits::{code_space, field, flag, BitReader};

verus! {

/// First word of a core frame.
pub const SYNCWORD_CORE_BE: u32 = 0x7FFE_8001;

/// First word of an extension substream.
pub const SYNCWORD_SUBSTREAM: u32 = 0x6458_2025;

/// Bytes [`parse_header`] needs.
pub const CORE_FRAME_HEADER_SIZE: usize = 18;

/// Sample rate of each rate code; 0 marks a code that is not allowed.
pub const SAMPLE_RATES: [u32; 16] = [
    0, 8000, 16000, 32000, 0, 0, 11025, 22050, 44100, 0, 0, 12000, 24000, 48000, 96000, 192000,
];

/// Source resolution of each code; 0 marks a reserved code.
pub const BITS_PER_SAMPLE: [u8; 8] = [16, 16, 20, 20, 0, 24, 24, 0];

/// Channel arrangement of the core.
#[derive(Debug, Clone, Copy, PartialEq, Eq, Structural)]
pub enum AudioMode {
    Mono,
    MonoDual,
    Stereo,
    StereoSumDiff,
    StereoTotal,
    ThreeF,
    TwoF1R,
    ThreeF1R,
    TwoF2R,
    ThreeF2R,
}

impl Default for AudioMode {
    fn default() -> (r: Self)
        ensures
            r == AudioMode::Mono,
    {
        AudioMode::Mono
    }
}

/// The arrangement a code stands for.
pub open spec fn mode_of(code: int) -> Option<AudioMode> {
    if code == 0 {
        Some(AudioMode::Mono)
    } else if code == 1 {
        Some(AudioMode::MonoDual)
    } else if code == 2 {
        Some(AudioMode::Stereo)
    } else if code == 3 {
        Some(AudioMode::StereoSumDiff)
    } else if code == 4 {
        Some(AudioMode::StereoTotal)
    } else if code == 5 {
        Some(AudioMode::ThreeF)
    } else if code == 6 {
        Some(AudioMode::TwoF1R)
    } else if code == 7 {
        Some(AudioMode::ThreeF1R)
    } else if code == 8 {
        Some(AudioMode::TwoF2R)
    } else if code == 9 {
        Some(AudioMode::ThreeF2R)
    } else {
        None
    }
}

/// Primary channels of an arrangement, without the low-frequency channel.
pub open spec fn mode_channels(mode: AudioMode) -> int {
    match mode {
        AudioMode::Mono => 1,
        AudioMode::MonoDual => 2,
        AudioMode::Stereo => 2,
        AudioMode::StereoSumDiff => 2,
        AudioMode::StereoTotal => 2,
        AudioMode::ThreeF => 3,
        AudioMode::TwoF1R => 3,
        AudioMode::ThreeF1R => 4,
        AudioMode::TwoF2R => 4,
        AudioMode::ThreeF2R => 5,
    }
}

impl AudioMode {
    pub fn from_code(code: u32) -> (r: Option<Self>)
        ensures
            r == mode_of(code as int),
    {
        match code {
            0 => Some(AudioMode::Mono),
            1 => Some(AudioMode::MonoDual),
            2 => Some(AudioMode::Stereo),
            3 => Some(AudioMode::StereoSumDiff),
            4 => Some(AudioMode::StereoTotal),
            5 => Some(AudioMode::ThreeF),
            6 => Some(AudioMode::TwoF1R),
            7 => Some(AudioMode::ThreeF1R),
            8 => Some(AudioMode::TwoF2R),
            9 => Some(AudioMode::ThreeF2R),
            _ => None,
        }
    }

    pub fn channel_count(self) -> (r: usize)
        ensures
            r == mode_channels(self),
            1 <= r <= 5,
    {
        match self {
            AudioMode::Mono => 1,
            AudioMode::MonoDual | AudioMode::Stereo | AudioMode::StereoSumDiff
            | AudioMode::StereoTotal => 2,
            AudioMode::ThreeF | AudioMode::TwoF1R => 3,
            AudioMode::ThreeF1R | AudioMode::TwoF2R => 4,
            AudioMode::ThreeF2R => 5,
        }
    }
}

/// Why a core frame header was refused.
#[derive(Clone, Copy, Debug, PartialEq, Eq)]
pub enum ParseError {
    InsufficientData,
    InvalidSyncword,
    DeficitSamples,
    PcmBlocks,
    FrameSize,
    AudioMode(u32),
    SampleRate,
    ReservedBit,
    LfeFlag,
    PcmRes,
}

/// What a core frame header says.
#[derive(Clone, Copy, Debug, PartialEq, Eq)]
pub struct FrameInfo {
    pub crc_present: bool,
    /// Blocks of 32 samples.
    pub npcmblocks: u32,
    /// Bytes of the core frame.
    pub frame_size: usize,
    pub audio_mode: AudioMode,
    pub sample_rate: u32,
    /// 0 without a low-frequency channel, else 1 or 2 by its decimation.
    pub lfe_present: u8,
    pub source_pcm_res: u8,
    pub es_format: bool,
    pub predictor_history: bool,
    pub ext_audio_present: bool,
    pub ext_audio_type: u8,
}

impl FrameInfo {
    /// Bounds that every parsed header keeps.
    pub open spec fn wf(&self) -> bool {
        &&& 8 <= self.npcmblocks <= 128
        &&& self.npcmblocks % 8 == 0
        &&& 96 <= self.frame_size <= 0x4000
        &&& self.lfe_present <= 2
        &&& 0 < self.sample_rate <= 192000
    }

    pub fn samples_per_channel(&self) -> (r: usize)
        requires
            32 * self.npcmblocks <= usize::MAX,
        ensures
            r == 32 * self.npcmblocks,
    {
        self.npcmblocks as usize * 32
    }

    pub fn has_lfe(&self) -> (r: bool)
        ensures
            r == (self.lfe_present != 0),
    {
        self.lfe_present != 0
    }
}

/// The header in the first 18 bytes.
pub open spec fn header_fields(d: Seq<u8>) -> Result<FrameInfo, ParseError> {
    let blocks = field(d, 39, 7) + 1;
    let size = field(d, 46, 14) + 1;
    let mode = field(d, 60, 6);
    let rate = SAMPLE_RATES@[field(d, 66, 4)];
    let lfe = field(d, 85, 2);
    let crc = flag(d, 38);
    let q = if crc { 104int } else { 88int };
    let res = field(d, q + 7, 3);
    if field(d, 0, 32) != SYNCWORD_CORE_BE {
        Err(ParseError::InvalidSyncword)
    } else if field(d, 33, 5) != 31 {
        Err(ParseError::DeficitSamples)
    } else if blocks % 8 != 0 {
        Err(ParseError::PcmBlocks)
    } else if size < 96 {
        Err(ParseError::FrameSize)
    } else if mode_of(mode) is None {
        Err(ParseError::AudioMode(mode as u32))
    } else if rate == 0 {
        Err(ParseError::SampleRate)
    } else if flag(d, 75) {
        Err(ParseError::ReservedBit)
    } else if lfe == 3 {
        Err(ParseError::LfeFlag)
    } else if BITS_PER_SAMPLE@[res] == 0 {
        Err(ParseError::PcmRes)
    } else {
        Ok(
            FrameInfo {
                crc_present: crc,
                npcmblocks: blocks as u32,
                frame_size: size as usize,
                audio_mode: mode_of(mode)->0,
                sample_rate: rate,
                lfe_present: lfe as u8,
                source_pcm_res: BITS_PER_SAMPLE@[res],
                es_format: res >= 5,
                predictor_history: flag(d, 87),
                ext_audio_present: flag(d, 83),
                ext_audio_type: field(d, 80, 3) as u8,
            },
        )
    }
}

/// The core frame header at the start of `d`.
pub open spec fn header(d: Seq<u8>) -> Result<FrameInfo, ParseError> {
    if d.len() < 18 { Err(ParseError::InsufficientData) } else { header_fields(d.subrange(0, 18)) }
}

fn need(gb: &mut BitReader<'_>, bits: usize) -> (r: u32)
    requires
        old(gb).wf(),
        1 <= bits <= 32,
        old(gb).has(bits as int),
    ensures
        final(gb).wf(),
        final(gb).same_source(old(gb)),
        r as int == field(old(gb).data(), old(gb).pos(), bits as int),
        (r as int) < code_space(bits as int),
        final(gb).pos() == old(gb).pos() + bits,
{
    match gb.read_bits(bits) {
        Some(v) => v,
        None => 0,
    }
}

fn need_flag(gb: &mut BitReader<'_>) -> (r: bool)
    requires
        old(gb).wf(),
        old(gb).has(1),
    ensures
        final(gb).wf(),
        final(gb).same_source(old(gb)),
        r == flag(old(gb).data(), old(gb).pos()),
        final(gb).pos() == old(gb).pos() + 1,
{
    need(gb, 1) != 0
}

proof fn lemma_rates(i: int)
    requires
        0 <= i < 16,
    ensures
        SAMPLE_RATES@[i] <= 192000,
{
}

/// Parse and check a core frame header.
pub fn parse_header(buf: &[u8]) -> (r: Result<FrameInfo, ParseError>)
    ensures
        r == header(buf@),
        r matches Ok(info) ==> info.wf(),
{
    if buf.len() < CORE_FRAME_HEADER_SIZE {
        return Err(ParseError::InsufficientData);
    }
    let head: &[u8] = slice_subrange(buf, 0, CORE_FRAME_HEADER_SIZE);
    let mut gb: BitReader = BitReader::new(head);
    if need(&mut gb, 32) != SYNCWORD_CORE_BE {
        return Err(ParseError::InvalidSyncword);
    }
    need_flag(&mut gb);
    if need(&mut gb, 5) != 31 {
        return Err(ParseError::DeficitSamples);
    }
    let crc_present: bool = need_flag(&mut gb);
    let npcmblocks: u32 = need(&mut gb, 7) + 1;
    if npcmblocks % 8 != 0 {
        return Err(ParseError::PcmBlocks);
    }
    let frame_size: usize = need(&mut gb, 14) as usize + 1;
    if frame_size < 96 {
        return Err(ParseError::FrameSize);
    }
    let code: u32 = need(&mut gb, 6);
    let audio_mode: AudioMode = match AudioMode::from_code(code) {
        Some(mode) => mode,
        None => return Err(ParseError::AudioMode(code)),
    };
    let rate_code: usize = need(&mut gb, 4) as usize;
    let sample_rate: u32 = SAMPLE_RATES[rate_code];
    proof {
        lemma_rates(rate_code as int);
    }
    if sample_rate == 0 {
        return Err(ParseError::SampleRate);
    }
    need(&mut gb, 5);
    if need_flag(&mut gb) {
        return Err(ParseError::ReservedBit);
    }
    need(&mut gb, 4);
    let ext_audio_type: u8 = need(&mut gb, 3) as u8;
    let ext_audio_present: bool = need_flag(&mut gb);
    need_flag(&mut gb);
    let lfe_present: u8 = need(&mut gb, 2) as u8;
    if lfe_present == 3 {
        return Err(ParseError::LfeFlag);
    }
    let predictor_history: bool = need_flag(&mut gb);
    if crc_present {
        need(&mut gb, 16);
    }
    need(&mut gb, 7);
    let resolution: usize = need(&mut gb, 3) as usize;
    let source_pcm_res: u8 = BITS_PER_SAMPLE[resolution];
    if source_pcm_res == 0 {
        return Err(ParseError::PcmRes);
    }
    Ok(
        FrameInfo {
            crc_present,
            npcmblocks,
            frame_size,
            audio_mode,
            sample_rate,
            lfe_present,
            source_pcm_res,
            es_format: resolution >= 5,
            predictor_history,
            ext_audio_present,
            ext_audio_type,
        },
    )
}

} // verus!
