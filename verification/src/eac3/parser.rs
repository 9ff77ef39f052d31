//! Syncframe headers.

use vstd::prelude::*;
use vstd::slice::slice_subrange;
use crate::bits::{code_space, field, flag, BitReader};

verus! {

/// First word of a syncframe.
pub const SYNCWORD: u16 = 0x0B77;

/// Bytes a header parse needs.
pub const MIN_HEADER_BYTES: usize = 7;

pub const SAMPLE_RATES: [u32; 3] = [48_000, 44_100, 32_000];

pub const HALF_SAMPLE_RATES: [u32; 3] = [24_000, 22_050, 16_000];

pub const BLOCKS_PER_SYNCFRAME: [u8; 4] = [1, 2, 3, 6];

/// Words of a legacy frame by half its size code, at 48, 44.1 and 32 kHz; the
/// 44.1 kHz column holds the size of the even code.
pub const LEGACY_AC3_FRAME_SIZE_WORDS: [[usize; 3]; 19] = [
    [64, 69, 96],
    [80, 87, 120],
    [96, 104, 144],
    [112, 121, 168],
    [128, 139, 192],
    [160, 174, 240],
    [192, 208, 288],
    [224, 243, 336],
    [256, 278, 384],
    [320, 348, 480],
    [384, 417, 576],
    [448, 487, 672],
    [512, 557, 768],
    [640, 696, 960],
    [768, 835, 1152],
    [896, 975, 1344],
    [1024, 1114, 1536],
    [1152, 1253, 1728],
    [1280, 1393, 1920],
];

/// Words of a legacy frame.
pub open spec fn legacy_words(fscod: int, code: int) -> int {
    LEGACY_AC3_FRAME_SIZE_WORDS@[code / 2]@[fscod] as int + if fscod == 1 && code % 2 == 1 {
        1int
    } else {
        0int
    }
}

/// Bytes of a legacy frame; none for a reserved rate or a code past the table.
pub open spec fn legacy_size(fscod: int, code: int) -> Option<usize> {
    if code / 2 >= 19 || fscod >= 3 { None } else { Some((2 * legacy_words(fscod, code)) as usize) }
}

proof fn lemma_legacy_words(i: int, j: int)
    requires
        0 <= i < 19,
        0 <= j < 3,
    ensures
        64 <= LEGACY_AC3_FRAME_SIZE_WORDS@[i]@[j] <= 1920,
{
}

/// Size in bytes of a legacy frame. At 44.1 kHz an odd size code carries one
/// word more than the even one.
pub fn legacy_ac3_frame_size(fscod: u8, frmsizecod: u8) -> (r: Option<usize>)
    ensures
        r == legacy_size(fscod as int, frmsizecod as int),
        r matches Some(n) ==> 128 <= n <= 3842,
{
    let row: usize = (frmsizecod / 2) as usize;
    let column: usize = fscod as usize;
    if row >= 19 || column >= 3 {
        return None;
    }
    proof {
        lemma_legacy_words(row as int, column as int);
    }
    let words: usize = LEGACY_AC3_FRAME_SIZE_WORDS[row][column];
    let padding: usize = if fscod == 1 && frmsizecod % 2 == 1 { 1 } else { 0 };
    Some((words + padding) * 2)
}

/// Why a syncframe header was refused.
#[derive(Clone, Copy, Debug, PartialEq, Eq)]
pub enum ParseError {
    InsufficientData,
    InvalidSyncword,
    ReservedSampleRateCode,
    UnsupportedBitstreamId(u8),
}

#[derive(Clone, Copy, Debug, PartialEq, Eq)]
pub enum StreamType {
    Independent,
    Dependent,
    Ac3Converted,
    Reserved,
}

pub open spec fn stream_type_of(bits: int) -> StreamType {
    if bits == 0 {
        StreamType::Independent
    } else if bits == 1 {
        StreamType::Dependent
    } else if bits == 2 {
        StreamType::Ac3Converted
    } else {
        StreamType::Reserved
    }
}

impl StreamType {
    pub fn from_bits(bits: u8) -> (r: Self)
        ensures
            r == stream_type_of(bits as int),
    {
        match bits {
            0 => StreamType::Independent,
            1 => StreamType::Dependent,
            2 => StreamType::Ac3Converted,
            _ => StreamType::Reserved,
        }
    }
}

#[derive(Clone, Copy, Debug, PartialEq, Eq)]
pub enum SampleRateCode {
    Full(u8),
    Half(u8),
}

#[derive(Clone, Copy, Debug, PartialEq, Eq)]
pub enum ChannelMode {
    DualMono,
    Mono,
    Stereo,
    ThreeFront,
    TwoFrontOneRear,
    ThreeFrontOneRear,
    TwoFrontTwoRear,
    ThreeFrontTwoRear,
}

pub open spec fn channel_mode_of(bits: int) -> ChannelMode {
    if bits == 0 {
        ChannelMode::DualMono
    } else if bits == 1 {
        ChannelMode::Mono
    } else if bits == 2 {
        ChannelMode::Stereo
    } else if bits == 3 {
        ChannelMode::ThreeFront
    } else if bits == 4 {
        ChannelMode::TwoFrontOneRear
    } else if bits == 5 {
        ChannelMode::ThreeFrontOneRear
    } else if bits == 6 {
        ChannelMode::TwoFrontTwoRear
    } else {
        ChannelMode::ThreeFrontTwoRear
    }
}

/// Full-bandwidth channels of a mode.
pub open spec fn mode_channels(mode: ChannelMode) -> int {
    match mode {
        ChannelMode::DualMono => 2,
        ChannelMode::Mono => 1,
        ChannelMode::Stereo => 2,
        ChannelMode::ThreeFront => 3,
        ChannelMode::TwoFrontOneRear => 3,
        ChannelMode::ThreeFrontOneRear => 4,
        ChannelMode::TwoFrontTwoRear => 4,
        ChannelMode::ThreeFrontTwoRear => 5,
    }
}

impl ChannelMode {
    pub fn from_bits(bits: u8) -> (r: Self)
        ensures
            r == channel_mode_of(bits as int),
    {
        match bits {
            0 => ChannelMode::DualMono,
            1 => ChannelMode::Mono,
            2 => ChannelMode::Stereo,
            3 => ChannelMode::ThreeFront,
            4 => ChannelMode::TwoFrontOneRear,
            5 => ChannelMode::ThreeFrontOneRear,
            6 => ChannelMode::TwoFrontTwoRear,
            _ => ChannelMode::ThreeFrontTwoRear,
        }
    }

    pub fn base_channels(self) -> (r: u8)
        ensures
            r == mode_channels(self),
            1 <= r <= 5,
    {
        match self {
            ChannelMode::DualMono | ChannelMode::Stereo => 2,
            ChannelMode::Mono => 1,
            ChannelMode::ThreeFront | ChannelMode::TwoFrontOneRear => 3,
            ChannelMode::ThreeFrontOneRear | ChannelMode::TwoFrontTwoRear => 4,
            ChannelMode::ThreeFrontTwoRear => 5,
        }
    }
}

/// What a syncframe header says.
#[derive(Clone, Copy, Debug, PartialEq, Eq)]
pub struct FrameInfo {
    pub stream_type: StreamType,
    pub substream_id: u8,
    pub frame_size: usize,
    pub sample_rate_code: SampleRateCode,
    pub sample_rate: u32,
    pub num_blocks: u8,
    pub samples: u16,
    pub channel_mode: ChannelMode,
    pub lfe: bool,
    pub bitstream_id: u8,
}

impl FrameInfo {
    /// Bounds that every parsed header keeps.
    pub open spec fn wf(&self) -> bool {
        &&& 2 <= self.frame_size <= 4096
        &&& 16_000 <= self.sample_rate <= 48_000
        &&& 1 <= self.num_blocks <= 6
        &&& self.samples == 256 * self.num_blocks
    }

    pub fn channels(self) -> (r: u8)
        ensures
            r == mode_channels(self.channel_mode) + if self.lfe { 1int } else { 0int },
    {
        self.channel_mode.base_channels() + if self.lfe { 1u8 } else { 0u8 }
    }

    /// Bits per second, rounded down.
    pub fn bitrate(self) -> (r: u32)
        requires
            self.wf(),
        ensures
            r == (self.frame_size * 8 * self.sample_rate) / (self.samples as int),
    {
        let size: u64 = self.frame_size as u64 * 8;
        let rate: u64 = self.sample_rate as u64;
        let samples: u64 = self.samples as u64;
        proof {
            assert(0 <= size * rate <= 32768 * 48000) by (nonlinear_arith)
                requires
                    0 <= size <= 32768,
                    0 <= rate <= 48000,
            ;
            let all = size * rate;
            assert(all / (samples as int) <= all) by (nonlinear_arith)
                requires
                    all >= 0,
                    samples >= 1,
            ;
        }
        (size * rate / samples) as u32
    }
}

/// The sync word opens the data.
pub open spec fn synced(d: Seq<u8>) -> bool {
    field(d, 0, 16) == SYNCWORD
}

/// A legacy header: only what framing needs is filled in.
pub open spec fn legacy_header_fields(d: Seq<u8>) -> Result<FrameInfo, ParseError> {
    let id = field(d, 40, 5);
    let fscod = field(d, 32, 2);
    let size = legacy_size(fscod, field(d, 34, 6));
    if !synced(d) {
        Err(ParseError::InvalidSyncword)
    } else if id > 10 {
        Err(ParseError::UnsupportedBitstreamId(id as u8))
    } else if fscod >= 3 || size is None {
        Err(ParseError::ReservedSampleRateCode)
    } else {
        Ok(
            FrameInfo {
                stream_type: StreamType::Independent,
                substream_id: 0,
                frame_size: size->0,
                sample_rate_code: SampleRateCode::Full(fscod as u8),
                sample_rate: SAMPLE_RATES@[fscod],
                num_blocks: 6,
                samples: 1536,
                channel_mode: ChannelMode::Mono,
                lfe: false,
                bitstream_id: id as u8,
            },
        )
    }
}

/// The legacy header at the start of `d`.
pub open spec fn legacy_header(d: Seq<u8>) -> Result<FrameInfo, ParseError> {
    if d.len() < 7 {
        Err(ParseError::InsufficientData)
    } else {
        legacy_header_fields(d.subrange(0, 7))
    }
}

/// The rate, its code and the block count of a header.
pub open spec fn timing(d: Seq<u8>) -> Result<(SampleRateCode, u32, u8), ParseError> {
    let fscod = field(d, 32, 2);
    let next = field(d, 34, 2);
    if fscod != 3 {
        Ok(
            (
                SampleRateCode::Full(fscod as u8),
                SAMPLE_RATES@[fscod],
                BLOCKS_PER_SYNCFRAME@[next],
            ),
        )
    } else if next == 3 {
        Err(ParseError::ReservedSampleRateCode)
    } else {
        Ok((SampleRateCode::Half(next as u8), HALF_SAMPLE_RATES@[next], 6u8))
    }
}

pub open spec fn header_fields(d: Seq<u8>) -> Result<FrameInfo, ParseError> {
    let id = field(d, 40, 5);
    if !synced(d) {
        Err(ParseError::InvalidSyncword)
    } else {
        match timing(d) {
            Err(e) => Err(e),
            Ok((sample_rate_code, sample_rate, num_blocks)) => if id < 11 || id > 16 {
                Err(ParseError::UnsupportedBitstreamId(id as u8))
            } else {
                Ok(
                    FrameInfo {
                        stream_type: stream_type_of(field(d, 16, 2)),
                        substream_id: field(d, 18, 3) as u8,
                        frame_size: (2 * (field(d, 21, 11) + 1)) as usize,
                        sample_rate_code,
                        sample_rate,
                        num_blocks,
                        samples: (256 * num_blocks) as u16,
                        channel_mode: channel_mode_of(field(d, 36, 3)),
                        lfe: flag(d, 39),
                        bitstream_id: id as u8,
                    },
                )
            },
        }
    }
}

/// The syncframe header at the start of `d`.
pub open spec fn header(d: Seq<u8>) -> Result<FrameInfo, ParseError> {
    if d.len() < 7 { Err(ParseError::InsufficientData) } else { header_fields(d.subrange(0, 7)) }
}

fn need(gb: &mut BitReader<'_>, bits: usize) -> (r: u32)
    requires
        old(gb).wf(),
        1 <= bits <= 32,
        old(gb).has(bits as int),
    ensures
        final(gb).wf(),
        final(gb).same_source(old(gb)),
        r as int == field(old(gb).data(), old(gb).pos(), bits as int),
        (r as int) < code_space(bits as int),
        final(gb).pos() == old(gb).pos() + bits,
{
    match gb.read_bits(bits) {
        Some(v) => v,
        None => 0,
    }
}

/// Parse a legacy header, as far as framing needs it.
pub fn parse_legacy_ac3_header(data: &[u8]) -> (r: Result<FrameInfo, ParseError>)
    ensures
        r == legacy_header(data@),
        r matches Ok(info) ==> info.wf(),
{
    if data.len() < MIN_HEADER_BYTES {
        return Err(ParseError::InsufficientData);
    }
    let head: &[u8] = slice_subrange(data, 0, MIN_HEADER_BYTES);
    let mut gb: BitReader = BitReader::new(head);
    if need(&mut gb, 16) != SYNCWORD as u32 {
        return Err(ParseError::InvalidSyncword);
    }
    need(&mut gb, 16);
    let fscod: u8 = need(&mut gb, 2) as u8;
    let code: u8 = need(&mut gb, 6) as u8;
    let bitstream_id: u8 = need(&mut gb, 5) as u8;
    if bitstream_id > 10 {
        return Err(ParseError::UnsupportedBitstreamId(bitstream_id));
    }
    if fscod >= 3 {
        return Err(ParseError::ReservedSampleRateCode);
    }
    let sample_rate: u32 = SAMPLE_RATES[fscod as usize];
    let frame_size: usize = match legacy_ac3_frame_size(fscod, code) {
        Some(n) => n,
        None => return Err(ParseError::ReservedSampleRateCode),
    };
    Ok(
        FrameInfo {
            stream_type: StreamType::Independent,
            substream_id: 0,
            frame_size,
            sample_rate_code: SampleRateCode::Full(fscod),
            sample_rate,
            num_blocks: 6,
            samples: 1536,
            channel_mode: ChannelMode::Mono,
            lfe: false,
            bitstream_id,
        },
    )
}

fn parse_timing(fscod: u8, next: u8, Ghost(d): Ghost<Seq<u8>>) -> (r: Result<
    (SampleRateCode, u32, u8),
    ParseError,
>)
    requires
        fscod == field(d, 32, 2),
        next == field(d, 34, 2),
        fscod < 4,
        next < 4,
    ensures
        r == timing(d),
        r matches Ok((_, rate, blocks)) ==> 16_000 <= rate <= 48_000 && 1 <= blocks <= 6,
{
    if fscod != 3 {
        let rate: u32 = SAMPLE_RATES[fscod as usize];
        let blocks: u8 = BLOCKS_PER_SYNCFRAME[next as usize];
        return Ok((SampleRateCode::Full(fscod), rate, blocks));
    }
    if next == 3 {
        return Err(ParseError::ReservedSampleRateCode);
    }
    let rate: u32 = HALF_SAMPLE_RATES[next as usize];
    Ok((SampleRateCode::Half(next), rate, 6))
}

/// Parse and check a syncframe header.
pub fn parse_header(data: &[u8]) -> (r: Result<FrameInfo, ParseError>)
    ensures
        r == header(data@),
        r matches Ok(info) ==> info.wf(),
{
    if data.len() < MIN_HEADER_BYTES {
        return Err(ParseError::InsufficientData);
    }
    let head: &[u8] = slice_subrange(data, 0, MIN_HEADER_BYTES);
    let mut gb: BitReader = BitReader::new(head);
    if need(&mut gb, 16) != SYNCWORD as u32 {
        return Err(ParseError::InvalidSyncword);
    }
    let stream_type: StreamType = StreamType::from_bits(need(&mut gb, 2) as u8);
    let substream_id: u8 = need(&mut gb, 3) as u8;
    let frame_size: usize = (need(&mut gb, 11) as usize + 1) * 2;
    let fscod: u8 = need(&mut gb, 2) as u8;
    let next: u8 = need(&mut gb, 2) as u8;
    let (sample_rate_code, sample_rate, num_blocks): (SampleRateCode, u32, u8) = parse_timing(
        fscod,
        next,
        Ghost(head@),
    )?;
    let channel_mode: ChannelMode = ChannelMode::from_bits(need(&mut gb, 3) as u8);
    let lfe: bool = need(&mut gb, 1) != 0;
    let bitstream_id: u8 = need(&mut gb, 5) as u8;
    if bitstream_id < 11 || bitstream_id > 16 {
        return Err(ParseError::UnsupportedBitstreamId(bitstream_id));
    }
    Ok(
        FrameInfo {
            stream_type,
            substream_id,
            frame_size,
            sample_rate_code,
            sample_rate,
            num_blocks,
            samples: num_blocks as u16 * 256,
            channel_mode,
            lfe,
            bitstream_id,
        },
    )
}

} // verus!
