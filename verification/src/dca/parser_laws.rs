//! What the header of a core frame holds of what was coded.

use vstd::prelude::*;
use crate::bits::{field, flag, lemma_field_range};
use crate::dca::parser::{
    header, header_fields, mode_channels, mode_of, AudioMode, FrameInfo, ParseError,
    BITS_PER_SAMPLE, SAMPLE_RATES,
};

verus! {

/// A header comes back field by field: blocks and bytes are counted from one,
/// and a checksum moves what is behind it.
pub proof fn core_headers_come_back(
    d: Seq<u8>,
    blocks: int,
    size: int,
    mode: int,
    rate: int,
    lfe: int,
    kind: int,
    res: int,
)
    requires
        field(d, 0, 32) == 0x7ffe_8001,
        field(d, 33, 5) == 31,
        field(d, 39, 7) == blocks - 1,
        blocks % 8 == 0,
        field(d, 46, 14) == size - 1,
        size >= 96,
        field(d, 60, 6) == mode,
        mode < 10,
        field(d, 66, 4) == rate,
        SAMPLE_RATES@[rate] != 0,
        !flag(d, 75),
        field(d, 80, 3) == kind,
        field(d, 85, 2) == lfe,
        lfe < 3,
        field(d, if flag(d, 38) { 111int } else { 95int }, 3) == res,
        res != 4,
        res != 7,
    ensures
        ({
            &&& header_fields(d) matches Ok(h)
            &&& h.crc_present == flag(d, 38)
            &&& h.npcmblocks == blocks
            &&& h.frame_size == size
            &&& mode_of(mode) == Some(h.audio_mode)
            &&& h.sample_rate == SAMPLE_RATES@[rate]
            &&& h.lfe_present == lfe
            &&& h.source_pcm_res == BITS_PER_SAMPLE@[res]
            &&& h.es_format == (res == 5 || res == 6)
            &&& h.predictor_history == flag(d, 87)
            &&& h.ext_audio_present == flag(d, 83)
            &&& h.ext_audio_type == kind
        }),
{
    lemma_field_range(d, 39, 7);
    lemma_field_range(d, 46, 14);
    lemma_field_range(d, 60, 6);
    lemma_field_range(d, 66, 4);
    lemma_field_range(d, 80, 3);
    lemma_field_range(d, 85, 2);
    lemma_field_range(d, if flag(d, 38) { 111int } else { 95int }, 3);
}

/// Codes stand for the arrangements in the order of their channels, two more
/// fronts first; a rear adds one channel, two rears two.
pub proof fn arrangements_add_up(code: int)
    requires
        0 <= code,
    ensures
        mode_of(code) is Some <==> code < 10,
        code < 10 ==> (mode_of(code) matches Some(m) && mode_channels(m) >= 1),
        code == 0 ==> mode_of(code) == Some(AudioMode::Mono) && mode_channels(AudioMode::Mono) == 1,
        1 <= code <= 4 ==> (mode_of(code) matches Some(m) && mode_channels(m) == 2),
        mode_of(2) == Some(AudioMode::Stereo),
        mode_of(3) == Some(AudioMode::StereoSumDiff),
        mode_of(4) == Some(AudioMode::StereoTotal),
        code == 6 || code == 7 ==> (mode_of(code) matches Some(m) && mode_channels(m) == (code - 4)
            + 1),
        code == 8 || code == 9 ==> (mode_of(code) matches Some(m) && mode_channels(m) == (code - 6)
            + 2),
        mode_of(5) == Some(AudioMode::ThreeF) && mode_channels(AudioMode::ThreeF) == 3,
        mode_of(6) == Some(AudioMode::TwoF1R),
        mode_of(7) == Some(AudioMode::ThreeF1R),
        mode_of(8) == Some(AudioMode::TwoF2R),
        mode_of(9) == Some(AudioMode::ThreeF2R),
{
}

/// Each base rate doubles from code to code.
pub proof fn rates_double()
    ensures
        SAMPLE_RATES@[2] == 2 * SAMPLE_RATES@[1],
        SAMPLE_RATES@[3] == 2 * SAMPLE_RATES@[2],
        SAMPLE_RATES@[7] == 2 * SAMPLE_RATES@[6],
        SAMPLE_RATES@[8] == 2 * SAMPLE_RATES@[7],
        SAMPLE_RATES@[12] == 2 * SAMPLE_RATES@[11],
        SAMPLE_RATES@[13] == 2 * SAMPLE_RATES@[12],
        SAMPLE_RATES@[14] == 2 * SAMPLE_RATES@[13],
        SAMPLE_RATES@[15] == 2 * SAMPLE_RATES@[14],
        SAMPLE_RATES@[1] == 8000,
        SAMPLE_RATES@[8] == 44100,
        SAMPLE_RATES@[13] == 48000,
        SAMPLE_RATES@[0] == 0,
        SAMPLE_RATES@[4] == 0,
        SAMPLE_RATES@[5] == 0,
        SAMPLE_RATES@[9] == 0,
        SAMPLE_RATES@[10] == 0,
{
}

/// A header needs its eighteen bytes, and what follows them does not matter.
pub proof fn headers_need_their_bytes(d: Seq<u8>, more: Seq<u8>)
    ensures
        d.len() < 18 ==> header(d) == Err::<FrameInfo, ParseError>(ParseError::InsufficientData),
        d.len() >= 18 ==> header(d + more) == header(d),
{
    if d.len() >= 18 {
        assert((d + more).subrange(0, 18) =~= d.subrange(0, 18));
    }
}

} // verus!
