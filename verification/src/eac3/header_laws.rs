//! What a syncframe header, and the state behind it, hold of what was coded.

use vstd::prelude::*;
use crate::bits::{field, flag, lemma_field_range};
use crate::eac3::metadata::{
    basic_set, completed, completed_payload, element_fits, next_elements, next_grid, next_state,
    payload_fits, rectangular, render_set, renders, starting_grid, states_wf,
    OamdObjectBlockParseState,
};
use crate::eac3::oamd::{OamdElementKindModel, OamdObjectElementModel, OamdPayloadModel};
use crate::eac3::oamd_block::OamdObjectBlock;
use crate::eac3::parser::{
    channel_mode_of, header_fields, legacy_header_fields, legacy_size, legacy_words, mode_channels,
    stream_type_of, timing, ChannelMode, SampleRateCode, StreamType,
    BLOCKS_PER_SYNCFRAME, HALF_SAMPLE_RATES, LEGACY_AC3_FRAME_SIZE_WORDS, SAMPLE_RATES,
};
use crate::eac3::types::ObjectAnchor;

verus! {

/// A header comes back field by field. Frames are counted in words, from one
/// on; every block has 256 samples.
pub proof fn headers_come_back(
    d: Seq<u8>,
    kind: int,
    substream: int,
    words: int,
    rate: int,
    blocks: int,
    mode: int,
    lfe: bool,
    id: int,
)
    requires
        field(d, 0, 16) == 0x0b77,
        field(d, 16, 2) == kind,
        field(d, 18, 3) == substream,
        field(d, 21, 11) == words - 1,
        field(d, 32, 2) == rate,
        rate != 3,
        field(d, 34, 2) == blocks,
        field(d, 36, 3) == mode,
        flag(d, 39) == lfe,
        field(d, 40, 5) == id,
        11 <= id <= 16,
    ensures
        ({
            &&& header_fields(d) matches Ok(h)
            &&& h.stream_type == stream_type_of(kind)
            &&& h.substream_id == substream
            &&& h.frame_size == 2 * words
            &&& h.sample_rate_code == SampleRateCode::Full(rate as u8)
            &&& h.sample_rate == SAMPLE_RATES@[rate]
            &&& h.num_blocks == BLOCKS_PER_SYNCFRAME@[blocks]
            &&& h.samples == 256 * h.num_blocks
            &&& h.channel_mode == channel_mode_of(mode)
            &&& h.lfe == lfe
            &&& h.bitstream_id == id
        }),
{
    lemma_field_range(d, 16, 2);
    lemma_field_range(d, 18, 3);
    lemma_field_range(d, 21, 11);
    lemma_field_range(d, 32, 2);
    lemma_field_range(d, 34, 2);
    lemma_field_range(d, 36, 3);
}

/// Half rates are half of the full ones, have six blocks, and no fourth.
pub proof fn half_rates_have_six_blocks(d: Seq<u8>)
    requires
        field(d, 32, 2) == 3,
    ensures
        field(d, 34, 2) == 3 ==> timing(d) is Err,
        field(d, 34, 2) != 3 ==> (timing(d) matches Ok((code, rate, blocks)) && code
            == SampleRateCode::Half(field(d, 34, 2) as u8) && 2 * rate == SAMPLE_RATES@[field(
            d,
            34,
            2,
        )] && blocks == 6),
        SAMPLE_RATES@[0] == 48_000,
        SAMPLE_RATES@[1] == 44_100,
        SAMPLE_RATES@[2] == 32_000,
{
    lemma_field_range(d, 34, 2);
    assert(HALF_SAMPLE_RATES@[0] == 24_000 && HALF_SAMPLE_RATES@[1] == 22_050
        && HALF_SAMPLE_RATES@[2] == 16_000);
}

/// Frames have one, two, three or six blocks.
pub proof fn frames_have_up_to_six_blocks()
    ensures
        BLOCKS_PER_SYNCFRAME@ == seq![1u8, 2u8, 3u8, 6u8],
{
    assert(BLOCKS_PER_SYNCFRAME@ =~= seq![1u8, 2u8, 3u8, 6u8]);
}

/// Legacy frames of one code last the same: at 32 kHz they take half as many
/// words again as at 48, and at 44.1 the whole words of the same time, with one
/// more every other code.
pub proof fn legacy_frames_last_the_same(code: int)
    requires
        0 <= code < 38,
    ensures
        legacy_words(0, code) == legacy_words(0, code / 2 * 2),
        2 * legacy_words(2, code) == 3 * legacy_words(0, code),
        code % 2 == 0 ==> 441 * legacy_words(1, code) <= 480 * legacy_words(0, code) < 441 * (
        legacy_words(1, code) + 1),
        code % 2 == 1 ==> legacy_words(1, code) == legacy_words(1, code - 1) + 1,
        legacy_size(0, code) == Some((2 * legacy_words(0, code)) as usize),
        legacy_size(1, code) == Some((2 * legacy_words(1, code)) as usize),
        legacy_size(2, code) == Some((2 * legacy_words(2, code)) as usize),
        legacy_size(3, code) is None,
{
    let i = code / 2;
    assert(0 <= i < 19);
    assert(i == 0 || i == 1 || i == 2 || i == 3 || i == 4 || i == 5 || i == 6 || i == 7 || i == 8
        || i == 9 || i == 10 || i == 11 || i == 12 || i == 13 || i == 14 || i == 15 || i == 16 || i
        == 17 || i == 18);
    assert(code % 2 == 1 ==> (code - 1) / 2 == i);
    assert((code / 2 * 2) / 2 == i);
}

/// Longer legacy codes are longer frames.
pub proof fn legacy_frames_grow(code: int)
    requires
        0 <= code < 36,
    ensures
        legacy_words(0, code) < legacy_words(0, code + 2),
        legacy_words(0, 0) == 64,
        legacy_words(0, 36) == 1280,
{
    let i = code / 2;
    assert((code + 2) / 2 == i + 1);
    assert(i == 0 || i == 1 || i == 2 || i == 3 || i == 4 || i == 5 || i == 6 || i == 7 || i == 8
        || i == 9 || i == 10 || i == 11 || i == 12 || i == 13 || i == 14 || i == 15 || i == 16 || i
        == 17);
}

/// A legacy header gives the frame's rate and length, and six blocks.
pub proof fn legacy_headers_come_back(d: Seq<u8>, rate: int, code: int, id: int)
    requires
        field(d, 0, 16) == 0x0b77,
        field(d, 32, 2) == rate,
        rate < 3,
        field(d, 34, 6) == code,
        code < 38,
        field(d, 40, 5) == id,
        id <= 10,
    ensures
        ({
            &&& legacy_header_fields(d) matches Ok(h)
            &&& h.frame_size == 2 * legacy_words(rate, code)
            &&& h.sample_rate == SAMPLE_RATES@[rate]
            &&& h.num_blocks == 6
            &&& h.samples == 6 * 256
            &&& h.bitstream_id == id
            &&& h.stream_type == StreamType::Independent
        }),
{
    lemma_field_range(d, 32, 2);
    lemma_field_range(d, 34, 6);
    lemma_field_range(d, 40, 5);
    let i = code / 2;
    assert(LEGACY_AC3_FRAME_SIZE_WORDS@[i]@[rate] <= 0x7fff) by {
        assert(i == 0 || i == 1 || i == 2 || i == 3 || i == 4 || i == 5 || i == 6 || i == 7 || i
            == 8 || i == 9 || i == 10 || i == 11 || i == 12 || i == 13 || i == 14 || i == 15 || i
            == 16 || i == 17 || i == 18);
        assert(rate == 0 || rate == 1 || rate == 2);
    }
}

/// A mode has its fronts and its rears.
pub proof fn modes_have_fronts_and_rears(code: int)
    requires
        0 <= code < 8,
    ensures
        code == 0 ==> mode_channels(channel_mode_of(code)) == 2,
        1 <= code <= 3 ==> mode_channels(channel_mode_of(code)) == code,
        code == 4 || code == 5 ==> mode_channels(channel_mode_of(code)) == mode_channels(
            channel_mode_of(code - 2),
        ) + 1,
        code == 6 || code == 7 ==> mode_channels(channel_mode_of(code)) == mode_channels(
            channel_mode_of(code - 4),
        ) + 2,
        channel_mode_of(0) == ChannelMode::DualMono,
        channel_mode_of(2) == ChannelMode::Stereo,
        channel_mode_of(4) == ChannelMode::TwoFrontOneRear,
        channel_mode_of(5) == ChannelMode::ThreeFrontOneRear,
        channel_mode_of(6) == ChannelMode::TwoFrontTwoRear,
        stream_type_of(0) == StreamType::Independent,
        stream_type_of(1) == StreamType::Dependent,
        stream_type_of(2) == StreamType::Ac3Converted,
{
}

/// Every field that a block brings is known after it as the block has it.
pub proof fn brought_fields_are_known(state: OamdObjectBlockParseState, parsed: OamdObjectBlock)
    requires
        !parsed.inactive,
        parsed.basic_info_status == 1,
        parsed.render_info_status == 1,
        parsed.basic_info_blocks == Some(3u8),
        parsed.render_info_blocks == Some(15u8),
        parsed.position is Some,
    ensures
        ({
            let next = next_state(state, parsed, false);
            &&& parsed.gain is Some ==> next.gain == parsed.gain
            &&& parsed.gain is None ==> next.gain == state.gain
            &&& parsed.priority is Some ==> next.priority == parsed.priority
            &&& parsed.priority is None ==> next.priority == state.priority
            &&& next.valid_position
            &&& next.position == parsed.position
            &&& next.differential_position == parsed.differential_position
            &&& next.distance == parsed.distance
            &&& parsed.size is Some ==> next.size == parsed.size
            &&& parsed.size is None ==> next.size == state.size
            &&& parsed.anchor == ObjectAnchor::Screen ==> next.anchor == ObjectAnchor::Screen
                && next.screen_factor == parsed.screen_factor && next.depth_factor
                == parsed.depth_factor
            &&& parsed.anchor != ObjectAnchor::Screen ==> next.anchor == state.anchor
                && next.screen_factor == state.screen_factor && next.depth_factor
                == state.depth_factor
        }),
{
}

/// A block that brings one of gain and priority leaves the other, and one that
/// brings neither place, size nor screen leaves those.
pub proof fn other_fields_are_kept(
    state: OamdObjectBlockParseState,
    parsed: OamdObjectBlock,
    bed: bool,
)
    ensures
        ({
            let next = next_state(state, parsed, bed);
            let basic = basic_set(parsed);
            let render = render_set(parsed);
            &&& basic == 1 ==> next.gain == state.gain
            &&& basic == 2 ==> next.priority == state.priority
            &&& basic == 2 && parsed.gain is Some ==> next.gain == parsed.gain
            &&& basic == 1 && parsed.priority is Some ==> next.priority == parsed.priority
            &&& renders(parsed, bed) && render == 1 ==> next.size == state.size && next.anchor
                == state.anchor && next.valid_position
            &&& renders(parsed, bed) && render == 2 ==> next.size == state.size
                && next.position == state.position && next.anchor == state.anchor
            &&& renders(parsed, bed) && render == 4 ==> next.position == state.position
                && next.anchor == state.anchor && (parsed.size is Some ==> next.size
                == parsed.size)
            &&& renders(parsed, bed) && render == 8 ==> next.position == state.position
                && next.size == state.size
            &&& bed ==> next.anchor == ObjectAnchor::Speaker && next.position == state.position
                && next.size == state.size && next.valid_position == state.valid_position
        }),
{
}

/// A completed block says what is known, and keeps what it said of itself.
pub proof fn completed_blocks_say_what_is_known(
    state: OamdObjectBlockParseState,
    parsed: OamdObjectBlock,
)
    ensures
        ({
            let out = completed(parsed, state);
            &&& out.gain == state.gain
            &&& out.priority == state.priority
            &&& out.position == state.position
            &&& out.distance == state.distance
            &&& out.size == state.size
            &&& out.anchor == state.anchor
            &&& out.valid_position == state.valid_position
            &&& out.differential_position == state.differential_position
            &&& out.screen_factor == state.screen_factor
            &&& out.depth_factor == state.depth_factor
            &&& out.inactive == parsed.inactive
            &&& out.basic_info_status == parsed.basic_info_status
            &&& out.render_info_status == parsed.render_info_status
            &&& out.additional_data_bytes == parsed.additional_data_bytes
        }),
{
}

/// What is known of an object comes from its own blocks alone, each from the
/// block in its own place; the first objects are those of beds.
pub proof fn objects_are_known_by_their_own_blocks(
    grid: Seq<Seq<OamdObjectBlockParseState>>,
    blocks: Seq<Seq<OamdObjectBlock>>,
    beds: int,
    i: int,
    j: int,
)
    requires
        0 <= i < grid.len(),
        0 <= j < grid[i].len(),
    ensures
        i < blocks.len() && j < blocks[i].len() ==> next_grid(grid, blocks, beds)[i][j]
            == next_state(grid[i][j], blocks[i][j], i < beds),
        i >= blocks.len() ==> next_grid(grid, blocks, beds)[i] == grid[i],
        i < blocks.len() && j >= blocks[i].len() ==> next_grid(grid, blocks, beds)[i][j]
            == grid[i][j],
{
}

/// A frame of another shape starts with nothing known.
pub proof fn other_shapes_start_afresh(
    grid: Seq<Seq<OamdObjectBlockParseState>>,
    objects: int,
    blocks: int,
    i: int,
    j: int,
)
    requires
        0 <= i < objects,
        0 <= j < blocks,
        grid.len() > 0,
    ensures
        grid.len() == objects && grid[0].len() == blocks ==> starting_grid(
            Some(grid),
            objects,
            blocks,
        ) == grid,
        grid.len() != objects || grid[0].len() != blocks ==> starting_grid(
            Some(grid),
            objects,
            blocks,
        )[i][j].gain is None && !starting_grid(Some(grid), objects, blocks)[i][j].valid_position,
        starting_grid(None, objects, blocks)[i][j].position is None,
{
}

/// A completed payload says of every block what is known after it, and knows
/// every element from its own state alone; beds play from their speakers.
pub proof fn payloads_say_what_is_known(
    known: Seq<Option<Seq<Seq<OamdObjectBlockParseState>>>>,
    received: OamdPayloadModel,
    o: OamdObjectElementModel,
    e: int,
    i: int,
    j: int,
)
    requires
        payload_fits(received),
        states_wf(known),
        0 <= e < received.elements.len(),
        received.elements[e].kind == OamdElementKindModel::Object(o),
        0 <= i < o.object_blocks.len(),
        0 <= j < o.object_blocks[i].len(),
    ensures
        ({
            let after = next_elements(known, received);
            let out = completed_payload(known, received);
            &&& after.len() == received.element_count
            &&& out.elements.len() == received.elements.len()
            &&& out.object_count == received.object_count
            &&& out.elements[e].kind matches OamdElementKindModel::Object(full)
            &&& after[e] matches Some(grid)
            &&& full.object_blocks[i][j].gain == grid[i][j].gain
            &&& full.object_blocks[i][j].priority == grid[i][j].priority
            &&& full.object_blocks[i][j].position == grid[i][j].position
            &&& full.object_blocks[i][j].size == grid[i][j].size
            &&& full.object_blocks[i][j].anchor == grid[i][j].anchor
            &&& full.object_blocks[i][j].inactive == o.object_blocks[i][j].inactive
            &&& i < received.bed_or_isf_objects ==> grid[i][j].anchor == ObjectAnchor::Speaker
            &&& known.len() != received.element_count && i >= received.bed_or_isf_objects
                && o.object_blocks[i][j].inactive ==> grid[i][j].anchor == ObjectAnchor::Room
                && grid[i][j].gain is None && grid[i][j].position is None
            &&& known.len() == received.element_count && i >= received.bed_or_isf_objects
                && o.object_blocks[i][j].inactive ==> (known[e] matches Some(before)
                ==> before.len() == received.object_count && before[0].len()
                == o.block_updates.len() ==> grid[i][j] == before[i][j])
        }),
{
    assert(element_fits(received.elements[e], received.object_count as int));
    assert(o.object_blocks[i].len() <= o.block_updates.len());
    if known.len() == received.element_count {
        assert(rectangular(known[e]));
    }
}

/// Elements of another kind, and those that a payload does not bring, change
/// nothing that is known.
pub proof fn other_elements_are_kept(
    known: Seq<Option<Seq<Seq<OamdObjectBlockParseState>>>>,
    received: OamdPayloadModel,
    e: int,
)
    requires
        known.len() == received.element_count,
        0 <= e < known.len(),
        e >= received.elements.len() || received.elements[e].kind == OamdElementKindModel::Unknown,
    ensures
        next_elements(known, received)[e] == known[e],
        e < received.elements.len() ==> completed_payload(known, received).elements[e]
            == received.elements[e],
{
}

} // verus!
