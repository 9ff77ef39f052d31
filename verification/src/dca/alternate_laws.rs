//! What the layout of an alternate extension, and the names of channels, hold
//! of one another.

use vstd::prelude::*;
use crate::bits::{code_space, field, lemma_field_range};
use crate::dca::alternate::{
    announced_sets, first_channels, geometry_at, geometry_offsets, header_at, inner_control,
    last_at, layout_from, marker_offsets, minimum_prefix, outer_layout, prefix_ends,
    prefix_ends_at, profile_of, protected_prefix, quartet_at, second_header, stands_at,
    unique_geometry, AlternateProfile, XLL_X_ALT_INNER_SUFFIX,
};
use crate::dca::core_decoder::mode_speakers;
use crate::dca::core_tables::CoreTables;
use crate::dca::crc::crc_of;
use crate::dca::parser::AudioMode;
use crate::dca::pcm::{beds, channel_len, pushed, wav_beds, CorePcmModel, PcmModel};
use crate::dca::spatial::{feeds, fixed_positions, height_channels, SpatialChannel, XPresentation};
use crate::dca::synth::SynthTables;
use crate::dca::xll_error::XllError;
use crate::dca::types::BedChannel;

verus! {

/// A geometry comes back: the logarithms of the segments and of their samples,
/// which together make 512, and the width of an entry from one on.
pub proof fn geometries_come_back(control: Seq<u8>, bit: int, segments: int, samples: int, width: int)
    requires
        0 <= bit,
        bit + 13 <= 8 * control.len(),
        field(control, bit, 4) == segments,
        field(control, bit + 4, 4) == samples,
        field(control, bit + 8, 5) == width - 1,
    ensures
        geometry_at(control, bit) is Some <==> segments <= 3 && code_space(segments) * code_space(
            samples,
        ) == 512 && 4 <= width <= 20,
        geometry_at(control, bit) matches Some(g) ==> g.segments == code_space(segments)
            && g.navigation_size_bits == width,
{
    lemma_field_range(control, bit, 4);
    lemma_field_range(control, bit + 4, 4);
    lemma_field_range(control, bit + 8, 5);
    assert(code_space(0) == 1 && code_space(1) == 2 && code_space(2) == 4 && code_space(3) == 8);
    if segments <= 3 {
        crate::dca::xll_laws::lemma_code_spaces(segments + samples, segments);
        assert(segments + samples - segments == samples);
        let t = segments + samples;
        assert(code_space(t) == 512 <==> t == 9) by {
            if t < 9 {
                crate::dca::xll_laws::lemma_code_spaces(8, t);
                let a = code_space(t);
                let b = code_space(8 - t);
                assert(code_space(8) == 256);
                assert(a <= 256) by (nonlinear_arith)
                    requires
                        a * b == 256,
                        b >= 1,
                        a >= 1,
                ;
            } else if t > 9 {
                crate::dca::xll_laws::lemma_code_spaces(t, 10);
                let a = code_space(t);
                let b = code_space(t - 10);
                assert(code_space(10) == 1024);
                assert(b >= 1);
                assert(a >= 1024) by (nonlinear_arith)
                    requires
                        a == 1024 * b,
                        b >= 1,
                ;
            } else {
                assert(code_space(9) == 512);
            }
        }
    }
}

proof fn lemma_geometry_offsets(control: Seq<u8>, first: int, end: int, o: int)
    ensures
        geometry_offsets(control, first, end).contains(o) <==> first <= o < end && geometry_at(
            control,
            o,
        ) is Some,
        forall|i: int|
            0 <= i < geometry_offsets(control, first, end).len() ==> first
                <= #[trigger] geometry_offsets(control, first, end)[i] < end,
        geometry_offsets(control, first, end).no_duplicates(),
    decreases end - first,
{
    if first < end {
        lemma_geometry_offsets(control, first, end - 1, o);
        let before = geometry_offsets(control, first, end - 1);
        let all = geometry_offsets(control, first, end);
        if geometry_at(control, end - 1) is Some {
            assert(all == before.push(end - 1));
            assert(all[before.len() as int] == end - 1);
            if before.contains(o) {
                let k = choose|k: int| 0 <= k < before.len() && before[k] == o;
                assert(all[k] == o);
            }
            if all.contains(o) && o != end - 1 {
                let k = choose|k: int| 0 <= k < all.len() && all[k] == o;
                assert(before[k] == o);
            }
        }
    }
}

/// A geometry is found where it is the only one between two offsets: none, or a
/// second one, is refused.
pub proof fn geometries_are_found_alone(control: Seq<u8>, first: int, last: int, o: int, other: int)
    ensures
        unique_geometry(control, first, last) matches Ok((at, g)) ==> first <= at <= last
            && geometry_at(control, at) == Some(g) && (first <= o <= last && geometry_at(
            control,
            o,
        ) is Some ==> o == at),
        first <= o < other <= last && geometry_at(control, o) is Some && geometry_at(control, other)
            is Some ==> unique_geometry(control, first, last) is Err,
        (forall|k: int| first <= k <= last ==> geometry_at(control, k) is None) ==> unique_geometry(
            control,
            first,
            last,
        ) is Err,
{
    let hits = geometry_offsets(control, first, last + 1);
    lemma_geometry_offsets(control, first, last + 1, o);
    lemma_geometry_offsets(control, first, last + 1, other);
    if hits.len() > 0 {
        lemma_geometry_offsets(control, first, last + 1, hits[0]);
        assert(hits.contains(hits[0]));
    }
    if hits.len() == 1 {
        if hits.contains(o) {
            let k = choose|k: int| 0 <= k < hits.len() && hits[k] == o;
            assert(k == 0);
        }
        if hits.contains(other) {
            let k = choose|k: int| 0 <= k < hits.len() && hits[k] == other;
            assert(k == 0);
        }
    }
}

/// A header is there if all of it says so: its size, its channels, a flag for
/// each, resolutions that fit, the rate, and a checksum over the whole.
pub proof fn headers_are_there_as_coded(payload: Seq<u8>, at: int, size: int, channels: int, pcm: int, storage: int)
    requires
        0 <= at <= 0x1000_0000,
        field(payload, 8 * at, 10) == size - 1,
        field(payload, 8 * at + 10, 4) == channels - 1,
        1 <= channels <= 8,
        8 * at + 32 + channels <= 8 * payload.len(),
        field(payload, 8 * at + 14 + channels, 5) == pcm - 1,
        field(payload, 8 * at + 19 + channels, 5) == storage - 1,
    ensures
        header_at(payload, at) is Some <==> ({
            &&& at + size <= payload.len()
            &&& pcm <= storage
            &&& storage == 16 || storage == 20 || storage == 24
            &&& field(payload, 8 * at + 24 + channels, 4) == 12
            &&& field(payload, 8 * at + 28 + channels, 4) == 0
            &&& crc_of(payload.subrange(at, at + size)) == 0
        }),
        header_at(payload, at) matches Some(h) ==> h.offset == at && h.size == size && h.channels
            == channels,
{
    lemma_field_range(payload, 8 * at, 10);
    let q = 8 * at + 28 + channels;
    crate::bit_laws::fields_join(payload, q, 2, 2);
    lemma_field_range(payload, q, 2);
    lemma_field_range(payload, q + 2, 2);
    assert(code_space(2) == 4);
}

/// The second header stands twice the coded number behind its base, or a byte
/// before that; it has four channels, and is refused where both do.
pub proof fn second_headers_stand_at_even_distance(
    payload: Seq<u8>,
    control: Seq<u8>,
    common: int,
    bias: int,
)
    requires
        14 < common <= 31,
        9 + common - 14 <= 8 * control.len(),
        1 <= bias <= 0x1000,
    ensures
        ({
            let at = bias + 2 * field(control, 9, common - 14);
            &&& second_header(payload, control, common, bias) matches Ok(h) ==> h.channels == 4 && (
            header_at(payload, at) == Some(h) || header_at(payload, at - 1) == Some(h))
            &&& quartet_at(payload, at) is Some && quartet_at(payload, at - 1) is Some
                ==> second_header(payload, control, common, bias) is Err
            &&& quartet_at(payload, at) is None && quartet_at(payload, at - 1) is None
                ==> second_header(payload, control, common, bias) is Err
            &&& quartet_at(payload, at) matches Some(h) ==> quartet_at(payload, at - 1) is None
                ==> second_header(payload, control, common, bias) == Ok::<_, XllError>(h)
        }),
{
    lemma_field_range(control, 9, common - 14);
    crate::dca::xll_laws::lemma_code_spaces(20, common - 14);
    let w = common - 14;
    let a = code_space(w);
    let b = code_space(20 - w);
    assert(code_space(20) == 0x10_0000);
    assert(b >= 1);
    assert(a <= 0x10_0000) by (nonlinear_arith)
        requires
            a * b == 0x10_0000,
            b >= 1,
            a >= 1,
    ;
}

/// The last of a pattern is one, and none stands behind it.
pub proof fn the_last_is_found(data: Seq<u8>, pattern: Seq<u8>, n: int, i: int)
    ensures
        last_at(data, pattern, n) matches Some(k) ==> 0 <= k <= n && stands_at(data, pattern, k) && (
        k < i <= n ==> !stands_at(data, pattern, i)),
        last_at(data, pattern, n) is None ==> (0 <= i <= n ==> !stands_at(data, pattern, i)),
    decreases n + 1,
{
    if n >= 0 && !stands_at(data, pattern, n) {
        the_last_is_found(data, pattern, n - 1, i);
    }
}

/// The inner control is the eight or nine bytes in front of the second header,
/// right behind the marker.
pub proof fn inner_controls_follow_their_marker(payload: Seq<u8>, second: int)
    requires
        0 <= second,
    ensures
        inner_control(payload, second) matches Ok(c) ==> ({
            &&& c.len() == 8 || c.len() == 9
            &&& second <= payload.len()
            &&& c == payload.subrange(second - c.len(), second)
            &&& payload.subrange(second - c.len() - 6, second - c.len()) == XLL_X_ALT_INNER_SUFFIX@
        }),
{
    match inner_control(payload, second) {
        Ok(c) => {
            let start = if second >= 24 { second - 24 } else { 0 };
            let window = payload.subrange(start, second);
            the_last_is_found(window, XLL_X_ALT_INNER_SUFFIX@, window.len() as int, 0);
            let at = last_at(window, XLL_X_ALT_INNER_SUFFIX@, window.len() as int)->0;
            assert(XLL_X_ALT_INNER_SUFFIX@.len() == 6);
            assert(c =~= payload.subrange(second - c.len(), second));
            assert(window.subrange(at, at + 6) =~= XLL_X_ALT_INNER_SUFFIX@);
            assert(payload.subrange(second - c.len() - 6, second - c.len()) =~= window.subrange(
                at,
                at + 6,
            ));
        },
        _ => {},
    }
}

proof fn lemma_prefix_ends(payload: Seq<u8>, first: int, end: int)
    ensures
        forall|i: int|
            0 <= i < prefix_ends(payload, first, end).len() ==> first <= #[trigger] prefix_ends(
                payload,
                first,
                end,
            )[i] < end && prefix_ends_at(payload, prefix_ends(payload, first, end)[i]),
    decreases end - first,
{
    if first < end {
        lemma_prefix_ends(payload, first, end - 1);
        let before = prefix_ends(payload, first, end - 1);
        let all = prefix_ends(payload, first, end);
        assert forall|i: int| 0 <= i < all.len() implies first <= #[trigger] all[i] < end
            && prefix_ends_at(payload, all[i]) by {
            if i < before.len() {
                assert(all[i] == before[i]);
                assert(prefix_ends_at(payload, before[i]));
            } else {
                assert(all[i] == end - 1);
            }
        }
    }
}

/// The outer control starts right behind the marker that ends the prefix; its
/// first byte tells its size, and second headers count from twelve bytes on.
pub proof fn outer_controls_follow_their_marker(payload: Seq<u8>, profile: AlternateProfile)
    ensures
        outer_layout(payload, profile) matches Ok((start, size, bias)) ==> ({
            &&& minimum_prefix(profile) + 6 <= start < payload.len()
            &&& prefix_ends_at(payload, start - 6)
            &&& bias == start + 12
            &&& payload[start as int] == 0xb2 ==> size == 7
            &&& payload[start as int] != 0xb2 ==> size == 8 && 0xc2 <= payload[start as int] <= 0xc6
        }),
{
    let end = if payload.len() < 96 { payload.len() as int } else { 96 };
    lemma_prefix_ends(payload, minimum_prefix(profile), end);
}

proof fn lemma_markers(payload: Seq<u8>, first: int, end: int)
    ensures
        forall|i: int|
            0 <= i < marker_offsets(payload, first, end).len() ==> first <= #[trigger] marker_offsets(
                payload,
                first,
                end,
            )[i] < end && announced_sets(payload, marker_offsets(payload, first, end)[i]) is Some,
    decreases end - first,
{
    if first < end {
        lemma_markers(payload, first, end - 1);
    }
}

/// A protected prefix ends in its own checksum, in front of a marker that
/// announces the first set or both.
pub proof fn prefixes_end_in_their_checksum(payload: Seq<u8>)
    ensures
        protected_prefix(payload) matches Ok((size, sets)) ==> ({
            &&& 6 <= size < payload.len()
            &&& size < 96
            &&& crc_of(payload.take(size as int)) == 0
            &&& sets == payload[size as int]
            &&& sets == 1 || sets == 3
        }),
{
    let end = if payload.len() < 96 { payload.len() as int } else { 96 };
    lemma_markers(payload, 6, end);
}

/// The first set of a profile has one channel, two or four, by its sync word;
/// the fourth word is no profile.
pub proof fn profiles_have_their_channels(sync: int)
    ensures
        profile_of(sync) is Some <==> sync == 0xf140_00d0 || sync == 0xf140_00d1 || sync
            == 0xf140_00d3,
        profile_of(0xf140_00d0) matches Some(p) && first_channels(p) == 1 && minimum_prefix(p)
            == 48,
        profile_of(0xf140_00d1) matches Some(p) && first_channels(p) == 2 && minimum_prefix(p)
            == 49,
        profile_of(0xf140_00d3) matches Some(p) && first_channels(p) == 4 && minimum_prefix(p)
            == 49,
{
}

/// A layout's first header stands right behind its outer control and has the
/// profile's channels; its second has four.
pub proof fn layouts_have_their_headers(
    payload: Seq<u8>,
    profile: AlternateProfile,
    start: int,
    size: int,
    bias: int,
)
    requires
        0 <= start,
        0 <= size,
    ensures
        layout_from(payload, profile, start, size, bias) matches Ok(l) ==> ({
            &&& header_at(payload, start + size) == Some(l.first_header)
            &&& l.first_header.channels == first_channels(profile)
            &&& l.second_header.channels == 4
        }),
{
}

/// A presentation's feeds are objects and then those with a place: the heights,
/// behind a top front centre where there is one.
pub proof fn presentations_end_in_their_heights(p: XPresentation)
    ensures
        p != XPresentation::ObjectOnly ==> fixed_positions(p).skip(fixed_positions(p).len() - 4)
            == height_channels(),
        p == XPresentation::FixedD0 <==> fixed_positions(p).contains(
            SpatialChannel::TopFrontCenter,
        ),
        fixed_positions(p).len() <= feeds(p),
        feeds(XPresentation::Height) == 4,
        feeds(XPresentation::FixedD0) == 1 + 4,
        feeds(XPresentation::ObjectsD1) == 2 + 4,
        feeds(XPresentation::ObjectsD3) == 4 + 4,
        feeds(XPresentation::ObjectOnly) == 1,
        height_channels() == seq![
            SpatialChannel::TopFrontLeft,
            SpatialChannel::TopFrontRight,
            SpatialChannel::TopBackLeft,
            SpatialChannel::TopBackRight,
        ],
{
    let s = fixed_positions(p);
    if p != XPresentation::ObjectOnly {
        assert(s.skip(s.len() - 4) =~= height_channels());
    }
    if p == XPresentation::FixedD0 {
        assert(s[0] == SpatialChannel::TopFrontCenter);
    } else if s.contains(SpatialChannel::TopFrontCenter) {
        let k = choose|k: int| 0 <= k < s.len() && s[k] == SpatialChannel::TopFrontCenter;
        assert(s[k] == SpatialChannel::TopFrontCenter);
    }
}

/// The bed channel of a speaker.
pub open spec fn bed_of_speaker(speaker: usize) -> BedChannel {
    if speaker == 0 {
        BedChannel::Center
    } else if speaker == 1 {
        BedChannel::FrontLeft
    } else if speaker == 2 {
        BedChannel::FrontRight
    } else if speaker == 3 {
        BedChannel::SurroundLeft
    } else if speaker == 4 {
        BedChannel::SurroundRight
    } else {
        BedChannel::RearCenter
    }
}

/// The beds of an arrangement are those of its speakers, in their order.
pub proof fn beds_are_those_of_the_speakers(mode: AudioMode, i: int)
    requires
        0 <= i < mode_speakers(mode).len(),
    ensures
        beds(mode).len() == mode_speakers(mode).len(),
        beds(mode)[i] == bed_of_speaker(mode_speakers(mode)[i]),
{
}

/// Place of a bed channel in a WAV file.
pub open spec fn wav_rank(bed: BedChannel) -> int {
    match bed {
        BedChannel::FrontLeft => 0,
        BedChannel::FrontRight => 1,
        BedChannel::Center => 2,
        BedChannel::LowFrequencyEffects => 3,
        BedChannel::RearLeft => 4,
        BedChannel::RearRight => 5,
        BedChannel::RearCenter => 6,
        BedChannel::SurroundLeft => 7,
        BedChannel::SurroundRight => 8,
        _ => 9,
    }
}

/// WAV files have the same beds, each in its place.
pub proof fn wav_files_sort_the_beds(mode: AudioMode, i: int, j: int)
    requires
        0 <= i < j < wav_beds(mode).len(),
    ensures
        wav_beds(mode).len() == beds(mode).len(),
        wav_rank(wav_beds(mode)[i]) < wav_rank(wav_beds(mode)[j]),
{
}

/// A frame without full channels is as long as its low-frequency channel, 64
/// samples for each behind the eight of history.
pub proof fn frames_are_as_long_as_their_channels(f: CorePcmModel)
    ensures
        f.channels.len() > 0 ==> channel_len(f) == f.channels[0].len(),
        f.channels.len() == 0 ==> (f.lfe matches Some(v) ==> v.len() > 8 ==> channel_len(f) + 512
            == 64 * v.len()),
        f.channels.len() == 0 && f.lfe is None ==> channel_len(f) == 0,
{
}

/// Only decoded units count, and what a unit gives is named as its header says.
pub proof fn decoded_units_are_counted(s: PcmModel, core: CoreTables, synth: SynthTables, d: Seq<u8>)
    requires
        s.frames < u64::MAX,
    ensures
        ({
            let (next, r) = pushed(s, core, synth, d);
            &&& r is Err ==> next.frames == s.frames
            &&& r matches Ok(p) ==> next.frames == s.frames + 1 && p.pcm.order == beds(
                p.info.audio_mode,
            ) && p.pcm.sample_rate == p.info.sample_rate && p.pcm.decoded
        }),
{
}

} // verus!
