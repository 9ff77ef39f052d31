//! What a block holds of what was said of an object.

use vstd::prelude::*;
use crate::bits::{field, flag, lemma_field_range, signed_field};
use crate::eac3::oamd_block::{
    additional_data, basic_info, distance_field, gain_field, object_block, placement,
    position_field, priority_field, render_info, screen_field, size_field, BasicInfo,
    ObjectDistance, ObjectGain, ObjectPosition, ObjectSize, Placement, RenderInfo,
};
use crate::eac3::syncframe::ParseError;
use crate::eac3::types::ObjectAnchor;

verus! {

/// Gains are unity, silence, left as they were, or whole decibels: a step more
/// is a decibel less, from 15 down to -49, and zero is left out.
pub proof fn gains_fall_by_steps(d: Seq<u8>, lim: int, p: int)
    requires
        p + 8 <= lim,
    ensures
        field(d, p, 2) == 0 ==> gain_field(d, lim, p) == Ok::<_, ParseError>(
            (Some(ObjectGain::Unity), p + 2),
        ),
        field(d, p, 2) == 1 ==> gain_field(d, lim, p) == Ok::<_, ParseError>(
            (Some(ObjectGain::Mute), p + 2),
        ),
        field(d, p, 2) == 3 ==> gain_field(d, lim, p) == Ok::<_, ParseError>((None::<ObjectGain>, p + 2)),
        field(d, p, 2) == 2 ==> ({
            &&& gain_field(d, lim, p) matches Ok((Some(ObjectGain::Decibels(g)), q))
            &&& q == p + 8
            &&& g != 0
            &&& g > 0 ==> g + field(d, p + 2, 6) == 15
            &&& g < 0 ==> g + field(d, p + 2, 6) == 14
            &&& -49 <= g <= 15
        }),
{
    lemma_field_range(d, p, 2);
    lemma_field_range(d, p + 2, 6);
}

/// A priority is the default one or the five bits behind the flag.
pub proof fn priorities_follow_the_flag(d: Seq<u8>, lim: int, p: int)
    requires
        p + 6 <= lim,
    ensures
        flag(d, p) ==> priority_field(d, lim, p) == Ok::<_, ParseError>((None::<u8>, p + 1)),
        !flag(d, p) ==> priority_field(d, lim, p) == Ok::<_, ParseError>(
            (Some(field(d, p + 1, 5) as u8), p + 6),
        ),
{
}

/// Absolute positions are across, along, over or under, and how far; steps are
/// signed, in the same order.
pub proof fn positions_come_back(d: Seq<u8>, lim: int, p: int, x: int, y: int, z: int, above: bool)
    ensures
        p + 17 <= lim && field(d, p, 6) == x && field(d, p + 6, 6) == y && flag(d, p + 12) == above
            && field(d, p + 13, 4) == z ==> position_field(d, lim, p, false) == Ok::<
            _,
            ParseError,
        >(
            (
                ObjectPosition::Absolute { x: x as u8, y: y as u8, above, z: z as u8 },
                p + 17,
            ),
        ),
        p + 9 <= lim && signed_field(d, p, 3) == x && signed_field(d, p + 3, 3) == y
            && signed_field(d, p + 6, 3) == z ==> position_field(d, lim, p, true) == Ok::<
            _,
            ParseError,
        >((ObjectPosition::Delta { x: x as i8, y: y as i8, z: z as i8 }, p + 9)),
{
}

/// A distance is left out, infinite, or an index of four bits.
pub proof fn distances_come_back(d: Seq<u8>, lim: int, p: int)
    requires
        p + 6 <= lim,
    ensures
        !flag(d, p) ==> distance_field(d, lim, p) == Ok::<_, ParseError>(
            (None::<ObjectDistance>, p + 1),
        ),
        flag(d, p) && flag(d, p + 1) ==> distance_field(d, lim, p) == Ok::<_, ParseError>(
            (Some(ObjectDistance::Infinite), p + 2),
        ),
        flag(d, p) && !flag(d, p + 1) ==> distance_field(d, lim, p) == Ok::<_, ParseError>(
            (Some(ObjectDistance::Factor(field(d, p + 2, 4) as u8)), p + 6),
        ),
{
}

/// A size is a point, one extent for all directions, or one for each; or it
/// stays.
pub proof fn sizes_come_back(d: Seq<u8>, lim: int, p: int, x: int, y: int, z: int)
    requires
        p + 17 <= lim,
        field(d, p + 2, 5) == x,
        field(d, p + 7, 5) == y,
        field(d, p + 12, 5) == z,
    ensures
        field(d, p, 2) == 0 ==> size_field(d, lim, p) == Ok::<_, ParseError>(
            (Some(ObjectSize::Point), p + 2),
        ),
        field(d, p, 2) == 1 ==> size_field(d, lim, p) == Ok::<_, ParseError>(
            (Some(ObjectSize::Scalar(x as u8)), p + 7),
        ),
        field(d, p, 2) == 2 ==> size_field(d, lim, p) == Ok::<_, ParseError>(
            (Some(ObjectSize::Extents { x: x as u8, y: y as u8, z: z as u8 }), p + 17),
        ),
        field(d, p, 2) == 3 ==> size_field(d, lim, p) == Ok::<_, ParseError>(
            (None::<ObjectSize>, p + 2),
        ),
{
    lemma_field_range(d, p, 2);
}

/// An object at the screen has a screen factor and a depth factor.
pub proof fn screens_come_back(d: Seq<u8>, lim: int, p: int, screen: int, depth: int)
    requires
        p + 6 <= lim,
        field(d, p + 1, 3) == screen,
        field(d, p + 4, 2) == depth,
    ensures
        !flag(d, p) ==> screen_field(d, lim, p) == Ok::<_, ParseError>((None::<(u8, u8)>, p + 1)),
        flag(d, p) ==> screen_field(d, lim, p) == Ok::<_, ParseError>(
            (Some((screen as u8, depth as u8)), p + 6),
        ),
{
}

/// Extra data is one byte more than four bits say, and is passed over.
pub proof fn extra_data_is_passed_over(d: Seq<u8>, lim: int, p: int)
    requires
        p + 5 <= lim,
    ensures
        !flag(d, p) ==> additional_data(d, lim, p) == Ok::<_, ParseError>((0usize, p + 1)),
        flag(d, p) && p + 5 + 8 * (field(d, p + 1, 4) + 1) <= lim ==> additional_data(d, lim, p)
            == Ok::<_, ParseError>(
            ((field(d, p + 1, 4) + 1) as usize, p + 5 + 8 * (field(d, p + 1, 4) + 1)),
        ),
        flag(d, p) && p + 5 + 8 * (field(d, p + 1, 4) + 1) > lim ==> additional_data(d, lim, p)
            is Err,
{
}

/// The first block of an active object: gain and priority, then position,
/// distance, zones, size and screen, then the snap flag and the extra data,
/// each behind the one before.
pub proof fn first_blocks_say_everything(
    d: Seq<u8>,
    lim: int,
    p: int,
    gain: Option<ObjectGain>,
    a: int,
    priority: Option<u8>,
    b: int,
    position: ObjectPosition,
    c: int,
    distance: Option<ObjectDistance>,
    e: int,
    size: Option<ObjectSize>,
    f: int,
    screen: Option<(u8, u8)>,
    g: int,
    extra: usize,
    h: int,
)
    requires
        !flag(d, p),
        p + 1 <= lim,
        gain_field(d, lim, p + 1) == Ok::<_, ParseError>((gain, a)),
        priority_field(d, lim, a) == Ok::<_, ParseError>((priority, b)),
        position_field(d, lim, b, false) == Ok::<_, ParseError>((position, c)),
        distance_field(d, lim, c) == Ok::<_, ParseError>((distance, e)),
        e + 4 <= lim,
        size_field(d, lim, e + 4) == Ok::<_, ParseError>((size, f)),
        screen_field(d, lim, f) == Ok::<_, ParseError>((screen, g)),
        g + 1 <= lim,
        additional_data(d, lim, g + 1) == Ok::<_, ParseError>((extra, h)),
    ensures
        ({
            &&& object_block(d, lim, p, true, false) matches Ok((o, end))
            &&& end == h
            &&& !o.inactive
            &&& o.basic_info_status == 1
            &&& o.basic_info_blocks == Some(3u8)
            &&& o.render_info_status == 1
            &&& o.render_info_blocks == Some(15u8)
            &&& o.gain == gain
            &&& o.priority == priority
            &&& o.valid_position
            &&& !o.differential_position
            &&& o.position == Some(position)
            &&& o.distance == distance
            &&& o.size == size
            &&& screen is Some ==> o.anchor == ObjectAnchor::Screen
            &&& screen is None ==> o.anchor == ObjectAnchor::Room
            &&& screen matches Some(s) ==> o.screen_factor == Some(s.0) && o.depth_factor == Some(
                s.1,
            )
            &&& screen is None ==> o.screen_factor is None && o.depth_factor is None
            &&& o.additional_data_bytes == extra
        }),
{
    reveal(object_block);
}

/// The first block of an active bed channel: gain and priority alone, at its
/// speaker.
pub proof fn bed_blocks_say_no_more_than_levels(
    d: Seq<u8>,
    lim: int,
    p: int,
    gain: Option<ObjectGain>,
    a: int,
    priority: Option<u8>,
    b: int,
    extra: usize,
    h: int,
)
    requires
        !flag(d, p),
        p + 1 <= lim,
        gain_field(d, lim, p + 1) == Ok::<_, ParseError>((gain, a)),
        priority_field(d, lim, a) == Ok::<_, ParseError>((priority, b)),
        additional_data(d, lim, b) == Ok::<_, ParseError>((extra, h)),
    ensures
        ({
            &&& object_block(d, lim, p, true, true) matches Ok((o, end))
            &&& end == h
            &&& !o.inactive
            &&& o.gain == gain
            &&& o.priority == priority
            &&& o.anchor == ObjectAnchor::Speaker
            &&& !o.valid_position
            &&& o.position is None
            &&& o.distance is None
            &&& o.size is None
            &&& o.screen_factor is None
            &&& o.depth_factor is None
            &&& o.render_info_blocks is None
            &&& o.additional_data_bytes == extra
        }),
{
    reveal(object_block);
}

/// An inactive object says nothing, first block or not.
pub proof fn inactive_blocks_say_nothing(
    d: Seq<u8>,
    lim: int,
    p: int,
    first: bool,
    bed: bool,
    extra: usize,
    h: int,
)
    requires
        flag(d, p),
        p + 1 <= lim,
        additional_data(d, lim, p + 1) == Ok::<_, ParseError>((extra, h)),
    ensures
        ({
            &&& object_block(d, lim, p, first, bed) matches Ok((o, end))
            &&& end == h
            &&& o.inactive
            &&& o.basic_info_status == 0
            &&& o.render_info_status == 0
            &&& o.basic_info_blocks is None
            &&& o.render_info_blocks is None
            &&& o.gain is None
            &&& o.priority is None
            &&& !o.valid_position
            &&& o.position is None
            &&& o.distance is None
            &&& o.size is None
            &&& o.anchor == if bed { ObjectAnchor::Speaker } else { ObjectAnchor::Room }
        }),
{
    reveal(object_block);
}

/// A later block may leave basic info as it was, repeat it whole, or say which
/// of priority and gain it brings: bit 0 the priority, bit 1 the gain.
pub proof fn later_blocks_choose_their_levels(
    d: Seq<u8>,
    lim: int,
    p: int,
)
    requires
        p + 4 <= lim,
    ensures
        field(d, p, 2) == 0 || field(d, p, 2) == 2 ==> basic_info(d, lim, p, false, false) == Ok::<
            _,
            ParseError,
        >(
            (
                BasicInfo {
                    status: field(d, p, 2) as u8,
                    blocks: None,
                    gain: None,
                    priority: None,
                },
                p + 2,
            ),
        ),
        field(d, p, 2) == 3 && field(d, p + 2, 2) == 0 ==> basic_info(d, lim, p, false, false)
            == Ok::<_, ParseError>(
            (BasicInfo { status: 3, blocks: Some(0), gain: None, priority: None }, p + 4),
        ),
        field(d, p, 2) == 3 && field(d, p + 2, 2) == 1 ==> (basic_info(d, lim, p, false, false)
            matches Ok((o, end)) ==> o.gain is None && priority_field(d, lim, p + 4) == Ok::<
            _,
            ParseError,
        >((o.priority, end))),
        field(d, p, 2) == 3 && field(d, p + 2, 2) == 2 ==> (basic_info(d, lim, p, false, false)
            matches Ok((o, end)) ==> o.priority is None && gain_field(d, lim, p + 4) == Ok::<
            _,
            ParseError,
        >((o.gain, end))),
{
    lemma_field_range(d, p, 2);
    lemma_field_range(d, p + 2, 2);
}

/// A later block may leave rendering as it was, or say what it brings: bit 0
/// the place, bit 1 the zones, bit 2 the size, bit 3 the screen.
pub proof fn later_blocks_choose_their_rendering(d: Seq<u8>, lim: int, p: int)
    requires
        p + 11 <= lim,
    ensures
        field(d, p, 2) == 0 || field(d, p, 2) == 2 ==> render_info(d, lim, p, false, false, false)
            == Ok::<_, ParseError>(
            (
                RenderInfo {
                    status: field(d, p, 2) as u8,
                    blocks: None,
                    placement: None,
                    size: None,
                    screen: None,
                },
                p + 2,
            ),
        ),
        field(d, p, 2) == 3 && field(d, p + 2, 4) == 0 ==> render_info(
            d,
            lim,
            p,
            false,
            false,
            false,
        ) == Ok::<_, ParseError>(
            (
                RenderInfo { status: 3, blocks: Some(0), placement: None, size: None, screen: None },
                p + 7,
            ),
        ),
        field(d, p, 2) == 3 && field(d, p + 2, 4) == 2 ==> render_info(
            d,
            lim,
            p,
            false,
            false,
            false,
        ) == Ok::<_, ParseError>(
            (
                RenderInfo { status: 3, blocks: Some(2), placement: None, size: None, screen: None },
                p + 11,
            ),
        ),
        field(d, p, 2) == 3 && field(d, p + 2, 4) == 1 ==> (render_info(
            d,
            lim,
            p,
            false,
            false,
            false,
        ) matches Ok((o, end)) ==> o.size is None && o.screen is None && (placement(
            d,
            lim,
            p + 6,
            false,
        ) matches Ok((v, q)) && o.placement == Some(v) && end == q + 1)),
        field(d, p, 2) == 3 && field(d, p + 2, 4) == 4 ==> (render_info(
            d,
            lim,
            p,
            false,
            false,
            false,
        ) matches Ok((o, end)) ==> o.placement is None && o.screen is None && size_field(
            d,
            lim,
            p + 6,
        ) == Ok::<_, ParseError>((o.size, end - 1))),
        field(d, p, 2) == 3 && field(d, p + 2, 4) == 8 ==> (render_info(
            d,
            lim,
            p,
            false,
            false,
            false,
        ) matches Ok((o, end)) ==> o.placement is None && o.size is None && screen_field(
            d,
            lim,
            p + 6,
        ) == Ok::<_, ParseError>((o.screen, end - 1))),
{
    lemma_field_range(d, p, 2);
    lemma_field_range(d, p + 2, 4);
}

/// A first place is absolute; a later one is behind a flag that makes it a
/// step; its distance follows it.
pub proof fn places_are_steps_only_later(d: Seq<u8>, lim: int, p: int)
    requires
        p + 1 <= lim,
    ensures
        placement(d, lim, p, true) matches Ok((v, q)) ==> !v.differential && v.position is Absolute
            && (position_field(d, lim, p, false) matches Ok((w, r)) && v.position == w
            && distance_field(d, lim, r) == Ok::<_, ParseError>((v.distance, q))),
        placement(d, lim, p, false) matches Ok((v, q)) ==> v.differential == flag(d, p)
            && v.differential == (v.position is Delta) && (position_field(
            d,
            lim,
            p + 1,
            flag(d, p),
        ) matches Ok((w, r)) && v.position == w && distance_field(d, lim, r) == Ok::<_, ParseError>(
            (v.distance, q),
        )),
{
}

} // verus!
