//! One object's metadata in one block of an OAMD element.

use vstd::prelude::*;
use crate::bits::{field, flag, signed_field, BitReader};
use crate::grammar::parsed;
use super::fields::{missing, read_bit, read_bits, read_signed_bits, skip_bits};
use super::syncframe::ParseError;
use super::types::ObjectAnchor;

verus! {

/// An object's gain, as coded. Every coded gain sits 3 dB below its nominal
/// value.
#[derive(Debug, Clone, Copy, PartialEq, Eq, Structural)]
pub enum ObjectGain {
    /// 0 dB nominal.
    Unity,
    /// Silence.
    Mute,
    /// A nominal gain in dB, from 15 down to -49.
    Decibels(i8),
}

/// An object's position, as coded: absolute coordinates count 62nds across
/// the room and 15ths of its height; deltas count the same steps.
#[derive(Debug, Clone, Copy, PartialEq, Eq, Structural)]
pub enum ObjectPosition {
    Delta { x: i8, y: i8, z: i8 },
    Absolute { x: u8, y: u8, above: bool, z: u8 },
}

/// An object's distance, as coded: an index into the table of distance
/// factors, or infinity.
#[derive(Debug, Clone, Copy, PartialEq, Eq, Structural)]
pub enum ObjectDistance {
    Infinite,
    Factor(u8),
}

/// An object's size, as coded, in 31sts of the room.
#[derive(Debug, Clone, Copy, PartialEq, Eq, Structural)]
pub enum ObjectSize {
    Point,
    Scalar(u8),
    Extents { x: u8, y: u8, z: u8 },
}

/// What one block says of one object. `screen_factor` counts eighths, less
/// one; `depth_factor` indexes the table of depth factors.
#[derive(Debug, Clone, Copy, PartialEq, Eq, Structural)]
pub struct OamdObjectBlock {
    pub inactive: bool,
    pub basic_info_status: u8,
    pub basic_info_blocks: Option<u8>,
    pub render_info_status: u8,
    pub render_info_blocks: Option<u8>,
    pub anchor: ObjectAnchor,
    pub gain: Option<ObjectGain>,
    pub priority: Option<u8>,
    pub valid_position: bool,
    pub differential_position: bool,
    pub position: Option<ObjectPosition>,
    pub distance: Option<ObjectDistance>,
    pub size: Option<ObjectSize>,
    pub screen_factor: Option<u8>,
    pub depth_factor: Option<u8>,
    pub additional_data_bytes: usize,
}

/// A block that says nothing.
pub open spec fn empty_block() -> OamdObjectBlock {
    OamdObjectBlock {
        inactive: false,
        basic_info_status: 0,
        basic_info_blocks: None,
        render_info_status: 0,
        render_info_blocks: None,
        anchor: ObjectAnchor::Room,
        gain: None,
        priority: None,
        valid_position: false,
        differential_position: false,
        position: None,
        distance: None,
        size: None,
        screen_factor: None,
        depth_factor: None,
        additional_data_bytes: 0,
    }
}

impl Default for OamdObjectBlock {
    fn default() -> (r: Self)
        ensures
            r == empty_block(),
    {
        OamdObjectBlock {
            inactive: false,
            basic_info_status: 0,
            basic_info_blocks: None,
            render_info_status: 0,
            render_info_blocks: None,
            anchor: ObjectAnchor::Room,
            gain: None,
            priority: None,
            valid_position: false,
            differential_position: false,
            position: None,
            distance: None,
            size: None,
            screen_factor: None,
            depth_factor: None,
            additional_data_bytes: 0,
        }
    }
}

/// Bit `k` of a small flag set.
pub open spec fn in_set(blocks: u8, k: int) -> bool {
    if k == 0 {
        blocks % 2 == 1
    } else if k == 1 {
        (blocks / 2) % 2 == 1
    } else if k == 2 {
        (blocks / 4) % 2 == 1
    } else {
        (blocks / 8) % 2 == 1
    }
}

/// The gain field.
pub open spec fn gain_field(d: Seq<u8>, lim: int, p: int) -> Result<
    (Option<ObjectGain>, int),
    ParseError,
> {
    if p + 2 > lim {
        missing("oa_gain_helper")
    } else if field(d, p, 2) == 0 {
        Ok((Some(ObjectGain::Unity), p + 2))
    } else if field(d, p, 2) == 1 {
        Ok((Some(ObjectGain::Mute), p + 2))
    } else if field(d, p, 2) == 2 {
        if p + 8 > lim {
            missing("oa_gain_step")
        } else {
            let step = field(d, p + 2, 6);
            Ok((Some(ObjectGain::Decibels((if step < 15 { 15 - step } else { 14 - step }) as i8)), p + 8))
        }
    } else {
        Ok((None, p + 2))
    }
}

fn parse_gain(reader: &mut BitReader<'_>) -> (r: Result<Option<ObjectGain>, ParseError>)
    requires
        old(reader).wf(),
    ensures
        final(reader).wf(),
        final(reader).same_source(old(reader)),
        parsed(
            r,
            gain_field(old(reader).data(), old(reader).limit(), old(reader).pos()),
            final(reader).pos(),
        ),
{
    let helper: u32 = read_bits(reader, 2, "oa_gain_helper")?;
    if helper == 0 {
        Ok(Some(ObjectGain::Unity))
    } else if helper == 1 {
        Ok(Some(ObjectGain::Mute))
    } else if helper == 2 {
        let step: i32 = read_bits(reader, 6, "oa_gain_step")? as i32;
        let db: i32 = if step < 15 { 15 - step } else { 14 - step };
        Ok(Some(ObjectGain::Decibels(db as i8)))
    } else {
        Ok(None)
    }
}

/// The priority field: absent means the default priority.
pub open spec fn priority_field(d: Seq<u8>, lim: int, p: int) -> Result<
    (Option<u8>, int),
    ParseError,
> {
    if p + 1 > lim {
        missing("oa_default_priority")
    } else if flag(d, p) {
        Ok((None, p + 1))
    } else if p + 6 > lim {
        missing("oa_priority")
    } else {
        Ok((Some(field(d, p + 1, 5) as u8), p + 6))
    }
}

fn parse_priority(reader: &mut BitReader<'_>) -> (r: Result<Option<u8>, ParseError>)
    requires
        old(reader).wf(),
    ensures
        final(reader).wf(),
        final(reader).same_source(old(reader)),
        parsed(
            r,
            priority_field(old(reader).data(), old(reader).limit(), old(reader).pos()),
            final(reader).pos(),
        ),
{
    if read_bit(reader, "oa_default_priority")? {
        return Ok(None);
    }
    Ok(Some(read_bits(reader, 5, "oa_priority")? as u8))
}

/// The first half of a block: gain and priority.
pub struct BasicInfo {
    pub status: u8,
    pub blocks: Option<u8>,
    pub gain: Option<ObjectGain>,
    pub priority: Option<u8>,
}

/// The fields that `blocks` announces, at `p`.
pub open spec fn basic_fields(d: Seq<u8>, lim: int, p: int, status: u8, blocks: u8) -> Result<
    (BasicInfo, int),
    ParseError,
> {
    match (if in_set(blocks, 1) { gain_field(d, lim, p) } else { Ok((None, p)) }) {
        Err(e) => Err(e),
        Ok((gain, q)) => match (if in_set(blocks, 0) {
            priority_field(d, lim, q)
        } else {
            Ok((None, q))
        }) {
            Err(e) => Err(e),
            Ok((priority, r)) => Ok((BasicInfo { status, blocks: Some(blocks), gain, priority }, r)),
        },
    }
}

/// Basic info under a known status: only an odd status carries fields, and
/// status 1 carries all of them.
pub open spec fn basic_body(d: Seq<u8>, lim: int, p: int, status: u8) -> Result<
    (BasicInfo, int),
    ParseError,
> {
    if status % 2 == 0 {
        Ok((BasicInfo { status, blocks: None, gain: None, priority: None }, p))
    } else if status == 1 {
        basic_fields(d, lim, p, status, 3)
    } else if p + 2 > lim {
        missing("oa_basic_info_blocks")
    } else {
        basic_fields(d, lim, p + 2, status, field(d, p, 2) as u8)
    }
}

/// Basic info. An inactive object has none; the first block has all of it.
pub open spec fn basic_info(d: Seq<u8>, lim: int, p: int, inactive: bool, first: bool) -> Result<
    (BasicInfo, int),
    ParseError,
> {
    if inactive {
        basic_body(d, lim, p, 0)
    } else if first {
        basic_body(d, lim, p, 1)
    } else if p + 2 > lim {
        missing("oa_basic_info_status")
    } else {
        basic_body(d, lim, p + 2, field(d, p, 2) as u8)
    }
}

fn parse_basic_info(reader: &mut BitReader<'_>, inactive: bool, first: bool) -> (r: Result<BasicInfo, ParseError>)
    requires
        old(reader).wf(),
    ensures
        final(reader).wf(),
        final(reader).same_source(old(reader)),
        parsed(
            r,
            basic_info(old(reader).data(), old(reader).limit(), old(reader).pos(), inactive, first),
            final(reader).pos(),
        ),
{
    let status: u8 = if inactive {
        0
    } else if first {
        1
    } else {
        read_bits(reader, 2, "oa_basic_info_status")? as u8
    };
    if status % 2 == 0 {
        return Ok(BasicInfo { status, blocks: None, gain: None, priority: None });
    }
    let blocks: u8 = if status == 1 {
        3
    } else {
        read_bits(reader, 2, "oa_basic_info_blocks")? as u8
    };
    let gain: Option<ObjectGain> = if (blocks / 2) % 2 == 1 { parse_gain(reader)? } else { None };
    let priority: Option<u8> = if blocks % 2 == 1 { parse_priority(reader)? } else { None };
    Ok(BasicInfo { status, blocks: Some(blocks), gain, priority })
}

/// A position, as a step from the last one or in absolute coordinates.
pub open spec fn position_field(d: Seq<u8>, lim: int, p: int, differential: bool) -> Result<
    (ObjectPosition, int),
    ParseError,
> {
    if differential {
        if p + 3 > lim {
            missing("oa_delta_x")
        } else if p + 6 > lim {
            missing("oa_delta_y")
        } else if p + 9 > lim {
            missing("oa_delta_z")
        } else {
            Ok(
                (
                    ObjectPosition::Delta {
                        x: signed_field(d, p, 3) as i8,
                        y: signed_field(d, p + 3, 3) as i8,
                        z: signed_field(d, p + 6, 3) as i8,
                    },
                    p + 9,
                ),
            )
        }
    } else if p + 6 > lim {
        missing("oa_pos_x")
    } else if p + 12 > lim {
        missing("oa_pos_y")
    } else if p + 13 > lim {
        missing("oa_pos_z_sign")
    } else if p + 17 > lim {
        missing("oa_pos_z_mag")
    } else {
        Ok(
            (
                ObjectPosition::Absolute {
                    x: field(d, p, 6) as u8,
                    y: field(d, p + 6, 6) as u8,
                    above: flag(d, p + 12),
                    z: field(d, p + 13, 4) as u8,
                },
                p + 17,
            ),
        )
    }
}

fn parse_position(reader: &mut BitReader<'_>, differential: bool) -> (r: Result<ObjectPosition, ParseError>)
    requires
        old(reader).wf(),
    ensures
        final(reader).wf(),
        final(reader).same_source(old(reader)),
        parsed(
            r,
            position_field(old(reader).data(), old(reader).limit(), old(reader).pos(), differential),
            final(reader).pos(),
        ),
{
    if differential {
        let x: i32 = read_signed_bits(reader, 3, "oa_delta_x")?;
        let y: i32 = read_signed_bits(reader, 3, "oa_delta_y")?;
        let z: i32 = read_signed_bits(reader, 3, "oa_delta_z")?;
        Ok(ObjectPosition::Delta { x: x as i8, y: y as i8, z: z as i8 })
    } else {
        let x: u32 = read_bits(reader, 6, "oa_pos_x")?;
        let y: u32 = read_bits(reader, 6, "oa_pos_y")?;
        let above: bool = read_bit(reader, "oa_pos_z_sign")?;
        let z: u32 = read_bits(reader, 4, "oa_pos_z_mag")?;
        Ok(ObjectPosition::Absolute { x: x as u8, y: y as u8, above, z: z as u8 })
    }
}

/// The optional distance.
pub open spec fn distance_field(d: Seq<u8>, lim: int, p: int) -> Result<
    (Option<ObjectDistance>, int),
    ParseError,
> {
    if p + 1 > lim {
        missing("oa_distance_present")
    } else if !flag(d, p) {
        Ok((None, p + 1))
    } else if p + 2 > lim {
        missing("oa_infinite_distance")
    } else if flag(d, p + 1) {
        Ok((Some(ObjectDistance::Infinite), p + 2))
    } else if p + 6 > lim {
        missing("oa_distance_index")
    } else {
        Ok((Some(ObjectDistance::Factor(field(d, p + 2, 4) as u8)), p + 6))
    }
}

fn parse_distance(reader: &mut BitReader<'_>) -> (r: Result<Option<ObjectDistance>, ParseError>)
    requires
        old(reader).wf(),
    ensures
        final(reader).wf(),
        final(reader).same_source(old(reader)),
        parsed(
            r,
            distance_field(old(reader).data(), old(reader).limit(), old(reader).pos()),
            final(reader).pos(),
        ),
{
    if !read_bit(reader, "oa_distance_present")? {
        return Ok(None);
    }
    if read_bit(reader, "oa_infinite_distance")? {
        return Ok(Some(ObjectDistance::Infinite));
    }
    Ok(Some(ObjectDistance::Factor(read_bits(reader, 4, "oa_distance_index")? as u8)))
}

/// The size field.
pub open spec fn size_field(d: Seq<u8>, lim: int, p: int) -> Result<
    (Option<ObjectSize>, int),
    ParseError,
> {
    if p + 2 > lim {
        missing("oa_size_mode")
    } else if field(d, p, 2) == 0 {
        Ok((Some(ObjectSize::Point), p + 2))
    } else if field(d, p, 2) == 1 {
        if p + 7 > lim {
            missing("oa_size_scalar")
        } else {
            Ok((Some(ObjectSize::Scalar(field(d, p + 2, 5) as u8)), p + 7))
        }
    } else if field(d, p, 2) == 2 {
        if p + 7 > lim {
            missing("oa_size_x")
        } else if p + 12 > lim {
            missing("oa_size_y")
        } else if p + 17 > lim {
            missing("oa_size_z")
        } else {
            Ok(
                (
                    Some(
                        ObjectSize::Extents {
                            x: field(d, p + 2, 5) as u8,
                            y: field(d, p + 7, 5) as u8,
                            z: field(d, p + 12, 5) as u8,
                        },
                    ),
                    p + 17,
                ),
            )
        }
    } else {
        Ok((None, p + 2))
    }
}

fn parse_size(reader: &mut BitReader<'_>) -> (r: Result<Option<ObjectSize>, ParseError>)
    requires
        old(reader).wf(),
    ensures
        final(reader).wf(),
        final(reader).same_source(old(reader)),
        parsed(
            r,
            size_field(old(reader).data(), old(reader).limit(), old(reader).pos()),
            final(reader).pos(),
        ),
{
    let mode: u32 = read_bits(reader, 2, "oa_size_mode")?;
    if mode == 0 {
        Ok(Some(ObjectSize::Point))
    } else if mode == 1 {
        Ok(Some(ObjectSize::Scalar(read_bits(reader, 5, "oa_size_scalar")? as u8)))
    } else if mode == 2 {
        let x: u32 = read_bits(reader, 5, "oa_size_x")?;
        let y: u32 = read_bits(reader, 5, "oa_size_y")?;
        let z: u32 = read_bits(reader, 5, "oa_size_z")?;
        Ok(Some(ObjectSize::Extents { x: x as u8, y: y as u8, z: z as u8 }))
    } else {
        Ok(None)
    }
}

/// Screen anchoring: the screen factor and the depth factor, if anchored.
pub open spec fn screen_field(d: Seq<u8>, lim: int, p: int) -> Result<
    (Option<(u8, u8)>, int),
    ParseError,
> {
    if p + 1 > lim {
        missing("oa_screen_anchor")
    } else if !flag(d, p) {
        Ok((None, p + 1))
    } else if p + 4 > lim {
        missing("oa_screen_factor")
    } else if p + 6 > lim {
        missing("oa_depth_factor")
    } else {
        Ok((Some((field(d, p + 1, 3) as u8, field(d, p + 4, 2) as u8)), p + 6))
    }
}

fn parse_screen(reader: &mut BitReader<'_>) -> (r: Result<Option<(u8, u8)>, ParseError>)
    requires
        old(reader).wf(),
    ensures
        final(reader).wf(),
        final(reader).same_source(old(reader)),
        parsed(
            r,
            screen_field(old(reader).data(), old(reader).limit(), old(reader).pos()),
            final(reader).pos(),
        ),
{
    if !read_bit(reader, "oa_screen_anchor")? {
        return Ok(None);
    }
    let screen: u32 = read_bits(reader, 3, "oa_screen_factor")?;
    let depth: u32 = read_bits(reader, 2, "oa_depth_factor")?;
    Ok(Some((screen as u8, depth as u8)))
}

/// Where the object is.
pub struct Placement {
    pub differential: bool,
    pub position: ObjectPosition,
    pub distance: Option<ObjectDistance>,
}

/// Position and distance; only a later block can be differential.
pub open spec fn placement(d: Seq<u8>, lim: int, p: int, first: bool) -> Result<
    (Placement, int),
    ParseError,
> {
    if !first && p + 1 > lim {
        missing("oa_differential_position")
    } else {
        let differential = !first && flag(d, p);
        match position_field(d, lim, if first { p } else { p + 1 }, differential) {
            Err(e) => Err(e),
            Ok((position, q)) => match distance_field(d, lim, q) {
                Err(e) => Err(e),
                Ok((distance, r)) => Ok((Placement { differential, position, distance }, r)),
            },
        }
    }
}

fn parse_placement(reader: &mut BitReader<'_>, first: bool) -> (r: Result<Placement, ParseError>)
    requires
        old(reader).wf(),
    ensures
        final(reader).wf(),
        final(reader).same_source(old(reader)),
        parsed(
            r,
            placement(old(reader).data(), old(reader).limit(), old(reader).pos(), first),
            final(reader).pos(),
        ),
{
    let differential: bool = if first { false } else { read_bit(reader, "oa_differential_position")? };
    let position: ObjectPosition = parse_position(reader, differential)?;
    let distance: Option<ObjectDistance> = parse_distance(reader)?;
    Ok(Placement { differential, position, distance })
}

/// The second half of a block: where the object is and how it is rendered.
pub struct RenderInfo {
    pub status: u8,
    pub blocks: Option<u8>,
    pub placement: Option<Placement>,
    pub size: Option<ObjectSize>,
    pub screen: Option<(u8, u8)>,
}

/// The four optional groups in order, then the snap flag.
pub open spec fn render_fields(
    d: Seq<u8>,
    lim: int,
    p: int,
    status: u8,
    blocks: u8,
    first: bool,
) -> Result<(RenderInfo, int), ParseError> {
    match (if in_set(blocks, 0) {
        match placement(d, lim, p, first) {
            Err(e) => Err(e),
            Ok((v, q)) => Ok((Some(v), q)),
        }
    } else {
        Ok((None, p))
    }) {
        Err(e) => Err(e),
        Ok((place, p1)) => if in_set(blocks, 1) && p1 + 4 > lim {
            missing("oa_zone_constraints")
        } else {
            let p2 = if in_set(blocks, 1) { p1 + 4 } else { p1 };
            match (if in_set(blocks, 2) { size_field(d, lim, p2) } else { Ok((None, p2)) }) {
                Err(e) => Err(e),
                Ok((size, p3)) => match (if in_set(blocks, 3) {
                    screen_field(d, lim, p3)
                } else {
                    Ok((None, p3))
                }) {
                    Err(e) => Err(e),
                    Ok((screen, p4)) => if p4 + 1 > lim {
                        missing("oa_snap_to_channel")
                    } else {
                        Ok(
                            (
                                RenderInfo {
                                    status,
                                    blocks: Some(blocks),
                                    placement: place,
                                    size,
                                    screen,
                                },
                                p4 + 1,
                            ),
                        )
                    },
                },
            }
        },
    }
}

fn parse_render_fields(reader: &mut BitReader<'_>, status: u8, blocks: u8, first: bool) -> (r: Result<RenderInfo, ParseError>)
    requires
        old(reader).wf(),
    ensures
        final(reader).wf(),
        final(reader).same_source(old(reader)),
        parsed(
            r,
            render_fields(old(reader).data(), old(reader).limit(), old(reader).pos(), status, blocks, first),
            final(reader).pos(),
        ),
{
    let placement: Option<Placement> = if blocks % 2 == 1 {
        Some(parse_placement(reader, first)?)
    } else {
        None
    };
    if (blocks / 2) % 2 == 1 {
        skip_bits(reader, 4, "oa_zone_constraints")?;
    }
    let size: Option<ObjectSize> = if (blocks / 4) % 2 == 1 { parse_size(reader)? } else { None };
    let screen: Option<(u8, u8)> = if (blocks / 8) % 2 == 1 { parse_screen(reader)? } else { None };
    skip_bits(reader, 1, "oa_snap_to_channel")?;
    Ok(RenderInfo { status, blocks: Some(blocks), placement, size, screen })
}

/// Render info under a known status: only an odd status carries fields, and
/// status 1 carries all of them.
pub open spec fn render_body(d: Seq<u8>, lim: int, p: int, status: u8, first: bool) -> Result<
    (RenderInfo, int),
    ParseError,
> {
    if status % 2 == 0 {
        Ok((RenderInfo { status, blocks: None, placement: None, size: None, screen: None }, p))
    } else if status == 1 {
        render_fields(d, lim, p, status, 15, first)
    } else if p + 4 > lim {
        missing("oa_render_info_blocks")
    } else {
        render_fields(d, lim, p + 4, status, field(d, p, 4) as u8, first)
    }
}

/// Render info. Inactive objects, beds and speaker feeds have none.
pub open spec fn render_info(
    d: Seq<u8>,
    lim: int,
    p: int,
    inactive: bool,
    bed: bool,
    first: bool,
) -> Result<(RenderInfo, int), ParseError> {
    if inactive || bed {
        render_body(d, lim, p, 0, first)
    } else if first {
        render_body(d, lim, p, 1, first)
    } else if p + 2 > lim {
        missing("oa_render_info_status")
    } else {
        render_body(d, lim, p + 2, field(d, p, 2) as u8, first)
    }
}

fn parse_render_info(reader: &mut BitReader<'_>, inactive: bool, bed: bool, first: bool) -> (r: Result<RenderInfo, ParseError>)
    requires
        old(reader).wf(),
    ensures
        final(reader).wf(),
        final(reader).same_source(old(reader)),
        parsed(
            r,
            render_info(old(reader).data(), old(reader).limit(), old(reader).pos(), inactive, bed, first),
            final(reader).pos(),
        ),
{
    let status: u8 = if inactive || bed {
        0
    } else if first {
        1
    } else {
        read_bits(reader, 2, "oa_render_info_status")? as u8
    };
    if status % 2 == 0 {
        return Ok(
            RenderInfo { status, blocks: None, placement: None, size: None, screen: None },
        );
    }
    let blocks: u8 = if status == 1 {
        15
    } else {
        read_bits(reader, 4, "oa_render_info_blocks")? as u8
    };
    parse_render_fields(reader, status, blocks, first)
}

/// Length of the extra table data, skipped unread.
pub open spec fn additional_data(d: Seq<u8>, lim: int, p: int) -> Result<(usize, int), ParseError> {
    if p + 1 > lim {
        missing("oa_additional_table_data")
    } else if !flag(d, p) {
        Ok((0usize, p + 1))
    } else if p + 5 > lim {
        missing("oa_additional_table_bytes")
    } else {
        let bytes = field(d, p + 1, 4) + 1;
        if p + 5 + 8 * bytes > lim {
            missing("oa_additional_table_payload")
        } else {
            Ok((bytes as usize, p + 5 + 8 * bytes))
        }
    }
}

fn skip_additional_data(reader: &mut BitReader<'_>) -> (r: Result<usize, ParseError>)
    requires
        old(reader).wf(),
    ensures
        final(reader).wf(),
        final(reader).same_source(old(reader)),
        parsed(
            r,
            additional_data(old(reader).data(), old(reader).limit(), old(reader).pos()),
            final(reader).pos(),
        ),
{
    if !read_bit(reader, "oa_additional_table_data")? {
        return Ok(0);
    }
    let bytes: usize = read_bits(reader, 4, "oa_additional_table_bytes")? as usize + 1;
    skip_bits(reader, bytes * 8, "oa_additional_table_payload")?;
    Ok(bytes)
}

/// The block that basic info, render info and the extra data make up.
pub open spec fn assembled(
    inactive: bool,
    bed: bool,
    basic: BasicInfo,
    render: RenderInfo,
    additional: usize,
) -> OamdObjectBlock {
    OamdObjectBlock {
        inactive,
        basic_info_status: basic.status,
        basic_info_blocks: basic.blocks,
        render_info_status: render.status,
        render_info_blocks: render.blocks,
        anchor: if bed {
            ObjectAnchor::Speaker
        } else if render.screen is Some {
            ObjectAnchor::Screen
        } else {
            ObjectAnchor::Room
        },
        gain: basic.gain,
        priority: basic.priority,
        valid_position: render.placement is Some,
        differential_position: match render.placement {
            Some(v) => v.differential,
            None => false,
        },
        position: match render.placement {
            Some(v) => Some(v.position),
            None => None,
        },
        distance: match render.placement {
            Some(v) => v.distance,
            None => None,
        },
        size: render.size,
        screen_factor: match render.screen {
            Some(v) => Some(v.0),
            None => None,
        },
        depth_factor: match render.screen {
            Some(v) => Some(v.1),
            None => None,
        },
        additional_data_bytes: additional,
    }
}

/// One object in one block.
#[verifier::opaque]
pub open spec fn object_block(d: Seq<u8>, lim: int, p: int, first: bool, bed: bool) -> Result<
    (OamdObjectBlock, int),
    ParseError,
> {
    if p + 1 > lim {
        missing("oa_object_inactive")
    } else {
        let inactive = flag(d, p);
        match basic_info(d, lim, p + 1, inactive, first) {
            Err(e) => Err(e),
            Ok((basic, p1)) => match render_info(d, lim, p1, inactive, bed, first) {
                Err(e) => Err(e),
                Ok((render, p2)) => match additional_data(d, lim, p2) {
                    Err(e) => Err(e),
                    Ok((bytes, p3)) => Ok((assembled(inactive, bed, basic, render, bytes), p3)),
                },
            },
        }
    }
}

/// Parse one object in block `block_index`; `bed_or_isf_object` tells that the
/// object is a bed channel or an intermediate spatial format feed.
pub fn parse_oamd_object_block(reader: &mut BitReader<'_>, block_index: usize, bed_or_isf_object: bool) -> (r: Result<OamdObjectBlock, ParseError>)
    requires
        old(reader).wf(),
    ensures
        final(reader).wf(),
        final(reader).same_source(old(reader)),
        parsed(
            r,
            object_block(old(reader).data(), old(reader).limit(), old(reader).pos(), block_index == 0, bed_or_isf_object),
            final(reader).pos(),
        ),
{
    reveal(object_block);
    let first: bool = block_index == 0;
    let inactive: bool = read_bit(reader, "oa_object_inactive")?;
    let basic: BasicInfo = parse_basic_info(reader, inactive, first)?;
    let render: RenderInfo = parse_render_info(reader, inactive, bed_or_isf_object, first)?;
    let additional_data_bytes: usize = skip_additional_data(reader)?;
    let anchor: ObjectAnchor = if bed_or_isf_object {
        ObjectAnchor::Speaker
    } else if render.screen.is_some() {
        ObjectAnchor::Screen
    } else {
        ObjectAnchor::Room
    };
    let mut block = OamdObjectBlock {
        inactive,
        basic_info_status: basic.status,
        basic_info_blocks: basic.blocks,
        render_info_status: render.status,
        render_info_blocks: render.blocks,
        anchor,
        gain: basic.gain,
        priority: basic.priority,
        valid_position: false,
        differential_position: false,
        position: None,
        distance: None,
        size: render.size,
        screen_factor: None,
        depth_factor: None,
        additional_data_bytes,
    };
    if let Some(place) = render.placement {
        block.valid_position = true;
        block.differential_position = place.differential;
        block.position = Some(place.position);
        block.distance = place.distance;
    }
    if let Some((screen, depth)) = render.screen {
        block.screen_factor = Some(screen);
        block.depth_factor = Some(depth);
    }
    Ok(block)
}

} // verus!
