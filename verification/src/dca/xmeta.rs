//! Private spatial-extension metadata: how each extension waveform was mixed
//! into the compatible bed, and where the objects sit.
//!
//! The standard profile states the fold in its type-2 matrix; the alternate
//! profiles state the height fold in their type-3 rows and each object's fold
//! in the sparse reference rows attached to its position record. A form that
//! is not known is an error, never a guess: a frame whose metadata does not
//! parse has no usable fold, and the bed stays as authored.

use vstd::prelude::*;
use vstd::slice::slice_subrange;
use crate::bits::{code_space, field, has_bit, test_bit, BitReader};
use crate::grammar::{lemma_repeat_err, parsed, parsed_view, repeat};
use super::alternate::{
    alternate_protected_prefix, protected_prefix, DCA_SYNCWORD_XLL_X_ALT_D0,
    DCA_SYNCWORD_XLL_X_ALT_D1, DCA_SYNCWORD_XLL_X_ALT_D3, DCA_SYNCWORD_XLL_X_ALT_D4,
};
use super::crc::{crc16_ccitt, crc_of};
use super::spatial::SpatialChannel;
use super::xll_x::DCA_SYNCWORD_XLL_X;

verus! {

/// Most extension waveforms any known profile carries.
pub const MAX_SOURCES: usize = 9;
/// Channels of the compatible reference layout the folds are expressed over.
pub const REFERENCE_CHANNELS: usize = 8;
/// The 7.1 reference mask every seven-channel profile uses.
pub const REFERENCE_MASK_7_1: u32 = 0x084b;
/// The 5.1 reference mask of the object-only variant.
pub const REFERENCE_MASK_5_1: u32 = 0x000f;
pub const HEIGHT_MASK: u32 = 0x8020;
pub const FIXED_HEIGHT_COUNT: usize = 4;
/// Columns of the widest full layout.
pub const MAX_FULL_COLUMNS: usize = 12;
pub const TYPE3_CONTROL: u32 = 0x3fa;
pub const UNITY_CODE: u32 = 61;
pub const CENTRE_HEIGHT_MASK: u32 = 0x80;
/// Speakers a fold can address.
pub const FOLD_SPEAKERS: usize = 16;

/// Speaker behind each column of the 7.1 reference layout.
pub const REFERENCE_SPEAKERS: [u8; 8] = [0, 1, 2, 5, 7, 8, 3, 4];

#[derive(Clone, Copy, Debug, PartialEq, Eq)]
pub enum XMetadataError {
    /// The payload ends before the metadata does.
    Truncated,
    /// A form this reader has no verified interpretation for.
    Unsupported(&'static str),
    /// A CRC, boundary or padding check failed.
    Invalid(&'static str),
}

/// Speakers that one bit of a reference mask stands for.
pub open spec fn mask_members(bit: int) -> Option<Seq<u8>> {
    if bit == 0 { Some(seq![0u8]) }
    else if bit == 1 { Some(seq![1u8, 2u8]) }
    else if bit == 2 { Some(seq![3u8, 4u8]) }
    else if bit == 3 { Some(seq![5u8]) }
    else if bit == 4 { Some(seq![6u8]) }
    else if bit == 6 { Some(seq![7u8, 8u8]) }
    else if bit == 11 { Some(seq![3u8, 4u8]) }
    else { None }
}

/// Speakers of the first `n` bits of a mask, unless one of them is unknown.
pub open spec fn mask_speakers(mask: u32, n: int) -> Option<Seq<u8>>
    decreases n,
{
    if n <= 0 {
        Some(Seq::empty())
    } else {
        match mask_speakers(mask, n - 1) {
            None => None,
            Some(speakers) => if !has_bit(mask, n - 1) {
                Some(speakers)
            } else {
                match mask_members(n - 1) {
                    None => None,
                    Some(members) => Some(speakers + members),
                }
            },
        }
    }
}

/// Speaker behind each column of a reference mask, in mask bit order. A mask
/// with an unknown speaker bit, with both surround pairs, with none or with
/// more than eight columns has no layout.
pub open spec fn reference_columns(mask: u32) -> Option<Seq<u8>> {
    match mask_speakers(mask, 32) {
        None => None,
        Some(speakers) => if has_bit(mask, 2) && has_bit(mask, 11) {
            None
        } else if speakers.len() == 0 || speakers.len() > 8 {
            None
        } else {
            Some(speakers)
        },
    }
}

proof fn lemma_mask_speakers_grow(mask: u32, k: int, n: int)
    requires
        0 <= k <= n,
    ensures
        mask_speakers(mask, k) is None ==> mask_speakers(mask, n) is None,
        mask_speakers(mask, n) matches Some(s) ==> mask_speakers(mask, k) matches Some(t)
            && t.len() <= s.len(),
    decreases n - k,
{
    if k < n {
        lemma_mask_speakers_grow(mask, k, n - 1);
    }
}

proof fn lemma_speakers_small(mask: u32, n: int)
    ensures
        mask_speakers(mask, n) matches Some(s) ==> forall|i: int|
            0 <= i < s.len() ==> #[trigger] s[i] < 16,
    decreases n,
{
    if n > 0 {
        lemma_speakers_small(mask, n - 1);
    }
}

fn push_members(speakers: &mut Vec<u8>, bit: u32) -> (r: bool)
    ensures
        r == (mask_members(bit as int) is Some),
        r ==> final(speakers)@ =~= old(speakers)@ + mask_members(bit as int)->0,
        !r ==> final(speakers)@ == old(speakers)@,
{
    match bit {
        0 => {
            speakers.push(0);
            true
        },
        1 => {
            speakers.push(1);
            speakers.push(2);
            true
        },
        2 => {
            speakers.push(3);
            speakers.push(4);
            true
        },
        3 => {
            speakers.push(5);
            true
        },
        4 => {
            speakers.push(6);
            true
        },
        6 => {
            speakers.push(7);
            speakers.push(8);
            true
        },
        11 => {
            speakers.push(3);
            speakers.push(4);
            true
        },
        _ => false,
    }
}

pub fn reference_speakers(mask: u32) -> (r: Option<Vec<u8>>)
    ensures
        match r {
            Some(v) => reference_columns(mask) == Some(v@),
            None => reference_columns(mask) is None,
        },
        r matches Some(v) ==> v@.len() <= 8 && forall|i: int|
            0 <= i < v@.len() ==> #[trigger] v@[i] < 16,
{
    proof {
        lemma_speakers_small(mask, 32);
    }
    if test_bit(mask, 2) && test_bit(mask, 11) {
        return None;
    }
    let mut speakers: Vec<u8> = Vec::new();
    let mut bit: u32 = 0;
    while bit < 32
        invariant
            bit <= 32,
            mask_speakers(mask, bit as int) == Some(speakers@),
        decreases 32 - bit,
    {
        if test_bit(mask, bit) {
            if !push_members(&mut speakers, bit) {
                proof {
                    lemma_mask_speakers_grow(mask, bit + 1, 32);
                }
                return None;
            }
        }
        bit = bit + 1;
    }
    if speakers.len() == 0 || speakers.len() > REFERENCE_CHANNELS {
        return None;
    }
    Some(speakers)
}

/// A column of a full output layout: the reference column it stands for, or
/// the height feed it names.
#[derive(Clone, Copy, Debug, PartialEq, Eq, Structural)]
pub enum Column {
    Reference(usize),
    Height(SpatialChannel),
}

/// Reference columns that one bit of an output mask adds.
pub open spec fn reference_width(bit: int) -> int {
    if bit == 0 || bit == 3 || bit == 4 { 1 }
    else if bit == 1 || bit == 2 || bit == 6 || bit == 11 { 2 }
    else { 0 }
}

/// Columns that one bit of an output mask adds, after `next` reference
/// columns.
pub open spec fn bit_columns(bit: int, next: int) -> Option<Seq<Column>> {
    if bit == 5 {
        Some(
            seq![
                Column::Height(SpatialChannel::TopFrontLeft),
                Column::Height(SpatialChannel::TopFrontRight),
            ],
        )
    } else if bit == 15 {
        Some(
            seq![
                Column::Height(SpatialChannel::TopBackLeft),
                Column::Height(SpatialChannel::TopBackRight),
            ],
        )
    } else if reference_width(bit) == 1 {
        Some(seq![Column::Reference(next as usize)])
    } else if reference_width(bit) == 2 {
        Some(seq![Column::Reference(next as usize), Column::Reference((next + 1) as usize)])
    } else {
        None
    }
}

/// Reference columns of the first `n` bits of an output mask.
pub open spec fn reference_count(mask: u32, n: int) -> int
    decreases n,
{
    if n <= 0 {
        0
    } else {
        reference_count(mask, n - 1) + if has_bit(mask, n - 1) { reference_width(n - 1) } else { 0 }
    }
}

/// Columns of the first `n` bits of an output mask.
pub open spec fn mask_columns(mask: u32, n: int) -> Option<Seq<Column>>
    decreases n,
{
    if n <= 0 {
        Some(Seq::empty())
    } else {
        match mask_columns(mask, n - 1) {
            None => None,
            Some(columns) => if !has_bit(mask, n - 1) {
                Some(columns)
            } else {
                match bit_columns(n - 1, reference_count(mask, n - 1)) {
                    None => None,
                    Some(more) => Some(columns + more),
                }
            },
        }
    }
}

/// Columns of a full output layout, at most twelve.
pub open spec fn output_columns(mask: u32) -> Option<Seq<Column>> {
    match mask_columns(mask, 16) {
        None => None,
        Some(columns) => if columns.len() > 12 { None } else { Some(columns) },
    }
}

proof fn lemma_mask_columns_grow(mask: u32, k: int, n: int)
    requires
        0 <= k <= n,
    ensures
        mask_columns(mask, k) is None ==> mask_columns(mask, n) is None,
        mask_columns(mask, n) matches Some(s) ==> mask_columns(mask, k) matches Some(t) && t.len()
            <= s.len(),
    decreases n - k,
{
    if k < n {
        lemma_mask_columns_grow(mask, k, n - 1);
    }
}

pub fn full_columns(output_mask: u32) -> (r: Option<Vec<Column>>)
    ensures
        match r {
            Some(v) => output_columns(output_mask) == Some(v@) && v@.len() <= 12,
            None => output_columns(output_mask) is None,
        },
{
    let mut columns: Vec<Column> = Vec::new();
    let mut reference: usize = 0;
    let mut bit: u32 = 0;
    while bit < 16
        invariant
            bit <= 16,
            reference == reference_count(output_mask, bit as int),
            reference <= 2 * bit,
            mask_columns(output_mask, bit as int) == Some(columns@),
        decreases 16 - bit,
    {
        if test_bit(output_mask, bit) {
            let ghost before = columns@;
            match bit {
                5 => {
                    columns.push(Column::Height(SpatialChannel::TopFrontLeft));
                    columns.push(Column::Height(SpatialChannel::TopFrontRight));
                },
                15 => {
                    columns.push(Column::Height(SpatialChannel::TopBackLeft));
                    columns.push(Column::Height(SpatialChannel::TopBackRight));
                },
                0 | 3 | 4 => {
                    columns.push(Column::Reference(reference));
                    reference = reference + 1;
                },
                1 | 2 | 6 | 11 => {
                    columns.push(Column::Reference(reference));
                    columns.push(Column::Reference(reference + 1));
                    reference = reference + 2;
                },
                _ => {
                    proof {
                        lemma_mask_columns_grow(output_mask, bit + 1, 16);
                    }
                    return None;
                },
            }
            assert(columns@ =~= before + bit_columns(
                bit as int,
                reference_count(output_mask, bit as int),
            )->0);
        }
        bit = bit + 1;
    }
    if columns.len() > MAX_FULL_COLUMNS {
        return None;
    }
    Some(columns)
}

/// A transmitted object position in the stream's own units.
#[derive(Clone, Copy, Debug, PartialEq, Eq, Structural)]
pub struct SphericalPosition {
    /// 0 = front, negative = left, in half-degrees.
    pub azimuth_half_degrees: i16,
    /// Positive = up, in half-degrees.
    pub elevation_half_degrees: i16,
    /// Distance in 1/64 units; 64 is the reference distance.
    pub distance_64ths: u8,
}

/// The position behind a set of codes: three half-degrees per step from the
/// rear and from below, with the two side azimuths and the upper ends pinned.
pub open spec fn position_of(azimuth: int, elevation: int, distance: int) -> SphericalPosition {
    SphericalPosition {
        azimuth_half_degrees: (if azimuth == 47 {
            -220
        } else if azimuth == 193 {
            220
        } else if 3 * azimuth - 360 > 357 {
            357
        } else {
            3 * azimuth - 360
        }) as i16,
        elevation_half_degrees: (if 3 * (elevation - 60) > 180 {
            180
        } else {
            3 * (elevation - 60)
        }) as i16,
        distance_64ths: (if distance == 0 { 0 } else { distance + 1 }) as u8,
    }
}

impl SphericalPosition {
    pub fn from_codes(azimuth: u32, elevation: u32, distance: u32) -> (r: Self)
        requires
            azimuth < 256,
            elevation < 128,
            distance < 64,
        ensures
            r == position_of(azimuth as int, elevation as int, distance as int),
    {
        let straight: i16 = 3 * (azimuth as i16) - 360;
        let azimuth_half_degrees: i16 = if azimuth == 47 {
            -220
        } else if azimuth == 193 {
            220
        } else if straight > 357 {
            357
        } else {
            straight
        };
        let raised: i16 = 3 * (elevation as i16 - 60);
        let elevation_half_degrees: i16 = if raised > 180 { 180 } else { raised };
        let distance_64ths: u8 = if distance == 0 { 0 } else { (distance + 1) as u8 };
        SphericalPosition { azimuth_half_degrees, elevation_half_degrees, distance_64ths }
    }
}

/// How one extension waveform was mixed into the compatible bed.
#[derive(Clone, Copy, Debug, PartialEq, Eq)]
pub enum BedFold {
    /// Gain code of the waveform in each reference column; 0 is absent.
    Known([u8; 8]),
    /// The waveform is in the bed, but the stream does not say at which gains.
    Unknown,
}

#[derive(Clone, Copy, Debug, PartialEq, Eq, Structural)]
pub enum SourceRole {
    /// A fixed height feed.
    Height(SpatialChannel),
    /// An object at a transmitted position.
    Object { position: SphericalPosition, centre_height_alternative: bool },
}

#[derive(Clone, Copy, Debug, PartialEq, Eq)]
pub struct SourceMetadata {
    pub role: SourceRole,
    pub fold: BedFold,
}

/// [`SourceMetadata`] with its fold as a sequence; `None` is an unknown fold.
pub struct SourceModel {
    pub role: SourceRole,
    pub fold: Option<Seq<u8>>,
}

impl View for SourceMetadata {
    type V = SourceModel;

    open spec fn view(&self) -> SourceModel {
        SourceModel {
            role: self.role,
            fold: match self.fold {
                BedFold::Known(codes) => Some(codes@),
                BedFold::Unknown => None,
            },
        }
    }
}

fn read(b: &mut BitReader<'_>, width: usize) -> (r: Result<u32, XMetadataError>)
    requires
        old(b).wf(),
        1 <= width <= 32,
    ensures
        final(b).wf(),
        final(b).same_source(old(b)),
        match r {
            Ok(v) => {
                &&& old(b).has(width as int)
                &&& v as int == field(old(b).data(), old(b).pos(), width as int)
                &&& (v as int) < code_space(width as int)
                &&& final(b).pos() == old(b).pos() + width
            },
            Err(e) => !old(b).has(width as int) && e == XMetadataError::Truncated,
        },
{
    match b.read_bits(width) {
        Some(v) => Ok(v),
        None => Err(XMetadataError::Truncated),
    }
}

fn expect(b: &mut BitReader<'_>, width: usize, expected: u32, name: &'static str) -> (r: Result<
    (),
    XMetadataError,
>)
    requires
        old(b).wf(),
        1 <= width <= 32,
    ensures
        final(b).wf(),
        final(b).same_source(old(b)),
        match r {
            Ok(_) => {
                &&& old(b).has(width as int)
                &&& field(old(b).data(), old(b).pos(), width as int) == expected
                &&& final(b).pos() == old(b).pos() + width
            },
            Err(e) => if !old(b).has(width as int) {
                e == XMetadataError::Truncated
            } else {
                &&& field(old(b).data(), old(b).pos(), width as int) != expected
                &&& e == XMetadataError::Unsupported(name)
            },
        },
{
    let v: u32 = read(b, width)?;
    if v != expected {
        return Err(XMetadataError::Unsupported(name));
    }
    Ok(())
}

/// Zero padding up to the next byte.
pub open spec fn padding(d: Seq<u8>, lim: int, p: int, name: &'static str) -> Result<
    ((), int),
    XMetadataError,
> {
    let n = (8 - p % 8) % 8;
    if n == 0 {
        Ok(((), p))
    } else if p + n > lim {
        Err(XMetadataError::Truncated)
    } else if field(d, p, n) != 0 {
        Err(XMetadataError::Invalid(name))
    } else {
        Ok(((), p + n))
    }
}

fn align(b: &mut BitReader<'_>, name: &'static str) -> (r: Result<(), XMetadataError>)
    requires
        old(b).wf(),
    ensures
        final(b).wf(),
        final(b).same_source(old(b)),
        parsed(
            r,
            padding(old(b).data(), old(b).limit(), old(b).pos(), name),
            final(b).pos(),
        ),
{
    let n: usize = (8 - b.position() % 8) % 8;
    if n == 0 {
        return Ok(());
    }
    if read(b, n)? != 0 {
        return Err(XMetadataError::Invalid(name));
    }
    Ok(())
}

/// The fixed fields that open a layout element.
pub open spec fn layout_opening(d: Seq<u8>, lim: int, p: int, kind: int) -> Result<
    ((), int),
    XMetadataError,
> {
    if p + 8 > lim {
        Err(XMetadataError::Truncated)
    } else if field(d, p, 8) != kind {
        Err(XMetadataError::Unsupported("element type"))
    } else if p + 16 > lim {
        Err(XMetadataError::Truncated)
    } else if field(d, p + 8, 8) != 0 {
        Err(XMetadataError::Unsupported("element header byte"))
    } else if p + 17 > lim {
        Err(XMetadataError::Truncated)
    } else if field(d, p + 16, 1) != 0 {
        Err(XMetadataError::Unsupported("header flag"))
    } else if p + 21 > lim {
        Err(XMetadataError::Truncated)
    } else if field(d, p + 17, 4) != 1 {
        Err(XMetadataError::Unsupported("header field A"))
    } else if p + 25 > lim {
        Err(XMetadataError::Truncated)
    } else if field(d, p + 21, 4) != (if kind == 3 { 1int } else { 0int }) {
        Err(XMetadataError::Unsupported("header field B"))
    } else {
        Ok(((), p + 25))
    }
}

fn open_layout(b: &mut BitReader<'_>, kind: u32) -> (r: Result<(), XMetadataError>)
    requires
        old(b).wf(),
    ensures
        final(b).wf(),
        final(b).same_source(old(b)),
        parsed(
            r,
            layout_opening(old(b).data(), old(b).limit(), old(b).pos(), kind as int),
            final(b).pos(),
        ),
{
    expect(b, 8, kind, "element type")?;
    expect(b, 8, 0, "element header byte")?;
    expect(b, 1, 0, "header flag")?;
    expect(b, 4, 1, "header field A")?;
    expect(b, 4, if kind == 3 { 1 } else { 0 }, "header field B")?;
    Ok(())
}

/// A speaker mask in a whole number of nibbles.
pub open spec fn mask_field(d: Seq<u8>, lim: int, p: int) -> Result<(u32, int), XMetadataError> {
    if p + 3 > lim {
        Err(XMetadataError::Truncated)
    } else {
        let width = 4 * (field(d, p, 3) + 1);
        if p + 3 + width > lim {
            Err(XMetadataError::Truncated)
        } else {
            Ok((field(d, p + 3, width) as u32, p + 3 + width))
        }
    }
}

fn read_mask(b: &mut BitReader<'_>) -> (r: Result<u32, XMetadataError>)
    requires
        old(b).wf(),
    ensures
        final(b).wf(),
        final(b).same_source(old(b)),
        parsed(
            r,
            mask_field(old(b).data(), old(b).limit(), old(b).pos()),
            final(b).pos(),
        ),
{
    let width: usize = 4 * (read(b, 3)? as usize + 1);
    read(b, width)
}

/// The reference mask: stated, or inherited.
pub open spec fn reference_field(d: Seq<u8>, lim: int, p: int, inherited: u32) -> Result<
    (u32, int),
    XMetadataError,
> {
    if p + 1 <= lim && field(d, p, 1) != 0 {
        if p + 1 > lim {
            Err(XMetadataError::Truncated)
        } else if p + 2 > lim {
            Err(XMetadataError::Truncated)
        } else if field(d, p + 1, 1) != 0 {
            Err(XMetadataError::Unsupported("reference flag"))
        } else if p + 3 > lim {
            Err(XMetadataError::Truncated)
        } else if field(d, p + 2, 1) != 1 {
            Err(XMetadataError::Unsupported("explicit reference mask"))
        } else if p + 5 > lim {
            Err(XMetadataError::Truncated)
        } else if field(d, p + 3, 2) != 0 {
            Err(XMetadataError::Unsupported("reference mode"))
        } else if p + 8 > lim {
            Err(XMetadataError::Truncated)
        } else if field(d, p + 5, 3) != 0 {
            Err(XMetadataError::Unsupported("reference field"))
        } else {
            mask_field(d, lim, p + 8)
        }
    } else {
        if p + 1 > lim {
            Err(XMetadataError::Truncated)
        } else if p + 2 > lim {
            Err(XMetadataError::Truncated)
        } else if field(d, p + 1, 1) != 0 {
            Err(XMetadataError::Unsupported("implicit reference mask"))
        } else if p + 6 > lim {
            Err(XMetadataError::Truncated)
        } else if field(d, p + 2, 4) != 0 {
            Err(XMetadataError::Unsupported("implicit reference field"))
        } else {
            Ok((inherited, p + 6))
        }
    }
}

fn read_reference(b: &mut BitReader<'_>, inherited: u32) -> (r: Result<u32, XMetadataError>)
    requires
        old(b).wf(),
    ensures
        final(b).wf(),
        final(b).same_source(old(b)),
        parsed(
            r,
            reference_field(old(b).data(), old(b).limit(), old(b).pos(), inherited),
            final(b).pos(),
        ),
{
    if read(b, 1)? != 0 {
        expect(b, 1, 0, "reference flag")?;
        expect(b, 1, 1, "explicit reference mask")?;
        expect(b, 2, 0, "reference mode")?;
        expect(b, 3, 0, "reference field")?;
        read_mask(b)
    } else {
        expect(b, 1, 0, "implicit reference mask")?;
        expect(b, 4, 0, "implicit reference field")?;
        Ok(inherited)
    }
}

/// Unity level, then the output mask.
pub open spec fn output_field(d: Seq<u8>, lim: int, p: int) -> Result<(u32, int), XMetadataError> {
    if p + 1 > lim {
        Err(XMetadataError::Truncated)
    } else if field(d, p, 1) != 1 {
        Err(XMetadataError::Unsupported("level field present"))
    } else if p + 7 > lim {
        Err(XMetadataError::Truncated)
    } else if field(d, p + 1, 6) != 61 {
        Err(XMetadataError::Unsupported("level code"))
    } else if p + 8 > lim {
        Err(XMetadataError::Truncated)
    } else if field(d, p + 7, 1) != 0 {
        Err(XMetadataError::Unsupported("additional level"))
    } else {
        mask_field(d, lim, p + 8)
    }
}

fn read_output(b: &mut BitReader<'_>) -> (r: Result<u32, XMetadataError>)
    requires
        old(b).wf(),
    ensures
        final(b).wf(),
        final(b).same_source(old(b)),
        parsed(
            r,
            output_field(old(b).data(), old(b).limit(), old(b).pos()),
            final(b).pos(),
        ),
{
    expect(b, 1, 1, "level field present")?;
    expect(b, 6, UNITY_CODE, "level code")?;
    expect(b, 1, 0, "additional level")?;
    read_mask(b)
}

/// The header shared by the type-2 and type-3 elements: reference mask and
/// output mask, the second a superset of the first.
pub open spec fn layout_masks(d: Seq<u8>, lim: int, p: int, kind: int, inherited: u32) -> Result<
    ((u32, u32), int),
    XMetadataError,
> {
    match layout_opening(d, lim, p, kind) {
        Err(e) => Err(e),
        Ok((_, p1)) => match reference_field(d, lim, p1, inherited) {
            Err(e) => Err(e),
            Ok((reference, p2)) => match output_field(d, lim, p2) {
                Err(e) => Err(e),
                Ok((output, p3)) => if output & reference != reference {
                    Err(XMetadataError::Unsupported("non-superset layout"))
                } else {
                    Ok(((reference, output), p3))
                },
            },
        },
    }
}

fn layout_header(b: &mut BitReader<'_>, kind: u32, inherited: u32) -> (r: Result<(u32, u32), XMetadataError>)
    requires
        old(b).wf(),
    ensures
        final(b).wf(),
        final(b).same_source(old(b)),
        parsed(
            r,
            layout_masks(old(b).data(), old(b).limit(), old(b).pos(), kind as int, inherited),
            final(b).pos(),
        ),
{
    open_layout(b, kind)?;
    let reference_mask: u32 = read_reference(b, inherited)?;
    let output_mask: u32 = read_output(b)?;
    if output_mask & reference_mask != reference_mask {
        return Err(XMetadataError::Unsupported("non-superset layout"));
    }
    Ok((reference_mask, output_mask))
}

/// A six-bit gain code with a known meaning.
pub open spec fn gain_field(d: Seq<u8>, lim: int, p: int, name: &'static str) -> Result<
    (u8, int),
    XMetadataError,
> {
    if p + 6 > lim {
        Err(XMetadataError::Truncated)
    } else if !(1 <= field(d, p, 6) <= 61) {
        Err(XMetadataError::Unsupported(name))
    } else {
        Ok((field(d, p, 6) as u8, p + 6))
    }
}

fn read_gain(b: &mut BitReader<'_>, name: &'static str) -> (r: Result<u8, XMetadataError>)
    requires
        old(b).wf(),
    ensures
        final(b).wf(),
        final(b).same_source(old(b)),
        parsed(
            r,
            gain_field(old(b).data(), old(b).limit(), old(b).pos(), name),
            final(b).pos(),
        ),
{
    let code: u32 = read(b, 6)?;
    if code < 1 || code > UNITY_CODE {
        return Err(XMetadataError::Unsupported(name));
    }
    Ok(code as u8)
}

pub open spec fn gain_step(d: Seq<u8>, lim: int, mask: u32) -> spec_fn(int, int) -> Result<
    (u8, int),
    XMetadataError,
> {
    |i: int, q: int| if has_bit(mask, i) { gain_field(d, lim, q, "gain code") } else { Ok((0u8, q)) }
}

/// Codes widened to all eight reference columns.
pub open spec fn widened(codes: Seq<u8>) -> Seq<u8> {
    Seq::new(8, |i: int| if i < codes.len() { codes[i] } else { 0u8 })
}

/// One gain code for each column that `mask` sets, of the first `columns`.
pub open spec fn gain_row(d: Seq<u8>, lim: int, p: int, mask: u32, columns: int) -> Result<
    (Seq<u8>, int),
    XMetadataError,
> {
    match repeat(gain_step(d, lim, mask), p, columns) {
        Err(e) => Err(e),
        Ok((codes, q)) => Ok((widened(codes), q)),
    }
}

fn sparse_row(b: &mut BitReader<'_>, mask: u32, columns: usize) -> (r: Result<[u8; 8], XMetadataError>)
    requires
        old(b).wf(),
        columns <= 8,
    ensures
        final(b).wf(),
        final(b).same_source(old(b)),
        parsed_view(
            r,
            gain_row(old(b).data(), old(b).limit(), old(b).pos(), mask, columns as int),
            final(b).pos(),
        ),
{
    let ghost step = gain_step(b.data(), b.limit(), mask);
    let ghost p = b.pos();
    let ghost mut codes: Seq<u8> = Seq::empty();
    let mut row: [u8; 8] = [0; 8];
    let mut column: usize = 0;
    while column < columns
        invariant
            column <= columns <= 8,
            b.wf(),
            b.same_source(old(b)),
            p == old(b).pos(),
            step == gain_step(b.data(), b.limit(), mask),
            codes.len() == column,
            row@ =~= widened(codes),
            repeat(step, p, column as int) == Ok::<(Seq<u8>, int), XMetadataError>((codes, b.pos())),
        decreases columns - column,
    {
        let mut code: u8 = 0;
        if test_bit(mask, column as u32) {
            match read_gain(b, "gain code") {
                Ok(v) => {
                    code = v;
                },
                Err(e) => {
                    proof {
                        lemma_repeat_err(step, p, column + 1, columns as int);
                    }
                    return Err(e);
                },
            }
        }
        row[column] = code;
        proof {
            codes = codes.push(code);
        }
        column = column + 1;
    }
    Ok(row)
}


/// [`SourceMetadata`] slots over models.
pub open spec fn slots(sources: Seq<Option<SourceMetadata>>) -> Seq<Option<SourceModel>> {
    Seq::new(
        sources.len(),
        |i: int|
            match sources[i] {
                Some(source) => Some(source@),
                None => None,
            },
    )
}

/// Nine empty slots.
pub open spec fn no_sources() -> Seq<Option<SourceModel>> {
    Seq::new(9, |i: int| None)
}

/// One frame's metadata for every extension waveform, in waveform order, with
/// the reference layout its folds are expressed over.
#[derive(Clone, Debug, PartialEq, Eq)]
pub struct XMetadata {
    sources: [Option<SourceMetadata>; 9],
    count: usize,
    speakers: Vec<u8>,
}

/// [`XMetadata`] over models.
pub struct XMetadataModel {
    pub sources: Seq<Option<SourceModel>>,
    pub count: usize,
    pub speakers: Seq<u8>,
}

impl View for XMetadata {
    type V = XMetadataModel;

    closed spec fn view(&self) -> XMetadataModel {
        XMetadataModel {
            sources: slots(self.sources@),
            count: self.count,
            speakers: self.speakers@,
        }
    }
}

/// Height named by each row of the standard matrix.
pub open spec fn standard_height(i: int) -> SpatialChannel {
    if i == 0 {
        SpatialChannel::TopFrontLeft
    } else if i == 1 {
        SpatialChannel::TopFrontRight
    } else if i == 2 {
        SpatialChannel::TopBackLeft
    } else {
        SpatialChannel::TopBackRight
    }
}

fn standard_height_at(i: usize) -> (r: SpatialChannel)
    ensures
        r == standard_height(i as int),
{
    match i {
        0 => SpatialChannel::TopFrontLeft,
        1 => SpatialChannel::TopFrontRight,
        2 => SpatialChannel::TopBackLeft,
        _ => SpatialChannel::TopBackRight,
    }
}

/// The fixed fields before the matrix rows.
pub open spec fn matrix_opening(d: Seq<u8>, lim: int, p: int) -> Result<((), int), XMetadataError> {
    if p + 5 > lim {
        Err(XMetadataError::Truncated)
    } else if field(d, p, 5) != 2 {
        Err(XMetadataError::Unsupported("matrix header field"))
    } else if p + 11 > lim {
        Err(XMetadataError::Truncated)
    } else if field(d, p + 5, 6) != 0 {
        Err(XMetadataError::Unsupported("matrix header value"))
    } else if p + 12 > lim {
        Err(XMetadataError::Truncated)
    } else if field(d, p + 11, 1) != 1 {
        Err(XMetadataError::Unsupported("matrix mode"))
    } else if p + 13 > lim {
        Err(XMetadataError::Truncated)
    } else if field(d, p + 12, 1) != 0 {
        Err(XMetadataError::Unsupported("optional matrix parameters"))
    } else if p + 14 > lim {
        Err(XMetadataError::Truncated)
    } else if field(d, p + 13, 1) != 1 {
        Err(XMetadataError::Unsupported("inline matrix flag"))
    } else if p + 20 > lim {
        Err(XMetadataError::Truncated)
    } else if field(d, p + 14, 6) != 61 {
        Err(XMetadataError::Unsupported("matrix scale"))
    } else if p + 21 > lim {
        Err(XMetadataError::Truncated)
    } else if field(d, p + 20, 1) != 0 {
        Err(XMetadataError::Unsupported("additional scales"))
    } else {
        Ok(((), p + 21))
    }
}

fn open_matrix(b: &mut BitReader<'_>) -> (r: Result<(), XMetadataError>)
    requires
        old(b).wf(),
    ensures
        final(b).wf(),
        final(b).same_source(old(b)),
        parsed(
            r,
            matrix_opening(old(b).data(), old(b).limit(), old(b).pos()),
            final(b).pos(),
        ),
{
    expect(b, 5, 2, "matrix header field")?;
    expect(b, 6, 0, "matrix header value")?;
    expect(b, 1, 1, "matrix mode")?;
    expect(b, 1, 0, "optional matrix parameters")?;
    expect(b, 1, 1, "inline matrix flag")?;
    expect(b, 6, UNITY_CODE, "matrix scale")?;
    expect(b, 1, 0, "additional scales")?;
    Ok(())
}

/// One row of the standard matrix: where height `i` was folded.
pub open spec fn matrix_row(d: Seq<u8>, lim: int, p: int, i: int) -> Result<
    (SourceModel, int),
    XMetadataError,
> {
    if p + 8 > lim {
        Err(XMetadataError::Truncated)
    } else if field(d, p, 8) == 0 {
        Err(XMetadataError::Unsupported("empty matrix row"))
    } else {
        match gain_row(d, lim, p + 8, field(d, p, 8) as u32, 8) {
            Err(e) => Err(e),
            Ok((codes, q)) => Ok(
                (
                    SourceModel {
                        role: SourceRole::Height(standard_height(i)),
                        fold: Some(codes),
                    },
                    q,
                ),
            ),
        }
    }
}

fn parse_matrix_row(b: &mut BitReader<'_>, i: usize) -> (r: Result<SourceMetadata, XMetadataError>)
    requires
        old(b).wf(),
    ensures
        final(b).wf(),
        final(b).same_source(old(b)),
        parsed_view(
            r,
            matrix_row(old(b).data(), old(b).limit(), old(b).pos(), i as int),
            final(b).pos(),
        ),
{
    let mask: u32 = read(b, 8)?;
    if mask == 0 {
        return Err(XMetadataError::Unsupported("empty matrix row"));
    }
    let codes: [u8; 8] = sparse_row(b, mask, 8)?;
    Ok(
        SourceMetadata {
            role: SourceRole::Height(standard_height_at(i)),
            fold: BedFold::Known(codes),
        },
    )
}

pub open spec fn matrix_step(d: Seq<u8>, lim: int) -> spec_fn(int, int) -> Result<
    (SourceModel, int),
    XMetadataError,
> {
    |i: int, q: int| matrix_row(d, lim, q, i)
}

/// Slots with `items` placed from slot `at` on.
pub open spec fn placed_from(
    base: Seq<Option<SourceModel>>,
    at: int,
    items: Seq<SourceModel>,
) -> Seq<Option<SourceModel>> {
    Seq::new(
        base.len(),
        |i: int| if at <= i < at + items.len() { Some(items[i - at]) } else { base[i] },
    )
}

fn parse_matrix_rows(b: &mut BitReader<'_>, sources: &mut [Option<SourceMetadata>; 9]) -> (r: Result<
    (),
    XMetadataError,
>)
    requires
        old(b).wf(),
    ensures
        final(b).wf(),
        final(b).same_source(old(b)),
        match r {
            Ok(_) => repeat(matrix_step(old(b).data(), old(b).limit()), old(b).pos(), 4) matches Ok(
                (items, q),
            ) && q == final(b).pos() && slots(final(sources)@) =~= placed_from(
                slots(old(sources)@),
                0,
                items,
            ),
            Err(e) => repeat(matrix_step(old(b).data(), old(b).limit()), old(b).pos(), 4) == Err::<
                (Seq<SourceModel>, int),
                XMetadataError,
            >(e),
        },
{
    let ghost step = matrix_step(b.data(), b.limit());
    let ghost p = b.pos();
    let ghost mut items: Seq<SourceModel> = Seq::empty();
    let mut i: usize = 0;
    while i < 4
        invariant
            i <= 4,
            b.wf(),
            b.same_source(old(b)),
            p == old(b).pos(),
            step == matrix_step(b.data(), b.limit()),
            items.len() == i,
            slots(sources@) =~= placed_from(slots(old(sources)@), 0, items),
            repeat(step, p, i as int) == Ok::<(Seq<SourceModel>, int), XMetadataError>(
                (items, b.pos()),
            ),
        decreases 4 - i,
    {
        match parse_matrix_row(b, i) {
            Ok(source) => {
                let ghost before = slots(sources@);
                sources[i] = Some(source);
                proof {
                    assert(slots(sources@) =~= before.update(i as int, Some(source@)));
                    items = items.push(source@);
                }
            },
            Err(e) => {
                proof {
                    lemma_repeat_err(step, p, i + 1, 4);
                }
                return Err(e);
            },
        }
        i = i + 1;
    }
    Ok(())
}

/// The standard profile's metadata, matrix and CRC checked.
pub open spec fn standard_metadata(d: Seq<u8>, source_count: int) -> Result<
    XMetadataModel,
    XMetadataError,
> {
    let lim = 8 * d.len() as int;
    if source_count != 4 {
        Err(XMetadataError::Unsupported("standard waveform count"))
    } else {
        match layout_masks(d, lim, 0, 2, REFERENCE_MASK_7_1) {
            Err(e) => Err(e),
            Ok((masks, p1)) => if masks.0 != REFERENCE_MASK_7_1 || masks.1 & !masks.0
                != HEIGHT_MASK {
                Err(XMetadataError::Unsupported("standard matrix layout"))
            } else {
                match matrix_opening(d, lim, p1) {
                    Err(e) => Err(e),
                    Ok((_, p2)) => match repeat(matrix_step(d, lim), p2, 4) {
                        Err(e) => Err(e),
                        Ok((items, p3)) => match padding(d, lim, p3, "matrix padding") {
                            Err(e) => Err(e),
                            Ok((_, p4)) => if p4 / 8 + 2 > d.len() {
                                Err(XMetadataError::Truncated)
                            } else if crc_of(d.take(p4 / 8 + 2)) != 0 {
                                Err(XMetadataError::Invalid("matrix CRC"))
                            } else {
                                Ok(
                                    XMetadataModel {
                                        sources: placed_from(no_sources(), 0, items),
                                        count: 4,
                                        speakers: REFERENCE_SPEAKERS@,
                                    },
                                )
                            },
                        },
                    },
                }
            },
        }
    }
}

/// A result that the model describes by view.
pub open spec fn describes(r: Result<XMetadata, XMetadataError>, g: Result<
    XMetadataModel,
    XMetadataError,
>) -> bool {
    match r {
        Ok(v) => g == Ok::<XMetadataModel, XMetadataError>(v@),
        Err(e) => g == Err::<XMetadataModel, XMetadataError>(e),
    }
}

fn standard_speakers() -> (r: Vec<u8>)
    ensures
        r@ =~= REFERENCE_SPEAKERS@,
{
    let mut v: Vec<u8> = Vec::new();
    let mut i: usize = 0;
    while i < 8
        invariant
            i <= 8,
            v@ =~= REFERENCE_SPEAKERS@.take(i as int),
        decreases 8 - i,
    {
        v.push(REFERENCE_SPEAKERS[i]);
        i = i + 1;
    }
    v
}

fn parse_standard(payload: &[u8], source_count: usize) -> (r: Result<XMetadata, XMetadataError>)
    requires
        8 * payload@.len() <= usize::MAX,
    ensures
        describes(r, standard_metadata(payload@, source_count as int)),
        r matches Ok(v) ==> v.wf(),
{
    if source_count != FIXED_HEIGHT_COUNT {
        return Err(XMetadataError::Unsupported("standard waveform count"));
    }
    let mut b: BitReader = BitReader::new(payload);
    let (reference_mask, output_mask) = layout_header(&mut b, 2, REFERENCE_MASK_7_1)?;
    if reference_mask != REFERENCE_MASK_7_1 || output_mask & !reference_mask != HEIGHT_MASK {
        return Err(XMetadataError::Unsupported("standard matrix layout"));
    }
    open_matrix(&mut b)?;
    let mut sources: [Option<SourceMetadata>; 9] = [None; 9];
    assert(slots(sources@) =~= no_sources());
    parse_matrix_rows(&mut b, &mut sources)?;
    align(&mut b, "matrix padding")?;
    let protected: usize = b.position() / 8 + 2;
    if protected > payload.len() {
        return Err(XMetadataError::Truncated);
    }
    assert(payload@.subrange(0, protected as int) =~= payload@.take(protected as int));
    if crc16_ccitt(slice_subrange(payload, 0, protected)) != 0 {
        return Err(XMetadataError::Invalid("matrix CRC"));
    }
    Ok(XMetadata { sources, count: FIXED_HEIGHT_COUNT, speakers: standard_speakers() })
}

/// The fixed fields before the type-3 rows.
pub open spec fn type3_opening(d: Seq<u8>, lim: int, p: int) -> Result<((), int), XMetadataError> {
    if p + 5 > lim {
        Err(XMetadataError::Truncated)
    } else if field(d, p, 5) != 2 {
        Err(XMetadataError::Unsupported("type-3 field"))
    } else if p + 11 > lim {
        Err(XMetadataError::Truncated)
    } else if field(d, p + 5, 6) != 0 {
        Err(XMetadataError::Unsupported("type-3 value"))
    } else if p + 12 > lim {
        Err(XMetadataError::Truncated)
    } else if field(d, p + 11, 1) != 1 {
        Err(XMetadataError::Unsupported("type-3 flag"))
    } else if p + 13 > lim {
        Err(XMetadataError::Truncated)
    } else if field(d, p + 12, 1) != 0 {
        Err(XMetadataError::Unsupported("type-3 option"))
    } else if p + 25 > lim {
        Err(XMetadataError::Truncated)
    } else if field(d, p + 13, 12) != TYPE3_CONTROL {
        Err(XMetadataError::Unsupported("type-3 control"))
    } else {
        Ok(((), p + 25))
    }
}

fn open_type3(b: &mut BitReader<'_>) -> (r: Result<(), XMetadataError>)
    requires
        old(b).wf(),
    ensures
        final(b).wf(),
        final(b).same_source(old(b)),
        parsed(
            r,
            type3_opening(old(b).data(), old(b).limit(), old(b).pos()),
            final(b).pos(),
        ),
{
    expect(b, 5, 2, "type-3 field")?;
    expect(b, 6, 0, "type-3 value")?;
    expect(b, 1, 1, "type-3 flag")?;
    expect(b, 1, 0, "type-3 option")?;
    expect(b, 12, TYPE3_CONTROL, "type-3 control")?;
    Ok(())
}

/// A type-3 row up to a column: the height it names so far, and its fold.
pub struct RowModel {
    pub identity: Option<SpatialChannel>,
    pub fold: Seq<u8>,
}

/// The first `n` columns of a type-3 row.
pub open spec fn type3_columns(
    d: Seq<u8>,
    lim: int,
    p: int,
    mask: u32,
    columns: Seq<Column>,
    n: int,
) -> Result<(RowModel, int), XMetadataError>
    decreases n,
{
    if n <= 0 {
        Ok((RowModel { identity: None, fold: Seq::new(8, |i: int| 0u8) }, p))
    } else {
        match type3_columns(d, lim, p, mask, columns, n - 1) {
            Err(e) => Err(e),
            Ok((row, q)) => if !has_bit(mask, n - 1) {
                Ok((row, q))
            } else if q + 6 > lim {
                Err(XMetadataError::Truncated)
            } else {
                match columns[n - 1] {
                    Column::Reference(reference) => if !(1 <= field(d, q, 6) <= 61) {
                        Err(XMetadataError::Unsupported("type-3 gain code"))
                    } else {
                        Ok(
                            (
                                RowModel {
                                    fold: row.fold.update(reference as int, field(d, q, 6) as u8),
                                    ..row
                                },
                                q + 6,
                            ),
                        )
                    },
                    Column::Height(speaker) => if row.identity is Some || field(d, q, 6) != 61 {
                        Err(XMetadataError::Unsupported("type-3 height column"))
                    } else {
                        Ok((RowModel { identity: Some(speaker), ..row }, q + 6))
                    },
                }
            },
        }
    }
}

proof fn lemma_type3_columns_err(
    d: Seq<u8>,
    lim: int,
    p: int,
    mask: u32,
    columns: Seq<Column>,
    k: int,
    n: int,
)
    requires
        k <= n,
        type3_columns(d, lim, p, mask, columns, k) is Err,
    ensures
        type3_columns(d, lim, p, mask, columns, n) == type3_columns(d, lim, p, mask, columns, k),
    decreases n - k,
{
    if k < n {
        lemma_type3_columns_err(d, lim, p, mask, columns, k, n - 1);
    }
}

/// A type-3 row: its one height column names the feed, its reference columns
/// are the feed's fold.
pub open spec fn type3_row(d: Seq<u8>, lim: int, p: int, columns: Seq<Column>) -> Result<
    (SourceModel, int),
    XMetadataError,
> {
    let n = columns.len() as int;
    if p + n > lim {
        Err(XMetadataError::Truncated)
    } else {
        match type3_columns(d, lim, p + n, field(d, p, n) as u32, columns, n) {
            Err(e) => Err(e),
            Ok((row, q)) => match row.identity {
                None => Err(XMetadataError::Unsupported("type-3 row without height")),
                Some(speaker) => Ok(
                    (SourceModel { role: SourceRole::Height(speaker), fold: Some(row.fold) }, q),
                ),
            },
        }
    }
}

/// Every reference column of a layout is one of the eight.
pub open spec fn columns_fit(columns: Seq<Column>) -> bool {
    &&& 1 <= columns.len() <= 12
    &&& forall|i: int|
        0 <= i < columns.len() ==> (#[trigger] columns[i] matches Column::Reference(reference)
            ==> reference < 8)
}

fn parse_type3_row(b: &mut BitReader<'_>, columns: &Vec<Column>) -> (r: Result<SourceMetadata, XMetadataError>)
    requires
        old(b).wf(),
        columns_fit(columns@),
    ensures
        final(b).wf(),
        final(b).same_source(old(b)),
        parsed_view(
            r,
            type3_row(old(b).data(), old(b).limit(), old(b).pos(), columns@),
            final(b).pos(),
        ),
{
    let n: usize = columns.len();
    let mask: u32 = read(b, n)?;
    let ghost p = b.pos();
    let mut identity: Option<SpatialChannel> = None;
    let mut fold: [u8; 8] = [0; 8];
    assert(fold@ =~= Seq::new(8, |i: int| 0u8));
    let mut column: usize = 0;
    while column < n
        invariant
            column <= n,
            n == columns@.len(),
            columns_fit(columns@),
            b.wf(),
            b.same_source(old(b)),
            p == old(b).pos() + n,
            old(b).has(n as int),
            mask == field(old(b).data(), old(b).pos(), n as int) as u32,
            type3_columns(b.data(), b.limit(), p, mask, columns@, column as int) == Ok::<
                (RowModel, int),
                XMetadataError,
            >((RowModel { identity, fold: fold@ }, b.pos())),
        decreases n - column,
    {
        if test_bit(mask, column as u32) {
            let code: u32 = match read(b, 6) {
                Ok(v) => v,
                Err(e) => {
                    proof {
                        lemma_type3_columns_err(
                            b.data(),
                            b.limit(),
                            p,
                            mask,
                            columns@,
                            column + 1,
                            n as int,
                        );
                    }
                    return Err(e);
                },
            };
            match columns[column] {
                Column::Reference(reference) => {
                    if code < 1 || code > UNITY_CODE {
                        proof {
                            lemma_type3_columns_err(
                                b.data(),
                                b.limit(),
                                p,
                                mask,
                                columns@,
                                column + 1,
                                n as int,
                            );
                        }
                        return Err(XMetadataError::Unsupported("type-3 gain code"));
                    }
                    let ghost before = fold@;
                    assert(columns@[column as int] matches Column::Reference(x) ==> x < 8);
                    fold[reference] = code as u8;
                    assert(fold@ =~= before.update(reference as int, code as u8));
                },
                Column::Height(speaker) => {
                    if identity.is_some() || code != UNITY_CODE {
                        proof {
                            lemma_type3_columns_err(
                                b.data(),
                                b.limit(),
                                p,
                                mask,
                                columns@,
                                column + 1,
                                n as int,
                            );
                        }
                        return Err(XMetadataError::Unsupported("type-3 height column"));
                    }
                    identity = Some(speaker);
                },
            }
        }
        column = column + 1;
    }
    match identity {
        None => Err(XMetadataError::Unsupported("type-3 row without height")),
        Some(speaker) => Ok(
            SourceMetadata { role: SourceRole::Height(speaker), fold: BedFold::Known(fold) },
        ),
    }
}

pub open spec fn type3_step(d: Seq<u8>, lim: int, columns: Seq<Column>) -> spec_fn(
    int,
    int,
) -> Result<(SourceModel, int), XMetadataError> {
    |i: int, q: int| type3_row(d, lim, q, columns)
}

/// The type-3 element over all of `d`, CRC left to the caller: four rows, one
/// per fixed height, ending exactly two bytes before the end.
pub open spec fn type3_element(d: Seq<u8>, mask: u32) -> Result<Seq<SourceModel>, XMetadataError> {
    let lim = 8 * d.len() as int;
    match layout_masks(d, lim, 0, 3, mask) {
        Err(e) => Err(e),
        Ok((masks, p1)) => if masks.0 != mask || masks.1 != mask | HEIGHT_MASK {
            Err(XMetadataError::Unsupported("type-3 layout"))
        } else {
            match output_columns(masks.1) {
                None => Err(XMetadataError::Unsupported("type-3 layout")),
                Some(columns) => match type3_opening(d, lim, p1) {
                    Err(e) => Err(e),
                    Ok((_, p2)) => match repeat(type3_step(d, lim, columns), p2, 4) {
                        Err(e) => Err(e),
                        Ok((rows, p3)) => match padding(d, lim, p3, "type-3 padding") {
                            Err(e) => Err(e),
                            Ok((_, p4)) => if p4 / 8 + 2 != d.len() {
                                Err(XMetadataError::Invalid("type-3 end"))
                            } else {
                                Ok(rows)
                            },
                        },
                    },
                },
            }
        },
    }
}

proof fn lemma_height_bits(mask: u32, i: int)
    requires
        0 <= i < 16,
    ensures
        has_bit(mask | HEIGHT_MASK, i) == (has_bit(mask, i) || i == 5 || i == 15),
{
    let n = i as u32;
    assert(n < 16 ==> ((((mask | 0x8020u32) >> n) & 1 == 1) == (((mask >> n) & 1 == 1) || n == 5 || n
        == 15))) by (bit_vector);
}

/// Adding the heights to a reference mask keeps its reference columns.
proof fn lemma_reference_count(mask: u32, n: int)
    requires
        0 <= n <= 16,
    ensures
        mask_speakers(mask, n) matches Some(s) ==> reference_count(mask | HEIGHT_MASK, n)
            == s.len(),
    decreases n,
{
    if n > 0 {
        lemma_reference_count(mask, n - 1);
        lemma_height_bits(mask, n - 1);
    }
}

proof fn lemma_columns_counted(mask: u32, n: int)
    requires
        0 <= n <= 16,
    ensures
        0 <= reference_count(mask, n) <= 2 * n,
        mask_columns(mask, n) matches Some(c) ==> forall|i: int|
            0 <= i < c.len() ==> (#[trigger] c[i] matches Column::Reference(r) ==> r
                < reference_count(mask, n)),
    decreases n,
{
    if n > 0 {
        lemma_columns_counted(mask, n - 1);
    }
}

proof fn lemma_full_columns_fit(mask: u32)
    requires
        reference_columns(mask) is Some,
    ensures
        output_columns(mask | HEIGHT_MASK) matches Some(c) ==> columns_fit(c),
{
    lemma_mask_speakers_grow(mask, 16, 32);
    lemma_reference_count(mask, 16);
    lemma_columns_counted(mask | HEIGHT_MASK, 16);
    lemma_height_bits(mask, 5);
    lemma_mask_columns_grow(mask | HEIGHT_MASK, 6, 16);
}

fn parse_type3_rows(
    b: &mut BitReader<'_>,
    columns: &Vec<Column>,
    sources: &mut [Option<SourceMetadata>; 9],
    at: usize,
) -> (r: Result<(), XMetadataError>)
    requires
        old(b).wf(),
        columns_fit(columns@),
        at + 4 <= 9,
    ensures
        final(b).wf(),
        final(b).same_source(old(b)),
        match r {
            Ok(_) => repeat(
                type3_step(old(b).data(), old(b).limit(), columns@),
                old(b).pos(),
                4,
            ) matches Ok((items, q)) && q == final(b).pos() && items.len() == 4 && slots(
                final(sources)@,
            ) =~= placed_from(slots(old(sources)@), at as int, items),
            Err(e) => repeat(type3_step(old(b).data(), old(b).limit(), columns@), old(b).pos(), 4)
                == Err::<(Seq<SourceModel>, int), XMetadataError>(e),
        },
{
    let ghost step = type3_step(b.data(), b.limit(), columns@);
    let ghost p = b.pos();
    let ghost mut items: Seq<SourceModel> = Seq::empty();
    let mut i: usize = 0;
    while i < 4
        invariant
            i <= 4,
            at + 4 <= 9,
            columns_fit(columns@),
            b.wf(),
            b.same_source(old(b)),
            p == old(b).pos(),
            step == type3_step(b.data(), b.limit(), columns@),
            items.len() == i,
            slots(sources@) =~= placed_from(slots(old(sources)@), at as int, items),
            repeat(step, p, i as int) == Ok::<(Seq<SourceModel>, int), XMetadataError>(
                (items, b.pos()),
            ),
        decreases 4 - i,
    {
        match parse_type3_row(b, columns) {
            Ok(source) => {
                let ghost before = slots(sources@);
                sources[at + i] = Some(source);
                proof {
                    assert(slots(sources@) =~= before.update(at + i, Some(source@)));
                    items = items.push(source@);
                }
            },
            Err(e) => {
                proof {
                    lemma_repeat_err(step, p, i + 1, 4);
                }
                return Err(e);
            },
        }
        i = i + 1;
    }
    Ok(())
}

fn parse_type3(
    bytes: &[u8],
    reference_mask: u32,
    sources: &mut [Option<SourceMetadata>; 9],
    at: usize,
) -> (r: Result<(), XMetadataError>)
    requires
        8 * bytes@.len() <= usize::MAX,
        reference_columns(reference_mask) is Some,
        at + 4 <= 9,
    ensures
        match r {
            Ok(_) => type3_element(bytes@, reference_mask) matches Ok(rows) && slots(
                final(sources)@,
            ) =~= placed_from(slots(old(sources)@), at as int, rows),
            Err(e) => type3_element(bytes@, reference_mask) == Err::<
                Seq<SourceModel>,
                XMetadataError,
            >(e),
        },
{
    let mut b: BitReader = BitReader::new(bytes);
    let (declared, output_mask) = layout_header(&mut b, 3, reference_mask)?;
    if declared != reference_mask || output_mask != reference_mask | HEIGHT_MASK {
        return Err(XMetadataError::Unsupported("type-3 layout"));
    }
    let columns: Vec<Column> = match full_columns(output_mask) {
        Some(v) => v,
        None => return Err(XMetadataError::Unsupported("type-3 layout")),
    };
    proof {
        lemma_full_columns_fit(reference_mask);
    }
    open_type3(&mut b)?;
    parse_type3_rows(&mut b, &columns, sources, at)?;
    align(&mut b, "type-3 padding")?;
    if b.position() / 8 + 2 != bytes.len() {
        return Err(XMetadataError::Invalid("type-3 end"));
    }
    Ok(())
}

/// The fixed fields of a type-241 element, and its object count.
pub open spec fn type241_opening(d: Seq<u8>, lim: int, p: int) -> Result<(int, int), XMetadataError> {
    if p + 8 > lim {
        Err(XMetadataError::Truncated)
    } else if field(d, p, 8) != 241 {
        Err(XMetadataError::Unsupported("type-241 header"))
    } else if p + 16 > lim {
        Err(XMetadataError::Truncated)
    } else if field(d, p + 8, 8) != 0x40 {
        Err(XMetadataError::Unsupported("type-241 header"))
    } else if p + 20 > lim {
        Err(XMetadataError::Truncated)
    } else if field(d, p + 16, 4) != 0 {
        Err(XMetadataError::Unsupported("type-241 header"))
    } else if p + 21 > lim {
        Err(XMetadataError::Truncated)
    } else if field(d, p + 20, 1) != 0 {
        Err(XMetadataError::Unsupported("type-241 header"))
    } else if p + 25 > lim {
        Err(XMetadataError::Truncated)
    } else if field(d, p + 21, 4) != 1 {
        Err(XMetadataError::Unsupported("type-241 header"))
    } else if p + 26 > lim {
        Err(XMetadataError::Truncated)
    } else if field(d, p + 25, 1) != 1 {
        Err(XMetadataError::Unsupported("type-241 header"))
    } else if p + 27 > lim {
        Err(XMetadataError::Truncated)
    } else if field(d, p + 26, 1) != 0 {
        Err(XMetadataError::Unsupported("type-241 header"))
    } else if p + 28 > lim {
        Err(XMetadataError::Truncated)
    } else if field(d, p + 27, 1) != 1 {
        Err(XMetadataError::Unsupported("type-241 header"))
    } else if p + 32 > lim {
        Err(XMetadataError::Truncated)
    } else if field(d, p + 28, 4) + 1 > 9 {
        Err(XMetadataError::Unsupported("type-241 declaration count"))
    } else if p + 33 > lim {
        Err(XMetadataError::Truncated)
    } else if field(d, p + 32, 1) != 0 {
        Err(XMetadataError::Unsupported("type-241 reference form"))
    } else if p + 34 > lim {
        Err(XMetadataError::Truncated)
    } else if field(d, p + 33, 1) != 0 {
        Err(XMetadataError::Unsupported("type-241 reference form"))
    } else if p + 35 > lim {
        Err(XMetadataError::Truncated)
    } else if field(d, p + 34, 1) != 1 {
        Err(XMetadataError::Unsupported("type-241 reference form"))
    } else if p + 36 > lim {
        Err(XMetadataError::Truncated)
    } else if field(d, p + 35, 1) != 1 {
        Err(XMetadataError::Unsupported("type-241 reference form"))
    } else if p + 38 > lim {
        Err(XMetadataError::Truncated)
    } else if field(d, p + 36, 2) != 0 {
        Err(XMetadataError::Unsupported("type-241 reference form"))
    } else if p + 41 > lim {
        Err(XMetadataError::Truncated)
    } else if field(d, p + 38, 3) != 0 {
        Err(XMetadataError::Unsupported("type-241 reference form"))
    } else {
        Ok((field(d, p + 28, 4) + 1, p + 41))
    }
}

fn open_type241(b: &mut BitReader<'_>) -> (r: Result<usize, XMetadataError>)
    requires
        old(b).wf(),
    ensures
        final(b).wf(),
        final(b).same_source(old(b)),
        match r {
            Ok(count) => type241_opening(old(b).data(), old(b).limit(), old(b).pos()) == Ok::<
                (int, int),
                XMetadataError,
            >((count as int, final(b).pos())) && 1 <= count <= 9,
            Err(e) => type241_opening(old(b).data(), old(b).limit(), old(b).pos()) == Err::<
                (int, int),
                XMetadataError,
            >(e),
        },
{
    expect(b, 8, 241, "type-241 header")?;
    expect(b, 8, 0x40, "type-241 header")?;
    expect(b, 4, 0, "type-241 header")?;
    expect(b, 1, 0, "type-241 header")?;
    expect(b, 4, 1, "type-241 header")?;
    expect(b, 1, 1, "type-241 header")?;
    expect(b, 1, 0, "type-241 header")?;
    expect(b, 1, 1, "type-241 header")?;
    let count: usize = read(b, 4)? as usize + 1;
    if count > MAX_SOURCES {
        return Err(XMetadataError::Unsupported("type-241 declaration count"));
    }
    expect(b, 1, 0, "type-241 reference form")?;
    expect(b, 1, 0, "type-241 reference form")?;
    expect(b, 1, 1, "type-241 reference form")?;
    expect(b, 1, 1, "type-241 reference form")?;
    expect(b, 2, 0, "type-241 reference form")?;
    expect(b, 3, 0, "type-241 reference form")?;
    Ok(count)
}

/// One object declaration: which object, and how its record is coded.
#[derive(Clone, Copy, PartialEq, Eq, Structural)]
pub struct Declaration {
    pub index: usize,
    pub mode: u32,
}

/// An index is among those of the declarations.
pub open spec fn declared(list: Seq<Declaration>, index: int) -> bool {
    exists|j: int| 0 <= j < list.len() && (#[trigger] list[j]).index == index
}

/// A declaration after those in `before`.
pub open spec fn declaration(d: Seq<u8>, lim: int, p: int, count: int, before: Seq<Declaration>) -> Result<
    (Declaration, int),
    XMetadataError,
> {
    if p + 1 > lim {
        Err(XMetadataError::Truncated)
    } else if field(d, p, 1) != 1 {
        Err(XMetadataError::Unsupported("inactive type-241 declaration"))
    } else if p + 3 > lim {
        Err(XMetadataError::Truncated)
    } else if field(d, p + 1, 2) != 1 && field(d, p + 1, 2) != 3 {
        Err(XMetadataError::Unsupported("type-241 declaration field"))
    } else if p + 6 > lim {
        Err(XMetadataError::Truncated)
    } else if field(d, p + 3, 3) >= count || declared(before, field(d, p + 3, 3)) {
        Err(XMetadataError::Unsupported("type-241 declaration index"))
    } else if p + 8 > lim {
        Err(XMetadataError::Truncated)
    } else if field(d, p + 6, 2) > 1 {
        Err(XMetadataError::Unsupported("type-241 declaration mode"))
    } else if p + 18 > lim {
        Err(XMetadataError::Truncated)
    } else if field(d, p + 8, 10) != 0 {
        Err(XMetadataError::Unsupported("type-241 component form"))
    } else {
        Ok(
            (
                Declaration {
                    index: field(d, p + 3, 3) as usize,
                    mode: field(d, p + 6, 2) as u32,
                },
                p + 18,
            ),
        )
    }
}

/// The first `n` of `count` declarations; no index comes twice.
pub open spec fn declarations(d: Seq<u8>, lim: int, p: int, count: int, n: int) -> Result<
    (Seq<Declaration>, int),
    XMetadataError,
>
    decreases n,
{
    if n <= 0 {
        Ok((Seq::empty(), p))
    } else {
        match declarations(d, lim, p, count, n - 1) {
            Err(e) => Err(e),
            Ok((list, q)) => match declaration(d, lim, q, count, list) {
                Err(e) => Err(e),
                Ok((next, r)) => Ok((list.push(next), r)),
            },
        }
    }
}

proof fn lemma_declarations_err(d: Seq<u8>, lim: int, p: int, count: int, k: int, n: int)
    requires
        k <= n,
        declarations(d, lim, p, count, k) is Err,
    ensures
        declarations(d, lim, p, count, n) == declarations(d, lim, p, count, k),
    decreases n - k,
{
    if k < n {
        lemma_declarations_err(d, lim, p, count, k, n - 1);
    }
}

fn is_declared(list: &Vec<Declaration>, index: usize) -> (r: bool)
    ensures
        r == declared(list@, index as int),
{
    let mut j: usize = 0;
    while j < list.len()
        invariant
            j <= list@.len(),
            forall|k: int| 0 <= k < j ==> (#[trigger] list@[k]).index != index,
        decreases list@.len() - j,
    {
        if list[j].index == index {
            return true;
        }
        j = j + 1;
    }
    false
}

fn parse_declaration(b: &mut BitReader<'_>, count: usize, before: &Vec<Declaration>) -> (r: Result<
    Declaration,
    XMetadataError,
>)
    requires
        old(b).wf(),
    ensures
        final(b).wf(),
        final(b).same_source(old(b)),
        parsed(
            r,
            declaration(old(b).data(), old(b).limit(), old(b).pos(), count as int, before@),
            final(b).pos(),
        ),
        r matches Ok(v) ==> v.index < count && v.mode <= 1,
{
    expect(b, 1, 1, "inactive type-241 declaration")?;
    let form: u32 = read(b, 2)?;
    if form != 1 && form != 3 {
        return Err(XMetadataError::Unsupported("type-241 declaration field"));
    }
    let index: usize = read(b, 3)? as usize;
    if index >= count || is_declared(before, index) {
        return Err(XMetadataError::Unsupported("type-241 declaration index"));
    }
    let mode: u32 = read(b, 2)?;
    if mode > 1 {
        return Err(XMetadataError::Unsupported("type-241 declaration mode"));
    }
    expect(b, 10, 0, "type-241 component form")?;
    Ok(Declaration { index, mode })
}

/// Every declaration names an object below `count` in a known mode.
pub open spec fn declarations_fit(list: Seq<Declaration>, count: int) -> bool {
    forall|i: int|
        0 <= i < list.len() ==> (#[trigger] list[i]).index < count && list[i].mode <= 1
}

fn parse_declarations(b: &mut BitReader<'_>, count: usize) -> (r: Result<
    Vec<Declaration>,
    XMetadataError,
>)
    requires
        old(b).wf(),
    ensures
        final(b).wf(),
        final(b).same_source(old(b)),
        parsed_view(
            r,
            declarations(old(b).data(), old(b).limit(), old(b).pos(), count as int, count as int),
            final(b).pos(),
        ),
        r matches Ok(v) ==> v@.len() == count && declarations_fit(v@, count as int),
{
    let ghost p = b.pos();
    let mut list: Vec<Declaration> = Vec::new();
    let mut i: usize = 0;
    while i < count
        invariant
            i <= count,
            b.wf(),
            b.same_source(old(b)),
            p == old(b).pos(),
            list@.len() == i,
            declarations_fit(list@, count as int),
            declarations(b.data(), b.limit(), p, count as int, i as int) == Ok::<
                (Seq<Declaration>, int),
                XMetadataError,
            >((list@, b.pos())),
        decreases count - i,
    {
        match parse_declaration(b, count, &list) {
            Ok(v) => list.push(v),
            Err(e) => {
                proof {
                    lemma_declarations_err(
                        b.data(),
                        b.limit(),
                        p,
                        count as int,
                        i + 1,
                        count as int,
                    );
                }
                return Err(e);
            },
        }
        i = i + 1;
    }
    Ok(list)
}

/// The option field that opens a record of a mode.
pub open spec fn record_options(d: Seq<u8>, lim: int, p: int, mode: u32) -> Result<
    ((), int),
    XMetadataError,
> {
    if mode == 0 {
        if p + 4 > lim {
            Err(XMetadataError::Truncated)
        } else if field(d, p, 4) != 1 {
            Err(XMetadataError::Unsupported("mode-0 record options"))
        } else {
            Ok(((), p + 4))
        }
    } else {
        if p + 3 > lim {
            Err(XMetadataError::Truncated)
        } else if field(d, p, 3) != 0 {
            Err(XMetadataError::Unsupported("type-241 record options"))
        } else {
            Ok(((), p + 3))
        }
    }
}

fn skip_record_options(b: &mut BitReader<'_>, mode: u32) -> (r: Result<(), XMetadataError>)
    requires
        old(b).wf(),
    ensures
        final(b).wf(),
        final(b).same_source(old(b)),
        parsed(
            r,
            record_options(old(b).data(), old(b).limit(), old(b).pos(), mode),
            final(b).pos(),
        ),
{
    if mode == 0 {
        expect(b, 4, 1, "mode-0 record options")
    } else {
        expect(b, 3, 0, "type-241 record options")
    }
}

/// The position inside a record.
pub open spec fn record_position(d: Seq<u8>, lim: int, p: int) -> Result<
    (SphericalPosition, int),
    XMetadataError,
> {
    if p + 7 > lim {
        Err(XMetadataError::Truncated)
    } else if field(d, p, 7) != 0x20 {
        Err(XMetadataError::Unsupported("type-241 position options"))
    } else if p + 8 > lim {
        Err(XMetadataError::Truncated)
    } else if field(d, p + 7, 1) != 1 {
        Err(XMetadataError::Unsupported("type-241 gain present"))
    } else if p + 9 > lim {
        Err(XMetadataError::Truncated)
    } else if field(d, p + 8, 1) != 1 {
        Err(XMetadataError::Unsupported("type-241 position flag"))
    } else if p + 11 > lim {
        Err(XMetadataError::Truncated)
    } else if field(d, p + 9, 2) != 0 {
        Err(XMetadataError::Unsupported("type-241 position mode"))
    } else if p + 17 > lim {
        Err(XMetadataError::Truncated)
    } else if field(d, p + 11, 6) != 61 {
        Err(XMetadataError::Unsupported("type-241 position gain"))
    } else if p + 23 > lim {
        Err(XMetadataError::Truncated)
    } else if p + 31 > lim {
        Err(XMetadataError::Truncated)
    } else if p + 38 > lim {
        Err(XMetadataError::Truncated)
    } else if p + 39 > lim {
        Err(XMetadataError::Truncated)
    } else if field(d, p + 38, 1) != 0 {
        Err(XMetadataError::Unsupported("type-241 extent"))
    } else {
        Ok((position_of(field(d, p + 23, 8), field(d, p + 31, 7), field(d, p + 17, 6)), p + 39))
    }
}

fn read_record_position(b: &mut BitReader<'_>) -> (r: Result<SphericalPosition, XMetadataError>)
    requires
        old(b).wf(),
    ensures
        final(b).wf(),
        final(b).same_source(old(b)),
        parsed(
            r,
            record_position(old(b).data(), old(b).limit(), old(b).pos()),
            final(b).pos(),
        ),
{
    expect(b, 7, 0x20, "type-241 position options")?;
    expect(b, 1, 1, "type-241 gain present")?;
    expect(b, 1, 1, "type-241 position flag")?;
    expect(b, 2, 0, "type-241 position mode")?;
    expect(b, 6, UNITY_CODE, "type-241 position gain")?;
    let distance: u32 = read(b, 6)?;
    let azimuth: u32 = read(b, 8)?;
    let elevation: u32 = read(b, 7)?;
    expect(b, 1, 0, "type-241 extent")?;
    Ok(SphericalPosition::from_codes(azimuth, elevation, distance))
}

/// A row mask over the reference columns, then its gain codes.
pub open spec fn masked_row(d: Seq<u8>, lim: int, p: int, columns: int) -> Result<
    (Seq<u8>, int),
    XMetadataError,
> {
    if p + columns > lim {
        Err(XMetadataError::Truncated)
    } else {
        gain_row(d, lim, p + columns, field(d, p, columns) as u32, columns)
    }
}

/// The fold of a record: unknown in mode 0; in mode 1 the first reference
/// row, or no contribution at all. A second row is not known.
pub open spec fn record_fold(d: Seq<u8>, lim: int, p: int, mode: u32, columns: int) -> Result<
    (Option<Seq<u8>>, int),
    XMetadataError,
> {
    if mode != 1 {
        Ok((None, p))
    } else if p + 2 > lim {
        Err(XMetadataError::Truncated)
    } else {
        match (if field(d, p, 1) != 0 {
            masked_row(d, lim, p + 2, columns)
        } else {
            Ok((widened(Seq::empty()), p + 2))
        }) {
            Err(e) => Err(e),
            Ok((codes, q)) => if field(d, p + 1, 1) != 0 {
                Err(XMetadataError::Unsupported("type-241 second reference row"))
            } else {
                Ok((Some(codes), q))
            },
        }
    }
}

/// A fold as a sequence of codes.
pub open spec fn fold_view(fold: BedFold) -> Option<Seq<u8>> {
    match fold {
        BedFold::Known(codes) => Some(codes@),
        BedFold::Unknown => None,
    }
}

fn read_record_fold(b: &mut BitReader<'_>, mode: u32, columns: usize) -> (r: Result<
    BedFold,
    XMetadataError,
>)
    requires
        old(b).wf(),
        1 <= columns <= 8,
    ensures
        final(b).wf(),
        final(b).same_source(old(b)),
        match r {
            Ok(v) => record_fold(old(b).data(), old(b).limit(), old(b).pos(), mode, columns as int)
                == Ok::<(Option<Seq<u8>>, int), XMetadataError>((fold_view(v), final(b).pos())),
            Err(e) => record_fold(old(b).data(), old(b).limit(), old(b).pos(), mode, columns as int)
                == Err::<(Option<Seq<u8>>, int), XMetadataError>(e),
        },
{
    if mode != 1 {
        return Ok(BedFold::Unknown);
    }
    let first: bool = read(b, 1)? != 0;
    let second: bool = read(b, 1)? != 0;
    let codes: [u8; 8] = if first {
        let mask: u32 = read(b, columns)?;
        sparse_row(b, mask, columns)?
    } else {
        [0; 8]
    };
    if second {
        return Err(XMetadataError::Unsupported("type-241 second reference row"));
    }
    assert(!first ==> codes@ =~= widened(Seq::empty()));
    Ok(BedFold::Known(codes))
}

/// One object record.
pub open spec fn record(d: Seq<u8>, lim: int, p: int, mode: u32, columns: int) -> Result<
    (SourceModel, int),
    XMetadataError,
> {
    match record_options(d, lim, p, mode) {
        Err(e) => Err(e),
        Ok((_, p1)) => match record_position(d, lim, p1) {
            Err(e) => Err(e),
            Ok((position, p2)) => match record_fold(d, lim, p2, mode, columns) {
                Err(e) => Err(e),
                Ok((fold, p3)) => Ok(
                    (
                        SourceModel {
                            role: SourceRole::Object { position, centre_height_alternative: false },
                            fold,
                        },
                        p3,
                    ),
                ),
            },
        },
    }
}

fn parse_record(b: &mut BitReader<'_>, mode: u32, columns: usize) -> (r: Result<SourceMetadata, XMetadataError>)
    requires
        old(b).wf(),
        1 <= columns <= 8,
    ensures
        final(b).wf(),
        final(b).same_source(old(b)),
        parsed_view(
            r,
            record(old(b).data(), old(b).limit(), old(b).pos(), mode, columns as int),
            final(b).pos(),
        ),
{
    skip_record_options(b, mode)?;
    let position: SphericalPosition = read_record_position(b)?;
    let fold: BedFold = read_record_fold(b, mode, columns)?;
    Ok(
        SourceMetadata {
            role: SourceRole::Object { position, centre_height_alternative: false },
            fold,
        },
    )
}

pub open spec fn record_step(d: Seq<u8>, lim: int, list: Seq<Declaration>, columns: int) -> spec_fn(
    int,
    int,
) -> Result<(SourceModel, int), XMetadataError> {
    |i: int, q: int| record(d, lim, q, list[i].mode, columns)
}

/// Slots after the first `n` records, each at its declared index.
pub open spec fn placed_records(list: Seq<Declaration>, records: Seq<SourceModel>, n: int) -> Seq<
    Option<SourceModel>,
>
    decreases n,
{
    if n <= 0 {
        no_sources()
    } else {
        placed_records(list, records, n - 1).update(list[n - 1].index as int, Some(records[n - 1]))
    }
}

proof fn lemma_placed_records(
    list: Seq<Declaration>,
    records: Seq<SourceModel>,
    more: Seq<SourceModel>,
    n: int,
)
    requires
        n <= records.len() <= more.len(),
        forall|i: int| 0 <= i < n ==> records[i] == more[i],
    ensures
        placed_records(list, records, n) == placed_records(list, more, n),
    decreases n,
{
    if n > 0 {
        lemma_placed_records(list, records, more, n - 1);
    }
}

fn parse_records(
    b: &mut BitReader<'_>,
    list: &Vec<Declaration>,
    columns: usize,
    sources: &mut [Option<SourceMetadata>; 9],
) -> (r: Result<(), XMetadataError>)
    requires
        old(b).wf(),
        1 <= columns <= 8,
        list@.len() <= 9,
        declarations_fit(list@, list@.len() as int),
        slots(old(sources)@) =~= no_sources(),
    ensures
        final(b).wf(),
        final(b).same_source(old(b)),
        match r {
            Ok(_) => repeat(
                record_step(old(b).data(), old(b).limit(), list@, columns as int),
                old(b).pos(),
                list@.len() as int,
            ) matches Ok((items, q)) && q == final(b).pos() && items.len() == list@.len() && slots(
                final(sources)@,
            ) =~= placed_records(list@, items, list@.len() as int),
            Err(e) => repeat(
                record_step(old(b).data(), old(b).limit(), list@, columns as int),
                old(b).pos(),
                list@.len() as int,
            ) == Err::<(Seq<SourceModel>, int), XMetadataError>(e),
        },
{
    let ghost step = record_step(b.data(), b.limit(), list@, columns as int);
    let ghost p = b.pos();
    let ghost mut items: Seq<SourceModel> = Seq::empty();
    let count: usize = list.len();
    let mut i: usize = 0;
    while i < count
        invariant
            i <= count,
            count == list@.len(),
            count <= 9,
            1 <= columns <= 8,
            declarations_fit(list@, count as int),
            b.wf(),
            b.same_source(old(b)),
            p == old(b).pos(),
            step == record_step(b.data(), b.limit(), list@, columns as int),
            items.len() == i,
            slots(sources@) =~= placed_records(list@, items, i as int),
            repeat(step, p, i as int) == Ok::<(Seq<SourceModel>, int), XMetadataError>(
                (items, b.pos()),
            ),
        decreases count - i,
    {
        assert(list@[i as int].index < count && list@[i as int].mode <= 1);
        match parse_record(b, list[i].mode, columns) {
            Ok(source) => {
                let ghost before = slots(sources@);
                sources[list[i].index] = Some(source);
                proof {
                    assert(slots(sources@) =~= before.update(
                        list@[i as int].index as int,
                        Some(source@),
                    ));
                    let more = items.push(source@);
                    lemma_placed_records(list@, items, more, i as int);
                    items = more;
                }
            },
            Err(e) => {
                proof {
                    lemma_repeat_err(step, p, i + 1, count as int);
                }
                return Err(e);
            },
        }
        i = i + 1;
    }
    Ok(())
}

/// One auxiliary entry: only the centre-height speaker at unity is known.
pub open spec fn auxiliary_entry(d: Seq<u8>, lim: int, p: int, width: int) -> Result<
    ((), int),
    XMetadataError,
> {
    if p + width > lim && width > 0 {
        Err(XMetadataError::Truncated)
    } else if field(d, p, width) != CENTRE_HEIGHT_MASK {
        Err(XMetadataError::Unsupported("type-241 auxiliary layout"))
    } else {
        if p + width + 1 > lim {
            Err(XMetadataError::Truncated)
        } else if field(d, p + width, 1) != 1 {
            Err(XMetadataError::Unsupported("type-241 auxiliary flag"))
        } else if p + width + 2 > lim {
            Err(XMetadataError::Truncated)
        } else if field(d, p + width + 1, 1) != 1 {
            Err(XMetadataError::Unsupported("type-241 auxiliary route"))
        } else if p + width + 8 > lim {
            Err(XMetadataError::Truncated)
        } else if field(d, p + width + 2, 6) != 61 {
            Err(XMetadataError::Unsupported("type-241 auxiliary gain"))
        } else {
            Ok(((), p + width + 8))
        }
    }
}

fn skip_auxiliary_entry(b: &mut BitReader<'_>, width: usize) -> (r: Result<(), XMetadataError>)
    requires
        old(b).wf(),
        width <= 31,
    ensures
        final(b).wf(),
        final(b).same_source(old(b)),
        parsed(
            r,
            auxiliary_entry(old(b).data(), old(b).limit(), old(b).pos(), width as int),
            final(b).pos(),
        ),
{
    let speakers: u32 = if width == 0 { 0 } else { read(b, width)? };
    if speakers != CENTRE_HEIGHT_MASK {
        return Err(XMetadataError::Unsupported("type-241 auxiliary layout"));
    }
    expect(b, 1, 1, "type-241 auxiliary flag")?;
    expect(b, 1, 1, "type-241 auxiliary route")?;
    expect(b, 6, UNITY_CODE, "type-241 auxiliary gain")?;
    Ok(())
}

pub open spec fn auxiliary_step(d: Seq<u8>, lim: int, width: int) -> spec_fn(int, int) -> Result<
    ((), int),
    XMetadataError,
> {
    |i: int, q: int| auxiliary_entry(d, lim, q, width)
}

/// Whether an object declares the centre-height alternative.
pub open spec fn auxiliary(d: Seq<u8>, lim: int, p: int) -> Result<(bool, int), XMetadataError> {
    if p + 1 > lim {
        Err(XMetadataError::Truncated)
    } else if field(d, p, 1) == 0 {
        Ok((false, p + 1))
    } else if p + 8 > lim {
        Err(XMetadataError::Truncated)
    } else {
        match repeat(auxiliary_step(d, lim, field(d, p + 3, 5)), p + 8, field(d, p + 1, 2) + 1) {
            Err(e) => Err(e),
            Ok((_, q)) => Ok((true, q)),
        }
    }
}

fn parse_auxiliary(b: &mut BitReader<'_>) -> (r: Result<bool, XMetadataError>)
    requires
        old(b).wf(),
    ensures
        final(b).wf(),
        final(b).same_source(old(b)),
        parsed(
            r,
            auxiliary(old(b).data(), old(b).limit(), old(b).pos()),
            final(b).pos(),
        ),
{
    if read(b, 1)? == 0 {
        return Ok(false);
    }
    let entries: usize = read(b, 2)? as usize + 1;
    let width: usize = read(b, 5)? as usize;
    let ghost step = auxiliary_step(b.data(), b.limit(), width as int);
    let ghost p = b.pos();
    let ghost mut items: Seq<()> = Seq::empty();
    let mut i: usize = 0;
    while i < entries
        invariant
            i <= entries,
            width <= 31,
            b.wf(),
            b.same_source(old(b)),
            p == old(b).pos() + 8,
            old(b).has(8),
            field(old(b).data(), old(b).pos(), 1) != 0,
            entries == field(old(b).data(), old(b).pos() + 1, 2) + 1,
            width == field(old(b).data(), old(b).pos() + 3, 5),
            step == auxiliary_step(b.data(), b.limit(), width as int),
            repeat(step, p, i as int) == Ok::<(Seq<()>, int), XMetadataError>((items, b.pos())),
        decreases entries - i,
    {
        match skip_auxiliary_entry(b, width) {
            Ok(_) => {
                proof {
                    items = items.push(());
                }
            },
            Err(e) => {
                proof {
                    lemma_repeat_err(step, p, i + 1, entries as int);
                }
                return Err(e);
            },
        }
        i = i + 1;
    }
    Ok(true)
}

pub open spec fn auxiliaries_step(d: Seq<u8>, lim: int) -> spec_fn(int, int) -> Result<
    (bool, int),
    XMetadataError,
> {
    |i: int, q: int| auxiliary(d, lim, q)
}

/// The alternative flags of all records; none without the section.
pub open spec fn auxiliaries(d: Seq<u8>, lim: int, p: int, count: int) -> Result<
    (Seq<bool>, int),
    XMetadataError,
> {
    if p + 1 > lim {
        Err(XMetadataError::Truncated)
    } else if field(d, p, 1) == 0 {
        Ok((Seq::new(count as nat, |i: int| false), p + 1))
    } else {
        repeat(auxiliaries_step(d, lim), p + 1, count)
    }
}

fn parse_auxiliaries(b: &mut BitReader<'_>, count: usize) -> (r: Result<Vec<bool>, XMetadataError>)
    requires
        old(b).wf(),
    ensures
        final(b).wf(),
        final(b).same_source(old(b)),
        parsed_view(
            r,
            auxiliaries(old(b).data(), old(b).limit(), old(b).pos(), count as int),
            final(b).pos(),
        ),
        r matches Ok(v) ==> v@.len() == count,
{
    let mut flags: Vec<bool> = Vec::new();
    let mut i: usize = 0;
    if read(b, 1)? == 0 {
        while i < count
            invariant
                i <= count,
                flags@ =~= Seq::new(i as nat, |k: int| false),
            decreases count - i,
        {
            flags.push(false);
            i = i + 1;
        }
        return Ok(flags);
    }
    let ghost step = auxiliaries_step(b.data(), b.limit());
    let ghost p = b.pos();
    while i < count
        invariant
            i <= count,
            b.wf(),
            b.same_source(old(b)),
            p == old(b).pos() + 1,
            old(b).has(1),
            field(old(b).data(), old(b).pos(), 1) != 0,
            step == auxiliaries_step(b.data(), b.limit()),
            flags@.len() == i,
            repeat(step, p, i as int) == Ok::<(Seq<bool>, int), XMetadataError>((flags@, b.pos())),
        decreases count - i,
    {
        match parse_auxiliary(b) {
            Ok(v) => flags.push(v),
            Err(e) => {
                proof {
                    lemma_repeat_err(step, p, i + 1, count as int);
                }
                return Err(e);
            },
        }
        i = i + 1;
    }
    Ok(flags)
}

/// An object with its centre-height alternative declared.
pub open spec fn with_alternative(source: Option<SourceModel>) -> Option<SourceModel> {
    match source {
        Some(SourceModel { role: SourceRole::Object { position, .. }, fold }) => Some(
            SourceModel {
                role: SourceRole::Object { position, centre_height_alternative: true },
                fold,
            },
        ),
        _ => source,
    }
}

/// Slots after the alternatives of the first `n` records were declared.
pub open spec fn flagged(
    base: Seq<Option<SourceModel>>,
    list: Seq<Declaration>,
    flags: Seq<bool>,
    n: int,
) -> Seq<Option<SourceModel>>
    decreases n,
{
    if n <= 0 {
        base
    } else {
        let before = flagged(base, list, flags, n - 1);
        let at = list[n - 1].index as int;
        if flags[n - 1] { before.update(at, with_alternative(before[at])) } else { before }
    }
}

fn apply_alternatives(
    sources: &mut [Option<SourceMetadata>; 9],
    list: &Vec<Declaration>,
    flags: &Vec<bool>,
)
    requires
        flags@.len() == list@.len(),
        list@.len() <= 9,
        declarations_fit(list@, list@.len() as int),
    ensures
        slots(final(sources)@) =~= flagged(
            slots(old(sources)@),
            list@,
            flags@,
            list@.len() as int,
        ),
{
    let count: usize = list.len();
    let mut i: usize = 0;
    while i < count
        invariant
            i <= count,
            count == list@.len(),
            count <= 9,
            flags@.len() == count,
            declarations_fit(list@, count as int),
            slots(sources@) =~= flagged(slots(old(sources)@), list@, flags@, i as int),
        decreases count - i,
    {
        assert(list@[i as int].index < count);
        if flags[i] {
            let at: usize = list[i].index;
            let ghost before = slots(sources@);
            if let Some(source) = sources[at] {
                if let SourceRole::Object { position, .. } = source.role {
                    sources[at] = Some(
                        SourceMetadata {
                            role: SourceRole::Object { position, centre_height_alternative: true },
                            fold: source.fold,
                        },
                    );
                }
            }
            assert(slots(sources@) =~= before.update(
                at as int,
                with_alternative(before[at as int]),
            ));
        }
        i = i + 1;
    }
}

/// A type-241 element: its objects, and where the next element starts.
pub struct ObjectsModel {
    pub next: int,
    pub count: int,
    pub mask: u32,
    pub sources: Seq<Option<SourceModel>>,
}

/// The type-241 element at the start of `d`: declarations, one record per
/// declaration, optional alternatives, and padding.
pub open spec fn type241_element(d: Seq<u8>) -> Result<ObjectsModel, XMetadataError> {
    let lim = 8 * d.len() as int;
    match type241_opening(d, lim, 0) {
        Err(e) => Err(e),
        Ok((count, p1)) => match mask_field(d, lim, p1) {
            Err(e) => Err(e),
            Ok((mask, p2)) => match reference_columns(mask) {
                None => Err(XMetadataError::Unsupported("type-241 reference layout")),
                Some(speakers) => if p2 + 8 > lim {
                    Err(XMetadataError::Truncated)
                } else if field(d, p2, 8) != 0 {
                    Err(XMetadataError::Unsupported("type-241 optional fields"))
                } else {
                    type241_objects(d, p2 + 8, count, mask, speakers.len() as int)
                },
            },
        },
    }
}

/// The part of a type-241 element from its declarations on.
pub open spec fn type241_objects(d: Seq<u8>, p: int, count: int, mask: u32, columns: int) -> Result<
    ObjectsModel,
    XMetadataError,
> {
    let lim = 8 * d.len() as int;
    match declarations(d, lim, p, count, count) {
        Err(e) => Err(e),
        Ok((list, p1)) => match repeat(record_step(d, lim, list, columns), p1, count) {
            Err(e) => Err(e),
            Ok((records, p2)) => match auxiliaries(d, lim, p2, count) {
                Err(e) => Err(e),
                Ok((flags, p3)) => match padding(d, lim, p3, "type-241 padding") {
                    Err(e) => Err(e),
                    Ok((_, p4)) => Ok(
                        ObjectsModel {
                            next: p4 / 8,
                            count,
                            mask,
                            sources: flagged(
                                placed_records(list, records, count),
                                list,
                                flags,
                                count,
                            ),
                        },
                    ),
                },
            },
        },
    }
}

fn parse_type241_objects(
    b: &mut BitReader<'_>,
    count: usize,
    columns: usize,
    sources: &mut [Option<SourceMetadata>; 9],
) -> (r: Result<usize, XMetadataError>)
    requires
        old(b).wf(),
        old(b).limit() == 8 * old(b).data().len(),
        old(b).pos() <= old(b).limit(),
        1 <= columns <= 8,
        count <= 9,
        slots(old(sources)@) =~= no_sources(),
    ensures
        forall|mask: u32|
            match r {
                Ok(next) => #[trigger] type241_objects(
                    old(b).data(),
                    old(b).pos(),
                    count as int,
                    mask,
                    columns as int,
                ) == Ok::<ObjectsModel, XMetadataError>(
                    ObjectsModel {
                        next: next as int,
                        count: count as int,
                        mask,
                        sources: slots(final(sources)@),
                    },
                ) && next <= old(b).data().len(),
                Err(e) => type241_objects(
                    old(b).data(),
                    old(b).pos(),
                    count as int,
                    mask,
                    columns as int,
                ) == Err::<ObjectsModel, XMetadataError>(e),
            },
{
    let list: Vec<Declaration> = parse_declarations(b, count)?;
    parse_records(b, &list, columns, sources)?;
    let flags: Vec<bool> = parse_auxiliaries(b, count)?;
    apply_alternatives(sources, &list, &flags);
    align(b, "type-241 padding")?;
    Ok(b.position() / 8)
}

/// Object count, reference mask and the byte after a type-241 element.
#[derive(Clone, Copy)]
struct ObjectsEnd {
    next: usize,
    count: usize,
    mask: u32,
}

fn parse_type241(bytes: &[u8], sources: &mut [Option<SourceMetadata>; 9]) -> (r: Result<
    ObjectsEnd,
    XMetadataError,
>)
    requires
        8 * bytes@.len() <= usize::MAX,
        slots(old(sources)@) =~= no_sources(),
    ensures
        match r {
            Ok(end) => type241_element(bytes@) == Ok::<ObjectsModel, XMetadataError>(
                ObjectsModel {
                    next: end.next as int,
                    count: end.count as int,
                    mask: end.mask,
                    sources: slots(final(sources)@),
                },
            ) && end.next <= bytes@.len() && end.count <= 9 && reference_columns(end.mask) is Some,
            Err(e) => type241_element(bytes@) == Err::<ObjectsModel, XMetadataError>(e),
        },
{
    let mut b: BitReader = BitReader::new(bytes);
    let count: usize = open_type241(&mut b)?;
    let mask: u32 = read_mask(&mut b)?;
    let columns: usize = match reference_speakers(mask) {
        Some(v) => v.len(),
        None => return Err(XMetadataError::Unsupported("type-241 reference layout")),
    };
    expect(&mut b, 8, 0, "type-241 optional fields")?;
    let ghost p = b.pos();
    let next: usize = parse_type241_objects(&mut b, count, columns, sources)?;
    assert(type241_objects(bytes@, p, count as int, mask, columns as int) is Ok);
    Ok(ObjectsEnd { next, count, mask })
}

/// An alternate profile's metadata: the objects, and the height quartet
/// unless the CRC follows the objects directly.
pub open spec fn alternate_metadata(d: Seq<u8>, source_count: int) -> Result<
    XMetadataModel,
    XMetadataError,
> {
    match protected_prefix(d) {
        Err(_) => Err(XMetadataError::Invalid("alternate prefix CRC")),
        Ok((length, _)) => {
            let prefix = d.take(length as int);
            match type241_element(prefix) {
                Err(e) => Err(e),
                Ok(objects) => match reference_columns(objects.mask) {
                    None => Err(XMetadataError::Unsupported("reference layout")),
                    Some(speakers) => {
                        let heights = objects.next + 2 != prefix.len();
                        let expected = if heights { objects.count + 4 } else { objects.count };
                        if source_count != expected || source_count > 9 {
                            Err(XMetadataError::Unsupported("alternate waveform count"))
                        } else if !heights {
                            Ok(
                                XMetadataModel {
                                    sources: objects.sources,
                                    count: source_count as usize,
                                    speakers,
                                },
                            )
                        } else {
                            match type3_element(prefix.skip(objects.next), objects.mask) {
                                Err(e) => Err(e),
                                Ok(rows) => Ok(
                                    XMetadataModel {
                                        sources: placed_from(objects.sources, objects.count, rows),
                                        count: source_count as usize,
                                        speakers,
                                    },
                                ),
                            }
                        }
                    },
                },
            }
        },
    }
}

fn parse_alternate(payload: &[u8], source_count: usize) -> (r: Result<XMetadata, XMetadataError>)
    requires
        8 * payload@.len() <= usize::MAX,
    ensures
        describes(r, alternate_metadata(payload@, source_count as int)),
        r matches Ok(v) ==> v.wf(),
{
    let length: usize = match alternate_protected_prefix(payload) {
        Ok((n, _)) => n,
        Err(_) => return Err(XMetadataError::Invalid("alternate prefix CRC")),
    };
    let prefix: &[u8] = slice_subrange(payload, 0, length);
    assert(prefix@ =~= payload@.take(length as int));
    let mut sources: [Option<SourceMetadata>; 9] = [None; 9];
    assert(slots(sources@) =~= no_sources());
    let end: ObjectsEnd = parse_type241(prefix, &mut sources)?;
    let speakers: Vec<u8> = match reference_speakers(end.mask) {
        Some(v) => v,
        None => return Err(XMetadataError::Unsupported("reference layout")),
    };
    let heights: bool = end.next + 2 != prefix.len();
    let expected: usize = if heights { end.count + FIXED_HEIGHT_COUNT } else { end.count };
    if source_count != expected || source_count > MAX_SOURCES {
        return Err(XMetadataError::Unsupported("alternate waveform count"));
    }
    if heights {
        let rest: &[u8] = slice_subrange(prefix, end.next, prefix.len());
        assert(rest@ =~= prefix@.skip(end.next as int));
        parse_type3(rest, end.mask, &mut sources, end.count)?;
    }
    Ok(XMetadata { sources, count: source_count, speakers })
}

/// The metadata of an extension payload that decoded into `source_count`
/// waveforms.
pub open spec fn x_metadata(d: Seq<u8>, source_count: int) -> Result<XMetadataModel, XMetadataError> {
    if d.len() < 4 {
        Err(XMetadataError::Truncated)
    } else {
        let sync = field(d, 0, 32);
        if sync == DCA_SYNCWORD_XLL_X {
            standard_metadata(d, source_count)
        } else if sync == DCA_SYNCWORD_XLL_X_ALT_D0 || sync == DCA_SYNCWORD_XLL_X_ALT_D1 || sync
            == DCA_SYNCWORD_XLL_X_ALT_D3 || sync == DCA_SYNCWORD_XLL_X_ALT_D4 {
            alternate_metadata(d, source_count)
        } else {
            Err(XMetadataError::Unsupported("extension profile"))
        }
    }
}

/// Slots that hold `list` from the first on.
pub open spec fn listed(list: Seq<SourceMetadata>) -> Seq<Option<SourceModel>> {
    Seq::new(9, |i: int| if i < list.len() { Some(list[i]@) } else { None })
}

impl XMetadata {
    /// Parse the metadata of an extension payload.
    pub fn parse(payload: &[u8], source_count: usize) -> (r: Result<Self, XMetadataError>)
        requires
            8 * payload@.len() <= usize::MAX,
        ensures
            describes(r, x_metadata(payload@, source_count as int)),
            r matches Ok(v) ==> v.wf(),
    {
        let b: BitReader = BitReader::new(payload);
        let sync: u32 = match b.show_bits(32) {
            Some(v) => v,
            None => return Err(XMetadataError::Truncated),
        };
        if sync == DCA_SYNCWORD_XLL_X {
            parse_standard(payload, source_count)
        } else if sync == DCA_SYNCWORD_XLL_X_ALT_D0 || sync == DCA_SYNCWORD_XLL_X_ALT_D1 || sync
            == DCA_SYNCWORD_XLL_X_ALT_D3 || sync == DCA_SYNCWORD_XLL_X_ALT_D4 {
            parse_alternate(payload, source_count)
        } else {
            Err(XMetadataError::Unsupported("extension profile"))
        }
    }

    /// Assemble metadata from decoded sources over the 7.1 reference layout;
    /// none for too many sources.
    pub fn from_sources(sources: &[SourceMetadata]) -> (r: Option<Self>)
        ensures
            r is Some == (sources@.len() <= 9),
            r matches Some(v) ==> v@ == (XMetadataModel {
                sources: listed(sources@),
                count: sources@.len() as usize,
                speakers: REFERENCE_SPEAKERS@,
            }),
            r matches Some(v) ==> v.wf(),
    {
        proof {
            lemma_reference_7_1();
        }
        XMetadata::from_sources_on(sources, REFERENCE_MASK_7_1)
    }

    /// [`XMetadata::from_sources`] over the reference layout `reference_mask`;
    /// none for too many sources or a mask without a layout.
    pub fn from_sources_on(sources: &[SourceMetadata], reference_mask: u32) -> (r: Option<Self>)
        ensures
            r is Some == (sources@.len() <= 9 && reference_columns(reference_mask) is Some),
            r matches Some(v) ==> v@ == (XMetadataModel {
                sources: listed(sources@),
                count: sources@.len() as usize,
                speakers: reference_columns(reference_mask)->0,
            }),
            r matches Some(v) ==> v.wf(),
    {
        if sources.len() > MAX_SOURCES {
            return None;
        }
        let speakers: Vec<u8> = reference_speakers(reference_mask)?;
        let mut stored: [Option<SourceMetadata>; 9] = [None; 9];
        let mut i: usize = 0;
        while i < sources.len()
            invariant
                i <= sources@.len() <= 9,
                forall|k: int| 0 <= k < i ==> #[trigger] stored@[k] == Some(sources@[k]),
                forall|k: int| i <= k < 9 ==> #[trigger] stored@[k] is None,
            decreases sources@.len() - i,
        {
            stored[i] = Some(sources[i]);
            i = i + 1;
        }
        assert(slots(stored@) =~= listed(sources@));
        Some(XMetadata { sources: stored, count: sources.len(), speakers })
    }

    pub fn source_count(&self) -> (r: usize)
        ensures
            r == self@.count,
    {
        self.count
    }

    /// Speaker behind each fold column.
    pub fn reference_speakers(&self) -> (r: &[u8])
        ensures
            r@ == self@.speakers,
    {
        self.speakers.as_slice()
    }

    pub fn source(&self, index: usize) -> (r: Option<&SourceMetadata>)
        ensures
            match r {
                Some(v) => index < self@.sources.len() && self@.sources[index as int] == Some(v@),
                None => index >= self@.sources.len() || self@.sources[index as int] is None,
            },
    {
        if index >= MAX_SOURCES {
            return None;
        }
        match &self.sources[index] {
            Some(v) => Some(v),
            None => None,
        }
    }
}

/// The columns of the 7.1 reference mask.
pub proof fn lemma_reference_7_1()
    ensures
        reference_columns(REFERENCE_MASK_7_1) == Some(REFERENCE_SPEAKERS@),
{
    let m: u32 = 0x084b;
    assert((m >> 0u32) & 1 == 1 && (m >> 1u32) & 1 == 1 && (m >> 2u32) & 1 == 0 && (m >> 3u32) & 1
        == 1 && (m >> 4u32) & 1 == 0 && (m >> 5u32) & 1 == 0 && (m >> 6u32) & 1 == 1 && (m >> 7u32)
        & 1 == 0 && (m >> 8u32) & 1 == 0 && (m >> 9u32) & 1 == 0 && (m >> 10u32) & 1 == 0 && (m
        >> 11u32) & 1 == 1 && (m >> 12u32) & 1 == 0 && (m >> 13u32) & 1 == 0 && (m >> 14u32) & 1
        == 0 && (m >> 15u32) & 1 == 0) by (bit_vector)
        requires
            m == 0x084b,
    ;
    assert(forall|i: u32| 16 <= i < 32 ==> (#[trigger] (m >> i)) & 1 == 0) by (bit_vector)
        requires
            m == 0x084b,
    ;
    reveal_with_fuel(mask_speakers, 17);
    assert(mask_speakers(m, 2)->0 =~= seq![0u8, 1u8, 2u8]);
    assert(mask_speakers(m, 7)->0 =~= seq![0u8, 1u8, 2u8, 5u8, 7u8, 8u8]);
    assert(mask_speakers(m, 16)->0 =~= REFERENCE_SPEAKERS@);
    lemma_no_more_speakers(m, 16, 32);
}

/// Bits that are not set name no speakers.
proof fn lemma_no_more_speakers(mask: u32, k: int, n: int)
    requires
        0 <= k <= n <= 32,
        forall|i: int| k <= i < n ==> !#[trigger] has_bit(mask, i),
    ensures
        mask_speakers(mask, n) == mask_speakers(mask, k),
    decreases n - k,
{
    if k < n {
        lemma_no_more_speakers(mask, k, n - 1);
        assert(!has_bit(mask, n - 1));
    }
}

/// The sources among the first `n` slots, in order.
pub open spec fn present(sources: Seq<Option<SourceModel>>, n: int) -> Seq<SourceModel>
    decreases n,
{
    if n <= 0 {
        Seq::empty()
    } else {
        match sources[n - 1] {
            Some(source) => present(sources, n - 1).push(source),
            None => present(sources, n - 1),
        }
    }
}

/// Sources over models.
pub open spec fn source_models(sources: Seq<SourceMetadata>) -> Seq<SourceModel> {
    Seq::new(sources.len(), |i: int| sources[i]@)
}

impl XMetadata {
    /// Counts and speakers stay in range.
    pub closed spec fn wf(&self) -> bool {
        &&& self.count <= 9
        &&& self.speakers@.len() <= 8
        &&& forall|i: int| 0 <= i < self.speakers@.len() ==> #[trigger] self.speakers@[i] < 16
    }

    /// The sources that are present, in waveform order.
    pub fn sources(&self) -> (r: Vec<SourceMetadata>)
        requires
            self.wf(),
        ensures
            source_models(r@) == present(self@.sources, self@.count as int),
            r@.len() <= 9,
    {
        let mut out: Vec<SourceMetadata> = Vec::new();
        assert(source_models(out@) =~= present(self@.sources, 0));
        let mut i: usize = 0;
        while i < self.count
            invariant
                i <= self.count <= 9,
                source_models(out@) == present(self@.sources, i as int),
                out@.len() <= i,
            decreases self.count - i,
        {
            let ghost before = source_models(out@);
            if let Some(source) = self.sources[i] {
                out.push(source);
                assert(source_models(out@) =~= before.push(source@));
            }
            i = i + 1;
        }
        out
    }
}

/// Which of a speaker's bed channel gain codes come from a waveform folded
/// with `codes` over `speakers`: that of the last column that addresses it.
pub open spec fn folded_gain(codes: Seq<u8>, speakers: Seq<u8>, speaker: int, n: int) -> u8
    decreases n,
{
    if n <= 0 {
        0
    } else if speakers[n - 1] == speaker && codes[n - 1] != 0 {
        codes[n - 1]
    } else {
        folded_gain(codes, speakers, speaker, n - 1)
    }
}

/// Per-frame subtraction table: for each speaker, the gain code of every
/// extension waveform already present in that speaker's bed channel, and
/// which waveforms have no known fold.
#[derive(Clone, Debug, PartialEq, Eq)]
pub struct FoldPlan {
    gains: Vec<u8>,
    unknown: [bool; 9],
    count: usize,
}

impl FoldPlan {
    pub closed spec fn wf(&self) -> bool {
        &&& self.gains@.len() == 144
        &&& self.count <= 9
        &&& forall|k: int| self.count <= k < 9 ==> !#[trigger] self.unknown@[k]
    }

    /// Waveforms in the plan.
    pub closed spec fn feeds(&self) -> int {
        self.count as int
    }

    /// Gain code of a waveform in a speaker; 0 is absent.
    pub closed spec fn code(&self, speaker: int, feed: int) -> u8 {
        self.gains@[9 * speaker + feed]
    }

    /// A waveform has no known fold.
    pub closed spec fn lacks(&self, feed: int) -> bool {
        self.unknown@[feed]
    }

    fn blank(count: usize, lacking: usize) -> (r: Self)
        requires
            lacking <= count <= 9,
        ensures
            r.wf(),
            r.feeds() == count,
            forall|speaker: int, feed: int|
                0 <= speaker < 16 && 0 <= feed < 9 ==> #[trigger] r.code(speaker, feed) == 0,
            forall|feed: int| 0 <= feed < 9 ==> #[trigger] r.lacks(feed) == (feed < lacking),
    {
        let mut gains: Vec<u8> = Vec::new();
        let mut i: usize = 0;
        while i < 144
            invariant
                i <= 144,
                gains@.len() == i,
                forall|k: int| 0 <= k < i ==> #[trigger] gains@[k] == 0,
            decreases 144 - i,
        {
            gains.push(0);
            i = i + 1;
        }
        let mut unknown: [bool; 9] = [false; 9];
        let mut k: usize = 0;
        while k < lacking
            invariant
                k <= lacking <= 9,
                forall|j: int| 0 <= j < 9 ==> #[trigger] unknown@[j] == (j < k),
            decreases lacking - k,
        {
            unknown[k] = true;
            k = k + 1;
        }
        FoldPlan { gains, unknown, count }
    }

    /// No metadata: nothing can be subtracted and no waveform may be
    /// rendered, since each is still in the bed at an unknown gain.
    pub fn all_unknown(source_count: usize) -> (r: Self)
        ensures
            r.wf(),
            r.feeds() == if source_count < 9 { source_count as int } else { 9 },
            forall|speaker: int, feed: int|
                0 <= speaker < 16 && 0 <= feed < 9 ==> #[trigger] r.code(speaker, feed) == 0,
            forall|feed: int| 0 <= feed < 9 ==> #[trigger] r.lacks(feed) == (feed < r.feeds()),
    {
        let count: usize = if source_count < MAX_SOURCES { source_count } else { MAX_SOURCES };
        FoldPlan::blank(count, count)
    }

    fn put(&mut self, speaker: usize, feed: usize, code: u8)
        requires
            old(self).wf(),
            speaker < 16,
            feed < 9,
        ensures
            final(self).wf(),
            final(self).feeds() == old(self).feeds(),
            forall|s: int, f: int|
                0 <= s < 16 && 0 <= f < 9 ==> #[trigger] final(self).code(s, f) == if s == speaker
                    && f == feed {
                    code
                } else {
                    old(self).code(s, f)
                },
            forall|f: int| 0 <= f < 9 ==> #[trigger] final(self).lacks(f) == old(self).lacks(f),
    {
        self.gains.set(9 * speaker + feed, code);
    }

    /// The standard profile's fixed-height fold at one gain code for all four
    /// feeds (front heights into L and R, rear heights into Lsr and Rsr), for
    /// a frame whose matrix could not be read.
    pub fn standard_heights(code: u8) -> (r: Self)
        ensures
            r.wf(),
            r.feeds() == 4,
            forall|speaker: int, feed: int|
                0 <= speaker < 16 && 0 <= feed < 9 ==> #[trigger] r.code(speaker, feed) == if (
                speaker == 1 && feed == 0) || (speaker == 2 && feed == 1) || (speaker == 7 && feed
                    == 2) || (speaker == 8 && feed == 3) {
                    code
                } else {
                    0
                },
            forall|feed: int| 0 <= feed < 9 ==> !#[trigger] r.lacks(feed),
    {
        let mut plan: FoldPlan = FoldPlan::blank(4, 0);
        plan.put(1, 0, code);
        plan.put(2, 1, code);
        plan.put(7, 2, code);
        plan.put(8, 3, code);
        plan
    }

    /// Fold one waveform in, column by column.
    fn fold_in(&mut self, feed: usize, codes: &[u8; 8], speakers: &[u8])
        requires
            old(self).wf(),
            feed < 9,
            speakers@.len() <= 8,
            forall|i: int| 0 <= i < speakers@.len() ==> #[trigger] speakers@[i] < 16,
            forall|s: int| 0 <= s < 16 ==> #[trigger] old(self).code(s, feed as int) == 0,
        ensures
            final(self).wf(),
            final(self).feeds() == old(self).feeds(),
            forall|s: int, f: int|
                0 <= s < 16 && 0 <= f < 9 ==> #[trigger] final(self).code(s, f) == if f == feed {
                    folded_gain(codes@, speakers@, s, speakers@.len() as int)
                } else {
                    old(self).code(s, f)
                },
            forall|f: int| 0 <= f < 9 ==> #[trigger] final(self).lacks(f) == old(self).lacks(f),
    {
        let mut column: usize = 0;
        while column < speakers.len()
            invariant
                column <= speakers@.len() <= 8,
                feed < 9,
                self.wf(),
                self.feeds() == old(self).feeds(),
                forall|i: int| 0 <= i < speakers@.len() ==> #[trigger] speakers@[i] < 16,
                forall|s: int, f: int|
                    0 <= s < 16 && 0 <= f < 9 ==> #[trigger] self.code(s, f) == if f == feed {
                        folded_gain(codes@, speakers@, s, column as int)
                    } else {
                        old(self).code(s, f)
                    },
                forall|f: int| 0 <= f < 9 ==> #[trigger] self.lacks(f) == old(self).lacks(f),
            decreases speakers@.len() - column,
        {
            if codes[column] != 0 {
                self.put(speakers[column] as usize, feed, codes[column]);
            }
            column = column + 1;
        }
    }

    fn mark(&mut self, feed: usize)
        requires
            old(self).wf(),
            feed < old(self).feeds(),
        ensures
            final(self).wf(),
            final(self).feeds() == old(self).feeds(),
            forall|s: int, f: int|
                0 <= s < 16 && 0 <= f < 9 ==> #[trigger] final(self).code(s, f) == old(self).code(s, f),
            forall|f: int|
                0 <= f < 9 ==> #[trigger] final(self).lacks(f) == (old(self).lacks(f) || f == feed),
    {
        self.unknown[feed] = true;
    }

    /// The plan that a frame's metadata states.
    pub fn from_metadata(metadata: &XMetadata) -> (r: Self)
        requires
            metadata.wf(),
        ensures
            r.wf(),
            r.feeds() == metadata@.count,
            ({
                let list = present(metadata@.sources, metadata@.count as int);
                &&& forall|s: int, f: int|
                    0 <= s < 16 && 0 <= f < 9 ==> #[trigger] r.code(s, f) == if f < list.len() {
                        match list[f].fold {
                            Some(codes) => folded_gain(
                                codes,
                                metadata@.speakers,
                                s,
                                metadata@.speakers.len() as int,
                            ),
                            None => 0,
                        }
                    } else {
                        0
                    }
                &&& forall|f: int|
                    0 <= f < 9 ==> #[trigger] r.lacks(f) == (f < list.len() && list[f].fold is None)
            }),
    {
        let list: Vec<SourceMetadata> = metadata.sources();
        let ghost models = present(metadata@.sources, metadata@.count as int);
        proof {
            lemma_present_len(metadata@.sources, metadata@.count as int);
        }
        let mut plan: FoldPlan = FoldPlan::blank(metadata.count, 0);
        let mut feed: usize = 0;
        while feed < list.len()
            invariant
                feed <= list@.len() <= 9,
                list@.len() <= metadata.count <= 9,
                metadata.wf(),
                models == source_models(list@),
                plan.wf(),
                plan.feeds() == metadata.count,
                forall|s: int, f: int|
                    0 <= s < 16 && 0 <= f < 9 ==> #[trigger] plan.code(s, f) == if f < feed {
                        match models[f].fold {
                            Some(codes) => folded_gain(
                                codes,
                                metadata@.speakers,
                                s,
                                metadata@.speakers.len() as int,
                            ),
                            None => 0,
                        }
                    } else {
                        0
                    },
                forall|f: int|
                    0 <= f < 9 ==> #[trigger] plan.lacks(f) == (f < feed && models[f].fold is None),
            decreases list@.len() - feed,
        {
            match &list[feed].fold {
                BedFold::Known(codes) => {
                    plan.fold_in(feed, codes, metadata.reference_speakers());
                },
                BedFold::Unknown => plan.mark(feed),
            }
            feed = feed + 1;
        }
        plan
    }

    pub fn source_count(&self) -> (r: usize)
        ensures
            r == self.feeds(),
    {
        self.count
    }

    /// Whether waveform `feed` may be rendered on its own channel.
    pub fn source_is_known(&self, feed: usize) -> (r: bool)
        requires
            self.wf(),
        ensures
            r == (feed < self.feeds() && !self.lacks(feed as int)),
    {
        feed < self.count && !self.unknown[feed]
    }

    /// Whether any waveform of this frame has no stated fold.
    pub fn has_unknown(&self) -> (r: bool)
        ensures
            r == exists|feed: int| 0 <= feed < 9 && #[trigger] self.lacks(feed),
    {
        let mut k: usize = 0;
        while k < 9
            invariant
                k <= 9,
                forall|j: int| 0 <= j < k ==> !#[trigger] self.lacks(j),
            decreases 9 - k,
        {
            if self.unknown[k] {
                assert(self.lacks(k as int));
                return true;
            }
            k = k + 1;
        }
        false
    }

    /// The gain code of waveform `feed` in `speaker`, 0 when it contributes
    /// nothing there.
    pub fn gain(&self, speaker: usize, feed: usize) -> (r: u8)
        requires
            self.wf(),
        ensures
            r == if speaker < 16 && feed < self.feeds() {
                self.code(speaker as int, feed as int)
            } else {
                0
            },
    {
        if speaker < FOLD_SPEAKERS && feed < self.count {
            self.gains[9 * speaker + feed]
        } else {
            0
        }
    }

    /// Whether any subtraction applies to `speaker`.
    pub fn touches(&self, speaker: usize) -> (r: bool)
        requires
            self.wf(),
        ensures
            r == (speaker < 16 && exists|feed: int|
                0 <= feed < 9 && #[trigger] self.code(speaker as int, feed) != 0),
    {
        if speaker >= FOLD_SPEAKERS {
            return false;
        }
        let mut feed: usize = 0;
        while feed < 9
            invariant
                feed <= 9,
                speaker < 16,
                self.wf(),
                forall|f: int| 0 <= f < feed ==> #[trigger] self.code(speaker as int, f) == 0,
            decreases 9 - feed,
        {
            if self.gains[9 * speaker + feed] != 0 {
                assert(self.code(speaker as int, feed as int) != 0);
                return true;
            }
            feed = feed + 1;
        }
        false
    }

    /// Account for the first `count` waveforms once their folds have been
    /// estimated: they may be rendered from now on.
    pub fn settle(&mut self, count: usize)
        requires
            old(self).wf(),
        ensures
            final(self).wf(),
            final(self).feeds() == old(self).feeds(),
            forall|s: int, f: int|
                0 <= s < 16 && 0 <= f < 9 ==> #[trigger] final(self).code(s, f) == old(self).code(s, f),
            forall|f: int|
                0 <= f < 9 ==> #[trigger] final(self).lacks(f) == (f >= count && old(self).lacks(f)),
    {
        let n: usize = if count < 9 { count } else { 9 };
        let mut k: usize = 0;
        while k < n
            invariant
                k <= n,
                n == (if count < 9 { count as int } else { 9 }),
                self.gains == old(self).gains,
                self.count == old(self).count,
                forall|f: int|
                    0 <= f < 9 ==> #[trigger] self.unknown@[f] == (f >= k && old(self).unknown@[f]),
            decreases n - k,
        {
            self.unknown[k] = false;
            k = k + 1;
        }
    }
}

proof fn lemma_present_len(sources: Seq<Option<SourceModel>>, n: int)
    requires
        n >= 0,
    ensures
        present(sources, n).len() <= n,
    decreases n,
{
    if n > 0 {
        lemma_present_len(sources, n - 1);
    }
}

/// Index of a gain code in the downmix table: half a decibel per code, unity
/// at code 61. Code 0 and the escape codes have no meaning.
pub open spec fn gain_index(code: int) -> Option<int> {
    if 1 <= code <= 61 { Some(4 * code - 3) } else { None }
}

/// The linear gain of a six-bit gain code, in units of 1/32768.
pub fn gain_code_entry(dmix: &[u16; 242], code: u32) -> (r: Option<u16>)
    ensures
        r == match gain_index(code as int) {
            Some(i) => Some(dmix@[i]),
            None => None,
        },
{
    if code >= 1 && code <= UNITY_CODE {
        Some(dmix[4 * code as usize - 3])
    } else {
        None
    }
}

} // verus!
