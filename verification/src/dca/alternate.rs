//! Layout of the alternate spatial-extension profiles: a CRC-delimited prefix,
//! an outer control, and two channel sets whose headers and segment geometries
//! are found from the controls.

use vstd::prelude::*;
use vstd::slice::slice_subrange;
use crate::bits::{code_space, field, BitReader};
use super::crc::{crc16_ccitt, crc_of};
use super::xll_error::XllError;

verus! {

pub const DCA_SYNCWORD_XLL_X_ALT_D0: u32 = 0xF140_00D0;
pub const DCA_SYNCWORD_XLL_X_ALT_D1: u32 = 0xF140_00D1;
pub const DCA_SYNCWORD_XLL_X_ALT_D3: u32 = 0xF140_00D3;
pub const DCA_SYNCWORD_XLL_X_ALT_D4: u32 = 0xF140_00D4;
pub const DCA_XLL_CHANNELS_MAX: usize = 8;
pub const XLL_X_ALT_FRAME_SAMPLES: usize = 512;
pub const XLL_X_ALT_MAX_SEGMENTS: usize = 8;
pub const XLL_X_ALT_MAX_INTERSTITIAL: usize = 20;
pub const XLL_X_ALT_OUTER_SUFFIX: [u8; 6] = [0x03, 0x34, 0x38, 0x8c, 0x4f, 0x00];
pub const XLL_X_ALT_INNER_SUFFIX: [u8; 6] = [0x02, 0x34, 0x38, 0x8c, 0x4f, 0x00];
pub const XLL_X_ALT_MARKER_TAIL: [u8; 5] = [0x34, 0x38, 0x8c, 0x4f, 0x00];
/// Longest prefix that is searched for.
pub const MAX_PREFIX_BYTES: usize = 96;
/// A prefix holds at least its sync word and its CRC.
pub const MIN_PREFIX_BYTES: usize = 6;

/// How a channel set's samples are cut into segments.
#[derive(Debug, Clone, Copy, PartialEq, Eq, Structural)]
pub struct AlternateGeometry {
    pub segments: usize,
    pub navigation_size_bits: usize,
}

/// Where a channel set starts.
#[derive(Debug, Clone, Copy, PartialEq, Eq, Structural)]
pub struct AlternateHeader {
    pub offset: usize,
    pub size: usize,
    pub channels: usize,
}

#[derive(Debug, Clone, Copy, PartialEq, Eq, Structural)]
pub enum AlternateProfile {
    D0,
    D1,
    D3,
}

#[derive(Debug, Clone, Copy, PartialEq, Eq, Structural)]
pub struct AlternateLayout {
    pub first_header: AlternateHeader,
    pub second_header: AlternateHeader,
    pub first_geometry: AlternateGeometry,
    pub second_geometry: AlternateGeometry,
}

/// The geometry coded at a bit offset: a power-of-two split of the frame into
/// at most eight segments, with navigation entries of 4 to 20 bits.
pub open spec fn geometry_at(control: Seq<u8>, bit: int) -> Option<AlternateGeometry> {
    let a = field(control, bit, 4);
    let b = field(control, bit + 4, 4);
    let nav = field(control, bit + 8, 5) + 1;
    if bit + 13 <= 8 * control.len() && a <= 3 && a + b == 9 && 4 <= nav <= 20 {
        Some(
            AlternateGeometry {
                segments: code_space(a) as usize,
                navigation_size_bits: nav as usize,
            },
        )
    } else {
        None
    }
}

/// A split that the geometry syntax can state.
pub open spec fn geometry_wf(g: AlternateGeometry) -> bool {
    &&& g.segments == 1 || g.segments == 2 || g.segments == 4 || g.segments == 8
    &&& 4 <= g.navigation_size_bits <= 20
}

pub fn alternate_geometry_at(control: &[u8], bit_offset: usize) -> (r: Option<AlternateGeometry>)
    requires
        8 * control@.len() <= usize::MAX,
    ensures
        r == geometry_at(control@, bit_offset as int),
        r matches Some(g) ==> geometry_wf(g),
{
    let mut bits: BitReader = BitReader::with_offset(control, bit_offset);
    let segment_log2: u32 = bits.read_bits(4)?;
    let samples_log2: u32 = bits.read_bits(4)?;
    let navigation_size_bits: usize = bits.read_bits(5)? as usize + 1;
    if segment_log2 > 3 || segment_log2 + samples_log2 != 9 || navigation_size_bits < 4
        || navigation_size_bits > 20 {
        return None;
    }
    let segments: usize = match segment_log2 {
        0 => 1,
        1 => 2,
        2 => 4,
        _ => 8,
    };
    Some(AlternateGeometry { segments, navigation_size_bits })
}

/// The bit offsets in `first..end` at which a geometry is coded, in order.
pub open spec fn geometry_offsets(control: Seq<u8>, first: int, end: int) -> Seq<int>
    decreases end - first,
{
    if end <= first {
        Seq::empty()
    } else if geometry_at(control, end - 1) is Some {
        geometry_offsets(control, first, end - 1).push(end - 1)
    } else {
        geometry_offsets(control, first, end - 1)
    }
}

/// The one geometry coded between two bit offsets, both included.
pub open spec fn unique_geometry(control: Seq<u8>, first: int, last: int) -> Result<
    (int, AlternateGeometry),
    XllError,
> {
    let hits = geometry_offsets(control, first, last + 1);
    if hits.len() == 0 {
        Err(XllError::Invalid("missing alternate XLL geometry"))
    } else if hits.len() > 1 {
        Err(XllError::Invalid("ambiguous alternate XLL control"))
    } else {
        Ok((hits[0], geometry_at(control, hits[0])->0))
    }
}

proof fn lemma_geometry_offsets(control: Seq<u8>, first: int, k: int, end: int)
    requires
        k <= end,
    ensures
        geometry_offsets(control, first, k).len() <= geometry_offsets(control, first, end).len(),
        forall|i: int|
            #![trigger geometry_offsets(control, first, k)[i]]
            0 <= i < geometry_offsets(control, first, k).len() ==> first <= geometry_offsets(
                control,
                first,
                k,
            )[i] < k && geometry_at(control, geometry_offsets(control, first, k)[i]) is Some,
    decreases end - first,
{
    if end <= first {
    } else if k < end {
        lemma_geometry_offsets(control, first, k, end - 1);
    } else {
        lemma_geometry_offsets(control, first, k - 1, k - 1);
    }
}

pub fn alternate_unique_geometry(control: &[u8], first_bit: usize, last_bit: usize) -> (r: Result<
    (usize, AlternateGeometry),
    XllError,
>)
    requires
        8 * control@.len() <= usize::MAX,
        last_bit < usize::MAX,
    ensures
        match r {
            Ok((bit, geometry)) => unique_geometry(control@, first_bit as int, last_bit as int)
                == Ok::<(int, AlternateGeometry), XllError>((bit as int, geometry)) && first_bit
                <= bit <= last_bit,
            Err(e) => unique_geometry(control@, first_bit as int, last_bit as int) == Err::<
                (int, AlternateGeometry),
                XllError,
            >(e),
        },
        r matches Ok((_, g)) ==> geometry_wf(g),
{
    let mut selected: Option<(usize, AlternateGeometry)> = None;
    let mut bit: usize = first_bit;
    while bit <= last_bit
        invariant
            8 * control@.len() <= usize::MAX,
            first_bit <= bit,
            bit <= last_bit + 1 || bit == first_bit,
            last_bit < usize::MAX,
            match selected {
                None => geometry_offsets(control@, first_bit as int, bit as int).len() == 0,
                Some((at, geometry)) => {
                    let hits = geometry_offsets(control@, first_bit as int, bit as int);
                    &&& hits.len() == 1
                    &&& hits[0] == at
                    &&& first_bit <= at < bit
                    &&& geometry_at(control@, at as int) == Some(geometry)
                    &&& geometry_wf(geometry)
                },
            },
        decreases last_bit + 1 - bit,
    {
        let found = alternate_geometry_at(control, bit);
        if let Some(geometry) = found {
            if selected.is_some() {
                proof {
                    lemma_geometry_offsets(control@, first_bit as int, bit + 1, last_bit + 1);
                }
                return Err(XllError::Invalid("ambiguous alternate XLL control"));
            }
            selected = Some((bit, geometry));
        }
        bit = bit + 1;
    }
    proof {
        if first_bit > last_bit {
            assert(geometry_offsets(control@, first_bit as int, last_bit + 1).len() == 0);
        }
    }
    match selected {
        Some(v) => Ok(v),
        None => Err(XllError::Invalid("missing alternate XLL geometry")),
    }
}

/// The channel-set header at a byte offset, if one is there: up to eight
/// channels at 48 kHz, no replacement set, and a CRC over all of it.
pub open spec fn header_at(payload: Seq<u8>, offset: int) -> Option<AlternateHeader> {
    let p = 8 * offset;
    let size = field(payload, p, 10) + 1;
    let channels = field(payload, p + 10, 4) + 1;
    let q = p + 14 + channels;
    let pcm = field(payload, q, 5) + 1;
    let storage = field(payload, q + 5, 5) + 1;
    if p > usize::MAX || channels > 8 || q + 18 > 8 * payload.len() {
        None
    } else if offset + size > payload.len() || pcm > storage || !(storage == 16 || storage == 20
        || storage == 24) || field(payload, q + 10, 4) != 12 || field(payload, q + 14, 2) != 0
        || field(payload, q + 16, 2) != 0 || crc_of(payload.subrange(offset, offset + size)) != 0 {
        None
    } else {
        Some(
            AlternateHeader {
                offset: offset as usize,
                size: size as usize,
                channels: channels as usize,
            },
        )
    }
}

pub fn alternate_header_at(payload: &[u8], byte_offset: usize) -> (r: Option<AlternateHeader>)
    requires
        8 * payload@.len() <= usize::MAX,
    ensures
        r == header_at(payload@, byte_offset as int),
{
    proof {
        crate::bits::lemma_field_range(payload@, 8 * byte_offset + 10, 4);
    }
    if byte_offset > usize::MAX / 8 {
        return None;
    }
    let mut bits: BitReader = BitReader::with_offset(payload, byte_offset * 8);
    let size: usize = bits.read_bits(10)? as usize + 1;
    let channels: usize = bits.read_bits(4)? as usize + 1;
    if channels > DCA_XLL_CHANNELS_MAX {
        return None;
    }
    bits.read_bits(channels)?;
    let pcm: u32 = bits.read_bits(5)? + 1;
    let storage: u32 = bits.read_bits(5)? + 1;
    let frequency_index: u32 = bits.read_bits(4)?;
    let frequency_modifier: u32 = bits.read_bits(2)?;
    let replacement_set: u32 = bits.read_bits(2)?;
    let header_end: usize = byte_offset + size;
    if header_end > payload.len() || pcm > storage || !(storage == 16 || storage == 20 || storage
        == 24) || frequency_index != 12 || frequency_modifier != 0 || replacement_set != 0 {
        return None;
    }
    if crc16_ccitt(slice_subrange(payload, byte_offset, header_end)) != 0 {
        return None;
    }
    Some(AlternateHeader { offset: byte_offset, size, channels })
}

/// A four-channel header at a byte offset.
pub open spec fn quartet_at(payload: Seq<u8>, offset: int) -> Option<AlternateHeader> {
    match header_at(payload, offset) {
        Some(header) => if header.channels == 4 { Some(header) } else { None },
        None => None,
    }
}

fn alternate_quartet_at(payload: &[u8], byte_offset: usize) -> (r: Option<AlternateHeader>)
    requires
        8 * payload@.len() <= usize::MAX,
    ensures
        r == quartet_at(payload@, byte_offset as int),
{
    match alternate_header_at(payload, byte_offset) {
        Some(header) => if header.channels == 4 { Some(header) } else { None },
        None => None,
    }
}

/// The second set's header: the outer control codes half its distance from
/// `bias`, rounded up.
pub open spec fn second_header(payload: Seq<u8>, control: Seq<u8>, common: int, bias: int) -> Result<
    AlternateHeader,
    XllError,
> {
    let width = common - 14;
    if width < 0 {
        Err(XllError::Invalid("alternate XLL size field"))
    } else if width > 32 || (width > 0 && 9 + width > 8 * control.len()) {
        Err(XllError::Bitstream)
    } else {
        let nominal = 2 * field(control, 9, width) + bias;
        if nominal > usize::MAX {
            Err(XllError::Invalid("alternate XLL header offset overflow"))
        } else {
            let even = quartet_at(payload, nominal);
            let odd = if nominal >= 1 { quartet_at(payload, nominal - 1) } else { None };
            match (even, odd) {
                (Some(_), Some(_)) => Err(XllError::Invalid("ambiguous alternate XLL header")),
                (Some(header), None) => Ok(header),
                (None, Some(header)) => Ok(header),
                (None, None) => Err(XllError::Invalid("missing alternate XLL second header")),
            }
        }
    }
}

pub fn alternate_second_header(
    payload: &[u8],
    control: &[u8],
    common_bit: usize,
    offset_bias: usize,
) -> (r: Result<AlternateHeader, XllError>)
    requires
        8 * payload@.len() <= usize::MAX,
        8 * control@.len() <= usize::MAX,
    ensures
        r == second_header(payload@, control@, common_bit as int, offset_bias as int),
{
    if common_bit < 14 {
        return Err(XllError::Invalid("alternate XLL size field"));
    }
    let mut bits: BitReader = BitReader::with_offset(control, 9);
    let encoded: u32 = match bits.read_bits(common_bit - 14) {
        Some(v) => v,
        None => return Err(XllError::Bitstream),
    };
    let span: usize = encoded as usize;
    if span > usize::MAX / 2 || span * 2 > usize::MAX - offset_bias {
        return Err(XllError::Invalid("alternate XLL header offset overflow"));
    }
    let nominal: usize = span * 2 + offset_bias;
    let even = alternate_quartet_at(payload, nominal);
    let odd = if nominal >= 1 { alternate_quartet_at(payload, nominal - 1) } else { None };
    match (even, odd) {
        (Some(_), Some(_)) => Err(XllError::Invalid("ambiguous alternate XLL header")),
        (Some(header), None) => Ok(header),
        (None, Some(header)) => Ok(header),
        (None, None) => Err(XllError::Invalid("missing alternate XLL second header")),
    }
}

/// `pattern` stands in `data` at index `i`.
pub open spec fn stands_at(data: Seq<u8>, pattern: Seq<u8>, i: int) -> bool {
    &&& 0 <= i
    &&& i + pattern.len() <= data.len()
    &&& data.subrange(i, i + pattern.len()) =~= pattern
}

/// The last index not above `n` at which `pattern` stands.
pub open spec fn last_at(data: Seq<u8>, pattern: Seq<u8>, n: int) -> Option<int>
    decreases n + 1,
{
    if n < 0 {
        None
    } else if stands_at(data, pattern, n) {
        Some(n)
    } else {
        last_at(data, pattern, n - 1)
    }
}

fn matches_at(data: &[u8], pattern: &[u8], i: usize) -> (r: bool)
    ensures
        r == stands_at(data@, pattern@, i as int),
{
    if pattern.len() > data.len() || i > data.len() - pattern.len() {
        return false;
    }
    let n: usize = data.len();
    let mut k: usize = 0;
    while k < pattern.len()
        invariant
            k <= pattern@.len(),
            n == data@.len(),
            i + pattern@.len() <= n,
            forall|j: int| 0 <= j < k ==> data@[i + j] == #[trigger] pattern@[j],
        decreases pattern@.len() - k,
    {
        if data[i + k] != pattern[k] {
            proof {
                assert(data@.subrange(i as int, i + pattern@.len())[k as int] != pattern@[k as int]);
            }
            return false;
        }
        k = k + 1;
    }
    true
}

/// The inner control: the 8 or 9 bytes between the last inner marker and the
/// second header.
pub open spec fn inner_control(payload: Seq<u8>, second: int) -> Result<Seq<u8>, XllError> {
    if second > payload.len() {
        Err(XllError::Invalid("short alternate XLL interstitial"))
    } else {
        let start = if second >= 24 { second - 24 } else { 0 };
        let window = payload.subrange(start, second);
        match last_at(window, XLL_X_ALT_INNER_SUFFIX@, window.len() as int) {
            None => Err(XllError::Invalid("missing alternate XLL inner suffix")),
            Some(at) => if window.len() - (at + 6) == 8 || window.len() - (at + 6) == 9 {
                Ok(window.subrange(at + 6, window.len() as int))
            } else {
                Err(XllError::Invalid("alternate XLL inner control size"))
            },
        }
    }
}

pub fn alternate_inner_control(payload: &[u8], second_header_offset: usize) -> (r: Result<
    &[u8],
    XllError,
>)
    ensures
        match r {
            Ok(control) => inner_control(payload@, second_header_offset as int) == Ok::<
                Seq<u8>,
                XllError,
            >(control@) && control@.len() <= 9,
            Err(e) => inner_control(payload@, second_header_offset as int) == Err::<
                Seq<u8>,
                XllError,
            >(e),
        },
{
    if second_header_offset > payload.len() {
        return Err(XllError::Invalid("short alternate XLL interstitial"));
    }
    let start: usize = if second_header_offset >= 24 { second_header_offset - 24 } else { 0 };
    let window: &[u8] = slice_subrange(payload, start, second_header_offset);
    let n: usize = window.len();
    let mut at: usize = n + 1;
    while at > 0
        invariant_except_break
            at <= n + 1,
            n == window@.len(),
            last_at(window@, XLL_X_ALT_INNER_SUFFIX@, n as int) == last_at(
                window@,
                XLL_X_ALT_INNER_SUFFIX@,
                at - 1,
            ),
        ensures
            n == window@.len(),
            at > 0 ==> last_at(window@, XLL_X_ALT_INNER_SUFFIX@, n as int) == Some(at - 1)
                && stands_at(window@, XLL_X_ALT_INNER_SUFFIX@, at - 1),
            at == 0 ==> last_at(window@, XLL_X_ALT_INNER_SUFFIX@, n as int) is None,
        decreases at,
    {
        if matches_at(window, &XLL_X_ALT_INNER_SUFFIX, at - 1) {
            break;
        }
        at = at - 1;
    }
    if at == 0 {
        return Err(XllError::Invalid("missing alternate XLL inner suffix"));
    }
    let control: &[u8] = slice_subrange(window, at - 1 + 6, n);
    if control.len() != 8 && control.len() != 9 {
        return Err(XllError::Invalid("alternate XLL inner control size"));
    }
    Ok(control)
}

/// A CRC-valid prefix ends at `i`, where the outer marker stands.
pub open spec fn prefix_ends_at(payload: Seq<u8>, i: int) -> bool {
    stands_at(payload, XLL_X_ALT_OUTER_SUFFIX@, i) && crc_of(payload.take(i)) == 0
}

/// The indices in `first..end` at which a prefix ends.
pub open spec fn prefix_ends(payload: Seq<u8>, first: int, end: int) -> Seq<int>
    decreases end - first,
{
    if end <= first {
        Seq::empty()
    } else if prefix_ends_at(payload, end - 1) {
        prefix_ends(payload, first, end - 1).push(end - 1)
    } else {
        prefix_ends(payload, first, end - 1)
    }
}

/// Shortest prefix of a profile.
pub open spec fn minimum_prefix(profile: AlternateProfile) -> int {
    match profile {
        AlternateProfile::D0 => 48,
        AlternateProfile::D1 => 49,
        AlternateProfile::D3 => 49,
    }
}

/// Where the outer control starts, its size, and the base of the second
/// header's offset.
pub open spec fn outer_layout(payload: Seq<u8>, profile: AlternateProfile) -> Result<
    (usize, usize, usize),
    XllError,
> {
    let end = if payload.len() < 96 { payload.len() as int } else { 96 };
    let ends = prefix_ends(payload, minimum_prefix(profile), end);
    if ends.len() == 0 {
        Err(XllError::Invalid("alternate XLL prefix CRC"))
    } else if ends.len() > 1 {
        Err(XllError::Invalid("ambiguous alternate XLL prefix"))
    } else {
        let start = ends[0] + 6;
        if start < payload.len() && payload[start] == 0xb2 {
            Ok((start as usize, 7, (start + 12) as usize))
        } else if start < payload.len() && 0xc2 <= payload[start] <= 0xc6 {
            Ok((start as usize, 8, (start + 12) as usize))
        } else {
            Err(
                match profile {
                    AlternateProfile::D0 => XllError::Invalid("alternate D0 control tag"),
                    AlternateProfile::D1 => XllError::Invalid("alternate D1 control tag"),
                    AlternateProfile::D3 => XllError::Invalid("alternate D3 control tag"),
                },
            )
        }
    }
}

proof fn lemma_prefix_ends(payload: Seq<u8>, first: int, k: int, end: int)
    requires
        k <= end,
    ensures
        prefix_ends(payload, first, k).len() <= prefix_ends(payload, first, end).len(),
    decreases end - first,
{
    if end > first && k < end {
        lemma_prefix_ends(payload, first, k, end - 1);
    }
}

pub fn alternate_outer_layout(payload: &[u8], profile: AlternateProfile) -> (r: Result<
    (usize, usize, usize),
    XllError,
>)
    ensures
        r == outer_layout(payload@, profile),
        r matches Ok((start, size, bias)) ==> 54 <= start <= 102 && 7 <= size <= 8 && bias == start
            + 12,
{
    let first: usize = match profile {
        AlternateProfile::D0 => 48,
        AlternateProfile::D1 => 49,
        AlternateProfile::D3 => 49,
    };
    let end: usize = if payload.len() < MAX_PREFIX_BYTES { payload.len() } else { MAX_PREFIX_BYTES };
    let mut found: Option<usize> = None;
    let mut candidate: usize = first;
    while candidate < end
        invariant
            first == minimum_prefix(profile),
            end == (if payload@.len() < 96 { payload@.len() as int } else { 96 }),
            first <= candidate,
            candidate <= end || candidate == first,
            match found {
                None => prefix_ends(payload@, first as int, candidate as int).len() == 0,
                Some(at) => {
                    let ends = prefix_ends(payload@, first as int, candidate as int);
                    &&& ends.len() == 1
                    &&& ends[0] == at
                    &&& first <= at < candidate
                },
            },
        decreases end - candidate,
    {
        if matches_at(payload, &XLL_X_ALT_OUTER_SUFFIX, candidate) {
            assert(payload@.subrange(0, candidate as int) =~= payload@.take(candidate as int));
            if crc16_ccitt(slice_subrange(payload, 0, candidate)) == 0 {
                if found.is_some() {
                    proof {
                        lemma_prefix_ends(payload@, first as int, candidate + 1, end as int);
                    }
                    return Err(XllError::Invalid("ambiguous alternate XLL prefix"));
                }
                found = Some(candidate);
            }
        }
        candidate = candidate + 1;
    }
    proof {
        if first >= end {
            assert(prefix_ends(payload@, first as int, end as int).len() == 0);
        }
    }
    let prefix_end: usize = match found {
        Some(v) => v,
        None => return Err(XllError::Invalid("alternate XLL prefix CRC")),
    };
    let start: usize = prefix_end + 6;
    if start < payload.len() {
        let tag: u8 = payload[start];
        if tag == 0xb2 {
            return Ok((start, 7, start + 12));
        }
        if 0xc2 <= tag && tag <= 0xc6 {
            return Ok((start, 8, start + 12));
        }
    }
    Err(
        match profile {
            AlternateProfile::D0 => XllError::Invalid("alternate D0 control tag"),
            AlternateProfile::D1 => XllError::Invalid("alternate D1 control tag"),
            AlternateProfile::D3 => XllError::Invalid("alternate D3 control tag"),
        },
    )
}

/// The mask of channel sets that a marker at `i` announces, if one stands
/// there after a CRC-valid prefix: 1 for the first set alone, 3 for both.
pub open spec fn announced_sets(payload: Seq<u8>, i: int) -> Option<u8> {
    if i < payload.len() && (payload[i] == 1 || payload[i] == 3) && stands_at(
        payload,
        XLL_X_ALT_MARKER_TAIL@,
        i + 1,
    ) && crc_of(payload.take(i)) == 0 {
        Some(payload[i])
    } else {
        None
    }
}

/// The indices in `first..end` at which a marker ends a prefix.
pub open spec fn marker_offsets(payload: Seq<u8>, first: int, end: int) -> Seq<int>
    decreases end - first,
{
    if end <= first {
        Seq::empty()
    } else if announced_sets(payload, end - 1) is Some {
        marker_offsets(payload, first, end - 1).push(end - 1)
    } else {
        marker_offsets(payload, first, end - 1)
    }
}

/// The length of the one CRC-protected prefix, and the mask of the channel
/// sets that follow it.
pub open spec fn protected_prefix(payload: Seq<u8>) -> Result<(usize, u8), XllError> {
    let end = if payload.len() < 96 { payload.len() as int } else { 96 };
    let ends = marker_offsets(payload, 6, end);
    if ends.len() == 0 {
        Err(XllError::Invalid("alternate XLL prefix CRC"))
    } else if ends.len() > 1 {
        Err(XllError::Invalid("ambiguous alternate XLL prefix"))
    } else {
        Ok((ends[0] as usize, announced_sets(payload, ends[0])->0))
    }
}

proof fn lemma_marker_offsets(payload: Seq<u8>, first: int, k: int, end: int)
    requires
        k <= end,
    ensures
        marker_offsets(payload, first, k).len() <= marker_offsets(payload, first, end).len(),
    decreases end - first,
{
    if end > first && k < end {
        lemma_marker_offsets(payload, first, k, end - 1);
    }
}

pub fn alternate_protected_prefix(payload: &[u8]) -> (r: Result<(usize, u8), XllError>)
    ensures
        r == protected_prefix(payload@),
        r matches Ok((n, mask)) ==> 6 <= n < payload@.len() && crc_of(payload@.take(n as int)) == 0,
{
    let end: usize = if payload.len() < MAX_PREFIX_BYTES { payload.len() } else { MAX_PREFIX_BYTES };
    let mut found: Option<(usize, u8)> = None;
    let mut candidate: usize = MIN_PREFIX_BYTES;
    while candidate < end
        invariant
            end == (if payload@.len() < 96 { payload@.len() as int } else { 96 }),
            6 <= candidate,
            candidate <= end || candidate == 6,
            match found {
                None => marker_offsets(payload@, 6, candidate as int).len() == 0,
                Some((at, mask)) => {
                    let ends = marker_offsets(payload@, 6, candidate as int);
                    &&& ends.len() == 1
                    &&& ends[0] == at
                    &&& 6 <= at < candidate
                    &&& announced_sets(payload@, at as int) == Some(mask)
                },
            },
        decreases end - candidate,
    {
        let mask: u8 = payload[candidate];
        if (mask == 1 || mask == 3) && matches_at(payload, &XLL_X_ALT_MARKER_TAIL, candidate + 1) {
            assert(payload@.subrange(0, candidate as int) =~= payload@.take(candidate as int));
            if crc16_ccitt(slice_subrange(payload, 0, candidate)) == 0 {
                if found.is_some() {
                    proof {
                        lemma_marker_offsets(payload@, 6, candidate + 1, end as int);
                    }
                    return Err(XllError::Invalid("ambiguous alternate XLL prefix"));
                }
                found = Some((candidate, mask));
            }
        }
        candidate = candidate + 1;
    }
    proof {
        if 6 >= end {
            assert(marker_offsets(payload@, 6, end as int).len() == 0);
        }
    }
    match found {
        Some(v) => Ok(v),
        None => Err(XllError::Invalid("alternate XLL prefix CRC")),
    }
}

/// The profile of a sync word.
pub open spec fn profile_of(sync: int) -> Option<AlternateProfile> {
    if sync == DCA_SYNCWORD_XLL_X_ALT_D0 {
        Some(AlternateProfile::D0)
    } else if sync == DCA_SYNCWORD_XLL_X_ALT_D1 {
        Some(AlternateProfile::D1)
    } else if sync == DCA_SYNCWORD_XLL_X_ALT_D3 {
        Some(AlternateProfile::D3)
    } else {
        None
    }
}

/// Channels of a profile's first set.
pub open spec fn first_channels(profile: AlternateProfile) -> int {
    match profile {
        AlternateProfile::D0 => 1,
        AlternateProfile::D1 => 2,
        AlternateProfile::D3 => 4,
    }
}

/// The layout under a known profile and outer layout.
pub open spec fn layout_from(
    payload: Seq<u8>,
    profile: AlternateProfile,
    start: int,
    size: int,
    bias: int,
) -> Result<AlternateLayout, XllError> {
    if start + size > payload.len() {
        Err(XllError::Invalid("short alternate XLL outer control"))
    } else {
        let control = payload.subrange(start, start + size);
        match unique_geometry(control, 18, if profile == AlternateProfile::D3 { 31 } else { 25 }) {
            Err(e) => Err(e),
            Ok((common, first_geometry)) => match header_at(payload, start + size) {
                None => Err(XllError::Invalid("invalid alternate XLL first header")),
                Some(first_header) => if first_header.channels != first_channels(profile) {
                    Err(XllError::Invalid("unexpected alternate XLL first channel count"))
                } else {
                    match second_header(payload, control, common, bias) {
                        Err(e) => Err(e),
                        Ok(second) => match inner_control(payload, second.offset as int) {
                            Err(e) => Err(e),
                            Ok(inner) => match unique_geometry(
                                inner,
                                if profile == AlternateProfile::D0 { 18 } else { 19 },
                                26,
                            ) {
                                Err(e) => Err(e),
                                Ok((_, second_geometry)) => Ok(
                                    AlternateLayout {
                                        first_header,
                                        second_header: second,
                                        first_geometry,
                                        second_geometry,
                                    },
                                ),
                            },
                        },
                    }
                },
            },
        }
    }
}

/// The layout of an alternate payload.
pub open spec fn layout(payload: Seq<u8>) -> Result<AlternateLayout, XllError> {
    if payload.len() < 4 {
        Err(XllError::Invalid("short alternate XLL payload"))
    } else {
        match profile_of(field(payload, 0, 32)) {
            None => Err(XllError::Invalid("unknown alternate XLL profile")),
            Some(profile) => match outer_layout(payload, profile) {
                Err(e) => Err(e),
                Ok((start, size, bias)) => layout_from(
                    payload,
                    profile,
                    start as int,
                    size as int,
                    bias as int,
                ),
            },
        }
    }
}

fn alternate_layout_from(
    payload: &[u8],
    profile: AlternateProfile,
    start: usize,
    size: usize,
    bias: usize,
) -> (r: Result<AlternateLayout, XllError>)
    requires
        8 * payload@.len() <= usize::MAX,
        start <= 102,
        size <= 8,
    ensures
        r == layout_from(payload@, profile, start as int, size as int, bias as int),
        r matches Ok(l) ==> geometry_wf(l.first_geometry) && geometry_wf(l.second_geometry),
{
    let first_offset: usize = start + size;
    if first_offset > payload.len() {
        return Err(XllError::Invalid("short alternate XLL outer control"));
    }
    let control: &[u8] = slice_subrange(payload, start, first_offset);
    let first_end: usize = if profile == AlternateProfile::D3 { 31 } else { 25 };
    let (common, first_geometry) = alternate_unique_geometry(control, 18, first_end)?;
    let first_header: AlternateHeader = match alternate_header_at(payload, first_offset) {
        Some(v) => v,
        None => return Err(XllError::Invalid("invalid alternate XLL first header")),
    };
    let channels: usize = match profile {
        AlternateProfile::D0 => 1,
        AlternateProfile::D1 => 2,
        AlternateProfile::D3 => 4,
    };
    if first_header.channels != channels {
        return Err(XllError::Invalid("unexpected alternate XLL first channel count"));
    }
    let second_header: AlternateHeader = alternate_second_header(payload, control, common, bias)?;
    let inner: &[u8] = alternate_inner_control(payload, second_header.offset)?;
    let second_start: usize = if profile == AlternateProfile::D0 { 18 } else { 19 };
    let (_, second_geometry) = alternate_unique_geometry(inner, second_start, 26)?;
    Ok(AlternateLayout { first_header, second_header, first_geometry, second_geometry })
}

/// Find the two channel sets of an alternate payload.
pub fn alternate_layout(payload: &[u8]) -> (r: Result<AlternateLayout, XllError>)
    requires
        8 * payload@.len() <= usize::MAX,
    ensures
        r == layout(payload@),
        r matches Ok(l) ==> geometry_wf(l.first_geometry) && geometry_wf(l.second_geometry),
{
    let reader: BitReader = BitReader::new(payload);
    let sync: u32 = match reader.show_bits(32) {
        Some(v) => v,
        None => return Err(XllError::Invalid("short alternate XLL payload")),
    };
    let profile: AlternateProfile = if sync == DCA_SYNCWORD_XLL_X_ALT_D0 {
        AlternateProfile::D0
    } else if sync == DCA_SYNCWORD_XLL_X_ALT_D1 {
        AlternateProfile::D1
    } else if sync == DCA_SYNCWORD_XLL_X_ALT_D3 {
        AlternateProfile::D3
    } else {
        return Err(XllError::Invalid("unknown alternate XLL profile"));
    };
    let (start, size, bias) = alternate_outer_layout(payload, profile)?;
    alternate_layout_from(payload, profile, start, size, bias)
}

} // verus!
