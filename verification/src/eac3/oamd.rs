//! Object audio metadata (OAMD): which objects exist, which of them are bed
//! channels, and the updates of each in the frame.

use vstd::prelude::*;
use crate::bits::{code_space, field, flag, BitReader};
use crate::grammar::{lemma_repeat_err, parsed, parsed_view, repeat, rows};
use super::fields::{missing, read_bit, read_bits, skip_bits};
use super::oamd_block::{object_block, parse_oamd_object_block, OamdObjectBlock};
use super::syncframe::ParseError;
use super::types::BedChannel;

verus! {

/// Objects of each intermediate spatial format.
pub const ISF_OBJECT_COUNT: [usize; 6] = [4, 8, 10, 14, 15, 30];

/// Sample offsets of the indexed offset code.
pub const SAMPLE_OFFSET_INDEX: [u8; 4] = [8, 16, 18, 24];

/// Ramp durations of the direct codes.
pub const RAMP_DURATIONS: [i16; 3] = [0, 512, 1536];

/// Ramp durations of the indexed code.
pub const RAMP_DURATION_INDEX: [i16; 16] = [
    32, 64, 128, 256, 320, 480, 1000, 1001, 1024, 1600, 1601, 1602, 1920, 2000, 2002, 2048,
];

/// When a block takes effect and how long it takes to.
#[derive(Debug, Clone, Copy, PartialEq, Eq, Structural)]
pub struct OamdBlockUpdate {
    pub offset: i16,
    pub ramp_duration: i16,
}

#[derive(Debug, Clone, PartialEq, Eq)]
pub struct OamdObjectElement {
    pub sample_offset: u8,
    pub block_updates: Vec<OamdBlockUpdate>,
    pub object_blocks: Vec<Vec<OamdObjectBlock>>,
}

#[derive(Debug, Clone, PartialEq, Eq)]
pub enum OamdElementKind {
    Unknown,
    Object(OamdObjectElement),
}

#[derive(Debug, Clone, PartialEq, Eq)]
pub struct OamdElement {
    pub element_index: u8,
    pub byte_length: usize,
    pub kind: OamdElementKind,
}

#[derive(Debug, Clone, PartialEq, Eq)]
pub struct OamdPayload {
    pub version: u8,
    pub object_count: usize,
    pub alternate_object_present: bool,
    pub element_count: usize,
    pub beds: usize,
    pub bed_instances: usize,
    pub bed_or_isf_objects: usize,
    pub dynamic_objects: usize,
    pub isf_in_use: bool,
    pub isf_index: Option<u8>,
    pub bed_assignment: Vec<Vec<BedChannel>>,
    pub elements: Vec<OamdElement>,
}

/// [`OamdObjectElement`] over sequences.
pub struct OamdObjectElementModel {
    pub sample_offset: u8,
    pub block_updates: Seq<OamdBlockUpdate>,
    pub object_blocks: Seq<Seq<OamdObjectBlock>>,
}

/// [`OamdElementKind`] over sequences.
pub enum OamdElementKindModel {
    Unknown,
    Object(OamdObjectElementModel),
}

/// [`OamdElement`] over sequences.
pub struct OamdElementModel {
    pub element_index: u8,
    pub byte_length: usize,
    pub kind: OamdElementKindModel,
}

/// [`OamdPayload`] over sequences.
pub struct OamdPayloadModel {
    pub version: u8,
    pub object_count: usize,
    pub alternate_object_present: bool,
    pub element_count: usize,
    pub beds: usize,
    pub bed_instances: usize,
    pub bed_or_isf_objects: usize,
    pub dynamic_objects: usize,
    pub isf_in_use: bool,
    pub isf_index: Option<u8>,
    pub bed_assignment: Seq<Seq<BedChannel>>,
    pub elements: Seq<OamdElementModel>,
}

impl View for OamdObjectElement {
    type V = OamdObjectElementModel;

    open spec fn view(&self) -> OamdObjectElementModel {
        OamdObjectElementModel {
            sample_offset: self.sample_offset,
            block_updates: self.block_updates@,
            object_blocks: rows(self.object_blocks@),
        }
    }
}

impl View for OamdElementKind {
    type V = OamdElementKindModel;

    open spec fn view(&self) -> OamdElementKindModel {
        match self {
            OamdElementKind::Unknown => OamdElementKindModel::Unknown,
            OamdElementKind::Object(element) => OamdElementKindModel::Object(element@),
        }
    }
}

impl View for OamdElement {
    type V = OamdElementModel;

    open spec fn view(&self) -> OamdElementModel {
        OamdElementModel {
            element_index: self.element_index,
            byte_length: self.byte_length,
            kind: self.kind@,
        }
    }
}

/// The elements of a payload over sequences.
pub open spec fn element_models(elements: Seq<OamdElement>) -> Seq<OamdElementModel> {
    Seq::new(elements.len(), |i: int| elements[i]@)
}

impl View for OamdPayload {
    type V = OamdPayloadModel;

    open spec fn view(&self) -> OamdPayloadModel {
        OamdPayloadModel {
            version: self.version,
            object_count: self.object_count,
            alternate_object_present: self.alternate_object_present,
            element_count: self.element_count,
            beds: self.beds,
            bed_instances: self.bed_instances,
            bed_or_isf_objects: self.bed_or_isf_objects,
            dynamic_objects: self.dynamic_objects,
            isf_in_use: self.isf_in_use,
            isf_index: self.isf_index,
            bed_assignment: rows(self.bed_assignment@),
            elements: element_models(self.elements@),
        }
    }
}

/// Channel of each bit of an individually assigned bed.
pub open spec fn bed_channel_of(index: int) -> BedChannel {
    if index == 0 { BedChannel::FrontLeft }
    else if index == 1 { BedChannel::FrontRight }
    else if index == 2 { BedChannel::Center }
    else if index == 3 { BedChannel::LowFrequencyEffects }
    else if index == 4 { BedChannel::SurroundLeft }
    else if index == 5 { BedChannel::SurroundRight }
    else if index == 6 { BedChannel::RearLeft }
    else if index == 7 { BedChannel::RearRight }
    else if index == 8 { BedChannel::TopFrontLeft }
    else if index == 9 { BedChannel::TopFrontRight }
    else if index == 10 { BedChannel::TopSurroundLeft }
    else if index == 11 { BedChannel::TopSurroundRight }
    else if index == 12 { BedChannel::TopRearLeft }
    else if index == 13 { BedChannel::TopRearRight }
    else if index == 14 { BedChannel::WideLeft }
    else if index == 15 { BedChannel::WideRight }
    else { BedChannel::LowFrequencyEffects2 }
}

/// Channels of each bit of a standard bed.
pub open spec fn standard_channels(index: int) -> Seq<BedChannel> {
    if index == 0 { seq![BedChannel::FrontLeft, BedChannel::FrontRight] }
    else if index == 1 { seq![BedChannel::Center] }
    else if index == 2 { seq![BedChannel::LowFrequencyEffects] }
    else if index == 3 { seq![BedChannel::SurroundLeft, BedChannel::SurroundRight] }
    else if index == 4 { seq![BedChannel::RearLeft, BedChannel::RearRight] }
    else if index == 5 { seq![BedChannel::TopFrontLeft, BedChannel::TopFrontRight] }
    else if index == 6 { seq![BedChannel::TopSurroundLeft, BedChannel::TopSurroundRight] }
    else if index == 7 { seq![BedChannel::TopRearLeft, BedChannel::TopRearRight] }
    else if index == 8 { seq![BedChannel::WideLeft, BedChannel::WideRight] }
    else { seq![BedChannel::LowFrequencyEffects2] }
}

pub const BED_CHANNEL_BITS: usize = 17;
pub const STANDARD_BED_BITS: usize = 10;

/// The channels that the first `k` of `n` assignment bits enable. The last
/// bit of the field is index 0.
pub open spec fn assigned(d: Seq<u8>, p: int, n: int, k: int, standard: bool) -> Seq<BedChannel>
    decreases k,
{
    if k <= 0 {
        Seq::empty()
    } else if !flag(d, p + (n - k)) {
        assigned(d, p, n, k - 1, standard)
    } else if standard {
        assigned(d, p, n, k - 1, standard) + standard_channels(k - 1)
    } else {
        assigned(d, p, n, k - 1, standard).push(bed_channel_of(k - 1))
    }
}

fn bed_channel(index: usize) -> (r: BedChannel)
    ensures
        r == bed_channel_of(index as int),
{
    match index {
        0 => BedChannel::FrontLeft,
        1 => BedChannel::FrontRight,
        2 => BedChannel::Center,
        3 => BedChannel::LowFrequencyEffects,
        4 => BedChannel::SurroundLeft,
        5 => BedChannel::SurroundRight,
        6 => BedChannel::RearLeft,
        7 => BedChannel::RearRight,
        8 => BedChannel::TopFrontLeft,
        9 => BedChannel::TopFrontRight,
        10 => BedChannel::TopSurroundLeft,
        11 => BedChannel::TopSurroundRight,
        12 => BedChannel::TopRearLeft,
        13 => BedChannel::TopRearRight,
        14 => BedChannel::WideLeft,
        15 => BedChannel::WideRight,
        _ => BedChannel::LowFrequencyEffects2,
    }
}

fn push_standard_channels(channels: &mut Vec<BedChannel>, index: usize)
    ensures
        final(channels)@ =~= old(channels)@ + standard_channels(index as int),
{
    match index {
        0 => {
            channels.push(BedChannel::FrontLeft);
            channels.push(BedChannel::FrontRight);
        },
        1 => channels.push(BedChannel::Center),
        2 => channels.push(BedChannel::LowFrequencyEffects),
        3 => {
            channels.push(BedChannel::SurroundLeft);
            channels.push(BedChannel::SurroundRight);
        },
        4 => {
            channels.push(BedChannel::RearLeft);
            channels.push(BedChannel::RearRight);
        },
        5 => {
            channels.push(BedChannel::TopFrontLeft);
            channels.push(BedChannel::TopFrontRight);
        },
        6 => {
            channels.push(BedChannel::TopSurroundLeft);
            channels.push(BedChannel::TopSurroundRight);
        },
        7 => {
            channels.push(BedChannel::TopRearLeft);
            channels.push(BedChannel::TopRearRight);
        },
        8 => {
            channels.push(BedChannel::WideLeft);
            channels.push(BedChannel::WideRight);
        },
        _ => channels.push(BedChannel::LowFrequencyEffects2),
    }
}

/// A run of flags, the last one transmitted first.
pub open spec fn bit_vec(d: Seq<u8>, lim: int, p: int, n: int) -> Result<(Seq<bool>, int), ParseError> {
    if p + n > lim && n > 0 {
        missing("bit-array")
    } else {
        Ok((Seq::new(n as nat, |i: int| flag(d, p + (n - 1 - i))), p + n))
    }
}

fn read_bit_vec(reader: &mut BitReader<'_>, bits: usize) -> (r: Result<Vec<bool>, ParseError>)
    requires
        old(reader).wf(),
    ensures
        final(reader).wf(),
        final(reader).same_source(old(reader)),
        parsed_view(
            r,
            bit_vec(old(reader).data(), old(reader).limit(), old(reader).pos(), bits as int),
            final(reader).pos(),
        ),
{
    let mut flags: Vec<bool> = Vec::new();
    let mut i: usize = 0;
    while i < bits
        invariant
            i <= bits,
            reader.wf(),
            reader.same_source(old(reader)),
            reader.pos() == old(reader).pos() + i,
            i > 0 ==> old(reader).has(i as int),
            flags@.len() == i,
            forall|k: int|
                0 <= k < i ==> #[trigger] flags@[k] == flag(old(reader).data(), old(reader).pos() + k),
        decreases bits - i,
    {
        let v: bool = read_bit(reader, "bit-array")?;
        flags.push(v);
        i = i + 1;
    }
    let mut result: Vec<bool> = Vec::new();
    let mut k: usize = 0;
    while k < bits
        invariant
            k <= bits,
            flags@.len() == bits,
            result@.len() == k,
            forall|j: int| 0 <= j < bits ==> #[trigger] flags@[j] == flag(
                old(reader).data(),
                old(reader).pos() + j,
            ),
            forall|j: int| 0 <= j < k ==> #[trigger] result@[j] == flag(
                old(reader).data(),
                old(reader).pos() + (bits - 1 - j),
            ),
        decreases bits - k,
    {
        result.push(flags[bits - 1 - k]);
        k = k + 1;
    }
    assert(result@ =~= Seq::new(
        bits as nat,
        |i: int| flag(old(reader).data(), old(reader).pos() + (bits - 1 - i)),
    ));
    Ok(result)
}

/// One bed: a lone LFE channel, a standard assignment, or one bit per channel.
pub open spec fn bed(d: Seq<u8>, lim: int, p: int) -> Result<(Seq<BedChannel>, int), ParseError> {
    if p + 1 > lim {
        missing("b_lfe_only_bed")
    } else if flag(d, p) {
        Ok((seq![BedChannel::LowFrequencyEffects], p + 1))
    } else if p + 2 > lim {
        missing("b_standard_bed")
    } else {
        let standard = flag(d, p + 1);
        let n = if standard { STANDARD_BED_BITS as int } else { BED_CHANNEL_BITS as int };
        if p + 2 + n > lim {
            missing("bit-array")
        } else {
            Ok((assigned(d, p + 2, n, n, standard), p + 2 + n))
        }
    }
}

fn parse_bed(reader: &mut BitReader<'_>) -> (r: Result<Vec<BedChannel>, ParseError>)
    requires
        old(reader).wf(),
    ensures
        final(reader).wf(),
        final(reader).same_source(old(reader)),
        parsed_view(
            r,
            bed(old(reader).data(), old(reader).limit(), old(reader).pos()),
            final(reader).pos(),
        ),
{
    let mut channels: Vec<BedChannel> = Vec::new();
    if read_bit(reader, "b_lfe_only_bed")? {
        channels.push(BedChannel::LowFrequencyEffects);
        assert(channels@ =~= seq![BedChannel::LowFrequencyEffects]);
        return Ok(channels);
    }
    let standard: bool = read_bit(reader, "b_standard_bed")?;
    let n: usize = if standard { STANDARD_BED_BITS } else { BED_CHANNEL_BITS };
    let ghost p = reader.pos();
    let enabled: Vec<bool> = read_bit_vec(reader, n)?;
    let mut k: usize = 0;
    while k < n
        invariant
            k <= n,
            enabled@.len() == n,
            n == if standard { STANDARD_BED_BITS } else { BED_CHANNEL_BITS },
            forall|j: int| 0 <= j < n ==> #[trigger] enabled@[j] == flag(
                old(reader).data(),
                p + (n - 1 - j),
            ),
            channels@ == assigned(old(reader).data(), p, n as int, k as int, standard),
        decreases n - k,
    {
        assert(enabled@[k as int] == flag(old(reader).data(), p + (n - (k + 1))));
        if enabled[k] {
            if standard {
                push_standard_channels(&mut channels, k);
            } else {
                channels.push(bed_channel(k));
            }
        }
        k = k + 1;
    }
    Ok(channels)
}

pub open spec fn bed_step(d: Seq<u8>, lim: int) -> spec_fn(int, int) -> Result<
    (Seq<BedChannel>, int),
    ParseError,
> {
    |i: int, q: int| bed(d, lim, q)
}

/// How many beds the bed group holds.
pub open spec fn bed_instances(d: Seq<u8>, lim: int, p: int) -> Result<(int, int), ParseError> {
    if p + 1 > lim {
        missing("b_bed_distributable")
    } else if p + 2 > lim {
        missing("b_multi_bed")
    } else if !flag(d, p + 1) {
        Ok((1, p + 2))
    } else if p + 5 > lim {
        missing("num_bed_instances")
    } else {
        Ok((field(d, p + 2, 3) + 2, p + 5))
    }
}

/// All beds of a program that has any.
pub open spec fn beds(d: Seq<u8>, lim: int, p: int) -> Result<(Seq<Seq<BedChannel>>, int), ParseError> {
    match bed_instances(d, lim, p) {
        Err(e) => Err(e),
        Ok((n, q)) => repeat(bed_step(d, lim), q, n),
    }
}

fn parse_beds(reader: &mut BitReader<'_>) -> (r: Result<Vec<Vec<BedChannel>>, ParseError>)
    requires
        old(reader).wf(),
    ensures
        final(reader).wf(),
        final(reader).same_source(old(reader)),
        match r {
            Ok(v) => beds(old(reader).data(), old(reader).limit(), old(reader).pos()) == Ok::<
                (Seq<Seq<BedChannel>>, int),
                ParseError,
            >((rows(v@), final(reader).pos())),
            Err(e) => beds(old(reader).data(), old(reader).limit(), old(reader).pos()) == Err::<
                (Seq<Seq<BedChannel>>, int),
                ParseError,
            >(e),
        },
{
    read_bit(reader, "b_bed_distributable")?;
    let multi: bool = read_bit(reader, "b_multi_bed")?;
    let n: usize = if multi {
        read_bits(reader, 3, "num_bed_instances")? as usize + 2
    } else {
        1
    };
    let ghost step = bed_step(reader.data(), reader.limit());
    let ghost p = reader.pos();
    let mut out: Vec<Vec<BedChannel>> = Vec::new();
    assert(rows(out@) =~= Seq::empty());
    let mut i: usize = 0;
    while i < n
        invariant
            i <= n,
            reader.wf(),
            reader.same_source(old(reader)),
            step == bed_step(reader.data(), reader.limit()),
            beds(old(reader).data(), old(reader).limit(), old(reader).pos()) == repeat(
                step,
                p,
                n as int,
            ),
            repeat(step, p, i as int) == Ok::<(Seq<Seq<BedChannel>>, int), ParseError>(
                (rows(out@), reader.pos()),
            ),
        decreases n - i,
    {
        match parse_bed(reader) {
            Ok(channels) => {
                let ghost before = rows(out@);
                out.push(channels);
                assert(rows(out@) =~= before.push(channels@));
            },
            Err(e) => {
                proof {
                    lemma_repeat_err(step, p, i + 1, n as int);
                }
                return Err(e);
            },
        }
        i = i + 1;
    }
    Ok(out)
}

/// Which objects stand for beds and which spatial format is in use.
pub struct ProgramModel {
    pub beds: Seq<Seq<BedChannel>>,
    pub isf_in_use: bool,
    pub isf_index: Option<u8>,
}

/// The executable form of [`ProgramModel`].
pub struct ProgramAssignment {
    pub beds: Vec<Vec<BedChannel>>,
    pub isf_in_use: bool,
    pub isf_index: Option<u8>,
}

impl View for ProgramAssignment {
    type V = ProgramModel;

    open spec fn view(&self) -> ProgramModel {
        ProgramModel {
            beds: rows(self.beds@),
            isf_in_use: self.isf_in_use,
            isf_index: self.isf_index,
        }
    }
}

/// The spatial format index, if the program uses one.
pub open spec fn isf_field(d: Seq<u8>, lim: int, p: int, present: bool) -> Result<
    (Option<u8>, int),
    ParseError,
> {
    if !present {
        Ok((None, p))
    } else if p + 3 > lim {
        missing("isf_index")
    } else if field(d, p, 3) >= 6 {
        Err(ParseError::UnsupportedFeature("ISF"))
    } else {
        Ok((Some(field(d, p, 3) as u8), p + 3))
    }
}

/// The count of anchored objects, read past.
pub open spec fn anchored_field(d: Seq<u8>, lim: int, p: int, present: bool) -> Result<
    ((), int),
    ParseError,
> {
    if !present {
        Ok(((), p))
    } else if p + 5 > lim {
        missing("room_or_screen_anchored_objects")
    } else if field(d, p, 5) != 31 {
        Ok(((), p + 5))
    } else if p + 12 > lim {
        missing("room_or_screen_anchored_objects-ext")
    } else {
        Ok(((), p + 12))
    }
}

/// Reserved content, read past.
pub open spec fn reserved_field(d: Seq<u8>, lim: int, p: int, present: bool) -> Result<
    ((), int),
    ParseError,
> {
    if !present {
        Ok(((), p))
    } else if p + 4 > lim {
        missing("reserved_content_description")
    } else if p + 4 + 8 * (field(d, p, 4) + 1) > lim {
        missing("reserved_content_description-bytes")
    } else {
        Ok(((), p + 4 + 8 * (field(d, p, 4) + 1)))
    }
}

/// The program assignment: a dynamic-object-only program with at most an LFE
/// bed, or the groups that a four-bit content description announces.
pub open spec fn program(d: Seq<u8>, lim: int, p: int) -> Result<(ProgramModel, int), ParseError> {
    if p + 1 > lim {
        missing("b_dyn_object_only_program")
    } else if flag(d, p) {
        if p + 2 > lim {
            missing("b_lfe_present")
        } else {
            Ok(
                (
                    ProgramModel {
                        beds: if flag(d, p + 1) {
                            seq![seq![BedChannel::LowFrequencyEffects]]
                        } else {
                            Seq::empty()
                        },
                        isf_in_use: false,
                        isf_index: None,
                    },
                    p + 2,
                ),
            )
        }
    } else if p + 5 > lim {
        missing("content_description")
    } else {
        let content = field(d, p + 1, 4);
        match (if content % 2 == 1 { beds(d, lim, p + 5) } else { Ok((Seq::empty(), p + 5)) }) {
            Err(e) => Err(e),
            Ok((list, p1)) => match isf_field(d, lim, p1, (content / 2) % 2 == 1) {
                Err(e) => Err(e),
                Ok((isf_index, p2)) => match anchored_field(d, lim, p2, (content / 4) % 2 == 1) {
                    Err(e) => Err(e),
                    Ok((_, p3)) => match reserved_field(d, lim, p3, (content / 8) % 2 == 1) {
                        Err(e) => Err(e),
                        Ok((_, p4)) => Ok(
                            (
                                ProgramModel {
                                    beds: list,
                                    isf_in_use: (content / 2) % 2 == 1,
                                    isf_index,
                                },
                                p4,
                            ),
                        ),
                    },
                },
            },
        }
    }
}

fn parse_isf(reader: &mut BitReader<'_>, present: bool) -> (r: Result<Option<u8>, ParseError>)
    requires
        old(reader).wf(),
    ensures
        final(reader).wf(),
        final(reader).same_source(old(reader)),
        parsed(
            r,
            isf_field(old(reader).data(), old(reader).limit(), old(reader).pos(), present),
            final(reader).pos(),
        ),
{
    if !present {
        return Ok(None);
    }
    let index: u32 = read_bits(reader, 3, "isf_index")?;
    if index >= 6 {
        return Err(ParseError::UnsupportedFeature("ISF"));
    }
    Ok(Some(index as u8))
}

fn skip_anchored(reader: &mut BitReader<'_>, present: bool) -> (r: Result<(), ParseError>)
    requires
        old(reader).wf(),
    ensures
        final(reader).wf(),
        final(reader).same_source(old(reader)),
        parsed(
            r,
            anchored_field(old(reader).data(), old(reader).limit(), old(reader).pos(), present),
            final(reader).pos(),
        ),
{
    if !present {
        return Ok(());
    }
    let count: u32 = read_bits(reader, 5, "room_or_screen_anchored_objects")?;
    if count == 31 {
        skip_bits(reader, 7, "room_or_screen_anchored_objects-ext")?;
    }
    Ok(())
}

fn skip_reserved(reader: &mut BitReader<'_>, present: bool) -> (r: Result<(), ParseError>)
    requires
        old(reader).wf(),
    ensures
        final(reader).wf(),
        final(reader).same_source(old(reader)),
        parsed(
            r,
            reserved_field(old(reader).data(), old(reader).limit(), old(reader).pos(), present),
            final(reader).pos(),
        ),
{
    if !present {
        return Ok(());
    }
    let bytes: usize = read_bits(reader, 4, "reserved_content_description")? as usize + 1;
    skip_bits(reader, bytes * 8, "reserved_content_description-bytes")?;
    Ok(())
}

fn parse_program_assignment(reader: &mut BitReader<'_>) -> (r: Result<ProgramAssignment, ParseError>)
    requires
        old(reader).wf(),
    ensures
        final(reader).wf(),
        final(reader).same_source(old(reader)),
        parsed_view(
            r,
            program(old(reader).data(), old(reader).limit(), old(reader).pos()),
            final(reader).pos(),
        ),
{
    let mut beds: Vec<Vec<BedChannel>> = Vec::new();
    assert(rows(beds@) =~= Seq::empty());
    if read_bit(reader, "b_dyn_object_only_program")? {
        if read_bit(reader, "b_lfe_present")? {
            let mut lfe: Vec<BedChannel> = Vec::new();
            lfe.push(BedChannel::LowFrequencyEffects);
            assert(lfe@ =~= seq![BedChannel::LowFrequencyEffects]);
            beds.push(lfe);
            assert(rows(beds@) =~= seq![seq![BedChannel::LowFrequencyEffects]]);
        }
        return Ok(ProgramAssignment { beds, isf_in_use: false, isf_index: None });
    }
    let content: u32 = read_bits(reader, 4, "content_description")?;
    if content % 2 == 1 {
        beds = parse_beds(reader)?;
    }
    let isf_in_use: bool = (content / 2) % 2 == 1;
    let isf_index: Option<u8> = parse_isf(reader, isf_in_use)?;
    skip_anchored(reader, (content / 4) % 2 == 1)?;
    skip_reserved(reader, (content / 8) % 2 == 1)?;
    Ok(ProgramAssignment { beds, isf_in_use, isf_index })
}

/// Offset of the first block, in samples.
pub open spec fn sample_offset(d: Seq<u8>, lim: int, p: int) -> Result<(u8, int), ParseError> {
    if p + 2 > lim {
        missing("mdOffset")
    } else if field(d, p, 2) == 0 {
        Ok((0u8, p + 2))
    } else if field(d, p, 2) == 1 {
        if p + 4 > lim {
            missing("mdOffset-index")
        } else {
            Ok((SAMPLE_OFFSET_INDEX@[field(d, p + 2, 2)], p + 4))
        }
    } else if field(d, p, 2) == 2 {
        if p + 7 > lim {
            missing("mdOffset-explicit")
        } else {
            Ok((field(d, p + 2, 5) as u8, p + 7))
        }
    } else {
        Err(ParseError::UnsupportedFeature("mdOffset"))
    }
}

fn parse_sample_offset(reader: &mut BitReader<'_>) -> (r: Result<u8, ParseError>)
    requires
        old(reader).wf(),
    ensures
        final(reader).wf(),
        final(reader).same_source(old(reader)),
        parsed(
            r,
            sample_offset(old(reader).data(), old(reader).limit(), old(reader).pos()),
            final(reader).pos(),
        ),
        r matches Ok(v) ==> v < 32,
{
    let mode: u32 = read_bits(reader, 2, "mdOffset")?;
    if mode == 0 {
        Ok(0)
    } else if mode == 1 {
        let index: u32 = read_bits(reader, 2, "mdOffset-index")?;
        Ok(SAMPLE_OFFSET_INDEX[index as usize])
    } else if mode == 2 {
        Ok(read_bits(reader, 5, "mdOffset-explicit")? as u8)
    } else {
        Err(ParseError::UnsupportedFeature("mdOffset"))
    }
}

/// Ramp duration in samples.
pub open spec fn ramp_duration(d: Seq<u8>, lim: int, p: int) -> Result<(i16, int), ParseError> {
    if p + 2 > lim {
        missing("ramp_duration_code")
    } else if field(d, p, 2) <= 2 {
        Ok((RAMP_DURATIONS@[field(d, p, 2)], p + 2))
    } else if p + 3 > lim {
        missing("ramp_duration_indexed")
    } else if flag(d, p + 2) {
        if p + 7 > lim {
            missing("ramp_duration_index")
        } else {
            Ok((RAMP_DURATION_INDEX@[field(d, p + 3, 4)], p + 7))
        }
    } else if p + 14 > lim {
        missing("ramp_duration_explicit")
    } else {
        Ok((field(d, p + 3, 11) as i16, p + 14))
    }
}

fn parse_ramp_duration(reader: &mut BitReader<'_>) -> (r: Result<i16, ParseError>)
    requires
        old(reader).wf(),
    ensures
        final(reader).wf(),
        final(reader).same_source(old(reader)),
        parsed(
            r,
            ramp_duration(old(reader).data(), old(reader).limit(), old(reader).pos()),
            final(reader).pos(),
        ),
{
    let code: u32 = read_bits(reader, 2, "ramp_duration_code")?;
    if code <= 2 {
        return Ok(RAMP_DURATIONS[code as usize]);
    }
    if read_bit(reader, "ramp_duration_indexed")? {
        let index: u32 = read_bits(reader, 4, "ramp_duration_index")?;
        Ok(RAMP_DURATION_INDEX[index as usize])
    } else {
        Ok(read_bits(reader, 11, "ramp_duration_explicit")? as i16)
    }
}

/// One block update: its offset, from the frame's sample offset, and its ramp.
pub open spec fn block_update(d: Seq<u8>, lim: int, p: int, base: u8) -> Result<
    (OamdBlockUpdate, int),
    ParseError,
> {
    if p + 6 > lim {
        missing("block_offset_factor")
    } else {
        match ramp_duration(d, lim, p + 6) {
            Err(e) => Err(e),
            Ok((ramp_duration, q)) => Ok(
                (OamdBlockUpdate { offset: (field(d, p, 6) + base) as i16, ramp_duration }, q),
            ),
        }
    }
}

fn parse_block_update(reader: &mut BitReader<'_>, base: u8) -> (r: Result<OamdBlockUpdate, ParseError>)
    requires
        old(reader).wf(),
    ensures
        final(reader).wf(),
        final(reader).same_source(old(reader)),
        parsed(
            r,
            block_update(old(reader).data(), old(reader).limit(), old(reader).pos(), base),
            final(reader).pos(),
        ),
{
    let factor: u32 = read_bits(reader, 6, "block_offset_factor")?;
    let ramp_duration: i16 = parse_ramp_duration(reader)?;
    Ok(OamdBlockUpdate { offset: factor as i16 + base as i16, ramp_duration })
}

pub open spec fn update_step(d: Seq<u8>, lim: int, base: u8) -> spec_fn(int, int) -> Result<
    (OamdBlockUpdate, int),
    ParseError,
> {
    |i: int, q: int| block_update(d, lim, q, base)
}

/// The sample offset and the block updates of an element.
pub open spec fn update_info(d: Seq<u8>, lim: int, p: int) -> Result<
    ((u8, Seq<OamdBlockUpdate>), int),
    ParseError,
> {
    match sample_offset(d, lim, p) {
        Err(e) => Err(e),
        Ok((base, q)) => if q + 3 > lim {
            missing("num_obj_info_blocks")
        } else {
            match repeat(update_step(d, lim, base), q + 3, field(d, q, 3) + 1) {
                Err(e) => Err(e),
                Ok((updates, r)) => Ok(((base, updates), r)),
            }
        },
    }
}

fn parse_md_update_info(reader: &mut BitReader<'_>) -> (r: Result<
    (u8, Vec<OamdBlockUpdate>),
    ParseError,
>)
    requires
        old(reader).wf(),
    ensures
        final(reader).wf(),
        final(reader).same_source(old(reader)),
        match r {
            Ok((base, updates)) => update_info(
                old(reader).data(),
                old(reader).limit(),
                old(reader).pos(),
            ) == Ok::<((u8, Seq<OamdBlockUpdate>), int), ParseError>(
                ((base, updates@), final(reader).pos()),
            ),
            Err(e) => update_info(old(reader).data(), old(reader).limit(), old(reader).pos())
                == Err::<((u8, Seq<OamdBlockUpdate>), int), ParseError>(e),
        },
{
    let base: u8 = parse_sample_offset(reader)?;
    let blocks: usize = read_bits(reader, 3, "num_obj_info_blocks")? as usize + 1;
    let ghost step = update_step(reader.data(), reader.limit(), base);
    let ghost p = reader.pos();
    let ghost whole = update_info(old(reader).data(), old(reader).limit(), old(reader).pos());
    let mut updates: Vec<OamdBlockUpdate> = Vec::new();
    let mut i: usize = 0;
    while i < blocks
        invariant
            i <= blocks,
            reader.wf(),
            reader.same_source(old(reader)),
            step == update_step(reader.data(), reader.limit(), base),
            whole == update_info(old(reader).data(), old(reader).limit(), old(reader).pos()),
            whole == match repeat(step, p, blocks as int) {
                Err(e) => Err::<((u8, Seq<OamdBlockUpdate>), int), ParseError>(e),
                Ok((updates, r)) => Ok(((base, updates), r)),
            },
            repeat(step, p, i as int) == Ok::<(Seq<OamdBlockUpdate>, int), ParseError>(
                (updates@, reader.pos()),
            ),
        decreases blocks - i,
    {
        match parse_block_update(reader, base) {
            Ok(v) => updates.push(v),
            Err(e) => {
                proof {
                    lemma_repeat_err(step, p, i + 1, blocks as int);
                }
                return Err(e);
            },
        }
        i = i + 1;
    }
    Ok((base, updates))
}

pub open spec fn block_step(d: Seq<u8>, lim: int, bed: bool) -> spec_fn(int, int) -> Result<
    (OamdObjectBlock, int),
    ParseError,
> {
    |i: int, q: int| object_block(d, lim, q, i == 0, bed)
}

/// All blocks of object `i`; the first `beds` objects are beds.
pub open spec fn object_step(d: Seq<u8>, lim: int, blocks: int, beds: int) -> spec_fn(
    int,
    int,
) -> Result<(Seq<OamdObjectBlock>, int), ParseError> {
    |i: int, q: int| repeat(block_step(d, lim, i < beds), q, blocks)
}

/// An object element: update info, a reserved field, then every object's
/// blocks.
pub open spec fn object_element(d: Seq<u8>, lim: int, p: int, objects: int, beds: int) -> Result<
    (OamdObjectElementModel, int),
    ParseError,
> {
    match update_info(d, lim, p) {
        Err(e) => Err(e),
        Ok((info, p1)) => if p1 + 1 > lim {
            missing("oa_reserved_flag")
        } else if !flag(d, p1) && p1 + 6 > lim {
            missing("oa_reserved_bits")
        } else {
            let p2 = if flag(d, p1) { p1 + 1 } else { p1 + 6 };
            match repeat(object_step(d, lim, info.1.len() as int, beds), p2, objects) {
                Err(e) => Err(e),
                Ok((object_blocks, p3)) => Ok(
                    (
                        OamdObjectElementModel {
                            sample_offset: info.0,
                            block_updates: info.1,
                            object_blocks,
                        },
                        p3,
                    ),
                ),
            }
        },
    }
}

fn parse_object_blocks(reader: &mut BitReader<'_>, blocks: usize, bed: bool) -> (r: Result<
    Vec<OamdObjectBlock>,
    ParseError,
>)
    requires
        old(reader).wf(),
    ensures
        final(reader).wf(),
        final(reader).same_source(old(reader)),
        parsed_view(
            r,
            repeat(
                block_step(old(reader).data(), old(reader).limit(), bed),
                old(reader).pos(),
                blocks as int,
            ),
            final(reader).pos(),
        ),
{
    let ghost step = block_step(reader.data(), reader.limit(), bed);
    let ghost p = reader.pos();
    let mut out: Vec<OamdObjectBlock> = Vec::new();
    let mut i: usize = 0;
    while i < blocks
        invariant
            i <= blocks,
            reader.wf(),
            reader.same_source(old(reader)),
            p == old(reader).pos(),
            step == block_step(reader.data(), reader.limit(), bed),
            repeat(step, p, i as int) == Ok::<(Seq<OamdObjectBlock>, int), ParseError>(
                (out@, reader.pos()),
            ),
        decreases blocks - i,
    {
        match parse_oamd_object_block(reader, i, bed) {
            Ok(v) => out.push(v),
            Err(e) => {
                proof {
                    lemma_repeat_err(step, p, i + 1, blocks as int);
                }
                return Err(e);
            },
        }
        i = i + 1;
    }
    Ok(out)
}

fn parse_all_object_blocks(
    reader: &mut BitReader<'_>,
    objects: usize,
    blocks: usize,
    beds: usize,
) -> (r: Result<Vec<Vec<OamdObjectBlock>>, ParseError>)
    requires
        old(reader).wf(),
    ensures
        final(reader).wf(),
        final(reader).same_source(old(reader)),
        match r {
            Ok(v) => repeat(
                object_step(old(reader).data(), old(reader).limit(), blocks as int, beds as int),
                old(reader).pos(),
                objects as int,
            ) == Ok::<(Seq<Seq<OamdObjectBlock>>, int), ParseError>(
                (rows(v@), final(reader).pos()),
            ),
            Err(e) => repeat(
                object_step(old(reader).data(), old(reader).limit(), blocks as int, beds as int),
                old(reader).pos(),
                objects as int,
            ) == Err::<(Seq<Seq<OamdObjectBlock>>, int), ParseError>(e),
        },
{
    let ghost step = object_step(reader.data(), reader.limit(), blocks as int, beds as int);
    let ghost p = reader.pos();
    let mut out: Vec<Vec<OamdObjectBlock>> = Vec::new();
    assert(rows(out@) =~= Seq::empty());
    let mut i: usize = 0;
    while i < objects
        invariant
            i <= objects,
            reader.wf(),
            reader.same_source(old(reader)),
            p == old(reader).pos(),
            step == object_step(reader.data(), reader.limit(), blocks as int, beds as int),
            repeat(step, p, i as int) == Ok::<(Seq<Seq<OamdObjectBlock>>, int), ParseError>(
                (rows(out@), reader.pos()),
            ),
        decreases objects - i,
    {
        match parse_object_blocks(reader, blocks, i < beds) {
            Ok(v) => {
                let ghost before = rows(out@);
                out.push(v);
                assert(rows(out@) =~= before.push(v@));
            },
            Err(e) => {
                proof {
                    lemma_repeat_err(step, p, i + 1, objects as int);
                }
                return Err(e);
            },
        }
        i = i + 1;
    }
    Ok(out)
}

fn parse_oamd_object_element(reader: &mut BitReader<'_>, object_count: usize, bed_or_isf_objects: usize) -> (r: Result<OamdObjectElement, ParseError>)
    requires
        old(reader).wf(),
    ensures
        final(reader).wf(),
        final(reader).same_source(old(reader)),
        parsed_view(
            r,
            object_element(old(reader).data(), old(reader).limit(), old(reader).pos(), object_count as int, bed_or_isf_objects as int),
            final(reader).pos(),
        ),
{
    let (sample_offset, block_updates) = parse_md_update_info(reader)?;
    if !read_bit(reader, "oa_reserved_flag")? {
        skip_bits(reader, 5, "oa_reserved_bits")?;
    }
    let object_blocks: Vec<Vec<OamdObjectBlock>> = parse_all_object_blocks(
        reader,
        object_count,
        block_updates.len(),
        bed_or_isf_objects,
    )?;
    Ok(OamdObjectElement { sample_offset, block_updates, object_blocks })
}

/// A value in groups of four bits, each followed by a continuation flag. A
/// continued value grows by one before the next group is appended; after
/// `limit` further groups it ends as if it were not continued.
pub open spec fn nibble_groups(
    d: Seq<u8>,
    lim: int,
    p: int,
    limit: int,
    acc: int,
    name: &'static str,
) -> Result<(u32, int), ParseError>
    decreases limit,
{
    if p + 4 > lim {
        missing(name)
    } else {
        let value = acc + field(d, p, 4);
        if value > u32::MAX || p + 5 > lim {
            missing(name)
        } else if !flag(d, p + 4) {
            Ok((value as u32, p + 5))
        } else if value + 1 > u32::MAX {
            missing(name)
        } else {
            let grown = ((value + 1) * 16) % 0x1_0000_0000;
            if limit <= 0 {
                Ok((grown as u32, p + 5))
            } else {
                nibble_groups(d, lim, p + 5, limit - 1, grown, name)
            }
        }
    }
}

/// What a value has grown to at most when `limit` further groups may follow.
spec fn grown_cap(limit: int) -> int {
    if limit >= 4 {
        0
    } else if limit == 3 {
        256
    } else if limit == 2 {
        4352
    } else if limit == 1 {
        69888
    } else {
        1118464
    }
}

proof fn lemma_nibble_groups_from(d: Seq<u8>, lim: int, p: int, limit: int, acc: int, name: &'static str)
    requires
        0 <= limit <= 4,
        0 <= acc <= grown_cap(limit),
    ensures
        nibble_groups(d, lim, p, limit, acc, name) matches Ok((v, q)) ==> v < 0x200_0000 && q
            <= lim,
    decreases limit,
{
    crate::bits::lemma_field_range(d, p, 4);
    let value = acc + field(d, p, 4);
    if limit > 0 {
        assert((value + 1) * 16 <= grown_cap(limit - 1));
        lemma_nibble_groups_from(d, lim, p + 5, limit - 1, (value + 1) * 16, name);
    }
}

/// Four further groups keep a value below 2^25.
proof fn lemma_nibble_groups_bound(d: Seq<u8>, lim: int, p: int, name: &'static str)
    ensures
        nibble_groups(d, lim, p, 4, 0, name) matches Ok((v, q)) ==> v < 0x200_0000 && q <= lim,
{
    lemma_nibble_groups_from(d, lim, p, 4, 0, name);
}

fn read_variable_bits_limited(reader: &mut BitReader<'_>, limit: usize, name: &'static str) -> (r: Result<u32, ParseError>)
    requires
        old(reader).wf(),
    ensures
        final(reader).wf(),
        final(reader).same_source(old(reader)),
        parsed(
            r,
            nibble_groups(old(reader).data(), old(reader).limit(), old(reader).pos(), limit as int, 0, name),
            final(reader).pos(),
        ),
{
    let mut left: usize = limit;
    let mut acc: u32 = 0;
    loop
        invariant
            reader.wf(),
            reader.same_source(old(reader)),
            nibble_groups(
                old(reader).data(),
                old(reader).limit(),
                old(reader).pos(),
                limit as int,
                0,
                name,
            ) == nibble_groups(
                reader.data(),
                reader.limit(),
                reader.pos(),
                left as int,
                acc as int,
                name,
            ),
        decreases left,
    {
        let part: u32 = read_bits(reader, 4, name)?;
        if acc > u32::MAX - part {
            return Err(ParseError::InvalidHeader(name));
        }
        let value: u32 = acc + part;
        let more: bool = read_bit(reader, name)?;
        if !more {
            return Ok(value);
        }
        if value == u32::MAX {
            return Err(ParseError::InvalidHeader(name));
        }
        let grown: u32 = (((value as u64 + 1) * 16) % 0x1_0000_0000) as u32;
        if left == 0 {
            return Ok(grown);
        }
        acc = grown;
        left = left - 1;
    }
}

/// The content of an element: only element id 1 is known.
#[verifier::opaque]
pub open spec fn element_kind(d: Seq<u8>, lim: int, p: int, id: int, objects: int, beds: int) -> Result<
    (OamdElementKindModel, int),
    ParseError,
> {
    if id == 1 {
        match object_element(d, lim, p, objects, beds) {
            Err(e) => Err(e),
            Ok((element, q)) => Ok((OamdElementKindModel::Object(element), q)),
        }
    } else {
        Ok((OamdElementKindModel::Unknown, p))
    }
}

fn parse_element_kind(reader: &mut BitReader<'_>, id: u8, object_count: usize, bed_or_isf_objects: usize) -> (r: Result<OamdElementKind, ParseError>)
    requires
        old(reader).wf(),
    ensures
        final(reader).wf(),
        final(reader).same_source(old(reader)),
        parsed_view(
            r,
            element_kind(old(reader).data(), old(reader).limit(), old(reader).pos(), id as int, object_count as int, bed_or_isf_objects as int),
            final(reader).pos(),
        ),
{
    reveal(element_kind);
    if id == 1 {
        Ok(
            OamdElementKind::Object(
                parse_oamd_object_element(reader, object_count, bed_or_isf_objects)?,
            ),
        )
    } else {
        Ok(OamdElementKind::Unknown)
    }
}

/// One element: id, length in bytes, content, and padding up to the length.
/// Content that runs past the length is an error.
pub open spec fn element(
    d: Seq<u8>,
    lim: int,
    p: int,
    alternate: bool,
    objects: int,
    beds: int,
) -> Result<(OamdElementModel, int), ParseError> {
    if p + 4 > lim {
        missing("oa_element_id_idx")
    } else {
        let id = field(d, p, 4);
        match nibble_groups(d, lim, p + 4, 4, 0, "oa_element_length") {
            Err(e) => Err(e),
            Ok((length, p1)) => {
                let bytes = length + 1;
                let end = p1 + 8 * bytes;
                let p2 = p1 + if alternate { 5int } else { 1int };
                if end > usize::MAX {
                    missing("oa_element_length")
                } else if p2 > lim {
                    missing("oa_alternate_object_info")
                } else {
                    match element_kind(d, lim, p2, id, objects, beds) {
                        Err(e) => Err(e),
                        Ok((kind, p3)) => if p3 > end {
                            missing("oa_element_length")
                        } else if p3 < end && end > lim {
                            missing("oa_element_padding")
                        } else {
                            Ok(
                                (
                                    OamdElementModel {
                                        element_index: id as u8,
                                        byte_length: bytes as usize,
                                        kind,
                                    },
                                    end,
                                ),
                            )
                        },
                    }
                }
            },
        }
    }
}

fn parse_oamd_element(reader: &mut BitReader<'_>, alternate_object_present: bool, object_count: usize, bed_or_isf_objects: usize) -> (r: Result<OamdElement, ParseError>)
    requires
        old(reader).wf(),
    ensures
        final(reader).wf(),
        final(reader).same_source(old(reader)),
        parsed_view(
            r,
            element(old(reader).data(), old(reader).limit(), old(reader).pos(), alternate_object_present, object_count as int, bed_or_isf_objects as int),
            final(reader).pos(),
        ),
{
    let element_index: u8 = read_bits(reader, 4, "oa_element_id_idx")? as u8;
    proof {
        lemma_nibble_groups_bound(reader.data(), reader.limit(), reader.pos(), "oa_element_length");
    }
    let length: u32 = read_variable_bits_limited(reader, 4, "oa_element_length")?;
    let byte_length: usize = length as usize + 1;
    let start: usize = reader.position();
    if start > usize::MAX - byte_length * 8 {
        return Err(ParseError::InvalidHeader("oa_element_length"));
    }
    let end: usize = start + byte_length * 8;
    let skip: usize = if alternate_object_present { 5 } else { 1 };
    skip_bits(reader, skip, "oa_alternate_object_info")?;
    let kind: OamdElementKind = parse_element_kind(
        reader,
        element_index,
        object_count,
        bed_or_isf_objects,
    )?;
    let here: usize = reader.position();
    if here > end {
        return Err(ParseError::InvalidHeader("oa_element_length"));
    }
    if here < end {
        skip_bits(reader, end - here, "oa_element_padding")?;
    }
    Ok(OamdElement { element_index, byte_length, kind })
}

pub open spec fn element_step(
    d: Seq<u8>,
    lim: int,
    alternate: bool,
    objects: int,
    beds: int,
) -> spec_fn(int, int) -> Result<(OamdElementModel, int), ParseError> {
    |i: int, q: int| element(d, lim, q, alternate, objects, beds)
}

fn parse_elements(
    reader: &mut BitReader<'_>,
    count: usize,
    alternate: bool,
    objects: usize,
    beds: usize,
) -> (r: Result<Vec<OamdElement>, ParseError>)
    requires
        old(reader).wf(),
    ensures
        final(reader).wf(),
        final(reader).same_source(old(reader)),
        match r {
            Ok(v) => repeat(
                element_step(
                    old(reader).data(),
                    old(reader).limit(),
                    alternate,
                    objects as int,
                    beds as int,
                ),
                old(reader).pos(),
                count as int,
            ) == Ok::<(Seq<OamdElementModel>, int), ParseError>(
                (element_models(v@), final(reader).pos()),
            ),
            Err(e) => repeat(
                element_step(
                    old(reader).data(),
                    old(reader).limit(),
                    alternate,
                    objects as int,
                    beds as int,
                ),
                old(reader).pos(),
                count as int,
            ) == Err::<(Seq<OamdElementModel>, int), ParseError>(e),
        },
{
    let ghost step = element_step(
        reader.data(),
        reader.limit(),
        alternate,
        objects as int,
        beds as int,
    );
    let ghost p = reader.pos();
    let mut out: Vec<OamdElement> = Vec::new();
    assert(element_models(out@) =~= Seq::empty());
    let mut i: usize = 0;
    while i < count
        invariant
            i <= count,
            reader.wf(),
            reader.same_source(old(reader)),
            p == old(reader).pos(),
            step == element_step(
                reader.data(),
                reader.limit(),
                alternate,
                objects as int,
                beds as int,
            ),
            repeat(step, p, i as int) == Ok::<(Seq<OamdElementModel>, int), ParseError>(
                (element_models(out@), reader.pos()),
            ),
        decreases count - i,
    {
        match parse_oamd_element(reader, alternate, objects, beds) {
            Ok(v) => {
                let ghost before = element_models(out@);
                out.push(v);
                assert(element_models(out@) =~= before.push(v@));
            },
            Err(e) => {
                proof {
                    lemma_repeat_err(step, p, i + 1, count as int);
                }
                return Err(e);
            },
        }
        i = i + 1;
    }
    Ok(out)
}

/// Bed channels over all beds.
pub open spec fn total_channels(beds: Seq<Seq<BedChannel>>) -> int
    decreases beds.len(),
{
    if beds.len() == 0 {
        0
    } else {
        total_channels(beds.drop_last()) + beds.last().len()
    }
}

/// A bed has at most 20 channels.
proof fn lemma_assigned_len(d: Seq<u8>, p: int, n: int, k: int, standard: bool)
    requires
        0 <= k,
    ensures
        assigned(d, p, n, k, standard).len() <= 2 * k,
    decreases k,
{
    if k > 0 {
        lemma_assigned_len(d, p, n, k - 1, standard);
    }
}

/// `n` beds have at most `34 * n` channels.
proof fn lemma_beds_len(d: Seq<u8>, lim: int, p: int, n: int)
    requires
        0 <= n,
    ensures
        repeat(bed_step(d, lim), p, n) matches Ok((list, q)) ==> 0 <= total_channels(list) <= 34 * n
            && list.len() == n,
    decreases n,
{
    if n > 0 {
        lemma_beds_len(d, lim, p, n - 1);
        if let Ok((list, q)) = repeat(bed_step(d, lim), p, n - 1) {
            lemma_assigned_len(d, q + 2, 10, 10, true);
            lemma_assigned_len(d, q + 2, 17, 17, false);
            if let Ok((v, r)) = bed(d, lim, q) {
                assert(list.push(v).drop_last() =~= list);
            }
        }
    }
}

fn count_bed_channels(beds: &Vec<Vec<BedChannel>>) -> (r: usize)
    requires
        total_channels(rows(beds@)) <= 0xffff,
    ensures
        r == total_channels(rows(beds@)),
{
    let mut total: usize = 0;
    let mut i: usize = 0;
    assert(rows(beds@).take(0) =~= Seq::empty());
    while i < beds.len()
        invariant
            i <= beds@.len(),
            total == total_channels(rows(beds@).take(i as int)),
            total_channels(rows(beds@)) <= 0xffff,
        decreases beds@.len() - i,
    {
        proof {
            lemma_total_prefix(rows(beds@), i + 1);
            assert(rows(beds@).take(i + 1).drop_last() =~= rows(beds@).take(i as int));
        }
        total = total + beds[i].len();
        i = i + 1;
    }
    assert(rows(beds@).take(i as int) =~= rows(beds@));
    total
}

proof fn lemma_total_prefix(beds: Seq<Seq<BedChannel>>, k: int)
    requires
        0 <= k <= beds.len(),
    ensures
        0 <= total_channels(beds.take(k)) <= total_channels(beds),
    decreases beds.len(),
{
    if beds.len() == 0 {
        assert(beds.take(k) =~= beds);
    } else if k < beds.len() {
        lemma_total_prefix(beds.drop_last(), k);
        assert(beds.drop_last().take(k) =~= beds.take(k));
    } else {
        assert(beds.take(k) =~= beds);
        lemma_total_prefix(beds.drop_last(), k - 1);
        assert(beds.drop_last().take(k - 1) =~= beds.drop_last());
    }
}

/// A count of `n` bits plus `base`, extended by `m` more bits when the first
/// field is all ones.
pub open spec fn extended_count(
    d: Seq<u8>,
    lim: int,
    p: int,
    n: int,
    m: int,
    base: int,
    name: &'static str,
    extension: &'static str,
) -> Result<(usize, int), ParseError> {
    if p + n > lim {
        missing(name)
    } else if field(d, p, n) != code_space(n) - 1 {
        Ok(((field(d, p, n) + base) as usize, p + n))
    } else if p + n + m > lim {
        missing(extension)
    } else {
        Ok(((field(d, p, n) + base + field(d, p + n, m)) as usize, p + n + m))
    }
}

fn parse_object_count(reader: &mut BitReader<'_>) -> (r: Result<usize, ParseError>)
    requires
        old(reader).wf(),
    ensures
        final(reader).wf(),
        final(reader).same_source(old(reader)),
        parsed(
            r,
            extended_count(old(reader).data(), old(reader).limit(), old(reader).pos(), 5, 7, 1, "object_count", "object_count-ext"),
            final(reader).pos(),
        ),
{
    let count: usize = read_bits(reader, 5, "object_count")? as usize + 1;
    if count == 32 {
        return Ok(count + read_bits(reader, 7, "object_count-ext")? as usize);
    }
    Ok(count)
}

fn parse_element_count(reader: &mut BitReader<'_>) -> (r: Result<usize, ParseError>)
    requires
        old(reader).wf(),
    ensures
        final(reader).wf(),
        final(reader).same_source(old(reader)),
        parsed(
            r,
            extended_count(old(reader).data(), old(reader).limit(), old(reader).pos(), 4, 5, 0, "oa_element_count", "oa_element_count-ext"),
            final(reader).pos(),
        ),
{
    let count: usize = read_bits(reader, 4, "oa_element_count")? as usize;
    if count == 15 {
        return Ok(count + read_bits(reader, 5, "oa_element_count-ext")? as usize);
    }
    Ok(count)
}

/// The payload version. Only version 0 is known; code 3 extends.
pub open spec fn oamd_version(d: Seq<u8>, lim: int, p: int) -> Result<(u8, int), ParseError> {
    if p + 2 > lim {
        missing("OAver")
    } else if field(d, p, 2) == 0 {
        Ok((0u8, p + 2))
    } else if field(d, p, 2) == 3 && p + 5 > lim {
        missing("OAver")
    } else {
        Err(ParseError::UnsupportedFeature("OAver"))
    }
}

fn parse_oamd_version(reader: &mut BitReader<'_>) -> (r: Result<u8, ParseError>)
    requires
        old(reader).wf(),
    ensures
        final(reader).wf(),
        final(reader).same_source(old(reader)),
        parsed(
            r,
            oamd_version(old(reader).data(), old(reader).limit(), old(reader).pos()),
            final(reader).pos(),
        ),
{
    let mut version: u32 = read_bits(reader, 2, "OAver")?;
    if version == 3 {
        version = version + read_bits(reader, 3, "OAver")?;
    }
    if version != 0 {
        return Err(ParseError::UnsupportedFeature("OAver"));
    }
    Ok(0)
}

/// Objects that stand for bed channels or spatial format feeds.
pub open spec fn fixed_objects(program: ProgramModel) -> int {
    total_channels(program.beds) + match program.isf_index {
        Some(index) => ISF_OBJECT_COUNT@[index as int] as int,
        None => 0,
    }
}

/// The payload from the program assignment on.
pub open spec fn oamd_body(
    d: Seq<u8>,
    lim: int,
    p: int,
    objects: usize,
    program: ProgramModel,
) -> Result<(OamdPayloadModel, int), ParseError> {
    if p + 1 > lim {
        missing("alternate_object_present")
    } else {
        let alternate = flag(d, p);
        let fixed = fixed_objects(program);
        match extended_count(d, lim, p + 1, 4, 5, 0, "oa_element_count", "oa_element_count-ext") {
            Err(e) => Err(e),
            Ok((count, p1)) => match repeat(
                element_step(d, lim, alternate, objects as int, fixed),
                p1,
                count as int,
            ) {
                Err(e) => Err(e),
                Ok((elements, p2)) => Ok(
                    (
                        OamdPayloadModel {
                            version: 0,
                            object_count: objects,
                            alternate_object_present: alternate,
                            element_count: count,
                            beds: total_channels(program.beds) as usize,
                            bed_instances: program.beds.len() as usize,
                            bed_or_isf_objects: fixed as usize,
                            dynamic_objects: (if objects > fixed { objects - fixed } else { 0 }) as usize,
                            isf_in_use: program.isf_in_use,
                            isf_index: program.isf_index,
                            bed_assignment: program.beds,
                            elements,
                        },
                        p2,
                    ),
                ),
            },
        }
    }
}

/// The whole payload.
pub open spec fn oamd_payload(d: Seq<u8>, lim: int, p: int) -> Result<
    (OamdPayloadModel, int),
    ParseError,
> {
    match oamd_version(d, lim, p) {
        Err(e) => Err(e),
        Ok((version, p1)) => match extended_count(
            d,
            lim,
            p1,
            5,
            7,
            1,
            "object_count",
            "object_count-ext",
        ) {
            Err(e) => Err(e),
            Ok((objects, p2)) => match program(d, lim, p2) {
                Err(e) => Err(e),
                Ok((assignment, p3)) => oamd_body(d, lim, p3, objects, assignment),
            },
        },
    }
}

/// A program has few enough beds and bed channels to count.
proof fn lemma_program_bounds(d: Seq<u8>, lim: int, p: int)
    ensures
        program(d, lim, p) matches Ok((m, q)) ==> {
            &&& 0 <= total_channels(m.beds) <= 306
            &&& m.isf_index matches Some(index) ==> index < 6
        },
{
    crate::bits::lemma_field_range(d, p + 1, 4);
    if let Ok((n, q)) = bed_instances(d, lim, p + 5) {
        crate::bits::lemma_field_range(d, p + 5 + 2, 3);
        lemma_beds_len(d, lim, q, n);
    }
    let content = field(d, p + 1, 4);
    let listed = if content % 2 == 1 {
        beds(d, lim, p + 5)
    } else {
        Ok((Seq::<Seq<BedChannel>>::empty(), p + 5))
    };
    if let Ok((list, p1)) = listed {
        crate::bits::lemma_field_range(d, p1, 3);
    }
    assert(total_channels(Seq::<Seq<BedChannel>>::empty()) == 0);
    let lfe = seq![seq![BedChannel::LowFrequencyEffects]];
    assert(lfe.drop_last() =~= Seq::<Seq<BedChannel>>::empty());
    assert(total_channels(lfe.drop_last()) == 0);
    assert(total_channels(lfe) == 1);
}

fn parse_oamd_body(reader: &mut BitReader<'_>, object_count: usize, assignment: ProgramAssignment) -> (r: Result<OamdPayload, ParseError>)
    requires
        old(reader).wf(),
        0 <= total_channels(assignment@.beds) <= 306,
        assignment.isf_index matches Some(index) ==> index < 6,
    ensures
        final(reader).wf(),
        final(reader).same_source(old(reader)),
        parsed_view(
            r,
            oamd_body(old(reader).data(), old(reader).limit(), old(reader).pos(), object_count, assignment@),
            final(reader).pos(),
        ),
{
    let beds: usize = count_bed_channels(&assignment.beds);
    let mut bed_or_isf_objects: usize = beds;
    if let Some(index) = assignment.isf_index {
        bed_or_isf_objects = bed_or_isf_objects + ISF_OBJECT_COUNT[index as usize];
    }
    assert(bed_or_isf_objects as int == fixed_objects(assignment@));
    let alternate_object_present: bool = read_bit(reader, "alternate_object_present")?;
    let element_count: usize = parse_element_count(reader)?;
    let elements: Vec<OamdElement> = parse_elements(
        reader,
        element_count,
        alternate_object_present,
        object_count,
        bed_or_isf_objects,
    )?;
    let dynamic_objects: usize = if object_count > bed_or_isf_objects {
        object_count - bed_or_isf_objects
    } else {
        0
    };
    let bed_assignment: Vec<Vec<BedChannel>> = assignment.beds;
    Ok(
        OamdPayload {
            version: 0,
            object_count,
            alternate_object_present,
            element_count,
            beds,
            bed_instances: bed_assignment.len(),
            bed_or_isf_objects,
            dynamic_objects,
            isf_in_use: assignment.isf_in_use,
            isf_index: assignment.isf_index,
            bed_assignment,
            elements,
        },
    )
}

/// Parse an OAMD payload.
pub fn parse_oamd_payload(reader: &mut BitReader<'_>) -> (r: Result<OamdPayload, ParseError>)
    requires
        old(reader).wf(),
    ensures
        final(reader).wf(),
        final(reader).same_source(old(reader)),
        parsed_view(
            r,
            oamd_payload(old(reader).data(), old(reader).limit(), old(reader).pos()),
            final(reader).pos(),
        ),
{
    parse_oamd_version(reader)?;
    let object_count: usize = parse_object_count(reader)?;
    proof {
        lemma_program_bounds(reader.data(), reader.limit(), reader.pos());
    }
    let assignment: ProgramAssignment = parse_program_assignment(reader)?;
    parse_oamd_body(reader, object_count, assignment)
}

} // verus!
