//! What an object audio metadata payload holds of what was declared.

use vstd::prelude::*;
use crate::bits::{field, flag};
use crate::grammar::lemma_repeat_len;
use crate::eac3::oamd::{
    assigned, bed, bed_channel_of, bed_instances, block_update, element,
    element_kind, extended_count, fixed_objects, nibble_groups, oamd_body,
    oamd_payload, program, ramp_duration,
    sample_offset, standard_channels, total_channels,
    update_info, ProgramModel, ISF_OBJECT_COUNT, RAMP_DURATIONS,
    RAMP_DURATION_INDEX, SAMPLE_OFFSET_INDEX,
};
use crate::eac3::syncframe::ParseError;
use crate::eac3::types::BedChannel;

verus! {

/// The channels that a bed can have, in their order.
pub open spec fn bed_order() -> Seq<BedChannel> {
    seq![
        BedChannel::FrontLeft,
        BedChannel::FrontRight,
        BedChannel::Center,
        BedChannel::LowFrequencyEffects,
        BedChannel::SurroundLeft,
        BedChannel::SurroundRight,
        BedChannel::RearLeft,
        BedChannel::RearRight,
        BedChannel::TopFrontLeft,
        BedChannel::TopFrontRight,
        BedChannel::TopSurroundLeft,
        BedChannel::TopSurroundRight,
        BedChannel::TopRearLeft,
        BedChannel::TopRearRight,
        BedChannel::WideLeft,
        BedChannel::WideRight,
        BedChannel::LowFrequencyEffects2,
    ]
}

/// The standard bit that stands for the `i`-th channel: a bit for every pair of
/// sides, and one for every channel without another side.
pub open spec fn standard_bit(i: int) -> int {
    if i < 2 {
        0
    } else if i < 4 {
        i - 1
    } else if i < 16 {
        i / 2 + 1
    } else {
        9
    }
}

/// Channels of the standard bits below `n`, one bit after the other.
pub open spec fn standard_list(n: int) -> Seq<BedChannel>
    decreases n,
{
    if n <= 0 { Seq::empty() } else { standard_list(n - 1) + standard_channels(n - 1) }
}

/// Channels that can be assigned one by one, below `n`.
pub open spec fn single_list(n: int) -> Seq<BedChannel> {
    Seq::new(n as nat, |i: int| bed_channel_of(i))
}

/// The channels of the ten standard bits, put one after the other, are the
/// seventeen that can be assigned one by one, in their order.
pub proof fn standard_bits_list_the_channels()
    ensures
        single_list(17) == bed_order(),
        standard_list(10) == bed_order(),
        standard_list(10) == single_list(17),
{
    reveal_with_fuel(standard_list, 11);
    assert(single_list(17) =~= bed_order());
    assert(standard_list(10) =~= bed_order());
}

/// Every channel belongs to the standard bit that stands for it, and the bits
/// take the channels in turn.
pub proof fn standard_bits_share_out_the_channels(i: int)
    requires
        0 <= i < 17,
    ensures
        standard_channels(standard_bit(i)).contains(bed_channel_of(i)),
        forall|b: int|
            0 <= b < 10 && #[trigger] standard_channels(b).contains(bed_channel_of(i)) ==> b
                == standard_bit(i),
        i > 0 && standard_bit(i) == standard_bit(i - 1) ==> standard_channels(standard_bit(i))
            == seq![bed_channel_of(i - 1), bed_channel_of(i)],
{
    let s = standard_channels(standard_bit(i));
    assert(s[0] == bed_channel_of(i) || s[1] == bed_channel_of(i));
    if i > 0 && standard_bit(i) == standard_bit(i - 1) {
        assert(s =~= seq![bed_channel_of(i - 1), bed_channel_of(i)]);
    }
    assert forall|b: int|
        0 <= b < 10 && #[trigger] standard_channels(b).contains(bed_channel_of(i)) implies b
        == standard_bit(i) by {
        let t = standard_channels(b);
        let k = choose|k: int| 0 <= k < t.len() && t[k] == bed_channel_of(i);
        assert(t[k] == bed_channel_of(i));
    }
}

/// A bed declared by standard bits is the bed declared channel by channel with
/// a bit for each of the same channels.
pub proof fn standard_beds_are_single_beds(d: Seq<u8>, p: int, e: Seq<u8>, q: int)
    requires
        forall|i: int| 0 <= i < 17 ==> #[trigger] flag(e, q + (16 - i)) == flag(d, p + (9 - standard_bit(i))),
    ensures
        assigned(d, p, 10, 10, true) == assigned(e, q, 17, 17, false),
{
    lemma_same_bed(d, p, e, q, 10);
}

/// Individual channels that the standard bits below `k` stand for.
spec fn singles_of(k: int) -> int {
    if k <= 0 {
        0
    } else if k <= 1 {
        2
    } else if k <= 3 {
        k + 1
    } else if k <= 9 {
        2 * k - 2
    } else {
        17
    }
}

proof fn lemma_same_bed(d: Seq<u8>, p: int, e: Seq<u8>, q: int, k: int)
    requires
        0 <= k <= 10,
        forall|i: int| 0 <= i < 17 ==> #[trigger] flag(e, q + (16 - i)) == flag(d, p + (9 - standard_bit(i))),
    ensures
        assigned(d, p, 10, k, true) == assigned(e, q, 17, singles_of(k), false),
    decreases k,
{
    if k > 0 {
        lemma_same_bed(d, p, e, q, k - 1);
        reveal_with_fuel(assigned, 3);
        let n = singles_of(k);
        let m = singles_of(k - 1);
        let before = assigned(d, p, 10, k - 1, true);
        assert(m < n <= m + 2);
        assert(standard_bit(n - 1) == k - 1 && standard_bit(m) == k - 1);
        assert(flag(e, q + (16 - (n - 1))) == flag(d, p + (9 - (k - 1))));
        assert(flag(e, q + (16 - m)) == flag(d, p + (9 - (k - 1))));
        assert(p + (10 - k) == p + (9 - (k - 1)));
        assert(q + (17 - n) == q + (16 - (n - 1)));
        assert(q + (17 - (m + 1)) == q + (16 - m));
        if flag(d, p + (10 - k)) {
            if n == m + 1 {
                assert(before + standard_channels(k - 1) =~= before.push(bed_channel_of(n - 1)));
            } else {
                assert(before + standard_channels(k - 1) =~= before.push(
                    bed_channel_of(n - 2),
                ).push(bed_channel_of(n - 1)));
            }
        }
    }
}

/// A channel is in a bed declared channel by channel exactly when its bit is
/// set; the bits go from the last channel to the first.
pub proof fn beds_hold_the_channels_of_their_bits(d: Seq<u8>, p: int, k: int, i: int)
    requires
        0 <= k <= 17,
        0 <= i < 17,
    ensures
        assigned(d, p, 17, k, false).contains(bed_order()[i]) <==> i < k && flag(d, p + (16 - i)),
    decreases k,
{
    assert(bed_order()[i] == bed_channel_of(i));
    if k > 0 {
        beds_hold_the_channels_of_their_bits(d, p, k - 1, i);
        let before = assigned(d, p, 17, k - 1, false);
        let out = assigned(d, p, 17, k, false);
        assert(p + (17 - k) == p + (16 - (k - 1)));
        assert(bed_channel_of(k - 1) == bed_channel_of(i) <==> i == k - 1);
        if flag(d, p + (17 - k)) {
            assert(out == before.push(bed_channel_of(k - 1)));
            assert(out[out.len() - 1] == bed_channel_of(k - 1));
            if before.contains(bed_channel_of(i)) {
                let w = choose|w: int| 0 <= w < before.len() && before[w] == bed_channel_of(i);
                assert(out[w] == bed_channel_of(i));
            }
            if out.contains(bed_channel_of(i)) && i != k - 1 {
                let w = choose|w: int| 0 <= w < out.len() && out[w] == bed_channel_of(i);
                assert(before[w] == bed_channel_of(i));
            }
        }
    } else {
        assert(!Seq::<BedChannel>::empty().contains(bed_channel_of(i)));
    }
}

/// A bed is a lone low-frequency channel in one bit, or two bits and ten
/// standard ones, or two and seventeen single ones.
pub proof fn beds_take_their_bits(d: Seq<u8>, lim: int, p: int)
    requires
        p + 19 <= lim,
    ensures
        flag(d, p) ==> bed(d, lim, p) == Ok::<_, ParseError>(
            (seq![BedChannel::LowFrequencyEffects], p + 1),
        ),
        !flag(d, p) && flag(d, p + 1) ==> bed(d, lim, p) == Ok::<_, ParseError>(
            (assigned(d, p + 2, 10, 10, true), p + 12),
        ),
        !flag(d, p) && !flag(d, p + 1) ==> bed(d, lim, p) == Ok::<_, ParseError>(
            (assigned(d, p + 2, 17, 17, false), p + 19),
        ),
{
}

/// One bed, or from two on as many as three bits say.
pub proof fn bed_groups_count_from_two(d: Seq<u8>, lim: int, p: int)
    requires
        p + 5 <= lim,
    ensures
        !flag(d, p + 1) ==> bed_instances(d, lim, p) == Ok::<_, ParseError>((1int, p + 2)),
        flag(d, p + 1) ==> bed_instances(d, lim, p) == Ok::<_, ParseError>(
            (field(d, p + 2, 3) + 2, p + 5),
        ),
{
}

/// A program of objects alone has at most a bed of one low-frequency channel.
pub proof fn object_programs_have_no_more_than_a_low_channel(d: Seq<u8>, lim: int, p: int)
    requires
        p + 2 <= lim,
        flag(d, p),
    ensures
        program(d, lim, p) is Ok,
        program(d, lim, p)->Ok_0.1 == p + 2,
        total_channels(program(d, lim, p)->Ok_0.0.beds) == if flag(d, p + 1) { 1int } else { 0int },
        flag(d, p + 1) ==> program(d, lim, p)->Ok_0.0.beds == seq![
            seq![BedChannel::LowFrequencyEffects],
        ],
        !program(d, lim, p)->Ok_0.0.isf_in_use,
        program(d, lim, p)->Ok_0.0.isf_index is None,
{
    reveal_with_fuel(total_channels, 2);
    let beds = program(d, lim, p)->Ok_0.0.beds;
    if flag(d, p + 1) {
        assert(beds.last() == seq![BedChannel::LowFrequencyEffects]);
        assert(beds.drop_last().len() == 0);
    }
}

/// A program that describes a spatial format and nothing else is its index.
pub proof fn spatial_programs_have_their_index(d: Seq<u8>, lim: int, p: int)
    requires
        p + 8 <= lim,
        !flag(d, p),
        field(d, p + 1, 4) == 2,
        field(d, p + 5, 3) < 6,
    ensures
        program(d, lim, p) == Ok::<_, ParseError>(
            (
                ProgramModel {
                    beds: Seq::empty(),
                    isf_in_use: true,
                    isf_index: Some(field(d, p + 5, 3) as u8),
                },
                p + 8,
            ),
        ),
{
}

/// Anchored objects and reserved content are passed over and change nothing
/// of the program.
pub proof fn anchored_and_reserved_content_is_passed_over(d: Seq<u8>, lim: int, p: int)
    requires
        p + 12 <= lim,
        !flag(d, p),
    ensures
        field(d, p + 1, 4) == 4 && field(d, p + 5, 5) != 31 ==> program(d, lim, p) == Ok::<
            _,
            ParseError,
        >((ProgramModel { beds: Seq::empty(), isf_in_use: false, isf_index: None }, p + 10)),
        field(d, p + 1, 4) == 8 && p + 9 + 8 * (field(d, p + 5, 4) + 1) <= lim ==> program(
            d,
            lim,
            p,
        ) == Ok::<_, ParseError>(
            (
                ProgramModel { beds: Seq::empty(), isf_in_use: false, isf_index: None },
                p + 9 + 8 * (field(d, p + 5, 4) + 1),
            ),
        ),
{
}

/// A first block comes at once, at one of four offsets, or at one of five bits.
pub proof fn first_blocks_come_at_their_offset(d: Seq<u8>, lim: int, p: int)
    requires
        p + 7 <= lim,
    ensures
        field(d, p, 2) == 0 ==> sample_offset(d, lim, p) == Ok::<_, ParseError>((0u8, p + 2)),
        field(d, p, 2) == 1 ==> sample_offset(d, lim, p) == Ok::<_, ParseError>(
            (SAMPLE_OFFSET_INDEX@[field(d, p + 2, 2)], p + 4),
        ),
        field(d, p, 2) == 2 ==> sample_offset(d, lim, p) == Ok::<_, ParseError>(
            (field(d, p + 2, 5) as u8, p + 7),
        ),
        field(d, p, 2) == 3 ==> sample_offset(d, lim, p) is Err,
        SAMPLE_OFFSET_INDEX@[0] == 8,
        SAMPLE_OFFSET_INDEX@[1] == 16,
        SAMPLE_OFFSET_INDEX@[2] == 18,
        SAMPLE_OFFSET_INDEX@[3] == 24,
{
    crate::bits::lemma_field_range(d, p, 2);
}

/// A ramp is none, 512 or 1536 samples, one of a list that grows, or as many as
/// eleven bits say.
pub proof fn ramps_last_as_coded(d: Seq<u8>, lim: int, p: int)
    requires
        p + 14 <= lim,
    ensures
        field(d, p, 2) == 0 ==> ramp_duration(d, lim, p) == Ok::<_, ParseError>((0i16, p + 2)),
        field(d, p, 2) == 1 ==> ramp_duration(d, lim, p) == Ok::<_, ParseError>((512i16, p + 2)),
        field(d, p, 2) == 2 ==> ramp_duration(d, lim, p) == Ok::<_, ParseError>((1536i16, p + 2)),
        field(d, p, 2) == 3 && flag(d, p + 2) ==> ramp_duration(d, lim, p) == Ok::<_, ParseError>(
            (RAMP_DURATION_INDEX@[field(d, p + 3, 4)], p + 7),
        ),
        field(d, p, 2) == 3 && !flag(d, p + 2) ==> ramp_duration(d, lim, p) == Ok::<_, ParseError>(
            (field(d, p + 3, 11) as i16, p + 14),
        ),
        forall|i: int, j: int|
            0 <= i < j < 16 ==> #[trigger] RAMP_DURATION_INDEX@[i] < #[trigger] RAMP_DURATION_INDEX@[j],
        RAMP_DURATION_INDEX@[0] == 32,
        RAMP_DURATION_INDEX@[15] == 2048,
{
    crate::bits::lemma_field_range(d, p, 2);
    assert(RAMP_DURATIONS@[0] == 0 && RAMP_DURATIONS@[1] == 512 && RAMP_DURATIONS@[2] == 1536);
}

/// An update is offset from the element's first block by six bits, and its ramp
/// follows.
pub proof fn updates_count_from_the_first_block(d: Seq<u8>, lim: int, p: int, base: u8, ramp: i16, q: int)
    requires
        p + 6 <= lim,
        ramp_duration(d, lim, p + 6) == Ok::<_, ParseError>((ramp, q)),
    ensures
        block_update(d, lim, p, base) is Ok,
        block_update(d, lim, p, base)->Ok_0.0.offset - base == field(d, p, 6),
        block_update(d, lim, p, base)->Ok_0.0.ramp_duration == ramp,
        block_update(d, lim, p, base)->Ok_0.1 == q,
{
    crate::bits::lemma_field_range(d, p, 6);
}

/// An element has one update more than three bits say, all from one offset.
pub proof fn elements_have_an_update_at_least(d: Seq<u8>, lim: int, p: int)
    requires
        update_info(d, lim, p) is Ok,
    ensures
        sample_offset(d, lim, p) is Ok,
        update_info(d, lim, p)->Ok_0.0.0 == sample_offset(d, lim, p)->Ok_0.0,
        update_info(d, lim, p)->Ok_0.0.1.len() == field(d, sample_offset(d, lim, p)->Ok_0.1, 3) + 1,
{
    let (base, q) = sample_offset(d, lim, p)->Ok_0;
    crate::bits::lemma_field_range(d, q, 3);
    lemma_repeat_len(crate::eac3::oamd::update_step(d, lim, base), q + 3, field(d, q, 3) + 1);
}

/// A length of one group is its four bits; of two it counts on from sixteen; of
/// three from where those of two end.
pub proof fn longer_lengths_count_on(d: Seq<u8>, lim: int, p: int, name: &'static str)
    requires
        p + 15 <= lim,
    ensures
        !flag(d, p + 4) ==> nibble_groups(d, lim, p, 4, 0, name) == Ok::<_, ParseError>(
            (field(d, p, 4) as u32, p + 5),
        ),
        flag(d, p + 4) && !flag(d, p + 9) ==> nibble_groups(d, lim, p, 4, 0, name) == Ok::<
            _,
            ParseError,
        >(((16 + 16 * field(d, p, 4) + field(d, p + 5, 4)) as u32, p + 10)),
        flag(d, p + 4) && flag(d, p + 9) && !flag(d, p + 14) ==> nibble_groups(
            d,
            lim,
            p,
            4,
            0,
            name,
        ) == Ok::<_, ParseError>(
            (
                (16 + 256 + 256 * field(d, p, 4) + 16 * field(d, p + 5, 4) + field(d, p + 10, 4)) as u32,
                p + 15,
            ),
        ),
{
    crate::bits::lemma_field_range(d, p, 4);
    crate::bits::lemma_field_range(d, p + 5, 4);
    crate::bits::lemma_field_range(d, p + 10, 4);
    let a = 16 * (field(d, p, 4) + 1);
    let b = 16 * (a + field(d, p + 5, 4) + 1);
    lemma_nibble(d, lim, p, 4, 0, name);
    lemma_nibble(d, lim, p + 5, 3, a, name);
    lemma_nibble(d, lim, p + 10, 2, b, name);
}

/// One group either ends a length or is carried into the next.
proof fn lemma_nibble(d: Seq<u8>, lim: int, p: int, limit: int, acc: int, name: &'static str)
    requires
        p + 5 <= lim,
        0 < limit,
        0 <= acc <= 0x10_0000,
    ensures
        !flag(d, p + 4) ==> nibble_groups(d, lim, p, limit, acc, name) == Ok::<_, ParseError>(
            ((acc + field(d, p, 4)) as u32, p + 5),
        ),
        flag(d, p + 4) ==> nibble_groups(d, lim, p, limit, acc, name) == nibble_groups(
            d,
            lim,
            p + 5,
            limit - 1,
            16 * (acc + field(d, p, 4) + 1),
            name,
        ),
{
    crate::bits::lemma_field_range(d, p, 4);
}

/// An element ends its length behind the length field, whatever its content
/// took of it, and only the first kind has content that is read.
pub proof fn elements_end_at_their_length(
    d: Seq<u8>,
    lim: int,
    p: int,
    alternate: bool,
    objects: int,
    beds: int,
    length: u32,
    q: int,
)
    requires
        element(d, lim, p, alternate, objects, beds) is Ok,
        nibble_groups(d, lim, p + 4, 4, 0, "oa_element_length") == Ok::<_, ParseError>((length, q)),
        0 <= q,
    ensures
        ({
            let (out, end) = element(d, lim, p, alternate, objects, beds)->Ok_0;
            &&& out.element_index == field(d, p, 4)
            &&& out.byte_length == length + 1
            &&& end == q + 8 * (length + 1)
            &&& field(d, p, 4) != 1 ==> out.kind is Unknown
            &&& field(d, p, 4) == 1 ==> out.kind is Object
        }),
{
    reveal(element_kind);
    crate::bits::lemma_field_range(d, p, 4);
}

/// A count is its field and the base; a field of ones goes on in the next.
pub proof fn full_counts_go_on(
    d: Seq<u8>,
    lim: int,
    p: int,
    n: int,
    m: int,
    base: int,
    name: &'static str,
    extension: &'static str,
)
    requires
        1 <= n <= 16,
        1 <= m <= 16,
        0 <= base <= 16,
        p + n + m <= lim,
    ensures
        field(d, p, n) + 1 < crate::bits::code_space(n) ==> extended_count(
            d,
            lim,
            p,
            n,
            m,
            base,
            name,
            extension,
        ) == Ok::<_, ParseError>(((field(d, p, n) + base) as usize, p + n)),
        field(d, p, n) + 1 == crate::bits::code_space(n) ==> extended_count(
            d,
            lim,
            p,
            n,
            m,
            base,
            name,
            extension,
        ) == Ok::<_, ParseError>(
            (
                (crate::bits::code_space(n) - 1 + base + field(d, p + n, m)) as usize,
                p + n + m,
            ),
        ),
{
}

/// Objects stand for the channels of all beds, and for the feeds of a spatial
/// format; what is left of the objects is free to move.
pub proof fn objects_are_beds_feeds_and_the_rest(
    d: Seq<u8>,
    lim: int,
    p: int,
    objects: usize,
    program: ProgramModel,
)
    requires
        oamd_body(d, lim, p, objects, program) is Ok,
        0 <= fixed_objects(program) <= usize::MAX,
        0 <= total_channels(program.beds) <= usize::MAX,
        program.isf_index matches Some(i) ==> i < 6,
    ensures
        ({
            let out = oamd_body(d, lim, p, objects, program)->Ok_0.0;
            &&& out.object_count == objects
            &&& out.beds == total_channels(program.beds)
            &&& out.bed_assignment == program.beds
            &&& program.isf_index is None ==> out.bed_or_isf_objects == out.beds
            &&& program.isf_index matches Some(i) ==> out.bed_or_isf_objects - out.beds
                == ISF_OBJECT_COUNT@[i as int]
            &&& out.bed_or_isf_objects <= objects ==> out.bed_or_isf_objects + out.dynamic_objects
                == objects
            &&& out.bed_or_isf_objects > objects ==> out.dynamic_objects == 0
            &&& out.element_count == out.elements.len()
            &&& out.alternate_object_present == flag(d, p)
        }),
{
    let fixed = fixed_objects(program);
    let (count, q) = extended_count(
        d,
        lim,
        p + 1,
        4,
        5,
        0,
        "oa_element_count",
        "oa_element_count-ext",
    )->Ok_0;
    lemma_repeat_len(
        crate::eac3::oamd::element_step(d, lim, flag(d, p), objects as int, fixed),
        q,
        count as int,
    );
}

/// Beds declare one object for each of their channels.
pub proof fn beds_add_up(beds: Seq<Seq<BedChannel>>, more: Seq<BedChannel>)
    ensures
        total_channels(Seq::empty()) == 0,
        total_channels(beds.push(more)) == total_channels(beds) + more.len(),
{
    assert(beds.push(more).drop_last() =~= beds);
}

/// Feeds of the spatial formats, fewest first.
pub proof fn spatial_formats_grow(i: int, j: int)
    requires
        0 <= i < j < 6,
    ensures
        ISF_OBJECT_COUNT@[i] < ISF_OBJECT_COUNT@[j],
        ISF_OBJECT_COUNT@[0] == 4,
        ISF_OBJECT_COUNT@[1] == 8,
        ISF_OBJECT_COUNT@[2] == 10,
        ISF_OBJECT_COUNT@[3] == 14,
        ISF_OBJECT_COUNT@[4] == 15,
        ISF_OBJECT_COUNT@[5] == 30,
{
}

/// A payload is of the first version, and counts its objects from one on.
pub proof fn payloads_count_their_objects(d: Seq<u8>, lim: int, p: int)
    ensures
        oamd_payload(d, lim, p) matches Ok((m, q)) ==> ({
            &&& field(d, p, 2) == 0
            &&& m.version == 0
            &&& field(d, p + 2, 5) < 31 ==> m.object_count == field(d, p + 2, 5) + 1
            &&& field(d, p + 2, 5) == 31 ==> m.object_count == 32 + field(d, p + 7, 7)
            &&& program(d, lim, p + if field(d, p + 2, 5) == 31 { 14int } else { 7int }) matches Ok((
                a,
                r,
            ))
            &&& m.bed_assignment == a.beds
            &&& m.isf_index == a.isf_index
            &&& m.isf_in_use == a.isf_in_use
        }),
{
    crate::bits::lemma_field_range(d, p + 2, 5);
    crate::bits::lemma_field_range(d, p + 7, 7);
    assert(crate::bits::code_space(5) == 32);
}

/// A program that describes beds and nothing else is its beds.
pub proof fn bed_programs_have_their_beds(d: Seq<u8>, lim: int, p: int)
    requires
        p + 5 <= lim,
        !flag(d, p),
        field(d, p + 1, 4) == 1,
    ensures
        program(d, lim, p) matches Ok((m, q)) ==> crate::eac3::oamd::beds(d, lim, p + 5) == Ok::<
            _,
            ParseError,
        >((m.beds, q)) && !m.isf_in_use && m.isf_index is None,
        crate::eac3::oamd::beds(d, lim, p + 5) matches Ok((list, q)) ==> (program(d, lim, p)
            matches Ok((m, r)) && m.beds == list && r == q),
{
}

/// The beds of a group stand one behind the other.
pub proof fn beds_stand_one_behind_the_other(
    d: Seq<u8>,
    lim: int,
    p: int,
    places: Seq<int>,
    list: Seq<Seq<BedChannel>>,
)
    requires
        bed_instances(d, lim, p) == Ok::<_, ParseError>((list.len() as int, places[0])),
        places.len() == list.len() + 1,
        forall|i: int|
            0 <= i < list.len() ==> bed(d, lim, #[trigger] places[i]) == Ok::<_, ParseError>(
                (list[i], places[i + 1]),
            ),
    ensures
        crate::eac3::oamd::beds(d, lim, p) == Ok::<_, ParseError>(
            (list, places[list.len() as int]),
        ),
{
    let step = crate::eac3::oamd::bed_step(d, lim);
    assert forall|i: int| 0 <= i < list.len() implies step(i, #[trigger] places[i]) == Ok::<
        (Seq<BedChannel>, int),
        ParseError,
    >((list[i], places[i + 1])) by {
        assert(bed(d, lim, places[i]) == Ok::<_, ParseError>((list[i], places[i + 1])));
    }
    crate::grammar::items_are_read_in_turn(step, places, list, list.len() as int);
    assert(list.take(list.len() as int) =~= list);
}

} // verus!
