//! What the metadata of a spatial extension holds of what was coded.

use vstd::prelude::*;
use crate::bits::{aligned, code_space, field, has_bit, lemma_field_range};
use crate::grammar::repeat;
use crate::dca::alternate::protected_prefix;
use crate::dca::core_decoder_laws::bits_between;
use crate::dca::xll_x::DCA_SYNCWORD_XLL_X;
use crate::dca::spatial::SpatialChannel;
use crate::dca::xmeta::{
    auxiliaries, auxiliary, bit_columns, declaration, declarations, declared, flagged, folded_gain,
    gain_index, gain_row, gain_step, layout_masks, mask_columns, mask_field, mask_members,
    mask_speakers, matrix_row, no_sources, padding, placed_from, placed_records, position_of,
    present, record, record_fold, record_options, record_position, reference_columns,
    reference_count, reference_field, reference_width, standard_height, widened, with_alternative,
    alternate_metadata, layout_opening, matrix_opening, matrix_step, output_field,
    standard_metadata, type241_element, type241_opening, type3_columns, type3_element,
    type3_opening, type3_row, x_metadata, Column, Declaration, ObjectsModel, RowModel, SourceModel, SourceRole,
    XMetadataError, XMetadataModel, HEIGHT_MASK, REFERENCE_MASK_7_1,
};

verus! {

/// A bit of a reference mask has as many columns as it has speakers, and the
/// bits of a layout have different ones.
pub proof fn reference_bits_have_their_speakers(bit: int, other: int)
    ensures
        mask_members(bit) is Some <==> reference_width(bit) > 0,
        mask_members(bit) matches Some(v) ==> v.len() == reference_width(bit),
        mask_members(bit) matches Some(v) ==> (mask_members(other) matches Some(w) ==> bit != other
            && !(bit == 2 && other == 11) && !(bit == 11 && other == 2) ==> forall|s: u8|
            #![trigger v.contains(s)]
            v.contains(s) ==> !w.contains(s)),
        mask_members(2) == mask_members(11),
{
    match (mask_members(bit), mask_members(other)) {
        (Some(v), Some(w)) => {
            if bit != other && !(bit == 2 && other == 11) && !(bit == 11 && other == 2) {
                assert forall|s: u8| #![trigger v.contains(s)] v.contains(s) implies !w.contains(
                    s,
                ) by {
                    if w.contains(s) {
                        let i = choose|i: int| 0 <= i < v.len() && v[i] == s;
                        let j = choose|j: int| 0 <= j < w.len() && w[j] == s;
                        assert(v[i] == w[j]);
                    }
                }
            }
        },
        _ => {},
    }
}

/// A mask has as many reference columns as speakers.
pub proof fn speakers_are_counted(mask: u32, n: int)
    requires
        0 <= n <= 32,
    ensures
        mask_speakers(mask, n) matches Some(v) ==> v.len() == reference_count(mask, n),
        reference_count(mask, n) >= 0,
    decreases n,
{
    if n > 0 {
        speakers_are_counted(mask, n - 1);
        reference_bits_have_their_speakers(n - 1, n - 1);
    }
}

/// No layout has both pairs of surrounds, none at all, or more than eight
/// columns.
pub proof fn layouts_fit_eight_columns(mask: u32)
    ensures
        reference_columns(mask) matches Some(v) ==> 1 <= v.len() <= 8 && mask_speakers(mask, 32)
            == Some(v) && !(has_bit(mask, 2) && has_bit(mask, 11)),
        has_bit(mask, 2) && has_bit(mask, 11) ==> reference_columns(mask) is None,
{
}

/// The reference columns of an output are numbered from none on, in the order
/// of the bits; the others are heights.
pub proof fn references_are_numbered_in_order(mask: u32, n: int, i: int)
    requires
        0 <= n <= 16,
    ensures
        reference_count(mask, n) >= 0,
        mask_columns(mask, n) matches Some(v) ==> (0 <= i < v.len() ==> (v[i] matches Column::Reference(
            r,
        ) ==> r < reference_count(mask, n) && r == references_before(v, i))),
        mask_columns(mask, n) matches Some(v) ==> references_before(v, v.len() as int)
            == reference_count(mask, n),
    decreases n,
{
    if n > 0 {
        references_are_numbered_in_order(mask, n - 1, i);
        match mask_columns(mask, n - 1) {
            Some(before) => {
                if has_bit(mask, n - 1) {
                    match bit_columns(n - 1, reference_count(mask, n - 1)) {
                        Some(more) => {
                            let v = before + more;
                            let b = before.len() as int;
                            lemma_same_before(before, v, b);
                            reveal_with_fuel(references_before, 3);
                            assert(more.len() == 1 || more.len() == 2);
                            assert(v[b] == more[0]);
                            if more.len() == 2 {
                                assert(v[b + 1] == more[1]);
                            }
                            if 0 <= i < b {
                                lemma_same_before(before, v, i);
                                assert(v[i] == before[i]);
                            }
                            assert(reference_count(mask, n - 1) < 40) by {
                                lemma_count_small(mask, n - 1);
                            }
                        },
                        None => {},
                    }
                }
            },
            None => {},
        }
    }
}

proof fn lemma_count_small(mask: u32, n: int)
    requires
        n <= 16,
    ensures
        reference_count(mask, n) <= 2 * (if n > 0 { n } else { 0 }),
    decreases n,
{
    if n > 0 {
        lemma_count_small(mask, n - 1);
    }
}

/// Reference columns among the first `n`.
pub open spec fn references_before(v: Seq<Column>, n: int) -> int
    decreases n,
{
    if n <= 0 {
        0
    } else {
        references_before(v, n - 1) + if v[n - 1] is Reference { 1int } else { 0int }
    }
}

proof fn lemma_same_before(a: Seq<Column>, b: Seq<Column>, n: int)
    requires
        0 <= n <= a.len(),
        n <= b.len(),
        forall|i: int| 0 <= i < a.len() ==> #[trigger] a[i] == b[i],
    ensures
        references_before(a, n) == references_before(b, n),
    decreases n,
{
    if n > 0 {
        lemma_same_before(a, b, n - 1);
    }
}

/// Azimuths are three half degrees a step, the same to the left as to the right
/// of the front; elevations start at the ground, and end above; distances fill
/// the unit.
pub proof fn positions_are_symmetric(k: int, elevation: int, distance: int)
    requires
        0 <= k < 120,
        0 <= elevation < 128,
        0 <= distance < 64,
    ensures
        position_of(120 + k, elevation, distance).azimuth_half_degrees + position_of(
            120 - k,
            elevation,
            distance,
        ).azimuth_half_degrees == 0,
        k != 73 ==> position_of(120 + k, elevation, distance).azimuth_half_degrees == 3 * k,
        k == 73 ==> position_of(120 + k, elevation, distance).azimuth_half_degrees == 220,
        position_of(0, elevation, distance).azimuth_half_degrees == -360,
        elevation <= 120 ==> position_of(k, elevation, distance).elevation_half_degrees == 3
            * elevation - 180,
        elevation > 120 ==> position_of(k, elevation, distance).elevation_half_degrees == 180,
        distance > 0 ==> position_of(k, elevation, distance).distance_64ths == distance + 1,
        position_of(k, elevation, 0).distance_64ths == 0,
{
}

/// A position in a record is its distance, its azimuth and its elevation, in
/// that order.
pub proof fn record_positions_come_back(d: Seq<u8>, lim: int, p: int)
    ensures
        record_position(d, lim, p) matches Ok((v, q)) ==> v == position_of(
            field(d, p + 23, 8),
            field(d, p + 31, 7),
            field(d, p + 17, 6),
        ) && q == p + 39 && q <= lim,
{
}

/// Padding is zero and ends on the next whole byte.
pub proof fn padding_ends_on_a_byte(d: Seq<u8>, lim: int, p: int, name: &'static str)
    requires
        0 <= p,
    ensures
        padding(d, lim, p, name) matches Ok((u, q)) ==> q == aligned(p, 8) && field(d, p, q - p)
            == 0,
        aligned(p, 8) <= lim && field(d, p, aligned(p, 8) - p) == 0 ==> padding(d, lim, p, name)
            is Ok,
{
}

/// Masks have a width in units of four bits, from one on.
pub proof fn masks_come_back(d: Seq<u8>, lim: int, p: int)
    requires
        p + 35 <= lim,
    ensures
        mask_field(d, lim, p) matches Ok((m, q)) && m == field(d, p + 3, 4 + 4 * field(d, p, 3))
            && q == p + 7 + 4 * field(d, p, 3),
{
    lemma_field_range(d, p, 3);
    let w = 4 + 4 * field(d, p, 3);
    lemma_field_range(d, p + 3, w);
    crate::dca::xll_laws::lemma_code_spaces(32, w);
    let a = code_space(w);
    let b = code_space(32 - w);
    assert(b >= 1);
    assert(code_space(32) == 0x1_0000_0000);
    assert(a <= 0x1_0000_0000) by (nonlinear_arith)
        requires
            a * b == 0x1_0000_0000,
            b >= 1,
            a >= 1,
    ;
}

/// A reference mask is stated or that of the element before.
pub proof fn reference_masks_are_stated_or_inherited(
    d: Seq<u8>,
    lim: int,
    p: int,
    inherited: u32,
)
    ensures
        reference_field(d, lim, p, inherited) matches Ok((m, q)) ==> (field(d, p, 1) == 0 ==> m
            == inherited && q == p + 6) && (field(d, p, 1) != 0 ==> mask_field(d, lim, p + 8)
            == Ok::<_, XMetadataError>((m, q))),
{
}

/// An output has all speakers of its reference.
pub proof fn outputs_hold_their_reference(d: Seq<u8>, lim: int, p: int, kind: int, inherited: u32)
    ensures
        layout_masks(d, lim, p, kind, inherited) matches Ok(((reference, output), q)) ==> output
            & reference == reference && field(d, p, 8) == kind,
{
}

/// A row has a gain for each column of its mask, one behind the other in the
/// order of the columns, and none for the others.
pub proof fn rows_have_a_gain_per_column(d: Seq<u8>, lim: int, p: int, mask: u32, columns: int, i: int)
    requires
        0 <= i < columns <= 8,
        gain_row(d, lim, p, mask, columns) is Ok,
    ensures
        ({
            let (codes, q) = gain_row(d, lim, p, mask, columns)->Ok_0;
            &&& codes.len() == 8
            &&& q == p + 6 * bits_between(mask, 0, columns)
            &&& has_bit(mask, i) ==> codes[i] == field(d, p + 6 * bits_between(mask, 0, i), 6) && 1
                <= codes[i] <= 61
            &&& !has_bit(mask, i) ==> codes[i] == 0
        }),
{
    lemma_gains(d, lim, p, mask, columns);
    let codes = repeat(gain_step(d, lim, mask), p, columns)->Ok_0.0;
    assert(codes.len() == columns);
    assert(widened(codes)[i] == codes[i]);
}

proof fn lemma_gains(d: Seq<u8>, lim: int, p: int, mask: u32, n: int)
    requires
        0 <= n,
    ensures
        repeat(gain_step(d, lim, mask), p, n) matches Ok((codes, q)) ==> codes.len() == n && q == p
            + 6 * bits_between(mask, 0, n) && forall|i: int|
            0 <= i < n ==> if has_bit(mask, i) {
                #[trigger] codes[i] == field(d, p + 6 * bits_between(mask, 0, i), 6) && 1
                    <= codes[i] <= 61
            } else {
                codes[i] == 0
            },
    decreases n,
{
    if n > 0 {
        lemma_gains(d, lim, p, mask, n - 1);
        lemma_field_range(d, p + 6 * bits_between(mask, 0, n - 1), 6);
    }
}

/// The rows of the standard matrix are the heights, left before right and front
/// before back, each with a gain for the columns of its eight bits.
pub proof fn standard_rows_are_the_heights(d: Seq<u8>, lim: int, p: int, i: int)
    ensures
        standard_height(0) == SpatialChannel::TopFrontLeft,
        standard_height(1) == SpatialChannel::TopFrontRight,
        standard_height(2) == SpatialChannel::TopBackLeft,
        standard_height(3) == SpatialChannel::TopBackRight,
        matrix_row(d, lim, p, i) matches Ok((m, q)) ==> m.role == SourceRole::Height(
            standard_height(i),
        ) && (m.fold matches Some(codes) && gain_row(d, lim, p + 8, field(d, p, 8) as u32, 8)
            == Ok::<_, XMetadataError>((codes, q))),
{
}

/// Sources placed from a slot on take the slots behind it and no others.
pub proof fn placed_sources_keep_their_order(
    base: Seq<Option<SourceModel>>,
    at: int,
    items: Seq<SourceModel>,
    i: int,
)
    requires
        0 <= at,
        at + items.len() <= base.len(),
        0 <= i < base.len(),
    ensures
        placed_from(base, at, items).len() == base.len(),
        i < at || at + items.len() <= i ==> placed_from(base, at, items)[i] == base[i],
        i < items.len() ==> placed_from(base, at, items)[at + i] == Some(items[i]),
{
}

/// A declaration names an object below the count that none before it named, and
/// its mode.
pub proof fn declarations_come_back(d: Seq<u8>, lim: int, p: int, count: int, before: Seq<Declaration>)
    ensures
        declaration(d, lim, p, count, before) matches Ok((v, q)) ==> v.index == field(d, p + 3, 3)
            && v.mode == field(d, p + 6, 2) && v.index < count && v.mode <= 1 && !declared(
            before,
            v.index as int,
        ) && q == p + 18,
{
    lemma_field_range(d, p + 3, 3);
    lemma_field_range(d, p + 6, 2);
}

/// No object is declared twice.
pub proof fn objects_are_declared_once(d: Seq<u8>, lim: int, p: int, count: int, n: int)
    requires
        0 <= n,
    ensures
        declarations(d, lim, p, count, n) matches Ok((list, q)) ==> list.len() == n && q == p + 18
            * n && (forall|i: int, j: int|
            0 <= i < j < n ==> (#[trigger] list[i]).index != (#[trigger] list[j]).index) && forall|
            i: int,
        |
            0 <= i < n ==> (#[trigger] list[i]).index < count && list[i].index == field(
                d,
                p + 18 * i + 3,
                3,
            ),
    decreases n,
{
    if n > 0 {
        objects_are_declared_once(d, lim, p, count, n - 1);
        match declarations(d, lim, p, count, n - 1) {
            Ok((before, q)) => {
                declarations_come_back(d, lim, q, count, before);
                match declaration(d, lim, q, count, before) {
                    Ok((v, r)) => {
                        let list = before.push(v);
                        assert forall|i: int, j: int| 0 <= i < j < n implies (
                        #[trigger] list[i]).index != (#[trigger] list[j]).index by {
                            if j == n - 1 {
                                assert(list[i] == before[i]);
                                assert(before[i].index == list[i].index);
                            } else {
                                assert(before[i].index != before[j].index);
                            }
                        }
                    },
                    _ => {},
                }
            },
            _ => {},
        }
    }
}

/// Every record stands in the slot that its declaration names.
pub proof fn records_stand_where_they_were_declared(
    list: Seq<Declaration>,
    records: Seq<SourceModel>,
    n: int,
    i: int,
)
    requires
        0 <= i < n <= list.len(),
        n <= records.len(),
        forall|k: int| 0 <= k < n ==> (#[trigger] list[k]).index < 9,
        forall|k: int, j: int|
            0 <= k < j < n ==> (#[trigger] list[k]).index != (#[trigger] list[j]).index,
    ensures
        placed_records(list, records, n).len() == 9,
        placed_records(list, records, n)[list[i].index as int] == Some(records[i]),
    decreases n,
{
    lemma_slots(list, records, n);
    lemma_slots(list, records, n - 1);
    if i < n - 1 {
        records_stand_where_they_were_declared(list, records, n - 1, i);
        assert(list[i].index != list[n - 1].index);
    }
}

proof fn lemma_slots(list: Seq<Declaration>, records: Seq<SourceModel>, n: int)
    requires
        n <= list.len(),
        forall|k: int| 0 <= k < n ==> (#[trigger] list[k]).index < 9,
    ensures
        placed_records(list, records, n).len() == 9,
    decreases n,
{
    if n > 0 {
        lemma_slots(list, records, n - 1);
    }
}

/// A record of the first mode has no known fold; one of the second has the row
/// that it codes, or none.
pub proof fn folds_come_back(d: Seq<u8>, lim: int, p: int, columns: int)
    requires
        0 <= columns <= 8,
    ensures
        record_fold(d, lim, p, 0, columns) == Ok::<_, XMetadataError>((None::<Seq<u8>>, p)),
        record_fold(d, lim, p, 1, columns) matches Ok((f, q)) ==> (field(d, p, 1) == 0 ==> q == p + 2
            && (f matches Some(codes) && codes.len() == 8 && forall|i: int|
            0 <= i < 8 ==> #[trigger] codes[i] == 0)) && (field(d, p, 1) != 0 ==> (f matches Some(
            codes,
        ) && gain_row(d, lim, p + 2 + columns, field(d, p + 2, columns) as u32, columns) == Ok::<
            _,
            XMetadataError,
        >((codes, q)))) && field(d, p + 1, 1) == 0,
{
}

/// A record is an object at its position, with its fold, and at first without
/// an alternative.
pub proof fn records_are_objects(d: Seq<u8>, lim: int, p: int, mode: u32, columns: int)
    ensures
        record(d, lim, p, mode, columns) matches Ok((m, q)) ==> ({
            let a = p + if mode == 0 { 4int } else { 3int };
            &&& record_position(d, lim, a) matches Ok((v, b))
            &&& m.role == SourceRole::Object { position: v, centre_height_alternative: false }
            &&& record_fold(d, lim, b, mode, columns) == Ok::<_, XMetadataError>((m.fold, q))
        }),
        record_options(d, lim, p, mode) matches Ok((u, q)) ==> q == p + if mode == 0 {
            4int
        } else {
            3int
        },
{
}

/// An alternative changes an object in nothing else, and nothing but objects
/// has one.
pub proof fn alternatives_change_nothing_else(source: SourceModel)
    ensures
        source.role is Height ==> with_alternative(Some(source)) == Some(source),
        source.role matches SourceRole::Object { position, centre_height_alternative } ==> (
        with_alternative(Some(source)) matches Some(m) && m.fold == source.fold && m.role
            == SourceRole::Object { position, centre_height_alternative: true }),
        with_alternative(None) is None,
{
}

/// Objects have the alternatives that their own flags declare.
pub proof fn flags_belong_to_their_objects(
    base: Seq<Option<SourceModel>>,
    list: Seq<Declaration>,
    flags: Seq<bool>,
    n: int,
    i: int,
)
    requires
        base.len() == 9,
        0 <= i < n <= list.len(),
        n <= flags.len(),
        forall|k: int| 0 <= k < n ==> (#[trigger] list[k]).index < 9,
        forall|k: int, j: int|
            0 <= k < j < n ==> (#[trigger] list[k]).index != (#[trigger] list[j]).index,
    ensures
        flagged(base, list, flags, n).len() == 9,
        flags[i] ==> flagged(base, list, flags, n)[list[i].index as int] == with_alternative(
            base[list[i].index as int],
        ),
        !flags[i] ==> flagged(base, list, flags, n)[list[i].index as int]
            == base[list[i].index as int],
    decreases n,
{
    lemma_unflagged(base, list, flags, n, list[i].index as int);
    lemma_unflagged(base, list, flags, n - 1, list[i].index as int);
    if i < n - 1 {
        flags_belong_to_their_objects(base, list, flags, n - 1, i);
        assert(list[i].index != list[n - 1].index);
    } else {
        assert forall|k: int| 0 <= k < n - 1 implies (#[trigger] list[k]).index != list[i].index by {
            assert(list[k].index != list[n - 1].index);
        }
    }
}

proof fn lemma_unflagged(
    base: Seq<Option<SourceModel>>,
    list: Seq<Declaration>,
    flags: Seq<bool>,
    n: int,
    at: int,
)
    requires
        base.len() == 9,
        n <= list.len(),
        0 <= at < 9,
        forall|k: int| 0 <= k < n ==> (#[trigger] list[k]).index < 9,
    ensures
        flagged(base, list, flags, n).len() == 9,
        (forall|k: int| 0 <= k < n ==> (#[trigger] list[k]).index != at) ==> flagged(
            base,
            list,
            flags,
            n,
        )[at] == base[at],
    decreases n,
{
    if n > 0 {
        lemma_unflagged(base, list, flags, n - 1, at);
    }
}

/// Without the section no object has an alternative; with it each has a flag,
/// and a clear one is all there is of it.
pub proof fn alternatives_need_their_section(d: Seq<u8>, lim: int, p: int, count: int, i: int)
    requires
        p + 1 <= lim,
        0 <= i < count,
    ensures
        field(d, p, 1) == 0 ==> (auxiliaries(d, lim, p, count) matches Ok((v, q)) && v.len() == count
            && !v[i] && q == p + 1),
        field(d, p, 1) == 0 ==> auxiliary(d, lim, p) == Ok::<_, XMetadataError>((false, p + 1)),
        field(d, p, 1) != 0 ==> (auxiliary(d, lim, p) matches Ok((v, q)) ==> v),
{
}

/// The gain of a waveform in a speaker is that of the last column that
/// addresses it.
pub proof fn the_last_column_counts(codes: Seq<u8>, speakers: Seq<u8>, speaker: int, n: int, k: int)
    requires
        0 <= k < n,
        speakers[k] == speaker,
        codes[k] != 0,
        forall|j: int| k < j < n ==> #[trigger] speakers[j] != speaker || codes[j] == 0,
    ensures
        folded_gain(codes, speakers, speaker, n) == codes[k],
    decreases n,
{
    if k < n - 1 {
        assert(speakers[n - 1] != speaker || codes[n - 1] == 0);
        the_last_column_counts(codes, speakers, speaker, n - 1, k);
    }
}

/// A waveform that no column brings to a speaker has no gain there.
pub proof fn unaddressed_speakers_have_no_gain(
    codes: Seq<u8>,
    speakers: Seq<u8>,
    speaker: int,
    n: int,
)
    requires
        forall|j: int| 0 <= j < n ==> #[trigger] speakers[j] != speaker || codes[j] == 0,
    ensures
        folded_gain(codes, speakers, speaker, n) == 0,
    decreases n,
{
    if n > 0 {
        unaddressed_speakers_have_no_gain(codes, speakers, speaker, n - 1);
    }
}

/// Gain codes are four places apart in the table, up to unity at its end.
pub proof fn gain_codes_are_four_apart(code: int)
    ensures
        gain_index(code) is Some <==> 1 <= code <= 61,
        gain_index(1) == Some(1int),
        gain_index(61) == Some(241int),
        2 <= code <= 61 ==> gain_index(code)->0 == gain_index(code - 1)->0 + 4,
{
}

/// Present sources keep their order, and every filled slot is one.
pub proof fn present_sources_keep_their_order(sources: Seq<Option<SourceModel>>, n: int, i: int)
    requires
        0 <= i < n,
        forall|k: int| 0 <= k < n ==> #[trigger] sources[k] is Some,
    ensures
        present(sources, n).len() == n,
        Some(present(sources, n)[i]) == sources[i],
    decreases n,
{
    assert(sources[n - 1] is Some);
    lemma_present(sources, n - 1);
    if i < n - 1 {
        present_sources_keep_their_order(sources, n - 1, i);
    }
}

proof fn lemma_present(sources: Seq<Option<SourceModel>>, n: int)
    requires
        0 <= n,
        forall|k: int| 0 <= k < n ==> #[trigger] sources[k] is Some,
    ensures
        present(sources, n).len() == n,
    decreases n,
{
    if n > 0 {
        assert(sources[n - 1] is Some);
        lemma_present(sources, n - 1);
    }
}

/// Nothing is there before anything was placed.
pub proof fn slots_start_empty(i: int)
    requires
        0 <= i < 9,
    ensures
        no_sources().len() == 9,
        no_sources()[i] is None,
{
}

/// Openings are fixed: those of layouts by their kind, with one field that only
/// the third kind sets, those of outputs by unity level.
pub proof fn openings_are_fixed(d: Seq<u8>, lim: int, p: int, kind: int)
    ensures
        layout_opening(d, lim, p, kind) matches Ok((_, q)) ==> q == p + 25 && q <= lim && field(
            d,
            p,
            8,
        ) == kind && field(d, p + 8, 8) == 0 && field(d, p + 16, 1) == 0 && field(d, p + 17, 4) == 1
            && (field(d, p + 21, 4) == 1 <==> kind == 3) && (field(d, p + 21, 4) == 0 <==> kind != 3),
        output_field(d, lim, p) is Ok ==> field(d, p, 1) == 1 && field(d, p + 1, 6) == 61 && field(
            d,
            p + 7,
            1,
        ) == 0 && output_field(d, lim, p) == mask_field(d, lim, p + 8),
        matrix_opening(d, lim, p) matches Ok((_, q)) ==> q == p + 21 && q <= lim && field(d, p, 5)
            == 2 && field(d, p + 5, 6) == 0 && field(d, p + 11, 1) == 1 && field(d, p + 12, 1) == 0
            && field(d, p + 13, 1) == 1 && field(d, p + 14, 6) == 61 && field(d, p + 20, 1) == 0,
        type3_opening(d, lim, p) matches Ok((_, q)) ==> q == p + 25 && q <= lim && field(d, p, 5)
            == 2 && field(d, p + 5, 6) == 0 && field(d, p + 11, 1) == 1 && field(d, p + 12, 1) == 0,
{
}

/// An element of objects counts them from one up to nine, in four bits of its
/// fixed opening.
pub proof fn objects_are_counted_from_one(d: Seq<u8>, lim: int, p: int)
    ensures
        type241_opening(d, lim, p) matches Ok((count, q)) ==> ({
            &&& q == p + 41
            &&& q <= lim
            &&& count == field(d, p + 28, 4) + 1
            &&& 1 <= count <= 9
            &&& field(d, p, 8) == 241
            &&& field(d, p + 8, 8) == 64
            &&& field(d, p + 16, 4) == 0 && field(d, p + 20, 1) == 0 && field(d, p + 21, 4) == 1
            &&& field(d, p + 25, 1) == 1 && field(d, p + 26, 1) == 0 && field(d, p + 27, 1) == 1
            &&& field(d, p + 32, 1) == 0 && field(d, p + 33, 1) == 0 && field(d, p + 34, 1) == 1
            &&& field(d, p + 35, 1) == 1 && field(d, p + 36, 2) == 0 && field(d, p + 38, 3) == 0
        }),
{
    lemma_field_range(d, p + 28, 4);
}

/// A column of a row brings six bits where the row's mask has its bit: a gain of
/// its reference, or unity for the one height that names the row.
pub proof fn columns_bring_gains_and_a_height(
    d: Seq<u8>,
    lim: int,
    p: int,
    mask: u32,
    columns: Seq<Column>,
    n: int,
    row: RowModel,
    q: int,
)
    requires
        0 <= n < columns.len(),
        row.fold.len() == 8,
        type3_columns(d, lim, p, mask, columns, n) == Ok::<_, XMetadataError>((row, q)),
    ensures
        !has_bit(mask, n) ==> type3_columns(d, lim, p, mask, columns, n + 1) == Ok::<
            _,
            XMetadataError,
        >((row, q)),
        has_bit(mask, n) ==> (type3_columns(d, lim, p, mask, columns, n + 1) matches Ok((next, r))
            ==> ({
            &&& r == q + 6
            &&& r <= lim
            &&& next.fold.len() == 8 || columns[n] is Reference
            &&& columns[n] matches Column::Reference(k) ==> next.identity == row.identity && (k < 8
                ==> next.fold[k as int] == field(d, q, 6) && 1 <= next.fold[k as int] <= 61
                && forall|j: int|
                0 <= j < 8 && j != k ==> #[trigger] next.fold[j] == row.fold[j])
            &&& columns[n] matches Column::Height(speaker) ==> row.identity is None && next.identity
                == Some(speaker) && next.fold == row.fold && field(d, q, 6) == 61
        })),
{
    lemma_field_range(d, q, 6);
}

/// Rows of feeds are heights with a fold.
pub proof fn feeds_are_heights(d: Seq<u8>, lim: int, p: int, columns: Seq<Column>)
    ensures
        type3_row(d, lim, p, columns) matches Ok((source, q)) ==> ({
            &&& source.role is Height
            &&& source.fold is Some
            &&& type3_columns(
                d,
                lim,
                p + columns.len(),
                field(d, p, columns.len() as int) as u32,
                columns,
                columns.len() as int,
            ) matches Ok((row, r))
            &&& r == q
            &&& source.fold == Some(row.fold)
            &&& row.identity matches Some(speaker)
            &&& source.role == SourceRole::Height(speaker)
        }),
{
}

/// Standard metadata is of four sources, over a layout with the heights and no
/// more above the reference, under a checksum that comes out.
pub proof fn standard_metadata_is_of_four_sources(d: Seq<u8>, source_count: int)
    ensures
        standard_metadata(d, source_count) matches Ok(m) ==> ({
            &&& source_count == 4
            &&& m.count == 4
            &&& layout_masks(d, 8 * d.len() as int, 0, 2, REFERENCE_MASK_7_1) matches Ok((masks, q))
            &&& masks.0 == REFERENCE_MASK_7_1
            &&& masks.1 & !masks.0 == HEIGHT_MASK
            &&& repeat(matrix_step(d, 8 * d.len() as int), q + 21, 4) matches Ok((items, r))
            &&& m.sources == placed_from(no_sources(), 0, items)
            &&& padding(d, 8 * d.len() as int, r, "matrix padding") matches Ok((_, end))
            &&& end / 8 + 2 <= d.len()
            &&& crate::dca::crc::crc_of(d.take(end / 8 + 2)) == 0
        }),
{
}

/// The metadata of an extension goes by its sync word.
pub proof fn metadata_goes_by_the_sync_word(d: Seq<u8>, source_count: int)
    ensures
        d.len() < 4 ==> x_metadata(d, source_count) is Err,
        d.len() >= 4 && field(d, 0, 32) == DCA_SYNCWORD_XLL_X ==> x_metadata(d, source_count)
            == standard_metadata(d, source_count),
        x_metadata(d, source_count) is Ok && field(d, 0, 32) != DCA_SYNCWORD_XLL_X ==> x_metadata(
            d,
            source_count,
        ) == alternate_metadata(d, source_count),
{
}

/// Alternate metadata is of as many sources as there are objects, and four more
/// where heights follow them, over the objects' reference.
#[verifier::spinoff_prover]
#[verifier::rlimit(80)]
pub proof fn alternate_sources_are_objects_and_heights(
    d: Seq<u8>,
    source_count: int,
    length: usize,
    sets: u8,
    objects: ObjectsModel,
    m: XMetadataModel,
)
    requires
        protected_prefix(d) == Ok::<_, crate::dca::xll_error::XllError>((length, sets)),
        type241_element(d.take(length as int)) == Ok::<_, XMetadataError>(objects),
        alternate_metadata(d, source_count) == Ok::<_, XMetadataError>(m),
        0 <= source_count,
    ensures
        m.count == source_count,
        source_count <= 9,
        reference_columns(objects.mask) == Some(m.speakers),
        source_count == objects.count ==> m.sources == objects.sources,
        source_count != objects.count ==> source_count == objects.count + 4 && (type3_element(
            d.take(length as int).skip(objects.next),
            objects.mask,
        ) matches Ok(rows) && m.sources == placed_from(objects.sources, objects.count, rows)),
{
}

} // verus!
