//! Which waveform each source of the extension metadata describes.

use vstd::prelude::*;
use vstd::set_lib::{lemma_int_range, lemma_subset_equality, set_int_range};
use crate::grammar::{lemma_repeat_all, repeat};
use super::alternate::protected_prefix;
use super::xmeta::{
    auxiliaries, declarations, declared, flagged, layout_masks, mask_field, matrix_opening,
    matrix_row, matrix_step, output_columns, placed_records, present, record, record_step,
    reference_columns, standard_metadata, type241_element, type241_objects, type241_opening,
    type3_element, type3_opening, type3_row, type3_step, x_metadata, Declaration, SourceModel,
    XMetadataError, XMetadataModel, REFERENCE_MASK_7_1,
};

verus! {

pub open spec fn is_object(source: Option<SourceModel>) -> bool {
    source matches Some(s) && s.role is Object
}

pub open spec fn is_height(source: Option<SourceModel>) -> bool {
    source matches Some(s) && s.role is Height
}

/// The first `objects` of the waveforms are objects, and the others heights.
pub open spec fn split_at(m: XMetadataModel, objects: int) -> bool {
    &&& 0 <= objects <= m.count
    &&& forall|i: int| 0 <= i < objects ==> is_object(#[trigger] m.sources[i])
    &&& forall|i: int| objects <= i < m.count ==> is_height(#[trigger] m.sources[i])
}

proof fn lemma_matrix_heights(d: Seq<u8>, lim: int, p: int)
    ensures
        repeat(matrix_step(d, lim), p, 4) matches Ok((items, q)) ==> items.len() == 4 && forall|
            i: int,
        |
            0 <= i < 4 ==> is_height(Some(#[trigger] items[i])),
{
    let step = matrix_step(d, lim);
    let good = |s: SourceModel| is_height(Some(s));
    assert forall|i: int, q: int| 0 <= i < 4 implies (#[trigger] step(i, q) matches Ok((item, r))
        ==> good(item)) by {
        assert(step(i, q) == matrix_row(d, lim, q, i));
    }
    lemma_repeat_all(step, p, 4, good);
    if let Ok((items, q)) = repeat(step, p, 4) {
        assert forall|i: int| 0 <= i < 4 implies is_height(Some(#[trigger] items[i])) by {
            assert(good(items[i]));
        }
    }
}

proof fn lemma_type3_heights(d: Seq<u8>, mask: u32)
    ensures
        type3_element(d, mask) matches Ok(items) ==> items.len() == 4 && forall|i: int|
            0 <= i < 4 ==> is_height(Some(#[trigger] items[i])),
{
    let lim = 8 * d.len() as int;
    let good = |s: SourceModel| is_height(Some(s));
    if let Ok((masks, p1)) = layout_masks(d, lim, 0, 3, mask) {
        if let Some(columns) = output_columns(masks.1) {
            if let Ok((_, p2)) = type3_opening(d, lim, p1) {
                let step = type3_step(d, lim, columns);
                assert forall|i: int, q: int| 0 <= i < 4 implies (#[trigger] step(i, q) matches Ok(
                    (item, r),
                ) ==> good(item)) by {
                    assert(step(i, q) == type3_row(d, lim, q, columns));
                }
                lemma_repeat_all(step, p2, 4, good);
                if let Ok((items, q)) = repeat(step, p2, 4) {
                    assert forall|i: int| 0 <= i < 4 implies is_height(Some(#[trigger] items[i])) by {
                        assert(good(items[i]));
                    }
                }
            }
        }
    }
}

/// Indices of the first `n` declarations.
spec fn indices(list: Seq<Declaration>, n: int) -> Set<int>
    decreases n,
{
    if n <= 0 {
        Set::empty()
    } else {
        indices(list, n - 1).insert(list[n - 1].index as int)
    }
}

proof fn lemma_indices(list: Seq<Declaration>, n: int)
    requires
        0 <= n <= list.len(),
    ensures
        indices(list, n).finite(),
        forall|x: int|
            #[trigger] indices(list, n).contains(x) == exists|j: int|
                0 <= j < n && (#[trigger] list[j]).index == x,
    decreases n,
{
    if n > 0 {
        lemma_indices(list, n - 1);
        assert forall|x: int|
            #[trigger] indices(list, n).contains(x) == exists|j: int|
                0 <= j < n && (#[trigger] list[j]).index == x by {
            if exists|j: int| 0 <= j < n && (#[trigger] list[j]).index == x {
                let j = choose|j: int| 0 <= j < n && (#[trigger] list[j]).index == x;
                if j < n - 1 {
                    assert(indices(list, n - 1).contains(x));
                }
            }
            if indices(list, n).contains(x) && x != list[n - 1].index {
                assert(indices(list, n - 1).contains(x));
                let j = choose|j: int| 0 <= j < n - 1 && (#[trigger] list[j]).index == x;
                assert(list[j].index == x);
            }
        }
    }
}

/// Declarations name different indices, all below the count.
proof fn lemma_declared_apart(d: Seq<u8>, lim: int, p: int, count: int, n: int)
    requires
        0 <= n,
    ensures
        declarations(d, lim, p, count, n) matches Ok((list, q)) ==> {
            &&& list.len() == n
            &&& forall|i: int| 0 <= i < n ==> (#[trigger] list[i]).index < count
            &&& indices(list, n).len() == n
        },
    decreases n,
{
    if n > 0 {
        lemma_declared_apart(d, lim, p, count, n - 1);
        if let Ok((list, q)) = declarations(d, lim, p, count, n) {
            let (rest, w) = declarations(d, lim, p, count, n - 1)->Ok_0;
            crate::bits::lemma_field_range(d, w + 3, 3);
            assert(list =~= rest.push(list[n - 1]));
            lemma_indices(rest, n - 1);
            assert(!indices(rest, n - 1).contains(list[n - 1].index as int)) by {
                if indices(rest, n - 1).contains(list[n - 1].index as int) {
                    let j = choose|j: int|
                        0 <= j < n - 1 && (#[trigger] rest[j]).index == list[n - 1].index;
                    assert(declared(rest, list[n - 1].index as int));
                }
            }
            lemma_indices_prefix(rest, list, n - 1);
            assert forall|i: int| 0 <= i < n implies (#[trigger] list[i]).index < count by {
                if i < n - 1 {
                    assert(rest[i] == list[i]);
                }
            }
        }
    }
}

proof fn lemma_indices_prefix(a: Seq<Declaration>, b: Seq<Declaration>, n: int)
    requires
        0 <= n <= a.len() <= b.len(),
        forall|i: int| 0 <= i < n ==> a[i] == b[i],
    ensures
        indices(a, n) == indices(b, n),
    decreases n,
{
    if n > 0 {
        lemma_indices_prefix(a, b, n - 1);
    }
}

/// As many declarations as there are indices name them all.
proof fn lemma_all_declared(list: Seq<Declaration>, count: int, x: int)
    requires
        list.len() == count,
        0 <= x < count,
        forall|i: int| 0 <= i < count ==> (#[trigger] list[i]).index < count,
        indices(list, count).len() == count,
    ensures
        exists|j: int| 0 <= j < count && (#[trigger] list[j]).index == x,
{
    lemma_indices(list, count);
    lemma_int_range(0, count);
    assert(indices(list, count).subset_of(set_int_range(0, count)));
    lemma_subset_equality(indices(list, count), set_int_range(0, count));
    assert(indices(list, count).contains(x));
}

proof fn lemma_placed(list: Seq<Declaration>, records: Seq<SourceModel>, n: int, x: int)
    requires
        0 <= n <= list.len(),
        n <= records.len(),
        0 <= x < 9,
        forall|i: int| 0 <= i < n ==> (#[trigger] list[i]).index < 9,
        forall|i: int| 0 <= i < n ==> (#[trigger] records[i]).role is Object,
    ensures
        placed_records(list, records, n).len() == 9,
        (exists|j: int| 0 <= j < n && (#[trigger] list[j]).index == x) ==> is_object(
            placed_records(list, records, n)[x],
        ),
    decreases n,
{
    if n > 0 {
        lemma_placed(list, records, n - 1, x);
        if exists|j: int| 0 <= j < n && (#[trigger] list[j]).index == x {
            let j = choose|j: int| 0 <= j < n && (#[trigger] list[j]).index == x;
            if list[n - 1].index != x {
                assert(j < n - 1 && list[j].index == x);
            } else {
                assert(records[n - 1].role is Object);
            }
        }
    }
}

proof fn lemma_flagged(base: Seq<Option<SourceModel>>, list: Seq<Declaration>, flags: Seq<bool>, n: int, x: int)
    requires
        0 <= n <= list.len(),
        base.len() == 9,
        0 <= x < 9,
        forall|i: int| 0 <= i < n ==> (#[trigger] list[i]).index < 9,
    ensures
        flagged(base, list, flags, n).len() == 9,
        is_object(base[x]) ==> is_object(flagged(base, list, flags, n)[x]),
    decreases n,
{
    if n > 0 {
        lemma_flagged(base, list, flags, n - 1, x);
    }
}

proof fn lemma_type241_objects(d: Seq<u8>)
    ensures
        type241_element(d) matches Ok(o) ==> o.count <= 9 ==> {
            &&& 0 <= o.count
            &&& o.sources.len() == 9
            &&& forall|x: int| 0 <= x < o.count ==> is_object(#[trigger] o.sources[x])
        },
{
    let lim = 8 * d.len() as int;
    if let Ok(o) = type241_element(d) {
        let (count, p1) = type241_opening(d, lim, 0)->Ok_0;
        crate::bits::lemma_field_range(d, 28, 4);
        let (mask, p2) = mask_field(d, lim, p1)->Ok_0;
        let columns = (reference_columns(mask)->0).len() as int;
        let p = p2 + 8;
        assert(type241_objects(d, p, count, mask, columns) == Ok::<_, XMetadataError>(o));
        let (list, q) = declarations(d, lim, p, count, count)->Ok_0;
        lemma_declared_apart(d, lim, p, count, count);
        let step = record_step(d, lim, list, columns);
        let good = |s: SourceModel| s.role is Object;
        assert forall|i: int, w: int| 0 <= i < count implies (#[trigger] step(i, w) matches Ok(
            (item, r),
        ) ==> good(item)) by {
            assert(step(i, w) == record(d, lim, w, list[i].mode, columns));
        }
        lemma_repeat_all(step, q, count, good);
        let (records, q2) = repeat(step, q, count)->Ok_0;
        let (flags, q3) = auxiliaries(d, lim, q2, count)->Ok_0;
        if count <= 9 {
            assert forall|i: int| 0 <= i < count implies (#[trigger] records[i]).role is Object by {
                assert(good(records[i]));
            }
            lemma_placed(list, records, count, 0);
            lemma_flagged(placed_records(list, records, count), list, flags, count, 0);
            assert forall|x: int| 0 <= x < o.count implies is_object(#[trigger] o.sources[x]) by {
                lemma_all_declared(list, count, x);
                lemma_placed(list, records, count, x);
                lemma_flagged(placed_records(list, records, count), list, flags, count, x);
            }
        }
    }
}

/// Metadata describes every waveform of its frame: the objects first, each at
/// its declared index, and behind them no height or all four.
pub proof fn waveforms_are_objects_then_heights(d: Seq<u8>, source_count: int)
    requires
        x_metadata(d, source_count) is Ok,
    ensures
        (x_metadata(d, source_count)->Ok_0).count == source_count,
        split_at(x_metadata(d, source_count)->Ok_0, source_count) || split_at(
            x_metadata(d, source_count)->Ok_0,
            source_count - 4,
        ),
{
    let m = x_metadata(d, source_count)->Ok_0;
    if standard_metadata(d, source_count) == Ok::<_, XMetadataError>(m) {
        let lim = 8 * d.len() as int;
        let (masks, p1) = layout_masks(d, lim, 0, 2, REFERENCE_MASK_7_1)->Ok_0;
        let p2 = matrix_opening(d, lim, p1)->Ok_0.1;
        lemma_matrix_heights(d, lim, p2);
        let items = repeat(matrix_step(d, lim), p2, 4)->Ok_0.0;
        assert forall|i: int| 0 <= i < 4 implies is_height(#[trigger] m.sources[i]) by {
            assert(is_height(Some(items[i])));
        }
        assert(split_at(m, 0));
    } else {
        let length = protected_prefix(d)->Ok_0.0;
        let prefix = d.take(length as int);
        lemma_type241_objects(prefix);
        let o = type241_element(prefix)->Ok_0;
        if o.next + 2 != prefix.len() {
            lemma_type3_heights(prefix.skip(o.next), o.mask);
            let rows = type3_element(prefix.skip(o.next), o.mask)->Ok_0;
            assert forall|i: int| 0 <= i < o.count implies is_object(#[trigger] m.sources[i]) by {
                assert(is_object(o.sources[i]));
            }
            assert forall|i: int| o.count <= i < m.count implies is_height(#[trigger] m.sources[i]) by {
                assert(is_height(Some(rows[i - o.count])));
            }
            assert(split_at(m, o.count));
        } else {
            assert(split_at(m, o.count));
        }
    }
}

proof fn lemma_present(sources: Seq<Option<SourceModel>>, n: int)
    requires
        0 <= n <= sources.len(),
        forall|i: int| 0 <= i < n ==> #[trigger] sources[i] is Some,
    ensures
        present(sources, n).len() == n,
        forall|i: int| 0 <= i < n ==> Some(#[trigger] present(sources, n)[i]) == sources[i],
    decreases n,
{
    if n > 0 {
        lemma_present(sources, n - 1);
        assert(sources[n - 1] is Some);
    }
}

/// No waveform of a frame is skipped: what is listed first to last as present
/// is what the metadata says of the waveform of the same index.
pub proof fn listed_sources_keep_their_index(d: Seq<u8>, source_count: int)
    requires
        x_metadata(d, source_count) is Ok,
    ensures
        ({
            let m = x_metadata(d, source_count)->Ok_0;
            let list = present(m.sources, m.count as int);
            &&& list.len() == source_count
            &&& forall|i: int| 0 <= i < source_count ==> Some(#[trigger] list[i]) == m.sources[i]
        }),
{
    let m = x_metadata(d, source_count)->Ok_0;
    waveforms_are_objects_then_heights(d, source_count);
    let o = if split_at(m, source_count) { source_count } else { source_count - 4 };
    assert forall|i: int| 0 <= i < source_count implies #[trigger] m.sources[i] is Some by {
        if i < o {
            assert(is_object(m.sources[i]));
        } else {
            assert(is_height(m.sources[i]));
        }
    }
    lemma_source_slots(d, source_count);
    lemma_present(m.sources, source_count);
}

proof fn lemma_source_slots(d: Seq<u8>, source_count: int)
    ensures
        x_metadata(d, source_count) matches Ok(m) ==> m.sources.len() == 9 && source_count <= 9,
{
    if let Ok(m) = x_metadata(d, source_count) {
        if standard_metadata(d, source_count) != Ok::<_, XMetadataError>(m) {
            let prefix = d.take(protected_prefix(d)->Ok_0.0 as int);
            lemma_type241_objects(prefix);
        }
    }
}

} // verus!
