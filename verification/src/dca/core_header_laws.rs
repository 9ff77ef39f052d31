//! What the headers of a core frame hold of what was coded.

use vstd::prelude::*;
use crate::bits::{code_space, field, flag, lemma_field_range};
use crate::grammar::{items_are_read_in_turn, repeat};
use crate::dca::core_frame::{
    active_bands, settled, settled_row, subframe_size, subframe_step, FrameModel, Run,
};
use crate::dca::core_header::{
    activity_at, activity_step, adjust_at, bare_head, core_coding, core_counts, header_end, joint_at,
    joint_step, mix_gain, mix_mask, number_at, number_step, ones_of, select_at, select_step, selects, set_coding, subbands,
    xxch_downmix, xxch_head, CoreError, Header, SetModel,
};
use crate::dca::core_subframe::{
    alloc_at, allocs_step, bool_at, bool_step, joint_bands, joint_scale_at, modes_step,
    predictor_at, predictors_step, scale_at, scaled_bands, scales_step, subframe_header,
    subframe_scales, transition_at, transitions_step, vlc_at, ScaleRun, SubframeModel,
};
use crate::dca::core_tables::CoreTables;
use crate::dca::parser::{mode_channels, AudioMode};

verus! {

/// A row of `n` numbers of `w` bits, each `add` more than its field.
pub open spec fn row_laid(d: Seq<u8>, p: int, w: int, add: int, v: Seq<usize>) -> bool {
    forall|i: int| 0 <= i < v.len() ==> (#[trigger] v[i]) as int == field(d, p + w * i, w) + add
}

/// Numbers of one width come back in their order.
pub proof fn rows_of_numbers_come_back(
    d: Seq<u8>,
    lim: int,
    p: int,
    w: int,
    add: int,
    v: Seq<usize>,
)
    requires
        1 <= w <= 16,
        0 <= add <= 16,
        row_laid(d, p, w, add, v),
        p + w * v.len() <= lim,
    ensures
        repeat(number_step(d, lim, w, add), p, v.len() as int) == Ok::<_, CoreError>(
            (v, p + w * v.len()),
        ),
{
    let n = v.len() as int;
    let step = number_step(d, lim, w, add);
    let spots = Seq::new((n + 1) as nat, |j: int| p + w * j);
    assert(w * 0 == 0);
    assert forall|j: int| 0 <= j < n implies step(j, #[trigger] spots[j]) == Ok::<
        (usize, int),
        CoreError,
    >((v[j], spots[j + 1])) by {
        lemma_room(w, j, n);
        assert(v[j] == field(d, p + w * j, w) + add);
    }
    items_are_read_in_turn(step, spots, v, n);
    assert(v.take(n) =~= v);
}

proof fn lemma_room(w: int, j: int, n: int)
    requires
        0 <= j < n,
        0 <= w,
    ensures
        w * (j + 1) == w * j + w,
        w * (j + 1) <= w * n,
        0 <= w * j,
{
    assert(w * (j + 1) == w * j + w && w * (j + 1) <= w * n && 0 <= w * j) by (nonlinear_arith)
        requires
            0 <= j < n,
            0 <= w,
    ;
}

proof fn lemma_activity(d: Seq<u8>, lim: int, p: int, v: Seq<usize>)
    requires
        row_laid(d, p, 5, 2, v),
        forall|i: int| 0 <= i < v.len() ==> #[trigger] v[i] <= 32,
        p + 5 * v.len() <= lim,
    ensures
        repeat(activity_step(d, lim), p, v.len() as int) == Ok::<_, CoreError>(
            (v, p + 5 * v.len()),
        ),
{
    let n = v.len() as int;
    let step = activity_step(d, lim);
    let spots = Seq::new((n + 1) as nat, |j: int| p + 5 * j);
    assert forall|j: int| 0 <= j < n implies step(j, #[trigger] spots[j]) == Ok::<
        (usize, int),
        CoreError,
    >((v[j], spots[j + 1])) by {
        assert(v[j] == field(d, p + 5 * j, 5) + 2);
    }
    items_are_read_in_turn(step, spots, v, n);
    assert(v.take(n) =~= v);
}

proof fn lemma_selects(d: Seq<u8>, lim: int, p: int, v: Seq<usize>, what: &'static str)
    requires
        row_laid(d, p, 3, 0, v),
        forall|i: int| 0 <= i < v.len() ==> #[trigger] v[i] < 7,
        p + 3 * v.len() <= lim,
    ensures
        repeat(select_step(d, lim, what), p, v.len() as int) == Ok::<_, CoreError>(
            (v, p + 3 * v.len()),
        ),
{
    let n = v.len() as int;
    let step = select_step(d, lim, what);
    let spots = Seq::new((n + 1) as nat, |j: int| p + 3 * j);
    assert forall|j: int| 0 <= j < n implies step(j, #[trigger] spots[j]) == Ok::<
        (usize, int),
        CoreError,
    >((v[j], spots[j + 1])) by {
        assert(v[j] == field(d, p + 3 * j, 3) + 0);
    }
    items_are_read_in_turn(step, spots, v, n);
    assert(v.take(n) =~= v);
}

/// The band counts of all channels, two more than coded, come before the starts
/// of all, one more than coded; a bare set has 32 bands everywhere, and its
/// starts come first.
pub proof fn band_counts_come_before_starts(
    d: Seq<u8>,
    lim: int,
    p: int,
    kind: Header,
    counts: Seq<usize>,
    starts: Seq<usize>,
)
    requires
        counts.len() == starts.len(),
        p + 10 * counts.len() <= lim,
    ensures
        kind != Header::Extension && row_laid(d, p, 5, 2, counts) && row_laid(
            d,
            p + 5 * counts.len(),
            5,
            1,
            starts,
        ) && (forall|i: int| 0 <= i < counts.len() ==> #[trigger] counts[i] <= 32) ==> subbands(
            d,
            lim,
            p,
            kind,
            counts.len() as int,
        ) == Ok::<_, CoreError>(((counts, starts), p + 10 * counts.len())),
        kind == Header::Extension && row_laid(d, p, 5, 1, starts) ==> ({
            &&& subbands(d, lim, p, kind, counts.len() as int) matches Ok(((all, from), q))
            &&& from == starts
            &&& q == p + 10 * counts.len()
            &&& all.len() == counts.len()
            &&& forall|i: int| 0 <= i < all.len() ==> #[trigger] all[i] == 32
        }),
{
    let n = counts.len() as int;
    if kind != Header::Extension && row_laid(d, p, 5, 2, counts) && row_laid(d, p + 5 * n, 5, 1, starts)
        && (forall|i: int| 0 <= i < counts.len() ==> #[trigger] counts[i] <= 32) {
        lemma_activity(d, lim, p, counts);
        rows_of_numbers_come_back(d, lim, p + 5 * n, 5, 1, starts);
    }
    if kind == Header::Extension && row_laid(d, p, 5, 1, starts) {
        rows_of_numbers_come_back(d, lim, p, 5, 1, starts);
        let other = Seq::new(n as nat, |i: int| field(d, p + 5 * n + 5 * i, 5) as usize);
        assert forall|i: int| 0 <= i < other.len() implies (#[trigger] other[i]) as int == field(
            d,
            p + 5 * n + 5 * i,
            5,
        ) + 0 by {
            lemma_field_range(d, p + 5 * n + 5 * i, 5);
        }
        rows_of_numbers_come_back(d, lim, p + 5 * n, 5, 0, other);
    }
}

/// The joint sources of a primary set are channels from one on, or none; an
/// extension counts its own; a bare set has none.
pub proof fn joint_sources_come_back(d: Seq<u8>, lim: int, q: int, base: int, total: int)
    requires
        q + 3 <= lim,
        1 <= base,
        base + 7 <= total,
    ensures
        joint_at(d, lim, q, Header::Core, base, total) == Ok::<_, CoreError>(
            (field(d, q, 3) as usize, q + 3),
        ),
        joint_at(d, lim, q, Header::Extension, base, total) == Ok::<_, CoreError>((0usize, q + 3)),
        field(d, q, 3) == 0 ==> joint_at(d, lim, q, Header::Xxch, base, total) == Ok::<
            _,
            CoreError,
        >((0usize, q + 3)),
        field(d, q, 3) > 0 ==> joint_at(d, lim, q, Header::Xxch, base, total) == Ok::<_, CoreError>(
            ((base + field(d, q, 3) - 1) as usize, q + 3),
        ),
{
    lemma_field_range(d, q, 3);
}

proof fn lemma_joint(d: Seq<u8>, lim: int, p: int, joint: Seq<usize>)
    requires
        p + 3 * joint.len() <= lim,
        row_laid(d, p, 3, 0, joint),
        forall|i: int| 0 <= i < joint.len() ==> #[trigger] joint[i] <= joint.len(),
    ensures
        repeat(
            joint_step(d, lim, Header::Core, 0, joint.len() as int),
            p,
            joint.len() as int,
        ) == Ok::<_, CoreError>((joint, p + 3 * joint.len())),
{
    let n = joint.len() as int;
    let step = joint_step(d, lim, Header::Core, 0, n);
    let spots = Seq::new((n + 1) as nat, |j: int| p + 3 * j);
    assert forall|j: int| 0 <= j < n implies step(j, #[trigger] spots[j]) == Ok::<
        (usize, int),
        CoreError,
    >((joint[j], spots[j + 1])) by {
        assert(joint[j] == field(d, p + 3 * j, 3) + 0);
        assert(joint[j] <= n);
    }
    items_are_read_in_turn(step, spots, joint, n);
    assert(joint.take(n) =~= joint);
}

/// The selects of a primary set come back: all joint sources, then all
/// transition books, all scale books, all allocation books.
pub proof fn selects_come_back(
    d: Seq<u8>,
    lim: int,
    p: int,
    joint: Seq<usize>,
    transition: Seq<usize>,
    scale: Seq<usize>,
    alloc: Seq<usize>,
)
    requires
        joint.len() == transition.len() == scale.len() == alloc.len(),
        p + 11 * joint.len() <= lim,
        row_laid(d, p, 3, 0, joint),
        row_laid(d, p + 3 * joint.len(), 2, 0, transition),
        row_laid(d, p + 5 * joint.len(), 3, 0, scale),
        row_laid(d, p + 8 * joint.len(), 3, 0, alloc),
        forall|i: int| 0 <= i < joint.len() ==> #[trigger] joint[i] <= joint.len(),
        forall|i: int| 0 <= i < scale.len() ==> #[trigger] scale[i] < 7,
        forall|i: int| 0 <= i < alloc.len() ==> #[trigger] alloc[i] < 7,
    ensures
        selects(d, lim, p, Header::Core, 0, joint.len() as int, joint.len() as int) == Ok::<
            _,
            CoreError,
        >(((joint, transition, scale, alloc), p + 11 * joint.len())),
{
    let n = joint.len() as int;
    lemma_joint(d, lim, p, joint);
    rows_of_numbers_come_back(d, lim, p + 3 * n, 2, 0, transition);
    lemma_selects(d, lim, p + 5 * n, scale, "scale factor codebook");
    lemma_selects(d, lim, p + 8 * n, alloc, "bit allocation select");
}

/// A set's parameters are its bands, its selects, and ten rows of books and of
/// adjustments, in that order.
pub proof fn sets_hold_their_parts_in_order(
    d: Seq<u8>,
    lim: int,
    p: int,
    t: CoreTables,
    kind: Header,
    base: int,
    n: int,
)
    requires
        set_coding(d, lim, p, t, kind, base, n) is Ok,
    ensures
        ({
            let set = set_coding(d, lim, p, t, kind, base, n)->Ok_0.0;
            &&& subbands(d, lim, p, kind, n) matches Ok(((counts, starts), a))
            &&& set.nsubbands == counts
            &&& set.vq_start == starts
            &&& selects(d, lim, a, kind, base, base + n, n) matches Ok(((j, tr, sc, al), b))
            &&& set.joint == j
            &&& set.transition_sel == tr
            &&& set.scale_sel == sc
            &&& set.alloc_sel == al
            &&& set.quant_sel.len() == 10
            &&& set.adjust.len() == 10
        }),
{
    let ((counts, starts), a) = subbands(d, lim, p, kind, n)->Ok_0;
    let ((j, tr, sc, al), b) = selects(d, lim, a, kind, base, base + n, n)->Ok_0;
    let quant = crate::dca::core_header::quant_step(d, lim, t, n);
    crate::grammar::lemma_repeat_len(quant, b, 10);
    let (sel, c) = repeat(quant, b, 10)->Ok_0;
    crate::grammar::lemma_repeat_len(
        crate::dca::core_header::adjust_rows_step(d, lim, t, sel),
        c,
        10,
    );
}

/// A select of all ones is refused; others come back.
pub proof fn selects_are_below_seven(d: Seq<u8>, lim: int, q: int, what: &'static str)
    requires
        q + 3 <= lim,
    ensures
        field(d, q, 3) == 7 ==> select_at(d, lim, q, what) == Err::<(usize, int), CoreError>(
            CoreError::Invalid(what),
        ),
        field(d, q, 3) != 7 ==> select_at(d, lim, q, what) == Ok::<_, CoreError>(
            (field(d, q, 3) as usize, q + 3),
        ),
{
}

/// A quantizer without a book has no adjustment; others have one of four.
pub proof fn books_have_adjustments(d: Seq<u8>, lim: int, q: int, t: CoreTables, sel: usize, groups: u8)
    requires
        q + 2 <= lim,
    ensures
        sel >= groups ==> adjust_at(d, lim, q, t, sel, groups) == Ok::<_, CoreError>((0i32, q)),
        sel < groups ==> adjust_at(d, lim, q, t, sel, groups) == Ok::<_, CoreError>(
            (t.scale_adj@[field(d, q, 2)], q + 2),
        ),
{
}

/// Subframes are counted from one, and the channels must be those of the
/// arrangement.
pub proof fn channel_counts_fit_the_arrangement(d: Seq<u8>, lim: int, p: int, mode: AudioMode)
    requires
        p + 7 <= lim,
    ensures
        core_counts(d, lim, p, mode) is Ok <==> field(d, p + 4, 3) == mode_channels(mode) - 1,
        core_counts(d, lim, p, mode) matches Ok(((subframes, channels), q)) ==> subframes == field(
            d,
            p,
            4,
        ) + 1 && channels == mode_channels(mode) && q == p + 7,
{
    lemma_field_range(d, p, 4);
    lemma_field_range(d, p + 4, 3);
}

/// A header checksum is passed over: the parameters are those without one.
pub proof fn checksums_are_passed_over(
    d: Seq<u8>,
    lim: int,
    p: int,
    t: CoreTables,
    mode: AudioMode,
)
    ensures
        core_coding(d, lim, p, t, mode, false) matches Ok((head, q)) ==> q + 16 <= lim
            ==> core_coding(d, lim, p, t, mode, true) == Ok::<_, CoreError>((head, q + 16)),
        core_coding(d, lim, p, t, mode, false) matches Err(e) ==> core_coding(
            d,
            lim,
            p,
            t,
            mode,
            true,
        ) == core_coding(d, lim, p, t, mode, false),
{
    reveal(core_coding);
}

/// A downmix gain is silent, or the table's for the six bits, against its sign
/// where the seventh is clear.
pub proof fn downmix_gains_have_a_sign(d: Seq<u8>, lim: int, p: int, t: CoreTables, k: int, c: int, up: bool)
    requires
        p + 7 <= lim,
        0 <= k < 12,
        0 <= c <= 61,
        field(d, p, 7) == c + if up { 64int } else { 0int },
        t.wf(),
    ensures
        c == 0 ==> mix_gain(d, lim, p, t, k) == Ok::<_, CoreError>((0i32, p + 7)),
        c > 0 && up ==> mix_gain(d, lim, p, t, k) == Ok::<_, CoreError>(
            (t.dmix@[4 * c - 3] as i32, p + 7),
        ),
        c > 0 && !up ==> (mix_gain(d, lim, p, t, k) matches Ok((g, q)) && g + t.dmix@[4 * c - 3]
            == 0 && q == p + 7),
{
}

/// A set without a downmix says so in a bit; the scale of one that has it is
/// the table's inverse for its six bits.
pub proof fn downmix_scales_come_back(
    d: Seq<u8>,
    lim: int,
    p: int,
    t: CoreTables,
    nbits: int,
    core_mask: u32,
    n: int,
    scale: int,
)
    requires
        p + 8 <= lim,
        field(d, p + 2, 6) == scale + 11,
    ensures
        !flag(d, p) ==> (xxch_downmix(d, lim, p, t, nbits, core_mask, n) matches Ok((m, q))
            && !m.embedded && m.coeff.len() == 0 && m.masks.len() == 0 && q == p + 1),
        flag(d, p) ==> (xxch_downmix(d, lim, p, t, nbits, core_mask, n) matches Ok((m, q))
            ==> m.embedded == flag(d, p + 1) && 0 <= scale <= 50 && m.scale_inv
            == t.inv_dmix@[4 * scale]),
        flag(d, p) && (scale < 0 || scale > 50) ==> xxch_downmix(
            d,
            lim,
            p,
            t,
            nbits,
            core_mask,
            n,
        ) is Err,
{
}

/// An extension has one or two channels, on as many speakers above the first
/// six, none of them the core's.
pub proof fn extensions_name_their_speakers(
    d: Seq<u8>,
    lim: int,
    p: int,
    t: CoreTables,
    nbits: int,
    core_mask: u32,
)
    requires
        7 <= nbits <= 32,
    ensures
        xxch_head(d, lim, p, t, nbits, core_mask) matches Ok((h, q)) ==> h.nchannels == field(
            d,
            p + 7,
            3,
        ) + 1 && h.nchannels <= 2 && h.header_size == field(d, p, 7) + 1 && crate::bits::ones(
            h.spkr_mask,
        ) == h.nchannels && h.spkr_mask == field(d, p + 10, nbits - 6) * 64 && core_mask
            & h.spkr_mask == 0,
{
    lemma_field_range(d, p, 7);
    lemma_field_range(d, p + 7, 3);
    lemma_field_range(d, p + 10, nbits - 6);
    let f = field(d, p + 10, nbits - 6);
    crate::dca::xll_laws::lemma_code_spaces(nbits, 6);
    assert(code_space(6) == 64);
    crate::dca::xll_laws::lemma_code_spaces(32, nbits);
    let a = code_space(nbits);
    let b = code_space(32 - nbits);
    assert(b >= 1);
    assert(code_space(32) == 0x1_0000_0000);
    assert(a <= 0x1_0000_0000) by (nonlinear_arith)
        requires
            a * b == 0x1_0000_0000,
            b >= 1,
            a >= 1,
    ;
    assert(64 * f < a);
}

/// A header ends where it says, if that is behind what was read and inside the
/// data.
pub proof fn headers_end_where_they_say(lim: int, p: int, size: int, pos: int)
    ensures
        header_end(lim, p, size, pos) is Ok <==> pos <= p + 8 * size <= lim,
        header_end(lim, p, size, pos) matches Ok(end) ==> end == p + 8 * size,
{
}

/// Only predicted bands name a predictor.
pub proof fn predicted_bands_name_their_predictor(d: Seq<u8>, lim: int, q: int)
    requires
        q + 12 <= lim,
    ensures
        predictor_at(d, lim, q, false) == Ok::<_, CoreError>((0usize, q)),
        predictor_at(d, lim, q, true) == Ok::<_, CoreError>((field(d, q, 12) as usize, q + 12)),
{
}

/// An allocation index is a word of one of five books, or plain in four or five
/// bits; none is above 26.
pub proof fn allocations_come_back(d: Seq<u8>, lim: int, q: int, t: CoreTables, sel: usize)
    requires
        q + 5 <= lim,
        sel < 7,
    ensures
        sel == 5 ==> alloc_at(d, lim, q, t, sel) == Ok::<_, CoreError>(
            (field(d, q, 4) as i32, q + 4),
        ),
        sel == 6 && field(d, q, 5) <= 26 ==> alloc_at(d, lim, q, t, sel) == Ok::<_, CoreError>(
            (field(d, q, 5) as i32, q + 5),
        ),
        sel == 6 && field(d, q, 5) > 26 ==> alloc_at(d, lim, q, t, sel) is Err,
        sel < 5 ==> (vlc_at(t.vlcs.bit_allocation@[sel as int]@, d, lim, q) matches Ok((v, s))
            ==> 0 <= v <= 26 ==> alloc_at(d, lim, q, t, sel) == Ok::<_, CoreError>((v, s))),
        alloc_at(d, lim, q, t, sel) matches Ok((v, s)) ==> 0 <= v <= 26,
{
    lemma_field_range(d, q, 4);
    lemma_field_range(d, q, 5);
}

/// A transition that is not coded is none.
pub proof fn uncoded_transitions_are_none(d: Seq<u8>, lim: int, q: int, t: CoreTables, sel: usize)
    ensures
        transition_at(d, lim, q, t, sel, false) == Ok::<_, CoreError>((0i32, q)),
        transition_at(d, lim, q, t, sel, true) == vlc_at(
            t.vlcs.transition_mode@[sel as int]@,
            d,
            lim,
            q,
        ),
{
}

/// Scale indices of a book are differences from the one before; plain ones
/// stand for themselves, in six bits of the coarse table or seven of the fine.
pub proof fn scale_differences_add_up(
    d: Seq<u8>,
    lim: int,
    q: int,
    t: CoreTables,
    sel: usize,
    index: int,
)
    requires
        q + 7 <= lim,
        sel < 7,
    ensures
        sel < 5 ==> (scale_at(d, lim, q, t, sel, index) matches Ok(((scale, next), s))
            ==> scale == t.scale6@[next] && vlc_at(
            t.vlcs.scale_factor@[sel as int]@,
            d,
            lim,
            q,
        ) == Ok::<_, CoreError>(((next - index) as i32, s)) || next - index < -0x8000_0000 || next
            - index > 0x7fff_ffff),
        sel == 5 ==> (scale_at(d, lim, q, t, sel, index) matches Ok(((scale, next), s)) ==> next
            == field(d, q, 6) && scale == t.scale6@[next] && s == q + 6),
        sel == 6 ==> (scale_at(d, lim, q, t, sel, index) matches Ok(((scale, next), s)) ==> next
            == field(d, q, 7) && scale == t.scale7@[next] && s == q + 7),
        sel >= 5 ==> scale_at(d, lim, q, t, sel, index) == scale_at(d, lim, q, t, sel, 0),
{
}

/// A band without bits has no scales and keeps the index; one with bits has one
/// scale, and a second that goes on from the first where it changes.
pub proof fn bands_have_the_scales_they_need(
    d: Seq<u8>,
    lim: int,
    t: CoreTables,
    sel: usize,
    abits: Seq<i32>,
    transition: Seq<i32>,
    i: int,
    run: ScaleRun,
    q: int,
)
    requires
        0 <= i,
    ensures
        ({
            let step = scales_step(d, lim, t, sel, abits, transition);
            let (next, end) = step(i, run, q);
            &&& i < abits.len() && abits[i] == 0 ==> next.scales == run.scales.push(
                (0i32, 0i32),
            ) && next.index == run.index && end == Ok::<int, CoreError>(q)
            &&& (i >= abits.len() || abits[i] != 0 && transition[i] == 0) && end is Ok ==> (
            scale_at(d, lim, q, t, sel, run.index) matches Ok(((a, x), s)) && next.scales
                == run.scales.push((a, 0i32)) && next.index == x && end == Ok::<int, CoreError>(s))
            &&& i < abits.len() && abits[i] != 0 && transition[i] != 0 && end is Ok ==> (scale_at(
                d,
                lim,
                q,
                t,
                sel,
                run.index,
            ) matches Ok(((a, x), s)) && (scale_at(d, lim, s, t, sel, x) matches Ok(((b, y), w))
                && next.scales == run.scales.push((a, b)) && next.index == y && end == Ok::<
                int,
                CoreError,
            >(w)))
        }),
{
}

/// A channel has scales for its bands, and for the bands below its vectors.
pub proof fn all_bands_have_scales(start: usize, count: usize)
    ensures
        scaled_bands(start, count) >= start,
        scaled_bands(start, count) >= count,
        scaled_bands(start, count) == start || scaled_bands(start, count) == count,
{
}

/// Joint bands are those that the source has and the channel lacks.
pub proof fn joint_bands_are_what_is_missing(all: Seq<usize>, joint: usize, count: usize)
    ensures
        joint == 0 ==> joint_bands(all, joint, count) == 0,
        joint > 0 && all[joint - 1] > count ==> count + joint_bands(all, joint, count) == all[joint
            - 1],
        joint > 0 && all[joint - 1] <= count ==> joint_bands(all, joint, count) == 0,
{
}

/// A joint scale is the table's, 64 places above its code.
pub proof fn joint_scales_are_centred(d: Seq<u8>, lim: int, q: int, t: CoreTables, sel: usize)
    requires
        q + 7 <= lim,
        sel < 7,
    ensures
        sel == 5 && field(d, q, 6) + 64 < t.joint_scale@.len() ==> joint_scale_at(
            d,
            lim,
            q,
            t,
            sel,
        ) == Ok::<_, CoreError>((t.joint_scale@[64 + field(d, q, 6)], q + 6)),
        sel < 5 ==> (vlc_at(t.vlcs.scale_factor@[sel as int]@, d, lim, q) matches Ok((v, s))
            ==> 0 <= v + 64 < t.joint_scale@.len() ==> joint_scale_at(d, lim, q, t, sel) == Ok::<
            _,
            CoreError,
        >((t.joint_scale@[64 + v], s))),
{
    lemma_field_range(d, q, 6);
}

/// A checksum behind a subframe's header is passed over.
pub proof fn subframe_checksums_are_passed_over(
    d: Seq<u8>,
    lim: int,
    p: int,
    t: CoreTables,
    set: SetModel,
    n: int,
    all: Seq<usize>,
    head: SubframeModel,
)
    ensures
        subframe_scales(d, lim, p, t, set, n, all, false, head) matches Ok((m, q)) ==> q + 16 <= lim
            ==> subframe_scales(d, lim, p, t, set, n, all, true, head) == Ok::<_, CoreError>(
            (m, q + 16),
        ),
        subframe_scales(d, lim, p, t, set, n, all, false, head) matches Ok((m, q)) ==> m.modes
            == head.modes && m.predictors == head.predictors && m.abits == head.abits
            && m.transition == head.transition,
{
}

/// A primary set codes how many subsubframes a subframe has, from one on; other
/// sets follow it.
pub proof fn other_sets_follow_the_primary(m: FrameModel, sf: int, q: int)
    requires
        q + 5 <= m.lim,
    ensures
        m.primary ==> subframe_size(m, sf, q) == Ok::<_, CoreError>(
            ((1 + field(m.d, q, 2)) as usize, q + 5),
        ),
        !m.primary ==> subframe_size(m, sf, q) == Ok::<_, CoreError>((m.layout[sf], q)),
{
}

/// The last four samples of a band are the history of the next frame; a band
/// that carries none is silent.
pub proof fn last_samples_become_history(row: Seq<i32>, npcm: int, i: int)
    requires
        0 <= npcm,
        row.len() == npcm + 4,
        0 <= i < row.len(),
    ensures
        settled_row(row, npcm, true).len() == row.len(),
        settled_row(row, npcm, true).take(4) == row.skip(npcm),
        settled_row(row, npcm, true).skip(4) == row.skip(4),
        settled_row(row, npcm, false)[i] == 0,
{
    assert(settled_row(row, npcm, true).take(4) =~= row.skip(npcm));
    assert(settled_row(row, npcm, true).skip(4) =~= row.skip(4));
}

/// A frame's end touches the rows of the set's channels alone: those of active
/// bands keep their last samples, others are silent.
pub proof fn only_own_rows_are_settled(
    s: Seq<Seq<i32>>,
    set: SetModel,
    all: Seq<usize>,
    base: int,
    n: int,
    npcm: int,
    ch: int,
    band: int,
)
    requires
        0 <= base,
        0 <= n,
        0 <= ch,
        0 <= band < 32,
        32 * ch + band < s.len(),
    ensures
        ch < base || base + n <= ch ==> settled(s, set, all, base, n, npcm)[32 * ch + band]
            == s[32 * ch + band],
        base <= ch < base + n ==> settled(s, set, all, base, n, npcm)[32 * ch + band]
            == settled_row(
            s[32 * ch + band],
            npcm,
            band < active_bands(set, all, ch - base),
        ),
{
    assert((32 * ch + band) / 32 == ch && (32 * ch + band) % 32 == band);
}

/// A channel's active bands are its own and those that it takes from another.
pub proof fn active_bands_are_own_and_joint(set: SetModel, all: Seq<usize>, ch: int)
    ensures
        active_bands(set, all, ch) == set.nsubbands[ch] + joint_bands(
            all,
            set.joint[ch],
            set.nsubbands[ch],
        ),
{
}

/// A subframe moves on by eight blocks for each of its subsubframes, and by the
/// low-frequency samples that go with them, and is noted with their number.
pub proof fn subframes_move_on(m: FrameModel, sf: int, run: Run, q: int)
    ensures
        ({
            let (next, end) = subframe_step(m)(sf, run, q);
            end is Ok ==> ({
                &&& subframe_size(m, sf, q) matches Ok((nssf, a))
                &&& next.pos - run.pos == 8 * nssf
                &&& next.lfe_pos - run.lfe_pos == 2 * m.lfe_rate * nssf
                &&& next.layout.len() == run.layout.len() + 1
                &&& next.layout.last() == nssf
                &&& forall|i: int|
                    0 <= i < run.layout.len() ==> #[trigger] next.layout[i] == run.layout[i]
                &&& next.pos <= m.npcm
            })
        }),
{
}

/// The header of a subframe holds, for all channels in turn, which bands are
/// predicted, then the predictors, the allocations and the transitions.
pub proof fn subframe_headers_are_read_in_order(
    d: Seq<u8>,
    lim: int,
    p: int,
    t: CoreTables,
    set: SetModel,
    n: int,
    all: Seq<usize>,
    nssf: usize,
    crc: bool,
)
    ensures
        subframe_header(d, lim, p, t, set, n, all, nssf, crc) matches Ok((head, q)) ==> ({
            &&& repeat(modes_step(d, lim, set.nsubbands), p, n) matches Ok((modes, a))
            &&& head.modes == modes
            &&& repeat(predictors_step(d, lim, modes), a, n) matches Ok((predictors, b))
            &&& head.predictors == predictors
            &&& repeat(allocs_step(d, lim, t, set.alloc_sel, set.vq_start), b, n) matches Ok((
                abits,
                c,
            ))
            &&& head.abits == abits
            &&& repeat(transitions_step(d, lim, t, set.transition_sel, nssf, abits), c, n)
                matches Ok((transition, e))
            &&& head.transition == transition
        }),
{
}

/// Which bands of a channel are predicted is told by one bit each.
pub proof fn predicted_bands_are_flagged(d: Seq<u8>, lim: int, p: int, counts: Seq<usize>, ch: int)
    requires
        p + counts[ch] <= lim,
    ensures
        modes_step(d, lim, counts)(ch, p) == Ok::<_, CoreError>(
            (Seq::new(counts[ch] as nat, |b: int| flag(d, p + b)), p + counts[ch]),
        ),
{
    let n = counts[ch] as int;
    let places = Seq::new((n + 1) as nat, |i: int| p + i);
    let items = Seq::new(n as nat, |b: int| flag(d, p + b));
    let step = bool_step(d, lim);
    assert forall|i: int| 0 <= i < n implies step(i, #[trigger] places[i]) == Ok::<
        (bool, int),
        CoreError,
    >((items[i], places[i + 1])) by {
        assert(bool_at(d, lim, places[i]) == Ok::<(bool, int), CoreError>(
            (items[i], places[i + 1]),
        ));
    }
    items_are_read_in_turn(step, places, items, n);
    assert(items.take(n) =~= items);
}

/// A channel of an extension was mixed into speakers of the core alone.
pub proof fn mixes_go_into_the_core(d: Seq<u8>, lim: int, p: int, nbits: int, core_mask: u32)
    requires
        p + nbits <= lim,
    ensures
        mix_mask(d, lim, p, nbits, core_mask) is Ok <==> (field(d, p, nbits) as u32) & core_mask
            == field(d, p, nbits) as u32,
        mix_mask(d, lim, p, nbits, core_mask) matches Ok((mask, q)) ==> mask == field(
            d,
            p,
            nbits,
        ) as u32 && q == p + nbits,
{
}

/// A bare set's header is counted from one byte on, is checked, and has no
/// flags.
pub proof fn bare_heads_come_back(d: Seq<u8>, lim: int, p: int)
    ensures
        bare_head(d, lim, p) matches Ok((size, q)) ==> ({
            &&& size == field(d, p, 8) + 1
            &&& p % 8 == 0
            &&& p / 8 + size <= d.len()
            &&& crate::dca::crc::crc_of(d.subrange(p / 8, p / 8 + size)) == 0
            &&& field(d, p + 8, 3) == 0
            &&& q == p + 11
            &&& q <= lim
        }),
{
    lemma_field_range(d, p, 8);
}

/// Numbers are counted from `add` on, in their width.
pub proof fn numbers_come_back(d: Seq<u8>, lim: int, q: int, n: int, add: int)
    requires
        q + n <= lim,
        0 <= n <= 32,
        0 <= add <= 64,
        field(d, q, n) < 0x1_0000,
    ensures
        number_at(d, lim, q, n, add) matches Ok((v, r)) && v - add == field(d, q, n) && r - q == n,
{
    lemma_field_range(d, q, n);
}

/// The bits of some masks are those of the first and of the rest.
pub proof fn bits_of_masks_add_up(masks: Seq<u32>, n: int)
    requires
        0 <= n,
    ensures
        ones_of(masks, n + 1) == ones_of(masks, n) + crate::bits::ones(masks[n]),
        ones_of(masks, 0) == 0,
{
}

} // verus!
