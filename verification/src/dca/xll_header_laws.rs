//! What the header of a lossless channel set holds of what was coded.

use vstd::prelude::*;
use crate::bits::{code_space, field, flag, has_bit, lemma_field_range, ones};
use crate::grammar::{items_are_read_in_turn, lemma_repeat_len, repeat};
use crate::dca::core_decoder_laws::bits_between;
use crate::dca::fixed::products_are_rounded;
use crate::dca::xll_band_laws::folded;
use crate::dca::xll_error::XllError;
use crate::dca::xll_header::{
    bit_positions, ceil_log2, channel_order, channel_set, code_width, decorrelation, downmix_flags,
    downmix_row, downmix_rows, fixed_order, gain_at, identity, is_order, largest, linear,
    lsb_layout, lsb_width, mapped, number_step, pair_coeff, pair_step, prediction, reflection,
    set_body, set_head, set_mapping, unmapped, ChsMappingSyntax, DownmixFlags, SetHead,
    XllFrame, XllTables,
};
use crate::dca::xll_laws::nearest;
use crate::dca::exss::SAMPLING_FREQS;

verus! {

/// The head of a set comes back field by field: the residual flags, one per
/// channel, stand between the channel count and the resolutions.
pub proof fn set_heads_come_back(
    d: Seq<u8>,
    lim: int,
    p: int,
    size: int,
    n: int,
    residual: int,
    pcm: int,
    storage: int,
    rate: int,
)
    requires
        p + 32 + n <= lim,
        field(d, p, 10) == size - 1,
        field(d, p + 10, 4) == n - 1,
        1 <= n <= 8,
        field(d, p + 14, n) == residual,
        field(d, p + 14 + n, 5) == pcm - 1,
        field(d, p + 19 + n, 5) == storage - 1,
        storage == 16 || storage == 20 || storage == 24,
        pcm <= storage,
        field(d, p + 24 + n, 4) == rate,
        SAMPLING_FREQS@[rate] <= 96000,
        field(d, p + 28 + n, 2) == 0,
        field(d, p + 30 + n, 2) == 0,
    ensures
        set_head(d, lim, p) == Ok::<_, XllError>(
            (
                SetHead {
                    header_size: size as usize,
                    nchannels: n as usize,
                    residual_encode: residual as u32,
                    pcm_bit_res: pcm as usize,
                    storage_bit_res: storage as usize,
                    freq: SAMPLING_FREQS@[rate],
                },
                p + 32 + n,
            ),
        ),
{
}

/// Gains are the table's for the low byte, against their sign where the ninth
/// bit is clear; a row with a gain of its own takes each times the inverse, in
/// units of 16 bits.
pub proof fn gains_have_a_sign(d: Seq<u8>, lim: int, q: int, t: XllTables, c: int, up: bool, inverse: i32)
    requires
        q + 9 <= lim,
        0 <= c < 242,
        field(d, q, 9) == c + if up { 256int } else { 0int },
    ensures
        ({
            &&& gain_at(d, lim, q, t, None) matches Ok((g, r))
            &&& r == q + 9
            &&& up ==> g == t.dmix@[c]
            &&& !up ==> g + t.dmix@[c] == 0
        }),
        -0x7fff_0000 * 0x1_0000 <= inverse * t.dmix@[c] < 0x7fff_0000 * 0x1_0000 ==> ({
            &&& gain_at(d, lim, q, t, Some(inverse)) matches Ok((g, r))
            &&& r == q + 9
            &&& up ==> nearest(inverse * t.dmix@[c], 0x1_0000, g as int)
            &&& !up ==> nearest(inverse * t.dmix@[c], 0x1_0000, -(g as int))
        }),
{
    if -0x7fff_0000 * 0x1_0000 <= inverse * t.dmix@[c] < 0x7fff_0000 * 0x1_0000 {
        assert(code_space(16) == 0x1_0000);
        products_are_rounded(inverse as int, t.dmix@[c] as int, 16);
    }
}

/// A row of a later set has its own gain, one of those that have an inverse,
/// and the coefficients behind it; a primary row has coefficients alone.
pub proof fn downmix_rows_have_their_gain(
    d: Seq<u8>,
    lim: int,
    p: int,
    t: XllTables,
    n: int,
    c: int,
    up: bool,
)
    requires
        0 <= n,
        p + 9 <= lim,
        41 <= c < 242,
        field(d, p, 9) == c + if up { 256int } else { 0int },
        t.wf(),
    ensures
        downmix_row(d, lim, p, t, false, n) matches Ok((row, q)) ==> ({
            &&& row.coeff.len() == n
            &&& up ==> row.scale == t.dmix@[c] && row.scale_inv == t.inv_dmix@[c - 41]
            &&& !up ==> row.scale + t.dmix@[c] == 0 && row.scale_inv + t.inv_dmix@[c - 41] == 0
        }),
        downmix_row(d, lim, p, t, true, n) matches Ok((row, q)) ==> row.coeff.len() == n
            && row.scale == 0 && row.scale_inv == 0,
{
    let inv = t.inv_dmix@[c - 41];
    lemma_repeat_len(
        crate::dca::xll_header::gain_step(d, lim, t, Some(inv)),
        p + 9,
        n,
    );
    lemma_repeat_len(crate::dca::xll_header::gain_step(d, lim, t, None), p, n);
}

/// The speakers of a mask are its set bits, lowest first.
pub proof fn speakers_are_the_set_bits(mask: u32, n: int, b: int)
    requires
        0 <= n <= 32,
        0 <= b < n,
    ensures
        bit_positions(mask, n).len() == bits_between(mask, 0, n),
        has_bit(mask, b) ==> bit_positions(mask, n)[bits_between(mask, 0, b)] == b && 0
            <= bits_between(mask, 0, b) < bit_positions(mask, n).len(),
    decreases n,
{
    lemma_positions_len(mask, n);
    lemma_positions_len(mask, n - 1);
    lemma_positions_len(mask, b);
    if b < n - 1 {
        speakers_are_the_set_bits(mask, n - 1, b);
    }
}

proof fn lemma_positions_len(mask: u32, n: int)
    requires
        0 <= n <= 32,
    ensures
        bit_positions(mask, n).len() == bits_between(mask, 0, n),
    decreases n,
{
    if n > 0 {
        lemma_positions_len(mask, n - 1);
    }
}

/// Downmix flags come back: whether there is one, whether it is embedded, and
/// of a primary set its kind.
pub proof fn downmix_flags_come_back(d: Seq<u8>, lim: int, p: int, primary: bool)
    requires
        p + 6 <= lim,
        flag(d, p) == primary,
    ensures
        !flag(d, p + 1) ==> downmix_flags(d, lim, p, primary) == Ok::<_, XllError>(
            (DownmixFlags { primary, present: false, embedded: false, kind: 0 }, p + 2),
        ),
        flag(d, p + 1) && !primary ==> downmix_flags(d, lim, p, primary) == Ok::<_, XllError>(
            (DownmixFlags { primary, present: true, embedded: flag(d, p + 2), kind: 0 }, p + 3),
        ),
        flag(d, p + 1) && primary && field(d, p + 3, 3) < 7 ==> downmix_flags(d, lim, p, primary)
            == Ok::<_, XllError>(
            (
                DownmixFlags {
                    primary,
                    present: true,
                    embedded: flag(d, p + 2),
                    kind: field(d, p + 3, 3) as usize,
                },
                p + 6,
            ),
        ),
        downmix_flags(d, lim, p, !primary) is Err,
{
}

/// A mapped set names as many speakers as it has channels, in the order of the
/// mask's bits.
pub proof fn mapped_sets_name_their_speakers(
    d: Seq<u8>,
    lim: int,
    p: int,
    t: XllTables,
    frame: XllFrame,
    primary: bool,
    hier_ofs: int,
    n: int,
)
    ensures
        mapped(d, lim, p, t, frame, primary, hier_ofs, n) matches Ok((m, q)) ==> ({
            &&& m.primary_chset == primary
            &&& ones(m.ch_mask) == n
            &&& m.ch_remap == bit_positions(m.ch_mask, 32)
            &&& m.ch_mask == field(d, q - frame.ch_mask_nbits, frame.ch_mask_nbits as int) as u32
            &&& flag(d, q - frame.ch_mask_nbits - 1)
            &&& frame.nchsets != 1 ==> m.hier_chset
            &&& downmix_flags(d, lim, p, primary) matches Ok((f, a)) && m.hier_chset == flag(d, a)
                && m.dmix_coeffs_present == f.present && m.dmix_embedded == f.embedded
                && m.dmix_type == f.kind
        }),
{
}

/// A set without a mapping is stereo on the two fronts, unless it may go
/// without speakers.
pub proof fn unmapped_sets_are_stereo(d: Seq<u8>, lim: int, p: int, frame: XllFrame, n: int)
    requires
        p + 1 <= lim,
        !flag(d, p),
        0 <= n <= 8,
    ensures
        n == 2 && frame.nchsets == 1 ==> (unmapped(d, lim, p, frame, false, n) matches Ok((m, q))
            && m.ch_remap == seq![1usize, 2usize] && has_bit(m.ch_mask, 1) && has_bit(m.ch_mask, 2)
            && !has_bit(m.ch_mask, 0) && m.primary_chset && !m.dmix_embedded && q == p + 1),
        n != 2 || frame.nchsets != 1 ==> unmapped(d, lim, p, frame, false, n) is Err,
        unmapped(d, lim, p, frame, true, n) matches Ok((m, q)) && m.ch_mask == 0 && m.ch_remap.len()
            == n && (forall|i: int| 0 <= i < n ==> #[trigger] m.ch_remap[i] == i) && q == p + 1,
{
    assert((6u32 >> 1u32) & 1 == 1 && (6u32 >> 2u32) & 1 == 1 && (6u32 >> 0u32) & 1 == 0)
        by (bit_vector);
}

/// As many bits number the channels as are needed.
pub proof fn channel_numbers_fit(n: int)
    requires
        1 <= n <= 8,
    ensures
        n <= code_space(ceil_log2(n)),
        n > 1 ==> code_space(ceil_log2(n) - 1) < n,
{
}

/// An order of channels comes back: each in as many bits as number them.
pub proof fn orders_come_back(d: Seq<u8>, lim: int, p: int, width: int, n: int, order: Seq<usize>, i: int)
    requires
        0 <= i <= order.len(),
        1 <= width <= 3,
        p + width * order.len() <= lim,
        is_order(order, n),
        forall|k: int|
            0 <= k < order.len() ==> #[trigger] order[k] == field(d, p + width * k, width),
    ensures
        channel_order(d, lim, p, width, n, i) == Ok::<_, XllError>((order.take(i), p + width * i)),
    decreases i,
{
    if i > 0 {
        orders_come_back(d, lim, p, width, n, order, i - 1);
        let before = order.take(i - 1);
        assert(width * ((i - 1) + 1) == width * (i - 1) + width) by (nonlinear_arith);
        let m = order.len() as int;
        assert(width * i <= width * m) by (nonlinear_arith)
            requires
                i <= m,
                width >= 1,
        ;
        assert(order[i - 1] == field(d, p + width * (i - 1), width));
        if before.contains(order[i - 1]) {
            let k = choose|k: int| 0 <= k < before.len() && before[k] == order[i - 1];
            assert(order[k] == order[i - 1]);
        }
        assert(before.push(order[i - 1]) =~= order.take(i));
    } else {
        assert(order.take(0) =~= Seq::<usize>::empty());
        assert(width * 0 == 0);
    }
}

/// A pair's coefficient is none, or a folded number of seven bits.
pub proof fn pair_coefficients_come_back(d: Seq<u8>, lim: int, p: int, v: i32)
    requires
        p + 8 <= lim,
    ensures
        !flag(d, p) ==> pair_coeff(d, lim, p) == Ok::<_, XllError>((0i32, p + 1)),
        flag(d, p) && field(d, p + 1, 7) == folded(v as int) ==> pair_coeff(d, lim, p) == Ok::<
            _,
            XllError,
        >((v, p + 8)),
{
    crate::dca::fixed::folded_numbers_unfold(v as int);
}

/// A set that is not decorrelated, or has one channel, keeps its order and has
/// no coefficients.
pub proof fn plain_sets_keep_their_order(d: Seq<u8>, lim: int, p: int, n: int, i: int)
    requires
        p + 1 <= lim,
        1 <= n <= 8,
        0 <= i < n,
        !flag(d, p) || n == 1,
    ensures
        ({
            &&& decorrelation(d, lim, p, n) matches Ok((m, q))
            &&& m.enabled == flag(d, p)
            &&& m.orig_order.len() == n
            &&& m.orig_order[i] == i
            &&& m.coeff.len() == n / 2
            &&& forall|k: int| 0 <= k < m.coeff.len() ==> #[trigger] m.coeff[k] == 0
            &&& q == p + 1
        }),
{
}

/// A decorrelated set codes its order and a coefficient for each pair.
pub proof fn decorrelated_sets_pair_their_channels(d: Seq<u8>, lim: int, p: int, n: int)
    requires
        2 <= n <= 8,
        flag(d, p),
    ensures
        decorrelation(d, lim, p, n) matches Ok((m, q)) ==> m.enabled && m.coeff.len() == n / 2 && (
        channel_order(d, lim, p + 1, ceil_log2(n), n, n) matches Ok((order, a)) && m.orig_order
            == order && repeat(pair_step(d, lim), a, n / 2) == Ok::<_, XllError>((m.coeff, q))),
{
    match channel_order(d, lim, p + 1, ceil_log2(n), n, n) {
        Ok((order, a)) => {
            lemma_repeat_len(pair_step(d, lim), a, n / 2);
        },
        _ => {},
    }
}

/// The highest order is one of them and none is above it.
pub proof fn the_highest_is_the_largest(v: Seq<usize>, i: int)
    requires
        0 <= i < v.len(),
    ensures
        v[i] <= largest(v),
        exists|k: int| 0 <= k < v.len() && #[trigger] v[k] == largest(v),
    decreases v.len(),
{
    if v.len() > 1 {
        let rest = v.drop_last();
        the_highest_is_the_largest(rest, if i < rest.len() { i } else { 0 });
        let k = choose|k: int| 0 <= k < rest.len() && #[trigger] rest[k] == largest(rest);
        assert(v[k] == rest[k]);
        assert(v[v.len() - 1] == v.last());
        assert(v[k] == largest(v) || v[v.len() - 1] == largest(v));
    } else {
        assert(largest(v.drop_last()) == 0);
        assert(v[0] == v.last());
        assert(v[0] == largest(v));
    }
}

/// Only a channel without an adaptive predictor codes a fixed one, in two bits.
pub proof fn fixed_orders_need_no_adaptive_one(d: Seq<u8>, lim: int, p: int, adaptive: usize)
    requires
        p + 2 <= lim,
    ensures
        adaptive != 0 ==> fixed_order(d, lim, p, adaptive) == Ok::<_, XllError>((0usize, p)),
        adaptive == 0 ==> fixed_order(d, lim, p, adaptive) == Ok::<_, XllError>(
            (field(d, p, 2) as usize, p + 2),
        ),
{
}

/// Reflection coefficients are the table's for a folded number of eight bits,
/// odd about zero.
pub proof fn reflections_are_odd(d: Seq<u8>, lim: int, p: int, t: XllTables, k: int)
    requires
        p + 8 <= lim,
        -127 <= k <= 127,
        field(d, p, 8) == folded(k),
    ensures
        reflection(d, lim, p, t) is Ok,
        reflection(d, lim, p, t)->Ok_0.1 == p + 8,
        k >= 0 ==> reflection(d, lim, p, t)->Ok_0.0 == t.refl_coeff@[k],
        k < 0 ==> reflection(d, lim, p, t)->Ok_0.0 + t.refl_coeff@[-k] == 0,
{
    crate::dca::fixed::folded_numbers_unfold(k);
}

/// The orders of all channels come first, then the fixed orders of those that
/// code one, then each channel's coefficients, as many as its order.
pub proof fn predictors_come_in_order(
    d: Seq<u8>,
    lim: int,
    p: int,
    t: XllTables,
    nsegsamples: int,
    n: int,
    i: int,
)
    requires
        prediction(d, lim, p, t, nsegsamples, n) is Ok,
        0 <= i < n,
    ensures
        ({
            let m = prediction(d, lim, p, t, nsegsamples, n)->Ok_0.0;
            &&& m.adaptive.len() == n
            &&& m.fixed.len() == n
            &&& m.reflection.len() == n
            &&& m.highest == largest(m.adaptive)
            &&& m.highest <= nsegsamples
            &&& m.adaptive[i] == field(d, p + 4 * i, 4)
        }),
{
    lemma_fours(d, lim, p, n);
    let (adaptive, a) = repeat(number_step(d, lim, 4), p, n)->Ok_0;
    assert(adaptive[i] == field(d, p + 4 * i, 4));
    lemma_largest_small(adaptive);
    let fixed = crate::dca::xll_header::fixed_step(d, lim, adaptive);
    lemma_repeat_len(fixed, a, n);
    let (list, b) = repeat(fixed, a, n)->Ok_0;
    lemma_repeat_len(crate::dca::xll_header::reflections_step(d, lim, t, adaptive), b, n);
}

proof fn lemma_largest_small(v: Seq<usize>)
    ensures
        0 <= largest(v) <= usize::MAX,
    decreases v.len(),
{
    if v.len() > 0 {
        lemma_largest_small(v.drop_last());
    }
}

proof fn lemma_fours(d: Seq<u8>, lim: int, p: int, n: int)
    requires
        0 <= n,
    ensures
        repeat(number_step(d, lim, 4), p, n) matches Ok((v, q)) ==> v.len() == n && q == p + 4 * n
            && forall|i: int| 0 <= i < n ==> (#[trigger] v[i]) as int == field(d, p + 4 * i, 4),
    decreases n,
{
    if n > 0 {
        lemma_fours(d, lim, p, n - 1);
        lemma_field_range(d, p + 4 * (n - 1), 4);
    }
}

/// A channel has low bits only in a section, and their width is four bits.
pub proof fn low_widths_need_a_section(d: Seq<u8>, lim: int, p: int, section: u64)
    requires
        p + 4 <= lim,
    ensures
        lsb_width(d, lim, p, section) is Ok <==> section != 0 || field(d, p, 4) == 0,
        lsb_width(d, lim, p, section) matches Ok((w, q)) ==> w == field(d, p, 4) && q == p + 4,
{
    lemma_field_range(d, p, 4);
}

/// A section of low bits under a checksum is two bytes longer than coded; frames
/// without scalable low bits have none.
pub proof fn checked_sections_are_longer(d: Seq<u8>, lim: int, p: int, frame: XllFrame, n: int)
    requires
        0 <= n,
        1 <= frame.seg_size_nbits <= 32,
    ensures
        lsb_layout(d, lim, p, frame, n) matches Ok((m, q)) ==> ({
            let coded = field(d, p, frame.seg_size_nbits as int);
            &&& m.widths.len() == n
            &&& m.adjust.len() == n
            &&& !frame.scalable_lsbs ==> m.section_size == 0 && q == p
            &&& frame.scalable_lsbs && (coded == 0 || frame.band_crc_present <= 1)
                ==> m.section_size == coded
            &&& frame.scalable_lsbs && coded != 0 && frame.band_crc_present > 1 ==> m.section_size
                == coded + 2
        }),
{
    let width = frame.seg_size_nbits as int;
    let coded = field(d, p, width);
    lemma_field_range(d, p, width);
    crate::dca::xll_laws::lemma_code_spaces(32, width);
    let a = code_space(width);
    let b = code_space(32 - width);
    assert(code_space(32) == 0x1_0000_0000);
    assert(b >= 1);
    assert(a <= 0x1_0000_0000) by (nonlinear_arith)
        requires
            a * b == 0x1_0000_0000,
            b >= 1,
            a >= 1,
    ;
    let section = (if coded != 0 && frame.band_crc_present > 1 { coded + 2 } else { coded }) as u64;
    let step = crate::dca::xll_header::lsb_step(d, lim, section);
    lemma_repeat_len(step, p + width, n);
    match repeat(step, p + width, n) {
        Ok((widths, q)) => {
            lemma_repeat_len(number_step(d, lim, 4), q, n);
        },
        _ => {},
    }
}

/// Codes have widths of five bits in sets of more than 16 bits and in frames of
/// more than one set, else of four.
pub proof fn code_widths_follow_the_resolution(storage: int, sets: int)
    ensures
        code_width(storage, sets) == 4 <==> storage <= 16 && sets <= 1,
        code_width(storage, sets) == 5 <==> storage > 16 || sets > 1,
{
}

/// A header ends where its size says, behind everything that it holds; what is
/// left over is counted.
pub proof fn set_headers_end_where_they_say(
    d: Seq<u8>,
    lim: int,
    p: int,
    t: XllTables,
    frame: XllFrame,
    mapping: ChsMappingSyntax,
    hier_ofs: int,
)
    requires
        channel_set(d, lim, p, t, frame, mapping, hier_ofs) is Ok,
        0 <= hier_ofs <= usize::MAX,
    ensures
        ({
            let (m, end) = channel_set(d, lim, p, t, frame, mapping, hier_ofs)->Ok_0;
            &&& set_head(d, lim, p) matches Ok((head, a))
            &&& m.head == head
            &&& end == p + 8 * head.header_size
            &&& m.hier_ofs == hier_ofs
            &&& m.nabits == code_width(head.storage_bit_res as int, frame.nchsets as int)
            &&& set_mapping(
                d,
                lim,
                a,
                t,
                frame,
                mapping,
                hier_ofs,
                head.nchannels as int,
            ) matches Ok((map, b))
            &&& m.mapping == map
            &&& set_body(d, lim, b, t, frame, head.nchannels as int) matches Ok((
                (dec, pred, lsb),
                c,
            ))
            &&& m.decorrelation == dec
            &&& m.prediction == pred
            &&& m.lsb == lsb
            &&& c <= end
        }),
{
    reveal(channel_set);
}

} // verus!
