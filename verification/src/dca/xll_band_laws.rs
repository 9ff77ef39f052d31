//! What the segments of a lossless band hold of the samples that were coded.

use vstd::prelude::*;
use crate::bit_laws::unary_codes_count_zeros;
use crate::bits::{bit_at, code_space, field, flag, lemma_field_range};
use crate::grammar::{items_are_read_in_turn, lemma_repeat_len, repeat};
use crate::dca::fixed::folded_numbers_unfold;
use crate::dca::xll_band::{
    channel_samples, code_kind, code_params, coded_width, extended, hybrid_step, linear_step,
    low_section, lows_step, place_step, rice, rice_step, second_part, seg_coding, segment,
    BandModel, CodeParams, SegModel, MAX_UNARY,
};
use crate::dca::xll_error::XllError;
use crate::dca::xll_header::{linear, XllChSetModel, XllFrame};

verus! {

/// Numbers by size, those at or above zero in even places.
pub open spec fn folded(v: int) -> int {
    if v >= 0 { 2 * v } else { -2 * v - 1 }
}

/// Bits `p..end` hold the Rice code of `v`: as many zeros as the folded number
/// has units of `k` bits, a one, and its low `k` bits.
pub open spec fn rice_laid(d: Seq<u8>, lim: int, p: int, k: int, v: i32, end: int) -> bool {
    let units = folded(v as int) / code_space(k);
    &&& units < 0x10_0000
    &&& forall|j: int| p <= j < p + units ==> #[trigger] bit_at(d, j) == 0
    &&& bit_at(d, p + units) == 1
    &&& field(d, p + units + 1, k) == folded(v as int) % code_space(k)
    &&& end == p + units + 1 + k
    &&& end <= lim
}

/// Bits `p..end` hold `v` in `n` bits, folded; no bits hold zero.
pub open spec fn plain_laid(d: Seq<u8>, lim: int, p: int, n: int, v: i32, end: int) -> bool {
    &&& end == p + n
    &&& n == 0 ==> v == 0
    &&& n > 0 ==> field(d, p, n) == folded(v as int)
    &&& n > 0 ==> end <= lim
}

/// A sample comes back from its Rice code.
pub proof fn rice_codes_come_back(d: Seq<u8>, lim: int, p: int, k: int, v: i32, end: int)
    requires
        0 <= k <= 31,
        rice_laid(d, lim, p, k, v, end),
    ensures
        rice(d, lim, p, k) == Ok::<_, XllError>((v, end)),
{
    let f = folded(v as int);
    let s = code_space(k);
    let units = f / s;
    vstd::arithmetic::div_mod::lemma_fundamental_div_mod(f, s);
    assert(s >= 1);
    assert(units >= 0) by (nonlinear_arith)
        requires
            units == f / s,
            f >= 0,
            s >= 1,
    ;
    assert(s * units == units * s) by (nonlinear_arith);
    if k == 0 {
        assert(s == 1);
        assert(field(d, p + units + 1, 0) == 0);
    }
    unary_codes_count_zeros(d, lim, p, MAX_UNARY as int, units);
    folded_numbers_unfold(v as int);
}

/// A sample comes back from its plain code.
pub proof fn plain_codes_come_back(d: Seq<u8>, lim: int, p: int, n: int, v: i32, end: int)
    requires
        0 <= n <= 32,
        plain_laid(d, lim, p, n, v, end),
    ensures
        linear(d, lim, p, n) == Ok::<_, XllError>((v, end)),
{
    folded_numbers_unfold(v as int);
}

/// No plain width is one bit, others come one less; Rice widths come as they
/// are.
pub proof fn widths_skip_one(code: int)
    requires
        0 <= code,
    ensures
        coded_width(code, true) == code,
        coded_width(0, false) == 0,
        coded_width(code, false) != 1,
        code > 0 ==> coded_width(code, false) - 1 == code,
{
}

/// Bits `p..end` hold `v` in the code of width `w`.
#[verifier::opaque]
pub open spec fn sample_laid(
    d: Seq<u8>,
    lim: int,
    rice: bool,
    w: int,
    p: int,
    v: i32,
    end: int,
) -> bool {
    if rice { rice_laid(d, lim, p, w, v, end) } else { plain_laid(d, lim, p, w, v, end) }
}

/// Samples, each laid down in its code from place `i` to place `i + 1`, all
/// with one width.
pub open spec fn run_laid(
    d: Seq<u8>,
    lim: int,
    rice: bool,
    w: int,
    x: Seq<i32>,
    places: Seq<int>,
) -> bool {
    &&& places.len() == x.len() + 1
    &&& forall|i: int|
        0 <= i < x.len() ==> sample_laid(d, lim, rice, w, #[trigger] places[i], x[i], places[i + 1])
}

proof fn lemma_rice_run(d: Seq<u8>, lim: int, w: int, x: Seq<i32>, places: Seq<int>)
    requires
        0 <= w <= 31,
        run_laid(d, lim, true, w, x, places),
    ensures
        repeat(rice_step(d, lim, w), places[0], x.len() as int) == Ok::<_, XllError>(
            (x, places[x.len() as int]),
        ),
{
    let step = rice_step(d, lim, w);
    assert forall|i: int| 0 <= i < x.len() implies step(i, #[trigger] places[i]) == Ok::<
        (i32, int),
        XllError,
    >((x[i], places[i + 1])) by {
        assert(sample_laid(d, lim, true, w, places[i], x[i], places[i + 1]));
        assert(rice_laid(d, lim, places[i], w, x[i], places[i + 1])) by {
            reveal(sample_laid);
        }
        rice_codes_come_back(d, lim, places[i], w, x[i], places[i + 1]);
    }
    items_are_read_in_turn(step, places, x, x.len() as int);
    assert(x.take(x.len() as int) =~= x);
}

proof fn lemma_plain_run(d: Seq<u8>, lim: int, w: int, x: Seq<i32>, places: Seq<int>)
    requires
        0 <= w <= 32,
        run_laid(d, lim, false, w, x, places),
    ensures
        repeat(linear_step(d, lim, w), places[0], x.len() as int) == Ok::<_, XllError>(
            (x, places[x.len() as int]),
        ),
{
    let step = linear_step(d, lim, w);
    assert forall|i: int| 0 <= i < x.len() implies step(i, #[trigger] places[i]) == Ok::<
        (i32, int),
        XllError,
    >((x[i], places[i + 1])) by {
        assert(sample_laid(d, lim, false, w, places[i], x[i], places[i + 1]));
        assert(plain_laid(d, lim, places[i], w, x[i], places[i + 1])) by {
            reveal(sample_laid);
        }
        plain_codes_come_back(d, lim, places[i], w, x[i], places[i + 1]);
    }
    items_are_read_in_turn(step, places, x, x.len() as int);
    assert(x.take(x.len() as int) =~= x);
}

/// The samples of a channel come back from their codes: the first with the
/// first width, the others, which follow them, with the second.
pub proof fn coded_channels_come_back(
    d: Seq<u8>,
    lim: int,
    c: CodeParams,
    early: Seq<i32>,
    late: Seq<i32>,
    places: Seq<int>,
    later: Seq<int>,
    width: int,
)
    requires
        c.part_a <= 31,
        c.part_b <= 31,
        c.hybrid == 0,
        c.samples_a == early.len(),
        run_laid(d, lim, c.rice, c.part_a as int, early, places),
        run_laid(d, lim, c.rice, c.part_b as int, late, later),
        later[0] == places[early.len() as int],
    ensures
        channel_samples(d, lim, places[0], c, (early.len() + late.len()) as int, width) == Ok::<_, XllError>(
            (early + late, later[late.len() as int]),
        ),
{
    if c.rice {
        lemma_rice_run(d, lim, c.part_a as int, early, places);
        lemma_rice_run(d, lim, c.part_b as int, late, later);
    } else {
        lemma_plain_run(d, lim, c.part_a as int, early, places);
        lemma_plain_run(d, lim, c.part_b as int, late, later);
    }
}

proof fn lemma_names(
    d: Seq<u8>,
    lim: int,
    p: int,
    width: int,
    named: Seq<usize>,
    nb: int,
)
    requires
        1 <= width <= 31,
        p + width * named.len() <= lim,
        forall|j: int|
            0 <= j < named.len() ==> #[trigger] named[j] == field(d, p + width * j, width),
        forall|j: int| 0 <= j < named.len() ==> #[trigger] named[j] < nb,
    ensures
        repeat(place_step(d, lim, width, nb), p, named.len() as int) == Ok::<_, XllError>(
            (named, p + width * named.len()),
        ),
{
    let n = named.len() as int;
    let names = place_step(d, lim, width, nb);
    let spots = Seq::new((n + 1) as nat, |j: int| p + width * j);
    assert(width * 0 == 0);
    assert forall|j: int| 0 <= j < n implies names(j, #[trigger] spots[j]) == Ok::<
        (usize, int),
        XllError,
    >((named[j], spots[j + 1])) by {
        assert(width * (j + 1) == width * j + width) by (nonlinear_arith);
        assert(width * (j + 1) <= width * n) by (nonlinear_arith)
            requires
                j + 1 <= n,
                width >= 1,
        ;
        assert(named[j] == field(d, p + width * j, width));
        assert(named[j] < nb);
    }
    items_are_read_in_turn(names, spots, named, n);
    assert(named.take(n) =~= named);
}

/// The second part of a hybrid channel comes back: a count and as many names of
/// samples, which are plain and wide; all others are Rice codes.
pub proof fn hybrid_runs_come_back(
    d: Seq<u8>,
    lim: int,
    p: int,
    c: CodeParams,
    width: int,
    named: Seq<usize>,
    x: Seq<i32>,
    places: Seq<int>,
)
    requires
        1 <= width <= 31,
        1 <= c.hybrid <= 32,
        c.part_b <= 31,
        p + width + width * named.len() <= lim,
        field(d, p, width) == named.len(),
        forall|j: int|
            0 <= j < named.len() ==> #[trigger] named[j] == field(d, p + width + width * j, width),
        forall|j: int| 0 <= j < named.len() ==> #[trigger] named[j] < x.len(),
        places.len() == x.len() + 1,
        places[0] == p + width + width * named.len(),
        forall|i: int|
            0 <= i < x.len() ==> sample_laid(
                d,
                lim,
                !named.contains(i as usize),
                (if named.contains(i as usize) { c.hybrid } else { c.part_b }) as int,
                #[trigger] places[i],
                x[i],
                places[i + 1],
            ),
    ensures
        second_part(d, lim, p, c, x.len() as int, width) == Ok::<_, XllError>(
            (x, places[x.len() as int]),
        ),
{
    let n = named.len() as int;
    lemma_names(d, lim, p + width, width, named, x.len() as int);
    assert(width * n >= 0) by (nonlinear_arith)
        requires
            width >= 1,
            n >= 0,
    ;
    lemma_hybrid_samples(d, lim, c, named, x, places);
}

proof fn lemma_hybrid_samples(
    d: Seq<u8>,
    lim: int,
    c: CodeParams,
    named: Seq<usize>,
    x: Seq<i32>,
    places: Seq<int>,
)
    requires
        1 <= c.hybrid <= 32,
        c.part_b <= 31,
        places.len() == x.len() + 1,
        forall|i: int|
            0 <= i < x.len() ==> sample_laid(
                d,
                lim,
                !named.contains(i as usize),
                (if named.contains(i as usize) { c.hybrid } else { c.part_b }) as int,
                #[trigger] places[i],
                x[i],
                places[i + 1],
            ),
    ensures
        repeat(
            hybrid_step(d, lim, named, c.hybrid as int, c.part_b as int),
            places[0],
            x.len() as int,
        ) == Ok::<_, XllError>((x, places[x.len() as int])),
{
    let each = hybrid_step(d, lim, named, c.hybrid as int, c.part_b as int);
    assert forall|i: int| 0 <= i < x.len() implies each(i, #[trigger] places[i]) == Ok::<
        (i32, int),
        XllError,
    >((x[i], places[i + 1])) by {
        if named.contains(i as usize) {
            assert(plain_laid(d, lim, places[i], c.hybrid as int, x[i], places[i + 1])) by {
                reveal(sample_laid);
            }
            plain_codes_come_back(d, lim, places[i], c.hybrid as int, x[i], places[i + 1]);
        } else {
            assert(rice_laid(d, lim, places[i], c.part_b as int, x[i], places[i + 1])) by {
                reveal(sample_laid);
            }
            rice_codes_come_back(d, lim, places[i], c.part_b as int, x[i], places[i + 1]);
        }
    }
    items_are_read_in_turn(each, places, x, x.len() as int);
    assert(x.take(x.len() as int) =~= x);
}

/// A Rice flag; behind it, unless the channels share their coding, a flag and a
/// width of one or more for samples that stand out.
pub proof fn code_kinds_come_back(d: Seq<u8>, lim: int, p: int, common: bool, nabits: int)
    requires
        1 <= nabits <= 5,
        p + 2 + nabits <= lim,
    ensures
        !flag(d, p) ==> code_kind(d, lim, p, common, nabits) == Ok::<_, XllError>(
            ((false, 0usize), p + 1),
        ),
        flag(d, p) && common ==> code_kind(d, lim, p, common, nabits) == Ok::<_, XllError>(
            ((true, 0usize), p + 1),
        ),
        flag(d, p) && !common && !flag(d, p + 1) ==> code_kind(d, lim, p, common, nabits) == Ok::<
            _,
            XllError,
        >(((true, 0usize), p + 2)),
        flag(d, p) && !common && flag(d, p + 1) ==> code_kind(d, lim, p, common, nabits) == Ok::<
            _,
            XllError,
        >(((true, (1 + field(d, p + 2, nabits)) as usize), p + 2 + nabits)),
{
}

/// The first segment codes two widths, the first for as many samples as the
/// predictor looks back; later segments code one.
pub proof fn first_segments_have_two_widths(
    d: Seq<u8>,
    lim: int,
    p: int,
    kind: (bool, usize),
    samples: usize,
    nabits: int,
)
    requires
        1 <= nabits <= 5,
        p + 2 * nabits <= lim,
    ensures
        ({
            &&& code_params(d, lim, p, kind, samples, true, nabits) matches Ok((c, q))
            &&& q == p + 2 * nabits
            &&& c.rice == kind.0
            &&& c.hybrid == kind.1
            &&& c.samples_a == samples
            &&& c.part_a == coded_width(field(d, p, nabits), kind.0)
            &&& c.part_b == coded_width(field(d, p + nabits, nabits), kind.0)
        }),
        ({
            &&& code_params(d, lim, p, kind, samples, false, nabits) matches Ok((c, q))
            &&& q == p + nabits
            &&& c.rice == kind.0
            &&& c.hybrid == kind.1
            &&& c.samples_a == 0
            &&& c.part_b == coded_width(field(d, p, nabits), kind.0)
        }),
{
    lemma_field_range(d, p, nabits);
    lemma_field_range(d, p + nabits, nabits);
}

/// A flagged segment is coded as the one before it; the first never is.
pub proof fn flagged_segments_keep_their_coding(
    d: Seq<u8>,
    lim: int,
    p: int,
    set: XllChSetModel,
    seg: int,
    kept: SegModel,
    other: SegModel,
)
    requires
        0 <= seg,
        p + 1 <= lim,
    ensures
        seg > 0 && flag(d, p) ==> seg_coding(d, lim, p, set, seg, kept) == Ok::<_, XllError>(
            (kept, p + 1),
        ),
        seg == 0 || !flag(d, p) ==> seg_coding(d, lim, p, set, seg, kept) == seg_coding(
            d,
            lim,
            p,
            set,
            seg,
            other,
        ),
        seg_coding(d, lim, p, set, 0, kept) matches Ok((c, q)) ==> c.common == flag(d, p)
            && c.params.len() == if flag(d, p) { 1 } else { set.head.nchannels as int },
        seg > 0 && !flag(d, p) ==> (seg_coding(d, lim, p, set, seg, kept) matches Ok((c, q))
            ==> c.common == flag(d, p + 1) && c.params.len() == if flag(d, p + 1) {
            1
        } else {
            set.head.nchannels as int
        }),
{
    lemma_new(d, lim, p, set, true);
    lemma_new(d, lim, p + 1, set, false);
}

proof fn lemma_new(d: Seq<u8>, lim: int, p: int, set: XllChSetModel, first: bool)
    ensures
        crate::dca::xll_band::new_coding(d, lim, p, set, first) matches Ok((c, q)) ==> c.common
            == flag(d, p) && c.params.len() == if flag(d, p) {
            1
        } else {
            set.head.nchannels as int
        },
{
    let common = flag(d, p);
    let k = if common { 1 } else { set.head.nchannels as int };
    let nabits = set.nabits as int;
    match repeat(crate::dca::xll_band::kind_step(d, lim, common, nabits), p + 1, k) {
        Ok((kinds, q)) => {
            lemma_repeat_len(
                crate::dca::xll_band::params_step(
                    d,
                    lim,
                    kinds,
                    crate::dca::xll_band::first_parts(set, common),
                    first,
                    nabits,
                ),
                q,
                k,
            );
        },
        _ => {},
    }
}

/// Low bits stand at the end of the band's data, as many bytes before it as the
/// set says; a set without any leaves the place where it is.
pub proof fn low_bits_stand_at_the_end(
    d: Seq<u8>,
    lim: int,
    p: int,
    set: XllChSetModel,
    nseg: int,
    end: int,
    other: int,
)
    requires
        end <= lim,
    ensures
        set.lsb.section_size == 0 ==> low_section(d, lim, p, set, nseg, end) is Ok && low_section(
            d,
            lim,
            p,
            set,
            nseg,
            end,
        )->Ok_0.1 == p,
        0 < set.lsb.section_size && 8 * set.lsb.section_size <= end ==> low_section(
            d,
            lim,
            p,
            set,
            nseg,
            end,
        ) == repeat(
            lows_step(d, lim, set.lsb.widths, nseg),
            end - 8 * set.lsb.section_size,
            set.lsb.widths.len() as int,
        ),
        8 * set.lsb.section_size > end ==> low_section(d, lim, p, set, nseg, end) is Err
            || set.lsb.section_size == 0,
{
}

/// The low bits of a channel are plain numbers of its width, one per sample.
pub proof fn low_bits_come_back(
    d: Seq<u8>,
    lim: int,
    p: int,
    widths: Seq<usize>,
    nseg: int,
    ch: int,
    x: Seq<i32>,
)
    requires
        0 <= ch < widths.len(),
        1 <= widths[ch] <= 15,
        x.len() == nseg,
        p + widths[ch] * nseg <= lim,
        forall|i: int|
            0 <= i < nseg ==> #[trigger] x[i] == field(d, p + widths[ch] * i, widths[ch] as int),
    ensures
        (lows_step(d, lim, widths, nseg))(ch, p) == Ok::<_, XllError>(
            (x, p + widths[ch] * nseg),
        ),
{
    let w = widths[ch] as int;
    let step = crate::dca::xll_band::low_step(d, lim, w);
    let spots = Seq::new((nseg + 1) as nat, |j: int| p + w * j);
    assert(w * 0 == 0);
    assert forall|j: int| 0 <= j < nseg implies step(j, #[trigger] spots[j]) == Ok::<
        (i32, int),
        XllError,
    >((x[j], spots[j + 1])) by {
        assert(w * (j + 1) == w * j + w) by (nonlinear_arith);
        assert(w * (j + 1) <= w * nseg) by (nonlinear_arith)
            requires
                j + 1 <= nseg,
                w >= 1,
        ;
        assert(x[j] == field(d, p + widths[ch] * j, w));
    }
    items_are_read_in_turn(step, spots, x, nseg);
    assert(x.take(nseg) =~= x);
}

/// A segment's samples follow those of the segments before, channel by channel.
pub proof fn segments_follow_one_another(
    d: Seq<u8>,
    lim: int,
    p: int,
    set: XllChSetModel,
    frame: XllFrame,
    seg: int,
    end: int,
    band: BandModel,
    ch: int,
)
    requires
        extended(d, lim, p, set, frame, seg, end, band) is Ok,
        0 <= ch < band.msb.len() == band.lsb.len(),
    ensures
        ({
            let out = extended(d, lim, p, set, frame, seg, end, band)->Ok_0.0;
            &&& segment(d, lim, p, set, frame, seg, end, band.coding) matches Ok((s, q))
            &&& out.coding == s.coding
            &&& out.msb[ch].take(band.msb[ch].len() as int) == band.msb[ch]
            &&& out.msb[ch].skip(band.msb[ch].len() as int) == s.msb[ch]
            &&& out.lsb[ch].take(band.lsb[ch].len() as int) == band.lsb[ch]
            &&& out.lsb[ch].skip(band.lsb[ch].len() as int) == s.lsb[ch]
        }),
{
    reveal(extended);
    let out = extended(d, lim, p, set, frame, seg, end, band)->Ok_0.0;
    let s = segment(d, lim, p, set, frame, seg, end, band.coding)->Ok_0.0;
    assert(out.msb[ch].take(band.msb[ch].len() as int) =~= band.msb[ch]);
    assert(out.msb[ch].skip(band.msb[ch].len() as int) =~= s.msb[ch]);
    assert(out.lsb[ch].take(band.lsb[ch].len() as int) =~= band.lsb[ch]);
    assert(out.lsb[ch].skip(band.lsb[ch].len() as int) =~= s.lsb[ch]);
}

} // verus!
