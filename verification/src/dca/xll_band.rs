//! Entropy-coded samples of the lossless layer.

use vstd::prelude::*;
use crate::bits::{code_space, field, flag, power_of_two, unary, BitReader};
use crate::grammar::{parsed, parsed_view, repeat, rows};
use super::fixed::{unfold, unfolded};
use super::xll_error::XllError;
use super::xll_header::{
    get_linear, lemma_repeat_err_of, linear, rb, rb1, short, XllChSet, XllChSetModel, XllFrame,
};

verus! {

/// Zeros a Rice code may start with.
pub const MAX_UNARY: usize = 0x10_0000;

/// A Rice code with `k` low bits.
pub open spec fn rice(d: Seq<u8>, lim: int, p: int, k: int) -> Result<(i32, int), XllError> {
    let (q, a) = unary(d, lim, p, MAX_UNARY as int);
    if k > 0 && a + k > lim {
        short()
    } else {
        Ok((unfolded((q * code_space(k) + field(d, a, k)) % 0x1_0000_0000) as i32, a + k))
    }
}

pub fn get_rice(gb: &mut BitReader<'_>, k: usize) -> (r: Result<i32, XllError>)
    requires
        old(gb).wf(),
        k <= 31,
    ensures
        final(gb).wf(),
        final(gb).same_source(old(gb)),
        parsed(
            r,
            rice(old(gb).data(), old(gb).limit(), old(gb).pos(), k as int),
            final(gb).pos(),
        ),
        old(gb).pos() <= final(gb).pos(),
{
    let q: usize = gb.get_unary(MAX_UNARY);
    let low: u32 = if k > 0 { rb(gb, k)? } else { 0 };
    let scale: i64 = power_of_two(k as u32);
    proof {
        assert(0 <= q * scale <= 0x10_0000 * 0x8000_0000) by (nonlinear_arith)
            requires
                0 <= q <= 0x10_0000,
                0 <= scale <= 0x8000_0000,
        ;
    }
    let v: u64 = (q as u64 * scale as u64 + low as u64) % 0x1_0000_0000;
    Ok(unfold(v as u32))
}

pub open spec fn rice_step(d: Seq<u8>, lim: int, k: int) -> spec_fn(int, int) -> Result<
    (i32, int),
    XllError,
> {
    |i: int, q: int| rice(d, lim, q, k)
}

pub open spec fn linear_step(d: Seq<u8>, lim: int, n: int) -> spec_fn(int, int) -> Result<
    (i32, int),
    XllError,
> {
    |i: int, q: int| linear(d, lim, q, n)
}

fn read_linear(gb: &mut BitReader<'_>, width: usize, n: usize) -> (r: Result<Vec<i32>, XllError>)
    requires
        old(gb).wf(),
        width <= 32,
    ensures
        final(gb).wf(),
        final(gb).same_source(old(gb)),
        old(gb).pos() <= final(gb).pos(),
        match (r, repeat(linear_step(old(gb).data(), old(gb).limit(), width as int), old(gb).pos(), n as int)) {
            (Ok(v), Ok((want, q))) => v@ == want && v@.len() == n && final(gb).pos() == q,
            (Err(e), Err(f)) => e == f,
            _ => false,
        },
{
    let ghost step = linear_step(gb.data(), gb.limit(), width as int);
    let ghost p = gb.pos();
    let mut items: Vec<i32> = Vec::new();
    while items.len() < n
        invariant
            gb.wf(),
            gb.same_source(old(gb)),
            old(gb).pos() <= gb.pos(),
            p == old(gb).pos(),
            step == linear_step(gb.data(), gb.limit(), width as int),
            items@.len() <= n,
            repeat(step, p, items@.len() as int) == Ok::<_, XllError>((items@, gb.pos())),
        width <= 32,
        decreases n - items.len(),
    {
        let ghost before = items@;
        proof {
            lemma_repeat_err_of(step, p, items@.len() as int, n as int);
        }
        let item = get_linear(gb, width)?;
        items.push(item);
        assert(items@ =~= before.push(item));
    }
    Ok(items)
}

fn read_rice(gb: &mut BitReader<'_>, k: usize, n: usize) -> (r: Result<Vec<i32>, XllError>)
    requires
        old(gb).wf(),
        k <= 31,
    ensures
        final(gb).wf(),
        final(gb).same_source(old(gb)),
        old(gb).pos() <= final(gb).pos(),
        match (r, repeat(rice_step(old(gb).data(), old(gb).limit(), k as int), old(gb).pos(), n as int)) {
            (Ok(v), Ok((want, q))) => v@ == want && v@.len() == n && final(gb).pos() == q,
            (Err(e), Err(f)) => e == f,
            _ => false,
        },
{
    let ghost step = rice_step(gb.data(), gb.limit(), k as int);
    let ghost p = gb.pos();
    let mut items: Vec<i32> = Vec::new();
    while items.len() < n
        invariant
            gb.wf(),
            gb.same_source(old(gb)),
            old(gb).pos() <= gb.pos(),
            p == old(gb).pos(),
            step == rice_step(gb.data(), gb.limit(), k as int),
            items@.len() <= n,
            repeat(step, p, items@.len() as int) == Ok::<_, XllError>((items@, gb.pos())),
        k <= 31,
        decreases n - items.len(),
    {
        let ghost before = items@;
        proof {
            lemma_repeat_err_of(step, p, items@.len() as int, n as int);
        }
        let item = get_rice(gb, k)?;
        items.push(item);
        assert(items@ =~= before.push(item));
    }
    Ok(items)
}

/// How one channel's samples are coded in a segment.
#[derive(Clone, Copy, Debug, PartialEq, Eq)]
pub struct CodeParams {
    pub rice: bool,
    /// Width of the samples that stand out of a Rice-coded run; 0 for none.
    pub hybrid: usize,
    pub part_a: usize,
    /// Samples coded with the first width.
    pub samples_a: usize,
    pub part_b: usize,
}

pub open spec fn params_wf(v: CodeParams) -> bool {
    &&& v.hybrid <= 32
    &&& v.part_a <= 32
    &&& v.part_b <= 32
    &&& v.rice ==> v.part_a <= 31 && v.part_b <= 31
}

/// Coding parameters of a set: one entry for all channels, or one each.
#[derive(Clone, Debug)]
pub struct SegCoding {
    pub common: bool,
    pub params: Vec<CodeParams>,
}

pub ghost struct SegModel {
    pub common: bool,
    pub params: Seq<CodeParams>,
}

impl View for SegCoding {
    type V = SegModel;

    open spec fn view(&self) -> SegModel {
        SegModel { common: self.common, params: self.params@ }
    }
}

impl SegCoding {
    /// Every channel has its parameters, with a first part inside the segment.
    pub open spec fn wf(&self, n: int, nseg: int) -> bool {
        &&& self.params@.len() == if self.common { 1 } else { n }
        &&& forall|i: int|
            0 <= i < self.params@.len() ==> params_wf(#[trigger] self.params@[i])
                && self.params@[i].samples_a <= nseg
    }
}

/// The flag of a Rice code, and the width of its outstanding samples.
pub open spec fn code_kind(d: Seq<u8>, lim: int, p: int, common: bool, nabits: int) -> Result<
    ((bool, usize), int),
    XllError,
> {
    if p + 1 > lim {
        short()
    } else if common || !flag(d, p) {
        Ok(((flag(d, p), 0usize), p + 1))
    } else if p + 2 > lim {
        short()
    } else if !flag(d, p + 1) {
        Ok(((true, 0usize), p + 2))
    } else if p + 2 + nabits > lim {
        short()
    } else {
        Ok(((true, (field(d, p + 2, nabits) + 1) as usize), p + 2 + nabits))
    }
}

pub open spec fn kind_step(d: Seq<u8>, lim: int, common: bool, nabits: int) -> spec_fn(int, int) -> Result<
    ((bool, usize), int),
    XllError,
> {
    |i: int, q: int| code_kind(d, lim, q, common, nabits)
}

fn read_code_kind(gb: &mut BitReader<'_>, common: bool, nabits: usize) -> (r: Result<(bool, usize), XllError>)
    requires
        old(gb).wf(),
        4 <= nabits <= 5,
    ensures
        final(gb).wf(),
        final(gb).same_source(old(gb)),
        parsed(
            r,
            code_kind(old(gb).data(), old(gb).limit(), old(gb).pos(), common, nabits as int),
            final(gb).pos(),
        ),
        old(gb).pos() <= final(gb).pos(),
        r matches Ok(v) ==> v.1 <= 32,
{
    let rice: bool = rb1(gb)?;
    if common || !rice {
        return Ok((rice, 0));
    }
    if !rb1(gb)? {
        return Ok((true, 0));
    }
    Ok((true, rb(gb, nabits)? as usize + 1))
}

fn read_code_kinds(gb: &mut BitReader<'_>, common: bool, nabits: usize, n: usize) -> (r: Result<Vec<(bool, usize)>, XllError>)
    requires
        old(gb).wf(),
        4 <= nabits <= 5,
    ensures
        final(gb).wf(),
        final(gb).same_source(old(gb)),
        old(gb).pos() <= final(gb).pos(),
        match (r, repeat(kind_step(old(gb).data(), old(gb).limit(), common, nabits as int), old(gb).pos(), n as int)) {
            (Ok(v), Ok((want, q))) => v@ == want && v@.len() == n && final(gb).pos() == q,
            (Err(e), Err(f)) => e == f,
            _ => false,
        },
        r matches Ok(v) ==> forall|i: int| 0 <= i < v@.len() ==> (#[trigger] v@[i]).1 <= 32,
{
    let ghost step = kind_step(gb.data(), gb.limit(), common, nabits as int);
    let ghost p = gb.pos();
    let mut items: Vec<(bool, usize)> = Vec::new();
    while items.len() < n
        invariant
            gb.wf(),
            gb.same_source(old(gb)),
            old(gb).pos() <= gb.pos(),
            p == old(gb).pos(),
            step == kind_step(gb.data(), gb.limit(), common, nabits as int),
            items@.len() <= n,
            repeat(step, p, items@.len() as int) == Ok::<_, XllError>((items@, gb.pos())),
        4 <= nabits <= 5,
            forall|i: int| 0 <= i < items@.len() ==> (#[trigger] items@[i]).1 <= 32,
        decreases n - items.len(),
    {
        let ghost before = items@;
        proof {
            lemma_repeat_err_of(step, p, items@.len() as int, n as int);
        }
        let item = read_code_kind(gb, common, nabits)?;
        items.push(item);
        assert(items@ =~= before.push(item));
    }
    Ok(items)
}

/// The width of a code: a plain width of one bit or more is coded one less.
pub open spec fn coded_width(code: int, rice: bool) -> int {
    if !rice && code != 0 { code + 1 } else { code }
}

/// The widths of one entry; the first part is there only in segment 0.
pub open spec fn code_params(
    d: Seq<u8>,
    lim: int,
    p: int,
    kind: (bool, usize),
    samples: usize,
    first: bool,
    nabits: int,
) -> Result<(CodeParams, int), XllError> {
    let q = if first { p + nabits } else { p };
    if q + nabits > lim {
        short()
    } else {
        Ok(
            (
                CodeParams {
                    rice: kind.0,
                    hybrid: kind.1,
                    part_a: if first {
                        coded_width(field(d, p, nabits), kind.0) as usize
                    } else {
                        0
                    },
                    samples_a: if first { samples } else { 0 },
                    part_b: coded_width(field(d, q, nabits), kind.0) as usize,
                },
                q + nabits,
            ),
        )
    }
}

pub open spec fn params_step(
    d: Seq<u8>,
    lim: int,
    kinds: Seq<(bool, usize)>,
    samples: Seq<usize>,
    first: bool,
    nabits: int,
) -> spec_fn(int, int) -> Result<(CodeParams, int), XllError> {
    |i: int, q: int| code_params(d, lim, q, kinds[i], samples[i], first, nabits)
}

fn read_code_params(gb: &mut BitReader<'_>, kind: (bool, usize), samples: usize, first: bool, nabits: usize) -> (r: Result<CodeParams, XllError>)
    requires
        old(gb).wf(),
        4 <= nabits <= 5,
        kind.1 <= 32,
    ensures
        final(gb).wf(),
        final(gb).same_source(old(gb)),
        parsed(
            r,
            code_params(old(gb).data(), old(gb).limit(), old(gb).pos(), kind, samples, first, nabits as int),
            final(gb).pos(),
        ),
        old(gb).pos() <= final(gb).pos(),
        r matches Ok(v) ==> params_wf(v) && v.samples_a <= samples,
{
    let (rice, hybrid): (bool, usize) = kind;
    let mut part_a: usize = 0;
    if first {
        part_a = rb(gb, nabits)? as usize;
        if !rice && part_a != 0 {
            part_a = part_a + 1;
        }
    }
    let mut part_b: usize = rb(gb, nabits)? as usize;
    if !rice && part_b != 0 {
        part_b = part_b + 1;
    }
    Ok(CodeParams { rice, hybrid, part_a, samples_a: if first { samples } else { 0 }, part_b })
}

fn read_all_params(gb: &mut BitReader<'_>, kinds: &Vec<(bool, usize)>, samples: &Vec<usize>, first: bool, nabits: usize, nseg: usize) -> (r: Result<Vec<CodeParams>, XllError>)
    requires
        old(gb).wf(),
        4 <= nabits <= 5,
        samples@.len() == kinds@.len(),
        forall|i: int| 0 <= i < kinds@.len() ==> (#[trigger] kinds@[i]).1 <= 32,
        forall|i: int| 0 <= i < samples@.len() ==> #[trigger] samples@[i] <= nseg,
    ensures
        final(gb).wf(),
        final(gb).same_source(old(gb)),
        old(gb).pos() <= final(gb).pos(),
        match (r, repeat(params_step(old(gb).data(), old(gb).limit(), kinds@, samples@, first, nabits as int), old(gb).pos(), kinds.len() as int)) {
            (Ok(v), Ok((want, q))) => v@ == want && v@.len() == kinds.len() && final(gb).pos() == q,
            (Err(e), Err(f)) => e == f,
            _ => false,
        },
        r matches Ok(v) ==> forall|i: int|
            0 <= i < v@.len() ==> params_wf(#[trigger] v@[i]) && v@[i].samples_a <= nseg,
{
    let ghost step = params_step(gb.data(), gb.limit(), kinds@, samples@, first, nabits as int);
    let ghost p = gb.pos();
    let mut items: Vec<CodeParams> = Vec::new();
    while items.len() < kinds.len()
        invariant
            gb.wf(),
            gb.same_source(old(gb)),
            old(gb).pos() <= gb.pos(),
            p == old(gb).pos(),
            step == params_step(gb.data(), gb.limit(), kinds@, samples@, first, nabits as int),
            items@.len() <= kinds.len(),
            repeat(step, p, items@.len() as int) == Ok::<_, XllError>((items@, gb.pos())),
        4 <= nabits <= 5,
        samples@.len() == kinds@.len(),
        forall|i: int| 0 <= i < kinds@.len() ==> (#[trigger] kinds@[i]).1 <= 32,
        forall|i: int| 0 <= i < samples@.len() ==> #[trigger] samples@[i] <= nseg,
            forall|i: int|
                0 <= i < items@.len() ==> params_wf(#[trigger] items@[i]) && items@[i].samples_a <= nseg,
        decreases kinds.len() - items.len(),
    {
        let ghost before = items@;
        proof {
            lemma_repeat_err_of(step, p, items@.len() as int, kinds.len() as int);
        }
        let item = read_code_params(gb, kinds[items.len()], samples[items.len()], first, nabits)?;
        items.push(item);
        assert(items@ =~= before.push(item));
    }
    Ok(items)
}

/// Samples of the first part, per entry: a channel's own adaptive order, or
/// the highest of the set.
pub open spec fn first_parts(set: XllChSetModel, common: bool) -> Seq<usize> {
    if common { seq![set.prediction.highest] } else { set.prediction.adaptive }
}

/// Fresh coding parameters of a segment.
pub open spec fn new_coding(d: Seq<u8>, lim: int, p: int, set: XllChSetModel, first: bool) -> Result<
    (SegModel, int),
    XllError,
> {
    let common = flag(d, p);
    let k = if common { 1 } else { set.head.nchannels as int };
    let nabits = set.nabits as int;
    if p + 1 > lim {
        short()
    } else {
        match repeat(kind_step(d, lim, common, nabits), p + 1, k) {
            Err(e) => Err(e),
            Ok((kinds, q)) => match repeat(
                params_step(d, lim, kinds, first_parts(set, common), first, nabits),
                q,
                k,
            ) {
                Err(e) => Err(e),
                Ok((params, s)) => Ok((SegModel { common, params }, s)),
            },
        }
    }
}

/// Coding parameters of segment `seg`; a later segment may keep those of the
/// one before.
pub open spec fn seg_coding(
    d: Seq<u8>,
    lim: int,
    p: int,
    set: XllChSetModel,
    seg: int,
    kept: SegModel,
) -> Result<(SegModel, int), XllError> {
    if seg == 0 {
        new_coding(d, lim, p, set, true)
    } else if p + 1 > lim {
        short()
    } else if flag(d, p) {
        Ok((kept, p + 1))
    } else {
        new_coding(d, lim, p + 1, set, false)
    }
}

fn copy_sizes(v: &Vec<usize>) -> (r: Vec<usize>)
    ensures
        r@ == v@,
{
    let mut r: Vec<usize> = Vec::new();
    while r.len() < v.len()
        invariant
            r@.len() <= v@.len(),
            forall|i: int| 0 <= i < r@.len() ==> r@[i] == v@[i],
        decreases v.len() - r.len(),
    {
        let x: usize = v[r.len()];
        r.push(x);
    }
    assert(r@ =~= v@);
    r
}

fn parse_new_coding(gb: &mut BitReader<'_>, set: &XllChSet, frame: &XllFrame, first: bool) -> (r: Result<SegCoding, XllError>)
    requires
        old(gb).wf(),
        frame.wf(),
        set.wf(*frame),
    ensures
        final(gb).wf(),
        final(gb).same_source(old(gb)),
        parsed_view(
            r,
            new_coding(old(gb).data(), old(gb).limit(), old(gb).pos(), set@, first),
            final(gb).pos(),
        ),
        old(gb).pos() <= final(gb).pos(),
        r matches Ok(v) ==> v.wf(set.head.nchannels as int, frame.nsegsamples as int),
{
    let common: bool = rb1(gb)?;
    let k: usize = if common { 1 } else { set.head.nchannels };
    let kinds: Vec<(bool, usize)> = read_code_kinds(gb, common, set.nabits, k)?;
    let mut samples: Vec<usize> = Vec::new();
    if common {
        samples.push(set.prediction.highest);
        assert(samples@ =~= seq![set.prediction.highest]);
    } else {
        samples = copy_sizes(&set.prediction.adaptive);
    }
    let params: Vec<CodeParams> = read_all_params(
        gb,
        &kinds,
        &samples,
        first,
        set.nabits,
        frame.nsegsamples,
    )?;
    Ok(SegCoding { common, params })
}

fn parse_seg_coding(
    gb: &mut BitReader<'_>,
    set: &XllChSet,
    frame: &XllFrame,
    seg: usize,
    coding: &mut SegCoding,
) -> (r: Result<(), XllError>)
    requires
        old(gb).wf(),
        frame.wf(),
        set.wf(*frame),
        seg > 0 ==> old(coding).wf(set.head.nchannels as int, frame.nsegsamples as int),
    ensures
        final(gb).wf(),
        final(gb).same_source(old(gb)),
        old(gb).pos() <= final(gb).pos(),
        match (
            r,
            seg_coding(
                old(gb).data(),
                old(gb).limit(),
                old(gb).pos(),
                set@,
                seg as int,
                old(coding)@,
            ),
        ) {
            (Ok(_), Ok((want, q))) => {
                &&& final(coding)@ == want
                &&& final(coding).wf(set.head.nchannels as int, frame.nsegsamples as int)
                &&& final(gb).pos() == q
            },
            (Err(e), Err(f)) => e == f,
            _ => false,
        },
{
    if seg != 0 {
        if rb1(gb)? {
            return Ok(());
        }
    }
    *coding = parse_new_coding(gb, set, frame, seg == 0)?;
    Ok(())
}

/// Places of the samples that stand out, each inside the second part.
pub open spec fn place_step(d: Seq<u8>, lim: int, width: int, nb: int) -> spec_fn(int, int) -> Result<
    (usize, int),
    XllError,
> {
    |i: int, q: int| place_at(d, lim, q, width, nb)
}

pub open spec fn place_at(d: Seq<u8>, lim: int, q: int, width: int, nb: int) -> Result<
    (usize, int),
    XllError,
> {
    if q + width > lim {
        short()
    } else if field(d, q, width) >= nb {
        Err(XllError::Invalid("isolated sample location"))
    } else {
        Ok((field(d, q, width) as usize, q + width))
    }
}

fn read_place(gb: &mut BitReader<'_>, width: usize, nb: usize) -> (r: Result<usize, XllError>)
    requires
        old(gb).wf(),
        1 <= width <= 15,
    ensures
        final(gb).wf(),
        final(gb).same_source(old(gb)),
        parsed(
            r,
            place_at(old(gb).data(), old(gb).limit(), old(gb).pos(), width as int, nb as int),
            final(gb).pos(),
        ),
        old(gb).pos() <= final(gb).pos(),
        r matches Ok(v) ==> v < nb,
{
    let place: usize = rb(gb, width)? as usize;
    if place >= nb {
        return Err(XllError::Invalid("isolated sample location"));
    }
    Ok(place)
}

fn read_places(gb: &mut BitReader<'_>, width: usize, nb: usize, n: usize) -> (r: Result<Vec<usize>, XllError>)
    requires
        old(gb).wf(),
        1 <= width <= 15,
    ensures
        final(gb).wf(),
        final(gb).same_source(old(gb)),
        old(gb).pos() <= final(gb).pos(),
        match (r, repeat(place_step(old(gb).data(), old(gb).limit(), width as int, nb as int), old(gb).pos(), n as int)) {
            (Ok(v), Ok((want, q))) => v@ == want && v@.len() == n && final(gb).pos() == q,
            (Err(e), Err(f)) => e == f,
            _ => false,
        },
        r matches Ok(v) ==> forall|i: int| 0 <= i < v@.len() ==> #[trigger] v@[i] < nb,
{
    let ghost step = place_step(gb.data(), gb.limit(), width as int, nb as int);
    let ghost p = gb.pos();
    let mut items: Vec<usize> = Vec::new();
    while items.len() < n
        invariant
            gb.wf(),
            gb.same_source(old(gb)),
            old(gb).pos() <= gb.pos(),
            p == old(gb).pos(),
            step == place_step(gb.data(), gb.limit(), width as int, nb as int),
            items@.len() <= n,
            repeat(step, p, items@.len() as int) == Ok::<_, XllError>((items@, gb.pos())),
        1 <= width <= 15,
            forall|i: int| 0 <= i < items@.len() ==> #[trigger] items@[i] < nb,
        decreases n - items.len(),
    {
        let ghost before = items@;
        proof {
            lemma_repeat_err_of(step, p, items@.len() as int, n as int);
        }
        let item = read_place(gb, width, nb)?;
        items.push(item);
        assert(items@ =~= before.push(item));
    }
    Ok(items)
}

/// A sample of a hybrid run.
pub open spec fn hybrid_step(d: Seq<u8>, lim: int, places: Seq<usize>, wide: int, k: int) -> spec_fn(
    int,
    int,
) -> Result<(i32, int), XllError> {
    |i: int, q: int|
        if places.contains(i as usize) { linear(d, lim, q, wide) } else { rice(d, lim, q, k) }
}

fn mark_places(places: &Vec<usize>, nb: usize) -> (r: Vec<bool>)
    requires
        forall|i: int| 0 <= i < places@.len() ==> #[trigger] places@[i] < nb,
    ensures
        r@.len() == nb,
        forall|i: int| 0 <= i < nb ==> #[trigger] r@[i] == places@.contains(i as usize),
{
    let mut r: Vec<bool> = Vec::new();
    while r.len() < nb
        invariant
            r@.len() <= nb,
            forall|i: int| 0 <= i < r@.len() ==> !#[trigger] r@[i],
        decreases nb - r.len(),
    {
        r.push(false);
    }
    let mut k: usize = 0;
    while k < places.len()
        invariant
            k <= places@.len(),
            r@.len() == nb,
            forall|i: int| 0 <= i < places@.len() ==> #[trigger] places@[i] < nb,
            forall|i: int| 0 <= i < nb ==> #[trigger] r@[i] == places@.take(k as int).contains(i as usize),
        decreases places.len() - k,
    {
        let place: usize = places[k];
        let ghost before = places@.take(k as int);
        r.set(place, true);
        proof {
            let after = places@.take(k + 1);
            assert(after =~= before.push(place));
            assert forall|i: int| 0 <= i < nb implies #[trigger] r@[i] == after.contains(i as usize) by {
                if i == place {
                    assert(after[k as int] == i as usize);
                } else if before.contains(i as usize) {
                    let j = choose|j: int| 0 <= j < before.len() && before[j] == i as usize;
                    assert(after[j] == i as usize);
                } else if after.contains(i as usize) {
                    let j = choose|j: int| 0 <= j < after.len() && after[j] == i as usize;
                    assert(before[j] == i as usize);
                }
            }
        }
        k = k + 1;
    }
    assert(places@.take(places@.len() as int) =~= places@);
    r
}

fn read_hybrid(gb: &mut BitReader<'_>, marks: &Vec<bool>, Ghost(places): Ghost<Seq<usize>>, wide: usize, k: usize) -> (r: Result<Vec<i32>, XllError>)
    requires
        old(gb).wf(),
        wide <= 32,
        k <= 31,
        forall|i: int| 0 <= i < marks@.len() ==> #[trigger] marks@[i] == places.contains(i as usize),
    ensures
        final(gb).wf(),
        final(gb).same_source(old(gb)),
        old(gb).pos() <= final(gb).pos(),
        match (r, repeat(hybrid_step(old(gb).data(), old(gb).limit(), places, wide as int, k as int), old(gb).pos(), marks.len() as int)) {
            (Ok(v), Ok((want, q))) => v@ == want && v@.len() == marks.len() && final(gb).pos() == q,
            (Err(e), Err(f)) => e == f,
            _ => false,
        },
{
    let ghost step = hybrid_step(gb.data(), gb.limit(), places, wide as int, k as int);
    let ghost p = gb.pos();
    let mut items: Vec<i32> = Vec::new();
    while items.len() < marks.len()
        invariant
            gb.wf(),
            gb.same_source(old(gb)),
            old(gb).pos() <= gb.pos(),
            p == old(gb).pos(),
            step == hybrid_step(gb.data(), gb.limit(), places, wide as int, k as int),
            items@.len() <= marks.len(),
            repeat(step, p, items@.len() as int) == Ok::<_, XllError>((items@, gb.pos())),
        wide <= 32,
        k <= 31,
        forall|i: int| 0 <= i < marks@.len() ==> #[trigger] marks@[i] == places.contains(i as usize),
        decreases marks.len() - items.len(),
    {
        let ghost before = items@;
        proof {
            lemma_repeat_err_of(step, p, items@.len() as int, marks.len() as int);
        }
        let item = if marks[items.len()] { get_linear(gb, wide)? } else { get_rice(gb, k)? };
        items.push(item);
        assert(items@ =~= before.push(item));
    }
    Ok(items)
}

/// The second part of a Rice-coded channel.
pub open spec fn second_part(d: Seq<u8>, lim: int, p: int, c: CodeParams, nb: int, width: int) -> Result<
    (Seq<i32>, int),
    XllError,
> {
    if c.hybrid == 0 {
        repeat(rice_step(d, lim, c.part_b as int), p, nb)
    } else if p + width > lim {
        short()
    } else {
        match repeat(place_step(d, lim, width, nb), p + width, field(d, p, width)) {
            Err(e) => Err(e),
            Ok((places, q)) => repeat(
                hybrid_step(d, lim, places, c.hybrid as int, c.part_b as int),
                q,
                nb,
            ),
        }
    }
}

/// The samples of one channel in one segment.
pub open spec fn channel_samples(
    d: Seq<u8>,
    lim: int,
    p: int,
    c: CodeParams,
    nseg: int,
    width: int,
) -> Result<(Seq<i32>, int), XllError> {
    let na = c.samples_a as int;
    let nb = nseg - na;
    let head = if c.rice {
        repeat(rice_step(d, lim, c.part_a as int), p, na)
    } else {
        repeat(linear_step(d, lim, c.part_a as int), p, na)
    };
    match head {
        Err(e) => Err(e),
        Ok((a, q)) => {
            let tail = if c.rice {
                second_part(d, lim, q, c, nb, width)
            } else {
                repeat(linear_step(d, lim, c.part_b as int), q, nb)
            };
            match tail {
                Err(e) => Err(e),
                Ok((b, s)) => Ok((a + b, s)),
            }
        },
    }
}

/// A reader of samples did what the grammar says.
pub open spec fn sampled(r: Result<Vec<i32>, XllError>, want: Result<(Seq<i32>, int), XllError>, q: int, n: int) -> bool {
    match (r, want) {
        (Ok(v), Ok((w, s))) => v@ == w && v@.len() == n && q == s,
        (Err(e), Err(f)) => e == f,
        _ => false,
    }
}

fn read_second_part(gb: &mut BitReader<'_>, c: CodeParams, nb: usize, width: usize) -> (r: Result<
    Vec<i32>,
    XllError,
>)
    requires
        old(gb).wf(),
        params_wf(c),
        c.rice,
        1 <= width <= 15,
    ensures
        final(gb).wf(),
        final(gb).same_source(old(gb)),
        old(gb).pos() <= final(gb).pos(),
        sampled(
            r,
            second_part(old(gb).data(), old(gb).limit(), old(gb).pos(), c, nb as int, width as int),
            final(gb).pos(),
            nb as int,
        ),
{
    if c.hybrid == 0 {
        return read_rice(gb, c.part_b, nb);
    }
    let count: usize = rb(gb, width)? as usize;
    let places: Vec<usize> = read_places(gb, width, nb, count)?;
    let marks: Vec<bool> = mark_places(&places, nb);
    read_hybrid(gb, &marks, Ghost(places@), c.hybrid, c.part_b)
}

fn read_channel(gb: &mut BitReader<'_>, c: CodeParams, nseg: usize, width: usize) -> (r: Result<
    Vec<i32>,
    XllError,
>)
    requires
        old(gb).wf(),
        params_wf(c),
        c.samples_a <= nseg,
        1 <= width <= 15,
    ensures
        final(gb).wf(),
        final(gb).same_source(old(gb)),
        old(gb).pos() <= final(gb).pos(),
        sampled(
            r,
            channel_samples(
                old(gb).data(),
                old(gb).limit(),
                old(gb).pos(),
                c,
                nseg as int,
                width as int,
            ),
            final(gb).pos(),
            nseg as int,
        ),
{
    let na: usize = c.samples_a;
    let nb: usize = nseg - na;
    let mut a: Vec<i32> = if c.rice {
        read_rice(gb, c.part_a, na)?
    } else {
        read_linear(gb, c.part_a, na)?
    };
    let mut b: Vec<i32> = if c.rice {
        read_second_part(gb, c, nb, width)?
    } else {
        read_linear(gb, c.part_b, nb)?
    };
    a.append(&mut b);
    Ok(a)
}

/// The parameters channel `i` is coded with.
pub open spec fn params_of(c: SegModel, i: int) -> CodeParams {
    if c.common { c.params[0] } else { c.params[i] }
}

pub open spec fn channel_step(d: Seq<u8>, lim: int, c: SegModel, nseg: int, width: int) -> spec_fn(
    int,
    int,
) -> Result<(Seq<i32>, int), XllError> {
    |i: int, q: int| channel_samples(d, lim, q, params_of(c, i), nseg, width)
}

fn read_channels(gb: &mut BitReader<'_>, c: &SegCoding, nseg: usize, width: usize, n: usize) -> (r: Result<Vec<Vec<i32>>, XllError>)
    requires
        old(gb).wf(),
        c.wf(n as int, nseg as int),
        1 <= width <= 15,
    ensures
        final(gb).wf(),
        final(gb).same_source(old(gb)),
        old(gb).pos() <= final(gb).pos(),
        match (r, repeat(channel_step(old(gb).data(), old(gb).limit(), c@, nseg as int, width as int), old(gb).pos(), n as int)) {
            (Ok(v), Ok((want, q))) => rows(v@) == want && v@.len() == n && final(gb).pos() == q,
            (Err(e), Err(f)) => e == f,
            _ => false,
        },
        r matches Ok(v) ==> forall|i: int| 0 <= i < v@.len() ==> (#[trigger] v@[i])@.len() == nseg,
{
    let ghost step = channel_step(gb.data(), gb.limit(), c@, nseg as int, width as int);
    let ghost p = gb.pos();
    let mut items: Vec<Vec<i32>> = Vec::new();
    assert(rows(items@) =~= Seq::empty());
    while items.len() < n
        invariant
            gb.wf(),
            gb.same_source(old(gb)),
            old(gb).pos() <= gb.pos(),
            p == old(gb).pos(),
            step == channel_step(gb.data(), gb.limit(), c@, nseg as int, width as int),
            items@.len() <= n,
            repeat(step, p, items@.len() as int) == Ok::<_, XllError>((rows(items@), gb.pos())),
        c.wf(n as int, nseg as int),
        1 <= width <= 15,
            forall|i: int| 0 <= i < items@.len() ==> (#[trigger] items@[i])@.len() == nseg,
        decreases n - items.len(),
    {
        let ghost before = rows(items@);
        proof {
            lemma_repeat_err_of(step, p, items@.len() as int, n as int);
        }
        let item = read_channel(gb, if c.common { c.params[0] } else { c.params[items.len()] }, nseg, width)?;
        items.push(item);
        assert(rows(items@) =~= before.push(item@));
    }
    Ok(items)
}

/// A low-bit sample of `n` bits.
pub open spec fn low_step(d: Seq<u8>, lim: int, n: int) -> spec_fn(int, int) -> Result<
    (i32, int),
    XllError,
> {
    |i: int, q: int| if q + n > lim { short() } else { Ok((field(d, q, n) as i32, q + n)) }
}

/// Low bits of each channel that has any.
pub open spec fn lows_step(d: Seq<u8>, lim: int, widths: Seq<usize>, nseg: int) -> spec_fn(
    int,
    int,
) -> Result<(Seq<i32>, int), XllError> {
    |i: int, q: int| repeat(low_step(d, lim, widths[i] as int), q, if widths[i] == 0 { 0 } else { nseg })
}

/// Samples of `w` bits are small.
pub open spec fn narrow(v: Seq<i32>) -> bool {
    forall|i: int| 0 <= i < v.len() ==> 0 <= #[trigger] v[i] < 0x8000
}

fn read_lows(gb: &mut BitReader<'_>, w: usize, n: usize) -> (r: Result<Vec<i32>, XllError>)
    requires
        old(gb).wf(),
        n > 0 ==> 1 <= w <= 15,
    ensures
        final(gb).wf(),
        final(gb).same_source(old(gb)),
        old(gb).pos() <= final(gb).pos(),
        match (r, repeat(low_step(old(gb).data(), old(gb).limit(), w as int), old(gb).pos(), n as int)) {
            (Ok(v), Ok((want, q))) => v@ == want && v@.len() == n && final(gb).pos() == q,
            (Err(e), Err(f)) => e == f,
            _ => false,
        },
        r matches Ok(v) ==> narrow(v@),
{
    let ghost step = low_step(gb.data(), gb.limit(), w as int);
    let ghost p = gb.pos();
    let mut items: Vec<i32> = Vec::new();
    while items.len() < n
        invariant
            gb.wf(),
            gb.same_source(old(gb)),
            old(gb).pos() <= gb.pos(),
            p == old(gb).pos(),
            step == low_step(gb.data(), gb.limit(), w as int),
            items@.len() <= n,
            repeat(step, p, items@.len() as int) == Ok::<_, XllError>((items@, gb.pos())),
        n > 0 ==> 1 <= w <= 15,
            narrow(items@),
        decreases n - items.len(),
    {
        let ghost before = items@;
        proof {
            lemma_repeat_err_of(step, p, items@.len() as int, n as int);
        }
        let item = rb(gb, w)? as i32;
        items.push(item);
        assert(items@ =~= before.push(item));
    }
    Ok(items)
}

fn read_all_lows(gb: &mut BitReader<'_>, widths: &Vec<usize>, nseg: usize) -> (r: Result<Vec<Vec<i32>>, XllError>)
    requires
        old(gb).wf(),
        forall|i: int| 0 <= i < widths@.len() ==> #[trigger] widths@[i] <= 15,
    ensures
        final(gb).wf(),
        final(gb).same_source(old(gb)),
        old(gb).pos() <= final(gb).pos(),
        match (r, repeat(lows_step(old(gb).data(), old(gb).limit(), widths@, nseg as int), old(gb).pos(), widths.len() as int)) {
            (Ok(v), Ok((want, q))) => rows(v@) == want && v@.len() == widths.len() && final(gb).pos() == q,
            (Err(e), Err(f)) => e == f,
            _ => false,
        },
        r matches Ok(v) ==> forall|i: int|
            0 <= i < v@.len() ==> narrow((#[trigger] v@[i])@) && v@[i]@.len() == if widths@[i] == 0 {
                0
            } else {
                nseg as int
            },
{
    let ghost step = lows_step(gb.data(), gb.limit(), widths@, nseg as int);
    let ghost p = gb.pos();
    let mut items: Vec<Vec<i32>> = Vec::new();
    assert(rows(items@) =~= Seq::empty());
    while items.len() < widths.len()
        invariant
            gb.wf(),
            gb.same_source(old(gb)),
            old(gb).pos() <= gb.pos(),
            p == old(gb).pos(),
            step == lows_step(gb.data(), gb.limit(), widths@, nseg as int),
            items@.len() <= widths.len(),
            repeat(step, p, items@.len() as int) == Ok::<_, XllError>((rows(items@), gb.pos())),
        forall|i: int| 0 <= i < widths@.len() ==> #[trigger] widths@[i] <= 15,
            forall|i: int|
                0 <= i < items@.len() ==> narrow((#[trigger] items@[i])@) && items@[i]@.len()
                    == if widths@[i] == 0 { 0 } else { nseg as int },
        decreases widths.len() - items.len(),
    {
        let ghost before = rows(items@);
        proof {
            lemma_repeat_err_of(step, p, items@.len() as int, widths.len() as int);
        }
        let item = read_lows(gb, widths[items.len()], if widths[items.len()] == 0 { 0 } else { nseg })?;
        items.push(item);
        assert(rows(items@) =~= before.push(item@));
    }
    Ok(items)
}

/// The low bits of a segment, which stand at the end of its band data.
pub open spec fn low_section(d: Seq<u8>, lim: int, p: int, set: XllChSetModel, nseg: int, end: int) -> Result<
    (Seq<Seq<i32>>, int),
    XllError,
> {
    let size = 8 * set.lsb.section_size;
    if size == 0 {
        Ok((Seq::new(set.lsb.widths.len(), |i: int| Seq::empty()), p))
    } else if size > end {
        Err(XllError::Invalid("lsb section exceeds band data"))
    } else if end - size > lim {
        Err(XllError::Invalid("seek past end"))
    } else {
        repeat(lows_step(d, lim, set.lsb.widths, nseg), end - size, set.lsb.widths.len() as int)
    }
}

fn empties(n: usize) -> (r: Vec<Vec<i32>>)
    ensures
        rows(r@) == Seq::new(n as nat, |i: int| Seq::<i32>::empty()),
        r@.len() == n,
        forall|i: int| 0 <= i < n ==> (#[trigger] r@[i])@.len() == 0,
{
    let mut r: Vec<Vec<i32>> = Vec::new();
    while r.len() < n
        invariant
            r@.len() <= n,
            forall|i: int| 0 <= i < r@.len() ==> (#[trigger] r@[i])@.len() == 0,
        decreases n - r.len(),
    {
        r.push(Vec::new());
    }
    proof {
        assert forall|i: int| 0 <= i < n implies rows(r@)[i] == Seq::<i32>::empty() by {
            assert(r@[i]@ =~= Seq::<i32>::empty());
        }
        assert(rows(r@) =~= Seq::new(n as nat, |i: int| Seq::<i32>::empty()));
    }
    r
}

/// Rows of low bits that fit a set's widths, `len` samples each where there
/// are any.
pub open spec fn lows_fit(v: Seq<Vec<i32>>, widths: Seq<usize>, len: int) -> bool {
    &&& v.len() == widths.len()
    &&& forall|i: int|
        0 <= i < v.len() ==> narrow((#[trigger] v[i])@) && v[i]@.len() == if widths[i] == 0 {
            0
        } else {
            len
        }
}

fn read_low_section(
    gb: &mut BitReader<'_>,
    set: &XllChSet,
    frame: &XllFrame,
    end: usize,
) -> (r: Result<Vec<Vec<i32>>, XllError>)
    requires
        old(gb).wf(),
        frame.wf(),
        set.wf(*frame),
    ensures
        final(gb).wf(),
        final(gb).same_source(old(gb)),
        match (
            r,
            low_section(
                old(gb).data(),
                old(gb).limit(),
                old(gb).pos(),
                set@,
                frame.nsegsamples as int,
                end as int,
            ),
        ) {
            (Ok(v), Ok((want, q))) => {
                &&& rows(v@) == want
                &&& lows_fit(v@, set.lsb.widths@, frame.nsegsamples as int)
                &&& final(gb).pos() == q
            },
            (Err(e), Err(f)) => e == f,
            _ => false,
        },
{
    let size: u64 = 8 * set.lsb.section_size;
    if size == 0 {
        return Ok(empties(set.lsb.widths.len()));
    }
    if size > end as u64 {
        return Err(XllError::Invalid("lsb section exceeds band data"));
    }
    if !gb.seek(end - size as usize) {
        return Err(XllError::Invalid("seek past end"));
    }
    read_all_lows(gb, &set.lsb.widths, frame.nsegsamples)
}

/// What one segment of a set holds.
pub ghost struct SegmentModel {
    pub coding: SegModel,
    pub msb: Seq<Seq<i32>>,
    pub lsb: Seq<Seq<i32>>,
}

/// Segment `seg` of a set, whose band data ends at bit `end`.
pub open spec fn segment(
    d: Seq<u8>,
    lim: int,
    p: int,
    set: XllChSetModel,
    frame: XllFrame,
    seg: int,
    end: int,
    kept: SegModel,
) -> Result<(SegmentModel, int), XllError> {
    let nseg = frame.nsegsamples as int;
    match seg_coding(d, lim, p, set, seg, kept) {
        Err(e) => Err(e),
        Ok((coding, a)) => match repeat(
            channel_step(d, lim, coding, nseg, frame.nsegsamples_log2 as int),
            a,
            set.head.nchannels as int,
        ) {
            Err(e) => Err(e),
            Ok((msb, b)) => match low_section(d, lim, b, set, nseg, end) {
                Err(e) => Err(e),
                Ok((lsb, c)) => Ok((SegmentModel { coding, msb, lsb }, c)),
            },
        },
    }
}

/// The samples of a set decoded so far.
#[derive(Clone, Debug)]
pub struct XllBand {
    pub coding: SegCoding,
    pub msb: Vec<Vec<i32>>,
    pub lsb: Vec<Vec<i32>>,
}

pub ghost struct BandModel {
    pub coding: SegModel,
    pub msb: Seq<Seq<i32>>,
    pub lsb: Seq<Seq<i32>>,
}

impl View for XllBand {
    type V = BandModel;

    open spec fn view(&self) -> BandModel {
        BandModel { coding: self.coding@, msb: rows(self.msb@), lsb: rows(self.lsb@) }
    }
}

impl XllBand {
    /// `segs` segments of every channel of the set are there.
    pub open spec fn wf(&self, set: XllChSet, frame: XllFrame, segs: int) -> bool {
        &&& segs > 0 ==> self.coding.wf(set.head.nchannels as int, frame.nsegsamples as int)
        &&& self.msb@.len() == set.head.nchannels
        &&& forall|i: int|
            0 <= i < self.msb@.len() ==> (#[trigger] self.msb@[i])@.len() == segs * frame.nsegsamples
        &&& lows_fit(self.lsb@, set.lsb.widths@, segs * frame.nsegsamples)
    }
}

/// Row `i` of one followed by row `i` of the other.
pub open spec fn joined(a: Seq<Seq<i32>>, b: Seq<Seq<i32>>) -> Seq<Seq<i32>> {
    Seq::new(a.len(), |i: int| a[i] + b[i])
}

/// A band before its first segment.
pub open spec fn blank_band(n: int) -> BandModel {
    BandModel {
        coding: SegModel { common: false, params: Seq::empty() },
        msb: Seq::new(n as nat, |i: int| Seq::empty()),
        lsb: Seq::new(n as nat, |i: int| Seq::empty()),
    }
}

/// The band with one more segment.
#[verifier::opaque]
pub open spec fn extended(
    d: Seq<u8>,
    lim: int,
    p: int,
    set: XllChSetModel,
    frame: XllFrame,
    seg: int,
    end: int,
    band: BandModel,
) -> Result<(BandModel, int), XllError> {
    match segment(d, lim, p, set, frame, seg, end, band.coding) {
        Err(e) => Err(e),
        Ok((s, q)) => Ok(
            (
                BandModel {
                    coding: s.coding,
                    msb: joined(band.msb, s.msb),
                    lsb: joined(band.lsb, s.lsb),
                },
                q,
            ),
        ),
    }
}

impl XllBand {
    pub fn new(n: usize) -> (r: Self)
        ensures
            r@ == blank_band(n as int),
            forall|set: XllChSet, frame: XllFrame|
                set.head.nchannels == n && set.lsb.widths@.len() == n ==> #[trigger] r.wf(set, frame, 0),
    {
        let r = XllBand {
            coding: SegCoding { common: false, params: Vec::new() },
            msb: empties(n),
            lsb: empties(n),
        };
        proof {
            assert(r.coding.params@ =~= Seq::<CodeParams>::empty());
            assert forall|set: XllChSet, frame: XllFrame|
                set.head.nchannels == n && set.lsb.widths@.len() == n implies #[trigger] r.wf(
                set,
                frame,
                0,
            ) by {
                assert(0 * frame.nsegsamples == 0) by (nonlinear_arith);
            }
        }
        r
    }
}

fn append_rows(into: &mut Vec<Vec<i32>>, more: Vec<Vec<i32>>)
    requires
        old(into)@.len() == more@.len(),
    ensures
        rows(final(into)@) == joined(rows(old(into)@), rows(more@)),
        final(into)@.len() == old(into)@.len(),
        forall|i: int|
            0 <= i < old(into)@.len() ==> (#[trigger] final(into)@[i])@ == old(into)@[i]@ + more@[i]@,
{
    let mut i: usize = 0;
    while i < into.len()
        invariant
            i <= into@.len(),
            into@.len() == old(into)@.len(),
            into@.len() == more@.len(),
            forall|j: int|
                0 <= j < into@.len() ==> (#[trigger] into@[j])@ == if j < i {
                    old(into)@[j]@ + more@[j]@
                } else {
                    old(into)@[j]@
                },
        decreases into.len() - i,
    {
        let mut held: Vec<i32> = Vec::new();
        std::mem::swap(&mut held, &mut into[i]);
        let mut k: usize = 0;
        let extra: &Vec<i32> = &more[i];
        let ghost start = held@;
        while k < extra.len()
            invariant
                k <= extra@.len(),
                held@ == start + extra@.take(k as int),
            decreases extra.len() - k,
        {
            held.push(extra[k]);
            assert(extra@.take(k + 1) =~= extra@.take(k as int).push(extra@[k as int]));
            assert(held@ =~= start + extra@.take(k + 1));
            k = k + 1;
        }
        assert(extra@.take(extra@.len() as int) =~= extra@);
        std::mem::swap(&mut held, &mut into[i]);
        i = i + 1;
    }
    assert(rows(into@) =~= joined(rows(old(into)@), rows(more@)));
}

/// Decode segment `seg` of a set; its band data ends at bit `band_data_end`.
pub fn chs_parse_band_data(
    gb: &mut BitReader<'_>,
    set: &XllChSet,
    frame: &XllFrame,
    seg: usize,
    band_data_end: usize,
    band: &mut XllBand,
) -> (r: Result<(), XllError>)
    requires
        old(gb).wf(),
        frame.wf(),
        set.wf(*frame),
        old(band).wf(*set, *frame, seg as int),
    ensures
        final(gb).wf(),
        final(gb).same_source(old(gb)),
        match (
            r,
            extended(
                old(gb).data(),
                old(gb).limit(),
                old(gb).pos(),
                set@,
                *frame,
                seg as int,
                band_data_end as int,
                old(band)@,
            ),
        ) {
            (Ok(_), Ok((want, q))) => {
                &&& final(band)@ == want
                &&& final(band).wf(*set, *frame, seg + 1)
                &&& final(gb).pos() == q
            },
            (Err(e), Err(f)) => e == f,
            _ => false,
        },
{
    proof {
        reveal(extended);
    }
    let ghost nseg = frame.nsegsamples as int;
    parse_seg_coding(gb, set, frame, seg, &mut band.coding)?;
    let msb: Vec<Vec<i32>> = read_channels(
        gb,
        &band.coding,
        frame.nsegsamples,
        frame.nsegsamples_log2,
        set.head.nchannels,
    )?;
    let lsb: Vec<Vec<i32>> = read_low_section(gb, set, frame, band_data_end)?;
    let ghost low = lsb@;
    append_rows(&mut band.msb, msb);
    append_rows(&mut band.lsb, lsb);
    proof {
        assert((seg + 1) * nseg == seg * nseg + nseg) by (nonlinear_arith);
        assert forall|i: int| 0 <= i < band.lsb@.len() implies narrow((#[trigger] band.lsb@[i])@) by {
            let a = old(band).lsb@[i]@;
            let b = low[i]@;
            assert(narrow(a) && narrow(b));
            assert forall|k: int| 0 <= k < (a + b).len() implies 0 <= #[trigger] (a + b)[k] < 0x8000 by {
                if k < a.len() {
                    assert((a + b)[k] == a[k]);
                } else {
                    assert((a + b)[k] == b[k - a.len()]);
                }
            }
        }
    }
    Ok(())
}


} // verus!
