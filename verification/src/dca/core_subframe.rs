//! Headers of the core's subframes.

use vstd::prelude::*;
use crate::bits::{field, flag, BitReader};
use crate::grammar::{lemma_thread_step, parsed, parsed_view, repeat, rows, thread};
use super::core_header::{
    lemma_step_err, listed, rb, rb1, read_select, select_at, short, CoreError, SetCoding,
    SetModel,
};
use super::core_tables::CoreTables;
use super::huffman::{decode, Vlc, VlcModel};

verus! {

/// Largest bit allocation index.
pub const DCA_ABITS_MAX: i32 = 26;

/// A code word of a book.
pub open spec fn vlc_at(v: VlcModel, d: Seq<u8>, lim: int, p: int) -> Result<(i32, int), CoreError> {
    match decode(v, d, lim, p) {
        None => short(),
        Some(r) => Ok(r),
    }
}

pub fn read_vlc(gb: &mut BitReader<'_>, vlc: &Vlc) -> (r: Result<i32, CoreError>)
    requires
        old(gb).wf(),
        vlc@.max_len <= 30,
    ensures
        final(gb).wf(),
        final(gb).same_source(old(gb)),
        parsed(r, vlc_at(vlc@, old(gb).data(), old(gb).limit(), old(gb).pos()), final(gb).pos()),
        old(gb).pos() <= final(gb).pos(),
{
    match vlc.get(gb) {
        Some(v) => Ok(v),
        None => Err(CoreError::Bitstream),
    }
}

pub open spec fn bool_at(d: Seq<u8>, lim: int, q: int) -> Result<(bool, int), CoreError> {
    if q + 1 > lim { short() } else { Ok((flag(d, q), q + 1)) }
}

pub open spec fn bool_step(d: Seq<u8>, lim: int) -> spec_fn(int, int) -> Result<
    (bool, int),
    CoreError,
> {
    |i: int, q: int| bool_at(d, lim, q)
}

fn read_bools(gb: &mut BitReader<'_>, n: usize) -> (r: Result<Vec<bool>, CoreError>)
    requires
        old(gb).wf(),
    ensures
        final(gb).wf(),
        final(gb).same_source(old(gb)),
        old(gb).pos() <= final(gb).pos(),
        match (r, repeat(bool_step(old(gb).data(), old(gb).limit()), old(gb).pos(), n as int)) {
            (Ok(v), Ok((want, q))) => v@ == want && v@.len() == n && final(gb).pos() == q,
            (Err(e), Err(f)) => e == f,
            _ => false,
        },
{
    let ghost step = bool_step(gb.data(), gb.limit());
    let ghost p = gb.pos();
    let mut items: Vec<bool> = Vec::new();
    while items.len() < n
        invariant
            gb.wf(),
            gb.same_source(old(gb)),
            old(gb).pos() <= gb.pos(),
            p == old(gb).pos(),
            step == bool_step(gb.data(), gb.limit()),
            items@.len() <= n,
            repeat(step, p, items@.len() as int) == Ok::<_, CoreError>((items@, gb.pos())),
        decreases n - items.len(),
    {
        let ghost before = items@;
        proof {
            lemma_step_err(step, p, items@.len() as int, n as int);
        }
        let item = rb1(gb)?;
        items.push(item);
        assert(items@ =~= before.push(item));
    }
    Ok(items)
}

/// Which bands of each channel are predicted.
pub open spec fn modes_step(d: Seq<u8>, lim: int, counts: Seq<usize>) -> spec_fn(int, int) -> Result<
    (Seq<bool>, int),
    CoreError,
> {
    |i: int, q: int| repeat(bool_step(d, lim), q, counts[i] as int)
}

/// Each row is as long as its count.
pub open spec fn shaped<T>(v: Seq<Vec<T>>, counts: Seq<usize>) -> bool {
    forall|i: int| 0 <= i < v.len() ==> (#[trigger] v[i])@.len() == counts[i]
}

fn read_modes(gb: &mut BitReader<'_>, counts: &Vec<usize>) -> (r: Result<Vec<Vec<bool>>, CoreError>)
    requires
        old(gb).wf(),
    ensures
        final(gb).wf(),
        final(gb).same_source(old(gb)),
        old(gb).pos() <= final(gb).pos(),
        match (r, repeat(modes_step(old(gb).data(), old(gb).limit(), counts@), old(gb).pos(), counts.len() as int)) {
            (Ok(v), Ok((want, q))) => rows(v@) == want && v@.len() == counts.len() && final(gb).pos() == q,
            (Err(e), Err(f)) => e == f,
            _ => false,
        },
        r matches Ok(v) ==> shaped(v@, counts@),
{
    let ghost step = modes_step(gb.data(), gb.limit(), counts@);
    let ghost p = gb.pos();
    let mut items: Vec<Vec<bool>> = Vec::new();
    assert(rows(items@) =~= Seq::empty());
    while items.len() < counts.len()
        invariant
            gb.wf(),
            gb.same_source(old(gb)),
            old(gb).pos() <= gb.pos(),
            p == old(gb).pos(),
            step == modes_step(gb.data(), gb.limit(), counts@),
            items@.len() <= counts.len(),
            repeat(step, p, items@.len() as int) == Ok::<_, CoreError>((rows(items@), gb.pos())),
            shaped(items@, counts@),
        decreases counts.len() - items.len(),
    {
        let ghost before = rows(items@);
        proof {
            lemma_step_err(step, p, items@.len() as int, counts.len() as int);
        }
        let item = read_bools(gb, counts[items.len()])?;
        items.push(item);
        assert(rows(items@) =~= before.push(item@));
    }
    Ok(items)
}

/// The predictor of a band that has one.
pub open spec fn predictor_at(d: Seq<u8>, lim: int, q: int, mode: bool) -> Result<
    (usize, int),
    CoreError,
> {
    if !mode {
        Ok((0usize, q))
    } else if q + 12 > lim {
        short()
    } else {
        Ok((field(d, q, 12) as usize, q + 12))
    }
}

pub open spec fn predictor_step(d: Seq<u8>, lim: int, modes: Seq<bool>) -> spec_fn(int, int) -> Result<
    (usize, int),
    CoreError,
> {
    |i: int, q: int| predictor_at(d, lim, q, modes[i])
}

pub open spec fn predictors_step(d: Seq<u8>, lim: int, modes: Seq<Seq<bool>>) -> spec_fn(
    int,
    int,
) -> Result<(Seq<usize>, int), CoreError> {
    |i: int, q: int| repeat(predictor_step(d, lim, modes[i]), q, modes[i].len() as int)
}

fn read_predictor(gb: &mut BitReader<'_>, mode: bool) -> (r: Result<usize, CoreError>)
    requires
        old(gb).wf(),
    ensures
        final(gb).wf(),
        final(gb).same_source(old(gb)),
        parsed(
            r,
            predictor_at(old(gb).data(), old(gb).limit(), old(gb).pos(), mode),
            final(gb).pos(),
        ),
        old(gb).pos() <= final(gb).pos(),
        r matches Ok(v) ==> v < 4096,
{
    if mode {
        Ok(rb(gb, 12)? as usize)
    } else {
        Ok(0)
    }
}

fn read_predictors(gb: &mut BitReader<'_>, modes: &Vec<bool>) -> (r: Result<Vec<usize>, CoreError>)
    requires
        old(gb).wf(),
    ensures
        final(gb).wf(),
        final(gb).same_source(old(gb)),
        old(gb).pos() <= final(gb).pos(),
        match (r, repeat(predictor_step(old(gb).data(), old(gb).limit(), modes@), old(gb).pos(), modes.len() as int)) {
            (Ok(v), Ok((want, q))) => v@ == want && v@.len() == modes.len() && final(gb).pos() == q,
            (Err(e), Err(f)) => e == f,
            _ => false,
        },
        r matches Ok(v) ==> listed(v@, modes@.len() as int, 4096),
{
    let ghost step = predictor_step(gb.data(), gb.limit(), modes@);
    let ghost p = gb.pos();
    let mut items: Vec<usize> = Vec::new();
    while items.len() < modes.len()
        invariant
            gb.wf(),
            gb.same_source(old(gb)),
            old(gb).pos() <= gb.pos(),
            p == old(gb).pos(),
            step == predictor_step(gb.data(), gb.limit(), modes@),
            items@.len() <= modes.len(),
            repeat(step, p, items@.len() as int) == Ok::<_, CoreError>((items@, gb.pos())),
            listed(items@, items@.len() as int, 4096),
        decreases modes.len() - items.len(),
    {
        let ghost before = items@;
        proof {
            lemma_step_err(step, p, items@.len() as int, modes.len() as int);
        }
        let item = read_predictor(gb, modes[items.len()])?;
        items.push(item);
        assert(items@ =~= before.push(item));
    }
    Ok(items)
}

/// Rows of as many predictors as there are modes.
pub open spec fn predictors_wf(v: Seq<Vec<usize>>, modes: Seq<Vec<bool>>) -> bool {
    forall|i: int| 0 <= i < v.len() ==> listed((#[trigger] v[i])@, modes[i]@.len() as int, 4096)
}

fn read_predictor_rows(gb: &mut BitReader<'_>, modes: &Vec<Vec<bool>>) -> (r: Result<Vec<Vec<usize>>, CoreError>)
    requires
        old(gb).wf(),
    ensures
        final(gb).wf(),
        final(gb).same_source(old(gb)),
        old(gb).pos() <= final(gb).pos(),
        match (r, repeat(predictors_step(old(gb).data(), old(gb).limit(), rows(modes@)), old(gb).pos(), modes.len() as int)) {
            (Ok(v), Ok((want, q))) => rows(v@) == want && v@.len() == modes.len() && final(gb).pos() == q,
            (Err(e), Err(f)) => e == f,
            _ => false,
        },
        r matches Ok(v) ==> predictors_wf(v@, modes@),
{
    let ghost step = predictors_step(gb.data(), gb.limit(), rows(modes@));
    let ghost p = gb.pos();
    let mut items: Vec<Vec<usize>> = Vec::new();
    assert(rows(items@) =~= Seq::empty());
    while items.len() < modes.len()
        invariant
            gb.wf(),
            gb.same_source(old(gb)),
            old(gb).pos() <= gb.pos(),
            p == old(gb).pos(),
            step == predictors_step(gb.data(), gb.limit(), rows(modes@)),
            items@.len() <= modes.len(),
            repeat(step, p, items@.len() as int) == Ok::<_, CoreError>((rows(items@), gb.pos())),
            predictors_wf(items@, modes@),
        decreases modes.len() - items.len(),
    {
        let ghost before = rows(items@);
        proof {
            lemma_step_err(step, p, items@.len() as int, modes.len() as int);
        }
        assert(rows(modes@)[items@.len() as int] == modes@[items@.len() as int]@);
        let item = read_predictors(gb, &modes[items.len()])?;
        items.push(item);
        assert(rows(items@) =~= before.push(item@));
    }
    Ok(items)
}

/// The bit allocation index of a band.
pub open spec fn alloc_at(d: Seq<u8>, lim: int, q: int, t: CoreTables, sel: usize) -> Result<
    (i32, int),
    CoreError,
> {
    let coded = if sel < 5 {
        vlc_at(t.vlcs.bit_allocation@[sel as int]@, d, lim, q)
    } else if q + sel - 1 > lim {
        short()
    } else {
        Ok((field(d, q, sel - 1) as i32, q + sel - 1))
    };
    match coded {
        Err(e) => Err(e),
        Ok((abits, s)) => if abits < 0 || abits > DCA_ABITS_MAX {
            Err(CoreError::Invalid("bit allocation index"))
        } else {
            Ok((abits, s))
        },
    }
}

pub open spec fn alloc_step(d: Seq<u8>, lim: int, t: CoreTables, sel: usize) -> spec_fn(int, int) -> Result<
    (i32, int),
    CoreError,
> {
    |i: int, q: int| alloc_at(d, lim, q, t, sel)
}

pub open spec fn allocs_step(
    d: Seq<u8>,
    lim: int,
    t: CoreTables,
    sels: Seq<usize>,
    counts: Seq<usize>,
) -> spec_fn(int, int) -> Result<(Seq<i32>, int), CoreError> {
    |i: int, q: int| repeat(alloc_step(d, lim, t, sels[i]), q, counts[i] as int)
}

/// Bit allocation indices that the quantizer tables hold.
pub open spec fn allocs(v: Seq<i32>) -> bool {
    forall|i: int| 0 <= i < v.len() ==> 0 <= #[trigger] v[i] <= 26
}

pub open spec fn alloc_rows_wf(v: Seq<Vec<i32>>, counts: Seq<usize>) -> bool {
    forall|i: int|
        0 <= i < v.len() ==> (#[trigger] v[i])@.len() == counts[i] && allocs(v[i]@)
}

fn read_alloc(gb: &mut BitReader<'_>, t: &CoreTables, sel: usize) -> (r: Result<i32, CoreError>)
    requires
        old(gb).wf(),
        t.wf(),
        sel < 7,
    ensures
        final(gb).wf(),
        final(gb).same_source(old(gb)),
        parsed(
            r,
            alloc_at(old(gb).data(), old(gb).limit(), old(gb).pos(), *t, sel),
            final(gb).pos(),
        ),
        old(gb).pos() <= final(gb).pos(),
        r matches Ok(v) ==> 0 <= v <= 26,
{
    let abits: i32 = if sel < 5 {
        assert(t.vlcs.bit_allocation@[sel as int]@.max_len <= 30);
        read_vlc(gb, &t.vlcs.bit_allocation[sel])?
    } else {
        rb(gb, sel - 1)? as i32
    };
    if abits < 0 || abits > DCA_ABITS_MAX {
        return Err(CoreError::Invalid("bit allocation index"));
    }
    Ok(abits)
}

fn read_allocs(gb: &mut BitReader<'_>, t: &CoreTables, sel: usize, n: usize) -> (r: Result<Vec<i32>, CoreError>)
    requires
        old(gb).wf(),
        t.wf(),
        sel < 7,
    ensures
        final(gb).wf(),
        final(gb).same_source(old(gb)),
        old(gb).pos() <= final(gb).pos(),
        match (r, repeat(alloc_step(old(gb).data(), old(gb).limit(), *t, sel), old(gb).pos(), n as int)) {
            (Ok(v), Ok((want, q))) => v@ == want && v@.len() == n && final(gb).pos() == q,
            (Err(e), Err(f)) => e == f,
            _ => false,
        },
        r matches Ok(v) ==> allocs(v@),
{
    let ghost step = alloc_step(gb.data(), gb.limit(), *t, sel);
    let ghost p = gb.pos();
    let mut items: Vec<i32> = Vec::new();
    while items.len() < n
        invariant
            gb.wf(),
            gb.same_source(old(gb)),
            old(gb).pos() <= gb.pos(),
            p == old(gb).pos(),
            step == alloc_step(gb.data(), gb.limit(), *t, sel),
            items@.len() <= n,
            repeat(step, p, items@.len() as int) == Ok::<_, CoreError>((items@, gb.pos())),
        t.wf(),
        sel < 7,
            allocs(items@),
        decreases n - items.len(),
    {
        let ghost before = items@;
        proof {
            lemma_step_err(step, p, items@.len() as int, n as int);
        }
        let item = read_alloc(gb, t, sel)?;
        items.push(item);
        assert(items@ =~= before.push(item));
    }
    Ok(items)
}

fn read_alloc_rows(gb: &mut BitReader<'_>, t: &CoreTables, sels: &Vec<usize>, counts: &Vec<usize>) -> (r: Result<Vec<Vec<i32>>, CoreError>)
    requires
        old(gb).wf(),
        t.wf(),
        listed(sels@, counts@.len() as int, 7),
    ensures
        final(gb).wf(),
        final(gb).same_source(old(gb)),
        old(gb).pos() <= final(gb).pos(),
        match (r, repeat(allocs_step(old(gb).data(), old(gb).limit(), *t, sels@, counts@), old(gb).pos(), counts.len() as int)) {
            (Ok(v), Ok((want, q))) => rows(v@) == want && v@.len() == counts.len() && final(gb).pos() == q,
            (Err(e), Err(f)) => e == f,
            _ => false,
        },
        r matches Ok(v) ==> alloc_rows_wf(v@, counts@),
{
    let ghost step = allocs_step(gb.data(), gb.limit(), *t, sels@, counts@);
    let ghost p = gb.pos();
    let mut items: Vec<Vec<i32>> = Vec::new();
    assert(rows(items@) =~= Seq::empty());
    while items.len() < counts.len()
        invariant
            gb.wf(),
            gb.same_source(old(gb)),
            old(gb).pos() <= gb.pos(),
            p == old(gb).pos(),
            step == allocs_step(gb.data(), gb.limit(), *t, sels@, counts@),
            items@.len() <= counts.len(),
            repeat(step, p, items@.len() as int) == Ok::<_, CoreError>((rows(items@), gb.pos())),
        t.wf(),
        listed(sels@, counts@.len() as int, 7),
            alloc_rows_wf(items@, counts@),
        decreases counts.len() - items.len(),
    {
        let ghost before = rows(items@);
        proof {
            lemma_step_err(step, p, items@.len() as int, counts.len() as int);
        }
        let item = read_allocs(gb, t, sels[items.len()], counts[items.len()])?;
        items.push(item);
        assert(rows(items@) =~= before.push(item@));
    }
    Ok(items)
}

/// The transition mode of a band that codes one.
pub open spec fn transition_at(d: Seq<u8>, lim: int, q: int, t: CoreTables, sel: usize, coded: bool) -> Result<
    (i32, int),
    CoreError,
> {
    if coded { vlc_at(t.vlcs.transition_mode@[sel as int]@, d, lim, q) } else { Ok((0i32, q)) }
}

pub open spec fn transition_step(
    d: Seq<u8>,
    lim: int,
    t: CoreTables,
    sel: usize,
    nssf: usize,
    abits: Seq<i32>,
) -> spec_fn(int, int) -> Result<(i32, int), CoreError> {
    |i: int, q: int| transition_at(d, lim, q, t, sel, nssf > 1 && abits[i] != 0)
}

pub open spec fn transitions_step(
    d: Seq<u8>,
    lim: int,
    t: CoreTables,
    sels: Seq<usize>,
    nssf: usize,
    abits: Seq<Seq<i32>>,
) -> spec_fn(int, int) -> Result<(Seq<i32>, int), CoreError> {
    |i: int, q: int|
        repeat(transition_step(d, lim, t, sels[i], nssf, abits[i]), q, abits[i].len() as int)
}

fn read_transition(gb: &mut BitReader<'_>, t: &CoreTables, sel: usize, coded: bool) -> (r: Result<i32, CoreError>)
    requires
        old(gb).wf(),
        t.wf(),
        sel < 4,
    ensures
        final(gb).wf(),
        final(gb).same_source(old(gb)),
        parsed(
            r,
            transition_at(old(gb).data(), old(gb).limit(), old(gb).pos(), *t, sel, coded),
            final(gb).pos(),
        ),
        old(gb).pos() <= final(gb).pos(),
{
    if coded {
        assert(t.vlcs.transition_mode@[sel as int]@.max_len <= 30);
        read_vlc(gb, &t.vlcs.transition_mode[sel])
    } else {
        Ok(0)
    }
}

fn read_transitions(gb: &mut BitReader<'_>, t: &CoreTables, sel: usize, nssf: usize, abits: &Vec<i32>) -> (r: Result<Vec<i32>, CoreError>)
    requires
        old(gb).wf(),
        t.wf(),
        sel < 4,
    ensures
        final(gb).wf(),
        final(gb).same_source(old(gb)),
        old(gb).pos() <= final(gb).pos(),
        match (r, repeat(transition_step(old(gb).data(), old(gb).limit(), *t, sel, nssf, abits@), old(gb).pos(), abits.len() as int)) {
            (Ok(v), Ok((want, q))) => v@ == want && v@.len() == abits.len() && final(gb).pos() == q,
            (Err(e), Err(f)) => e == f,
            _ => false,
        },
{
    let ghost step = transition_step(gb.data(), gb.limit(), *t, sel, nssf, abits@);
    let ghost p = gb.pos();
    let mut items: Vec<i32> = Vec::new();
    while items.len() < abits.len()
        invariant
            gb.wf(),
            gb.same_source(old(gb)),
            old(gb).pos() <= gb.pos(),
            p == old(gb).pos(),
            step == transition_step(gb.data(), gb.limit(), *t, sel, nssf, abits@),
            items@.len() <= abits.len(),
            repeat(step, p, items@.len() as int) == Ok::<_, CoreError>((items@, gb.pos())),
        t.wf(),
        sel < 4,
        decreases abits.len() - items.len(),
    {
        let ghost before = items@;
        proof {
            lemma_step_err(step, p, items@.len() as int, abits.len() as int);
        }
        let item = read_transition(gb, t, sel, nssf > 1 && abits[items.len()] != 0)?;
        items.push(item);
        assert(items@ =~= before.push(item));
    }
    Ok(items)
}

/// Rows of the same lengths.
pub open spec fn same_shape<T, U>(v: Seq<Vec<T>>, w: Seq<Vec<U>>) -> bool {
    forall|i: int| 0 <= i < v.len() ==> (#[trigger] v[i])@.len() == w[i]@.len()
}

fn read_transition_rows(gb: &mut BitReader<'_>, t: &CoreTables, sels: &Vec<usize>, nssf: usize, abits: &Vec<Vec<i32>>) -> (r: Result<Vec<Vec<i32>>, CoreError>)
    requires
        old(gb).wf(),
        t.wf(),
        listed(sels@, abits@.len() as int, 4),
    ensures
        final(gb).wf(),
        final(gb).same_source(old(gb)),
        old(gb).pos() <= final(gb).pos(),
        match (r, repeat(transitions_step(old(gb).data(), old(gb).limit(), *t, sels@, nssf, rows(abits@)), old(gb).pos(), abits.len() as int)) {
            (Ok(v), Ok((want, q))) => rows(v@) == want && v@.len() == abits.len() && final(gb).pos() == q,
            (Err(e), Err(f)) => e == f,
            _ => false,
        },
        r matches Ok(v) ==> same_shape(v@, abits@),
{
    let ghost step = transitions_step(gb.data(), gb.limit(), *t, sels@, nssf, rows(abits@));
    let ghost p = gb.pos();
    let mut items: Vec<Vec<i32>> = Vec::new();
    assert(rows(items@) =~= Seq::empty());
    while items.len() < abits.len()
        invariant
            gb.wf(),
            gb.same_source(old(gb)),
            old(gb).pos() <= gb.pos(),
            p == old(gb).pos(),
            step == transitions_step(gb.data(), gb.limit(), *t, sels@, nssf, rows(abits@)),
            items@.len() <= abits.len(),
            repeat(step, p, items@.len() as int) == Ok::<_, CoreError>((rows(items@), gb.pos())),
        t.wf(),
        listed(sels@, abits@.len() as int, 4),
            same_shape(items@, abits@),
        decreases abits.len() - items.len(),
    {
        let ghost before = rows(items@);
        proof {
            lemma_step_err(step, p, items@.len() as int, abits.len() as int);
        }
        assert(rows(abits@)[items@.len() as int] == abits@[items@.len() as int]@);
        let item = read_transitions(gb, t, sels[items.len()], nssf, &abits[items.len()])?;
        items.push(item);
        assert(rows(items@) =~= before.push(item@));
    }
    Ok(items)
}

/// The scale factor that follows index `index`: a difference in a code book,
/// or an index of its own.
pub open spec fn scale_at(d: Seq<u8>, lim: int, q: int, t: CoreTables, sel: usize, index: int) -> Result<
    ((i32, int), int),
    CoreError,
> {
    let table = if sel > 5 { t.scale7@ } else { t.scale6@ };
    let coded = if sel < 5 {
        match vlc_at(t.vlcs.scale_factor@[sel as int]@, d, lim, q) {
            Err(e) => Err(e),
            Ok((v, s)) => Ok((index + v, s)),
        }
    } else if q + sel + 1 > lim {
        short()
    } else {
        Ok((field(d, q, sel + 1), q + sel + 1))
    };
    match coded {
        Err(e) => Err(e),
        Ok((next, s)) => if next < 0 || next >= table.len() {
            Err(CoreError::Invalid("scale factor index"))
        } else {
            Ok(((table[next], next), s))
        },
    }
}

/// Read the scale factor after `index`; the new index comes with it.
pub fn parse_scale(gb: &mut BitReader<'_>, t: &CoreTables, sel: usize, index: usize) -> (r: Result<
    (i32, usize),
    CoreError,
>)
    requires
        old(gb).wf(),
        t.wf(),
        sel < 7,
        index <= t.scale6@.len() || index <= t.scale7@.len(),
    ensures
        final(gb).wf(),
        final(gb).same_source(old(gb)),
        old(gb).pos() <= final(gb).pos(),
        match (
            r,
            scale_at(old(gb).data(), old(gb).limit(), old(gb).pos(), *t, sel, index as int),
        ) {
            (Ok((v, i)), Ok(((want, next), q))) => {
                &&& v == want
                &&& i == next
                &&& final(gb).pos() == q
                &&& 0 <= v <= 0x7f_ffff
                &&& i <= t.scale6@.len() || i <= t.scale7@.len()
            },
            (Err(e), Err(f)) => e == f,
            _ => false,
        },
{
    let next: i128 = if sel < 5 {
        assert(t.vlcs.scale_factor@[sel as int]@.max_len <= 30);
        index as i128 + read_vlc(gb, &t.vlcs.scale_factor[sel])? as i128
    } else {
        rb(gb, sel + 1)? as i128
    };
    let table: &Vec<i32> = if sel > 5 { &t.scale7 } else { &t.scale6 };
    if next < 0 || next >= table.len() as i128 {
        return Err(CoreError::Invalid("scale factor index"));
    }
    let i: usize = next as usize;
    Ok((table[i], i))
}

/// Scale factors of a channel while they are read, and the running index.
pub ghost struct ScaleRun {
    pub scales: Seq<(i32, i32)>,
    pub index: int,
}

/// The scale factors of a band: none without bits, and a second one where the
/// scale changes inside the subframe. Bands past the allocated ones have one.
pub open spec fn scales_step(
    d: Seq<u8>,
    lim: int,
    t: CoreTables,
    sel: usize,
    abits: Seq<i32>,
    transition: Seq<i32>,
) -> spec_fn(int, ScaleRun, int) -> (ScaleRun, Result<int, CoreError>) {
    |i: int, run: ScaleRun, q: int|
        if i < abits.len() && abits[i] == 0 {
            (ScaleRun { scales: run.scales.push((0i32, 0i32)), index: run.index }, Ok(q))
        } else {
            match scale_at(d, lim, q, t, sel, run.index) {
                Err(e) => (run, Err(e)),
                Ok(((a, x), s)) => if i < abits.len() && transition[i] != 0 {
                    match scale_at(d, lim, s, t, sel, x) {
                        Err(e) => (run, Err(e)),
                        Ok(((b, y), w)) => (
                            ScaleRun { scales: run.scales.push((a, b)), index: y },
                            Ok(w),
                        ),
                    }
                } else {
                    (ScaleRun { scales: run.scales.push((a, 0i32)), index: x }, Ok(s))
                },
            }
        }
}

/// The scale factors of a channel with `n` coded bands.
pub open spec fn scales_at(
    d: Seq<u8>,
    lim: int,
    q: int,
    t: CoreTables,
    sel: usize,
    abits: Seq<i32>,
    transition: Seq<i32>,
    n: int,
) -> Result<(Seq<(i32, i32)>, int), CoreError> {
    match thread(
        scales_step(d, lim, t, sel, abits, transition),
        ScaleRun { scales: Seq::empty(), index: 0 },
        q,
        n,
    ) {
        (_, Err(e)) => Err(e),
        (run, Ok(s)) => Ok((run.scales, s)),
    }
}

/// Pairs of scale factors of 23 bits.
pub open spec fn scale_pairs(v: Seq<(i32, i32)>) -> bool {
    forall|i: int|
        0 <= i < v.len() ==> 0 <= (#[trigger] v[i]).0 <= 0x7f_ffff && 0 <= v[i].1 <= 0x7f_ffff
}

fn read_scales(
    gb: &mut BitReader<'_>,
    t: &CoreTables,
    sel: usize,
    abits: &Vec<i32>,
    transition: &Vec<i32>,
    n: usize,
) -> (r: Result<Vec<(i32, i32)>, CoreError>)
    requires
        old(gb).wf(),
        t.wf(),
        sel < 7,
        abits@.len() == transition@.len(),
    ensures
        final(gb).wf(),
        final(gb).same_source(old(gb)),
        old(gb).pos() <= final(gb).pos(),
        match (
            r,
            scales_at(
                old(gb).data(),
                old(gb).limit(),
                old(gb).pos(),
                *t,
                sel,
                abits@,
                transition@,
                n as int,
            ),
        ) {
            (Ok(v), Ok((want, q))) => {
                &&& v@ == want
                &&& v@.len() == n
                &&& scale_pairs(v@)
                &&& final(gb).pos() == q
            },
            (Err(e), Err(f)) => e == f,
            _ => false,
        },
{
    let ghost step = scales_step(gb.data(), gb.limit(), *t, sel, abits@, transition@);
    let ghost first = ScaleRun { scales: Seq::empty(), index: 0 };
    let ghost p = gb.pos();
    let mut v: Vec<(i32, i32)> = Vec::new();
    let mut index: usize = 0;
    while v.len() < n
        invariant
            gb.wf(),
            gb.same_source(old(gb)),
            old(gb).pos() <= gb.pos(),
            p == old(gb).pos(),
            t.wf(),
            sel < 7,
            abits@.len() == transition@.len(),
            step == scales_step(gb.data(), gb.limit(), *t, sel, abits@, transition@),
            first == (ScaleRun { scales: Seq::empty(), index: 0 }),
            v@.len() <= n,
            index <= t.scale6@.len() || index <= t.scale7@.len(),
            scale_pairs(v@),
            thread(step, first, p, v@.len() as int) == (
                ScaleRun { scales: v@, index: index as int },
                Ok::<int, CoreError>(gb.pos()),
            ),
        decreases n - v.len(),
    {
        let band: usize = v.len();
        let ghost before = v@;
        proof {
            lemma_thread_step(step, first, p, band as int, n as int);
        }
        if band < abits.len() && abits[band] == 0 {
            v.push((0, 0));
            assert(v@ =~= before.push((0i32, 0i32)));
        } else {
            let (a, x): (i32, usize) = parse_scale(gb, t, sel, index)?;
            if band < abits.len() && transition[band] != 0 {
                let (b, y): (i32, usize) = parse_scale(gb, t, sel, x)?;
                v.push((a, b));
                index = y;
                assert(v@ =~= before.push((a, b)));
            } else {
                v.push((a, 0));
                index = x;
                assert(v@ =~= before.push((a, 0i32)));
            }
        }
    }
    Ok(v)
}

/// Bands of a channel that carry scale factors.
pub open spec fn scaled_bands(start: usize, count: usize) -> int {
    if start < count { count as int } else { start as int }
}

pub open spec fn scale_rows_step(
    d: Seq<u8>,
    lim: int,
    t: CoreTables,
    set: SetModel,
    abits: Seq<Seq<i32>>,
    transition: Seq<Seq<i32>>,
) -> spec_fn(int, int) -> Result<(Seq<(i32, i32)>, int), CoreError> {
    |i: int, q: int|
        scales_at(
            d,
            lim,
            q,
            t,
            set.scale_sel[i],
            abits[i],
            transition[i],
            scaled_bands(set.vq_start[i], set.nsubbands[i]),
        )
}

pub open spec fn scale_rows_wf(v: Seq<Vec<(i32, i32)>>, set: SetModel) -> bool {
    forall|i: int|
        0 <= i < v.len() ==> (#[trigger] v[i])@.len() == scaled_bands(
            set.vq_start[i],
            set.nsubbands[i],
        ) && scale_pairs(v[i]@)
}

fn read_scale_rows(gb: &mut BitReader<'_>, t: &CoreTables, set: &SetCoding, n: usize, total: usize, abits: &Vec<Vec<i32>>, transition: &Vec<Vec<i32>>) -> (r: Result<Vec<Vec<(i32, i32)>>, CoreError>)
    requires
        old(gb).wf(),
        t.wf(),
        set.wf(n as int, total as int),
        abits@.len() == n,
        transition@.len() == n,
        same_shape(transition@, abits@),
    ensures
        final(gb).wf(),
        final(gb).same_source(old(gb)),
        old(gb).pos() <= final(gb).pos(),
        match (r, repeat(scale_rows_step(old(gb).data(), old(gb).limit(), *t, set@, rows(abits@), rows(transition@)), old(gb).pos(), n as int)) {
            (Ok(v), Ok((want, q))) => rows(v@) == want && v@.len() == n && final(gb).pos() == q,
            (Err(e), Err(f)) => e == f,
            _ => false,
        },
        r matches Ok(v) ==> scale_rows_wf(v@, set@),
{
    let ghost step = scale_rows_step(gb.data(), gb.limit(), *t, set@, rows(abits@), rows(transition@));
    let ghost p = gb.pos();
    let mut items: Vec<Vec<(i32, i32)>> = Vec::new();
    assert(rows(items@) =~= Seq::empty());
    while items.len() < n
        invariant
            gb.wf(),
            gb.same_source(old(gb)),
            old(gb).pos() <= gb.pos(),
            p == old(gb).pos(),
            step == scale_rows_step(gb.data(), gb.limit(), *t, set@, rows(abits@), rows(transition@)),
            items@.len() <= n,
            repeat(step, p, items@.len() as int) == Ok::<_, CoreError>((rows(items@), gb.pos())),
        t.wf(),
        set.wf(n as int, total as int),
        abits@.len() == n,
        transition@.len() == n,
        same_shape(transition@, abits@),
            scale_rows_wf(items@, set@),
        decreases n - items.len(),
    {
        let ghost before = rows(items@);
        proof {
            lemma_step_err(step, p, items@.len() as int, n as int);
        }
        assert(rows(abits@)[items@.len() as int] == abits@[items@.len() as int]@);
        assert(rows(transition@)[items@.len() as int] == transition@[items@.len() as int]@);
        let start: usize = set.vq_start[items.len()];
        let count: usize = if start < set.nsubbands[items.len()] {
            set.nsubbands[items.len()]
        } else {
            start
        };
        let item = read_scales(
            gb,
            t,
            set.scale_sel[items.len()],
            &abits[items.len()],
            &transition[items.len()],
            count,
        )?;
        items.push(item);
        assert(rows(items@) =~= before.push(item@));
    }
    Ok(items)
}

/// The code book of a channel's joint scale factors, where it has them.
pub open spec fn joint_sel_at(d: Seq<u8>, lim: int, q: int, joint: usize) -> Result<
    (usize, int),
    CoreError,
> {
    if joint == 0 { Ok((0usize, q)) } else { select_at(d, lim, q, "joint scale codebook") }
}

pub open spec fn joint_sel_step(d: Seq<u8>, lim: int, joint: Seq<usize>) -> spec_fn(int, int) -> Result<
    (usize, int),
    CoreError,
> {
    |i: int, q: int| joint_sel_at(d, lim, q, joint[i])
}

fn read_joint_sel(gb: &mut BitReader<'_>, joint: usize) -> (r: Result<usize, CoreError>)
    requires
        old(gb).wf(),
    ensures
        final(gb).wf(),
        final(gb).same_source(old(gb)),
        parsed(
            r,
            joint_sel_at(old(gb).data(), old(gb).limit(), old(gb).pos(), joint),
            final(gb).pos(),
        ),
        old(gb).pos() <= final(gb).pos(),
        r matches Ok(v) ==> v < 7,
{
    if joint == 0 {
        return Ok(0);
    }
    read_select(gb, "joint scale codebook")
}

fn read_joint_sels(gb: &mut BitReader<'_>, joint: &Vec<usize>) -> (r: Result<Vec<usize>, CoreError>)
    requires
        old(gb).wf(),
    ensures
        final(gb).wf(),
        final(gb).same_source(old(gb)),
        old(gb).pos() <= final(gb).pos(),
        match (r, repeat(joint_sel_step(old(gb).data(), old(gb).limit(), joint@), old(gb).pos(), joint.len() as int)) {
            (Ok(v), Ok((want, q))) => v@ == want && v@.len() == joint.len() && final(gb).pos() == q,
            (Err(e), Err(f)) => e == f,
            _ => false,
        },
        r matches Ok(v) ==> listed(v@, joint@.len() as int, 7),
{
    let ghost step = joint_sel_step(gb.data(), gb.limit(), joint@);
    let ghost p = gb.pos();
    let mut items: Vec<usize> = Vec::new();
    while items.len() < joint.len()
        invariant
            gb.wf(),
            gb.same_source(old(gb)),
            old(gb).pos() <= gb.pos(),
            p == old(gb).pos(),
            step == joint_sel_step(gb.data(), gb.limit(), joint@),
            items@.len() <= joint.len(),
            repeat(step, p, items@.len() as int) == Ok::<_, CoreError>((items@, gb.pos())),
            listed(items@, items@.len() as int, 7),
        decreases joint.len() - items.len(),
    {
        let ghost before = items@;
        proof {
            lemma_step_err(step, p, items@.len() as int, joint.len() as int);
        }
        let item = read_joint_sel(gb, joint[items.len()])?;
        items.push(item);
        assert(items@ =~= before.push(item));
    }
    Ok(items)
}

/// The scale of a band that is taken from another channel.
pub open spec fn joint_scale_at(d: Seq<u8>, lim: int, q: int, t: CoreTables, sel: usize) -> Result<
    (i32, int),
    CoreError,
> {
    let coded = if sel < 5 {
        vlc_at(t.vlcs.scale_factor@[sel as int]@, d, lim, q)
    } else if q + sel + 1 > lim {
        short()
    } else {
        Ok((field(d, q, sel + 1) as i32, q + sel + 1))
    };
    match coded {
        Err(e) => Err(e),
        Ok((v, s)) => if v + 64 < 0 || v + 64 >= t.joint_scale@.len() {
            Err(CoreError::Invalid("joint scale index"))
        } else {
            Ok((t.joint_scale@[v + 64], s))
        },
    }
}

pub open spec fn joint_scale_step(d: Seq<u8>, lim: int, t: CoreTables, sel: usize) -> spec_fn(int, int) -> Result<
    (i32, int),
    CoreError,
> {
    |i: int, q: int| joint_scale_at(d, lim, q, t, sel)
}

pub fn parse_joint_scale(gb: &mut BitReader<'_>, t: &CoreTables, sel: usize) -> (r: Result<i32, CoreError>)
    requires
        old(gb).wf(),
        t.wf(),
        sel < 7,
    ensures
        final(gb).wf(),
        final(gb).same_source(old(gb)),
        parsed(
            r,
            joint_scale_at(old(gb).data(), old(gb).limit(), old(gb).pos(), *t, sel),
            final(gb).pos(),
        ),
        old(gb).pos() <= final(gb).pos(),
{
    let code: i32 = if sel < 5 {
        assert(t.vlcs.scale_factor@[sel as int]@.max_len <= 30);
        read_vlc(gb, &t.vlcs.scale_factor[sel])?
    } else {
        rb(gb, sel + 1)? as i32
    };
    let index: i128 = code as i128 + 64;
    if index < 0 || index >= t.joint_scale.len() as i128 {
        return Err(CoreError::Invalid("joint scale index"));
    }
    Ok(t.joint_scale[index as usize])
}

fn read_joint_scales(gb: &mut BitReader<'_>, t: &CoreTables, sel: usize, n: usize) -> (r: Result<Vec<i32>, CoreError>)
    requires
        old(gb).wf(),
        t.wf(),
        sel < 7,
    ensures
        final(gb).wf(),
        final(gb).same_source(old(gb)),
        old(gb).pos() <= final(gb).pos(),
        match (r, repeat(joint_scale_step(old(gb).data(), old(gb).limit(), *t, sel), old(gb).pos(), n as int)) {
            (Ok(v), Ok((want, q))) => v@ == want && v@.len() == n && final(gb).pos() == q,
            (Err(e), Err(f)) => e == f,
            _ => false,
        },
{
    let ghost step = joint_scale_step(gb.data(), gb.limit(), *t, sel);
    let ghost p = gb.pos();
    let mut items: Vec<i32> = Vec::new();
    while items.len() < n
        invariant
            gb.wf(),
            gb.same_source(old(gb)),
            old(gb).pos() <= gb.pos(),
            p == old(gb).pos(),
            step == joint_scale_step(gb.data(), gb.limit(), *t, sel),
            items@.len() <= n,
            repeat(step, p, items@.len() as int) == Ok::<_, CoreError>((items@, gb.pos())),
        t.wf(),
        sel < 7,
        decreases n - items.len(),
    {
        let ghost before = items@;
        proof {
            lemma_step_err(step, p, items@.len() as int, n as int);
        }
        let item = parse_joint_scale(gb, t, sel)?;
        items.push(item);
        assert(items@ =~= before.push(item));
    }
    Ok(items)
}

/// Bands that a channel of `count` bands takes from channel `joint - 1`.
pub open spec fn joint_bands(all: Seq<usize>, joint: usize, count: usize) -> int {
    if joint == 0 || all[joint - 1] <= count { 0 } else { all[joint - 1] - count }
}

pub open spec fn joint_rows_step(
    d: Seq<u8>,
    lim: int,
    t: CoreTables,
    set: SetModel,
    sels: Seq<usize>,
    all: Seq<usize>,
) -> spec_fn(int, int) -> Result<(Seq<i32>, int), CoreError> {
    |i: int, q: int|
        repeat(
            joint_scale_step(d, lim, t, sels[i]),
            q,
            joint_bands(all, set.joint[i], set.nsubbands[i]),
        )
}

pub open spec fn joint_rows_wf(v: Seq<Vec<i32>>, set: SetModel, all: Seq<usize>) -> bool {
    forall|i: int|
        0 <= i < v.len() ==> (#[trigger] v[i])@.len() == joint_bands(
            all,
            set.joint[i],
            set.nsubbands[i],
        )
}

pub fn count_joint_bands(all: &Vec<usize>, joint: usize, count: usize) -> (r: usize)
    requires
        joint <= all@.len(),
    ensures
        r == joint_bands(all@, joint, count),
{
    if joint == 0 || all[joint - 1] <= count {
        0
    } else {
        all[joint - 1] - count
    }
}

fn read_joint_rows(gb: &mut BitReader<'_>, t: &CoreTables, set: &SetCoding, n: usize, total: usize, sels: &Vec<usize>, all: &Vec<usize>) -> (r: Result<Vec<Vec<i32>>, CoreError>)
    requires
        old(gb).wf(),
        t.wf(),
        set.wf(n as int, total as int),
        listed(sels@, n as int, 7),
        total <= all@.len(),
    ensures
        final(gb).wf(),
        final(gb).same_source(old(gb)),
        old(gb).pos() <= final(gb).pos(),
        match (r, repeat(joint_rows_step(old(gb).data(), old(gb).limit(), *t, set@, sels@, all@), old(gb).pos(), n as int)) {
            (Ok(v), Ok((want, q))) => rows(v@) == want && v@.len() == n && final(gb).pos() == q,
            (Err(e), Err(f)) => e == f,
            _ => false,
        },
        r matches Ok(v) ==> joint_rows_wf(v@, set@, all@),
{
    let ghost step = joint_rows_step(gb.data(), gb.limit(), *t, set@, sels@, all@);
    let ghost p = gb.pos();
    let mut items: Vec<Vec<i32>> = Vec::new();
    assert(rows(items@) =~= Seq::empty());
    while items.len() < n
        invariant
            gb.wf(),
            gb.same_source(old(gb)),
            old(gb).pos() <= gb.pos(),
            p == old(gb).pos(),
            step == joint_rows_step(gb.data(), gb.limit(), *t, set@, sels@, all@),
            items@.len() <= n,
            repeat(step, p, items@.len() as int) == Ok::<_, CoreError>((rows(items@), gb.pos())),
        t.wf(),
        set.wf(n as int, total as int),
        listed(sels@, n as int, 7),
        total <= all@.len(),
            joint_rows_wf(items@, set@, all@),
        decreases n - items.len(),
    {
        let ghost before = rows(items@);
        proof {
            lemma_step_err(step, p, items@.len() as int, n as int);
        }
        let count: usize = count_joint_bands(all, set.joint[items.len()], set.nsubbands[items.len()]);
        let item = read_joint_scales(gb, t, sels[items.len()], count)?;
        items.push(item);
        assert(rows(items@) =~= before.push(item@));
    }
    Ok(items)
}

/// What a subframe's header codes for the channels of one set.
#[derive(Clone, Debug)]
pub struct SubframeHeader {
    /// Which bands are predicted.
    pub modes: Vec<Vec<bool>>,
    /// Their predictors.
    pub predictors: Vec<Vec<usize>>,
    /// Bit allocation indices of the bands below the vector-coded ones.
    pub abits: Vec<Vec<i32>>,
    /// Subsubframe at which the second scale factor takes over; 0 for never.
    pub transition: Vec<Vec<i32>>,
    pub scales: Vec<Vec<(i32, i32)>>,
    /// Scales of the bands taken from another channel.
    pub joint: Vec<Vec<i32>>,
}

pub ghost struct SubframeModel {
    pub modes: Seq<Seq<bool>>,
    pub predictors: Seq<Seq<usize>>,
    pub abits: Seq<Seq<i32>>,
    pub transition: Seq<Seq<i32>>,
    pub scales: Seq<Seq<(i32, i32)>>,
    pub joint: Seq<Seq<i32>>,
}

impl View for SubframeHeader {
    type V = SubframeModel;

    open spec fn view(&self) -> SubframeModel {
        SubframeModel {
            modes: rows(self.modes@),
            predictors: rows(self.predictors@),
            abits: rows(self.abits@),
            transition: rows(self.transition@),
            scales: rows(self.scales@),
            joint: rows(self.joint@),
        }
    }
}

impl SubframeHeader {
    pub open spec fn wf(&self, set: SetModel, n: int, all: Seq<usize>) -> bool {
        &&& self.modes@.len() == n && shaped(self.modes@, set.nsubbands)
        &&& self.predictors@.len() == n && predictors_wf(self.predictors@, self.modes@)
        &&& self.abits@.len() == n && alloc_rows_wf(self.abits@, set.vq_start)
        &&& self.transition@.len() == n && same_shape(self.transition@, self.abits@)
        &&& self.scales@.len() == n && scale_rows_wf(self.scales@, set)
        &&& self.joint@.len() == n && joint_rows_wf(self.joint@, set, all)
    }
}

/// The header of a subframe of `nssf` subsubframes for a set of `n` channels;
/// `all` are the band counts of all channels of the frame.
pub open spec fn subframe_header(
    d: Seq<u8>,
    lim: int,
    p: int,
    t: CoreTables,
    set: SetModel,
    n: int,
    all: Seq<usize>,
    nssf: usize,
    crc: bool,
) -> Result<(SubframeModel, int), CoreError> {
    match repeat(modes_step(d, lim, set.nsubbands), p, n) {
        Err(e) => Err(e),
        Ok((modes, a)) => match repeat(predictors_step(d, lim, modes), a, n) {
            Err(e) => Err(e),
            Ok((predictors, b)) => match repeat(
                allocs_step(d, lim, t, set.alloc_sel, set.vq_start),
                b,
                n,
            ) {
                Err(e) => Err(e),
                Ok((abits, c)) => match repeat(
                    transitions_step(d, lim, t, set.transition_sel, nssf, abits),
                    c,
                    n,
                ) {
                    Err(e) => Err(e),
                    Ok((transition, f)) => subframe_scales(
                        d,
                        lim,
                        f,
                        t,
                        set,
                        n,
                        all,
                        crc,
                        SubframeModel {
                            modes,
                            predictors,
                            abits,
                            transition,
                            scales: Seq::empty(),
                            joint: Seq::empty(),
                        },
                    ),
                },
            },
        },
    }
}

/// The scale factors that end a subframe's header, and a checksum that is not
/// read.
pub open spec fn subframe_scales(
    d: Seq<u8>,
    lim: int,
    p: int,
    t: CoreTables,
    set: SetModel,
    n: int,
    all: Seq<usize>,
    crc: bool,
    head: SubframeModel,
) -> Result<(SubframeModel, int), CoreError> {
    match repeat(scale_rows_step(d, lim, t, set, head.abits, head.transition), p, n) {
        Err(e) => Err(e),
        Ok((scales, a)) => match repeat(joint_sel_step(d, lim, set.joint), a, n) {
            Err(e) => Err(e),
            Ok((sels, b)) => match repeat(joint_rows_step(d, lim, t, set, sels, all), b, n) {
                Err(e) => Err(e),
                Ok((joint, c)) => if crc && c + 16 > lim {
                    short()
                } else {
                    Ok((SubframeModel { scales, joint, ..head }, if crc { c + 16 } else { c }))
                },
            },
        },
    }
}

pub fn parse_subframe_header(
    gb: &mut BitReader<'_>,
    t: &CoreTables,
    set: &SetCoding,
    n: usize,
    total: usize,
    all: &Vec<usize>,
    nssf: usize,
    crc: bool,
) -> (r: Result<SubframeHeader, CoreError>)
    requires
        old(gb).wf(),
        t.wf(),
        set.wf(n as int, total as int),
        total <= all@.len(),
    ensures
        final(gb).wf(),
        final(gb).same_source(old(gb)),
        old(gb).pos() <= final(gb).pos(),
        parsed_view(
            r,
            subframe_header(
                old(gb).data(),
                old(gb).limit(),
                old(gb).pos(),
                *t,
                set@,
                n as int,
                all@,
                nssf,
                crc,
            ),
            final(gb).pos(),
        ),
        r matches Ok(h) ==> h.wf(set@, n as int, all@),
{
    let modes: Vec<Vec<bool>> = read_modes(gb, &set.nsubbands)?;
    let predictors: Vec<Vec<usize>> = read_predictor_rows(gb, &modes)?;
    let abits: Vec<Vec<i32>> = read_alloc_rows(gb, t, &set.alloc_sel, &set.vq_start)?;
    let transition: Vec<Vec<i32>> = read_transition_rows(gb, t, &set.transition_sel, nssf, &abits)?;
    let scales: Vec<Vec<(i32, i32)>> = read_scale_rows(gb, t, set, n, total, &abits, &transition)?;
    let sels: Vec<usize> = read_joint_sels(gb, &set.joint)?;
    let joint: Vec<Vec<i32>> = read_joint_rows(gb, t, set, n, total, &sels, all)?;
    if crc {
        rb(gb, 16)?;
    }
    Ok(SubframeHeader { modes, predictors, abits, transition, scales, joint })
}

} // verus!
