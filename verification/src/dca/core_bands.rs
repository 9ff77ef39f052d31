//! From codes to subband samples: vector-coded and low-frequency samples,
//! prediction, and bands taken from another channel.

use vstd::prelude::*;
use crate::bits::{field, BitReader};
use crate::grammar::{lemma_thread_step, repeat, rows, thread, threaded};
use super::core_audio::{
    parse_subsubs, read_signed, row_of, row_put, shape, signed_step, subsub_step, written,
    AudioContext, AudioModel,
};
use super::core_header::{listed, number_step, rb, read_numbers, short, CoreError};
use super::core_subframe::{joint_bands, scaled_bands};
use super::core_tables::CoreTables;
use super::fixed::{clip23, clipped, low32, mul_norm, norm, rounded, scaled, wrap32};

verus! {

/// A vector-coded band from `at` on.
pub open spec fn hf_row(row: Seq<i32>, at: int, coeff: Seq<i8>, scale: int, len: int) -> Seq<i32> {
    written(row, at, Seq::new(len as nat, |j: int| clipped((coeff[j] * scale + 8) / 16) as i32))
}

fn write_hf(row: &mut Vec<i32>, at: usize, coeff: &[i8; 32], scale: i32, len: usize)
    requires
        at + len <= old(row)@.len(),
        len <= 32,
        0 <= scale <= 0x7f_ffff,
    ensures
        final(row)@ == hf_row(old(row)@, at as int, coeff@, scale as int, len as int),
{
    let n: usize = row.len();
    let ghost vals = Seq::new(len as nat, |j: int| clipped((coeff@[j] * scale + 8) / 16) as i32);
    let mut j: usize = 0;
    assert(row@ =~= written(old(row)@, at as int, vals.subrange(0, 0)));
    while j < len
        invariant
            j <= len <= 32,
            n == row@.len(),
            n == old(row)@.len(),
            at + len <= n,
            0 <= scale <= 0x7f_ffff,
            vals == Seq::new(len as nat, |j: int| clipped((coeff@[j] * scale + 8) / 16) as i32),
            row@ == written(old(row)@, at as int, vals.subrange(0, j as int)),
        decreases len - j,
    {
        let c: i32 = coeff[j] as i32;
        proof {
            assert(-0x4000_0000 <= c * scale <= 0x4000_0000) by (nonlinear_arith)
                requires
                    -128 <= c <= 127,
                    0 <= scale <= 0x7f_ffff,
            ;
        }
        let v: i64 = crate::bits::shift_right((c * scale + 8) as i64, 4);
        row.set(at + j, clip23(v as i32));
        j = j + 1;
        assert(row@ =~= written(old(row)@, at as int, vals.subrange(0, j as int)));
    }
    assert(vals.subrange(0, len as int) =~= vals);
}

/// Vector-coded bands of a channel.
pub open spec fn vq_count(start: usize, count: usize) -> int {
    if start < count { count - start } else { 0 }
}

/// The first `k` vector-coded bands of a channel, decoded.
pub open spec fn hf_bands(
    m: AudioModel,
    s: Seq<Seq<i32>>,
    ch: int,
    index: Seq<usize>,
    at: int,
    len: int,
    k: int,
) -> Seq<Seq<i32>>
    decreases k,
{
    if k <= 0 {
        s
    } else {
        let t = hf_bands(m, s, ch, index, at, len, k - 1);
        let band = m.set.vq_start[ch] + k - 1;
        let r = row_of(m.base + ch, band);
        row_put(
            t,
            r,
            hf_row(
                t[r],
                at,
                m.tables.high_freq_vq@[index[k - 1] as int]@,
                m.head.scales[ch][band].0 as int,
                len,
            ),
        )
    }
}

fn decode_hf(
    c: &AudioContext<'_>,
    samples: &mut Vec<Vec<i32>>,
    npcm: usize,
    ch: usize,
    index: &Vec<usize>,
    at: usize,
    len: usize,
    Ghost(all): Ghost<Seq<usize>>,
)
    requires
        c.wf(all),
        shape(old(samples)@, npcm as int),
        ch < c.n,
        listed(index@, vq_count(c.set@.vq_start[ch as int], c.set@.nsubbands[ch as int]), 1024),
        len <= 32,
        at + len <= 4 + npcm,
    ensures
        shape(final(samples)@, npcm as int),
        forall|d: Seq<u8>, lim: int|
            rows(final(samples)@) == hf_bands(
                #[trigger] c.model(d, lim),
                rows(old(samples)@),
                ch as int,
                index@,
                at as int,
                len as int,
                index@.len() as int,
            ),
{
    let ghost m = c.model(Seq::empty(), 0);
    let start: usize = c.set.vq_start[ch];
    let n: usize = index.len();
    let mut k: usize = 0;
    while k < n
        invariant
            c.wf(all),
            shape(samples@, npcm as int),
            m == c.model(Seq::empty(), 0),
            ch < c.n,
            n == index@.len(),
            k <= n,
            start == c.set@.vq_start[ch as int],
            listed(index@, vq_count(start, c.set@.nsubbands[ch as int]), 1024),
            len <= 32,
            at + len <= 4 + npcm,
            rows(samples@) == hf_bands(
                m,
                rows(old(samples)@),
                ch as int,
                index@,
                at as int,
                len as int,
                k as int,
            ),
        decreases n - k,
    {
        let ghost before = rows(samples@);
        assert(c.set@.nsubbands[ch as int] < 33);
        let band: usize = start + k;
        let row: usize = 32 * (c.base + ch) + band;
        assert(c.head@.scales[ch as int] == c.head.scales@[ch as int]@);
        assert(c.head.scales@[ch as int]@.len() == scaled_bands(start, c.set@.nsubbands[ch as int]));
        let scale: i32 = c.head.scales[ch][band].0;
        assert(0 <= scale <= 0x7f_ffff);
        assert(index@[k as int] < 1024);
        write_hf(&mut samples[row], at, &c.tables.high_freq_vq[index[k]], scale, len);
        assert(rows(samples@) =~= before.update(row as int, samples@[row as int]@));
        k = k + 1;
    }
    proof {
        assert forall|d: Seq<u8>, lim: int|
            rows(samples@) == hf_bands(
                #[trigger] c.model(d, lim),
                rows(old(samples)@),
                ch as int,
                index@,
                at as int,
                len as int,
                n as int,
            ) by {
            lemma_hf_bits(
                m,
                c.model(d, lim),
                rows(old(samples)@),
                ch as int,
                index@,
                at as int,
                len as int,
                n as int,
            );
        }
    }
}

/// The bits that a model was read from do not matter once they are read.
proof fn lemma_hf_bits(
    a: AudioModel,
    b: AudioModel,
    s: Seq<Seq<i32>>,
    ch: int,
    index: Seq<usize>,
    at: int,
    len: int,
    k: int,
)
    requires
        a == (AudioModel { d: a.d, lim: a.lim, ..b }),
    ensures
        hf_bands(a, s, ch, index, at, len, k) == hf_bands(b, s, ch, index, at, len, k),
    decreases k,
{
    if k > 0 {
        lemma_hf_bits(a, b, s, ch, index, at, len, k - 1);
    }
}

/// The vector-coded bands of a channel.
pub open spec fn hf_step(m: AudioModel, at: int, len: int) -> spec_fn(int, Seq<Seq<i32>>, int) -> (
    Seq<Seq<i32>>,
    Result<int, CoreError>,
) {
    |ch: int, s: Seq<Seq<i32>>, q: int|
        match repeat(
            number_step(m.d, m.lim, 10, 0),
            q,
            vq_count(m.set.vq_start[ch], m.set.nsubbands[ch]),
        ) {
            Err(e) => (s, Err(e)),
            Ok((index, w)) => (
                hf_bands(m, s, ch, index, at, len, vq_count(m.set.vq_start[ch], m.set.nsubbands[ch])),
                Ok(w),
            ),
        }
}

fn parse_hf(
    gb: &mut BitReader<'_>,
    c: &AudioContext<'_>,
    samples: &mut Vec<Vec<i32>>,
    npcm: usize,
    at: usize,
    len: usize,
    Ghost(all): Ghost<Seq<usize>>,
) -> (r: Result<(), CoreError>)
    requires
        old(gb).wf(),
        c.wf(all),
        shape(old(samples)@, npcm as int),
        len <= 32,
        at + len <= 4 + npcm,
    ensures
        final(gb).wf(),
        final(gb).same_source(old(gb)),
        old(gb).pos() <= final(gb).pos(),
        shape(final(samples)@, npcm as int),
        threaded(r, rows(final(samples)@), final(gb).pos(), thread(
            hf_step(c.model(old(gb).data(), old(gb).limit()), at as int, len as int),
            rows(old(samples)@),
            old(gb).pos(),
            c.n as int,
        )),
{
    let ghost m = c.model(gb.data(), gb.limit());
    let ghost step = hf_step(m, at as int, len as int);
    let ghost first = rows(samples@);
    let ghost p = gb.pos();
    let n: usize = c.n;
    let mut k: usize = 0;
    while k < n
        invariant
            gb.wf(),
            gb.same_source(old(gb)),
            old(gb).pos() <= gb.pos(),
            m == c.model(gb.data(), gb.limit()),
            step == hf_step(m, at as int, len as int),
            first == rows(old(samples)@),
            p == old(gb).pos(),
            c.wf(all),
            shape(samples@, npcm as int),
            k <= n,
            thread(step, first, p, k as int) == (rows(samples@), Ok::<int, CoreError>(gb.pos())),
            len <= 32,
            at + len <= 4 + npcm,
            n == c.n,
        decreases n - k,
    {
        proof {
            lemma_thread_step(step, first, p, k as int, n as int);
        }
        let start: usize = c.set.vq_start[k];
        let bands: usize = c.set.nsubbands[k];
        assert(bands < 33);
        let count: usize = if start < bands { bands - start } else { 0 };
        let index: Vec<usize> = read_numbers(gb, 10, 0, count)?;
        decode_hf(c, samples, npcm, k, &index, at, len, Ghost(all));
        k = k + 1;
    }
    Ok(())
}

/// Low-frequency samples of a subframe: codes of eight bits under one scale.
pub open spec fn lfe_at(d: Seq<u8>, lim: int, p: int, t: CoreTables, n: int) -> Result<
    (Seq<i32>, int),
    CoreError,
> {
    if n == 0 {
        Ok((Seq::empty(), p))
    } else {
        match repeat(signed_step(d, lim, 8), p, n) {
            Err(e) => Err(e),
            Ok((codes, q)) => if q + 8 > lim {
                short()
            } else if field(d, q, 8) >= t.scale7@.len() {
                Err(CoreError::Invalid("lfe scale"))
            } else {
                Ok((lfe_values(codes, t.scale7@[field(d, q, 8)] as int, n), q + 8))
            },
        }
    }
}

/// Codes times 0.035 of their scale.
pub open spec fn lfe_values(codes: Seq<i32>, scale: int, n: int) -> Seq<i32> {
    Seq::new(
        n as nat,
        |i: int| clipped(wrap32(codes[i] * scaled(4_697_620, scale, 23) / 16)) as i32,
    )
}

fn parse_lfe(gb: &mut BitReader<'_>, t: &CoreTables, lfe: &mut Vec<i32>, at: usize, n: usize) -> (r: Result<
    (),
    CoreError,
>)
    requires
        old(gb).wf(),
        t.wf(),
        at + n <= old(lfe)@.len(),
    ensures
        final(gb).wf(),
        final(gb).same_source(old(gb)),
        old(gb).pos() <= final(gb).pos(),
        match (r, lfe_at(old(gb).data(), old(gb).limit(), old(gb).pos(), *t, n as int)) {
            (Ok(_), Ok((v, q))) => {
                &&& final(gb).pos() == q
                &&& final(lfe)@ == written(old(lfe)@, at as int, v)
            },
            (Err(e), Err(f)) => e == f && final(lfe)@ == old(lfe)@,
            _ => false,
        },
{
    if n == 0 {
        assert(lfe@ =~= written(lfe@, at as int, Seq::empty()));
        return Ok(());
    }
    let codes: Vec<i32> = read_signed(gb, 8, n)?;
    let index: usize = rb(gb, 8)? as usize;
    if index >= t.scale7.len() {
        return Err(CoreError::Invalid("lfe scale"));
    }
    let scale: i32 = mul_norm(4_697_620, t.scale7[index], 23);
    let ghost vals = lfe_values(codes@, t.scale7@[index as int] as int, n as int);
    let total: usize = lfe.len();
    let mut i: usize = 0;
    assert(lfe@ =~= written(old(lfe)@, at as int, vals.subrange(0, 0)));
    while i < n
        invariant
            i <= n,
            total == lfe@.len(),
            total == old(lfe)@.len(),
            at + n <= total,
            codes@.len() == n,
            index < t.scale7@.len(),
            scale == scaled(4_697_620, t.scale7@[index as int] as int, 23),
            vals == lfe_values(codes@, t.scale7@[index as int] as int, n as int),
            lfe@ == written(old(lfe)@, at as int, vals.subrange(0, i as int)),
            forall|i: int| 0 <= i < codes@.len() ==> -128 <= #[trigger] codes@[i] < 128,
        decreases n - i,
    {
        let a: i32 = codes[i];
        proof {
            assert(-0x100_0000_0000 <= a * scale <= 0x100_0000_0000) by (nonlinear_arith)
                requires
                    -128 <= a < 128,
                    -0x8000_0000 <= scale <= 0x7fff_ffff,
            ;
        }
        lfe.set(at + i, clip23(low32(crate::bits::shift_right(a as i64 * scale as i64, 4))));
        i = i + 1;
        assert(lfe@ =~= written(old(lfe)@, at as int, vals.subrange(0, i as int)));
    }
    assert(vals.subrange(0, n as int) =~= vals);
    Ok(())
}

/// What the four samples from `at` on predict of the next.
pub open spec fn predicted(coeff: Seq<i16>, row: Seq<i32>, at: int) -> int {
    clipped(
        wrap32(
            rounded(
                row[at + 3] * coeff[0] + row[at + 2] * coeff[1] + row[at + 1] * coeff[2] + row[at]
                    * coeff[3],
                13,
            ),
        ),
    )
}

pub fn adpcm_predict(coeff: &[i16; 4], row: &Vec<i32>, at: usize) -> (r: i32)
    requires
        at + 4 <= row@.len(),
    ensures
        r == predicted(coeff@, row@, at as int),
        -0x80_0000 <= r <= 0x7f_ffff,
{
    let n: usize = row.len();
    let a: i64 = tap(row[at + 3], coeff[0]);
    let b: i64 = tap(row[at + 2], coeff[1]);
    let c: i64 = tap(row[at + 1], coeff[2]);
    let d: i64 = tap(row[at], coeff[3]);
    clip23(norm(a + b + c + d, 13))
}

fn tap(x: i32, c: i16) -> (r: i64)
    ensures
        r == x * c,
        -0x8000_0000_0000 <= r <= 0x8000_0000_0000,
{
    proof {
        assert(-0x8000_0000_0000 <= x * c <= 0x8000_0000_0000) by (nonlinear_arith)
            requires
                -0x8000_0000 <= x <= 0x7fff_ffff,
                -0x8000 <= c <= 0x7fff,
        ;
    }
    x as i64 * c as i64
}

/// `row` with the predictions added to its first `n` samples after `pos`.
pub open spec fn adpcm_row(row: Seq<i32>, coeff: Seq<i16>, pos: int, n: int) -> Seq<i32>
    decreases n,
{
    if n <= 0 {
        row
    } else {
        let r = adpcm_row(row, coeff, pos, n - 1);
        let at = pos + n - 1;
        r.update(4 + at, clipped(r[4 + at] + predicted(coeff, r, at)) as i32)
    }
}

fn clip_sum(a: i32, b: i32) -> (r: i32)
    ensures
        r == clipped(a + b),
{
    let sum: i64 = a as i64 + b as i64;
    if sum < -0x80_0000 {
        -0x80_0000
    } else if sum > 0x7f_ffff {
        0x7f_ffff
    } else {
        sum as i32
    }
}

fn add_predictions(row: &mut Vec<i32>, coeff: &[i16; 4], pos: usize, len: usize)
    requires
        4 + pos + len <= old(row)@.len(),
    ensures
        final(row)@ == adpcm_row(old(row)@, coeff@, pos as int, len as int),
        final(row)@.len() == old(row)@.len(),
{
    let total: usize = row.len();
    let mut j: usize = 0;
    while j < len
        invariant
            j <= len,
            total == row@.len(),
            total == old(row)@.len(),
            4 + pos + len <= total,
            row@ == adpcm_row(old(row)@, coeff@, pos as int, j as int),
        decreases len - j,
    {
        let x: i32 = adpcm_predict(coeff, row, pos + j);
        let v: i32 = clip_sum(row[4 + pos + j], x);
        row.set(4 + pos + j, v);
        j = j + 1;
    }
}

/// The first `k` bands of a channel after prediction.
pub open spec fn adpcm_bands(m: AudioModel, s: Seq<Seq<i32>>, ch: int, pos: int, len: int, k: int) -> Seq<
    Seq<i32>,
>
    decreases k,
{
    if k <= 0 {
        s
    } else {
        let t = adpcm_bands(m, s, ch, pos, len, k - 1);
        let r = row_of(m.base + ch, k - 1);
        if m.head.modes[ch][k - 1] {
            row_put(
                t,
                r,
                adpcm_row(t[r], m.tables.adpcm@[m.head.predictors[ch][k - 1] as int]@, pos, len),
            )
        } else {
            t
        }
    }
}

/// The first `k` channels after prediction.
pub open spec fn adpcm_channels(m: AudioModel, s: Seq<Seq<i32>>, pos: int, len: int, k: int) -> Seq<
    Seq<i32>,
>
    decreases k,
{
    if k <= 0 {
        s
    } else {
        adpcm_bands(
            m,
            adpcm_channels(m, s, pos, len, k - 1),
            k - 1,
            pos,
            len,
            m.head.modes[k - 1].len() as int,
        )
    }
}

fn inverse_adpcm(
    c: &AudioContext<'_>,
    samples: &mut Vec<Vec<i32>>,
    npcm: usize,
    ch: usize,
    pos: usize,
    len: usize,
    Ghost(all): Ghost<Seq<usize>>,
    Ghost(m): Ghost<AudioModel>,
)
    requires
        c.wf(all),
        m == c.model(m.d, m.lim),
        shape(old(samples)@, npcm as int),
        ch < c.n,
        pos + len <= npcm,
    ensures
        shape(final(samples)@, npcm as int),
        rows(final(samples)@) == adpcm_bands(
            m,
            rows(old(samples)@),
            ch as int,
            pos as int,
            len as int,
            m.head.modes[ch as int].len() as int,
        ),
{
    let n: usize = c.head.modes[ch].len();
    assert(m.head.modes[ch as int] == c.head.modes@[ch as int]@);
    assert(c.head.modes@[ch as int]@.len() == c.set@.nsubbands[ch as int]);
    let mut band: usize = 0;
    while band < n
        invariant
            c.wf(all),
            m == c.model(m.d, m.lim),
            shape(samples@, npcm as int),
            ch < c.n,
            pos + len <= npcm,
            n == c.head.modes@[ch as int]@.len(),
            n == c.set@.nsubbands[ch as int],
            band <= n,
            rows(samples@) == adpcm_bands(
                m,
                rows(old(samples)@),
                ch as int,
                pos as int,
                len as int,
                band as int,
            ),
        decreases n - band,
    {
        let ghost before = rows(samples@);
        assert(m.head.modes[ch as int] == c.head.modes@[ch as int]@);
        assert(m.head.predictors[ch as int] == c.head.predictors@[ch as int]@);
        assert(listed(c.head.predictors@[ch as int]@, n as int, 4096));
        assert(n < 33);
        if c.head.modes[ch][band] {
            let row: usize = 32 * (c.base + ch) + band;
            let id: usize = c.head.predictors[ch][band];
            add_predictions(&mut samples[row], &c.tables.adpcm[id], pos, len);
            assert(rows(samples@) =~= before.update(row as int, samples@[row as int]@));
        }
        band = band + 1;
    }
}

fn inverse_adpcm_all(
    c: &AudioContext<'_>,
    samples: &mut Vec<Vec<i32>>,
    npcm: usize,
    pos: usize,
    len: usize,
    Ghost(all): Ghost<Seq<usize>>,
    Ghost(m): Ghost<AudioModel>,
)
    requires
        c.wf(all),
        m == c.model(m.d, m.lim),
        shape(old(samples)@, npcm as int),
        pos + len <= npcm,
    ensures
        shape(final(samples)@, npcm as int),
        rows(final(samples)@) == adpcm_channels(
            m,
            rows(old(samples)@),
            pos as int,
            len as int,
            c.n as int,
        ),
{
    let mut ch: usize = 0;
    while ch < c.n
        invariant
            c.wf(all),
            m == c.model(m.d, m.lim),
            shape(samples@, npcm as int),
            pos + len <= npcm,
            ch <= c.n,
            rows(samples@) == adpcm_channels(
                m,
                rows(old(samples)@),
                pos as int,
                len as int,
                ch as int,
            ),
        decreases c.n - ch,
    {
        inverse_adpcm(c, samples, npcm, ch, pos, len, Ghost(all), Ghost(m));
        ch = ch + 1;
    }
}

/// A band taken from another channel's, scaled.
pub open spec fn joint_row(dst: Seq<i32>, src: Seq<i32>, scale: int, at: int, len: int) -> Seq<i32> {
    written(
        dst,
        at,
        Seq::new(len as nat, |j: int| clipped(scaled(src[at + j] as int, scale, 17)) as i32),
    )
}

/// The first `k` bands that channel `ch` takes from channel `src`.
pub open spec fn joint_rows(m: AudioModel, s: Seq<Seq<i32>>, ch: int, src: int, at: int, len: int, k: int) -> Seq<
    Seq<i32>,
>
    decreases k,
{
    if k <= 0 {
        s
    } else {
        let t = joint_rows(m, s, ch, src, at, len, k - 1);
        let band = m.set.nsubbands[ch] + k - 1;
        let r = row_of(m.base + ch, band);
        row_put(t, r, joint_row(t[r], t[row_of(src, band)], m.head.joint[ch][k - 1] as int, at, len))
    }
}

/// The first `k` channels with the bands that they take from others.
pub open spec fn joint_channels(m: AudioModel, s: Seq<Seq<i32>>, at: int, len: int, k: int) -> Seq<
    Seq<i32>,
>
    decreases k,
{
    if k <= 0 {
        s
    } else {
        joint_rows(
            m,
            joint_channels(m, s, at, len, k - 1),
            k - 1,
            m.set.joint[k - 1] - 1,
            at,
            len,
            m.head.joint[k - 1].len() as int,
        )
    }
}

fn copy_joint(samples: &mut Vec<Vec<i32>>, dst: usize, src: usize, scale: i32, at: usize, len: usize)
    requires
        dst < old(samples)@.len(),
        src < old(samples)@.len(),
        dst != src,
        at + len <= old(samples)@[dst as int]@.len(),
        at + len <= old(samples)@[src as int]@.len(),
    ensures
        rows(final(samples)@) == rows(old(samples)@).update(
            dst as int,
            joint_row(
                old(samples)@[dst as int]@,
                old(samples)@[src as int]@,
                scale as int,
                at as int,
                len as int,
            ),
        ),
        final(samples)@.len() == old(samples)@.len(),
{
    let mut row: Vec<i32> = Vec::new();
    std::mem::swap(&mut row, &mut samples[dst]);
    let ghost first = row@;
    let ghost vals = Seq::new(
        len as nat,
        |j: int| clipped(scaled(old(samples)@[src as int]@[at + j] as int, scale as int, 17)) as i32,
    );
    let total: usize = row.len();
    let mut j: usize = 0;
    assert(row@ =~= written(first, at as int, vals.subrange(0, 0)));
    while j < len
        invariant
            j <= len,
            src < samples@.len(),
            samples@[src as int]@ == old(samples)@[src as int]@,
            at + len <= samples@[src as int]@.len(),
            total == row@.len(),
            total == first.len(),
            at + len <= total,
            vals == Seq::new(
                len as nat,
                |j: int|
                    clipped(
                        scaled(old(samples)@[src as int]@[at + j] as int, scale as int, 17),
                    ) as i32,
            ),
            row@ == written(first, at as int, vals.subrange(0, j as int)),
        decreases len - j,
    {
        let v: i32 = clip23(mul_norm(samples[src][at + j], scale, 17));
        row.set(at + j, v);
        j = j + 1;
        assert(row@ =~= written(first, at as int, vals.subrange(0, j as int)));
    }
    assert(vals.subrange(0, len as int) =~= vals);
    std::mem::swap(&mut row, &mut samples[dst]);
    assert(rows(samples@) =~= rows(old(samples)@).update(
        dst as int,
        joint_row(first, old(samples)@[src as int]@, scale as int, at as int, len as int),
    ));
}

fn decode_joint(
    c: &AudioContext<'_>,
    samples: &mut Vec<Vec<i32>>,
    npcm: usize,
    ch: usize,
    at: usize,
    len: usize,
    Ghost(all): Ghost<Seq<usize>>,
    Ghost(m): Ghost<AudioModel>,
)
    requires
        c.wf(all),
        m == c.model(m.d, m.lim),
        shape(old(samples)@, npcm as int),
        ch < c.n,
        at + len <= 4 + npcm,
    ensures
        shape(final(samples)@, npcm as int),
        rows(final(samples)@) == joint_rows(
            m,
            rows(old(samples)@),
            ch as int,
            m.set.joint[ch as int] - 1,
            at as int,
            len as int,
            m.head.joint[ch as int].len() as int,
        ),
{
    let n: usize = c.head.joint[ch].len();
    assert(m.head.joint[ch as int] == c.head.joint@[ch as int]@);
    let joint: usize = c.set.joint[ch];
    let first: usize = c.set.nsubbands[ch];
    let mut k: usize = 0;
    while k < n
        invariant
            c.wf(all),
            m == c.model(m.d, m.lim),
            shape(samples@, npcm as int),
            ch < c.n,
            at + len <= 4 + npcm,
            n == c.head.joint@[ch as int]@.len(),
            joint == c.set@.joint[ch as int],
            first == c.set@.nsubbands[ch as int],
            k <= n,
            rows(samples@) == joint_rows(
                m,
                rows(old(samples)@),
                ch as int,
                joint - 1,
                at as int,
                len as int,
                k as int,
            ),
        decreases n - k,
    {
        let ghost before = rows(samples@);
        assert(m.head.joint[ch as int] == c.head.joint@[ch as int]@);
        assert(n == joint_bands(all, joint, first));
        assert(joint < c.base + c.n + 1);
        assert(all[joint - 1] <= 32);
        assert(c.set@.nsubbands[ch as int] == all[c.base + ch]);
        let band: usize = first + k;
        let dst: usize = 32 * (c.base + ch) + band;
        let src: usize = 32 * (joint - 1) + band;
        assert(samples@[dst as int]@.len() == 4 + npcm);
        assert(samples@[src as int]@.len() == 4 + npcm);
        copy_joint(samples, dst, src, c.head.joint[ch][k], at, len);
        assert forall|r: int| 0 <= r < 384 implies (#[trigger] samples@[r])@.len() == 4 + npcm by {
            assert(rows(samples@)[r] == samples@[r]@);
            assert(before[r].len() == 4 + npcm);
        }
        k = k + 1;
    }
}

fn decode_joint_all(
    c: &AudioContext<'_>,
    samples: &mut Vec<Vec<i32>>,
    npcm: usize,
    at: usize,
    len: usize,
    Ghost(all): Ghost<Seq<usize>>,
    Ghost(m): Ghost<AudioModel>,
)
    requires
        c.wf(all),
        m == c.model(m.d, m.lim),
        shape(old(samples)@, npcm as int),
        at + len <= 4 + npcm,
    ensures
        shape(final(samples)@, npcm as int),
        rows(final(samples)@) == joint_channels(
            m,
            rows(old(samples)@),
            at as int,
            len as int,
            c.n as int,
        ),
{
    let mut ch: usize = 0;
    while ch < c.n
        invariant
            c.wf(all),
            m == c.model(m.d, m.lim),
            shape(samples@, npcm as int),
            at + len <= 4 + npcm,
            ch <= c.n,
            rows(samples@) == joint_channels(
                m,
                rows(old(samples)@),
                at as int,
                len as int,
                ch as int,
            ),
        decreases c.n - ch,
    {
        decode_joint(c, samples, npcm, ch, at, len, Ghost(all), Ghost(m));
        ch = ch + 1;
    }
}

/// Subband and low-frequency samples of a frame under construction.
pub ghost struct Audio {
    pub samples: Seq<Seq<i32>>,
    pub lfe: Seq<i32>,
}

/// The audio of a subframe of `nssf` subsubframes, written from block `pos`
/// and low-frequency sample `lfe_pos` on.
pub open spec fn subframe_audio(
    m: AudioModel,
    a: Audio,
    p: int,
    npcm: int,
    pos: int,
    lfe_pos: int,
    nssf: int,
    nlfe: int,
) -> (Audio, Result<int, CoreError>) {
    if pos + 8 * nssf > npcm {
        (a, Err(CoreError::Invalid("subband overflow")))
    } else {
        match thread(hf_step(m, 4 + pos, 8 * nssf), a.samples, p, m.n) {
            (s, Err(e)) => (Audio { samples: s, ..a }, Err(e)),
            (s, Ok(q)) => match lfe_at(m.d, m.lim, q, m.tables, nlfe) {
                Err(e) => (Audio { samples: s, ..a }, Err(e)),
                Ok((v, w)) => {
                    let lfe = written(a.lfe, lfe_pos, v);
                    match thread(subsub_step(m, pos, nssf), s, w, nssf) {
                        (t, Err(e)) => (Audio { samples: t, lfe }, Err(e)),
                        (t, Ok(end)) => (
                            Audio {
                                samples: joint_channels(
                                    m,
                                    adpcm_channels(m, t, pos, 8 * nssf, m.n),
                                    4 + pos,
                                    8 * nssf,
                                    m.n,
                                ),
                                lfe,
                            },
                            Ok(end),
                        ),
                    }
                },
            },
        }
    }
}

pub open spec fn audio_of(samples: Seq<Vec<i32>>, lfe: Seq<i32>) -> Audio {
    Audio { samples: rows(samples), lfe }
}

pub fn parse_subframe_audio(
    gb: &mut BitReader<'_>,
    c: &AudioContext<'_>,
    samples: &mut Vec<Vec<i32>>,
    lfe: &mut Vec<i32>,
    npcm: usize,
    pos: usize,
    lfe_pos: usize,
    nssf: usize,
    nlfe: usize,
    all: &Vec<usize>,
) -> (r: Result<(), CoreError>)
    requires
        old(gb).wf(),
        c.wf(all@),
        shape(old(samples)@, npcm as int),
        nssf <= 4,
        pos <= npcm,
        pos + 8 * nssf <= npcm ==> lfe_pos + nlfe <= old(lfe)@.len(),
    ensures
        final(gb).wf(),
        final(gb).same_source(old(gb)),
        old(gb).pos() <= final(gb).pos(),
        shape(final(samples)@, npcm as int),
        final(lfe)@.len() == old(lfe)@.len(),
        threaded(
            r,
            audio_of(final(samples)@, final(lfe)@),
            final(gb).pos(),
            subframe_audio(
                c.model(old(gb).data(), old(gb).limit()),
                audio_of(old(samples)@, old(lfe)@),
                old(gb).pos(),
                npcm as int,
                pos as int,
                lfe_pos as int,
                nssf as int,
                nlfe as int,
            ),
        ),
{
    let ghost m = c.model(gb.data(), gb.limit());
    let len: usize = 8 * nssf;
    if len > npcm - pos {
        return Err(CoreError::Invalid("subband overflow"));
    }
    proof {
        assert(samples@[0]@.len() == 4 + npcm);
    }
    let total: usize = samples[0].len();
    parse_hf(gb, c, samples, npcm, 4 + pos, len, Ghost(all@))?;
    parse_lfe(gb, c.tables, lfe, lfe_pos, nlfe)?;
    parse_subsubs(gb, c, samples, npcm, pos, nssf, Ghost(all@))?;
    inverse_adpcm_all(c, samples, npcm, pos, len, Ghost(all@), Ghost(m));
    decode_joint_all(c, samples, npcm, 4 + pos, len, Ghost(all@), Ghost(m));
    Ok(())
}

} // verus!
