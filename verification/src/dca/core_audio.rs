//! Audio of the core's subframes: quantizer codes, and how they become
//! subband samples.

use vstd::prelude::*;
use crate::bits::{code_space, field, signed_field, BitReader};
use crate::grammar::{lemma_thread_step, parsed, parsed_view, repeat, rows, thread, threaded};
use super::core_header::{lemma_step_err, rb, short, CoreError, SetCoding, SetModel};
use super::core_subframe::{read_vlc, scaled_bands, vlc_at, SubframeHeader, SubframeModel};
use super::core_tables::CoreTables;
use super::fixed::{clip23, clipped, norm, rounded, wrap32};
use super::huffman::{Vlc, VlcModel};

verus! {

/// Subbands of a channel.
pub const DCA_SUBBANDS: usize = 32;

/// Samples of a band in one subsubframe.
pub const DCA_SUBBAND_SAMPLES: usize = 8;

/// Samples that a predictor looks back on.
pub const DCA_ADPCM_COEFFS: usize = 4;

/// Channels that the decoder holds at once.
pub const DCA_CHANNELS: usize = 12;

/// Low-frequency samples kept from one frame to the next.
pub const DCA_LFE_HISTORY: usize = 8;

/// Width of the two block codes of the first seven quantizers.
pub const BLOCK_CODE_NBITS: [u8; 7] = [7, 10, 12, 13, 15, 17, 19];

/// Digit `k` of `code` to the base `levels`.
pub open spec fn digit(code: int, levels: int, k: int) -> int
    decreases k,
{
    if k <= 0 { code % levels } else { digit(code / levels, levels, k - 1) }
}

/// What is left of `code` above digit `k - 1`.
pub open spec fn above(code: int, levels: int, k: int) -> int
    decreases k,
{
    if k <= 0 { code } else { above(code / levels, levels, k - 1) }
}

proof fn lemma_digit(code: int, levels: int, k: int)
    requires
        k >= 0,
        levels > 0,
    ensures
        digit(code, levels, k) == above(code, levels, k) % levels,
        above(code, levels, k + 1) == above(code, levels, k) / levels,
    decreases k,
{
    reveal_with_fuel(above, 2);
    if k > 0 {
        lemma_digit(code / levels, levels, k - 1);
    }
}

/// The four samples of a block code, centred on 0.
pub open spec fn block_digits(code: int, levels: int) -> Seq<i32> {
    Seq::new(4, |k: int| (digit(code, levels, k) - (levels - 1) / 2) as i32)
}

/// Split the two block codes into eight samples; what is left over shows codes
/// that are out of range.
pub fn decode_blockcodes(code1: i32, code2: i32, levels: i32) -> (r: (Vec<i32>, bool))
    requires
        0 <= code1,
        0 <= code2,
        1 <= levels,
    ensures
        r.0@ == block_digits(code1 as int, levels as int) + block_digits(code2 as int, levels as int),
        r.1 == (above(code1 as int, levels as int, 4) == 0 && above(
            code2 as int,
            levels as int,
            4,
        ) == 0),
{
    let mut audio: Vec<i32> = Vec::new();
    let rest1: i32 = split_block(code1, levels, &mut audio);
    let rest2: i32 = split_block(code2, levels, &mut audio);
    assert(audio@ =~= block_digits(code1 as int, levels as int) + block_digits(
        code2 as int,
        levels as int,
    ));
    (audio, rest1 == 0 && rest2 == 0)
}

fn split_block(code: i32, levels: i32, audio: &mut Vec<i32>) -> (rest: i32)
    requires
        0 <= code,
        1 <= levels,
    ensures
        final(audio)@ == old(audio)@ + block_digits(code as int, levels as int),
        rest == above(code as int, levels as int, 4),
{
    let offset: i32 = (levels - 1) / 2;
    let mut rest: i32 = code;
    let mut k: usize = 0;
    while k < 4
        invariant
            k <= 4,
            0 <= rest,
            1 <= levels,
            offset == (levels - 1) / 2,
            rest == above(code as int, levels as int, k as int),
            audio@ == old(audio)@ + block_digits(code as int, levels as int).subrange(0, k as int),
        decreases 4 - k,
    {
        proof {
            lemma_digit(code as int, levels as int, k as int);
            vstd::arithmetic::div_mod::lemma_div_pos_is_pos(rest as int, levels as int);
        }
        audio.push(rest % levels - offset);
        rest = rest / levels;
        k = k + 1;
        assert(audio@ =~= old(audio)@ + block_digits(code as int, levels as int).subrange(0, k as int));
    }
    assert(block_digits(code as int, levels as int).subrange(0, 4) =~= block_digits(
        code as int,
        levels as int,
    ));
    rest
}

/// A signed field of `n` bits.
pub open spec fn signed_at(d: Seq<u8>, lim: int, q: int, n: int) -> Result<(i32, int), CoreError> {
    if q + n > lim { short() } else { Ok((signed_field(d, q, n) as i32, q + n)) }
}

pub open spec fn signed_step(d: Seq<u8>, lim: int, n: int) -> spec_fn(int, int) -> Result<
    (i32, int),
    CoreError,
> {
    |i: int, q: int| signed_at(d, lim, q, n)
}

pub fn rsb(gb: &mut BitReader<'_>, n: usize) -> (r: Result<i32, CoreError>)
    requires
        old(gb).wf(),
        1 <= n <= 31,
    ensures
        final(gb).wf(),
        final(gb).same_source(old(gb)),
        parsed(
            r,
            signed_at(old(gb).data(), old(gb).limit(), old(gb).pos(), n as int),
            final(gb).pos(),
        ),
        old(gb).pos() <= final(gb).pos(),
        r matches Ok(v) ==> -code_space(n - 1) <= v < code_space(n - 1),
{
    match gb.read_signed_bits(n) {
        Some(v) => Ok(v),
        None => Err(CoreError::Bitstream),
    }
}

pub fn read_signed(gb: &mut BitReader<'_>, w: usize, n: usize) -> (r: Result<Vec<i32>, CoreError>)
    requires
        old(gb).wf(),
        1 <= w <= 31,
    ensures
        final(gb).wf(),
        final(gb).same_source(old(gb)),
        old(gb).pos() <= final(gb).pos(),
        match (r, repeat(signed_step(old(gb).data(), old(gb).limit(), w as int), old(gb).pos(), n as int)) {
            (Ok(v), Ok((want, q))) => v@ == want && v@.len() == n && final(gb).pos() == q,
            (Err(e), Err(f)) => e == f,
            _ => false,
        },
        r matches Ok(v) ==> forall|i: int|
            0 <= i < v@.len() ==> -code_space(w - 1) <= #[trigger] v@[i] < code_space(w - 1),
{
    let ghost step = signed_step(gb.data(), gb.limit(), w as int);
    let ghost p = gb.pos();
    let mut items: Vec<i32> = Vec::new();
    while items.len() < n
        invariant
            gb.wf(),
            gb.same_source(old(gb)),
            old(gb).pos() <= gb.pos(),
            p == old(gb).pos(),
            step == signed_step(gb.data(), gb.limit(), w as int),
            items@.len() <= n,
            repeat(step, p, items@.len() as int) == Ok::<_, CoreError>((items@, gb.pos())),
        1 <= w <= 31,
            forall|i: int|
                0 <= i < items@.len() ==> -code_space(w - 1) <= #[trigger] items@[i] < code_space(w - 1),
        decreases n - items.len(),
    {
        let ghost before = items@;
        proof {
            lemma_step_err(step, p, items@.len() as int, n as int);
        }
        let item = rsb(gb, w)?;
        items.push(item);
        assert(items@ =~= before.push(item));
    }
    Ok(items)
}

pub open spec fn word_step(d: Seq<u8>, lim: int, v: VlcModel) -> spec_fn(int, int) -> Result<
    (i32, int),
    CoreError,
> {
    |i: int, q: int| vlc_at(v, d, lim, q)
}

fn read_words(gb: &mut BitReader<'_>, vlc: &Vlc, n: usize) -> (r: Result<Vec<i32>, CoreError>)
    requires
        old(gb).wf(),
        vlc@.max_len <= 30,
    ensures
        final(gb).wf(),
        final(gb).same_source(old(gb)),
        old(gb).pos() <= final(gb).pos(),
        match (r, repeat(word_step(old(gb).data(), old(gb).limit(), vlc@), old(gb).pos(), n as int)) {
            (Ok(v), Ok((want, q))) => v@ == want && v@.len() == n && final(gb).pos() == q,
            (Err(e), Err(f)) => e == f,
            _ => false,
        },
{
    let ghost step = word_step(gb.data(), gb.limit(), vlc@);
    let ghost p = gb.pos();
    let mut items: Vec<i32> = Vec::new();
    while items.len() < n
        invariant
            gb.wf(),
            gb.same_source(old(gb)),
            old(gb).pos() <= gb.pos(),
            p == old(gb).pos(),
            step == word_step(gb.data(), gb.limit(), vlc@),
            items@.len() <= n,
            repeat(step, p, items@.len() as int) == Ok::<_, CoreError>((items@, gb.pos())),
        vlc@.max_len <= 30,
        decreases n - items.len(),
    {
        let ghost before = items@;
        proof {
            lemma_step_err(step, p, items@.len() as int, n as int);
        }
        let item = read_vlc(gb, vlc)?;
        items.push(item);
        assert(items@ =~= before.push(item));
    }
    Ok(items)
}

/// Eight samples in two block codes.
pub open spec fn blocks_at(d: Seq<u8>, lim: int, p: int, t: CoreTables, abits: int) -> Result<
    (Seq<i32>, int),
    CoreError,
> {
    let n = BLOCK_CODE_NBITS@[abits - 1] as int;
    let levels = t.quant_levels@[abits] as int;
    let a = field(d, p, n);
    let b = field(d, p + n, n);
    if p + 2 * n > lim {
        short()
    } else if above(a, levels, 4) != 0 || above(b, levels, 4) != 0 {
        Err(CoreError::Invalid("block code"))
    } else {
        Ok((block_digits(a, levels) + block_digits(b, levels), p + 2 * n))
    }
}

pub fn parse_block_codes(gb: &mut BitReader<'_>, t: &CoreTables, abits: usize) -> (r: Result<
    Vec<i32>,
    CoreError,
>)
    requires
        old(gb).wf(),
        t.wf(),
        1 <= abits <= 7,
    ensures
        final(gb).wf(),
        final(gb).same_source(old(gb)),
        parsed_view(
            r,
            blocks_at(old(gb).data(), old(gb).limit(), old(gb).pos(), *t, abits as int),
            final(gb).pos(),
        ),
        old(gb).pos() <= final(gb).pos(),
        r matches Ok(v) ==> v@.len() == 8,
{
    let nbits: usize = BLOCK_CODE_NBITS[abits - 1] as usize;
    assert(1 <= nbits <= 19);
    assert(code_space(nbits as int) <= code_space(19)) by {
        lemma_narrower(nbits as int);
    }
    let code1: i32 = rb(gb, nbits)? as i32;
    let code2: i32 = rb(gb, nbits)? as i32;
    assert(1 <= t.quant_levels@[abits as int]);
    let (audio, clean): (Vec<i32>, bool) = decode_blockcodes(code1, code2, t.quant_levels[abits]);
    if !clean {
        return Err(CoreError::Invalid("block code"));
    }
    Ok(audio)
}

proof fn lemma_narrower(n: int)
    requires
        0 <= n <= 19,
    ensures
        code_space(n) <= code_space(19) < 0x7fff_ffff,
    decreases 19 - n,
{
    if n < 19 {
        lemma_narrower(n + 1);
    }
}

/// The eight codes of a band in a subsubframe, and whether they came from a
/// code book.
pub open spec fn codes_at(d: Seq<u8>, lim: int, p: int, t: CoreTables, sel: Seq<Seq<usize>>, ch: int, abits: int) -> Result<
    ((bool, Seq<i32>), int),
    CoreError,
> {
    if abits == 0 {
        Ok(((false, Seq::new(8, |i: int| 0i32)), p))
    } else if abits <= 10 && sel[abits - 1][ch] < t.quant_groups@[abits - 1] {
        match repeat(
            word_step(d, lim, t.vlcs.quant_index@[abits - 1]@[sel[abits - 1][ch] as int]@),
            p,
            8,
        ) {
            Err(e) => Err(e),
            Ok((v, q)) => Ok(((true, v), q)),
        }
    } else if abits <= 7 {
        match blocks_at(d, lim, p, t, abits) {
            Err(e) => Err(e),
            Ok((v, q)) => Ok(((false, v), q)),
        }
    } else {
        match repeat(signed_step(d, lim, abits - 3), p, 8) {
            Err(e) => Err(e),
            Ok((v, q)) => Ok(((false, v), q)),
        }
    }
}

fn silence() -> (r: Vec<i32>)
    ensures
        r@ == Seq::new(8, |i: int| 0i32),
{
    let r: Vec<i32> = vec![0i32, 0, 0, 0, 0, 0, 0, 0];
    assert(r@ =~= Seq::new(8, |i: int| 0i32));
    r
}

/// The eight codes of a band of channel `ch` of the set.
pub fn extract_audio(gb: &mut BitReader<'_>, t: &CoreTables, set: &SetCoding, n: usize, total: usize, ch: usize, abits: i32) -> (r: Result<
    (bool, Vec<i32>),
    CoreError,
>)
    requires
        old(gb).wf(),
        t.wf(),
        set.wf(n as int, total as int),
        ch < n,
        0 <= abits <= 26,
    ensures
        final(gb).wf(),
        final(gb).same_source(old(gb)),
        old(gb).pos() <= final(gb).pos(),
        match (
            r,
            codes_at(
                old(gb).data(),
                old(gb).limit(),
                old(gb).pos(),
                *t,
                set@.quant_sel,
                ch as int,
                abits as int,
            ),
        ) {
            (Ok((huff, v)), Ok((want, q))) => {
                &&& want == (huff, v@)
                &&& v@.len() == 8
                &&& huff ==> 1 <= abits <= 10
                &&& final(gb).pos() == q
            },
            (Err(e), Err(f)) => e == f,
            _ => false,
        },
{
    if abits == 0 {
        return Ok((false, silence()));
    }
    let q: usize = abits as usize;
    if q <= 10 {
        assert(set@.quant_sel[q - 1] == set.quant_sel@[q - 1]@);
        assert(set.quant_sel@[q - 1]@.len() == n);
        let sel: usize = set.quant_sel[q - 1][ch];
        if sel < t.quant_groups[q - 1] as usize {
            assert(t.vlcs.quant_index@[q - 1]@.len() == t.quant_groups@[q - 1]);
            assert(t.vlcs.quant_index@[q - 1]@[sel as int]@.max_len <= 30);
            return Ok((true, read_words(gb, &t.vlcs.quant_index[q - 1][sel], 8)?));
        }
        if q <= 7 {
            return Ok((false, parse_block_codes(gb, t, q)?));
        }
    }
    Ok((false, read_signed(gb, q - 3, 8)?))
}

/// Bits of `y`.
pub open spec fn bit_len(y: int) -> int
    decreases y,
{
    if y <= 0 { 0 } else { 1 + bit_len(y / 2) }
}

/// Bits by which a step is shortened to 24.
pub open spec fn step_shift(x: int) -> int {
    if x > 0x80_0000 { bit_len(x / 0x80_0000) } else { 0 }
}

/// A code times its step.
pub open spec fn dequantized(code: int, x: int) -> int {
    clipped(wrap32(rounded(code * (x / code_space(step_shift(x))), 22 - step_shift(x))))
}

/// `row` with `vals` from `at` on.
pub open spec fn written(row: Seq<i32>, at: int, vals: Seq<i32>) -> Seq<i32> {
    Seq::new(row.len(), |i: int| if at <= i < at + vals.len() { vals[i - at] } else { row[i] })
}

fn count_bits(y: i64) -> (r: u32)
    requires
        0 <= y < 0x80_0000,
    ensures
        r == bit_len(y as int),
        r <= 23,
        y < code_space(r as int),
{
    let mut rest: i64 = y;
    let mut n: u32 = 0;
    let ghost mut room: int = 0x80_0000;
    while rest > 0
        invariant
            0 <= rest < room,
            n <= 23,
            room == code_space(23 - n),
            n + bit_len(rest as int) == bit_len(y as int),
            rest * code_space(n as int) <= y < (rest + 1) * code_space(n as int),
        decreases rest,
    {
        proof {
            assert(n < 23);
            let k = code_space(n as int);
            assert(code_space(n + 1) == 2 * k);
            assert(rest / 2 * (2 * k) <= rest * k) by (nonlinear_arith)
                requires
                    0 <= rest,
                    k > 0,
            ;
            assert((rest + 1) * k <= (rest / 2 + 1) * (2 * k)) by (nonlinear_arith)
                requires
                    0 <= rest,
                    k > 0,
            ;
            assert(code_space(23 - n) == 2 * code_space(23 - n - 1));
            room = code_space(23 - n - 1);
        }
        rest = rest / 2;
        n = n + 1;
    }
    assert((rest + 1) * code_space(n as int) == code_space(n as int)) by (nonlinear_arith)
        requires
            rest == 0,
    ;
    n
}

/// Replace the eight samples at `at` by codes times their step. A step of more
/// than 45 bits has no shift left for it.
pub fn dequantize(row: &mut Vec<i32>, at: usize, audio: &Vec<i32>, step: i32, scale: i32) -> (r: Result<
    (),
    CoreError,
>)
    requires
        at + 8 <= old(row)@.len(),
        audio@.len() == 8,
        0 <= step <= 0x7f_ffff,
        0 <= scale <= 0x7f_ffff,
    ensures
        match r {
            Ok(_) => {
                &&& step_shift(step * scale) <= 22
                &&& final(row)@ == written(
                    old(row)@,
                    at as int,
                    Seq::new(8, |i: int| dequantized(audio@[i] as int, step * scale) as i32),
                )
            },
            Err(e) => {
                &&& step_shift(step * scale) > 22
                &&& e == CoreError::Invalid("quantizer step")
                &&& final(row)@ == old(row)@
            },
        },
{
    proof {
        assert(0 <= step * scale < 0x4000_0000_0000) by (nonlinear_arith)
            requires
                0 <= step <= 0x7f_ffff,
                0 <= scale <= 0x7f_ffff,
        ;
    }
    let wide: i64 = step as i64 * scale as i64;
    let shift: u32 = if wide > 0x80_0000 { count_bits(wide / 0x80_0000) } else { 0 };
    if shift > 22 {
        return Err(CoreError::Invalid("quantizer step"));
    }
    let unit: i64 = crate::bits::power_of_two(shift);
    let short: i64 = wide / unit;
    proof {
        let w = wide as int;
        assert(w / code_space(shift as int) <= 0x80_0000) by {
            if wide > 0x80_0000 {
                let k = code_space(shift as int);
                assert(w < k * 0x80_0000);
                assert(w / k <= 0x80_0000) by (nonlinear_arith)
                    requires
                        0 <= w < k * 0x80_0000,
                        k > 0,
                ;
            }
        }
        vstd::arithmetic::div_mod::lemma_div_pos_is_pos(wide as int, unit as int);
    }
    let ghost vals = Seq::new(8, |i: int| dequantized(audio@[i] as int, step * scale) as i32);
    let n: usize = row.len();
    let mut i: usize = 0;
    while i < 8
        invariant
            i <= 8,
            n == row@.len(),
            n == old(row)@.len(),
            at + 8 <= n,
            audio@.len() == 8,
            0 <= short <= 0x80_0000,
            shift <= 22,
            wide == step * scale,
            shift == step_shift(wide as int),
            short == wide as int / code_space(shift as int),
            vals == Seq::new(8, |i: int| dequantized(audio@[i] as int, step * scale) as i32),
            row@ == written(old(row)@, at as int, vals.subrange(0, i as int)),
        decreases 8 - i,
    {
        let a: i32 = audio[i];
        proof {
            assert(-0x4000_0000_0000_0000 <= a * short <= 0x4000_0000_0000_0000) by (nonlinear_arith)
                requires
                    -0x8000_0000 <= a <= 0x7fff_ffff,
                    0 <= short <= 0x80_0000,
            ;
        }
        let v: i32 = clip23(norm(a as i64 * short, 22 - shift));
        row.set(at + i, v);
        i = i + 1;
        assert(row@ =~= written(old(row)@, at as int, vals.subrange(0, i as int)));
    }
    assert(vals.subrange(0, 8) =~= vals);
    Ok(())
}

/// Row of band `band` of channel `ch`.
pub open spec fn row_of(ch: int, band: int) -> int {
    32 * ch + band
}

/// `s` with another row at `r`, if there is one.
pub open spec fn row_put(s: Seq<Seq<i32>>, r: int, row: Seq<i32>) -> Seq<Seq<i32>> {
    if 0 <= r < s.len() { s.update(r, row) } else { s }
}

/// One row for every band of every channel: four samples of history, and those
/// of the frame.
pub open spec fn shape(samples: Seq<Vec<i32>>, npcm: int) -> bool {
    &&& samples.len() == 384
    &&& forall|r: int| 0 <= r < 384 ==> (#[trigger] samples[r])@.len() == 4 + npcm
}

/// What a set's subframe is decoded with.
pub ghost struct AudioModel {
    pub d: Seq<u8>,
    pub lim: int,
    pub tables: CoreTables,
    pub set: SetModel,
    pub head: SubframeModel,
    /// First channel of the set.
    pub base: int,
    /// Channels of the set.
    pub n: int,
    pub lossless: bool,
    /// A sync word ends every subsubframe, not only the last.
    pub sync_ssf: bool,
}

/// [`AudioModel`] as the decoder holds it.
#[derive(Clone, Copy)]
pub struct AudioContext<'a> {
    pub tables: &'a CoreTables,
    pub set: &'a SetCoding,
    pub head: &'a SubframeHeader,
    pub base: usize,
    pub n: usize,
    pub lossless: bool,
    pub sync_ssf: bool,
}

impl<'a> AudioContext<'a> {
    pub open spec fn model(&self, d: Seq<u8>, lim: int) -> AudioModel {
        AudioModel {
            d,
            lim,
            tables: *self.tables,
            set: self.set@,
            head: self.head@,
            base: self.base as int,
            n: self.n as int,
            lossless: self.lossless,
            sync_ssf: self.sync_ssf,
        }
    }

    pub open spec fn wf(&self, all: Seq<usize>) -> bool {
        &&& self.tables.wf()
        &&& self.set.wf(self.n as int, self.base + self.n)
        &&& self.head.wf(self.set@, self.n as int, all)
        &&& self.base + self.n <= 12
        &&& all.len() == 12
        &&& forall|i: int| 0 <= i < 12 ==> #[trigger] all[i] <= 32
        &&& forall|i: int| 0 <= i < self.n ==> #[trigger] self.set@.nsubbands[i] == all[self.base + i]
    }
}

/// The scale of a band in subsubframe `ssf`, adjusted where its codes came
/// from a code book.
pub open spec fn band_scale(m: AudioModel, ch: int, band: int, ssf: int, huff: bool) -> int {
    let pair = m.head.scales[ch][band];
    let change = m.head.transition[ch][band];
    let scale = if change == 0 || ssf < change { pair.0 as int } else { pair.1 as int };
    if huff {
        clipped(m.set.adjust[m.head.abits[ch][band] - 1][ch] * scale / 0x40_0000)
    } else {
        scale
    }
}

/// The quantizer step of a band.
pub open spec fn band_unit(m: AudioModel, ch: int, band: int) -> int {
    let abits = m.head.abits[ch][band] as int;
    if m.lossless { m.tables.lossless_quant@[abits] as int } else { m.tables.lossy_quant@[abits] as int }
}

/// One band of one subsubframe, written from `at` on.
pub open spec fn band_step(m: AudioModel, ssf: int, ch: int, at: int) -> spec_fn(
    int,
    Seq<Seq<i32>>,
    int,
) -> (Seq<Seq<i32>>, Result<int, CoreError>) {
    |band: int, s: Seq<Seq<i32>>, q: int|
        match codes_at(m.d, m.lim, q, m.tables, m.set.quant_sel, ch, m.head.abits[ch][band] as int) {
            Err(e) => (s, Err(e)),
            Ok(((huff, codes), w)) => {
                let x = band_unit(m, ch, band) * band_scale(m, ch, band, ssf, huff);
                let r = row_of(m.base + ch, band);
                if step_shift(x) > 22 {
                    (s, Err(CoreError::Invalid("quantizer step")))
                } else {
                    (
                        row_put(
                            s,
                            r,
                            written(
                                s[r],
                                at,
                                Seq::new(8, |i: int| dequantized(codes[i] as int, x) as i32),
                            ),
                        ),
                        Ok(w),
                    )
                }
            },
        }
}

fn scale_of(c: &AudioContext<'_>, ch: usize, band: usize, ssf: usize, huff: bool, Ghost(all): Ghost<Seq<usize>>) -> (r: i32)
    requires
        c.wf(all),
        ch < c.n,
        band < c.head.abits@[ch as int]@.len(),
        ssf < 4,
        huff ==> 1 <= c.head.abits@[ch as int]@[band as int] <= 10,
    ensures
        forall|d: Seq<u8>, lim: int|
            r == #[trigger] band_scale(c.model(d, lim), ch as int, band as int, ssf as int, huff),
        0 <= r <= 0x7f_ffff,
{
    assert(c.head@.scales[ch as int] == c.head.scales@[ch as int]@);
    assert(c.head@.transition[ch as int] == c.head.transition@[ch as int]@);
    assert(c.head@.abits[ch as int] == c.head.abits@[ch as int]@);
    assert(c.head.scales@[ch as int]@.len() == scaled_bands(
        c.set@.vq_start[ch as int],
        c.set@.nsubbands[ch as int],
    ));
    assert(c.head.abits@[ch as int]@.len() == c.set@.vq_start[ch as int]);
    assert(c.head.transition@[ch as int]@.len() == c.head.abits@[ch as int]@.len());
    let pair: (i32, i32) = c.head.scales[ch][band];
    assert(0 <= pair.0 <= 0x7f_ffff && 0 <= pair.1 <= 0x7f_ffff);
    let change: i32 = c.head.transition[ch][band];
    let scale: i32 = if change == 0 || (ssf as i32) < change { pair.0 } else { pair.1 };
    if huff {
        let book: usize = c.head.abits[ch][band] as usize - 1;
        assert(c.set@.adjust[book as int] == c.set.adjust@[book as int]@);
        assert(c.set.adjust@[book as int]@.len() == c.n);
        let adj: i32 = c.set.adjust[book][ch];
        assert(0 <= adj <= 0x7f_ffff);
        assert(0 <= adj * scale <= 0x3fff_ff00_0001) by (nonlinear_arith)
            requires
                0 <= adj <= 0x7f_ffff,
                0 <= scale <= 0x7f_ffff,
        ;
        clip23((adj as i64 * scale as i64 / 0x40_0000) as i32)
    } else {
        scale
    }
}

fn parse_band(
    gb: &mut BitReader<'_>,
    c: &AudioContext<'_>,
    samples: &mut Vec<Vec<i32>>,
    npcm: usize,
    ssf: usize,
    ch: usize,
    band: usize,
    at: usize,
    Ghost(all): Ghost<Seq<usize>>,
) -> (r: Result<(), CoreError>)
    requires
        old(gb).wf(),
        c.wf(all),
        shape(old(samples)@, npcm as int),
        ch < c.n,
        band < c.head.abits@[ch as int]@.len(),
        ssf < 4,
        at + 8 <= 4 + npcm,
    ensures
        final(gb).wf(),
        final(gb).same_source(old(gb)),
        old(gb).pos() <= final(gb).pos(),
        shape(final(samples)@, npcm as int),
        threaded(
            r,
            rows(final(samples)@),
            final(gb).pos(),
            band_step(c.model(old(gb).data(), old(gb).limit()), ssf as int, ch as int, at as int)(
                band as int,
                rows(old(samples)@),
                old(gb).pos(),
            ),
        ),
{
    let ghost m = c.model(gb.data(), gb.limit());
    assert(c.head@.abits[ch as int] == c.head.abits@[ch as int]@);
    assert(c.head.abits@[ch as int]@.len() == c.set@.vq_start[ch as int]);
    assert(c.set@.vq_start[ch as int] < 33);
    assert(0 <= c.head.abits@[ch as int]@[band as int] <= 26);
    let abits: i32 = c.head.abits[ch][band];
    let (huff, codes): (bool, Vec<i32>) = extract_audio(
        gb,
        c.tables,
        c.set,
        c.n,
        c.base + c.n,
        ch,
        abits,
    )?;
    let step: i32 = if c.lossless {
        c.tables.lossless_quant[abits as usize]
    } else {
        c.tables.lossy_quant[abits as usize]
    };
    assert(0 <= step <= 0x7f_ffff);
    let scale: i32 = scale_of(c, ch, band, ssf, huff, Ghost(all));
    let row: usize = 32 * (c.base + ch) + band;
    assert(row_of(m.base + ch, band as int) == row);
    assert(scale == band_scale(m, ch as int, band as int, ssf as int, huff));
    assert(step == band_unit(m, ch as int, band as int));
    assert(rows(samples@)[row as int] == samples@[row as int]@);
    let done: Result<(), CoreError> = dequantize(&mut samples[row], at, &codes, step, scale);
    assert(rows(samples@) =~= rows(old(samples)@).update(row as int, samples@[row as int]@));
    assert(done is Err ==> rows(samples@) =~= rows(old(samples)@));
    done
}

/// All bands of a channel in one subsubframe.
pub open spec fn channel_step(m: AudioModel, ssf: int, at: int) -> spec_fn(
    int,
    Seq<Seq<i32>>,
    int,
) -> (Seq<Seq<i32>>, Result<int, CoreError>) {
    |ch: int, s: Seq<Seq<i32>>, q: int|
        thread(band_step(m, ssf, ch, at), s, q, m.head.abits[ch].len() as int)
}

fn parse_channel(
    gb: &mut BitReader<'_>,
    c: &AudioContext<'_>,
    samples: &mut Vec<Vec<i32>>,
    npcm: usize,
    ssf: usize,
    ch: usize,
    at: usize,
    Ghost(all): Ghost<Seq<usize>>,
) -> (r: Result<(), CoreError>)
    requires
        old(gb).wf(),
        c.wf(all),
        shape(old(samples)@, npcm as int),
        ch < c.n,
        ssf < 4,
        at + 8 <= 4 + npcm,
    ensures
        final(gb).wf(),
        final(gb).same_source(old(gb)),
        old(gb).pos() <= final(gb).pos(),
        shape(final(samples)@, npcm as int),
        threaded(r, rows(final(samples)@), final(gb).pos(), channel_step(c.model(old(gb).data(), old(gb).limit()), ssf as int, at as int)(
            ch as int,
            rows(old(samples)@),
            old(gb).pos(),
        )),
{
    let ghost m = c.model(gb.data(), gb.limit());
    let ghost step = band_step(m, ssf as int, ch as int, at as int);
    let ghost first = rows(samples@);
    let ghost p = gb.pos();
    let n: usize = c.head.abits[ch].len();
    let mut k: usize = 0;
    while k < n
        invariant
            gb.wf(),
            gb.same_source(old(gb)),
            old(gb).pos() <= gb.pos(),
            m == c.model(gb.data(), gb.limit()),
            step == band_step(m, ssf as int, ch as int, at as int),
            first == rows(old(samples)@),
            p == old(gb).pos(),
            c.wf(all),
            shape(samples@, npcm as int),
            k <= n,
            thread(step, first, p, k as int) == (rows(samples@), Ok::<int, CoreError>(gb.pos())),
            ch < c.n,
            ssf < 4,
            at + 8 <= 4 + npcm,
            n == c.head.abits@[ch as int]@.len(),
        decreases n - k,
    {
        proof {
            lemma_thread_step(step, first, p, k as int, n as int);
        }
        assert(c.head@.abits[ch as int] == c.head.abits@[ch as int]@);
        parse_band(gb, c, samples, npcm, ssf, ch, k, at, Ghost(all))?;
        k = k + 1;
    }
    assert(c.head@.abits[ch as int] == c.head.abits@[ch as int]@);
    Ok(())
}

/// One subsubframe, and the sync word that may end it.
pub open spec fn subsub_step(m: AudioModel, pos: int, nssf: int) -> spec_fn(
    int,
    Seq<Seq<i32>>,
    int,
) -> (Seq<Seq<i32>>, Result<int, CoreError>) {
    |ssf: int, s: Seq<Seq<i32>>, q: int|
        match thread(channel_step(m, ssf, 4 + pos + 8 * ssf), s, q, m.n) {
            (t, Err(e)) => (t, Err(e)),
            (t, Ok(w)) => if ssf != nssf - 1 && !m.sync_ssf {
                (t, Ok(w))
            } else if w + 16 > m.lim {
                (t, Err(CoreError::Bitstream))
            } else if field(m.d, w, 16) != 0xffff {
                (t, Err(CoreError::Invalid("dsync")))
            } else {
                (t, Ok(w + 16))
            },
        }
}

fn parse_subsub(
    gb: &mut BitReader<'_>,
    c: &AudioContext<'_>,
    samples: &mut Vec<Vec<i32>>,
    npcm: usize,
    pos: usize,
    nssf: usize,
    ssf: usize,
    Ghost(all): Ghost<Seq<usize>>,
) -> (r: Result<(), CoreError>)
    requires
        old(gb).wf(),
        c.wf(all),
        shape(old(samples)@, npcm as int),
        ssf < nssf <= 4,
        pos + 8 * nssf <= npcm,
    ensures
        final(gb).wf(),
        final(gb).same_source(old(gb)),
        old(gb).pos() <= final(gb).pos(),
        shape(final(samples)@, npcm as int),
        threaded(r, rows(final(samples)@), final(gb).pos(), subsub_step(c.model(old(gb).data(), old(gb).limit()), pos as int, nssf as int)(
            ssf as int,
            rows(old(samples)@),
            old(gb).pos(),
        )),
{
    let ghost m = c.model(gb.data(), gb.limit());
    let ghost step = channel_step(m, ssf as int, 4 + pos + 8 * ssf);
    let ghost first = rows(samples@);
    let ghost p = gb.pos();
    let n: usize = c.n;
    let mut k: usize = 0;
    while k < n
        invariant
            gb.wf(),
            gb.same_source(old(gb)),
            old(gb).pos() <= gb.pos(),
            m == c.model(gb.data(), gb.limit()),
            step == channel_step(m, ssf as int, 4 + pos + 8 * ssf),
            first == rows(old(samples)@),
            p == old(gb).pos(),
            c.wf(all),
            shape(samples@, npcm as int),
            k <= n,
            thread(step, first, p, k as int) == (rows(samples@), Ok::<int, CoreError>(gb.pos())),
            ssf < nssf <= 4,
            pos + 8 * nssf <= npcm,
            n == c.n,
        decreases n - k,
    {
        proof {
            lemma_thread_step(step, first, p, k as int, n as int);
        }
        parse_channel(gb, c, samples, npcm, ssf, k, 4 + pos + 8 * ssf, Ghost(all))?;
        k = k + 1;
    }
    if ssf == nssf - 1 || c.sync_ssf {
        if rb(gb, 16)? != 0xffff {
            return Err(CoreError::Invalid("dsync"));
        }
    }
    Ok(())
}

pub(crate) fn parse_subsubs(
    gb: &mut BitReader<'_>,
    c: &AudioContext<'_>,
    samples: &mut Vec<Vec<i32>>,
    npcm: usize,
    pos: usize,
    nssf: usize,
    Ghost(all): Ghost<Seq<usize>>,
) -> (r: Result<(), CoreError>)
    requires
        old(gb).wf(),
        c.wf(all),
        shape(old(samples)@, npcm as int),
        nssf <= 4,
        pos + 8 * nssf <= npcm,
    ensures
        final(gb).wf(),
        final(gb).same_source(old(gb)),
        old(gb).pos() <= final(gb).pos(),
        shape(final(samples)@, npcm as int),
        threaded(r, rows(final(samples)@), final(gb).pos(), thread(
            subsub_step(c.model(old(gb).data(), old(gb).limit()), pos as int, nssf as int),
            rows(old(samples)@),
            old(gb).pos(),
            nssf as int,
        )),
{
    let ghost m = c.model(gb.data(), gb.limit());
    let ghost step = subsub_step(m, pos as int, nssf as int);
    let ghost first = rows(samples@);
    let ghost p = gb.pos();
    let n: usize = nssf;
    let mut k: usize = 0;
    while k < n
        invariant
            gb.wf(),
            gb.same_source(old(gb)),
            old(gb).pos() <= gb.pos(),
            m == c.model(gb.data(), gb.limit()),
            step == subsub_step(m, pos as int, nssf as int),
            first == rows(old(samples)@),
            p == old(gb).pos(),
            c.wf(all),
            shape(samples@, npcm as int),
            k <= n,
            thread(step, first, p, k as int) == (rows(samples@), Ok::<int, CoreError>(gb.pos())),
            nssf <= 4,
            pos + 8 * nssf <= npcm,
            n == nssf,
        decreases n - k,
    {
        proof {
            lemma_thread_step(step, first, p, k as int, n as int);
        }
        parse_subsub(gb, c, samples, npcm, pos, nssf, k, Ghost(all))?;
        k = k + 1;
    }
    Ok(())
}

} // verus!
