//! From subband samples to PCM: the synthesis filter banks and the
//! interpolation of the low-frequency channel, in fixed point.

use vstd::prelude::*;
use crate::bits::code_space;
use crate::grammar::rows;
use super::core_audio::written;
use super::core_bands::Audio;
use super::core_frame::same_below;
use super::core_decoder::{
    channel_speaker, core_kept, output_mask, relevelled, shifted_lfe, undone, unmix_channels,
    unmix_speakers, zeros, CoreDecoder, CoreModel, Unmix, XxchModel,
};
use super::core_output::{
    empty_slots, set_slot, slot_views, slots_even, CoreOutput, CorePcm, DCA_SPEAKER_LFE1,
};
use super::fixed::{clip23, clipped, norm, rounded, wrap32};
use super::parser::AudioMode;
use super::imdct::{imdct_32, imdct_64, imdct_half_32, imdct_half_64, in24};

verus! {

/// Constant tables of the synthesis.
#[derive(Clone, Debug)]
pub struct SynthTables {
    /// Window of the 32-band bank with perfect reconstruction.
    pub fir_perfect: [i32; 512],
    /// Window of the 32-band bank without.
    pub fir_nonperfect: [i32; 512],
    /// Window of the 64-band bank.
    pub fir_64: [i32; 1024],
    /// Interpolation filter of the low-frequency channel.
    pub lfe_fir: [i32; 256],
}

impl SynthTables {
    pub open spec fn wf(&self) -> bool {
        forall|i: int|
            0 <= i < 256 ==> -0x800_0000 <= #[trigger] self.lfe_fir@[i] <= 0x800_0000
    }

    /// Whether the tables are fit to synthesize with.
    pub fn is_valid(&self) -> (r: bool)
        ensures
            r == self.wf(),
    {
        let mut i: usize = 0;
        while i < 256
            invariant
                i <= 256,
                forall|k: int|
                    0 <= k < i ==> -0x800_0000 <= #[trigger] self.lfe_fir@[k] <= 0x800_0000,
            decreases 256 - i,
        {
            if self.lfe_fir[i] < -0x800_0000 || self.lfe_fir[i] > 0x800_0000 {
                assert(!(-0x800_0000 <= self.lfe_fir@[i as int] <= 0x800_0000));
                return false;
            }
            i = i + 1;
        }
        true
    }
}

/// Delay line of a channel's filter bank.
pub ghost struct Line {
    pub h1: Seq<i32>,
    pub h2: Seq<i32>,
    pub off: int,
}

/// A line without history.
pub open spec fn fresh_line() -> Line {
    Line { h1: zeros(1024), h2: zeros(64), off: 0 }
}

/// The sum of the first `n` products of a window from `w` on, and of a ring of
/// `64h / 2` values from `off` on, both in steps of `4h`, `x` values further.
pub open spec fn taps(window: Seq<i32>, w: int, ring: Seq<i32>, off: int, x: int, h: int, n: int) -> int
    decreases n,
{
    if n <= 0 {
        0
    } else {
        taps(window, w, ring, off, x, h, n - 1) + window[w + 4 * h * (n - 1)] * ring[(off + 4 * h * (
        n - 1)) % (32 * h) + x]
    }
}

/// A sum with `s` fraction bits.
pub open spec fn settled_sum(sum: int, s: int) -> int {
    wrap32(rounded(sum, s))
}

/// One block through a bank of `2h` bands with `s` fraction bits: the line
/// after it, and `2h` samples.
pub open spec fn filtered(line: Line, window: Seq<i32>, spectrum: Seq<i32>, h: int, s: int) -> (
    Line,
    Seq<i32>,
) {
    let ring = written(line.h1, line.off, spectrum);
    (
        Line {
            h1: ring,
            h2: Seq::new(
                line.h2.len(),
                |i: int|
                    if i < h {
                        settled_sum(taps(window, i + 2 * h, ring, line.off, h + i, h, 8), s) as i32
                    } else if i < 2 * h {
                        settled_sum(
                            taps(window, i + 2 * h, ring, line.off, 3 * h - 1 - i, h, 8),
                            s,
                        ) as i32
                    } else {
                        line.h2[i]
                    },
            ),
            off: if line.off >= 2 * h { line.off - 2 * h } else { line.off + 30 * h },
        },
        Seq::new(
            (2 * h) as nat,
            |i: int|
                if i < h {
                    clipped(
                        settled_sum(
                            line.h2[i] * code_space(s) + taps(window, i, ring, line.off, i, h, 8),
                            s,
                        ),
                    ) as i32
                } else {
                    clipped(
                        settled_sum(
                            line.h2[i] * code_space(s) + taps(
                                window,
                                i,
                                ring,
                                line.off,
                                2 * h - 1 - i,
                                h,
                                8,
                            ),
                            s,
                        ),
                    ) as i32
                },
        ),
    )
}

/// Positions at which a bank of `2h` bands starts a block.
pub open spec fn on_grid(off: int, h: int) -> bool {
    if h == 16 { off % 32 == 0 } else { off % 64 == 0 }
}

/// Lines that a bank of `2h` bands keeps.
pub open spec fn line_wf(line: Line, h: int) -> bool {
    &&& line.h1.len() == 1024
    &&& in24(line.h1)
    &&& line.h2.len() == 64
    &&& 0 <= line.off <= 30 * h
    &&& on_grid(line.off, h)
}

/// Delay line of a channel, with room for the larger bank.
#[derive(Clone, Debug)]
pub struct ChannelSynth {
    hist1: Vec<i32>,
    hist2: Vec<i32>,
    offset: usize,
}

impl View for ChannelSynth {
    type V = Line;

    closed spec fn view(&self) -> Line {
        Line { h1: self.hist1@, h2: self.hist2@, off: self.offset as int }
    }
}

fn zero_vec(n: usize) -> (r: Vec<i32>)
    ensures
        r@ == zeros(n as int),
{
    let mut r: Vec<i32> = Vec::new();
    while r.len() < n
        invariant
            r@.len() <= n,
            forall|i: int| 0 <= i < r@.len() ==> r@[i] == 0,
        decreases n - r.len(),
    {
        r.push(0);
    }
    assert(r@ =~= zeros(n as int));
    r
}

proof fn lemma_ring(off: int, k: int, h: int)
    requires
        h == 16 || h == 32,
        0 <= off <= 30 * h,
        on_grid(off, h),
        0 <= k < 8,
    ensures
        0 <= (off + 4 * h * k) % (32 * h) <= 30 * h,
{
    if h == 16 {
        assert(4 * h * k == 64 * k) by (nonlinear_arith)
            requires
                h == 16,
        ;
        assert((off + 64 * k) % 512 <= 480);
    } else {
        assert(4 * h * k == 128 * k) by (nonlinear_arith)
            requires
                h == 32,
        ;
        assert((off + 128 * k) % 1024 <= 960);
    }
}

/// [`taps`] of eight products.
fn tap_sum(window: &[i32], w: usize, ring: &Vec<i32>, off: usize, x: usize, h: usize) -> (r: i64)
    requires
        h == 16 || h == 32,
        window@.len() == 32 * h,
        w < 4 * h,
        ring@.len() == 1024,
        in24(ring@),
        off <= 30 * h,
        on_grid(off as int, h as int),
        x < 2 * h,
    ensures
        r == taps(window@, w as int, ring@, off as int, x as int, h as int, 8),
        -0x200_0000_0000_0000 <= r <= 0x200_0000_0000_0000,
{
    let mut r: i64 = 0;
    let mut k: usize = 0;
    while k < 8
        invariant
            k <= 8,
            h == 16 || h == 32,
            window@.len() == 32 * h,
            w < 4 * h,
            ring@.len() == 1024,
            in24(ring@),
            off <= 30 * h,
            on_grid(off as int, h as int),
            x < 2 * h,
            r == taps(window@, w as int, ring@, off as int, x as int, h as int, k as int),
            -0x40_0000_0000_0000 * k <= r <= 0x40_0000_0000_0000 * k,
        decreases 8 - k,
    {
        proof {
            lemma_ring(off as int, k as int, h as int);
            assert(4 * h * k <= 4 * h * 7) by (nonlinear_arith)
                requires
                    k <= 7,
            ;
        }
        let at: usize = (off + 4 * h * k) % (32 * h) + x;
        let c: i32 = window[w + 4 * h * k];
        let y: i32 = ring[at];
        proof {
            assert(-0x80_0000 <= ring@[at as int] <= 0x7f_ffff);
            assert(-0x40_0000_0000_0000 <= c * y <= 0x40_0000_0000_0000) by (nonlinear_arith)
                requires
                    -0x8000_0000 <= c <= 0x7fff_ffff,
                    -0x80_0000 <= y <= 0x7f_ffff,
            ;
        }
        r = r + c as i64 * y as i64;
        k = k + 1;
    }
    r
}

impl ChannelSynth {
    pub fn new() -> (r: Self)
        ensures
            r@ == fresh_line(),
    {
        ChannelSynth { hist1: zero_vec(1024), hist2: zero_vec(64), offset: 0 }
    }

    /// Write the newest spectrum over the oldest.
    fn store(&mut self, spectrum: &Vec<i32>)
        requires
            old(self)@.h1.len() == 1024,
            old(self)@.off + spectrum@.len() <= 1024,
            in24(old(self)@.h1),
            in24(spectrum@),
        ensures
            final(self)@ == (Line {
                h1: written(old(self)@.h1, old(self)@.off, spectrum@),
                ..old(self)@
            }),
            in24(final(self)@.h1),
            final(self)@.h1.len() == 1024,
    {
        let n: usize = spectrum.len();
        let off: usize = self.offset;
        let mut i: usize = 0;
        while i < n
            invariant
                i <= n,
                n == spectrum@.len(),
                off == self.offset,
                off == old(self).offset,
                off + n <= 1024,
                self.hist1@.len() == 1024,
                old(self).hist1@.len() == 1024,
                self.hist2@ == old(self).hist2@,
                in24(spectrum@),
                in24(self.hist1@),
                forall|k: int|
                    0 <= k < 1024 ==> self.hist1@[k] == if off <= k < off + i {
                        spectrum@[k - off]
                    } else {
                        old(self).hist1@[k]
                    },
            decreases n - i,
        {
            self.hist1.set(off + i, spectrum[i]);
            i = i + 1;
        }
        assert(self.hist1@ =~= written(old(self).hist1@, off as int, spectrum@));
    }

    /// One block through a bank of `2h` bands.
    fn filter(&mut self, window: &[i32], spectrum: &Vec<i32>, h: usize, s: u32) -> (r: Vec<i32>)
        requires
            h == 16 || h == 32,
            s == 20 || s == 21,
            line_wf(old(self)@, h as int),
            window@.len() == 32 * h,
            spectrum@.len() == 2 * h,
            in24(spectrum@),
        ensures
            (final(self)@, r@) == filtered(
                old(self)@,
                window@,
                spectrum@,
                h as int,
                s as int,
            ),
            line_wf(final(self)@, h as int),
            r@.len() == 2 * h,
    {
        let ghost want = filtered(self@, window@, spectrum@, h as int, s as int);
        self.store(spectrum);
        let off: usize = self.offset;
        let unit: i64 = crate::bits::power_of_two(s);
        assert(unit <= 0x20_0000);
        let mut out: Vec<i32> = Vec::new();
        let mut next: Vec<i32> = Vec::new();
        while out.len() < 2 * h
            invariant
                h == 16 || h == 32,
                s == 20 || s == 21,
                unit == code_space(s as int),
                0 <= unit <= 0x20_0000,
                window@.len() == 32 * h,
                self.hist1@ == want.0.h1,
                self.hist1@.len() == 1024,
                in24(self.hist1@),
                self.hist2@ == old(self).hist2@,
                self.hist2@.len() == 64,
                self.offset == old(self).offset,
                off == self.offset,
                off <= 30 * h,
                on_grid(off as int, h as int),
                want == filtered(old(self)@, window@, spectrum@, h as int, s as int),
                out@.len() <= 2 * h,
                next@.len() == out@.len(),
                forall|i: int| 0 <= i < out@.len() ==> out@[i] == want.1[i],
                forall|i: int| 0 <= i < next@.len() ==> next@[i] == want.0.h2[i],
            decreases 2 * h - out.len(),
        {
            let i: usize = out.len();
            let x: usize = if i < h { i } else { 2 * h - 1 - i };
            let y: usize = if i < h { h + i } else { 3 * h - 1 - i };
            let a: i64 = tap_sum(window, i, &self.hist1, off, x, h);
            let c: i64 = tap_sum(window, i + 2 * h, &self.hist1, off, y, h);
            let kept: i32 = self.hist2[i];
            proof {
                assert(-0x10_0000_0000_0000 <= kept * unit <= 0x10_0000_0000_0000) by (nonlinear_arith)
                    requires
                        -0x8000_0000 <= kept <= 0x7fff_ffff,
                        0 <= unit <= 0x20_0000,
                ;
            }
            out.push(clip23(norm(kept as i64 * unit + a, s)));
            next.push(norm(c, s));
        }
        let mut k: usize = 2 * h;
        while k < 64
            invariant
                2 * h <= k <= 64,
                h == 16 || h == 32,
                next@.len() == k,
                self.hist2@ == old(self).hist2@,
                self.hist2@.len() == 64,
                want == filtered(old(self)@, window@, spectrum@, h as int, s as int),
                forall|i: int| 0 <= i < next@.len() ==> next@[i] == want.0.h2[i],
            decreases 64 - k,
        {
            next.push(self.hist2[k]);
            k = k + 1;
        }
        assert(out@ =~= want.1);
        assert(next@ =~= want.0.h2);
        self.hist2 = next;
        self.offset = if off >= 2 * h { off - 2 * h } else { off + 30 * h };
        proof {
            if h == 16 {
                assert(self.offset as int % 32 == 0);
            } else {
                assert(self.offset as int % 64 == 0);
            }
        }
        out
    }

    /// One block through the 32-band bank.
    pub fn synth_filter(&mut self, window: &[i32; 512], input: &Vec<i32>) -> (r: Vec<i32>)
        requires
            line_wf(old(self)@, 16),
            input@.len() == 32,
        ensures
            (final(self)@, r@) == filtered(old(self)@, window@, imdct_32(input@), 16, 21),
            line_wf(final(self)@, 16),
            r@.len() == 32,
    {
        let spectrum: Vec<i32> = imdct_half_32(input);
        self.filter(window, &spectrum, 16, 21)
    }

    /// One block through the 64-band bank, at twice the rate.
    pub fn synth_filter_64(&mut self, window: &[i32; 1024], input: &Vec<i32>) -> (r: Vec<i32>)
        requires
            line_wf(old(self)@, 32),
            input@.len() == 64,
        ensures
            (final(self)@, r@) == filtered(old(self)@, window@, imdct_64(input@), 32, 20),
            line_wf(final(self)@, 32),
            r@.len() == 64,
    {
        let spectrum: Vec<i32> = imdct_half_64(input);
        self.filter(window, &spectrum, 32, 20)
    }
}

/// The sample before sample `i`.
pub open spec fn before(src: Seq<i32>, hist: i32, i: int) -> int {
    if i == 0 { hist as int } else { src[i - 1] as int }
}

/// Two samples for each one, between it and the one before.
pub open spec fn doubled(src: Seq<i32>, hist: i32) -> Seq<i32> {
    Seq::new(
        2 * src.len(),
        |k: int|
            if k % 2 == 0 {
                clipped(
                    wrap32(
                        rounded(2_097_471 * src[k / 2] + 6_291_137 * before(src, hist, k / 2), 23),
                    ),
                ) as i32
            } else {
                clipped(
                    wrap32(
                        rounded(6_291_137 * src[k / 2] + 2_097_471 * before(src, hist, k / 2), 23),
                    ),
                ) as i32
            },
    )
}

/// The last sample, or `hist` without one.
pub open spec fn last_of(src: Seq<i32>, hist: i32) -> i32 {
    if src.len() == 0 { hist } else { src[src.len() - 1] }
}

/// Double the rate of the low-frequency channel; the last sample is kept for
/// the next call.
pub fn lfe_x96_fixed(src: &[i32], hist: &mut i32) -> (r: Vec<i32>)
    requires
        2 * src@.len() <= usize::MAX,
    ensures
        r@ == doubled(src@, *old(hist)),
        *final(hist) == last_of(src@, *old(hist)),
{
    let n: usize = src.len();
    let mut r: Vec<i32> = Vec::new();
    let mut prev: i32 = *hist;
    let mut i: usize = 0;
    while i < n
        invariant
            i <= n,
            n == src@.len(),
            2 * n <= usize::MAX,
            *hist == *old(hist),
            prev == before(src@, *old(hist), i as int),
            r@.len() == 2 * i,
            forall|k: int| 0 <= k < r@.len() ==> r@[k] == doubled(src@, *old(hist))[k],
        decreases n - i,
    {
        let s: i64 = src[i] as i64;
        let p: i64 = prev as i64;
        r.push(clip23(norm(2_097_471 * s + 6_291_137 * p, 23)));
        r.push(clip23(norm(6_291_137 * s + 2_097_471 * p, 23)));
        prev = src[i];
        i = i + 1;
        assert(forall|k: int| 0 <= k < r@.len() ==> r@[k] == doubled(src@, *old(hist))[k]);
    }
    assert(r@ =~= doubled(src@, *old(hist)));
    *hist = prev;
    r
}

/// The sum of the first `n` products of a filter from `at` on, forwards or
/// backwards, and the samples from `centre` back.
pub open spec fn lfe_taps(coeff: Seq<i32>, at: int, dir: int, lfe: Seq<i32>, centre: int, n: int) -> int
    decreases n,
{
    if n <= 0 {
        0
    } else {
        lfe_taps(coeff, at, dir, lfe, centre, n - 1) + coeff[at + dir * (n - 1)] * lfe[centre - (n
            - 1)]
    }
}

/// Sample `k` of the interpolated low-frequency channel: 64 for each sample,
/// the later half by the filter backwards.
pub open spec fn lfe_sample(coeff: Seq<i32>, lfe: Seq<i32>, k: int) -> int {
    let centre = 8 + k / 64;
    let j = k % 32;
    let sum = if k % 64 < 32 {
        lfe_taps(coeff, 8 * j, 1, lfe, centre, 8)
    } else {
        lfe_taps(coeff, 255 - 8 * j, -1, lfe, centre, 8)
    };
    clipped(wrap32(rounded(sum, 23)))
}

/// The low-frequency channel of `npcm` blocks.
pub open spec fn lfe_pcm(coeff: Seq<i32>, lfe: Seq<i32>, npcm: int) -> Seq<i32> {
    Seq::new((32 * npcm) as nat, |k: int| lfe_sample(coeff, lfe, k) as i32)
}

fn lfe_tap_sum(coeff: &[i32; 256], at: usize, forward: bool, lfe: &Vec<i32>, centre: usize) -> (r: i64)
    requires
        forward ==> at + 8 <= 256,
        !forward ==> 7 <= at < 256,
        7 <= centre < lfe@.len(),
        forall|i: int| 0 <= i < 256 ==> -0x800_0000 <= #[trigger] coeff@[i] <= 0x800_0000,
    ensures
        r == lfe_taps(
            coeff@,
            at as int,
            if forward { 1 } else { -1 },
            lfe@,
            centre as int,
            8,
        ),
        -0x2000_0000_0000_0000 <= r <= 0x2000_0000_0000_0000,
{
    let ghost dir: int = if forward { 1 } else { -1 };
    let mut r: i64 = 0;
    let mut k: usize = 0;
    while k < 8
        invariant
            k <= 8,
            dir == if forward { 1int } else { -1int },
            forward ==> at + 8 <= 256,
            !forward ==> 7 <= at < 256,
            7 <= centre < lfe@.len(),
            forall|i: int| 0 <= i < 256 ==> -0x800_0000 <= #[trigger] coeff@[i] <= 0x800_0000,
            r == lfe_taps(coeff@, at as int, dir, lfe@, centre as int, k as int),
            -0x400_0000_0000_0000 * k <= r <= 0x400_0000_0000_0000 * k,
        decreases 8 - k,
    {
        let c: i32 = if forward { coeff[at + k] } else { coeff[at - k] };
        let x: i32 = lfe[centre - k];
        proof {
            assert(dir * k == if forward { k as int } else { -(k as int) });
            assert(-0x400_0000_0000_0000 <= c * x <= 0x400_0000_0000_0000) by (nonlinear_arith)
                requires
                    -0x800_0000 <= c <= 0x800_0000,
                    -0x8000_0000 <= x <= 0x7fff_ffff,
            ;
        }
        r = r + c as i64 * x as i64;
        k = k + 1;
    }
    r
}

/// Interpolate the low-frequency channel of the decoded frame, and keep its
/// last samples for the next.
pub fn lfe_synth_fixed(dec: &mut CoreDecoder, t: &SynthTables) -> (r: Vec<i32>)
    requires
        old(dec).inv(),
        old(dec)@.ready(),
        t.wf(),
    ensures
        final(dec).inv(),
        final(dec)@.ready(),
        final(dec)@ == lfe_kept(old(dec)@),
        r@ == lfe_pcm(t.lfe_fir@, old(dec)@.audio.lfe, old(dec)@.npcm),
{
    let n: usize = 32 * dec.npcmblocks();
    let ghost lfe = dec@.audio.lfe;
    let ghost npcm = dec@.npcm;
    let mut r: Vec<i32> = Vec::new();
    while r.len() < n
        invariant
            *dec == *old(dec),
            dec.inv(),
            dec@.ready(),
            t.wf(),
            lfe == dec@.audio.lfe,
            npcm == dec@.npcm,
            n == 32 * npcm,
            r@.len() <= n,
            forall|k: int| 0 <= k < r@.len() ==> r@[k] == lfe_pcm(t.lfe_fir@, lfe, npcm)[k],
        decreases n - r.len(),
    {
        let k: usize = r.len();
        let j: usize = k % 32;
        let centre: usize = 8 + k / 64;
        let sum: i64 = if k % 64 < 32 {
            lfe_tap_sum(&t.lfe_fir, 8 * j, true, dec.lfe(), centre)
        } else {
            lfe_tap_sum(&t.lfe_fir, 255 - 8 * j, false, dec.lfe(), centre)
        };
        r.push(clip23(norm(sum, 23)));
    }
    assert(r@ =~= lfe_pcm(t.lfe_fir@, lfe, npcm));
    let half: usize = dec.npcmblocks() / 2;
    dec.shift_lfe_history(half);
    r
}

/// The decoder with the last low-frequency samples moved to the front.
pub open spec fn lfe_kept(m: CoreModel) -> CoreModel {
    CoreModel {
        audio: Audio { lfe: shifted_lfe(m.audio.lfe, m.npcm / 2), ..m.audio },
        ..m
    }
}

/// The input of a bank for block `j` of channel `ch`: the upper bands of the
/// larger bank are silent.
pub open spec fn block_input(audio: Audio, ch: int, j: int, wide: bool) -> Seq<i32> {
    Seq::new(
        if wide { 64 } else { 32 },
        |i: int| if i < 32 { audio.samples[32 * ch + i][4 + j] } else { 0 },
    )
}

fn gather(dec: &CoreDecoder, ch: usize, j: usize, wide: bool) -> (r: Vec<i32>)
    requires
        dec.inv(),
        dec@.ready(),
        ch < 12,
        j < dec@.npcm,
    ensures
        r@ == block_input(dec@.audio, ch as int, j as int, wide),
{
    let n: usize = if wide { 64 } else { 32 };
    let mut r: Vec<i32> = Vec::new();
    while r.len() < n
        invariant
            dec.inv(),
            dec@.ready(),
            ch < 12,
            j < dec@.npcm,
            n == if wide { 64int } else { 32int },
            r@.len() <= n,
            forall|i: int|
                0 <= i < r@.len() ==> r@[i] == block_input(
                    dec@.audio,
                    ch as int,
                    j as int,
                    wide,
                )[i],
        decreases n - r.len(),
    {
        let band: usize = r.len();
        let x: i32 = if band < 32 { dec.subband(ch, band, j) } else { 0 };
        r.push(x);
    }
    assert(r@ =~= block_input(dec@.audio, ch as int, j as int, wide));
    r
}

/// The window of the bank that a frame asks for.
pub open spec fn window_of(t: SynthTables, perfect: bool, wide: bool) -> Seq<i32> {
    if wide {
        t.fir_64@
    } else if perfect {
        t.fir_perfect@
    } else {
        t.fir_nonperfect@
    }
}

/// Block `j` of a channel through its bank.
pub open spec fn block_filtered(line: Line, window: Seq<i32>, audio: Audio, ch: int, j: int, wide: bool) -> (
    Line,
    Seq<i32>,
) {
    if wide {
        filtered(line, window, imdct_64(block_input(audio, ch, j, wide)), 32, 20)
    } else {
        filtered(line, window, imdct_32(block_input(audio, ch, j, wide)), 16, 21)
    }
}

/// The first `n` blocks of a channel: the line after them, and the samples.
pub open spec fn channel_pcm(line: Line, window: Seq<i32>, audio: Audio, ch: int, wide: bool, n: int) -> (
    Line,
    Seq<i32>,
)
    decreases n,
{
    if n <= 0 {
        (line, Seq::empty())
    } else {
        let (l, out) = channel_pcm(line, window, audio, ch, wide, n - 1);
        let (k, more) = block_filtered(l, window, audio, ch, n - 1, wide);
        (k, out + more)
    }
}

/// Bands of a bank, halved.
pub open spec fn bank(wide: bool) -> int {
    if wide { 32 } else { 16 }
}

fn append(out: &mut Vec<i32>, more: &Vec<i32>)
    ensures
        final(out)@ == old(out)@ + more@,
{
    let n: usize = more.len();
    let mut i: usize = 0;
    while i < n
        invariant
            i <= n,
            n == more@.len(),
            out@ == old(out)@ + more@.subrange(0, i as int),
        decreases n - i,
    {
        out.push(more[i]);
        i = i + 1;
        assert(out@ =~= old(out)@ + more@.subrange(0, i as int));
    }
    assert(more@.subrange(0, n as int) =~= more@);
}

fn run_channel(line: &mut ChannelSynth, t: &SynthTables, dec: &CoreDecoder, ch: usize, wide: bool) -> (r: Vec<
    i32,
>)
    requires
        line_wf(old(line)@, bank(wide)),
        dec.inv(),
        dec@.ready(),
        ch < 12,
    ensures
        (final(line)@, r@) == channel_pcm(
            old(line)@,
            window_of(*t, dec@.filter_perfect, wide),
            dec@.audio,
            ch as int,
            wide,
            dec@.npcm,
        ),
        line_wf(final(line)@, bank(wide)),
        r@.len() == 2 * bank(wide) * dec@.npcm,
{
    let ghost window = window_of(*t, dec@.filter_perfect, wide);
    let n: usize = dec.npcmblocks();
    let perfect: bool = dec.filter_perfect();
    let mut out: Vec<i32> = Vec::new();
    let mut j: usize = 0;
    assert(out@ =~= Seq::<i32>::empty());
    while j < n
        invariant
            dec.inv(),
            dec@.ready(),
            ch < 12,
            n == dec@.npcm,
            perfect == dec@.filter_perfect,
            window == window_of(*t, perfect, wide),
            j <= n,
            line_wf(line@, bank(wide)),
            (line@, out@) == channel_pcm(old(line)@, window, dec@.audio, ch as int, wide, j as int),
            out@.len() == 2 * bank(wide) * j,
        decreases n - j,
    {
        let input: Vec<i32> = gather(dec, ch, j, wide);
        let more: Vec<i32> = if wide {
            line.synth_filter_64(&t.fir_64, &input)
        } else if perfect {
            line.synth_filter(&t.fir_perfect, &input)
        } else {
            line.synth_filter(&t.fir_nonperfect, &input)
        };
        append(&mut out, &more);
        proof {
            assert(2 * bank(wide) * (j + 1) == 2 * bank(wide) * j + 2 * bank(wide)) by (nonlinear_arith);
        }
        j = j + 1;
    }
    out
}

pub open spec fn lines_of(v: Seq<ChannelSynth>) -> Seq<Line> {
    Seq::new(v.len(), |i: int| v[i]@)
}

/// Filter banks of all channels, kept from frame to frame.
pub ghost struct SynthModel {
    pub lines: Seq<Line>,
    /// The lines hold the history of the larger bank.
    pub x96: bool,
    pub lfe_hist: i32,
}

impl SynthModel {
    pub open spec fn wf(&self) -> bool {
        forall|i: int| 0 <= i < self.lines.len() ==> line_wf(#[trigger] self.lines[i], bank(self.x96))
    }
}

pub open spec fn synth_reset(s: SynthModel) -> SynthModel {
    SynthModel { lines: Seq::new(s.lines.len(), |i: int| fresh_line()), lfe_hist: 0, ..s }
}

/// The banks of the other size start without history.
pub open spec fn mode_set(s: SynthModel, x96: bool) -> SynthModel {
    if s.x96 == x96 { s } else { synth_reset(SynthModel { x96, ..s }) }
}

/// At least `n` channels.
pub open spec fn widened(lines: Seq<Line>, n: int) -> Seq<Line> {
    if lines.len() >= n {
        lines
    } else {
        Seq::new(n as nat, |i: int| if i < lines.len() { lines[i] } else { fresh_line() })
    }
}

/// Channels synthesized so far.
pub ghost struct Voices {
    pub lines: Seq<Line>,
    pub slots: Seq<Option<Seq<i32>>>,
    pub extension: Seq<Seq<i32>>,
}

/// The first `k` channels of a frame, each in its speaker's slot; those of a
/// bare set apart.
pub open spec fn voices(m: CoreModel, t: SynthTables, lines: Seq<Line>, wide: bool, k: int) -> Voices
    decreases k,
{
    if k <= 0 {
        Voices {
            lines,
            slots: Seq::new(32, |i: int| None::<Seq<i32>>),
            extension: Seq::empty(),
        }
    } else {
        let v = voices(m, t, lines, wide, k - 1);
        let (line, pcm) = channel_pcm(
            v.lines[k - 1],
            window_of(t, m.filter_perfect, wide),
            m.audio,
            k - 1,
            wide,
            m.npcm,
        );
        let lines = v.lines.update(k - 1, line);
        match channel_speaker(m, k - 1) {
            Some(spkr) => Voices { lines, slots: v.slots.update(spkr as int, Some(pcm)), ..v },
            None => if k - 1 >= m.extension_base {
                Voices { lines, extension: v.extension.push(pcm), ..v }
            } else {
                Voices { lines, ..v }
            },
        }
    }
}

/// A decoded frame synthesized: the banks and the decoder after it, and what
/// it plays. Only a low-frequency channel of the second kind is played.
pub open spec fn synthesized(s: SynthModel, t: SynthTables, m: CoreModel, x96: bool) -> (
    SynthModel,
    CoreModel,
    CorePcm,
) {
    let set = mode_set(s, x96);
    let v = voices(m, t, widened(set.lines, m.nchannels), x96, m.nchannels);
    let base = lfe_pcm(t.lfe_fir@, m.audio.lfe, m.npcm);
    let lfe = m.lfe_present == 2;
    let slots = if !lfe {
        v.slots
    } else {
        v.slots.update(5, Some(if x96 { doubled(base, set.lfe_hist) } else { base }))
    };
    (
        SynthModel {
            lines: v.lines,
            lfe_hist: if lfe && x96 { last_of(base, set.lfe_hist) } else { set.lfe_hist },
            ..set
        },
        if lfe { lfe_kept(m) } else { m },
        CorePcm {
            slots: undone(m, slots),
            extension: v.extension,
            npcmsamples: 2 * bank(x96) * m.npcm,
            output_rate: if x96 { 2 * m.sample_rate } else { m.sample_rate as int },
            ch_mask: output_mask(m),
        },
    )
}

/// [`SynthModel`] as the decoder holds it.
#[derive(Clone, Debug)]
pub struct SynthState {
    channels: Vec<ChannelSynth>,
    x96_mode: bool,
    lfe_x96_hist: i32,
}

impl View for SynthState {
    type V = SynthModel;

    closed spec fn view(&self) -> SynthModel {
        SynthModel {
            lines: lines_of(self.channels@),
            x96: self.x96_mode,
            lfe_hist: self.lfe_x96_hist,
        }
    }
}

impl SynthState {
    pub fn new() -> (r: Self)
        ensures
            r@ == (SynthModel { lines: Seq::empty(), x96: false, lfe_hist: 0 }),
            r@.wf(),
    {
        let r = SynthState { channels: Vec::new(), x96_mode: false, lfe_x96_hist: 0 };
        assert(r@.lines =~= Seq::<Line>::empty());
        r
    }

    /// Forget all history.
    pub fn reset(&mut self)
        ensures
            final(self)@ == synth_reset(old(self)@),
            final(self)@.wf(),
    {
        let n: usize = self.channels.len();
        let mut i: usize = 0;
        while i < n
            invariant
                i <= n,
                n == self.channels@.len(),
                n == old(self).channels@.len(),
                self.x96_mode == old(self).x96_mode,
                forall|k: int| 0 <= k < i ==> (#[trigger] self.channels@[k])@ == fresh_line(),
            decreases n - i,
        {
            self.channels.set(i, ChannelSynth::new());
            i = i + 1;
        }
        self.lfe_x96_hist = 0;
        assert(self@.lines =~= synth_reset(old(self)@).lines);
    }

    fn set_x96_mode(&mut self, x96: bool)
        requires
            old(self)@.wf(),
        ensures
            final(self)@ == mode_set(old(self)@, x96),
            final(self)@.wf(),
    {
        if self.x96_mode != x96 {
            self.x96_mode = x96;
            self.reset();
        }
    }

    fn widen(&mut self, n: usize)
        requires
            old(self)@.wf(),
        ensures
            final(self)@ == (SynthModel { lines: widened(old(self)@.lines, n as int), ..old(self)@ }),
            final(self)@.wf(),
    {
        let first: usize = self.channels.len();
        while self.channels.len() < n
            invariant
                first == old(self).channels@.len(),
                self.x96_mode == old(self).x96_mode,
                self.lfe_x96_hist == old(self).lfe_x96_hist,
                first <= self.channels@.len(),
                first < n ==> self.channels@.len() <= n,
                first >= n ==> self.channels@.len() == first,
                forall|k: int|
                    0 <= k < self.channels@.len() ==> (#[trigger] self.channels@[k])@ == if k < first {
                        old(self).channels@[k]@
                    } else {
                        fresh_line()
                    },
            decreases n - self.channels.len(),
        {
            self.channels.push(ChannelSynth::new());
        }
        assert(self@.lines =~= widened(old(self)@.lines, n as int));
        assert forall|i: int| 0 <= i < self@.lines.len() implies line_wf(
            #[trigger] self@.lines[i],
            bank(self@.x96),
        ) by {
            if i < first {
                assert(line_wf(old(self)@.lines[i], bank(self@.x96)));
            }
        }
    }

    /// Synthesize a decoded frame, with `x96_synth` through the larger bank at
    /// twice the rate.
    pub fn synthesize_fixed_by_speaker(&mut self, t: &SynthTables, dec: &mut CoreDecoder, x96_synth: bool) -> (r:
        CoreOutput)
        requires
            old(self)@.wf(),
            t.wf(),
            old(dec).inv(),
            old(dec)@.ready(),
        ensures
            final(self)@.wf(),
            final(dec).inv(),
            final(dec)@.ready(),
            (
                final(self)@,
                final(dec)@,
                r@,
            ) == synthesized(old(self)@, *t, old(dec)@, x96_synth),
            r.wf(),
    {
        let n: usize = dec.nchannels();
        self.set_x96_mode(x96_synth);
        self.widen(n);
        let (mut samples, extension): (Vec<Option<Vec<i32>>>, Vec<Vec<i32>>) = self.play_channels(
            t,
            dec,
            x96_synth,
        );
        let ghost m = dec@;
        let rate: u32 = dec.sample_rate();
        let npcm: usize = dec.npcmblocks();
        let mask: u32 = dec.ch_mask();
        self.play_lfe(t, dec, x96_synth, &mut samples);
        proof {
            lemma_undone_by_sets(dec@, m, slot_views(samples@));
            lemma_undone_even(m, slot_views(samples@), 2 * bank(x96_synth) * m.npcm);
        }
        dec.undo_xxch_dmix(&mut samples);
        CoreOutput {
            samples,
            extension,
            npcmsamples: if x96_synth { 64 * npcm } else { 32 * npcm },
            output_rate: if x96_synth { 2 * rate } else { rate },
            ch_mask: mask,
        }
    }

    /// The channels of a frame, each through its bank.
    fn play_channels(&mut self, t: &SynthTables, dec: &CoreDecoder, x96_synth: bool) -> (r: (
        Vec<Option<Vec<i32>>>,
        Vec<Vec<i32>>,
    ))
        requires
            old(self)@.wf(),
            old(self)@.x96 == x96_synth,
            old(self)@.lines.len() >= dec@.nchannels,
            dec.inv(),
            dec@.ready(),
        ensures
            final(self)@.wf(),
            final(self)@ == (SynthModel { lines: final(self)@.lines, ..old(self)@ }),
            (Voices {
                lines: final(self)@.lines,
                slots: slot_views(r.0@),
                extension: rows(r.1@),
            }) == voices(dec@, *t, old(self)@.lines, x96_synth, dec@.nchannels),
            r.0@.len() == 32,
            slots_even(slot_views(r.0@), 2 * bank(x96_synth) * dec@.npcm),
    {
        let n: usize = dec.nchannels();
        let ghost lines = self@.lines;
        let ghost m = dec@;
        let ghost len = 2 * bank(x96_synth) * m.npcm;
        let mut samples: Vec<Option<Vec<i32>>> = empty_slots();
        let mut extension: Vec<Vec<i32>> = Vec::new();
        let first: usize = dec.extension_channels().start;
        let mut ch: usize = 0;
        assert(rows(extension@) =~= Seq::<Seq<i32>>::empty());
        assert(self@.lines.len() == self.channels@.len());
        while ch < n
            invariant
                dec.inv(),
                dec@.ready(),
                dec@ == m,
                n == m.nchannels,
                first == m.extension_base,
                ch <= n,
                self@.wf(),
                self@.x96 == x96_synth,
                self@.lfe_hist == old(self)@.lfe_hist,
                old(self)@.x96 == x96_synth,
                n <= self.channels@.len(),
                samples@.len() == 32,
                len == 2 * bank(x96_synth) * m.npcm,
                slots_even(slot_views(samples@), len),
                voices(m, *t, lines, x96_synth, ch as int) == (Voices {
                    lines: self@.lines,
                    slots: slot_views(samples@),
                    extension: rows(extension@),
                }),
            decreases n - ch,
        {
            let ghost held = self@.lines;
            assert(line_wf(self@.lines[ch as int], bank(x96_synth)));
            let pcm: Vec<i32> = run_channel(&mut self.channels[ch], t, dec, ch, x96_synth);
            assert(self@.lines =~= held.update(ch as int, self.channels@[ch as int]@));
            proof {
                assert forall|i: int| 0 <= i < self@.lines.len() implies line_wf(
                    #[trigger] self@.lines[i],
                    bank(x96_synth),
                ) by {
                    if i != ch {
                        assert(line_wf(held[i], bank(x96_synth)));
                    }
                }
            }
            match dec.speaker_for(ch) {
                Some(spkr) => {
                    set_slot(&mut samples, spkr, pcm);
                },
                None => {
                    if ch >= first {
                        let ghost before = rows(extension@);
                        extension.push(pcm);
                        assert(rows(extension@) =~= before.push(pcm@));
                    }
                },
            }
            ch = ch + 1;
        }
        (samples, extension)
    }

    /// The low-frequency channel of a frame, where it is played.
    fn play_lfe(&mut self, t: &SynthTables, dec: &mut CoreDecoder, x96_synth: bool, samples: &mut Vec<Option<Vec<i32>>>)
        requires
            old(self)@.wf(),
            t.wf(),
            old(dec).inv(),
            old(dec)@.ready(),
            old(samples)@.len() == 32,
            slots_even(slot_views(old(samples)@), 2 * bank(x96_synth) * old(dec)@.npcm),
        ensures
            final(self)@.wf(),
            final(dec).inv(),
            final(dec)@.ready(),
            final(samples)@.len() == 32,
            slots_even(slot_views(final(samples)@), 2 * bank(x96_synth) * old(dec)@.npcm),
            final(dec)@ == if old(dec)@.lfe_present == 2 { lfe_kept(old(dec)@) } else { old(dec)@ },
            ({
                let base = lfe_pcm(t.lfe_fir@, old(dec)@.audio.lfe, old(dec)@.npcm);
                let hist = old(self)@.lfe_hist;
                let lfe = old(dec)@.lfe_present == 2;
                &&& slot_views(final(samples)@) == if !lfe {
                    slot_views(old(samples)@)
                } else {
                    slot_views(old(samples)@).update(
                        5,
                        Some(if x96_synth { doubled(base, hist) } else { base }),
                    )
                }
                &&& final(self)@ == (SynthModel {
                    lfe_hist: if lfe && x96_synth { last_of(base, hist) } else { hist },
                    ..old(self)@
                })
            }),
    {
        if dec.lfe_present() == 2 {
            let npcm: usize = dec.npcmblocks();
            assert(2 * bank(x96_synth) * npcm == if x96_synth { 64 * npcm } else { 32 * npcm });
            let base: Vec<i32> = lfe_synth_fixed(dec, t);
            if x96_synth {
                let out: Vec<i32> = lfe_x96_fixed(base.as_slice(), &mut self.lfe_x96_hist);
                set_slot(samples, DCA_SPEAKER_LFE1, out);
            } else {
                set_slot(samples, DCA_SPEAKER_LFE1, base);
            }
        }
        assert(self@.lines == old(self)@.lines);
    }
}

/// The first `k` channels of a frame through the smaller bank, in the order of
/// the channels.
pub open spec fn channels_pcm(m: CoreModel, t: SynthTables, lines: Seq<Line>, k: int) -> (
    Seq<Line>,
    Seq<Seq<i32>>,
)
    decreases k,
{
    if k <= 0 {
        (lines, Seq::empty())
    } else {
        let (held, out) = channels_pcm(m, t, lines, k - 1);
        let (line, pcm) = channel_pcm(
            held[k - 1],
            window_of(t, m.filter_perfect, false),
            m.audio,
            k - 1,
            false,
            m.npcm,
        );
        (held.update(k - 1, line), out.push(pcm))
    }
}

/// A frame through the smaller banks: the banks and the decoder after it, its
/// channels, and the low-frequency samples that are to be interpolated.
pub open spec fn played(s: SynthModel, t: SynthTables, m: CoreModel) -> (
    SynthModel,
    CoreModel,
    Seq<Seq<i32>>,
    Option<Seq<i32>>,
) {
    let set = mode_set(s, false);
    let (lines, pcm) = channels_pcm(m, t, widened(set.lines, m.nchannels), m.nchannels);
    let lfe = m.lfe_present == 2;
    (
        SynthModel { lines, ..set },
        if lfe { lfe_kept(m) } else { m },
        pcm,
        if lfe { Some(m.audio.lfe) } else { None },
    )
}

impl SynthState {
    /// Synthesize a decoded frame channel by channel; its low-frequency samples
    /// are handed out as they are, behind the eight before them.
    pub fn synthesize(&mut self, t: &SynthTables, dec: &mut CoreDecoder) -> (r: (
        Vec<Vec<i32>>,
        Option<Vec<i32>>,
    ))
        requires
            old(self)@.wf(),
            old(dec).inv(),
            old(dec)@.ready(),
        ensures
            final(self)@.wf(),
            final(dec).inv(),
            final(dec)@.ready(),
            (
                final(self)@,
                final(dec)@,
                rows(r.0@),
                match r.1 {
                    Some(v) => Some(v@),
                    None => None,
                },
            ) == played(old(self)@, *t, old(dec)@),
    {
        let n: usize = dec.nchannels();
        self.set_x96_mode(false);
        self.widen(n);
        let ghost lines = self@.lines;
        let ghost m = dec@;
        let mut out: Vec<Vec<i32>> = Vec::new();
        assert(rows(out@) =~= Seq::<Seq<i32>>::empty());
        assert(self@.lines.len() == self.channels@.len());
        while out.len() < n
            invariant
                dec.inv(),
                dec@.ready(),
                dec@ == m,
                n == m.nchannels,
                out@.len() <= n,
                self@.wf(),
                self@.x96 == false,
                self@.lfe_hist == mode_set(old(self)@, false).lfe_hist,
                n <= self.channels@.len(),
                channels_pcm(m, *t, lines, out@.len() as int) == (self@.lines, rows(out@)),
            decreases n - out.len(),
        {
            let ch: usize = out.len();
            let ghost held = self@.lines;
            let ghost before = rows(out@);
            assert(line_wf(self@.lines[ch as int], bank(false)));
            let pcm: Vec<i32> = run_channel(&mut self.channels[ch], t, dec, ch, false);
            assert(self@.lines =~= held.update(ch as int, self.channels@[ch as int]@));
            proof {
                assert forall|i: int| 0 <= i < self@.lines.len() implies line_wf(
                    #[trigger] self@.lines[i],
                    bank(false),
                ) by {
                    if i != ch {
                        assert(line_wf(held[i], bank(false)));
                    }
                }
            }
            out.push(pcm);
            assert(rows(out@) =~= before.push(pcm@));
        }
        let mut lfe: Option<Vec<i32>> = None;
        if dec.lfe_present() == 2 {
            lfe = Some(copy_row(dec.lfe()));
            let half: usize = dec.npcmblocks() / 2;
            dec.shift_lfe_history(half);
        }
        (out, lfe)
    }
}

fn copy_row(row: &Vec<i32>) -> (r: Vec<i32>)
    ensures
        r@ == row@,
{
    let mut r: Vec<i32> = Vec::new();
    append(&mut r, row);
    assert(r@ =~= row@);
    r
}

/// The downmix is taken back by what is known of the sets alone.
proof fn lemma_undone_by_sets(a: CoreModel, b: CoreModel, v: Seq<Option<Seq<i32>>>)
    requires
        a.xxch == b.xxch,
        a.audio_mode == b.audio_mode,
        a.nchannels_core == b.nchannels_core,
        a.extension_base == b.extension_base,
    ensures
        undone(a, v) == undone(b, v),
{
    if let Some(x) = b.xxch {
        lemma_unmix_by_sets(
            a,
            b,
            Unmix {
                slots: relevelled(v, b.audio_mode, x, x.mask_nbits as int),
                used: 0,
            },
            x,
            b.extension_base - b.nchannels_core,
        );
    }
}

proof fn lemma_unmix_by_sets(
    a: CoreModel,
    b: CoreModel,
    u: Unmix,
    x: XxchModel,
    k: int,
)
    requires
        a.xxch == b.xxch,
        a.audio_mode == b.audio_mode,
        a.nchannels_core == b.nchannels_core,
        a.extension_base == b.extension_base,
    ensures
        unmix_channels(u, a, x, k) == unmix_channels(
            u,
            b,
            x,
            k,
        ),
    decreases k,
{
    if k > 0 {
        lemma_unmix_by_sets(a, b, u, x, k - 1);
    }
}

/// Taking back the downmix keeps every slot as long as it was.
proof fn lemma_undone_even(m: CoreModel, v: Seq<Option<Seq<i32>>>, n: int)
    requires
        m.wf(),
        v.len() == 32,
        slots_even(v, n),
    ensures
        undone(m, v).len() == 32,
        slots_even(undone(m, v), n),
{
    if let Some(x) = m.xxch {
        lemma_relevelled_even(v, m.audio_mode, x, x.mask_nbits as int, n);
        lemma_unmix_even(
            Unmix { slots: relevelled(v, m.audio_mode, x, x.mask_nbits as int), used: 0 },
            m,
            x,
            m.extension_base - m.nchannels_core,
            n,
        );
    }
}

proof fn lemma_relevelled_even(v: Seq<Option<Seq<i32>>>, mode: AudioMode, x: XxchModel, k: int, n: int)
    requires
        v.len() == 32,
        k <= 32,
        slots_even(v, n),
    ensures
        relevelled(v, mode, x, k).len() == 32,
        slots_even(relevelled(v, mode, x, k), n),
    decreases k,
{
    if k > 0 {
        lemma_relevelled_even(v, mode, x, k - 1, n);
    }
}

proof fn lemma_speakers_even(u: Unmix, mode: AudioMode, x: XxchModel, mask: u32, src: int, k: int, n: int)
    requires
        u.slots.len() == 32,
        k <= 32,
        slots_even(u.slots, n),
    ensures
        unmix_speakers(u, mode, x, mask, src, k).slots.len() == 32,
        slots_even(unmix_speakers(u, mode, x, mask, src, k).slots, n),
    decreases k,
{
    if k > 0 {
        lemma_speakers_even(u, mode, x, mask, src, k - 1, n);
    }
}

proof fn lemma_unmix_even(u: Unmix, m: CoreModel, x: XxchModel, k: int, n: int)
    requires
        u.slots.len() == 32,
        x.mask_nbits <= 32,
        slots_even(u.slots, n),
    ensures
        unmix_channels(u, m, x, k).slots.len() == 32,
        slots_even(unmix_channels(u, m, x, k).slots, n),
    decreases k,
{
    if k > 0 {
        lemma_unmix_even(u, m, x, k - 1, n);
        if let Some(src) = channel_speaker(m, m.nchannels_core + k - 1) {
            if k <= x.downmix.masks.len() {
                lemma_speakers_even(
                    unmix_channels(u, m, x, k - 1),
                    m.audio_mode,
                    x,
                    x.downmix.masks[k - 1],
                    src as int,
                    x.mask_nbits as int,
                    n,
                );
            }
        }
    }
}

/// `b` is `a` with a bare set behind its channels, or with other samples in
/// rows that no channel of `a` has.
pub open spec fn extends(a: CoreModel, b: CoreModel) -> bool {
    &&& core_kept(a, b)
    &&& same_below(a.audio.samples, b.audio.samples, 32 * a.nchannels)
    &&& a.extension_base == a.nchannels
    &&& b.extension_base == a.nchannels
    &&& a.nchannels <= b.nchannels
    &&& a.xxch == b.xxch
}

proof fn lemma_channel_alike(line: Line, window: Seq<i32>, a: CoreModel, b: CoreModel, ch: int, wide: bool, n: int)
    requires
        extends(a, b),
        0 <= ch < a.nchannels,
        32 * a.nchannels <= a.audio.samples.len(),
    ensures
        channel_pcm(line, window, a.audio, ch, wide, n) == channel_pcm(
            line,
            window,
            b.audio,
            ch,
            wide,
            n,
        ),
    decreases n,
{
    if n > 0 {
        lemma_channel_alike(line, window, a, b, ch, wide, n - 1);
        assert(block_input(a.audio, ch, n - 1, wide) =~= block_input(b.audio, ch, n - 1, wide));
    }
}

proof fn lemma_voices_alike(a: CoreModel, b: CoreModel, t: SynthTables, la: Seq<Line>, lb: Seq<Line>, wide: bool, k: int)
    requires
        extends(a, b),
        32 * a.nchannels <= a.audio.samples.len(),
        0 <= k <= a.nchannels,
        a.nchannels <= la.len() <= lb.len(),
        forall|i: int| 0 <= i < la.len() ==> la[i] == #[trigger] lb[i],
    ensures
        voices(a, t, la, wide, k).slots == voices(b, t, lb, wide, k).slots,
        voices(a, t, la, wide, k).extension == voices(b, t, lb, wide, k).extension,
        voices(a, t, la, wide, k).lines.len() == la.len(),
        voices(b, t, lb, wide, k).lines.len() == lb.len(),
        forall|i: int|
            0 <= i < la.len() ==> voices(a, t, la, wide, k).lines[i] == #[trigger] voices(
                b,
                t,
                lb,
                wide,
                k,
            ).lines[i],
    decreases k,
{
    if k > 0 {
        lemma_voices_alike(a, b, t, la, lb, wide, k - 1);
        let v = voices(a, t, la, wide, k - 1);
        let w = voices(b, t, lb, wide, k - 1);
        assert(v.lines[k - 1] == w.lines[k - 1]);
        lemma_channel_alike(
            v.lines[k - 1],
            window_of(t, a.filter_perfect, wide),
            a,
            b,
            k - 1,
            wide,
            a.npcm,
        );
        assert(channel_speaker(a, k - 1) == channel_speaker(b, k - 1));
    }
}

proof fn lemma_bare_voices(b: CoreModel, t: SynthTables, lines: Seq<Line>, wide: bool, from: int, k: int)
    requires
        b.extension_base <= from <= k,
        b.nchannels_core <= b.extension_base,
    ensures
        voices(b, t, lines, wide, k).slots == voices(b, t, lines, wide, from).slots,
    decreases k - from,
{
    if from < k {
        lemma_bare_voices(b, t, lines, wide, from, k - 1);
    }
}

/// The speakers play the same with and without a bare set behind the channels.
pub proof fn bare_sets_are_not_played(s: SynthModel, t: SynthTables, a: CoreModel, b: CoreModel, x96: bool)
    requires
        0 <= a.nchannels_core <= a.nchannels,
        32 * a.nchannels <= a.audio.samples.len(),
        extends(a, b),
    ensures
        synthesized(s, t, b, x96).2.slots == synthesized(s, t, a, x96).2.slots,
        synthesized(s, t, b, x96).2.ch_mask == synthesized(s, t, a, x96).2.ch_mask,
        synthesized(s, t, b, x96).2.npcmsamples == synthesized(s, t, a, x96).2.npcmsamples,
        synthesized(s, t, b, x96).2.output_rate == synthesized(s, t, a, x96).2.output_rate,
{
    let set = mode_set(s, x96);
    let la = widened(set.lines, a.nchannels);
    let lb = widened(set.lines, b.nchannels);
    lemma_voices_alike(a, b, t, la, lb, x96, a.nchannels);
    lemma_bare_voices(b, t, lb, x96, a.nchannels, b.nchannels);
    let base = lfe_pcm(t.lfe_fir@, a.audio.lfe, a.npcm);
    let v = voices(a, t, la, x96, a.nchannels).slots;
    let slots = if a.lfe_present != 2 {
        v
    } else {
        v.update(5, Some(if x96 { doubled(base, set.lfe_hist) } else { base }))
    };
    lemma_undone_by_sets(b, a, slots);
}

/// The line of channel `i`; a channel that was never played has a new one.
pub open spec fn line_at(lines: Seq<Line>, i: int) -> Line {
    if 0 <= i < lines.len() { lines[i] } else { fresh_line() }
}

pub open spec fn lines_alike(a: Seq<Line>, b: Seq<Line>) -> bool {
    forall|i: int| #[trigger] line_at(a, i) == line_at(b, i)
}

/// Every frame is synthesized from the same history on both.
pub open spec fn sound_alike(a: SynthModel, b: SynthModel) -> bool {
    forall|x96: bool|
        #![trigger mode_set(a, x96)]
        mode_set(a, x96).lfe_hist == mode_set(b, x96).lfe_hist && lines_alike(
            mode_set(a, x96).lines,
            mode_set(b, x96).lines,
        )
}

proof fn lemma_voices_of_alike_lines(
    m: CoreModel,
    t: SynthTables,
    a: Seq<Line>,
    b: Seq<Line>,
    wide: bool,
    k: int,
)
    requires
        lines_alike(a, b),
        0 <= k <= a.len(),
        k <= b.len(),
    ensures
        voices(m, t, a, wide, k).slots == voices(m, t, b, wide, k).slots,
        voices(m, t, a, wide, k).extension == voices(m, t, b, wide, k).extension,
        voices(m, t, a, wide, k).lines.len() == a.len(),
        voices(m, t, b, wide, k).lines.len() == b.len(),
        lines_alike(voices(m, t, a, wide, k).lines, voices(m, t, b, wide, k).lines),
    decreases k,
{
    if k > 0 {
        lemma_voices_of_alike_lines(m, t, a, b, wide, k - 1);
        let v = voices(m, t, a, wide, k - 1);
        let w = voices(m, t, b, wide, k - 1);
        assert(line_at(v.lines, k - 1) == line_at(w.lines, k - 1));
        assert(v.lines[k - 1] == w.lines[k - 1]);
        let x = voices(m, t, a, wide, k).lines;
        let y = voices(m, t, b, wide, k).lines;
        assert forall|i: int| #[trigger] line_at(x, i) == line_at(y, i) by {
            assert(line_at(v.lines, i) == line_at(w.lines, i));
        }
    }
}

/// A reset synthesis starts as a new one does, whatever it had played.
pub proof fn resets_silence_the_lines(s: SynthModel)
    ensures
        sound_alike(
            synth_reset(s),
            (SynthModel { lines: Seq::empty(), x96: false, lfe_hist: 0 }),
        ),
{
}

/// Syntheses that sound alike play a frame alike, and sound alike after it.
pub proof fn alike_syntheses_play_alike(
    a: SynthModel,
    b: SynthModel,
    t: SynthTables,
    m: CoreModel,
    x96: bool,
)
    requires
        sound_alike(a, b),
        0 <= m.nchannels,
    ensures
        synthesized(a, t, m, x96).1 == synthesized(b, t, m, x96).1,
        synthesized(a, t, m, x96).2 == synthesized(b, t, m, x96).2,
        sound_alike(synthesized(a, t, m, x96).0, synthesized(b, t, m, x96).0),
{
    let p = mode_set(a, x96);
    let q = mode_set(b, x96);
    assert(p.lfe_hist == q.lfe_hist && lines_alike(p.lines, q.lines));
    let v = widened(p.lines, m.nchannels);
    let w = widened(q.lines, m.nchannels);
    assert forall|i: int| #[trigger] line_at(v, i) == line_at(w, i) by {
        assert(line_at(p.lines, i) == line_at(q.lines, i));
    }
    lemma_voices_of_alike_lines(m, t, v, w, x96, m.nchannels);
    let x = synthesized(a, t, m, x96).0;
    let y = synthesized(b, t, m, x96).0;
    assert(x.x96 == x96 && y.x96 == x96);
    assert forall|z: bool|
        #![trigger mode_set(x, z)]
        mode_set(x, z).lfe_hist == mode_set(y, z).lfe_hist && lines_alike(
            mode_set(x, z).lines,
            mode_set(y, z).lines,
        ) by {
        if z != x96 {
            let g = mode_set(x, z).lines;
            let h = mode_set(y, z).lines;
            assert forall|i: int| #[trigger] line_at(g, i) == line_at(h, i) by {}
        }
    }
}

proof fn lemma_channels_of_alike_lines(
    m: CoreModel,
    t: SynthTables,
    a: Seq<Line>,
    b: Seq<Line>,
    k: int,
)
    requires
        lines_alike(a, b),
        0 <= k <= a.len(),
        k <= b.len(),
    ensures
        channels_pcm(m, t, a, k).1 == channels_pcm(m, t, b, k).1,
        channels_pcm(m, t, a, k).0.len() == a.len(),
        channels_pcm(m, t, b, k).0.len() == b.len(),
        lines_alike(channels_pcm(m, t, a, k).0, channels_pcm(m, t, b, k).0),
    decreases k,
{
    if k > 0 {
        lemma_channels_of_alike_lines(m, t, a, b, k - 1);
        let v = channels_pcm(m, t, a, k - 1).0;
        let w = channels_pcm(m, t, b, k - 1).0;
        assert(line_at(v, k - 1) == line_at(w, k - 1));
        assert(v[k - 1] == w[k - 1]);
        let x = channels_pcm(m, t, a, k).0;
        let y = channels_pcm(m, t, b, k).0;
        assert forall|i: int| #[trigger] line_at(x, i) == line_at(y, i) by {
            assert(line_at(v, i) == line_at(w, i));
        }
    }
}

/// [`alike_syntheses_play_alike`] for a frame that is played channel by
/// channel.
pub proof fn alike_syntheses_play_channels_alike(
    a: SynthModel,
    b: SynthModel,
    t: SynthTables,
    m: CoreModel,
)
    requires
        sound_alike(a, b),
        0 <= m.nchannels,
    ensures
        played(a, t, m).1 == played(b, t, m).1,
        played(a, t, m).2 == played(b, t, m).2,
        played(a, t, m).3 == played(b, t, m).3,
        sound_alike(played(a, t, m).0, played(b, t, m).0),
{
    let p = mode_set(a, false);
    let q = mode_set(b, false);
    assert(p.lfe_hist == q.lfe_hist && lines_alike(p.lines, q.lines));
    let v = widened(p.lines, m.nchannels);
    let w = widened(q.lines, m.nchannels);
    assert forall|i: int| #[trigger] line_at(v, i) == line_at(w, i) by {
        assert(line_at(p.lines, i) == line_at(q.lines, i));
    }
    lemma_channels_of_alike_lines(m, t, v, w, m.nchannels);
    let x = played(a, t, m).0;
    let y = played(b, t, m).0;
    assert(!x.x96 && !y.x96);
    assert forall|z: bool|
        #![trigger mode_set(x, z)]
        mode_set(x, z).lfe_hist == mode_set(y, z).lfe_hist && lines_alike(
            mode_set(x, z).lines,
            mode_set(y, z).lines,
        ) by {
        if z {
            let g = mode_set(x, z).lines;
            let h = mode_set(y, z).lines;
            assert forall|i: int| #[trigger] line_at(g, i) == line_at(h, i) by {}
        }
    }
}

} // verus!
