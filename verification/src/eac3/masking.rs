//! The masking curve: how the power spectrum of a channel becomes a number of
//! mantissa bits per bin.

use vstd::prelude::*;
use super::allocation_tables::{
    allocation_at, allocation_entry, hearing_threshold, log_correction, log_correction_at,
    threshold,
};

verus! {

/// Bins a channel can have.
pub const MAX_ALLOCATION_SIZE: usize = 256;

/// Bands the bins are grouped in.
pub const MASK_BANDS: usize = 50;

const SLOWDEC: [i32; 4] = [0x0f, 0x11, 0x13, 0x15];

const FASTDEC: [i32; 4] = [0x3f, 0x53, 0x67, 0x7b];

const SLOWGAIN: [i32; 4] = [0x540, 0x4d8, 0x478, 0x410];

const DBPBTAB: [i32; 4] = [0x000, 0x700, 0x900, 0xb00];

const FLOORTAB: [i32; 8] = [0x2f0, 0x2b0, 0x270, 0x230, 0x1f0, 0x170, 0x0f0, -2048];

const FASTGAIN: [i32; 8] = [0x080, 0x100, 0x180, 0x200, 0x280, 0x300, 0x380, 0x400];

/// The numbers of a sequence.
pub open spec fn ints(v: Seq<i32>) -> Seq<int> {
    Seq::new(v.len(), |i: int| v[i] as int)
}

/// Every number of a sequence lies in `-bound..=bound`.
pub open spec fn within(v: Seq<i32>, bound: int) -> bool {
    forall|i: int| 0 <= i < v.len() ==> -bound <= #[trigger] v[i] <= bound
}

/// Band of a bin: single bins first, then runs of 3, 6, 12 and 24.
pub open spec fn band_of(bin: int) -> int {
    if bin < 28 {
        bin
    } else if bin < 49 {
        28 + (bin - 28) / 3
    } else if bin < 85 {
        35 + (bin - 49) / 6
    } else if bin < 133 {
        41 + (bin - 85) / 12
    } else {
        45 + (bin - 133) / 24
    }
}

/// First bin after a band.
pub open spec fn band_end(band: int) -> int {
    if band < 28 {
        band + 1
    } else if band < 35 {
        28 + 3 * (band - 27)
    } else if band < 41 {
        49 + 6 * (band - 34)
    } else if band < 45 {
        85 + 12 * (band - 40)
    } else {
        133 + 24 * (band - 44)
    }
}

/// First bin of a band.
pub open spec fn band_first(band: int) -> int {
    if band <= 0 { 0 } else { band_end(band - 1) }
}

/// A bin lies in its band and in no other.
pub proof fn bands_partition_bins(bin: int, band: int)
    requires
        0 <= bin < 253,
        0 <= band < 50,
    ensures
        0 <= band_of(bin) < 50,
        band_first(band) <= bin < band_end(band) <==> band_of(bin) == band,
{
}

pub fn band_index(bin: usize) -> (r: usize)
    requires
        bin < 253,
    ensures
        r == band_of(bin as int),
        r < 50,
{
    if bin < 28 {
        bin
    } else if bin < 49 {
        28 + (bin - 28) / 3
    } else if bin < 85 {
        35 + (bin - 49) / 6
    } else if bin < 133 {
        41 + (bin - 85) / 12
    } else {
        45 + (bin - 133) / 24
    }
}

pub fn band_limit(band: usize) -> (r: usize)
    requires
        band < 50,
    ensures
        r == band_end(band as int),
        r <= 253,
{
    if band < 28 {
        band + 1
    } else if band < 35 {
        28 + 3 * (band - 27)
    } else if band < 41 {
        49 + 6 * (band - 34)
    } else if band < 45 {
        85 + 12 * (band - 40)
    } else {
        133 + 24 * (band - 44)
    }
}

/// Sum of two levels, each a logarithm.
pub open spec fn log_sum(a: int, b: int) -> int {
    let apart = if a >= b { a - b } else { b - a };
    let address = if apart / 2 < 245 { apart / 2 } else { 245 };
    (if a >= b { a } else { b }) + log_correction(address)
}

pub fn log_add(a: i32, b: i32) -> (r: i32)
    requires
        -0x3f00_0000 <= a <= 0x3f00_0000,
        -0x3f00_0000 <= b <= 0x3f00_0000,
    ensures
        r == log_sum(a as int, b as int),
        a <= r,
        r <= a + 255 || r <= b + 255,
{
    let apart: i32 = if a >= b { a - b } else { b - a };
    let address: i32 = if apart / 2 < 245 { apart / 2 } else { 245 };
    let correction: i32 = log_correction_at(address as usize);
    if a >= b {
        a + correction
    } else {
        b + correction
    }
}

/// Level of the bins `lo..hi` together.
pub open spec fn log_total(psd: Seq<int>, lo: int, hi: int) -> int
    decreases hi - lo,
{
    if hi <= lo + 1 {
        psd[lo]
    } else {
        log_sum(log_total(psd, lo, hi - 1), psd[hi - 1])
    }
}

/// Low-frequency compensation carried from band to band.
pub open spec fn compensated(previous: int, current: int, next: int, band: int) -> int {
    if band >= 20 {
        if previous > 128 { previous - 128 } else { 0 }
    } else if current + 256 == next {
        if band < 7 { 384 } else { 320 }
    } else if current > next {
        if previous > 64 { previous - 64 } else { 0 }
    } else {
        previous
    }
}

pub fn calc_lowcomp(previous: i32, current: i32, next: i32, band: usize) -> (r: i32)
    requires
        0 <= previous <= 384,
        -0x3f00_0000 <= current <= 0x3f00_0000,
    ensures
        r == compensated(previous as int, current as int, next as int, band as int),
        0 <= r <= 384,
{
    if band >= 20 {
        if previous > 128 { previous - 128 } else { 0 }
    } else if current + 256 == next {
        if band < 7 { 384 } else { 320 }
    } else if current > next {
        if previous > 64 { previous - 64 } else { 0 }
    } else {
        previous
    }
}

/// Codes that shape the masking curve, as the bitstream carries them.
#[derive(Debug, Clone, Copy, PartialEq, Eq)]
pub struct BitAllocationParams {
    pub slow_decay_code: usize,
    pub fast_decay_code: usize,
    pub slow_gain_code: usize,
    pub db_per_bit_code: usize,
    pub floor_code: usize,
}

impl BitAllocationParams {
    /// Every code fits its field.
    pub open spec fn wf(&self) -> bool {
        &&& self.slow_decay_code < 4
        &&& self.fast_decay_code < 4
        &&& self.slow_gain_code < 4
        &&& self.db_per_bit_code < 4
        &&& self.floor_code < 8
    }
}

impl Default for BitAllocationParams {
    fn default() -> (r: Self)
        ensures
            r == (BitAllocationParams {
                slow_decay_code: 2,
                fast_decay_code: 1,
                slow_gain_code: 1,
                db_per_bit_code: 2,
                floor_code: 7,
            }),
    {
        BitAllocationParams {
            slow_decay_code: 2,
            fast_decay_code: 1,
            slow_gain_code: 1,
            db_per_bit_code: 2,
            floor_code: 7,
        }
    }
}

/// What the codes of [`BitAllocationParams`] and the fast-gain code stand for.
pub struct Curve {
    pub slow_decay: i32,
    pub fast_decay: i32,
    pub slow_gain: i32,
    pub knee: i32,
    pub floor: i32,
    pub fast_gain: i32,
}

impl Curve {
    pub open spec fn wf(&self) -> bool {
        &&& 0 <= self.slow_decay <= 0x1000
        &&& 0 <= self.fast_decay <= 0x1000
        &&& 0 <= self.slow_gain <= 0x1000
        &&& 0 <= self.knee <= 0x1000
        &&& -0x1000 <= self.floor <= 0x1000
        &&& 0 <= self.fast_gain <= 0x1000
    }
}

pub closed spec fn curve_of(params: BitAllocationParams, fgain_code: int) -> Curve {
    Curve {
        slow_decay: SLOWDEC@[params.slow_decay_code as int],
        fast_decay: FASTDEC@[params.fast_decay_code as int],
        slow_gain: SLOWGAIN@[params.slow_gain_code as int],
        knee: DBPBTAB@[params.db_per_bit_code as int],
        floor: FLOORTAB@[params.floor_code as int],
        fast_gain: FASTGAIN@[fgain_code],
    }
}

pub fn curve(params: BitAllocationParams, fgain_code: u8) -> (r: Curve)
    requires
        params.wf(),
        fgain_code < 8,
    ensures
        r == curve_of(params, fgain_code as int),
        r.wf(),
{
    Curve {
        slow_decay: SLOWDEC[params.slow_decay_code],
        fast_decay: FASTDEC[params.fast_decay_code],
        slow_gain: SLOWGAIN[params.slow_gain_code],
        knee: DBPBTAB[params.db_per_bit_code],
        floor: FLOORTAB[params.floor_code],
        fast_gain: FASTGAIN[fgain_code as usize],
    }
}

/// The two decaying excitations, the compensation, and the excitation of the
/// bands done so far.
pub ghost struct Leak {
    pub fast: int,
    pub slow: int,
    pub low: int,
    pub excite: Seq<int>,
}

/// The lowest bands, up to the first that is not above its neighbour.
pub open spec fn onset(psd: Seq<int>, c: Curve, end: int, band: int, s: Leak) -> (Leak, int)
    decreases 7 - band,
{
    if band >= 7 {
        (s, 7)
    } else {
        let open = end != 7 || band != 6;
        let low = if open { compensated(s.low, psd[band], psd[band + 1], band) } else { s.low };
        let fast = psd[band] - c.fast_gain;
        let next = Leak {
            fast,
            slow: psd[band] - c.slow_gain,
            low,
            excite: s.excite.update(band, fast - low),
        };
        if open && psd[band] <= psd[band + 1] {
            (next, band + 1)
        } else {
            onset(psd, c, end, band + 1, next)
        }
    }
}

/// The larger of a decayed excitation and what the band itself gives.
pub open spec fn decayed(leak: int, decay: int, level: int, gain: int) -> int {
    if leak - decay >= level - gain { leak - decay } else { level - gain }
}

/// The bands that are still compensated.
pub open spec fn low_bands(psd: Seq<int>, c: Curve, end: int, band: int, stop: int, s: Leak) -> Leak
    decreases stop - band,
{
    if band >= stop {
        s
    } else {
        let low = if end != 7 || band != 6 {
            compensated(s.low, psd[band], psd[band + 1], band)
        } else {
            s.low
        };
        let fast = decayed(s.fast, c.fast_decay as int, psd[band], c.fast_gain as int);
        let slow = decayed(s.slow, c.slow_decay as int, psd[band], c.slow_gain as int);
        let level = if fast - low >= slow { fast - low } else { slow };
        low_bands(
            psd,
            c,
            end,
            band + 1,
            stop,
            Leak { fast, slow, low, excite: s.excite.update(band, level) },
        )
    }
}

/// The bands without compensation.
pub open spec fn high_bands(psd: Seq<int>, c: Curve, band: int, stop: int, s: Leak) -> Leak
    decreases stop - band,
{
    if band >= stop {
        s
    } else {
        let fast = decayed(s.fast, c.fast_decay as int, psd[band], c.fast_gain as int);
        let slow = decayed(s.slow, c.slow_decay as int, psd[band], c.slow_gain as int);
        let level = if fast >= slow { fast } else { slow };
        high_bands(
            psd,
            c,
            band + 1,
            stop,
            Leak { fast, slow, low: s.low, excite: s.excite.update(band, level) },
        )
    }
}

pub open spec fn silence() -> Seq<int> {
    Seq::new(50, |i: int| 0int)
}

/// The state after bands 0 and 1.
pub open spec fn first_two(psd: Seq<int>, c: Curve, fast: int, slow: int) -> Leak {
    let low0 = compensated(0, psd[0], psd[1], 0);
    let low1 = compensated(low0, psd[1], psd[2], 1);
    Leak {
        fast,
        slow,
        low: low1,
        excite: silence().update(0, psd[0] - c.fast_gain - low0).update(
            1,
            psd[1] - c.fast_gain - low1,
        ),
    }
}

/// Excitation of the bands `start..end`; the leaks come in from the caller.
pub open spec fn excitation(
    psd: Seq<int>,
    c: Curve,
    start: int,
    end: int,
    fast: int,
    slow: int,
) -> Seq<int> {
    if start == 0 {
        let (head, band) = onset(psd, c, end, 2, first_two(psd, c, fast, slow));
        let stop = if end < 22 { end } else { 22 };
        let body = low_bands(psd, c, end, band, stop, head);
        high_bands(psd, c, 22, end, body).excite
    } else {
        high_bands(psd, c, start, end, Leak { fast, slow, low: 0, excite: silence() }).excite
    }
}

/// Masking level of a band.
pub open spec fn mask_level(psd: int, excite: int, knee: int, quiet: int) -> int {
    let lifted = if psd < knee { excite + (knee - psd) / 4 } else { excite };
    if lifted >= quiet { lifted } else { quiet }
}

pub open spec fn mask_of(
    psd: Seq<int>,
    excite: Seq<int>,
    c: Curve,
    rate: int,
    start: int,
    end: int,
) -> Seq<int> {
    Seq::new(
        50,
        |b: int|
            if start <= b < end {
                mask_level(psd[b], excite[b], c.knee as int, threshold(rate, b))
            } else {
                0
            },
    )
}

/// A run of bands whose masking level the encoder adjusts.
#[derive(Debug, Clone, Copy, PartialEq, Eq)]
pub struct DeltaSegment {
    /// Bands between the previous run and this one.
    pub offset: u8,
    pub length: u8,
    /// Code of the adjustment.
    pub bits: u8,
}

/// What a segment adds to the masking level: steps of 6 dB, zero left out.
pub open spec fn adjustment(bits: int) -> int {
    if bits >= 4 { 128 * (bits - 3) } else { 128 * (bits - 4) }
}

pub open spec fn raised(mask: Seq<int>, from: int, to: int, by: int) -> Seq<int> {
    Seq::new(50, |b: int| if from <= b < to { mask[b] + by } else { mask[b] })
}

/// The mask after the segments from the `k`-th on; runs past the last band
/// are cut off there.
pub open spec fn adjusted(mask: Seq<int>, band: int, segments: Seq<DeltaSegment>, k: int) -> Seq<
    int,
>
    decreases segments.len() - k,
{
    if k >= segments.len() || band >= 50 {
        mask
    } else {
        let from = band + segments[k].offset;
        let to = from + segments[k].length;
        adjusted(raised(mask, from, to, adjustment(segments[k].bits as int)), to, segments, k + 1)
    }
}

/// The level below which a band's bins get no bits, in steps of 32.
pub open spec fn cutoff(mask: int, snr_offset: int, floor: int) -> int {
    let above = mask - snr_offset - floor;
    let kept = if above < 0 { 0 } else { above };
    (kept / 32) % 256 * 32 + floor
}

/// Table address of a bin.
pub open spec fn bin_address(psd: int, level: int) -> int {
    let steps = (psd - level) / 32;
    if steps < 0 { 0 } else if steps > 63 { 63 } else { steps }
}

/// Allocation of the bins `start..end`; earlier bins keep theirs and later
/// ones get none.
pub open spec fn allocation(
    before: Seq<u8>,
    psd: Seq<int>,
    mask: Seq<int>,
    start: int,
    end: int,
    snr_offset: int,
    floor: int,
    aht: bool,
) -> Seq<u8> {
    Seq::new(
        256,
        |bin: int|
            if bin < start {
                before[bin]
            } else if bin < end {
                allocation_at(
                    aht,
                    bin_address(psd[bin], cutoff(mask[band_of(bin)], snr_offset, floor)),
                )
            } else {
                0
            },
    )
}

proof fn lemma_ints_update(v: Seq<i32>, w: Seq<i32>, i: int, x: i32)
    requires
        0 <= i < v.len(),
        w == v.update(i, x),
    ensures
        ints(w) == ints(v).update(i, x as int),
{
    assert(ints(w) =~= ints(v).update(i, x as int));
}

/// Executable counterpart of [`Leak`].
struct Excitation {
    fast: i32,
    slow: i32,
    low: i32,
    excite: Vec<i32>,
}

impl Excitation {
    spec fn leak(&self) -> Leak {
        Leak {
            fast: self.fast as int,
            slow: self.slow as int,
            low: self.low as int,
            excite: ints(self.excite@),
        }
    }

    spec fn wf(&self) -> bool {
        &&& self.excite@.len() == 50
        &&& 0 <= self.low <= 384
        &&& -0x3100_0000 <= self.fast <= 0x3100_0000
        &&& -0x3100_0000 <= self.slow <= 0x3100_0000
        &&& within(self.excite@, 0x3200_0000)
    }

    fn set(&mut self, band: usize, level: i32)
        requires
            old(self).wf(),
            band < 50,
            -0x3200_0000 <= level <= 0x3200_0000,
        ensures
            final(self).wf(),
            final(self).leak() == (Leak {
                excite: old(self).leak().excite.update(band as int, level as int),
                ..old(self).leak()
            }),
    {
        let ghost before = self.excite@;
        self.excite.set(band, level);
        proof {
            lemma_ints_update(before, self.excite@, band as int, level);
        }
    }
}

/// Band levels small enough to be added up.
pub open spec fn levels(psd: Seq<i32>) -> bool {
    psd.len() == 50 && within(psd, 0x3_0000)
}

fn excite_onset(psd: &Vec<i32>, c: &Curve, end: usize, s: &mut Excitation) -> (r: usize)
    requires
        levels(psd@),
        c.wf(),
        old(s).wf(),
    ensures
        final(s).wf(),
        (final(s).leak(), r as int) == onset(ints(psd@), *c, end as int, 2, old(s).leak()),
        r <= 7,
{
    let ghost all = onset(ints(psd@), *c, end as int, 2, s.leak());
    let mut band: usize = 2;
    while band < 7
        invariant
            2 <= band <= 7,
            levels(psd@),
            c.wf(),
            s.wf(),
            all == onset(ints(psd@), *c, end as int, 2, old(s).leak()),
            all == onset(ints(psd@), *c, end as int, band as int, s.leak()),
        decreases 7 - band,
    {
        let open: bool = end != 7 || band != 6;
        if open {
            s.low = calc_lowcomp(s.low, psd[band], psd[band + 1], band);
        }
        s.fast = psd[band] - c.fast_gain;
        s.slow = psd[band] - c.slow_gain;
        let level: i32 = s.fast - s.low;
        s.set(band, level);
        if open && psd[band] <= psd[band + 1] {
            return band + 1;
        }
        band = band + 1;
    }
    7
}

fn decay(leak: i32, step: i32, level: i32, gain: i32) -> (r: i32)
    requires
        -0x3100_0000 <= leak <= 0x3100_0000,
        0 <= step <= 0x1000,
        -0x3_0000 <= level <= 0x3_0000,
        0 <= gain <= 0x1000,
    ensures
        r == decayed(leak as int, step as int, level as int, gain as int),
        -0x3100_0000 <= r <= 0x3100_0000,
{
    if leak - step >= level - gain { leak - step } else { level - gain }
}

fn excite_low(
    psd: &Vec<i32>,
    c: &Curve,
    end: usize,
    first: usize,
    stop: usize,
    s: &mut Excitation,
)
    requires
        levels(psd@),
        c.wf(),
        old(s).wf(),
        stop <= 22,
    ensures
        final(s).wf(),
        final(s).leak() == low_bands(
            ints(psd@),
            *c,
            end as int,
            first as int,
            stop as int,
            old(s).leak(),
        ),
{
    let ghost all = low_bands(ints(psd@), *c, end as int, first as int, stop as int, s.leak());
    let mut band: usize = first;
    while band < stop
        invariant
            levels(psd@),
            c.wf(),
            s.wf(),
            stop <= 22,
            all == low_bands(ints(psd@), *c, end as int, band as int, stop as int, s.leak()),
        decreases stop - band,
    {
        if end != 7 || band != 6 {
            s.low = calc_lowcomp(s.low, psd[band], psd[band + 1], band);
        }
        s.fast = decay(s.fast, c.fast_decay, psd[band], c.fast_gain);
        s.slow = decay(s.slow, c.slow_decay, psd[band], c.slow_gain);
        let level: i32 = if s.fast - s.low >= s.slow { s.fast - s.low } else { s.slow };
        s.set(band, level);
        band = band + 1;
    }
}

fn excite_high(psd: &Vec<i32>, c: &Curve, first: usize, stop: usize, s: &mut Excitation)
    requires
        levels(psd@),
        c.wf(),
        old(s).wf(),
        stop <= 50,
    ensures
        final(s).wf(),
        final(s).leak() == high_bands(ints(psd@), *c, first as int, stop as int, old(s).leak()),
{
    let ghost all = high_bands(ints(psd@), *c, first as int, stop as int, s.leak());
    let mut band: usize = first;
    while band < stop
        invariant
            levels(psd@),
            c.wf(),
            s.wf(),
            stop <= 50,
            all == high_bands(ints(psd@), *c, band as int, stop as int, s.leak()),
        decreases stop - band,
    {
        s.fast = decay(s.fast, c.fast_decay, psd[band], c.fast_gain);
        s.slow = decay(s.slow, c.slow_decay, psd[band], c.slow_gain);
        let level: i32 = if s.fast >= s.slow { s.fast } else { s.slow };
        s.set(band, level);
        band = band + 1;
    }
}

pub fn zeros(n: usize) -> (r: Vec<i32>)
    ensures
        r@ == Seq::new(n as nat, |i: int| 0i32),
{
    let mut r: Vec<i32> = Vec::new();
    while r.len() < n
        invariant
            r@.len() <= n,
            forall|i: int| 0 <= i < r@.len() ==> r@[i] == 0,
        decreases n - r.len(),
    {
        r.push(0);
    }
    assert(r@ =~= Seq::new(n as nat, |i: int| 0i32));
    r
}

pub fn excite(psd: &Vec<i32>, c: &Curve, start: usize, end: usize, fast: i32, slow: i32) -> (r: Vec<
    i32,
>)
    requires
        levels(psd@),
        c.wf(),
        start < end <= 50,
        -0x3000_0000 <= fast <= 0x3000_0000,
        -0x3000_0000 <= slow <= 0x3000_0000,
    ensures
        r@.len() == 50,
        within(r@, 0x3200_0000),
        ints(r@) == excitation(
            ints(psd@),
            *c,
            start as int,
            end as int,
            fast as int,
            slow as int,
        ),
{
    let mut s: Excitation = Excitation { fast, slow, low: 0, excite: zeros(50) };
    assert(s.leak().excite =~= silence());
    if start == 0 {
        s.low = calc_lowcomp(0, psd[0], psd[1], 0);
        let level: i32 = psd[0] - c.fast_gain - s.low;
        s.set(0, level);
        s.low = calc_lowcomp(s.low, psd[1], psd[2], 1);
        let level: i32 = psd[1] - c.fast_gain - s.low;
        s.set(1, level);
        assert(s.leak() == first_two(ints(psd@), *c, fast as int, slow as int));
        let first: usize = excite_onset(psd, c, end, &mut s);
        let stop: usize = if end < 22 { end } else { 22 };
        excite_low(psd, c, end, first, stop, &mut s);
        excite_high(psd, c, 22, end, &mut s);
    } else {
        excite_high(psd, c, start, end, &mut s);
    }
    s.excite
}

pub fn build_mask(
    psd: &Vec<i32>,
    excite: &Vec<i32>,
    c: &Curve,
    rate: usize,
    start: usize,
    end: usize,
) -> (r: Vec<i32>)
    requires
        levels(psd@),
        excite@.len() == 50,
        within(excite@, 0x3200_0000),
        c.wf(),
        rate < 3,
        start < end <= 50,
    ensures
        r@.len() == 50,
        within(r@, 0x3300_0000),
        ints(r@) == mask_of(ints(psd@), ints(excite@), *c, rate as int, start as int, end as int),
{
    let mut r: Vec<i32> = zeros(50);
    let mut band: usize = start;
    while band < end
        invariant
            levels(psd@),
            excite@.len() == 50,
            within(excite@, 0x3200_0000),
            c.wf(),
            rate < 3,
            start <= band <= end <= 50,
            r@.len() == 50,
            within(r@, 0x3300_0000),
            forall|b: int|
                0 <= b < 50 ==> #[trigger] r@[b] == if start <= b < band {
                    mask_level(
                        psd@[b] as int,
                        excite@[b] as int,
                        c.knee as int,
                        threshold(rate as int, b),
                    )
                } else {
                    0
                },
        decreases end - band,
    {
        let lifted: i32 = if psd[band] < c.knee {
            excite[band] + (c.knee - psd[band]) / 4
        } else {
            excite[band]
        };
        let quiet: i32 = hearing_threshold(rate, band);
        r.set(band, if lifted >= quiet { lifted } else { quiet });
        band = band + 1;
    }
    assert(ints(r@) =~= mask_of(
        ints(psd@),
        ints(excite@),
        *c,
        rate as int,
        start as int,
        end as int,
    ));
    r
}

fn raise(mask: &mut Vec<i32>, from: usize, to: usize, by: i32)
    requires
        old(mask)@.len() == 50,
        from <= to <= 50,
        -0x1_0000 <= by <= 0x1_0000,
        forall|b: int| from <= b < to ==> -0x3300_0000 <= #[trigger] old(mask)@[b] <= 0x3300_0000,
        within(old(mask)@, 0x3400_0000),
    ensures
        final(mask)@.len() == 50,
        within(final(mask)@, 0x3400_0000),
        forall|b: int| to <= b < 50 ==> #[trigger] final(mask)@[b] == old(mask)@[b],
        ints(final(mask)@) == raised(ints(old(mask)@), from as int, to as int, by as int),
{
    let mut band: usize = from;
    while band < to
        invariant
            from <= band <= to <= 50,
            mask@.len() == 50,
            old(mask)@.len() == 50,
            -0x1_0000 <= by <= 0x1_0000,
            forall|b: int|
                from <= b < to ==> -0x3300_0000 <= #[trigger] old(mask)@[b] <= 0x3300_0000,
            within(mask@, 0x3400_0000),
            forall|b: int|
                0 <= b < 50 ==> #[trigger] mask@[b] == if from <= b < band {
                    old(mask)@[b] + by
                } else {
                    old(mask)@[b] as int
                },
        decreases to - band,
    {
        assert(mask@[band as int] == old(mask)@[band as int]);
        let level: i32 = mask[band] + by;
        mask.set(band, level);
        band = band + 1;
    }
    assert(ints(mask@) =~= raised(ints(old(mask)@), from as int, to as int, by as int));
}

pub fn adjust(mask: &mut Vec<i32>, start: usize, segments: &Vec<DeltaSegment>)
    requires
        old(mask)@.len() == 50,
        within(old(mask)@, 0x3300_0000),
        start < 50,
    ensures
        final(mask)@.len() == 50,
        within(final(mask)@, 0x3400_0000),
        ints(final(mask)@) == adjusted(ints(old(mask)@), start as int, segments@, 0),
{
    let ghost all = adjusted(ints(mask@), start as int, segments@, 0);
    let mut band: usize = start;
    let mut k: usize = 0;
    while k < segments.len() && band < 50
        invariant
            k <= segments@.len(),
            mask@.len() == 50,
            within(mask@, 0x3400_0000),
            forall|b: int|
                band <= b < 50 ==> -0x3300_0000 <= #[trigger] mask@[b] <= 0x3300_0000,
            band <= 0x1000,
            all == adjusted(ints(mask@), band as int, segments@, k as int),
        decreases segments.len() - k,
    {
        let segment: DeltaSegment = segments[k];
        let from: usize = band + segment.offset as usize;
        let to: usize = from + segment.length as usize;
        let by: i32 = if segment.bits >= 4 {
            128 * (segment.bits as i32 - 3)
        } else {
            128 * (segment.bits as i32 - 4)
        };
        let ghost before = mask@;
        if from < 50 {
            let last: usize = if to < 50 { to } else { 50 };
            raise(mask, from, last, by);
        }
        proof {
            assert(ints(mask@) =~= raised(ints(before), from as int, to as int, by as int));
        }
        band = to;
        k = k + 1;
    }
}

fn cut(mask: i32, snr_offset: i32, floor: i32) -> (r: i32)
    requires
        -0x3400_0000 <= mask <= 0x3400_0000,
        -0x4000_0000 <= snr_offset <= 0x4000_0000,
        -0x1000 <= floor <= 0x1000,
    ensures
        r == cutoff(mask as int, snr_offset as int, floor as int),
        -0x1000 <= r <= 0x4000,
{
    let above: i32 = mask - snr_offset - floor;
    let kept: i32 = if above < 0 { 0 } else { above };
    (kept / 32) % 256 * 32 + floor
}

fn address_of(psd: i32, level: i32) -> (r: usize)
    requires
        -0x2_0000 <= psd <= 0x2_0000,
        -0x1000 <= level <= 0x4000,
    ensures
        r == bin_address(psd as int, level as int),
        r < 64,
{
    let apart: i32 = psd - level;
    if apart < 0 {
        0
    } else if apart / 32 > 63 {
        63
    } else {
        (apart / 32) as usize
    }
}

pub fn assign(
    bap: &mut Vec<u8>,
    psd: &Vec<i32>,
    mask: &Vec<i32>,
    start: usize,
    end: usize,
    snr_offset: i32,
    floor: i32,
    aht: bool,
)
    requires
        old(bap)@.len() == 256,
        psd@.len() == 256,
        within(psd@, 0x2_0000),
        mask@.len() == 50,
        within(mask@, 0x3400_0000),
        start < end <= 253,
        -0x4000_0000 <= snr_offset <= 0x4000_0000,
        -0x1000 <= floor <= 0x1000,
    ensures
        final(bap)@ == allocation(
            old(bap)@,
            ints(psd@),
            ints(mask@),
            start as int,
            end as int,
            snr_offset as int,
            floor as int,
            aht,
        ),
        forall|i: int| start <= i < 256 ==> #[trigger] final(bap)@[i] <= if aht { 19u8 } else { 15u8 },
{
    let ghost wanted = allocation(
        bap@,
        ints(psd@),
        ints(mask@),
        start as int,
        end as int,
        snr_offset as int,
        floor as int,
        aht,
    );
    let mut bin: usize = start;
    while bin < 256
        invariant
            start <= bin <= 256,
            start < end <= 253,
            bap@.len() == 256,
            psd@.len() == 256,
            within(psd@, 0x2_0000),
            mask@.len() == 50,
            within(mask@, 0x3400_0000),
            -0x4000_0000 <= snr_offset <= 0x4000_0000,
            -0x1000 <= floor <= 0x1000,
            wanted == allocation(
                old(bap)@,
                ints(psd@),
                ints(mask@),
                start as int,
                end as int,
                snr_offset as int,
                floor as int,
                aht,
            ),
            forall|i: int| 0 <= i < bin ==> #[trigger] bap@[i] == wanted[i],
            forall|i: int|
                start <= i < bin ==> #[trigger] bap@[i] <= if aht { 19u8 } else { 15u8 },
        decreases 256 - bin,
    {
        if bin < end {
            let band: usize = band_index(bin);
            let level: i32 = cut(mask[band], snr_offset, floor);
            let address: usize = address_of(psd[bin], level);
            bap.set(bin, allocation_entry(aht, address));
        } else {
            bap.set(bin, 0);
        }
        bin = bin + 1;
    }
    assert(bap@ =~= wanted);
}

/// Decays and gains of a curve go by steps of their codes: a slow decay by 2
/// and a fast one by 20, a fast gain by 128, and a knee by 512 behind none.
pub proof fn curves_go_by_steps(params: BitAllocationParams, fgain_code: int)
    requires
        params.wf(),
        0 <= fgain_code < 8,
    ensures
        ({
            let c = curve_of(params, fgain_code);
            &&& c.slow_decay == 15 + 2 * params.slow_decay_code
            &&& c.fast_decay == 63 + 20 * params.fast_decay_code
            &&& c.fast_gain == 128 * (fgain_code + 1)
            &&& params.db_per_bit_code == 0 ==> c.knee == 0
            &&& params.db_per_bit_code > 0 ==> c.knee == 1280 + 512 * params.db_per_bit_code
            &&& params.slow_gain_code == 0 ==> c.slow_gain == 1344
            &&& params.slow_gain_code == 1 ==> c.slow_gain == 1240
            &&& params.slow_gain_code == 2 ==> c.slow_gain == 1144
            &&& params.slow_gain_code == 3 ==> c.slow_gain == 1040
            &&& params.floor_code <= 4 ==> c.floor == 752 - 64 * params.floor_code
            &&& 4 <= params.floor_code <= 6 ==> c.floor == 1008 - 128 * params.floor_code
            &&& params.floor_code == 7 ==> c.floor == -2048
        }),
{
}

} // verus!
