//! Per-channel allocation state: exponents, power spectrum, and bits per
//! mantissa.

use vstd::prelude::*;
use crate::bits::{field, BitReader};
use super::masking::{
    adjust, adjusted, allocation, assign, band_end, band_first, band_index, band_limit, band_of,
    build_mask, curve, curve_of, excitation, excite, ints, log_add, log_total, mask_of, within,
    zeros, BitAllocationParams, Curve, DeltaSegment,
};
use super::syncframe::{ExpStrategy, ParseError};

verus! {

/// Bins of the low-frequency channel.
pub const LFE_END_MANTISSA: usize = 7;

/// Where a block takes its delta bit allocation from.
#[derive(Debug, Clone, Copy, PartialEq, Eq, Structural)]
pub enum DeltaBitAllocationMode {
    Reuse,
    NewInfoFollows,
    NoAllocation,
    MuteOutput,
}

impl DeltaBitAllocationMode {
    pub fn from_bits(bits: u8) -> (r: Result<Self, ParseError>)
        ensures
            r == match bits {
                0 => Ok(DeltaBitAllocationMode::Reuse),
                1 => Ok(DeltaBitAllocationMode::NewInfoFollows),
                2 => Ok(DeltaBitAllocationMode::NoAllocation),
                3 => Ok(DeltaBitAllocationMode::MuteOutput),
                _ => Err(ParseError::InvalidHeader("deltba")),
            },
    {
        match bits {
            0 => Ok(DeltaBitAllocationMode::Reuse),
            1 => Ok(DeltaBitAllocationMode::NewInfoFollows),
            2 => Ok(DeltaBitAllocationMode::NoAllocation),
            3 => Ok(DeltaBitAllocationMode::MuteOutput),
            _ => Err(ParseError::InvalidHeader("deltba")),
        }
    }
}

/// Delta bit allocation of a channel. Only segments that were read whole are
/// kept.
#[derive(Debug, Clone)]
pub struct DeltaBitAllocationState {
    pub mode: DeltaBitAllocationMode,
    pub segments: Vec<DeltaSegment>,
}

impl Default for DeltaBitAllocationState {
    fn default() -> (r: Self)
        ensures
            r.mode == DeltaBitAllocationMode::NoAllocation,
            r.segments@.len() == 0,
    {
        DeltaBitAllocationState {
            mode: DeltaBitAllocationMode::NoAllocation,
            segments: Vec::new(),
        }
    }
}

/// The segment coded at `p`.
pub open spec fn segment_at(d: Seq<u8>, p: int) -> DeltaSegment {
    DeltaSegment {
        offset: field(d, p, 5) as u8,
        length: field(d, p + 5, 4) as u8,
        bits: field(d, p + 9, 3) as u8,
    }
}

/// Segments announced at `p`.
pub open spec fn segment_count(d: Seq<u8>, p: int) -> int {
    field(d, p, 3) + 1
}

/// Segments that end before the limit, of those announced at `p`.
pub open spec fn segments_present(d: Seq<u8>, lim: int, p: int) -> int {
    let room = (lim - (p + 3)) / 12;
    if segment_count(d, p) <= room { segment_count(d, p) } else { room }
}

fn read_segment(reader: &mut BitReader<'_>) -> (r: Result<DeltaSegment, ParseError>)
    requires
        old(reader).wf(),
    ensures
        final(reader).wf(),
        final(reader).same_source(old(reader)),
        match r {
            Ok(s) => {
                &&& old(reader).has(12)
                &&& s == segment_at(old(reader).data(), old(reader).pos())
                &&& final(reader).pos() == old(reader).pos() + 12
            },
            Err(e) => !old(reader).has(12) && e == ParseError::ShortPacket,
        },
{
    let Some(offset) = reader.read_bits(5) else {
        return Err(ParseError::ShortPacket);
    };
    let Some(length) = reader.read_bits(4) else {
        return Err(ParseError::ShortPacket);
    };
    let Some(bits) = reader.read_bits(3) else {
        return Err(ParseError::ShortPacket);
    };
    Ok(DeltaSegment { offset: offset as u8, length: length as u8, bits: bits as u8 })
}

impl DeltaBitAllocationState {
    /// Read the segments that follow. A packet that ends early leaves the
    /// segments that are whole; one that ends before the count leaves the
    /// state as it was.
    pub fn read_segments(&mut self, reader: &mut BitReader<'_>) -> (r: Result<(), ParseError>)
        requires
            old(reader).wf(),
        ensures
            final(reader).wf(),
            final(reader).same_source(old(reader)),
            final(self).mode == old(self).mode,
            !old(reader).has(3) ==> *final(self) == *old(self),
            old(reader).has(3) ==> {
                let d = old(reader).data();
                let p = old(reader).pos();
                let n = segments_present(d, old(reader).limit(), p);
                &&& final(self).segments@ == Seq::new(n as nat, |i: int| segment_at(d, p + 3 + 12 * i))
                &&& r is Ok ==> final(reader).pos() == p + 3 + 12 * n
            },
            r == if old(reader).has(3) && segments_present(
                old(reader).data(),
                old(reader).limit(),
                old(reader).pos(),
            ) == segment_count(old(reader).data(), old(reader).pos()) {
                Ok(())
            } else {
                Err(ParseError::ShortPacket)
            },
    {
        let ghost d = reader.data();
        let ghost p = reader.pos();
        let ghost lim = reader.limit();
        let Some(count) = reader.read_bits(3) else {
            return Err(ParseError::ShortPacket);
        };
        let n: usize = count as usize + 1;
        self.segments.clear();
        while self.segments.len() < n
            invariant
                reader.wf(),
                reader.data() == d,
                reader.limit() == lim,
                d == old(reader).data(),
                p == old(reader).pos(),
                lim == old(reader).limit(),
                old(reader).has(3),
                n == segment_count(d, p),
                self.mode == old(self).mode,
                self.segments@.len() <= n,
                reader.pos() == p + 3 + 12 * self.segments@.len(),
                reader.pos() <= lim,
                forall|i: int|
                    0 <= i < self.segments@.len() ==> #[trigger] self.segments@[i] == segment_at(
                        d,
                        p + 3 + 12 * i,
                    ),
            decreases n - self.segments.len(),
        {
            match read_segment(reader) {
                Ok(segment) => {
                    self.segments.push(segment);
                },
                Err(e) => {
                    assert(self.segments@ =~= Seq::new(
                        segments_present(d, lim, p) as nat,
                        |i: int| segment_at(d, p + 3 + 12 * i),
                    ));
                    return Err(e);
                },
            }
        }
        assert(self.segments@ =~= Seq::new(
            segments_present(d, lim, p) as nat,
            |i: int| segment_at(d, p + 3 + 12 * i),
        ));
        Ok(())
    }
}

/// Bins one coded exponent covers.
pub open spec fn bins_per_exponent(strategy: ExpStrategy) -> int {
    match strategy {
        ExpStrategy::Reuse => 0,
        ExpStrategy::D15 => 1,
        ExpStrategy::D25 => 2,
        ExpStrategy::D45 => 4,
    }
}

/// Groups of exponents that cover `end_mantissa` bins.
pub open spec fn groups_for(end_mantissa: int, strategy: ExpStrategy) -> Result<usize, ParseError> {
    match strategy {
        ExpStrategy::Reuse => Ok(0),
        ExpStrategy::D15 => if end_mantissa < 1 {
            Err(ParseError::InvalidHeader("endmant"))
        } else {
            Ok(((end_mantissa - 1) / 3) as usize)
        },
        ExpStrategy::D25 => Ok(((end_mantissa + 2) / 6) as usize),
        ExpStrategy::D45 => Ok(((end_mantissa + 8) / 12) as usize),
    }
}

pub fn grouped_exponent_count(end_mantissa: usize, strategy: ExpStrategy) -> (r: Result<
    usize,
    ParseError,
>)
    requires
        end_mantissa <= isize::MAX - 8,
    ensures
        r == groups_for(end_mantissa as int, strategy),
{
    match strategy {
        ExpStrategy::Reuse => Ok(0),
        ExpStrategy::D15 => if end_mantissa < 1 {
            Err(ParseError::InvalidHeader("endmant"))
        } else {
            Ok((end_mantissa - 1) / 3)
        },
        ExpStrategy::D25 => Ok((end_mantissa + 2) / 6),
        ExpStrategy::D45 => Ok((end_mantissa + 8) / 12),
    }
}

/// Column of the hearing-threshold table for a sample rate.
pub fn sample_rate_index(sample_rate: u32) -> (r: Option<usize>)
    ensures
        r == if sample_rate == 48_000 || sample_rate == 24_000 || sample_rate == 12_000 {
            Some(0usize)
        } else if sample_rate == 44_100 || sample_rate == 22_050 || sample_rate == 11_025 {
            Some(1usize)
        } else if sample_rate == 32_000 || sample_rate == 16_000 || sample_rate == 8_000 {
            Some(2usize)
        } else {
            None
        },
{
    match sample_rate {
        48_000 | 24_000 | 12_000 => Some(0),
        44_100 | 22_050 | 11_025 => Some(1),
        32_000 | 16_000 | 8_000 => Some(2),
        _ => None,
    }
}

/// The step that part `part` (0, 1 or 2) of a group adds to the exponent.
pub open spec fn exponent_step(group: int, part: int) -> int {
    if part == 0 {
        group / 25 - 2
    } else if part == 1 {
        (group % 25) / 5 - 2
    } else {
        group % 5 - 2
    }
}

/// The exponent after `n` steps, three to a group.
pub open spec fn exponent_after(base: int, groups: Seq<int>, n: int) -> int
    decreases n,
{
    if n <= 0 {
        base
    } else {
        exponent_after(base, groups, n - 1) + exponent_step(groups[(n - 1) / 3], (n - 1) % 3)
    }
}

/// The exponents once `groups` have been spread over the bins from `offset`,
/// with the base itself at `start`.
pub open spec fn spread(
    before: Seq<int>,
    start: int,
    offset: int,
    size: int,
    base: int,
    groups: Seq<int>,
) -> Seq<int> {
    Seq::new(
        256,
        |bin: int|
            if offset <= bin < offset + 3 * size * groups.len() {
                exponent_after(base, groups, (bin - offset) / size + 1)
            } else if bin == start {
                base
            } else {
                before[bin]
            },
    )
}

/// The power spectrum of the bins `start..end` from their exponents.
pub open spec fn power(before: Seq<int>, exponents: Seq<int>, start: int, end: int) -> Seq<int> {
    Seq::new(
        256,
        |bin: int| if start <= bin < end { 3072 - 128 * exponents[bin] } else { before[bin] },
    )
}

/// The level of each band that holds a bin of `start..end`.
pub open spec fn band_power(before: Seq<int>, psd: Seq<int>, start: int, end: int) -> Seq<int> {
    let last = if end > start { band_of(end - 1) } else { band_of(start) };
    Seq::new(
        50,
        |band: int|
            if band_of(start) <= band <= last {
                let lo = if band_first(band) > start { band_first(band) } else { start };
                let hi = if band_end(band) < end { band_end(band) } else { end };
                log_total(psd, lo, hi)
            } else {
                before[band]
            },
    )
}

proof fn lemma_step_index(x: int, size: int, k: int)
    requires
        size == 1 || size == 2 || size == 4,
        size * k <= x < size * (k + 1),
    ensures
        x / size == k,
{
    if size == 1 {
    } else if size == 2 {
    } else {
    }
}

proof fn lemma_room(offset: int, size: int, n: int)
    requires
        size == 1 || size == 2 || size == 4,
        n >= 0,
    ensures
        offset > 256 || n > (256 - offset) / (3 * size) <==> offset > 256 || offset + 3 * size * n
            > 256,
        n > 0 ==> 3 * size * n > 0,
{
    assert(size == 1 ==> 3 * size * n == 3 * n) by (nonlinear_arith);
    assert(size == 2 ==> 3 * size * n == 6 * n) by (nonlinear_arith);
    assert(size == 4 ==> 3 * size * n == 12 * n) by (nonlinear_arith);
    if size == 1 {
    } else if size == 2 {
    } else {
    }
}

fn fill(exponents: &mut Vec<i32>, from: usize, size: usize, value: i32)
    requires
        old(exponents)@.len() == 256,
        from + size <= 256,
        within(old(exponents)@, 1000),
        -1000 <= value <= 1000,
    ensures
        final(exponents)@.len() == 256,
        within(final(exponents)@, 1000),
        forall|i: int|
            0 <= i < 256 ==> #[trigger] final(exponents)@[i] == if from <= i < from + size {
                value
            } else {
                old(exponents)@[i]
            },
{
    let mut at: usize = from;
    while at < from + size
        invariant
            from <= at <= from + size <= 256,
            exponents@.len() == 256,
            within(exponents@, 1000),
            -1000 <= value <= 1000,
            forall|i: int|
                0 <= i < 256 ==> #[trigger] exponents@[i] == if from <= i < at {
                    value
                } else {
                    old(exponents)@[i]
                },
        decreases from + size - at,
    {
        exponents.set(at, value);
        at = at + 1;
    }
}

/// The groups of a set of exponents are seven-bit codes.
pub open spec fn group_codes(groups: Seq<i32>) -> bool {
    forall|i: int| 0 <= i < groups.len() ==> 0 <= #[trigger] groups[i] <= 127
}

fn spread_exponents(
    exponents: &mut Vec<i32>,
    start: usize,
    offset: usize,
    size: usize,
    base: i32,
    groups: &Vec<i32>,
)
    requires
        old(exponents)@.len() == 256,
        within(old(exponents)@, 1000),
        start < 256,
        size == 1 || size == 2 || size == 4,
        0 <= base <= 30,
        group_codes(groups@),
        groups@.len() == 0 || offset + 3 * size * groups@.len() <= 256,
    ensures
        final(exponents)@.len() == 256,
        within(final(exponents)@, 1000),
        ints(final(exponents)@) == spread(
            ints(old(exponents)@),
            start as int,
            offset as int,
            size as int,
            base as int,
            ints(groups@),
        ),
{
    let ghost codes = ints(groups@);
    exponents.set(start, base);
    let ghost placed = exponents@;
    let n: usize = groups.len();
    let mut current: i32 = base;
    let mut g: usize = 0;
    assert(3 * size * n >= 3 * n) by (nonlinear_arith)
        requires
            size >= 1,
            n >= 0,
    ;
    assert(3 * size * groups@.len() == 3 * size * n);
    while g < n
        invariant
            n == groups@.len(),
            g <= n <= 86,
            codes == ints(groups@),
            group_codes(groups@),
            size == 1 || size == 2 || size == 4,
            n > 0 ==> offset + 3 * size * n <= 256,
            exponents@.len() == 256,
            within(exponents@, 1000),
            0 <= base <= 30,
            current == exponent_after(base as int, codes, 3 * g as int),
            -6 * g <= current <= 30 + 9 * g,
            placed.len() == 256,
            forall|i: int|
                0 <= i < 256 ==> #[trigger] exponents@[i] as int == if offset <= i < offset
                    + size * (3 * g) {
                    exponent_after(base as int, codes, (i - offset) / (size as int) + 1)
                } else {
                    placed[i] as int
                },
        decreases n - g,
    {
        let group: i32 = groups[g];
        let mut part: i32 = 0;
        while part < 3
            invariant
                n == groups@.len(),
                g < n <= 86,
                codes == ints(groups@),
                group == groups@[g as int],
                0 <= group <= 127,
                size == 1 || size == 2 || size == 4,
                offset + 3 * size * n <= 256,
                exponents@.len() == 256,
                within(exponents@, 1000),
                0 <= part <= 3,
                current == exponent_after(base as int, codes, 3 * g + part),
                -6 * g - 2 * part <= current <= 30 + 9 * g + 3 * part,
                placed.len() == 256,
                forall|i: int|
                    0 <= i < 256 ==> #[trigger] exponents@[i] as int == if offset <= i < offset
                        + size * (3 * g + part) {
                        exponent_after(base as int, codes, (i - offset) / (size as int) + 1)
                    } else {
                        placed[i] as int
                    },
            decreases 3 - part,
        {
            let step: i32 = step_of(group, part as usize);
            let ghost k = 3 * g + part;
            proof {
                assert(k / 3 == g && k % 3 == part);
                assert(codes[k / 3] == group);
                assert(step == exponent_step(group as int, part as int));
                assert(exponent_after(base as int, codes, k + 1) == current + step);
                assert(size * (k + 1) <= 3 * size * n) by (nonlinear_arith)
                    requires
                        k + 1 <= 3 * n,
                        size >= 1,
                ;
                assert(size * (k + 1) == size * k + size) by (nonlinear_arith);
                assert(size * k <= 3 * 4 * 86) by (nonlinear_arith)
                    requires
                        0 <= k <= 3 * 86,
                        size <= 4,
                ;
            }
            current = current + step;
            let at: usize = offset + size * (3 * g + part as usize);
            fill(exponents, at, size, current);
            proof {
                assert forall|i: int| 0 <= i < 256 implies #[trigger] exponents@[i] as int
                    == if offset <= i < offset + size * (k + 1) {
                    exponent_after(base as int, codes, (i - offset) / (size as int) + 1)
                } else {
                    placed[i] as int
                } by {
                    if at <= i < at + size {
                        lemma_step_index(i - offset, size as int, k);
                    }
                }
            }
            part = part + 1;
        }
        g = g + 1;
    }
    assert(size * (3 * n) == 3 * size * n) by (nonlinear_arith);
    assert(ints(exponents@) =~= spread(
        ints(old(exponents)@),
        start as int,
        offset as int,
        size as int,
        base as int,
        codes,
    ));
}

/// What a channel's exponents leave behind for its blocks.
pub ghost struct Spectrum {
    pub exponents: Seq<int>,
    pub psd: Seq<int>,
    pub bands: Seq<int>,
}

/// Groups that run past the last bin.
pub open spec fn overruns(offset: int, size: int, n: int) -> bool {
    n > 0 && offset + 3 * size * n > 256
}

/// Exponents of the bins `start..end` from `n` groups can be decoded: they end
/// with the last band, unless nothing is decoded or the groups run too far.
pub open spec fn decodable(strategy: ExpStrategy, start: int, offset: int, end: int, n: int) -> bool {
    ||| strategy == ExpStrategy::Reuse
    ||| end > 256
    ||| start < 256 && overruns(offset, bins_per_exponent(strategy), n)
    ||| start < 253 && end <= 253
}

/// The state that a set of grouped exponents leaves, and whether it was one:
/// groups that run past the last bin are spread as far as there are bins.
pub open spec fn decoded(
    before: Spectrum,
    strategy: ExpStrategy,
    start: int,
    offset: int,
    end: int,
    base: int,
    groups: Seq<int>,
) -> (Spectrum, Result<(), ParseError>) {
    let size = bins_per_exponent(strategy);
    let exponents = spread(before.exponents, start, offset, size, base, groups);
    if end > 256 {
        (before, Err(ParseError::InvalidHeader("endmant")))
    } else if strategy == ExpStrategy::Reuse {
        (before, Ok(()))
    } else if overruns(offset, size, groups.len() as int) {
        (Spectrum { exponents, ..before }, Err(ParseError::InvalidHeader("expmant")))
    } else {
        let psd = power(before.psd, exponents, start, end);
        (
            Spectrum { exponents, psd, bands: band_power(before.bands, psd, start, end) },
            Ok(()),
        )
    }
}

fn step_of(group: i32, part: usize) -> (r: i32)
    requires
        0 <= group <= 127,
        part < 3,
    ensures
        r == exponent_step(group as int, part as int),
        -2 <= r <= 3,
{
    if part == 0 {
        group / 25 - 2
    } else if part == 1 {
        (group % 25) / 5 - 2
    } else {
        group % 5 - 2
    }
}

/// [`spread_exponents`] for groups that run past the last bin.
fn spread_to_end(
    exponents: &mut Vec<i32>,
    start: usize,
    offset: usize,
    size: usize,
    base: i32,
    groups: &Vec<i32>,
)
    requires
        old(exponents)@.len() == 256,
        within(old(exponents)@, 1000),
        start < 256,
        size == 1 || size == 2 || size == 4,
        0 <= base <= 30,
        group_codes(groups@),
        overruns(offset as int, size as int, groups@.len() as int),
    ensures
        final(exponents)@.len() == 256,
        within(final(exponents)@, 1000),
        ints(final(exponents)@) == spread(
            ints(old(exponents)@),
            start as int,
            offset as int,
            size as int,
            base as int,
            ints(groups@),
        ),
{
    let ghost codes = ints(groups@);
    exponents.set(start, base);
    let ghost placed = exponents@;
    let n: usize = groups.len();
    let mut current: i32 = base;
    let mut at: usize = offset;
    let mut k: usize = 0;
    while at < 256
        invariant
            n == groups@.len(),
            codes == ints(groups@),
            group_codes(groups@),
            size == 1 || size == 2 || size == 4,
            offset + 3 * size * n > 256,
            at == offset + size * k,
            k <= at <= 260 || k == 0,
            exponents@.len() == 256,
            within(exponents@, 1000),
            0 <= base <= 30,
            current == exponent_after(base as int, codes, k as int),
            -2 * k <= current <= 30 + 3 * k,
            placed.len() == 256,
            forall|i: int|
                0 <= i < 256 ==> #[trigger] exponents@[i] as int == if offset <= i < at {
                    exponent_after(base as int, codes, (i - offset) / (size as int) + 1)
                } else {
                    placed[i] as int
                },
        decreases 256 + size - at,
    {
        proof {
            assert(k < 3 * n) by (nonlinear_arith)
                requires
                    offset + size * k < offset + 3 * size * n,
                    size >= 1,
            ;
            assert(size * (k + 1) == size * k + size) by (nonlinear_arith);
            assert(codes[k as int / 3] == groups@[k as int / 3]);
        }
        current = current + step_of(groups[k / 3], k % 3);
        let len: usize = if 256 - at < size { 256 - at } else { size };
        fill(exponents, at, len, current);
        proof {
            assert forall|i: int| 0 <= i < 256 implies #[trigger] exponents@[i] as int
                == if offset <= i < at + size {
                exponent_after(base as int, codes, (i - offset) / (size as int) + 1)
            } else {
                placed[i] as int
            } by {
                if at <= i < at + size {
                    lemma_step_index(i - offset, size as int, k as int);
                }
            }
        }
        at = at + size;
        k = k + 1;
    }
    assert(ints(exponents@) =~= spread(
        ints(old(exponents)@),
        start as int,
        offset as int,
        size as int,
        base as int,
        codes,
    ));
}

fn set_power(psd: &mut Vec<i32>, exponents: &Vec<i32>, start: usize, end: usize)
    requires
        old(psd)@.len() == 256,
        within(old(psd)@, 0x2_0000),
        exponents@.len() == 256,
        within(exponents@, 1000),
        end <= 256,
    ensures
        final(psd)@.len() == 256,
        within(final(psd)@, 0x2_0000),
        ints(final(psd)@) == power(ints(old(psd)@), ints(exponents@), start as int, end as int),
{
    let mut bin: usize = start;
    while bin < end
        invariant
            start <= bin,
            start < end ==> bin <= end,
            end <= 256,
            psd@.len() == 256,
            within(psd@, 0x2_0000),
            exponents@.len() == 256,
            within(exponents@, 1000),
            forall|i: int|
                0 <= i < 256 ==> #[trigger] psd@[i] == if start <= i < bin && i < end {
                    3072 - 128 * exponents@[i]
                } else {
                    old(psd)@[i] as int
                },
        decreases end - bin,
    {
        let level: i32 = 3072 - 128 * exponents[bin];
        psd.set(bin, level);
        bin = bin + 1;
    }
    assert(ints(psd@) =~= power(ints(old(psd)@), ints(exponents@), start as int, end as int));
}

fn total_level(psd: &Vec<i32>, lo: usize, hi: usize) -> (r: i32)
    requires
        psd@.len() == 256,
        within(psd@, 0x2_0000),
        lo < 256,
        hi <= 256,
        hi <= lo + 24,
    ensures
        r == log_total(ints(psd@), lo as int, hi as int),
        -0x3_0000 <= r <= 0x3_0000,
{
    let mut r: i32 = psd[lo];
    let mut bin: usize = lo + 1;
    while bin < hi
        invariant
            psd@.len() == 256,
            within(psd@, 0x2_0000),
            lo < bin,
            hi <= 256,
            hi <= lo + 24,
            lo + 1 < hi ==> bin <= hi,
            hi <= lo + 1 ==> bin == lo + 1,
            bin <= lo + 24 || bin == lo + 1,
            -0x2_0000 <= r <= 0x2_0000 + 255 * (bin - lo),
            r == log_total(ints(psd@), lo as int, bin as int),
        decreases hi - bin,
    {
        r = log_add(r, psd[bin]);
        bin = bin + 1;
    }
    r
}

fn set_band_power(bands: &mut Vec<i32>, psd: &Vec<i32>, start: usize, end: usize)
    requires
        old(bands)@.len() == 50,
        within(old(bands)@, 0x3_0000),
        psd@.len() == 256,
        within(psd@, 0x2_0000),
        start < 253,
        end <= 253,
    ensures
        final(bands)@.len() == 50,
        within(final(bands)@, 0x3_0000),
        ints(final(bands)@) == band_power(ints(old(bands)@), ints(psd@), start as int, end as int),
{
    let first: usize = band_index(start);
    let last: usize = if end > start { band_index(end - 1) } else { first };
    let ghost wanted = band_power(ints(bands@), ints(psd@), start as int, end as int);
    let mut band: usize = first;
    while band <= last
        invariant
            first <= band,
            last < 50,
            first == band_of(start as int),
            last == if end > start { band_of(end - 1) } else { band_of(start as int) },
            first <= last ==> band <= last + 1,
            bands@.len() == 50,
            within(bands@, 0x3_0000),
            psd@.len() == 256,
            within(psd@, 0x2_0000),
            start < 253,
            end <= 253,
            wanted == band_power(ints(old(bands)@), ints(psd@), start as int, end as int),
            forall|b: int|
                0 <= b < 50 ==> #[trigger] bands@[b] as int == if first <= b < band && b <= last {
                    wanted[b]
                } else {
                    old(bands)@[b] as int
                },
        decreases last + 1 - band,
    {
        let begins: usize = if band == 0 { 0 } else { band_limit(band - 1) };
        let ends: usize = band_limit(band);
        let lo: usize = if begins > start { begins } else { start };
        let hi: usize = if ends < end { ends } else { end };
        let level: i32 = total_level(psd, lo, hi);
        bands.set(band, level);
        band = band + 1;
    }
    assert(ints(bands@) =~= wanted);
}

/// `n` seven-bit codes from `p` on.
pub open spec fn groups_at(d: Seq<u8>, p: int, n: int) -> Seq<int> {
    Seq::new(n as nat, |i: int| field(d, p + 7 * i, 7))
}

fn read_groups(reader: &mut BitReader<'_>, n: usize) -> (r: Result<Vec<i32>, ParseError>)
    requires
        old(reader).wf(),
    ensures
        final(reader).wf(),
        final(reader).same_source(old(reader)),
        match r {
            Ok(v) => {
                &&& n == 0 || old(reader).has(7 * n)
                &&& ints(v@) == groups_at(old(reader).data(), old(reader).pos(), n as int)
                &&& group_codes(v@)
                &&& final(reader).pos() == old(reader).pos() + 7 * n
            },
            Err(e) => n > 0 && !old(reader).has(7 * n) && e == ParseError::ShortPacket,
        },
{
    let ghost d = reader.data();
    let ghost p = reader.pos();
    let mut v: Vec<i32> = Vec::new();
    while v.len() < n
        invariant
            reader.wf(),
            reader.same_source(old(reader)),
            d == old(reader).data(),
            p == old(reader).pos(),
            v@.len() <= n,
            v@.len() == 0 || reader.pos() <= reader.limit(),
            reader.pos() == p + 7 * v@.len(),
            group_codes(v@),
            forall|i: int| 0 <= i < v@.len() ==> #[trigger] v@[i] == field(d, p + 7 * i, 7),
        decreases n - v.len(),
    {
        let Some(code) = reader.read_bits(7) else {
            return Err(ParseError::ShortPacket);
        };
        v.push(code as i32);
    }
    assert(ints(v@) =~= groups_at(d, p, n as int));
    Ok(v)
}

/// The state an exponent set leaves, and its outcome.
pub open spec fn decoded_into(
    r: Result<(), ParseError>,
    before: AllocationState,
    after: AllocationState,
    wanted: (Spectrum, Result<(), ParseError>),
) -> bool {
    &&& after.wf()
    &&& after.bap == before.bap
    &&& (after.spectrum(), r) == wanted
}

/// Allocation state of one channel.
#[derive(Debug, Clone)]
pub struct AllocationState {
    pub exponents: Vec<i32>,
    pub psd: Vec<i32>,
    pub integrated_psd: Vec<i32>,
    pub bap: Vec<u8>,
}

impl AllocationState {
    pub open spec fn wf(&self) -> bool {
        &&& self.exponents@.len() == 256
        &&& self.psd@.len() == 256
        &&& self.integrated_psd@.len() == 50
        &&& self.bap@.len() == 256
        &&& within(self.exponents@, 1000)
        &&& within(self.psd@, 0x2_0000)
        &&& within(self.integrated_psd@, 0x3_0000)
    }

    pub open spec fn spectrum(&self) -> Spectrum {
        Spectrum {
            exponents: ints(self.exponents@),
            psd: ints(self.psd@),
            bands: ints(self.integrated_psd@),
        }
    }

    pub fn new() -> (r: Self)
        ensures
            r.wf(),
            r.exponents@ == Seq::new(256, |i: int| 0i32),
            r.psd@ == Seq::new(256, |i: int| 0i32),
            r.integrated_psd@ == Seq::new(50, |i: int| 0i32),
            r.bap@ == Seq::new(256, |i: int| 0u8),
    {
        let mut bap: Vec<u8> = Vec::new();
        while bap.len() < 256
            invariant
                bap@.len() <= 256,
                forall|i: int| 0 <= i < bap@.len() ==> bap@[i] == 0,
            decreases 256 - bap.len(),
        {
            bap.push(0);
        }
        assert(bap@ =~= Seq::new(256, |i: int| 0u8));
        AllocationState { exponents: zeros(256), psd: zeros(256), integrated_psd: zeros(50), bap }
    }

    /// Take every bit from every mantissa.
    pub fn clear_bap(&mut self)
        requires
            old(self).wf(),
        ensures
            final(self).wf(),
            final(self).bap@ == Seq::new(256, |i: int| 0u8),
            final(self).exponents == old(self).exponents,
            final(self).psd == old(self).psd,
            final(self).integrated_psd == old(self).integrated_psd,
    {
        let mut bin: usize = 0;
        while bin < 256
            invariant
                bin <= 256,
                self.wf(),
                self.exponents == old(self).exponents,
                self.psd == old(self).psd,
                self.integrated_psd == old(self).integrated_psd,
                forall|i: int| 0 <= i < bin ==> self.bap@[i] == 0,
            decreases 256 - bin,
        {
            self.bap.set(bin, 0);
            bin = bin + 1;
        }
        assert(self.bap@ =~= Seq::new(256, |i: int| 0u8));
    }

    /// Decode exponents coded as a base and groups of three steps.
    pub fn decode_grouped_exponents(
        &mut self,
        strategy: ExpStrategy,
        start_mantissa: usize,
        exponent_offset: usize,
        end_mantissa: usize,
        absolute_exponent: i32,
        grouped: &Vec<i32>,
    ) -> (r: Result<(), ParseError>)
        requires
            old(self).wf(),
            decodable(
                strategy,
                start_mantissa as int,
                exponent_offset as int,
                end_mantissa as int,
                grouped@.len() as int,
            ),
            0 <= absolute_exponent <= 30,
            group_codes(grouped@),
        ensures
            decoded_into(
                r,
                *old(self),
                *final(self),
                decoded(
                    old(self).spectrum(),
                    strategy,
                    start_mantissa as int,
                    exponent_offset as int,
                    end_mantissa as int,
                    absolute_exponent as int,
                    ints(grouped@),
                ),
            ),
    {
        if end_mantissa > 256 {
            return Err(ParseError::InvalidHeader("endmant"));
        }
        let size: usize = match strategy {
            ExpStrategy::Reuse => {
                return Ok(());
            },
            ExpStrategy::D15 => 1,
            ExpStrategy::D25 => 2,
            ExpStrategy::D45 => 4,
        };
        let n: usize = grouped.len();
        if n > 0 && (exponent_offset > 256 || n > (256 - exponent_offset) / (3 * size)) {
            proof {
                lemma_room(exponent_offset as int, size as int, n as int);
            }
            spread_to_end(
                &mut self.exponents,
                start_mantissa,
                exponent_offset,
                size,
                absolute_exponent,
                grouped,
            );
            return Err(ParseError::InvalidHeader("expmant"));
        }
        proof {
            lemma_room(exponent_offset as int, size as int, n as int);
        }
        spread_exponents(
            &mut self.exponents,
            start_mantissa,
            exponent_offset,
            size,
            absolute_exponent,
            grouped,
        );
        set_power(&mut self.psd, &self.exponents, start_mantissa, end_mantissa);
        set_band_power(&mut self.integrated_psd, &self.psd, start_mantissa, end_mantissa);
        Ok(())
    }

    /// Exponents of a full-bandwidth channel: a base, `groups` groups, and two
    /// bits of gain range that are skipped.
    pub fn read_channel_exponents(
        &mut self,
        reader: &mut BitReader<'_>,
        strategy: ExpStrategy,
        groups: usize,
        end_mantissa: usize,
    ) -> (r: Result<(), ParseError>)
        requires
            old(self).wf(),
            old(reader).wf(),
            old(reader).has(6 + 7 * groups) ==> decodable(
                strategy,
                0,
                1,
                end_mantissa as int,
                groups as int,
            ),
        ensures
            final(reader).wf(),
            final(reader).same_source(old(reader)),
            decoded_into(
                r,
                *old(self),
                *final(self),
                if old(reader).has(6 + 7 * groups) {
                    decoded(
                        old(self).spectrum(),
                        strategy,
                        0,
                        1,
                        end_mantissa as int,
                        field(old(reader).data(), old(reader).pos(), 4),
                        groups_at(old(reader).data(), old(reader).pos() + 4, groups as int),
                    )
                } else {
                    (old(self).spectrum(), Err(ParseError::ShortPacket))
                },
            ),
            old(reader).has(6 + 7 * groups) ==> final(reader).pos() == old(reader).pos() + 6 + 7
                * groups,
    {
        let Some(base) = reader.read_bits(4) else {
            return Err(ParseError::ShortPacket);
        };
        let grouped: Vec<i32> = read_groups(reader, groups)?;
        if reader.skip_bits(2).is_none() {
            return Err(ParseError::ShortPacket);
        }
        assert(old(reader).has(6 + 7 * groups));
        assert(grouped@.len() == ints(grouped@).len());
        self.decode_grouped_exponents(strategy, 0, 1, end_mantissa, base as i32, &grouped)
    }

    /// Exponents of the low-frequency channel: a base and two groups.
    pub fn read_lfe_exponents(&mut self, reader: &mut BitReader<'_>) -> (r: Result<(), ParseError>)
        requires
            old(self).wf(),
            old(reader).wf(),
        ensures
            final(reader).wf(),
            final(reader).same_source(old(reader)),
            decoded_into(
                r,
                *old(self),
                *final(self),
                if old(reader).has(18) {
                    decoded(
                        old(self).spectrum(),
                        ExpStrategy::D15,
                        0,
                        1,
                        LFE_END_MANTISSA as int,
                        field(old(reader).data(), old(reader).pos(), 4),
                        groups_at(old(reader).data(), old(reader).pos() + 4, 2),
                    )
                } else {
                    (old(self).spectrum(), Err(ParseError::ShortPacket))
                },
            ),
            old(reader).has(18) ==> final(reader).pos() == old(reader).pos() + 18,
    {
        let Some(base) = reader.read_bits(4) else {
            return Err(ParseError::ShortPacket);
        };
        let grouped: Vec<i32> = read_groups(reader, 2)?;
        self.decode_grouped_exponents(
            ExpStrategy::D15,
            0,
            1,
            LFE_END_MANTISSA,
            base as i32,
            &grouped,
        )
    }

    /// Exponents of the coupling channel. Its base is coded without the
    /// lowest bit and stands for no bin of its own.
    pub fn read_coupling_exponents(
        &mut self,
        reader: &mut BitReader<'_>,
        strategy: ExpStrategy,
        start_mantissa: usize,
        end_mantissa: usize,
        groups: usize,
    ) -> (r: Result<(), ParseError>)
        requires
            old(self).wf(),
            old(reader).wf(),
            old(reader).has(4 + 7 * groups) ==> decodable(
                strategy,
                start_mantissa as int,
                start_mantissa as int,
                end_mantissa as int,
                groups as int,
            ),
        ensures
            final(reader).wf(),
            final(reader).same_source(old(reader)),
            decoded_into(
                r,
                *old(self),
                *final(self),
                if old(reader).has(4 + 7 * groups) {
                    decoded(
                        old(self).spectrum(),
                        strategy,
                        start_mantissa as int,
                        start_mantissa as int,
                        end_mantissa as int,
                        2 * field(old(reader).data(), old(reader).pos(), 4),
                        groups_at(old(reader).data(), old(reader).pos() + 4, groups as int),
                    )
                } else {
                    (old(self).spectrum(), Err(ParseError::ShortPacket))
                },
            ),
            old(reader).has(4 + 7 * groups) ==> final(reader).pos() == old(reader).pos() + 4 + 7
                * groups,
    {
        let Some(base) = reader.read_bits(4) else {
            return Err(ParseError::ShortPacket);
        };
        let grouped: Vec<i32> = read_groups(reader, groups)?;
        assert(old(reader).has(4 + 7 * groups));
        assert(grouped@.len() == ints(grouped@).len());
        self.decode_grouped_exponents(
            strategy,
            start_mantissa,
            start_mantissa,
            end_mantissa,
            2 * base as i32,
            &grouped,
        )
    }

    /// Distribute mantissa bits over the bins `start..end`.
    pub fn allocate(
        &mut self,
        start: usize,
        end: usize,
        fgain_code: u8,
        snr_offset: i32,
        params: BitAllocationParams,
        sample_rate_index: usize,
        delta: &DeltaBitAllocationState,
        fast_leak: i32,
        slow_leak: i32,
        aht: bool,
    ) -> (r: Result<(), ParseError>)
        requires
            old(self).wf(),
            start < end <= 256 ==> end <= 253 || delta.mode == DeltaBitAllocationMode::MuteOutput,
            params.wf(),
            fgain_code < 8,
            sample_rate_index < 3,
            -0x4000_0000 <= snr_offset <= 0x4000_0000,
            -0x3000_0000 <= fast_leak <= 0x3000_0000,
            -0x3000_0000 <= slow_leak <= 0x3000_0000,
        ensures
            r == Ok::<(), ParseError>(()),
            final(self).wf(),
            final(self).exponents == old(self).exponents,
            final(self).psd == old(self).psd,
            final(self).integrated_psd == old(self).integrated_psd,
            final(self).bap@ == allocated(
                old(self).bap@,
                old(self).spectrum(),
                start as int,
                end as int,
                curve_of(params, fgain_code as int),
                sample_rate_index as int,
                *delta,
                snr_offset as int,
                fast_leak as int,
                slow_leak as int,
                aht,
            ),
            forall|i: int|
                start <= i < 256 ==> #[trigger] final(self).bap@[i] <= if aht { 19u8 } else { 15u8 },
    {
        if end == 0 || end > 256 || start >= end || delta.mode
            == DeltaBitAllocationMode::MuteOutput {
            self.clear_bap();
            return Ok(());
        }
        let c: Curve = curve(params, fgain_code);
        let first: usize = band_index(start);
        let last: usize = band_index(end - 1) + 1;
        let excited: Vec<i32> = excite(&self.integrated_psd, &c, first, last, fast_leak, slow_leak);
        let mut mask: Vec<i32> = build_mask(
            &self.integrated_psd,
            &excited,
            &c,
            sample_rate_index,
            first,
            last,
        );
        match delta.mode {
            DeltaBitAllocationMode::Reuse | DeltaBitAllocationMode::NewInfoFollows => {
                adjust(&mut mask, first, &delta.segments);
            },
            _ => {},
        }
        assign(&mut self.bap, &self.psd, &mask, start, end, snr_offset, c.floor, aht);
        Ok(())
    }
}

/// Bits per mantissa after an allocation: none at all for an empty range or
/// a muted channel, else what the masking curve leaves audible.
pub open spec fn allocated(
    before: Seq<u8>,
    s: Spectrum,
    start: int,
    end: int,
    c: Curve,
    rate: int,
    delta: DeltaBitAllocationState,
    snr_offset: int,
    fast: int,
    slow: int,
    aht: bool,
) -> Seq<u8> {
    if end == 0 || end > 256 || start >= end || delta.mode == DeltaBitAllocationMode::MuteOutput {
        Seq::new(256, |i: int| 0u8)
    } else {
        let first = band_of(start);
        let last = band_of(end - 1) + 1;
        let plain = mask_of(
            s.bands,
            excitation(s.bands, c, first, last, fast, slow),
            c,
            rate,
            first,
            last,
        );
        let mask = if delta.mode == DeltaBitAllocationMode::NoAllocation {
            plain
        } else {
            adjusted(plain, first, delta.segments@, 0)
        };
        allocation(before, s.psd, mask, start, end, snr_offset, c.floor as int, aht)
    }
}

} // verus!
