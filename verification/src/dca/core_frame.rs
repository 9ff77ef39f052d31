//! Subframes of a channel set, one after the other, and what is carried over
//! to the next frame.

use vstd::prelude::*;
use crate::bits::{field, BitReader};
use crate::grammar::{lemma_thread_keeps, lemma_thread_step, repeat, rows, thread};
use super::core_audio::{
    band_step, channel_step, row_of, shape, subsub_step, written, AudioContext, AudioModel,
};
use super::core_bands::{
    adpcm_bands, adpcm_channels, audio_of, hf_bands, hf_step, joint_channels, joint_rows,
    lfe_at, parse_subframe_audio, subframe_audio, vq_count, Audio,
};
use super::core_header::{number_step, rb, short, CoreError, SetCoding, SetModel};
use super::core_subframe::{parse_subframe_header, subframe_header, SubframeHeader, SubframeModel};
use super::core_tables::CoreTables;

verus! {

/// What the subframes of a set are decoded with.
pub ghost struct FrameModel {
    pub d: Seq<u8>,
    pub lim: int,
    pub tables: CoreTables,
    pub set: SetModel,
    /// First channel of the set.
    pub base: int,
    /// Channels of the set.
    pub n: int,
    /// Band counts of all channels.
    pub all: Seq<usize>,
    /// Blocks of the frame.
    pub npcm: int,
    pub crc: bool,
    pub lossless: bool,
    pub sync_ssf: bool,
    /// Low-frequency samples of the set: twice this many per subsubframe.
    pub lfe_rate: int,
    /// The primary set codes its own subsubframes; the others share them.
    pub primary: bool,
    pub layout: Seq<usize>,
}

/// [`FrameModel`] as the decoder holds it.
#[derive(Clone, Copy)]
pub struct FrameContext<'a> {
    pub tables: &'a CoreTables,
    pub set: &'a SetCoding,
    pub base: usize,
    pub n: usize,
    pub all: &'a Vec<usize>,
    pub npcm: usize,
    pub crc: bool,
    pub lossless: bool,
    pub sync_ssf: bool,
    pub lfe_rate: usize,
    pub primary: bool,
    pub layout: &'a Vec<usize>,
}

/// Subsubframes of each subframe.
pub open spec fn layout_wf(v: Seq<usize>) -> bool {
    forall|i: int| 0 <= i < v.len() ==> 1 <= #[trigger] v[i] <= 4
}

/// Band counts of the channels of a frame, of which the set's are its own.
pub open spec fn counts_wf(all: Seq<usize>, set: SetModel, base: int, n: int) -> bool {
    &&& all.len() == 12
    &&& forall|i: int| 0 <= i < 12 ==> #[trigger] all[i] <= 32
    &&& forall|i: int| 0 <= i < n ==> #[trigger] set.nsubbands[i] == all[base + i]
}

impl<'a> FrameContext<'a> {
    pub open spec fn model(&self, d: Seq<u8>, lim: int) -> FrameModel {
        FrameModel {
            d,
            lim,
            tables: *self.tables,
            set: self.set@,
            base: self.base as int,
            n: self.n as int,
            all: self.all@,
            npcm: self.npcm as int,
            crc: self.crc,
            lossless: self.lossless,
            sync_ssf: self.sync_ssf,
            lfe_rate: self.lfe_rate as int,
            primary: self.primary,
            layout: self.layout@,
        }
    }

    pub open spec fn wf(&self) -> bool {
        &&& self.tables.wf()
        &&& self.set.wf(self.n as int, self.base + self.n)
        &&& self.base + self.n <= 12
        &&& counts_wf(self.all@, self.set@, self.base as int, self.n as int)
        &&& self.lfe_rate <= 2
        &&& self.npcm <= 0x1000
        &&& layout_wf(self.layout@)
    }
}

/// Where the subframes read so far have come to.
pub ghost struct Run {
    pub audio: Audio,
    pub pos: int,
    pub lfe_pos: int,
    pub layout: Seq<usize>,
}

/// Subsubframes of subframe `sf`.
pub open spec fn subframe_size(m: FrameModel, sf: int, q: int) -> Result<(usize, int), CoreError> {
    if !m.primary {
        Ok((m.layout[sf], q))
    } else if q + 5 > m.lim {
        short()
    } else {
        Ok(((field(m.d, q, 2) + 1) as usize, q + 5))
    }
}

pub open spec fn audio_model(m: FrameModel, head: SubframeModel) -> AudioModel {
    AudioModel {
        d: m.d,
        lim: m.lim,
        tables: m.tables,
        set: m.set,
        head,
        base: m.base,
        n: m.n,
        lossless: m.lossless,
        sync_ssf: m.sync_ssf,
    }
}

/// One subframe.
pub open spec fn subframe_step(m: FrameModel) -> spec_fn(int, Run, int) -> (
    Run,
    Result<int, CoreError>,
) {
    |sf: int, run: Run, q: int|
        match subframe_size(m, sf, q) {
            Err(e) => (run, Err(e)),
            Ok((nssf, a)) => match subframe_header(
                m.d,
                m.lim,
                a,
                m.tables,
                m.set,
                m.n,
                m.all,
                nssf,
                m.crc,
            ) {
                Err(e) => (run, Err(e)),
                Ok((head, b)) => {
                    let nlfe = 2 * m.lfe_rate * nssf;
                    match subframe_audio(
                        audio_model(m, head),
                        run.audio,
                        b,
                        m.npcm,
                        run.pos,
                        run.lfe_pos,
                        nssf as int,
                        nlfe,
                    ) {
                        (audio, Err(e)) => (Run { audio, ..run }, Err(e)),
                        (audio, Ok(w)) => (
                            Run {
                                audio,
                                pos: run.pos + 8 * nssf,
                                lfe_pos: run.lfe_pos + nlfe,
                                layout: run.layout.push(nssf),
                            },
                            Ok(w),
                        ),
                    }
                },
            },
        }
}

fn parse_size(gb: &mut BitReader<'_>, f: &FrameContext<'_>, sf: usize) -> (r: Result<usize, CoreError>)
    requires
        old(gb).wf(),
        f.wf(),
        !f.primary ==> sf < f.layout@.len(),
    ensures
        final(gb).wf(),
        final(gb).same_source(old(gb)),
        old(gb).pos() <= final(gb).pos(),
        crate::grammar::parsed(
            r,
            subframe_size(f.model(old(gb).data(), old(gb).limit()), sf as int, old(gb).pos()),
            final(gb).pos(),
        ),
        r matches Ok(v) ==> 1 <= v <= 4,
{
    if f.primary {
        let nssf: usize = rb(gb, 2)? as usize + 1;
        rb(gb, 3)?;
        Ok(nssf)
    } else {
        Ok(f.layout[sf])
    }
}

/// The low-frequency samples keep step with the blocks.
pub open spec fn in_step(pos: int, lfe_pos: int, rate: int) -> bool {
    &&& pos % 8 == 0
    &&& 0 <= pos
    &&& lfe_pos == 8 + 2 * rate * (pos / 8)
}

proof fn lemma_in_step(pos: int, lfe_pos: int, rate: int, nssf: int, npcm: int)
    requires
        in_step(pos, lfe_pos, rate),
        0 <= rate <= 2,
        1 <= nssf <= 4,
    ensures
        in_step(pos + 8 * nssf, lfe_pos + 2 * rate * nssf, rate),
        pos + 8 * nssf <= npcm ==> lfe_pos + 2 * rate * nssf <= 8 + npcm / 2,
        0 <= 2 * rate * nssf <= 16,
{
    let k = pos / 8;
    assert((pos + 8 * nssf) / 8 == k + nssf);
    assert(2 * rate * (k + nssf) == 2 * rate * k + 2 * rate * nssf) by (nonlinear_arith);
    assert(2 * rate * (k + nssf) <= 4 * (k + nssf)) by (nonlinear_arith)
        requires
            0 <= rate <= 2,
            0 <= k + nssf,
    ;
    assert(0 <= 2 * rate * nssf <= 16) by (nonlinear_arith)
        requires
            0 <= rate <= 2,
            1 <= nssf <= 4,
    ;
}

fn parse_subframe(
    gb: &mut BitReader<'_>,
    f: &FrameContext<'_>,
    samples: &mut Vec<Vec<i32>>,
    lfe: &mut Vec<i32>,
    pos: usize,
    lfe_pos: usize,
    sf: usize,
    Ghost(layout): Ghost<Seq<usize>>,
) -> (r: Result<usize, CoreError>)
    requires
        old(gb).wf(),
        f.wf(),
        !f.primary ==> sf < f.layout@.len(),
        shape(old(samples)@, f.npcm as int),
        old(lfe)@.len() == 8 + f.npcm / 2,
        pos <= f.npcm,
        in_step(pos as int, lfe_pos as int, f.lfe_rate as int),
    ensures
        final(gb).wf(),
        final(gb).same_source(old(gb)),
        old(gb).pos() <= final(gb).pos(),
        shape(final(samples)@, f.npcm as int),
        final(lfe)@.len() == old(lfe)@.len(),
        match (
            r,
            subframe_step(f.model(old(gb).data(), old(gb).limit()))(
                sf as int,
                Run {
                    audio: audio_of(old(samples)@, old(lfe)@),
                    pos: pos as int,
                    lfe_pos: lfe_pos as int,
                    layout,
                },
                old(gb).pos(),
            ),
        ) {
            (Ok(nssf), (run, Ok(q))) => {
                &&& 1 <= nssf <= 4
                &&& pos + 8 * nssf <= f.npcm
                &&& run == (Run {
                    audio: audio_of(final(samples)@, final(lfe)@),
                    pos: pos + 8 * nssf,
                    lfe_pos: lfe_pos + 2 * f.lfe_rate * nssf,
                    layout: layout.push(nssf),
                })
                &&& final(gb).pos() == q
            },
            (Err(e), (run, Err(x))) => {
                &&& e == x
                &&& run.audio == audio_of(final(samples)@, final(lfe)@)
            },
            _ => false,
        },
{
    let ghost m = f.model(gb.data(), gb.limit());
    let nssf: usize = parse_size(gb, f, sf)?;
    let head: SubframeHeader = parse_subframe_header(
        gb,
        f.tables,
        f.set,
        f.n,
        f.base + f.n,
        f.all,
        nssf,
        f.crc,
    )?;
    let c: AudioContext<'_> = AudioContext {
        tables: f.tables,
        set: f.set,
        head: &head,
        base: f.base,
        n: f.n,
        lossless: f.lossless,
        sync_ssf: f.sync_ssf,
    };
    proof {
        lemma_in_step(pos as int, lfe_pos as int, f.lfe_rate as int, nssf as int, f.npcm as int);
        assert(c.model(gb.data(), gb.limit()) == audio_model(m, head@));
    }
    assert(2 * f.lfe_rate <= 4);
    let nlfe: usize = 2 * f.lfe_rate * nssf;
    parse_subframe_audio(gb, &c, samples, lfe, f.npcm, pos, lfe_pos, nssf, nlfe, f.all)?;
    Ok(nssf)
}

/// What the subframes of a set start from.
pub open spec fn run_start(a: Audio) -> Run {
    Run { audio: a, pos: 0, lfe_pos: 8, layout: Seq::empty() }
}

fn parse_subframes(
    gb: &mut BitReader<'_>,
    f: &FrameContext<'_>,
    samples: &mut Vec<Vec<i32>>,
    lfe: &mut Vec<i32>,
    n: usize,
) -> (r: Result<Vec<usize>, CoreError>)
    requires
        old(gb).wf(),
        f.wf(),
        !f.primary ==> n <= f.layout@.len(),
        shape(old(samples)@, f.npcm as int),
        old(lfe)@.len() == 8 + f.npcm / 2,
    ensures
        final(gb).wf(),
        final(gb).same_source(old(gb)),
        shape(final(samples)@, f.npcm as int),
        final(lfe)@.len() == old(lfe)@.len(),
        match (
            r,
            thread(
                subframe_step(f.model(old(gb).data(), old(gb).limit())),
                run_start(audio_of(old(samples)@, old(lfe)@)),
                old(gb).pos(),
                n as int,
            ),
        ) {
            (Ok(v), (run, Ok(q))) => {
                &&& run.audio == audio_of(final(samples)@, final(lfe)@)
                &&& run.layout == v@
                &&& v@.len() == n
                &&& layout_wf(v@)
                &&& final(gb).pos() == q
            },
            (Err(e), (run, Err(x))) => {
                &&& e == x
                &&& run.audio == audio_of(final(samples)@, final(lfe)@)
            },
            _ => false,
        },
{
    let ghost step = subframe_step(f.model(gb.data(), gb.limit()));
    let ghost first = run_start(audio_of(samples@, lfe@));
    let ghost p = gb.pos();
    let mut layout: Vec<usize> = Vec::new();
    let mut pos: usize = 0;
    let mut lfe_pos: usize = 8;
    while layout.len() < n
        invariant
            gb.wf(),
            gb.same_source(old(gb)),
            step == subframe_step(f.model(gb.data(), gb.limit())),
            first == run_start(audio_of(old(samples)@, old(lfe)@)),
            p == old(gb).pos(),
            f.wf(),
            !f.primary ==> n <= f.layout@.len(),
            shape(samples@, f.npcm as int),
            lfe@.len() == old(lfe)@.len(),
            lfe@.len() == 8 + f.npcm / 2,
            layout@.len() <= n,
            layout_wf(layout@),
            pos <= f.npcm,
            in_step(pos as int, lfe_pos as int, f.lfe_rate as int),
            thread(step, first, p, layout@.len() as int) == (
                Run {
                    audio: audio_of(samples@, lfe@),
                    pos: pos as int,
                    lfe_pos: lfe_pos as int,
                    layout: layout@,
                },
                Ok::<int, CoreError>(gb.pos()),
            ),
        decreases n - layout.len(),
    {
        let ghost before = layout@;
        proof {
            lemma_thread_step(step, first, p, layout@.len() as int, n as int);
        }
        let sf: usize = layout.len();
        let nssf: usize = parse_subframe(
            gb,
            f,
            samples,
            lfe,
            pos,
            lfe_pos,
            sf,
            Ghost(layout@),
        )?;
        proof {
            lemma_in_step(pos as int, lfe_pos as int, f.lfe_rate as int, nssf as int, f.npcm as int);
        }
        pos = pos + 8 * nssf;
        lfe_pos = lfe_pos + 2 * f.lfe_rate * nssf;
        layout.push(nssf);
        assert(layout@ =~= before.push(nssf));
    }
    Ok(layout)
}

/// Bands of channel `ch` of the set that carry samples.
pub open spec fn active_bands(set: SetModel, all: Seq<usize>, ch: int) -> int {
    let own = set.nsubbands[ch];
    if set.joint[ch] != 0 && all[set.joint[ch] - 1] > own {
        all[set.joint[ch] - 1] as int
    } else {
        own as int
    }
}

/// A row after the frame: its last samples become its history, or nothing is
/// left of it.
pub open spec fn settled_row(row: Seq<i32>, npcm: int, active: bool) -> Seq<i32> {
    Seq::new(
        row.len(),
        |i: int|
            if !active {
                0
            } else if i < 4 {
                row[npcm + i]
            } else {
                row[i]
            },
    )
}

/// The rows of a set after the frame.
pub open spec fn settled(
    s: Seq<Seq<i32>>,
    set: SetModel,
    all: Seq<usize>,
    base: int,
    n: int,
    npcm: int,
) -> Seq<Seq<i32>> {
    Seq::new(
        s.len(),
        |r: int|
            if 32 * base <= r < 32 * (base + n) {
                settled_row(s[r], npcm, r % 32 < active_bands(set, all, r / 32 - base))
            } else {
                s[r]
            },
    )
}

fn settle_row(row: &mut Vec<i32>, npcm: usize, active: bool)
    requires
        old(row)@.len() == 4 + npcm,
    ensures
        final(row)@ == settled_row(old(row)@, npcm as int, active),
        final(row)@.len() == old(row)@.len(),
{
    let total: usize = row.len();
    let n: usize = if active { 4 } else { total };
    let mut i: usize = 0;
    while i < n
        invariant
            total == row@.len(),
            total == 4 + npcm,
            total == old(row)@.len(),
            n == if active { 4 } else { total },
            i <= n,
            forall|k: int| 0 <= k < i ==> row@[k] == settled_row(old(row)@, npcm as int, active)[k],
            forall|k: int| i <= k < total ==> row@[k] == old(row)@[k],
        decreases n - i,
    {
        let v: i32 = if active { row[npcm + i] } else { 0 };
        row.set(i, v);
        i = i + 1;
    }
    assert(row@ =~= settled_row(old(row)@, npcm as int, active));
}

fn settle(f: &FrameContext<'_>, samples: &mut Vec<Vec<i32>>)
    requires
        f.wf(),
        shape(old(samples)@, f.npcm as int),
    ensures
        shape(final(samples)@, f.npcm as int),
        rows(final(samples)@) == settled(
            rows(old(samples)@),
            f.set@,
            f.all@,
            f.base as int,
            f.n as int,
            f.npcm as int,
        ),
{
    let from: usize = 32 * f.base;
    let to: usize = 32 * (f.base + f.n);
    let mut r: usize = from;
    while r < to
        invariant
            f.wf(),
            shape(samples@, f.npcm as int),
            shape(old(samples)@, f.npcm as int),
            from == 32 * f.base,
            to == 32 * (f.base + f.n),
            from <= r <= to,
            forall|k: int|
                0 <= k < 384 && (k < from || k >= r) ==> #[trigger] samples@[k]@ == old(
                    samples,
                )@[k]@,
            forall|k: int|
                from <= k < r ==> #[trigger] samples@[k]@ == settled_row(
                    old(samples)@[k]@,
                    f.npcm as int,
                    k % 32 < active_bands(f.set@, f.all@, k / 32 - f.base),
                ),
        decreases to - r,
    {
        let ch: usize = r / 32 - f.base;
        let joint: usize = f.set.joint[ch];
        let own: usize = f.set.nsubbands[ch];
        assert(joint < f.base + f.n + 1);
        let bands: usize = if joint != 0 && f.all[joint - 1] > own { f.all[joint - 1] } else { own };
        assert(samples@[r as int]@.len() == 4 + f.npcm);
        settle_row(&mut samples[r], f.npcm, r % 32 < bands);
        r = r + 1;
    }
    assert(rows(samples@) =~= settled(
        rows(old(samples)@),
        f.set@,
        f.all@,
        f.base as int,
        f.n as int,
        f.npcm as int,
    ));
}

/// All subframes of a set: the audio that they leave, and the subsubframes of
/// each with the position after them.
#[verifier::opaque]
pub open spec fn frame_data(m: FrameModel, a: Audio, p: int, n: int) -> (
    Audio,
    Result<(Seq<usize>, int), CoreError>,
) {
    match thread(subframe_step(m), run_start(a), p, n) {
        (run, Err(e)) => (run.audio, Err(e)),
        (run, Ok(q)) => (
            Audio { samples: settled(run.audio.samples, m.set, m.all, m.base, m.n, m.npcm), ..run.audio },
            Ok((run.layout, q)),
        ),
    }
}

pub fn parse_frame_data(
    gb: &mut BitReader<'_>,
    f: &FrameContext<'_>,
    samples: &mut Vec<Vec<i32>>,
    lfe: &mut Vec<i32>,
    n: usize,
) -> (r: Result<Vec<usize>, CoreError>)
    requires
        old(gb).wf(),
        f.wf(),
        !f.primary ==> n <= f.layout@.len(),
        shape(old(samples)@, f.npcm as int),
        old(lfe)@.len() == 8 + f.npcm / 2,
    ensures
        final(gb).wf(),
        final(gb).same_source(old(gb)),
        shape(final(samples)@, f.npcm as int),
        final(lfe)@.len() == old(lfe)@.len(),
        match (
            r,
            frame_data(
                f.model(old(gb).data(), old(gb).limit()),
                audio_of(old(samples)@, old(lfe)@),
                old(gb).pos(),
                n as int,
            ),
        ) {
            (Ok(v), (audio, Ok((layout, q)))) => {
                &&& audio == audio_of(final(samples)@, final(lfe)@)
                &&& layout == v@
                &&& v@.len() == n
                &&& layout_wf(v@)
                &&& final(gb).pos() == q
            },
            (Err(e), (audio, Err(x))) => e == x && audio == audio_of(final(samples)@, final(lfe)@),
            _ => false,
        },
{
    reveal(frame_data);
    let layout: Vec<usize> = parse_subframes(gb, f, samples, lfe, n)?;
    settle(f, samples);
    Ok(layout)
}

/// The subframes of a set end inside the data.
pub proof fn lemma_frame_end(m: FrameModel, a: Audio, p: int, n: int)
    requires
        p <= m.lim,
        m.primary || (layout_wf(m.layout) && n <= m.layout.len()),
    ensures
        frame_data(m, a, p, n).1 matches Ok((_, q)) ==> q <= m.lim,
{
    reveal(frame_data);
    if n > 0 {
        match thread(subframe_step(m), run_start(a), p, n - 1) {
            (run, Ok(q)) => {
                if let Ok((nssf, b)) = subframe_size(m, n - 1, q) {
                    crate::bits::lemma_field_range(m.d, q, 2);
                    assert(nssf >= 1);
                }
            },
            _ => {},
        }
    }
}

/// Two sets of rows are the same below row `end`.
pub open spec fn same_below(a: Seq<Seq<i32>>, b: Seq<Seq<i32>>, end: int) -> bool {
    &&& a.len() == b.len()
    &&& forall|r: int| 0 <= r < a.len() && r < end ==> a[r] == #[trigger] b[r]
}

proof fn lemma_hf_bands_below(m: AudioModel, s: Seq<Seq<i32>>, ch: int, index: Seq<usize>, at: int, len: int, k: int)
    requires
        ch >= 0,
    ensures
        same_below(s, hf_bands(m, s, ch, index, at, len, k), 32 * m.base),
    decreases k,
{
    if k > 0 {
        lemma_hf_bands_below(m, s, ch, index, at, len, k - 1);
    }
}

proof fn lemma_adpcm_below(m: AudioModel, s: Seq<Seq<i32>>, ch: int, pos: int, len: int, k: int)
    requires
        ch >= 0,
    ensures
        same_below(s, adpcm_bands(m, s, ch, pos, len, k), 32 * m.base),
    decreases k,
{
    if k > 0 {
        lemma_adpcm_below(m, s, ch, pos, len, k - 1);
    }
}

proof fn lemma_adpcm_channels_below(m: AudioModel, s: Seq<Seq<i32>>, pos: int, len: int, k: int)
    ensures
        same_below(s, adpcm_channels(m, s, pos, len, k), 32 * m.base),
    decreases k,
{
    if k > 0 {
        lemma_adpcm_channels_below(m, s, pos, len, k - 1);
        lemma_adpcm_below(
            m,
            adpcm_channels(m, s, pos, len, k - 1),
            k - 1,
            pos,
            len,
            m.head.modes[k - 1].len() as int,
        );
    }
}

proof fn lemma_joint_below(m: AudioModel, s: Seq<Seq<i32>>, ch: int, src: int, at: int, len: int, k: int)
    requires
        ch >= 0,
    ensures
        same_below(s, joint_rows(m, s, ch, src, at, len, k), 32 * m.base),
    decreases k,
{
    if k > 0 {
        lemma_joint_below(m, s, ch, src, at, len, k - 1);
    }
}

proof fn lemma_joint_channels_below(m: AudioModel, s: Seq<Seq<i32>>, at: int, len: int, k: int)
    ensures
        same_below(s, joint_channels(m, s, at, len, k), 32 * m.base),
    decreases k,
{
    if k > 0 {
        lemma_joint_channels_below(m, s, at, len, k - 1);
        lemma_joint_below(
            m,
            joint_channels(m, s, at, len, k - 1),
            k - 1,
            m.set.joint[k - 1] - 1,
            at,
            len,
            m.head.joint[k - 1].len() as int,
        );
    }
}

proof fn lemma_hf_below(m: AudioModel, s: Seq<Seq<i32>>, p: int, at: int, len: int)
    ensures
        same_below(s, thread(hf_step(m, at, len), s, p, m.n).0, 32 * m.base),
{
    let kept = |t: Seq<Seq<i32>>| same_below(s, t, 32 * m.base);
    let step = hf_step(m, at, len);
    assert forall|ch: int, t: Seq<Seq<i32>>, q: int| 0 <= ch && kept(t) implies kept(
        (#[trigger] step(ch, t, q)).0,
    ) by {
        let count = vq_count(m.set.vq_start[ch], m.set.nsubbands[ch]);
        match repeat(number_step(m.d, m.lim, 10, 0), q, count) {
            Ok((index, w)) => {
                lemma_hf_bands_below(m, t, ch, index, at, len, count);
            },
            _ => {},
        }
    }
    lemma_thread_keeps(step, s, p, m.n, kept);
}

proof fn lemma_channel_below(m: AudioModel, s: Seq<Seq<i32>>, p: int, ssf: int, ch: int, at: int)
    requires
        ch >= 0,
    ensures
        same_below(s, channel_step(m, ssf, at)(ch, s, p).0, 32 * m.base),
{
    let kept = |t: Seq<Seq<i32>>| same_below(s, t, 32 * m.base);
    let step = band_step(m, ssf, ch, at);
    assert forall|band: int, t: Seq<Seq<i32>>, q: int| 0 <= band && kept(t) implies kept(
        (#[trigger] step(band, t, q)).0,
    ) by {
        assert(row_of(m.base + ch, band) >= 32 * m.base);
    }
    lemma_thread_keeps(step, s, p, m.head.abits[ch].len() as int, kept);
}

proof fn lemma_subsubs_below(m: AudioModel, s: Seq<Seq<i32>>, p: int, pos: int, nssf: int)
    ensures
        same_below(s, thread(subsub_step(m, pos, nssf), s, p, nssf).0, 32 * m.base),
{
    let kept = |t: Seq<Seq<i32>>| same_below(s, t, 32 * m.base);
    let step = subsub_step(m, pos, nssf);
    assert forall|ssf: int, t: Seq<Seq<i32>>, q: int| 0 <= ssf && kept(t) implies kept(
        (#[trigger] step(ssf, t, q)).0,
    ) by {
        let at = 4 + pos + 8 * ssf;
        let inner = channel_step(m, ssf, at);
        assert forall|ch: int, u: Seq<Seq<i32>>, w: int| 0 <= ch && kept(u) implies kept(
            (#[trigger] inner(ch, u, w)).0,
        ) by {
            lemma_channel_below(m, u, w, ssf, ch, at);
        }
        lemma_thread_keeps(inner, t, q, m.n, kept);
    }
    lemma_thread_keeps(step, s, p, nssf, kept);
}

proof fn lemma_subframe_below(
    m: AudioModel,
    a: Audio,
    p: int,
    npcm: int,
    pos: int,
    lfe_pos: int,
    nssf: int,
    nlfe: int,
)
    ensures
        same_below(
            a.samples,
            subframe_audio(m, a, p, npcm, pos, lfe_pos, nssf, nlfe).0.samples,
            32 * m.base,
        ),
        nlfe == 0 ==> subframe_audio(m, a, p, npcm, pos, lfe_pos, nssf, nlfe).0.lfe == a.lfe,
{
    lemma_hf_below(m, a.samples, p, 4 + pos, 8 * nssf);
    let (s, r) = thread(hf_step(m, 4 + pos, 8 * nssf), a.samples, p, m.n);
    if let Ok(q) = r {
        if let Ok((v, w)) = lfe_at(m.d, m.lim, q, m.tables, nlfe) {
            lemma_subsubs_below(m, s, w, pos, nssf);
            let (t, end) = thread(subsub_step(m, pos, nssf), s, w, nssf);
            let u = adpcm_channels(m, t, pos, 8 * nssf, m.n);
            lemma_adpcm_channels_below(m, t, pos, 8 * nssf, m.n);
            lemma_joint_channels_below(m, u, 4 + pos, 8 * nssf, m.n);
            if nlfe == 0 {
                assert(written(a.lfe, lfe_pos, v) =~= a.lfe);
            }
        }
    }
}

/// A set writes to its own channels and, unless it is the primary set, leaves
/// the low-frequency samples as they are.
pub proof fn lemma_frame_below(m: FrameModel, a: Audio, p: int, n: int)
    ensures
        same_below(a.samples, frame_data(m, a, p, n).0.samples, 32 * m.base),
        m.lfe_rate == 0 ==> frame_data(m, a, p, n).0.lfe == a.lfe,
{
    reveal(frame_data);
    let kept = |run: Run|
        same_below(a.samples, run.audio.samples, 32 * m.base) && (m.lfe_rate == 0 ==> run.audio.lfe
            == a.lfe);
    let step = subframe_step(m);
    assert forall|sf: int, run: Run, q: int| 0 <= sf && kept(run) implies kept(
        (#[trigger] step(sf, run, q)).0,
    ) by {
        if let Ok((nssf, b)) = subframe_size(m, sf, q) {
            if let Ok((head, c)) = subframe_header(
                m.d,
                m.lim,
                b,
                m.tables,
                m.set,
                m.n,
                m.all,
                nssf,
                m.crc,
            ) {
                let nlfe = 2 * m.lfe_rate * nssf;
                assert(m.lfe_rate == 0 ==> nlfe == 0) by (nonlinear_arith)
                    requires
                        nlfe == 2 * m.lfe_rate * nssf,
                ;
                lemma_subframe_below(
                    audio_model(m, head),
                    run.audio,
                    c,
                    m.npcm,
                    run.pos,
                    run.lfe_pos,
                    nssf as int,
                    nlfe,
                );
            }
        }
    }
    lemma_thread_keeps(step, run_start(a), p, n, kept);
}

} // verus!
