//! What the samples of a core frame hold of the codes they were read from.

use vstd::prelude::*;
use crate::bits::{field, signed_field};
use crate::dca::core_audio::{
    band_scale, band_step, codes_at, row_of, signed_at, signed_step, step_shift, subsub_step,
    word_step, channel_step, AudioModel,
};
use crate::dca::core_bands::{
    adpcm_channels, hf_bands, hf_row, hf_step, joint_channels, joint_row, lfe_at, lfe_values,
    subframe_audio, Audio,
};
use crate::dca::core_header::CoreError;
use crate::dca::core_laws::{
    joint_bands_come_from_their_source, samples_are_code_times_step,
};
use crate::dca::core_subframe::vlc_at;
use crate::dca::core_tables::CoreTables;
use crate::dca::xll_laws::nearest;
use crate::grammar::{items_are_read_in_turn, thread};

verus! {

/// A band without bits is silent and takes no bits.
pub proof fn bands_without_bits_are_silent(
    d: Seq<u8>,
    lim: int,
    p: int,
    t: CoreTables,
    sel: Seq<Seq<usize>>,
    ch: int,
    i: int,
)
    requires
        0 <= i < 8,
    ensures
        ({
            &&& codes_at(d, lim, p, t, sel, ch, 0) matches Ok(((huff, codes), q))
            &&& codes.len() == 8
            &&& codes[i] == 0
            &&& q == p
        }),
{
}

/// Numbers of one width stand in a row.
proof fn lemma_signed_row(d: Seq<u8>, lim: int, p: int, n: int, count: int)
    requires
        0 <= count,
        1 <= n <= 32,
        p + count * n <= lim,
    ensures
        crate::grammar::repeat(signed_step(d, lim, n), p, count) == Ok::<_, CoreError>(
            (
                Seq::new(count as nat, |i: int| signed_field(d, p + i * n, n) as i32),
                p + count * n,
            ),
        ),
{
    let places = Seq::new((count + 1) as nat, |i: int| p + i * n);
    let items = Seq::new(count as nat, |i: int| signed_field(d, p + i * n, n) as i32);
    let step = signed_step(d, lim, n);
    assert forall|i: int| 0 <= i < count implies step(i, #[trigger] places[i]) == Ok::<
        (i32, int),
        CoreError,
    >((items[i], places[i + 1])) by {
        assert((i + 1) * n == i * n + n && (i + 1) * n <= count * n) by (nonlinear_arith)
            requires
                0 <= i < count,
                1 <= n,
        ;
        assert(signed_at(d, lim, places[i], n) == Ok::<(i32, int), CoreError>(
            (items[i], places[i + 1]),
        ));
    }
    items_are_read_in_turn(step, places, items, count);
    assert(items.take(count) =~= items);
    assert(places[0] == p) by (nonlinear_arith)
        requires
            places[0] == p + 0 * n,
    ;
}

/// Codes of a wide band stand in a row, each a signed number of three bits less
/// than the band's index.
pub proof fn wide_codes_come_back(
    d: Seq<u8>,
    lim: int,
    p: int,
    t: CoreTables,
    sel: Seq<Seq<usize>>,
    ch: int,
    abits: int,
    i: int,
)
    requires
        10 < abits <= 26,
        p + 8 * (abits - 3) <= lim,
        0 <= i < 8,
    ensures
        ({
            &&& codes_at(d, lim, p, t, sel, ch, abits) matches Ok(((huff, codes), q))
            &&& !huff
            &&& codes.len() == 8
            &&& codes[i] == signed_field(d, p + i * (abits - 3), abits - 3) as i32
            &&& q == p + 8 * (abits - 3)
        }),
{
    lemma_signed_row(d, lim, p, abits - 3, 8);
}

/// Codes from a book are its words, in the order in which they stand.
pub proof fn book_codes_come_back(
    d: Seq<u8>,
    lim: int,
    t: CoreTables,
    sel: Seq<Seq<usize>>,
    ch: int,
    abits: int,
    places: Seq<int>,
    words: Seq<i32>,
)
    requires
        1 <= abits <= 10,
        sel[abits - 1][ch] < t.quant_groups@[abits - 1],
        places.len() == 9,
        words.len() == 8,
        forall|i: int|
            0 <= i < 8 ==> vlc_at(
                t.vlcs.quant_index@[abits - 1]@[sel[abits - 1][ch] as int]@,
                d,
                lim,
                #[trigger] places[i],
            ) == Ok::<_, CoreError>((words[i], places[i + 1])),
    ensures
        codes_at(d, lim, places[0], t, sel, ch, abits) == Ok::<_, CoreError>(
            ((true, words), places[8]),
        ),
{
    let v = t.vlcs.quant_index@[abits - 1]@[sel[abits - 1][ch] as int]@;
    let step = word_step(d, lim, v);
    assert forall|i: int| 0 <= i < 8 implies step(i, #[trigger] places[i]) == Ok::<
        (i32, int),
        CoreError,
    >((words[i], places[i + 1])) by {
        assert(vlc_at(v, d, lim, places[i]) == Ok::<(i32, int), CoreError>(
            (words[i], places[i + 1]),
        ));
    }
    items_are_read_in_turn(step, places, words, 8);
    assert(words.take(8) =~= words);
}

/// A band's samples are the nearest to its codes times the step that its index
/// and its scale make; all else stays.
pub proof fn bands_hold_their_codes(
    m: AudioModel,
    ssf: int,
    ch: int,
    at: int,
    band: int,
    s: Seq<Seq<i32>>,
    p: int,
    huff: bool,
    codes: Seq<i32>,
    q: int,
    r: int,
    i: int,
)
    requires
        s.len() == 384,
        0 <= m.base + ch < 12,
        0 <= band < 32,
        0 <= r < 384,
        0 <= at,
        forall|k: int| 0 <= k < 384 ==> at + 8 <= (#[trigger] s[k]).len(),
        codes_at(m.d, m.lim, p, m.tables, m.set.quant_sel, ch, m.head.abits[ch][band] as int)
            == Ok::<_, CoreError>(((huff, codes), q)),
        codes.len() == 8,
        0 <= i < s[r].len(),
    ensures
        ({
            let abits = m.head.abits[ch][band] as int;
            let step = band_scale(m, ch, band, ssf, huff) * if m.lossless {
                m.tables.lossless_quant@[abits] as int
            } else {
                m.tables.lossy_quant@[abits] as int
            };
            let (out, end) = band_step(m, ssf, ch, at)(band, s, p);
            0 <= step <= 0x80_0000 ==> ({
                &&& end == Ok::<int, CoreError>(q)
                &&& out.len() == 384
                &&& r != 32 * (m.base + ch) + band ==> out[r] == s[r]
                &&& r == 32 * (m.base + ch) + band ==> out[r].len() == s[r].len()
                &&& r == 32 * (m.base + ch) + band && !(at <= i < at + 8) ==> out[r][i] == s[r][i]
                &&& r == 32 * (m.base + ch) + band && at <= i < at + 8 && -0x80_0000 * 0x40_0000
                    <= codes[i - at] * step <= 0x7f_ffff * 0x40_0000 ==> nearest(
                    codes[i - at] * step,
                    0x40_0000,
                    out[r][i] as int,
                )
            })
        }),
{
    let abits = m.head.abits[ch][band] as int;
    let unit = if m.lossless {
        m.tables.lossless_quant@[abits] as int
    } else {
        m.tables.lossy_quant@[abits] as int
    };
    let scale = band_scale(m, ch, band, ssf, huff);
    let step = scale * unit;
    assert(unit * scale == scale * unit) by (nonlinear_arith);
    if 0 <= step <= 0x80_0000 {
        assert(step_shift(step) == 0);
        if at <= i < at + 8 {
            let c = codes[i - at] as int;
            if -0x80_0000 * 0x40_0000 <= c * step <= 0x7f_ffff * 0x40_0000 {
                samples_are_code_times_step(c, step);
            }
        }
    }
}

/// The last subsubframe, and each where the frame says so, ends with a sync
/// word of ones; the others end with their last band.
pub proof fn subsubframes_end_with_a_sync_word(
    m: AudioModel,
    pos: int,
    nssf: int,
    ssf: int,
    s: Seq<Seq<i32>>,
    p: int,
    q: int,
)
    requires
        subsub_step(m, pos, nssf)(ssf, s, p).1 == Ok::<int, CoreError>(q),
    ensures
        ssf == nssf - 1 || m.sync_ssf ==> field(m.d, q - 16, 16) == 0xffff && q <= m.lim && thread(
            channel_step(m, ssf, 4 + pos + 8 * ssf),
            s,
            p,
            m.n,
        ) == (subsub_step(m, pos, nssf)(ssf, s, p).0, Ok::<int, CoreError>(q - 16)),
        ssf < nssf - 1 && !m.sync_ssf ==> thread(
            channel_step(m, ssf, 4 + pos + 8 * ssf),
            s,
            p,
            m.n,
        ) == (subsub_step(m, pos, nssf)(ssf, s, p).0, Ok::<int, CoreError>(q)),
{
}

/// Vector-coded bands follow the allocated ones, each with the vector of its
/// own index and its own first scale; all other rows stay.
pub proof fn vector_bands_take_their_vectors(
    m: AudioModel,
    s: Seq<Seq<i32>>,
    ch: int,
    index: Seq<usize>,
    at: int,
    len: int,
    k: int,
    j: int,
)
    requires
        s.len() == 384,
        0 <= m.base + ch < 12,
        0 <= j < 32,
        0 <= k,
        m.set.vq_start[ch] + k <= 32,
    ensures
        ({
            let out = hf_bands(m, s, ch, index, at, len, k);
            let first = m.set.vq_start[ch] as int;
            let r = 32 * (m.base + ch) + first + j;
            &&& out.len() == 384
            &&& forall|q: int|
                0 <= q < 384 && !(32 * (m.base + ch) + first <= q < 32 * (m.base + ch) + first + k)
                    ==> #[trigger] out[q] == s[q]
            &&& j < k ==> out[r] == hf_row(
                s[r],
                at,
                m.tables.high_freq_vq@[index[j] as int]@,
                m.head.scales[ch][first + j].0 as int,
                len,
            )
        }),
    decreases k,
{
    if k > 0 {
        vector_bands_take_their_vectors(m, s, ch, index, at, len, k - 1, j);
    }
}

/// Low-frequency codes of eight bits stand in a row, and their scale behind
/// them.
pub proof fn low_frequency_codes_come_back(d: Seq<u8>, lim: int, p: int, t: CoreTables, n: int)
    requires
        0 < n,
        p + 8 * n + 8 <= lim,
        field(d, p + 8 * n, 8) < t.scale7@.len(),
    ensures
        lfe_at(d, lim, p, t, n) == Ok::<_, CoreError>(
            (
                lfe_values(
                    Seq::new(n as nat, |i: int| signed_field(d, p + 8 * i, 8) as i32),
                    t.scale7@[field(d, p + 8 * n, 8)] as int,
                    n,
                ),
                p + 8 * n + 8,
            ),
        ),
{
    lemma_signed_row(d, lim, p, 8, n);
    assert(Seq::new(n as nat, |i: int| signed_field(d, p + i * 8, 8) as i32) =~= Seq::new(
        n as nat,
        |i: int| signed_field(d, p + 8 * i, 8) as i32,
    ));
}

/// A channel's joint bands lie above its own and come from another channel.
pub open spec fn joint_fits(m: AudioModel, c: int) -> bool {
    &&& 0 <= m.base
    &&& m.base + c < 12
    &&& m.set.nsubbands[c] + m.head.joint[c].len() <= 32
    &&& m.head.joint[c].len() > 0 ==> 1 <= m.set.joint[c] <= 12 && m.set.joint[c] - 1 != m.base + c
}

/// Channels without joint bands keep their rows.
proof fn lemma_joint_keeps(m: AudioModel, s: Seq<Seq<i32>>, at: int, len: int, k: int, ch: int, b: int)
    requires
        s.len() == 384,
        0 <= k,
        forall|c: int| 0 <= c < k ==> #[trigger] joint_fits(m, c),
        0 <= ch < 12,
        0 <= b < 32,
        m.base <= ch < m.base + k ==> m.head.joint[ch - m.base].len() == 0 || !(m.set.nsubbands[ch
            - m.base] <= b),
    ensures
        joint_channels(m, s, at, len, k).len() == 384,
        joint_channels(m, s, at, len, k)[row_of(ch, b)] == s[row_of(ch, b)],
    decreases k,
{
    if k > 0 {
        lemma_joint_keeps(m, s, at, len, k - 1, ch, b);
        assert(joint_fits(m, k - 1));
        if m.head.joint[k - 1].len() > 0 {
            joint_bands_come_from_their_source(
                m,
                joint_channels(m, s, at, len, k - 1),
                k - 1,
                m.set.joint[k - 1] - 1,
                at,
                len,
                m.head.joint[k - 1].len() as int,
                b,
            );
        }
    }
}

/// A channel's missing bands are taken from the channel it names, scaled, where
/// that one has bands of its own there; own bands stay.
pub proof fn missing_bands_come_from_the_named_channel(
    m: AudioModel,
    s: Seq<Seq<i32>>,
    at: int,
    len: int,
    k: int,
    c: int,
    b: int,
)
    requires
        s.len() == 384,
        0 <= c < k,
        forall|i: int| 0 <= i < k ==> #[trigger] joint_fits(m, i),
        m.set.nsubbands[c] <= b < m.set.nsubbands[c] + m.head.joint[c].len(),
        m.base <= m.set.joint[c] - 1 < m.base + k ==> m.head.joint[m.set.joint[c] - 1
            - m.base].len() == 0 || b < m.set.nsubbands[m.set.joint[c] - 1 - m.base],
    ensures
        joint_channels(m, s, at, len, k)[row_of(m.base + c, b)] == joint_row(
            s[row_of(m.base + c, b)],
            s[row_of(m.set.joint[c] - 1, b)],
            m.head.joint[c][b - m.set.nsubbands[c]] as int,
            at,
            len,
        ),
    decreases k,
{
    assert(joint_fits(m, k - 1));
    assert(joint_fits(m, c));
    let t = joint_channels(m, s, at, len, k - 1);
    let n = m.head.joint[k - 1].len() as int;
    lemma_joint_keeps(m, s, at, len, k - 1, m.set.joint[c] - 1, b);
    if c == k - 1 {
        lemma_joint_keeps(m, s, at, len, k - 1, m.base + c, b);
        joint_bands_come_from_their_source(m, t, k - 1, m.set.joint[c] - 1, at, len, n, b);
    } else {
        missing_bands_come_from_the_named_channel(m, s, at, len, k - 1, c, b);
        if n > 0 {
            joint_bands_come_from_their_source(m, t, k - 1, m.set.joint[k - 1] - 1, at, len, n, b);
        }
    }
}

/// A subframe holds its vector-coded bands, then its low-frequency samples, then
/// its subsubframes; prediction comes before the joint bands.
pub proof fn subframes_are_read_in_order(
    m: AudioModel,
    a: Audio,
    p: int,
    npcm: int,
    pos: int,
    lfe_pos: int,
    nssf: int,
    nlfe: int,
    vectors: (Seq<Seq<i32>>, int),
    low: (Seq<i32>, int),
    bands: (Seq<Seq<i32>>, int),
    i: int,
)
    requires
        pos + 8 * nssf <= npcm,
        thread(hf_step(m, 4 + pos, 8 * nssf), a.samples, p, m.n) == (
            vectors.0,
            Ok::<int, CoreError>(vectors.1),
        ),
        lfe_at(m.d, m.lim, vectors.1, m.tables, nlfe) == Ok::<_, CoreError>(low),
        thread(subsub_step(m, pos, nssf), vectors.0, low.1, nssf) == (
            bands.0,
            Ok::<int, CoreError>(bands.1),
        ),
        0 <= i < a.lfe.len(),
    ensures
        ({
            let (out, end) = subframe_audio(m, a, p, npcm, pos, lfe_pos, nssf, nlfe);
            &&& end == Ok::<int, CoreError>(bands.1)
            &&& out.lfe.len() == a.lfe.len()
            &&& lfe_pos <= i < lfe_pos + low.0.len() ==> out.lfe[i] == low.0[i - lfe_pos]
            &&& !(lfe_pos <= i < lfe_pos + low.0.len()) ==> out.lfe[i] == a.lfe[i]
            &&& out.samples == joint_channels(
                m,
                adpcm_channels(m, bands.0, pos, 8 * nssf, m.n),
                4 + pos,
                8 * nssf,
                m.n,
            )
        }),
{
}

} // verus!
