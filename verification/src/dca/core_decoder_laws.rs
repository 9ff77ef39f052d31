//! What a core decoder keeps, places and takes back.

use vstd::prelude::*;
use crate::bits::{code_space, field, flag, has_bit};
use crate::dca::core_bands::Audio;
use crate::dca::core_decoder::{
    allocated, amplified, channel_speaker, core_decoded, core_head, core_mask, counted,
    extension_decoded, less, mode_mask,
    mode_speakers, named_like, named_mask, nth_bit, output_mask, relevelled, shifted_lfe, silenced,
    slot_of, unmix_speakers, unmixed, xxch_decoded, xxch_frame_head, zeros, CoreModel, Unmix, XxchModel,
};
use crate::dca::core_tables::CoreTables;
use crate::dca::parser::{mode_channels, AudioMode, FrameInfo};
use crate::dca::fixed::{products_are_rounded, rounded, rounding_takes_the_nearest, scaled, wrap32};
use crate::dca::xll_laws::nearest;

verus! {

/// A core header's flags come back from where they stand, behind a checksum
/// where there is one.
pub proof fn core_heads_come_back(d: Seq<u8>, lim: int)
    requires
        120 <= lim,
    ensures
        ({
            &&& core_head(d, lim) matches Ok((h, q))
            &&& h.crc == flag(d, 38)
            &&& h.lossless == (field(d, 70, 5) == 3)
            &&& h.sync_ssf == flag(d, 84)
            &&& !flag(d, 38) ==> h.filter_perfect == flag(d, 88) && q == 104
            &&& flag(d, 38) ==> h.filter_perfect == flag(d, 104) && q == 120
        }),
{
}

/// An arrangement plays from the centre where it has one, the two fronts unless
/// it is mono, and one rear or two surrounds, in that order.
pub proof fn arrangements_list_their_speakers(mode: AudioMode, i: int, j: int)
    ensures
        mode_speakers(mode).len() == mode_channels(mode),
        0 <= i < j < mode_speakers(mode).len() ==> mode_speakers(mode)[i] < mode_speakers(mode)[j],
        mode_speakers(mode).contains(0) <==> (mode == AudioMode::Mono || mode == AudioMode::ThreeF
            || mode == AudioMode::ThreeF1R || mode == AudioMode::ThreeF2R),
        mode_speakers(mode).contains(1) <==> mode != AudioMode::Mono,
        mode_speakers(mode).contains(2) <==> mode != AudioMode::Mono,
        mode_speakers(mode).contains(3) <==> (mode == AudioMode::TwoF2R || mode
            == AudioMode::ThreeF2R),
        mode_speakers(mode).contains(4) <==> (mode == AudioMode::TwoF2R || mode
            == AudioMode::ThreeF2R),
        mode_speakers(mode).contains(6) <==> (mode == AudioMode::TwoF1R || mode
            == AudioMode::ThreeF1R),
{
    let s = mode_speakers(mode);
    assert(s.len() > 0 ==> s.contains(s[0]));
    assert(s.len() > 1 ==> s.contains(s[1]));
    assert(s.len() > 2 ==> s.contains(s[2]));
    assert(s.len() > 3 ==> s.contains(s[3]));
    assert(s.len() > 4 ==> s.contains(s[4]));
}

/// A low-frequency channel adds its own speaker and no other.
pub proof fn low_channels_add_their_speaker(mode: AudioMode, lfe: u8, b: int)
    requires
        0 <= b < 32,
    ensures
        lfe == 0 ==> core_mask(mode, lfe) == mode_mask(mode),
        lfe != 0 ==> has_bit(core_mask(mode, lfe), 5),
        b != 5 ==> has_bit(core_mask(mode, lfe), b) == has_bit(mode_mask(mode), b),
{
    let m = mode_mask(mode);
    let n = b as u32;
    assert(((m | 0x20) >> 5u32) & 1 == 1 && (n < 32 && n != 5 ==> ((m | 0x20) >> n) & 1 == (m >> n)
        & 1)) by (bit_vector);
}

/// Bits set from `from` up to, and without, `to`.
pub open spec fn bits_between(mask: u32, from: int, to: int) -> int
    decreases to - from,
{
    if to <= from {
        0
    } else {
        bits_between(mask, from, to - 1) + if has_bit(mask, to - 1) { 1int } else { 0int }
    }
}

proof fn lemma_bits_between(mask: u32, from: int, to: int)
    requires
        from < to,
    ensures
        bits_between(mask, from, to) == bits_between(mask, from + 1, to) + if has_bit(mask, from) {
            1int
        } else {
            0int
        },
        bits_between(mask, from, to) >= 0,
    decreases to - from,
{
    reveal_with_fuel(bits_between, 2);
    if from < to - 1 {
        lemma_bits_between(mask, from, to - 1);
    }
}

/// The speaker number `index` of a mask is set and has as many set below it;
/// there is one exactly when that many are set.
pub proof fn numbered_bits_have_as_many_below(mask: u32, from: int, to: int, index: int, b: int)
    requires
        0 <= from,
        to <= 32,
        0 <= index,
    ensures
        nth_bit(mask, from, to, index) matches Some(k) ==> from <= k < to && has_bit(mask, k as int)
            && bits_between(mask, from, k as int) == index,
        from <= b < to && has_bit(mask, b) && bits_between(mask, from, b) == index ==> nth_bit(
            mask,
            from,
            to,
            index,
        ) == Some(b as usize),
    decreases to - from,
{
    if from < to {
        if b > from {
            lemma_bits_between(mask, from, b);
        }
        if has_bit(mask, from) {
            if index > 0 {
                numbered_bits_have_as_many_below(mask, from + 1, to, index - 1, b);
                match nth_bit(mask, from + 1, to, index - 1) {
                    Some(k) => {
                        lemma_bits_between(mask, from, k as int);
                    },
                    None => {},
                }
            } else if b > from {
                if from + 1 < b {
                    lemma_bits_between(mask, from + 1, b);
                }
            }
        } else {
            numbered_bits_have_as_many_below(mask, from + 1, to, index, b);
            match nth_bit(mask, from + 1, to, index) {
                Some(k) => {
                    lemma_bits_between(mask, from, k as int);
                },
                None => {},
            }
        }
    }
}

/// A primary channel plays from its place in the arrangement, an extension
/// channel from its place among the set's speakers, and a bare one from none.
pub proof fn channels_find_their_speakers(m: CoreModel, ch: int)
    requires
        0 <= ch,
        m.nchannels_core == mode_channels(m.audio_mode),
        m.nchannels_core <= m.extension_base,
        m.xxch matches Some(x) ==> x.mask_nbits <= 32,
    ensures
        ch < m.nchannels_core ==> channel_speaker(m, ch) == Some(mode_speakers(m.audio_mode)[ch]),
        ch >= m.extension_base ==> channel_speaker(m, ch) is None,
        m.nchannels_core <= ch < m.extension_base && m.xxch is None ==> channel_speaker(m, ch)
            is None,
        m.nchannels_core <= ch < m.extension_base ==> (m.xxch matches Some(x) ==> (channel_speaker(
            m,
            ch,
        ) matches Some(s) ==> 6 <= s < x.mask_nbits && has_bit(x.spkr_mask, s as int)
            && bits_between(x.spkr_mask, 6, s as int) == ch - m.nchannels_core)),
{
    arrangements_list_their_speakers(m.audio_mode, 0, 0);
    match m.xxch {
        Some(x) => {
            if m.nchannels_core <= ch {
                numbered_bits_have_as_many_below(
                    x.spkr_mask,
                    6,
                    x.mask_nbits as int,
                    ch - m.nchannels_core,
                    0,
                );
            }
        },
        None => {},
    }
}

/// Side surrounds play from the slots of a core that has surrounds; every other
/// speaker plays from its own.
pub proof fn surrounds_keep_their_slots(mode: AudioMode, spkr: usize)
    ensures
        spkr != 9 && spkr != 10 ==> slot_of(mode, spkr) == spkr,
        mode == AudioMode::TwoF2R || mode == AudioMode::ThreeF2R ==> slot_of(mode, 9) == 3
            && slot_of(mode, 10) == 4,
        mode != AudioMode::TwoF2R && mode != AudioMode::ThreeF2R ==> slot_of(mode, spkr) == spkr,
{
    let m = mode_mask(mode);
    assert(0x1eu32 & 0x08 != 0 && 0x1fu32 & 0x08 != 0 && 0x1eu32 & 0x10 != 0 && 0x1fu32 & 0x10 != 0
        && 0x01u32 & 0x08 == 0 && 0x06u32 & 0x08 == 0 && 0x07u32 & 0x08 == 0 && 0x46u32 & 0x08 == 0
        && 0x47u32 & 0x08 == 0 && 0x01u32 & 0x10 == 0 && 0x06u32 & 0x10 == 0 && 0x07u32 & 0x10 == 0
        && 0x46u32 & 0x10 == 0 && 0x47u32 & 0x10 == 0) by (bit_vector);
}

/// A frame of the same length goes on from the samples of the one before,
/// without history from silence in front of them; one of another length starts
/// in silence.
pub proof fn frames_go_on_from_the_last(a: Audio, npcm: int, history: bool, r: int, i: int)
    requires
        0 <= npcm,
        0 <= r < 384,
        0 <= i < 4 + npcm,
    ensures
        ({
            let out = allocated(a, npcm, history);
            let same = a.samples.len() == 384 && a.samples[0].len() == 4 + npcm;
            &&& out.samples.len() == 384
            &&& out.samples[r].len() == 4 + npcm
            &&& same && history ==> out.samples[r][i] == a.samples[r][i]
            &&& same && !history && i < 4 ==> out.samples[r][i] == 0
            &&& same && !history && i >= 4 ==> out.samples[r][i] == a.samples[r][i]
            &&& !same ==> out.samples[r][i] == 0
            &&& out.lfe.len() == 8 + npcm / 2
            &&& a.lfe.len() == 8 + npcm / 2 ==> out.lfe == a.lfe
        }),
{
}

/// A set's band counts take the places of its channels and no others.
pub proof fn band_counts_take_their_places(all: Seq<usize>, base: int, own: Seq<usize>, i: int)
    requires
        0 <= base,
        base + own.len() <= all.len(),
        0 <= i < all.len(),
    ensures
        counted(all, base, own).len() == all.len(),
        i < base || base + own.len() <= i ==> counted(all, base, own)[i] == all[i],
        i < own.len() ==> counted(all, base, own)[base + i] == own[i],
{
}

/// Silence falls on the rows from `from` to `to` alone.
pub proof fn silence_falls_on_its_rows(s: Seq<Seq<i32>>, from: int, to: int, r: int, i: int)
    requires
        0 <= r < s.len(),
        0 <= i < s[r].len(),
    ensures
        silenced(s, from, to)[r].len() == s[r].len(),
        from <= r < to ==> silenced(s, from, to)[r][i] == 0,
        !(from <= r < to) ==> silenced(s, from, to)[r] == s[r],
{
}

/// The last eight low-frequency samples of a frame are the first of the next.
pub proof fn low_samples_go_on(v: Seq<i32>, n: int, i: int)
    requires
        0 <= n,
        v.len() == n + 8,
        0 <= i < 8,
    ensures
        shifted_lfe(v, n).len() == v.len(),
        shifted_lfe(v, n).take(8) == v.skip(n),
        8 <= n ==> shifted_lfe(v, n).skip(8) == v.skip(8),
{
    assert(shifted_lfe(v, n).take(8) =~= v.skip(n));
    if 8 <= n {
        assert(shifted_lfe(v, n).skip(8) =~= v.skip(8));
    }
}

/// A gain of one leaves a channel as it is; any other gives the nearest sample
/// to each times the gain, in units of 16 bits.
pub proof fn gains_multiply(row: Seq<i32>, gain: int, i: int)
    requires
        0 <= i < row.len(),
    ensures
        amplified(row, gain).len() == row.len(),
        amplified(row, 0x1_0000) == row,
        -0x8000_0000 * 0x1_0000 <= row[i] * gain < 0x7fff_ffff * 0x1_0000 ==> nearest(
            row[i] * gain,
            0x1_0000,
            amplified(row, gain)[i] as int,
        ),
{
    assert(code_space(16) == 0x1_0000 && code_space(15) == 0x8000);
    if -0x8000_0000 * 0x1_0000 <= row[i] * gain < 0x7fff_ffff * 0x1_0000 {
        products_are_rounded(row[i] as int, gain, 16);
    }
    assert forall|n: int| 0 <= n < row.len() implies #[trigger] amplified(row, 0x1_0000)[n]
        == row[n] by {
        assert(row[n] * 0x1_0000 == 0x1_0000 * row[n]);
        assert(rounded(row[n] * 0x1_0000, 16) == row[n]);
    }
    assert(amplified(row, 0x1_0000) =~= row);
}

/// Taking a channel out of another undoes mixing it in: `share` is the first
/// times the coefficient, in units of 15 bits.
pub proof fn taking_out_undoes_mixing_in(
    x: Seq<i32>,
    src: Seq<i32>,
    c: int,
    share: Seq<int>,
    mix: Seq<i32>,
)
    requires
        x.len() == src.len() == share.len() == mix.len(),
        forall|n: int| 0 <= n < x.len() ==> nearest(src[n] * c, 0x8000, #[trigger] share[n]),
        forall|n: int| 0 <= n < x.len() ==> -0x7fff_0000 <= #[trigger] share[n] <= 0x7fff_0000,
        forall|n: int| 0 <= n < x.len() ==> #[trigger] mix[n] == wrap32(x[n] + share[n]),
    ensures
        less(mix, src, c) == x,
{
    assert forall|n: int| 0 <= n < x.len() implies #[trigger] less(mix, src, c)[n] == x[n] by {
        let m = src[n] * c;
        assert(nearest(m, 0x8000, share[n]));
        assert(-0x7fff_0000 <= share[n] <= 0x7fff_0000);
        assert(mix[n] == wrap32(x[n] + share[n]));
        assert(code_space(15) == 0x8000);
        rounding_takes_the_nearest(m, 15);
        assert(rounded(m, 15) == share[n]);
        assert(scaled(src[n] as int, c, 15) == share[n]);
    }
    assert(less(mix, src, c) =~= x);
}

/// A slot is taken out of the other named one alone, and only where both play.
pub proof fn slots_are_taken_out_of_one_another(
    v: Seq<Option<Seq<i32>>>,
    src: int,
    dst: int,
    c: int,
    i: int,
)
    requires
        0 <= src < v.len(),
        0 <= dst < v.len(),
        0 <= i < v.len(),
    ensures
        i != dst ==> unmixed(v, src, dst, c)[i] == v[i],
        c == 0 || src == dst ==> unmixed(v, src, dst, c) == v,
        v[src] is None || v[dst] is None ==> unmixed(v, src, dst, c) == v,
        c != 0 && src != dst ==> (v[src] matches Some(s) ==> (v[dst] matches Some(w) ==> unmixed(
            v,
            src,
            dst,
            c,
        )[dst] == Some(less(w, s, c)))),
{
}

/// The level of a set is taken back from the slots of the speakers that its
/// core mask names, from each once, and from no other.
pub proof fn levels_are_taken_back_once(
    v: Seq<Option<Seq<i32>>>,
    mode: AudioMode,
    x: XxchModel,
    k: int,
    s: int,
)
    requires
        v.len() == 32,
        0 <= k <= 32,
        0 <= s < 32,
        !has_bit(x.core_mask, 9),
        !has_bit(x.core_mask, 10),
    ensures
        relevelled(v, mode, x, k).len() == 32,
        s < k && has_bit(x.core_mask, s) ==> (v[s] matches Some(row) ==> relevelled(v, mode, x, k)[s]
            == Some(amplified(row, x.downmix.scale_inv as int))),
        s >= k || !has_bit(x.core_mask, s) || v[s] is None ==> relevelled(v, mode, x, k)[s] == v[s],
    decreases k,
{
    if k > 0 {
        levels_are_taken_back_once(v, mode, x, k - 1, s);
        levels_are_taken_back_once(v, mode, x, k - 1, k - 1);
        surrounds_keep_their_slots(mode, (k - 1) as usize);
    }
}

/// Surrounds take the side names where the other mask uses them, and nothing
/// else is renamed.
pub proof fn surrounds_are_renamed_alike(mask: u32, like: u32, b: u32)
    requires
        b < 32,
    ensures
        b != 3 && b != 4 && b != 9 && b != 10 ==> (named_like(mask, like) & (1u32 << b) != 0) == (
        mask & (1u32 << b) != 0),
        (named_like(mask, like) & 0x08 != 0) == (mask & 0x08 != 0 && like & 0x200 == 0),
        (named_like(mask, like) & 0x10 != 0) == (mask & 0x10 != 0 && like & 0x400 == 0),
        (named_like(mask, like) & 0x200 != 0) == (mask & 0x200 != 0 || (mask & 0x08 != 0 && like
            & 0x200 != 0)),
        (named_like(mask, like) & 0x400 != 0) == (mask & 0x400 != 0 || (mask & 0x10 != 0 && like
            & 0x400 != 0)),
        like & 0x600 == 0 ==> named_like(mask, like) == mask,
{
    let a = if mask & 0x08 != 0 && like & 0x200 != 0 { (mask & 0xffff_fff7) | 0x200 } else { mask };
    let r = named_like(mask, like);
    assert(({
        &&& b != 3 && b != 4 && b != 9 && b != 10 ==> (r & (1u32 << b) != 0) == (mask & (1u32 << b)
            != 0)
        &&& (r & 0x08 != 0) == (mask & 0x08 != 0 && like & 0x200 == 0)
        &&& (r & 0x10 != 0) == (mask & 0x10 != 0 && like & 0x400 == 0)
        &&& (r & 0x200 != 0) == (mask & 0x200 != 0 || (mask & 0x08 != 0 && like & 0x200 != 0))
        &&& (r & 0x400 != 0) == (mask & 0x400 != 0 || (mask & 0x10 != 0 && like & 0x400 != 0))
        &&& like & 0x600 == 0 ==> r == mask
    })) by (bit_vector)
        requires
            b < 32,
            a == if mask & 0x08 != 0 && like & 0x200 != 0 {
                (mask & 0xffff_fff7) | 0x200
            } else {
                mask
            },
            r == if a & 0x10 != 0 && like & 0x400 != 0 { (a & 0xffff_ffef) | 0x400 } else { a },
    ;
}

/// A frame's head is told by its sync word, names the core's speakers as the
/// core has them, holds one set, and is there with its set.
pub proof fn extension_heads_come_back(d: Seq<u8>, core: u32)
    ensures
        xxch_frame_head(d, core) matches Ok((size, nbits, mask)) ==> ({
            &&& field(d, 0, 32) == 0x4700_4a03
            &&& size == field(d, 32, 6) + 1
            &&& nbits == field(d, 39, 5) + 1
            &&& 7 <= nbits <= 32
            &&& field(d, 44, 2) == 0
            &&& mask == field(d, 60, nbits as int)
            &&& mask & 0x600 == 0 ==> mask == core
            &&& size + field(d, 46, 14) + 1 <= d.len()
        }),
{
    crate::bits::lemma_field_range(d, 32, 6);
    crate::bits::lemma_field_range(d, 39, 5);
    crate::bits::lemma_field_range(d, 46, 14);
    let nbits = field(d, 39, 5) + 1;
    assert(code_space(5) == 32 && code_space(6) == 64);
    crate::bits::lemma_field_range(d, 60, nbits);
    assert(code_space(32) == 0x1_0000_0000);
    if xxch_frame_head(d, core) is Ok {
        let mask = field(d, 60, nbits) as u32;
        surrounds_are_renamed_alike(core, mask, 0);
    }
}

/// Each speaker of a channel's mask uses up one coefficient, and the channel
/// itself is left as it was.
pub proof fn speakers_use_a_coefficient_each(
    u: Unmix,
    mode: AudioMode,
    x: XxchModel,
    mask: u32,
    src: int,
    k: int,
)
    requires
        0 <= k <= 32,
        0 <= u.used,
        0 <= src < 32 <= u.slots.len(),
        u.used + k <= x.downmix.coeff.len(),
    ensures
        ({
            let w = unmix_speakers(u, mode, x, mask, src, k);
            &&& w.slots.len() == u.slots.len()
            &&& w.slots[src] == u.slots[src]
            &&& u.used <= w.used <= u.used + k
            &&& k > 0 && has_bit(mask, k - 1) ==> w.used == 1 + unmix_speakers(
                u,
                mode,
                x,
                mask,
                src,
                k - 1,
            ).used
            &&& k > 0 && !has_bit(mask, k - 1) ==> w == unmix_speakers(u, mode, x, mask, src, k - 1)
        }),
    decreases k,
{
    if k > 0 {
        speakers_use_a_coefficient_each(u, mode, x, mask, src, k - 1);
    }
}

/// A speaker's slot loses its coefficient times the channel, in units of 15 bits
/// behind the inverse scale.
pub proof fn speakers_lose_their_share(
    u: Unmix,
    mode: AudioMode,
    x: XxchModel,
    mask: u32,
    src: int,
    k: int,
    s: Seq<i32>,
    t: Seq<i32>,
)
    requires
        0 < k <= 32,
        0 <= src < 32 <= u.slots.len(),
        0 <= u.used,
        u.used + k <= x.downmix.coeff.len(),
        has_bit(mask, k - 1),
        slot_of(mode, (k - 1) as usize) != src,
        u.slots[src] == Some(s),
        unmix_speakers(u, mode, x, mask, src, k - 1).slots[slot_of(mode, (k - 1) as usize) as int]
            == Some(t),
    ensures
        ({
            let before = unmix_speakers(u, mode, x, mask, src, k - 1);
            let c = scaled(
                x.downmix.coeff[before.used] as int,
                x.downmix.scale_inv as int,
                16,
            );
            let out = unmix_speakers(u, mode, x, mask, src, k).slots[slot_of(
                mode,
                (k - 1) as usize,
            ) as int];
            &&& c == 0 ==> out == Some(t)
            &&& c != 0 ==> out == Some(less(t, s, c))
        }),
{
    speakers_use_a_coefficient_each(u, mode, x, mask, src, k - 1);
}

/// The output plays the core's speakers and those of the set; under the set's
/// names surrounds may move, but each speaker of the set is there.
pub proof fn outputs_have_all_speakers(m: CoreModel, x: XxchModel, b: u32)
    requires
        m.xxch == Some(x),
        b < 32,
    ensures
        (output_mask(m) & (1u32 << b) != 0) == (core_mask(m.audio_mode, m.lfe_present) & (1u32 << b)
            != 0 || x.spkr_mask & (1u32 << b) != 0),
        x.spkr_mask & (1u32 << b) != 0 ==> named_mask(m) & (1u32 << b) != 0,
        b != 3 && b != 4 && b != 9 && b != 10 ==> (named_mask(m) & (1u32 << b) != 0) == (
        output_mask(m) & (1u32 << b) != 0),
{
    let c = core_mask(m.audio_mode, m.lfe_present);
    let n = named_like(c, x.core_mask);
    let z = x.spkr_mask;
    surrounds_are_renamed_alike(c, x.core_mask, b);
    assert(((c | z) & (1u32 << b) != 0) == (c & (1u32 << b) != 0 || z & (1u32 << b) != 0) && ((n | z)
        & (1u32 << b) != 0) == (n & (1u32 << b) != 0 || z & (1u32 << b) != 0)) by (bit_vector)
        requires
            b < 32,
    ;
}

/// A decoded core has the channels of its arrangement and no others, and is as
/// the frame announced it; one that is not decoded has none.
pub proof fn decoded_cores_are_as_announced(
    m: CoreModel,
    t: CoreTables,
    info: FrameInfo,
    d: Seq<u8>,
)
    ensures
        ({
            let (out, r) = core_decoded(m, t, info, d);
            &&& out.npcm == info.npcmblocks
            &&& out.sample_rate == info.sample_rate
            &&& out.lfe_present == info.lfe_present
            &&& out.audio_mode == info.audio_mode
            &&& out.xxch is None
            &&& r is Ok ==> out.nchannels == mode_channels(info.audio_mode) && out.nchannels_core
                == out.nchannels && out.extension_base == out.nchannels
            &&& r is Err ==> out.nchannels == 0 && out.nchannels_core == 0 && out.extension_base
                == 0
            &&& r is Ok ==> (core_head(d, 8 * d.len() as int) matches Ok((h, p)) && out.crc == h.crc
                && out.lossless == h.lossless && out.sync_ssf == h.sync_ssf && out.filter_perfect
                == h.filter_perfect)
        }),
{
}

/// An extension's channels come behind those that are there, under the speakers
/// that its head names.
pub proof fn extensions_add_their_channels(m: CoreModel, t: CoreTables, d: Seq<u8>)
    ensures
        ({
            let (out, r) = xxch_decoded(m, t, d);
            r is Ok ==> ({
                &&& xxch_frame_head(d, core_mask(m.audio_mode, m.lfe_present)) matches Ok((
                    size,
                    nbits,
                    mask,
                ))
                &&& crate::dca::core_header::xxch_coding(
                    d,
                    8 * d.len() as int,
                    8 * size,
                    t,
                    m.nchannels_core,
                    nbits as int,
                    mask,
                ) matches Ok((coded, q))
                &&& out.nchannels == m.nchannels_core + coded.0.nchannels
                &&& out.extension_base == out.nchannels
                &&& out.nchannels_core == m.nchannels_core
                &&& out.xxch matches Some(x)
                &&& x.mask_nbits == nbits
                &&& x.core_mask == mask
                &&& x.spkr_mask == coded.0.spkr_mask
                &&& x.downmix == coded.0.downmix
            })
        }),
        xxch_decoded(m, t, d).1 is Err ==> xxch_decoded(m, t, d).0.nchannels == m.nchannels_core
            && xxch_decoded(m, t, d).0.extension_base == m.nchannels_core && xxch_decoded(
            m,
            t,
            d,
        ).0.xxch is None,
{
}

/// A bare set adds its channels behind all others, or none; its bytes are
/// counted whole.
pub proof fn bare_sets_add_their_channels(m: CoreModel, t: CoreTables, d: Seq<u8>, n: int)
    ensures
        ({
            let (out, r) = extension_decoded(m, t, d, n);
            &&& r is Ok ==> out.nchannels == m.nchannels + n && out.extension_base == m.nchannels
                && n != 0 && m.nchannels + n <= 12
            &&& r is Err ==> out.nchannels == m.nchannels
            &&& out.nchannels_core == m.nchannels_core
            &&& out.xxch == m.xxch
            &&& out.layout == m.layout
        }),
{
}

} // verus!
