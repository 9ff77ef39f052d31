//! What an extension substream holds of what was coded.

use vstd::prelude::*;
use crate::bits::{code_space, field, flag, has_bit, lemma_field_range, ones, ones_below};
use crate::grammar::lemma_repeat_len;
use crate::dca::exss::{
    after_asset, asset_body, channels_for_mask, descriptor, exss, exss_head,
    flag_if, is_extension_word, late_flags, layout_if, located, lossy_components, mapped_layout,
    masked_components, mix_configs, mix_inputs, navigation, optional, presentation, size_if,
    skip_when, speaker_mask, static_fields, static_if, stream_id, tail_bytes,
    asset_layout, descriptors, dynamic_fields, masked_skips, mix_metadata, mix_scales, remap_sets,
    scale_step, xll_parameters, AssetLayout, DescriptorModel, ExssError, ExssModel, StaticModel,
    XllParameters, SAMPLING_FREQS,
};

verus! {

/// The head of a substream comes back; sizes are counted from one, and wide
/// ones have four bits more.
pub proof fn heads_come_back(d: Seq<u8>, lim: int, p: int, index: int, header: int, size: int, wide: bool)
    requires
        p + 75 <= lim,
        field(d, p + 40, 2) == index,
        flag(d, p + 42) == wide,
        wide ==> field(d, p + 43, 12) == header - 1 && field(d, p + 55, 20) == size - 1,
        !wide ==> field(d, p + 43, 8) == header - 1 && field(d, p + 51, 16) == size - 1,
    ensures
        ({
            &&& exss_head(d, lim, p) matches Ok((h, q))
            &&& h.index == index
            &&& h.header_size == header
            &&& h.size == size
            &&& h.size_nbits == if wide { 20int } else { 16int }
            &&& q == p + if wide { 75int } else { 67int }
        }),
{
    lemma_field_range(d, p + 40, 2);
    lemma_field_range(d, p + 43, 12);
    lemma_field_range(d, p + 55, 20);
    lemma_field_range(d, p + 43, 8);
    lemma_field_range(d, p + 51, 16);
    assert(code_space(20) == 0x10_0000 && code_space(16) == 0x1_0000);
}

/// What is optional is a flag, and behind it the bits that it announces.
pub proof fn options_are_behind_their_flag(d: Seq<u8>, lim: int, p: int, n: int)
    requires
        0 <= n,
        p + 1 + n <= lim,
    ensures
        !flag(d, p) ==> optional(d, lim, p, n) == Ok::<_, ExssError>(((), p + 1)),
        flag(d, p) ==> optional(d, lim, p, n) == Ok::<_, ExssError>(((), p + 1 + n)),
        flag_if(d, lim, p, true) == Ok::<_, ExssError>((flag(d, p), p + 1)),
        flag_if(d, lim, p, false) == Ok::<_, ExssError>((false, p)),
        skip_when(lim, p, n, true) == Ok::<_, ExssError>(((), p + n)),
        skip_when(lim, p, n, false) == Ok::<_, ExssError>(((), p)),
        1 <= n <= 16 ==> size_if(d, lim, p, n, true) == Ok::<_, ExssError>(
            ((1 + field(d, p, n)) as usize, p + n),
        ),
        size_if(d, lim, p, n, false) == Ok::<_, ExssError>((0usize, p)),
{
}

/// The static fields tell how long a frame is, in units of 512 samples.
pub proof fn frames_last_units_of_512(d: Seq<u8>, lim: int, p: int, index: int)
    ensures
        static_fields(d, lim, p, index) matches Ok((m, q)) ==> m.frame_duration_samples == 512 * (
        field(d, p + 2, 3) + 1),
        p + 1 <= lim && !flag(d, p) ==> (static_if(d, lim, p, index) matches Ok((m, q)) && !m.0
            && q == p + 1 && !m.1.mix_metadata_enabled),
        p + 1 <= lim && flag(d, p) ==> (static_if(d, lim, p, index) matches Ok((m, q)) ==> m.0
            && static_fields(d, lim, p + 1, index) == Ok::<_, ExssError>((m.1, q))),
{
    lemma_field_range(d, p + 2, 3);
}

/// There is one presentation and one asset; the mask behind the counts has a
/// byte for each substream in it.
pub proof fn presentations_are_single(d: Seq<u8>, lim: int, p: int, index: int)
    requires
        0 <= index < 4,
    ensures
        presentation(d, lim, p, index) matches Ok((u, q)) ==> field(d, p, 3) <= 0 && field(
            d,
            p + 3,
            3,
        ) <= 0 && q == p + 7 + index + 8 * ones(field(d, p + 6, index + 1) as u32),
{
}

/// Mix configurations are counted from one, each a mask of four to sixteen
/// bits.
pub proof fn mix_configurations_are_counted_from_one(d: Seq<u8>, lim: int, p: int)
    ensures
        mix_configs(d, lim, p) matches Ok((m, q)) ==> m.0 == flag(d, p) && (!flag(d, p) ==> m.1.len()
            == 0 && q == p + 1) && (flag(d, p) ==> m.1.len() == field(d, p + 5, 2) + 1),
{
    lemma_field_range(d, p + 5, 2);
    lemma_repeat_len(
        crate::dca::exss::mix_config_step(d, lim, 4 * (field(d, p + 3, 2) + 1)),
        p + 7,
        field(d, p + 5, 2) + 1,
    );
}

/// Speakers of a mask that are two: left and right of one kind.
pub open spec fn is_pair(i: int) -> bool {
    i == 1 || i == 2 || i == 5 || i == 6 || i == 9 || i == 10 || i == 11 || i == 13 || i == 15
}

/// Channels of the first `n` bits of a mask, two for a pair.
pub open spec fn channels_below(mask: u32, n: int) -> int
    decreases n,
{
    if n <= 0 {
        0
    } else {
        channels_below(mask, n - 1) + if !has_bit(mask, n - 1) {
            0int
        } else if is_pair(n - 1) {
            2int
        } else {
            1int
        }
    }
}

/// A mask has a channel for every single speaker of its sixteen bits, and two
/// for every pair.
pub proof fn paired_speakers_count_twice(mask: u32)
    ensures
        channels_for_mask(mask) == channels_below(mask, 16),
{
    let both = (mask & 0xffff) | ((mask & 0xae66) << 16);
    lemma_both(mask, 16);
    assert(ones(both) == ones_below(both, 32));
}

/// Bits of a mask and, sixteen places up, its pairs once more.
proof fn lemma_both(mask: u32, n: int)
    requires
        0 <= n <= 16,
    ensures
        ({
            let both = (mask & 0xffff) | ((mask & 0xae66) << 16);
            ones_below(both, n) + ones_below(both, 16 + n) - ones_below(both, 16) == channels_below(
                mask,
                n,
            )
        }),
    decreases n,
{
    if n > 0 {
        lemma_both(mask, n - 1);
        let both = (mask & 0xffff) | ((mask & 0xae66) << 16);
        let k = (n - 1) as u32;
        assert(k < 16 && both == (mask & 0xffff) | ((mask & 0xae66) << 16) ==> (both >> k) & 1 == (
        mask >> k) & 1 && (both >> ((k + 16) as u32)) & 1 == (mask >> k) & (0xae66u32 >> k) & 1
            && ((0xae66u32 >> k) & 1 == 1 <==> (k == 1 || k == 2 || k == 5 || k == 6 || k == 9 || k
            == 10 || k == 11 || k == 13 || k == 15)) && ((mask >> k) & (0xae66u32 >> k) & 1 == 1
            <==> ((mask >> k) & 1 == 1 && (0xae66u32 >> k) & 1 == 1))) by (bit_vector);
        assert(has_bit(both, n - 1) == has_bit(mask, n - 1));
        assert(has_bit(both, 16 + n - 1) == (has_bit(mask, n - 1) && is_pair(n - 1)));
    }
}

/// Speaker masks have a width in units of four bits, from one on.
pub proof fn speaker_masks_come_back(d: Seq<u8>, lim: int, p: int)
    requires
        p + 18 <= lim,
    ensures
        speaker_mask(d, lim, p, false) == Ok::<_, ExssError>(((0int, 0u32), p)),
        speaker_mask(d, lim, p, true) matches Ok(((w, m), q)) && w == 4 * (field(d, p, 2) + 1)
            && m == field(d, p + 2, w) && q == p + 2 + w,
{
    lemma_field_range(d, p, 2);
    let w = 4 * (field(d, p, 2) + 1);
    lemma_field_range(d, p + 2, w);
    assert(w == 4 || w == 8 || w == 12 || w == 16);
}

/// A mapped asset of more than two channels may embed stereo, of more than six
/// a 5.1 mix; then comes its mask, where it has one.
pub proof fn mapped_layouts_come_back(d: Seq<u8>, lim: int, p: int, base: AssetLayout)
    requires
        mapped_layout(d, lim, p, base) is Ok,
    ensures
        ({
            let m = mapped_layout(d, lim, p, base)->Ok_0.0;
            let a = p + if base.nchannels_total > 2 { 1int } else { 0int };
            let b = a + if base.nchannels_total > 6 { 1int } else { 0int };
            &&& m.embedded_stereo == (base.nchannels_total > 2 && flag(d, p))
            &&& m.embedded_6ch == (base.nchannels_total > 6 && flag(d, a))
            &&& m.spkr_mask_enabled == flag(d, b)
            &&& flag(d, b) ==> (speaker_mask(d, lim, b + 1, true) matches Ok((mask, q))
                && m.spkr_mask == mask.1)
            &&& !flag(d, b) ==> m.spkr_mask == 0
            &&& m.nchannels_total == base.nchannels_total
            &&& m.pcm_bit_res == base.pcm_bit_res
            &&& m.max_sample_rate == base.max_sample_rate
        }),
{
}

/// Mixing takes the asset's channels and those of the mixes embedded in it.
pub proof fn embedded_mixes_are_mixed_too(layout: AssetLayout)
    ensures
        mix_inputs(layout) - layout.nchannels_total == (if layout.embedded_stereo && layout.embedded_6ch {
            8int
        } else if layout.embedded_6ch {
            6int
        } else if layout.embedded_stereo {
            2int
        } else {
            0int
        }),
{
}

/// Lossless parameters come back: a size from one on and, behind a flag, the
/// delay, whose width is coded, and the place of the sync word.
pub proof fn lossless_parameters_come_back(
    d: Seq<u8>,
    lim: int,
    p: int,
    n: int,
    size: int,
    width: int,
    delay: int,
    offset: int,
)
    requires
        16 <= n <= 20,
        1 <= width <= 32,
        p + n + 10 + width + n <= lim,
        field(d, p, n) == size - 1,
    ensures
        !flag(d, p + n) ==> xll_parameters(d, lim, p, n) == Ok::<_, ExssError>(
            (
                XllParameters {
                    size: size as usize,
                    sync_present: false,
                    delay_nframes: 0,
                    sync_offset: 0,
                },
                p + n + 1,
            ),
        ),
        flag(d, p + n) && field(d, p + n + 5, 5) == width - 1 && field(d, p + n + 10, width)
            == delay && field(d, p + n + 10 + width, n) == offset ==> xll_parameters(d, lim, p, n)
            == Ok::<_, ExssError>(
            (
                XllParameters {
                    size: size as usize,
                    sync_present: true,
                    delay_nframes: delay as u32,
                    sync_offset: offset as usize,
                },
                p + n + 10 + width + n,
            ),
        ),
{
}

/// Only the components of the mask are there: the core's size, then that of a
/// bit-rate extension, then that of a channel extension, each in 14 bits from
/// one on.
pub proof fn components_follow_the_mask(d: Seq<u8>, lim: int, p: int, mask: u32)
    requires
        p + 45 <= lim,
        !flag(d, p + 14),
    ensures
        ({
            let a = p + if has_bit(mask, 4) { 15int } else { 0int };
            let b = a + if has_bit(mask, 5) { 14int } else { 0int };
            let c = b + if has_bit(mask, 6) { 14int } else { 0int };
            &&& lossy_components(d, lim, p, mask) matches Ok(((core, xbr, xxch), q))
            &&& has_bit(mask, 4) ==> core == field(d, p, 14) + 1
            &&& !has_bit(mask, 4) ==> core == 0
            &&& has_bit(mask, 5) ==> xbr == field(d, a, 14) + 1
            &&& !has_bit(mask, 5) ==> xbr == 0
            &&& has_bit(mask, 6) ==> xxch == field(d, b, 14) + 1
            &&& !has_bit(mask, 6) ==> xxch == 0
            &&& q == c
        }),
{
    lemma_field_range(d, p, 14);
    lemma_field_range(d, p + 15, 14);
    lemma_field_range(d, p + 14, 14);
    lemma_field_range(d, p + 29, 14);
    lemma_field_range(d, p + 28, 14);
    let a = p + if has_bit(mask, 4) { 15int } else { 0int };
    let b = a + if has_bit(mask, 5) { 14int } else { 0int };
    lemma_field_range(d, a, 14);
    lemma_field_range(d, b, 14);
}

/// An asset is coded by components, losslessly alone, at low rate alone, or
/// otherwise; only the first two can be lossless.
pub proof fn coding_modes_say_what_is_there(d: Seq<u8>, lim: int, p: int, n: int)
    requires
        16 <= n <= 20,
    ensures
        navigation(d, lim, p, n) matches Ok((v, q)) ==> ({
            &&& v.coding_mode == field(d, p, 2)
            &&& v.coding_mode == 0 ==> v.extension_mask == field(d, p + 2, 12)
            &&& v.coding_mode == 0 ==> (v.xll is Some <==> has_bit(v.extension_mask, 9))
            &&& v.coding_mode == 1 ==> (v.xll matches Some(x) && xll_parameters(d, lim, p + 2, n)
                == Ok::<_, ExssError>((x, q)))
            &&& v.coding_mode >= 2 ==> v.xll is None
            &&& v.coding_mode >= 1 ==> v.core_size == 0 && v.xbr_size == 0 && v.xxch_size == 0
        }),
{
    reveal(navigation);
    reveal(masked_components);
    lemma_field_range(d, p, 2);
    lemma_field_range(d, p + 2, 12);
}

/// A stream id is three bits, of lossless assets alone.
pub proof fn lossless_assets_have_a_stream_id(d: Seq<u8>, lim: int, p: int)
    requires
        p + 3 <= lim,
    ensures
        stream_id(d, lim, p, false) == Ok::<_, ExssError>((0u32, p)),
        stream_id(d, lim, p, true) == Ok::<_, ExssError>((field(d, p, 3) as u32, p + 3)),
{
}

/// The last flags come back; the second has a byte for every 256 samples of the
/// frame behind four bits.
pub proof fn late_flags_come_back(d: Seq<u8>, lim: int, p: int, duration: int)
    requires
        0 <= duration,
        p + 6 + 8 * (duration / 256) <= lim,
    ensures
        ({
            &&& late_flags(d, lim, p, duration) matches Ok((v, q))
            &&& v.0 == flag(d, p)
            &&& v.1 == flag(d, p + 1)
            &&& q == p + 2 + if flag(d, p + 1) { 4 + 8 * (duration / 256) } else { 0 }
        }),
{
}

/// What is left of a descriptor is kept, eight bits to a byte from the top, and
/// ends in zeros.
pub proof fn tails_are_packed_from_the_top(d: Seq<u8>, p: int, bits: int, k: int)
    requires
        0 <= bits,
        0 <= k < (bits + 7) / 8,
    ensures
        tail_bytes(d, p, bits).len() == (bits + 7) / 8,
        8 * k + 8 <= bits ==> tail_bytes(d, p, bits)[k] == field(d, p + 8 * k, 8),
        8 * k + 8 > bits ==> ({
            let n = bits - 8 * k;
            tail_bytes(d, p, bits)[k] == field(d, p + 8 * k, n) * code_space(8 - n)
        }),
{
    lemma_field_range(d, p + 8 * k, 8);
    if 8 * k + 8 > bits {
        let n = bits - 8 * k;
        lemma_field_range(d, p + 8 * k, n);
        assert(n == 1 || n == 2 || n == 3 || n == 4 || n == 5 || n == 6 || n == 7);
    }
}

/// A descriptor ends where its size says; what its fields leave is its tail.
pub proof fn descriptors_end_where_they_say(
    d: Seq<u8>,
    lim: int,
    p: int,
    present: bool,
    fields: crate::dca::exss::StaticModel,
    n: int,
)
    requires
        descriptor(d, lim, p, present, fields, n) is Ok,
    ensures
        ({
            let (v, q) = descriptor(d, lim, p, present, fields, n)->Ok_0;
            &&& q == p + 8 * (field(d, p, 9) + 1)
            &&& v.asset_index == field(d, p + 9, 3)
            &&& layout_if(d, lim, p + 12, present) matches Ok((layout, a))
            &&& v.layout == layout
            &&& asset_body(d, lim, a, layout, fields, n) matches Ok((body, b))
            &&& v.navigation == body.navigation
            &&& v.hd_stream_id == body.hd_stream_id
            &&& v.tail == tail_bytes(d, b, q - b)
            &&& b <= q
        }),
{
    reveal(descriptor);
    lemma_field_range(d, p, 9);
    lemma_field_range(d, p + 9, 3);
}

/// The components of an asset stand one behind the other from its start: the
/// core, the bit-rate extension, the channel extension; a lossless one right
/// behind the core.
pub proof fn components_stand_one_behind_the_other(offset: int, size: int, v: DescriptorModel)
    requires
        0 <= offset <= 0x1000,
        0 <= size <= 0x10_0000,
        crate::dca::exss::navigation_wf(v.navigation),
    ensures
        located(offset, size, v) matches Ok(a) ==> ({
            let nav = v.navigation;
            &&& a.asset_offset == offset
            &&& a.asset_size == size
            &&& nav.core_size > 0 ==> a.core_offset == a.asset_offset
            &&& a.xxch_offset == a.asset_offset + nav.core_size + nav.xbr_size
            &&& nav.xll matches Some(x) ==> a.xll_offset == a.asset_offset + nav.core_size
                && a.xll_offset + x.size <= offset + size
            &&& nav.core_size <= size
            &&& a.descriptor == v
        }),
        v.navigation.core_size > size ==> located(offset, size, v) is Err,
        v.navigation.xll matches Some(x) ==> v.navigation.core_size + x.size > size ==> located(
            offset,
            size,
            v,
        ) is Err,
{
}

/// A substream is no longer than its data, and its asset lies behind its
/// header and inside it.
pub proof fn assets_lie_inside_their_substream(d: Seq<u8>)
    ensures
        exss(d) matches Ok(m) ==> ({
            &&& exss_head(d, 8 * d.len() as int, 0) matches Ok((h, p))
            &&& m.exss_size == h.size
            &&& m.exss_index == h.index
            &&& m.exss_size <= d.len()
            &&& m.nassets == 1
            &&& m.static_fields_present == flag(d, p)
        }),
{
}

/// A spatial extension is looked for right behind the asset, inside the
/// substream.
pub proof fn extensions_follow_the_asset(e: ExssModel, d: Seq<u8>)
    ensures
        after_asset(e, d) matches Some(at) ==> at == e.asset.asset_offset + e.asset.asset_size && at
            + 4 <= e.exss_size && is_extension_word(field(d, 8 * at, 32)),
        is_extension_word(0x0200_0850),
        is_extension_word(0xf140_00d0),
        is_extension_word(0xf140_00d1),
        is_extension_word(0xf140_00d3),
        !is_extension_word(0xf140_00d4),
{
}

/// Descriptors of an asset are told by a flag each: four bits of type, 24 of
/// language, and a text of bytes counted from one.
pub proof fn descriptors_are_passed_over(d: Seq<u8>, lim: int, p: int, language: int, text: int)
    requires
        language == p + 1 + if flag(d, p) { 4int } else { 0 },
        text == language + 1 + if flag(d, language) { 24int } else { 0 },
    ensures
        descriptors(d, lim, p) matches Ok((_, q)) ==> ({
            &&& q <= lim
            &&& !flag(d, text) ==> q == text + 1
            &&& flag(d, text) ==> q == text + 11 + 8 * (field(d, text + 1, 10) + 1)
        }),
        !flag(d, text) && text + 1 <= lim ==> descriptors(d, lim, p) is Ok,
{
    lemma_field_range(d, text + 1, 10);
}

/// The fields of an asset come back from behind its descriptors: resolution,
/// rate and channels, and without a mapping the kind of representation.
pub proof fn asset_fields_come_back(d: Seq<u8>, lim: int, p: int, q: int)
    requires
        descriptors(d, lim, p) == Ok::<_, ExssError>(((), q)),
    ensures
        asset_layout(d, lim, p) matches Ok((a, end)) ==> ({
            &&& a.one_to_one_map_ch_to_spkr == flag(d, q + 17)
            &&& a.pcm_bit_res == field(d, q, 5) + 1
            &&& a.max_sample_rate == SAMPLING_FREQS@[field(d, q + 5, 4)]
            &&& a.nchannels_total == field(d, q + 9, 8) + 1
            &&& !flag(d, q + 17) ==> a.representation_type == field(d, q + 18, 3) && end == q + 21
                && !a.spkr_mask_enabled && a.spkr_mask == 0 && !a.embedded_stereo && !a.embedded_6ch
        }),
{
    reveal(asset_layout);
    lemma_field_range(d, q, 5);
    lemma_field_range(d, q + 9, 8);
    lemma_field_range(d, q + 18, 3);
}

/// A mask is followed by as many units as it has bits.
pub proof fn masks_bring_their_units(d: Seq<u8>, lim: int, p: int, width: int, unit: int)
    requires
        masked_skips(d, lim, p, width, unit, 1) is Ok,
    ensures
        masked_skips(d, lim, p, width, unit, 1)->Ok_0.1 == p + width + unit * ones(
            field(d, p, width) as u32,
        ),
        masked_skips(d, lim, p, width, unit, 1)->Ok_0.1 <= lim,
        masked_skips(d, lim, p, width, unit, 0) == Ok::<_, ExssError>((Seq::<()>::empty(), p)),
{
    reveal_with_fuel(crate::grammar::repeat, 2);
}

/// Without remap sets there are three bits, and with some a speaker mask is
/// needed.
pub proof fn remap_sets_need_speakers(d: Seq<u8>, lim: int, p: int, nbits: int)
    requires
        p + 3 <= lim,
    ensures
        field(d, p, 3) == 0 ==> remap_sets(d, lim, p, nbits) == Ok::<_, ExssError>(((), p + 3)),
        field(d, p, 3) != 0 && nbits == 0 ==> remap_sets(d, lim, p, nbits) is Err,
{
}

/// Scales of a mix take six bits for each configuration, or for each channel of
/// it.
pub proof fn mix_scales_take_six_bits(
    d: Seq<u8>,
    lim: int,
    p: int,
    channels: Seq<u32>,
    each: bool,
    last: u32,
    q: int,
)
    requires
        mix_scales(d, lim, p, channels, each) matches Ok((_, r)) && r == q,
        q + 6 * last <= lim,
        q + 6 <= lim,
    ensures
        mix_scales(d, lim, p, channels.push(last), each) matches Ok((_, r)) && r == q + if each {
            6 * last
        } else {
            6
        },
        mix_scales(d, lim, p, Seq::empty(), each) matches Ok((_, s)) && s == p,
{
    lemma_scales_alike(d, lim, p, channels, channels.push(last), each, channels.len() as int);
    reveal_with_fuel(crate::grammar::repeat, 1);
}

proof fn lemma_scales_alike(
    d: Seq<u8>,
    lim: int,
    p: int,
    a: Seq<u32>,
    b: Seq<u32>,
    each: bool,
    n: int,
)
    requires
        0 <= n <= a.len(),
        n <= b.len(),
        forall|i: int| 0 <= i < n ==> a[i] == b[i],
    ensures
        crate::grammar::repeat(scale_step(d, lim, a, each), p, n) == crate::grammar::repeat(
            scale_step(d, lim, b, each),
            p,
            n,
        ),
    decreases n,
{
    if n > 0 {
        lemma_scales_alike(d, lim, p, a, b, each, n - 1);
    }
}

/// Mixing metadata without configurations is seven bits, the kind of adjustment
/// with three bits or eight, and one flag.
pub proof fn bare_mixes_hold_their_adjustment(d: Seq<u8>, lim: int, p: int, layout: AssetLayout)
    requires
        p + 18 <= lim,
    ensures
        mix_metadata(d, lim, p, layout, Seq::empty()) == Ok::<_, ExssError>(
            ((), p + if field(d, p + 7, 2) == 3 { 18int } else { 13 }),
        ),
{
}

/// Range and dialogue fields are told by a flag each; a second range follows for
/// an embedded stereo mix. Mixing metadata is there where it is enabled and
/// flagged.
pub proof fn levels_are_passed_over(
    d: Seq<u8>,
    lim: int,
    p: int,
    layout: AssetLayout,
    fields: StaticModel,
    dialogue: int,
    q: int,
)
    requires
        dialogue == p + 1 + if flag(d, p) { 8int } else { 0 },
        q == dialogue + 1 + (if flag(d, dialogue) { 5int } else { 0 }) + (if flag(d, p)
            && layout.embedded_stereo { 8int } else { 0 }),
    ensures
        !fields.mix_metadata_enabled && q <= lim ==> dynamic_fields(d, lim, p, layout, fields)
            == Ok::<_, ExssError>((false, q)),
        fields.mix_metadata_enabled && q + 1 <= lim && !flag(d, q) ==> dynamic_fields(
            d,
            lim,
            p,
            layout,
            fields,
        ) == Ok::<_, ExssError>((false, q + 1)),
        fields.mix_metadata_enabled && q + 1 <= lim && flag(d, q) ==> (dynamic_fields(
            d,
            lim,
            p,
            layout,
            fields,
        ) matches Ok((present, end)) ==> present && mix_metadata(
            d,
            lim,
            q + 1,
            layout,
            fields.mix_channels,
        ) == Ok::<_, ExssError>(((), end))),
{
    reveal(dynamic_fields);
}

} // verus!
