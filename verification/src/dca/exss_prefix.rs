//! Bytes behind an extension substream do not change what is read of it.

use vstd::prelude::*;
use crate::bits::{field, flag, has_bit, lemma_bit_range, lemma_field_range, ones, ones_below};
use crate::grammar::repeat;
use super::exss::{
    asset_body, asset_layout, blank_layout, component, descriptor, descriptor_tail,
    descriptors, dynamic_fields, exss, exss_asset, exss_head, flag_if, late_flags, late_mixing,
    later_components, layout_if, lossy_components, mapped_layout, masked_components,
    masked_skip_step, masked_skips, mix_config_step, mix_configs, mix_inputs, mix_map_step,
    mix_maps, mix_metadata, mix_scales, navigation, optional, presentation, remap_sets,
    remap_step, scale_step, size_if, skip_when, speaker_mask, static_fields, static_if,
    stream_id, tail_byte, tail_bytes, xll_if, xll_parameters, AssetLayout, ExssHead,
    StaticModel, SAMPLING_FREQS,
};

verus! {

/// Every field of `d` below `lim` is one of `e`, which goes on to `more`.
pub open spec fn goes_on(d: Seq<u8>, lim: int, e: Seq<u8>, more: int) -> bool {
    &&& lim <= more
    &&& forall|p: int, n: int|
        0 <= p && 0 <= n && p + n <= lim ==> #[trigger] field(d, p, n) == field(e, p, n) && 0
            <= field(d, p, n)
}

/// What was read at `p` is read again, and reading only goes forward.
pub open spec fn again<T, E>(a: Result<(T, int), E>, b: Result<(T, int), E>, p: int) -> bool {
    a matches Ok((v, q)) ==> a == b && p <= q
}

proof fn lemma_same_field(d: Seq<u8>, e: Seq<u8>, p: int, n: int)
    requires
        d.len() <= e.len(),
        forall|i: int| 0 <= i < d.len() ==> d[i] == e[i],
        0 <= p,
        p + n <= 8 * d.len(),
    ensures
        field(d, p, n) == field(e, p, n),
        0 <= field(d, p, n),
    decreases n,
{
    if n > 0 {
        lemma_same_field(d, e, p, n - 1);
        let i = p + n - 1;
        lemma_bit_range(d, i);
        assert(0 <= i / 8 < d.len());
        assert(d[i / 8] == e[i / 8]);
    }
}

proof fn lemma_repeat_again<T, E>(
    f: spec_fn(int, int) -> Result<(T, int), E>,
    g: spec_fn(int, int) -> Result<(T, int), E>,
    p: int,
    n: int,
)
    requires
        forall|i: int, q: int|
            0 <= i < n && p <= q ==> again(#[trigger] f(i, q), g(i, q), q),
    ensures
        again(repeat(f, p, n), repeat(g, p, n), p),
    decreases n,
{
    if n > 0 {
        lemma_repeat_again(f, g, p, n - 1);
        if let Ok((items, q)) = repeat(f, p, n - 1) {
            assert(again(f(n - 1, q), g(n - 1, q), q));
        }
    }
}

proof fn lemma_mix_config_steps(d: Seq<u8>, lim: int, e: Seq<u8>, more: int, p: int, nbits: int, n: int)
    requires
        goes_on(d, lim, e, more),
        0 <= p,
        0 <= nbits,
    ensures
        again(
            repeat(mix_config_step(d, lim, nbits), p, n),
            repeat(mix_config_step(e, more, nbits), p, n),
            p,
        ),
{
    lemma_repeat_again(mix_config_step(d, lim, nbits), mix_config_step(e, more, nbits), p, n);
}

proof fn lemma_mix_configs(d: Seq<u8>, lim: int, e: Seq<u8>, more: int, p: int)
    requires
        goes_on(d, lim, e, more),
        0 <= p,
    ensures
        again(mix_configs(d, lim, p), mix_configs(e, more, p), p),
{
    if p + 7 <= lim {
        assert(field(d, p + 3, 2) == field(e, p + 3, 2) && 0 <= field(d, p + 3, 2));
        lemma_mix_config_steps(
            d,
            lim,
            e,
            more,
            p + 7,
            4 * (field(d, p + 3, 2) + 1),
            field(d, p + 5, 2) + 1,
        );
    }
}

proof fn lemma_ones(mask: u32, n: int)
    ensures
        0 <= ones_below(mask, n),
    decreases n,
{
    if n > 0 {
        lemma_ones(mask, n - 1);
    }
}

proof fn lemma_presentation(d: Seq<u8>, lim: int, e: Seq<u8>, more: int, p: int, index: int)
    requires
        goes_on(d, lim, e, more),
        0 <= p,
        0 <= index,
    ensures
        again(presentation(d, lim, p, index), presentation(e, more, p, index), p),
{
    lemma_ones(field(d, p + 6, index + 1) as u32, 32);
}

proof fn lemma_static_if(d: Seq<u8>, lim: int, e: Seq<u8>, more: int, p: int, index: int)
    requires
        goes_on(d, lim, e, more),
        0 <= p,
        0 <= index,
    ensures
        again(static_if(d, lim, p, index), static_if(e, more, p, index), p),
{
    assert(again(optional(d, lim, p + 6, 36), optional(e, more, p + 6, 36), p + 6));
    if let Ok((_, p1)) = optional(d, lim, p + 6, 36) {
        lemma_presentation(d, lim, e, more, p1, index);
        if let Ok((_, p2)) = presentation(d, lim, p1, index) {
            lemma_mix_configs(d, lim, e, more, p2);
        }
    }
    assert(again(static_fields(d, lim, p + 1, index), static_fields(e, more, p + 1, index), p + 1));
}

proof fn lemma_masked_skips(
    d: Seq<u8>,
    lim: int,
    e: Seq<u8>,
    more: int,
    p: int,
    width: int,
    unit: int,
    n: int,
)
    requires
        goes_on(d, lim, e, more),
        0 <= p,
        0 <= width,
        0 <= unit,
    ensures
        again(masked_skips(d, lim, p, width, unit, n), masked_skips(e, more, p, width, unit, n), p),
{
    let f = masked_skip_step(d, lim, width, unit);
    let g = masked_skip_step(e, more, width, unit);
    assert forall|i: int, q: int| 0 <= i < n && p <= q implies again(#[trigger] f(i, q), g(i, q), q) by {
        let set = ones(field(d, q, width) as u32);
        lemma_ones(field(d, q, width) as u32, 32);
        assert(0 <= unit * set) by (nonlinear_arith)
            requires
                0 <= unit,
                0 <= set,
        ;
    }
    lemma_repeat_again(f, g, p, n);
}

proof fn lemma_remap_sets(d: Seq<u8>, lim: int, e: Seq<u8>, more: int, p: int, nbits: int)
    requires
        goes_on(d, lim, e, more),
        0 <= p,
        0 <= nbits,
    ensures
        again(remap_sets(d, lim, p, nbits), remap_sets(e, more, p, nbits), p),
{
    if p + 3 <= lim {
        let sets = field(d, p, 3);
        lemma_mix_config_steps(d, lim, e, more, p + 3, nbits, sets);
        if let Ok((speakers, q)) = repeat(mix_config_step(d, lim, nbits), p + 3, sets) {
            let f = remap_step(d, lim, speakers);
            let g = remap_step(e, more, speakers);
            assert forall|i: int, r: int| 0 <= i < sets && q <= r implies again(
                #[trigger] f(i, r),
                g(i, r),
                r,
            ) by {
                if r + 5 <= lim {
                    lemma_masked_skips(
                        d,
                        lim,
                        e,
                        more,
                        r + 5,
                        field(d, r, 5) + 1,
                        5,
                        speakers[i] as int,
                    );
                }
            }
            lemma_repeat_again(f, g, q, sets);
        }
    }
}

proof fn lemma_mapped_layout(d: Seq<u8>, lim: int, e: Seq<u8>, more: int, p: int, base: AssetLayout)
    requires
        goes_on(d, lim, e, more),
        0 <= p,
    ensures
        again(mapped_layout(d, lim, p, base), mapped_layout(e, more, p, base), p),
{
    let stereo = base.nchannels_total > 2;
    let six = base.nchannels_total > 6;
    assert(again(flag_if(d, lim, p, stereo), flag_if(e, more, p, stereo), p));
    if let Ok((_, p1)) = flag_if(d, lim, p, stereo) {
        assert(again(flag_if(d, lim, p1, six), flag_if(e, more, p1, six), p1));
        if let Ok((_, p2)) = flag_if(d, lim, p1, six) {
            assert(again(flag_if(d, lim, p2, true), flag_if(e, more, p2, true), p2));
            if let Ok((masked, p3)) = flag_if(d, lim, p2, true) {
                assert(again(
                    speaker_mask(d, lim, p3, masked),
                    speaker_mask(e, more, p3, masked),
                    p3,
                ));
                if let Ok((mask, p4)) = speaker_mask(d, lim, p3, masked) {
                    lemma_remap_sets(d, lim, e, more, p4, mask.0);
                }
            }
        }
    }
}

proof fn lemma_descriptors(d: Seq<u8>, lim: int, e: Seq<u8>, more: int, p: int)
    requires
        goes_on(d, lim, e, more),
        0 <= p,
    ensures
        again(descriptors(d, lim, p), descriptors(e, more, p), p),
{
    assert(again(optional(d, lim, p, 4), optional(e, more, p, 4), p));
    if let Ok((_, p1)) = optional(d, lim, p, 4) {
        assert(again(optional(d, lim, p1, 24), optional(e, more, p1, 24), p1));
    }
}

proof fn lemma_asset_layout(d: Seq<u8>, lim: int, e: Seq<u8>, more: int, p: int)
    requires
        goes_on(d, lim, e, more),
        0 <= p,
    ensures
        again(asset_layout(d, lim, p), asset_layout(e, more, p), p),
{
    reveal(asset_layout);
    lemma_descriptors(d, lim, e, more, p);
    if let Ok((_, q)) = descriptors(d, lim, p) {
        if q + 18 <= lim {
            let base = AssetLayout {
                pcm_bit_res: (field(d, q, 5) + 1) as u32,
                max_sample_rate: SAMPLING_FREQS@[field(d, q + 5, 4)],
                nchannels_total: (field(d, q + 9, 8) + 1) as u32,
                one_to_one_map_ch_to_spkr: flag(d, q + 17),
                ..blank_layout()
            };
            lemma_mapped_layout(d, lim, e, more, q + 18, base);
        }
    }
}

proof fn lemma_mix_scales(
    d: Seq<u8>,
    lim: int,
    e: Seq<u8>,
    more: int,
    p: int,
    channels: Seq<u32>,
    each: bool,
)
    requires
        lim <= more,
    ensures
        again(mix_scales(d, lim, p, channels, each), mix_scales(e, more, p, channels, each), p),
{
    lemma_repeat_again(
        scale_step(d, lim, channels, each),
        scale_step(e, more, channels, each),
        p,
        channels.len() as int,
    );
}

proof fn lemma_mix_maps(d: Seq<u8>, lim: int, e: Seq<u8>, more: int, p: int, channels: Seq<u32>, inputs: int)
    requires
        goes_on(d, lim, e, more),
        0 <= p,
    ensures
        again(mix_maps(d, lim, p, channels, inputs), mix_maps(e, more, p, channels, inputs), p),
{
    let f = mix_map_step(d, lim, channels, inputs);
    let g = mix_map_step(e, more, channels, inputs);
    assert forall|i: int, q: int|
        0 <= i < channels.len() && p <= q implies again(#[trigger] f(i, q), g(i, q), q) by {
        lemma_masked_skips(d, lim, e, more, q, channels[i] as int, 6, inputs);
    }
    lemma_repeat_again(f, g, p, channels.len() as int);
}

proof fn lemma_mix_metadata(d: Seq<u8>, lim: int, e: Seq<u8>, more: int, p: int, layout: AssetLayout, channels: Seq<u32>)
    requires
        goes_on(d, lim, e, more),
        0 <= p,
    ensures
        again(mix_metadata(d, lim, p, layout, channels), mix_metadata(e, more, p, layout, channels), p),
{
    if p + 9 <= lim {
        let p1 = p + 9 + if field(d, p + 7, 2) == 3 { 8int } else { 3int };
        if p1 + 1 <= lim {
            let each = flag(d, p1);
            lemma_mix_scales(d, lim, e, more, p1 + 1, channels, each);
            if let Ok((_, p2)) = mix_scales(d, lim, p1 + 1, channels, each) {
                lemma_mix_maps(d, lim, e, more, p2, channels, mix_inputs(layout));
            }
        }
    }
}

proof fn lemma_dynamic_fields(d: Seq<u8>, lim: int, e: Seq<u8>, more: int, p: int, layout: AssetLayout, fields: StaticModel)
    requires
        goes_on(d, lim, e, more),
        0 <= p,
    ensures
        again(dynamic_fields(d, lim, p, layout, fields), dynamic_fields(e, more, p, layout, fields), p),
{
    reveal(dynamic_fields);
    assert(again(optional(d, lim, p, 8), optional(e, more, p, 8), p));
    if let Ok((_, p1)) = optional(d, lim, p, 8) {
        assert(again(optional(d, lim, p1, 5), optional(e, more, p1, 5), p1));
        if let Ok((_, p2)) = optional(d, lim, p1, 5) {
            let p3 = if flag(d, p) && layout.embedded_stereo { p2 + 8 } else { p2 };
            let mixed = fields.mix_metadata_enabled;
            assert(again(flag_if(d, lim, p3, mixed), flag_if(e, more, p3, mixed), p3));
            if let Ok((present, p4)) = flag_if(d, lim, p3, mixed) {
                lemma_mix_metadata(d, lim, e, more, p4, layout, fields.mix_channels);
            }
        }
    }
}

proof fn lemma_xll_parameters(d: Seq<u8>, lim: int, e: Seq<u8>, more: int, p: int, nbits: int)
    requires
        goes_on(d, lim, e, more),
        0 <= p,
        0 <= nbits,
    ensures
        again(xll_parameters(d, lim, p, nbits), xll_parameters(e, more, p, nbits), p),
{
}

proof fn lemma_component(d: Seq<u8>, lim: int, e: Seq<u8>, more: int, p: int, present: bool)
    requires
        goes_on(d, lim, e, more),
        0 <= p,
    ensures
        again(component(d, lim, p, present), component(e, more, p, present), p),
{
    assert(again(size_if(d, lim, p, 14, true), size_if(e, more, p, 14, true), p));
    if let Ok((_, p1)) = size_if(d, lim, p, 14, true) {
        assert(again(optional(d, lim, p1, 2), optional(e, more, p1, 2), p1));
    }
}

proof fn lemma_lossy_components(d: Seq<u8>, lim: int, e: Seq<u8>, more: int, p: int, mask: u32)
    requires
        goes_on(d, lim, e, more),
        0 <= p,
    ensures
        again(lossy_components(d, lim, p, mask), lossy_components(e, more, p, mask), p),
{
    let core = has_bit(mask, 4);
    let xbr = has_bit(mask, 5);
    let xxch = has_bit(mask, 6);
    lemma_component(d, lim, e, more, p, core);
    if let Ok((_, p1)) = component(d, lim, p, core) {
        assert(again(size_if(d, lim, p1, 14, xbr), size_if(e, more, p1, 14, xbr), p1));
        if let Ok((_, p2)) = size_if(d, lim, p1, 14, xbr) {
            assert(again(size_if(d, lim, p2, 14, xxch), size_if(e, more, p2, 14, xxch), p2));
        }
    }
}

proof fn lemma_later_components(d: Seq<u8>, lim: int, e: Seq<u8>, more: int, p: int, mask: u32, nbits: int)
    requires
        goes_on(d, lim, e, more),
        0 <= p,
        0 <= nbits,
    ensures
        again(later_components(d, lim, p, mask, nbits), later_components(e, more, p, mask, nbits), p),
{
    let x96 = has_bit(mask, 7);
    let lbr = has_bit(mask, 8);
    assert(again(skip_when(lim, p, 12, x96), skip_when(more, p, 12, x96), p));
    if let Ok((_, p1)) = skip_when(lim, p, 12, x96) {
        lemma_component(d, lim, e, more, p1, lbr);
        if let Ok((_, p2)) = component(d, lim, p1, lbr) {
            lemma_xll_parameters(d, lim, e, more, p2, nbits);
            assert(again(
                xll_if(d, lim, p2, nbits, has_bit(mask, 9)),
                xll_if(e, more, p2, nbits, has_bit(mask, 9)),
                p2,
            ));
        }
    }
}

proof fn lemma_masked_components(d: Seq<u8>, lim: int, e: Seq<u8>, more: int, p: int, nbits: int)
    requires
        goes_on(d, lim, e, more),
        0 <= p,
        0 <= nbits,
    ensures
        again(masked_components(d, lim, p, nbits), masked_components(e, more, p, nbits), p),
{
    reveal(masked_components);
    if p + 12 <= lim {
        let mask = field(d, p, 12) as u32;
        lemma_lossy_components(d, lim, e, more, p + 12, mask);
        if let Ok((_, p1)) = lossy_components(d, lim, p + 12, mask) {
            lemma_later_components(d, lim, e, more, p1, mask, nbits);
        }
    }
}

proof fn lemma_navigation(d: Seq<u8>, lim: int, e: Seq<u8>, more: int, p: int, nbits: int)
    requires
        goes_on(d, lim, e, more),
        0 <= p,
        0 <= nbits,
    ensures
        again(navigation(d, lim, p, nbits), navigation(e, more, p, nbits), p),
{
    reveal(navigation);
    lemma_masked_components(d, lim, e, more, p + 2, nbits);
    lemma_xll_parameters(d, lim, e, more, p + 2, nbits);
    lemma_component(d, lim, e, more, p + 2, true);
    assert(again(optional(d, lim, p + 24, 3), optional(e, more, p + 24, 3), p + 24));
}

proof fn lemma_late_mixing(d: Seq<u8>, lim: int, e: Seq<u8>, more: int, p: int, present: bool, channels: Seq<u32>)
    requires
        goes_on(d, lim, e, more),
        0 <= p,
    ensures
        again(late_mixing(d, lim, p, present, channels), late_mixing(e, more, p, present, channels), p),
{
    assert(again(flag_if(d, lim, p, present), flag_if(e, more, p, present), p));
    if let Ok((_, p1)) = flag_if(d, lim, p, present) {
        lemma_mix_scales(d, lim, e, more, p1 + 1, channels, flag(d, p1));
    }
}

proof fn lemma_asset_body(d: Seq<u8>, lim: int, e: Seq<u8>, more: int, p: int, layout: AssetLayout, fields: StaticModel, nbits: int)
    requires
        goes_on(d, lim, e, more),
        0 <= p,
        0 <= nbits,
    ensures
        again(asset_body(d, lim, p, layout, fields, nbits), asset_body(e, more, p, layout, fields, nbits), p),
{
    reveal(asset_body);
    lemma_dynamic_fields(d, lim, e, more, p, layout, fields);
    if let Ok((mixed, p1)) = dynamic_fields(d, lim, p, layout, fields) {
        lemma_navigation(d, lim, e, more, p1, nbits);
        if let Ok((nav, p2)) = navigation(d, lim, p1, nbits) {
            let xll = nav.xll is Some;
            assert(again(stream_id(d, lim, p2, xll), stream_id(e, more, p2, xll), p2));
            if let Ok((_, p3)) = stream_id(d, lim, p2, xll) {
                let late = layout.one_to_one_map_ch_to_spkr && fields.mix_metadata_enabled
                    && !mixed;
                lemma_late_mixing(d, lim, e, more, p3, late, fields.mix_channels);
                if let Ok((_, p4)) = late_mixing(d, lim, p3, late, fields.mix_channels) {
                    let duration = fields.frame_duration_samples as int;
                    assert(again(
                        late_flags(d, lim, p4, duration),
                        late_flags(e, more, p4, duration),
                        p4,
                    ));
                }
            }
        }
    }
}

proof fn lemma_tail(d: Seq<u8>, lim: int, e: Seq<u8>, more: int, p: int, bits: int)
    requires
        goes_on(d, lim, e, more),
        0 <= p,
        0 <= bits,
    ensures
        again(descriptor_tail(d, lim, p, bits), descriptor_tail(e, more, p, bits), p),
{
    if p + bits <= lim {
        assert forall|k: int| 0 <= k < (bits + 7) / 8 implies tail_byte(d, p, bits, k) == tail_byte(
            e,
            p,
            bits,
            k,
        ) by {
            if 8 * (k + 1) <= bits {
                assert(field(d, p + 8 * k, 8) == field(e, p + 8 * k, 8));
            } else {
                assert(field(d, p + 8 * k, bits - 8 * k) == field(e, p + 8 * k, bits - 8 * k));
            }
        }
        assert(tail_bytes(d, p, bits) =~= tail_bytes(e, p, bits));
    }
}

proof fn lemma_descriptor(d: Seq<u8>, lim: int, e: Seq<u8>, more: int, p: int, present: bool, fields: StaticModel, nbits: int)
    requires
        goes_on(d, lim, e, more),
        0 <= p,
        0 <= nbits,
    ensures
        again(descriptor(d, lim, p, present, fields, nbits), descriptor(e, more, p, present, fields, nbits), p),
{
    reveal(descriptor);
    if p + 12 <= lim {
        let end = p + 8 * (field(d, p, 9) + 1);
        lemma_asset_layout(d, lim, e, more, p + 12);
        if let Ok((layout, p1)) = layout_if(d, lim, p + 12, present) {
            lemma_asset_body(d, lim, e, more, p1, layout, fields, nbits);
            if let Ok((_, p2)) = asset_body(d, lim, p1, layout, fields, nbits) {
                if p2 <= end {
                    lemma_tail(d, lim, e, more, p2, end - p2);
                }
            }
        }
    }
}

proof fn lemma_exss_asset(
    d: Seq<u8>,
    lim: int,
    e: Seq<u8>,
    more: int,
    p: int,
    head: ExssHead,
    present: bool,
    fields: StaticModel,
)
    requires
        goes_on(d, lim, e, more),
        0 <= p,
    ensures
        exss_asset(d, lim, p, head, present, fields) is Ok ==> exss_asset(
            e,
            more,
            p,
            head,
            present,
            fields,
        ) == exss_asset(d, lim, p, head, present, fields),
{
    let nbits = head.size_nbits as int;
    lemma_descriptor(d, lim, e, more, p + nbits, present, fields, nbits);
}

/// What follows a substream that can be read never changes what is read of
/// it, its size least of all; and the substream lies within its bytes.
pub proof fn trailing_bytes_keep_the_substream(d: Seq<u8>, extra: Seq<u8>)
    ensures
        exss(d) matches Ok(v) ==> {
            &&& exss(d + extra) == exss(d)
            &&& 2 <= v.exss_size <= d.len()
        },
{
    let e = d + extra;
    let lim = 8 * d.len() as int;
    let more = 8 * e.len() as int;
    assert forall|p: int, n: int| 0 <= p && 0 <= n && p + n <= lim implies #[trigger] field(d, p, n)
        == field(e, p, n) && 0 <= field(d, p, n) by {
        lemma_same_field(d, e, p, n);
    }
    assert(again(exss_head(d, lim, 0), exss_head(e, more, 0), 0));
    if let Ok((head, p1)) = exss_head(d, lim, 0) {
        lemma_static_if(d, lim, e, more, p1, head.index as int);
        if let Ok((fields, p2)) = static_if(d, lim, p1, head.index as int) {
            lemma_exss_asset(d, lim, e, more, p2, head, fields.0, fields.1);
        }
        if exss(d) is Ok {
            let w = if flag(d, 42) { 4int } else { 0int };
            lemma_field_range(d, 43, 8 + w);
            lemma_field_range(d, 51 + w, 16 + w);
        }
    }
}

} // verus!
