//! What the parts of a high-definition frame, and the code books and checksums
//! under it, hold of what was coded.

use vstd::prelude::*;
use crate::dca::crc::{crc_byte, crc_of, crc_shift};
use crate::dca::core_decoder::{extension_decoded, xxch_decoded, CoreModel};
use crate::dca::core_output::CorePcm;
use crate::dca::core_tables::CoreTables;
use crate::dca::exss::{after_asset, exss, ExssModel};
use crate::dca::hd::{
    doubles, first_len, kind_of_exss, lossless_frame, lossy_frame, lossy_set, lossy_x, lossy_xxch,
    place_of, size_of_exss, source_of, xll_bytes, ExssKind, LossyX, XNavigation,
};
use crate::dca::huffman::{books_at, core_books, longest, lookup, vlc_of, VlcSource};
use crate::dca::xll::DecodedModel;
use crate::dca::xll_output::XllOutputModel;

verus! {

/// Bit `i` of a register.
pub open spec fn register_bit(crc: u16, i: u16) -> bool {
    (crc >> i) & 1 == 1
}

/// The register divides by x^16 + x^12 + x^5 + 1: each bit moves up by one, and
/// the highest comes back at 0, 5 and 12.
pub proof fn registers_divide(crc: u16, i: u16)
    requires
        i < 16,
    ensures
        i != 0 && i != 5 && i != 12 ==> register_bit(crc_shift(crc), i) == register_bit(
            crc,
            (i - 1) as u16,
        ),
        i == 0 ==> register_bit(crc_shift(crc), i) == register_bit(crc, 15),
        i == 5 || i == 12 ==> register_bit(crc_shift(crc), i) == (register_bit(crc, (i - 1) as u16)
            != register_bit(crc, 15)),
{
    let top = crc & 0x8000 != 0;
    assert((crc & 0x8000 != 0) == ((crc >> 15u16) & 1 == 1)) by (bit_vector);
    assert(i < 16 && i > 0 ==> (((crc << 1) ^ 0x1021) >> i) & 1 == ((crc >> ((i - 1) as u16)) & 1)
        ^ ((0x1021u16 >> i) & 1) && ((crc << 1) >> i) & 1 == (crc >> ((i - 1) as u16)) & 1)
        by (bit_vector);
    assert((((crc << 1) ^ 0x1021) >> 0u16) & 1 == 1 && ((crc << 1) >> 0u16) & 1 == 0)
        by (bit_vector);
    assert(i < 16 && i > 0 ==> ((0x1021u16 >> i) & 1 == 1 <==> (i == 5 || i == 12)) && (((0x1021u16
        >> i) & 1) == 0 || ((0x1021u16 >> i) & 1) == 1)) by (bit_vector);
    let a = (crc >> ((i - 1) as u16)) & 1;
    let b = (0x1021u16 >> i) & 1;
    assert((b == 0 ==> a ^ b == a) && (b == 1 && a <= 1 ==> (a ^ b == 1 <==> a == 0))) by (bit_vector);
    assert(((crc >> ((i - 1) as u16)) & 1) <= 1) by (bit_vector);
}

/// A byte enters at the top, and the register starts with all ones.
pub proof fn bytes_enter_at_the_top(crc: u16, byte: u8, data: Seq<u8>)
    ensures
        crc_of(Seq::empty()) == 0xffff,
        crc_byte(crc, byte) == crc_byte(crc ^ ((byte as u16) << 8), 0),
        crc_of(data.push(byte)) == crc_byte(crc_of(data), byte),
{
    assert(data.push(byte).drop_last() =~= data);
    let x = crc ^ ((byte as u16) << 8);
    assert(x ^ ((0u8 as u16) << 8) == x) by (bit_vector);
}

/// The longest length is one of them, and none is above it.
pub proof fn the_longest_length_is_the_largest(pairs: Seq<[u8; 2]>, n: int, i: int)
    requires
        0 <= i < n,
    ensures
        pairs[i]@[1] <= longest(pairs, n),
        exists|k: int| 0 <= k < n && #[trigger] pairs[k]@[1] == longest(pairs, n),
    decreases n,
{
    if n > 1 {
        the_longest_length_is_the_largest(pairs, n - 1, if i < n - 1 { i } else { 0 });
        let k = choose|k: int| 0 <= k < n - 1 && #[trigger] pairs[k]@[1] == longest(pairs, n - 1);
        assert(pairs[k]@[1] == longest(pairs, n) || pairs[n - 1]@[1] == longest(pairs, n));
    } else {
        assert(longest(pairs, 0) == 0);
        assert(pairs[0]@[1] == longest(pairs, 1));
    }
}

/// A key stands for the symbol of the last entry that has it.
pub proof fn keys_stand_for_their_last_symbol(entries: Seq<(u32, i32)>, key: int, n: int, k: int)
    requires
        0 <= k < n,
        entries[k].0 == key,
        forall|j: int| k < j < n ==> (#[trigger] entries[j]).0 != key,
    ensures
        lookup(entries, key, n) == Some(entries[k].1),
    decreases n,
{
    if k < n - 1 {
        assert(entries[n - 1].0 != key);
        keys_stand_for_their_last_symbol(entries, key, n - 1, k);
    }
}

/// The books stand one behind the other: those of the ten quantizers, five of
/// twelve pairs for allocations from one on, five of 129 for scales about zero,
/// and four of four for transitions.
pub proof fn books_stand_one_behind_the_other(s: VlcSource, i: int)
    requires
        0 <= i,
    ensures
        ({
            let a = s.quant_start(10);
            let books = core_books(s);
            &&& i < 5 ==> books.bit_allocation[i] == vlc_of(
                s.pairs@.subrange(a + 12 * i, a + 12 * (i + 1)),
                1,
            )
            &&& i < 5 ==> books.scale_factor[i] == vlc_of(
                s.pairs@.subrange(a + 60 + 129 * i, a + 60 + 129 * (i + 1)),
                -64,
            )
            &&& i < 4 ==> books.transition_mode[i] == vlc_of(
                s.pairs@.subrange(a + 60 + 645 + 4 * i, a + 60 + 645 + 4 * (i + 1)),
                0,
            )
            &&& i < 10 ==> books.quant_index[i] == books_at(
                s.pairs@,
                s.quant_start(i),
                s.sizes@[i] as int,
                s.offsets@[i] as int,
                s.groups@[i] as int,
            )
            &&& s.quant_start(0) == 0
            &&& i < 10 ==> s.quant_start(i + 1) - s.quant_start(i) == s.groups@[i] * s.sizes@[i]
        }),
{
}

/// The set of a lossy extension is all that is behind the container, whose
/// navigation states its length under a checksum.
pub proof fn lossy_sets_fill_their_container(d: Seq<u8>)
    ensures
        lossy_set(d) matches Ok(set) ==> ({
            &&& d.len() >= 33
            &&& set == d.skip(33)
            &&& set.len() == 256 * d[28] + d[29]
            &&& crc_of(d.subrange(26, 32)) == 0
            &&& d[32] == 2
            &&& d.subrange(22, 28) == seq![0x75u8, 0x9au8, 0x19u8, 0x08u8, 0x00u8, 0x40u8]
        }),
{
    match lossy_set(d) {
        Ok(set) => {
            assert(set =~= d.skip(33));
            assert(d.subrange(22, 28) =~= seq![0x75u8, 0x9au8, 0x19u8, 0x08u8, 0x00u8, 0x40u8]);
        },
        _ => {},
    }
}

/// A substream is lossless when it has a lossless component, else lossy when it
/// adds channels or an extension, else left to the core.
pub proof fn substreams_are_what_they_hold(d: Seq<u8>)
    ensures
        exss(d) is Err ==> kind_of_exss(d) == ExssKind::Core && size_of_exss(d) is None,
        exss(d) matches Ok(e) ==> ({
            let nav = e.asset.descriptor.navigation;
            &&& kind_of_exss(d) == ExssKind::Lossless <==> nav.xll is Some
            &&& kind_of_exss(d) == ExssKind::Lossy <==> nav.xll is None && (nav.xxch_size > 0
                || after_asset(e, d) is Some)
            &&& size_of_exss(d) == Some(e.exss_size)
        }),
{
}

/// The length of a frame is that of the first channel that plays.
pub proof fn frames_are_as_long_as_their_first_channel(v: Seq<Option<Seq<i32>>>, i: int, k: int)
    requires
        0 <= i <= k < v.len(),
        v[k] is Some,
        forall|j: int| i <= j < k ==> #[trigger] v[j] is None,
    ensures
        first_len(v, i) == (v[k]->0).len(),
    decreases k - i,
{
    if i < k {
        assert(v[i] is None);
        frames_are_as_long_as_their_first_channel(v, i + 1, k);
    }
}

/// A place counts only when both its parts are stated.
pub proof fn places_are_stated_in_full(x: XNavigation)
    ensures
        place_of(x) is Some <==> x.offset is Some && x.size is Some,
        place_of(x) matches Some((offset, size)) ==> x.offset == Some(offset) && x.size == Some(
            size,
        ),
{
}

/// Lossless bytes are as many as the descriptor says, from the component on,
/// and are decoded as it says.
pub proof fn lossless_bytes_are_where_they_should_be(e: ExssModel, d: Seq<u8>, x: XNavigation)
    requires
        e.asset.descriptor.navigation.xll is Some,
        e.asset.xll_offset + (e.asset.descriptor.navigation.xll->0).size <= d.len(),
    ensures
        xll_bytes(e, d).len() == (e.asset.descriptor.navigation.xll->0).size,
        xll_bytes(e, d) == d.skip(e.asset.xll_offset as int).take(
            (e.asset.descriptor.navigation.xll->0).size as int,
        ),
        source_of(e, x).hd_stream_id == e.asset.descriptor.hd_stream_id,
        source_of(e, x).one_to_one == e.asset.descriptor.layout.one_to_one_map_ch_to_spkr,
        source_of(e, x).hint == place_of(x),
        Some(source_of(e, x).parameters) == e.asset.descriptor.navigation.xll,
{
    assert(xll_bytes(e, d) =~= d.skip(e.asset.xll_offset as int).take(
        (e.asset.descriptor.navigation.xll->0).size as int,
    ));
}

/// A core runs at twice its rate exactly under channels of twice its rate.
pub proof fn cores_double_under_double_rates(f: DecodedModel, c: CoreModel)
    ensures
        doubles(f, c) ==> f.parsed.sets[0].head.freq == 2 * c.sample_rate,
        c.sample_rate == 48_000 ==> (doubles(f, c) <==> f.parsed.sets[0].head.freq == 2
            * c.sample_rate),
{
}

/// A lossless frame plays what was decoded, and an extension as it came out.
pub proof fn lossless_frames_say_what_was_decoded(
    f: DecodedModel,
    out: XllOutputModel,
    e: ExssModel,
    x: XNavigation,
)
    ensures
        ({
            let v = lossless_frame(f, out, e, x);
            &&& v.lossless
            &&& v.samples == out.samples
            &&& v.output_mask == out.mask
            &&& v.sample_rate == out.sample_rate
            &&& v.xll_frame_segments == f.parsed.frame.nframesegs
            &&& v.xll_segment_samples == f.parsed.frame.nsegsamples
            &&& v.xll_segment_size_bits == f.parsed.frame.seg_size_nbits
            &&& f.x.audio matches Some(a) ==> v.x_samples == a.samples && v.x_pcm_bit_res
                == a.pcm_bit_res && v.x_bits_consumed == a.bits_consumed
            &&& f.x.audio is None ==> v.x_samples.len() == 0
            &&& f.x.payload matches Some(p) ==> v.x_present == !p.alternate && v.x_imax
                == p.alternate && v.x_payload == p.data && v.x_payload_offset == p.offset
            &&& f.x.payload is None ==> !v.x_present && !v.x_imax && v.x_payload.len() == 0
            &&& v.x_decode_error == f.x.error
        }),
{
}

/// A lossy frame plays the core, and an extension where there is one.
pub proof fn lossy_frames_say_what_was_decoded(
    pcm: CorePcm,
    xxch: Option<&'static str>,
    x: Option<LossyX>,
)
    ensures
        ({
            let v = lossy_frame(pcm, xxch, x);
            &&& !v.lossless
            &&& v.samples == pcm.slots
            &&& v.output_mask == pcm.ch_mask
            &&& v.sample_rate == pcm.output_rate
            &&& v.x_samples == pcm.extension
            &&& v.x_pcm_bit_res == 24
            &&& v.xxch_decode_error == xxch
            &&& x is None ==> !v.x_present && !v.x_imax
            &&& x matches Some(p) ==> v.x_present == p.standard && v.x_imax == !p.standard
                && v.x_payload == p.payload && v.x_payload_offset == p.offset && v.x_decode_error
                == p.error && v.x_bits_consumed == p.bits
        }),
{
}

/// Without a component for more channels the core is left as it is; one past the
/// end of the bytes is refused, and any other is decoded from its own bytes.
pub proof fn more_channels_come_from_their_component(
    c: CoreModel,
    t: CoreTables,
    e: ExssModel,
    d: Seq<u8>,
)
    ensures
        ({
            let at = e.asset.xxch_offset as int;
            let size = e.asset.descriptor.navigation.xxch_size as int;
            let (out, failure) = lossy_xxch(c, t, e, d);
            &&& size == 0 ==> out == c && failure is None
            &&& size > 0 && at + size > d.len() ==> out == c && failure is Some
            &&& size > 0 && at + size <= d.len() ==> out == xxch_decoded(
                c,
                t,
                d.subrange(at, at + size),
            ).0 && (failure is None <==> xxch_decoded(c, t, d.subrange(at, at + size)).1 is Ok)
        }),
{
}

/// A spatial extension runs from behind the asset to the end of the substream;
/// only one of the standard profile is decoded, into four channels, and one that
/// is not leaves the core as it is.
pub proof fn lossy_extensions_end_with_the_substream(
    c: CoreModel,
    t: CoreTables,
    e: ExssModel,
    d: Seq<u8>,
)
    ensures
        after_asset(e, d) is None ==> lossy_x(c, t, e, d) == (c, None::<LossyX>),
        after_asset(e, d) matches Some(at) ==> ({
            let end = if e.exss_size < d.len() { e.exss_size as int } else { d.len() as int };
            let (out, found) = lossy_x(c, t, e, d);
            &&& found matches Some(x)
            &&& x.offset == at
            &&& x.payload == d.subrange(at as int, end)
            &&& x.standard == (crate::bits::field(d, 8 * at as int, 32) == 0x0200_0850)
            &&& !x.standard ==> out == c && x.error is Some && x.bits == 0
            &&& x.standard && x.error is None ==> ({
                &&& lossy_set(x.payload) matches Ok(set)
                &&& extension_decoded(c, t, set, 4) matches (m, Ok(bytes))
                &&& out == m
                &&& x.bits == 8 * bytes
            })
        }),
{
}

} // verus!
