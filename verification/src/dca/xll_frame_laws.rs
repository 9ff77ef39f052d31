//! What a lossless frame, and its extension, hold of what was coded.

use vstd::prelude::*;
use crate::bits::{aligned, code_space, field, flag, lemma_field_range};
use crate::grammar::items_are_read_in_turn;
use crate::dca::alternate::{AlternateGeometry, AlternateHeader, AlternateLayout};
use crate::dca::xll::{
    whole_frame, xll_step, DecodedModel, PbrModel, XllSource,
};
use crate::dca::xll_band::extended;
use crate::dca::xll_error::XllError;
use crate::dca::xll_frame::{
    bands_after, common_header, frame_geometry, frame_sizes, hierarchy_size, navi_entry, navi_step,
    navi_table, total,
};
use crate::dca::xll_header::{XllChSetModel, XllFrame, XllTables};
use crate::dca::xll_x::{
    alternate_audio, alternate_band, alternate_channel_set, alternate_frame, alternate_navi,
    alternate_set, entries, standard_navi, standard_set, table_size, x_payload,
};

verus! {

/// The sizes of a frame come back: those of its header and of itself, whose
/// width is coded before it, and the number of its sets.
pub proof fn frame_sizes_come_back(
    d: Seq<u8>,
    lim: int,
    p: int,
    header: int,
    width: int,
    size: int,
    sets: int,
)
    requires
        p + 53 + width <= lim,
        field(d, p, 32) == 0x41a2_9547,
        field(d, p + 32, 4) == 0,
        field(d, p + 36, 8) == header - 1,
        field(d, p + 44, 5) == width - 1,
        1 <= width <= 32,
        field(d, p + 49, width) == size - 1,
        field(d, p + 49 + width, 4) == sets - 1,
        1 <= sets <= 3,
    ensures
        frame_sizes(d, lim, p) == Ok::<_, XllError>(
            ((header as usize, size as u64, sets as usize), p + 53 + width),
        ),
{
}

/// The geometry of a frame comes back; its samples are those of a segment times
/// the segments, both powers of two.
pub proof fn geometries_come_back(
    d: Seq<u8>,
    lim: int,
    p: int,
    size: u64,
    sets: usize,
    segs: int,
    samples: int,
)
    requires
        p + 25 <= lim,
        field(d, p, 4) == segs,
        field(d, p + 4, 4) == samples,
        1 <= samples,
        samples + segs <= 16,
    ensures
        ({
            &&& frame_geometry(d, lim, p, size, sets) matches Ok((f, q))
            &&& f.frame_size == size
            &&& f.nchsets == sets
            &&& f.nframesegs == code_space(segs)
            &&& f.nsegsamples == code_space(samples)
            &&& f.nsegsamples_log2 == samples
            &&& f.nframesamples == f.nframesegs * f.nsegsamples
            &&& f.seg_size_nbits == field(d, p + 8, 5) + 1
            &&& f.band_crc_present == field(d, p + 13, 2)
            &&& f.scalable_lsbs == flag(d, p + 15)
            &&& f.ch_mask_nbits == field(d, p + 16, 5) + 1
            &&& flag(d, p + 15) ==> f.fixed_lsb_width == field(d, p + 21, 4) && q == p + 25
            &&& !flag(d, p + 15) ==> f.fixed_lsb_width == 0 && q == p + 21
        }),
{
    lemma_field_range(d, p, 4);
    lemma_field_range(d, p + 4, 4);
    lemma_field_range(d, p + 8, 5);
    lemma_field_range(d, p + 13, 2);
    lemma_field_range(d, p + 16, 5);
    lemma_field_range(d, p + 21, 4);
    crate::dca::xll_laws::lemma_code_spaces(samples + segs, segs);
    assert(samples + segs - segs == samples);
    lemma_small_space(segs);
    lemma_small_space(samples);
    lemma_small_space(samples + segs);
}

proof fn lemma_small_space(n: int)
    requires
        0 <= n <= 16,
    ensures
        1 <= code_space(n) <= 65536,
{
    crate::dca::xll_laws::lemma_code_spaces(16, n);
    assert(code_space(16) == 65536);
    let a = code_space(n);
    let b = code_space(16 - n);
    assert(b >= 1);
    assert(a <= 65536) by (nonlinear_arith)
        requires
            a * b == 65536,
            b >= 1,
            a >= 1,
    ;
}

/// A common header ends where its size says.
pub proof fn common_headers_end_where_they_say(d: Seq<u8>, lim: int)
    requires
        common_header(d, lim, 0) is Ok,
    ensures
        ({
            &&& frame_sizes(d, lim, 0) matches Ok(((header, size, sets), a))
            &&& common_header(d, lim, 0)->Ok_0.1 == 8 * header
            &&& common_header(d, lim, 0)->Ok_0.0.frame_size == size
            &&& common_header(d, lim, 0)->Ok_0.0.nchsets == sets
            &&& frame_geometry(d, lim, a, size, sets) matches Ok((f, b))
            &&& common_header(d, lim, 0)->Ok_0.0 == f
        }),
{
}

/// The channels of a hierarchy are those of its sets together; a set outside it
/// adds none.
pub proof fn hierarchies_add_up(sets: Seq<XllChSetModel>, more: XllChSetModel)
    ensures
        hierarchy_size(Seq::empty()) == 0,
        more.mapping.hier_chset ==> hierarchy_size(sets.push(more)) - hierarchy_size(sets)
            == more.head.nchannels,
        !more.mapping.hier_chset ==> hierarchy_size(sets.push(more)) == hierarchy_size(sets),
{
    assert(sets.push(more).drop_last() =~= sets);
}

/// A segment's size is counted from one and is no more than the frame's.
pub proof fn segment_sizes_come_back(d: Seq<u8>, lim: int, p: int, frame: XllFrame)
    requires
        1 <= frame.seg_size_nbits <= 32,
        p + frame.seg_size_nbits <= lim,
    ensures
        navi_entry(d, lim, p, frame) is Ok <==> field(d, p, frame.seg_size_nbits as int) + 1
            <= frame.frame_size,
        navi_entry(d, lim, p, frame) matches Ok((size, q)) ==> size == field(
            d,
            p,
            frame.seg_size_nbits as int,
        ) + 1 && q == p + frame.seg_size_nbits,
{
    lemma_field_range(d, p, frame.seg_size_nbits as int);
}

/// The table has a size for every segment of every set, and a checksum on the
/// next whole byte behind them.
pub proof fn tables_come_back(d: Seq<u8>, lim: int, p: int, frame: XllFrame, sizes: Seq<u64>)
    requires
        1 <= frame.seg_size_nbits <= 32,
        sizes.len() == frame.nframesegs * frame.nchsets,
        sizes.len() <= 1024,
        forall|i: int|
            0 <= i < sizes.len() ==> #[trigger] sizes[i] == field(
                d,
                p + frame.seg_size_nbits * i,
                frame.seg_size_nbits as int,
            ) + 1,
        forall|i: int| 0 <= i < sizes.len() ==> #[trigger] sizes[i] <= frame.frame_size,
        aligned(p + frame.seg_size_nbits * sizes.len(), 8) + 16 <= lim,
    ensures
        navi_table(d, lim, p, frame) == Ok::<_, XllError>(
            (sizes, aligned(p + frame.seg_size_nbits * sizes.len(), 8) + 16),
        ),
{
    let w = frame.seg_size_nbits as int;
    let n = sizes.len() as int;
    let step = navi_step(d, lim, frame);
    let spots = Seq::new((n + 1) as nat, |j: int| p + w * j);
    assert(w * 0 == 0);
    assert forall|j: int| 0 <= j < n implies step(j, #[trigger] spots[j]) == Ok::<
        (u64, int),
        XllError,
    >((sizes[j], spots[j + 1])) by {
        assert(w * (j + 1) == w * j + w && w * (j + 1) <= w * n) by (nonlinear_arith)
            requires
                j + 1 <= n,
                w >= 1,
        ;
        assert(sizes[j] == field(d, p + w * j, w) + 1);
        assert(sizes[j] <= frame.frame_size);
    }
    items_are_read_in_turn(step, spots, sizes, n);
    assert(sizes.take(n) =~= sizes);
}

/// Aligning moves on to the next multiple, by less than one.
pub proof fn alignment_moves_on(pos: int, n: int)
    requires
        0 <= pos,
        n == 8 || n == 32,
    ensures
        pos <= aligned(pos, n) < pos + n,
        aligned(pos, n) % n == 0,
{
}

/// The table goes segment by segment, and set by set within each: entry `k`
/// brings its set one segment more, from where the entries before it end to
/// where it ends, and leaves the other sets.
pub proof fn entries_bring_their_segments(
    d: Seq<u8>,
    lim: int,
    start: int,
    sets: Seq<XllChSetModel>,
    frame: XllFrame,
    navi: Seq<u64>,
    seg: int,
    c: int,
    other: int,
)
    requires
        0 <= seg,
        0 <= c < sets.len(),
        0 <= other < sets.len(),
        bands_after(d, lim, start, sets, frame, navi, seg * sets.len() + c + 1) is Ok,
    ensures
        ({
            let k = seg * sets.len() + c;
            let from = start + 8 * total(navi, k);
            let end = start + 8 * total(navi, k + 1);
            &&& bands_after(d, lim, start, sets, frame, navi, k) matches Ok(before)
            &&& bands_after(d, lim, start, sets, frame, navi, k + 1) matches Ok(after)
            &&& extended(d, lim, from, sets[c], frame, seg, end, before[c]) matches Ok((band, q))
            &&& after.len() == sets.len()
            &&& after[c] == band
            &&& other != c ==> after[other] == before[other]
        }),
{
    let n = sets.len() as int;
    let k = seg * n + c;
    assert(seg * sets.len() == seg * n);
    vstd::arithmetic::div_mod::lemma_fundamental_div_mod_converse(k, n, seg, c);
    assert(k >= 0) by (nonlinear_arith)
        requires
            k == seg * n + c,
            seg >= 0,
            n > 0,
            c >= 0,
    ;
    lemma_band_count(d, lim, start, sets, frame, navi, k);
    assert(total(navi, k + 1) == total(navi, k) + navi[k]);
}

proof fn lemma_band_count(
    d: Seq<u8>,
    lim: int,
    start: int,
    sets: Seq<XllChSetModel>,
    frame: XllFrame,
    navi: Seq<u64>,
    k: int,
)
    requires
        sets.len() > 0,
    ensures
        bands_after(d, lim, start, sets, frame, navi, k) matches Ok(bands) ==> bands.len()
            == sets.len(),
    decreases k,
{
    if k > 0 {
        lemma_band_count(d, lim, start, sets, frame, navi, k - 1);
        vstd::arithmetic::div_mod::lemma_mod_bound(k - 1, sets.len() as int);
    }
}

/// Entries of a table stand one behind the other, each a size less one.
pub proof fn entries_stand_in_a_row(d: Seq<u8>, p: int, w: int, n: int, i: int)
    requires
        1 <= w <= 32,
        0 <= i < n,
    ensures
        entries(d, p, w, n).len() == n,
        entries(d, p, w, n)[i] == 1 + field(d, p + w * i, w),
{
    lemma_field_range(d, p + w * i, w);
    crate::dca::xll_laws::lemma_code_spaces(32, w);
    let a = code_space(w);
    let b = code_space(32 - w);
    assert(code_space(32) == 0x1_0000_0000);
    assert(b >= 1);
    assert(a <= 0x1_0000_0000) by (nonlinear_arith)
        requires
            a * b == 0x1_0000_0000,
            b >= 1,
            a >= 1,
    ;
}

/// A table takes the fewest whole bytes that hold it, and two more.
pub proof fn tables_take_whole_bytes(n: int, w: int)
    requires
        0 <= n,
        0 <= w,
    ensures
        8 * (table_size(n, w) - 2) >= n * w,
        8 * (table_size(n, w) - 3) < n * w || n * w == 0,
{
}

/// An alternate frame has 512 samples, in as many equal segments as it has.
pub proof fn alternate_frames_have_512_samples(g: AlternateGeometry)
    requires
        g.segments == 1 || g.segments == 2 || g.segments == 4 || g.segments == 8,
    ensures
        ({
            let f = alternate_frame(g);
            &&& f.nframesegs == g.segments
            &&& f.nframesegs * f.nsegsamples == 512
            &&& f.nframesamples == 512
            &&& f.nsegsamples == code_space(f.nsegsamples_log2 as int)
            &&& f.seg_size_nbits == g.navigation_size_bits
            &&& f.nchsets == 1
            &&& !f.scalable_lsbs
        }),
{
    assert(code_space(9) == 512 && code_space(8) == 256 && code_space(7) == 128 && code_space(6)
        == 64);
    let f = alternate_frame(g);
    if g.segments == 1 {
        assert(f.nsegsamples == 512);
    } else if g.segments == 2 {
        assert(f.nsegsamples == 256);
    } else if g.segments == 4 {
        assert(f.nsegsamples == 128);
    } else {
        assert(f.nsegsamples == 64);
    }
}

/// The segments of an alternate set follow one another, each from where the
/// last one's entry ends to within 32 bits of where its own does.
pub proof fn alternate_segments_follow_one_another(
    d: Seq<u8>,
    set: XllChSetModel,
    frame: XllFrame,
    navi: Seq<u64>,
    start: int,
    k: int,
)
    requires
        0 < k,
        alternate_band(d, set, frame, navi, start, k) is Ok,
    ensures
        ({
            let from = 8 * (start + total(navi, k - 1));
            let end = from + 8 * navi[k - 1];
            &&& alternate_band(d, set, frame, navi, start, k - 1) matches Ok(before)
            &&& extended(d, 8 * d.len() as int, from, set, frame, k - 1, end, before) matches Ok((
                band,
                q,
            ))
            &&& alternate_band(d, set, frame, navi, start, k) == Ok::<_, XllError>(band)
            &&& end - 32 <= q <= end
        }),
{
    assert(total(navi, k) == total(navi, k - 1) + navi[k - 1]);
}

/// An extension is what is left of the frame from its sync word on: on the next
/// multiple of four bytes, or where a hint that holds puts it.
pub proof fn extensions_start_at_their_sync_word(
    d: Seq<u8>,
    frame_size: u64,
    pos: int,
    hint: Option<(usize, usize)>,
)
    requires
        0 <= pos,
    ensures
        x_payload(d, frame_size, pos, hint) matches Some(p) ==> p.data.len() > 0 ==> ({
            let end = if frame_size < d.len() { frame_size as int } else { d.len() as int };
            &&& p.data == d.subrange(p.offset, end)
            &&& p.offset % 4 == 0 || p.navigated
            &&& !p.navigated ==> 8 * p.offset == aligned(pos, 32)
            &&& p.alternate == (field(d, 8 * p.offset, 32) != 0x0200_0850)
        }),
        x_payload(d, frame_size, pos, None) matches Some(p) ==> !p.navigated,
{
}

/// A frame that waits for others takes in their bytes and comes out when the
/// wait is over.
pub proof fn waiting_frames_take_in_bytes(s: PbrModel, data: Seq<u8>, t: XllTables, source: XllSource)
    requires
        s.stream == source.hd_stream_id,
        s.delay > 1,
    ensures
        ({
            let (next, r) = xll_step(s, data, t, source);
            &&& r is Err
            &&& next.buffer == s.buffer + data
            &&& next.delay + 1 == s.delay
            &&& next.stream == s.stream
        }),
{
}

/// When the wait is over, the frame is that of the kept bytes and the new ones,
/// and a frame that fails leaves nothing behind.
pub proof fn kept_bytes_come_first(s: PbrModel, data: Seq<u8>, t: XllTables, source: XllSource)
    requires
        s.stream == source.hd_stream_id,
        s.delay <= 1,
        s.delay == 1 || s.buffer.len() > 0,
    ensures
        ({
            let (next, r) = xll_step(s, data, t, source);
            &&& r is Ok ==> r == whole_frame(s.buffer + data, t, source)
            &&& r is Err ==> next.buffer.len() == 0 && next.delay == 0
            &&& whole_frame(s.buffer + data, t, source) is Err ==> r == whole_frame(
                s.buffer + data,
                t,
                source,
            )
        }),
{
}

/// A substream without a sync word of its own starts a wait at its sync point.
pub proof fn sync_points_start_a_wait(s: PbrModel, data: Seq<u8>, t: XllTables, source: XllSource)
    requires
        s.stream == source.hd_stream_id,
        s.delay == 0,
        s.buffer.len() == 0,
        whole_frame(data, t, source) == Err::<DecodedModel, XllError>(XllError::Eagain),
        source.parameters.sync_present,
        source.parameters.sync_offset < data.len(),
        source.parameters.delay_nframes > 0,
    ensures
        ({
            let (next, r) = xll_step(s, data, t, source);
            &&& r == Err::<DecodedModel, XllError>(XllError::Eagain)
            &&& next.buffer == data.skip(source.parameters.sync_offset as int)
            &&& next.delay == source.parameters.delay_nframes
        }),
{
    let next = xll_step(s, data, t, source).0;
    assert(next.buffer =~= data.skip(source.parameters.sync_offset as int));
}

/// The segments of a standard extension stand behind a table of whole bytes and
/// its checksum, and fill the payload up to five bytes.
pub proof fn standard_segments_fill_the_payload(d: Seq<u8>, frame: XllFrame, q: int, i: int)
    requires
        0 <= i < frame.nframesegs,
    ensures
        standard_navi(d, frame, q) matches Ok((sizes, start)) ==> ({
            let table = frame.nframesegs * frame.seg_size_nbits;
            &&& sizes.len() == frame.nframesegs
            &&& sizes[i] == (field(d, 8 * (q / 8) + frame.seg_size_nbits * i, frame.seg_size_nbits as int)
                + 1) as u64
            &&& table <= 8 * (start - 2 - q / 8) < table + 8
            &&& start + total(sizes, sizes.len() as int) <= d.len()
            &&& d.len() <= start + total(sizes, sizes.len() as int) + 5
        }),
{
}

/// The segments of an alternate set stand behind a table whose checksum comes
/// out, and end at most twenty bytes before their boundary.
pub proof fn alternate_segments_end_near_their_boundary(
    d: Seq<u8>,
    g: AlternateGeometry,
    at: int,
    boundary: int,
    i: int,
)
    requires
        0 <= i < g.segments,
    ensures
        alternate_navi(d, g, at, boundary) matches Ok((sizes, start)) ==> ({
            let table = g.segments * g.navigation_size_bits;
            &&& sizes.len() == g.segments
            &&& sizes[i] == (field(d, 8 * at + g.navigation_size_bits * i, g.navigation_size_bits as int)
                + 1) as u64
            &&& table <= 8 * (start - 2 - at) < table + 8
            &&& crate::dca::crc::crc_of(d.subrange(at, start)) == 0
            &&& start + total(sizes, sizes.len() as int) <= boundary
            &&& boundary <= start + total(sizes, sizes.len() as int) + 20
        }),
{
}

/// A standard extension has four channels, none over the core, and a header at
/// its fixed place.
pub proof fn standard_sets_are_four_channels(d: Seq<u8>, t: XllTables, frame: XllFrame)
    ensures
        standard_set(d, t, frame) matches Ok((set, q)) ==> ({
            &&& set.head.nchannels == 4
            &&& set.head.residual_encode == 15
            &&& crate::dca::xll_header::channel_set(
                d,
                8 * d.len() as int,
                176,
                t,
                frame,
                crate::dca::xll_x::bare_mapping(),
                0,
            ) == Ok::<_, XllError>((set, q))
        }),
{
}

/// An alternate set has the channels that its header announced, none over the
/// core, and a header as long as announced, before its boundary.
pub proof fn alternate_sets_are_as_announced(
    d: Seq<u8>,
    t: XllTables,
    header: AlternateHeader,
    frame: XllFrame,
    boundary: int,
)
    ensures
        alternate_set(d, t, header, frame, boundary) matches Ok(set) ==> ({
            &&& set.head.nchannels == header.channels
            &&& set.head.residual_encode + 1 == crate::bits::code_space(header.channels as int)
            &&& header.offset + header.size <= boundary <= d.len()
            &&& crate::dca::xll_header::channel_set(
                d,
                8 * d.len() as int,
                8 * header.offset as int,
                t,
                frame,
                crate::dca::xll_header::ChsMappingSyntax::AlternatePrefix(2),
                0,
            ) == Ok::<_, XllError>((set, 8 * (header.offset + header.size)))
        }),
{
}

/// The channels of an alternate extension are those of its first set and then
/// those of its second, at one resolution, raised to 24 bits.
pub proof fn alternate_sets_follow_one_another(
    d: Seq<u8>,
    t: XllTables,
    l: AlternateLayout,
    first: (usize, Seq<Seq<i32>>, int),
    second: (usize, Seq<Seq<i32>>, int),
    ch: int,
    i: int,
)
    requires
        crate::dca::alternate::layout(d) == Ok::<_, XllError>(l),
        alternate_channel_set(
            d,
            t,
            l.first_header,
            l.first_geometry,
            l.second_header.offset as int,
        ) == Ok::<_, XllError>(first),
        alternate_channel_set(d, t, l.second_header, l.second_geometry, d.len() as int) == Ok::<
            _,
            XllError,
        >(second),
    ensures
        first.0 != second.0 ==> alternate_audio(d, t) is Err,
        first.0 == second.0 ==> ({
            &&& alternate_audio(d, t) matches Ok(audio)
            &&& audio.pcm_bit_res == first.0
            &&& audio.bits_consumed == second.2
            &&& audio.samples.len() == first.1.len() + second.1.len()
            &&& 0 <= ch < first.1.len() ==> audio.samples[ch] == crate::dca::xll_output::upshifted(
                first.1[ch],
                24 - first.0,
            )
            &&& 0 <= ch < second.1.len() ==> audio.samples[first.1.len() + ch]
                == crate::dca::xll_output::upshifted(second.1[ch], 24 - first.0)
        }),
{
}

} // verus!
