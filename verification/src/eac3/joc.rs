//! Joint object coding (JOC) payload: how each object is rebuilt from the
//! downmix channels.

use vstd::prelude::*;
use crate::bits::{field, flag, BitReader};
use crate::grammar::{lemma_repeat_err, parsed, planes, repeat, rows};
use super::fields::{missing, read_bit, read_bits};
use super::joc_tables::{huffman_table, table_of, HuffmanType};
use super::syncframe::ParseError;

verus! {

/// Mixing data of one active object, as transmitted.
#[derive(Debug, Clone, PartialEq, Eq)]
pub enum JocObjectData {
    /// One channel index and one coefficient per band, for each data point.
    Sparse { channel_indices: Vec<Vec<u8>>, vectors: Vec<Vec<u16>> },
    /// One coefficient per channel and band, for each data point.
    Dense { matrices: Vec<Vec<Vec<u16>>> },
}

#[derive(Debug, Clone, PartialEq, Eq)]
pub struct JocObject {
    pub active: bool,
    pub bands_index: Option<u8>,
    pub bands: usize,
    pub sparse_coded: bool,
    pub quantization_table: Option<u8>,
    pub steep_slope: bool,
    pub data_points: usize,
    pub timeslot_offsets: Vec<u8>,
    pub data: Option<JocObjectData>,
}

/// A parsed JOC payload. The payload gain is
/// `1 + gain_fraction / 32 * 2^(gain_power - 4)`.
#[derive(Debug, Clone, PartialEq, Eq)]
pub struct JocPayload {
    pub downmix_config: u8,
    pub channel_count: usize,
    pub object_count: usize,
    pub gain_power: u8,
    pub gain_fraction: u8,
    pub sequence_counter: u16,
    pub objects: Vec<JocObject>,
}

/// [`JocObjectData`] over sequences.
pub enum JocDataModel {
    Sparse { channel_indices: Seq<Seq<u8>>, vectors: Seq<Seq<u16>> },
    Dense { matrices: Seq<Seq<Seq<u16>>> },
}

/// [`JocObject`] over sequences.
pub struct JocObjectModel {
    pub active: bool,
    pub bands_index: Option<u8>,
    pub bands: usize,
    pub sparse_coded: bool,
    pub quantization_table: Option<u8>,
    pub steep_slope: bool,
    pub data_points: usize,
    pub timeslot_offsets: Seq<u8>,
    pub data: Option<JocDataModel>,
}

/// [`JocPayload`] over sequences.
pub struct JocPayloadModel {
    pub downmix_config: u8,
    pub channel_count: usize,
    pub object_count: usize,
    pub gain_power: u8,
    pub gain_fraction: u8,
    pub sequence_counter: u16,
    pub objects: Seq<JocObjectModel>,
}

impl View for JocObjectData {
    type V = JocDataModel;

    open spec fn view(&self) -> JocDataModel {
        match self {
            JocObjectData::Sparse { channel_indices, vectors } => JocDataModel::Sparse {
                channel_indices: rows(channel_indices@),
                vectors: rows(vectors@),
            },
            JocObjectData::Dense { matrices } => JocDataModel::Dense { matrices: planes(matrices@) },
        }
    }
}

impl View for JocObject {
    type V = JocObjectModel;

    open spec fn view(&self) -> JocObjectModel {
        JocObjectModel {
            active: self.active,
            bands_index: self.bands_index,
            bands: self.bands,
            sparse_coded: self.sparse_coded,
            quantization_table: self.quantization_table,
            steep_slope: self.steep_slope,
            data_points: self.data_points,
            timeslot_offsets: self.timeslot_offsets@,
            data: match self.data {
                Some(data) => Some(data@),
                None => None,
            },
        }
    }
}

/// The objects of a payload over sequences.
pub open spec fn models(objects: Seq<JocObject>) -> Seq<JocObjectModel> {
    Seq::new(objects.len(), |i: int| objects[i]@)
}

impl View for JocPayload {
    type V = JocPayloadModel;

    open spec fn view(&self) -> JocPayloadModel {
        JocPayloadModel {
            downmix_config: self.downmix_config,
            channel_count: self.channel_count,
            object_count: self.object_count,
            gain_power: self.gain_power,
            gain_fraction: self.gain_fraction,
            sequence_counter: self.sequence_counter,
            objects: models(self.objects@),
        }
    }
}

/// How many of the objects are active.
pub open spec fn active_count(objects: Seq<JocObject>) -> int
    decreases objects.len(),
{
    if objects.len() == 0 {
        0
    } else {
        active_count(objects.drop_last()) + if objects.last().active { 1int } else { 0int }
    }
}

impl JocPayload {
    pub fn active_object_count(&self) -> (r: usize)
        ensures
            r == active_count(self.objects@),
    {
        let mut count: usize = 0;
        let mut i: usize = 0;
        while i < self.objects.len()
            invariant
                i <= self.objects@.len(),
                count <= i,
                count == active_count(self.objects@.take(i as int)),
            decreases self.objects@.len() - i,
        {
            assert(self.objects@.take(i as int + 1).drop_last() =~= self.objects@.take(i as int));
            if self.objects[i].active {
                count = count + 1;
            }
            i = i + 1;
        }
        assert(self.objects@.take(i as int) =~= self.objects@);
        count
    }
}

/// The symbol of a leaf entry.
pub open spec fn leaf_symbol(entry: i16) -> u16 {
    if entry == 0 { 0xffff } else { (-1 - entry) as u16 }
}

/// Walk the tree from `node`, one bit per edge, to a leaf.
pub open spec fn symbol(table: Seq<[i16; 2]>, d: Seq<u8>, lim: int, p: int, node: int) -> Result<
    (u16, int),
    ParseError,
>
    decreases lim - p,
{
    if p + 1 > lim {
        missing("joc_huffman_bit")
    } else if node >= table.len() {
        missing("joc_huffman_node")
    } else {
        let entry = if flag(d, p) { table[node]@[1] } else { table[node]@[0] };
        if entry <= 0 {
            Ok((leaf_symbol(entry), p + 1))
        } else {
            symbol(table, d, lim, p + 1, entry as int)
        }
    }
}

fn huffman_decode(table: &[[i16; 2]], reader: &mut BitReader<'_>) -> (r: Result<u16, ParseError>)
    requires
        old(reader).wf(),
    ensures
        final(reader).wf(),
        final(reader).same_source(old(reader)),
        parsed(
            r,
            symbol(table@, old(reader).data(), old(reader).limit(), old(reader).pos(), 0),
            final(reader).pos(),
        ),
{
    let mut node: i16 = 0;
    loop
        invariant
            reader.wf(),
            reader.same_source(old(reader)),
            node >= 0,
            symbol(table@, old(reader).data(), old(reader).limit(), old(reader).pos(), 0)
                == symbol(table@, reader.data(), reader.limit(), reader.pos(), node as int),
        decreases reader.limit() - reader.pos(),
    {
        let bit: bool = read_bit(reader, "joc_huffman_bit")?;
        if node as usize >= table.len() {
            return Err(ParseError::InvalidHeader("joc_huffman_node"));
        }
        let children: [i16; 2] = table[node as usize];
        node = if bit { children[1] } else { children[0] };
        if node <= 0 {
            return Ok(if node == 0 { 0xffff } else { (-1 - node) as u16 });
        }
    }
}

/// One symbol per step, all from one table.
pub open spec fn symbol_step(table: Seq<[i16; 2]>, d: Seq<u8>, lim: int) -> spec_fn(
    int,
    int,
) -> Result<(u16, int), ParseError> {
    |i: int, q: int| symbol(table, d, lim, q, 0)
}

/// `n` symbols in a row.
pub open spec fn symbols(table: Seq<[i16; 2]>, d: Seq<u8>, lim: int, p: int, n: int) -> Result<
    (Seq<u16>, int),
    ParseError,
> {
    repeat(symbol_step(table, d, lim), p, n)
}

fn read_symbols(table: &[[i16; 2]], reader: &mut BitReader<'_>, n: usize) -> (r: Result<
    Vec<u16>,
    ParseError,
>)
    requires
        old(reader).wf(),
    ensures
        final(reader).wf(),
        final(reader).same_source(old(reader)),
        match r {
            Ok(v) => symbols(
                table@,
                old(reader).data(),
                old(reader).limit(),
                old(reader).pos(),
                n as int,
            ) == Ok::<(Seq<u16>, int), ParseError>((v@, final(reader).pos())),
            Err(e) => symbols(
                table@,
                old(reader).data(),
                old(reader).limit(),
                old(reader).pos(),
                n as int,
            ) == Err::<(Seq<u16>, int), ParseError>(e),
        },
{
    let ghost step = symbol_step(table@, reader.data(), reader.limit());
    let ghost p = reader.pos();
    let mut out: Vec<u16> = Vec::new();
    let mut i: usize = 0;
    while i < n
        invariant
            i <= n,
            reader.wf(),
            reader.same_source(old(reader)),
            step == symbol_step(table@, reader.data(), reader.limit()),
            p == old(reader).pos(),
            repeat(step, p, i as int) == Ok::<(Seq<u16>, int), ParseError>((out@, reader.pos())),
        decreases n - i,
    {
        let got = huffman_decode(table, reader);
        match got {
            Ok(v) => out.push(v),
            Err(e) => {
                proof {
                    lemma_repeat_err(step, p, i + 1, n as int);
                }
                return Err(e);
            },
        }
        i = i + 1;
    }
    Ok(out)
}

/// Frequency bands of each band-count code.
pub const JOC_NUM_BANDS: [usize; 8] = [1, 3, 5, 7, 9, 12, 15, 23];

/// An object without data.
pub open spec fn inactive_object() -> JocObjectModel {
    JocObjectModel {
        active: false,
        bands_index: None,
        bands: 0,
        sparse_coded: false,
        quantization_table: None,
        steep_slope: false,
        data_points: 0,
        timeslot_offsets: Seq::empty(),
        data: None,
    }
}

fn new_inactive_object() -> (r: JocObject)
    ensures
        r@ == inactive_object(),
{
    let r = JocObject {
        active: false,
        bands_index: None,
        bands: 0,
        sparse_coded: false,
        quantization_table: None,
        steep_slope: false,
        data_points: 0,
        timeslot_offsets: Vec::new(),
        data: None,
    };
    assert(r@.timeslot_offsets =~= Seq::<u8>::empty());
    r
}

pub open spec fn offset_step(d: Seq<u8>, lim: int) -> spec_fn(int, int) -> Result<
    (u8, int),
    ParseError,
> {
    |i: int, q: int|
        if q + 5 > lim {
            missing("joc_timeslot_offset")
        } else {
            Ok((((field(d, q, 5)) + 1) as u8, q + 5))
        }
}

/// Time slots at which the data points of a steep-slope object apply.
pub open spec fn timeslot_offsets(d: Seq<u8>, lim: int, p: int, steep: bool, points: int) -> Result<
    (Seq<u8>, int),
    ParseError,
> {
    if steep {
        repeat(offset_step(d, lim), p, points)
    } else {
        Ok((Seq::empty(), p))
    }
}

/// The header of one object. A payload that ends where an object would start
/// leaves that object inactive.
pub open spec fn object_header(d: Seq<u8>, lim: int, p: int) -> Result<
    (JocObjectModel, int),
    ParseError,
> {
    if p + 1 > lim {
        Ok((inactive_object(), p))
    } else if !flag(d, p) {
        Ok((inactive_object(), p + 1))
    } else if p + 4 > lim {
        missing("joc_num_bands_idx")
    } else if p + 5 > lim {
        missing("b_joc_sparse")
    } else if p + 6 > lim {
        missing("joc_num_quant_idx")
    } else if p + 7 > lim {
        missing("joc_slope_idx")
    } else if p + 8 > lim {
        missing("joc_num_dpoints")
    } else {
        let points = field(d, p + 7, 1) + 1;
        match timeslot_offsets(d, lim, p + 8, flag(d, p + 6), points) {
            Err(e) => Err(e),
            Ok((offsets, q)) => Ok(
                (
                    JocObjectModel {
                        active: true,
                        bands_index: Some(field(d, p + 1, 3) as u8),
                        bands: JOC_NUM_BANDS@[field(d, p + 1, 3)],
                        sparse_coded: flag(d, p + 4),
                        quantization_table: Some(if flag(d, p + 5) { 1u8 } else { 0u8 }),
                        steep_slope: flag(d, p + 6),
                        data_points: points as usize,
                        timeslot_offsets: offsets,
                        data: None,
                    },
                    q,
                ),
            ),
        }
    }
}

fn read_timeslot_offsets(reader: &mut BitReader<'_>, steep: bool, points: usize) -> (r: Result<
    Vec<u8>,
    ParseError,
>)
    requires
        old(reader).wf(),
    ensures
        final(reader).wf(),
        final(reader).same_source(old(reader)),
        match r {
            Ok(v) => timeslot_offsets(
                old(reader).data(),
                old(reader).limit(),
                old(reader).pos(),
                steep,
                points as int,
            ) == Ok::<(Seq<u8>, int), ParseError>((v@, final(reader).pos())),
            Err(e) => timeslot_offsets(
                old(reader).data(),
                old(reader).limit(),
                old(reader).pos(),
                steep,
                points as int,
            ) == Err::<(Seq<u8>, int), ParseError>(e),
        },
{
    let ghost step = offset_step(reader.data(), reader.limit());
    let ghost p = reader.pos();
    let mut out: Vec<u8> = Vec::new();
    if !steep {
        return Ok(out);
    }
    let mut i: usize = 0;
    while i < points
        invariant
            i <= points,
            reader.wf(),
            reader.same_source(old(reader)),
            step == offset_step(reader.data(), reader.limit()),
            p == old(reader).pos(),
            steep,
            repeat(step, p, i as int) == Ok::<(Seq<u8>, int), ParseError>((out@, reader.pos())),
        decreases points - i,
    {
        match read_bits(reader, 5, "joc_timeslot_offset") {
            Ok(v) => out.push((v + 1) as u8),
            Err(e) => {
                proof {
                    lemma_repeat_err(step, p, i + 1, points as int);
                }
                return Err(e);
            },
        }
        i = i + 1;
    }
    Ok(out)
}

fn parse_object_header(reader: &mut BitReader<'_>) -> (r: Result<JocObject, ParseError>)
    requires
        old(reader).wf(),
    ensures
        final(reader).wf(),
        final(reader).same_source(old(reader)),
        match r {
            Ok(v) => object_header(old(reader).data(), old(reader).limit(), old(reader).pos())
                == Ok::<(JocObjectModel, int), ParseError>((v@, final(reader).pos())),
            Err(e) => object_header(old(reader).data(), old(reader).limit(), old(reader).pos())
                == Err::<(JocObjectModel, int), ParseError>(e),
        },
{
    if !reader.bits_left(1) {
        return Ok(new_inactive_object());
    }
    let active: bool = read_bit(reader, "b_joc_obj_present")?;
    if !active {
        return Ok(new_inactive_object());
    }
    let bands_index: u8 = read_bits(reader, 3, "joc_num_bands_idx")? as u8;
    let bands: usize = JOC_NUM_BANDS[bands_index as usize];
    let sparse_coded: bool = read_bit(reader, "b_joc_sparse")?;
    let fine: bool = read_bit(reader, "joc_num_quant_idx")?;
    let quantization_table: u8 = if fine { 1 } else { 0 };
    let steep_slope: bool = read_bit(reader, "joc_slope_idx")?;
    let data_points: usize = read_bits(reader, 1, "joc_num_dpoints")? as usize + 1;
    let timeslot_offsets: Vec<u8> = read_timeslot_offsets(reader, steep_slope, data_points)?;
    Ok(
        JocObject {
            active,
            bands_index: Some(bands_index),
            bands,
            sparse_coded,
            quantization_table: Some(quantization_table),
            steep_slope,
            data_points,
            timeslot_offsets,
            data: None,
        },
    )
}

/// Symbols narrowed to a byte each.
pub open spec fn low_bytes(s: Seq<u16>) -> Seq<u8> {
    Seq::new(s.len(), |i: int| (s[i] % 256) as u8)
}

/// One data point of a sparse object: the channel of every band, then the
/// coefficient of every band.
pub open spec fn sparse_point(
    d: Seq<u8>,
    lim: int,
    p: int,
    bands: int,
    channels: int,
    quant: int,
) -> Result<((Seq<u8>, Seq<u16>), int), ParseError> {
    if p + 3 > lim {
        missing("joc_sparse_channel0")
    } else {
        match symbols(table_of(channels, HuffmanType::Index), d, lim, p + 3, bands - 1) {
            Err(e) => Err(e),
            Ok((tail, q)) => match symbols(table_of(quant, HuffmanType::Vector), d, lim, q, bands) {
                Err(e) => Err(e),
                Ok((vector, r)) => Ok(
                    ((seq![field(d, p, 3) as u8] + low_bytes(tail), vector), r),
                ),
            },
        }
    }
}

pub open spec fn sparse_step(
    d: Seq<u8>,
    lim: int,
    bands: int,
    channels: int,
    quant: int,
) -> spec_fn(int, int) -> Result<((Seq<u8>, Seq<u16>), int), ParseError> {
    |i: int, q: int| sparse_point(d, lim, q, bands, channels, quant)
}

pub open spec fn dense_row_step(d: Seq<u8>, lim: int, bands: int, quant: int) -> spec_fn(
    int,
    int,
) -> Result<(Seq<u16>, int), ParseError> {
    |i: int, q: int| symbols(table_of(quant, HuffmanType::Matrix), d, lim, q, bands)
}

/// One data point of a dense object: every band of every channel.
pub open spec fn dense_step(d: Seq<u8>, lim: int, bands: int, channels: int, quant: int) -> spec_fn(
    int,
    int,
) -> Result<(Seq<Seq<u16>>, int), ParseError> {
    |i: int, q: int| repeat(dense_row_step(d, lim, bands, quant), q, channels)
}

/// The channel runs of a list of sparse points.
pub open spec fn channels_of(points: Seq<(Seq<u8>, Seq<u16>)>) -> Seq<Seq<u8>> {
    Seq::new(points.len(), |i: int| points[i].0)
}

/// The coefficient runs of a list of sparse points.
pub open spec fn vectors_of(points: Seq<(Seq<u8>, Seq<u16>)>) -> Seq<Seq<u16>> {
    Seq::new(points.len(), |i: int| points[i].1)
}

/// The mixing data of an active object.
pub open spec fn object_data(
    d: Seq<u8>,
    lim: int,
    p: int,
    sparse: bool,
    points: int,
    bands: int,
    channels: int,
    quant: int,
) -> Result<(JocDataModel, int), ParseError> {
    if sparse {
        match repeat(sparse_step(d, lim, bands, channels, quant), p, points) {
            Err(e) => Err(e),
            Ok((items, q)) => Ok(
                (
                    JocDataModel::Sparse {
                        channel_indices: channels_of(items),
                        vectors: vectors_of(items),
                    },
                    q,
                ),
            ),
        }
    } else {
        match repeat(dense_step(d, lim, bands, channels, quant), p, points) {
            Err(e) => Err(e),
            Ok((items, q)) => Ok((JocDataModel::Dense { matrices: items }, q)),
        }
    }
}

fn parse_sparse_point(
    reader: &mut BitReader<'_>,
    bands: usize,
    channels: usize,
    quant: usize,
) -> (r: Result<(Vec<u8>, Vec<u16>), ParseError>)
    requires
        old(reader).wf(),
        bands >= 1,
    ensures
        final(reader).wf(),
        final(reader).same_source(old(reader)),
        match r {
            Ok((c, v)) => sparse_point(
                old(reader).data(),
                old(reader).limit(),
                old(reader).pos(),
                bands as int,
                channels as int,
                quant as int,
            ) == Ok::<((Seq<u8>, Seq<u16>), int), ParseError>(((c@, v@), final(reader).pos())),
            Err(e) => sparse_point(
                old(reader).data(),
                old(reader).limit(),
                old(reader).pos(),
                bands as int,
                channels as int,
                quant as int,
            ) == Err::<((Seq<u8>, Seq<u16>), int), ParseError>(e),
        },
{
    let mut run: Vec<u8> = Vec::new();
    let first: u32 = read_bits(reader, 3, "joc_sparse_channel0")?;
    run.push(first as u8);
    let ghost head = run@;
    let tail: Vec<u16> = read_symbols(huffman_table(channels, HuffmanType::Index), reader, bands - 1)?;
    let mut i: usize = 0;
    while i < tail.len()
        invariant
            i <= tail@.len(),
            run@ =~= head + low_bytes(tail@.take(i as int)),
        decreases tail@.len() - i,
    {
        run.push((tail[i] % 256) as u8);
        i = i + 1;
    }
    assert(tail@.take(i as int) =~= tail@);
    let vector: Vec<u16> = read_symbols(huffman_table(quant, HuffmanType::Vector), reader, bands)?;
    Ok((run, vector))
}

fn parse_sparse_data(
    reader: &mut BitReader<'_>,
    points: usize,
    bands: usize,
    channels: usize,
    quant: usize,
) -> (r: Result<JocObjectData, ParseError>)
    requires
        old(reader).wf(),
        bands >= 1,
    ensures
        final(reader).wf(),
        final(reader).same_source(old(reader)),
        match r {
            Ok(v) => object_data(
                old(reader).data(),
                old(reader).limit(),
                old(reader).pos(),
                true,
                points as int,
                bands as int,
                channels as int,
                quant as int,
            ) == Ok::<(JocDataModel, int), ParseError>((v@, final(reader).pos())),
            Err(e) => object_data(
                old(reader).data(),
                old(reader).limit(),
                old(reader).pos(),
                true,
                points as int,
                bands as int,
                channels as int,
                quant as int,
            ) == Err::<(JocDataModel, int), ParseError>(e),
        },
{
    let ghost step = sparse_step(
        reader.data(),
        reader.limit(),
        bands as int,
        channels as int,
        quant as int,
    );
    let ghost p = reader.pos();
    let ghost mut items: Seq<(Seq<u8>, Seq<u16>)> = Seq::empty();
    let mut channel_indices: Vec<Vec<u8>> = Vec::new();
    let mut vectors: Vec<Vec<u16>> = Vec::new();
    let mut i: usize = 0;
    while i < points
        invariant
            i <= points,
            bands >= 1,
            reader.wf(),
            reader.same_source(old(reader)),
            step == sparse_step(
                reader.data(),
                reader.limit(),
                bands as int,
                channels as int,
                quant as int,
            ),
            p == old(reader).pos(),
            repeat(step, p, i as int) == Ok::<(Seq<(Seq<u8>, Seq<u16>)>, int), ParseError>(
                (items, reader.pos()),
            ),
            rows(channel_indices@) =~= channels_of(items),
            rows(vectors@) =~= vectors_of(items),
        decreases points - i,
    {
        match parse_sparse_point(reader, bands, channels, quant) {
            Ok((run, vector)) => {
                let ghost before = (items, rows(channel_indices@), rows(vectors@));
                proof {
                    items = items.push((run@, vector@));
                }
                channel_indices.push(run);
                vectors.push(vector);
                assert(rows(channel_indices@) =~= before.1.push(run@));
                assert(rows(vectors@) =~= before.2.push(vector@));
                assert(channels_of(items) =~= channels_of(before.0).push(run@));
                assert(vectors_of(items) =~= vectors_of(before.0).push(vector@));
            },
            Err(e) => {
                proof {
                    lemma_repeat_err(step, p, i + 1, points as int);
                }
                return Err(e);
            },
        }
        i = i + 1;
    }
    Ok(JocObjectData::Sparse { channel_indices, vectors })
}

fn parse_dense_point(
    reader: &mut BitReader<'_>,
    bands: usize,
    channels: usize,
    quant: usize,
) -> (r: Result<Vec<Vec<u16>>, ParseError>)
    requires
        old(reader).wf(),
    ensures
        final(reader).wf(),
        final(reader).same_source(old(reader)),
        match r {
            Ok(v) => repeat(
                dense_row_step(old(reader).data(), old(reader).limit(), bands as int, quant as int),
                old(reader).pos(),
                channels as int,
            ) == Ok::<(Seq<Seq<u16>>, int), ParseError>((rows(v@), final(reader).pos())),
            Err(e) => repeat(
                dense_row_step(old(reader).data(), old(reader).limit(), bands as int, quant as int),
                old(reader).pos(),
                channels as int,
            ) == Err::<(Seq<Seq<u16>>, int), ParseError>(e),
        },
{
    let ghost step = dense_row_step(reader.data(), reader.limit(), bands as int, quant as int);
    let ghost p = reader.pos();
    let mut point: Vec<Vec<u16>> = Vec::new();
    assert(rows(point@) =~= Seq::empty());
    let mut i: usize = 0;
    while i < channels
        invariant
            i <= channels,
            reader.wf(),
            reader.same_source(old(reader)),
            step == dense_row_step(reader.data(), reader.limit(), bands as int, quant as int),
            p == old(reader).pos(),
            repeat(step, p, i as int) == Ok::<(Seq<Seq<u16>>, int), ParseError>(
                (rows(point@), reader.pos()),
            ),
        decreases channels - i,
    {
        match read_symbols(huffman_table(quant, HuffmanType::Matrix), reader, bands) {
            Ok(row) => {
                let ghost before = rows(point@);
                point.push(row);
                assert(rows(point@) =~= before.push(row@));
            },
            Err(e) => {
                proof {
                    lemma_repeat_err(step, p, i + 1, channels as int);
                }
                return Err(e);
            },
        }
        i = i + 1;
    }
    Ok(point)
}

fn parse_dense_data(
    reader: &mut BitReader<'_>,
    points: usize,
    bands: usize,
    channels: usize,
    quant: usize,
) -> (r: Result<JocObjectData, ParseError>)
    requires
        old(reader).wf(),
    ensures
        final(reader).wf(),
        final(reader).same_source(old(reader)),
        match r {
            Ok(v) => object_data(
                old(reader).data(),
                old(reader).limit(),
                old(reader).pos(),
                false,
                points as int,
                bands as int,
                channels as int,
                quant as int,
            ) == Ok::<(JocDataModel, int), ParseError>((v@, final(reader).pos())),
            Err(e) => object_data(
                old(reader).data(),
                old(reader).limit(),
                old(reader).pos(),
                false,
                points as int,
                bands as int,
                channels as int,
                quant as int,
            ) == Err::<(JocDataModel, int), ParseError>(e),
        },
{
    let ghost step = dense_step(
        reader.data(),
        reader.limit(),
        bands as int,
        channels as int,
        quant as int,
    );
    let ghost p = reader.pos();
    let mut matrices: Vec<Vec<Vec<u16>>> = Vec::new();
    assert(planes(matrices@) =~= Seq::empty());
    let mut i: usize = 0;
    while i < points
        invariant
            i <= points,
            reader.wf(),
            reader.same_source(old(reader)),
            step == dense_step(
                reader.data(),
                reader.limit(),
                bands as int,
                channels as int,
                quant as int,
            ),
            p == old(reader).pos(),
            repeat(step, p, i as int) == Ok::<(Seq<Seq<Seq<u16>>>, int), ParseError>(
                (planes(matrices@), reader.pos()),
            ),
        decreases points - i,
    {
        match parse_dense_point(reader, bands, channels, quant) {
            Ok(point) => {
                let ghost before = planes(matrices@);
                matrices.push(point);
                assert(planes(matrices@) =~= before.push(rows(point@)));
            },
            Err(e) => {
                proof {
                    lemma_repeat_err(step, p, i + 1, points as int);
                }
                return Err(e);
            },
        }
        i = i + 1;
    }
    Ok(JocObjectData::Dense { matrices })
}

pub open spec fn header_step(d: Seq<u8>, lim: int) -> spec_fn(int, int) -> Result<
    (JocObjectModel, int),
    ParseError,
> {
    |i: int, q: int| object_header(d, lim, q)
}

/// An object with its data filled in, unless it is inactive.
pub open spec fn filled(
    object: JocObjectModel,
    d: Seq<u8>,
    lim: int,
    p: int,
    channels: int,
) -> Result<(JocObjectModel, int), ParseError> {
    if !object.active {
        Ok((object, p))
    } else {
        match object.quantization_table {
            None => missing("joc_num_quant_idx"),
            Some(quant) => match object_data(
                d,
                lim,
                p,
                object.sparse_coded,
                object.data_points as int,
                object.bands as int,
                channels,
                quant as int,
            ) {
                Err(e) => Err(e),
                Ok((data, q)) => Ok((JocObjectModel { data: Some(data), ..object }, q)),
            },
        }
    }
}

pub open spec fn data_step(
    headers: Seq<JocObjectModel>,
    d: Seq<u8>,
    lim: int,
    channels: int,
) -> spec_fn(int, int) -> Result<(JocObjectModel, int), ParseError> {
    |i: int, q: int| filled(headers[i], d, lim, q, channels)
}

fn fill_object(reader: &mut BitReader<'_>, object: &mut JocObject, channels: usize) -> (r: Result<
    (),
    ParseError,
>)
    requires
        old(reader).wf(),
        old(object).active ==> old(object).bands >= 1,
    ensures
        final(reader).wf(),
        final(reader).same_source(old(reader)),
        match r {
            Ok(_) => filled(
                old(object)@,
                old(reader).data(),
                old(reader).limit(),
                old(reader).pos(),
                channels as int,
            ) == Ok::<(JocObjectModel, int), ParseError>((final(object)@, final(reader).pos())),
            Err(e) => filled(
                old(object)@,
                old(reader).data(),
                old(reader).limit(),
                old(reader).pos(),
                channels as int,
            ) == Err::<(JocObjectModel, int), ParseError>(e),
        },
{
    if object.active {
        let quant: u8 = match object.quantization_table {
            Some(v) => v,
            None => {
                return Err(ParseError::InvalidHeader("joc_num_quant_idx"));
            },
        };
        let data: JocObjectData = if object.sparse_coded {
            parse_sparse_data(reader, object.data_points, object.bands, channels, quant as usize)?
        } else {
            parse_dense_data(reader, object.data_points, object.bands, channels, quant as usize)?
        };
        object.data = Some(data);
    }
    Ok(())
}

/// Downmix channels of a downmix configuration.
pub open spec fn downmix_channels(config: int) -> int {
    if config == 0 || config == 3 { 5 } else { 7 }
}

/// The whole payload: header, then every object's header, then every active
/// object's data.
pub open spec fn joc_payload(d: Seq<u8>, lim: int, p: int) -> Result<
    (JocPayloadModel, int),
    ParseError,
> {
    if p + 3 > lim {
        missing("joc_dmx_config_idx")
    } else if field(d, p, 3) > 4 {
        Err(ParseError::UnsupportedFeature("joc_dmx_config_idx"))
    } else if p + 9 > lim {
        missing("joc_num_objects")
    } else if p + 12 > lim {
        missing("joc_ext_config_idx")
    } else if field(d, p + 9, 3) != 0 {
        Err(ParseError::UnsupportedFeature("joc_ext_config_idx"))
    } else if p + 15 > lim {
        missing("joc_gain_power")
    } else if p + 20 > lim {
        missing("joc_gain_fraction")
    } else if p + 30 > lim {
        missing("joc_sequence_counter")
    } else {
        let channels = downmix_channels(field(d, p, 3));
        let count = field(d, p + 3, 6) + 1;
        match repeat(header_step(d, lim), p + 30, count) {
            Err(e) => Err(e),
            Ok((headers, q)) => match repeat(data_step(headers, d, lim, channels), q, count) {
                Err(e) => Err(e),
                Ok((objects, r)) => Ok(
                    (
                        JocPayloadModel {
                            downmix_config: field(d, p, 3) as u8,
                            channel_count: channels as usize,
                            object_count: count as usize,
                            gain_power: field(d, p + 12, 3) as u8,
                            gain_fraction: field(d, p + 15, 5) as u8,
                            sequence_counter: field(d, p + 20, 10) as u16,
                            objects,
                        },
                        r,
                    ),
                ),
            },
        }
    }
}

fn parse_object_headers(reader: &mut BitReader<'_>, count: usize) -> (r: Result<
    Vec<JocObject>,
    ParseError,
>)
    requires
        old(reader).wf(),
    ensures
        final(reader).wf(),
        final(reader).same_source(old(reader)),
        match r {
            Ok(v) => repeat(
                header_step(old(reader).data(), old(reader).limit()),
                old(reader).pos(),
                count as int,
            ) == Ok::<(Seq<JocObjectModel>, int), ParseError>((models(v@), final(reader).pos())),
            Err(e) => repeat(
                header_step(old(reader).data(), old(reader).limit()),
                old(reader).pos(),
                count as int,
            ) == Err::<(Seq<JocObjectModel>, int), ParseError>(e),
        },
        r matches Ok(v) ==> v@.len() == count && forall|i: int|
            0 <= i < count ==> (#[trigger] v@[i]).active ==> v@[i].bands >= 1,
{
    let ghost step = header_step(reader.data(), reader.limit());
    let ghost p = reader.pos();
    let mut objects: Vec<JocObject> = Vec::new();
    assert(models(objects@) =~= Seq::empty());
    let mut i: usize = 0;
    while i < count
        invariant
            i <= count,
            reader.wf(),
            reader.same_source(old(reader)),
            step == header_step(reader.data(), reader.limit()),
            p == old(reader).pos(),
            repeat(step, p, i as int) == Ok::<(Seq<JocObjectModel>, int), ParseError>(
                (models(objects@), reader.pos()),
            ),
            objects@.len() == i,
            forall|k: int| 0 <= k < i ==> (#[trigger] objects@[k]).active ==> objects@[k].bands >= 1,
        decreases count - i,
    {
        let ghost here = reader.pos();
        match parse_object_header(reader) {
            Ok(object) => {
                let ghost before = models(objects@);
                proof {
                    if object.active {
                        crate::bits::lemma_field_range(reader.data(), here + 1, 3);
                    }
                }
                objects.push(object);
                assert(models(objects@) =~= before.push(object@));
            },
            Err(e) => {
                proof {
                    lemma_repeat_err(step, p, i + 1, count as int);
                }
                return Err(e);
            },
        }
        i = i + 1;
    }
    Ok(objects)
}

fn parse_objects_data(
    reader: &mut BitReader<'_>,
    objects: &mut Vec<JocObject>,
    channels: usize,
) -> (r: Result<(), ParseError>)
    requires
        old(reader).wf(),
        forall|i: int|
            0 <= i < old(objects)@.len() ==> (#[trigger] old(objects)@[i]).active ==> old(
                objects,
            )@[i].bands >= 1,
    ensures
        final(reader).wf(),
        final(reader).same_source(old(reader)),
        match r {
            Ok(_) => repeat(
                data_step(
                    models(old(objects)@),
                    old(reader).data(),
                    old(reader).limit(),
                    channels as int,
                ),
                old(reader).pos(),
                old(objects)@.len() as int,
            ) == Ok::<(Seq<JocObjectModel>, int), ParseError>(
                (models(final(objects)@), final(reader).pos()),
            ),
            Err(e) => repeat(
                data_step(
                    models(old(objects)@),
                    old(reader).data(),
                    old(reader).limit(),
                    channels as int,
                ),
                old(reader).pos(),
                old(objects)@.len() as int,
            ) == Err::<(Seq<JocObjectModel>, int), ParseError>(e),
        },
{
    let ghost headers = models(objects@);
    let ghost step = data_step(headers, reader.data(), reader.limit(), channels as int);
    let ghost p = reader.pos();
    let count: usize = objects.len();
    assert(models(objects@).take(0) =~= Seq::empty());
    let mut i: usize = 0;
    while i < count
        invariant
            i <= count,
            objects@.len() == count,
            headers == models(old(objects)@),
            headers.len() == count,
            reader.wf(),
            reader.same_source(old(reader)),
            step == data_step(headers, reader.data(), reader.limit(), channels as int),
            p == old(reader).pos(),
            repeat(step, p, i as int) == Ok::<(Seq<JocObjectModel>, int), ParseError>(
                (models(objects@).take(i as int), reader.pos()),
            ),
            forall|k: int| i <= k < count ==> (#[trigger] models(objects@)[k]) == headers[k],
            forall|k: int|
                i <= k < count ==> (#[trigger] objects@[k]).active ==> objects@[k].bands >= 1,
        decreases count - i,
    {
        let ghost before = models(objects@);
        assert(before[i as int] == headers[i as int]);
        assert(objects@[i as int].active ==> objects@[i as int].bands >= 1);
        let ghost olds = objects@;
        match fill_object(reader, &mut objects[i], channels) {
            Ok(_) => {},
            Err(e) => {
                proof {
                    lemma_repeat_err(step, p, i + 1, count as int);
                }
                return Err(e);
            },
        }
        proof {
            let after = models(objects@);
            assert(after.take(i + 1) =~= before.take(i as int).push(after[i as int]));
            assert forall|k: int| i + 1 <= k < count implies #[trigger] after[k] == headers[k] by {
                assert(before[k] == headers[k]);
                assert(objects@[k] == olds[k]);
            }
        }
        i = i + 1;
    }
    assert(models(objects@).take(count as int) =~= models(objects@));
    Ok(())
}

/// Parse a JOC payload.
pub fn parse_joc_payload(reader: &mut BitReader<'_>) -> (r: Result<JocPayload, ParseError>)
    requires
        old(reader).wf(),
    ensures
        final(reader).wf(),
        final(reader).same_source(old(reader)),
        match r {
            Ok(v) => joc_payload(old(reader).data(), old(reader).limit(), old(reader).pos())
                == Ok::<(JocPayloadModel, int), ParseError>((v@, final(reader).pos())),
            Err(e) => joc_payload(old(reader).data(), old(reader).limit(), old(reader).pos())
                == Err::<(JocPayloadModel, int), ParseError>(e),
        },
{
    let downmix_config: u8 = read_bits(reader, 3, "joc_dmx_config_idx")? as u8;
    if downmix_config > 4 {
        return Err(ParseError::UnsupportedFeature("joc_dmx_config_idx"));
    }
    let channel_count: usize = if downmix_config == 0 || downmix_config == 3 { 5 } else { 7 };
    let object_count: usize = read_bits(reader, 6, "joc_num_objects")? as usize + 1;
    if read_bits(reader, 3, "joc_ext_config_idx")? != 0 {
        return Err(ParseError::UnsupportedFeature("joc_ext_config_idx"));
    }
    let gain_power: u8 = read_bits(reader, 3, "joc_gain_power")? as u8;
    let gain_fraction: u8 = read_bits(reader, 5, "joc_gain_fraction")? as u8;
    let sequence_counter: u16 = read_bits(reader, 10, "joc_sequence_counter")? as u16;
    let mut objects: Vec<JocObject> = parse_object_headers(reader, object_count)?;
    parse_objects_data(reader, &mut objects, channel_count)?;
    Ok(
        JocPayload {
            downmix_config,
            channel_count,
            object_count,
            gain_power,
            gain_fraction,
            sequence_counter,
            objects,
        },
    )
}

} // verus!
