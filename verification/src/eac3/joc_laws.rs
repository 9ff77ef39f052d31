//! What a joint object coding payload holds of what was coded.

use vstd::prelude::*;
use crate::bits::{field, flag};
use crate::grammar::{items_are_read_in_turn, lemma_repeat_len, repeat};
use crate::eac3::joc::{
    dense_row_step, dense_step, downmix_channels, filled, joc_payload, low_bytes,
    object_data, object_header, sparse_point, sparse_step, symbol, symbol_step, symbols,
    timeslot_offsets, JocDataModel, JocObjectModel, JOC_NUM_BANDS,
};
use crate::eac3::joc_tables::{table_of, HuffmanType};
use crate::eac3::syncframe::ParseError;

verus! {

/// Node of a tree that the edges `path` lead to from `node`.
pub open spec fn arrived(table: Seq<[i16; 2]>, node: int, path: Seq<bool>) -> int
    decreases path.len(),
{
    if path.len() == 0 {
        node
    } else {
        let from = arrived(table, node, path.drop_last());
        if path.last() { table[from]@[1] as int } else { table[from]@[0] as int }
    }
}

/// The edges `path` lead through inner nodes alone, and the last of them to a
/// leaf.
pub open spec fn is_code(table: Seq<[i16; 2]>, node: int, path: Seq<bool>) -> bool {
    &&& path.len() > 0
    &&& 0 <= node < table.len()
    &&& forall|k: int|
        0 < k < path.len() ==> 0 < #[trigger] arrived(table, node, path.take(k)) < table.len()
    &&& arrived(table, node, path) <= 0
}

proof fn lemma_arrived_step(table: Seq<[i16; 2]>, node: int, path: Seq<bool>)
    requires
        path.len() > 0,
    ensures
        arrived(table, node, path) == arrived(
            table,
            if path[0] { table[node]@[1] as int } else { table[node]@[0] as int },
            path.skip(1),
        ),
    decreases path.len(),
{
    reveal_with_fuel(arrived, 2);
    if path.len() == 1 {
        assert(path.drop_last() =~= Seq::<bool>::empty());
        assert(path.skip(1) =~= Seq::<bool>::empty());
    } else {
        lemma_arrived_step(table, node, path.drop_last());
        assert(path.drop_last().skip(1) =~= path.skip(1).drop_last());
    }
}

/// A code word leads to its leaf, whose symbol is one less than its entry's
/// opposite; the next symbol starts after the word.
pub proof fn code_words_lead_to_their_leaves(
    table: Seq<[i16; 2]>,
    d: Seq<u8>,
    lim: int,
    p: int,
    node: int,
    path: Seq<bool>,
    value: int,
)
    requires
        is_code(table, node, path),
        forall|k: int| 0 <= k < path.len() ==> #[trigger] path[k] == flag(d, p + k),
        p + path.len() <= lim,
        0 <= value < 0x7fff,
        arrived(table, node, path) == -1 - value,
    ensures
        symbol(table, d, lim, p, node) == Ok::<_, ParseError>((value as u16, p + path.len())),
    decreases path.len(),
{
    lemma_arrived_step(table, node, path);
    let next = if path[0] { table[node]@[1] as int } else { table[node]@[0] as int };
    assert(path[0] == flag(d, p + 0));
    if path.len() == 1 {
        assert(path.skip(1) =~= Seq::<bool>::empty());
        assert(next == -1 - value);
    } else {
        let rest = path.skip(1);
        assert(path.take(1).skip(1) =~= Seq::<bool>::empty());
        lemma_arrived_step(table, node, path.take(1));
        assert(0 < arrived(table, node, path.take(1)) < table.len());
        assert(path.take(1)[0] == path[0]);
        assert(next == arrived(table, node, path.take(1)));
        assert forall|k: int| 0 < k < rest.len() implies 0 < #[trigger] arrived(
            table,
            next,
            rest.take(k),
        ) < table.len() by {
            lemma_arrived_step(table, node, path.take(k + 1));
            assert(path.take(k + 1).skip(1) =~= rest.take(k));
            assert(path.take(k + 1)[0] == path[0]);
            assert(0 < arrived(table, node, path.take(k + 1)) < table.len());
        }
        assert forall|k: int| 0 <= k < rest.len() implies #[trigger] rest[k] == flag(
            d,
            p + 1 + k,
        ) by {
            assert(path[k + 1] == flag(d, p + (k + 1)));
        }
        code_words_lead_to_their_leaves(table, d, lim, p + 1, next, rest, value);
    }
}

/// A sparse point names the channel of its first band in three bits and that of
/// every other by one symbol each, in the order of the bands, and then weighs
/// every band.
pub proof fn sparse_points_follow_the_bands(
    d: Seq<u8>,
    lim: int,
    p: int,
    bands: int,
    channels: int,
    quant: int,
    tail: Seq<u16>,
    q: int,
    vector: Seq<u16>,
    r: int,
)
    requires
        1 <= bands,
        p + 3 <= lim,
        symbols(table_of(channels, HuffmanType::Index), d, lim, p + 3, bands - 1) == Ok::<
            _,
            ParseError,
        >((tail, q)),
        symbols(table_of(quant, HuffmanType::Vector), d, lim, q, bands) == Ok::<_, ParseError>(
            (vector, r),
        ),
    ensures
        ({
            &&& sparse_point(d, lim, p, bands, channels, quant) matches Ok(((index, weight), end))
            &&& index.len() == bands
            &&& weight.len() == bands
            &&& end == r
            &&& index[0] == field(d, p, 3) % 256
            &&& forall|b: int| 1 <= b < bands ==> #[trigger] index[b] == tail[b - 1] % 256
            &&& forall|b: int| 0 <= b < bands ==> #[trigger] weight[b] == vector[b]
        }),
{
    lemma_repeat_len(symbol_step(table_of(channels, HuffmanType::Index), d, lim), p + 3, bands - 1);
    lemma_repeat_len(symbol_step(table_of(quant, HuffmanType::Vector), d, lim), q, bands);
    crate::bits::lemma_field_range(d, p, 3);
    let index = seq![field(d, p, 3) as u8] + low_bytes(tail);
    assert forall|b: int| 1 <= b < bands implies #[trigger] index[b] == tail[b - 1] % 256 by {
        assert(index[b] == low_bytes(tail)[b - 1]);
    }
}

/// The first of a run of symbols is the one at its start, and the others follow
/// it.
pub proof fn runs_start_with_their_first_symbol(
    table: Seq<[i16; 2]>,
    d: Seq<u8>,
    lim: int,
    p: int,
    n: int,
    first: u16,
    q: int,
    rest: Seq<u16>,
    r: int,
)
    requires
        1 <= n,
        symbol(table, d, lim, p, 0) == Ok::<_, ParseError>((first, q)),
        symbols(table, d, lim, q, n - 1) == Ok::<_, ParseError>((rest, r)),
    ensures
        symbols(table, d, lim, p, n) == Ok::<_, ParseError>((seq![first] + rest, r)),
    decreases n,
{
    let step = symbol_step(table, d, lim);
    reveal_with_fuel(repeat, 2);
    if n == 1 {
        assert(step(0, p) == symbol(table, d, lim, p, 0));
        assert(repeat(step, p, 0) == Ok::<_, ParseError>((Seq::<u16>::empty(), p)));
        assert(Seq::<u16>::empty().push(first) =~= seq![first] + rest);
    } else {
        let (less, w) = repeat(step, q, n - 2)->Ok_0;
        assert(repeat(step, q, n - 2) is Ok);
        runs_start_with_their_first_symbol(table, d, lim, p, n - 1, first, q, less, w);
        assert(step(n - 1, w) == step(n - 2, w));
        assert(seq![first] + rest =~= (seq![first] + less).push(rest.last()));
    }
}

/// A dense point holds, channel by channel, a run of one symbol per band.
pub proof fn dense_points_follow_the_channels(
    d: Seq<u8>,
    lim: int,
    p: int,
    bands: int,
    channels: int,
    quant: int,
    places: Seq<int>,
    matrix: Seq<Seq<u16>>,
)
    requires
        0 <= channels,
        places.len() == channels + 1,
        places[0] == p,
        matrix.len() == channels,
        forall|c: int|
            0 <= c < channels ==> symbols(
                table_of(quant, HuffmanType::Matrix),
                d,
                lim,
                #[trigger] places[c],
                bands,
            ) == Ok::<_, ParseError>((matrix[c], places[c + 1])),
    ensures
        repeat(dense_row_step(d, lim, bands, quant), p, channels) == Ok::<_, ParseError>(
            (matrix, places[channels]),
        ),
    decreases channels,
{
    let step = dense_row_step(d, lim, bands, quant);
    if channels > 0 {
        dense_points_follow_the_channels(
            d,
            lim,
            p,
            bands,
            channels - 1,
            quant,
            places.drop_last(),
            matrix.drop_last(),
        );
        assert(step(channels - 1, places[channels - 1]) == Ok::<_, ParseError>(
            (matrix[channels - 1], places[channels - 1 + 1]),
        ));
        assert(matrix.drop_last().push(matrix.last()) =~= matrix);
    } else {
        assert(matrix =~= Seq::<Seq<u16>>::empty());
    }
}

/// An object of two sparse points has the first point's channels and weights
/// before the second's, which stands behind it; an object of one has that.
pub proof fn sparse_objects_keep_their_points(
    d: Seq<u8>,
    lim: int,
    p: int,
    bands: int,
    channels: int,
    quant: int,
    one: (Seq<u8>, Seq<u16>),
    q: int,
    two: (Seq<u8>, Seq<u16>),
    r: int,
)
    requires
        sparse_point(d, lim, p, bands, channels, quant) == Ok::<_, ParseError>((one, q)),
        sparse_point(d, lim, q, bands, channels, quant) == Ok::<_, ParseError>((two, r)),
    ensures
        object_data(d, lim, p, true, 1, bands, channels, quant) == Ok::<_, ParseError>(
            (
                JocDataModel::Sparse { channel_indices: seq![one.0], vectors: seq![one.1] },
                q,
            ),
        ),
        object_data(d, lim, p, true, 2, bands, channels, quant) == Ok::<_, ParseError>(
            (
                JocDataModel::Sparse {
                    channel_indices: seq![one.0, two.0],
                    vectors: seq![one.1, two.1],
                },
                r,
            ),
        ),
{
    let step = sparse_step(d, lim, bands, channels, quant);
    reveal_with_fuel(repeat, 3);
    assert(step(0, p) == Ok::<_, ParseError>((one, q)));
    assert(step(1, q) == Ok::<_, ParseError>((two, r)));
    let items1 = Seq::<(Seq<u8>, Seq<u16>)>::empty().push(one);
    let items2 = items1.push(two);
    assert(repeat(step, p, 1) == Ok::<_, ParseError>((items1, q)));
    assert(repeat(step, p, 2) == Ok::<_, ParseError>((items2, r)));
    assert(crate::eac3::joc::channels_of(items1) =~= seq![one.0]);
    assert(crate::eac3::joc::vectors_of(items1) =~= seq![one.1]);
    assert(crate::eac3::joc::channels_of(items2) =~= seq![one.0, two.0]);
    assert(crate::eac3::joc::vectors_of(items2) =~= seq![one.1, two.1]);
}

/// An active object's header comes back field by field; one bit is all there
/// is of an inactive one.
pub proof fn object_headers_come_back(
    d: Seq<u8>,
    lim: int,
    p: int,
    bands_index: int,
    sparse: bool,
    fine: bool,
    two: bool,
)
    requires
        p + 8 <= lim,
        flag(d, p),
        field(d, p + 1, 3) == bands_index,
        flag(d, p + 4) == sparse,
        flag(d, p + 5) == fine,
        !flag(d, p + 6),
        flag(d, p + 7) == two,
    ensures
        object_header(d, lim, p) == Ok::<_, ParseError>(
            (
                JocObjectModel {
                    active: true,
                    bands_index: Some(bands_index as u8),
                    bands: JOC_NUM_BANDS@[bands_index],
                    sparse_coded: sparse,
                    quantization_table: Some(if fine { 1u8 } else { 0u8 }),
                    steep_slope: false,
                    data_points: if two { 2 } else { 1 },
                    timeslot_offsets: Seq::empty(),
                    data: None,
                },
                p + 8,
            ),
        ),
{
    lemma_one_bit(d, p + 7);
}

proof fn lemma_one_bit(d: Seq<u8>, p: int)
    ensures
        field(d, p, 1) == if flag(d, p) { 1int } else { 0int },
{
    reveal_with_fuel(field, 2);
    crate::bits::lemma_field_range(d, p, 1);
}

/// A steep object of two points tells in five bits each, from one on, when
/// they apply.
pub proof fn steep_objects_tell_when(d: Seq<u8>, lim: int, p: int, points: int, i: int)
    requires
        p + 5 * points <= lim,
        0 <= i < points <= 2,
    ensures
        timeslot_offsets(d, lim, p, true, points) is Ok,
        timeslot_offsets(d, lim, p, true, points)->Ok_0.1 == p + 5 * points,
        timeslot_offsets(d, lim, p, true, points)->Ok_0.0.len() == points,
        timeslot_offsets(d, lim, p, true, points)->Ok_0.0[i] == field(d, p + 5 * i, 5) + 1,
        timeslot_offsets(d, lim, p, false, points) == Ok::<_, ParseError>((Seq::<u8>::empty(), p)),
{
    reveal_with_fuel(repeat, 3);
    crate::bits::lemma_field_range(d, p, 5);
    crate::bits::lemma_field_range(d, p + 5, 5);
}

/// A band index of more bands splits the spectrum no coarser.
pub proof fn band_counts_grow(i: int, j: int)
    requires
        0 <= i < j < 8,
    ensures
        JOC_NUM_BANDS@[i] < JOC_NUM_BANDS@[j],
        JOC_NUM_BANDS@[0] == 1,
        JOC_NUM_BANDS@[7] == 23,
{
}

/// Downmixes of five channels are the first and the fourth; the others have
/// seven.
pub proof fn downmixes_have_five_or_seven(config: int)
    requires
        0 <= config <= 4,
    ensures
        downmix_channels(config) == 5 <==> config == 0 || config == 3,
        downmix_channels(config) == 7 <==> config == 1 || config == 2 || config == 4,
{
}

/// A payload's header comes back field by field.
pub proof fn payload_headers_come_back(
    d: Seq<u8>,
    lim: int,
    p: int,
    config: int,
    count: int,
    power: int,
    fraction: int,
    counter: int,
)
    requires
        joc_payload(d, lim, p) is Ok,
        field(d, p, 3) == config,
        field(d, p + 3, 6) == count - 1,
        field(d, p + 12, 3) == power,
        field(d, p + 15, 5) == fraction,
        field(d, p + 20, 10) == counter,
    ensures
        ({
            let out = joc_payload(d, lim, p)->Ok_0.0;
            &&& field(d, p + 9, 3) == 0
            &&& config <= 4
            &&& out.downmix_config == config
            &&& out.channel_count == downmix_channels(config)
            &&& out.object_count == count == out.objects.len()
            &&& out.gain_power == power
            &&& out.gain_fraction == fraction
            &&& out.sequence_counter == counter
        }),
{
    crate::bits::lemma_field_range(d, p, 3);
    crate::bits::lemma_field_range(d, p + 3, 6);
    crate::bits::lemma_field_range(d, p + 12, 3);
    crate::bits::lemma_field_range(d, p + 15, 5);
    crate::bits::lemma_field_range(d, p + 20, 10);
    let channels = downmix_channels(config);
    let (headers, q) = repeat(crate::eac3::joc::header_step(d, lim), p + 30, count)->Ok_0;
    lemma_repeat_len(crate::eac3::joc::data_step(headers, d, lim, channels), q, count);
}

/// An inactive object takes no bits, and an active one keeps its header and gets
/// the data that it announced.
pub proof fn objects_get_the_data_they_announced(
    object: JocObjectModel,
    d: Seq<u8>,
    lim: int,
    p: int,
    channels: int,
)
    ensures
        !object.active ==> filled(object, d, lim, p, channels) == Ok::<_, ParseError>((object, p)),
        object.active ==> (filled(object, d, lim, p, channels) matches Ok((out, q)) ==> ({
            &&& out.active
            &&& out.bands == object.bands
            &&& out.data_points == object.data_points
            &&& out.timeslot_offsets == object.timeslot_offsets
            &&& object.quantization_table matches Some(quant)
            &&& out.quantization_table == object.quantization_table
            &&& out.data matches Some(data)
            &&& object_data(
                d,
                lim,
                p,
                object.sparse_coded,
                object.data_points as int,
                object.bands as int,
                channels,
                quant as int,
            ) == Ok::<_, ParseError>((data, q))
            &&& object.sparse_coded <==> data is Sparse
        })),
{
}

/// Dense data is a matrix for each point, of a row for each channel.
pub proof fn dense_objects_have_a_matrix_per_point(
    d: Seq<u8>,
    lim: int,
    points: int,
    bands: int,
    channels: int,
    quant: int,
    places: Seq<int>,
    matrices: Seq<Seq<Seq<u16>>>,
)
    requires
        0 <= points == matrices.len(),
        places.len() == points + 1,
        forall|i: int|
            0 <= i < points ==> repeat(
                dense_row_step(d, lim, bands, quant),
                #[trigger] places[i],
                channels,
            ) == Ok::<_, ParseError>((matrices[i], places[i + 1])),
    ensures
        object_data(d, lim, places[0], false, points, bands, channels, quant) == Ok::<
            _,
            ParseError,
        >((JocDataModel::Dense { matrices }, places[points])),
{
    let step = dense_step(d, lim, bands, channels, quant);
    assert forall|i: int| 0 <= i < points implies step(i, #[trigger] places[i]) == Ok::<
        (Seq<Seq<u16>>, int),
        ParseError,
    >((matrices[i], places[i + 1])) by {
        assert(repeat(dense_row_step(d, lim, bands, quant), places[i], channels) == Ok::<
            (Seq<Seq<u16>>, int),
            ParseError,
        >((matrices[i], places[i + 1])));
    }
    items_are_read_in_turn(step, places, matrices, points);
    assert(matrices.take(points) =~= matrices);
}

} // verus!
