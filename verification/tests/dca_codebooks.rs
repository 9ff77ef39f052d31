use harletty::bit_writer::BitWriter;
use harletty::bits::BitReader;
use harletty::dca::huffman::{CoreVlcs, Vlc, VlcSource};

const GROUPS: [u8; 10] = [1, 3, 3, 3, 3, 7, 7, 7, 7, 7];
const SIZES: [u8; 10] = [3, 5, 7, 9, 13, 17, 25, 33, 65, 129];
const OFFSETS: [i8; 10] = [-1, -2, -3, -4, -6, -8, -12, -16, -32, -64];

/// A book of `size` symbols with codes of one length.
fn flat_book(size: usize) -> Vec<[u8; 2]> {
    let mut bits = 1u8;
    while (1usize << bits) < size {
        bits += 1;
    }
    (0..size).map(|symbol| [symbol as u8, bits]).collect()
}

fn source() -> VlcSource {
    let mut pairs = vec![[1u8, 1u8], [2, 2], [0, 2]];
    for k in 1..10 {
        for _ in 0..GROUPS[k] {
            pairs.extend_from_slice(&flat_book(SIZES[k] as usize));
        }
    }
    for _ in 0..5 {
        pairs.extend_from_slice(&flat_book(12));
    }
    for _ in 0..5 {
        pairs.extend_from_slice(&flat_book(129));
    }
    for _ in 0..4 {
        pairs.extend_from_slice(&flat_book(4));
    }
    VlcSource {
        pairs,
        groups: GROUPS,
        sizes: SIZES,
        offsets: OFFSETS,
    }
}

fn decode(vlc: &Vlc, len: usize, code: u32) -> Option<i32> {
    let mut w = BitWriter::new();
    w.write(len, code);
    let bytes = w.finish();
    let mut gb = BitReader::new(&bytes);
    vlc.get(&mut gb)
}

#[test]
fn builds_all_core_vlcs() {
    let v = CoreVlcs::build(&source());
    assert_eq!(v.bit_allocation.len(), 5);
    assert_eq!(v.scale_factor.len(), 5);
    assert_eq!(v.transition_mode.len(), 4);
    assert_eq!(v.quant_index.len(), 10);
    for (i, row) in v.quant_index.iter().enumerate() {
        assert_eq!(row.len(), GROUPS[i] as usize);
    }
}

#[test]
fn bitalloc_3_roundtrip() {
    let vlcs = CoreVlcs::build(&source());
    let vlc = &vlcs.quant_index[0][0];
    let cases = [(0b0u32, 1usize, 1 - 1), (0b10, 2, 2 - 1), (0b11, 2, 0 - 1)];
    for (code, len, expected) in cases {
        assert_eq!(decode(vlc, len, code), Some(expected), "code {code:0len$b}");
    }
}

#[test]
fn books_are_cut_in_order_with_their_offsets() {
    let v = CoreVlcs::build(&source());
    assert_eq!(decode(&v.quant_index[1][2], 3, 4), Some(4 - 2));
    assert_eq!(decode(&v.bit_allocation[4], 4, 11), Some(12));
    assert_eq!(decode(&v.scale_factor[0], 8, 128), Some(64));
    assert_eq!(decode(&v.transition_mode[3], 2, 3), Some(3));
}

#[test]
fn unassigned_codes_and_short_data_have_no_symbol() {
    let vlc = Vlc::from_lengths(&[[0, 2], [1, 2], [2, 2]], 0);
    assert_eq!(decode(&vlc, 2, 2), Some(2));
    assert_eq!(decode(&vlc, 2, 3), None);
    let mut gb = BitReader::new(&[]);
    assert_eq!(vlc.get(&mut gb), None);
}
