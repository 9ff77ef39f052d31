use harletty::bit_writer::BitWriter;
use harletty::bits::{count_ones, shift_right, test_bit, BitReader};
use harletty::dca::fixed::{add32, clip23, mul32, norm, norm16, rmul15, sub32, unfold};
use harletty::dca::xll_band::get_rice;
use harletty::dca::xll_error::XllError;
use harletty::dca::xll_header::{get_linear, mask_positions};
use harletty::dca::xll_output::{map_core_spkr, upshift};

#[test]
fn written_fields_read_back() {
    let fields = [(3usize, 5u32), (1, 1), (32, 0xdead_beef), (17, 0x1_2345), (7, 0)];
    let mut w = BitWriter::new();
    for (bits, value) in fields {
        w.write(bits, value);
    }
    let bytes = w.finish();
    assert_eq!(bytes.len(), 8);
    let mut r = BitReader::new(&bytes);
    for (bits, value) in fields {
        assert_eq!(r.read_bits(bits), Some(value));
    }
    assert_eq!(r.read_bits(5), None);
    assert_eq!(r.position(), 60);
}

#[test]
fn readers_keep_to_their_limit() {
    let bytes = [0b1010_0000u8, 0xff];
    let mut r = BitReader::new(&bytes);
    r.set_limit_bits(6);
    assert_eq!(r.read_bit(), Some(true));
    assert_eq!(r.show_bits(2), Some(1));
    assert_eq!(r.read_signed_bits(2), Some(1));
    assert_eq!(r.remaining(), 3);
    assert!(!r.bits_left(4));
    assert_eq!(r.read_bits(4), None);
    assert_eq!(r.skip_bits(3), Some(()));
    assert_eq!(r.read_bit(), None);
    let mut r = BitReader::with_offset(&bytes, 8);
    assert_eq!(r.read_signed_bits(3), Some(-1));
    assert!(r.seek(3));
    assert_eq!(r.get_unary(100), 5);
    r.align_bits(8);
    assert_eq!(r.position(), 16);
    assert!(!r.seek(17));
}

#[test]
fn fixed_point_rounds_and_wraps() {
    assert_eq!(norm(3 << 22, 23), 2);
    assert_eq!(norm(-(3 << 22), 23), -1);
    assert_eq!(norm16(0x8000), 1);
    assert_eq!(rmul15(3, 0x4000), 2);
    assert_eq!(clip23(0x80_0000), 0x7f_ffff);
    assert_eq!(clip23(-0x80_0001), -0x80_0000);
    assert_eq!(add32(i32::MAX, 1), i32::MIN);
    assert_eq!(sub32(i32::MIN, 1), i32::MAX);
    assert_eq!(mul32(0x1_0000, 0x1_0000), 0);
    assert_eq!(unfold(6), 3);
    assert_eq!(unfold(5), -3);
    assert_eq!(shift_right(-5, 1), -3);
    assert_eq!(count_ones(0xf00f), 8);
    assert!(test_bit(0x8000_0000, 31) && !test_bit(0x8000_0000, 30));
}

#[test]
fn residual_codes_are_folded() {
    let mut w = BitWriter::new();
    // Two zeros, the one that ends them, and two low bits: 2 * 4 + 3 = 11.
    w.write(5, 0b00111);
    w.write(4, 6);
    let bytes = w.finish();
    let mut r = BitReader::new(&bytes);
    assert_eq!(get_rice(&mut r, 2), Ok(-6));
    assert_eq!(get_linear(&mut r, 4), Ok(3));
    assert_eq!(get_linear(&mut r, 0), Ok(0));
    assert_eq!(get_linear(&mut r, 20), Err(XllError::Bitstream));
}

#[test]
fn speakers_are_found_under_either_surround_name() {
    assert_eq!(mask_positions(0x8000_0005), vec![0, 2, 31]);
    assert_eq!(map_core_spkr(0x1f, 3), Some(3));
    assert_eq!(map_core_spkr(0x1f, 9), Some(3));
    assert_eq!(map_core_spkr(0x0f, 10), None);
    assert_eq!(upshift(&vec![1, -2], 8), vec![256, -512]);
}
