use harletty::bit_writer::BitWriter;
use harletty::bits::BitReader;
use harletty::eac3::allocation::{
    grouped_exponent_count, sample_rate_index, AllocationState, DeltaBitAllocationMode,
    DeltaBitAllocationState,
};
use harletty::eac3::mantissa::{
    shift_right_signed, Coefficient, MantissaDecodeState, MantissaGroupState,
};
use harletty::eac3::masking::{band_index, band_limit, calc_lowcomp, log_add, BitAllocationParams};
use harletty::eac3::syncframe::{ExpStrategy, ParseError};

const GROUPS: [u32; 42] = [
        62, 63, 62, 62, 62, 63, 62, 62, 63, 63, 62, 61, 63, 63, 63, 61, 61, 63, 62, 62, 63, 63,
        62, 61, 62, 62, 63, 63, 61, 61, 63, 63, 63, 63, 63, 62, 63, 61, 61, 61, 62, 63,
    ];

fn bytes_of(fields: &[(usize, u32)]) -> Vec<u8> {
    let mut w = BitWriter::new();
    for &(bits, value) in fields {
        w.write(bits, value);
    }
    w.finish()
}

/// A full-bandwidth channel of 127 bins with base exponent 6.
fn channel() -> AllocationState {
    let mut fields = vec![(4usize, 6u32)];
    fields.extend(GROUPS.iter().map(|&group| (7, group)));
    fields.push((2, 0));
    let bytes = bytes_of(&fields);
    let mut state = AllocationState::new();
    let mut reader = BitReader::new(&bytes);
    let groups = grouped_exponent_count(127, ExpStrategy::D15).unwrap();
    assert_eq!(groups, 42);
    state
        .read_channel_exponents(&mut reader, ExpStrategy::D15, groups, 127)
        .unwrap();
    assert_eq!(reader.position(), 6 + 7 * 42);
    state
}

#[test]
fn channel_exponents_and_their_allocation() {
    let mut state = channel();
    let exponents: [i32; 127] = [
        6, 6, 6, 6, 6, 6, 7, 7, 7, 7, 7, 7, 7, 7, 7, 7, 7, 7, 8, 8, 8, 8, 8, 8, 8, 8, 8, 9, 9,
        9, 10, 10, 10, 10, 10, 10, 9, 9, 9, 10, 10, 10, 11, 11, 11, 12, 12, 12, 11, 11, 11, 10,
        10, 10, 11, 11, 11, 11, 11, 11, 11, 11, 11, 12, 12, 12, 13, 13, 13, 13, 13, 13, 12, 12,
        12, 12, 12, 12, 12, 12, 12, 13, 13, 13, 14, 14, 14, 13, 13, 13, 12, 12, 12, 13, 13, 13,
        14, 14, 14, 15, 15, 15, 16, 16, 16, 17, 17, 17, 17, 17, 17, 18, 18, 18, 17, 17, 17, 16,
        16, 16, 15, 15, 15, 15, 15, 15, 16,
    ];
    assert_eq!(state.exponents[..127], exponents);
    let delta = DeltaBitAllocationState::default();
    let params = BitAllocationParams::default();
    state.allocate(0, 127, 4, 960, params, 0, &delta, 0, 0, false).unwrap();
    let bap: [u8; 127] = [
        14, 14, 14, 14, 14, 14, 14, 14, 14, 14, 14, 14, 14, 14, 14, 14, 14, 14, 14, 14, 14, 14,
        14, 14, 14, 14, 14, 13, 13, 13, 12, 13, 13, 13, 13, 13, 14, 13, 13, 12, 13, 13, 12, 12,
        12, 11, 12, 12, 13, 12, 12, 13, 13, 13, 12, 12, 12, 12, 12, 12, 12, 13, 13, 12, 12, 12,
        11, 11, 11, 11, 11, 11, 12, 12, 12, 12, 12, 12, 12, 12, 12, 11, 11, 11, 10, 10, 10, 11,
        11, 11, 12, 12, 12, 11, 11, 11, 10, 10, 10, 9, 9, 9, 8, 8, 8, 7, 7, 7, 7, 8, 8, 7, 7, 7,
        8, 8, 8, 9, 9, 9, 10, 10, 10, 10, 10, 10, 9,
    ];
    assert_eq!(state.bap[..127], bap);
    assert!(state.bap[127..].iter().all(|&bits| bits == 0));
    let mut groups = MantissaGroupState::new_block();
    assert_eq!(state.count_mantissa_bits(0, 127, &mut groups), 1371);
}

#[test]
fn delta_segments_move_the_mask() {
    let mut delta = DeltaBitAllocationState::default();
    let bytes = bytes_of(&[(3, 1), (5, 3), (4, 5), (3, 6), (5, 2), (4, 4), (3, 1)]);
    delta.read_segments(&mut BitReader::new(&bytes)).unwrap();
    delta.mode = DeltaBitAllocationMode::from_bits(1).unwrap();
    let mut state = channel();
    let params = BitAllocationParams::default();
    state.allocate(0, 127, 4, 960, params, 0, &delta, 0, 0, false).unwrap();
    assert_eq!(state.bap[..16], [14, 14, 14, 11, 11, 11, 11, 11, 14, 14, 15, 15, 15, 15, 14, 14]);
    assert_eq!(state.bap.iter().map(|&b| b as u32).sum::<u32>(), 1459);

    delta.mode = DeltaBitAllocationMode::from_bits(3).unwrap();
    state.allocate(0, 127, 4, 960, params, 0, &delta, 0, 0, false).unwrap();
    assert!(state.bap.iter().all(|&bits| bits == 0));
    assert_eq!(
        DeltaBitAllocationMode::from_bits(4),
        Err(ParseError::InvalidHeader("deltba"))
    );
    let mut empty = BitReader::new(&[]);
    assert_eq!(delta.read_segments(&mut empty), Err(ParseError::ShortPacket));
}

#[test]
fn hybrid_transform_channels_use_their_own_table() {
    let mut state = channel();
    let delta = DeltaBitAllocationState::default();
    let params = BitAllocationParams::default();
    state.allocate(0, 127, 4, 960, params, 1, &delta, 0, 0, true).unwrap();
    assert_eq!(state.bap[90..112], [16, 16, 16, 15, 15, 15, 14, 14, 14, 13, 13, 13, 12, 12, 12, 11, 11, 11, 11, 11, 11, 10]);
    assert_eq!(state.bap.iter().map(|&b| b as u32).sum::<u32>(), 1966);
}

#[test]
fn coupling_exponents_start_at_their_first_bin() {
    let bytes = bytes_of(&[(4, 4), (7, 62), (7, 63), (7, 61), (7, 70), (7, 50), (7, 62)]);
    let mut state = AllocationState::new();
    state
        .read_coupling_exponents(&mut BitReader::new(&bytes), ExpStrategy::D25, 37, 73, 6)
        .unwrap();
    assert_eq!(state.exponents[37..73], [8, 8, 8, 8, 8, 8, 8, 8, 8, 8, 9, 9, 9, 9, 9, 9, 8, 8, 8, 8, 10, 10, 8, 8, 8, 8, 6, 6, 4, 4, 4, 4, 4, 4, 4, 4]);
    let params = BitAllocationParams {
        slow_decay_code: 1,
        fast_decay_code: 2,
        slow_gain_code: 3,
        db_per_bit_code: 1,
        floor_code: 3,
    };
    let delta = DeltaBitAllocationState::default();
    state.allocate(37, 73, 2, 500, params, 2, &delta, 768, 768, false).unwrap();
    assert_eq!(state.bap[37..73], [8, 8, 8, 8, 8, 8, 8, 8, 8, 8, 7, 7, 7, 7, 7, 7, 8, 8, 8, 8, 6, 6, 8, 8, 3, 3, 6, 6, 8, 8, 7, 7, 7, 7, 7, 7]);
}

#[test]
fn low_frequency_channel_has_seven_bins() {
    let bytes = bytes_of(&[(4, 9), (7, 60), (7, 70)]);
    let mut state = AllocationState::new();
    state.read_lfe_exponents(&mut BitReader::new(&bytes)).unwrap();
    assert_eq!(state.exponents[..7], [9, 9, 9, 7, 7, 9, 7]);
    assert_eq!(state.integrated_psd[..7], [1920, 1920, 1920, 2176, 2176, 1920, 2176]);
    let delta = DeltaBitAllocationState::default();
    let params = BitAllocationParams::default();
    state.allocate(0, 7, 4, 700, params, 0, &delta, 0, 0, false).unwrap();
    assert_eq!(state.bap[..7], [12, 12, 14, 14, 14, 13, 14]);
    state.clear_bap();
    assert!(state.bap.iter().all(|&bits| bits == 0));
}

#[test]
fn exponent_errors_are_told_apart() {
    let mut state = AllocationState::new();
    let short = BitReader::new(&[0x60]);
    assert_eq!(
        state.read_channel_exponents(&mut short.clone(), ExpStrategy::D15, 42, 127),
        Err(ParseError::ShortPacket)
    );
    let groups = vec![62i32; 2];
    assert_eq!(
        state.decode_grouped_exponents(ExpStrategy::D15, 0, 1, 257, 6, &groups),
        Err(ParseError::InvalidHeader("endmant"))
    );
    // Three bins are left, so the second group runs past the end.
    assert_eq!(
        state.decode_grouped_exponents(ExpStrategy::D15, 0, 252, 100, 6, &vec![87, 87]),
        Err(ParseError::InvalidHeader("expmant"))
    );
    assert_eq!(state.exponents[252..], [7, 7, 7, 8]);
    assert_eq!(state.exponents[0], 6);
    assert_eq!(
        grouped_exponent_count(0, ExpStrategy::D15),
        Err(ParseError::InvalidHeader("endmant"))
    );
    assert_eq!(grouped_exponent_count(100, ExpStrategy::Reuse), Ok(0));
}

#[test]
fn mantissas_are_read_in_their_groups() {
    let mut state = AllocationState::new();
    for (bin, bap) in [1u8, 2, 1, 4, 1, 2, 3, 4, 2, 5, 6, 0, 15].into_iter().enumerate() {
        state.bap[bin] = bap;
        state.exponents[bin] = 1;
    }
    let bytes = bytes_of(&[(5, 5), (7, 102), (7, 113), (3, 6), (4, 14), (5, 16), (16, 0x4000)]);
    let mut reader = BitReader::new(&bytes);
    let mut decode = MantissaDecodeState::new_block();
    let got = state.decode_transform_coeffs(&mut reader, 0, 13, &mut decode).unwrap();
    assert_eq!(got.len(), 256);
    assert_eq!(
        got[..13],
        [
            Coefficient::Int24(-2796202),
            Coefficient::Int24(3355442),
            Coefficient::Int24(0),
            Coefficient::Int24(3813003),
            Coefficient::Int24(2796202),
            Coefficient::Int24(-3355443),
            Coefficient::Int24(3595117),
            Coefficient::Int24(-1525201),
            Coefficient::Int24(0),
            Coefficient::Int24(3914683),
            Coefficient::Int32(-1073741824),
            Coefficient::Zero,
            Coefficient::Int32(536870912),
        ]
    );
    // As many bits are read as are counted.
    let mut groups = MantissaGroupState::new_block();
    assert_eq!(state.count_mantissa_bits(0, 13, &mut groups), reader.position());
    let mut decode = MantissaDecodeState::new_block();
    assert_eq!(
        state.decode_transform_coeffs(&mut BitReader::new(&[]), 0, 13, &mut decode),
        Err(ParseError::ShortPacket)
    );
}

#[test]
fn a_mantissa_that_is_missing_leaves_what_was_read() {
    let mut state = AllocationState::new();
    for (bin, bap) in [1u8, 1, 3, 3, 3].into_iter().enumerate() {
        state.bap[bin] = bap;
    }
    let bytes = bytes_of(&[(5, 5), (3, 6)]);
    let mut reader = BitReader::new(&bytes);
    let mut decode = MantissaDecodeState::new_block();
    assert_eq!(
        state.decode_transform_coeffs(&mut reader, 0, 5, &mut decode),
        Err(ParseError::ShortPacket)
    );
    assert_eq!(reader.position(), 8);
    assert_eq!((decode.bap1_pos, decode.bap2_pos, decode.bap4_pos), (1, 2, 1));
}

#[test]
fn hybrid_transform_coefficients_take_their_block() {
    let mut state = AllocationState::new();
    state.exponents[0] = 2;
    let pre = [[100, 200, 300, 400, 500, -600], [1, 2, 3, 4, 5, 6]];
    let got = state.extract_aht_coeffs(&pre, 5, 0, 10);
    assert_eq!(got[0], Coefficient::Int24(-150));
    assert_eq!(got[1], Coefficient::Int24(6));
    assert_eq!(got[2], Coefficient::Zero);
    assert_eq!(state.extract_aht_coeffs(&pre, 6, 0, 10)[0], Coefficient::Int24(0));
}

#[test]
fn rows_for_whole_frame_mantissas_start_at_zero() {
    assert_eq!(AllocationState::aht_rows(1, 3), Ok(vec![[0; 6]; 3]));
    assert_eq!(AllocationState::aht_rows(256, 256).unwrap().len(), 256);
    assert_eq!(AllocationState::aht_rows(0, 257), Err(ParseError::InvalidHeader("aht-range")));
    assert_eq!(AllocationState::aht_rows(5, 4), Err(ParseError::InvalidHeader("aht-range")));
}

#[test]
fn masking_formulas_at_chosen_points() {
    assert_eq!(log_add(1920, 1920), 1920 + 0x40);
    assert_eq!(log_add(1920, 2176), 2176 + 5);
    assert_eq!(calc_lowcomp(0, 1000, 1256, 3), 384);
    assert_eq!(calc_lowcomp(100, 1256, 1000, 3), 36);
    assert_eq!(calc_lowcomp(0, 1000, 1256, 8), 320);
    assert_eq!(calc_lowcomp(200, 0, 0, 21), 72);
    assert_eq!(band_index(0), 0);
    assert_eq!(band_index(30), 28);
    assert_eq!(band_index(252), 49);
    assert_eq!(band_limit(28), 31);
    assert_eq!(shift_right_signed(-5, 1), -3);
    assert_eq!(shift_right_signed(-5, 40), -1);
    assert_eq!(shift_right_signed(5, -2), 5);
    assert_eq!(sample_rate_index(24_000), Some(0));
    assert_eq!(sample_rate_index(44_100), Some(1));
    assert_eq!(sample_rate_index(96_000), None);
}
