use harletty::bit_writer::BitWriter;
use harletty::dca::core_decoder::{audio_mode_ch_mask, prm_ch_to_spkr, CoreDecoder};
use harletty::dca::core_header::CoreError;
use harletty::dca::core_tables::CoreTables;
use harletty::dca::crc::crc16_ccitt;
use harletty::dca::huffman::{CoreVlcs, VlcSource};
use harletty::dca::parser::{parse_header, AudioMode, ParseError, SYNCWORD_CORE_BE};
use harletty::dca::pcm::{bed_layout, primary_bed_layout, DecodeError, PcmDecoder};
use harletty::dca::synth::{SynthState, SynthTables};
use harletty::dca::types::BedChannel;

const GROUPS: [u8; 10] = [1, 3, 3, 3, 3, 7, 7, 7, 7, 7];
const SIZES: [u8; 10] = [3, 5, 7, 9, 13, 17, 25, 33, 65, 129];
const OFFSETS: [i8; 10] = [-1, -2, -3, -4, -6, -8, -12, -16, -32, -64];
const CODES: [i32; 8] = [10, -20, 30, -40, 50, -60, 70, -80];

fn tables() -> CoreTables {
    let quantizers: usize = (0..10).map(|k| GROUPS[k] as usize * SIZES[k] as usize).sum();
    let pairs = vec![[0u8, 8u8]; quantizers + 5 * 12 + 5 * 129 + 4 * 4];
    let mut lossy = vec![1i32; 32];
    lossy[11] = 2048;
    CoreTables {
        adpcm: vec![[0; 4]; 4096],
        dmix: [0; 242],
        inv_dmix: [0; 201],
        high_freq_vq: vec![[0; 32]; 1024],
        joint_scale: vec![1; 129],
        lossless_quant: vec![1; 32],
        lossy_quant: lossy,
        quant_groups: GROUPS,
        quant_sel_nbits: [1, 2, 2, 2, 2, 3, 3, 3, 3, 3],
        quant_levels: vec![1, 3, 5, 7, 9, 13, 17, 25],
        scale_adj: [1 << 22; 4],
        scale6: vec![2048; 64],
        scale7: vec![2048; 128],
        vlcs: CoreVlcs::build(&VlcSource {
            pairs,
            groups: GROUPS,
            sizes: SIZES,
            offsets: OFFSETS,
        }),
    }
}

/// Width and value of each field up to the samples: a header of a mono frame
/// of eight blocks, one subframe, one channel of two bands without prediction,
/// and quantizer 11 in the first band alone.
const FIELDS: [(usize, u32); 44] = [
    (32, SYNCWORD_CORE_BE),
    (1, 0),
    (5, 31),
    (1, 0),
    (7, 7),
    (14, 95),
    (6, 0),
    (4, 13),
    (5, 0),
    (5, 0),
    (3, 0),
    (1, 0),
    (1, 0),
    (2, 0),
    (1, 1),
    (1, 1),
    (4, 0),
    (2, 0),
    (3, 5),
    (6, 0),
    (4, 0),
    (3, 0),
    (5, 0),
    (5, 1),
    (3, 0),
    (2, 0),
    (3, 5),
    (3, 5),
    (1, 1),
    (2, 3),
    (2, 3),
    (2, 3),
    (2, 3),
    (3, 7),
    (3, 7),
    (3, 7),
    (3, 7),
    (3, 7),
    (2, 0),
    (3, 0),
    (2, 0),
    (4, 11),
    (4, 0),
    (6, 0),
];

/// The mono frame whose first band holds `codes`.
fn mono_frame(codes: [i32; 8], dsync: u32) -> Vec<u8> {
    let mut fields = FIELDS.to_vec();
    fields.extend(codes.iter().map(|&code| (8usize, code as u32 & 0xff)));
    fields.push((16, dsync));
    let mut w = BitWriter::new();
    for (bits, value) in fields {
        w.write(bits, value);
    }
    let mut bytes = w.finish();
    bytes.resize(96, 0);
    bytes
}

fn synth_tables() -> SynthTables {
    let mut fir = [0i32; 512];
    for (i, v) in fir.iter_mut().enumerate() {
        *v = ((i * 37 % 101) as i32 - 50) * 20_000;
    }
    SynthTables {
        fir_perfect: fir,
        fir_nonperfect: [0; 512],
        fir_64: [0; 1024],
        lfe_fir: [0; 256],
    }
}

#[test]
fn codes_become_subband_samples() {
    let t = tables();
    let data = mono_frame(CODES, 0xffff);
    let info = parse_header(&data).unwrap();
    let mut dec = CoreDecoder::new();
    assert_eq!(dec.decode_frame(&t, &info, &data), Ok(()));
    assert_eq!(dec.nchannels(), 1);
    assert_eq!(dec.npcmblocks(), 8);
    assert_eq!(dec.sample_rate(), 48_000);
    assert_eq!(dec.speaker_for(0), Some(0));
    assert_eq!(dec.ch_mask(), 1);
    assert_eq!(dec.coded_mask(), 1);
    for (k, code) in CODES.iter().enumerate() {
        assert_eq!(dec.subband(0, 0, k), *code);
        assert_eq!(dec.subband(0, 1, k), 0);
    }
}

#[test]
fn core_errors_are_told_apart() {
    let t = tables();
    let data = mono_frame(CODES, 0xffff);
    let info = parse_header(&data).unwrap();
    let mut dec = CoreDecoder::new();
    assert_eq!(dec.decode_frame(&t, &info, &data[..22]), Err(CoreError::Bitstream));
    let bad = mono_frame(CODES, 0xfffe);
    assert_eq!(dec.decode_frame(&t, &info, &bad), Err(CoreError::Invalid("dsync")));
    assert_eq!(dec.nchannels(), 0);
    assert_eq!(dec.decode_frame(&t, &info, &data), Ok(()));
    assert_eq!(
        dec.decode_xxch(&t, &[0; 32]),
        Err(CoreError::Invalid("xxch sync"))
    );
    assert_eq!(
        dec.decode_extension_set(&t, &[0; 32], 12),
        Err(CoreError::Unsupported("extension set channel count"))
    );
    // The core's own channel is as it was.
    assert_eq!(dec.nchannels(), 1);
    assert_eq!(dec.subband(0, 0, 7), -80);
}

#[test]
fn a_reset_core_decodes_as_a_new_one() {
    let t = tables();
    let data = mono_frame(CODES, 0xffff);
    let info = parse_header(&data).unwrap();
    let mut used = CoreDecoder::new();
    used.decode_frame(&t, &info, &data).unwrap();
    used.reset();
    let other = mono_frame([1, 2, 3, 4, 5, 6, 7, 8], 0xffff);
    used.decode_frame(&t, &info, &other).unwrap();
    let mut fresh = CoreDecoder::new();
    fresh.decode_frame(&t, &info, &other).unwrap();
    let s = synth_tables();
    let a = SynthState::new().synthesize(&s, &mut used);
    let b = SynthState::new().synthesize(&s, &mut fresh);
    assert_eq!(a, b);
    assert_eq!(used.subband(0, 0, 7), 8);
}

#[test]
fn access_units_give_pcm_of_the_bed() {
    let t = tables();
    let s = synth_tables();
    let data = mono_frame(CODES, 0xffff);
    let mut dec = PcmDecoder::new();
    let first = dec.push_access_unit(&t, &s, &data).unwrap();
    assert_eq!(first.frames_seen, 1);
    assert_eq!(first.pcm.sample_rate, 48_000);
    assert_eq!(first.pcm.fullband_channel_order, vec![BedChannel::Center]);
    assert_eq!(first.pcm.samples_per_channel(), 256);
    assert_eq!(first.pcm.total_channels(), 1);
    assert_eq!(first.pcm.lfe_channel, None);
    assert!(first.pcm.fullband_channels[0].iter().any(|&v| v != 0));

    // The filter bank keeps its history from one unit to the next.
    let second = dec.push_access_unit(&t, &s, &data).unwrap();
    assert_eq!(second.frames_seen, 2);
    assert_ne!(second.pcm.fullband_channels, first.pcm.fullband_channels);
    dec.reset();
    let again = dec.push_access_unit(&t, &s, &data).unwrap();
    assert_eq!(again.pcm.fullband_channels, first.pcm.fullband_channels);
}

#[test]
fn silent_subbands_are_silent_pcm() {
    let mut dec = PcmDecoder::new();
    let unit = mono_frame([0; 8], 0xffff);
    let got = dec.push_access_unit(&tables(), &synth_tables(), &unit).unwrap();
    assert_eq!(got.pcm.fullband_channels, vec![vec![0; 256]]);
}

#[test]
fn access_unit_errors_are_told_apart() {
    let t = tables();
    let s = synth_tables();
    let mut dec = PcmDecoder::new();
    let got = dec.push_access_unit(&t, &s, &[0; 32]);
    assert_eq!(got.err(), Some(DecodeError::Header(ParseError::InvalidSyncword)));
    let data = mono_frame(CODES, 0xffff);
    let got = dec.push_access_unit(&t, &s, &data[..22]);
    assert_eq!(got.err(), Some(DecodeError::Bitstream));
    let got = dec.push_access_unit(&t, &s, &mono_frame(CODES, 1));
    assert_eq!(got.err(), Some(DecodeError::Invalid("dsync")));
}

#[test]
fn every_arrangement_names_its_channels_once() {
    for mode in [
        AudioMode::Mono,
        AudioMode::MonoDual,
        AudioMode::Stereo,
        AudioMode::StereoSumDiff,
        AudioMode::StereoTotal,
        AudioMode::ThreeF,
        AudioMode::TwoF1R,
        AudioMode::ThreeF1R,
        AudioMode::TwoF2R,
        AudioMode::ThreeF2R,
    ] {
        let bed = bed_layout(mode);
        assert_eq!(bed.len(), mode.channel_count());
        let primary = primary_bed_layout(mode);
        assert_eq!(primary.len(), bed.len());
        for (i, a) in bed.iter().enumerate() {
            assert!(bed[..i].iter().all(|b| b != a));
            assert!(primary.contains(a));
        }
    }
    assert_eq!(
        primary_bed_layout(AudioMode::ThreeF2R),
        vec![
            BedChannel::Center,
            BedChannel::FrontLeft,
            BedChannel::FrontRight,
            BedChannel::SurroundLeft,
            BedChannel::SurroundRight,
        ]
    );
}

#[test]
fn canonical_layouts_are_in_wav_order() {
    assert_eq!(
        bed_layout(AudioMode::ThreeF),
        vec![BedChannel::FrontLeft, BedChannel::FrontRight, BedChannel::Center]
    );
    assert_eq!(
        bed_layout(AudioMode::ThreeF1R),
        vec![
            BedChannel::FrontLeft,
            BedChannel::FrontRight,
            BedChannel::Center,
            BedChannel::RearCenter,
        ]
    );
    assert_eq!(
        bed_layout(AudioMode::ThreeF2R),
        vec![
            BedChannel::FrontLeft,
            BedChannel::FrontRight,
            BedChannel::Center,
            BedChannel::SurroundLeft,
            BedChannel::SurroundRight,
        ]
    );
    assert_eq!(bed_layout(AudioMode::TwoF2R), primary_bed_layout(AudioMode::TwoF2R));
}

#[test]
fn speakers_of_an_arrangement_make_up_its_mask() {
    for mode in [
        AudioMode::Mono,
        AudioMode::MonoDual,
        AudioMode::Stereo,
        AudioMode::StereoSumDiff,
        AudioMode::StereoTotal,
        AudioMode::ThreeF,
        AudioMode::TwoF1R,
        AudioMode::ThreeF1R,
        AudioMode::TwoF2R,
        AudioMode::ThreeF2R,
    ] {
        let mut mask = 0;
        for ch in 0..mode.channel_count() {
            let bit = 1u32 << prm_ch_to_spkr(mode, ch).unwrap();
            assert_eq!(mask & bit, 0);
            mask |= bit;
        }
        assert_eq!(mask, audio_mode_ch_mask(mode));
        assert_eq!(prm_ch_to_spkr(mode, mode.channel_count()), None);
    }
    assert_eq!(prm_ch_to_spkr(AudioMode::MonoDual, 0), Some(1));
    assert_eq!(prm_ch_to_spkr(AudioMode::MonoDual, 1), Some(2));
}

#[test]
fn tables_are_checked() {
    assert!(tables().is_valid());
    assert!(synth_tables().is_valid());
    let mut t = tables();
    t.quant_levels[7] = 0;
    assert!(!t.is_valid());
    let mut t = tables();
    t.quant_levels.push(0);
    assert!(t.is_valid());
    t.scale7[5] = -1;
    assert!(!t.is_valid());
    let mut t = tables();
    t.vlcs.transition_mode.pop();
    assert!(!t.is_valid());
    let mut t = tables();
    t.inv_dmix[200] = -1;
    assert!(!t.is_valid());
    let mut s = synth_tables();
    s.lfe_fir[255] = 0x800_0001;
    assert!(!s.is_valid());
}

/// Quantizer selections of a channel without code books.
const SELECTIONS: [(usize, u32); 10] =
    [(1, 1), (2, 3), (2, 3), (2, 3), (2, 3), (3, 7), (3, 7), (3, 7), (3, 7), (3, 7)];

fn packed(fields: &[(usize, u32)]) -> Vec<u8> {
    let mut w = BitWriter::new();
    for &(bits, value) in fields {
        w.write(bits, value);
    }
    w.finish()
}

/// An XXCH frame of one rear center channel beside a mono core, whose first
/// band holds `codes`.
fn xxch_frame(codes: [i32; 8], dsync: u32) -> Vec<u8> {
    let mut fields = vec![
        (32, 0x4700_4a03),
        (6, 8),
        (1, 0),
        (5, 7),
        (2, 0),
        (14, 19),
        (8, 1),
        (4, 0),
        (7, 7),
        (3, 0),
        (2, 1),
        (1, 0),
        (5, 0),
        (5, 1),
        (3, 0),
        (2, 0),
        (3, 5),
        (3, 5),
    ];
    fields.extend(SELECTIONS);
    fields.extend([(6, 0), (2, 0), (4, 11), (4, 0), (6, 0)]);
    fields.extend(codes.iter().map(|&code| (8usize, code as u32 & 0xff)));
    fields.push((16, dsync));
    let mut bytes = packed(&fields);
    bytes.resize(40, 0);
    bytes
}

/// A bare set of one channel whose first band holds `codes`.
fn bare_set(codes: [i32; 8]) -> Vec<u8> {
    let mut fields = vec![(8, 8), (3, 0), (5, 31), (5, 0), (3, 0), (2, 0), (3, 5), (3, 5)];
    fields.extend(SELECTIONS);
    let mut bytes = packed(&fields);
    let crc = crc16_ccitt(&bytes);
    bytes.extend(crc.to_be_bytes());
    let mut fields = vec![(32, 0), (4, 11)];
    fields.extend([(4, 0); 31]);
    fields.push((6, 0));
    fields.extend(codes.iter().map(|&code| (8usize, code as u32 & 0xff)));
    fields.push((16, 0xffff));
    bytes.extend(packed(&fields));
    bytes
}

#[test]
fn an_xxch_set_adds_its_channels_to_the_core() {
    let t = tables();
    let data = mono_frame(CODES, 0xffff);
    let info = parse_header(&data).unwrap();
    let mut dec = CoreDecoder::new();
    dec.decode_frame(&t, &info, &data).unwrap();
    let codes = [1, -2, 3, -4, 5, -6, 7, -8];
    assert_eq!(dec.decode_xxch(&t, &xxch_frame(codes, 0xffff)), Ok(()));
    assert_eq!(dec.nchannels(), 2);
    assert_eq!(dec.speaker_for(0), Some(0));
    assert_eq!(dec.speaker_for(1), Some(6));
    assert_eq!(dec.core_ch_mask(), 1);
    assert_eq!(dec.ch_mask(), 0x41);
    assert_eq!(dec.coded_mask(), 0x41);
    for k in 0..8 {
        assert_eq!(dec.subband(0, 0, k), CODES[k]);
        assert_eq!(dec.subband(1, 0, k), codes[k]);
    }
    // A set that fails leaves the core alone.
    assert_eq!(
        dec.decode_xxch(&t, &xxch_frame(codes, 0)),
        Err(CoreError::Invalid("dsync"))
    );
    assert_eq!(dec.nchannels(), 1);
    assert_eq!(dec.ch_mask(), 1);
    assert_eq!(dec.subband(0, 0, 1), -20);
}

#[test]
fn a_bare_set_adds_channels_without_speakers() {
    let t = tables();
    let data = mono_frame(CODES, 0xffff);
    let info = parse_header(&data).unwrap();
    let mut dec = CoreDecoder::new();
    dec.decode_frame(&t, &info, &data).unwrap();
    let codes = [9, 8, 7, 6, -5, -4, -3, -2];
    let set = bare_set(codes);
    assert_eq!(dec.decode_extension_set(&t, &set, 1), Ok(40));
    assert_eq!(dec.nchannels(), 2);
    assert_eq!(dec.extension_channels(), 1..2);
    assert_eq!(dec.speaker_for(1), None);
    assert_eq!(dec.ch_mask(), 1);
    for k in 0..8 {
        assert_eq!(dec.subband(1, 0, k), codes[k]);
    }
    let mut torn = set;
    torn[3] ^= 1;
    assert_eq!(
        dec.decode_extension_set(&t, &torn, 1),
        Err(CoreError::Invalid("extension set header crc"))
    );
    assert_eq!(dec.nchannels(), 2);
}
