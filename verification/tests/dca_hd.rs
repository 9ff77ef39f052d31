use harletty::bit_writer::BitWriter;
use harletty::dca::core_header::CoreError;
use harletty::dca::core_tables::CoreTables;
use harletty::dca::crc::crc16_ccitt;
use harletty::dca::exss::{ExssError, ExssParser};
use harletty::dca::hd::{
    core_error_kind, exss_has_xll, exss_kind, exss_substream_size, lossy_extension_set, ExssKind,
    HdDecoder, HdError, HdFrame, HdTables, XNavigation, LOSSY_EXTENSION_CONSTANT,
    LOSSY_EXTENSION_NAVIGATION_HEAD, LOSSY_EXTENSION_SET_MARKER, LOSSY_EXTENSION_SET_OFFSET,
};
use harletty::dca::huffman::{CoreVlcs, VlcSource};
use harletty::dca::parser::{ParseError, SYNCWORD_CORE_BE};
use harletty::dca::synth::SynthTables;
use harletty::dca::xll_header::XllTables;
use harletty::dca::xll_x::DCA_SYNCWORD_XLL_X;

/// The container around the bare set is read exactly, never guessed.
#[test]
fn lossy_extension_container_is_checked() {
    let mut blob = vec![0u8; 40];
    blob[..4].copy_from_slice(&DCA_SYNCWORD_XLL_X.to_be_bytes());
    assert_eq!(
        lossy_extension_set(&blob[..30]),
        Err("short lossy extension")
    );
    assert_eq!(lossy_extension_set(&blob), Err("lossy extension container"));
    blob[22..26].copy_from_slice(&LOSSY_EXTENSION_CONSTANT);
    blob[26..28].copy_from_slice(&LOSSY_EXTENSION_NAVIGATION_HEAD);
    blob[32] = LOSSY_EXTENSION_SET_MARKER;
    let size = (blob.len() - LOSSY_EXTENSION_SET_OFFSET) as u16;
    blob[28..30].copy_from_slice(&size.to_be_bytes());
    let crc = crc16_ccitt(&blob[26..30]);
    blob[30..32].copy_from_slice(&crc.to_be_bytes());
    assert_eq!(lossy_extension_set(&blob).map(<[u8]>::len), Ok(7));
    blob[29] ^= 1;
    assert_eq!(
        lossy_extension_set(&blob),
        Err("lossy extension navigation crc")
    );
    let size = (blob.len() - LOSSY_EXTENSION_SET_OFFSET + 1) as u16;
    blob[28..30].copy_from_slice(&size.to_be_bytes());
    let crc = crc16_ccitt(&blob[26..30]);
    blob[30..32].copy_from_slice(&crc.to_be_bytes());
    assert_eq!(lossy_extension_set(&blob), Err("lossy extension size"));
}

#[test]
fn data_that_is_no_substream_carries_nothing() {
    assert_eq!(exss_kind(&[0; 64]), ExssKind::Core);
    assert_eq!(exss_substream_size(&[0; 64]), None);
    assert!(!exss_has_xll(&[0; 64]));
}

#[test]
fn core_errors_have_names() {
    assert_eq!(core_error_kind(&CoreError::Bitstream), "bitstream");
    assert_eq!(core_error_kind(&CoreError::Invalid("dsync")), "dsync");
    assert_eq!(core_error_kind(&CoreError::Unsupported("form")), "form");
}

#[test]
fn a_new_decoder_keeps_nothing() {
    let mut dec = HdDecoder::new();
    assert_eq!(dec.kept_len(), 0);
    assert_eq!(dec.lossless_samples(0), None);
    dec.reset();
    assert_eq!(dec.kept_len(), 0);
}

#[test]
fn the_default_frame_is_empty() {
    let frame = HdFrame::default();
    assert_eq!(frame.output_mask, 0);
    assert!(frame.samples.is_empty() && frame.x_samples.is_empty());
    assert!(!frame.lossless && !frame.x_present && !frame.x_imax);
}

/// A substream of one asset of 20 bytes, followed by `behind`: a lossless
/// component of 20 bytes, or nothing that is decoded.
fn substream(lossless: bool, behind: &[u8]) -> Vec<u8> {
    let mut fields = vec![
        (32usize, 0x6458_2025u32),
        (8, 0),
        (2, 0),
        (1, 0),
        (8, 15),
        (16, 35 + behind.len() as u32),
        (1, 0),
        (16, 19),
        (9, 4),
        (3, 0),
        (1, 0),
        (1, 0),
    ];
    if lossless {
        fields.extend([(2, 1), (16, 19), (1, 0), (3, 5)]);
    } else {
        fields.extend([(2, 0), (12, 0)]);
    }
    fields.extend([(1, 0), (1, 0)]);
    let mut w = BitWriter::new();
    for (bits, value) in fields {
        w.write(bits, value);
    }
    let mut bytes = w.finish();
    bytes.resize(36, 0);
    bytes.extend_from_slice(behind);
    bytes
}

#[test]
fn substreams_are_told_by_what_they_carry() {
    let lossless = substream(true, &[]);
    assert_eq!(exss_kind(&lossless), ExssKind::Lossless);
    assert!(exss_has_xll(&lossless));
    assert_eq!(exss_substream_size(&lossless), Some(36));
    let plain = substream(false, &[]);
    assert_eq!(exss_kind(&plain), ExssKind::Core);
    let spatial = substream(false, &DCA_SYNCWORD_XLL_X.to_be_bytes());
    assert_eq!(exss_kind(&spatial), ExssKind::Lossy);
    assert!(!exss_has_xll(&spatial));
    assert_eq!(exss_substream_size(&spatial), Some(40));
    assert_eq!(exss_kind(&spatial[..39]), ExssKind::Core);

    let parsed = ExssParser::parse(&lossless).unwrap();
    assert!(parsed.has_xll() && !parsed.has_xxch());
    assert_eq!(
        ExssParser::parse(&lossless[..35]).err(),
        Some(ExssError::Invalid("packet too short for EXSS"))
    );
    assert_eq!(ExssParser::parse(&lossless[..6]).err(), Some(ExssError::Bitstream));
}

const GROUPS: [u8; 10] = [1, 3, 3, 3, 3, 7, 7, 7, 7, 7];
const SIZES: [u8; 10] = [3, 5, 7, 9, 13, 17, 25, 33, 65, 129];
const OFFSETS: [i8; 10] = [-1, -2, -3, -4, -6, -8, -12, -16, -32, -64];
const CODES: [i32; 8] = [10, -20, 30, -40, 50, -60, 70, -80];

fn tables() -> CoreTables {
    let quantizers: usize = (0..10).map(|k| GROUPS[k] as usize * SIZES[k] as usize).sum();
    let pairs = vec![[0u8, 8u8]; quantizers + 5 * 12 + 5 * 129 + 4 * 4];
    let mut lossy = vec![1i32; 32];
    lossy[11] = 2048;
    CoreTables {
        adpcm: vec![[0; 4]; 4096],
        dmix: [0; 242],
        inv_dmix: [0; 201],
        high_freq_vq: vec![[0; 32]; 1024],
        joint_scale: vec![1; 129],
        lossless_quant: vec![1; 32],
        lossy_quant: lossy,
        quant_groups: GROUPS,
        quant_sel_nbits: [1, 2, 2, 2, 2, 3, 3, 3, 3, 3],
        quant_levels: vec![1, 3, 5, 7, 9, 13, 17, 25],
        scale_adj: [1 << 22; 4],
        scale6: vec![2048; 64],
        scale7: vec![2048; 128],
        vlcs: CoreVlcs::build(&VlcSource {
            pairs,
            groups: GROUPS,
            sizes: SIZES,
            offsets: OFFSETS,
        }),
    }
}

/// Width and value of each field up to the samples: a header of a mono frame
/// of eight blocks, one subframe, one channel of two bands without prediction,
/// and quantizer 11 in the first band alone.
const FIELDS: [(usize, u32); 44] = [
    (32, SYNCWORD_CORE_BE),
    (1, 0),
    (5, 31),
    (1, 0),
    (7, 7),
    (14, 95),
    (6, 0),
    (4, 13),
    (5, 0),
    (5, 0),
    (3, 0),
    (1, 0),
    (1, 0),
    (2, 0),
    (1, 1),
    (1, 1),
    (4, 0),
    (2, 0),
    (3, 5),
    (6, 0),
    (4, 0),
    (3, 0),
    (5, 0),
    (5, 1),
    (3, 0),
    (2, 0),
    (3, 5),
    (3, 5),
    (1, 1),
    (2, 3),
    (2, 3),
    (2, 3),
    (2, 3),
    (3, 7),
    (3, 7),
    (3, 7),
    (3, 7),
    (3, 7),
    (2, 0),
    (3, 0),
    (2, 0),
    (4, 11),
    (4, 0),
    (6, 0),
];

/// The mono frame whose first band holds `codes`.
fn mono_frame(codes: [i32; 8], dsync: u32) -> Vec<u8> {
    let mut fields = FIELDS.to_vec();
    fields.extend(codes.iter().map(|&code| (8usize, code as u32 & 0xff)));
    fields.push((16, dsync));
    let mut w = BitWriter::new();
    for (bits, value) in fields {
        w.write(bits, value);
    }
    let mut bytes = w.finish();
    bytes.resize(96, 0);
    bytes
}

fn synth_tables() -> SynthTables {
    let mut fir = [0i32; 512];
    for (i, v) in fir.iter_mut().enumerate() {
        *v = ((i * 37 % 101) as i32 - 50) * 20_000;
    }
    SynthTables {
        fir_perfect: fir,
        fir_nonperfect: [0; 512],
        fir_64: [0; 1024],
        lfe_fir: [0; 256],
    }
}

fn hd_tables() -> HdTables {
    HdTables {
        core: tables(),
        synth: synth_tables(),
        xll: XllTables {
            dmix: [0; 242],
            inv_dmix: [0; 201],
            primary_nch: [1, 2, 2, 3, 3, 4, 4, 0],
            refl_coeff: [0; 128],
        },
    }
}

#[test]
fn a_broken_spatial_extension_costs_itself_alone() {
    let t = hd_tables();
    let unit = mono_frame(CODES, 0xffff);
    let bare = HdDecoder::new().decode(&t, &unit, &substream(false, &[])).unwrap();
    assert!(!bare.x_present && bare.x_decode_error.is_none());
    let mut behind = DCA_SYNCWORD_XLL_X.to_be_bytes().to_vec();
    behind.resize(40, 7);
    let mut dec = HdDecoder::new();
    let frame = dec.decode(&t, &unit, &substream(false, &behind)).unwrap();
    assert!(frame.x_present && !frame.lossless);
    assert_eq!(frame.x_decode_error, Some("lossy extension container"));
    assert_eq!(frame.x_payload, behind);
    assert_eq!(frame.x_payload_offset, 36);
    assert_eq!(frame.samples, bare.samples);
    assert_eq!(frame.output_mask, 1);
    assert_eq!(frame.bed_sample_count(), 256);
    assert_eq!(dec.lossless_samples(0), None);
}

#[test]
fn frame_errors_are_told_apart() {
    let t = hd_tables();
    let unit = mono_frame(CODES, 0xffff);
    let mut dec = HdDecoder::new();
    let plain = substream(false, &[]);
    assert_eq!(
        dec.decode(&t, &[0; 32], &plain).err(),
        Some(HdError::Header(ParseError::InvalidSyncword))
    );
    assert_eq!(dec.decode(&t, &mono_frame(CODES, 0), &plain).err(), Some(HdError::Core));
    assert_eq!(dec.decode(&t, &unit, &plain[..10]).err(), Some(HdError::Exss));
    // The lossless component holds no sync word yet.
    let silent = substream(true, &[]);
    assert_eq!(dec.decode(&t, &unit, &silent).err(), Some(HdError::Pending));
}

/// A lossless frame of four samples of front left and right, coded as `left`
/// and `right`, with `behind` inside the frame after its bands.
fn lossless_frame(left: [u32; 4], right: [u32; 4], behind: &[u8]) -> Vec<u8> {
    let mut fields = vec![
        (32usize, 0x41a2_9547u32),
        (4, 0),
        (8, 10),
        (5, 7),
        (8, 26 + behind.len() as u32),
        (4, 0),
        (4, 0),
        (4, 2),
        (5, 7),
        (2, 0),
        (1, 0),
        (5, 7),
        (6, 0),
        (10, 5),
        (4, 1),
        (2, 3),
        (5, 23),
        (5, 23),
        (4, 12),
        (2, 0),
        (2, 0),
        (1, 0),
        (1, 0),
        (4, 0),
        (4, 0),
        (2, 0),
        (2, 0),
        (8, 6),
        (16, 0),
        (1, 1),
        (1, 0),
        (5, 0),
        (5, 4),
    ];
    fields.extend(left.iter().chain(&right).map(|&code| (5usize, code)));
    let mut w = BitWriter::new();
    for (bits, value) in fields {
        w.write(bits, value);
    }
    let mut bytes = w.finish();
    assert_eq!(bytes.len(), 27);
    bytes.extend_from_slice(behind);
    bytes
}

/// A substream whose asset is the lossless component `xll`.
fn lossless_substream(xll: &[u8]) -> Vec<u8> {
    let n = xll.len() as u32;
    let fields = [
        (32usize, 0x6458_2025u32),
        (8, 0),
        (2, 0),
        (1, 0),
        (8, 15),
        (16, 15 + n),
        (1, 0),
        (16, n - 1),
        (9, 4),
        (3, 0),
        (1, 0),
        (1, 0),
        (2, 1),
        (16, n - 1),
        (1, 0),
        (3, 5),
        (1, 0),
        (1, 0),
    ];
    let mut w = BitWriter::new();
    for (bits, value) in fields {
        w.write(bits, value);
    }
    let mut bytes = w.finish();
    bytes.resize(16, 0);
    bytes.extend_from_slice(xll);
    bytes
}

#[test]
fn lossless_samples_are_those_of_the_last_frame() {
    let t = hd_tables();
    assert!(t.is_valid());
    let unit = mono_frame(CODES, 0xffff);
    let mut dec = HdDecoder::new();
    let exss = lossless_substream(&lossless_frame([2, 3, 4, 5], [0, 30, 31, 1], &[]));
    let frame = dec.decode(&t, &unit, &exss).unwrap();
    assert!(frame.lossless);
    assert_eq!(frame.output_mask, 0x06);
    assert_eq!(frame.sample_rate, 48_000);
    assert_eq!(frame.samples[1], Some(vec![1, -2, 2, -3]));
    assert_eq!(frame.samples[2], Some(vec![0, 15, -16, -1]));
    for speaker in 0..32 {
        assert_eq!(dec.lossless_samples(speaker), frame.samples[speaker].as_ref());
    }
    // A lossy frame leaves none.
    dec.decode(&t, &unit, &substream(false, &[])).unwrap();
    assert!((0..32).all(|speaker| dec.lossless_samples(speaker).is_none()));
}

#[test]
fn a_reset_decoder_hands_out_nothing_and_decodes_as_a_new_one() {
    let t = hd_tables();
    let unit = mono_frame(CODES, 0xffff);
    let exss = lossless_substream(&lossless_frame([2, 3, 4, 5], [6, 7, 8, 9], &[]));
    let mut used = HdDecoder::new();
    used.decode(&t, &unit, &exss).unwrap();
    used.decode(&t, &unit, &substream(false, &[])).unwrap();
    used.decode(&t, &unit, &exss).unwrap();
    assert!(used.lossless_samples(1).is_some());
    used.reset();
    assert!((0..32).all(|speaker| used.lossless_samples(speaker).is_none()));
    assert_eq!(used.kept_len(), 0);
    let mut fresh = HdDecoder::new();
    let other = mono_frame([1, 2, 3, 4, 5, 6, 7, 8], 0xffff);
    for _ in 0..2 {
        let a = used.decode(&t, &other, &substream(false, &[])).unwrap();
        let b = fresh.decode(&t, &other, &substream(false, &[])).unwrap();
        assert_eq!(a.samples, b.samples);
    }
    let a = used.decode(&t, &other, &exss).unwrap();
    let b = fresh.decode(&t, &other, &exss).unwrap();
    assert_eq!(a.samples, b.samples);
    assert_eq!(used.lossless_samples(2), fresh.lossless_samples(2));
}

#[test]
fn bytes_behind_a_substream_do_not_change_its_size() {
    for bytes in [substream(true, &[]), substream(false, &DCA_SYNCWORD_XLL_X.to_be_bytes())] {
        let size = exss_substream_size(&bytes);
        assert_eq!(size, Some(bytes.len()));
        let mut longer = bytes.clone();
        longer.extend([0xff; 70]);
        assert_eq!(exss_substream_size(&longer), size);
    }
}

#[test]
fn a_descriptor_can_say_where_the_extension_lies() {
    let t = hd_tables();
    let unit = mono_frame(CODES, 0xffff);
    let mut behind = vec![0u8; 3];
    behind.extend(DCA_SYNCWORD_XLL_X.to_be_bytes());
    let exss = lossless_substream(&lossless_frame([2, 3, 4, 5], [6, 7, 8, 9], &behind));
    let plain = HdDecoder::new().decode(&t, &unit, &exss).unwrap();
    assert!(!plain.x_present && !plain.x_descriptor_navigation_used);
    assert_eq!((plain.x_descriptor_offset, plain.x_descriptor_size), (None, None));
    let place = XNavigation { offset: Some(30), size: Some(4) };
    let frame = HdDecoder::new().decode_navigated(&t, &unit, &exss, place).unwrap();
    assert!(frame.x_present && frame.x_descriptor_navigation_used);
    assert_eq!(frame.x_payload_offset, 30);
    assert_eq!(frame.x_payload, DCA_SYNCWORD_XLL_X.to_be_bytes());
    assert_eq!((frame.x_descriptor_offset, frame.x_descriptor_size), (Some(30), Some(4)));
    assert_eq!(frame.samples, plain.samples);
    let wrong = XNavigation { offset: Some(29), size: Some(4) };
    let frame = HdDecoder::new().decode_navigated(&t, &unit, &exss, wrong).unwrap();
    assert!(!frame.x_present && !frame.x_descriptor_navigation_used);
    assert_eq!(frame.x_descriptor_offset, Some(29));
}
