use harletty::bit_writer::BitWriter;
use harletty::dca::extract::{ExtractError, Extractor};
use harletty::dca::parser::{parse_header, AudioMode, ParseError, SYNCWORD_CORE_BE};

/// Width and value of the header fields behind the frame size.
const FIELDS: [(usize, u32); 20] = [
    (6, 9),
    (4, 13),
    (5, 0),
    (1, 0),
    (1, 0),
    (1, 0),
    (1, 0),
    (1, 0),
    (3, 0),
    (1, 0),
    (1, 0),
    (2, 1),
    (1, 1),
    (1, 1),
    (4, 0),
    (2, 0),
    (3, 5),
    (1, 0),
    (1, 0),
    (4, 0),
];

fn core_frame(frame_size: usize) -> Vec<u8> {
    let mut w = BitWriter::new();
    w.write(32, SYNCWORD_CORE_BE);
    w.write(1, 0);
    w.write(5, 31);
    w.write(1, 0);
    w.write(7, 7);
    w.write(14, (frame_size - 1) as u32);
    for (bits, value) in FIELDS {
        w.write(bits, value);
    }
    let mut bytes = w.finish();
    bytes.resize(frame_size, 0xAA);
    bytes
}

fn set_bits(bytes: &mut [u8], pos: usize, n: usize, value: u32) {
    for k in 0..n {
        let bit = ((value >> (n - 1 - k)) & 1) as u8;
        let i = pos + k;
        bytes[i / 8] = (bytes[i / 8] & !(1 << (7 - i % 8))) | (bit << (7 - i % 8));
    }
}

#[test]
fn extracts_after_garbage() {
    let frame = core_frame(128);
    let mut ex = Extractor::default();
    ex.push_bytes(&[0x00, 0x11, 0x22]);
    ex.push_bytes(&frame);
    let got = ex.next_frame().unwrap().unwrap();
    assert_eq!(got.as_bytes(), frame.as_slice());
    assert_eq!(got.info().frame_size, 128);
    assert_eq!(got.info().sample_rate, 48_000);
    assert_eq!(got.info().samples_per_channel(), 256);
    assert!(got.info().has_lfe());
    assert_eq!(ex.next_frame().unwrap(), None);
}

#[test]
fn waits_for_full_frame() {
    let frame = core_frame(128);
    let mut ex = Extractor::default();
    ex.push_bytes(&frame[..40]);
    assert_eq!(ex.next_frame().unwrap(), None);
    ex.push_bytes(&frame[40..]);
    assert_eq!(
        ex.next_frame().unwrap().unwrap().as_bytes(),
        frame.as_slice()
    );
}

#[test]
fn rejects_bad_syncword() {
    let buf = [0u8; 32];
    assert_eq!(parse_header(&buf), Err(ParseError::InvalidSyncword));
}

#[test]
fn rejects_short_buffer() {
    let buf = [0x7F, 0xFE, 0x80, 0x01];
    assert_eq!(parse_header(&buf), Err(ParseError::InsufficientData));
}

#[test]
fn core_header_fields_are_read() {
    let info = parse_header(&core_frame(128)).unwrap();
    assert_eq!(info.npcmblocks, 8);
    assert_eq!(info.audio_mode, AudioMode::ThreeF2R);
    assert_eq!(info.audio_mode.channel_count(), 5);
    assert_eq!(info.lfe_present, 1);
    assert_eq!(info.source_pcm_res, 24);
    assert!(info.es_format && info.predictor_history && !info.crc_present);
}

#[test]
fn every_core_header_check_has_its_error() {
    let cases = [
        (33usize, 5usize, 30u32, ParseError::DeficitSamples),
        (39, 7, 6, ParseError::PcmBlocks),
        (46, 14, 94, ParseError::FrameSize),
        (60, 6, 10, ParseError::AudioMode(10)),
        (66, 4, 0, ParseError::SampleRate),
        (75, 1, 1, ParseError::ReservedBit),
        (85, 2, 3, ParseError::LfeFlag),
        (95, 3, 4, ParseError::PcmRes),
    ];
    for (pos, n, value, error) in cases {
        let mut frame = core_frame(128);
        set_bits(&mut frame, pos, n, value);
        assert_eq!(parse_header(&frame), Err(error));
    }
}

#[test]
fn pieces_of_a_stream_give_the_same_frames() {
    let mut stream = vec![9u8, 9, 9];
    stream.extend_from_slice(&core_frame(96));
    stream.extend_from_slice(&core_frame(128));
    for piece in [1usize, 7, 100, 500] {
        let mut ex = Extractor::default();
        let mut sizes = Vec::new();
        for part in stream.chunks(piece) {
            ex.push_bytes(part);
            while let Some(frame) = ex.next_frame().unwrap() {
                sizes.push(frame.as_bytes().len());
            }
        }
        assert_eq!(sizes, vec![96, 128]);
        assert_eq!(ex.buffered_len(), 0);
    }
}

#[test]
fn a_bad_core_header_is_an_extract_error() {
    let mut frame = core_frame(128);
    set_bits(&mut frame, 85, 2, 3);
    let mut ex = Extractor::default();
    ex.push_bytes(&frame);
    let got = ex.next_frame();
    assert!(matches!(got, Err(ExtractError::InvalidHeader(ParseError::LfeFlag))), "{got:?}");
}
