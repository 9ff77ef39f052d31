use harletty::eac3::extract::Extractor;
use harletty::eac3::parser::{
    legacy_ac3_frame_size, parse_header, parse_legacy_ac3_header, ChannelMode, ParseError,
    SampleRateCode, StreamType,
};

const HEADER: [u8; 7] = [0x0B, 0x77, 0x00, 0x7F, 0x05, 0x80, 0x00];

fn frame() -> Vec<u8> {
    let mut frame = vec![0x0B, 0x77, 0x00, 0x07, 0x05, 0x80, 0x00];
    frame.resize(16, 0xAA);
    frame
}

#[test]
fn extracts_complete_frame_after_garbage() {
    let frame = frame();
    let mut extractor = Extractor::default();

    extractor.push_bytes(&[0x00, 0x01, 0x02]);
    extractor.push_bytes(&frame);

    let extracted = extractor.next_frame().unwrap().unwrap();
    assert_eq!(extracted.as_bytes(), frame.as_slice());
    assert_eq!(extracted.info().frame_size, 16);
    assert_eq!(extractor.next_frame().unwrap(), None);
}

#[test]
fn waits_for_complete_frame() {
    let frame = frame();
    let mut extractor = Extractor::default();

    extractor.push_bytes(&frame[..8]);
    assert_eq!(extractor.next_frame().unwrap(), None);
    extractor.push_bytes(&frame[8..]);

    assert_eq!(
        extractor.next_frame().unwrap().unwrap().as_bytes(),
        frame.as_slice()
    );
}

#[test]
fn parses_syncframe_header() {
    let info = parse_header(&HEADER).unwrap();

    assert_eq!(info.stream_type, StreamType::Independent);
    assert_eq!(info.substream_id, 0);
    assert_eq!(info.frame_size, 256);
    assert_eq!(info.sample_rate, 48_000);
    assert_eq!(info.num_blocks, 1);
    assert_eq!(info.samples, 256);
    assert_eq!(info.channel_mode, ChannelMode::Stereo);
    assert!(info.lfe);
    assert_eq!(info.channels(), 3);
    assert_eq!(info.bitstream_id, 16);
    assert_eq!(info.bitrate(), 384_000);
}

#[test]
fn rejects_non_eac3_bsid() {
    let mut header = HEADER;
    header[5] = 0x40;

    assert_eq!(
        parse_header(&header),
        Err(ParseError::UnsupportedBitstreamId(8))
    );
}

#[test]
fn parses_half_sample_rate_header() {
    let header = [0x0B, 0x77, 0x00, 0x7F, 0xE5, 0x80, 0x00];
    let info = parse_header(&header).unwrap();

    assert_eq!(info.sample_rate_code, SampleRateCode::Half(2));
    assert_eq!(info.sample_rate, 16_000);
    assert_eq!(info.num_blocks, 6);
    assert_eq!(info.samples, 1536);
}

#[test]
fn legacy_ac3_frame_size_adds_the_padding_word_at_44_1_khz() {
    assert_eq!(legacy_ac3_frame_size(0, 28), Some(1536));
    assert_eq!(legacy_ac3_frame_size(0, 29), Some(1536));
    assert_eq!(legacy_ac3_frame_size(1, 28), Some(1670));
    assert_eq!(legacy_ac3_frame_size(1, 29), Some(1672));
    assert_eq!(legacy_ac3_frame_size(2, 28), Some(2304));
    assert_eq!(legacy_ac3_frame_size(2, 29), Some(2304));
    assert_eq!(legacy_ac3_frame_size(3, 0), None);
    assert_eq!(legacy_ac3_frame_size(1, 38), None);
}

#[test]
fn parses_legacy_ac3_header_at_44_1_khz_odd_frmsizecod() {
    let header = [0x0B, 0x77, 0x00, 0x00, 0x5D, 0x40, 0xE1];
    let info = parse_legacy_ac3_header(&header).unwrap();
    assert_eq!(info.sample_rate, 44_100);
    assert_eq!(info.frame_size, 1672);
    assert_eq!(info.bitstream_id, 8);

    let even = [0x0B, 0x77, 0x00, 0x00, 0x5C, 0x40, 0xE1];
    assert_eq!(parse_legacy_ac3_header(&even).unwrap().frame_size, 1670);
}

#[test]
fn every_syncframe_check_has_its_error() {
    assert_eq!(parse_header(&HEADER[..4]), Err(ParseError::InsufficientData));
    let mut bad = HEADER;
    bad[0] = 0x0C;
    assert_eq!(parse_header(&bad), Err(ParseError::InvalidSyncword));
    let mut reserved = HEADER;
    reserved[4] = 0xF5;
    assert_eq!(parse_header(&reserved), Err(ParseError::ReservedSampleRateCode));
}

#[test]
fn pieces_of_a_syncframe_stream_give_the_same_frames() {
    let mut stream = vec![1u8];
    stream.extend_from_slice(&frame());
    stream.extend_from_slice(&frame());
    for piece in [1usize, 5, 40] {
        let mut ex = Extractor::default();
        let mut count = 0;
        for part in stream.chunks(piece) {
            ex.push_bytes(part);
            while let Some(got) = ex.next_frame().unwrap() {
                assert_eq!(got.as_bytes(), frame().as_slice());
                count += 1;
            }
        }
        assert_eq!(count, 2);
    }
}
