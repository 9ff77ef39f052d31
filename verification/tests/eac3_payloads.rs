use harletty::bit_writer::BitWriter;
use harletty::bits::BitReader;
use harletty::eac3::joc::{parse_joc_payload, JocObjectData};
use harletty::eac3::metadata::{
    parse_emdf_payload_body_with_state, MetadataParseState, ParsedEmdfPayloadData,
    ParsedEmdfPayloadKind,
};
use harletty::eac3::oamd::{parse_oamd_payload, OamdElementKind};
use harletty::eac3::oamd_block::{ObjectDistance, ObjectGain, ObjectPosition, ObjectSize};
use harletty::eac3::pcm::{
    check_length, plan_objects, EmdfPayload, ObjectAction, ObjectPcmDecoder, PcmAction, PcmDecoder,
    PcmEvent,
};
use harletty::eac3::syncframe::ParseError;
use harletty::eac3::types::{BedChannel, ObjectAnchor};

fn bytes_of(fields: &[(usize, u32)]) -> Vec<u8> {
    let mut w = BitWriter::new();
    for &(bits, value) in fields {
        w.write(bits, value);
    }
    w.finish()
}

/// Two objects over five channels: the first dense with one band, the second
/// inactive.
fn joc_fields() -> Vec<(usize, u32)> {
    vec![
        (3, 0),
        (6, 1),
        (3, 0),
        (3, 5),
        (5, 16),
        (10, 77),
        (1, 1),
        (3, 0),
        (1, 0),
        (1, 0),
        (1, 0),
        (1, 0),
        (1, 0),
        // The coefficients: 1, 0, 1, 0, 0.
        (2, 3),
        (1, 0),
        (2, 3),
        (1, 0),
        (1, 0),
    ]
}

/// One dynamic object with one block, and the low-frequency bed channel.
fn oamd_fields() -> Vec<(usize, u32)> {
    vec![
        (2, 0),
        (5, 1),
        (1, 1),
        (1, 1),
        (1, 0),
        (4, 1),
        // The element: 12 bytes.
        (4, 1),
        (4, 11),
        (1, 0),
        (1, 0),
        (2, 2),
        (5, 9),
        (3, 0),
        (6, 4),
        (2, 1),
        (1, 1),
        // The bed channel: full gain, default priority.
        (1, 0),
        (2, 0),
        (1, 1),
        (1, 0),
        // The object.
        (1, 0),
        (2, 2),
        (6, 20),
        (1, 0),
        (5, 21),
        (6, 31),
        (6, 62),
        (1, 1),
        (4, 7),
        (1, 1),
        (1, 0),
        (4, 3),
        (4, 0),
        (2, 1),
        (5, 12),
        (1, 1),
        (3, 5),
        (2, 2),
        (1, 0),
        (1, 0),
        (32, 0),
    ]
}

#[test]
fn dense_objects_are_read_channel_by_channel() {
    let bytes = bytes_of(&joc_fields());
    let mut reader = BitReader::new(&bytes);
    let payload = parse_joc_payload(&mut reader).unwrap();
    assert_eq!(payload.channel_count, 5);
    assert_eq!(payload.object_count, 2);
    assert_eq!((payload.gain_power, payload.gain_fraction), (5, 16));
    assert_eq!(payload.sequence_counter, 77);
    assert_eq!(payload.active_object_count(), 1);
    assert_eq!(
        payload.objects[0].data,
        Some(JocObjectData::Dense {
            matrices: vec![vec![vec![1], vec![0], vec![1], vec![0], vec![0]]],
        })
    );
    assert_eq!(payload.objects[0].bands, 1);
    assert!(!payload.objects[1].active);
    assert_eq!(payload.objects[1].data, None);
}

#[test]
fn objects_missing_at_the_end_are_inactive() {
    // Five objects are declared; the data ends behind the header.
    let bytes = bytes_of(&[(3, 3), (6, 4), (3, 0), (3, 0), (5, 0), (10, 0), (1, 0), (1, 0)]);
    let mut reader = BitReader::new(&bytes);
    let payload = parse_joc_payload(&mut reader).unwrap();
    assert_eq!(payload.objects.len(), 5);
    assert_eq!(payload.active_object_count(), 0);
}

#[test]
fn object_coding_errors_are_told_apart() {
    let parse = |fields: &[(usize, u32)]| {
        let bytes = bytes_of(fields);
        parse_joc_payload(&mut BitReader::new(&bytes)).err()
    };
    assert_eq!(
        parse(&[(3, 5), (29, 0)]),
        Some(ParseError::UnsupportedFeature("joc_dmx_config_idx"))
    );
    assert_eq!(
        parse(&[(3, 0), (6, 0), (3, 1), (28, 0)]),
        Some(ParseError::UnsupportedFeature("joc_ext_config_idx"))
    );
    assert_eq!(parse(&[]), Some(ParseError::InvalidHeader("joc_dmx_config_idx")));
}

#[test]
fn object_metadata_is_read_field_by_field() {
    let bytes = bytes_of(&oamd_fields());
    let payload = parse_oamd_payload(&mut BitReader::new(&bytes)).unwrap();
    assert_eq!(payload.object_count, 2);
    assert_eq!(payload.bed_assignment, vec![vec![BedChannel::LowFrequencyEffects]]);
    assert_eq!((payload.beds, payload.bed_or_isf_objects, payload.dynamic_objects), (1, 1, 1));
    let OamdElementKind::Object(element) = &payload.elements[0].kind else {
        panic!("expected object element");
    };
    assert_eq!(payload.elements[0].byte_length, 12);
    assert_eq!(element.sample_offset, 9);
    assert_eq!(element.block_updates.len(), 1);
    assert_eq!(element.block_updates[0].offset, 13);
    assert_eq!(element.block_updates[0].ramp_duration, 512);
    let bed = &element.object_blocks[0][0];
    assert_eq!(bed.anchor, ObjectAnchor::Speaker);
    assert_eq!(bed.gain, Some(ObjectGain::Unity));
    assert_eq!(bed.position, None);
    let object = &element.object_blocks[1][0];
    assert_eq!(object.anchor, ObjectAnchor::Screen);
    assert_eq!(object.gain, Some(ObjectGain::Decibels(-6)));
    assert_eq!(object.priority, Some(21));
    assert_eq!(
        object.position,
        Some(ObjectPosition::Absolute { x: 31, y: 62, above: true, z: 7 })
    );
    assert_eq!(object.distance, Some(ObjectDistance::Factor(3)));
    assert_eq!(object.size, Some(ObjectSize::Scalar(12)));
    assert_eq!((object.screen_factor, object.depth_factor), (Some(5), Some(2)));
    assert!(object.valid_position && !object.differential_position);
}

#[test]
fn payload_bodies_go_by_their_id() {
    let mut state = MetadataParseState::default();
    let joc = bytes_of(&joc_fields());
    let oamd = bytes_of(&oamd_fields());
    let kinds: Vec<ParsedEmdfPayloadKind> = [(14u8, &joc), (11, &oamd), (1, &joc)]
        .into_iter()
        .map(|(id, bytes)| {
            parse_emdf_payload_body_with_state(id, bytes, &mut state).unwrap().kind()
        })
        .collect();
    assert_eq!(
        kinds,
        [
            ParsedEmdfPayloadKind::Joc,
            ParsedEmdfPayloadKind::Oamd,
            ParsedEmdfPayloadKind::Unknown,
        ]
    );
    assert_eq!(
        parse_emdf_payload_body_with_state(11, &[0xff], &mut state),
        Err(ParseError::UnsupportedFeature("OAver"))
    );
}

fn payloads() -> Vec<EmdfPayload> {
    let mut state = MetadataParseState::default();
    let joc = bytes_of(&joc_fields());
    let oamd = bytes_of(&oamd_fields());
    [(1u8, &joc), (11, &oamd), (14, &joc), (11, &oamd)]
        .into_iter()
        .map(|(id, bytes)| EmdfPayload {
            parsed: parse_emdf_payload_body_with_state(id, bytes, &mut state).unwrap(),
            sample_offset: None,
        })
        .collect()
}

#[test]
fn objects_are_planned_from_the_first_coding_payload() {
    let all = payloads();
    let plan = plan_objects(&all).unwrap();
    assert_eq!(plan.joc, 2);
    assert_eq!(plan.oamd, vec![1, 3]);
    assert_eq!(plan.object_active, vec![true, false]);
    assert!(plan_objects(&all[..2].to_vec()).is_none());
}

#[test]
fn lengths_other_than_the_declared_one_are_refused() {
    assert_eq!(check_length(100, 100), Ok(()));
    assert_eq!(
        check_length(99, 100),
        Err(ParseError::TruncatedFrame { expected: 100, available: 99 })
    );
    assert_eq!(
        check_length(101, 100),
        Err(ParseError::TrailingData { expected: 100, provided: 101 })
    );
}

#[test]
fn an_error_resets_the_state_and_keeps_the_count() {
    let mut dec = PcmDecoder::new();
    let whole = PcmEvent::Inspected { expected: 64, available: 64 };
    assert_eq!(dec.push_access_unit(whole), PcmAction::Decode);
    assert_eq!(dec.push_access_unit(PcmEvent::Decoded), PcmAction::Deliver { frames_seen: 1 });
    let oamd = bytes_of(&oamd_fields());
    parse_emdf_payload_body_with_state(11, &oamd, &mut dec.metadata).unwrap();
    let cut = PcmEvent::Inspected { expected: 64, available: 63 };
    assert_eq!(
        dec.push_access_unit(cut),
        PcmAction::Reset(ParseError::TruncatedFrame { expected: 64, available: 63 })
    );
    assert_eq!(dec.frames_seen(), 1);
    assert_eq!(
        dec.push_access_unit(PcmEvent::Failed(ParseError::ShortPacket)),
        PcmAction::Reset(ParseError::ShortPacket)
    );
    assert_eq!(dec.push_access_unit(whole), PcmAction::Decode);
    assert_eq!(dec.push_access_unit(PcmEvent::Decoded), PcmAction::Deliver { frames_seen: 2 });
    dec.reset();
    assert_eq!(dec.frames_seen(), 0);
}

#[test]
fn units_without_objects_are_skipped() {
    let mut dec = ObjectPcmDecoder::new();
    let whole = PcmEvent::Inspected { expected: 64, available: 64 };
    assert!(matches!(dec.push_access_unit(whole, &Vec::new()), ObjectAction::Skip));
    assert_eq!(dec.frames_seen(), 0);
    let all = payloads();
    assert!(matches!(
        dec.push_access_unit(whole, &all),
        ObjectAction::Decode(plan) if plan.joc == 2
    ));
    assert!(matches!(
        dec.push_access_unit(PcmEvent::Decoded, &all),
        ObjectAction::Deliver { frames_seen: 1 }
    ));
    assert!(matches!(all[2].parsed, ParsedEmdfPayloadData::Joc(_)));
}

#[test]
fn legacy_units_are_counted_with_the_others() {
    let mut dec = PcmDecoder::new();
    let whole = PcmEvent::Inspected { expected: 1536, available: 1536 };
    assert_eq!(dec.push_legacy_ac3_access_unit(whole), PcmAction::Decode);
    assert_eq!(
        dec.push_legacy_ac3_access_unit(PcmEvent::Decoded),
        PcmAction::Deliver { frames_seen: 1 }
    );
    let long = PcmEvent::Inspected { expected: 1536, available: 1538 };
    assert_eq!(
        dec.push_legacy_ac3_access_unit(long),
        PcmAction::Reset(ParseError::TrailingData { expected: 1536, provided: 1538 })
    );
    assert_eq!(dec.push_access_unit(PcmEvent::Decoded), PcmAction::Deliver { frames_seen: 2 });
}

#[test]
fn objects_over_a_given_core_are_planned_alike() {
    let mut dec = ObjectPcmDecoder::new();
    let whole = PcmEvent::Inspected { expected: 64, available: 64 };
    let all = payloads();
    assert!(matches!(dec.push_access_unit_with_core(whole, &Vec::new()), ObjectAction::Skip));
    assert!(matches!(
        dec.push_access_unit_with_core(whole, &all),
        ObjectAction::Decode(plan) if plan.joc == 2 && plan.oamd == vec![1, 3]
    ));
    let oamd = bytes_of(&oamd_fields());
    parse_emdf_payload_body_with_state(11, &oamd, &mut dec.pcm.metadata).unwrap();
    assert!(matches!(
        dec.push_access_unit_with_core(PcmEvent::Failed(ParseError::ShortPacket), &all),
        ObjectAction::Reset(ParseError::ShortPacket)
    ));
    assert_eq!(dec.frames_seen(), 0);
}
