use harletty::eac3::metadata::MetadataParseState;
use harletty::eac3::oamd::{
    OamdBlockUpdate, OamdElement, OamdElementKind, OamdObjectElement, OamdPayload,
};
use harletty::eac3::types::ObjectAnchor;
use harletty::eac3::oamd_block::{
    ObjectDistance, ObjectGain, ObjectPosition, ObjectSize, OamdObjectBlock,
};

fn block_updates(count: usize) -> Vec<OamdBlockUpdate> {
    (0..count)
        .map(|index| OamdBlockUpdate {
            offset: index as i16 * 16,
            ramp_duration: 0,
        })
        .collect()
}

fn payload_with_object_blocks(object_blocks: Vec<Vec<OamdObjectBlock>>) -> OamdPayload {
    let block_count = object_blocks.first().map(Vec::len).unwrap_or(0);
    OamdPayload {
        version: 0,
        object_count: object_blocks.len(),
        alternate_object_present: false,
        element_count: 1,
        beds: 0,
        bed_instances: 0,
        bed_or_isf_objects: 0,
        dynamic_objects: object_blocks.len(),
        isf_in_use: false,
        isf_index: None,
        bed_assignment: Vec::new(),
        elements: vec![OamdElement {
            element_index: 1,
            byte_length: 0,
            kind: OamdElementKind::Object(OamdObjectElement {
                sample_offset: 0,
                block_updates: block_updates(block_count),
                object_blocks,
            }),
        }],
    }
}

fn second_block(payload: &OamdPayload) -> &OamdObjectBlock {
    let OamdElementKind::Object(object) = &payload.elements[0].kind else {
        panic!("expected object element");
    };
    &object.object_blocks[0][1]
}

#[test]
fn oamd_state_reuses_omitted_fields_across_frames() {
    let position = ObjectPosition::Absolute {
        x: 15,
        y: 31,
        above: false,
        z: 4,
    };
    let mut initial = payload_with_object_blocks(vec![vec![
        OamdObjectBlock::default(),
        OamdObjectBlock {
            basic_info_status: 3,
            basic_info_blocks: Some(3),
            render_info_status: 3,
            render_info_blocks: Some(13),
            anchor: ObjectAnchor::Screen,
            gain: Some(ObjectGain::Decibels(-6)),
            priority: Some(7),
            valid_position: true,
            differential_position: false,
            position: Some(position),
            distance: Some(ObjectDistance::Factor(8)),
            size: Some(ObjectSize::Scalar(8)),
            screen_factor: Some(3),
            depth_factor: Some(3),
            ..OamdObjectBlock::default()
        },
    ]]);
    let mut omitted = payload_with_object_blocks(vec![vec![
        OamdObjectBlock::default(),
        OamdObjectBlock {
            basic_info_status: 0,
            render_info_status: 0,
            ..OamdObjectBlock::default()
        },
    ]]);

    let mut state = MetadataParseState::default();
    state.oamd.resolve_payload(&mut initial);
    state.oamd.resolve_payload(&mut omitted);

    let resolved = second_block(&omitted);
    assert_eq!(resolved.anchor, ObjectAnchor::Screen);
    assert_eq!(resolved.gain, Some(ObjectGain::Decibels(-6)));
    assert_eq!(resolved.priority, Some(7));
    assert!(resolved.valid_position);
    assert!(!resolved.differential_position);
    assert_eq!(resolved.position, Some(position));
    assert_eq!(resolved.distance, Some(ObjectDistance::Factor(8)));
    assert_eq!(resolved.size, Some(ObjectSize::Scalar(8)));
    assert_eq!(resolved.screen_factor, Some(3));
    assert_eq!(resolved.depth_factor, Some(3));
}

#[test]
fn oamd_state_clears_valid_position_when_render_info_excludes_position() {
    let position = ObjectPosition::Delta { x: 3, y: -1, z: 2 };
    let mut first = payload_with_object_blocks(vec![vec![
        OamdObjectBlock::default(),
        OamdObjectBlock {
            basic_info_status: 3,
            basic_info_blocks: Some(3),
            render_info_status: 3,
            render_info_blocks: Some(13),
            anchor: ObjectAnchor::Screen,
            gain: Some(ObjectGain::Decibels(-2)),
            priority: Some(3),
            valid_position: true,
            differential_position: true,
            position: Some(position),
            distance: Some(ObjectDistance::Factor(7)),
            size: Some(ObjectSize::Scalar(12)),
            screen_factor: Some(4),
            depth_factor: Some(1),
            ..OamdObjectBlock::default()
        },
    ]]);
    let mut second = payload_with_object_blocks(vec![vec![
        OamdObjectBlock::default(),
        OamdObjectBlock {
            basic_info_status: 0,
            render_info_status: 3,
            render_info_blocks: Some(4),
            size: Some(ObjectSize::Scalar(23)),
            ..OamdObjectBlock::default()
        },
    ]]);

    let mut state = MetadataParseState::default();
    state.oamd.resolve_payload(&mut first);
    state.oamd.resolve_payload(&mut second);

    let resolved = second_block(&second);
    assert_eq!(resolved.anchor, ObjectAnchor::Screen);
    assert_eq!(resolved.gain, Some(ObjectGain::Decibels(-2)));
    assert_eq!(resolved.priority, Some(3));
    assert!(!resolved.valid_position);
    assert!(resolved.differential_position);
    assert_eq!(resolved.position, Some(position));
    assert_eq!(resolved.distance, Some(ObjectDistance::Factor(7)));
    assert_eq!(resolved.size, Some(ObjectSize::Scalar(23)));
    assert_eq!(resolved.screen_factor, Some(4));
    assert_eq!(resolved.depth_factor, Some(1));
}

#[test]
fn a_reset_state_fills_nothing_in() {
    let mut initial = payload_with_object_blocks(vec![vec![
        OamdObjectBlock::default(),
        OamdObjectBlock {
            basic_info_status: 3,
            basic_info_blocks: Some(3),
            priority: Some(7),
            ..OamdObjectBlock::default()
        },
    ]]);
    let omitted = payload_with_object_blocks(vec![vec![OamdObjectBlock::default(); 2]]);
    let mut state = MetadataParseState::default();
    state.oamd.resolve_payload(&mut initial);
    let mut kept = omitted.clone();
    state.oamd.resolve_payload(&mut kept);
    assert_eq!(second_block(&kept).priority, Some(7));
    state.reset();
    let mut cleared = omitted;
    state.oamd.resolve_payload(&mut cleared);
    assert_eq!(second_block(&cleared).priority, None);
}
