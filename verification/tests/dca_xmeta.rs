use harletty::dca::alternate::{
    alternate_protected_prefix, XLL_X_ALT_MARKER_TAIL, XLL_X_ALT_OUTER_SUFFIX,
};
use harletty::dca::crc::crc16_ccitt;
use harletty::dca::spatial::SpatialChannel;
use harletty::dca::xmeta::{
    full_columns, gain_code_entry, reference_speakers, BedFold, Column, FoldPlan, SourceMetadata, SourceRole,
    SphericalPosition, XMetadata, XMetadataError, CENTRE_HEIGHT_MASK, FOLD_SPEAKERS, HEIGHT_MASK,
    REFERENCE_MASK_5_1, REFERENCE_MASK_7_1, TYPE3_CONTROL, UNITY_CODE,
};

/// The 7.1 full layout: reference channels plus the height pairs.
const FULL_MASK_7_1: u32 = REFERENCE_MASK_7_1 | HEIGHT_MASK;

struct FieldWriter {
    bits: Vec<u8>,
}

impl FieldWriter {
    fn new() -> Self {
        Self { bits: Vec::new() }
    }

    fn push(&mut self, value: u32, width: usize) -> &mut Self {
        for bit in (0..width).rev() {
            self.bits.push(((value >> bit) & 1) as u8);
        }
        self
    }

    fn align(&mut self) -> &mut Self {
        while self.bits.len() % 8 != 0 {
            self.bits.push(0);
        }
        self
    }

    fn bytes(&self) -> Vec<u8> {
        let mut bytes = vec![0u8; self.bits.len().div_ceil(8)];
        for (i, bit) in self.bits.iter().enumerate() {
            bytes[i / 8] |= bit << (7 - i % 8);
        }
        bytes
    }
}

fn crc_appended(mut bytes: Vec<u8>) -> Vec<u8> {
    let crc = crc16_ccitt(&bytes);
    bytes.extend_from_slice(&crc.to_be_bytes());
    bytes
}

fn layout_header_bits(w: &mut FieldWriter, kind: u32, output_mask: u32, explicit_mask: bool) {
    w.push(kind, 8)
        .push(0, 8)
        .push(0, 1)
        .push(1, 4)
        .push(u32::from(kind == 3), 4);
    if explicit_mask {
        w.push(1, 1)
            .push(0, 1)
            .push(1, 1)
            .push(0, 2)
            .push(0, 3)
            .push(2, 3)
            .push(REFERENCE_MASK_7_1, 12);
    } else {
        w.push(0, 1).push(0, 1).push(0, 4);
    }
    w.push(1, 1)
        .push(UNITY_CODE, 6)
        .push(0, 1)
        .push(3, 3)
        .push(output_mask, 16);
}

/// A standard type-2 matrix: `rows[i]` is `(target mask, gain code)` for
/// height `i`, followed by the bare XLL bytes the decoder would find.
fn standard_payload(rows: [(u32, u32); 4]) -> Vec<u8> {
    let mut w = FieldWriter::new();
    layout_header_bits(&mut w, 2, FULL_MASK_7_1, true);
    w.push(2, 5)
        .push(0, 6)
        .push(1, 1)
        .push(0, 1)
        .push(1, 1)
        .push(UNITY_CODE, 6)
        .push(0, 1);
    for (mask, code) in rows {
        w.push(mask, 8);
        for column in 0..8 {
            if mask & (1 << column) != 0 {
                w.push(code, 6);
            }
        }
    }
    w.align();
    let mut payload = crc_appended(w.bytes());
    // Something after the protected prefix, as in a real frame.
    payload.extend_from_slice(&[0x41, 0xa0, 0x00, 0x00]);
    payload
}

struct ObjectRecord {
    mode: u32,
    index: u32,
    distance: u32,
    azimuth: u32,
    elevation: u32,
    /// `(reference mask, gain code)`; `None` when the row is absent.
    row: Option<(u32, u32)>,
    centre_height: bool,
}

/// An alternate prefix (type 241 + type 3, CRC-delimited) followed by
/// the outer control suffix and a few bytes, as `x_payload` carries it.
/// `height_rows[i]` is `(full-layout mask, bed gain code)` for height
/// row `i`; its height column is set at unity by `height_column`.
fn alternate_payload(
    records: &[ObjectRecord],
    height_rows: [(u32, u32); 4],
) -> Vec<u8> {
    alternate_payload_with(records, height_rows, false)
}

/// `explicit_type3_mask` writes the type-3 reference mask explicitly
/// instead of inheriting it.
fn alternate_payload_with(
    records: &[ObjectRecord],
    height_rows: [(u32, u32); 4],
    explicit_type3_mask: bool,
) -> Vec<u8> {
    let mut w = FieldWriter::new();
    // The profile byte (0xd0/0xd1/0xd3) is the header fields below with
    // the declaration count in its low nibble, not a separate field.
    w.push(0xf1, 8)
        .push(0x40, 8)
        .push(0, 4)
        .push(0, 1)
        .push(1, 4)
        .push(1, 1)
        .push(0, 1)
        .push(1, 1)
        .push(records.len() as u32 - 1, 4);
    w.push(0, 1)
        .push(0, 1)
        .push(1, 1)
        .push(1, 1)
        .push(0, 2)
        .push(0, 3);
    w.push(2, 3).push(REFERENCE_MASK_7_1, 12).push(0, 8);
    for record in records {
        w.push(1, 1)
            .push(3, 2)
            .push(record.index, 3)
            .push(record.mode, 2)
            .push(0, 10);
    }
    for record in records {
        if record.mode == 0 {
            w.push(1, 4);
        } else {
            w.push(0, 3);
        }
        w.push(0x20, 7)
            .push(1, 1)
            .push(1, 1)
            .push(0, 2)
            .push(UNITY_CODE, 6);
        w.push(record.distance, 6)
            .push(record.azimuth, 8)
            .push(record.elevation, 7)
            .push(0, 1);
        if record.mode == 1 {
            match record.row {
                Some((mask, code)) => {
                    w.push(1, 1).push(0, 1).push(mask, 8);
                    for column in 0..8 {
                        if mask & (1 << column) != 0 {
                            w.push(code, 6);
                        }
                    }
                }
                None => {
                    w.push(0, 1).push(0, 1);
                }
            }
        }
    }
    let any_aux = records.iter().any(|record| record.centre_height);
    w.push(u32::from(any_aux), 1);
    if any_aux {
        for record in records {
            w.push(u32::from(record.centre_height), 1);
            if record.centre_height {
                w.push(0, 2)
                    .push(8, 5)
                    .push(CENTRE_HEIGHT_MASK, 8)
                    .push(1, 1)
                    .push(1, 1)
                    .push(UNITY_CODE, 6);
            }
        }
    }
    w.align();
    let type241 = w.bytes();

    let mut w = FieldWriter::new();
    layout_header_bits(&mut w, 3, FULL_MASK_7_1, explicit_type3_mask);
    w.push(2, 5)
        .push(0, 6)
        .push(1, 1)
        .push(0, 1)
        .push(TYPE3_CONTROL, 12);
    for (mask, code) in height_rows {
        w.push(mask, 12);
        let columns = full_columns(FULL_MASK_7_1).unwrap();
        for (column, entry) in columns.iter().enumerate() {
            if mask & (1 << column) != 0 {
                let height = matches!(entry, Column::Height(_));
                w.push(if height { UNITY_CODE } else { code }, 6);
            }
        }
    }
    w.align();
    let type3 = w.bytes();

    let mut prefix = type241;
    prefix.extend_from_slice(&type3);
    let mut payload = crc_appended(prefix);
    payload.extend_from_slice(&XLL_X_ALT_OUTER_SUFFIX);
    payload.extend_from_slice(&[0xb2, 0, 0, 0, 0, 0, 0, 0]);
    payload
}

/// The object-only variant on a 5.1 bed: one mode-1 record over the
/// reference mask `0x00f` (four-bit width field, six fold columns,
/// declaration field 1), no type-3 element, and an outer marker saying
/// that only the first channel set follows.
fn object_only_payload(record: &ObjectRecord) -> Vec<u8> {
    let mut w = FieldWriter::new();
    w.push(0xf1, 8)
        .push(0x40, 8)
        .push(0, 4)
        .push(0, 1)
        .push(1, 4)
        .push(1, 1)
        .push(0, 1)
        .push(1, 1)
        .push(0, 4);
    w.push(0, 1)
        .push(0, 1)
        .push(1, 1)
        .push(1, 1)
        .push(0, 2)
        .push(0, 3);
    w.push(0, 3).push(REFERENCE_MASK_5_1, 4).push(0, 8);
    w.push(1, 1)
        .push(1, 2)
        .push(record.index, 3)
        .push(record.mode, 2)
        .push(0, 10);
    if record.mode == 0 {
        w.push(1, 4);
    } else {
        w.push(0, 3);
    }
    w.push(0x20, 7)
        .push(1, 1)
        .push(1, 1)
        .push(0, 2)
        .push(UNITY_CODE, 6);
    w.push(record.distance, 6)
        .push(record.azimuth, 8)
        .push(record.elevation, 7)
        .push(0, 1);
    if record.mode == 1 {
        match record.row {
            Some((mask, code)) => {
                w.push(1, 1).push(0, 1).push(mask, 6);
                for column in 0..6 {
                    if mask & (1 << column) != 0 {
                        w.push(code, 6);
                    }
                }
            }
            None => {
                w.push(0, 1).push(0, 1);
            }
        }
    }
    w.push(0, 1); // no auxiliary section
    w.align();
    let mut payload = crc_appended(w.bytes());
    payload.push(0x01);
    payload.extend_from_slice(&XLL_X_ALT_MARKER_TAIL);
    payload.extend_from_slice(&[0xb2, 0, 0, 0, 0, 0, 0, 0]);
    payload
}

/// The corpus D3 form: heights folded at code 55 into L, R, Lsr, Rsr.
const HEIGHT_ROWS_55: [(u32, u32); 4] = [
    (1 << 1 | 1 << 4, 55),
    (1 << 2 | 1 << 5, 55),
    (1 << 6 | 1 << 10, 55),
    (1 << 7 | 1 << 11, 55),
];

fn downmix_table() -> [u16; 242] {
    let mut table = [0u16; 242];
    table[4 * 61 - 3] = 32768;
    table[4 * 55 - 3] = 23170;
    table[4 * 58 - 3] = 27571;
    table[4 * 46 - 3] = 13818;
    table
}

#[test]
fn gain_codes_follow_the_downmix_table_at_the_verified_points() {
    let table = downmix_table();
    assert_eq!(gain_code_entry(&table, 61), Some(32768));
    assert_eq!(gain_code_entry(&table, 55), Some(23170));
    assert_eq!(gain_code_entry(&table, 58), Some(27571));
    assert_eq!(gain_code_entry(&table, 46), Some(13818));
    for code in [0, 62, 63, 64, 200] {
        assert_eq!(gain_code_entry(&table, code), None, "code {code}");
    }
}

#[test]
fn spherical_calibration_and_cartesian_conversion() {
    assert_eq!(
        SphericalPosition::from_codes(193, 60, 0),
        SphericalPosition {
            azimuth_half_degrees: 220,
            elevation_half_degrees: 0,
            distance_64ths: 0
        }
    );
    assert_eq!(
        SphericalPosition::from_codes(120, 77, 63),
        SphericalPosition {
            azimuth_half_degrees: 0,
            elevation_half_degrees: 51,
            distance_64ths: 64
        }
    );
    assert_eq!(
        SphericalPosition::from_codes(23, 79, 63).azimuth_half_degrees,
        -291
    );
    assert_eq!(
        SphericalPosition::from_codes(47, 127, 1).azimuth_half_degrees,
        -220
    );
    assert_eq!(
        SphericalPosition::from_codes(255, 127, 1).elevation_half_degrees,
        180
    );
}

#[test]
fn standard_matrix_becomes_height_folds() {
    let payload = standard_payload([(1 << 1, 55), (1 << 2, 55), (1 << 4, 55), (1 << 5, 55)]);
    let metadata = XMetadata::parse(&payload, 4).expect("standard matrix");
    assert_eq!(metadata.source_count(), 4);
    let expected = [
        (SpatialChannel::TopFrontLeft, 1),
        (SpatialChannel::TopFrontRight, 2),
        (SpatialChannel::TopBackLeft, 4),
        (SpatialChannel::TopBackRight, 5),
    ];
    for (feed, (speaker, column)) in expected.into_iter().enumerate() {
        let source = metadata.source(feed).unwrap();
        assert_eq!(source.role, SourceRole::Height(speaker));
        let BedFold::Known(columns) = source.fold else {
            panic!("standard fold must be known");
        };
        for (index, gain) in columns.iter().enumerate() {
            assert_eq!(*gain, if index == column { 55 } else { 0 });
        }
    }
    let plan = FoldPlan::from_metadata(&metadata);
    // Reference column 1 is L (speaker 1), column 4 is Lsr (speaker 7).
    assert_eq!(gains(&plan, 1), [55, 0, 0, 0, 0, 0, 0, 0, 0]);
    assert_eq!(gains(&plan, 7), [0, 0, 55, 0, 0, 0, 0, 0, 0]);
    assert_eq!(gains(&plan, 0), [0; 9]);
    assert!((0..4).all(|feed| plan.source_is_known(feed)));

    let changed = standard_payload([(1 << 0, 54), (1 << 2, 55), (1 << 4, 55), (1 << 5, 55)]);
    let metadata = XMetadata::parse(&changed, 4).unwrap();
    let BedFold::Known(columns) = metadata.source(0).unwrap().fold else {
        panic!()
    };
    assert_eq!(columns[0], 54);
    assert_eq!(columns[1], 0);
}

fn gains(plan: &FoldPlan, speaker: usize) -> [u8; 9] {
    let mut row = [0u8; 9];
    for (feed, gain) in row.iter_mut().enumerate() {
        *gain = plan.gain(speaker, feed);
    }
    row
}

#[test]
fn standard_matrix_rejects_corruption_and_wrong_counts() {
    let payload = standard_payload([(1 << 1, 55), (1 << 2, 55), (1 << 4, 55), (1 << 5, 55)]);
    assert!(XMetadata::parse(&payload, 5).is_err());
    for end in 0..21 {
        assert!(XMetadata::parse(&payload[..end], 4).is_err(), "end {end}");
    }
    for bit in 0..21 * 8 {
        let mut damaged = payload.clone();
        damaged[bit / 8] ^= 1 << (bit % 8);
        assert!(XMetadata::parse(&damaged, 4).is_err(), "bit {bit}");
    }
    assert!(XMetadata::parse(&[0xf1, 0x40, 0x00, 0xd9, 0, 0, 0, 0], 5).is_err());
    assert!(XMetadata::parse(&[], 4).is_err());
}

fn d3_records() -> Vec<ObjectRecord> {
    vec![
        ObjectRecord {
            mode: 1,
            index: 0,
            distance: 63,
            azimuth: 23,
            elevation: 79,
            row: Some((1 << 4 | 1 << 5, 21)),
            centre_height: false,
        },
        ObjectRecord {
            mode: 1,
            index: 1,
            distance: 63,
            azimuth: 217,
            elevation: 78,
            row: Some((1 << 5, 61)),
            centre_height: false,
        },
        ObjectRecord {
            mode: 1,
            index: 2,
            distance: 63,
            azimuth: 20,
            elevation: 60,
            row: None,
            centre_height: false,
        },
        ObjectRecord {
            mode: 1,
            index: 3,
            distance: 63,
            azimuth: 220,
            elevation: 60,
            row: Some((1 << 5, 61)),
            centre_height: false,
        },
    ]
}

#[test]
fn alternate_objects_and_heights_are_read_from_fields() {
    let payload = alternate_payload(&d3_records(), HEIGHT_ROWS_55);
    let metadata = XMetadata::parse(&payload, 8).expect("alternate metadata");
    assert_eq!(metadata.source_count(), 8);

    let object = metadata.source(0).unwrap();
    let SourceRole::Object {
        position,
        centre_height_alternative,
    } = object.role
    else {
        panic!("source 0 is an object");
    };
    assert_eq!(position.azimuth_half_degrees, -291);
    assert_eq!(position.elevation_half_degrees, 57);
    assert_eq!(position.distance_64ths, 64);
    assert!(!centre_height_alternative);
    let BedFold::Known(columns) = object.fold else {
        panic!()
    };
    assert_eq!(columns, [0, 0, 0, 0, 21, 21, 0, 0]);

    // An object without a reference row is not in the bed at all.
    assert_eq!(metadata.source(2).unwrap().fold, BedFold::Known([0; 8]));

    let heights = [
        SpatialChannel::TopFrontLeft,
        SpatialChannel::TopFrontRight,
        SpatialChannel::TopBackLeft,
        SpatialChannel::TopBackRight,
    ];
    for (feed, speaker) in (4..8).zip(heights) {
        let source = metadata.source(feed).unwrap();
        assert_eq!(source.role, SourceRole::Height(speaker));
        let BedFold::Known(columns) = source.fold else {
            panic!()
        };
        assert_eq!(columns.iter().filter(|&&g| g != 0).count(), 1);
        assert_eq!(columns.iter().sum::<u8>(), 55);
    }

    let plan = FoldPlan::from_metadata(&metadata);
    // Lsr (speaker 7) receives object 0 at code 21 and height TBL (feed 6) at code 55.
    assert_eq!(gains(&plan, 7), [21, 0, 0, 0, 0, 0, 55, 0, 0]);
    // L (speaker 1) receives only height TFL (feed 4).
    assert_eq!(gains(&plan, 1), [0, 0, 0, 0, 55, 0, 0, 0, 0]);
    assert!((0..8).all(|feed| plan.source_is_known(feed)));
    assert!(plan.touches(7) && plan.touches(1) && !plan.touches(0));
}

#[test]
fn declaration_order_and_indices_come_from_fields() {
    let mut records = d3_records();
    records.swap(0, 3);
    records.swap(1, 2);
    let payload = alternate_payload(&records, HEIGHT_ROWS_55);
    let metadata = XMetadata::parse(&payload, 8).unwrap();
    let SourceRole::Object { position, .. } = metadata.source(0).unwrap().role else {
        panic!()
    };
    assert_eq!(
        position.azimuth_half_degrees, -291,
        "index 0 keeps its record"
    );
    let SourceRole::Object { position, .. } = metadata.source(3).unwrap().role else {
        panic!()
    };
    assert_eq!(position.azimuth_half_degrees, 300);

    let mut duplicate = d3_records();
    duplicate[1].index = 0;
    assert!(XMetadata::parse(&alternate_payload(&duplicate, HEIGHT_ROWS_55), 8).is_err());
    assert!(
        XMetadata::parse(&payload, 7).is_err(),
        "count must match the declarations"
    );
    assert!(XMetadata::parse(&payload, 4).is_err());
}

#[test]
fn mode0_objects_have_positions_but_no_usable_fold() {
    let records = vec![
        ObjectRecord {
            mode: 0,
            index: 0,
            distance: 63,
            azimuth: 97,
            elevation: 68,
            row: None,
            centre_height: false,
        },
        ObjectRecord {
            mode: 0,
            index: 1,
            distance: 63,
            azimuth: 143,
            elevation: 68,
            row: None,
            centre_height: false,
        },
    ];
    let payload = alternate_payload(&records, HEIGHT_ROWS_55);
    let metadata = XMetadata::parse(&payload, 6).unwrap();
    for feed in 0..2 {
        let source = metadata.source(feed).unwrap();
        assert_eq!(source.fold, BedFold::Unknown);
        let SourceRole::Object { position, .. } = source.role else {
            panic!()
        };
        assert_eq!(
            position.azimuth_half_degrees,
            if feed == 0 { -69 } else { 69 }
        );
        assert_eq!(position.elevation_half_degrees, 24);
    }
    let plan = FoldPlan::from_metadata(&metadata);
    assert!(!plan.source_is_known(0) && !plan.source_is_known(1));
    assert!((2..6).all(|feed| plan.source_is_known(feed)));
    assert!(!plan.source_is_known(6));
    // Heights still unfold; the objects stay in the bed untouched.
    assert_eq!(gains(&plan, 1), [0, 0, 55, 0, 0, 0, 0, 0, 0]);
}

#[test]
fn d0_object_carries_its_centre_height_alternative_and_unity_heights() {
    let records = vec![ObjectRecord {
        mode: 1,
        index: 0,
        distance: 63,
        azimuth: 120,
        elevation: 77,
        row: Some((1 << 0 | 1 << 1 | 1 << 2, 46)),
        centre_height: true,
    }];
    let rows = [
        (1 << 1 | 1 << 4, 61),
        (1 << 2 | 1 << 5, 61),
        (1 << 6 | 1 << 10, 61),
        (1 << 7 | 1 << 11, 61),
    ];
    let payload = alternate_payload(&records, rows);
    let metadata = XMetadata::parse(&payload, 5).unwrap();
    let object = metadata.source(0).unwrap();
    assert!(matches!(
        object.role,
        SourceRole::Object {
            centre_height_alternative: true,
            ..
        }
    ));
    let plan = FoldPlan::from_metadata(&metadata);
    // C receives the object only; L receives the object and TFL at unity.
    assert_eq!(gains(&plan, 0), [46, 0, 0, 0, 0, 0, 0, 0, 0]);
    assert_eq!(gains(&plan, 1), [46, 61, 0, 0, 0, 0, 0, 0, 0]);
}

#[test]
fn every_truncation_and_extension_of_an_alternate_prefix_is_rejected() {
    let payload = alternate_payload(&d3_records(), HEIGHT_ROWS_55);
    let (prefix_len, _) = alternate_protected_prefix(&payload).unwrap();
    for end in 0..prefix_len {
        assert!(XMetadata::parse(&payload[..end], 8).is_err(), "end {end}");
    }
    for bit in 0..prefix_len * 8 {
        let mut damaged = payload.clone();
        damaged[bit / 8] ^= 1 << (bit % 8);
        assert!(XMetadata::parse(&damaged, 8).is_err(), "bit {bit}");
    }
}

#[test]
fn unfamiliar_forms_are_errors_not_guesses() {
    let mut rows = HEIGHT_ROWS_55;
    rows[0] = (1 << 1, 55); // a height row without its own speaker
    assert!(XMetadata::parse(&alternate_payload(&d3_records(), rows), 8).is_err());
    let mut rows = HEIGHT_ROWS_55;
    rows[1] = (1 << 2 | 1 << 4 | 1 << 5, 55); // two height columns
    assert!(XMetadata::parse(&alternate_payload(&d3_records(), rows), 8).is_err());
    let mut records = d3_records();
    records[0].row = Some((1 << 4, 62)); // escape code
    assert!(XMetadata::parse(&alternate_payload(&records, HEIGHT_ROWS_55), 8).is_err());
}

#[test]
fn type3_accepts_an_explicit_reference_mask() {
    let payload = alternate_payload_with(&d3_records(), HEIGHT_ROWS_55, true);
    let metadata = XMetadata::parse(&payload, 8).expect("explicit type-3 mask");
    assert_eq!(
        metadata.source(4).unwrap().role,
        SourceRole::Height(SpatialChannel::TopFrontLeft)
    );
}

#[test]
fn object_only_variant_on_a_5_1_bed_has_one_object_and_no_heights() {
    let record = ObjectRecord {
        mode: 1,
        index: 0,
        distance: 63,
        azimuth: 120,
        elevation: 77,
        row: Some((1 << 0 | 1 << 1 | 1 << 2, 46)),
        centre_height: false,
    };
    let payload = object_only_payload(&record);
    let metadata = XMetadata::parse(&payload, 1).expect("object-only metadata");
    assert_eq!(metadata.source_count(), 1);
    assert_eq!(metadata.reference_speakers(), &[0, 1, 2, 3, 4, 5]);
    let object = metadata.source(0).unwrap();
    let SourceRole::Object { position, .. } = object.role else {
        panic!("the single feed is an object");
    };
    assert_eq!(position.elevation_half_degrees, 51);
    assert_eq!(object.fold, BedFold::Known([46, 46, 46, 0, 0, 0, 0, 0]));
    // Only the six 5.1 speakers can receive a fold; the front three do.
    let plan = FoldPlan::from_metadata(&metadata);
    assert_eq!(plan.gain(0, 0), 46);
    assert_eq!(plan.gain(2, 0), 46);
    assert_eq!(plan.gain(3, 0), 0);
    assert_eq!(plan.gain(7, 0), 0);
    assert!(plan.source_is_known(0));

    // The waveform count must match: no height quartet here.
    assert!(XMetadata::parse(&payload, 5).is_err());
    for end in 0..payload.len() - 8 {
        assert!(XMetadata::parse(&payload[..end], 1).is_err(), "end {end}");
    }
}

#[test]
fn fallback_plans_behave_as_documented() {
    let unknown = FoldPlan::all_unknown(6);
    assert!((0..6).all(|feed| !unknown.source_is_known(feed)));
    assert_eq!(gains(&unknown, 1), [0; 9]);
    assert!(unknown.has_unknown());

    let standard = FoldPlan::standard_heights(55);
    assert_eq!(gains(&standard, 1), [55, 0, 0, 0, 0, 0, 0, 0, 0]);
    assert_eq!(gains(&standard, 8), [0, 0, 0, 55, 0, 0, 0, 0, 0]);
    assert_eq!(gains(&standard, 3), [0; 9]);
    assert!((0..4).all(|feed| standard.source_is_known(feed)));
    assert!(!standard.has_unknown());
    assert_eq!(standard.gain(FOLD_SPEAKERS + 3, 0), 0);
}

#[test]
fn settled_sources_may_be_rendered() {
    let mut plan = FoldPlan::all_unknown(3);
    plan.settle(2);
    assert!(plan.source_is_known(0) && plan.source_is_known(1));
    assert!(!plan.source_is_known(2) && plan.has_unknown());
    plan.settle(3);
    assert!(!plan.has_unknown());
}

#[test]
fn metadata_from_sources_keeps_them() {
    let source = SourceMetadata {
        role: SourceRole::Height(SpatialChannel::TopFrontLeft),
        fold: BedFold::Unknown,
    };
    let metadata = XMetadata::from_sources(&[source; 4]).unwrap();
    assert_eq!(metadata.source_count(), 4);
    assert_eq!(metadata.source(3), Some(&source));
    assert_eq!(metadata.source(4), None);
    assert_eq!(metadata.sources(), vec![source; 4]);
    assert!(XMetadata::from_sources(&[source; 10]).is_none());
}

#[test]
fn metadata_errors_are_told_apart() {
    let payload = standard_payload([(1 << 1, 55), (1 << 2, 55), (1 << 4, 55), (1 << 5, 55)]);
    assert!(matches!(XMetadata::parse(&payload[..3], 4), Err(XMetadataError::Truncated)));
    assert!(matches!(XMetadata::parse(&payload, 5), Err(XMetadataError::Unsupported(_))));
    let mut damaged = payload.clone();
    damaged[20] ^= 1;
    assert!(matches!(XMetadata::parse(&damaged, 4), Err(XMetadataError::Invalid(_))));
}

#[test]
fn reference_masks_with_unknown_bits_have_no_layout() {
    assert_eq!(reference_speakers(0x0000_0001), Some(vec![0]));
    assert_eq!(reference_speakers(0x0001_0001), None);
    assert_eq!(reference_speakers(0x8000_000f), None);
    assert_eq!(reference_speakers(0x0000_0021), None);
    assert_eq!(reference_speakers(0x0000_0804), None);
    assert_eq!(reference_speakers(0), None);
    assert_eq!(reference_speakers(REFERENCE_MASK_7_1), Some(vec![0, 1, 2, 5, 7, 8, 3, 4]));
    assert_eq!(reference_speakers(REFERENCE_MASK_5_1), Some(vec![0, 1, 2, 3, 4, 5]));
}
