use harletty::dca::alternate::{
    alternate_geometry_at, alternate_layout, alternate_outer_layout, AlternateProfile,
    DCA_SYNCWORD_XLL_X_ALT_D0, DCA_SYNCWORD_XLL_X_ALT_D1, DCA_SYNCWORD_XLL_X_ALT_D3,
    XLL_X_ALT_OUTER_SUFFIX,
};
use harletty::dca::crc::crc16_ccitt;

fn common_geometry_at(control: &[u8], bit_offset: usize) -> Option<(usize, usize)> {
    alternate_geometry_at(control, bit_offset)
        .map(|geometry| (geometry.segments, geometry.navigation_size_bits))
}

fn common_geometry_candidates_between(
    control: &[u8],
    first_offset: usize,
    last_offset: usize,
) -> Vec<(usize, usize)> {
    (first_offset..=last_offset)
        .filter_map(|offset| common_geometry_at(control, offset))
        .collect()
}

#[test]
fn alternate_layout_rejects_short_and_unknown_payloads() {
    for syncword in [
        DCA_SYNCWORD_XLL_X_ALT_D0,
        DCA_SYNCWORD_XLL_X_ALT_D1,
        DCA_SYNCWORD_XLL_X_ALT_D3,
    ] {
        let mut payload = [0u8; 96];
        payload[..4].copy_from_slice(&syncword.to_be_bytes());
        for length in 0..payload.len() {
            assert!(alternate_layout(&payload[..length]).is_err());
        }
    }
    assert!(alternate_layout(&[0u8; 128]).is_err());
}

#[test]
fn alternate_d1_outer_prefix_accepts_known_lengths() {
    let prefixes: [&[u8]; 2] = [
        &[
            0xf1, 0x40, 0x00, 0xd1, 0x30, 0x28, 0x4b, 0x00, 0xe0, 0x00, 0x39, 0x00, 0x01, 0x41,
            0x9e, 0xfe, 0xc3, 0x10, 0x28, 0x33, 0xdf, 0xe3, 0xe2, 0x00, 0x03, 0x00, 0x08, 0x81,
            0xf4, 0xe2, 0x1a, 0xc4, 0x04, 0x7f, 0x40, 0x25, 0xbf, 0xa0, 0x49, 0xbf, 0xa8, 0x81,
            0xbf, 0xb1, 0x01, 0xbf, 0xa0, 0xd6, 0xe3,
        ],
        &[
            0xf1, 0x40, 0x00, 0xd1, 0x30, 0x28, 0x4b, 0x00, 0xe1, 0x00, 0x39, 0x40, 0x00, 0x83,
            0x3d, 0xfc, 0x5e, 0x7a, 0x30, 0xf5, 0x50, 0x83, 0x3d, 0xff, 0x66, 0x72, 0x30, 0x53,
            0xd0, 0x03, 0x00, 0x08, 0x81, 0xf4, 0xe2, 0x1a, 0xc4, 0x04, 0x7f, 0x40, 0x25, 0xbf,
            0xa0, 0x49, 0xbf, 0xa8, 0x81, 0xbf, 0xb1, 0x01, 0xbf, 0xa0, 0x09, 0x98,
        ],
    ];
    for prefix in prefixes {
        assert_eq!(crc16_ccitt(prefix), 0);
        let mut payload = prefix.to_vec();
        payload.extend_from_slice(&XLL_X_ALT_OUTER_SUFFIX);
        payload.push(0xb2);
        assert_eq!(
            alternate_outer_layout(&payload, AlternateProfile::D1),
            Ok((
                prefix.len() + XLL_X_ALT_OUTER_SUFFIX.len(),
                7,
                prefix.len() + 18
            ))
        );
    }
}

#[test]
fn alternate_d3_outer_prefix_is_crc_delimited() {
    let prefix = [
        0xf1, 0x40, 0x00, 0xd3, 0x30, 0x28, 0x4b, 0x00, 0xe1, 0x00, 0x39, 0x40, 0x0e, 0x90, 0x03,
        0xb4, 0x00, 0x08, 0x33, 0xdf, 0xc5, 0xe7, 0xa3, 0x0f, 0x55, 0x08, 0x33, 0xdf, 0xf6, 0x67,
        0x23, 0x05, 0x3d, 0x08, 0x33, 0xdf, 0xc5, 0x1e, 0x21, 0x0f, 0x42, 0x0c, 0xf7, 0xfd, 0xc7,
        0x88, 0x83, 0xd0, 0x03, 0x00, 0x08, 0x81, 0xf4, 0xe2, 0x1a, 0xc4, 0x04, 0x7f, 0x40, 0x25,
        0xbf, 0xa0, 0x49, 0xbf, 0xa8, 0x81, 0xbf, 0xb1, 0x01, 0xbf, 0xa0, 0xd8, 0x72,
    ];
    assert_eq!(prefix.len(), 73);
    assert_eq!(crc16_ccitt(&prefix), 0);
    let mut payload = prefix.to_vec();
    payload.extend_from_slice(&XLL_X_ALT_OUTER_SUFFIX);
    payload.push(0xc6);
    assert_eq!(
        alternate_outer_layout(&payload, AlternateProfile::D3),
        Ok((79, 8, 91))
    );
}

#[test]
fn alternate_extended_controls_have_expected_geometries() {
    let d1_inner = [0xd6, 0x40, 0x0c, 0x06, 0x16, 0x70, 0x00, 0xee, 0x4d];
    assert_eq!(common_geometry_at(&d1_inner, 26), Some((2, 12)));
    assert_eq!(
        common_geometry_candidates_between(&d1_inner, 19, 26),
        [(2, 12)]
    );

    let d0_outer = [0xc5, 0x40, 0x70, 0x18, 0x48, 0x00, 0x31, 0x45];
    assert_eq!(common_geometry_at(&d0_outer, 24), Some((2, 10)));
    assert_eq!(
        common_geometry_candidates_between(&d0_outer, 18, 25),
        [(2, 10)]
    );
}

#[test]
fn appended_checksum_leaves_nothing() {
    let data = [1u8, 2, 3, 0xff, 0x40];
    let crc = crc16_ccitt(&data);
    let mut all = data.to_vec();
    all.extend_from_slice(&crc.to_be_bytes());
    assert_eq!(crc16_ccitt(&all), 0);
    assert_ne!(crc, 0);
}
