use harletty::dca::hd::HdFrame;
use harletty::dca::spatial::{SpatialChannel, XPresentation};

const HEIGHT_CHANNELS: [SpatialChannel; 4] = [
    SpatialChannel::TopFrontLeft,
    SpatialChannel::TopFrontRight,
    SpatialChannel::TopBackLeft,
    SpatialChannel::TopBackRight,
];

fn frame_with(x_samples: Vec<Vec<i32>>, x_imax: bool, bed_len: usize) -> HdFrame {
    HdFrame {
        samples: vec![Some(vec![0; bed_len])],
        x_samples,
        x_imax,
        ..HdFrame::default()
    }
}

#[test]
fn detects_standard_height_quartet() {
    let f = frame_with(vec![vec![0; 512]; 4], false, 512);
    assert_eq!(XPresentation::detect(&f), Some(XPresentation::Height));
    assert!(!XPresentation::Height.is_experimental());
    assert_eq!(XPresentation::Height.object_feeds(), 0..0);
    assert_eq!(XPresentation::Height.fixed_feeds(), 0..4);
}

#[test]
fn alternate_profiles_need_the_imax_flag() {
    for n in [5usize, 6, 8] {
        let f = frame_with(vec![vec![0; 512]; n], false, 512);
        assert_eq!(XPresentation::detect(&f), None, "{n} feeds without x_imax");
    }
}

#[test]
fn detects_each_alternate_profile() {
    for (n, expected) in [
        (5usize, XPresentation::FixedD0),
        (6, XPresentation::ObjectsD1),
        (8, XPresentation::ObjectsD3),
        (1, XPresentation::ObjectOnly),
    ] {
        let f = frame_with(vec![vec![0; 512]; n], true, 512);
        assert_eq!(XPresentation::detect(&f), Some(expected));
        assert!(expected.is_experimental());
        assert_eq!(expected.feed_count(), n);
    }
}

#[test]
fn height_quartet_outranks_the_imax_flag() {
    let f = frame_with(vec![vec![0; 512]; 4], true, 512);
    assert_eq!(XPresentation::detect(&f), Some(XPresentation::Height));
}

#[test]
fn rejects_ragged_or_short_feeds() {
    let mut x = vec![vec![0; 512]; 4];
    x[2].truncate(511);
    assert_eq!(XPresentation::detect(&frame_with(x, false, 512)), None);

    for n in [0usize, 2, 3, 7, 9] {
        let f = frame_with(vec![vec![0; 512]; n], true, 512);
        assert_eq!(XPresentation::detect(&f), None, "{n} feeds");
    }
}

#[test]
fn a_bedless_frame_detects_nothing() {
    let f = HdFrame {
        samples: vec![None],
        x_samples: vec![vec![0; 512]; 4],
        ..HdFrame::default()
    };
    assert_eq!(XPresentation::detect(&f), None);
}

#[test]
fn feeds_split_into_objects_then_fixed_channels() {
    for (presentation, objects, fixed) in [
        (XPresentation::Height, 0..0, 0..4),
        (XPresentation::FixedD0, 0..0, 0..5),
        (XPresentation::ObjectsD1, 0..2, 2..6),
        (XPresentation::ObjectsD3, 0..4, 4..8),
        (XPresentation::ObjectOnly, 0..1, 1..1),
    ] {
        assert_eq!(presentation.object_feeds(), objects, "{presentation:?}");
        assert_eq!(presentation.fixed_feeds(), fixed, "{presentation:?}");
        assert_eq!(
            presentation.fixed_channels().len(),
            presentation.fixed_feeds().len()
        );
        assert_eq!(
            presentation.object_feeds().len() + presentation.fixed_feeds().len(),
            presentation.feed_count()
        );
    }
    assert_eq!(
        XPresentation::ObjectsD3.fixed_channels(),
        &HEIGHT_CHANNELS,
        "alternate heights are the standard quartet"
    );
    assert_eq!(
        XPresentation::FixedD0.fixed_channels()[0],
        SpatialChannel::TopFrontCenter
    );
}

#[test]
fn bed_length_is_that_of_the_first_speaker_that_plays() {
    let mut f = HdFrame::default();
    assert_eq!(f.bed_sample_count(), 0);
    f.samples = vec![None, Some(vec![1, 2, 3]), Some(vec![1])];
    assert_eq!(f.bed_sample_count(), 3);
}
