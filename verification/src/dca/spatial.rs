//! Spatial-extension presentations: what the extension waveforms of a frame
//! are.

use vstd::prelude::*;
use super::hd::{first_len, HdFrame, HdFrameModel};

verus! {

/// A speaker position an extension waveform belongs at.
#[derive(Clone, Copy, Debug, PartialEq, Eq, Structural)]
pub enum SpatialChannel {
    TopFrontLeft,
    TopFrontRight,
    TopFrontCenter,
    TopSideLeft,
    TopSideRight,
    TopBackLeft,
    TopBackRight,
    WideLeft,
    WideRight,
}

/// The presentation that a frame carries.
#[derive(Clone, Copy, Debug, PartialEq, Eq, Structural)]
pub enum XPresentation {
    /// Four heights, folded into the bed.
    Height,
    /// One object presented as the centre height, then the four heights.
    FixedD0,
    /// Two objects, then the four heights.
    ObjectsD1,
    /// Four objects, then the four heights.
    ObjectsD3,
    /// One object alone.
    ObjectOnly,
}

/// Waveforms of a presentation.
pub open spec fn feeds(p: XPresentation) -> int {
    match p {
        XPresentation::Height => 4,
        XPresentation::FixedD0 => 5,
        XPresentation::ObjectsD1 => 6,
        XPresentation::ObjectsD3 => 8,
        XPresentation::ObjectOnly => 1,
    }
}

/// The four heights, left before right and front before back.
pub open spec fn height_channels() -> Seq<SpatialChannel> {
    seq![
        SpatialChannel::TopFrontLeft,
        SpatialChannel::TopFrontRight,
        SpatialChannel::TopBackLeft,
        SpatialChannel::TopBackRight,
    ]
}

/// Positions of the feeds that have one.
pub open spec fn fixed_positions(p: XPresentation) -> Seq<SpatialChannel> {
    match p {
        XPresentation::Height => height_channels(),
        XPresentation::ObjectsD1 => height_channels(),
        XPresentation::ObjectsD3 => height_channels(),
        XPresentation::FixedD0 => seq![SpatialChannel::TopFrontCenter] + height_channels(),
        XPresentation::ObjectOnly => Seq::empty(),
    }
}

/// Every waveform of a frame has `len` samples, and there are `n`.
pub open spec fn feeds_are(frame: HdFrameModel, n: int, len: int) -> bool {
    &&& frame.x_samples.len() == n
    &&& forall|i: int| 0 <= i < frame.x_samples.len() ==> (#[trigger] frame.x_samples[i]).len() == len
}

/// The presentation of a frame: all waveforms must be as long as the bed. Four
/// of them are the heights whatever else is flagged; the other counts need the
/// alternate flag.
pub open spec fn presentation(frame: HdFrameModel) -> Option<XPresentation> {
    let len = first_len(frame.samples, 0);
    if len == 0 {
        None
    } else if feeds_are(frame, 4, len) {
        Some(XPresentation::Height)
    } else if !frame.x_imax {
        None
    } else if feeds_are(frame, 5, len) {
        Some(XPresentation::FixedD0)
    } else if feeds_are(frame, 6, len) {
        Some(XPresentation::ObjectsD1)
    } else if feeds_are(frame, 8, len) {
        Some(XPresentation::ObjectsD3)
    } else if feeds_are(frame, 1, len) {
        Some(XPresentation::ObjectOnly)
    } else {
        None
    }
}

fn all_as_long(v: &Vec<Vec<i32>>, len: usize) -> (r: bool)
    ensures
        r == forall|i: int| 0 <= i < v@.len() ==> (#[trigger] v@[i])@.len() == len,
{
    let mut i: usize = 0;
    while i < v.len()
        invariant
            i <= v@.len(),
            forall|k: int| 0 <= k < i ==> (#[trigger] v@[k])@.len() == len,
        decreases v.len() - i,
    {
        if v[i].len() != len {
            return false;
        }
        i = i + 1;
    }
    true
}

impl XPresentation {
    /// Classify the waveforms of `frame`; none without a usable set.
    pub fn detect(frame: &HdFrame) -> (r: Option<Self>)
        ensures
            r == presentation(frame@),
    {
        let len: usize = frame.bed_sample_count();
        if len == 0 {
            return None;
        }
        let n: usize = frame.x_samples.len();
        let even: bool = all_as_long(&frame.x_samples, len);
        proof {
            if !even {
                let k = choose|k: int|
                    0 <= k < frame.x_samples@.len() && (#[trigger] frame.x_samples@[k])@.len() != len;
                assert(frame@.x_samples[k].len() != len);
            }
            assert(frame@.x_samples.len() == n);
        }
        if !even {
            return None;
        }
        if n == 4 {
            return Some(XPresentation::Height);
        }
        if !frame.x_imax {
            return None;
        }
        match n {
            5 => Some(XPresentation::FixedD0),
            6 => Some(XPresentation::ObjectsD1),
            8 => Some(XPresentation::ObjectsD3),
            1 => Some(XPresentation::ObjectOnly),
            _ => None,
        }
    }

    /// Waveforms of the presentation.
    pub fn feed_count(self) -> (r: usize)
        ensures
            r == feeds(self),
    {
        match self {
            XPresentation::Height => 4,
            XPresentation::FixedD0 => 5,
            XPresentation::ObjectsD1 => 6,
            XPresentation::ObjectsD3 => 8,
            XPresentation::ObjectOnly => 1,
        }
    }

    /// Feeds that are objects, placed by the frame's metadata.
    pub fn object_feeds(self) -> (r: std::ops::Range<usize>)
        ensures
            r.start == 0,
            r.end == feeds(self) - fixed_positions(self).len(),
    {
        0..self.feed_count() - self.fixed_channels().len()
    }

    /// Feeds that are fixed channels, in the order of their positions.
    pub fn fixed_feeds(self) -> (r: std::ops::Range<usize>)
        ensures
            r.start == feeds(self) - fixed_positions(self).len(),
            r.end == feeds(self),
    {
        self.object_feeds().end..self.feed_count()
    }

    /// Position of each fixed feed.
    pub fn fixed_channels(self) -> (r: Vec<SpatialChannel>)
        ensures
            r@ == fixed_positions(self),
            r@.len() <= feeds(self),
    {
        let r: Vec<SpatialChannel> = match self {
            XPresentation::Height | XPresentation::ObjectsD1 | XPresentation::ObjectsD3 => vec![
                SpatialChannel::TopFrontLeft,
                SpatialChannel::TopFrontRight,
                SpatialChannel::TopBackLeft,
                SpatialChannel::TopBackRight,
            ],
            XPresentation::FixedD0 => vec![
                SpatialChannel::TopFrontCenter,
                SpatialChannel::TopFrontLeft,
                SpatialChannel::TopFrontRight,
                SpatialChannel::TopBackLeft,
                SpatialChannel::TopBackRight,
            ],
            XPresentation::ObjectOnly => Vec::new(),
        };
        assert(r@ =~= fixed_positions(self));
        r
    }

    /// The identities of the feeds rest on evidence, not on the standard
    /// profile.
    pub fn is_experimental(self) -> (r: bool)
        ensures
            r == (self != XPresentation::Height),
    {
        match self {
            XPresentation::Height => false,
            _ => true,
        }
    }
}

/// Objects come first and fixed channels last; together they cover every feed
/// once.
pub proof fn feeds_are_objects_then_fixed_channels(p: XPresentation, feed: int)
    requires
        0 <= feed < feeds(p),
    ensures
        0 <= fixed_positions(p).len() <= feeds(p),
        (feed < feeds(p) - fixed_positions(p).len()) != (feeds(p) - fixed_positions(p).len() <= feed < feeds(
            p,
        )),
{
}

/// A frame has a presentation only if every waveform is as long as its bed,
/// and as many as the presentation says.
pub proof fn detected_feeds_can_be_indexed(frame: HdFrameModel)
    requires
        presentation(frame) is Some,
    ensures
        feeds_are(frame, feeds(presentation(frame)->0), first_len(frame.samples, 0)),
        first_len(frame.samples, 0) > 0,
        presentation(frame)->0 != XPresentation::Height ==> frame.x_imax,
{
    lemma_first_len(frame.samples, 0);
}

proof fn lemma_first_len(v: Seq<Option<Seq<i32>>>, i: int)
    ensures
        first_len(v, i) >= 0,
    decreases v.len() - i,
{
    if i < v.len() && v[i] is None {
        lemma_first_len(v, i + 1);
    }
}

} // verus!
