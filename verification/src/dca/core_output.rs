//! Fixed-point output of the core, by speaker.

use vstd::prelude::*;
use crate::grammar::rows;

verus! {

/// Speakers of the output, by index.
pub const DCA_SPEAKER_C: usize = 0;

pub const DCA_SPEAKER_L: usize = 1;

pub const DCA_SPEAKER_R: usize = 2;

pub const DCA_SPEAKER_LS: usize = 3;

pub const DCA_SPEAKER_RS: usize = 4;

pub const DCA_SPEAKER_LFE1: usize = 5;

pub const DCA_SPEAKER_CS: usize = 6;

pub const DCA_SPEAKER_LSS: usize = 9;

pub const DCA_SPEAKER_RSS: usize = 10;

pub const DCA_SPEAKER_COUNT: usize = 32;

/// Slots that may hold samples, as sequences.
pub open spec fn slot_views(v: Seq<Option<Vec<i32>>>) -> Seq<Option<Seq<i32>>> {
    Seq::new(
        v.len(),
        |i: int|
            match v[i] {
                Some(row) => Some(row@),
                None => None,
            },
    )
}

/// Every slot that is filled holds `n` samples.
pub open spec fn slots_even(v: Seq<Option<Seq<i32>>>, n: int) -> bool {
    forall|i: int|
        0 <= i < v.len() ==> (#[trigger] v[i] matches Some(row) ==> row.len() == n)
}

/// 24-bit samples of each speaker the core plays.
#[derive(Clone, Debug)]
pub struct CoreOutput {
    pub samples: Vec<Option<Vec<i32>>>,
    /// Channels of a bare set, which no speaker plays.
    pub extension: Vec<Vec<i32>>,
    pub npcmsamples: usize,
    pub output_rate: u32,
    pub ch_mask: u32,
}

/// [`CoreOutput`] over sequences.
pub ghost struct CorePcm {
    pub slots: Seq<Option<Seq<i32>>>,
    pub extension: Seq<Seq<i32>>,
    pub npcmsamples: int,
    pub output_rate: int,
    pub ch_mask: u32,
}

impl View for CoreOutput {
    type V = CorePcm;

    open spec fn view(&self) -> CorePcm {
        CorePcm {
            slots: slot_views(self.samples@),
            extension: rows(self.extension@),
            npcmsamples: self.npcmsamples as int,
            output_rate: self.output_rate as int,
            ch_mask: self.ch_mask,
        }
    }
}

impl CoreOutput {
    pub open spec fn slots(&self) -> Seq<Option<Seq<i32>>> {
        slot_views(self.samples@)
    }

    /// One slot per speaker, each filled slot with all samples.
    pub open spec fn wf(&self) -> bool {
        &&& self.samples@.len() == 32
        &&& slots_even(self.slots(), self.npcmsamples as int)
    }
}

/// No speaker plays.
pub fn empty_slots() -> (r: Vec<Option<Vec<i32>>>)
    ensures
        r@.len() == 32,
        slot_views(r@) == Seq::new(32, |i: int| None::<Seq<i32>>),
{
    let mut r: Vec<Option<Vec<i32>>> = Vec::new();
    while r.len() < 32
        invariant
            r@.len() <= 32,
            forall|i: int| 0 <= i < r@.len() ==> (#[trigger] r@[i]) is None,
        decreases 32 - r.len(),
    {
        r.push(None);
    }
    assert(slot_views(r@) =~= Seq::new(32, |i: int| None::<Seq<i32>>));
    r
}

/// Put samples in a slot.
pub fn set_slot(slots: &mut Vec<Option<Vec<i32>>>, at: usize, row: Vec<i32>)
    requires
        at < old(slots)@.len(),
    ensures
        final(slots)@.len() == old(slots)@.len(),
        slot_views(final(slots)@) == slot_views(old(slots)@).update(at as int, Some(row@)),
{
    slots.set(at, Some(row));
    assert(slot_views(slots@) =~= slot_views(old(slots)@).update(at as int, Some(row@)));
}

/// What `from` holds goes to `to`, if it holds anything.
pub open spec fn slot_moved(v: Seq<Option<Seq<i32>>>, from: int, to: int) -> Seq<Option<Seq<i32>>> {
    if v[from] is Some { v.update(to, v[from]).update(from, None) } else { v }
}

pub fn move_slot(slots: &mut Vec<Option<Vec<i32>>>, from: usize, to: usize) -> (r: bool)
    requires
        from < old(slots)@.len(),
        to < old(slots)@.len(),
        from != to,
    ensures
        final(slots)@.len() == old(slots)@.len(),
        r == slot_views(old(slots)@)[from as int] is Some,
        slot_views(final(slots)@) == slot_moved(slot_views(old(slots)@), from as int, to as int),
{
    let mut held: Option<Vec<i32>> = None;
    std::mem::swap(&mut held, &mut slots[from]);
    if held.is_none() {
        assert(slot_views(slots@) =~= slot_views(old(slots)@));
        return false;
    }
    slots.set(to, held);
    assert(slot_views(slots@) =~= slot_moved(slot_views(old(slots)@), from as int, to as int));
    true
}

} // verus!
