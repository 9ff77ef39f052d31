//! What the PCM decoders decide for each access unit: whether its bytes are
//! taken, which payloads rebuild its objects, what is counted, and what an
//! error does to the state. Decoding the channels themselves is left to the
//! caller, who reports how it went.

use vstd::prelude::*;
use super::joc::{JocObject, JocPayload};
use super::metadata::{MetadataParseState, OamdObjectBlockParseState, ParsedEmdfPayloadData};
use super::syncframe::ParseError;

verus! {

/// An access unit is taken only if it is as long as its header says.
pub open spec fn length_checked(available: usize, expected: usize) -> Result<(), ParseError> {
    if available < expected {
        Err(ParseError::TruncatedFrame { expected, available })
    } else if available > expected {
        Err(ParseError::TrailingData { expected, provided: available })
    } else {
        Ok(())
    }
}

pub fn check_length(available: usize, expected: usize) -> (r: Result<(), ParseError>)
    ensures
        r == length_checked(available, expected),
{
    if available < expected {
        return Err(ParseError::TruncatedFrame { expected, available });
    }
    if available != expected {
        return Err(ParseError::TrailingData { expected, provided: available });
    }
    Ok(())
}

/// A metadata payload of an access unit.
#[derive(Debug, Clone)]
pub struct EmdfPayload {
    pub parsed: ParsedEmdfPayloadData,
    pub sample_offset: Option<u16>,
}

/// The first object-coding payload from `i` on.
pub open spec fn first_joc(payloads: Seq<EmdfPayload>, i: int) -> Option<int>
    decreases payloads.len() - i,
{
    if i >= payloads.len() {
        None
    } else if payloads[i].parsed is Joc {
        Some(i)
    } else {
        first_joc(payloads, i + 1)
    }
}

/// The object metadata payloads among the first `n`.
pub open spec fn oamd_indices(payloads: Seq<EmdfPayload>, n: int) -> Seq<usize>
    decreases n,
{
    if n <= 0 {
        Seq::empty()
    } else if payloads[n - 1].parsed is Oamd {
        oamd_indices(payloads, n - 1).push((n - 1) as usize)
    } else {
        oamd_indices(payloads, n - 1)
    }
}

/// Which objects are active.
pub open spec fn active_flags(objects: Seq<JocObject>) -> Seq<bool> {
    Seq::new(objects.len(), |i: int| objects[i].active)
}

/// What the objects of an access unit are rebuilt from: payloads by index.
#[derive(Debug, Clone)]
pub struct ObjectPlan {
    pub joc: usize,
    pub object_active: Vec<bool>,
    pub oamd: Vec<usize>,
}

pub ghost struct ObjectPlanModel {
    pub joc: int,
    pub object_active: Seq<bool>,
    pub oamd: Seq<usize>,
}

impl View for ObjectPlan {
    type V = ObjectPlanModel;

    open spec fn view(&self) -> ObjectPlanModel {
        ObjectPlanModel {
            joc: self.joc as int,
            object_active: self.object_active@,
            oamd: self.oamd@,
        }
    }
}

/// The plan of an access unit; none without an object-coding payload.
pub open spec fn object_plan(payloads: Seq<EmdfPayload>) -> Option<ObjectPlanModel> {
    match first_joc(payloads, 0) {
        None => None,
        Some(i) => Some(
            ObjectPlanModel {
                joc: i,
                object_active: active_flags((payloads[i].parsed->Joc_0).objects@),
                oamd: oamd_indices(payloads, payloads.len() as int),
            },
        ),
    }
}

fn flags_of(joc: &JocPayload) -> (r: Vec<bool>)
    ensures
        r@ == active_flags(joc.objects@),
{
    let n: usize = joc.objects.len();
    let mut r: Vec<bool> = Vec::new();
    while r.len() < n
        invariant
            n == joc.objects@.len(),
            r@.len() <= n,
            forall|i: int| 0 <= i < r@.len() ==> r@[i] == joc.objects@[i].active,
        decreases n - r.len(),
    {
        r.push(joc.objects[r.len()].active);
    }
    assert(r@ =~= active_flags(joc.objects@));
    r
}

fn find_oamd(payloads: &Vec<EmdfPayload>) -> (r: Vec<usize>)
    ensures
        r@ == oamd_indices(payloads@, payloads@.len() as int),
{
    let n: usize = payloads.len();
    let mut r: Vec<usize> = Vec::new();
    let mut i: usize = 0;
    assert(r@ =~= Seq::<usize>::empty());
    while i < n
        invariant
            i <= n,
            n == payloads@.len(),
            r@ == oamd_indices(payloads@, i as int),
        decreases n - i,
    {
        if let ParsedEmdfPayloadData::Oamd(_) = &payloads[i].parsed {
            r.push(i);
        }
        i = i + 1;
    }
    r
}

pub fn plan_objects(payloads: &Vec<EmdfPayload>) -> (r: Option<ObjectPlan>)
    ensures
        match (r, object_plan(payloads@)) {
            (Some(v), Some(want)) => v@ == want && v.joc < payloads@.len(),
            (None, None) => true,
            _ => false,
        },
{
    let n: usize = payloads.len();
    let mut i: usize = 0;
    while i < n
        invariant
            i <= n,
            n == payloads@.len(),
            first_joc(payloads@, 0) == first_joc(payloads@, i as int),
        decreases n - i,
    {
        if let ParsedEmdfPayloadData::Joc(joc) = &payloads[i].parsed {
            return Some(
                ObjectPlan { joc: i, object_active: flags_of(joc), oamd: find_oamd(payloads) },
            );
        }
        i = i + 1;
    }
    None
}

/// What the caller reports.
#[derive(Debug, Clone, Copy, PartialEq, Eq)]
pub enum PcmEvent {
    /// The header of an access unit of `available` bytes asks for `expected`.
    Inspected { expected: usize, available: usize },
    /// The channels were decoded.
    Decoded,
    /// A step failed.
    Failed(ParseError),
}

/// What the caller is to do.
#[derive(Debug, Clone, Copy, PartialEq, Eq)]
pub enum PcmAction {
    /// Decode the channels of the access unit.
    Decode,
    /// Hand out the access unit with this count.
    Deliver { frames_seen: u64 },
    /// Report the error and forget all channel state.
    Reset(ParseError),
}

/// What is known across frames of the metadata.
pub ghost struct PcmModel {
    pub frames: u64,
    pub known: Seq<Option<Seq<Seq<OamdObjectBlockParseState>>>>,
}

/// The state after an event, and what follows. An error forgets everything but
/// the count.
pub open spec fn pcm_step(s: PcmModel, event: PcmEvent) -> (PcmModel, PcmAction) {
    match event {
        PcmEvent::Inspected { expected, available } => match length_checked(available, expected) {
            Ok(_) => (s, PcmAction::Decode),
            Err(e) => (PcmModel { known: Seq::empty(), ..s }, PcmAction::Reset(e)),
        },
        PcmEvent::Decoded => (
            PcmModel { frames: (s.frames + 1) as u64, ..s },
            PcmAction::Deliver { frames_seen: (s.frames + 1) as u64 },
        ),
        PcmEvent::Failed(e) => (PcmModel { known: Seq::empty(), ..s }, PcmAction::Reset(e)),
    }
}

/// Decisions of the decoder of the channels.
#[derive(Debug, Clone)]
pub struct PcmDecoder {
    frames_seen: u64,
    pub metadata: MetadataParseState,
}

impl View for PcmDecoder {
    type V = PcmModel;

    closed spec fn view(&self) -> PcmModel {
        PcmModel { frames: self.frames_seen, known: self.metadata.oamd@ }
    }
}

impl Default for PcmDecoder {
    fn default() -> (r: Self)
        ensures
            r@ == (PcmModel { frames: 0, known: Seq::empty() }),
    {
        PcmDecoder { frames_seen: 0, metadata: MetadataParseState::default() }
    }
}

impl PcmDecoder {
    pub fn new() -> (r: Self)
        ensures
            r@ == (PcmModel { frames: 0, known: Seq::empty() }),
    {
        PcmDecoder::default()
    }

    /// Forget everything.
    pub fn reset(&mut self)
        ensures
            final(self)@ == (PcmModel { frames: 0, known: Seq::empty() }),
    {
        self.frames_seen = 0;
        self.metadata.reset();
    }

    /// Access units accepted since the last reset.
    pub fn frames_seen(&self) -> (r: u64)
        ensures
            r == self@.frames,
    {
        self.frames_seen
    }

    /// Take an event of one access unit: first its inspection, then, if it is
    /// to be decoded, the outcome.
    pub fn push_access_unit(&mut self, event: PcmEvent) -> (r: PcmAction)
        requires
            old(self)@.frames < u64::MAX,
        ensures
            (final(self)@, r) == pcm_step(old(self)@, event),
    {
        match event {
            PcmEvent::Inspected { expected, available } => match check_length(available, expected) {
                Ok(_) => PcmAction::Decode,
                Err(e) => {
                    self.metadata.reset();
                    PcmAction::Reset(e)
                },
            },
            PcmEvent::Decoded => {
                self.frames_seen = self.frames_seen + 1;
                PcmAction::Deliver { frames_seen: self.frames_seen }
            },
            PcmEvent::Failed(e) => {
                self.metadata.reset();
                PcmAction::Reset(e)
            },
        }
    }

    /// Take an event of one AC-3 access unit. It is decided as that of an
    /// E-AC-3 access unit.
    pub fn push_legacy_ac3_access_unit(&mut self, event: PcmEvent) -> (r: PcmAction)
        requires
            old(self)@.frames < u64::MAX,
        ensures
            (final(self)@, r) == pcm_step(old(self)@, event),
    {
        self.push_access_unit(event)
    }
}

/// What the caller is to do about the objects of an access unit.
#[derive(Debug, Clone)]
pub enum ObjectAction {
    /// The access unit has no objects.
    Skip,
    /// Rebuild the objects as planned.
    Decode(ObjectPlan),
    /// Hand out the objects with this count.
    Deliver { frames_seen: u64 },
    /// Report the error and forget all channel and object state.
    Reset(ParseError),
}

pub ghost enum ObjectActionModel {
    Skip,
    Decode(ObjectPlanModel),
    Deliver { frames_seen: u64 },
    Reset(ParseError),
}

impl View for ObjectAction {
    type V = ObjectActionModel;

    open spec fn view(&self) -> ObjectActionModel {
        match self {
            ObjectAction::Skip => ObjectActionModel::Skip,
            ObjectAction::Decode(plan) => ObjectActionModel::Decode(plan@),
            ObjectAction::Deliver { frames_seen } => ObjectActionModel::Deliver {
                frames_seen: *frames_seen,
            },
            ObjectAction::Reset(e) => ObjectActionModel::Reset(*e),
        }
    }
}

/// [`pcm_step`] for objects: an access unit without an object-coding payload
/// is skipped and not counted.
pub open spec fn object_step(s: PcmModel, event: PcmEvent, payloads: Seq<EmdfPayload>) -> (
    PcmModel,
    ObjectActionModel,
) {
    match pcm_step(s, event) {
        (t, PcmAction::Decode) => (
            t,
            match object_plan(payloads) {
                Some(plan) => ObjectActionModel::Decode(plan),
                None => ObjectActionModel::Skip,
            },
        ),
        (t, PcmAction::Deliver { frames_seen }) => (t, ObjectActionModel::Deliver { frames_seen }),
        (t, PcmAction::Reset(e)) => (t, ObjectActionModel::Reset(e)),
    }
}

/// Decisions of the decoder of the objects.
#[derive(Debug, Clone)]
pub struct ObjectPcmDecoder {
    pub pcm: PcmDecoder,
}

impl View for ObjectPcmDecoder {
    type V = PcmModel;

    open spec fn view(&self) -> PcmModel {
        self.pcm@
    }
}

impl Default for ObjectPcmDecoder {
    fn default() -> (r: Self)
        ensures
            r@ == (PcmModel { frames: 0, known: Seq::empty() }),
    {
        ObjectPcmDecoder { pcm: PcmDecoder::default() }
    }
}

impl ObjectPcmDecoder {
    pub fn new() -> (r: Self)
        ensures
            r@ == (PcmModel { frames: 0, known: Seq::empty() }),
    {
        ObjectPcmDecoder::default()
    }

    /// Forget everything.
    pub fn reset(&mut self)
        ensures
            final(self)@ == (PcmModel { frames: 0, known: Seq::empty() }),
    {
        self.pcm.reset();
    }

    /// Access units accepted since the last reset.
    pub fn frames_seen(&self) -> (r: u64)
        ensures
            r == self@.frames,
    {
        self.pcm.frames_seen()
    }

    /// Take an event of one access unit with the given payloads.
    pub fn push_access_unit(&mut self, event: PcmEvent, payloads: &Vec<EmdfPayload>) -> (r: ObjectAction)
        requires
            old(self)@.frames < u64::MAX,
        ensures
            (final(self)@, r@) == object_step(old(self)@, event, payloads@),
    {
        match self.pcm.push_access_unit(event) {
            PcmAction::Decode => match plan_objects(payloads) {
                Some(plan) => ObjectAction::Decode(plan),
                None => ObjectAction::Skip,
            },
            PcmAction::Deliver { frames_seen } => ObjectAction::Deliver { frames_seen },
            PcmAction::Reset(e) => ObjectAction::Reset(e),
        }
    }

    /// Take an event of one dependent access unit whose channels the caller
    /// has: [`ObjectAction::Decode`] then asks for the objects alone.
    pub fn push_access_unit_with_core(&mut self, event: PcmEvent, payloads: &Vec<EmdfPayload>) -> (r: ObjectAction)
        requires
            old(self)@.frames < u64::MAX,
        ensures
            (final(self)@, r@) == object_step(old(self)@, event, payloads@),
    {
        self.push_access_unit(event, payloads)
    }
}

/// An error forgets what was known across frames, and the count of accepted
/// access units survives it.
pub proof fn errors_reset_all_but_the_count(s: PcmModel, event: PcmEvent)
    requires
        pcm_step(s, event).1 is Reset,
    ensures
        pcm_step(s, event).0 == (PcmModel { frames: s.frames, known: Seq::empty() }),
{
}

/// Only access units of exactly the declared length are decoded.
pub proof fn only_whole_units_are_decoded(s: PcmModel, expected: usize, available: usize)
    ensures
        (pcm_step(s, PcmEvent::Inspected { expected, available }).1 == PcmAction::Decode) == (expected
            == available),
{
}

/// The metadata payloads of a plan are all there are, each once and in order.
pub proof fn planned_metadata_is_complete(payloads: Seq<EmdfPayload>, n: int)
    requires
        0 <= n <= payloads.len() <= usize::MAX,
    ensures
        forall|i: int|
            0 <= i < n ==> (#[trigger] payloads[i].parsed is Oamd) == oamd_indices(
                payloads,
                n,
            ).contains(i as usize),
        forall|a: int, b: int|
            0 <= a < b < oamd_indices(payloads, n).len() ==> #[trigger] oamd_indices(payloads, n)[a]
                < #[trigger] oamd_indices(payloads, n)[b] < n,
        forall|a: int|
            0 <= a < oamd_indices(payloads, n).len() ==> #[trigger] oamd_indices(payloads, n)[a] < n,
    decreases n,
{
    if n > 0 {
        planned_metadata_is_complete(payloads, n - 1);
        let rest = oamd_indices(payloads, n - 1);
        let all = oamd_indices(payloads, n);
        assert forall|i: int| 0 <= i < n implies (#[trigger] payloads[i].parsed is Oamd)
            == all.contains(i as usize) by {
            if payloads[n - 1].parsed is Oamd {
                assert(all == rest.push((n - 1) as usize));
                assert(all[rest.len() as int] == n - 1);
                if i < n - 1 {
                    if rest.contains(i as usize) {
                        let k = choose|k: int| 0 <= k < rest.len() && rest[k] == i as usize;
                        assert(all[k] == i as usize);
                    }
                    if all.contains(i as usize) {
                        let k = choose|k: int| 0 <= k < all.len() && all[k] == i as usize;
                        assert(rest[k] == i as usize);
                    }
                }
            } else if i == n - 1 {
                if rest.contains(i as usize) {
                    let k = choose|k: int| 0 <= k < rest.len() && rest[k] == i as usize;
                    assert(rest[k] < n - 1);
                }
            }
        }
    }
}

} // verus!
