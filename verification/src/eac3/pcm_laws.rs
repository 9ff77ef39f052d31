//! What a plan for an access unit holds of its payloads.

use vstd::prelude::*;
use crate::eac3::extract::{framed, next};
use crate::eac3::joc::JocObject;
use crate::eac3::parser::header;
use crate::eac3::pcm::{
    active_flags, first_joc, length_checked, oamd_indices, object_plan, object_step, pcm_step,
    EmdfPayload,
    ObjectActionModel, PcmAction, PcmEvent, PcmModel,
};
use crate::eac3::syncframe::ParseError;

verus! {

/// A unit is taken exactly when it is as long as its header says; a shorter one
/// lacks data and a longer one has too much, and both lengths are told.
pub proof fn units_have_their_length(available: usize, expected: usize)
    ensures
        length_checked(available, expected) is Ok <==> available == expected,
        available < expected ==> length_checked(available, expected) == Err::<(), ParseError>(
            ParseError::TruncatedFrame { expected, available },
        ),
        available > expected ==> length_checked(available, expected) == Err::<(), ParseError>(
            ParseError::TrailingData { expected, provided: available },
        ),
{
}

/// The first object-coding payload is one, and none is before it.
pub proof fn the_first_payload_is_taken(payloads: Seq<EmdfPayload>, i: int, k: int)
    requires
        0 <= i,
    ensures
        first_joc(payloads, i) matches Some(at) ==> i <= at < payloads.len() && payloads[at].parsed
            is Joc && (i <= k < at ==> !(payloads[k].parsed is Joc)),
        first_joc(payloads, i) is None ==> (i <= k < payloads.len() ==> !(payloads[k].parsed is Joc)),
    decreases payloads.len() - i,
{
    if i < payloads.len() && !(payloads[i].parsed is Joc) {
        the_first_payload_is_taken(payloads, i + 1, k);
    }
}

/// All metadata payloads are planned, in their order, and no others.
pub proof fn all_metadata_is_planned(payloads: Seq<EmdfPayload>, n: int, k: int)
    requires
        0 <= n <= payloads.len(),
        n <= usize::MAX,
        0 <= k < n,
    ensures
        oamd_indices(payloads, n).contains(k as usize) <==> payloads[k].parsed is Oamd,
        forall|i: int, j: int|
            0 <= i < j < oamd_indices(payloads, n).len() ==> #[trigger] oamd_indices(payloads, n)[i]
                < #[trigger] oamd_indices(payloads, n)[j],
        forall|i: int|
            0 <= i < oamd_indices(payloads, n).len() ==> #[trigger] oamd_indices(payloads, n)[i] < n,
    decreases n,
{
    let list = oamd_indices(payloads, n);
    let before = oamd_indices(payloads, n - 1);
    if n > 1 {
        all_metadata_is_planned(payloads, n - 1, if k < n - 1 { k } else { 0 });
    } else {
        assert(before.len() == 0);
    }
    if payloads[n - 1].parsed is Oamd {
        assert(list == before.push((n - 1) as usize));
        assert(list[before.len() as int] == (n - 1) as usize);
        if k < n - 1 {
            if before.contains(k as usize) {
                let i = choose|i: int| 0 <= i < before.len() && before[i] == k as usize;
                assert(list[i] == k as usize);
            }
            if list.contains(k as usize) {
                let i = choose|i: int| 0 <= i < list.len() && list[i] == k as usize;
                assert(before[i] == k as usize);
            }
        }
    } else if k == n - 1 && list.contains(k as usize) {
        let i = choose|i: int| 0 <= i < before.len() && before[i] == k as usize;
        assert(before[i] < n - 1);
    }
}

/// A plan is that of the first object-coding payload, with the activity of each
/// of its objects; without such a payload there is none.
pub proof fn plans_are_those_of_the_first_payload(payloads: Seq<EmdfPayload>, k: int)
    ensures
        object_plan(payloads) matches Some(plan) ==> 0 <= plan.joc < payloads.len() && payloads[plan.joc].parsed
            is Joc && (0 <= k < plan.joc ==> !(payloads[k].parsed is Joc)) && plan.object_active.len()
            == (payloads[plan.joc].parsed->Joc_0).objects@.len(),
        object_plan(payloads) is None ==> (0 <= k < payloads.len() ==> !(payloads[k].parsed is Joc)),
{
    the_first_payload_is_taken(payloads, 0, k);
}

/// An object is flagged as it is.
pub proof fn flags_tell_the_active_objects(objects: Seq<JocObject>, i: int)
    requires
        0 <= i < objects.len(),
    ensures
        active_flags(objects).len() == objects.len(),
        active_flags(objects)[i] == objects[i].active,
{
}

/// A decoded unit is counted and delivered; a unit of the right length is
/// decoded and nothing changes; any error resets.
pub proof fn decoded_units_are_counted(s: PcmModel, event: PcmEvent)
    requires
        s.frames < u64::MAX,
    ensures
        ({
            let (t, a) = pcm_step(s, event);
            &&& event is Decoded ==> t.frames == s.frames + 1 && t.known == s.known && a
                == (PcmAction::Deliver { frames_seen: (s.frames + 1) as u64 })
            &&& event matches PcmEvent::Inspected { expected, available } ==> (expected == available
                ==> t == s && a is Decode) && (expected != available ==> a is Reset
                && t.known.len() == 0 && t.frames == s.frames)
            &&& event matches PcmEvent::Failed(e) ==> a == PcmAction::Reset(e) && t.known.len() == 0
                && t.frames == s.frames
        }),
{
}

/// A unit without an object-coding payload is skipped, and not counted.
pub proof fn units_without_objects_are_skipped(
    s: PcmModel,
    expected: usize,
    payloads: Seq<EmdfPayload>,
)
    ensures
        ({
            let event = PcmEvent::Inspected { expected, available: expected };
            let (t, a) = object_step(s, event, payloads);
            &&& t == s
            &&& a is Skip <==> object_plan(payloads) is None
            &&& object_plan(payloads) matches Some(plan) ==> a == ObjectActionModel::Decode(plan)
        }),
{
}

/// A frame is as long as its header says and starts with the sync word; what
/// waits is what is behind it. A bad header costs two bytes.
pub proof fn frames_are_as_long_as_they_say(s: Seq<u8>)
    ensures
        framed(s).1 matches Ok(Some((frame, info))) ==> frame.len() == info.frame_size && frame
            + framed(s).0 == s && header(s) == Ok::<_, crate::eac3::parser::ParseError>(info),
        framed(s).1 is Err && s.len() >= 2 ==> framed(s).0.len() == s.len() - 2 && framed(s).0
            == s.skip(2),
        framed(s).1 matches Ok(None) ==> framed(s).0 == s,
{
    match framed(s).1 {
        Ok(Some((frame, info))) => {
            assert(frame + framed(s).0 =~= s);
        },
        Err(_) => {
            if s.len() >= 2 {
                assert(framed(s).0 =~= s.skip(2));
            }
        },
        _ => {},
    }
}

/// Fewer than two bytes wait as they are.
pub proof fn single_bytes_wait(d: Seq<u8>)
    requires
        d.len() < 2,
    ensures
        next(d).0 == d,
        next(d).1 matches Ok(None),
{
}

} // verus!
