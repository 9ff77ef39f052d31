//! What an object element holds of its objects' blocks.

use vstd::prelude::*;
use crate::bits::flag;
use crate::grammar::{items_are_read_in_turn, lemma_repeat_len, repeat};
use crate::eac3::oamd::{block_step, object_element, object_step, update_info};
use crate::eac3::oamd_block::{object_block, OamdObjectBlock};
use crate::eac3::syncframe::ParseError;

verus! {

/// An element of objects has the blocks of each object in turn, one for each
/// update, behind one flag and the five bits that a clear one brings.
pub proof fn elements_have_the_blocks_of_each_object(
    d: Seq<u8>,
    lim: int,
    p: int,
    objects: int,
    beds: int,
)
    requires
        0 <= objects,
    ensures
        object_element(d, lim, p, objects, beds) matches Ok((o, q)) ==> ({
            &&& update_info(d, lim, p) matches Ok((info, r))
            &&& o.sample_offset == info.0
            &&& o.block_updates == info.1
            &&& o.object_blocks.len() == objects
            &&& repeat(
                object_step(d, lim, o.block_updates.len() as int, beds),
                if flag(d, r) { r + 1 } else { r + 6 },
                objects,
            ) == Ok::<_, ParseError>((o.object_blocks, q))
        }),
{
    if let Ok((info, r)) = update_info(d, lim, p) {
        lemma_repeat_len(
            object_step(d, lim, info.1.len() as int, beds),
            if flag(d, r) { r + 1 } else { r + 6 },
            objects,
        );
    }
}

/// The blocks of an object stand one behind the other; the first says so, and
/// those of the first objects are of beds.
pub proof fn blocks_stand_one_behind_the_other(
    d: Seq<u8>,
    lim: int,
    object: int,
    beds: int,
    places: Seq<int>,
    blocks: Seq<OamdObjectBlock>,
)
    requires
        places.len() == blocks.len() + 1,
        forall|i: int|
            0 <= i < blocks.len() ==> object_block(
                d,
                lim,
                #[trigger] places[i],
                i == 0,
                object < beds,
            ) == Ok::<_, ParseError>((blocks[i], places[i + 1])),
    ensures
        object_step(d, lim, blocks.len() as int, beds)(object, places[0])
            == Ok::<_, ParseError>((blocks, places[blocks.len() as int])),
{
    let step = block_step(d, lim, object < beds);
    assert forall|i: int| 0 <= i < blocks.len() implies step(i, #[trigger] places[i]) == Ok::<
        (OamdObjectBlock, int),
        ParseError,
    >((blocks[i], places[i + 1])) by {
        assert(object_block(d, lim, places[i], i == 0, object < beds)
            == Ok::<_, ParseError>((blocks[i], places[i + 1])));
    }
    items_are_read_in_turn(step, places, blocks, blocks.len() as int);
    assert(blocks.take(blocks.len() as int) =~= blocks);
}

} // verus!
