//! What a search in a stream of bytes finds.

use vstd::prelude::*;
use crate::framing::{first_from, longest_tail, occurs, partial_tail, tail_matches};

verus! {

/// The first place is one, and none is before it; without one there is none.
pub proof fn the_first_is_found(d: Seq<u8>, pattern: Seq<u8>, i: int, k: int)
    requires
        0 <= i,
        0 < pattern.len(),
    ensures
        first_from(d, pattern, i) matches Some(at) ==> i <= at && occurs(d, pattern, at) && (i <= k
            < at ==> !occurs(d, pattern, k)),
        first_from(d, pattern, i) is None ==> (i <= k ==> !occurs(d, pattern, k)),
    decreases d.len() - i,
{
    if i + pattern.len() <= d.len() && i < d.len() && !occurs(d, pattern, i) {
        the_first_is_found(d, pattern, i + 1, k);
    }
}

/// The end that is kept may start the pattern, and no longer one does.
pub proof fn the_longest_end_is_kept(d: Seq<u8>, pattern: Seq<u8>, k: int)
    requires
        0 < pattern.len(),
    ensures
        0 <= partial_tail(d, pattern) < pattern.len(),
        partial_tail(d, pattern) > 0 ==> tail_matches(d, pattern, partial_tail(d, pattern)),
        partial_tail(d, pattern) < k < pattern.len() ==> !tail_matches(d, pattern, k),
{
    lemma_longest(d, pattern, pattern.len() - 1, k);
}

proof fn lemma_longest(d: Seq<u8>, pattern: Seq<u8>, n: int, k: int)
    requires
        0 <= n,
    ensures
        0 <= longest_tail(d, pattern, n) <= n,
        longest_tail(d, pattern, n) > 0 ==> tail_matches(d, pattern, longest_tail(d, pattern, n)),
        longest_tail(d, pattern, n) < k <= n ==> !tail_matches(d, pattern, k),
    decreases n,
{
    if n > 0 && !tail_matches(d, pattern, n) {
        lemma_longest(d, pattern, n - 1, k);
    }
}

} // verus!
