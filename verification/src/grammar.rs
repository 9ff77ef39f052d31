//! Vocabulary for stating what a parser accepts: a parse is a function of the
//! bytes and the position that gives a value and the next position, or the
//! error that stops it.

use vstd::prelude::*;

verus! {

/// What an executable parser returned, and where it left the cursor, is what
/// the grammar says.
pub open spec fn parsed<T, E>(r: Result<T, E>, g: Result<(T, int), E>, pos: int) -> bool {
    match r {
        Ok(v) => g == Ok::<(T, int), E>((v, pos)),
        Err(e) => g == Err::<(T, int), E>(e),
    }
}

/// [`parsed`] for a value that the grammar describes by its view.
pub open spec fn parsed_view<T: View, E>(
    r: Result<T, E>,
    g: Result<(T::V, int), E>,
    pos: int,
) -> bool {
    match r {
        Ok(v) => g == Ok::<(T::V, int), E>((v@, pos)),
        Err(e) => g == Err::<(T::V, int), E>(e),
    }
}

/// `n` items one after the other, item `i` read by `step(i, position)`; the
/// first item that fails is the failure of the whole.
pub open spec fn repeat<T, E>(
    step: spec_fn(int, int) -> Result<(T, int), E>,
    p: int,
    n: int,
) -> Result<(Seq<T>, int), E>
    decreases n,
{
    if n <= 0 {
        Ok((Seq::empty(), p))
    } else {
        match repeat(step, p, n - 1) {
            Err(e) => Err(e),
            Ok((items, q)) => match step(n - 1, q) {
                Err(e) => Err(e),
                Ok((item, r)) => Ok((items.push(item), r)),
            },
        }
    }
}

/// A failed prefix decides the whole repetition.
pub proof fn lemma_repeat_err<T, E>(
    step: spec_fn(int, int) -> Result<(T, int), E>,
    p: int,
    k: int,
    n: int,
)
    requires
        k <= n,
        repeat(step, p, k) is Err,
    ensures
        repeat(step, p, n) == repeat(step, p, k),
    decreases n - k,
{
    if k < n {
        lemma_repeat_err(step, p, k, n - 1);
    }
}

/// A repetition that succeeds gives one item per step.
pub proof fn lemma_repeat_len<T, E>(
    step: spec_fn(int, int) -> Result<(T, int), E>,
    p: int,
    n: int,
)
    requires
        n >= 0,
    ensures
        repeat(step, p, n) matches Ok((items, q)) ==> items.len() == n,
    decreases n,
{
    if n > 0 {
        lemma_repeat_len(step, p, n - 1);
    }
}

/// What holds of every item that a step can give holds of all items.
pub proof fn lemma_repeat_all<T, E>(
    step: spec_fn(int, int) -> Result<(T, int), E>,
    p: int,
    n: int,
    good: spec_fn(T) -> bool,
)
    requires
        n >= 0,
        forall|i: int, q: int|
            0 <= i < n ==> (#[trigger] step(i, q) matches Ok((item, r)) ==> good(item)),
    ensures
        repeat(step, p, n) matches Ok((items, q)) ==> items.len() == n && forall|i: int|
            0 <= i < n ==> good(#[trigger] items[i]),
    decreases n,
{
    if n > 0 {
        lemma_repeat_all(step, p, n - 1, good);
        if let Ok((items, q)) = repeat(step, p, n - 1) {
            assert(step(n - 1, q) matches Ok((item, r)) ==> good(item));
        }
    }
}

/// Items that stand one behind the other are read in that order: item `i` from
/// place `i` up to place `i + 1`.
pub proof fn items_are_read_in_turn<T, E>(
    step: spec_fn(int, int) -> Result<(T, int), E>,
    places: Seq<int>,
    items: Seq<T>,
    n: int,
)
    requires
        0 <= n <= items.len(),
        n < places.len(),
        forall|i: int|
            0 <= i < n ==> step(i, #[trigger] places[i]) == Ok::<(T, int), E>(
                (items[i], places[i + 1]),
            ),
    ensures
        repeat(step, places[0], n) == Ok::<(Seq<T>, int), E>((items.take(n), places[n])),
    decreases n,
{
    if n > 0 {
        items_are_read_in_turn(step, places, items, n - 1);
        assert(step(n - 1, places[n - 1]) == Ok::<(T, int), E>((items[n - 1], places[n - 1 + 1])));
        assert(items.take(n - 1).push(items[n - 1]) =~= items.take(n));
    } else {
        assert(items.take(0) =~= Seq::<T>::empty());
    }
}

/// Steps that each end where the next starts, and leave it their state, run
/// through in that order.
pub proof fn steps_are_taken_in_turn<S, E>(
    step: spec_fn(int, S, int) -> (S, Result<int, E>),
    places: Seq<int>,
    states: Seq<S>,
    n: int,
)
    requires
        0 <= n < places.len(),
        n < states.len(),
        forall|i: int|
            0 <= i < n ==> step(i, states[i], #[trigger] places[i]) == (
                states[i + 1],
                Ok::<int, E>(places[i + 1]),
            ),
    ensures
        thread(step, states[0], places[0], n) == (states[n], Ok::<int, E>(places[n])),
    decreases n,
{
    if n > 0 {
        steps_are_taken_in_turn(step, places, states, n - 1);
        assert(step(n - 1, states[n - 1], places[n - 1]) == (
            states[n - 1 + 1],
            Ok::<int, E>(places[n - 1 + 1]),
        ));
    }
}

/// `n` steps one after the other, each on the state that the one before left;
/// the first step that fails ends the run, and what it had done stays done.
pub open spec fn thread<S, E>(
    step: spec_fn(int, S, int) -> (S, Result<int, E>),
    s: S,
    p: int,
    n: int,
) -> (S, Result<int, E>)
    decreases n,
{
    if n <= 0 {
        (s, Ok(p))
    } else {
        match thread(step, s, p, n - 1) {
            (t, Err(e)) => (t, Err(e)),
            (t, Ok(q)) => step(n - 1, t, q),
        }
    }
}

pub proof fn lemma_thread_err<S, E>(
    step: spec_fn(int, S, int) -> (S, Result<int, E>),
    s: S,
    p: int,
    k: int,
    n: int,
)
    requires
        k <= n,
        thread(step, s, p, k).1 is Err,
    ensures
        thread(step, s, p, n) == thread(step, s, p, k),
    decreases n - k,
{
    if k < n {
        lemma_thread_err(step, s, p, k, n - 1);
    }
}

/// A step that fails decides the whole run.
pub proof fn lemma_thread_step<S, E>(
    step: spec_fn(int, S, int) -> (S, Result<int, E>),
    s: S,
    p: int,
    k: int,
    n: int,
)
    requires
        0 <= k < n,
    ensures
        thread(step, s, p, k + 1).1 is Err ==> thread(step, s, p, n) == thread(step, s, p, k + 1),
{
    if thread(step, s, p, k + 1).1 is Err {
        lemma_thread_err(step, s, p, k + 1, n);
    }
}

/// What every step keeps, the run keeps.
pub proof fn lemma_thread_keeps<S, E>(
    step: spec_fn(int, S, int) -> (S, Result<int, E>),
    s: S,
    p: int,
    n: int,
    kept: spec_fn(S) -> bool,
)
    requires
        kept(s),
        forall|i: int, t: S, q: int| 0 <= i && kept(t) ==> kept((#[trigger] step(i, t, q)).0),
    ensures
        kept(thread(step, s, p, n).0),
    decreases n,
{
    if n > 0 {
        lemma_thread_keeps(step, s, p, n - 1, kept);
        match thread(step, s, p, n - 1) {
            (t, Ok(q)) => {
                assert(kept(step(n - 1, t, q).0));
            },
            _ => {},
        }
    }
}

/// What an executable step returned, where it left the cursor and the state
/// that it left are what the grammar says.
pub open spec fn threaded<S, E>(r: Result<(), E>, s: S, pos: int, g: (S, Result<int, E>)) -> bool {
    match g {
        (t, Ok(q)) => r is Ok && s == t && pos == q,
        (t, Err(e)) => r == Err::<(), E>(e) && s == t,
    }
}

/// A vector of vectors as a sequence of sequences.
pub open spec fn rows<T>(v: Seq<Vec<T>>) -> Seq<Seq<T>> {
    Seq::new(v.len(), |i: int| v[i]@)
}

/// A vector of vectors of vectors as nested sequences.
pub open spec fn planes<T>(v: Seq<Vec<Vec<T>>>) -> Seq<Seq<Seq<T>>> {
    Seq::new(v.len(), |i: int| rows(v[i]@))
}

} // verus!
