//! Finding frames in a byte stream that arrives in pieces.

use vstd::prelude::*;
use vstd::slice::slice_subrange;

verus! {

/// `pattern` stands at index `i` of `d`.
pub open spec fn occurs(d: Seq<u8>, pattern: Seq<u8>, i: int) -> bool {
    0 <= i && i + pattern.len() <= d.len() && d.subrange(i, i + pattern.len()) == pattern
}

/// The first place from `i` on where `pattern` stands.
pub open spec fn first_from(d: Seq<u8>, pattern: Seq<u8>, i: int) -> Option<int>
    decreases d.len() - i,
{
    if i + pattern.len() > d.len() || i >= d.len() {
        None
    } else if occurs(d, pattern, i) {
        Some(i)
    } else {
        first_from(d, pattern, i + 1)
    }
}

/// The last `k` bytes of `d` are the first `k` of `pattern`.
pub open spec fn tail_matches(d: Seq<u8>, pattern: Seq<u8>, k: int) -> bool {
    0 <= k <= d.len() && k <= pattern.len() && d.subrange(d.len() - k, d.len() as int)
        == pattern.subrange(0, k)
}

/// Length, at most `k`, of the longest end of `d` that starts `pattern`.
pub open spec fn longest_tail(d: Seq<u8>, pattern: Seq<u8>, k: int) -> int
    decreases k,
{
    if k <= 0 {
        0
    } else if tail_matches(d, pattern, k) {
        k
    } else {
        longest_tail(d, pattern, k - 1)
    }
}

/// Bytes at the end of `d` that may be the start of `pattern`.
pub open spec fn partial_tail(d: Seq<u8>, pattern: Seq<u8>) -> int {
    longest_tail(d, pattern, pattern.len() - 1)
}

proof fn lemma_longest_tail(d: Seq<u8>, pattern: Seq<u8>, k: int)
    requires
        0 <= k <= pattern.len(),
    ensures
        0 <= longest_tail(d, pattern, k) <= k,
        longest_tail(d, pattern, k) <= d.len(),
        forall|m: int|
            longest_tail(d, pattern, k) < m <= k ==> !#[trigger] tail_matches(d, pattern, m),
    decreases k,
{
    if k > 0 {
        if !tail_matches(d, pattern, k) {
            lemma_longest_tail(d, pattern, k - 1);
        }
    }
}

/// The kept end is never longer than what there is.
pub proof fn lemma_partial_tail(d: Seq<u8>, pattern: Seq<u8>)
    requires
        pattern.len() > 0,
    ensures
        0 <= partial_tail(d, pattern) <= d.len(),
        partial_tail(d, pattern) < pattern.len(),
{
    lemma_longest_tail(d, pattern, pattern.len() - 1);
}

/// What a first place is: the pattern stands there and nowhere before.
pub proof fn lemma_first(d: Seq<u8>, pattern: Seq<u8>, i: int)
    requires
        0 <= i,
        pattern.len() > 0,
    ensures
        match first_from(d, pattern, i) {
            Some(k) => i <= k && occurs(d, pattern, k) && forall|j: int|
                i <= j < k ==> !#[trigger] occurs(d, pattern, j),
            None => forall|j: int| i <= j ==> !#[trigger] occurs(d, pattern, j),
        },
    decreases d.len() - i,
{
    if i + pattern.len() > d.len() || i >= d.len() {
    } else if !occurs(d, pattern, i) {
        lemma_first(d, pattern, i + 1);
    }
}

/// A place where the pattern stands, and nowhere before, is the first.
pub proof fn lemma_is_first(d: Seq<u8>, pattern: Seq<u8>, i: int, k: int)
    requires
        0 <= i <= k,
        pattern.len() > 0,
        occurs(d, pattern, k),
        forall|j: int| i <= j < k ==> !#[trigger] occurs(d, pattern, j),
    ensures
        first_from(d, pattern, i) == Some(k),
{
    lemma_first(d, pattern, i);
    match first_from(d, pattern, i) {
        Some(m) => {
            if m < k {
                assert(occurs(d, pattern, m));
            } else if m > k {
                assert(!occurs(d, pattern, k));
            }
        },
        None => {
            assert(!occurs(d, pattern, k));
        },
    }
}

/// More bytes do not move the first place.
pub proof fn lemma_first_stays(d: Seq<u8>, more: Seq<u8>, pattern: Seq<u8>)
    requires
        pattern.len() > 0,
        first_from(d, pattern, 0) is Some,
    ensures
        first_from(d + more, pattern, 0) == first_from(d, pattern, 0),
{
    lemma_first(d, pattern, 0);
    let k = first_from(d, pattern, 0)->0;
    let x = d + more;
    let n = pattern.len() as int;
    assert(x.subrange(k, k + n) =~= d.subrange(k, k + n));
    assert forall|j: int| 0 <= j < k implies !#[trigger] occurs(x, pattern, j) by {
        assert(x.subrange(j, j + n) =~= d.subrange(j, j + n));
        assert(!occurs(d, pattern, j));
    }
    lemma_is_first(x, pattern, 0, k);
}

/// Without the pattern in `d`, only its kept end matters to what follows.
pub proof fn lemma_only_tail_matters(d: Seq<u8>, more: Seq<u8>, pattern: Seq<u8>)
    requires
        pattern.len() > 0,
        first_from(d, pattern, 0) is None,
    ensures
        ({
            let cut = d.len() - partial_tail(d, pattern);
            let y = d.subrange(cut, d.len() as int) + more;
            match first_from(d + more, pattern, 0) {
                Some(k) => k >= cut && first_from(y, pattern, 0) == Some(k - cut),
                None => first_from(y, pattern, 0) is None,
            }
        }),
{
    let n = pattern.len() as int;
    lemma_longest_tail(d, pattern, n - 1);
    let cut = d.len() - partial_tail(d, pattern);
    let x = d + more;
    let y = d.subrange(cut, d.len() as int) + more;
    lemma_first(d, pattern, 0);
    assert forall|j: int| 0 <= j < cut implies !#[trigger] occurs(x, pattern, j) by {
        if occurs(x, pattern, j) {
            if j + n <= d.len() {
                assert(x.subrange(j, j + n) =~= d.subrange(j, j + n));
                assert(occurs(d, pattern, j));
            } else {
                let m = d.len() - j;
                let whole = x.subrange(j, j + n);
                assert(d.subrange(d.len() - m, d.len() as int) =~= whole.subrange(0, m));
                assert(tail_matches(d, pattern, m));
            }
        }
    }
    assert forall|j: int| 0 <= j implies #[trigger] occurs(y, pattern, j) == occurs(
        x,
        pattern,
        j + cut,
    ) by {
        if 0 <= j && j + n <= y.len() {
            assert(y.subrange(j, j + n) =~= x.subrange(j + cut, j + cut + n));
        }
    }
    lemma_first(x, pattern, 0);
    match first_from(x, pattern, 0) {
        Some(k) => {
            assert(occurs(y, pattern, k - cut));
            assert forall|j: int| 0 <= j < k - cut implies !#[trigger] occurs(y, pattern, j) by {
                assert(!occurs(x, pattern, j + cut));
            }
            lemma_is_first(y, pattern, 0, k - cut);
        },
        None => {
            lemma_first(y, pattern, 0);
            if let Some(j) = first_from(y, pattern, 0) {
                assert(occurs(y, pattern, j));
                assert(!occurs(x, pattern, j + cut));
            }
        },
    }
}

fn stands(data: &[u8], pattern: &[u8], at: usize) -> (r: bool)
    requires
        at + pattern@.len() <= data@.len(),
    ensures
        r == occurs(data@, pattern@, at as int),
{
    let n: usize = pattern.len();
    let total: usize = data.len();
    let mut k: usize = 0;
    while k < n
        invariant
            n == pattern@.len(),
            total == data@.len(),
            at + n <= total,
            k <= n,
            forall|j: int| 0 <= j < k ==> data@[at + j] == pattern@[j],
        decreases n - k,
    {
        if data[at + k] != pattern[k] {
            proof {
                assert(data@.subrange(at as int, at + n)[k as int] != pattern@[k as int]);
            }
            return false;
        }
        k = k + 1;
    }
    assert(data@.subrange(at as int, at + n) =~= pattern@);
    true
}

/// Find the first place where `pattern` stands.
pub fn find(data: &[u8], pattern: &[u8]) -> (r: Option<usize>)
    requires
        pattern@.len() > 0,
    ensures
        match (r, first_from(data@, pattern@, 0)) {
            (Some(a), Some(b)) => a == b && a + pattern@.len() <= data@.len(),
            (None, None) => true,
            _ => false,
        },
{
    let n: usize = pattern.len();
    let total: usize = data.len();
    if total < n {
        return None;
    }
    let mut i: usize = 0;
    while i <= total - n
        invariant
            n == pattern@.len(),
            n > 0,
            total == data@.len(),
            n <= total,
            i <= total - n + 1,
            first_from(data@, pattern@, 0) == first_from(data@, pattern@, i as int),
        decreases total - n + 1 - i,
    {
        if stands(data, pattern, i) {
            return Some(i);
        }
        i = i + 1;
    }
    None
}

/// Length of the end of `data` that may be the start of `pattern`.
pub fn partial_sync_tail(data: &[u8], pattern: &[u8]) -> (r: usize)
    requires
        pattern@.len() > 0,
    ensures
        r == partial_tail(data@, pattern@),
        r <= data@.len(),
{
    let n: usize = pattern.len();
    let total: usize = data.len();
    proof {
        lemma_partial_tail(data@, pattern@);
    }
    let mut k: usize = n - 1;
    while k > 0
        invariant
            n == pattern@.len(),
            total == data@.len(),
            k < n,
            partial_tail(data@, pattern@) == longest_tail(data@, pattern@, k as int),
            0 <= partial_tail(data@, pattern@) <= total,
        decreases k,
    {
        if k <= total {
            let head: &[u8] = slice_subrange(pattern, 0, k);
            if stands(data, head, total - k) {
                return k;
            }
        }
        k = k - 1;
    }
    0
}

/// Bytes waiting to be framed.
#[derive(Debug)]
pub struct ByteQueue {
    buffer: Vec<u8>,
    cursor: usize,
}

impl View for ByteQueue {
    type V = Seq<u8>;

    /// The bytes that were pushed and not consumed.
    closed spec fn view(&self) -> Seq<u8> {
        self.buffer@.subrange(self.cursor as int, self.buffer@.len() as int)
    }
}

impl ByteQueue {
    /// The cursor stands inside the buffer.
    pub closed spec fn wf(&self) -> bool {
        self.cursor <= self.buffer@.len()
    }

    pub fn new() -> (r: Self)
        ensures
            r.wf(),
            r@ == Seq::<u8>::empty(),
    {
        let r = ByteQueue { buffer: Vec::new(), cursor: 0 };
        assert(r@ =~= Seq::<u8>::empty());
        r
    }

    pub fn len(&self) -> (r: usize)
        requires
            self.wf(),
        ensures
            r == self@.len(),
    {
        self.buffer.len() - self.cursor
    }

    pub fn bytes(&self) -> (r: &[u8])
        requires
            self.wf(),
        ensures
            r@ == self@,
    {
        slice_subrange(self.buffer.as_slice(), self.cursor, self.buffer.len())
    }

    /// Add bytes at the end.
    pub fn push(&mut self, data: &[u8])
        requires
            old(self).wf(),
        ensures
            final(self).wf(),
            final(self)@ == old(self)@ + data@,
    {
        self.compact();
        let ghost before = self@;
        let n: usize = data.len();
        let mut i: usize = 0;
        while i < n
            invariant
                n == data@.len(),
                i <= n,
                self.wf(),
                before == old(self)@,
                self@ == before + data@.take(i as int),
            decreases n - i,
        {
            let ghost held = self@;
            self.buffer.push(data[i]);
            assert(self@ =~= held.push(data@[i as int]));
            assert(data@.take(i + 1) =~= data@.take(i as int).push(data@[i as int]));
            assert(self@ =~= before + data@.take(i + 1));
            i = i + 1;
        }
        assert(data@.take(n as int) =~= data@);
    }

    /// Drop the first `count` bytes.
    pub fn consume(&mut self, count: usize)
        requires
            old(self).wf(),
            count <= old(self)@.len(),
        ensures
            final(self).wf(),
            final(self)@ == old(self)@.subrange(count as int, old(self)@.len() as int),
    {
        let total: usize = self.buffer.len();
        assert(self.cursor + count <= total);
        self.cursor = self.cursor + count;
        assert(self@ =~= old(self)@.subrange(count as int, old(self)@.len() as int));
        self.compact();
    }

    /// Move the waiting bytes to the front once enough has been consumed.
    fn compact(&mut self)
        requires
            old(self).wf(),
        ensures
            final(self).wf(),
            final(self)@ == old(self)@,
    {
        if self.cursor == 0 {
            return;
        }
        let total: usize = self.buffer.len();
        let left: usize = total - self.cursor;
        if self.cursor < 4096 && self.cursor < left {
            return;
        }
        let mut rest: Vec<u8> = Vec::new();
        let mut i: usize = 0;
        while i < left
            invariant
                self.wf(),
                *self == *old(self),
                total == self.buffer@.len(),
                left == self.buffer@.len() - self.cursor,
                i <= left,
                rest@ == self@.take(i as int),
            decreases left - i,
        {
            rest.push(self.buffer[self.cursor + i]);
            assert(self@.take(i + 1) =~= self@.take(i as int).push(self@[i as int]));
            i = i + 1;
        }
        assert(self@.take(left as int) =~= self@);
        self.buffer = rest;
        self.cursor = 0;
        assert(self@ =~= old(self)@);
    }

    /// A copy of the first `count` bytes.
    pub fn front(&self, count: usize) -> (r: Vec<u8>)
        requires
            self.wf(),
            count <= self@.len(),
        ensures
            r@ == self@.take(count as int),
    {
        let total: usize = self.buffer.len();
        let mut r: Vec<u8> = Vec::new();
        let mut i: usize = 0;
        while i < count
            invariant
                self.wf(),
                total == self.buffer@.len(),
                count <= self@.len(),
                i <= count,
                r@ == self@.take(i as int),
            decreases count - i,
        {
            r.push(self.buffer[self.cursor + i]);
            assert(self@.take(i + 1) =~= self@.take(i as int).push(self@[i as int]));
            i = i + 1;
        }
        r
    }
}

} // verus!
