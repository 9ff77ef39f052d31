//! Core frames out of a byte stream.

use vstd::prelude::*;
use crate::bits::lemma_field_range;
use crate::framing::{
    find, first_from, lemma_first, lemma_first_stays, lemma_only_tail_matters,
    lemma_partial_tail, partial_sync_tail, partial_tail, ByteQueue,
};
use super::parser::{header, parse_header, FrameInfo, ParseError};

verus! {

/// The sync word as bytes.
pub const SYNC: [u8; 4] = [0x7F, 0xFE, 0x80, 0x01];

#[derive(Clone, Copy, Debug, PartialEq, Eq)]
pub enum ExtractError {
    InvalidHeader(ParseError),
}

/// One core frame.
#[derive(Clone, Debug, PartialEq, Eq)]
pub struct Frame {
    data: Vec<u8>,
    info: FrameInfo,
}

impl View for Frame {
    type V = (Seq<u8>, FrameInfo);

    closed spec fn view(&self) -> (Seq<u8>, FrameInfo) {
        (self.data@, self.info)
    }
}

impl Frame {
    pub fn new(data: Vec<u8>, info: FrameInfo) -> (r: Self)
        ensures
            r@ == (data@, info),
    {
        Frame { data, info }
    }

    pub fn info(&self) -> (r: FrameInfo)
        ensures
            r == self@.1,
    {
        self.info
    }

    pub fn as_bytes(&self) -> (r: &[u8])
        ensures
            r@ == self@.0,
    {
        self.data.as_slice()
    }
}

/// What comes out of the waiting bytes, and which bytes then wait.
pub open spec fn next(d: Seq<u8>) -> (Seq<u8>, Result<Option<(Seq<u8>, FrameInfo)>, ExtractError>) {
    if d.len() < 4 {
        (d, Ok(None))
    } else {
        match first_from(d, SYNC@, 0) {
            None => (d.subrange(d.len() - partial_tail(d, SYNC@), d.len() as int), Ok(None)),
            Some(i) => framed(d.subrange(i, d.len() as int)),
        }
    }
}

/// What comes out of bytes that start with the sync word: a frame once it is
/// whole; a bad header costs the sync word alone.
pub open spec fn framed(s: Seq<u8>) -> (Seq<u8>, Result<Option<(Seq<u8>, FrameInfo)>, ExtractError>) {
    match header(s) {
        Ok(info) => if s.len() < info.frame_size {
            (s, Ok(None))
        } else {
            (
                s.subrange(info.frame_size as int, s.len() as int),
                Ok(Some((s.take(info.frame_size as int), info))),
            )
        },
        Err(ParseError::InsufficientData) => (s, Ok(None)),
        Err(e) => (s.subrange(4, s.len() as int), Err(ExtractError::InvalidHeader(e))),
    }
}

/// The result of a call, by its view.
pub open spec fn result_view(r: Result<Option<Frame>, ExtractError>) -> Result<
    Option<(Seq<u8>, FrameInfo)>,
    ExtractError,
> {
    match r {
        Ok(Some(frame)) => Ok(Some(frame@)),
        Ok(None) => Ok(None),
        Err(e) => Err(e),
    }
}

/// Cuts core frames out of bytes as they arrive.
#[derive(Debug)]
pub struct Extractor {
    queue: ByteQueue,
}

impl View for Extractor {
    type V = Seq<u8>;

    /// The bytes that wait.
    closed spec fn view(&self) -> Seq<u8> {
        self.queue@
    }
}

impl Default for Extractor {
    fn default() -> (r: Self)
        ensures
            r.wf(),
            r@ == Seq::<u8>::empty(),
    {
        Extractor { queue: ByteQueue::new() }
    }
}

impl Extractor {
    pub closed spec fn wf(&self) -> bool {
        self.queue.wf()
    }

    pub fn push_bytes(&mut self, data: &[u8])
        requires
            old(self).wf(),
        ensures
            final(self).wf(),
            final(self)@ == old(self)@ + data@,
    {
        self.queue.push(data);
    }

    pub fn buffered_len(&self) -> (r: usize)
        requires
            self.wf(),
        ensures
            r == self@.len(),
    {
        self.queue.len()
    }

    /// The next frame; none when more bytes are needed.
    pub fn next_frame(&mut self) -> (r: Result<Option<Frame>, ExtractError>)
        requires
            old(self).wf(),
        ensures
            final(self).wf(),
            (final(self)@, result_view(r)) == next(old(self)@),
    {
        let ghost d = self@;
        if self.queue.len() < 4 {
            return Ok(None);
        }
        let sync: [u8; 4] = SYNC;
        let found: Option<usize> = find(self.queue.bytes(), sync.as_slice());
        let at: usize = match found {
            Some(at) => at,
            None => {
                let keep: usize = partial_sync_tail(self.queue.bytes(), sync.as_slice());
                let count: usize = self.queue.len() - keep;
                self.queue.consume(count);
                return Ok(None);
            },
        };
        self.queue.consume(at);
        let ghost s = self@;
        proof {
            lemma_first(d, SYNC@, 0);
        }
        match parse_header(self.queue.bytes()) {
            Ok(info) => {
                if self.queue.len() < info.frame_size {
                    return Ok(None);
                }
                let data: Vec<u8> = self.queue.front(info.frame_size);
                self.queue.consume(info.frame_size);
                Ok(Some(Frame::new(data, info)))
            },
            Err(ParseError::InsufficientData) => Ok(None),
            Err(e) => {
                self.queue.consume(4);
                Err(ExtractError::InvalidHeader(e))
            },
        }
    }
}

proof fn lemma_waiting_frame(s: Seq<u8>)
    requires
        framed(s).1 == Ok::<Option<(Seq<u8>, FrameInfo)>, ExtractError>(None),
    ensures
        framed(s).0 == s,
{
}

/// How a stream is cut into pieces does not show in what comes out of it:
/// after an empty answer, more bytes give what they would have given at once,
/// and once something came out the same bytes wait.
pub proof fn pieces_do_not_show(d: Seq<u8>, more: Seq<u8>)
    requires
        next(d).1 == Ok::<Option<(Seq<u8>, FrameInfo)>, ExtractError>(None),
    ensures
        next(next(d).0 + more).1 == next(d + more).1,
        next(d + more).1 != Ok::<Option<(Seq<u8>, FrameInfo)>, ExtractError>(None) ==> next(
            next(d).0 + more,
        ) == next(d + more),
{
    let rest = next(d).0;
    if d.len() >= 4 {
        let x = d + more;
        let y = rest + more;
        lemma_first(d, SYNC@, 0);
        match first_from(d, SYNC@, 0) {
            None => {
                lemma_partial_tail(d, SYNC@);
                lemma_only_tail_matters(d, more, SYNC@);
                lemma_first(y, SYNC@, 0);
                let cut = d.len() - partial_tail(d, SYNC@);
                match first_from(x, SYNC@, 0) {
                    Some(k) => {
                        assert(x.subrange(k, x.len() as int) =~= y.subrange(
                            k - cut,
                            y.len() as int,
                        ));
                    },
                    None => {},
                }
            },
            Some(i) => {
                let s = d.subrange(i, d.len() as int);
                lemma_waiting_frame(s);
                lemma_first_stays(d, more, SYNC@);
                assert(x.subrange(i, x.len() as int) =~= s + more);
                assert(s.subrange(0, 4) =~= d.subrange(i, i + 4));
                assert(y.subrange(0, 4) =~= s.subrange(0, 4));
                crate::framing::lemma_is_first(y, SYNC@, 0, 0);
                assert(y.subrange(0, y.len() as int) =~= y);
            },
        }
    }
}

/// Whatever comes out uses up bytes.
proof fn lemma_progress(d: Seq<u8>)
    ensures
        next(d).1 != Ok::<Option<(Seq<u8>, FrameInfo)>, ExtractError>(None) ==> next(d).0.len()
            < d.len(),
{
    if d.len() >= 4 {
        lemma_first(d, SYNC@, 0);
        if let Some(i) = first_from(d, SYNC@, 0) {
            let s = d.subrange(i, d.len() as int);
            lemma_field_range(s.subrange(0, 18), 46, 14);
        }
    }
}

/// Bytes that arrive later do not change what comes out now.
proof fn lemma_outcome_stays(d: Seq<u8>, more: Seq<u8>)
    requires
        next(d).1 != Ok::<Option<(Seq<u8>, FrameInfo)>, ExtractError>(None),
    ensures
        next(d + more) == (next(d).0 + more, next(d).1),
{
    lemma_first(d, SYNC@, 0);
    let i = first_from(d, SYNC@, 0)->0;
    let s = d.subrange(i, d.len() as int);
    let x = d + more;
    lemma_first_stays(d, more, SYNC@);
    assert(x.subrange(i, x.len() as int) =~= s + more);
    let y = s + more;
    assert(y.subrange(0, 18) =~= s.subrange(0, 18));
    match header(s) {
        Ok(info) => {
            let n = info.frame_size as int;
            assert(y.take(n) =~= s.take(n));
            assert(y.subrange(n, y.len() as int) =~= s.subrange(n, s.len() as int) + more);
        },
        Err(_) => {
            assert(y.subrange(4, y.len() as int) =~= s.subrange(4, s.len() as int) + more);
        },
    }
}

/// All that comes out of the waiting bytes before more are needed, and which
/// bytes then wait.
pub open spec fn drained(d: Seq<u8>) -> (
    Seq<u8>,
    Seq<Result<Option<(Seq<u8>, FrameInfo)>, ExtractError>>,
)
    decreases d.len(),
{
    let (rest, r) = next(d);
    if r == Ok::<Option<(Seq<u8>, FrameInfo)>, ExtractError>(None) || rest.len() >= d.len() {
        (rest, Seq::empty())
    } else {
        let (waiting, later) = drained(rest);
        (waiting, seq![r] + later)
    }
}

/// What has come out after `n` pieces, the stream being drained after each,
/// and which bytes then wait.
pub open spec fn fed(pieces: Seq<Seq<u8>>, n: int) -> (
    Seq<u8>,
    Seq<Result<Option<(Seq<u8>, FrameInfo)>, ExtractError>>,
)
    decreases n,
{
    if n <= 0 {
        (Seq::empty(), Seq::empty())
    } else {
        let (waiting, out) = fed(pieces, n - 1);
        let (rest, later) = drained(waiting + pieces[n - 1]);
        (rest, out + later)
    }
}

/// The first `n` pieces as one.
pub open spec fn joined(pieces: Seq<Seq<u8>>, n: int) -> Seq<u8>
    decreases n,
{
    if n <= 0 {
        Seq::empty()
    } else {
        joined(pieces, n - 1) + pieces[n - 1]
    }
}

proof fn lemma_drained_in_two(d: Seq<u8>, more: Seq<u8>)
    ensures
        drained(d + more).1 == drained(d).1 + drained(drained(d).0 + more).1,
    decreases d.len(),
{
    let (rest, r) = next(d);
    lemma_progress(d);
    if r == Ok::<Option<(Seq<u8>, FrameInfo)>, ExtractError>(None) {
        pieces_do_not_show(d, more);
        lemma_progress(d + more);
        lemma_progress(rest + more);
        assert(drained(d + more).1 =~= drained(d).1 + drained(rest + more).1);
    } else {
        lemma_outcome_stays(d, more);
        lemma_progress(d + more);
        lemma_drained_in_two(rest, more);
        assert(drained(d + more).1 =~= drained(d).1 + drained(drained(d).0 + more).1);
    }
}

proof fn lemma_waiting_bytes_matter_alone(pieces: Seq<Seq<u8>>, n: int, more: Seq<u8>)
    ensures
        drained(joined(pieces, n) + more).1 == fed(pieces, n).1 + drained(
            fed(pieces, n).0 + more,
        ).1,
    decreases n,
{
    if n <= 0 {
        assert(drained(joined(pieces, n) + more).1 =~= fed(pieces, n).1 + drained(
            fed(pieces, n).0 + more,
        ).1);
    } else {
        let w = fed(pieces, n - 1).0;
        let piece = pieces[n - 1];
        lemma_waiting_bytes_matter_alone(pieces, n - 1, piece + more);
        lemma_drained_in_two(w + piece, more);
        assert(joined(pieces, n - 1) + (piece + more) =~= joined(pieces, n) + more);
        assert(w + (piece + more) =~= (w + piece) + more);
        assert(drained(joined(pieces, n) + more).1 =~= fed(pieces, n).1 + drained(
            fed(pieces, n).0 + more,
        ).1);
    }
}

/// A stream that arrives in pieces, drained after each, gives what it gives
/// when it arrives at once.
pub proof fn any_pieces_give_the_same_frames(pieces: Seq<Seq<u8>>, n: int)
    ensures
        fed(pieces, n).1 == drained(joined(pieces, n)).1,
    decreases n,
{
    if n > 0 {
        lemma_waiting_bytes_matter_alone(pieces, n - 1, pieces[n - 1]);
    } else {
        assert(fed(pieces, n).1 =~= drained(joined(pieces, n)).1);
    }
}

/// A frame that comes out is a run of the bytes that waited, as long as its
/// header says, with exactly the bytes behind it left waiting.
pub proof fn frames_are_runs_of_the_stream(d: Seq<u8>)
    ensures
        next(d).1 matches Ok(Some((frame, info))) ==> {
            &&& frame.len() == info.frame_size
            &&& header(frame + next(d).0) == Ok::<FrameInfo, ParseError>(info)
            &&& exists|i: int|
                0 <= i <= d.len() && #[trigger] d.subrange(i, d.len() as int) == frame + next(d).0
        },
{
    if let Ok(Some((frame, info))) = next(d).1 {
        lemma_first(d, SYNC@, 0);
        let i = first_from(d, SYNC@, 0)->0;
        let s = d.subrange(i, d.len() as int);
        assert(s =~= frame + next(d).0);
    }
}

} // verus!
