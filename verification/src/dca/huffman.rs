//! Canonical prefix codes of the core.

use vstd::prelude::*;
use crate::bits::{bit_at, code_space, field, power_of_two, BitReader};

verus! {

/// A code word with its length in front: `2^len + code`.
pub open spec fn key_of(len: int, code: int) -> int {
    code_space(len) + code
}

/// A code book under construction: one entry per code word, and the next free
/// code as a fraction of `2^32`.
pub ghost struct Book {
    pub entries: Seq<(u32, i32)>,
    pub next: int,
}

/// The first `n` pairs of symbol and length turned into code words, in order.
/// Pairs of length 0 stand for nothing.
pub open spec fn book(pairs: Seq<[u8; 2]>, offset: int, n: int) -> Book
    decreases n,
{
    if n <= 0 {
        Book { entries: Seq::empty(), next: 0 }
    } else {
        let b = book(pairs, offset, n - 1);
        let symbol = pairs[n - 1]@[0] as int;
        let len = pairs[n - 1]@[1] as int;
        if len == 0 {
            b
        } else {
            let step = code_space(32 - len);
            Book {
                entries: b.entries.push((key_of(len, b.next / step) as u32, (symbol + offset) as i32)),
                next: (b.next + step) % 0x1_0000_0000,
            }
        }
    }
}

/// The longest length among the first `n` pairs.
pub open spec fn longest(pairs: Seq<[u8; 2]>, n: int) -> int
    decreases n,
{
    if n <= 0 {
        0
    } else {
        let rest = longest(pairs, n - 1);
        if pairs[n - 1]@[1] > rest { pairs[n - 1]@[1] as int } else { rest }
    }
}

/// The symbol of a key; of two entries with one key the later counts.
pub open spec fn lookup(entries: Seq<(u32, i32)>, key: int, n: int) -> Option<i32>
    decreases n,
{
    if n <= 0 {
        None
    } else if entries[n - 1].0 == key {
        Some(entries[n - 1].1)
    } else {
        lookup(entries, key, n - 1)
    }
}

/// What [`Vlc`] holds.
pub ghost struct VlcModel {
    pub entries: Seq<(u32, i32)>,
    pub max_len: int,
}

/// The code book of some pairs.
pub open spec fn vlc_of(pairs: Seq<[u8; 2]>, offset: int) -> VlcModel {
    VlcModel {
        entries: book(pairs, offset, pairs.len() as int).entries,
        max_len: longest(pairs, pairs.len() as int),
    }
}

/// Decode from `p` with `key` read so far and `left` bits still allowed.
pub open spec fn decode_from(v: VlcModel, d: Seq<u8>, lim: int, p: int, key: int, left: int) -> Option<
    (i32, int),
>
    decreases left,
{
    if left <= 0 || p + 1 > lim {
        None
    } else {
        let next = 2 * key + field(d, p, 1);
        match lookup(v.entries, next, v.entries.len() as int) {
            Some(symbol) => Some((symbol, p + 1)),
            None => decode_from(v, d, lim, p + 1, next, left - 1),
        }
    }
}

/// The symbol coded at `p` and the position behind it.
pub open spec fn decode(v: VlcModel, d: Seq<u8>, lim: int, p: int) -> Option<(i32, int)> {
    decode_from(v, d, lim, p, 1, v.max_len)
}

/// Lengths that a key has room for.
pub open spec fn pairs_wf(pairs: Seq<[u8; 2]>) -> bool {
    forall|i: int| 0 <= i < pairs.len() ==> (#[trigger] pairs[i])@[1] <= 30
}

/// A prefix code.
#[derive(Clone, Debug)]
pub struct Vlc {
    entries: Vec<(u32, i32)>,
    max_len: u8,
}

impl View for Vlc {
    type V = VlcModel;

    closed spec fn view(&self) -> VlcModel {
        VlcModel { entries: self.entries@, max_len: self.max_len as int }
    }
}

proof fn lemma_free_code(next: int, len: int)
    requires
        0 <= next < 0x1_0000_0000,
        1 <= len <= 30,
    ensures
        0 <= next / code_space(32 - len) < code_space(len),
        code_space(len) + next / code_space(32 - len) <= 0x7fff_ffff,
        code_space(32 - len) * code_space(len) == 0x1_0000_0000,
{
    let step = code_space(32 - len);
    let n = code_space(len);
    assert(step * n == 0x1_0000_0000) by {
        if len <= 8 {
            if len == 1 {} else if len == 2 {} else if len == 3 {} else if len == 4 {}
            else if len == 5 {} else if len == 6 {} else if len == 7 {} else {}
        } else if len <= 16 {
            if len == 9 {} else if len == 10 {} else if len == 11 {} else if len == 12 {}
            else if len == 13 {} else if len == 14 {} else if len == 15 {} else {}
        } else if len <= 24 {
            if len == 17 {} else if len == 18 {} else if len == 19 {} else if len == 20 {}
            else if len == 21 {} else if len == 22 {} else if len == 23 {} else {}
        } else {
            if len == 25 {} else if len == 26 {} else if len == 27 {} else if len == 28 {}
            else if len == 29 {} else {}
        }
    }
    assert(0 <= next / step < n) by (nonlinear_arith)
        requires
            0 <= next < step * n,
            step > 0,
    ;
}

impl Vlc {
    /// Build a code from pairs of symbol and length, the symbols moved by
    /// `offset`.
    pub fn from_lengths(pairs: &[[u8; 2]], offset: i32) -> (r: Self)
        requires
            pairs_wf(pairs@),
            -0x100_0000 <= offset <= 0x100_0000,
        ensures
            r@ == vlc_of(pairs@, offset as int),
            r@.max_len <= 30,
    {
        let mut entries: Vec<(u32, i32)> = Vec::new();
        let mut max_len: u8 = 0;
        let mut next: u64 = 0;
        let n: usize = pairs.len();
        let mut i: usize = 0;
        assert(entries@ =~= book(pairs@, offset as int, 0).entries);
        while i < n
            invariant
                n == pairs@.len(),
                i <= n,
                pairs_wf(pairs@),
                -0x100_0000 <= offset <= 0x100_0000,
                next < 0x1_0000_0000,
                max_len <= 30,
                max_len == longest(pairs@, i as int),
                book(pairs@, offset as int, i as int) == (Book {
                    entries: entries@,
                    next: next as int,
                }),
            decreases n - i,
        {
            let symbol: u8 = pairs[i][0];
            let len: u8 = pairs[i][1];
            assert(pairs@[i as int]@[1] <= 30);
            if len > max_len {
                max_len = len;
            }
            if len != 0 {
                proof {
                    lemma_free_code(next as int, len as int);
                }
                let step: u64 = power_of_two((32 - len) as u32) as u64;
                let base: u64 = power_of_two(len as u32) as u64;
                let key: u32 = (base + next / step) as u32;
                entries.push((key, symbol as i32 + offset));
                next = (next + step) % 0x1_0000_0000;
            }
            i = i + 1;
        }
        Vlc { entries, max_len }
    }

    fn find(&self, key: u32) -> (r: Option<i32>)
        ensures
            r == lookup(self@.entries, key as int, self@.entries.len() as int),
    {
        let mut n: usize = self.entries.len();
        while n > 0
            invariant
                n <= self.entries@.len(),
                lookup(self.entries@, key as int, self.entries@.len() as int) == lookup(
                    self.entries@,
                    key as int,
                    n as int,
                ),
            decreases n,
        {
            let entry: (u32, i32) = self.entries[n - 1];
            if entry.0 == key {
                return Some(entry.1);
            }
            n = n - 1;
        }
        None
    }

    /// Decode one symbol; none on the end of the data or on bits that are no
    /// code word.
    pub fn get(&self, gb: &mut BitReader<'_>) -> (r: Option<i32>)
        requires
            old(gb).wf(),
            self@.max_len <= 30,
        ensures
            final(gb).wf(),
            final(gb).same_source(old(gb)),
            old(gb).pos() <= final(gb).pos(),
            match (r, decode(self@, old(gb).data(), old(gb).limit(), old(gb).pos())) {
                (Some(v), Some((want, q))) => v == want && final(gb).pos() == q,
                (None, None) => true,
                _ => false,
            },
    {
        let ghost d = gb.data();
        let ghost lim = gb.limit();
        let ghost whole = decode(self@, d, lim, gb.pos());
        let mut key: u32 = 1;
        let mut done: u8 = 0;
        while done < self.max_len
            invariant
                gb.wf(),
                gb.same_source(old(gb)),
                old(gb).pos() <= gb.pos(),
                gb.data() == d,
                gb.limit() == lim,
                done <= self.max_len <= 30,
                1 <= key,
                key < code_space(done + 1),
                whole == decode(self@, d, lim, old(gb).pos()),
                whole == decode_from(self@, d, lim, gb.pos(), key as int, self.max_len - done),
            decreases self.max_len - done,
        {
            let bit: u32 = match gb.read_bits(1) {
                Some(b) => b,
                None => return None,
            };
            proof {
                assert(code_space(done + 2) == 2 * code_space(done + 1));
                assert(code_space(done + 1) <= 0x8000_0000);
            }
            key = 2 * key + bit;
            if let Some(symbol) = self.find(key) {
                return Some(symbol);
            }
            done = done + 1;
        }
        None
    }
}

/// Source of the core's code books.
#[derive(Clone, Debug)]
pub struct VlcSource {
    /// All pairs of symbol and length, book after book.
    pub pairs: Vec<[u8; 2]>,
    /// Books of each quantizer.
    pub groups: [u8; 10],
    /// Pairs in each book of a quantizer.
    pub sizes: [u8; 10],
    /// What is added to a quantizer's symbols.
    pub offsets: [i8; 10],
}

impl VlcSource {
    /// Pairs of the quantizers before quantizer `n`.
    pub open spec fn quant_start(&self, n: int) -> int
        decreases n,
    {
        if n <= 0 {
            0
        } else {
            self.quant_start(n - 1) + self.groups@[n - 1] * self.sizes@[n - 1]
        }
    }

    /// The pairs of all books are there.
    pub open spec fn wf(&self) -> bool {
        &&& pairs_wf(self.pairs@)
        &&& self.quant_start(10) + 5 * 12 + 5 * 129 + 4 * 4 <= self.pairs@.len()
    }
}

/// Books read one after the other: book `i` from `start + i * size` on.
pub open spec fn books_at(pairs: Seq<[u8; 2]>, start: int, size: int, offset: int, n: int) -> Seq<VlcModel> {
    Seq::new(
        n as nat,
        |i: int| vlc_of(pairs.subrange(start + i * size, start + i * size + size), offset),
    )
}

pub open spec fn vlc_views(v: Seq<Vlc>) -> Seq<VlcModel> {
    Seq::new(v.len(), |i: int| v[i]@)
}

pub open spec fn vlc_rows(v: Seq<Vec<Vlc>>) -> Seq<Seq<VlcModel>> {
    Seq::new(v.len(), |i: int| vlc_views(v[i]@))
}

/// All code books of the core.
#[derive(Clone, Debug)]
pub struct CoreVlcs {
    /// Books of each quantizer.
    pub quant_index: Vec<Vec<Vlc>>,
    pub bit_allocation: Vec<Vlc>,
    pub scale_factor: Vec<Vlc>,
    pub transition_mode: Vec<Vlc>,
}

/// [`CoreVlcs`] over sequences.
pub ghost struct CoreVlcsModel {
    pub quant_index: Seq<Seq<VlcModel>>,
    pub bit_allocation: Seq<VlcModel>,
    pub scale_factor: Seq<VlcModel>,
    pub transition_mode: Seq<VlcModel>,
}

impl View for CoreVlcs {
    type V = CoreVlcsModel;

    open spec fn view(&self) -> CoreVlcsModel {
        CoreVlcsModel {
            quant_index: vlc_rows(self.quant_index@),
            bit_allocation: vlc_views(self.bit_allocation@),
            scale_factor: vlc_views(self.scale_factor@),
            transition_mode: vlc_views(self.transition_mode@),
        }
    }
}

/// The books that a source describes: those of the quantizers, then five for
/// bit allocation, five for scale factors and four for transition modes.
pub open spec fn core_books(s: VlcSource) -> CoreVlcsModel {
    let a = s.quant_start(10);
    CoreVlcsModel {
        quant_index: Seq::new(
            10,
            |i: int|
                books_at(
                    s.pairs@,
                    s.quant_start(i),
                    s.sizes@[i] as int,
                    s.offsets@[i] as int,
                    s.groups@[i] as int,
                ),
        ),
        bit_allocation: books_at(s.pairs@, a, 12, 1, 5),
        scale_factor: books_at(s.pairs@, a + 60, 129, -64, 5),
        transition_mode: books_at(s.pairs@, a + 705, 4, 0, 4),
    }
}

/// Every book of a row can be decoded with.
pub open spec fn short_codes(v: Seq<Vlc>) -> bool {
    forall|i: int| 0 <= i < v.len() ==> (#[trigger] v[i])@.max_len <= 30
}

impl CoreVlcs {
    /// Five, five and four books, and as many for each quantizer as `groups`
    /// says.
    pub open spec fn wf(&self, groups: Seq<u8>) -> bool {
        &&& self.quant_index@.len() == 10
        &&& forall|i: int|
            0 <= i < 10 ==> (#[trigger] self.quant_index@[i])@.len() == groups[i] && short_codes(
                self.quant_index@[i]@,
            )
        &&& self.bit_allocation@.len() == 5 && short_codes(self.bit_allocation@)
        &&& self.scale_factor@.len() == 5 && short_codes(self.scale_factor@)
        &&& self.transition_mode@.len() == 4 && short_codes(self.transition_mode@)
    }

    /// Whether the books are those that the decoder needs.
    pub fn is_valid(&self, groups: &[u8; 10]) -> (r: bool)
        ensures
            r == self.wf(groups@),
    {
        if self.quant_index.len() != 10 || self.bit_allocation.len() != 5 || self.scale_factor.len()
            != 5 || self.transition_mode.len() != 4 {
            return false;
        }
        let mut i: usize = 0;
        while i < 10
            invariant
                i <= 10,
                self.quant_index@.len() == 10,
                forall|k: int|
                    0 <= k < i ==> (#[trigger] self.quant_index@[k])@.len() == groups@[k]
                        && short_codes(self.quant_index@[k]@),
            decreases 10 - i,
        {
            if self.quant_index[i].len() != groups[i] as usize || !all_short(&self.quant_index[i]) {
                assert(!((self.quant_index@[i as int])@.len() == groups@[i as int] && short_codes(
                    self.quant_index@[i as int]@,
                )));
                return false;
            }
            i = i + 1;
        }
        all_short(&self.bit_allocation) && all_short(&self.scale_factor) && all_short(
            &self.transition_mode,
        )
    }
}

fn all_short(v: &Vec<Vlc>) -> (r: bool)
    ensures
        r == short_codes(v@),
{
    let n: usize = v.len();
    let mut i: usize = 0;
    while i < n
        invariant
            i <= n,
            n == v@.len(),
            forall|k: int| 0 <= k < i ==> (#[trigger] v@[k])@.max_len <= 30,
        decreases n - i,
    {
        if v[i].max_len > 30 {
            assert(v@[i as int]@.max_len > 30);
            return false;
        }
        i = i + 1;
    }
    true
}

fn take_books(pairs: &Vec<[u8; 2]>, start: usize, size: usize, offset: i32, n: usize) -> (r: Vec<Vlc>)
    requires
        pairs_wf(pairs@),
        -0x100_0000 <= offset <= 0x100_0000,
        start + n * size <= pairs@.len(),
    ensures
        vlc_views(r@) == books_at(pairs@, start as int, size as int, offset as int, n as int),
        r@.len() == n,
        short_codes(r@),
{
    let total: usize = pairs.len();
    let mut r: Vec<Vlc> = Vec::new();
    let mut at: usize = start;
    assert(0 * size == 0) by (nonlinear_arith);
    while r.len() < n
        invariant
            total == pairs@.len(),
            pairs_wf(pairs@),
            -0x100_0000 <= offset <= 0x100_0000,
            start + n * size <= total,
            r@.len() <= n,
            at == start + r@.len() * size,
            short_codes(r@),
            forall|i: int|
                0 <= i < r@.len() ==> (#[trigger] r@[i])@ == vlc_of(
                    pairs@.subrange(start + i * size, start + i * size + size),
                    offset as int,
                ),
        decreases n - r.len(),
    {
        let ghost k = r@.len() as int;
        proof {
            assert((k + 1) * size == k * size + size) by (nonlinear_arith);
            assert((k + 1) * size <= n * size) by (nonlinear_arith)
                requires
                    k + 1 <= n,
                    size >= 0,
            ;
        }
        let part: &[[u8; 2]] = vstd::slice::slice_subrange(pairs.as_slice(), at, at + size);
        proof {
            assert forall|i: int| 0 <= i < part@.len() implies (#[trigger] part@[i])@[1] <= 30 by {
                assert(part@[i] == pairs@[at + i]);
            }
        }
        let vlc: Vlc = Vlc::from_lengths(part, offset);
        r.push(vlc);
        at = at + size;
    }
    assert(vlc_views(r@) =~= books_at(
        pairs@,
        start as int,
        size as int,
        offset as int,
        n as int,
    ));
    r
}

proof fn lemma_quant_start(s: VlcSource, i: int, n: int)
    requires
        0 <= i <= n,
    ensures
        0 <= s.quant_start(i) <= s.quant_start(n),
    decreases n,
{
    if i < n {
        lemma_quant_start(s, i, n - 1);
        assert(s.groups@[n - 1] * s.sizes@[n - 1] >= 0) by (nonlinear_arith);
    } else if n > 0 {
        lemma_quant_start(s, i - 1, n - 1);
        assert(s.groups@[n - 1] * s.sizes@[n - 1] >= 0) by (nonlinear_arith);
    }
}

impl CoreVlcs {
    /// Build every book of the core.
    pub fn build(source: &VlcSource) -> (r: Self)
        requires
            source.wf(),
        ensures
            r@ == core_books(*source),
            r.wf(source.groups@),
    {
        let total: usize = source.pairs.len();
        let mut quant_index: Vec<Vec<Vlc>> = Vec::new();
        let mut pos: usize = 0;
        while quant_index.len() < 10
            invariant
                total == source.pairs@.len(),
                source.wf(),
                quant_index@.len() <= 10,
                pos == source.quant_start(quant_index@.len() as int),
                pos <= total,
                forall|i: int|
                    0 <= i < quant_index@.len() ==> {
                        &&& (#[trigger] quant_index@[i])@.len() == source.groups@[i]
                        &&& short_codes(quant_index@[i]@)
                        &&& vlc_views(quant_index@[i]@) == core_books(*source).quant_index[i]
                    },
            decreases 10 - quant_index.len(),
        {
            let i: usize = quant_index.len();
            proof {
                lemma_quant_start(*source, i + 1, 10);
                assert(source.groups@[i as int] * source.sizes@[i as int] <= 255 * 255)
                    by (nonlinear_arith)
                    requires
                        source.groups@[i as int] <= 255,
                        source.sizes@[i as int] <= 255,
                ;
            }
            let groups: usize = source.groups[i] as usize;
            let size: usize = source.sizes[i] as usize;
            let row: Vec<Vlc> = take_books(
                &source.pairs,
                pos,
                size,
                source.offsets[i] as i32,
                groups,
            );
            pos = pos + groups * size;
            quant_index.push(row);
        }
        assert(vlc_rows(quant_index@) =~= core_books(*source).quant_index);
        let bit_allocation: Vec<Vlc> = take_books(&source.pairs, pos, 12, 1, 5);
        let scale_factor: Vec<Vlc> = take_books(&source.pairs, pos + 60, 129, -64, 5);
        let transition_mode: Vec<Vlc> = take_books(&source.pairs, pos + 705, 4, 0, 4);
        CoreVlcs { quant_index, bit_allocation, scale_factor, transition_mode }
    }
}

/// Room that the first `k` code words take, as a fraction of `2^32`.
pub open spec fn taken(pairs: Seq<[u8; 2]>, k: int) -> int
    decreases k,
{
    if k <= 0 {
        0
    } else {
        taken(pairs, k - 1) + if pairs[k - 1]@[1] == 0 { 0 } else { code_space(32 - pairs[k - 1]@[1]) }
    }
}

/// The lengths are those of a prefix code, listed in the order of the code
/// words: there is room for all, and each starts where its length lets it.
pub open spec fn canonical(pairs: Seq<[u8; 2]>) -> bool {
    &&& pairs_wf(pairs)
    &&& taken(pairs, pairs.len() as int) <= 0x1_0000_0000
    &&& forall|k: int|
        0 <= k < pairs.len() && #[trigger] pairs[k]@[1] != 0 ==> taken(pairs, k) % code_space(
            32 - pairs[k]@[1],
        ) == 0
}

/// The code word of pair `k`.
pub open spec fn code_word(pairs: Seq<[u8; 2]>, k: int) -> int {
    taken(pairs, k) / code_space(32 - pairs[k]@[1])
}

proof fn lemma_space_product(a: int, b: int)
    requires
        0 <= a,
        0 <= b,
        a + b <= 32,
    ensures
        code_space(a) * code_space(b) == code_space(a + b),
    decreases b,
{
    if b > 0 {
        lemma_space_product(a, b - 1);
        let x = code_space(a);
        let y = code_space(b - 1);
        assert(code_space(b) == 2 * y);
        assert(code_space(a + b) == 2 * code_space(a + b - 1));
        assert(x * (2 * y) == 2 * (x * y)) by (nonlinear_arith);
    }
}

proof fn lemma_space_grows(a: int, b: int)
    requires
        0 <= a < b <= 32,
    ensures
        2 * code_space(a) <= code_space(b),
    decreases b - a,
{
    assert(code_space(b) == 2 * code_space(b - 1));
    if a < b - 1 {
        lemma_space_grows(a, b - 1);
    }
}

proof fn lemma_taken_grows(pairs: Seq<[u8; 2]>, i: int, k: int)
    requires
        0 <= i <= k <= pairs.len(),
    ensures
        taken(pairs, i) <= taken(pairs, k),
        i < k && pairs[i]@[1] != 0 ==> taken(pairs, i) + code_space(32 - pairs[i]@[1]) <= taken(
            pairs,
            k,
        ),
    decreases k - i,
{
    if i < k {
        lemma_taken_grows(pairs, i, k - 1);
    }
}

proof fn lemma_wrapped(x: int, step: int)
    requires
        0 <= x,
        0 < step,
        x + step < 0x1_0000_0000,
    ensures
        (x + step) % 0x1_0000_0000 == x + step,
{
}

/// No room is given out twice, so nothing wraps.
proof fn lemma_book_next(pairs: Seq<[u8; 2]>, offset: int, k: int)
    requires
        taken(pairs, pairs.len() as int) <= 0x1_0000_0000,
        0 <= k <= pairs.len(),
    ensures
        taken(pairs, k) < 0x1_0000_0000 ==> book(pairs, offset, k).next == taken(pairs, k),
        0 <= taken(pairs, k) <= 0x1_0000_0000,
    decreases k,
{
    lemma_taken_grows(pairs, k, pairs.len() as int);
    lemma_taken_grows(pairs, 0, k);
    if k > 0 {
        lemma_book_next(pairs, offset, k - 1);
        let len = pairs[k - 1]@[1] as int;
        if len != 0 {
            let step = code_space(32 - len);
            assert(step > 0);
            assert(taken(pairs, k) == taken(pairs, k - 1) + step);
            if taken(pairs, k) < 0x1_0000_0000 {
                lemma_wrapped(taken(pairs, k - 1), step);
                assert(book(pairs, offset, k).next == (book(pairs, offset, k - 1).next + step)
                    % 0x1_0000_0000);
            }
        } else {
            assert(taken(pairs, k) == taken(pairs, k - 1));
            assert(book(pairs, offset, k) == book(pairs, offset, k - 1));
        }
    }
}

/// The entry of pair `k`.
proof fn lemma_book_entry(pairs: Seq<[u8; 2]>, offset: int, k: int)
    requires
        canonical(pairs),
        0 <= k < pairs.len(),
        pairs[k]@[1] != 0,
    ensures
        book(pairs, offset, k + 1).entries == book(pairs, offset, k).entries.push(
            (
                key_of(pairs[k]@[1] as int, code_word(pairs, k)) as u32,
                (pairs[k]@[0] + offset) as i32,
            ),
        ),
        0 <= code_word(pairs, k) < code_space(pairs[k]@[1] as int),
        key_of(pairs[k]@[1] as int, code_word(pairs, k)) <= 0x7fff_ffff,
        taken(pairs, k) == code_word(pairs, k) * code_space(32 - pairs[k]@[1]),
{
    let len = pairs[k]@[1] as int;
    let step = code_space(32 - len);
    assert(pairs[k]@[1] <= 30);
    lemma_book_next(pairs, offset, k);
    lemma_book_next(pairs, offset, k + 1);
    assert(taken(pairs, k + 1) == taken(pairs, k) + step);
    assert(step > 0);
    lemma_free_code(taken(pairs, k), len);
    let x = taken(pairs, k);
    assert(x == (x / step) * step) by (nonlinear_arith)
        requires
            x % step == 0,
            step > 0,
    ;
}

/// The first `j` bits of a field bound it.
proof fn lemma_field_prefix(d: Seq<u8>, p: int, j: int, n: int)
    requires
        0 <= j <= n <= 32,
    ensures
        field(d, p, j) * code_space(n - j) <= field(d, p, n) < (field(d, p, j) + 1) * code_space(
            n - j,
        ),
    decreases n - j,
{
    if j < n {
        lemma_field_prefix(d, p, j, n - 1);
        crate::bits::lemma_bit_range(d, p + n - 1);
        let f = field(d, p, j);
        let c = code_space(n - 1 - j);
        assert(code_space(n - j) == 2 * c);
        assert(f * (2 * c) == 2 * (f * c)) by (nonlinear_arith);
        assert((f + 1) * (2 * c) == 2 * ((f + 1) * c)) by (nonlinear_arith);
    }
}

/// Where the bits of code word `k` stand, their first `j` are the code word of
/// pair `i` only if they are all of them and the pairs are the same.
proof fn lemma_no_clash(pairs: Seq<[u8; 2]>, d: Seq<u8>, p: int, i: int, k: int, j: int)
    requires
        canonical(pairs),
        0 <= i < pairs.len(),
        0 <= k < pairs.len(),
        pairs[i]@[1] != 0,
        pairs[k]@[1] != 0,
        1 <= j <= pairs[k]@[1],
        field(d, p, pairs[k]@[1] as int) == code_word(pairs, k),
        key_of(pairs[i]@[1] as int, code_word(pairs, i)) == key_of(j, field(d, p, j)),
    ensures
        i == k,
        j == pairs[k]@[1],
{
    let a = pairs[i]@[1] as int;
    let b = pairs[k]@[1] as int;
    assert(pairs[i]@[1] <= 30 && pairs[k]@[1] <= 30);
    lemma_book_entry(pairs, 0, i);
    lemma_book_entry(pairs, 0, k);
    crate::bits::lemma_field_range(d, p, j);
    if a < j {
        lemma_space_grows(a, j);
    } else if j < a {
        lemma_space_grows(j, a);
    }
    assert(a == j);
    lemma_field_prefix(d, p, j, b);
    let f = field(d, p, j);
    let c = code_word(pairs, k);
    let wide = code_space(32 - a);
    let narrow = code_space(32 - b);
    let ratio = code_space(b - j);
    lemma_space_product(b - j, 32 - b);
    assert(wide == ratio * narrow);
    assert(f * wide <= c * narrow < (f + 1) * wide) by (nonlinear_arith)
        requires
            wide == ratio * narrow,
            f * ratio <= c,
            c < (f + 1) * ratio,
            narrow > 0,
    ;
    assert((f + 1) * wide == f * wide + wide) by (nonlinear_arith);
    if i < k {
        lemma_taken_grows(pairs, i, k);
    } else if k < i {
        lemma_taken_grows(pairs, k, i);
    }
}

proof fn lemma_lookup_prefix(v: Seq<(u32, i32)>, x: (u32, i32), key: int, n: int)
    requires
        0 <= n <= v.len(),
    ensures
        lookup(v.push(x), key, n) == lookup(v, key, n),
    decreases n,
{
    if n > 0 {
        lemma_lookup_prefix(v, x, key, n - 1);
    }
}

/// Among the first `n` pairs, the first `j` bits of code word `k` name pair
/// `k` if they are all of its bits, and else none.
proof fn lemma_looked_up(pairs: Seq<[u8; 2]>, offset: int, d: Seq<u8>, p: int, k: int, j: int, n: int)
    requires
        canonical(pairs),
        0 <= k < pairs.len(),
        pairs[k]@[1] != 0,
        1 <= j <= pairs[k]@[1],
        field(d, p, pairs[k]@[1] as int) == code_word(pairs, k),
        0 <= n <= pairs.len(),
    ensures
        lookup(
            book(pairs, offset, n).entries,
            key_of(j, field(d, p, j)),
            book(pairs, offset, n).entries.len() as int,
        ) == if k < n && j == pairs[k]@[1] {
            Some((pairs[k]@[0] + offset) as i32)
        } else {
            None
        },
    decreases n,
{
    let key = key_of(j, field(d, p, j));
    if n > 0 {
        lemma_looked_up(pairs, offset, d, p, k, j, n - 1);
        if pairs[n - 1]@[1] != 0 {
            let before = book(pairs, offset, n - 1).entries;
            lemma_book_entry(pairs, offset, n - 1);
            let own = key_of(pairs[n - 1]@[1] as int, code_word(pairs, n - 1));
            if own == key {
                lemma_no_clash(pairs, d, p, n - 1, k, j);
            } else {
                let x = (own as u32, (pairs[n - 1]@[0] + offset) as i32);
                lemma_lookup_prefix(before, x, key, before.len() as int);
                if k == n - 1 && j == pairs[k]@[1] {
                    assert(own == key);
                }
            }
        }
    }
}

proof fn lemma_longest(pairs: Seq<[u8; 2]>, k: int, n: int)
    requires
        0 <= k < n <= pairs.len(),
    ensures
        pairs[k]@[1] <= longest(pairs, n),
    decreases n,
{
    if k < n - 1 {
        lemma_longest(pairs, k, n - 1);
    }
}

proof fn lemma_decode_word(pairs: Seq<[u8; 2]>, offset: int, d: Seq<u8>, lim: int, p: int, k: int, j: int)
    requires
        canonical(pairs),
        0 <= k < pairs.len(),
        pairs[k]@[1] != 0,
        0 <= j < pairs[k]@[1],
        p + pairs[k]@[1] <= lim,
        field(d, p, pairs[k]@[1] as int) == code_word(pairs, k),
    ensures
        decode_from(
            vlc_of(pairs, offset),
            d,
            lim,
            p + j,
            key_of(j, field(d, p, j)),
            longest(pairs, pairs.len() as int) - j,
        ) == Some(((pairs[k]@[0] + offset) as i32, p + pairs[k]@[1])),
    decreases pairs[k]@[1] - j,
{
    lemma_longest(pairs, k, pairs.len() as int);
    lemma_looked_up(pairs, offset, d, p, k, j + 1, pairs.len() as int);
    assert(pairs[k]@[1] <= 30);
    assert(code_space(j + 1) == 2 * code_space(j));
    assert(field(d, p + j, 0) == 0);
    assert(field(d, p + j, 1) == bit_at(d, p + j));
    assert(key_of(j + 1, field(d, p, j + 1)) == 2 * key_of(j, field(d, p, j)) + field(d, p + j, 1));
    if j + 1 < pairs[k]@[1] {
        lemma_decode_word(pairs, offset, d, lim, p, k, j + 1);
    }
}

/// Every code word of a canonical book decodes to its symbol, and to the end
/// of its bits.
pub proof fn code_words_decode_to_their_symbols(
    pairs: Seq<[u8; 2]>,
    offset: int,
    d: Seq<u8>,
    lim: int,
    p: int,
    k: int,
)
    requires
        canonical(pairs),
        0 <= k < pairs.len(),
        pairs[k]@[1] != 0,
        p + pairs[k]@[1] <= lim,
        field(d, p, pairs[k]@[1] as int) == code_word(pairs, k),
    ensures
        decode(vlc_of(pairs, offset), d, lim, p) == Some(
            ((pairs[k]@[0] + offset) as i32, p + pairs[k]@[1]),
        ),
{
    lemma_decode_word(pairs, offset, d, lim, p, k, 0);
}

} // verus!
