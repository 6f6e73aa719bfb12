//! A buffered scanner over one byte range of a source, producing the words
//! that begin inside that range.
use vstd::prelude::*;
use vstd::utf8::{decode_utf8, valid_utf8};

verus! {

/// What decoding a run of bytes as UTF-8 gives: the text, or `None` where the
/// bytes are not valid UTF-8.
pub open spec fn utf8_decode(bytes: Seq<u8>) -> Option<Seq<char>> {
    if valid_utf8(bytes) {
        Some(decode_utf8(bytes))
    } else {
        None
    }
}

/// Relies on `String::from_utf8`: it succeeds exactly on valid UTF-8, and the
/// string then holds the characters that the bytes encode.
#[verifier::external_body]
fn string_from_utf8(bytes: Vec<u8>) -> (r: Option<String>)
    ensures
        r is Some <==> valid_utf8(bytes@),
        r is Some ==> r->0@ == decode_utf8(bytes@),
{
    String::from_utf8(bytes).ok()
}

pub open spec fn is_sep(seps: Seq<u8>, b: u8) -> bool {
    seps.contains(b)
}

/// A word begins at `i`: a word byte that is first in the source or follows a separator.
pub open spec fn word_start(s: Seq<u8>, seps: Seq<u8>, i: int) -> bool {
    0 <= i < s.len() && !is_sep(seps, s[i]) && (i == 0 || is_sep(seps, s[i - 1]))
}

/// The first position from `i` on that holds a separator, or the end of the source.
pub open spec fn word_end(s: Seq<u8>, seps: Seq<u8>, i: int) -> int
    decreases s.len() - i,
{
    if i < 0 || i >= s.len() || is_sep(seps, s[i]) {
        i
    } else {
        word_end(s, seps, i + 1)
    }
}

/// The first position from `i` on that holds a word byte, or the end of the source.
pub open spec fn sep_end(s: Seq<u8>, seps: Seq<u8>, i: int) -> int
    decreases s.len() - i,
{
    if i < 0 || i >= s.len() || !is_sep(seps, s[i]) {
        i
    } else {
        sep_end(s, seps, i + 1)
    }
}

/// The decoded word that begins at `i`; `None` where no word begins there or
/// where its bytes are not valid UTF-8.
pub open spec fn word_at(s: Seq<u8>, seps: Seq<u8>, i: int) -> Option<Seq<char>> {
    if word_start(s, seps, i) {
        utf8_decode(s.subrange(i, word_end(s, seps, i)))
    } else {
        None
    }
}

/// The decoded words that begin at a position in `[lo, hi)`, in order.
pub open spec fn words_in(s: Seq<u8>, seps: Seq<u8>, lo: int, hi: int) -> Seq<Seq<char>>
    decreases hi - lo,
{
    if lo >= hi {
        Seq::empty()
    } else {
        match word_at(s, seps, lo) {
            Some(w) => seq![w] + words_in(s, seps, lo + 1, hi),
            None => words_in(s, seps, lo + 1, hi),
        }
    }
}

pub proof fn lemma_word_end(s: Seq<u8>, seps: Seq<u8>, i: int)
    requires
        0 <= i <= s.len(),
    ensures
        i <= word_end(s, seps, i) <= s.len(),
        forall|j: int| i <= j < word_end(s, seps, i) ==> !is_sep(seps, #[trigger] s[j]),
        word_end(s, seps, i) < s.len() ==> is_sep(seps, s[word_end(s, seps, i)]),
    decreases s.len() - i,
{
    if i < s.len() && !is_sep(seps, s[i]) {
        lemma_word_end(s, seps, i + 1);
    }
}

pub proof fn lemma_sep_end(s: Seq<u8>, seps: Seq<u8>, i: int)
    requires
        0 <= i <= s.len(),
    ensures
        i <= sep_end(s, seps, i) <= s.len(),
        forall|j: int| i <= j < sep_end(s, seps, i) ==> is_sep(seps, #[trigger] s[j]),
        sep_end(s, seps, i) < s.len() ==> !is_sep(seps, s[sep_end(s, seps, i)]),
    decreases s.len() - i,
{
    if i < s.len() && is_sep(seps, s[i]) {
        lemma_sep_end(s, seps, i + 1);
    }
}

/// Positions where no word begins contribute nothing.
pub proof fn lemma_words_skip(s: Seq<u8>, seps: Seq<u8>, a: int, b: int, hi: int)
    requires
        a <= b,
        forall|j: int| a <= j < b ==> !#[trigger] word_start(s, seps, j),
    ensures
        words_in(s, seps, a, hi) == words_in(s, seps, b, hi),
        b >= hi ==> words_in(s, seps, a, hi).len() == 0,
    decreases b - a,
{
    if a < b {
        assert(!word_start(s, seps, a));
        lemma_words_skip(s, seps, a + 1, b, hi);
    }
}

/// The words of `[a, c)` are those of `[a, b)` followed by those of `[b, c)`.
pub proof fn lemma_words_split(s: Seq<u8>, seps: Seq<u8>, a: int, b: int, c: int)
    requires
        a <= b <= c,
    ensures
        words_in(s, seps, a, c) == words_in(s, seps, a, b) + words_in(s, seps, b, c),
    decreases b - a,
{
    if a < b {
        lemma_words_split(s, seps, a + 1, b, c);
        match word_at(s, seps, a) {
            Some(w) => {
                assert(seq![w] + words_in(s, seps, a + 1, c) == seq![w] + words_in(s, seps, a + 1, b)
                    + words_in(s, seps, b, c));
            },
            None => {},
        }
    } else {
        assert(words_in(s, seps, a, b) + words_in(s, seps, b, c) == words_in(s, seps, b, c));
    }
}

/// At most one word begins at each position of the source.
pub proof fn lemma_words_len(s: Seq<u8>, seps: Seq<u8>, lo: int, hi: int)
    requires
        0 <= lo,
    ensures
        words_in(s, seps, lo, hi).len() <= if lo < s.len() {
            s.len() - lo
        } else {
            0
        },
    decreases hi - lo,
{
    if lo < hi {
        lemma_words_len(s, seps, lo + 1, hi);
    }
}

/// A range that begins inside a word never yields that word's tail: its words
/// are those that begin after the word has ended.
pub proof fn lemma_mid_word_start(s: Seq<u8>, seps: Seq<u8>, offset: int, end: int)
    requires
        0 < offset < s.len(),
        !is_sep(seps, s[offset - 1]),
        !is_sep(seps, s[offset]),
    ensures
        words_in(s, seps, offset, end) == words_in(s, seps, word_end(s, seps, offset), end),
{
    lemma_word_end(s, seps, offset);
    assert forall|j: int| offset <= j < word_end(s, seps, offset) implies !#[trigger] word_start(
        s,
        seps,
        j,
    ) by {
        if j > offset {
            assert(!is_sep(seps, s[j - 1]));
        }
    }
    lemma_words_skip(s, seps, offset, word_end(s, seps, offset), end);
}

/// No word found is empty, not even at the end of the source.
pub proof fn lemma_words_nonempty(s: Seq<u8>, seps: Seq<u8>, lo: int, hi: int)
    ensures
        forall|k: int|
            0 <= k < words_in(s, seps, lo, hi).len() ==> #[trigger] words_in(s, seps, lo, hi)[k].len()
                > 0,
    decreases hi - lo,
{
    if lo < hi {
        lemma_words_nonempty(s, seps, lo + 1, hi);
        let rest = words_in(s, seps, lo + 1, hi);
        if word_start(s, seps, lo) {
            lemma_word_end(s, seps, lo);
            let b = s.subrange(lo, word_end(s, seps, lo));
            assert(b.len() > 0);
            if valid_utf8(b) {
                assert(decode_utf8(b).len() > 0);
            }
        }
        match word_at(s, seps, lo) {
            Some(w) => {
                let all = seq![w] + rest;
                assert forall|k: int| 0 <= k < all.len() implies #[trigger] all[k].len() > 0 by {
                    if k > 0 {
                        assert(all[k] == rest[k - 1]);
                    }
                }
            },
            None => {},
        }
    }
}

/// Reads the words that begin inside one byte range of a source, through a
/// buffer of fixed size. A word that begins inside the range is read to its end,
/// past the range if need be; a word that begins before the range is skipped.
pub struct WordStream<'a> {
    source: &'a [u8],
    fpos: usize,
    buffer: Vec<u8>,
    bufoffset: usize,
    bufsize: usize,
    read: usize,
    offset: u64,
    size: usize,
    separators: Vec<u8>,
}

impl<'a> WordStream<'a> {
    /// A stream over the range of `size` bytes from `offset` of `source`,
    /// reading through a buffer of `bufsize` bytes. A byte that is in
    /// `separators` separates words; any other byte belongs to a word.
    pub fn new(source: &'a [u8], bufsize: usize, offset: u64, size: usize, separators: &[u8]) -> (r:
        WordStream<'a>)
        requires
            bufsize > 0,
        ensures
            r.wf(),
            r.data() == source@,
            r.seps() == separators@,
            r.remaining() == words_in(source@, separators@, offset as int, offset + size),
    {
        let total = source.len();
        let start: usize = if offset == 0 {
            0
        } else if offset - 1 < total as u64 {
            (offset - 1) as usize
        } else {
            total
        };
        let mut s = WordStream {
            source: source,
            fpos: start,
            buffer: vec![0u8; bufsize],
            bufoffset: 0,
            bufsize: 0,
            read: 0,
            offset: offset,
            size: size,
            separators: vstd::slice::slice_to_vec(separators),
        };
        let ghost seps = separators@;
        let ghost end = offset + size;
        if offset != 0 {
            let c = s.getc();
            if s.is_separator(c) {
                proof {
                    if offset > total {
                        lemma_words_skip(source@, seps, offset as int, end, end);
                        lemma_words_skip(source@, seps, total as int, end, end);
                    }
                }
                return s;
            }
            proof {
                lemma_word_end(source@, seps, offset as int);
            }
            s.skip_word();
            proof {
                let e = word_end(source@, seps, offset as int);
                assert forall|j: int| offset <= j < s.pos() implies !#[trigger] word_start(
                    source@,
                    seps,
                    j,
                ) by {
                    if j < e && j > offset {
                        assert(!is_sep(seps, source@[j - 1]));
                    }
                }
                lemma_words_skip(source@, seps, offset as int, s.pos(), end);
            }
        }
        s
    }

    /// The bytes of the whole source.
    pub closed spec fn data(&self) -> Seq<u8> {
        self.source@
    }

    pub closed spec fn seps(&self) -> Seq<u8> {
        self.separators@
    }

    /// Position in the source of the next byte that `getc` delivers.
    pub closed spec fn pos(&self) -> int {
        self.fpos - self.bufsize + self.bufoffset
    }

    /// First position past the range.
    pub closed spec fn end(&self) -> int {
        self.offset + self.size
    }

    /// Everything but the read position is as in `o`.
    pub closed spec fn kept(&self, o: &Self) -> bool {
        &&& self.source == o.source
        &&& self.separators == o.separators
        &&& self.read == o.read
        &&& self.offset == o.offset
        &&& self.size == o.size
    }

    /// The buffer holds the bytes of the source just before `fpos`.
    pub closed spec fn buffered(&self) -> bool {
        &&& self.buffer.len() > 0
        &&& self.bufoffset <= self.bufsize <= self.buffer.len()
        &&& self.bufsize <= self.fpos <= self.source@.len()
        &&& forall|i: int|
            self.bufoffset <= i < self.bufsize ==> #[trigger] self.buffer@[i]
                == self.source@[self.fpos - self.bufsize + i]
    }

    /// `read` counts the bytes consumed from the start of the range on.
    pub closed spec fn counted(&self) -> bool {
        ||| self.read == self.pos() - self.offset
        ||| (self.pos() == self.source@.len() && self.pos() < self.offset)
    }

    pub closed spec fn wf(&self) -> bool {
        &&& self.buffered()
        &&& self.counted()
        &&& {
            ||| self.pos() == 0
            ||| self.pos() == self.source@.len()
            ||| is_sep(self.separators@, self.source@[self.pos() - 1])
            ||| self.pos() > self.end()
        }
    }

    /// The words that this stream has yet to produce.
    pub closed spec fn remaining(&self) -> Seq<Seq<char>> {
        words_in(self.source@, self.separators@, self.pos(), self.end())
    }

    fn refill(&mut self) -> (n: usize)
        requires
            old(self).buffered(),
            old(self).bufoffset == old(self).bufsize,
        ensures
            final(self).buffered(),
            final(self).pos() == old(self).pos(),
            final(self).bufoffset == 0,
            final(self).bufsize == n,
            n == 0 <==> old(self).pos() == old(self).source@.len(),
            final(self).kept(old(self)),
    {
        let total = self.source.len();
        let avail = total - self.fpos;
        let n = if avail < self.buffer.len() { avail } else { self.buffer.len() };
        let start = self.fpos;
        let mut i: usize = 0;
        while i < n
            invariant
                i <= n,
                n <= self.buffer.len(),
                start == self.fpos,
                start + n <= total,
                total == self.source@.len(),
                self.buffer.len() == old(self).buffer.len(),
                self.fpos == old(self).fpos,
                self.kept(old(self)),
                forall|j: int| 0 <= j < i ==> #[trigger] self.buffer@[j] == self.source@[start + j],
            decreases n - i,
        {
            let b = self.source[start + i];
            self.buffer.set(i, b);
            i = i + 1;
        }
        self.fpos = start + n;
        self.bufoffset = 0;
        self.bufsize = n;
        n
    }

    /// The next byte of the source, or `None` at its end.
    pub fn getc(&mut self) -> (r: Option<u8>)
        requires
            old(self).buffered(),
        ensures
            final(self).buffered(),
            old(self).pos() < old(self).data().len() ==> r == Some(old(self).data()[old(self).pos()])
                && final(self).pos() == old(self).pos() + 1,
            old(self).pos() >= old(self).data().len() ==> r is None && final(self).pos()
                == old(self).pos(),
            final(self).kept(old(self)),
    {
        let offset = if self.bufoffset == self.bufsize {
            if self.refill() == 0 {
                return None;
            }
            0
        } else {
            self.bufoffset
        };
        self.bufoffset = offset + 1;
        Some(self.buffer[offset])
    }

    /// The next word that begins inside the range, or `None` once there is
    /// none left. A word whose bytes are not valid UTF-8 is passed over.
    pub fn word(&mut self) -> (r: Option<String>)
        requires
            old(self).wf(),
        ensures
            final(self).wf(),
            final(self).data() == old(self).data(),
            final(self).seps() == old(self).seps(),
            r is Some <==> old(self).remaining().len() > 0,
            r is Some ==> r->0@ == old(self).remaining()[0] && final(self).remaining()
                == old(self).remaining().drop_first(),
            r is None ==> final(self).remaining().len() == 0,
    {
        let ghost s = self.source@;
        let ghost seps = self.separators@;
        let ghost end = self.end();
        loop
            invariant
                self.wf(),
                self.source == old(self).source,
                self.separators == old(self).separators,
                self.offset == old(self).offset,
                self.size == old(self).size,
                s == self.source@,
                seps == self.separators@,
                end == self.end(),
                self.remaining() == old(self).remaining(),
            decreases self.source@.len() - self.pos(),
        {
            let ghost p = self.pos();
            proof {
                lemma_sep_end(s, seps, p);
            }
            let ghost q = sep_end(s, seps, p);
            proof {
                assert forall|j: int| p <= j < q implies !#[trigger] word_start(s, seps, j) by {}
                lemma_words_skip(s, seps, p, q, end);
            }
            let c = self.skip_separator();
            if self.read > self.size || c.is_none() {
                proof {
                    if q < end {
                        assert forall|j: int| q <= j < end implies !#[trigger] word_start(s, seps, j) by {}
                        lemma_words_skip(s, seps, q, end, end);
                    }
                    if self.pos() < end {
                        assert forall|j: int| self.pos() <= j < end implies !#[trigger] word_start(s, seps, j) by {}
                        lemma_words_skip(s, seps, self.pos(), end, end);
                    }
                }
                return None;
            }
            assert(word_start(s, seps, q));
            proof {
                lemma_word_end(s, seps, q);
            }
            let ghost e = word_end(s, seps, q);
            let mut word: Vec<u8> = Vec::new();
            word.push(c.unwrap());
            loop
                invariant_except_break
                    self.pos() <= e,
                    word@ == s.subrange(q, self.pos()),
                invariant
                    self.buffered(),
                    self.counted(),
                    self.source == old(self).source,
                    self.separators == old(self).separators,
                    self.offset == old(self).offset,
                    self.size == old(self).size,
                    s == self.source@,
                    seps == self.separators@,
                    end == self.end(),
                    q < self.pos(),
                    q < end,
                    e == word_end(s, seps, q),
                    e <= s.len(),
                    forall|j: int| q <= j < e ==> !is_sep(seps, #[trigger] s[j]),
                    e < s.len() ==> is_sep(seps, s[e]),
                ensures
                    word@ == s.subrange(q, e),
                    self.pos() == if e < s.len() { e + 1 } else { s.len() as int },
                decreases s.len() - self.pos(),
            {
                let c = self.getc();
                if c.is_some() {
                    self.read = self.read + 1;
                }
                if !self.is_word(c) {
                    break;
                }
                word.push(c.unwrap());
            }
            proof {
                assert forall|j: int| q + 1 <= j < self.pos() implies !#[trigger] word_start(
                    s,
                    seps,
                    j,
                ) by {
                    if j < e {
                        assert(!is_sep(seps, s[j - 1]));
                    }
                }
                lemma_words_skip(s, seps, q + 1, self.pos(), end);
            }
            match string_from_utf8(word) {
                Some(w) => {
                    return Some(w);
                },
                None => {},
            }
        }
    }

    /// Whether `c` ends a word: a separator, or the end of the source.
    fn is_separator(&self, c: Option<u8>) -> (r: bool)
        ensures
            r == self.ends_word(c),
    {
        match c {
            Some(b) => {
                let mut i: usize = 0;
                while i < self.separators.len()
                    invariant
                        c == Some(b),
                        i <= self.separators.len(),
                        forall|j: int| 0 <= j < i ==> self.separators@[j] != b,
                    decreases self.separators.len() - i,
                {
                    if self.separators[i] == b {
                        assert(self.separators@[i as int] == b);
                        assert(self.separators@.contains(b));
                        return true;
                    }
                    i = i + 1;
                }
                false
            },
            None => true,
        }
    }

    fn is_word(&self, c: Option<u8>) -> (r: bool)
        ensures
            r == !self.ends_word(c),
    {
        !self.is_separator(c)
    }

    spec fn ends_word(&self, c: Option<u8>) -> bool {
        match c {
            Some(b) => is_sep(self.separators@, b),
            None => true,
        }
    }

    /// Consumes the rest of the word at the read position and the separator after it.
    fn skip_word(&mut self)
        requires
            old(self).buffered(),
            old(self).counted(),
        ensures
            final(self).buffered(),
            final(self).counted(),
            final(self).source == old(self).source,
            final(self).separators == old(self).separators,
            final(self).offset == old(self).offset,
            final(self).size == old(self).size,
            final(self).pos() == if word_end(old(self).source@, old(self).separators@, old(self).pos())
                < old(self).source@.len() {
                word_end(old(self).source@, old(self).separators@, old(self).pos()) + 1
            } else {
                old(self).source@.len() as int
            },
    {
        proof {
            lemma_word_end(self.source@, self.separators@, self.pos());
        }
        let ghost e = word_end(self.source@, self.separators@, self.pos());
        loop
            invariant_except_break
                old(self).pos() <= self.pos() <= e,
            invariant
                self.buffered(),
                self.counted(),
                self.source == old(self).source,
                self.separators == old(self).separators,
                self.offset == old(self).offset,
                self.size == old(self).size,
                e == word_end(self.source@, self.separators@, old(self).pos()),
                e <= self.source@.len(),
                forall|j: int| old(self).pos() <= j < e ==> !is_sep(self.separators@, #[trigger] self.source@[j]),
                e < self.source@.len() ==> is_sep(self.separators@, self.source@[e]),
            ensures
                self.pos() == if e < self.source@.len() { e + 1 } else { self.source@.len() as int },
            decreases self.source@.len() - self.pos(),
        {
            let c = self.getc();
            if c.is_some() {
                self.read = self.read + 1;
            }
            if !self.is_word(c) {
                break;
            }
        }
    }

    /// Consumes separators; gives the first word byte after them, consumed too,
    /// or `None` at the end of the source.
    fn skip_separator(&mut self) -> (r: Option<u8>)
        requires
            old(self).buffered(),
            old(self).counted(),
        ensures
            final(self).buffered(),
            final(self).counted(),
            final(self).source == old(self).source,
            final(self).separators == old(self).separators,
            final(self).offset == old(self).offset,
            final(self).size == old(self).size,
            ({
                let q = sep_end(old(self).source@, old(self).separators@, old(self).pos());
                &&& q < old(self).source@.len() ==> r == Some(old(self).source@[q]) && final(self).pos() == q + 1
                &&& q >= old(self).source@.len() ==> r is None && final(self).pos() == q
            }),
    {
        proof {
            lemma_sep_end(self.source@, self.separators@, self.pos());
        }
        let ghost q = sep_end(self.source@, self.separators@, self.pos());
        loop
            invariant
                self.buffered(),
                self.counted(),
                self.source == old(self).source,
                self.separators == old(self).separators,
                self.offset == old(self).offset,
                self.size == old(self).size,
                old(self).pos() <= self.pos() <= q,
                q == sep_end(self.source@, self.separators@, old(self).pos()),
                q <= self.source@.len(),
                forall|j: int| old(self).pos() <= j < q ==> is_sep(self.separators@, #[trigger] self.source@[j]),
                q < self.source@.len() ==> !is_sep(self.separators@, self.source@[q]),
            decreases self.source@.len() - self.pos(),
        {
            let c = self.getc();
            if c.is_none() {
                return None;
            }
            self.read = self.read + 1;
            if !self.is_separator(c) {
                return c;
            }
        }
    }
}

} // verus!
