//! Splitting a source into byte ranges, and counting the words of each range.
use vstd::prelude::*;
use crate::frequency::FrequencyMap;
use crate::word_stream::{lemma_words_len, lemma_words_split, words_in, WordStream};
use vstd::utf8::encode_utf8;

verus! {

broadcast use vstd::seq_lib::group_to_multiset_ensures;

/// Ranges of `size` bytes laid end to end from `offset`, until `remaining`
/// bytes are covered; the last range takes what is left.
pub open spec fn ranges_from(offset: int, remaining: int, size: int) -> Seq<(int, int)>
    decreases remaining,
{
    if remaining <= 0 || size <= 0 {
        Seq::empty()
    } else if remaining > size {
        seq![(offset, size)] + ranges_from(offset + size, remaining - size, size)
    } else {
        seq![(offset, remaining)]
    }
}

/// The size of each range but the last: `len / parts`, rounded up.
pub open spec fn chunk_size(len: int, parts: int) -> int {
    (len + parts - 1) / parts
}

/// The ranges that a source of `len` bytes is split into for `parts` workers.
pub open spec fn planned_ranges(len: int, parts: int) -> Seq<(int, int)> {
    ranges_from(0, len, chunk_size(len, parts))
}

/// The sum of the lengths of the ranges.
pub open spec fn total_length(rs: Seq<(int, int)>) -> int
    decreases rs.len(),
{
    if rs.len() == 0 {
        0
    } else {
        rs[0].1 + total_length(rs.drop_first())
    }
}

/// The words found by scanning each of the ranges, range after range.
pub open spec fn words_of_ranges(s: Seq<u8>, seps: Seq<u8>, rs: Seq<(int, int)>) -> Seq<Seq<char>>
    decreases rs.len(),
{
    if rs.len() == 0 {
        Seq::empty()
    } else {
        words_of_ranges(s, seps, rs.drop_last()) + words_in(
            s,
            seps,
            rs.last().0,
            rs.last().0 + rs.last().1,
        )
    }
}

pub proof fn lemma_ranges_from(offset: int, remaining: int, size: int)
    requires
        remaining >= 0,
        size > 0,
    ensures
        ({
            let r = ranges_from(offset, remaining, size);
            &&& remaining > 0 <==> r.len() > 0
            &&& r.len() > 0 ==> r[0].0 == offset
            &&& r.len() > 0 ==> r.last().0 + r.last().1 == offset + remaining
            &&& forall|i: int| 0 <= i < r.len() - 1 ==> #[trigger] r[i].0 + r[i].1 == r[i + 1].0
            &&& forall|i: int| 0 <= i < r.len() ==> 0 < #[trigger] r[i].1 <= size
            &&& total_length(r) == remaining
        }),
    decreases remaining,
{
    let r = ranges_from(offset, remaining, size);
    if remaining > size {
        let t = ranges_from(offset + size, remaining - size, size);
        lemma_ranges_from(offset + size, remaining - size, size);
        assert(r.drop_first() == t);
        assert(r[0] == (offset, size));
        assert(r.last() == t.last());
        assert forall|i: int| 0 <= i < r.len() - 1 implies #[trigger] r[i].0 + r[i].1 == r[i + 1].0 by {
            if i > 0 {
                assert(r[i] == t[i - 1]);
                assert(r[i + 1] == t[i]);
            }
        }
        assert forall|i: int| 0 <= i < r.len() implies 0 < #[trigger] r[i].1 <= size by {
            if i > 0 {
                assert(r[i] == t[i - 1]);
            }
        }
    } else if remaining > 0 {
        assert(r.drop_first().len() == 0);
        assert(total_length(r.drop_first()) == 0);
    }
}

proof fn lemma_words_of_ranges_cons(s: Seq<u8>, seps: Seq<u8>, x: (int, int), rs: Seq<(int, int)>)
    ensures
        words_of_ranges(s, seps, seq![x] + rs) == words_in(s, seps, x.0, x.0 + x.1) + words_of_ranges(
            s,
            seps,
            rs,
        ),
    decreases rs.len(),
{
    let xs = seq![x] + rs;
    if rs.len() == 0 {
        let w = words_in(s, seps, x.0, x.0 + x.1);
        assert(xs.drop_last().len() == 0);
        assert(xs.last() == x);
        assert(words_of_ranges(s, seps, xs.drop_last()) == Seq::<Seq<char>>::empty());
        assert(words_of_ranges(s, seps, rs) == Seq::<Seq<char>>::empty());
        assert(Seq::<Seq<char>>::empty() + w =~= w);
        assert(w + Seq::<Seq<char>>::empty() =~= w);
    } else {
        assert(xs.drop_last() == seq![x] + rs.drop_last());
        assert(xs.last() == rs.last());
        lemma_words_of_ranges_cons(s, seps, x, rs.drop_last());
        let l = rs.last();
        assert(words_in(s, seps, x.0, x.0 + x.1) + words_of_ranges(s, seps, rs.drop_last()) + words_in(
            s,
            seps,
            l.0,
            l.0 + l.1,
        ) == words_in(s, seps, x.0, x.0 + x.1) + (words_of_ranges(s, seps, rs.drop_last()) + words_in(
            s,
            seps,
            l.0,
            l.0 + l.1,
        )));
    }
}

pub proof fn lemma_ranges_words(s: Seq<u8>, seps: Seq<u8>, offset: int, remaining: int, size: int)
    requires
        remaining >= 0,
        size > 0,
    ensures
        words_of_ranges(s, seps, ranges_from(offset, remaining, size)) == words_in(
            s,
            seps,
            offset,
            offset + remaining,
        ),
    decreases remaining,
{
    let r = ranges_from(offset, remaining, size);
    if remaining > size {
        let t = ranges_from(offset + size, remaining - size, size);
        lemma_ranges_words(s, seps, offset + size, remaining - size, size);
        lemma_words_of_ranges_cons(s, seps, (offset, size), t);
        lemma_words_split(s, seps, offset, offset + size, offset + remaining);
    } else if remaining > 0 {
        lemma_words_of_ranges_cons(s, seps, (offset, remaining), Seq::empty());
        assert(seq![(offset, remaining)] + Seq::<(int, int)>::empty() == r);
        assert(words_in(s, seps, offset, offset + remaining) + Seq::<Seq<char>>::empty() == words_in(
            s,
            seps,
            offset,
            offset + remaining,
        ));
    }
}

proof fn lemma_chunk_size_positive(len: int, parts: int)
    requires
        len >= 1,
        parts >= 1,
    ensures
        chunk_size(len, parts) >= 1,
{
    assert((len + parts - 1) / parts >= 1) by (nonlinear_arith)
        requires
            len >= 1,
            parts >= 1,
    {
        assert(len + parts - 1 >= parts);
    }
}

/// The planned ranges start at 0, follow one another without gap or overlap,
/// are none of them empty nor longer than the chunk size, and their lengths add
/// up to the length of the source.
pub proof fn lemma_plan_partition(len: int, parts: int)
    requires
        len >= 0,
        parts >= 1,
    ensures
        ({
            let r = planned_ranges(len, parts);
            &&& r.len() > 0 ==> r[0].0 == 0
            &&& r.len() > 0 ==> r.last().0 + r.last().1 == len
            &&& forall|i: int| 0 <= i < r.len() - 1 ==> #[trigger] r[i].0 + r[i].1 == r[i + 1].0
            &&& forall|i: int| 0 <= i < r.len() ==> 0 < #[trigger] r[i].1 <= chunk_size(len, parts)
            &&& total_length(r) == len
        }),
{
    if len > 0 {
        lemma_chunk_size_positive(len, parts);
        lemma_ranges_from(0, len, chunk_size(len, parts));
    }
}

/// Scanning the planned ranges one by one finds exactly the words, in order,
/// that scanning the whole source as a single range finds: none twice, none lost.
pub proof fn lemma_chunks_match_whole(s: Seq<u8>, seps: Seq<u8>, parts: int)
    requires
        parts >= 1,
    ensures
        words_of_ranges(s, seps, planned_ranges(s.len() as int, parts)) == words_in(
            s,
            seps,
            0,
            s.len() as int,
        ),
        words_of_ranges(s, seps, planned_ranges(s.len() as int, parts)) == words_of_ranges(
            s,
            seps,
            planned_ranges(s.len() as int, 1),
        ),
{
    let len = s.len() as int;
    if len > 0 {
        lemma_chunk_size_positive(len, parts);
        lemma_chunk_size_positive(len, 1);
        lemma_ranges_words(s, seps, 0, len, chunk_size(len, parts));
        lemma_ranges_words(s, seps, 0, len, chunk_size(len, 1));
    }
}

/// The tally of words is the same whatever the number of workers.
pub proof fn lemma_parallelism_invariance(s: Seq<u8>, seps: Seq<u8>, n1: int, n2: int)
    requires
        n1 >= 1,
        n2 >= 1,
    ensures
        words_of_ranges(s, seps, planned_ranges(s.len() as int, n1)).to_multiset()
            == words_of_ranges(s, seps, planned_ranges(s.len() as int, n2)).to_multiset(),
{
    lemma_chunks_match_whole(s, seps, n1);
    lemma_chunks_match_whole(s, seps, n2);
}

/// Lays byte ranges of one size end to end over a source.
pub struct ChunkGenerator {
    len: u64,
    offset: u64,
    size: u64,
}

impl ChunkGenerator {
    /// The ranges not yet handed out.
    pub closed spec fn remaining(&self) -> Seq<(int, int)> {
        ranges_from(self.offset as int, self.len as int, self.size as int)
    }

    pub closed spec fn wf(&self) -> bool {
        self.offset + self.len <= u64::MAX
    }

    pub fn new(len: u64, n: u64) -> (r: ChunkGenerator)
        requires
            n >= 1,
        ensures
            r.wf(),
            r.remaining() == planned_ranges(len as int, n as int),
    {
        let c = len / n;
        proof {
            assert(c * n <= len && c <= c * n) by (nonlinear_arith)
                requires c == len / n, n >= 1;
        }
        let size = if c * n < len { c + 1 } else { c };
        proof {
            assert(size == chunk_size(len as int, n as int)) by (nonlinear_arith)
                requires
                    c == len / n,
                    n >= 1,
                    c * n < len ==> size == c + 1,
                    c * n >= len ==> size == c,
            {
            }
        }
        ChunkGenerator { len: len, offset: 0, size: size }
    }

    /// The next range, as (offset, length), or `None` once the source is covered.
    pub fn next(&mut self) -> (r: Option<(u64, u64)>)
        requires
            old(self).wf(),
        ensures
            final(self).wf(),
            r is Some <==> old(self).remaining().len() > 0,
            r is Some ==> ((r->0).0 as int, (r->0).1 as int) == old(self).remaining()[0],
            r is Some ==> final(self).remaining() == old(self).remaining().drop_first(),
            r is None ==> final(self).remaining().len() == 0,
    {
        if self.len == 0 || self.size == 0 {
            None
        } else if self.len > self.size {
            let ret = (self.offset, self.size);
            self.offset = self.offset + self.size;
            self.len = self.len - self.size;
            Some(ret)
        } else {
            let ret = (self.offset, self.len);
            self.offset = self.offset + self.len;
            self.len = 0;
            Some(ret)
        }
    }
}

/// The ranges with their ends as mathematical integers.
pub open spec fn int_ranges(rs: Seq<(u64, u64)>) -> Seq<(int, int)> {
    rs.map_values(|p: (u64, u64)| (p.0 as int, p.1 as int))
}

/// The ranges, as (offset, length), that `parts` workers scan in a source of
/// `len` bytes.
pub fn plan_chunks(len: u64, parts: u64) -> (r: Vec<(u64, u64)>)
    requires
        parts >= 1,
    ensures
        int_ranges(r@) == planned_ranges(len as int, parts as int),
{
    let mut g = ChunkGenerator::new(len, parts);
    let mut r: Vec<(u64, u64)> = Vec::new();
    loop
        invariant
            g.wf(),
            int_ranges(r@) + g.remaining() == planned_ranges(len as int, parts as int),
        decreases g.remaining().len(),
    {
        let ghost before = g.remaining();
        match g.next() {
            Some(p) => {
                r.push(p);
                proof {
                    assert(int_ranges(r@) == int_ranges(r@.drop_last()).push((p.0 as int, p.1 as int)));
                    assert(before == seq![before[0]] + before.drop_first());
                    assert(int_ranges(r@) + g.remaining() =~= int_ranges(r@.drop_last()) + before);
                }
            },
            None => {
                proof {
                    assert(int_ranges(r@) + g.remaining() =~= int_ranges(r@));
                }
                return r;
            },
        }
    }
}

/// A word count over one source: its name, the bytes that separate words,
/// the number of workers and the size of each worker's read buffer.
pub struct WordCount {
    filename: String,
    separators: String,
    nthreads: u64,
    bufsize: usize,
}

impl WordCount {
    pub closed spec fn name(&self) -> Seq<char> {
        self.filename@
    }

    /// The separator bytes: the UTF-8 encoding of the separator string.
    pub closed spec fn seps(&self) -> Seq<u8> {
        encode_utf8(self.separators@)
    }

    pub closed spec fn workers(&self) -> nat {
        self.nthreads as nat
    }

    pub closed spec fn buffer_size(&self) -> nat {
        self.bufsize as nat
    }

    pub fn new(filename: &String, separators: &String, nthreads: u64, bufsize: usize) -> (r:
        WordCount)
        ensures
            r.name() == filename@,
            r.seps() == encode_utf8(separators@),
            r.workers() == nthreads,
            r.buffer_size() == bufsize,
    {
        WordCount {
            filename: filename.clone(),
            separators: separators.clone(),
            nthreads: nthreads,
            bufsize: bufsize,
        }
    }

    pub fn filename(&self) -> (r: &String)
        ensures
            r@ == self.name(),
    {
        &self.filename
    }

    pub fn nthreads(&self) -> (r: u64)
        ensures
            r == self.workers(),
    {
        self.nthreads
    }

    pub fn bufsize(&self) -> (r: usize)
        ensures
            r == self.buffer_size(),
    {
        self.bufsize
    }

    /// The ranges that the workers scan in a source of `len` bytes.
    pub fn plan(&self, len: u64) -> (r: Vec<(u64, u64)>)
        requires
            self.workers() >= 1,
        ensures
            int_ranges(r@) == planned_ranges(len as int, self.workers() as int),
    {
        plan_chunks(len, self.nthreads)
    }

    /// Tallies the words that begin in the range of `len` bytes from `offset` of `data`.
    pub fn count_range(&self, data: &[u8], offset: u64, len: u64) -> (r: FrequencyMap)
        requires
            self.buffer_size() > 0,
            len <= usize::MAX,
        ensures
            r.wf(),
            r.size() == words_in(data@, self.seps(), offset as int, offset + len).len(),
            forall|w: Seq<char>| #[trigger] r.count(w) == words_in(
                data@,
                self.seps(),
                offset as int,
                offset + len,
            ).to_multiset().count(w),
    {
        let seps = self.separators.as_str().as_bytes();
        let mut stream = WordStream::new(data, self.bufsize, offset, len as usize, seps);
        let ghost all = words_in(data@, self.seps(), offset as int, offset + len);
        proof {
            lemma_words_len(data@, self.seps(), offset as int, offset + len);
        }
        let n = data.len();
        let mut m = FrequencyMap::new();
        loop
            invariant
                stream.wf(),
                m.wf(),
                all == words_in(data@, self.seps(), offset as int, offset + len),
                m.size() + stream.remaining().len() == all.len(),
                all.len() <= n,
                forall|w: Seq<char>| #[trigger] m.count(w) + stream.remaining().to_multiset().count(w)
                    == all.to_multiset().count(w),
            decreases stream.remaining().len(),
        {
            let ghost rest = stream.remaining();
            let next = stream.word();
            match next {
                Some(w) => {
                    proof {
                        assert(rest.remove(0) == rest.drop_first());
                        assert(usize::MAX <= u64::MAX);
                    }
                    m.add(w, 1);
                },
                None => {
                    proof {
                        assert(stream.remaining().to_multiset() =~= vstd::multiset::Multiset::empty());
                    }
                    return m;
                },
            }
        }
    }

    /// Tallies the words of `data`, scanning the planned ranges one after
    /// another and merging their tallies.
    pub fn process_bytes(&self, data: &[u8]) -> (r: FrequencyMap)
        requires
            self.workers() >= 1,
            self.buffer_size() > 0,
        ensures
            r.wf(),
            forall|w: Seq<char>| #[trigger] r.count(w) == words_in(
                data@,
                self.seps(),
                0,
                data@.len() as int,
            ).to_multiset().count(w),
    {
        let ghost s = data@;
        let ghost seps = self.seps();
        let n = data.len();
        let ranges = self.plan(n as u64);
        let ghost rs = int_ranges(ranges@);
        proof {
            lemma_chunks_match_whole(s, seps, self.workers() as int);
            lemma_plan_partition(s.len() as int, self.workers() as int);
            lemma_words_len(s, seps, 0, s.len() as int);
        }
        let mut m = FrequencyMap::new();
        let mut i: usize = 0;
        while i < ranges.len()
            invariant
                m.wf(),
                i <= ranges.len(),
                rs == int_ranges(ranges@),
                rs == planned_ranges(s.len() as int, self.workers() as int),
                s == data@,
                s.len() == n,
                seps == self.seps(),
                self.buffer_size() > 0,
                self.workers() >= 1,
                words_of_ranges(s, seps, rs) == words_in(s, seps, 0, s.len() as int),
                words_in(s, seps, 0, s.len() as int).len() <= s.len(),
                forall|j: int| 0 <= j < rs.len() ==> 0 < #[trigger] rs[j].1 <= chunk_size(s.len() as int, self.workers() as int),
                m.size() == words_of_ranges(s, seps, rs.take(i as int)).len(),
                forall|w: Seq<char>| #[trigger] m.count(w) == words_of_ranges(s, seps, rs.take(i as int)).to_multiset().count(w),
            decreases ranges.len() - i,
        {
            let (off, len) = ranges[i];
            assert(rs[i as int] == (off as int, len as int));
            proof {
                assert(chunk_size(s.len() as int, self.workers() as int) <= s.len()) by (nonlinear_arith)
                    requires self.workers() >= 1, s.len() >= 0, chunk_size(s.len() as int, self.workers() as int) == (s.len() + self.workers() - 1) / (self.workers() as int);
            }
            let part = self.count_range(data, off, len);
            proof {
                let pre = rs.take(i as int);
                let cur = rs.take(i + 1);
                assert(cur.drop_last() == pre);
                assert(cur.last() == rs[i as int]);
                vstd::seq_lib::lemma_multiset_commutative(words_of_ranges(s, seps, pre), words_in(s, seps, off as int, off + len));
                lemma_prefix_words_len(s, seps, rs, i + 1);
            }
            m.merge(&part);
            i = i + 1;
        }
        proof {
            assert(rs.take(i as int) == rs);
        }
        m
    }
}

/// The words of a prefix of the ranges are no more than those of all of them.
proof fn lemma_prefix_words_len(s: Seq<u8>, seps: Seq<u8>, rs: Seq<(int, int)>, i: int)
    requires
        0 <= i <= rs.len(),
    ensures
        words_of_ranges(s, seps, rs.take(i)).len() <= words_of_ranges(s, seps, rs).len(),
    decreases rs.len(),
{
    if i < rs.len() {
        assert(rs.drop_last().take(i) == rs.take(i));
        lemma_prefix_words_len(s, seps, rs.drop_last(), i);
    } else {
        assert(rs.take(i) == rs);
    }
}

} // verus!
