//! A tally of words: how many times each word occurred.
use vstd::prelude::*;

verus! {

/// How many occurrences of `w` the entries record.
pub open spec fn count_in(es: Seq<(String, u64)>, w: Seq<char>) -> nat
    decreases es.len(),
{
    if es.len() == 0 {
        0
    } else {
        count_in(es.drop_last(), w) + if es.last().0@ == w {
            es.last().1 as nat
        } else {
            0
        }
    }
}

/// How many occurrences of all words the entries record.
pub open spec fn total_in(es: Seq<(String, u64)>) -> nat
    decreases es.len(),
{
    if es.len() == 0 {
        0
    } else {
        total_in(es.drop_last()) + es.last().1 as nat
    }
}

/// No word has two entries, and every entry counts at least one occurrence.
pub open spec fn entries_wf(es: Seq<(String, u64)>) -> bool {
    &&& forall|i: int, j: int| 0 <= i < j < es.len() ==> es[i].0@ != es[j].0@
    &&& forall|i: int| 0 <= i < es.len() ==> #[trigger] es[i].1 > 0
}

proof fn lemma_count_le_total(es: Seq<(String, u64)>, w: Seq<char>)
    ensures
        count_in(es, w) <= total_in(es),
    decreases es.len(),
{
    if es.len() > 0 {
        lemma_count_le_total(es.drop_last(), w);
    }
}

proof fn lemma_count_absent(es: Seq<(String, u64)>, w: Seq<char>)
    requires
        forall|i: int| 0 <= i < es.len() ==> #[trigger] es[i].0@ != w,
    ensures
        count_in(es, w) == 0,
    decreases es.len(),
{
    if es.len() > 0 {
        assert(es.last().0@ != w);
        lemma_count_absent(es.drop_last(), w);
    }
}

proof fn lemma_count_present(es: Seq<(String, u64)>, i: int)
    requires
        entries_wf(es),
        0 <= i < es.len(),
    ensures
        count_in(es, es[i].0@) == es[i].1,
    decreases es.len(),
{
    let k = es[i].0@;
    if i == es.len() - 1 {
        assert forall|j: int| 0 <= j < es.drop_last().len() implies #[trigger] es.drop_last()[j].0@
            != k by {
            assert(es[j].0@ != es[i].0@);
        }
        lemma_count_absent(es.drop_last(), k);
    } else {
        assert(es.last().0@ != k);
        lemma_count_present(es.drop_last(), i);
    }
}

proof fn lemma_count_update(es: Seq<(String, u64)>, i: int, v: u64)
    requires
        0 <= i < es.len(),
        v >= es[i].1,
    ensures
        forall|w: Seq<char>|
            #[trigger] count_in(es.update(i, (es[i].0, v)), w) == count_in(es, w) + if es[i].0@
                == w {
                v - es[i].1
            } else {
                0
            },
        total_in(es.update(i, (es[i].0, v))) == total_in(es) + v - es[i].1,
    decreases es.len(),
{
    let es2 = es.update(i, (es[i].0, v));
    if i < es.len() - 1 {
        lemma_count_update(es.drop_last(), i, v);
        assert(es2.drop_last() == es.drop_last().update(i, (es[i].0, v)));
    } else {
        assert(es2.drop_last() == es.drop_last());
    }
    assert forall|w: Seq<char>|
        #[trigger] count_in(es2, w) == count_in(es, w) + if es[i].0@ == w {
            v - es[i].1
        } else {
            0
        } by {
        if i < es.len() - 1 {
            assert(count_in(es2.drop_last(), w) == count_in(es.drop_last().update(i, (es[i].0, v)), w));
        }
    }
}

proof fn lemma_total_take(es: Seq<(String, u64)>, i: int)
    requires
        0 <= i <= es.len(),
    ensures
        total_in(es.take(i)) <= total_in(es),
    decreases es.len(),
{
    if i < es.len() {
        assert(es.drop_last().take(i) == es.take(i));
        lemma_total_take(es.drop_last(), i);
    } else {
        assert(es.take(i) == es);
    }
}

/// A tally of words. Its view is the number of occurrences of each word.
pub struct FrequencyMap {
    entries: Vec<(String, u64)>,
    total: u64,
}

impl FrequencyMap {
    /// How many times `w` occurred.
    pub closed spec fn count(&self, w: Seq<char>) -> nat {
        count_in(self.entries@, w)
    }

    /// How many words occurred in all.
    pub closed spec fn size(&self) -> nat {
        total_in(self.entries@)
    }

    pub closed spec fn wf(&self) -> bool {
        &&& entries_wf(self.entries@)
        &&& self.total == total_in(self.entries@)
    }

    /// An empty tally.
    pub fn new() -> (r: FrequencyMap)
        ensures
            r.wf(),
            r.size() == 0,
            forall|w: Seq<char>| #[trigger] r.count(w) == 0,
    {
        FrequencyMap { entries: Vec::new(), total: 0 }
    }

    /// Records `c` more occurrences of `w`.
    pub fn add(&mut self, w: String, c: u64)
        requires
            old(self).wf(),
            old(self).size() + c <= u64::MAX,
        ensures
            final(self).wf(),
            final(self).size() == old(self).size() + c,
            forall|x: Seq<char>| #[trigger] final(self).count(x) == old(self).count(x) + if x
                == w@ {
                c as nat
            } else {
                0
            },
    {
        if c == 0 {
            return;
        }
        let mut i: usize = 0;
        while i < self.entries.len()
            invariant
                self.wf(),
                self.entries@ == old(self).entries@,
                self.total == old(self).total,
                old(self).size() + c <= u64::MAX,
                i <= self.entries.len(),
                forall|j: int| 0 <= j < i ==> #[trigger] self.entries@[j].0@ != w@,
            decreases self.entries.len() - i,
        {
            if self.entries[i].0 == w {
                let ghost es = self.entries@;
                proof {
                    lemma_count_present(es, i as int);
                    lemma_count_le_total(es, w@);
                }
                let v = self.entries[i].1 + c;
                let k = self.entries[i].0.clone();
                self.entries.set(i, (k, v));
                proof {
                    lemma_count_update(es, i as int, v);
                    assert(self.entries@ == es.update(i as int, (es[i as int].0, v)));
                }
                self.total = self.total + c;
                return;
            }
            i = i + 1;
        }
        let ghost es = self.entries@;
        proof {
            lemma_count_absent(es, w@);
        }
        self.entries.push((w, c));
        proof {
            assert(self.entries@.drop_last() == es);
        }
        self.total = self.total + c;
    }

    /// How many times `w` occurred.
    pub fn get(&self, w: &String) -> (r: u64)
        requires
            self.wf(),
        ensures
            r == self.count(w@),
    {
        let mut i: usize = 0;
        while i < self.entries.len()
            invariant
                self.wf(),
                i <= self.entries.len(),
                forall|j: int| 0 <= j < i ==> #[trigger] self.entries@[j].0@ != w@,
            decreases self.entries.len() - i,
        {
            if self.entries[i].0.eq(w) {
                proof {
                    lemma_count_present(self.entries@, i as int);
                }
                return self.entries[i].1;
            }
            i = i + 1;
        }
        proof {
            lemma_count_absent(self.entries@, w@);
        }
        0
    }

    /// Adds the occurrences that `other` records to this tally.
    pub fn merge(&mut self, other: &FrequencyMap)
        requires
            old(self).wf(),
            other.wf(),
            old(self).size() + other.size() <= u64::MAX,
        ensures
            final(self).wf(),
            final(self).size() == old(self).size() + other.size(),
            forall|x: Seq<char>| #[trigger] final(self).count(x) == old(self).count(x) + other.count(x),
    {
        let ghost os = other.entries@;
        let mut i: usize = 0;
        while i < other.entries.len()
            invariant
                self.wf(),
                other.wf(),
                os == other.entries@,
                i <= os.len(),
                old(self).size() + total_in(os) <= u64::MAX,
                self.size() == old(self).size() + total_in(os.take(i as int)),
                forall|x: Seq<char>| #[trigger] self.count(x) == old(self).count(x) + count_in(os.take(i as int), x),
            decreases os.len() - i,
        {
            proof {
                assert(os.take(i + 1).drop_last() == os.take(i as int));
                lemma_total_take(os, i + 1);
            }
            let k = other.entries[i].0.clone();
            self.add(k, other.entries[i].1);
            i = i + 1;
        }
        proof {
            assert(os.take(i as int) == os);
        }
    }

    /// The words of the tally, each once, with the number of its occurrences.
    pub fn into_entries(self) -> (r: Vec<(String, u64)>)
        requires
            self.wf(),
        ensures
            forall|i: int, j: int| 0 <= i < j < r.len() ==> r[i].0@ != r[j].0@,
            forall|i: int| 0 <= i < r.len() ==> #[trigger] r[i].1 > 0 && r[i].1 == self.count(r[i].0@),
            forall|w: Seq<char>| #[trigger] self.count(w) > 0 ==> exists|i: int| 0 <= i < r.len() && r[i].0@ == w,
    {
        let ghost es = self.entries@;
        proof {
            assert forall|i: int| 0 <= i < es.len() implies #[trigger] es[i].1 > 0 && es[i].1 == count_in(es, es[i].0@) by {
                lemma_count_present(es, i);
            }
            assert forall|w: Seq<char>| #[trigger] count_in(es, w) > 0 implies exists|i: int| 0 <= i < es.len() && es[i].0@ == w by {
                if !exists|i: int| 0 <= i < es.len() && es[i].0@ == w {
                    lemma_count_absent(es, w);
                }
            }
        }
        self.entries
    }

    /// How many words occurred in all.
    pub fn total(&self) -> (r: u64)
        requires
            self.wf(),
        ensures
            r == self.size(),
    {
        self.total
    }
}

} // verus!
