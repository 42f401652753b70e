//! Counting how often each synonym was found.
pub mod count_map;

use vstd::prelude::*;

use crate::synonym::QueryResponse;
use crate::text::string_views;
use count_map::{counted, entry_views, fits_counted, fits_sum, lists_exactly, sum_counts, CountMap};

verus! {

/// The counts of `s` never grow from one entry to the next.
pub open spec fn sorted_by_count(s: Seq<(Seq<char>, int)>) -> bool {
    forall|i: int, j: int| 0 <= i < j < s.len() ==> s[i].1 >= s[j].1
}

/// Where an entry at position `p` of `a.push(b[idx]) + b.remove(idx)` was
/// in `a + b`.
spec fn moved_from(alen: int, idx: int, p: int) -> int {
    if p < alen {
        p
    } else if p == alen {
        alen + idx
    } else if p - alen - 1 < idx {
        p - 1
    } else {
        p
    }
}

/// Where an entry at position `i` of `a + b` goes in
/// `a.push(b[idx]) + b.remove(idx)`.
spec fn moved_to(alen: int, idx: int, i: int) -> int {
    if i < alen {
        i
    } else if i == alen + idx {
        alen
    } else if i < alen + idx {
        i + 1
    } else {
        i
    }
}

/// Moving one entry from the second list to the end of the first keeps the
/// entries that both lists together give.
proof fn lemma_move_entry(
    a: Seq<(Seq<char>, int)>,
    b: Seq<(Seq<char>, int)>,
    idx: int,
    m: Map<Seq<char>, int>,
)
    requires
        lists_exactly(a + b, m),
        0 <= idx < b.len(),
    ensures
        lists_exactly(a.push(b[idx]) + b.remove(idx), m),
{
    let c = a + b;
    let d = a.push(b[idx]) + b.remove(idx);
    let alen = a.len() as int;
    assert(d.len() == c.len());
    assert forall|p: int| 0 <= p < d.len() implies d[p] == c[moved_from(alen, idx, p)]
        && 0 <= moved_from(alen, idx, p) < c.len() by {}
    assert forall|i: int| 0 <= i < c.len() implies c[i] == d[moved_to(alen, idx, i)]
        && 0 <= moved_to(alen, idx, i) < d.len() by {}
    assert forall|p: int, q: int| 0 <= p < q < d.len() implies d[p].0 != d[q].0 by {
        let fp = moved_from(alen, idx, p);
        let fq = moved_from(alen, idx, q);
        assert(d[p] == c[fp]);
        assert(d[q] == c[fq]);
        assert(fp != fq);
        if fp < fq {
            assert(c[fp].0 != c[fq].0);
        } else {
            assert(c[fq].0 != c[fp].0);
        }
    }
    assert forall|p: int| 0 <= p < d.len() implies m.dom().contains(#[trigger] d[p].0)
        && m[d[p].0] == d[p].1 by {
        assert(d[p] == c[moved_from(alen, idx, p)]);
    }
    assert forall|k: Seq<char>| m.dom().contains(k) implies exists|p: int|
        0 <= p < d.len() && #[trigger] d[p].0 == k by {
        let i = choose|i: int| 0 <= i < c.len() && #[trigger] c[i].0 == k;
        assert(d[moved_to(alen, idx, i)].0 == k);
    }
}

/// The synonyms found for one word, with how many times each was found.
#[derive(Clone, Debug)]
pub struct Counter {
    word: String,
    count: CountMap,
}

impl View for Counter {
    type V = (Seq<char>, Map<Seq<char>, int>);

    closed spec fn view(&self) -> (Seq<char>, Map<Seq<char>, int>) {
        (self.word@, self.count@)
    }
}

impl Counter {
    /// A counter with no word and nothing counted.
    pub fn new() -> (c: Counter)
        ensures
            c@.0 == Seq::<char>::empty(),
            c@.1 == Map::<Seq<char>, int>::empty(),
    {
        Counter { word: String::new(), count: CountMap::new() }
    }

    /// A counter for the synonyms of `word`, with nothing counted yet.
    pub fn with_word(word: String) -> (c: Counter)
        ensures
            c@.0 == word@,
            c@.1 == Map::<Seq<char>, int>::empty(),
    {
        Counter { word, count: CountMap::new() }
    }

    /// The word whose synonyms are counted.
    pub fn word(&self) -> (w: &String)
        ensures
            w@ == self@.0,
    {
        &self.word
    }

    /// The counts so far.
    pub fn counts(&self) -> (m: &CountMap)
        ensures
            m@ == self@.1,
    {
        &self.count
    }

    /// Counts each of `words` once more, and returns all the counts.
    pub fn count(&mut self, words: &[String]) -> (all: CountMap)
        requires
            fits_counted(old(self)@.1, string_views(words@)),
        ensures
            final(self)@.0 == old(self)@.0,
            final(self)@.1 == counted(old(self)@.1, string_views(words@)),
            all@ == final(self)@.1,
    {
        self.count.add_words(words);
        self.count.clone()
    }

    /// Adds the counts of `other` to these; the word stays this counter's.
    pub fn merge(&mut self, other: &Counter)
        requires
            fits_sum(old(self)@.1, other@.1),
        ensures
            final(self)@.0 == old(self)@.0,
            final(self)@.1 == sum_counts(old(self)@.1, other@.1),
    {
        self.count.add_all(&other.count);
    }

    /// The counter of the synonyms in a query's response.
    pub fn from_response(res: &QueryResponse) -> (c: Counter)
        requires
            fits_counted(Map::<Seq<char>, int>::empty(), string_views(res.synonyms@)),
        ensures
            c@.0 == res.word@,
            c@.1 == counted(Map::<Seq<char>, int>::empty(), string_views(res.synonyms@)),
    {
        let mut counter = Counter::with_word(res.word.clone());
        counter.count.add_words(res.synonyms.as_slice());
        counter
    }

    /// Every synonym with its count, the most frequent first; synonyms with
    /// the same count come in no particular order.
    pub fn ranking(&self) -> (r: Vec<(String, i32)>)
        ensures
            lists_exactly(entry_views(r@), self@.1),
            sorted_by_count(entry_views(r@)),
    {
        let mut rest = self.count.entries();
        let mut out: Vec<(String, i32)> = Vec::new();
        proof {
            assert(entry_views(out@) + entry_views(rest@) =~= entry_views(rest@));
        }
        while rest.len() > 0
            invariant
                lists_exactly(entry_views(out@) + entry_views(rest@), self@.1),
                sorted_by_count(entry_views(out@)),
                forall|i: int, j: int|
                    0 <= i < out@.len() && 0 <= j < rest@.len() ==> out@[i].1 >= rest@[j].1,
            decreases rest.len(),
        {
            let mut best: usize = 0;
            let mut j: usize = 1;
            while j < rest.len()
                invariant
                    best < j <= rest@.len(),
                    forall|q: int| 0 <= q < j ==> rest@[best as int].1 >= rest@[q].1,
                decreases rest.len() - j,
            {
                if rest[j].1 > rest[best].1 {
                    best = j;
                }
                j = j + 1;
            }
            let ghost a = entry_views(out@);
            let ghost b = entry_views(rest@);
            let ghost old_out = out@;
            let ghost old_rest = rest@;
            let e = rest.remove(best);
            out.push(e);
            proof {
                lemma_move_entry(a, b, best as int, self@.1);
                assert(entry_views(out@) =~= a.push(b[best as int]));
                assert(entry_views(rest@) =~= b.remove(best as int));
                assert forall|i: int, j: int|
                    0 <= i < out@.len() && 0 <= j < rest@.len() implies out@[i].1
                    >= rest@[j].1 by {
                    if i < old_out.len() {
                        if j < best {
                            assert(rest@[j] == old_rest[j]);
                        } else {
                            assert(rest@[j] == old_rest[j + 1]);
                        }
                    } else {
                        if j < best {
                            assert(rest@[j] == old_rest[j]);
                        } else {
                            assert(rest@[j] == old_rest[j + 1]);
                        }
                    }
                }
                assert forall|i: int, j: int|
                    0 <= i < j < out@.len() implies entry_views(out@)[i].1 >= entry_views(
                    out@,
                )[j].1 by {
                    if j == old_out.len() {
                        assert(old_out[i].1 >= old_rest[best as int].1);
                    } else {
                        assert(entry_views(old_out)[i].1 >= entry_views(old_out)[j].1);
                    }
                }
            }
        }
        proof {
            assert(entry_views(out@) + entry_views(rest@) =~= entry_views(out@));
        }
        out
    }
}

} // verus!
