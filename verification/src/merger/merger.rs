//! Merging word lists and counting the words in one.
use vstd::prelude::*;

use crate::counter::count_map::{counted, fits_counted, CountMap};
use crate::text::string_views;

verus! {

/// `s` with every repeated element left out after its first occurrence.
pub open spec fn dedup(s: Seq<Seq<char>>) -> Seq<Seq<char>>
    decreases s.len(),
{
    if s.len() == 0 {
        Seq::empty()
    } else if dedup(s.drop_last()).contains(s.last()) {
        dedup(s.drop_last())
    } else {
        dedup(s.drop_last()).push(s.last())
    }
}

/// No element of `s` occurs twice.
pub open spec fn no_duplicates(s: Seq<Seq<char>>) -> bool {
    forall|i: int, j: int| 0 <= i < j < s.len() ==> s[i] != s[j]
}

/// `dedup` keeps exactly the elements of `s`, each once.
pub proof fn lemma_dedup(s: Seq<Seq<char>>)
    ensures
        no_duplicates(dedup(s)),
        forall|x: Seq<char>| #[trigger] dedup(s).contains(x) <==> s.contains(x),
    decreases s.len(),
{
    if s.len() > 0 {
        let t = s.drop_last();
        lemma_dedup(t);
        assert forall|x: Seq<char>| #[trigger] dedup(s).contains(x) <==> s.contains(x) by {
            if t.contains(x) {
                let j = choose|j: int| 0 <= j < t.len() && t[j] == x;
                assert(s[j] == x);
            }
            if s.contains(x) && x != s.last() {
                let j = choose|j: int| 0 <= j < s.len() && s[j] == x;
                assert(t[j] == x);
            }
            if !dedup(t).contains(s.last()) {
                if dedup(s).contains(x) && x != s.last() {
                    let j = choose|j: int| 0 <= j < dedup(s).len() && dedup(s)[j] == x;
                    assert(dedup(t)[j] == x);
                }
                if dedup(t).contains(x) {
                    let j = choose|j: int| 0 <= j < dedup(t).len() && dedup(t)[j] == x;
                    assert(dedup(s)[j] == x);
                }
                assert(dedup(s)[dedup(t).len() as int] == s.last());
            }
        }
    }
}

/// Merging two lists gives each word of either list exactly once.
pub proof fn lemma_merge_is_union(first: Seq<Seq<char>>, second: Seq<Seq<char>>)
    ensures
        no_duplicates(dedup(first + second)),
        forall|x: Seq<char>| #[trigger] dedup(first + second).contains(x) <==> (first.contains(x)
            || second.contains(x)),
{
    lemma_dedup(first + second);
    assert forall|x: Seq<char>| #[trigger] dedup(first + second).contains(x) <==> (first.contains(
        x,
    ) || second.contains(x)) by {
        if first.contains(x) {
            let i = choose|i: int| 0 <= i < first.len() && first[i] == x;
            assert((first + second)[i] == x);
        }
        if second.contains(x) {
            let i = choose|i: int| 0 <= i < second.len() && second[i] == x;
            assert((first + second)[first.len() + i] == x);
        }
        if (first + second).contains(x) {
            let i = choose|i: int| 0 <= i < (first + second).len() && (first + second)[i] == x;
            if i < first.len() {
                assert(first[i] == x);
            } else {
                assert(second[i - first.len()] == x);
            }
        }
    }
}

/// Appends `w` to `res` unless it is there already.
fn push_if_new(res: &mut Vec<String>, w: &String)
    ensures
        string_views(final(res)@) == if string_views(old(res)@).contains(w@) {
            string_views(old(res)@)
        } else {
            string_views(old(res)@).push(w@)
        },
{
    let ghost before = string_views(res@);
    let mut seen = false;
    let mut j: usize = 0;
    while j < res.len()
        invariant
            j <= res@.len(),
            before == string_views(res@),
            seen <==> exists|q: int| 0 <= q < j && res@[q]@ == w@,
        decreases res.len() - j,
    {
        if res[j] == *w {
            seen = true;
        }
        j = j + 1;
    }
    proof {
        if seen {
            let q = choose|q: int| 0 <= q < j && res@[q]@ == w@;
            assert(before[q] == w@);
        } else {
            assert forall|q: int| 0 <= q < before.len() implies before[q] != w@ by {
                assert(res@[q]@ != w@);
            }
        }
    }
    if !seen {
        res.push(w.clone());
        proof {
            assert(string_views(res@) =~= before.push(w@));
        }
    }
}

/// The words of both lists, each once, in the order in which they first
/// appear in `first` followed by `second`.
pub fn merge(first: &Vec<String>, second: &Vec<String>) -> (res: Vec<String>)
    ensures
        string_views(res@) == dedup(string_views(first@) + string_views(second@)),
{
    let ghost f = string_views(first@);
    let ghost g = string_views(second@);
    let mut res: Vec<String> = Vec::new();
    let mut i: usize = 0;
    proof {
        assert(string_views(res@) =~= dedup(f.take(0)));
    }
    while i < first.len()
        invariant
            i <= first@.len(),
            f == string_views(first@),
            string_views(res@) == dedup(f.take(i as int)),
        decreases first.len() - i,
    {
        proof {
            assert(f.take(i + 1).drop_last() =~= f.take(i as int));
        }
        push_if_new(&mut res, &first[i]);
        i = i + 1;
    }
    let mut j: usize = 0;
    proof {
        assert(f + g.take(0) =~= f.take(first@.len() as int));
    }
    while j < second.len()
        invariant
            j <= second@.len(),
            f == string_views(first@),
            g == string_views(second@),
            string_views(res@) == dedup(f + g.take(j as int)),
        decreases second.len() - j,
    {
        proof {
            assert((f + g.take(j + 1)).drop_last() =~= f + g.take(j as int));
        }
        push_if_new(&mut res, &second[j]);
        j = j + 1;
    }
    proof {
        assert(f + g.take(second@.len() as int) =~= f + g);
    }
    res
}

/// Each word of `words` with how many times it occurs there.
pub fn count(words: &[String]) -> (counts: CountMap)
    requires
        fits_counted(Map::<Seq<char>, int>::empty(), string_views(words@)),
    ensures
        counts@ == counted(Map::<Seq<char>, int>::empty(), string_views(words@)),
{
    let mut counts = CountMap::new();
    counts.add_words(words);
    counts
}

} // verus!
