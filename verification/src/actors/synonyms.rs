//! Putting together the counters that the sites give for the same words.
use vstd::prelude::*;

use crate::counter::count_map::{fits_sum, sum_counts};
use crate::counter::Counter;

verus! {

/// The (word, counts) views of a list of counters.
pub open spec fn counter_views(v: Seq<Counter>) -> Seq<(Seq<char>, Map<Seq<char>, int>)> {
    v.map_values(|c: Counter| c@)
}

/// The counters gathered so far after the counters `res` of one more site
/// came in: the first site's counters are taken as they are, those of the
/// others are added position by position.
pub open spec fn merged_pages(
    counters: Seq<(Seq<char>, Map<Seq<char>, int>)>,
    res: Seq<(Seq<char>, Map<Seq<char>, int>)>,
) -> Seq<(Seq<char>, Map<Seq<char>, int>)> {
    if counters.len() == 0 {
        res
    } else {
        Seq::new(
            counters.len(),
            |i: int|
                if i < res.len() {
                    (counters[i].0, sum_counts(counters[i].1, res[i].1))
                } else {
                    counters[i]
                },
        )
    }
}

/// What `merged_pages` gives: the new site's counters when none came
/// before; otherwise one counter per earlier word, where the counts of the
/// new site are added to every word it has an answer for.
pub proof fn lemma_merged_pages_exact(
    counters: Seq<(Seq<char>, Map<Seq<char>, int>)>,
    res: Seq<(Seq<char>, Map<Seq<char>, int>)>,
)
    requires
        counters.len() > 0 ==> res.len() <= counters.len(),
    ensures
        counters.len() == 0 ==> merged_pages(counters, res) == res,
        counters.len() > 0 ==> merged_pages(counters, res).len() == counters.len(),
        counters.len() > 0 ==> forall|i: int|
            0 <= i < res.len() ==> #[trigger] merged_pages(counters, res)[i] == (
                counters[i].0,
                sum_counts(counters[i].1, res[i].1),
            ),
        counters.len() > 0 ==> forall|i: int|
            res.len() <= i < counters.len() ==> #[trigger] merged_pages(counters, res)[i]
                == counters[i],
{
}

/// Adds the counters of one more site to those gathered so far.
pub fn merge_page_counters(counters: Vec<Counter>, res: Vec<Counter>) -> (merged: Vec<Counter>)
    requires
        counters@.len() > 0 ==> res@.len() <= counters@.len(),
        forall|i: int|
            0 <= i < res@.len() && i < counters@.len() ==> fits_sum(
                #[trigger] counters@[i]@.1,
                res@[i]@.1,
            ),
    ensures
        counter_views(merged@) == merged_pages(counter_views(counters@), counter_views(res@)),
        counters@.len() == 0 ==> counter_views(merged@) == counter_views(res@),
        counters@.len() > 0 ==> merged@.len() == counters@.len(),
        counters@.len() > 0 ==> forall|i: int|
            0 <= i < res@.len() ==> (#[trigger] merged@[i])@ == (
                counters@[i]@.0,
                sum_counts(counters@[i]@.1, res@[i]@.1),
            ),
        counters@.len() > 0 ==> forall|i: int|
            res@.len() <= i < counters@.len() ==> (#[trigger] merged@[i])@ == counters@[i]@,
{
    if counters.len() == 0 {
        return res;
    }
    let mut counters = counters;
    let ghost start = counter_views(counters@);
    let mut i: usize = 0;
    while i < res.len()
        invariant
            i <= res@.len() <= counters@.len(),
            start.len() == counters@.len(),
            forall|j: int|
                0 <= j < res@.len() ==> fits_sum(#[trigger] start[j].1, res@[j]@.1),
            forall|j: int|
                0 <= j < counters@.len() ==> #[trigger] counters@[j]@ == if j < i {
                    (start[j].0, sum_counts(start[j].1, res@[j]@.1))
                } else {
                    start[j]
                },
        decreases res.len() - i,
    {
        counters[i].merge(&res[i]);
        i = i + 1;
    }
    proof {
        assert(counter_views(counters@) =~= merged_pages(start, counter_views(res@)));
        assert forall|i: int| 0 <= i < res@.len() implies (#[trigger] counters@[i])@ == (
            start[i].0,
            sum_counts(start[i].1, res@[i]@.1),
        ) by {}
    }
    counters
}

} // verus!
