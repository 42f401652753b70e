//! What the finder threads bring back, turned into counters.
use vstd::prelude::*;

use super::{FinderError, QueryResponse};
use crate::counter::count_map::{counted, fits_counted};
use crate::counter::Counter;
use crate::text::string_views;

verus! {

/// The responses of the searches that succeeded, in order.
pub open spec fn ok_responses(results: Seq<Result<QueryResponse, FinderError>>) -> Seq<QueryResponse>
    decreases results.len(),
{
    if results.len() == 0 {
        Seq::empty()
    } else {
        match results.last() {
            Ok(r) => ok_responses(results.drop_last()).push(r),
            Err(_) => ok_responses(results.drop_last()),
        }
    }
}

/// The word of a response with the count of each synonym it lists.
pub open spec fn response_counts(r: QueryResponse) -> (Seq<char>, Map<Seq<char>, int>) {
    (r.word@, counted(Map::<Seq<char>, int>::empty(), string_views(r.synonyms@)))
}

/// One counter per successful search, in order; failed searches are left
/// out.
pub fn counters_from_results(results: &Vec<Result<QueryResponse, FinderError>>) -> (cs: Vec<Counter>)
    requires
        forall|i: int|
            0 <= i < results@.len() ==> (#[trigger] results@[i] matches Ok(r) ==> fits_counted(
                Map::<Seq<char>, int>::empty(),
                string_views(r.synonyms@),
            )),
    ensures
        cs@.len() == ok_responses(results@).len(),
        forall|i: int|
            0 <= i < cs@.len() ==> #[trigger] cs@[i]@ == response_counts(ok_responses(results@)[i]),
{
    let mut cs: Vec<Counter> = Vec::new();
    let mut i: usize = 0;
    while i < results.len()
        invariant
            i <= results@.len(),
            forall|j: int|
                0 <= j < results@.len() ==> (#[trigger] results@[j] matches Ok(r) ==> fits_counted(
                    Map::<Seq<char>, int>::empty(),
                    string_views(r.synonyms@),
                )),
            cs@.len() == ok_responses(results@.take(i as int)).len(),
            forall|j: int|
                0 <= j < cs@.len() ==> #[trigger] cs@[j]@ == response_counts(
                    ok_responses(results@.take(i as int))[j],
                ),
        decreases results.len() - i,
    {
        proof {
            assert(results@.take(i + 1).drop_last() =~= results@.take(i as int));
        }
        match &results[i] {
            Ok(r) => {
                assert(results@[i as int] matches Ok(r));
                let c = Counter::from_response(r);
                cs.push(c);
            },
            Err(_) => {},
        }
        i = i + 1;
    }
    proof {
        assert(results@.take(results@.len() as int) =~= results@);
    }
    cs
}

} // verus!
