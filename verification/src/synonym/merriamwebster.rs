//! Reading synonyms from https://www.merriam-webster.com/thesaurus/
use vstd::prelude::*;

use super::{
    lemma_link_texts_exact, lemma_link_texts_have_no_lt, link_texts, link_texts_exec, opens_after,
    Finder, QueryResponse,
};
use crate::text::{
    chars_of, find, find_from_exec, first_or_zero, lemma_find_first, match_positions, matches_at,
    or_default, runs_to_lt,
};

verus! {

/// Where the list of synonyms of a page starts.
pub open spec fn syn_list_start(body: Seq<char>) -> int {
    or_default(find(body, "thes-list syn-list"@), 0)
}

/// Where the list of synonyms of a page ends (where the related words start).
pub open spec fn syn_list_end(body: Seq<char>) -> int {
    or_default(find(body, "thes-list rel-list"@), 0)
}

/// The synonyms read off a page hold no markup: none contains a `<`.
pub proof fn lemma_synonyms_have_no_markup(body: Seq<char>)
    ensures
        forall|i: int|
            0 <= i < MerriamWebster::spec_synonyms(body).len() ==> !(
            #[trigger] MerriamWebster::spec_synonyms(body)[i]).contains('<'),
{
    reveal_strlit("<a class=\"\" href=\"/thesaurus/");
    lemma_link_texts_have_no_lt(
        body.subrange(syn_list_start(body), syn_list_end(body)),
        "<a class=\"\" href=\"/thesaurus/"@,
    );
}

/// The synonym list of a page starts at the first `thes-list syn-list` and
/// ends at the first `thes-list rel-list` (each `0` when absent), so no
/// related-words list lies inside it; its synonyms are, one for each link
/// `<a class="" href="/thesaurus/` in it, the whole text of that link.
pub proof fn lemma_syn_list_exact(body: Seq<char>)
    ensures
        first_or_zero(body, "thes-list syn-list"@, syn_list_start(body)),
        first_or_zero(body, "thes-list rel-list"@, syn_list_end(body)),
        MerriamWebster::spec_accepts(body) ==> forall|j: int|
            !matches_at(
                body.subrange(syn_list_start(body), syn_list_end(body)),
                "thes-list rel-list"@,
                j,
            ),
        ({
            let section = body.subrange(syn_list_start(body), syn_list_end(body));
            let pos = match_positions(section, "<a class=\"\" href=\"/thesaurus/"@);
            &&& MerriamWebster::spec_synonyms(body).len() == pos.len()
            &&& forall|k: int|
                0 <= k < pos.len() ==> matches_at(
                    section,
                    "<a class=\"\" href=\"/thesaurus/"@,
                    pos[k],
                ) && exists|b: int|
                    #[trigger] opens_after(section, pos[k], b) && runs_to_lt(
                        section,
                        b,
                        MerriamWebster::spec_synonyms(body)[k],
                    )
        }),
{
    reveal_strlit("<a class=\"\" href=\"/thesaurus/");
    reveal_strlit("thes-list rel-list");
    lemma_find_first(body, "thes-list syn-list"@);
    lemma_find_first(body, "thes-list rel-list"@);
    let a = syn_list_start(body);
    let e = syn_list_end(body);
    let rel = "thes-list rel-list"@;
    if a <= e {
        let section = body.subrange(a, e);
        assert forall|j: int| !matches_at(section, rel, j) by {
            if matches_at(section, rel, j) {
                assert(section.subrange(j, j + rel.len()) =~= body.subrange(
                    a + j,
                    a + j + rel.len(),
                ));
                assert(matches_at(body, rel, a + j));
                assert(rel.len() > 0);
            }
        }
    }
    lemma_link_texts_exact(
        body.subrange(syn_list_start(body), syn_list_end(body)),
        "<a class=\"\" href=\"/thesaurus/"@,
    );
}

/// A query for the synonyms of a word on Merriam-Webster's thesaurus.
pub struct MerriamWebster {
    word: String,
}

impl Finder for MerriamWebster {
    closed spec fn spec_word(&self) -> Seq<char> {
        self.word@
    }

    open spec fn spec_id() -> Seq<char> {
        "MerriamWebster"@
    }

    open spec fn spec_url(word: Seq<char>) -> Seq<char> {
        "https://www.merriam-webster.com/thesaurus/"@ + word
    }

    /// The page is read between its list of synonyms and its list of related
    /// words; it cannot be read when the latter comes first.
    open spec fn spec_accepts(body: Seq<char>) -> bool {
        syn_list_start(body) <= syn_list_end(body)
    }

    /// The text of each synonym link between the two lists.
    open spec fn spec_synonyms(body: Seq<char>) -> Seq<Seq<char>> {
        link_texts(
            body.subrange(syn_list_start(body), syn_list_end(body)),
            "<a class=\"\" href=\"/thesaurus/"@,
        )
    }

    fn new_query(word: &str) -> (q: Self) {
        MerriamWebster { word: word.to_owned() }
    }

    fn get_id() -> (id: String) {
        "MerriamWebster".to_owned()
    }

    fn url(&self) -> (u: String) {
        let mut u = "https://www.merriam-webster.com/thesaurus/".to_owned();
        u.append(self.word.as_str());
        u
    }

    fn accepts(body: &str) -> (b: bool) {
        let (from, to) = list_bounds(body);
        from <= to
    }

    fn parse_body(&self, body: &str) -> (r: QueryResponse) {
        let (from, to) = list_bounds(body);
        let chars = chars_of(body);
        let section = vstd::slice::slice_subrange(chars.as_slice(), from, to);
        let link = chars_of("<a class=\"\" href=\"/thesaurus/");
        proof {
            reveal_strlit("<a class=\"\" href=\"/thesaurus/");
        }
        let synonyms = link_texts_exec(section, link.as_slice());
        QueryResponse { word: self.word.clone(), synonyms }
    }
}

/// Where the list of synonyms of `body` starts and ends.
fn list_bounds(body: &str) -> (r: (usize, usize))
    ensures
        r.0 == syn_list_start(body@),
        r.1 == syn_list_end(body@),
        r.0 <= body@.len(),
        r.1 <= body@.len(),
{
    let chars = chars_of(body);
    let syn = chars_of("thes-list syn-list");
    let rel = chars_of("thes-list rel-list");
    proof {
        crate::text::lemma_find_from(body@, "thes-list syn-list"@, 0);
        crate::text::lemma_find_from(body@, "thes-list rel-list"@, 0);
    }
    let from = match find_from_exec(chars.as_slice(), syn.as_slice(), 0) {
        Some(i) => i,
        None => 0,
    };
    let to = match find_from_exec(chars.as_slice(), rel.as_slice(), 0) {
        Some(i) => i,
        None => 0,
    };
    (from, to)
}

} // verus!
