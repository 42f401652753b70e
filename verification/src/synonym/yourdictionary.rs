//! Reading synonyms from https://thesaurus.yourdictionary.com/
use vstd::prelude::*;

use super::{
    lemma_link_texts_exact, lemma_link_texts_have_no_lt, link_texts, link_texts_exec, opens_after,
    Finder, QueryResponse,
};
use crate::text::{match_positions, matches_at, runs_to_lt};
use crate::text::chars_of;

verus! {

/// The synonyms read off a page hold no markup: none contains a `<`.
pub proof fn lemma_synonyms_have_no_markup(body: Seq<char>)
    ensures
        forall|i: int|
            0 <= i < YourDictionary::spec_synonyms(body).len() ==> !(
            #[trigger] YourDictionary::spec_synonyms(body)[i]).contains('<'),
{
    reveal_strlit("\"synonym-link\"");
    lemma_link_texts_have_no_lt(body, "\"synonym-link\""@);
}

/// The synonyms read off a page are, one for each occurrence of
/// `"synonym-link"` (found left to right, without overlap), the whole text
/// of that link: from just after the next `>` up to the next `<`.
pub proof fn lemma_synonyms_exact(body: Seq<char>)
    ensures
        YourDictionary::spec_synonyms(body).len() == match_positions(
            body,
            "\"synonym-link\""@,
        ).len(),
        forall|k: int|
            0 <= k < YourDictionary::spec_synonyms(body).len() ==> matches_at(
                body,
                "\"synonym-link\""@,
                match_positions(body, "\"synonym-link\""@)[k],
            ) && exists|b: int|
                #[trigger] opens_after(body, match_positions(body, "\"synonym-link\""@)[k], b)
                    && runs_to_lt(body, b, YourDictionary::spec_synonyms(body)[k]),
{
    reveal_strlit("\"synonym-link\"");
    lemma_link_texts_exact(body, "\"synonym-link\""@);
}

/// A query for the synonyms of a word on YourDictionary's thesaurus.
pub struct YourDictionary {
    word: String,
}

impl Finder for YourDictionary {
    closed spec fn spec_word(&self) -> Seq<char> {
        self.word@
    }

    open spec fn spec_id() -> Seq<char> {
        "YourDictionary"@
    }

    open spec fn spec_url(word: Seq<char>) -> Seq<char> {
        "https://thesaurus.yourdictionary.com/"@ + word
    }

    /// Every page can be read.
    open spec fn spec_accepts(body: Seq<char>) -> bool {
        true
    }

    /// The text of each link marked as a synonym link.
    open spec fn spec_synonyms(body: Seq<char>) -> Seq<Seq<char>> {
        link_texts(body, "\"synonym-link\""@)
    }

    fn new_query(word: &str) -> (q: Self) {
        YourDictionary { word: word.to_owned() }
    }

    fn get_id() -> (id: String) {
        "YourDictionary".to_owned()
    }

    fn url(&self) -> (u: String) {
        let mut u = "https://thesaurus.yourdictionary.com/".to_owned();
        u.append(self.word.as_str());
        u
    }

    fn accepts(body: &str) -> (b: bool) {
        true
    }

    fn parse_body(&self, body: &str) -> (r: QueryResponse) {
        let chars = chars_of(body);
        let link = chars_of("\"synonym-link\"");
        proof {
            reveal_strlit("\"synonym-link\"");
        }
        let synonyms = link_texts_exec(chars.as_slice(), link.as_slice());
        QueryResponse { word: self.word.clone(), synonyms }
    }
}

} // verus!
