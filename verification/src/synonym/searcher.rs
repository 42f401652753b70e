//! The words whose synonyms are searched.
use vstd::prelude::*;


verus! {

/// Searches the synonyms of a list of words on every site.
pub struct Searcher {
    words: Vec<String>,
}

impl Searcher {
    /// A searcher for the synonyms of `words`.
    pub fn new(words: Vec<String>) -> (s: Searcher)
        ensures
            s.spec_words() == words@,
    {
        Searcher { words }
    }

    /// The words to search.
    pub closed spec fn spec_words(&self) -> Seq<String> {
        self.words@
    }

    /// The words to search.
    pub fn words(&self) -> (w: &Vec<String>)
        ensures
            w@ == self.spec_words(),
    {
        &self.words
    }
}

} // verus!
