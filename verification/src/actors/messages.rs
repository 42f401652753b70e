//! The messages that the actors exchange.
use vstd::prelude::*;

use std::marker::PhantomData;

verus! {

/// A word to search on every site.
pub struct WordMessage {
    pub word: String,
    pub page_cooldown: u64,
}

/// A word to search on one site.
pub struct DictMessage {
    pub word: String,
    pub page_cooldown: u64,
}

impl WordMessage {
    /// The message that hands this word on to one site.
    pub fn to_dict_message(&self) -> (d: DictMessage)
        ensures
            d.word@ == self.word@,
            d.page_cooldown == self.page_cooldown,
    {
        DictMessage { word: self.word.clone(), page_cooldown: self.page_cooldown }
    }
}

/// A request to fetch the synonyms of a word from the site `T`.
pub struct RequestMessage<T> {
    pub word: String,
    pub _phantom: PhantomData<T>,
}

impl<T> RequestMessage<T> {
    /// A request for the synonyms of `word`.
    pub fn new(word: &str) -> (m: Self)
        ensures
            m.word@ == word@,
    {
        RequestMessage { word: word.to_owned(), _phantom: PhantomData }
    }
}

} // verus!
