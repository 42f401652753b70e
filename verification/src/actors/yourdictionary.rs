//! The pace of the requests to https://thesaurus.yourdictionary.com/
use vstd::prelude::*;

use crate::cooldown::{
    cooldown_wait, lemma_requests_apart, request_time, spec_cooldown_wait, NANOS_PER_SEC,
};

verus! {

/// Remembers when the site was last asked (nanoseconds since the UNIX
/// epoch), so that requests keep a cooldown between them.
pub struct YourDictionaryActor {
    last_search_time: u64,
}

impl YourDictionaryActor {
    /// An actor that has not asked the site yet.
    pub fn new() -> (a: YourDictionaryActor)
        ensures
            a.last_search() == 0,
    {
        YourDictionaryActor { last_search_time: 0 }
    }

    /// When the site was last asked.
    pub closed spec fn last_search(&self) -> u64 {
        self.last_search_time
    }

    /// When the site was last asked.
    pub fn last_search_time(&self) -> (t: u64)
        ensures
            t == self.last_search(),
    {
        self.last_search_time
    }

    /// A search arrives at time `now`: returns the seconds to sleep first so
    /// that `page_cooldown` seconds separate the request from the previous
    /// one, and records the time at which the request goes out, when the
    /// sleep is over.
    pub fn sleep_if_necessary(&mut self, page_cooldown: u64, now: u64) -> (wait: u64)
        requires
            old(self).last_search() <= now,
            request_time(page_cooldown, old(self).last_search(), now) <= u64::MAX,
        ensures
            wait == spec_cooldown_wait(page_cooldown, old(self).last_search(), now),
            final(self).last_search() == now + wait * NANOS_PER_SEC,
            final(self).last_search() - old(self).last_search() >= page_cooldown * NANOS_PER_SEC,
    {
        proof {
            lemma_requests_apart(page_cooldown, self.last_search_time, now);
        }
        let wait = cooldown_wait(page_cooldown, self.last_search_time, now);
        self.last_search_time = now + wait * NANOS_PER_SEC;
        wait
    }
}

impl Default for YourDictionaryActor {
    fn default() -> (a: YourDictionaryActor)
        ensures
            a.last_search() == 0,
    {
        YourDictionaryActor::new()
    }
}

} // verus!
