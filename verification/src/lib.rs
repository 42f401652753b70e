//! Searching the synonyms of words on thesaurus sites: reading the synonyms
//! off the pages, counting them, and pacing the requests to each site.

pub mod actors;
pub mod cooldown;
pub mod counter;
pub mod logger;
pub mod merger;
pub mod synonym;
pub mod text;
