//! The state and the decisions of the actors that run the search.
pub mod messages;
pub mod synonyms;
pub mod yourdictionary;
