//! Putting together the word lists that different sites give.
pub mod merger;
