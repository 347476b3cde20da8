//! Word completion over a trie that counts how often each word was recorded.
pub mod autocompleter;
pub mod dictionary;
pub mod laws;
pub mod mwt;
pub mod order;

pub use autocompleter::Autocompleter;
pub use mwt::{Mwt, MwtNode};
