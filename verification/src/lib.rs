//! A second-order Markov chain over words: an index from each adjacent pair
//! of corpus tokens to the words seen immediately after that pair, and random
//! walks over the index that produce either a fixed number of words or a
//! fixed number of punctuation-terminated sentences.

pub mod chain;
pub mod index;
pub mod text;
