//! A variable-order Markov chain over tokenized sentences.
//!
//! Training splits text into sentences and records, for every context of
//! one up to `depth` consecutive words, how often each successor token
//! followed it.  Generation seeds a sentence from an entry point and then
//! repeatedly samples the next token from a width-weighted pool of the
//! trailing contexts until the end marker is drawn.

pub mod link;
pub mod text;
pub mod rng;
pub mod markov;
