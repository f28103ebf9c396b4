//! A word-level Markov chain text generator: a tokenizer, a trainable
//! n-gram model with back-off sampling, and a verbatim-copy filter.
pub mod lemmas;
pub mod model;
pub mod novelty;
pub mod tokenizer;
