//! A mnemonic phrase practice library: it generates random word phrases,
//! models their persistence with versioned backup artifacts, and drives a
//! typing-practice session over the active phrase.

pub mod errors;
pub mod generate;
pub mod laws;
pub mod lines;
pub mod names;
pub mod registry;
pub mod session;
pub mod store;
pub mod words;
