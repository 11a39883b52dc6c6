//! Random secrets, pronounceable usernames and words drawn from a
//! character-level Markov model.
pub mod cache;
pub mod chain;
pub mod config;
pub mod corpus;
pub mod markov;
pub mod ngram;
mod random;
pub mod username;
