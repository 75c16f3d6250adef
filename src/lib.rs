//! Pronounceable name generation from character-level n-gram models.
//!
//! `table` builds the weighted transition table of a corpus, `markov` holds
//! the model with its cache artifact, sampler and generator, `repair` the
//! cosmetic repairs of generated candidates, and `text` the character-level
//! helpers they share.
pub mod markov;
mod random;
pub mod repair;
pub mod table;
pub mod text;
