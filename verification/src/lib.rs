//! Character-level Markov name generation: a transition table trained on
//! example strings, and a weighted random walk over it.

pub mod bags;
pub mod builder;
pub mod canon;
pub mod error;
pub mod json;
pub mod laws;
pub mod model;
pub mod order;
pub mod random;
pub mod sampler;
pub mod table;
pub mod text;
