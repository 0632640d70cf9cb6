//! A first-order Markov chain learned from a sequence of elements.
//!
//! The observed elements are sorted and deduplicated into a state space,
//! consecutive pairs are counted into a transition matrix, and each row of
//! that matrix becomes a weighted sampler (Walker's alias method, or a
//! cumulative table) that drives generation.

pub mod states;
pub mod transitions;
pub mod weights;
pub mod chain;
pub mod cumulative;
pub mod cumulative_chain;

pub use chain::{ChainError, Cursor, MarkovChain};
pub use cumulative_chain::CumulativeChain;
