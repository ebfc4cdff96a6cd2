//! A toolkit library for playing and developing card games such as poker: packed cards and
//! masks, hand evaluation and ranking, combinatorial index spaces, betting and a Texas Holdem
//! engine.

pub mod bits;
pub mod deck;
pub mod hand;
pub mod text;
pub mod betting;
pub mod combrs;
pub mod random;
pub mod texas;

pub use random::rng_from_seed;
