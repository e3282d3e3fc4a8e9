//! Monte-Carlo tree search engine for a two-player connection game on a
//! hexagonal board: board topology, bit-packed occupancy, area scoring,
//! pattern-biased playouts, and an AMAF-weighted search policy.

use vstd::prelude::*;

pub mod board;
pub mod boardvec;
pub mod info;
pub mod player;
pub mod rng;
pub mod search;
pub mod statistics;
pub mod tree;

pub use search::StarAI;

verus! {

} // verus!
