//! A terminal Minesweeper game library whose centrepiece is a deduction
//! engine: from a partially revealed board it computes which hidden cells are
//! provably mines and which are provably safe, by constraint propagation over
//! regions of hidden cells.

use vstd::prelude::*;

pub mod board;
pub mod iset;
pub mod opts;
pub mod rng;
pub mod solver;
pub mod util;

verus! {

} // verus!
