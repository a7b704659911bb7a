//! Elementary one-dimensional cellular automata on a ring of cells, with
//! verified analyses: cycle detection, block statistics, spacetime packing
//! for compression, and inference of a rule and of its locality from
//! observed transitions.

pub mod automaton;
pub mod baseline;
pub mod compression;
pub mod cycle;
pub mod dependency;
pub mod entropy;
pub mod generalization;
pub mod grid;
pub mod inference;
pub mod locality;
pub mod rule;
pub mod sampling;

use vstd::prelude::*;

verus! {

} // verus!
