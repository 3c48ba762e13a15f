//! A steady-state genetic algorithm for the symmetric travelling salesman
//! problem, with its search operators and population rules verified.
//!
//! Distances are whole numbers, so costs are exact. The random draws come
//! from the `rand` crate through the wrappers in [`random`]; every contract
//! of a function that draws holds for whatever is drawn.

pub mod edges;
pub mod ga;
pub mod operators;
pub mod permutation;
pub mod population;
pub mod random;
pub mod ratio;
pub mod selection;
pub mod tsp;
