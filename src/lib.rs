//! Shortest solutions of the water-pouring puzzle, found by breadth-first search
//! over the states of a fixed set of glasses.

pub mod glass;
pub mod operation;
pub mod problem;
pub mod report;
pub mod search;
pub mod solver;
pub mod solvers;
pub mod state;
pub mod text;
