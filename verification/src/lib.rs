//! A verified solver for the bounded multi-dimensional knapsack problem.
//!
//! A problem consists of a per-dimension capacity vector and a list of item
//! types, each with a value, a maximum usable count and a per-dimension cost
//! vector. The solver computes a quantity for each item type that maximises
//! total value without exceeding any dimension's capacity.
//!
//! `index` holds the mixed-radix mapping between bounded usage vectors and
//! dense table indices; `passes` holds the 0/1 transition and the
//! binary-splitting reduction of a count-bounded item; `solver` owns the
//! value table, drives the passes and reconstructs the chosen quantities.

pub mod index;
pub mod passes;
pub mod solver;
