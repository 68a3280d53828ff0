//! Solvers for the 0/1 knapsack problem: given items with values and
//! weights and a knapsack of fixed capacity, select items maximizing
//! total value subject to the total weight staying within capacity.
//!
//! Three solvers are provided: an exact dynamic-programming solver
//! with a backtrace that reconstructs a selection, a greedy
//! value-density heuristic, and an exact branch-and-bound search that
//! prunes with an optimistic fractional-relaxation bound computed in
//! exact integer arithmetic.

pub mod bound;
pub mod density;
pub mod dp;
pub mod greedy;
pub mod item;
pub mod parse;
pub mod search;
