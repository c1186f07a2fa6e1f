//! Verified implementations of classic algorithms, centred on a suite of
//! exact solvers for the 0/1 knapsack problem: exhaustive search,
//! branch-and-bound, a dominance-pruning search with an optional sorted
//! variant, and a dynamic-programming table.  The surrounding modules hold
//! verified versions of the small classic routines that accompany the
//! solvers: searching, sorting, number theory, and backtracking puzzles.

pub mod branch_bound;
pub mod dominance;
pub mod dynamic;
pub mod euclid;
pub mod exchange;
pub mod exhaustive;
pub mod exponent;
pub mod factorize;
pub mod hanoi;
pub mod items;
pub mod knight;
pub mod laws;
pub mod optimum;
pub mod primality;
pub mod prng;
pub mod queens;
pub mod searching;
pub mod sequences;
pub mod sieve;
pub mod sorting;
