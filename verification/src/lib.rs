//! Distinct permutations of a vector: each arrangement of its elements that
//! differs from the others as a sequence of values, once, in ascending
//! lexicographic order.
//!
//! `distinct_permutations` counts the occurrences of each value and hands
//! them to a backtracking search, `distinct_permutations_with`, which tries
//! each remaining value once as the next element. `listing` says what the
//! result is, `laws` what follows of it, `order` and `multinomial` hold the
//! order and the arithmetic that both speak of.
pub mod counts;
pub mod laws;
pub mod listing;
pub mod multinomial;
pub mod order;
pub mod search;

pub use counts::Counts;
pub use search::{distinct_permutations, distinct_permutations_with};
