//! Solver for a generalized "4 = 10" arithmetic puzzle: given a list of
//! numbers, a target value, and a set of allowed binary operators, find one
//! or all ways to order the numbers, place an operator between each adjacent
//! pair, and wrap one contiguous span in parentheses so that the expression
//! evaluates exactly to the target.

pub mod canon;
pub mod eval;
pub mod laws;
pub mod operator;
pub mod rat;
pub mod search;
