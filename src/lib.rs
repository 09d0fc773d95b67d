//! Brute-force search for function signatures of the form
//! `prefix + segment + "(" + arguments + ")"` whose Keccak-256 selector
//! equals a given 4-byte target.

pub mod segment;
pub mod config;
pub mod selector;
pub mod search;
