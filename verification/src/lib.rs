//! Exact sum distributions for multisets of dice.
//!
//! A multiset of dice (each die uniform over `1..=sides`) determines, for
//! every attainable sum, the exact number of outcome tuples producing that
//! sum. This crate models dice, computes those counts with arbitrary
//! precision, and exposes the distribution for lookup, traversal and
//! rendering.

pub mod bignat;
pub mod convolution;
pub mod dice;
pub mod probability;
pub mod roll;
pub mod text;
