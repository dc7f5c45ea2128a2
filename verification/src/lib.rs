//! Set relationships between two collections of typed elements.
//!
//! Two collections of raw string tokens are parsed into sets of one of
//! three element kinds (signed integers, case-normalized strings, or
//! single characters), and the five standard set relationships between
//! them (union, intersection, the two one-sided differences, and the
//! symmetric difference) are computed and returned in a canonical,
//! deterministic order.

pub mod char_sets;
pub mod int_sets;
pub mod laws;
pub mod menu;
pub mod order;
pub mod parse;
pub mod str_sets;
