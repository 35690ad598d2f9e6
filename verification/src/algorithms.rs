//! Algorithms on relations and nets.

pub mod transitive;
pub mod reduction;
