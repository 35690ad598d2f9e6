//! Alignments between traces and Petri nets.

pub mod astar;
