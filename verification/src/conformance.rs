//! Checking Petri nets against their intended behaviour.

pub mod alignments;
pub mod precision;
pub mod soundness;
pub mod token_replay;
