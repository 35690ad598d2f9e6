//! Process discovery: graphs and models built from event logs.

pub mod dfg;
pub mod causal;
pub mod transition_system;
pub mod alpha_miner;
pub mod alpha_plus_miner;
pub mod batches;
pub mod declare;
pub mod inductive_miner;
pub mod log_skeleton;
pub mod correlation_miner;
pub mod heuristics_miner;
