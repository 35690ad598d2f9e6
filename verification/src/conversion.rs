//! Conversions of process models into other notations.

pub mod process_tree_to_bpmn;
pub mod dfg;
pub mod pnml;
pub mod ptml;
pub mod to_petri_net;
