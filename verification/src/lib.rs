//! Process-mining algorithms over event logs, relations and Petri nets,
//! with their behaviour stated as Verus contracts.

pub mod binary_relation;
pub mod algorithms;
pub mod text;
pub mod event_log;
pub mod counting;
pub mod filtering;
pub mod timestamps;
pub mod discovery;
pub mod petri_net;
pub mod conformance;
pub mod process_tree;
pub mod conversion;
pub mod alerting;
pub mod xml;
pub mod xes;
pub mod footprints;
pub mod diff;
