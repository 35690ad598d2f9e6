//! The result of discovering a directly-follows graph from events without
//! case identifiers, by temporal correlation.

use vstd::prelude::*;

verus! {

/// A directly-follows graph discovered by correlation.
#[derive(Debug)]
pub struct CorrelationResult {
    /// Edges as `(source activity, target activity, frequency)`.
    pub edges: Vec<(String, String, u32)>,
    /// Start activities with their frequency.
    pub start_activities: Vec<(String, u32)>,
    /// End activities with their frequency.
    pub end_activities: Vec<(String, u32)>,
    /// The number of correlated traces.
    pub num_traces: usize,
}

} // verus!
