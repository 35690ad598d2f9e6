//! Filter by number of events per trace.

use vstd::prelude::*;
use crate::event_log::{EventLog, TraceView, select_traces};

verus! {

/// The trace's event count lies in `[min_size, max_size]`, or is at least
/// `min_size` when `max_size` is 0.
pub open spec fn size_in_range(t: TraceView, min_size: usize, max_size: usize) -> bool {
    if max_size == 0 {
        t.events.len() >= min_size
    } else {
        t.events.len() >= min_size && t.events.len() <= max_size
    }
}

/// Keeps the traces whose event count is in `[min_size, max_size]`
/// (at least `min_size` when `max_size` is 0).
pub fn filter_case_size(log: &EventLog, min_size: usize, max_size: usize) -> (res: EventLog)
    ensures
        res@ == log@.filter(|t: TraceView| size_in_range(t, min_size, max_size)),
{
    let mut flags: Vec<bool> = Vec::new();
    for i in 0..log.traces.len()
        invariant
            flags@.len() == i,
            forall|j: int| 0 <= j < i ==> #[trigger] flags@[j] == size_in_range(log@[j], min_size, max_size),
    {
        let len = log.traces[i].events.len();
        let f = if max_size == 0 {
            len >= min_size
        } else {
            len >= min_size && len <= max_size
        };
        proof {
            assert(log@[i as int] == log.traces@[i as int].deep_view());
        }
        flags.push(f);
    }
    select_traces(log, &flags, Ghost(|t: TraceView| size_in_range(t, min_size, max_size)))
}

} // verus!
