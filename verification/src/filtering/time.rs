//! Filter by event time range.

use vstd::prelude::*;
use crate::event_log::{EventLog, TraceView, select_traces};
use crate::timestamps::{parse_timestamp, timestamp_millis};

verus! {

/// Some event of the trace has a timestamp whose instant lies in `[start_ms, end_ms]`.
pub open spec fn has_event_in_range(t: TraceView, start_ms: i64, end_ms: i64) -> bool {
    exists|i: int| 0 <= i < t.events.len() && match #[trigger] t.events[i].timestamp {
        Some(ts) => match timestamp_millis(ts) {
            Some(ms) => start_ms <= ms <= end_ms,
            None => false,
        },
        None => false,
    }
}

/// Keeps the traces with at least one event whose timestamp (in
/// milliseconds since the Unix epoch) lies in `[start_ms, end_ms]`.
pub fn filter_time_range(log: &EventLog, start_ms: i64, end_ms: i64) -> (res: EventLog)
    ensures
        res@ == log@.filter(|t: TraceView| has_event_in_range(t, start_ms, end_ms)),
{
    let mut flags: Vec<bool> = Vec::new();
    for i in 0..log.traces.len()
        invariant
            flags@.len() == i,
            forall|j: int| 0 <= j < i ==> #[trigger] flags@[j] == has_event_in_range(log@[j], start_ms, end_ms),
    {
        let t = &log.traces[i];
        let ghost tv = t.deep_view();
        let mut found = false;
        for k in 0..t.events.len()
            invariant
                tv == t.deep_view(),
                found == exists|x: int| 0 <= x < k && match #[trigger] tv.events[x].timestamp {
                    Some(ts) => match timestamp_millis(ts) {
                        Some(ms) => start_ms <= ms <= end_ms,
                        None => false,
                    },
                    None => false,
                },
        {
            let hit = match &t.events[k].timestamp {
                Some(ts) => match parse_timestamp(ts.as_str()) {
                    Some(ms) => ms >= start_ms && ms <= end_ms,
                    None => false,
                },
                None => false,
            };
            proof {
                assert(tv.events[k as int] == t.events@[k as int].deep_view());
                assert(tv.events[k as int].timestamp == t.events@[k as int].timestamp.deep_view());
                assert(hit == match tv.events[k as int].timestamp {
                    Some(ts) => match timestamp_millis(ts) {
                        Some(ms) => start_ms <= ms <= end_ms,
                        None => false,
                    },
                    None => false,
                });
            }
            found = found || hit;
        }
        proof {
            assert(log@[i as int] == tv);
        }
        flags.push(found);
    }
    select_traces(log, &flags, Ghost(|t: TraceView| has_event_in_range(t, start_ms, end_ms)))
}

} // verus!
