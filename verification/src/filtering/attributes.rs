//! Filters by event and trace attribute values.

use vstd::prelude::*;
use crate::event_log::{EventLog, EventView, TraceView, attr_value, select_traces};
use crate::filtering::activities::contains_string;
use crate::text::str_eq;

verus! {

/// The value of `key` on an event: its activity for `concept:name`, else its attribute.
pub open spec fn event_value(e: EventView, key: Seq<char>) -> Option<Seq<char>> {
    if key == "concept:name"@ {
        Some(e.name)
    } else {
        attr_value(e.attributes, key)
    }
}

/// Some event of the trace has, for `key`, one of `values`.
pub open spec fn some_event_has_value(t: TraceView, key: Seq<char>, values: Seq<Seq<char>>) -> bool {
    exists|i: int| 0 <= i < t.events.len() && match #[trigger] event_value(t.events[i], key) {
        Some(v) => values.contains(v),
        None => false,
    }
}

/// Keeps the traces with (when `positive`) or without (otherwise) an event
/// whose value for `attribute_key` is one of `attribute_values`.
pub fn filter_event_attribute_values(
    log: &EventLog,
    attribute_key: &str,
    attribute_values: &[String],
    positive: bool,
) -> (res: EventLog)
    ensures
        res@ == log@.filter(|t: TraceView| some_event_has_value(t, attribute_key@, attribute_values.deep_view()) == positive),
{
    let is_name = str_eq(attribute_key, "concept:name");
    let mut flags: Vec<bool> = Vec::new();
    for i in 0..log.traces.len()
        invariant
            is_name == (attribute_key@ == "concept:name"@),
            flags@.len() == i,
            forall|j: int| 0 <= j < i ==> #[trigger] flags@[j] == (some_event_has_value(log@[j], attribute_key@, attribute_values.deep_view()) == positive),
    {
        let t = &log.traces[i];
        let ghost tv = t.deep_view();
        let mut matches = false;
        let mut k: usize = 0;
        while k < t.events.len()
            invariant
                tv == t.deep_view(),
                is_name == (attribute_key@ == "concept:name"@),
                k <= tv.events.len(),
                matches == exists|x: int| 0 <= x < k && match #[trigger] event_value(tv.events[x], attribute_key@) {
                    Some(v) => attribute_values.deep_view().contains(v),
                    None => false,
                },
            decreases tv.events.len() - k,
        {
            let e = &t.events[k];
            let hit = if is_name {
                contains_string(attribute_values, e.name.as_str())
            } else {
                match e.get_attribute(attribute_key) {
                    Some(v) => contains_string(attribute_values, v.as_str()),
                    None => false,
                }
            };
            proof {
                assert(tv.events[k as int] == e.deep_view());
                assert(hit == match event_value(tv.events[k as int], attribute_key@) {
                    Some(v) => attribute_values.deep_view().contains(v),
                    None => false,
                });
            }
            matches = matches || hit;
            k = k + 1;
        }
        proof {
            assert(log@[i as int] == tv);
        }
        flags.push(if positive { matches } else { !matches });
    }
    select_traces(log, &flags, Ghost(|t: TraceView| some_event_has_value(t, attribute_key@, attribute_values.deep_view()) == positive))
}

/// The trace's value for `key`: its case identifier for `concept:name`, else none.
pub open spec fn trace_value(t: TraceView, key: Seq<char>) -> Option<Seq<char>> {
    if key == "concept:name"@ {
        Some(t.case_id)
    } else {
        None
    }
}

/// Keeps the traces whose value for `attribute_key` is (when `positive`) or
/// is not (otherwise) one of `attribute_values`; only `concept:name` (the
/// case identifier) has a value.
pub fn filter_trace_attribute(
    log: &EventLog,
    attribute_key: &str,
    attribute_values: &[String],
    positive: bool,
) -> (res: EventLog)
    ensures
        res@ == log@.filter(|t: TraceView| (match trace_value(t, attribute_key@) {
            Some(v) => attribute_values.deep_view().contains(v),
            None => false,
        }) == positive),
{
    let is_name = str_eq(attribute_key, "concept:name");
    let mut flags: Vec<bool> = Vec::new();
    for i in 0..log.traces.len()
        invariant
            is_name == (attribute_key@ == "concept:name"@),
            flags@.len() == i,
            forall|j: int| 0 <= j < i ==> #[trigger] flags@[j] == ((match trace_value(log@[j], attribute_key@) {
                Some(v) => attribute_values.deep_view().contains(v),
                None => false,
            }) == positive),
    {
        let t = &log.traces[i];
        let matches = is_name && contains_string(attribute_values, t.case_id.as_str());
        proof {
            assert(log@[i as int] == t.deep_view());
        }
        flags.push(if positive { matches } else { !matches });
    }
    select_traces(log, &flags, Ghost(|t: TraceView| (match trace_value(t, attribute_key@) {
        Some(v) => attribute_values.deep_view().contains(v),
        None => false,
    }) == positive))
}

} // verus!
