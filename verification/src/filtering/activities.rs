//! Filters by start/end activities, prefixes, suffixes and paths.

use vstd::prelude::*;
use crate::event_log::{EventLog, Trace, Event, TraceView, EventView, trace_names, select_traces, push_trace, push_event};

use crate::text::str_eq;

verus! {

/// Whether `list` holds a string equal to `x`.
pub fn contains_string(list: &[String], x: &str) -> (res: bool)
    ensures
        res == list.deep_view().contains(x@),
{
    for k in 0..list.len()
        invariant
            forall|j: int| 0 <= j < k ==> list@[j]@ != x@,
    {
        if str_eq(list[k].as_str(), x) {
            proof {
                assert(list.deep_view()[k as int] == x@);
            }
            return true;
        }
    }
    proof {
        if list.deep_view().contains(x@) {
            let j = choose|j: int| 0 <= j < list.deep_view().len() && list.deep_view()[j] == x@;
            assert(list@[j]@ == x@);
        }
    }
    false
}

/// The trace starts with one of `acts`.
pub open spec fn starts_with_one_of(acts: Seq<Seq<char>>, t: TraceView) -> bool {
    t.events.len() > 0 && acts.contains(t.events[0].name)
}

/// The trace ends with one of `acts`.
pub open spec fn ends_with_one_of(acts: Seq<Seq<char>>, t: TraceView) -> bool {
    t.events.len() > 0 && acts.contains(t.events.last().name)
}

/// The traces whose first activity is one of `activities`.
pub fn filter_start_activities(log: &EventLog, activities: &[String]) -> (res: EventLog)
    ensures
        res@ == log@.filter(|t: TraceView| starts_with_one_of(activities.deep_view(), t)),
{
    let mut flags: Vec<bool> = Vec::new();
    for i in 0..log.traces.len()
        invariant
            flags@.len() == i,
            forall|j: int| 0 <= j < i ==> #[trigger] flags@[j] == starts_with_one_of(activities.deep_view(), log@[j]),
    {
        let t = &log.traces[i];
        let f = t.events.len() > 0 && contains_string(activities, t.events[0].name.as_str());
        proof {
            assert(log@[i as int] == t.deep_view());
        }
        flags.push(f);
    }
    select_traces(log, &flags, Ghost(|t: TraceView| starts_with_one_of(activities.deep_view(), t)))
}

/// The traces whose last activity is one of `activities`.
pub fn filter_end_activities(log: &EventLog, activities: &[String]) -> (res: EventLog)
    ensures
        res@ == log@.filter(|t: TraceView| ends_with_one_of(activities.deep_view(), t)),
{
    let mut flags: Vec<bool> = Vec::new();
    for i in 0..log.traces.len()
        invariant
            flags@.len() == i,
            forall|j: int| 0 <= j < i ==> #[trigger] flags@[j] == ends_with_one_of(activities.deep_view(), log@[j]),
    {
        let t = &log.traces[i];
        let n = t.events.len();
        let f = n > 0 && contains_string(activities, t.events[n - 1].name.as_str());
        proof {
            assert(log@[i as int] == t.deep_view());
        }
        flags.push(f);
    }
    select_traces(log, &flags, Ghost(|t: TraceView| ends_with_one_of(activities.deep_view(), t)))
}

/// Index of the first `x` in `ns` at or after `i` (`ns.len()` when absent).
pub open spec fn first_index(ns: Seq<Seq<char>>, x: Seq<char>, i: int) -> int
    decreases ns.len() - i,
{
    if i >= ns.len() {
        ns.len() as int
    } else if ns[i] == x {
        i
    } else {
        first_index(ns, x, i + 1)
    }
}

/// Index of the last `x` in `ns` before `j` (-1 when absent).
pub open spec fn last_index(ns: Seq<Seq<char>>, x: Seq<char>, j: int) -> int
    decreases j,
{
    if j <= 0 {
        -1
    } else if ns[j - 1] == x {
        j - 1
    } else {
        last_index(ns, x, j - 1)
    }
}

proof fn lemma_first_index_bounds(ns: Seq<Seq<char>>, x: Seq<char>, i: int)
    requires
        0 <= i <= ns.len(),
    ensures
        i <= first_index(ns, x, i) <= ns.len(),
    decreases ns.len() - i,
{
    if i < ns.len() && ns[i] != x {
        lemma_first_index_bounds(ns, x, i + 1);
    }
}

proof fn lemma_last_index_bounds(ns: Seq<Seq<char>>, x: Seq<char>, j: int)
    requires
        0 <= j <= ns.len(),
    ensures
        -1 <= last_index(ns, x, j) < j,
    decreases j,
{
    if j > 0 && ns[j - 1] != x {
        lemma_last_index_bounds(ns, x, j - 1);
    }
}

/// The first position of activity `x` in `events` at or after `from`.
fn position(events: &Vec<Event>, x: &str, from: usize) -> (res: usize)
    requires
        from <= events@.len(),
    ensures
        res == first_index(events.deep_view().map_values(|e: EventView| e.name), x@, from as int),
        from <= res <= events@.len(),
{
    let ghost ns = events.deep_view().map_values(|e: EventView| e.name);
    let mut i: usize = from;
    while i < events.len()
        invariant
            ns == events.deep_view().map_values(|e: EventView| e.name),
            from <= i <= events@.len(),
            first_index(ns, x@, i as int) == first_index(ns, x@, from as int),
        decreases events@.len() - i,
    {
        proof {
            assert(ns[i as int] == events@[i as int].name@);
        }
        if str_eq(events[i].name.as_str(), x) {
            return i;
        }
        i = i + 1;
    }
    i
}

/// One plus the last position of activity `x` in `events` (0 when absent).
fn rposition_end(events: &Vec<Event>, x: &str) -> (res: usize)
    ensures
        res == last_index(events.deep_view().map_values(|e: EventView| e.name), x@, events@.len() as int) + 1,
{
    let ghost ns = events.deep_view().map_values(|e: EventView| e.name);
    let mut j: usize = events.len();
    while j > 0
        invariant
            ns == events.deep_view().map_values(|e: EventView| e.name),
            j <= events@.len(),
            last_index(ns, x@, j as int) == last_index(ns, x@, events@.len() as int),
        decreases j,
    {
        proof {
            assert(ns[j - 1] == events@[j - 1].name@);
        }
        if str_eq(events[j - 1].name.as_str(), x) {
            return j;
        }
        j = j - 1;
    }
    0
}

/// A copy of `events[lo..hi]`.
pub fn clone_event_range(events: &Vec<Event>, lo: usize, hi: usize) -> (res: Vec<Event>)
    requires
        lo <= hi <= events@.len(),
    ensures
        res.deep_view() == events.deep_view().subrange(lo as int, hi as int),
{
    let mut out: Vec<Event> = Vec::new();
    for k in lo..hi
        invariant
            lo <= k <= hi,
            hi <= events@.len(),
            out.deep_view() == events.deep_view().subrange(lo as int, k as int),
    {
        let e = events[k].clone();
        push_event(&mut out, e);
        proof {
            assert(out.deep_view() =~= events.deep_view().subrange(lo as int, k + 1));
        }
    }
    out
}

/// The part of a trace from the first `a1` to the first `a2` at or after
/// it, when both occur in that order.
pub open spec fn between_part(t: TraceView, a1: Seq<char>, a2: Seq<char>) -> Option<TraceView> {
    let ns = trace_names(t);
    let s = first_index(ns, a1, 0);
    let e = first_index(ns, a2, s);
    if s >= ns.len() || e >= ns.len() {
        None
    } else {
        Some(TraceView { case_id: t.case_id, events: t.events.subrange(s, e + 1) })
    }
}

/// The trace cut to the events from the first `a1` to the last `a2`; a
/// trace with both, the last `a2` before the first `a1`, is kept whole.
pub open spec fn trim_part(t: TraceView, a1: Seq<char>, a2: Seq<char>) -> Option<TraceView> {
    let ns = trace_names(t);
    let s = first_index(ns, a1, 0);
    let e = last_index(ns, a2, ns.len() as int);
    if s >= ns.len() || e < 0 {
        None
    } else if s > e {
        Some(t)
    } else {
        Some(TraceView { case_id: t.case_id, events: t.events.subrange(s, e + 1) })
    }
}

/// Cuts one trace; `whole_if_reversed` selects between the two rules above.
fn cut_trace(t: &Trace, a1: &str, a2: &str, whole_if_reversed: bool) -> (res: Option<Trace>)
    ensures
        whole_if_reversed ==> res.deep_view() == trim_part(t.deep_view(), a1@, a2@),
        !whole_if_reversed ==> res.deep_view() == between_part(t.deep_view(), a1@, a2@),
{
    proof {
        assert(trace_names(t.deep_view()) =~= t.events.deep_view().map_values(|e: EventView| e.name));
        lemma_first_index_bounds(trace_names(t.deep_view()), a1@, 0);
        lemma_last_index_bounds(trace_names(t.deep_view()), a2@, t.events@.len() as int);
    }
    let n = t.events.len();
    let s = position(&t.events, a1, 0);
    if s >= n {
        return None;
    }
    if !whole_if_reversed {
        let e = position(&t.events, a2, s);
        proof {
            lemma_first_index_bounds(trace_names(t.deep_view()), a2@, s as int);
        }
        if e >= n {
            return None;
        }
        let events = clone_event_range(&t.events, s, e + 1);
        return Some(Trace { case_id: t.case_id.clone(), events });
    }
    let e1 = rposition_end(&t.events, a2);
    if e1 == 0 {
        return None;
    }
    if s > e1 - 1 {
        if whole_if_reversed {
            return Some(t.clone());
        }
        return None;
    }
    let events = clone_event_range(&t.events, s, e1);
    Some(Trace { case_id: t.case_id.clone(), events })
}

/// Keeps, of each trace holding `act1` and at or after it `act2`, the
/// events from the first `act1` to the first `act2` from there on; other
/// traces are dropped.
pub fn filter_between(log: &EventLog, act1: &str, act2: &str) -> (res: EventLog)
    ensures
        res@ == log@.filter_map(|t: TraceView| between_part(t, act1@, act2@)),
{
    cut_traces(log, act1, act2, false)
}

/// Trims each trace to the events from the first `start_activity` to the
/// last `end_activity`; traces missing either are dropped, and traces whose
/// last `end_activity` comes before the first `start_activity` stay whole.
pub fn filter_trim(log: &EventLog, start_activity: &str, end_activity: &str) -> (res: EventLog)
    ensures
        res@ == log@.filter_map(|t: TraceView| trim_part(t, start_activity@, end_activity@)),
{
    cut_traces(log, start_activity, end_activity, true)
}

fn cut_traces(log: &EventLog, a1: &str, a2: &str, whole_if_reversed: bool) -> (res: EventLog)
    ensures
        whole_if_reversed ==> res@ == log@.filter_map(|t: TraceView| trim_part(t, a1@, a2@)),
        !whole_if_reversed ==> res@ == log@.filter_map(|t: TraceView| between_part(t, a1@, a2@)),
{
    let ghost f = if whole_if_reversed {
        |t: TraceView| trim_part(t, a1@, a2@)
    } else {
        |t: TraceView| between_part(t, a1@, a2@)
    };
    let mut traces: Vec<Trace> = Vec::new();
    for i in 0..log.traces.len()
        invariant
            f == if whole_if_reversed {
                |t: TraceView| trim_part(t, a1@, a2@)
            } else {
                |t: TraceView| between_part(t, a1@, a2@)
            },
            traces.deep_view() == log@.take(i as int).filter_map(f),
    {
        let r = cut_trace(&log.traces[i], a1, a2, whole_if_reversed);
        proof {
            log@.lemma_filter_map_take_succ(f, i as int);
            assert(log@[i as int] == log.traces@[i as int].deep_view());
        }
        match r {
            Some(t) => {
                let ghost before = traces.deep_view();
                push_trace(&mut traces, t);
                proof {
                    assert(traces.deep_view() =~= before + seq![t.deep_view()]);
                }
            },
            None => {
                proof {
                    assert(traces.deep_view() =~= traces.deep_view() + Seq::<TraceView>::empty());
                }
            },
        }
    }
    proof {
        assert(log@.take(log@.len() as int) =~= log@);
    }
    EventLog { traces }
}

/// The first `prefix.len()` activities of the trace are `prefix`.
pub open spec fn has_prefix(prefix: Seq<Seq<char>>, t: TraceView) -> bool {
    t.events.len() >= prefix.len() && trace_names(t).take(prefix.len() as int) == prefix
}

/// The last `suffix.len()` activities of the trace are `suffix`.
pub open spec fn has_suffix(suffix: Seq<Seq<char>>, t: TraceView) -> bool {
    t.events.len() >= suffix.len() && trace_names(t).skip(t.events.len() - suffix.len()) == suffix
}

fn names_match_at(events: &Vec<Event>, start: usize, pat: &[String]) -> (res: bool)
    requires
        start + pat@.len() <= events@.len(),
    ensures
        res == (events.deep_view().map_values(|e: EventView| e.name).subrange(start as int, start + pat@.len()) == pat.deep_view()),
{
    let ghost ns = events.deep_view().map_values(|e: EventView| e.name);
    let plen = pat.len();
    let elen = events.len();
    for k in 0..plen
        invariant
            plen == pat@.len(),
            elen == events@.len(),
            ns == events.deep_view().map_values(|e: EventView| e.name),
            start + pat@.len() <= events@.len(),
            forall|j: int| 0 <= j < k ==> ns[start + j] == pat@[j]@,
    {
        if !str_eq(events[start + k].name.as_str(), pat[k].as_str()) {
            proof {
                assert(ns.subrange(start as int, start + pat@.len())[k as int] != pat.deep_view()[k as int]);
            }
            return false;
        }
    }
    proof {
        assert(ns.subrange(start as int, start + pat@.len()) =~= pat.deep_view());
    }
    true
}

/// Keeps the traces that begin with the activities of `prefix` (all traces
/// when it is empty).
pub fn filter_prefixes(log: &EventLog, prefix: &[String]) -> (res: EventLog)
    ensures
        res@ == log@.filter(|t: TraceView| has_prefix(prefix.deep_view(), t)),
{
    let mut flags: Vec<bool> = Vec::new();
    for i in 0..log.traces.len()
        invariant
            flags@.len() == i,
            forall|j: int| 0 <= j < i ==> #[trigger] flags@[j] == has_prefix(prefix.deep_view(), log@[j]),
    {
        let t = &log.traces[i];
        let f = t.events.len() >= prefix.len() && names_match_at(&t.events, 0, prefix);
        proof {
            assert(log@[i as int] == t.deep_view());
            assert(trace_names(t.deep_view()) =~= t.events.deep_view().map_values(|e: EventView| e.name));
            if t.events.len() >= prefix.len() {
                assert(trace_names(t.deep_view()).take(prefix@.len() as int) =~= trace_names(t.deep_view()).subrange(0, prefix@.len() as int));
            }
        }
        flags.push(f);
    }
    select_traces(log, &flags, Ghost(|t: TraceView| has_prefix(prefix.deep_view(), t)))
}

/// Keeps the traces that end with the activities of `suffix` (all traces
/// when it is empty).
pub fn filter_suffixes(log: &EventLog, suffix: &[String]) -> (res: EventLog)
    ensures
        res@ == log@.filter(|t: TraceView| has_suffix(suffix.deep_view(), t)),
{
    let mut flags: Vec<bool> = Vec::new();
    for i in 0..log.traces.len()
        invariant
            flags@.len() == i,
            forall|j: int| 0 <= j < i ==> #[trigger] flags@[j] == has_suffix(suffix.deep_view(), log@[j]),
    {
        let t = &log.traces[i];
        let n = t.events.len();
        let f = n >= suffix.len() && names_match_at(&t.events, n - suffix.len(), suffix);
        proof {
            assert(log@[i as int] == t.deep_view());
            assert(trace_names(t.deep_view()) =~= t.events.deep_view().map_values(|e: EventView| e.name));
            if n >= suffix.len() {
                assert(trace_names(t.deep_view()).skip(n - suffix@.len()) =~= trace_names(t.deep_view()).subrange(n - suffix@.len(), n as int));
            }
        }
        flags.push(f);
    }
    select_traces(log, &flags, Ghost(|t: TraceView| has_suffix(suffix.deep_view(), t)))
}

/// Some event `a` is directly followed by an event `b`.
pub open spec fn has_directly_follows(t: TraceView, a: Seq<char>, b: Seq<char>) -> bool {
    exists|i: int| 0 <= i < t.events.len() - 1 && #[trigger] t.events[i].name == a && t.events[i + 1].name == b
}

/// An event `b` occurs at or after the first event `a`.
pub open spec fn has_eventually_follows(t: TraceView, a: Seq<char>, b: Seq<char>) -> bool {
    let pa = first_index(trace_names(t), a, 0);
    pa < t.events.len() && exists|j: int| pa <= j < t.events.len() && #[trigger] t.events[j].name == b
}

/// Keeps the traces in which `a` is directly followed by `b`.
pub fn filter_directly_follows_relation(log: &EventLog, a: &str, b: &str) -> (res: EventLog)
    ensures
        res@ == log@.filter(|t: TraceView| has_directly_follows(t, a@, b@)),
{
    let mut flags: Vec<bool> = Vec::new();
    for i in 0..log.traces.len()
        invariant
            flags@.len() == i,
            forall|j: int| 0 <= j < i ==> #[trigger] flags@[j] == has_directly_follows(log@[j], a@, b@),
    {
        let t = &log.traces[i];
        let ghost tv = t.deep_view();
        let mut found = false;
        let mut k: usize = 0;
        let n = t.events.len();
        while k < n && k + 1 < n && !found
            invariant
                tv == t.deep_view(),
                n == t.events@.len(),
                k <= n,
                found ==> has_directly_follows(tv, a@, b@),
                !found ==> forall|x: int| 0 <= x < k ==> !(#[trigger] tv.events[x].name == a@ && tv.events[x + 1].name == b@),
            decreases t.events@.len() - k,
        {
            if str_eq(t.events[k].name.as_str(), a) && str_eq(t.events[k + 1].name.as_str(), b) {
                found = true;
                proof {
                    assert(tv.events[k as int].name == a@);
                }
            }
            k = k + 1;
        }
        proof {
            assert(log@[i as int] == tv);
            if !found {
                assert(!has_directly_follows(tv, a@, b@));
            }
        }
        flags.push(found);
    }
    select_traces(log, &flags, Ghost(|t: TraceView| has_directly_follows(t, a@, b@)))
}

/// Keeps the traces in which `b` occurs at or after the first `a`.
pub fn filter_eventually_follows_relation(log: &EventLog, a: &str, b: &str) -> (res: EventLog)
    ensures
        res@ == log@.filter(|t: TraceView| has_eventually_follows(t, a@, b@)),
{
    let mut flags: Vec<bool> = Vec::new();
    for i in 0..log.traces.len()
        invariant
            flags@.len() == i,
            forall|j: int| 0 <= j < i ==> #[trigger] flags@[j] == has_eventually_follows(log@[j], a@, b@),
    {
        let t = &log.traces[i];
        let ghost tv = t.deep_view();
        proof {
            assert(trace_names(tv) =~= t.events.deep_view().map_values(|e: EventView| e.name));
        }
        let pa = position(&t.events, a, 0);
        let mut found = false;
        if pa < t.events.len() {
            let mut k: usize = pa;
            while k < t.events.len() && !found
                invariant
                    tv == t.deep_view(),
                    pa <= k <= t.events@.len(),
                    pa == first_index(trace_names(tv), a@, 0),
                    found ==> exists|j: int| pa <= j < tv.events.len() && #[trigger] tv.events[j].name == b@,
                    !found ==> forall|x: int| pa <= x < k ==> tv.events[x].name != b@,
                decreases t.events@.len() - k,
            {
                if str_eq(t.events[k].name.as_str(), b) {
                    found = true;
                    proof {
                        assert(tv.events[k as int].name == b@);
                    }
                }
                k = k + 1;
            }
        }
        proof {
            assert(log@[i as int] == tv);
        }
        flags.push(found);
    }
    select_traces(log, &flags, Ghost(|t: TraceView| has_eventually_follows(t, a@, b@)))
}

/// Keeping the elements that satisfy `p` twice keeps the same elements as
/// keeping them once.
pub proof fn lemma_filter_idempotent<A>(s: Seq<A>, p: spec_fn(A) -> bool)
    ensures
        s.filter(p).filter(p) == s.filter(p),
    decreases s.len(),
{
    reveal(Seq::filter);
    if s.len() > 0 {
        lemma_filter_idempotent(s.drop_last(), p);
        let x = s.drop_last().filter(p);
        if p(s.last()) {
            assert(x.push(s.last()).drop_last() =~= x);
        }
    }
}

/// Keeping the elements that satisfy `p`, then those that satisfy `q`,
/// keeps the same elements as the other way round.
pub proof fn lemma_filters_commute<A>(s: Seq<A>, p: spec_fn(A) -> bool, q: spec_fn(A) -> bool)
    ensures
        s.filter(p).filter(q) == s.filter(q).filter(p),
    decreases s.len(),
{
    reveal(Seq::filter);
    if s.len() > 0 {
        lemma_filters_commute(s.drop_last(), p, q);
        let xp = s.drop_last().filter(p);
        let xq = s.drop_last().filter(q);
        assert(xp.push(s.last()).drop_last() =~= xp);
        assert(xq.push(s.last()).drop_last() =~= xq);
    }
}

/// Filtering a log by start activities twice gives the log of filtering it
/// once.
pub proof fn lemma_start_filter_idempotent(log: Seq<TraceView>, acts: Seq<Seq<char>>)
    ensures
        log.filter(|t: TraceView| starts_with_one_of(acts, t)).filter(|t: TraceView| starts_with_one_of(acts, t))
            == log.filter(|t: TraceView| starts_with_one_of(acts, t)),
{
    lemma_filter_idempotent(log, |t: TraceView| starts_with_one_of(acts, t));
}

/// Filtering a log by start activities and by end activities gives the
/// same log in either order.
pub proof fn lemma_start_end_filters_commute(log: Seq<TraceView>, starts: Seq<Seq<char>>, ends: Seq<Seq<char>>)
    ensures
        log.filter(|t: TraceView| starts_with_one_of(starts, t)).filter(|t: TraceView| ends_with_one_of(ends, t))
            == log.filter(|t: TraceView| ends_with_one_of(ends, t)).filter(|t: TraceView| starts_with_one_of(starts, t)),
{
    lemma_filters_commute(log, |t: TraceView| starts_with_one_of(starts, t), |t: TraceView| ends_with_one_of(ends, t));
}

/// Filtering a log by a prefix and by a suffix gives the same log in
/// either order.
pub proof fn lemma_prefix_suffix_filters_commute(log: Seq<TraceView>, prefix: Seq<Seq<char>>, suffix: Seq<Seq<char>>)
    ensures
        log.filter(|t: TraceView| has_prefix(prefix, t)).filter(|t: TraceView| has_suffix(suffix, t))
            == log.filter(|t: TraceView| has_suffix(suffix, t)).filter(|t: TraceView| has_prefix(prefix, t)),
{
    lemma_filters_commute(log, |t: TraceView| has_prefix(prefix, t), |t: TraceView| has_suffix(suffix, t));
}

} // verus!
