//! Event logs: events grouped into traces (cases), with CSV reading and
//! CSV / XES writing.

use vstd::prelude::*;
use crate::counting::{count_keys, is_count_table};
use crate::text::{lines, split_on, trim, decimal, strictly_sorted, insert_sorted_unique, str_eq, trim_str, split_str, split_lines, usize_to_decimal, concat, xml_escaped, escape_xml};

verus! {

/// A single event in a trace.
#[derive(Debug)]
pub struct Event {
    /// Activity name (concept:name).
    pub name: String,
    /// Timestamp text (time:timestamp), if present.
    pub timestamp: Option<String>,
    /// Lifecycle transition (lifecycle:transition), if present.
    pub lifecycle: Option<String>,
    /// Other attributes as (key, value) pairs; a key is looked up by its last pair.
    pub attributes: Vec<(String, String)>,
}

/// An ordered sequence of events for one case.
#[derive(Debug)]
pub struct Trace {
    /// Case identifier.
    pub case_id: String,
    pub events: Vec<Event>,
}

/// A collection of traces.
#[derive(Debug)]
pub struct EventLog {
    pub traces: Vec<Trace>,
}

/// The content of an event.
pub struct EventView {
    pub name: Seq<char>,
    pub timestamp: Option<Seq<char>>,
    pub lifecycle: Option<Seq<char>>,
    pub attributes: Seq<(Seq<char>, Seq<char>)>,
}

/// The content of a trace.
pub struct TraceView {
    pub case_id: Seq<char>,
    pub events: Seq<EventView>,
}

impl DeepView for Event {
    type V = EventView;

    open spec fn deep_view(&self) -> EventView {
        EventView {
            name: self.name@,
            timestamp: self.timestamp.deep_view(),
            lifecycle: self.lifecycle.deep_view(),
            attributes: self.attributes.deep_view(),
        }
    }
}

impl DeepView for Trace {
    type V = TraceView;

    open spec fn deep_view(&self) -> TraceView {
        TraceView { case_id: self.case_id@, events: self.events.deep_view() }
    }
}

impl View for EventLog {
    type V = Seq<TraceView>;

    open spec fn view(&self) -> Seq<TraceView> {
        self.traces.deep_view()
    }
}

fn clone_opt_string(o: &Option<String>) -> (res: Option<String>)
    ensures
        res.deep_view() == o.deep_view(),
{
    match o {
        Some(s) => Some(s.clone()),
        None => None,
    }
}

impl Clone for Event {
    fn clone(&self) -> (res: Self)
        ensures
            res.deep_view() == self.deep_view(),
    {
        let mut attributes: Vec<(String, String)> = Vec::new();
        for k in 0..self.attributes.len()
            invariant
                attributes@.len() == k,
                forall|j: int| 0 <= j < k ==> #[trigger] attributes@[j].deep_view() == self.attributes@[j].deep_view(),
        {
            let pair = &self.attributes[k];
            attributes.push((pair.0.clone(), pair.1.clone()));
        }
        proof {
            assert(attributes.deep_view() =~= self.attributes.deep_view());
        }
        Event {
            name: self.name.clone(),
            timestamp: clone_opt_string(&self.timestamp),
            lifecycle: clone_opt_string(&self.lifecycle),
            attributes,
        }
    }
}

/// A copy of `events`.
pub fn clone_events(events: &Vec<Event>) -> (res: Vec<Event>)
    ensures
        res.deep_view() == events.deep_view(),
{
    let mut out: Vec<Event> = Vec::new();
    for k in 0..events.len()
        invariant
            out@.len() == k,
            forall|j: int| 0 <= j < k ==> #[trigger] out@[j].deep_view() == events@[j].deep_view(),
    {
        out.push(events[k].clone());
    }
    proof {
        assert(out.deep_view() =~= events.deep_view());
    }
    out
}

impl Clone for Trace {
    fn clone(&self) -> (res: Self)
        ensures
            res.deep_view() == self.deep_view(),
    {
        Trace { case_id: self.case_id.clone(), events: clone_events(&self.events) }
    }
}

impl Clone for EventLog {
    fn clone(&self) -> (res: Self)
        ensures
            res@ == self@,
    {
        let mut traces: Vec<Trace> = Vec::new();
        for k in 0..self.traces.len()
            invariant
                traces@.len() == k,
                forall|j: int| 0 <= j < k ==> #[trigger] traces@[j].deep_view() == self.traces@[j].deep_view(),
        {
            traces.push(self.traces[k].clone());
        }
        proof {
            assert(traces.deep_view() =~= self.traces.deep_view());
        }
        EventLog { traces }
    }
}

/// The activity names of a trace, in order.
pub open spec fn trace_names(t: TraceView) -> Seq<Seq<char>> {
    t.events.map_values(|e: EventView| e.name)
}

/// `name` is the activity of some event of the log.
pub open spec fn log_has_activity(log: Seq<TraceView>, name: Seq<char>) -> bool {
    exists|t: int, e: int|
        0 <= t < log.len() && 0 <= e < log[t].events.len() && #[trigger] log[t].events[e].name == name
}

impl EventLog {
    /// All distinct activity names, sorted.
    pub fn activities(&self) -> (res: Vec<String>)
        ensures
            strictly_sorted(res.deep_view()),
            forall|a: Seq<char>| #[trigger] res.deep_view().contains(a) <==> log_has_activity(self@, a),
    {
        let mut set: Vec<String> = Vec::new();
        let ghost log = self@;
        for t in 0..self.traces.len()
            invariant
                log == self@,
                strictly_sorted(set.deep_view()),
                forall|a: Seq<char>| #[trigger] set.deep_view().contains(a) <==> exists|ti: int, e: int|
                    0 <= ti < t && 0 <= e < log[ti].events.len() && #[trigger] log[ti].events[e].name == a,
        {
            let trace = &self.traces[t];
            for e in 0..trace.events.len()
                invariant
                    log == self@,
                    0 <= t < log.len(),
                    trace.deep_view() == log[t as int],
                    strictly_sorted(set.deep_view()),
                    forall|a: Seq<char>| #[trigger] set.deep_view().contains(a) <==> (exists|ti: int, ei: int|
                        0 <= ti < t && 0 <= ei < log[ti].events.len() && #[trigger] log[ti].events[ei].name == a)
                        || (exists|ei: int| 0 <= ei < e && #[trigger] log[t as int].events[ei].name == a),
            {
                insert_sorted_unique(&mut set, &trace.events[e].name);
                proof {
                    let x = log[t as int].events[e as int].name;
                    assert(trace.events[e as int].name@ == x);
                    assert forall|a: Seq<char>| #[trigger] set.deep_view().contains(a) <==> (exists|ti: int, ei: int|
                        0 <= ti < t && 0 <= ei < log[ti].events.len() && #[trigger] log[ti].events[ei].name == a)
                        || (exists|ei: int| 0 <= ei < e + 1 && #[trigger] log[t as int].events[ei].name == a) by {
                        if a == x {
                            assert(log[t as int].events[e as int].name == a);
                        }
                        if exists|ei: int| 0 <= ei < e + 1 && #[trigger] log[t as int].events[ei].name == a {
                            let ei = choose|ei: int| 0 <= ei < e + 1 && #[trigger] log[t as int].events[ei].name == a;
                            if ei < e {
                                assert(exists|ei: int| 0 <= ei < e && #[trigger] log[t as int].events[ei].name == a);
                            }
                        }
                    }
                }
            }
            proof {
                assert forall|a: Seq<char>| #[trigger] set.deep_view().contains(a) <==> exists|ti: int, ei: int|
                    0 <= ti < t + 1 && 0 <= ei < log[ti].events.len() && #[trigger] log[ti].events[ei].name == a by {
                    if exists|ei: int| 0 <= ei < log[t as int].events.len() && #[trigger] log[t as int].events[ei].name == a {
                        let ei = choose|ei: int| 0 <= ei < log[t as int].events.len() && #[trigger] log[t as int].events[ei].name == a;
                        assert(0 <= t < t + 1 && log[t as int].events[ei].name == a);
                    }
                    if exists|ti: int, ei: int| 0 <= ti < t + 1 && 0 <= ei < log[ti].events.len() && #[trigger] log[ti].events[ei].name == a {
                        let (ti, ei) = choose|ti: int, ei: int| 0 <= ti < t + 1 && 0 <= ei < log[ti].events.len() && #[trigger] log[ti].events[ei].name == a;
                        if ti < t {
                            assert(exists|ti: int, ei: int| 0 <= ti < t && 0 <= ei < log[ti].events.len() && #[trigger] log[ti].events[ei].name == a);
                        } else {
                            assert(exists|ei: int| 0 <= ei < log[t as int].events.len() && #[trigger] log[t as int].events[ei].name == a);
                        }
                    }
                }
            }
        }
        set
    }
}


/// The lower-case form of `s`, as `str::to_lowercase` computes it.
pub uninterp spec fn lowercase(s: Seq<char>) -> Seq<char>;

/// Calls `str::to_lowercase`; its result is `lowercase` of the argument.
#[verifier::external_body]
fn to_lowercase(s: &str) -> (res: String)
    ensures
        res@ == lowercase(s@),
{
    s.to_lowercase()
}

/// Column kinds that the CSV header names.
pub open spec fn header_is(kind: nat, h: Seq<char>) -> bool {
    let l = lowercase(h);
    if kind == 0 {
        l == "case_id"@ || l == "case:concept:name"@ || l == "case"@
    } else if kind == 1 {
        l == "concept:name"@ || l == "activity"@
    } else {
        l == "time:timestamp"@ || l == "timestamp"@
    }
}

/// Index of the first header at or after `i` of the given kind (`hs.len()` if none).
pub open spec fn first_header(hs: Seq<Seq<char>>, kind: nat, i: int) -> int
    decreases hs.len() - i,
{
    if i >= hs.len() {
        hs.len() as int
    } else if header_is(kind, hs[i]) {
        i
    } else {
        first_header(hs, kind, i + 1)
    }
}

/// The event that data line number `line_no` contributes, with its case
/// identifier, or `None` when the line is blank or names no activity.
pub open spec fn csv_event(line: Seq<char>, line_no: nat, cc: int, ac: int, tc: Option<int>) -> Option<(Seq<char>, EventView)> {
    if trim(line).len() == 0 {
        None
    } else {
        let cols = split_on(line, ',');
        let case_id = if cc < cols.len() {
            trim(cols[cc])
        } else {
            "case_"@ + decimal(line_no)
        };
        let activity = if ac < cols.len() {
            trim(cols[ac])
        } else {
            Seq::empty()
        };
        if activity.len() == 0 {
            None
        } else {
            let timestamp = match tc {
                Some(i) => if i < cols.len() && trim(cols[i]).len() > 0 {
                    Some(trim(cols[i]))
                } else {
                    None
                },
                None => None,
            };
            Some(
                (
                    case_id,
                    EventView {
                        name: activity,
                        timestamp,
                        lifecycle: None,
                        attributes: Seq::empty(),
                    },
                ),
            )
        }
    }
}

/// Index of the first trace at or after `i` with case identifier `c` (`g.len()` if none).
pub open spec fn find_case(g: Seq<TraceView>, c: Seq<char>, i: int) -> int
    decreases g.len() - i,
{
    if i >= g.len() {
        g.len() as int
    } else if g[i].case_id == c {
        i
    } else {
        find_case(g, c, i + 1)
    }
}

/// Appends event `e` to the trace of case `c`, opening that trace at the end if it is new.
pub open spec fn add_to_case(g: Seq<TraceView>, c: Seq<char>, e: EventView) -> Seq<TraceView> {
    let k = find_case(g, c, 0);
    if 0 <= k < g.len() {
        g.update(k, TraceView { case_id: g[k].case_id, events: g[k].events.push(e) })
    } else {
        g.push(TraceView { case_id: c, events: seq![e] })
    }
}

/// The traces built from the data lines: events grouped by case, cases in
/// order of first occurrence, events in line order.
pub open spec fn csv_traces(data: Seq<Seq<char>>, cc: int, ac: int, tc: Option<int>) -> Seq<TraceView>
    decreases data.len(),
{
    if data.len() == 0 {
        Seq::empty()
    } else {
        let g = csv_traces(data.drop_last(), cc, ac, tc);
        match csv_event(data.last(), (data.len() - 1) as nat, cc, ac, tc) {
            Some(row) => add_to_case(g, row.0, row.1),
            None => g,
        }
    }
}

/// The trimmed header fields of the first line.
pub open spec fn csv_headers(text: Seq<char>) -> Seq<Seq<char>> {
    split_on(lines(text)[0], ',').map_values(|h: Seq<char>| trim(h))
}

/// What reading `text` as CSV gives: the traces, or the error message.
pub open spec fn parse_csv_result(text: Seq<char>) -> Result<Seq<TraceView>, Seq<char>> {
    let ls = lines(text);
    if ls.len() == 0 {
        Err("CSV is empty"@)
    } else {
        let hs = csv_headers(text);
        let cc = first_header(hs, 0, 0);
        let ac = first_header(hs, 1, 0);
        let tc = first_header(hs, 2, 0);
        if cc >= hs.len() {
            Err("CSV missing case_id column"@)
        } else if ac >= hs.len() {
            Err("CSV missing activity column"@)
        } else {
            Ok(
                csv_traces(
                    ls.skip(1),
                    cc,
                    ac,
                    if tc < hs.len() {
                        Some(tc)
                    } else {
                        None
                    },
                ),
            )
        }
    }
}

fn find_header(hs: &Vec<String>, kind: u8) -> (res: usize)
    requires
        kind < 3,
    ensures
        res == first_header(hs.deep_view(), kind as nat, 0),
{
    let mut i: usize = 0;
    let ghost h = hs.deep_view();
    while i < hs.len()
        invariant
            h == hs.deep_view(),
            i <= hs@.len(),
            first_header(h, kind as nat, i as int) == first_header(h, kind as nat, 0),
        decreases hs@.len() - i,
    {
        let l = to_lowercase(hs[i].as_str());
        let hit = if kind == 0 {
            str_eq(l.as_str(), "case_id") || str_eq(l.as_str(), "case:concept:name") || str_eq(l.as_str(), "case")
        } else if kind == 1 {
            str_eq(l.as_str(), "concept:name") || str_eq(l.as_str(), "activity")
        } else {
            str_eq(l.as_str(), "time:timestamp") || str_eq(l.as_str(), "timestamp")
        };
        proof {
            assert(h[i as int] == hs@[i as int]@);
        }
        if hit {
            return i;
        }
        i = i + 1;
    }
    i
}

fn find_case_index(traces: &Vec<Trace>, c: &String) -> (res: usize)
    ensures
        res == find_case(traces.deep_view(), c@, 0),
{
    let mut i: usize = 0;
    let ghost g = traces.deep_view();
    while i < traces.len()
        invariant
            g == traces.deep_view(),
            i <= g.len(),
            find_case(g, c@, i as int) == find_case(g, c@, 0),
        decreases g.len() - i,
    {
        if str_eq(traces[i].case_id.as_str(), c.as_str()) {
            return i;
        }
        i = i + 1;
    }
    i
}

proof fn lemma_find_case_bounds(g: Seq<TraceView>, c: Seq<char>, i: int)
    requires
        0 <= i <= g.len(),
    ensures
        i <= find_case(g, c, i) <= g.len(),
    decreases g.len() - i,
{
    if i < g.len() && g[i].case_id != c {
        lemma_find_case_bounds(g, c, i + 1);
    }
}

/// Appends `e` to the trace of case `c`, or opens a new trace for it.
fn add_event_to_case(traces: &mut Vec<Trace>, c: String, e: Event)
    ensures
        final(traces).deep_view() == add_to_case(old(traces).deep_view(), c@, e.deep_view()),
{
    let k = find_case_index(traces, &c);
    proof {
        lemma_find_case_bounds(traces.deep_view(), c@, 0);
    }
    let ghost g = traces.deep_view();
    let ghost ev = e.deep_view();
    let ghost t0 = traces@;
    if k < traces.len() {
        let mut t = traces.remove(k);
        let ghost te = t.events@;
        t.events.push(e);
        proof {
            assert(t.events.deep_view() =~= g[k as int].events.push(ev)) by {
                assert(t0[k as int].events@ == te);
                assert forall|j: int| 0 <= j < te.len() implies #[trigger] t.events@[j].deep_view() == g[k as int].events[j] by {
                    assert(t.events@[j] == te[j]);
                }
            }
        }
        traces.insert(k, t);
        proof {
            assert(traces@ =~= t0.update(k as int, t));
            assert(traces.deep_view() =~= g.update(k as int, TraceView { case_id: g[k as int].case_id, events: g[k as int].events.push(ev) }));
        }
    } else {
        let mut events: Vec<Event> = Vec::new();
        events.push(e);
        proof {
            assert(events.deep_view() =~= seq![ev]);
        }
        traces.push(Trace { case_id: c, events });
        proof {
            assert(traces.deep_view() =~= g.push(TraceView { case_id: c@, events: seq![ev] }));
        }
    }
}

/// The event of one CSV data line, with its case identifier.
fn read_csv_event(line: &str, line_no: usize, cc: usize, ac: usize, tc: Option<usize>) -> (res: Option<(String, Event)>)
    ensures
        match res {
            Some(r) => csv_event(line@, line_no as nat, cc as int, ac as int, match tc { Some(i) => Some(i as int), None => None }) == Some((r.0@, r.1.deep_view())),
            None => csv_event(line@, line_no as nat, cc as int, ac as int, match tc { Some(i) => Some(i as int), None => None }) is None,
        },
{
    let ghost tci: Option<int> = match tc { Some(i) => Some(i as int), None => None };
    let t = trim_str(line);
    if t.as_str().unicode_len() == 0 {
        return None;
    }
    let cols = split_str(line, ',');
    let case_id = if cc < cols.len() {
        trim_str(cols[cc].as_str())
    } else {
        let num = usize_to_decimal(line_no);
        concat("case_", num.as_str())
    };
    let activity = if ac < cols.len() {
        trim_str(cols[ac].as_str())
    } else {
        "".to_owned()
    };
    proof {
        reveal_strlit("");
    }
    if activity.as_str().unicode_len() == 0 {
        return None;
    }
    let timestamp = match tc {
        Some(i) => {
            if i < cols.len() {
                let ts = trim_str(cols[i].as_str());
                if ts.as_str().unicode_len() > 0 {
                    Some(ts)
                } else {
                    None
                }
            } else {
                None
            }
        },
        None => None,
    };
    let ev = Event { name: activity, timestamp, lifecycle: None, attributes: Vec::new() };
    proof {
        assert(ev.attributes.deep_view() =~= Seq::<(Seq<char>, Seq<char>)>::empty());
    }
    Some((case_id, ev))
}

/// Reads a CSV text into an event log. The first line is the header; the
/// case column is the first named `case_id`, `case:concept:name` or `case`,
/// the activity column the first named `concept:name` or `activity`, the
/// optional timestamp column the first named `time:timestamp` or
/// `timestamp` (names compared in lower case). Events are grouped by case,
/// cases in order of first occurrence.
pub fn parse_csv(csv: &str) -> (res: Result<EventLog, String>)
    ensures
        match res {
            Ok(log) => parse_csv_result(csv@) == Ok::<Seq<TraceView>, Seq<char>>(log@),
            Err(e) => parse_csv_result(csv@) == Err::<Seq<TraceView>, Seq<char>>(e@),
        },
{
    let ls = split_lines(csv);
    if ls.len() == 0 {
        return Err("CSV is empty".to_owned());
    }
    let raw = split_str(ls[0].as_str(), ',');
    let mut headers: Vec<String> = Vec::new();
    for k in 0..raw.len()
        invariant
            headers@.len() == k,
            forall|j: int| 0 <= j < k ==> #[trigger] headers@[j]@ == trim(raw@[j]@),
    {
        headers.push(trim_str(raw[k].as_str()));
    }
    proof {
        assert(headers.deep_view() =~= raw.deep_view().map_values(|h: Seq<char>| trim(h)));
        assert(ls.deep_view()[0] == ls@[0]@);
        assert(headers.deep_view() == csv_headers(csv@));
    }
    let cc = find_header(&headers, 0);
    let ac = find_header(&headers, 1);
    let tcol = find_header(&headers, 2);
    if cc >= headers.len() {
        return Err("CSV missing case_id column".to_owned());
    }
    if ac >= headers.len() {
        return Err("CSV missing activity column".to_owned());
    }
    let tc: Option<usize> = if tcol < headers.len() {
        Some(tcol)
    } else {
        None
    };
    let ghost tci: Option<int> = match tc { Some(i) => Some(i as int), None => None };
    let ghost data = ls.deep_view().skip(1);
    let mut traces: Vec<Trace> = Vec::new();
    let nl = ls.len();
    for k in 1..nl
        invariant
            nl == ls@.len(),
            nl >= 1,
            data == ls.deep_view().skip(1),
            tci == match tc { Some(i) => Some(i as int), None => None::<int> },
            traces.deep_view() == csv_traces(data.take(k - 1), cc as int, ac as int, tci),
    {
        let line_no = k - 1;
        let row = read_csv_event(ls[k].as_str(), line_no, cc, ac, tc);
        let ghost g = traces.deep_view();
        let ghost dk = data.take(k as int);
        proof {
            assert(dk.drop_last() =~= data.take(k - 1));
            assert(dk.last() == ls@[k as int]@);
            assert(dk.len() - 1 == line_no);
            assert(csv_traces(dk, cc as int, ac as int, tci) == match csv_event(ls@[k as int]@, line_no as nat, cc as int, ac as int, tci) {
                Some(row) => add_to_case(g, row.0, row.1),
                None => g,
            });
        }
        match row {
            Some(r) => {
                let (c, e) = r;
                proof {
                    assert(tci == match tc { Some(i) => Some(i as int), None => None::<int> });
                    assert(csv_event(ls@[k as int]@, line_no as nat, cc as int, ac as int, tci) == Some((c@, e.deep_view())));
                }
                add_event_to_case(&mut traces, c, e);
            },
            None => {
                proof {
                    assert(tci == match tc { Some(i) => Some(i as int), None => None::<int> });
                }
            },
        }
    }
    proof {
        assert(data.take(nl - 1) =~= data);
    }
    Ok(EventLog { traces })
}


/// The activity names of each trace, in order.
pub open spec fn log_variants(log: Seq<TraceView>) -> Seq<Seq<Seq<char>>> {
    log.map_values(|t: TraceView| trace_names(t))
}

/// The activity names of a trace.
pub fn trace_activity_names(t: &Trace) -> (res: Vec<String>)
    ensures
        res.deep_view() == trace_names(t.deep_view()),
{
    let mut out: Vec<String> = Vec::new();
    for k in 0..t.events.len()
        invariant
            out@.len() == k,
            forall|j: int| 0 <= j < k ==> #[trigger] out@[j]@ == t.events@[j].name@,
    {
        out.push(t.events[k].name.clone());
    }
    proof {
        assert(out.deep_view() =~= trace_names(t.deep_view()));
    }
    out
}

impl EventLog {
    /// The activity sequence of every trace.
    pub fn trace_variants(&self) -> (res: Vec<Vec<String>>)
        ensures
            res.deep_view() == log_variants(self@),
    {
        let mut out: Vec<Vec<String>> = Vec::new();
        for k in 0..self.traces.len()
            invariant
                out@.len() == k,
                forall|j: int| 0 <= j < k ==> #[trigger] out@[j].deep_view() == trace_names(self.traces@[j].deep_view()),
        {
            out.push(trace_activity_names(&self.traces[k]));
        }
        proof {
            assert(out.deep_view() =~= log_variants(self@));
        }
        out
    }

    /// Each distinct activity sequence (variant) with the number of traces
    /// that follow it, variants in order of first occurrence.
    pub fn variants(&self) -> (res: Vec<(Vec<String>, usize)>)
        ensures
            is_count_table(res.deep_view(), log_variants(self@)),
    {
        let seqs = self.trace_variants();
        count_keys(&seqs)
    }
}


/// Filtering a prefix one element longer adds that element when it passes.
pub proof fn lemma_filter_take_step<A>(s: Seq<A>, p: spec_fn(A) -> bool, i: int)
    requires
        0 <= i < s.len(),
    ensures
        s.take(i + 1).filter(p) == if p(s[i]) {
            s.take(i).filter(p).push(s[i])
        } else {
            s.take(i).filter(p)
        },
{
    reveal(Seq::filter);
    assert(s.take(i + 1).drop_last() =~= s.take(i));
    assert(s.take(i + 1).last() == s[i]);
}

/// Appends `t` to `out`.
pub fn push_trace(out: &mut Vec<Trace>, t: Trace)
    ensures
        final(out).deep_view() == old(out).deep_view().push(t.deep_view()),
{
    let ghost o = out@;
    let ghost tv = t.deep_view();
    out.push(t);
    proof {
        assert(out.deep_view() =~= old(out).deep_view().push(tv)) by {
            assert forall|j: int| 0 <= j < o.len() implies #[trigger] out@[j] == o[j] by {}
        }
    }
}

/// Appends `e` to `out`.
pub fn push_event(out: &mut Vec<Event>, e: Event)
    ensures
        final(out).deep_view() == old(out).deep_view().push(e.deep_view()),
{
    let ghost o = out@;
    let ghost ev = e.deep_view();
    out.push(e);
    proof {
        assert(out.deep_view() =~= old(out).deep_view().push(ev)) by {
            assert forall|j: int| 0 <= j < o.len() implies #[trigger] out@[j] == o[j] by {}
        }
    }
}

/// The traces of `log` that satisfy `keep`, given `keep` as a flag per trace.
pub(crate) fn select_traces(log: &EventLog, flags: &Vec<bool>, keep: Ghost<spec_fn(TraceView) -> bool>) -> (res: EventLog)
    requires
        flags@.len() == log@.len(),
        forall|i: int| 0 <= i < flags@.len() ==> #[trigger] flags@[i] == keep@(log@[i]),
    ensures
        res@ == log@.filter(keep@),
{
    let mut traces: Vec<Trace> = Vec::new();
    for i in 0..log.traces.len()
        invariant
            flags@.len() == log@.len(),
            forall|i: int| 0 <= i < flags@.len() ==> #[trigger] flags@[i] == keep@(log@[i]),
            traces.deep_view() == log@.take(i as int).filter(keep@),
    {
        proof {
            lemma_filter_take_step(log@, keep@, i as int);
            assert(log@[i as int] == log.traces@[i as int].deep_view());
        }
        if flags[i] {
            let t = log.traces[i].clone();
            push_trace(&mut traces, t);
        }
    }
    proof {
        assert(log@.take(log@.len() as int) =~= log@);
    }
    EventLog { traces }
}


/// The value of the last attribute pair before `j` with key `key`.
pub open spec fn attr_lookup(attrs: Seq<(Seq<char>, Seq<char>)>, key: Seq<char>, j: int) -> Option<Seq<char>>
    decreases j,
{
    if j <= 0 || j > attrs.len() {
        None
    } else if attrs[j - 1].0 == key {
        Some(attrs[j - 1].1)
    } else {
        attr_lookup(attrs, key, j - 1)
    }
}

/// The value of attribute `key`: that of its last pair, as a map keeps the
/// last value written for a key.
pub open spec fn attr_value(attrs: Seq<(Seq<char>, Seq<char>)>, key: Seq<char>) -> Option<Seq<char>> {
    attr_lookup(attrs, key, attrs.len() as int)
}

impl Event {
    /// The value of attribute `key` (its last pair), if any.
    pub fn get_attribute(&self, key: &str) -> (res: Option<&String>)
        ensures
            match res {
                Some(v) => attr_value(self.attributes.deep_view(), key@) == Some(v@),
                None => attr_value(self.attributes.deep_view(), key@) is None,
            },
    {
        let ghost a = self.attributes.deep_view();
        let mut j: usize = self.attributes.len();
        while j > 0
            invariant
                a == self.attributes.deep_view(),
                j <= a.len(),
                attr_lookup(a, key@, j as int) == attr_value(a, key@),
            decreases j,
        {
            if str_eq(self.attributes[j - 1].0.as_str(), key) {
                proof {
                    assert(a[j - 1].0 == self.attributes@[j - 1].0@);
                }
                return Some(&self.attributes[j - 1].1);
            }
            proof {
                assert(a[j - 1].0 == self.attributes@[j - 1].0@);
            }
            j = j - 1;
        }
        None
    }
}

/// Some event of the log has a timestamp.
pub open spec fn log_has_timestamps(log: Seq<TraceView>) -> bool {
    exists|t: int, e: int| 0 <= t < log.len() && 0 <= e < log[t].events.len() && #[trigger] log[t].events[e].timestamp is Some
}

/// The CSV row of an event of case `case_id`.
pub open spec fn csv_row(case_id: Seq<char>, e: EventView, with_ts: bool) -> Seq<char> {
    case_id + ","@ + e.name + (if with_ts {
        ","@ + match e.timestamp {
            Some(ts) => ts,
            None => Seq::empty(),
        }
    } else {
        Seq::empty()
    }) + "\n"@
}

/// The CSV rows of the events `es` of case `case_id`.
pub open spec fn csv_event_rows(case_id: Seq<char>, es: Seq<EventView>, with_ts: bool) -> Seq<char>
    decreases es.len(),
{
    if es.len() == 0 {
        Seq::empty()
    } else {
        csv_event_rows(case_id, es.drop_last(), with_ts) + csv_row(case_id, es.last(), with_ts)
    }
}

/// The CSV rows of the traces `ts`.
pub open spec fn csv_trace_rows(ts: Seq<TraceView>, with_ts: bool) -> Seq<char>
    decreases ts.len(),
{
    if ts.len() == 0 {
        Seq::empty()
    } else {
        csv_trace_rows(ts.drop_last(), with_ts) + csv_event_rows(ts.last().case_id, ts.last().events, with_ts)
    }
}

/// The CSV text of a log: the header `case_id,activity` (with `,timestamp`
/// when some event has a timestamp), then a row per event.
pub open spec fn csv_text(log: Seq<TraceView>) -> Seq<char> {
    let with_ts = log_has_timestamps(log);
    "case_id,activity"@ + (if with_ts { ",timestamp"@ } else { Seq::empty() }) + "\n"@ + csv_trace_rows(log, with_ts)
}

fn has_timestamps(log: &EventLog) -> (res: bool)
    ensures
        res == log_has_timestamps(log@),
{
    let ghost lv = log@;
    for t in 0..log.traces.len()
        invariant
            lv == log@,
            forall|x: int, e: int| 0 <= x < t && 0 <= e < lv[x].events.len() ==> !(#[trigger] lv[x].events[e].timestamp is Some),
    {
        let trace = &log.traces[t];
        for e in 0..trace.events.len()
            invariant
                lv == log@,
                0 <= t < lv.len(),
                trace.deep_view() == lv[t as int],
                forall|x: int, y: int| 0 <= x < t && 0 <= y < lv[x].events.len() ==> !(#[trigger] lv[x].events[y].timestamp is Some),
                forall|y: int| 0 <= y < e ==> !(#[trigger] lv[t as int].events[y].timestamp is Some),
        {
            proof {
                assert(lv[t as int].events[e as int] == trace.events@[e as int].deep_view());
            }
            if trace.events[e].timestamp.is_some() {
                proof {
                    assert(lv[t as int].events[e as int].timestamp is Some);
                }
                return true;
            }
        }
    }
    false
}

fn csv_row_of(case_id: &str, event: &Event, with_ts: bool) -> (res: String)
    ensures
        res@ == csv_row(case_id@, event.deep_view(), with_ts),
{
    let mut row = case_id.to_owned();
    row.append(",");
    row.append(event.name.as_str());
    let ghost base = row@;
    if with_ts {
        row.append(",");
        match &event.timestamp {
            Some(ts) => row.append(ts.as_str()),
            None => {},
        }
    }
    let ghost tail = row@;
    row.append("\n");
    proof {
        let ts_part = if with_ts {
            ","@ + match event.deep_view().timestamp {
                Some(ts) => ts,
                None => Seq::empty(),
            }
        } else {
            Seq::<char>::empty()
        };
        assert(tail =~= base + ts_part);
        assert(row@ =~= csv_row(case_id@, event.deep_view(), with_ts));
    }
    row
}

fn write_csv_trace(csv: &mut String, trace: &Trace, with_ts: bool)
    ensures
        final(csv)@ == old(csv)@ + csv_event_rows(trace.deep_view().case_id, trace.deep_view().events, with_ts),
{
    let ghost tv = trace.deep_view();
    let ghost before = csv@;
    for e in 0..trace.events.len()
        invariant
            trace.deep_view() == tv,
            csv@ == before + csv_event_rows(tv.case_id, tv.events.take(e as int), with_ts),
    {
        proof {
            assert(tv.events.take(e + 1).drop_last() =~= tv.events.take(e as int));
            assert(trace.events@[e as int].deep_view() == tv.events[e as int]);
        }
        let row = csv_row_of(trace.case_id.as_str(), &trace.events[e], with_ts);
        csv.append(row.as_str());
        proof {
            assert(csv@ =~= before + csv_event_rows(tv.case_id, tv.events.take(e + 1), with_ts));
        }
    }
    proof {
        assert(tv.events.take(tv.events.len() as int) =~= tv.events);
    }
}

/// Writes a log as CSV, as `csv_text` states it.
pub fn write_csv(log: &EventLog) -> (res: String)
    ensures
        res@ == csv_text(log@),
{
    let ghost lv = log@;
    let with_ts = has_timestamps(log);
    let mut csv = "case_id,activity".to_owned();
    if with_ts {
        csv.append(",timestamp");
    }
    csv.append("\n");
    let ghost head = csv@;
    for t in 0..log.traces.len()
        invariant
            lv == log@,
            with_ts == log_has_timestamps(lv),
            csv@ == head + csv_trace_rows(lv.take(t as int), with_ts),
    {
        proof {
            assert(lv.take(t + 1).drop_last() =~= lv.take(t as int));
            assert(log.traces@[t as int].deep_view() == lv[t as int]);
        }
        write_csv_trace(&mut csv, &log.traces[t], with_ts);
        proof {
            assert(csv@ =~= head + csv_trace_rows(lv.take(t + 1), with_ts));
        }
    }
    proof {
        assert(lv.take(lv.len() as int) =~= lv);
    }
    csv
}

/// A `<string>` attribute line of an event.
pub open spec fn xes_attr_line(key: Seq<char>, value: Seq<char>) -> Seq<char> {
    "      <string key=\""@ + xml_escaped(key) + "\" value=\""@ + xml_escaped(value) + "\"/>\n"@
}

/// The attribute lines of an event.
pub open spec fn xes_attr_lines(attrs: Seq<(Seq<char>, Seq<char>)>) -> Seq<char>
    decreases attrs.len(),
{
    if attrs.len() == 0 {
        Seq::empty()
    } else {
        xes_attr_lines(attrs.drop_last()) + xes_attr_line(attrs.last().0, attrs.last().1)
    }
}

/// The XES element of an event: its name, then its timestamp and lifecycle
/// when present, then its other attributes.
pub open spec fn xes_event(e: EventView) -> Seq<char> {
    "    <event>\n"@ + "      <string key=\"concept:name\" value=\""@ + xml_escaped(e.name) + "\"/>\n"@
        + match e.timestamp {
        Some(ts) => "      <date key=\"time:timestamp\" value=\""@ + xml_escaped(ts) + "\"/>\n"@,
        None => Seq::empty(),
    } + match e.lifecycle {
        Some(lc) => "      <string key=\"lifecycle:transition\" value=\""@ + xml_escaped(lc) + "\"/>\n"@,
        None => Seq::empty(),
    } + xes_attr_lines(e.attributes) + "    </event>\n"@
}

/// The XES elements of a sequence of events.
pub open spec fn xes_events(es: Seq<EventView>) -> Seq<char>
    decreases es.len(),
{
    if es.len() == 0 {
        Seq::empty()
    } else {
        xes_events(es.drop_last()) + xes_event(es.last())
    }
}

/// The XES element of a trace.
pub open spec fn xes_trace(t: TraceView) -> Seq<char> {
    "  <trace>\n"@ + "    <string key=\"concept:name\" value=\""@ + xml_escaped(t.case_id) + "\"/>\n"@
        + xes_events(t.events) + "  </trace>\n"@
}

/// The XES elements of a sequence of traces.
pub open spec fn xes_traces(ts: Seq<TraceView>) -> Seq<char>
    decreases ts.len(),
{
    if ts.len() == 0 {
        Seq::empty()
    } else {
        xes_traces(ts.drop_last()) + xes_trace(ts.last())
    }
}

/// The XES document of a log.
pub open spec fn xes_text(log: Seq<TraceView>) -> Seq<char> {
    "<?xml version=\"1.0\" encoding=\"UTF-8\"?>"@ + "\n<log xes.version=\"1.0\" xes.features=\"nested-attributes\">\n"@
        + xes_traces(log) + "</log>\n"@
}

fn append_escaped(out: &mut String, s: &str)
    ensures
        final(out)@ == old(out)@ + xml_escaped(s@),
{
    let e = escape_xml(s);
    out.append(e.as_str());
}

/// The line of an optional event field, if present.
pub open spec fn xes_optional_line(head: Seq<char>, v: Option<Seq<char>>) -> Seq<char> {
    match v {
        Some(x) => head + xml_escaped(x) + "\"/>\n"@,
        None => Seq::empty(),
    }
}

fn append_optional_line(xml: &mut String, head: &str, v: &Option<String>)
    ensures
        final(xml)@ == old(xml)@ + xes_optional_line(head@, v.deep_view()),
{
    match v {
        Some(x) => {
            xml.append(head);
            append_escaped(xml, x.as_str());
            xml.append("\"/>\n");
        },
        None => {
            proof {
                assert(old(xml)@ + xes_optional_line(head@, v.deep_view()) =~= old(xml)@);
            }
        },
    }
}

fn append_attr_lines(xml: &mut String, attrs: &Vec<(String, String)>)
    ensures
        final(xml)@ == old(xml)@ + xes_attr_lines(attrs.deep_view()),
{
    let ghost x3 = xml@;
    let ghost av = attrs.deep_view();
    for k in 0..attrs.len()
        invariant
            av == attrs.deep_view(),
            xml@ == x3 + xes_attr_lines(av.take(k as int)),
    {
        proof {
            assert(av.take(k + 1).drop_last() =~= av.take(k as int));
            assert(av[k as int] == attrs@[k as int].deep_view());
        }
        xml.append("      <string key=\"");
        append_escaped(xml, attrs[k].0.as_str());
        xml.append("\" value=\"");
        append_escaped(xml, attrs[k].1.as_str());
        xml.append("\"/>\n");
        proof {
            assert(xml@ =~= x3 + xes_attr_lines(av.take(k + 1)));
        }
    }
    proof {
        assert(av.take(av.len() as int) =~= av);
    }
}

fn write_xes_event(xml: &mut String, event: &Event)
    ensures
        final(xml)@ == old(xml)@ + xes_event(event.deep_view()),
{
    let ghost ev = event.deep_view();
    let ghost x0 = xml@;
    xml.append("    <event>\n");
    xml.append("      <string key=\"concept:name\" value=\"");
    append_escaped(xml, event.name.as_str());
    xml.append("\"/>\n");
    let ghost x1 = xml@;
    append_optional_line(xml, "      <date key=\"time:timestamp\" value=\"", &event.timestamp);
    let ghost x2 = xml@;
    append_optional_line(xml, "      <string key=\"lifecycle:transition\" value=\"", &event.lifecycle);
    let ghost x3 = xml@;
    append_attr_lines(xml, &event.attributes);
    let ghost x4 = xml@;
    xml.append("    </event>\n");
    proof {
        let ts_part = match ev.timestamp {
            Some(ts) => "      <date key=\"time:timestamp\" value=\""@ + xml_escaped(ts) + "\"/>\n"@,
            None => Seq::empty(),
        };
        let lc_part = match ev.lifecycle {
            Some(lc) => "      <string key=\"lifecycle:transition\" value=\""@ + xml_escaped(lc) + "\"/>\n"@,
            None => Seq::empty(),
        };
        assert(x2 =~= x1 + ts_part);
        assert(x3 =~= x2 + lc_part);
        assert(xml@ =~= x0 + xes_event(ev));
    }
}

fn write_xes_trace(xml: &mut String, trace: &Trace)
    ensures
        final(xml)@ == old(xml)@ + xes_trace(trace.deep_view()),
{
    let ghost tv = trace.deep_view();
    let ghost before = xml@;
    xml.append("  <trace>\n");
    xml.append("    <string key=\"concept:name\" value=\"");
    append_escaped(xml, trace.case_id.as_str());
    xml.append("\"/>\n");
    let ghost mid = xml@;
    for e in 0..trace.events.len()
        invariant
            trace.deep_view() == tv,
            xml@ == mid + xes_events(tv.events.take(e as int)),
    {
        proof {
            assert(tv.events.take(e + 1).drop_last() =~= tv.events.take(e as int));
            assert(trace.events@[e as int].deep_view() == tv.events[e as int]);
        }
        write_xes_event(xml, &trace.events[e]);
        proof {
            assert(xml@ =~= mid + xes_events(tv.events.take(e + 1)));
        }
    }
    xml.append("  </trace>\n");
    proof {
        assert(tv.events.take(tv.events.len() as int) =~= tv.events);
        assert(xml@ =~= before + xes_trace(tv));
    }
}

/// Writes a log as an XES document, as `xes_text` states it.
pub fn write_xes(log: &EventLog) -> (res: String)
    ensures
        res@ == xes_text(log@),
{
    let ghost lv = log@;
    let mut xml = "<?xml version=\"1.0\" encoding=\"UTF-8\"?>".to_owned();
    xml.append("\n<log xes.version=\"1.0\" xes.features=\"nested-attributes\">\n");
    let ghost head = xml@;
    for t in 0..log.traces.len()
        invariant
            lv == log@,
            xml@ == head + xes_traces(lv.take(t as int)),
    {
        proof {
            assert(lv.take(t + 1).drop_last() =~= lv.take(t as int));
            assert(log.traces@[t as int].deep_view() == lv[t as int]);
        }
        write_xes_trace(&mut xml, &log.traces[t]);
        proof {
            assert(xml@ =~= head + xes_traces(lv.take(t + 1)));
        }
    }
    xml.append("</log>\n");
    proof {
        assert(lv.take(lv.len() as int) =~= lv);
    }
    xml
}

} // verus!
