//! Batch processing: executions of one activity, in different cases, that
//! happen close together in time.

use vstd::prelude::*;
use crate::event_log::{EventLog, TraceView};
use crate::text::{sorted_names, sorted_unique, lemma_sorted_names, str_eq};
use crate::timestamps::{rfc3339_instant, parse_rfc3339};

verus! {

/// The kind of a detected batch.
#[derive(Debug, Clone, Copy, PartialEq, Eq, Structural)]
pub enum BatchType {
    /// The end of one execution is the start of the next.
    Sequential,
    /// Executions overlap without being sequential or parallel.
    Concurrent,
    /// All executions share their start and their end.
    Parallel,
    /// A large overlapping batch.
    Disruptive,
}

/// A detected batch.
#[derive(Debug)]
pub struct BatchInstance {
    pub activity: String,
    pub batch_type: BatchType,
    /// The distinct cases of the batch, in ascending order.
    pub case_ids: Vec<String>,
    pub start_time: Option<String>,
    pub end_time: Option<String>,
    /// The number of distinct cases.
    pub size: usize,
}

/// All batches of a log, largest first.
#[derive(Debug)]
pub struct BatchDetectionResult {
    pub batches: Vec<BatchInstance>,
    pub total_batches: usize,
}

/// The content of a batch.
pub struct BatchView {
    pub activity: Seq<char>,
    pub batch_type: BatchType,
    pub case_ids: Seq<Seq<char>>,
    pub start_time: Option<Seq<char>>,
    pub end_time: Option<Seq<char>>,
    pub size: usize,
}

impl DeepView for BatchInstance {
    type V = BatchView;

    open spec fn deep_view(&self) -> BatchView {
        BatchView {
            activity: self.activity@,
            batch_type: self.batch_type,
            case_ids: self.case_ids.deep_view(),
            start_time: self.start_time.deep_view(),
            end_time: self.end_time.deep_view(),
            size: self.size,
        }
    }
}

/// One execution of an activity: its instant in seconds, its timestamp text
/// and its case.
pub struct ExecutionView {
    pub ts: i64,
    pub stamp: Seq<char>,
    pub case_id: Seq<char>,
}

struct Execution {
    ts: i64,
    stamp: String,
    case_id: String,
}

impl DeepView for Execution {
    type V = ExecutionView;

    closed spec fn deep_view(&self) -> ExecutionView {
        ExecutionView { ts: self.ts, stamp: self.stamp@, case_id: self.case_id@ }
    }
}

impl Clone for Execution {
    fn clone(&self) -> (res: Self)
        ensures
            res.deep_view() == self.deep_view(),
    {
        Execution { ts: self.ts, stamp: self.stamp.clone(), case_id: self.case_id.clone() }
    }
}

/// Executions closer than this many seconds belong to one batch.
pub const MERGE_DISTANCE_SECS: i64 = 900;

/// Batches of at least this many cases are disruptive unless parallel.
pub const DISRUPTIVE_THRESHOLD: usize = 5;

/// The seconds of an event's timestamp as RFC 3339, if it has one that parses.
pub open spec fn event_seconds(e: crate::event_log::EventView) -> Option<i64> {
    match e.timestamp {
        Some(s) => match rfc3339_instant(s) {
            Some(p) => Some(p.0),
            None => None,
        },
        None => None,
    }
}

/// The seconds of every event of the log, trace by trace.
pub open spec fn log_seconds(log: Seq<TraceView>) -> Seq<Seq<Option<i64>>> {
    log.map_values(|t: TraceView| t.events.map_values(|e: crate::event_log::EventView| event_seconds(e)))
}

/// `secs` gives one entry per event of the log.
pub open spec fn shaped_like(log: Seq<TraceView>, secs: Seq<Seq<Option<i64>>>) -> bool {
    secs.len() == log.len() && forall|k: int| 0 <= k < log.len() ==> #[trigger] secs[k].len() == log[k].events.len()
}

/// The execution of activity `a` by event `i` of trace `t`, if the event
/// has that activity and an instant.
pub open spec fn event_execution(t: TraceView, secs: Seq<Option<i64>>, i: int, a: Seq<char>) -> Seq<ExecutionView> {
    if t.events[i].name == a && secs[i] is Some {
        seq![ExecutionView {
            ts: secs[i]->0,
            stamp: match t.events[i].timestamp { Some(s) => s, None => seq![] },
            case_id: t.case_id,
        }]
    } else {
        seq![]
    }
}

/// The executions of activity `a` in trace `t`, in order.
pub open spec fn trace_executions(t: TraceView, secs: Seq<Option<i64>>, a: Seq<char>) -> Seq<ExecutionView> {
    Seq::new(t.events.len(), |i: int| event_execution(t, secs, i, a)).flatten()
}

/// The executions of activity `a` in the log, trace after trace.
pub open spec fn activity_executions(log: Seq<TraceView>, secs: Seq<Seq<Option<i64>>>, a: Seq<char>) -> Seq<ExecutionView> {
    Seq::new(log.len(), |k: int| trace_executions(log[k], secs[k], a)).flatten()
}

/// Some event of activity `a` has an instant.
pub open spec fn timed_activity(log: Seq<TraceView>, secs: Seq<Seq<Option<i64>>>, a: Seq<char>) -> bool {
    exists|k: int, i: int| 0 <= k < log.len() && 0 <= i < log[k].events.len()
        && #[trigger] log[k].events[i].name == a && secs[k][i] is Some
}

/// `x` inserted after the last element of `s` that is not later than it.
pub open spec fn insert_by_time(s: Seq<ExecutionView>, x: ExecutionView) -> Seq<ExecutionView>
    decreases s.len(),
{
    if s.len() == 0 {
        seq![x]
    } else if s.last().ts <= x.ts {
        s.push(x)
    } else {
        insert_by_time(s.drop_last(), x).push(s.last())
    }
}

/// `s` sorted by instant; executions at the same instant keep their order.
pub open spec fn sort_by_time(s: Seq<ExecutionView>) -> Seq<ExecutionView>
    decreases s.len(),
{
    if s.len() == 0 {
        s
    } else {
        insert_by_time(sort_by_time(s.drop_last()), s.last())
    }
}

/// `s` cut wherever an execution comes more than `MERGE_DISTANCE_SECS`
/// after the one before it.
pub open spec fn time_groups(s: Seq<ExecutionView>) -> Seq<Seq<ExecutionView>>
    decreases s.len(),
{
    if s.len() == 0 {
        seq![]
    } else {
        let g = time_groups(s.drop_last());
        if s.len() == 1 || (s.last().ts as int) - (s[s.len() - 2].ts as int) > MERGE_DISTANCE_SECS {
            g.push(seq![s.last()])
        } else {
            g.update(g.len() - 1, g.last().push(s.last()))
        }
    }
}

/// The distinct cases of a group, in ascending order.
pub open spec fn group_cases(g: Seq<ExecutionView>) -> Seq<Seq<char>> {
    sorted_names(|c: Seq<char>| exists|i: int| 0 <= i < g.len() && #[trigger] g[i].case_id == c)
}

/// The kind of a batch: parallel when every execution of its cases happens
/// at one instant, otherwise disruptive from `DISRUPTIVE_THRESHOLD` cases
/// on, otherwise concurrent.
pub open spec fn classify(cases: Seq<Seq<char>>, all: Seq<ExecutionView>) -> BatchType {
    let related = all.filter(|x: ExecutionView| cases.contains(x.case_id));
    if forall|i: int, j: int| 0 <= i < related.len() && 0 <= j < related.len() ==> #[trigger] related[i].ts == #[trigger] related[j].ts {
        BatchType::Parallel
    } else if cases.len() >= DISRUPTIVE_THRESHOLD {
        BatchType::Disruptive
    } else {
        BatchType::Concurrent
    }
}

/// The batch of a group, if it spans at least two cases; its start and end
/// time are both the timestamp text of the group's first execution.
pub open spec fn group_batch(a: Seq<char>, g: Seq<ExecutionView>, all: Seq<ExecutionView>) -> Seq<BatchView> {
    let cases = group_cases(g);
    if cases.len() < 2 {
        seq![]
    } else {
        seq![BatchView {
            activity: a,
            batch_type: classify(cases, all),
            case_ids: cases,
            start_time: Some(g[0].stamp),
            end_time: Some(g[0].stamp),
            size: cases.len() as usize,
        }]
    }
}

/// The batches of one activity, in time order.
pub open spec fn activity_batches(log: Seq<TraceView>, secs: Seq<Seq<Option<i64>>>, a: Seq<char>) -> Seq<BatchView> {
    let sorted = sort_by_time(activity_executions(log, secs, a));
    time_groups(sorted).map_values(|g: Seq<ExecutionView>| group_batch(a, g, sorted)).flatten()
}

/// The batches of every activity, activities in ascending order.
pub open spec fn all_batches(log: Seq<TraceView>, secs: Seq<Seq<Option<i64>>>) -> Seq<BatchView> {
    sorted_names(|a: Seq<char>| timed_activity(log, secs, a)).map_values(|a: Seq<char>| activity_batches(log, secs, a)).flatten()
}

/// `x` inserted after the last element of `s` that is at least as large.
pub open spec fn insert_by_size(s: Seq<BatchView>, x: BatchView) -> Seq<BatchView>
    decreases s.len(),
{
    if s.len() == 0 {
        seq![x]
    } else if s.last().size >= x.size {
        s.push(x)
    } else {
        insert_by_size(s.drop_last(), x).push(s.last())
    }
}

/// `s` sorted by size, largest first; equal sizes keep their order.
pub open spec fn sort_by_size(s: Seq<BatchView>) -> Seq<BatchView>
    decreases s.len(),
{
    if s.len() == 0 {
        s
    } else {
        insert_by_size(sort_by_size(s.drop_last()), s.last())
    }
}

/// The batches detected in a log whose event instants are `secs`.
pub open spec fn detected_batches(log: Seq<TraceView>, secs: Seq<Seq<Option<i64>>>) -> Seq<BatchView> {
    sort_by_size(all_batches(log, secs))
}

/// The executions of activity `a`, trace after trace.
fn executions_of(log: &EventLog, secs: &Vec<Vec<Option<i64>>>, a: &str) -> (res: Vec<Execution>)
    requires
        shaped_like(log@, secs.deep_view()),
    ensures
        res.deep_view() == activity_executions(log@, secs.deep_view(), a@),
{
    let ghost lv = log@;
    let ghost sv = secs.deep_view();
    let ghost per = |k: int| trace_executions(lv[k], sv[k], a@);
    let mut out: Vec<Execution> = Vec::new();
    for k in 0..log.traces.len()
        invariant
            lv == log@,
            sv == secs.deep_view(),
            shaped_like(lv, sv),
            per == (|k: int| trace_executions(lv[k], sv[k], a@)),
            out.deep_view() == Seq::new(k as nat, per).flatten(),
    {
        let t = &log.traces[k];
        let ghost tv = lv[k as int];
        let ghost ts = sv[k as int];
        let ghost each = |i: int| event_execution(tv, ts, i, a@);
        let ghost before = out.deep_view();
        proof {
            assert(tv == t.deep_view());
            assert(secs@[k as int].deep_view() == ts);
            assert(secs@.len() == sv.len());
            assert(Seq::new(0nat, each).flatten() =~= Seq::<ExecutionView>::empty());
            assert(before + Seq::new(0nat, each).flatten() =~= before);
        }
        for i in 0..t.events.len()
            invariant
                tv == t.deep_view(),
                k < secs@.len(),
                ts == secs@[k as int].deep_view(),
                ts.len() == tv.events.len(),
                secs@[k as int]@.len() == ts.len(),
                each == (|i: int| event_execution(tv, ts, i, a@)),
                out.deep_view() == before + Seq::new(i as nat, each).flatten(),
        {
            let e = &t.events[i];
            let ghost mid = out.deep_view();
            proof {
                assert(Seq::new((i + 1) as nat, each) =~= Seq::new(i as nat, each).push(each(i as int)));
                Seq::new(i as nat, each).lemma_flatten_push(each(i as int));
                assert(tv.events[i as int] == e.deep_view());
                assert(ts[i as int] == secs@[k as int]@[i as int]);
            }
            if str_eq(e.name.as_str(), a) {
                match secs[k][i] {
                    Some(sec) => {
                        let stamp = match &e.timestamp {
                            Some(st) => st.clone(),
                            None => String::new(),
                        };
                        let x = Execution { ts: sec, stamp, case_id: t.case_id.clone() };
                        proof {
                            assert(x.deep_view().stamp == match tv.events[i as int].timestamp { Some(s) => s, None => seq![] });
                            assert(each(i as int) =~= seq![x.deep_view()]);
                        }
                        out.push(x);
                        proof {
                            assert(out.deep_view() =~= mid.push(x.deep_view()));
                        }
                    },
                    None => {
                        proof {
                            assert(each(i as int) =~= Seq::<ExecutionView>::empty());
                        }
                    },
                }
            } else {
                proof {
                    assert(each(i as int) =~= Seq::<ExecutionView>::empty());
                }
            }
            proof {
                assert(out.deep_view() =~= before + Seq::new((i + 1) as nat, each).flatten());
            }
        }
        proof {
            assert(Seq::new(tv.events.len(), each) =~= Seq::new(tv.events.len(), |i: int| event_execution(tv, ts, i, a@)));
            assert(per(k as int) == Seq::new(tv.events.len(), each).flatten());
            assert(Seq::new((k + 1) as nat, per) =~= Seq::new(k as nat, per).push(per(k as int)));
            Seq::new(k as nat, per).lemma_flatten_push(per(k as int));
        }
    }
    proof {
        assert(Seq::new(lv.len(), per) =~= Seq::new(lv.len(), |k: int| trace_executions(lv[k], sv[k], a@)));
    }
    out
}

proof fn lemma_insert_by_time(s: Seq<ExecutionView>, x: ExecutionView, j: int)
    requires
        0 <= j <= s.len(),
        j == 0 || s[j - 1].ts <= x.ts,
        forall|k: int| j <= k < s.len() ==> #[trigger] s[k].ts > x.ts,
    ensures
        insert_by_time(s, x) == s.insert(j, x),
    decreases s.len(),
{
    if s.len() == 0 {
        assert(s.insert(j, x) =~= seq![x]);
    } else if j == s.len() {
        assert(s.insert(j, x) =~= s.push(x));
    } else {
        assert(s.last().ts > x.ts);
        let d = s.drop_last();
        lemma_insert_by_time(d, x, j);
        assert(d.insert(j, x).push(s.last()) =~= s.insert(j, x));
    }
}

/// Inserts `x` after the last execution that is not later than it.
fn insert_time(v: &mut Vec<Execution>, x: Execution)
    ensures
        final(v).deep_view() == insert_by_time(old(v).deep_view(), x.deep_view()),
{
    let ghost s = v.deep_view();
    let mut j = v.len();
    while j > 0 && v[j - 1].ts > x.ts
        invariant
            j <= v@.len(),
            s == v.deep_view(),
            forall|k: int| j <= k < s.len() ==> #[trigger] s[k].ts > x.ts,
        decreases j,
    {
        proof {
            assert(s[j - 1] == v@[j - 1].deep_view());
        }
        j = j - 1;
    }
    proof {
        if j > 0 {
            assert(s[j - 1] == v@[j - 1].deep_view());
        }
        lemma_insert_by_time(s, x.deep_view(), j as int);
    }
    let ghost xv = x.deep_view();
    v.insert(j, x);
    proof {
        assert(v.deep_view() =~= s.insert(j as int, xv));
    }
}

/// The executions sorted by instant, keeping the order of equal instants.
fn sort_executions(execs: &Vec<Execution>) -> (res: Vec<Execution>)
    ensures
        res.deep_view() == sort_by_time(execs.deep_view()),
{
    let ghost ev = execs.deep_view();
    let mut sorted: Vec<Execution> = Vec::new();
    for k in 0..execs.len()
        invariant
            ev == execs.deep_view(),
            sorted.deep_view() == sort_by_time(ev.take(k as int)),
    {
        proof {
            assert(ev.take(k + 1).drop_last() =~= ev.take(k as int));
            assert(ev.take(k + 1).last() == execs@[k as int].deep_view());
        }
        insert_time(&mut sorted, execs[k].clone());
    }
    proof {
        assert(ev.take(ev.len() as int) =~= ev);
    }
    sorted
}

pub proof fn lemma_time_groups_nonempty(s: Seq<ExecutionView>)
    ensures
        s.len() > 0 ==> time_groups(s).len() > 0,
        forall|i: int| 0 <= i < time_groups(s).len() ==> (#[trigger] time_groups(s)[i]).len() > 0,
    decreases s.len(),
{
    if s.len() > 0 {
        let g = time_groups(s.drop_last());
        lemma_time_groups_nonempty(s.drop_last());
        let tg = time_groups(s);
        assert forall|i: int| 0 <= i < tg.len() implies (#[trigger] tg[i]).len() > 0 by {
            if s.len() == 1 || (s.last().ts as int) - (s[s.len() - 2].ts as int) > MERGE_DISTANCE_SECS {
                assert(tg == g.push(seq![s.last()]));
                if i < g.len() {
                    assert(tg[i] == g[i]);
                }
            } else {
                assert(tg == g.update(g.len() - 1, g.last().push(s.last())));
                if i != g.len() - 1 {
                    assert(tg[i] == g[i]);
                }
            }
        }
    }
}

/// The sorted executions cut into groups, as `time_groups` does.
fn group_executions(sorted: &Vec<Execution>) -> (res: Vec<Vec<Execution>>)
    ensures
        res.deep_view() == time_groups(sorted.deep_view()),
{
    let ghost sv = sorted.deep_view();
    let mut groups: Vec<Vec<Execution>> = Vec::new();
    for k in 0..sorted.len()
        invariant
            sv == sorted.deep_view(),
            groups.deep_view() == time_groups(sv.take(k as int)),
    {
        let ghost g0 = groups.deep_view();
        let x = sorted[k].clone();
        proof {
            let t1 = sv.take(k + 1);
            assert(t1.drop_last() =~= sv.take(k as int));
            assert(t1.last() == x.deep_view());
            if k > 0 {
                assert(t1[t1.len() - 2] == sv[k - 1]);
                assert(sv[k - 1] == sorted@[k - 1].deep_view());
                lemma_time_groups_nonempty(sv.take(k as int));
                assert(g0.len() > 0);
            }
        }
        if k == 0 || (sorted[k].ts as i128) - (sorted[k - 1].ts as i128) > (MERGE_DISTANCE_SECS as i128) {
            let ghost xv = x.deep_view();
            let single = vec![x];
            proof {
                assert(single.deep_view() =~= seq![xv]);
            }
            groups.push(single);
            proof {
                assert(groups.deep_view() =~= g0.push(seq![xv]));
            }
        } else {
            let ghost xv = x.deep_view();
            let mut g = groups.pop().unwrap();
            let ghost gv = g.deep_view();
            g.push(x);
            proof {
                assert(g.deep_view() =~= gv.push(xv));
            }
            groups.push(g);
            proof {
                assert(groups.deep_view() =~= g0.update(g0.len() - 1, g0.last().push(xv)));
            }
        }
    }
    proof {
        assert(sv.take(sv.len() as int) =~= sv);
    }
    groups
}

/// The distinct cases of a group, in ascending order.
fn group_case_list(g: &Vec<Execution>) -> (res: Vec<String>)
    ensures
        res.deep_view() == group_cases(g.deep_view()),
        forall|c: Seq<char>| #[trigger] res.deep_view().contains(c) <==> exists|i: int| 0 <= i < g@.len() && #[trigger] g.deep_view()[i].case_id == c,
{
    let ghost gv = g.deep_view();
    let mut ids: Vec<String> = Vec::new();
    for k in 0..g.len()
        invariant
            gv == g.deep_view(),
            ids@.len() == k,
            forall|i: int| 0 <= i < k ==> #[trigger] ids.deep_view()[i] == gv[i].case_id,
    {
        let ghost before = ids.deep_view();
        ids.push(g[k].case_id.clone());
        proof {
            assert(gv[k as int] == g@[k as int].deep_view());
            assert forall|i: int| 0 <= i < k + 1 implies #[trigger] ids.deep_view()[i] == gv[i].case_id by {
                if i < k {
                    assert(ids.deep_view()[i] == before[i]);
                }
            }
        }
    }
    let res = sorted_unique(&ids);
    proof {
        assert forall|c: Seq<char>| #[trigger] res.deep_view().contains(c) <==> exists|i: int| 0 <= i < gv.len() && #[trigger] gv[i].case_id == c by {
            if res.deep_view().contains(c) {
                assert(ids.deep_view().contains(c));
                let i = choose|i: int| 0 <= i < ids.deep_view().len() && ids.deep_view()[i] == c;
                assert(gv[i].case_id == c);
            }
            if exists|i: int| 0 <= i < gv.len() && #[trigger] gv[i].case_id == c {
                let i = choose|i: int| 0 <= i < gv.len() && #[trigger] gv[i].case_id == c;
                assert(ids.deep_view()[i] == c);
                assert(ids.deep_view().contains(c));
            }
        }
        lemma_sorted_names(res.deep_view(), |c: Seq<char>| exists|i: int| 0 <= i < gv.len() && #[trigger] gv[i].case_id == c);
    }
    res
}

/// The kind of the batch with these cases among all executions.
fn batch_kind(cases: &Vec<String>, all: &Vec<Execution>) -> (res: BatchType)
    ensures
        res == classify(cases.deep_view(), all.deep_view()),
{
    let ghost av = all.deep_view();
    let ghost cv = cases.deep_view();
    let ghost p = |x: ExecutionView| cv.contains(x.case_id);
    let mut seen = false;
    let mut lo: i64 = 0;
    let mut hi: i64 = 0;
    let ghost mut r: Seq<ExecutionView> = Seq::empty();
    proof {
        reveal(Seq::filter);
        assert(av.take(0) =~= Seq::<ExecutionView>::empty());
        assert(av.take(0).filter(p) =~= r);
    }
    for k in 0..all.len()
        invariant
            av == all.deep_view(),
            cv == cases.deep_view(),
            p == (|x: ExecutionView| cv.contains(x.case_id)),
            r == av.take(k as int).filter(p),
            seen == (r.len() > 0),
            seen ==> exists|a: int| 0 <= a < r.len() && r[a].ts == lo,
            seen ==> exists|b: int| 0 <= b < r.len() && r[b].ts == hi,
            forall|c: int| 0 <= c < r.len() ==> lo <= #[trigger] r[c].ts <= hi,
    {
        let ghost r0 = r;
        proof {
            crate::event_log::lemma_filter_take_step(av, p, k as int);
            assert(av[k as int] == all@[k as int].deep_view());
        }
        if crate::filtering::activities::contains_string(cases.as_slice(), all[k].case_id.as_str()) {
            let t = all[k].ts;
            let ghost lo0 = lo;
            let ghost hi0 = hi;
            if !seen {
                lo = t;
                hi = t;
                seen = true;
            } else {
                if t < lo {
                    lo = t;
                }
                if t > hi {
                    hi = t;
                }
            }
            proof {
                r = r0.push(av[k as int]);
                let last = r.len() - 1;
                assert(r[last].ts == t);
                if r0.len() > 0 {
                    if t >= lo0 {
                        let a = choose|a: int| 0 <= a < r0.len() && r0[a].ts == lo0;
                        assert(r[a] == r0[a]);
                    }
                    if t <= hi0 {
                        let b = choose|b: int| 0 <= b < r0.len() && r0[b].ts == hi0;
                        assert(r[b] == r0[b]);
                    }
                }
                assert forall|c: int| 0 <= c < r.len() implies lo <= #[trigger] r[c].ts <= hi by {
                    if c < r0.len() {
                        assert(r[c] == r0[c]);
                        assert(lo0 <= r0[c].ts <= hi0);
                    }
                }
            }
        }
    }
    proof {
        assert(av.take(av.len() as int) =~= av);
    }
    if !seen || lo == hi {
        proof {
            assert forall|i: int, j: int| 0 <= i < r.len() && 0 <= j < r.len() implies #[trigger] r[i].ts == #[trigger] r[j].ts by {
                assert(lo <= r[i].ts <= hi);
                assert(lo <= r[j].ts <= hi);
            }
        }
        BatchType::Parallel
    } else {
        proof {
            let a = choose|a: int| 0 <= a < r.len() && r[a].ts == lo;
            let b = choose|b: int| 0 <= b < r.len() && r[b].ts == hi;
            assert(r[a].ts != r[b].ts);
        }
        if cases.len() >= DISRUPTIVE_THRESHOLD {
            BatchType::Disruptive
        } else {
            BatchType::Concurrent
        }
    }
}

/// The batches of activity `a`, in time order.
fn batches_for(log: &EventLog, secs: &Vec<Vec<Option<i64>>>, a: &String) -> (res: Vec<BatchInstance>)
    requires
        shaped_like(log@, secs.deep_view()),
    ensures
        res.deep_view() == activity_batches(log@, secs.deep_view(), a@),
{
    let execs = executions_of(log, secs, a.as_str());
    let sorted = sort_executions(&execs);
    let groups = group_executions(&sorted);
    let ghost sv = sorted.deep_view();
    let ghost gv = groups.deep_view();
    let ghost f = |g: Seq<ExecutionView>| group_batch(a@, g, sv);
    proof {
        lemma_time_groups_nonempty(sv);
    }
    let mut out: Vec<BatchInstance> = Vec::new();
    for j in 0..groups.len()
        invariant
            sv == sorted.deep_view(),
            gv == groups.deep_view(),
            gv == time_groups(sv),
            forall|i: int| 0 <= i < gv.len() ==> (#[trigger] gv[i]).len() > 0,
            f == (|g: Seq<ExecutionView>| group_batch(a@, g, sv)),
            out.deep_view() == gv.take(j as int).map_values(f).flatten(),
    {
        let ghost before = out.deep_view();
        proof {
            assert(gv.take(j + 1) =~= gv.take(j as int).push(gv[j as int]));
            assert(gv.take(j + 1).map_values(f) =~= gv.take(j as int).map_values(f).push(f(gv[j as int])));
            gv.take(j as int).map_values(f).lemma_flatten_push(f(gv[j as int]));
            assert(gv[j as int] == groups@[j as int].deep_view());
        }
        let cases = group_case_list(&groups[j]);
        let size = cases.len();
        if size >= 2 {
            let kind = batch_kind(&cases, &sorted);
            proof {
                assert(groups@[j as int]@.len() > 0);
                assert(gv[j as int][0] == groups@[j as int]@[0].deep_view());
            }
            let stamp = groups[j][0].stamp.clone();
            let b = BatchInstance {
                activity: a.clone(),
                batch_type: kind,
                case_ids: cases,
                start_time: Some(stamp.clone()),
                end_time: Some(stamp),
                size,
            };
            proof {
                assert(f(gv[j as int]) =~= seq![b.deep_view()]);
            }
            out.push(b);
            proof {
                assert(out.deep_view() =~= before.push(b.deep_view()));
            }
        } else {
            proof {
                assert(f(gv[j as int]) =~= Seq::<BatchView>::empty());
                assert(before + f(gv[j as int]) =~= before);
            }
        }
    }
    proof {
        assert(gv.take(gv.len() as int) =~= gv);
    }
    out
}

proof fn lemma_insert_by_size(s: Seq<BatchView>, x: BatchView, j: int)
    requires
        0 <= j <= s.len(),
        j == 0 || s[j - 1].size >= x.size,
        forall|k: int| j <= k < s.len() ==> #[trigger] s[k].size < x.size,
    ensures
        insert_by_size(s, x) == s.insert(j, x),
    decreases s.len(),
{
    if s.len() == 0 {
        assert(s.insert(j, x) =~= seq![x]);
    } else if j == s.len() {
        assert(s.insert(j, x) =~= s.push(x));
    } else {
        let d = s.drop_last();
        lemma_insert_by_size(d, x, j);
        assert(d.insert(j, x).push(s.last()) =~= s.insert(j, x));
    }
}

/// The batches sorted by size, largest first, keeping the order of equal sizes.
fn sort_batches(v: Vec<BatchInstance>) -> (res: Vec<BatchInstance>)
    ensures
        res.deep_view() == sort_by_size(v.deep_view()),
{
    let ghost vv = v.deep_view();
    let mut sorted: Vec<BatchInstance> = Vec::new();
    let mut rest = v;
    let ghost mut done: Seq<BatchView> = Seq::empty();
    while rest.len() > 0
        invariant
            vv == done + rest.deep_view(),
            sorted.deep_view() == sort_by_size(done),
        decreases rest.len(),
    {
        let ghost r0 = rest.deep_view();
        let ghost rv = rest@;
        let x = rest.remove(0);
        let ghost xv = x.deep_view();
        proof {
            assert(rest@ == rv.remove(0));
            assert(rest.deep_view() =~= r0.drop_first());
            assert(xv == r0[0]);
        }
        let ghost s = sorted.deep_view();
        let mut j = sorted.len();
        while j > 0 && sorted[j - 1].size < x.size
            invariant
                j <= sorted@.len(),
                s == sorted.deep_view(),
                xv == x.deep_view(),
                forall|k: int| j <= k < s.len() ==> #[trigger] s[k].size < xv.size,
            decreases j,
        {
            proof {
                assert(s[j - 1] == sorted@[j - 1].deep_view());
            }
            j = j - 1;
        }
        proof {
            if j > 0 {
                assert(s[j - 1] == sorted@[j - 1].deep_view());
            }
            lemma_insert_by_size(s, xv, j as int);
        }
        sorted.insert(j, x);
        proof {
            assert(sorted.deep_view() =~= s.insert(j as int, xv));
            let d0 = done;
            done = done.push(xv);
            assert(done.drop_last() =~= d0);
            assert(vv =~= done + rest.deep_view());
        }
    }
    proof {
        assert(rest.deep_view() =~= Seq::<BatchView>::empty());
        assert(vv =~= done);
    }
    sorted
}

/// The activities with at least one timed event, in ascending order.
fn timed_activities(log: &EventLog, secs: &Vec<Vec<Option<i64>>>) -> (res: Vec<String>)
    requires
        shaped_like(log@, secs.deep_view()),
    ensures
        res.deep_view() == sorted_names(|a: Seq<char>| timed_activity(log@, secs.deep_view(), a)),
{
    let ghost lv = log@;
    let ghost sv = secs.deep_view();
    let mut names: Vec<String> = Vec::new();
    for k in 0..log.traces.len()
        invariant
            lv == log@,
            sv == secs.deep_view(),
            shaped_like(lv, sv),
            forall|a: Seq<char>| #[trigger] names.deep_view().contains(a) <==> exists|t: int, i: int| 0 <= t < k && 0 <= i < lv[t].events.len()
                && #[trigger] lv[t].events[i].name == a && sv[t][i] is Some,
    {
        let t = &log.traces[k];
        proof {
            assert(lv[k as int] == t.deep_view());
            assert(secs@[k as int].deep_view() == sv[k as int]);
            assert(secs@.len() == sv.len());
        }
        for i in 0..t.events.len()
            invariant
                lv == log@,
                sv == secs.deep_view(),
                shaped_like(lv, sv),
                k < lv.len(),
                k < secs@.len(),
                lv[k as int] == t.deep_view(),
                secs@[k as int].deep_view() == sv[k as int],
                forall|a: Seq<char>| #[trigger] names.deep_view().contains(a) <==> exists|u: int, x: int|
                    ((0 <= u < k && 0 <= x < lv[u].events.len()) || (u == k && 0 <= x < i))
                    && #[trigger] lv[u].events[x].name == a && sv[u][x] is Some,
        {
            let ghost n0 = names.deep_view();
            proof {
                assert(sv[k as int].len() == lv[k as int].events.len());
                assert(secs@[k as int]@.len() == sv[k as int].len());
                assert(sv[k as int][i as int] == secs@[k as int]@[i as int]);
                assert(lv[k as int].events[i as int].name == t.events@[i as int].name@);
            }
            if secs[k][i].is_some() {
                names.push(t.events[i].name.clone());
                proof {
                    assert(names.deep_view() =~= n0.push(t.events@[i as int].name@));
                }
            }
            proof {
                let nv = names.deep_view();
                assert forall|a: Seq<char>| #[trigger] nv.contains(a) <==> exists|u: int, x: int|
                    ((0 <= u < k && 0 <= x < lv[u].events.len()) || (u == k && 0 <= x < i + 1))
                    && #[trigger] lv[u].events[x].name == a && sv[u][x] is Some by {
                    if nv.contains(a) && !n0.contains(a) {
                        let j = choose|j: int| 0 <= j < nv.len() && nv[j] == a;
                        if j < n0.len() {
                            assert(n0[j] == a);
                        }
                        assert(lv[k as int].events[i as int].name == a);
                    }
                    if n0.contains(a) {
                        let j = choose|j: int| 0 <= j < n0.len() && n0[j] == a;
                        assert(nv[j] == a);
                    }
                    if exists|u: int, x: int| ((0 <= u < k && 0 <= x < lv[u].events.len()) || (u == k && 0 <= x < i + 1))
                        && #[trigger] lv[u].events[x].name == a && sv[u][x] is Some {
                        let (u, x) = choose|u: int, x: int| ((0 <= u < k && 0 <= x < lv[u].events.len()) || (u == k && 0 <= x < i + 1))
                            && #[trigger] lv[u].events[x].name == a && sv[u][x] is Some;
                        if u == k && x == i {
                            assert(nv[nv.len() - 1] == a);
                        } else {
                            assert(n0.contains(a));
                            let j = choose|j: int| 0 <= j < n0.len() && n0[j] == a;
                            assert(nv[j] == a);
                        }
                    }
                }
            }
        }
    }
    let res = sorted_unique(&names);
    proof {
        assert forall|a: Seq<char>| #[trigger] res.deep_view().contains(a) <==> timed_activity(lv, sv, a) by {
            if res.deep_view().contains(a) {
                assert(names.deep_view().contains(a));
            }
            if timed_activity(lv, sv, a) {
                let (u, x) = choose|u: int, x: int| 0 <= u < lv.len() && 0 <= x < lv[u].events.len()
                    && #[trigger] lv[u].events[x].name == a && sv[u][x] is Some;
                assert(names.deep_view().contains(a));
            }
        }
        lemma_sorted_names(res.deep_view(), |a: Seq<char>| timed_activity(lv, sv, a));
    }
    res
}

/// Detects batches from the instant (in seconds) of each event, given
/// trace by trace; an event without an instant takes part in no batch.
/// Per activity, the executions are sorted by instant and cut wherever
/// more than `MERGE_DISTANCE_SECS` pass between two; each part with at
/// least two distinct cases is a batch. Activities come in ascending order,
/// then all batches are sorted by size, largest first.
pub fn batches_from_seconds(log: &EventLog, secs: &Vec<Vec<Option<i64>>>) -> (res: BatchDetectionResult)
    requires
        shaped_like(log@, secs.deep_view()),
    ensures
        res.batches.deep_view() == detected_batches(log@, secs.deep_view()),
        res.total_batches == res.batches@.len(),
{
    let acts = timed_activities(log, secs);
    let ghost av = acts.deep_view();
    let ghost f = |a: Seq<char>| activity_batches(log@, secs.deep_view(), a);
    let mut all: Vec<BatchInstance> = Vec::new();
    for i in 0..acts.len()
        invariant
            shaped_like(log@, secs.deep_view()),
            av == acts.deep_view(),
            f == (|a: Seq<char>| activity_batches(log@, secs.deep_view(), a)),
            all.deep_view() == av.take(i as int).map_values(f).flatten(),
    {
        let mut more = batches_for(log, secs, &acts[i]);
        let ghost before = all.deep_view();
        let ghost m = more.deep_view();
        proof {
            assert(av[i as int] == acts@[i as int]@);
            assert(av.take(i + 1) =~= av.take(i as int).push(av[i as int]));
            assert(av.take(i + 1).map_values(f) =~= av.take(i as int).map_values(f).push(f(av[i as int])));
            av.take(i as int).map_values(f).lemma_flatten_push(f(av[i as int]));
        }
        all.append(&mut more);
        proof {
            assert(all.deep_view() =~= before + m);
        }
    }
    proof {
        assert(av.take(av.len() as int) =~= av);
    }
    let batches = sort_batches(all);
    let total = batches.len();
    BatchDetectionResult { batches, total_batches: total }
}

/// Detects batch processing in a log: the instant of each event is its
/// timestamp read as RFC 3339 (in seconds); events without one that parses
/// take part in no batch.
pub fn discover_batches(log: &EventLog) -> (res: BatchDetectionResult)
    ensures
        res.batches.deep_view() == detected_batches(log@, log_seconds(log@)),
        res.total_batches == res.batches@.len(),
{
    let ghost lv = log@;
    let mut secs: Vec<Vec<Option<i64>>> = Vec::new();
    for k in 0..log.traces.len()
        invariant
            lv == log@,
            secs@.len() == k,
            forall|j: int| 0 <= j < k ==> #[trigger] secs.deep_view()[j] == log_seconds(lv)[j],
    {
        let t = &log.traces[k];
        let ghost tv = lv[k as int];
        let mut row: Vec<Option<i64>> = Vec::new();
        for i in 0..t.events.len()
            invariant
                tv == t.deep_view(),
                row@.len() == i,
                forall|x: int| 0 <= x < i ==> #[trigger] row@[x] == event_seconds(tv.events[x]),
        {
            let s = match &t.events[i].timestamp {
                Some(st) => match parse_rfc3339(st.as_str()) {
                    Some(p) => Some(p.0),
                    None => None,
                },
                None => None,
            };
            proof {
                assert(tv.events[i as int] == t.events@[i as int].deep_view());
            }
            row.push(s);
        }
        let ghost before = secs.deep_view();
        secs.push(row);
        proof {
            assert(log_seconds(lv)[k as int] =~= tv.events.map_values(|e: crate::event_log::EventView| event_seconds(e)));
            assert(secs.deep_view()[k as int] =~= log_seconds(lv)[k as int]);
            assert forall|j: int| 0 <= j < k + 1 implies #[trigger] secs.deep_view()[j] == log_seconds(lv)[j] by {
                if j < k {
                    assert(secs.deep_view()[j] == before[j]);
                }
            }
        }
    }
    proof {
        assert(secs.deep_view() =~= log_seconds(lv));
        assert forall|k: int| 0 <= k < lv.len() implies #[trigger] log_seconds(lv)[k].len() == lv[k].events.len() by {}
    }
    batches_from_seconds(log, &secs)
}

} // verus!
