//! Directly-follows and eventually-follows graphs.

use vstd::prelude::*;
use crate::event_log::{EventLog, TraceView, trace_names, trace_activity_names};
use crate::counting::{count_keys_descending, is_count_table, counts_descending, lemma_count_table_rekey, seq_count};

verus! {

/// The items that `per` picks out of each trace, trace after trace.
pub open spec fn log_items<A>(log: Seq<TraceView>, per: spec_fn(TraceView) -> Seq<A>) -> Seq<A> {
    log.map_values(per).flatten()
}

pub proof fn lemma_log_items_push<A>(log: Seq<TraceView>, t: TraceView, per: spec_fn(TraceView) -> Seq<A>)
    ensures
        log_items(log.push(t), per) == log_items(log, per) + per(t),
{
    assert(log.push(t).map_values(per) =~= log.map_values(per).push(per(t)));
    log.map_values(per).lemma_flatten_push(per(t));
}

pub proof fn lemma_log_items_map<A, B>(
    log: Seq<TraceView>,
    per: spec_fn(TraceView) -> Seq<A>,
    per2: spec_fn(TraceView) -> Seq<B>,
    f: spec_fn(A) -> B,
)
    requires
        forall|t: TraceView| #[trigger] per2(t) == per(t).map_values(f),
    ensures
        log_items(log, per2) == log_items(log, per).map_values(f),
    decreases log.len(),
{
    if log.len() == 0 {
        assert(log.map_values(per2) =~= Seq::<Seq<B>>::empty());
        assert(log.map_values(per) =~= Seq::<Seq<A>>::empty());
        assert(log_items(log, per2) =~= Seq::<B>::empty());
        assert(log_items(log, per).map_values(f) =~= Seq::<B>::empty());
    } else {
        let s = log.drop_last();
        assert(log =~= s.push(log.last()));
        lemma_log_items_map(s, per, per2, f);
        lemma_log_items_push(s, log.last(), per);
        lemma_log_items_push(s, log.last(), per2);
        assert((log_items(s, per) + per(log.last())).map_values(f) =~= log_items(s, per).map_values(f)
            + per(log.last()).map_values(f));
    }
}

/// A name as a counting key.
pub open spec fn one_key(n: Seq<char>) -> Seq<Seq<char>> {
    seq![n]
}

/// A pair of names as a counting key.
pub open spec fn pair_key(p: (Seq<char>, Seq<char>)) -> Seq<Seq<char>> {
    seq![p.0, p.1]
}

/// Each name paired with the one right after it.
pub open spec fn follows_pairs(names: Seq<Seq<char>>) -> Seq<(Seq<char>, Seq<char>)> {
    Seq::new(
        if names.len() == 0 { 0nat } else { (names.len() - 1) as nat },
        |i: int| (names[i], names[i + 1]),
    )
}

/// The pairs `(names[i], names[j])` with `i < j < names.len()` whose `i` is below `rows`,
/// ordered by `i`, then `j`.
pub open spec fn later_pairs(names: Seq<Seq<char>>, rows: int) -> Seq<(Seq<char>, Seq<char>)>
    decreases rows,
{
    if rows <= 0 {
        Seq::empty()
    } else {
        later_pairs(names, rows - 1) + Seq::new(
            if rows <= names.len() { (names.len() - rows) as nat } else { 0nat },
            |j: int| (names[rows - 1], names[rows + j]),
        )
    }
}

/// Each name paired with every name that comes later in the sequence.
pub open spec fn eventually_pairs(names: Seq<Seq<char>>) -> Seq<(Seq<char>, Seq<char>)> {
    later_pairs(names, names.len() as int)
}

/// The first activity of a trace, if it has events.
pub open spec fn first_activity(t: TraceView) -> Seq<Seq<char>> {
    if t.events.len() == 0 { seq![] } else { seq![t.events[0].name] }
}

/// The last activity of a trace, if it has events.
pub open spec fn last_activity(t: TraceView) -> Seq<Seq<char>> {
    if t.events.len() == 0 { seq![] } else { seq![t.events.last().name] }
}

/// Every event's activity, trace after trace.
pub open spec fn log_activity_occurrences(log: Seq<TraceView>) -> Seq<Seq<char>> {
    log_items(log, |t: TraceView| trace_names(t))
}

/// Every directly-follows pair, trace after trace.
pub open spec fn log_follows_pairs(log: Seq<TraceView>) -> Seq<(Seq<char>, Seq<char>)> {
    log_items(log, |t: TraceView| follows_pairs(trace_names(t)))
}

/// Every eventually-follows pair, trace after trace.
pub open spec fn log_eventually_pairs(log: Seq<TraceView>) -> Seq<(Seq<char>, Seq<char>)> {
    log_items(log, |t: TraceView| eventually_pairs(trace_names(t)))
}

/// The first activity of every non-empty trace.
pub open spec fn log_start_activities(log: Seq<TraceView>) -> Seq<Seq<char>> {
    log_items(log, |t: TraceView| first_activity(t))
}

/// The last activity of every non-empty trace.
pub open spec fn log_end_activities(log: Seq<TraceView>) -> Seq<Seq<char>> {
    log_items(log, |t: TraceView| last_activity(t))
}

/// An edge of a directly- or eventually-follows graph.
#[derive(Debug)]
pub struct DFGEdge {
    pub source: String,
    pub target: String,
    pub count: usize,
}

impl DeepView for DFGEdge {
    type V = ((Seq<char>, Seq<char>), usize);

    open spec fn deep_view(&self) -> ((Seq<char>, Seq<char>), usize) {
        ((self.source@, self.target@), self.count)
    }
}

/// A directly-follows graph with start, end and activity frequencies.
#[derive(Debug)]
pub struct DFGResult {
    /// Edges with the number of times the target directly follows the source.
    pub edges: Vec<DFGEdge>,
    /// How many traces start with each activity.
    pub start_activities: Vec<(String, usize)>,
    /// How many traces end with each activity.
    pub end_activities: Vec<(String, usize)>,
    /// How many events carry each activity.
    pub activities: Vec<(String, usize)>,
}

/// Single-name keys, one per name.
fn one_keys(names: &Vec<String>) -> (res: Vec<Vec<String>>)
    ensures
        res.deep_view() == names.deep_view().map_values(|n: Seq<char>| one_key(n)),
{
    let mut out: Vec<Vec<String>> = Vec::new();
    for k in 0..names.len()
        invariant
            out@.len() == k,
            forall|j: int| 0 <= j < k ==> #[trigger] out@[j].deep_view() == one_key(names@[j]@),
    {
        let v = vec![names[k].clone()];
        proof {
            assert(v.deep_view() =~= one_key(names@[k as int]@));
        }
        out.push(v);
    }
    proof {
        assert(out.deep_view() =~= names.deep_view().map_values(|n: Seq<char>| one_key(n)));
    }
    out
}

/// Pair keys for each name and its direct successor.
fn follows_keys(names: &Vec<String>) -> (res: Vec<Vec<String>>)
    ensures
        res.deep_view() == follows_pairs(names.deep_view()).map_values(|p: (Seq<char>, Seq<char>)| pair_key(p)),
{
    let mut out: Vec<Vec<String>> = Vec::new();
    let n = names.len();
    if n == 0 {
        proof {
            assert(out.deep_view() =~= follows_pairs(names.deep_view()).map_values(|p: (Seq<char>, Seq<char>)| pair_key(p)));
        }
        return out;
    }
    for k in 0..n - 1
        invariant
            n == names@.len(),
            n > 0,
            out@.len() == k,
            forall|j: int| 0 <= j < k ==> #[trigger] out@[j].deep_view() == pair_key((names@[j]@, names@[j + 1]@)),
    {
        let v = vec![names[k].clone(), names[k + 1].clone()];
        proof {
            assert(v.deep_view() =~= pair_key((names@[k as int]@, names@[k + 1]@)));
        }
        out.push(v);
    }
    proof {
        assert(out.deep_view() =~= follows_pairs(names.deep_view()).map_values(|p: (Seq<char>, Seq<char>)| pair_key(p)));
    }
    out
}

/// Pair keys for each name and every later name.
fn eventually_keys(names: &Vec<String>) -> (res: Vec<Vec<String>>)
    ensures
        res.deep_view() == eventually_pairs(names.deep_view()).map_values(|p: (Seq<char>, Seq<char>)| pair_key(p)),
{
    let ghost nv = names.deep_view();
    let mut out: Vec<Vec<String>> = Vec::new();
    let n = names.len();
    for i in 0..n
        invariant
            n == names@.len(),
            nv == names.deep_view(),
            out.deep_view() == later_pairs(nv, i as int).map_values(|p: (Seq<char>, Seq<char>)| pair_key(p)),
    {
        let ghost before = out.deep_view();
        for j in i + 1..n
            invariant
                n == names@.len(),
                nv == names.deep_view(),
                i < n,
                out@.len() == before.len() + (j - i - 1),
                forall|x: int| 0 <= x < before.len() ==> #[trigger] out.deep_view()[x] == before[x],
                forall|x: int| 0 <= x < j - i - 1 ==> #[trigger] out.deep_view()[before.len() + x] == pair_key((nv[i as int], nv[i + 1 + x])),
        {
            let v = vec![names[i].clone(), names[j].clone()];
            proof {
                assert(v.deep_view() =~= pair_key((nv[i as int], nv[j as int])));
            }
            let ghost mid = out.deep_view();
            out.push(v);
            proof {
                assert(out.deep_view() =~= mid.push(v.deep_view()));
                assert forall|x: int| 0 <= x < before.len() implies #[trigger] out.deep_view()[x] == before[x] by {
                    assert(out.deep_view()[x] == mid[x]);
                }
                assert forall|x: int| 0 <= x < j + 1 - i - 1 implies #[trigger] out.deep_view()[before.len() + x] == pair_key((nv[i as int], nv[i + 1 + x])) by {
                    if x < j - i - 1 {
                        assert(out.deep_view()[before.len() + x] == mid[before.len() + x]);
                    }
                }
            }
        }
        proof {
            let row = Seq::new((n - i - 1) as nat, |j: int| (nv[i as int], nv[i + 1 + j]));
            assert(later_pairs(nv, i + 1) == later_pairs(nv, i as int) + row);
            assert(out@.len() == before.len() + row.len());
            let target = later_pairs(nv, i + 1).map_values(|p: (Seq<char>, Seq<char>)| pair_key(p));
            assert(before.len() == later_pairs(nv, i as int).len());
            assert forall|y: int| 0 <= y < out@.len() implies #[trigger] out.deep_view()[y] == target[y] by {
                if y < before.len() {
                    assert(out.deep_view()[y] == before[y]);
                } else {
                    let x = y - before.len();
                    assert(out.deep_view()[before.len() + x] == pair_key((nv[i as int], nv[i + 1 + x])));
                    assert(later_pairs(nv, i + 1)[y] == row[x]);
                }
            }
            assert(out.deep_view() =~= later_pairs(nv, i + 1).map_values(|p: (Seq<char>, Seq<char>)| pair_key(p)));
        }
    }
    out
}

/// Turns a count table over single-name keys into one over names.
fn single_name_table(items: &Vec<Vec<String>>, Ghost(names): Ghost<Seq<Seq<char>>>) -> (res: Vec<(String, usize)>)
    requires
        items.deep_view() == names.map_values(|n: Seq<char>| one_key(n)),
    ensures
        is_count_table(res.deep_view(), names),
        counts_descending(res.deep_view()),
{
    let table = count_keys_descending(items);
    let ghost td = table.deep_view();
    let ghost iv = items.deep_view();
    proof {
        assert forall|x: int| 0 <= x < td.len() implies (#[trigger] td[x]).0.len() == 1 by {
            assert(td[x].0 == td[x].0);
            assert(iv.contains(td[x].0));
            let y = choose|y: int| 0 <= y < iv.len() && iv[y] == td[x].0;
            assert(iv[y] == one_key(names[y]));
        }
    }
    let mut out: Vec<(String, usize)> = Vec::new();
    for i in 0..table.len()
        invariant
            td == table.deep_view(),
            forall|x: int| 0 <= x < td.len() ==> (#[trigger] td[x]).0.len() == 1,
            out@.len() == i,
            forall|j: int| 0 <= j < i ==> #[trigger] out.deep_view()[j] == (td[j].0[0], td[j].1),
    {
        proof {
            assert(td[i as int].0.len() == 1);
        }
        let name = table[i].0[0].clone();
        let ghost before = out.deep_view();
        out.push((name, table[i].1));
        proof {
            assert forall|j: int| 0 <= j < i + 1 implies #[trigger] out.deep_view()[j] == (td[j].0[0], td[j].1) by {
                if j < i {
                    assert(out.deep_view()[j] == before[j]);
                }
            }
        }
    }
    proof {
        let f = |n: Seq<char>| one_key(n);
        let g = |s: Seq<Seq<char>>| s[0];
        assert forall|a: Seq<char>, b: Seq<char>| #[trigger] f(a) == #[trigger] f(b) implies a == b by {
            assert(f(a)[0] == a);
            assert(f(b)[0] == b);
        }
        assert forall|a: Seq<char>| #[trigger] g(f(a)) == a by {
            assert(f(a)[0] == a);
        }
        lemma_count_table_rekey(td, names, f, g);
        assert(out.deep_view() =~= td.map_values(|p: (Seq<Seq<char>>, usize)| (g(p.0), p.1)));
    }
    out
}

/// Turns a count table over pair keys into graph edges.
fn pair_table(items: &Vec<Vec<String>>, Ghost(pairs): Ghost<Seq<(Seq<char>, Seq<char>)>>) -> (res: Vec<DFGEdge>)
    requires
        items.deep_view() == pairs.map_values(|p: (Seq<char>, Seq<char>)| pair_key(p)),
    ensures
        is_count_table(res.deep_view(), pairs),
        counts_descending(res.deep_view()),
{
    let table = count_keys_descending(items);
    let ghost td = table.deep_view();
    let ghost iv = items.deep_view();
    proof {
        assert forall|x: int| 0 <= x < td.len() implies (#[trigger] td[x]).0.len() == 2 by {
            assert(td[x].0 == td[x].0);
            assert(iv.contains(td[x].0));
            let y = choose|y: int| 0 <= y < iv.len() && iv[y] == td[x].0;
            assert(iv[y] == pair_key(pairs[y]));
        }
    }
    let mut out: Vec<DFGEdge> = Vec::new();
    for i in 0..table.len()
        invariant
            td == table.deep_view(),
            forall|x: int| 0 <= x < td.len() ==> (#[trigger] td[x]).0.len() == 2,
            out@.len() == i,
            forall|j: int| 0 <= j < i ==> #[trigger] out.deep_view()[j] == ((td[j].0[0], td[j].0[1]), td[j].1),
    {
        proof {
            assert(td[i as int].0.len() == 2);
        }
        let source = table[i].0[0].clone();
        let target = table[i].0[1].clone();
        let ghost before = out.deep_view();
        out.push(DFGEdge { source, target, count: table[i].1 });
        proof {
            assert forall|j: int| 0 <= j < i + 1 implies #[trigger] out.deep_view()[j] == ((td[j].0[0], td[j].0[1]), td[j].1) by {
                if j < i {
                    assert(out.deep_view()[j] == before[j]);
                }
            }
        }
    }
    proof {
        let f = |p: (Seq<char>, Seq<char>)| pair_key(p);
        let g = |s: Seq<Seq<char>>| (s[0], s[1]);
        assert forall|a: (Seq<char>, Seq<char>), b: (Seq<char>, Seq<char>)| #[trigger] f(a) == #[trigger] f(b) implies a == b by {
            assert(f(a)[0] == a.0 && f(a)[1] == a.1);
            assert(f(b)[0] == b.0 && f(b)[1] == b.1);
        }
        assert forall|a: (Seq<char>, Seq<char>)| #[trigger] g(f(a)) == a by {
            assert(f(a)[0] == a.0 && f(a)[1] == a.1);
        }
        lemma_count_table_rekey(td, pairs, f, g);
        assert(out.deep_view() =~= td.map_values(|p: (Seq<Seq<char>>, usize)| (g(p.0), p.1)));
    }
    out
}

/// Appends `more` to `items`.
fn append_keys(items: &mut Vec<Vec<String>>, more: Vec<Vec<String>>)
    ensures
        final(items).deep_view() == old(items).deep_view() + more.deep_view(),
{
    let ghost m = more.deep_view();
    let mut more = more;
    items.append(&mut more);
    proof {
        assert(items.deep_view() =~= old(items).deep_view() + m);
    }
}

/// Discovers the directly-follows graph of a log: how often each activity
/// directly follows another, and how often each activity starts a trace,
/// ends a trace and occurs at all. Each list is ordered by non-increasing
/// count.
pub fn discover_dfg(log: &EventLog) -> (res: DFGResult)
    ensures
        is_count_table(res.edges.deep_view(), log_follows_pairs(log@)),
        counts_descending(res.edges.deep_view()),
        is_count_table(res.start_activities.deep_view(), log_start_activities(log@)),
        counts_descending(res.start_activities.deep_view()),
        is_count_table(res.end_activities.deep_view(), log_end_activities(log@)),
        counts_descending(res.end_activities.deep_view()),
        is_count_table(res.activities.deep_view(), log_activity_occurrences(log@)),
        counts_descending(res.activities.deep_view()),
{
    let ghost lv = log@;
    let mut acts: Vec<Vec<String>> = Vec::new();
    let mut pairs: Vec<Vec<String>> = Vec::new();
    let mut starts: Vec<Vec<String>> = Vec::new();
    let mut ends: Vec<Vec<String>> = Vec::new();
    for k in 0..log.traces.len()
        invariant
            lv == log@,
            acts.deep_view() == log_items(lv.take(k as int), |t: TraceView| trace_names(t).map_values(|n: Seq<char>| one_key(n))),
            pairs.deep_view() == log_items(lv.take(k as int), |t: TraceView| follows_pairs(trace_names(t)).map_values(|p: (Seq<char>, Seq<char>)| pair_key(p))),
            starts.deep_view() == log_items(lv.take(k as int), |t: TraceView| first_activity(t).map_values(|n: Seq<char>| one_key(n))),
            ends.deep_view() == log_items(lv.take(k as int), |t: TraceView| last_activity(t).map_values(|n: Seq<char>| one_key(n))),
    {
        let ghost tv = lv[k as int];
        proof {
            assert(lv.take(k + 1) =~= lv.take(k as int).push(tv));
            lemma_log_items_push(lv.take(k as int), tv, |t: TraceView| trace_names(t).map_values(|n: Seq<char>| one_key(n)));
            lemma_log_items_push(lv.take(k as int), tv, |t: TraceView| follows_pairs(trace_names(t)).map_values(|p: (Seq<char>, Seq<char>)| pair_key(p)));
            lemma_log_items_push(lv.take(k as int), tv, |t: TraceView| first_activity(t).map_values(|n: Seq<char>| one_key(n)));
            lemma_log_items_push(lv.take(k as int), tv, |t: TraceView| last_activity(t).map_values(|n: Seq<char>| one_key(n)));
        }
        let names = trace_activity_names(&log.traces[k]);
        proof {
            assert(log.traces@[k as int].deep_view() == tv);
            assert(names.deep_view() == trace_names(tv));
        }
        append_keys(&mut acts, one_keys(&names));
        append_keys(&mut pairs, follows_keys(&names));
        let n = names.len();
        if n > 0 {
            let first = vec![names[0].clone()];
            let last = vec![names[n - 1].clone()];
            proof {
                assert(names.deep_view()[0] == tv.events[0].name);
                assert(names.deep_view()[n - 1] == tv.events.last().name);
                assert(first.deep_view() =~= one_key(tv.events[0].name));
                assert(last.deep_view() =~= one_key(tv.events.last().name));
            }
            append_keys(&mut starts, vec![first]);
            append_keys(&mut ends, vec![last]);
            proof {
                assert(first_activity(tv).map_values(|n: Seq<char>| one_key(n)) =~= seq![one_key(tv.events[0].name)]);
                assert(last_activity(tv).map_values(|n: Seq<char>| one_key(n)) =~= seq![one_key(tv.events.last().name)]);
            }
        } else {
            proof {
                assert(first_activity(tv).map_values(|n: Seq<char>| one_key(n)) =~= Seq::<Seq<Seq<char>>>::empty());
                assert(last_activity(tv).map_values(|n: Seq<char>| one_key(n)) =~= Seq::<Seq<Seq<char>>>::empty());
            }
        }
    }
    proof {
        assert(lv.take(lv.len() as int) =~= lv);
        lemma_log_items_map(lv, |t: TraceView| trace_names(t), |t: TraceView| trace_names(t).map_values(|n: Seq<char>| one_key(n)), |n: Seq<char>| one_key(n));
        lemma_log_items_map(lv, |t: TraceView| follows_pairs(trace_names(t)), |t: TraceView| follows_pairs(trace_names(t)).map_values(|p: (Seq<char>, Seq<char>)| pair_key(p)), |p: (Seq<char>, Seq<char>)| pair_key(p));
        lemma_log_items_map(lv, |t: TraceView| first_activity(t), |t: TraceView| first_activity(t).map_values(|n: Seq<char>| one_key(n)), |n: Seq<char>| one_key(n));
        lemma_log_items_map(lv, |t: TraceView| last_activity(t), |t: TraceView| last_activity(t).map_values(|n: Seq<char>| one_key(n)), |n: Seq<char>| one_key(n));
    }
    let edges = pair_table(&pairs, Ghost(log_follows_pairs(lv)));
    let start_activities = single_name_table(&starts, Ghost(log_start_activities(lv)));
    let end_activities = single_name_table(&ends, Ghost(log_end_activities(lv)));
    let activities = single_name_table(&acts, Ghost(log_activity_occurrences(lv)));
    DFGResult { edges, start_activities, end_activities, activities }
}

/// Discovers the eventually-follows graph of a log: for each pair of
/// activities, how often the second occurs anywhere after the first within
/// a trace. Edges are ordered by non-increasing count.
pub fn discover_eventually_follows_graph(log: &EventLog) -> (res: Vec<DFGEdge>)
    ensures
        is_count_table(res.deep_view(), log_eventually_pairs(log@)),
        counts_descending(res.deep_view()),
{
    let ghost lv = log@;
    let mut pairs: Vec<Vec<String>> = Vec::new();
    for k in 0..log.traces.len()
        invariant
            lv == log@,
            pairs.deep_view() == log_items(lv.take(k as int), |t: TraceView| eventually_pairs(trace_names(t)).map_values(|p: (Seq<char>, Seq<char>)| pair_key(p))),
    {
        proof {
            assert(lv.take(k + 1) =~= lv.take(k as int).push(lv[k as int]));
            lemma_log_items_push(lv.take(k as int), lv[k as int], |t: TraceView| eventually_pairs(trace_names(t)).map_values(|p: (Seq<char>, Seq<char>)| pair_key(p)));
        }
        let names = trace_activity_names(&log.traces[k]);
        append_keys(&mut pairs, eventually_keys(&names));
    }
    proof {
        assert(lv.take(lv.len() as int) =~= lv);
        lemma_log_items_map(lv, |t: TraceView| eventually_pairs(trace_names(t)), |t: TraceView| eventually_pairs(trace_names(t)).map_values(|p: (Seq<char>, Seq<char>)| pair_key(p)), |p: (Seq<char>, Seq<char>)| pair_key(p));
    }
    pair_table(&pairs, Ghost(log_eventually_pairs(lv)))
}

/// `table` counts the occurrences in `items` as `count_keys` does, each
/// count narrowed to `u32` (wrapping when it does not fit).
pub open spec fn is_u32_count_table<K>(table: Seq<(K, u32)>, items: Seq<K>) -> bool {
    &&& forall|a: int, b: int| 0 <= a < b < table.len() ==> #[trigger] table[a].0 != #[trigger] table[b].0
    &&& forall|k: K| #[trigger] items.contains(k) <==> exists|x: int| 0 <= x < table.len() && #[trigger] table[x].0 == k
    &&& forall|x: int| 0 <= x < table.len() ==> #[trigger] table[x].1 == (seq_count(items, table[x].0) as u32)
}

/// The keys of `table` come in order of non-increasing number of occurrences in `items`.
pub open spec fn keys_by_count_desc<K, C>(table: Seq<(K, C)>, items: Seq<K>) -> bool {
    forall|a: int, b: int| 0 <= a < b < table.len() ==> seq_count(items, #[trigger] table[a].0) >= seq_count(items, #[trigger] table[b].0)
}

/// A count table with each count narrowed to `u32`.
pub open spec fn narrowed<K>(table: Seq<(K, usize)>) -> Seq<(K, u32)> {
    table.map_values(|p: (K, usize)| (p.0, p.1 as u32))
}

/// A graph given as triples, read as a table keyed by (source, target).
pub open spec fn graph_table(g: Seq<(Seq<char>, Seq<char>, u32)>) -> Seq<((Seq<char>, Seq<char>), u32)> {
    g.map_values(|t: (Seq<char>, Seq<char>, u32)| ((t.0, t.1), t.2))
}

pub proof fn lemma_narrowed_table<K>(table: Seq<(K, usize)>, items: Seq<K>)
    requires
        is_count_table(table, items),
        counts_descending(table),
    ensures
        is_u32_count_table(narrowed(table), items),
        keys_by_count_desc(narrowed(table), items),
{
    let n = narrowed(table);
    assert forall|a: int, b: int| 0 <= a < b < n.len() implies #[trigger] n[a].0 != #[trigger] n[b].0 by {
        assert(n[a].0 == table[a].0 && n[b].0 == table[b].0);
    }
    assert forall|k: K| #[trigger] items.contains(k) <==> exists|x: int| 0 <= x < n.len() && #[trigger] n[x].0 == k by {
        if items.contains(k) {
            let x = choose|x: int| 0 <= x < table.len() && #[trigger] table[x].0 == k;
            assert(n[x].0 == k);
        }
        if exists|x: int| 0 <= x < n.len() && #[trigger] n[x].0 == k {
            let x = choose|x: int| 0 <= x < n.len() && #[trigger] n[x].0 == k;
            assert(table[x].0 == k);
        }
    }
    assert forall|x: int| 0 <= x < n.len() implies #[trigger] n[x].1 == (seq_count(items, n[x].0) as u32) by {
        assert(table[x].1 == seq_count(items, table[x].0));
    }
    assert forall|a: int, b: int| 0 <= a < b < n.len() implies seq_count(items, #[trigger] n[a].0) >= seq_count(items, #[trigger] n[b].0) by {
        assert(table[a].1 >= table[b].1);
        assert(table[a].1 == seq_count(items, table[a].0));
        assert(table[b].1 == seq_count(items, table[b].0));
    }
}

/// A directly-follows graph with `u32` frequencies.
#[derive(Debug)]
pub struct DFGTyped {
    /// (source, target, frequency) triples.
    pub graph: Vec<(String, String, u32)>,
    /// (activity, frequency) pairs for the first activities of traces.
    pub start_activities: Vec<(String, u32)>,
    /// (activity, frequency) pairs for the last activities of traces.
    pub end_activities: Vec<(String, u32)>,
    /// (activity, frequency) pairs for all events.
    pub activities: Vec<(String, u32)>,
}

fn narrow_counts(t: Vec<(String, usize)>) -> (res: Vec<(String, u32)>)
    ensures
        res.deep_view() == narrowed(t.deep_view()),
{
    let mut out: Vec<(String, u32)> = Vec::new();
    for i in 0..t.len()
        invariant
            out@.len() == i,
            forall|j: int| 0 <= j < i ==> #[trigger] out.deep_view()[j] == (t.deep_view()[j].0, t.deep_view()[j].1 as u32),
    {
        let ghost before = out.deep_view();
        out.push((t[i].0.clone(), t[i].1 as u32));
        proof {
            assert forall|j: int| 0 <= j < i + 1 implies #[trigger] out.deep_view()[j] == (t.deep_view()[j].0, t.deep_view()[j].1 as u32) by {
                if j < i {
                    assert(out.deep_view()[j] == before[j]);
                }
            }
        }
    }
    proof {
        assert(out.deep_view() =~= narrowed(t.deep_view()));
    }
    out
}

/// The directly-follows graph of `discover_dfg` with frequencies as `u32`
/// (a frequency above `u32::MAX` wraps). Each list keeps the order of
/// non-increasing frequency.
pub fn discover_dfg_typed(log: &EventLog) -> (res: DFGTyped)
    ensures
        is_u32_count_table(graph_table(res.graph.deep_view()), log_follows_pairs(log@)),
        keys_by_count_desc(graph_table(res.graph.deep_view()), log_follows_pairs(log@)),
        is_u32_count_table(res.start_activities.deep_view(), log_start_activities(log@)),
        keys_by_count_desc(res.start_activities.deep_view(), log_start_activities(log@)),
        is_u32_count_table(res.end_activities.deep_view(), log_end_activities(log@)),
        keys_by_count_desc(res.end_activities.deep_view(), log_end_activities(log@)),
        is_u32_count_table(res.activities.deep_view(), log_activity_occurrences(log@)),
        keys_by_count_desc(res.activities.deep_view(), log_activity_occurrences(log@)),
{
    let dfg = discover_dfg(log);
    let ghost ed = dfg.edges.deep_view();
    let mut graph: Vec<(String, String, u32)> = Vec::new();
    for i in 0..dfg.edges.len()
        invariant
            ed == dfg.edges.deep_view(),
            graph@.len() == i,
            forall|j: int| 0 <= j < i ==> #[trigger] graph_table(graph.deep_view())[j] == (ed[j].0, ed[j].1 as u32),
    {
        let e = &dfg.edges[i];
        let ghost before = graph.deep_view();
        let c: u32 = e.count as u32;
        assert(c == e.count as u32);
        graph.push((e.source.clone(), e.target.clone(), c));
        proof {
            assert forall|j: int| 0 <= j < i + 1 implies #[trigger] graph_table(graph.deep_view())[j] == (ed[j].0, ed[j].1 as u32) by {
                if j < i {
                    assert(graph_table(before)[j] == (ed[j].0, ed[j].1 as u32));
                    assert(graph.deep_view()[j] == before[j]);
                } else {
                    assert(ed[j] == e.deep_view());
                    assert(graph@[j].0@ == e.source@);
                    assert(graph@[j].2 == e.count as u32);
                    assert(graph.deep_view()[j] == graph@[j].deep_view());
                    assert(graph.deep_view()[j] == (e.source@, e.target@, e.count as u32));
                }
                assert(graph_table(graph.deep_view())[j] == ((graph.deep_view()[j].0, graph.deep_view()[j].1), graph.deep_view()[j].2));
            }
        }
    }
    proof {
        assert(graph_table(graph.deep_view()) =~= narrowed(ed));
        lemma_narrowed_table(ed, log_follows_pairs(log@));
        lemma_narrowed_table(dfg.start_activities.deep_view(), log_start_activities(log@));
        lemma_narrowed_table(dfg.end_activities.deep_view(), log_end_activities(log@));
        lemma_narrowed_table(dfg.activities.deep_view(), log_activity_occurrences(log@));
    }
    DFGTyped {
        graph,
        start_activities: narrow_counts(dfg.start_activities),
        end_activities: narrow_counts(dfg.end_activities),
        activities: narrow_counts(dfg.activities),
    }
}

/// Each activity paired with the one right after it.
fn follows_of(names: &Vec<String>) -> (res: Vec<(String, String)>)
    ensures
        res.deep_view() == follows_pairs(names.deep_view()),
{
    let mut out: Vec<(String, String)> = Vec::new();
    let n = names.len();
    if n == 0 {
        proof {
            assert(out.deep_view() =~= follows_pairs(names.deep_view()));
        }
        return out;
    }
    for k in 0..n - 1
        invariant
            n == names@.len(),
            n > 0,
            out@.len() == k,
            forall|j: int| 0 <= j < k ==> #[trigger] out.deep_view()[j] == (names@[j]@, names@[j + 1]@),
    {
        let ghost before = out.deep_view();
        out.push((names[k].clone(), names[k + 1].clone()));
        proof {
            assert forall|j: int| 0 <= j < k + 1 implies #[trigger] out.deep_view()[j] == (names@[j]@, names@[j + 1]@) by {
                if j < k {
                    assert(out.deep_view()[j] == before[j]);
                }
            }
        }
    }
    proof {
        assert(out.deep_view() =~= follows_pairs(names.deep_view()));
    }
    out
}

/// Every directly-follows pair of the log, trace after trace.
pub fn follows_pair_list(log: &EventLog) -> (res: Vec<(String, String)>)
    ensures
        res.deep_view() == log_follows_pairs(log@),
{
    let ghost lv = log@;
    let mut out: Vec<(String, String)> = Vec::new();
    for k in 0..log.traces.len()
        invariant
            lv == log@,
            out.deep_view() == log_follows_pairs(lv.take(k as int)),
    {
        proof {
            assert(lv.take(k + 1) =~= lv.take(k as int).push(lv[k as int]));
            lemma_log_items_push(lv.take(k as int), lv[k as int], |t: TraceView| follows_pairs(trace_names(t)));
            assert(log.traces@[k as int].deep_view() == lv[k as int]);
        }
        let names = trace_activity_names(&log.traces[k]);
        let mut more = follows_of(&names);
        let ghost m = more.deep_view();
        let ghost before = out.deep_view();
        out.append(&mut more);
        proof {
            assert(out.deep_view() =~= before + m);
        }
    }
    proof {
        assert(lv.take(lv.len() as int) =~= lv);
    }
    out
}

/// The first (`first`) or last activity of every non-empty trace, trace after trace.
pub fn boundary_activities(log: &EventLog, first: bool) -> (res: Vec<String>)
    ensures
        res.deep_view() == if first { log_start_activities(log@) } else { log_end_activities(log@) },
{
    let ghost lv = log@;
    let ghost per = if first { |t: TraceView| first_activity(t) } else { |t: TraceView| last_activity(t) };
    let mut out: Vec<String> = Vec::new();
    for k in 0..log.traces.len()
        invariant
            lv == log@,
            per == if first { |t: TraceView| first_activity(t) } else { |t: TraceView| last_activity(t) },
            out.deep_view() == log_items(lv.take(k as int), per),
    {
        let ghost tv = lv[k as int];
        proof {
            assert(lv.take(k + 1) =~= lv.take(k as int).push(tv));
            lemma_log_items_push(lv.take(k as int), tv, per);
            assert(log.traces@[k as int].deep_view() == tv);
        }
        let events = &log.traces[k].events;
        let n = events.len();
        if n > 0 {
            let name = if first { events[0].name.clone() } else { events[n - 1].name.clone() };
            let ghost before = out.deep_view();
            out.push(name);
            proof {
                assert(per(tv) =~= seq![name@]);
                assert(out.deep_view() =~= before + per(tv));
            }
        } else {
            proof {
                assert(per(tv) =~= Seq::<Seq<char>>::empty());
                assert(out.deep_view() =~= out.deep_view() + per(tv));
            }
        }
    }
    proof {
        assert(lv.take(lv.len() as int) =~= lv);
    }
    out
}

} // verus!
