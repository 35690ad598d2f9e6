//! The alpha+ miner: the alpha miner with loops of length one and two.

use vstd::prelude::*;
use crate::event_log::{EventLog, TraceView, trace_names, trace_activity_names};
use crate::discovery::dfg::{log_follows_pairs, log_start_activities, follows_pair_list};
use crate::discovery::alpha_miner::{follows, causal, dfg_activities, start_set, end_set, pairs_where, t_name, pair_places, pair_arcs, activity_transitions, boundary_arcs, contains_pair, select_pairs, transition_name, add_activity_transitions, add_boundary_arcs, add_pair_places, alpha_lists, lemma_start_end_len, empty_result, single_token};
use crate::petri_net::{PetriNet, PetriNetResult, Marking, NetView};
use crate::text::{concat, str_eq, sorted_names, lemma_sorted_names};

verus! {

/// `a` and `b` follow each other directly, both ways round.
pub open spec fn parallel(log: Seq<TraceView>, a: Seq<char>, b: Seq<char>) -> bool {
    a != b && follows(log, a, b) && follows(log, b, a)
}

/// The activities that directly follow themselves, in ascending order.
pub open spec fn loop_one_set(log: Seq<TraceView>) -> Seq<Seq<char>> {
    sorted_names(|a: Seq<char>| follows(log, a, a))
}

/// The event at `idx` repeats the activity right after it, or right before it.
pub open spec fn in_loop(names: Seq<Seq<char>>, idx: int) -> bool {
    0 < idx < names.len() && ((idx + 1 < names.len() && names[idx + 1] == names[idx]) || names[idx - 1] == names[idx])
}

/// At position `i` of a trace, `y` comes right before an event `x` that is in a loop.
pub open spec fn loop_before_at(names: Seq<Seq<char>>, i: int, x: Seq<char>, y: Seq<char>) -> bool {
    0 <= i && i + 1 < names.len() && in_loop(names, i + 1) && names[i + 1] == x && names[i] == y
}

/// At position `i` of a trace, `y` comes right after an event `x` that is in a loop.
pub open spec fn loop_after_at(names: Seq<Seq<char>>, i: int, x: Seq<char>, y: Seq<char>) -> bool {
    0 < i < names.len() && in_loop(names, i - 1) && names[i - 1] == x && names[i] == y
}

/// Some trace has `y` right before an event `x` that is in a loop.
pub open spec fn loop_before(log: Seq<TraceView>, x: Seq<char>, y: Seq<char>) -> bool {
    exists|t: int, i: int| 0 <= t < log.len() && #[trigger] loop_before_at(trace_names(log[t]), i, x, y)
}

/// Some trace has `y` right after an event `x` that is in a loop.
pub open spec fn loop_after(log: Seq<TraceView>, x: Seq<char>, y: Seq<char>) -> bool {
    exists|t: int, i: int| 0 <= t < log.len() && #[trigger] loop_after_at(trace_names(log[t]), i, x, y)
}

/// A loop of length two through `act` and `pred`.
pub open spec fn loop_two(log: Seq<TraceView>, act: Seq<char>, pred: Seq<char>) -> bool {
    loop_before(log, act, pred) && loop_after(log, pred, act)
}

/// The place of a parallel pair.
pub open spec fn parallel_place(a: Seq<char>, b: Seq<char>) -> Seq<char> {
    "p_parallel_"@ + a + "_"@ + b
}

/// The place and the transition that loop on activity `a`.
pub open spec fn loop_place(a: Seq<char>) -> Seq<char> {
    "p_loop_"@ + a
}

pub open spec fn loop_transition(a: Seq<char>) -> Seq<char> {
    "t_"@ + a + "_loop"@
}

/// The place of a loop of length two.
pub open spec fn loop_two_place(act: Seq<char>, pred: Seq<char>) -> Seq<char> {
    "p_loop2_"@ + act + "_"@ + pred
}

/// For each parallel pair, a place with arcs to and from both transitions.
pub open spec fn parallel_arcs(pairs: Seq<(Seq<char>, Seq<char>)>) -> Seq<(Seq<char>, Seq<char>)> {
    pairs.map_values(|p: (Seq<char>, Seq<char>)| seq![
        (parallel_place(p.0, p.1), t_name(p.1)),
        (parallel_place(p.0, p.1), t_name(p.0)),
        (t_name(p.0), parallel_place(p.0, p.1)),
        (t_name(p.1), parallel_place(p.0, p.1)),
    ]).flatten()
}

/// For each self-looping activity, its loop place between its own
/// transition and its loop transition, both ways.
pub open spec fn loop_arcs(acts: Seq<Seq<char>>) -> Seq<(Seq<char>, Seq<char>)> {
    acts.map_values(|a: Seq<char>| seq![
        (loop_place(a), loop_transition(a)),
        (loop_transition(a), loop_place(a)),
        (t_name(a), loop_place(a)),
        (loop_place(a), t_name(a)),
    ]).flatten()
}

/// For each loop of length two, arcs from `act`'s transition through its place to `pred`'s.
pub open spec fn loop_two_arcs(pairs: Seq<(Seq<char>, Seq<char>)>) -> Seq<(Seq<char>, Seq<char>)> {
    pairs.map_values(|p: (Seq<char>, Seq<char>)| seq![
        (loop_two_place(p.0, p.1), t_name(p.1)),
        (t_name(p.0), loop_two_place(p.0, p.1)),
    ]).flatten()
}

/// The net the alpha+ miner builds for a log with at least one non-empty trace.
pub open spec fn alpha_plus_net(log: Seq<TraceView>) -> NetView {
    let acts = dfg_activities(log);
    let causal_pairs = pairs_where(acts, |a: Seq<char>, b: Seq<char>| causal(log, a, b));
    let parallel_pairs = pairs_where(acts, |a: Seq<char>, b: Seq<char>| parallel(log, a, b));
    let loops = loop_one_set(log);
    let loops_two = pairs_where(acts, |a: Seq<char>, b: Seq<char>| loop_two(log, a, b));
    NetView {
        places: seq!["p_start"@, "p_end"@] + pair_places(causal_pairs)
            + parallel_pairs.map_values(|p: (Seq<char>, Seq<char>)| parallel_place(p.0, p.1))
            + loops.map_values(|a: Seq<char>| loop_place(a))
            + loops_two.map_values(|p: (Seq<char>, Seq<char>)| loop_two_place(p.0, p.1)),
        transitions: activity_transitions(acts) + loops.map_values(|a: Seq<char>| (loop_transition(a), Some(a + "_loop"@))),
        arcs: boundary_arcs(start_set(log), end_set(log)) + pair_arcs(causal_pairs) + parallel_arcs(parallel_pairs)
            + loop_arcs(loops) + loop_two_arcs(loops_two),
    }
}

/// Whether the event at `idx` repeats the activity right after or right before it.
fn is_in_loop(names: &Vec<String>, idx: usize) -> (res: bool)
    ensures
        res == in_loop(names.deep_view(), idx as int),
{
    let n = names.len();
    if idx == 0 || idx >= n {
        return false;
    }
    if idx + 1 < n && str_eq(names[idx + 1].as_str(), names[idx].as_str()) {
        return true;
    }
    str_eq(names[idx - 1].as_str(), names[idx].as_str())
}

/// `loop_before_at` (`before`) or `loop_after_at`.
pub open spec fn loop_pair_at(names: Seq<Seq<char>>, before: bool, i: int, x: Seq<char>, y: Seq<char>) -> bool {
    if before { loop_before_at(names, i, x, y) } else { loop_after_at(names, i, x, y) }
}

/// The (x, y) pairs of a trace where `y` comes right before (`before`) or
/// right after an event `x` that is in a loop.
fn trace_loop_pairs(names: &Vec<String>, before: bool) -> (res: Vec<(String, String)>)
    ensures
        forall|x: Seq<char>, y: Seq<char>| #[trigger] res.deep_view().contains((x, y)) <==>
            exists|i: int| #[trigger] loop_pair_at(names.deep_view(), before, i, x, y),
{
    let ghost nv = names.deep_view();
    let mut out: Vec<(String, String)> = Vec::new();
    let n = names.len();
    for i in 0..n
        invariant
            n == names@.len(),
            nv == names.deep_view(),
            forall|x: Seq<char>, y: Seq<char>| #[trigger] out.deep_view().contains((x, y)) <==>
                exists|k: int| 0 <= k < i && #[trigger] loop_pair_at(nv, before, k, x, y),
    {
        let ghost o = out.deep_view();
        let hit = if before { i + 1 < n && is_in_loop(names, i + 1) } else { i > 0 && is_in_loop(names, i - 1) };
        let ghost pair_i: (Seq<char>, Seq<char>) = if before {
            (nv[i + 1], nv[i as int])
        } else {
            (nv[i - 1], nv[i as int])
        };
        if hit {
            let pair = if before {
                (names[i + 1].clone(), names[i].clone())
            } else {
                (names[i - 1].clone(), names[i].clone())
            };
            out.push(pair);
            proof {
                assert(out.deep_view() =~= o.push(pair_i));
            }
        }
        proof {
            let now = out.deep_view();
            assert forall|x: Seq<char>, y: Seq<char>| #[trigger] now.contains((x, y)) <==>
                exists|k: int| 0 <= k < i + 1 && #[trigger] loop_pair_at(nv, before, k, x, y) by {
                let at_i = loop_pair_at(nv, before, i as int, x, y);
                assert(at_i <==> hit && (x, y) == pair_i);
                if hit {
                    if now.contains((x, y)) && !o.contains((x, y)) {
                        let j = choose|j: int| 0 <= j < now.len() && now[j] == (x, y);
                        if j < o.len() {
                            assert(o[j] == (x, y));
                        }
                    }
                    if o.contains((x, y)) {
                        let j = choose|j: int| 0 <= j < o.len() && o[j] == (x, y);
                        assert(now[j] == (x, y));
                    }
                    if at_i {
                        assert(now[now.len() - 1] == (x, y));
                    }
                }
                if exists|k: int| 0 <= k < i + 1 && #[trigger] loop_pair_at(nv, before, k, x, y) {
                    let k = choose|k: int| 0 <= k < i + 1 && #[trigger] loop_pair_at(nv, before, k, x, y);
                    if k < i {
                        assert(o.contains((x, y)));
                    }
                }
            }
        }
    }
    proof {
        assert forall|x: Seq<char>, y: Seq<char>| #[trigger] out.deep_view().contains((x, y)) <==>
            exists|k: int| #[trigger] loop_pair_at(nv, before, k, x, y) by {
            if exists|k: int| #[trigger] loop_pair_at(nv, before, k, x, y) {
                let k = choose|k: int| #[trigger] loop_pair_at(nv, before, k, x, y);
                assert(0 <= k < n);
            }
        }
    }
    out
}

/// The (x, y) pairs of the log with `loop_before` (`before`) or `loop_after`.
fn log_loop_pairs(log: &EventLog, before: bool) -> (res: Vec<(String, String)>)
    ensures
        forall|x: Seq<char>, y: Seq<char>| #[trigger] res.deep_view().contains((x, y)) <==>
            if before { loop_before(log@, x, y) } else { loop_after(log@, x, y) },
{
    let ghost lv = log@;
    let mut out: Vec<(String, String)> = Vec::new();
    for k in 0..log.traces.len()
        invariant
            lv == log@,
            forall|x: Seq<char>, y: Seq<char>| #[trigger] out.deep_view().contains((x, y)) <==>
                exists|t: int, i: int| 0 <= t < k && #[trigger] loop_pair_at(trace_names(lv[t]), before, i, x, y),
    {
        let names = trace_activity_names(&log.traces[k]);
        proof {
            assert(log.traces@[k as int].deep_view() == lv[k as int]);
        }
        let mut more = trace_loop_pairs(&names, before);
        let ghost o = out.deep_view();
        let ghost m = more.deep_view();
        out.append(&mut more);
        proof {
            let now = out.deep_view();
            assert(now =~= o + m);
            assert forall|x: Seq<char>, y: Seq<char>| #[trigger] now.contains((x, y)) <==>
                exists|t: int, i: int| 0 <= t < k + 1 && #[trigger] loop_pair_at(trace_names(lv[t]), before, i, x, y) by {
                if now.contains((x, y)) {
                    let j = choose|j: int| 0 <= j < now.len() && now[j] == (x, y);
                    if j < o.len() {
                        assert(o[j] == (x, y));
                        assert(o.contains((x, y)));
                    } else {
                        assert(m[j - o.len()] == (x, y));
                        assert(m.contains((x, y)));
                        let i = choose|i: int| #[trigger] loop_pair_at(names.deep_view(), before, i, x, y);
                        assert(loop_pair_at(trace_names(lv[k as int]), before, i, x, y));
                    }
                }
                if exists|t: int, i: int| 0 <= t < k + 1 && #[trigger] loop_pair_at(trace_names(lv[t]), before, i, x, y) {
                    let (t, i) = choose|t: int, i: int| 0 <= t < k + 1 && #[trigger] loop_pair_at(trace_names(lv[t]), before, i, x, y);
                    if t < k {
                        assert(o.contains((x, y)));
                        let j = choose|j: int| 0 <= j < o.len() && o[j] == (x, y);
                        assert(now[j] == (x, y));
                    } else {
                        assert(loop_pair_at(names.deep_view(), before, i, x, y));
                        assert(m.contains((x, y)));
                        let j = choose|j: int| 0 <= j < m.len() && m[j] == (x, y);
                        assert(now[o.len() + j] == (x, y));
                    }
                }
            }
        }
    }
    proof {
        assert forall|x: Seq<char>, y: Seq<char>| #[trigger] out.deep_view().contains((x, y)) <==>
            if before { loop_before(lv, x, y) } else { loop_after(lv, x, y) } by {
            if out.deep_view().contains((x, y)) {
                let (t, i) = choose|t: int, i: int| 0 <= t < lv.len() && #[trigger] loop_pair_at(trace_names(lv[t]), before, i, x, y);
                if before {
                    assert(loop_before_at(trace_names(lv[t]), i, x, y));
                } else {
                    assert(loop_after_at(trace_names(lv[t]), i, x, y));
                }
            }
            if before && loop_before(lv, x, y) {
                let (t, i) = choose|t: int, i: int| 0 <= t < lv.len() && #[trigger] loop_before_at(trace_names(lv[t]), i, x, y);
                assert(loop_pair_at(trace_names(lv[t]), before, i, x, y));
            }
            if !before && loop_after(lv, x, y) {
                let (t, i) = choose|t: int, i: int| 0 <= t < lv.len() && #[trigger] loop_after_at(trace_names(lv[t]), i, x, y);
                assert(loop_pair_at(trace_names(lv[t]), before, i, x, y));
            }
        }
    }
    out
}

/// For each pair of activities, whether they follow each other both ways.
fn parallel_flags(acts: &Vec<String>, pairs: &Vec<(String, String)>, Ghost(log): Ghost<Seq<TraceView>>) -> (res: Vec<Vec<bool>>)
    requires
        pairs.deep_view() == log_follows_pairs(log),
    ensures
        res@.len() == acts@.len(),
        forall|i: int| 0 <= i < res@.len() ==> (#[trigger] res@[i])@.len() == acts@.len(),
        forall|i: int, j: int| 0 <= i < acts@.len() && 0 <= j < acts@.len() ==> res@[i]@[j] == parallel(log, #[trigger] acts@[i]@, #[trigger] acts@[j]@),
{
    let mut out: Vec<Vec<bool>> = Vec::new();
    for i in 0..acts.len()
        invariant
            pairs.deep_view() == log_follows_pairs(log),
            out@.len() == i,
            forall|x: int| 0 <= x < i ==> (#[trigger] out@[x])@.len() == acts@.len(),
            forall|x: int, j: int| 0 <= x < i && 0 <= j < acts@.len() ==> out@[x]@[j] == parallel(log, #[trigger] acts@[x]@, #[trigger] acts@[j]@),
    {
        let mut row: Vec<bool> = Vec::new();
        for j in 0..acts.len()
            invariant
                pairs.deep_view() == log_follows_pairs(log),
                i < acts@.len(),
                row@.len() == j,
                forall|y: int| 0 <= y < j ==> row@[y] == parallel(log, acts@[i as int]@, #[trigger] acts@[y]@),
        {
            let a = acts[i].as_str();
            let b = acts[j].as_str();
            let c = !str_eq(a, b) && contains_pair(pairs, a, b) && contains_pair(pairs, b, a);
            row.push(c);
        }
        out.push(row);
    }
    out
}

/// For each pair of activities, whether they form a loop of length two.
fn loop_two_flags(
    acts: &Vec<String>,
    before: &Vec<(String, String)>,
    after: &Vec<(String, String)>,
    Ghost(log): Ghost<Seq<TraceView>>,
) -> (res: Vec<Vec<bool>>)
    requires
        forall|x: Seq<char>, y: Seq<char>| #[trigger] before.deep_view().contains((x, y)) <==> loop_before(log, x, y),
        forall|x: Seq<char>, y: Seq<char>| #[trigger] after.deep_view().contains((x, y)) <==> loop_after(log, x, y),
    ensures
        res@.len() == acts@.len(),
        forall|i: int| 0 <= i < res@.len() ==> (#[trigger] res@[i])@.len() == acts@.len(),
        forall|i: int, j: int| 0 <= i < acts@.len() && 0 <= j < acts@.len() ==> res@[i]@[j] == loop_two(log, #[trigger] acts@[i]@, #[trigger] acts@[j]@),
{
    let mut out: Vec<Vec<bool>> = Vec::new();
    for i in 0..acts.len()
        invariant
            forall|x: Seq<char>, y: Seq<char>| #[trigger] before.deep_view().contains((x, y)) <==> loop_before(log, x, y),
            forall|x: Seq<char>, y: Seq<char>| #[trigger] after.deep_view().contains((x, y)) <==> loop_after(log, x, y),
            out@.len() == i,
            forall|x: int| 0 <= x < i ==> (#[trigger] out@[x])@.len() == acts@.len(),
            forall|x: int, j: int| 0 <= x < i && 0 <= j < acts@.len() ==> out@[x]@[j] == loop_two(log, #[trigger] acts@[x]@, #[trigger] acts@[j]@),
    {
        let mut row: Vec<bool> = Vec::new();
        for j in 0..acts.len()
            invariant
                forall|x: Seq<char>, y: Seq<char>| #[trigger] before.deep_view().contains((x, y)) <==> loop_before(log, x, y),
                forall|x: Seq<char>, y: Seq<char>| #[trigger] after.deep_view().contains((x, y)) <==> loop_after(log, x, y),
                i < acts@.len(),
                row@.len() == j,
                forall|y: int| 0 <= y < j ==> row@[y] == loop_two(log, acts@[i as int]@, #[trigger] acts@[y]@),
        {
            let a = acts[i].as_str();
            let b = acts[j].as_str();
            let c = contains_pair(before, a, b) && contains_pair(after, b, a);
            row.push(c);
        }
        out.push(row);
    }
    out
}

/// The activities that directly follow themselves, in ascending order.
fn self_loops(pairs: &Vec<(String, String)>, Ghost(log): Ghost<Seq<TraceView>>) -> (res: Vec<String>)
    requires
        pairs.deep_view() == log_follows_pairs(log),
    ensures
        res.deep_view() == loop_one_set(log),
{
    let ghost pv = pairs.deep_view();
    let mut own: Vec<String> = Vec::new();
    for k in 0..pairs.len()
        invariant
            pv == pairs.deep_view(),
            forall|x: Seq<char>| #[trigger] own.deep_view().contains(x) <==> exists|j: int| 0 <= j < k && #[trigger] pv[j] == (x, x),
    {
        let ghost o = own.deep_view();
        if str_eq(pairs[k].0.as_str(), pairs[k].1.as_str()) {
            own.push(pairs[k].0.clone());
            proof {
                assert(own.deep_view() =~= o.push(pv[k as int].0));
            }
        }
        proof {
            assert forall|x: Seq<char>| #[trigger] own.deep_view().contains(x) <==> exists|j: int| 0 <= j < k + 1 && #[trigger] pv[j] == (x, x) by {
                let now = own.deep_view();
                if now.contains(x) {
                    let i = choose|i: int| 0 <= i < now.len() && now[i] == x;
                    if i < o.len() {
                        assert(o[i] == x);
                        assert(o.contains(x));
                    } else {
                        assert(pv[k as int] == (x, x));
                    }
                }
                if exists|j: int| 0 <= j < k + 1 && #[trigger] pv[j] == (x, x) {
                    let j = choose|j: int| 0 <= j < k + 1 && #[trigger] pv[j] == (x, x);
                    if j < k {
                        assert(o.contains(x));
                        let i = choose|i: int| 0 <= i < o.len() && o[i] == x;
                        assert(now[i] == x);
                    } else {
                        assert(now[now.len() - 1] == x);
                    }
                }
            }
        }
    }
    let res = crate::text::sorted_unique(&own);
    proof {
        assert forall|x: Seq<char>| #[trigger] res.deep_view().contains(x) <==> follows(log, x, x) by {
            if follows(log, x, x) {
                let j = choose|j: int| 0 <= j < pv.len() && pv[j] == (x, x);
                assert(own.deep_view().contains(x));
            }
            if own.deep_view().contains(x) {
                let j = choose|j: int| 0 <= j < pv.len() && #[trigger] pv[j] == (x, x);
                assert(pv.contains((x, x)));
            }
        }
        lemma_sorted_names(res.deep_view(), |a: Seq<char>| follows(log, a, a));
    }
    res
}

/// `prefix` + `a` + "_" + `b`.
fn joined_name(prefix: &str, a: &str, b: &str) -> (res: String)
    ensures
        res@ == prefix@ + a@ + "_"@ + b@,
{
    let sep = "_";
    proof {
        reveal_strlit("_");
    }
    let x = concat(prefix, a);
    let y = concat(x.as_str(), sep);
    concat(y.as_str(), b)
}

/// Adds the place of each parallel pair with its four arcs.
fn add_parallel_places(net: &mut PetriNet, pairs: &Vec<(String, String)>)
    ensures
        final(net).name@ == old(net).name@,
        old(net).unit_arcs() ==> final(net).unit_arcs(),
        final(net)@ == (NetView {
            places: old(net)@.places + pairs.deep_view().map_values(|p: (Seq<char>, Seq<char>)| parallel_place(p.0, p.1)),
            transitions: old(net)@.transitions,
            arcs: old(net)@.arcs + parallel_arcs(pairs.deep_view()),
        }),
{
    let ghost n0 = net@;
    let ghost pv = pairs.deep_view();
    let ghost pl = |p: (Seq<char>, Seq<char>)| parallel_place(p.0, p.1);
    let ghost arcs_of = |p: (Seq<char>, Seq<char>)| seq![
        (parallel_place(p.0, p.1), t_name(p.1)),
        (parallel_place(p.0, p.1), t_name(p.0)),
        (t_name(p.0), parallel_place(p.0, p.1)),
        (t_name(p.1), parallel_place(p.0, p.1)),
    ];
    let prefix = "p_parallel_";
    proof {
        reveal_strlit("p_parallel_");
    }
    for k in 0..pairs.len()
        invariant
            pv == pairs.deep_view(),
            prefix@ == "p_parallel_"@,
            pl == (|p: (Seq<char>, Seq<char>)| parallel_place(p.0, p.1)),
            arcs_of == (|p: (Seq<char>, Seq<char>)| seq![
                (parallel_place(p.0, p.1), t_name(p.1)),
                (parallel_place(p.0, p.1), t_name(p.0)),
                (t_name(p.0), parallel_place(p.0, p.1)),
                (t_name(p.1), parallel_place(p.0, p.1)),
            ]),
            net.name@ == old(net).name@,
            old(net).unit_arcs() ==> net.unit_arcs(),
            net@ == (NetView {
                places: n0.places + pv.take(k as int).map_values(pl),
                transitions: n0.transitions,
                arcs: n0.arcs + pv.take(k as int).map_values(arcs_of).flatten(),
            }),
    {
        let a = pairs[k].0.as_str();
        let b = pairs[k].1.as_str();
        let place = joined_name(prefix, a, b);
        let ta = transition_name(a);
        let tb = transition_name(b);
        net.add_place(place.as_str());
        net.add_arc(place.as_str(), tb.as_str());
        net.add_arc(place.as_str(), ta.as_str());
        net.add_arc(ta.as_str(), place.as_str());
        net.add_arc(tb.as_str(), place.as_str());
        proof {
            let p = pv[k as int];
            assert(p == (a@, b@));
            let done = pv.take(k as int);
            assert(pv.take(k + 1) =~= done.push(p));
            assert(done.push(p).map_values(pl) =~= done.map_values(pl).push(pl(p)));
            assert(done.push(p).map_values(arcs_of) =~= done.map_values(arcs_of).push(arcs_of(p)));
            done.map_values(arcs_of).lemma_flatten_push(arcs_of(p));
            assert(net@.places =~= n0.places + pv.take(k + 1).map_values(pl));
            assert(net@.arcs =~= n0.arcs + pv.take(k + 1).map_values(arcs_of).flatten());
        }
    }
    proof {
        assert(pv.take(pv.len() as int) =~= pv);
    }
}

/// Adds the place of each loop of length two with its two arcs.
fn add_loop_two_places(net: &mut PetriNet, pairs: &Vec<(String, String)>)
    ensures
        final(net).name@ == old(net).name@,
        old(net).unit_arcs() ==> final(net).unit_arcs(),
        final(net)@ == (NetView {
            places: old(net)@.places + pairs.deep_view().map_values(|p: (Seq<char>, Seq<char>)| loop_two_place(p.0, p.1)),
            transitions: old(net)@.transitions,
            arcs: old(net)@.arcs + loop_two_arcs(pairs.deep_view()),
        }),
{
    let ghost n0 = net@;
    let ghost pv = pairs.deep_view();
    let ghost pl = |p: (Seq<char>, Seq<char>)| loop_two_place(p.0, p.1);
    let ghost arcs_of = |p: (Seq<char>, Seq<char>)| seq![
        (loop_two_place(p.0, p.1), t_name(p.1)),
        (t_name(p.0), loop_two_place(p.0, p.1)),
    ];
    let prefix = "p_loop2_";
    proof {
        reveal_strlit("p_loop2_");
    }
    for k in 0..pairs.len()
        invariant
            pv == pairs.deep_view(),
            prefix@ == "p_loop2_"@,
            pl == (|p: (Seq<char>, Seq<char>)| loop_two_place(p.0, p.1)),
            arcs_of == (|p: (Seq<char>, Seq<char>)| seq![
                (loop_two_place(p.0, p.1), t_name(p.1)),
                (t_name(p.0), loop_two_place(p.0, p.1)),
            ]),
            net.name@ == old(net).name@,
            old(net).unit_arcs() ==> net.unit_arcs(),
            net@ == (NetView {
                places: n0.places + pv.take(k as int).map_values(pl),
                transitions: n0.transitions,
                arcs: n0.arcs + pv.take(k as int).map_values(arcs_of).flatten(),
            }),
    {
        let a = pairs[k].0.as_str();
        let b = pairs[k].1.as_str();
        let place = joined_name(prefix, a, b);
        let ta = transition_name(a);
        let tb = transition_name(b);
        net.add_place(place.as_str());
        net.add_arc(place.as_str(), tb.as_str());
        net.add_arc(ta.as_str(), place.as_str());
        proof {
            let p = pv[k as int];
            assert(p == (a@, b@));
            let done = pv.take(k as int);
            assert(pv.take(k + 1) =~= done.push(p));
            assert(done.push(p).map_values(pl) =~= done.map_values(pl).push(pl(p)));
            assert(done.push(p).map_values(arcs_of) =~= done.map_values(arcs_of).push(arcs_of(p)));
            done.map_values(arcs_of).lemma_flatten_push(arcs_of(p));
            assert(net@.places =~= n0.places + pv.take(k + 1).map_values(pl));
            assert(net@.arcs =~= n0.arcs + pv.take(k + 1).map_values(arcs_of).flatten());
        }
    }
    proof {
        assert(pv.take(pv.len() as int) =~= pv);
    }
}

/// Adds, for each self-looping activity, its loop transition and loop
/// place with their four arcs, and puts a token on the loop place.
fn add_loops(net: &mut PetriNet, marking: &mut Marking, loops: &Vec<String>)
    requires
        old(marking).wf(),
    ensures
        final(net).name@ == old(net).name@,
        old(net).unit_arcs() ==> final(net).unit_arcs(),
        final(net)@ == (NetView {
            places: old(net)@.places + loops.deep_view().map_values(|a: Seq<char>| loop_place(a)),
            transitions: old(net)@.transitions + loops.deep_view().map_values(|a: Seq<char>| (loop_transition(a), Some(a + "_loop"@))),
            arcs: old(net)@.arcs + loop_arcs(loops.deep_view()),
        }),
        final(marking).wf(),
        forall|q: Seq<char>| #[trigger] final(marking).get_spec(q) == if exists|a: Seq<char>| loops.deep_view().contains(a) && q == loop_place(a) {
            Some(1u32)
        } else {
            old(marking).get_spec(q)
        },
{
    let ghost n0 = net@;
    let ghost m0 = *marking;
    let ghost lv = loops.deep_view();
    let ghost pl = |a: Seq<char>| loop_place(a);
    let ghost tl = |a: Seq<char>| (loop_transition(a), Some(a + "_loop"@));
    let ghost arcs_of = |a: Seq<char>| seq![
        (loop_place(a), loop_transition(a)),
        (loop_transition(a), loop_place(a)),
        (t_name(a), loop_place(a)),
        (loop_place(a), t_name(a)),
    ];
    let place_prefix = "p_loop_";
    let trans_prefix = "t_";
    let suffix = "_loop";
    proof {
        reveal_strlit("p_loop_");
        reveal_strlit("t_");
        reveal_strlit("_loop");
    }
    for k in 0..loops.len()
        invariant
            lv == loops.deep_view(),
            place_prefix@ == "p_loop_"@,
            trans_prefix@ == "t_"@,
            suffix@ == "_loop"@,
            pl == (|a: Seq<char>| loop_place(a)),
            tl == (|a: Seq<char>| (loop_transition(a), Some(a + "_loop"@))),
            arcs_of == (|a: Seq<char>| seq![
                (loop_place(a), loop_transition(a)),
                (loop_transition(a), loop_place(a)),
                (t_name(a), loop_place(a)),
                (loop_place(a), t_name(a)),
            ]),
            net.name@ == old(net).name@,
            old(net).unit_arcs() ==> net.unit_arcs(),
            net@ == (NetView {
                places: n0.places + lv.take(k as int).map_values(pl),
                transitions: n0.transitions + lv.take(k as int).map_values(tl),
                arcs: n0.arcs + lv.take(k as int).map_values(arcs_of).flatten(),
            }),
            marking.wf(),
            forall|q: Seq<char>| #[trigger] marking.get_spec(q) == if exists|a: Seq<char>| lv.take(k as int).contains(a) && q == loop_place(a) {
                Some(1u32)
            } else {
                m0.get_spec(q)
            },
    {
        let a = loops[k].as_str();
        let place = concat(place_prefix, a);
        let t0 = concat(trans_prefix, a);
        let trans = concat(t0.as_str(), suffix);
        let label = concat(a, suffix);
        net.add_transition(trans.as_str(), Some(label));
        net.add_place(place.as_str());
        let ta = transition_name(a);
        net.add_arc(place.as_str(), trans.as_str());
        net.add_arc(trans.as_str(), place.as_str());
        net.add_arc(ta.as_str(), place.as_str());
        net.add_arc(place.as_str(), ta.as_str());
        let ghost mk = *marking;
        marking.insert(place, 1);
        proof {
            let x = lv[k as int];
            assert(x == a@);
            let done = lv.take(k as int);
            assert(lv.take(k + 1) =~= done.push(x));
            assert(done.push(x).map_values(pl) =~= done.map_values(pl).push(pl(x)));
            assert(done.push(x).map_values(tl) =~= done.map_values(tl).push(tl(x)));
            assert(done.push(x).map_values(arcs_of) =~= done.map_values(arcs_of).push(arcs_of(x)));
            done.map_values(arcs_of).lemma_flatten_push(arcs_of(x));
            assert(net@.places =~= n0.places + lv.take(k + 1).map_values(pl));
            assert(net@.transitions =~= n0.transitions + lv.take(k + 1).map_values(tl));
            assert(net@.arcs =~= n0.arcs + lv.take(k + 1).map_values(arcs_of).flatten());
            assert forall|q: Seq<char>| #[trigger] marking.get_spec(q) == if exists|b: Seq<char>| lv.take(k + 1).contains(b) && q == loop_place(b) {
                Some(1u32)
            } else {
                m0.get_spec(q)
            } by {
                if exists|b: Seq<char>| lv.take(k + 1).contains(b) && q == loop_place(b) {
                    let b = choose|b: Seq<char>| lv.take(k + 1).contains(b) && q == loop_place(b);
                    if q != loop_place(x) {
                        let t1 = lv.take(k + 1);
                        let j = choose|j: int| 0 <= j < t1.len() && t1[j] == b;
                        if j == k {
                            assert(b == x);
                        }
                        assert(done[j] == b);
                        assert(done.contains(b));
                    }
                } else {
                    assert(lv.take(k + 1)[k as int] == x);
                    assert(q != loop_place(x));
                    if exists|b: Seq<char>| done.contains(b) && q == loop_place(b) {
                        let b = choose|b: Seq<char>| done.contains(b) && q == loop_place(b);
                        let j = choose|j: int| 0 <= j < done.len() && done[j] == b;
                        let t1 = lv.take(k + 1);
                        assert(t1[j] == b);
                        assert(t1.contains(b));
                    }
                }
            }
        }
    }
    proof {
        assert(lv.take(lv.len() as int) =~= lv);
    }
}

/// The initial marking of the alpha+ net: a token on "p_start" and on the
/// loop place of each self-looping activity.
pub open spec fn alpha_plus_initial(log: Seq<TraceView>, q: Seq<char>) -> Option<u32> {
    if q == "p_start"@ || exists|a: Seq<char>| loop_one_set(log).contains(a) && q == loop_place(a) {
        Some(1u32)
    } else {
        None
    }
}

/// Discovers a Petri net with the alpha+ miner: the alpha miner's net,
/// plus a place "p_parallel_<a>_<b>" for each pair of activities that
/// follow each other both ways, a loop transition "t_<a>_loop" (label
/// "<a>_loop") with a marked place "p_loop_<a>" for each activity that
/// follows itself, and a place "p_loop2_<a>_<b>" for each loop of length
/// two. Activities and pairs come in ascending order. A log without events
/// gives an empty net named "alpha_plus_empty".
pub fn alpha_plus_miner(log: &EventLog) -> (res: PetriNetResult)
    ensures
        res.net.unit_arcs(),
        log_start_activities(log@).len() == 0 ==> {
            &&& res.net.name@ == "alpha_plus_empty"@
            &&& res.net@.places.len() == 0
            &&& res.net@.transitions.len() == 0
            &&& res.net@.arcs.len() == 0
            &&& res.initial_marking.wf() && res.final_marking.wf()
            &&& forall|p: Seq<char>| #[trigger] res.initial_marking.get_spec(p) is None && res.final_marking.get_spec(p) is None
        },
        log_start_activities(log@).len() > 0 ==> {
            &&& res.net.name@ == "alpha_plus"@
            &&& res.net@ == alpha_plus_net(log@)
            &&& res.initial_marking.wf()
            &&& forall|q: Seq<char>| #[trigger] res.initial_marking.get_spec(q) == alpha_plus_initial(log@, q)
            &&& single_token(res.final_marking, "p_end"@)
        },
{
    let pairs = follows_pair_list(log);
    let (acts, starts, ends) = alpha_lists(log, &pairs);
    proof {
        let lv = log@;
        lemma_start_end_len(lv);
        if log_start_activities(lv).len() > 0 {
            assert(log_start_activities(lv).contains(log_start_activities(lv)[0]));
            assert(starts.deep_view().contains(log_start_activities(lv)[0]));
            assert(crate::discovery::dfg::log_end_activities(lv).contains(crate::discovery::dfg::log_end_activities(lv)[0]));
            assert(ends.deep_view().contains(crate::discovery::dfg::log_end_activities(lv)[0]));
        } else {
            if starts.deep_view().len() > 0 {
                assert(starts.deep_view().contains(starts.deep_view()[0]));
            }
        }
    }
    if starts.len() == 0 || ends.len() == 0 {
        let name = "alpha_plus_empty";
        proof {
            reveal_strlit("alpha_plus_empty");
        }
        return empty_result(name);
    }
    let ghost lv = log@;
    let before = log_loop_pairs(log, true);
    let after = log_loop_pairs(log, false);
    let loops = self_loops(&pairs, Ghost(lv));
    let causal_flags = crate::discovery::alpha_miner::causal_flag_matrix(&acts, &pairs, Ghost(lv));
    let causal_pairs = select_pairs(&acts, &causal_flags, Ghost(|a: Seq<char>, b: Seq<char>| causal(lv, a, b)));
    let par_flags = parallel_flags(&acts, &pairs, Ghost(lv));
    let par_pairs = select_pairs(&acts, &par_flags, Ghost(|a: Seq<char>, b: Seq<char>| parallel(lv, a, b)));
    let two_flags = loop_two_flags(&acts, &before, &after, Ghost(lv));
    let two_pairs = select_pairs(&acts, &two_flags, Ghost(|a: Seq<char>, b: Seq<char>| loop_two(lv, a, b)));
    let name = "alpha_plus";
    let start = "p_start";
    let end = "p_end";
    proof {
        reveal_strlit("alpha_plus");
        reveal_strlit("p_start");
        reveal_strlit("p_end");
    }
    let mut net = PetriNet::new(name);
    add_activity_transitions(&mut net, &acts);
    net.add_place(start);
    net.add_place(end);
    add_boundary_arcs(&mut net, &starts, &ends);
    add_pair_places(&mut net, &causal_pairs);
    add_parallel_places(&mut net, &par_pairs);
    let mut initial = Marking::new();
    initial.insert(start.to_string(), 1);
    let ghost m1 = initial;
    add_loops(&mut net, &mut initial, &loops);
    add_loop_two_places(&mut net, &two_pairs);
    proof {
        let target = alpha_plus_net(lv);
        assert(net@.places =~= target.places);
        assert(net@.transitions =~= target.transitions);
        assert(net@.arcs =~= target.arcs);
        assert forall|q: Seq<char>| #[trigger] initial.get_spec(q) == alpha_plus_initial(lv, q) by {
            assert(m1.get_spec(q) == if q == "p_start"@ { Some(1u32) } else { None });
        }
    }
    PetriNetResult { net, initial_marking: initial, final_marking: crate::discovery::alpha_miner::single_token_marking(end) }
}

} // verus!
