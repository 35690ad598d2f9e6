//! The alpha miner: a Petri net from the ordering relations of a log.

use vstd::prelude::*;
use crate::event_log::{log_has_activity, EventLog};
use crate::discovery::dfg::{log_follows_pairs, log_start_activities, log_end_activities, follows_pair_list, boundary_activities};
use crate::petri_net::{PetriNet, PetriNetResult, Marking, NetView};
use crate::text::{concat, strictly_sorted, sorted_names, sorted_unique, lemma_sorted_names, str_eq};

verus! {

/// `b` directly follows `a` somewhere in the log.
pub open spec fn follows(log: Seq<crate::event_log::TraceView>, a: Seq<char>, b: Seq<char>) -> bool {
    log_follows_pairs(log).contains((a, b))
}

/// `a` takes part in some directly-follows pair.
pub open spec fn in_dfg(log: Seq<crate::event_log::TraceView>, a: Seq<char>) -> bool {
    exists|b: Seq<char>| follows(log, a, b) || follows(log, b, a)
}

/// `a` causes `b`: `b` follows `a` directly, never the other way round.
pub open spec fn causal(log: Seq<crate::event_log::TraceView>, a: Seq<char>, b: Seq<char>) -> bool {
    a != b && follows(log, a, b) && !follows(log, b, a)
}

/// The activities of the directly-follows graph, in ascending order.
pub open spec fn dfg_activities(log: Seq<crate::event_log::TraceView>) -> Seq<Seq<char>> {
    sorted_names(|a: Seq<char>| in_dfg(log, a))
}

/// The activities of the log, in ascending order.
pub open spec fn log_activity_list(log: Seq<crate::event_log::TraceView>) -> Seq<Seq<char>> {
    sorted_names(|a: Seq<char>| log_has_activity(log, a))
}

/// The activities that start some trace, in ascending order.
pub open spec fn start_set(log: Seq<crate::event_log::TraceView>) -> Seq<Seq<char>> {
    sorted_names(|a: Seq<char>| log_start_activities(log).contains(a))
}

/// The activities that end some trace, in ascending order.
pub open spec fn end_set(log: Seq<crate::event_log::TraceView>) -> Seq<Seq<char>> {
    sorted_names(|a: Seq<char>| log_end_activities(log).contains(a))
}

/// The pairs `(a, b)` of `acts` with `f(a, b)`, ordered by `a`, then `b`.
pub open spec fn pairs_where(acts: Seq<Seq<char>>, f: spec_fn(Seq<char>, Seq<char>) -> bool) -> Seq<(Seq<char>, Seq<char>)> {
    acts.map_values(|a: Seq<char>| acts.filter(|b: Seq<char>| f(a, b)).map_values(|b: Seq<char>| (a, b))).flatten()
}

/// The transition of activity `a`.
pub open spec fn t_name(a: Seq<char>) -> Seq<char> {
    "t_"@ + a
}

/// The place between activities `a` and `b`.
pub open spec fn pair_place(a: Seq<char>, b: Seq<char>) -> Seq<char> {
    "p_"@ + a + "_"@ + b
}

/// The places of a list of causal pairs.
pub open spec fn pair_places(pairs: Seq<(Seq<char>, Seq<char>)>) -> Seq<Seq<char>> {
    pairs.map_values(|p: (Seq<char>, Seq<char>)| pair_place(p.0, p.1))
}

/// For each causal pair, the arc from its place to the later transition and
/// the arc from the earlier transition to its place.
pub open spec fn pair_arcs(pairs: Seq<(Seq<char>, Seq<char>)>) -> Seq<(Seq<char>, Seq<char>)> {
    pairs.map_values(|p: (Seq<char>, Seq<char>)| seq![(pair_place(p.0, p.1), t_name(p.1)), (t_name(p.0), pair_place(p.0, p.1))]).flatten()
}

/// One visible transition per activity.
pub open spec fn activity_transitions(acts: Seq<Seq<char>>) -> Seq<(Seq<char>, Option<Seq<char>>)> {
    acts.map_values(|a: Seq<char>| (t_name(a), Some(a)))
}

/// Arcs from the start place to each start activity, then from each end
/// activity to the end place.
pub open spec fn boundary_arcs(starts: Seq<Seq<char>>, ends: Seq<Seq<char>>) -> Seq<(Seq<char>, Seq<char>)> {
    starts.map_values(|s: Seq<char>| ("p_start"@, t_name(s))) + ends.map_values(|e: Seq<char>| (t_name(e), "p_end"@))
}

/// The net the alpha miner builds for a log with at least one non-empty
/// trace: a transition for every activity of the log.
pub open spec fn alpha_net(log: Seq<crate::event_log::TraceView>) -> NetView {
    let acts = log_activity_list(log);
    let pairs = pairs_where(acts, |a: Seq<char>, b: Seq<char>| causal(log, a, b));
    NetView {
        places: seq!["p_start"@, "p_end"@] + pair_places(pairs),
        transitions: activity_transitions(acts),
        arcs: boundary_arcs(start_set(log), end_set(log)) + pair_arcs(pairs),
    }
}

/// A marking with one token on `p` and nothing else.
pub open spec fn single_token(m: Marking, p: Seq<char>) -> bool {
    m.wf() && forall|q: Seq<char>| #[trigger] m.get_spec(q) == if q == p { Some(1u32) } else { None }
}

/// Whether `(a, b)` is among `pairs`.
pub fn contains_pair(pairs: &Vec<(String, String)>, a: &str, b: &str) -> (res: bool)
    ensures
        res == pairs.deep_view().contains((a@, b@)),
{
    for k in 0..pairs.len()
        invariant
            forall|j: int| 0 <= j < k ==> #[trigger] pairs.deep_view()[j] != (a@, b@),
    {
        if str_eq(pairs[k].0.as_str(), a) && str_eq(pairs[k].1.as_str(), b) {
            proof {
                assert(pairs.deep_view()[k as int] == (a@, b@));
            }
            return true;
        }
    }
    false
}

/// The activities that occur in some pair, in ascending order.
pub fn pair_activities(pairs: &Vec<(String, String)>) -> (res: Vec<String>)
    ensures
        strictly_sorted(res.deep_view()),
        forall|x: Seq<char>| #[trigger] res.deep_view().contains(x) <==>
            exists|j: int| 0 <= j < pairs@.len() && ((#[trigger] pairs.deep_view()[j]).0 == x || pairs.deep_view()[j].1 == x),
{
    let ghost pv = pairs.deep_view();
    let ghost fst = |p: (Seq<char>, Seq<char>)| p.0;
    let ghost snd = |p: (Seq<char>, Seq<char>)| p.1;
    let mut all: Vec<String> = Vec::new();
    for k in 0..pairs.len()
        invariant
            pv == pairs.deep_view(),
            fst == (|p: (Seq<char>, Seq<char>)| p.0),
            all.deep_view() == pv.take(k as int).map_values(fst),
    {
        let ghost before = all.deep_view();
        all.push(pairs[k].0.clone());
        proof {
            assert(pv[k as int].0 == pairs@[k as int].0@);
            assert(all.deep_view() =~= before.push(pv[k as int].0));
            assert(pv.take(k + 1) =~= pv.take(k as int).push(pv[k as int]));
            assert(all.deep_view() =~= pv.take(k + 1).map_values(fst));
        }
    }
    let ghost firsts = all.deep_view();
    for k in 0..pairs.len()
        invariant
            pv == pairs.deep_view(),
            snd == (|p: (Seq<char>, Seq<char>)| p.1),
            firsts.len() == pv.len(),
            all.deep_view() == firsts + pv.take(k as int).map_values(snd),
    {
        let ghost before = all.deep_view();
        all.push(pairs[k].1.clone());
        proof {
            assert(pv[k as int].1 == pairs@[k as int].1@);
            assert(all.deep_view() =~= before.push(pv[k as int].1));
            assert(pv.take(k + 1) =~= pv.take(k as int).push(pv[k as int]));
            assert(all.deep_view() =~= firsts + pv.take(k + 1).map_values(snd));
        }
    }
    proof {
        assert(pv.take(pv.len() as int) =~= pv);
        assert(firsts =~= pv.map_values(fst));
    }
    let res = sorted_unique(&all);
    proof {
        let av = all.deep_view();
        assert(pv.len() == pairs@.len());
        assert(av =~= pv.map_values(fst) + pv.map_values(snd));
        assert forall|j: int| 0 <= j < pv.len() implies #[trigger] av[j] == pv[j].0 && av[pv.len() + j] == pv[j].1 by {
            assert(pv.map_values(fst)[j] == pv[j].0);
            assert(pv.map_values(snd)[j] == pv[j].1);
        }
        assert forall|x: Seq<char>| #[trigger] res.deep_view().contains(x) <==>
            exists|j: int| 0 <= j < pairs@.len() && ((#[trigger] pv[j]).0 == x || pv[j].1 == x) by {
            if av.contains(x) {
                let i = choose|i: int| 0 <= i < av.len() && av[i] == x;
                if i < pv.len() {
                    assert(av[i] == pv[i].0);
                } else {
                    assert(av[i] == pv[i - pv.len()].1);
                    assert(pv[i - pv.len()].1 == x);
                }
            }
            if exists|j: int| 0 <= j < pairs@.len() && ((#[trigger] pv[j]).0 == x || pv[j].1 == x) {
                let j = choose|j: int| 0 <= j < pairs@.len() && ((#[trigger] pv[j]).0 == x || pv[j].1 == x);
                assert(av[j] == pv[j].0);
                assert(av[pv.len() + j] == pv[j].1);
                if pv[j].0 == x {
                    assert(av.contains(x));
                } else {
                    assert(av.contains(x));
                }
            }
        }
    }
    res
}

/// The pairs `(acts[i], acts[j])` with `flags[i][j]`, ordered by `i`, then `j`.
pub(crate) fn select_pairs(acts: &Vec<String>, flags: &Vec<Vec<bool>>, Ghost(f): Ghost<spec_fn(Seq<char>, Seq<char>) -> bool>) -> (res: Vec<(String, String)>)
    requires
        flags@.len() == acts@.len(),
        forall|i: int| 0 <= i < flags@.len() ==> (#[trigger] flags@[i])@.len() == acts@.len(),
        forall|i: int, j: int| 0 <= i < acts@.len() && 0 <= j < acts@.len() ==> flags@[i]@[j] == f(#[trigger] acts@[i]@, #[trigger] acts@[j]@),
    ensures
        res.deep_view() == pairs_where(acts.deep_view(), f),
{
    let ghost av = acts.deep_view();
    let ghost row = |a: Seq<char>| av.filter(|b: Seq<char>| f(a, b)).map_values(|b: Seq<char>| (a, b));
    let mut out: Vec<(String, String)> = Vec::new();
    for i in 0..acts.len()
        invariant
            av == acts.deep_view(),
            row == (|a: Seq<char>| av.filter(|b: Seq<char>| f(a, b)).map_values(|b: Seq<char>| (a, b))),
            flags@.len() == acts@.len(),
            forall|i: int| 0 <= i < flags@.len() ==> (#[trigger] flags@[i])@.len() == acts@.len(),
            forall|i: int, j: int| 0 <= i < acts@.len() && 0 <= j < acts@.len() ==> flags@[i]@[j] == f(#[trigger] acts@[i]@, #[trigger] acts@[j]@),
            out.deep_view() == av.take(i as int).map_values(row).flatten(),
    {
        let ghost done = out.deep_view();
        let ghost a = av[i as int];
        let ghost keep = |b: Seq<char>| f(a, b);
        let ghost g = |b: Seq<char>| (a, b);
        proof {
            assert(av.take(i + 1) =~= av.take(i as int).push(a));
            assert(av.take(i + 1).map_values(row) =~= av.take(i as int).map_values(row).push(row(a)));
            av.take(i as int).map_values(row).lemma_flatten_push(row(a));
        }
        for j in 0..acts.len()
            invariant
                av == acts.deep_view(),
                a == av[i as int],
                i < av.len(),
                keep == (|b: Seq<char>| f(a, b)),
                g == (|b: Seq<char>| (a, b)),
                flags@.len() == acts@.len(),
                forall|i: int| 0 <= i < flags@.len() ==> (#[trigger] flags@[i])@.len() == acts@.len(),
                forall|i: int, j: int| 0 <= i < acts@.len() && 0 <= j < acts@.len() ==> flags@[i]@[j] == f(#[trigger] acts@[i]@, #[trigger] acts@[j]@),
                out.deep_view() == done + av.take(j as int).filter(keep).map_values(g),
        {
            proof {
                crate::event_log::lemma_filter_take_step(av, keep, j as int);
                assert(flags@[i as int]@[j as int] == f(acts@[i as int]@, acts@[j as int]@));
            }
            if flags[i][j] {
                let ghost before = out.deep_view();
                out.push((acts[i].clone(), acts[j].clone()));
                proof {
                    let x = av.take(j as int).filter(keep).map_values(g);
                    assert(av.take(j as int).filter(keep).push(av[j as int]).map_values(g) =~= x.push((a, av[j as int])));
                    assert(av[j as int] == acts@[j as int]@);
                    assert(out.deep_view() =~= before.push((a, av[j as int])));
                    assert((done + x).push((a, av[j as int])) =~= done + x.push((a, av[j as int])));
                }
            }
        }
        proof {
            assert(av.take(av.len() as int) =~= av);
            assert(row(a) == av.filter(keep).map_values(g));
        }
    }
    proof {
        assert(av.take(av.len() as int) =~= av);
    }
    out
}

/// The transition name of activity `a`.
pub fn transition_name(a: &str) -> (res: String)
    ensures
        res@ == t_name(a@),
{
    let prefix = "t_";
    proof {
        reveal_strlit("t_");
    }
    concat(prefix, a)
}

/// The name of the place between `a` and `b`.
pub fn pair_place_name(a: &str, b: &str) -> (res: String)
    ensures
        res@ == pair_place(a@, b@),
{
    let prefix = "p_";
    let sep = "_";
    proof {
        reveal_strlit("p_");
        reveal_strlit("_");
    }
    let x = concat(prefix, a);
    let y = concat(x.as_str(), sep);
    concat(y.as_str(), b)
}

/// Adds one visible transition per activity.
pub fn add_activity_transitions(net: &mut PetriNet, acts: &Vec<String>)
    ensures
        final(net).name@ == old(net).name@,
        old(net).unit_arcs() ==> final(net).unit_arcs(),
        final(net)@ == (NetView { transitions: old(net)@.transitions + activity_transitions(acts.deep_view()), ..old(net)@ }),
{
    let ghost n0 = net@;
    let ghost av = acts.deep_view();
    for k in 0..acts.len()
        invariant
            av == acts.deep_view(),
            net.name@ == old(net).name@,
            old(net).unit_arcs() ==> net.unit_arcs(),
            net@ == (NetView { transitions: n0.transitions + activity_transitions(av.take(k as int)), ..n0 }),
    {
        let name = transition_name(acts[k].as_str());
        net.add_transition(name.as_str(), Some(acts[k].clone()));
        proof {
            assert(av.take(k + 1) =~= av.take(k as int).push(av[k as int]));
            assert(activity_transitions(av.take(k + 1)) =~= activity_transitions(av.take(k as int)).push((t_name(av[k as int]), Some(av[k as int]))));
            assert(net@.transitions =~= n0.transitions + activity_transitions(av.take(k + 1)));
        }
    }
    proof {
        assert(av.take(av.len() as int) =~= av);
    }
}

/// Adds arcs from "p_start" to each start activity and from each end activity to "p_end".
pub fn add_boundary_arcs(net: &mut PetriNet, starts: &Vec<String>, ends: &Vec<String>)
    ensures
        final(net).name@ == old(net).name@,
        old(net).unit_arcs() ==> final(net).unit_arcs(),
        final(net)@ == (NetView { arcs: old(net)@.arcs + boundary_arcs(starts.deep_view(), ends.deep_view()), ..old(net)@ }),
{
    let ghost n0 = net@;
    let ghost sv = starts.deep_view();
    let ghost ev = ends.deep_view();
    let ghost fs = |s: Seq<char>| ("p_start"@, t_name(s));
    let ghost fe = |e: Seq<char>| (t_name(e), "p_end"@);
    let start = "p_start";
    let end = "p_end";
    proof {
        reveal_strlit("p_start");
        reveal_strlit("p_end");
    }
    for k in 0..starts.len()
        invariant
            sv == starts.deep_view(),
            fs == (|s: Seq<char>| ("p_start"@, t_name(s))),
            start@ == "p_start"@,
            net.name@ == old(net).name@,
            old(net).unit_arcs() ==> net.unit_arcs(),
            net@ == (NetView { arcs: n0.arcs + sv.take(k as int).map_values(fs), ..n0 }),
    {
        let t = transition_name(starts[k].as_str());
        net.add_arc(start, t.as_str());
        proof {
            assert(sv.take(k + 1) =~= sv.take(k as int).push(sv[k as int]));
            assert(sv.take(k + 1).map_values(fs) =~= sv.take(k as int).map_values(fs).push(fs(sv[k as int])));
            assert(net@.arcs =~= n0.arcs + sv.take(k + 1).map_values(fs));
        }
    }
    proof {
        assert(sv.take(sv.len() as int) =~= sv);
    }
    for k in 0..ends.len()
        invariant
            sv == starts.deep_view(),
            ev == ends.deep_view(),
            fs == (|s: Seq<char>| ("p_start"@, t_name(s))),
            fe == (|e: Seq<char>| (t_name(e), "p_end"@)),
            end@ == "p_end"@,
            net.name@ == old(net).name@,
            old(net).unit_arcs() ==> net.unit_arcs(),
            net@ == (NetView { arcs: n0.arcs + sv.map_values(fs) + ev.take(k as int).map_values(fe), ..n0 }),
    {
        let t = transition_name(ends[k].as_str());
        net.add_arc(t.as_str(), end);
        proof {
            assert(ev.take(k + 1) =~= ev.take(k as int).push(ev[k as int]));
            assert(ev.take(k + 1).map_values(fe) =~= ev.take(k as int).map_values(fe).push(fe(ev[k as int])));
            assert(net@.arcs =~= n0.arcs + sv.map_values(fs) + ev.take(k + 1).map_values(fe));
        }
    }
    proof {
        assert(ev.take(ev.len() as int) =~= ev);
        assert(n0.arcs + sv.map_values(fs) + ev.map_values(fe) =~= n0.arcs + boundary_arcs(sv, ev));
    }
}

/// Adds the place of each causal pair with its two arcs.
pub fn add_pair_places(net: &mut PetriNet, pairs: &Vec<(String, String)>)
    ensures
        final(net).name@ == old(net).name@,
        old(net).unit_arcs() ==> final(net).unit_arcs(),
        final(net)@ == (NetView {
            places: old(net)@.places + pair_places(pairs.deep_view()),
            transitions: old(net)@.transitions,
            arcs: old(net)@.arcs + pair_arcs(pairs.deep_view()),
        }),
{
    let ghost n0 = net@;
    let ghost pv = pairs.deep_view();
    let ghost arcs_of = |p: (Seq<char>, Seq<char>)| seq![(pair_place(p.0, p.1), t_name(p.1)), (t_name(p.0), pair_place(p.0, p.1))];
    for k in 0..pairs.len()
        invariant
            pv == pairs.deep_view(),
            arcs_of == (|p: (Seq<char>, Seq<char>)| seq![(pair_place(p.0, p.1), t_name(p.1)), (t_name(p.0), pair_place(p.0, p.1))]),
            net.name@ == old(net).name@,
            old(net).unit_arcs() ==> net.unit_arcs(),
            net@ == (NetView {
                places: n0.places + pair_places(pv.take(k as int)),
                transitions: n0.transitions,
                arcs: n0.arcs + pair_arcs(pv.take(k as int)),
            }),
    {
        let a = pairs[k].0.as_str();
        let b = pairs[k].1.as_str();
        let place = pair_place_name(a, b);
        let ta = transition_name(a);
        let tb = transition_name(b);
        net.add_place(place.as_str());
        net.add_arc(place.as_str(), tb.as_str());
        net.add_arc(ta.as_str(), place.as_str());
        proof {
            let p = pv[k as int];
            assert(p == (a@, b@));
            let done = pv.take(k as int);
            assert(pv.take(k + 1) =~= done.push(p));
            assert(pair_places(done.push(p)) =~= pair_places(done).push(pair_place(p.0, p.1)));
            assert(done.push(p).map_values(arcs_of) =~= done.map_values(arcs_of).push(arcs_of(p)));
            done.map_values(arcs_of).lemma_flatten_push(arcs_of(p));
            assert(net@.places =~= n0.places + pair_places(pv.take(k + 1)));
            assert(net@.arcs =~= n0.arcs + pair_arcs(pv.take(k + 1)));
        }
    }
    proof {
        assert(pv.take(pv.len() as int) =~= pv);
    }
}

/// The traces that have a first activity are those that have a last one.
pub proof fn lemma_start_end_len(log: Seq<crate::event_log::TraceView>)
    ensures
        log_start_activities(log).len() == log_end_activities(log).len(),
    decreases log.len(),
{
    if log.len() > 0 {
        let s = log.drop_last();
        assert(log =~= s.push(log.last()));
        lemma_start_end_len(s);
        crate::discovery::dfg::lemma_log_items_push(s, log.last(), |t: crate::event_log::TraceView| crate::discovery::dfg::first_activity(t));
        crate::discovery::dfg::lemma_log_items_push(s, log.last(), |t: crate::event_log::TraceView| crate::discovery::dfg::last_activity(t));
    } else {
        assert(log_start_activities(log) =~= Seq::<Seq<char>>::empty());
        assert(log_end_activities(log) =~= Seq::<Seq<char>>::empty());
    }
}

/// A marking with one token on `place`.
pub fn single_token_marking(place: &str) -> (res: Marking)
    ensures
        single_token(res, place@),
{
    let mut m = Marking::new();
    m.insert(place.to_string(), 1);
    m
}

/// The empty result: an empty net named `name` with empty markings.
pub fn empty_result(name: &str) -> (res: PetriNetResult)
    ensures
        res.net.name@ == name@,
        res.net@.places.len() == 0,
        res.net@.transitions.len() == 0,
        res.net@.arcs.len() == 0,
        res.initial_marking.wf(),
        res.final_marking.wf(),
        forall|p: Seq<char>| #[trigger] res.initial_marking.get_spec(p) is None && res.final_marking.get_spec(p) is None,
{
    PetriNetResult { net: PetriNet::new(name), initial_marking: Marking::new(), final_marking: Marking::new() }
}

/// Sorted activity lists of a log: of the directly-follows pairs, of the
/// trace starts and of the trace ends.
pub fn alpha_lists(log: &EventLog, pairs: &Vec<(String, String)>) -> (res: (Vec<String>, Vec<String>, Vec<String>))
    requires
        pairs.deep_view() == log_follows_pairs(log@),
    ensures
        res.0.deep_view() == dfg_activities(log@),
        res.1.deep_view() == start_set(log@),
        res.2.deep_view() == end_set(log@),
        forall|x: Seq<char>| #[trigger] res.1.deep_view().contains(x) <==> log_start_activities(log@).contains(x),
        forall|x: Seq<char>| #[trigger] res.2.deep_view().contains(x) <==> log_end_activities(log@).contains(x),
{
    let acts = pair_activities(pairs);
    let starts_all = boundary_activities(log, true);
    let ends_all = boundary_activities(log, false);
    let starts = sorted_unique(&starts_all);
    let ends = sorted_unique(&ends_all);
    proof {
        let lv = log@;
        let pv = pairs.deep_view();
        assert forall|x: Seq<char>| #[trigger] acts.deep_view().contains(x) <==> in_dfg(lv, x) by {
            if acts.deep_view().contains(x) {
                let j = choose|j: int| 0 <= j < pairs@.len() && ((#[trigger] pv[j]).0 == x || pv[j].1 == x);
                assert(pv.contains(pv[j]));
                if pv[j].0 == x {
                    assert(follows(lv, x, pv[j].1));
                } else {
                    assert(follows(lv, pv[j].0, x));
                }
            }
            if in_dfg(lv, x) {
                let b = choose|b: Seq<char>| follows(lv, x, b) || follows(lv, b, x);
                if follows(lv, x, b) {
                    let j = choose|j: int| 0 <= j < pv.len() && pv[j] == (x, b);
                    assert(pv[j].0 == x);
                } else {
                    let j = choose|j: int| 0 <= j < pv.len() && pv[j] == (b, x);
                    assert(pv[j].1 == x);
                }
            }
        }
        lemma_sorted_names(acts.deep_view(), |a: Seq<char>| in_dfg(lv, a));
        lemma_sorted_names(starts.deep_view(), |a: Seq<char>| log_start_activities(lv).contains(a));
        lemma_sorted_names(ends.deep_view(), |a: Seq<char>| log_end_activities(lv).contains(a));
    }
    (acts, starts, ends)
}

/// For each pair of activities, whether the first causes the second.
pub(crate) fn causal_flag_matrix(acts: &Vec<String>, pairs: &Vec<(String, String)>, Ghost(log): Ghost<Seq<crate::event_log::TraceView>>) -> (res: Vec<Vec<bool>>)
    requires
        pairs.deep_view() == log_follows_pairs(log),
    ensures
        res@.len() == acts@.len(),
        forall|i: int| 0 <= i < res@.len() ==> (#[trigger] res@[i])@.len() == acts@.len(),
        forall|i: int, j: int| 0 <= i < acts@.len() && 0 <= j < acts@.len() ==> res@[i]@[j] == causal(log, #[trigger] acts@[i]@, #[trigger] acts@[j]@),
{
    let mut out: Vec<Vec<bool>> = Vec::new();
    for i in 0..acts.len()
        invariant
            pairs.deep_view() == log_follows_pairs(log),
            out@.len() == i,
            forall|x: int| 0 <= x < i ==> (#[trigger] out@[x])@.len() == acts@.len(),
            forall|x: int, j: int| 0 <= x < i && 0 <= j < acts@.len() ==> out@[x]@[j] == causal(log, #[trigger] acts@[x]@, #[trigger] acts@[j]@),
    {
        let mut row: Vec<bool> = Vec::new();
        for j in 0..acts.len()
            invariant
                pairs.deep_view() == log_follows_pairs(log),
                i < acts@.len(),
                row@.len() == j,
                forall|y: int| 0 <= y < j ==> row@[y] == causal(log, acts@[i as int]@, #[trigger] acts@[y]@),
        {
            let a = acts[i].as_str();
            let b = acts[j].as_str();
            let c = !str_eq(a, b) && contains_pair(pairs, a, b) && !contains_pair(pairs, b, a);
            row.push(c);
        }
        out.push(row);
    }
    out
}

/// Discovers a Petri net with the alpha miner. Each activity of the log
/// gets a transition "t_<activity>"; a place
/// "p_start" feeds the start activities and a place "p_end" is fed by the
/// end activities; each causal pair (a, b), where b directly follows a and
/// never the other way round, gets a place "p_<a>_<b>" from a's transition
/// to b's. Activities and causal pairs come in ascending order. A log
/// without events gives an empty net named "alpha_empty".
pub fn alpha_miner(log: &EventLog) -> (res: PetriNetResult)
    ensures
        res.net.unit_arcs(),
        log_start_activities(log@).len() == 0 ==> {
            &&& res.net.name@ == "alpha_empty"@
            &&& res.net@.places.len() == 0
            &&& res.net@.transitions.len() == 0
            &&& res.net@.arcs.len() == 0
            &&& res.initial_marking.wf() && res.final_marking.wf()
            &&& forall|p: Seq<char>| #[trigger] res.initial_marking.get_spec(p) is None && res.final_marking.get_spec(p) is None
        },
        log_start_activities(log@).len() > 0 ==> {
            &&& res.net.name@ == "alpha"@
            &&& res.net@ == alpha_net(log@)
            &&& single_token(res.initial_marking, "p_start"@)
            &&& single_token(res.final_marking, "p_end"@)
        },
{
    let pairs = follows_pair_list(log);
    let (_dfg_acts, starts, ends) = alpha_lists(log, &pairs);
    let acts = log.activities();
    proof {
        let lv = log@;
        lemma_sorted_names(acts.deep_view(), |a: Seq<char>| log_has_activity(lv, a));
        lemma_start_end_len(lv);
        if log_start_activities(lv).len() > 0 {
            assert(log_start_activities(lv).contains(log_start_activities(lv)[0]));
            assert(starts.deep_view().contains(log_start_activities(lv)[0]));
            assert(log_end_activities(lv).contains(log_end_activities(lv)[0]));
            assert(ends.deep_view().contains(log_end_activities(lv)[0]));
        } else {
            if starts.deep_view().len() > 0 {
                assert(starts.deep_view().contains(starts.deep_view()[0]));
            }
        }
    }
    if starts.len() == 0 || ends.len() == 0 {
        let name = "alpha_empty";
        proof {
            reveal_strlit("alpha_empty");
        }
        return empty_result(name);
    }
    let flags = causal_flag_matrix(&acts, &pairs, Ghost(log@));
    let causal_pairs = select_pairs(&acts, &flags, Ghost(|a: Seq<char>, b: Seq<char>| causal(log@, a, b)));
    let name = "alpha";
    proof {
        reveal_strlit("alpha");
        assert(starts.deep_view().contains(starts.deep_view()[0]));
    }
    let mut net = PetriNet::new(name);
    add_activity_transitions(&mut net, &acts);
    let start = "p_start";
    let end = "p_end";
    proof {
        reveal_strlit("p_start");
        reveal_strlit("p_end");
    }
    net.add_place(start);
    net.add_place(end);
    add_boundary_arcs(&mut net, &starts, &ends);
    add_pair_places(&mut net, &causal_pairs);
    proof {
        assert(net@.places =~= alpha_net(log@).places);
        assert(net@.transitions =~= alpha_net(log@).transitions);
        assert(net@.arcs =~= alpha_net(log@).arcs);
    }
    PetriNetResult { net, initial_marking: single_token_marking(start), final_marking: single_token_marking(end) }
}

} // verus!
