//! The Petri net of a heuristics net: a transition per activity, a place
//! between the two activities of each dependency, and a source and a sink
//! place.

use vstd::prelude::*;
use crate::petri_net::{Marking, NetView, PetriNet, PetriNetResult};
use crate::text::{concat, str_eq};

verus! {

/// A dependency between two activities, with how often the second
/// directly follows the first.
#[derive(Debug)]
pub struct Dependency {
    pub from: String,
    pub to: String,
    pub frequency: usize,
}

/// The graph of a heuristics net: its activities, its dependencies, and the
/// activities that start and end traces with how often they do.
#[derive(Debug)]
pub struct HeuristicsNet {
    pub activities: Vec<String>,
    pub dependencies: Vec<Dependency>,
    pub start_activities: Vec<(String, usize)>,
    pub end_activities: Vec<(String, usize)>,
}

/// A list of (activity, count) entries as plain values.
pub open spec fn counted(es: Seq<(String, usize)>) -> Seq<(Seq<char>, usize)> {
    es.map_values(|e: (String, usize)| (e.0@, e.1))
}

/// The dependencies as (from, to) pairs.
pub open spec fn dependency_pairs(ds: Seq<Dependency>) -> Seq<(Seq<char>, Seq<char>)> {
    ds.map_values(|d: Dependency| (d.from@, d.to@))
}

/// The first position of `x` at or after `i` in `acts`, or `0` when it is
/// not there.
pub open spec fn position_or_first(acts: Seq<Seq<char>>, x: Seq<char>, i: int) -> int
    decreases acts.len() - i,
{
    if i >= acts.len() {
        0
    } else if acts[i] == x {
        i
    } else {
        position_or_first(acts, x, i + 1)
    }
}

/// Some entry has activity `x`.
pub open spec fn listed(es: Seq<(Seq<char>, usize)>, x: Seq<char>) -> bool {
    exists|i: int| 0 <= i < es.len() && #[trigger] es[i].0 == x
}

/// The counts of the entries, summed.
pub open spec fn count_total(es: Seq<(Seq<char>, usize)>) -> int
    decreases es.len(),
{
    if es.len() == 0 {
        0
    } else {
        count_total(es.drop_last()) + es.last().1
    }
}

/// The place between the two activities of a dependency.
pub open spec fn dependency_place(d: (Seq<char>, Seq<char>)) -> Seq<char> {
    "p_"@ + d.0 + "_"@ + d.1
}

/// The arcs of a dependency: from the source place to its first activity
/// when that starts a trace, from the first activity to the dependency's
/// place, and from that place to the second activity.
pub open spec fn dependency_arcs(acts: Seq<Seq<char>>, starts: Seq<(Seq<char>, usize)>, d: (Seq<char>, Seq<char>)) -> Seq<(Seq<char>, Seq<char>)> {
    let from_t = acts[position_or_first(acts, d.0, 0)];
    let to_t = acts[position_or_first(acts, d.1, 0)];
    (if listed(starts, d.0) { seq![("p_source"@, from_t)] } else { Seq::empty() })
        + seq![(from_t, dependency_place(d)), (dependency_place(d), to_t)]
}

/// The arcs of the dependencies, in order.
pub open spec fn dependencies_arcs(acts: Seq<Seq<char>>, starts: Seq<(Seq<char>, usize)>, ds: Seq<(Seq<char>, Seq<char>)>) -> Seq<(Seq<char>, Seq<char>)>
    decreases ds.len(),
{
    if ds.len() == 0 {
        Seq::empty()
    } else {
        dependencies_arcs(acts, starts, ds.drop_last()) + dependency_arcs(acts, starts, ds.last())
    }
}

/// The arcs from the activities that end a trace to the sink place, in
/// activity order.
pub open spec fn sink_arcs(acts: Seq<Seq<char>>, ends: Seq<(Seq<char>, usize)>) -> Seq<(Seq<char>, Seq<char>)>
    decreases acts.len(),
{
    if acts.len() == 0 {
        Seq::empty()
    } else {
        sink_arcs(acts.drop_last(), ends) + if listed(ends, acts.last()) { seq![(acts.last(), "p_sink"@)] } else { Seq::empty() }
    }
}

/// The net of a heuristics net: places `p_source`, `p_sink` and one per
/// dependency; a transition per activity, named and labelled by it; the
/// dependencies' arcs, then the arcs into the sink.
pub open spec fn heuristics_net_view(acts: Seq<Seq<char>>, ds: Seq<(Seq<char>, Seq<char>)>, starts: Seq<(Seq<char>, usize)>, ends: Seq<(Seq<char>, usize)>) -> NetView {
    NetView {
        places: seq!["p_source"@, "p_sink"@] + ds.map_values(|d: (Seq<char>, Seq<char>)| dependency_place(d)),
        transitions: acts.map_values(|a: Seq<char>| (a, Some(a))),
        arcs: dependencies_arcs(acts, starts, ds) + sink_arcs(acts, ends),
    }
}

/// The position of `x` in `acts`, or 0 when it is not there.
fn position_or_zero(acts: &Vec<String>, x: &str) -> (res: usize)
    ensures
        res == position_or_first(acts.deep_view(), x@, 0),
{
    let ghost av = acts.deep_view();
    let mut i: usize = 0;
    while i < acts.len()
        invariant
            av == acts.deep_view(),
            i <= av.len(),
            position_or_first(av, x@, i as int) == position_or_first(av, x@, 0),
        decreases av.len() - i,
    {
        if str_eq(acts[i].as_str(), x) {
            return i;
        }
        i = i + 1;
    }
    0
}

/// Whether some entry has activity `x`.
fn is_listed(es: &Vec<(String, usize)>, x: &str) -> (res: bool)
    ensures
        res == listed(counted(es@), x@),
{
    for i in 0..es.len()
        invariant
            forall|j: int| 0 <= j < i ==> counted(es@)[j].0 != x@,
    {
        if str_eq(es[i].0.as_str(), x) {
            proof {
                assert(counted(es@)[i as int].0 == x@);
            }
            return true;
        }
    }
    false
}

/// The counts of the entries, summed.
fn total_of(es: &Vec<(String, usize)>) -> (res: usize)
    requires
        count_total(counted(es@)) <= usize::MAX,
    ensures
        res == count_total(counted(es@)),
{
    let ghost cv = counted(es@);
    let mut sum: usize = 0;
    for i in 0..es.len()
        invariant
            cv == counted(es@),
            sum == count_total(cv.take(i as int)),
            count_total(cv) <= usize::MAX,
    {
        proof {
            assert(cv.take(i + 1).drop_last() =~= cv.take(i as int));
            lemma_count_total_prefix(cv, i + 1);
        }
        sum = sum + es[i].1;
    }
    proof {
        assert(cv.take(cv.len() as int) =~= cv);
    }
    sum
}

proof fn lemma_count_total_prefix(es: Seq<(Seq<char>, usize)>, k: int)
    requires
        0 <= k <= es.len(),
    ensures
        count_total(es.take(k)) <= count_total(es),
    decreases es.len() - k,
{
    if k < es.len() {
        lemma_count_total_prefix(es, k + 1);
        assert(es.take(k + 1).drop_last() =~= es.take(k));
    } else {
        assert(es.take(k) =~= es);
    }
}

/// Converts a heuristics net to a Petri net named "heuristics_miner", as
/// `heuristics_net_view` states it, with the summed start counts (cut to 32
/// bits) on the source place initially and the summed end counts on the
/// sink place finally.
pub fn heuristics_to_petri_net(net: &HeuristicsNet) -> (res: PetriNetResult)
    requires
        net.dependencies@.len() > 0 ==> net.activities@.len() > 0,
        count_total(counted(net.start_activities@)) <= usize::MAX,
        count_total(counted(net.end_activities@)) <= usize::MAX,
    ensures
        res.net.name@ == "heuristics_miner"@,
        res.net.unit_arcs(),
        res.net@ == heuristics_net_view(
            net.activities.deep_view(),
            dependency_pairs(net.dependencies@),
            counted(net.start_activities@),
            counted(net.end_activities@),
        ),
        res.initial_marking.wf(),
        res.final_marking.wf(),
        forall|q: Seq<char>| #[trigger] res.initial_marking.get_spec(q)
            == if q == "p_source"@ { Some(count_total(counted(net.start_activities@)) as u32) } else { None },
        forall|q: Seq<char>| #[trigger] res.final_marking.get_spec(q)
            == if q == "p_sink"@ { Some(count_total(counted(net.end_activities@)) as u32) } else { None },
{
    let ghost acts = net.activities.deep_view();
    let ghost ds = dependency_pairs(net.dependencies@);
    let ghost starts = counted(net.start_activities@);
    let ghost ends = counted(net.end_activities@);
    let ghost target = heuristics_net_view(acts, ds, starts, ends);
    proof {
        reveal_strlit("heuristics_miner");
        reveal_strlit("p_source");
        reveal_strlit("p_sink");
        reveal_strlit("p_");
        reveal_strlit("_");
    }
    let mut pn = PetriNet::new("heuristics_miner");
    for i in 0..net.activities.len()
        invariant
            acts == net.activities.deep_view(),
            pn.name@ == "heuristics_miner"@,
            pn.unit_arcs(),
            pn@.places.len() == 0,
            pn@.arcs.len() == 0,
            pn@.transitions == acts.take(i as int).map_values(|a: Seq<char>| (a, Some(a))),
    {
        let ghost before = pn@.transitions;
        pn.add_transition(net.activities[i].as_str(), Some(net.activities[i].clone()));
        proof {
            assert(acts[i as int] == net.activities@[i as int]@);
            assert(pn@.transitions =~= acts.take(i + 1).map_values(|a: Seq<char>| (a, Some(a))));
        }
    }
    proof {
        assert(acts.take(acts.len() as int) =~= acts);
    }
    pn.add_place("p_source");
    pn.add_place("p_sink");
    let source_tokens = total_of(&net.start_activities);
    let mut initial = Marking::new();
    #[verifier::truncate]
    let st = source_tokens as u32;
    initial.insert("p_source".to_string(), st);
    let end_tokens = total_of(&net.end_activities);
    let mut fin = Marking::new();
    #[verifier::truncate]
    let et = end_tokens as u32;
    fin.insert("p_sink".to_string(), et);
    for i in 0..net.dependencies.len()
        invariant
            acts == net.activities.deep_view(),
            ds == dependency_pairs(net.dependencies@),
            starts == counted(net.start_activities@),
            net.dependencies@.len() > 0 ==> acts.len() > 0,
            pn.name@ == "heuristics_miner"@,
            pn.unit_arcs(),
            pn@.transitions == acts.map_values(|a: Seq<char>| (a, Some(a))),
            pn@.places == seq!["p_source"@, "p_sink"@] + ds.take(i as int).map_values(|d: (Seq<char>, Seq<char>)| dependency_place(d)),
            pn@.arcs == dependencies_arcs(acts, starts, ds.take(i as int)),
    {
        let dep = &net.dependencies[i];
        let ghost d = ds[i as int];
        proof {
            assert(d == (dep.from@, dep.to@));
        }
        let fi = position_or_zero(&net.activities, dep.from.as_str());
        let ti = position_or_zero(&net.activities, dep.to.as_str());
        proof {
            lemma_position_in_range(acts, d.0, 0);
            lemma_position_in_range(acts, d.1, 0);
        }
        let from_t = &net.activities[fi];
        let to_t = &net.activities[ti];
        let head = concat("p_", dep.from.as_str());
        let mid = concat(head.as_str(), "_");
        let place = concat(mid.as_str(), dep.to.as_str());
        let ghost pv = pn@;
        pn.add_place(place.as_str());
        if is_listed(&net.start_activities, dep.from.as_str()) {
            pn.add_arc("p_source", from_t.as_str());
        }
        pn.add_arc(from_t.as_str(), place.as_str());
        pn.add_arc(place.as_str(), to_t.as_str());
        proof {
            assert(place@ == dependency_place(d));
            assert(ds.take(i + 1).drop_last() =~= ds.take(i as int));
            assert(ds.take(i + 1).last() == d);
            assert(ds.take(i + 1).map_values(|d: (Seq<char>, Seq<char>)| dependency_place(d))
                =~= ds.take(i as int).map_values(|d: (Seq<char>, Seq<char>)| dependency_place(d)).push(dependency_place(d)));
            assert(pn@.places =~= seq!["p_source"@, "p_sink"@] + ds.take(i + 1).map_values(|d: (Seq<char>, Seq<char>)| dependency_place(d)));
            assert(pn@.arcs =~= dependencies_arcs(acts, starts, ds.take(i + 1)));
        }
    }
    proof {
        assert(ds.take(ds.len() as int) =~= ds);
    }
    let ghost dep_arcs = pn@.arcs;
    for i in 0..net.activities.len()
        invariant
            acts == net.activities.deep_view(),
            ends == counted(net.end_activities@),
            pn.name@ == "heuristics_miner"@,
            pn.unit_arcs(),
            pn@.transitions == target.transitions,
            pn@.places == target.places,
            pn@.arcs == dep_arcs + sink_arcs(acts.take(i as int), ends),
    {
        let ghost pv = pn@;
        if is_listed(&net.end_activities, net.activities[i].as_str()) {
            pn.add_arc(net.activities[i].as_str(), "p_sink");
        }
        proof {
            assert(acts[i as int] == net.activities@[i as int]@);
            assert(acts.take(i + 1).drop_last() =~= acts.take(i as int));
            assert(acts.take(i + 1).last() == acts[i as int]);
            assert(pn@.arcs =~= dep_arcs + sink_arcs(acts.take(i + 1), ends));
        }
    }
    proof {
        assert(acts.take(acts.len() as int) =~= acts);
        assert(pn@ =~= target);
    }
    PetriNetResult { net: pn, initial_marking: initial, final_marking: fin }
}

proof fn lemma_position_in_range(acts: Seq<Seq<char>>, x: Seq<char>, i: int)
    requires
        0 <= i,
        acts.len() > 0,
    ensures
        0 <= position_or_first(acts, x, i) < acts.len(),
    decreases acts.len() - i,
{
    if i < acts.len() && acts[i] != x {
        lemma_position_in_range(acts, x, i + 1);
    }
}

} // verus!
