//! Structural reduction of Petri nets.
//!
//! Four rules, each applied at the first place (or transition) where it fits:
//! fusion of series places, fusion of series transitions, elimination of
//! self-loop places and elimination of identical places.

use vstd::prelude::*;
use crate::petri_net::{
    PetriNet, NetView, without_place, without_transition, pre_transitions, post_transitions,
    pre_places, post_places,
};
use crate::text::str_eq;
use crate::counting::{seq_count, lemma_seq_count_take_step, lemma_seq_count_pos};

verus! {

/// The first index below `len` at which `f` holds, if any.
pub open spec fn first_hit(len: int, f: spec_fn(int) -> bool) -> Option<int> {
    if exists|i: int| 0 <= i < len && #[trigger] f(i) && forall|j: int| 0 <= j < i ==> !#[trigger] f(j) {
        Some(choose|i: int| 0 <= i < len && #[trigger] f(i) && forall|j: int| 0 <= j < i ==> !#[trigger] f(j))
    } else {
        None
    }
}

pub proof fn lemma_first_hit(len: int, f: spec_fn(int) -> bool, i: int)
    requires
        0 <= i < len,
        f(i),
        forall|j: int| 0 <= j < i ==> !#[trigger] f(j),
    ensures
        first_hit(len, f) == Some(i),
{
    let k = choose|k: int| 0 <= k < len && #[trigger] f(k) && forall|j: int| 0 <= j < k ==> !#[trigger] f(j);
    if k < i {
        assert(!f(k));
    } else if k > i {
        assert(!f(i));
    }
}

pub proof fn lemma_first_hit_some(len: int, f: spec_fn(int) -> bool)
    ensures
        first_hit(len, f) matches Some(i) ==> 0 <= i < len && f(i),
{
}

pub proof fn lemma_no_hit(len: int, f: spec_fn(int) -> bool)
    requires
        forall|j: int| 0 <= j < len ==> !#[trigger] f(j),
    ensures
        first_hit(len, f) is None,
{
}

// ─── Elimination of self-loop places ───────────────────────────────────────

/// The only transition that feeds `p` is the only one that consumes from it.
pub open spec fn self_loop_place(n: NetView, p: Seq<char>) -> bool {
    let pre = pre_transitions(n, p);
    let post = post_transitions(n, p);
    pre.len() == 1 && post.len() == 1 && pre[0] == post[0]
}

/// Removes the first self-loop place; says whether there was one.
pub open spec fn self_loop_step(n: NetView) -> (bool, NetView) {
    match first_hit(n.places.len() as int, |i: int| self_loop_place(n, n.places[i])) {
        Some(i) => (true, without_place(n, n.places[i])),
        None => (false, n),
    }
}

/// Removes the first place whose only input and only output transition is
/// one and the same transition. Returns whether a place was removed.
pub fn eliminate_self_loop_places(net: &mut PetriNet) -> (res: bool)
    ensures
        final(net).name@ == old(net).name@,
        old(net).unit_arcs() ==> final(net).unit_arcs(),
        (res, final(net)@) == self_loop_step(old(net)@),
{
    let ghost n = net@;
    let ghost f = |i: int| self_loop_place(n, n.places[i]);
    let len = net.places.len();
    for i in 0..len
        invariant
            len == n.places.len(),
            n == net@,
            n == old(net)@,
            net.name@ == old(net).name@,
            old(net).unit_arcs() ==> net.unit_arcs(),
            f == (|i: int| self_loop_place(n, n.places[i])),
            forall|j: int| 0 <= j < i ==> !#[trigger] f(j),
    {
        proof {
            assert(n.places[i as int] == net.places@[i as int].name@);
        }
        let pre = net.neighbours(net.places[i].name.as_str(), true, false);
        let post = net.neighbours(net.places[i].name.as_str(), false, false);
        if pre.len() == 1 && post.len() == 1 && str_eq(pre[0].as_str(), post[0].as_str()) {
            proof {
                assert(f(i as int));
                lemma_first_hit(n.places.len() as int, f, i as int);
            }
            let name = net.places[i].name.clone();
            net.remove_place(name.as_str());
            return true;
        }
        proof {
            assert(!f(i as int));
        }
    }
    proof {
        lemma_no_hit(n.places.len() as int, f);
    }
    false
}

// ─── Fusion of series places ───────────────────────────────────────────────

/// Transition `i` is named `t`.
pub open spec fn transition_named(n: NetView, t: Seq<char>) -> spec_fn(int) -> bool {
    |i: int| n.transitions[i].0 == t
}

/// The first transition named `t` exists and is silent.
pub open spec fn silent(n: NetView, t: Seq<char>) -> bool {
    match first_hit(n.transitions.len() as int, transition_named(n, t)) {
        Some(i) => n.transitions[i].1 is None,
        None => false,
    }
}

/// `p` lies between two distinct silent transitions and nothing else.
pub open spec fn series_place(n: NetView, p: Seq<char>) -> bool {
    let pre = pre_transitions(n, p);
    let post = post_transitions(n, p);
    pre.len() == 1 && post.len() == 1 && silent(n, pre[0]) && silent(n, post[0]) && pre[0] != post[0]
}

/// The targets of the arcs out of `x`, in arc order.
pub open spec fn arc_targets(n: NetView, x: Seq<char>) -> Seq<Seq<char>> {
    n.arcs.filter(|a: (Seq<char>, Seq<char>)| a.0 == x).map_values(|a: (Seq<char>, Seq<char>)| a.1)
}

/// Fuses the series place `p`: removes it and its output transition, and
/// connects its input transition to every target of that output transition.
pub open spec fn fuse_series_place_at(n: NetView, p: Seq<char>) -> NetView {
    let in_t = pre_transitions(n, p)[0];
    let out_t = post_transitions(n, p)[0];
    let m = without_transition(without_place(n, p), out_t);
    NetView {
        arcs: m.arcs + arc_targets(n, out_t).filter(|x: Seq<char>| x != p).map_values(|x: Seq<char>| (in_t, x)),
        ..m
    }
}

/// Fuses the first series place; says whether there was one.
pub open spec fn series_place_step(n: NetView) -> (bool, NetView) {
    match first_hit(n.places.len() as int, |i: int| series_place(n, n.places[i])) {
        Some(i) => (true, fuse_series_place_at(n, n.places[i])),
        None => (false, n),
    }
}

/// Whether the first transition named `t` exists and is silent.
fn is_silent(net: &PetriNet, t: &str) -> (res: bool)
    ensures
        res == silent(net@, t@),
{
    let ghost n = net@;
    let ghost f = transition_named(n, t@);
    for i in 0..net.transitions.len()
        invariant
            n == net@,
            f == transition_named(n, t@),
            forall|j: int| 0 <= j < i ==> !#[trigger] f(j),
    {
        if str_eq(net.transitions[i].name.as_str(), t) {
            proof {
                lemma_first_hit(n.transitions.len() as int, f, i as int);
            }
            return net.transitions[i].label.is_none();
        }
    }
    proof {
        lemma_no_hit(n.transitions.len() as int, f);
    }
    false
}

/// The targets of the arcs out of `x`.
fn targets_of(net: &PetriNet, x: &str) -> (res: Vec<String>)
    ensures
        res.deep_view() == arc_targets(net@, x@),
{
    let ghost av = net@.arcs;
    let ghost keep = |a: (Seq<char>, Seq<char>)| a.0 == x@;
    let ghost g = |a: (Seq<char>, Seq<char>)| a.1;
    let mut out: Vec<String> = Vec::new();
    for i in 0..net.arcs.len()
        invariant
            av == net@.arcs,
            keep == (|a: (Seq<char>, Seq<char>)| a.0 == x@),
            g == (|a: (Seq<char>, Seq<char>)| a.1),
            out.deep_view() == av.take(i as int).filter(keep).map_values(g),
    {
        proof {
            crate::event_log::lemma_filter_take_step(av, keep, i as int);
            assert(av[i as int] == (net.arcs@[i as int].source@, net.arcs@[i as int].target@));
        }
        if str_eq(net.arcs[i].source.as_str(), x) {
            let ghost before = out.deep_view();
            out.push(net.arcs[i].target.clone());
            proof {
                assert(av.take(i as int).filter(keep).push(av[i as int]).map_values(g) =~= before.push(av[i as int].1));
                assert(out.deep_view() =~= before.push(av[i as int].1));
            }
        }
    }
    proof {
        assert(av.take(av.len() as int) =~= av);
    }
    out
}

/// Fuses the first place that lies between two distinct silent
/// transitions and nothing else: the place and its output transition are
/// removed, and its input transition gets an arc to every target of the
/// removed transition other than the place. Returns whether a place was fused.
pub fn fuse_series_places(net: &mut PetriNet) -> (res: bool)
    ensures
        final(net).name@ == old(net).name@,
        old(net).unit_arcs() ==> final(net).unit_arcs(),
        (res, final(net)@) == series_place_step(old(net)@),
{
    let ghost n = net@;
    let ghost f = |i: int| series_place(n, n.places[i]);
    let len = net.places.len();
    for i in 0..len
        invariant
            len == n.places.len(),
            n == net@,
            n == old(net)@,
            net.name@ == old(net).name@,
            old(net).unit_arcs() ==> net.unit_arcs(),
            f == (|i: int| series_place(n, n.places[i])),
            forall|j: int| 0 <= j < i ==> !#[trigger] f(j),
    {
        let p = net.places[i].name.clone();
        proof {
            assert(n.places[i as int] == p@);
        }
        let in_trans = net.neighbours(p.as_str(), true, false);
        let out_trans = net.neighbours(p.as_str(), false, false);
        if in_trans.len() == 1 && out_trans.len() == 1 {
            let in_t = in_trans[0].clone();
            let out_t = out_trans[0].clone();
            if is_silent(net, in_t.as_str()) && is_silent(net, out_t.as_str()) && !str_eq(in_t.as_str(), out_t.as_str()) {
                proof {
                    assert(f(i as int));
                    lemma_first_hit(n.places.len() as int, f, i as int);
                }
                let targets = targets_of(net, out_t.as_str());
                net.remove_place(p.as_str());
                net.remove_transition(out_t.as_str());
                let ghost m = net@;
                let ghost keep = |x: Seq<char>| x != p@;
                let ghost g = |x: Seq<char>| (in_t@, x);
                let ghost tv = targets.deep_view();
                for k in 0..targets.len()
                    invariant
                        tv == targets.deep_view(),
                        keep == (|x: Seq<char>| x != p@),
                        g == (|x: Seq<char>| (in_t@, x)),
                        net@ == (NetView { arcs: m.arcs + tv.take(k as int).filter(keep).map_values(g), ..m }),
                        net.name@ == old(net).name@,
                        old(net).unit_arcs() ==> net.unit_arcs(),
                {
                    proof {
                        crate::event_log::lemma_filter_take_step(tv, keep, k as int);
                    }
                    if !str_eq(targets[k].as_str(), p.as_str()) {
                        let ghost before = net@.arcs;
                        net.add_arc(in_t.as_str(), targets[k].as_str());
                        proof {
                            assert(tv.take(k as int).filter(keep).push(tv[k as int]).map_values(g)
                                =~= tv.take(k as int).filter(keep).map_values(g).push((in_t@, tv[k as int])));
                            assert(net@.arcs =~= m.arcs + tv.take(k + 1).filter(keep).map_values(g));
                        }
                    }
                }
                proof {
                    assert(tv.take(tv.len() as int) =~= tv);
                }
                return true;
            }
        }
        proof {
            assert(!f(i as int));
        }
    }
    proof {
        lemma_no_hit(n.places.len() as int, f);
    }
    false
}

// ─── Fusion of series transitions ──────────────────────────────────────────

/// `t` is silent and lies between two distinct places and nothing else.
pub open spec fn series_transition(n: NetView, t: (Seq<char>, Option<Seq<char>>)) -> bool {
    let pre = pre_places(n, t.0);
    let post = post_places(n, t.0);
    t.1 is None && pre.len() == 1 && post.len() == 1 && pre[0] != post[0]
}

/// The name of the place that joins transition `a` to transition `b`.
pub open spec fn merge_name(a: Seq<char>, b: Seq<char>) -> Seq<char> {
    "p_merge_"@ + a + "_"@ + b
}

/// `pt` paired with each element of `post` other than itself.
pub open spec fn merge_row(pt: Seq<char>, post: Seq<Seq<char>>) -> Seq<(Seq<char>, Seq<char>)> {
    post.filter(|qt: Seq<char>| qt != pt).map_values(|qt: Seq<char>| (pt, qt))
}

/// Every (pre, post) pair of distinct transitions, pre by pre.
pub open spec fn merge_pairs(pre: Seq<Seq<char>>, post: Seq<Seq<char>>) -> Seq<(Seq<char>, Seq<char>)> {
    pre.map_values(|pt: Seq<char>| merge_row(pt, post)).flatten()
}

/// The two arcs through the joining place of each pair.
pub open spec fn merge_arcs(pairs: Seq<(Seq<char>, Seq<char>)>) -> Seq<(Seq<char>, Seq<char>)> {
    pairs.map_values(|pq: (Seq<char>, Seq<char>)| seq![(pq.0, merge_name(pq.0, pq.1)), (merge_name(pq.0, pq.1), pq.1)]).flatten()
}

/// Fuses the series transition `t`: removes it with its input and output
/// place, and joins each transition before the input place to each other
/// transition after the output place through a new place.
pub open spec fn fuse_series_transition_at(n: NetView, t: Seq<char>) -> NetView {
    let in_p = pre_places(n, t)[0];
    let out_p = post_places(n, t)[0];
    let pairs = merge_pairs(pre_transitions(n, in_p), post_transitions(n, out_p));
    let m = without_transition(without_place(without_place(n, in_p), out_p), t);
    NetView {
        places: m.places + pairs.map_values(|pq: (Seq<char>, Seq<char>)| merge_name(pq.0, pq.1)),
        transitions: m.transitions,
        arcs: m.arcs + merge_arcs(pairs),
    }
}

/// Fuses the first series transition; says whether there was one.
pub open spec fn series_transition_step(n: NetView) -> (bool, NetView) {
    match first_hit(n.transitions.len() as int, |i: int| series_transition(n, n.transitions[i])) {
        Some(i) => (true, fuse_series_transition_at(n, n.transitions[i].0)),
        None => (false, n),
    }
}

/// Adds the joining place and its two arcs for every pair of `pre` and `post`.
fn add_merge_places(net: &mut PetriNet, pre: &Vec<String>, post: &Vec<String>)
    ensures
        final(net).name@ == old(net).name@,
        old(net).unit_arcs() ==> final(net).unit_arcs(),
        final(net)@ == (NetView {
            places: old(net)@.places + merge_pairs(pre.deep_view(), post.deep_view()).map_values(
                |pq: (Seq<char>, Seq<char>)| merge_name(pq.0, pq.1)),
            transitions: old(net)@.transitions,
            arcs: old(net)@.arcs + merge_arcs(merge_pairs(pre.deep_view(), post.deep_view())),
        }),
{
    let ghost n0 = net@;
    let ghost pv = pre.deep_view();
    let ghost qv = post.deep_view();
    let ghost mn = |pq: (Seq<char>, Seq<char>)| merge_name(pq.0, pq.1);
    let ghost row_of = |pt: Seq<char>| merge_row(pt, qv);
    let ghost arcs_of = |pq: (Seq<char>, Seq<char>)| seq![(pq.0, merge_name(pq.0, pq.1)), (merge_name(pq.0, pq.1), pq.1)];
    let prefix = "p_merge_";
    let sep = "_";
    proof {
        reveal_strlit("p_merge_");
        reveal_strlit("_");
    }
    for i in 0..pre.len()
        invariant
            pv == pre.deep_view(),
            qv == post.deep_view(),
            prefix@ == "p_merge_"@,
            sep@ == "_"@,
            mn == (|pq: (Seq<char>, Seq<char>)| merge_name(pq.0, pq.1)),
            arcs_of == (|pq: (Seq<char>, Seq<char>)| seq![(pq.0, merge_name(pq.0, pq.1)), (merge_name(pq.0, pq.1), pq.1)]),
            row_of == (|pt: Seq<char>| merge_row(pt, qv)),
            net.name@ == old(net).name@,
            old(net).unit_arcs() ==> net.unit_arcs(),
            net@ == (NetView {
                places: n0.places + merge_pairs(pv.take(i as int), qv).map_values(mn),
                transitions: n0.transitions,
                arcs: n0.arcs + merge_arcs(merge_pairs(pv.take(i as int), qv)),
            }),
    {
        let ghost done = merge_pairs(pv.take(i as int), qv);
        let pt = &pre[i];
        proof {
            assert(pv.take(i + 1) =~= pv.take(i as int).push(pt@));
            assert(pv.take(i + 1).map_values(row_of) =~= pv.take(i as int).map_values(row_of).push(merge_row(pt@, qv)));
            pv.take(i as int).map_values(row_of).lemma_flatten_push(merge_row(pt@, qv));
            assert(merge_pairs(pv.take(i + 1), qv) == done + merge_row(pt@, qv));
        }
        for j in 0..post.len()
            invariant
                pv == pre.deep_view(),
                qv == post.deep_view(),
                prefix@ == "p_merge_"@,
                sep@ == "_"@,
                mn == (|pq: (Seq<char>, Seq<char>)| merge_name(pq.0, pq.1)),
                arcs_of == (|pq: (Seq<char>, Seq<char>)| seq![(pq.0, merge_name(pq.0, pq.1)), (merge_name(pq.0, pq.1), pq.1)]),
                pt@ == pv[i as int],
                i < pv.len(),
                net.name@ == old(net).name@,
                old(net).unit_arcs() ==> net.unit_arcs(),
                net@ == (NetView {
                    places: n0.places + (done + merge_row(pt@, qv.take(j as int))).map_values(mn),
                    transitions: n0.transitions,
                    arcs: n0.arcs + merge_arcs(done + merge_row(pt@, qv.take(j as int))),
                }),
        {
            let qt = &post[j];
            let ghost keep = |x: Seq<char>| x != pt@;
            proof {
                crate::event_log::lemma_filter_take_step(qv, keep, j as int);
                assert(qv[j as int] == qt@);
            }
            if !str_eq(pt.as_str(), qt.as_str()) {
                let a = crate::text::concat(prefix, pt.as_str());
                let b = crate::text::concat(a.as_str(), sep);
                let name = crate::text::concat(b.as_str(), qt.as_str());
                proof {
                    assert(name@ == merge_name(pt@, qt@));
                }
                let ghost old_done = done + merge_row(pt@, qv.take(j as int));
                let ghost pq = (pt@, qt@);
                net.add_place(name.as_str());
                net.add_arc(pt.as_str(), name.as_str());
                net.add_arc(name.as_str(), qt.as_str());
                proof {
                    let row_j1 = merge_row(pt@, qv.take(j + 1));
                    assert(row_j1 =~= merge_row(pt@, qv.take(j as int)).push(pq));
                    assert(done + row_j1 =~= old_done.push(pq));
                    assert(old_done.push(pq).map_values(mn) =~= old_done.map_values(mn).push(merge_name(pt@, qt@)));
                    assert(old_done.push(pq).map_values(arcs_of) =~= old_done.map_values(arcs_of).push(arcs_of(pq)));
                    old_done.map_values(arcs_of).lemma_flatten_push(arcs_of(pq));
                    assert(merge_arcs(old_done.push(pq)) == merge_arcs(old_done) + arcs_of(pq));
                    assert(net@.places =~= n0.places + (done + row_j1).map_values(mn));
                    assert(net@.arcs =~= n0.arcs + merge_arcs(done + row_j1));
                }
            } else {
                proof {
                    assert(merge_row(pt@, qv.take(j + 1)) =~= merge_row(pt@, qv.take(j as int)));
                }
            }
        }
        proof {
            assert(qv.take(qv.len() as int) =~= qv);
        }
    }
    proof {
        assert(pv.take(pv.len() as int) =~= pv);
    }
}

/// Fuses the first silent transition that lies between two distinct places
/// and nothing else: the transition and both places are removed, and each
/// transition before the input place is joined to each other transition
/// after the output place through a new place "p_merge_<before>_<after>".
/// Returns whether a transition was fused.
pub fn fuse_series_transitions(net: &mut PetriNet) -> (res: bool)
    ensures
        final(net).name@ == old(net).name@,
        old(net).unit_arcs() ==> final(net).unit_arcs(),
        (res, final(net)@) == series_transition_step(old(net)@),
{
    let ghost n = net@;
    let ghost f = |i: int| series_transition(n, n.transitions[i]);
    let len = net.transitions.len();
    for i in 0..len
        invariant
            len == n.transitions.len(),
            n == net@,
            n == old(net)@,
            net.name@ == old(net).name@,
            old(net).unit_arcs() ==> net.unit_arcs(),
            f == (|i: int| series_transition(n, n.transitions[i])),
            forall|j: int| 0 <= j < i ==> !#[trigger] f(j),
    {
        let t = net.transitions[i].name.clone();
        proof {
            assert(n.transitions[i as int] == (t@, net.transitions@[i as int].label.deep_view()));
        }
        if net.transitions[i].label.is_none() {
            let in_places = net.neighbours(t.as_str(), true, true);
            let out_places = net.neighbours(t.as_str(), false, true);
            if in_places.len() == 1 && out_places.len() == 1 && !str_eq(in_places[0].as_str(), out_places[0].as_str()) {
                proof {
                    assert(f(i as int));
                    lemma_first_hit(len as int, f, i as int);
                }
                let in_p = in_places[0].clone();
                let out_p = out_places[0].clone();
                let pre_trans = net.neighbours(in_p.as_str(), true, false);
                let post_trans = net.neighbours(out_p.as_str(), false, false);
                net.remove_place(in_p.as_str());
                net.remove_place(out_p.as_str());
                net.remove_transition(t.as_str());
                add_merge_places(net, &pre_trans, &post_trans);
                return true;
            }
        }
        proof {
            assert(!f(i as int));
        }
    }
    proof {
        lemma_no_hit(len as int, f);
    }
    false
}

// ─── Elimination of identical places ───────────────────────────────────────

/// `a` and `b` hold the same names, counted with multiplicity.
pub open spec fn same_counts(a: Seq<Seq<char>>, b: Seq<Seq<char>>) -> bool {
    forall|x: Seq<char>| #![trigger seq_count(a, x)] #![trigger seq_count(b, x)] seq_count(a, x) == seq_count(b, x)
}

/// Places `p` and `q` have the same input and the same output transitions.
pub open spec fn same_signature(n: NetView, p: Seq<char>, q: Seq<char>) -> bool {
    same_counts(pre_transitions(n, p), pre_transitions(n, q)) && same_counts(post_transitions(n, p), post_transitions(n, q))
}

/// Some later place has the same signature as place `i`.
pub open spec fn has_later_twin(n: NetView, i: int) -> bool {
    exists|j: int| i < j < n.places.len() && same_signature(n, n.places[i], #[trigger] n.places[j])
}

/// The later places with the same signature as place `i`.
pub open spec fn later_twins(n: NetView, i: int) -> Seq<Seq<char>> {
    n.places.subrange(i + 1, n.places.len() as int).filter(|q: Seq<char>| same_signature(n, n.places[i], q))
}

/// The net without the places named in `names` and the arcs that touch them.
pub open spec fn without_places(n: NetView, names: Seq<Seq<char>>) -> NetView {
    NetView {
        places: n.places.filter(|x: Seq<char>| !names.contains(x)),
        transitions: n.transitions,
        arcs: n.arcs.filter(|a: (Seq<char>, Seq<char>)| !names.contains(a.0) && !names.contains(a.1)),
    }
}

/// Keeps the first place of the first group of places with equal
/// signatures and removes the others; says whether there was such a group.
pub open spec fn identical_step(n: NetView) -> (bool, NetView) {
    match first_hit(n.places.len() as int, |i: int| has_later_twin(n, i)) {
        Some(i) => (true, without_places(n, later_twins(n, i))),
        None => (false, n),
    }
}

/// The number of occurrences of `x` in `v`.
fn count_of(v: &Vec<String>, x: &str) -> (res: usize)
    ensures
        res == seq_count(v.deep_view(), x@),
{
    let ghost dv = v.deep_view();
    let mut c: usize = 0;
    for k in 0..v.len()
        invariant
            dv == v.deep_view(),
            c == seq_count(dv.take(k as int), x@),
            c <= k,
    {
        proof {
            lemma_seq_count_take_step(dv, k as int, x@);
        }
        if str_eq(v[k].as_str(), x) {
            c = c + 1;
        }
    }
    proof {
        assert(dv.take(dv.len() as int) =~= dv);
    }
    c
}

/// Whether `a` and `b` hold the same names with the same multiplicities.
fn same_names(a: &Vec<String>, b: &Vec<String>) -> (res: bool)
    ensures
        res == same_counts(a.deep_view(), b.deep_view()),
{
    let ghost av = a.deep_view();
    let ghost bv = b.deep_view();
    for k in 0..a.len()
        invariant
            av == a.deep_view(),
            bv == b.deep_view(),
            forall|j: int| 0 <= j < k ==> seq_count(av, #[trigger] av[j]) == seq_count(bv, av[j]),
    {
        if count_of(a, a[k].as_str()) != count_of(b, a[k].as_str()) {
            return false;
        }
    }
    for k in 0..b.len()
        invariant
            av == a.deep_view(),
            bv == b.deep_view(),
            forall|j: int| 0 <= j < av.len() ==> seq_count(av, #[trigger] av[j]) == seq_count(bv, av[j]),
            forall|j: int| 0 <= j < k ==> seq_count(av, #[trigger] bv[j]) == seq_count(bv, bv[j]),
    {
        if count_of(a, b[k].as_str()) != count_of(b, b[k].as_str()) {
            return false;
        }
    }
    proof {
        assert forall|x: Seq<char>| #![trigger seq_count(av, x)] #![trigger seq_count(bv, x)] seq_count(av, x) == seq_count(bv, x) by {
            lemma_seq_count_pos(av, x);
            lemma_seq_count_pos(bv, x);
            if av.contains(x) {
                let j = choose|j: int| 0 <= j < av.len() && av[j] == x;
                assert(seq_count(av, av[j]) == seq_count(bv, av[j]));
            } else if bv.contains(x) {
                let j = choose|j: int| 0 <= j < bv.len() && bv[j] == x;
                assert(seq_count(av, bv[j]) == seq_count(bv, bv[j]));
            }
        }
    }
    true
}

/// The input and output transitions of every place, in place order.
fn signatures(net: &PetriNet) -> (res: Vec<(Vec<String>, Vec<String>)>)
    ensures
        res@.len() == net@.places.len(),
        forall|i: int| 0 <= i < res@.len() ==> (#[trigger] res@[i]).0.deep_view() == pre_transitions(net@, net@.places[i])
            && res@[i].1.deep_view() == post_transitions(net@, net@.places[i]),
{
    let mut out: Vec<(Vec<String>, Vec<String>)> = Vec::new();
    for i in 0..net.places.len()
        invariant
            out@.len() == i,
            forall|j: int| 0 <= j < i ==> (#[trigger] out@[j]).0.deep_view() == pre_transitions(net@, net@.places[j])
                && out@[j].1.deep_view() == post_transitions(net@, net@.places[j]),
    {
        proof {
            assert(net@.places[i as int] == net.places@[i as int].name@);
        }
        let pre = net.neighbours(net.places[i].name.as_str(), true, false);
        let post = net.neighbours(net.places[i].name.as_str(), false, false);
        out.push((pre, post));
    }
    out
}

/// Removes the places named in `names` and the arcs that touch them.
fn remove_places(net: &mut PetriNet, names: &Vec<String>)
    ensures
        final(net).name@ == old(net).name@,
        old(net).unit_arcs() ==> final(net).unit_arcs(),
        final(net)@ == without_places(old(net)@, names.deep_view()),
{
    let ghost n = net@;
    let ghost nv = names.deep_view();
    let ghost keep_p = |x: Seq<char>| !nv.contains(x);
    let ghost keep_a = |a: (Seq<char>, Seq<char>)| !nv.contains(a.0) && !nv.contains(a.1);
    let mut places: Vec<crate::petri_net::Place> = Vec::new();
    for i in 0..net.places.len()
        invariant
            n == net@,
            nv == names.deep_view(),
            keep_p == (|x: Seq<char>| !nv.contains(x)),
            places.deep_view() == n.places.take(i as int).filter(keep_p),
    {
        proof {
            crate::event_log::lemma_filter_take_step(n.places, keep_p, i as int);
            assert(n.places[i as int] == net.places@[i as int].name@);
        }
        if !crate::filtering::activities::contains_string(names.as_slice(), net.places[i].name.as_str()) {
            let ghost before = places.deep_view();
            places.push(net.places[i].clone());
            proof {
                assert(places.deep_view() =~= before.push(n.places[i as int]));
            }
        }
    }
    let mut arcs: Vec<crate::petri_net::Arc> = Vec::new();
    for i in 0..net.arcs.len()
        invariant
            n == net@,
            nv == names.deep_view(),
            keep_a == (|a: (Seq<char>, Seq<char>)| !nv.contains(a.0) && !nv.contains(a.1)),
            arcs.deep_view() == n.arcs.take(i as int).filter(keep_a),
            net.unit_arcs() ==> forall|j: int| 0 <= j < arcs@.len() ==> #[trigger] arcs@[j].weight == 1,
    {
        proof {
            crate::event_log::lemma_filter_take_step(n.arcs, keep_a, i as int);
            assert(n.arcs[i as int] == (net.arcs@[i as int].source@, net.arcs@[i as int].target@));
        }
        if !crate::filtering::activities::contains_string(names.as_slice(), net.arcs[i].source.as_str())
            && !crate::filtering::activities::contains_string(names.as_slice(), net.arcs[i].target.as_str()) {
            let ghost before = arcs.deep_view();
            arcs.push(net.arcs[i].clone());
            proof {
                assert(arcs.deep_view() =~= before.push(n.arcs[i as int]));
            }
        }
    }
    proof {
        assert(n.places.take(n.places.len() as int) =~= n.places);
        assert(n.arcs.take(n.arcs.len() as int) =~= n.arcs);
    }
    net.places = places;
    net.arcs = arcs;
}

/// The names of the places after place `i` with the same signature.
fn collect_twins(net: &PetriNet, sigs: &Vec<(Vec<String>, Vec<String>)>, i: usize) -> (res: Vec<String>)
    requires
        i < net@.places.len(),
        sigs@.len() == net@.places.len(),
        forall|x: int| 0 <= x < sigs@.len() ==> (#[trigger] sigs@[x]).0.deep_view() == pre_transitions(net@, net@.places[x])
            && sigs@[x].1.deep_view() == post_transitions(net@, net@.places[x]),
    ensures
        res.deep_view() == later_twins(net@, i as int),
{
    let ghost n = net@;
    let len = net.places.len();
    let ghost keep = |q: Seq<char>| same_signature(n, n.places[i as int], q);
    let mut names: Vec<String> = Vec::new();
    for k in i + 1..len
        invariant
            len == n.places.len(),
            n == net@,
            sigs@.len() == len,
            i < len,
            forall|x: int| 0 <= x < sigs@.len() ==> (#[trigger] sigs@[x]).0.deep_view() == pre_transitions(n, n.places[x])
                && sigs@[x].1.deep_view() == post_transitions(n, n.places[x]),
            keep == (|q: Seq<char>| same_signature(n, n.places[i as int], q)),
            names.deep_view() == n.places.subrange(i + 1, k as int).filter(keep),
    {
        let ghost sub = n.places.subrange(i + 1, k as int);
        proof {
            assert(n.places.subrange(i + 1, k + 1) =~= sub.push(n.places[k as int]));
            crate::event_log::lemma_filter_take_step(sub.push(n.places[k as int]), keep, sub.len() as int);
            assert(sub.push(n.places[k as int]).take(sub.len() as int) =~= sub);
            assert(sub.push(n.places[k as int]).take(sub.len() as int + 1) =~= sub.push(n.places[k as int]));
            assert(n.places[k as int] == net.places@[k as int].name@);
        }
        if same_names(&sigs[i].0, &sigs[k].0) && same_names(&sigs[i].1, &sigs[k].1) {
            let ghost before = names.deep_view();
            names.push(net.places[k].name.clone());
            proof {
                assert(names.deep_view() =~= before.push(n.places[k as int]));
            }
        }
    }
    names
}

/// Removes every place that has the same input and output transitions
/// (as multisets) as an earlier place, for the group of the first place
/// that has such a later twin. Returns whether places were removed.
pub fn eliminate_identical_places(net: &mut PetriNet) -> (res: bool)
    ensures
        final(net).name@ == old(net).name@,
        old(net).unit_arcs() ==> final(net).unit_arcs(),
        (res, final(net)@) == identical_step(old(net)@),
{
    let ghost n = net@;
    let ghost f = |i: int| has_later_twin(n, i);
    let sigs = signatures(net);
    let len = net.places.len();
    for i in 0..len
        invariant
            len == n.places.len(),
            n == net@,
            n == old(net)@,
            net.name@ == old(net).name@,
            old(net).unit_arcs() ==> net.unit_arcs(),
            sigs@.len() == len,
            forall|x: int| 0 <= x < sigs@.len() ==> (#[trigger] sigs@[x]).0.deep_view() == pre_transitions(n, n.places[x])
                && sigs@[x].1.deep_view() == post_transitions(n, n.places[x]),
            f == (|i: int| has_later_twin(n, i)),
            forall|j: int| 0 <= j < i ==> !#[trigger] f(j),
    {
        let mut twin = false;
        for j in i + 1..len
            invariant
                len == n.places.len(),
                sigs@.len() == len,
                i < len,
                forall|x: int| 0 <= x < sigs@.len() ==> (#[trigger] sigs@[x]).0.deep_view() == pre_transitions(n, n.places[x])
                    && sigs@[x].1.deep_view() == post_transitions(n, n.places[x]),
                twin ==> has_later_twin(n, i as int),
                !twin ==> forall|y: int| i < y < j ==> !same_signature(n, n.places[i as int], #[trigger] n.places[y]),
        {
            if !twin && same_names(&sigs[i].0, &sigs[j].0) && same_names(&sigs[i].1, &sigs[j].1) {
                proof {
                    assert(same_signature(n, n.places[i as int], n.places[j as int]));
                }
                twin = true;
            }
        }
        if twin {
            proof {
                assert(f(i as int));
                lemma_first_hit(len as int, f, i as int);
            }
            let names = collect_twins(net, &sigs, i);
            remove_places(net, &names);
            return true;
        }
        proof {
            assert(!f(i as int));
        }
    }
    proof {
        lemma_no_hit(len as int, f);
    }
    false
}

// ─── Counting ──────────────────────────────────────────────────────────────

/// The number of indices below `len` at which `f` holds.
pub open spec fn count_indices(len: int, f: spec_fn(int) -> bool) -> nat
    decreases len,
{
    if len <= 0 {
        0
    } else {
        count_indices(len - 1, f) + if f(len - 1) { 1nat } else { 0nat }
    }
}

pub proof fn lemma_count_indices_le(len: int, f: spec_fn(int) -> bool)
    requires
        0 <= len,
    ensures
        count_indices(len, f) <= len,
    decreases len,
{
    if len > 0 {
        lemma_count_indices_le(len - 1, f);
    }
}

pub proof fn lemma_count_indices_zero(len: int, f: spec_fn(int) -> bool)
    requires
        0 <= len,
    ensures
        count_indices(len, f) == 0 <==> forall|i: int| 0 <= i < len ==> !#[trigger] f(i),
    decreases len,
{
    if len > 0 {
        lemma_count_indices_zero(len - 1, f);
    }
}

/// Some earlier place has the same signature as place `i`.
pub open spec fn has_earlier_twin(n: NetView, i: int) -> bool {
    exists|k: int| 0 <= k < i && same_signature(n, #[trigger] n.places[k], n.places[i])
}

/// Rule `rule` finds index `i`: a self-loop place (0), a series place (1),
/// a series transition (2), or a place that repeats the signature of an
/// earlier place (3).
pub open spec fn rule_finds(n: NetView, rule: u8, i: int) -> bool {
    if rule == 0 {
        self_loop_place(n, n.places[i])
    } else if rule == 1 {
        series_place(n, n.places[i])
    } else if rule == 2 {
        series_transition(n, n.transitions[i])
    } else {
        has_earlier_twin(n, i)
    }
}

/// How many indices each rule finds.
pub open spec fn rule_count(n: NetView, rule: u8) -> nat {
    count_indices(if rule == 2 { n.transitions.len() as int } else { n.places.len() as int }, |i: int| rule_finds(n, rule, i))
}

/// The number of elements that the reduction rules find in the net.
pub open spec fn reducible_count(n: NetView) -> nat {
    rule_count(n, 0) + rule_count(n, 1) + rule_count(n, 2) + rule_count(n, 3)
}

/// Counts the places or transitions that rule `rule` finds.
fn count_rule(net: &PetriNet, rule: u8) -> (res: usize)
    requires
        rule < 4,
    ensures
        res == rule_count(net@, rule),
{
    let ghost n = net@;
    let ghost f = |i: int| rule_finds(n, rule, i);
    let len = if rule == 2 { net.transitions.len() } else { net.places.len() };
    let sigs = signatures(net);
    let mut c: usize = 0;
    for i in 0..len
        invariant
            n == net@,
            len == if rule == 2 { n.transitions.len() } else { n.places.len() },
            sigs@.len() == n.places.len(),
            forall|x: int| 0 <= x < sigs@.len() ==> (#[trigger] sigs@[x]).0.deep_view() == pre_transitions(n, n.places[x])
                && sigs@[x].1.deep_view() == post_transitions(n, n.places[x]),
            f == (|i: int| rule_finds(n, rule, i)),
            rule < 4,
            c == count_indices(i as int, f),
            c <= i,
    {
        let hit = if rule == 0 {
            sigs[i].0.len() == 1 && sigs[i].1.len() == 1 && str_eq(sigs[i].0[0].as_str(), sigs[i].1[0].as_str())
        } else if rule == 1 {
            sigs[i].0.len() == 1 && sigs[i].1.len() == 1 && is_silent(net, sigs[i].0[0].as_str())
                && is_silent(net, sigs[i].1[0].as_str()) && !str_eq(sigs[i].0[0].as_str(), sigs[i].1[0].as_str())
        } else if rule == 2 {
            if net.transitions[i].label.is_none() {
                let t = net.transitions[i].name.as_str();
                let in_places = net.neighbours(t, true, true);
                let out_places = net.neighbours(t, false, true);
                proof {
                    assert(n.transitions[i as int] == (t@, net.transitions@[i as int].label.deep_view()));
                }
                in_places.len() == 1 && out_places.len() == 1 && !str_eq(in_places[0].as_str(), out_places[0].as_str())
            } else {
                proof {
                    assert(n.transitions[i as int].1 == net.transitions@[i as int].label.deep_view());
                }
                false
            }
        } else {
            let mut found = false;
            for k in 0..i
                invariant
                    i < sigs@.len(),
                    forall|x: int| 0 <= x < sigs@.len() ==> (#[trigger] sigs@[x]).0.deep_view() == pre_transitions(n, n.places[x])
                        && sigs@[x].1.deep_view() == post_transitions(n, n.places[x]),
                    found ==> has_earlier_twin(n, i as int),
                    !found ==> forall|y: int| 0 <= y < k ==> !same_signature(n, #[trigger] n.places[y], n.places[i as int]),
            {
                if !found && same_names(&sigs[k].0, &sigs[i].0) && same_names(&sigs[k].1, &sigs[i].1) {
                    proof {
                        assert(same_signature(n, n.places[k as int], n.places[i as int]));
                    }
                    found = true;
                }
            }
            found
        };
        proof {
            assert(hit == f(i as int));
        }
        if hit {
            c = c + 1;
        }
    }
    c
}

/// Counts what the reduction rules find in the net without changing it:
/// self-loop places, series places, series transitions, and places that
/// repeat the signature of an earlier place.
pub fn count_reducible_elements(net: &PetriNet) -> (res: usize)
    requires
        3 * net@.places.len() + net@.transitions.len() <= usize::MAX,
    ensures
        res == reducible_count(net@),
{
    let ghost n = net@;
    proof {
        lemma_count_indices_le(n.places.len() as int, |i: int| rule_finds(n, 0, i));
        lemma_count_indices_le(n.places.len() as int, |i: int| rule_finds(n, 1, i));
        lemma_count_indices_le(n.transitions.len() as int, |i: int| rule_finds(n, 2, i));
        lemma_count_indices_le(n.places.len() as int, |i: int| rule_finds(n, 3, i));
    }
    let a = count_rule(net, 0);
    let b = count_rule(net, 1);
    let c = count_rule(net, 2);
    let d = count_rule(net, 3);
    a + b + c + d
}

// ─── Reduction to a fixed point ─────────────────────────────────────────────

/// One round: each rule once, in the order self-loop places, series
/// places, series transitions, identical places; says whether any applied.
pub open spec fn reduction_round(n: NetView) -> (bool, NetView) {
    let a = self_loop_step(n);
    let b = series_place_step(a.1);
    let c = series_transition_step(b.1);
    let d = identical_step(c.1);
    (a.0 || b.0 || c.0 || d.0, d.1)
}

/// The net after rounds are repeated until one changes nothing.
pub open spec fn fully_reduced(n: NetView) -> NetView
    decreases n.transitions.len(), n.places.len(),
    via fully_reduced_decreases
{
    let r = reduction_round(n);
    if r.0 {
        fully_reduced(r.1)
    } else {
        n
    }
}

#[via_fn]
proof fn fully_reduced_decreases(n: NetView) {
    lemma_round_shrinks(n);
}

/// `m` is smaller than `n`: fewer transitions, or as many and fewer places.
pub open spec fn smaller(m: NetView, n: NetView) -> bool {
    m.transitions.len() < n.transitions.len()
        || (m.transitions.len() == n.transitions.len() && m.places.len() < n.places.len())
}

proof fn lemma_filter_drops<A>(s: Seq<A>, p: spec_fn(A) -> bool, i: int)
    requires
        0 <= i < s.len(),
        !p(s[i]),
    ensures
        s.filter(p).len() < s.len(),
    decreases s.len(),
{
    reveal(Seq::filter);
    let d = s.drop_last();
    d.lemma_filter_len(p);
    if i < s.len() - 1 {
        assert(d[i] == s[i]);
        lemma_filter_drops(d, p, i);
    }
}

proof fn lemma_self_loop_step(n: NetView)
    ensures
        self_loop_step(n).1.transitions == n.transitions,
        self_loop_step(n).0 ==> self_loop_step(n).1.places.len() < n.places.len(),
        !self_loop_step(n).0 ==> self_loop_step(n).1 == n,
{
    let f = |i: int| self_loop_place(n, n.places[i]);
    lemma_first_hit_some(n.places.len() as int, f);
    if let Some(i) = first_hit(n.places.len() as int, f) {
        assert(f(i));
        lemma_filter_drops(n.places, |x: Seq<char>| x != n.places[i], i);
    }
}

proof fn lemma_silent_exists(n: NetView, t: Seq<char>)
    requires
        silent(n, t),
    ensures
        exists|i: int| 0 <= i < n.transitions.len() && #[trigger] n.transitions[i].0 == t,
{
    let f = transition_named(n, t);
    lemma_first_hit_some(n.transitions.len() as int, f);
    let i = first_hit(n.transitions.len() as int, f)->0;
    assert(f(i));
    assert(n.transitions[i].0 == t);
}

pub(crate) proof fn lemma_series_place_step(n: NetView)
    ensures
        series_place_step(n).1.transitions.len() <= n.transitions.len(),
        series_place_step(n).0 ==> series_place_step(n).1.transitions.len() < n.transitions.len(),
        !series_place_step(n).0 ==> series_place_step(n).1 == n,
{
    let f = |i: int| series_place(n, n.places[i]);
    lemma_first_hit_some(n.places.len() as int, f);
    if let Some(i) = first_hit(n.places.len() as int, f) {
        assert(f(i));
        lemma_silent_exists(n, post_transitions(n, n.places[i])[0]);
        let k = choose|k: int| 0 <= k < n.transitions.len() && #[trigger] n.transitions[k].0 == post_transitions(n, n.places[i])[0];
        lemma_filter_drops(n.transitions, |x: (Seq<char>, Option<Seq<char>>)| x.0 != post_transitions(n, n.places[i])[0], k);
    }
}

proof fn lemma_series_transition_step(n: NetView)
    ensures
        series_transition_step(n).1.transitions.len() <= n.transitions.len(),
        series_transition_step(n).0 ==> series_transition_step(n).1.transitions.len() < n.transitions.len(),
        !series_transition_step(n).0 ==> series_transition_step(n).1 == n,
{
    let f = |i: int| series_transition(n, n.transitions[i]);
    lemma_first_hit_some(n.transitions.len() as int, f);
    if let Some(i) = first_hit(n.transitions.len() as int, f) {
        assert(f(i));
        lemma_filter_drops(n.transitions, |x: (Seq<char>, Option<Seq<char>>)| x.0 != n.transitions[i].0, i);
    }
}

proof fn lemma_identical_step(n: NetView)
    ensures
        identical_step(n).1.transitions == n.transitions,
        identical_step(n).0 ==> identical_step(n).1.places.len() < n.places.len(),
        !identical_step(n).0 ==> identical_step(n).1 == n,
{
    let f = |i: int| has_later_twin(n, i);
    lemma_first_hit_some(n.places.len() as int, f);
    if let Some(i) = first_hit(n.places.len() as int, f) {
        assert(f(i));
        let j = choose|j: int| i < j < n.places.len() && same_signature(n, n.places[i], #[trigger] n.places[j]);
        let names = later_twins(n, i);
        let sub = n.places.subrange(i + 1, n.places.len() as int);
        let keep = |q: Seq<char>| same_signature(n, n.places[i], q);
        assert(sub[j - i - 1] == n.places[j]);
        sub.lemma_filter_contains(keep, j - i - 1);
        lemma_filter_drops(n.places, |x: Seq<char>| !names.contains(x), j);
    }
}

/// A round that changes something makes the net smaller.
pub proof fn lemma_round_shrinks(n: NetView)
    ensures
        reduction_round(n).0 ==> smaller(reduction_round(n).1, n),
        !reduction_round(n).0 ==> reduction_round(n).1 == n,
{
    let a = self_loop_step(n);
    let b = series_place_step(a.1);
    let c = series_transition_step(b.1);
    lemma_self_loop_step(n);
    lemma_series_place_step(a.1);
    lemma_series_transition_step(b.1);
    lemma_identical_step(c.1);
}

/// Applies the four reduction rules round after round until a round
/// changes nothing.
pub fn reduce_petri_net(net: &mut PetriNet)
    ensures
        final(net).name@ == old(net).name@,
        old(net).unit_arcs() ==> final(net).unit_arcs(),
        final(net)@ == fully_reduced(old(net)@),
{
    loop
        invariant
            net.name@ == old(net).name@,
            old(net).unit_arcs() ==> net.unit_arcs(),
            fully_reduced(net@) == fully_reduced(old(net)@),
        ensures
            net.name@ == old(net).name@,
            old(net).unit_arcs() ==> net.unit_arcs(),
            net@ == fully_reduced(old(net)@),
        decreases net@.transitions.len(), net@.places.len(),
    {
        let ghost before = net@;
        let a = eliminate_self_loop_places(net);
        let b = fuse_series_places(net);
        let c = fuse_series_transitions(net);
        let d = eliminate_identical_places(net);
        proof {
            lemma_round_shrinks(before);
            assert(reduction_round(before) == (a || b || c || d, net@));
        }
        if !(a || b || c || d) {
            break;
        }
    }
}

/// A fully reduced net is a fixed point: no rule applies to it any more.
pub proof fn lemma_fully_reduced_is_fixed_point(n: NetView)
    ensures
        !reduction_round(fully_reduced(n)).0,
        reduction_round(fully_reduced(n)).1 == fully_reduced(n),
    decreases n.transitions.len(), n.places.len(),
{
    lemma_round_shrinks(n);
    if reduction_round(n).0 {
        lemma_fully_reduced_is_fixed_point(reduction_round(n).1);
    } else {
        lemma_round_shrinks(n);
    }
}

/// Reducing a net twice gives the same net as reducing it once.
pub proof fn lemma_reduction_idempotent(n: NetView)
    ensures
        fully_reduced(fully_reduced(n)) == fully_reduced(n),
{
    lemma_fully_reduced_is_fixed_point(n);
}

proof fn lemma_first_hit_found(len: int, f: spec_fn(int) -> bool, i: int)
    requires
        0 <= i < len,
        f(i),
    ensures
        first_hit(len, f) is Some,
    decreases i,
{
    if forall|j: int| 0 <= j < i ==> !#[trigger] f(j) {
        lemma_first_hit(len, f, i);
    } else {
        let j = choose|j: int| 0 <= j < i && #[trigger] f(j);
        lemma_first_hit_found(len, f, j);
    }
}

/// A net on which a round changes nothing has nothing reducible.
proof fn lemma_stable_counts_zero(n: NetView)
    requires
        !reduction_round(n).0,
    ensures
        reducible_count(n) == 0,
{
    lemma_self_loop_step(n);
    lemma_series_place_step(n);
    lemma_series_transition_step(n);
    let f0 = |i: int| rule_finds(n, 0, i);
    let f1 = |i: int| rule_finds(n, 1, i);
    let f2 = |i: int| rule_finds(n, 2, i);
    let f3 = |i: int| rule_finds(n, 3, i);
    let np = n.places.len() as int;
    let nt = n.transitions.len() as int;
    assert forall|i: int| 0 <= i < np implies !#[trigger] f0(i) by {
        if f0(i) {
            lemma_first_hit_found(np, |i: int| self_loop_place(n, n.places[i]), i);
        }
    }
    assert forall|i: int| 0 <= i < np implies !#[trigger] f1(i) by {
        if f1(i) {
            lemma_first_hit_found(np, |i: int| series_place(n, n.places[i]), i);
        }
    }
    assert forall|i: int| 0 <= i < nt implies !#[trigger] f2(i) by {
        if f2(i) {
            lemma_first_hit_found(nt, |i: int| series_transition(n, n.transitions[i]), i);
        }
    }
    assert forall|i: int| 0 <= i < np implies !#[trigger] f3(i) by {
        if f3(i) {
            let k = choose|k: int| 0 <= k < i && same_signature(n, #[trigger] n.places[k], n.places[i]);
            assert(has_later_twin(n, k));
            lemma_first_hit_found(np, |i: int| has_later_twin(n, i), k);
        }
    }
    lemma_count_indices_zero(np, f0);
    lemma_count_indices_zero(np, f1);
    lemma_count_indices_zero(nt, f2);
    lemma_count_indices_zero(np, f3);
}

/// After the reduction nothing is left for any rule to reduce.
pub proof fn lemma_reduced_has_nothing_reducible(n: NetView)
    ensures
        reducible_count(fully_reduced(n)) == 0,
{
    lemma_fully_reduced_is_fixed_point(n);
    lemma_stable_counts_zero(fully_reduced(n));
}

/// No name is shared by a silent and a labelled transition.
pub open spec fn silent_names_apart(n: NetView) -> bool {
    forall|i: int, j: int| 0 <= i < n.transitions.len() && 0 <= j < n.transitions.len()
        && #[trigger] n.transitions[i].0 == #[trigger] n.transitions[j].0
        ==> (n.transitions[i].1 is None <==> n.transitions[j].1 is None)
}

proof fn lemma_filter_keeps_apart(s: Seq<(Seq<char>, Option<Seq<char>>)>, p: spec_fn((Seq<char>, Option<Seq<char>>)) -> bool)
    requires
        forall|i: int, j: int| 0 <= i < s.len() && 0 <= j < s.len() && #[trigger] s[i].0 == #[trigger] s[j].0
            ==> (s[i].1 is None <==> s[j].1 is None),
    ensures
        forall|i: int, j: int| 0 <= i < s.filter(p).len() && 0 <= j < s.filter(p).len()
            && #[trigger] s.filter(p)[i].0 == #[trigger] s.filter(p)[j].0
            ==> (s.filter(p)[i].1 is None <==> s.filter(p)[j].1 is None),
{
    let f = s.filter(p);
    s.filter_lemma(p);
    assert forall|i: int, j: int| 0 <= i < f.len() && 0 <= j < f.len() && #[trigger] f[i].0 == #[trigger] f[j].0
        implies (f[i].1 is None <==> f[j].1 is None) by {
        assert(f.contains(f[i]) && f.contains(f[j]));
        s.lemma_filter_contains_rev(p, f[i]);
        s.lemma_filter_contains_rev(p, f[j]);
        let a = choose|a: int| 0 <= a < s.len() && s[a] == f[i];
        let b = choose|b: int| 0 <= b < s.len() && s[b] == f[j];
        assert(s[a].0 == s[b].0);
    }
}

/// The labelled (visible) transitions, in order.
pub open spec fn labelled_transitions(n: NetView) -> Seq<(Seq<char>, Option<Seq<char>>)> {
    n.transitions.filter(|t: (Seq<char>, Option<Seq<char>>)| t.1 is Some)
}

proof fn lemma_drop_silent_keeps_labelled(
    s: Seq<(Seq<char>, Option<Seq<char>>)>,
    y: Seq<char>,
    p: spec_fn((Seq<char>, Option<Seq<char>>)) -> bool,
    q: spec_fn((Seq<char>, Option<Seq<char>>)) -> bool,
)
    requires
        forall|x: (Seq<char>, Option<Seq<char>>)| #[trigger] p(x) == (x.0 != y),
        forall|x: (Seq<char>, Option<Seq<char>>)| #[trigger] q(x) == (x.1 is Some),
        forall|i: int| 0 <= i < s.len() && #[trigger] s[i].0 == y ==> s[i].1 is None,
    ensures
        s.filter(p).filter(q) == s.filter(q),
    decreases s.len(),
{
    reveal(Seq::filter);
    if s.len() > 0 {
        let d = s.drop_last();
        assert forall|i: int| 0 <= i < d.len() && #[trigger] d[i].0 == y implies d[i].1 is None by {
            assert(d[i] == s[i]);
        }
        lemma_drop_silent_keeps_labelled(d, y, p, q);
        if p(s.last()) {
            assert(s.filter(p) == d.filter(p).push(s.last()));
            assert(s.filter(p).drop_last() =~= d.filter(p));
        } else {
            assert(s.filter(p) == d.filter(p));
            assert(s[s.len() - 1].0 == y);
        }
    } else {
        assert(s.filter(p) =~= s);
    }
}

/// The transitions of one step: unchanged, or without the silent
/// transitions of some name; no name comes to be shared by a silent and a
/// labelled transition, and labelled ones stay.
proof fn lemma_round_keeps_labelled(n: NetView)
    requires
        silent_names_apart(n),
    ensures
        silent_names_apart(reduction_round(n).1),
        labelled_transitions(reduction_round(n).1) == labelled_transitions(n),
{
    let a = self_loop_step(n);
    lemma_self_loop_step(n);
    let b = series_place_step(a.1);
    lemma_series_place_step(a.1);
    lemma_step_keeps(a.1, true);
    let c = series_transition_step(b.1);
    lemma_series_transition_step(b.1);
    lemma_step_keeps(b.1, false);
    lemma_identical_step(c.1);
}

/// The series-place step (`place_rule`) or the series-transition step keeps
/// silent and labelled names apart and keeps the labelled transitions.
proof fn lemma_step_keeps(n: NetView, place_rule: bool)
    requires
        silent_names_apart(n),
    ensures
        ({
            let r = if place_rule { series_place_step(n).1 } else { series_transition_step(n).1 };
            silent_names_apart(r) && labelled_transitions(r) == labelled_transitions(n)
        }),
{
    if place_rule {
        lemma_place_step_keeps(n);
    } else {
        lemma_transition_step_keeps(n);
    }
}

proof fn lemma_place_step_keeps(n: NetView)
    requires
        silent_names_apart(n),
    ensures
        silent_names_apart(series_place_step(n).1),
        labelled_transitions(series_place_step(n).1) == labelled_transitions(n),
{
    let f = |i: int| series_place(n, n.places[i]);
    lemma_first_hit_some(n.places.len() as int, f);
    if let Some(i) = first_hit(n.places.len() as int, f) {
        assert(f(i));
        let out_t = post_transitions(n, n.places[i])[0];
        lemma_silent_exists(n, out_t);
        let tf = transition_named(n, out_t);
        lemma_first_hit_some(n.transitions.len() as int, tf);
        let k = first_hit(n.transitions.len() as int, tf)->0;
        assert(tf(k));
        assert(n.transitions[k].1 is None);
        assert forall|j: int| 0 <= j < n.transitions.len() && #[trigger] n.transitions[j].0 == out_t implies n.transitions[j].1 is None by {
            assert(n.transitions[k].0 == n.transitions[j].0);
        }
        lemma_drop_silent_keeps_labelled(n.transitions, post_transitions(n, n.places[i])[0],
            |x: (Seq<char>, Option<Seq<char>>)| x.0 != post_transitions(n, n.places[i])[0],
            |t: (Seq<char>, Option<Seq<char>>)| t.1 is Some);
        lemma_filter_keeps_apart(n.transitions, |x: (Seq<char>, Option<Seq<char>>)| x.0 != post_transitions(n, n.places[i])[0]);
    }
}

proof fn lemma_transition_step_keeps(n: NetView)
    requires
        silent_names_apart(n),
    ensures
        silent_names_apart(series_transition_step(n).1),
        labelled_transitions(series_transition_step(n).1) == labelled_transitions(n),
{
    let f = |i: int| series_transition(n, n.transitions[i]);
    lemma_first_hit_some(n.transitions.len() as int, f);
    if let Some(i) = first_hit(n.transitions.len() as int, f) {
        assert(f(i));
        let t = n.transitions[i].0;
        assert(n.transitions[i].1 is None);
        assert forall|j: int| 0 <= j < n.transitions.len() && #[trigger] n.transitions[j].0 == t implies n.transitions[j].1 is None by {
            assert(n.transitions[i].0 == n.transitions[j].0);
        }
        lemma_drop_silent_keeps_labelled(n.transitions, n.transitions[i].0,
            |x: (Seq<char>, Option<Seq<char>>)| x.0 != n.transitions[i].0,
            |t: (Seq<char>, Option<Seq<char>>)| t.1 is Some);
        lemma_filter_keeps_apart(n.transitions, |x: (Seq<char>, Option<Seq<char>>)| x.0 != n.transitions[i].0);
        assert(series_transition_step(n).1 == fuse_series_transition_at(n, t));
        let in_p = pre_places(n, t)[0];
        let out_p = post_places(n, t)[0];
        assert(fuse_series_transition_at(n, t).transitions == without_transition(without_place(without_place(n, in_p), out_p), t).transitions);
        assert(without_place(without_place(n, in_p), out_p).transitions == n.transitions);
    }
}

/// When no name is shared by a silent and a labelled transition, the
/// reduction keeps every labelled transition, in order: only silent
/// transitions are removed.
pub proof fn lemma_reduction_keeps_labelled(n: NetView)
    requires
        silent_names_apart(n),
    ensures
        labelled_transitions(fully_reduced(n)) == labelled_transitions(n),
    decreases n.transitions.len(), n.places.len(),
{
    lemma_round_shrinks(n);
    lemma_round_keeps_labelled(n);
    if reduction_round(n).0 {
        lemma_reduction_keeps_labelled(reduction_round(n).1);
    }
}

} // verus!
