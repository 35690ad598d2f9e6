//! A* alignment search for trace-to-model conformance checking.
//!
//! Builds a synchronous product net between the trace and the Petri net
//! model, then searches it best-first for a firing sequence from the
//! initial to the goal marking, guided by a lower bound on the remaining
//! cost. Each state in the search is a marking of the product net. Costs
//! are whole numbers: a synchronous move costs nothing, a log move or a
//! visible model move costs `LOG_MOVE_COST`, a silent model move `TAU_COST`.

use vstd::prelude::*;
use crate::event_log::{trace_names, Trace};
use crate::petri_net::{entry_of, post_places, pre_places, Marking, NetView, PetriNet, Place};
use crate::text::str_eq;

verus! {

/// Cost of a synchronous move (trace event matches model transition).
pub const SYNC_COST: u64 = 0;
/// Cost of a log move (trace event has no matching model transition).
pub const LOG_MOVE_COST: u64 = 10000;
/// Cost of a visible model move (model transition fires without trace event).
pub const MODEL_MOVE_COST: u64 = 10000;
/// Cost of an invisible (silent/tau) model move.
pub const TAU_COST: u64 = 1;
/// Maximum number of A* state expansions per trace before giving up.
pub const MAX_EXPANSIONS: usize = 100000;

/// A transition of the synchronous product net, as values.
pub struct SyncMove {
    pub preset: Seq<usize>,
    pub postset: Seq<usize>,
    pub cost: u64,
    pub trace_label: Option<Seq<char>>,
    pub model_label: Option<Seq<char>>,
}

/// A transition in the synchronous product net: the places it takes a
/// token from and puts one on, by index, its cost and its labels.
#[derive(Debug)]
pub struct SyncTransition {
    pub preset: Vec<usize>,
    pub postset: Vec<usize>,
    pub cost: u64,
    pub trace_label: Option<String>,
    pub model_label: Option<String>,
}

impl DeepView for SyncTransition {
    type V = SyncMove;

    open spec fn deep_view(&self) -> SyncMove {
        SyncMove {
            preset: self.preset@,
            postset: self.postset@,
            cost: self.cost,
            trace_label: self.trace_label.deep_view(),
            model_label: self.model_label.deep_view(),
        }
    }
}

/// The synchronous product net: places `0..n_trace_places` follow the
/// trace (place `i` before its `i`-th event), the model's places come after
/// them in the model's order.
#[derive(Debug)]
pub struct SyncProductNet {
    pub n_trace_places: usize,
    pub transitions: Vec<SyncTransition>,
    pub initial_marking: Vec<u32>,
    pub goal_marking: Vec<u32>,
}

/// The index of the last place called `name`; -1 when there is none.
pub open spec fn place_slot(places: Seq<Seq<char>>, name: Seq<char>) -> int
    decreases places.len(),
{
    if places.len() == 0 {
        -1
    } else if places.last() == name {
        places.len() - 1
    } else {
        place_slot(places.drop_last(), name)
    }
}

/// The product-net indices of the named model places.
pub open spec fn slots(places: Seq<Seq<char>>, off: int, names: Seq<Seq<char>>) -> Seq<usize> {
    names.map_values(|p: Seq<char>| (off + place_slot(places, p)) as usize)
}

/// A synchronous move: event `i` of activity `a` together with the model
/// transition `t`.
pub open spec fn sync_move(n: NetView, t: (Seq<char>, Option<Seq<char>>), i: int, a: Seq<char>, off: int) -> SyncMove {
    SyncMove {
        preset: seq![i as usize] + slots(n.places, off, pre_places(n, t.0)),
        postset: seq![(i + 1) as usize] + slots(n.places, off, post_places(n, t.0)),
        cost: SYNC_COST,
        trace_label: Some(a),
        model_label: t.1,
    }
}

/// The synchronous moves of event `i`, one per model transition labelled
/// with its activity, in the model's order.
pub open spec fn event_sync_moves(n: NetView, i: int, a: Seq<char>, off: int) -> Seq<SyncMove> {
    n.transitions.filter(|t: (Seq<char>, Option<Seq<char>>)| t.1 == Some(a)).map_values(
        |t: (Seq<char>, Option<Seq<char>>)| sync_move(n, t, i, a, off),
    )
}

/// The synchronous moves of the first `k` events, event by event.
pub open spec fn sync_moves(n: NetView, names: Seq<Seq<char>>, k: int, off: int) -> Seq<SyncMove>
    decreases k,
{
    if k <= 0 {
        Seq::empty()
    } else {
        sync_moves(n, names, k - 1, off) + event_sync_moves(n, k - 1, names[k - 1], off)
    }
}

/// The log move of event `i` of activity `a`.
pub open spec fn log_move(i: int, a: Seq<char>) -> SyncMove {
    SyncMove {
        preset: seq![i as usize],
        postset: seq![(i + 1) as usize],
        cost: LOG_MOVE_COST,
        trace_label: Some(a),
        model_label: None,
    }
}

/// The model move of transition `t`.
pub open spec fn model_move(n: NetView, t: (Seq<char>, Option<Seq<char>>), off: int) -> SyncMove {
    SyncMove {
        preset: slots(n.places, off, pre_places(n, t.0)),
        postset: slots(n.places, off, post_places(n, t.0)),
        cost: if t.1 is None { TAU_COST } else { MODEL_MOVE_COST },
        trace_label: None,
        model_label: t.1,
    }
}

/// The transitions of the product net of `n` and a trace of activities
/// `names`: synchronous moves, then log moves, then model moves.
pub open spec fn sync_transitions(n: NetView, names: Seq<Seq<char>>) -> Seq<SyncMove> {
    let off = names.len() as int + 1;
    sync_moves(n, names, names.len() as int, off)
        + Seq::new(names.len(), |i: int| log_move(i, names[i]))
        + n.transitions.map_values(|t: (Seq<char>, Option<Seq<char>>)| model_move(n, t, off))
}

/// The tokens a marking gives the `j`-th model place (only the last place
/// of a name gets them).
pub open spec fn model_tokens(places: Seq<Seq<char>>, entries: Seq<(Seq<char>, u32)>, j: int) -> u32 {
    if place_slot(places, places[j]) == j {
        match entry_of(entries, places[j]) {
            Some(v) => v,
            None => 0,
        }
    } else {
        0
    }
}

/// A product-net marking: one token on trace place `pos` of the `e + 1`
/// trace places, and the model places marked as `entries` says.
pub open spec fn sync_marking(places: Seq<Seq<char>>, entries: Seq<(Seq<char>, u32)>, e: int, pos: int) -> Seq<u32> {
    Seq::new((e + 1 + places.len()) as nat, |k: int| if k <= e {
        if k == pos { 1u32 } else { 0u32 }
    } else {
        model_tokens(places, entries, k - (e + 1))
    })
}

proof fn lemma_place_slot(places: Seq<Seq<char>>, name: Seq<char>)
    ensures
        -1 <= place_slot(places, name) < places.len(),
        0 <= place_slot(places, name) ==> places[place_slot(places, name)] == name,
        forall|j: int| place_slot(places, name) < j < places.len() ==> #[trigger] places[j] != name,
        places.contains(name) ==> 0 <= place_slot(places, name),
    decreases places.len(),
{
    if places.len() > 0 && places.last() != name {
        lemma_place_slot(places.drop_last(), name);
        assert forall|j: int| place_slot(places, name) < j < places.len() implies #[trigger] places[j] != name by {
            if j < places.len() - 1 {
                assert(places[j] == places.drop_last()[j]);
            }
        }
        if places.contains(name) {
            let j = choose|j: int| 0 <= j < places.len() && places[j] == name;
            assert(places.drop_last()[j] == name);
        }
    }
}

/// The index of the last place called `name`.
fn find_place(places: &Vec<Place>, name: &str) -> (res: Option<usize>)
    ensures
        match res {
            Some(j) => j as int == place_slot(places.deep_view(), name@),
            None => place_slot(places.deep_view(), name@) == -1,
        },
{
    let ghost pv = places.deep_view();
    proof {
        lemma_place_slot(pv, name@);
    }
    let mut i = places.len();
    while i > 0
        invariant
            i <= places.len(),
            pv == places.deep_view(),
            forall|j: int| i <= j < places.len() ==> #[trigger] pv[j] != name@,
            -1 <= place_slot(pv, name@) < pv.len(),
            0 <= place_slot(pv, name@) ==> pv[place_slot(pv, name@)] == name@,
            forall|j: int| place_slot(pv, name@) < j < pv.len() ==> #[trigger] pv[j] != name@,
        decreases i,
    {
        if str_eq(places[i - 1].name.as_str(), name) {
            proof {
                assert(pv[i - 1] == name@);
            }
            return Some(i - 1);
        }
        i = i - 1;
    }
    proof {
        if place_slot(pv, name@) >= 0 {
            assert(pv[place_slot(pv, name@)] == name@);
        }
    }
    None
}

/// The names at the other ends of the arcs into or out of a node whose
/// other end is a place are places.
proof fn lemma_neighbour_places(n: NetView, node: Seq<char>, incoming: bool, k: int)
    requires
        0 <= k < crate::petri_net::neighbours(n, node, incoming, true).len(),
    ensures
        n.places.contains(crate::petri_net::neighbours(n, node, incoming, true)[k]),
{
    let keep = crate::petri_net::touches(n, node, incoming, true);
    n.arcs.lemma_filter_pred(keep, k);
}

/// The product-net indices of the named places of a transition's arcs.
fn slots_of(places: &Vec<Place>, off: usize, names: &Vec<String>, Ghost(n): Ghost<NetView>, Ghost(node): Ghost<Seq<char>>, Ghost(incoming): Ghost<bool>) -> (res: Vec<usize>)
    requires
        n.places == places.deep_view(),
        names.deep_view() == crate::petri_net::neighbours(n, node, incoming, true),
        off + places.len() <= usize::MAX,
    ensures
        res@ == slots(places.deep_view(), off as int, names.deep_view()),
{
    let ghost nv = names.deep_view();
    let mut out: Vec<usize> = Vec::new();
    for i in 0..names.len()
        invariant
            nv == names.deep_view(),
            n.places == places.deep_view(),
            nv == crate::petri_net::neighbours(n, node, incoming, true),
            off + places.len() <= usize::MAX,
            out@ == slots(places.deep_view(), off as int, nv.take(i as int)),
    {
        proof {
            lemma_neighbour_places(n, node, incoming, i as int);
            lemma_place_slot(places.deep_view(), nv[i as int]);
            assert(nv[i as int] == names@[i as int]@);
        }
        match find_place(places, names[i].as_str()) {
            Some(j) => {
                out.push(off + j);
                proof {
                    assert(out@ =~= slots(places.deep_view(), off as int, nv.take(i + 1)));
                }
            },
            None => {},
        }
    }
    proof {
        assert(nv.take(nv.len() as int) =~= nv);
    }
    out
}


/// `first` followed by `rest`.
fn prepend(first: usize, rest: &Vec<usize>) -> (res: Vec<usize>)
    ensures
        res@ == seq![first] + rest@,
{
    let mut out: Vec<usize> = Vec::new();
    out.push(first);
    for i in 0..rest.len()
        invariant
            out@ == seq![first] + rest@.take(i as int),
    {
        out.push(rest[i]);
        proof {
            assert(out@ =~= seq![first] + rest@.take(i + 1));
        }
    }
    proof {
        assert(rest@.take(rest@.len() as int) =~= rest@);
    }
    out
}

fn copy_indices(v: &Vec<usize>) -> (res: Vec<usize>)
    ensures
        res@ == v@,
{
    let mut out: Vec<usize> = Vec::new();
    for i in 0..v.len()
        invariant
            out@ == v@.take(i as int),
    {
        out.push(v[i]);
        proof {
            assert(out@ =~= v@.take(i + 1));
        }
    }
    proof {
        assert(v@.take(v@.len() as int) =~= v@);
    }
    out
}

fn copy_label(l: &Option<String>) -> (res: Option<String>)
    ensures
        res.deep_view() == l.deep_view(),
{
    match l {
        Some(x) => Some(x.clone()),
        None => None,
    }
}

/// A product-net marking as `sync_marking` states it.
fn sync_marking_of(places: &Vec<Place>, m: &Marking, e: usize, pos: usize) -> (res: Vec<u32>)
    requires
        pos <= e,
        e + 1 + places.len() <= usize::MAX,
    ensures
        res@ == sync_marking(places.deep_view(), m.tokens.deep_view(), e as int, pos as int),
{
    let ghost pv = places.deep_view();
    let ghost tv = m.tokens.deep_view();
    let off = e + 1;
    let total = off + places.len();
    let mut out: Vec<u32> = Vec::new();
    for k in 0..total
        invariant
            total == off + pv.len(),
            off == e + 1,
            pos <= e,
            out@.len() == k,
            forall|j: int| 0 <= j < k ==> #[trigger] out@[j] == if j == pos { 1u32 } else { 0u32 },
    {
        out.push(if k == pos { 1 } else { 0 });
    }
    let ghost empty = Seq::<(Seq<char>, u32)>::empty();
    proof {
        assert(tv.take(0) =~= empty);
    }
    for i in 0..m.tokens.len()
        invariant
            pv == places.deep_view(),
            tv == m.tokens.deep_view(),
            total == off + pv.len(),
            off == e + 1,
            pos <= e,
            out@.len() == total,
            forall|j: int| 0 <= j < off ==> #[trigger] out@[j] == if j == pos { 1u32 } else { 0u32 },
            forall|j: int| 0 <= j < pv.len() ==> #[trigger] out@[off + j] == model_tokens(pv, tv.take(i as int), j),
    {
        let name = m.tokens[i].0.as_str();
        let v = m.tokens[i].1;
        proof {
            assert(tv.take(i + 1).drop_last() =~= tv.take(i as int));
            assert(tv[i as int] == (name@, v));
            lemma_place_slot(pv, name@);
        }
        match find_place(places, name) {
            Some(j) => {
                out.set(off + j, v);
                proof {
                    assert forall|q: int| 0 <= q < pv.len() implies #[trigger] out@[off + q] == model_tokens(pv, tv.take(i + 1), q) by {
                        if q != j {
                            if pv[q] == name@ {
                                lemma_place_slot(pv, pv[q]);
                            }
                        }
                    }
                }
            },
            None => {
                proof {
                    assert forall|q: int| 0 <= q < pv.len() implies #[trigger] out@[off + q] == model_tokens(pv, tv.take(i + 1), q) by {
                        if pv[q] == name@ {
                            assert(pv.contains(name@));
                        }
                    }
                }
            },
        }
    }
    proof {
        assert(tv.take(tv.len() as int) =~= tv);
        assert(out@ =~= sync_marking(pv, tv, e as int, pos as int)) by {
            assert forall|k: int| 0 <= k < out@.len() implies #[trigger] out@[k] == sync_marking(pv, tv, e as int, pos as int)[k] by {
                if k >= off {
                    assert(out@[off + (k - off)] == model_tokens(pv, tv, k - off));
                }
            }
        }
    }
    out
}

impl SyncProductNet {
    /// Build the synchronous product net from the Petri net and trace, as
    /// `sync_transitions` and `sync_marking` state it: one trace place per
    /// event and one after the last, then the model's places.
    pub fn build(net: &PetriNet, initial_marking: &Marking, final_marking: &Marking, trace: &Trace) -> (res: Self)
        requires
            trace.events.len() + 1 + net.places.len() <= usize::MAX,
        ensures
            res.n_trace_places == trace.events.len() + 1,
            res.transitions.deep_view() == sync_transitions(net@, trace_names(trace.deep_view())),
            res.initial_marking@ == sync_marking(net@.places, initial_marking.tokens.deep_view(), trace.events.len() as int, 0),
            res.goal_marking@ == sync_marking(
                net@.places,
                final_marking.tokens.deep_view(),
                trace.events.len() as int,
                trace.events.len() as int,
            ),
    {
        let ghost n = net@;
        let ghost names = trace_names(trace.deep_view());
        let e = trace.events.len();
        let off = e + 1;
        // Input and output places of each model transition, as indices.
        let mut pres: Vec<Vec<usize>> = Vec::new();
        let mut posts: Vec<Vec<usize>> = Vec::new();
        for k in 0..net.transitions.len()
            invariant
                n == net@,
                off + net.places.len() <= usize::MAX,
                pres@.len() == k,
                posts@.len() == k,
                forall|j: int| 0 <= j < k ==> #[trigger] pres@[j]@ == slots(n.places, off as int, pre_places(n, n.transitions[j].0)),
                forall|j: int| 0 <= j < k ==> #[trigger] posts@[j]@ == slots(n.places, off as int, post_places(n, n.transitions[j].0)),
        {
            let name = net.transitions[k].name.as_str();
            proof {
                assert(n.transitions[k as int].0 == name@);
            }
            let pre = net.neighbours(name, true, true);
            let post = net.neighbours(name, false, true);
            pres.push(slots_of(&net.places, off, &pre, Ghost(n), Ghost(name@), Ghost(true)));
            posts.push(slots_of(&net.places, off, &post, Ghost(n), Ghost(name@), Ghost(false)));
        }
        let mut transitions: Vec<SyncTransition> = Vec::new();
        // Synchronous moves, event by event.
        for i in 0..e
            invariant
                n == net@,
                names == trace_names(trace.deep_view()),
                e == trace.events.len(),
                off == e + 1,
                pres@.len() == n.transitions.len(),
                posts@.len() == n.transitions.len(),
                forall|j: int| 0 <= j < n.transitions.len() ==> #[trigger] pres@[j]@ == slots(n.places, off as int, pre_places(n, n.transitions[j].0)),
                forall|j: int| 0 <= j < n.transitions.len() ==> #[trigger] posts@[j]@ == slots(n.places, off as int, post_places(n, n.transitions[j].0)),
                transitions.deep_view() == sync_moves(n, names, i as int, off as int),
        {
            let a = trace.events[i].name.as_str();
            let ghost base = transitions.deep_view();
            let ghost ts = n.transitions;
            let ghost lab = |t: (Seq<char>, Option<Seq<char>>)| t.1 == Some(a@);
            let ghost mk = |t: (Seq<char>, Option<Seq<char>>)| sync_move(n, t, i as int, a@, off as int);
            proof {
                assert(names[i as int] == a@);
                assert(ts.take(0).filter(lab).map_values(mk) =~= Seq::<SyncMove>::empty());
                assert(base + ts.take(0).filter(lab).map_values(mk) =~= base);
            }
            for k in 0..net.transitions.len()
                invariant
                    n == net@,
                    ts == n.transitions,
                    lab == (|t: (Seq<char>, Option<Seq<char>>)| t.1 == Some(a@)),
                    mk == (|t: (Seq<char>, Option<Seq<char>>)| sync_move(n, t, i as int, a@, off as int)),
                    i < e,
                    e == trace.events.len(),
                    off == e + 1,
                    pres@.len() == n.transitions.len(),
                    posts@.len() == n.transitions.len(),
                    forall|j: int| 0 <= j < n.transitions.len() ==> #[trigger] pres@[j]@ == slots(n.places, off as int, pre_places(n, n.transitions[j].0)),
                    forall|j: int| 0 <= j < n.transitions.len() ==> #[trigger] posts@[j]@ == slots(n.places, off as int, post_places(n, n.transitions[j].0)),
                    transitions.deep_view() == base + ts.take(k as int).filter(lab).map_values(mk),
            {
                let t = &net.transitions[k];
                proof {
                    crate::event_log::lemma_filter_take_step(ts, lab, k as int);
                    assert(ts[k as int] == t.deep_view());
                }
                let hit = match &t.label {
                    Some(l) => str_eq(l.as_str(), a),
                    None => false,
                };
                if hit {
                    let mv = SyncTransition {
                        preset: prepend(i, &pres[k]),
                        postset: prepend(i + 1, &posts[k]),
                        cost: SYNC_COST,
                        trace_label: Some(a.to_owned()),
                        model_label: copy_label(&t.label),
                    };
                    let ghost before = transitions.deep_view();
                    transitions.push(mv);
                    proof {
                        assert(mk(ts[k as int]) == mv.deep_view());
                        assert(ts.take(k + 1).filter(lab).map_values(mk) =~= ts.take(k as int).filter(lab).map_values(mk).push(mk(ts[k as int])));
                        assert(transitions.deep_view() =~= before.push(mv.deep_view()));
                        assert(transitions.deep_view() =~= base + ts.take(k + 1).filter(lab).map_values(mk));
                    }
                }
            }
            proof {
                assert(ts.take(ts.len() as int) =~= ts);
                assert(event_sync_moves(n, i as int, a@, off as int) == ts.filter(lab).map_values(mk));
            }
        }
        // Log moves.
        let ghost base = transitions.deep_view();
        let ghost lm = |j: int| log_move(j, names[j]);
        for i in 0..e
            invariant
                names == trace_names(trace.deep_view()),
                e == trace.events.len(),
                lm == (|j: int| log_move(j, names[j])),
                transitions.deep_view() == base + Seq::new(i as nat, lm),
        {
            let a = trace.events[i].name.as_str();
            proof {
                assert(names[i as int] == a@);
            }
            let mv = SyncTransition {
                preset: prepend(i, &Vec::new()),
                postset: prepend(i + 1, &Vec::new()),
                cost: LOG_MOVE_COST,
                trace_label: Some(a.to_owned()),
                model_label: None,
            };
            let ghost before = transitions.deep_view();
            transitions.push(mv);
            proof {
                assert(mv.deep_view().preset =~= seq![i]);
                assert(mv.deep_view().postset =~= seq![(i + 1) as usize]);
                assert(lm(i as int) == mv.deep_view());
                assert(transitions.deep_view() =~= before.push(mv.deep_view()));
                assert(Seq::new((i + 1) as nat, lm) =~= Seq::new(i as nat, lm).push(lm(i as int)));
                assert(transitions.deep_view() =~= base + Seq::new((i + 1) as nat, lm));
            }
        }
        // Model moves.
        let ghost base = transitions.deep_view();
        let ghost mm = |t: (Seq<char>, Option<Seq<char>>)| model_move(n, t, off as int);
        for k in 0..net.transitions.len()
            invariant
                n == net@,
                mm == (|t: (Seq<char>, Option<Seq<char>>)| model_move(n, t, off as int)),
                pres@.len() == n.transitions.len(),
                posts@.len() == n.transitions.len(),
                forall|j: int| 0 <= j < n.transitions.len() ==> #[trigger] pres@[j]@ == slots(n.places, off as int, pre_places(n, n.transitions[j].0)),
                forall|j: int| 0 <= j < n.transitions.len() ==> #[trigger] posts@[j]@ == slots(n.places, off as int, post_places(n, n.transitions[j].0)),
                transitions.deep_view() == base + n.transitions.take(k as int).map_values(mm),
        {
            let t = &net.transitions[k];
            proof {
                assert(n.transitions[k as int] == t.deep_view());
            }
            let cost = match &t.label {
                Some(_) => MODEL_MOVE_COST,
                None => TAU_COST,
            };
            let mv = SyncTransition {
                preset: copy_indices(&pres[k]),
                postset: copy_indices(&posts[k]),
                cost,
                trace_label: None,
                model_label: copy_label(&t.label),
            };
            let ghost before = transitions.deep_view();
            transitions.push(mv);
            proof {
                assert(mm(n.transitions[k as int]) == mv.deep_view());
                assert(transitions.deep_view() =~= before.push(mv.deep_view()));
                assert(n.transitions.take(k + 1).map_values(mm) =~= n.transitions.take(k as int).map_values(mm).push(mm(n.transitions[k as int])));
                assert(transitions.deep_view() =~= base + n.transitions.take(k + 1).map_values(mm));
            }
        }
        proof {
            assert(n.transitions.take(n.transitions.len() as int) =~= n.transitions);
        }
        let initial = sync_marking_of(&net.places, initial_marking, e, 0);
        let goal = sync_marking_of(&net.places, final_marking, e, e);
        SyncProductNet { n_trace_places: off, transitions, initial_marking: initial, goal_marking: goal }
    }
}


/// Tokens taken from the listed places, in order: none when a place is out
/// of range or empty at its turn.
pub open spec fn take_tokens(m: Seq<u32>, ps: Seq<usize>) -> Option<Seq<u32>>
    decreases ps.len(),
{
    if ps.len() == 0 {
        Some(m)
    } else if ps[0] < m.len() && m[ps[0] as int] > 0 {
        take_tokens(m.update(ps[0] as int, (m[ps[0] as int] - 1) as u32), ps.drop_first())
    } else {
        None
    }
}

/// Tokens put on the listed places, in order: none when a place is out of
/// range or already holds `u32::MAX` tokens at its turn.
pub open spec fn put_tokens(m: Seq<u32>, ps: Seq<usize>) -> Option<Seq<u32>>
    decreases ps.len(),
{
    if ps.len() == 0 {
        Some(m)
    } else if ps[0] < m.len() && m[ps[0] as int] < u32::MAX {
        put_tokens(m.update(ps[0] as int, (m[ps[0] as int] + 1) as u32), ps.drop_first())
    } else {
        None
    }
}

/// The marking after firing `t`, when it can fire: a token taken from
/// each input place and one put on each output place.
pub open spec fn fire_marking(m: Seq<u32>, t: SyncMove) -> Option<Seq<u32>> {
    match take_tokens(m, t.preset) {
        Some(m1) => put_tokens(m1, t.postset),
        None => None,
    }
}

/// The marking reached by firing the transitions of `path` in order from
/// `m`, when each can fire.
pub open spec fn run(m: Seq<u32>, ts: Seq<SyncMove>, path: Seq<usize>) -> Option<Seq<u32>>
    decreases path.len(),
{
    if path.len() == 0 {
        Some(m)
    } else if path[0] < ts.len() {
        match fire_marking(m, ts[path[0] as int]) {
            Some(m1) => run(m1, ts, path.drop_first()),
            None => None,
        }
    } else {
        None
    }
}

/// The summed cost of the transitions of `path`.
pub open spec fn path_cost(ts: Seq<SyncMove>, path: Seq<usize>) -> int
    decreases path.len(),
{
    if path.len() == 0 {
        0
    } else {
        path_cost(ts, path.drop_last()) + ts[path.last() as int].cost
    }
}

proof fn lemma_run_push(m: Seq<u32>, ts: Seq<SyncMove>, path: Seq<usize>, x: usize)
    ensures
        run(m, ts, path.push(x)) == match run(m, ts, path) {
            Some(m1) => if x < ts.len() { fire_marking(m1, ts[x as int]) } else { None },
            None => None,
        },
    decreases path.len(),
{
    if path.len() == 0 {
        assert(path.push(x).drop_first() =~= Seq::<usize>::empty());
        assert(path.push(x)[0] == x);
        if x < ts.len() {
            match fire_marking(m, ts[x as int]) {
                Some(m1) => {
                    assert(run(m1, ts, Seq::<usize>::empty()) == Some(m1));
                },
                None => {},
            }
        }
    } else {
        assert(path.push(x).drop_first() =~= path.drop_first().push(x));
        assert(path.push(x)[0] == path[0]);
        if path[0] < ts.len() {
            match fire_marking(m, ts[path[0] as int]) {
                Some(m1) => lemma_run_push(m1, ts, path.drop_first(), x),
                None => {},
            }
        }
    }
}

/// Places `from..` of `ps`, and what taking their tokens does.
fn take_all(m: &mut Vec<u32>, ps: &Vec<usize>) -> (ok: bool)
    ensures
        ok == take_tokens(old(m)@, ps@) is Some,
        ok ==> take_tokens(old(m)@, ps@) == Some(final(m)@),
{
    let ghost target = take_tokens(m@, ps@);
    proof {
        assert(ps@.skip(0) =~= ps@);
    }
    for k in 0..ps.len()
        invariant
            target == take_tokens(old(m)@, ps@),
            target == take_tokens(m@, ps@.skip(k as int)),
    {
        let p = ps[k];
        proof {
            assert(ps@.skip(k as int)[0] == p);
            assert(ps@.skip(k as int).drop_first() =~= ps@.skip(k + 1));
        }
        if p < m.len() && m[p] > 0 {
            let v = m[p] - 1;
            m.set(p, v);
        } else {
            return false;
        }
    }
    proof {
        assert(ps@.skip(ps@.len() as int) =~= Seq::<usize>::empty());
    }
    true
}

fn put_all(m: &mut Vec<u32>, ps: &Vec<usize>) -> (ok: bool)
    ensures
        ok == put_tokens(old(m)@, ps@) is Some,
        ok ==> put_tokens(old(m)@, ps@) == Some(final(m)@),
{
    let ghost target = put_tokens(m@, ps@);
    proof {
        assert(ps@.skip(0) =~= ps@);
    }
    for k in 0..ps.len()
        invariant
            target == put_tokens(old(m)@, ps@),
            target == put_tokens(m@, ps@.skip(k as int)),
    {
        let p = ps[k];
        proof {
            assert(ps@.skip(k as int)[0] == p);
            assert(ps@.skip(k as int).drop_first() =~= ps@.skip(k + 1));
        }
        if p < m.len() && m[p] < u32::MAX {
            let v = m[p] + 1;
            m.set(p, v);
        } else {
            return false;
        }
    }
    proof {
        assert(ps@.skip(ps@.len() as int) =~= Seq::<usize>::empty());
    }
    true
}

/// The marking after firing `t`, when it can fire.
fn try_fire(marking: &Vec<u32>, t: &SyncTransition) -> (res: Option<Vec<u32>>)
    ensures
        match res {
            Some(m) => fire_marking(marking@, t.deep_view()) == Some(m@),
            None => fire_marking(marking@, t.deep_view()) is None,
        },
{
    let mut m = copy_counts(marking);
    if !take_all(&mut m, &t.preset) {
        return None;
    }
    if !put_all(&mut m, &t.postset) {
        return None;
    }
    Some(m)
}

fn copy_counts(v: &Vec<u32>) -> (res: Vec<u32>)
    ensures
        res@ == v@,
{
    let mut out: Vec<u32> = Vec::new();
    for i in 0..v.len()
        invariant
            out@ == v@.take(i as int),
    {
        out.push(v[i]);
        proof {
            assert(out@ =~= v@.take(i + 1));
        }
    }
    proof {
        assert(v@.take(v@.len() as int) =~= v@);
    }
    out
}

/// Two markings are the same.
fn same_marking(a: &Vec<u32>, b: &Vec<u32>) -> (res: bool)
    ensures
        res == (a@ == b@),
{
    if a.len() != b.len() {
        return false;
    }
    for i in 0..a.len()
        invariant
            a.len() == b.len(),
            forall|j: int| 0 <= j < i ==> a@[j] == b@[j],
    {
        if a[i] != b[i] {
            return false;
        }
    }
    proof {
        assert(a@ =~= b@);
    }
    true
}

/// The cheapest transition that takes from (`from`) or puts on place `p`,
/// among the first `k`.
pub open spec fn min_cost(ts: Seq<SyncMove>, p: usize, from: bool, k: int) -> Option<u64>
    decreases k,
{
    if k <= 0 {
        None
    } else {
        let rest = min_cost(ts, p, from, k - 1);
        let t = ts[k - 1];
        if (if from { t.preset.contains(p) } else { t.postset.contains(p) }) {
            match rest {
                Some(c) => if t.cost < c { Some(t.cost) } else { Some(c) },
                None => Some(t.cost),
            }
        } else {
            rest
        }
    }
}

/// The lower bound a place adds: its tokens above the goal times the
/// cheapest transition taking from it, and for model places its tokens
/// below the goal times the cheapest transition putting on it; none when
/// no transition can do so.
pub open spec fn place_bound(ts: Seq<SyncMove>, n_trace: int, goal: Seq<u32>, m: Seq<u32>, p: int) -> Option<int> {
    let over = if m[p] <= goal[p] {
        Some(0int)
    } else {
        match min_cost(ts, p as usize, true, ts.len() as int) {
            Some(c) => Some(c * (m[p] - goal[p])),
            None => None,
        }
    };
    let under = if p < n_trace || m[p] >= goal[p] {
        Some(0int)
    } else {
        match min_cost(ts, p as usize, false, ts.len() as int) {
            Some(c) => Some(c * (goal[p] - m[p])),
            None => None,
        }
    };
    match (over, under) {
        (Some(a), Some(b)) => Some(a + b),
        _ => None,
    }
}

/// The bounds of the first `k` places, summed; none when one is none.
pub open spec fn bound_sum(ts: Seq<SyncMove>, n_trace: int, goal: Seq<u32>, m: Seq<u32>, k: int) -> Option<int>
    decreases k,
{
    if k <= 0 {
        Some(0)
    } else {
        match (bound_sum(ts, n_trace, goal, m, k - 1), place_bound(ts, n_trace, goal, m, k - 1)) {
            (Some(a), Some(b)) => Some(a + b),
            _ => None,
        }
    }
}

/// The lower bound on the remaining cost from `m`: zero at the goal.
pub open spec fn heuristic_bound(sn_ts: Seq<SyncMove>, n_trace: int, goal: Seq<u32>, m: Seq<u32>) -> Option<int> {
    if m == goal {
        Some(0)
    } else {
        bound_sum(sn_ts, n_trace, goal, m, goal.len() as int)
    }
}

/// Every transition costs at most a log move, and markings are as long as
/// the goal.
pub open spec fn search_ready(sn: &SyncProductNet) -> bool {
    &&& forall|i: int| 0 <= i < sn.transitions@.len() ==> #[trigger] sn.transitions@[i].cost <= LOG_MOVE_COST
    &&& sn.initial_marking@.len() == sn.goal_marking@.len()
}

fn min_cost_of(sn: &SyncProductNet, p: usize, from: bool) -> (res: Option<u64>)
    ensures
        res == min_cost(sn.transitions.deep_view(), p, from, sn.transitions@.len() as int),
{
    let ghost ts = sn.transitions.deep_view();
    let mut best: Option<u64> = None;
    for k in 0..sn.transitions.len()
        invariant
            ts == sn.transitions.deep_view(),
            best == min_cost(ts, p, from, k as int),
    {
        let t = &sn.transitions[k];
        proof {
            assert(ts[k as int] == t.deep_view());
        }
        let list = if from { &t.preset } else { &t.postset };
        let mut found = false;
        for q in 0..list.len()
            invariant
                found == exists|j: int| 0 <= j < q && list@[j] == p,
        {
            if list[q] == p {
                found = true;
            }
        }
        proof {
            if found {
                let j = choose|j: int| 0 <= j < list@.len() && list@[j] == p;
                assert(list@.contains(p));
            } else {
                assert(!list@.contains(p));
            }
        }
        if found {
            best = match best {
                Some(c) => if t.cost < c { Some(t.cost) } else { Some(c) },
                None => Some(t.cost),
            };
        }
    }
    best
}

/// The lower bound on the remaining cost, as `heuristic_bound` states it.
fn heuristic(sn: &SyncProductNet, m: &Vec<u32>) -> (res: Option<u128>)
    requires
        search_ready(sn),
        m@.len() == sn.goal_marking@.len(),
    ensures
        match res {
            Some(h) => heuristic_bound(sn.transitions.deep_view(), sn.n_trace_places as int, sn.goal_marking@, m@) == Some(h as int),
            None => heuristic_bound(sn.transitions.deep_view(), sn.n_trace_places as int, sn.goal_marking@, m@) is None,
        },
        res matches Some(h) ==> h <= m@.len() * 2 * 10000 * 0x1_0000_0000,
{
    let ghost ts = sn.transitions.deep_view();
    let ghost nt = sn.n_trace_places as int;
    let goal = &sn.goal_marking;
    if same_marking(m, goal) {
        return Some(0);
    }
    let mut h: u128 = 0;
    for p in 0..goal.len()
        invariant
            ts == sn.transitions.deep_view(),
            nt == sn.n_trace_places as int,
            search_ready(sn),
            goal == &sn.goal_marking,
            m@.len() == goal@.len(),
            bound_sum(ts, nt, goal@, m@, p as int) == Some(h as int),
            h <= p * 2 * 10000 * 0x1_0000_0000,
    {
        let cur = m[p];
        let want = goal[p];
        let over: u128 = if cur <= want {
            0
        } else {
            match min_cost_of(sn, p, true) {
                Some(c) => {
                    let d = (cur - want) as u128;
                    proof {
                        lemma_min_cost_bound(ts, p, true, ts.len() as int);
                        assert(c as u128 * d <= 10000 * 0xffff_ffff) by (nonlinear_arith)
                            requires
                                c <= 10000,
                                d <= 0xffff_ffff,
                        ;
                    }
                    c as u128 * d
                },
                None => {
                    proof {
                        lemma_bound_sum_none(ts, nt, goal@, m@, p + 1, goal@.len() as int);
                    }
                    return None;
                },
            }
        };
        let under: u128 = if p < sn.n_trace_places || cur >= want {
            0
        } else {
            match min_cost_of(sn, p, false) {
                Some(c) => {
                    let d = (want - cur) as u128;
                    proof {
                        lemma_min_cost_bound(ts, p, false, ts.len() as int);
                        assert(c as u128 * d <= 10000 * 0xffff_ffff) by (nonlinear_arith)
                            requires
                                c <= 10000,
                                d <= 0xffff_ffff,
                        ;
                    }
                    c as u128 * d
                },
                None => {
                    proof {
                        lemma_bound_sum_none(ts, nt, goal@, m@, p + 1, goal@.len() as int);
                    }
                    return None;
                },
            }
        };
        proof {
            assert(p * 2 * 10000 * 0x1_0000_0000 + 2 * 10000 * 0x1_0000_0000 == (p + 1) * 2 * 10000 * 0x1_0000_0000) by (nonlinear_arith);
        }
        h = h + over + under;
    }
    Some(h)
}

proof fn lemma_bound_sum_none(ts: Seq<SyncMove>, nt: int, goal: Seq<u32>, m: Seq<u32>, k: int, k2: int)
    requires
        1 <= k <= k2,
        place_bound(ts, nt, goal, m, k - 1) is None,
    ensures
        bound_sum(ts, nt, goal, m, k2) is None,
    decreases k2,
{
    if k2 > k {
        lemma_bound_sum_none(ts, nt, goal, m, k, k2 - 1);
    }
}

proof fn lemma_min_cost_bound(ts: Seq<SyncMove>, p: usize, from: bool, k: int)
    requires
        0 <= k <= ts.len(),
        forall|i: int| 0 <= i < ts.len() ==> #[trigger] ts[i].cost <= LOG_MOVE_COST,
    ensures
        min_cost(ts, p, from, k) matches Some(c) ==> c <= LOG_MOVE_COST,
    decreases k,
{
    if k > 0 {
        lemma_min_cost_bound(ts, p, from, k - 1);
    }
}


proof fn lemma_tokens_keep_len(m: Seq<u32>, ps: Seq<usize>)
    ensures
        take_tokens(m, ps) matches Some(m2) ==> m2.len() == m.len(),
        put_tokens(m, ps) matches Some(m2) ==> m2.len() == m.len(),
    decreases ps.len(),
{
    if ps.len() > 0 && ps[0] < m.len() {
        lemma_tokens_keep_len(m.update(ps[0] as int, (m[ps[0] as int] - 1) as u32), ps.drop_first());
        lemma_tokens_keep_len(m.update(ps[0] as int, (m[ps[0] as int] + 1) as u32), ps.drop_first());
    }
}

proof fn lemma_fire_keeps_len(m: Seq<u32>, t: SyncMove)
    ensures
        fire_marking(m, t) matches Some(m2) ==> m2.len() == m.len(),
{
    lemma_tokens_keep_len(m, t.preset);
    match take_tokens(m, t.preset) {
        Some(m1) => lemma_tokens_keep_len(m1, t.postset),
        None => {},
    }
}

/// A state of the search: a marking, the cost to reach it, the lower bound
/// on the rest, and the transitions fired to reach it.
struct SearchState {
    marking: Vec<u32>,
    g: u64,
    h: u128,
    path: Vec<usize>,
}

/// Some open state holds `m` at a cost of at most `c`.
spec fn open_has(open: Seq<SearchState>, m: Seq<u32>, c: int) -> bool {
    exists|j: int| 0 <= j < open.len() && #[trigger] open[j].marking@ == m && open[j].g <= c
}

/// Every bounded successor of the closed marking `cl[i]` is closed, or open
/// at a cost of at most `cg[i]` and the move's cost.
spec fn expanded_ok(ts: Seq<SyncMove>, n_trace: int, goal: Seq<u32>, cl: Seq<Seq<u32>>, cg: Seq<int>, open: Seq<SearchState>) -> bool {
    forall|i: int, k: int| 0 <= i < cl.len() && 0 <= k < ts.len() && #[trigger] fire_marking(cl[i], ts[k]) is Some
        && heuristic_bound(ts, n_trace, goal, fire_marking(cl[i], ts[k]).unwrap()) is Some
        ==> cl.contains(fire_marking(cl[i], ts[k]).unwrap()) || open_has(open, fire_marking(cl[i], ts[k]).unwrap(), cg[i] + ts[k].cost)
}

/// Each closed marking `cl[i]` was closed at the cost `cg[i]`, which no
/// bounded firing sequence from `m` to it undercuts.
spec fn cheapest_closed(m: Seq<u32>, ts: Seq<SyncMove>, n_trace: int, goal: Seq<u32>, cl: Seq<Seq<u32>>, cg: Seq<int>) -> bool {
    forall|i: int, p: Seq<usize>|
        #![trigger run(m, ts, p), cl[i]]
        0 <= i < cl.len() && run(m, ts, p) == Some(cl[i]) && bounded_along(ts, n_trace, goal, m, p) ==> cg[i] <= path_cost(ts, p)
}

proof fn lemma_path_cost_nonneg(ts: Seq<SyncMove>, p: Seq<usize>)
    ensures
        path_cost(ts, p) >= 0,
    decreases p.len(),
{
    if p.len() > 0 {
        lemma_path_cost_nonneg(ts, p.drop_last());
    }
}

/// A firing sequence extended by one move stays bounded exactly when it was
/// and the marking it ends in has a bound.
proof fn lemma_bounded_push(ts: Seq<SyncMove>, n_trace: int, goal: Seq<u32>, m: Seq<u32>, q: Seq<usize>, k: usize)
    requires
        run(m, ts, q.push(k)) is Some,
    ensures
        bounded_along(ts, n_trace, goal, m, q.push(k)) == (bounded_along(ts, n_trace, goal, m, q)
            && heuristic_bound(ts, n_trace, goal, run(m, ts, q.push(k)).unwrap()) is Some),
    decreases q.len(),
{
    lemma_run_push(m, ts, q, k);
    if q.len() == 0 {
        assert(q.push(k).drop_first() =~= Seq::<usize>::empty());
        assert(q.push(k)[0] == k);
        let m1 = fire_marking(m, ts[k as int]).unwrap();
        assert(run(m1, ts, Seq::<usize>::empty()) == Some(m1));
        assert(bounded_along(ts, n_trace, goal, m1, Seq::<usize>::empty()) == (heuristic_bound(ts, n_trace, goal, m1) is Some));
    } else {
        assert(q.push(k).drop_first() =~= q.drop_first().push(k));
        assert(q.push(k)[0] == q[0]);
        let m1 = fire_marking(m, ts[q[0] as int]).unwrap();
        lemma_bounded_push(ts, n_trace, goal, m1, q.drop_first(), k);
    }
}

/// While a bounded firing sequence from `m` ends outside the closed
/// markings, some open state costs no more than it.
proof fn lemma_frontier(
    m: Seq<u32>,
    ts: Seq<SyncMove>,
    n_trace: int,
    goal: Seq<u32>,
    cl: Seq<Seq<u32>>,
    cg: Seq<int>,
    open: Seq<SearchState>,
    p: Seq<usize>,
    x: Seq<u32>,
)
    requires
        cg.len() == cl.len(),
        expanded_ok(ts, n_trace, goal, cl, cg, open),
        cheapest_closed(m, ts, n_trace, goal, cl, cg),
        cl.contains(m) || open_has(open, m, 0),
        run(m, ts, p) == Some(x),
        bounded_along(ts, n_trace, goal, m, p),
        !cl.contains(x),
    ensures
        exists|j: int| 0 <= j < open.len() && open[j].g <= path_cost(ts, p),
    decreases p.len(),
{
    if p.len() == 0 {
        assert(x == m);
        let j = choose|j: int| 0 <= j < open.len() && #[trigger] open[j].marking@ == m && open[j].g <= 0;
        assert(open[j].g <= path_cost(ts, p));
    } else {
        let q = p.drop_last();
        let k = p.last();
        assert(q.push(k) =~= p);
        lemma_run_push(m, ts, q, k);
        let y = run(m, ts, q).unwrap();
        lemma_bounded_push(ts, n_trace, goal, m, q, k);
        lemma_path_cost_push(ts, q, k);
        assert(ts[k as int].cost >= 0);
        if !cl.contains(y) {
            lemma_frontier(m, ts, n_trace, goal, cl, cg, open, q, y);
            let j = choose|j: int| 0 <= j < open.len() && open[j].g <= path_cost(ts, q);
            assert(open[j].g <= path_cost(ts, p));
        } else {
            let i = choose|i: int| 0 <= i < cl.len() && cl[i] == y;
            assert(run(m, ts, q) == Some(cl[i]));
            assert(cg[i] <= path_cost(ts, q));
            assert(fire_marking(cl[i], ts[k as int]) == Some(x));
            assert(open_has(open, x, cg[i] + ts[k as int].cost));
            let j = choose|j: int| 0 <= j < open.len() && #[trigger] open[j].marking@ == x && open[j].g <= cg[i] + ts[k as int].cost;
            assert(open[j].g <= path_cost(ts, p));
        }
    }
}

/// Removing an open state keeps every other open marking at its cost.
proof fn lemma_remove_has(before: Seq<SearchState>, i: int)
    requires
        0 <= i < before.len(),
    ensures
        forall|x: Seq<u32>, c: int| #[trigger] open_has(before, x, c)
            ==> open_has(before.remove(i), x, c) || x == before[i].marking@,
{
    let after = before.remove(i);
    assert forall|x: Seq<u32>, c: int| #[trigger] open_has(before, x, c) implies open_has(after, x, c) || x == before[i].marking@ by {
        let j = choose|j: int| 0 <= j < before.len() && #[trigger] before[j].marking@ == x && before[j].g <= c;
        if j < i {
            assert(after[j] == before[j]);
            assert(after[j].marking@ == x);
        } else if j > i {
            assert(after[j - 1] == before[j]);
            assert(after[j - 1].marking@ == x);
        }
    }
}

/// Pushing an open state keeps the open markings at their costs.
proof fn lemma_push_has(before: Seq<SearchState>, s: SearchState)
    ensures
        forall|x: Seq<u32>, c: int| #[trigger] open_has(before, x, c) ==> open_has(before.push(s), x, c),
        open_has(before.push(s), s.marking@, s.g as int),
{
    let after = before.push(s);
    assert(after[before.len() as int].marking@ == s.marking@);
    assert forall|x: Seq<u32>, c: int| #[trigger] open_has(before, x, c) implies open_has(after, x, c) by {
        let j = choose|j: int| 0 <= j < before.len() && #[trigger] before[j].marking@ == x && before[j].g <= c;
        assert(after[j] == before[j]);
        assert(after[j].marking@ == x);
    }
}

/// A search state is reached from the initial marking by its path, at its
/// cost, with a path no longer than the expansions made.
spec fn state_ok(sn: &SyncProductNet, ts: Seq<SyncMove>, s: SearchState, expansions: int) -> bool {
    &&& run(sn.initial_marking@, ts, s.path@) == Some(s.marking@)
    &&& s.g == path_cost(ts, s.path@)
    &&& s.path@.len() <= expansions
    &&& s.g <= LOG_MOVE_COST * s.path@.len()
    &&& s.marking@.len() == sn.goal_marking@.len()
    &&& s.h <= s.marking@.len() * 2 * 10000 * 0x1_0000_0000
}

/// Some marking of `seen` equals `m`.
fn seen_before(seen: &Vec<Vec<u32>>, m: &Vec<u32>) -> (res: bool)
    ensures
        res == exists|i: int| 0 <= i < seen@.len() && #[trigger] seen@[i]@ == m@,
{
    for i in 0..seen.len()
        invariant
            forall|j: int| 0 <= j < i ==> #[trigger] seen@[j]@ != m@,
    {
        if same_marking(&seen[i], m) {
            return true;
        }
    }
    false
}

proof fn lemma_path_cost_push(ts: Seq<SyncMove>, path: Seq<usize>, k: usize)
    ensures
        path_cost(ts, path.push(k)) == path_cost(ts, path) + ts[k as int].cost,
{
    assert(path.push(k).drop_last() =~= path);
}

/// The markings of `seen`, in order.
pub open spec fn marks(seen: Seq<Vec<u32>>) -> Seq<Seq<u32>> {
    Seq::new(seen.len(), |i: int| seen[i]@)
}

/// `x` is reached from `m` by firing some sequence of transitions that
/// costs at most `c`.
pub open spec fn reachable_within(m: Seq<u32>, ts: Seq<SyncMove>, x: Seq<u32>, c: int) -> bool {
    exists|path: Seq<usize>| #[trigger] run(m, ts, path) == Some(x) && path_cost(ts, path) <= c
}

/// At least `k` distinct markings are reachable from `m` at a cost of at
/// most `c` each.
pub open spec fn many_within(m: Seq<u32>, ts: Seq<SyncMove>, k: int, c: int) -> bool {
    exists|ms: Seq<Seq<u32>>| {
        &&& #[trigger] ms.len() == k
        &&& ms.no_duplicates()
        &&& forall|i: int| 0 <= i < ms.len() ==> #[trigger] reachable_within(m, ts, ms[i], c)
    }
}

/// `m` and each marking that `path` passes through from it have a lower
/// bound on the remaining cost.
pub open spec fn bounded_along(ts: Seq<SyncMove>, n_trace: int, goal: Seq<u32>, m: Seq<u32>, path: Seq<usize>) -> bool
    decreases path.len(),
{
    &&& heuristic_bound(ts, n_trace, goal, m) is Some
    &&& (path.len() > 0 && path[0] < ts.len() ==> match fire_marking(m, ts[path[0] as int]) {
        Some(m1) => bounded_along(ts, n_trace, goal, m1, path.drop_first()),
        None => true,
    })
}

/// The search may find nothing: for every firing sequence from `m` to
/// `goal`, more markings than the search expands can each be reached from
/// `m` for no more than that sequence costs (none needed when no sequence
/// reaches `goal`).
pub open spec fn search_may_fail(ts: Seq<SyncMove>, goal: Seq<u32>, m: Seq<u32>) -> bool {
    forall|path: Seq<usize>| #[trigger] run(m, ts, path) == Some(goal) ==> many_within(m, ts, MAX_EXPANSIONS + 1, path_cost(ts, path))
}

/// Markings of `closed`, each of whose bounded successors is in `closed`,
/// hold the end of every bounded run that starts in them.
proof fn lemma_closed_holds_run(closed: Seq<Seq<u32>>, ts: Seq<SyncMove>, n_trace: int, goal: Seq<u32>, m: Seq<u32>, path: Seq<usize>)
    requires
        closed.contains(m),
        forall|c: Seq<u32>, k: int| closed.contains(c) && 0 <= k < ts.len() && #[trigger] fire_marking(c, ts[k]) is Some
            && heuristic_bound(ts, n_trace, goal, fire_marking(c, ts[k]).unwrap()) is Some
            ==> closed.contains(fire_marking(c, ts[k]).unwrap()),
        bounded_along(ts, n_trace, goal, m, path),
        run(m, ts, path) is Some,
    ensures
        closed.contains(run(m, ts, path).unwrap()),
    decreases path.len(),
{
    if path.len() > 0 {
        assert(path[0] < ts.len());
        let k = path[0] as int;
        assert(fire_marking(m, ts[k]) is Some);
        let m1 = fire_marking(m, ts[k]).unwrap();
        assert(bounded_along(ts, n_trace, goal, m1, path.drop_first()));
        assert(heuristic_bound(ts, n_trace, goal, m1) is Some);
        lemma_closed_holds_run(closed, ts, n_trace, goal, m1, path.drop_first());
    }
}

/// Taking tokens never adds to a place, and leaves alone a place it does
/// not list.
proof fn lemma_take_at(m: Seq<u32>, ps: Seq<usize>, p: int)
    requires
        0 <= p < m.len(),
    ensures
        take_tokens(m, ps) matches Some(m2) ==> m2[p] <= m[p] && (!ps.contains(p as usize) ==> m2[p] == m[p]),
    decreases ps.len(),
{
    lemma_tokens_keep_len(m, ps);
    if ps.len() > 0 && ps[0] < m.len() && m[ps[0] as int] > 0 {
        let m1 = m.update(ps[0] as int, (m[ps[0] as int] - 1) as u32);
        lemma_take_at(m1, ps.drop_first(), p);
        if !ps.contains(p as usize) {
            assert(ps[0] != p as usize);
            assert forall|i: int| 0 <= i < ps.drop_first().len() implies ps.drop_first()[i] != p as usize by {
                assert(ps.drop_first()[i] == ps[i + 1]);
            }
        }
    }
}

/// Putting tokens never takes from a place, and leaves alone a place it
/// does not list.
proof fn lemma_put_at(m: Seq<u32>, ps: Seq<usize>, p: int)
    requires
        0 <= p < m.len(),
    ensures
        put_tokens(m, ps) matches Some(m2) ==> m2[p] >= m[p] && (!ps.contains(p as usize) ==> m2[p] == m[p]),
    decreases ps.len(),
{
    lemma_tokens_keep_len(m, ps);
    if ps.len() > 0 && ps[0] < m.len() && m[ps[0] as int] < u32::MAX {
        let m1 = m.update(ps[0] as int, (m[ps[0] as int] + 1) as u32);
        lemma_put_at(m1, ps.drop_first(), p);
        if !ps.contains(p as usize) {
            assert(ps[0] != p as usize);
            assert forall|i: int| 0 <= i < ps.drop_first().len() implies ps.drop_first()[i] != p as usize by {
                assert(ps.drop_first()[i] == ps[i + 1]);
            }
        }
    }
}

/// A place that no transition takes from never loses tokens, and one that
/// no transition puts on never gains any.
proof fn lemma_run_at(m: Seq<u32>, ts: Seq<SyncMove>, path: Seq<usize>, p: int)
    requires
        0 <= p < m.len(),
    ensures
        run(m, ts, path) matches Some(x) ==> {
            &&& x.len() == m.len()
            &&& (forall|k: int| 0 <= k < ts.len() ==> !(#[trigger] ts[k]).preset.contains(p as usize)) ==> x[p] >= m[p]
            &&& (forall|k: int| 0 <= k < ts.len() ==> !(#[trigger] ts[k]).postset.contains(p as usize)) ==> x[p] <= m[p]
        },
    decreases path.len(),
{
    if path.len() > 0 && path[0] < ts.len() {
        let t = ts[path[0] as int];
        lemma_fire_keeps_len(m, t);
        lemma_take_at(m, t.preset, p);
        lemma_tokens_keep_len(m, t.preset);
        match take_tokens(m, t.preset) {
            Some(m1) => {
                lemma_put_at(m1, t.postset, p);
                match put_tokens(m1, t.postset) {
                    Some(m2) => {
                        lemma_run_at(m2, ts, path.drop_first(), p);
                    },
                    None => {},
                }
            },
            None => {},
        }
    }
}

/// No transition among the first `k` takes from (or puts on) `p` when the
/// cheapest of them is none.
proof fn lemma_min_cost_none(ts: Seq<SyncMove>, p: usize, from: bool, k: int)
    requires
        0 <= k <= ts.len(),
        min_cost(ts, p, from, k) is None,
    ensures
        forall|j: int| 0 <= j < k ==> !(if from { (#[trigger] ts[j]).preset.contains(p) } else { ts[j].postset.contains(p) }),
    decreases k,
{
    if k > 0 {
        lemma_min_cost_none(ts, p, from, k - 1);
    }
}

/// Without a bound on the first `k` places, one of them can never reach its
/// goal count.
proof fn lemma_no_bound(ts: Seq<SyncMove>, n_trace: int, goal: Seq<u32>, m: Seq<u32>, k: int)
    requires
        0 <= k <= goal.len(),
        m.len() == goal.len(),
        bound_sum(ts, n_trace, goal, m, k) is None,
    ensures
        forall|path: Seq<usize>| #[trigger] run(m, ts, path) != Some(goal),
    decreases k,
{
    if k > 0 {
        if bound_sum(ts, n_trace, goal, m, k - 1) is None {
            lemma_no_bound(ts, n_trace, goal, m, k - 1);
        } else {
            let p = k - 1;
            assert(place_bound(ts, n_trace, goal, m, p) is None);
            assert forall|path: Seq<usize>| #[trigger] run(m, ts, path) != Some(goal) by {
                lemma_run_at(m, ts, path, p);
                if m[p] > goal[p] && min_cost(ts, p as usize, true, ts.len() as int) is None {
                    lemma_min_cost_none(ts, p as usize, true, ts.len() as int);
                } else {
                    lemma_min_cost_none(ts, p as usize, false, ts.len() as int);
                }
            }
        }
    }
}

/// Every firing sequence that reaches the goal passes only through
/// markings with a lower bound on the remaining cost.
proof fn lemma_goal_runs_bounded(ts: Seq<SyncMove>, n_trace: int, goal: Seq<u32>, m: Seq<u32>, path: Seq<usize>)
    requires
        m.len() == goal.len(),
        run(m, ts, path) == Some(goal),
    ensures
        bounded_along(ts, n_trace, goal, m, path),
    decreases path.len(),
{
    if m != goal && bound_sum(ts, n_trace, goal, m, goal.len() as int) is None {
        lemma_no_bound(ts, n_trace, goal, m, goal.len() as int);
        assert(run(m, ts, path) != Some(goal));
    }
    if path.len() > 0 && path[0] < ts.len() {
        let t = ts[path[0] as int];
        lemma_fire_keeps_len(m, t);
        if let Some(m1) = fire_marking(m, t) {
            lemma_goal_runs_bounded(ts, n_trace, goal, m1, path.drop_first());
        }
    }
}

/// Run a cheapest-first search on the sync product net, the lower bound on
/// the remaining cost breaking ties and pruning markings from which the
/// goal cannot be reached. A result is a firing sequence of the product net
/// from its initial to its goal marking, with its summed cost, and no
/// firing sequence from the initial to the goal marking costs less. It
/// finds none only when no firing sequence reaches the goal, or when more
/// distinct markings than it may expand are each reachable for no more than
/// every firing sequence to the goal costs. When the initial
/// marking is the goal, the result is the empty sequence at cost zero.
pub fn astar_search(sn: &SyncProductNet) -> (res: Option<(Vec<usize>, u64)>)
    requires
        search_ready(sn),
    ensures
        res matches Some((path, g)) ==> {
            &&& run(sn.initial_marking@, sn.transitions.deep_view(), path@) == Some(sn.goal_marking@)
            &&& g == path_cost(sn.transitions.deep_view(), path@)
            &&& forall|p: Seq<usize>| #[trigger] run(sn.initial_marking@, sn.transitions.deep_view(), p) == Some(sn.goal_marking@)
                ==> g <= path_cost(sn.transitions.deep_view(), p)
        },
        sn.initial_marking@ == sn.goal_marking@ ==> (res matches Some((path, g)) && path@.len() == 0 && g == 0),
        heuristic_bound(sn.transitions.deep_view(), sn.n_trace_places as int, sn.goal_marking@, sn.initial_marking@) is None
            ==> res is None,
        res is None ==> search_may_fail(sn.transitions.deep_view(), sn.goal_marking@, sn.initial_marking@),
{
    let ghost ts = sn.transitions.deep_view();
    let ghost nt = sn.n_trace_places as int;
    let ghost init_m = sn.initial_marking@;
    let ghost goal = sn.goal_marking@;
    let init = copy_counts(&sn.initial_marking);
    let h0 = match heuristic(sn, &init) {
        None => {
            proof {
                assert forall|path: Seq<usize>| #[trigger] run(sn.initial_marking@, ts, path) != Some(sn.goal_marking@) by {
                    if run(sn.initial_marking@, ts, path) == Some(sn.goal_marking@) {
                        lemma_goal_runs_bounded(ts, nt, sn.goal_marking@, sn.initial_marking@, path);
                    }
                }
            }
            return None;
        },
        Some(h) => h,
    };
    let first = SearchState { marking: init, g: 0, h: h0, path: Vec::new() };
    proof {
        assert(first.path@ =~= Seq::<usize>::empty());
    }
    let mut open: Vec<SearchState> = Vec::new();
    open.push(first);
    let mut closed: Vec<Vec<u32>> = Vec::new();
    let ghost mut cg: Seq<int> = Seq::empty();
    let mut expansions: usize = 0;
    proof {
        assert(open@[0].marking@ == init_m);
        assert(open_has(open@, init_m, 0));
    }
    while open.len() > 0
        invariant
            search_ready(sn),
            ts == sn.transitions.deep_view(),
            nt == sn.n_trace_places as int,
            init_m == sn.initial_marking@,
            goal == sn.goal_marking@,
            closed@.len() == expansions,
            cg.len() == closed@.len(),
            marks(closed@).no_duplicates(),
            !marks(closed@).contains(goal),
            forall|i: int| 0 <= i < closed@.len() ==> #[trigger] reachable_within(init_m, ts, closed@[i]@, cg[i]),
            forall|i: int, p: Seq<usize>| 0 <= i < closed@.len() && #[trigger] run(init_m, ts, p) == Some(goal)
                ==> #[trigger] cg[i] <= path_cost(ts, p),
            expanded_ok(ts, nt, goal, marks(closed@), cg, open@),
            cheapest_closed(init_m, ts, nt, goal, marks(closed@), cg),
            marks(closed@).contains(init_m) || open_has(open@, init_m, 0),
            expansions <= MAX_EXPANSIONS,
            forall|i: int| 0 <= i < open@.len() ==> state_ok(sn, ts, #[trigger] open@[i], expansions as int),
            heuristic_bound(ts, nt, goal, init_m) is Some,
            init_m == goal ==> {
                &&& expansions == 0
                &&& closed@.len() == 0
                &&& open@.len() == 1
                &&& open@[0].marking@ == goal
                &&& open@[0].path@.len() == 0
                &&& open@[0].g == 0
            },
        decreases MAX_EXPANSIONS - expansions, open.len(),
    {
        // The cheapest open state, the smaller bound on the rest breaking ties.
        let mut best: usize = 0;
        for i in 1..open.len()
            invariant
                best < open.len(),
                forall|j: int| 0 <= j < i ==> open@[best as int].g <= #[trigger] open@[j].g,
        {
            if open[i].g < open[best].g || (open[i].g == open[best].g && open[i].h < open[best].h) {
                best = i;
            }
        }
        let ghost before = open@;
        let ghost cl0 = marks(closed@);
        let state = open.remove(best);
        let ghost sm = state.marking@;
        let ghost sg = state.g as int;
        let ghost op_mid = open@;
        proof {
            lemma_remove_has(before, best as int);
            assert(open@ == before.remove(best as int));
            assert(state == before[best as int]);
            assert(state_ok(sn, ts, before[best as int], expansions as int));
            assert forall|j: int| 0 <= j < open@.len() implies state_ok(sn, ts, #[trigger] open@[j], expansions as int) by {
                if j < best {
                    assert(open@[j] == before[j]);
                } else {
                    assert(open@[j] == before[j + 1]);
                }
            }
        }
        if seen_before(&closed, &state.marking) {
            proof {
                let i = choose|i: int| 0 <= i < closed@.len() && #[trigger] closed@[i]@ == sm;
                assert(cl0[i] == sm);
                assert(cl0.contains(sm));
                assert forall|i: int, k: int| 0 <= i < cl0.len() && 0 <= k < ts.len() && #[trigger] fire_marking(cl0[i], ts[k]) is Some
                    && heuristic_bound(ts, nt, goal, fire_marking(cl0[i], ts[k]).unwrap()) is Some
                    implies cl0.contains(fire_marking(cl0[i], ts[k]).unwrap())
                        || open_has(open@, fire_marking(cl0[i], ts[k]).unwrap(), cg[i] + ts[k].cost) by {
                    let m1 = fire_marking(cl0[i], ts[k]).unwrap();
                    if !cl0.contains(m1) {
                        assert(open_has(before, m1, cg[i] + ts[k].cost));
                    }
                }
                if !cl0.contains(init_m) {
                    assert(open_has(before, init_m, 0));
                }
            }
            continue;
        }
        proof {
            assert(!cl0.contains(sm)) by {
                if cl0.contains(sm) {
                    let i = choose|i: int| 0 <= i < cl0.len() && cl0[i] == sm;
                    assert(closed@[i]@ == sm);
                }
            }
            // No bounded firing sequence reaches the popped marking for less.
            assert forall|p: Seq<usize>| #[trigger] run(init_m, ts, p) == Some(sm) && bounded_along(ts, nt, goal, init_m, p)
                implies sg <= path_cost(ts, p) by {
                lemma_frontier(init_m, ts, nt, goal, cl0, cg, before, p, sm);
                let j = choose|j: int| 0 <= j < before.len() && before[j].g <= path_cost(ts, p);
                assert(before[best as int].g <= before[j].g);
            }
            // Nor does any firing sequence reach the goal for less.
            assert forall|p: Seq<usize>| #[trigger] run(init_m, ts, p) == Some(goal) implies sg <= path_cost(ts, p) by {
                lemma_goal_runs_bounded(ts, nt, goal, init_m, p);
                lemma_frontier(init_m, ts, nt, goal, cl0, cg, before, p, goal);
                let j = choose|j: int| 0 <= j < before.len() && before[j].g <= path_cost(ts, p);
                assert(before[best as int].g <= before[j].g);
            }
            assert(run(init_m, ts, state.path@) == Some(sm) && path_cost(ts, state.path@) == sg);
        }
        expansions = expansions + 1;
        if expansions > MAX_EXPANSIONS {
            proof {
                let ms = cl0.push(sm);
                assert(ms.len() == MAX_EXPANSIONS + 1);
                assert forall|p: Seq<usize>| #[trigger] run(init_m, ts, p) == Some(goal)
                    implies many_within(init_m, ts, MAX_EXPANSIONS + 1, path_cost(ts, p)) by {
                    assert forall|i: int| 0 <= i < ms.len() implies #[trigger] reachable_within(init_m, ts, ms[i], path_cost(ts, p)) by {
                        if i < closed@.len() {
                            assert(ms[i] == closed@[i]@);
                            assert(reachable_within(init_m, ts, closed@[i]@, cg[i]));
                            assert(cg[i] <= path_cost(ts, p));
                        } else {
                            assert(run(init_m, ts, state.path@) == Some(sm));
                        }
                    }
                    assert(ms.no_duplicates()) by {
                        assert forall|a: int, b: int| 0 <= a < ms.len() && 0 <= b < ms.len() && a != b implies ms[a] != ms[b] by {
                            if a < closed@.len() && b < closed@.len() {
                            } else if a < closed@.len() {
                                assert(cl0[a] == ms[a]);
                            } else {
                                assert(cl0[b] == ms[b]);
                            }
                        }
                    }
                }
            }
            return None;
        }
        proof {
            assert forall|j: int| 0 <= j < open@.len() implies state_ok(sn, ts, #[trigger] open@[j], expansions as int) by {
                assert(state_ok(sn, ts, open@[j], expansions - 1));
            }
        }
        let ghost closed_before = closed@;
        closed.push(copy_counts(&state.marking));
        proof {
            cg = cg.push(sg);
            assert(marks(closed@) =~= cl0.push(sm));
            assert(marks(closed@)[cl0.len() as int] == sm);
        }
        if same_marking(&state.marking, &sn.goal_marking) {
            proof {
                assert forall|p: Seq<usize>| #[trigger] run(init_m, ts, p) == Some(goal) implies state.g <= path_cost(ts, p) by {
                    lemma_goal_runs_bounded(ts, nt, goal, init_m, p);
                }
            }
            return Some((state.path, state.g));
        }
        let ghost cl1 = marks(closed@);
        for k in 0..sn.transitions.len()
            invariant
                search_ready(sn),
                ts == sn.transitions.deep_view(),
                nt == sn.n_trace_places as int,
                goal == sn.goal_marking@,
                sm == state.marking@,
                sg == state.g,
                marks(closed@) == cl1,
                forall|x: Seq<u32>, c: int| #[trigger] open_has(op_mid, x, c) ==> open_has(open@, x, c),
                forall|k2: int| 0 <= k2 < k && #[trigger] fire_marking(sm, ts[k2]) is Some
                    && heuristic_bound(ts, nt, goal, fire_marking(sm, ts[k2]).unwrap()) is Some
                    ==> cl1.contains(fire_marking(sm, ts[k2]).unwrap()) || open_has(open@, fire_marking(sm, ts[k2]).unwrap(), sg + ts[k2].cost),
                1 <= expansions <= MAX_EXPANSIONS,
                state_ok(sn, ts, state, expansions - 1),
                forall|i: int| 0 <= i < open@.len() ==> state_ok(sn, ts, #[trigger] open@[i], expansions as int),
        {
            let t = &sn.transitions[k];
            proof {
                assert(ts[k as int] == t.deep_view());
                assert(ts[k as int].cost <= LOG_MOVE_COST);
            }
            match try_fire(&state.marking, t) {
                None => {},
                Some(nm) => {
                    proof {
                        lemma_fire_keeps_len(state.marking@, t.deep_view());
                    }
                    if seen_before(&closed, &nm) {
                        proof {
                            let i = choose|i: int| 0 <= i < closed@.len() && #[trigger] closed@[i]@ == nm@;
                            assert(cl1[i] == nm@);
                        }
                    } else {
                        match heuristic(sn, &nm) {
                            None => {},
                            Some(h) => {
                                let mut np = copy_indices(&state.path);
                                np.push(k);
                                proof {
                                    lemma_run_push(sn.initial_marking@, ts, state.path@, k);
                                    lemma_path_cost_push(ts, state.path@, k);
                                    assert(np@ =~= state.path@.push(k));
                                    assert(state.g + t.cost <= LOG_MOVE_COST * (state.path@.len() + 1)) by (nonlinear_arith)
                                        requires
                                            state.g <= LOG_MOVE_COST * state.path@.len(),
                                            t.cost <= LOG_MOVE_COST,
                                    ;
                                    assert(LOG_MOVE_COST * (state.path@.len() + 1) <= LOG_MOVE_COST * (MAX_EXPANSIONS + 1)) by (nonlinear_arith)
                                        requires
                                            state.path@.len() + 1 <= MAX_EXPANSIONS + 1,
                                    ;
                                }
                                let child = SearchState { marking: nm, g: state.g + t.cost, h, path: np };
                                let ghost before_push = open@;
                                let ghost cm = child.marking@;
                                open.push(child);
                                proof {
                                    let s = open@[before_push.len() as int];
                                    lemma_push_has(before_push, s);
                                    assert(open@ == before_push.push(s));
                                    assert(open_has(open@, cm, sg + ts[k as int].cost));
                                    assert forall|x: Seq<u32>, c: int| #[trigger] open_has(op_mid, x, c) implies open_has(open@, x, c) by {
                                        assert(open_has(before_push, x, c));
                                    }
                                    assert forall|i: int| 0 <= i < open@.len() implies state_ok(sn, ts, #[trigger] open@[i], expansions as int) by {
                                        if i < before_push.len() {
                                            assert(open@[i] == before_push[i]);
                                        }
                                    }
                                }
                            },
                        }
                    }
                },
            }
        }
        proof {
            assert forall|i: int, k: int| 0 <= i < cl1.len() && 0 <= k < ts.len() && #[trigger] fire_marking(cl1[i], ts[k]) is Some
                && heuristic_bound(ts, nt, goal, fire_marking(cl1[i], ts[k]).unwrap()) is Some
                implies cl1.contains(fire_marking(cl1[i], ts[k]).unwrap())
                    || open_has(open@, fire_marking(cl1[i], ts[k]).unwrap(), cg[i] + ts[k].cost) by {
                let m1 = fire_marking(cl1[i], ts[k]).unwrap();
                lemma_push_contains(cl0, sm, m1);
                if i < cl0.len() {
                    assert(cl1[i] == cl0[i]);
                    assert(cg[i] == cg.drop_last()[i]);
                    if !cl0.contains(m1) && m1 != sm {
                        assert(open_has(before, m1, cg[i] + ts[k].cost));
                        assert(open_has(op_mid, m1, cg[i] + ts[k].cost));
                    }
                } else {
                    assert(cl1[i] == sm);
                    assert(cg[i] == sg);
                    assert(fire_marking(sm, ts[k]) is Some);
                }
            }
            assert(cheapest_closed(init_m, ts, nt, goal, cl1, cg)) by {
                assert forall|i: int, p: Seq<usize>|
                    0 <= i < cl1.len() && #[trigger] run(init_m, ts, p) == Some(#[trigger] cl1[i]) && bounded_along(ts, nt, goal, init_m, p)
                    implies cg[i] <= path_cost(ts, p) by {
                    if i < cl0.len() {
                        assert(cl1[i] == cl0[i]);
                        assert(cg[i] == cg.drop_last()[i]);
                        assert(run(init_m, ts, p) == Some(cl0[i]));
                    } else {
                        assert(cl1[i] == sm);
                    }
                }
            }
            lemma_push_contains(cl0, sm, goal);
            assert forall|i: int| 0 <= i < closed@.len() implies #[trigger] reachable_within(init_m, ts, closed@[i]@, cg[i]) by {
                if i < closed_before.len() {
                    assert(closed@[i] == closed_before[i]);
                    assert(cg[i] == cg.drop_last()[i]);
                } else {
                    assert(closed@[i]@ == sm);
                    assert(cg[i] == sg);
                    assert(run(init_m, ts, state.path@) == Some(sm));
                }
            }
            assert forall|i: int, p: Seq<usize>| 0 <= i < closed@.len() && #[trigger] run(init_m, ts, p) == Some(goal)
                implies #[trigger] cg[i] <= path_cost(ts, p) by {
                if i < closed_before.len() {
                    assert(cg[i] == cg.drop_last()[i]);
                }
            }
            assert(cl1.no_duplicates()) by {
                assert forall|a: int, b: int| 0 <= a < cl1.len() && 0 <= b < cl1.len() && a != b implies cl1[a] != cl1[b] by {
                    if a < cl0.len() && b < cl0.len() {
                        assert(cl1[a] == cl0[a] && cl1[b] == cl0[b]);
                    } else if a < cl0.len() {
                        assert(cl1[a] == cl0[a]);
                    } else {
                        assert(cl1[b] == cl0[b]);
                    }
                }
            }
            lemma_push_contains(cl0, sm, init_m);
            if !cl0.contains(init_m) && init_m != sm {
                assert(open_has(before, init_m, 0));
                assert(open_has(op_mid, init_m, 0));
            }
        }
    }
    proof {
        let cl = marks(closed@);
        assert forall|c: Seq<u32>, k: int| cl.contains(c) && 0 <= k < ts.len() && #[trigger] fire_marking(c, ts[k]) is Some
            && heuristic_bound(ts, nt, goal, fire_marking(c, ts[k]).unwrap()) is Some
            implies cl.contains(fire_marking(c, ts[k]).unwrap()) by {
            let i = choose|i: int| 0 <= i < cl.len() && cl[i] == c;
            assert(fire_marking(cl[i], ts[k]) is Some);
            if !cl.contains(fire_marking(c, ts[k]).unwrap()) {
                assert(open_has(open@, fire_marking(c, ts[k]).unwrap(), cg[i] + ts[k].cost));
            }
        }
        assert(cl.contains(init_m)) by {
            if !cl.contains(init_m) {
                assert(open_has(open@, init_m, 0));
            }
        }
        assert forall|path: Seq<usize>| #[trigger] run(sn.initial_marking@, ts, path) != Some(sn.goal_marking@) by {
            if run(sn.initial_marking@, ts, path) == Some(sn.goal_marking@) {
                lemma_goal_runs_bounded(ts, nt, sn.goal_marking@, sn.initial_marking@, path);
                lemma_closed_holds_run(cl, ts, nt, goal, init_m, path);
            }
        }
    }
    None
}

/// What a pushed sequence holds.
proof fn lemma_push_contains(s: Seq<Seq<u32>>, a: Seq<u32>, x: Seq<u32>)
    ensures
        s.push(a).contains(x) == (s.contains(x) || x == a),
{
    if s.contains(x) {
        let j = choose|j: int| 0 <= j < s.len() && s[j] == x;
        assert(s.push(a)[j] == x);
    }
    if x == a {
        assert(s.push(a)[s.len() as int] == x);
    }
    if s.push(a).contains(x) {
        let j = choose|j: int| 0 <= j < s.push(a).len() && s.push(a)[j] == x;
        if j < s.len() {
            assert(s[j] == x);
        }
    }
}


/// A single move in an alignment.
#[derive(Debug)]
pub struct AlignmentMove {
    /// Trace activity name. `None` for model-only moves.
    pub trace_activity: Option<String>,
    /// Model activity label. `None` for log-only moves.
    pub model_activity: Option<String>,
    /// Cost of this move.
    pub cost: u64,
}

impl DeepView for AlignmentMove {
    type V = (Option<Seq<char>>, Option<Seq<char>>, u64);

    open spec fn deep_view(&self) -> (Option<Seq<char>>, Option<Seq<char>>, u64) {
        (self.trace_activity.deep_view(), self.model_activity.deep_view(), self.cost)
    }
}

/// Result of aligning a single trace against a Petri net.
#[derive(Debug)]
pub struct AlignmentResult {
    /// Sequence of moves mapping trace events to model transitions.
    pub alignment: Vec<AlignmentMove>,
    /// Total cost of the alignment; none when no alignment was found.
    pub cost: Option<u64>,
    /// `true` when the alignment cost is 0 (perfect replay).
    pub is_fit: bool,
}

/// The moves of the product-net transitions of `path`.
pub open spec fn moves_of(ts: Seq<SyncMove>, path: Seq<usize>) -> Seq<(Option<Seq<char>>, Option<Seq<char>>, u64)> {
    path.map_values(|k: usize| (ts[k as int].trace_label, ts[k as int].model_label, ts[k as int].cost))
}

/// Convert a solved A* path into alignment moves.
fn path_to_alignment(path: &Vec<usize>, sn: &SyncProductNet) -> (res: Vec<AlignmentMove>)
    requires
        forall|i: int| 0 <= i < path@.len() ==> #[trigger] path@[i] < sn.transitions@.len(),
    ensures
        res.deep_view() == moves_of(sn.transitions.deep_view(), path@),
{
    let ghost ts = sn.transitions.deep_view();
    let mut out: Vec<AlignmentMove> = Vec::new();
    for i in 0..path.len()
        invariant
            ts == sn.transitions.deep_view(),
            forall|j: int| 0 <= j < path@.len() ==> #[trigger] path@[j] < sn.transitions@.len(),
            out.deep_view() == moves_of(ts, path@.take(i as int)),
    {
        let t = &sn.transitions[path[i]];
        proof {
            assert(path@[i as int] < sn.transitions@.len());
            assert(ts[path@[i as int] as int] == t.deep_view());
        }
        let mv = AlignmentMove { trace_activity: copy_label(&t.trace_label), model_activity: copy_label(&t.model_label), cost: t.cost };
        let ghost before = out.deep_view();
        out.push(mv);
        proof {
            assert(out.deep_view() =~= before.push(mv.deep_view()));
            assert(moves_of(ts, path@.take(i + 1)) =~= moves_of(ts, path@.take(i as int)).push(mv.deep_view()));
        }
    }
    proof {
        assert(path@.take(path@.len() as int) =~= path@);
    }
    out
}

proof fn lemma_run_in_range(m: Seq<u32>, ts: Seq<SyncMove>, path: Seq<usize>)
    requires
        run(m, ts, path) is Some,
    ensures
        forall|i: int| 0 <= i < path.len() ==> #[trigger] path[i] < ts.len(),
    decreases path.len(),
{
    if path.len() > 0 {
        let m1 = fire_marking(m, ts[path[0] as int]).unwrap();
        lemma_run_in_range(m1, ts, path.drop_first());
        assert forall|i: int| 0 <= i < path.len() implies #[trigger] path[i] < ts.len() by {
            if i > 0 {
                assert(path[i] == path.drop_first()[i - 1]);
            }
        }
    }
}

proof fn lemma_sync_moves_cost(n: NetView, names: Seq<Seq<char>>, k: int, off: int)
    ensures
        forall|i: int| 0 <= i < sync_moves(n, names, k, off).len() ==> #[trigger] sync_moves(n, names, k, off)[i].cost == SYNC_COST,
    decreases k,
{
    if k > 0 {
        lemma_sync_moves_cost(n, names, k - 1, off);
        let a = sync_moves(n, names, k - 1, off);
        let b = event_sync_moves(n, k - 1, names[k - 1], off);
        assert forall|i: int| 0 <= i < (a + b).len() implies #[trigger] (a + b)[i].cost == SYNC_COST by {
            if i >= a.len() {
                assert((a + b)[i] == b[i - a.len()]);
            }
        }
    }
}

proof fn lemma_sync_transitions_cost(n: NetView, names: Seq<Seq<char>>)
    ensures
        forall|i: int| 0 <= i < sync_transitions(n, names).len() ==> #[trigger] sync_transitions(n, names)[i].cost <= LOG_MOVE_COST,
{
    let off = names.len() as int + 1;
    let a = sync_moves(n, names, names.len() as int, off);
    let b = Seq::new(names.len(), |i: int| log_move(i, names[i]));
    let c = n.transitions.map_values(|t: (Seq<char>, Option<Seq<char>>)| model_move(n, t, off));
    lemma_sync_moves_cost(n, names, names.len() as int, off);
    assert forall|i: int| 0 <= i < (a + b + c).len() implies #[trigger] (a + b + c)[i].cost <= LOG_MOVE_COST by {
        if i < a.len() {
            assert((a + b + c)[i] == a[i]);
        } else if i < a.len() + b.len() {
            assert((a + b + c)[i] == b[i - a.len()]);
        } else {
            assert((a + b + c)[i] == c[i - a.len() - b.len()]);
        }
    }
}

/// `path` fires the product net of `n` and the trace `names` from its
/// initial marking to its goal marking.
pub open spec fn is_alignment(
    n: NetView,
    initial: Seq<(Seq<char>, u32)>,
    fin: Seq<(Seq<char>, u32)>,
    names: Seq<Seq<char>>,
    path: Seq<usize>,
) -> bool {
    let e = names.len() as int;
    run(sync_marking(n.places, initial, e, 0), sync_transitions(n, names), path) == Some(sync_marking(n.places, fin, e, e))
}

/// Align a single trace against a Petri net using A* search: an empty
/// trace aligns at no cost; otherwise the alignment, when the search finds
/// one, is a firing sequence of the product net from its initial to its
/// goal marking, its moves are those of the sequence's transitions, and its
/// cost is theirs summed, and no alignment of the trace costs less. The
/// search finds none only when the trace has no alignment, or when more
/// markings than it expands are each reachable for no more than any
/// alignment costs.
pub fn align_trace(net: &PetriNet, initial_marking: &Marking, final_marking: &Marking, trace: &Trace) -> (res: AlignmentResult)
    requires
        trace.events.len() + 1 + net.places.len() <= usize::MAX,
    ensures
        res.is_fit == (res.cost == Some(0u64)),
        trace.events.len() == 0 ==> res.alignment@.len() == 0 && res.cost == Some(0u64),
        trace.events.len() > 0 ==> match res.cost {
            Some(c) => {
                &&& exists|path: Seq<usize>| {
                    &&& #[trigger] is_alignment(net@, initial_marking.tokens.deep_view(), final_marking.tokens.deep_view(), trace_names(trace.deep_view()), path)
                    &&& res.alignment.deep_view() == moves_of(sync_transitions(net@, trace_names(trace.deep_view())), path)
                    &&& c == path_cost(sync_transitions(net@, trace_names(trace.deep_view())), path)
                }
                &&& forall|p: Seq<usize>| #[trigger] is_alignment(net@, initial_marking.tokens.deep_view(), final_marking.tokens.deep_view(), trace_names(trace.deep_view()), p)
                    ==> c <= path_cost(sync_transitions(net@, trace_names(trace.deep_view())), p)
            },
            None => {
                &&& res.alignment@.len() == 0
                &&& forall|p: Seq<usize>| #[trigger] is_alignment(net@, initial_marking.tokens.deep_view(), final_marking.tokens.deep_view(), trace_names(trace.deep_view()), p)
                    ==> many_within(
                        sync_marking(net@.places, initial_marking.tokens.deep_view(), trace.events.len() as int, 0),
                        sync_transitions(net@, trace_names(trace.deep_view())),
                        MAX_EXPANSIONS + 1,
                        path_cost(sync_transitions(net@, trace_names(trace.deep_view())), p),
                    )
            },
        },
{
    if trace.events.len() == 0 {
        return AlignmentResult { alignment: Vec::new(), cost: Some(0), is_fit: true };
    }
    let sn = SyncProductNet::build(net, initial_marking, final_marking, trace);
    proof {
        lemma_sync_transitions_cost(net@, trace_names(trace.deep_view()));
        assert forall|i: int| 0 <= i < sn.transitions@.len() implies #[trigger] sn.transitions@[i].cost <= LOG_MOVE_COST by {
            assert(sn.transitions@[i].cost == sn.transitions.deep_view()[i].cost);
        }
    }
    match astar_search(&sn) {
        Some((path, g)) => {
            proof {
                lemma_run_in_range(sn.initial_marking@, sn.transitions.deep_view(), path@);
            }
            let alignment = path_to_alignment(&path, &sn);
            proof {
                assert(is_alignment(net@, initial_marking.tokens.deep_view(), final_marking.tokens.deep_view(), trace_names(trace.deep_view()), path@));
            }
            AlignmentResult { alignment, cost: Some(g), is_fit: g == 0 }
        },
        None => AlignmentResult { alignment: Vec::new(), cost: None, is_fit: false },
    }
}


/// The trace side of a sequence of moves: the trace activities of the
/// moves that have one, in order.
pub open spec fn trace_side(moves: Seq<(Option<Seq<char>>, Option<Seq<char>>, u64)>) -> Seq<Seq<char>>
    decreases moves.len(),
{
    if moves.len() == 0 {
        Seq::empty()
    } else {
        (match moves[0].0 {
            Some(a) => seq![a],
            None => Seq::empty(),
        }) + trace_side(moves.drop_first())
    }
}

/// All listed places are model places.
spec fn all_model(ps: Seq<usize>, off: int) -> bool {
    forall|k: int| 0 <= k < ps.len() ==> #[trigger] ps[k] >= off
}

/// How a product-net transition touches the trace places: a move with a
/// trace activity takes from the place before one event of that activity
/// and puts on the place after it; every other place it touches, and every
/// place a move without trace activity touches, is a model place.
spec fn trace_shape(t: SyncMove, names: Seq<Seq<char>>, off: int) -> bool {
    match t.trace_label {
        Some(a) => {
            &&& t.preset.len() >= 1
            &&& t.postset.len() >= 1
            &&& t.preset[0] < names.len()
            &&& t.postset[0] == t.preset[0] + 1
            &&& a == names[t.preset[0] as int]
            &&& all_model(t.preset.drop_first(), off)
            &&& all_model(t.postset.drop_first(), off)
        },
        None => all_model(t.preset, off) && all_model(t.postset, off),
    }
}

/// One token on trace place `pos` and none on the other trace places.
spec fn trace_at(m: Seq<u32>, e: int, pos: int) -> bool {
    &&& m.len() > e
    &&& forall|j: int| 0 <= j <= e ==> #[trigger] m[j] == if j == pos { 1u32 } else { 0u32 }
}

proof fn lemma_slots_model(n: NetView, node: Seq<char>, incoming: bool, off: int)
    requires
        off >= 0,
        off + n.places.len() <= usize::MAX,
    ensures
        all_model(slots(n.places, off, crate::petri_net::neighbours(n, node, incoming, true)), off),
{
    let ps = crate::petri_net::neighbours(n, node, incoming, true);
    assert forall|k: int| 0 <= k < slots(n.places, off, ps).len() implies #[trigger] slots(n.places, off, ps)[k] >= off by {
        lemma_neighbour_places(n, node, incoming, k);
        lemma_place_slot(n.places, ps[k]);
    }
}

proof fn lemma_transitions_shape(n: NetView, names: Seq<Seq<char>>)
    requires
        names.len() + 1 + n.places.len() <= usize::MAX,
    ensures
        forall|i: int| 0 <= i < sync_transitions(n, names).len() ==> trace_shape(#[trigger] sync_transitions(n, names)[i], names, names.len() as int + 1),
{
    let off = names.len() as int + 1;
    let a = sync_moves(n, names, names.len() as int, off);
    let b = Seq::new(names.len(), |i: int| log_move(i, names[i]));
    let c = n.transitions.map_values(|t: (Seq<char>, Option<Seq<char>>)| model_move(n, t, off));
    lemma_sync_moves_shape(n, names, names.len() as int, off);
    assert forall|i: int| 0 <= i < (a + b + c).len() implies trace_shape(#[trigger] (a + b + c)[i], names, off) by {
        if i < a.len() {
            assert((a + b + c)[i] == a[i]);
        } else if i < a.len() + b.len() {
            assert((a + b + c)[i] == b[i - a.len()]);
            assert(b[i - a.len()].preset.drop_first() =~= Seq::<usize>::empty());
            assert(b[i - a.len()].postset.drop_first() =~= Seq::<usize>::empty());
        } else {
            let t = n.transitions[i - a.len() - b.len()];
            assert((a + b + c)[i] == c[i - a.len() - b.len()]);
            lemma_slots_model(n, t.0, true, off);
            lemma_slots_model(n, t.0, false, off);
        }
    }
}

proof fn lemma_sync_moves_shape(n: NetView, names: Seq<Seq<char>>, k: int, off: int)
    requires
        k <= names.len(),
        off == names.len() + 1,
        off + n.places.len() <= usize::MAX,
    ensures
        forall|i: int| 0 <= i < sync_moves(n, names, k, off).len() ==> trace_shape(#[trigger] sync_moves(n, names, k, off)[i], names, off),
    decreases k,
{
    if k > 0 {
        lemma_sync_moves_shape(n, names, k - 1, off);
        let a = sync_moves(n, names, k - 1, off);
        let lab = |t: (Seq<char>, Option<Seq<char>>)| t.1 == Some(names[k - 1]);
        let mk = |t: (Seq<char>, Option<Seq<char>>)| sync_move(n, t, k - 1, names[k - 1], off);
        let b = n.transitions.filter(lab).map_values(mk);
        assert(event_sync_moves(n, k - 1, names[k - 1], off) == b);
        assert forall|i: int| 0 <= i < (a + b).len() implies trace_shape(#[trigger] (a + b)[i], names, off) by {
            if i >= a.len() {
                let t = n.transitions.filter(lab)[i - a.len()];
                assert((a + b)[i] == mk(t));
                lemma_slots_model(n, t.0, true, off);
                lemma_slots_model(n, t.0, false, off);
                let mv = mk(t);
                assert(mv.preset.drop_first() =~= slots(n.places, off, pre_places(n, t.0)));
                assert(mv.postset.drop_first() =~= slots(n.places, off, post_places(n, t.0)));
            } else {
                assert((a + b)[i] == a[i]);
            }
        }
    }
}

proof fn lemma_take_model(m: Seq<u32>, ps: Seq<usize>, off: int)
    requires
        all_model(ps, off),
    ensures
        take_tokens(m, ps) matches Some(m2) ==> m2.len() == m.len() && forall|j: int| 0 <= j < off ==> #[trigger] m2[j] == m[j],
        put_tokens(m, ps) matches Some(m2) ==> m2.len() == m.len() && forall|j: int| 0 <= j < off ==> #[trigger] m2[j] == m[j],
    decreases ps.len(),
{
    if ps.len() > 0 && ps[0] < m.len() {
        assert(ps[0] >= off);
        assert forall|k: int| 0 <= k < ps.drop_first().len() implies #[trigger] ps.drop_first()[k] >= off by {
            assert(ps.drop_first()[k] == ps[k + 1]);
        }
        let down = m.update(ps[0] as int, (m[ps[0] as int] - 1) as u32);
        let up = m.update(ps[0] as int, (m[ps[0] as int] + 1) as u32);
        lemma_take_model(down, ps.drop_first(), off);
        lemma_take_model(up, ps.drop_first(), off);
    }
}

proof fn lemma_fire_trace(m: Seq<u32>, t: SyncMove, names: Seq<Seq<char>>, pos: int)
    requires
        trace_shape(t, names, names.len() as int + 1),
        trace_at(m, names.len() as int, pos),
        fire_marking(m, t) is Some,
    ensures
        t.trace_label is None ==> trace_at(fire_marking(m, t).unwrap(), names.len() as int, pos),
        t.trace_label is Some ==> t.preset[0] == pos && trace_at(fire_marking(m, t).unwrap(), names.len() as int, pos + 1),
{
    let e = names.len() as int;
    let off = e + 1;
    match t.trace_label {
        None => {
            lemma_take_model(m, t.preset, off);
            let m1 = take_tokens(m, t.preset).unwrap();
            lemma_take_model(m1, t.postset, off);
        },
        Some(a) => {
            let i = t.preset[0];
            assert(m[i as int] > 0);
            assert(i == pos);
            let m0 = m.update(i as int, (m[i as int] - 1) as u32);
            assert(t.preset.drop_first() == t.preset.drop_first());
            lemma_take_model(m0, t.preset.drop_first(), off);
            let m1 = take_tokens(m0, t.preset.drop_first()).unwrap();
            assert(take_tokens(m, t.preset) == Some(m1));
            let o = t.postset[0];
            assert(m1[o as int] == 0);
            let m2 = m1.update(o as int, (m1[o as int] + 1) as u32);
            lemma_take_model(m2, t.postset.drop_first(), off);
            let m3 = put_tokens(m2, t.postset.drop_first()).unwrap();
            assert(put_tokens(m1, t.postset) == Some(m3));
            assert forall|j: int| 0 <= j <= e implies #[trigger] m3[j] == if j == pos + 1 { 1u32 } else { 0u32 } by {
                assert(m3[j] == m2[j]);
                assert(m1[j] == m0[j]);
            }
        },
    }
}

proof fn lemma_trace_side(ts: Seq<SyncMove>, names: Seq<Seq<char>>, m: Seq<u32>, pos: int, path: Seq<usize>, goal: Seq<u32>)
    requires
        forall|i: int| 0 <= i < ts.len() ==> trace_shape(#[trigger] ts[i], names, names.len() as int + 1),
        0 <= pos <= names.len(),
        trace_at(m, names.len() as int, pos),
        trace_at(goal, names.len() as int, names.len() as int),
        run(m, ts, path) == Some(goal),
    ensures
        trace_side(moves_of(ts, path)) == names.subrange(pos, names.len() as int),
    decreases path.len(),
{
    let e = names.len() as int;
    if path.len() == 0 {
        assert(m[pos] == 1);
        assert(goal[pos] == if pos == e { 1u32 } else { 0u32 });
        assert(names.subrange(pos, e) =~= Seq::<Seq<char>>::empty());
    } else {
        let t = ts[path[0] as int];
        let m1 = fire_marking(m, t).unwrap();
        lemma_fire_trace(m, t, names, pos);
        assert(moves_of(ts, path).drop_first() =~= moves_of(ts, path.drop_first()));
        assert(moves_of(ts, path)[0].0 == t.trace_label);
        match t.trace_label {
            None => {
                lemma_trace_side(ts, names, m1, pos, path.drop_first(), goal);
                assert(trace_side(moves_of(ts, path)) =~= trace_side(moves_of(ts, path.drop_first())));
            },
            Some(a) => {
                assert(t.preset[0] == pos);
                lemma_trace_side(ts, names, m1, pos + 1, path.drop_first(), goal);
                assert(seq![a] + names.subrange(pos + 1, e) =~= names.subrange(pos, e));
            },
        }
    }
}

/// Every alignment explains the trace exactly: the trace activities of its
/// moves, in order, are the trace's activities.
pub proof fn lemma_alignment_explains_trace(
    n: NetView,
    initial: Seq<(Seq<char>, u32)>,
    fin: Seq<(Seq<char>, u32)>,
    names: Seq<Seq<char>>,
    path: Seq<usize>,
)
    requires
        names.len() + 1 + n.places.len() <= usize::MAX,
        is_alignment(n, initial, fin, names, path),
    ensures
        trace_side(moves_of(sync_transitions(n, names), path)) == names,
{
    let e = names.len() as int;
    lemma_transitions_shape(n, names);
    let m0 = sync_marking(n.places, initial, e, 0);
    let g = sync_marking(n.places, fin, e, e);
    lemma_trace_side(sync_transitions(n, names), names, m0, 0, path, g);
    assert(names.subrange(0, e) =~= names);
}

} // verus!
