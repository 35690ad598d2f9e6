//! Transition systems: states are windows of recent activities, and each
//! executed activity moves from one state to the next.

use vstd::prelude::*;
use crate::event_log::{EventLog, TraceView, trace_names, trace_activity_names};
use crate::counting::{is_count_table, lemma_count_table_bump, lemma_count_table_extend};
use crate::discovery::dfg::{log_items, lemma_log_items_push};
use crate::text::{concat, str_eq, distinct_in_order, lemma_distinct_in_order};

verus! {

/// The activities that make up the state after the `i`-th event: looking
/// back `window` events (forward), or ahead `window` events (backward).
pub open spec fn window_of(names: Seq<Seq<char>>, i: int, window: int, forward: bool) -> Seq<Seq<char>> {
    if forward {
        names.subrange(if i >= window { i - window } else { 0 }, i + 1)
    } else {
        names.subrange(i, if i + window < names.len() - 1 { i + window + 1 } else { names.len() as int })
    }
}

/// Names joined with ", " between them.
pub open spec fn joined(parts: Seq<Seq<char>>) -> Seq<char>
    decreases parts.len(),
{
    if parts.len() == 0 {
        seq![]
    } else if parts.len() == 1 {
        parts[0]
    } else {
        joined(parts.drop_last()) + seq![',', ' '] + parts.last()
    }
}

/// The state names visited along a trace, one per event.
pub open spec fn trace_states(names: Seq<Seq<char>>, window: int, forward: bool) -> Seq<Seq<char>> {
    Seq::new(names.len(), |i: int| joined(window_of(names, i, window, forward)))
}

/// The moves along a trace: (state before, state after, activity).
pub open spec fn trace_moves(names: Seq<Seq<char>>, window: int, forward: bool) -> Seq<(Seq<char>, Seq<char>, Seq<char>)> {
    Seq::new(
        if names.len() == 0 { 0nat } else { (names.len() - 1) as nat },
        |i: int| (trace_states(names, window, forward)[i], trace_states(names, window, forward)[i + 1], names[i + 1]),
    )
}

/// The states visited by all traces, in order.
pub open spec fn log_state_visits(log: Seq<TraceView>, window: int, forward: bool) -> Seq<Seq<char>> {
    log_items(log, |t: TraceView| trace_states(trace_names(t), window, forward))
}

/// The moves made by all traces, in order.
pub open spec fn log_moves(log: Seq<TraceView>, window: int, forward: bool) -> Seq<(Seq<char>, Seq<char>, Seq<char>)> {
    log_items(log, |t: TraceView| trace_moves(trace_names(t), window, forward))
}

/// A state of a transition system.
#[derive(Debug)]
pub struct TSState {
    /// The state's index in the list of states.
    pub id: usize,
    /// The activities of the state's window, joined with ", ".
    pub name: String,
}

/// A transition between two states, labelled with an activity.
#[derive(Debug)]
pub struct TSTransition {
    pub from_state: usize,
    pub to_state: usize,
    pub activity: String,
    /// How many times the move was made.
    pub count: usize,
}

impl DeepView for TSTransition {
    type V = ((usize, usize, Seq<char>), usize);

    open spec fn deep_view(&self) -> ((usize, usize, Seq<char>), usize) {
        ((self.from_state, self.to_state, self.activity@), self.count)
    }
}

/// A transition system.
#[derive(Debug)]
pub struct TransitionSystem {
    /// The states, in order of first visit; a state's id is its index.
    pub states: Vec<TSState>,
    /// The transitions, each (from, to, activity) once with its count.
    pub transitions: Vec<TSTransition>,
    /// Each state's name with its id, in the order of `states`.
    pub state_map: Vec<(String, usize)>,
}

/// The names of a list of states.
pub open spec fn state_names(states: Seq<TSState>) -> Seq<Seq<char>> {
    states.map_values(|s: TSState| s.name@)
}

/// Transitions with their state ids replaced by the states' names.
pub open spec fn named_moves(trans: Seq<((usize, usize, Seq<char>), usize)>, names: Seq<Seq<char>>) -> Seq<((Seq<char>, Seq<char>, Seq<char>), usize)> {
    trans.map_values(|e: ((usize, usize, Seq<char>), usize)| ((names[e.0.0 as int], names[e.0.1 as int], e.0.2), e.1))
}

/// `parts[from..to]` joined with ", ".
fn join_names(parts: &Vec<String>, from: usize, to: usize) -> (res: String)
    requires
        from < to <= parts@.len(),
    ensures
        res@ == joined(parts.deep_view().subrange(from as int, to as int)),
{
    let ghost pv = parts.deep_view();
    let mut acc = parts[from].clone();
    proof {
        assert(pv.subrange(from as int, from + 1).len() == 1);
    }
    for j in from + 1..to
        invariant
            from < to <= parts@.len(),
            pv == parts.deep_view(),
            acc@ == joined(pv.subrange(from as int, j as int)),
    {
        let sep = ", ";
        proof {
            reveal_strlit(", ");
        }
        let with_sep = concat(acc.as_str(), sep);
        acc = concat(with_sep.as_str(), parts[j].as_str());
        proof {
            let sub = pv.subrange(from as int, j + 1);
            assert(sub.drop_last() =~= pv.subrange(from as int, j as int));
            assert(sub.last() == parts@[j as int]@);
            assert(sep@ =~= seq![',', ' ']);
        }
    }
    acc
}

/// The index of the state named `name`, if there is one.
fn find_state(states: &Vec<TSState>, name: &String) -> (res: Option<usize>)
    ensures
        match res {
            Some(x) => x < states@.len() && states@[x as int].name@ == name@,
            None => !state_names(states@).contains(name@),
        },
{
    for x in 0..states.len()
        invariant
            forall|y: int| 0 <= y < x ==> #[trigger] states@[y].name@ != name@,
    {
        if str_eq(states[x].name.as_str(), name.as_str()) {
            return Some(x);
        }
    }
    proof {
        if state_names(states@).contains(name@) {
            let y = choose|y: int| 0 <= y < state_names(states@).len() && state_names(states@)[y] == name@;
            assert(states@[y].name@ == name@);
        }
    }
    None
}

/// The index of the transition with this (from, to, activity), if there is one.
fn find_transition(trans: &Vec<TSTransition>, from: usize, to: usize, activity: &String) -> (res: Option<usize>)
    ensures
        match res {
            Some(x) => x < trans@.len() && trans.deep_view()[x as int].0 == (from, to, activity@),
            None => forall|y: int| 0 <= y < trans@.len() ==> #[trigger] trans.deep_view()[y].0 != (from, to, activity@),
        },
{
    for x in 0..trans.len()
        invariant
            forall|y: int| 0 <= y < x ==> #[trigger] trans.deep_view()[y].0 != (from, to, activity@),
    {
        let t = &trans[x];
        if t.from_state == from && t.to_state == to && str_eq(t.activity.as_str(), activity.as_str()) {
            return Some(x);
        }
    }
    None
}

/// The part of the log's items that comes from its first `k` traces is a prefix.
pub proof fn lemma_log_items_prefix_len<A>(log: Seq<TraceView>, per: spec_fn(TraceView) -> Seq<A>, k: int)
    requires
        0 <= k <= log.len(),
    ensures
        log_items(log.take(k), per).len() <= log_items(log, per).len(),
{
    assert(log =~= log.take(k) + log.skip(k));
    assert(log.map_values(per) =~= log.take(k).map_values(per) + log.skip(k).map_values(per));
    vstd::seq_lib::lemma_flatten_concat(log.take(k).map_values(per), log.skip(k).map_values(per));
}

/// The id of the state named `name`, adding the state when it is new.
fn visit_state(states: &mut Vec<TSState>, name: String) -> (id: usize)
    requires
        forall|j: int| 0 <= j < old(states)@.len() ==> #[trigger] old(states)@[j].id == j,
    ensures
        forall|j: int| 0 <= j < final(states)@.len() ==> #[trigger] final(states)@[j].id == j,
        state_names(final(states)@) == if state_names(old(states)@).contains(name@) {
            state_names(old(states)@)
        } else {
            state_names(old(states)@).push(name@)
        },
        id < final(states)@.len(),
        final(states)@.len() >= old(states)@.len(),
        final(states)@[id as int].name@ == name@,
{
    let ghost ns0 = state_names(states@);
    match find_state(states, &name) {
        Some(x) => {
            proof {
                assert(ns0[x as int] == name@);
            }
            x
        },
        None => {
            let id = states.len();
            states.push(TSState { id, name });
            proof {
                assert(state_names(states@) =~= ns0.push(name@));
            }
            id
        },
    }
}

/// Records one more move from state `from` to state `to` under `activity`.
fn record_move(
    transitions: &mut Vec<TSTransition>,
    from: usize,
    to: usize,
    activity: String,
    Ghost(names): Ghost<Seq<Seq<char>>>,
    Ghost(items): Ghost<Seq<(Seq<char>, Seq<char>, Seq<char>)>>,
)
    requires
        names.no_duplicates(),
        from < names.len(),
        to < names.len(),
        forall|x: int| 0 <= x < old(transitions)@.len() ==> #[trigger] old(transitions)@[x].from_state < names.len()
            && old(transitions)@[x].to_state < names.len(),
        is_count_table(named_moves(old(transitions).deep_view(), names), items),
        items.len() + 1 <= usize::MAX,
    ensures
        forall|x: int| 0 <= x < final(transitions)@.len() ==> #[trigger] final(transitions)@[x].from_state < names.len()
            && final(transitions)@[x].to_state < names.len(),
        is_count_table(named_moves(final(transitions).deep_view(), names), items.push((names[from as int], names[to as int], activity@))),
{
    let ghost old_tv = transitions@;
    let ghost old_trans = transitions.deep_view();
    let ghost key = (names[from as int], names[to as int], activity@);
    let ghost nm = named_moves(old_trans, names);
    match find_transition(transitions, from, to, &activity) {
        Some(x) => {
            let c = transitions[x].count;
            proof {
                assert(nm[x as int].0 == key);
                crate::counting::lemma_seq_count_le_len(items, key);
                assert(nm[x as int].1 == c);
            }
            transitions.set(x, TSTransition { from_state: from, to_state: to, activity, count: c + 1 });
            proof {
                assert forall|y: int| 0 <= y < transitions@.len() implies #[trigger] transitions@[y].from_state < names.len()
                    && transitions@[y].to_state < names.len() by {
                    if y != x {
                        assert(transitions@[y] == old_tv[y]);
                    }
                }
                lemma_count_table_bump(nm, items, x as int, key);
                assert(named_moves(transitions.deep_view(), names) =~= nm.update(x as int, (key, (c + 1) as usize)));
            }
        },
        None => {
            proof {
                assert forall|y: int| 0 <= y < nm.len() implies #[trigger] nm[y].0 != key by {
                    let e = old_trans[y];
                    assert(e.0 != (from, to, activity@));
                    assert(old_tv[y].from_state < names.len());
                    assert(old_tv[y].to_state < names.len());
                    if nm[y].0 == key {
                        assert(names[e.0.0 as int] == names[from as int]);
                        assert(names[e.0.1 as int] == names[to as int]);
                    }
                }
                lemma_count_table_extend(nm, items, key);
            }
            transitions.push(TSTransition { from_state: from, to_state: to, activity, count: 1 });
            proof {
                assert forall|y: int| 0 <= y < transitions@.len() implies #[trigger] transitions@[y].from_state < names.len()
                    && transitions@[y].to_state < names.len() by {
                    if y < old_tv.len() {
                        assert(transitions@[y] == old_tv[y]);
                    }
                }
                assert(named_moves(transitions.deep_view(), names) =~= nm.push((key, 1usize)));
            }
        },
    }
}

/// The states visited by the log, in order of first visit.
pub open spec fn ts_states(log: Seq<TraceView>, window: int, forward: bool) -> Seq<Seq<char>> {
    distinct_in_order(log_state_visits(log, window, forward))
}

/// Discovers the transition system of a log. The state after an event is
/// named by the activities of its window joined with ", ": with direction
/// "forward" the event and up to `window` events before it, otherwise the
/// event and up to `window` events after it. States are numbered in order of
/// first visit; each pair of consecutive events in a trace is a move from
/// the first event's state to the second's, labelled with the second event's
/// activity, and the transitions count these moves.
#[verifier::spinoff_prover]
#[verifier::rlimit(30)]
pub fn discover_transition_system(log: &EventLog, window: usize, direction: &str) -> (res: TransitionSystem)
    requires
        log_moves(log@, window as int, direction@ == "forward"@).len() <= usize::MAX,
    ensures
        state_names(res.states@) == ts_states(log@, window as int, direction@ == "forward"@),
        forall|j: int| 0 <= j < res.states@.len() ==> #[trigger] res.states@[j].id == j,
        res.state_map.deep_view() == Seq::new(res.states@.len(), |j: int| (res.states@[j].name@, j as usize)),
        forall|x: int| 0 <= x < res.transitions@.len() ==> #[trigger] res.transitions@[x].from_state < res.states@.len()
            && res.transitions@[x].to_state < res.states@.len(),
        is_count_table(named_moves(res.transitions.deep_view(), state_names(res.states@)), log_moves(log@, window as int, direction@ == "forward"@)),
{
    let forward = str_eq(direction, "forward");
    let ghost lv = log@;
    let ghost w = window as int;
    let mut states: Vec<TSState> = Vec::new();
    let mut transitions: Vec<TSTransition> = Vec::new();
    proof {
        assert(log_state_visits(lv.take(0), w, forward) =~= Seq::<Seq<char>>::empty());
        assert(log_moves(lv.take(0), w, forward) =~= Seq::<(Seq<char>, Seq<char>, Seq<char>)>::empty());
        assert(state_names(states@) =~= Seq::<Seq<char>>::empty());
        assert(named_moves(transitions.deep_view(), state_names(states@)) =~= Seq::<((Seq<char>, Seq<char>, Seq<char>), usize)>::empty());
    }
    for k in 0..log.traces.len()
        invariant
            lv == log@,
            w == window as int,
            forward == (direction@ == "forward"@),
            log_moves(lv, w, forward).len() <= usize::MAX,
            state_names(states@) == distinct_in_order(log_state_visits(lv.take(k as int), w, forward)),
            forall|j: int| 0 <= j < states@.len() ==> #[trigger] states@[j].id == j,
            forall|x: int| 0 <= x < transitions@.len() ==> #[trigger] transitions@[x].from_state < states@.len()
                && transitions@[x].to_state < states@.len(),
            is_count_table(named_moves(transitions.deep_view(), state_names(states@)), log_moves(lv.take(k as int), w, forward)),
    {
        let names = trace_activity_names(&log.traces[k]);
        let ghost tn = trace_names(lv[k as int]);
        let ghost st = trace_states(tn, w, forward);
        let ghost tm = trace_moves(tn, w, forward);
        let ghost visits0 = log_state_visits(lv.take(k as int), w, forward);
        let ghost moves0 = log_moves(lv.take(k as int), w, forward);
        proof {
            assert(log.traces@[k as int].deep_view() == lv[k as int]);
            assert(names.deep_view() == tn);
            assert(lv.take(k + 1) =~= lv.take(k as int).push(lv[k as int]));
            lemma_log_items_push(lv.take(k as int), lv[k as int], |t: TraceView| trace_states(trace_names(t), w, forward));
            lemma_log_items_push(lv.take(k as int), lv[k as int], |t: TraceView| trace_moves(trace_names(t), w, forward));
            lemma_log_items_prefix_len(lv, |t: TraceView| trace_moves(trace_names(t), w, forward), k + 1);
            assert(visits0 + st.take(0) =~= visits0);
            assert(moves0 + tm.take(0) =~= moves0);
        }
        let n = names.len();
        let mut prev: usize = 0;
        for i in 0..n
            invariant
                lv == log@,
                w == window as int,
                forward == (direction@ == "forward"@),
                names.deep_view() == tn,
                n == tn.len(),
                st == trace_states(tn, w, forward),
                tm == trace_moves(tn, w, forward),
                moves0.len() + tm.len() <= usize::MAX,
                state_names(states@) == distinct_in_order(visits0 + st.take(i as int)),
                forall|j: int| 0 <= j < states@.len() ==> #[trigger] states@[j].id == j,
                forall|x: int| 0 <= x < transitions@.len() ==> #[trigger] transitions@[x].from_state < states@.len()
                    && transitions@[x].to_state < states@.len(),
                is_count_table(named_moves(transitions.deep_view(), state_names(states@)),
                    moves0 + tm.take(if i == 0 { 0 } else { i - 1 })),
                i > 0 ==> prev < states@.len() && states@[prev as int].name@ == st[i - 1],
        {
            let start: usize = if forward {
                if i >= window { i - window } else { 0 }
            } else {
                i
            };
            let end: usize = if forward {
                i + 1
            } else if window < n - 1 - i {
                i + window + 1
            } else {
                n
            };
            let name = join_names(&names, start, end);
            proof {
                assert(tn.subrange(start as int, end as int) =~= window_of(tn, i as int, w, forward));
                assert(name@ == st[i as int]);
                assert((visits0 + st.take(i + 1)).drop_last() =~= visits0 + st.take(i as int));
                assert((visits0 + st.take(i + 1)).last() == st[i as int]);
                lemma_distinct_in_order(visits0 + st.take(i as int));
            }
            let ghost ns0 = state_names(states@);
            let ghost old_tv = transitions@;
            let id = visit_state(&mut states, name);
            let ghost ns = state_names(states@);
            proof {
                assert(ns0.len() <= ns.len() == states@.len());
                assert forall|x: int| 0 <= x < transitions@.len() implies #[trigger] transitions@[x].from_state < states@.len()
                    && transitions@[x].to_state < states@.len() by {
                    assert(transitions@[x].from_state < ns0.len());
                }
                assert(ns == distinct_in_order(visits0 + st.take(i + 1)));
                lemma_distinct_in_order(visits0 + st.take(i + 1));
                assert(ns.len() >= ns0.len());
                assert(named_moves(transitions.deep_view(), ns) =~= named_moves(transitions.deep_view(), ns0));
                assert(ns[id as int] == st[i as int]);
            }
            if i > 0 {
                let act = names[i].clone();
                proof {
                    assert(tm[i - 1] == (st[i - 1], st[i as int], tn[i as int]));
                    assert((moves0 + tm.take(i - 1)).push(tm[i - 1]) =~= moves0 + tm.take(i as int));
                    assert(ns[prev as int] == st[i - 1]);
                    assert(act@ == tn[i as int]);
                }
                record_move(&mut transitions, prev, id, act, Ghost(ns), Ghost(moves0 + tm.take(i - 1)));
                proof {
                    assert(ns.len() == states@.len());
                    assert forall|x: int| 0 <= x < transitions@.len() implies #[trigger] transitions@[x].from_state < states@.len()
                        && transitions@[x].to_state < states@.len() by {
                        assert(transitions@[x].from_state < ns.len());
                    }
                }
            } else {
                proof {
                    assert(moves0 + tm.take(0) =~= moves0);
                }
            }
            prev = id;
        }
        proof {
            assert(visits0 + st.take(n as int) =~= visits0 + st);
            if n > 0 {
                assert(moves0 + tm.take(n - 1) =~= moves0 + tm);
            } else {
                assert(moves0 + tm.take(0) =~= moves0 + tm);
            }
        }
    }
    proof {
        assert(lv.take(lv.len() as int) =~= lv);
    }
    let mut state_map: Vec<(String, usize)> = Vec::new();
    for j in 0..states.len()
        invariant
            state_map@.len() == j,
            forall|y: int| 0 <= y < j ==> #[trigger] state_map.deep_view()[y] == (states@[y].name@, y as usize),
    {
        let ghost before = state_map.deep_view();
        state_map.push((states[j].name.clone(), j));
        proof {
            assert forall|y: int| 0 <= y < j + 1 implies #[trigger] state_map.deep_view()[y] == (states@[y].name@, y as usize) by {
                if y < j {
                    assert(state_map.deep_view()[y] == before[y]);
                }
            }
        }
    }
    proof {
        assert(state_map.deep_view() =~= Seq::new(states@.len(), |j: int| (states@[j].name@, j as usize)));
    }
    TransitionSystem { states, transitions, state_map }
}

/// An item of a log's items comes from some event of some trace, and every
/// such item is one of them.
proof fn lemma_log_items_contains<A>(log: Seq<TraceView>, per: spec_fn(TraceView) -> Seq<A>, x: A)
    ensures
        log_items(log, per).contains(x) <==> exists|t: int, i: int|
            0 <= t < log.len() && 0 <= i < per(log[t]).len() && #[trigger] per(log[t])[i] == x,
    decreases log.len(),
{
    if log.len() == 0 {
        assert(log.map_values(per) =~= Seq::<Seq<A>>::empty());
        assert(log_items(log, per) =~= Seq::<A>::empty());
    } else {
        let init = log.drop_last();
        let last = log.last();
        assert(log =~= init.push(last));
        lemma_log_items_push(init, last, per);
        lemma_log_items_contains(init, per, x);
        let a = log_items(init, per);
        let b = per(last);
        assert(log_items(log, per) == a + b);
        if log_items(log, per).contains(x) {
            let k = choose|k: int| 0 <= k < (a + b).len() && (a + b)[k] == x;
            if k < a.len() {
                assert(a[k] == x);
                assert(a.contains(x));
                let (t, i) = choose|t: int, i: int| 0 <= t < init.len() && 0 <= i < per(init[t]).len() && #[trigger] per(init[t])[i] == x;
                assert(init[t] == log[t]);
                assert(per(log[t])[i] == x);
            } else {
                let i = k - a.len();
                assert(b[i] == x);
                assert(log[log.len() - 1] == last);
                assert(per(log[log.len() - 1])[i] == x);
            }
        }
        if exists|t: int, i: int| 0 <= t < log.len() && 0 <= i < per(log[t]).len() && #[trigger] per(log[t])[i] == x {
            let (t, i) = choose|t: int, i: int| 0 <= t < log.len() && 0 <= i < per(log[t]).len() && #[trigger] per(log[t])[i] == x;
            if t < init.len() {
                assert(init[t] == log[t]);
                assert(per(init[t])[i] == x);
                assert(a.contains(x));
                let k = choose|k: int| 0 <= k < a.len() && a[k] == x;
                assert((a + b)[k] == x);
            } else {
                assert(log[t] == last);
                assert((a + b)[a.len() + i] == x);
            }
            assert(log_items(log, per).contains(x));
        }
    }
}

/// The window of a state. Looking forward with a window of `w`, the state
/// after event `i` of a trace names that event and the `min(i, w)` events
/// before it, in order; while `i <= w` that is the whole trace up to `i`,
/// from its first activity. Looking backward, it names event `i` and the
/// `min(w, len - 1 - i)` events after it.
pub proof fn lemma_trace_state_windows(names: Seq<Seq<char>>, w: int, i: int)
    requires
        0 <= w,
        0 <= i < names.len(),
    ensures
        ({
            let before = if i < w { i } else { w };
            trace_states(names, w, true)[i] == joined(names.subrange(i - before, i + 1))
        }),
        i <= w ==> trace_states(names, w, true)[i] == joined(names.take(i + 1)),
        ({
            let after = if names.len() - 1 - i < w { names.len() - 1 - i } else { w };
            trace_states(names, w, false)[i] == joined(names.subrange(i, i + after + 1))
        }),
{
    if i <= w {
        assert(names.subrange(0, i + 1) =~= names.take(i + 1));
    }
}

/// The states of a discovered transition system are exactly the states
/// visited by the events of the log's traces: the state after some event of
/// some trace, and every such state.
pub proof fn lemma_log_states(log: Seq<TraceView>, w: int, forward: bool)
    ensures
        forall|s: Seq<char>| #[trigger] ts_states(log, w, forward).contains(s) <==> exists|t: int, i: int|
            0 <= t < log.len() && 0 <= i < trace_names(log[t]).len()
            && #[trigger] trace_states(trace_names(log[t]), w, forward)[i] == s,
{
    let per = |t: TraceView| trace_states(trace_names(t), w, forward);
    lemma_distinct_in_order(log_state_visits(log, w, forward));
    assert forall|s: Seq<char>| #[trigger] ts_states(log, w, forward).contains(s) <==> exists|t: int, i: int|
        0 <= t < log.len() && 0 <= i < trace_names(log[t]).len()
        && #[trigger] trace_states(trace_names(log[t]), w, forward)[i] == s by {
        lemma_log_items_contains(log, per, s);
        if exists|t: int, i: int| 0 <= t < log.len() && 0 <= i < per(log[t]).len() && #[trigger] per(log[t])[i] == s {
            let (t, i) = choose|t: int, i: int| 0 <= t < log.len() && 0 <= i < per(log[t]).len() && #[trigger] per(log[t])[i] == s;
            assert(trace_states(trace_names(log[t]), w, forward)[i] == s);
        }
        if exists|t: int, i: int| 0 <= t < log.len() && 0 <= i < trace_names(log[t]).len()
            && #[trigger] trace_states(trace_names(log[t]), w, forward)[i] == s {
            let (t, i) = choose|t: int, i: int| 0 <= t < log.len() && 0 <= i < trace_names(log[t]).len()
                && #[trigger] trace_states(trace_names(log[t]), w, forward)[i] == s;
            assert(per(log[t])[i] == s);
        }
    }
}

/// Each pair of consecutive events of a trace is a move of the log, from the
/// state after the first event to the state after the second, labelled with
/// the second event's activity.
pub proof fn lemma_log_moves_consecutive(log: Seq<TraceView>, w: int, forward: bool, t: int, i: int)
    requires
        0 <= t < log.len(),
        0 <= i < trace_names(log[t]).len() - 1,
    ensures
        log_moves(log, w, forward).contains((
            trace_states(trace_names(log[t]), w, forward)[i],
            trace_states(trace_names(log[t]), w, forward)[i + 1],
            trace_names(log[t])[i + 1],
        )),
{
    let per = |u: TraceView| trace_moves(trace_names(u), w, forward);
    let m = (
        trace_states(trace_names(log[t]), w, forward)[i],
        trace_states(trace_names(log[t]), w, forward)[i + 1],
        trace_names(log[t])[i + 1],
    );
    lemma_log_items_contains(log, per, m);
    assert(per(log[t])[i] == m);
}

/// A state's name lists its window's activities separated by ", ": a single
/// activity is named by itself, and one more activity adds ", " and its
/// name.
pub proof fn lemma_joined_names(parts: Seq<Seq<char>>, x: Seq<char>)
    ensures
        joined(seq![x]) == x,
        parts.len() > 0 ==> joined(parts.push(x)) == joined(parts) + ", "@ + x,
{
    reveal_strlit(", ");
    assert(parts.push(x).drop_last() =~= parts);
    assert(", "@ =~= seq![',', ' ']);
}

} // verus!
