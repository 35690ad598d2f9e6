//! Token-based replay of traces on a Petri net.
//!
//! Each trace is replayed on the net from its initial marking: every event
//! fires a transition labelled with its activity (an enabled one if there is
//! one, otherwise the first, after adding the tokens it lacks), and enabled
//! silent transitions fire after the start and after every event. The replay
//! counts produced, consumed, missing and remaining tokens.

use vstd::prelude::*;
use crate::event_log::{trace_names, Trace};
use crate::petri_net::{post_places, pre_places, Marking, NetView, PetriNet};
use crate::text::str_eq;

verus! {

/// The tokens on `p` in a list of (place, tokens) entries, as its last
/// entry gives them; none when it is not listed.
pub open spec fn tokens_at(m: Seq<(Seq<char>, int)>, p: Seq<char>) -> int
    decreases m.len(),
{
    if m.len() == 0 {
        0
    } else if m.last().0 == p {
        m.last().1
    } else {
        tokens_at(m.drop_last(), p)
    }
}

/// The index of the last entry of `p`; -1 when it is not listed.
pub open spec fn last_index(m: Seq<(Seq<char>, int)>, p: Seq<char>) -> int
    decreases m.len(),
{
    if m.len() == 0 {
        -1
    } else if m.last().0 == p {
        m.len() - 1
    } else {
        last_index(m.drop_last(), p)
    }
}

/// The entries with the tokens of `p` set to `v`: its last entry changed in
/// place, or a new entry at the end.
pub open spec fn set_tokens(m: Seq<(Seq<char>, int)>, p: Seq<char>, v: int) -> Seq<(Seq<char>, int)> {
    let i = last_index(m, p);
    if 0 <= i { m.update(i, (p, v)) } else { m.push((p, v)) }
}

/// The tokens of all entries.
pub open spec fn total(m: Seq<(Seq<char>, int)>) -> int
    decreases m.len(),
{
    if m.len() == 0 {
        0
    } else {
        total(m.drop_last()) + m.last().1
    }
}

/// Entries with their token counts as integers.
pub open spec fn counts(m: Seq<(Seq<char>, u32)>) -> Seq<(Seq<char>, int)> {
    m.map_values(|e: (Seq<char>, u32)| (e.0, e.1 as int))
}

/// The state of a replay: the marking, the token counters, the visible
/// transitions fired so far, and whether no place ever had to give a token
/// it did not hold.
pub struct ReplayState {
    pub marking: Seq<(Seq<char>, int)>,
    pub produced: int,
    pub consumed: int,
    pub missing: int,
    pub activated: Seq<Seq<char>>,
    pub ok: bool,
}

/// One token taken from `p`.
pub open spec fn take_one(s: ReplayState, p: Seq<char>) -> ReplayState {
    let c = tokens_at(s.marking, p);
    ReplayState { marking: set_tokens(s.marking, p, c - 1), consumed: s.consumed + 1, ok: s.ok && c >= 1, ..s }
}

/// One token put on `p`.
pub open spec fn put_one(s: ReplayState, p: Seq<char>) -> ReplayState {
    ReplayState { marking: set_tokens(s.marking, p, tokens_at(s.marking, p) + 1), produced: s.produced + 1, ..s }
}

/// A missing token added to `p` when it holds none.
pub open spec fn inject_one(s: ReplayState, p: Seq<char>) -> ReplayState {
    if tokens_at(s.marking, p) == 0 {
        ReplayState {
            marking: set_tokens(s.marking, p, 1),
            produced: s.produced + 1,
            missing: s.missing + 1,
            ..s
        }
    } else {
        s
    }
}

pub open spec fn take_step() -> spec_fn(ReplayState, Seq<char>) -> ReplayState {
    |s: ReplayState, p: Seq<char>| take_one(s, p)
}

pub open spec fn put_step() -> spec_fn(ReplayState, Seq<char>) -> ReplayState {
    |s: ReplayState, p: Seq<char>| put_one(s, p)
}

pub open spec fn inject_step() -> spec_fn(ReplayState, Seq<char>) -> ReplayState {
    |s: ReplayState, p: Seq<char>| inject_one(s, p)
}

/// `f` applied for each name of `ps`, in order.
pub open spec fn fold_names(
    s: ReplayState,
    ps: Seq<Seq<char>>,
    f: spec_fn(ReplayState, Seq<char>) -> ReplayState,
) -> ReplayState
    decreases ps.len(),
{
    if ps.len() == 0 {
        s
    } else {
        f(fold_names(s, ps.drop_last(), f), ps.last())
    }
}

/// A firing: one token taken from each input place (once per arc), then one
/// put on each output place.
pub open spec fn fire(s: ReplayState, pre: Seq<Seq<char>>, post: Seq<Seq<char>>) -> ReplayState {
    fold_names(fold_names(s, pre, take_step()), post, put_step())
}

/// Every input place holds a token.
pub open spec fn enabled(m: Seq<(Seq<char>, int)>, pre: Seq<Seq<char>>) -> bool {
    forall|i: int| 0 <= i < pre.len() ==> tokens_at(m, #[trigger] pre[i]) > 0
}

/// The input places of the `j`-th transition.
pub open spec fn pre_of(n: NetView, j: int) -> Seq<Seq<char>> {
    pre_places(n, n.transitions[j].0)
}

/// The output places of the `j`-th transition.
pub open spec fn post_of(n: NetView, j: int) -> Seq<Seq<char>> {
    post_places(n, n.transitions[j].0)
}

/// The `j`-th transition is silent, has input places and is enabled.
pub open spec fn silent_ready(n: NetView, m: Seq<(Seq<char>, int)>, j: int) -> bool {
    &&& n.transitions[j].1 is None
    &&& pre_of(n, j).len() > 0
    &&& enabled(m, pre_of(n, j))
}

/// The first transition from the `j`-th on that is silent and ready.
pub open spec fn first_silent(n: NetView, m: Seq<(Seq<char>, int)>, j: int) -> Option<int>
    decreases n.transitions.len() - j,
{
    if j < 0 || j >= n.transitions.len() {
        None
    } else if silent_ready(n, m, j) {
        Some(j)
    } else {
        first_silent(n, m, j + 1)
    }
}

/// The firing of the `j`-th transition.
pub open spec fn fire_at(n: NetView, s: ReplayState, j: int) -> ReplayState {
    fire(s, pre_of(n, j), post_of(n, j))
}

/// Enabled silent transitions fired, the first ready one each time, at most
/// `budget` times.
pub open spec fn fire_silent(n: NetView, s: ReplayState, budget: nat) -> ReplayState
    decreases budget,
{
    if budget == 0 {
        s
    } else {
        match first_silent(n, s.marking, 0) {
            None => s,
            Some(j) => fire_silent(n, fire_at(n, s, j), (budget - 1) as nat),
        }
    }
}

/// How many silent firings one round allows.
pub open spec fn silent_budget(n: NetView) -> nat {
    n.transitions.len() * 4 + 16
}

/// The first transition from the `j`-th on labelled `a` (and enabled, when
/// `only_enabled`).
pub open spec fn first_labelled(n: NetView, m: Seq<(Seq<char>, int)>, a: Seq<char>, only_enabled: bool, j: int) -> Option<int>
    decreases n.transitions.len() - j,
{
    if j < 0 || j >= n.transitions.len() {
        None
    } else if n.transitions[j].1 == Some(a) && (!only_enabled || enabled(m, pre_of(n, j))) {
        Some(j)
    } else {
        first_labelled(n, m, a, only_enabled, j + 1)
    }
}

/// The transition an event of activity `a` fires: the first enabled one
/// labelled `a`, else the first labelled `a`.
pub open spec fn chosen(n: NetView, m: Seq<(Seq<char>, int)>, a: Seq<char>) -> Option<int> {
    match first_labelled(n, m, a, true, 0) {
        Some(j) => Some(j),
        None => first_labelled(n, m, a, false, 0),
    }
}

/// The replay of one event of activity `a`: nothing when no transition is
/// labelled `a`; otherwise the chosen transition gets its missing tokens,
/// fires and is recorded, and enabled silent transitions fire.
pub open spec fn event_step(n: NetView, s: ReplayState, a: Seq<char>) -> ReplayState {
    match chosen(n, s.marking, a) {
        None => s,
        Some(j) => {
            let fired = fire_at(n, fold_names(s, pre_of(n, j), inject_step()), j);
            fire_silent(n, ReplayState { activated: fired.activated.push(n.transitions[j].0), ..fired }, silent_budget(n))
        },
    }
}

pub open spec fn event_steps(n: NetView) -> spec_fn(ReplayState, Seq<char>) -> ReplayState {
    |s: ReplayState, a: Seq<char>| event_step(n, s, a)
}

/// The start of a replay: the initial marking, all of it produced, with
/// the enabled silent transitions fired.
pub open spec fn replay_start(n: NetView, initial: Seq<(Seq<char>, int)>) -> ReplayState {
    fire_silent(
        n,
        ReplayState { marking: initial, produced: total(initial), consumed: 0, missing: 0, activated: seq![], ok: true },
        silent_budget(n),
    )
}

/// The replay of a sequence of activities.
pub open spec fn replay(n: NetView, initial: Seq<(Seq<char>, int)>, acts: Seq<Seq<char>>) -> ReplayState {
    fold_names(replay_start(n, initial), acts, event_steps(n))
}

/// The tokens left on places with tokens that the final marking leaves
/// empty.
pub open spec fn remaining_tokens(m: Seq<(Seq<char>, int)>, fin: Seq<(Seq<char>, int)>) -> int
    decreases m.len(),
{
    if m.len() == 0 {
        0
    } else {
        remaining_tokens(m.drop_last(), fin) + if m.last().1 > 0 && tokens_at(fin, m.last().0) == 0 {
            m.last().1
        } else {
            0
        }
    }
}

/// `t` has gone at least as far as `s`: no counter is smaller, and `t` can
/// only be sound if `s` is.
pub open spec fn leq(s: ReplayState, t: ReplayState) -> bool {
    &&& s.produced <= t.produced
    &&& s.consumed <= t.consumed
    &&& s.missing <= t.missing
    &&& t.ok ==> s.ok
}

/// Every token on the marking is one produced and not consumed, and every
/// missing token is a produced one.
pub open spec fn balanced(s: ReplayState) -> bool {
    &&& total(s.marking) + s.consumed == s.produced
    &&& 0 <= s.missing <= s.produced
}

proof fn lemma_last_index(m: Seq<(Seq<char>, int)>, p: Seq<char>)
    ensures
        -1 <= last_index(m, p) < m.len(),
        0 <= last_index(m, p) ==> m[last_index(m, p)].0 == p && tokens_at(m, p) == m[last_index(m, p)].1,
        last_index(m, p) < 0 ==> tokens_at(m, p) == 0,
        forall|j: int| last_index(m, p) < j < m.len() ==> #[trigger] m[j].0 != p,
    decreases m.len(),
{
    if m.len() > 0 && m.last().0 != p {
        lemma_last_index(m.drop_last(), p);
        assert forall|j: int| last_index(m, p) < j < m.len() implies #[trigger] m[j].0 != p by {
            if j < m.len() - 1 {
                assert(m[j] == m.drop_last()[j]);
            }
        }
    }
}

proof fn lemma_set_tokens(m: Seq<(Seq<char>, int)>, p: Seq<char>, v: int, q: Seq<char>)
    ensures
        tokens_at(set_tokens(m, p, v), q) == if q == p { v } else { tokens_at(m, q) },
        total(set_tokens(m, p, v)) == total(m) - tokens_at(m, p) + v,
    decreases m.len(),
{
    let r = set_tokens(m, p, v);
    lemma_last_index(m, p);
    if m.len() == 0 {
        let e = Seq::<(Seq<char>, int)>::empty();
        assert(tokens_at(e, q) == 0 && total(e) == 0);
        assert(r.drop_last() =~= e);
        assert(r.last() == (p, v));
    } else if m.last().0 == p {
        assert(r.drop_last() =~= m.drop_last());
        assert(r.last() == (p, v));
    } else if last_index(m, p) < 0 {
        assert(r.drop_last() =~= m);
        assert(r.last() == (p, v));
    } else {
        lemma_set_tokens(m.drop_last(), p, v, q);
        let r0 = set_tokens(m.drop_last(), p, v);
        assert(r.drop_last() =~= r0);
        assert(r.last() == m.last());
        assert(total(r) == total(r0) + m.last().1);
    }
}

proof fn lemma_steps_balanced(s: ReplayState, p: Seq<char>)
    ensures
        balanced(s) ==> balanced(take_one(s, p)),
        balanced(s) ==> balanced(put_one(s, p)),
        balanced(s) ==> balanced(inject_one(s, p)),
        leq(s, take_one(s, p)),
        leq(s, put_one(s, p)),
        leq(s, inject_one(s, p)),
{
    lemma_set_tokens(s.marking, p, tokens_at(s.marking, p) - 1, p);
    lemma_set_tokens(s.marking, p, tokens_at(s.marking, p) + 1, p);
    lemma_set_tokens(s.marking, p, 1, p);
}

/// A step function that keeps the balance and never goes back.
pub open spec fn good_step(f: spec_fn(ReplayState, Seq<char>) -> ReplayState) -> bool {
    forall|s: ReplayState, p: Seq<char>| #![trigger f(s, p)] leq(s, f(s, p)) && (balanced(s) ==> balanced(f(s, p)))
}

proof fn lemma_basic_steps_good()
    ensures
        good_step(take_step()),
        good_step(put_step()),
        good_step(inject_step()),
{
    assert forall|s: ReplayState, p: Seq<char>| #![trigger take_step()(s, p)]
        leq(s, take_step()(s, p)) && (balanced(s) ==> balanced(take_step()(s, p))) by {
        lemma_steps_balanced(s, p);
    }
    assert forall|s: ReplayState, p: Seq<char>| #![trigger put_step()(s, p)]
        leq(s, put_step()(s, p)) && (balanced(s) ==> balanced(put_step()(s, p))) by {
        lemma_steps_balanced(s, p);
    }
    assert forall|s: ReplayState, p: Seq<char>| #![trigger inject_step()(s, p)]
        leq(s, inject_step()(s, p)) && (balanced(s) ==> balanced(inject_step()(s, p))) by {
        lemma_steps_balanced(s, p);
    }
}

pub(crate) proof fn lemma_fold_good(s: ReplayState, ps: Seq<Seq<char>>, f: spec_fn(ReplayState, Seq<char>) -> ReplayState, k: int)
    requires
        good_step(f),
        0 <= k <= ps.len(),
    ensures
        leq(fold_names(s, ps.take(k), f), fold_names(s, ps, f)),
        leq(s, fold_names(s, ps, f)),
        balanced(s) ==> balanced(fold_names(s, ps, f)),
    decreases ps.len(),
{
    if ps.len() > 0 {
        let f0 = fold_names(s, ps.drop_last(), f);
        assert(leq(f0, f(f0, ps.last())));
        if k == ps.len() {
            assert(ps.take(k) =~= ps);
            lemma_fold_good(s, ps.drop_last(), f, 0);
        } else {
            assert(ps.take(k) =~= ps.drop_last().take(k));
            lemma_fold_good(s, ps.drop_last(), f, k);
        }
    } else {
        assert(ps.take(k) =~= ps);
    }
}

proof fn lemma_fire_good(s: ReplayState, pre: Seq<Seq<char>>, post: Seq<Seq<char>>)
    ensures
        leq(s, fire(s, pre, post)),
        leq(fold_names(s, pre, take_step()), fire(s, pre, post)),
        balanced(s) ==> balanced(fire(s, pre, post)),
{
    lemma_basic_steps_good();
    lemma_fold_good(s, pre, take_step(), 0);
    lemma_fold_good(fold_names(s, pre, take_step()), post, put_step(), 0);
}

pub(crate) proof fn lemma_fire_silent_good(n: NetView, s: ReplayState, budget: nat)
    ensures
        leq(s, fire_silent(n, s, budget)),
        balanced(s) ==> balanced(fire_silent(n, s, budget)),
    decreases budget,
{
    if budget > 0 {
        match first_silent(n, s.marking, 0) {
            None => {},
            Some(j) => {
                lemma_fire_good(s, pre_of(n, j), post_of(n, j));
                lemma_fire_silent_good(n, fire_at(n, s, j), (budget - 1) as nat);
            },
        }
    }
}

proof fn lemma_event_step_good(n: NetView, s: ReplayState, a: Seq<char>)
    ensures
        leq(s, event_step(n, s, a)),
        balanced(s) ==> balanced(event_step(n, s, a)),
{
    match chosen(n, s.marking, a) {
        None => {},
        Some(j) => {
            lemma_basic_steps_good();
            let injected = fold_names(s, pre_of(n, j), inject_step());
            lemma_fold_good(s, pre_of(n, j), inject_step(), 0);
            lemma_fire_good(injected, pre_of(n, j), post_of(n, j));
            let fired = fire_at(n, injected, j);
            lemma_fire_silent_good(n, ReplayState { activated: fired.activated.push(n.transitions[j].0), ..fired }, silent_budget(n));
        },
    }
}

pub(crate) proof fn lemma_event_steps_good(n: NetView)
    ensures
        good_step(event_steps(n)),
{
    assert forall|s: ReplayState, a: Seq<char>| #![trigger event_steps(n)(s, a)]
        leq(s, event_steps(n)(s, a)) && (balanced(s) ==> balanced(event_steps(n)(s, a))) by {
        lemma_event_step_good(n, s, a);
    }
}


/// The replay ends without a place giving a token it lacks, and its token
/// counters, the final marking's tokens included, fit in 32 bits.
pub open spec fn replay_fits(
    n: NetView,
    initial: Seq<(Seq<char>, int)>,
    fin: Seq<(Seq<char>, int)>,
    acts: Seq<Seq<char>>,
) -> bool {
    let r = replay(n, initial, acts);
    &&& r.ok
    &&& r.produced <= u32::MAX
    &&& r.consumed + total(fin) <= u32::MAX
}

/// The entries with tokens.
pub open spec fn with_tokens(m: Seq<(Seq<char>, int)>) -> Seq<(Seq<char>, int)> {
    m.filter(|e: (Seq<char>, int)| e.1 > 0)
}

/// Per-trace replay statistics.
#[derive(Debug)]
pub struct TraceReplayResult {
    pub case_id: String,
    /// `true` when `missing_tokens == 0 && remaining_tokens == 0`.
    pub trace_is_fit: bool,
    pub produced_tokens: u32,
    pub consumed_tokens: u32,
    pub missing_tokens: u32,
    pub remaining_tokens: u32,
    /// Transition names fired for events, in order.
    pub activated_transitions: Vec<String>,
    /// The marking after replay, places with tokens only.
    pub reached_marking: Vec<(String, u32)>,
}

impl TraceReplayResult {
    /// No token was missing and none remained.
    pub fn is_perfect(&self) -> (res: bool)
        ensures
            res == (self.missing_tokens == 0 && self.remaining_tokens == 0),
    {
        self.missing_tokens == 0 && self.remaining_tokens == 0
    }
}

/// Token counters fit in 32 bits and no place went below zero.
pub(crate) open spec fn bounded(t: ReplayState) -> bool {
    &&& t.ok
    &&& t.produced <= u32::MAX
    &&& t.consumed <= u32::MAX
}

pub(crate) proof fn lemma_counts_nonneg(m: Seq<(Seq<char>, u32)>, p: Seq<char>, k: int)
    requires
        0 <= k <= m.len(),
    ensures
        0 <= tokens_at(counts(m), p) <= total(counts(m)),
        0 <= total(counts(m.take(k))) <= total(counts(m)),
    decreases m.len(),
{
    let c = counts(m);
    if m.len() > 0 {
        assert(counts(m.drop_last()) =~= c.drop_last());
        if k == m.len() {
            assert(m.take(k) =~= m);
            lemma_counts_nonneg(m.drop_last(), p, 0);
        } else {
            assert(m.take(k) =~= m.drop_last().take(k));
            lemma_counts_nonneg(m.drop_last(), p, k);
        }
        assert(c.last().1 >= 0);
    } else {
        assert(m.take(k) =~= m);
    }
}

proof fn lemma_remaining_bound(m: Seq<(Seq<char>, u32)>, fin: Seq<(Seq<char>, int)>)
    ensures
        0 <= remaining_tokens(counts(m), fin) <= total(counts(m)),
    decreases m.len(),
{
    if m.len() > 0 {
        assert(counts(m.drop_last()) =~= counts(m).drop_last());
        lemma_remaining_bound(m.drop_last(), fin);
    }
}

/// The index of the last entry of `p`, if any.
fn find_entry(m: &Vec<(String, u32)>, p: &str) -> (res: Option<usize>)
    ensures
        match res {
            Some(i) => i < m.len() && m@[i as int].0@ == p@ && forall|j: int| i < j < m.len() ==> #[trigger] m@[j].0@ != p@,
            None => forall|j: int| 0 <= j < m.len() ==> #[trigger] m@[j].0@ != p@,
        },
{
    let mut i = m.len();
    while i > 0
        invariant
            i <= m.len(),
            forall|j: int| i <= j < m.len() ==> #[trigger] m@[j].0@ != p@,
        decreases i,
    {
        if str_eq(m[i - 1].0.as_str(), p) {
            return Some(i - 1);
        }
        i = i - 1;
    }
    None
}

proof fn lemma_last_entry(m: Seq<(Seq<char>, int)>, p: Seq<char>, i: int, v: int)
    requires
        0 <= i < m.len(),
        m[i].0 == p,
        forall|j: int| i < j < m.len() ==> #[trigger] m[j].0 != p,
    ensures
        tokens_at(m, p) == m[i].1,
        set_tokens(m, p, v) == m.update(i, (p, v)),
{
    lemma_last_index(m, p);
    let k = last_index(m, p);
    if k != i {
        if k < i {
            assert(m[i].0 != p);
        } else {
            assert(m[k].0 != p);
        }
    }
}

proof fn lemma_no_entry(m: Seq<(Seq<char>, int)>, p: Seq<char>, v: int)
    requires
        forall|j: int| 0 <= j < m.len() ==> #[trigger] m[j].0 != p,
    ensures
        tokens_at(m, p) == 0,
        set_tokens(m, p, v) == m.push((p, v)),
{
    lemma_last_index(m, p);
    if last_index(m, p) >= 0 {
        assert(m[last_index(m, p)].0 != p);
    }
}

/// The tokens on `p`.
fn count_of(m: &Vec<(String, u32)>, p: &str) -> (res: u32)
    ensures
        res == tokens_at(counts(m.deep_view()), p@),
{
    let ghost c = counts(m.deep_view());
    match find_entry(m, p) {
        Some(i) => {
            proof {
                assert forall|j: int| i < j < c.len() implies #[trigger] c[j].0 != p@ by {
                    assert(c[j].0 == m@[j].0@);
                }
                lemma_last_entry(c, p@, i as int, 0);
            }
            m[i].1
        },
        None => {
            proof {
                assert forall|j: int| 0 <= j < c.len() implies #[trigger] c[j].0 != p@ by {
                    assert(c[j].0 == m@[j].0@);
                }
                lemma_no_entry(c, p@, 0);
            }
            0
        },
    }
}

/// Sets the tokens on `p` to `v`.
fn set_count(m: &mut Vec<(String, u32)>, p: &str, v: u32)
    ensures
        counts(final(m).deep_view()) == set_tokens(counts(old(m).deep_view()), p@, v as int),
{
    let ghost c = counts(m.deep_view());
    match find_entry(m, p) {
        Some(i) => {
            proof {
                assert forall|j: int| i < j < c.len() implies #[trigger] c[j].0 != p@ by {
                    assert(c[j].0 == m@[j].0@);
                }
                lemma_last_entry(c, p@, i as int, v as int);
            }
            m.set(i, (p.to_owned(), v));
            proof {
                assert(counts(m.deep_view()) =~= c.update(i as int, (p@, v as int)));
            }
        },
        None => {
            proof {
                assert forall|j: int| 0 <= j < c.len() implies #[trigger] c[j].0 != p@ by {
                    assert(c[j].0 == m@[j].0@);
                }
                lemma_no_entry(c, p@, v as int);
            }
            m.push((p.to_owned(), v));
            proof {
                assert(counts(m.deep_view()) =~= c.push((p@, v as int)));
            }
        },
    }
}

/// Every input place holds a token.
pub(crate) fn has_tokens(m: &Vec<(String, u32)>, pre: &Vec<String>) -> (res: bool)
    ensures
        res == enabled(counts(m.deep_view()), pre.deep_view()),
{
    let ghost pv = pre.deep_view();
    for i in 0..pre.len()
        invariant
            pv == pre.deep_view(),
            forall|k: int| 0 <= k < i ==> tokens_at(counts(m.deep_view()), #[trigger] pv[k]) > 0,
    {
        if count_of(m, pre[i].as_str()) == 0 {
            proof {
                assert(pv[i as int] == pre@[i as int]@);
            }
            return false;
        }
    }
    true
}

/// The first transition from the `from`-th on that is silent and ready
/// (`silent`), or labelled `a` (and enabled, when `only_enabled`).
pub(crate) fn first_match(net: &PetriNet, m: &Vec<(String, u32)>, silent: bool, a: &str, only_enabled: bool) -> (res: Option<usize>)
    ensures
        (match res {
            Some(j) => Some(j as int),
            None => None,
        }) == if silent {
            first_silent(net@, counts(m.deep_view()), 0)
        } else {
            first_labelled(net@, counts(m.deep_view()), a@, only_enabled, 0)
        },
        res matches Some(j) ==> j < net.transitions.len(),
{
    let ghost n = net@;
    let ghost c = counts(m.deep_view());
    let ghost target = if silent { first_silent(n, c, 0) } else { first_labelled(n, c, a@, only_enabled, 0) };
    for j in 0..net.transitions.len()
        invariant
            n == net@,
            c == counts(m.deep_view()),
            target == if silent { first_silent(n, c, 0) } else { first_labelled(n, c, a@, only_enabled, 0) },
            target == if silent { first_silent(n, c, j as int) } else { first_labelled(n, c, a@, only_enabled, j as int) },
    {
        let t = &net.transitions[j];
        proof {
            assert(n.transitions[j as int] == t.deep_view());
        }
        let hit = if silent {
            match &t.label {
                Some(_) => false,
                None => {
                    let pre = net.neighbours(t.name.as_str(), true, true);
                    pre.len() > 0 && has_tokens(m, &pre)
                },
            }
        } else {
            let labelled = match &t.label {
                Some(l) => str_eq(l.as_str(), a),
                None => false,
            };
            if labelled && only_enabled {
                let pre = net.neighbours(t.name.as_str(), true, true);
                has_tokens(m, &pre)
            } else {
                labelled
            }
        };
        if hit {
            return Some(j);
        }
    }
    None
}

/// A replay in progress.
pub(crate) struct Replay {
    pub(crate) marking: Vec<(String, u32)>,
    pub(crate) produced: u32,
    pub(crate) consumed: u32,
    pub(crate) missing: u32,
    pub(crate) activated: Vec<String>,
}

impl Replay {
    pub(crate) open spec fn state(&self) -> ReplayState {
        ReplayState {
            marking: counts(self.marking.deep_view()),
            produced: self.produced as int,
            consumed: self.consumed as int,
            missing: self.missing as int,
            activated: self.activated.deep_view(),
            ok: true,
        }
    }

    /// One token taken from (`kind` 0), put on (1) or injected into (2) `p`.
    fn step(&mut self, kind: u8, p: &str, Ghost(fin): Ghost<ReplayState>)
        requires
            kind <= 2,
            balanced(old(self).state()),
            leq(step_of(kind)(old(self).state(), p@), fin),
            bounded(fin),
        ensures
            final(self).state() == step_of(kind)(old(self).state(), p@),
            balanced(final(self).state()),
    {
        let ghost s = self.state();
        proof {
            lemma_steps_balanced(s, p@);
            lemma_counts_nonneg(self.marking.deep_view(), p@, 0);
        }
        let c = count_of(&self.marking, p);
        if kind == 0 {
            set_count(&mut self.marking, p, c - 1);
            self.consumed = self.consumed + 1;
        } else if kind == 1 {
            set_count(&mut self.marking, p, c + 1);
            self.produced = self.produced + 1;
        } else if c == 0 {
            set_count(&mut self.marking, p, 1);
            self.produced = self.produced + 1;
            self.missing = self.missing + 1;
        }
    }

    /// `step` for each name of `ps`, in order.
    fn steps(&mut self, kind: u8, ps: &Vec<String>, Ghost(fin): Ghost<ReplayState>)
        requires
            kind <= 2,
            balanced(old(self).state()),
            leq(fold_names(old(self).state(), ps.deep_view(), step_of(kind)), fin),
            bounded(fin),
        ensures
            final(self).state() == fold_names(old(self).state(), ps.deep_view(), step_of(kind)),
            balanced(final(self).state()),
    {
        let ghost s0 = self.state();
        let ghost pv = ps.deep_view();
        proof {
            lemma_basic_steps_good();
            assert(pv.take(0) =~= Seq::<Seq<char>>::empty());
        }
        for i in 0..ps.len()
            invariant
                kind <= 2,
                pv == ps.deep_view(),
                self.state() == fold_names(s0, pv.take(i as int), step_of(kind)),
                balanced(self.state()),
                leq(fold_names(s0, pv, step_of(kind)), fin),
                bounded(fin),
                good_step(step_of(kind)),
        {
            proof {
                lemma_fold_good(s0, pv, step_of(kind), i + 1);
                assert(pv.take(i + 1).drop_last() =~= pv.take(i as int));
                assert(pv[i as int] == ps@[i as int]@);
            }
            self.step(kind, ps[i].as_str(), Ghost(fin));
        }
        proof {
            assert(pv.take(pv.len() as int) =~= pv);
        }
    }

    /// The firing of a transition with input places `pre` and output places
    /// `post`.
    fn fire(&mut self, pre: &Vec<String>, post: &Vec<String>, Ghost(fin): Ghost<ReplayState>)
        requires
            balanced(old(self).state()),
            leq(fire(old(self).state(), pre.deep_view(), post.deep_view()), fin),
            bounded(fin),
        ensures
            final(self).state() == fire(old(self).state(), pre.deep_view(), post.deep_view()),
            balanced(final(self).state()),
    {
        proof {
            lemma_fire_good(self.state(), pre.deep_view(), post.deep_view());
        }
        self.steps(0, pre, Ghost(fin));
        self.steps(1, post, Ghost(fin));
    }

    /// Enabled silent transitions fired, as `fire_silent` states it.
    pub(crate) fn fire_silent(&mut self, net: &PetriNet, Ghost(fin): Ghost<ReplayState>)
        requires
            balanced(old(self).state()),
            leq(fire_silent(net@, old(self).state(), silent_budget(net@)), fin),
            bounded(fin),
            net.transitions.len() * 4 + 16 <= usize::MAX,
        ensures
            final(self).state() == fire_silent(net@, old(self).state(), silent_budget(net@)),
            balanced(final(self).state()),
    {
        let ghost n = net@;
        let ghost target = fire_silent(n, self.state(), silent_budget(n));
        let mut budget: usize = net.transitions.len() * 4 + 16;
        loop
            invariant
                n == net@,
                balanced(self.state()),
                fire_silent(n, self.state(), budget as nat) == target,
                leq(target, fin),
                bounded(fin),
            ensures
                self.state() == target,
                balanced(self.state()),
            decreases budget,
        {
            if budget == 0 {
                break;
            }
            match first_match(net, &self.marking, true, "", false) {
                None => {
                    break;
                },
                Some(j) => {
                    let name = net.transitions[j].name.as_str();
                    let pre = net.neighbours(name, true, true);
                    let post = net.neighbours(name, false, true);
                    proof {
                        assert(n.transitions[j as int].0 == name@);
                        lemma_fire_silent_good(n, fire_at(n, self.state(), j as int), (budget - 1) as nat);
                    }
                    self.fire(&pre, &post, Ghost(fin));
                    budget = budget - 1;
                },
            }
        }
    }

    /// The replay of one event of activity `a`, as `event_step` states it.
    pub(crate) fn event(&mut self, net: &PetriNet, a: &str, Ghost(fin): Ghost<ReplayState>)
        requires
            balanced(old(self).state()),
            leq(event_step(net@, old(self).state(), a@), fin),
            bounded(fin),
            net.transitions.len() * 4 + 16 <= usize::MAX,
        ensures
            final(self).state() == event_step(net@, old(self).state(), a@),
            balanced(final(self).state()),
    {
        let ghost n = net@;
        let ghost s = self.state();
        let choice = match first_match(net, &self.marking, false, a, true) {
            Some(j) => Some(j),
            None => first_match(net, &self.marking, false, a, false),
        };
        match choice {
            None => {},
            Some(j) => {
                let name = net.transitions[j].name.clone();
                let pre = net.neighbours(name.as_str(), true, true);
                let post = net.neighbours(name.as_str(), false, true);
                let ghost injected = fold_names(s, pre.deep_view(), inject_step());
                let ghost fired = fire_at(n, injected, j as int);
                let ghost recorded = ReplayState { activated: fired.activated.push(n.transitions[j as int].0), ..fired };
                proof {
                    assert(n.transitions[j as int].0 == name@);
                    lemma_fire_good(injected, pre.deep_view(), post.deep_view());
                    lemma_fire_silent_good(n, recorded, silent_budget(n));
                }
                self.steps(2, &pre, Ghost(fin));
                self.fire(&pre, &post, Ghost(fin));
                self.activated.push(name);
                proof {
                    assert(self.state().activated =~= recorded.activated);
                }
                self.fire_silent(net, Ghost(fin));
            },
        }
    }
}

/// The step of a kind: 0 takes, 1 puts, 2 injects.
spec fn step_of(kind: u8) -> spec_fn(ReplayState, Seq<char>) -> ReplayState {
    if kind == 0 {
        take_step()
    } else if kind == 1 {
        put_step()
    } else {
        inject_step()
    }
}

/// A replay started: the initial marking, all of it produced, with the
/// enabled silent transitions fired.
pub(crate) fn start_replay(net: &PetriNet, initial_marking: &Marking, Ghost(fin): Ghost<ReplayState>) -> (res: Replay)
    requires
        leq(replay_start(net@, counts(initial_marking.tokens.deep_view())), fin),
        bounded(fin),
        net.transitions.len() * 4 + 16 <= usize::MAX,
    ensures
        res.state() == replay_start(net@, counts(initial_marking.tokens.deep_view())),
        balanced(res.state()),
{
    let ghost n = net@;
    let ghost init = counts(initial_marking.tokens.deep_view());
    let ghost iv = initial_marking.tokens.deep_view();
    let ghost s_init = ReplayState { marking: init, produced: total(init), consumed: 0, missing: 0, activated: seq![], ok: true };
    proof {
        lemma_fire_silent_good(n, s_init, silent_budget(n));
    }
    let mut marking: Vec<(String, u32)> = Vec::new();
    let mut produced: u32 = 0;
    for i in 0..initial_marking.tokens.len()
        invariant
            iv == initial_marking.tokens.deep_view(),
            marking.deep_view() == iv.take(i as int),
            produced == total(counts(iv.take(i as int))),
            total(counts(iv)) <= u32::MAX,
    {
        proof {
            lemma_counts_nonneg(iv, Seq::empty(), i + 1);
            assert(counts(iv.take(i + 1)).drop_last() =~= counts(iv.take(i as int)));
            assert(iv[i as int] == initial_marking.tokens@[i as int].deep_view());
        }
        let e = &initial_marking.tokens[i];
        produced = produced + e.1;
        marking.push((e.0.clone(), e.1));
        proof {
            assert(marking.deep_view() =~= iv.take(i + 1));
        }
    }
    proof {
        assert(iv.take(iv.len() as int) =~= iv);
    }
    let mut st = Replay { marking, produced, consumed: 0, missing: 0, activated: Vec::new() };
    proof {
        lemma_counts_nonneg(iv, Seq::empty(), 0);
        assert(st.state().activated =~= Seq::<Seq<char>>::empty());
        assert(st.state() == s_init);
    }
    st.fire_silent(net, Ghost(fin));
    st
}

/// Replay one trace against the Petri net, as `replay` states it, on the
/// traces whose replay `replay_fits`.
pub fn replay_trace(net: &PetriNet, initial_marking: &Marking, final_marking: &Marking, trace: &Trace) -> (res: TraceReplayResult)
    requires
        replay_fits(
            net@,
            counts(initial_marking.tokens.deep_view()),
            counts(final_marking.tokens.deep_view()),
            trace_names(trace.deep_view()),
        ),
        net.transitions.len() * 4 + 16 <= usize::MAX,
    ensures
        ({
            let r = replay(net@, counts(initial_marking.tokens.deep_view()), trace_names(trace.deep_view()));
            let fin = counts(final_marking.tokens.deep_view());
            &&& res.case_id@ == trace.case_id@
            &&& res.produced_tokens == r.produced
            &&& res.consumed_tokens == r.consumed + total(fin)
            &&& res.missing_tokens == r.missing
            &&& res.remaining_tokens == remaining_tokens(r.marking, fin)
            &&& res.trace_is_fit == (res.missing_tokens == 0 && res.remaining_tokens == 0)
            &&& res.activated_transitions.deep_view() == r.activated
            &&& counts(res.reached_marking.deep_view()) == with_tokens(r.marking)
        }),
{
    let ghost n = net@;
    let ghost init = counts(initial_marking.tokens.deep_view());
    let ghost fin = counts(final_marking.tokens.deep_view());
    let ghost acts = trace_names(trace.deep_view());
    let ghost r = replay(n, init, acts);
    let ghost start = replay_start(n, init);
    proof {
        lemma_event_steps_good(n);
        lemma_fold_good(start, acts, event_steps(n), 0);
        lemma_counts_nonneg(final_marking.tokens.deep_view(), Seq::empty(), 0);
    }
    let mut st = start_replay(net, initial_marking, Ghost(r));
    let ghost tv = trace.deep_view();
    proof {
        assert(acts.take(0) =~= Seq::<Seq<char>>::empty());
    }
    for i in 0..trace.events.len()
        invariant
            n == net@,
            tv == trace.deep_view(),
            acts == trace_names(tv),
            r == fold_names(start, acts, event_steps(n)),
            bounded(r),
            good_step(event_steps(n)),
            st.state() == fold_names(start, acts.take(i as int), event_steps(n)),
            balanced(st.state()),
            net.transitions.len() * 4 + 16 <= usize::MAX,
    {
        proof {
            lemma_fold_good(start, acts, event_steps(n), i + 1);
            assert(acts.take(i + 1).drop_last() =~= acts.take(i as int));
            assert(acts[i as int] == trace.events@[i as int].name@);
        }
        st.event(net, trace.events[i].name.as_str(), Ghost(r));
    }
    proof {
        assert(acts.take(acts.len() as int) =~= acts);
        assert(st.state() == r);
    }
    // Tokens left on places that the final marking leaves empty.
    let ghost mv = st.marking.deep_view();
    let mut remaining: u32 = 0;
    let mut reached: Vec<(String, u32)> = Vec::new();
    let ghost pos = |e: (Seq<char>, int)| e.1 > 0;
    proof {
        lemma_counts_nonneg(mv, Seq::empty(), 0);
    }
    for i in 0..st.marking.len()
        invariant
            mv == st.marking.deep_view(),
            r.marking == counts(mv),
            pos == (|e: (Seq<char>, int)| e.1 > 0),
            fin == counts(final_marking.tokens.deep_view()),
            remaining == remaining_tokens(counts(mv.take(i as int)), fin),
            counts(reached.deep_view()) == counts(mv).take(i as int).filter(pos),
            total(counts(mv)) <= u32::MAX,
    {
        proof {
            assert(counts(mv.take(i + 1)).drop_last() =~= counts(mv.take(i as int)));
            assert(counts(mv).take(i as int) =~= counts(mv.take(i as int)));
            lemma_remaining_bound(mv.take(i + 1), fin);
            lemma_counts_nonneg(mv, Seq::empty(), i + 1);
            crate::event_log::lemma_filter_take_step(counts(mv), pos, i as int);
            assert(mv[i as int] == st.marking@[i as int].deep_view());
        }
        let e = &st.marking[i];
        if e.1 > 0 {
            if count_of(&final_marking.tokens, e.0.as_str()) == 0 {
                remaining = remaining + e.1;
            }
            let ghost before = reached.deep_view();
            reached.push((e.0.clone(), e.1));
            proof {
                assert(counts(reached.deep_view()) =~= counts(before).push((e.0@, e.1 as int)));
            }
        }
    }
    proof {
        assert(mv.take(mv.len() as int) =~= mv);
        assert(counts(mv).take(mv.len() as int) =~= counts(mv));
    }
    // The tokens of the final marking, consumed at the end.
    let ghost fv = final_marking.tokens.deep_view();
    let mut final_tokens: u32 = 0;
    for i in 0..final_marking.tokens.len()
        invariant
            fv == final_marking.tokens.deep_view(),
            fin == counts(fv),
            final_tokens == total(counts(fv.take(i as int))),
            total(fin) <= u32::MAX,
    {
        proof {
            lemma_counts_nonneg(fv, Seq::empty(), i + 1);
            assert(counts(fv.take(i + 1)).drop_last() =~= counts(fv.take(i as int)));
            assert(fv[i as int] == final_marking.tokens@[i as int].deep_view());
        }
        final_tokens = final_tokens + final_marking.tokens[i].1;
    }
    proof {
        assert(fv.take(fv.len() as int) =~= fv);
    }
    let missing = st.missing;
    TraceReplayResult {
        case_id: trace.case_id.clone(),
        trace_is_fit: missing == 0 && remaining == 0,
        produced_tokens: st.produced,
        consumed_tokens: st.consumed + final_tokens,
        missing_tokens: missing,
        remaining_tokens: remaining,
        activated_transitions: st.activated,
        reached_marking: reached,
    }
}

/// Every token left on the marking after a replay was produced and not
/// consumed, and every missing token counts as produced.
pub proof fn lemma_replay_conserves_tokens(n: NetView, initial: Seq<(Seq<char>, u32)>, acts: Seq<Seq<char>>)
    ensures
        total(replay(n, counts(initial), acts).marking) + replay(n, counts(initial), acts).consumed
            == replay(n, counts(initial), acts).produced,
        0 <= replay(n, counts(initial), acts).missing <= replay(n, counts(initial), acts).produced,
{
    let init = counts(initial);
    let s0 = ReplayState { marking: init, produced: total(init), consumed: 0, missing: 0, activated: seq![], ok: true };
    lemma_counts_nonneg(initial, Seq::empty(), 0);
    lemma_fire_silent_good(n, s0, silent_budget(n));
    lemma_event_steps_good(n);
    lemma_fold_good(replay_start(n, init), acts, event_steps(n), 0);
}

/// Replaying more events never lowers a token counter, and a replay that
/// stays sound was sound on every prefix.
pub proof fn lemma_replay_prefix(n: NetView, initial: Seq<(Seq<char>, int)>, acts: Seq<Seq<char>>, k: int)
    requires
        0 <= k <= acts.len(),
    ensures
        leq(replay(n, initial, acts.take(k)), replay(n, initial, acts)),
{
    lemma_event_steps_good(n);
    lemma_fold_good(replay_start(n, initial), acts, event_steps(n), k);
}

} // verus!
