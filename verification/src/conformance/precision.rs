//! ETConformance precision: escaping edges counted while traces are
//! replayed. After each event's transition fires (and enabled silent
//! transitions with it), every enabled transition with input places that
//! the event's activity does not label is an escaping edge, counted with
//! its input places. The score derived from these counts,
//! `1 - escaping / (escaping + consumed)`, is computed by the caller.

use vstd::prelude::*;
use crate::conformance::token_replay::{
    balanced, bounded, chosen, counts, enabled, event_step, event_steps, first_match, fold_names, has_tokens,
    lemma_event_steps_good, lemma_fold_good, lemma_counts_nonneg, pre_of, replay, replay_fits, replay_start,
    start_replay, total, ReplayState,
};
use crate::event_log::{trace_names, Trace};
use crate::petri_net::{Marking, NetView, PetriNet};
use crate::text::str_eq;

verus! {

/// The escaping tokens among the first `k` transitions at marking `m`
/// after an event of activity `a`: the input places of each enabled
/// transition with input places that `a` does not label.
pub open spec fn escaping_at(n: NetView, m: Seq<(Seq<char>, int)>, a: Seq<char>, k: int) -> int
    decreases k,
{
    if k <= 0 {
        0
    } else {
        escaping_at(n, m, a, k - 1) + if pre_of(n, k - 1).len() > 0 && enabled(m, pre_of(n, k - 1))
            && n.transitions[k - 1].1 != Some(a) {
            pre_of(n, k - 1).len() as int
        } else {
            0
        }
    }
}

/// The replay with the escaping tokens and the tokens consumed by the
/// events' transitions so far.
pub struct PrecisionState {
    pub replay: ReplayState,
    pub escaping: int,
    pub consumed: int,
}

/// One more event of activity `a`: nothing when no transition is labelled
/// `a`; otherwise the event is replayed, the chosen transition's input
/// places are consumed and the escaping tokens after it are added.
pub open spec fn precision_step(n: NetView, s: PrecisionState, a: Seq<char>) -> PrecisionState {
    match chosen(n, s.replay.marking, a) {
        None => s,
        Some(j) => {
            let r = event_step(n, s.replay, a);
            PrecisionState {
                replay: r,
                escaping: s.escaping + escaping_at(n, r.marking, a, n.transitions.len() as int),
                consumed: s.consumed + pre_of(n, j).len(),
            }
        },
    }
}

/// The precision counts of a sequence of activities.
pub open spec fn precision_run(n: NetView, initial: Seq<(Seq<char>, int)>, acts: Seq<Seq<char>>) -> PrecisionState
    decreases acts.len(),
{
    if acts.len() == 0 {
        PrecisionState { replay: replay_start(n, initial), escaping: 0, consumed: 0 }
    } else {
        precision_step(n, precision_run(n, initial, acts.drop_last()), acts.last())
    }
}

/// The escaping tokens and the consumed tokens, the final marking's
/// included, fit in 32 bits.
pub open spec fn precision_fits(
    n: NetView,
    initial: Seq<(Seq<char>, int)>,
    fin: Seq<(Seq<char>, int)>,
    acts: Seq<Seq<char>>,
) -> bool {
    let p = precision_run(n, initial, acts);
    &&& p.escaping <= u32::MAX
    &&& p.consumed + total(fin) <= u32::MAX
}

proof fn lemma_escaping_mono(n: NetView, m: Seq<(Seq<char>, int)>, a: Seq<char>, k: int, k2: int)
    requires
        0 <= k <= k2,
    ensures
        0 <= escaping_at(n, m, a, k) <= escaping_at(n, m, a, k2),
    decreases k2,
{
    if k2 > k {
        lemma_escaping_mono(n, m, a, k, k2 - 1);
    } else if k > 0 {
        lemma_escaping_mono(n, m, a, k - 1, k - 1);
    }
}

proof fn lemma_precision_run(n: NetView, initial: Seq<(Seq<char>, int)>, acts: Seq<Seq<char>>, k: int)
    requires
        0 <= k <= acts.len(),
    ensures
        precision_run(n, initial, acts).replay == replay(n, initial, acts),
        0 <= precision_run(n, initial, acts.take(k)).escaping <= precision_run(n, initial, acts).escaping,
        0 <= precision_run(n, initial, acts.take(k)).consumed <= precision_run(n, initial, acts).consumed,
    decreases acts.len(),
{
    if acts.len() > 0 {
        let d = acts.drop_last();
        if k == acts.len() {
            assert(acts.take(k) =~= acts);
            lemma_precision_run(n, initial, d, 0);
        } else {
            assert(acts.take(k) =~= d.take(k));
            lemma_precision_run(n, initial, d, k);
        }
        let p = precision_run(n, initial, d);
        lemma_escaping_mono(n, event_step(n, p.replay, acts.last()).marking, acts.last(), 0, n.transitions.len() as int);
        assert(replay(n, initial, acts) == event_steps(n)(replay(n, initial, d), acts.last()));
    } else {
        assert(acts.take(k) =~= acts);
    }
}

/// Escaping and consumed token counts of one trace, as `precision_run`
/// states them, the final marking's tokens counted as consumed.
pub fn precision_for_trace(net: &PetriNet, initial_marking: &Marking, final_marking: &Marking, trace: &Trace) -> (res: (u32, u32))
    requires
        replay_fits(
            net@,
            counts(initial_marking.tokens.deep_view()),
            counts(final_marking.tokens.deep_view()),
            trace_names(trace.deep_view()),
        ),
        precision_fits(
            net@,
            counts(initial_marking.tokens.deep_view()),
            counts(final_marking.tokens.deep_view()),
            trace_names(trace.deep_view()),
        ),
        net.transitions.len() * 4 + 16 <= usize::MAX,
    ensures
        res.0 == precision_run(net@, counts(initial_marking.tokens.deep_view()), trace_names(trace.deep_view())).escaping,
        res.1 == precision_run(net@, counts(initial_marking.tokens.deep_view()), trace_names(trace.deep_view())).consumed
            + total(counts(final_marking.tokens.deep_view())),
{
    let ghost n = net@;
    let ghost init = counts(initial_marking.tokens.deep_view());
    let ghost fin = counts(final_marking.tokens.deep_view());
    let ghost acts = trace_names(trace.deep_view());
    let ghost r = replay(n, init, acts);
    let ghost p = precision_run(n, init, acts);
    let ghost start = replay_start(n, init);
    proof {
        lemma_event_steps_good(n);
        lemma_fold_good(start, acts, event_steps(n), 0);
        lemma_counts_nonneg(final_marking.tokens.deep_view(), Seq::empty(), 0);
    }
    let mut st = start_replay(net, initial_marking, Ghost(r));
    let mut escaping: u32 = 0;
    let mut consumed: u32 = 0;
    let ghost tv = trace.deep_view();
    proof {
        assert(acts.take(0) =~= Seq::<Seq<char>>::empty());
    }
    for i in 0..trace.events.len()
        invariant
            n == net@,
            tv == trace.deep_view(),
            acts == trace_names(tv),
            r == fold_names(start, acts, event_steps(n)),
            start == replay_start(n, init),
            bounded(r),
            p == precision_run(n, init, acts),
            p.escaping <= u32::MAX,
            p.consumed <= u32::MAX,
            crate::conformance::token_replay::good_step(event_steps(n)),
            st.state() == precision_run(n, init, acts.take(i as int)).replay,
            escaping == precision_run(n, init, acts.take(i as int)).escaping,
            consumed == precision_run(n, init, acts.take(i as int)).consumed,
            balanced(st.state()),
            net.transitions.len() * 4 + 16 <= usize::MAX,
    {
        let a = trace.events[i].name.as_str();
        let ghost before = precision_run(n, init, acts.take(i as int));
        proof {
            lemma_fold_good(start, acts, event_steps(n), i + 1);
            assert(acts.take(i + 1).drop_last() =~= acts.take(i as int));
            assert(acts[i as int] == a@);
            assert(acts.take(i + 1).last() == a@);
            lemma_precision_run(n, init, acts.take(i + 1), 0);
            lemma_precision_run(n, init, acts, i + 1);
            lemma_precision_run(n, init, acts.take(i as int), 0);
            assert(fold_names(start, acts.take(i + 1), event_steps(n)) == event_step(n, st.state(), a@));
        }
        let choice = match first_match(net, &st.marking, false, a, true) {
            Some(j) => Some(j),
            None => first_match(net, &st.marking, false, a, false),
        };
        match choice {
            None => {},
            Some(j) => {
                let pre = net.neighbours(net.transitions[j].name.as_str(), true, true);
                proof {
                    assert(n.transitions[j as int].0 == net.transitions@[j as int].name@);
                }
                st.event(net, a, Ghost(r));
                consumed = consumed + pre.len() as u32;
                let ghost m = st.state().marking;
                let ghost base = escaping;
                for k in 0..net.transitions.len()
                    invariant
                        n == net@,
                        m == st.state().marking,
                        escaping == base + escaping_at(n, m, a@, k as int),
                        base + escaping_at(n, m, a@, n.transitions.len() as int) <= u32::MAX,
                {
                    let t = &net.transitions[k];
                    proof {
                        assert(n.transitions[k as int] == t.deep_view());
                        lemma_escaping_mono(n, m, a@, k + 1, n.transitions.len() as int);
                    }
                    let tpre = net.neighbours(t.name.as_str(), true, true);
                    let labelled = match &t.label {
                        Some(l) => str_eq(l.as_str(), a),
                        None => false,
                    };
                    if tpre.len() > 0 && has_tokens(&st.marking, &tpre) && !labelled {
                        escaping = escaping + tpre.len() as u32;
                    }
                }
            },
        }
    }
    proof {
        assert(acts.take(acts.len() as int) =~= acts);
    }
    let mut final_tokens: u32 = 0;
    let ghost fv = final_marking.tokens.deep_view();
    for i in 0..final_marking.tokens.len()
        invariant
            fv == final_marking.tokens.deep_view(),
            fin == counts(fv),
            final_tokens == total(counts(fv.take(i as int))),
            total(fin) <= u32::MAX,
    {
        proof {
            lemma_counts_nonneg(fv, Seq::empty(), i + 1);
            assert(counts(fv.take(i + 1)).drop_last() =~= counts(fv.take(i as int)));
            assert(fv[i as int] == final_marking.tokens@[i as int].deep_view());
        }
        final_tokens = final_tokens + final_marking.tokens[i].1;
    }
    proof {
        assert(fv.take(fv.len() as int) =~= fv);
    }
    (escaping, consumed + final_tokens)
}

} // verus!
