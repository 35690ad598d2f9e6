//! Soundness of workflow nets, by bounded exploration of reachable markings.

use vstd::prelude::*;
use crate::petri_net::{PetriNet, NetView, Marking, pre_places, post_places, lemma_entry_of_absent, lemma_entry_of_unique};
use crate::counting::{seq_count, lemma_seq_count_take_step};

verus! {

/// The tokens a marking puts on place `p` (none when `p` is not listed).
pub open spec fn tokens(m: Marking, p: Seq<char>) -> int {
    match m.get_spec(p) {
        Some(c) => c as int,
        None => 0,
    }
}

/// A marking as a function from places to tokens.
pub open spec fn token_fn(m: Marking) -> spec_fn(Seq<char>) -> int {
    |p: Seq<char>| tokens(m, p)
}

/// Two token functions agree on every place.
pub open spec fn same_tokens(a: spec_fn(Seq<char>) -> int, b: spec_fn(Seq<char>) -> int) -> bool {
    forall|p: Seq<char>| #[trigger] a(p) == b(p)
}

/// Transition `t` has input places and each holds a token.
pub open spec fn enabled_in(n: NetView, t: int, a: spec_fn(Seq<char>) -> int) -> bool {
    let pre = pre_places(n, n.transitions[t].0);
    pre.len() > 0 && forall|k: int| 0 <= k < pre.len() ==> #[trigger] a(pre[k]) > 0
}

/// The tokens after firing transition `t`: one fewer per input arc, one
/// more per output arc.
pub open spec fn fired(n: NetView, t: int, a: spec_fn(Seq<char>) -> int) -> spec_fn(Seq<char>) -> int {
    |p: Seq<char>| a(p) - seq_count(pre_places(n, n.transitions[t].0), p) + seq_count(post_places(n, n.transitions[t].0), p)
}

/// The tokens after firing the transitions `ts` in turn from `a0`.
pub open spec fn run_tokens(n: NetView, a0: spec_fn(Seq<char>) -> int, ts: Seq<int>) -> spec_fn(Seq<char>) -> int
    decreases ts.len(),
{
    if ts.len() == 0 {
        a0
    } else {
        fired(n, ts.last(), run_tokens(n, a0, ts.drop_last()))
    }
}

/// Each transition of `ts` is enabled when its turn comes.
pub open spec fn run_enabled(n: NetView, a0: spec_fn(Seq<char>) -> int, ts: Seq<int>) -> bool
    decreases ts.len(),
{
    ts.len() == 0 || (run_enabled(n, a0, ts.drop_last()) && 0 <= ts.last() < n.transitions.len()
        && enabled_in(n, ts.last(), run_tokens(n, a0, ts.drop_last())))
}

/// `a` can be reached from `a0` by firing at most `k` transitions.
pub open spec fn reachable_within(n: NetView, a0: spec_fn(Seq<char>) -> int, a: spec_fn(Seq<char>) -> int, k: nat) -> bool {
    exists|ts: Seq<int>| ts.len() <= k && #[trigger] run_enabled(n, a0, ts) && same_tokens(a, run_tokens(n, a0, ts))
}

/// A copy of a marking.
fn copy_marking(m: &Marking) -> (res: Marking)
    ensures
        res.tokens.deep_view() == m.tokens.deep_view(),
        res.wf() == m.wf(),
{
    let mut out: Vec<(String, u32)> = Vec::new();
    for i in 0..m.tokens.len()
        invariant
            out@.len() == i,
            forall|j: int| 0 <= j < i ==> #[trigger] out.deep_view()[j] == m.tokens.deep_view()[j],
    {
        let ghost before = out.deep_view();
        out.push((m.tokens[i].0.clone(), m.tokens[i].1));
        proof {
            assert forall|j: int| 0 <= j < i + 1 implies #[trigger] out.deep_view()[j] == m.tokens.deep_view()[j] by {
                if j < i {
                    assert(out.deep_view()[j] == before[j]);
                }
            }
        }
    }
    let res = Marking { tokens: out };
    proof {
        assert(res.tokens.deep_view() =~= m.tokens.deep_view());
        assert forall|a: int, b: int| 0 <= a < b < res.tokens@.len() implies (res.tokens@[a].0@ != res.tokens@[b].0@ <==> m.tokens@[a].0@ != m.tokens@[b].0@) by {
            assert(res.tokens.deep_view()[a] == m.tokens.deep_view()[a]);
            assert(res.tokens.deep_view()[b] == m.tokens.deep_view()[b]);
        }
    }
    res
}

/// The tokens on `p`.
fn tokens_on(m: &Marking, p: &str) -> (res: u32)
    requires
        m.wf(),
    ensures
        res as int == tokens(*m, p@),
{
    match m.get(p) {
        Some(c) => c,
        None => 0,
    }
}

/// Whether every input place holds a token.
fn is_enabled(m: &Marking, pre: &Vec<String>) -> (res: bool)
    requires
        m.wf(),
    ensures
        res == forall|k: int| 0 <= k < pre@.len() ==> #[trigger] tokens(*m, pre.deep_view()[k]) > 0,
{
    for k in 0..pre.len()
        invariant
            m.wf(),
            forall|j: int| 0 <= j < k ==> #[trigger] tokens(*m, pre.deep_view()[j]) > 0,
    {
        if tokens_on(m, pre[k].as_str()) == 0 {
            proof {
                assert(pre.deep_view()[k as int] == pre@[k as int]@);
            }
            return false;
        }
    }
    true
}

pub proof fn lemma_seq_count_prefix<A>(s: Seq<A>, k: int, x: A)
    requires
        0 <= k <= s.len(),
    ensures
        seq_count(s.take(k), x) <= seq_count(s, x),
    decreases s.len() - k,
{
    if k < s.len() {
        lemma_seq_count_take_step(s, k, x);
        lemma_seq_count_prefix(s, k + 1, x);
    } else {
        assert(s.take(k) =~= s);
    }
}

/// Fires a transition with input places `pre` and output places `post`.
fn fire(m: &Marking, pre: &Vec<String>, post: &Vec<String>) -> (res: Marking)
    requires
        m.wf(),
        forall|p: Seq<char>| #[trigger] tokens(*m, p) >= seq_count(pre.deep_view(), p),
        forall|p: Seq<char>| #[trigger] tokens(*m, p) + seq_count(post.deep_view(), p) <= u32::MAX,
    ensures
        res.wf(),
        forall|p: Seq<char>| #[trigger] tokens(res, p) == tokens(*m, p) - seq_count(pre.deep_view(), p) + seq_count(post.deep_view(), p),
{
    let ghost pv = pre.deep_view();
    let ghost qv = post.deep_view();
    let mut r = copy_marking(m);
    for k in 0..pre.len()
        invariant
            pv == pre.deep_view(),
            m.wf(),
            r.wf(),
            forall|p: Seq<char>| #[trigger] tokens(*m, p) >= seq_count(pv, p),
            forall|p: Seq<char>| #[trigger] tokens(r, p) == tokens(*m, p) - seq_count(pv.take(k as int), p),
    {
        let p = &pre[k];
        proof {
            assert(pv[k as int] == p@);
            lemma_seq_count_take_step(pv, k as int, p@);
            lemma_seq_count_prefix(pv, k + 1, p@);
        }
        let c = tokens_on(&r, p.as_str());
        let ghost r0 = r;
        r.insert(p.clone(), c - 1);
        proof {
            assert forall|q: Seq<char>| #[trigger] tokens(r, q) == tokens(*m, q) - seq_count(pv.take(k + 1), q) by {
                lemma_seq_count_take_step(pv, k as int, q);
                if q != p@ {
                    assert(r.get_spec(q) == r0.get_spec(q));
                    assert(tokens(r0, q) == tokens(*m, q) - seq_count(pv.take(k as int), q));
                }
            }
        }
    }
    proof {
        assert(pv.take(pv.len() as int) =~= pv);
    }
    for k in 0..post.len()
        invariant
            pv == pre.deep_view(),
            qv == post.deep_view(),
            r.wf(),
            forall|p: Seq<char>| #[trigger] tokens(*m, p) + seq_count(qv, p) <= u32::MAX,
            forall|p: Seq<char>| #[trigger] tokens(*m, p) >= seq_count(pv, p),
            forall|p: Seq<char>| #[trigger] tokens(r, p) == tokens(*m, p) - seq_count(pv, p) + seq_count(qv.take(k as int), p),
    {
        let p = &post[k];
        proof {
            assert(qv[k as int] == p@);
            lemma_seq_count_take_step(qv, k as int, p@);
            lemma_seq_count_prefix(qv, k + 1, p@);
            assert(tokens(*m, p@) + seq_count(qv, p@) <= u32::MAX);
        }
        let c = tokens_on(&r, p.as_str());
        let ghost r0 = r;
        r.insert(p.clone(), c + 1);
        proof {
            assert forall|q: Seq<char>| #[trigger] tokens(r, q) == tokens(*m, q) - seq_count(pv, q) + seq_count(qv.take(k + 1), q) by {
                lemma_seq_count_take_step(qv, k as int, q);
                if q != p@ {
                    assert(r.get_spec(q) == r0.get_spec(q));
                    assert(tokens(r0, q) == tokens(*m, q) - seq_count(pv, q) + seq_count(qv.take(k as int), q));
                }
            }
        }
    }
    proof {
        assert(qv.take(qv.len() as int) =~= qv);
    }
    r
}

/// Whether two markings put the same tokens on every place.
fn markings_equal(a: &Marking, b: &Marking) -> (res: bool)
    requires
        a.wf(),
        b.wf(),
    ensures
        res == same_tokens(token_fn(*a), token_fn(*b)),
{
    let ghost av = a.tokens.deep_view();
    let ghost bv = b.tokens.deep_view();
    proof {
        assert forall|x: int, y: int| 0 <= x < y < av.len() implies #[trigger] av[x].0 != #[trigger] av[y].0 by {
            assert(av[x].0 == a.tokens@[x].0@ && av[y].0 == a.tokens@[y].0@);
        }
        assert forall|x: int, y: int| 0 <= x < y < bv.len() implies #[trigger] bv[x].0 != #[trigger] bv[y].0 by {
            assert(bv[x].0 == b.tokens@[x].0@ && bv[y].0 == b.tokens@[y].0@);
        }
    }
    for i in 0..a.tokens.len()
        invariant
            a.wf(),
            b.wf(),
            av == a.tokens.deep_view(),
            forall|x: int, y: int| 0 <= x < y < av.len() ==> #[trigger] av[x].0 != #[trigger] av[y].0,
            forall|j: int| 0 <= j < i ==> tokens(*a, #[trigger] av[j].0) == tokens(*b, av[j].0),
    {
        proof {
            assert(av[i as int] == (a.tokens@[i as int].0@, a.tokens@[i as int].1));
            lemma_entry_of_unique(av, i as int);
        }
        if tokens_on(b, a.tokens[i].0.as_str()) != a.tokens[i].1 {
            proof {
                assert(token_fn(*a)(av[i as int].0) != token_fn(*b)(av[i as int].0));
            }
            return false;
        }
    }
    for i in 0..b.tokens.len()
        invariant
            a.wf(),
            b.wf(),
            av == a.tokens.deep_view(),
            bv == b.tokens.deep_view(),
            forall|x: int, y: int| 0 <= x < y < bv.len() ==> #[trigger] bv[x].0 != #[trigger] bv[y].0,
            forall|j: int| 0 <= j < av.len() ==> tokens(*a, #[trigger] av[j].0) == tokens(*b, av[j].0),
            forall|j: int| 0 <= j < i ==> tokens(*a, #[trigger] bv[j].0) == tokens(*b, bv[j].0),
    {
        proof {
            assert(bv[i as int] == (b.tokens@[i as int].0@, b.tokens@[i as int].1));
            lemma_entry_of_unique(bv, i as int);
        }
        if tokens_on(a, b.tokens[i].0.as_str()) != b.tokens[i].1 {
            proof {
                assert(token_fn(*a)(bv[i as int].0) != token_fn(*b)(bv[i as int].0));
            }
            return false;
        }
    }
    proof {
        assert forall|p: Seq<char>| #[trigger] token_fn(*a)(p) == token_fn(*b)(p) by {
            if exists|j: int| 0 <= j < av.len() && av[j].0 == p {
                let j = choose|j: int| 0 <= j < av.len() && av[j].0 == p;
                assert(tokens(*a, av[j].0) == tokens(*b, av[j].0));
            } else if exists|j: int| 0 <= j < bv.len() && bv[j].0 == p {
                let j = choose|j: int| 0 <= j < bv.len() && bv[j].0 == p;
                assert(tokens(*a, bv[j].0) == tokens(*b, bv[j].0));
            } else {
                lemma_entry_of_absent(av, p);
                lemma_entry_of_absent(bv, p);
            }
        }
    }
    true
}

/// Some marking of `vs` has the tokens of `a`.
pub open spec fn covers(vs: Seq<Marking>, a: spec_fn(Seq<char>) -> int) -> bool {
    exists|i: int| 0 <= i < vs.len() && same_tokens(#[trigger] token_fn(vs[i]), a)
}

proof fn lemma_same_tokens_trans(a: spec_fn(Seq<char>) -> int, b: spec_fn(Seq<char>) -> int, c: spec_fn(Seq<char>) -> int)
    requires
        same_tokens(a, b),
        same_tokens(b, c),
    ensures
        same_tokens(a, c),
{
    assert forall|p: Seq<char>| #[trigger] a(p) == c(p) by {
        assert(a(p) == b(p) && b(p) == c(p));
    }
}

/// Markings with the same tokens enable the same transitions and lead to
/// markings with the same tokens.
proof fn lemma_step_same(n: NetView, t: int, a: spec_fn(Seq<char>) -> int, b: spec_fn(Seq<char>) -> int)
    requires
        same_tokens(a, b),
    ensures
        enabled_in(n, t, a) == enabled_in(n, t, b),
        same_tokens(fired(n, t, a), fired(n, t, b)),
{
    let pre = pre_places(n, n.transitions[t].0);
    if enabled_in(n, t, a) {
        assert forall|k: int| 0 <= k < pre.len() implies #[trigger] b(pre[k]) > 0 by {
            assert(a(pre[k]) > 0);
            assert(a(pre[k]) == b(pre[k]));
        }
    }
    if enabled_in(n, t, b) {
        assert forall|k: int| 0 <= k < pre.len() implies #[trigger] a(pre[k]) > 0 by {
            assert(b(pre[k]) > 0);
            assert(a(pre[k]) == b(pre[k]));
        }
    }
    assert forall|p: Seq<char>| #[trigger] fired(n, t, a)(p) == fired(n, t, b)(p) by {
        assert(a(p) == b(p));
    }
}

/// What is reachable within `k` steps is reachable within `k + 1`.
proof fn lemma_reach_mono(n: NetView, a0: spec_fn(Seq<char>) -> int, a: spec_fn(Seq<char>) -> int, k: nat)
    requires
        reachable_within(n, a0, a, k),
    ensures
        reachable_within(n, a0, a, k + 1),
{
    let ts = choose|ts: Seq<int>| ts.len() <= k && #[trigger] run_enabled(n, a0, ts) && same_tokens(a, run_tokens(n, a0, ts));
    assert(ts.len() <= k + 1 && run_enabled(n, a0, ts));
}

/// Reachability depends only on the tokens.
proof fn lemma_reach_same(n: NetView, a0: spec_fn(Seq<char>) -> int, a: spec_fn(Seq<char>) -> int, b: spec_fn(Seq<char>) -> int, k: nat)
    requires
        reachable_within(n, a0, a, k),
        same_tokens(a, b),
    ensures
        reachable_within(n, a0, b, k),
{
    let ts = choose|ts: Seq<int>| ts.len() <= k && #[trigger] run_enabled(n, a0, ts) && same_tokens(a, run_tokens(n, a0, ts));
    assert(same_tokens(b, a)) by {
        assert forall|p: Seq<char>| #[trigger] b(p) == a(p) by {
            assert(a(p) == b(p));
        }
    }
    lemma_same_tokens_trans(b, a, run_tokens(n, a0, ts));
    assert(run_enabled(n, a0, ts));
}

/// One step more from a marking reachable within `k` steps.
proof fn lemma_reach_step(n: NetView, a0: spec_fn(Seq<char>) -> int, b: spec_fn(Seq<char>) -> int, t: int, a: spec_fn(Seq<char>) -> int, k: nat)
    requires
        reachable_within(n, a0, b, k),
        0 <= t < n.transitions.len(),
        enabled_in(n, t, b),
        same_tokens(a, fired(n, t, b)),
    ensures
        reachable_within(n, a0, a, k + 1),
{
    let ts = choose|ts: Seq<int>| ts.len() <= k && #[trigger] run_enabled(n, a0, ts) && same_tokens(b, run_tokens(n, a0, ts));
    let ts1 = ts.push(t);
    assert(ts1.drop_last() =~= ts);
    let r = run_tokens(n, a0, ts);
    lemma_step_same(n, t, b, r);
    assert(run_enabled(n, a0, ts1));
    assert(run_tokens(n, a0, ts1) == fired(n, t, r));
    lemma_same_tokens_trans(a, fired(n, t, b), fired(n, t, r));
}

/// A marking reachable within `k + 1` steps but not within `k` is one step
/// from a marking reachable within exactly `k`.
proof fn lemma_reach_last_step(n: NetView, a0: spec_fn(Seq<char>) -> int, a: spec_fn(Seq<char>) -> int, k: nat)
    requires
        reachable_within(n, a0, a, k + 1),
        !reachable_within(n, a0, a, k),
    ensures
        exists|b: spec_fn(Seq<char>) -> int, t: int| #![trigger reachable_within(n, a0, b, k), enabled_in(n, t, b)]
            reachable_within(n, a0, b, k) && (k == 0 || !reachable_within(n, a0, b, (k - 1) as nat))
            && 0 <= t < n.transitions.len() && enabled_in(n, t, b) && same_tokens(a, fired(n, t, b)),
{
    let ts = choose|ts: Seq<int>| ts.len() <= k + 1 && #[trigger] run_enabled(n, a0, ts) && same_tokens(a, run_tokens(n, a0, ts));
    if ts.len() <= k {
        assert(reachable_within(n, a0, a, k));
    }
    let d = ts.drop_last();
    let b = run_tokens(n, a0, d);
    let t = ts.last();
    assert(run_enabled(n, a0, d));
    assert(d.len() <= k);
    assert(same_tokens(b, run_tokens(n, a0, d))) by {
        assert forall|p: Seq<char>| #[trigger] b(p) == run_tokens(n, a0, d)(p) by {}
    }
    assert(reachable_within(n, a0, b, k));
    if k > 0 && reachable_within(n, a0, b, (k - 1) as nat) {
        lemma_reach_step(n, a0, b, t, a, (k - 1) as nat);
        assert((k - 1) as nat + 1 == k);
    }
}

proof fn lemma_count_no_dup<A>(s: Seq<A>, x: A)
    requires
        s.no_duplicates(),
    ensures
        seq_count(s, x) <= 1,
        seq_count(s, x) == 1 ==> s.contains(x),
    decreases s.len(),
{
    if s.len() > 0 {
        let d = s.drop_last();
        assert(d.no_duplicates()) by {
            assert forall|i: int, j: int| 0 <= i < d.len() && 0 <= j < d.len() && i != j implies d[i] != d[j] by {
                assert(d[i] == s[i] && d[j] == s[j]);
            }
        }
        lemma_count_no_dup(d, x);
        crate::counting::lemma_seq_count_pos(d, x);
        if s.last() == x && d.contains(x) {
            let k = choose|k: int| 0 <= k < d.len() && d[k] == x;
            assert(s[k] == s[s.len() - 1]);
        }
        if seq_count(s, x) == 1 {
            if s.last() == x {
                assert(s[s.len() - 1] == x);
            } else {
                let k = choose|k: int| 0 <= k < d.len() && d[k] == x;
                assert(s[k] == x);
            }
        }
    }
}

proof fn lemma_mul_step(x: int, a: int)
    ensures
        (x + 1) * a == x * a + a,
{
    assert((x + 1) * a == x * a + a) by (nonlinear_arith);
}

proof fn lemma_mul_nonneg(x: int, a: int)
    requires
        0 <= x,
        0 <= a,
    ensures
        0 <= x * a,
{
    assert(0 <= x * a) by (nonlinear_arith)
        requires
            0 <= x,
            0 <= a,
    ;
}

/// Every marking is well formed with at most `budget` tokens on any place.
pub open spec fn bounded_by(vs: Seq<Marking>, budget: int) -> bool {
    forall|i: int| 0 <= i < vs.len() ==> (#[trigger] vs[i]).wf() && forall|p: Seq<char>| #[trigger] tokens(vs[i], p) <= budget
}

/// No transition has two arcs from the same place.
pub open spec fn simple_inputs(n: NetView) -> bool {
    forall|t: int| 0 <= t < n.transitions.len() ==> (#[trigger] pre_places(n, n.transitions[t].0)).no_duplicates()
}

/// The exploration after `level` rounds: `vs` covers exactly the markings
/// reachable within `level` steps, `fs` exactly those first reached at `level`.
#[verifier::opaque]
pub open spec fn explored(n: NetView, a0: spec_fn(Seq<char>) -> int, vs: Seq<Marking>, fs: Seq<Marking>, level: nat) -> bool {
    &&& forall|i: int| 0 <= i < vs.len() ==> reachable_within(n, a0, #[trigger] token_fn(vs[i]), level)
    &&& forall|a: spec_fn(Seq<char>) -> int| #[trigger] reachable_within(n, a0, a, level) ==> covers(vs, a)
    &&& forall|i: int| 0 <= i < fs.len() ==> reachable_within(n, a0, #[trigger] token_fn(fs[i]), level)
        && (level == 0 || !reachable_within(n, a0, token_fn(fs[i]), (level - 1) as nat))
    &&& forall|a: spec_fn(Seq<char>) -> int| #[trigger] reachable_within(n, a0, a, level)
        && (level == 0 || !reachable_within(n, a0, a, (level - 1) as nat)) ==> covers(fs, a)
}

/// Whether some marking of `vs` has the tokens of `m`.
fn find_equal(vs: &Vec<Marking>, m: &Marking) -> (res: bool)
    requires
        m.wf(),
        forall|i: int| 0 <= i < vs@.len() ==> (#[trigger] vs@[i]).wf(),
    ensures
        res == covers(vs@, token_fn(*m)),
{
    for j in 0..vs.len()
        invariant
            m.wf(),
            forall|i: int| 0 <= i < vs@.len() ==> (#[trigger] vs@[i]).wf(),
            forall|i: int| 0 <= i < j ==> !same_tokens(#[trigger] token_fn(vs@[i]), token_fn(*m)),
    {
        if markings_equal(&vs[j], m) {
            return true;
        }
    }
    false
}

proof fn lemma_neighbours_len(n: NetView, node: Seq<char>, incoming: bool, of_places: bool)
    ensures
        crate::petri_net::neighbours(n, node, incoming, of_places).len() <= n.arcs.len(),
{
    n.arcs.lemma_filter_len(crate::petri_net::touches(n, node, incoming, of_places));
}

/// Each marking of `next` is reachable within `level + 1` steps and not within `level`.
pub open spec fn fresh(n: NetView, a0: spec_fn(Seq<char>) -> int, next: Seq<Marking>, level: nat) -> bool {
    forall|j: int| 0 <= j < next.len() ==> reachable_within(n, a0, #[trigger] token_fn(next[j]), level + 1)
        && !reachable_within(n, a0, token_fn(next[j]), level)
}

/// When transition `u` is enabled at frontier marking `x`, `vs` covers its successor.
pub open spec fn handled(n: NetView, vs: Seq<Marking>, fs: Seq<Marking>, x: int, u: int) -> bool {
    0 <= x < fs.len() && 0 <= u < n.transitions.len() && enabled_in(n, u, token_fn(fs[x]))
        ==> covers(vs, fired(n, u, token_fn(fs[x])))
}

proof fn lemma_covers_grow(vs: Seq<Marking>, more: Seq<Marking>, a: spec_fn(Seq<char>) -> int)
    requires
        covers(vs, a),
    ensures
        covers(vs + more, a),
{
    let j = choose|j: int| 0 <= j < vs.len() && same_tokens(#[trigger] token_fn(vs[j]), a);
    assert((vs + more)[j] == vs[j]);
}

/// Adds the successor of marking `all[idx]` by transition `t` to `all`,
/// when `t` is enabled there and the successor is new.
fn add_successor(
    net: &PetriNet,
    all: &mut Vec<Marking>,
    idx: usize,
    t: usize,
    Ghost(a0): Ghost<spec_fn(Seq<char>) -> int>,
    Ghost(level): Ghost<nat>,
    Ghost(budget): Ghost<int>,
    Ghost(seen): Ghost<int>,
)
    requires
        simple_inputs(net@),
        t < net@.transitions.len(),
        0 <= seen <= old(all)@.len(),
        idx < seen,
        forall|a: spec_fn(Seq<char>) -> int| #[trigger] reachable_within(net@, a0, a, level) ==> covers(old(all)@.subrange(0, seen), a),
        reachable_within(net@, a0, token_fn(old(all)@[idx as int]), level),
        budget + net@.arcs.len() <= u32::MAX,
        bounded_by(old(all)@.subrange(0, seen), budget),
        bounded_by(old(all)@.subrange(seen, old(all)@.len() as int), budget + net@.arcs.len()),
        fresh(net@, a0, old(all)@.subrange(seen, old(all)@.len() as int), level),
    ensures
        final(all)@.len() >= old(all)@.len(),
        final(all)@.subrange(0, old(all)@.len() as int) == old(all)@,
        bounded_by(final(all)@.subrange(seen, final(all)@.len() as int), budget + net@.arcs.len()),
        fresh(net@, a0, final(all)@.subrange(seen, final(all)@.len() as int), level),
        enabled_in(net@, t as int, token_fn(old(all)@[idx as int])) ==> covers(final(all)@, fired(net@, t as int, token_fn(old(all)@[idx as int]))),
{
    let ghost n = net@;
    let ghost v_old = all@;
    let ghost m = all@[idx as int];
    let ghost a = token_fn(m);
    proof {
        assert(all@.subrange(0, all@.len() as int) =~= all@);
        assert(v_old.subrange(0, seen)[idx as int] == m);
        assert forall|i: int| 0 <= i < all@.len() implies (#[trigger] all@[i]).wf() by {
            if i < seen {
                assert(v_old.subrange(0, seen)[i] == all@[i]);
            } else {
                assert(v_old.subrange(seen, v_old.len() as int)[i - seen] == all@[i]);
            }
        }
    }
    let name = net.transitions[t].name.as_str();
    proof {
        assert(n.transitions[t as int].0 == name@);
    }
    let pre = net.neighbours(name, true, true);
    if pre.len() == 0 {
        return;
    }
    if !is_enabled(&all[idx], &pre) {
        proof {
            assert(!enabled_in(n, t as int, a)) by {
                if enabled_in(n, t as int, a) {
                    assert forall|k: int| 0 <= k < pre@.len() implies #[trigger] tokens(m, pre.deep_view()[k]) > 0 by {
                        assert(a(pre.deep_view()[k]) > 0);
                    }
                }
            }
        }
        return;
    }
    proof {
        assert(enabled_in(n, t as int, a)) by {
            assert forall|k: int| 0 <= k < pre.deep_view().len() implies #[trigger] a(pre.deep_view()[k]) > 0 by {
                assert(tokens(m, pre.deep_view()[k]) > 0);
            }
        }
    }
    let post = net.neighbours(name, false, true);
    proof {
        let pv = pre.deep_view();
        let qv = post.deep_view();
        assert(pv.no_duplicates());
        lemma_neighbours_len(n, name@, false, true);
        assert forall|p: Seq<char>| #[trigger] tokens(m, p) >= seq_count(pv, p) by {
            lemma_count_no_dup(pv, p);
            if seq_count(pv, p) == 1 {
                let k = choose|k: int| 0 <= k < pv.len() && pv[k] == p;
                assert(tokens(m, pv[k]) > 0);
            }
        }
        assert forall|p: Seq<char>| #[trigger] tokens(m, p) + seq_count(qv, p) <= u32::MAX by {
            crate::counting::lemma_seq_count_le_len(qv, p);
            assert(tokens(v_old.subrange(0, seen)[idx as int], p) <= budget);
        }
    }
    let succ = fire(&all[idx], &pre, &post);
    proof {
        assert forall|p: Seq<char>| #[trigger] token_fn(succ)(p) == fired(n, t as int, a)(p) by {}
        assert forall|p: Seq<char>| #[trigger] tokens(succ, p) <= budget + n.arcs.len() by {
            crate::counting::lemma_seq_count_le_len(post.deep_view(), p);
            lemma_neighbours_len(n, name@, false, true);
            assert(tokens(v_old.subrange(0, seen)[idx as int], p) <= budget);
        }
        lemma_reach_step(n, a0, a, t as int, token_fn(succ), level);
    }
    if find_equal(all, &succ) {
        proof {
            let j = choose|j: int| 0 <= j < all@.len() && same_tokens(#[trigger] token_fn(all@[j]), token_fn(succ));
            lemma_same_tokens_trans(token_fn(all@[j]), token_fn(succ), fired(n, t as int, a));
        }
        return;
    }
    proof {
        if reachable_within(n, a0, token_fn(succ), level) {
            let j = choose|j: int| 0 <= j < seen && same_tokens(#[trigger] token_fn(v_old.subrange(0, seen)[j]), token_fn(succ));
            assert(v_old.subrange(0, seen)[j] == all@[j]);
            assert(covers(all@, token_fn(succ)));
        }
    }
    all.push(succ);
    proof {
        let v1 = all@;
        assert(v1.subrange(0, v_old.len() as int) =~= v_old);
        assert(v1[v1.len() - 1] == succ);
        assert(same_tokens(token_fn(v1[v1.len() - 1]), fired(n, t as int, a)));
        let nx0 = v_old.subrange(seen, v_old.len() as int);
        let nx1 = v1.subrange(seen, v1.len() as int);
        assert(nx1 =~= nx0.push(succ));
        assert forall|j: int| 0 <= j < nx1.len() implies reachable_within(n, a0, #[trigger] token_fn(nx1[j]), level + 1)
            && !reachable_within(n, a0, token_fn(nx1[j]), level) by {
            if j < nx0.len() {
                assert(nx1[j] == nx0[j]);
            }
        }
        assert forall|i: int| 0 <= i < nx1.len() implies (#[trigger] nx1[i]).wf()
            && forall|p: Seq<char>| #[trigger] tokens(nx1[i], p) <= budget + n.arcs.len() by {
            if i < nx0.len() {
                assert(nx1[i] == nx0[i]);
            }
        }
    }
}

proof fn lemma_round_covers(n: NetView, a0: spec_fn(Seq<char>) -> int, vs0: Seq<Marking>, fs: Seq<Marking>, nx: Seq<Marking>, level: nat, b: spec_fn(Seq<char>) -> int)
    requires
        forall|a: spec_fn(Seq<char>) -> int| #[trigger] reachable_within(n, a0, a, level) ==> covers(vs0, a),
        forall|a: spec_fn(Seq<char>) -> int| #[trigger] reachable_within(n, a0, a, level)
            && (level == 0 || !reachable_within(n, a0, a, (level - 1) as nat)) ==> covers(fs, a),
        forall|x: int, u: int| 0 <= x < fs.len() && 0 <= u < n.transitions.len() ==> #[trigger] handled(n, vs0 + nx, fs, x, u),
        reachable_within(n, a0, b, level + 1),
    ensures
        covers(vs0 + nx, b),
{
    let v1 = vs0 + nx;
    if reachable_within(n, a0, b, level) {
        lemma_covers_grow(vs0, nx, b);
    } else {
        lemma_reach_last_step(n, a0, b, level);
        let (c, u) = choose|c: spec_fn(Seq<char>) -> int, u: int| #![trigger reachable_within(n, a0, c, level), enabled_in(n, u, c)]
            reachable_within(n, a0, c, level) && (level == 0 || !reachable_within(n, a0, c, (level - 1) as nat))
            && 0 <= u < n.transitions.len() && enabled_in(n, u, c) && same_tokens(b, fired(n, u, c));
        assert(covers(fs, c));
        let x = choose|x: int| 0 <= x < fs.len() && same_tokens(#[trigger] token_fn(fs[x]), c);
        lemma_step_same(n, u, token_fn(fs[x]), c);
        assert(handled(n, v1, fs, x, u));
        let j = choose|j: int| 0 <= j < v1.len() && same_tokens(#[trigger] token_fn(v1[j]), fired(n, u, token_fn(fs[x])));
        lemma_same_tokens_trans(token_fn(v1[j]), fired(n, u, token_fn(fs[x])), fired(n, u, c));
        assert(same_tokens(fired(n, u, c), b)) by {
            assert forall|p: Seq<char>| #[trigger] fired(n, u, c)(p) == b(p) by {
                assert(b(p) == fired(n, u, c)(p));
            }
        }
        lemma_same_tokens_trans(token_fn(v1[j]), fired(n, u, c), b);
    }
}

/// After a round that handled every frontier marking and transition, the
/// exploration has advanced one level.
proof fn lemma_round_done(n: NetView, a0: spec_fn(Seq<char>) -> int, vs0: Seq<Marking>, fs: Seq<Marking>, nx: Seq<Marking>, level: nat)
    requires
        explored(n, a0, vs0, fs, level),
        fresh(n, a0, nx, level),
        forall|x: int, u: int| 0 <= x < fs.len() && 0 <= u < n.transitions.len() ==> #[trigger] handled(n, vs0 + nx, fs, x, u),
    ensures
        explored(n, a0, vs0 + nx, nx, level + 1),
{
    reveal(explored);
    let v1 = vs0 + nx;
    assert forall|i: int| 0 <= i < v1.len() implies reachable_within(n, a0, #[trigger] token_fn(v1[i]), level + 1) by {
        if i < vs0.len() {
            assert(v1[i] == vs0[i]);
            lemma_reach_mono(n, a0, token_fn(vs0[i]), level);
        } else {
            assert(v1[i] == nx[i - vs0.len()]);
        }
    }
    assert forall|b: spec_fn(Seq<char>) -> int| #[trigger] reachable_within(n, a0, b, level + 1) implies covers(v1, b) by {
        lemma_round_covers(n, a0, vs0, fs, nx, level, b);
    }
    assert forall|b: spec_fn(Seq<char>) -> int| #[trigger] reachable_within(n, a0, b, level + 1)
        && (level + 1 == 0 || !reachable_within(n, a0, b, ((level + 1) - 1) as nat)) implies covers(nx, b) by {
        assert(((level + 1) - 1) as nat == level);
        lemma_round_covers(n, a0, vs0, fs, nx, level, b);
        let j = choose|j: int| 0 <= j < v1.len() && same_tokens(#[trigger] token_fn(v1[j]), b);
        if j < vs0.len() {
            assert(v1[j] == vs0[j]);
            lemma_reach_same(n, a0, token_fn(vs0[j]), b, level);
        } else {
            assert(nx[j - vs0.len()] == v1[j]);
        }
    }
    assert forall|i: int| 0 <= i < nx.len() implies reachable_within(n, a0, #[trigger] token_fn(nx[i]), level + 1)
        && (level + 1 == 0 || !reachable_within(n, a0, token_fn(nx[i]), ((level + 1) - 1) as nat)) by {
        assert(((level + 1) - 1) as nat == level);
    }
}

proof fn lemma_explored_facts(n: NetView, a0: spec_fn(Seq<char>) -> int, vs: Seq<Marking>, fs: Seq<Marking>, level: nat)
    requires
        explored(n, a0, vs, fs, level),
    ensures
        forall|a: spec_fn(Seq<char>) -> int| #[trigger] reachable_within(n, a0, a, level) ==> covers(vs, a),
        forall|i: int| 0 <= i < fs.len() ==> reachable_within(n, a0, #[trigger] token_fn(fs[i]), level),
        forall|i: int| 0 <= i < vs.len() ==> reachable_within(n, a0, #[trigger] token_fn(vs[i]), level),
{
    reveal(explored);
}

/// One round of the exploration: the markings from `lo` up to the end of
/// `all` are the frontier; each new successor of a frontier marking is
/// appended to `all`.
fn expand(
    net: &PetriNet,
    all: &mut Vec<Marking>,
    lo: usize,
    Ghost(a0): Ghost<spec_fn(Seq<char>) -> int>,
    Ghost(level): Ghost<nat>,
    Ghost(budget): Ghost<int>,
)
    requires
        simple_inputs(net@),
        lo <= old(all)@.len(),
        explored(net@, a0, old(all)@, old(all)@.subrange(lo as int, old(all)@.len() as int), level),
        bounded_by(old(all)@, budget),
        budget + net@.arcs.len() <= u32::MAX,
    ensures
        final(all)@.len() >= old(all)@.len(),
        final(all)@.subrange(0, old(all)@.len() as int) == old(all)@,
        bounded_by(final(all)@, budget + net@.arcs.len()),
        explored(net@, a0, final(all)@, final(all)@.subrange(old(all)@.len() as int, final(all)@.len() as int), level + 1),
{
    let ghost n = net@;
    let ghost vs0 = all@;
    let hi = all.len();
    let ghost fs = vs0.subrange(lo as int, hi as int);
    proof {
        lemma_explored_facts(n, a0, vs0, fs, level);
        assert(vs0.subrange(0, hi as int) =~= vs0);
        assert(vs0.subrange(hi as int, hi as int) =~= Seq::<Marking>::empty());
    }
    for i in lo..hi
        invariant
            n == net@,
            simple_inputs(n),
            lo <= hi,
            hi == vs0.len(),
            fs == vs0.subrange(lo as int, hi as int),
            explored(n, a0, vs0, fs, level),
            forall|a: spec_fn(Seq<char>) -> int| #[trigger] reachable_within(n, a0, a, level) ==> covers(vs0, a),
            forall|x: int| 0 <= x < fs.len() ==> reachable_within(n, a0, #[trigger] token_fn(fs[x]), level),
            bounded_by(vs0, budget),
            budget + n.arcs.len() <= u32::MAX,
            all@.len() >= hi,
            all@.subrange(0, hi as int) == vs0,
            bounded_by(all@.subrange(hi as int, all@.len() as int), budget + n.arcs.len()),
            fresh(n, a0, all@.subrange(hi as int, all@.len() as int), level),
            forall|x: int, u: int| 0 <= x < i - lo && 0 <= u < n.transitions.len() ==> #[trigger] handled(n, all@, fs, x, u),
    {
        proof {
            assert(fs[i - lo] == vs0[i as int]);
            assert(all@[i as int] == vs0[i as int]);
        }
        for t in 0..net.transitions.len()
            invariant
                n == net@,
                simple_inputs(n),
                lo <= i < hi,
                hi == vs0.len(),
                fs == vs0.subrange(lo as int, hi as int),
                forall|a: spec_fn(Seq<char>) -> int| #[trigger] reachable_within(n, a0, a, level) ==> covers(vs0, a),
                forall|x: int| 0 <= x < fs.len() ==> reachable_within(n, a0, #[trigger] token_fn(fs[x]), level),
                bounded_by(vs0, budget),
                budget + n.arcs.len() <= u32::MAX,
                all@.len() >= hi,
                all@.subrange(0, hi as int) == vs0,
                bounded_by(all@.subrange(hi as int, all@.len() as int), budget + n.arcs.len()),
                fresh(n, a0, all@.subrange(hi as int, all@.len() as int), level),
                forall|x: int, u: int| 0 <= x < i - lo && 0 <= u < n.transitions.len() ==> #[trigger] handled(n, all@, fs, x, u),
                forall|u: int| 0 <= u < t ==> #[trigger] handled(n, all@, fs, i - lo, u),
        {
            let ghost v_before = all@;
            proof {
                assert(all@[i as int] == vs0[i as int]);
                assert(fs[i - lo] == vs0[i as int]);
                assert(v_before.subrange(0, hi as int) == vs0);
            }
            add_successor(net, all, i, t, Ghost(a0), Ghost(level), Ghost(budget), Ghost(hi as int));
            proof {
                let v1 = all@;
                let extra = v1.subrange(v_before.len() as int, v1.len() as int);
                assert(v1 =~= v_before + extra);
                assert(v1.subrange(0, hi as int) =~= v_before.subrange(0, hi as int));
                assert forall|x: int, u: int| 0 <= x < i - lo && 0 <= u < n.transitions.len() implies #[trigger] handled(n, all@, fs, x, u) by {
                    assert(handled(n, v_before, fs, x, u));
                    if enabled_in(n, u, token_fn(fs[x])) {
                        lemma_covers_grow(v_before, extra, fired(n, u, token_fn(fs[x])));
                    }
                }
                assert forall|u: int| 0 <= u < t + 1 implies #[trigger] handled(n, all@, fs, i - lo, u) by {
                    if u < t {
                        assert(handled(n, v_before, fs, i - lo, u));
                        if enabled_in(n, u, token_fn(fs[i - lo])) {
                            lemma_covers_grow(v_before, extra, fired(n, u, token_fn(fs[i - lo])));
                        }
                    }
                }
            }
        }
    }
    proof {
        let nx = all@.subrange(hi as int, all@.len() as int);
        assert(all@ =~= vs0 + nx);
        lemma_round_done(n, a0, vs0, fs, nx, level);
        assert forall|i: int| 0 <= i < all@.len() implies (#[trigger] all@[i]).wf()
            && forall|p: Seq<char>| #[trigger] tokens(all@[i], p) <= budget + n.arcs.len() by {
            if i < hi {
                assert(all@[i] == vs0[i]);
            } else {
                assert(all@[i] == nx[i - hi]);
            }
        }
    }
}

/// The number of exploration rounds: markings reachable within one firing
/// fewer are examined, and their successors are checked against `MAX_TOKENS`.
pub const MAX_DEPTH: usize = 50;

/// No place of a bounded net may exceed this many tokens.
pub const MAX_TOKENS: u32 = 100;

/// The markings examined: those reachable within `MAX_DEPTH - 1` firings.
pub open spec fn examined(n: NetView, a0: spec_fn(Seq<char>) -> int, a: spec_fn(Seq<char>) -> int) -> bool {
    reachable_within(n, a0, a, (MAX_DEPTH - 1) as nat)
}

/// Some examined marking enables a transition whose firing puts more than
/// `MAX_TOKENS` tokens on a place.
pub open spec fn exceeds(n: NetView, a0: spec_fn(Seq<char>) -> int) -> bool {
    exists|a: spec_fn(Seq<char>) -> int, t: int| #[trigger] examined(n, a0, a) && 0 <= t < n.transitions.len() && #[trigger] enabled_in(n, t, a)
        && exists|p: Seq<char>| #[trigger] fired(n, t, a)(p) > MAX_TOKENS
}

/// Every visible transition is enabled at some examined marking.
pub open spec fn live(n: NetView, a0: spec_fn(Seq<char>) -> int) -> bool {
    forall|t: int| 0 <= t < n.transitions.len() && (#[trigger] n.transitions[t]).1 is Some
        ==> exists|a: spec_fn(Seq<char>) -> int| #[trigger] examined(n, a0, a) && enabled_in(n, t, a)
}

/// Some examined marking has the tokens of the final marking.
pub open spec fn completes(n: NetView, a0: spec_fn(Seq<char>) -> int, af: spec_fn(Seq<char>) -> int) -> bool {
    exists|a: spec_fn(Seq<char>) -> int| #[trigger] examined(n, a0, a) && same_tokens(a, af)
}

proof fn lemma_reach_zero(n: NetView, a0: spec_fn(Seq<char>) -> int, a: spec_fn(Seq<char>) -> int)
    ensures
        reachable_within(n, a0, a, 0) <==> same_tokens(a, a0),
{
    if same_tokens(a, a0) {
        let ts = Seq::<int>::empty();
        assert(run_enabled(n, a0, ts));
        assert(run_tokens(n, a0, ts) == a0);
    }
    if reachable_within(n, a0, a, 0) {
        let ts = choose|ts: Seq<int>| ts.len() <= 0 && #[trigger] run_enabled(n, a0, ts) && same_tokens(a, run_tokens(n, a0, ts));
        assert(ts.len() == 0);
    }
}

/// Explores the markings reachable from `initial` within `MAX_DEPTH - 1` firings.
fn explore(net: &PetriNet, initial: &Marking) -> (all: Vec<Marking>)
    requires
        simple_inputs(net@),
        initial.wf(),
        forall|p: Seq<char>| #[trigger] tokens(*initial, p) + MAX_DEPTH * net@.arcs.len() <= u32::MAX,
    ensures
        forall|i: int| 0 <= i < all@.len() ==> examined(net@, token_fn(*initial), #[trigger] token_fn(all@[i])),
        forall|a: spec_fn(Seq<char>) -> int| #[trigger] examined(net@, token_fn(*initial), a) ==> covers(all@, a),
        bounded_by(all@, u32::MAX - net@.arcs.len()),
{
    let ghost n = net@;
    let ghost arcs = n.arcs.len() as int;
    let first = copy_marking(initial);
    let ghost a0 = token_fn(first);
    proof {
        assert(a0 =~= token_fn(*initial));
    }
    let mut all: Vec<Marking> = Vec::new();
    all.push(first);
    let mut lo: usize = 0;
    let ghost mut budget: int = u32::MAX - MAX_DEPTH * arcs;
    proof {
        reveal(explored);
        let fs = all@.subrange(0, 1);
        assert(fs =~= all@);
        assert forall|a: spec_fn(Seq<char>) -> int| #[trigger] reachable_within(n, a0, a, 0) implies covers(all@, a) by {
            lemma_reach_zero(n, a0, a);
            assert(same_tokens(token_fn(all@[0]), a)) by {
                assert forall|p: Seq<char>| #[trigger] token_fn(all@[0])(p) == a(p) by {
                    assert(a(p) == a0(p));
                }
            }
        }
        lemma_reach_zero(n, a0, token_fn(all@[0]));
        assert(same_tokens(token_fn(all@[0]), a0)) by {
            assert forall|p: Seq<char>| #[trigger] token_fn(all@[0])(p) == a0(p) by {}
        }
        assert(explored(n, a0, all@, all@.subrange(0, 1), 0));
        assert(bounded_by(all@, budget)) by {
            assert forall|p: Seq<char>| #[trigger] tokens(all@[0], p) <= budget by {
                assert(tokens(all@[0], p) == tokens(*initial, p));
            }
        }
        lemma_mul_nonneg(MAX_DEPTH as int, arcs);
    }
    let mut level: usize = 0;
    while level < MAX_DEPTH - 1
        invariant
            level <= MAX_DEPTH - 1,
            n == net@,
            simple_inputs(n),
            arcs == n.arcs.len(),
            a0 == token_fn(*initial),
            lo <= all@.len(),
            explored(n, a0, all@, all@.subrange(lo as int, all@.len() as int), level as nat),
            bounded_by(all@, budget),
            budget + (MAX_DEPTH - level) * arcs <= u32::MAX,
        decreases MAX_DEPTH - level,
    {
        proof {
            lemma_mul_step((MAX_DEPTH - level - 1) as int, arcs);
            lemma_mul_nonneg((MAX_DEPTH - level - 1) as int, arcs);
        }
        let hi = all.len();
        expand(net, &mut all, lo, Ghost(a0), Ghost(level as nat), Ghost(budget));
        lo = hi;
        proof {
            budget = budget + arcs;
        }
        level = level + 1;
    }
    proof {
        assert(level == MAX_DEPTH - 1);
        lemma_mul_step(0, arcs);
        lemma_explored_facts(n, a0, all@, all@.subrange(lo as int, all@.len() as int), (MAX_DEPTH - 1) as nat);
        assert(budget <= u32::MAX - arcs);
        assert forall|i: int| 0 <= i < all@.len() implies (#[trigger] all@[i]).wf()
            && forall|p: Seq<char>| #[trigger] tokens(all@[i], p) <= u32::MAX - arcs by {
            assert(all@[i].wf());
        }
    }
    all
}

/// The result of a soundness check.
#[derive(Debug)]
pub struct SoundnessResult {
    pub sound: bool,
    pub deadlock_free: bool,
    pub bounded: bool,
    pub liveness: bool,
}

/// Whether some place holds more than `MAX_TOKENS` tokens.
fn over_limit(m: &Marking) -> (res: bool)
    requires
        m.wf(),
    ensures
        res == exists|p: Seq<char>| #[trigger] tokens(*m, p) > MAX_TOKENS,
{
    let ghost tv = m.tokens.deep_view();
    proof {
        assert forall|x: int, y: int| 0 <= x < y < tv.len() implies #[trigger] tv[x].0 != #[trigger] tv[y].0 by {
            assert(tv[x].0 == m.tokens@[x].0@ && tv[y].0 == m.tokens@[y].0@);
        }
    }
    for i in 0..m.tokens.len()
        invariant
            tv == m.tokens.deep_view(),
            forall|x: int, y: int| 0 <= x < y < tv.len() ==> #[trigger] tv[x].0 != #[trigger] tv[y].0,
            forall|j: int| 0 <= j < i ==> #[trigger] tv[j].1 <= MAX_TOKENS,
    {
        proof {
            assert(tv[i as int] == (m.tokens@[i as int].0@, m.tokens@[i as int].1));
        }
        if m.tokens[i].1 > MAX_TOKENS {
            proof {
                lemma_entry_of_unique(tv, i as int);
                assert(tokens(*m, tv[i as int].0) > MAX_TOKENS);
            }
            return true;
        }
    }
    proof {
        assert forall|p: Seq<char>| #[trigger] tokens(*m, p) <= MAX_TOKENS by {
            if exists|j: int| 0 <= j < tv.len() && tv[j].0 == p {
                let j = choose|j: int| 0 <= j < tv.len() && tv[j].0 == p;
                lemma_entry_of_unique(tv, j);
            } else {
                lemma_entry_of_absent(tv, p);
            }
        }
    }
    false
}

/// Whether firing some enabled transition at an explored marking puts more
/// than `MAX_TOKENS` tokens on a place.
fn any_exceeds(net: &PetriNet, all: &Vec<Marking>, Ghost(a0): Ghost<spec_fn(Seq<char>) -> int>) -> (res: bool)
    requires
        simple_inputs(net@),
        forall|i: int| 0 <= i < all@.len() ==> examined(net@, a0, #[trigger] token_fn(all@[i])),
        forall|a: spec_fn(Seq<char>) -> int| #[trigger] examined(net@, a0, a) ==> covers(all@, a),
        bounded_by(all@, u32::MAX - net@.arcs.len()),
    ensures
        res == exceeds(net@, a0),
{
    let ghost n = net@;
    for i in 0..all.len()
        invariant
            n == net@,
            simple_inputs(n),
            forall|i: int| 0 <= i < all@.len() ==> examined(n, a0, #[trigger] token_fn(all@[i])),
            bounded_by(all@, u32::MAX - n.arcs.len()),
            forall|x: int, t: int| 0 <= x < i && 0 <= t < n.transitions.len() && #[trigger] enabled_in(n, t, token_fn(all@[x]))
                ==> forall|p: Seq<char>| #[trigger] fired(n, t, token_fn(all@[x]))(p) <= MAX_TOKENS,
    {
        for t in 0..net.transitions.len()
            invariant
                n == net@,
                i < all@.len(),
                simple_inputs(n),
                forall|i: int| 0 <= i < all@.len() ==> examined(n, a0, #[trigger] token_fn(all@[i])),
                bounded_by(all@, u32::MAX - n.arcs.len()),
                forall|x: int, u: int| 0 <= x < i && 0 <= u < n.transitions.len() && #[trigger] enabled_in(n, u, token_fn(all@[x]))
                    ==> forall|p: Seq<char>| #[trigger] fired(n, u, token_fn(all@[x]))(p) <= MAX_TOKENS,
                forall|u: int| 0 <= u < t && #[trigger] enabled_in(n, u, token_fn(all@[i as int]))
                    ==> forall|p: Seq<char>| #[trigger] fired(n, u, token_fn(all@[i as int]))(p) <= MAX_TOKENS,
        {
            let ghost m = all@[i as int];
            let ghost a = token_fn(m);
            let name = net.transitions[t].name.as_str();
            proof {
                assert(n.transitions[t as int].0 == name@);
                assert(m.wf());
            }
            let pre = net.neighbours(name, true, true);
            let ok = pre.len() > 0 && is_enabled(&all[i], &pre);
            proof {
                assert(ok == enabled_in(n, t as int, a)) by {
                    if pre.len() > 0 {
                        assert forall|k: int| 0 <= k < pre@.len() implies (#[trigger] tokens(m, pre.deep_view()[k]) > 0 <==> a(pre.deep_view()[k]) > 0) by {}
                    }
                }
            }
            if ok {
                let post = net.neighbours(name, false, true);
                proof {
                    let pv = pre.deep_view();
                    let qv = post.deep_view();
                    assert(pv.no_duplicates());
                    lemma_neighbours_len(n, name@, false, true);
                    assert forall|p: Seq<char>| #[trigger] tokens(m, p) >= seq_count(pv, p) by {
                        lemma_count_no_dup(pv, p);
                        if seq_count(pv, p) == 1 {
                            let k = choose|k: int| 0 <= k < pv.len() && pv[k] == p;
                            assert(tokens(m, pv[k]) > 0);
                        }
                    }
                    assert forall|p: Seq<char>| #[trigger] tokens(m, p) + seq_count(qv, p) <= u32::MAX by {
                        crate::counting::lemma_seq_count_le_len(qv, p);
                    }
                }
                let succ = fire(&all[i], &pre, &post);
                if over_limit(&succ) {
                    proof {
                        let p = choose|p: Seq<char>| #[trigger] tokens(succ, p) > MAX_TOKENS;
                        assert(fired(n, t as int, a)(p) == tokens(succ, p));
                        assert(examined(n, a0, a));
                    }
                    return true;
                }
                proof {
                    assert forall|p: Seq<char>| #[trigger] fired(n, t as int, a)(p) <= MAX_TOKENS by {
                        assert(fired(n, t as int, a)(p) == tokens(succ, p));
                    }
                }
            }
        }
    }
    proof {
        assert forall|a: spec_fn(Seq<char>) -> int, t: int| #[trigger] examined(n, a0, a) && 0 <= t < n.transitions.len() && #[trigger] enabled_in(n, t, a)
            implies forall|p: Seq<char>| #[trigger] fired(n, t, a)(p) <= MAX_TOKENS by {
            let j = choose|j: int| 0 <= j < all@.len() && same_tokens(#[trigger] token_fn(all@[j]), a);
            lemma_step_same(n, t, token_fn(all@[j]), a);
            assert forall|p: Seq<char>| #[trigger] fired(n, t, a)(p) <= MAX_TOKENS by {
                assert(fired(n, t, token_fn(all@[j]))(p) <= MAX_TOKENS);
            }
        }
    }
    false
}

/// Whether every visible transition is enabled at some explored marking.
fn all_visible_fire(net: &PetriNet, all: &Vec<Marking>, Ghost(a0): Ghost<spec_fn(Seq<char>) -> int>) -> (res: bool)
    requires
        forall|i: int| 0 <= i < all@.len() ==> examined(net@, a0, #[trigger] token_fn(all@[i])),
        forall|a: spec_fn(Seq<char>) -> int| #[trigger] examined(net@, a0, a) ==> covers(all@, a),
        forall|i: int| 0 <= i < all@.len() ==> (#[trigger] all@[i]).wf(),
    ensures
        res == live(net@, a0),
{
    let ghost n = net@;
    for t in 0..net.transitions.len()
        invariant
            n == net@,
            forall|i: int| 0 <= i < all@.len() ==> examined(n, a0, #[trigger] token_fn(all@[i])),
            forall|a: spec_fn(Seq<char>) -> int| #[trigger] examined(n, a0, a) ==> covers(all@, a),
            forall|i: int| 0 <= i < all@.len() ==> (#[trigger] all@[i]).wf(),
            forall|u: int| 0 <= u < t && (#[trigger] n.transitions[u]).1 is Some
                ==> exists|a: spec_fn(Seq<char>) -> int| #[trigger] examined(n, a0, a) && enabled_in(n, u, a),
    {
        proof {
            assert(n.transitions[t as int] == (net.transitions@[t as int].name@, net.transitions@[t as int].label.deep_view()));
        }
        if net.transitions[t].label.is_some() {
            let name = net.transitions[t].name.as_str();
            let pre = net.neighbours(name, true, true);
            let mut found = false;
            if pre.len() > 0 {
                for i in 0..all.len()
                    invariant
                        n == net@,
                        t < n.transitions.len(),
                        n.transitions[t as int].0 == name@,
                        pre.deep_view() == pre_places(n, name@),
                        pre@.len() > 0,
                        forall|i: int| 0 <= i < all@.len() ==> examined(n, a0, #[trigger] token_fn(all@[i])),
                        forall|i: int| 0 <= i < all@.len() ==> (#[trigger] all@[i]).wf(),
                        found ==> exists|a: spec_fn(Seq<char>) -> int| #[trigger] examined(n, a0, a) && enabled_in(n, t as int, a),
                        !found ==> forall|x: int| 0 <= x < i ==> !#[trigger] enabled_in(n, t as int, token_fn(all@[x])),
                {
                    if !found {
                        let e = is_enabled(&all[i], &pre);
                        proof {
                            let a = token_fn(all@[i as int]);
                            assert(e == enabled_in(n, t as int, a)) by {
                                assert forall|k: int| 0 <= k < pre@.len() implies (#[trigger] tokens(all@[i as int], pre.deep_view()[k]) > 0 <==> a(pre.deep_view()[k]) > 0) by {}
                            }
                            if e {
                                assert(examined(n, a0, a));
                            }
                        }
                        found = e;
                    }
                }
            }
            if !found {
                proof {
                    assert forall|a: spec_fn(Seq<char>) -> int| #[trigger] examined(n, a0, a) implies !enabled_in(n, t as int, a) by {
                        let j = choose|j: int| 0 <= j < all@.len() && same_tokens(#[trigger] token_fn(all@[j]), a);
                        lemma_step_same(n, t as int, token_fn(all@[j]), a);
                    }
                    assert(!live(n, a0)) by {
                        assert(n.transitions[t as int].1 is Some);
                    }
                }
                return false;
            }
        }
    }
    true
}

/// Checks a net for soundness by exploring the markings reachable from
/// `initial` within `MAX_DEPTH - 1` firings: it is bounded when no enabled
/// transition there leads to more than `MAX_TOKENS` tokens on a place, live
/// (and deadlock free) when every visible transition is enabled somewhere
/// there, and sound when moreover the final marking is among them.
pub fn check_soundness(net: &PetriNet, initial: &Marking, final_m: &Marking) -> (res: SoundnessResult)
    requires
        simple_inputs(net@),
        initial.wf(),
        final_m.wf(),
        forall|p: Seq<char>| #[trigger] tokens(*initial, p) + MAX_DEPTH * net@.arcs.len() <= u32::MAX,
    ensures
        res.bounded == !exceeds(net@, token_fn(*initial)),
        res.liveness == live(net@, token_fn(*initial)),
        res.deadlock_free == res.liveness,
        res.sound == (res.bounded && res.liveness && completes(net@, token_fn(*initial), token_fn(*final_m))),
{
    let ghost a0 = token_fn(*initial);
    let all = explore(net, initial);
    proof {
        assert forall|i: int| 0 <= i < all@.len() implies (#[trigger] all@[i]).wf() by {
            assert(all@[i].wf());
        }
    }
    let bounded = !any_exceeds(net, &all, Ghost(a0));
    let liveness = all_visible_fire(net, &all, Ghost(a0));
    let completion = find_equal(&all, final_m);
    proof {
        let af = token_fn(*final_m);
        if completion {
            let j = choose|j: int| 0 <= j < all@.len() && same_tokens(#[trigger] token_fn(all@[j]), af);
            assert(examined(net@, a0, token_fn(all@[j])));
        }
        if completes(net@, a0, af) {
            let a = choose|a: spec_fn(Seq<char>) -> int| #[trigger] examined(net@, a0, a) && same_tokens(a, af);
            let j = choose|j: int| 0 <= j < all@.len() && same_tokens(#[trigger] token_fn(all@[j]), a);
            lemma_same_tokens_trans(token_fn(all@[j]), a, af);
        }
    }
    SoundnessResult {
        sound: bounded && liveness && completion,
        deadlock_free: liveness,
        bounded,
        liveness,
    }
}

} // verus!
