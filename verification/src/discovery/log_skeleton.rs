//! Log skeletons: the relations between activities observed in each trace
//! (equivalence, always-after, always-before, never-together, directly
//! follows) and the activity frequencies, from which a skeleton of the
//! log is kept.

use vstd::prelude::*;
use crate::counting::seq_count;
use crate::text::{str_eq, distinct_in_order, distinct_names, lemma_distinct_in_order};

verus! {

/// The constraints of a log skeleton: pairs of activities per relation,
/// and the allowed numbers of occurrences of each activity.
#[derive(Debug)]
pub struct LogSkeleton {
    pub equivalence: Vec<(String, String)>,
    pub always_after: Vec<(String, String)>,
    pub always_before: Vec<(String, String)>,
    pub never_together: Vec<(String, String)>,
    pub directly_follows: Vec<(String, String)>,
    pub activ_freq: Vec<(String, Vec<usize>)>,
}

/// Which positions `(i, j)` of a trace a relation pairs up.
#[derive(Clone, Copy, PartialEq, Eq, Structural)]
pub enum PairRule {
    /// `j` after `i`.
    Later,
    /// `j` before `i`.
    Earlier,
    /// `j` right after `i`.
    Next,
    /// Any two different positions.
    Other,
    /// Two different positions whose activities occur equally often.
    SameCount,
}

pub open spec fn rule_holds(rule: PairRule, t: Seq<Seq<char>>, i: int, j: int) -> bool {
    match rule {
        PairRule::Later => i < j,
        PairRule::Earlier => j < i,
        PairRule::Next => j == i + 1,
        PairRule::Other => i != j,
        PairRule::SameCount => i != j && seq_count(t, t[i]) == seq_count(t, t[j]),
    }
}

/// The pairs `(t[i], t[j])` for `j < m` that the rule allows, by `j`.
pub open spec fn pair_row(rule: PairRule, t: Seq<Seq<char>>, i: int, m: int) -> Seq<(Seq<char>, Seq<char>)>
    decreases m,
{
    if m <= 0 {
        Seq::empty()
    } else {
        pair_row(rule, t, i, m - 1) + if rule_holds(rule, t, i, m - 1) {
            seq![(t[i], t[m - 1])]
        } else {
            Seq::empty()
        }
    }
}

/// The pairs the rule allows for the positions `i < m`, by `i`, then `j`.
pub open spec fn pair_rows(rule: PairRule, t: Seq<Seq<char>>, m: int) -> Seq<(Seq<char>, Seq<char>)>
    decreases m,
{
    if m <= 0 {
        Seq::empty()
    } else {
        pair_rows(rule, t, m - 1) + pair_row(rule, t, m - 1, t.len() as int)
    }
}

/// The pairs of a trace that the rule allows, by first position, then
/// second.
pub open spec fn trace_pairs(rule: PairRule, t: Seq<Seq<char>>) -> Seq<(Seq<char>, Seq<char>)> {
    pair_rows(rule, t, t.len() as int)
}

fn count_of(t: &Vec<String>, x: &str) -> (res: usize)
    ensures
        res == seq_count(t.deep_view(), x@),
{
    let ghost tv = t.deep_view();
    let mut c: usize = 0;
    for i in 0..t.len()
        invariant
            tv == t.deep_view(),
            c == seq_count(tv.take(i as int), x@),
            c <= i,
    {
        proof {
            assert(tv.take(i + 1).drop_last() =~= tv.take(i as int));
        }
        if str_eq(t[i].as_str(), x) {
            c = c + 1;
        }
    }
    proof {
        assert(tv.take(tv.len() as int) =~= tv);
    }
    c
}

fn rule_holds_at(rule: PairRule, t: &Vec<String>, i: usize, j: usize) -> (res: bool)
    requires
        i < t@.len(),
        j < t@.len(),
    ensures
        res == rule_holds(rule, t.deep_view(), i as int, j as int),
{
    match rule {
        PairRule::Later => i < j,
        PairRule::Earlier => j < i,
        PairRule::Next => j > i && j - i == 1,
        PairRule::Other => i != j,
        PairRule::SameCount => i != j && count_of(t, t[i].as_str()) == count_of(t, t[j].as_str()),
    }
}

fn pairs_where(rule: PairRule, t: &Vec<String>) -> (res: Vec<(String, String)>)
    ensures
        res.deep_view() == trace_pairs(rule, t.deep_view()),
{
    let ghost tv = t.deep_view();
    let n = t.len();
    let mut out: Vec<(String, String)> = Vec::new();
    for i in 0..n
        invariant
            tv == t.deep_view(),
            n == tv.len(),
            out.deep_view() == pair_rows(rule, tv, i as int),
    {
        for j in 0..n
            invariant
                tv == t.deep_view(),
                n == tv.len(),
                i < n,
                out.deep_view() == pair_rows(rule, tv, i as int) + pair_row(rule, tv, i as int, j as int),
        {
            if rule_holds_at(rule, t, i, j) {
                let ghost before = out.deep_view();
                out.push((t[i].clone(), t[j].clone()));
                proof {
                    assert(out.deep_view() =~= before.push((tv[i as int], tv[j as int])));
                    assert(out.deep_view() =~= pair_rows(rule, tv, i as int) + pair_row(rule, tv, i as int, j + 1));
                }
            } else {
                proof {
                    assert(pair_row(rule, tv, i as int, j + 1) =~= pair_row(rule, tv, i as int, j as int));
                }
            }
        }
    }
    out
}

/// The pairs `(a, b)` of activities at two different positions of the
/// trace that occur equally often in it, by position.
pub fn equivalence(trace: &Vec<String>) -> (res: Vec<(String, String)>)
    ensures
        res.deep_view() == trace_pairs(PairRule::SameCount, trace.deep_view()),
{
    pairs_where(PairRule::SameCount, trace)
}

/// The pairs `(trace[i], trace[j])` with `i < j`, by `i`, then `j`.
pub fn after(trace: &Vec<String>) -> (res: Vec<(String, String)>)
    ensures
        res.deep_view() == trace_pairs(PairRule::Later, trace.deep_view()),
{
    pairs_where(PairRule::Later, trace)
}

/// The pairs `(trace[i], trace[j])` with `j < i`, by `i`, then `j`.
pub fn before(trace: &Vec<String>) -> (res: Vec<(String, String)>)
    ensures
        res.deep_view() == trace_pairs(PairRule::Earlier, trace.deep_view()),
{
    pairs_where(PairRule::Earlier, trace)
}

/// The pairs `(trace[i], trace[i + 1])`, in order.
pub fn directly_follows(trace: &Vec<String>) -> (res: Vec<(String, String)>)
    ensures
        res.deep_view() == trace_pairs(PairRule::Next, trace.deep_view()),
{
    pairs_where(PairRule::Next, trace)
}

fn same_pair(p: &(String, String), q: &(String, String)) -> (res: bool)
    ensures
        res == (p.deep_view() == q.deep_view()),
{
    str_eq(p.0.as_str(), q.0.as_str()) && str_eq(p.1.as_str(), q.1.as_str())
}

/// The distinct pairs of activities at two different positions of the
/// trace, in order of first occurrence.
pub fn combos(trace: &Vec<String>) -> (res: Vec<(String, String)>)
    ensures
        res.deep_view() == distinct_in_order(trace_pairs(PairRule::Other, trace.deep_view())),
{
    let all = pairs_where(PairRule::Other, trace);
    let ghost av = all.deep_view();
    let mut out: Vec<(String, String)> = Vec::new();
    for k in 0..all.len()
        invariant
            av == all.deep_view(),
            out.deep_view() == distinct_in_order(av.take(k as int)),
    {
        proof {
            assert(av.take(k + 1).drop_last() =~= av.take(k as int));
        }
        let mut seen = false;
        for x in 0..out.len()
            invariant
                av == all.deep_view(),
                k < av.len(),
                seen == exists|y: int| 0 <= y < x && out.deep_view()[y] == av[k as int],
        {
            proof {
                assert(out.deep_view()[x as int] == out@[x as int].deep_view());
                assert(av[k as int] == all@[k as int].deep_view());
            }
            if same_pair(&out[x], &all[k]) {
                seen = true;
            }
        }
        proof {
            if out.deep_view().contains(av[k as int]) {
                let y = choose|y: int| 0 <= y < out.deep_view().len() && out.deep_view()[y] == av[k as int];
                assert(out.deep_view()[y] == av[k as int]);
            }
        }
        if !seen {
            let ghost before = out.deep_view();
            out.push((all[k].0.clone(), all[k].1.clone()));
            proof {
                assert(out.deep_view() =~= before.push(av[k as int]));
            }
        }
    }
    proof {
        assert(av.take(av.len() as int) =~= av);
    }
    out
}

/// Each distinct activity of the trace, in order of first occurrence, with
/// its number of occurrences.
pub fn activ_freq_single(trace: &Vec<String>) -> (res: Vec<(String, usize)>)
    ensures
        res.deep_view() == distinct_in_order(trace.deep_view()).map_values(
            |a: Seq<char>| (a, seq_count(trace.deep_view(), a) as usize),
        ),
{
    let names = distinct_names(trace);
    let ghost nv = names.deep_view();
    let mut out: Vec<(String, usize)> = Vec::new();
    for k in 0..names.len()
        invariant
            nv == names.deep_view(),
            out.deep_view() == nv.take(k as int).map_values(|a: Seq<char>| (a, seq_count(trace.deep_view(), a) as usize)),
    {
        let c = count_of(trace, names[k].as_str());
        let ghost before = out.deep_view();
        out.push((names[k].clone(), c));
        proof {
            assert(out.deep_view() =~= before.push((nv[k as int], c)));
            assert(nv.take(k + 1).map_values(|a: Seq<char>| (a, seq_count(trace.deep_view(), a) as usize))
                =~= nv.take(k as int).map_values(|a: Seq<char>| (a, seq_count(trace.deep_view(), a) as usize)).push(
                (nv[k as int], c)));
        }
    }
    proof {
        assert(nv.take(nv.len() as int) =~= nv);
    }
    out
}

proof fn lemma_concat_contains<A>(a: Seq<A>, b: Seq<A>, x: A)
    ensures
        (a + b).contains(x) <==> a.contains(x) || b.contains(x),
{
    if (a + b).contains(x) {
        let k = choose|k: int| 0 <= k < (a + b).len() && (a + b)[k] == x;
        if k < a.len() {
            assert(a[k] == x);
        } else {
            assert(b[k - a.len()] == x);
        }
    }
    if a.contains(x) {
        let k = choose|k: int| 0 <= k < a.len() && a[k] == x;
        assert((a + b)[k] == x);
    }
    if b.contains(x) {
        let k = choose|k: int| 0 <= k < b.len() && b[k] == x;
        assert((a + b)[a.len() + k] == x);
    }
}

proof fn lemma_pair_row_contains(rule: PairRule, t: Seq<Seq<char>>, i: int, m: int, p: (Seq<char>, Seq<char>))
    requires
        0 <= i < t.len(),
        0 <= m <= t.len(),
    ensures
        pair_row(rule, t, i, m).contains(p) <==> exists|j: int| 0 <= j < m && rule_holds(rule, t, i, j) && p == (t[i], t[j]),
    decreases m,
{
    if m > 0 {
        lemma_pair_row_contains(rule, t, i, m - 1, p);
        let tail = if rule_holds(rule, t, i, m - 1) { seq![(t[i], t[m - 1])] } else { Seq::empty() };
        lemma_concat_contains(pair_row(rule, t, i, m - 1), tail, p);
        if tail.contains(p) {
            assert(tail[0] == p);
        }
        if exists|j: int| 0 <= j < m && rule_holds(rule, t, i, j) && p == (t[i], t[j]) {
            let j = choose|j: int| 0 <= j < m && rule_holds(rule, t, i, j) && p == (t[i], t[j]);
            if j == m - 1 {
                assert(tail[0] == p);
            }
        }
    }
}

/// A pair belongs to the pairs of a trace for a rule exactly when it is
/// `(t[i], t[j])` for positions that the rule allows.
pub proof fn lemma_trace_pairs_contains(rule: PairRule, t: Seq<Seq<char>>, p: (Seq<char>, Seq<char>))
    ensures
        trace_pairs(rule, t).contains(p) <==> exists|i: int, j: int|
            0 <= i < t.len() && 0 <= j < t.len() && rule_holds(rule, t, i, j) && p == (t[i], t[j]),
{
    lemma_pair_rows_contains(rule, t, t.len() as int, p);
}

proof fn lemma_pair_rows_contains(rule: PairRule, t: Seq<Seq<char>>, m: int, p: (Seq<char>, Seq<char>))
    requires
        0 <= m <= t.len(),
    ensures
        pair_rows(rule, t, m).contains(p) <==> exists|i: int, j: int|
            0 <= i < m && 0 <= j < t.len() && rule_holds(rule, t, i, j) && p == (t[i], t[j]),
    decreases m,
{
    if m > 0 {
        lemma_pair_rows_contains(rule, t, m - 1, p);
        lemma_pair_row_contains(rule, t, m - 1, t.len() as int, p);
        lemma_concat_contains(pair_rows(rule, t, m - 1), pair_row(rule, t, m - 1, t.len() as int), p);
        if exists|i: int, j: int| 0 <= i < m && 0 <= j < t.len() && rule_holds(rule, t, i, j) && p == (t[i], t[j]) {
            let (i, j) = choose|i: int, j: int| 0 <= i < m && 0 <= j < t.len() && rule_holds(rule, t, i, j) && p == (t[i], t[j]);
            if i < m - 1 {
                assert(exists|i2: int, j2: int| 0 <= i2 < m - 1 && 0 <= j2 < t.len() && rule_holds(rule, t, i2, j2) && p == (t[i2], t[j2]));
            } else {
                assert(exists|j2: int| 0 <= j2 < t.len() && #[trigger] rule_holds(rule, t, m - 1, j2) && p == (t[m - 1], t[j2]));
            }
        }
    }
}

/// `(a, b)` is an always-after pair of a trace exactly when `(b, a)` is an
/// always-before pair.
pub proof fn lemma_before_mirrors_after(t: Seq<Seq<char>>, a: Seq<char>, b: Seq<char>)
    ensures
        trace_pairs(PairRule::Later, t).contains((a, b)) <==> trace_pairs(PairRule::Earlier, t).contains((b, a)),
{
    lemma_trace_pairs_contains(PairRule::Later, t, (a, b));
    lemma_trace_pairs_contains(PairRule::Earlier, t, (b, a));
    if trace_pairs(PairRule::Later, t).contains((a, b)) {
        let (i, j) = choose|i: int, j: int| 0 <= i < t.len() && 0 <= j < t.len() && rule_holds(PairRule::Later, t, i, j) && (a, b) == (t[i], t[j]);
        assert(rule_holds(PairRule::Earlier, t, j, i) && (b, a) == (t[j], t[i]));
    }
    if trace_pairs(PairRule::Earlier, t).contains((b, a)) {
        let (i, j) = choose|i: int, j: int| 0 <= i < t.len() && 0 <= j < t.len() && rule_holds(PairRule::Earlier, t, i, j) && (b, a) == (t[i], t[j]);
        assert(rule_holds(PairRule::Later, t, j, i) && (a, b) == (t[j], t[i]));
    }
}

/// Every directly-follows pair of a trace is an always-after pair.
pub proof fn lemma_directly_follows_within_after(t: Seq<Seq<char>>, p: (Seq<char>, Seq<char>))
    requires
        trace_pairs(PairRule::Next, t).contains(p),
    ensures
        trace_pairs(PairRule::Later, t).contains(p),
{
    lemma_trace_pairs_contains(PairRule::Next, t, p);
    lemma_trace_pairs_contains(PairRule::Later, t, p);
    let (i, j) = choose|i: int, j: int| 0 <= i < t.len() && 0 <= j < t.len() && rule_holds(PairRule::Next, t, i, j) && p == (t[i], t[j]);
    assert(rule_holds(PairRule::Later, t, i, j));
}

/// The combinations of a trace are exactly its always-after and
/// always-before pairs.
pub proof fn lemma_combos_are_after_or_before(t: Seq<Seq<char>>, p: (Seq<char>, Seq<char>))
    ensures
        distinct_in_order(trace_pairs(PairRule::Other, t)).contains(p)
            <==> trace_pairs(PairRule::Later, t).contains(p) || trace_pairs(PairRule::Earlier, t).contains(p),
{
    crate::text::lemma_distinct_in_order(trace_pairs(PairRule::Other, t));
    lemma_trace_pairs_contains(PairRule::Other, t, p);
    lemma_trace_pairs_contains(PairRule::Later, t, p);
    lemma_trace_pairs_contains(PairRule::Earlier, t, p);
    if trace_pairs(PairRule::Other, t).contains(p) {
        let (i, j) = choose|i: int, j: int| 0 <= i < t.len() && 0 <= j < t.len() && rule_holds(PairRule::Other, t, i, j) && p == (t[i], t[j]);
        if i < j {
            assert(rule_holds(PairRule::Later, t, i, j));
        } else {
            assert(rule_holds(PairRule::Earlier, t, i, j));
        }
    }
    if trace_pairs(PairRule::Later, t).contains(p) {
        let (i, j) = choose|i: int, j: int| 0 <= i < t.len() && 0 <= j < t.len() && rule_holds(PairRule::Later, t, i, j) && p == (t[i], t[j]);
        assert(rule_holds(PairRule::Other, t, i, j));
    }
    if trace_pairs(PairRule::Earlier, t).contains(p) {
        let (i, j) = choose|i: int, j: int| 0 <= i < t.len() && 0 <= j < t.len() && rule_holds(PairRule::Earlier, t, i, j) && p == (t[i], t[j]);
        assert(rule_holds(PairRule::Other, t, i, j));
    }
}


/// The keys of weighted entries, in order.
pub open spec fn keys_of<K>(es: Seq<(K, usize)>) -> Seq<K> {
    es.map_values(|e: (K, usize)| e.0)
}

/// The weight of `key` among weighted entries: the weights of the entries
/// with that key, summed.
pub open spec fn weight_of<K>(es: Seq<(K, usize)>, key: K) -> int
    decreases es.len(),
{
    if es.len() == 0 {
        0
    } else {
        weight_of(es.drop_last(), key) + if es.last().0 == key { es.last().1 as int } else { 0 }
    }
}

/// The weights of all entries, summed.
pub open spec fn total_weight<K>(es: Seq<(K, usize)>) -> int
    decreases es.len(),
{
    if es.len() == 0 {
        0
    } else {
        total_weight(es.drop_last()) + es.last().1
    }
}

/// `table` lists each key of the weighted entries once, in order of first
/// appearance, with its summed weight.
pub open spec fn is_weight_table<K>(table: Seq<(K, usize)>, es: Seq<(K, usize)>) -> bool {
    &&& keys_of(table) == distinct_in_order(keys_of(es))
    &&& forall|x: int| 0 <= x < table.len() ==> #[trigger] table[x].1 == weight_of(es, table[x].0)
}

proof fn lemma_weight_bounds<K>(es: Seq<(K, usize)>, key: K)
    ensures
        0 <= weight_of(es, key) <= total_weight(es),
        total_weight(es) >= 0,
    decreases es.len(),
{
    if es.len() > 0 {
        lemma_weight_bounds(es.drop_last(), key);
    }
}

proof fn lemma_total_prefix<K>(es: Seq<(K, usize)>, k: int)
    requires
        0 <= k <= es.len(),
    ensures
        total_weight(es.take(k)) <= total_weight(es),
    decreases es.len() - k,
{
    if k < es.len() {
        lemma_total_prefix(es, k + 1);
        assert(es.take(k + 1).drop_last() =~= es.take(k));
        lemma_weight_bounds(es.take(k), es[k].0);
    } else {
        assert(es.take(k) =~= es);
    }
}

/// Sums the weights of the entries per pair, pairs in order of first
/// appearance, as `is_weight_table` states it.
pub fn weighted_pair_counts(entries: &Vec<((String, String), usize)>) -> (res: Vec<((String, String), usize)>)
    requires
        total_weight(entries.deep_view()) <= usize::MAX,
    ensures
        is_weight_table(res.deep_view(), entries.deep_view()),
{
    let ghost ev = entries.deep_view();
    let mut out: Vec<((String, String), usize)> = Vec::new();
    proof {
        assert(keys_of(ev.take(0)) =~= Seq::<(Seq<char>, Seq<char>)>::empty());
        assert(keys_of(out.deep_view()) =~= Seq::<(Seq<char>, Seq<char>)>::empty());
    }
    for i in 0..entries.len()
        invariant
            ev == entries.deep_view(),
            total_weight(ev) <= usize::MAX,
            is_weight_table(out.deep_view(), ev.take(i as int)),
    {
        let ghost pe = ev.take(i as int);
        let ghost ne = ev.take(i + 1);
        let ghost ov = out.deep_view();
        let ghost ks = keys_of(pe);
        let ghost e = ev[i as int];
        proof {
            assert(ne.drop_last() =~= pe);
            assert(ne.last() == e);
            assert(e == entries@[i as int].deep_view());
            assert(keys_of(ne) =~= ks.push(e.0));
            lemma_distinct_in_order(ks);
            lemma_total_prefix(ev, i + 1);
            lemma_weight_bounds(ne, e.0);
        }
        let key = &entries[i].0;
        let w = entries[i].1;
        let mut x: usize = 0;
        while x < out.len() && !(str_eq(out[x].0.0.as_str(), key.0.as_str()) && str_eq(out[x].0.1.as_str(), key.1.as_str()))
            invariant
                ov == out.deep_view(),
                x <= out.len(),
                forall|y: int| 0 <= y < x ==> ov[y].0 != e.0,
                e.0 == (key.0@, key.1@),
            decreases out.len() - x,
        {
            proof {
                assert(ov[x as int] == out@[x as int].deep_view());
            }
            x = x + 1;
        }
        if x < out.len() {
            proof {
                assert(ov[x as int] == out@[x as int].deep_view());
                assert(ov[x as int].0 == e.0);
                assert(ov[x as int].1 == weight_of(pe, e.0));
                assert(ks.contains(e.0)) by {
                    assert(keys_of(ov)[x as int] == e.0);
                    assert(distinct_in_order(ks).contains(e.0));
                }
                assert forall|y: int| 0 <= y < ov.len() && y != x implies ov[y].0 != e.0 by {
                    let kv = keys_of(ov);
                    assert(kv[y] == ov[y].0 && kv[x as int] == ov[x as int].0);
                    assert(kv.no_duplicates());
                }
            }
            proof {
                assert(distinct_in_order(keys_of(ne)) == distinct_in_order(ks)) by {
                    assert(keys_of(ne).drop_last() =~= ks);
                    assert(keys_of(ne).last() == e.0);
                }
            }
            let entry = (out[x].0.0.clone(), out[x].0.1.clone());
            let sum = out[x].1 + w;
            out.set(x, (entry, sum));
            proof {
                assert forall|y: int| 0 <= y < out.deep_view().len() implies #[trigger] out.deep_view()[y].1 == weight_of(ne, out.deep_view()[y].0) by {
                    assert(out.deep_view()[y] == out@[y].deep_view());
                    if y != x {
                        assert(out.deep_view()[y] == ov[y]);
                    }
                }
                assert(keys_of(out.deep_view()) =~= keys_of(ov)) by {
                    assert forall|y: int| 0 <= y < ov.len() implies out.deep_view()[y].0 == ov[y].0 by {
                        assert(out.deep_view()[y] == out@[y].deep_view());
                    }
                }
            }
        } else {
            proof {
                assert(!ks.contains(e.0)) by {
                    if ks.contains(e.0) {
                        assert(distinct_in_order(ks).contains(e.0));
                        let y = choose|y: int| 0 <= y < ov.len() && keys_of(ov)[y] == e.0;
                        assert(ov[y].0 == e.0);
                    }
                }
                lemma_weight_absent(pe, e.0);
            }
            out.push(((key.0.clone(), key.1.clone()), w));
            proof {
                assert(out.deep_view() =~= ov.push(e));
                assert forall|y: int| 0 <= y < out.deep_view().len() implies #[trigger] out.deep_view()[y].1 == weight_of(ne, out.deep_view()[y].0) by {
                    if y < ov.len() {
                        assert(out.deep_view()[y] == ov[y]);
                        assert(ov[y].0 != e.0) by {
                            assert(keys_of(ov)[y] == ov[y].0);
                        }
                    }
                }
                assert(keys_of(out.deep_view()) =~= keys_of(ov).push(e.0));
                assert(distinct_in_order(keys_of(ne)) == distinct_in_order(ks).push(e.0)) by {
                    assert(keys_of(ne).drop_last() =~= ks);
                    assert(keys_of(ne).last() == e.0);
                }
            }
        }
    }
    proof {
        assert(ev.take(ev.len() as int) =~= ev);
    }
    out
}

/// Keys absent from the entries weigh nothing.
proof fn lemma_weight_absent<K>(es: Seq<(K, usize)>, key: K)
    requires
        !keys_of(es).contains(key),
    ensures
        weight_of(es, key) == 0,
    decreases es.len(),
{
    if es.len() > 0 {
        let d = es.drop_last();
        assert(keys_of(es)[es.len() - 1] == es.last().0);
        assert forall|y: int| 0 <= y < d.len() implies #[trigger] keys_of(d)[y] != key by {
            assert(keys_of(es)[y] == d[y].0);
        }
        lemma_weight_absent(d, key);
    }
}

} // verus!
