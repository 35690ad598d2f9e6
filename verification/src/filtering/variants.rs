//! Filter by the most frequent variants.

use vstd::prelude::*;
use crate::event_log::{EventLog, TraceView, trace_names, log_variants, select_traces, trace_activity_names};
use crate::counting::{seq_count, is_count_table, order_by_count_desc, is_permutation_of_range, strings_eq, clone_strings};

verus! {

/// `sel` is a choice of the `k` most frequent variants of `vars`: distinct
/// variants that occur, `k` of them (or all when there are fewer), none
/// less frequent than a variant left out.
pub open spec fn is_top_k(vars: Seq<Seq<Seq<char>>>, k: nat, sel: Seq<Seq<Seq<char>>>) -> bool {
    &&& sel.len() <= k
    &&& (sel.len() == k || forall|v: Seq<Seq<char>>| vars.contains(v) ==> #[trigger] sel.contains(v))
    &&& forall|a: int, b: int| 0 <= a < b < sel.len() ==> #[trigger] sel[a] != #[trigger] sel[b]
    &&& forall|x: int| 0 <= x < sel.len() ==> vars.contains(#[trigger] sel[x])
    &&& forall|x: int, v: Seq<Seq<char>>|
        0 <= x < sel.len() && vars.contains(v) && !sel.contains(v) ==> seq_count(vars, #[trigger] sel[x]) >= #[trigger] seq_count(vars, v)
}

fn contains_variant(sel: &Vec<Vec<String>>, v: &Vec<String>) -> (res: bool)
    ensures
        res == sel.deep_view().contains(v.deep_view()),
{
    for k in 0..sel.len()
        invariant
            forall|j: int| 0 <= j < k ==> sel.deep_view()[j] != v.deep_view(),
    {
        if strings_eq(&sel[k], v) {
            proof {
                assert(sel.deep_view()[k as int] == v.deep_view());
            }
            return true;
        }
    }
    proof {
        if sel.deep_view().contains(v.deep_view()) {
            let j = choose|j: int| 0 <= j < sel.deep_view().len() && sel.deep_view()[j] == v.deep_view();
        }
    }
    false
}

/// Keeps the traces of the `k` most frequent variants; among variants of
/// equal frequency the choice is not fixed by the contract.
pub fn filter_variants_top_k(log: &EventLog, k: usize) -> (res: EventLog)
    ensures
        exists|sel: Seq<Seq<Seq<char>>>| is_top_k(log_variants(log@), k as nat, sel)
            && res@ == log@.filter(|t: TraceView| sel.contains(trace_names(t))),
{
    let ghost vars = log_variants(log@);
    let table = log.variants();
    let ghost tv = table.deep_view();
    let mut counts: Vec<usize> = Vec::new();
    for x in 0..table.len()
        invariant
            counts@.len() == x,
            forall|j: int| 0 <= j < x ==> counts@[j] == table@[j].1,
    {
        counts.push(table[x].1);
    }
    let perm = order_by_count_desc(&counts);
    let m = if k < perm.len() { k } else { perm.len() };
    let mut sel: Vec<Vec<String>> = Vec::new();
    for a in 0..m
        invariant
            m <= perm@.len(),
            perm@.len() == table@.len(),
            is_permutation_of_range(perm@, counts@.len() as int),
            counts@.len() == table@.len(),
            forall|j: int| 0 <= j < counts@.len() ==> counts@[j] == table@[j].1,
            forall|a: int, b: int| 0 <= a < b < perm@.len() ==> counts@[#[trigger] perm@[a] as int] >= counts@[#[trigger] perm@[b] as int],
            tv == table.deep_view(),
            is_count_table(tv, vars),
            sel@.len() == a,
            forall|j: int| 0 <= j < a ==> #[trigger] sel.deep_view()[j] == tv[perm@[j] as int].0,
    {
        let v = clone_strings(&table[perm[a]].0);
        let ghost before = sel.deep_view();
        sel.push(v);
        proof {
            assert forall|j: int| 0 <= j < a + 1 implies #[trigger] sel.deep_view()[j] == tv[perm@[j] as int].0 by {
                if j < a {
                    assert(sel.deep_view()[j] == before[j]);
                }
            }
        }
    }
    let ghost s = sel.deep_view();
    proof {
        assert(is_count_table(tv, vars));
        assert forall|a: int, b: int| 0 <= a < b < s.len() implies #[trigger] s[a] != #[trigger] s[b] by {
            assert(perm@[a] != perm@[b]);
        }
        assert forall|x: int| 0 <= x < s.len() implies vars.contains(#[trigger] s[x]) by {
            let y = perm@[x] as int;
            assert(tv[y].0 == s[x]);
        }
        assert forall|x: int, v: Seq<Seq<char>>|
            0 <= x < s.len() && vars.contains(v) && !s.contains(v) implies seq_count(vars, #[trigger] s[x]) >= #[trigger] seq_count(vars, v) by {
            let y = choose|y: int| 0 <= y < tv.len() && #[trigger] tv[y].0 == v;
            assert(perm@.contains(y as usize));
            let b = choose|b: int| 0 <= b < perm@.len() && perm@[b] == y as usize;
            if b < m {
                assert(s[b] == v);
                assert(s.contains(v));
            }
            assert(counts@[perm@[x] as int] >= counts@[perm@[b] as int]);
            assert(tv[perm@[x] as int].1 == table@[perm@[x] as int].1);
            assert(tv[perm@[b] as int].1 == table@[perm@[b] as int].1);
            assert(tv[perm@[x] as int].1 == seq_count(vars, tv[perm@[x] as int].0));
            assert(tv[y].1 == seq_count(vars, tv[y].0));
        }
        if s.len() != k {
            assert(m == perm@.len());
            assert forall|v: Seq<Seq<char>>| vars.contains(v) implies #[trigger] s.contains(v) by {
                let y = choose|y: int| 0 <= y < tv.len() && #[trigger] tv[y].0 == v;
                assert(perm@.contains(y as usize));
                let b = choose|b: int| 0 <= b < perm@.len() && perm@[b] == y as usize;
                assert(s[b] == v);
            }
        }
        assert(is_top_k(vars, k as nat, s));
    }
    let mut flags: Vec<bool> = Vec::new();
    for i in 0..log.traces.len()
        invariant
            s == sel.deep_view(),
            flags@.len() == i,
            forall|j: int| 0 <= j < i ==> #[trigger] flags@[j] == s.contains(trace_names(log@[j])),
    {
        let names = trace_activity_names(&log.traces[i]);
        let f = contains_variant(&sel, &names);
        proof {
            assert(log@[i as int] == log.traces@[i as int].deep_view());
        }
        flags.push(f);
    }
    select_traces(log, &flags, Ghost(|t: TraceView| s.contains(trace_names(t))))
}

} // verus!
