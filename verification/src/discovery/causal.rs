//! Causal relations between activities, read off a directly-follows graph.

use vstd::prelude::*;
use crate::discovery::dfg::DFGEdge;
use crate::text::str_eq;

verus! {

/// The edges of a graph as ((source, target), count) entries.
pub open spec fn edge_entries(edges: Seq<DFGEdge>) -> Seq<((Seq<char>, Seq<char>), usize)> {
    edges.map_values(|e: DFGEdge| e.deep_view())
}

/// The count of the last entry for key `k`, if any: a later entry for the
/// same key replaces an earlier one.
pub open spec fn last_count(entries: Seq<((Seq<char>, Seq<char>), usize)>, k: (Seq<char>, Seq<char>)) -> Option<usize>
    decreases entries.len(),
{
    if entries.len() == 0 {
        None
    } else if entries.last().0 == k {
        Some(entries.last().1)
    } else {
        last_count(entries.drop_last(), k)
    }
}

/// `a` causes `b`: `b` follows `a` at least once, and `a` never follows `b`.
pub open spec fn alpha_causal(entries: Seq<((Seq<char>, Seq<char>), usize)>, a: Seq<char>, b: Seq<char>) -> bool {
    match last_count(entries, (a, b)) {
        Some(f) => f > 0 && match last_count(entries, (b, a)) {
            Some(r) => r == 0,
            None => true,
        },
        None => false,
    }
}

/// Causal relations: each (from, to) pair with its strength.
#[derive(Debug)]
pub struct CausalGraph {
    /// Distinct (from, to) pairs, each with its value.
    pub relations: Vec<((String, String), usize)>,
}

impl CausalGraph {
    /// The value recorded for (from, to), if the pair is related.
    pub fn get(&self, from: &str, to: &str) -> (res: Option<usize>)
        ensures
            match res {
                Some(v) => exists|x: int| 0 <= x < self.relations@.len() && #[trigger] self.relations.deep_view()[x] == ((from@, to@), v),
                None => forall|x: int| 0 <= x < self.relations@.len() ==> #[trigger] self.relations.deep_view()[x].0 != (from@, to@),
            },
    {
        for x in 0..self.relations.len()
            invariant
                forall|y: int| 0 <= y < x ==> #[trigger] self.relations.deep_view()[y].0 != (from@, to@),
        {
            let r = &self.relations[x];
            if str_eq(r.0.0.as_str(), from) && str_eq(r.0.1.as_str(), to) {
                proof {
                    assert(self.relations.deep_view()[x as int] == ((from@, to@), r.1));
                }
                return Some(r.1);
            }
            proof {
                assert(self.relations.deep_view()[x as int].0 == (r.0.0@, r.0.1@));
            }
        }
        None
    }
}

/// The count of the last edge from `a` to `b`.
fn last_edge_count(edges: &[DFGEdge], a: &str, b: &str) -> (res: Option<usize>)
    ensures
        res == last_count(edge_entries(edges@), (a@, b@)),
{
    let ghost all = edge_entries(edges@);
    let mut i = edges.len();
    proof {
        assert(all.take(i as int) =~= all);
    }
    while i > 0
        invariant
            i <= edges@.len(),
            all == edge_entries(edges@),
            last_count(all, (a@, b@)) == last_count(all.take(i as int), (a@, b@)),
        decreases i,
    {
        let e = &edges[i - 1];
        proof {
            assert(all.take(i as int).drop_last() =~= all.take(i - 1));
            assert(all.take(i as int).last() == e.deep_view());
        }
        if str_eq(e.source.as_str(), a) && str_eq(e.target.as_str(), b) {
            return Some(e.count);
        }
        i = i - 1;
    }
    None
}

/// Discovers the causal relations of the alpha miner from the edges of a
/// directly-follows graph: (a, b) is causal, with value 1, when the edge
/// a→b has a positive count and b→a is absent or has count zero. A later
/// edge for the same pair replaces an earlier one.
pub fn discover_causal_alpha(dfg_edges: &[DFGEdge]) -> (res: CausalGraph)
    ensures
        forall|x: int, y: int| 0 <= x < y < res.relations@.len() ==> #[trigger] res.relations.deep_view()[x].0 != #[trigger] res.relations.deep_view()[y].0,
        forall|x: int| 0 <= x < res.relations@.len() ==> #[trigger] res.relations.deep_view()[x].1 == 1,
        forall|a: Seq<char>, b: Seq<char>| #[trigger] alpha_causal(edge_entries(dfg_edges@), a, b) <==>
            exists|x: int| 0 <= x < res.relations@.len() && #[trigger] res.relations.deep_view()[x].0 == (a, b),
{
    let ghost all = edge_entries(dfg_edges@);
    let mut out = CausalGraph { relations: Vec::new() };
    for i in 0..dfg_edges.len()
        invariant
            all == edge_entries(dfg_edges@),
            forall|x: int, y: int| 0 <= x < y < out.relations@.len() ==> #[trigger] out.relations.deep_view()[x].0 != #[trigger] out.relations.deep_view()[y].0,
            forall|x: int| 0 <= x < out.relations@.len() ==> #[trigger] out.relations.deep_view()[x].1 == 1,
            forall|x: int| 0 <= x < out.relations@.len() ==> alpha_causal(all, #[trigger] out.relations.deep_view()[x].0.0, out.relations.deep_view()[x].0.1),
            forall|j: int| 0 <= j < i && alpha_causal(all, #[trigger] all[j].0.0, all[j].0.1) ==>
                exists|x: int| 0 <= x < out.relations@.len() && #[trigger] out.relations.deep_view()[x].0 == all[j].0,
    {
        let ghost before = out.relations.deep_view();
        let e = &dfg_edges[i];
        proof {
            assert(all[i as int] == e.deep_view());
        }
        let forward = last_edge_count(dfg_edges, e.source.as_str(), e.target.as_str());
        let causal = match forward {
            Some(f) => f > 0 && match last_edge_count(dfg_edges, e.target.as_str(), e.source.as_str()) {
                Some(r) => r == 0,
                None => true,
            },
            None => false,
        };
        assert(causal == alpha_causal(all, e.source@, e.target@));
        if causal {
            let known = out.get(e.source.as_str(), e.target.as_str());
            if known.is_none() {
                out.relations.push(((e.source.clone(), e.target.clone()), 1));
                proof {
                    let now = out.relations.deep_view();
                    assert(now =~= before.push(((e.source@, e.target@), 1usize)));
                    assert(now[before.len() as int].0 == all[i as int].0);
                }
            }
        }
        proof {
            let now = out.relations.deep_view();
            assert(now.len() >= before.len());
            assert forall|x: int| 0 <= x < before.len() implies #[trigger] now[x] == before[x] by {}
            assert forall|j: int| 0 <= j < i + 1 && alpha_causal(all, #[trigger] all[j].0.0, all[j].0.1) implies
                exists|x: int| 0 <= x < now.len() && #[trigger] now[x].0 == all[j].0 by {
                if j < i {
                    let x = choose|x: int| 0 <= x < before.len() && #[trigger] before[x].0 == all[j].0;
                    assert(now[x] == before[x]);
                } else {
                    assert(all[j].0 == (e.source@, e.target@));
                    if now.len() == before.len() {
                        let x = choose|x: int| 0 <= x < now.len() && #[trigger] now[x] == ((e.source@, e.target@), now[x].1);
                        assert(now[x].0 == all[j].0);
                    } else {
                        assert(now[before.len() as int].0 == all[j].0);
                    }
                }
            }
        }
    }
    proof {
        assert forall|a: Seq<char>, b: Seq<char>| #[trigger] alpha_causal(all, a, b) implies
            exists|x: int| 0 <= x < out.relations@.len() && #[trigger] out.relations.deep_view()[x].0 == (a, b) by {
            lemma_last_count_some_in(all, (a, b));
            let j = choose|j: int| 0 <= j < all.len() && #[trigger] all[j].0 == (a, b);
            assert(alpha_causal(all, all[j].0.0, all[j].0.1));
        }
        assert forall|a: Seq<char>, b: Seq<char>| (exists|x: int| 0 <= x < out.relations@.len() && #[trigger] out.relations.deep_view()[x].0 == (a, b))
            implies #[trigger] alpha_causal(all, a, b) by {
            let x = choose|x: int| 0 <= x < out.relations@.len() && #[trigger] out.relations.deep_view()[x].0 == (a, b);
            assert(alpha_causal(all, out.relations.deep_view()[x].0.0, out.relations.deep_view()[x].0.1));
        }
    }
    out
}

/// An entry for `k` exists when `last_count` finds one.
pub proof fn lemma_last_count_some_in(entries: Seq<((Seq<char>, Seq<char>), usize)>, k: (Seq<char>, Seq<char>))
    requires
        last_count(entries, k) is Some,
    ensures
        exists|j: int| 0 <= j < entries.len() && #[trigger] entries[j].0 == k,
    decreases entries.len(),
{
    if entries.last().0 == k {
        assert(entries[entries.len() - 1].0 == k);
    } else {
        lemma_last_count_some_in(entries.drop_last(), k);
        let j = choose|j: int| 0 <= j < entries.drop_last().len() && #[trigger] entries.drop_last()[j].0 == k;
        assert(entries[j].0 == k);
    }
}

} // verus!
