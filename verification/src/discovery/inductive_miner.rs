//! Inductive miner on the directly-follows graph: splits the activities by
//! an exclusive-choice, sequence, parallel or loop cut and mines each part,
//! falling back to a flower model when no cut applies.

use vstd::prelude::*;
use vstd::set_lib::{set_int_range, lemma_int_range, lemma_len_subset};
use crate::binary_relation::{BinaryRelation, is_path, reaches};
use crate::algorithms::transitive::transitive_closure;
use crate::counting::is_count_table;
use crate::discovery::dfg::{discover_dfg, log_activity_occurrences, log_follows_pairs};
use crate::event_log::{EventLog, TraceView};
use crate::process_tree::{ProcessTree, PtOperator};
use crate::text::str_eq;

verus! {

/// Relations over `n` nodes fit in memory: `n` rows of `(n + 63) / 64` words.
pub open spec fn fits(n: nat) -> bool {
    n * ((n + 63) / 64) <= usize::MAX
}

proof fn lemma_fits_smaller(m: nat, n: nat)
    requires
        m <= n,
        fits(n),
    ensures
        fits(m),
{
    assert((m + 63) / 64 <= (n + 63) / 64) by (nonlinear_arith)
        requires
            m <= n,
    ;
    assert(m * ((m + 63) / 64) <= n * ((n + 63) / 64)) by (nonlinear_arith)
        requires
            m <= n,
            (m + 63) / 64 <= (n + 63) / 64,
    ;
}

/// The number of distinct activities of a log.
pub open spec fn activity_count(log: Seq<TraceView>) -> nat {
    log_activity_occurrences(log).to_set().len()
}

/// The leaves of `t` are silent or labelled with one of `names`; inner
/// nodes have at least two children, loop nodes exactly two.
pub open spec fn mined_tree(t: ProcessTree, names: Seq<Seq<char>>) -> bool
    decreases t, 0nat,
{
    proof {
        assert(decreases_to!(t => t.children));
        assert(decreases_to!(t.children => t.children@));
    }
    match t.operator {
        None => t.children@.len() == 0 && match t.label {
            Some(l) => names.contains(l@),
            None => true,
        },
        Some(op) => {
            &&& t.label is None
            &&& t.children@.len() >= 2
            &&& (op == PtOperator::Loop ==> t.children@.len() == 2)
            &&& mined_forest(t.children@, names)
        },
    }
}

/// `mined_tree` for each tree of `cs`.
pub open spec fn mined_forest(cs: Seq<ProcessTree>, names: Seq<Seq<char>>) -> bool
    decreases cs, 1nat,
{
    cs.len() == 0 || (mined_forest(cs.drop_last(), names) && mined_tree(cs.last(), names))
}

/// A tree mined over some names is mined over any names that hold them.
proof fn lemma_mined_mono(t: ProcessTree, a: Seq<Seq<char>>, b: Seq<Seq<char>>)
    requires
        mined_tree(t, a),
        forall|x: Seq<char>| #[trigger] a.contains(x) ==> b.contains(x),
    ensures
        mined_tree(t, b),
    decreases t, 0nat,
{
    assert(decreases_to!(t => t.children));
    assert(decreases_to!(t.children => t.children@));
    if t.operator is Some {
        lemma_mined_forest_mono(t.children@, a, b);
    }
}

proof fn lemma_mined_forest_mono(cs: Seq<ProcessTree>, a: Seq<Seq<char>>, b: Seq<Seq<char>>)
    requires
        mined_forest(cs, a),
        forall|x: Seq<char>| #[trigger] a.contains(x) ==> b.contains(x),
    ensures
        mined_forest(cs, b),
    decreases cs, 1nat,
{
    if cs.len() > 0 {
        assert(decreases_to!(cs => cs[cs.len() - 1]));
        lemma_mined_forest_mono(cs.drop_last(), a, b);
        lemma_mined_mono(cs.last(), a, b);
    }
}

/// Groups of node indices below `n`: non-empty, without repeats, pairwise
/// disjoint, and at least two of them.
pub open spec fn is_cut(groups: Seq<Seq<usize>>, n: nat) -> bool {
    &&& groups.len() >= 2
    &&& forall|g: int| 0 <= g < groups.len() ==> (#[trigger] groups[g]).len() > 0 && groups[g].no_duplicates()
    &&& forall|g: int, k: int| 0 <= g < groups.len() && 0 <= k < groups[g].len() ==> #[trigger] groups[g][k] < n
    &&& forall|g: int, h: int, k: int, l: int|
        0 <= g < groups.len() && 0 <= h < groups.len() && g != h && 0 <= k < groups[g].len() && 0 <= l < groups[h].len()
            ==> #[trigger] groups[g][k] != #[trigger] groups[h][l]
}

/// A repeat-free group of indices below `n` that misses `m < n` has fewer
/// than `n` members.
proof fn lemma_group_smaller(g: Seq<usize>, n: nat, m: usize)
    requires
        g.no_duplicates(),
        forall|k: int| 0 <= k < g.len() ==> g[k] < n,
        m < n,
        !g.contains(m),
    ensures
        g.len() < n,
{
    let f = |x: usize| x as int;
    let gi = g.map_values(f);
    assert forall|i: int, j: int| 0 <= i < j < gi.len() implies gi[i] != gi[j] by {
        assert(g[i] != g[j]);
    }
    assert(gi.no_duplicates());
    gi.unique_seq_to_set();
    let r = set_int_range(0, n as int).remove(m as int);
    lemma_int_range(0, n as int);
    assert forall|x: int| gi.to_set().contains(x) implies r.contains(x) by {
        let k = choose|k: int| 0 <= k < gi.len() && gi[k] == x;
        assert(g[k] != m);
    }
    lemma_len_subset(gi.to_set(), r);
}

/// Each group of a cut is smaller than the whole.
proof fn lemma_cut_groups_smaller(groups: Seq<Seq<usize>>, n: nat, g: int)
    requires
        is_cut(groups, n),
        0 <= g < groups.len(),
    ensures
        groups[g].len() < n,
{
    let h = if g == 0 { 1int } else { 0int };
    assert(groups[h].len() > 0);
    let m = groups[h][0];
    assert(m < n);
    assert forall|k: int| 0 <= k < groups[g].len() implies groups[g][k] != m by {
        assert(groups[g][k] != groups[h][0]);
    }
    lemma_group_smaller(groups[g], n, m);
}

/// The directly-follows graph of a (part of a) log, over the activities
/// `alphabet` by index.
struct InductiveDFG {
    alphabet: Vec<String>,
    direct: BinaryRelation,
    starts: Vec<bool>,
    ends: Vec<bool>,
    skip: bool,
}

impl InductiveDFG {
    spec fn names(&self) -> Seq<Seq<char>> {
        self.alphabet.deep_view()
    }

    spec fn wf(&self) -> bool {
        &&& self.direct.wf()
        &&& self.direct.n == self.alphabet@.len()
        &&& self.starts@.len() == self.alphabet@.len()
        &&& self.ends@.len() == self.alphabet@.len()
        &&& self.names().no_duplicates()
        &&& fits(self.alphabet@.len() as nat)
    }
}

/// The part of `dfg` on the activities of `group`: their edges, starts and
/// ends, without the empty-trace flag.
/// The activity names of a group of activities of `dfg`, in the group's order.
spec fn group_names(dfg: &InductiveDFG, g: Seq<usize>) -> Seq<Seq<char>> {
    Seq::new(g.len(), |k: int| dfg.names()[g[k] as int])
}

fn project(dfg: &InductiveDFG, group: &Vec<usize>) -> (res: InductiveDFG)
    requires
        dfg.wf(),
        group@.no_duplicates(),
        forall|k: int| 0 <= k < group@.len() ==> group@[k] < dfg.alphabet@.len(),
        group@.len() <= dfg.alphabet@.len(),
    ensures
        res.wf(),
        res.alphabet@.len() == group@.len(),
        forall|k: int| 0 <= k < group@.len() ==> #[trigger] res.names()[k] == dfg.names()[group@[k] as int],
{
    let m = group.len();
    proof {
        lemma_fits_smaller(m as nat, dfg.alphabet@.len() as nat);
    }
    let mut alphabet: Vec<String> = Vec::new();
    let mut starts: Vec<bool> = Vec::new();
    let mut ends: Vec<bool> = Vec::new();
    for i in 0..m
        invariant
            dfg.wf(),
            m == group@.len(),
            forall|k: int| 0 <= k < group@.len() ==> group@[k] < dfg.alphabet@.len(),
            alphabet@.len() == i,
            starts@.len() == i,
            ends@.len() == i,
            forall|k: int| 0 <= k < i ==> #[trigger] alphabet.deep_view()[k] == dfg.names()[group@[k] as int],
    {
        let a = group[i];
        let ghost before = alphabet.deep_view();
        alphabet.push(dfg.alphabet[a].clone());
        proof {
            assert(alphabet.deep_view() =~= before.push(dfg.names()[a as int]));
        }
        starts.push(dfg.starts[a]);
        ends.push(dfg.ends[a]);
    }
    let mut direct = BinaryRelation::new(m);
    for i in 0..m
        invariant
            dfg.wf(),
            m == group@.len(),
            forall|k: int| 0 <= k < group@.len() ==> group@[k] < dfg.alphabet@.len(),
            direct.wf(),
            direct.n == m,
    {
        for j in 0..m
            invariant
                dfg.wf(),
                m == group@.len(),
                i < m,
                forall|k: int| 0 <= k < group@.len() ==> group@[k] < dfg.alphabet@.len(),
                direct.wf(),
                direct.n == m,
        {
            if dfg.direct.is_edge(group[i], group[j]) {
                direct.add_edge(i, j);
            }
        }
    }
    proof {
        let nv = alphabet.deep_view();
        assert forall|x: int, y: int| 0 <= x < y < nv.len() implies nv[x] != nv[y] by {
            assert(group@[x] != group@[y]);
        }
    }
    InductiveDFG { alphabet, direct, starts, ends, skip: false }
}

/// `u` is a member of one of the groups.
pub open spec fn in_groups(groups: Seq<Seq<usize>>, u: usize) -> bool {
    exists|g: int, k: int| 0 <= g < groups.len() && 0 <= k < groups[g].len() && #[trigger] groups[g][k] == u
}

/// The groups are non-empty, without repeats, pairwise disjoint, and
/// together hold exactly the indices `u` with `mask[u]`.
pub open spec fn partitions(groups: Seq<Seq<usize>>, mask: Seq<bool>) -> bool {
    &&& forall|g: int| 0 <= g < groups.len() ==> (#[trigger] groups[g]).len() > 0 && groups[g].no_duplicates()
    &&& forall|g: int, h: int, k: int, l: int|
        0 <= g < groups.len() && 0 <= h < groups.len() && g != h && 0 <= k < groups[g].len() && 0 <= l < groups[h].len()
            ==> #[trigger] groups[g][k] != #[trigger] groups[h][l]
    &&& forall|g: int, k: int| 0 <= g < groups.len() && 0 <= k < groups[g].len() ==> #[trigger] groups[g][k] < mask.len() && mask[groups[g][k] as int]
    &&& forall|u: usize| u < mask.len() && mask[u as int] ==> #[trigger] in_groups(groups, u)
}

/// The components of the nodes `u` with `mask[u]` under `link`: each node
/// `v` not yet placed, in increasing order, opens a group of itself and the
/// unplaced masked nodes that `link` relates it to.
fn components(link: &BinaryRelation, mask: &Vec<bool>) -> (res: Vec<Vec<usize>>)
    requires
        link.wf(),
        mask@.len() == link.n,
    ensures
        partitions(res.deep_view(), mask@),
        forall|g: int, k: int| 0 <= g < res.deep_view().len() && 0 <= k < res.deep_view()[g].len()
            ==> res.deep_view()[g][k] == res.deep_view()[g][0] || #[trigger] link.edge(res.deep_view()[g][0] as int, res.deep_view()[g][k] as int),
        forall|g: int, h: int| 0 <= g < h < res.deep_view().len()
            ==> !#[trigger] link.edge(res.deep_view()[g][0] as int, res.deep_view()[h][0] as int),
{
    let n = mask.len();
    let mut assigned: Vec<bool> = Vec::new();
    for i in 0..n
        invariant
            assigned@.len() == i,
            forall|k: int| 0 <= k < i ==> !assigned@[k],
    {
        assigned.push(false);
    }
    let mut groups: Vec<Vec<usize>> = Vec::new();
    for v in 0..n
        invariant
            n == mask@.len(),
            n == link.n,
            link.wf(),
            assigned@.len() == n,
            partitions_prefix(groups.deep_view(), mask@),
            forall|u: usize| u < n ==> (assigned@[u as int] <==> #[trigger] in_groups(groups.deep_view(), u)),
            forall|u: usize| u < v && mask@[u as int] ==> #[trigger] assigned@[u as int],
            forall|g: int, k: int| 0 <= g < groups.deep_view().len() && 0 <= k < groups.deep_view()[g].len()
                ==> groups.deep_view()[g][k] == groups.deep_view()[g][0] || #[trigger] link.edge(groups.deep_view()[g][0] as int, groups.deep_view()[g][k] as int),
            forall|g: int, h: int| 0 <= g < h < groups.deep_view().len()
                ==> !#[trigger] link.edge(groups.deep_view()[g][0] as int, groups.deep_view()[h][0] as int),
            forall|g: int| 0 <= g < groups.deep_view().len() ==> #[trigger] groups.deep_view()[g][0] < v,
            forall|g: int, x: int| 0 <= g < groups.deep_view().len() && 0 <= x < n && mask@[x] && !assigned@[x]
                ==> !#[trigger] link.edge(groups.deep_view()[g][0] as int, x),
    {
        if mask[v] && !assigned[v] {
            let ghost gs = groups.deep_view();
            let ghost a0 = assigned@;
            let mut g: Vec<usize> = Vec::new();
            for u in v..n
                invariant
                    n == mask@.len(),
                    n == link.n,
                    link.wf(),
                    v < n,
                    mask@[v as int],
                    !a0[v as int],
                    assigned@.len() == n,
                    a0.len() == n,
                    gs == groups.deep_view(),
                    partitions_prefix(gs, mask@),
                    forall|x: usize| x < n ==> (a0[x as int] <==> #[trigger] in_groups(gs, x)),
                    u > v ==> g@.len() > 0 && g@[0] == v,
                    forall|a: int, b: int| 0 <= a < b < g@.len() ==> g@[a] < g@[b],
                    forall|k: int| 0 <= k < g@.len() ==> v <= #[trigger] g@[k] < u && mask@[g@[k] as int] && !a0[g@[k] as int],
                    forall|x: int| 0 <= x < n ==> (#[trigger] assigned@[x] <==> (a0[x] || g@.contains(x as usize))),
                    forall|k: int| 0 <= k < g@.len() ==> g@[k] == v || #[trigger] link.edge(v as int, g@[k] as int),
                    forall|x: int| v < x < u && mask@[x] && !a0[x] && !g@.contains(x as usize) ==> !#[trigger] link.edge(v as int, x),
            {
                let ghost g_before = g@;
                let ghost a_before = assigned@;
                if mask[u] && !assigned[u] && (u == v || link.is_edge(v, u)) {
                    proof {
                        assert(!a0[u as int]);
                        assert(!g@.contains(u)) by {
                            if g@.contains(u) {
                                let k = choose|k: int| 0 <= k < g@.len() && g@[k] == u;
                                assert(g@[k] < u);
                            }
                        }
                    }
                    let ghost gp = g@;
                    let ghost ap = assigned@;
                    g.push(u);
                    assigned.set(u, true);
                    proof {
                        assert(g@ =~= gp.push(u));
                        assert forall|x: int| 0 <= x < n implies (#[trigger] assigned@[x] <==> (a0[x] || g@.contains(x as usize))) by {
                            if x == u as int {
                                assert(g@[g@.len() - 1] == u);
                            } else {
                                assert(ap[x] <==> (a0[x] || gp.contains(x as usize)));
                                if g@.contains(x as usize) {
                                    let k = choose|k: int| 0 <= k < g@.len() && g@[k] == x as usize;
                                    assert(gp[k] == x as usize);
                                }
                                if gp.contains(x as usize) {
                                    let k = choose|k: int| 0 <= k < gp.len() && gp[k] == x as usize;
                                    assert(g@[k] == x as usize);
                                }
                            }
                        }
                    }
                }
                proof {
                    assert(g@ == g_before || g@ == g_before.push(u));
                    assert forall|x: int| v < x < u + 1 && mask@[x] && !a0[x] && !g@.contains(x as usize)
                        implies !#[trigger] link.edge(v as int, x) by {
                        if x < u {
                            if g_before.contains(x as usize) {
                                let k = choose|k: int| 0 <= k < g_before.len() && g_before[k] == x as usize;
                                assert(g@[k] == x as usize);
                            }
                        } else {
                            assert(!a_before[x]) by {
                                if g_before.contains(x as usize) {
                                    let k = choose|k: int| 0 <= k < g_before.len() && g_before[k] == x as usize;
                                    assert(g@[k] == x as usize);
                                }
                            }
                            if g@ == g_before.push(u) {
                                assert(g@[g_before.len() as int] == u);
                            }
                        }
                    }
                }
            }
            proof {
                assert(g.deep_view() =~= g@);
            }
            let ghost gv = g@;
            groups.push(g);
            proof {
                let ng = groups.deep_view();
                assert(ng =~= gs.push(gv));
                assert forall|x: usize| x < n implies (assigned@[x as int] <==> #[trigger] in_groups(ng, x)) by {
                    if in_groups(gs, x) {
                        let (g1, k1) = choose|g1: int, k1: int| 0 <= g1 < gs.len() && 0 <= k1 < gs[g1].len() && #[trigger] gs[g1][k1] == x;
                        assert(ng[g1][k1] == x);
                    }
                    if gv.contains(x) {
                        let k1 = choose|k1: int| 0 <= k1 < gv.len() && gv[k1] == x;
                        assert(ng[gs.len() as int][k1] == x);
                    }
                    if in_groups(ng, x) {
                        let (g1, k1) = choose|g1: int, k1: int| 0 <= g1 < ng.len() && 0 <= k1 < ng[g1].len() && #[trigger] ng[g1][k1] == x;
                        if g1 < gs.len() {
                            assert(gs[g1][k1] == x);
                        } else {
                            assert(gv[k1] == x);
                        }
                    }
                }
                assert(partitions_prefix(ng, mask@)) by {
                    assert forall|g1: int, h1: int, k1: int, l1: int|
                        0 <= g1 < ng.len() && 0 <= h1 < ng.len() && g1 != h1 && 0 <= k1 < ng[g1].len() && 0 <= l1 < ng[h1].len()
                        implies #[trigger] ng[g1][k1] != #[trigger] ng[h1][l1] by {
                        if g1 == gs.len() {
                            assert(!a0[ng[g1][k1] as int]);
                            assert(in_groups(gs, ng[h1][l1]));
                        } else if h1 == gs.len() {
                            assert(!a0[ng[h1][l1] as int]);
                            assert(in_groups(gs, ng[g1][k1]));
                        }
                    }
                }
            }
        }
    }
    proof {
        let gv = groups.deep_view();
        assert forall|g: int| 0 <= g < gv.len() implies (#[trigger] gv[g]).len() > 0 && gv[g].no_duplicates() by {
            assert forall|a: int, b: int| 0 <= a < b < gv[g].len() implies gv[g][a] != gv[g][b] by {
                assert(gv[g][a] < gv[g][b]);
            }
        }
    }
    groups
}

/// `partitions` without the coverage clause, with increasing groups.
pub open spec fn partitions_prefix(groups: Seq<Seq<usize>>, mask: Seq<bool>) -> bool {
    &&& forall|g: int| 0 <= g < groups.len() ==> (#[trigger] groups[g]).len() > 0
    &&& forall|g: int, a: int, b: int| 0 <= g < groups.len() && 0 <= a < b < groups[g].len() ==> #[trigger] groups[g][a] < #[trigger] groups[g][b]
    &&& forall|g: int, h: int, k: int, l: int|
        0 <= g < groups.len() && 0 <= h < groups.len() && g != h && 0 <= k < groups[g].len() && 0 <= l < groups[h].len()
            ==> #[trigger] groups[g][k] != #[trigger] groups[h][l]
    &&& forall|g: int, k: int| 0 <= g < groups.len() && 0 <= k < groups[g].len() ==> #[trigger] groups[g][k] < mask.len() && mask[groups[g][k] as int]
}

/// Every node is selected.
pub open spec fn all_nodes(n: nat) -> Seq<bool> {
    Seq::new(n, |i: int| true)
}

/// The nodes `0..n` are grouped by `label`: each node is labelled with one
/// of the distinct representatives `reps`, and each representative with
/// itself.
pub open spec fn labelled(label: Seq<usize>, reps: Seq<usize>, n: nat) -> bool {
    &&& label.len() == n
    &&& reps.no_duplicates()
    &&& forall|t: int| 0 <= t < reps.len() ==> #[trigger] reps[t] < n && label[reps[t] as int] == reps[t]
    &&& forall|u: int| 0 <= u < n ==> reps.contains(#[trigger] label[u])
}

/// The groups of a labelling, in the order of `reps`, each in increasing
/// order of node.
fn materialize(label: &Vec<usize>, reps: &Vec<usize>) -> (res: Vec<Vec<usize>>)
    requires
        labelled(label@, reps@, label@.len() as nat),
    ensures
        partitions(res.deep_view(), all_nodes(label@.len() as nat)),
        res@.len() == reps@.len(),
        forall|g: int, k: int| 0 <= g < res.deep_view().len() && 0 <= k < res.deep_view()[g].len()
            ==> label@[#[trigger] res.deep_view()[g][k] as int] == reps@[g],
{
    let n = label.len();
    let ghost mask = all_nodes(n as nat);
    let mut groups: Vec<Vec<usize>> = Vec::new();
    for t in 0..reps.len()
        invariant
            n == label@.len(),
            mask == all_nodes(n as nat),
            labelled(label@, reps@, n as nat),
            groups@.len() == t,
            forall|g: int| 0 <= g < t ==> (#[trigger] groups.deep_view()[g]).len() > 0 && groups.deep_view()[g].no_duplicates(),
            forall|g: int, k: int| 0 <= g < t && 0 <= k < groups.deep_view()[g].len() ==> #[trigger] groups.deep_view()[g][k] < n
                && label@[groups.deep_view()[g][k] as int] == reps@[g],
            forall|g: int, u: usize| 0 <= g < t && u < n && label@[u as int] == reps@[g] ==> #[trigger] groups.deep_view()[g].contains(u),
    {
        let r = reps[t];
        let mut g: Vec<usize> = Vec::new();
        for u in 0..n
            invariant
                n == label@.len(),
                labelled(label@, reps@, n as nat),
                t < reps@.len(),
                r == reps@[t as int],
                forall|a: int, b: int| 0 <= a < b < g@.len() ==> g@[a] < g@[b],
                forall|k: int| 0 <= k < g@.len() ==> #[trigger] g@[k] < u && label@[g@[k] as int] == r,
                forall|x: usize| x < u && label@[x as int] == r ==> #[trigger] g@.contains(x),
        {
            if label[u] == r {
                let ghost gp = g@;
                g.push(u);
                proof {
                    assert forall|x: usize| x < u + 1 && label@[x as int] == r implies #[trigger] g@.contains(x) by {
                        if x < u {
                            assert(gp.contains(x));
                            let k = choose|k: int| 0 <= k < gp.len() && gp[k] == x;
                            assert(g@[k] == x);
                        } else {
                            assert(g@[g@.len() - 1] == u);
                        }
                    }
                }
            }
        }
        proof {
            assert(label@[r as int] == r);
            assert(r < n);
            assert(g@.contains(r));
            assert(g.deep_view() =~= g@);
            assert forall|a: int, b: int| 0 <= a < b < g@.len() implies g@[a] != g@[b] by {
                assert(g@[a] < g@[b]);
            }
            assert forall|u: usize| u < n && label@[u as int] == r implies #[trigger] g@.contains(u) by {}
        }
        let ghost before = groups.deep_view();
        let ghost gg = g@;
        groups.push(g);
        proof {
            assert(groups.deep_view() =~= before.push(gg));
            assert forall|g1: int, u: usize| 0 <= g1 < t + 1 && u < n && label@[u as int] == reps@[g1]
                implies #[trigger] groups.deep_view()[g1].contains(u) by {
                if g1 < t {
                    assert(before[g1].contains(u));
                } else {
                    assert(gg.contains(u));
                }
            }
        }
    }
    proof {
        let gv = groups.deep_view();
        assert forall|g: int, h: int, k: int, l: int|
            0 <= g < gv.len() && 0 <= h < gv.len() && g != h && 0 <= k < gv[g].len() && 0 <= l < gv[h].len()
            implies #[trigger] gv[g][k] != #[trigger] gv[h][l] by {
            assert(reps@[g] != reps@[h]);
        }
        assert forall|u: usize| u < mask.len() && mask[u as int] implies #[trigger] in_groups(gv, u) by {
            assert(reps@.contains(label@[u as int]));
            let t = choose|t: int| 0 <= t < reps@.len() && reps@[t] == label@[u as int];
            assert(groups.deep_view()[t].contains(u));
            assert(gv[t].contains(u));
            let k = choose|k: int| 0 <= k < gv[t].len() && gv[t][k] == u;
            assert(gv[t][k] == u);
        }
    }
    groups
}

/// Nodes `a` and `b` keep their groups apart under the sequence rule
/// (one reaches the other only one way) or, under the parallel rule, do
/// not directly follow each other both ways.
pub open spec fn merge_conflict(reach: BinaryRelation, direct: BinaryRelation, parallel: bool, a: int, b: int) -> bool {
    if parallel {
        !(direct.edge(a, b) && direct.edge(b, a))
    } else {
        reach.edge(a, b) != reach.edge(b, a)
    }
}

/// Two distinct activities that do not directly follow each other both
/// ways: the parallel cut keeps them in one group.
pub open spec fn conflict(d: BinaryRelation, a: int, b: int) -> bool {
    0 <= a < d.n && 0 <= b < d.n && a != b && !(d.edge(a, b) && d.edge(b, a))
}

/// Consecutive nodes of `p` conflict.
pub open spec fn is_conflict_path(d: BinaryRelation, p: Seq<int>) -> bool {
    &&& p.len() >= 1
    &&& forall|k: int| 0 <= k < p.len() - 1 ==> #[trigger] conflict(d, p[k], p[k + 1])
}

/// Two activities that reach each other both ways or neither way: the
/// sequence cut does not order them.
pub open spec fn unordered(r: BinaryRelation, a: int, b: int) -> bool {
    0 <= a < r.n && 0 <= b < r.n && r.edge(a, b) == r.edge(b, a)
}

/// Consecutive nodes of `p` are unordered.
pub open spec fn is_unordered_path(r: BinaryRelation, p: Seq<int>) -> bool {
    &&& p.len() >= 1
    &&& forall|k: int| 0 <= k < p.len() - 1 ==> #[trigger] unordered(r, p[k], p[k + 1])
}

/// `u` and `v` are equal or linked by a chain of unordered pairs.
pub open spec fn unordered_linked(r: BinaryRelation, u: int, v: int) -> bool {
    exists|p: Seq<int>| #[trigger] is_unordered_path(r, p) && p[0] == u && p.last() == v
}

proof fn lemma_linked_refl(r: BinaryRelation, u: int)
    ensures
        unordered_linked(r, u, u),
{
    let p = seq![u];
    assert(is_unordered_path(r, p));
}

proof fn lemma_linked_step(r: BinaryRelation, u: int, v: int, w: int)
    requires
        unordered_linked(r, u, v),
        unordered(r, v, w),
    ensures
        unordered_linked(r, u, w),
{
    let p = choose|p: Seq<int>| #[trigger] is_unordered_path(r, p) && p[0] == u && p.last() == v;
    let q = p.push(w);
    assert forall|k: int| 0 <= k < q.len() - 1 implies #[trigger] unordered(r, q[k], q[k + 1]) by {
        if k < p.len() - 1 {
            assert(q[k] == p[k] && q[k + 1] == p[k + 1]);
            assert(unordered(r, p[k], p[k + 1]));
        } else {
            assert(q[k] == v && q[k + 1] == w);
        }
    }
    assert(is_unordered_path(r, q));
    assert(q[0] == u && q.last() == w);
}

proof fn lemma_linked_prefix(r: BinaryRelation, u: int, p: Seq<int>, m: int)
    requires
        is_unordered_path(r, p),
        unordered_linked(r, u, p[0]),
        1 <= m <= p.len(),
    ensures
        unordered_linked(r, u, p[m - 1]),
    decreases m,
{
    if m > 1 {
        lemma_linked_prefix(r, u, p, m - 1);
        let k = m - 2;
        assert(unordered(r, p[k], p[k + 1]));
        lemma_linked_step(r, u, p[m - 2], p[m - 1]);
    }
}

proof fn lemma_linked_trans(r: BinaryRelation, u: int, v: int, w: int)
    requires
        unordered_linked(r, u, v),
        unordered_linked(r, v, w),
    ensures
        unordered_linked(r, u, w),
{
    let p = choose|p: Seq<int>| #[trigger] is_unordered_path(r, p) && p[0] == v && p.last() == w;
    lemma_linked_prefix(r, u, p, p.len() as int);
}

proof fn lemma_linked_sym(r: BinaryRelation, u: int, v: int)
    requires
        unordered_linked(r, u, v),
    ensures
        unordered_linked(r, v, u),
{
    let p = choose|p: Seq<int>| #[trigger] is_unordered_path(r, p) && p[0] == u && p.last() == v;
    let q = Seq::new(p.len(), |i: int| p[p.len() - 1 - i]);
    assert forall|k: int| 0 <= k < q.len() - 1 implies #[trigger] unordered(r, q[k], q[k + 1]) by {
        let j = p.len() - 2 - k;
        assert(unordered(r, p[j], p[j + 1]));
        assert(q[k] == p[j + 1] && q[k + 1] == p[j]);
    }
    assert(is_unordered_path(r, q));
    assert(q[0] == v && q.last() == u);
}

/// `u` and `v` are equal or linked by a chain of conflicts.
pub open spec fn tied(d: BinaryRelation, u: int, v: int) -> bool {
    exists|p: Seq<int>| #[trigger] is_conflict_path(d, p) && p[0] == u && p.last() == v
}

proof fn lemma_tied_refl(d: BinaryRelation, u: int)
    ensures
        tied(d, u, u),
{
    let p = seq![u];
    assert(is_conflict_path(d, p));
}

proof fn lemma_tied_step(d: BinaryRelation, u: int, v: int, w: int)
    requires
        tied(d, u, v),
        conflict(d, v, w),
    ensures
        tied(d, u, w),
{
    let p = choose|p: Seq<int>| #[trigger] is_conflict_path(d, p) && p[0] == u && p.last() == v;
    let q = p.push(w);
    assert forall|k: int| 0 <= k < q.len() - 1 implies #[trigger] conflict(d, q[k], q[k + 1]) by {
        if k < p.len() - 1 {
            assert(q[k] == p[k] && q[k + 1] == p[k + 1]);
            assert(conflict(d, p[k], p[k + 1]));
        } else {
            assert(q[k] == v && q[k + 1] == w);
        }
    }
    assert(is_conflict_path(d, q));
    assert(q[0] == u && q.last() == w);
}

proof fn lemma_tied_trans(d: BinaryRelation, u: int, v: int, w: int)
    requires
        tied(d, u, v),
        tied(d, v, w),
    ensures
        tied(d, u, w),
{
    let p = choose|p: Seq<int>| #[trigger] is_conflict_path(d, p) && p[0] == v && p.last() == w;
    lemma_tied_prefix(d, u, p, p.len() as int);
    assert(p.take(p.len() as int) =~= p);
}

proof fn lemma_tied_prefix(d: BinaryRelation, u: int, p: Seq<int>, m: int)
    requires
        is_conflict_path(d, p),
        tied(d, u, p[0]),
        1 <= m <= p.len(),
    ensures
        tied(d, u, p[m - 1]),
    decreases m,
{
    if m > 1 {
        lemma_tied_prefix(d, u, p, m - 1);
        let k = m - 2;
        assert(conflict(d, p[k], p[k + 1]));
        lemma_tied_step(d, u, p[m - 2], p[m - 1]);
    }
}

proof fn lemma_tied_sym(d: BinaryRelation, u: int, v: int)
    requires
        tied(d, u, v),
    ensures
        tied(d, v, u),
{
    let p = choose|p: Seq<int>| #[trigger] is_conflict_path(d, p) && p[0] == u && p.last() == v;
    let q = Seq::new(p.len(), |i: int| p[p.len() - 1 - i]);
    assert forall|k: int| 0 <= k < q.len() - 1 implies #[trigger] conflict(d, q[k], q[k + 1]) by {
        let j = p.len() - 2 - k;
        assert(conflict(d, p[j], p[j + 1]));
        assert(q[k] == p[j + 1] && q[k + 1] == p[j]);
    }
    assert(is_conflict_path(d, q));
    assert(q[0] == v && q.last() == u);
}

/// When no two nodes of different labels conflict, tied nodes share a label.
proof fn lemma_tied_same_label(d: BinaryRelation, label: Seq<usize>, u: int, v: int)
    requires
        label.len() == d.n,
        forall|a: int, b: int| 0 <= a < label.len() && 0 <= b < label.len() && #[trigger] label[a] != #[trigger] label[b]
            ==> !conflict(d, a, b),
        tied(d, u, v),
        0 <= u < label.len(),
    ensures
        0 <= v < label.len(),
        label[u] == label[v],
{
    let p = choose|p: Seq<int>| #[trigger] is_conflict_path(d, p) && p[0] == u && p.last() == v;
    lemma_path_same_label(d, label, p, p.len() as int);
}

proof fn lemma_path_same_label(d: BinaryRelation, label: Seq<usize>, p: Seq<int>, m: int)
    requires
        label.len() == d.n,
        forall|a: int, b: int| 0 <= a < label.len() && 0 <= b < label.len() && #[trigger] label[a] != #[trigger] label[b]
            ==> !conflict(d, a, b),
        is_conflict_path(d, p),
        0 <= p[0] < label.len(),
        1 <= m <= p.len(),
    ensures
        0 <= p[m - 1] < label.len(),
        label[p[0]] == label[p[m - 1]],
    decreases m,
{
    if m > 1 {
        lemma_path_same_label(d, label, p, m - 1);
        let k = m - 2;
        assert(conflict(d, p[k], p[k + 1]));
    }
}

/// Some node labelled `ri` and some node labelled `rj` keep their groups
/// apart under the rule of the cut.
pub open spec fn pair_conflicts(old: Seq<usize>, ri: usize, rj: usize, reach: BinaryRelation, direct: BinaryRelation, parallel: bool) -> bool {
    exists|a: int, b: int| 0 <= a < old.len() && 0 <= b < old.len() && #[trigger] old[a] == ri && #[trigger] old[b] == rj
        && merge_conflict(reach, direct, parallel, a, b)
}

/// Whether the groups represented by `ri` and `rj` (in the labelling `old`)
/// merge: for the sequence cut when every pair of their nodes either
/// reaches each other both ways or neither way, for the parallel cut when
/// some pair of their nodes does not directly follow each other both ways.
fn mergeable(old: &Vec<usize>, ri: usize, rj: usize, reach: &BinaryRelation, direct: &BinaryRelation, parallel: bool) -> (res: bool)
    requires
        reach.wf(),
        direct.wf(),
    ensures
        res == if parallel {
            pair_conflicts(old@, ri, rj, *reach, *direct, parallel)
        } else {
            !pair_conflicts(old@, ri, rj, *reach, *direct, parallel)
        },
{
    let n = old.len();
    for a in 0..n
        invariant
            n == old@.len(),
            reach.wf(),
            direct.wf(),
            forall|x: int, y: int| 0 <= x < a && 0 <= y < n && #[trigger] old@[x] == ri && #[trigger] old@[y] == rj
                ==> !merge_conflict(*reach, *direct, parallel, x, y),
    {
        if old[a] == ri {
            for b in 0..n
                invariant
                    n == old@.len(),
                    reach.wf(),
                    direct.wf(),
                    a < n,
                    old@[a as int] == ri,
                    forall|x: int, y: int| 0 <= x < a && 0 <= y < n && #[trigger] old@[x] == ri && #[trigger] old@[y] == rj
                        ==> !merge_conflict(*reach, *direct, parallel, x, y),
                    forall|y: int| 0 <= y < b && #[trigger] old@[y] == rj ==> !merge_conflict(*reach, *direct, parallel, a as int, y),
            {
                if old[b] == rj {
                    if parallel {
                        if !(direct.is_edge(a, b) && direct.is_edge(b, a)) {
                            return true;
                        }
                    } else if reach.is_edge(a, b) != reach.is_edge(b, a) {
                        return false;
                    }
                }
            }
        }
    }
    !parallel
}

/// One merging pass over the groups in the order of `reps`: each group not
/// yet merged absorbs every later unmerged group it merges with. Returns the
/// representatives of the groups left.
fn merge_pass(label: &mut Vec<usize>, reps: &Vec<usize>, reach: &BinaryRelation, direct: &BinaryRelation, parallel: bool) -> (res: Vec<usize>)
    requires
        labelled(old(label)@, reps@, old(label)@.len() as nat),
        reach.wf(),
        direct.wf(),
        parallel ==> direct.n == old(label)@.len(),
        parallel ==> forall|u: int, v: int| 0 <= u < old(label)@.len() && 0 <= v < old(label)@.len() && old(label)@[u] == old(label)@[v]
            ==> #[trigger] tied(*direct, u, v),
        !parallel ==> reach.n == old(label)@.len(),
        !parallel ==> forall|u: int, v: int| 0 <= u < old(label)@.len() && 0 <= v < old(label)@.len() && old(label)@[u] == old(label)@[v]
            ==> #[trigger] unordered_linked(*reach, u, v),
    ensures
        labelled(final(label)@, res@, old(label)@.len() as nat),
        res@.len() <= reps@.len(),
        !parallel ==> forall|u: int, v: int| 0 <= u < final(label)@.len() && 0 <= v < final(label)@.len() && final(label)@[u] == final(label)@[v]
            ==> #[trigger] unordered_linked(*reach, u, v),
        parallel ==> forall|u: int, v: int| 0 <= u < final(label)@.len() && 0 <= v < final(label)@.len() && final(label)@[u] == final(label)@[v]
            ==> #[trigger] tied(*direct, u, v),
        parallel && res@.len() == reps@.len() ==> forall|a: int, b: int| 0 <= a < final(label)@.len() && 0 <= b < final(label)@.len()
            && #[trigger] final(label)@[a] != #[trigger] final(label)@[b] ==> !conflict(*direct, a, b),
{
    let n = label.len();
    let k = reps.len();
    let mut old: Vec<usize> = Vec::new();
    for u in 0..n
        invariant
            n == label@.len(),
            old@ == label@.take(u as int),
    {
        old.push(label[u]);
        proof {
            assert(label@.take(u + 1) =~= label@.take(u as int).push(label@[u as int]));
        }
    }
    proof {
        assert(label@.take(n as int) =~= label@);
        assert forall|t: int| 0 <= t < k implies old@[#[trigger] reps@[t] as int] == reps@[t] by {
            assert(label@[reps@[t] as int] == reps@[t]);
        }
    }
    let mut merged: Vec<bool> = Vec::new();
    for t in 0..k
        invariant
            merged@.len() == t,
            forall|x: int| 0 <= x < t ==> !merged@[x],
    {
        merged.push(false);
    }
    let ghost mut owner: Seq<int> = Seq::new(n as nat, |u: int| choose|t: int| 0 <= t < k && reps@[t] == label@[u]);
    proof {
        assert forall|u: int| 0 <= u < n implies 0 <= #[trigger] owner[u] < k && !merged@[owner[u]] && label@[u] == reps@[owner[u]] by {
            assert(reps@.contains(label@[u]));
        }
    }
    for i in 0..k
        invariant
            n == label@.len(),
            k == reps@.len(),
            merged@.len() == k,
            owner.len() == n,
            reach.wf(),
            direct.wf(),
            reps@.no_duplicates(),
            forall|t: int| 0 <= t < k ==> #[trigger] reps@[t] < n,
            forall|t: int| 0 <= t < k && !merged@[t] ==> label@[#[trigger] reps@[t] as int] == reps@[t],
            forall|u: int| 0 <= u < n ==> 0 <= #[trigger] owner[u] < k && !merged@[owner[u]] && label@[u] == reps@[owner[u]],
            old@.len() == n,
            parallel ==> direct.n == n,
            parallel ==> forall|u: int, v: int| 0 <= u < n && 0 <= v < n && label@[u] == label@[v] ==> #[trigger] tied(*direct, u, v),
            !parallel ==> reach.n == n,
            !parallel ==> forall|u: int, v: int| 0 <= u < n && 0 <= v < n && label@[u] == label@[v] ==> #[trigger] unordered_linked(*reach, u, v),
            forall|t: int| 0 <= t < k ==> old@[#[trigger] reps@[t] as int] == reps@[t],
            forall|u: int, t: int| 0 <= u < n && 0 <= t < k && old@[u] == reps@[t] && !merged@[t] ==> #[trigger] label@[u] == #[trigger] reps@[t],
            (forall|t: int| 0 <= t < k ==> !#[trigger] merged@[t]) ==> label@ == old@,
            parallel && (forall|t: int| 0 <= t < k ==> !#[trigger] merged@[t]) ==> forall|i2: int, j2: int| 0 <= i2 < i && i2 < j2 < k
                ==> !#[trigger] pair_conflicts(old@, reps@[i2], reps@[j2], *reach, *direct, parallel),
    {
        if !merged[i] {
            for j in (i + 1)..k
                invariant
                    n == label@.len(),
                    k == reps@.len(),
                    merged@.len() == k,
                    owner.len() == n,
                    i < k,
                    !merged@[i as int],
                    reach.wf(),
                    direct.wf(),
                    reps@.no_duplicates(),
                    forall|t: int| 0 <= t < k ==> #[trigger] reps@[t] < n,
                    forall|t: int| 0 <= t < k && !merged@[t] ==> label@[#[trigger] reps@[t] as int] == reps@[t],
                    forall|u: int| 0 <= u < n ==> 0 <= #[trigger] owner[u] < k && !merged@[owner[u]] && label@[u] == reps@[owner[u]],
                    old@.len() == n,
                    parallel ==> direct.n == n,
                    parallel ==> forall|u: int, v: int| 0 <= u < n && 0 <= v < n && label@[u] == label@[v] ==> #[trigger] tied(*direct, u, v),
                    !parallel ==> reach.n == n,
                    !parallel ==> forall|u: int, v: int| 0 <= u < n && 0 <= v < n && label@[u] == label@[v] ==> #[trigger] unordered_linked(*reach, u, v),
                    forall|t: int| 0 <= t < k ==> old@[#[trigger] reps@[t] as int] == reps@[t],
                    forall|u: int, t: int| 0 <= u < n && 0 <= t < k && old@[u] == reps@[t] && !merged@[t] ==> #[trigger] label@[u] == #[trigger] reps@[t],
                    (forall|t: int| 0 <= t < k ==> !#[trigger] merged@[t]) ==> label@ == old@,
                    parallel && (forall|t: int| 0 <= t < k ==> !#[trigger] merged@[t]) ==> forall|i2: int, j2: int| 0 <= i2 < i && i2 < j2 < k
                        ==> !#[trigger] pair_conflicts(old@, reps@[i2], reps@[j2], *reach, *direct, parallel),
                    parallel && (forall|t: int| 0 <= t < k ==> !#[trigger] merged@[t]) ==> forall|j2: int| i < j2 < j
                        ==> !#[trigger] pair_conflicts(old@, reps@[i as int], reps@[j2], *reach, *direct, parallel),
            {
                let ghost merged_before = merged@;
                if !merged[j] && mergeable(&old, reps[i], reps[j], reach, direct, parallel) {
                    let ri = reps[i];
                    let rj = reps[j];
                    let ghost lb = label@;
                    for u in 0..n
                        invariant
                            n == label@.len(),
                            lb.len() == n,
                            forall|x: int| 0 <= x < u ==> #[trigger] label@[x] == (if lb[x] == rj { ri } else { lb[x] }),
                            forall|x: int| u <= x < n ==> #[trigger] label@[x] == lb[x],
                    {
                        if label[u] == rj {
                            label.set(u, ri);
                        }
                    }
                    let ghost mb = merged@;
                    let ghost ob = owner;
                    merged.set(j, true);
                    proof {
                        assert(ri != rj) by {
                            assert(reps@[i as int] != reps@[j as int]);
                        }
                        owner = Seq::new(n as nat, |u: int| if ob[u] == j { i as int } else { ob[u] });
                        assert forall|t: int| 0 <= t < k && !merged@[t] implies label@[#[trigger] reps@[t] as int] == reps@[t] by {
                            assert(t != j);
                            assert(mb[t] == merged@[t]);
                            assert(lb[reps@[t] as int] == reps@[t]);
                            assert(reps@[t] != rj) by {
                                assert(reps@[t] != reps@[j as int]);
                            }
                        }
                        assert forall|u: int| 0 <= u < n implies 0 <= #[trigger] owner[u] < k && !merged@[owner[u]] && label@[u] == reps@[owner[u]] by {
                            assert(0 <= ob[u] < k && !mb[ob[u]] && lb[u] == reps@[ob[u]]);
                            if ob[u] == j {
                                assert(lb[u] == rj);
                            } else {
                                assert(lb[u] != rj) by {
                                    assert(reps@[ob[u]] != reps@[j as int]);
                                }
                            }
                        }
                        assert forall|u: int, t: int| 0 <= u < n && 0 <= t < k && old@[u] == reps@[t] && !merged@[t]
                            implies #[trigger] label@[u] == #[trigger] reps@[t] by {
                            assert(t != j);
                            assert(mb[t] == merged@[t]);
                            assert(lb[u] == reps@[t]);
                            assert(reps@[t] != rj) by {
                                assert(reps@[t] != reps@[j as int]);
                            }
                        }
                        assert(merged@[j as int]);
                        if parallel {
                            let (a, b) = choose|a: int, b: int| 0 <= a < old@.len() && 0 <= b < old@.len() && #[trigger] old@[a] == ri
                                && #[trigger] old@[b] == rj && merge_conflict(*reach, *direct, parallel, a, b);
                            assert(lb[a] == ri) by {
                                assert(old@[a] == reps@[i as int] && !mb[i as int]);
                            }
                            assert(lb[b] == rj) by {
                                assert(old@[b] == reps@[j as int] && !mb[j as int]);
                            }
                            assert(a != b);
                            assert(conflict(*direct, a, b));
                            assert forall|x: int, y: int| 0 <= x < n && 0 <= y < n && label@[x] == label@[y]
                                implies #[trigger] tied(*direct, x, y) by {
                                if lb[x] == lb[y] {
                                    assert(tied(*direct, x, y));
                                } else if lb[x] == ri {
                                    assert(lb[y] == rj);
                                    assert(tied(*direct, x, a));
                                    lemma_tied_step(*direct, x, a, b);
                                    assert(tied(*direct, b, y));
                                    lemma_tied_trans(*direct, x, b, y);
                                } else {
                                    assert(lb[x] == rj && lb[y] == ri);
                                    assert(tied(*direct, y, a));
                                    lemma_tied_step(*direct, y, a, b);
                                    assert(tied(*direct, b, x));
                                    lemma_tied_trans(*direct, y, b, x);
                                    lemma_tied_sym(*direct, y, x);
                                }
                            }
                        } else {
                            assert(old@[ri as int] == ri && old@[rj as int] == rj);
                            assert(!merge_conflict(*reach, *direct, parallel, ri as int, rj as int));
                            assert(unordered(*reach, ri as int, rj as int));
                            assert(lb[ri as int] == ri) by {
                                assert(!mb[i as int]);
                            }
                            assert(lb[rj as int] == rj) by {
                                assert(!mb[j as int]);
                            }
                            assert forall|x: int, y: int| 0 <= x < n && 0 <= y < n && label@[x] == label@[y]
                                implies #[trigger] unordered_linked(*reach, x, y) by {
                                if lb[x] == lb[y] {
                                    assert(unordered_linked(*reach, x, y));
                                } else if lb[x] == ri {
                                    assert(lb[y] == rj);
                                    assert(unordered_linked(*reach, x, ri as int));
                                    lemma_linked_step(*reach, x, ri as int, rj as int);
                                    assert(unordered_linked(*reach, rj as int, y));
                                    lemma_linked_trans(*reach, x, rj as int, y);
                                } else {
                                    assert(lb[x] == rj && lb[y] == ri);
                                    assert(unordered_linked(*reach, y, ri as int));
                                    lemma_linked_step(*reach, y, ri as int, rj as int);
                                    assert(unordered_linked(*reach, rj as int, x));
                                    lemma_linked_trans(*reach, y, rj as int, x);
                                    lemma_linked_sym(*reach, y, x);
                                }
                            }
                        }
                    }
                }
            }
        }
    }
    let mut out: Vec<usize> = Vec::new();
    let ghost mut src: Seq<int> = Seq::empty();
    for t in 0..k
        invariant
            k == reps@.len(),
            merged@.len() == k,
            src.len() == out@.len(),
            out@.len() <= t,
            forall|x: int| 0 <= x < out@.len() ==> 0 <= #[trigger] src[x] < t && !merged@[src[x]] && out@[x] == reps@[src[x]],
            forall|x: int, y: int| 0 <= x < y < src.len() ==> #[trigger] src[x] < #[trigger] src[y],
            forall|s: int| 0 <= s < t && !merged@[s] ==> exists|x: int| 0 <= x < out@.len() && #[trigger] src[x] == s,
    {
        if !merged[t] {
            let ghost op = out@;
            let ghost sp = src;
            out.push(reps[t]);
            proof {
                src = src.push(t as int);
                assert forall|s: int| 0 <= s < t + 1 && !merged@[s] implies exists|x: int| 0 <= x < out@.len() && #[trigger] src[x] == s by {
                    if s < t {
                        let x = choose|x: int| 0 <= x < op.len() && #[trigger] sp[x] == s;
                        assert(src[x] == s);
                    } else {
                        assert(src[src.len() - 1] == s);
                    }
                }
            }
        }
    }
    proof {
        assert forall|a: int, b: int| 0 <= a < b < out@.len() implies out@[a] != out@[b] by {
            assert(src[a] < src[b]);
            assert(reps@[src[a]] != reps@[src[b]]);
        }
        assert forall|x: int| 0 <= x < out@.len() implies #[trigger] out@[x] < n && label@[out@[x] as int] == out@[x] by {
            assert(0 <= src[x] < k);
        }
        assert forall|u: int| 0 <= u < n implies out@.contains(#[trigger] label@[u]) by {
            let t = owner[u];
            assert(0 <= t < k && !merged@[t]);
            let x = choose|x: int| 0 <= x < out@.len() && #[trigger] src[x] == t;
            assert(out@[x] == label@[u]);
        }
        if parallel && out@.len() == k {
            lemma_increasing_identity(src, k as int);
            assert forall|t: int| 0 <= t < k implies !#[trigger] merged@[t] by {
                assert(src[t] == t);
            }
            assert(label@ == old@);
            assert forall|a: int, b: int| 0 <= a < n && 0 <= b < n && #[trigger] label@[a] != #[trigger] label@[b]
                implies !conflict(*direct, a, b) by {
                assert(reps@.contains(label@[a]) && reps@.contains(label@[b]));
                let ta = choose|ta: int| 0 <= ta < k && reps@[ta] == label@[a];
                let tb = choose|tb: int| 0 <= tb < k && reps@[tb] == label@[b];
                assert(ta != tb);
                if ta < tb {
                    assert(!pair_conflicts(old@, reps@[ta], reps@[tb], *reach, *direct, parallel));
                    assert(!merge_conflict(*reach, *direct, parallel, a, b));
                } else {
                    assert(!pair_conflicts(old@, reps@[tb], reps@[ta], *reach, *direct, parallel));
                    assert(!merge_conflict(*reach, *direct, parallel, b, a));
                }
            }
        }
    }
    out
}

/// A strictly increasing sequence of `m` values below `m` counts `0..m`.
proof fn lemma_increasing_identity(s: Seq<int>, m: int)
    requires
        s.len() == m,
        forall|x: int| 0 <= x < m ==> 0 <= #[trigger] s[x] < m,
        forall|x: int, y: int| 0 <= x < y < m ==> #[trigger] s[x] < #[trigger] s[y],
    ensures
        forall|x: int| 0 <= x < m ==> #[trigger] s[x] == x,
{
    assert forall|x: int| 0 <= x < m implies #[trigger] s[x] == x by {
        lemma_increasing_low(s, m, x);
        lemma_increasing_high(s, m, x);
    }
}

proof fn lemma_increasing_low(s: Seq<int>, m: int, x: int)
    requires
        s.len() == m,
        forall|x: int| 0 <= x < m ==> 0 <= #[trigger] s[x] < m,
        forall|x: int, y: int| 0 <= x < y < m ==> #[trigger] s[x] < #[trigger] s[y],
        0 <= x < m,
    ensures
        s[x] >= x,
    decreases x,
{
    if x > 0 {
        lemma_increasing_low(s, m, x - 1);
        assert(s[x - 1] < s[x]);
    }
}

proof fn lemma_increasing_high(s: Seq<int>, m: int, x: int)
    requires
        s.len() == m,
        forall|x: int| 0 <= x < m ==> 0 <= #[trigger] s[x] < m,
        forall|x: int, y: int| 0 <= x < y < m ==> #[trigger] s[x] < #[trigger] s[y],
        0 <= x < m,
    ensures
        s[x] <= x,
    decreases m - x,
{
    if x + 1 < m {
        lemma_increasing_high(s, m, x + 1);
        assert(s[x] < s[x + 1]);
    }
}

/// Merges the singleton groups of `0..n` pass after pass until a pass
/// merges nothing.
fn merge_until_stable(n: usize, reach: &BinaryRelation, direct: &BinaryRelation, parallel: bool) -> (res: (Vec<usize>, Vec<usize>))
    requires
        reach.wf(),
        direct.wf(),
        parallel ==> direct.n == n,
        !parallel ==> reach.n == n,
    ensures
        labelled(res.0@, res.1@, n as nat),
        !parallel ==> forall|u: int, v: int| 0 <= u < n && 0 <= v < n && res.0@[u] == res.0@[v] ==> #[trigger] unordered_linked(*reach, u, v),
        parallel ==> forall|u: int, v: int| 0 <= u < n && 0 <= v < n ==> (res.0@[u] == res.0@[v] <==> #[trigger] tied(*direct, u, v)),
{
    let mut label: Vec<usize> = Vec::new();
    let mut reps: Vec<usize> = Vec::new();
    for u in 0..n
        invariant
            label@.len() == u,
            reps@ == label@,
            forall|x: int| 0 <= x < u ==> #[trigger] label@[x] == x,
    {
        label.push(u);
        reps.push(u);
    }
    proof {
        assert forall|t: int| 0 <= t < reps@.len() implies #[trigger] reps@[t] < n && label@[reps@[t] as int] == reps@[t] by {}
        assert forall|u: int| 0 <= u < n implies reps@.contains(#[trigger] label@[u]) by {
            assert(reps@[u] == label@[u]);
        }
    }
    proof {
        assert forall|u: int, v: int| 0 <= u < n && 0 <= v < n && label@[u] == label@[v] implies #[trigger] tied(*direct, u, v) by {
            assert(label@[u] == u && label@[v] == v);
            lemma_tied_refl(*direct, u);
        }
        assert forall|u: int, v: int| 0 <= u < n && 0 <= v < n && label@[u] == label@[v] implies #[trigger] unordered_linked(*reach, u, v) by {
            assert(label@[u] == u && label@[v] == v);
            lemma_linked_refl(*reach, u);
        }
    }
    loop
        invariant
            reach.wf(),
            direct.wf(),
            labelled(label@, reps@, n as nat),
            parallel ==> direct.n == n,
            parallel ==> forall|u: int, v: int| 0 <= u < n && 0 <= v < n && label@[u] == label@[v] ==> #[trigger] tied(*direct, u, v),
            !parallel ==> reach.n == n,
            !parallel ==> forall|u: int, v: int| 0 <= u < n && 0 <= v < n && label@[u] == label@[v] ==> #[trigger] unordered_linked(*reach, u, v),
        decreases reps@.len(),
    {
        let next = merge_pass(&mut label, &reps, reach, direct, parallel);
        if next.len() == reps.len() {
            proof {
                if parallel {
                    assert forall|u: int, v: int| 0 <= u < n && 0 <= v < n && #[trigger] tied(*direct, u, v) implies label@[u] == label@[v] by {
                        lemma_tied_same_label(*direct, label@, u, v);
                    }
                }
            }
            return (label, next);
        }
        reps = next;
    }
}

proof fn lemma_fits_double(n: nat)
    requires
        fits(n),
    ensures
        2 * n <= usize::MAX,
{
    if n >= 128 {
        assert((n + 63) / 64 >= 2) by (nonlinear_arith)
            requires
                n >= 128,
        ;
        assert(n * ((n + 63) / 64) >= 2 * n) by (nonlinear_arith)
            requires
                (n + 63) / 64 >= 2,
        ;
    }
}

fn all_true(n: usize) -> (res: Vec<bool>)
    ensures
        res@ == all_nodes(n as nat),
{
    let mut v: Vec<bool> = Vec::new();
    for i in 0..n
        invariant
            v@ == all_nodes(i as nat),
    {
        v.push(true);
        proof {
            assert(v@ =~= all_nodes((i + 1) as nat));
        }
    }
    v
}

/// The relation linking two nodes selected by `mask` when `direct` has an
/// edge between them either way.
fn undirected(direct: &BinaryRelation, mask: &Vec<bool>) -> (res: BinaryRelation)
    requires
        direct.wf(),
        mask@.len() == direct.n,
        fits(direct.n as nat),
    ensures
        res.wf(),
        res.n == direct.n,
        forall|i: int, j: int| #[trigger] res.edge(i, j) == (0 <= i < direct.n && 0 <= j < direct.n && mask@[i] && mask@[j]
            && (direct.edge(i, j) || direct.edge(j, i))),
{
    let n = direct.n;
    let mut res = BinaryRelation::new(n);
    for i in 0..n
        invariant
            n == direct.n,
            direct.wf(),
            mask@.len() == n,
            res.wf(),
            res.n == n,
            forall|a: int, b: int| #[trigger] res.edge(a, b) == (0 <= a < i && 0 <= b < n && mask@[a] && mask@[b]
                && (direct.edge(a, b) || direct.edge(b, a))),
    {
        for j in 0..n
            invariant
                n == direct.n,
                direct.wf(),
                mask@.len() == n,
                i < n,
                res.wf(),
                res.n == n,
                forall|a: int, b: int| #[trigger] res.edge(a, b) == ((0 <= a < i && 0 <= b < n && mask@[a] && mask@[b]
                    && (direct.edge(a, b) || direct.edge(b, a))) || (a == i && 0 <= b < j && mask@[a] && mask@[b]
                    && (direct.edge(a, b) || direct.edge(b, a)))),
        {
            if mask[i] && mask[j] && (direct.is_edge(i, j) || direct.is_edge(j, i)) {
                res.add_edge(i, j);
            }
        }
    }
    res
}

/// Whether `rel` has any edge.
fn has_edges(rel: &BinaryRelation) -> (res: bool)
    requires
        rel.wf(),
    ensures
        res == exists|i: int, j: int| #[trigger] rel.edge(i, j),
{
    let n = rel.n;
    for i in 0..n
        invariant
            n == rel.n,
            rel.wf(),
            forall|a: int, b: int| 0 <= a < i && #[trigger] rel.edge(a, b) ==> false,
    {
        for j in 0..n
            invariant
                n == rel.n,
                rel.wf(),
                i < n,
                forall|a: int, b: int| 0 <= a < i && #[trigger] rel.edge(a, b) ==> false,
                forall|b: int| 0 <= b < j ==> !rel.edge(i as int, b),
        {
            if rel.is_edge(i, j) {
                return true;
            }
        }
        proof {
            assert forall|a: int, b: int| 0 <= a < i + 1 && #[trigger] rel.edge(a, b) implies false by {
                rel.lemma_edge_in_range(a, b);
            }
        }
    }
    proof {
        assert forall|a: int, b: int| !#[trigger] rel.edge(a, b) by {
            if rel.edge(a, b) {
                rel.lemma_edge_in_range(a, b);
            }
        }
    }
    false
}

/// `a` and `b` are both selected by `mask` and a direct edge links them,
/// one way or the other.
pub open spec fn linked(d: BinaryRelation, mask: Seq<bool>, a: int, b: int) -> bool {
    mask[a] && mask[b] && (d.edge(a, b) || d.edge(b, a))
}

/// Consecutive nodes of `p` are linked.
pub open spec fn is_linked_path(d: BinaryRelation, mask: Seq<bool>, p: Seq<int>) -> bool {
    &&& p.len() >= 2
    &&& forall|k: int| 0 <= k < p.len() - 1 ==> #[trigger] linked(d, mask, p[k], p[k + 1])
}

/// `u` and `v` are joined by a chain of links among the nodes of `mask`,
/// the direction of the edges aside.
pub open spec fn joined(d: BinaryRelation, mask: Seq<bool>, u: int, v: int) -> bool {
    exists|p: Seq<int>| #[trigger] is_linked_path(d, mask, p) && p[0] == u && p.last() == v
}

proof fn lemma_closure_holds_path(rel: BinaryRelation, res: BinaryRelation, p: Seq<int>)
    requires
        forall|i: int, j: int| #[trigger] rel.edge(i, j) ==> res.edge(i, j),
        res.transitive(),
        is_path(rel, p),
    ensures
        res.edge(p[0], p.last()),
    decreases p.len(),
{
    if p.len() > 2 {
        let q = p.drop_last();
        assert forall|k: int| 0 <= k < q.len() - 1 implies #[trigger] rel.edge(q[k], q[k + 1]) by {
            assert(rel.edge(p[k], p[k + 1]));
        }
        lemma_closure_holds_path(rel, res, q);
        let k = p.len() - 2;
        assert(rel.edge(p[k], p[k + 1]));
        assert(q.last() == p[k] && p[k + 1] == p.last());
        assert(res.edge(q[0], q.last()) && res.edge(p[k], p.last()));
    } else {
        let k = 0int;
        assert(rel.edge(p[k], p[k + 1]));
        assert(p[k + 1] == p.last());
    }
}

/// A transitive relation holding `rel` and held by what `rel` reaches is
/// exactly what `rel` reaches.
proof fn lemma_closure_exact(rel: BinaryRelation, res: BinaryRelation)
    requires
        forall|i: int, j: int| #[trigger] rel.edge(i, j) ==> res.edge(i, j),
        res.transitive(),
        forall|i: int, j: int| #[trigger] res.edge(i, j) ==> reaches(rel, i, j),
    ensures
        forall|i: int, j: int| #[trigger] res.edge(i, j) == reaches(rel, i, j),
{
    assert forall|i: int, j: int| #[trigger] res.edge(i, j) == reaches(rel, i, j) by {
        if reaches(rel, i, j) {
            let p = choose|p: Seq<int>| #[trigger] is_path(rel, p) && p[0] == i && p.last() == j;
            lemma_closure_holds_path(rel, res, p);
        }
    }
}

/// Paths of a relation that holds exactly the links are linked paths.
proof fn lemma_reaches_joined(links: BinaryRelation, d: BinaryRelation, mask: Seq<bool>)
    requires
        forall|i: int, j: int| #[trigger] links.edge(i, j) == linked(d, mask, i, j),
    ensures
        forall|u: int, v: int| #[trigger] reaches(links, u, v) == joined(d, mask, u, v),
{
    assert forall|u: int, v: int| #[trigger] reaches(links, u, v) == joined(d, mask, u, v) by {
        if reaches(links, u, v) {
            let p = choose|p: Seq<int>| #[trigger] is_path(links, p) && p[0] == u && p.last() == v;
            assert forall|k: int| 0 <= k < p.len() - 1 implies #[trigger] linked(d, mask, p[k], p[k + 1]) by {
                assert(links.edge(p[k], p[k + 1]));
            }
            assert(is_linked_path(d, mask, p));
        }
        if joined(d, mask, u, v) {
            let p = choose|p: Seq<int>| #[trigger] is_linked_path(d, mask, p) && p[0] == u && p.last() == v;
            assert forall|k: int| 0 <= k < p.len() - 1 implies #[trigger] links.edge(p[k], p[k + 1]) by {
                assert(linked(d, mask, p[k], p[k + 1]));
            }
            assert(is_path(links, p));
        }
    }
}

/// Joining goes both ways.
proof fn lemma_joined_symmetric(d: BinaryRelation, mask: Seq<bool>, u: int, v: int)
    requires
        joined(d, mask, u, v),
    ensures
        joined(d, mask, v, u),
{
    let p = choose|p: Seq<int>| #[trigger] is_linked_path(d, mask, p) && p[0] == u && p.last() == v;
    let q = Seq::new(p.len(), |i: int| p[p.len() - 1 - i]);
    assert forall|k: int| 0 <= k < q.len() - 1 implies #[trigger] linked(d, mask, q[k], q[k + 1]) by {
        let j = p.len() - 2 - k;
        assert(linked(d, mask, p[j], p[j + 1]));
        assert(q[k] == p[j + 1] && q[k + 1] == p[j]);
    }
    assert(is_linked_path(d, mask, q));
    assert(q[0] == v && q.last() == u);
}

/// The groups of `components` under a symmetric, transitive relation are
/// its classes: two members share a group exactly when they are equal or
/// related.
proof fn lemma_component_classes(c: BinaryRelation, gv: Seq<Seq<usize>>, mask: Seq<bool>)
    requires
        partitions(gv, mask),
        forall|g: int, k: int| 0 <= g < gv.len() && 0 <= k < gv[g].len()
            ==> gv[g][k] == gv[g][0] || #[trigger] c.edge(gv[g][0] as int, gv[g][k] as int),
        forall|g: int, h: int| 0 <= g < h < gv.len() ==> !#[trigger] c.edge(gv[g][0] as int, gv[h][0] as int),
        forall|i: int, j: int| #[trigger] c.edge(i, j) ==> c.edge(j, i),
        c.transitive(),
    ensures
        forall|g: int, h: int, k: int, l: int| 0 <= g < gv.len() && 0 <= h < gv.len() && 0 <= k < gv[g].len() && 0 <= l < gv[h].len()
            ==> ((g == h) == (#[trigger] gv[g][k] == #[trigger] gv[h][l] || c.edge(gv[g][k] as int, gv[h][l] as int))),
{
    assert forall|g: int, h: int, k: int, l: int| 0 <= g < gv.len() && 0 <= h < gv.len() && 0 <= k < gv[g].len() && 0 <= l < gv[h].len()
        implies ((g == h) == (#[trigger] gv[g][k] == #[trigger] gv[h][l] || c.edge(gv[g][k] as int, gv[h][l] as int))) by {
        let a = gv[g][k] as int;
        let b = gv[h][l] as int;
        let g0 = gv[g][0] as int;
        let h0 = gv[h][0] as int;
        assert(gv[g].len() > 0 && gv[h].len() > 0);
        assert(gv[g][k] == gv[g][0] || c.edge(g0, a));
        assert(gv[h][l] == gv[h][0] || c.edge(h0, b));
        if g == h {
            if a != b {
                if a == g0 {
                } else if b == g0 {
                    assert(c.edge(a, g0));
                } else {
                    assert(c.edge(a, g0));
                    assert(c.edge(a, b));
                }
            }
        } else {
            assert(gv[g][k] != gv[h][l]);
            if c.edge(a, b) {
                // g0 ~ a ~ b ~ h0 would relate the two openers.
                assert(c.edge(g0, b)) by {
                    if a != g0 {
                        assert(c.edge(g0, a));
                    }
                }
                assert(c.edge(g0, h0)) by {
                    if b != h0 {
                        assert(c.edge(b, h0));
                    }
                }
                if g < h {
                    assert(!c.edge(g0, h0));
                } else {
                    assert(c.edge(h0, g0));
                    assert(!c.edge(h0, g0));
                }
            }
        }
    }
}

/// Exclusive-choice cut: the connected components of the graph taken
/// without direction, when there are at least two.
fn detect_xor_cut(dfg: &InductiveDFG) -> (res: Option<Vec<Vec<usize>>>)
    requires
        dfg.wf(),
    ensures
        res is Some <==> exists|u: int, v: int| 0 <= u < dfg.alphabet@.len() && 0 <= v < dfg.alphabet@.len() && u != v
            && !#[trigger] joined(dfg.direct, all_nodes(dfg.alphabet@.len() as nat), u, v),
        res matches Some(gs) ==> partitions(gs.deep_view(), all_nodes(dfg.alphabet@.len() as nat)) && gs@.len() >= 2,
        res matches Some(gs) ==> forall|g: int, h: int, k: int, l: int|
            0 <= g < gs.deep_view().len() && 0 <= h < gs.deep_view().len() && 0 <= k < gs.deep_view()[g].len() && 0 <= l < gs.deep_view()[h].len()
            ==> ((g == h) == (#[trigger] gs.deep_view()[g][k] == #[trigger] gs.deep_view()[h][l]
                || joined(dfg.direct, all_nodes(dfg.alphabet@.len() as nat), gs.deep_view()[g][k] as int, gs.deep_view()[h][l] as int))),
{
    let n = dfg.alphabet.len();
    let mask = all_true(n);
    let links = undirected(&dfg.direct, &mask);
    let closed = transitive_closure(&links);
    let comps = components(&closed, &mask);
    let ghost m = all_nodes(n as nat);
    let ghost gv = comps.deep_view();
    proof {
        assert forall|i: int, j: int| #[trigger] links.edge(i, j) == linked(dfg.direct, m, i, j) by {
            dfg.direct.lemma_edge_in_range(i, j);
            dfg.direct.lemma_edge_in_range(j, i);
        }
        lemma_reaches_joined(links, dfg.direct, m);
        lemma_closure_exact(links, closed);
        assert forall|i: int, j: int| #[trigger] closed.edge(i, j) implies closed.edge(j, i) by {
            assert(reaches(links, i, j));
            lemma_joined_symmetric(dfg.direct, m, i, j);
            assert(reaches(links, j, i));
        }
        lemma_component_classes(closed, gv, m);
        assert forall|i: int, j: int| #[trigger] joined(dfg.direct, m, i, j) == closed.edge(i, j) by {
            assert(reaches(links, i, j) == joined(dfg.direct, m, i, j));
        }
    }
    if comps.len() > 1 {
        proof {
            let u = gv[0][0] as int;
            let v = gv[1][0] as int;
            assert(gv[0].len() > 0 && gv[1].len() > 0);
            assert(gv[0][0] != gv[1][0]);
            assert(!closed.edge(u, v));
            assert(!joined(dfg.direct, m, u, v));
            assert(gv[0][0] < n && gv[1][0] < n);
        }
        Some(comps)
    } else {
        proof {
            assert forall|u: int, v: int| 0 <= u < n && 0 <= v < n && u != v
                implies #[trigger] joined(dfg.direct, m, u, v) by {
                assert(in_groups(gv, u as usize));
                assert(in_groups(gv, v as usize));
                let (g1, k1) = choose|g1: int, k1: int| 0 <= g1 < gv.len() && 0 <= k1 < gv[g1].len() && #[trigger] gv[g1][k1] == u as usize;
                let (g2, k2) = choose|g2: int, k2: int| 0 <= g2 < gv.len() && 0 <= k2 < gv[g2].len() && #[trigger] gv[g2][k2] == v as usize;
                assert(g1 == 0 && g2 == 0);
                assert(closed.edge(u, v));
            }
        }
        None
    }
}

/// How many of the nodes below `k` reach `r` (`into`), or are reached
/// from `r`.
pub open spec fn linked_count(reach: BinaryRelation, r: int, k: int, into: bool) -> nat
    decreases k,
{
    if k <= 0 {
        0
    } else {
        linked_count(reach, r, k - 1, into) + if (if into { reach.edge(k - 1, r) } else { reach.edge(r, k - 1) }) { 1nat } else { 0nat }
    }
}

/// How many nodes reach `r`, plus how many nodes `r` does not reach.
fn order_key(reach: &BinaryRelation, r: usize) -> (res: usize)
    requires
        reach.wf(),
        2 * reach.n <= usize::MAX,
    ensures
        res == linked_count(*reach, r as int, reach.n as int, true) + (reach.n - linked_count(*reach, r as int, reach.n as int, false)),
{
    let n = reach.n;
    let mut preds: usize = 0;
    let mut succs: usize = 0;
    for x in 0..n
        invariant
            n == reach.n,
            reach.wf(),
            preds <= x,
            succs <= x,
            preds == linked_count(*reach, r as int, x as int, true),
            succs == linked_count(*reach, r as int, x as int, false),
    {
        if reach.is_edge(x, r) {
            preds = preds + 1;
        }
        if reach.is_edge(r, x) {
            succs = succs + 1;
        }
    }
    preds + (n - succs)
}

/// The positions `0..keys.len()` ordered by key, equal keys in position
/// order.
fn stable_order(keys: &Vec<usize>) -> (res: Vec<usize>)
    ensures
        res@.len() == keys@.len(),
        res@.no_duplicates(),
        forall|t: int| 0 <= t < res@.len() ==> #[trigger] res@[t] < keys@.len(),
        forall|t: usize| t < keys@.len() ==> #[trigger] res@.contains(t),
        forall|a: int, b: int| 0 <= a < b < res@.len() ==> keys@[#[trigger] res@[a] as int] <= keys@[#[trigger] res@[b] as int],
{
    let k = keys.len();
    let mut perm: Vec<usize> = Vec::new();
    for t in 0..k
        invariant
            perm@.len() == t,
            forall|x: int| 0 <= x < t ==> #[trigger] perm@[x] == x,
    {
        perm.push(t);
    }
    proof {
        assert forall|t: usize| t < k implies #[trigger] perm@.contains(t) by {
            assert(perm@[t as int] == t);
        }
    }
    if k <= 1 {
        return perm;
    }
    for i in 1..k
        invariant
            k == keys@.len(),
            perm@.len() == k,
            perm@.no_duplicates(),
            forall|t: int| 0 <= t < k ==> #[trigger] perm@[t] < k,
            forall|t: usize| t < k ==> #[trigger] perm@.contains(t),
            forall|a: int, b: int| 0 <= a < b < i ==> keys@[#[trigger] perm@[a] as int] <= keys@[#[trigger] perm@[b] as int],
    {
        let mut j: usize = i;
        while j > 0 && keys[perm[j - 1]] > keys[perm[j]]
            invariant
                k == keys@.len(),
                perm@.len() == k,
                j <= i < k,
                perm@.no_duplicates(),
                forall|t: int| 0 <= t < k ==> #[trigger] perm@[t] < k,
                forall|t: usize| t < k ==> #[trigger] perm@.contains(t),
                forall|a: int, b: int| 0 <= a < b <= i && a != j && b != j ==> keys@[#[trigger] perm@[a] as int] <= keys@[#[trigger] perm@[b] as int],
                forall|b: int| j < b <= i ==> keys@[perm@[j as int] as int] <= keys@[#[trigger] perm@[b] as int],
            decreases j,
        {
            let a = perm[j - 1];
            let b = perm[j];
            let ghost pp = perm@;
            perm.set(j - 1, b);
            perm.set(j, a);
            proof {
                assert(perm@ =~= pp.update(j - 1, b).update(j as int, a));
                assert forall|x: int, y: int| 0 <= x < y < k implies perm@[x] != perm@[y] by {
                    let ox = if x == j - 1 { j as int } else if x == j { j - 1 } else { x };
                    let oy = if y == j - 1 { j as int } else if y == j { j - 1 } else { y };
                    assert(perm@[x] == pp[ox] && perm@[y] == pp[oy]);
                    assert(ox != oy);
                }
                assert forall|t: usize| t < k implies #[trigger] perm@.contains(t) by {
                    assert(pp.contains(t));
                    let x = choose|x: int| 0 <= x < k && pp[x] == t;
                    let nx = if x == j - 1 { j as int } else if x == j { j - 1 } else { x };
                    assert(perm@[nx] == t);
                }
                assert forall|a: int, b: int| 0 <= a < b <= i && a != j - 1 && b != j - 1
                    implies keys@[#[trigger] perm@[a] as int] <= keys@[#[trigger] perm@[b] as int] by {
                    let oa = if a == j { j - 1 } else { a };
                    let ob = if b == j { j - 1 } else { b };
                    assert(perm@[a] == pp[oa] && perm@[b] == pp[ob]);
                    if a == j {
                        assert(keys@[pp[j - 1] as int] > keys@[pp[j as int] as int]);
                        assert(keys@[pp[j as int] as int] <= keys@[pp[b] as int]);
                    } else if b == j {
                        assert(keys@[pp[a] as int] <= keys@[pp[j - 1] as int]) by {
                            assert(a < j - 1);
                        }
                    } else {
                        assert(keys@[pp[a] as int] <= keys@[pp[b] as int]);
                    }
                }
                assert forall|b: int| j - 1 < b <= i implies keys@[perm@[j - 1] as int] <= keys@[#[trigger] perm@[b] as int] by {
                    assert(perm@[j - 1] == pp[j as int]);
                    if b == j {
                        assert(perm@[b] == pp[j - 1]);
                    } else {
                        assert(perm@[b] == pp[b]);
                    }
                }
            }
            j = j - 1;
        }
        proof {
            assert forall|a: int, b: int| 0 <= a < b < i + 1 implies keys@[#[trigger] perm@[a] as int] <= keys@[#[trigger] perm@[b] as int] by {
                if a == j {
                } else if b == j {
                    assert(j > 0);
                    assert(keys@[perm@[j - 1] as int] <= keys@[perm@[j as int] as int]);
                    if a < j - 1 {
                        assert(keys@[perm@[a] as int] <= keys@[perm@[j - 1] as int]);
                    }
                }
            }
        }
    }
    perm
}

/// Some node of `earlier` reaches some node of `later`.
pub open spec fn group_reaches(r: BinaryRelation, earlier: Seq<usize>, later: Seq<usize>) -> bool {
    exists|a: int, b: int| 0 <= a < earlier.len() && 0 <= b < later.len() && #[trigger] r.edge(earlier[a] as int, later[b] as int)
}

/// Whether some node of `earlier` reaches some node of `later`.
fn reaches_forward(reach: &BinaryRelation, earlier: &Vec<usize>, later: &Vec<usize>) -> (res: bool)
    requires
        reach.wf(),
    ensures
        res == group_reaches(*reach, earlier@, later@),
{
    for a in 0..earlier.len()
        invariant
            reach.wf(),
            forall|x: int, y: int| 0 <= x < a && 0 <= y < later@.len() ==> !#[trigger] reach.edge(earlier@[x] as int, later@[y] as int),
    {
        for b in 0..later.len()
            invariant
                reach.wf(),
                a < earlier@.len(),
                forall|x: int, y: int| 0 <= x < a && 0 <= y < later@.len() ==> !#[trigger] reach.edge(earlier@[x] as int, later@[y] as int),
                forall|y: int| 0 <= y < b ==> !#[trigger] reach.edge(earlier@[a as int] as int, later@[y] as int),
        {
            if reach.is_edge(earlier[a], later[b]) {
                return true;
            }
        }
    }
    false
}

/// `r` is transitive and orders every two distinct nodes below `n` one way
/// only.
pub open spec fn strict_total(r: BinaryRelation, n: int) -> bool {
    &&& r.transitive()
    &&& forall|u: int, v: int| 0 <= u < n && 0 <= v < n && u != v ==> #[trigger] r.edge(u, v) != r.edge(v, u)
}

/// The key by which the sequence cut orders a group of first member `r`.
pub open spec fn seq_key(reach: BinaryRelation, r: int) -> int {
    linked_count(reach, r, reach.n as int, true) + (reach.n - linked_count(reach, r, reach.n as int, false))
}

/// `w` reaches `a` (`into`), or `a` reaches `w`.
pub open spec fn adj(r: BinaryRelation, a: int, w: int, into: bool) -> bool {
    if into { r.edge(w, a) } else { r.edge(a, w) }
}

proof fn lemma_count_le(r: BinaryRelation, a: int, b: int, k: int, into: bool)
    requires
        forall|w: int| 0 <= w < k && adj(r, a, w, into) ==> #[trigger] adj(r, b, w, into),
    ensures
        linked_count(r, a, k, into) <= linked_count(r, b, k, into),
    decreases k,
{
    if k > 0 {
        lemma_count_le(r, a, b, k - 1, into);
        let w = k - 1;
        assert(adj(r, a, w, into) ==> adj(r, b, w, into));
    }
}

proof fn lemma_count_lt(r: BinaryRelation, a: int, b: int, k: int, into: bool, w0: int)
    requires
        forall|w: int| 0 <= w < k && adj(r, a, w, into) ==> #[trigger] adj(r, b, w, into),
        0 <= w0 < k,
        adj(r, b, w0, into) && !adj(r, a, w0, into),
    ensures
        linked_count(r, a, k, into) < linked_count(r, b, k, into),
    decreases k,
{
    let w = k - 1;
    if w0 == w {
        lemma_count_le(r, a, b, k - 1, into);
    } else {
        lemma_count_lt(r, a, b, k - 1, into, w0);
        assert(adj(r, a, w, into) ==> adj(r, b, w, into));
    }
}

/// Under a strict total order, a node comes before another exactly when
/// its key is smaller.
proof fn lemma_key_order(r: BinaryRelation, u: int, v: int)
    requires
        strict_total(r, r.n as int),
        0 <= u < r.n,
        0 <= v < r.n,
        r.edge(u, v),
        !r.edge(v, u),
    ensures
        seq_key(r, u) < seq_key(r, v),
{
    let n = r.n as int;
    assert forall|w: int| 0 <= w < n && adj(r, u, w, true) implies #[trigger] adj(r, v, w, true) by {}
    assert forall|w: int| 0 <= w < n && adj(r, v, w, false) implies #[trigger] adj(r, u, w, false) by {}
    lemma_count_le(r, u, v, n, true);
    lemma_count_le(r, v, u, n, false);
    if !r.edge(u, u) {
        lemma_count_lt(r, u, v, n, true, u);
    } else {
        lemma_count_lt(r, v, u, n, false, u);
    }
}

/// Under a strict total order, only a node is linked to itself by
/// unordered pairs.
proof fn lemma_linked_total(r: BinaryRelation, u: int, v: int)
    requires
        strict_total(r, r.n as int),
        unordered_linked(r, u, v),
    ensures
        u == v,
{
    let p = choose|p: Seq<int>| #[trigger] is_unordered_path(r, p) && p[0] == u && p.last() == v;
    lemma_unordered_path_const(r, p, p.len() as int);
}

proof fn lemma_unordered_path_const(r: BinaryRelation, p: Seq<int>, m: int)
    requires
        strict_total(r, r.n as int),
        is_unordered_path(r, p),
        1 <= m <= p.len(),
    ensures
        p[m - 1] == p[0],
    decreases m,
{
    if m > 1 {
        lemma_unordered_path_const(r, p, m - 1);
        let k = m - 2;
        assert(unordered(r, p[k], p[k + 1]));
        if p[k] != p[k + 1] {
            assert(r.edge(p[k], p[k + 1]) != r.edge(p[k + 1], p[k]));
        }
    }
}

/// Sequence cut: groups merged while each pair of their activities reaches
/// each other both ways or neither way, ordered by how many activities
/// reach and are not reached from their first member, kept when each group
/// reaches the next. Two activities share a group only when a chain of
/// pairs that reach each other both ways or neither way links them.
fn detect_sequence_cut(dfg: &InductiveDFG, reach: &BinaryRelation) -> (res: Option<Vec<Vec<usize>>>)
    requires
        dfg.wf(),
        reach.wf(),
        reach.n == dfg.alphabet@.len(),
    ensures
        res matches Some(gs) ==> partitions(gs.deep_view(), all_nodes(dfg.alphabet@.len() as nat)) && gs@.len() >= 2,
        res matches Some(gs) ==> forall|g: int, k: int, l: int| 0 <= g < gs.deep_view().len() && 0 <= k < gs.deep_view()[g].len()
            && 0 <= l < gs.deep_view()[g].len() ==> #[trigger] unordered_linked(*reach, gs.deep_view()[g][k] as int, gs.deep_view()[g][l] as int),
        res matches Some(gs) ==> forall|t: int| 0 <= t < gs@.len() - 1 ==> #[trigger] group_reaches(*reach, gs@[t]@, gs@[t + 1]@),
        strict_total(*reach, dfg.alphabet@.len() as int) && dfg.alphabet@.len() >= 2 ==> res is Some,
{
    let n = dfg.alphabet.len();
    if n <= 1 {
        return None;
    }
    let (label, reps) = merge_until_stable(n, reach, &dfg.direct, false);
    proof {
        if strict_total(*reach, n as int) {
            assert forall|u: int| 0 <= u < n implies #[trigger] label@[u] == u by {
                assert(reps@.contains(label@[u]));
                let t = choose|t: int| 0 <= t < reps@.len() && reps@[t] == label@[u];
                let r = reps@[t] as int;
                assert(label@[r] == r);
                assert(unordered_linked(*reach, u, r));
                lemma_linked_total(*reach, u, r);
            }
            assert(label@[0] == 0 && label@[1] == 1);
            assert(reps@.contains(label@[0]) && reps@.contains(label@[1]));
            let a = choose|a: int| 0 <= a < reps@.len() && reps@[a] == label@[0];
            let b = choose|b: int| 0 <= b < reps@.len() && reps@[b] == label@[1];
            assert(a != b);
        }
    }
    if reps.len() <= 1 {
        return None;
    }
    proof {
        lemma_fits_double(n as nat);
    }
    let mut keys: Vec<usize> = Vec::new();
    for t in 0..reps.len()
        invariant
            reach.wf(),
            2 * reach.n <= usize::MAX,
            keys@.len() == t,
            forall|x: int| 0 <= x < t ==> #[trigger] keys@[x] == seq_key(*reach, reps@[x] as int),
    {
        keys.push(order_key(reach, reps[t]));
    }
    let order = stable_order(&keys);
    let mut sorted: Vec<usize> = Vec::new();
    for t in 0..order.len()
        invariant
            order@.len() == reps@.len(),
            forall|x: int| 0 <= x < order@.len() ==> #[trigger] order@[x] < reps@.len(),
            sorted@.len() == t,
            forall|x: int| 0 <= x < t ==> #[trigger] sorted@[x] == reps@[order@[x] as int],
    {
        sorted.push(reps[order[t]]);
    }
    proof {
        assert forall|x: int, y: int| 0 <= x < y < sorted@.len() implies sorted@[x] != sorted@[y] by {
            assert(order@[x] != order@[y]);
        }
        assert forall|t: int| 0 <= t < sorted@.len() implies #[trigger] sorted@[t] < n && label@[sorted@[t] as int] == sorted@[t] by {
            assert(reps@[order@[t] as int] == sorted@[t]);
        }
        assert forall|u: int| 0 <= u < n implies sorted@.contains(#[trigger] label@[u]) by {
            assert(reps@.contains(label@[u]));
            let t = choose|t: int| 0 <= t < reps@.len() && reps@[t] == label@[u];
            assert(order@.contains(t as usize));
            let x = choose|x: int| 0 <= x < order@.len() && order@[x] == t as usize;
            assert(sorted@[x] == label@[u]);
        }
    }
    let groups = materialize(&label, &sorted);
    proof {
        assert forall|g: int, k: int, l: int| 0 <= g < groups.deep_view().len() && 0 <= k < groups.deep_view()[g].len()
            && 0 <= l < groups.deep_view()[g].len() implies #[trigger] unordered_linked(*reach, groups.deep_view()[g][k] as int, groups.deep_view()[g][l] as int) by {
            assert(label@[groups.deep_view()[g][k] as int] == sorted@[g]);
            assert(label@[groups.deep_view()[g][l] as int] == sorted@[g]);
        }
    }
    proof {
        if strict_total(*reach, n as int) {
            assert forall|g: int, k: int| 0 <= g < groups@.len() && 0 <= k < groups@[g]@.len() implies #[trigger] groups@[g]@[k] == sorted@[g] by {
                assert(groups.deep_view()[g] =~= groups@[g]@);
                assert(label@[groups.deep_view()[g][k] as int] == sorted@[g]);
                assert(label@[groups@[g]@[k] as int] == groups@[g]@[k]);
            }
            assert forall|t2: int| 0 <= t2 < groups@.len() - 1 implies #[trigger] group_reaches(*reach, groups@[t2]@, groups@[t2 + 1]@) by {
                assert(groups.deep_view()[t2] =~= groups@[t2]@);
                assert(groups.deep_view()[t2 + 1] =~= groups@[t2 + 1]@);
                assert(groups.deep_view()[t2].len() > 0 && groups.deep_view()[t2 + 1].len() > 0);
                let x = sorted@[t2] as int;
                let y = sorted@[t2 + 1] as int;
                assert(groups@[t2]@[0] == x && groups@[t2 + 1]@[0] == y);
                assert(x != y);
                assert(x < n && y < n);
                assert(keys@[order@[t2] as int] <= keys@[order@[t2 + 1] as int]);
                assert(keys@[order@[t2] as int] == seq_key(*reach, x));
                assert(keys@[order@[t2 + 1] as int] == seq_key(*reach, y));
                if !reach.edge(x, y) {
                    assert(reach.edge(y, x));
                    lemma_key_order(*reach, y, x);
                }
                assert(reach.edge(groups@[t2]@[0] as int, groups@[t2 + 1]@[0] as int));
            }
        }
    }
    let m = groups.len();
    let mut t: usize = 0;
    while t + 1 < m
        invariant
            reach.wf(),
            m == groups@.len(),
            t < m,
            forall|g: int, k: int, l: int| 0 <= g < groups.deep_view().len() && 0 <= k < groups.deep_view()[g].len()
                && 0 <= l < groups.deep_view()[g].len() ==> #[trigger] unordered_linked(*reach, groups.deep_view()[g][k] as int, groups.deep_view()[g][l] as int),
            forall|t2: int| 0 <= t2 < t ==> #[trigger] group_reaches(*reach, groups@[t2]@, groups@[t2 + 1]@),
            strict_total(*reach, n as int) ==> forall|t2: int| 0 <= t2 < m - 1 ==> #[trigger] group_reaches(*reach, groups@[t2]@, groups@[t2 + 1]@),
            n == dfg.alphabet@.len(),
        decreases m - t,
    {
        if !reaches_forward(reach, &groups[t], &groups[t + 1]) {
            proof {
                if strict_total(*reach, n as int) {
                    assert(group_reaches(*reach, groups@[t as int]@, groups@[t as int + 1]@));
                }
            }
            return None;
        }
        t = t + 1;
    }
    Some(groups)
}

/// `u` forms or joins a group of its own in the parallel cut: it is tied to
/// another activity, or it alone both starts and ends a trace.
spec fn par_kept(dfg: &InductiveDFG, u: int) -> bool {
    (exists|w: int| 0 <= w < dfg.alphabet@.len() && w != u && #[trigger] tied(dfg.direct, u, w))
        || (dfg.starts@[u] && dfg.ends@[u])
}

/// A group that the parallel cut keeps: several activities, or one that
/// both starts and ends a trace.
spec fn keep_group(dfg: &InductiveDFG, g: Seq<usize>) -> bool {
    g.len() > 1 || (dfg.starts@[g[0] as int] && dfg.ends@[g[0] as int])
}

/// A member of a group of the merged labelling is kept exactly when its
/// group is.
proof fn lemma_par_group(dfg: &InductiveDFG, label: Seq<usize>, reps: Seq<usize>, gv: Seq<Seq<usize>>, t: int, ku: int)
    requires
        dfg.alphabet@.len() <= usize::MAX,
        labelled(label, reps, dfg.alphabet@.len() as nat),
        forall|u: int, v: int| 0 <= u < dfg.alphabet@.len() && 0 <= v < dfg.alphabet@.len()
            ==> (label[u] == label[v] <==> #[trigger] tied(dfg.direct, u, v)),
        partitions(gv, all_nodes(dfg.alphabet@.len() as nat)),
        gv.len() == reps.len(),
        forall|g: int, k: int| 0 <= g < gv.len() && 0 <= k < gv[g].len() ==> label[#[trigger] gv[g][k] as int] == reps[g],
        0 <= t < gv.len(),
        0 <= ku < gv[t].len(),
    ensures
        par_kept(dfg, gv[t][ku] as int) == keep_group(dfg, gv[t]),
{
    let n = dfg.alphabet@.len();
    let u = gv[t][ku] as int;
    assert(label[gv[t][ku] as int] == reps[t]);
    assert(gv[t][ku] < n);
    if exists|w: int| 0 <= w < n && w != u && #[trigger] tied(dfg.direct, u, w) {
        let w = choose|w: int| 0 <= w < n && w != u && #[trigger] tied(dfg.direct, u, w);
        assert(label[u] == label[w]);
        let x = w as usize;
        assert(in_groups(gv, x));
        let (h, l) = choose|h: int, l: int| 0 <= h < gv.len() && 0 <= l < gv[h].len() && #[trigger] gv[h][l] == x;
        assert(label[gv[h][l] as int] == reps[h]);
        assert(h == t);
        assert(l != ku);
        assert(gv[t].len() > 1);
    }
    if gv[t].len() > 1 {
        let k2 = if ku == 0 { 1int } else { 0int };
        assert(gv[t][k2] != gv[t][ku]);
        let w = gv[t][k2] as int;
        assert(label[gv[t][k2] as int] == reps[t]);
        assert(gv[t][k2] < n);
        assert(tied(dfg.direct, u, w));
    } else {
        assert(ku == 0);
    }
}

/// The groups with every node below `n` that none of them holds added,
/// in increasing order, to the first group.
fn absorb_rest(kept: &Vec<Vec<usize>>, n: usize) -> (res: Vec<Vec<usize>>)
    requires
        kept@.len() >= 1,
        forall|g: int| 0 <= g < kept.deep_view().len() ==> (#[trigger] kept.deep_view()[g]).len() > 0 && kept.deep_view()[g].no_duplicates(),
        forall|g: int, k: int| 0 <= g < kept.deep_view().len() && 0 <= k < kept.deep_view()[g].len() ==> #[trigger] kept.deep_view()[g][k] < n,
        forall|g: int, h: int, k: int, l: int|
            0 <= g < kept.deep_view().len() && 0 <= h < kept.deep_view().len() && g != h && 0 <= k < kept.deep_view()[g].len() && 0 <= l < kept.deep_view()[h].len()
                ==> #[trigger] kept.deep_view()[g][k] != #[trigger] kept.deep_view()[h][l],
    ensures
        res.deep_view().len() == kept.deep_view().len(),
        forall|g: int| 1 <= g < res.deep_view().len() ==> #[trigger] res.deep_view()[g] == kept.deep_view()[g],
        forall|k: int| 0 <= k < kept.deep_view()[0].len() ==> #[trigger] res.deep_view()[0][k] == kept.deep_view()[0][k],
        forall|k: int| kept.deep_view()[0].len() <= k < res.deep_view()[0].len() ==> !in_groups(kept.deep_view(), #[trigger] res.deep_view()[0][k]),
        forall|u: usize| u < n && !in_groups(kept.deep_view(), u) ==> #[trigger] res.deep_view()[0].contains(u),
        partitions(res.deep_view(), all_nodes(n as nat)),
{
    let ghost kv = kept.deep_view();
    let mut marks: Vec<bool> = Vec::new();
    for u in 0..n
        invariant
            marks@.len() == u,
            forall|x: int| 0 <= x < u ==> !#[trigger] marks@[x],
    {
        marks.push(false);
    }
    for x in 0..kept.len()
        invariant
            kv == kept.deep_view(),
            marks@.len() == n,
            forall|g: int, k: int| 0 <= g < kv.len() && 0 <= k < kv[g].len() ==> #[trigger] kv[g][k] < n,
            forall|u: int| 0 <= u < n ==> (#[trigger] marks@[u] <==> exists|g: int, k: int| 0 <= g < x && 0 <= k < kv[g].len() && #[trigger] kv[g][k] == u),
    {
        let row = &kept[x];
        proof {
            assert(row@ == kv[x as int]);
        }
        for k in 0..row.len()
            invariant
                kv == kept.deep_view(),
                row@ == kv[x as int],
                marks@.len() == n,
                0 <= x < kv.len(),
                forall|g: int, k: int| 0 <= g < kv.len() && 0 <= k < kv[g].len() ==> #[trigger] kv[g][k] < n,
                forall|u: int| 0 <= u < n ==> (#[trigger] marks@[u] <==> (exists|g: int, k2: int| 0 <= g < x && 0 <= k2 < kv[g].len() && #[trigger] kv[g][k2] == u)
                    || exists|k2: int| 0 <= k2 < k && #[trigger] kv[x as int][k2] == u),
        {
            let u = row[k];
            proof {
                assert(kv[x as int][k as int] == u);
            }
            marks.set(u, true);
        }
    }
    proof {
        assert forall|u: usize| u < n implies (marks@[u as int] <==> #[trigger] in_groups(kv, u)) by {
            if marks@[u as int] {
                let (g, k) = choose|g: int, k: int| 0 <= g < kv.len() && 0 <= k < kv[g].len() && #[trigger] kv[g][k] == u as int;
                assert(kv[g][k] == u);
            }
            if in_groups(kv, u) {
                let (g, k) = choose|g: int, k: int| 0 <= g < kv.len() && 0 <= k < kv[g].len() && #[trigger] kv[g][k] == u;
                assert(kv[g][k] as int == u as int);
            }
        }
    }
    let mut first: Vec<usize> = kept[0].clone();
    proof {
        assert(first@ == kv[0]);
    }
    let ghost f0 = first@;
    for u in 0..n
        invariant
            kv == kept.deep_view(),
            marks@.len() == n,
            forall|v: usize| v < n ==> (marks@[v as int] <==> #[trigger] in_groups(kv, v)),
            first@.len() >= f0.len(),
            forall|k: int| 0 <= k < f0.len() ==> #[trigger] first@[k] == f0[k],
            forall|k: int| f0.len() <= k < first@.len() ==> #[trigger] first@[k] < u && !in_groups(kv, first@[k]),
            forall|a: int, b: int| f0.len() <= a < b < first@.len() ==> first@[a] < first@[b],
            forall|v: usize| v < u && !in_groups(kv, v) ==> #[trigger] first@.contains(v),
    {
        if !marks[u] {
            let ghost fp = first@;
            first.push(u);
            proof {
                assert(!in_groups(kv, u));
                assert forall|v: usize| v < u + 1 && !in_groups(kv, v) implies #[trigger] first@.contains(v) by {
                    if v < u {
                        assert(fp.contains(v));
                        let k = choose|k: int| 0 <= k < fp.len() && fp[k] == v;
                        assert(first@[k] == v);
                    } else {
                        assert(first@[fp.len() as int] == v);
                    }
                }
            }
        } else {
            proof {
                assert(in_groups(kv, u));
            }
        }
    }
    let ghost fv = first@;
    let mut out: Vec<Vec<usize>> = Vec::new();
    out.push(first);
    for x in 1..kept.len()
        invariant
            kv == kept.deep_view(),
            1 <= out@.len(),
            out@.len() == x,
            out.deep_view()[0] == fv,
            forall|g: int| 1 <= g < x ==> #[trigger] out.deep_view()[g] == kv[g],
    {
        let ghost before = out.deep_view();
        out.push(kept[x].clone());
        proof {
            assert(kept@[x as int]@ == kv[x as int]);
            assert(out.deep_view() =~= before.push(kv[x as int]));
        }
    }
    proof {
        let ov = out.deep_view();
        assert(ov.len() == kv.len());
        assert forall|g: int| 0 <= g < ov.len() implies (#[trigger] ov[g]).len() > 0 && ov[g].no_duplicates() by {
            if g == 0 {
                assert(ov[0][0] == kv[0][0]);
                assert forall|a: int, b: int| 0 <= a < b < fv.len() implies fv[a] != fv[b] by {
                    if b >= f0.len() {
                        if a < f0.len() {
                            assert(in_groups(kv, fv[a])) by {
                                assert(kv[0][a] == fv[a]);
                            }
                        } else {
                            assert(fv[a] < fv[b]);
                        }
                    } else {
                        assert(kv[0][a] != kv[0][b]);
                    }
                }
            }
        }
        assert forall|g: int, h: int, k: int, l: int|
            0 <= g < ov.len() && 0 <= h < ov.len() && g != h && 0 <= k < ov[g].len() && 0 <= l < ov[h].len()
            implies #[trigger] ov[g][k] != #[trigger] ov[h][l] by {
            if g == 0 && k >= f0.len() {
                assert(!in_groups(kv, ov[g][k]));
                assert(kv[h][l] == ov[h][l]);
            } else if h == 0 && l >= f0.len() {
                assert(!in_groups(kv, ov[h][l]));
                assert(kv[g][k] == ov[g][k]);
            } else {
                assert(ov[g][k] == kv[g][k]);
                assert(ov[h][l] == kv[h][l]);
            }
        }
        assert forall|g: int, k: int| 0 <= g < ov.len() && 0 <= k < ov[g].len()
            implies #[trigger] ov[g][k] < all_nodes(n as nat).len() && all_nodes(n as nat)[ov[g][k] as int] by {
            if g == 0 && k >= f0.len() {
            } else {
                assert(ov[g][k] == kv[g][k]);
            }
        }
        assert forall|u: usize| u < all_nodes(n as nat).len() && all_nodes(n as nat)[u as int] implies #[trigger] in_groups(ov, u) by {
            if in_groups(kv, u) {
                let (g, k) = choose|g: int, k: int| 0 <= g < kv.len() && 0 <= k < kv[g].len() && #[trigger] kv[g][k] == u;
                assert(ov[g][k] == u);
            } else {
                assert(fv.contains(u));
                let k = choose|k: int| 0 <= k < fv.len() && fv[k] == u;
                assert(ov[0][k] == u);
            }
        }
        assert forall|u: usize| u < n && !in_groups(kv, u) implies #[trigger] ov[0].contains(u) by {
            assert(fv.contains(u));
        }
    }
    out
}

/// Parallel cut: activities grouped by chains of pairs that do not directly
/// follow each other both ways, keeping the groups of several activities
/// and the single activities that both start and end a trace, when at least
/// two groups are kept; every other single activity is absorbed into the
/// first kept group.
fn detect_parallel_cut(dfg: &InductiveDFG, reach: &BinaryRelation) -> (res: Option<Vec<Vec<usize>>>)
    requires
        dfg.wf(),
        reach.wf(),
        reach.n == dfg.alphabet@.len(),
    ensures
        res is Some <==> exists|u: int, v: int| #![trigger tied(dfg.direct, u, v)] 0 <= u < dfg.alphabet@.len() && 0 <= v < dfg.alphabet@.len()
            && par_kept(dfg, u) && par_kept(dfg, v) && !tied(dfg.direct, u, v),
        res matches Some(gs) ==> is_cut(gs.deep_view(), dfg.alphabet@.len() as nat),
        res matches Some(gs) ==> partitions(gs.deep_view(), all_nodes(dfg.alphabet@.len() as nat)),
        res matches Some(gs) ==> forall|u: usize| u < dfg.alphabet@.len() && !par_kept(dfg, u as int) ==> #[trigger] gs.deep_view()[0].contains(u),
        res matches Some(gs) ==> forall|g: int, h: int, k: int, l: int|
            0 <= g < gs.deep_view().len() && 0 <= h < gs.deep_view().len() && 0 <= k < gs.deep_view()[g].len() && 0 <= l < gs.deep_view()[h].len()
            && par_kept(dfg, gs.deep_view()[g][k] as int) && par_kept(dfg, gs.deep_view()[h][l] as int)
            ==> ((g == h) == tied(dfg.direct, #[trigger] gs.deep_view()[g][k] as int, #[trigger] gs.deep_view()[h][l] as int)),
{
    let n = dfg.alphabet.len();
    if n <= 1 {
        proof {
            assert forall|u: int, v: int| 0 <= u < n && 0 <= v < n implies #[trigger] tied(dfg.direct, u, v) by {
                assert(u == v);
                lemma_tied_refl(dfg.direct, u);
            }
        }
        return None;
    }
    let (label, reps) = merge_until_stable(n, reach, &dfg.direct, true);
    if reps.len() <= 1 {
        proof {
            assert forall|u: int, v: int| 0 <= u < n && 0 <= v < n implies #[trigger] tied(dfg.direct, u, v) by {
                assert(reps@.contains(label@[u]) && reps@.contains(label@[v]));
                let a = choose|a: int| 0 <= a < reps@.len() && reps@[a] == label@[u];
                let b = choose|b: int| 0 <= b < reps@.len() && reps@[b] == label@[v];
                assert(a == 0 && b == 0);
            }
        }
        return None;
    }
    let groups = materialize(&label, &reps);
    let ghost gv = groups.deep_view();
    let ghost mask = all_nodes(n as nat);
    let mut kept: Vec<Vec<usize>> = Vec::new();
    let ghost mut src: Seq<int> = Seq::empty();
    for t in 0..groups.len()
        invariant
            gv == groups.deep_view(),
            partitions(gv, mask),
            mask == all_nodes(n as nat),
            n == dfg.alphabet@.len(),
            dfg.wf(),
            src.len() == kept@.len(),
            forall|x: int| 0 <= x < src.len() ==> 0 <= #[trigger] src[x] < t && kept.deep_view()[x] == gv[src[x]],
            forall|x: int, y: int| 0 <= x < y < src.len() ==> #[trigger] src[x] < #[trigger] src[y],
            forall|x: int| 0 <= x < src.len() ==> keep_group(dfg, gv[#[trigger] src[x]]),
            forall|t2: int| 0 <= t2 < t && keep_group(dfg, #[trigger] gv[t2]) ==> exists|x: int| 0 <= x < src.len() && src[x] == t2,
    {
        let g = &groups[t];
        proof {
            assert(g.deep_view() =~= g@);
            assert(g@ == gv[t as int]);
            assert(gv[t as int].len() > 0);
            assert(gv[t as int][0] < n);
        }
        let keep = g.len() > 1 || (dfg.starts[g[0]] && dfg.ends[g[0]]);
        proof {
            assert(keep == keep_group(dfg, gv[t as int]));
        }
        if keep {
            let ghost before = kept.deep_view();
            let ghost sp = src;
            kept.push(g.clone());
            proof {
                assert(kept.deep_view() =~= before.push(gv[t as int]));
                src = src.push(t as int);
                assert forall|t2: int| 0 <= t2 < t + 1 && keep_group(dfg, #[trigger] gv[t2]) implies exists|x: int| 0 <= x < src.len() && src[x] == t2 by {
                    if t2 < t {
                        let x = choose|x: int| 0 <= x < sp.len() && sp[x] == t2;
                        assert(src[x] == t2);
                    } else {
                        assert(src[sp.len() as int] == t2);
                    }
                }
            }
        }
    }
    let ghost kv = kept.deep_view();
    if kept.len() <= 1 {
        proof {
            assert forall|u: int, v: int| 0 <= u < n && 0 <= v < n && par_kept(dfg, u) && par_kept(dfg, v)
                implies #[trigger] tied(dfg.direct, u, v) by {
                assert(mask[u] && mask[v]);
                assert(in_groups(gv, u as usize) && in_groups(gv, v as usize));
                let (tu, ku) = choose|t: int, k: int| 0 <= t < gv.len() && 0 <= k < gv[t].len() && #[trigger] gv[t][k] == u as usize;
                let (tv, kk) = choose|t: int, k: int| 0 <= t < gv.len() && 0 <= k < gv[t].len() && #[trigger] gv[t][k] == v as usize;
                lemma_par_group(dfg, label@, reps@, gv, tu, ku);
                lemma_par_group(dfg, label@, reps@, gv, tv, kk);
                assert(keep_group(dfg, gv[tu]) && keep_group(dfg, gv[tv]));
                let xu = choose|x: int| 0 <= x < src.len() && src[x] == tu;
                let xv = choose|x: int| 0 <= x < src.len() && src[x] == tv;
                assert(xu == 0 && xv == 0);
                assert(tu == tv);
                assert(label@[gv[tu][ku] as int] == reps@[tu]);
                assert(label@[gv[tv][kk] as int] == reps@[tv]);
                assert(label@[u] == label@[v]);
            }
        }
        return None;
    }
    proof {
        assert forall|g: int| 0 <= g < kv.len() implies (#[trigger] kv[g]).len() > 0 && kv[g].no_duplicates() by {
            assert(kv[g] == gv[src[g]]);
        }
        assert forall|g: int, k: int| 0 <= g < kv.len() && 0 <= k < kv[g].len() implies #[trigger] kv[g][k] < n by {
            assert(kv[g] == gv[src[g]]);
        }
        assert forall|g: int, h: int, k: int, l: int|
            0 <= g < kv.len() && 0 <= h < kv.len() && 0 <= k < kv[g].len() && 0 <= l < kv[h].len()
            implies ((g == h) == tied(dfg.direct, #[trigger] kv[g][k] as int, #[trigger] kv[h][l] as int)) && (g != h ==> kv[g][k] != kv[h][l]) by {
            assert(kv[g] == gv[src[g]]);
            assert(kv[h] == gv[src[h]]);
            assert(label@[gv[src[g]][k] as int] == reps@[src[g]]);
            assert(label@[gv[src[h]][l] as int] == reps@[src[h]]);
            assert(gv[src[g]][k] < n && gv[src[h]][l] < n);
            if g != h {
                assert(src[g] != src[h]) by {
                    if g < h {
                        assert(src[g] < src[h]);
                    } else {
                        assert(src[h] < src[g]);
                    }
                }
                assert(reps@[src[g]] != reps@[src[h]]);
                assert(gv[src[g]][k] != gv[src[h]][l]);
            }
        }
        assert forall|u: usize| u < n implies (#[trigger] in_groups(kv, u) == par_kept(dfg, u as int)) by {
            assert(mask[u as int]);
            assert(in_groups(gv, u));
            let (tu, ku) = choose|t: int, k: int| 0 <= t < gv.len() && 0 <= k < gv[t].len() && #[trigger] gv[t][k] == u;
            lemma_par_group(dfg, label@, reps@, gv, tu, ku);
            if in_groups(kv, u) {
                let (x, l) = choose|x: int, l: int| 0 <= x < kv.len() && 0 <= l < kv[x].len() && #[trigger] kv[x][l] == u;
                assert(kv[x] == gv[src[x]]);
                lemma_par_group(dfg, label@, reps@, gv, src[x], l);
            }
            if par_kept(dfg, u as int) {
                let x = choose|x: int| 0 <= x < src.len() && src[x] == tu;
                assert(kv[x] == gv[tu]);
                assert(kv[x][ku] == u);
            }
        }
        let u = kv[0][0] as int;
        let v = kv[1][0] as int;
        assert(in_groups(kv, kv[0][0]));
        assert(in_groups(kv, kv[1][0]));
        assert(!tied(dfg.direct, u, v));
        assert(par_kept(dfg, u) && par_kept(dfg, v));
    }
    let out = absorb_rest(&kept, n);
    proof {
        let ov = out.deep_view();
        lemma_partitions_cut(ov, n as nat);
        assert forall|u: usize| u < n && !par_kept(dfg, u as int) implies #[trigger] ov[0].contains(u) by {
            assert(!in_groups(kv, u));
        }
        assert forall|g: int, k: int| 0 <= g < ov.len() && 0 <= k < ov[g].len() && par_kept(dfg, ov[g][k] as int)
            implies 0 <= k < kv[g].len() && #[trigger] ov[g][k] == kv[g][k] by {
            if g == 0 && k >= kv[0].len() {
                assert(!in_groups(kv, ov[g][k]));
                assert(ov[g][k] < n);
            }
        }
        assert forall|g: int, h: int, k: int, l: int|
            0 <= g < ov.len() && 0 <= h < ov.len() && 0 <= k < ov[g].len() && 0 <= l < ov[h].len()
            && par_kept(dfg, ov[g][k] as int) && par_kept(dfg, ov[h][l] as int)
            implies ((g == h) == tied(dfg.direct, #[trigger] ov[g][k] as int, #[trigger] ov[h][l] as int)) by {
            assert(ov[g][k] == kv[g][k]);
            assert(ov[h][l] == kv[h][l]);
            assert((g == h) == tied(dfg.direct, kv[g][k] as int, kv[h][l] as int));
        }
    }
    Some(out)
}

/// The nodes whose flag is set, in increasing order.
fn flagged(flags: &Vec<bool>, value: bool) -> (res: Vec<usize>)
    ensures
        forall|a: int, b: int| 0 <= a < b < res@.len() ==> res@[a] < res@[b],
        forall|k: int| 0 <= k < res@.len() ==> #[trigger] res@[k] < flags@.len() && flags@[res@[k] as int] == value,
        forall|u: usize| u < flags@.len() && flags@[u as int] == value ==> #[trigger] res@.contains(u),
{
    let mut out: Vec<usize> = Vec::new();
    for u in 0..flags.len()
        invariant
            forall|a: int, b: int| 0 <= a < b < out@.len() ==> out@[a] < out@[b],
            forall|k: int| 0 <= k < out@.len() ==> #[trigger] out@[k] < u && flags@[out@[k] as int] == value,
            forall|x: usize| x < u && flags@[x as int] == value ==> #[trigger] out@.contains(x),
    {
        if flags[u] == value {
            let ghost op = out@;
            out.push(u);
            proof {
                assert forall|x: usize| x < u + 1 && flags@[x as int] == value implies #[trigger] out@.contains(x) by {
                    if x < u {
                        assert(op.contains(x));
                        let k = choose|k: int| 0 <= k < op.len() && op[k] == x;
                        assert(out@[k] == x);
                    } else {
                        assert(out@[out@.len() - 1] == u);
                    }
                }
            }
        }
    }
    out
}

/// Whether some member of `g` has its flag set.
fn any_flagged(flags: &Vec<bool>, g: &Vec<usize>) -> (res: bool)
    ensures
        res == exists|k: int| 0 <= k < g@.len() && #[trigger] g@[k] < flags@.len() && flags@[g@[k] as int],
{
    for k in 0..g.len()
        invariant
            forall|j: int| 0 <= j < k ==> !(#[trigger] g@[j] < flags@.len() && flags@[g@[j] as int]),
    {
        if g[k] < flags.len() && flags[g[k]] {
            return true;
        }
    }
    false
}

/// The activities that neither start nor end a trace.
spec fn rest_mask(dfg: &InductiveDFG) -> Seq<bool> {
    Seq::new(dfg.alphabet@.len() as nat, |u: int| !(dfg.starts@[u] || dfg.ends@[u]))
}

/// `x` neither starts nor ends a trace and is reached from a start activity.
spec fn after_start(dfg: &InductiveDFG, reach: BinaryRelation, x: int) -> bool {
    rest_mask(dfg)[x] && exists|y: int| 0 <= y < dfg.alphabet@.len() && dfg.starts@[y] && #[trigger] reach.edge(y, x)
}

/// `x` neither starts nor ends a trace and reaches an end activity.
spec fn before_end(dfg: &InductiveDFG, reach: BinaryRelation, x: int) -> bool {
    rest_mask(dfg)[x] && exists|y: int| 0 <= y < dfg.alphabet@.len() && dfg.ends@[y] && #[trigger] reach.edge(x, y)
}

/// `u` belongs to the redo part of the loop cut: it neither starts nor ends
/// a trace, and no activity joined to it among such activities is reached
/// from a start activity or reaches an end activity.
spec fn in_redo(dfg: &InductiveDFG, reach: BinaryRelation, u: int) -> bool {
    &&& 0 <= u < dfg.alphabet@.len()
    &&& rest_mask(dfg)[u]
    &&& forall|w: int| 0 <= w < dfg.alphabet@.len() && #[trigger] same_part(dfg, u, w)
        ==> !after_start(dfg, reach, w) && !before_end(dfg, reach, w)
}

/// `w` neither starts nor ends a trace and is `u` or joined to it among
/// such activities.
spec fn same_part(dfg: &InductiveDFG, u: int, w: int) -> bool {
    rest_mask(dfg)[w] && (w == u || joined(dfg.direct, rest_mask(dfg), u, w))
}

/// Loop cut: the start and end activities form the body; the components of
/// the other activities are redo parts unless reachable from a start
/// activity or reaching an end activity, in which case they join the body.
/// There is a cut when some edge exists and both parts are non-empty.
fn detect_loop_cut(dfg: &InductiveDFG, reach: &BinaryRelation) -> (res: Option<Vec<Vec<usize>>>)
    requires
        dfg.wf(),
        reach.wf(),
        reach.n == dfg.alphabet@.len(),
    ensures
        res is Some <==> ((exists|i: int, j: int| #[trigger] dfg.direct.edge(i, j))
            && (exists|u: int| #[trigger] in_redo(dfg, *reach, u))
            && (exists|u: int| 0 <= u < dfg.alphabet@.len() && !#[trigger] in_redo(dfg, *reach, u))),
        res matches Some(gs) ==> is_cut(gs.deep_view(), dfg.alphabet@.len() as nat) && gs@.len() == 2,
        res matches Some(gs) ==> forall|u: int| 0 <= u < dfg.alphabet@.len() ==>
            (gs@[1]@.contains(u as usize) == #[trigger] in_redo(dfg, *reach, u)) && (gs@[0]@.contains(u as usize) == !in_redo(dfg, *reach, u)),
{
    let n = dfg.alphabet.len();
    let ghost rm = rest_mask(dfg);
    if !has_edges(&dfg.direct) {
        return None;
    }
    let mut rest: Vec<bool> = Vec::new();
    let mut any_rest = false;
    for u in 0..n
        invariant
            n == dfg.alphabet@.len(),
            dfg.wf(),
            rm == rest_mask(dfg),
            rest@.len() == u,
            forall|k: int| 0 <= k < u ==> #[trigger] rest@[k] == rm[k],
            any_rest == exists|k: int| 0 <= k < u && #[trigger] rest@[k],
    {
        let r = !(dfg.starts[u] || dfg.ends[u]);
        let ghost before = rest@;
        rest.push(r);
        any_rest = any_rest || r;
        proof {
            assert(rest@[u as int] == r);
            assert forall|k: int| 0 <= k < u implies #[trigger] rest@[k] == before[k] by {}
            if exists|k: int| 0 <= k < u && #[trigger] before[k] {
                let k = choose|k: int| 0 <= k < u && #[trigger] before[k];
                assert(rest@[k]);
            }
        }
    }
    proof {
        assert(rest@ =~= rm);
    }
    if !any_rest {
        proof {
            assert forall|u: int| !#[trigger] in_redo(dfg, *reach, u) by {
                if in_redo(dfg, *reach, u) {
                    assert(rest@[u]);
                }
            }
        }
        return None;
    }
    let links = undirected(&dfg.direct, &rest);
    let closed = transitive_closure(&links);
    let comps = components(&closed, &rest);
    let ghost gv = comps.deep_view();
    proof {
        assert forall|i: int, j: int| #[trigger] links.edge(i, j) == linked(dfg.direct, rm, i, j) by {
            dfg.direct.lemma_edge_in_range(i, j);
            dfg.direct.lemma_edge_in_range(j, i);
        }
        lemma_reaches_joined(links, dfg.direct, rm);
        lemma_closure_exact(links, closed);
        assert forall|i: int, j: int| #[trigger] closed.edge(i, j) implies closed.edge(j, i) by {
            assert(reaches(links, i, j));
            lemma_joined_symmetric(dfg.direct, rm, i, j);
            assert(reaches(links, j, i));
        }
        lemma_component_classes(closed, gv, rm);
        assert forall|i: int, j: int| #[trigger] joined(dfg.direct, rm, i, j) == closed.edge(i, j) by {
            assert(reaches(links, i, j) == joined(dfg.direct, rm, i, j));
        }
    }
    let mut after_start_f: Vec<bool> = Vec::new();
    let mut before_end_f: Vec<bool> = Vec::new();
    for x in 0..n
        invariant
            n == dfg.alphabet@.len(),
            n == reach.n,
            dfg.wf(),
            reach.wf(),
            rest@.len() == n,
            rest@ == rm,
            rm == rest_mask(dfg),
            after_start_f@.len() == x,
            before_end_f@.len() == x,
            forall|k: int| 0 <= k < x ==> #[trigger] after_start_f@[k] == after_start(dfg, *reach, k),
            forall|k: int| 0 <= k < x ==> #[trigger] before_end_f@[k] == before_end(dfg, *reach, k),
    {
        let mut s_found = false;
        let mut e_found = false;
        for y in 0..n
            invariant
                n == dfg.alphabet@.len(),
                n == reach.n,
                dfg.wf(),
                reach.wf(),
                x < n,
                s_found == exists|z: int| 0 <= z < y && dfg.starts@[z] && #[trigger] reach.edge(z, x as int),
                e_found == exists|z: int| 0 <= z < y && dfg.ends@[z] && #[trigger] reach.edge(x as int, z),
        {
            if dfg.starts[y] && reach.is_edge(y, x) {
                s_found = true;
            }
            if dfg.ends[y] && reach.is_edge(x, y) {
                e_found = true;
            }
        }
        after_start_f.push(rest[x] && s_found);
        before_end_f.push(rest[x] && e_found);
        proof {
            assert(after_start_f@[x as int] == after_start(dfg, *reach, x as int));
            assert(before_end_f@[x as int] == before_end(dfg, *reach, x as int));
        }
    }
    let ghost af = after_start_f@;
    let ghost bf = before_end_f@;
    let mut survivors: Vec<usize> = Vec::new();
    for c in 0..comps.len()
        invariant
            gv == comps.deep_view(),
            after_start_f@ == af,
            forall|t: int| 0 <= t < survivors@.len() ==> #[trigger] survivors@[t] < c,
            forall|t: int| 0 <= t < survivors@.len() ==> !exists|k: int| 0 <= k < gv[#[trigger] survivors@[t] as int].len()
                && gv[survivors@[t] as int][k] < af.len() && af[gv[survivors@[t] as int][k] as int],
            forall|d: int| 0 <= d < c && !(exists|k: int| 0 <= k < gv[d].len() && gv[d][k] < af.len() && af[gv[d][k] as int])
                ==> #[trigger] survivors@.contains(d as usize),
    {
        proof {
            assert(comps@[c as int]@ == gv[c as int]);
        }
        if !any_flagged(&after_start_f, &comps[c]) {
            let ghost sp = survivors@;
            survivors.push(c);
            proof {
                assert forall|d: int| 0 <= d < c + 1 && !(exists|k: int| 0 <= k < gv[d].len() && gv[d][k] < af.len() && af[gv[d][k] as int])
                    implies #[trigger] survivors@.contains(d as usize) by {
                    if d < c {
                        assert(sp.contains(d as usize));
                        let t = choose|t: int| 0 <= t < sp.len() && sp[t] == d as usize;
                        assert(survivors@[t] == d as usize);
                    } else {
                        assert(survivors@[sp.len() as int] == d as usize);
                    }
                }
            }
        } else {
            proof {
                assert forall|d: int| 0 <= d < c + 1 && !(exists|k: int| 0 <= k < gv[d].len() && gv[d][k] < af.len() && af[gv[d][k] as int])
                    implies #[trigger] survivors@.contains(d as usize) by {
                    if d == c {
                        let k = choose|k: int| 0 <= k < comps@[c as int]@.len() && comps@[c as int]@[k] < af.len() && af[comps@[c as int]@[k] as int];
                        assert(gv[d][k] == comps@[c as int]@[k]);
                    }
                }
            }
        }
    }
    let mut redo: Vec<bool> = Vec::new();
    for u in 0..n
        invariant
            redo@.len() == u,
            forall|k: int| 0 <= k < u ==> !#[trigger] redo@[k],
    {
        redo.push(false);
    }
    for s in 0..survivors.len()
        invariant
            n == dfg.alphabet@.len(),
            gv == comps.deep_view(),
            before_end_f@ == bf,
            redo@.len() == n,
            forall|u: int| 0 <= u < n ==> (#[trigger] redo@[u] <==> exists|t: int| 0 <= t < s && survivors@[t] < gv.len()
                && !(exists|k: int| 0 <= k < gv[survivors@[t] as int].len() && gv[survivors@[t] as int][k] < bf.len() && bf[gv[survivors@[t] as int][k] as int])
                && #[trigger] gv[survivors@[t] as int].contains(u as usize)),
    {
        let c = survivors[s];
        let ghost r0 = redo@;
        if c < comps.len() && !any_flagged(&before_end_f, &comps[c]) {
            let g = &comps[c];
            proof {
                assert(g@ == gv[c as int]);
            }
            for k in 0..g.len()
                invariant
                    redo@.len() == n,
                    g@ == gv[c as int],
                    forall|u: int| 0 <= u < n ==> (#[trigger] redo@[u] <==> (r0[u] || exists|j: int| 0 <= j < k && g@[j] == u as usize)),
            {
                if g[k] < n {
                    redo.set(g[k], true);
                }
                proof {
                    assert forall|u: int| 0 <= u < n implies (#[trigger] redo@[u] <==> (r0[u] || exists|j: int| 0 <= j < k + 1 && g@[j] == u as usize)) by {
                        if g@[k as int] == u as usize {
                            assert(g@[k as int] < n);
                        }
                    }
                }
            }
            proof {
                assert forall|u: int| 0 <= u < n implies (#[trigger] redo@[u] <==> exists|t: int| 0 <= t < s + 1 && survivors@[t] < gv.len()
                    && !(exists|k: int| 0 <= k < gv[survivors@[t] as int].len() && gv[survivors@[t] as int][k] < bf.len() && bf[gv[survivors@[t] as int][k] as int])
                    && #[trigger] gv[survivors@[t] as int].contains(u as usize)) by {
                    if gv[c as int].contains(u as usize) {
                        let j = choose|j: int| 0 <= j < gv[c as int].len() && gv[c as int][j] == u as usize;
                        assert(g@[j] == u as usize);
                    }
                    if exists|j: int| 0 <= j < g@.len() && g@[j] == u as usize {
                        let j = choose|j: int| 0 <= j < g@.len() && g@[j] == u as usize;
                        assert(gv[c as int][j] == u as usize);
                    }
                    assert(!(exists|k: int| 0 <= k < gv[c as int].len() && gv[c as int][k] < bf.len() && bf[gv[c as int][k] as int])) by {
                        if exists|k: int| 0 <= k < gv[c as int].len() && gv[c as int][k] < bf.len() && bf[gv[c as int][k] as int] {
                            let k = choose|k: int| 0 <= k < gv[c as int].len() && gv[c as int][k] < bf.len() && bf[gv[c as int][k] as int];
                            assert(g@[k] == gv[c as int][k]);
                        }
                    }
                }
            }
        } else {
            proof {
                assert forall|u: int| 0 <= u < n implies (#[trigger] redo@[u] <==> exists|t: int| 0 <= t < s + 1 && survivors@[t] < gv.len()
                    && !(exists|k: int| 0 <= k < gv[survivors@[t] as int].len() && gv[survivors@[t] as int][k] < bf.len() && bf[gv[survivors@[t] as int][k] as int])
                    && #[trigger] gv[survivors@[t] as int].contains(u as usize)) by {
                    if c < comps.len() {
                        let k = choose|k: int| 0 <= k < comps@[c as int]@.len() && comps@[c as int]@[k] < bf.len() && bf[comps@[c as int]@[k] as int];
                        assert(comps@[c as int]@ == gv[c as int]);
                        assert(gv[c as int][k] == comps@[c as int]@[k]);
                    }
                }
            }
        }
    }
    proof {
        lemma_loop_redo(dfg, *reach, rm, closed, gv, af, bf, survivors@, redo@);
    }
    let redo_group = flagged(&redo, true);
    let do_group = flagged(&redo, false);
    if redo_group.len() == 0 || do_group.len() == 0 {
        proof {
            if redo_group.len() == 0 {
                assert forall|u: int| !#[trigger] in_redo(dfg, *reach, u) by {
                    if in_redo(dfg, *reach, u) {
                        assert(redo@[u]);
                        assert(redo_group@.contains(u as usize));
                    }
                }
            } else {
                assert forall|u: int| 0 <= u < n implies #[trigger] in_redo(dfg, *reach, u) by {
                    if !in_redo(dfg, *reach, u) {
                        assert(!redo@[u]);
                        assert(do_group@.contains(u as usize));
                    }
                }
            }
        }
        return None;
    }
    let groups: Vec<Vec<usize>> = vec![do_group, redo_group];
    proof {
        let gv2 = groups.deep_view();
        assert(gv2[0] =~= do_group@);
        assert(gv2[1] =~= redo_group@);
        assert(groups@[0]@ == do_group@);
        assert(groups@[1]@ == redo_group@);
        assert forall|a: int, b: int| 0 <= a < b < do_group@.len() implies do_group@[a] != do_group@[b] by {
            assert(do_group@[a] < do_group@[b]);
        }
        assert forall|a: int, b: int| 0 <= a < b < redo_group@.len() implies redo_group@[a] != redo_group@[b] by {
            assert(redo_group@[a] < redo_group@[b]);
        }
        assert forall|g: int, h: int, k: int, l: int|
            0 <= g < gv2.len() && 0 <= h < gv2.len() && g != h && 0 <= k < gv2[g].len() && 0 <= l < gv2[h].len()
            implies #[trigger] gv2[g][k] != #[trigger] gv2[h][l] by {
            if g == 0 {
                assert(!redo@[gv2[g][k] as int] && redo@[gv2[h][l] as int]);
            } else {
                assert(redo@[gv2[g][k] as int] && !redo@[gv2[h][l] as int]);
            }
        }
        assert(in_redo(dfg, *reach, redo_group@[0] as int));
        assert(!in_redo(dfg, *reach, do_group@[0] as int));
        assert forall|u: int| 0 <= u < n implies
            (groups@[1]@.contains(u as usize) == #[trigger] in_redo(dfg, *reach, u)) && (groups@[0]@.contains(u as usize) == !in_redo(dfg, *reach, u)) by {
            if redo@[u] {
                assert(redo_group@.contains(u as usize));
                if do_group@.contains(u as usize) {
                    let k = choose|k: int| 0 <= k < do_group@.len() && do_group@[k] == u as usize;
                }
            } else {
                assert(do_group@.contains(u as usize));
                if redo_group@.contains(u as usize) {
                    let k = choose|k: int| 0 <= k < redo_group@.len() && redo_group@[k] == u as usize;
                }
            }
        }
    }
    Some(groups)
}

/// The redo flags computed by the loop cut are `in_redo`.
proof fn lemma_loop_redo(
    dfg: &InductiveDFG,
    reach: BinaryRelation,
    rm: Seq<bool>,
    closed: BinaryRelation,
    gv: Seq<Seq<usize>>,
    af: Seq<bool>,
    bf: Seq<bool>,
    survivors: Seq<usize>,
    redo: Seq<bool>,
)
    requires
        rm == rest_mask(dfg),
        dfg.alphabet@.len() <= usize::MAX,
        gv.len() <= usize::MAX,
        partitions(gv, rm),
        forall|g: int, h: int, k: int, l: int| 0 <= g < gv.len() && 0 <= h < gv.len() && 0 <= k < gv[g].len() && 0 <= l < gv[h].len()
            ==> ((g == h) == (#[trigger] gv[g][k] == #[trigger] gv[h][l] || closed.edge(gv[g][k] as int, gv[h][l] as int))),
        forall|i: int, j: int| #[trigger] joined(dfg.direct, rm, i, j) == closed.edge(i, j),
        af.len() == dfg.alphabet@.len(),
        bf.len() == dfg.alphabet@.len(),
        forall|k: int| 0 <= k < af.len() ==> #[trigger] af[k] == after_start(dfg, reach, k),
        forall|k: int| 0 <= k < bf.len() ==> #[trigger] bf[k] == before_end(dfg, reach, k),
        forall|t: int| 0 <= t < survivors.len() ==> #[trigger] survivors[t] < gv.len(),
        forall|t: int| 0 <= t < survivors.len() ==> !exists|k: int| 0 <= k < gv[#[trigger] survivors[t] as int].len()
            && gv[survivors[t] as int][k] < af.len() && af[gv[survivors[t] as int][k] as int],
        forall|d: int| 0 <= d < gv.len() && !(exists|k: int| 0 <= k < gv[d].len() && gv[d][k] < af.len() && af[gv[d][k] as int])
            ==> #[trigger] survivors.contains(d as usize),
        redo.len() == dfg.alphabet@.len(),
        forall|u: int| 0 <= u < redo.len() ==> (#[trigger] redo[u] <==> exists|t: int| 0 <= t < survivors.len() && survivors[t] < gv.len()
            && !(exists|k: int| 0 <= k < gv[survivors[t] as int].len() && gv[survivors[t] as int][k] < bf.len() && bf[gv[survivors[t] as int][k] as int])
            && #[trigger] gv[survivors[t] as int].contains(u as usize)),
    ensures
        forall|u: int| 0 <= u < redo.len() ==> #[trigger] redo[u] == in_redo(dfg, reach, u),
{
    let n = dfg.alphabet@.len();
    assert(rm.len() == n);
    assert forall|u: int| 0 <= u < redo.len() implies #[trigger] redo[u] == in_redo(dfg, reach, u) by {
        if redo[u] {
            lemma_redo_forward(dfg, reach, rm, closed, gv, af, bf, survivors, redo, u);
        }
        if in_redo(dfg, reach, u) {
            lemma_redo_backward(dfg, reach, rm, closed, gv, af, bf, survivors, redo, u);
        }
    }
}

/// A node joined to a member of a group is in that group.
proof fn lemma_class_member(dfg: &InductiveDFG, rm: Seq<bool>, closed: BinaryRelation, gv: Seq<Seq<usize>>, c: int, ku: int, w: int)
    requires
        rm == rest_mask(dfg),
        dfg.alphabet@.len() <= usize::MAX,
        gv.len() <= usize::MAX,
        partitions(gv, rm),
        forall|g: int, h: int, k: int, l: int| 0 <= g < gv.len() && 0 <= h < gv.len() && 0 <= k < gv[g].len() && 0 <= l < gv[h].len()
            ==> ((g == h) == (#[trigger] gv[g][k] == #[trigger] gv[h][l] || closed.edge(gv[g][k] as int, gv[h][l] as int))),
        0 <= c < gv.len(),
        0 <= ku < gv[c].len(),
        0 <= w < dfg.alphabet@.len(),
        rm[w],
        w == gv[c][ku] as int || closed.edge(gv[c][ku] as int, w),
    ensures
        exists|l: int| 0 <= l < gv[c].len() && gv[c][l] == w as usize,
{
    assert(rm.len() == dfg.alphabet@.len());
    let x = w as usize;
    assert(x < rm.len() && rm[x as int]);
    assert(in_groups(gv, x));
    let (h, l) = choose|h: int, l: int| 0 <= h < gv.len() && 0 <= l < gv[h].len() && #[trigger] gv[h][l] == x;
    assert(gv[c][ku] == gv[h][l] || closed.edge(gv[c][ku] as int, gv[h][l] as int));
    assert(h == c);
}

proof fn lemma_redo_forward(
    dfg: &InductiveDFG,
    reach: BinaryRelation,
    rm: Seq<bool>,
    closed: BinaryRelation,
    gv: Seq<Seq<usize>>,
    af: Seq<bool>,
    bf: Seq<bool>,
    survivors: Seq<usize>,
    redo: Seq<bool>,
    u: int,
)
    requires
        rm == rest_mask(dfg),
        dfg.alphabet@.len() <= usize::MAX,
        gv.len() <= usize::MAX,
        partitions(gv, rm),
        forall|g: int, h: int, k: int, l: int| 0 <= g < gv.len() && 0 <= h < gv.len() && 0 <= k < gv[g].len() && 0 <= l < gv[h].len()
            ==> ((g == h) == (#[trigger] gv[g][k] == #[trigger] gv[h][l] || closed.edge(gv[g][k] as int, gv[h][l] as int))),
        forall|i: int, j: int| #[trigger] joined(dfg.direct, rm, i, j) == closed.edge(i, j),
        af.len() == dfg.alphabet@.len(),
        bf.len() == dfg.alphabet@.len(),
        forall|k: int| 0 <= k < af.len() ==> #[trigger] af[k] == after_start(dfg, reach, k),
        forall|k: int| 0 <= k < bf.len() ==> #[trigger] bf[k] == before_end(dfg, reach, k),
        forall|t: int| 0 <= t < survivors.len() ==> #[trigger] survivors[t] < gv.len(),
        forall|t: int| 0 <= t < survivors.len() ==> !exists|k: int| 0 <= k < gv[#[trigger] survivors[t] as int].len()
            && gv[survivors[t] as int][k] < af.len() && af[gv[survivors[t] as int][k] as int],
        forall|d: int| 0 <= d < gv.len() && !(exists|k: int| 0 <= k < gv[d].len() && gv[d][k] < af.len() && af[gv[d][k] as int])
            ==> #[trigger] survivors.contains(d as usize),
        redo.len() == dfg.alphabet@.len(),
        forall|u: int| 0 <= u < redo.len() ==> (#[trigger] redo[u] <==> exists|t: int| 0 <= t < survivors.len() && survivors[t] < gv.len()
            && !(exists|k: int| 0 <= k < gv[survivors[t] as int].len() && gv[survivors[t] as int][k] < bf.len() && bf[gv[survivors[t] as int][k] as int])
            && #[trigger] gv[survivors[t] as int].contains(u as usize)),
        redo[u],
        0 <= u < redo.len(),
    ensures
        in_redo(dfg, reach, u),
{
    let n = dfg.alphabet@.len();
    assert(rm.len() == n);
    let t = choose|t: int| 0 <= t < survivors.len() && survivors[t] < gv.len()
        && !(exists|k: int| 0 <= k < gv[survivors[t] as int].len() && gv[survivors[t] as int][k] < bf.len() && bf[gv[survivors[t] as int][k] as int])
        && #[trigger] gv[survivors[t] as int].contains(u as usize);
    let c = survivors[t] as int;
    assert(gv[c].contains(u as usize));
    let ku = choose|ku: int| 0 <= ku < gv[c].len() && gv[c][ku] == u as usize;
    assert(gv[c][ku] < rm.len() && rm[gv[c][ku] as int]);
    assert(rm[u]);
    assert(!exists|k: int| 0 <= k < gv[survivors[t] as int].len() && gv[survivors[t] as int][k] < af.len() && af[gv[survivors[t] as int][k] as int]);
    assert forall|w: int| 0 <= w < n && #[trigger] same_part(dfg, u, w)
        implies !after_start(dfg, reach, w) && !before_end(dfg, reach, w) by {
        assert(rm[w]);
        if w != u {
            assert(closed.edge(u, w));
        }
        lemma_class_member(dfg, rm, closed, gv, c, ku, w);
        let l = choose|l: int| 0 <= l < gv[c].len() && gv[c][l] == w as usize;
        assert(!(gv[c][l] < af.len() && af[gv[c][l] as int]));
        assert(!(gv[c][l] < bf.len() && bf[gv[c][l] as int]));
        assert(af[w] == after_start(dfg, reach, w));
        assert(bf[w] == before_end(dfg, reach, w));
    }
}

proof fn lemma_redo_backward(
    dfg: &InductiveDFG,
    reach: BinaryRelation,
    rm: Seq<bool>,
    closed: BinaryRelation,
    gv: Seq<Seq<usize>>,
    af: Seq<bool>,
    bf: Seq<bool>,
    survivors: Seq<usize>,
    redo: Seq<bool>,
    u: int,
)
    requires
        rm == rest_mask(dfg),
        dfg.alphabet@.len() <= usize::MAX,
        gv.len() <= usize::MAX,
        partitions(gv, rm),
        forall|g: int, h: int, k: int, l: int| 0 <= g < gv.len() && 0 <= h < gv.len() && 0 <= k < gv[g].len() && 0 <= l < gv[h].len()
            ==> ((g == h) == (#[trigger] gv[g][k] == #[trigger] gv[h][l] || closed.edge(gv[g][k] as int, gv[h][l] as int))),
        forall|i: int, j: int| #[trigger] joined(dfg.direct, rm, i, j) == closed.edge(i, j),
        af.len() == dfg.alphabet@.len(),
        bf.len() == dfg.alphabet@.len(),
        forall|k: int| 0 <= k < af.len() ==> #[trigger] af[k] == after_start(dfg, reach, k),
        forall|k: int| 0 <= k < bf.len() ==> #[trigger] bf[k] == before_end(dfg, reach, k),
        forall|t: int| 0 <= t < survivors.len() ==> #[trigger] survivors[t] < gv.len(),
        forall|t: int| 0 <= t < survivors.len() ==> !exists|k: int| 0 <= k < gv[#[trigger] survivors[t] as int].len()
            && gv[survivors[t] as int][k] < af.len() && af[gv[survivors[t] as int][k] as int],
        forall|d: int| 0 <= d < gv.len() && !(exists|k: int| 0 <= k < gv[d].len() && gv[d][k] < af.len() && af[gv[d][k] as int])
            ==> #[trigger] survivors.contains(d as usize),
        redo.len() == dfg.alphabet@.len(),
        forall|u: int| 0 <= u < redo.len() ==> (#[trigger] redo[u] <==> exists|t: int| 0 <= t < survivors.len() && survivors[t] < gv.len()
            && !(exists|k: int| 0 <= k < gv[survivors[t] as int].len() && gv[survivors[t] as int][k] < bf.len() && bf[gv[survivors[t] as int][k] as int])
            && #[trigger] gv[survivors[t] as int].contains(u as usize)),
        in_redo(dfg, reach, u),
        0 <= u < redo.len(),
    ensures
        redo[u],
{
    let n = dfg.alphabet@.len();
    assert(rm.len() == n);
    let x = u as usize;
    assert(x < rm.len() && rm[x as int]);
    assert(in_groups(gv, x));
    let (c, ku) = choose|c: int, ku: int| 0 <= c < gv.len() && 0 <= ku < gv[c].len() && #[trigger] gv[c][ku] == x;
    assert forall|k: int| 0 <= k < gv[c].len() implies !(#[trigger] gv[c][k] < af.len() && af[gv[c][k] as int])
        && !(gv[c][k] < bf.len() && bf[gv[c][k] as int]) by {
        let w = gv[c][k] as int;
        assert(gv[c][ku] == gv[c][k] || closed.edge(gv[c][ku] as int, gv[c][k] as int));
        assert(gv[c][k] < rm.len() && rm[gv[c][k] as int]);
        if w != u {
            assert(closed.edge(u, w));
            assert(joined(dfg.direct, rm, u, w));
        }
        assert(0 <= w < n && rm[w]);
        assert(same_part(dfg, u, w));
        assert(!after_start(dfg, reach, w) && !before_end(dfg, reach, w));
        assert(af[w] == after_start(dfg, reach, w));
        assert(bf[w] == before_end(dfg, reach, w));
    }
    assert(!(exists|k: int| 0 <= k < gv[c].len() && gv[c][k] < af.len() && af[gv[c][k] as int]));
    assert(survivors.contains(c as usize));
    let t = choose|t: int| 0 <= t < survivors.len() && survivors[t] == c as usize;
    assert(survivors[t] as int == c);
    assert(gv[c][ku] == x);
    assert(gv[survivors[t] as int].contains(x));
    assert(!(exists|k: int| 0 <= k < gv[survivors[t] as int].len() && gv[survivors[t] as int][k] < bf.len() && bf[gv[survivors[t] as int][k] as int]));
}

/// A partition into at least two groups is a cut.
proof fn lemma_partitions_cut(gs: Seq<Seq<usize>>, n: nat)
    requires
        partitions(gs, all_nodes(n)),
        gs.len() >= 2,
    ensures
        is_cut(gs, n),
{
}

/// `t` is a leaf labelled `a`.
pub open spec fn is_activity_leaf(t: ProcessTree, a: Seq<char>) -> bool {
    &&& t.operator is None
    &&& t.children@.len() == 0
    &&& (t.label matches Some(l) && l@ == a)
}

/// One leaf per activity of `dfg`, in alphabet order.
fn activity_leaves(dfg: &InductiveDFG, Ghost(names): Ghost<Seq<Seq<char>>>) -> (res: Vec<ProcessTree>)
    requires
        dfg.wf(),
        forall|k: int| 0 <= k < dfg.names().len() ==> names.contains(#[trigger] dfg.names()[k]),
    ensures
        res@.len() == dfg.alphabet@.len(),
        mined_forest(res@, names),
        forall|k: int| 0 <= k < res@.len() ==> is_activity_leaf(#[trigger] res@[k], dfg.names()[k]),
{
    let mut out: Vec<ProcessTree> = Vec::new();
    for k in 0..dfg.alphabet.len()
        invariant
            dfg.wf(),
            forall|k: int| 0 <= k < dfg.names().len() ==> names.contains(#[trigger] dfg.names()[k]),
            out@.len() == k,
            mined_forest(out@, names),
            forall|j: int| 0 <= j < k ==> is_activity_leaf(#[trigger] out@[j], dfg.names()[j]),
    {
        let name = dfg.alphabet[k].clone();
        let leaf = ProcessTree::leaf(Some(name));
        proof {
            assert(dfg.names()[k as int] == dfg.alphabet@[k as int]@);
            assert(names.contains(dfg.names()[k as int]));
            assert(leaf.label == Some(name));
            assert(mined_tree(leaf, names));
        }
        let ghost op = out@;
        out.push(leaf);
        proof {
            assert(out@.drop_last() =~= op);
            assert(out@.last() == leaf);
        }
    }
    out
}

/// The flower model: a loop with a silent body and every activity in
/// parallel as the redo part.
fn flower_model(dfg: &InductiveDFG, Ghost(names): Ghost<Seq<Seq<char>>>) -> (res: ProcessTree)
    requires
        dfg.wf(),
        dfg.alphabet@.len() >= 2,
        forall|k: int| 0 <= k < dfg.names().len() ==> names.contains(#[trigger] dfg.names()[k]),
    ensures
        mined_tree(res, names),
        res.operator == Some(PtOperator::Loop),
        res.label is None,
        res.children@.len() == 2,
        res.children@[0].operator is None,
        res.children@[0].label is None,
        res.children@[0].children@.len() == 0,
        res.children@[1].operator == Some(PtOperator::Parallel),
        res.children@[1].label is None,
        res.children@[1].children@.len() == dfg.alphabet@.len(),
        forall|k: int| 0 <= k < dfg.alphabet@.len() ==> is_activity_leaf(#[trigger] res.children@[1].children@[k], dfg.names()[k]),
{
    let leaves = activity_leaves(dfg, Ghost(names));
    let redo = ProcessTree::internal(PtOperator::Parallel, leaves);
    let tau = ProcessTree::leaf(None);
    proof {
        assert(mined_tree(redo, names));
        assert(mined_tree(tau, names));
    }
    let children: Vec<ProcessTree> = vec![tau, redo];
    proof {
        assert(children@.drop_last() =~= seq![tau]);
        assert(seq![tau].drop_last() =~= Seq::<ProcessTree>::empty());
        assert(mined_forest(Seq::<ProcessTree>::empty(), names));
        assert(mined_forest(seq![tau], names));
        assert(mined_forest(children@, names));
    }
    ProcessTree::internal(PtOperator::Loop, children)
}

/// Some leaf of `t` is labelled `a`.
pub open spec fn has_leaf(t: ProcessTree, a: Seq<char>) -> bool
    decreases t, 0nat,
{
    proof {
        assert(decreases_to!(t => t.children));
        assert(decreases_to!(t.children => t.children@));
    }
    match t.operator {
        None => (t.label matches Some(l) && l@ == a),
        Some(_) => forest_has_leaf(t.children@, a),
    }
}

/// Some leaf of one of the trees `cs` is labelled `a`.
pub open spec fn forest_has_leaf(cs: Seq<ProcessTree>, a: Seq<char>) -> bool
    decreases cs, 1nat,
{
    cs.len() > 0 && (forest_has_leaf(cs.drop_last(), a) || has_leaf(cs.last(), a))
}

proof fn lemma_forest_has_leaf(cs: Seq<ProcessTree>, i: int, a: Seq<char>)
    requires
        0 <= i < cs.len(),
        has_leaf(cs[i], a),
    ensures
        forest_has_leaf(cs, a),
    decreases cs.len(),
{
    if i < cs.len() - 1 {
        assert(cs.drop_last()[i] == cs[i]);
        lemma_forest_has_leaf(cs.drop_last(), i, a);
    }
}

/// Every activity of each of the leaves `cs` labels a leaf of the forest.
proof fn lemma_leaves_cover(cs: Seq<ProcessTree>, dfg: &InductiveDFG)
    requires
        cs.len() == dfg.alphabet@.len(),
        forall|k: int| 0 <= k < cs.len() ==> is_activity_leaf(#[trigger] cs[k], dfg.names()[k]),
    ensures
        forall|k: int| 0 <= k < dfg.alphabet@.len() ==> forest_has_leaf(cs, #[trigger] dfg.names()[k]),
{
    assert forall|k: int| 0 <= k < dfg.alphabet@.len() implies forest_has_leaf(cs, #[trigger] dfg.names()[k]) by {
        assert(is_activity_leaf(cs[k], dfg.names()[k]));
        assert(has_leaf(cs[k], dfg.names()[k]));
        lemma_forest_has_leaf(cs, k, dfg.names()[k]);
    }
}

/// Mines each group of a cut and joins the results under `op`.
fn mine_cut(dfg: &InductiveDFG, op: PtOperator, groups: &Vec<Vec<usize>>, Ghost(names): Ghost<Seq<Seq<char>>>) -> (res: ProcessTree)
    requires
        dfg.wf(),
        forall|k: int| 0 <= k < dfg.names().len() ==> names.contains(#[trigger] dfg.names()[k]),
        is_cut(groups.deep_view(), dfg.alphabet@.len() as nat),
        forall|u: usize| u < dfg.alphabet@.len() ==> #[trigger] in_groups(groups.deep_view(), u),
        op == PtOperator::Loop ==> groups@.len() == 2,
    ensures
        mined_tree(res, names),
        res.operator == Some(op),
        forall|k: int| 0 <= k < dfg.alphabet@.len() ==> has_leaf(res, #[trigger] dfg.names()[k]),
        res.children@.len() == groups@.len(),
        forall|g: int, k: int| 0 <= g < groups.deep_view().len() && 0 <= k < groups.deep_view()[g].len()
            ==> has_leaf(res.children@[g], dfg.names()[#[trigger] groups.deep_view()[g][k] as int]),
        forall|g: int| 0 <= g < groups.deep_view().len() ==> mined_tree(#[trigger] res.children@[g], group_names(dfg, groups.deep_view()[g])),
    decreases dfg.alphabet@.len(), 0nat,
{
    let ghost gv = groups.deep_view();
    let mut children: Vec<ProcessTree> = Vec::new();
    for t in 0..groups.len()
        invariant
            dfg.wf(),
            forall|k: int| 0 <= k < dfg.names().len() ==> names.contains(#[trigger] dfg.names()[k]),
            gv == groups.deep_view(),
            is_cut(gv, dfg.alphabet@.len() as nat),
            children@.len() == t,
            mined_forest(children@, names),
            forall|g: int, k: int| 0 <= g < t && 0 <= k < gv[g].len() ==> forest_has_leaf(children@, dfg.names()[#[trigger] gv[g][k] as int]),
            forall|g: int, k: int| 0 <= g < t && 0 <= k < gv[g].len() ==> has_leaf(children@[g], dfg.names()[#[trigger] gv[g][k] as int]),
            forall|g: int| 0 <= g < t ==> mined_tree(#[trigger] children@[g], group_names(dfg, gv[g])),
    {
        proof {
            lemma_cut_groups_smaller(gv, dfg.alphabet@.len() as nat, t as int);
            assert(groups@[t as int].deep_view() =~= groups@[t as int]@);
            assert(gv[t as int] == groups@[t as int]@);
        }
        let sub = project(dfg, &groups[t]);
        proof {
            assert forall|k: int| 0 <= k < sub.names().len() implies names.contains(#[trigger] sub.names()[k]) by {
                assert(sub.names()[k] == dfg.names()[groups@[t as int]@[k] as int]);
            }
        }
        let child = mine_dfg(&sub, Ghost(sub.names()));
        proof {
            assert(sub.names() =~= group_names(dfg, gv[t as int]));
            assert forall|x: Seq<char>| #[trigger] sub.names().contains(x) implies names.contains(x) by {
                let k = choose|k: int| 0 <= k < sub.names().len() && sub.names()[k] == x;
                assert(names.contains(sub.names()[k]));
            }
            lemma_mined_mono(child, sub.names(), names);
        }
        let ghost cp = children@;
        children.push(child);
        proof {
            assert(children@.drop_last() =~= cp);
            assert(children@.last() == child);
            assert forall|g: int, k: int| 0 <= g < t + 1 && 0 <= k < gv[g].len()
                implies has_leaf(children@[g], dfg.names()[#[trigger] gv[g][k] as int]) by {
                if g == t {
                    assert(gv[g][k] == groups@[t as int]@[k]);
                    assert(sub.names()[k] == dfg.names()[groups@[t as int]@[k] as int]);
                    assert(has_leaf(child, sub.names()[k]));
                } else {
                    assert(children@[g] == cp[g]);
                }
            }
            assert forall|g: int| 0 <= g < t + 1 implies mined_tree(#[trigger] children@[g], group_names(dfg, gv[g])) by {
                if g < t {
                    assert(children@[g] == cp[g]);
                }
            }
            assert forall|g: int, k: int| 0 <= g < t + 1 && 0 <= k < gv[g].len()
                implies forest_has_leaf(children@, dfg.names()[#[trigger] gv[g][k] as int]) by {
                if g == t {
                    assert(gv[g][k] == groups@[t as int]@[k]);
                    assert(sub.names()[k] == dfg.names()[groups@[t as int]@[k] as int]);
                    assert(has_leaf(child, sub.names()[k]));
                }
            }
        }
    }
    let res = ProcessTree::internal(op, children);
    proof {
        assert forall|k: int| 0 <= k < dfg.alphabet@.len() implies has_leaf(res, #[trigger] dfg.names()[k]) by {
            let u = k as usize;
            assert(in_groups(gv, u));
            let (g, l) = choose|g: int, l: int| 0 <= g < gv.len() && 0 <= l < gv[g].len() && #[trigger] gv[g][l] == u;
            assert(forest_has_leaf(children@, dfg.names()[gv[g][l] as int]));
        }
    }
    res
}

/// Mines a directly-follows graph: a silent leaf for no activity, a leaf
/// for one, a choice between leaves when no activity follows another, and
/// otherwise the first cut found among exclusive choice, sequence, parallel
/// and loop, or the flower model.
fn mine_dfg(dfg: &InductiveDFG, Ghost(names): Ghost<Seq<Seq<char>>>) -> (res: ProcessTree)
    requires
        dfg.wf(),
        forall|k: int| 0 <= k < dfg.names().len() ==> names.contains(#[trigger] dfg.names()[k]),
    ensures
        mined_tree(res, names),
        dfg.alphabet@.len() >= 2 ==> (res.operator == Some(PtOperator::Xor) <==> xor_split(dfg)),
        dfg.alphabet@.len() >= 2 && res.operator == Some(PtOperator::Parallel) ==> par_split(dfg),
        dfg.alphabet@.len() >= 2 && res.operator == Some(PtOperator::Loop) ==> !par_split(dfg),
        dfg.alphabet@.len() >= 2 ==> res.operator is Some,
        dfg.alphabet@.len() >= 2 && chain_ordered(dfg) ==> res.operator == Some(PtOperator::Sequence),
        dfg.alphabet@.len() >= 2 && res.operator == Some(PtOperator::Loop) ==> res.children@.len() == 2 && ((exists|gs: Seq<Seq<usize>>, r: BinaryRelation| {
            &&& #[trigger] loop_cut(dfg, r, gs)
            &&& forall|g: int, k: int| 0 <= g < gs.len() && 0 <= k < gs[g].len() ==> has_leaf(res.children@[g], dfg.names()[#[trigger] gs[g][k] as int])
            &&& forall|g: int| 0 <= g < gs.len() ==> mined_tree(#[trigger] res.children@[g], group_names(dfg, gs[g]))
        }) || (res.children@[0].operator is None && res.children@[0].label is None)),
        dfg.alphabet@.len() >= 2 && res.operator == Some(PtOperator::Parallel) ==> exists|gs: Seq<Seq<usize>>| {
            &&& #[trigger] parallel_cut(dfg, gs)
            &&& res.children@.len() == gs.len()
            &&& forall|g: int, k: int| 0 <= g < gs.len() && 0 <= k < gs[g].len() ==> has_leaf(res.children@[g], dfg.names()[#[trigger] gs[g][k] as int])
            &&& forall|g: int| 0 <= g < gs.len() ==> mined_tree(#[trigger] res.children@[g], group_names(dfg, gs[g]))
        },
        dfg.alphabet@.len() >= 2 && res.operator == Some(PtOperator::Sequence) ==> exists|gs: Seq<Seq<usize>>, r: BinaryRelation| {
            &&& #[trigger] sequence_cut(dfg, r, gs)
            &&& res.children@.len() == gs.len()
            &&& forall|g: int, k: int| 0 <= g < gs.len() && 0 <= k < gs[g].len() ==> has_leaf(res.children@[g], dfg.names()[#[trigger] gs[g][k] as int])
            &&& forall|g: int| 0 <= g < gs.len() ==> mined_tree(#[trigger] res.children@[g], group_names(dfg, gs[g]))
        },
        dfg.alphabet@.len() == 0 ==> res.operator is None && res.label is None,
        dfg.alphabet@.len() == 1 ==> res.operator is None && (res.label matches Some(l) && l@ == dfg.names()[0]),
        forall|k: int| 0 <= k < dfg.alphabet@.len() ==> has_leaf(res, #[trigger] dfg.names()[k]),
    decreases dfg.alphabet@.len(), 1nat,
{
    let n = dfg.alphabet.len();
    if n == 0 {
        return ProcessTree::leaf(None);
    }
    if n == 1 {
        proof {
            assert(names.contains(dfg.names()[0]));
        }
        return ProcessTree::leaf(Some(dfg.alphabet[0].clone()));
    }
    if !has_edges(&dfg.direct) {
        let leaves = activity_leaves(dfg, Ghost(names));
        proof {
            if chain_ordered(dfg) {
                lemma_chain_not_split(dfg);
            }
            assert(!joined(dfg.direct, all_nodes(n as nat), 0, 1)) by {
                if joined(dfg.direct, all_nodes(n as nat), 0, 1) {
                    let p = choose|p: Seq<int>| #[trigger] is_linked_path(dfg.direct, all_nodes(n as nat), p) && p[0] == 0 && p.last() == 1;
                    let k = 0int;
                    assert(linked(dfg.direct, all_nodes(n as nat), p[k], p[k + 1]));
                    assert(dfg.direct.edge(p[k], p[k + 1]) || dfg.direct.edge(p[k + 1], p[k]));
                }
            }
            assert(xor_split(dfg));
            lemma_leaves_cover(leaves@, dfg);
        }
        return ProcessTree::internal(PtOperator::Xor, leaves);
    }
    let reach = transitive_closure(&dfg.direct);
    proof {
        if chain_ordered(dfg) {
            lemma_chain_not_split(dfg);
            lemma_chain_total(dfg, reach);
        }
    }
    if let Some(groups) = detect_xor_cut(dfg) {
        proof {
            lemma_partitions_cut(groups.deep_view(), n as nat);
        }
        return mine_cut(dfg, PtOperator::Xor, &groups, Ghost(names));
    }
    if let Some(groups) = detect_sequence_cut(dfg, &reach) {
        proof {
            lemma_partitions_cut(groups.deep_view(), n as nat);
        }
        let res = mine_cut(dfg, PtOperator::Sequence, &groups, Ghost(names));
        proof {
            let gs = groups.deep_view();
            assert forall|i: int, j: int| #[trigger] reach.edge(i, j) == reaches(dfg.direct, i, j) by {
                if reaches(dfg.direct, i, j) {
                    let p = choose|p: Seq<int>| #[trigger] is_path(dfg.direct, p) && p[0] == i && p.last() == j;
                    lemma_closure_holds_path(dfg.direct, reach, p);
                }
            }
            assert forall|t: int| 0 <= t < gs.len() - 1 implies #[trigger] group_reaches(reach, gs[t], gs[t + 1]) by {
                assert(gs[t] =~= groups@[t]@);
                assert(gs[t + 1] =~= groups@[t + 1]@);
                assert(group_reaches(reach, groups@[t]@, groups@[t + 1]@));
            }
            assert(sequence_cut(dfg, reach, gs));
        }
        return res;
    }
    if let Some(groups) = detect_parallel_cut(dfg, &reach) {
        let res = mine_cut(dfg, PtOperator::Parallel, &groups, Ghost(names));
        proof {
            assert(parallel_cut(dfg, groups.deep_view()));
        }
        return res;
    }
    if let Some(groups) = detect_loop_cut(dfg, &reach) {
        proof {
            let gv = groups.deep_view();
            assert(gv[0] == groups@[0]@ && gv[1] == groups@[1]@);
            assert forall|u: usize| u < n implies #[trigger] in_groups(gv, u) by {
                if in_redo(dfg, reach, u as int) {
                    assert(groups@[1]@.contains(u));
                    let l = choose|l: int| 0 <= l < gv[1].len() && gv[1][l] == u;
                    assert(gv[1][l] == u);
                } else {
                    assert(groups@[0]@.contains(u));
                    let l = choose|l: int| 0 <= l < gv[0].len() && gv[0][l] == u;
                    assert(gv[0][l] == u);
                }
            }
        }
        let res = mine_cut(dfg, PtOperator::Loop, &groups, Ghost(names));
        proof {
            let gs = groups.deep_view();
            assert(gs[0] == groups@[0]@ && gs[1] == groups@[1]@);
            assert forall|i: int, j: int| #[trigger] reach.edge(i, j) == reaches(dfg.direct, i, j) by {
                if reaches(dfg.direct, i, j) {
                    let p = choose|p: Seq<int>| #[trigger] is_path(dfg.direct, p) && p[0] == i && p.last() == j;
                    lemma_closure_holds_path(dfg.direct, reach, p);
                }
            }
            assert(loop_cut(dfg, reach, gs));
        }
        return res;
    }
    let flower = flower_model(dfg, Ghost(names));
    proof {
        let redo = flower.children@[1];
        lemma_leaves_cover(redo.children@, dfg);
        assert forall|k: int| 0 <= k < n implies has_leaf(flower, #[trigger] dfg.names()[k]) by {
            assert(forest_has_leaf(redo.children@, dfg.names()[k]));
            assert(has_leaf(redo, dfg.names()[k]));
            lemma_forest_has_leaf(flower.children@, 1, dfg.names()[k]);
        }
    }
    flower
}

/// Some trace of the log has no events.
pub open spec fn has_empty_trace(log: Seq<TraceView>) -> bool {
    exists|t: int| 0 <= t < log.len() && #[trigger] log[t].events.len() == 0
}

fn index_of(alphabet: &Vec<String>, x: &str) -> (res: Option<usize>)
    ensures
        match res {
            Some(i) => i < alphabet@.len() && alphabet.deep_view()[i as int] == x@,
            None => !alphabet.deep_view().contains(x@),
        },
{
    for i in 0..alphabet.len()
        invariant
            forall|k: int| 0 <= k < i ==> alphabet.deep_view()[k] != x@,
    {
        if str_eq(alphabet[i].as_str(), x) {
            return Some(i);
        }
    }
    None
}

fn has_name(table: &Vec<(String, usize)>, x: &str) -> (res: bool)
    ensures
        res == exists|i: int| 0 <= i < table@.len() && (#[trigger] table@[i]).0@ == x@,
{
    for i in 0..table.len()
        invariant
            forall|j: int| 0 <= j < i ==> (#[trigger] table@[j]).0@ != x@,
    {
        if str_eq(table[i].0.as_str(), x) {
            return true;
        }
    }
    false
}

/// The directly-follows graph of a log over its activities, in the order
/// of the activity counts.
fn from_log(log: &EventLog) -> (res: InductiveDFG)
    requires
        fits(activity_count(log@)),
    ensures
        res.wf(),
        res.skip == has_empty_trace(log@),
        res.alphabet@.len() == activity_count(log@),
        forall|k: int| 0 <= k < res.names().len() ==> log_activity_occurrences(log@).contains(#[trigger] res.names()[k]),
        forall|a: Seq<char>| #[trigger] log_activity_occurrences(log@).contains(a) ==> res.names().contains(a),
        forall|i: int, j: int| 0 <= i < res.alphabet@.len() && 0 <= j < res.alphabet@.len()
            ==> (#[trigger] res.direct.edge(i, j) <==> log_follows_pairs(log@).contains((res.names()[i], res.names()[j]))),
{
    let dfg = discover_dfg(log);
    let ghost items = log_activity_occurrences(log@);
    let ghost table = dfg.activities.deep_view();
    let mut alphabet: Vec<String> = Vec::new();
    for k in 0..dfg.activities.len()
        invariant
            table == dfg.activities.deep_view(),
            alphabet@.len() == k,
            forall|x: int| 0 <= x < k ==> #[trigger] alphabet.deep_view()[x] == table[x].0,
    {
        let ghost before = alphabet.deep_view();
        alphabet.push(dfg.activities[k].0.clone());
        proof {
            assert(alphabet.deep_view() =~= before.push(table[k as int].0));
        }
    }
    let n = alphabet.len();
    proof {
        let names = alphabet.deep_view();
        assert(is_count_table(table, items));
        assert forall|x: int, y: int| 0 <= x < y < names.len() implies names[x] != names[y] by {
            assert(table[x].0 != table[y].0);
        }
        assert(names.to_set() =~= items.to_set()) by {
            assert forall|a: Seq<char>| names.to_set().contains(a) implies items.to_set().contains(a) by {
                let x = choose|x: int| 0 <= x < names.len() && names[x] == a;
                assert(table[x].0 == a);
            }
            assert forall|a: Seq<char>| items.to_set().contains(a) implies names.to_set().contains(a) by {
                assert(items.contains(a));
                let x = choose|x: int| 0 <= x < table.len() && #[trigger] table[x].0 == a;
                assert(names[x] == a);
            }
        }
        names.unique_seq_to_set();
    }
    let mut direct = BinaryRelation::new(n);
    let ghost ev = dfg.edges.deep_view();
    for e in 0..dfg.edges.len()
        invariant
            n == alphabet@.len(),
            direct.wf(),
            direct.n == n,
            ev == dfg.edges.deep_view(),
            alphabet.deep_view().no_duplicates(),
            forall|i: int, j: int| #[trigger] direct.edge(i, j) <==> (0 <= i < n && 0 <= j < n
                && exists|x: int| 0 <= x < e && #[trigger] ev[x].0 == (alphabet.deep_view()[i], alphabet.deep_view()[j])),
    {
        let s = index_of(&alphabet, dfg.edges[e].source.as_str());
        let t = index_of(&alphabet, dfg.edges[e].target.as_str());
        let ghost before = direct;
        proof {
            assert(ev[e as int] == dfg.edges@[e as int].deep_view());
        }
        if let (Some(i), Some(j)) = (s, t) {
            direct.add_edge(i, j);
        }
        proof {
            let names = alphabet.deep_view();
            assert forall|a: int, b: int| #[trigger] direct.edge(a, b) <==> (0 <= a < n && 0 <= b < n
                && exists|x: int| 0 <= x < e + 1 && #[trigger] ev[x].0 == (names[a], names[b])) by {
                if 0 <= a < n && 0 <= b < n && ev[e as int].0 == (names[a], names[b]) {
                    assert(names.contains(names[a]) && names.contains(names[b]));
                    assert(s is Some && t is Some);
                    assert(names[s->0 as int] == names[a]);
                    assert(names[t->0 as int] == names[b]);
                    assert(s->0 as int == a) by {
                        if s->0 as int != a {
                            assert(names[s->0 as int] != names[a]);
                        }
                    }
                    assert(t->0 as int == b) by {
                        if t->0 as int != b {
                            assert(names[t->0 as int] != names[b]);
                        }
                    }
                }
                if direct.edge(a, b) && !before.edge(a, b) {
                    assert(ev[e as int].0 == (names[a], names[b]));
                }
            }
        }
    }
    let mut starts: Vec<bool> = Vec::new();
    let mut ends: Vec<bool> = Vec::new();
    for k in 0..n
        invariant
            n == alphabet@.len(),
            starts@.len() == k,
            ends@.len() == k,
    {
        starts.push(has_name(&dfg.start_activities, alphabet[k].as_str()));
        ends.push(has_name(&dfg.end_activities, alphabet[k].as_str()));
    }
    let mut skip = false;
    for t in 0..log.traces.len()
        invariant
            skip == exists|x: int| 0 <= x < t && #[trigger] log@[x].events.len() == 0,
    {
        proof {
            assert(log@[t as int] == log.traces@[t as int].deep_view());
            assert(log@[t as int].events.len() == log.traces@[t as int].events@.len());
        }
        if log.traces[t].events.len() == 0 {
            skip = true;
        }
    }
    proof {
        let names = alphabet.deep_view();
        assert forall|k: int| 0 <= k < names.len() implies items.contains(#[trigger] names[k]) by {
            assert(names[k] == table[k].0);
        }
        assert forall|a: Seq<char>| #[trigger] items.contains(a) implies names.contains(a) by {
            let x = choose|x: int| 0 <= x < table.len() && #[trigger] table[x].0 == a;
            assert(names[x] == a);
        }
    }
    proof {
        let names = alphabet.deep_view();
        assert(is_count_table(ev, log_follows_pairs(log@)));
        assert forall|i: int, j: int| 0 <= i < n && 0 <= j < n
            implies (#[trigger] direct.edge(i, j) <==> log_follows_pairs(log@).contains((names[i], names[j]))) by {
            if log_follows_pairs(log@).contains((names[i], names[j])) {
                let x = choose|x: int| 0 <= x < ev.len() && #[trigger] ev[x].0 == (names[i], names[j]);
            }
        }
    }
    InductiveDFG { alphabet, direct, starts, ends, skip }
}

/// `gs` is a loop cut of `dfg` over `r`, the relation of reaching through
/// directly-follows edges: the activities outside the redo part, then
/// those in it.
spec fn loop_cut(dfg: &InductiveDFG, r: BinaryRelation, gs: Seq<Seq<usize>>) -> bool {
    &&& r.n == dfg.alphabet@.len()
    &&& forall|i: int, j: int| #[trigger] r.edge(i, j) == reaches(dfg.direct, i, j)
    &&& is_cut(gs, dfg.alphabet@.len() as nat)
    &&& gs.len() == 2
    &&& forall|u: int| 0 <= u < dfg.alphabet@.len() ==>
        (gs[1].contains(u as usize) == #[trigger] in_redo(dfg, r, u)) && (gs[0].contains(u as usize) == !in_redo(dfg, r, u))
}

/// `gs` is a parallel cut of `dfg`: a partition of the activities whose
/// kept activities share a group exactly when they are tied, the others
/// joining the first group.
spec fn parallel_cut(dfg: &InductiveDFG, gs: Seq<Seq<usize>>) -> bool {
    &&& is_cut(gs, dfg.alphabet@.len() as nat)
    &&& partitions(gs, all_nodes(dfg.alphabet@.len() as nat))
    &&& forall|u: usize| u < dfg.alphabet@.len() && !par_kept(dfg, u as int) ==> #[trigger] gs[0].contains(u)
    &&& forall|g: int, h: int, k: int, l: int|
        0 <= g < gs.len() && 0 <= h < gs.len() && 0 <= k < gs[g].len() && 0 <= l < gs[h].len()
        && par_kept(dfg, gs[g][k] as int) && par_kept(dfg, gs[h][l] as int)
        ==> ((g == h) == tied(dfg.direct, #[trigger] gs[g][k] as int, #[trigger] gs[h][l] as int))
}

/// `gs` is a sequence cut of `dfg` over `r`, the relation of reaching
/// through directly-follows edges: a partition of the activities into at
/// least two groups, each linked by pairs that reach each other both ways
/// or neither way, each group reaching the next.
spec fn sequence_cut(dfg: &InductiveDFG, r: BinaryRelation, gs: Seq<Seq<usize>>) -> bool {
    &&& r.n == dfg.alphabet@.len()
    &&& forall|i: int, j: int| #[trigger] r.edge(i, j) == reaches(dfg.direct, i, j)
    &&& partitions(gs, all_nodes(dfg.alphabet@.len() as nat))
    &&& gs.len() >= 2
    &&& forall|g: int, k: int, l: int| 0 <= g < gs.len() && 0 <= k < gs[g].len() && 0 <= l < gs[g].len()
        ==> #[trigger] unordered_linked(r, gs[g][k] as int, gs[g][l] as int)
    &&& forall|t: int| 0 <= t < gs.len() - 1 ==> #[trigger] group_reaches(r, gs[t], gs[t + 1])
}

/// Of every two distinct activities of `dfg`, one reaches the other by
/// directly-follows edges and not back.
spec fn chain_ordered(dfg: &InductiveDFG) -> bool {
    forall|u: int, v: int| 0 <= u < dfg.alphabet@.len() && 0 <= v < dfg.alphabet@.len() && u != v
        ==> #[trigger] reaches(dfg.direct, u, v) != reaches(dfg.direct, v, u)
}

/// A path of edges is a chain of links, read either way.
proof fn lemma_path_links(d: BinaryRelation, p: Seq<int>)
    requires
        is_path(d, p),
    ensures
        is_linked_path(d, all_nodes(d.n as nat), p),
        is_linked_path(d, all_nodes(d.n as nat), Seq::new(p.len(), |i: int| p[p.len() - 1 - i])),
{
    let mask = all_nodes(d.n as nat);
    let q = Seq::new(p.len(), |i: int| p[p.len() - 1 - i]);
    assert forall|k: int| 0 <= k < p.len() - 1 implies #[trigger] linked(d, mask, p[k], p[k + 1]) by {
        assert(d.edge(p[k], p[k + 1]));
        d.lemma_edge_in_range(p[k], p[k + 1]);
    }
    assert forall|k: int| 0 <= k < q.len() - 1 implies #[trigger] linked(d, mask, q[k], q[k + 1]) by {
        let j = p.len() - 2 - k;
        assert(d.edge(p[j], p[j + 1]));
        d.lemma_edge_in_range(p[j], p[j + 1]);
        assert(q[k] == p[j + 1] && q[k + 1] == p[j]);
    }
}

/// When the activities are ordered one after another, they are all joined.
proof fn lemma_chain_not_split(dfg: &InductiveDFG)
    requires
        dfg.wf(),
        chain_ordered(dfg),
    ensures
        !xor_split(dfg),
{
    let n = dfg.alphabet@.len();
    assert forall|u: int, v: int| 0 <= u < n && 0 <= v < n && u != v implies #[trigger] joined(dfg.direct, all_nodes(n as nat), u, v) by {
        assert(reaches(dfg.direct, u, v) != reaches(dfg.direct, v, u));
        if reaches(dfg.direct, u, v) {
            let p = choose|p: Seq<int>| #[trigger] is_path(dfg.direct, p) && p[0] == u && p.last() == v;
            lemma_path_links(dfg.direct, p);
        } else {
            let p = choose|p: Seq<int>| #[trigger] is_path(dfg.direct, p) && p[0] == v && p.last() == u;
            lemma_path_links(dfg.direct, p);
            let q = Seq::new(p.len(), |i: int| p[p.len() - 1 - i]);
            assert(q[0] == u && q.last() == v);
        }
    }
}

/// The closure of a relation whose nodes are ordered one after another
/// orders them strictly and totally.
proof fn lemma_chain_total(dfg: &InductiveDFG, reach: BinaryRelation)
    requires
        dfg.wf(),
        chain_ordered(dfg),
        reach.n == dfg.direct.n,
        forall|i: int, j: int| #[trigger] dfg.direct.edge(i, j) ==> reach.edge(i, j),
        reach.transitive(),
        forall|i: int, j: int| #[trigger] reach.edge(i, j) ==> reaches(dfg.direct, i, j),
    ensures
        strict_total(reach, dfg.alphabet@.len() as int),
{
    let n = dfg.alphabet@.len();
    assert forall|u: int, v: int| 0 <= u < n && 0 <= v < n && u != v implies #[trigger] reach.edge(u, v) != reach.edge(v, u) by {
        assert(reaches(dfg.direct, u, v) != reaches(dfg.direct, v, u));
        if reaches(dfg.direct, u, v) {
            let p = choose|p: Seq<int>| #[trigger] is_path(dfg.direct, p) && p[0] == u && p.last() == v;
            lemma_closure_holds_path(dfg.direct, reach, p);
        } else {
            let p = choose|p: Seq<int>| #[trigger] is_path(dfg.direct, p) && p[0] == v && p.last() == u;
            lemma_closure_holds_path(dfg.direct, reach, p);
        }
    }
}

/// Two activities of `dfg` are not joined by directly-follows edges in
/// either direction: the exclusive-choice cut applies.
spec fn xor_split(dfg: &InductiveDFG) -> bool {
    exists|u: int, v: int| 0 <= u < dfg.alphabet@.len() && 0 <= v < dfg.alphabet@.len() && u != v
        && !#[trigger] joined(dfg.direct, all_nodes(dfg.alphabet@.len() as nat), u, v)
}

/// Two activities that the parallel cut keeps are not tied: the parallel
/// cut applies.
spec fn par_split(dfg: &InductiveDFG) -> bool {
    exists|u: int, v: int| #![trigger tied(dfg.direct, u, v)] 0 <= u < dfg.alphabet@.len() && 0 <= v < dfg.alphabet@.len()
        && par_kept(dfg, u) && par_kept(dfg, v) && !tied(dfg.direct, u, v)
}

/// `q` is a chain of activities of the log, each directly followed by the
/// next somewhere in the log.
pub open spec fn is_follow_chain(log: Seq<TraceView>, q: Seq<Seq<char>>) -> bool {
    &&& q.len() >= 2
    &&& forall|k: int| 0 <= k < q.len() ==> log_activity_occurrences(log).contains(#[trigger] q[k])
    &&& forall|k: int| #![trigger q[k]] 0 <= k < q.len() - 1 ==> log_follows_pairs(log).contains((q[k], q[k + 1]))
}

/// Activity `b` can be reached from activity `a` through directly-follows
/// steps of the log.
pub open spec fn follows_chain(log: Seq<TraceView>, a: Seq<char>, b: Seq<char>) -> bool {
    exists|q: Seq<Seq<char>>| #[trigger] is_follow_chain(log, q) && q[0] == a && q.last() == b
}

/// Of every two distinct activities of the log, one can be reached from the
/// other through directly-follows steps and not back.
pub open spec fn sequential_log(log: Seq<TraceView>) -> bool {
    forall|a: Seq<char>, b: Seq<char>|
        log_activity_occurrences(log).contains(a) && log_activity_occurrences(log).contains(b) && a != b
            ==> #[trigger] follows_chain(log, a, b) != follows_chain(log, b, a)
}

/// The groups partition the activities of the log: each group is
/// non-empty, no activity is in two groups, and every group member is an
/// activity of the log and every activity is in a group.
pub open spec fn partitions_activities(log: Seq<TraceView>, gs: Seq<Seq<Seq<char>>>) -> bool {
    &&& forall|g: int| 0 <= g < gs.len() ==> (#[trigger] gs[g]).len() > 0
    &&& forall|g: int, k: int| 0 <= g < gs.len() && 0 <= k < gs[g].len() ==> log_activity_occurrences(log).contains(#[trigger] gs[g][k])
    &&& forall|g: int, h: int, k: int, l: int|
        0 <= g < gs.len() && 0 <= h < gs.len() && g != h && 0 <= k < gs[g].len() && 0 <= l < gs[h].len()
            ==> #[trigger] gs[g][k] != #[trigger] gs[h][l]
    &&& forall|a: Seq<char>| #[trigger] log_activity_occurrences(log).contains(a)
        ==> exists|g: int, k: int| 0 <= g < gs.len() && 0 <= k < gs[g].len() && #[trigger] gs[g][k] == a
}

/// Some activity of `earlier` is followed, through directly-follows steps
/// of the log, by some activity of `later`.
pub open spec fn group_follows(log: Seq<TraceView>, earlier: Seq<Seq<char>>, later: Seq<Seq<char>>) -> bool {
    exists|k: int, l: int| 0 <= k < earlier.len() && 0 <= l < later.len() && #[trigger] follows_chain(log, earlier[k], later[l])
}

/// A sequence cut of the log's activities: at least two groups that
/// partition them, each group followed by the next.
pub open spec fn log_sequence_cut(log: Seq<TraceView>, gs: Seq<Seq<Seq<char>>>) -> bool {
    &&& gs.len() >= 2
    &&& partitions_activities(log, gs)
    &&& forall|t: int| 0 <= t < gs.len() - 1 ==> #[trigger] group_follows(log, gs[t], gs[t + 1])
}

/// Reaching one activity from another in the graph of `from_log` is
/// following a chain of directly-follows steps of the log.
proof fn lemma_reaches_chain(dfg: &InductiveDFG, log: Seq<TraceView>, u: int, v: int)
    requires
        dfg.wf(),
        forall|k: int| 0 <= k < dfg.names().len() ==> log_activity_occurrences(log).contains(#[trigger] dfg.names()[k]),
        forall|a: Seq<char>| #[trigger] log_activity_occurrences(log).contains(a) ==> dfg.names().contains(a),
        forall|i: int, j: int| 0 <= i < dfg.alphabet@.len() && 0 <= j < dfg.alphabet@.len()
            ==> (#[trigger] dfg.direct.edge(i, j) <==> log_follows_pairs(log).contains((dfg.names()[i], dfg.names()[j]))),
        0 <= u < dfg.alphabet@.len(),
        0 <= v < dfg.alphabet@.len(),
    ensures
        reaches(dfg.direct, u, v) == follows_chain(log, dfg.names()[u], dfg.names()[v]),
{
    let names = dfg.names();
    let n = dfg.alphabet@.len() as int;
    if reaches(dfg.direct, u, v) {
        let p = choose|p: Seq<int>| #[trigger] is_path(dfg.direct, p) && p[0] == u && p.last() == v;
        let q = Seq::new(p.len(), |k: int| names[p[k]]);
        assert forall|k: int| #![trigger p[k]] 0 <= k < p.len() - 1 implies 0 <= p[k] < n && 0 <= p[k + 1] < n by {
            assert(dfg.direct.edge(p[k], p[k + 1]));
            dfg.direct.lemma_edge_in_range(p[k], p[k + 1]);
        }
        assert forall|k: int| 0 <= k < q.len() implies log_activity_occurrences(log).contains(#[trigger] q[k]) by {
            if k < p.len() - 1 {
                assert(0 <= p[k] < n);
            } else {
                let j = k - 1;
                assert(0 <= p[j + 1] < n);
            }
        }
        assert forall|k: int| #![trigger q[k]] 0 <= k < q.len() - 1 implies log_follows_pairs(log).contains((q[k], q[k + 1])) by {
            assert(dfg.direct.edge(p[k], p[k + 1]));
            assert(0 <= p[k] < n && 0 <= p[k + 1] < n);
        }
        assert(is_follow_chain(log, q));
    }
    if follows_chain(log, names[u], names[v]) {
        let q = choose|q: Seq<Seq<char>>| #[trigger] is_follow_chain(log, q) && q[0] == names[u] && q.last() == names[v];
        let p = Seq::new(q.len(), |k: int| choose|i: int| 0 <= i < n && names[i] == q[k]);
        assert forall|k: int| 0 <= k < q.len() implies 0 <= #[trigger] p[k] < n && names[p[k]] == q[k] by {
            assert(log_activity_occurrences(log).contains(q[k]));
            assert(names.contains(q[k]));
        }
        assert forall|k: int| 0 <= k < p.len() - 1 implies #[trigger] dfg.direct.edge(p[k], p[k + 1]) by {
            assert(0 <= p[k] < n && names[p[k]] == q[k]);
            assert(0 <= p[k + 1] < n && names[p[k + 1]] == q[k + 1]);
            assert(log_follows_pairs(log).contains((q[k], q[k + 1])));
        }
        assert(p[0] == u) by {
            assert(names[p[0]] == names[u]);
        }
        assert(p.last() == v) by {
            let l = p.len() - 1;
            assert(0 <= p[l] < n && names[p[l]] == q[l]);
        }
        assert(is_path(dfg.direct, p));
    }
}

/// A Sequence root mined from the graph of `from_log` splits the log's
/// activities into a sequence cut, each child holding exactly one group.
proof fn lemma_sequence_root_by_names(dfg: &InductiveDFG, log: Seq<TraceView>, res: ProcessTree)
    requires
        dfg.wf(),
        forall|k: int| 0 <= k < dfg.names().len() ==> log_activity_occurrences(log).contains(#[trigger] dfg.names()[k]),
        forall|a: Seq<char>| #[trigger] log_activity_occurrences(log).contains(a) ==> dfg.names().contains(a),
        forall|i: int, j: int| 0 <= i < dfg.alphabet@.len() && 0 <= j < dfg.alphabet@.len()
            ==> (#[trigger] dfg.direct.edge(i, j) <==> log_follows_pairs(log).contains((dfg.names()[i], dfg.names()[j]))),
        dfg.alphabet@.len() >= 2,
        exists|gs: Seq<Seq<usize>>, r: BinaryRelation| {
            &&& #[trigger] sequence_cut(dfg, r, gs)
            &&& res.children@.len() == gs.len()
            &&& forall|g: int, k: int| 0 <= g < gs.len() && 0 <= k < gs[g].len() ==> has_leaf(res.children@[g], dfg.names()[#[trigger] gs[g][k] as int])
            &&& forall|g: int| 0 <= g < gs.len() ==> mined_tree(#[trigger] res.children@[g], group_names(dfg, gs[g]))
        },
    ensures
        exists|ngs: Seq<Seq<Seq<char>>>| {
            &&& #[trigger] log_sequence_cut(log, ngs)
            &&& res.children@.len() == ngs.len()
            &&& forall|g: int| 0 <= g < ngs.len() ==> mined_tree(#[trigger] res.children@[g], ngs[g])
            &&& forall|g: int, k: int| 0 <= g < ngs.len() && 0 <= k < ngs[g].len() ==> has_leaf(res.children@[g], #[trigger] ngs[g][k])
        },
{
    let (gs, r) = choose|gs: Seq<Seq<usize>>, r: BinaryRelation| {
        &&& #[trigger] sequence_cut(dfg, r, gs)
        &&& res.children@.len() == gs.len()
        &&& forall|g: int, k: int| 0 <= g < gs.len() && 0 <= k < gs[g].len() ==> has_leaf(res.children@[g], dfg.names()[#[trigger] gs[g][k] as int])
        &&& forall|g: int| 0 <= g < gs.len() ==> mined_tree(#[trigger] res.children@[g], group_names(dfg, gs[g]))
    };
    let n = dfg.alphabet@.len();
    let names = dfg.names();
    let ngs = Seq::new(gs.len(), |g: int| group_names(dfg, gs[g]));
    assert forall|g: int, k: int| 0 <= g < ngs.len() && 0 <= k < ngs[g].len() implies #[trigger] ngs[g][k] == names[gs[g][k] as int]
        && gs[g][k] < n by {
    }
    assert forall|g: int| 0 <= g < ngs.len() implies (#[trigger] ngs[g]).len() > 0 by {
        assert(gs[g].len() > 0);
    }
    assert forall|g: int, k: int| 0 <= g < ngs.len() && 0 <= k < ngs[g].len() implies log_activity_occurrences(log).contains(#[trigger] ngs[g][k]) by {
        assert(ngs[g][k] == names[gs[g][k] as int] && gs[g][k] < n);
    }
    assert forall|g: int, h: int, k: int, l: int|
        0 <= g < ngs.len() && 0 <= h < ngs.len() && g != h && 0 <= k < ngs[g].len() && 0 <= l < ngs[h].len()
        implies #[trigger] ngs[g][k] != #[trigger] ngs[h][l] by {
        assert(ngs[g][k] == names[gs[g][k] as int] && gs[g][k] < n);
        assert(ngs[h][l] == names[gs[h][l] as int] && gs[h][l] < n);
        assert(gs[g][k] != gs[h][l]);
    }
    assert forall|a: Seq<char>| #[trigger] log_activity_occurrences(log).contains(a)
        implies exists|g: int, k: int| 0 <= g < ngs.len() && 0 <= k < ngs[g].len() && #[trigger] ngs[g][k] == a by {
        assert(names.contains(a));
        let u = choose|u: int| 0 <= u < n && names[u] == a;
        assert(in_groups(gs, u as usize));
        let (g, k) = choose|g: int, k: int| 0 <= g < gs.len() && 0 <= k < gs[g].len() && #[trigger] gs[g][k] == u as usize;
        assert(ngs[g][k] == names[gs[g][k] as int]);
    }
    assert(partitions_activities(log, ngs));
    assert forall|t: int| 0 <= t < ngs.len() - 1 implies #[trigger] group_follows(log, ngs[t], ngs[t + 1]) by {
        assert(group_reaches(r, gs[t], gs[t + 1]));
        let (a, b) = choose|a: int, b: int| 0 <= a < gs[t].len() && 0 <= b < gs[t + 1].len() && #[trigger] r.edge(gs[t][a] as int, gs[t + 1][b] as int);
        let u = gs[t][a] as int;
        let v = gs[t + 1][b] as int;
        assert(ngs[t][a] == names[u] && gs[t][a] < n);
        assert(ngs[t + 1][b] == names[v] && gs[t + 1][b] < n);
        assert(reaches(dfg.direct, u, v));
        lemma_reaches_chain(dfg, log, u, v);
        assert(follows_chain(log, ngs[t][a], ngs[t + 1][b]));
    }
    assert(log_sequence_cut(log, ngs));
    assert forall|g: int| 0 <= g < ngs.len() implies mined_tree(#[trigger] res.children@[g], ngs[g]) by {
        assert(mined_tree(res.children@[g], group_names(dfg, gs[g])));
    }
    assert forall|g: int, k: int| 0 <= g < ngs.len() && 0 <= k < ngs[g].len() implies has_leaf(res.children@[g], #[trigger] ngs[g][k]) by {
        assert(ngs[g][k] == names[gs[g][k] as int]);
        assert(has_leaf(res.children@[g], names[gs[g][k] as int]));
    }
}

/// Discovers a process tree from a log with the inductive miner on its
/// directly-follows graph. A log with an empty trace gives a choice between
/// a silent leaf and the tree of the other traces; a log without activities
/// gives a silent leaf and one with a single activity a leaf for it. Every
/// leaf is silent or labelled with an activity of the log, every inner node
/// has at least two children and every loop exactly two.
pub fn inductive_miner(log: &EventLog) -> (res: ProcessTree)
    requires
        fits(activity_count(log@)),
    ensures
        mined_tree(res, log_activity_occurrences(log@)),
        has_empty_trace(log@) ==> res.operator == Some(PtOperator::Xor) && res.children@.len() == 2
            && res.children@[0].operator is None && res.children@[0].label is None,
        !has_empty_trace(log@) && activity_count(log@) == 0 ==> res.operator is None && res.label is None,
        !has_empty_trace(log@) && activity_count(log@) == 1 ==> res.operator is None
            && (res.label matches Some(l) && log_activity_occurrences(log@).contains(l@)),
        forall|a: Seq<char>| #[trigger] log_activity_occurrences(log@).contains(a) ==> has_leaf(res, a),
        !has_empty_trace(log@) && activity_count(log@) >= 2 && sequential_log(log@) ==> res.operator == Some(PtOperator::Sequence),
        !has_empty_trace(log@) && res.operator == Some(PtOperator::Sequence) ==> exists|gs: Seq<Seq<Seq<char>>>| {
            &&& #[trigger] log_sequence_cut(log@, gs)
            &&& res.children@.len() == gs.len()
            &&& forall|g: int| 0 <= g < gs.len() ==> mined_tree(#[trigger] res.children@[g], gs[g])
            &&& forall|g: int, k: int| 0 <= g < gs.len() && 0 <= k < gs[g].len() ==> has_leaf(res.children@[g], #[trigger] gs[g][k])
        },
        has_empty_trace(log@) && activity_count(log@) >= 2 && sequential_log(log@) ==> res.children@[1].operator == Some(PtOperator::Sequence),
{
    let ghost names = log_activity_occurrences(log@);
    let dfg = from_log(log);
    proof {
        if sequential_log(log@) {
            let dn = dfg.names();
            assert forall|u: int, v: int| 0 <= u < dfg.alphabet@.len() && 0 <= v < dfg.alphabet@.len() && u != v
                implies #[trigger] reaches(dfg.direct, u, v) != reaches(dfg.direct, v, u) by {
                lemma_reaches_chain(&dfg, log@, u, v);
                lemma_reaches_chain(&dfg, log@, v, u);
                assert(dn[u] != dn[v]);
                assert(follows_chain(log@, dn[u], dn[v]) != follows_chain(log@, dn[v], dn[u]));
            }
            assert(chain_ordered(&dfg));
        }
    }
    let mined = mine_dfg(&dfg, Ghost(names));
    proof {
        if mined.operator == Some(PtOperator::Sequence) {
            lemma_sequence_root_by_names(&dfg, log@, mined);
        }
    }
    proof {
        assert forall|a: Seq<char>| #[trigger] names.contains(a) implies has_leaf(mined, a) by {
            assert(dfg.names().contains(a));
            let k = choose|k: int| 0 <= k < dfg.names().len() && dfg.names()[k] == a;
            assert(has_leaf(mined, dfg.names()[k]));
        }
    }
    if dfg.skip {
        let tau = ProcessTree::leaf(None);
        proof {
            assert(mined_tree(tau, names));
        }
        let children: Vec<ProcessTree> = vec![tau, mined];
        proof {
            assert(children@.drop_last() =~= seq![tau]);
            assert(seq![tau].drop_last() =~= Seq::<ProcessTree>::empty());
            assert(mined_forest(Seq::<ProcessTree>::empty(), names));
            assert(mined_forest(seq![tau], names));
            assert(mined_forest(children@, names));
            assert(children@[1] == mined);
            assert forall|a: Seq<char>| #[trigger] names.contains(a) implies forest_has_leaf(children@, a) by {
                lemma_forest_has_leaf(children@, 1, a);
            }
        }
        return ProcessTree::internal(PtOperator::Xor, children);
    }
    mined
}

} // verus!
