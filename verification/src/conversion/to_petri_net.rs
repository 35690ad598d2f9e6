//! Process trees to Petri nets: each node of the tree becomes a fragment of
//! places, silent transitions and arcs between an entry and an exit place,
//! with one visible transition per labelled leaf.

use vstd::prelude::*;
use crate::petri_net::{post_transitions, without_place, NetView, PetriNet, PetriNetResult};
use crate::algorithms::reduction::{
    first_hit, fuse_series_place_at, fuse_series_places, lemma_first_hit_some, lemma_series_place_step, series_place,
    series_place_step, transition_named,
};
use crate::discovery::alpha_miner::{single_token, single_token_marking};
use crate::process_tree::{loops_have_body, forest_loops_have_body, tree_size, forest_size, ProcessTree, PtOperator};
use crate::text::{concat, decimal, str_eq, usize_to_decimal};

verus! {

/// Counters of the places, silent transitions and visible transitions
/// created so far; each new element is numbered one past its counter.
pub struct Counts {
    pub num_places: usize,
    pub num_hidden: usize,
    pub num_visible: usize,
}

/// A net under construction with its counters.
pub struct Build {
    pub net: NetView,
    pub places: nat,
    pub hidden: nat,
    pub visible: nat,
}

/// The construction state of an executable net and counters.
pub open spec fn build_of(n: NetView, c: Counts) -> Build {
    Build { net: n, places: c.num_places as nat, hidden: c.num_hidden as nat, visible: c.num_visible as nat }
}

/// The name of the `k`-th place.
pub open spec fn place_name(k: nat) -> Seq<char> {
    "p_"@ + decimal(k)
}

/// The name of the `k`-th silent transition, of kind `kind`.
pub open spec fn hidden_name(kind: Seq<char>, k: nat) -> Seq<char> {
    kind + "_"@ + decimal(k)
}

/// The name of the `k`-th visible transition.
pub open spec fn visible_name(k: nat) -> Seq<char> {
    "vis_"@ + decimal(k)
}

/// A new place.
pub open spec fn with_place(b: Build) -> (Build, Seq<char>) {
    let name = place_name(b.places + 1);
    (Build { net: NetView { places: b.net.places.push(name), ..b.net }, places: b.places + 1, ..b }, name)
}

/// A new silent transition of kind `kind`.
pub open spec fn with_hidden(b: Build, kind: Seq<char>) -> (Build, Seq<char>) {
    let name = hidden_name(kind, b.hidden + 1);
    (Build { net: NetView { transitions: b.net.transitions.push((name, None)), ..b.net }, hidden: b.hidden + 1, ..b }, name)
}

/// A new visible transition labelled `label`.
pub open spec fn with_visible(b: Build, label: Seq<char>) -> (Build, Seq<char>) {
    let name = visible_name(b.visible + 1);
    (Build { net: NetView { transitions: b.net.transitions.push((name, Some(label))), ..b.net }, visible: b.visible + 1, ..b }, name)
}

/// A new arc.
pub open spec fn with_arc(b: Build, s: Seq<char>, t: Seq<char>) -> Build {
    Build { net: NetView { arcs: b.net.arcs.push((s, t)), ..b.net }, ..b }
}

/// The fragment of tree `t` between places `init` and `fin`: a leaf is a
/// transition (silent for a silent leaf) from `init` to `fin`; a sequence
/// chains its children through new places; a choice puts each child
/// between `init` and `fin`; a parallel node forks from `init` through a
/// silent split to a pair of new places per child and joins them through
/// a silent join to `fin`; a loop enters its body through a silent
/// transition, leaves it through a silent skip to `fin`, and returns from
/// the end of the body through its redo part and a silent transition back
/// to the start of the body.
pub open spec fn tree_net(t: ProcessTree, b: Build, init: Seq<char>, fin: Seq<char>) -> Build
    decreases t, 0nat,
{
    proof {
        assert(decreases_to!(t => t.children));
        assert(decreases_to!(t.children => t.children@));
    }
    match t.operator {
        None => {
            let (b1, tr) = match t.label {
                None => with_hidden(b, "tau"@),
                Some(l) => with_visible(b, l@),
            };
            with_arc(with_arc(b1, init, tr), tr, fin)
        },
        Some(PtOperator::Sequence) => seq_net(t.children@, b, init, fin),
        Some(PtOperator::Xor) => xor_net(t.children@, b, init, fin),
        Some(PtOperator::Parallel) => {
            let (b1, split) = with_hidden(b, "tauSplit"@);
            let b2 = with_arc(b1, init, split);
            let (b3, join) = with_hidden(b2, "tauJoin"@);
            let b4 = with_arc(b3, join, fin);
            par_net(t.children@, b4, split, join)
        },
        Some(PtOperator::Loop) => if t.children@.len() == 0 {
            b
        } else {
            let cs = t.children@;
            proof {
                assert(decreases_to!(cs => cs[0]));
            }
            let (b1, loop_init) = with_place(b);
            let (b2, init_loop) = with_hidden(b1, "init_loop"@);
            let b3 = with_arc(with_arc(b2, init, init_loop), init_loop, loop_init);
            let (b4, do_final) = with_place(b3);
            let b5 = tree_net(cs[0], b4, loop_init, do_final);
            let (b6, exit) = with_hidden(b5, "skip"@);
            let b7 = with_arc(with_arc(b6, do_final, exit), exit, fin);
            if cs.len() > 1 {
                proof {
                    assert(decreases_to!(cs => cs[1]));
                }
                let (b8, redo_final) = with_place(b7);
                let b9 = tree_net(cs[1], b8, do_final, redo_final);
                let (b10, back) = with_hidden(b9, "loop"@);
                with_arc(with_arc(b10, redo_final, back), back, loop_init)
            } else {
                b7
            }
        },
    }
}

/// The children of a sequence chained from `prev` to `fin` through new places.
pub open spec fn seq_net(cs: Seq<ProcessTree>, b: Build, prev: Seq<char>, fin: Seq<char>) -> Build
    decreases cs, 1nat,
{
    if cs.len() == 0 {
        b
    } else if cs.len() == 1 {
        tree_net(cs[0], b, prev, fin)
    } else {
        let (b1, next) = with_place(b);
        seq_net(cs.drop_first(), tree_net(cs[0], b1, prev, next), next, fin)
    }
}

/// Each child of a choice between `init` and `fin`.
pub open spec fn xor_net(cs: Seq<ProcessTree>, b: Build, init: Seq<char>, fin: Seq<char>) -> Build
    decreases cs, 1nat,
{
    if cs.len() == 0 {
        b
    } else {
        xor_net(cs.drop_first(), tree_net(cs[0], b, init, fin), init, fin)
    }
}

/// Each child of a parallel node between a new place after `split` and a
/// new place before `join`.
pub open spec fn par_net(cs: Seq<ProcessTree>, b: Build, split: Seq<char>, join: Seq<char>) -> Build
    decreases cs, 1nat,
{
    if cs.len() == 0 {
        b
    } else {
        let (b1, c_init) = with_place(b);
        let (b2, c_final) = with_place(b1);
        let b3 = with_arc(with_arc(b2, split, c_init), c_final, join);
        par_net(cs.drop_first(), tree_net(cs[0], b3, c_init, c_final), split, join)
    }
}

fn new_place(net: &mut PetriNet, counts: &mut Counts) -> (name: String)
    requires
        old(counts).num_places < usize::MAX,
    ensures
        (build_of(final(net)@, *final(counts)), name@) == with_place(build_of(old(net)@, *old(counts))),
        final(net).name@ == old(net).name@,
        old(net).unit_arcs() ==> final(net).unit_arcs(),
{
    counts.num_places = counts.num_places + 1;
    let d = usize_to_decimal(counts.num_places);
    let name = concat("p_", d.as_str());
    proof {
        reveal_strlit("p_");
    }
    net.add_place(name.as_str());
    name
}

fn new_hidden(net: &mut PetriNet, counts: &mut Counts, kind: &str) -> (name: String)
    requires
        old(counts).num_hidden < usize::MAX,
    ensures
        (build_of(final(net)@, *final(counts)), name@) == with_hidden(build_of(old(net)@, *old(counts)), kind@),
        final(net).name@ == old(net).name@,
        old(net).unit_arcs() ==> final(net).unit_arcs(),
{
    counts.num_hidden = counts.num_hidden + 1;
    let d = usize_to_decimal(counts.num_hidden);
    let k = concat(kind, "_");
    let name = concat(k.as_str(), d.as_str());
    proof {
        reveal_strlit("_");
    }
    net.add_transition(name.as_str(), None);
    name
}

fn new_visible(net: &mut PetriNet, counts: &mut Counts, label: &String) -> (name: String)
    requires
        old(counts).num_visible < usize::MAX,
    ensures
        (build_of(final(net)@, *final(counts)), name@) == with_visible(build_of(old(net)@, *old(counts)), label@),
        final(net).name@ == old(net).name@,
        old(net).unit_arcs() ==> final(net).unit_arcs(),
{
    counts.num_visible = counts.num_visible + 1;
    let d = usize_to_decimal(counts.num_visible);
    let name = concat("vis_", d.as_str());
    proof {
        reveal_strlit("vis_");
    }
    net.add_transition(name.as_str(), Some(label.clone()));
    name
}

fn add_arc(net: &mut PetriNet, s: &str, t: &str, Ghost(c): Ghost<Counts>)
    ensures
        build_of(final(net)@, c) == with_arc(build_of(old(net)@, c), s@, t@),
        final(net).name@ == old(net).name@,
        old(net).unit_arcs() ==> final(net).unit_arcs(),
{
    net.add_arc(s, t);
}

/// Room left in the counters for a tree of `size` nodes.
pub open spec fn room(c: Counts, size: nat) -> bool {
    &&& c.num_places + 5 * size <= usize::MAX
    &&& c.num_hidden + 3 * size <= usize::MAX
    &&& c.num_visible + size <= usize::MAX
}

/// The counters grew by at most what a tree of `size` nodes uses.
pub open spec fn grew_within(c0: Counts, c1: Counts, size: nat) -> bool {
    &&& c1.num_places + 2 <= c0.num_places + 5 * size
    &&& c1.num_hidden <= c0.num_hidden + 3 * size
    &&& c1.num_visible <= c0.num_visible + size
}

proof fn lemma_forest_size_skip(cs: Seq<ProcessTree>, i: int)
    requires
        0 <= i < cs.len(),
    ensures
        forest_size(cs.skip(i)) == tree_size(cs[i]) + forest_size(cs.skip(i + 1)),
        tree_size(cs[i]) >= 1,
{
    let x = cs.skip(i);
    assert(x[0] == cs[i]);
    assert(x.drop_first() =~= cs.skip(i + 1));
}

proof fn lemma_forest_loops_skip(cs: Seq<ProcessTree>, i: int)
    requires
        0 <= i < cs.len(),
        forest_loops_have_body(cs.skip(i)),
    ensures
        loops_have_body(cs[i]),
        forest_loops_have_body(cs.skip(i + 1)),
{
    let x = cs.skip(i);
    assert(x[0] == cs[i]);
    assert(x.drop_first() =~= cs.skip(i + 1));
}

/// Adds the fragment of `tree` between places `init` and `fin`, as
/// `tree_net` states it.
fn add_tree(tree: &ProcessTree, net: &mut PetriNet, counts: &mut Counts, init: &str, fin: &str)
    requires
        loops_have_body(*tree),
        room(*old(counts), tree_size(*tree)),
    ensures
        build_of(final(net)@, *final(counts)) == tree_net(*tree, build_of(old(net)@, *old(counts)), init@, fin@),
        grew_within(*old(counts), *final(counts), tree_size(*tree)),
        final(net).name@ == old(net).name@,
        old(net).unit_arcs() ==> final(net).unit_arcs(),
    decreases tree,
{
    let ghost b0 = build_of(net@, *counts);
    let ghost c0 = *counts;
    let ghost cs = tree.children@;
    let ghost fs = forest_size(cs);
    proof {
        assert(tree_size(*tree) == 1 + fs);
        assert(forest_loops_have_body(cs));
        assert(cs.skip(0) =~= cs);
    }
    match tree.operator {
        None => {
            let tr = match &tree.label {
                None => new_hidden(net, counts, "tau"),
                Some(l) => new_visible(net, counts, l),
            };
            proof {
                reveal_strlit("tau");
            }
            add_arc(net, init, tr.as_str(), Ghost(*counts));
            add_arc(net, tr.as_str(), fin, Ghost(*counts));
        },
        Some(PtOperator::Sequence) => {
            let k = tree.children.len();
            let mut prev: String = init.to_string();
            for i in 0..k
                invariant
                    k == cs.len(),
                    cs == tree.children@,
                    forest_loops_have_body(cs.skip(i as int)),
                    seq_net(cs.skip(i as int), build_of(net@, *counts), prev@, fin@) == seq_net(cs, b0, init@, fin@),
                    counts.num_places + 5 * forest_size(cs.skip(i as int)) <= c0.num_places + 5 * fs,
                    counts.num_hidden + 3 * forest_size(cs.skip(i as int)) <= c0.num_hidden + 3 * fs,
                    counts.num_visible + forest_size(cs.skip(i as int)) <= c0.num_visible + fs,
                    room(c0, 1 + fs),
                    net.name@ == old(net).name@,
                    old(net).unit_arcs() ==> net.unit_arcs(),
            {
                proof {
                    lemma_forest_size_skip(cs, i as int);
                    lemma_forest_loops_skip(cs, i as int);
                    let x = cs.skip(i as int);
                    assert(x[0] == cs[i as int]);
                    assert(x.drop_first() =~= cs.skip(i + 1));
                    assert(x.len() == k - i);
                }
                let next = if i == k - 1 {
                    fin.to_string()
                } else {
                    new_place(net, counts)
                };
                add_tree(&tree.children[i], net, counts, prev.as_str(), next.as_str());
                prev = next;
            }
        },
        Some(PtOperator::Xor) => {
            let k = tree.children.len();
            for i in 0..k
                invariant
                    k == cs.len(),
                    cs == tree.children@,
                    forest_loops_have_body(cs.skip(i as int)),
                    xor_net(cs.skip(i as int), build_of(net@, *counts), init@, fin@) == xor_net(cs, b0, init@, fin@),
                    counts.num_places + 5 * forest_size(cs.skip(i as int)) <= c0.num_places + 5 * fs,
                    counts.num_hidden + 3 * forest_size(cs.skip(i as int)) <= c0.num_hidden + 3 * fs,
                    counts.num_visible + forest_size(cs.skip(i as int)) <= c0.num_visible + fs,
                    room(c0, 1 + fs),
                    net.name@ == old(net).name@,
                    old(net).unit_arcs() ==> net.unit_arcs(),
            {
                proof {
                    lemma_forest_size_skip(cs, i as int);
                    lemma_forest_loops_skip(cs, i as int);
                    let x = cs.skip(i as int);
                    assert(x[0] == cs[i as int]);
                    assert(x.drop_first() =~= cs.skip(i + 1));
                }
                add_tree(&tree.children[i], net, counts, init, fin);
            }
        },
        Some(PtOperator::Parallel) => {
            let split = new_hidden(net, counts, "tauSplit");
            add_arc(net, init, split.as_str(), Ghost(*counts));
            let join = new_hidden(net, counts, "tauJoin");
            add_arc(net, join.as_str(), fin, Ghost(*counts));
            proof {
                reveal_strlit("tauSplit");
                reveal_strlit("tauJoin");
            }
            let k = tree.children.len();
            for i in 0..k
                invariant
                    k == cs.len(),
                    cs == tree.children@,
                    forest_loops_have_body(cs.skip(i as int)),
                    par_net(cs.skip(i as int), build_of(net@, *counts), split@, join@) == tree_net(*tree, b0, init@, fin@),
                    counts.num_places + 5 * forest_size(cs.skip(i as int)) <= c0.num_places + 5 * fs,
                    counts.num_hidden + 3 * forest_size(cs.skip(i as int)) <= c0.num_hidden + 2 + 3 * fs,
                    counts.num_visible + forest_size(cs.skip(i as int)) <= c0.num_visible + fs,
                    room(c0, 1 + fs),
                    net.name@ == old(net).name@,
                    old(net).unit_arcs() ==> net.unit_arcs(),
            {
                proof {
                    lemma_forest_size_skip(cs, i as int);
                    lemma_forest_loops_skip(cs, i as int);
                    let x = cs.skip(i as int);
                    assert(x[0] == cs[i as int]);
                    assert(x.drop_first() =~= cs.skip(i + 1));
                }
                let c_init = new_place(net, counts);
                let c_final = new_place(net, counts);
                add_arc(net, split.as_str(), c_init.as_str(), Ghost(*counts));
                add_arc(net, c_final.as_str(), join.as_str(), Ghost(*counts));
                add_tree(&tree.children[i], net, counts, c_init.as_str(), c_final.as_str());
            }
        },
        Some(PtOperator::Loop) => {
            proof {
                assert(cs.len() > 0);
                assert(forest_size(cs) == tree_size(cs[0]) + forest_size(cs.drop_first()));
                assert(loops_have_body(cs[0]));
                if cs.len() > 1 {
                    let d = cs.drop_first();
                    assert(d[0] == cs[1]);
                    assert(forest_size(d) == tree_size(cs[1]) + forest_size(d.drop_first()));
                    assert(forest_loops_have_body(d));
                    assert(loops_have_body(cs[1]));
                }
                reveal_strlit("init_loop");
                reveal_strlit("skip");
                reveal_strlit("loop");
            }
            let loop_init = new_place(net, counts);
            let init_loop = new_hidden(net, counts, "init_loop");
            add_arc(net, init, init_loop.as_str(), Ghost(*counts));
            add_arc(net, init_loop.as_str(), loop_init.as_str(), Ghost(*counts));
            let do_final = new_place(net, counts);
            add_tree(&tree.children[0], net, counts, loop_init.as_str(), do_final.as_str());
            let exit = new_hidden(net, counts, "skip");
            add_arc(net, do_final.as_str(), exit.as_str(), Ghost(*counts));
            add_arc(net, exit.as_str(), fin, Ghost(*counts));
            if tree.children.len() > 1 {
                let redo_final = new_place(net, counts);
                add_tree(&tree.children[1], net, counts, do_final.as_str(), redo_final.as_str());
                let back = new_hidden(net, counts, "loop");
                add_arc(net, redo_final.as_str(), back.as_str(), Ghost(*counts));
                add_arc(net, back.as_str(), loop_init.as_str(), Ghost(*counts));
            }
        },
    }
}

/// The net after fusing series places (a place between two distinct
/// silent transitions and nothing else) one at a time until none is left.
pub open spec fn series_fused(n: NetView) -> NetView
    decreases n.transitions.len(),
    via series_fused_decreases
{
    let r = series_place_step(n);
    if r.0 {
        series_fused(r.1)
    } else {
        n
    }
}

#[via_fn]
proof fn series_fused_decreases(n: NetView) {
    lemma_series_place_step(n);
}

/// Fuses series places until none is left, as `series_fused` states it.
fn fuse_all_series_places(net: &mut PetriNet)
    ensures
        final(net).name@ == old(net).name@,
        old(net).unit_arcs() ==> final(net).unit_arcs(),
        final(net)@ == series_fused(old(net)@),
{
    loop
        invariant
            net.name@ == old(net).name@,
            old(net).unit_arcs() ==> net.unit_arcs(),
            series_fused(net@) == series_fused(old(net)@),
        ensures
            net.name@ == old(net).name@,
            old(net).unit_arcs() ==> net.unit_arcs(),
            net@ == series_fused(old(net)@),
        decreases net@.transitions.len(),
    {
        let ghost before = net@;
        proof {
            lemma_series_place_step(before);
        }
        let changed = fuse_series_places(net);
        if !changed {
            break;
        }
    }
}

/// How many of the first `k` arcs leave (`out`) or enter `p`.
pub open spec fn degree(arcs: Seq<(Seq<char>, Seq<char>)>, p: Seq<char>, out: bool, k: int) -> nat
    decreases k,
{
    if k <= 0 {
        0
    } else {
        degree(arcs, p, out, k - 1) + if (if out { arcs[k - 1].0 == p } else { arcs[k - 1].1 == p }) { 1nat } else { 0nat }
    }
}

/// The net after removing, in the order of `names`, each place other than
/// `source` and `sink` that has no arc out or no arc in at that point.
pub open spec fn prune_dead(n: NetView, names: Seq<Seq<char>>) -> NetView
    decreases names.len(),
{
    if names.len() == 0 {
        n
    } else {
        let m = prune_dead(n, names.drop_last());
        let p = names.last();
        if p == "source"@ || p == "sink"@ || (degree(m.arcs, p, true, m.arcs.len() as int) > 0
            && degree(m.arcs, p, false, m.arcs.len() as int) > 0) {
            m
        } else {
            without_place(m, p)
        }
    }
}

/// The net before reduction: `source` and `sink`, a silent transition from
/// `source` to a new entry place, a silent transition from a new exit place
/// to `sink`, and the fragment of the tree between the entry and the exit.
pub open spec fn built_net(t: ProcessTree) -> NetView {
    let b0 = Build {
        net: NetView { places: seq!["source"@, "sink"@], transitions: Seq::empty(), arcs: Seq::empty() },
        places: 0,
        hidden: 0,
        visible: 0,
    };
    let (b1, ip) = with_place(b0);
    let (b2, ti) = with_hidden(b1, "tau"@);
    let b3 = with_arc(with_arc(b2, "source"@, ti), ti, ip);
    let (b4, fp) = with_place(b3);
    let (b5, tf) = with_hidden(b4, "tau"@);
    let b6 = with_arc(with_arc(b5, fp, tf), tf, "sink"@);
    tree_net(t, b6, ip, fp).net
}

fn count_degree(net: &PetriNet, p: &str, out: bool) -> (res: usize)
    ensures
        res == degree(net@.arcs, p@, out, net@.arcs.len() as int),
{
    let mut c: usize = 0;
    for k in 0..net.arcs.len()
        invariant
            c == degree(net@.arcs, p@, out, k as int),
            c <= k,
    {
        let a = &net.arcs[k];
        proof {
            assert(net@.arcs[k as int] == (a.source@, a.target@));
        }
        let hit = if out { str_eq(a.source.as_str(), p) } else { str_eq(a.target.as_str(), p) };
        if hit {
            c = c + 1;
        }
    }
    c
}

/// Removes the places, other than `source` and `sink`, left without an arc
/// in or out, as `prune_dead` states it.
fn remove_dead_places(net: &mut PetriNet)
    ensures
        final(net)@ == prune_dead(old(net)@, old(net)@.places),
        final(net).name@ == old(net).name@,
        old(net).unit_arcs() ==> final(net).unit_arcs(),
{
    let ghost n0 = net@;
    let mut names: Vec<String> = Vec::new();
    for i in 0..net.places.len()
        invariant
            net@ == n0,
            names.deep_view() == n0.places.take(i as int),
    {
        let ghost before = names.deep_view();
        names.push(net.places[i].name.clone());
        proof {
            assert(n0.places[i as int] == net.places@[i as int].name@);
            assert(names.deep_view() =~= before.push(n0.places[i as int]));
            assert(names.deep_view() =~= n0.places.take(i + 1));
        }
    }
    proof {
        assert(n0.places.take(n0.places.len() as int) =~= n0.places);
        reveal_strlit("source");
        reveal_strlit("sink");
    }
    let ghost nv = names.deep_view();
    for i in 0..names.len()
        invariant
            nv == names.deep_view(),
            net@ == prune_dead(n0, nv.take(i as int)),
            net.name@ == old(net).name@,
            old(net).unit_arcs() ==> net.unit_arcs(),
    {
        let p = names[i].as_str();
        proof {
            assert(nv[i as int] == p@);
            assert(nv.take(i + 1).drop_last() =~= nv.take(i as int));
            assert(nv.take(i + 1).last() == p@);
        }
        if !str_eq(p, "source") && !str_eq(p, "sink") {
            let out_d = count_degree(net, p, true);
            let in_d = count_degree(net, p, false);
            if out_d == 0 || in_d == 0 {
                net.remove_place(p);
            }
        }
    }
    proof {
        assert(nv.take(nv.len() as int) =~= nv);
    }
}

/// The labels of the labelled transitions of `ts`, in order.
pub open spec fn visible_labels(ts: Seq<(Seq<char>, Option<Seq<char>>)>) -> Seq<Seq<char>>
    decreases ts.len(),
{
    if ts.len() == 0 {
        Seq::empty()
    } else {
        visible_labels(ts.drop_last()) + match ts.last().1 {
            Some(l) => seq![l],
            None => Seq::empty(),
        }
    }
}

/// The labels of the labelled leaves of a tree, in order, as the net of
/// `tree_net` meets them: every child of a sequence, choice or parallel
/// node, and the body and redo part of a loop.
pub open spec fn tree_labels(t: ProcessTree) -> Seq<Seq<char>>
    decreases t, 0nat,
{
    proof {
        assert(decreases_to!(t => t.children));
        assert(decreases_to!(t.children => t.children@));
    }
    match t.operator {
        None => match t.label {
            Some(l) => seq![l@],
            None => Seq::empty(),
        },
        Some(PtOperator::Loop) => {
            let cs = t.children@;
            if cs.len() == 0 {
                Seq::empty()
            } else {
                proof {
                    assert(decreases_to!(cs => cs[0]));
                }
                tree_labels(cs[0]) + if cs.len() > 1 {
                    proof {
                        assert(decreases_to!(cs => cs[1]));
                    }
                    tree_labels(cs[1])
                } else {
                    Seq::empty()
                }
            }
        },
        Some(_) => forest_labels(t.children@),
    }
}

/// The labels of the labelled leaves of the trees, in order.
pub open spec fn forest_labels(cs: Seq<ProcessTree>) -> Seq<Seq<char>>
    decreases cs, 1nat,
{
    if cs.len() == 0 {
        Seq::empty()
    } else {
        tree_labels(cs[0]) + forest_labels(cs.drop_first())
    }
}

/// Exactly the labelled transitions have names that begin with `v`.
pub open spec fn named_by_kind(ts: Seq<(Seq<char>, Option<Seq<char>>)>) -> bool {
    forall|i: int| 0 <= i < ts.len() ==> ((#[trigger] ts[i]).1 is Some <==> (ts[i].0.len() > 0 && ts[i].0[0] == 'v'))
}

proof fn lemma_push_transition(ts: Seq<(Seq<char>, Option<Seq<char>>)>, x: (Seq<char>, Option<Seq<char>>))
    requires
        named_by_kind(ts),
        x.1 is Some <==> (x.0.len() > 0 && x.0[0] == 'v'),
    ensures
        named_by_kind(ts.push(x)),
        visible_labels(ts.push(x)) == visible_labels(ts) + match x.1 {
            Some(l) => seq![l],
            None => Seq::<Seq<char>>::empty(),
        },
{
    assert(ts.push(x).drop_last() =~= ts);
    assert forall|i: int| 0 <= i < ts.push(x).len() implies ((#[trigger] ts.push(x)[i]).1 is Some
        <==> (ts.push(x)[i].0.len() > 0 && ts.push(x)[i].0[0] == 'v')) by {
        if i < ts.len() {
            assert(ts.push(x)[i] == ts[i]);
        }
    }
}

/// A silent transition of one of the kinds `tree_net` creates.
proof fn lemma_hidden_kind(b: Build, kind: Seq<char>)
    requires
        named_by_kind(b.net.transitions),
        kind.len() > 0,
        kind[0] != 'v',
    ensures
        named_by_kind(with_hidden(b, kind).0.net.transitions),
        visible_labels(with_hidden(b, kind).0.net.transitions) == visible_labels(b.net.transitions),
{
    let name = hidden_name(kind, b.hidden + 1);
    assert(name[0] == kind[0]);
    lemma_push_transition(b.net.transitions, (name, None));
    assert(visible_labels(b.net.transitions) + Seq::<Seq<char>>::empty() =~= visible_labels(b.net.transitions));
}

proof fn lemma_visible_kind(b: Build, l: Seq<char>)
    requires
        named_by_kind(b.net.transitions),
    ensures
        named_by_kind(with_visible(b, l).0.net.transitions),
        visible_labels(with_visible(b, l).0.net.transitions) == visible_labels(b.net.transitions) + seq![l],
{
    let name = visible_name(b.visible + 1);
    reveal_strlit("vis_");
    assert(name[0] == 'v');
    lemma_push_transition(b.net.transitions, (name, Some(l)));
}

proof fn lemma_kinds()
    ensures
        "tau"@.len() > 0 && "tau"@[0] != 'v',
        "tauSplit"@.len() > 0 && "tauSplit"@[0] != 'v',
        "tauJoin"@.len() > 0 && "tauJoin"@[0] != 'v',
        "init_loop"@.len() > 0 && "init_loop"@[0] != 'v',
        "skip"@.len() > 0 && "skip"@[0] != 'v',
        "loop"@.len() > 0 && "loop"@[0] != 'v',
{
    reveal_strlit("tau");
    reveal_strlit("tauSplit");
    reveal_strlit("tauJoin");
    reveal_strlit("init_loop");
    reveal_strlit("skip");
    reveal_strlit("loop");
}

/// The fragment of a tree adds a labelled transition for each labelled leaf,
/// in order, and silent transitions whose names do not begin with `v`.
proof fn lemma_tree_net_labels(t: ProcessTree, b: Build, init: Seq<char>, fin: Seq<char>)
    requires
        named_by_kind(b.net.transitions),
    ensures
        named_by_kind(tree_net(t, b, init, fin).net.transitions),
        visible_labels(tree_net(t, b, init, fin).net.transitions) == visible_labels(b.net.transitions) + tree_labels(t),
    decreases t, 0nat,
{
    lemma_kinds();
    assert(decreases_to!(t => t.children));
    assert(decreases_to!(t.children => t.children@));
    match t.operator {
        None => {
            match t.label {
                None => lemma_hidden_kind(b, "tau"@),
                Some(l) => lemma_visible_kind(b, l@),
            }
            assert(visible_labels(b.net.transitions) + Seq::<Seq<char>>::empty() =~= visible_labels(b.net.transitions));
        },
        Some(PtOperator::Sequence) => {
            lemma_seq_net_labels(t.children@, b, init, fin);
        },
        Some(PtOperator::Xor) => {
            lemma_xor_net_labels(t.children@, b, init, fin);
        },
        Some(PtOperator::Parallel) => {
            let (b1, split) = with_hidden(b, "tauSplit"@);
            lemma_hidden_kind(b, "tauSplit"@);
            let b2 = with_arc(b1, init, split);
            let (b3, join) = with_hidden(b2, "tauJoin"@);
            lemma_hidden_kind(b2, "tauJoin"@);
            let b4 = with_arc(b3, join, fin);
            lemma_par_net_labels(t.children@, b4, split, join);
        },
        Some(PtOperator::Loop) => {
            let cs = t.children@;
            if cs.len() == 0 {
                assert(visible_labels(b.net.transitions) + Seq::<Seq<char>>::empty() =~= visible_labels(b.net.transitions));
            } else {
                assert(decreases_to!(cs => cs[0]));
                let (b1, loop_init) = with_place(b);
                let (b2, init_loop) = with_hidden(b1, "init_loop"@);
                lemma_hidden_kind(b1, "init_loop"@);
                let b3 = with_arc(with_arc(b2, init, init_loop), init_loop, loop_init);
                let (b4, do_final) = with_place(b3);
                let b5 = tree_net(cs[0], b4, loop_init, do_final);
                lemma_tree_net_labels(cs[0], b4, loop_init, do_final);
                let (b6, exit) = with_hidden(b5, "skip"@);
                lemma_hidden_kind(b5, "skip"@);
                let b7 = with_arc(with_arc(b6, do_final, exit), exit, fin);
                if cs.len() > 1 {
                    assert(decreases_to!(cs => cs[1]));
                    let (b8, redo_final) = with_place(b7);
                    let b9 = tree_net(cs[1], b8, do_final, redo_final);
                    lemma_tree_net_labels(cs[1], b8, do_final, redo_final);
                    let (b10, back) = with_hidden(b9, "loop"@);
                    lemma_hidden_kind(b9, "loop"@);
                    assert(visible_labels(b.net.transitions) + tree_labels(cs[0]) + tree_labels(cs[1])
                        =~= visible_labels(b.net.transitions) + (tree_labels(cs[0]) + tree_labels(cs[1])));
                } else {
                    assert(visible_labels(b.net.transitions) + tree_labels(cs[0])
                        =~= visible_labels(b.net.transitions) + (tree_labels(cs[0]) + Seq::<Seq<char>>::empty()));
                }
            }
        },
    }
}

proof fn lemma_seq_net_labels(cs: Seq<ProcessTree>, b: Build, prev: Seq<char>, fin: Seq<char>)
    requires
        named_by_kind(b.net.transitions),
    ensures
        named_by_kind(seq_net(cs, b, prev, fin).net.transitions),
        visible_labels(seq_net(cs, b, prev, fin).net.transitions) == visible_labels(b.net.transitions) + forest_labels(cs),
    decreases cs, 1nat,
{
    if cs.len() == 0 {
        assert(visible_labels(b.net.transitions) + Seq::<Seq<char>>::empty() =~= visible_labels(b.net.transitions));
    } else if cs.len() == 1 {
        lemma_tree_net_labels(cs[0], b, prev, fin);
        assert(cs.drop_first().len() == 0);
        assert(forest_labels(cs.drop_first()) =~= Seq::<Seq<char>>::empty());
        assert(tree_labels(cs[0]) + Seq::<Seq<char>>::empty() =~= tree_labels(cs[0]));
    } else {
        let (b1, next) = with_place(b);
        let b2 = tree_net(cs[0], b1, prev, next);
        lemma_tree_net_labels(cs[0], b1, prev, next);
        lemma_seq_net_labels(cs.drop_first(), b2, next, fin);
        assert(visible_labels(b.net.transitions) + tree_labels(cs[0]) + forest_labels(cs.drop_first())
            =~= visible_labels(b.net.transitions) + (tree_labels(cs[0]) + forest_labels(cs.drop_first())));
    }
}

proof fn lemma_xor_net_labels(cs: Seq<ProcessTree>, b: Build, init: Seq<char>, fin: Seq<char>)
    requires
        named_by_kind(b.net.transitions),
    ensures
        named_by_kind(xor_net(cs, b, init, fin).net.transitions),
        visible_labels(xor_net(cs, b, init, fin).net.transitions) == visible_labels(b.net.transitions) + forest_labels(cs),
    decreases cs, 1nat,
{
    if cs.len() == 0 {
        assert(visible_labels(b.net.transitions) + Seq::<Seq<char>>::empty() =~= visible_labels(b.net.transitions));
    } else {
        let b1 = tree_net(cs[0], b, init, fin);
        lemma_tree_net_labels(cs[0], b, init, fin);
        lemma_xor_net_labels(cs.drop_first(), b1, init, fin);
        assert(visible_labels(b.net.transitions) + tree_labels(cs[0]) + forest_labels(cs.drop_first())
            =~= visible_labels(b.net.transitions) + (tree_labels(cs[0]) + forest_labels(cs.drop_first())));
    }
}

proof fn lemma_par_net_labels(cs: Seq<ProcessTree>, b: Build, split: Seq<char>, join: Seq<char>)
    requires
        named_by_kind(b.net.transitions),
    ensures
        named_by_kind(par_net(cs, b, split, join).net.transitions),
        visible_labels(par_net(cs, b, split, join).net.transitions) == visible_labels(b.net.transitions) + forest_labels(cs),
    decreases cs, 1nat,
{
    if cs.len() == 0 {
        assert(visible_labels(b.net.transitions) + Seq::<Seq<char>>::empty() =~= visible_labels(b.net.transitions));
    } else {
        let (b1, c_init) = with_place(b);
        let (b2, c_final) = with_place(b1);
        let b3 = with_arc(with_arc(b2, split, c_init), c_final, join);
        let b4 = tree_net(cs[0], b3, c_init, c_final);
        lemma_tree_net_labels(cs[0], b3, c_init, c_final);
        lemma_par_net_labels(cs.drop_first(), b4, split, join);
        assert(visible_labels(b.net.transitions) + tree_labels(cs[0]) + forest_labels(cs.drop_first())
            =~= visible_labels(b.net.transitions) + (tree_labels(cs[0]) + forest_labels(cs.drop_first())));
    }
}

proof fn lemma_built_net_labels(t: ProcessTree)
    ensures
        named_by_kind(built_net(t).transitions),
        visible_labels(built_net(t).transitions) == tree_labels(t),
{
    lemma_kinds();
    let b0 = Build {
        net: NetView { places: seq!["source"@, "sink"@], transitions: Seq::empty(), arcs: Seq::empty() },
        places: 0,
        hidden: 0,
        visible: 0,
    };
    let (b1, ip) = with_place(b0);
    lemma_hidden_kind(b1, "tau"@);
    let (b2, ti) = with_hidden(b1, "tau"@);
    let b3 = with_arc(with_arc(b2, "source"@, ti), ti, ip);
    let (b4, fp) = with_place(b3);
    lemma_hidden_kind(b4, "tau"@);
    let (b5, tf) = with_hidden(b4, "tau"@);
    let b6 = with_arc(with_arc(b5, fp, tf), tf, "sink"@);
    assert(visible_labels(b0.net.transitions) == Seq::<Seq<char>>::empty());
    lemma_tree_net_labels(t, b6, ip, fp);
    assert(Seq::<Seq<char>>::empty() + tree_labels(t) =~= tree_labels(t));
}

/// Dropping the transitions named after a silent one keeps the labelled
/// transitions and their naming.
proof fn lemma_drop_named_silent(ts: Seq<(Seq<char>, Option<Seq<char>>)>, y: Seq<char>, p: spec_fn((Seq<char>, Option<Seq<char>>)) -> bool)
    requires
        named_by_kind(ts),
        !(y.len() > 0 && y[0] == 'v'),
        forall|x: (Seq<char>, Option<Seq<char>>)| #[trigger] p(x) == (x.0 != y),
    ensures
        named_by_kind(ts.filter(p)),
        visible_labels(ts.filter(p)) == visible_labels(ts),
    decreases ts.len(),
{
    reveal(Seq::filter);
    if ts.len() > 0 {
        let d = ts.drop_last();
        assert forall|i: int| 0 <= i < d.len() implies ((#[trigger] d[i]).1 is Some <==> (d[i].0.len() > 0 && d[i].0[0] == 'v')) by {
            assert(d[i] == ts[i]);
        }
        lemma_drop_named_silent(d, y, p);
        let x = ts.last();
        assert(x == ts[ts.len() - 1]);
        if p(x) {
            assert(ts.filter(p) == d.filter(p).push(x));
            lemma_push_transition(d.filter(p), x);
        } else {
            assert(ts.filter(p) == d.filter(p));
            assert(x.1 is None);
            assert(visible_labels(d) + Seq::<Seq<char>>::empty() =~= visible_labels(d));
        }
    } else {
        assert(ts.filter(p) =~= ts);
    }
}

/// Fusing series places removes only silent transitions.
proof fn lemma_series_fused_labels(n: NetView)
    requires
        named_by_kind(n.transitions),
    ensures
        named_by_kind(series_fused(n).transitions),
        visible_labels(series_fused(n).transitions) == visible_labels(n.transitions),
    decreases n.transitions.len(),
{
    lemma_series_place_step(n);
    let f = |i: int| series_place(n, n.places[i]);
    lemma_first_hit_some(n.places.len() as int, f);
    if let Some(i) = first_hit(n.places.len() as int, f) {
        let p = n.places[i];
        assert(series_place(n, p));
        let out_t = post_transitions(n, p)[0];
        let g = transition_named(n, out_t);
        lemma_first_hit_some(n.transitions.len() as int, g);
        let j = first_hit(n.transitions.len() as int, g)->0;
        assert(n.transitions[j].0 == out_t && n.transitions[j].1 is None);
        let m = fuse_series_place_at(n, p);
        assert(!(out_t.len() > 0 && out_t[0] == 'v'));
        lemma_drop_named_silent(n.transitions, post_transitions(n, n.places[i])[0],
            |x: (Seq<char>, Option<Seq<char>>)| x.0 != post_transitions(n, n.places[i])[0]);
        assert(series_place_step(n).1 == m);
        lemma_series_fused_labels(m);
    }
}

/// Removing places keeps the transitions.
proof fn lemma_prune_dead_transitions(n: NetView, names: Seq<Seq<char>>)
    ensures
        prune_dead(n, names).transitions == n.transitions,
    decreases names.len(),
{
    if names.len() > 0 {
        lemma_prune_dead_transitions(n, names.drop_last());
    }
}

/// The net of a process tree has a labelled transition for each labelled
/// leaf of the tree, in order (for a loop, its body and redo part), and no
/// other labelled transition.
pub proof fn lemma_tree_net_keeps_labels(t: ProcessTree)
    ensures
        visible_labels(prune_dead(series_fused(built_net(t)), series_fused(built_net(t)).places).transitions) == tree_labels(t),
{
    lemma_built_net_labels(t);
    lemma_series_fused_labels(built_net(t));
    lemma_prune_dead_transitions(series_fused(built_net(t)), series_fused(built_net(t)).places);
}

/// Converts a process tree to a Petri net named "inductive_net" with one
/// token on `source` initially and one on `sink` finally: the net of
/// `built_net` with its series places fused, without the places left
/// unconnected. Its labelled transitions carry the labels of the tree's
/// labelled leaves, in order.
pub fn from_process_tree(tree: &ProcessTree) -> (res: PetriNetResult)
    requires
        loops_have_body(*tree),
        5 * tree_size(*tree) + 8 <= usize::MAX,
    ensures
        res.net.unit_arcs(),
        res.net.name@ == "inductive_net"@,
        res.net@ == prune_dead(series_fused(built_net(*tree)), series_fused(built_net(*tree)).places),
        visible_labels(res.net@.transitions) == tree_labels(*tree),
        single_token(res.initial_marking, "source"@),
        single_token(res.final_marking, "sink"@),
{
    let mut counts = Counts { num_places: 0, num_hidden: 0, num_visible: 0 };
    let mut net = PetriNet::new("inductive_net");
    proof {
        reveal_strlit("inductive_net");
        reveal_strlit("source");
        reveal_strlit("sink");
        reveal_strlit("tau");
    }
    net.add_place("source");
    net.add_place("sink");
    let ghost b0 = Build {
        net: NetView { places: seq!["source"@, "sink"@], transitions: Seq::empty(), arcs: Seq::empty() },
        places: 0,
        hidden: 0,
        visible: 0,
    };
    proof {
        assert(net@.places =~= seq!["source"@, "sink"@]);
        assert(net@.transitions =~= Seq::<(Seq<char>, Option<Seq<char>>)>::empty());
        assert(net@.arcs =~= Seq::<(Seq<char>, Seq<char>)>::empty());
        assert(build_of(net@, counts) == b0);
    }
    let initial_place = new_place(&mut net, &mut counts);
    let tau_initial = new_hidden(&mut net, &mut counts, "tau");
    add_arc(&mut net, "source", tau_initial.as_str(), Ghost(counts));
    add_arc(&mut net, tau_initial.as_str(), initial_place.as_str(), Ghost(counts));
    let final_place = new_place(&mut net, &mut counts);
    let tau_final = new_hidden(&mut net, &mut counts, "tau");
    add_arc(&mut net, final_place.as_str(), tau_final.as_str(), Ghost(counts));
    add_arc(&mut net, tau_final.as_str(), "sink", Ghost(counts));
    proof {
        let (b1, ip) = with_place(b0);
        let (b2, ti) = with_hidden(b1, "tau"@);
        let b3 = with_arc(with_arc(b2, "source"@, ti), ti, ip);
        let (b4, fp) = with_place(b3);
        let (b5, tf) = with_hidden(b4, "tau"@);
        let b6 = with_arc(with_arc(b5, fp, tf), tf, "sink"@);
        assert(ip == initial_place@ && fp == final_place@);
        assert(build_of(net@, counts) == b6);
        assert(room(counts, tree_size(*tree)));
    }
    add_tree(tree, &mut net, &mut counts, initial_place.as_str(), final_place.as_str());
    proof {
        assert(net@ == built_net(*tree));
    }
    fuse_all_series_places(&mut net);
    remove_dead_places(&mut net);
    proof {
        lemma_tree_net_keeps_labels(*tree);
    }
    PetriNetResult {
        net,
        initial_marking: single_token_marking("source"),
        final_marking: single_token_marking("sink"),
    }
}

} // verus!
