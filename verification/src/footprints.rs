//! Behavioural footprints: which activities can start or end a trace,
//! which pairs can directly follow each other (sequence) or occur
//! concurrently (parallel), which activities always happen, and the least
//! number of activities of a complete trace. Footprints of composite
//! models are combined from those of their parts.

use vstd::prelude::*;
use crate::binary_relation::{is_path, reaches, BinaryRelation};
use crate::algorithms::transitive::transitive_closure;
use crate::event_log::{trace_names, EventLog, TraceView};
use crate::text::{contains_name, str_eq};

verus! {

/// Footprints of a model (or sub-model); each list holds a set.
#[derive(Debug)]
pub struct Footprints {
    /// Activities that can start a trace.
    pub start_activities: Vec<String>,
    /// Activities that can end a trace.
    pub end_activities: Vec<String>,
    /// All activities of the model.
    pub activities: Vec<String>,
    /// True if the model can produce an empty trace.
    pub skippable: bool,
    /// Directly-follows pairs: `(a, b)` means `a` can be directly followed by `b`.
    pub sequence: Vec<(String, String)>,
    /// Concurrent pairs: `(a, b)` means `a` and `b` can occur concurrently.
    pub parallel: Vec<(String, String)>,
    /// Activities that always happen in every execution.
    pub activities_always_happening: Vec<String>,
    /// Minimum number of activities in any complete trace.
    pub min_trace_length: usize,
}

/// Footprints as sets.
pub struct FootprintsView {
    pub start: Set<Seq<char>>,
    pub end: Set<Seq<char>>,
    pub activities: Set<Seq<char>>,
    pub skippable: bool,
    pub sequence: Set<(Seq<char>, Seq<char>)>,
    pub parallel: Set<(Seq<char>, Seq<char>)>,
    pub always: Set<Seq<char>>,
    pub min_len: nat,
}

impl View for Footprints {
    type V = FootprintsView;

    open spec fn view(&self) -> FootprintsView {
        FootprintsView {
            start: self.start_activities.deep_view().to_set(),
            end: self.end_activities.deep_view().to_set(),
            activities: self.activities.deep_view().to_set(),
            skippable: self.skippable,
            sequence: self.sequence.deep_view().to_set(),
            parallel: self.parallel.deep_view().to_set(),
            always: self.activities_always_happening.deep_view().to_set(),
            min_len: self.min_trace_length as nat,
        }
    }
}

/// Sequence pairs that are also parallel dropped; pairs that occur in the
/// sequence in both directions moved to parallel.
pub open spec fn fix_fp(
    sequence: Set<(Seq<char>, Seq<char>)>,
    parallel: Set<(Seq<char>, Seq<char>)>,
) -> (Set<(Seq<char>, Seq<char>)>, Set<(Seq<char>, Seq<char>)>) {
    let s1 = sequence.difference(parallel);
    let both = Set::new(|p: (Seq<char>, Seq<char>)| s1.contains(p) && s1.contains((p.1, p.0)));
    (s1.difference(both), parallel.union(both))
}

/// The footprints of a model that can only do nothing.
pub open spec fn empty_skip() -> FootprintsView {
    FootprintsView {
        start: Set::empty(),
        end: Set::empty(),
        activities: Set::empty(),
        skippable: true,
        sequence: Set::empty(),
        parallel: Set::empty(),
        always: Set::empty(),
        min_len: 0,
    }
}

/// The footprints of a single activity.
pub open spec fn single(l: Seq<char>) -> FootprintsView {
    FootprintsView {
        start: set![l],
        end: set![l],
        activities: set![l],
        skippable: false,
        sequence: Set::empty(),
        parallel: Set::empty(),
        always: set![l],
        min_len: 1,
    }
}

/// The footprints of a transition: a silent one can only do nothing.
pub open spec fn of_transition(label: Option<Seq<char>>) -> FootprintsView {
    match label {
        None => empty_skip(),
        Some(l) => single(l),
    }
}

/// `m` merged with `fp` (both happen): activities, sequence and parallel
/// pairs joined; skippable only if both are; `fp`'s always-happening
/// activities added when it cannot be skipped.
pub open spec fn merge_step(m: FootprintsView, fp: FootprintsView) -> FootprintsView {
    FootprintsView {
        activities: m.activities.union(fp.activities),
        skippable: m.skippable && fp.skippable,
        sequence: m.sequence.union(fp.sequence),
        parallel: m.parallel.union(fp.parallel),
        always: if !fp.skippable { m.always.union(fp.always) } else { m.always },
        ..m
    }
}

/// The first `k` footprints merged onto the first.
pub open spec fn merge_upto(fps: Seq<FootprintsView>, k: int) -> FootprintsView
    decreases k,
{
    if k <= 1 {
        fps[0]
    } else {
        merge_step(merge_upto(fps, k - 1), fps[k - 1])
    }
}

/// All footprints merged (AND semantics); nothing merged can only do
/// nothing.
pub open spec fn merge(fps: Seq<FootprintsView>) -> FootprintsView {
    if fps.len() == 0 { empty_skip() } else { merge_upto(fps, fps.len() as int) }
}

/// The union of a sequence of sets.
pub open spec fn big_union<A>(sets: Seq<Set<A>>) -> Set<A>
    decreases sets.len(),
{
    if sets.len() == 0 {
        Set::empty()
    } else {
        big_union(sets.drop_last()).union(sets.last())
    }
}

/// The activities that always happen in every one of the non-skippable
/// footprints among the first `k`; none when there is no such footprint.
pub open spec fn always_of_choice(fps: Seq<FootprintsView>, k: int) -> Option<Set<Seq<char>>>
    decreases k,
{
    if k <= 0 {
        None
    } else {
        let prev = always_of_choice(fps, k - 1);
        if fps[k - 1].skippable {
            prev
        } else {
            match prev {
                None => Some(fps[k - 1].always),
                Some(p) => Some(p.intersect(fps[k - 1].always)),
            }
        }
    }
}

/// The least minimum trace length among the first `k` footprints.
pub open spec fn least_len(fps: Seq<FootprintsView>, k: int) -> nat
    decreases k,
{
    if k <= 1 {
        fps[0].min_len
    } else {
        let p = least_len(fps, k - 1);
        if fps[k - 1].min_len < p { fps[k - 1].min_len } else { p }
    }
}

/// The footprints of an exclusive choice: every part's starts, ends,
/// activities and pairs; skippable when a part is; the activities that
/// always happen in every non-skippable part; the least length.
pub open spec fn of_xor(fps: Seq<FootprintsView>) -> FootprintsView {
    let fixed = fix_fp(
        big_union(fps.map_values(|f: FootprintsView| f.sequence)),
        big_union(fps.map_values(|f: FootprintsView| f.parallel)),
    );
    FootprintsView {
        start: big_union(fps.map_values(|f: FootprintsView| f.start)),
        end: big_union(fps.map_values(|f: FootprintsView| f.end)),
        activities: big_union(fps.map_values(|f: FootprintsView| f.activities)),
        skippable: exists|i: int| 0 <= i < fps.len() && #[trigger] fps[i].skippable,
        sequence: fixed.0,
        parallel: fixed.1,
        always: match always_of_choice(fps, fps.len() as int) {
            Some(s) => s,
            None => Set::empty(),
        },
        min_len: if fps.len() == 0 { 0 } else { least_len(fps, fps.len() as int) },
    }
}

/// All pairs of an element of `a` followed by one of `b`.
pub open spec fn product(a: Set<Seq<char>>, b: Set<Seq<char>>) -> Set<(Seq<char>, Seq<char>)> {
    Set::new(|p: (Seq<char>, Seq<char>)| a.contains(p.0) && b.contains(p.1))
}

/// The footprints of a loop of a body `d` and a redo part `r`.
pub open spec fn of_loop(d: FootprintsView, r: FootprintsView) -> FootprintsView {
    let seq0 = d.sequence.union(r.sequence).union(product(d.end, r.start)).union(product(r.end, d.start))
        .union(if d.skippable { product(r.end, r.start) } else { Set::empty() })
        .union(if r.skippable { product(d.end, d.start) } else { Set::empty() });
    let fixed = fix_fp(seq0, d.parallel.union(r.parallel));
    FootprintsView {
        start: if d.skippable { d.start.union(r.start) } else { d.start },
        end: if d.skippable { d.end.union(r.end) } else { d.end },
        activities: d.activities.union(r.activities),
        skippable: d.skippable,
        sequence: fixed.0,
        parallel: fixed.1,
        always: if !d.skippable { d.always } else { Set::empty() },
        min_len: d.min_len,
    }
}

/// The names of a list, as a set.
pub open spec fn names(v: &Vec<String>) -> Set<Seq<char>> {
    v.deep_view().to_set()
}

/// The pairs of a list, as a set.
pub open spec fn pairs(v: &Vec<(String, String)>) -> Set<(Seq<char>, Seq<char>)> {
    v.deep_view().to_set()
}

/// Adds `x` unless it is there.
fn add_name(v: &mut Vec<String>, x: &str)
    ensures
        names(final(v)) == names(old(v)).insert(x@),
{
    if !contains_name(v, x) {
        let ghost before = v.deep_view();
        v.push(x.to_owned());
        proof {
            assert(v.deep_view() =~= before.push(x@));
            assert(names(v) =~= names(old(v)).insert(x@)) by {
                assert forall|a: Seq<char>| names(v).contains(a) <==> names(old(v)).insert(x@).contains(a) by {
                    if names(v).contains(a) {
                        let i = choose|i: int| 0 <= i < v.deep_view().len() && #[trigger] v.deep_view()[i] == a;
                        if i < before.len() {
                            assert(before[i] == a);
                        }
                    }
                    if names(old(v)).contains(a) {
                        let i = choose|i: int| 0 <= i < before.len() && #[trigger] before[i] == a;
                        assert(v.deep_view()[i] == a);
                    }
                    if a == x@ {
                        assert(v.deep_view()[before.len() as int] == a);
                    }
                }
            }
        }
    } else {
        proof {
            assert(names(v) =~= names(old(v)).insert(x@));
        }
    }
}

/// Adds the names of `w`.
fn add_names(v: &mut Vec<String>, w: &Vec<String>)
    ensures
        names(final(v)) == names(old(v)).union(names(w)),
{
    let ghost wv = w.deep_view();
    for i in 0..w.len()
        invariant
            wv == w.deep_view(),
            names(v) == names(old(v)).union(wv.take(i as int).to_set()),
    {
        add_name(v, w[i].as_str());
        proof {
            assert(wv[i as int] == w@[i as int]@);
            lemma_take_to_set_step(wv, i as int);
            assert(names(v) =~= names(old(v)).union(wv.take(i + 1).to_set()));
        }
    }
    proof {
        assert(wv.take(wv.len() as int) =~= wv);
    }
}

/// Whether `(a, b)` is one of the pairs of `v`.
fn has_pair(v: &Vec<(String, String)>, a: &str, b: &str) -> (res: bool)
    ensures
        res == pairs(v).contains((a@, b@)),
{
    for i in 0..v.len()
        invariant
            forall|j: int| 0 <= j < i ==> v.deep_view()[j] != (a@, b@),
    {
        proof {
            assert(v.deep_view()[i as int] == (v@[i as int].0@, v@[i as int].1@));
        }
        if str_eq(v[i].0.as_str(), a) && str_eq(v[i].1.as_str(), b) {
            proof {
                assert(v.deep_view()[i as int] == (a@, b@));
            }
            return true;
        }
    }
    false
}

/// Adds `(a, b)` unless it is there.
fn add_pair(v: &mut Vec<(String, String)>, a: &str, b: &str)
    ensures
        pairs(final(v)) == pairs(old(v)).insert((a@, b@)),
{
    if !has_pair(v, a, b) {
        let ghost before = v.deep_view();
        v.push((a.to_owned(), b.to_owned()));
        proof {
            assert(v.deep_view() =~= before.push((a@, b@)));
            assert forall|p: (Seq<char>, Seq<char>)| pairs(v).contains(p) <==> pairs(old(v)).insert((a@, b@)).contains(p) by {
                if pairs(v).contains(p) {
                    let i = choose|i: int| 0 <= i < v.deep_view().len() && #[trigger] v.deep_view()[i] == p;
                    if i < before.len() {
                        assert(before[i] == p);
                    }
                }
                if pairs(old(v)).contains(p) {
                    let i = choose|i: int| 0 <= i < before.len() && #[trigger] before[i] == p;
                    assert(v.deep_view()[i] == p);
                }
                if p == (a@, b@) {
                    assert(v.deep_view()[before.len() as int] == p);
                }
            }
            assert(pairs(v) =~= pairs(old(v)).insert((a@, b@)));
        }
    } else {
        proof {
            assert(pairs(v) =~= pairs(old(v)).insert((a@, b@)));
        }
    }
}

pub(crate) proof fn lemma_take_to_set_step<A>(s: Seq<A>, i: int)
    requires
        0 <= i < s.len(),
    ensures
        s.take(i + 1).to_set() == s.take(i).to_set().insert(s[i]),
{
    assert forall|a: A| s.take(i + 1).to_set().contains(a) <==> s.take(i).to_set().insert(s[i]).contains(a) by {
        if s.take(i + 1).to_set().contains(a) {
            let k = choose|k: int| 0 <= k < i + 1 && #[trigger] s.take(i + 1)[k] == a;
            if k < i {
                assert(s.take(i)[k] == a);
            }
        }
        if s.take(i).to_set().contains(a) {
            let k = choose|k: int| 0 <= k < i && #[trigger] s.take(i)[k] == a;
            assert(s.take(i + 1)[k] == a);
        }
        if a == s[i] {
            assert(s.take(i + 1)[i] == a);
        }
    }
    assert(s.take(i + 1).to_set() =~= s.take(i).to_set().insert(s[i]));
}

/// Adds the pairs of `w`.
fn add_pairs(v: &mut Vec<(String, String)>, w: &Vec<(String, String)>)
    ensures
        pairs(final(v)) == pairs(old(v)).union(pairs(w)),
{
    let ghost wv = w.deep_view();
    for i in 0..w.len()
        invariant
            wv == w.deep_view(),
            pairs(v) == pairs(old(v)).union(wv.take(i as int).to_set()),
    {
        add_pair(v, w[i].0.as_str(), w[i].1.as_str());
        proof {
            assert(wv[i as int] == (w@[i as int].0@, w@[i as int].1@));
            lemma_take_to_set_step(wv, i as int);
            assert(pairs(v) =~= pairs(old(v)).union(wv.take(i + 1).to_set()));
        }
    }
    proof {
        assert(wv.take(wv.len() as int) =~= wv);
    }
}

/// Adds every pair of a name of `xs` followed by a name of `ys`.
fn add_product(v: &mut Vec<(String, String)>, xs: &Vec<String>, ys: &Vec<String>)
    ensures
        pairs(final(v)) == pairs(old(v)).union(product(names(xs), names(ys))),
{
    let ghost xv = xs.deep_view();
    let ghost yv = ys.deep_view();
    for i in 0..xs.len()
        invariant
            xv == xs.deep_view(),
            yv == ys.deep_view(),
            pairs(v) == pairs(old(v)).union(product(xv.take(i as int).to_set(), yv.to_set())),
    {
        let ghost mid = pairs(v);
        for j in 0..ys.len()
            invariant
                xv == xs.deep_view(),
                yv == ys.deep_view(),
                0 <= i < xv.len(),
                pairs(v) == mid.union(product(set![xv[i as int]], yv.take(j as int).to_set())),
        {
            add_pair(v, xs[i].as_str(), ys[j].as_str());
            proof {
                assert(xv[i as int] == xs@[i as int]@);
                assert(yv[j as int] == ys@[j as int]@);
                lemma_take_to_set_step(yv, j as int);
                assert(pairs(v) =~= mid.union(product(set![xv[i as int]], yv.take(j + 1).to_set())));
            }
        }
        proof {
            assert(yv.take(yv.len() as int) =~= yv);
            lemma_take_to_set_step(xv, i as int);
            assert(pairs(v) =~= pairs(old(v)).union(product(xv.take(i + 1).to_set(), yv.to_set())));
        }
    }
    proof {
        assert(xv.take(xv.len() as int) =~= xv);
        assert(product(xv.to_set(), yv.to_set()) =~= product(names(xs), names(ys)));
    }
}


/// The pairs `p` of `v` for which `w` holds `p` (or its reverse, when
/// `flip`) exactly when `want`.
pub(crate) fn filter_pairs(v: &Vec<(String, String)>, w: &Vec<(String, String)>, flip: bool, want: bool) -> (res: Vec<(String, String)>)
    ensures
        pairs(&res) == Set::new(|p: (Seq<char>, Seq<char>)| pairs(v).contains(p) && pairs(w).contains(if flip { (p.1, p.0) } else { p }) == want),
{
    let ghost vv = v.deep_view();
    let ghost keep = |p: (Seq<char>, Seq<char>)| pairs(w).contains(if flip { (p.1, p.0) } else { p }) == want;
    let mut out: Vec<(String, String)> = Vec::new();
    for i in 0..v.len()
        invariant
            vv == v.deep_view(),
            keep == (|p: (Seq<char>, Seq<char>)| pairs(w).contains(if flip { (p.1, p.0) } else { p }) == want),
            pairs(&out) == Set::new(|p: (Seq<char>, Seq<char>)| vv.take(i as int).to_set().contains(p) && keep(p)),
    {
        let a = v[i].0.as_str();
        let b = v[i].1.as_str();
        proof {
            assert(vv[i as int] == (a@, b@));
            lemma_take_to_set_step(vv, i as int);
        }
        let present = if flip { has_pair(w, b, a) } else { has_pair(w, a, b) };
        let ghost before = pairs(&out);
        if present == want {
            add_pair(&mut out, a, b);
        }
        proof {
            assert(pairs(&out) =~= Set::new(|p: (Seq<char>, Seq<char>)| vv.take(i + 1).to_set().contains(p) && keep(p)));
        }
    }
    proof {
        assert(vv.take(vv.len() as int) =~= vv);
        assert(pairs(&out) =~= Set::new(|p: (Seq<char>, Seq<char>)| pairs(v).contains(p) && pairs(w).contains(if flip { (p.1, p.0) } else { p }) == want));
    }
    out
}

/// Remove parallel pairs from sequence; move bidirectional sequence pairs
/// to parallel, as `fix_fp` states it.
fn fix_pairs(sequence: &Vec<(String, String)>, parallel: &Vec<(String, String)>) -> (res: (Vec<(String, String)>, Vec<(String, String)>))
    ensures
        (pairs(&res.0), pairs(&res.1)) == fix_fp(pairs(sequence), pairs(parallel)),
{
    let s1 = filter_pairs(sequence, parallel, false, false);
    let both = filter_pairs(&s1, &s1, true, true);
    let seq = filter_pairs(&s1, &s1, true, false);
    let mut par = copy_pairs(parallel);
    add_pairs(&mut par, &both);
    proof {
        let f = fix_fp(pairs(sequence), pairs(parallel));
        assert(pairs(&s1) =~= pairs(sequence).difference(pairs(parallel)));
        assert(pairs(&seq) =~= f.0);
        assert(pairs(&par) =~= f.1);
    }
    (seq, par)
}

fn copy_names(v: &Vec<String>) -> (res: Vec<String>)
    ensures
        names(&res) == names(v),
{
    let mut out: Vec<String> = Vec::new();
    proof {
        assert(names(&out) =~= Set::<Seq<char>>::empty());
    }
    add_names(&mut out, v);
    proof {
        assert(names(&out) =~= names(v));
    }
    out
}

fn copy_pairs(v: &Vec<(String, String)>) -> (res: Vec<(String, String)>)
    ensures
        pairs(&res) == pairs(v),
{
    let mut out: Vec<(String, String)> = Vec::new();
    proof {
        assert(pairs(&out) =~= Set::<(Seq<char>, Seq<char>)>::empty());
    }
    add_pairs(&mut out, v);
    proof {
        assert(pairs(&out) =~= pairs(v));
    }
    out
}

impl Footprints {
    /// The footprints of a model that can only do nothing.
    pub fn empty_skip() -> (res: Self)
        ensures
            res@ == empty_skip(),
    {
        let res = Footprints {
            start_activities: Vec::new(),
            end_activities: Vec::new(),
            activities: Vec::new(),
            skippable: true,
            sequence: Vec::new(),
            parallel: Vec::new(),
            activities_always_happening: Vec::new(),
            min_trace_length: 0,
        };
        proof {
            assert(res@.start =~= Set::<Seq<char>>::empty());
            assert(res@.end =~= Set::<Seq<char>>::empty());
            assert(res@.activities =~= Set::<Seq<char>>::empty());
            assert(res@.always =~= Set::<Seq<char>>::empty());
            assert(res@.sequence =~= Set::<(Seq<char>, Seq<char>)>::empty());
            assert(res@.parallel =~= Set::<(Seq<char>, Seq<char>)>::empty());
        }
        res
    }

    /// The footprints of a single activity.
    pub fn single(label: &str) -> (res: Self)
        ensures
            res@ == single(label@),
    {
        let mut one: Vec<String> = Vec::new();
        one.push(label.to_owned());
        proof {
            assert(one.deep_view() =~= seq![label@]);
            assert(names(&one) =~= set![label@]) by {
                assert forall|a: Seq<char>| names(&one).contains(a) <==> set![label@].contains(a) by {
                    if a == label@ {
                        assert(one.deep_view()[0] == a);
                    }
                }
            }
        }
        let res = Footprints {
            start_activities: copy_names(&one),
            end_activities: copy_names(&one),
            activities: copy_names(&one),
            skippable: false,
            sequence: Vec::new(),
            parallel: Vec::new(),
            activities_always_happening: one,
            min_trace_length: 1,
        };
        proof {
            assert(res@.sequence =~= Set::<(Seq<char>, Seq<char>)>::empty());
            assert(res@.parallel =~= Set::<(Seq<char>, Seq<char>)>::empty());
        }
        res
    }

    /// A copy with the same sets.
    pub fn copy(&self) -> (res: Self)
        ensures
            res@ == self@,
    {
        Footprints {
            start_activities: copy_names(&self.start_activities),
            end_activities: copy_names(&self.end_activities),
            activities: copy_names(&self.activities),
            skippable: self.skippable,
            sequence: copy_pairs(&self.sequence),
            parallel: copy_pairs(&self.parallel),
            activities_always_happening: copy_names(&self.activities_always_happening),
            min_trace_length: self.min_trace_length,
        }
    }
}

/// The footprints of a list, as values.
pub open spec fn views(fps: &Vec<Footprints>) -> Seq<FootprintsView> {
    fps@.map_values(|f: Footprints| f@)
}

/// The footprints of a transition: a silent one can only do nothing.
pub fn footprints_of_transition(label: Option<&str>) -> (res: Footprints)
    ensures
        res@ == of_transition(match label {
            Some(l) => Some(l@),
            None => None,
        }),
{
    match label {
        None => Footprints::empty_skip(),
        Some(l) => Footprints::single(l),
    }
}

/// Merge child footprints (AND semantics), as `merge` states it.
pub fn merge_footprints(fps: &Vec<Footprints>) -> (res: Footprints)
    ensures
        res@ == merge(views(fps)),
{
    if fps.len() == 0 {
        return Footprints::empty_skip();
    }
    let ghost vs = views(fps);
    let mut merged = fps[0].copy();
    for k in 1..fps.len()
        invariant
            vs == views(fps),
            1 <= fps@.len(),
            merged@ == merge_upto(vs, k as int),
    {
        let fp = &fps[k];
        proof {
            assert(vs[k as int] == fp@);
        }
        add_names(&mut merged.activities, &fp.activities);
        merged.skippable = merged.skippable && fp.skippable;
        add_pairs(&mut merged.sequence, &fp.sequence);
        add_pairs(&mut merged.parallel, &fp.parallel);
        if !fp.skippable {
            add_names(&mut merged.activities_always_happening, &fp.activities_always_happening);
        }
        proof {
            assert(merged@ == merge_upto(vs, k + 1));
        }
    }
    merged
}

proof fn lemma_big_union_take<A>(sets: Seq<Set<A>>, k: int)
    requires
        0 <= k < sets.len(),
    ensures
        big_union(sets.take(k + 1)) == big_union(sets.take(k)).union(sets[k]),
{
    assert(sets.take(k + 1).drop_last() =~= sets.take(k));
}

/// The footprints of an exclusive choice, as `of_xor` states it.
pub fn footprints_of_xor(children: &Vec<Footprints>) -> (res: Footprints)
    ensures
        res@ == of_xor(views(children)),
{
    let ghost vs = views(children);
    let ghost st = vs.map_values(|f: FootprintsView| f.start);
    let ghost en = vs.map_values(|f: FootprintsView| f.end);
    let ghost ac = vs.map_values(|f: FootprintsView| f.activities);
    let ghost sq = vs.map_values(|f: FootprintsView| f.sequence);
    let ghost pa = vs.map_values(|f: FootprintsView| f.parallel);
    let mut start: Vec<String> = Vec::new();
    let mut end: Vec<String> = Vec::new();
    let mut activities: Vec<String> = Vec::new();
    let mut skippable = false;
    let mut sequence: Vec<(String, String)> = Vec::new();
    let mut parallel: Vec<(String, String)> = Vec::new();
    let mut aah: Option<Vec<String>> = None;
    let mut least: usize = 0;
    proof {
        assert(names(&start) =~= big_union(st.take(0)));
        assert(names(&end) =~= big_union(en.take(0)));
        assert(names(&activities) =~= big_union(ac.take(0)));
        assert(pairs(&sequence) =~= big_union(sq.take(0)));
        assert(pairs(&parallel) =~= big_union(pa.take(0)));
    }
    for k in 0..children.len()
        invariant
            vs == views(children),
            st == vs.map_values(|f: FootprintsView| f.start),
            en == vs.map_values(|f: FootprintsView| f.end),
            ac == vs.map_values(|f: FootprintsView| f.activities),
            sq == vs.map_values(|f: FootprintsView| f.sequence),
            pa == vs.map_values(|f: FootprintsView| f.parallel),
            names(&start) == big_union(st.take(k as int)),
            names(&end) == big_union(en.take(k as int)),
            names(&activities) == big_union(ac.take(k as int)),
            pairs(&sequence) == big_union(sq.take(k as int)),
            pairs(&parallel) == big_union(pa.take(k as int)),
            skippable == exists|i: int| 0 <= i < k && #[trigger] vs[i].skippable,
            (match aah {
                Some(v) => always_of_choice(vs, k as int) == Some(names(&v)),
                None => always_of_choice(vs, k as int) is None,
            }),
            k > 0 ==> least == least_len(vs, k as int),
            k == 0 ==> least == 0,
    {
        let fp = &children[k];
        proof {
            assert(vs[k as int] == fp@);
            lemma_big_union_take(st, k as int);
            lemma_big_union_take(en, k as int);
            lemma_big_union_take(ac, k as int);
            lemma_big_union_take(sq, k as int);
            lemma_big_union_take(pa, k as int);
        }
        add_names(&mut start, &fp.start_activities);
        add_names(&mut end, &fp.end_activities);
        add_names(&mut activities, &fp.activities);
        skippable = skippable || fp.skippable;
        add_pairs(&mut sequence, &fp.sequence);
        add_pairs(&mut parallel, &fp.parallel);
        if !fp.skippable {
            aah = match aah {
                None => Some(copy_names(&fp.activities_always_happening)),
                Some(prev) => Some(common_names(&prev, &fp.activities_always_happening)),
            };
        }
        if k == 0 || fp.min_trace_length < least {
            least = fp.min_trace_length;
        }
    }
    proof {
        assert(st.take(st.len() as int) =~= st);
        assert(en.take(en.len() as int) =~= en);
        assert(ac.take(ac.len() as int) =~= ac);
        assert(sq.take(sq.len() as int) =~= sq);
        assert(pa.take(pa.len() as int) =~= pa);
    }
    let (sequence, parallel) = fix_pairs(&sequence, &parallel);
    let always = match aah {
        Some(v) => v,
        None => {
            let e: Vec<String> = Vec::new();
            proof {
                assert(names(&e) =~= Set::<Seq<char>>::empty());
            }
            e
        },
    };
    let res = Footprints {
        start_activities: start,
        end_activities: end,
        activities,
        skippable,
        sequence,
        parallel,
        activities_always_happening: always,
        min_trace_length: least,
    };
    proof {
        let x = of_xor(vs);
        assert(vs.len() == children@.len());
        assert(res@.start == x.start);
        assert(res@.end == x.end);
        assert(res@.activities == x.activities);
        assert(res@.skippable == x.skippable);
        assert(res@.sequence == x.sequence);
        assert(res@.parallel == x.parallel);
        assert(res@.always == x.always);
        assert(res@.min_len == x.min_len);
    }
    res
}

/// The names both lists hold.
fn common_names(a: &Vec<String>, b: &Vec<String>) -> (res: Vec<String>)
    ensures
        names(&res) == names(a).intersect(names(b)),
{
    let ghost av = a.deep_view();
    let mut out: Vec<String> = Vec::new();
    for i in 0..a.len()
        invariant
            av == a.deep_view(),
            names(&out) == av.take(i as int).to_set().intersect(names(b)),
    {
        proof {
            assert(av[i as int] == a@[i as int]@);
            lemma_take_to_set_step(av, i as int);
        }
        if contains_name(b, a[i].as_str()) {
            add_name(&mut out, a[i].as_str());
        }
        proof {
            assert(names(&out) =~= av.take(i + 1).to_set().intersect(names(b)));
        }
    }
    proof {
        assert(av.take(av.len() as int) =~= av);
    }
    out
}

/// The names of `a` that `b` lacks.
pub(crate) fn names_minus(a: &Vec<String>, b: &Vec<String>) -> (res: Vec<String>)
    ensures
        names(&res) == names(a).difference(names(b)),
{
    let ghost av = a.deep_view();
    let mut out: Vec<String> = Vec::new();
    for i in 0..a.len()
        invariant
            av == a.deep_view(),
            names(&out) == av.take(i as int).to_set().difference(names(b)),
    {
        proof {
            assert(av[i as int] == a@[i as int]@);
            lemma_take_to_set_step(av, i as int);
        }
        if !contains_name(b, a[i].as_str()) {
            add_name(&mut out, a[i].as_str());
        }
        proof {
            assert(names(&out) =~= av.take(i + 1).to_set().difference(names(b)));
        }
    }
    proof {
        assert(av.take(av.len() as int) =~= av);
    }
    out
}

/// The footprints of a loop of a body and a redo part, as `of_loop`
/// states it.
pub fn footprints_of_loop(do_fp: &Footprints, redo_fp: &Footprints) -> (res: Footprints)
    ensures
        res@ == of_loop(do_fp@, redo_fp@),
{
    let mut start = copy_names(&do_fp.start_activities);
    let mut end = copy_names(&do_fp.end_activities);
    let mut activities = copy_names(&do_fp.activities);
    add_names(&mut activities, &redo_fp.activities);
    let mut sequence = copy_pairs(&do_fp.sequence);
    add_pairs(&mut sequence, &redo_fp.sequence);
    let mut parallel = copy_pairs(&do_fp.parallel);
    add_pairs(&mut parallel, &redo_fp.parallel);
    let always = if !do_fp.skippable {
        copy_names(&do_fp.activities_always_happening)
    } else {
        let e: Vec<String> = Vec::new();
        proof {
            assert(names(&e) =~= Set::<Seq<char>>::empty());
        }
        e
    };
    if do_fp.skippable {
        add_names(&mut start, &redo_fp.start_activities);
        add_names(&mut end, &redo_fp.end_activities);
    }
    // do.end → redo.start, redo.end → do.start
    add_product(&mut sequence, &do_fp.end_activities, &redo_fp.start_activities);
    add_product(&mut sequence, &redo_fp.end_activities, &do_fp.start_activities);
    let ghost s1 = pairs(&sequence);
    if do_fp.skippable {
        add_product(&mut sequence, &redo_fp.end_activities, &redo_fp.start_activities);
    }
    proof {
        assert(pairs(&sequence) =~= s1.union(if do_fp@.skippable { product(redo_fp@.end, redo_fp@.start) } else { Set::empty() }));
    }
    let ghost s2 = pairs(&sequence);
    if redo_fp.skippable {
        add_product(&mut sequence, &do_fp.end_activities, &do_fp.start_activities);
    }
    proof {
        assert(pairs(&sequence) =~= s2.union(if redo_fp@.skippable { product(do_fp@.end, do_fp@.start) } else { Set::empty() }));
    }
    let (sequence, parallel) = fix_pairs(&sequence, &parallel);
    Footprints {
        start_activities: start,
        end_activities: end,
        activities,
        skippable: do_fp.skippable,
        sequence,
        parallel,
        activities_always_happening: always,
        min_trace_length: do_fp.min_trace_length,
    }
}


/// The union of `f(i)` for `0 <= i < n`.
pub open spec fn indexed_union<A>(n: int, f: spec_fn(int) -> Set<A>) -> Set<A> {
    Set::new(|a: A| exists|i: int| 0 <= i < n && #[trigger] f(i).contains(a))
}

proof fn lemma_indexed_union_step<A>(k: int, f: spec_fn(int) -> Set<A>)
    requires
        0 <= k,
    ensures
        indexed_union(k + 1, f) == indexed_union(k, f).union(f(k)),
{
    assert forall|a: A| #[trigger] indexed_union(k + 1, f).contains(a) <==> indexed_union(k, f).union(f(k)).contains(a) by {
        if indexed_union(k + 1, f).contains(a) {
            let i = choose|i: int| 0 <= i < k + 1 && #[trigger] f(i).contains(a);
            if i < k {
                assert(indexed_union(k, f).contains(a));
            }
        }
        if indexed_union(k, f).contains(a) {
            let i = choose|i: int| 0 <= i < k && #[trigger] f(i).contains(a);
            assert(0 <= i < k + 1 && f(i).contains(a));
        }
        if f(k).contains(a) {
            assert(0 <= k < k + 1 && f(k).contains(a));
        }
    }
    assert(indexed_union(k + 1, f) =~= indexed_union(k, f).union(f(k)));
}

proof fn lemma_indexed_union_zero<A>(f: spec_fn(int) -> Set<A>)
    ensures
        indexed_union(0, f) == Set::<A>::empty(),
{
    assert(indexed_union(0, f) =~= Set::<A>::empty());
}

/// `j` is `i` or comes after it in the order.
pub open spec fn after(o: BinaryRelation, i: int, j: int) -> bool {
    i == j || reaches(o, i, j)
}

/// The edge `i -> j` of the order is not implied by another: no other
/// successor of `i` comes before `j`.
pub open spec fn reduced_edge(o: BinaryRelation, n: int, i: int, j: int) -> bool {
    &&& o.edge(i, j)
    &&& !exists|k: int| 0 <= k < n && #[trigger] o.edge(i, k) && k != j && reaches(o, k, j)
}

/// No non-skippable part comes before part `i`.
pub open spec fn is_first(ch: Seq<FootprintsView>, o: BinaryRelation, i: int) -> bool {
    forall|p: int| 0 <= p < ch.len() ==> p == i || #[trigger] ch[p].skippable || !after(o, p, i)
}

/// No non-skippable part comes after part `i`.
pub open spec fn is_last(ch: Seq<FootprintsView>, o: BinaryRelation, i: int) -> bool {
    forall|q: int| 0 <= q < ch.len() ==> q == i || #[trigger] ch[q].skippable || !after(o, i, q)
}

/// Part `j` comes after part `i` with only skippable parts between them.
pub open spec fn skip_edge(ch: Seq<FootprintsView>, o: BinaryRelation, i: int, j: int) -> bool {
    &&& i != j
    &&& after(o, i, j)
    &&& forall|k: int| 0 <= k < ch.len() ==> k == i || k == j || #[trigger] ch[k].skippable || !(after(o, i, k) && after(o, k, j))
}

/// Parts `i < j` are unordered.
pub open spec fn unordered(o: BinaryRelation, i: int, j: int) -> bool {
    i < j && !after(o, i, j) && !after(o, j, i)
}

/// Part `p`, other than `i`, is not skippable and comes before `i`.
pub open spec fn blocks(ch: Seq<FootprintsView>, o: BinaryRelation, p: int, i: int) -> bool {
    p != i && !ch[p].skippable && after(o, p, i)
}

/// Part `q`, other than `i`, is not skippable and comes after `i`.
pub open spec fn follows(ch: Seq<FootprintsView>, o: BinaryRelation, i: int, q: int) -> bool {
    q != i && !ch[q].skippable && after(o, i, q)
}

/// Part `k`, neither `i` nor `j`, is not skippable and lies between them.
pub open spec fn between(ch: Seq<FootprintsView>, o: BinaryRelation, i: int, k: int, j: int) -> bool {
    k != i && k != j && !ch[k].skippable && after(o, i, k) && after(o, k, j)
}

/// The summed minimum lengths of the first `k` non-skippable parts.
pub open spec fn required_len(ch: Seq<FootprintsView>, k: int) -> int
    decreases k,
{
    if k <= 0 {
        0
    } else {
        required_len(ch, k - 1) + if ch[k - 1].skippable { 0 } else { ch[k - 1].min_len as int }
    }
}

/// The directly-follows pairs between parts `i` and `j`: an end of `i`
/// followed by a start of `j`, when `i -> j` is a reduced edge or only
/// skippable parts lie between them.
pub open spec fn order_pairs(ch: Seq<FootprintsView>, o: BinaryRelation, i: int, j: int) -> Set<(Seq<char>, Seq<char>)> {
    if reduced_edge(o, ch.len() as int, i, j) || skip_edge(ch, o, i, j) {
        product(ch[i].end, ch[j].start)
    } else {
        Set::empty()
    }
}

/// The concurrent pairs between unordered parts `i < j`, both ways.
pub open spec fn concurrent_pairs(ch: Seq<FootprintsView>, o: BinaryRelation, i: int, j: int) -> Set<(Seq<char>, Seq<char>)> {
    if unordered(o, i, j) {
        product(ch[i].activities, ch[j].activities).union(product(ch[j].activities, ch[i].activities))
    } else {
        Set::empty()
    }
}

/// The footprints of a partial order of parts `ch` under the order `o`:
/// the parts merged; starts of parts with no non-skippable part before
/// them, ends of parts with none after them; directly-follows pairs along
/// reduced edges and across skippable parts; concurrent pairs between
/// unordered parts.
pub open spec fn of_partial_order(ch: Seq<FootprintsView>, o: BinaryRelation) -> FootprintsView {
    let n = ch.len() as int;
    let merged = merge(ch);
    let fixed = fix_fp(
        merged.sequence.union(indexed_union(n, |i: int| indexed_union(n, |j: int| order_pairs(ch, o, i, j)))),
        merged.parallel.union(indexed_union(n, |i: int| indexed_union(n, |j: int| concurrent_pairs(ch, o, i, j)))),
    );
    if n == 0 {
        empty_skip()
    } else {
        FootprintsView {
            start: indexed_union(n, |i: int| if is_first(ch, o, i) { ch[i].start } else { Set::empty() }),
            end: indexed_union(n, |i: int| if is_last(ch, o, i) { ch[i].end } else { Set::empty() }),
            activities: merged.activities,
            skippable: merged.skippable,
            sequence: fixed.0,
            parallel: fixed.1,
            always: merged.always,
            min_len: required_len(ch, n) as nat,
        }
    }
}

proof fn lemma_closure_reaches(o: BinaryRelation, c: BinaryRelation, i: int, j: int)
    requires
        forall|a: int, b: int| #[trigger] o.edge(a, b) ==> c.edge(a, b),
        c.transitive(),
        reaches(o, i, j),
    ensures
        c.edge(i, j),
{
    let p = choose|p: Seq<int>| #[trigger] is_path(o, p) && p[0] == i && p.last() == j;
    assert forall|k: int| 1 <= k < p.len() implies c.edge(p[0], #[trigger] p[k]) by {
        lemma_closure_prefix(o, c, p, k);
    }
    assert(c.edge(p[0], p[p.len() - 1]));
}

proof fn lemma_closure_prefix(o: BinaryRelation, c: BinaryRelation, p: Seq<int>, k: int)
    requires
        forall|a: int, b: int| #[trigger] o.edge(a, b) ==> c.edge(a, b),
        c.transitive(),
        is_path(o, p),
        1 <= k < p.len(),
    ensures
        c.edge(p[0], p[k]),
    decreases k,
{
    let m = k - 1;
    assert(o.edge(p[m], p[m + 1]));
    if k > 1 {
        lemma_closure_prefix(o, c, p, k - 1);
    }
}

/// Whether `j` is `i` or comes after it, by the closure `c` of `o`.
fn comes_after(c: &BinaryRelation, i: usize, j: usize, Ghost(o): Ghost<BinaryRelation>) -> (res: bool)
    requires
        c.wf(),
        forall|a: int, b: int| #[trigger] o.edge(a, b) ==> c.edge(a, b),
        c.transitive(),
        forall|a: int, b: int| #[trigger] c.edge(a, b) ==> reaches(o, a, b),
    ensures
        res == after(o, i as int, j as int),
{
    if i == j {
        return true;
    }
    let e = c.is_edge(i, j);
    proof {
        if reaches(o, i as int, j as int) {
            lemma_closure_reaches(o, *c, i as int, j as int);
        }
    }
    e
}

/// The footprints of a partial order of parts under `order`, as
/// `of_partial_order` states it.
pub fn footprints_of_partial_order(children: &Vec<Footprints>, order: &BinaryRelation) -> (res: Footprints)
    requires
        order.wf(),
        order.n == children@.len(),
        required_len(views(children), children@.len() as int) <= usize::MAX,
    ensures
        res@ == of_partial_order(views(children), *order),
{
    let ghost ch = views(children);
    let ghost o = *order;
    let n = children.len();
    if n == 0 {
        return Footprints::empty_skip();
    }
    let c = transitive_closure(order);
    let merged = merge_footprints(children);
    // Starts and ends.
    let ghost fs = |i: int| if is_first(ch, o, i) { ch[i].start } else { Set::<Seq<char>>::empty() };
    let ghost fe = |i: int| if is_last(ch, o, i) { ch[i].end } else { Set::<Seq<char>>::empty() };
    let mut start: Vec<String> = Vec::new();
    let mut end: Vec<String> = Vec::new();
    proof {
        lemma_indexed_union_zero(fs);
        lemma_indexed_union_zero(fe);
        assert(names(&start) =~= Set::<Seq<char>>::empty());
    }
    for i in 0..n
        invariant
            n == children@.len(),
            ch == views(children),
            o == *order,
            c.wf(),
            c.n == n,
            forall|a: int, b: int| #[trigger] o.edge(a, b) ==> c.edge(a, b),
            c.transitive(),
            forall|a: int, b: int| #[trigger] c.edge(a, b) ==> reaches(o, a, b),
            fs == (|i: int| if is_first(ch, o, i) { ch[i].start } else { Set::<Seq<char>>::empty() }),
            fe == (|i: int| if is_last(ch, o, i) { ch[i].end } else { Set::<Seq<char>>::empty() }),
            names(&start) == indexed_union(i as int, fs),
            names(&end) == indexed_union(i as int, fe),
    {
        let mut first = true;
        let mut last = true;
        for p in 0..n
            invariant
                n == children@.len(),
                ch == views(children),
                i < n,
                c.wf(),
                forall|a: int, b: int| #[trigger] o.edge(a, b) ==> c.edge(a, b),
                c.transitive(),
                forall|a: int, b: int| #[trigger] c.edge(a, b) ==> reaches(o, a, b),
                first == !exists|q: int| 0 <= q < p && #[trigger] blocks(ch, o, q, i as int),
                last == !exists|q: int| 0 <= q < p && #[trigger] follows(ch, o, i as int, q),
        {
            proof {
                assert(ch[p as int] == children@[p as int]@);
                assert(ch[p as int].skippable == children@[p as int].skippable);
            }
            if p != i && !children[p].skippable {
                if comes_after(&c, p, i, Ghost(o)) {
                    first = false;
                }
                if comes_after(&c, i, p, Ghost(o)) {
                    last = false;
                }
            }
            proof {
                assert(blocks(ch, o, p as int, i as int) == (p != i && !ch[p as int].skippable && after(o, p as int, i as int)));
                assert(follows(ch, o, i as int, p as int) == (p != i && !ch[p as int].skippable && after(o, i as int, p as int)));
                assert(first == !exists|q: int| 0 <= q < p + 1 && #[trigger] blocks(ch, o, q, i as int)) by {
                    if exists|q: int| 0 <= q < p + 1 && #[trigger] blocks(ch, o, q, i as int) {
                        let q = choose|q: int| 0 <= q < p + 1 && #[trigger] blocks(ch, o, q, i as int);
                        if q < p {
                            assert(exists|q: int| 0 <= q < p && #[trigger] blocks(ch, o, q, i as int));
                        }
                    }
                }
                assert(last == !exists|q: int| 0 <= q < p + 1 && #[trigger] follows(ch, o, i as int, q)) by {
                    if exists|q: int| 0 <= q < p + 1 && #[trigger] follows(ch, o, i as int, q) {
                        let q = choose|q: int| 0 <= q < p + 1 && #[trigger] follows(ch, o, i as int, q);
                        if q < p {
                            assert(exists|q: int| 0 <= q < p && #[trigger] follows(ch, o, i as int, q));
                        }
                    }
                }
            }
        }
        proof {
            assert(first == is_first(ch, o, i as int)) by {
                if !is_first(ch, o, i as int) {
                    let q = choose|q: int| 0 <= q < ch.len() && !(q == i || #[trigger] ch[q].skippable || !after(o, q, i as int));
                    assert(blocks(ch, o, q, i as int));
                }
                if !first {
                    let q = choose|q: int| 0 <= q < n && #[trigger] blocks(ch, o, q, i as int);
                    assert(!(q == i || ch[q].skippable || !after(o, q, i as int)));
                }
            }
            assert(last == is_last(ch, o, i as int)) by {
                if !is_last(ch, o, i as int) {
                    let q = choose|q: int| 0 <= q < ch.len() && !(q == i || #[trigger] ch[q].skippable || !after(o, i as int, q));
                    assert(follows(ch, o, i as int, q));
                }
                if !last {
                    let q = choose|q: int| 0 <= q < n && #[trigger] follows(ch, o, i as int, q);
                    assert(!(q == i || ch[q].skippable || !after(o, i as int, q)));
                }
            }
        }
        let ghost before_s = names(&start);
        let ghost before_e = names(&end);
        proof {
            assert(fs(i as int) == if first { names(&children@[i as int].start_activities) } else { Set::<Seq<char>>::empty() });
            assert(fe(i as int) == if last { names(&children@[i as int].end_activities) } else { Set::<Seq<char>>::empty() });
        }
        if first {
            add_names(&mut start, &children[i].start_activities);
        }
        if last {
            add_names(&mut end, &children[i].end_activities);
        }
        proof {
            assert(names(&start) =~= before_s.union(fs(i as int)));
            assert(names(&end) =~= before_e.union(fe(i as int)));
        }
    }
    // Directly-follows and concurrent pairs between parts.
    let ghost op = |i: int| indexed_union(n as int, |j: int| order_pairs(ch, o, i, j));
    let ghost cp = |i: int| indexed_union(n as int, |j: int| concurrent_pairs(ch, o, i, j));
    let mut sequence = copy_pairs(&merged.sequence);
    let mut parallel = copy_pairs(&merged.parallel);
    proof {
        lemma_indexed_union_zero(op);
        lemma_indexed_union_zero(cp);
        assert(pairs(&sequence) =~= merged@.sequence.union(indexed_union(0, op)));
        assert(pairs(&parallel) =~= merged@.parallel.union(indexed_union(0, cp)));
    }
    for i in 0..n
        invariant
            n == children@.len(),
            ch == views(children),
            o == *order,
            order.wf(),
            c.wf(),
            forall|a: int, b: int| #[trigger] o.edge(a, b) ==> c.edge(a, b),
            c.transitive(),
            forall|a: int, b: int| #[trigger] c.edge(a, b) ==> reaches(o, a, b),
            op == (|i: int| indexed_union(n as int, |j: int| order_pairs(ch, o, i, j))),
            cp == (|i: int| indexed_union(n as int, |j: int| concurrent_pairs(ch, o, i, j))),
            pairs(&sequence) == merged@.sequence.union(indexed_union(i as int, op)),
            pairs(&parallel) == merged@.parallel.union(indexed_union(i as int, cp)),
    {
        let ghost row_o = |j: int| order_pairs(ch, o, i as int, j);
        let ghost row_c = |j: int| concurrent_pairs(ch, o, i as int, j);
        let ghost base_s = pairs(&sequence);
        let ghost base_p = pairs(&parallel);
        proof {
            lemma_indexed_union_zero(row_o);
            lemma_indexed_union_zero(row_c);
            assert(base_s =~= base_s.union(indexed_union(0, row_o)));
            assert(base_p =~= base_p.union(indexed_union(0, row_c)));
        }
        for j in 0..n
            invariant
                n == children@.len(),
                ch == views(children),
                o == *order,
                order.wf(),
                i < n,
                c.wf(),
                forall|a: int, b: int| #[trigger] o.edge(a, b) ==> c.edge(a, b),
                c.transitive(),
                forall|a: int, b: int| #[trigger] c.edge(a, b) ==> reaches(o, a, b),
                row_o == (|j: int| order_pairs(ch, o, i as int, j)),
                row_c == (|j: int| concurrent_pairs(ch, o, i as int, j)),
                pairs(&sequence) == base_s.union(indexed_union(j as int, row_o)),
                pairs(&parallel) == base_p.union(indexed_union(j as int, row_c)),
        {
            proof {
                assert(ch[i as int] == children@[i as int]@);
                assert(ch[j as int] == children@[j as int]@);
                lemma_indexed_union_step(j as int, row_o);
                lemma_indexed_union_step(j as int, row_c);
            }
            let ij = comes_after(&c, i, j, Ghost(o));
            let ji = comes_after(&c, j, i, Ghost(o));
            // Reduced edge: an edge with no other successor of i before j.
            let mut reduced = order.is_edge(i, j);
            if reduced {
                for k in 0..n
                    invariant
                        n == children@.len(),
                        o == *order,
                        order.wf(),
                        c.wf(),
                        forall|a: int, b: int| #[trigger] o.edge(a, b) ==> c.edge(a, b),
                        c.transitive(),
                        forall|a: int, b: int| #[trigger] c.edge(a, b) ==> reaches(o, a, b),
                        reduced == (o.edge(i as int, j as int) && !exists|q: int| 0 <= q < k && #[trigger] o.edge(i as int, q) && q != j && reaches(o, q, j as int)),
                {
                    if k != j && order.is_edge(i, k) && comes_after(&c, k, j, Ghost(o)) {
                        reduced = false;
                    }
                }
            }
            // Skip edge: only skippable parts between i and j.
            let mut skip = i != j && ij;
            if skip {
                for k in 0..n
                    invariant
                        n == children@.len(),
                        ch == views(children),
                        o == *order,
                        i < n,
                        j < n,
                        c.wf(),
                        forall|a: int, b: int| #[trigger] o.edge(a, b) ==> c.edge(a, b),
                        c.transitive(),
                        forall|a: int, b: int| #[trigger] c.edge(a, b) ==> reaches(o, a, b),
                        skip == (i != j && after(o, i as int, j as int) && !exists|q: int| 0 <= q < k && #[trigger] between(ch, o, i as int, q, j as int)),
                {
                    proof {
                        assert(ch[k as int] == children@[k as int]@);
                        assert(ch[k as int].skippable == children@[k as int].skippable);
                    }
                    if k != i && k != j && !children[k].skippable {
                        if comes_after(&c, i, k, Ghost(o)) && comes_after(&c, k, j, Ghost(o)) {
                            skip = false;
                        }
                    }
                    proof {
                        assert(between(ch, o, i as int, k as int, j as int) == (k != i && k != j && !ch[k as int].skippable && after(o, i as int, k as int) && after(o, k as int, j as int)));
                        if exists|q: int| 0 <= q < k + 1 && #[trigger] between(ch, o, i as int, q, j as int) {
                            let q = choose|q: int| 0 <= q < k + 1 && #[trigger] between(ch, o, i as int, q, j as int);
                            if q < k {
                                assert(exists|q: int| 0 <= q < k && #[trigger] between(ch, o, i as int, q, j as int));
                            }
                        }
                    }
                }
            }
            proof {
                assert(skip == skip_edge(ch, o, i as int, j as int)) by {
                    if i != j && after(o, i as int, j as int) {
                        if !skip {
                            let q = choose|q: int| 0 <= q < n && #[trigger] between(ch, o, i as int, q, j as int);
                            assert(!(q == i || q == j || ch[q].skippable || !(after(o, i as int, q) && after(o, q, j as int))));
                        }
                        if !skip_edge(ch, o, i as int, j as int) {
                            let q = choose|q: int| 0 <= q < ch.len() && !(q == i || q == j || #[trigger] ch[q].skippable || !(after(o, i as int, q) && after(o, q, j as int)));
                            assert(between(ch, o, i as int, q, j as int));
                        }
                    }
                }
            }
            if reduced || skip {
                add_product(&mut sequence, &children[i].end_activities, &children[j].start_activities);
            }
            if i < j && !ij && !ji {
                add_product(&mut parallel, &children[i].activities, &children[j].activities);
                add_product(&mut parallel, &children[j].activities, &children[i].activities);
            }
            proof {
                assert(pairs(&sequence) =~= base_s.union(indexed_union(j + 1, row_o)));
                assert(pairs(&parallel) =~= base_p.union(indexed_union(j + 1, row_c)));
            }
        }
        proof {
            assert(op(i as int) == indexed_union(n as int, row_o));
            assert(cp(i as int) == indexed_union(n as int, row_c));
            lemma_indexed_union_step(i as int, op);
            lemma_indexed_union_step(i as int, cp);
            assert(pairs(&sequence) =~= merged@.sequence.union(indexed_union(i + 1, op)));
            assert(pairs(&parallel) =~= merged@.parallel.union(indexed_union(i + 1, cp)));
        }
    }
    let (sequence, parallel) = fix_pairs(&sequence, &parallel);
    // Required length: the non-skippable parts' minimum lengths summed.
    let mut min_len: usize = 0;
    for i in 0..n
        invariant
            n == children@.len(),
            ch == views(children),
            required_len(ch, n as int) <= usize::MAX,
            min_len == required_len(ch, i as int),
    {
        proof {
            assert(ch[i as int] == children@[i as int]@);
            lemma_required_len_mono(ch, i + 1, n as int);
        }
        if !children[i].skippable {
            min_len = min_len + children[i].min_trace_length;
        }
    }
    Footprints {
        start_activities: start,
        end_activities: end,
        activities: copy_names(&merged.activities),
        skippable: merged.skippable,
        sequence,
        parallel,
        activities_always_happening: copy_names(&merged.activities_always_happening),
        min_trace_length: min_len,
    }
}

proof fn lemma_required_len_mono(ch: Seq<FootprintsView>, k: int, m: int)
    requires
        0 <= k <= m,
    ensures
        required_len(ch, k) <= required_len(ch, m),
    decreases m - k,
{
    if k < m {
        lemma_required_len_mono(ch, k, m - 1);
    }
}


/// The activity that starts (`first`) or ends the `t`-th trace, if it has
/// events.
pub open spec fn trace_bound(log: Seq<TraceView>, t: int, first: bool) -> Set<Seq<char>> {
    let ns = trace_names(log[t]);
    if ns.len() == 0 {
        Set::empty()
    } else if first {
        set![ns[0]]
    } else {
        set![ns.last()]
    }
}

/// The activities that start (`first`) or end the non-empty traces.
pub open spec fn log_bounds(log: Seq<TraceView>, first: bool) -> Set<Seq<char>> {
    indexed_union(log.len() as int, |t: int| trace_bound(log, t, first))
}

/// The activities of the log.
pub open spec fn log_activities(log: Seq<TraceView>) -> Set<Seq<char>> {
    indexed_union(log.len() as int, |t: int| trace_names(log[t]).to_set())
}

/// The directly-follows pairs of one trace's activities.
pub open spec fn follows_pairs(ns: Seq<Seq<char>>) -> Set<(Seq<char>, Seq<char>)> {
    indexed_union(ns.len() - 1, |k: int| set![(ns[k], ns[k + 1])])
}

/// The directly-follows pairs of the log.
pub open spec fn log_pairs(log: Seq<TraceView>) -> Set<(Seq<char>, Seq<char>)> {
    indexed_union(log.len() as int, |t: int| follows_pairs(trace_names(log[t])))
}

/// The footprints of an event log: starts, ends and activities of its
/// traces; its directly-follows pairs, those seen both ways as parallel.
pub open spec fn of_log(log: Seq<TraceView>) -> FootprintsView {
    let fixed = fix_fp(log_pairs(log), Set::empty());
    FootprintsView {
        start: log_bounds(log, true),
        end: log_bounds(log, false),
        activities: log_activities(log),
        skippable: false,
        sequence: fixed.0,
        parallel: fixed.1,
        always: Set::empty(),
        min_len: 1,
    }
}

/// The directly-follows pairs of the log, each once.
fn log_pair_list(log: &EventLog) -> (res: Vec<(String, String)>)
    ensures
        pairs(&res) == log_pairs(log@),
        res.deep_view().no_duplicates(),
{
    let ghost lv = log@;
    let ghost per = |t: int| follows_pairs(trace_names(lv[t]));
    let mut out: Vec<(String, String)> = Vec::new();
    proof {
        lemma_indexed_union_zero(per);
        assert(pairs(&out) =~= Set::<(Seq<char>, Seq<char>)>::empty());
    }
    for t in 0..log.traces.len()
        invariant
            lv == log@,
            per == (|t: int| follows_pairs(trace_names(lv[t]))),
            pairs(&out) == indexed_union(t as int, per),
            out.deep_view().no_duplicates(),
    {
        let events = &log.traces[t].events;
        let ghost ns = trace_names(lv[t as int]);
        let ghost step = |k: int| set![(ns[k], ns[k + 1])];
        let ghost base = pairs(&out);
        proof {
            assert(lv[t as int] == log.traces@[t as int].deep_view());
            assert(ns.len() == events@.len());
            lemma_indexed_union_zero(step);
            assert(base =~= base.union(indexed_union(0, step)));
        }
        if events.len() > 1 {
            let last = events.len() - 1;
            for k in 0..last
                invariant
                    last + 1 == events@.len(),
                    ns == trace_names(lv[t as int]),
                    lv == log@,
                    t < log.traces@.len(),
                    lv[t as int] == log.traces@[t as int].deep_view(),
                    events == &log.traces@[t as int].events,
                    ns.len() == events@.len(),
                    step == (|k: int| set![(ns[k], ns[k + 1])]),
                    pairs(&out) == base.union(indexed_union(k as int, step)),
                    out.deep_view().no_duplicates(),
            {
                proof {
                    assert(ns[k as int] == events@[k as int].name@);
                    assert(ns[k + 1] == events@[k + 1].name@);
                    lemma_indexed_union_step(k as int, step);
                }
                let a = events[k].name.as_str();
                let b = events[k + 1].name.as_str();
                add_new_pair(&mut out, a, b);
                proof {
                    assert(pairs(&out) =~= base.union(indexed_union(k + 1, step)));
                }
            }
        }
        proof {
            if events@.len() <= 1 {
                assert(indexed_union(ns.len() - 1, step) =~= Set::<(Seq<char>, Seq<char>)>::empty());
            }
            assert(per(t as int) == indexed_union(ns.len() - 1, step));
            lemma_indexed_union_step(t as int, per);
            assert(pairs(&out) =~= indexed_union(t + 1, per));
        }
    }
    out
}

/// Adds `(a, b)` unless it is there, keeping the list free of repeats.
fn add_new_pair(v: &mut Vec<(String, String)>, a: &str, b: &str)
    requires
        old(v).deep_view().no_duplicates(),
    ensures
        pairs(final(v)) == pairs(old(v)).insert((a@, b@)),
        final(v).deep_view().no_duplicates(),
{
    let ghost before = v.deep_view();
    if !has_pair(v, a, b) {
        v.push((a.to_owned(), b.to_owned()));
        proof {
            let after = v.deep_view();
            assert(after =~= before.push((a@, b@)));
            assert forall|i: int, j: int| 0 <= i < after.len() && 0 <= j < after.len() && i != j implies after[i] != after[j] by {
                if i == before.len() as int {
                    assert(after[j] == before[j]);
                    assert(before.contains(before[j]));
                } else if j == before.len() as int {
                    assert(after[i] == before[i]);
                    assert(before.contains(before[i]));
                } else {
                    assert(after[i] == before[i] && after[j] == before[j]);
                }
            }
            assert forall|p: (Seq<char>, Seq<char>)| pairs(v).contains(p) <==> pairs(old(v)).insert((a@, b@)).contains(p) by {
                if pairs(v).contains(p) {
                    let i = choose|i: int| 0 <= i < after.len() && #[trigger] after[i] == p;
                    if i < before.len() {
                        assert(before[i] == p);
                    }
                }
                if pairs(old(v)).contains(p) {
                    let i = choose|i: int| 0 <= i < before.len() && #[trigger] before[i] == p;
                    assert(after[i] == p);
                }
                if p == (a@, b@) {
                    assert(after[before.len() as int] == p);
                }
            }
            assert(pairs(v) =~= pairs(old(v)).insert((a@, b@)));
        }
    } else {
        proof {
            assert(pairs(v) =~= pairs(old(v)).insert((a@, b@)));
        }
    }
}

/// Discover footprints from an event log, as `of_log` states it.
pub fn discover_from_log(log: &EventLog) -> (res: Footprints)
    ensures
        res@ == of_log(log@),
{
    let ghost lv = log@;
    let ghost fs = |t: int| trace_bound(lv, t, true);
    let ghost fe = |t: int| trace_bound(lv, t, false);
    let ghost fa = |t: int| trace_names(lv[t]).to_set();
    let mut start: Vec<String> = Vec::new();
    let mut end: Vec<String> = Vec::new();
    let mut activities: Vec<String> = Vec::new();
    proof {
        lemma_indexed_union_zero(fs);
        lemma_indexed_union_zero(fe);
        lemma_indexed_union_zero(fa);
        assert(names(&start) =~= Set::<Seq<char>>::empty());
    }
    for t in 0..log.traces.len()
        invariant
            lv == log@,
            fs == (|t: int| trace_bound(lv, t, true)),
            fe == (|t: int| trace_bound(lv, t, false)),
            fa == (|t: int| trace_names(lv[t]).to_set()),
            names(&start) == indexed_union(t as int, fs),
            names(&end) == indexed_union(t as int, fe),
            names(&activities) == indexed_union(t as int, fa),
    {
        let events = &log.traces[t].events;
        let ghost ns = trace_names(lv[t as int]);
        proof {
            assert(lv[t as int] == log.traces@[t as int].deep_view());
            assert(ns.len() == events@.len());
            lemma_indexed_union_step(t as int, fs);
            lemma_indexed_union_step(t as int, fe);
            lemma_indexed_union_step(t as int, fa);
        }
        let ghost bs = names(&start);
        let ghost be = names(&end);
        if events.len() > 0 {
            proof {
                assert(ns[0] == events@[0].name@);
                assert(ns.last() == events@[events@.len() - 1].name@);
            }
            add_name(&mut start, events[0].name.as_str());
            add_name(&mut end, events[events.len() - 1].name.as_str());
        }
        proof {
            assert(names(&start) =~= bs.union(fs(t as int)));
            assert(names(&end) =~= be.union(fe(t as int)));
        }
        let ghost ba = names(&activities);
        for k in 0..events.len()
            invariant
                ns == trace_names(lv[t as int]),
                lv == log@,
                t < log.traces@.len(),
                lv[t as int] == log.traces@[t as int].deep_view(),
                events == &log.traces@[t as int].events,
                ns.len() == events@.len(),
                names(&activities) == ba.union(ns.take(k as int).to_set()),
        {
            proof {
                assert(ns[k as int] == events@[k as int].name@);
                lemma_take_to_set_step(ns, k as int);
            }
            add_name(&mut activities, events[k].name.as_str());
            proof {
                assert(names(&activities) =~= ba.union(ns.take(k + 1).to_set()));
            }
        }
        proof {
            assert(ns.take(ns.len() as int) =~= ns);
        }
    }
    let dfg = log_pair_list(log);
    let none: Vec<(String, String)> = Vec::new();
    proof {
        assert(pairs(&none) =~= Set::<(Seq<char>, Seq<char>)>::empty());
    }
    let (sequence, parallel) = fix_pairs(&dfg, &none);
    let always: Vec<String> = Vec::new();
    proof {
        assert(names(&always) =~= Set::<Seq<char>>::empty());
    }
    proof {
        assert(names(&start) == log_bounds(lv, true));
        assert(names(&end) == log_bounds(lv, false));
        assert(names(&activities) == log_activities(lv));
        assert((pairs(&sequence), pairs(&parallel)) == fix_fp(log_pairs(lv), Set::empty()));
    }
    Footprints {
        start_activities: start,
        end_activities: end,
        activities,
        skippable: false,
        sequence,
        parallel,
        activities_always_happening: always,
        min_trace_length: 1,
    }
}

/// The counts footprints conformance compares: the log's distinct
/// directly-follows pairs, those of them the model's sequence allows, and
/// the model's sequence pairs.
pub struct FootprintCounts {
    pub log_pairs: usize,
    pub matching: usize,
    pub model_pairs: usize,
}

/// The pairs of `v`, each once.
fn distinct_pairs(v: &Vec<(String, String)>) -> (res: Vec<(String, String)>)
    ensures
        pairs(&res) == pairs(v),
        res.deep_view().no_duplicates(),
{
    let ghost vv = v.deep_view();
    let mut out: Vec<(String, String)> = Vec::new();
    proof {
        assert(pairs(&out) =~= vv.take(0).to_set());
    }
    for i in 0..v.len()
        invariant
            vv == v.deep_view(),
            pairs(&out) == vv.take(i as int).to_set(),
            out.deep_view().no_duplicates(),
    {
        proof {
            assert(vv[i as int] == (v@[i as int].0@, v@[i as int].1@));
            lemma_take_to_set_step(vv, i as int);
        }
        add_new_pair(&mut out, v[i].0.as_str(), v[i].1.as_str());
    }
    proof {
        assert(vv.take(vv.len() as int) =~= vv);
    }
    out
}

/// The counts of footprints conformance between a log and a model's
/// footprints: the number of distinct directly-follows pairs of the log,
/// of those the model's sequence holds, and of the model's sequence pairs.
pub fn footprint_counts(log: &EventLog, model_fp: &Footprints) -> (res: FootprintCounts)
    ensures
        res.log_pairs == log_pairs(log@).len(),
        res.matching == log_pairs(log@).intersect(model_fp@.sequence).len(),
        res.model_pairs == model_fp@.sequence.len(),
        res.matching <= res.log_pairs,
        res.matching <= res.model_pairs,
{
    let lp = log_pair_list(log);
    let mp = distinct_pairs(&model_fp.sequence);
    let ghost lv = lp.deep_view();
    let mut matching: Vec<(String, String)> = Vec::new();
    proof {
        assert(pairs(&matching) =~= lv.take(0).to_set().intersect(model_fp@.sequence));
    }
    for i in 0..lp.len()
        invariant
            lv == lp.deep_view(),
            lv.no_duplicates(),
            matching.deep_view() == lv.take(i as int).filter(|p: (Seq<char>, Seq<char>)| model_fp@.sequence.contains(p)),
    {
        proof {
            assert(lv[i as int] == (lp@[i as int].0@, lp@[i as int].1@));
            crate::event_log::lemma_filter_take_step(lv, |p: (Seq<char>, Seq<char>)| model_fp@.sequence.contains(p), i as int);
        }
        if has_pair(&model_fp.sequence, lp[i].0.as_str(), lp[i].1.as_str()) {
            let ghost before = matching.deep_view();
            matching.push((lp[i].0.clone(), lp[i].1.clone()));
            proof {
                assert(matching.deep_view() =~= before.push(lv[i as int]));
            }
        }
    }
    proof {
        let keep = |p: (Seq<char>, Seq<char>)| model_fp@.sequence.contains(p);
        assert(lv.take(lv.len() as int) =~= lv);
        lv.unique_seq_to_set();
        mp.deep_view().unique_seq_to_set();
        lemma_filter_unique(lv, keep);
        let f = lv.filter(keep);
        f.unique_seq_to_set();
        assert(f.to_set() =~= lv.to_set().intersect(model_fp@.sequence)) by {
            assert forall|p: (Seq<char>, Seq<char>)| f.to_set().contains(p) <==> lv.to_set().intersect(model_fp@.sequence).contains(p) by {
                lemma_filter_membership(lv, keep, p);
            }
        }
    }
    proof {
        let keep = |p: (Seq<char>, Seq<char>)| model_fp@.sequence.contains(p);
        lv.lemma_filter_len(keep);
        let ms = lv.filter(keep).to_set();
        assert(ms.subset_of(mp.deep_view().to_set()));
        vstd::set_lib::lemma_len_subset(ms, mp.deep_view().to_set());
    }
    FootprintCounts { log_pairs: lp.len(), matching: matching.len(), model_pairs: mp.len() }
}

proof fn lemma_filter_membership<A>(s: Seq<A>, keep: spec_fn(A) -> bool, x: A)
    ensures
        s.filter(keep).contains(x) <==> s.contains(x) && keep(x),
    decreases s.len(),
{
    reveal(Seq::filter);
    if s.len() > 0 {
        lemma_filter_membership(s.drop_last(), keep, x);
        assert(s =~= s.drop_last().push(s.last()));
        if keep(s.last()) {
            assert(s.filter(keep) =~= s.drop_last().filter(keep).push(s.last()));
        } else {
            assert(s.filter(keep) =~= s.drop_last().filter(keep));
        }
        if s.contains(x) && !s.drop_last().contains(x) {
            let i = choose|i: int| 0 <= i < s.len() && s[i] == x;
            if i < s.len() - 1 {
                assert(s.drop_last()[i] == x);
            }
        }
        if s.drop_last().contains(x) {
            let i = choose|i: int| 0 <= i < s.drop_last().len() && s.drop_last()[i] == x;
            assert(s[i] == x);
        }
    }
}

proof fn lemma_filter_unique<A>(s: Seq<A>, keep: spec_fn(A) -> bool)
    requires
        s.no_duplicates(),
    ensures
        s.filter(keep).no_duplicates(),
    decreases s.len(),
{
    reveal(Seq::filter);
    if s.len() > 0 {
        let d = s.drop_last();
        assert(d.no_duplicates()) by {
            assert forall|i: int, j: int| 0 <= i < d.len() && 0 <= j < d.len() && i != j implies d[i] != d[j] by {
                assert(d[i] == s[i] && d[j] == s[j]);
            }
        }
        lemma_filter_unique(d, keep);
        if keep(s.last()) {
            let f = d.filter(keep);
            assert(s.filter(keep) =~= f.push(s.last()));
            assert(!f.contains(s.last())) by {
                lemma_filter_membership(d, keep, s.last());
                if d.contains(s.last()) {
                    let i = choose|i: int| 0 <= i < d.len() && d[i] == s.last();
                    assert(s[i] == s[s.len() - 1]);
                }
            }
            assert forall|i: int, j: int| 0 <= i < f.len() + 1 && 0 <= j < f.len() + 1 && i != j implies f.push(s.last())[i] != f.push(s.last())[j] by {
                if i == f.len() {
                    assert(f.contains(f[j]));
                } else if j == f.len() {
                    assert(f.contains(f[i]));
                }
            }
        } else {
            assert(s.filter(keep) =~= d.filter(keep));
        }
    }
}


/// No pair is both sequential and parallel, and no sequential pair also
/// occurs reversed.
pub open spec fn separated(f: FootprintsView) -> bool {
    &&& f.sequence.disjoint(f.parallel)
    &&& forall|p: (Seq<char>, Seq<char>)| #[trigger] f.sequence.contains(p) ==> !f.sequence.contains((p.1, p.0))
}

proof fn lemma_fix_fp_separates(sequence: Set<(Seq<char>, Seq<char>)>, parallel: Set<(Seq<char>, Seq<char>)>)
    ensures
        fix_fp(sequence, parallel).0.disjoint(fix_fp(sequence, parallel).1),
        forall|p: (Seq<char>, Seq<char>)| #[trigger] fix_fp(sequence, parallel).0.contains(p) ==> !fix_fp(sequence, parallel).0.contains((p.1, p.0)),
{
    let f = fix_fp(sequence, parallel);
    assert forall|p: (Seq<char>, Seq<char>)| #[trigger] f.0.contains(p) implies !f.0.contains((p.1, p.0)) by {
        let q = (p.1, p.0);
        assert((q.1, q.0) == p);
    }
}

/// The footprints of a choice, a loop, a partial order or a log never
/// hold a pair as both sequential and parallel, nor a sequential pair in
/// both directions.
pub proof fn lemma_footprints_separated(
    fps: Seq<FootprintsView>,
    d: FootprintsView,
    r: FootprintsView,
    o: BinaryRelation,
    log: Seq<TraceView>,
)
    ensures
        separated(of_xor(fps)),
        separated(of_loop(d, r)),
        fps.len() > 0 ==> separated(of_partial_order(fps, o)),
        separated(of_log(log)),
{
    let x = of_xor(fps);
    lemma_fix_fp_separates(
        big_union(fps.map_values(|f: FootprintsView| f.sequence)),
        big_union(fps.map_values(|f: FootprintsView| f.parallel)),
    );
    let lp = of_loop(d, r);
    let seq0 = d.sequence.union(r.sequence).union(product(d.end, r.start)).union(product(r.end, d.start))
        .union(if d.skippable { product(r.end, r.start) } else { Set::empty() })
        .union(if r.skippable { product(d.end, d.start) } else { Set::empty() });
    lemma_fix_fp_separates(seq0, d.parallel.union(r.parallel));
    let n = fps.len() as int;
    let merged = merge(fps);
    lemma_fix_fp_separates(
        merged.sequence.union(indexed_union(n, |i: int| indexed_union(n, |j: int| order_pairs(fps, o, i, j)))),
        merged.parallel.union(indexed_union(n, |i: int| indexed_union(n, |j: int| concurrent_pairs(fps, o, i, j)))),
    );
    lemma_fix_fp_separates(log_pairs(log), Set::empty());
}

/// `b` can directly follow `a` in footprints `f`: the pair is sequential or
/// parallel there.
pub open spec fn fp_follows(f: FootprintsView, a: Seq<char>, b: Seq<char>) -> bool {
    f.sequence.contains((a, b)) || f.parallel.contains((a, b))
}

/// What can directly follow what in a loop of a body `d` and a redo part
/// `r`: whatever follows within either part; the body's last activities
/// followed by the redo part's first, and the redo part's last by the
/// body's first; when the body can be skipped, the redo part's last followed
/// by its own first (the redo part runs again at once), and when the redo
/// part can be skipped, the body's last by its own first; and nothing else.
/// An activity that can follow itself is parallel to itself, so a loop of a
/// silent body and `A` has `A` parallel to `A`. The loop starts with the
/// body, or with the redo part when the body can be skipped, ends likewise,
/// and can be skipped exactly when its body can.
pub proof fn lemma_loop_follows(d: FootprintsView, r: FootprintsView, a: Seq<char>, b: Seq<char>)
    ensures
        fp_follows(d, a, b) || fp_follows(r, a, b) ==> fp_follows(of_loop(d, r), a, b),
        d.end.contains(a) && r.start.contains(b) ==> fp_follows(of_loop(d, r), a, b),
        r.end.contains(a) && d.start.contains(b) ==> fp_follows(of_loop(d, r), a, b),
        d.skippable && r.end.contains(a) && r.start.contains(b) ==> fp_follows(of_loop(d, r), a, b),
        r.skippable && d.end.contains(a) && d.start.contains(b) ==> fp_follows(of_loop(d, r), a, b),
        fp_follows(of_loop(d, r), a, b) ==> {
            ||| fp_follows(d, a, b)
            ||| fp_follows(r, a, b)
            ||| d.end.contains(a) && r.start.contains(b)
            ||| r.end.contains(a) && d.start.contains(b)
            ||| d.skippable && r.end.contains(a) && r.start.contains(b)
            ||| r.skippable && d.end.contains(a) && d.start.contains(b)
        },
        fp_follows(of_loop(d, r), a, a) ==> of_loop(d, r).parallel.contains((a, a)),
        !(of_loop(d, r).sequence.contains((a, b)) && of_loop(d, r).parallel.contains((a, b))),
        of_loop(d, r).start.contains(a) <==> d.start.contains(a) || (d.skippable && r.start.contains(a)),
        of_loop(d, r).end.contains(a) <==> d.end.contains(a) || (d.skippable && r.end.contains(a)),
        of_loop(d, r).activities.contains(a) <==> d.activities.contains(a) || r.activities.contains(a),
        of_loop(d, r).skippable == d.skippable,
{
    let lf = of_loop(d, r);
    let seq0 = d.sequence.union(r.sequence).union(product(d.end, r.start)).union(product(r.end, d.start))
        .union(if d.skippable { product(r.end, r.start) } else { Set::empty() })
        .union(if r.skippable { product(d.end, d.start) } else { Set::empty() });
    let par0 = d.parallel.union(r.parallel);
    lemma_fix_fp_separates(seq0, par0);
    assert(lf.sequence == fix_fp(seq0, par0).0);
    assert(lf.parallel == fix_fp(seq0, par0).1);
    let p = (a, b);
    if seq0.contains(p) || par0.contains(p) {
        assert(lf.sequence.contains(p) || lf.parallel.contains(p));
    }
    if lf.sequence.contains((a, a)) {
        assert(!lf.sequence.contains(((a, a).1, (a, a).0)));
    }
}

} // verus!
