//! Differences between two models, compared by their footprints:
//! activities added and removed, activities that became mandatory or
//! optional, ordering relations and start/end activities that appeared or
//! disappeared, the change of the least trace length, and a severity.

use vstd::prelude::*;
use crate::footprints::{filter_pairs, lemma_take_to_set_step, names, names_minus, pairs, Footprints, FootprintsView};
use crate::text::str_eq;

verus! {

/// A change in the always-happening set.
#[derive(Debug)]
pub enum AlwaysChange {
    /// Activity became mandatory (was optional before).
    BecameMandatory(String),
    /// Activity became optional (was mandatory before).
    BecameOptional(String),
}

/// A change in an ordering relation or in the start or end activities.
#[derive(Debug)]
pub enum OrderChange {
    /// A sequence relation a→b appeared in the new model.
    SequenceAdded((String, String)),
    /// A sequence relation a→b was removed in the new model.
    SequenceRemoved((String, String)),
    /// A parallel relation (a ∥ b) appeared.
    ParallelAdded((String, String)),
    /// A parallel relation (a ∥ b) was removed.
    ParallelRemoved((String, String)),
    /// A start activity appeared.
    StartAdded(String),
    /// A start activity was removed.
    StartRemoved(String),
    /// An end activity appeared.
    EndAdded(String),
    /// An end activity was removed.
    EndRemoved(String),
}

/// A structural change (operator type) at a position of the two models.
#[derive(Debug)]
pub struct StructureChange {
    /// Path of the position (e.g. `"root"`, `"root.child[0]"`).
    pub location: String,
    /// Node type in the old model.
    pub from: String,
    /// Node type in the new model.
    pub to: String,
}

/// Severity classification, from none to breaking.
#[derive(Debug, Clone, Copy, PartialEq, Eq, Structural, PartialOrd, Ord)]
pub enum Severity {
    /// No difference.
    NoChange,
    /// Minor behavioural change (optional activities, ordering hints).
    Minor,
    /// Moderate change (activities added, ordering changed).
    Moderate,
    /// Breaking change (activities removed, activities became optional,
    /// root operator changed).
    Breaking,
}

/// The differences between an old model and a new one.
#[derive(Debug)]
pub struct ModelDiff {
    /// Activities of the new model that the old one lacks.
    pub added_activities: Vec<String>,
    /// Activities of the old model that the new one lacks.
    pub removed_activities: Vec<String>,
    /// Changes to the always-happening set.
    pub always_changes: Vec<AlwaysChange>,
    /// Ordering relation changes.
    pub order_changes: Vec<OrderChange>,
    /// Structural (operator type) changes.
    pub structure_changes: Vec<StructureChange>,
    /// Least trace length of the new model minus that of the old one.
    pub min_trace_length_delta: i64,
    /// Overall estimated severity of the changes.
    pub severity: Severity,
    /// True when both models have the same footprints.
    pub behaviourally_equivalent: bool,
}

/// The activity of an always-change of the kind asked for.
pub open spec fn always_pick(c: AlwaysChange, mandatory: bool) -> Option<Seq<char>> {
    match c {
        AlwaysChange::BecameMandatory(s) => if mandatory { Some(s@) } else { None },
        AlwaysChange::BecameOptional(s) => if mandatory { None } else { Some(s@) },
    }
}

/// The activities that became mandatory (or optional) in a list of changes.
pub open spec fn always_set(v: Seq<AlwaysChange>, mandatory: bool) -> Set<Seq<char>> {
    Set::new(|x: Seq<char>| exists|i: int| 0 <= i < v.len() && #[trigger] always_pick(v[i], mandatory) == Some(x))
}

/// The activity of a start (or end) change that was added (or removed).
pub open spec fn name_pick(c: OrderChange, start: bool, added: bool) -> Option<Seq<char>> {
    match c {
        OrderChange::StartAdded(s) => if start && added { Some(s@) } else { None },
        OrderChange::StartRemoved(s) => if start && !added { Some(s@) } else { None },
        OrderChange::EndAdded(s) => if !start && added { Some(s@) } else { None },
        OrderChange::EndRemoved(s) => if !start && !added { Some(s@) } else { None },
        _ => None,
    }
}

/// The pair of a sequence (or parallel) change that was added (or removed).
pub open spec fn pair_pick(c: OrderChange, sequence: bool, added: bool) -> Option<(Seq<char>, Seq<char>)> {
    match c {
        OrderChange::SequenceAdded(p) => if sequence && added { Some((p.0@, p.1@)) } else { None },
        OrderChange::SequenceRemoved(p) => if sequence && !added { Some((p.0@, p.1@)) } else { None },
        OrderChange::ParallelAdded(p) => if !sequence && added { Some((p.0@, p.1@)) } else { None },
        OrderChange::ParallelRemoved(p) => if !sequence && !added { Some((p.0@, p.1@)) } else { None },
        _ => None,
    }
}

/// The start (or end) activities added (or removed) in a list of changes.
pub open spec fn name_set(v: Seq<OrderChange>, start: bool, added: bool) -> Set<Seq<char>> {
    Set::new(|x: Seq<char>| exists|i: int| 0 <= i < v.len() && #[trigger] name_pick(v[i], start, added) == Some(x))
}

/// The sequence (or parallel) pairs added (or removed) in a list of changes.
pub open spec fn pair_set(v: Seq<OrderChange>, sequence: bool, added: bool) -> Set<(Seq<char>, Seq<char>)> {
    Set::new(|p: (Seq<char>, Seq<char>)| exists|i: int| 0 <= i < v.len() && #[trigger] pair_pick(v[i], sequence, added) == Some(p))
}

/// Whether the ordering relations and the start and end activities of two
/// footprints are the same.
pub open spec fn same_order(a: FootprintsView, b: FootprintsView) -> bool {
    &&& a.sequence == b.sequence
    &&& a.parallel == b.parallel
    &&& a.start == b.start
    &&& a.end == b.end
}

/// Whether two footprints show the same behaviour: the same activities,
/// ordering relations, start and end activities, always-happening
/// activities and least trace length.
pub open spec fn equivalent_footprints(a: FootprintsView, b: FootprintsView) -> bool {
    &&& a.activities == b.activities
    &&& a.always == b.always
    &&& same_order(a, b)
    &&& a.min_len == b.min_len
}

/// Whether one of the structural changes is at the root.
pub open spec fn root_changed(structure: Seq<StructureChange>) -> bool {
    exists|i: int| 0 <= i < structure.len() && (#[trigger] structure[i]).location@ == "root"@
}

/// The severity of the changes from `a` to `b`: breaking when an activity
/// was removed, became optional, or the root changed; else moderate when an
/// activity was added, an ordering relation changed or the least trace
/// length changed; else minor when an activity became mandatory or some
/// structure changed; else none.
pub open spec fn severity_of(a: FootprintsView, b: FootprintsView, structure: Seq<StructureChange>) -> Severity {
    if !a.activities.difference(b.activities).is_empty() || !a.always.difference(b.always).is_empty()
        || root_changed(structure) {
        Severity::Breaking
    } else if !b.activities.difference(a.activities).is_empty() || !same_order(a, b) || a.min_len != b.min_len {
        Severity::Moderate
    } else if !b.always.difference(a.always).is_empty() || structure.len() > 0 {
        Severity::Minor
    } else {
        Severity::NoChange
    }
}

proof fn lemma_always_push(v: Seq<AlwaysChange>, c: AlwaysChange, m: bool)
    ensures
        always_set(v.push(c), m) == match always_pick(c, m) {
            Some(x) => always_set(v, m).insert(x),
            None => always_set(v, m),
        },
{
    let w = v.push(c);
    let r = match always_pick(c, m) {
        Some(x) => always_set(v, m).insert(x),
        None => always_set(v, m),
    };
    assert forall|x: Seq<char>| always_set(w, m).contains(x) <==> r.contains(x) by {
        if always_set(w, m).contains(x) {
            let i = choose|i: int| 0 <= i < w.len() && #[trigger] always_pick(w[i], m) == Some(x);
            if i < v.len() {
                assert(w[i] == v[i]);
            }
        }
        if always_set(v, m).contains(x) {
            let i = choose|i: int| 0 <= i < v.len() && #[trigger] always_pick(v[i], m) == Some(x);
            assert(w[i] == v[i]);
            assert(always_pick(w[i], m) == Some(x));
        }
        if always_pick(c, m) == Some(x) {
            assert(w[v.len() as int] == c);
            assert(always_pick(w[v.len() as int], m) == Some(x));
        }
    }
    assert(always_set(w, m) =~= r);
}

proof fn lemma_name_push(v: Seq<OrderChange>, c: OrderChange, s: bool, a: bool)
    ensures
        name_set(v.push(c), s, a) == match name_pick(c, s, a) {
            Some(x) => name_set(v, s, a).insert(x),
            None => name_set(v, s, a),
        },
{
    let w = v.push(c);
    let r = match name_pick(c, s, a) {
        Some(x) => name_set(v, s, a).insert(x),
        None => name_set(v, s, a),
    };
    assert forall|x: Seq<char>| name_set(w, s, a).contains(x) <==> r.contains(x) by {
        if name_set(w, s, a).contains(x) {
            let i = choose|i: int| 0 <= i < w.len() && #[trigger] name_pick(w[i], s, a) == Some(x);
            if i < v.len() {
                assert(w[i] == v[i]);
            }
        }
        if name_set(v, s, a).contains(x) {
            let i = choose|i: int| 0 <= i < v.len() && #[trigger] name_pick(v[i], s, a) == Some(x);
            assert(w[i] == v[i]);
            assert(name_pick(w[i], s, a) == Some(x));
        }
        if name_pick(c, s, a) == Some(x) {
            assert(w[v.len() as int] == c);
            assert(name_pick(w[v.len() as int], s, a) == Some(x));
        }
    }
    assert(name_set(w, s, a) =~= r);
}

proof fn lemma_pair_push(v: Seq<OrderChange>, c: OrderChange, s: bool, a: bool)
    ensures
        pair_set(v.push(c), s, a) == match pair_pick(c, s, a) {
            Some(p) => pair_set(v, s, a).insert(p),
            None => pair_set(v, s, a),
        },
{
    let w = v.push(c);
    let r = match pair_pick(c, s, a) {
        Some(p) => pair_set(v, s, a).insert(p),
        None => pair_set(v, s, a),
    };
    assert forall|p: (Seq<char>, Seq<char>)| pair_set(w, s, a).contains(p) <==> r.contains(p) by {
        if pair_set(w, s, a).contains(p) {
            let i = choose|i: int| 0 <= i < w.len() && #[trigger] pair_pick(w[i], s, a) == Some(p);
            if i < v.len() {
                assert(w[i] == v[i]);
            }
        }
        if pair_set(v, s, a).contains(p) {
            let i = choose|i: int| 0 <= i < v.len() && #[trigger] pair_pick(v[i], s, a) == Some(p);
            assert(w[i] == v[i]);
            assert(pair_pick(w[i], s, a) == Some(p));
        }
        if pair_pick(c, s, a) == Some(p) {
            assert(w[v.len() as int] == c);
            assert(pair_pick(w[v.len() as int], s, a) == Some(p));
        }
    }
    assert(pair_set(w, s, a) =~= r);
}

proof fn lemma_empty_set<A>(s: Seq<A>)
    ensures
        (s.len() == 0) == s.to_set().is_empty(),
{
    if s.len() > 0 {
        assert(s.to_set().contains(s[0]));
    } else {
        assert(s.to_set() =~= Set::<A>::empty());
    }
}

/// Appends a change of the given kind for each activity of `xs`.
fn push_always(out: &mut Vec<AlwaysChange>, xs: &Vec<String>, mandatory: bool)
    ensures
        always_set(final(out)@, mandatory) == always_set(old(out)@, mandatory).union(names(xs)),
        always_set(final(out)@, !mandatory) == always_set(old(out)@, !mandatory),
{
    let ghost start = out@;
    let ghost xv = xs.deep_view();
    for i in 0..xs.len()
        invariant
            xv == xs.deep_view(),
            always_set(out@, mandatory) == always_set(start, mandatory).union(xv.take(i as int).to_set()),
            always_set(out@, !mandatory) == always_set(start, !mandatory),
    {
        let x = xs[i].clone();
        let c = if mandatory { AlwaysChange::BecameMandatory(x) } else { AlwaysChange::BecameOptional(x) };
        let ghost prev = out@;
        proof {
            assert(xv[i as int] == xs@[i as int]@);
            lemma_take_to_set_step(xv, i as int);
            lemma_always_push(prev, c, mandatory);
            lemma_always_push(prev, c, !mandatory);
        }
        out.push(c);
        proof {
            assert(out@ == prev.push(c));
            assert(always_set(out@, mandatory) =~= always_set(start, mandatory).union(xv.take(i + 1).to_set()));
        }
    }
    proof {
        assert(xv.take(xv.len() as int) =~= xv);
    }
}

/// The start (`start`) or end activity change, added or removed.
fn name_change(x: String, start: bool, added: bool) -> (c: OrderChange)
    ensures
        forall|s2: bool, a2: bool| #[trigger] name_pick(c, s2, a2) == if s2 == start && a2 == added { Some(x@) } else { None },
        forall|s2: bool, a2: bool| #[trigger] pair_pick(c, s2, a2) is None,
{
    if start {
        if added { OrderChange::StartAdded(x) } else { OrderChange::StartRemoved(x) }
    } else {
        if added { OrderChange::EndAdded(x) } else { OrderChange::EndRemoved(x) }
    }
}

/// The sequence (`sequence`) or parallel pair change, added or removed.
fn pair_change(p: (String, String), sequence: bool, added: bool) -> (c: OrderChange)
    ensures
        forall|s2: bool, a2: bool| #[trigger] pair_pick(c, s2, a2) == if s2 == sequence && a2 == added { Some((p.0@, p.1@)) } else { None },
        forall|s2: bool, a2: bool| #[trigger] name_pick(c, s2, a2) is None,
{
    if sequence {
        if added { OrderChange::SequenceAdded(p) } else { OrderChange::SequenceRemoved(p) }
    } else {
        if added { OrderChange::ParallelAdded(p) } else { OrderChange::ParallelRemoved(p) }
    }
}

/// Appends a start or end change of the given kind for each activity of `xs`.
fn push_names(out: &mut Vec<OrderChange>, xs: &Vec<String>, start: bool, added: bool)
    ensures
        forall|s2: bool, a2: bool| #[trigger] name_set(final(out)@, s2, a2) == if s2 == start && a2 == added {
            name_set(old(out)@, s2, a2).union(names(xs))
        } else {
            name_set(old(out)@, s2, a2)
        },
        forall|s2: bool, a2: bool| #[trigger] pair_set(final(out)@, s2, a2) == pair_set(old(out)@, s2, a2),
{
    let ghost begin = out@;
    let ghost xv = xs.deep_view();
    for i in 0..xs.len()
        invariant
            xv == xs.deep_view(),
            forall|s2: bool, a2: bool| #[trigger] name_set(out@, s2, a2) == if s2 == start && a2 == added {
                name_set(begin, s2, a2).union(xv.take(i as int).to_set())
            } else {
                name_set(begin, s2, a2)
            },
            forall|s2: bool, a2: bool| #[trigger] pair_set(out@, s2, a2) == pair_set(begin, s2, a2),
    {
        let c = name_change(xs[i].clone(), start, added);
        let ghost prev = out@;
        out.push(c);
        proof {
            assert(xv[i as int] == xs@[i as int]@);
            lemma_take_to_set_step(xv, i as int);
            assert forall|s2: bool, a2: bool| #[trigger] name_set(out@, s2, a2) == if s2 == start && a2 == added {
                name_set(begin, s2, a2).union(xv.take(i + 1).to_set())
            } else {
                name_set(begin, s2, a2)
            } by {
                lemma_name_push(prev, c, s2, a2);
                if s2 == start && a2 == added {
                    assert(name_set(out@, s2, a2) =~= name_set(begin, s2, a2).union(xv.take(i + 1).to_set()));
                }
            }
            assert forall|s2: bool, a2: bool| #[trigger] pair_set(out@, s2, a2) == pair_set(begin, s2, a2) by {
                lemma_pair_push(prev, c, s2, a2);
            }
        }
    }
    proof {
        assert(xv.take(xv.len() as int) =~= xv);
    }
}

/// Appends a sequence or parallel change of the given kind for each pair of `ps`.
fn push_pairs(out: &mut Vec<OrderChange>, ps: &Vec<(String, String)>, sequence: bool, added: bool)
    ensures
        forall|s2: bool, a2: bool| #[trigger] pair_set(final(out)@, s2, a2) == if s2 == sequence && a2 == added {
            pair_set(old(out)@, s2, a2).union(pairs(ps))
        } else {
            pair_set(old(out)@, s2, a2)
        },
        forall|s2: bool, a2: bool| #[trigger] name_set(final(out)@, s2, a2) == name_set(old(out)@, s2, a2),
{
    let ghost begin = out@;
    let ghost pv = ps.deep_view();
    for i in 0..ps.len()
        invariant
            pv == ps.deep_view(),
            forall|s2: bool, a2: bool| #[trigger] pair_set(out@, s2, a2) == if s2 == sequence && a2 == added {
                pair_set(begin, s2, a2).union(pv.take(i as int).to_set())
            } else {
                pair_set(begin, s2, a2)
            },
            forall|s2: bool, a2: bool| #[trigger] name_set(out@, s2, a2) == name_set(begin, s2, a2),
    {
        let c = pair_change((ps[i].0.clone(), ps[i].1.clone()), sequence, added);
        let ghost prev = out@;
        out.push(c);
        proof {
            assert(pv[i as int] == (ps@[i as int].0@, ps@[i as int].1@));
            lemma_take_to_set_step(pv, i as int);
            assert forall|s2: bool, a2: bool| #[trigger] pair_set(out@, s2, a2) == if s2 == sequence && a2 == added {
                pair_set(begin, s2, a2).union(pv.take(i + 1).to_set())
            } else {
                pair_set(begin, s2, a2)
            } by {
                lemma_pair_push(prev, c, s2, a2);
                if s2 == sequence && a2 == added {
                    assert(pair_set(out@, s2, a2) =~= pair_set(begin, s2, a2).union(pv.take(i + 1).to_set()));
                }
            }
            assert forall|s2: bool, a2: bool| #[trigger] name_set(out@, s2, a2) == name_set(begin, s2, a2) by {
                lemma_name_push(prev, c, s2, a2);
            }
        }
    }
    proof {
        assert(pv.take(pv.len() as int) =~= pv);
    }
}

/// Whether one of the structural changes is at the root.
fn any_root(structure: &Vec<StructureChange>) -> (res: bool)
    ensures
        res == root_changed(structure@),
{
    for i in 0..structure.len()
        invariant
            forall|j: int| 0 <= j < i ==> (#[trigger] structure@[j]).location@ != "root"@,
    {
        if str_eq(structure[i].location.as_str(), "root") {
            return true;
        }
    }
    false
}

impl ModelDiff {
    /// True if there are no differences at all.
    pub fn is_empty(&self) -> (res: bool)
        ensures
            res == (self.added_activities.len() == 0 && self.removed_activities.len() == 0
                && self.always_changes.len() == 0 && self.order_changes.len() == 0
                && self.structure_changes.len() == 0 && self.min_trace_length_delta == 0),
    {
        self.added_activities.len() == 0 && self.removed_activities.len() == 0
            && self.always_changes.len() == 0 && self.order_changes.len() == 0
            && self.structure_changes.len() == 0 && self.min_trace_length_delta == 0
    }
}

/// Compares the old model, with footprints `fp_a`, with the new one, with
/// footprints `fp_b`, given the structural changes found between the two:
/// each list of the result holds, as a set, the difference that its name
/// says; the severity and behavioural equivalence follow from them.
pub fn diff(fp_a: &Footprints, fp_b: &Footprints, structure_changes: Vec<StructureChange>) -> (res: ModelDiff)
    requires
        fp_a.min_trace_length <= i64::MAX,
        fp_b.min_trace_length <= i64::MAX,
    ensures
        names(&res.added_activities) == fp_b@.activities.difference(fp_a@.activities),
        names(&res.removed_activities) == fp_a@.activities.difference(fp_b@.activities),
        always_set(res.always_changes@, true) == fp_b@.always.difference(fp_a@.always),
        always_set(res.always_changes@, false) == fp_a@.always.difference(fp_b@.always),
        pair_set(res.order_changes@, true, true) == fp_b@.sequence.difference(fp_a@.sequence),
        pair_set(res.order_changes@, true, false) == fp_a@.sequence.difference(fp_b@.sequence),
        pair_set(res.order_changes@, false, true) == fp_b@.parallel.difference(fp_a@.parallel),
        pair_set(res.order_changes@, false, false) == fp_a@.parallel.difference(fp_b@.parallel),
        name_set(res.order_changes@, true, true) == fp_b@.start.difference(fp_a@.start),
        name_set(res.order_changes@, true, false) == fp_a@.start.difference(fp_b@.start),
        name_set(res.order_changes@, false, true) == fp_b@.end.difference(fp_a@.end),
        name_set(res.order_changes@, false, false) == fp_a@.end.difference(fp_b@.end),
        res.structure_changes@ == structure_changes@,
        res.min_trace_length_delta == fp_b@.min_len - fp_a@.min_len,
        res.severity == severity_of(fp_a@, fp_b@, structure_changes@),
        res.behaviourally_equivalent == equivalent_footprints(fp_a@, fp_b@),
{
    let added = names_minus(&fp_b.activities, &fp_a.activities);
    let removed = names_minus(&fp_a.activities, &fp_b.activities);
    let mandatory = names_minus(&fp_b.activities_always_happening, &fp_a.activities_always_happening);
    let optional = names_minus(&fp_a.activities_always_happening, &fp_b.activities_always_happening);
    let seq_added = filter_pairs(&fp_b.sequence, &fp_a.sequence, false, false);
    let seq_removed = filter_pairs(&fp_a.sequence, &fp_b.sequence, false, false);
    let par_added = filter_pairs(&fp_b.parallel, &fp_a.parallel, false, false);
    let par_removed = filter_pairs(&fp_a.parallel, &fp_b.parallel, false, false);
    let start_added = names_minus(&fp_b.start_activities, &fp_a.start_activities);
    let start_removed = names_minus(&fp_a.start_activities, &fp_b.start_activities);
    let end_added = names_minus(&fp_b.end_activities, &fp_a.end_activities);
    let end_removed = names_minus(&fp_a.end_activities, &fp_b.end_activities);
    let ghost a = fp_a@;
    let ghost b = fp_b@;
    proof {
        assert(pairs(&seq_added) =~= b.sequence.difference(a.sequence));
        assert(pairs(&seq_removed) =~= a.sequence.difference(b.sequence));
        assert(pairs(&par_added) =~= b.parallel.difference(a.parallel));
        assert(pairs(&par_removed) =~= a.parallel.difference(b.parallel));
    }

    let mut always_changes: Vec<AlwaysChange> = Vec::new();
    proof {
        assert(always_set(always_changes@, true) =~= Set::empty());
        assert(always_set(always_changes@, false) =~= Set::empty());
    }
    push_always(&mut always_changes, &mandatory, true);
    push_always(&mut always_changes, &optional, false);
    proof {
        assert(always_set(always_changes@, true) =~= b.always.difference(a.always));
        assert(always_set(always_changes@, false) =~= a.always.difference(b.always));
    }

    let mut order_changes: Vec<OrderChange> = Vec::new();
    proof {
        assert forall|s2: bool, a2: bool| #[trigger] name_set(order_changes@, s2, a2) == Set::<Seq<char>>::empty() by {
            assert(name_set(order_changes@, s2, a2) =~= Set::<Seq<char>>::empty());
        }
        assert forall|s2: bool, a2: bool| #[trigger] pair_set(order_changes@, s2, a2) == Set::<(Seq<char>, Seq<char>)>::empty() by {
            assert(pair_set(order_changes@, s2, a2) =~= Set::<(Seq<char>, Seq<char>)>::empty());
        }
    }
    push_pairs(&mut order_changes, &seq_added, true, true);
    push_pairs(&mut order_changes, &seq_removed, true, false);
    push_pairs(&mut order_changes, &par_added, false, true);
    push_pairs(&mut order_changes, &par_removed, false, false);
    push_names(&mut order_changes, &start_added, true, true);
    push_names(&mut order_changes, &start_removed, true, false);
    push_names(&mut order_changes, &end_added, false, true);
    push_names(&mut order_changes, &end_removed, false, false);
    proof {
        assert(pair_set(order_changes@, true, true) =~= b.sequence.difference(a.sequence));
        assert(pair_set(order_changes@, true, false) =~= a.sequence.difference(b.sequence));
        assert(pair_set(order_changes@, false, true) =~= b.parallel.difference(a.parallel));
        assert(pair_set(order_changes@, false, false) =~= a.parallel.difference(b.parallel));
        assert(name_set(order_changes@, true, true) =~= b.start.difference(a.start));
        assert(name_set(order_changes@, true, false) =~= a.start.difference(b.start));
        assert(name_set(order_changes@, false, true) =~= b.end.difference(a.end));
        assert(name_set(order_changes@, false, false) =~= a.end.difference(b.end));
    }

    let root = any_root(&structure_changes);
    let delta: i64 = fp_b.min_trace_length as i64 - fp_a.min_trace_length as i64;
    let order_empty = seq_added.len() == 0 && seq_removed.len() == 0 && par_added.len() == 0
        && par_removed.len() == 0 && start_added.len() == 0 && start_removed.len() == 0
        && end_added.len() == 0 && end_removed.len() == 0;
    proof {
        lemma_empty_set(added.deep_view());
        lemma_empty_set(removed.deep_view());
        lemma_empty_set(mandatory.deep_view());
        lemma_empty_set(optional.deep_view());
        lemma_empty_set(seq_added.deep_view());
        lemma_empty_set(seq_removed.deep_view());
        lemma_empty_set(par_added.deep_view());
        lemma_empty_set(par_removed.deep_view());
        lemma_empty_set(start_added.deep_view());
        lemma_empty_set(start_removed.deep_view());
        lemma_empty_set(end_added.deep_view());
        lemma_empty_set(end_removed.deep_view());
        lemma_same_when_no_difference(a.sequence, b.sequence);
        lemma_same_when_no_difference(a.parallel, b.parallel);
        lemma_same_when_no_difference(a.start, b.start);
        lemma_same_when_no_difference(a.end, b.end);
        lemma_same_when_no_difference(a.activities, b.activities);
        lemma_same_when_no_difference(a.always, b.always);
        assert(order_empty == same_order(a, b));
    }
    let severity = if removed.len() > 0 || optional.len() > 0 || root {
        Severity::Breaking
    } else if added.len() > 0 || !order_empty || delta != 0 {
        Severity::Moderate
    } else if mandatory.len() > 0 || structure_changes.len() > 0 {
        Severity::Minor
    } else {
        Severity::NoChange
    };
    let behaviourally_equivalent = added.len() == 0 && removed.len() == 0 && order_empty
        && mandatory.len() == 0 && optional.len() == 0 && delta == 0;
    ModelDiff {
        added_activities: added,
        removed_activities: removed,
        always_changes,
        order_changes,
        structure_changes,
        min_trace_length_delta: delta,
        severity,
        behaviourally_equivalent,
    }
}

proof fn lemma_same_when_no_difference<A>(x: Set<A>, y: Set<A>)
    ensures
        (x == y) == (x.difference(y).is_empty() && y.difference(x).is_empty()),
{
    if x.difference(y).is_empty() && y.difference(x).is_empty() {
        assert forall|e: A| x.contains(e) <==> y.contains(e) by {
            if x.contains(e) && !y.contains(e) {
                assert(x.difference(y).contains(e));
            }
            if y.contains(e) && !x.contains(e) {
                assert(y.difference(x).contains(e));
            }
        }
        assert(x =~= y);
    }
    if x == y {
        assert(x.difference(y) =~= Set::<A>::empty());
    }
}

/// A model compared with itself, with no structural change, shows no
/// difference: it is behaviourally equivalent and the severity is none.
pub proof fn lemma_diff_with_itself(f: FootprintsView)
    ensures
        equivalent_footprints(f, f),
        severity_of(f, f, Seq::empty()) == Severity::NoChange,
        f.activities.difference(f.activities).is_empty(),
        f.always.difference(f.always).is_empty(),
{
    lemma_same_when_no_difference(f.activities, f.activities);
    lemma_same_when_no_difference(f.always, f.always);
}

} // verus!
