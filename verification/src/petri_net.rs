//! Place/transition nets with markings.

use vstd::prelude::*;
use crate::event_log::lemma_filter_take_step;
use crate::text::str_eq;

verus! {

/// A place of a net.
#[derive(Debug)]
pub struct Place {
    pub name: String,
}

/// A transition of a net; a transition without a label is silent.
#[derive(Debug)]
pub struct Transition {
    pub name: String,
    pub label: Option<String>,
}

/// A directed arc between a place and a transition, by their names, with
/// the number of tokens it carries.
#[derive(Debug)]
pub struct Arc {
    pub source: String,
    pub target: String,
    pub weight: u32,
}

/// A Petri net: named places, transitions and the arcs between them.
#[derive(Debug)]
pub struct PetriNet {
    pub name: String,
    pub places: Vec<Place>,
    pub transitions: Vec<Transition>,
    pub arcs: Vec<Arc>,
}

/// The structure of a net: place names, (name, label) of each transition
/// and (source, target) of each arc, each in order.
pub struct NetView {
    pub places: Seq<Seq<char>>,
    pub transitions: Seq<(Seq<char>, Option<Seq<char>>)>,
    pub arcs: Seq<(Seq<char>, Seq<char>)>,
}

impl DeepView for Place {
    type V = Seq<char>;

    open spec fn deep_view(&self) -> Seq<char> {
        self.name@
    }
}

impl DeepView for Transition {
    type V = (Seq<char>, Option<Seq<char>>);

    open spec fn deep_view(&self) -> (Seq<char>, Option<Seq<char>>) {
        (self.name@, self.label.deep_view())
    }
}

impl DeepView for Arc {
    type V = (Seq<char>, Seq<char>);

    open spec fn deep_view(&self) -> (Seq<char>, Seq<char>) {
        (self.source@, self.target@)
    }
}

impl View for PetriNet {
    type V = NetView;

    open spec fn view(&self) -> NetView {
        NetView {
            places: self.places.deep_view(),
            transitions: self.transitions.deep_view(),
            arcs: self.arcs.deep_view(),
        }
    }
}

impl Clone for Place {
    fn clone(&self) -> (res: Self)
        ensures
            res.deep_view() == self.deep_view(),
    {
        Place { name: self.name.clone() }
    }
}

impl Clone for Transition {
    fn clone(&self) -> (res: Self)
        ensures
            res.deep_view() == self.deep_view(),
    {
        let label = match &self.label {
            Some(l) => Some(l.clone()),
            None => None,
        };
        Transition { name: self.name.clone(), label }
    }
}

impl Clone for Arc {
    fn clone(&self) -> (res: Self)
        ensures
            res.deep_view() == self.deep_view(),
            res.weight == self.weight,
    {
        Arc { source: self.source.clone(), target: self.target.clone(), weight: self.weight }
    }
}

/// `x` names a place of the net.
pub open spec fn is_place(n: NetView, x: Seq<char>) -> bool {
    n.places.contains(x)
}

/// `x` names a transition of the net.
pub open spec fn is_transition(n: NetView, x: Seq<char>) -> bool {
    exists|i: int| 0 <= i < n.transitions.len() && #[trigger] n.transitions[i].0 == x
}

/// The net without the places named `p` and the arcs that touch them.
pub open spec fn without_place(n: NetView, p: Seq<char>) -> NetView {
    NetView {
        places: n.places.filter(|x: Seq<char>| x != p),
        transitions: n.transitions,
        arcs: n.arcs.filter(|a: (Seq<char>, Seq<char>)| a.0 != p && a.1 != p),
    }
}

/// The net without the transitions named `t` and the arcs that touch them.
pub open spec fn without_transition(n: NetView, t: Seq<char>) -> NetView {
    NetView {
        places: n.places,
        transitions: n.transitions.filter(|x: (Seq<char>, Option<Seq<char>>)| x.0 != t),
        arcs: n.arcs.filter(|a: (Seq<char>, Seq<char>)| a.0 != t && a.1 != t),
    }
}

/// Arcs that touch neither end named `x`.
fn arcs_avoiding(arcs: &Vec<Arc>, x: &str) -> (res: Vec<Arc>)
    ensures
        res.deep_view() == arcs.deep_view().filter(|a: (Seq<char>, Seq<char>)| a.0 != x@ && a.1 != x@),
        (forall|j: int| 0 <= j < arcs@.len() ==> #[trigger] arcs@[j].weight == 1)
            ==> forall|j: int| 0 <= j < res@.len() ==> #[trigger] res@[j].weight == 1,
{
    let ghost av = arcs.deep_view();
    let ghost keep = |a: (Seq<char>, Seq<char>)| a.0 != x@ && a.1 != x@;
    let mut out: Vec<Arc> = Vec::new();
    for i in 0..arcs.len()
        invariant
            av == arcs.deep_view(),
            keep == (|a: (Seq<char>, Seq<char>)| a.0 != x@ && a.1 != x@),
            out.deep_view() == av.take(i as int).filter(keep),
            (forall|j: int| 0 <= j < arcs@.len() ==> #[trigger] arcs@[j].weight == 1)
                ==> forall|j: int| 0 <= j < out@.len() ==> #[trigger] out@[j].weight == 1,
    {
        proof {
            lemma_filter_take_step(av, keep, i as int);
        }
        let a = &arcs[i];
        if !str_eq(a.source.as_str(), x) && !str_eq(a.target.as_str(), x) {
            let ghost before = out.deep_view();
            out.push(a.clone());
            proof {
                assert(out.deep_view() =~= before.push(av[i as int]));
            }
        }
    }
    proof {
        assert(av.take(av.len() as int) =~= av);
    }
    out
}

impl PetriNet {
    /// The weights of the arcs, in order.
    pub open spec fn arc_weights(&self) -> Seq<u32> {
        self.arcs@.map_values(|a: Arc| a.weight)
    }

    /// Every arc carries one token.
    pub open spec fn unit_arcs(&self) -> bool {
        forall|i: int| 0 <= i < self.arcs@.len() ==> #[trigger] self.arcs@[i].weight == 1
    }

    /// An empty net.
    pub fn new(name: &str) -> (res: Self)
        ensures
            res.name@ == name@,
            res@.places.len() == 0,
            res@.transitions.len() == 0,
            res@.arcs.len() == 0,
            res.unit_arcs(),
    {
        PetriNet { name: name.to_string(), places: Vec::new(), transitions: Vec::new(), arcs: Vec::new() }
    }

    /// Adds a place named `name`.
    pub fn add_place(&mut self, name: &str)
        ensures
            final(self).name@ == old(self).name@,
            final(self)@ == (NetView { places: old(self)@.places.push(name@), ..old(self)@ }),
            final(self).arcs == old(self).arcs,
            old(self).unit_arcs() ==> final(self).unit_arcs(),
    {
        let ghost pv = self.places.deep_view();
        self.places.push(Place { name: name.to_string() });
        proof {
            assert(self.places.deep_view() =~= pv.push(name@));
        }
    }

    /// Adds a transition named `name` with the given label (`None`: silent).
    pub fn add_transition(&mut self, name: &str, label: Option<String>)
        ensures
            final(self).name@ == old(self).name@,
            final(self)@ == (NetView { transitions: old(self)@.transitions.push((name@, label.deep_view())), ..old(self)@ }),
            final(self).arcs == old(self).arcs,
            old(self).unit_arcs() ==> final(self).unit_arcs(),
    {
        let ghost tv = self.transitions.deep_view();
        let ghost lv = label.deep_view();
        self.transitions.push(Transition { name: name.to_string(), label });
        proof {
            assert(self.transitions.deep_view() =~= tv.push((name@, lv)));
        }
    }

    /// Adds an arc from `source` to `target`.
    pub fn add_arc(&mut self, source: &str, target: &str)
        ensures
            final(self).name@ == old(self).name@,
            final(self).arc_weights() == old(self).arc_weights().push(1),
            final(self)@ == (NetView { arcs: old(self)@.arcs.push((source@, target@)), ..old(self)@ }),
            old(self).unit_arcs() ==> final(self).unit_arcs(),
    {
        let ghost av = self.arcs.deep_view();
        self.arcs.push(Arc { source: source.to_string(), target: target.to_string(), weight: 1 });
        proof {
            assert(self.arcs.deep_view() =~= av.push((source@, target@)));
            assert(self.arc_weights() =~= old(self).arc_weights().push(1));
        }
    }

    /// Removes the places named `name` and every arc that touches that name.
    pub fn remove_place(&mut self, name: &str)
        ensures
            final(self).name@ == old(self).name@,
            final(self)@ == without_place(old(self)@, name@),
            old(self).unit_arcs() ==> final(self).unit_arcs(),
    {
        let ghost pv = self.places.deep_view();
        let ghost keep = |x: Seq<char>| x != name@;
        let mut places: Vec<Place> = Vec::new();
        for i in 0..self.places.len()
            invariant
                pv == self.places.deep_view(),
                keep == (|x: Seq<char>| x != name@),
                places.deep_view() == pv.take(i as int).filter(keep),
        {
            proof {
                lemma_filter_take_step(pv, keep, i as int);
            }
            if !str_eq(self.places[i].name.as_str(), name) {
                let ghost before = places.deep_view();
                places.push(self.places[i].clone());
                proof {
                    assert(places.deep_view() =~= before.push(pv[i as int]));
                }
            }
        }
        proof {
            assert(pv.take(pv.len() as int) =~= pv);
        }
        let arcs = arcs_avoiding(&self.arcs, name);
        self.places = places;
        self.arcs = arcs;
    }

    /// Removes the transitions named `name` and every arc that touches that name.
    pub fn remove_transition(&mut self, name: &str)
        ensures
            final(self).name@ == old(self).name@,
            final(self)@ == without_transition(old(self)@, name@),
            old(self).unit_arcs() ==> final(self).unit_arcs(),
    {
        let ghost tv = self.transitions.deep_view();
        let ghost keep = |x: (Seq<char>, Option<Seq<char>>)| x.0 != name@;
        let mut transitions: Vec<Transition> = Vec::new();
        for i in 0..self.transitions.len()
            invariant
                tv == self.transitions.deep_view(),
                keep == (|x: (Seq<char>, Option<Seq<char>>)| x.0 != name@),
                transitions.deep_view() == tv.take(i as int).filter(keep),
        {
            proof {
                lemma_filter_take_step(tv, keep, i as int);
            }
            if !str_eq(self.transitions[i].name.as_str(), name) {
                let ghost before = transitions.deep_view();
                transitions.push(self.transitions[i].clone());
                proof {
                    assert(transitions.deep_view() =~= before.push(tv[i as int]));
                }
            }
        }
        proof {
            assert(tv.take(tv.len() as int) =~= tv);
        }
        let arcs = arcs_avoiding(&self.arcs, name);
        self.transitions = transitions;
        self.arcs = arcs;
    }
}

/// A marking: a number of tokens per place, each place listed at most once.
/// Places that are not listed hold no tokens.
#[derive(Debug)]
pub struct Marking {
    pub tokens: Vec<(String, u32)>,
}

/// The entry for `place` in a list of (place, tokens) entries.
pub open spec fn entry_of(tokens: Seq<(Seq<char>, u32)>, place: Seq<char>) -> Option<u32>
    decreases tokens.len(),
{
    if tokens.len() == 0 {
        None
    } else if tokens.last().0 == place {
        Some(tokens.last().1)
    } else {
        entry_of(tokens.drop_last(), place)
    }
}

impl Marking {
    /// No place is listed twice.
    pub open spec fn wf(&self) -> bool {
        forall|a: int, b: int| 0 <= a < b < self.tokens@.len() ==> #[trigger] self.tokens@[a].0@ != #[trigger] self.tokens@[b].0@
    }

    /// The marking as a map from place to tokens.
    pub open spec fn get_spec(&self, place: Seq<char>) -> Option<u32> {
        entry_of(self.tokens.deep_view(), place)
    }

    /// The empty marking.
    pub fn new() -> (res: Self)
        ensures
            res.wf(),
            forall|p: Seq<char>| #[trigger] res.get_spec(p) is None,
    {
        Marking { tokens: Vec::new() }
    }

    /// The tokens recorded for `place`, if it is listed.
    pub fn get(&self, place: &str) -> (res: Option<u32>)
        requires
            self.wf(),
        ensures
            res == self.get_spec(place@),
    {
        let ghost tv = self.tokens.deep_view();
        let mut i = self.tokens.len();
        proof {
            assert(tv.take(i as int) =~= tv);
        }
        while i > 0
            invariant
                i <= tv.len(),
                tv == self.tokens.deep_view(),
                entry_of(tv, place@) == entry_of(tv.take(i as int), place@),
            decreases i,
        {
            proof {
                assert(tv.take(i as int).drop_last() =~= tv.take(i - 1));
            }
            if str_eq(self.tokens[i - 1].0.as_str(), place) {
                return Some(self.tokens[i - 1].1);
            }
            i = i - 1;
        }
        None
    }

    /// Sets the tokens of `place`, returning what it had before.
    pub fn insert(&mut self, place: String, count: u32) -> (res: Option<u32>)
        requires
            old(self).wf(),
        ensures
            final(self).wf(),
            res == old(self).get_spec(place@),
            final(self).get_spec(place@) == Some(count),
            forall|q: Seq<char>| q != place@ ==> #[trigger] final(self).get_spec(q) == old(self).get_spec(q),
    {
        let ghost tv = self.tokens.deep_view();
        let n = self.tokens.len();
        for i in 0..n
            invariant
                n == self.tokens@.len(),
                self.wf(),
                tv == self.tokens.deep_view(),
                tv == old(self).tokens.deep_view(),
                forall|j: int| 0 <= j < i ==> #[trigger] tv[j].0 != place@,
        {
            if str_eq(self.tokens[i].0.as_str(), place.as_str()) {
                let before = self.tokens[i].1;
                proof {
                    assert forall|a: int, b: int| 0 <= a < b < tv.len() implies #[trigger] tv[a].0 != #[trigger] tv[b].0 by {
                        assert(tv[a].0 == self.tokens@[a].0@ && tv[b].0 == self.tokens@[b].0@);
                    }
                    assert(tv[i as int].0 == place@);
                    assert(tv[i as int].1 == before);
                    lemma_entry_of_unique(tv, i as int);
                }
                self.tokens.set(i, (place, count));
                proof {
                    let nv = self.tokens.deep_view();
                    assert(nv =~= tv.update(i as int, (tv[i as int].0, count)));
                    assert forall|a: int, b: int| 0 <= a < b < self.tokens@.len() implies #[trigger] self.tokens@[a].0@ != #[trigger] self.tokens@[b].0@ by {
                        assert(nv[a].0 == tv[a].0 && nv[b].0 == tv[b].0);
                    }
                    assert forall|a: int, b: int| 0 <= a < b < nv.len() implies #[trigger] nv[a].0 != #[trigger] nv[b].0 by {
                        assert(nv[a].0 == tv[a].0 && nv[b].0 == tv[b].0);
                    }
                    lemma_entry_of_unique(nv, i as int);
                    assert forall|q: Seq<char>| q != place@ implies #[trigger] entry_of(nv, q) == entry_of(tv, q) by {
                        lemma_entry_of_update(tv, i as int, count, q);
                    }
                }
                return Some(before);
            }
        }
        proof {
            lemma_entry_of_absent(tv, place@);
        }
        self.tokens.push((place, count));
        proof {
            let nv = self.tokens.deep_view();
            assert(nv =~= tv.push((place@, count)));
            assert(nv.drop_last() =~= tv);
            assert forall|a: int, b: int| 0 <= a < b < self.tokens@.len() implies #[trigger] self.tokens@[a].0@ != #[trigger] self.tokens@[b].0@ by {
                assert(nv[a].0 == self.tokens@[a].0@ && nv[b].0 == self.tokens@[b].0@);
                if b == n {
                    assert(nv[a].0 == tv[a].0);
                } else {
                    assert(nv[a].0 == tv[a].0 && nv[b].0 == tv[b].0);
                }
            }
        }
        None
    }
}

pub proof fn lemma_entry_of_absent(tokens: Seq<(Seq<char>, u32)>, p: Seq<char>)
    requires
        forall|j: int| 0 <= j < tokens.len() ==> #[trigger] tokens[j].0 != p,
    ensures
        entry_of(tokens, p) is None,
    decreases tokens.len(),
{
    if tokens.len() > 0 {
        assert(tokens[tokens.len() - 1].0 != p);
        lemma_entry_of_absent(tokens.drop_last(), p);
    }
}

pub proof fn lemma_entry_of_unique(tokens: Seq<(Seq<char>, u32)>, i: int)
    requires
        0 <= i < tokens.len(),
        forall|a: int, b: int| 0 <= a < b < tokens.len() ==> #[trigger] tokens[a].0 != #[trigger] tokens[b].0,
    ensures
        entry_of(tokens, tokens[i].0) == Some(tokens[i].1),
    decreases tokens.len(),
{
    if i < tokens.len() - 1 {
        assert(tokens[i].0 != tokens[tokens.len() - 1].0);
        lemma_entry_of_unique(tokens.drop_last(), i);
    }
}

pub proof fn lemma_entry_of_update(tokens: Seq<(Seq<char>, u32)>, i: int, c: u32, q: Seq<char>)
    requires
        0 <= i < tokens.len(),
        q != tokens[i].0,
    ensures
        entry_of(tokens.update(i, (tokens[i].0, c)), q) == entry_of(tokens, q),
    decreases tokens.len(),
{
    let u = tokens.update(i, (tokens[i].0, c));
    if i < tokens.len() - 1 {
        assert(u.drop_last() =~= tokens.drop_last().update(i, (tokens[i].0, c)));
        lemma_entry_of_update(tokens.drop_last(), i, c, q);
    } else {
        assert(u.drop_last() =~= tokens.drop_last());
    }
}

/// A net with its initial and final markings.
#[derive(Debug)]
pub struct PetriNetResult {
    pub net: PetriNet,
    pub initial_marking: Marking,
    pub final_marking: Marking,
}

/// `x` names a place (`of_places`) or a transition of the net.
pub open spec fn is_node(n: NetView, x: Seq<char>, of_places: bool) -> bool {
    if of_places { is_place(n, x) } else { is_transition(n, x) }
}

/// The arcs into (`incoming`) or out of `node` whose other end is a place
/// (`of_places`) or a transition.
pub open spec fn touches(n: NetView, node: Seq<char>, incoming: bool, of_places: bool) -> spec_fn((Seq<char>, Seq<char>)) -> bool {
    |a: (Seq<char>, Seq<char>)| if incoming {
        a.1 == node && is_node(n, a.0, of_places)
    } else {
        a.0 == node && is_node(n, a.1, of_places)
    }
}

/// The other end of an arc, seen from its target (`incoming`) or source.
pub open spec fn other_end(incoming: bool) -> spec_fn((Seq<char>, Seq<char>)) -> Seq<char> {
    |a: (Seq<char>, Seq<char>)| if incoming { a.0 } else { a.1 }
}

/// The names at the other ends of the arcs into or out of `node` whose other
/// end is a place or a transition, one per arc, in arc order.
pub open spec fn neighbours(n: NetView, node: Seq<char>, incoming: bool, of_places: bool) -> Seq<Seq<char>> {
    n.arcs.filter(touches(n, node, incoming, of_places)).map_values(other_end(incoming))
}

/// Transitions with an arc into `node`.
pub open spec fn pre_transitions(n: NetView, node: Seq<char>) -> Seq<Seq<char>> {
    neighbours(n, node, true, false)
}

/// Transitions with an arc out of `node`.
pub open spec fn post_transitions(n: NetView, node: Seq<char>) -> Seq<Seq<char>> {
    neighbours(n, node, false, false)
}

/// Places with an arc into `node`.
pub open spec fn pre_places(n: NetView, node: Seq<char>) -> Seq<Seq<char>> {
    neighbours(n, node, true, true)
}

/// Places with an arc out of `node`.
pub open spec fn post_places(n: NetView, node: Seq<char>) -> Seq<Seq<char>> {
    neighbours(n, node, false, true)
}

impl PetriNet {
    /// Whether some place is named `x`.
    pub fn has_place(&self, x: &str) -> (res: bool)
        ensures
            res == is_place(self@, x@),
    {
        for i in 0..self.places.len()
            invariant
                forall|j: int| 0 <= j < i ==> #[trigger] self@.places[j] != x@,
        {
            if str_eq(self.places[i].name.as_str(), x) {
                proof {
                    assert(self@.places[i as int] == x@);
                }
                return true;
            }
        }
        false
    }

    /// Whether some transition is named `x`.
    pub fn has_transition(&self, x: &str) -> (res: bool)
        ensures
            res == is_transition(self@, x@),
    {
        for i in 0..self.transitions.len()
            invariant
                forall|j: int| 0 <= j < i ==> #[trigger] self@.transitions[j].0 != x@,
        {
            if str_eq(self.transitions[i].name.as_str(), x) {
                proof {
                    assert(self@.transitions[i as int].0 == x@);
                }
                return true;
            }
        }
        false
    }

    /// Whether `x` names a place (`of_places`) or a transition.
    fn has_node(&self, x: &str, of_places: bool) -> (res: bool)
        ensures
            res == is_node(self@, x@, of_places),
    {
        if of_places { self.has_place(x) } else { self.has_transition(x) }
    }

    /// The names at the other ends of the arcs into (`incoming`) or out of
    /// `node` whose other end is a place (`of_places`) or a transition.
    pub fn neighbours(&self, node: &str, incoming: bool, of_places: bool) -> (res: Vec<String>)
        ensures
            res.deep_view() == neighbours(self@, node@, incoming, of_places),
    {
        let ghost av = self@.arcs;
        let ghost keep = touches(self@, node@, incoming, of_places);
        let ghost f = other_end(incoming);
        let mut out: Vec<String> = Vec::new();
        for i in 0..self.arcs.len()
            invariant
                av == self@.arcs,
                keep == touches(self@, node@, incoming, of_places),
                f == other_end(incoming),
                out.deep_view() == av.take(i as int).filter(keep).map_values(f),
        {
            proof {
                lemma_filter_take_step(av, keep, i as int);
            }
            let a = &self.arcs[i];
            proof {
                assert(av[i as int] == (a.source@, a.target@));
            }
            let (here, there) = if incoming { (&a.target, &a.source) } else { (&a.source, &a.target) };
            if str_eq(here.as_str(), node) && self.has_node(there.as_str(), of_places) {
                let ghost before = out.deep_view();
                out.push(there.clone());
                proof {
                    assert(av.take(i + 1).filter(keep) == av.take(i as int).filter(keep).push(av[i as int]));
                    assert(f(av[i as int]) == there@);
                    assert(av.take(i as int).filter(keep).push(av[i as int]).map_values(f) =~= before.push(there@));
                    assert(out.deep_view() =~= before.push(there@));
                }
            } else {
                proof {
                    assert(!keep(av[i as int]));
                }
            }
        }
        proof {
            assert(av.take(av.len() as int) =~= av);
        }
        out
    }
}

} // verus!
