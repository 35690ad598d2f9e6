//! Reading PNML 2.0: the elements of a PNML document, as a sequence of
//! tags and texts, turned into a Petri net with its initial and final
//! markings.

use vstd::prelude::*;
use crate::petri_net::{Marking, NetView, PetriNet, PetriNetResult};
use crate::text::{decimal, str_eq, trim, trim_str, usize_to_decimal};
use crate::xml::{attributes_as_written, kept_attributes, read_xml_events, xml_attribute_list, xml_events, xml_unescape, xml_unescaped, XmlEvent, XmlEventView};

verus! {

/// An element of a PNML document.
#[derive(Debug)]
pub enum PnmlToken {
    /// An opening tag with its attributes as (name, value), in order.
    Start(String, Vec<(String, String)>),
    /// A self-closing tag with its attributes.
    Empty(String, Vec<(String, String)>),
    /// A text between tags.
    Text(String),
    /// A closing tag.
    End(String),
}

pub enum PnmlTokenView {
    Start(Seq<char>, Seq<(Seq<char>, Seq<char>)>),
    Empty(Seq<char>, Seq<(Seq<char>, Seq<char>)>),
    Text(Seq<char>),
    End(Seq<char>),
}

impl DeepView for PnmlToken {
    type V = PnmlTokenView;

    open spec fn deep_view(&self) -> PnmlTokenView {
        match self {
            PnmlToken::Start(n, a) => PnmlTokenView::Start(n@, a.deep_view()),
            PnmlToken::Empty(n, a) => PnmlTokenView::Empty(n@, a.deep_view()),
            PnmlToken::Text(t) => PnmlTokenView::Text(t@),
            PnmlToken::End(n) => PnmlTokenView::End(n@),
        }
    }
}

/// The decimal digits.
pub open spec fn is_digit(c: char) -> bool {
    '0' <= c && c <= '9'
}

/// The value of a string of decimal digits.
pub open spec fn digits_value(s: Seq<char>) -> nat
    decreases s.len(),
{
    if s.len() == 0 {
        0
    } else {
        digits_value(s.drop_last()) * 10 + (s.last() as nat - '0' as nat) as nat
    }
}

/// The number a text denotes as an unsigned 32-bit integer: an optional
/// `+` and at least one decimal digit, within range.
pub open spec fn parse_u32_text(s: Seq<char>) -> Option<u32> {
    digits_u32(if s.len() > 0 && s[0] == '+' { s.drop_first() } else { s })
}

/// The number a non-empty string of decimal digits denotes, when it fits
/// in 32 bits.
pub open spec fn digits_u32(d: Seq<char>) -> Option<u32> {
    if d.len() > 0 && (forall|i: int| 0 <= i < d.len() ==> is_digit(#[trigger] d[i])) && digits_value(d) <= u32::MAX {
        Some(digits_value(d) as u32)
    } else {
        None
    }
}

/// The value of the last attribute called `key`, if any.
pub open spec fn last_attr(attrs: Seq<(Seq<char>, Seq<char>)>, key: Seq<char>) -> Option<Seq<char>>
    decreases attrs.len(),
{
    if attrs.len() == 0 {
        None
    } else if attrs.last().0 == key {
        Some(attrs.last().1)
    } else {
        last_attr(attrs.drop_last(), key)
    }
}

/// The values of the attributes called `key`, in order.
pub open spec fn attr_values(attrs: Seq<(Seq<char>, Seq<char>)>, key: Seq<char>) -> Seq<Seq<char>>
    decreases attrs.len(),
{
    if attrs.len() == 0 {
        Seq::empty()
    } else if attrs.last().0 == key {
        attr_values(attrs.drop_last(), key).push(attrs.last().1)
    } else {
        attr_values(attrs.drop_last(), key)
    }
}

/// What reading has built so far.
pub struct PnmlState {
    pub name: Seq<char>,
    pub net: NetView,
    pub initial: Map<Seq<char>, u32>,
    pub finals: Map<Seq<char>, u32>,
    pub trans_id: Option<Seq<char>>,
    pub trans_label: Option<Seq<char>>,
    pub in_initial: bool,
    pub in_final: bool,
    pub marking_place: Option<Seq<char>>,
    pub marking_text: Option<Seq<char>>,
    pub arc_source: Option<Seq<char>>,
    pub arc_target: Option<Seq<char>>,
}

/// `v`, or `old` when `v` is absent.
pub open spec fn or_keep(v: Option<Seq<char>>, old: Option<Seq<char>>) -> Option<Seq<char>> {
    match v {
        Some(x) => Some(x),
        None => old,
    }
}

/// The reading after an opening tag: `net` takes its `id` as name; `place`
/// inside a marking names the marked place (`idref`), elsewhere adds a
/// place per `id`; `transition` and `arc` start a new transition or arc
/// from their attributes; `initialmarking` and `finalmarking` open a
/// marking.
pub open spec fn pnml_start(s: PnmlState, tag: Seq<char>, attrs: Seq<(Seq<char>, Seq<char>)>) -> PnmlState {
    if tag == "net"@ {
        PnmlState { name: match last_attr(attrs, "id"@) { Some(x) => x, None => s.name }, ..s }
    } else if tag == "place"@ {
        if s.in_initial || s.in_final {
            PnmlState { marking_place: or_keep(last_attr(attrs, "idref"@), s.marking_place), ..s }
        } else {
            PnmlState { net: NetView { places: s.net.places + attr_values(attrs, "id"@), ..s.net }, ..s }
        }
    } else if tag == "transition"@ {
        PnmlState { trans_id: last_attr(attrs, "id"@), trans_label: last_attr(attrs, "name"@), ..s }
    } else if tag == "arc"@ {
        PnmlState { arc_source: last_attr(attrs, "source"@), arc_target: last_attr(attrs, "target"@), ..s }
    } else if tag == "initialmarking"@ {
        PnmlState { in_initial: true, ..s }
    } else if tag == "finalmarking"@ {
        PnmlState { in_final: true, ..s }
    } else {
        s
    }
}

/// The reading after a self-closing tag: `arc` adds an arc from its
/// `source` to its `target` (empty when missing); `place` inside a marking
/// names the marked place.
pub open spec fn pnml_empty(s: PnmlState, tag: Seq<char>, attrs: Seq<(Seq<char>, Seq<char>)>) -> PnmlState {
    if tag == "arc"@ {
        let src = match last_attr(attrs, "source"@) { Some(x) => x, None => Seq::empty() };
        let tgt = match last_attr(attrs, "target"@) { Some(x) => x, None => Seq::empty() };
        PnmlState { net: NetView { arcs: s.net.arcs.push((src, tgt)), ..s.net }, ..s }
    } else if tag == "place"@ && (s.in_initial || s.in_final) {
        PnmlState { marking_place: or_keep(last_attr(attrs, "idref"@), s.marking_place), ..s }
    } else {
        s
    }
}

/// The reading after a closing tag: `transition` adds the transition read,
/// if it had an id; `initialmarking` and `finalmarking` close the marking;
/// `place` inside a marking records the tokens of its text on the marked
/// place when both are known and the tokens are positive; `arc` adds the
/// arc read, if it had both ends.
pub open spec fn pnml_end(s: PnmlState, tag: Seq<char>) -> PnmlState {
    if tag == "transition"@ {
        let net = match s.trans_id {
            Some(id) => NetView { transitions: s.net.transitions.push((id, s.trans_label)), ..s.net },
            None => s.net,
        };
        PnmlState { net, trans_id: None, trans_label: None, ..s }
    } else if tag == "initialmarking"@ {
        PnmlState { in_initial: false, ..s }
    } else if tag == "finalmarking"@ {
        PnmlState { in_final: false, ..s }
    } else if tag == "place"@ {
        if s.in_initial || s.in_final {
            let s2 = PnmlState { marking_place: None, marking_text: None, ..s };
            match (s.marking_place, s.marking_text) {
                (Some(p), Some(text)) => {
                    let tokens: u32 = match parse_u32_text(text) { Some(v) => v, None => 0 };
                    if tokens > 0 {
                        if s.in_initial {
                            PnmlState { initial: s.initial.insert(p, tokens), ..s2 }
                        } else {
                            PnmlState { finals: s.finals.insert(p, tokens), ..s2 }
                        }
                    } else {
                        s2
                    }
                },
                _ => s2,
            }
        } else {
            s
        }
    } else if tag == "arc"@ {
        let net = match (s.arc_source, s.arc_target) {
            (Some(a), Some(b)) => NetView { arcs: s.net.arcs.push((a, b)), ..s.net },
            _ => s.net,
        };
        PnmlState { net, arc_source: None, arc_target: None, ..s }
    } else {
        s
    }
}

/// The reading after one more element; a non-blank text becomes the
/// marking text (trimmed).
pub open spec fn pnml_step(s: PnmlState, tok: PnmlTokenView) -> PnmlState {
    match tok {
        PnmlTokenView::Start(tag, attrs) => pnml_start(s, tag, attrs),
        PnmlTokenView::Empty(tag, attrs) => pnml_empty(s, tag, attrs),
        PnmlTokenView::Text(t) => if trim(t).len() > 0 { PnmlState { marking_text: Some(trim(t)), ..s } } else { s },
        PnmlTokenView::End(tag) => pnml_end(s, tag),
    }
}

/// The reading after a sequence of elements.
pub open spec fn pnml_run(tokens: Seq<PnmlTokenView>) -> PnmlState
    decreases tokens.len(),
{
    if tokens.len() == 0 {
        PnmlState {
            name: Seq::empty(),
            net: NetView { places: Seq::empty(), transitions: Seq::empty(), arcs: Seq::empty() },
            initial: Map::empty(),
            finals: Map::empty(),
            trans_id: None,
            trans_label: None,
            in_initial: false,
            in_final: false,
            marking_place: None,
            marking_text: None,
            arc_source: None,
            arc_target: None,
        }
    } else {
        pnml_step(pnml_run(tokens.drop_last()), tokens.last())
    }
}

/// A marking holds exactly the tokens of a map.
pub open spec fn marking_is(m: Marking, tokens: Map<Seq<char>, u32>) -> bool {
    &&& m.wf()
    &&& forall|p: Seq<char>| #[trigger] m.get_spec(p) == if tokens.dom().contains(p) { Some(tokens[p]) } else { None }
}

proof fn lemma_digits_prefix(s: Seq<char>, j: int)
    requires
        0 <= j <= s.len(),
    ensures
        digits_value(s.subrange(0, j)) <= digits_value(s),
    decreases s.len() - j,
{
    if j < s.len() {
        lemma_digits_prefix(s, j + 1);
        assert(s.subrange(0, j + 1).drop_last() =~= s.subrange(0, j));
    } else {
        assert(s.subrange(0, j) =~= s);
    }
}

/// The number a text denotes as an unsigned 32-bit integer, as
/// `parse_u32_text` states it.
pub fn parse_u32(s: &str) -> (res: Option<u32>)
    ensures
        res == parse_u32_text(s@),
{
    let n = s.unicode_len();
    let start: usize = if n > 0 && s.get_char(0) == '+' { 1 } else { 0 };
    let ghost d = if s@.len() > 0 && s@[0] == '+' { s@.drop_first() } else { s@ };
    proof {
        assert(d =~= s@.subrange(start as int, n as int));
    }
    if start == n {
        return None;
    }
    let mut v: u64 = 0;
    let mut i: usize = start;
    while i < n
        invariant
            n == s@.len(),
            start <= i <= n,
            d == s@.subrange(start as int, n as int),
            d == (if s@.len() > 0 && s@[0] == '+' { s@.drop_first() } else { s@ }),
            d.len() > 0,
            forall|k: int| 0 <= k < i - start ==> is_digit(#[trigger] d[k]),
            v == digits_value(d.subrange(0, i - start)),
            v <= u32::MAX,
        decreases n - i,
    {
        let c = s.get_char(i);
        proof {
            assert(d[i - start] == c);
        }
        if !('0' <= c && c <= '9') {
            proof {
                assert(!is_digit(d[i - start]));
            }
            return None;
        }
        let digit: u64 = (c as u32 - '0' as u32) as u64;
        proof {
            assert(d.subrange(0, i - start + 1).drop_last() =~= d.subrange(0, i - start));
            assert(digits_value(d.subrange(0, i - start + 1)) == v * 10 + digit);
        }
        v = v * 10 + digit;
        if v > 0xffff_ffff {
            proof {
                lemma_digits_prefix(d, i - start + 1);
                assert(digits_value(d) > u32::MAX);
            }
            return None;
        }
        i = i + 1;
    }
    proof {
        assert(d.subrange(0, n - start) =~= d);
    }
    Some(v as u32)
}

fn last_attr_of(attrs: &Vec<(String, String)>, key: &str) -> (res: Option<String>)
    ensures
        res.deep_view() == last_attr(attrs.deep_view(), key@),
{
    let ghost av = attrs.deep_view();
    let mut found: Option<String> = None;
    for i in 0..attrs.len()
        invariant
            av == attrs.deep_view(),
            found.deep_view() == last_attr(av.take(i as int), key@),
    {
        proof {
            assert(av.take(i + 1).drop_last() =~= av.take(i as int));
            assert(av[i as int] == attrs@[i as int].deep_view());
        }
        if str_eq(attrs[i].0.as_str(), key) {
            found = Some(attrs[i].1.clone());
        }
    }
    proof {
        assert(av.take(av.len() as int) =~= av);
    }
    found
}

fn add_places_with_id(net: &mut PetriNet, attrs: &Vec<(String, String)>)
    ensures
        final(net).name@ == old(net).name@,
        old(net).unit_arcs() ==> final(net).unit_arcs(),
        final(net)@ == (NetView { places: old(net)@.places + attr_values(attrs.deep_view(), "id"@), ..old(net)@ }),
{
    let ghost av = attrs.deep_view();
    let ghost n0 = net@;
    for i in 0..attrs.len()
        invariant
            av == attrs.deep_view(),
            net.name@ == old(net).name@,
            old(net).unit_arcs() ==> net.unit_arcs(),
            n0 == old(net)@,
            net@ == (NetView { places: n0.places + attr_values(av.take(i as int), "id"@), ..n0 }),
    {
        proof {
            assert(av.take(i + 1).drop_last() =~= av.take(i as int));
            assert(av[i as int] == attrs@[i as int].deep_view());
        }
        if str_eq(attrs[i].0.as_str(), "id") {
            net.add_place(attrs[i].1.as_str());
            proof {
                assert(n0.places + attr_values(av.take(i + 1), "id"@)
                    =~= (n0.places + attr_values(av.take(i as int), "id"@)).push(av[i as int].1));
            }
        }
    }
    proof {
        assert(av.take(av.len() as int) =~= av);
    }
}

/// The state of reading, as values.
struct PnmlReading {
    net: PetriNet,
    initial: Marking,
    finals: Marking,
    trans_id: Option<String>,
    trans_label: Option<String>,
    in_initial: bool,
    in_final: bool,
    marking_place: Option<String>,
    marking_text: Option<String>,
    arc_source: Option<String>,
    arc_target: Option<String>,
}

impl PnmlReading {
    spec fn holds(&self, s: PnmlState) -> bool {
        &&& self.net.name@ == s.name
        &&& self.net@ == s.net
        &&& self.net.unit_arcs()
        &&& marking_is(self.initial, s.initial)
        &&& marking_is(self.finals, s.finals)
        &&& self.trans_id.deep_view() == s.trans_id
        &&& self.trans_label.deep_view() == s.trans_label
        &&& self.in_initial == s.in_initial
        &&& self.in_final == s.in_final
        &&& self.marking_place.deep_view() == s.marking_place
        &&& self.marking_text.deep_view() == s.marking_text
        &&& self.arc_source.deep_view() == s.arc_source
        &&& self.arc_target.deep_view() == s.arc_target
    }
}

fn record_tokens(m: &mut Marking, place: String, tokens: u32, Ghost(map): Ghost<Map<Seq<char>, u32>>)
    requires
        marking_is(*old(m), map),
    ensures
        marking_is(*final(m), map.insert(place@, tokens)),
{
    let ghost pv = place@;
    m.insert(place, tokens);
    proof {
        assert forall|p: Seq<char>| #[trigger] m.get_spec(p) == if map.insert(pv, tokens).dom().contains(p) {
            Some(map.insert(pv, tokens)[p])
        } else {
            None
        } by {
            if p != pv {
                assert(m.get_spec(p) == old(m).get_spec(p));
            }
        }
    }
}

impl PnmlReading {
    fn start(&mut self, tag: &str, attrs: &Vec<(String, String)>, Ghost(s): Ghost<PnmlState>)
        requires
            old(self).holds(s),
        ensures
            final(self).holds(pnml_start(s, tag@, attrs.deep_view())),
    {
        if str_eq(tag, "net") {
            match last_attr_of(attrs, "id") {
                Some(x) => {
                    self.net.name = x;
                },
                None => {},
            }
        } else if str_eq(tag, "place") {
            if self.in_initial || self.in_final {
                match last_attr_of(attrs, "idref") {
                    Some(x) => {
                        self.marking_place = Some(x);
                    },
                    None => {},
                }
            } else {
                add_places_with_id(&mut self.net, attrs);
            }
        } else if str_eq(tag, "transition") {
            self.trans_id = last_attr_of(attrs, "id");
            self.trans_label = last_attr_of(attrs, "name");
        } else if str_eq(tag, "arc") {
            self.arc_source = last_attr_of(attrs, "source");
            self.arc_target = last_attr_of(attrs, "target");
        } else if str_eq(tag, "initialmarking") {
            self.in_initial = true;
        } else if str_eq(tag, "finalmarking") {
            self.in_final = true;
        }
    }

    fn empty(&mut self, tag: &str, attrs: &Vec<(String, String)>, Ghost(s): Ghost<PnmlState>)
        requires
            old(self).holds(s),
        ensures
            final(self).holds(pnml_empty(s, tag@, attrs.deep_view())),
    {
        if str_eq(tag, "arc") {
            let src = match last_attr_of(attrs, "source") {
                Some(x) => x,
                None => String::new(),
            };
            let tgt = match last_attr_of(attrs, "target") {
                Some(x) => x,
                None => String::new(),
            };
            proof {
                assert(src@ == match last_attr(attrs.deep_view(), "source"@) { Some(x) => x, None => Seq::<char>::empty() });
                assert(tgt@ == match last_attr(attrs.deep_view(), "target"@) { Some(x) => x, None => Seq::<char>::empty() });
            }
            self.net.add_arc(src.as_str(), tgt.as_str());
        } else if str_eq(tag, "place") && (self.in_initial || self.in_final) {
            match last_attr_of(attrs, "idref") {
                Some(x) => {
                    self.marking_place = Some(x);
                },
                None => {},
            }
        }
    }

    fn end(&mut self, tag: &str, Ghost(s): Ghost<PnmlState>)
        requires
            old(self).holds(s),
        ensures
            final(self).holds(pnml_end(s, tag@)),
    {
        if str_eq(tag, "transition") {
            let id = self.trans_id.take();
            let label = self.trans_label.take();
            match id {
                Some(i) => {
                    self.net.add_transition(i.as_str(), label);
                },
                None => {},
            }
        } else if str_eq(tag, "initialmarking") {
            self.in_initial = false;
        } else if str_eq(tag, "finalmarking") {
            self.in_final = false;
        } else if str_eq(tag, "place") {
            if self.in_initial || self.in_final {
                let place = self.marking_place.take();
                let text = self.marking_text.take();
                match (place, text) {
                    (Some(p), Some(t)) => {
                        let tokens = match parse_u32(t.as_str()) {
                            Some(v) => v,
                            None => 0,
                        };
                        if tokens > 0 {
                            if self.in_initial {
                                record_tokens(&mut self.initial, p, tokens, Ghost(s.initial));
                            } else {
                                record_tokens(&mut self.finals, p, tokens, Ghost(s.finals));
                            }
                        }
                    },
                    _ => {},
                }
            }
        } else if str_eq(tag, "arc") {
            let a = self.arc_source.take();
            let b = self.arc_target.take();
            match (a, b) {
                (Some(x), Some(y)) => {
                    self.net.add_arc(x.as_str(), y.as_str());
                },
                _ => {},
            }
        }
    }

    fn step(&mut self, tok: &PnmlToken, Ghost(s): Ghost<PnmlState>)
        requires
            old(self).holds(s),
        ensures
            final(self).holds(pnml_step(s, tok.deep_view())),
    {
        match tok {
            PnmlToken::Start(tag, attrs) => self.start(tag.as_str(), attrs, Ghost(s)),
            PnmlToken::Empty(tag, attrs) => self.empty(tag.as_str(), attrs, Ghost(s)),
            PnmlToken::Text(t) => {
                let trimmed = trim_str(t.as_str());
                if !trimmed.as_str().is_empty() {
                    self.marking_text = Some(trimmed);
                }
            },
            PnmlToken::End(tag) => self.end(tag.as_str(), Ghost(s)),
        }
    }
}

/// The net and markings of a sequence of PNML elements, as `pnml_run`
/// states them.
pub fn pnml_from_tokens(tokens: &Vec<PnmlToken>) -> (res: PetriNetResult)
    ensures
        res.net.unit_arcs(),
        res.net.name@ == pnml_run(tokens.deep_view()).name,
        res.net@ == pnml_run(tokens.deep_view()).net,
        marking_is(res.initial_marking, pnml_run(tokens.deep_view()).initial),
        marking_is(res.final_marking, pnml_run(tokens.deep_view()).finals),
{
    let ghost tv = tokens.deep_view();
    let mut r = PnmlReading {
        net: PetriNet::new(""),
        initial: Marking::new(),
        finals: Marking::new(),
        trans_id: None,
        trans_label: None,
        in_initial: false,
        in_final: false,
        marking_place: None,
        marking_text: None,
        arc_source: None,
        arc_target: None,
    };
    proof {
        reveal_strlit("");
        let s0 = pnml_run(tv.take(0));
        assert(r.net@.places =~= s0.net.places);
        assert(r.net@.transitions =~= s0.net.transitions);
        assert(r.net@.arcs =~= s0.net.arcs);
        assert(r.net.name@ =~= s0.name);
        assert(r.holds(s0));
    }
    for i in 0..tokens.len()
        invariant
            tv == tokens.deep_view(),
            r.holds(pnml_run(tv.take(i as int))),
    {
        proof {
            assert(tv.take(i + 1).drop_last() =~= tv.take(i as int));
            assert(tv[i as int] == tokens@[i as int].deep_view());
        }
        r.step(&tokens[i], Ghost(pnml_run(tv.take(i as int))));
    }
    proof {
        assert(tv.take(tv.len() as int) =~= tv);
    }
    PetriNetResult { net: r.net, initial_marking: r.initial, final_marking: r.finals }
}


/// The lines of a place of the net.
pub open spec fn pnml_place(p: Seq<char>) -> Seq<char> {
    "    <place id=\""@ + p + "\">\n      <graphics/>\n    </place>\n"@
}

/// The lines of a transition, with its label as `name` when it has one.
pub open spec fn pnml_transition(t: (Seq<char>, Option<Seq<char>>)) -> Seq<char> {
    "    <transition id=\""@ + t.0 + match t.1 {
        Some(l) => "\" name=\""@ + l,
        None => Seq::empty(),
    } + "\">\n      <graphics/>\n    </transition>\n"@
}

/// The lines of an arc, with its weight as inscription.
pub open spec fn pnml_arc(a: (Seq<char>, Seq<char>), w: u32) -> Seq<char> {
    "    <arc source=\""@ + a.0 + "\" target=\""@ + a.1
        + "\">\n      <inscription>\n        <text>"@ + decimal(w as nat)
        + "</text>\n      </inscription>\n      <graphics/>\n    </arc>\n"@
}

/// The lines of a marked place; places without tokens are left out.
pub open spec fn pnml_marked(e: (Seq<char>, u32)) -> Seq<char> {
    if e.1 > 0 {
        "      <place idref=\""@ + e.0 + "\">\n        <text>"@ + decimal(e.1 as nat) + "</text>\n      </place>\n"@
    } else {
        Seq::empty()
    }
}

/// The places' lines, in order.
pub open spec fn pnml_places(ps: Seq<Seq<char>>) -> Seq<char>
    decreases ps.len(),
{
    if ps.len() == 0 { Seq::empty() } else { pnml_places(ps.drop_last()) + pnml_place(ps.last()) }
}

/// The transitions' lines, in order.
pub open spec fn pnml_transitions(ts: Seq<(Seq<char>, Option<Seq<char>>)>) -> Seq<char>
    decreases ts.len(),
{
    if ts.len() == 0 { Seq::empty() } else { pnml_transitions(ts.drop_last()) + pnml_transition(ts.last()) }
}

/// The arcs' lines, in order, each with its weight.
pub open spec fn pnml_arcs(arcs: Seq<(Seq<char>, Seq<char>)>, weights: Seq<u32>) -> Seq<char>
    decreases arcs.len(),
{
    if arcs.len() == 0 {
        Seq::empty()
    } else {
        pnml_arcs(arcs.drop_last(), weights.drop_last()) + pnml_arc(arcs.last(), weights.last())
    }
}

/// The lines of a marking's entries, in order.
pub open spec fn pnml_marking(es: Seq<(Seq<char>, u32)>) -> Seq<char>
    decreases es.len(),
{
    if es.len() == 0 { Seq::empty() } else { pnml_marking(es.drop_last()) + pnml_marked(es.last()) }
}

/// The PNML 2.0 document of a net with its initial and final markings.
pub open spec fn pnml_document(
    name: Seq<char>,
    net: NetView,
    weights: Seq<u32>,
    initial: Seq<(Seq<char>, u32)>,
    finals: Seq<(Seq<char>, u32)>,
) -> Seq<char> {
    "<?xml version=\"1.0\" encoding=\"UTF-8\"?>\n"@ + "<pnml xmlns=\"http://www.pnml.org/version-2009/grammar\">\n"@
        + "  <net id=\""@ + name + "\" type=\"P/T-net\">\n"@
        + pnml_places(net.places) + pnml_transitions(net.transitions) + pnml_arcs(net.arcs, weights)
        + "    <initialmarking>\n"@ + pnml_marking(initial) + "    </initialmarking>\n"@
        + "    <finalmarking>\n"@ + pnml_marking(finals) + "    </finalmarking>\n"@
        + "  </net>\n</pnml>\n"@
}

fn append_marking(xml: &mut String, m: &Marking)
    ensures
        final(xml)@ == old(xml)@ + pnml_marking(m.tokens.deep_view()),
{
    let ghost tv = m.tokens.deep_view();
    let ghost start = xml@;
    for i in 0..m.tokens.len()
        invariant
            tv == m.tokens.deep_view(),
            start == old(xml)@,
            xml@ == start + pnml_marking(tv.take(i as int)),
    {
        proof {
            assert(tv.take(i + 1).drop_last() =~= tv.take(i as int));
            assert(tv[i as int] == m.tokens@[i as int].deep_view());
        }
        let (place, tokens) = (&m.tokens[i].0, m.tokens[i].1);
        if tokens > 0 {
            let num = usize_to_decimal(tokens as usize);
            xml.append("      <place idref=\"");
            xml.append(place.as_str());
            xml.append("\">\n        <text>");
            xml.append(num.as_str());
            xml.append("</text>\n      </place>\n");
        }
        proof {
            assert(xml@ =~= start + pnml_marking(tv.take(i + 1)));
        }
    }
    proof {
        assert(tv.take(tv.len() as int) =~= tv);
    }
}

/// Convert a PetriNetResult to PNML 2.0 XML format, as `pnml_document`
/// states it.
pub fn to_pnml(pn: &PetriNetResult) -> (res: String)
    ensures
        res@ == pnml_document(
            pn.net.name@,
            pn.net@,
            pn.net.arc_weights(),
            pn.initial_marking.tokens.deep_view(),
            pn.final_marking.tokens.deep_view(),
        ),
{
    let net = &pn.net;
    let ghost nv = net@;
    let mut xml = "<?xml version=\"1.0\" encoding=\"UTF-8\"?>\n".to_owned();
    xml.append("<pnml xmlns=\"http://www.pnml.org/version-2009/grammar\">\n");
    xml.append("  <net id=\"");
    xml.append(net.name.as_str());
    xml.append("\" type=\"P/T-net\">\n");
    let ghost head = xml@;
    for i in 0..net.places.len()
        invariant
            nv == net@,
            xml@ == head + pnml_places(nv.places.take(i as int)),
    {
        proof {
            assert(nv.places.take(i + 1).drop_last() =~= nv.places.take(i as int));
        }
        xml.append("    <place id=\"");
        xml.append(net.places[i].name.as_str());
        xml.append("\">\n      <graphics/>\n    </place>\n");
        proof {
            assert(xml@ =~= head + pnml_places(nv.places.take(i + 1)));
        }
    }
    proof {
        assert(nv.places.take(nv.places.len() as int) =~= nv.places);
    }
    let ghost head = xml@;
    for i in 0..net.transitions.len()
        invariant
            nv == net@,
            xml@ == head + pnml_transitions(nv.transitions.take(i as int)),
    {
        proof {
            assert(nv.transitions.take(i + 1).drop_last() =~= nv.transitions.take(i as int));
            assert(nv.transitions[i as int] == net.transitions@[i as int].deep_view());
        }
        let t = &net.transitions[i];
        xml.append("    <transition id=\"");
        xml.append(t.name.as_str());
        match &t.label {
            Some(l) => {
                xml.append("\" name=\"");
                xml.append(l.as_str());
            },
            None => {},
        }
        xml.append("\">\n      <graphics/>\n    </transition>\n");
        proof {
            assert(xml@ =~= head + pnml_transitions(nv.transitions.take(i + 1)));
        }
    }
    proof {
        assert(nv.transitions.take(nv.transitions.len() as int) =~= nv.transitions);
    }
    let ghost head = xml@;
    let ghost ws = net.arc_weights();
    for i in 0..net.arcs.len()
        invariant
            nv == net@,
            ws == net.arc_weights(),
            xml@ == head + pnml_arcs(nv.arcs.take(i as int), ws.take(i as int)),
    {
        proof {
            assert(nv.arcs.take(i + 1).drop_last() =~= nv.arcs.take(i as int));
            assert(ws.take(i + 1).drop_last() =~= ws.take(i as int));
            assert(nv.arcs[i as int] == net.arcs@[i as int].deep_view());
            assert(ws[i as int] == net.arcs@[i as int].weight);
        }
        let num = usize_to_decimal(net.arcs[i].weight as usize);
        xml.append("    <arc source=\"");
        xml.append(net.arcs[i].source.as_str());
        xml.append("\" target=\"");
        xml.append(net.arcs[i].target.as_str());
        xml.append("\">\n      <inscription>\n        <text>");
        xml.append(num.as_str());
        xml.append("</text>\n      </inscription>\n      <graphics/>\n    </arc>\n");
        proof {
            assert(xml@ =~= head + pnml_arcs(nv.arcs.take(i + 1), ws.take(i + 1)));
        }
    }
    proof {
        assert(nv.arcs.take(nv.arcs.len() as int) =~= nv.arcs);
        assert(ws.take(ws.len() as int) =~= ws);
    }
    xml.append("    <initialmarking>\n");
    append_marking(&mut xml, &pn.initial_marking);
    xml.append("    </initialmarking>\n");
    xml.append("    <finalmarking>\n");
    append_marking(&mut xml, &pn.final_marking);
    xml.append("    </finalmarking>\n");
    xml.append("  </net>\n</pnml>\n");
    xml
}


/// The reading before any element.
pub open spec fn pnml_initial_state() -> PnmlState {
    PnmlState {
        name: Seq::empty(),
        net: NetView { places: Seq::empty(), transitions: Seq::empty(), arcs: Seq::empty() },
        initial: Map::empty(),
        finals: Map::empty(),
        trans_id: None,
        trans_label: None,
        in_initial: false,
        in_final: false,
        marking_place: None,
        marking_text: None,
        arc_source: None,
        arc_target: None,
    }
}

/// The reading after a sequence of elements from `s`.
pub open spec fn pnml_from(s: PnmlState, toks: Seq<PnmlTokenView>) -> PnmlState
    decreases toks.len(),
{
    if toks.len() == 0 {
        s
    } else {
        pnml_step(pnml_from(s, toks.drop_last()), toks.last())
    }
}

/// The elements of a place of the net.
pub open spec fn place_tokens(p: Seq<char>) -> Seq<PnmlTokenView> {
    seq![
        PnmlTokenView::Start("place"@, seq![("id"@, p)]),
        PnmlTokenView::Empty("graphics"@, Seq::empty()),
        PnmlTokenView::End("place"@),
    ]
}

/// The elements of a transition, with its label as `name`.
pub open spec fn transition_tokens(t: (Seq<char>, Option<Seq<char>>)) -> Seq<PnmlTokenView> {
    seq![
        PnmlTokenView::Start("transition"@, seq![("id"@, t.0)] + match t.1 {
            Some(l) => seq![("name"@, l)],
            None => Seq::empty(),
        }),
        PnmlTokenView::Empty("graphics"@, Seq::empty()),
        PnmlTokenView::End("transition"@),
    ]
}

/// The elements of an arc, with its inscription.
pub open spec fn arc_tokens(a: (Seq<char>, Seq<char>)) -> Seq<PnmlTokenView> {
    seq![
        PnmlTokenView::Start("arc"@, seq![("source"@, a.0), ("target"@, a.1)]),
        PnmlTokenView::Start("inscription"@, Seq::empty()),
        PnmlTokenView::Start("text"@, Seq::empty()),
        PnmlTokenView::Text("1"@),
        PnmlTokenView::End("text"@),
        PnmlTokenView::End("inscription"@),
        PnmlTokenView::Empty("graphics"@, Seq::empty()),
        PnmlTokenView::End("arc"@),
    ]
}

/// The elements of a marked place; none for a place without tokens.
pub open spec fn marked_tokens(e: (Seq<char>, u32)) -> Seq<PnmlTokenView> {
    if e.1 > 0 {
        seq![
            PnmlTokenView::Start("place"@, seq![("idref"@, e.0)]),
            PnmlTokenView::Start("text"@, Seq::empty()),
            PnmlTokenView::Text(decimal(e.1 as nat)),
            PnmlTokenView::End("text"@),
            PnmlTokenView::End("place"@),
        ]
    } else {
        Seq::empty()
    }
}

/// The elements of each item, one after the other.
pub open spec fn each_tokens<A>(items: Seq<A>, f: spec_fn(A) -> Seq<PnmlTokenView>) -> Seq<PnmlTokenView>
    decreases items.len(),
{
    if items.len() == 0 {
        Seq::empty()
    } else {
        each_tokens(items.drop_last(), f) + f(items.last())
    }
}

/// The elements of the PNML document of a net whose arcs each carry one
/// token, with its initial and final markings, as `pnml_document` lays
/// them out.
pub open spec fn pnml_document_tokens(
    name: Seq<char>,
    net: NetView,
    initial: Seq<(Seq<char>, u32)>,
    fin: Seq<(Seq<char>, u32)>,
) -> Seq<PnmlTokenView> {
    seq![
        PnmlTokenView::Start("pnml"@, seq![("xmlns"@, "http://www.pnml.org/version-2009/grammar"@)]),
        PnmlTokenView::Start("net"@, seq![("id"@, name), ("type"@, "P/T-net"@)]),
    ] + each_tokens(net.places, |p: Seq<char>| place_tokens(p))
        + each_tokens(net.transitions, |t: (Seq<char>, Option<Seq<char>>)| transition_tokens(t))
        + each_tokens(net.arcs, |a: (Seq<char>, Seq<char>)| arc_tokens(a))
        + seq![PnmlTokenView::Start("initialmarking"@, Seq::empty())]
        + each_tokens(initial, |e: (Seq<char>, u32)| marked_tokens(e))
        + seq![PnmlTokenView::End("initialmarking"@), PnmlTokenView::Start("finalmarking"@, Seq::empty())]
        + each_tokens(fin, |e: (Seq<char>, u32)| marked_tokens(e))
        + seq![PnmlTokenView::End("finalmarking"@), PnmlTokenView::End("net"@), PnmlTokenView::End("pnml"@)]
}

/// The entries with tokens, as a map, onto `m`; a later entry of a place
/// wins.
pub open spec fn positive_into(m: Map<Seq<char>, u32>, es: Seq<(Seq<char>, u32)>) -> Map<Seq<char>, u32>
    decreases es.len(),
{
    if es.len() == 0 {
        m
    } else {
        let r = positive_into(m, es.drop_last());
        if es.last().1 > 0 { r.insert(es.last().0, es.last().1) } else { r }
    }
}

proof fn lemma_pnml_literals()
    ensures
        "pnml"@ != "net"@,
        "pnml"@ != "place"@,
        "pnml"@ != "graphics"@,
        "pnml"@ != "transition"@,
        "pnml"@ != "arc"@,
        "pnml"@ != "inscription"@,
        "pnml"@ != "text"@,
        "pnml"@ != "initialmarking"@,
        "pnml"@ != "finalmarking"@,
        "net"@ != "place"@,
        "net"@ != "graphics"@,
        "net"@ != "transition"@,
        "net"@ != "arc"@,
        "net"@ != "inscription"@,
        "net"@ != "text"@,
        "net"@ != "initialmarking"@,
        "net"@ != "finalmarking"@,
        "place"@ != "graphics"@,
        "place"@ != "transition"@,
        "place"@ != "arc"@,
        "place"@ != "inscription"@,
        "place"@ != "text"@,
        "place"@ != "initialmarking"@,
        "place"@ != "finalmarking"@,
        "graphics"@ != "transition"@,
        "graphics"@ != "arc"@,
        "graphics"@ != "inscription"@,
        "graphics"@ != "text"@,
        "graphics"@ != "initialmarking"@,
        "graphics"@ != "finalmarking"@,
        "transition"@ != "arc"@,
        "transition"@ != "inscription"@,
        "transition"@ != "text"@,
        "transition"@ != "initialmarking"@,
        "transition"@ != "finalmarking"@,
        "arc"@ != "inscription"@,
        "arc"@ != "text"@,
        "arc"@ != "initialmarking"@,
        "arc"@ != "finalmarking"@,
        "inscription"@ != "text"@,
        "inscription"@ != "initialmarking"@,
        "inscription"@ != "finalmarking"@,
        "text"@ != "initialmarking"@,
        "text"@ != "finalmarking"@,
        "initialmarking"@ != "finalmarking"@,
        "id"@ != "name"@,
        "id"@ != "source"@,
        "id"@ != "target"@,
        "id"@ != "idref"@,
        "id"@ != "type"@,
        "name"@ != "source"@,
        "name"@ != "target"@,
        "name"@ != "idref"@,
        "name"@ != "type"@,
        "source"@ != "target"@,
        "source"@ != "idref"@,
        "source"@ != "type"@,
        "target"@ != "idref"@,
        "target"@ != "type"@,
        "idref"@ != "type"@,
{
    reveal_strlit("pnml");
    reveal_strlit("net");
    reveal_strlit("place");
    reveal_strlit("graphics");
    reveal_strlit("transition");
    reveal_strlit("arc");
    reveal_strlit("inscription");
    reveal_strlit("text");
    reveal_strlit("initialmarking");
    reveal_strlit("finalmarking");
    reveal_strlit("id");
    reveal_strlit("name");
    reveal_strlit("source");
    reveal_strlit("target");
    reveal_strlit("idref");
    reveal_strlit("type");
    assert("pnml"@ != "net"@) by { if "pnml"@ == "net"@ { assert("pnml"@.len() == "net"@.len()); } }
    assert("pnml"@ != "place"@) by { if "pnml"@ == "place"@ { assert("pnml"@.len() == "place"@.len()); } }
    assert("pnml"@ != "graphics"@) by { if "pnml"@ == "graphics"@ { assert("pnml"@.len() == "graphics"@.len()); } }
    assert("pnml"@ != "transition"@) by { if "pnml"@ == "transition"@ { assert("pnml"@.len() == "transition"@.len()); } }
    assert("pnml"@ != "arc"@) by { if "pnml"@ == "arc"@ { assert("pnml"@.len() == "arc"@.len()); } }
    assert("pnml"@ != "inscription"@) by { if "pnml"@ == "inscription"@ { assert("pnml"@.len() == "inscription"@.len()); } }
    assert("pnml"@ != "text"@) by { if "pnml"@ == "text"@ { assert("pnml"@[0] == "text"@[0]); } }
    assert("pnml"@ != "initialmarking"@) by { if "pnml"@ == "initialmarking"@ { assert("pnml"@.len() == "initialmarking"@.len()); } }
    assert("pnml"@ != "finalmarking"@) by { if "pnml"@ == "finalmarking"@ { assert("pnml"@.len() == "finalmarking"@.len()); } }
    assert("net"@ != "place"@) by { if "net"@ == "place"@ { assert("net"@.len() == "place"@.len()); } }
    assert("net"@ != "graphics"@) by { if "net"@ == "graphics"@ { assert("net"@.len() == "graphics"@.len()); } }
    assert("net"@ != "transition"@) by { if "net"@ == "transition"@ { assert("net"@.len() == "transition"@.len()); } }
    assert("net"@ != "arc"@) by { if "net"@ == "arc"@ { assert("net"@[0] == "arc"@[0]); } }
    assert("net"@ != "inscription"@) by { if "net"@ == "inscription"@ { assert("net"@.len() == "inscription"@.len()); } }
    assert("net"@ != "text"@) by { if "net"@ == "text"@ { assert("net"@.len() == "text"@.len()); } }
    assert("net"@ != "initialmarking"@) by { if "net"@ == "initialmarking"@ { assert("net"@.len() == "initialmarking"@.len()); } }
    assert("net"@ != "finalmarking"@) by { if "net"@ == "finalmarking"@ { assert("net"@.len() == "finalmarking"@.len()); } }
    assert("place"@ != "graphics"@) by { if "place"@ == "graphics"@ { assert("place"@.len() == "graphics"@.len()); } }
    assert("place"@ != "transition"@) by { if "place"@ == "transition"@ { assert("place"@.len() == "transition"@.len()); } }
    assert("place"@ != "arc"@) by { if "place"@ == "arc"@ { assert("place"@.len() == "arc"@.len()); } }
    assert("place"@ != "inscription"@) by { if "place"@ == "inscription"@ { assert("place"@.len() == "inscription"@.len()); } }
    assert("place"@ != "text"@) by { if "place"@ == "text"@ { assert("place"@.len() == "text"@.len()); } }
    assert("place"@ != "initialmarking"@) by { if "place"@ == "initialmarking"@ { assert("place"@.len() == "initialmarking"@.len()); } }
    assert("place"@ != "finalmarking"@) by { if "place"@ == "finalmarking"@ { assert("place"@.len() == "finalmarking"@.len()); } }
    assert("graphics"@ != "transition"@) by { if "graphics"@ == "transition"@ { assert("graphics"@.len() == "transition"@.len()); } }
    assert("graphics"@ != "arc"@) by { if "graphics"@ == "arc"@ { assert("graphics"@.len() == "arc"@.len()); } }
    assert("graphics"@ != "inscription"@) by { if "graphics"@ == "inscription"@ { assert("graphics"@.len() == "inscription"@.len()); } }
    assert("graphics"@ != "text"@) by { if "graphics"@ == "text"@ { assert("graphics"@.len() == "text"@.len()); } }
    assert("graphics"@ != "initialmarking"@) by { if "graphics"@ == "initialmarking"@ { assert("graphics"@.len() == "initialmarking"@.len()); } }
    assert("graphics"@ != "finalmarking"@) by { if "graphics"@ == "finalmarking"@ { assert("graphics"@.len() == "finalmarking"@.len()); } }
    assert("transition"@ != "arc"@) by { if "transition"@ == "arc"@ { assert("transition"@.len() == "arc"@.len()); } }
    assert("transition"@ != "inscription"@) by { if "transition"@ == "inscription"@ { assert("transition"@.len() == "inscription"@.len()); } }
    assert("transition"@ != "text"@) by { if "transition"@ == "text"@ { assert("transition"@.len() == "text"@.len()); } }
    assert("transition"@ != "initialmarking"@) by { if "transition"@ == "initialmarking"@ { assert("transition"@.len() == "initialmarking"@.len()); } }
    assert("transition"@ != "finalmarking"@) by { if "transition"@ == "finalmarking"@ { assert("transition"@.len() == "finalmarking"@.len()); } }
    assert("arc"@ != "inscription"@) by { if "arc"@ == "inscription"@ { assert("arc"@.len() == "inscription"@.len()); } }
    assert("arc"@ != "text"@) by { if "arc"@ == "text"@ { assert("arc"@.len() == "text"@.len()); } }
    assert("arc"@ != "initialmarking"@) by { if "arc"@ == "initialmarking"@ { assert("arc"@.len() == "initialmarking"@.len()); } }
    assert("arc"@ != "finalmarking"@) by { if "arc"@ == "finalmarking"@ { assert("arc"@.len() == "finalmarking"@.len()); } }
    assert("inscription"@ != "text"@) by { if "inscription"@ == "text"@ { assert("inscription"@.len() == "text"@.len()); } }
    assert("inscription"@ != "initialmarking"@) by { if "inscription"@ == "initialmarking"@ { assert("inscription"@.len() == "initialmarking"@.len()); } }
    assert("inscription"@ != "finalmarking"@) by { if "inscription"@ == "finalmarking"@ { assert("inscription"@.len() == "finalmarking"@.len()); } }
    assert("text"@ != "initialmarking"@) by { if "text"@ == "initialmarking"@ { assert("text"@.len() == "initialmarking"@.len()); } }
    assert("text"@ != "finalmarking"@) by { if "text"@ == "finalmarking"@ { assert("text"@.len() == "finalmarking"@.len()); } }
    assert("initialmarking"@ != "finalmarking"@) by { if "initialmarking"@ == "finalmarking"@ { assert("initialmarking"@.len() == "finalmarking"@.len()); } }
    assert("id"@ != "name"@) by { if "id"@ == "name"@ { assert("id"@.len() == "name"@.len()); } }
    assert("id"@ != "source"@) by { if "id"@ == "source"@ { assert("id"@.len() == "source"@.len()); } }
    assert("id"@ != "target"@) by { if "id"@ == "target"@ { assert("id"@.len() == "target"@.len()); } }
    assert("id"@ != "idref"@) by { if "id"@ == "idref"@ { assert("id"@.len() == "idref"@.len()); } }
    assert("id"@ != "type"@) by { if "id"@ == "type"@ { assert("id"@.len() == "type"@.len()); } }
    assert("name"@ != "source"@) by { if "name"@ == "source"@ { assert("name"@.len() == "source"@.len()); } }
    assert("name"@ != "target"@) by { if "name"@ == "target"@ { assert("name"@.len() == "target"@.len()); } }
    assert("name"@ != "idref"@) by { if "name"@ == "idref"@ { assert("name"@.len() == "idref"@.len()); } }
    assert("name"@ != "type"@) by { if "name"@ == "type"@ { assert("name"@[0] == "type"@[0]); } }
    assert("source"@ != "target"@) by { if "source"@ == "target"@ { assert("source"@[0] == "target"@[0]); } }
    assert("source"@ != "idref"@) by { if "source"@ == "idref"@ { assert("source"@.len() == "idref"@.len()); } }
    assert("source"@ != "type"@) by { if "source"@ == "type"@ { assert("source"@.len() == "type"@.len()); } }
    assert("target"@ != "idref"@) by { if "target"@ == "idref"@ { assert("target"@.len() == "idref"@.len()); } }
    assert("target"@ != "type"@) by { if "target"@ == "type"@ { assert("target"@.len() == "type"@.len()); } }
    assert("idref"@ != "type"@) by { if "idref"@ == "type"@ { assert("idref"@.len() == "type"@.len()); } }
}

proof fn lemma_pnml_from_start(toks: Seq<PnmlTokenView>)
    ensures
        pnml_run(toks) == pnml_from(pnml_initial_state(), toks),
    decreases toks.len(),
{
    if toks.len() > 0 {
        lemma_pnml_from_start(toks.drop_last());
    }
}

proof fn lemma_pnml_append(s: PnmlState, a: Seq<PnmlTokenView>, b: Seq<PnmlTokenView>)
    ensures
        pnml_from(s, a + b) == pnml_from(pnml_from(s, a), b),
    decreases b.len(),
{
    if b.len() == 0 {
        assert(a + b =~= a);
    } else {
        assert((a + b).drop_last() =~= a + b.drop_last());
        assert((a + b).last() == b.last());
        lemma_pnml_append(s, a, b.drop_last());
    }
}

proof fn lemma_pnml_push(s: PnmlState, t: Seq<PnmlTokenView>, x: PnmlTokenView)
    ensures
        pnml_from(s, t.push(x)) == pnml_step(pnml_from(s, t), x),
{
    assert(t.push(x).drop_last() =~= t);
}

/// The reading of a short sequence of elements, one at a time.
proof fn lemma_pnml_seq(s: PnmlState, toks: Seq<PnmlTokenView>, k: int)
    requires
        0 <= k <= toks.len(),
    ensures
        pnml_from(s, toks.take(k)) == pnml_steps(s, toks, k),
    decreases k,
{
    if k == 0 {
        assert(toks.take(0) =~= Seq::<PnmlTokenView>::empty());
    } else {
        lemma_pnml_seq(s, toks, k - 1);
        assert(toks.take(k) =~= toks.take(k - 1).push(toks[k - 1]));
        lemma_pnml_push(s, toks.take(k - 1), toks[k - 1]);
    }
}

/// The first `k` elements applied one at a time.
pub open spec fn pnml_steps(s: PnmlState, toks: Seq<PnmlTokenView>, k: int) -> PnmlState
    decreases k,
{
    if k <= 0 { s } else { pnml_step(pnml_steps(s, toks, k - 1), toks[k - 1]) }
}

proof fn lemma_last_attr_one(k: Seq<char>, v: Seq<char>, key: Seq<char>)
    ensures
        last_attr(seq![(k, v)], key) == if k == key { Some(v) } else { None::<Seq<char>> },
        attr_values(seq![(k, v)], key) == if k == key { seq![v] } else { Seq::<Seq<char>>::empty() },
{
    let a = seq![(k, v)];
    let e = Seq::<(Seq<char>, Seq<char>)>::empty();
    assert(a.drop_last() =~= e);
    assert(last_attr(e, key) is None);
    assert(attr_values(e, key) =~= Seq::<Seq<char>>::empty());
    if k == key {
        assert(attr_values(a, key) =~= seq![v]);
    }
}

proof fn lemma_last_attr_two(k1: Seq<char>, v1: Seq<char>, k2: Seq<char>, v2: Seq<char>, key: Seq<char>)
    ensures
        last_attr(seq![(k1, v1), (k2, v2)], key) == if k2 == key {
            Some(v2)
        } else if k1 == key {
            Some(v1)
        } else {
            None::<Seq<char>>
        },
{
    let a = seq![(k1, v1), (k2, v2)];
    assert(a.drop_last() =~= seq![(k1, v1)]);
    lemma_last_attr_one(k1, v1, key);
}

proof fn lemma_ignored_steps(s: PnmlState, attrs: Seq<(Seq<char>, Seq<char>)>)
    ensures
        pnml_step(s, PnmlTokenView::Start("pnml"@, attrs)) == s,
        pnml_step(s, PnmlTokenView::Start("inscription"@, attrs)) == s,
        pnml_step(s, PnmlTokenView::Start("text"@, attrs)) == s,
        pnml_step(s, PnmlTokenView::Empty("graphics"@, attrs)) == s,
        pnml_step(s, PnmlTokenView::End("text"@)) == s,
        pnml_step(s, PnmlTokenView::End("inscription"@)) == s,
        pnml_step(s, PnmlTokenView::End("net"@)) == s,
        pnml_step(s, PnmlTokenView::End("pnml"@)) == s,
{
    lemma_pnml_literals();
}

proof fn lemma_place_steps(s: PnmlState, p: Seq<char>)
    requires
        !s.in_initial,
        !s.in_final,
    ensures
        pnml_from(s, place_tokens(p)) == (PnmlState { net: NetView { places: s.net.places.push(p), ..s.net }, ..s }),
{
    let toks = place_tokens(p);
    lemma_pnml_literals();
    lemma_last_attr_one("id"@, p, "id"@);
    lemma_pnml_seq(s, toks, 3);
    assert(toks.take(3) =~= toks);
    let s1 = pnml_step(s, toks[0]);
    assert(s.net.places + seq![p] =~= s.net.places.push(p));
    assert(s1 == PnmlState { net: NetView { places: s.net.places.push(p), ..s.net }, ..s });
    lemma_ignored_steps(s1, Seq::empty());
    assert(pnml_steps(s, toks, 0) == s);
    assert(pnml_steps(s, toks, 1) == s1);
    assert(pnml_steps(s, toks, 2) == s1);
    assert(pnml_step(s1, toks[2]) == s1);
    assert(pnml_steps(s, toks, 3) == s1);
}

proof fn lemma_places_read(s: PnmlState, ps: Seq<Seq<char>>)
    requires
        !s.in_initial,
        !s.in_final,
    ensures
        pnml_from(s, each_tokens(ps, |p: Seq<char>| place_tokens(p)))
            == (PnmlState { net: NetView { places: s.net.places + ps, ..s.net }, ..s }),
    decreases ps.len(),
{
    let f = |p: Seq<char>| place_tokens(p);
    if ps.len() == 0 {
        assert(s.net.places + ps =~= s.net.places);
    } else {
        let d = ps.drop_last();
        lemma_places_read(s, d);
        let s1 = PnmlState { net: NetView { places: s.net.places + d, ..s.net }, ..s };
        lemma_pnml_append(s, each_tokens(d, f), f(ps.last()));
        lemma_place_steps(s1, ps.last());
        assert((s.net.places + d).push(ps.last()) =~= s.net.places + ps);
    }
}

proof fn lemma_transition_steps(s: PnmlState, t: (Seq<char>, Option<Seq<char>>))
    requires
        !s.in_initial,
        !s.in_final,
        s.trans_id is None,
        s.trans_label is None,
    ensures
        pnml_from(s, transition_tokens(t)) == (PnmlState { net: NetView { transitions: s.net.transitions.push(t), ..s.net }, ..s }),
{
    let toks = transition_tokens(t);
    lemma_pnml_literals();
    let attrs = seq![("id"@, t.0)] + match t.1 {
        Some(l) => seq![("name"@, l)],
        None => Seq::empty(),
    };
    match t.1 {
        Some(l) => {
            assert(attrs =~= seq![("id"@, t.0), ("name"@, l)]);
            lemma_last_attr_two("id"@, t.0, "name"@, l, "id"@);
            lemma_last_attr_two("id"@, t.0, "name"@, l, "name"@);
        },
        None => {
            assert(attrs =~= seq![("id"@, t.0)]);
            lemma_last_attr_one("id"@, t.0, "id"@);
            lemma_last_attr_one("id"@, t.0, "name"@);
        },
    }
    lemma_pnml_seq(s, toks, 3);
    assert(toks.take(3) =~= toks);
    let s1 = pnml_step(s, toks[0]);
    assert(s1 == PnmlState { trans_id: Some(t.0), trans_label: t.1, ..s });
    lemma_ignored_steps(s1, Seq::empty());
    assert(pnml_steps(s, toks, 0) == s);
    assert(pnml_steps(s, toks, 1) == s1);
    assert(pnml_steps(s, toks, 2) == s1);
    assert(pnml_step(s1, toks[2]) == PnmlState { net: NetView { transitions: s.net.transitions.push(t), ..s.net }, ..s });
    assert(pnml_steps(s, toks, 3) == pnml_step(s1, toks[2]));
}

proof fn lemma_transitions_read(s: PnmlState, ts: Seq<(Seq<char>, Option<Seq<char>>)>)
    requires
        !s.in_initial,
        !s.in_final,
        s.trans_id is None,
        s.trans_label is None,
    ensures
        pnml_from(s, each_tokens(ts, |t: (Seq<char>, Option<Seq<char>>)| transition_tokens(t)))
            == (PnmlState { net: NetView { transitions: s.net.transitions + ts, ..s.net }, ..s }),
    decreases ts.len(),
{
    let f = |t: (Seq<char>, Option<Seq<char>>)| transition_tokens(t);
    if ts.len() == 0 {
        assert(s.net.transitions + ts =~= s.net.transitions);
    } else {
        let d = ts.drop_last();
        lemma_transitions_read(s, d);
        let s1 = PnmlState { net: NetView { transitions: s.net.transitions + d, ..s.net }, ..s };
        lemma_pnml_append(s, each_tokens(d, f), f(ts.last()));
        lemma_transition_steps(s1, ts.last());
        assert((s.net.transitions + d).push(ts.last()) =~= s.net.transitions + ts);
    }
}

proof fn lemma_trim_plain(s: Seq<char>)
    requires
        s.len() > 0,
        !crate::text::white_space(s[0]),
        !crate::text::white_space(s[s.len() - 1]),
    ensures
        trim(s) == s,
{
    assert(crate::text::first_non_ws(s, 0) == 0);
    assert(crate::text::end_non_ws(s, s.len() as int) == s.len());
    assert(s.subrange(0, s.len() as int) =~= s);
}

proof fn lemma_text_step(s: PnmlState, t: Seq<char>)
    requires
        t.len() > 0,
        trim(t) == t,
    ensures
        pnml_step(s, PnmlTokenView::Text(t)) == (PnmlState { marking_text: Some(t), ..s }),
{
}

proof fn lemma_arc_steps(s: PnmlState, a: (Seq<char>, Seq<char>))
    requires
        !s.in_initial,
        !s.in_final,
        s.arc_source is None,
        s.arc_target is None,
    ensures
        pnml_from(s, arc_tokens(a)) == (PnmlState { net: NetView { arcs: s.net.arcs.push(a), ..s.net }, marking_text: Some("1"@), ..s }),
{
    let toks = arc_tokens(a);
    lemma_pnml_literals();
    lemma_last_attr_two("source"@, a.0, "target"@, a.1, "source"@);
    lemma_last_attr_two("source"@, a.0, "target"@, a.1, "target"@);
    reveal_strlit("1");
    lemma_trim_plain("1"@);
    lemma_pnml_seq(s, toks, 8);
    assert(toks.take(8) =~= toks);
    let s1 = pnml_step(s, toks[0]);
    assert(s1 == PnmlState { arc_source: Some(a.0), arc_target: Some(a.1), ..s });
    lemma_ignored_steps(s1, Seq::empty());
    assert(pnml_steps(s, toks, 0) == s);
    assert(pnml_steps(s, toks, 1) == s1);
    assert(pnml_steps(s, toks, 2) == s1);
    assert(pnml_steps(s, toks, 3) == s1);
    lemma_text_step(s1, "1"@);
    let s4 = PnmlState { marking_text: Some("1"@), ..s1 };
    assert(pnml_steps(s, toks, 4) == s4);
    lemma_ignored_steps(s4, Seq::empty());
    assert(pnml_steps(s, toks, 5) == s4);
    assert(pnml_steps(s, toks, 6) == s4);
    assert(pnml_steps(s, toks, 7) == s4);
    assert(pnml_step(s4, toks[7]) == PnmlState { net: NetView { arcs: s.net.arcs.push(a), ..s.net }, marking_text: Some("1"@), ..s });
    assert(pnml_steps(s, toks, 8) == pnml_step(s4, toks[7]));
}

proof fn lemma_arcs_read(s: PnmlState, arcs: Seq<(Seq<char>, Seq<char>)>)
    requires
        !s.in_initial,
        !s.in_final,
        s.arc_source is None,
        s.arc_target is None,
    ensures
        ({
            let r = pnml_from(s, each_tokens(arcs, |a: (Seq<char>, Seq<char>)| arc_tokens(a)));
            r == PnmlState { net: NetView { arcs: s.net.arcs + arcs, ..s.net }, marking_text: r.marking_text, ..s }
        }),
    decreases arcs.len(),
{
    let f = |a: (Seq<char>, Seq<char>)| arc_tokens(a);
    if arcs.len() == 0 {
        assert(s.net.arcs + arcs =~= s.net.arcs);
    } else {
        let d = arcs.drop_last();
        lemma_arcs_read(s, d);
        let s1 = pnml_from(s, each_tokens(d, f));
        lemma_pnml_append(s, each_tokens(d, f), f(arcs.last()));
        lemma_arc_steps(s1, arcs.last());
        assert((s.net.arcs + d).push(arcs.last()) =~= s.net.arcs + arcs);
    }
}

proof fn lemma_decimal_digits(n: nat)
    ensures
        decimal(n).len() > 0,
        forall|i: int| 0 <= i < decimal(n).len() ==> is_digit(#[trigger] decimal(n)[i]),
        digits_value(decimal(n)) == n,
    decreases n,
{
    let s = decimal(n);
    if n < 10 {
        assert(s.drop_last() =~= Seq::<char>::empty());
        assert(digits_value(Seq::<char>::empty()) == 0);
    } else {
        lemma_decimal_digits(n / 10);
        let d = decimal(n / 10);
        assert(s.drop_last() =~= d);
        assert forall|i: int| 0 <= i < s.len() implies is_digit(#[trigger] s[i]) by {
            if i < d.len() {
                assert(s[i] == d[i]);
            }
        }
        assert(n == (n / 10) * 10 + n % 10);
    }
}

proof fn lemma_decimal_reads(k: u32)
    requires
        k > 0,
    ensures
        decimal(k as nat).len() > 0,
        trim(decimal(k as nat)) == decimal(k as nat),
        parse_u32_text(decimal(k as nat)) == Some(k),
{
    let s = decimal(k as nat);
    lemma_decimal_digits(k as nat);
    assert(is_digit(s[0]) && is_digit(s[s.len() - 1]));
    lemma_trim_plain(s);
    assert(s[0] != '+');
}

#[verifier::rlimit(40)]
proof fn lemma_marked_steps(s: PnmlState, e: (Seq<char>, u32))
    requires
        s.in_initial != s.in_final,
    ensures
        ({
            let r = pnml_from(s, marked_tokens(e));
            &&& r.initial == if s.in_initial && e.1 > 0 { s.initial.insert(e.0, e.1) } else { s.initial }
            &&& r.finals == if s.in_final && e.1 > 0 { s.finals.insert(e.0, e.1) } else { s.finals }
            &&& r == PnmlState { initial: r.initial, finals: r.finals, marking_place: r.marking_place, marking_text: r.marking_text, ..s }
        }),
{
    if e.1 > 0 {
        let toks = marked_tokens(e);
        lemma_pnml_literals();
        lemma_decimal_reads(e.1);
        lemma_last_attr_one("idref"@, e.0, "idref"@);
        lemma_pnml_seq(s, toks, 5);
        assert(toks.take(5) =~= toks);
        let s1 = pnml_step(s, toks[0]);
        assert(s1 == PnmlState { marking_place: Some(e.0), ..s });
        lemma_ignored_steps(s1, Seq::empty());
        assert(pnml_steps(s, toks, 0) == s);
    assert(pnml_steps(s, toks, 1) == s1);
        assert(pnml_steps(s, toks, 2) == s1);
        lemma_text_step(s1, decimal(e.1 as nat));
        let s3 = PnmlState { marking_text: Some(decimal(e.1 as nat)), ..s1 };
        assert(pnml_steps(s, toks, 3) == s3);
        lemma_ignored_steps(s3, Seq::empty());
        assert(pnml_steps(s, toks, 4) == s3);
        assert(pnml_steps(s, toks, 5) == pnml_step(s3, toks[4]));
    } else {
        assert(marked_tokens(e) =~= Seq::<PnmlTokenView>::empty());
    }
}

proof fn lemma_markings_read(s: PnmlState, es: Seq<(Seq<char>, u32)>)
    requires
        s.in_initial != s.in_final,
    ensures
        ({
            let r = pnml_from(s, each_tokens(es, |e: (Seq<char>, u32)| marked_tokens(e)));
            &&& r.initial == if s.in_initial { positive_into(s.initial, es) } else { s.initial }
            &&& r.finals == if s.in_final { positive_into(s.finals, es) } else { s.finals }
            &&& r == PnmlState { initial: r.initial, finals: r.finals, marking_place: r.marking_place, marking_text: r.marking_text, ..s }
        }),
    decreases es.len(),
{
    let f = |e: (Seq<char>, u32)| marked_tokens(e);
    if es.len() > 0 {
        let d = es.drop_last();
        lemma_markings_read(s, d);
        let s1 = pnml_from(s, each_tokens(d, f));
        lemma_pnml_append(s, each_tokens(d, f), f(es.last()));
        lemma_marked_steps(s1, es.last());
    }
}

/// Reading the elements of the PNML document of a net with its markings
/// gives back the net's name, the net, and the places with tokens of each
/// marking.
#[verifier::rlimit(60)]
pub proof fn lemma_pnml_roundtrip(name: Seq<char>, net: NetView, initial: Seq<(Seq<char>, u32)>, fin: Seq<(Seq<char>, u32)>)
    ensures
        pnml_run(pnml_document_tokens(name, net, initial, fin)).name == name,
        pnml_run(pnml_document_tokens(name, net, initial, fin)).net == net,
        pnml_run(pnml_document_tokens(name, net, initial, fin)).initial == positive_into(Map::empty(), initial),
        pnml_run(pnml_document_tokens(name, net, initial, fin)).finals == positive_into(Map::empty(), fin),
{
    let pf = |p: Seq<char>| place_tokens(p);
    let tf = |t: (Seq<char>, Option<Seq<char>>)| transition_tokens(t);
    let af = |a: (Seq<char>, Seq<char>)| arc_tokens(a);
    let mf = |e: (Seq<char>, u32)| marked_tokens(e);
    let head = seq![
        PnmlTokenView::Start("pnml"@, seq![("xmlns"@, "http://www.pnml.org/version-2009/grammar"@)]),
        PnmlTokenView::Start("net"@, seq![("id"@, name), ("type"@, "P/T-net"@)]),
    ];
    let open_i = seq![PnmlTokenView::Start("initialmarking"@, Seq::empty())];
    let mid = seq![PnmlTokenView::End("initialmarking"@), PnmlTokenView::Start("finalmarking"@, Seq::empty())];
    let tail = seq![PnmlTokenView::End("finalmarking"@), PnmlTokenView::End("net"@), PnmlTokenView::End("pnml"@)];
    let toks = pnml_document_tokens(name, net, initial, fin);
    let p2 = head + each_tokens(net.places, pf);
    let p3 = p2 + each_tokens(net.transitions, tf);
    let p4 = p3 + each_tokens(net.arcs, af);
    let p5 = p4 + open_i;
    let p6 = p5 + each_tokens(initial, mf);
    let p7 = p6 + mid;
    let p8 = p7 + each_tokens(fin, mf);
    assert(toks =~= p8 + tail);
    let s0 = pnml_initial_state();
    lemma_pnml_from_start(toks);
    lemma_pnml_append(s0, p8, tail);
    lemma_pnml_append(s0, p7, each_tokens(fin, mf));
    lemma_pnml_append(s0, p6, mid);
    lemma_pnml_append(s0, p5, each_tokens(initial, mf));
    lemma_pnml_append(s0, p4, open_i);
    lemma_pnml_append(s0, p3, each_tokens(net.arcs, af));
    lemma_pnml_append(s0, p2, each_tokens(net.transitions, tf));
    lemma_pnml_append(s0, head, each_tokens(net.places, pf));
    // The head gives the net's name.
    lemma_pnml_literals();
    lemma_last_attr_two("id"@, name, "type"@, "P/T-net"@, "id"@);
    lemma_pnml_seq(s0, head, 2);
    assert(head.take(2) =~= head);
    lemma_ignored_steps(s0, seq![("xmlns"@, "http://www.pnml.org/version-2009/grammar"@)]);
    let s1 = PnmlState { name, ..s0 };
    assert(pnml_steps(s0, head, 0) == s0);
    assert(pnml_steps(s0, head, 1) == s0);
    assert(pnml_steps(s0, head, 2) == s1);
    assert(pnml_from(s0, head) == s1);
    lemma_places_read(s1, net.places);
    let s2 = pnml_from(s1, each_tokens(net.places, pf));
    assert(Seq::<Seq<char>>::empty() + net.places =~= net.places);
    lemma_transitions_read(s2, net.transitions);
    let s3 = pnml_from(s2, each_tokens(net.transitions, tf));
    assert(Seq::<(Seq<char>, Option<Seq<char>>)>::empty() + net.transitions =~= net.transitions);
    lemma_arcs_read(s3, net.arcs);
    let s4 = pnml_from(s3, each_tokens(net.arcs, af));
    assert(Seq::<(Seq<char>, Seq<char>)>::empty() + net.arcs =~= net.arcs);
    lemma_pnml_seq(s4, open_i, 1);
    assert(open_i.take(1) =~= open_i);
    let s5 = pnml_from(s4, open_i);
    assert(pnml_steps(s4, open_i, 0) == s4);
    assert(pnml_steps(s4, open_i, 1) == PnmlState { in_initial: true, ..s4 });
    assert(s5 == PnmlState { in_initial: true, ..s4 });
    lemma_markings_read(s5, initial);
    let s6 = pnml_from(s5, each_tokens(initial, mf));
    lemma_pnml_seq(s6, mid, 2);
    assert(mid.take(2) =~= mid);
    let s7 = pnml_from(s6, mid);
    assert(pnml_steps(s6, mid, 0) == s6);
    assert(pnml_steps(s6, mid, 1) == PnmlState { in_initial: false, ..s6 });
    assert(pnml_steps(s6, mid, 2) == PnmlState { in_initial: false, in_final: true, ..s6 });
    assert(s7 == PnmlState { in_initial: false, in_final: true, ..s6 });
    lemma_markings_read(s7, fin);
    let s8 = pnml_from(s7, each_tokens(fin, mf));
    lemma_pnml_seq(s8, tail, 3);
    assert(tail.take(3) =~= tail);
    let s9 = PnmlState { in_final: false, ..s8 };
    lemma_ignored_steps(s9, Seq::empty());
    assert(pnml_steps(s8, tail, 0) == s8);
    assert(pnml_steps(s8, tail, 1) == s9);
    assert(pnml_steps(s8, tail, 2) == s9);
    assert(pnml_steps(s8, tail, 3) == s9);
    assert(pnml_from(s8, tail) == s9);
}

/// The PNML elements of a document's events: tags with their well-formed
/// attributes (values as written), texts unescaped, the rest passed over;
/// `None` when a text cannot be unescaped.
pub open spec fn pnml_tokens_of(evs: Seq<XmlEventView>) -> Option<Seq<PnmlTokenView>>
    decreases evs.len(),
{
    if evs.len() == 0 {
        Some(Seq::empty())
    } else {
        match pnml_tokens_of(evs.drop_last()) {
            None => None,
            Some(ts) => match evs.last() {
                XmlEventView::Start(n, raw) => Some(ts.push(PnmlTokenView::Start(n, kept_attributes(xml_attribute_list(raw))))),
                XmlEventView::Empty(n, raw) => Some(ts.push(PnmlTokenView::Empty(n, kept_attributes(xml_attribute_list(raw))))),
                XmlEventView::End(n) => Some(ts.push(PnmlTokenView::End(n))),
                XmlEventView::Text(raw) => match xml_unescaped(raw) {
                    Some(t) => Some(ts.push(PnmlTokenView::Text(t))),
                    None => None,
                },
                XmlEventView::Other => Some(ts),
            },
        }
    }
}

/// Once a prefix of the events fails, so do all of them.
proof fn lemma_pnml_tokens_none_extends(evs: Seq<XmlEventView>, k: int)
    requires
        0 <= k <= evs.len(),
        pnml_tokens_of(evs.take(k)) is None,
    ensures
        pnml_tokens_of(evs) is None,
    decreases evs.len() - k,
{
    if k < evs.len() {
        assert(evs.take(k + 1).drop_last() =~= evs.take(k));
        lemma_pnml_tokens_none_extends(evs, k + 1);
    } else {
        assert(evs.take(k) =~= evs);
    }
}

/// The PNML elements of a document's events, as `pnml_tokens_of` states them.
pub fn pnml_tokens(events: &Vec<XmlEvent>) -> (res: Option<Vec<PnmlToken>>)
    ensures
        res.deep_view() == pnml_tokens_of(events.deep_view()),
{
    let ghost ev = events.deep_view();
    let mut res: Vec<PnmlToken> = Vec::new();
    for i in 0..events.len()
        invariant
            ev == events.deep_view(),
            pnml_tokens_of(ev.take(i as int)) == Some(res.deep_view()),
    {
        proof {
            assert(ev.take(i + 1).drop_last() =~= ev.take(i as int));
            assert(ev.take(i + 1).last() == ev[i as int]);
        }
        let ghost before = res.deep_view();
        match &events[i] {
            XmlEvent::Start(n, raw) => {
                let a = attributes_as_written(raw);
                let ghost av = a.deep_view();
                res.push(PnmlToken::Start(n.clone(), a));
                proof { assert(res.deep_view() =~= before.push(PnmlTokenView::Start(n@, av))); }
            },
            XmlEvent::Empty(n, raw) => {
                let a = attributes_as_written(raw);
                let ghost av = a.deep_view();
                res.push(PnmlToken::Empty(n.clone(), a));
                proof { assert(res.deep_view() =~= before.push(PnmlTokenView::Empty(n@, av))); }
            },
            XmlEvent::End(n) => {
                res.push(PnmlToken::End(n.clone()));
                proof { assert(res.deep_view() =~= before.push(PnmlTokenView::End(n@))); }
            },
            XmlEvent::Text(raw) => {
                match xml_unescape(raw) {
                    Some(t) => {
                        let ghost tv = t@;
                        res.push(PnmlToken::Text(t));
                        proof { assert(res.deep_view() =~= before.push(PnmlTokenView::Text(tv))); }
                    },
                    None => {
                        proof { lemma_pnml_tokens_none_extends(ev, i + 1); }
                        return None;
                    },
                }
            },
            XmlEvent::Other => {},
        }
    }
    proof {
        assert(ev.take(events.len() as int) =~= ev);
    }
    Some(res)
}

/// Parse a PNML 2.0 document into a Petri net with its initial and final
/// markings, as `pnml_run` states them for the document's elements; an error
/// where quick_xml reports one or a text has a malformed escape.
pub fn from_pnml(xml: &str) -> (res: Result<PetriNetResult, String>)
    ensures
        res matches Ok(r) ==> r.net.unit_arcs(),
        match xml_events(xml@) {
            None => res is Err,
            Some(evs) => match pnml_tokens_of(evs) {
                None => res is Err,
                Some(ts) => res matches Ok(r) && r.net.name@ == pnml_run(ts).name && r.net@ == pnml_run(ts).net
                    && marking_is(r.initial_marking, pnml_run(ts).initial)
                    && marking_is(r.final_marking, pnml_run(ts).finals),
            },
        },
{
    let events = read_xml_events(xml)?;
    match pnml_tokens(&events) {
        Some(tokens) => Ok(pnml_from_tokens(&tokens)),
        None => Err("malformed escape in a PNML text".to_string()),
    }
}

} // verus!
