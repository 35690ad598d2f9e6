//! Reading XES: the elements of an XES document, as a sequence of tags,
//! turned into an event log. Only `concept:name`, `time:timestamp` and
//! `lifecycle:transition` become typed fields of an event; its other
//! attributes are kept by key.

use vstd::prelude::*;
use crate::event_log::{Event, EventLog, EventView, Trace, TraceView};
use crate::text::str_eq;
use crate::xml::{attributes_unescaped, read_xml_events, unescaped_attributes, xml_attribute_list, xml_events, XmlEvent, XmlEventView};

verus! {

/// An element of an XES document.
#[derive(Debug)]
pub enum XesToken {
    /// An opening tag.
    Start(String),
    /// A self-closing element: its tag and its attributes as (name, value),
    /// in document order.
    Empty(String, Vec<(String, String)>),
    /// A closing tag.
    End(String),
}

pub enum XesTokenView {
    Start(Seq<char>),
    Empty(Seq<char>, Seq<(Seq<char>, Seq<char>)>),
    End(Seq<char>),
}

impl DeepView for XesToken {
    type V = XesTokenView;

    open spec fn deep_view(&self) -> XesTokenView {
        match self {
            XesToken::Start(n) => XesTokenView::Start(n@),
            XesToken::Empty(n, attrs) => XesTokenView::Empty(n@, attrs.deep_view()),
            XesToken::End(n) => XesTokenView::End(n@),
        }
    }
}

/// What reading has built so far: the finished traces, the open trace and
/// event, and whether a trace or an event is open.
pub struct XesState {
    pub traces: Seq<TraceView>,
    pub trace: Option<TraceView>,
    pub event: Option<EventView>,
    pub in_trace: bool,
    pub in_event: bool,
}

/// The value of the last attribute called `name`, or the empty text.
pub open spec fn attr_value(attrs: Seq<(Seq<char>, Seq<char>)>, name: Seq<char>) -> Seq<char>
    decreases attrs.len(),
{
    if attrs.len() == 0 {
        Seq::empty()
    } else if attrs.last().0 == name {
        attrs.last().1
    } else {
        attr_value(attrs.drop_last(), name)
    }
}

/// The position of the first pair with key `k`, if any.
pub open spec fn key_position(attrs: Seq<(Seq<char>, Seq<char>)>, k: Seq<char>, i: int) -> Option<int>
    decreases attrs.len() - i,
{
    if i < 0 || i >= attrs.len() {
        None
    } else if attrs[i].0 == k {
        Some(i)
    } else {
        key_position(attrs, k, i + 1)
    }
}

/// The attributes with key `k` set to `v`: its pair's value replaced, or a
/// new pair at the end.
pub open spec fn set_attr(attrs: Seq<(Seq<char>, Seq<char>)>, k: Seq<char>, v: Seq<char>) -> Seq<(Seq<char>, Seq<char>)> {
    match key_position(attrs, k, 0) {
        Some(i) => attrs.update(i, (k, v)),
        None => attrs.push((k, v)),
    }
}

/// The tags of the elements that carry an attribute.
pub open spec fn is_value_tag(tag: Seq<char>) -> bool {
    tag == "string"@ || tag == "int"@ || tag == "float"@ || tag == "date"@ || tag == "boolean"@
}

/// An event with the attribute `k` set to `v`.
pub open spec fn with_value(e: EventView, k: Seq<char>, v: Seq<char>) -> EventView {
    if k == "concept:name"@ {
        EventView { name: v, ..e }
    } else if k == "time:timestamp"@ {
        EventView { timestamp: Some(v), ..e }
    } else if k == "lifecycle:transition"@ {
        EventView { lifecycle: Some(v), ..e }
    } else {
        EventView { attributes: set_attr(e.attributes, k, v), ..e }
    }
}

pub open spec fn empty_event() -> EventView {
    EventView { name: Seq::empty(), timestamp: None, lifecycle: None, attributes: Seq::empty() }
}

pub open spec fn empty_trace() -> TraceView {
    TraceView { case_id: Seq::empty(), events: Seq::empty() }
}

/// The reading after one more element: `<trace>` opens a trace (dropping
/// an open one), `<event>` inside a trace opens an event, an attribute
/// element with a non-empty `key` sets that attribute on the open event or,
/// outside events, the case identifier of the open trace (for
/// `concept:name`), and closing tags add the open event to its trace and
/// the open trace to the log.
pub open spec fn xes_step(s: XesState, tok: XesTokenView) -> XesState {
    match tok {
        XesTokenView::Start(n) => if n == "trace"@ {
            XesState { in_trace: true, trace: Some(empty_trace()), ..s }
        } else if n == "event"@ && s.in_trace {
            XesState { in_event: true, event: Some(empty_event()), ..s }
        } else {
            s
        },
        XesTokenView::Empty(tag, attrs) => {
            let k = attr_value(attrs, "key"@);
            let v = attr_value(attrs, "value"@);
            if !is_value_tag(tag) || k.len() == 0 {
                s
            } else if s.in_event {
                match s.event {
                    Some(e) => XesState { event: Some(with_value(e, k, v)), ..s },
                    None => s,
                }
            } else if s.in_trace {
                match s.trace {
                    Some(t) => if k == "concept:name"@ {
                        XesState { trace: Some(TraceView { case_id: v, ..t }), ..s }
                    } else {
                        s
                    },
                    None => s,
                }
            } else {
                s
            }
        },
        XesTokenView::End(n) => if n == "event"@ && s.in_event {
            XesState {
                in_event: false,
                event: None,
                trace: match (s.event, s.trace) {
                    (Some(e), Some(t)) => Some(TraceView { events: t.events.push(e), ..t }),
                    _ => s.trace,
                },
                ..s
            }
        } else if n == "trace"@ && s.in_trace {
            XesState {
                in_trace: false,
                trace: None,
                traces: match s.trace {
                    Some(t) => s.traces.push(t),
                    None => s.traces,
                },
                ..s
            }
        } else {
            s
        },
    }
}

/// The reading after a sequence of elements.
pub open spec fn xes_run(tokens: Seq<XesTokenView>) -> XesState
    decreases tokens.len(),
{
    if tokens.len() == 0 {
        XesState { traces: Seq::empty(), trace: None, event: None, in_trace: false, in_event: false }
    } else {
        xes_step(xes_run(tokens.drop_last()), tokens.last())
    }
}

/// The state of reading, as values.
struct Reading {
    traces: Vec<Trace>,
    trace: Option<Trace>,
    event: Option<Event>,
    in_trace: bool,
    in_event: bool,
}

impl Reading {
    spec fn view(&self) -> XesState {
        XesState {
            traces: self.traces.deep_view(),
            trace: self.trace.deep_view(),
            event: self.event.deep_view(),
            in_trace: self.in_trace,
            in_event: self.in_event,
        }
    }
}

fn last_value(attrs: &Vec<(String, String)>, name: &str) -> (res: String)
    ensures
        res@ == attr_value(attrs.deep_view(), name@),
{
    let ghost av = attrs.deep_view();
    let mut value = String::new();
    for i in 0..attrs.len()
        invariant
            av == attrs.deep_view(),
            value@ == attr_value(av.take(i as int), name@),
    {
        proof {
            assert(av.take(i + 1).drop_last() =~= av.take(i as int));
            assert(av[i as int] == attrs@[i as int].deep_view());
        }
        if str_eq(attrs[i].0.as_str(), name) {
            value = attrs[i].1.clone();
        }
        proof {
            assert(value@ == attr_value(av.take(i + 1), name@));
        }
    }
    proof {
        assert(av.take(av.len() as int) =~= av);
        if av.len() == 0 {
            assert(""@ =~= Seq::<char>::empty()) by {
                reveal_strlit("");
            }
        }
    }
    value
}

fn set_attribute(attrs: &mut Vec<(String, String)>, k: String, v: String)
    ensures
        final(attrs).deep_view() == set_attr(old(attrs).deep_view(), k@, v@),
{
    let ghost av = attrs.deep_view();
    let mut i: usize = 0;
    while i < attrs.len()
        invariant
            av == old(attrs).deep_view(),
            attrs.deep_view() == av,
            i <= av.len(),
            key_position(av, k@, 0) == key_position(av, k@, i as int),
        decreases attrs.len() - i,
    {
        proof {
            assert(av[i as int] == attrs@[i as int].deep_view());
        }
        if str_eq(attrs[i].0.as_str(), k.as_str()) {
            let ghost before = attrs.deep_view();
            attrs.set(i, (k, v));
            proof {
                assert(attrs.deep_view() =~= before.update(i as int, (k@, v@)));
            }
            return;
        }
        i = i + 1;
    }
    let ghost before = attrs.deep_view();
    attrs.push((k, v));
    proof {
        assert(attrs.deep_view() =~= before.push((k@, v@)));
    }
}

fn is_value_tag_exec(tag: &str) -> (res: bool)
    ensures
        res == is_value_tag(tag@),
{
    str_eq(tag, "string") || str_eq(tag, "int") || str_eq(tag, "float") || str_eq(tag, "date") || str_eq(tag, "boolean")
}

fn set_event_value(e: &mut Event, k: String, v: String)
    ensures
        final(e).deep_view() == with_value(old(e).deep_view(), k@, v@),
{
    if str_eq(k.as_str(), "concept:name") {
        e.name = v;
    } else if str_eq(k.as_str(), "time:timestamp") {
        e.timestamp = Some(v);
    } else if str_eq(k.as_str(), "lifecycle:transition") {
        e.lifecycle = Some(v);
    } else {
        set_attribute(&mut e.attributes, k, v);
    }
}

impl Reading {
    fn step(&mut self, tok: &XesToken)
        ensures
            final(self).view() == xes_step(old(self).view(), tok.deep_view()),
    {
        match tok {
            XesToken::Start(n) => {
                if str_eq(n.as_str(), "trace") {
                    self.in_trace = true;
                    let t = Trace { case_id: String::new(), events: Vec::new() };
                    proof {
                        assert(t.case_id@ =~= Seq::<char>::empty());
                        assert(t.events.deep_view() =~= Seq::<EventView>::empty());
                        assert(t.deep_view() == empty_trace());
                    }
                    self.trace = Some(t);
                } else if str_eq(n.as_str(), "event") && self.in_trace {
                    self.in_event = true;
                    let e = Event { name: String::new(), timestamp: None, lifecycle: None, attributes: Vec::new() };
                    proof {
                        assert(e.name@ =~= Seq::<char>::empty());
                        assert(e.attributes.deep_view() =~= Seq::<(Seq<char>, Seq<char>)>::empty());
                        assert(e.deep_view() == empty_event());
                    }
                    self.event = Some(e);
                }
            },
            XesToken::Empty(tag, attrs) => {
                let k = last_value(attrs, "key");
                let v = last_value(attrs, "value");
                if !is_value_tag_exec(tag.as_str()) || k.as_str().is_empty() {
                    return;
                }
                if self.in_event {
                    match &mut self.event {
                        Some(e) => {
                            set_event_value(e, k, v);
                        },
                        None => {},
                    }
                } else if self.in_trace {
                    match &mut self.trace {
                        Some(t) => {
                            if str_eq(k.as_str(), "concept:name") {
                                t.case_id = v;
                            }
                        },
                        None => {},
                    }
                }
            },
            XesToken::End(n) => {
                if str_eq(n.as_str(), "event") && self.in_event {
                    self.in_event = false;
                    let ev = self.event.take();
                    match (ev, &mut self.trace) {
                        (Some(e), Some(t)) => {
                            let ghost before = t.events.deep_view();
                            let ghost ed = e.deep_view();
                            t.events.push(e);
                            proof {
                                assert(t.events.deep_view() =~= before.push(ed));
                            }
                        },
                        _ => {},
                    }
                } else if str_eq(n.as_str(), "trace") && self.in_trace {
                    self.in_trace = false;
                    let tr = self.trace.take();
                    match tr {
                        Some(t) => {
                            let ghost before = self.traces.deep_view();
                            let ghost td = t.deep_view();
                            self.traces.push(t);
                            proof {
                                assert(self.traces.deep_view() =~= before.push(td));
                            }
                        },
                        None => {},
                    }
                }
            },
        }
    }
}

/// The event log of a sequence of XES elements: the traces closed by
/// `</trace>`, in order, as `xes_run` states it.
pub fn log_from_xes_tokens(tokens: &Vec<XesToken>) -> (res: EventLog)
    ensures
        res@ == xes_run(tokens.deep_view()).traces,
{
    let ghost tv = tokens.deep_view();
    let mut r = Reading { traces: Vec::new(), trace: None, event: None, in_trace: false, in_event: false };
    proof {
        assert(r.view().traces =~= Seq::<TraceView>::empty());
        assert(r.view() == xes_run(tv.take(0)));
    }
    for i in 0..tokens.len()
        invariant
            tv == tokens.deep_view(),
            r.view() == xes_run(tv.take(i as int)),
    {
        proof {
            assert(tv.take(i + 1).drop_last() =~= tv.take(i as int));
            assert(tv[i as int] == tokens@[i as int].deep_view());
        }
        r.step(&tokens[i]);
    }
    proof {
        assert(tv.take(tv.len() as int) =~= tv);
    }
    EventLog { traces: r.traces }
}

/// The XES elements of a document's events: tags by name; a value element
/// with its attributes, values unescaped; another self-closing element with
/// no attributes; texts and the rest passed over. `None` when a value
/// element has a malformed attribute or escape.
pub open spec fn xes_tokens_of(evs: Seq<XmlEventView>) -> Option<Seq<XesTokenView>>
    decreases evs.len(),
{
    if evs.len() == 0 {
        Some(Seq::empty())
    } else {
        match xes_tokens_of(evs.drop_last()) {
            None => None,
            Some(ts) => match evs.last() {
                XmlEventView::Start(n, _) => Some(ts.push(XesTokenView::Start(n))),
                XmlEventView::End(n) => Some(ts.push(XesTokenView::End(n))),
                XmlEventView::Empty(n, raw) => if is_value_tag(n) {
                    match unescaped_attributes(xml_attribute_list(raw)) {
                        Some(a) => Some(ts.push(XesTokenView::Empty(n, a))),
                        None => None,
                    }
                } else {
                    Some(ts.push(XesTokenView::Empty(n, Seq::empty())))
                },
                _ => Some(ts),
            },
        }
    }
}

/// Once a prefix of the events fails, so do all of them.
proof fn lemma_xes_tokens_none_extends(evs: Seq<XmlEventView>, k: int)
    requires
        0 <= k <= evs.len(),
        xes_tokens_of(evs.take(k)) is None,
    ensures
        xes_tokens_of(evs) is None,
    decreases evs.len() - k,
{
    if k < evs.len() {
        assert(evs.take(k + 1).drop_last() =~= evs.take(k));
        lemma_xes_tokens_none_extends(evs, k + 1);
    } else {
        assert(evs.take(k) =~= evs);
    }
}

/// The XES elements of a document's events, as `xes_tokens_of` states them.
pub fn xes_tokens(events: &Vec<XmlEvent>) -> (res: Option<Vec<XesToken>>)
    ensures
        res.deep_view() == xes_tokens_of(events.deep_view()),
{
    let ghost ev = events.deep_view();
    let mut res: Vec<XesToken> = Vec::new();
    for i in 0..events.len()
        invariant
            ev == events.deep_view(),
            xes_tokens_of(ev.take(i as int)) == Some(res.deep_view()),
    {
        proof {
            assert(ev.take(i + 1).drop_last() =~= ev.take(i as int));
            assert(ev.take(i + 1).last() == ev[i as int]);
        }
        let ghost before = res.deep_view();
        match &events[i] {
            XmlEvent::Start(n, _) => {
                res.push(XesToken::Start(n.clone()));
                proof { assert(res.deep_view() =~= before.push(XesTokenView::Start(n@))); }
            },
            XmlEvent::End(n) => {
                res.push(XesToken::End(n.clone()));
                proof { assert(res.deep_view() =~= before.push(XesTokenView::End(n@))); }
            },
            XmlEvent::Empty(n, raw) => {
                let value_tag = is_value_tag_exec(n);
                if value_tag {
                    match attributes_unescaped(raw) {
                        Some(a) => {
                            let ghost av = a.deep_view();
                            res.push(XesToken::Empty(n.clone(), a));
                            proof { assert(res.deep_view() =~= before.push(XesTokenView::Empty(n@, av))); }
                        },
                        None => {
                            proof { lemma_xes_tokens_none_extends(ev, i + 1); }
                            return None;
                        },
                    }
                } else {
                    let none: Vec<(String, String)> = Vec::new();
                    proof { assert(none.deep_view() =~= Seq::<(Seq<char>, Seq<char>)>::empty()); }
                    res.push(XesToken::Empty(n.clone(), none));
                    proof { assert(res.deep_view() =~= before.push(XesTokenView::Empty(n@, Seq::empty()))); }
                }
            },
            _ => {},
        }
    }
    proof {
        assert(ev.take(events.len() as int) =~= ev);
    }
    Some(res)
}

/// Parses an XES document into an event log: the traces the document's
/// elements describe, as `xes_run` states them; an error where quick_xml
/// reports one or a value element has a malformed attribute or escape.
/// Only `concept:name`, `time:timestamp` and `lifecycle:transition` become
/// typed fields; all other attributes are kept in `attributes`.
pub fn parse_xes(xml: &str) -> (res: Result<EventLog, String>)
    ensures
        match xml_events(xml@) {
            None => res is Err,
            Some(evs) => match xes_tokens_of(evs) {
                None => res is Err,
                Some(ts) => res matches Ok(l) && l@ == xes_run(ts).traces,
            },
        },
{
    let events = read_xml_events(xml)?;
    match xes_tokens(&events) {
        Some(tokens) => Ok(log_from_xes_tokens(&tokens)),
        None => Err("malformed attribute in an XES value element".to_string()),
    }
}

} // verus!
