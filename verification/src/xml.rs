//! Reading XML with quick_xml: the events of a document, the attributes of
//! a tag and the unescaping of a text, handed over as plain values. The
//! formats built on XML (XES, PNML, PTML) read their documents from these.

use vstd::prelude::*;
use quick_xml::events::attributes::Attributes;
use quick_xml::events::Event::{Empty, End, Eof, Start, Text};
use quick_xml::Reader;

verus! {

/// An event of an XML document, as quick_xml's reader reports it.
#[derive(Debug)]
pub enum XmlEvent {
    /// An opening tag: its name and the text of its attributes as written.
    Start(String, String),
    /// A self-closing tag: its name and the text of its attributes as written.
    Empty(String, String),
    /// A closing tag: its name.
    End(String),
    /// A text between tags, trimmed, as written (escapes not replaced).
    Text(String),
    /// Anything else: declarations, comments, CDATA, processing instructions.
    Other,
}

pub enum XmlEventView {
    Start(Seq<char>, Seq<char>),
    Empty(Seq<char>, Seq<char>),
    End(Seq<char>),
    Text(Seq<char>),
    Other,
}

impl DeepView for XmlEvent {
    type V = XmlEventView;

    open spec fn deep_view(&self) -> XmlEventView {
        match self {
            XmlEvent::Start(n, a) => XmlEventView::Start(n@, a@),
            XmlEvent::Empty(n, a) => XmlEventView::Empty(n@, a@),
            XmlEvent::End(n) => XmlEventView::End(n@),
            XmlEvent::Text(t) => XmlEventView::Text(t@),
            XmlEvent::Other => XmlEventView::Other,
        }
    }
}

/// The events quick_xml's reader reports for a document, with text trimmed,
/// up to the end of the document; `None` when it reports an error first.
pub uninterp spec fn xml_events(xml: Seq<char>) -> Option<Seq<XmlEventView>>;

/// The attributes quick_xml reads from the attribute text of a tag, in
/// order: (name, value as written), or `None` for one it reports as
/// malformed.
pub uninterp spec fn xml_attribute_list(raw: Seq<char>) -> Seq<Option<(Seq<char>, Seq<char>)>>;

/// quick_xml's unescaping of a text (`&lt;`, `&#65;`, ...); `None` when it
/// reports a malformed or unknown escape.
pub uninterp spec fn xml_unescaped(raw: Seq<char>) -> Option<Seq<char>>;

/// Reads a document with quick_xml's `Reader::from_str`, text trimmed, event
/// by event with `read_event` until the end: each event becomes an
/// `XmlEvent`, and an error of the reader becomes `Err` with its message.
/// The contract claims no more than that the outcome is the one `xml_events`
/// names for the text.
#[verifier::external_body]
pub fn read_xml_events(xml: &str) -> (res: Result<Vec<XmlEvent>, String>)
    ensures
        res is Ok <==> xml_events(xml@) is Some,
        res matches Ok(v) ==> xml_events(xml@) == Some(v.deep_view()),
{
    let text = |b: &[u8]| String::from_utf8_lossy(b).into_owned();
    let mut reader = Reader::from_str(xml);
    reader.config_mut().trim_text(true);
    let mut events = Vec::new();
    loop {
        events.push(match reader.read_event().map_err(|e| e.to_string())? {
            Start(e) => XmlEvent::Start(text(e.name().0), text(e.attributes_raw())),
            Empty(e) => XmlEvent::Empty(text(e.name().0), text(e.attributes_raw())),
            End(e) => XmlEvent::End(text(&e)),
            Text(e) => XmlEvent::Text(text(&e)),
            Eof => return Ok(events),
            _ => XmlEvent::Other,
        });
    }
}

/// Iterates quick_xml's `Attributes::new(raw, 0)` over the attribute text of
/// a tag: each attribute becomes its name and its value as written, each
/// malformed one `None`. The contract claims that the list is the one
/// `xml_attribute_list` names for the text.
#[verifier::external_body]
pub fn xml_attributes(raw: &str) -> (res: Vec<Option<(String, String)>>)
    ensures
        res.deep_view() == xml_attribute_list(raw@),
{
    let mut attrs = Vec::new();
    for attr in Attributes::new(raw, 0) {
        attrs.push(match attr {
            Ok(a) => Some((String::from_utf8_lossy(a.key.0).into_owned(), String::from_utf8_lossy(&a.value).into_owned())),
            Err(_) => None,
        });
    }
    attrs
}

/// quick_xml's `escape::unescape`: the text with its escapes replaced, or
/// `None` where it reports an error. The contract claims that the outcome is
/// the one `xml_unescaped` names for the text.
#[verifier::external_body]
pub fn xml_unescape(raw: &str) -> (res: Option<String>)
    ensures
        res is Some <==> xml_unescaped(raw@) is Some,
        res matches Some(s) ==> xml_unescaped(raw@) == Some(s@),
{
    match quick_xml::escape::unescape(raw) {
        Ok(s) => Some(s.into_owned()),
        Err(_) => None,
    }
}

/// The well-formed attributes of a list, in order, as (name, value as
/// written): malformed ones are passed over.
pub open spec fn kept_attributes(list: Seq<Option<(Seq<char>, Seq<char>)>>) -> Seq<(Seq<char>, Seq<char>)>
    decreases list.len(),
{
    if list.len() == 0 {
        Seq::empty()
    } else {
        match list.last() {
            Some(a) => kept_attributes(list.drop_last()).push(a),
            None => kept_attributes(list.drop_last()),
        }
    }
}

/// The attributes of a list with their values unescaped; `None` when one is
/// malformed or its value cannot be unescaped.
pub open spec fn unescaped_attributes(list: Seq<Option<(Seq<char>, Seq<char>)>>) -> Option<Seq<(Seq<char>, Seq<char>)>>
    decreases list.len(),
{
    if list.len() == 0 {
        Some(Seq::empty())
    } else {
        match (unescaped_attributes(list.drop_last()), list.last()) {
            (Some(prev), Some(a)) => match xml_unescaped(a.1) {
                Some(v) => Some(prev.push((a.0, v))),
                None => None,
            },
            _ => None,
        }
    }
}

/// The well-formed attributes of a tag's attribute text, values as written.
pub fn attributes_as_written(raw: &str) -> (res: Vec<(String, String)>)
    ensures
        res.deep_view() == kept_attributes(xml_attribute_list(raw@)),
{
    let list = xml_attributes(raw);
    let ghost lv = list.deep_view();
    let mut res: Vec<(String, String)> = Vec::new();
    for i in 0..list.len()
        invariant
            lv == list.deep_view(),
            lv == xml_attribute_list(raw@),
            res.deep_view() == kept_attributes(lv.take(i as int)),
    {
        proof {
            assert(lv.take(i + 1).drop_last() =~= lv.take(i as int));
        }
        match &list[i] {
            Some(a) => {
                res.push((a.0.clone(), a.1.clone()));
                proof {
                    assert(res.deep_view() =~= kept_attributes(lv.take(i as int)).push(lv[i as int]->0));
                }
            },
            None => {},
        }
    }
    proof {
        assert(lv.take(list.len() as int) =~= lv);
    }
    res
}

/// The attributes of a tag's attribute text with their values unescaped, or
/// `None` when one is malformed or cannot be unescaped.
pub fn attributes_unescaped(raw: &str) -> (res: Option<Vec<(String, String)>>)
    ensures
        res.deep_view() == unescaped_attributes(xml_attribute_list(raw@)),
{
    let list = xml_attributes(raw);
    let ghost lv = list.deep_view();
    let mut res: Vec<(String, String)> = Vec::new();
    for i in 0..list.len()
        invariant
            lv == list.deep_view(),
            lv == xml_attribute_list(raw@),
            unescaped_attributes(lv.take(i as int)) == Some(res.deep_view()),
    {
        proof {
            assert(lv.take(i + 1).drop_last() =~= lv.take(i as int));
        }
        match &list[i] {
            Some(a) => {
                match xml_unescape(&a.1) {
                    Some(v) => {
                        res.push((a.0.clone(), v));
                        proof {
                            assert(res.deep_view() =~= unescaped_attributes(lv.take(i as int))->0.push((a.0@, v@)));
                        }
                    },
                    None => {
                        proof {
                            assert(unescaped_attributes(lv.take(i + 1)) is None);
                            lemma_unescaped_none_extends(lv, i + 1);
                        }
                        return None;
                    },
                }
            },
            None => {
                proof {
                    lemma_unescaped_none_extends(lv, i + 1);
                }
                return None;
            },
        }
    }
    proof {
        assert(lv.take(list.len() as int) =~= lv);
    }
    Some(res)
}

/// Once a prefix of a list has a malformed attribute, so has the list.
proof fn lemma_unescaped_none_extends(list: Seq<Option<(Seq<char>, Seq<char>)>>, k: int)
    requires
        0 <= k <= list.len(),
        unescaped_attributes(list.take(k)) is None,
    ensures
        unescaped_attributes(list) is None,
    decreases list.len() - k,
{
    if k < list.len() {
        assert(list.take(k + 1).drop_last() =~= list.take(k));
        lemma_unescaped_none_extends(list, k + 1);
    } else {
        assert(list.take(k) =~= list);
    }
}

} // verus!
