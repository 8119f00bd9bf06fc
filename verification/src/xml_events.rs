//! The XML events of an XBRL instance, as `quick_xml` reads them.

use quick_xml::events::Event;
use quick_xml::Reader;
use std::io::Cursor;
use vstd::prelude::*;

verus! {

#[verifier::external_type_specification]
#[verifier::external_body]
#[verifier::reject_recursive_types(T)]
pub struct ExCursor<T>(Cursor<T>);

#[verifier::external_type_specification]
#[verifier::external_body]
#[verifier::reject_recursive_types(R)]
pub struct ExXmlReader<R>(Reader<R>);

/// One event of the reader, with the parts that the XBRL reading uses.
pub enum XmlEvent {
    /// A start tag: its local name and its attributes in order, each as
    /// (local key, raw value), or `None` where the attribute is malformed.
    Start(String, Vec<Option<(String, String)>>),
    /// Character data, unescaped; `None` where unescaping failed.
    Text(Option<String>),
    /// An end tag.
    End,
    /// Any other event (empty element, comment, CDATA, declaration, ...).
    Other,
    /// End of input or a syntax error: the reader has nothing more to give.
    Stop,
}

/// The mathematical value of an [`XmlEvent`].
pub enum XmlEventView {
    Start(Seq<char>, Seq<Option<(Seq<char>, Seq<char>)>>),
    Text(Option<Seq<char>>),
    End,
    Other,
    Stop,
}

impl View for XmlEvent {
    type V = XmlEventView;

    open spec fn view(&self) -> XmlEventView {
        match self {
            XmlEvent::Start(n, a) => XmlEventView::Start(n@, a.deep_view()),
            XmlEvent::Text(t) => XmlEventView::Text(
                match t {
                    Some(s) => Some(s@),
                    None => None,
                },
            ),
            XmlEvent::End => XmlEventView::End,
            XmlEvent::Other => XmlEventView::Other,
            XmlEvent::Stop => XmlEventView::Stop,
        }
    }
}

/// The events that a reader over `xml`, with text trimming on, returns up to and
/// including the first end of input or error.
pub uninterp spec fn xml_events(xml: Seq<char>) -> Seq<XmlEventView>;

/// The events that the reader has yet to return.
pub uninterp spec fn pending_events(r: Reader<Cursor<Vec<u8>>>) -> Seq<XmlEventView>;

/// A sequence of events that ends with its only `Stop`.
pub open spec fn stops_once_at_end(evs: Seq<XmlEventView>) -> bool {
    &&& evs.len() > 0
    &&& evs.last() is Stop
    &&& forall|i: int| 0 <= i < evs.len() - 1 ==> !(#[trigger] evs[i] is Stop)
}

/// `Reader::from_reader` over the UTF-8 bytes of `xml`, then `Reader::trim_text(true)`.
/// Claimed: the reader will return `xml_events(xml)`, a finite sequence that ends
/// with its only end-of-input-or-error event. The reader consumes input with
/// each other event, and once it has met the end or an error it stays in its
/// exit state, which is why the sequence is finite.
#[verifier::external_body]
pub(crate) fn open_xml(xml: &str) -> (r: Reader<Cursor<Vec<u8>>>)
    ensures
        pending_events(r) == xml_events(xml@),
        stops_once_at_end(pending_events(r)),
{
    let mut r = Reader::from_reader(Cursor::new(xml.as_bytes().to_vec()));
    r.trim_text(true);
    r
}

/// `Reader::read_event_into`, with the event converted: names and attribute
/// keys by their local part, bytes read as UTF-8 with replacement, text through
/// `BytesText::unescape`. Claimed: the event is the next pending one.
#[verifier::external_body]
pub(crate) fn next_event(r: &mut Reader<Cursor<Vec<u8>>>) -> (ev: XmlEvent)
    requires
        pending_events(*old(r)).len() > 0,
    ensures
        ev@ == pending_events(*old(r))[0],
        pending_events(*final(r)) == pending_events(*old(r)).drop_first(),
{
    match r.read_event_into(&mut Vec::new()) {
        Ok(Event::Start(e)) => XmlEvent::Start(
            String::from_utf8_lossy(e.local_name().as_ref()).into_owned(),
            e.attributes().map(|a| a.ok().map(|a| (
                String::from_utf8_lossy(a.key.local_name().as_ref()).into_owned(),
                String::from_utf8_lossy(a.value.as_ref()).into_owned(),
            ))).collect(),
        ),
        Ok(Event::Text(e)) => XmlEvent::Text(e.unescape().ok().map(|s| s.into_owned())),
        Ok(Event::End(_)) => XmlEvent::End,
        Ok(Event::Eof) | Err(_) => XmlEvent::Stop,
        Ok(_) => XmlEvent::Other,
    }
}

} // verus!
