//! XML writing, from the `quick_xml` crate: events written through
//! `quick_xml::Writer` with two-space indentation.  Which events are written is
//! stated exactly; the bytes the writer makes of them (line breaks,
//! indentation, attribute escaping) are `quick_xml`'s affair and only named
//! ([`xml_rendered`]).

use vstd::prelude::*;
use quick_xml::events::{BytesDecl, BytesEnd, BytesStart, BytesText, Event};

verus! {

#[verifier::external_type_specification]
#[verifier::external_body]
#[verifier::reject_recursive_types(W)]
pub struct ExXmlWriter<W>(quick_xml::Writer<W>);

/// A character as `quick_xml::escape::escape` writes it.
pub open spec fn qx_escape_char(c: char) -> Seq<char> {
    if c == '<' {
        "&lt;"@
    } else if c == '>' {
        "&gt;"@
    } else if c == '&' {
        "&amp;"@
    } else if c == '\'' {
        "&apos;"@
    } else if c == '"' {
        "&quot;"@
    } else if c == '\r' {
        "&#13;"@
    } else {
        seq![c]
    }
}

/// `quick_xml::escape::escape`: `< > & ' "` and carriage return escaped.
pub open spec fn qx_escape(s: Seq<char>) -> Seq<char>
    decreases s.len(),
{
    if s.len() == 0 {
        Seq::empty()
    } else {
        qx_escape(s.drop_last()) + qx_escape_char(s.last())
    }
}

/// An XML event by its texts: attributes as (key, value) pairs; a text's
/// content as it is written (already escaped).
pub enum XmlEventV {
    Decl,
    Start(Seq<char>, Seq<(Seq<char>, Seq<char>)>),
    Empty(Seq<char>, Seq<(Seq<char>, Seq<char>)>),
    End(Seq<char>),
    Text(Seq<char>),
}

/// An XML event to write: the declaration `<?xml version="1.0"
/// encoding="UTF-8"?>`, a start tag, an empty element, an end tag, or text
/// content that is already escaped.
pub enum XmlEvent {
    Decl,
    Start(String, Vec<(String, String)>),
    Empty(String, Vec<(String, String)>),
    End(String),
    Text(String),
}

/// Attribute pairs by their texts.
pub open spec fn pairs_view(a: Seq<(String, String)>) -> Seq<(Seq<char>, Seq<char>)> {
    a.map_values(|p: (String, String)| (p.0@, p.1@))
}

impl View for XmlEvent {
    type V = XmlEventV;

    open spec fn view(&self) -> XmlEventV {
        match self {
            XmlEvent::Decl => XmlEventV::Decl,
            XmlEvent::Start(n, a) => XmlEventV::Start(n@, pairs_view(a@)),
            XmlEvent::Empty(n, a) => XmlEventV::Empty(n@, pairs_view(a@)),
            XmlEvent::End(n) => XmlEventV::End(n@),
            XmlEvent::Text(t) => XmlEventV::Text(t@),
        }
    }
}

/// The events written so far to a writer, in order.
pub uninterp spec fn xml_written(w: quick_xml::Writer<Vec<u8>>) -> Seq<XmlEventV>;

/// The bytes a writer indenting by two spaces holds after these events: tags
/// with the attribute values escaped, each element on a line of its own,
/// text content kept inline.
pub uninterp spec fn xml_rendered(events: Seq<XmlEventV>) -> Seq<u8>;

/// `quick_xml::Writer::new_with_indent` over a byte vector, indenting by two
/// spaces; nothing written yet.
#[verifier::external_body]
pub(crate) fn xml_writer() -> (w: quick_xml::Writer<Vec<u8>>)
    ensures
        xml_written(w).len() == 0,
{
    quick_xml::Writer::new_with_indent(Vec::new(), b' ', 2)
}

/// `quick_xml::Writer::write_event` (which cannot fail on a byte vector).
#[verifier::external_body]
pub(crate) fn xml_write(w: &mut quick_xml::Writer<Vec<u8>>, ev: &XmlEvent)
    ensures
        xml_written(*final(w)) == xml_written(*old(w)).push(ev@),
{
    let _ = w.write_event(match ev {
        XmlEvent::Decl => Event::Decl(BytesDecl::new("1.0", Some("UTF-8"), None)),
        XmlEvent::Start(n, a) => Event::Start(BytesStart::new(n.as_str()).with_attributes(a.iter().map(|p| (p.0.as_str(), p.1.as_str())))),
        XmlEvent::Empty(n, a) => Event::Empty(BytesStart::new(n.as_str()).with_attributes(a.iter().map(|p| (p.0.as_str(), p.1.as_str())))),
        XmlEvent::End(n) => Event::End(BytesEnd::new(n.as_str())),
        XmlEvent::Text(t) => Event::Text(BytesText::from_escaped(t.as_str())),
    });
}

/// `quick_xml::escape::escape`.
#[verifier::external_body]
pub(crate) fn xml_escape(text: &str) -> (r: String)
    ensures
        r@ == qx_escape(text@),
{
    quick_xml::escape::escape(text).into_owned()
}

/// `quick_xml::Writer::into_inner`: the bytes written.
#[verifier::external_body]
pub(crate) fn xml_finish(w: quick_xml::Writer<Vec<u8>>) -> (r: Vec<u8>)
    ensures
        r@ == xml_rendered(xml_written(w)),
{
    w.into_inner()
}

} // verus!
