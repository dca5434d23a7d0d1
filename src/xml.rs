//! A quick-xml reader over a document, with the number of steps it has taken.

use vstd::prelude::*;
use quick_xml::escape::resolve_predefined_entity;
use quick_xml::events::{BytesRef, Event};
use quick_xml::Reader;
use crate::archive::Error;

verus! {

#[verifier::external_type_specification]
#[verifier::external_body]
#[verifier::reject_recursive_types(R)]
pub struct ExXmlReader<R>(Reader<R>);

/// One step of a quick-xml reader.
pub enum XmlStep {
    /// A text event, decoded.
    Text(Seq<char>),
    /// An entity or character reference: the decoded text between `&` and `;`.
    Reference(Seq<char>),
    /// Any other markup event.
    Markup,
    /// The end of the document.
    End,
    /// The reader reports malformed XML.
    Malformed,
    /// A text or reference that cannot be decoded.
    Undecodable,
}

/// The `k`-th step of the quick-xml reader made by `Reader::from_str(xml)`.
pub uninterp spec fn xml_step(xml: Seq<char>, k: nat) -> XmlStep;

/// A quick-xml reader made by `Reader::from_str` over `source()`, which has
/// taken `index()` steps. Only the functions of this module set its fields.
pub struct XmlCursor<'a> {
    reader: Reader<&'a [u8]>,
    source: Ghost<Seq<char>>,
    index: Ghost<nat>,
}

impl<'a> XmlCursor<'a> {
    /// The document the reader reads.
    pub closed spec fn source(&self) -> Seq<char> {
        self.source@
    }

    /// How many steps the reader has taken.
    pub closed spec fn index(&self) -> nat {
        self.index@
    }
}

/// One event of a reader, as plain values.
pub enum XmlEvent {
    Text(String),
    Reference(String),
    Markup,
    End,
}

/// Relies on `quick_xml::Reader::from_str`: a reader at the start of `xml`.
#[verifier::external_body]
pub fn open_xml<'a>(xml: &'a str) -> (r: XmlCursor<'a>)
    ensures
        r.source() == xml@,
        r.index() == 0,
{
    XmlCursor { reader: Reader::from_str(xml), source: Ghost(xml@), index: Ghost(0) }
}

/// Relies on `quick_xml::Reader::read_event` and on `decode` of the text and
/// reference events: the next step of the reader.
#[verifier::external_body]
pub fn next_event<'a>(c: &mut XmlCursor<'a>) -> (r: Result<XmlEvent, Error>)
    ensures
        final(c).source() == old(c).source(),
        final(c).index() == old(c).index() + 1,
        match xml_step(old(c).source(), old(c).index()) {
            XmlStep::Text(t) => r is Ok && r->Ok_0 is Text && r->Ok_0->Text_0@ == t,
            XmlStep::Reference(n) => r is Ok && r->Ok_0 is Reference && r->Ok_0->Reference_0@ == n,
            XmlStep::Markup => r is Ok && r->Ok_0 is Markup,
            XmlStep::End => r is Ok && r->Ok_0 is End,
            XmlStep::Malformed => r is Err && r->Err_0 is XmlParseError,
            XmlStep::Undecodable => r is Err && r->Err_0 is EncodingError,
        },
{
    c.index = Ghost((c.index@ + 1) as nat);
    let undecodable = |e: quick_xml::encoding::EncodingError| Error::EncodingError(e.to_string());
    match c.reader.read_event().map_err(|e| Error::XmlParseError(e.to_string()))? {
        Event::Text(e) => e.decode().map(|t| XmlEvent::Text(t.into_owned())).map_err(undecodable),
        Event::GeneralRef(e) => e.decode().map(|t| XmlEvent::Reference(t.into_owned())).map_err(undecodable),
        Event::Eof => Ok(XmlEvent::End),
        _ => Ok(XmlEvent::Markup),
    }
}

/// The character a character reference `#…` names, as quick-xml reads it.
pub uninterp spec fn char_ref_value(name: Seq<char>) -> Option<char>;

/// Relies on `BytesRef::resolve_char_ref`: the character named by a reference
/// `#<decimal>` or `#x<hex>`; a name without `#` names none.
#[verifier::external_body]
pub fn char_ref(name: &str) -> (r: Option<char>)
    ensures
        r == char_ref_value(name@),
        !(name@.len() > 0 && name@[0] == '#') ==> r is None,
{
    BytesRef::new(name).resolve_char_ref().ok().flatten()
}

/// The five entities XML predefines.
pub open spec fn predefined_text(name: Seq<char>) -> Option<Seq<char>> {
    if name == "lt"@ {
        Some("<"@)
    } else if name == "gt"@ {
        Some(">"@)
    } else if name == "amp"@ {
        Some("&"@)
    } else if name == "apos"@ {
        Some("'"@)
    } else if name == "quot"@ {
        Some("\""@)
    } else {
        None
    }
}

/// Relies on `quick_xml::escape::resolve_predefined_entity`, without the
/// `escape-html` feature: exactly the five predefined entities.
#[verifier::external_body]
pub fn predefined_entity(name: &str) -> (r: Option<&'static str>)
    ensures
        match predefined_text(name@) {
            Some(t) => r is Some && r->0@ == t,
            None => r is None,
        },
{
    resolve_predefined_entity(name)
}

} // verus!
