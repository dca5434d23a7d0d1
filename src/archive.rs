//! Reads the flat text of a document container: a zip archive whose main
//! markup entry is an XML document.

use vstd::prelude::*;
use vstd::utf8::{decode_utf8, valid_utf8};
use std::io::Cursor;
use std::io::Read;
use zip::ZipArchive;
use crate::xml::{
    XmlEvent, XmlStep, char_ref, char_ref_value, next_event, open_xml, predefined_entity,
    predefined_text, xml_step,
};

verus! {

/// Why the text of a document could not be read.
#[derive(Debug, Clone)]
pub enum Error {
    /// The input could not be read.
    IoFailure(String),
    /// The input is no zip archive, or it lacks the markup entry, or the entry
    /// does not decompress.
    ArchiveFormatError(String),
    /// The markup is not well-formed XML.
    XmlParseError(String),
    /// The markup is not UTF-8, or a text run could not be decoded.
    EncodingError(String),
}

/// The kind of an `Error`.
pub enum ErrorKind {
    Io,
    Archive,
    Xml,
    Encoding,
}

pub open spec fn kind_of(e: Error) -> ErrorKind {
    match e {
        Error::IoFailure(_) => ErrorKind::Io,
        Error::ArchiveFormatError(_) => ErrorKind::Archive,
        Error::XmlParseError(_) => ErrorKind::Xml,
        Error::EncodingError(_) => ErrorKind::Encoding,
    }
}

/// The value of a text result: the text, or the kind of the error.
pub open spec fn text_result(r: Result<String, Error>) -> Result<Seq<char>, ErrorKind> {
    match r {
        Ok(t) => Ok(t@),
        Err(e) => Err(kind_of(e)),
    }
}

/// Whether `zip::ZipArchive::new` accepts these bytes as an archive.
pub uninterp spec fn zip_accepts(b: Seq<u8>) -> bool;

/// The decompressed bytes of the entry `name` of the archive held in `b`:
/// `None` when zip cannot open the archive, finds no such entry, or cannot
/// read the entry to its end (a failed checksum or inflation).
pub uninterp spec fn entry_bytes(b: Seq<u8>, name: Seq<char>) -> Option<Seq<u8>>;

/// Relies on `zip::ZipArchive::new`, `ZipArchive::by_name` and the `Read` impl
/// of the entry it returns: the whole entry, decompressed and checked.
#[verifier::external_body]
fn read_entry(bytes: &Vec<u8>, name: &str) -> (r: Result<Vec<u8>, Error>)
    ensures
        !zip_accepts(bytes@) ==> r is Err,
        match entry_bytes(bytes@, name@) {
            Some(b) => r is Ok && r->Ok_0@ == b,
            None => r is Err && r->Err_0 is ArchiveFormatError,
        },
{
    let mut archive = ZipArchive::new(Cursor::new(bytes.as_slice()))
        .map_err(|e| Error::ArchiveFormatError(e.to_string()))?;
    let mut entry = archive.by_name(name).map_err(|e| Error::ArchiveFormatError(e.to_string()))?;
    let mut data = Vec::new();
    entry.read_to_end(&mut data).map_err(|e| Error::ArchiveFormatError(e.to_string()))?;
    Ok(data)
}

/// Relies on `String::from_utf8`, which accepts exactly the valid UTF-8 byte
/// sequences and decodes them.
#[verifier::external_body]
fn utf8_text(b: Vec<u8>) -> (r: Option<String>)
    ensures
        r is Some <==> valid_utf8(b@),
        r is Some ==> r->0@ == decode_utf8(b@),
{
    String::from_utf8(b).ok()
}

/// One event of the markup, as far as text extraction cares.
#[derive(Debug)]
pub enum Run {
    /// Decoded text.
    Text(String),
    /// Any other markup event.
    Markup,
    /// The end of the document.
    End,
}

/// The text an entity or character reference stands for: the character of a
/// `#` reference, or one of the predefined entities; `None` for anything else.
pub open spec fn ref_text(name: Seq<char>) -> Option<Seq<char>> {
    if name.len() > 0 && name[0] == '#' {
        match char_ref_value(name) {
            Some(c) => Some(seq![c]),
            None => None,
        }
    } else {
        predefined_text(name)
    }
}

/// Executable `ref_text`.
pub fn reference_text(name: &str) -> (r: Option<String>)
    ensures
        match ref_text(name@) {
            Some(t) => r is Some && r->0@ == t,
            None => r is None,
        },
{
    if name.unicode_len() > 0 && name.get_char(0) == '#' {
        match char_ref(name) {
            Some(c) => {
                let mut s = String::new();
                s.push(c);
                proof {
                    assert(s@ =~= seq![c]);
                }
                Some(s)
            },
            None => None,
        }
    } else {
        match predefined_entity(name) {
            Some(t) => Some(String::from_str(t)),
            None => None,
        }
    }
}

/// Takes one event into the text read so far: a text run is appended, other
/// markup adds nothing. Returns whether the document goes on.
pub fn take_run(text: &mut String, run: Run) -> (more: bool)
    ensures
        final(text)@ == old(text)@ + match run {
            Run::Text(t) => t@,
            _ => Seq::empty(),
        },
        more == !(run is End),
{
    match run {
        Run::Text(t) => {
            text.append(t.as_str());
            true
        },
        Run::Markup => {
            proof {
                assert(old(text)@ + Seq::<char>::empty() =~= old(text)@);
            }
            true
        },
        Run::End => {
            proof {
                assert(old(text)@ + Seq::<char>::empty() =~= old(text)@);
            }
            false
        },
    }
}

/// `p` before the text of `r`, or the error of `r`.
pub open spec fn prefixed(p: Seq<char>, r: Result<Seq<char>, ErrorKind>) -> Result<Seq<char>, ErrorKind> {
    match r {
        Ok(s) => Ok(p + s),
        Err(e) => Err(e),
    }
}

/// The text of the runs from step `k` on (references replaced by their text), with at most `fuel` more steps
/// before the end; running out is reported as malformed XML.
pub open spec fn scan(xml: Seq<char>, k: nat, fuel: nat) -> Result<Seq<char>, ErrorKind>
    decreases fuel,
{
    match xml_step(xml, k) {
        XmlStep::End => Ok(Seq::empty()),
        XmlStep::Malformed => Err(ErrorKind::Xml),
        XmlStep::Undecodable => Err(ErrorKind::Encoding),
        XmlStep::Text(t) => if fuel == 0 {
            Err(ErrorKind::Xml)
        } else {
            prefixed(t, scan(xml, k + 1, (fuel - 1) as nat))
        },
        XmlStep::Reference(n) => match ref_text(n) {
            None => Err(ErrorKind::Encoding),
            Some(t) => if fuel == 0 {
                Err(ErrorKind::Xml)
            } else {
                prefixed(t, scan(xml, k + 1, (fuel - 1) as nat))
            },
        },
        XmlStep::Markup => if fuel == 0 {
            Err(ErrorKind::Xml)
        } else {
            scan(xml, k + 1, (fuel - 1) as nat)
        },
    }
}

/// The text of an XML document: its runs concatenated in order, markup
/// discarded. Each step of a reader consumes at least one character of the
/// markup, so a document reaches its end within one step per character.
pub open spec fn markup_result(xml: Seq<char>) -> Result<Seq<char>, ErrorKind> {
    scan(xml, 0, xml.len())
}

/// Concatenates the text runs of an XML document, discarding all markup, as
/// `markup_result` states.
pub fn markup_text(xml: &str) -> (r: Result<String, Error>)
    ensures
        text_result(r) == markup_result(xml@),
{
    let mut c = open_xml(xml);
    let mut text = String::new();
    let mut budget: usize = xml.unicode_len();
    proof {
        assert(text@ + Seq::<char>::empty() =~= text@);
        assert(forall|s: Seq<char>| Seq::<char>::empty() + s =~= s);
        assert(prefixed(text@, markup_result(xml@)) == markup_result(xml@));
    }
    loop
        invariant
            c.source() == xml@,
            markup_result(xml@) == prefixed(text@, scan(xml@, c.index(), budget as nat)),
        decreases budget,
    {
        let ghost t0 = text@;
        let ghost k = c.index();
        let step = match next_event(&mut c) {
            Err(e) => return Err(e),
            Ok(XmlEvent::Text(t)) => Ok(Run::Text(t)),
            Ok(XmlEvent::Reference(n)) => match reference_text(n.as_str()) {
                Some(t) => Ok(Run::Text(t)),
                None => Err(Error::EncodingError(String::from_str("unknown reference"))),
            },
            Ok(XmlEvent::Markup) => Ok(Run::Markup),
            Ok(XmlEvent::End) => Ok(Run::End),
        };
        match step {
            Err(e) => return Err(e),
            Ok(run) => {
                let ghost piece = if run is Text {
                    run->Text_0@
                } else {
                    Seq::<char>::empty()
                };
                if !take_run(&mut text, run) {
                    proof {
                        assert(t0 + Seq::<char>::empty() =~= t0);
                    }
                    return Ok(text);
                }
                if budget == 0 {
                    return Err(Error::XmlParseError(String::from_str("the reader did not reach the end")));
                }
                proof {
                    match scan(xml@, k + 1, (budget - 1) as nat) {
                        Ok(s) => {
                            assert(t0 + (piece + s) =~= (t0 + piece) + s);
                        },
                        Err(_) => {},
                    }
                    if piece.len() == 0 {
                        assert(t0 + piece =~= t0);
                    }
                }
                budget = budget - 1;
            },
        }
    }
}

/// What reading the flat text of a document container gives.
pub open spec fn docx_text(b: Seq<u8>) -> Result<Seq<char>, ErrorKind> {
    match entry_bytes(b, "word/document.xml"@) {
        None => Err(ErrorKind::Archive),
        Some(m) => if valid_utf8(m) {
            markup_result(decode_utf8(m))
        } else {
            Err(ErrorKind::Encoding)
        },
    }
}

/// Reads the flat text of a document container: the entry `word/document.xml`
/// of the zip archive in `bytes`, decoded as UTF-8, with its text runs
/// concatenated in document order. Bytes that are no archive, or an archive
/// without that entry, give `ArchiveFormatError`.
pub fn extract_text_from_docx(bytes: Vec<u8>) -> (r: Result<String, Error>)
    ensures
        text_result(r) == docx_text(bytes@),
        !zip_accepts(bytes@) ==> (r is Err && r->Err_0 is ArchiveFormatError),
{
    let raw = match read_entry(&bytes, "word/document.xml") {
        Ok(b) => b,
        Err(e) => return Err(e),
    };
    match utf8_text(raw) {
        Some(xml) => markup_text(xml.as_str()),
        None => Err(Error::EncodingError(String::from_str("the markup is not UTF-8"))),
    }
}

} // verus!
