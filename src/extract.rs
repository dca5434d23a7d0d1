//! The schema pipeline: flat text or a document container to a schema.

use vstd::prelude::*;
use crate::archive::{Error, ErrorKind, docx_text, extract_text_from_docx, kind_of, zip_accepts};
use crate::lexer::{extract_jinja2_tags, tags_of};
use crate::parser::{parse_jinja2_ast, parse_tags};
use crate::schema::{SchemaValue, Shape, ast_to_json, synth};

verus! {

/// The schema of a text: the placeholders it holds, parsed and merged.
pub open spec fn schema_of(text: Seq<char>) -> Shape {
    Shape::Object(synth(parse_tags(tags_of(text))))
}

/// Lexes, parses and synthesizes the schema of a flat text. This never fails.
pub fn text_to_schema(text: &str) -> (r: SchemaValue)
    ensures
        r.shape() == schema_of(text@),
        r.wf(),
{
    let tags = extract_jinja2_tags(text);
    let ast = parse_jinja2_ast(&tags);
    ast_to_json(&ast)
}

/// Extracts the schema of the template held in a document container.
///
/// Succeeds exactly when the text is read, with the schema of that text;
/// otherwise fails as reading the text failed. In particular bytes that are no
/// archive give `ArchiveFormatError`.
pub fn docx_to_json(bytes: Vec<u8>) -> (r: Result<SchemaValue, Error>)
    ensures
        match docx_text(bytes@) {
            Ok(t) => r is Ok && r->Ok_0.shape() == schema_of(t) && r->Ok_0.wf(),
            Err(k) => r is Err && kind_of(r->Err_0) == k,
        },
        !zip_accepts(bytes@) ==> (r is Err && r->Err_0 is ArchiveFormatError),
{
    match extract_text_from_docx(bytes) {
        Ok(text) => Ok(text_to_schema(text.as_str())),
        Err(e) => Err(e),
    }
}

} // verus!
