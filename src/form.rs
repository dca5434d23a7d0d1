//! Fields of a multipart form.

use vstd::prelude::*;

verus! {

/// A field of a `multipart/form-data` request.
#[derive(Debug, Clone)]
pub enum FormField {
    /// A text field.
    Text { name: String, value: String },
    /// A file field.
    File { name: String, filename: String, content: Vec<u8> },
}

impl FormField {
    /// A text field named `name` holding `value`.
    pub fn text(name: &str, value: &str) -> (r: FormField)
        ensures
            match r {
                FormField::Text { name: n, value: v } => n@ == name@ && v@ == value@,
                _ => false,
            },
    {
        FormField::Text { name: name.to_owned(), value: value.to_owned() }
    }

    /// A file field named `name`, for a file called `filename` with these bytes.
    pub fn file_from_bytes(name: &str, filename: &str, content: Vec<u8>) -> (r: FormField)
        ensures
            match r {
                FormField::File { name: n, filename: f, content: c } => n@ == name@ && f@
                    == filename@ && c@ == content@,
                _ => false,
            },
    {
        FormField::File { name: name.to_owned(), filename: filename.to_owned(), content }
    }
}

} // verus!
