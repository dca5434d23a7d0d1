//! Template-schema extraction and heading-outline reconstruction for
//! word-processor documents.

pub mod text;
pub mod lexer;
pub mod parser;
pub mod schema;
pub mod headings;
pub mod archive;
pub mod laws;
pub mod extract;
pub mod form;
pub mod response;
pub mod store;
pub mod time_util;
pub mod policy;
pub mod xml;
