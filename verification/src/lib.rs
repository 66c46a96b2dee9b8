//! Building blocks of Gemini responses: gemtext documents whose lines are
//! escaped so that every item renders as the line kind it was meant to be,
//! and response headers whose status and meta line obey the protocol limits.

pub mod document;
pub mod response_header;
pub mod text;

pub use document::Document;
pub use response_header::{Mime, ResponseHeader};
