//! Decoding of raw mail messages into a structured, queryable form.
//!
//! A message is read as UTF-8 text. Its header block is cut into headers,
//! folded lines joined; known headers get typed values. The body is walked
//! line by line: boundary lines separate the parts, and the content of each
//! part is decoded under its transfer encoding. The result holds the headers
//! by key and the first plain-text and HTML bodies.

pub mod codec;
pub mod config;
pub mod encoding;
pub mod error;
pub mod header;
pub mod headers;
pub mod laws;
pub mod limits;
pub mod mail;
pub mod mailbox;
pub mod prompt;
pub mod reader;
pub mod text;

pub use encoding::decode_subject;
pub use error::Error;
pub use header::{ContentTransferEncoding, ContentType, Encoding, HeaderValue};
pub use headers::{Header, HeaderMap, Headers};
pub use limits::{parse_with_limits, Limits};
pub use mail::{parse, parse_headers, subject_of, Body, Mail};
pub use mailbox::Mailbox;
pub use reader::Cursor;
