//! The ways in which decoding a message can fail.

use vstd::prelude::*;

verus! {

/// Why a message, or a part of one, could not be decoded.
#[derive(Debug, PartialEq, Eq)]
pub enum Error {
    /// The input ended in the middle of a header.
    IoError,
    /// The Base64 content of a part decoded to bytes that are not UTF-8.
    FromUtf8Error,
    /// The raw message, or the payload of an encoded word, is not UTF-8.
    Utf8Error,
    /// A content type that the decoder does not know, by its name.
    UnknownContentType(String),
    /// Base64 content is malformed.
    Base64Error,
    /// A multipart content type names no boundary.
    ExpectingBoundary,
    /// The line at the cursor is no header line.
    NotAHeader,
}

/// The mathematical value of an `Error`.
pub enum ErrorView {
    IoError,
    FromUtf8Error,
    Utf8Error,
    UnknownContentType(Seq<char>),
    Base64Error,
    ExpectingBoundary,
    NotAHeader,
}

impl View for Error {
    type V = ErrorView;

    open spec fn view(&self) -> ErrorView {
        match self {
            Error::IoError => ErrorView::IoError,
            Error::FromUtf8Error => ErrorView::FromUtf8Error,
            Error::Utf8Error => ErrorView::Utf8Error,
            Error::UnknownContentType(name) => ErrorView::UnknownContentType(name@),
            Error::Base64Error => ErrorView::Base64Error,
            Error::ExpectingBoundary => ErrorView::ExpectingBoundary,
            Error::NotAHeader => ErrorView::NotAHeader,
        }
    }
}

impl Clone for Error {
    fn clone(&self) -> (r: Self)
        ensures
            r == *self,
    {
        match self {
            Error::IoError => Error::IoError,
            Error::FromUtf8Error => Error::FromUtf8Error,
            Error::Utf8Error => Error::Utf8Error,
            Error::UnknownContentType(name) => Error::UnknownContentType(name.clone()),
            Error::Base64Error => Error::Base64Error,
            Error::ExpectingBoundary => Error::ExpectingBoundary,
            Error::NotAHeader => Error::NotAHeader,
        }
    }
}

} // verus!
