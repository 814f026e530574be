//! Header values: the typed meaning of a header's raw key and value.

use vstd::prelude::*;
use crate::codec::{chars_of, string_of};
use crate::error::{Error, ErrorView};
use crate::text::{eq, eq_ignore_case, pieces, same_ignoring_case, split, trim, trimmed, views};

verus! {

/// How the content of a body part is encoded for transfer.
#[derive(Debug, Clone, Copy, PartialEq, Eq, Structural)]
pub enum Encoding {
    /// Quoted-printable, and every encoding that is not Base64: the content
    /// is taken as it stands.
    QuotedPrintable,
    /// Base64.
    Base64,
}

/// The transfer encoding of a part, under the name of the header that
/// declares it.
pub type ContentTransferEncoding = Encoding;

/// The content types that the decoder knows.
#[derive(Debug, PartialEq, Eq)]
pub enum ContentType {
    /// Plain text.
    TextPlain,
    /// HTML.
    TextHtml,
    /// A container of parts. The string is the line that separates them:
    /// two hyphens and the `boundary` parameter.
    MultipartAlternative(String),
}

/// The mathematical value of a `ContentType`.
pub enum ContentTypeView {
    TextPlain,
    TextHtml,
    MultipartAlternative(Seq<char>),
}

impl View for ContentType {
    type V = ContentTypeView;

    open spec fn view(&self) -> ContentTypeView {
        match self {
            ContentType::TextPlain => ContentTypeView::TextPlain,
            ContentType::TextHtml => ContentTypeView::TextHtml,
            ContentType::MultipartAlternative(b) => ContentTypeView::MultipartAlternative(b@),
        }
    }
}

impl Clone for ContentType {
    fn clone(&self) -> (r: Self)
        ensures
            r == *self,
    {
        match self {
            ContentType::TextPlain => ContentType::TextPlain,
            ContentType::TextHtml => ContentType::TextHtml,
            ContentType::MultipartAlternative(b) => ContentType::MultipartAlternative(b.clone()),
        }
    }
}

/// The value of a header.
#[derive(Debug, PartialEq, Eq)]
pub enum HeaderValue {
    /// The value of a `Content-Type` header.
    ContentType(ContentType),
    /// The value of a `Content-Transfer-Encoding` header.
    ContentTransferEncoding(Encoding),
    /// The value of any other header, as it was written.
    Unknown(String),
}

/// The mathematical value of a `HeaderValue`.
pub enum HeaderValueView {
    ContentType(ContentTypeView),
    ContentTransferEncoding(Encoding),
    Unknown(Seq<char>),
}

impl View for HeaderValue {
    type V = HeaderValueView;

    open spec fn view(&self) -> HeaderValueView {
        match self {
            HeaderValue::ContentType(t) => HeaderValueView::ContentType(t@),
            HeaderValue::ContentTransferEncoding(e) => HeaderValueView::ContentTransferEncoding(*e),
            HeaderValue::Unknown(s) => HeaderValueView::Unknown(s@),
        }
    }
}

impl Clone for HeaderValue {
    fn clone(&self) -> (r: Self)
        ensures
            r == *self,
    {
        match self {
            HeaderValue::ContentType(t) => HeaderValue::ContentType(t.clone()),
            HeaderValue::ContentTransferEncoding(e) => HeaderValue::ContentTransferEncoding(*e),
            HeaderValue::Unknown(s) => HeaderValue::Unknown(s.clone()),
        }
    }
}

/// The views of an outcome and of its error.
pub open spec fn outcome<T: View, E: View>(r: Result<T, E>) -> Result<T::V, E::V> {
    match r {
        Ok(t) => Ok(t@),
        Err(e) => Err(e@),
    }
}

/// The line that separates the parts of a multipart body whose `boundary`
/// parameter is `boundary`: two hyphens, then the parameter.
pub open spec fn delimiter(boundary: Seq<char>) -> Seq<char> {
    seq!['-', '-'] + boundary
}

/// Puts the two hyphens in front of a boundary parameter.
pub fn parse_boundary(boundary: &[char]) -> (r: String)
    ensures
        r@ == delimiter(boundary@),
{
    let mut line: Vec<char> = Vec::new();
    line.push('-');
    line.push('-');
    let mut i: usize = 0;
    while i < boundary.len()
        invariant
            i <= boundary.len(),
            line@ == delimiter(boundary@.take(i as int)),
        decreases boundary.len() - i,
    {
        line.push(boundary[i]);
        assert(boundary@.take(i + 1) =~= boundary@.take(i as int).push(boundary[i as int]));
        i += 1;
    }
    assert(boundary@.take(boundary.len() as int) =~= boundary@);
    string_of(line.as_slice())
}

/// The transfer encoding that a `Content-Transfer-Encoding` value names:
/// Base64 where the value, trimmed, reads `base64` in any case of letters,
/// else quoted-printable.
pub open spec fn transfer_encoding(value: Seq<char>) -> Encoding {
    if same_ignoring_case(trimmed(value), "base64"@) {
        Encoding::Base64
    } else {
        Encoding::QuotedPrintable
    }
}

/// Reads the value of a `Content-Transfer-Encoding` header.
pub fn parse_content_transfer_encoding(value: &[char]) -> (r: Encoding)
    ensures
        r == transfer_encoding(value@),
{
    let name = chars_of("base64");
    if eq_ignore_case(trim(value), name.as_slice()) {
        Encoding::Base64
    } else {
        Encoding::QuotedPrintable
    }
}

/// The boundary that one `;`-segment of a content type gives: where the
/// segment, cut at its double quotes, begins with `boundary=`, the text
/// between the first two quotes, trimmed.
pub open spec fn boundary_parameter(segment: Seq<char>) -> Option<Seq<char>> {
    let parts = pieces(segment, '"');
    if parts.len() >= 2 && trimmed(parts[0]) == "boundary="@ {
        Some(trimmed(parts[1]))
    } else {
        None
    }
}

/// The boundary that a run of segments gives: that of the last segment
/// that gives one.
pub open spec fn boundary_among(segments: Seq<Seq<char>>) -> Option<Seq<char>>
    decreases segments.len(),
{
    if segments.len() == 0 {
        None
    } else {
        match boundary_parameter(segments.last()) {
            Some(b) => Some(b),
            None => boundary_among(segments.drop_last()),
        }
    }
}

/// The content type that a `Content-Type` value names. The value is cut at
/// its semicolons; the first segment, trimmed, is the name of the type, and a
/// multipart type takes its boundary from the segments after it.
pub open spec fn content_type_of(value: Seq<char>) -> Result<ContentTypeView, ErrorView> {
    let segments = pieces(value, ';');
    let name = trimmed(segments[0]);
    if name == "multipart/alternative"@ || name == "multipart/mixed"@ {
        match boundary_among(segments.skip(1)) {
            Some(b) => Ok(ContentTypeView::MultipartAlternative(delimiter(b))),
            None => Err(ErrorView::ExpectingBoundary),
        }
    } else if name == "text/plain"@ {
        Ok(ContentTypeView::TextPlain)
    } else if name == "text/html"@ {
        Ok(ContentTypeView::TextHtml)
    } else {
        Err(ErrorView::UnknownContentType(name))
    }
}

/// The typed value of the header with key `key` and raw value `value`. Keys
/// are compared without regard to the case of ASCII letters.
pub open spec fn header_value(key: Seq<char>, value: Seq<char>) -> Result<
    HeaderValueView,
    ErrorView,
> {
    if same_ignoring_case(key, "Content-Type"@) {
        match content_type_of(value) {
            Ok(t) => Ok(HeaderValueView::ContentType(t)),
            Err(e) => Err(e),
        }
    } else if same_ignoring_case(key, "Content-Transfer-Encoding"@) {
        Ok(HeaderValueView::ContentTransferEncoding(transfer_encoding(value)))
    } else {
        Ok(HeaderValueView::Unknown(value))
    }
}

/// Compares a character slice with a string.
pub fn eq_str(a: &[char], b: &str) -> (r: bool)
    ensures
        r == (a@ == b@),
{
    let other = chars_of(b);
    eq(a, other.as_slice())
}

/// Compares a character slice with a string, without regard to the case of
/// ASCII letters.
pub fn eq_str_ignore_case(a: &[char], b: &str) -> (r: bool)
    ensures
        r == same_ignoring_case(a@, b@),
{
    let other = chars_of(b);
    eq_ignore_case(a, other.as_slice())
}

/// Reads one `;`-segment of a content type for a boundary.
fn parse_boundary_parameter<'a>(segment: &'a [char]) -> (r: Option<&'a [char]>)
    ensures
        match r {
            Some(b) => boundary_parameter(segment@) == Some(b@),
            None => boundary_parameter(segment@) is None,
        },
{
    let parts = split(segment, '"');
    if parts.len() >= 2 && eq_str(trim(parts[0]), "boundary=") {
        assert(views(parts@)[0] == parts[0]@);
        assert(views(parts@)[1] == parts[1]@);
        Some(trim(parts[1]))
    } else {
        assert(views(parts@)[0] == parts[0]@);
        None
    }
}

/// Reads the value of a `Content-Type` header.
pub fn parse_content_type(value: &[char]) -> (r: Result<ContentType, Error>)
    ensures
        outcome(r) == content_type_of(value@),
{
    let segments = split(value, ';');
    assert(views(segments@)[0] == segments[0]@);
    let name = trim(segments[0]);
    if eq_str(name, "multipart/alternative") || eq_str(name, "multipart/mixed") {
        let mut found: Option<&[char]> = None;
        let mut i: usize = 1;
        assert(views(segments@).subrange(1, 1) =~= Seq::<Seq<char>>::empty());
        while i < segments.len()
            invariant
                1 <= i <= segments.len(),
                match found {
                    Some(b) => boundary_among(views(segments@).subrange(1, i as int)) == Some(b@),
                    None => boundary_among(views(segments@).subrange(1, i as int)) is None,
                },
            decreases segments.len() - i,
        {
            proof {
                let upto = views(segments@).subrange(1, i + 1);
                assert(upto.last() == segments[i as int]@);
                assert(upto.drop_last() =~= views(segments@).subrange(1, i as int));
            }
            match parse_boundary_parameter(segments[i]) {
                Some(b) => {
                    found = Some(b);
                },
                None => {},
            }
            i += 1;
        }
        assert(views(segments@).subrange(1, segments.len() as int) =~= views(segments@).skip(1));
        match found {
            Some(b) => Ok(ContentType::MultipartAlternative(parse_boundary(b))),
            None => Err(Error::ExpectingBoundary),
        }
    } else if eq_str(name, "text/plain") {
        Ok(ContentType::TextPlain)
    } else if eq_str(name, "text/html") {
        Ok(ContentType::TextHtml)
    } else {
        Err(Error::UnknownContentType(string_of(name)))
    }
}

impl HeaderValue {
    /// Interprets the raw value of the header with key `key`.
    pub fn from_chars(key: &[char], value: &[char]) -> (r: Result<HeaderValue, Error>)
        ensures
            outcome(r) == header_value(key@, value@),
    {
        if eq_str_ignore_case(key, "Content-Type") {
            match parse_content_type(value) {
                Ok(t) => Ok(HeaderValue::ContentType(t)),
                Err(e) => Err(e),
            }
        } else if eq_str_ignore_case(key, "Content-Transfer-Encoding") {
            Ok(HeaderValue::ContentTransferEncoding(parse_content_transfer_encoding(value)))
        } else {
            Ok(HeaderValue::Unknown(string_of(value)))
        }
    }

    /// Interprets the raw value of the header with key `key`.
    ///
    /// A `Content-Type` value fails with `UnknownContentType` where it names
    /// a type that the decoder does not know, and with `ExpectingBoundary`
    /// where it names a multipart type without a boundary. Every other value
    /// is accepted.
    pub fn from_str(key: &str, value: &str) -> (r: Result<HeaderValue, Error>)
        ensures
            outcome(r) == header_value(key@, value@),
    {
        let key_chars = chars_of(key);
        let value_chars = chars_of(value);
        HeaderValue::from_chars(key_chars.as_slice(), value_chars.as_slice())
    }
}

} // verus!
