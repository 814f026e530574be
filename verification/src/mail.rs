//! Whole messages: the walk over the parts of a body, and the assembly of
//! the result.

use vstd::prelude::*;
use vstd::slice::slice_subrange;
use crate::codec::{chars_of, decode_text, string_of, utf8_text};
use crate::encoding::{decode_chars, decoded};
use crate::error::{Error, ErrorView};
use crate::header::{ContentType, ContentTypeView, Encoding, HeaderValueView};
use crate::headers::{
    as_boundary,
    as_content_type,
    as_encoding,
    as_text,
    folded,
    lookup,
    value_under,
    HeaderMap,
    HeaderView,
    Headers,
};
use crate::reader::{headers_at, lemma_headers_at_leaves_suffix, read_headers, Cursor};
use crate::text::{
    after_line,
    append,
    first_line,
    lemma_line_len,
    line_length,
    starts_with,
    trim,
    trimmed,
};

verus! {

/// The decoded content of one part of a message, with the content type
/// that the part declares.
#[derive(Debug, PartialEq, Eq)]
pub struct Body {
    /// The content type of the part.
    pub content_type: ContentType,
    /// The content of the part, decoded.
    pub content: String,
}

/// The mathematical value of a `Body`.
pub struct BodyView {
    pub content_type: ContentTypeView,
    pub content: Seq<char>,
}

impl View for Body {
    type V = BodyView;

    open spec fn view(&self) -> BodyView {
        BodyView { content_type: self.content_type@, content: self.content@ }
    }
}

/// The views of a sequence of bodies.
pub open spec fn body_views(bodies: Seq<Body>) -> Seq<BodyView> {
    bodies.map_values(|b: Body| b@)
}

/// The part that a walk is reading: what its headers declared, and the
/// lines of its content read so far.
#[derive(Debug)]
pub struct Part {
    /// The line that separates parts, where one was declared.
    pub boundary: Option<Vec<char>>,
    /// The transfer encoding of the part.
    pub encoding: Encoding,
    /// The content type of the part, where it declares one.
    pub content_type: Option<ContentType>,
    /// The content read so far, not yet decoded.
    pub buffer: Vec<char>,
}

/// The mathematical value of a `Part`.
pub struct PartView {
    pub boundary: Option<Seq<char>>,
    pub encoding: Encoding,
    pub content_type: Option<ContentTypeView>,
    pub buffer: Seq<char>,
}

impl View for Part {
    type V = PartView;

    open spec fn view(&self) -> PartView {
        PartView {
            boundary: match self.boundary {
                Some(b) => Some(b@),
                None => None,
            },
            encoding: self.encoding,
            content_type: match self.content_type {
                Some(t) => Some(t@),
                None => None,
            },
            buffer: self.buffer@,
        }
    }
}

/// The part that the header block `headers` opens, in a walk whose boundary
/// was `boundary`. A multipart content type sets a new boundary; any other
/// leaves the old one. A part without a transfer encoding is taken as
/// quoted-printable.
pub open spec fn opened(headers: Seq<HeaderView>, boundary: Option<Seq<char>>) -> PartView {
    PartView {
        boundary: match as_boundary(lookup(headers, "Content-Type"@)) {
            Some(b) => Some(b),
            None => boundary,
        },
        encoding: match as_encoding(lookup(headers, "Content-Transfer-Encoding"@)) {
            Some(e) => e,
            None => Encoding::QuotedPrintable,
        },
        content_type: as_content_type(lookup(headers, "Content-Type"@)),
        buffer: Seq::empty(),
    }
}

/// What a line adds to the content of a part: the line as it stands, or,
/// under Base64, the line trimmed.
pub open spec fn contribution(encoding: Encoding, line: Seq<char>) -> Seq<char> {
    match encoding {
        Encoding::Base64 => trimmed(line),
        Encoding::QuotedPrintable => line,
    }
}

/// `part` with one more line of content.
pub open spec fn grown(part: PartView, line: Seq<char>) -> PartView {
    PartView {
        boundary: part.boundary,
        encoding: part.encoding,
        content_type: part.content_type,
        buffer: part.buffer + contribution(part.encoding, line),
    }
}

/// `bodies` with the body of `part` behind them: the part's content,
/// decoded, where the part declares a content type and its content
/// decodes. A part whose content does not decode is left out.
pub open spec fn collected(part: PartView, bodies: Seq<BodyView>) -> Seq<BodyView> {
    match part.content_type {
        Some(t) => match decoded(part.encoding, part.buffer) {
            Ok(text) => bodies.push(BodyView { content_type: t, content: text }),
            Err(_) => bodies,
        },
        None => bodies,
    }
}

/// Whether `line` separates parts: a boundary is set, and the line begins
/// with it, both trimmed.
pub open spec fn separates(part: PartView, line: Seq<char>) -> bool {
    match part.boundary {
        Some(b) => trimmed(b).is_prefix_of(trimmed(line)),
        None => false,
    }
}

/// The bodies that a walk over `rest` gives, begun in `part` with `bodies`
/// already found.
///
/// Each line either separates parts or belongs to the part being read. At a
/// separator the part is closed and the header block behind the separator
/// opens the next one. At the end of the text the last part is closed.
#[verifier::opaque]
pub open spec fn walked(rest: Seq<char>, part: PartView, bodies: Seq<BodyView>) -> Result<
    Seq<BodyView>,
    ErrorView,
>
    decreases rest.len(),
{
    if rest.len() == 0 {
        Ok(collected(part, bodies))
    } else if separates(part, first_line(rest)) {
        match headers_at(after_line(rest)) {
            Err(e) => Err(e),
            Ok((headers, left)) => {
                proof {
                    lemma_line_len(rest);
                    lemma_headers_at_leaves_suffix(after_line(rest));
                }
                walked(left, opened(headers, part.boundary), collected(part, bodies))
            },
        }
    } else {
        proof {
            lemma_line_len(rest);
        }
        walked(after_line(rest), grown(part, first_line(rest)), bodies)
    }
}

/// The content of the first of `bodies` that has content type `t`.
pub open spec fn first_of(bodies: Seq<BodyView>, t: ContentTypeView) -> Option<Seq<char>>
    decreases bodies.len(),
{
    if bodies.len() == 0 {
        None
    } else if bodies[0].content_type == t {
        Some(bodies[0].content)
    } else {
        first_of(bodies.drop_first(), t)
    }
}

/// The mathematical value of a `Mail`.
pub struct MailView {
    pub headers: Map<Seq<char>, HeaderValueView>,
    pub plain: Option<Seq<char>>,
    pub html: Option<Seq<char>>,
}

/// The message that `text` holds: its headers folded into a mapping, and
/// the first plain-text and the first HTML body that the walk over what
/// follows the headers gives.
pub open spec fn mail_of(text: Seq<char>) -> Result<MailView, ErrorView> {
    match headers_at(text) {
        Err(e) => Err(e),
        Ok((headers, rest)) => match walked(rest, opened(headers, None), Seq::empty()) {
            Err(e) => Err(e),
            Ok(bodies) => Ok(
                MailView {
                    headers: folded(headers),
                    plain: first_of(bodies, ContentTypeView::TextPlain),
                    html: first_of(bodies, ContentTypeView::TextHtml),
                },
            ),
        },
    }
}

/// The message that `bytes` hold: that of their text, where they are UTF-8.
pub open spec fn parsed(bytes: Seq<u8>) -> Result<MailView, ErrorView> {
    match utf8_text(bytes) {
        None => Err(ErrorView::Utf8Error),
        Some(text) => mail_of(text),
    }
}

/// The headers at the start of the message that `bytes` hold.
pub open spec fn parsed_headers(bytes: Seq<u8>) -> Result<Seq<HeaderView>, ErrorView> {
    match utf8_text(bytes) {
        None => Err(ErrorView::Utf8Error),
        Some(text) => match headers_at(text) {
            Err(e) => Err(e),
            Ok((headers, _)) => Ok(headers),
        },
    }
}

/// Opens the part that the header block `headers` declares.
pub fn open_part(headers: &Headers, boundary: Option<Vec<char>>) -> (r: Part)
    ensures
        r@ == opened(
            headers@,
            match boundary {
                Some(b) => Some(b@),
                None => None,
            },
        ),
{
    let boundary = match headers.boundary() {
        Some(b) => Some(chars_of(b.as_str())),
        None => boundary,
    };
    let encoding = match headers.content_transfer_encoding() {
        Some(e) => e,
        None => Encoding::QuotedPrintable,
    };
    let content_type = match headers.content_type() {
        Some(t) => Some(t.clone()),
        None => None,
    };
    Part { boundary, encoding, content_type, buffer: Vec::new() }
}

/// Closes `part`: decodes its content and puts the body behind `bodies`.
pub fn close_part(part: Part, bodies: &mut Vec<Body>)
    ensures
        body_views(final(bodies)@) == collected(part@, body_views(old(bodies)@)),
{
    match part.content_type {
        Some(content_type) => match decode_chars(part.encoding, part.buffer.as_slice()) {
            Ok(text) => {
                let body = Body { content_type, content: string_of(text.as_slice()) };
                proof {
                    assert(body_views(bodies@.push(body)) =~= body_views(bodies@).push(body@));
                }
                bodies.push(body);
            },
            Err(_) => {},
        },
        None => {},
    }
}

/// Whether `line` separates parts in the walk that is reading `part`.
pub fn is_separator(part: &Part, line: &[char]) -> (b: bool)
    ensures
        b == separates(part@, line@),
{
    match &part.boundary {
        Some(boundary) => starts_with(trim(line), trim(boundary.as_slice())),
        None => false,
    }
}

/// Adds `line` to the content of `part`.
pub fn grow_part(part: &mut Part, line: &[char])
    ensures
        final(part)@ == grown(old(part)@, line@),
{
    match part.encoding {
        Encoding::Base64 => append(&mut part.buffer, trim(line)),
        Encoding::QuotedPrintable => append(&mut part.buffer, line),
    }
}

proof fn lemma_walked_step(rest: Seq<char>, n: int, part: PartView, bodies: Seq<BodyView>)
    requires
        0 <= n < rest.len(),
    ensures
        0 < crate::text::line_len(rest.skip(n)) <= rest.len() - n,
        walked(rest.skip(n), part, bodies) == if separates(part, first_line(rest.skip(n))) {
            match headers_at(rest.skip(n + crate::text::line_len(rest.skip(n)))) {
                Err(e) => Err(e),
                Ok((headers, left)) => walked(
                    left,
                    opened(headers, part.boundary),
                    collected(part, bodies),
                ),
            }
        } else {
            walked(
                rest.skip(n + crate::text::line_len(rest.skip(n))),
                grown(part, first_line(rest.skip(n))),
                bodies,
            )
        },
{
    reveal(walked);
    let tail = rest.skip(n);
    lemma_line_len(tail);
    assert(after_line(tail) =~= rest.skip(n + crate::text::line_len(tail)));
}

/// Walks over the body of a message: reads `rest` line by line, begun in
/// `part`, and returns the bodies of the parts in the order in which they
/// end.
///
/// It fails where a header block behind a separator is refused.
pub fn walk(rest: &[char], first: Part) -> (r: Result<Vec<Body>, Error>)
    ensures
        match r {
            Ok(bodies) => walked(rest@, first@, Seq::empty()) == Ok::<Seq<BodyView>, ErrorView>(
                body_views(bodies@),
            ),
            Err(e) => walked(rest@, first@, Seq::empty()) == Err::<Seq<BodyView>, ErrorView>(e@),
        },
{
    let ghost begun = first@;
    let mut part = first;
    let mut bodies: Vec<Body> = Vec::new();
    let mut n: usize = 0;
    proof {
        assert(rest@.skip(0) =~= rest@);
        assert(body_views(bodies@) =~= Seq::<BodyView>::empty());
    }
    loop
        invariant
            n <= rest.len(),
            begun == first@,
            walked(rest@, begun, Seq::empty()) == walked(
                rest@.skip(n as int),
                part@,
                body_views(bodies@),
            ),
        decreases rest.len() - n,
    {
        if n == rest.len() {
            proof {
                reveal(walked);
            }
            close_part(part, &mut bodies);
            return Ok(bodies);
        }
        proof {
            lemma_walked_step(rest@, n as int, part@, body_views(bodies@));
        }
        let tail = slice_subrange(rest, n, rest.len());
        let len = line_length(tail);
        let line = slice_subrange(tail, 0, len);
        assert(tail@ =~= rest@.skip(n as int));
        assert(line@ =~= first_line(tail@));
        if is_separator(&part, line) {
            let next = slice_subrange(rest, n + len, rest.len());
            match read_headers(next) {
                Err(e) => {
                    return Err(e);
                },
                Ok((found, m)) => {
                    let headers = Headers(found);
                    let opening = open_part(&headers, part.boundary.clone());
                    close_part(part, &mut bodies);
                    part = opening;
                    proof {
                        assert(next@.skip(m as int) =~= rest@.skip(n + len + m));
                    }
                    n = n + len + m;
                },
            }
        } else {
            grow_part(&mut part, line);
            n = n + len;
        }
    }
}

/// Finds the content of the first plain-text body, or of the first HTML
/// body.
pub fn first_body(bodies: &Vec<Body>, plain: bool) -> (r: Option<String>)
    ensures
        match r {
            Some(s) => first_of(body_views(bodies@), wanted(plain)) == Some(s@),
            None => first_of(body_views(bodies@), wanted(plain)) is None,
        },
{
    let ghost all = body_views(bodies@);
    let mut i: usize = 0;
    assert(all.skip(0) =~= all);
    while i < bodies.len()
        invariant
            i <= bodies.len(),
            all == body_views(bodies@),
            first_of(all, wanted(plain)) == first_of(all.skip(i as int), wanted(plain)),
        decreases bodies.len() - i,
    {
        proof {
            assert(all.skip(i as int)[0] == bodies[i as int]@);
            assert(all.skip(i as int).drop_first() =~= all.skip(i + 1));
        }
        let hit = match &bodies[i].content_type {
            ContentType::TextPlain => plain,
            ContentType::TextHtml => !plain,
            ContentType::MultipartAlternative(_) => false,
        };
        if hit {
            return Some(bodies[i].content.clone());
        }
        i += 1;
    }
    None
}

/// The content type of the text that is looked for: plain text or HTML.
pub open spec fn wanted(plain: bool) -> ContentTypeView {
    if plain {
        ContentTypeView::TextPlain
    } else {
        ContentTypeView::TextHtml
    }
}

/// A decoded message: its headers by key, and its plain-text and HTML
/// bodies, where it has them.
#[derive(Debug)]
pub struct Mail {
    /// The headers of the message.
    pub headers: HeaderMap,
    /// The plain-text body.
    pub plain: Option<String>,
    /// The HTML body.
    pub html: Option<String>,
}

impl View for Mail {
    type V = MailView;

    open spec fn view(&self) -> MailView {
        MailView {
            headers: self.headers@,
            plain: match self.plain {
                Some(s) => Some(s@),
                None => None,
            },
            html: match self.html {
                Some(s) => Some(s@),
                None => None,
            },
        }
    }
}

impl Mail {
    /// Reads the header block at the cursor, up to the line that is no
    /// header line, and takes that line too where it is blank. A header
    /// whose content type the decoder does not know is left out.
    ///
    /// It fails with `ExpectingBoundary` where a multipart content type
    /// names no boundary, and with `IoError` where the text ends within a
    /// header; the cursor then stays where it was.
    pub fn parse_headers(reader: &mut Cursor) -> (r: Result<Headers, Error>)
        ensures
            match r {
                Ok(headers) => headers_at(old(reader)@) == Ok::<
                    (Seq<HeaderView>, Seq<char>),
                    ErrorView,
                >((headers@, final(reader)@)),
                Err(e) => headers_at(old(reader)@) == Err::<
                    (Seq<HeaderView>, Seq<char>),
                    ErrorView,
                >(e@) && final(reader)@ == old(reader)@,
            },
    {
        let outcome = read_headers(reader.rest());
        match outcome {
            Ok((found, n)) => {
                reader.advance(n);
                Ok(Headers(found))
            },
            Err(e) => Err(e),
        }
    }

    /// Decodes the message that `data` holds.
    ///
    /// It fails with `Utf8Error` where `data` is not UTF-8, and where a
    /// header block, at the top or behind a separator, is refused: with
    /// `ExpectingBoundary` where a multipart content type names no boundary,
    /// with `IoError` where the text ends within a header. A part whose
    /// content does not decode, or whose content type the decoder does not
    /// know, is left out of the result.
    pub fn from_utf8(data: &[u8]) -> (r: Result<Mail, Error>)
        ensures
            match r {
                Ok(mail) => parsed(data@) == Ok::<MailView, ErrorView>(mail@),
                Err(e) => parsed(data@) == Err::<MailView, ErrorView>(e@),
            },
    {
        let text = match decode_text(data) {
            Some(text) => text,
            None => {
                return Err(Error::Utf8Error);
            },
        };
        let (found, n) = match read_headers(text.as_slice()) {
            Ok(read) => read,
            Err(e) => {
                return Err(e);
            },
        };
        let headers = Headers(found);
        let part = open_part(&headers, None);
        let bodies = match walk(slice_subrange(text.as_slice(), n, text.len()), part) {
            Ok(bodies) => bodies,
            Err(e) => {
                return Err(e);
            },
        };
        let plain = first_body(&bodies, true);
        let html = first_body(&bodies, false);
        Ok(Mail { headers: headers.into_hash_map(), plain, html })
    }

    /// The subject of the message, with its encoded words decoded.
    pub fn subject(&self) -> (r: Option<String>)
        ensures
            match r {
                Some(s) => as_text(value_under(self@.headers, "Subject"@)) == Some(s@),
                None => as_text(value_under(self@.headers, "Subject"@)) is None,
            },
    {
        self.headers.subject()
    }

    /// The sender of the message, with its encoded words decoded.
    pub fn from(&self) -> (r: Option<String>)
        ensures
            match r {
                Some(s) => as_text(value_under(self@.headers, "From"@)) == Some(s@),
                None => as_text(value_under(self@.headers, "From"@)) is None,
            },
    {
        self.headers.from()
    }

    /// The date of the message, with its encoded words decoded.
    pub fn date(&self) -> (r: Option<String>)
        ensures
            match r {
                Some(s) => as_text(value_under(self@.headers, "Date"@)) == Some(s@),
                None => as_text(value_under(self@.headers, "Date"@)) is None,
            },
    {
        self.headers.date()
    }

    /// The content type that the headers of the message declare.
    pub fn content_type(&self) -> (r: Option<&ContentType>)
        ensures
            match r {
                Some(t) => as_content_type(value_under(self@.headers, "Content-Type"@)) == Some(
                    t@,
                ),
                None => as_content_type(value_under(self@.headers, "Content-Type"@)) is None,
            },
    {
        self.headers.content_type()
    }

    /// The plain-text body of the message.
    pub fn plain_body(&self) -> (r: Option<&String>)
        ensures
            match r {
                Some(s) => self@.plain == Some(s@),
                None => self@.plain is None,
            },
    {
        self.plain.as_ref()
    }

    /// The HTML body of the message.
    pub fn html_body(&self) -> (r: Option<&String>)
        ensures
            match r {
                Some(s) => self@.html == Some(s@),
                None => self@.html is None,
            },
    {
        self.html.as_ref()
    }
}

/// Decodes the message that `bytes` hold.
///
/// It fails with `Utf8Error` where `bytes` are not UTF-8, and where a header
/// block, at the top or behind a separator, is refused: with
/// `ExpectingBoundary` where a multipart content type names no boundary, with
/// `IoError` where the text ends within a header. A part whose content does
/// not decode, or whose content type the decoder does not know, is left out
/// of the result.
pub fn parse(bytes: &[u8]) -> (r: Result<Mail, Error>)
    ensures
        match r {
            Ok(mail) => parsed(bytes@) == Ok::<MailView, ErrorView>(mail@),
            Err(e) => parsed(bytes@) == Err::<MailView, ErrorView>(e@),
        },
{
    Mail::from_utf8(bytes)
}

/// Decodes the headers of the message that `bytes` hold, and nothing of its
/// body.
///
/// It fails with `Utf8Error` where `bytes` are not UTF-8, with
/// `ExpectingBoundary` where a multipart content type names no boundary, and
/// with `IoError` where the text ends within a header.
pub fn parse_headers(bytes: &[u8]) -> (r: Result<Headers, Error>)
    ensures
        match r {
            Ok(headers) => parsed_headers(bytes@) == Ok::<Seq<HeaderView>, ErrorView>(headers@),
            Err(e) => parsed_headers(bytes@) == Err::<Seq<HeaderView>, ErrorView>(e@),
        },
{
    let text = match decode_text(bytes) {
        Some(text) => text,
        None => {
            return Err(Error::Utf8Error);
        },
    };
    match read_headers(text.as_slice()) {
        Ok((found, _)) => Ok(Headers(found)),
        Err(e) => Err(e),
    }
}

/// The subject that the header block `bytes` gives: that of its headers,
/// where they decode and hold one.
pub open spec fn subject_in(bytes: Seq<u8>) -> Option<Seq<char>> {
    match parsed_headers(bytes) {
        Ok(headers) => as_text(lookup(headers, "Subject"@)),
        Err(_) => None,
    }
}

/// Reads the subject off the header block of a message. A block that does
/// not decode has none.
pub fn subject_of(bytes: &[u8]) -> (r: Option<String>)
    ensures
        match r {
            Some(s) => subject_in(bytes@) == Some(s@),
            None => subject_in(bytes@) is None,
        },
{
    match parse_headers(bytes) {
        Ok(headers) => headers.subject(),
        Err(_) => None,
    }
}

} // verus!
