//! Reading headers off a text: one header with its folded continuation
//! lines, and a whole header block up to the blank line that ends it.

use vstd::prelude::*;
use vstd::slice::slice_subrange;
use crate::codec::{chars_of, string_of};
use crate::error::{Error, ErrorView};
use crate::header::{header_value, outcome, HeaderValue};
use crate::headers::{header_views, Header, HeaderView};
use crate::text::{
    after_line,
    append,
    find,
    first_index,
    first_line,
    is_blank,
    is_blank_line,
    is_space,
    is_whitespace,
    lemma_first_index,
    lemma_line_len,
    line_len,
    line_length,
    trim,
    trimmed,
};

verus! {

/// The key and the start of the value that a header line holds: what stands
/// before its first colon and what stands after it, both trimmed. A line
/// without a colon is no header line.
pub open spec fn header_line(line: Seq<char>) -> Option<(Seq<char>, Seq<char>)> {
    match first_index(line, ':') {
        Some(i) => Some((trimmed(line.take(i)), trimmed(line.skip(i + 1)))),
        None => None,
    }
}

/// Whether `line` continues the header before it: it begins with whitespace
/// and is not blank.
pub open spec fn continues(line: Seq<char>) -> bool {
    line.len() > 0 && !is_blank(line) && is_space(line[0])
}

/// A header value with one more continuation line folded into it: the line's
/// text follows a single line feed. A line of whitespace alone adds nothing.
pub open spec fn joined(value: Seq<char>, piece: Seq<char>) -> Seq<char> {
    if piece.len() == 0 {
        value
    } else {
        value + seq!['\n'] + piece
    }
}

/// The value of a header that begins with `value` and is continued by the
/// lines at the start of `rest`, and what is left of `rest` behind them. The
/// header must be followed by a line that does not continue it: where `rest`
/// ends first, the read fails.
#[verifier::opaque]
pub open spec fn continued(value: Seq<char>, rest: Seq<char>) -> Result<
    (Seq<char>, Seq<char>),
    ErrorView,
>
    decreases rest.len(),
{
    if rest.len() == 0 {
        Err(ErrorView::IoError)
    } else if continues(first_line(rest)) {
        proof {
            lemma_line_len(rest);
        }
        continued(joined(value, trimmed(first_line(rest))), after_line(rest))
    } else {
        Ok((value, rest))
    }
}

/// What `continued` leaves is the end of what it was given.
pub proof fn lemma_continued_leaves_suffix(value: Seq<char>, rest: Seq<char>)
    ensures
        continued(value, rest) matches Ok((_, left)) ==> left.len() <= rest.len() && left
            == rest.skip(rest.len() - left.len()),
    decreases rest.len(),
{
    reveal(continued);
    if rest.len() == 0 {
    } else if continues(first_line(rest)) {
        lemma_line_len(rest);
        let next = after_line(rest);
        lemma_continued_leaves_suffix(joined(value, trimmed(first_line(rest))), next);
        if let Ok((_, left)) = continued(value, rest) {
            assert(next.skip(next.len() - left.len()) =~= rest.skip(rest.len() - left.len()));
        }
    } else {
        assert(rest.skip(0) =~= rest);
    }
}

/// A header as it is written: its key, its value with the continuation
/// lines folded in, and what is left of the text behind it.
pub struct RawHeader {
    pub key: Seq<char>,
    pub value: Seq<char>,
    pub left: Seq<char>,
}

/// The header that is written at the start of `rest`. There is none, with
/// `NotAHeader`, where the first line holds no colon, and none, with
/// `IoError`, where the text ends before a line that does not continue the
/// header.
pub open spec fn raw_header_at(rest: Seq<char>) -> Result<RawHeader, ErrorView> {
    match header_line(first_line(rest)) {
        None => Err(ErrorView::NotAHeader),
        Some((key, start)) => match continued(start, after_line(rest)) {
            Err(e) => Err(e),
            Ok((value, left)) => Ok(RawHeader { key, value, left }),
        },
    }
}

/// The header that stands at the start of `rest`, its value interpreted.
pub open spec fn header_at(rest: Seq<char>) -> Result<HeaderView, ErrorView> {
    match raw_header_at(rest) {
        Err(e) => Err(e),
        Ok(raw) => match header_value(raw.key, raw.value) {
            Err(e) => Err(e),
            Ok(value) => Ok(HeaderView { key: raw.key, value }),
        },
    }
}

/// What is left of `rest` behind the header that is written at its start:
/// all of `rest` where none is written there.
pub open spec fn after_header(rest: Seq<char>) -> Seq<char> {
    match raw_header_at(rest) {
        Ok(raw) => raw.left,
        Err(_) => rest,
    }
}

/// A header takes at least its own line, and what it leaves is the end of
/// what it was read from.
pub proof fn lemma_raw_header_advances(rest: Seq<char>)
    ensures
        raw_header_at(rest) matches Ok(raw) ==> raw.left.len() < rest.len() && raw.left
            == rest.skip(rest.len() - raw.left.len()),
{
    lemma_line_len(rest);
    lemma_first_index(first_line(rest), ':');
    if let Some((key, start)) = header_line(first_line(rest)) {
        let next = after_line(rest);
        lemma_continued_leaves_suffix(start, next);
        if let Ok((_, left)) = continued(start, next) {
            assert(next.skip(next.len() - left.len()) =~= rest.skip(rest.len() - left.len()));
        }
    }
}

/// What is left of `rest` once the line that ends a header block is taken:
/// a blank line is taken, any other line stays.
pub open spec fn past_blank(rest: Seq<char>) -> Seq<char> {
    if is_blank(first_line(rest)) {
        after_line(rest)
    } else {
        rest
    }
}

/// `h` put in front of the headers that `r` holds, where it holds any.
pub open spec fn with_first(
    h: HeaderView,
    r: Result<(Seq<HeaderView>, Seq<char>), ErrorView>,
) -> Result<(Seq<HeaderView>, Seq<char>), ErrorView> {
    match r {
        Ok((hs, end)) => Ok((seq![h] + hs, end)),
        Err(e) => Err(e),
    }
}

/// The headers that stand at the start of `rest`, in their order, and what
/// is left of `rest` behind them.
///
/// The block ends before the first line that is no header line; where that
/// line is blank, it is taken with the block. A header whose content type
/// the decoder does not know is left out. The block is refused, with
/// `ExpectingBoundary`, where a multipart content type names no boundary,
/// and, with `IoError`, where the text ends within a header.
#[verifier::opaque]
pub open spec fn headers_at(rest: Seq<char>) -> Result<(Seq<HeaderView>, Seq<char>), ErrorView>
    decreases rest.len(),
{
    match raw_header_at(rest) {
        Err(ErrorView::NotAHeader) => Ok((Seq::empty(), past_blank(rest))),
        Err(e) => Err(e),
        Ok(raw) => {
            proof {
                lemma_raw_header_advances(rest);
            }
            match header_value(raw.key, raw.value) {
                Ok(value) => with_first(HeaderView { key: raw.key, value }, headers_at(raw.left)),
                Err(ErrorView::UnknownContentType(_)) => headers_at(raw.left),
                Err(e) => Err(e),
            }
        },
    }
}

/// What a header block leaves is the end of what it was read from.
pub proof fn lemma_headers_at_leaves_suffix(rest: Seq<char>)
    ensures
        headers_at(rest) matches Ok((_, left)) ==> left.len() <= rest.len() && left == rest.skip(
            rest.len() - left.len(),
        ),
    decreases rest.len(),
{
    reveal(headers_at);
    match raw_header_at(rest) {
        Ok(raw) => {
            lemma_raw_header_advances(rest);
            lemma_headers_at_leaves_suffix(raw.left);
            if let Ok((_, left)) = headers_at(raw.left) {
                assert(raw.left.skip(raw.left.len() - left.len()) =~= rest.skip(
                    rest.len() - left.len(),
                ));
            }
        },
        Err(ErrorView::NotAHeader) => {
            lemma_line_len(rest);
            assert(rest.skip(0) =~= rest);
        },
        Err(e) => {},
    }
}

/// `done` put in front of the headers that `r` holds, where it holds any.
pub open spec fn behind(
    done: Seq<HeaderView>,
    r: Result<(Seq<HeaderView>, Seq<char>), ErrorView>,
) -> Result<(Seq<HeaderView>, Seq<char>), ErrorView> {
    match r {
        Ok((hs, end)) => Ok((done + hs, end)),
        Err(e) => Err(e),
    }
}

proof fn lemma_continued_step(value: Seq<char>, rest: Seq<char>, n: int)
    requires
        0 <= n < rest.len(),
    ensures
        continued(value, rest.skip(n)) == if continues(first_line(rest.skip(n))) {
            continued(
                joined(value, trimmed(first_line(rest.skip(n)))),
                rest.skip(n + line_len(rest.skip(n))),
            )
        } else {
            Ok((value, rest.skip(n)))
        },
        0 < line_len(rest.skip(n)) <= rest.len() - n,
{
    reveal(continued);
    let tail = rest.skip(n);
    lemma_line_len(tail);
    assert(after_line(tail) =~= rest.skip(n + line_len(tail)));
}

/// Folds the continuation lines at the start of `rest` into the value that
/// begins with `start`, and counts the characters that they take.
fn read_continuation(start: &[char], rest: &[char]) -> (r: Result<(Vec<char>, usize), Error>)
    ensures
        match r {
            Ok((v, n)) => n <= rest.len() && continued(start@, rest@) == Ok::<
                (Seq<char>, Seq<char>),
                ErrorView,
            >((v@, rest@.skip(n as int))),
            Err(e) => continued(start@, rest@) == Err::<(Seq<char>, Seq<char>), ErrorView>(e@),
        },
{
    let mut value: Vec<char> = Vec::new();
    append(&mut value, start);
    let mut n: usize = 0;
    assert(value@ =~= start@);
    assert(rest@.skip(0) =~= rest@);
    loop
        invariant
            n <= rest.len(),
            continued(start@, rest@) == continued(value@, rest@.skip(n as int)),
        decreases rest.len() - n,
    {
        if n == rest.len() {
            proof {
                reveal(continued);
            }
            return Err(Error::IoError);
        }
        proof {
            lemma_continued_step(value@, rest@, n as int);
        }
        let tail = slice_subrange(rest, n, rest.len());
        let len = line_length(tail);
        let line = slice_subrange(tail, 0, len);
        assert(tail@ =~= rest@.skip(n as int));
        assert(line@ =~= first_line(tail@));
        if is_blank_line(line) || !is_whitespace(line[0]) {
            return Ok((value, n));
        }
        let piece = trim(line);
        let ghost before = value@;
        if piece.len() > 0 {
            value.push('\n');
            append(&mut value, piece);
            assert(value@ =~= before + seq!['\n'] + piece@);
        }
        assert(value@ == joined(before, piece@));
        n = n + len;
    }
}

/// A header as it was read: its key, its value with the continuation lines
/// folded in, and the number of characters that it took.
pub struct Raw<'a> {
    pub key: &'a [char],
    pub value: Vec<char>,
    pub taken: usize,
}

/// Reads the header that is written at the start of `rest`, without
/// interpreting its value.
pub fn read_raw_header<'a>(rest: &'a [char]) -> (r: Result<Raw<'a>, Error>)
    ensures
        match r {
            Ok(raw) => 0 < raw.taken <= rest.len() && raw_header_at(rest@) == Ok::<
                RawHeader,
                ErrorView,
            >(
                RawHeader {
                    key: raw.key@,
                    value: raw.value@,
                    left: rest@.skip(raw.taken as int),
                },
            ),
            Err(e) => raw_header_at(rest@) == Err::<RawHeader, ErrorView>(e@),
        },
{
    let len = line_length(rest);
    let line = slice_subrange(rest, 0, len);
    proof {
        lemma_line_len(rest@);
        lemma_first_index(line@, ':');
    }
    match find(line, ':') {
        None => Err(Error::NotAHeader),
        Some(i) => {
            let key = trim(slice_subrange(line, 0, i));
            let start = trim(slice_subrange(line, i + 1, line.len()));
            let next = slice_subrange(rest, len, rest.len());
            match read_continuation(start, next) {
                Err(e) => Err(e),
                Ok((value, n)) => {
                    assert(next@.skip(n as int) =~= rest@.skip(len + n));
                    Ok(Raw { key, value, taken: len + n })
                },
            }
        },
    }
}

proof fn lemma_headers_step(done: Seq<HeaderView>, rest: Seq<char>, n: int)
    requires
        0 <= n <= rest.len(),
    ensures
        behind(done, headers_at(rest.skip(n))) == match raw_header_at(rest.skip(n)) {
            Err(ErrorView::NotAHeader) => Ok((done, past_blank(rest.skip(n)))),
            Err(e) => Err(e),
            Ok(raw) => match header_value(raw.key, raw.value) {
                Ok(value) => behind(
                    done.push(HeaderView { key: raw.key, value }),
                    headers_at(raw.left),
                ),
                Err(ErrorView::UnknownContentType(_)) => behind(done, headers_at(raw.left)),
                Err(e) => Err(e),
            },
        },
{
    reveal(headers_at);
    match raw_header_at(rest.skip(n)) {
        Err(ErrorView::NotAHeader) => {
            assert(done + Seq::<HeaderView>::empty() =~= done);
        },
        Err(e) => {},
        Ok(raw) => {
            match header_value(raw.key, raw.value) {
                Ok(value) => {
                    let h = HeaderView { key: raw.key, value };
                    match headers_at(raw.left) {
                        Ok((hs, end)) => {
                            assert(done + (seq![h] + hs) =~= done.push(h) + hs);
                        },
                        Err(e) => {},
                    }
                },
                Err(e) => {},
            }
        },
    }
}

/// Reads the header block at the start of `rest`, and counts the characters
/// that it takes.
pub fn read_headers(rest: &[char]) -> (r: Result<(Vec<Header>, usize), Error>)
    ensures
        match r {
            Ok((hs, n)) => n <= rest.len() && headers_at(rest@) == Ok::<
                (Seq<HeaderView>, Seq<char>),
                ErrorView,
            >((header_views(hs@), rest@.skip(n as int))),
            Err(e) => headers_at(rest@) == Err::<(Seq<HeaderView>, Seq<char>), ErrorView>(e@),
        },
{
    let mut headers: Vec<Header> = Vec::new();
    let mut n: usize = 0;
    proof {
        assert(rest@.skip(0) =~= rest@);
        assert(header_views(headers@) =~= Seq::<HeaderView>::empty());
        match headers_at(rest@) {
            Ok((hs, end)) => {
                assert(Seq::<HeaderView>::empty() + hs =~= hs);
            },
            Err(e) => {},
        }
    }
    loop
        invariant
            n <= rest.len(),
            headers_at(rest@) == behind(header_views(headers@), headers_at(rest@.skip(n as int))),
        decreases rest.len() - n,
    {
        let tail = slice_subrange(rest, n, rest.len());
        proof {
            lemma_headers_step(header_views(headers@), rest@, n as int);
        }
        match read_raw_header(tail) {
            Ok(raw) => {
                proof {
                    assert(tail@.skip(raw.taken as int) =~= rest@.skip(n + raw.taken));
                }
                match HeaderValue::from_chars(raw.key, raw.value.as_slice()) {
                    Ok(value) => {
                        let h = Header { key: string_of(raw.key), value };
                        proof {
                            assert(header_views(headers@.push(h)) =~= header_views(headers@).push(
                                h@,
                            ));
                        }
                        headers.push(h);
                    },
                    Err(Error::UnknownContentType(_)) => {},
                    Err(e) => {
                        return Err(e);
                    },
                }
                n = n + raw.taken;
            },
            Err(Error::NotAHeader) => {
                let len = line_length(tail);
                if is_blank_line(slice_subrange(tail, 0, len)) {
                    proof {
                        assert(after_line(tail@) =~= rest@.skip(n + len));
                    }
                    n = n + len;
                }
                return Ok((headers, n));
            },
            Err(e) => {
                return Err(e);
            },
        }
    }
}

/// A place in a text from which lines and headers are read, one after the
/// other. Its view is the text that is left to read.
#[derive(Debug)]
pub struct Cursor {
    text: Vec<char>,
    at: usize,
}

impl View for Cursor {
    type V = Seq<char>;

    closed spec fn view(&self) -> Seq<char> {
        self.text@.skip(self.at as int)
    }
}

impl Cursor {
    #[verifier::type_invariant]
    spec fn in_text(self) -> bool {
        self.at <= self.text.len()
    }

    /// A cursor at the start of `text`.
    pub fn new(text: &str) -> (r: Cursor)
        ensures
            r@ == text@,
    {
        let r = Cursor { text: chars_of(text), at: 0 };
        assert(r.text@.skip(0) =~= r.text@);
        r
    }

    /// The text that is left to read.
    pub(crate) fn rest(&self) -> (r: &[char])
        ensures
            r@ == self@,
    {
        proof {
            use_type_invariant(self);
        }
        slice_subrange(self.text.as_slice(), self.at, self.text.len())
    }

    /// Moves the cursor over the next `n` characters.
    pub(crate) fn advance(&mut self, n: usize)
        requires
            n <= old(self)@.len(),
        ensures
            final(self)@ == old(self)@.skip(n as int),
    {
        proof {
            use_type_invariant(&*self);
            assert(self.text@.skip(self.at as int).skip(n as int) =~= self.text@.skip(self.at + n));
        }
        self.at = self.at + n;
    }

    /// A cursor at the same place of the same text.
    pub fn duplicate(&self) -> (r: Cursor)
        ensures
            r@ == self@,
    {
        proof {
            use_type_invariant(self);
        }
        Cursor { text: self.text.clone(), at: self.at }
    }

    /// Whether nothing is left to read.
    pub fn is_at_end(&self) -> (b: bool)
        ensures
            b == (self@.len() == 0),
    {
        proof {
            use_type_invariant(self);
        }
        self.at == self.text.len()
    }

    /// Reads one line, with the line feed that ends it. At the end of the
    /// text the line is empty.
    pub fn read_line(&mut self) -> (line: String)
        ensures
            line@ == first_line(old(self)@),
            final(self)@ == after_line(old(self)@),
    {
        proof {
            use_type_invariant(&*self);
        }
        let rest = slice_subrange(self.text.as_slice(), self.at, self.text.len());
        let len = line_length(rest);
        let line = string_of(slice_subrange(rest, 0, len));
        proof {
            assert(rest@.skip(len as int) =~= self.text@.skip(self.at + len));
        }
        self.at = self.at + len;
        line
    }
}

impl Header {
    /// Reads the header at the cursor: a line with a colon, and the lines
    /// after it that begin with whitespace.
    ///
    /// The key is what stands before the first colon; the value is what
    /// stands after it, with each continuation line joined by a line feed,
    /// every piece trimmed. The cursor moves behind the header.
    ///
    /// Where no header is written at the cursor, the read fails and the
    /// cursor stays: with `NotAHeader` where the line holds no colon, with
    /// `IoError` where the text ends before a line that does not continue
    /// the header. Where the header is written but its value is refused, the
    /// read fails with the error of the value, behind the header.
    pub fn try_read(reader: &mut Cursor) -> (r: Result<Header, Error>)
        ensures
            outcome(r) == header_at(old(reader)@),
            final(reader)@ == after_header(old(reader)@),
    {
        let taken: usize;
        let read = match read_raw_header(reader.rest()) {
            Ok(raw) => {
                taken = raw.taken;
                match HeaderValue::from_chars(raw.key, raw.value.as_slice()) {
                    Ok(value) => Ok(Header { key: string_of(raw.key), value }),
                    Err(e) => Err(e),
                }
            },
            Err(e) => {
                taken = 0;
                proof {
                    assert(reader@.skip(0) =~= reader@);
                }
                Err(e)
            },
        };
        reader.advance(taken);
        read
    }
}

} // verus!
