//! Decoding within bounds: a cap on the content that a part may buffer, and
//! a cap on the depth to which nested multipart containers are followed.

use vstd::prelude::*;
use vstd::slice::slice_subrange;
use crate::codec::{decode_text, utf8_text};
use crate::error::{Error, ErrorView};
use crate::header::ContentTypeView;
use crate::headers::{as_boundary, folded, lookup, HeaderView, Headers};
use crate::mail::{
    body_views,
    close_part,
    collected,
    contribution,
    first_body,
    first_of,
    grow_part,
    grown,
    is_separator,
    open_part,
    opened,
    separates,
    walked,
    Body,
    BodyView,
    Mail,
    MailView,
    Part,
    PartView,
};
use crate::reader::{headers_at, lemma_headers_at_leaves_suffix, read_headers};
use crate::text::{after_line, first_line, lemma_line_len, line_len, line_length, trim};

verus! {

/// The bounds within which a message is decoded. A bound that is absent
/// does not bind.
#[derive(Debug, Clone, Copy, PartialEq, Eq, Structural)]
pub struct Limits {
    /// The greatest number of characters that the content of one part may
    /// have before it is decoded. A part with more is left out.
    pub max_part_len: Option<usize>,
    /// The greatest number of multipart containers, one within the other,
    /// whose boundaries are followed. A container beyond that is taken as a
    /// single part.
    pub max_depth: Option<usize>,
}

/// A part in a walk within bounds.
pub struct BoundedView {
    /// The part that is being read.
    pub part: PartView,
    /// How many containers deeper the walk may still go; absent where it may
    /// go to any depth.
    pub levels: Option<nat>,
    /// Whether the content of the part has outgrown its bound.
    pub over: bool,
}

/// Whether the content of `part` stays within its bound when `line` is
/// added to it.
pub open spec fn fits(limits: Limits, part: PartView, line: Seq<char>) -> bool {
    match limits.max_part_len {
        Some(max) => part.buffer.len() + contribution(part.encoding, line).len() <= max,
        None => true,
    }
}

/// The part with one more line of content. A line that does not fit is not
/// added, nor is any line after it.
pub open spec fn grown_within(limits: Limits, s: BoundedView, line: Seq<char>) -> BoundedView {
    if !s.over && fits(limits, s.part, line) {
        BoundedView { part: grown(s.part, line), levels: s.levels, over: false }
    } else {
        BoundedView { part: s.part, levels: s.levels, over: true }
    }
}

/// `bodies` with the body of the part behind them, where the part has one
/// and its content has stayed within its bound.
pub open spec fn collected_within(s: BoundedView, bodies: Seq<BodyView>) -> Seq<BodyView> {
    if s.over {
        bodies
    } else {
        collected(s.part, bodies)
    }
}

/// Whether the header block `headers` opens a container that the walk
/// follows: it declares a boundary, and the walk may go deeper.
pub open spec fn goes_deeper(headers: Seq<HeaderView>, s: BoundedView) -> bool {
    as_boundary(lookup(headers, "Content-Type"@)) is Some && s.levels != Some(0nat)
}

/// The part that the header block `headers` opens behind the part `s`. The
/// boundary that it declares is followed only where the walk may go deeper.
pub open spec fn opened_within(headers: Seq<HeaderView>, s: BoundedView) -> BoundedView {
    let inner = opened(headers, s.part.boundary);
    if goes_deeper(headers, s) {
        BoundedView {
            part: inner,
            levels: match s.levels {
                Some(k) => Some((k - 1) as nat),
                None => None,
            },
            over: false,
        }
    } else {
        BoundedView {
            part: PartView {
                boundary: s.part.boundary,
                encoding: inner.encoding,
                content_type: inner.content_type,
                buffer: inner.buffer,
            },
            levels: s.levels,
            over: false,
        }
    }
}

/// The bodies that a walk over `rest` within `limits` gives, begun in the
/// part `s` with `bodies` already found.
#[verifier::opaque]
pub open spec fn walked_within(
    limits: Limits,
    rest: Seq<char>,
    s: BoundedView,
    bodies: Seq<BodyView>,
) -> Result<Seq<BodyView>, ErrorView>
    decreases rest.len(),
{
    if rest.len() == 0 {
        Ok(collected_within(s, bodies))
    } else if separates(s.part, first_line(rest)) {
        match headers_at(after_line(rest)) {
            Err(e) => Err(e),
            Ok((headers, left)) => {
                proof {
                    lemma_line_len(rest);
                    lemma_headers_at_leaves_suffix(after_line(rest));
                }
                walked_within(limits, left, opened_within(headers, s), collected_within(s, bodies))
            },
        }
    } else {
        proof {
            lemma_line_len(rest);
        }
        walked_within(limits, after_line(rest), grown_within(limits, s, first_line(rest)), bodies)
    }
}

/// The part before any header block is read: without boundary and content,
/// with all the levels that `limits` grant.
pub open spec fn outset(limits: Limits) -> BoundedView {
    BoundedView {
        part: PartView {
            boundary: None,
            encoding: crate::header::Encoding::QuotedPrintable,
            content_type: None,
            buffer: Seq::empty(),
        },
        levels: match limits.max_depth {
            Some(d) => Some(d as nat),
            None => None,
        },
        over: false,
    }
}

/// The message that `text` holds, decoded within `limits`.
pub open spec fn mail_within(limits: Limits, text: Seq<char>) -> Result<MailView, ErrorView> {
    match headers_at(text) {
        Err(e) => Err(e),
        Ok((headers, rest)) => match walked_within(
            limits,
            rest,
            opened_within(headers, outset(limits)),
            Seq::empty(),
        ) {
            Err(e) => Err(e),
            Ok(bodies) => Ok(
                MailView {
                    headers: folded(headers),
                    plain: first_of(bodies, ContentTypeView::TextPlain),
                    html: first_of(bodies, ContentTypeView::TextHtml),
                },
            ),
        },
    }
}

/// The message that `bytes` hold, decoded within `limits`.
pub open spec fn parsed_within(limits: Limits, bytes: Seq<u8>) -> Result<MailView, ErrorView> {
    match utf8_text(bytes) {
        None => Err(ErrorView::Utf8Error),
        Some(text) => mail_within(limits, text),
    }
}

/// Bounds that do not bind.
pub open spec fn no_limits() -> Limits {
    Limits { max_part_len: None, max_depth: None }
}

/// Without bounds a walk within bounds is the walk.
pub proof fn lemma_walked_without_limits(rest: Seq<char>, part: PartView, bodies: Seq<BodyView>)
    ensures
        walked_within(
            no_limits(),
            rest,
            BoundedView { part, levels: None, over: false },
            bodies,
        ) == walked(rest, part, bodies),
    decreases rest.len(),
{
    reveal(walked);
    reveal(walked_within);
    let s = BoundedView { part, levels: None, over: false };
    if rest.len() == 0 {
    } else {
        lemma_line_len(rest);
        if separates(part, first_line(rest)) {
            match headers_at(after_line(rest)) {
                Err(_) => {},
                Ok((headers, left)) => {
                    lemma_headers_at_leaves_suffix(after_line(rest));
                    let inner = opened(headers, part.boundary);
                    assert(opened_within(headers, s) == BoundedView {
                        part: inner,
                        levels: None,
                        over: false,
                    });
                    lemma_walked_without_limits(left, inner, collected(part, bodies));
                },
            }
        } else {
            lemma_walked_without_limits(after_line(rest), grown(part, first_line(rest)), bodies);
        }
    }
}

/// Without bounds, decoding within bounds is decoding.
pub proof fn lemma_parsed_without_limits(bytes: Seq<u8>)
    ensures
        parsed_within(no_limits(), bytes) == crate::mail::parsed(bytes),
{
    if let Some(text) = utf8_text(bytes) {
        if let Ok((headers, rest)) = headers_at(text) {
            let s = outset(no_limits());
            let inner = opened(headers, None);
            assert(opened_within(headers, s) == BoundedView {
                part: inner,
                levels: None,
                over: false,
            });
            lemma_walked_without_limits(rest, inner, Seq::empty());
        }
    }
}

/// Within a bound on the content of a part, no part grows beyond it.
pub proof fn lemma_grown_within_bound(limits: Limits, s: BoundedView, line: Seq<char>)
    requires
        limits.max_part_len matches Some(max) && s.part.buffer.len() <= max,
    ensures
        limits.max_part_len matches Some(max) && grown_within(limits, s, line).part.buffer.len()
            <= max,
{
}

impl Limits {
    /// Bounds that do not bind.
    pub fn unbounded() -> (r: Limits)
        ensures
            r == no_limits(),
    {
        Limits { max_part_len: None, max_depth: None }
    }

    /// Bounds on the content of a part and on the depth of containers.
    pub fn new(max_part_len: usize, max_depth: usize) -> (r: Limits)
        ensures
            r == (Limits { max_part_len: Some(max_part_len), max_depth: Some(max_depth) }),
    {
        Limits { max_part_len: Some(max_part_len), max_depth: Some(max_depth) }
    }
}

/// A part in a walk within bounds.
#[derive(Debug)]
pub struct Bounded {
    /// The part that is being read.
    pub part: Part,
    /// How many containers deeper the walk may still go.
    pub levels: Option<usize>,
    /// Whether the content of the part has outgrown its bound.
    pub over: bool,
}

impl View for Bounded {
    type V = BoundedView;

    open spec fn view(&self) -> BoundedView {
        BoundedView {
            part: self.part@,
            levels: match self.levels {
                Some(k) => Some(k as nat),
                None => None,
            },
            over: self.over,
        }
    }
}

/// Opens the part that the header block `headers` declares behind the part
/// with boundary `boundary`, `levels` above the greatest depth.
pub fn open_within(headers: &Headers, boundary: Option<Vec<char>>, levels: Option<usize>) -> (r:
    Bounded)
    ensures
        r@ == opened_within(
            headers@,
            BoundedView {
                part: PartView {
                    boundary: match boundary {
                        Some(b) => Some(b@),
                        None => None,
                    },
                    encoding: crate::header::Encoding::QuotedPrintable,
                    content_type: None,
                    buffer: Seq::empty(),
                },
                levels: match levels {
                    Some(k) => Some(k as nat),
                    None => None,
                },
                over: false,
            },
        ),
{
    let declares = headers.boundary().is_some();
    let deeper = declares && match levels {
        Some(k) => k != 0,
        None => true,
    };
    if deeper {
        let part = open_part(headers, boundary);
        let levels = match levels {
            Some(k) => Some(k - 1),
            None => None,
        };
        Bounded { part, levels, over: false }
    } else {
        let inner = open_part(headers, None);
        let part = Part {
            boundary,
            encoding: inner.encoding,
            content_type: inner.content_type,
            buffer: inner.buffer,
        };
        Bounded { part, levels, over: false }
    }
}

/// Adds `line` to the content of the part, where it fits.
pub fn grow_within(limits: &Limits, s: &mut Bounded, line: &[char])
    ensures
        final(s)@ == grown_within(*limits, old(s)@, line@),
{
    if s.over {
        return ;
    }
    let fits = match limits.max_part_len {
        Some(max) => {
            let piece = match s.part.encoding {
                crate::header::Encoding::Base64 => trim(line).len(),
                crate::header::Encoding::QuotedPrintable => line.len(),
            };
            s.part.buffer.len() <= max && piece <= max - s.part.buffer.len()
        },
        None => true,
    };
    if fits {
        grow_part(&mut s.part, line);
    } else {
        s.over = true;
    }
}

/// Closes the part: puts its body behind `bodies`, where its content has
/// stayed within its bound.
pub fn close_within(s: Bounded, bodies: &mut Vec<Body>)
    ensures
        body_views(final(bodies)@) == collected_within(s@, body_views(old(bodies)@)),
{
    if !s.over {
        close_part(s.part, bodies);
    }
}

proof fn lemma_walked_within_step(
    limits: Limits,
    rest: Seq<char>,
    n: int,
    s: BoundedView,
    bodies: Seq<BodyView>,
)
    requires
        0 <= n < rest.len(),
    ensures
        0 < line_len(rest.skip(n)) <= rest.len() - n,
        walked_within(limits, rest.skip(n), s, bodies) == if separates(
            s.part,
            first_line(rest.skip(n)),
        ) {
            match headers_at(rest.skip(n + line_len(rest.skip(n)))) {
                Err(e) => Err(e),
                Ok((headers, left)) => walked_within(
                    limits,
                    left,
                    opened_within(headers, s),
                    collected_within(s, bodies),
                ),
            }
        } else {
            walked_within(
                limits,
                rest.skip(n + line_len(rest.skip(n))),
                grown_within(limits, s, first_line(rest.skip(n))),
                bodies,
            )
        },
{
    reveal(walked_within);
    let tail = rest.skip(n);
    lemma_line_len(tail);
    assert(after_line(tail) =~= rest.skip(n + line_len(tail)));
}

/// Walks over the body of a message within `limits`: reads `rest` line by
/// line, begun in the part `first`, and returns the bodies of the parts in
/// the order in which they end.
///
/// It fails where a header block behind a separator is refused.
pub fn walk_within(limits: &Limits, rest: &[char], first: Bounded) -> (r: Result<Vec<Body>, Error>)
    ensures
        match r {
            Ok(bodies) => walked_within(*limits, rest@, first@, Seq::empty()) == Ok::<
                Seq<BodyView>,
                ErrorView,
            >(body_views(bodies@)),
            Err(e) => walked_within(*limits, rest@, first@, Seq::empty()) == Err::<
                Seq<BodyView>,
                ErrorView,
            >(e@),
        },
{
    let ghost begun = first@;
    let mut s = first;
    let mut bodies: Vec<Body> = Vec::new();
    let mut n: usize = 0;
    proof {
        assert(rest@.skip(0) =~= rest@);
        assert(body_views(bodies@) =~= Seq::<BodyView>::empty());
    }
    loop
        invariant
            n <= rest.len(),
            begun == first@,
            walked_within(*limits, rest@, begun, Seq::empty()) == walked_within(
                *limits,
                rest@.skip(n as int),
                s@,
                body_views(bodies@),
            ),
        decreases rest.len() - n,
    {
        if n == rest.len() {
            proof {
                reveal(walked_within);
            }
            close_within(s, &mut bodies);
            return Ok(bodies);
        }
        proof {
            lemma_walked_within_step(*limits, rest@, n as int, s@, body_views(bodies@));
        }
        let tail = slice_subrange(rest, n, rest.len());
        let len = line_length(tail);
        let line = slice_subrange(tail, 0, len);
        assert(tail@ =~= rest@.skip(n as int));
        assert(line@ =~= first_line(tail@));
        if is_separator(&s.part, line) {
            let next = slice_subrange(rest, n + len, rest.len());
            match read_headers(next) {
                Err(e) => {
                    return Err(e);
                },
                Ok((found, m)) => {
                    let headers = Headers(found);
                    let opening = open_within(&headers, s.part.boundary.clone(), s.levels);
                    close_within(s, &mut bodies);
                    s = opening;
                    proof {
                        assert(next@.skip(m as int) =~= rest@.skip(n + len + m));
                    }
                    n = n + len + m;
                },
            }
        } else {
            grow_within(limits, &mut s, line);
            n = n + len;
        }
    }
}

/// Decodes the message that `bytes` hold within `limits`: a part whose
/// content outgrows its bound is left out, and a multipart container beyond
/// the greatest depth is taken as a single part.
///
/// It fails as decoding without bounds does.
pub fn parse_with_limits(bytes: &[u8], limits: &Limits) -> (r: Result<Mail, Error>)
    ensures
        match r {
            Ok(mail) => parsed_within(*limits, bytes@) == Ok::<MailView, ErrorView>(mail@),
            Err(e) => parsed_within(*limits, bytes@) == Err::<MailView, ErrorView>(e@),
        },
{
    let text = match decode_text(bytes) {
        Some(text) => text,
        None => {
            return Err(Error::Utf8Error);
        },
    };
    let (found, n) = match read_headers(text.as_slice()) {
        Ok(read) => read,
        Err(e) => {
            return Err(e);
        },
    };
    let headers = Headers(found);
    let first = open_within(&headers, None, limits.max_depth);
    let bodies = match walk_within(limits, slice_subrange(text.as_slice(), n, text.len()), first) {
        Ok(bodies) => bodies,
        Err(e) => {
            return Err(e);
        },
    };
    let plain = first_body(&bodies, true);
    let html = first_body(&bodies, false);
    Ok(Mail { headers: headers.into_hash_map(), plain, html })
}

} // verus!
