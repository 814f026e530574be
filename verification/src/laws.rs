//! What holds of the decoder as a whole: properties that relate its
//! functions to each other, proved from their definitions.

use vstd::prelude::*;
use vstd::utf8::{encode_utf8, encode_utf8_decode_utf8, encode_utf8_valid_utf8};
use crate::codec::{base64_decoding, utf8_text};
use crate::encoding::{decoded, decoded_subject, decoded_words, in_header};
use crate::error::ErrorView;
use crate::header::{ContentTypeView, Encoding, HeaderValueView};
use crate::headers::{as_content_type, as_text, folded, lookup, HeaderView};
use crate::mail::{
    collected,
    contribution,
    first_of,
    grown,
    opened,
    parsed,
    parsed_headers,
    separates,
    subject_in,
    walked,
    wanted,
    BodyView,
    MailView,
    PartView,
};
use crate::reader::{
    continued,
    continues,
    header_line,
    headers_at,
    joined,
    lemma_headers_at_leaves_suffix,
    lemma_raw_header_advances,
    raw_header_at,
};
use crate::text::{
    after_line,
    first_index,
    first_line,
    is_blank,
    is_solid,
    lemma_first_index,
    lemma_first_line_of_concat,
    lemma_line_len,
    lemma_pieces_at,
    lemma_pieces_without,
    lemma_without_spaces_of_concat,
    lemma_without_spaces_of_solid,
    lemma_without_spaces_of_trimmed,
    pieces,
    trimmed,
    without_spaces,
};

verus! {

/// Whether no line of `rest` separates parts under `boundary`.
pub open spec fn unbroken(boundary: Option<Seq<char>>, rest: Seq<char>) -> bool
    decreases rest.len(),
{
    if rest.len() == 0 {
        true
    } else {
        proof {
            lemma_line_len(rest);
        }
        !separates(
            PartView {
                boundary,
                encoding: Encoding::QuotedPrintable,
                content_type: None,
                buffer: Seq::empty(),
            },
            first_line(rest),
        ) && unbroken(boundary, after_line(rest))
    }
}

/// The content that a part takes from `rest`, line by line.
pub open spec fn taken(encoding: Encoding, rest: Seq<char>) -> Seq<char>
    decreases rest.len(),
{
    if rest.len() == 0 {
        Seq::empty()
    } else {
        proof {
            lemma_line_len(rest);
        }
        contribution(encoding, first_line(rest)) + taken(encoding, after_line(rest))
    }
}

/// `part` with `content` behind what it has read.
pub open spec fn extended(part: PartView, content: Seq<char>) -> PartView {
    PartView {
        boundary: part.boundary,
        encoding: part.encoding,
        content_type: part.content_type,
        buffer: part.buffer + content,
    }
}

/// A part that is not followed by a boundary line is closed at the end of
/// the text like any other: the walk takes every line that is left into the
/// part and then closes it.
pub proof fn lemma_unclosed_part_is_kept(rest: Seq<char>, part: PartView, bodies: Seq<BodyView>)
    requires
        unbroken(part.boundary, rest),
    ensures
        walked(rest, part, bodies) == Ok::<Seq<BodyView>, ErrorView>(
            collected(extended(part, taken(part.encoding, rest)), bodies),
        ),
    decreases rest.len(),
{
    reveal(walked);
    if rest.len() == 0 {
        assert(part.buffer + Seq::<char>::empty() =~= part.buffer);
    } else {
        lemma_line_len(rest);
        let line = first_line(rest);
        let next = grown(part, line);
        lemma_unclosed_part_is_kept(after_line(rest), next, bodies);
        assert(next.buffer + taken(part.encoding, after_line(rest)) =~= part.buffer + taken(
            part.encoding,
            rest,
        ));
    }
}

/// Without a boundary no line separates parts.
pub proof fn lemma_unbroken_without_boundary(rest: Seq<char>)
    ensures
        unbroken(None, rest),
    decreases rest.len(),
{
    if rest.len() > 0 {
        lemma_line_len(rest);
        lemma_unbroken_without_boundary(after_line(rest));
    }
}

/// Taken as it stands, a text is taken whole.
pub proof fn lemma_taken_as_it_stands(rest: Seq<char>)
    ensures
        taken(Encoding::QuotedPrintable, rest) == rest,
    decreases rest.len(),
{
    if rest.len() > 0 {
        lemma_line_len(rest);
        lemma_taken_as_it_stands(after_line(rest));
    } else {
        assert(rest =~= Seq::<char>::empty());
    }
}

/// Under Base64 a text is taken without the whitespace at the ends of its
/// lines, which decoding leaves out in any case.
pub proof fn lemma_taken_under_base64(rest: Seq<char>)
    ensures
        without_spaces(taken(Encoding::Base64, rest)) == without_spaces(rest),
    decreases rest.len(),
{
    if rest.len() > 0 {
        lemma_line_len(rest);
        let line = first_line(rest);
        let next = after_line(rest);
        lemma_taken_under_base64(next);
        lemma_without_spaces_of_trimmed(line);
        lemma_without_spaces_of_concat(trimmed(line), taken(Encoding::Base64, next));
        lemma_without_spaces_of_concat(line, next);
    } else {
        assert(rest =~= Seq::<char>::empty());
    }
}

/// What is kept of an outcome of decoding: the text, or nothing where
/// decoding failed.
pub open spec fn kept(r: Result<Seq<char>, ErrorView>) -> Option<Seq<char>> {
    match r {
        Ok(text) => Some(text),
        Err(_) => None,
    }
}

/// The body of a message of a single text part is the content behind its
/// header block, decoded under the transfer encoding that the headers
/// declare: for content that is taken as it stands, the very text of the
/// body. A plain-text message has that body as its plain-text body and no
/// HTML body; an HTML message has it as its HTML body and no plain-text body.
pub proof fn lemma_single_part_body(
    text: Seq<char>,
    headers: Seq<HeaderView>,
    body: Seq<char>,
    plain: bool,
)
    requires
        headers_at(text) == Ok::<(Seq<HeaderView>, Seq<char>), ErrorView>((headers, body)),
        as_content_type(lookup(headers, "Content-Type"@)) == Some(wanted(plain)),
    ensures
        parsed(encode_utf8(text)) matches Ok(mail) && mail.headers == folded(headers) && (if plain {
            mail.plain
        } else {
            mail.html
        }) == kept(decoded(opened(headers, None).encoding, body)) && (if plain {
            mail.html
        } else {
            mail.plain
        }) is None,
        opened(headers, None).encoding == Encoding::QuotedPrintable ==> (parsed(
            encode_utf8(text),
        ) matches Ok(mail) && (if plain {
            mail.plain
        } else {
            mail.html
        }) == Some(body)),
{
    encode_utf8_valid_utf8(text);
    encode_utf8_decode_utf8(text);
    let part = opened(headers, None);
    let none = Seq::<BodyView>::empty();
    lemma_unbroken_without_boundary(body);
    lemma_unclosed_part_is_kept(body, part, none);
    let content = taken(part.encoding, body);
    assert(part.buffer + content =~= content);
    match part.encoding {
        Encoding::QuotedPrintable => {
            lemma_taken_as_it_stands(body);
        },
        Encoding::Base64 => {
            lemma_taken_under_base64(body);
        },
    }
    assert(decoded(part.encoding, content) == decoded(part.encoding, body));
    let bodies = collected(extended(part, content), none);
    assert(first_of(none, ContentTypeView::TextPlain) is None);
    assert(first_of(none, ContentTypeView::TextHtml) is None);
    match decoded(part.encoding, body) {
        Ok(decoded_body) => {
            assert(bodies =~= seq![
                BodyView { content_type: wanted(plain), content: decoded_body },
            ]);
            assert(bodies.drop_first() =~= none);
            assert(first_of(bodies, wanted(plain)) == Some(decoded_body));
            assert(first_of(bodies, wanted(!plain)) is None);
        },
        Err(_) => {
            assert(bodies =~= none);
        },
    }
    assert(walked(body, part, none) == Ok::<Seq<BodyView>, ErrorView>(bodies));
    assert(utf8_text(encode_utf8(text)) == Some(text));
}

/// The encoded word with character set `charset` and Base64 payload
/// `payload`: `=?charset?B?payload?=`.
pub open spec fn encoded_word(charset: Seq<char>, payload: Seq<char>) -> Seq<char> {
    seq!['=', '?'] + charset + seq!['?', 'B', '?'] + payload + seq!['?', '=']
}

/// The fields of an encoded word, cut at its question marks.
proof fn lemma_fields_of_encoded_word(charset: Seq<char>, payload: Seq<char>)
    requires
        !charset.contains('?'),
        !payload.contains('?'),
    ensures
        pieces(encoded_word(charset, payload), '?') == seq![
            seq!['='],
            charset,
            seq!['B'],
            payload,
            seq!['='],
        ],
{
    let word = encoded_word(charset, payload);
    let from_charset = charset + seq!['?', 'B', '?'] + payload + seq!['?', '='];
    let from_encoding = seq!['B', '?'] + payload + seq!['?', '='];
    let from_payload = payload + seq!['?', '='];
    let end = seq!['='];

    assert(word[1] == '?');
    lemma_pieces_at(word, '?', 1);
    assert(word.take(1) =~= seq!['=']);
    assert(word.skip(2) =~= from_charset);

    let n = charset.len() as int;
    assert(from_charset[n] == '?');
    assert forall|j: int| 0 <= j < n implies from_charset[j] != '?' by {
        assert(from_charset[j] == charset[j]);
    }
    lemma_pieces_at(from_charset, '?', n);
    assert(from_charset.take(n) =~= charset);
    assert(from_charset.skip(n + 1) =~= from_encoding);

    assert(from_encoding[1] == '?');
    lemma_pieces_at(from_encoding, '?', 1);
    assert(from_encoding.take(1) =~= seq!['B']);
    assert(from_encoding.skip(2) =~= from_payload);

    let m = payload.len() as int;
    assert(from_payload[m] == '?');
    assert forall|j: int| 0 <= j < m implies from_payload[j] != '?' by {
        assert(from_payload[j] == payload[j]);
    }
    lemma_pieces_at(from_payload, '?', m);
    assert(from_payload.take(m) =~= payload);
    assert(from_payload.skip(m + 1) =~= end);

    assert(!end.contains('?'));
    lemma_pieces_without(end, '?');

    assert(pieces(word, '?') =~= seq![seq!['='], charset, seq!['B'], payload, seq!['=']]);
}

/// A header value that is a single Base64 encoded word stands for the text
/// of its payload, and fails where the payload does.
pub proof fn lemma_decoded_encoded_word(charset: Seq<char>, payload: Seq<char>)
    requires
        !charset.contains('?'),
        !payload.contains('?'),
    ensures
        decoded_subject(encoded_word(charset, payload)) == in_header(
            decoded(Encoding::Base64, payload),
        ),
{
    let word = encoded_word(charset, payload);
    let fields = pieces(word, '?');
    lemma_fields_of_encoded_word(charset, payload);
    reveal_strlit("=?");
    reveal_strlit("B");
    assert("=?"@ =~= seq!['=', '?']);
    assert("B"@ =~= seq!['B']);
    assert(word.subrange(0, 2) =~= seq!['=', '?']);
    assert("=?"@.is_prefix_of(word));
    assert(fields[2] == "B"@);
    assert(fields.skip(4) =~= seq![seq!['=']]);
    assert(decoded_words(fields.skip(4)) == Ok::<Seq<char>, ErrorView>(Seq::empty()));
    match decoded(Encoding::Base64, payload) {
        Ok(text) => {
            assert(text + Seq::<char>::empty() =~= text);
        },
        Err(_) => {},
    }
}

/// Where the subject of a message is a single Base64 encoded word, the
/// subject read back from its headers is the text that the payload encodes
/// in UTF-8, and is absent where the payload is malformed.
pub proof fn lemma_subject_of_one_encoded_word(
    bytes: Seq<u8>,
    headers: Seq<HeaderView>,
    charset: Seq<char>,
    payload: Seq<char>,
)
    requires
        parsed_headers(bytes) == Ok::<Seq<HeaderView>, ErrorView>(headers),
        lookup(headers, "Subject"@) == Some(
            HeaderValueView::Unknown(encoded_word(charset, payload)),
        ),
        !charset.contains('?'),
        !payload.contains('?'),
    ensures
        as_text(lookup(headers, "Subject"@)) == kept(decoded(Encoding::Base64, payload)),
        subject_in(bytes) == kept(decoded(Encoding::Base64, payload)),
{
    lemma_decoded_encoded_word(charset, payload);
}

/// Whether `c` is a character of Base64 text: an ASCII letter, a digit,
/// `+`, `/`, or the padding `=`.
pub open spec fn is_base64_char(c: char) -> bool {
    'A' <= c <= 'Z' || 'a' <= c <= 'z' || '0' <= c <= '9' || c == '+' || c == '/' || c == '='
}

/// Whether `payload` is the Base64 form of `bytes`: Base64 text that
/// decodes to them.
pub open spec fn encodes(payload: Seq<char>, bytes: Seq<u8>) -> bool {
    (forall|i: int| 0 <= i < payload.len() ==> is_base64_char(#[trigger] payload[i]))
        && base64_decoding(payload) == Some(bytes)
}

/// A text that is written as an encoded word, its UTF-8 bytes in Base64, is
/// read back as it was.
pub proof fn lemma_encoded_word_round_trip(
    text: Seq<char>,
    charset: Seq<char>,
    payload: Seq<char>,
)
    requires
        !charset.contains('?'),
        encodes(payload, encode_utf8(text)),
    ensures
        decoded_subject(encoded_word(charset, payload)) == Ok::<Seq<char>, ErrorView>(text),
{
    assert forall|i: int| 0 <= i < payload.len() implies is_solid(payload[i]) && payload[i]
        != '?' by {
        assert(is_base64_char(payload[i]));
    }
    assert(!payload.contains('?'));
    lemma_decoded_encoded_word(charset, payload);
    lemma_without_spaces_of_solid(payload);
    encode_utf8_valid_utf8(text);
    encode_utf8_decode_utf8(text);
}

/// Whether `block` ends with a blank line: a line feed, alone or behind a
/// carriage return, that stands at the start of the text or behind another
/// line feed.
pub open spec fn ends_with_blank_line(block: Seq<char>) -> bool {
    let n = block.len() as int;
    ||| n >= 1 && block[n - 1] == '\n' && (n == 1 || block[n - 2] == '\n')
    ||| n >= 2 && block[n - 1] == '\n' && block[n - 2] == '\r' && (n == 2 || block[n - 3]
        == '\n')
}

/// In a text that ends with a blank line, a first line that is not blank is
/// followed by a text that ends with a blank line.
proof fn lemma_blank_line_stays(a: Seq<char>)
    requires
        ends_with_blank_line(a),
        !is_blank(first_line(a)),
    ensures
        a.contains('\n'),
        after_line(a).len() > 0,
        ends_with_blank_line(after_line(a)),
{
    let n = a.len() as int;
    assert(a[n - 1] == '\n');
    lemma_first_index(a, '\n');
    let i = first_index(a, '\n').unwrap();
    let line = first_line(a);
    assert(line =~= a.take(i + 1));
    if i == n - 1 {
        if n == 1 {
            assert(line.drop_last() =~= Seq::<char>::empty());
        } else if n == 2 {
            assert(a[0] == '\r');
            assert(line.drop_last() =~= seq!['\r']);
            assert(line.drop_last().drop_last() =~= Seq::<char>::empty());
        }
        assert(false);
    }
    let rest = after_line(a);
    assert(rest =~= a.skip(i + 1));
    let m = rest.len() as int;
    assert(rest[m - 1] == a[n - 1]);
    if m >= 2 {
        assert(rest[m - 2] == a[n - 2]);
    }
    if m >= 3 {
        assert(rest[m - 3] == a[n - 3]);
    }
}

/// A header line is not blank.
proof fn lemma_header_line_is_not_blank(line: Seq<char>)
    requires
        header_line(line) is Some,
    ensures
        !is_blank(line),
{
    lemma_first_index(line, ':');
    let i = first_index(line, ':').unwrap();
    if is_blank(line) {
        if line.len() == 1 {
            assert(line[0] == ':');
        } else if line.len() == 2 {
            assert(line.drop_last().len() == 1);
            assert(line.drop_last()[0] == line[0]);
        } else {
            assert(line.drop_last().len() >= 2);
            assert(line.drop_last().drop_last().len() >= 1);
        }
        assert(false);
    }
}

/// The continuation of a header in a text that ends with a blank line ends
/// within that text, whatever follows it.
proof fn lemma_continued_in_block(value: Seq<char>, a: Seq<char>, b: Seq<char>)
    requires
        a.len() > 0,
        ends_with_blank_line(a),
    ensures
        continued(value, a) matches Ok((v, left)) && left.len() > 0 && left.len() <= a.len()
            && ends_with_blank_line(left) && continued(value, a + b) == Ok::<
            (Seq<char>, Seq<char>),
            ErrorView,
        >((v, left + b)),
    decreases a.len(),
{
    reveal(continued);
    let n = a.len() as int;
    assert(a[n - 1] == '\n');
    assert(a.contains('\n'));
    lemma_first_line_of_concat(a, b);
    lemma_line_len(a);
    let line = first_line(a);
    if continues(line) {
        lemma_blank_line_stays(a);
        lemma_continued_in_block(joined(value, trimmed(line)), after_line(a), b);
    }
}

/// The header block of a text that ends with a blank line is read within
/// that text, whatever follows it.
pub proof fn lemma_headers_in_block(a: Seq<char>, b: Seq<char>)
    requires
        ends_with_blank_line(a),
    ensures
        match headers_at(a) {
            Ok((hs, left)) => headers_at(a + b) == Ok::<(Seq<HeaderView>, Seq<char>), ErrorView>(
                (hs, left + b),
            ),
            Err(e) => headers_at(a + b) == Err::<(Seq<HeaderView>, Seq<char>), ErrorView>(e),
        },
    decreases a.len(),
{
    reveal(headers_at);
    let n = a.len() as int;
    assert(a[n - 1] == '\n');
    assert(a.contains('\n'));
    lemma_first_line_of_concat(a, b);
    lemma_line_len(a);
    let line = first_line(a);
    match header_line(line) {
        None => {},
        Some((key, start)) => {
            lemma_header_line_is_not_blank(line);
            lemma_blank_line_stays(a);
            lemma_continued_in_block(start, after_line(a), b);
            match raw_header_at(a) {
                Ok(raw) => {
                    lemma_raw_header_advances(a);
                    lemma_headers_in_block(raw.left, b);
                },
                Err(e) => {},
            }
        },
    }
}

/// The headers of a message are those of its header block alone.
///
/// Where a message begins with a block that ends with a blank line, decoding
/// the headers of the block gives what decoding the headers of the whole
/// message gives; and where the whole message decodes, the headers that it
/// holds are those of the block, folded by key.
pub proof fn lemma_headers_of_block_alone(block: Seq<char>, body: Seq<char>)
    requires
        ends_with_blank_line(block),
    ensures
        parsed_headers(encode_utf8(block + body)) == parsed_headers(encode_utf8(block)),
        match parsed_headers(encode_utf8(block)) {
            Ok(headers) => parsed(encode_utf8(block + body)) matches Ok(mail) ==> mail.headers
                == folded(headers),
            Err(e) => parsed(encode_utf8(block + body)) == Err::<MailView, ErrorView>(e),
        },
{
    encode_utf8_valid_utf8(block);
    encode_utf8_decode_utf8(block);
    encode_utf8_valid_utf8(block + body);
    encode_utf8_decode_utf8(block + body);
    lemma_headers_in_block(block, body);
}

/// Bodies come in the order of the document: what a walk has found stays
/// in front of what it finds later.
pub proof fn lemma_walk_keeps_order(rest: Seq<char>, part: PartView, bodies: Seq<BodyView>)
    ensures
        walked(rest, part, bodies) matches Ok(all) ==> bodies.is_prefix_of(all),
    decreases rest.len(),
{
    reveal(walked);
    let next = collected(part, bodies);
    assert(bodies.is_prefix_of(next));
    if rest.len() == 0 {
    } else {
        lemma_line_len(rest);
        if separates(part, first_line(rest)) {
            match headers_at(after_line(rest)) {
                Err(_) => {},
                Ok((headers, left)) => {
                    lemma_headers_at_leaves_suffix(after_line(rest));
                    lemma_walk_keeps_order(left, opened(headers, part.boundary), next);
                    if let Ok(all) = walked(rest, part, bodies) {
                        assert(bodies =~= all.subrange(0, bodies.len() as int));
                    }
                },
            }
        } else {
            lemma_walk_keeps_order(after_line(rest), grown(part, first_line(rest)), bodies);
        }
    }
}

/// Whether `e` is an error with which a header block is refused.
pub open spec fn refuses_block(e: ErrorView) -> bool {
    e is IoError || e is ExpectingBoundary
}

/// The continuation of a header fails only where the text ends.
proof fn lemma_continued_errors(value: Seq<char>, rest: Seq<char>)
    ensures
        continued(value, rest) matches Err(e) ==> e is IoError,
    decreases rest.len(),
{
    reveal(continued);
    if rest.len() > 0 && continues(first_line(rest)) {
        lemma_line_len(rest);
        lemma_continued_errors(joined(value, trimmed(first_line(rest))), after_line(rest));
    }
}

/// A header block is refused only where the text ends within a header or
/// a multipart content type names no boundary: never because a line is no
/// header, nor because a content type is not known.
pub proof fn lemma_headers_errors(rest: Seq<char>)
    ensures
        headers_at(rest) matches Err(e) ==> refuses_block(e),
    decreases rest.len(),
{
    reveal(headers_at);
    match header_line(first_line(rest)) {
        None => {},
        Some((key, start)) => {
            lemma_continued_errors(start, after_line(rest));
            match raw_header_at(rest) {
                Err(_) => {},
                Ok(raw) => {
                    lemma_raw_header_advances(rest);
                    lemma_headers_errors(raw.left);
                },
            }
        },
    }
}

/// A walk fails only where a header block is refused.
pub proof fn lemma_walk_errors(rest: Seq<char>, part: PartView, bodies: Seq<BodyView>)
    ensures
        walked(rest, part, bodies) matches Err(e) ==> refuses_block(e),
    decreases rest.len(),
{
    reveal(walked);
    if rest.len() > 0 {
        lemma_line_len(rest);
        if separates(part, first_line(rest)) {
            lemma_headers_errors(after_line(rest));
            match headers_at(after_line(rest)) {
                Err(_) => {},
                Ok((headers, left)) => {
                    lemma_headers_at_leaves_suffix(after_line(rest));
                    lemma_walk_errors(
                        left,
                        opened(headers, part.boundary),
                        collected(part, bodies),
                    );
                },
            }
        } else {
            lemma_walk_errors(after_line(rest), grown(part, first_line(rest)), bodies);
        }
    }
}

/// Decoding a message fails in three ways only: the bytes are not UTF-8,
/// the text ends within a header, or a multipart content type names no
/// boundary. What fails within a part, its content or its content type,
/// costs the part and no more.
pub proof fn lemma_parse_errors(bytes: Seq<u8>)
    ensures
        parsed(bytes) matches Err(e) ==> e is Utf8Error || refuses_block(e),
        parsed_headers(bytes) matches Err(e) ==> e is Utf8Error || refuses_block(e),
{
    if let Some(text) = utf8_text(bytes) {
        lemma_headers_errors(text);
        if let Ok((headers, rest)) = headers_at(text) {
            lemma_walk_errors(rest, opened(headers, None), Seq::empty());
        }
    }
}

/// A header block that ends with a blank line is read to its end or before
/// it: the text does not end within a header.
pub proof fn lemma_block_is_read(block: Seq<char>)
    requires
        ends_with_blank_line(block),
    ensures
        headers_at(block) matches Err(e) ==> e is ExpectingBoundary,
    decreases block.len(),
{
    reveal(headers_at);
    let line = first_line(block);
    match header_line(line) {
        None => {},
        Some((key, start)) => {
            lemma_header_line_is_not_blank(line);
            lemma_blank_line_stays(block);
            lemma_continued_in_block(start, after_line(block), Seq::empty());
            match raw_header_at(block) {
                Err(_) => {},
                Ok(raw) => {
                    lemma_raw_header_advances(block);
                    lemma_block_is_read(raw.left);
                },
            }
        },
    }
}

} // verus!
