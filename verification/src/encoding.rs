//! Decoding of transfer-encoded content and of encoded words in header
//! values.

use vstd::prelude::*;
use crate::codec::{base64_decoding, chars_of, decode_base64, decode_text, string_of, utf8_text};
use crate::error::{Error, ErrorView};
use crate::header::{eq_str, outcome, Encoding};
use crate::text::{append, pieces, split, starts_with, strip_whitespace, views, without_spaces};

verus! {

/// The text that `content` stands for under the transfer encoding `encoding`.
///
/// Quoted-printable content stands for itself. Base64 content is freed of
/// all whitespace and decoded, and the bytes are read as UTF-8.
pub open spec fn decoded(encoding: Encoding, content: Seq<char>) -> Result<Seq<char>, ErrorView> {
    match encoding {
        Encoding::QuotedPrintable => Ok(content),
        Encoding::Base64 => match base64_decoding(without_spaces(content)) {
            None => Err(ErrorView::Base64Error),
            Some(bytes) => match utf8_text(bytes) {
                None => Err(ErrorView::FromUtf8Error),
                Some(text) => Ok(text),
            },
        },
    }
}

/// Decodes `content` under the transfer encoding `encoding`.
pub fn decode_chars(encoding: Encoding, content: &[char]) -> (r: Result<Vec<char>, Error>)
    ensures
        match r {
            Ok(text) => decoded(encoding, content@) == Ok::<Seq<char>, ErrorView>(text@),
            Err(e) => decoded(encoding, content@) == Err::<Seq<char>, ErrorView>(e@),
        },
{
    match encoding {
        Encoding::QuotedPrintable => {
            let mut copy: Vec<char> = Vec::new();
            append(&mut copy, content);
            assert(copy@ =~= content@);
            Ok(copy)
        },
        Encoding::Base64 => {
            let payload = strip_whitespace(content);
            match decode_base64(payload.as_slice()) {
                None => Err(Error::Base64Error),
                Some(bytes) => match decode_text(bytes.as_slice()) {
                    None => Err(Error::FromUtf8Error),
                    Some(text) => Ok(text),
                },
            }
        },
    }
}

impl Encoding {
    /// Decodes `content` under this transfer encoding.
    ///
    /// Quoted-printable content is returned as it is. Base64 content fails
    /// with `Base64Error` where it is malformed, and with `FromUtf8Error`
    /// where it decodes to bytes that are not UTF-8.
    pub fn decode(self, content: &str) -> (r: Result<String, Error>)
        ensures
            outcome(r) == decoded(self, content@),
    {
        let chars = chars_of(content);
        match decode_chars(self, chars.as_slice()) {
            Ok(text) => Ok(string_of(text.as_slice())),
            Err(e) => Err(e),
        }
    }
}

/// The outcome of decoding a payload, as a header value reports it: a
/// payload that is not UTF-8 fails with `Utf8Error`.
pub open spec fn in_header(r: Result<Seq<char>, ErrorView>) -> Result<Seq<char>, ErrorView> {
    match r {
        Err(ErrorView::FromUtf8Error) => Err(ErrorView::Utf8Error),
        _ => r,
    }
}

/// What one encoded word contributes: the decoded payload where its encoding
/// field is `B`, nothing for any other encoding.
pub open spec fn decoded_word(encoding: Seq<char>, payload: Seq<char>) -> Result<
    Seq<char>,
    ErrorView,
> {
    if encoding == "B"@ {
        in_header(decoded(Encoding::Base64, payload))
    } else {
        Ok(Seq::empty())
    }
}

/// The text of the encoded words whose fields are `fields`: the pieces of a
/// header value cut at its question marks. Each word takes four fields; the
/// third is its encoding and the fourth its payload.
pub open spec fn decoded_words(fields: Seq<Seq<char>>) -> Result<Seq<char>, ErrorView>
    decreases fields.len(),
{
    if fields.len() <= 3 {
        Ok(Seq::empty())
    } else {
        match decoded_word(fields[2], fields[3]) {
            Err(e) => Err(e),
            Ok(text) => match decoded_words(fields.skip(4)) {
                Err(e) => Err(e),
                Ok(rest) => Ok(text + rest),
            },
        }
    }
}

/// The text that a header value stands for: that of its encoded words where
/// it begins with `=?`, else the value itself.
pub open spec fn decoded_subject(subject: Seq<char>) -> Result<Seq<char>, ErrorView> {
    if "=?"@.is_prefix_of(subject) {
        decoded_words(pieces(subject, '?'))
    } else {
        Ok(subject)
    }
}

/// `text` put in front of what `r` holds, where it holds a text.
pub open spec fn after(text: Seq<char>, r: Result<Seq<char>, ErrorView>) -> Result<
    Seq<char>,
    ErrorView,
> {
    match r {
        Ok(rest) => Ok(text + rest),
        Err(e) => Err(e),
    }
}

proof fn lemma_decoded_words_step(done: Seq<char>, fields: Seq<Seq<char>>, at: int)
    requires
        0 <= at,
        at + 3 < fields.len(),
    ensures
        after(done, decoded_words(fields.skip(at))) == match decoded_word(
            fields[at + 2],
            fields[at + 3],
        ) {
            Err(e) => Err(e),
            Ok(text) => after(done + text, decoded_words(fields.skip(at + 4))),
        },
{
    let here = fields.skip(at);
    assert(here[2] == fields[at + 2]);
    assert(here[3] == fields[at + 3]);
    assert(here.skip(4) =~= fields.skip(at + 4));
    match decoded_word(fields[at + 2], fields[at + 3]) {
        Err(e) => {},
        Ok(text) => match decoded_words(fields.skip(at + 4)) {
            Err(e) => {},
            Ok(rest) => {
                assert(done + (text + rest) =~= (done + text) + rest);
            },
        },
    }
}

/// Decodes the encoded words of a header value.
pub fn decode_subject_chars(subject: &[char]) -> (r: Result<Vec<char>, Error>)
    ensures
        match r {
            Ok(text) => decoded_subject(subject@) == Ok::<Seq<char>, ErrorView>(text@),
            Err(e) => decoded_subject(subject@) == Err::<Seq<char>, ErrorView>(e@),
        },
{
    let mark = chars_of("=?");
    let mut text: Vec<char> = Vec::new();
    if !starts_with(subject, mark.as_slice()) {
        append(&mut text, subject);
        assert(text@ =~= subject@);
        return Ok(text);
    }
    let fields = split(subject, '?');
    let mut at: usize = 0;
    assert(views(fields@).skip(0) =~= views(fields@));
    assert(after(text@, decoded_words(views(fields@))) == decoded_words(views(fields@))) by {
        match decoded_words(views(fields@)) {
            Ok(rest) => {
                assert(text@ + rest =~= rest);
            },
            Err(e) => {},
        }
    }
    while fields.len() - at > 3
        invariant
            at <= fields.len(),
            decoded_subject(subject@) == decoded_words(views(fields@)),
            after(text@, decoded_words(views(fields@).skip(at as int))) == decoded_words(
                views(fields@),
            ),
        decreases fields.len() - at,
    {
        proof {
            lemma_decoded_words_step(text@, views(fields@), at as int);
            assert(views(fields@)[at + 2] == fields[at + 2]@);
            assert(views(fields@)[at + 3] == fields[at + 3]@);
        }
        if eq_str(fields[at + 2], "B") {
            match decode_chars(Encoding::Base64, fields[at + 3]) {
                Ok(word) => {
                    append(&mut text, word.as_slice());
                },
                Err(Error::FromUtf8Error) => {
                    return Err(Error::Utf8Error);
                },
                Err(e) => {
                    return Err(e);
                },
            }
        } else {
            assert(text@ + Seq::<char>::empty() =~= text@);
        }
        at += 4;
    }
    proof {
        assert(text@ + Seq::<char>::empty() =~= text@);
    }
    Ok(text)
}

/// Decodes a header value that may hold encoded words.
///
/// A value that does not begin with `=?` is returned as it is. Otherwise
/// the payloads of its Base64 words are decoded and joined, and the words of
/// any other encoding are dropped. It fails with `Base64Error` where a
/// payload is malformed, and with `Utf8Error` where a payload decodes to
/// bytes that are not UTF-8.
pub fn decode_subject(subject: &str) -> (r: Result<String, Error>)
    ensures
        outcome(r) == decoded_subject(subject@),
{
    let chars = chars_of(subject);
    match decode_subject_chars(chars.as_slice()) {
        Ok(text) => Ok(string_of(text.as_slice())),
        Err(e) => Err(e),
    }
}

} // verus!
