use chouette::header::{parse_boundary, parse_content_transfer_encoding, parse_content_type};
use chouette::{
    parse_headers, subject_of, ContentType, Cursor, Encoding, Error, Header, HeaderMap,
    HeaderValue, Headers, Mail,
};

fn chars(s: &str) -> Vec<char> {
    s.chars().collect()
}

fn unknown(key: &str, value: &str) -> Header {
    Header { key: String::from(key), value: HeaderValue::Unknown(String::from(value)) }
}

#[test]
fn content_type_values() {
    assert_eq!(HeaderValue::from_str("Content-Type", "text/plain"), Ok(HeaderValue::ContentType(ContentType::TextPlain)));
    assert_eq!(HeaderValue::from_str("Content-Type", " text/html ; charset=utf-8"), Ok(HeaderValue::ContentType(ContentType::TextHtml)));
    assert_eq!(
        HeaderValue::from_str("Content-Type", "multipart/alternative; boundary=\"abc\""),
        Ok(HeaderValue::ContentType(ContentType::MultipartAlternative(String::from("--abc"))))
    );
    assert_eq!(
        HeaderValue::from_str("Content-Type", "multipart/mixed;\n charset=x;\n boundary= \" a b \" ; x=y"),
        Ok(HeaderValue::ContentType(ContentType::MultipartAlternative(String::from("--a b"))))
    );
    assert_eq!(
        HeaderValue::from_str("content-type", "TEXT/PLAIN"),
        Err(Error::UnknownContentType(String::from("TEXT/PLAIN")))
    );
    assert_eq!(
        HeaderValue::from_str("CONTENT-TYPE", "text/plain"),
        Ok(HeaderValue::ContentType(ContentType::TextPlain))
    );
}

#[test]
fn content_type_boundary_is_that_of_the_last_segment_that_gives_one() {
    assert_eq!(
        parse_content_type(&chars("multipart/mixed; boundary=\"one\"; boundary=\"two\"; boundary=three")),
        Ok(ContentType::MultipartAlternative(String::from("--two")))
    );
    assert_eq!(
        parse_content_type(&chars("multipart/mixed; boundary=\"open")),
        Ok(ContentType::MultipartAlternative(String::from("--open")))
    );
    assert_eq!(
        parse_content_type(&chars("multipart/mixed; boundary=\"\"")),
        Ok(ContentType::MultipartAlternative(String::from("--")))
    );
}

#[test]
fn content_type_errors() {
    assert_eq!(parse_content_type(&chars("multipart/mixed")), Err(Error::ExpectingBoundary));
    assert_eq!(parse_content_type(&chars("multipart/alternative; boundary=abc")), Err(Error::ExpectingBoundary));
    assert_eq!(parse_content_type(&chars("multipart/alternative; boundary=")), Err(Error::ExpectingBoundary));
    assert_eq!(parse_content_type(&chars("multipart/alternative; x\"boundary=\"y\"")), Err(Error::ExpectingBoundary));
    assert_eq!(parse_content_type(&chars("multipart/related; boundary=\"x\"")), Err(Error::UnknownContentType(String::from("multipart/related"))));
    assert_eq!(parse_content_type(&chars("")), Err(Error::UnknownContentType(String::new())));
    assert_eq!(parse_content_type(&chars(" application/pdf ; name=x")), Err(Error::UnknownContentType(String::from("application/pdf"))));
}

#[test]
fn boundary_line_has_two_hyphens_in_front() {
    assert_eq!(parse_boundary(&chars("foobar")), "--foobar");
    assert_eq!(parse_boundary(&chars("")), "--");
}

#[test]
fn transfer_encoding_values() {
    assert_eq!(parse_content_transfer_encoding(&chars("base64")), Encoding::Base64);
    assert_eq!(parse_content_transfer_encoding(&chars("  Base64\r\n")), Encoding::Base64);
    assert_eq!(parse_content_transfer_encoding(&chars("BASE64")), Encoding::Base64);
    assert_eq!(parse_content_transfer_encoding(&chars("quoted-printable")), Encoding::QuotedPrintable);
    assert_eq!(parse_content_transfer_encoding(&chars("7bit")), Encoding::QuotedPrintable);
    assert_eq!(parse_content_transfer_encoding(&chars("")), Encoding::QuotedPrintable);
    assert_eq!(parse_content_transfer_encoding(&chars("base 64")), Encoding::QuotedPrintable);
    assert_eq!(
        HeaderValue::from_str("Content-Transfer-Encoding", "base64"),
        Ok(HeaderValue::ContentTransferEncoding(Encoding::Base64))
    );
    assert_eq!(
        HeaderValue::from_str("content-transfer-encoding", "garbled"),
        Ok(HeaderValue::ContentTransferEncoding(Encoding::QuotedPrintable))
    );
}

#[test]
fn other_values_are_kept_as_they_are() {
    assert_eq!(HeaderValue::from_str("Subject", " =?x "), Ok(HeaderValue::Unknown(String::from(" =?x "))));
    assert_eq!(HeaderValue::from_str("", ""), Ok(HeaderValue::Unknown(String::new())));
    assert_eq!(HeaderValue::from_str("Content-Typ", "text/plain"), Ok(HeaderValue::Unknown(String::from("text/plain"))));
}

#[test]
fn try_read_reads_one_header_and_stops_before_the_next_line() {
    let mut cursor = Cursor::new("Subject:  Hello: world \r\nFrom: me\r\n\r\n");
    let header = Header::try_read(&mut cursor).unwrap();
    assert_eq!(header, unknown("Subject", "Hello: world"));
    assert_eq!(cursor.read_line(), "From: me\r\n");
    assert_eq!(cursor.read_line(), "\r\n");
    assert!(cursor.is_at_end());
    assert_eq!(cursor.read_line(), "");
}

#[test]
fn try_read_joins_folded_lines_and_skips_lines_of_whitespace() {
    let mut cursor = Cursor::new(" Key \t: one\r\n two  \r\n \t \r\n\tthree\r\nNext: x\r\n");
    let header = Header::try_read(&mut cursor).unwrap();
    assert_eq!(header, unknown("Key", "one\ntwo\nthree"));
    assert_eq!(cursor.read_line(), "Next: x\r\n");

    let mut cursor = Cursor::new("Key:\n value\n\n");
    assert_eq!(Header::try_read(&mut cursor).unwrap(), unknown("Key", "\nvalue"));
    assert_eq!(cursor.read_line(), "\n");
}

#[test]
fn try_read_leaves_the_cursor_where_it_was_on_failure() {
    let mut cursor = Cursor::new("no header here\r\nSubject: x\r\n\r\n");
    assert_eq!(Header::try_read(&mut cursor), Err(Error::NotAHeader));
    assert_eq!(cursor.read_line(), "no header here\r\n");

    let mut cursor = Cursor::new("Subject: x\r\n y\r\n");
    assert_eq!(Header::try_read(&mut cursor), Err(Error::IoError));
    assert_eq!(cursor.read_line(), "Subject: x\r\n");

    let mut cursor = Cursor::new("");
    assert_eq!(Header::try_read(&mut cursor), Err(Error::NotAHeader));
    let mut cursor = Cursor::new("\r\nSubject: x\r\n\r\n");
    assert_eq!(Header::try_read(&mut cursor), Err(Error::NotAHeader));
    assert_eq!(cursor.read_line(), "\r\n");
}

#[test]
fn try_read_moves_behind_a_header_whose_value_is_refused() {
    let mut cursor = Cursor::new("Content-Type: multipart/mixed;\r\n charset=x\r\nNext: x\r\n\r\n");
    assert_eq!(Header::try_read(&mut cursor), Err(Error::ExpectingBoundary));
    assert_eq!(cursor.read_line(), "Next: x\r\n");

    let mut cursor = Cursor::new("Content-Type: audio/ogg\r\n\r\n");
    assert_eq!(Header::try_read(&mut cursor), Err(Error::UnknownContentType(String::from("audio/ogg"))));
    assert_eq!(cursor.read_line(), "\r\n");
}

#[test]
fn header_block_ends_behind_its_blank_line() {
    let mut cursor = Cursor::new("A: 1\r\nB: 2\r\n\r\nC: 3\r\n\r\n");
    let headers = Mail::parse_headers(&mut cursor).unwrap();
    assert_eq!(headers, Headers(vec![unknown("A", "1"), unknown("B", "2")]));
    assert_eq!(cursor.read_line(), "C: 3\r\n");
}

#[test]
fn header_block_ends_before_a_line_that_is_no_header() {
    let mut cursor = Cursor::new("A: 1\nbody\n\n");
    let headers = Mail::parse_headers(&mut cursor).unwrap();
    assert_eq!(headers, Headers(vec![unknown("A", "1")]));
    assert_eq!(cursor.read_line(), "body\n");

    let mut cursor = Cursor::new("--X\nA: 1\n\n");
    assert_eq!(Mail::parse_headers(&mut cursor).unwrap(), Headers(vec![]));
    assert_eq!(cursor.read_line(), "--X\n");

    let mut cursor = Cursor::new("");
    assert_eq!(Mail::parse_headers(&mut cursor).unwrap(), Headers(vec![]));
    assert!(cursor.is_at_end());
}

#[test]
fn header_block_that_fails_leaves_the_cursor_where_it_was() {
    let mut cursor = Cursor::new("A: 1\r\nContent-Type: multipart/mixed\r\n\r\n");
    assert_eq!(Mail::parse_headers(&mut cursor), Err(Error::ExpectingBoundary));
    assert_eq!(cursor.read_line(), "A: 1\r\n");

    let mut cursor = Cursor::new("A: 1\r\nB: 2\r\n");
    assert_eq!(Mail::parse_headers(&mut cursor), Err(Error::IoError));
    assert_eq!(cursor.read_line(), "A: 1\r\n");
}

#[test]
fn header_block_leaves_out_a_content_type_that_is_not_known() {
    let mut cursor = Cursor::new("A: 1\r\nContent-Type: x/y;\r\n name=z\r\nB: 2\r\n\r\nbody");
    assert_eq!(Mail::parse_headers(&mut cursor), Ok(Headers(vec![unknown("A", "1"), unknown("B", "2")])));
    assert_eq!(cursor.read_line(), "body");
}

#[test]
fn lookups_take_the_last_header_of_a_key_in_any_case() {
    let mut headers = Headers::new();
    headers.push(unknown("Subject", "first"));
    headers.push(unknown("From", "=?UTF-8?B?SGVsbG8=?="));
    headers.push(unknown("SUBJECT", "last"));
    headers.push(Header { key: String::from("content-type"), value: HeaderValue::ContentType(ContentType::TextHtml) });
    headers.push(Header {
        key: String::from("Content-Type"),
        value: HeaderValue::ContentType(ContentType::MultipartAlternative(String::from("--b"))),
    });
    headers.push(Header {
        key: String::from("Content-Transfer-Encoding"),
        value: HeaderValue::ContentTransferEncoding(Encoding::Base64),
    });
    assert_eq!(headers.subject(), Some(String::from("last")));
    assert_eq!(headers.from(), Some(String::from("Hello")));
    assert_eq!(headers.content_type(), Some(&ContentType::MultipartAlternative(String::from("--b"))));
    assert_eq!(headers.boundary(), Some(&String::from("--b")));
    assert_eq!(headers.content_transfer_encoding(), Some(Encoding::Base64));
    assert_eq!(headers.get("subject"), Some(&HeaderValue::Unknown(String::from("last"))));
    assert_eq!(headers.get("Date"), None);

    let map = headers.into_hash_map();
    assert_eq!(map.len(), 4);
    assert!(!map.is_empty());
    assert_eq!(map.subject(), Some(String::from("last")));
    assert_eq!(map.from(), Some(String::from("Hello")));
    assert_eq!(map.content_type(), Some(&ContentType::MultipartAlternative(String::from("--b"))));
    assert_eq!(map.get("FROM"), Some(&HeaderValue::Unknown(String::from("=?UTF-8?B?SGVsbG8=?="))));
    assert_eq!(map.get("Date"), None);
}

#[test]
fn lookups_of_absent_or_malformed_headers_give_nothing() {
    let mut headers = Headers::new();
    assert_eq!(headers.subject(), None);
    assert_eq!(headers.from(), None);
    assert_eq!(headers.content_type(), None);
    assert_eq!(headers.content_transfer_encoding(), None);
    assert_eq!(headers.boundary(), None);
    headers.push(unknown("Subject", "=?UTF-8?B?*?="));
    headers.push(unknown("Content-Type", "text/plain"));
    headers.push(Header { key: String::from("From"), value: HeaderValue::ContentType(ContentType::TextPlain) });
    assert_eq!(headers.subject(), None);
    assert_eq!(headers.from(), None);
    assert_eq!(headers.content_type(), None);
    assert_eq!(headers.boundary(), None);
}

#[test]
fn mapping_holds_each_key_once() {
    let mut map = HeaderMap::new();
    assert!(map.is_empty());
    assert_eq!(map.len(), 0);
    map.insert(String::from("A"), HeaderValue::Unknown(String::from("1")));
    map.insert(String::from("B"), HeaderValue::Unknown(String::from("2")));
    map.insert(String::from("a"), HeaderValue::Unknown(String::from("3")));
    assert_eq!(map.len(), 2);
    assert_eq!(map.get("A"), Some(&HeaderValue::Unknown(String::from("3"))));
    assert_eq!(map.get("b"), Some(&HeaderValue::Unknown(String::from("2"))));
    assert_eq!(map.get("C"), None);
}

#[test]
fn subject_of_a_header_block() {
    assert_eq!(subject_of(b"From: x\r\nSubject: =?UTF-8?B?SGVsbG8=?=\r\n\r\n"), Some(String::from("Hello")));
    assert_eq!(subject_of(b"From: x\r\n\r\n"), None);
    assert_eq!(subject_of(b"Subject: x\r\n"), None);
    assert_eq!(subject_of(b""), None);
    assert_eq!(subject_of(b"Subject: \xff\r\n\r\n"), None);
    assert_eq!(subject_of(b"Subject: =?UTF-8?B?*?=\r\n\r\n"), None);
}

#[test]
fn parse_headers_reads_the_block_only() {
    let headers = parse_headers(b"A: 1\r\n\r\nContent-Type: nonsense\r\n\r\n").unwrap();
    assert_eq!(headers, Headers(vec![unknown("A", "1")]));
}

#[test]
fn date_is_read_like_the_subject() {
    let headers = parse_headers(b"Date: =?UTF-8?B?SGVsbG8=?=\r\nSubject: s\r\n\r\n").unwrap();
    assert_eq!(headers.date(), Some(String::from("Hello")));
    let map = headers.into_hash_map();
    assert_eq!(map.date(), Some(String::from("Hello")));
    let mail = chouette::parse(b"date: Mon, 04 Feb 2019 14:12:30 GMT\r\n\r\n").unwrap();
    assert_eq!(mail.date(), Some(String::from("Mon, 04 Feb 2019 14:12:30 GMT")));
    assert_eq!(chouette::parse(b"\r\n").unwrap().date(), None);
}

#[test]
fn mapping_hands_out_one_header_for_each_key() {
    let headers = parse_headers(b"A: 1\r\nB: 2\r\na: 3\r\n\r\n").unwrap();
    let map = headers.into_hash_map();
    let entries = map.as_slice();
    assert_eq!(entries.len(), 2);
    assert_eq!(entries[0], unknown("a", "3"));
    assert_eq!(entries[1], unknown("B", "2"));
}

#[test]
fn duplicate_of_a_cursor_reads_on_its_own() {
    let mut cursor = Cursor::new("one\ntwo\n");
    assert_eq!(cursor.read_line(), "one\n");
    let mut copy = cursor.duplicate();
    assert_eq!(copy.read_line(), "two\n");
    assert!(copy.is_at_end());
    assert!(!cursor.is_at_end());
    assert_eq!(cursor.read_line(), "two\n");
}
