use chouette::{parse, parse_with_limits, Error, Limits};

const NESTED: &str = "Subject: nested\r\n\
Content-Type: multipart/mixed; boundary=\"outer\"\r\n\
\r\n\
--outer\r\n\
Content-Type: multipart/alternative; boundary=\"inner\"\r\n\
\r\n\
--inner\r\n\
Content-Type: text/plain\r\n\
\r\n\
plain\r\n\
--inner\r\n\
Content-Type: text/html\r\n\
\r\n\
<p>html</p>\r\n\
--inner--\r\n\
--outer\r\n\
Content-Type: text/html\r\n\
\r\n\
<p>outer</p>\r\n\
--outer--\r\n";

const TWO_PARTS: &str = "Content-Type: multipart/alternative; boundary=\"X\"\r\n\
\r\n\
--X\r\n\
Content-Type: text/plain\r\n\
\r\n\
0123456789\r\n\
0123456789\r\n\
--X\r\n\
Content-Type: text/html\r\n\
\r\n\
<p>ok</p>\r\n\
--X--\r\n";

#[test]
fn without_limits_the_message_is_decoded_as_ever() {
    for message in [NESTED, TWO_PARTS, "", "Subject: x\r\n\r\nbody", "Content-Type: text/plain\n\nHi\n"] {
        let within = parse_with_limits(message.as_bytes(), &Limits::unbounded()).unwrap();
        let plain = parse(message.as_bytes()).unwrap();
        assert_eq!(within.plain, plain.plain);
        assert_eq!(within.html, plain.html);
        assert_eq!(within.subject(), plain.subject());
        assert_eq!(within.headers.len(), plain.headers.len());
    }
}

#[test]
fn a_part_that_outgrows_its_bound_is_left_out() {
    let mail = parse_with_limits(TWO_PARTS.as_bytes(), &Limits::new(23, 8)).unwrap();
    assert_eq!(mail.plain, None);
    assert_eq!(mail.html, Some(String::from("<p>ok</p>\r\n")));

    let mail = parse_with_limits(TWO_PARTS.as_bytes(), &Limits::new(24, 8)).unwrap();
    assert_eq!(mail.plain, Some(String::from("0123456789\r\n0123456789\r\n")));
    assert_eq!(mail.html, Some(String::from("<p>ok</p>\r\n")));

    let mail = parse_with_limits(TWO_PARTS.as_bytes(), &Limits::new(0, 8)).unwrap();
    assert_eq!(mail.plain, None);
    assert_eq!(mail.html, None);
}

#[test]
fn a_part_under_base64_is_measured_by_its_trimmed_lines() {
    let message = "Content-Type: text/plain\r\nContent-Transfer-Encoding: base64\r\n\r\n   SGVs   \r\n   bG8=   \r\n";
    let bound = Limits { max_part_len: Some(8), max_depth: None };
    assert_eq!(parse_with_limits(message.as_bytes(), &bound).unwrap().plain, Some(String::from("Hello")));
    let bound = Limits { max_part_len: Some(7), max_depth: None };
    assert_eq!(parse_with_limits(message.as_bytes(), &bound).unwrap().plain, None);
}

#[test]
fn containers_beyond_the_greatest_depth_are_not_followed() {
    let all = parse_with_limits(NESTED.as_bytes(), &Limits::new(1000, 2)).unwrap();
    assert_eq!(all.plain, Some(String::from("plain\r\n")));
    assert_eq!(all.html, Some(String::from("<p>html</p>\r\n")));

    let outer_only = parse_with_limits(NESTED.as_bytes(), &Limits::new(1000, 1)).unwrap();
    assert_eq!(outer_only.plain, None);
    assert_eq!(outer_only.html, Some(String::from("<p>outer</p>\r\n")));

    let none = parse_with_limits(NESTED.as_bytes(), &Limits::new(1000, 0)).unwrap();
    assert_eq!(none.plain, None);
    assert_eq!(none.html, None);
    assert_eq!(none.subject(), Some(String::from("nested")));
}

#[test]
fn errors_are_those_of_decoding_without_limits() {
    let limits = Limits::new(10, 1);
    assert!(matches!(parse_with_limits(b"\xff", &limits), Err(Error::Utf8Error)));
    assert!(matches!(parse_with_limits(b"A: b\r\n", &limits), Err(Error::IoError)));
    assert!(matches!(
        parse_with_limits(b"Content-Type: multipart/mixed\r\n\r\n", &limits),
        Err(Error::ExpectingBoundary)
    ));
}
