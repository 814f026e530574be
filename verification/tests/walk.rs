use chouette::mail::{close_part, first_body, grow_part, is_separator, open_part, walk, Part};
use chouette::{Body, ContentType, Encoding, Header, HeaderValue, Headers};

fn chars(s: &str) -> Vec<char> {
    s.chars().collect()
}

fn part(boundary: Option<&str>, encoding: Encoding, content_type: Option<ContentType>) -> Part {
    Part { boundary: boundary.map(chars), encoding, content_type, buffer: Vec::new() }
}

fn body(content_type: ContentType, content: &str) -> Body {
    Body { content_type, content: String::from(content) }
}

#[test]
fn bodies_come_in_the_order_of_the_document() {
    let text = chars(
        "preamble\n--X\nContent-Type: text/html\n\none\n--X\nContent-Type: text/plain\n\ntwo\n--X\n\nthree\n--X\nContent-Type: text/html\n\nfour\n",
    );
    let first = part(Some("--X"), Encoding::QuotedPrintable, Some(ContentType::MultipartAlternative(String::from("--X"))));
    let bodies = walk(&text, first).unwrap();
    assert_eq!(
        bodies,
        vec![
            body(ContentType::MultipartAlternative(String::from("--X")), "preamble\n"),
            body(ContentType::TextHtml, "one\n"),
            body(ContentType::TextPlain, "two\n"),
            body(ContentType::TextHtml, "four\n"),
        ]
    );
    assert_eq!(first_body(&bodies, true), Some(String::from("two\n")));
    assert_eq!(first_body(&bodies, false), Some(String::from("one\n")));
    assert_eq!(first_body(&Vec::new(), true), None);
}

#[test]
fn walk_without_boundary_takes_every_line() {
    let text = chars("--X\nContent-Type: text/html\n\nbody\n");
    let bodies = walk(&text, part(None, Encoding::QuotedPrintable, Some(ContentType::TextPlain))).unwrap();
    assert_eq!(bodies, vec![body(ContentType::TextPlain, "--X\nContent-Type: text/html\n\nbody\n")]);
    let bodies = walk(&chars(""), part(None, Encoding::QuotedPrintable, Some(ContentType::TextPlain))).unwrap();
    assert_eq!(bodies, vec![body(ContentType::TextPlain, "")]);
    let bodies = walk(&text, part(None, Encoding::QuotedPrintable, None)).unwrap();
    assert_eq!(bodies, vec![]);
}

#[test]
fn separator_is_a_line_that_begins_with_the_boundary() {
    let reading = part(Some(" --X "), Encoding::Base64, None);
    assert!(is_separator(&reading, &chars("--X\r\n")));
    assert!(is_separator(&reading, &chars("  --X--  \n")));
    assert!(is_separator(&reading, &chars("--Xyz")));
    assert!(!is_separator(&reading, &chars("-- X\n")));
    assert!(!is_separator(&reading, &chars("a--X\n")));
    assert!(!is_separator(&part(None, Encoding::Base64, None), &chars("--X\n")));
}

#[test]
fn parts_open_grow_and_close() {
    let mut headers = Headers::new();
    headers.push(Header { key: String::from("Content-Type"), value: HeaderValue::ContentType(ContentType::TextPlain) });
    let opened = open_part(&headers, Some(chars("--old")));
    assert_eq!(opened.boundary, Some(chars("--old")));
    assert_eq!(opened.encoding, Encoding::QuotedPrintable);
    assert_eq!(opened.content_type, Some(ContentType::TextPlain));
    assert_eq!(opened.buffer, chars(""));

    headers.push(Header {
        key: String::from("content-type"),
        value: HeaderValue::ContentType(ContentType::MultipartAlternative(String::from("--new"))),
    });
    headers.push(Header {
        key: String::from("Content-Transfer-Encoding"),
        value: HeaderValue::ContentTransferEncoding(Encoding::Base64),
    });
    let mut opened = open_part(&headers, Some(chars("--old")));
    assert_eq!(opened.boundary, Some(chars("--new")));
    assert_eq!(opened.encoding, Encoding::Base64);
    opened.content_type = Some(ContentType::TextHtml);

    grow_part(&mut opened, &chars("  SGVs \r\n"));
    grow_part(&mut opened, &chars("bG8=\r\n"));
    assert_eq!(opened.buffer, chars("SGVsbG8="));
    let mut bodies = vec![body(ContentType::TextPlain, "before")];
    close_part(opened, &mut bodies);
    assert_eq!(bodies, vec![body(ContentType::TextPlain, "before"), body(ContentType::TextHtml, "Hello")]);

    let mut plain = part(None, Encoding::QuotedPrintable, Some(ContentType::TextPlain));
    grow_part(&mut plain, &chars("  a \r\n"));
    assert_eq!(plain.buffer, chars("  a \r\n"));

    let mut broken = part(None, Encoding::Base64, Some(ContentType::TextPlain));
    grow_part(&mut broken, &chars("*"));
    close_part(broken, &mut bodies);
    assert_eq!(bodies.len(), 2);
    close_part(part(None, Encoding::QuotedPrintable, None), &mut bodies);
    assert_eq!(bodies.len(), 2);
}
