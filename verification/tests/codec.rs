use chouette::codec::{chars_of, decode_base64, decode_text};

#[test]
fn characters_of_a_string() {
    assert_eq!(chars_of("aé\u{1F600}"), vec!['a', 'é', '\u{1F600}']);
    assert_eq!(chars_of(""), Vec::<char>::new());
}

#[test]
fn bytes_are_read_as_utf8() {
    assert_eq!(decode_text(b"abc"), Some(vec!['a', 'b', 'c']));
    assert_eq!(decode_text("aé\u{1F600}".as_bytes()), Some(vec!['a', 'é', '\u{1F600}']));
    assert_eq!(decode_text(b""), Some(vec![]));
    assert_eq!(decode_text(b"\xc3"), None);
    assert_eq!(decode_text(b"\xed\xa0\x80"), None);
    assert_eq!(decode_text(b"\xc0\x80"), None);
    assert_eq!(decode_text(b"a\xffb"), None);
}

#[test]
fn base64_text_is_decoded_to_bytes() {
    let text: Vec<char> = "//4=".chars().collect();
    assert_eq!(decode_base64(&text), Some(vec![0xff, 0xfe]));
    let text: Vec<char> = "SGVsbG8=".chars().collect();
    assert_eq!(decode_base64(&text), Some(b"Hello".to_vec()));
    assert_eq!(decode_base64(&[]), Some(vec![]));
    let text: Vec<char> = "SGVs bG8=".chars().collect();
    assert_eq!(decode_base64(&text), None);
    let text: Vec<char> = "é".chars().collect();
    assert_eq!(decode_base64(&text), None);
}
