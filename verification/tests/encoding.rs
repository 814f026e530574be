use chouette::{decode_subject, Encoding, Error};

#[test]
fn quoted_printable_content_is_taken_as_it_stands() {
    assert_eq!(
        Encoding::QuotedPrintable.decode("Proof by Euro: =E2=82=AC\r\n"),
        Ok(String::from("Proof by Euro: =E2=82=AC\r\n"))
    );
    assert_eq!(Encoding::QuotedPrintable.decode(""), Ok(String::new()));
}

#[test]
fn base64_content_is_decoded() {
    assert_eq!(Encoding::Base64.decode("SGVsbG8="), Ok(String::from("Hello")));
    assert_eq!(Encoding::Base64.decode("Qm9uam91ciDDoCB0b3Vz"), Ok(String::from("Bonjour à tous")));
    assert_eq!(Encoding::Base64.decode(""), Ok(String::new()));
}

#[test]
fn base64_content_is_freed_of_whitespace_first() {
    assert_eq!(Encoding::Base64.decode(" SGVs\r\n bG8= \n"), Ok(String::from("Hello")));
    assert_eq!(Encoding::Base64.decode("S G V s b G 8 ="), Ok(String::from("Hello")));
}

#[test]
fn malformed_base64_content_fails() {
    assert_eq!(Encoding::Base64.decode("A"), Err(Error::Base64Error));
    assert_eq!(Encoding::Base64.decode("!!!!"), Err(Error::Base64Error));
    assert_eq!(Encoding::Base64.decode("SGVs*G8="), Err(Error::Base64Error));
}

#[test]
fn base64_content_that_is_not_utf8_fails() {
    assert_eq!(Encoding::Base64.decode("//4="), Err(Error::FromUtf8Error));
}

#[test]
fn plain_subject_is_returned_as_it_is() {
    assert_eq!(decode_subject("Hello?"), Ok(String::from("Hello?")));
    assert_eq!(decode_subject(""), Ok(String::new()));
    assert_eq!(decode_subject("= ?UTF-8?B?SGVsbG8=?="), Ok(String::from("= ?UTF-8?B?SGVsbG8=?=")));
}

#[test]
fn encoded_words_are_decoded_and_joined() {
    assert_eq!(decode_subject("=?UTF-8?B?SGVsbG8=?="), Ok(String::from("Hello")));
    assert_eq!(
        decode_subject("=?UTF-8?B?SGVsbG8=?= =?UTF-8?B?Qm9uam91ciDDoCB0b3Vz?="),
        Ok(String::from("HelloBonjour à tous"))
    );
    assert_eq!(
        decode_subject("=?UTF-8?B?SGVsbG8=?=\n=?utf-8?B?SGVsbG8=?="),
        Ok(String::from("HelloHello"))
    );
}

#[test]
fn words_of_another_encoding_are_dropped() {
    assert_eq!(decode_subject("=?UTF-8?Q?Hello?="), Ok(String::new()));
    assert_eq!(decode_subject("=?UTF-8?b?SGVsbG8=?="), Ok(String::new()));
    assert_eq!(
        decode_subject("=?UTF-8?Q?Hello?= =?UTF-8?B?SGVsbG8=?="),
        Ok(String::from("Hello"))
    );
}

#[test]
fn words_cut_short_give_nothing() {
    assert_eq!(decode_subject("=?"), Ok(String::new()));
    assert_eq!(decode_subject("=?UTF-8?B"), Ok(String::new()));
    assert_eq!(decode_subject("=?UTF-8?B?SGVsbG8="), Ok(String::from("Hello")));
}

#[test]
fn malformed_encoded_word_fails() {
    assert_eq!(decode_subject("=?UTF-8?B?A?="), Err(Error::Base64Error));
    assert_eq!(decode_subject("=?UTF-8?B?//4=?="), Err(Error::Utf8Error));
    assert_eq!(
        decode_subject("=?UTF-8?B?SGVsbG8=?= =?UTF-8?B?*?="),
        Err(Error::Base64Error)
    );
}

#[test]
fn encoded_word_round_trip() {
    for text in ["", "a", "Hello, world", "Re: [list] 100% of ~tilde~ {braces}", "Aidez-nous à vous protéger"] {
        let word = format!("=?UTF-8?B?{}?=", base64::encode(text));
        assert_eq!(decode_subject(&word), Ok(String::from(text)), "{:?}", text);
    }
    let mut ascii = String::new();
    let mut c = 0u8;
    while c < 128 {
        ascii.push(c as char);
        c += 1;
    }
    let word = format!("=?UTF-8?B?{}?=", base64::encode(&ascii));
    assert_eq!(decode_subject(&word), Ok(ascii));
}
