//! What the answer to a prompt means: the decisions of an interactive setup,
//! apart from the reading and printing around them.

use vstd::prelude::*;
use vstd::slice::slice_subrange;
use vstd::string::StringSliceAdditionalSpecFns;
use crate::codec::{chars_of, string_of};
use crate::header::eq_str;

verus! {

/// Whether a line that was read holds no answer: it is empty or a line feed
/// alone, a single byte at most.
pub open spec fn is_no_answer(line: Seq<char>) -> bool {
    vstd::utf8::encode_utf8(line).len() <= 1
}

/// The meaning of the answer `line` to a yes-or-no question: the default
/// where the line holds no answer, yes for `y` and no for `n` in either
/// case, each followed by a line feed, and nothing for any other line.
pub open spec fn bool_answer(line: Seq<char>, default: bool) -> Option<bool> {
    if is_no_answer(line) {
        Some(default)
    } else if line == "y\n"@ || line == "Y\n"@ {
        Some(true)
    } else if line == "n\n"@ || line == "N\n"@ {
        Some(false)
    } else {
        None
    }
}

/// Reads the answer to a yes-or-no question. `None` asks for the question
/// to be put again.
pub fn read_bool(line: &str, default: bool) -> (r: Option<bool>)
    ensures
        r == bool_answer(line@, default),
{
    if line.as_bytes().len() <= 1 {
        return Some(default);
    }
    let chars = chars_of(line);
    if eq_str(chars.as_slice(), "y\n") || eq_str(chars.as_slice(), "Y\n") {
        Some(true)
    } else if eq_str(chars.as_slice(), "n\n") || eq_str(chars.as_slice(), "N\n") {
        Some(false)
    } else {
        None
    }
}

/// `line` without its last character.
pub open spec fn without_last(line: Seq<char>) -> Seq<char> {
    if line.len() > 0 {
        line.drop_last()
    } else {
        line
    }
}

/// The meaning of the answer `line` to a question for a text: the default,
/// where there is one and the line holds no answer, else the line without
/// its last character, the line feed.
pub open spec fn input_answer(line: Seq<char>, default: Option<Seq<char>>) -> Seq<char> {
    match default {
        Some(d) if is_no_answer(line) => d,
        _ => without_last(line),
    }
}

/// Reads the answer to a question for a text.
pub fn read_input(line: &str, default: Option<String>) -> (r: String)
    ensures
        r@ == input_answer(
            line@,
            match default {
                Some(d) => Some(d@),
                None => None,
            },
        ),
{
    match default {
        Some(d) => {
            if line.as_bytes().len() <= 1 {
                return d;
            }
        },
        None => {},
    }
    let chars = chars_of(line);
    if chars.len() > 0 {
        string_of(slice_subrange(chars.as_slice(), 0, chars.len() - 1))
    } else {
        string_of(chars.as_slice())
    }
}

/// The meaning of the answer `line` to a question for a password: the
/// default, where there is one and the line is empty, else the line.
pub open spec fn password_answer(line: Seq<char>, default: Option<Seq<char>>) -> Seq<char> {
    match default {
        Some(d) if line.len() == 0 => d,
        _ => line,
    }
}

/// Reads the answer to a question for a password.
pub fn read_password(line: String, default: Option<String>) -> (r: String)
    ensures
        r@ == password_answer(
            line@,
            match default {
                Some(d) => Some(d@),
                None => None,
            },
        ),
{
    match default {
        Some(d) => {
            if line.as_str().is_empty() {
                d
            } else {
                line
            }
        },
        None => line,
    }
}

} // verus!
