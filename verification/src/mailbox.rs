//! Mailboxes of a mail account, named by the parts of their path.

use vstd::prelude::*;
use vstd::slice::slice_subrange;
use crate::codec::{chars_of, string_of};
use crate::text::starts_with;

verus! {

/// Whether `pattern` stands in `s` at position `i`.
pub open spec fn occurs_at(s: Seq<char>, pattern: Seq<char>, i: int) -> bool {
    0 <= i && i + pattern.len() <= s.len() && s.subrange(i, i + pattern.len()) == pattern
}

/// The first position at which `pattern` stands in `s`, if it stands
/// anywhere.
#[verifier::opaque]
pub open spec fn first_occurrence(s: Seq<char>, pattern: Seq<char>) -> Option<int> {
    if exists|i: int| occurs_at(s, pattern, i) {
        Some(
            choose|i: int|
                occurs_at(s, pattern, i) && forall|j: int| 0 <= j < i ==> !occurs_at(s, pattern, j),
        )
    } else {
        None
    }
}

proof fn lemma_least_occurrence(s: Seq<char>, pattern: Seq<char>, k: int)
    requires
        occurs_at(s, pattern, k),
    ensures
        exists|i: int|
            occurs_at(s, pattern, i) && forall|j: int| 0 <= j < i ==> !occurs_at(s, pattern, j),
    decreases k,
{
    if forall|j: int| 0 <= j < k ==> !occurs_at(s, pattern, j) {
    } else {
        let j = choose|j: int| 0 <= j < k && occurs_at(s, pattern, j);
        lemma_least_occurrence(s, pattern, j);
    }
}

/// `first_occurrence` is the least position at which `pattern` stands, and
/// is absent exactly where it stands nowhere.
pub proof fn lemma_first_occurrence(s: Seq<char>, pattern: Seq<char>)
    ensures
        match first_occurrence(s, pattern) {
            Some(i) => occurs_at(s, pattern, i) && forall|j: int|
                0 <= j < i ==> !occurs_at(s, pattern, j),
            None => forall|j: int| !occurs_at(s, pattern, j),
        },
{
    reveal(first_occurrence);
    if exists|i: int| occurs_at(s, pattern, i) {
        let k = choose|k: int| occurs_at(s, pattern, k);
        lemma_least_occurrence(s, pattern, k);
    }
}

/// Finds the first position at which `pattern` stands in `s`.
pub fn find_str(s: &[char], pattern: &[char]) -> (r: Option<usize>)
    ensures
        match r {
            Some(i) => first_occurrence(s@, pattern@) == Some(i as int) && i + pattern.len()
                <= s.len(),
            None => first_occurrence(s@, pattern@) is None,
        },
{
    proof {
        lemma_first_occurrence(s@, pattern@);
    }
    if pattern.len() > s.len() {
        return None;
    }
    let last = s.len() - pattern.len();
    let mut i: usize = 0;
    while i <= last
        invariant
            i <= last + 1,
            last == s.len() - pattern.len(),
            pattern.len() <= s.len(),
            forall|j: int| 0 <= j < i ==> !occurs_at(s@, pattern@, j),
        decreases last + 1 - i,
    {
        let tail = slice_subrange(s, i, s.len());
        if starts_with(tail, pattern) {
            assert(tail@.subrange(0, pattern@.len() as int) =~= s@.subrange(
                i as int,
                i + pattern@.len(),
            ));
            assert(occurs_at(s@, pattern@, i as int));
            proof {
                lemma_first_occurrence(s@, pattern@);
            }
            return Some(i);
        }
        assert(!occurs_at(s@, pattern@, i as int)) by {
            assert(tail@.subrange(0, pattern@.len() as int) =~= s@.subrange(
                i as int,
                i + pattern@.len(),
            ));
        }
        i += 1;
    }
    None
}

/// The parts into which the delimiter cuts the name of a mailbox. An empty
/// delimiter cuts before and after every character.
#[verifier::opaque]
pub open spec fn name_parts(name: Seq<char>, delimiter: Seq<char>) -> Seq<Seq<char>>
    decreases name.len(),
{
    if delimiter.len() == 0 {
        seq![Seq::<char>::empty()] + name.map_values(|c: char| seq![c]) + seq![
            Seq::<char>::empty(),
        ]
    } else {
        match first_occurrence(name, delimiter) {
            Some(i) => {
                proof {
                    lemma_first_occurrence(name, delimiter);
                }
                seq![name.take(i)] + name_parts(name.skip(i + delimiter.len()), delimiter)
            },
            None => seq![name],
        }
    }
}

/// The views of a sequence of strings.
pub open spec fn string_views(v: Seq<String>) -> Seq<Seq<char>> {
    v.map_values(|s: String| s@)
}

proof fn lemma_parts_next(
    done: Seq<Seq<char>>,
    name: Seq<char>,
    delimiter: Seq<char>,
    start: int,
    i: int,
)
    requires
        delimiter.len() > 0,
        0 <= start <= name.len(),
        done + name_parts(name.skip(start), delimiter) == name_parts(name, delimiter),
        first_occurrence(name.skip(start), delimiter) == Some(i),
    ensures
        start + i + delimiter.len() <= name.len(),
        done.push(name.subrange(start, start + i)) + name_parts(
            name.skip(start + i + delimiter.len()),
            delimiter,
        ) == name_parts(name, delimiter),
{
    reveal(name_parts);
    let rest = name.skip(start);
    lemma_first_occurrence(rest, delimiter);
    let tail = name_parts(rest.skip(i + delimiter.len()), delimiter);
    assert(rest.skip(i + delimiter.len()) =~= name.skip(start + i + delimiter.len()));
    assert(rest.take(i) =~= name.subrange(start, start + i));
    assert(done.push(rest.take(i)) + tail =~= done + (seq![rest.take(i)] + tail));
}

proof fn lemma_parts_last(done: Seq<Seq<char>>, name: Seq<char>, delimiter: Seq<char>, start: int)
    requires
        delimiter.len() > 0,
        0 <= start <= name.len(),
        done + name_parts(name.skip(start), delimiter) == name_parts(name, delimiter),
        first_occurrence(name.skip(start), delimiter) is None,
    ensures
        done.push(name.skip(start)) == name_parts(name, delimiter),
{
    reveal(name_parts);
    assert(done.push(name.skip(start)) =~= done + seq![name.skip(start)]);
}

proof fn lemma_string_views_push(v: Seq<String>, s: String)
    ensures
        string_views(v.push(s)) == string_views(v).push(s@),
{
    assert(string_views(v.push(s)) =~= string_views(v).push(s@));
}

/// A mailbox of a mail account.
#[derive(Debug, PartialEq, Eq)]
pub struct Mailbox {
    /// The parts of the name of the mailbox, from the root down.
    pub name: Vec<String>,
}

impl View for Mailbox {
    type V = Seq<Seq<char>>;

    open spec fn view(&self) -> Seq<Seq<char>> {
        string_views(self.name@)
    }
}

impl Mailbox {
    /// The mailbox with the name `name`, whose parts the account separates
    /// by `delimiter`. Without a delimiter the name is a single part.
    pub fn from_name(name: &str, delimiter: Option<&str>) -> (r: Mailbox)
        ensures
            r@ == match delimiter {
                Some(d) => name_parts(name@, d@),
                None => seq![name@],
            },
    {
        let mut parts: Vec<String> = Vec::new();
        let delimiter = match delimiter {
            Some(d) => chars_of(d),
            None => {
                parts.push(name.to_owned());
                assert(string_views(parts@) =~= seq![name@]);
                return Mailbox { name: parts };
            },
        };
        let text = chars_of(name);
        if delimiter.len() == 0 {
            proof {
                reveal(name_parts);
            }
            let empty: Vec<char> = Vec::new();
            parts.push(string_of(empty.as_slice()));
            let ghost singles = text@.map_values(|c: char| seq![c]);
            let mut i: usize = 0;
            while i < text.len()
                invariant
                    i <= text.len(),
                    singles == text@.map_values(|c: char| seq![c]),
                    string_views(parts@) =~= seq![Seq::<char>::empty()] + singles.take(i as int),
                decreases text.len() - i,
            {
                let ghost before = parts@;
                let part = string_of(slice_subrange(text.as_slice(), i, i + 1));
                assert(part@ =~= seq![text[i as int]]);
                parts.push(part);
                proof {
                    lemma_string_views_push(before, part);
                    assert(singles.take(i + 1) =~= singles.take(i as int).push(singles[i as int]));
                }
                i += 1;
            }
            let ghost before = parts@;
            let last = string_of(empty.as_slice());
            parts.push(last);
            proof {
                lemma_string_views_push(before, last);
                assert(singles.take(text.len() as int) =~= singles);
                assert(string_views(parts@) =~= seq![Seq::<char>::empty()] + singles + seq![
                    Seq::<char>::empty(),
                ]);
            }
            return Mailbox { name: parts };
        }
        let mut start: usize = 0;
        proof {
            assert(text@.skip(0) =~= text@);
            assert(string_views(parts@) + name_parts(text@, delimiter@) =~= name_parts(
                text@,
                delimiter@,
            ));
        }
        loop
            invariant_except_break
                start <= text.len(),
                string_views(parts@) + name_parts(text@.skip(start as int), delimiter@)
                    == name_parts(text@, delimiter@),
            invariant
                delimiter.len() > 0,
            ensures
                string_views(parts@) == name_parts(text@, delimiter@),
            decreases text.len() - start,
        {
            let rest = slice_subrange(text.as_slice(), start, text.len());
            let ghost before = parts@;
            match find_str(rest, delimiter.as_slice()) {
                Some(i) => {
                    proof {
                        lemma_parts_next(
                            string_views(before),
                            text@,
                            delimiter@,
                            start as int,
                            i as int,
                        );
                    }
                    let part = string_of(slice_subrange(text.as_slice(), start, start + i));
                    parts.push(part);
                    proof {
                        lemma_string_views_push(before, part);
                    }
                    start = start + i + delimiter.len();
                },
                None => {
                    let part = string_of(rest);
                    parts.push(part);
                    proof {
                        lemma_parts_last(string_views(before), text@, delimiter@, start as int);
                        lemma_string_views_push(before, part);
                    }
                    break ;
                },
            }
        }
        Mailbox { name: parts }
    }
}

} // verus!
