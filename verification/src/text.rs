//! Characters and character sequences: the vocabulary in which the
//! decoder's contracts are written, with executable counterparts on slices.

use vstd::prelude::*;
use vstd::slice::slice_subrange;

verus! {

/// Whether `c` has the Unicode property White_Space.
pub open spec fn is_space(c: char) -> bool {
    let n = c as u32;
    ||| 0x09 <= n <= 0x0D
    ||| n == 0x20
    ||| n == 0x85
    ||| n == 0xA0
    ||| n == 0x1680
    ||| 0x2000 <= n <= 0x200A
    ||| n == 0x2028
    ||| n == 0x2029
    ||| n == 0x202F
    ||| n == 0x205F
    ||| n == 0x3000
}

/// Tests a character for the Unicode property White_Space.
pub fn is_whitespace(c: char) -> (b: bool)
    ensures
        b == is_space(c),
{
    let n: u32 = c as u32;
    (0x09 <= n && n <= 0x0D) || n == 0x20 || n == 0x85 || n == 0xA0 || n == 0x1680 || (0x2000 <= n
        && n <= 0x200A) || n == 0x2028 || n == 0x2029 || n == 0x202F || n == 0x205F || n == 0x3000
}

/// `c` with an ASCII capital letter replaced by its small letter.
pub open spec fn lower(c: char) -> char {
    if 'A' <= c <= 'Z' {
        ((c as u8) + 32) as char
    } else {
        c
    }
}

/// Maps an ASCII capital letter to its small letter and leaves every other
/// character as it is.
pub fn to_lower(c: char) -> (r: char)
    ensures
        r == lower(c),
{
    if 'A' <= c && c <= 'Z' {
        ((c as u8) + 32) as char
    } else {
        c
    }
}

/// `s` with every ASCII capital letter replaced by its small letter.
pub open spec fn lowered(s: Seq<char>) -> Seq<char> {
    s.map_values(|c: char| lower(c))
}

/// Whether `a` and `b` are equal up to the case of ASCII letters.
pub open spec fn same_ignoring_case(a: Seq<char>, b: Seq<char>) -> bool {
    lowered(a) == lowered(b)
}

/// Compares two character slices up to the case of ASCII letters.
pub fn eq_ignore_case(a: &[char], b: &[char]) -> (r: bool)
    ensures
        r == same_ignoring_case(a@, b@),
{
    if a.len() != b.len() {
        assert(lowered(a@).len() != lowered(b@).len());
        return false;
    }
    let mut i: usize = 0;
    while i < a.len()
        invariant
            i <= a.len(),
            a.len() == b.len(),
            forall|j: int| 0 <= j < i ==> lower(a[j]) == lower(b[j]),
        decreases a.len() - i,
    {
        if to_lower(a[i]) != to_lower(b[i]) {
            assert(lowered(a@)[i as int] != lowered(b@)[i as int]);
            return false;
        }
        i += 1;
    }
    assert(lowered(a@) =~= lowered(b@));
    true
}

/// Compares two character slices for equality.
pub fn eq(a: &[char], b: &[char]) -> (r: bool)
    ensures
        r == (a@ == b@),
{
    if a.len() != b.len() {
        return false;
    }
    let mut i: usize = 0;
    while i < a.len()
        invariant
            i <= a.len(),
            a.len() == b.len(),
            forall|j: int| 0 <= j < i ==> a[j] == b[j],
        decreases a.len() - i,
    {
        if a[i] != b[i] {
            return false;
        }
        i += 1;
    }
    assert(a@ =~= b@);
    true
}

/// Whether `s` begins with `prefix`.
pub fn starts_with(s: &[char], prefix: &[char]) -> (r: bool)
    ensures
        r == prefix@.is_prefix_of(s@),
{
    if prefix.len() > s.len() {
        return false;
    }
    let mut i: usize = 0;
    while i < prefix.len()
        invariant
            i <= prefix.len() <= s.len(),
            forall|j: int| 0 <= j < i ==> s[j] == prefix[j],
        decreases prefix.len() - i,
    {
        if s[i] != prefix[i] {
            return false;
        }
        i += 1;
    }
    assert(prefix@ =~= s@.subrange(0, prefix@.len() as int));
    true
}

/// The position of the first occurrence of `c` in `s`, if there is one.
#[verifier::opaque]
pub open spec fn first_index(s: Seq<char>, c: char) -> Option<int> {
    if s.contains(c) {
        Some(
            choose|i: int|
                0 <= i < s.len() && s[i] == c && forall|j: int| 0 <= j < i ==> s[j] != c,
        )
    } else {
        None
    }
}

proof fn lemma_least_occurrence(s: Seq<char>, c: char, k: int)
    requires
        0 <= k < s.len(),
        s[k] == c,
    ensures
        exists|i: int| 0 <= i <= k && s[i] == c && forall|j: int| 0 <= j < i ==> s[j] != c,
    decreases k,
{
    if forall|j: int| 0 <= j < k ==> s[j] != c {
    } else {
        let j = choose|j: int| 0 <= j < k && s[j] == c;
        lemma_least_occurrence(s, c, j);
    }
}

/// `first_index` is the least position that holds `c`, and is absent exactly
/// when `c` does not occur.
pub proof fn lemma_first_index(s: Seq<char>, c: char)
    ensures
        match first_index(s, c) {
            Some(i) => 0 <= i < s.len() && s[i] == c && forall|j: int| 0 <= j < i ==> s[j] != c,
            None => forall|j: int| 0 <= j < s.len() ==> s[j] != c,
        },
{
    reveal(first_index);
    if s.contains(c) {
        let k = choose|k: int| 0 <= k < s.len() && s[k] == c;
        lemma_least_occurrence(s, c, k);
    }
}

/// A position that holds `c` with no `c` before it is the first index.
pub proof fn lemma_first_index_at(s: Seq<char>, c: char, i: int)
    requires
        0 <= i < s.len(),
        s[i] == c,
        forall|j: int| 0 <= j < i ==> s[j] != c,
    ensures
        first_index(s, c) == Some(i),
{
    reveal(first_index);
    lemma_first_index(s, c);
}

/// Finds the first occurrence of `c` in `s`.
pub fn find(s: &[char], c: char) -> (r: Option<usize>)
    ensures
        match r {
            Some(i) => first_index(s@, c) == Some(i as int) && i < s.len(),
            None => first_index(s@, c) is None,
        },
{
    let mut i: usize = 0;
    while i < s.len()
        invariant
            i <= s.len(),
            forall|j: int| 0 <= j < i ==> s[j] != c,
        decreases s.len() - i,
    {
        if s[i] == c {
            proof {
                lemma_first_index_at(s@, c, i as int);
            }
            return Some(i);
        }
        i += 1;
    }
    proof {
        lemma_first_index(s@, c);
    }
    None
}

/// `s` without the whitespace it begins with.
pub open spec fn trimmed_start(s: Seq<char>) -> Seq<char>
    decreases s.len(),
{
    if s.len() > 0 && is_space(s[0]) {
        trimmed_start(s.drop_first())
    } else {
        s
    }
}

/// `s` without the whitespace it ends with.
pub open spec fn trimmed_end(s: Seq<char>) -> Seq<char>
    decreases s.len(),
{
    if s.len() > 0 && is_space(s.last()) {
        trimmed_end(s.drop_last())
    } else {
        s
    }
}

/// `s` without the whitespace at either end.
pub open spec fn trimmed(s: Seq<char>) -> Seq<char> {
    trimmed_end(trimmed_start(s))
}

/// Where `n` leading characters are whitespace and the next one is not,
/// trimming the start removes exactly those `n`.
pub proof fn lemma_trimmed_start(s: Seq<char>, n: int)
    requires
        0 <= n <= s.len(),
        forall|j: int| 0 <= j < n ==> is_space(s[j]),
        n == s.len() || !is_space(s[n]),
    ensures
        trimmed_start(s) == s.skip(n),
    decreases n,
{
    if n == 0 {
        assert(s.skip(0) =~= s);
    } else {
        lemma_trimmed_start(s.drop_first(), n - 1);
        assert(s.drop_first().skip(n - 1) =~= s.skip(n));
    }
}

/// Where everything from position `n` on is whitespace and the character
/// before `n` is not, trimming the end keeps exactly the first `n`.
pub proof fn lemma_trimmed_end(s: Seq<char>, n: int)
    requires
        0 <= n <= s.len(),
        forall|j: int| n <= j < s.len() ==> is_space(s[j]),
        n == 0 || !is_space(s[n - 1]),
    ensures
        trimmed_end(s) == s.take(n),
    decreases s.len() - n,
{
    if n == s.len() {
        assert(s.take(n) =~= s);
    } else {
        lemma_trimmed_end(s.drop_last(), n);
        assert(s.drop_last().take(n) =~= s.take(n));
    }
}

/// Removes the whitespace at both ends of `s`.
pub fn trim<'a>(s: &'a [char]) -> (r: &'a [char])
    ensures
        r@ == trimmed(s@),
{
    let mut a: usize = 0;
    while a < s.len() && is_whitespace(s[a])
        invariant
            a <= s.len(),
            forall|j: int| 0 <= j < a ==> is_space(s[j]),
        decreases s.len() - a,
    {
        a += 1;
    }
    let mut b: usize = s.len();
    while b > a && is_whitespace(s[b - 1])
        invariant
            a <= b <= s.len(),
            forall|j: int| b <= j < s.len() ==> is_space(s[j]),
        decreases b,
    {
        b -= 1;
    }
    proof {
        lemma_trimmed_start(s@, a as int);
        lemma_trimmed_end(s@.skip(a as int), b - a);
        assert(s@.skip(a as int).take(b - a) =~= s@.subrange(a as int, b as int));
    }
    slice_subrange(s, a, b)
}

/// The views of a sequence of slices.
pub open spec fn views(v: Seq<&[char]>) -> Seq<Seq<char>> {
    v.map_values(|p: &[char]| p@)
}

/// The pieces into which the occurrences of `c` cut `s`: one more than there
/// are occurrences, none of them holding `c`.
#[verifier::opaque]
pub open spec fn pieces(s: Seq<char>, c: char) -> Seq<Seq<char>>
    decreases s.len(),
{
    match first_index(s, c) {
        Some(i) => {
            proof {
                lemma_first_index(s, c);
            }
            seq![s.take(i)] + pieces(s.skip(i + 1), c)
        },
        None => seq![s],
    }
}

/// Cutting at the first occurrence of `c` gives the first piece; the others
/// are the pieces of what follows that occurrence.
pub proof fn lemma_pieces_step(s: Seq<char>, c: char, i: int)
    requires
        first_index(s, c) == Some(i),
    ensures
        0 <= i < s.len(),
        pieces(s, c) == seq![s.take(i)] + pieces(s.skip(i + 1), c),
{
    reveal(pieces);
    lemma_first_index(s, c);
}

/// A sequence that does not hold `c` is its own single piece.
pub proof fn lemma_pieces_whole(s: Seq<char>, c: char)
    requires
        first_index(s, c) is None,
    ensures
        pieces(s, c) == seq![s],
{
    reveal(pieces);
}

proof fn lemma_views_push(v: Seq<&[char]>, p: &[char])
    ensures
        views(v.push(p)) == views(v).push(p@),
{
    assert(views(v.push(p)) =~= views(v).push(p@));
}

proof fn lemma_split_next(done: Seq<Seq<char>>, s: Seq<char>, start: int, i: int, c: char)
    requires
        0 <= start <= s.len(),
        done + pieces(s.skip(start), c) == pieces(s, c),
        first_index(s.skip(start), c) == Some(i),
    ensures
        start + i < s.len(),
        done.push(s.subrange(start, start + i)) + pieces(s.skip(start + i + 1), c) == pieces(s, c),
{
    let rest = s.skip(start);
    lemma_pieces_step(rest, c, i);
    let tail = pieces(rest.skip(i + 1), c);
    assert(rest.skip(i + 1) =~= s.skip(start + i + 1));
    assert(rest.take(i) =~= s.subrange(start, start + i));
    assert(done.push(rest.take(i)) + tail =~= done + (seq![rest.take(i)] + tail));
}

proof fn lemma_split_last(done: Seq<Seq<char>>, s: Seq<char>, start: int, c: char)
    requires
        0 <= start <= s.len(),
        done + pieces(s.skip(start), c) == pieces(s, c),
        first_index(s.skip(start), c) is None,
    ensures
        done.push(s.skip(start)) == pieces(s, c),
{
    lemma_pieces_whole(s.skip(start), c);
    assert(done.push(s.skip(start)) =~= done + seq![s.skip(start)]);
}

/// Cuts `s` at every occurrence of `c`.
pub fn split<'a>(s: &'a [char], c: char) -> (r: Vec<&'a [char]>)
    ensures
        views(r@) == pieces(s@, c),
        r.len() >= 1,
{
    let mut out: Vec<&'a [char]> = Vec::new();
    let mut start: usize = 0;
    proof {
        assert(s@.skip(0) =~= s@);
        assert(views(out@) + pieces(s@, c) =~= pieces(s@, c));
    }
    loop
        invariant_except_break
            start <= s.len(),
            views(out@) + pieces(s@.skip(start as int), c) == pieces(s@, c),
        ensures
            views(out@) == pieces(s@, c),
            out.len() >= 1,
        decreases s.len() - start,
    {
        let rest = slice_subrange(s, start, s.len());
        let ghost before = out@;
        match find(rest, c) {
            Some(i) => {
                proof {
                    lemma_split_next(views(before), s@, start as int, i as int, c);
                }
                let piece = slice_subrange(s, start, start + i);
                out.push(piece);
                proof {
                    lemma_views_push(before, piece);
                }
                start = start + i + 1;
            },
            None => {
                out.push(rest);
                proof {
                    lemma_split_last(views(before), s@, start as int, c);
                    lemma_views_push(before, rest);
                }
                break ;
            },
        }
    }
    out
}

/// Whether `c` is no whitespace.
pub open spec fn is_solid(c: char) -> bool {
    !is_space(c)
}

/// `s` with every whitespace character taken out.
pub open spec fn without_spaces(s: Seq<char>) -> Seq<char> {
    s.filter(|c: char| is_solid(c))
}

/// Copies `s` without its whitespace characters.
pub fn strip_whitespace(s: &[char]) -> (r: Vec<char>)
    ensures
        r@ == without_spaces(s@),
{
    let mut out: Vec<char> = Vec::new();
    let mut i: usize = 0;
    proof {
        reveal(Seq::filter);
        assert(s@.take(0) =~= Seq::<char>::empty());
    }
    while i < s.len()
        invariant
            i <= s.len(),
            out@ == without_spaces(s@.take(i as int)),
        decreases s.len() - i,
    {
        proof {
            reveal(Seq::filter);
            assert(s@.take(i + 1).drop_last() =~= s@.take(i as int));
        }
        if !is_whitespace(s[i]) {
            out.push(s[i]);
        }
        i += 1;
    }
    proof {
        assert(s@.take(s.len() as int) =~= s@);
    }
    out
}

/// The length of the first line of `s`, its line feed included: all of `s`
/// where it holds no line feed.
pub open spec fn line_len(s: Seq<char>) -> int {
    match first_index(s, '\n') {
        Some(i) => i + 1,
        None => s.len() as int,
    }
}

/// The first line of `s`, with the line feed that ends it.
pub open spec fn first_line(s: Seq<char>) -> Seq<char> {
    s.take(line_len(s))
}

/// What follows the first line of `s`.
pub open spec fn after_line(s: Seq<char>) -> Seq<char> {
    s.skip(line_len(s))
}

/// The first line is a prefix of `s`, and is empty only where `s` is.
pub proof fn lemma_line_len(s: Seq<char>)
    ensures
        0 <= line_len(s) <= s.len(),
        s.len() > 0 ==> line_len(s) > 0,
        first_line(s) + after_line(s) == s,
{
    lemma_first_index(s, '\n');
    assert(first_line(s) + after_line(s) =~= s);
}

/// The length of the first line of `s`, its line feed included.
pub fn line_length(s: &[char]) -> (n: usize)
    ensures
        n == line_len(s@),
        n <= s.len(),
        s.len() > 0 ==> n > 0,
{
    proof {
        lemma_first_index(s@, '\n');
    }
    match find(s, '\n') {
        Some(i) => i + 1,
        None => s.len(),
    }
}

/// `line` without the line feed that ends it, and without a carriage return
/// before that.
pub open spec fn without_eol(line: Seq<char>) -> Seq<char> {
    let a = if line.len() > 0 && line.last() == '\n' {
        line.drop_last()
    } else {
        line
    };
    if a.len() > 0 && a.last() == '\r' {
        a.drop_last()
    } else {
        a
    }
}

/// Whether `line` is a blank line: a line that holds its terminator alone.
pub open spec fn is_blank(line: Seq<char>) -> bool {
    line.len() > 0 && without_eol(line).len() == 0
}

/// Tests whether `line` holds a line terminator and nothing else.
pub fn is_blank_line(line: &[char]) -> (b: bool)
    ensures
        b == is_blank(line@),
{
    let n = line.len();
    if n == 1 {
        line[0] == '\n' || line[0] == '\r'
    } else if n == 2 {
        line[0] == '\r' && line[1] == '\n'
    } else {
        false
    }
}

/// Appends the characters of `s` to `v`.
pub fn append(v: &mut Vec<char>, s: &[char])
    ensures
        final(v)@ == old(v)@ + s@,
{
    let mut i: usize = 0;
    assert(s@.take(0) =~= Seq::<char>::empty());
    assert(v@ =~= old(v)@ + s@.take(0));
    while i < s.len()
        invariant
            i <= s.len(),
            v@ == old(v)@ + s@.take(i as int),
        decreases s.len() - i,
    {
        v.push(s[i]);
        assert(s@.take(i + 1) =~= s@.take(i as int).push(s[i as int]));
        assert(v@ =~= old(v)@ + s@.take(i + 1));
        i += 1;
    }
    assert(s@.take(s.len() as int) =~= s@);
}

/// Where `a` holds a line feed, the first line of `a` followed by `b` is
/// the first line of `a`, and `b` follows what comes after it.
pub proof fn lemma_first_line_of_concat(a: Seq<char>, b: Seq<char>)
    requires
        a.contains('\n'),
    ensures
        first_line(a + b) == first_line(a),
        after_line(a + b) == after_line(a) + b,
{
    lemma_first_index(a, '\n');
    let i = first_index(a, '\n').unwrap();
    assert((a + b)[i] == '\n');
    assert forall|j: int| 0 <= j < i implies (a + b)[j] != '\n' by {
        assert((a + b)[j] == a[j]);
    }
    lemma_first_index_at(a + b, '\n', i);
    assert(first_line(a + b) =~= first_line(a));
    assert(after_line(a + b) =~= after_line(a) + b);
}

/// Taking the whitespace out of two texts in a row is taking it out of each.
pub proof fn lemma_without_spaces_of_concat(a: Seq<char>, b: Seq<char>)
    ensures
        without_spaces(a + b) == without_spaces(a) + without_spaces(b),
{
    Seq::filter_distributes_over_add(a, b, |c: char| is_solid(c));
}

/// A text without whitespace loses nothing when its whitespace is taken out.
pub proof fn lemma_without_spaces_of_solid(s: Seq<char>)
    requires
        forall|i: int| 0 <= i < s.len() ==> is_solid(s[i]),
    ensures
        without_spaces(s) == s,
    decreases s.len(),
{
    reveal(Seq::filter);
    if s.len() > 0 {
        lemma_without_spaces_of_solid(s.drop_last());
        assert(s.drop_last().push(s.last()) =~= s);
    }
}

proof fn lemma_without_spaces_of_trimmed_start(s: Seq<char>)
    ensures
        without_spaces(trimmed_start(s)) == without_spaces(s),
    decreases s.len(),
{
    if s.len() > 0 && is_space(s[0]) {
        lemma_without_spaces_of_trimmed_start(s.drop_first());
        let head = seq![s[0]];
        assert(head + s.drop_first() =~= s);
        lemma_without_spaces_of_concat(head, s.drop_first());
        assert(without_spaces(head) =~= Seq::<char>::empty()) by {
            reveal_with_fuel(Seq::filter, 2);
            assert(head.drop_last() =~= Seq::<char>::empty());
        }
        assert(Seq::<char>::empty() + without_spaces(s.drop_first()) =~= without_spaces(
            s.drop_first(),
        ));
    }
}

proof fn lemma_without_spaces_of_trimmed_end(s: Seq<char>)
    ensures
        without_spaces(trimmed_end(s)) == without_spaces(s),
    decreases s.len(),
{
    reveal(Seq::filter);
    if s.len() > 0 && is_space(s.last()) {
        lemma_without_spaces_of_trimmed_end(s.drop_last());
    }
}

/// Trimming takes out whitespace only.
pub proof fn lemma_without_spaces_of_trimmed(s: Seq<char>)
    ensures
        without_spaces(trimmed(s)) == without_spaces(s),
{
    lemma_without_spaces_of_trimmed_start(s);
    lemma_without_spaces_of_trimmed_end(trimmed_start(s));
}

/// Where `c` stands at `i` and nowhere before, the first piece of `s` ends
/// there, and the others are the pieces of what follows.
pub proof fn lemma_pieces_at(s: Seq<char>, c: char, i: int)
    requires
        0 <= i < s.len(),
        s[i] == c,
        forall|j: int| 0 <= j < i ==> s[j] != c,
    ensures
        pieces(s, c) == seq![s.take(i)] + pieces(s.skip(i + 1), c),
{
    lemma_first_index_at(s, c, i);
    lemma_pieces_step(s, c, i);
}

/// A sequence without `c` is its own single piece.
pub proof fn lemma_pieces_without(s: Seq<char>, c: char)
    requires
        !s.contains(c),
    ensures
        pieces(s, c) == seq![s],
{
    lemma_first_index(s, c);
    if let Some(i) = first_index(s, c) {
        assert(s.contains(c));
    }
    lemma_pieces_whole(s, c);
}

} // verus!
