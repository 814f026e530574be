//! Headers as a list in document order, and folded into a mapping by key.

use vstd::prelude::*;
use crate::codec::{chars_of, string_of};
use crate::encoding::{decode_subject_chars, decoded_subject};
use crate::header::{
    ContentTransferEncoding,
    ContentType,
    ContentTypeView,
    Encoding,
    HeaderValue,
    HeaderValueView,
};
use crate::text::{eq_ignore_case, lowered, same_ignoring_case};

verus! {

/// A header: its key as it was written, and its typed value.
#[derive(Debug, PartialEq, Eq)]
pub struct Header {
    /// The key of the header.
    pub key: String,
    /// The value of the header.
    pub value: HeaderValue,
}

/// The mathematical value of a `Header`.
pub struct HeaderView {
    pub key: Seq<char>,
    pub value: HeaderValueView,
}

impl View for Header {
    type V = HeaderView;

    open spec fn view(&self) -> HeaderView {
        HeaderView { key: self.key@, value: self.value@ }
    }
}

impl Clone for Header {
    fn clone(&self) -> (r: Self)
        ensures
            r == *self,
    {
        Header { key: self.key.clone(), value: self.value.clone() }
    }
}

/// The views of a sequence of headers.
pub open spec fn header_views(headers: Seq<Header>) -> Seq<HeaderView> {
    headers.map_values(|h: Header| h@)
}

/// The value under `key` among `headers`: that of the last header whose key
/// is `key` up to the case of ASCII letters.
pub open spec fn lookup(headers: Seq<HeaderView>, key: Seq<char>) -> Option<HeaderValueView>
    decreases headers.len(),
{
    if headers.len() == 0 {
        None
    } else if same_ignoring_case(headers.last().key, key) {
        Some(headers.last().value)
    } else {
        lookup(headers.drop_last(), key)
    }
}

/// The mapping into which `headers` fold: from each key, in small letters,
/// to the value of the last header that has it.
pub open spec fn folded(headers: Seq<HeaderView>) -> Map<Seq<char>, HeaderValueView>
    decreases headers.len(),
{
    if headers.len() == 0 {
        Map::empty()
    } else {
        folded(headers.drop_last()).insert(lowered(headers.last().key), headers.last().value)
    }
}

/// The value that `map` holds under `key`, whatever the case of its letters.
pub open spec fn value_under(map: Map<Seq<char>, HeaderValueView>, key: Seq<char>) -> Option<
    HeaderValueView,
> {
    if map.dom().contains(lowered(key)) {
        Some(map[lowered(key)])
    } else {
        None
    }
}

/// Folding keeps what a lookup by key finds.
pub proof fn lemma_folded_lookup(headers: Seq<HeaderView>, key: Seq<char>)
    ensures
        value_under(folded(headers), key) == lookup(headers, key),
    decreases headers.len(),
{
    if headers.len() > 0 {
        lemma_folded_lookup(headers.drop_last(), key);
    }
}

/// Replacing the value of a header whose key no later header has changes the
/// folded mapping at that key alone.
proof fn lemma_folded_replace(headers: Seq<HeaderView>, i: int, h: HeaderView)
    requires
        0 <= i < headers.len(),
        lowered(h.key) == lowered(headers[i].key),
        forall|j: int| i < j < headers.len() ==> lowered(headers[j].key) != lowered(h.key),
    ensures
        folded(headers.update(i, h)) == folded(headers).insert(lowered(h.key), h.value),
    decreases headers.len(),
{
    let changed = headers.update(i, h);
    if i == headers.len() - 1 {
        assert(changed.drop_last() =~= headers.drop_last());
        assert(folded(changed) =~= folded(headers).insert(lowered(h.key), h.value));
    } else {
        lemma_folded_replace(headers.drop_last(), i, h);
        assert(changed.drop_last() =~= headers.drop_last().update(i, h));
        assert(changed.last() == headers.last());
        assert(folded(changed) =~= folded(headers).insert(lowered(h.key), h.value));
    }
}

/// The folded mapping holds a key exactly where a header has it.
proof fn lemma_folded_keys(headers: Seq<HeaderView>, key: Seq<char>)
    ensures
        folded(headers).dom().contains(key) <==> exists|i: int|
            0 <= i < headers.len() && lowered(#[trigger] headers[i].key) == key,
    decreases headers.len(),
{
    if headers.len() > 0 {
        let front = headers.drop_last();
        lemma_folded_keys(front, key);
        if folded(headers).dom().contains(key) {
            if lowered(headers.last().key) == key {
                assert(lowered(headers[headers.len() - 1].key) == key);
            } else {
                let i = choose|i: int|
                    0 <= i < front.len() && lowered(#[trigger] front[i].key) == key;
                assert(lowered(headers[i].key) == key);
            }
        }
        if exists|i: int| 0 <= i < headers.len() && lowered(#[trigger] headers[i].key) == key {
            let i = choose|i: int|
                0 <= i < headers.len() && lowered(#[trigger] headers[i].key) == key;
            if i < front.len() {
                assert(lowered(front[i].key) == key);
            }
        }
    }
}

/// Headers with keys that all differ fold into a mapping with as many keys.
proof fn lemma_folded_size(headers: Seq<HeaderView>)
    requires
        forall|i: int, j: int|
            0 <= i < j < headers.len() ==> lowered(#[trigger] headers[i].key) != lowered(
                #[trigger] headers[j].key,
            ),
    ensures
        folded(headers).dom().finite(),
        folded(headers).dom().len() == headers.len(),
    decreases headers.len(),
{
    if headers.len() > 0 {
        let front = headers.drop_last();
        let key = lowered(headers.last().key);
        assert forall|i: int, j: int| 0 <= i < j < front.len() implies lowered(
            #[trigger] front[i].key,
        ) != lowered(#[trigger] front[j].key) by {
            assert(lowered(headers[i].key) != lowered(headers[j].key));
        }
        lemma_folded_size(front);
        lemma_folded_keys(front, key);
        if folded(front).dom().contains(key) {
            let i = choose|i: int| 0 <= i < front.len() && lowered(#[trigger] front[i].key) == key;
            assert(lowered(headers[i].key) != lowered(headers[headers.len() - 1].key));
        }
    }
}

/// Headers whose keys all differ fold into a mapping with as many keys.
proof fn lemma_distinct_size(entries: Seq<Header>)
    requires
        forall|i: int, j: int|
            0 <= i < j < entries.len() ==> lowered(#[trigger] entries[i].key@) != lowered(
                #[trigger] entries[j].key@,
            ),
    ensures
        folded(header_views(entries)).dom().finite(),
        folded(header_views(entries)).dom().len() == entries.len(),
{
    let views = header_views(entries);
    assert forall|i: int, j: int| 0 <= i < j < views.len() implies lowered(
        #[trigger] views[i].key,
    ) != lowered(#[trigger] views[j].key) by {
        assert(lowered(entries[i].key@) != lowered(entries[j].key@));
    }
    lemma_folded_size(views);
}

/// The content type that a lookup found, where it found one.
pub open spec fn as_content_type(value: Option<HeaderValueView>) -> Option<ContentTypeView> {
    match value {
        Some(HeaderValueView::ContentType(t)) => Some(t),
        _ => None,
    }
}

/// The transfer encoding that a lookup found, where it found one.
pub open spec fn as_encoding(value: Option<HeaderValueView>) -> Option<Encoding> {
    match value {
        Some(HeaderValueView::ContentTransferEncoding(e)) => Some(e),
        _ => None,
    }
}

/// The boundary line that a lookup found, where it found a multipart
/// content type.
pub open spec fn as_boundary(value: Option<HeaderValueView>) -> Option<Seq<char>> {
    match value {
        Some(HeaderValueView::ContentType(ContentTypeView::MultipartAlternative(b))) => Some(b),
        _ => None,
    }
}

/// The text that a lookup found: the raw value of a header with its encoded
/// words decoded. Absent where nothing was found, where the value is typed,
/// and where an encoded word is malformed.
pub open spec fn as_text(value: Option<HeaderValueView>) -> Option<Seq<char>> {
    match value {
        Some(HeaderValueView::Unknown(raw)) => match decoded_subject(raw) {
            Ok(text) => Some(text),
            Err(_) => None,
        },
        _ => None,
    }
}

/// Finds the last header with key `key`.
fn find_last(headers: &Vec<Header>, key: &[char]) -> (r: Option<usize>)
    ensures
        match r {
            Some(i) => i < headers.len() && lookup(header_views(headers@), key@) == Some(
                headers[i as int].value@,
            ),
            None => lookup(header_views(headers@), key@) is None,
        },
{
    let ghost all = header_views(headers@);
    let mut i: usize = headers.len();
    assert(all.take(i as int) =~= all);
    while i > 0
        invariant
            i <= headers.len(),
            all == header_views(headers@),
            lookup(all, key@) == lookup(all.take(i as int), key@),
        decreases i,
    {
        let stored = chars_of(headers[i - 1].key.as_str());
        proof {
            assert(all.take(i as int).last() == headers[i - 1]@);
            assert(all.take(i as int).drop_last() =~= all.take(i - 1));
        }
        if eq_ignore_case(stored.as_slice(), key) {
            return Some(i - 1);
        }
        i -= 1;
    }
    None
}

/// Reads the text of a raw header value, decoding its encoded words.
fn text_of(value: &HeaderValue) -> (r: Option<String>)
    ensures
        match r {
            Some(s) => as_text(Some(value@)) == Some(s@),
            None => as_text(Some(value@)) is None,
        },
{
    match value {
        HeaderValue::Unknown(raw) => {
            let chars = chars_of(raw.as_str());
            match decode_subject_chars(chars.as_slice()) {
                Ok(text) => Some(string_of(text.as_slice())),
                Err(_) => None,
            }
        },
        _ => None,
    }
}

/// The headers of a message or of a part, in the order in which they stand.
#[derive(Debug, PartialEq, Eq)]
pub struct Headers(pub Vec<Header>);

impl View for Headers {
    type V = Seq<HeaderView>;

    open spec fn view(&self) -> Seq<HeaderView> {
        header_views(self.0@)
    }
}

impl Headers {
    /// An empty collection of headers.
    pub fn new() -> (r: Headers)
        ensures
            r@ == Seq::<HeaderView>::empty(),
    {
        let r = Headers(Vec::new());
        assert(r@ =~= Seq::<HeaderView>::empty());
        r
    }

    /// Adds `header` behind the others.
    pub fn push(&mut self, header: Header)
        ensures
            final(self)@ == old(self)@.push(header@),
    {
        self.0.push(header);
        assert(self@ =~= old(self)@.push(header@));
    }

    /// The value of the last header with key `key`, compared without regard
    /// to the case of ASCII letters.
    pub fn get(&self, key: &str) -> (r: Option<&HeaderValue>)
        ensures
            match r {
                Some(v) => lookup(self@, key@) == Some(v@),
                None => lookup(self@, key@) is None,
            },
    {
        let wanted = chars_of(key);
        match find_last(&self.0, wanted.as_slice()) {
            Some(i) => Some(&self.0[i].value),
            None => None,
        }
    }

    /// The subject of the message, with its encoded words decoded.
    pub fn subject(&self) -> (r: Option<String>)
        ensures
            match r {
                Some(s) => as_text(lookup(self@, "Subject"@)) == Some(s@),
                None => as_text(lookup(self@, "Subject"@)) is None,
            },
    {
        match self.get("Subject") {
            Some(v) => text_of(v),
            None => None,
        }
    }

    /// The sender of the message, with its encoded words decoded.
    pub fn from(&self) -> (r: Option<String>)
        ensures
            match r {
                Some(s) => as_text(lookup(self@, "From"@)) == Some(s@),
                None => as_text(lookup(self@, "From"@)) is None,
            },
    {
        match self.get("From") {
            Some(v) => text_of(v),
            None => None,
        }
    }

    /// The date of the message, with its encoded words decoded.
    pub fn date(&self) -> (r: Option<String>)
        ensures
            match r {
                Some(s) => as_text(lookup(self@, "Date"@)) == Some(s@),
                None => as_text(lookup(self@, "Date"@)) is None,
            },
    {
        match self.get("Date") {
            Some(v) => text_of(v),
            None => None,
        }
    }

    /// The content type that the headers declare.
    pub fn content_type(&self) -> (r: Option<&ContentType>)
        ensures
            match r {
                Some(t) => as_content_type(lookup(self@, "Content-Type"@)) == Some(t@),
                None => as_content_type(lookup(self@, "Content-Type"@)) is None,
            },
    {
        match self.get("Content-Type") {
            Some(HeaderValue::ContentType(t)) => Some(t),
            _ => None,
        }
    }

    /// The transfer encoding that the headers declare.
    pub fn content_transfer_encoding(&self) -> (r: Option<ContentTransferEncoding>)
        ensures
            r == as_encoding(lookup(self@, "Content-Transfer-Encoding"@)),
    {
        match self.get("Content-Transfer-Encoding") {
            Some(HeaderValue::ContentTransferEncoding(e)) => Some(*e),
            _ => None,
        }
    }

    /// The line that separates the parts, where the headers declare a
    /// multipart content type.
    pub fn boundary(&self) -> (r: Option<&String>)
        ensures
            match r {
                Some(b) => as_boundary(lookup(self@, "Content-Type"@)) == Some(b@),
                None => as_boundary(lookup(self@, "Content-Type"@)) is None,
            },
    {
        match self.get("Content-Type") {
            Some(HeaderValue::ContentType(ContentType::MultipartAlternative(b))) => Some(b),
            _ => None,
        }
    }

    /// Folds the headers into a mapping by key, in which the last header of
    /// each key stands.
    pub fn into_hash_map(self) -> (r: HeaderMap)
        ensures
            r@ == folded(self@),
    {
        let mut map = HeaderMap::new();
        let mut i: usize = 0;
        assert(self@.take(0) =~= Seq::<HeaderView>::empty());
        while i < self.0.len()
            invariant
                i <= self.0.len(),
                map@ == folded(self@.take(i as int)),
            decreases self.0.len() - i,
        {
            proof {
                assert(self@.take(i + 1).drop_last() =~= self@.take(i as int));
                assert(self@.take(i + 1).last() == self.0[i as int]@);
            }
            let header = self.0[i].clone();
            map.insert(header.key, header.value);
            i += 1;
        }
        assert(self@.take(self.0.len() as int) =~= self@);
        map
    }
}

/// Headers by key: each key, compared without regard to the case of ASCII
/// letters, stands once, with the value that was written last.
#[derive(Debug)]
pub struct HeaderMap {
    entries: Vec<Header>,
}

impl View for HeaderMap {
    type V = Map<Seq<char>, HeaderValueView>;

    closed spec fn view(&self) -> Map<Seq<char>, HeaderValueView> {
        folded(header_views(self.entries@))
    }
}

impl HeaderMap {
    #[verifier::type_invariant]
    spec fn distinct_keys(self) -> bool {
        forall|i: int, j: int|
            0 <= i < j < self.entries.len() ==> lowered(#[trigger] self.entries[i].key@) != lowered(
                #[trigger] self.entries[j].key@,
            )
    }

    /// An empty mapping.
    pub fn new() -> (r: HeaderMap)
        ensures
            r@ == Map::<Seq<char>, HeaderValueView>::empty(),
    {
        let r = HeaderMap { entries: Vec::new() };
        assert(header_views(r.entries@) =~= Seq::<HeaderView>::empty());
        r
    }

    /// The number of keys.
    pub fn len(&self) -> (n: usize)
        ensures
            self@.dom().finite(),
            n == self@.dom().len(),
    {
        proof {
            use_type_invariant(self);
            lemma_distinct_size(self.entries@);
        }
        self.entries.len()
    }

    /// Whether the mapping holds no key.
    pub fn is_empty(&self) -> (b: bool)
        ensures
            b == (self@.dom().len() == 0),
            self@.dom().finite(),
    {
        self.len() == 0
    }

    /// Puts `value` under `key`, in place of the value that stood there.
    pub fn insert(&mut self, key: String, value: HeaderValue)
        ensures
            final(self)@ == old(self)@.insert(lowered(key@), value@),
    {
        proof {
            use_type_invariant(&*self);
        }
        let mut taken = HeaderMap { entries: Vec::new() };
        core::mem::swap(self, &mut taken);
        let mut entries = taken.entries;
        let wanted = chars_of(key.as_str());
        let ghost before = header_views(entries@);
        let ghost h = HeaderView { key: key@, value: value@ };
        let ghost stored_before = entries@;
        let mut i: usize = 0;
        while i < entries.len()
            invariant_except_break
                forall|j: int| 0 <= j < i ==> lowered(entries[j].key@) != lowered(key@),
            invariant
                i <= entries.len(),
                wanted@ == key@,
            ensures
                i <= entries.len(),
                i < entries.len() ==> lowered(entries[i as int].key@) == lowered(key@),
                i == entries.len() ==> forall|j: int|
                    0 <= j < i ==> lowered(entries[j].key@) != lowered(key@),
            decreases entries.len() - i,
        {
            let stored = chars_of(entries[i].key.as_str());
            if eq_ignore_case(stored.as_slice(), wanted.as_slice()) {
                break ;
            }
            i += 1;
        }
        if i < entries.len() {
            proof {
                assert forall|j: int| i < j < before.len() implies lowered(before[j].key)
                    != lowered(h.key) by {
                    assert(lowered(entries[i as int].key@) != lowered(entries[j].key@));
                }
                lemma_folded_replace(before, i as int, h);
            }
            entries[i] = Header { key, value };
            proof {
                assert(header_views(entries@) =~= before.update(i as int, h));
                assert forall|a: int, b: int| 0 <= a < b < entries.len() implies lowered(
                    #[trigger] entries[a].key@,
                ) != lowered(#[trigger] entries[b].key@) by {
                    assert(lowered(stored_before[a].key@) != lowered(stored_before[b].key@));
                }
            }
        } else {
            entries.push(Header { key, value });
            proof {
                assert(header_views(entries@) =~= before.push(h));
                assert(before.push(h).drop_last() =~= before);
                assert forall|a: int, b: int| 0 <= a < b < entries.len() implies lowered(
                    #[trigger] entries[a].key@,
                ) != lowered(#[trigger] entries[b].key@) by {
                    if b < stored_before.len() {
                        assert(lowered(stored_before[a].key@) != lowered(stored_before[b].key@));
                    }
                }
            }
        }
        *self = HeaderMap { entries };
    }

    /// The headers of the mapping, one for each key.
    pub fn as_slice(&self) -> (r: &[Header])
        ensures
            folded(header_views(r@)) == self@,
            r@.len() == self@.dom().len(),
    {
        proof {
            use_type_invariant(self);
            lemma_distinct_size(self.entries@);
        }
        self.entries.as_slice()
    }

    /// The value under `key`.
    pub fn get(&self, key: &str) -> (r: Option<&HeaderValue>)
        ensures
            match r {
                Some(v) => value_under(self@, key@) == Some(v@),
                None => value_under(self@, key@) is None,
            },
    {
        let wanted = chars_of(key);
        proof {
            lemma_folded_lookup(header_views(self.entries@), key@);
        }
        match find_last(&self.entries, wanted.as_slice()) {
            Some(i) => Some(&self.entries[i].value),
            None => None,
        }
    }

    /// The subject of the message, with its encoded words decoded.
    pub fn subject(&self) -> (r: Option<String>)
        ensures
            match r {
                Some(s) => as_text(value_under(self@, "Subject"@)) == Some(s@),
                None => as_text(value_under(self@, "Subject"@)) is None,
            },
    {
        match self.get("Subject") {
            Some(v) => text_of(v),
            None => None,
        }
    }

    /// The sender of the message, with its encoded words decoded.
    pub fn from(&self) -> (r: Option<String>)
        ensures
            match r {
                Some(s) => as_text(value_under(self@, "From"@)) == Some(s@),
                None => as_text(value_under(self@, "From"@)) is None,
            },
    {
        match self.get("From") {
            Some(v) => text_of(v),
            None => None,
        }
    }

    /// The date of the message, with its encoded words decoded.
    pub fn date(&self) -> (r: Option<String>)
        ensures
            match r {
                Some(s) => as_text(value_under(self@, "Date"@)) == Some(s@),
                None => as_text(value_under(self@, "Date"@)) is None,
            },
    {
        match self.get("Date") {
            Some(v) => text_of(v),
            None => None,
        }
    }

    /// The content type that the headers declare.
    pub fn content_type(&self) -> (r: Option<&ContentType>)
        ensures
            match r {
                Some(t) => as_content_type(value_under(self@, "Content-Type"@)) == Some(t@),
                None => as_content_type(value_under(self@, "Content-Type"@)) is None,
            },
    {
        match self.get("Content-Type") {
            Some(HeaderValue::ContentType(t)) => Some(t),
            _ => None,
        }
    }
}

} // verus!
