//! The dictionary: unique words in one shared text buffer, each with its
//! letter counts.
use std::collections::HashSet;
use vstd::prelude::*;
use vstd::string::StringSliceAdditionalSpecFns;
use vstd::utf8::*;
use crate::count::{PACKED_LEN, CountError, CountSet, encode, all_letters, is_letter, unpack};

verus! {

broadcast use {
    is_char_boundary_start_end_of_seq,
    is_char_boundary_iff_not_is_continuation_byte,
    encode_utf8_valid_utf8,
};

/// Where a word lies in the text buffer: its byte offset and byte length.
pub type OffsetLength = (usize, usize);

/// The words of a `HashSet`, as character sequences.
pub uninterp spec fn seen_words(s: HashSet<String>) -> Set<Seq<char>>;

/// Relies on `HashSet::new`: the new set holds no word.
#[verifier::external_body]
fn seen_empty() -> (r: HashSet<String>)
    ensures
        seen_words(r) == Set::<Seq<char>>::empty(),
{
    HashSet::new()
}

/// Relies on `HashSet::contains`, whose `String` keys compare by content.
#[verifier::external_body]
fn seen_contains(s: &HashSet<String>, w: &str) -> (r: bool)
    ensures
        r == seen_words(*s).contains(w@),
{
    s.contains(w)
}

/// Relies on `HashSet::insert`: the set then holds the word as well.
#[verifier::external_body]
fn seen_insert(s: &mut HashSet<String>, w: &str)
    ensures
        seen_words(*final(s)) == seen_words(*old(s)).insert(w@),
{
    s.insert(w.to_string());
}

/// Relies on `String::push_str`: appends the characters of `w`.
#[verifier::external_body]
fn push_text(t: &mut String, w: &str)
    ensures
        final(t)@ == old(t)@ + w@,
{
    t.push_str(w);
}

/// A span `[offset, offset + len)` of `text` that starts and ends on
/// character boundaries.
pub open spec fn valid_span(text: Seq<u8>, offset: int, len: int) -> bool {
    &&& 0 <= offset
    &&& 0 <= len
    &&& offset + len <= text.len()
    &&& is_char_boundary(text, offset)
    &&& is_char_boundary(text, offset + len)
}

/// A record as offset, length and packed count bytes.
pub open spec fn record_view(e: (OffsetLength, CountSet)) -> (usize, usize, Seq<u8>) {
    (e.0.0, e.0.1, e.1.packed())
}

/// Every span of `records` is valid in `text`.
pub open spec fn spans_valid(text: Seq<u8>, records: Seq<(usize, usize, Seq<u8>)>) -> bool {
    forall|k: int|
        0 <= k < records.len() ==> valid_span(
            text,
            #[trigger] records[k].0 as int,
            records[k].1 as int,
        )
}

/// The bytes of the word of record `k`.
pub open spec fn word_at(text: Seq<u8>, records: Seq<(usize, usize, Seq<u8>)>, k: int) -> Seq<u8> {
    text.subrange(records[k].0 as int, records[k].0 + records[k].1)
}

/// `b` holds the same text, records and remembered words as `a`.
pub open spec fn unchanged(a: Dictionary, b: Dictionary) -> bool {
    &&& b.text() == a.text()
    &&& b.records() == a.records()
    &&& b.seen() == a.seen()
}

/// `b` is `a` with the word `w` (of bytes `wb`) appended at the end of the
/// text, one record for it, and the word remembered.
pub open spec fn appended(a: Dictionary, b: Dictionary, w: Seq<char>, wb: Seq<u8>) -> bool {
    &&& b.text() == a.text() + wb
    &&& b.records().len() == a.records().len() + 1
    &&& b.records().drop_last() == a.records()
    &&& b.records().last().0 == a.text().len()
    &&& b.records().last().1 == wb.len()
    &&& unpack(b.records().last().2) == encode(wb)->Ok_0
    &&& b.seen() == a.seen().insert(w)
}

/// What adding the word `w`, of bytes `wb`, to `a` does: nothing when `w`
/// was added before; nothing, and the counting error, when its letters
/// cannot be counted; else it appends the word.
pub open spec fn add_result(
    a: Dictionary,
    b: Dictionary,
    w: Seq<char>,
    wb: Seq<u8>,
    r: Result<(), CountError>,
) -> bool {
    if a.seen().contains(w) {
        r is Ok && unchanged(a, b)
    } else if encode(wb) is Err {
        r == Err::<(), CountError>(encode(wb)->Err_0) && unchanged(a, b)
    } else {
        r is Ok && appended(a, b, w, wb)
    }
}

/// Adding the same word a second time leaves the number of words as the
/// first addition left it.
pub proof fn lemma_add_twice(
    a: Dictionary,
    b: Dictionary,
    c: Dictionary,
    w: Seq<char>,
    wb: Seq<u8>,
    r1: Result<(), CountError>,
    r2: Result<(), CountError>,
)
    requires
        add_result(a, b, w, wb, r1),
        add_result(b, c, w, wb, r2),
    ensures
        c.records().len() == b.records().len(),
        c.text() == b.text(),
{
}

/// Adding a word keeps every word that was remembered before.
pub proof fn lemma_add_keeps_seen(
    a: Dictionary,
    b: Dictionary,
    w: Seq<char>,
    wb: Seq<u8>,
    r: Result<(), CountError>,
)
    requires
        add_result(a, b, w, wb, r),
    ensures
        a.seen().subset_of(b.seen()),
{
}

/// Adding a word that is remembered changes neither the text nor the
/// number of words.
pub proof fn lemma_add_seen_word(
    a: Dictionary,
    b: Dictionary,
    w: Seq<char>,
    wb: Seq<u8>,
    r: Result<(), CountError>,
)
    requires
        a.seen().contains(w),
        add_result(a, b, w, wb, r),
    ensures
        r is Ok,
        b.records().len() == a.records().len(),
        b.text() == a.text(),
{
}

/// A word of the dictionary, borrowed from it.
pub struct DictionaryEntry<'a> {
    pub word: &'a str,
    pub count_set: &'a CountSet,
}

/// Unique words in one text buffer, and the letter counts of each.
#[derive(Debug)]
pub struct Dictionary {
    word_string: String,
    word_count: Vec<(OffsetLength, CountSet)>,
    word_set: HashSet<String>,
}

impl Dictionary {
    /// The text buffer, as bytes.
    pub closed spec fn text(&self) -> Seq<u8> {
        encode_utf8(self.word_string@)
    }

    /// The records, in the order in which they were added.
    pub closed spec fn records(&self) -> Seq<(usize, usize, Seq<u8>)> {
        self.word_count@.map_values(|e: (OffsetLength, CountSet)| record_view(e))
    }

    /// The words that insertion checks for duplicates.
    pub closed spec fn seen(&self) -> Set<Seq<char>> {
        seen_words(self.word_set)
    }

    pub open spec fn wf(&self) -> bool {
        spans_valid(self.text(), self.records())
    }

    pub proof fn lemma_text_utf8(&self)
        ensures
            valid_utf8(self.text()),
    {
    }

    pub proof fn lemma_packed_lens(&self)
        ensures
            forall|k: int|
                0 <= k < self.records().len() ==> (#[trigger] self.records()[k]).2.len()
                    == PACKED_LEN,
    {
        assert forall|k: int| 0 <= k < self.records().len() implies (#[trigger] self.records()[k]).2.len()
            == PACKED_LEN by {
            self.word_count@[k].1.lemma_packed_len();
        }
    }

    /// An empty dictionary.
    pub fn new() -> (r: Dictionary)
        ensures
            r.wf(),
            r.text() == Seq::<u8>::empty(),
            r.records() == Seq::<(usize, usize, Seq<u8>)>::empty(),
            r.seen() == Set::<Seq<char>>::empty(),
    {
        let r = Dictionary { word_string: String::new(), word_count: Vec::new(), word_set: seen_empty() };
        assert(r.records() =~= Seq::<(usize, usize, Seq<u8>)>::empty());
        r
    }

    /// A dictionary from a text buffer and its records, with nothing
    /// remembered for duplicate checks.
    pub fn from_raw_parts(word_string: String, word_count: Vec<(OffsetLength, CountSet)>) -> (r:
        Dictionary)
        requires
            spans_valid(
                encode_utf8(word_string@),
                word_count@.map_values(|e: (OffsetLength, CountSet)| record_view(e)),
            ),
        ensures
            r.wf(),
            r.text() == encode_utf8(word_string@),
            r.records() == word_count@.map_values(|e: (OffsetLength, CountSet)| record_view(e)),
            r.seen() == Set::<Seq<char>>::empty(),
    {
        Dictionary { word_string, word_count, word_set: seen_empty() }
    }

    /// Adds `word` unless it was added before; fails, changing nothing, when
    /// its letters cannot be counted.
    pub fn add(&mut self, word: &str) -> (r: Result<(), CountError>)
        requires
            old(self).wf(),
        ensures
            final(self).wf(),
            add_result(*old(self), *final(self), word@, word.spec_bytes(), r),
    {
        if seen_contains(&self.word_set, word) {
            return Ok(());
        }
        let set = CountSet::from_word(word);
        match set {
            Err(e) => Err(e),
            Ok(set) => {
                let offset = self.word_string.as_str().as_bytes().len();
                let len = word.as_bytes().len();
                let ghost old_text = self.text();
                let ghost old_records = self.records();
                proof {
                    lemma_encode_utf8_concat(self.word_string@, word@);
                    lemma_letters_keep_boundaries(old_text, word.spec_bytes());
                }
                push_text(&mut self.word_string, word);
                self.word_count.push(((offset, len), set));
                seen_insert(&mut self.word_set, word);
                assert(self.records().drop_last() =~= old_records);
                assert(self.records().last() == record_view(self.word_count@.last()));
                assert(self.text() == old_text + word.spec_bytes());
                assert forall|k: int| 0 <= k < self.records().len() implies valid_span(
                    self.text(),
                    #[trigger] self.records()[k].0 as int,
                    self.records()[k].1 as int,
                ) by {
                    if k < old_records.len() {
                        assert(self.records()[k] == old_records[k]);
                        assert(valid_span(old_text, old_records[k].0 as int, old_records[k].1 as int));
                    }
                }
                Ok(())
            },
        }
    }

    /// The text buffer: every word, in the order added.
    pub fn word_string(&self) -> (r: &str)
        ensures
            r.spec_bytes() == self.text(),
    {
        self.word_string.as_str()
    }

    /// The records: span of each word and its letter counts.
    pub fn word_count(&self) -> (r: &Vec<(OffsetLength, CountSet)>)
        ensures
            r@.map_values(|e: (OffsetLength, CountSet)| record_view(e)) == self.records(),
    {
        &self.word_count
    }

    /// Number of words.
    pub fn len(&self) -> (r: usize)
        ensures
            r == self.records().len(),
    {
        self.word_count.len()
    }

    /// The word and letter counts of record `k`.
    pub fn entry(&self, k: usize) -> (r: DictionaryEntry<'_>)
        requires
            self.wf(),
            k < self.records().len(),
        ensures
            r.word.spec_bytes() == word_at(self.text(), self.records(), k as int),
            r.count_set.packed() == self.records()[k as int].2,
    {
        let e = &self.word_count[k];
        let offset = e.0.0;
        let len = e.0.1;
        assert(self.records()[k as int] == record_view(self.word_count@[k as int]));
        assert(valid_span(self.text(), self.records()[k as int].0 as int, self.records()[k as int].1 as int));
        let text = self.word_string.as_str();
        let (_, rest) = text.split_at(offset);
        proof {
            lemma_boundary_after_split(self.text(), offset as int, len as int);
        }
        let (word, _) = rest.split_at(len);
        assert(word.spec_bytes() =~= word_at(self.text(), self.records(), k as int));
        DictionaryEntry { word, count_set: &e.1 }
    }
}

/// Encoding a concatenation concatenates the encodings.
pub proof fn lemma_encode_utf8_concat(a: Seq<char>, b: Seq<char>)
    ensures
        encode_utf8(a + b) == encode_utf8(a) + encode_utf8(b),
    decreases a.len(),
{
    if a.len() == 0 {
        assert(a + b =~= b);
        assert(encode_utf8(a) =~= Seq::<u8>::empty());
        assert(encode_utf8(a) + encode_utf8(b) =~= encode_utf8(b));
    } else {
        assert((a + b).drop_first() =~= a.drop_first() + b);
        assert((a + b)[0] == a[0]);
        lemma_encode_utf8_concat(a.drop_first(), b);
        assert(encode_utf8(a + b) =~= encode_utf8(a) + encode_utf8(b));
    }
}

/// Appending a word of letters keeps every boundary of the text and adds
/// one at its old end.
proof fn lemma_letters_keep_boundaries(t: Seq<u8>, w: Seq<u8>)
    requires
        valid_utf8(t),
        valid_utf8(t + w),
        all_letters(w),
    ensures
        forall|i: int| 0 <= i <= t.len() && #[trigger] is_char_boundary(t, i) ==> is_char_boundary(t + w, i),
        is_char_boundary(t + w, t.len() as int),
        is_char_boundary(t + w, (t + w).len() as int),
{
    assert forall|i: int| 0 <= i <= t.len() && #[trigger] is_char_boundary(t, i) implies is_char_boundary(t + w, i) by {
        if i == t.len() {
            if w.len() == 0 {
                assert(t + w =~= t);
            } else {
                assert((t + w)[i] == w[0]);
                assert(is_letter(w[0]));
                assert(!is_continuation_byte((t + w)[i]));
                assert(is_char_boundary(t + w, i) <==> !is_continuation_byte((t + w)[i]));
            }
        } else {
            assert((t + w)[i] == t[i]);
            assert(is_char_boundary(t, i) <==> !is_continuation_byte(t[i]));
            assert(is_char_boundary(t + w, i) <==> !is_continuation_byte((t + w)[i]));
        }
    }
    assert(is_char_boundary(t, t.len() as int));
    assert(is_char_boundary(t + w, (t + w).len() as int));
}

/// A span that is valid in `text` is, shifted, a prefix span of what follows
/// its start.
proof fn lemma_boundary_after_split(text: Seq<u8>, offset: int, len: int)
    requires
        valid_utf8(text),
        valid_span(text, offset, len),
    ensures
        is_char_boundary(text.subrange(offset, text.len() as int), len),
        valid_utf8(text.subrange(offset, text.len() as int)),
{
    let rest = text.subrange(offset, text.len() as int);
    valid_utf8_split(text, offset);
    if len < rest.len() {
        assert(rest[len] == text[offset + len]);
        assert(is_char_boundary(text, offset + len) <==> !is_continuation_byte(text[offset + len]));
        assert(is_char_boundary(rest, len) <==> !is_continuation_byte(rest[len]));
    } else {
        assert(is_char_boundary(rest, rest.len() as int));
    }
}

} // verus!
