//! Search: the dictionary words that a set of letters can spell, in byte order.
use rayon::prelude::{IntoParallelIterator, ParallelIterator, ParallelSliceMut};
use vstd::prelude::*;
use vstd::string::StringSliceAdditionalSpecFns;
use vstd::utf8::encode_utf8;
use crate::count::{CountError, CountSet, covers, encode, unpack};
use crate::dict::{Dictionary, OffsetLength, record_view, word_at};

verus! {

broadcast use vstd::seq_lib::group_to_multiset_ensures;

/// `a` comes before `b`, or equals it, comparing bytes from the first on.
pub open spec fn bytes_le(a: Seq<u8>, b: Seq<u8>) -> bool
    decreases a.len(),
{
    if a.len() == 0 {
        true
    } else if b.len() == 0 {
        false
    } else if a[0] != b[0] {
        a[0] < b[0]
    } else {
        bytes_le(a.drop_first(), b.drop_first())
    }
}

/// Each string's bytes come no later than the next one's.
pub open spec fn sorted_by_bytes(v: Seq<String>) -> bool {
    forall|i: int, j: int|
        0 <= i < j < v.len() ==> bytes_le(encode_utf8(#[trigger] v[i]@), encode_utf8(#[trigger] v[j]@))
}

/// Record `k` of `d` is found for the letter counts `query`: the query has
/// enough of each of its letters and its word length lies within the bounds.
pub open spec fn selected(
    d: Dictionary,
    query: Seq<u8>,
    min_length: usize,
    max_length: Option<usize>,
    k: int,
) -> bool {
    &&& 0 <= k < d.records().len()
    &&& covers(query, unpack(d.records()[k].2))
    &&& min_length <= d.records()[k].1
    &&& (max_length matches Some(m) ==> d.records()[k].1 <= m)
}

/// The records of `d` that `query` selects, by index.
pub open spec fn selected_records(
    d: Dictionary,
    query: Seq<u8>,
    min_length: usize,
    max_length: Option<usize>,
) -> Set<int> {
    Set::new(|k: int| selected(d, query, min_length, max_length, k))
}

/// `w` is the word of a record of `d` that `query` selects.
pub open spec fn is_found(
    d: Dictionary,
    query: Seq<u8>,
    min_length: usize,
    max_length: Option<usize>,
    w: Seq<char>,
) -> bool {
    exists|k: int|
        selected(d, query, min_length, max_length, k) && encode_utf8(w) == word_at(
            d.text(),
            d.records(),
            k,
        )
}

/// One of `words` has the bytes `b`.
pub open spec fn has_word(words: Seq<String>, b: Seq<u8>) -> bool {
    exists|i: int| 0 <= i < words.len() && encode_utf8(words[i]@) == b
}

/// `words` are the words of the records that `query` selects, sorted by
/// bytes.
pub open spec fn found_words(
    d: Dictionary,
    query: Seq<u8>,
    min_length: usize,
    max_length: Option<usize>,
    words: Seq<String>,
) -> bool {
    &&& sorted_by_bytes(words)
    &&& words.len() == selected_records(d, query, min_length, max_length).len()
    &&& forall|i: int|
        0 <= i < words.len() ==> is_found(d, query, min_length, max_length, #[trigger] words[i]@)
    &&& forall|k: int|
        selected(d, query, min_length, max_length, k) ==> #[trigger] has_word(
            words,
            word_at(d.text(), d.records(), k),
        )
}

/// Relies on rayon's parallel `filter` and `collect` over the range `0..n`:
/// each index whose counts `query` contains comes out once.
#[verifier::external_body]
fn par_matching(records: &Vec<(OffsetLength, CountSet)>, query: &CountSet) -> (r: Vec<usize>)
    ensures
        forall|k: usize|
            r@.contains(k) <==> (k < records@.len() && covers(query@, records@[k as int].1@)),
        r@.no_duplicates(),
{
    (0..records.len()).into_par_iter().filter(|&k| query.contains(&records[k].1)).collect()
}

/// Relies on rayon's `par_sort_unstable`: the same strings, in the order of
/// `String`, which compares their bytes lexicographically.
#[verifier::external_body]
fn par_sort(v: &mut Vec<String>)
    ensures
        final(v)@.to_multiset() == old(v)@.to_multiset(),
        sorted_by_bytes(final(v)@),
{
    v.par_sort_unstable();
}

/// The words of `dict` that the letters of `letters` can spell, with a byte
/// length of at least `min_length` and at most `max_length`, sorted by bytes.
/// Fails as counting `letters` fails.
pub fn search(dict: &Dictionary, letters: &str, min_length: usize, max_length: Option<usize>) -> (r:
    Result<Vec<String>, CountError>)
    requires
        dict.wf(),
    ensures
        encode(letters.spec_bytes()) is Err ==> r == Err::<Vec<String>, CountError>(
            encode(letters.spec_bytes())->Err_0,
        ),
        encode(letters.spec_bytes()) is Ok ==> r is Ok,
        r is Ok ==> found_words(
            *dict,
            encode(letters.spec_bytes())->Ok_0,
            min_length,
            max_length,
            r->Ok_0@,
        ),
{
    let query = match CountSet::from_word(letters) {
        Ok(q) => q,
        Err(e) => return Err(e),
    };
    let ghost q = query@;
    let records = dict.word_count();
    let ghost recs = dict.records();
    let found = par_matching(records, &query);
    let n = records.len();
    let mut words: Vec<String> = Vec::new();
    let ghost mut src: Seq<int> = Seq::empty();
    let ghost mut pos: Seq<int> = Seq::empty();
    let mut j: usize = 0;
    while j < found.len()
        invariant
            dict.wf(),
            q == query@,
            records@.map_values(|e: (OffsetLength, CountSet)| record_view(e)) == recs,
            recs == dict.records(),
            n == records@.len(),
            forall|k: usize|
                found@.contains(k) <==> (k < records@.len() && covers(q, records@[k as int].1@)),
            j <= found@.len(),
            words@.len() == src.len(),
            found@.no_duplicates(),
            pos.len() == src.len(),
            forall|i: int|
                0 <= i < src.len() ==> 0 <= #[trigger] pos[i] < j && found@[pos[i]] as int == src[i],
            src.no_duplicates(),
            forall|i: int|
                0 <= i < src.len() ==> selected(*dict, q, min_length, max_length, #[trigger] src[i])
                    && encode_utf8(words@[i]@) == word_at(dict.text(), recs, src[i]),
            forall|jj: int|
                0 <= jj < j && selected(*dict, q, min_length, max_length, found@[jj] as int)
                    ==> src.contains(#[trigger] found@[jj] as int),
        decreases found@.len() - j,
    {
        let k = found[j];
        assert(found@.contains(k));
        assert(recs[k as int] == record_view(records@[k as int]));
        let entry = dict.entry(k);
        let len = entry.word.as_bytes().len();
        assert(len == recs[k as int].1);
        let ghost old_src = src;
        let ghost old_pos = pos;
        let long_enough = len >= min_length;
        let short_enough = match max_length {
            Some(m) => len <= m,
            None => true,
        };
        if long_enough && short_enough {
            let w = entry.word.to_owned();
            words.push(w);
            proof {
                assert forall|i: int| 0 <= i < src.len() implies src[i] != k as int by {
                    assert(pos[i] != j as int);
                    assert(found@[pos[i]] != found@[j as int]);
                }
                src = src.push(k as int);
                pos = pos.push(j as int);
                assert forall|i: int| 0 <= i < src.len() implies 0 <= #[trigger] pos[i] < j + 1
                    && found@[pos[i]] as int == src[i] by {
                    if i < src.len() - 1 {
                        assert(pos[i] == old_pos[i]);
                        assert(src[i] == old_src[i]);
                    }
                }
            }
            assert(src.last() == k as int);
        }
        assert forall|jj: int|
            0 <= jj < j + 1 && selected(*dict, q, min_length, max_length, found@[jj] as int)
                implies src.contains(#[trigger] found@[jj] as int) by {
            if jj == j {
                assert(src[src.len() - 1] == k as int);
            } else {
                assert(old_src.contains(found@[jj] as int));
                let w = choose|w: int| 0 <= w < old_src.len() && old_src[w] == found@[jj] as int;
                assert(src[w] == old_src[w]);
            }
        }
        j = j + 1;
    }
    assert forall|k: int| selected(*dict, q, min_length, max_length, k) implies src.contains(k) by {
        assert(recs.len() == n);
        let ku = k as usize;
        assert(ku as int == k);
        assert(recs[k] == record_view(records@[k]));
        assert(records@[ku as int].1@ == unpack(recs[k].2));
        assert(covers(q, records@[ku as int].1@));
        assert(found@.contains(ku));
        let jj = choose|jj: int| 0 <= jj < found@.len() && found@[jj] == ku;
        assert(found@[jj] as int == k);
        assert(selected(*dict, q, min_length, max_length, found@[jj] as int));
        assert(src.contains(found@[jj] as int));
    }
    proof {
        let sel = selected_records(*dict, q, min_length, max_length);
        assert forall|x: int| src.to_set().contains(x) <==> sel.contains(x) by {
            if src.to_set().contains(x) {
                assert(src.contains(x));
                let i = choose|i: int| 0 <= i < src.len() && src[i] == x;
                assert(selected(*dict, q, min_length, max_length, src[i]));
            }
            if sel.contains(x) {
                assert(src.contains(x));
            }
        }
        assert(src.to_set() =~= sel);
        src.unique_seq_to_set();
    }
    let ghost unsorted = words@;
    par_sort(&mut words);
    assert forall|i: int| 0 <= i < words@.len() implies is_found(
        *dict,
        q,
        min_length,
        max_length,
        #[trigger] words@[i]@,
    ) by {
        assert(words@.to_multiset().count(words@[i]) > 0);
        assert(unsorted.contains(words@[i]));
        let i2 = choose|i2: int| 0 <= i2 < unsorted.len() && unsorted[i2] == words@[i];
        assert(selected(*dict, q, min_length, max_length, src[i2]));
        assert(encode_utf8(words@[i]@) == word_at(dict.text(), dict.records(), src[i2]));
    }
    assert forall|k: int| selected(*dict, q, min_length, max_length, k) implies #[trigger] has_word(
        words@,
        word_at(dict.text(), dict.records(), k),
    ) by {
        assert(src.contains(k));
        assert(unsorted.len() == src.len());
        let i2 = choose|i2: int| 0 <= i2 < src.len() && src[i2] == k;
        assert(unsorted.contains(unsorted[i2]));
        assert(unsorted.to_multiset().count(unsorted[i2]) > 0);
        assert(words@.contains(unsorted[i2]));
        let i = choose|i: int| 0 <= i < words@.len() && words@[i] == unsorted[i2];
        assert(encode_utf8(words@[i]@) == word_at(dict.text(), dict.records(), k));
    }
    assert(q == encode(letters.spec_bytes())->Ok_0);
    assert(words@.len() == unsorted.len()) by {
        assert(words@.to_multiset().len() == unsorted.to_multiset().len());
    }
    assert(found_words(*dict, q, min_length, max_length, words@));
    Ok(words)
}

} // verus!
