//! Letter counting: a word's per-letter counts packed into thirteen bytes.
use vstd::prelude::*;
use vstd::string::StringSliceAdditionalSpecFns;

verus! {

/// Number of letters in the alphabet that is counted.
pub const LETTERS: usize = 26;

/// Number of bytes of the packed form: two four-bit counts per byte.
pub const PACKED_LEN: usize = 13;

/// Largest count that a letter can have.
pub const MAX_COUNT: u8 = 15;

/// Error returned when a word cannot be counted.
#[derive(Debug, Clone, Copy, PartialEq, Eq, Structural)]
pub enum CountError {
    /// The word holds a byte outside the ASCII range.
    NotAscii,
    /// The word holds an ASCII byte that is not a letter.
    NotAlphabetic,
    /// A letter occurs more than fifteen times.
    CountOverflow,
}

impl CountError {
    /// A sentence that describes the error.
    pub fn message(&self) -> (r: &'static str) {
        match self {
            CountError::NotAscii => "String contains non-ASCII characters",
            CountError::NotAlphabetic => "String contains characters other than letters (numbers, symbols, etc.)",
            CountError::CountOverflow => "Letter counter exceeded the count limit",
        }
    }
}

/// An ASCII letter, upper or lower case.
pub open spec fn is_letter(b: u8) -> bool {
    (65 <= b && b <= 90) || (97 <= b && b <= 122)
}

/// Position of a letter in the alphabet, case folded (`A` and `a` are 0).
pub open spec fn letter_index(b: u8) -> int {
    if b >= 97 {
        b - 97
    } else {
        b - 65
    }
}

/// How many bytes of `w` are the letter at position `l`, in either case.
pub open spec fn occurrences(w: Seq<u8>, l: int) -> nat
    decreases w.len(),
{
    if w.len() == 0 {
        0
    } else {
        occurrences(w.drop_last(), l) + if letter_index(w.last()) == l {
            1nat
        } else {
            0nat
        }
    }
}

pub open spec fn all_ascii(w: Seq<u8>) -> bool {
    forall|i: int| 0 <= i < w.len() ==> w[i] < 128
}

pub open spec fn all_letters(w: Seq<u8>) -> bool {
    forall|i: int| 0 <= i < w.len() ==> is_letter(w[i])
}

/// Some letter occurs more often than a count can hold.
pub open spec fn overflows(w: Seq<u8>) -> bool {
    exists|l: int| 0 <= l < LETTERS && occurrences(w, l) > MAX_COUNT
}

/// The 26 letter counts of a word.
pub open spec fn letter_counts(w: Seq<u8>) -> Seq<u8> {
    Seq::new(LETTERS as nat, |l: int| occurrences(w, l) as u8)
}

/// What counting a word gives: the first failed check in the order
/// ASCII, alphabetic, count bound; else the letter counts.
pub open spec fn encode(w: Seq<u8>) -> Result<Seq<u8>, CountError> {
    if !all_ascii(w) {
        Err(CountError::NotAscii)
    } else if !all_letters(w) {
        Err(CountError::NotAlphabetic)
    } else if overflows(w) {
        Err(CountError::CountOverflow)
    } else {
        Ok(letter_counts(w))
    }
}

/// The count of letter `i` in a packed form: low nibble for even letters,
/// high nibble for odd ones.
pub open spec fn nibble(packed: Seq<u8>, i: int) -> u8 {
    if i % 2 == 0 {
        (packed[i / 2] % 16) as u8
    } else {
        (packed[i / 2] / 16) as u8
    }
}

/// The 26 counts that a packed form holds.
pub open spec fn unpack(packed: Seq<u8>) -> Seq<u8> {
    Seq::new(LETTERS as nat, |i: int| nibble(packed, i))
}

/// Every count of `a` is at least the matching count of `b`.
pub open spec fn covers(a: Seq<u8>, b: Seq<u8>) -> bool {
    forall|i: int| 0 <= i < LETTERS ==> a[i] >= b[i]
}

/// Byte and bit offset of letter `index` in the packed form.
fn to_index_offset(index: u8) -> (r: (usize, u8))
    requires
        index < LETTERS,
    ensures
        r.0 == index / 2,
        r.0 < PACKED_LEN,
        r.1 == (index % 2) * 4,
{
    (index as usize / 2, index % 2 * 4)
}

proof fn lemma_nibble_bits(b: u8)
    ensures
        (b >> 0u8) & 0b1111u8 == b % 16,
        (b >> 4u8) & 0b1111u8 == b / 16,
{
    assert((b >> 0u8) & 0b1111u8 == b % 16) by (bit_vector);
    assert((b >> 4u8) & 0b1111u8 == b / 16) by (bit_vector);
}

/// Letter counts of a word, packed two per byte.
#[derive(Debug, Clone, Copy, PartialEq, Eq, Hash)]
pub struct CountSet([u8; 13]);

/// Walks the 26 counts of a `CountSet` in letter order.
pub struct CountSetIter<'a> {
    count: &'a CountSet,
    index: usize,
}

impl View for CountSet {
    type V = Seq<u8>;

    open spec fn view(&self) -> Seq<u8> {
        unpack(self.packed())
    }
}

impl CountSet {
    /// The thirteen packed bytes.
    pub closed spec fn packed(&self) -> Seq<u8> {
        self.0@
    }

    pub proof fn lemma_packed_len(&self)
        ensures
            self.packed().len() == PACKED_LEN,
    {
    }

    /// Counts the letters of `word`, case folded.
    pub fn from_word(word: &str) -> (r: Result<CountSet, CountError>)
        ensures
            r is Ok ==> encode(word.spec_bytes()) == Ok::<Seq<u8>, CountError>(r->Ok_0@),
            r is Err ==> encode(word.spec_bytes()) == Err::<Seq<u8>, CountError>(r->Err_0),
    {
        let bytes = word.as_bytes();
        let n = bytes.len();
        let mut i: usize = 0;
        while i < n
            invariant
                bytes@ == word.spec_bytes(),
                n == bytes@.len(),
                i <= n,
                all_ascii(bytes@.subrange(0, i as int)),
            decreases n - i,
        {
            if bytes[i] >= 128 {
                assert(!all_ascii(bytes@));
                return Err(CountError::NotAscii);
            }
            i = i + 1;
        }
        assert(bytes@.subrange(0, n as int) =~= bytes@);
        i = 0;
        while i < n
            invariant
                bytes@ == word.spec_bytes(),
                n == bytes@.len(),
                i <= n,
                all_ascii(bytes@),
                all_letters(bytes@.subrange(0, i as int)),
            decreases n - i,
        {
            let b = bytes[i];
            if !((65 <= b && b <= 90) || (97 <= b && b <= 122)) {
                assert(!is_letter(bytes@[i as int]));
                assert(!all_letters(bytes@));
                return Err(CountError::NotAlphabetic);
            }
            i = i + 1;
        }
        assert(bytes@.subrange(0, n as int) =~= bytes@);
        let mut count: [u8; 26] = [0u8; 26];
        i = 0;
        while i < n
            invariant
                bytes@ == word.spec_bytes(),
                n == bytes@.len(),
                i <= n,
                all_letters(bytes@),
                forall|l: int|
                    0 <= l < LETTERS ==> count@[l] as nat == occurrences(
                        bytes@.subrange(0, i as int),
                        l,
                    ),
                forall|l: int| 0 <= l < LETTERS ==> count@[l] <= MAX_COUNT,
            decreases n - i,
        {
            let b = bytes[i];
            let upper = if b >= 97 {
                b - 32
            } else {
                b
            };
            let l = (upper - 65) as usize;
            let ghost prefix = bytes@.subrange(0, i as int);
            let ghost next = bytes@.subrange(0, i as int + 1);
            assert(next.drop_last() =~= prefix);
            assert(next.last() == b);
            if count[l] >= MAX_COUNT {
                assert(occurrences(next, l as int) > MAX_COUNT);
                assert(bytes@.subrange(0, n as int) =~= bytes@);
                proof {
                    lemma_occurrences_prefix(bytes@, i as int + 1, l as int);
                }
                assert(overflows(bytes@));
                return Err(CountError::CountOverflow);
            }
            count[l] = count[l] + 1;
            assert(letter_index(b) == l as int);
            assert forall|m: int| 0 <= m < LETTERS implies count@[m] as nat == occurrences(
                next,
                m,
            ) by {
                assert(occurrences(next, m) == occurrences(prefix, m) + if letter_index(b) == m {
                    1nat
                } else {
                    0nat
                });
            }
            i = i + 1;
        }
        assert(bytes@.subrange(0, n as int) =~= bytes@);
        assert forall|l: int| 0 <= l < LETTERS implies occurrences(bytes@, l) <= MAX_COUNT by {
            assert(count@[l] as nat == occurrences(bytes@.subrange(0, n as int), l));
        }
        assert(!overflows(bytes@));
        let r = CountSet::try_from(count);
        match r {
            Ok(c) => {
                assert(c@ =~= letter_counts(bytes@));
                Ok(c)
            },
            Err(e) => Err(e),
        }
    }

    /// Packs 26 counts; fails when one of them exceeds fifteen.
    pub fn try_from(counts: [u8; 26]) -> (r: Result<CountSet, CountError>)
        ensures
            match r {
                Ok(c) => c@ == counts@,
                Err(e) => e == CountError::CountOverflow,
            },
            r is Err <==> exists|i: int| 0 <= i < LETTERS && counts@[i] > MAX_COUNT,
    {
        let mut i: usize = 0;
        while i < LETTERS
            invariant
                i <= LETTERS,
                forall|j: int| 0 <= j < i ==> counts@[j] <= MAX_COUNT,
            decreases LETTERS - i,
        {
            if counts[i] > MAX_COUNT {
                return Err(CountError::CountOverflow);
            }
            i = i + 1;
        }
        let mut packed: [u8; 13] = [0u8; 13];
        let mut k: usize = 0;
        while k < PACKED_LEN
            invariant
                k <= PACKED_LEN,
                forall|j: int| 0 <= j < LETTERS ==> counts@[j] <= MAX_COUNT,
                forall|j: int|
                    0 <= j < 2 * k ==> #[trigger] nibble(packed@, j) == counts@[j],
            decreases PACKED_LEN - k,
        {
            let lo = counts[2 * k];
            let hi = counts[2 * k + 1];
            let byte = lo + hi * 16;
            proof {
                lemma_pack_nibbles(lo, hi);
            }
            let ghost before = packed@;
            packed[k] = byte;
            assert forall|j: int| 0 <= j < 2 * (k + 1) implies #[trigger] nibble(packed@, j)
                == counts@[j] by {
                if j < 2 * k {
                    assert(nibble(before, j) == counts@[j]);
                    assert(j / 2 < k);
                    assert(packed@[j / 2] == before[j / 2]);
                } else {
                    assert(j / 2 == k);
                }
            }
            k = k + 1;
        }
        let c = CountSet(packed);
        assert(c@ =~= counts@);
        Ok(c)
    }

    /// Takes thirteen packed bytes as they are.
    pub fn from_packed(packed: [u8; 13]) -> (r: CountSet)
        ensures
            r.packed() == packed@,
    {
        CountSet(packed)
    }

    /// The count of letter `index`.
    pub fn get(&self, index: usize) -> (r: u8)
        requires
            index < LETTERS,
        ensures
            r == self@[index as int],
            r <= MAX_COUNT,
    {
        let (byte, offset) = to_index_offset(index as u8);
        let b = self.0[byte];
        proof {
            lemma_nibble_bits(b);
        }
        (b >> offset) & 0b1111u8
    }

    /// The 26 counts, in letter order.
    pub fn decode(&self) -> (r: [u8; 26])
        ensures
            r@ == self@,
    {
        let mut out: [u8; 26] = [0u8; 26];
        let mut i: usize = 0;
        while i < LETTERS
            invariant
                i <= LETTERS,
                forall|j: int| 0 <= j < i ==> out@[j] == self@[j],
            decreases LETTERS - i,
        {
            out[i] = self.get(i);
            i = i + 1;
        }
        assert(out@ =~= self@);
        out
    }

    /// A cursor over the 26 counts.
    pub fn iter(&self) -> (r: CountSetIter<'_>)
        ensures
            r.count() == self,
            r.index() == 0,
    {
        CountSetIter { count: self, index: 0 }
    }

    /// The thirteen packed bytes.
    pub fn slice(&self) -> (r: &[u8])
        ensures
            r@ == self.packed(),
    {
        self.0.as_slice()
    }

    /// Whether `self` has at least as many of every letter as `other`.
    pub fn contains(&self, other: &Self) -> (r: bool)
        ensures
            r == covers(self@, other@),
    {
        let mut i: usize = 0;
        while i < LETTERS
            invariant
                i <= LETTERS,
                forall|j: int| 0 <= j < i ==> self@[j] >= other@[j],
            decreases LETTERS - i,
        {
            if self.get(i) < other.get(i) {
                return false;
            }
            i = i + 1;
        }
        true
    }
}

impl<'a> CountSetIter<'a> {
    pub closed spec fn count(&self) -> &'a CountSet {
        self.count
    }

    pub closed spec fn index(&self) -> int {
        self.index as int
    }

    /// The next count, or `None` after the last letter.
    pub fn next(&mut self) -> (r: Option<u8>)
        ensures
            final(self).count() == old(self).count(),
            old(self).index() < LETTERS ==> r == Some(old(self).count()@[old(self).index()])
                && final(self).index() == old(self).index() + 1,
            old(self).index() >= LETTERS ==> r is None && final(self).index() == old(
                self,
            ).index(),
    {
        if self.index >= LETTERS {
            return None;
        }
        let value = self.count.get(self.index);
        self.index = self.index + 1;
        Some(value)
    }

    /// How many counts are left, as a lower and an upper bound.
    pub fn size_hint(&self) -> (r: (usize, Option<usize>))
        ensures
            self.index() <= LETTERS ==> r == (
            (LETTERS - self.index()) as usize, Some((LETTERS - self.index()) as usize)),
            self.index() > LETTERS ==> r == (0usize, Some(0usize)),
    {
        let size = if self.index > LETTERS {
            0
        } else {
            LETTERS - self.index
        };
        (size, Some(size))
    }
}

proof fn lemma_pack_nibbles(lo: u8, hi: u8)
    requires
        lo <= 15,
        hi <= 15,
    ensures
        lo + hi * 16 <= 255,
        ((lo + hi * 16) as u8) % 16 == lo,
        ((lo + hi * 16) as u8) / 16 == hi,
{
    assert(((lo + hi * 16) as u8) % 16 == lo && ((lo + hi * 16) as u8) / 16 == hi) by (nonlinear_arith)
        requires
            lo <= 15,
            hi <= 15,
    ;
}

/// Every count set contains itself.
pub proof fn lemma_contains_reflexive(x: CountSet)
    ensures
        covers(x@, x@),
{
}

/// Removing one byte of a word takes one occurrence from its letter and
/// none from the others.
pub proof fn lemma_occurrences_remove(w: Seq<u8>, i: int, l: int)
    requires
        0 <= i < w.len(),
    ensures
        occurrences(w.remove(i), l) + (if letter_index(w[i]) == l {
            1nat
        } else {
            0nat
        }) == occurrences(w, l),
    decreases w.len(),
{
    if i == w.len() - 1 {
        assert(w.remove(i) =~= w.drop_last());
    } else {
        assert(w.remove(i).drop_last() =~= w.drop_last().remove(i));
        assert(w.remove(i).last() == w.last());
        assert(w.drop_last()[i] == w[i]);
        lemma_occurrences_remove(w.drop_last(), i, l);
    }
}

/// Removing a letter occurrence from a word that counts successfully gives a
/// word that counts successfully too, and whatever contained the counts of
/// the first word contains those of the second.
pub proof fn lemma_contains_after_removal(a: CountSet, w: Seq<u8>, i: int)
    requires
        encode(w) is Ok,
        covers(a@, encode(w)->Ok_0),
        0 <= i < w.len(),
    ensures
        encode(w.remove(i)) is Ok,
        covers(a@, encode(w.remove(i))->Ok_0),
{
    let v = w.remove(i);
    assert forall|j: int| 0 <= j < v.len() implies v[j] < 128 && is_letter(v[j]) by {
        if j < i {
            assert(v[j] == w[j]);
        } else {
            assert(v[j] == w[j + 1]);
        }
    }
    assert forall|l: int| 0 <= l < LETTERS implies occurrences(v, l) <= occurrences(w, l) by {
        lemma_occurrences_remove(w, i, l);
    }
    assert(!overflows(v));
}

/// A word of one letter counts one of that letter and none of the others.
pub proof fn lemma_single_letter(b: u8)
    requires
        is_letter(b),
    ensures
        encode(seq![b]) == Ok::<Seq<u8>, CountError>(
            Seq::new(LETTERS as nat, |l: int| if l == letter_index(b) { 1u8 } else { 0u8 }),
        ),
{
    let w = seq![b];
    assert(w.drop_last() =~= Seq::<u8>::empty());
    assert forall|l: int| 0 <= l < LETTERS implies occurrences(w, l) == if l == letter_index(b) {
        1nat
    } else {
        0nat
    } by {
        assert(occurrences(w.drop_last(), l) == 0);
    }
    assert(!overflows(w));
    assert(letter_counts(w) =~= Seq::new(
        LETTERS as nat,
        |l: int| if l == letter_index(b) { 1u8 } else { 0u8 },
    ));
}

/// Occurrences never shrink as a word grows.
pub proof fn lemma_occurrences_prefix(w: Seq<u8>, k: int, l: int)
    requires
        0 <= k <= w.len(),
    ensures
        occurrences(w.subrange(0, k), l) <= occurrences(w, l),
    decreases w.len() - k,
{
    if k < w.len() {
        let p = w.subrange(0, k + 1);
        assert(p.drop_last() =~= w.subrange(0, k));
        lemma_occurrences_prefix(w, k + 1, l);
    } else {
        assert(w.subrange(0, k) =~= w);
    }
}

} // verus!
