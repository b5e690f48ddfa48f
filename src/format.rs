//! The dictionary file: a header, the text buffer, then fixed-stride records.
//!
//! Layout, integers little-endian: `DICT`; version 1 in four bytes; the
//! record count and the text length in eight bytes each (the word size of
//! 64-bit targets); the text; then per record its offset and length in eight
//! bytes each and its thirteen packed count bytes.
use rayon::prelude::{IntoParallelIterator, ParallelIterator};
use vstd::prelude::*;
use vstd::string::StringSliceAdditionalSpecFns;
use vstd::utf8::*;
use crate::count::{CountSet, PACKED_LEN};
use crate::dict::{Dictionary, OffsetLength, record_view, spans_valid, valid_span};

verus! {

broadcast use {encode_utf8_valid_utf8, decode_utf8_encode_utf8};

/// Version of the layout that is written and accepted.
pub const FORMAT_VERSION: u32 = 1;

/// Bytes before the text: magic, version, record count, text length.
pub const HEADER_LEN: usize = 24;

/// Bytes of one record: offset, length, packed counts.
pub const STRIDE: usize = 29;

/// std's I/O error, carried unopened inside `ReadError`.
#[verifier::external_type_specification]
#[verifier::external_body]
pub struct ExIoError(std::io::Error);

/// Error returned when a dictionary cannot be read.
#[derive(Debug)]
pub enum ReadError {
    /// The bytes are not a dictionary file: wrong magic or version, too
    /// short for what the header declares, text that is not UTF-8, or a
    /// record whose span does not lie on character boundaries of the text.
    FormatError,
    /// Reading the bytes failed.
    IoError(std::io::Error),
}

impl ReadError {
    /// Whether the bytes were not a dictionary file.
    pub fn is_format_error(&self) -> (r: bool)
        ensures
            r == (self is FormatError),
    {
        match self {
            ReadError::FormatError => true,
            ReadError::IoError(_) => false,
        }
    }
}

pub open spec fn magic() -> Seq<u8> {
    seq![68u8, 73u8, 67u8, 84u8]
}

/// The four little-endian bytes of `x`.
pub open spec fn le32_bytes(x: u32) -> Seq<u8> {
    seq![x as u8, (x >> 8u32) as u8, (x >> 16u32) as u8, (x >> 24u32) as u8]
}

/// The value of four little-endian bytes.
pub open spec fn le32_value(b: Seq<u8>) -> u32 {
    (b[0] as u32) | ((b[1] as u32) << 8u32) | ((b[2] as u32) << 16u32) | ((b[3] as u32) << 24u32)
}

/// The eight little-endian bytes of `x`.
pub open spec fn le64_bytes(x: u64) -> Seq<u8> {
    seq![
        x as u8,
        (x >> 8u64) as u8,
        (x >> 16u64) as u8,
        (x >> 24u64) as u8,
        (x >> 32u64) as u8,
        (x >> 40u64) as u8,
        (x >> 48u64) as u8,
        (x >> 56u64) as u8,
    ]
}

/// The value of eight little-endian bytes.
pub open spec fn le64_value(b: Seq<u8>) -> u64 {
    (b[0] as u64) | ((b[1] as u64) << 8u64) | ((b[2] as u64) << 16u64) | ((b[3] as u64) << 24u64)
        | ((b[4] as u64) << 32u64) | ((b[5] as u64) << 40u64) | ((b[6] as u64) << 48u64) | ((
    b[7] as u64) << 56u64)
}

/// The bytes of one record.
pub open spec fn record_bytes(r: (usize, usize, Seq<u8>)) -> Seq<u8> {
    le64_bytes(r.0 as u64) + le64_bytes(r.1 as u64) + r.2
}

/// The bytes of the records, in order.
pub open spec fn records_bytes(rs: Seq<(usize, usize, Seq<u8>)>) -> Seq<u8>
    decreases rs.len(),
{
    if rs.len() == 0 {
        Seq::empty()
    } else {
        records_bytes(rs.drop_last()) + record_bytes(rs.last())
    }
}

/// The file that holds `text` and `records`.
pub open spec fn serialize(text: Seq<u8>, records: Seq<(usize, usize, Seq<u8>)>) -> Seq<u8> {
    magic() + le32_bytes(FORMAT_VERSION) + le64_bytes(records.len() as u64) + le64_bytes(
        text.len() as u64,
    ) + text + records_bytes(records)
}

/// The declared record count.
pub open spec fn declared_count(b: Seq<u8>) -> int {
    le64_value(b.subrange(8, 16)) as int
}

/// The declared text length.
pub open spec fn declared_text_len(b: Seq<u8>) -> int {
    le64_value(b.subrange(16, 24)) as int
}

/// Where record `k` starts, after a text of `l` bytes.
pub open spec fn record_start(l: int, k: int) -> int {
    HEADER_LEN + l + STRIDE * k
}

/// Offset, length and packed counts of the record that starts at `s`.
pub open spec fn raw_record(b: Seq<u8>, s: int) -> (u64, u64, Seq<u8>) {
    (
        le64_value(b.subrange(s, s + 8)),
        le64_value(b.subrange(s + 8, s + 16)),
        b.subrange(s + 16, s + STRIDE),
    )
}

/// Header, declared lengths and text that a file must have.
pub open spec fn frame_ok(b: Seq<u8>) -> bool {
    &&& b.len() >= HEADER_LEN
    &&& b.subrange(0, 4) == magic()
    &&& le32_value(b.subrange(4, 8)) == FORMAT_VERSION
    &&& record_start(declared_text_len(b), declared_count(b)) <= b.len()
    &&& declared_count(b) <= usize::MAX
    &&& valid_utf8(b.subrange(HEADER_LEN as int, HEADER_LEN + declared_text_len(b)))
}

/// The text of a file whose frame is right.
pub open spec fn file_text(b: Seq<u8>) -> Seq<u8> {
    b.subrange(HEADER_LEN as int, HEADER_LEN + declared_text_len(b))
}

/// Record `k` of a file whose frame is right.
pub open spec fn file_record(b: Seq<u8>, k: int) -> (usize, usize, Seq<u8>) {
    let r = raw_record(b, record_start(declared_text_len(b), k));
    (r.0 as usize, r.1 as usize, r.2)
}

/// Record `k` lies within the text, on character boundaries.
pub open spec fn record_ok(b: Seq<u8>, k: int) -> bool {
    let r = raw_record(b, record_start(declared_text_len(b), k));
    &&& r.0 + r.1 <= declared_text_len(b)
    &&& valid_span(file_text(b), r.0 as int, r.1 as int)
}

/// What a file holds: its text and records, or nothing when it is not a
/// dictionary file.
pub open spec fn parse(b: Seq<u8>) -> Option<(Seq<u8>, Seq<(usize, usize, Seq<u8>)>)> {
    if frame_ok(b) && forall|k: int| 0 <= k < declared_count(b) ==> #[trigger] record_ok(b, k) {
        Some(
            (
                file_text(b),
                Seq::new(declared_count(b) as nat, |k: int| file_record(b, k)),
            ),
        )
    } else {
        None
    }
}

/// Reads eight little-endian bytes at `at`.
fn read_u64(b: &[u8], at: usize) -> (r: u64)
    requires
        at + 8 <= b@.len(),
    ensures
        r == le64_value(b@.subrange(at as int, at + 8)),
{
    (b[at] as u64) | ((b[at + 1] as u64) << 8u64) | ((b[at + 2] as u64) << 16u64) | ((
    b[at + 3] as u64) << 24u64) | ((b[at + 4] as u64) << 32u64) | ((b[at + 5] as u64) << 40u64)
        | ((b[at + 6] as u64) << 48u64) | ((b[at + 7] as u64) << 56u64)
}

/// Reads four little-endian bytes at `at`.
fn read_u32(b: &[u8], at: usize) -> (r: u32)
    requires
        at + 4 <= b@.len(),
    ensures
        r == le32_value(b@.subrange(at as int, at + 4)),
{
    (b[at] as u32) | ((b[at + 1] as u32) << 8u32) | ((b[at + 2] as u32) << 16u32) | ((
    b[at + 3] as u32) << 24u32)
}

/// Appends the four little-endian bytes of `x`.
fn push_u32(out: &mut Vec<u8>, x: u32)
    ensures
        final(out)@ == old(out)@ + le32_bytes(x),
{
    out.push(x as u8);
    out.push((x >> 8u32) as u8);
    out.push((x >> 16u32) as u8);
    out.push((x >> 24u32) as u8);
    assert(final(out)@ =~= old(out)@ + le32_bytes(x));
}

/// Appends the eight little-endian bytes of `x`.
fn push_u64(out: &mut Vec<u8>, x: u64)
    ensures
        final(out)@ == old(out)@ + le64_bytes(x),
{
    out.push(x as u8);
    out.push((x >> 8u64) as u8);
    out.push((x >> 16u64) as u8);
    out.push((x >> 24u64) as u8);
    out.push((x >> 32u64) as u8);
    out.push((x >> 40u64) as u8);
    out.push((x >> 48u64) as u8);
    out.push((x >> 56u64) as u8);
    assert(final(out)@ =~= old(out)@ + le64_bytes(x));
}

/// Appends all of `b`.
fn push_all(out: &mut Vec<u8>, b: &[u8])
    ensures
        final(out)@ == old(out)@ + b@,
{
    let ghost start = out@;
    let mut i: usize = 0;
    while i < b.len()
        invariant
            i <= b@.len(),
            out@ == start + b@.subrange(0, i as int),
        decreases b@.len() - i,
    {
        out.push(b[i]);
        i = i + 1;
        assert(out@ =~= start + b@.subrange(0, i as int));
    }
    assert(b@.subrange(0, b@.len() as int) =~= b@);
}

/// The bytes of the file that holds `dict`.
pub fn write_dict(dict: &Dictionary) -> (r: Vec<u8>)
    ensures
        r@ == serialize(dict.text(), dict.records()),
{
    let mut out: Vec<u8> = Vec::new();
    out.push(68u8);
    out.push(73u8);
    out.push(67u8);
    out.push(84u8);
    push_u32(&mut out, FORMAT_VERSION);
    let records = dict.word_count();
    let text = dict.word_string().as_bytes();
    let ghost recs = dict.records();
    assert(records@.len() == recs.len());
    push_u64(&mut out, records.len() as u64);
    push_u64(&mut out, text.len() as u64);
    push_all(&mut out, text);
    let ghost before = out@;
    assert(before =~= magic() + le32_bytes(FORMAT_VERSION) + le64_bytes(recs.len() as u64)
        + le64_bytes(dict.text().len() as u64) + dict.text());
    let mut k: usize = 0;
    while k < records.len()
        invariant
            k <= records@.len(),
            records@.map_values(|e: (OffsetLength, CountSet)| record_view(e)) == recs,
            out@ == before + records_bytes(recs.subrange(0, k as int)),
        decreases records@.len() - k,
    {
        let e = &records[k];
        let ghost mid = out@;
        push_u64(&mut out, e.0.0 as u64);
        push_u64(&mut out, e.0.1 as u64);
        push_all(&mut out, e.1.slice());
        assert(recs[k as int] == record_view(records@[k as int]));
        assert(recs.subrange(0, k as int + 1).drop_last() =~= recs.subrange(0, k as int));
        assert(out@ =~= before + records_bytes(recs.subrange(0, k as int + 1)));
        k = k + 1;
    }
    assert(recs.subrange(0, recs.len() as int) =~= recs);
    out
}

/// Relies on `String::from_utf8`: it fails exactly when the bytes are not
/// UTF-8, and otherwise holds the characters that they encode.
#[verifier::external_body]
fn string_from_utf8(v: Vec<u8>) -> (r: Option<String>)
    ensures
        r is Some <==> valid_utf8(v@),
        r matches Some(s) ==> s@ == decode_utf8(v@),
{
    String::from_utf8(v).ok()
}

/// Offset, length and packed counts of record `k`, after a text of `l`
/// bytes.
pub fn decode_record(b: &[u8], l: usize, k: usize) -> (r: (u64, u64, CountSet))
    requires
        record_start(l as int, k + 1) <= b@.len(),
    ensures
        r.0 == raw_record(b@, record_start(l as int, k as int)).0,
        r.1 == raw_record(b@, record_start(l as int, k as int)).1,
        r.2.packed() == raw_record(b@, record_start(l as int, k as int)).2,
{
    let blen = b.len();
    let s = HEADER_LEN + l + STRIDE * k;
    let offset = read_u64(b, s);
    let len = read_u64(b, s + 8);
    let mut packed: [u8; 13] = [0u8; 13];
    let mut i: usize = 0;
    while i < PACKED_LEN
        invariant
            s == record_start(l as int, k as int),
            s + STRIDE <= b@.len(),
            blen == b@.len(),
            i <= PACKED_LEN,
            forall|j: int| 0 <= j < i ==> packed@[j] == b@[s + 16 + j],
        decreases PACKED_LEN - i,
    {
        packed[i] = b[s + 16 + i];
        i = i + 1;
    }
    let c = CountSet::from_packed(packed);
    assert(packed@ =~= b@.subrange(s + 16, s + STRIDE));
    (offset, len, c)
}

/// Relies on rayon's indexed `map` over the range `0..n` and `collect`,
/// which keeps the order of the range: element `k` is `decode_record(b, l, k)`.
#[verifier::external_body]
fn par_decode(b: &[u8], l: usize, n: usize) -> (r: Vec<(u64, u64, CountSet)>)
    requires
        record_start(l as int, n as int) <= b@.len(),
    ensures
        r@.len() == n,
        forall|k: int|
            0 <= k < n ==> (#[trigger] r@[k]).0 == raw_record(b@, record_start(l as int, k)).0,
        forall|k: int|
            0 <= k < n ==> (#[trigger] r@[k]).1 == raw_record(b@, record_start(l as int, k)).1,
        forall|k: int|
            0 <= k < n ==> (#[trigger] r@[k]).2.packed() == raw_record(
                b@,
                record_start(l as int, k),
            ).2,
{
    (0..n).into_par_iter().map(|k| decode_record(b, l, k)).collect()
}

proof fn lemma_stride_bound(n: int, room: int)
    requires
        0 <= n,
        0 <= room,
    ensures
        n <= room / (STRIDE as int) ==> STRIDE * n <= room,
        n > room / (STRIDE as int) ==> STRIDE * n > room,
{
    assert(n <= room / 29 ==> 29 * n <= room) by (nonlinear_arith)
        requires
            0 <= n,
            0 <= room,
    ;
    assert(n > room / 29 ==> 29 * n > room) by (nonlinear_arith)
        requires
            0 <= n,
            0 <= room,
    ;
}

/// The dictionary that the file `bytes` holds; a format error when it holds
/// none. Nothing is remembered for duplicate checks.
pub fn read_dict(bytes: &[u8]) -> (r: Result<Dictionary, ReadError>)
    ensures
        parse(bytes@) is None ==> r matches Err(ReadError::FormatError),
        parse(bytes@) is Some ==> r is Ok,
        r matches Ok(d) ==> {
            &&& parse(bytes@) == Some((d.text(), d.records()))
            &&& d.wf()
            &&& d.seen() == Set::<Seq<char>>::empty()
        },
{
    let ghost b = bytes@;
    if bytes.len() < HEADER_LEN {
        return Err(ReadError::FormatError);
    }
    if bytes[0] != 68u8 || bytes[1] != 73u8 || bytes[2] != 67u8 || bytes[3] != 84u8 {
        assert(b.subrange(0, 4) != magic()) by {
            assert(b.subrange(0, 4)[0] == b[0]);
            assert(b.subrange(0, 4)[1] == b[1]);
            assert(b.subrange(0, 4)[2] == b[2]);
            assert(b.subrange(0, 4)[3] == b[3]);
        }
        return Err(ReadError::FormatError);
    }
    assert(b.subrange(0, 4) =~= magic());
    if read_u32(bytes, 4) != FORMAT_VERSION {
        return Err(ReadError::FormatError);
    }
    let count = read_u64(bytes, 8);
    let text_len = read_u64(bytes, 16);
    let room = bytes.len() - HEADER_LEN;
    if text_len > room as u64 {
        return Err(ReadError::FormatError);
    }
    let l = text_len as usize;
    let room2 = room - l;
    proof {
        lemma_stride_bound(count as int, room2 as int);
    }
    if count > (room2 / STRIDE) as u64 {
        return Err(ReadError::FormatError);
    }
    let n = count as usize;
    let mut text: Vec<u8> = Vec::new();
    let blen = bytes.len();
    let mut i: usize = 0;
    while i < l
        invariant
            blen == bytes@.len(),
            i <= l,
            HEADER_LEN + l <= bytes@.len(),
            text@ == bytes@.subrange(HEADER_LEN as int, HEADER_LEN + i),
        decreases l - i,
    {
        text.push(bytes[HEADER_LEN + i]);
        i = i + 1;
        assert(text@ =~= bytes@.subrange(HEADER_LEN as int, HEADER_LEN + i));
    }
    let ghost text_bytes = text@;
    let word_string = match string_from_utf8(text) {
        Some(s) => s,
        None => return Err(ReadError::FormatError),
    };
    assert(encode_utf8(word_string@) == text_bytes);
    let decoded = par_decode(bytes, l, n);
    let mut word_count: Vec<(OffsetLength, CountSet)> = Vec::new();
    let ghost recs = Seq::new(n as nat, |k: int| file_record(b, k));
    let s = word_string.as_str();
    let mut k: usize = 0;
    while k < n
        invariant
            b == bytes@,
            frame_ok(b),
            declared_text_len(b) == l,
            declared_count(b) == n,
            file_text(b) == text_bytes,
            s.spec_bytes() == text_bytes,
            encode_utf8(word_string@) == text_bytes,
            decoded@.len() == n,
            forall|j: int|
                0 <= j < n ==> (#[trigger] decoded@[j]).0 == raw_record(b, record_start(l as int, j)).0,
            forall|j: int|
                0 <= j < n ==> (#[trigger] decoded@[j]).1 == raw_record(b, record_start(l as int, j)).1,
            forall|j: int|
                0 <= j < n ==> (#[trigger] decoded@[j]).2.packed() == raw_record(
                    b,
                    record_start(l as int, j),
                ).2,
            recs == Seq::new(n as nat, |j: int| file_record(b, j)),
            k <= n,
            word_count@.map_values(|e: (OffsetLength, CountSet)| record_view(e)) == recs.subrange(
                0,
                k as int,
            ),
            forall|j: int| 0 <= j < k ==> #[trigger] record_ok(b, j),
        decreases n - k,
    {
        let e = decoded[k];
        let offset = e.0;
        let len = e.1;
        assert(decoded@[k as int].0 == e.0);
        if offset > l as u64 || len > l as u64 - offset {
            assert(!record_ok(b, k as int));
            return Err(ReadError::FormatError);
        }
        let start = offset as usize;
        let end = (offset + len) as usize;
        if !s.is_char_boundary(start) || !s.is_char_boundary(end) {
            assert(!record_ok(b, k as int));
            return Err(ReadError::FormatError);
        }
        assert(record_ok(b, k as int));
        let ghost before = word_count@;
        assert(record_view(((start, len as usize), e.2)) == recs[k as int]);
        word_count.push(((start, len as usize), e.2));
        assert(word_count@ == before.push(((start, len as usize), e.2)));
        assert(word_count@.map_values(|e: (OffsetLength, CountSet)| record_view(e)) =~= before.map_values(
            |e: (OffsetLength, CountSet)| record_view(e),
        ).push(recs[k as int]));
        assert(word_count@.map_values(|e: (OffsetLength, CountSet)| record_view(e)) =~= recs.subrange(
            0,
            k + 1,
        ));
        k = k + 1;
    }
    assert(recs.subrange(0, n as int) =~= recs);
    assert(parse(b) == Some((text_bytes, recs)));
    assert forall|j: int| 0 <= j < recs.len() implies valid_span(
        text_bytes,
        #[trigger] recs[j].0 as int,
        recs[j].1 as int,
    ) by {
        assert(record_ok(b, j));
    }
    Ok(Dictionary::from_raw_parts(word_string, word_count))
}

proof fn lemma_le64(x: u64)
    ensures
        le64_value(le64_bytes(x)) == x,
{
    let b = le64_bytes(x);
    assert(b[0] == x as u8 && b[1] == (x >> 8u64) as u8 && b[2] == (x >> 16u64) as u8 && b[3] == (x
        >> 24u64) as u8 && b[4] == (x >> 32u64) as u8 && b[5] == (x >> 40u64) as u8 && b[6] == (x
        >> 48u64) as u8 && b[7] == (x >> 56u64) as u8);
    assert(((x as u8) as u64) | ((((x >> 8u64) as u8) as u64) << 8u64) | ((((x >> 16u64) as u8) as u64)
        << 16u64) | ((((x >> 24u64) as u8) as u64) << 24u64) | ((((x >> 32u64) as u8) as u64)
        << 32u64) | ((((x >> 40u64) as u8) as u64) << 40u64) | ((((x >> 48u64) as u8) as u64)
        << 48u64) | ((((x >> 56u64) as u8) as u64) << 56u64) == x) by (bit_vector);
}

proof fn lemma_le32(x: u32)
    ensures
        le32_value(le32_bytes(x)) == x,
{
    let b = le32_bytes(x);
    assert(b[0] == x as u8 && b[1] == (x >> 8u32) as u8 && b[2] == (x >> 16u32) as u8 && b[3] == (x
        >> 24u32) as u8);
    assert(((x as u8) as u32) | ((((x >> 8u32) as u8) as u32) << 8u32) | ((((x >> 16u32) as u8) as u32)
        << 16u32) | ((((x >> 24u32) as u8) as u32) << 24u32) == x) by (bit_vector);
}

/// Record `k` of a record sequence sits at `STRIDE * k` in its bytes.
proof fn lemma_records_bytes(rs: Seq<(usize, usize, Seq<u8>)>)
    requires
        forall|k: int| 0 <= k < rs.len() ==> (#[trigger] rs[k]).2.len() == PACKED_LEN,
    ensures
        records_bytes(rs).len() == STRIDE * rs.len(),
        forall|k: int|
            0 <= k < rs.len() ==> records_bytes(rs).subrange(STRIDE * k, STRIDE * k + STRIDE)
                == record_bytes(#[trigger] rs[k]),
    decreases rs.len(),
{
    if rs.len() > 0 {
        let init = rs.drop_last();
        assert forall|k: int| 0 <= k < init.len() implies (#[trigger] init[k]).2.len() == PACKED_LEN by {
            assert(init[k] == rs[k]);
        }
        lemma_records_bytes(init);
        let front = records_bytes(init);
        let last = record_bytes(rs.last());
        assert(last.len() == STRIDE);
        assert forall|k: int| 0 <= k < rs.len() implies records_bytes(rs).subrange(
            STRIDE * k,
            STRIDE * k + STRIDE,
        ) == record_bytes(#[trigger] rs[k]) by {
            if k < init.len() {
                assert(init[k] == rs[k]);
                assert(records_bytes(rs).subrange(STRIDE * k, STRIDE * k + STRIDE) =~= front.subrange(
                    STRIDE * k,
                    STRIDE * k + STRIDE,
                ));
            } else {
                assert(records_bytes(rs).subrange(STRIDE * k, STRIDE * k + STRIDE) =~= last);
            }
        }
    }
}

/// Reading the file that holds a text and its records gives back that text
/// and those records.
pub proof fn lemma_round_trip(text: Seq<u8>, records: Seq<(usize, usize, Seq<u8>)>)
    requires
        valid_utf8(text),
        spans_valid(text, records),
        forall|k: int| 0 <= k < records.len() ==> (#[trigger] records[k]).2.len() == PACKED_LEN,
        text.len() <= usize::MAX,
        records.len() <= usize::MAX,
    ensures
        parse(serialize(text, records)) == Some((text, records)),
{
    let b = serialize(text, records);
    let l = text.len() as int;
    let n = records.len() as int;
    let rb = records_bytes(records);
    lemma_records_bytes(records);
    lemma_le32(FORMAT_VERSION);
    lemma_le64(n as u64);
    lemma_le64(l as u64);
    assert(b.subrange(0, 4) =~= magic());
    assert(b.subrange(4, 8) =~= le32_bytes(FORMAT_VERSION));
    assert(b.subrange(8, 16) =~= le64_bytes(n as u64));
    assert(b.subrange(16, 24) =~= le64_bytes(l as u64));
    assert(declared_count(b) == n);
    assert(declared_text_len(b) == l);
    assert(b.len() == HEADER_LEN + l + STRIDE * n);
    assert(file_text(b) =~= text);
    assert forall|k: int| 0 <= k < n implies file_record(b, k) == records[k] && #[trigger] record_ok(
        b,
        k,
    ) by {
        let s = record_start(l, k);
        let r = records[k];
        assert(0 <= STRIDE * k && STRIDE * k + STRIDE <= STRIDE * n) by (nonlinear_arith)
            requires
                0 <= k < n,
        ;
        let chunk = rb.subrange(STRIDE * k, STRIDE * k + STRIDE);
        assert(chunk == record_bytes(r));
        assert(b.subrange(s, s + 8) =~= chunk.subrange(0, 8));
        assert(chunk.subrange(0, 8) =~= le64_bytes(r.0 as u64));
        assert(b.subrange(s + 8, s + 16) =~= chunk.subrange(8, 16));
        assert(chunk.subrange(8, 16) =~= le64_bytes(r.1 as u64));
        assert(b.subrange(s + 16, s + STRIDE) =~= chunk.subrange(16, 29));
        assert(chunk.subrange(16, 29) =~= r.2);
        lemma_le64(r.0 as u64);
        lemma_le64(r.1 as u64);
        assert(valid_span(text, r.0 as int, r.1 as int));
    }
    assert forall|k: int| 0 <= k < n implies #[trigger] file_record(b, k) == records[k] by {
        assert(record_ok(b, k));
    }
    assert(Seq::new(n as nat, |k: int| file_record(b, k)) =~= records);
}

/// Reading what `write_dict` writes of a dictionary gives back its text and
/// records.
pub proof fn lemma_dictionary_round_trip(d: Dictionary)
    requires
        d.wf(),
        d.text().len() <= usize::MAX,
        d.records().len() <= usize::MAX,
    ensures
        parse(serialize(d.text(), d.records())) == Some((d.text(), d.records())),
{
    d.lemma_text_utf8();
    d.lemma_packed_lens();
    lemma_round_trip(d.text(), d.records());
}

} // verus!
