//! The binary segment format: an immutable image of an inverted index.
//!
//! ```text
//! Header (40 bytes): magic "MNSE", version u32 (1), term count u32, doc count u32,
//!                    total doc length u64, postings section offset u64,
//!                    doc store section offset u64
//! Term dictionary:   per term: term_len u16, term, postings offset u64, postings_len u32
//! Postings section:  per term: count u32; per posting: id_len u16, id, tf u32,
//!                    position count u32, positions u32 each
//! Document store:    per doc: id_len u16, id, doc_len u32, title_len u16, title,
//!                    body_len u32, body
//! ```
//! All integers are little-endian; all strings are UTF-8.
use vstd::bytes::{
    lemma_auto_spec_u16_to_from_le_bytes, lemma_auto_spec_u32_to_from_le_bytes, lemma_auto_spec_u64_to_from_le_bytes,
    spec_u16_from_le_bytes, spec_u16_to_le_bytes, spec_u32_from_le_bytes, spec_u32_to_le_bytes,
    spec_u64_from_le_bytes, spec_u64_to_le_bytes, u16_from_le_bytes, u16_to_le_bytes,
    u32_from_le_bytes, u32_to_le_bytes, u64_from_le_bytes, u64_to_le_bytes,
};
use vstd::prelude::*;
use vstd::slice::slice_subrange;
use vstd::utf8::{decode_utf8, encode_utf8, valid_utf8};

use crate::index::{Document, DocumentView, IndexMetadata, InvertedIndex, Posting, PostingView};
use crate::lex::lex_lt;
use crate::strmap::{entries_map, key_index, keys_sorted, lemma_entries_map_at, lemma_entries_map_len, lemma_entries_map_push, StrMap};

verus! {

/// The magic bytes "MNSE" that open every segment.
pub const MAGIC_BYTES: &'static [u8; 4] = &[0x4d, 0x4e, 0x53, 0x45];

/// The segment format version this library writes and reads.
pub const FORMAT_VERSION: u32 = 1;

/// Why a byte string is not a readable segment.
#[derive(Debug, Clone, Copy, PartialEq, Eq, Structural)]
pub enum SegmentError {
    /// Fewer than 40 bytes.
    HeaderTooShort,
    /// The first four bytes are not "MNSE".
    BadMagic,
    /// The version field is not 1.
    UnsupportedVersion(u32),
    EofInTermDict,
    EofInTermEntry,
    EofInPostingsHeader,
    EofInPostingDocIdLen,
    EofInPostingHeader,
    EofInPostingPositions,
    EofInDocStoreIdLen,
    EofInDocStoreHeader,
    EofInDocTitle,
    EofInDocBody,
    /// A term, id, title or body is not valid UTF-8.
    InvalidUtf8,
}

impl SegmentError {
    /// Whether the segment ended early (as opposed to holding invalid data).
    pub fn is_unexpected_eof(&self) -> (r: bool)
        ensures
            r == !(self is BadMagic || self is UnsupportedVersion || self is InvalidUtf8),
    {
        match self {
            SegmentError::BadMagic | SegmentError::UnsupportedVersion(_) | SegmentError::InvalidUtf8 => false,
            _ => true,
        }
    }
}

/// The outcome of reading one part of a segment: a value, an error, or an offset
/// computation that does not fit in `usize`.
pub enum Step<T> {
    Done(T),
    Fail(SegmentError),
    Overflow,
}

/// A document of the document store: its id, contents and recorded length.
pub type DocEntry = (Seq<char>, DocumentView, u32);

/// What a segment holds, in file order.
pub struct ParsedSegment {
    pub terms: Seq<(Seq<char>, Seq<PostingView>)>,
    pub docs: Seq<DocEntry>,
    pub num_docs: u32,
    pub total_doc_length: u64,
}

pub open spec fn read_u16(d: Seq<u8>, o: int) -> u16 {
    spec_u16_from_le_bytes(d.subrange(o, o + 2))
}

pub open spec fn read_u32(d: Seq<u8>, o: int) -> u32 {
    spec_u32_from_le_bytes(d.subrange(o, o + 4))
}

pub open spec fn read_u64(d: Seq<u8>, o: int) -> u64 {
    spec_u64_from_le_bytes(d.subrange(o, o + 8))
}

/// The string held in the `len` bytes at `o`.
pub open spec fn parse_str(d: Seq<u8>, o: int, len: int) -> Step<Seq<char>> {
    let b = d.subrange(o, o + len);
    if valid_utf8(b) {
        Step::Done(decode_utf8(b))
    } else {
        Step::Fail(SegmentError::InvalidUtf8)
    }
}

pub open spec fn prepend_one<T>(x: T, r: Step<(Seq<T>, int)>) -> Step<(Seq<T>, int)> {
    match r {
        Step::Done((s, o)) => Step::Done((seq![x] + s, o)),
        Step::Fail(e) => Step::Fail(e),
        Step::Overflow => Step::Overflow,
    }
}

pub open spec fn prepend<T>(acc: Seq<T>, r: Step<(Seq<T>, int)>) -> Step<(Seq<T>, int)> {
    match r {
        Step::Done((s, o)) => Step::Done((acc + s, o)),
        Step::Fail(e) => Step::Fail(e),
        Step::Overflow => Step::Overflow,
    }
}

proof fn lemma_prepend_step<T>(acc: Seq<T>, x: T, r: Step<(Seq<T>, int)>)
    ensures
        prepend(acc, prepend_one(x, r)) == prepend(acc.push(x), r),
{
    match r {
        Step::Done((s, o)) => {
            assert(acc + (seq![x] + s) =~= acc.push(x) + s);
        },
        _ => {},
    }
}

proof fn lemma_prepend_empty<T>(r: Step<(Seq<T>, int)>)
    ensures
        prepend(Seq::<T>::empty(), r) == r,
{
    match r {
        Step::Done((s, o)) => {
            assert(Seq::<T>::empty() + s =~= s);
        },
        _ => {},
    }
}

// ---------------------------------------------------------------------------
// Term dictionary
// ---------------------------------------------------------------------------
/// One term dictionary entry at `o`: the term and the offset of its postings.
pub open spec fn parse_term_entry(d: Seq<u8>, o: int) -> Step<((Seq<char>, u64), int)> {
    if o + 2 > d.len() {
        Step::Fail(SegmentError::EofInTermDict)
    } else {
        let tl = read_u16(d, o) as int;
        let o2 = o + 2;
        if o2 + tl + 12 > d.len() {
            Step::Fail(SegmentError::EofInTermEntry)
        } else {
            match parse_str(d, o2, tl) {
                Step::Done(t) => Step::Done(((t, read_u64(d, o2 + tl)), o2 + tl + 12)),
                Step::Fail(e) => Step::Fail(e),
                Step::Overflow => Step::Overflow,
            }
        }
    }
}

/// `n` term dictionary entries from `o`.
pub open spec fn parse_term_entries(d: Seq<u8>, o: int, n: nat) -> Step<(Seq<(Seq<char>, u64)>, int)>
    decreases n,
{
    if n == 0 {
        Step::Done((seq![], o))
    } else {
        match parse_term_entry(d, o) {
            Step::Done((e, o2)) => prepend_one(e, parse_term_entries(d, o2, (n - 1) as nat)),
            Step::Fail(x) => Step::Fail(x),
            Step::Overflow => Step::Overflow,
        }
    }
}

// ---------------------------------------------------------------------------
// Postings
// ---------------------------------------------------------------------------
/// One posting at `c`.
pub open spec fn parse_posting(d: Seq<u8>, c: int) -> Step<(PostingView, int)> {
    if c + 2 > d.len() {
        Step::Fail(SegmentError::EofInPostingDocIdLen)
    } else {
        let il = read_u16(d, c) as int;
        let c1 = c + 2;
        if c1 + il + 8 > d.len() {
            Step::Fail(SegmentError::EofInPostingHeader)
        } else {
            match parse_str(d, c1, il) {
                Step::Done(id) => {
                    let c2 = c1 + il;
                    let tf = read_u32(d, c2);
                    let np = read_u32(d, c2 + 4) as int;
                    let c3 = c2 + 8;
                    if c3 + np * 4 > usize::MAX {
                        Step::Overflow
                    } else if c3 + np * 4 > d.len() {
                        Step::Fail(SegmentError::EofInPostingPositions)
                    } else {
                        Step::Done(
                            (
                                PostingView {
                                    doc_id: id,
                                    term_frequency: tf,
                                    positions: Seq::new(np as nat, |i: int| read_u32(d, c3 + 4 * i)),
                                },
                                c3 + np * 4,
                            ),
                        )
                    }
                },
                Step::Fail(e) => Step::Fail(e),
                Step::Overflow => Step::Overflow,
            }
        }
    }
}

/// `n` postings from `c`.
pub open spec fn parse_posting_list(d: Seq<u8>, c: int, n: nat) -> Step<(Seq<PostingView>, int)>
    decreases n,
{
    if n == 0 {
        Step::Done((seq![], c))
    } else {
        match parse_posting(d, c) {
            Step::Done((p, c2)) => prepend_one(p, parse_posting_list(d, c2, (n - 1) as nat)),
            Step::Fail(x) => Step::Fail(x),
            Step::Overflow => Step::Overflow,
        }
    }
}

/// The postings block at `off`: a count, then that many postings.
pub open spec fn parse_postings_block(d: Seq<u8>, off: u64) -> Step<Seq<PostingView>> {
    let c = (off as usize) as int;
    if c + 4 > usize::MAX {
        Step::Overflow
    } else if c + 4 > d.len() {
        Step::Fail(SegmentError::EofInPostingsHeader)
    } else {
        match parse_posting_list(d, c + 4, read_u32(d, c) as nat) {
            Step::Done((ps, _)) => Step::Done(ps),
            Step::Fail(e) => Step::Fail(e),
            Step::Overflow => Step::Overflow,
        }
    }
}

/// The postings of each dictionary entry, in dictionary order.
pub open spec fn parse_all_postings(d: Seq<u8>, es: Seq<(Seq<char>, u64)>) -> Step<
    Seq<(Seq<char>, Seq<PostingView>)>,
>
    decreases es.len(),
{
    if es.len() == 0 {
        Step::Done(seq![])
    } else {
        match parse_all_postings(d, es.drop_last()) {
            Step::Done(acc) => match parse_postings_block(d, es.last().1) {
                Step::Done(ps) => Step::Done(acc.push((es.last().0, ps))),
                Step::Fail(e) => Step::Fail(e),
                Step::Overflow => Step::Overflow,
            },
            Step::Fail(e) => Step::Fail(e),
            Step::Overflow => Step::Overflow,
        }
    }
}

// ---------------------------------------------------------------------------
// Document store
// ---------------------------------------------------------------------------
/// One stored document at `c`.
pub open spec fn parse_doc(d: Seq<u8>, c: int) -> Step<(DocEntry, int)> {
    if c + 2 > usize::MAX {
        Step::Overflow
    } else if c + 2 > d.len() {
        Step::Fail(SegmentError::EofInDocStoreIdLen)
    } else {
        let il = read_u16(d, c) as int;
        let c1 = c + 2;
        if c1 + il + 4 + 2 > d.len() {
            Step::Fail(SegmentError::EofInDocStoreHeader)
        } else {
            match parse_str(d, c1, il) {
                Step::Done(id) => {
                    let c2 = c1 + il;
                    let dl = read_u32(d, c2);
                    let tl = read_u16(d, c2 + 4) as int;
                    let c4 = c2 + 6;
                    if c4 + tl + 4 > d.len() {
                        Step::Fail(SegmentError::EofInDocTitle)
                    } else {
                        match parse_str(d, c4, tl) {
                            Step::Done(title) => {
                                let bl = read_u32(d, c4 + tl) as int;
                                let c6 = c4 + tl + 4;
                                if c6 + bl > usize::MAX {
                                    Step::Overflow
                                } else if c6 + bl > d.len() {
                                    Step::Fail(SegmentError::EofInDocBody)
                                } else {
                                    match parse_str(d, c6, bl) {
                                        Step::Done(body) => Step::Done(
                                            (
                                                (id, DocumentView { id, title, body }, dl),
                                                c6 + bl,
                                            ),
                                        ),
                                        Step::Fail(e) => Step::Fail(e),
                                        Step::Overflow => Step::Overflow,
                                    }
                                }
                            },
                            Step::Fail(e) => Step::Fail(e),
                            Step::Overflow => Step::Overflow,
                        }
                    }
                },
                Step::Fail(e) => Step::Fail(e),
                Step::Overflow => Step::Overflow,
            }
        }
    }
}

/// `n` stored documents from `c`.
pub open spec fn parse_docs(d: Seq<u8>, c: int, n: nat) -> Step<(Seq<DocEntry>, int)>
    decreases n,
{
    if n == 0 {
        Step::Done((seq![], c))
    } else {
        match parse_doc(d, c) {
            Step::Done((e, c2)) => prepend_one(e, parse_docs(d, c2, (n - 1) as nat)),
            Step::Fail(x) => Step::Fail(x),
            Step::Overflow => Step::Overflow,
        }
    }
}

pub open spec fn magic_seq() -> Seq<u8> {
    seq![0x4du8, 0x4eu8, 0x53u8, 0x45u8]
}

/// What the bytes `d` hold as a segment.
pub open spec fn parse_segment(d: Seq<u8>) -> Step<ParsedSegment> {
    if d.len() < 40 {
        Step::Fail(SegmentError::HeaderTooShort)
    } else if d.subrange(0, 4) != magic_seq() {
        Step::Fail(SegmentError::BadMagic)
    } else if read_u32(d, 4) != FORMAT_VERSION {
        Step::Fail(SegmentError::UnsupportedVersion(read_u32(d, 4)))
    } else {
        let nt = read_u32(d, 8);
        let nd = read_u32(d, 12);
        let tdl = read_u64(d, 16);
        let ds = read_u64(d, 32);
        match parse_term_entries(d, 40, nt as nat) {
            Step::Done((es, _)) => match parse_all_postings(d, es) {
                Step::Done(terms) => match parse_docs(d, (ds as usize) as int, nd as nat) {
                    Step::Done((docs, _)) => Step::Done(
                        ParsedSegment { terms, docs, num_docs: nd, total_doc_length: tdl },
                    ),
                    Step::Fail(e) => Step::Fail(e),
                    Step::Overflow => Step::Overflow,
                },
                Step::Fail(e) => Step::Fail(e),
                Step::Overflow => Step::Overflow,
            },
            Step::Fail(e) => Step::Fail(e),
            Step::Overflow => Step::Overflow,
        }
    }
}

/// The map that inserting the entries of `s` in order builds.
pub open spec fn fold_map<V>(s: Seq<(Seq<char>, V)>) -> Map<Seq<char>, V>
    decreases s.len(),
{
    if s.len() == 0 {
        Map::empty()
    } else {
        fold_map(s.drop_last()).insert(s.last().0, s.last().1)
    }
}

pub open spec fn doc_entry_docs(s: Seq<DocEntry>) -> Seq<(Seq<char>, DocumentView)> {
    s.map_values(|e: DocEntry| (e.0, e.1))
}

pub open spec fn doc_entry_lengths(s: Seq<DocEntry>) -> Seq<(Seq<char>, u32)> {
    s.map_values(|e: DocEntry| (e.0, e.2))
}


// ---------------------------------------------------------------------------
// Reading
// ---------------------------------------------------------------------------
#[verifier::external_type_specification]
#[verifier::external_body]
pub struct ExUtf8Error(core::str::Utf8Error);

/// `std::str::from_utf8` from std: succeeds exactly on valid UTF-8, with the
/// characters that the bytes encode.
pub assume_specification<'a>[ core::str::from_utf8 ](v: &'a [u8]) -> (r: Result<&'a str, core::str::Utf8Error>)
    ensures
        r is Ok <==> valid_utf8(v@),
        r matches Ok(s) ==> s@ == decode_utf8(v@),
;

fn read_u16_at(data: &[u8], o: usize) -> (x: u16)
    requires
        data@.len() <= isize::MAX,
        o + 2 <= data@.len(),
    ensures
        x == read_u16(data@, o as int),
{
    u16_from_le_bytes(slice_subrange(data, o, o + 2))
}

fn read_u32_at(data: &[u8], o: usize) -> (x: u32)
    requires
        data@.len() <= isize::MAX,
        o + 4 <= data@.len(),
    ensures
        x == read_u32(data@, o as int),
{
    u32_from_le_bytes(slice_subrange(data, o, o + 4))
}

fn read_u64_at(data: &[u8], o: usize) -> (x: u64)
    requires
        data@.len() <= isize::MAX,
        o + 8 <= data@.len(),
    ensures
        x == read_u64(data@, o as int),
{
    u64_from_le_bytes(slice_subrange(data, o, o + 8))
}

fn read_str_at(data: &[u8], o: usize, len: usize) -> (r: Result<String, SegmentError>)
    requires
        data@.len() <= isize::MAX,
        o + len <= data@.len(),
    ensures
        match parse_str(data@, o as int, len as int) {
            Step::Done(s) => r matches Ok(x) && x@ == s,
            Step::Fail(e) => r == Err::<String, SegmentError>(e),
            Step::Overflow => false,
        },
{
    match core::str::from_utf8(slice_subrange(data, o, o + len)) {
        Ok(s) => Ok(s.to_owned()),
        Err(_) => Err(SegmentError::InvalidUtf8),
    }
}

fn parse_term_entries_at(data: &[u8], start: usize, n: u32) -> (r: Result<(Vec<(String, u64)>, usize), SegmentError>)
    requires
        data@.len() <= isize::MAX,
        start <= data@.len(),
    ensures
        match parse_term_entries(data@, start as int, n as nat) {
            Step::Done((es, end)) => r matches Ok((v, e)) && v@.map_values(|x: (String, u64)| (x.0@, x.1))
                == es && e == end,
            Step::Fail(x) => r == Err::<(Vec<(String, u64)>, usize), SegmentError>(x),
            Step::Overflow => false,
        },
{
    let ghost d = data@;
    let mut acc: Vec<(String, u64)> = Vec::new();
    let mut cur = start;
    let mut i: u32 = 0;
    proof {
        lemma_prepend_empty(parse_term_entries(d, start as int, n as nat));
    }
    while i < n
        invariant
            d == data@,
            d.len() <= isize::MAX,
            0 <= i <= n,
            cur <= d.len(),
            parse_term_entries(d, start as int, n as nat) == prepend(
                acc@.map_values(|x: (String, u64)| (x.0@, x.1)),
                parse_term_entries(d, cur as int, (n - i) as nat),
            ),
        decreases n - i,
    {
        let ghost accv = acc@.map_values(|x: (String, u64)| (x.0@, x.1));
        if cur + 2 > data.len() {
            return Err(SegmentError::EofInTermDict);
        }
        let tl = read_u16_at(data, cur) as usize;
        let o2 = cur + 2;
        if o2 + tl + 12 > data.len() {
            return Err(SegmentError::EofInTermEntry);
        }
        let term = match read_str_at(data, o2, tl) {
            Ok(t) => t,
            Err(e) => {
                return Err(e);
            },
        };
        let off = read_u64_at(data, o2 + tl);
        let ghost e = (term@, off);
        let ghost next = o2 + tl + 12;
        proof {
            lemma_prepend_step(accv, e, parse_term_entries(d, next, (n - i - 1) as nat));
        }
        acc.push((term, off));
        assert(acc@.map_values(|x: (String, u64)| (x.0@, x.1)) =~= accv.push(e));
        cur = o2 + tl + 12;
        i = i + 1;
    }
    proof {
        let accv = acc@.map_values(|x: (String, u64)| (x.0@, x.1));
        assert(accv + Seq::<(Seq<char>, u64)>::empty() =~= accv);
    }
    Ok((acc, cur))
}

/// How reading part of a segment failed: the segment is malformed, or an offset
/// computation does not fit in `usize`.
enum Failure {
    Malformed(SegmentError),
    Overflow,
}

/// The failure that a failed or overflowing step reports.
spec fn failure_of<T>(s: Step<T>) -> Failure {
    match s {
        Step::Fail(e) => Failure::Malformed(e),
        _ => Failure::Overflow,
    }
}

fn parse_posting_at(data: &[u8], c: usize) -> (r: Result<(Posting, usize), Failure>)
    requires
        data@.len() <= isize::MAX,
        c <= data@.len(),
    ensures
        match parse_posting(data@, c as int) {
            Step::Done((p, end)) => r matches Ok((v, e)) && v.deep_view() == p && e == end && e <= data@.len(),
            _ => r matches Err(x) && x == failure_of(parse_posting(data@, c as int)),
        },
{
    let ghost d = data@;
    if c + 2 > data.len() {
        return Err(Failure::Malformed(SegmentError::EofInPostingDocIdLen));
    }
    let il = read_u16_at(data, c) as usize;
    let c1 = c + 2;
    if c1 + il + 8 > data.len() {
        return Err(Failure::Malformed(SegmentError::EofInPostingHeader));
    }
    let doc_id = match read_str_at(data, c1, il) {
        Ok(t) => t,
        Err(e) => {
            return Err(Failure::Malformed(e));
        },
    };
    let c2 = c1 + il;
    let term_frequency = read_u32_at(data, c2);
    let num_positions = read_u32_at(data, c2 + 4) as usize;
    let c3 = c2 + 8;
    if c3 as u128 + num_positions as u128 * 4 > usize::MAX as u128 {
        return Err(Failure::Overflow);
    }
    if c3 + num_positions * 4 > data.len() {
        return Err(Failure::Malformed(SegmentError::EofInPostingPositions));
    }
    let mut positions: Vec<u32> = Vec::new();
    let mut cur = c3;
    let mut k: usize = 0;
    while k < num_positions
        invariant
            d == data@,
            c3 + num_positions * 4 <= d.len(),
            d.len() <= isize::MAX,
            0 <= k <= num_positions,
            cur == c3 + 4 * k,
            positions@ == Seq::new(k as nat, |i: int| read_u32(d, c3 + 4 * i)),
        decreases num_positions - k,
    {
        let pos = read_u32_at(data, cur);
        positions.push(pos);
        assert(positions@ =~= Seq::new((k + 1) as nat, |i: int| read_u32(d, c3 + 4 * i)));
        cur = cur + 4;
        k = k + 1;
    }
    Ok((Posting { doc_id, term_frequency, positions }, cur))
}

fn parse_postings_block_at(data: &[u8], off: u64) -> (r: Result<Vec<Posting>, Failure>)
    requires
        data@.len() <= isize::MAX,
    ensures
        match parse_postings_block(data@, off) {
            Step::Done(ps) => r matches Ok(v) && v.deep_view() == ps,
            _ => r matches Err(x) && x == failure_of(parse_postings_block(data@, off)),
        },
{
    let ghost d = data@;
    let c = off as usize;
    if c > usize::MAX - 4 {
        return Err(Failure::Overflow);
    }
    if c + 4 > data.len() {
        return Err(Failure::Malformed(SegmentError::EofInPostingsHeader));
    }
    let n = read_u32_at(data, c);
    let start = c + 4;
    let mut acc: Vec<Posting> = Vec::new();
    let mut cur = start;
    let mut i: u32 = 0;
    proof {
        lemma_prepend_empty(parse_posting_list(d, start as int, n as nat));
    }
    while i < n
        invariant
            d == data@,
            d.len() <= isize::MAX,
            0 <= i <= n,
            cur <= d.len(),
            parse_posting_list(d, start as int, n as nat) == prepend(
                acc.deep_view(),
                parse_posting_list(d, cur as int, (n - i) as nat),
            ),
            start as int == (off as usize) as int + 4,
            start <= d.len(),
            (off as usize) as int + 4 <= usize::MAX,
            n == read_u32(d, (off as usize) as int),
        decreases n - i,
    {
        let ghost accv = acc.deep_view();
        let (p, next) = match parse_posting_at(data, cur) {
            Ok(x) => x,
            Err(e) => {
                proof {
                    let cc = (off as usize) as int;
                    assert(parse_posting_list(d, cur as int, (n - i) as nat) == match parse_posting(d, cur as int) {
                        Step::Fail(x) => Step::<(Seq<PostingView>, int)>::Fail(x),
                        _ => Step::<(Seq<PostingView>, int)>::Overflow,
                    });
                    assert(parse_postings_block(d, off) == match parse_posting_list(d, cc + 4, read_u32(d, cc) as nat) {
                        Step::Fail(x) => Step::<Seq<PostingView>>::Fail(x),
                        _ => Step::<Seq<PostingView>>::Overflow,
                    });
                }
                return Err(e);
            },
        };
        proof {
            lemma_prepend_step(accv, p.deep_view(), parse_posting_list(d, next as int, (n - i - 1) as nat));
        }
        acc.push(p);
        assert(acc.deep_view() =~= accv.push(p.deep_view()));
        cur = next;
        i = i + 1;
    }
    proof {
        assert(acc.deep_view() + Seq::<PostingView>::empty() =~= acc.deep_view());
    }
    Ok(acc)
}

fn parse_doc_at(data: &[u8], c: usize) -> (r: Result<(Document, u32, usize), Failure>)
    requires
        data@.len() <= isize::MAX,
    ensures
        match parse_doc(data@, c as int) {
            Step::Done((de, end)) => r matches Ok((doc, dl, e)) && doc.deep_view() == de.1 && doc.id@
                == de.0 && dl == de.2 && e == end && e <= data@.len(),
            _ => r matches Err(x) && x == failure_of(parse_doc(data@, c as int)),
        },
{
    if c > usize::MAX - 2 {
        return Err(Failure::Overflow);
    }
    if c + 2 > data.len() {
        return Err(Failure::Malformed(SegmentError::EofInDocStoreIdLen));
    }
    let il = read_u16_at(data, c) as usize;
    let c1 = c + 2;
    if c1 + il + 4 + 2 > data.len() {
        return Err(Failure::Malformed(SegmentError::EofInDocStoreHeader));
    }
    let doc_id = match read_str_at(data, c1, il) {
        Ok(t) => t,
        Err(e) => {
            return Err(Failure::Malformed(e));
        },
    };
    let c2 = c1 + il;
    let doc_length = read_u32_at(data, c2);
    let title_len = read_u16_at(data, c2 + 4) as usize;
    let c4 = c2 + 6;
    if c4 + title_len + 4 > data.len() {
        return Err(Failure::Malformed(SegmentError::EofInDocTitle));
    }
    let title = match read_str_at(data, c4, title_len) {
        Ok(t) => t,
        Err(e) => {
            return Err(Failure::Malformed(e));
        },
    };
    let body_len = read_u32_at(data, c4 + title_len) as usize;
    let c6 = c4 + title_len + 4;
    if c6 > usize::MAX - body_len {
        return Err(Failure::Overflow);
    }
    if c6 + body_len > data.len() {
        return Err(Failure::Malformed(SegmentError::EofInDocBody));
    }
    let body = match read_str_at(data, c6, body_len) {
        Ok(t) => t,
        Err(e) => {
            return Err(Failure::Malformed(e));
        },
    };
    Ok((Document { id: doc_id, title, body }, doc_length, c6 + body_len))
}

proof fn lemma_all_postings_prefix(d: Seq<u8>, es: Seq<(Seq<char>, u64)>, k: int)
    requires
        0 <= k <= es.len(),
        !(parse_all_postings(d, es.take(k)) is Done),
    ensures
        parse_all_postings(d, es) == parse_all_postings(d, es.take(k)),
    decreases es.len() - k,
{
    if k < es.len() {
        assert(es.take(k + 1).drop_last() =~= es.take(k));
        lemma_all_postings_prefix(d, es, k + 1);
    } else {
        assert(es.take(k) =~= es);
    }
}


// ---------------------------------------------------------------------------
// Writing
// ---------------------------------------------------------------------------
pub open spec fn le16(x: u16) -> Seq<u8> {
    spec_u16_to_le_bytes(x)
}

pub open spec fn le32(x: u32) -> Seq<u8> {
    spec_u32_to_le_bytes(x)
}

pub open spec fn le64(x: u64) -> Seq<u8> {
    spec_u64_to_le_bytes(x)
}

pub open spec fn utf8(s: Seq<char>) -> Seq<u8> {
    encode_utf8(s)
}

/// The concatenation of `g` over the items of `s`, in order.
pub open spec fn flat<A>(s: Seq<A>, g: spec_fn(A) -> Seq<u8>) -> Seq<u8>
    decreases s.len(),
{
    if s.len() == 0 {
        seq![]
    } else {
        flat(s.drop_last(), g) + g(s.last())
    }
}

/// The positions, four bytes each.
pub open spec fn encode_positions(ps: Seq<u32>) -> Seq<u8> {
    flat(ps, |x: u32| le32(x))
}

/// One posting: id length (16 bits), id, term frequency, position count, positions.
pub open spec fn encode_posting(p: PostingView) -> Seq<u8> {
    le16(utf8(p.doc_id).len() as u16) + utf8(p.doc_id) + le32(p.term_frequency) + le32(
        p.positions.len() as u32,
    ) + encode_positions(p.positions)
}

pub open spec fn encode_posting_list(ps: Seq<PostingView>) -> Seq<u8> {
    flat(ps, |p: PostingView| encode_posting(p))
}

/// A postings block: the posting count, then the postings.
pub open spec fn encode_block(ps: Seq<PostingView>) -> Seq<u8> {
    le32(ps.len() as u32) + encode_posting_list(ps)
}

/// The postings section: each term's block, in term order.
pub open spec fn encode_blocks(ts: Seq<(Seq<char>, Seq<PostingView>)>) -> Seq<u8> {
    flat(ts, |t: (Seq<char>, Seq<PostingView>)| encode_block(t.1))
}

/// One term dictionary entry: term length (16 bits), term, offset of its block, block length.
pub open spec fn encode_dict_entry(t: Seq<char>, off: int, len: int) -> Seq<u8> {
    le16(utf8(t).len() as u16) + utf8(t) + le64(off as u64) + le32(len as u32)
}

/// The term dictionary, for a postings section that starts at `base`.
pub open spec fn encode_dict(ts: Seq<(Seq<char>, Seq<PostingView>)>, base: int) -> Seq<u8>
    decreases ts.len(),
{
    if ts.len() == 0 {
        seq![]
    } else {
        encode_dict(ts.drop_last(), base) + encode_dict_entry(
            ts.last().0,
            base + encode_blocks(ts.drop_last()).len(),
            encode_block(ts.last().1).len() as int,
        )
    }
}

/// The size of the term dictionary.
pub open spec fn dict_size(ts: Seq<(Seq<char>, Seq<PostingView>)>) -> int
    decreases ts.len(),
{
    if ts.len() == 0 {
        0
    } else {
        dict_size(ts.drop_last()) + 2 + utf8(ts.last().0).len() + 12
    }
}

/// The length recorded for `id`, or 0 where none is.
pub open spec fn length_for(lens: Map<Seq<char>, u32>, id: Seq<char>) -> u32 {
    if lens.contains_key(id) {
        lens[id]
    } else {
        0
    }
}

/// One stored document: id, recorded length, title and body.
pub open spec fn encode_doc(d: DocumentView, dl: u32) -> Seq<u8> {
    le16(utf8(d.id).len() as u16) + utf8(d.id) + le32(dl) + le16(utf8(d.title).len() as u16) + utf8(
        d.title,
    ) + le32(utf8(d.body).len() as u32) + utf8(d.body)
}

/// The document store, in store order.
pub open spec fn encode_docs(ds: Seq<(Seq<char>, DocumentView)>, lens: Map<Seq<char>, u32>) -> Seq<u8> {
    flat(ds, |e: (Seq<char>, DocumentView)| encode_doc(e.1, length_for(lens, e.1.id)))
}

/// The segment image of an index with the terms `ts`, the documents `ds`, the recorded
/// lengths `lens` and the total length `tdl`.
pub open spec fn encode_segment(
    ts: Seq<(Seq<char>, Seq<PostingView>)>,
    ds: Seq<(Seq<char>, DocumentView)>,
    lens: Map<Seq<char>, u32>,
    tdl: u64,
) -> Seq<u8> {
    let p = 40 + dict_size(ts);
    let blocks = encode_blocks(ts);
    magic_seq() + le32(FORMAT_VERSION) + le32(ts.len() as u32) + le32(ds.len() as u32) + le64(tdl)
        + le64(p as u64) + le64((p + blocks.len()) as u64) + encode_dict(ts, p) + blocks
        + encode_docs(ds, lens)
}

/// The segment image of `index`.
pub open spec fn encode_index(index: InvertedIndex) -> Seq<u8> {
    encode_segment(
        index.term_entries(),
        index.doc_entries(),
        index.meta().doc_lengths@,
        index.meta().total_doc_length,
    )
}

proof fn lemma_encode_dict_len(ts: Seq<(Seq<char>, Seq<PostingView>)>, base: int)
    ensures
        encode_dict(ts, base).len() == dict_size(ts),
        dict_size(ts) >= 0,
    decreases ts.len(),
{
    lemma_auto_spec_u16_to_from_le_bytes();
    lemma_auto_spec_u32_to_from_le_bytes();
    lemma_auto_spec_u64_to_from_le_bytes();
    if ts.len() > 0 {
        lemma_encode_dict_len(ts.drop_last(), base);
    }
}

fn push_all(out: &mut Vec<u8>, b: &[u8])
    ensures
        final(out)@ == old(out)@ + b@,
{
    let mut i: usize = 0;
    while i < b.len()
        invariant
            0 <= i <= b@.len(),
            out@ == old(out)@ + b@.take(i as int),
        decreases b@.len() - i,
    {
        out.push(b[i]);
        assert(b@.take(i + 1) =~= b@.take(i as int).push(b@[i as int]));
        assert(out@ =~= old(out)@ + b@.take(i + 1));
        i = i + 1;
    }
    assert(b@.take(b@.len() as int) =~= b@);
}

fn push_u16(out: &mut Vec<u8>, x: u16)
    ensures
        final(out)@ == old(out)@ + le16(x),
{
    let v = u16_to_le_bytes(x);
    push_all(out, v.as_slice());
}

fn push_u32(out: &mut Vec<u8>, x: u32)
    ensures
        final(out)@ == old(out)@ + le32(x),
{
    let v = u32_to_le_bytes(x);
    push_all(out, v.as_slice());
}

fn push_u64(out: &mut Vec<u8>, x: u64)
    ensures
        final(out)@ == old(out)@ + le64(x),
{
    let v = u64_to_le_bytes(x);
    push_all(out, v.as_slice());
}

fn encode_posting_into(out: &mut Vec<u8>, p: &Posting)
    ensures
        final(out)@ == old(out)@ + encode_posting(p.deep_view()),
{
    let id_bytes = p.doc_id.as_str().as_bytes();
    push_u16(out, id_bytes.len() as u16);
    push_all(out, id_bytes);
    push_u32(out, p.term_frequency);
    push_u32(out, p.positions.len() as u32);
    let ghost mid = out@;
    let mut k: usize = 0;
    while k < p.positions.len()
        invariant
            0 <= k <= p.positions@.len(),
            out@ == mid + encode_positions(p.positions@.take(k as int)),
        decreases p.positions@.len() - k,
    {
        push_u32(out, p.positions[k]);
        proof {
            let t = p.positions@.take(k + 1);
            assert(t.drop_last() =~= p.positions@.take(k as int));
            assert(out@ =~= mid + encode_positions(t));
        }
        k = k + 1;
    }
    proof {
        assert(p.positions@.take(p.positions@.len() as int) =~= p.positions@);
        assert(out@ =~= old(out)@ + encode_posting(p.deep_view()));
    }
}

fn encode_block_into(out: &mut Vec<u8>, ps: &Vec<Posting>)
    ensures
        final(out)@ == old(out)@ + encode_block(ps.deep_view()),
{
    push_u32(out, ps.len() as u32);
    let ghost mid = out@;
    let mut k: usize = 0;
    while k < ps.len()
        invariant
            0 <= k <= ps@.len(),
            out@ == mid + encode_posting_list(ps.deep_view().take(k as int)),
        decreases ps@.len() - k,
    {
        encode_posting_into(out, &ps[k]);
        proof {
            let t = ps.deep_view().take(k + 1);
            assert(t.drop_last() =~= ps.deep_view().take(k as int));
            assert(t.last() == ps@[k as int].deep_view());
            assert(out@ =~= mid + encode_posting_list(t));
        }
        k = k + 1;
    }
    proof {
        assert(ps.deep_view().take(ps@.len() as int) =~= ps.deep_view());
        assert(out@ =~= old(out)@ + encode_block(ps.deep_view()));
    }
}

fn encode_doc_into(out: &mut Vec<u8>, doc: &Document, doc_length: u32)
    ensures
        final(out)@ == old(out)@ + encode_doc(doc.deep_view(), doc_length),
{
    let id_bytes = doc.id.as_str().as_bytes();
    let title_bytes = doc.title.as_str().as_bytes();
    let body_bytes = doc.body.as_str().as_bytes();
    push_u16(out, id_bytes.len() as u16);
    push_all(out, id_bytes);
    push_u32(out, doc_length);
    push_u16(out, title_bytes.len() as u16);
    push_all(out, title_bytes);
    push_u32(out, body_bytes.len() as u32);
    push_all(out, body_bytes);
    assert(out@ =~= old(out)@ + encode_doc(doc.deep_view(), doc_length));
}

proof fn lemma_blocks_prefix(ts: Seq<(Seq<char>, Seq<PostingView>)>, k: int)
    requires
        0 <= k <= ts.len(),
    ensures
        encode_blocks(ts.take(k)).len() <= encode_blocks(ts).len(),
        dict_size(ts.take(k)) <= dict_size(ts),
        k < ts.len() ==> encode_blocks(ts.take(k + 1)) == encode_blocks(ts.take(k)) + encode_block(
            ts[k].1,
        ),
        k < ts.len() ==> dict_size(ts.take(k + 1)) == dict_size(ts.take(k)) + 2 + utf8(ts[k].0).len()
            + 12,
    decreases ts.len() - k,
{
    if k < ts.len() {
        assert(ts.take(k + 1).drop_last() =~= ts.take(k));
        lemma_blocks_prefix(ts, k + 1);
    } else {
        assert(ts.take(k) =~= ts);
    }
}

proof fn lemma_docs_prefix(ds: Seq<(Seq<char>, DocumentView)>, lens: Map<Seq<char>, u32>, k: int)
    requires
        0 <= k <= ds.len(),
    ensures
        encode_docs(ds.take(k), lens).len() <= encode_docs(ds, lens).len(),
        k < ds.len() ==> encode_docs(ds.take(k + 1), lens) == encode_docs(ds.take(k), lens)
            + encode_doc(ds[k].1, length_for(lens, ds[k].1.id)),
    decreases ds.len() - k,
{
    if k < ds.len() {
        assert(ds.take(k + 1).drop_last() =~= ds.take(k));
        lemma_docs_prefix(ds, lens, k + 1);
    } else {
        assert(ds.take(k) =~= ds);
    }
}

proof fn lemma_segment_len(
    ts: Seq<(Seq<char>, Seq<PostingView>)>,
    ds: Seq<(Seq<char>, DocumentView)>,
    lens: Map<Seq<char>, u32>,
    tdl: u64,
)
    ensures
        encode_segment(ts, ds, lens, tdl).len() == 40 + dict_size(ts) + encode_blocks(ts).len()
            + encode_docs(ds, lens).len(),
{
    lemma_auto_spec_u32_to_from_le_bytes();
    lemma_auto_spec_u64_to_from_le_bytes();
    lemma_encode_dict_len(ts, 40 + dict_size(ts));
}

/// Where each term's postings block starts within the postings section, and how long it is.
pub open spec fn block_offsets_ok(ts: Seq<(Seq<char>, Seq<PostingView>)>, offs: Seq<(usize, u32)>) -> bool {
    &&& offs.len() == ts.len()
    &&& forall|j: int|
        0 <= j < ts.len() ==> (#[trigger] offs[j]).0 == encode_blocks(ts.take(j)).len() && offs[j].1
            == encode_block(ts[j].1).len() as u32
}

/// The postings section, with the offset and length of each block and the size of
/// the term dictionary that will point at them.
fn encode_postings_section(terms: &StrMap<Vec<Posting>>) -> (r: (Vec<u8>, Vec<(usize, u32)>, u64))
    requires
        40 + dict_size(terms.entries_view()) + encode_blocks(terms.entries_view()).len() <= usize::MAX,
    ensures
        r.0@ == encode_blocks(terms.entries_view()),
        block_offsets_ok(terms.entries_view(), r.1@),
        r.2 == dict_size(terms.entries_view()),
{
    let ghost ts = terms.entries_view();
    proof {
        lemma_blocks_prefix(ts, 0);
    }
    let mut postings_bytes: Vec<u8> = Vec::new();
    let mut term_offsets: Vec<(usize, u32)> = Vec::new();
    let nt = terms.len();
    let mut term_dict_size: u64 = 0;
    let mut i: usize = 0;
    while i < nt
        invariant
            nt == ts.len(),
            ts == terms.entries_view(),
            0 <= i <= nt,
            postings_bytes@ == encode_blocks(ts.take(i as int)),
            term_dict_size == dict_size(ts.take(i as int)),
            term_offsets@.len() == i,
            forall|j: int|
                0 <= j < i ==> (#[trigger] term_offsets@[j]).0 == encode_blocks(ts.take(j)).len()
                    && term_offsets@[j].1 == encode_block(ts[j].1).len() as u32,
            40 + dict_size(ts) + encode_blocks(ts).len() <= usize::MAX,
        decreases nt - i,
    {
        let offset_start = postings_bytes.len();
        encode_block_into(&mut postings_bytes, terms.value_at(i));
        let term_len = terms.key_at(i).as_str().as_bytes().len();
        proof {
            lemma_blocks_prefix(ts, i as int);
            lemma_blocks_prefix(ts, i + 1);
        }
        let len = postings_bytes.len() - offset_start;
        term_offsets.push((offset_start, len as u32));
        term_dict_size = term_dict_size + 2 + term_len as u64 + 8 + 4;
        i = i + 1;
    }
    proof {
        assert(ts.take(nt as int) =~= ts);
    }
    (postings_bytes, term_offsets, term_dict_size)
}

/// The document store: each document with the length recorded for it (0 where none is).
fn encode_doc_store(docs: &StrMap<Document>, doc_lengths: &StrMap<u32>) -> (r: Vec<u8>)
    requires
        doc_lengths.wf(),
    ensures
        r@ == encode_docs(docs.entries_view(), doc_lengths@),
{
    let ghost ds = docs.entries_view();
    let ghost lens = doc_lengths@;
    let mut doc_store_bytes: Vec<u8> = Vec::new();
    let ndocs = docs.len();
    let mut k: usize = 0;
    proof {
        lemma_docs_prefix(ds, lens, 0);
    }
    while k < ndocs
        invariant
            ndocs == ds.len(),
            ds == docs.entries_view(),
            lens == doc_lengths@,
            doc_lengths.wf(),
            0 <= k <= ndocs,
            doc_store_bytes@ == encode_docs(ds.take(k as int), lens),
        decreases ndocs - k,
    {
        let doc = docs.value_at(k);
        let doc_length: u32 = match doc_lengths.get(doc.id.as_str()) {
            Some(v) => *v,
            None => 0,
        };
        encode_doc_into(&mut doc_store_bytes, doc, doc_length);
        proof {
            lemma_docs_prefix(ds, lens, k as int);
        }
        k = k + 1;
    }
    proof {
        assert(ds.take(ndocs as int) =~= ds);
    }
    doc_store_bytes
}

/// Append the term dictionary for a postings section that starts at `base`.
fn encode_dict_into(out: &mut Vec<u8>, terms: &StrMap<Vec<Posting>>, term_offsets: &Vec<(usize, u32)>, base: u64)
    requires
        block_offsets_ok(terms.entries_view(), term_offsets@),
        base + encode_blocks(terms.entries_view()).len() <= usize::MAX,
    ensures
        final(out)@ == old(out)@ + encode_dict(terms.entries_view(), base as int),
{
    let ghost ts = terms.entries_view();
    let ghost start = out@;
    let nt = terms.len();
    let mut j: usize = 0;
    assert(start =~= start + encode_dict(ts.take(0), base as int));
    while j < nt
        invariant
            nt == ts.len(),
            ts == terms.entries_view(),
            0 <= j <= nt,
            out@ == start + encode_dict(ts.take(j as int), base as int),
            block_offsets_ok(ts, term_offsets@),
            base + encode_blocks(ts).len() <= usize::MAX,
        decreases nt - j,
    {
        let term_bytes = terms.key_at(j).as_str().as_bytes();
        let (rel_offset, len) = term_offsets[j];
        proof {
            lemma_blocks_prefix(ts, j as int);
        }
        let abs_offset = base + rel_offset as u64;
        push_u16(out, term_bytes.len() as u16);
        push_all(out, term_bytes);
        push_u64(out, abs_offset);
        push_u32(out, len);
        proof {
            assert(ts.take(j + 1).drop_last() =~= ts.take(j as int));
            assert(ts.take(j + 1).last() == ts[j as int]);
            assert(out@ =~= start + encode_dict(ts.take(j + 1), base as int));
        }
        j = j + 1;
    }
    proof {
        assert(ts.take(nt as int) =~= ts);
    }
}

proof fn lemma_flat_len_take<A>(s: Seq<A>, g: spec_fn(A) -> Seq<u8>, k: int)
    requires
        0 <= k <= s.len(),
    ensures
        flat(s.take(k), g).len() <= flat(s, g).len(),
        k < s.len() ==> flat(s.take(k + 1), g).len() == flat(s.take(k), g).len() + g(s[k]).len(),
    decreases s.len() - k,
{
    if k < s.len() {
        assert(s.take(k + 1).drop_last() =~= s.take(k));
        lemma_flat_len_take(s, g, k + 1);
    } else {
        assert(s.take(k) =~= s);
    }
}

proof fn lemma_posting_len(p: PostingView)
    ensures
        encode_posting(p).len() == 2 + utf8(p.doc_id).len() + 8 + 4 * p.positions.len(),
{
    lemma_auto_spec_u16_to_from_le_bytes();
    lemma_auto_spec_u32_to_from_le_bytes();
    lemma_positions_len(p.positions);
}

proof fn lemma_doc_len(d: DocumentView, dl: u32)
    ensures
        encode_doc(d, dl).len() == 2 + utf8(d.id).len() + 4 + 2 + utf8(d.title).len() + 4 + utf8(d.body).len(),
{
    lemma_auto_spec_u16_to_from_le_bytes();
    lemma_auto_spec_u32_to_from_le_bytes();
}

/// `a + b`, or `None` where the sum does not fit in `usize`.
fn add_len(a: Option<usize>, b: usize) -> (r: Option<usize>)
    ensures
        match a {
            Some(x) => match r {
                Some(y) => y == x + b,
                None => x + b > usize::MAX,
            },
            None => r is None,
        },
{
    match a {
        Some(x) => x.checked_add(b),
        None => None,
    }
}

/// The size of a posting's image, where it fits in `usize`.
fn posting_size(p: &Posting) -> (r: Option<usize>)
    ensures
        match r {
            Some(n) => n == encode_posting(p.deep_view()).len(),
            None => encode_posting(p.deep_view()).len() > usize::MAX,
        },
{
    proof {
        lemma_posting_len(p.deep_view());
    }
    let id_len = p.doc_id.as_str().as_bytes().len();
    let positions = match p.positions.len().checked_mul(4) {
        Some(x) => x,
        None => {
            return None;
        },
    };
    add_len(add_len(add_len(Some(2), id_len), 8), positions)
}

/// The size of a postings block's image, where it fits in `usize`.
fn block_size(ps: &Vec<Posting>) -> (r: Option<usize>)
    ensures
        match r {
            Some(n) => n == encode_block(ps.deep_view()).len(),
            None => encode_block(ps.deep_view()).len() > usize::MAX,
        },
{
    proof {
        lemma_auto_spec_u32_to_from_le_bytes();
    }
    let ghost l = ps.deep_view();
    let ghost g = |p: PostingView| encode_posting(p);
    let mut total: Option<usize> = Some(4);
    let mut i: usize = 0;
    while i < ps.len()
        invariant
            l == ps.deep_view(),
            g == (|p: PostingView| encode_posting(p)),
            0 <= i <= ps@.len(),
            match total {
                Some(n) => n == 4 + flat(l.take(i as int), g).len(),
                None => 4 + flat(l, g).len() > usize::MAX,
            },
        decreases ps@.len() - i,
    {
        proof {
            lemma_flat_len_take(l, g, i as int);
            lemma_flat_len_take(l, g, i + 1);
        }
        match posting_size(&ps[i]) {
            Some(n) => {
                total = add_len(total, n);
            },
            None => {
                total = None;
            },
        }
        i = i + 1;
    }
    proof {
        assert(l.take(ps@.len() as int) =~= l);
    }
    total
}

/// The size of a stored document's image, where it fits in `usize`.
fn doc_size(d: &Document) -> (r: Option<usize>)
    ensures
        match r {
            Some(n) => n == 12 + utf8(d.id@).len() + utf8(d.title@).len() + utf8(d.body@).len(),
            None => 12 + utf8(d.id@).len() + utf8(d.title@).len() + utf8(d.body@).len() > usize::MAX,
        },
{
    let a = d.id.as_str().as_bytes().len();
    let b = d.title.as_str().as_bytes().len();
    let c = d.body.as_str().as_bytes().len();
    add_len(add_len(add_len(Some(12), a), b), c)
}

/// Serializes an in-memory `InvertedIndex` into the bytes of an immutable segment.
pub struct SegmentWriter;

impl SegmentWriter {
    /// The size of the segment image of `index`, where it fits in `usize`.
    pub fn encoded_len(index: &InvertedIndex) -> (r: Option<usize>)
        requires
            index.wf(),
        ensures
            match r {
                Some(n) => n == encode_index(*index).len(),
                None => encode_index(*index).len() > usize::MAX,
            },
    {
        let terms = index.index();
        let docs = index.documents();
        let ghost ts = index.term_entries();
        let ghost ds = index.doc_entries();
        let ghost lens = index.meta().doc_lengths@;
        let ghost gb = |t: (Seq<char>, Seq<PostingView>)| encode_block(t.1);
        let ghost gd = |e: (Seq<char>, DocumentView)| encode_doc(e.1, length_for(lens, e.1.id));
        proof {
            lemma_segment_len(ts, ds, lens, index.meta().total_doc_length);
        }
        // header, term dictionary and postings
        let mut total: Option<usize> = Some(40);
        let mut i: usize = 0;
        while i < terms.len()
            invariant
                ts == terms.entries_view(),
                gb == (|t: (Seq<char>, Seq<PostingView>)| encode_block(t.1)),
                0 <= i <= ts.len(),
                match total {
                    Some(n) => n == 40 + dict_size(ts.take(i as int)) + flat(ts.take(i as int), gb).len(),
                    None => 40 + dict_size(ts) + flat(ts, gb).len() > usize::MAX,
                },
            decreases ts.len() - i,
        {
            proof {
                lemma_blocks_prefix(ts, i as int);
                lemma_blocks_prefix(ts, i + 1);
                lemma_flat_len_take(ts, gb, i as int);
            }
            let term_len = terms.key_at(i).as_str().as_bytes().len();
            total = add_len(add_len(total, 2), term_len);
            total = add_len(total, 12);
            match block_size(terms.value_at(i)) {
                Some(n) => {
                    total = add_len(total, n);
                },
                None => {
                    total = None;
                },
            }
            i = i + 1;
        }
        proof {
            assert(ts.take(ts.len() as int) =~= ts);
        }
        // document store
        let mut k: usize = 0;
        while k < docs.len()
            invariant
                ts == terms.entries_view(),
                ds == docs.entries_view(),
                gb == (|t: (Seq<char>, Seq<PostingView>)| encode_block(t.1)),
                gd == (|e: (Seq<char>, DocumentView)| encode_doc(e.1, length_for(lens, e.1.id))),
                0 <= k <= ds.len(),
                match total {
                    Some(n) => n == 40 + dict_size(ts) + flat(ts, gb).len() + flat(ds.take(k as int), gd).len(),
                    None => 40 + dict_size(ts) + flat(ts, gb).len() + flat(ds, gd).len() > usize::MAX,
                },
            decreases ds.len() - k,
        {
            proof {
                lemma_flat_len_take(ds, gd, k as int);
                lemma_flat_len_take(ds, gd, k + 1);
            }
            let d = docs.value_at(k);
            let ghost dl = length_for(lens, ds[k as int].1.id);
            assert(gd(ds[k as int]) == encode_doc(d.deep_view(), dl));
            proof {
                lemma_doc_len(d.deep_view(), dl);
            }
            match doc_size(d) {
                Some(n) => {
                    total = add_len(total, n);
                },
                None => {
                    total = None;
                },
            }
            k = k + 1;
        }
        proof {
            assert(ds.take(ds.len() as int) =~= ds);
        }
        total
    }

    /// The segment image of `index`: header, term dictionary, postings, document store.
    pub fn encode(index: &InvertedIndex) -> (bytes: Vec<u8>)
        requires
            index.wf(),
            encode_index(*index).len() <= usize::MAX,
        ensures
            bytes@ == encode_index(*index),
    {
        let terms = index.index();
        let docs = index.documents();
        let metadata = index.get_metadata();
        let ghost ts = index.term_entries();
        let ghost ds = index.doc_entries();
        proof {
            lemma_segment_len(ts, ds, metadata.doc_lengths@, metadata.total_doc_length);
        }

        // 1. Pre-encode postings data to compute exact offsets
        let (postings_bytes, term_offsets, term_dict_size) = encode_postings_section(terms);
        // 2. Pre-encode document store
        let doc_store_bytes = encode_doc_store(docs, &metadata.doc_lengths);

        // 3. Compute section offsets
        let header_size: u64 = 40;
        let postings_section_offset = header_size + term_dict_size;
        let doc_store_section_offset = postings_section_offset + postings_bytes.len() as u64;

        // 4. Header
        let mut out: Vec<u8> = Vec::new();
        push_all(&mut out, MAGIC_BYTES.as_slice());
        assert((*MAGIC_BYTES)@ =~= magic_seq());
        push_u32(&mut out, FORMAT_VERSION);
        push_u32(&mut out, terms.len() as u32);
        push_u32(&mut out, docs.len() as u32);
        push_u64(&mut out, metadata.total_doc_length);
        push_u64(&mut out, postings_section_offset);
        push_u64(&mut out, doc_store_section_offset);

        // 5. Term dictionary, 6. postings section, 7. document store
        encode_dict_into(&mut out, terms, &term_offsets, postings_section_offset);
        push_all(&mut out, postings_bytes.as_slice());
        push_all(&mut out, doc_store_bytes.as_slice());
        assert(out@ =~= encode_index(*index));
        out
    }
}

/// Reads the bytes of a segment back into an inverted index.
pub struct SegmentReader;

/// What reading the bytes `d` gives: `None` where an offset computation does not fit
/// in `usize`; otherwise the index or the error.
pub open spec fn parsed_index_matches(d: Seq<u8>, r: Option<Result<InvertedIndex, SegmentError>>) -> bool {
    match parse_segment(d) {
        Step::Done(p) => r matches Some(Ok(idx)) && {
            &&& idx.wf()
            &&& idx.postings() == fold_map(p.terms)
            &&& idx.docs() == fold_map(doc_entry_docs(p.docs))
            &&& idx.meta().total_docs == p.num_docs
            &&& idx.meta().total_doc_length == p.total_doc_length
            &&& idx.meta().doc_lengths@ == fold_map(doc_entry_lengths(p.docs))
        },
        Step::Fail(e) => r == Some(Err::<InvertedIndex, SegmentError>(e)),
        Step::Overflow => r is None,
    }
}

impl SegmentReader {
    /// Parse raw segment bytes into an `InvertedIndex`; `None` where an offset
    /// computation does not fit in `usize`.
    pub fn parse_checked(data: &[u8]) -> (r: Option<Result<InvertedIndex, SegmentError>>)
        requires
            data@.len() <= isize::MAX,
        ensures
            parsed_index_matches(data@, r),
    {
        let ghost d = data@;
        if data.len() < 40 {
            return Some(Err(SegmentError::HeaderTooShort));
        }
        if !(data[0] == 0x4d && data[1] == 0x4e && data[2] == 0x53 && data[3] == 0x45) {
            proof {
                if d.subrange(0, 4) == magic_seq() {
                    assert(d.subrange(0, 4)[0] == d[0]);
                    assert(d.subrange(0, 4)[1] == d[1]);
                    assert(d.subrange(0, 4)[2] == d[2]);
                    assert(d.subrange(0, 4)[3] == d[3]);
                }
            }
            return Some(Err(SegmentError::BadMagic));
        }
        assert(d.subrange(0, 4) =~= magic_seq());
        let version = read_u32_at(data, 4);
        if version != FORMAT_VERSION {
            return Some(Err(SegmentError::UnsupportedVersion(version)));
        }
        let num_terms = read_u32_at(data, 8);
        let num_docs = read_u32_at(data, 12);
        let total_doc_length = read_u64_at(data, 16);
        let doc_store_section_offset = read_u64_at(data, 32);

        // Parse Term Dictionary: entries with (term, postings_offset)
        let (term_entries, _) = match parse_term_entries_at(data, 40, num_terms) {
            Ok(x) => x,
            Err(e) => {
                return Some(Err(e));
            },
        };
        let ghost es = term_entries@.map_values(|x: (String, u64)| (x.0@, x.1));

        // Parse Postings for each term
        let mut index: StrMap<Vec<Posting>> = StrMap::new();
        let nt = term_entries.len();
        let mut term_entries = crate::strmap::into_reversed(term_entries);
        let ghost acc: Seq<(Seq<char>, Seq<PostingView>)> = seq![];
        let mut i: usize = 0;
        proof {
            assert(es.take(0) =~= Seq::<(Seq<char>, u64)>::empty());
            assert(fold_map(acc) =~= Map::<Seq<char>, Seq<PostingView>>::empty());
        }
        while i < nt
            invariant
                d == data@,
                d.len() <= isize::MAX,
                nt == es.len(),
                0 <= i <= nt,
                term_entries@.len() == nt - i,
                forall|j: int| 0 <= j < nt - i ==> {
                    let x = #[trigger] term_entries@[j];
                    (x.0@, x.1) == es[nt - 1 - j]
                },
                parse_all_postings(d, es.take(i as int)) == Step::Done(acc),
                acc.len() == i,
                index.wf(),
                index@ == fold_map(acc),
                d.len() >= 40,
                d.subrange(0, 4) == magic_seq(),
                read_u32(d, 4) == FORMAT_VERSION,
                num_terms == read_u32(d, 8),
                num_docs == read_u32(d, 12),
                total_doc_length == read_u64(d, 16),
                doc_store_section_offset == read_u64(d, 32),
                parse_term_entries(d, 40, num_terms as nat) matches Step::Done((x, _)) && x == es,
            decreases nt - i,
        {
            let (term, off) = term_entries.pop().unwrap();
            proof {
                assert(es.take(i + 1).drop_last() =~= es.take(i as int));
                assert(es.take(i + 1).last() == (term@, off));
            }
            let postings = match parse_postings_block_at(data, off) {
                Ok(ps) => ps,
                Err(e) => {
                    proof {
                        lemma_all_postings_prefix(d, es, i + 1);
                    }
                    return match e {
                        Failure::Malformed(x) => Some(Err(x)),
                        Failure::Overflow => None,
                    };
                },
            };
            proof {
                let old_acc = acc;
                acc = acc.push((term@, postings.deep_view()));
                assert(acc.drop_last() =~= old_acc);
            }
            index.insert(term, postings);
            i = i + 1;
        }
        proof {
            assert(es.take(nt as int) =~= es);
        }

        // Parse Document Store
        let mut documents: StrMap<Document> = StrMap::new();
        let mut doc_lengths: StrMap<u32> = StrMap::new();
        let start = doc_store_section_offset as usize;
        let mut cur = start;
        let ghost dacc: Seq<DocEntry> = seq![];
        let mut k: u32 = 0;
        proof {
            lemma_prepend_empty(parse_docs(d, start as int, num_docs as nat));
            assert(doc_entry_docs(dacc) =~= Seq::<(Seq<char>, DocumentView)>::empty());
            assert(doc_entry_lengths(dacc) =~= Seq::<(Seq<char>, u32)>::empty());
            assert(fold_map(doc_entry_docs(dacc)) =~= Map::<Seq<char>, DocumentView>::empty());
            assert(fold_map(doc_entry_lengths(dacc)) =~= Map::<Seq<char>, u32>::empty());
        }
        while k < num_docs
            invariant
                d == data@,
                d.len() <= isize::MAX,
                0 <= k <= num_docs,
                k > 0 ==> cur <= d.len(),
                parse_docs(d, start as int, num_docs as nat) == prepend(
                    dacc,
                    parse_docs(d, cur as int, (num_docs - k) as nat),
                ),
                documents.wf(),
                documents@ == fold_map(doc_entry_docs(dacc)),
                doc_lengths@ == fold_map(doc_entry_lengths(dacc)),
                doc_lengths.wf(),
                start as int == (doc_store_section_offset as usize) as int,
                parse_all_postings(d, es) == Step::Done(acc),
                index.wf(),
                index@ == fold_map(acc),
                d.len() >= 40,
                d.subrange(0, 4) == magic_seq(),
                read_u32(d, 4) == FORMAT_VERSION,
                num_terms == read_u32(d, 8),
                num_docs == read_u32(d, 12),
                total_doc_length == read_u64(d, 16),
                doc_store_section_offset == read_u64(d, 32),
                parse_term_entries(d, 40, num_terms as nat) matches Step::Done((x, _)) && x == es,
            decreases num_docs - k,
        {
            let (doc, doc_length, next) = match parse_doc_at(data, cur) {
                Ok(x) => x,
                Err(e) => {
                    return match e {
                        Failure::Malformed(x) => Some(Err(x)),
                        Failure::Overflow => None,
                    };
                },
            };
            let ghost de: DocEntry = (doc.id@, doc.deep_view(), doc_length);
            proof {
                lemma_prepend_step(dacc, de, parse_docs(d, next as int, (num_docs - k - 1) as nat));
                let nd = dacc.push(de);
                assert(doc_entry_docs(nd).drop_last() =~= doc_entry_docs(dacc));
                assert(doc_entry_lengths(nd).drop_last() =~= doc_entry_lengths(dacc));
                dacc = nd;
            }
            doc_lengths.insert(doc.id.clone(), doc_length);
            documents.insert(doc.id.clone(), doc);
            cur = next;
            k = k + 1;
        }
        proof {
            assert(dacc + Seq::<DocEntry>::empty() =~= dacc);
        }
        let metadata = IndexMetadata { total_docs: num_docs as u64, total_doc_length, doc_lengths };
        Some(Ok(InvertedIndex::from_parts(index, documents, metadata)))
    }

    /// Parse raw segment bytes into an `InvertedIndex`.
    pub fn parse_from_bytes(data: &[u8]) -> (r: Result<InvertedIndex, SegmentError>)
        requires
            data@.len() <= isize::MAX,
            !(parse_segment(data@) is Overflow),
        ensures
            parsed_index_matches(data@, Some(r)),
    {
        match Self::parse_checked(data) {
            Some(r) => r,
            None => {
                proof {
                    assert(false);
                }
                Err(SegmentError::HeaderTooShort)
            },
        }
    }
}

// ---------------------------------------------------------------------------
// Round trip
// ---------------------------------------------------------------------------
/// The bytes `x` lie in `d` at offset `o`.
pub open spec fn at(d: Seq<u8>, o: int, x: Seq<u8>) -> bool {
    0 <= o && o + x.len() <= d.len() && d.subrange(o, o + x.len()) == x
}

/// A posting whose id and position count fit their length fields.
pub open spec fn posting_fits(p: PostingView) -> bool {
    utf8(p.doc_id).len() < 0x1_0000 && p.positions.len() < 0x1_0000_0000
}

/// A term whose text, posting count and postings fit their length fields.
pub open spec fn term_fits(t: (Seq<char>, Seq<PostingView>)) -> bool {
    &&& utf8(t.0).len() < 0x1_0000
    &&& t.1.len() < 0x1_0000_0000
    &&& forall|i: int| 0 <= i < t.1.len() ==> posting_fits(#[trigger] t.1[i])
}

/// A document whose id, title and body fit their length fields.
pub open spec fn doc_fits(d: DocumentView) -> bool {
    &&& utf8(d.id).len() < 0x1_0000
    &&& utf8(d.title).len() < 0x1_0000
    &&& utf8(d.body).len() < 0x1_0000_0000
}

/// Every count, length and offset of the segment image fits its field.
pub open spec fn segment_fits(
    ts: Seq<(Seq<char>, Seq<PostingView>)>,
    ds: Seq<(Seq<char>, DocumentView)>,
    lens: Map<Seq<char>, u32>,
    tdl: u64,
) -> bool {
    &&& ts.len() < 0x1_0000_0000
    &&& ds.len() < 0x1_0000_0000
    &&& forall|j: int| 0 <= j < ts.len() ==> term_fits(#[trigger] ts[j])
    &&& forall|k: int| 0 <= k < ds.len() ==> doc_fits(#[trigger] ds[k].1)
    &&& encode_segment(ts, ds, lens, tdl).len() <= usize::MAX
}

/// The term dictionary that a segment holds: each term with the offset of its block.
pub open spec fn dict_view(ts: Seq<(Seq<char>, Seq<PostingView>)>, base: int) -> Seq<(Seq<char>, u64)> {
    Seq::new(ts.len(), |j: int| (ts[j].0, (base + encode_blocks(ts.take(j)).len()) as u64))
}

/// The document store that a segment holds: each document with the length recorded for it.
pub open spec fn doc_store_view(ds: Seq<(Seq<char>, DocumentView)>, lens: Map<Seq<char>, u32>) -> Seq<DocEntry> {
    Seq::new(ds.len(), |k: int| (ds[k].1.id, ds[k].1, length_for(lens, ds[k].1.id)))
}

proof fn lemma_at_concat(d: Seq<u8>, o: int, x: Seq<u8>, y: Seq<u8>)
    requires
        at(d, o, x + y),
    ensures
        at(d, o, x),
        at(d, o + x.len(), y),
{
    let xy = x + y;
    assert forall|i: int| 0 <= i < x.len() implies d.subrange(o, o + x.len())[i] == x[i] by {
        assert(d.subrange(o, o + xy.len())[i] == xy[i]);
    }
    assert(d.subrange(o, o + x.len()) =~= x);
    assert forall|i: int| 0 <= i < y.len() implies d.subrange(o + x.len(), o + x.len() + y.len())[i]
        == y[i] by {
        assert(d.subrange(o, o + xy.len())[x.len() + i] == xy[x.len() + i]);
    }
    assert(d.subrange(o + x.len(), o + x.len() + y.len()) =~= y);
}

proof fn lemma_at_le16(d: Seq<u8>, o: int, v: u16)
    requires
        at(d, o, le16(v)),
    ensures
        read_u16(d, o) == v,
        o + 2 <= d.len(),
{
    lemma_auto_spec_u16_to_from_le_bytes();
}

proof fn lemma_at_le32(d: Seq<u8>, o: int, v: u32)
    requires
        at(d, o, le32(v)),
    ensures
        read_u32(d, o) == v,
        o + 4 <= d.len(),
{
    lemma_auto_spec_u32_to_from_le_bytes();
}

proof fn lemma_at_le64(d: Seq<u8>, o: int, v: u64)
    requires
        at(d, o, le64(v)),
    ensures
        read_u64(d, o) == v,
        o + 8 <= d.len(),
{
    lemma_auto_spec_u64_to_from_le_bytes();
}

proof fn lemma_at_str(d: Seq<u8>, o: int, s: Seq<char>)
    requires
        at(d, o, utf8(s)),
    ensures
        parse_str(d, o, utf8(s).len() as int) == Step::Done(s),
{
    vstd::utf8::encode_utf8_valid_utf8(s);
    vstd::utf8::encode_utf8_decode_utf8(s);
}

proof fn lemma_flat_at_take<A>(d: Seq<u8>, o: int, s: Seq<A>, g: spec_fn(A) -> Seq<u8>, k: int)
    requires
        at(d, o, flat(s, g)),
        0 <= k <= s.len(),
    ensures
        at(d, o, flat(s.take(k), g)),
        k < s.len() ==> flat(s.take(k + 1), g) == flat(s.take(k), g) + g(s[k]),
        k < s.len() ==> at(d, o + flat(s.take(k), g).len(), g(s[k])),
    decreases s.len() - k,
{
    if k < s.len() {
        assert(s.take(k + 1).drop_last() =~= s.take(k));
        lemma_flat_at_take(d, o, s, g, k + 1);
        lemma_at_concat(d, o, flat(s.take(k), g), g(s[k]));
    } else {
        assert(s.take(k) =~= s);
    }
}

proof fn lemma_positions_len(ps: Seq<u32>)
    ensures
        encode_positions(ps).len() == 4 * ps.len(),
    decreases ps.len(),
{
    lemma_auto_spec_u32_to_from_le_bytes();
    if ps.len() > 0 {
        lemma_positions_len(ps.drop_last());
    }
}

proof fn lemma_positions_at(d: Seq<u8>, c: int, ps: Seq<u32>)
    requires
        at(d, c, encode_positions(ps)),
    ensures
        encode_positions(ps).len() == 4 * ps.len(),
        forall|i: int| 0 <= i < ps.len() ==> read_u32(d, c + 4 * i) == ps[i],
{
    lemma_positions_len(ps);
    assert forall|i: int| 0 <= i < ps.len() implies read_u32(d, c + 4 * i) == ps[i] by {
        lemma_flat_at_take(d, c, ps, |x: u32| le32(x), i);
        lemma_positions_len(ps.take(i));
        lemma_at_le32(d, c + 4 * i, ps[i]);
    }
}

proof fn lemma_posting_round_trip(d: Seq<u8>, c: int, p: PostingView)
    requires
        at(d, c, encode_posting(p)),
        posting_fits(p),
        d.len() <= usize::MAX,
    ensures
        parse_posting(d, c) == Step::Done((p, c + encode_posting(p).len())),
{
    lemma_auto_spec_u16_to_from_le_bytes();
    lemma_auto_spec_u32_to_from_le_bytes();
    let il = utf8(p.doc_id).len();
    let np = p.positions.len();
    let a = le16(il as u16);
    let b = utf8(p.doc_id);
    let e1 = le32(p.term_frequency);
    let e2 = le32(np as u32);
    let e3 = encode_positions(p.positions);
    assert(encode_posting(p) == a + b + e1 + e2 + e3);
    lemma_at_concat(d, c, a + b + e1 + e2, e3);
    lemma_at_concat(d, c, a + b + e1, e2);
    lemma_at_concat(d, c, a + b, e1);
    lemma_at_concat(d, c, a, b);
    lemma_at_le16(d, c, il as u16);
    lemma_at_str(d, c + 2, p.doc_id);
    lemma_at_le32(d, c + 2 + il, p.term_frequency);
    lemma_at_le32(d, c + 6 + il, np as u32);
    lemma_positions_at(d, c + 10 + il, p.positions);
    let c3 = c + 2 + il + 8;
    assert(Seq::new(np as nat, |i: int| read_u32(d, c3 + 4 * i)) =~= p.positions);
}

proof fn lemma_posting_list_round_trip(d: Seq<u8>, c: int, ps: Seq<PostingView>, k: int)
    requires
        at(d, c, encode_posting_list(ps)),
        0 <= k <= ps.len(),
        forall|i: int| 0 <= i < ps.len() ==> posting_fits(#[trigger] ps[i]),
        d.len() <= usize::MAX,
    ensures
        parse_posting_list(d, c + encode_posting_list(ps.take(k)).len(), (ps.len() - k) as nat)
            == Step::Done((ps.skip(k), c + encode_posting_list(ps).len())),
    decreases ps.len() - k,
{
    lemma_flat_at_take(d, c, ps, |p: PostingView| encode_posting(p), k);
    if k < ps.len() {
        lemma_posting_round_trip(d, c + encode_posting_list(ps.take(k)).len(), ps[k]);
        lemma_posting_list_round_trip(d, c, ps, k + 1);
        assert(seq![ps[k]] + ps.skip(k + 1) =~= ps.skip(k));
    } else {
        assert(ps.take(k) =~= ps);
        assert(ps.skip(k) =~= Seq::<PostingView>::empty());
    }
}

proof fn lemma_block_round_trip(d: Seq<u8>, off: int, ps: Seq<PostingView>)
    requires
        at(d, off, encode_block(ps)),
        ps.len() < 0x1_0000_0000,
        forall|i: int| 0 <= i < ps.len() ==> posting_fits(#[trigger] ps[i]),
        d.len() <= usize::MAX,
    ensures
        parse_postings_block(d, off as u64) == Step::Done(ps),
{
    lemma_auto_spec_u32_to_from_le_bytes();
    lemma_at_concat(d, off, le32(ps.len() as u32), encode_posting_list(ps));
    lemma_at_le32(d, off, ps.len() as u32);
    lemma_posting_list_round_trip(d, off + 4, ps, 0);
    assert(ps.take(0) =~= Seq::<PostingView>::empty());
    assert(ps.skip(0) =~= ps);
}

proof fn lemma_all_postings_round_trip(d: Seq<u8>, base: int, ts: Seq<(Seq<char>, Seq<PostingView>)>, k: int)
    requires
        at(d, base, encode_blocks(ts)),
        0 <= k <= ts.len(),
        forall|j: int| 0 <= j < ts.len() ==> term_fits(#[trigger] ts[j]),
        d.len() <= usize::MAX,
    ensures
        parse_all_postings(d, dict_view(ts, base).take(k)) == Step::Done(ts.take(k)),
    decreases k,
{
    let es = dict_view(ts, base);
    if k == 0 {
        assert(es.take(0) =~= Seq::<(Seq<char>, u64)>::empty());
        assert(ts.take(0) =~= Seq::<(Seq<char>, Seq<PostingView>)>::empty());
    } else {
        lemma_all_postings_round_trip(d, base, ts, k - 1);
        assert(es.take(k).drop_last() =~= es.take(k - 1));
        let g = |t: (Seq<char>, Seq<PostingView>)| encode_block(t.1);
        lemma_flat_at_take(d, base, ts, g, k - 1);
        let off = base + encode_blocks(ts.take(k - 1)).len();
        assert(term_fits(ts[k - 1]));
        lemma_block_round_trip(d, off, ts[k - 1].1);
        assert(ts.take(k - 1).push((ts[k - 1].0, ts[k - 1].1)) =~= ts.take(k));
    }
}

proof fn lemma_dict_take(ts: Seq<(Seq<char>, Seq<PostingView>)>, base: int, k: int)
    requires
        0 <= k < ts.len(),
    ensures
        encode_dict(ts.take(k + 1), base) == encode_dict(ts.take(k), base) + encode_dict_entry(
            ts[k].0,
            base + encode_blocks(ts.take(k)).len(),
            encode_block(ts[k].1).len() as int,
        ),
{
    assert(ts.take(k + 1).drop_last() =~= ts.take(k));
}

proof fn lemma_dict_at_take(d: Seq<u8>, o: int, ts: Seq<(Seq<char>, Seq<PostingView>)>, base: int, k: int)
    requires
        at(d, o, encode_dict(ts, base)),
        0 <= k <= ts.len(),
    ensures
        at(d, o, encode_dict(ts.take(k), base)),
    decreases ts.len() - k,
{
    if k < ts.len() {
        lemma_dict_at_take(d, o, ts, base, k + 1);
        lemma_dict_take(ts, base, k);
        lemma_at_concat(
            d,
            o,
            encode_dict(ts.take(k), base),
            encode_dict_entry(ts[k].0, base + encode_blocks(ts.take(k)).len(), encode_block(ts[k].1).len() as int),
        );
    } else {
        assert(ts.take(k) =~= ts);
    }
}

proof fn lemma_term_entries_round_trip(
    d: Seq<u8>,
    o: int,
    ts: Seq<(Seq<char>, Seq<PostingView>)>,
    base: int,
    k: int,
)
    requires
        at(d, o, encode_dict(ts, base)),
        0 <= k <= ts.len(),
        forall|j: int| 0 <= j < ts.len() ==> term_fits(#[trigger] ts[j]),
        d.len() <= usize::MAX,
    ensures
        parse_term_entries(d, o + encode_dict(ts.take(k), base).len(), (ts.len() - k) as nat)
            == Step::Done((dict_view(ts, base).skip(k), o + encode_dict(ts, base).len())),
    decreases ts.len() - k,
{
    lemma_auto_spec_u16_to_from_le_bytes();
    lemma_auto_spec_u32_to_from_le_bytes();
    lemma_auto_spec_u64_to_from_le_bytes();
    let es = dict_view(ts, base);
    if k < ts.len() {
        lemma_dict_at_take(d, o, ts, base, k + 1);
        lemma_dict_take(ts, base, k);
        let t = ts[k].0;
        let off = base + encode_blocks(ts.take(k)).len();
        let len = encode_block(ts[k].1).len() as int;
        let o1 = o + encode_dict(ts.take(k), base).len();
        lemma_at_concat(d, o, encode_dict(ts.take(k), base), encode_dict_entry(t, off, len));
        let tl = utf8(t).len();
        assert(term_fits(ts[k]));
        let a = le16(tl as u16);
        let b = utf8(t);
        let e1 = le64(off as u64);
        let e2 = le32(len as u32);
        lemma_at_concat(d, o1, a + b + e1, e2);
        lemma_at_concat(d, o1, a + b, e1);
        lemma_at_concat(d, o1, a, b);
        lemma_at_le16(d, o1, tl as u16);
        lemma_at_str(d, o1 + 2, t);
        lemma_at_le64(d, o1 + 2 + tl, off as u64);
        assert(parse_term_entry(d, o1) == Step::Done(((t, off as u64), o1 + 2 + tl + 12)));
        lemma_term_entries_round_trip(d, o, ts, base, k + 1);
        assert(seq![es[k]] + es.skip(k + 1) =~= es.skip(k));
    } else {
        assert(ts.take(k) =~= ts);
        assert(es.skip(k) =~= Seq::<(Seq<char>, u64)>::empty());
    }
}

proof fn lemma_doc_round_trip(d: Seq<u8>, c: int, doc: DocumentView, dl: u32)
    requires
        at(d, c, encode_doc(doc, dl)),
        doc_fits(doc),
        d.len() <= usize::MAX,
    ensures
        parse_doc(d, c) == Step::Done(((doc.id, doc, dl), c + encode_doc(doc, dl).len())),
{
    lemma_auto_spec_u16_to_from_le_bytes();
    lemma_auto_spec_u32_to_from_le_bytes();
    let il = utf8(doc.id).len();
    let tl = utf8(doc.title).len();
    let bl = utf8(doc.body).len();
    let a = le16(il as u16);
    let b = utf8(doc.id);
    let e1 = le32(dl);
    let e2 = le16(tl as u16);
    let e3 = utf8(doc.title);
    let e4 = le32(bl as u32);
    let e5 = utf8(doc.body);
    assert(encode_doc(doc, dl) == a + b + e1 + e2 + e3 + e4 + e5);
    lemma_at_concat(d, c, a + b + e1 + e2 + e3 + e4, e5);
    lemma_at_concat(d, c, a + b + e1 + e2 + e3, e4);
    lemma_at_concat(d, c, a + b + e1 + e2, e3);
    lemma_at_concat(d, c, a + b + e1, e2);
    lemma_at_concat(d, c, a + b, e1);
    lemma_at_concat(d, c, a, b);
    lemma_at_le16(d, c, il as u16);
    lemma_at_str(d, c + 2, doc.id);
    lemma_at_le32(d, c + 2 + il, dl);
    lemma_at_le16(d, c + 6 + il, tl as u16);
    lemma_at_str(d, c + 8 + il, doc.title);
    lemma_at_le32(d, c + 8 + il + tl, bl as u32);
    lemma_at_str(d, c + 12 + il + tl, doc.body);
}

proof fn lemma_docs_round_trip(
    d: Seq<u8>,
    c: int,
    ds: Seq<(Seq<char>, DocumentView)>,
    lens: Map<Seq<char>, u32>,
    k: int,
)
    requires
        at(d, c, encode_docs(ds, lens)),
        0 <= k <= ds.len(),
        forall|i: int| 0 <= i < ds.len() ==> doc_fits(#[trigger] ds[i].1),
        d.len() <= usize::MAX,
    ensures
        parse_docs(d, c + encode_docs(ds.take(k), lens).len(), (ds.len() - k) as nat) == Step::Done(
            (doc_store_view(ds, lens).skip(k), c + encode_docs(ds, lens).len()),
        ),
    decreases ds.len() - k,
{
    let g = |e: (Seq<char>, DocumentView)| encode_doc(e.1, length_for(lens, e.1.id));
    lemma_flat_at_take(d, c, ds, g, k);
    let v = doc_store_view(ds, lens);
    if k < ds.len() {
        assert(doc_fits(ds[k].1));
        lemma_doc_round_trip(
            d,
            c + encode_docs(ds.take(k), lens).len(),
            ds[k].1,
            length_for(lens, ds[k].1.id),
        );
        lemma_docs_round_trip(d, c, ds, lens, k + 1);
        assert(seq![v[k]] + v.skip(k + 1) =~= v.skip(k));
    } else {
        assert(ds.take(k) =~= ds);
        assert(v.skip(k) =~= Seq::<DocEntry>::empty());
    }
}

/// Reading back a segment image gives the terms with their postings, the documents
/// with their recorded lengths, the document count and the total length that were
/// written, whenever every count, length and offset fits its field.
#[verifier::spinoff_prover]
#[verifier::rlimit(50)]
pub proof fn lemma_segment_round_trip(
    ts: Seq<(Seq<char>, Seq<PostingView>)>,
    ds: Seq<(Seq<char>, DocumentView)>,
    lens: Map<Seq<char>, u32>,
    tdl: u64,
)
    requires
        segment_fits(ts, ds, lens, tdl),
    ensures
        parse_segment(encode_segment(ts, ds, lens, tdl)) == Step::Done(
            ParsedSegment {
                terms: ts,
                docs: doc_store_view(ds, lens),
                num_docs: ds.len() as u32,
                total_doc_length: tdl,
            },
        ),
{
    lemma_auto_spec_u32_to_from_le_bytes();
    lemma_auto_spec_u64_to_from_le_bytes();
    let d = encode_segment(ts, ds, lens, tdl);
    let p = 40 + dict_size(ts);
    let blocks = encode_blocks(ts);
    let dict = encode_dict(ts, p);
    let docs = encode_docs(ds, lens);
    lemma_encode_dict_len(ts, p);
    let h1 = magic_seq();
    let h2 = h1 + le32(FORMAT_VERSION);
    let h3 = h2 + le32(ts.len() as u32);
    let h4 = h3 + le32(ds.len() as u32);
    let h5 = h4 + le64(tdl);
    let h6 = h5 + le64(p as u64);
    let h7 = h6 + le64((p + blocks.len()) as u64);
    assert(d == h7 + dict + blocks + docs);
    assert(d.subrange(0, d.len() as int) =~= d);
    lemma_at_concat(d, 0, h7 + dict + blocks, docs);
    lemma_at_concat(d, 0, h7 + dict, blocks);
    lemma_at_concat(d, 0, h7, dict);
    lemma_at_concat(d, 0, h6, le64((p + blocks.len()) as u64));
    lemma_at_concat(d, 0, h5, le64(p as u64));
    lemma_at_concat(d, 0, h4, le64(tdl));
    lemma_at_concat(d, 0, h3, le32(ds.len() as u32));
    lemma_at_concat(d, 0, h2, le32(ts.len() as u32));
    lemma_at_concat(d, 0, h1, le32(FORMAT_VERSION));
    lemma_at_le32(d, 4, FORMAT_VERSION);
    lemma_at_le32(d, 8, ts.len() as u32);
    lemma_at_le32(d, 12, ds.len() as u32);
    lemma_at_le64(d, 16, tdl);
    lemma_at_le64(d, 32, (p + blocks.len()) as u64);
    // term dictionary
    lemma_term_entries_round_trip(d, 40, ts, p, 0);
    assert(ts.take(0) =~= Seq::<(Seq<char>, Seq<PostingView>)>::empty());
    let es = dict_view(ts, p);
    assert(es.skip(0) =~= es);
    // postings
    lemma_all_postings_round_trip(d, p, ts, ts.len() as int);
    assert(es.take(ts.len() as int) =~= es);
    assert(ts.take(ts.len() as int) =~= ts);
    // document store
    lemma_docs_round_trip(d, p + blocks.len(), ds, lens, 0);
    assert(ds.take(0) =~= Seq::<(Seq<char>, DocumentView)>::empty());
    assert(doc_store_view(ds, lens).skip(0) =~= doc_store_view(ds, lens));

}


/// Inserting sorted entries one by one builds the map that they describe.
pub proof fn lemma_fold_map_sorted<V>(s: Seq<(Seq<char>, V)>)
    requires
        keys_sorted(s),
    ensures
        fold_map(s) == entries_map(s),
    decreases s.len(),
{
    if s.len() == 0 {
        assert(entries_map(s) =~= Map::<Seq<char>, V>::empty());
    } else {
        let t = s.drop_last();
        assert(s =~= t.push((s.last().0, s.last().1)));
        lemma_entries_map_push(t, s.last().0, s.last().1);
        lemma_fold_map_sorted(t);
    }
}

/// The lengths that reading back a segment records: for each stored document, the
/// length recorded for it, or 0 where none was.
pub open spec fn recorded_lengths(docs: Map<Seq<char>, DocumentView>, lens: Map<Seq<char>, u32>) -> Map<
    Seq<char>,
    u32,
> {
    Map::new(|id: Seq<char>| docs.contains_key(id), |id: Seq<char>| length_for(lens, id))
}

/// Every count, length and offset of the segment image of `index` fits its field.
pub open spec fn index_fits(index: InvertedIndex) -> bool {
    segment_fits(
        index.term_entries(),
        index.doc_entries(),
        index.meta().doc_lengths@,
        index.meta().total_doc_length,
    )
}

/// Writing an index as a segment and reading the segment back gives the same postings
/// and documents, the same total length, one document per stored document, and each
/// stored document's recorded length (all of them, where every stored document has one).
pub proof fn lemma_index_round_trip(index: InvertedIndex)
    requires
        index.wf(),
        index.ids_match(),
        index_fits(index),
    ensures
        parse_segment(encode_index(index)) matches Step::Done(p) && {
            &&& fold_map(p.terms) == index.postings()
            &&& fold_map(doc_entry_docs(p.docs)) == index.docs()
            &&& p.num_docs == index.docs().len()
            &&& p.total_doc_length == index.meta().total_doc_length
            &&& fold_map(doc_entry_lengths(p.docs)) == recorded_lengths(
                index.docs(),
                index.meta().doc_lengths@,
            )
        },
        index.meta().doc_lengths@.dom() == index.docs().dom() ==> recorded_lengths(
            index.docs(),
            index.meta().doc_lengths@,
        ) == index.meta().doc_lengths@,
{
    let ts = index.term_entries();
    let ds = index.doc_entries();
    let lens = index.meta().doc_lengths@;
    let docs = index.docs();
    index.lemma_terms();
    index.lemma_doc_entries();
    lemma_segment_round_trip(ts, ds, lens, index.meta().total_doc_length);
    lemma_fold_map_sorted(ts);
    let v = doc_store_view(ds, lens);
    assert forall|k: int| 0 <= k < ds.len() implies #[trigger] ds[k].1.id == ds[k].0 by {
        lemma_entries_map_at(ds, k);
    }
    assert(doc_entry_docs(v) =~= ds);
    lemma_fold_map_sorted(ds);
    lemma_entries_map_len(ds);
    let l = doc_entry_lengths(v);
    assert(keys_sorted(l)) by {
        assert forall|i: int, j: int| 0 <= i < j < l.len() implies lex_lt(#[trigger] l[i].0, #[trigger] l[j].0) by {
            assert(l[i].0 == ds[i].0 && l[j].0 == ds[j].0);
        }
    }
    lemma_fold_map_sorted(l);
    assert(entries_map(l) =~= recorded_lengths(docs, lens)) by {
        assert forall|id: Seq<char>| #[trigger] entries_map(l).contains_key(id) <==> docs.contains_key(id) by {
            if entries_map(l).contains_key(id) {
                let i = key_index(l, id);
                assert(ds[i].0 == id);
            }
            if docs.contains_key(id) {
                let i = key_index(ds, id);
                assert(l[i].0 == id);
            }
        }
        assert forall|id: Seq<char>| #[trigger] entries_map(l).contains_key(id) implies entries_map(l)[id]
            == length_for(lens, id) by {
            let i = key_index(l, id);
            assert(l[i].0 == id);
        }
    }
    if lens.dom() == docs.dom() {
        assert(recorded_lengths(docs, lens) =~= lens);
    }
}

} // verus!
