//! The search engine: query parsing, candidate selection over an inverted index, and
//! the bookkeeping of a persistent engine (write-ahead log replay, segment flushes).
//!
//! Ranking by BM25 works on floating point numbers and is done by the caller, on the
//! candidates and terms that this module hands out.
use vstd::prelude::*;

use crate::analyzer::{strings_view, tokens, Analyzer};
use crate::fuzzy::{edit_distance, find_fuzzy_matches, DEFAULT_MAX_DISTANCE};
use crate::index::{
    Document, DocumentView, docs_of, document_view, first_doc_index, lemma_first_doc_index, compact_segments, merge_all, merged_docs, merges_fit, postings_or_empty,
    terms_with_prefix, InvertedIndex, Posting, PostingView,
};
use crate::storage::wal::WalRecord;
use crate::text::{chars_of, is_white_space, spec_is_whitespace, spec_to_lowercase, string_from};

verus! {

// ---------------------------------------------------------------------------
// Query syntax
// ---------------------------------------------------------------------------
/// `s` without its leading whitespace.
pub open spec fn trim_start(s: Seq<char>) -> Seq<char>
    decreases s.len(),
{
    if s.len() > 0 && spec_is_whitespace(s[0]) {
        trim_start(s.drop_first())
    } else {
        s
    }
}

/// `s` without its trailing whitespace.
pub open spec fn trim_end(s: Seq<char>) -> Seq<char>
    decreases s.len(),
{
    if s.len() > 0 && spec_is_whitespace(s.last()) {
        trim_end(s.drop_last())
    } else {
        s
    }
}

/// `s` without leading and trailing whitespace, as `str::trim` gives it.
pub open spec fn trim(s: Seq<char>) -> Seq<char> {
    trim_end(trim_start(s))
}

/// `s` holds a whitespace character.
pub open spec fn has_whitespace(s: Seq<char>) -> bool {
    exists|i: int| 0 <= i < s.len() && spec_is_whitespace(#[trigger] s[i])
}

/// A whitespace-separated word `OR` starts at index `i` of `s`.
pub open spec fn or_word_at(s: Seq<char>, i: int) -> bool {
    &&& 0 <= i
    &&& i + 2 <= s.len()
    &&& s[i] == 'O'
    &&& s[i + 1] == 'R'
    &&& i == 0 || spec_is_whitespace(s[i - 1])
    &&& i + 2 == s.len() || spec_is_whitespace(s[i + 2])
}

/// One of the whitespace-separated words of `s` is `OR`.
pub open spec fn has_or_word(s: Seq<char>) -> bool {
    exists|i: int| #[trigger] or_word_at(s, i)
}

/// The pieces of `s` between its `OR` words, looking for them from index `i` on, with
/// the current piece starting at `start`.
pub open spec fn split_or_from(s: Seq<char>, start: int, i: int) -> Seq<Seq<char>>
    decreases s.len() - i,
{
    if i >= s.len() {
        seq![s.subrange(start, s.len() as int)]
    } else if or_word_at(s, i) {
        seq![s.subrange(start, i)] + split_or_from(s, i + 2, i + 2)
    } else {
        split_or_from(s, start, i + 1)
    }
}

/// The pieces of `s` between its whitespace-separated `OR` words.
pub open spec fn split_or(s: Seq<char>) -> Seq<Seq<char>> {
    split_or_from(s, 0, 0)
}

/// The sequences of `ss`, one after the other.
pub open spec fn concat_all(ss: Seq<Seq<Seq<char>>>) -> Seq<Seq<char>>
    decreases ss.len(),
{
    if ss.len() == 0 {
        seq![]
    } else {
        concat_all(ss.drop_last()) + ss.last()
    }
}

/// The index of the last `c` in `s`, or -1.
pub open spec fn last_index_of(s: Seq<char>, c: char) -> int
    decreases s.len(),
{
    if s.len() == 0 {
        -1
    } else if s.last() == c {
        s.len() - 1
    } else {
        last_index_of(s.drop_last(), c)
    }
}

/// Every character of `s` is a decimal digit.
pub open spec fn all_digits(s: Seq<char>) -> bool {
    forall|i: int| 0 <= i < s.len() ==> '0' <= #[trigger] s[i] <= '9'
}

/// The number that the decimal digits `s` write.
pub open spec fn digits_value(s: Seq<char>) -> nat
    decreases s.len(),
{
    if s.len() == 0 {
        0
    } else {
        digits_value(s.drop_last()) * 10 + ((s.last() as u32) - ('0' as u32)) as nat
    }
}

/// What `str::parse::<usize>` gives for `s`: an optional `+`, then at least one decimal
/// digit, with a value that fits in `usize`.
pub open spec fn parse_usize(s: Seq<char>) -> Option<usize> {
    let d = if s.len() > 0 && s[0] == '+' {
        s.drop_first()
    } else {
        s
    };
    if d.len() > 0 && all_digits(d) && digits_value(d) <= usize::MAX {
        Some(digits_value(d) as usize)
    } else {
        None
    }
}

/// The kind of query that a query string asks for.
#[derive(Debug, PartialEq, Eq)]
pub enum QueryMode {
    /// `"ogre bride"`: documents where the terms appear adjacent and in order.
    Phrase(Vec<String>),
    /// `ogr*`: all terms with the prefix, any of them.
    Prefix(String),
    /// `ogr~1`: all terms within the edit distance, any of them.
    Fuzzy(String, usize),
    /// Plain terms: all of them, or any of them (`OR`).
    Standard(Vec<String>, bool),
}

/// The contents of a `QueryMode`.
pub enum QueryModeView {
    Phrase(Seq<Seq<char>>),
    Prefix(Seq<char>),
    Fuzzy(Seq<char>, usize),
    Standard(Seq<Seq<char>>, bool),
}

impl View for QueryMode {
    type V = QueryModeView;

    open spec fn view(&self) -> QueryModeView {
        match self {
            QueryMode::Phrase(ts) => QueryModeView::Phrase(strings_view(ts@)),
            QueryMode::Prefix(p) => QueryModeView::Prefix(p@),
            QueryMode::Fuzzy(t, d) => QueryModeView::Fuzzy(t@, *d),
            QueryMode::Standard(ts, or) => QueryModeView::Standard(strings_view(ts@), *or),
        }
    }
}

/// A plain query: if one of its words is `OR`, the tokens of each piece between the
/// `OR`s, any of which may match; otherwise its tokens, all of which must match.
pub open spec fn standard_mode(t: Seq<char>) -> QueryModeView {
    if has_or_word(t) {
        QueryModeView::Standard(
            concat_all(split_or(t).map_values(|seg: Seq<char>| tokens(trim(seg)))),
            true,
        )
    } else {
        QueryModeView::Standard(tokens(t), false)
    }
}

/// A query that ends in `~`, possibly followed by a distance, split at the last `~`.
pub open spec fn fuzzy_or_standard(t: Seq<char>) -> QueryModeView {
    let p = last_index_of(t, '~');
    let before = t.take(p);
    let after = t.skip(p + 1);
    if p >= 0 && before.len() > 0 && !has_whitespace(before) && !has_whitespace(after) {
        if after.len() == 0 {
            QueryModeView::Fuzzy(spec_to_lowercase(before), DEFAULT_MAX_DISTANCE)
        } else {
            match parse_usize(after) {
                Some(d) => QueryModeView::Fuzzy(spec_to_lowercase(before), d),
                None => standard_mode(t),
            }
        }
    } else {
        standard_mode(t)
    }
}

/// What a query string asks for, read from its trimmed text:
/// - nothing: a plain query with no terms;
/// - `"..."` (two quotes at least): a phrase of the tokens between the quotes;
/// - one word ending in `*`, with something before it: the lowercased prefix;
/// - one word with a `~`, followed by nothing or by a distance: a fuzzy term
///   (the default distance where none is given);
/// - anything else: a plain query.
pub open spec fn query_mode(q: Seq<char>) -> QueryModeView {
    let t = trim(q);
    if t.len() == 0 {
        QueryModeView::Standard(seq![], false)
    } else if t.len() >= 2 && t[0] == '"' && t.last() == '"' {
        QueryModeView::Phrase(tokens(t.subrange(1, t.len() - 1)))
    } else if t.last() == '*' && !has_whitespace(t) && spec_to_lowercase(t.drop_last()).len() > 0 {
        QueryModeView::Prefix(spec_to_lowercase(t.drop_last()))
    } else {
        fuzzy_or_standard(t)
    }
}

/// The bounds of `chars` without leading and trailing whitespace.
fn trim_bounds(chars: &Vec<char>) -> (r: (usize, usize))
    ensures
        r.0 <= r.1 <= chars@.len(),
        chars@.subrange(r.0 as int, r.1 as int) == trim(chars@),
{
    let ghost s = chars@;
    let n = chars.len();
    let mut lo: usize = 0;
    assert(s.skip(0) =~= s);
    while lo < n && is_white_space(chars[lo])
        invariant
            n == s.len(),
            s == chars@,
            0 <= lo <= n,
            trim_start(s) == trim_start(s.skip(lo as int)),
        decreases n - lo,
    {
        assert(s.skip(lo as int).drop_first() =~= s.skip(lo + 1));
        lo = lo + 1;
    }
    let ghost ts = s.skip(lo as int);
    assert(trim_start(ts) == ts);
    let mut hi: usize = n;
    assert(ts.take(ts.len() as int) =~= ts);
    while hi > lo && is_white_space(chars[hi - 1])
        invariant
            n == s.len(),
            s == chars@,
            0 <= lo <= hi <= n,
            ts == s.skip(lo as int),
            trim_end(ts) == trim_end(ts.take(hi - lo)),
        decreases hi - lo,
    {
        assert(ts.take(hi - lo).drop_last() =~= ts.take(hi - lo - 1));
        hi = hi - 1;
    }
    assert(s.subrange(lo as int, hi as int) =~= ts.take(hi - lo));
    (lo, hi)
}

/// Whether `chars[lo..hi]` holds a whitespace character.
fn any_whitespace(chars: &Vec<char>, lo: usize, hi: usize) -> (r: bool)
    requires
        lo <= hi <= chars@.len(),
    ensures
        r == has_whitespace(chars@.subrange(lo as int, hi as int)),
{
    let ghost s = chars@.subrange(lo as int, hi as int);
    let mut i = lo;
    while i < hi
        invariant
            lo <= i <= hi <= chars@.len(),
            s == chars@.subrange(lo as int, hi as int),
            forall|j: int| 0 <= j < i - lo ==> !spec_is_whitespace(#[trigger] s[j]),
        decreases hi - i,
    {
        if is_white_space(chars[i]) {
            assert(s[i - lo] == chars@[i as int]);
            return true;
        }
        i = i + 1;
    }
    false
}

/// The index of the last `c` in `chars`, if any.
fn last_index(chars: &Vec<char>, c: char) -> (r: Option<usize>)
    ensures
        match r {
            Some(p) => p < chars@.len() && p == last_index_of(chars@, c),
            None => last_index_of(chars@, c) == -1,
        },
{
    let ghost s = chars@;
    let mut i = chars.len();
    assert(s.take(s.len() as int) =~= s);
    while i > 0
        invariant
            s == chars@,
            0 <= i <= s.len(),
            last_index_of(s, c) == last_index_of(s.take(i as int), c),
        decreases i,
    {
        if chars[i - 1] == c {
            return Some(i - 1);
        }
        assert(s.take(i as int).drop_last() =~= s.take(i - 1));
        i = i - 1;
    }
    None
}

proof fn lemma_digits_value_prefix(s: Seq<char>, k: int)
    requires
        0 <= k <= s.len(),
        all_digits(s),
    ensures
        digits_value(s.take(k)) <= digits_value(s),
    decreases s.len() - k,
{
    if k < s.len() {
        lemma_digits_value_prefix(s, k + 1);
        assert(s.take(k + 1).drop_last() =~= s.take(k));
        assert('0' <= s[k] <= '9');
    } else {
        assert(s.take(k) =~= s);
    }
}

/// The number that `chars[lo..hi]` writes, as `str::parse::<usize>` reads it.
fn parse_usize_at(chars: &Vec<char>, lo: usize, hi: usize) -> (r: Option<usize>)
    requires
        lo <= hi <= chars@.len(),
    ensures
        r == parse_usize(chars@.subrange(lo as int, hi as int)),
{
    let ghost s = chars@.subrange(lo as int, hi as int);
    let mut start = lo;
    if lo < hi && chars[lo] == '+' {
        start = lo + 1;
    }
    let ghost d = chars@.subrange(start as int, hi as int);
    assert(d =~= (if s.len() > 0 && s[0] == '+' {
        s.drop_first()
    } else {
        s
    }));
    if start == hi {
        return None;
    }
    let mut value: usize = 0;
    let mut i = start;
    assert(d.take(0) =~= Seq::<char>::empty());
    while i < hi
        invariant
            lo <= start <= i <= hi <= chars@.len(),
            d == chars@.subrange(start as int, hi as int),
            s == chars@.subrange(lo as int, hi as int),
            d == (if s.len() > 0 && s[0] == '+' {
                s.drop_first()
            } else {
                s
            }),
            d.len() > 0,
            all_digits(d.take(i - start)),
            value == digits_value(d.take(i - start)),
        decreases hi - i,
    {
        let c = chars[i];
        assert(d[i - start] == c);
        if !('0' <= c && c <= '9') {
            assert(!all_digits(d));
            return None;
        }
        let digit = (c as u32 - '0' as u32) as usize;
        proof {
            assert(d.take(i - start + 1).drop_last() =~= d.take(i - start));
            assert(all_digits(d.take(i - start + 1)));
        }
        match value.checked_mul(10) {
            Some(v10) => match v10.checked_add(digit) {
                Some(v) => {
                    value = v;
                },
                None => {
                    proof {
                        let k = i - start + 1;
                        if all_digits(d) {
                            lemma_digits_value_prefix(d, k);
                        }
                    }
                    return None;
                },
            },
            None => {
                proof {
                    let k = i - start + 1;
                    if all_digits(d) {
                        lemma_digits_value_prefix(d, k);
                    }
                }
                return None;
            },
        }
        i = i + 1;
    }
    assert(d.take(hi - start) =~= d);
    Some(value)
}

/// The pieces of `chars` between its whitespace-separated `OR` words.
fn split_on_or(chars: &Vec<char>) -> (r: Vec<String>)
    ensures
        strings_view(r@) == split_or(chars@),
{
    let ghost s = chars@;
    let n = chars.len();
    let mut segs: Vec<String> = Vec::new();
    let mut start: usize = 0;
    let mut i: usize = 0;
    assert(strings_view(segs@) + split_or_from(s, 0, 0) =~= split_or_from(s, 0, 0));
    while i < n
        invariant
            n == s.len(),
            s == chars@,
            0 <= start <= i,
            i <= n,
            split_or(s) == strings_view(segs@) + split_or_from(s, start as int, i as int),
        decreases n - i,
    {
        if is_or_word_at(chars, i) {
            let seg = string_from(chars, start, i);
            let ghost before = strings_view(segs@);
            segs.push(seg);
            proof {
                assert(strings_view(segs@) =~= before.push(s.subrange(start as int, i as int)));
                assert(strings_view(segs@) + split_or_from(s, i + 2, i + 2) =~= before + (seq![
                    s.subrange(start as int, i as int),
                ] + split_or_from(s, i + 2, i + 2)));
            }
            i = i + 2;
            start = i;
        } else {
            i = i + 1;
        }
    }
    let seg = string_from(chars, start, n);
    let ghost before = strings_view(segs@);
    segs.push(seg);
    proof {
        assert(strings_view(segs@) =~= before.push(s.subrange(start as int, n as int)));
    }
    segs
}

/// Whether a whitespace-separated word `OR` starts at index `i` of `chars`.
fn is_or_word_at(chars: &Vec<char>, i: usize) -> (r: bool)
    requires
        i < chars@.len(),
    ensures
        r == or_word_at(chars@, i as int),
{
    let n = chars.len();
    n - i >= 2 && chars[i] == 'O' && chars[i + 1] == 'R' && (i == 0 || is_white_space(chars[i - 1])) && (
    i + 2 == n || is_white_space(chars[i + 2]))
}

/// Whether one of the whitespace-separated words of `chars` is `OR`.
fn contains_or_word(chars: &Vec<char>) -> (r: bool)
    ensures
        r == has_or_word(chars@),
{
    let ghost s = chars@;
    let n = chars.len();
    let mut i: usize = 0;
    while i < n
        invariant
            n == s.len(),
            s == chars@,
            0 <= i <= n,
            forall|j: int| 0 <= j < i ==> !#[trigger] or_word_at(s, j),
        decreases n - i,
    {
        if is_or_word_at(chars, i) {
            return true;
        }
        i = i + 1;
    }
    false
}

/// Parse a plain query, with `OR` between terms that may each match.
pub fn parse_standard(trimmed: &str) -> (r: QueryMode)
    ensures
        r@ == standard_mode(trimmed@),
{
    let chars = chars_of(trimmed);
    if contains_or_word(&chars) {
        let segments = split_on_or(&chars);
        let ghost segs = strings_view(segments@);
        let ghost per = segs.map_values(|seg: Seq<char>| tokens(trim(seg)));
        let mut terms: Vec<String> = Vec::new();
        let mut k: usize = 0;
        assert(per.take(0) =~= Seq::<Seq<Seq<char>>>::empty());
        while k < segments.len()
            invariant
                segs == strings_view(segments@),
                per == segs.map_values(|seg: Seq<char>| tokens(trim(seg))),
                0 <= k <= segments@.len(),
                strings_view(terms@) == concat_all(per.take(k as int)),
            decreases segments@.len() - k,
        {
            let seg_chars = chars_of(segments[k].as_str());
            let (lo, hi) = trim_bounds(&seg_chars);
            let trimmed_seg = string_from(&seg_chars, lo, hi);
            let mut segment_terms = Analyzer::analyze(trimmed_seg.as_str());
            let ghost before = terms@;
            terms.append(&mut segment_terms);
            proof {
                assert(per.take(k + 1).drop_last() =~= per.take(k as int));
                assert(segs[k as int] == segments@[k as int]@);
                assert(strings_view(terms@) =~= strings_view(before) + per[k as int]);
            }
            k = k + 1;
        }
        assert(per.take(segments@.len() as int) =~= per);
        QueryMode::Standard(terms, true)
    } else {
        QueryMode::Standard(Analyzer::analyze(trimmed), false)
    }
}

/// Parse a query string into a `QueryMode`.
#[verifier::spinoff_prover]
#[verifier::rlimit(60)]
pub fn parse_query(query: &str) -> (r: QueryMode)
    ensures
        r@ == query_mode(query@),
{
    let chars = chars_of(query);
    let (lo, hi) = trim_bounds(&chars);
    let trimmed = string_from(&chars, lo, hi);
    let t = chars_of(trimmed.as_str());
    let ghost ts = t@;
    if t.len() == 0 {
        let v: Vec<String> = Vec::new();
        assert(strings_view(v@) =~= Seq::<Seq<char>>::empty());
        return QueryMode::Standard(v, false);
    }
    let n = t.len();

    // 1. Phrase query: starts and ends with double quotes
    if n >= 2 && t[0] == '"' && t[n - 1] == '"' {
        let inner = string_from(&t, 1, n - 1);
        return QueryMode::Phrase(Analyzer::analyze(inner.as_str()));
    }

    // 2. Prefix query: single token ending with '*'
    if t[n - 1] == '*' && !any_whitespace(&t, 0, n) {
        let head = string_from(&t, 0, n - 1);
        let prefix = head.as_str().to_lowercase();
        assert(ts.subrange(0, n as int) =~= ts);
        assert(ts.subrange(0, n - 1) =~= ts.drop_last());
        if !prefix.as_str().is_empty() {
            return QueryMode::Prefix(prefix);
        }
    }
    assert(ts.subrange(0, n as int) =~= ts);

    // 3. Fuzzy query: single token ending with '~' or '~N'
    if let Some(p) = last_index(&t, '~') {
        assert(ts.take(p as int) =~= ts.subrange(0, p as int));
        assert(ts.skip(p + 1) =~= ts.subrange(p + 1, n as int));
        if p > 0 && !any_whitespace(&t, 0, p) && !any_whitespace(&t, p + 1, n) {
            if p + 1 == n {
                let term = string_from(&t, 0, p).as_str().to_lowercase();
                return QueryMode::Fuzzy(term, DEFAULT_MAX_DISTANCE);
            }
            match parse_usize_at(&t, p + 1, n) {
                Some(d) => {
                    let term = string_from(&t, 0, p).as_str().to_lowercase();
                    return QueryMode::Fuzzy(term, d);
                },
                None => {
                    return parse_standard(trimmed.as_str());
                },
            }
        }
    }

    // 4. Standard AND / OR query
    parse_standard(trimmed.as_str())
}

// ---------------------------------------------------------------------------
// Candidate documents
// ---------------------------------------------------------------------------
/// The ids of the documents that `ps` holds postings for.
pub open spec fn posting_ids(ps: Seq<PostingView>) -> Set<Seq<char>> {
    Set::new(|id: Seq<char>| exists|i: int| 0 <= i < ps.len() && #[trigger] ps[i].doc_id == id)
}

/// The documents that contain the term `t`.
pub open spec fn term_ids(m: Map<Seq<char>, Seq<PostingView>>, t: Seq<char>) -> Set<Seq<char>> {
    posting_ids(postings_or_empty(m, t))
}

/// The documents that contain every one of `terms` (none when there are no terms).
pub open spec fn and_ids(m: Map<Seq<char>, Seq<PostingView>>, terms: Seq<Seq<char>>) -> Set<Seq<char>> {
    Set::new(
        |id: Seq<char>|
            terms.len() > 0 && forall|j: int| 0 <= j < terms.len() ==> #[trigger] term_ids(m, terms[j]).contains(id),
    )
}

/// The documents that contain at least one of `terms`.
pub open spec fn or_ids(m: Map<Seq<char>, Seq<PostingView>>, terms: Seq<Seq<char>>) -> Set<Seq<char>> {
    Set::new(
        |id: Seq<char>| exists|j: int| 0 <= j < terms.len() && #[trigger] term_ids(m, terms[j]).contains(id),
    )
}

/// The positions of the term `t` in the document `id`, from the first posting of `id`.
pub open spec fn doc_positions(m: Map<Seq<char>, Seq<PostingView>>, t: Seq<char>, id: Seq<char>) -> Seq<u32> {
    m[t][first_doc_index(m[t], id)].positions
}

/// Every one of `terms` is indexed and has a posting for `id`.
pub open spec fn all_have(m: Map<Seq<char>, Seq<PostingView>>, terms: Seq<Seq<char>>, id: Seq<char>) -> bool {
    forall|j: int| 0 <= j < terms.len() ==> #[trigger] m.contains_key(terms[j]) && posting_ids(m[terms[j]]).contains(id)
}

/// `ps` holds the position `v`.
pub open spec fn has_position(ps: Seq<u32>, v: int) -> bool {
    exists|q: int| 0 <= q < ps.len() && ps[q] as int == v
}

/// In document `id`, the `k`-th position of the first term is followed by each next
/// term at the next positions.
pub open spec fn phrase_run(m: Map<Seq<char>, Seq<PostingView>>, terms: Seq<Seq<char>>, id: Seq<char>, k: int) -> bool {
    forall|i: int|
        1 <= i < terms.len() ==> #[trigger] has_position(
            doc_positions(m, terms[i], id),
            doc_positions(m, terms[0], id)[k] + i,
        )
}

/// The terms occur one right after the other somewhere in document `id`.
pub open spec fn phrase_at(m: Map<Seq<char>, Seq<PostingView>>, terms: Seq<Seq<char>>, id: Seq<char>) -> bool {
    exists|k: int| 0 <= k < doc_positions(m, terms[0], id).len() && #[trigger] phrase_run(m, terms, id, k)
}

/// The documents that match a phrase: none for no terms; those with the term for one
/// term; otherwise, when every term is indexed, those in which the terms occur in a row.
pub open spec fn phrase_ids(m: Map<Seq<char>, Seq<PostingView>>, terms: Seq<Seq<char>>) -> Set<Seq<char>> {
    if terms.len() == 0 {
        Set::empty()
    } else if terms.len() == 1 {
        and_ids(m, terms)
    } else if exists|j: int| 0 <= j < terms.len() && !m.contains_key(#[trigger] terms[j]) {
        Set::empty()
    } else {
        Set::new(|id: Seq<char>| and_ids(m, terms).contains(id) && phrase_at(m, terms, id))
    }
}

/// A document that matches a phrase contains all of its terms, and a document that
/// contains all of the terms contains one of them.
pub proof fn lemma_query_kinds_nest(m: Map<Seq<char>, Seq<PostingView>>, terms: Seq<Seq<char>>)
    ensures
        phrase_ids(m, terms).subset_of(and_ids(m, terms)),
        and_ids(m, terms).subset_of(or_ids(m, terms)),
{
    assert forall|id: Seq<char>| #[trigger] and_ids(m, terms).contains(id) implies or_ids(m, terms).contains(id) by {
        assert(term_ids(m, terms[0]).contains(id));
    }
}

/// `v` lists the set `s`, each member once.
pub open spec fn lists(v: Seq<String>, s: Set<Seq<char>>) -> bool {
    &&& strings_view(v).no_duplicates()
    &&& strings_view(v).to_set() == s
}

/// Whether `v` holds `id`.
fn vec_has(v: &Vec<String>, id: &String) -> (r: bool)
    ensures
        r == strings_view(v@).contains(id@),
{
    let mut i: usize = 0;
    while i < v.len()
        invariant
            0 <= i <= v@.len(),
            forall|j: int| 0 <= j < i ==> (#[trigger] v@[j])@ != id@,
        decreases v@.len() - i,
    {
        if v[i] == *id {
            assert(strings_view(v@)[i as int] == id@);
            return true;
        }
        i = i + 1;
    }
    proof {
        if strings_view(v@).contains(id@) {
            let j = choose|j: int| 0 <= j < strings_view(v@).len() && strings_view(v@)[j] == id@;
            assert(v@[j]@ == id@);
        }
    }
    false
}

/// The index of the first posting of `id` in `ps`, if any.
fn find_posting(ps: &Vec<Posting>, id: &String) -> (r: Option<usize>)
    ensures
        match r {
            Some(i) => i as int == first_doc_index(ps.deep_view(), id@) && i < ps@.len(),
            None => first_doc_index(ps.deep_view(), id@) == -1,
        },
        r is Some <==> posting_ids(ps.deep_view()).contains(id@),
{
    let ghost l = ps.deep_view();
    proof {
        lemma_first_doc_index(l, id@);
    }
    let mut i: usize = 0;
    while i < ps.len()
        invariant
            l == ps.deep_view(),
            0 <= i <= ps@.len(),
            forall|j: int| 0 <= j < i ==> (#[trigger] l[j]).doc_id != id@,
            -1 <= first_doc_index(l, id@) < l.len(),
            first_doc_index(l, id@) >= 0 ==> l[first_doc_index(l, id@)].doc_id == id@,
            forall|j: int|
                0 <= j < l.len() && (first_doc_index(l, id@) < 0 || j < first_doc_index(l, id@))
                    ==> (#[trigger] l[j]).doc_id != id@,
        decreases ps@.len() - i,
    {
        if ps[i].doc_id == *id {
            assert(l[i as int].doc_id == id@);
            return Some(i);
        }
        i = i + 1;
    }
    None
}

/// Whether the term `term` has a posting for `id`.
fn term_has_doc(index: &InvertedIndex, term: &String, id: &String) -> (r: bool)
    requires
        index.wf(),
    ensures
        r == term_ids(index.postings(), term@).contains(id@),
{
    match index.get_postings(term.as_str()) {
        Some(ps) => find_posting(ps, id).is_some(),
        None => {
            assert(posting_ids(Seq::<PostingView>::empty()) =~= Set::<Seq<char>>::empty());
            false
        },
    }
}

/// Whether `id` contains every term from the `from`-th on.
fn has_all_terms(index: &InvertedIndex, terms: &Vec<String>, from: usize, id: &String) -> (r: bool)
    requires
        index.wf(),
    ensures
        r == forall|j: int| from <= j < terms@.len() ==> #[trigger] term_ids(index.postings(), terms@[j]@).contains(id@),
{
    let mut j = from;
    while j < terms.len()
        invariant
            index.wf(),
            from <= j,
            forall|k: int| from <= k < j && k < terms@.len() ==> #[trigger] term_ids(index.postings(), terms@[k]@).contains(id@),
        decreases terms@.len() - j,
    {
        if !term_has_doc(index, &terms[j], id) {
            return false;
        }
        j = j + 1;
    }
    true
}

/// Find the documents that contain ALL terms (AND), each once.
pub fn and_doc_ids(index: &InvertedIndex, terms: &Vec<String>) -> (r: Vec<String>)
    requires
        index.wf(),
    ensures
        lists(r@, and_ids(index.postings(), strings_view(terms@))),
{
    let ghost m = index.postings();
    let ghost ts = strings_view(terms@);
    let mut result: Vec<String> = Vec::new();
    if terms.len() == 0 {
        assert(strings_view(result@) =~= Seq::<Seq<char>>::empty());
        assert(and_ids(m, ts) =~= Set::<Seq<char>>::empty());
        assert(strings_view(result@).to_set() =~= Set::<Seq<char>>::empty());
        return result;
    }
    let first = match index.get_postings(terms[0].as_str()) {
        Some(ps) => ps,
        None => {
            assert(and_ids(m, ts) =~= Set::<Seq<char>>::empty()) by {
                assert forall|id: Seq<char>| !#[trigger] and_ids(m, ts).contains(id) by {
                    assert(posting_ids(Seq::<PostingView>::empty()) =~= Set::<Seq<char>>::empty());
                    assert(!term_ids(m, ts[0]).contains(id));
                }
            }
            assert(strings_view(result@) =~= Seq::<Seq<char>>::empty());
            assert(strings_view(result@).to_set() =~= Set::<Seq<char>>::empty());
            return result;
        },
    };
    let ghost fl = first.deep_view();
    let mut i: usize = 0;
    assert(strings_view(result@) =~= Seq::<Seq<char>>::empty());
    while i < first.len()
        invariant
            index.wf(),
            m == index.postings(),
            ts == strings_view(terms@),
            ts.len() > 0,
            m.contains_key(ts[0]),
            fl == m[ts[0]],
            fl == first.deep_view(),
            0 <= i <= first@.len(),
            strings_view(result@).no_duplicates(),
            forall|id: Seq<char>| #[trigger] strings_view(result@).contains(id) ==> and_ids(m, ts).contains(id),
            forall|k: int| 0 <= k < i && and_ids(m, ts).contains(#[trigger] fl[k].doc_id) ==> strings_view(result@).contains(fl[k].doc_id),
        decreases first@.len() - i,
    {
        let id = &first[i].doc_id;
        assert(fl[i as int].doc_id == id@);
        assert(term_ids(m, ts[0]).contains(id@)) by {
            assert(postings_or_empty(m, ts[0]) == fl);
        }
        let present = vec_has(&result, id);
        let in_all = has_all_terms(index, terms, 1, id);
        let ghost before = strings_view(result@);
        if !present && in_all {
            result.push(id.clone());
            proof {
                assert(strings_view(result@) =~= before.push(id@));
                assert(and_ids(m, ts).contains(id@)) by {
                    assert forall|j: int| 0 <= j < ts.len() implies #[trigger] term_ids(m, ts[j]).contains(id@) by {
                        if j > 0 {
                            assert(ts[j] == terms@[j]@);
                        }
                    }
                }
                assert forall|x: Seq<char>| #[trigger] strings_view(result@).contains(x) implies and_ids(m, ts).contains(x) by {
                    if x != id@ {
                        let q = choose|q: int| 0 <= q < strings_view(result@).len() && strings_view(result@)[q] == x;
                        if q < before.len() {
                            assert(before[q] == x);
                            assert(before.contains(x));
                        } else {
                            assert(strings_view(result@)[q] == id@);
                        }
                    }
                }
                assert(strings_view(result@).no_duplicates());
                assert(strings_view(result@)[before.len() as int] == id@);
            }
        } else {
            proof {
                if !in_all {
                    assert(!and_ids(m, ts).contains(id@)) by {
                        let j = choose|j: int| 1 <= j < terms@.len() && !#[trigger] term_ids(m, terms@[j]@).contains(id@);
                        assert(ts[j] == terms@[j]@);
                    }
                }
            }
        }
        proof {
            assert forall|k: int| 0 <= k < i + 1 && and_ids(m, ts).contains(#[trigger] fl[k].doc_id) implies strings_view(result@).contains(fl[k].doc_id) by {
                if k < i {
                    if before.contains(fl[k].doc_id) {
                        let q = choose|q: int| 0 <= q < before.len() && before[q] == fl[k].doc_id;
                        assert(strings_view(result@)[q] == fl[k].doc_id);
                    }
                } else if !present && in_all {
                    assert(strings_view(result@)[before.len() as int] == id@);
                }
            }
        }
        i = i + 1;
    }
    proof {
        assert(strings_view(result@).to_set() =~= and_ids(m, ts)) by {
            assert forall|id: Seq<char>| #[trigger] and_ids(m, ts).contains(id) implies strings_view(result@).contains(id) by {
                assert(term_ids(m, ts[0]).contains(id));
                assert(postings_or_empty(m, ts[0]) == fl);
                let k = choose|k: int| 0 <= k < fl.len() && #[trigger] fl[k].doc_id == id;
            }
        }
    }
    result
}

/// Add to `result` the documents of `ps` that it does not list yet.
fn add_posting_ids(result: &mut Vec<String>, ps: &Vec<Posting>)
    requires
        strings_view(old(result)@).no_duplicates(),
    ensures
        strings_view(final(result)@).no_duplicates(),
        strings_view(final(result)@).to_set() == strings_view(old(result)@).to_set().union(
            posting_ids(ps.deep_view()),
        ),
{
    let ghost l = ps.deep_view();
    let ghost start = strings_view(result@).to_set();
    let mut i: usize = 0;
    while i < ps.len()
        invariant
            l == ps.deep_view(),
            0 <= i <= ps@.len(),
            strings_view(result@).no_duplicates(),
            strings_view(result@).to_set() == start.union(
                Set::new(|id: Seq<char>| exists|k: int| 0 <= k < i && #[trigger] l[k].doc_id == id),
            ),
        decreases ps@.len() - i,
    {
        let id = &ps[i].doc_id;
        assert(l[i as int].doc_id == id@);
        let ghost before = strings_view(result@);
        let ghost seen = Set::new(|x: Seq<char>| exists|k: int| 0 <= k < i && #[trigger] l[k].doc_id == x);
        let ghost seen2 = Set::new(|x: Seq<char>| exists|k: int| 0 <= k < i + 1 && #[trigger] l[k].doc_id == x);
        assert(seen2 =~= seen.insert(id@));
        if !vec_has(result, id) {
            result.push(id.clone());
            proof {
                assert(strings_view(result@) =~= before.push(id@));
                assert(strings_view(result@)[before.len() as int] == id@);
                assert forall|a: int, b: int| 0 <= a < b < strings_view(result@).len() implies strings_view(result@)[a] != strings_view(result@)[b] by {
                    if b == before.len() {
                        assert(before[a] == strings_view(result@)[a]);
                    } else {
                        assert(before[a] == strings_view(result@)[a]);
                        assert(before[b] == strings_view(result@)[b]);
                    }
                }
                before.lemma_push_to_set_commute(id@);
                assert(strings_view(result@).to_set() =~= before.to_set().insert(id@));
            }
        } else {
            assert(before.to_set().contains(id@));
        }
        assert(strings_view(result@).to_set() =~= start.union(seen2));
        i = i + 1;
    }
    assert(Set::new(|id: Seq<char>| exists|k: int| 0 <= k < ps@.len() && #[trigger] l[k].doc_id == id) =~= posting_ids(l));
}

/// Find the documents that contain ANY of the terms (OR), each once.
pub fn or_doc_ids(index: &InvertedIndex, terms: &Vec<String>) -> (r: Vec<String>)
    requires
        index.wf(),
    ensures
        lists(r@, or_ids(index.postings(), strings_view(terms@))),
{
    let ghost m = index.postings();
    let ghost ts = strings_view(terms@);
    let mut result: Vec<String> = Vec::new();
    assert(strings_view(result@) =~= Seq::<Seq<char>>::empty());
    assert(strings_view(result@).to_set() =~= or_ids(m, ts.take(0))) by {
        assert(or_ids(m, ts.take(0)) =~= Set::<Seq<char>>::empty());
    }
    let mut j: usize = 0;
    while j < terms.len()
        invariant
            index.wf(),
            m == index.postings(),
            ts == strings_view(terms@),
            0 <= j <= terms@.len(),
            strings_view(result@).no_duplicates(),
            strings_view(result@).to_set() == or_ids(m, ts.take(j as int)),
        decreases terms@.len() - j,
    {
        let ghost before = strings_view(result@).to_set();
        match index.get_postings(terms[j].as_str()) {
            Some(ps) => {
                add_posting_ids(&mut result, ps);
            },
            None => {},
        }
        proof {
            assert(ts[j as int] == terms@[j as int]@);
            assert(posting_ids(Seq::<PostingView>::empty()) =~= Set::<Seq<char>>::empty());
            assert(or_ids(m, ts.take(j + 1)) =~= or_ids(m, ts.take(j as int)).union(term_ids(m, ts[j as int]))) by {
                assert forall|id: Seq<char>| #[trigger] or_ids(m, ts.take(j + 1)).contains(id) implies or_ids(m, ts.take(j as int)).union(term_ids(m, ts[j as int])).contains(id) by {
                    let q = choose|q: int| 0 <= q < j + 1 && #[trigger] term_ids(m, ts.take(j + 1)[q]).contains(id);
                    if q < j {
                        assert(ts.take(j as int)[q] == ts.take(j + 1)[q]);
                    }
                }
                assert forall|id: Seq<char>| #[trigger] or_ids(m, ts.take(j as int)).union(term_ids(m, ts[j as int])).contains(id) implies or_ids(m, ts.take(j + 1)).contains(id) by {
                    if or_ids(m, ts.take(j as int)).contains(id) {
                        let q = choose|q: int| 0 <= q < j && #[trigger] term_ids(m, ts.take(j as int)[q]).contains(id);
                        assert(ts.take(j as int)[q] == ts.take(j + 1)[q]);
                    } else {
                        assert(ts.take(j + 1)[j as int] == ts[j as int]);
                    }
                }
            }
            assert(strings_view(result@).to_set() =~= or_ids(m, ts.take(j + 1)));
        }
        j = j + 1;
    }
    assert(ts.take(terms@.len() as int) =~= ts);
    result
}

/// The positions of `term` in the document `id`, from its first posting.
fn positions_in<'a>(index: &'a InvertedIndex, term: &String, id: &String) -> (r: &'a Vec<u32>)
    requires
        index.wf(),
        index.postings().contains_key(term@),
        posting_ids(index.postings()[term@]).contains(id@),
    ensures
        r@ == doc_positions(index.postings(), term@, id@),
{
    let ps = index.get_postings(term.as_str()).unwrap();
    let i = find_posting(ps, id).unwrap();
    assert(ps.deep_view()[i as int] == ps@[i as int].deep_view());
    &ps[i].positions
}

/// Whether `ps` holds the position `v`.
fn contains_position(ps: &Vec<u32>, v: u128) -> (r: bool)
    ensures
        r == has_position(ps@, v as int),
{
    let mut q: usize = 0;
    while q < ps.len()
        invariant
            0 <= q <= ps@.len(),
            forall|k: int| 0 <= k < q ==> (#[trigger] ps@[k]) as int != v as int,
        decreases ps@.len() - q,
    {
        if ps[q] as u128 == v {
            return true;
        }
        q = q + 1;
    }
    false
}

/// Whether the terms occur one right after the other somewhere in document `id`.
fn phrase_matches(index: &InvertedIndex, terms: &Vec<String>, id: &String) -> (r: bool)
    requires
        index.wf(),
        terms@.len() >= 1,
        forall|j: int| 0 <= j < terms@.len() ==> index.postings().contains_key(#[trigger] terms@[j]@),
        and_ids(index.postings(), strings_view(terms@)).contains(id@),
    ensures
        r == phrase_at(index.postings(), strings_view(terms@), id@),
{
    let ghost m = index.postings();
    let ghost ts = strings_view(terms@);
    let n = terms.len();
    proof {
        assert forall|j: int| 0 <= j < n implies #[trigger] m.contains_key(ts[j]) && posting_ids(m[ts[j]]).contains(id@) by {
            assert(ts[j] == terms@[j]@);
            assert(term_ids(m, ts[j]).contains(id@));
            assert(postings_or_empty(m, ts[j]) == m[ts[j]]);
        }
    }
    assert(ts[0] == terms@[0]@);
    let first = positions_in(index, &terms[0], id);
    let mut k: usize = 0;
    while k < first.len()
        invariant
            index.wf(),
            m == index.postings(),
            ts == strings_view(terms@),
            n == ts.len(),
            n >= 1,
            all_have(m, ts, id@),
            first@ == doc_positions(m, ts[0], id@),
            0 <= k <= first@.len(),
            forall|kk: int| 0 <= kk < k ==> !#[trigger] phrase_run(m, ts, id@, kk),
        decreases first@.len() - k,
    {
        let start = first[k];
        let mut i: usize = 1;
        let mut holds = true;
        while i < n && holds
            invariant
                index.wf(),
                m == index.postings(),
                ts == strings_view(terms@),
                n == ts.len(),
                all_have(m, ts, id@),
                first@ == doc_positions(m, ts[0], id@),
                0 <= k < first@.len(),
                start == first@[k as int],
                1 <= i <= n,
                holds ==> forall|ii: int| 1 <= ii < i ==> #[trigger] has_position(
                    doc_positions(m, ts[ii], id@),
                    doc_positions(m, ts[0], id@)[k as int] + ii,
                ),
                !holds ==> !phrase_run(m, ts, id@, k as int),
            decreases n - i + (if holds {
                1int
            } else {
                0int
            }),
        {
            assert(ts[i as int] == terms@[i as int]@);
            assert(m.contains_key(ts[i as int]));
            let ps = positions_in(index, &terms[i], id);
            if !contains_position(ps, start as u128 + i as u128) {
                assert(!has_position(doc_positions(m, ts[i as int], id@), doc_positions(m, ts[0], id@)[k as int] + i));
                holds = false;
            } else {
                i = i + 1;
            }
        }
        if holds {
            assert(phrase_run(m, ts, id@, k as int));
            return true;
        }
        assert(!phrase_run(m, ts, id@, k as int));
        k = k + 1;
    }
    false
}

/// Find the documents that match a phrase query, each once.
pub fn phrase_doc_ids(index: &InvertedIndex, terms: &Vec<String>) -> (r: Vec<String>)
    requires
        index.wf(),
    ensures
        lists(r@, phrase_ids(index.postings(), strings_view(terms@))),
{
    let ghost m = index.postings();
    let ghost ts = strings_view(terms@);
    let mut result: Vec<String> = Vec::new();
    assert(strings_view(result@) =~= Seq::<Seq<char>>::empty());
    if terms.len() == 0 {
        assert(strings_view(result@).to_set() =~= Set::<Seq<char>>::empty());
        return result;
    }
    if terms.len() == 1 {
        return and_doc_ids(index, terms);
    }
    // Every term must be indexed for the phrase to match
    let mut j: usize = 0;
    while j < terms.len()
        invariant
            index.wf(),
            m == index.postings(),
            ts == strings_view(terms@),
            ts.len() >= 2,
            0 <= j <= terms@.len(),
            forall|q: int| 0 <= q < j ==> m.contains_key(#[trigger] ts[q]),
        decreases terms@.len() - j,
    {
        assert(ts[j as int] == terms@[j as int]@);
        if index.get_postings(terms[j].as_str()).is_none() {
            let none: Vec<String> = Vec::new();
            assert(strings_view(none@) =~= Seq::<Seq<char>>::empty());
            assert(strings_view(none@).to_set() =~= Set::<Seq<char>>::empty());
            assert(!m.contains_key(ts[j as int]));
            return none;
        }
        j = j + 1;
    }
    assert(forall|q: int| 0 <= q < terms@.len() ==> m.contains_key(#[trigger] terms@[q]@)) by {
        assert forall|q: int| 0 <= q < terms@.len() implies m.contains_key(#[trigger] terms@[q]@) by {
            assert(ts[q] == terms@[q]@);
        }
    }
    let candidates = and_doc_ids(index, terms);
    let ghost cs = strings_view(candidates@);
    let mut i: usize = 0;
    while i < candidates.len()
        invariant
            index.wf(),
            m == index.postings(),
            ts == strings_view(terms@),
            ts.len() >= 2,
            forall|q: int| 0 <= q < terms@.len() ==> m.contains_key(#[trigger] terms@[q]@),
            cs == strings_view(candidates@),
            lists(candidates@, and_ids(m, ts)),
            0 <= i <= candidates@.len(),
            strings_view(result@).no_duplicates(),
            strings_view(result@).to_set() == Set::new(
                |id: Seq<char>| exists|k: int| 0 <= k < i && #[trigger] cs[k] == id && phrase_at(m, ts, id),
            ),
        decreases candidates@.len() - i,
    {
        let id = &candidates[i];
        assert(cs[i as int] == id@);
        assert(cs.to_set().contains(id@));
        let ghost before = strings_view(result@);
        let ghost s1 = Set::new(|x: Seq<char>| exists|k: int| 0 <= k < i && #[trigger] cs[k] == x && phrase_at(m, ts, x));
        let ghost s2 = Set::new(|x: Seq<char>| exists|k: int| 0 <= k < i + 1 && #[trigger] cs[k] == x && phrase_at(m, ts, x));
        if phrase_matches(index, terms, id) {
            proof {
                assert(!before.contains(id@)) by {
                    if before.contains(id@) {
                        assert(before.to_set().contains(id@));
                        let k = choose|k: int| 0 <= k < i && #[trigger] cs[k] == id@ && phrase_at(m, ts, id@);
                        assert(cs[k] == cs[i as int]);
                    }
                }
            }
            result.push(id.clone());
            proof {
                assert(strings_view(result@) =~= before.push(id@));
                assert(strings_view(result@)[before.len() as int] == id@);
                assert forall|a: int, b: int| 0 <= a < b < strings_view(result@).len() implies strings_view(result@)[a] != strings_view(result@)[b] by {
                    assert(before[a] == strings_view(result@)[a]);
                    if b < before.len() {
                        assert(before[b] == strings_view(result@)[b]);
                    }
                }
                before.lemma_push_to_set_commute(id@);
                assert(s2 =~= s1.insert(id@));
            }
        } else {
            proof {
                assert(s2 =~= s1) by {
                    assert forall|x: Seq<char>| #[trigger] s2.contains(x) implies s1.contains(x) by {
                        let k = choose|k: int| 0 <= k < i + 1 && #[trigger] cs[k] == x && phrase_at(m, ts, x);
                        if k == i {
                            assert(x == id@);
                        }
                    }
                }
            }
        }
        i = i + 1;
    }
    proof {
        assert(strings_view(result@).to_set() =~= phrase_ids(m, ts)) by {
            assert(!(exists|q: int| 0 <= q < ts.len() && !m.contains_key(#[trigger] ts[q]))) by {
                assert forall|q: int| 0 <= q < ts.len() implies m.contains_key(#[trigger] ts[q]) by {
                    assert(ts[q] == terms@[q]@);
                }
            }
            assert forall|x: Seq<char>| #[trigger] phrase_ids(m, ts).contains(x) implies strings_view(result@).to_set().contains(x) by {
                assert(cs.to_set().contains(x));
                let k = choose|k: int| 0 <= k < cs.len() && cs[k] == x;
                assert(cs[k] == x);
            }
            assert forall|x: Seq<char>| #[trigger] strings_view(result@).to_set().contains(x) implies phrase_ids(m, ts).contains(x) by {
                let k = choose|k: int| 0 <= k < candidates@.len() && #[trigger] cs[k] == x && phrase_at(m, ts, x);
                assert(cs.to_set().contains(x));
            }
        }
    }
    result
}

// ---------------------------------------------------------------------------
// Query plans
// ---------------------------------------------------------------------------
/// Edit distances can be computed for `t` against every one of `all_terms`: no string
/// is as long as `usize::MAX` characters.
pub open spec fn fuzzy_sizes_ok(t: Seq<char>, all_terms: Seq<Seq<char>>) -> bool {
    t.len() < usize::MAX && forall|k: int| 0 <= k < all_terms.len() ==> (#[trigger] all_terms[k]).len() < usize::MAX
}

/// The terms within `d` edits of `t`, in order.
pub open spec fn fuzzy_terms(t: Seq<char>, all_terms: Seq<Seq<char>>, d: int) -> Seq<Seq<char>> {
    if fuzzy_sizes_ok(t, all_terms) {
        all_terms.filter(|x: Seq<char>| edit_distance(t, x) <= d)
    } else {
        seq![]
    }
}

/// The terms that a query is scored with: the phrase or plain terms, or the indexed
/// terms that the prefix or the fuzzy term expands to.
pub open spec fn plan_terms(all_terms: Seq<Seq<char>>, mode: QueryModeView) -> Seq<Seq<char>> {
    match mode {
        QueryModeView::Phrase(ts) => ts,
        QueryModeView::Prefix(p) => terms_with_prefix(all_terms, p),
        QueryModeView::Fuzzy(t, d) => fuzzy_terms(t, all_terms, d as int),
        QueryModeView::Standard(ts, _) => ts,
    }
}

/// The documents that a query matches.
pub open spec fn plan_ids(
    m: Map<Seq<char>, Seq<PostingView>>,
    all_terms: Seq<Seq<char>>,
    mode: QueryModeView,
) -> Set<Seq<char>> {
    match mode {
        QueryModeView::Phrase(ts) => phrase_ids(m, ts),
        QueryModeView::Prefix(p) => or_ids(m, terms_with_prefix(all_terms, p)),
        QueryModeView::Fuzzy(t, d) => or_ids(m, fuzzy_terms(t, all_terms, d as int)),
        QueryModeView::Standard(ts, is_or) => if is_or {
            or_ids(m, ts)
        } else {
            and_ids(m, ts)
        },
    }
}

proof fn lemma_filter_map<'a>(s: Seq<&'a str>, t: Seq<char>, d: int)
    ensures
        s.filter(|x: &'a str| edit_distance(t, x@) <= d).map_values(|x: &'a str| x@) == s.map_values(
            |x: &'a str| x@,
        ).filter(|x: Seq<char>| edit_distance(t, x) <= d),
    decreases s.len(),
{
    reveal(Seq::filter);
    if s.len() > 0 {
        lemma_filter_map(s.drop_last(), t, d);
        assert(s.map_values(|x: &'a str| x@).drop_last() =~= s.drop_last().map_values(|x: &'a str| x@));
    } else {
        assert(s.filter(|x: &'a str| edit_distance(t, x@) <= d).map_values(|x: &'a str| x@) =~= Seq::<Seq<char>>::empty());
        assert(s.map_values(|x: &'a str| x@).filter(|x: Seq<char>| edit_distance(t, x) <= d) =~= Seq::<Seq<char>>::empty());
    }
}

/// Owned copies of `v`.
fn owned_strings(v: &Vec<&str>) -> (r: Vec<String>)
    ensures
        strings_view(r@) == v@.map_values(|t: &str| t@),
{
    let mut r: Vec<String> = Vec::new();
    let mut i: usize = 0;
    while i < v.len()
        invariant
            0 <= i <= v@.len(),
            strings_view(r@) == v@.take(i as int).map_values(|t: &str| t@),
        decreases v@.len() - i,
    {
        let ghost before = r@;
        let t: &str = v[i];
        let owned = t.to_owned();
        r.push(owned);
        assert(r@ == before.push(owned));
        assert(strings_view(r@) =~= strings_view(before).push(owned@));
        assert(v@.take(i + 1).map_values(|t: &str| t@) =~= v@.take(i as int).map_values(|t: &str| t@).push(v@[i as int]@));
        i = i + 1;
    }
    assert(v@.take(v@.len() as int) =~= v@);
    r
}

/// The terms of `all` within `max_distance` edits of `term`; none where a string is as
/// long as `usize::MAX` characters.
fn fuzzy_candidates(term: &str, all: &Vec<&str>, max_distance: usize) -> (r: Vec<String>)
    ensures
        strings_view(r@) == fuzzy_terms(term@, all@.map_values(|t: &str| t@), max_distance as int),
{
    let ghost ts = all@.map_values(|t: &str| t@);
    let term_chars = chars_of(term);
    let none: Vec<String> = Vec::new();
    assert(strings_view(none@) =~= Seq::<Seq<char>>::empty());
    if term_chars.len() == usize::MAX {
        return none;
    }
    let mut k: usize = 0;
    while k < all.len()
        invariant
            ts == all@.map_values(|t: &str| t@),
            0 <= k <= all@.len(),
            forall|j: int| 0 <= j < k ==> (#[trigger] all@[j])@.len() < usize::MAX,
            strings_view(none@) == Seq::<Seq<char>>::empty(),
        decreases all@.len() - k,
    {
        let c = chars_of(all[k]);
        if c.len() == usize::MAX {
            assert(ts[k as int].len() == usize::MAX);
            return none;
        }
        k = k + 1;
    }
    assert(fuzzy_sizes_ok(term@, ts)) by {
        assert forall|j: int| 0 <= j < ts.len() implies (#[trigger] ts[j]).len() < usize::MAX by {
            assert(ts[j] == all@[j]@);
        }
    }
    let matched = find_fuzzy_matches(term, all.as_slice(), max_distance);
    proof {
        lemma_filter_map(all@, term@, max_distance as int);
    }
    owned_strings(&matched)
}

/// The candidate documents of a query (each once) and the terms to score them with.
pub fn search_candidates(index: &InvertedIndex, query: &str) -> (r: (Vec<String>, Vec<String>))
    requires
        index.wf(),
    ensures
        lists(r.0@, plan_ids(index.postings(), index.terms(), query_mode(query@))),
        strings_view(r.1@) == plan_terms(index.terms(), query_mode(query@)),
{
    match parse_query(query) {
        QueryMode::Phrase(terms) => {
            let ids = phrase_doc_ids(index, &terms);
            (ids, terms)
        },
        QueryMode::Prefix(prefix) => {
            let matching = index.get_terms_with_prefix(prefix.as_str());
            let terms = owned_strings(&matching);
            let ids = or_doc_ids(index, &terms);
            (ids, terms)
        },
        QueryMode::Fuzzy(term, max_dist) => {
            let all = index.all_terms();
            let terms = fuzzy_candidates(term.as_str(), &all, max_dist);
            let ids = or_doc_ids(index, &terms);
            (ids, terms)
        },
        QueryMode::Standard(terms, is_or) => {
            let ids = if is_or {
                or_doc_ids(index, &terms)
            } else {
                and_doc_ids(index, &terms)
            };
            (ids, terms)
        },
    }
}

// ---------------------------------------------------------------------------
// Engine state
// ---------------------------------------------------------------------------
/// The state of a search engine: the live index that queries read, and, for a
/// persistent engine, the documents indexed since the last segment was written.
///
/// The caller does the outside work: it appends each change to the write-ahead log
/// before applying it here, writes a segment when one is due, and ranks candidates.
pub struct EngineState {
    index: InvertedIndex,
    buffered_index: InvertedIndex,
    persistent: bool,
    flush_threshold: usize,
    unflushed_docs: usize,
    segment_count: usize,
    deleted_ids: Vec<String>,
    /// The documents of each segment written or loaded, oldest first.
    disk_segments: Ghost<Seq<Map<Seq<char>, DocumentView>>>,
    /// What the log holds since it was last truncated.
    disk_log: Ghost<Seq<LogEntry>>,
    /// The ids whose last record in the log is a deletion.
    logged_deletes: Ghost<Set<Seq<char>>>,
}

/// Add `id` to the ids that `v` lists.
fn add_id(v: &mut Vec<String>, id: &str)
    ensures
        strings_view(final(v)@).to_set() == strings_view(old(v)@).to_set().insert(id@),
{
    let ghost before = strings_view(v@);
    v.push(id.to_owned());
    proof {
        assert(strings_view(v@) =~= before.push(id@));
        before.lemma_push_to_set_commute(id@);
    }
}

/// Take `id` out of the ids that `v` lists.
fn remove_id(v: &mut Vec<String>, id: &str)
    ensures
        strings_view(final(v)@).to_set() == strings_view(old(v)@).to_set().remove(id@),
{
    let ghost orig = strings_view(v@);
    let key = id.to_owned();
    let mut kept: Vec<String> = Vec::new();
    let mut i: usize = 0;
    while i < v.len()
        invariant
            orig == strings_view(v@),
            key@ == id@,
            0 <= i <= v@.len(),
            strings_view(kept@).to_set() == orig.take(i as int).to_set().remove(id@),
        decreases v@.len() - i,
    {
        let ghost before = strings_view(kept@);
        proof {
            assert(orig.take(i + 1) =~= orig.take(i as int).push(orig[i as int]));
            orig.take(i as int).lemma_push_to_set_commute(orig[i as int]);
            assert(orig[i as int] == v@[i as int]@);
        }
        if v[i] != key {
            kept.push(v[i].clone());
            proof {
                assert(strings_view(kept@) =~= before.push(v@[i as int]@));
                before.lemma_push_to_set_commute(v@[i as int]@);
                assert(strings_view(kept@).to_set() =~= orig.take(i + 1).to_set().remove(id@));
            }
        } else {
            assert(strings_view(kept@).to_set() =~= orig.take(i + 1).to_set().remove(id@));
        }
        i = i + 1;
    }
    assert(orig.take(v@.len() as int) =~= orig);
    *v = kept;
}

impl EngineState {
    /// The ids deleted since the engine opened and not indexed again since: the log
    /// must keep their deletions when it is truncated.
    pub closed spec fn pending_deletes(&self) -> Set<Seq<char>> {
        strings_view(self.deleted_ids@).to_set()
    }

    /// Both indexes keep their keys sorted, and for a persistent engine the segments
    /// written and the log kept account for the live documents.
    pub closed spec fn wf(&self) -> bool {
        &&& self.index.wf()
        &&& self.buffered_index.wf()
        &&& self.persistent ==> disk_accounts(
            self.index.docs(),
            self.disk_segments@,
            self.buffered_index.docs(),
            self.disk_log@,
            self.logged_deletes@,
            strings_view(self.deleted_ids@).to_set(),
        )
    }

    /// The documents of each segment written or loaded, oldest first.
    pub closed spec fn written_segments(&self) -> Seq<Map<Seq<char>, DocumentView>> {
        self.disk_segments@
    }

    /// What the log holds since it was last truncated.
    pub closed spec fn kept_log(&self) -> Seq<LogEntry> {
        self.disk_log@
    }

    /// What the log holds once truncated at a flush: the pending deletions, in the
    /// order of `pending_delete_ids`.
    pub closed spec fn flush_log(&self) -> Seq<LogEntry> {
        delete_entries(strings_view(self.deleted_ids@))
    }

    /// Merging the segments written, in order, and replaying the log kept gives back
    /// the live documents.
    pub open spec fn restores(&self) -> bool {
        self.live().docs() == replay_docs(merged_docs(self.written_segments()), self.kept_log())
    }

    /// A persistent engine's segments and log give back its live documents.
    pub proof fn lemma_restores(&self)
        requires
            self.wf(),
            self.is_persistent(),
        ensures
            self.restores(),
    {
        lemma_disk_restores(
            self.index.docs(),
            self.disk_segments@,
            self.buffered_index.docs(),
            self.disk_log@,
            self.logged_deletes@,
            strings_view(self.deleted_ids@).to_set(),
        );
    }

    /// The index that queries read.
    pub closed spec fn live(&self) -> InvertedIndex {
        self.index
    }

    /// The documents indexed since the last segment was written.
    pub closed spec fn buffered(&self) -> InvertedIndex {
        self.buffered_index
    }

    /// The engine writes segments and keeps a log.
    pub closed spec fn is_persistent(&self) -> bool {
        self.persistent
    }

    /// How many indexed documents make a segment due (0: never).
    pub closed spec fn threshold(&self) -> usize {
        self.flush_threshold
    }

    /// Documents indexed since the last segment was written.
    pub closed spec fn unflushed(&self) -> usize {
        self.unflushed_docs
    }

    /// Segments written or loaded.
    pub closed spec fn segments(&self) -> usize {
        self.segment_count
    }

    /// Indexing this document keeps every count in range.
    pub open spec fn add_ok(&self, id: Seq<char>, title: Seq<char>, body: Seq<char>) -> bool {
        &&& self.live().add_allowed(id, title, body)
        &&& self.is_persistent() ==> self.buffered().add_allowed(id, title, body) && self.unflushed()
            < usize::MAX
    }

    /// Deleting this document keeps every count in range.
    pub open spec fn delete_ok(&self, id: Seq<char>) -> bool {
        &&& self.live().can_remove(id)
        &&& self.is_persistent() ==> self.buffered().can_remove(id)
    }

    /// Replaying this record keeps every count in range.
    pub open spec fn replay_ok(&self, rec: WalRecord) -> bool {
        match rec {
            WalRecord::Add { id, title, body } => {
                &&& self.live().add_allowed(id@, title@, body@)
                &&& self.buffered().add_allowed(id@, title@, body@)
                &&& self.unflushed() < usize::MAX
            },
            WalRecord::Delete { id } => self.live().can_remove(id@) && self.buffered().can_remove(id@),
        }
    }

    /// A new, in-memory engine.
    pub fn new() -> (r: Self)
        ensures
            r.wf(),
            r.live().postings() == Map::<Seq<char>, Seq<PostingView>>::empty(),
            r.live().docs() == Map::<Seq<char>, DocumentView>::empty(),
            r.live().meta().total_docs == 0,
            r.live().meta().total_doc_length == 0,
            r.live().meta().doc_lengths@ == Map::<Seq<char>, u32>::empty(),
            r.live().consistent(),
            r.live().postings_ok(),
            r.buffered().postings() == Map::<Seq<char>, Seq<PostingView>>::empty(),
            r.buffered().docs() == Map::<Seq<char>, DocumentView>::empty(),
            r.buffered().meta().total_docs == 0,
            r.buffered().meta().total_doc_length == 0,
            r.buffered().meta().doc_lengths@ == Map::<Seq<char>, u32>::empty(),
            !r.is_persistent(),
            r.threshold() == 0,
            r.unflushed() == 0,
            r.segments() == 0,
            r.pending_deletes() == Set::<Seq<char>>::empty(),
    {
        assert(strings_view(Seq::<String>::empty()).to_set() =~= Set::<Seq<char>>::empty());
        EngineState {
            index: InvertedIndex::new(),
            buffered_index: InvertedIndex::new(),
            persistent: false,
            flush_threshold: 0,
            unflushed_docs: 0,
            segment_count: 0,
            deleted_ids: Vec::new(),
            disk_segments: Ghost(Seq::empty()),
            disk_log: Ghost(Seq::empty()),
            logged_deletes: Ghost(Set::empty()),
        }
    }

    /// A persistent engine over the index loaded from `segment_count` segments, before
    /// the log is replayed; the index's documents count as what those segments hold
    /// (`open_segments` merges the segments itself).
    pub fn open(index: InvertedIndex, segment_count: usize, flush_threshold: usize) -> (r: Self)
        requires
            index.wf(),
        ensures
            r.wf(),
            r.live() == index,
            r.buffered().postings() == Map::<Seq<char>, Seq<PostingView>>::empty(),
            r.buffered().docs() == Map::<Seq<char>, DocumentView>::empty(),
            r.buffered().meta().total_docs == 0,
            r.buffered().consistent(),
            r.is_persistent(),
            r.threshold() == flush_threshold,
            r.unflushed() == 0,
            r.segments() == segment_count,
            r.pending_deletes() == Set::<Seq<char>>::empty(),
            r.written_segments() == seq![index.docs()],
            r.kept_log() == Seq::<LogEntry>::empty(),
    {
        assert(strings_view(Seq::<String>::empty()).to_set() =~= Set::<Seq<char>>::empty());
        let ghost segs = seq![index.docs()];
        proof {
            lemma_merged_one(index.docs());
            lemma_disk_open(index.docs(), segs);
        }
        let r = EngineState {
            index,
            buffered_index: InvertedIndex::new(),
            persistent: true,
            flush_threshold,
            unflushed_docs: 0,
            segment_count,
            deleted_ids: Vec::new(),
            disk_segments: Ghost(segs),
            disk_log: Ghost(Seq::empty()),
            logged_deletes: Ghost(Set::empty()),
        };
        assert(r.buffered_index.docs() == Map::<Seq<char>, DocumentView>::empty());
        r
    }

    /// A persistent engine over the segments `segments`, merged oldest first, before
    /// the log is replayed; `None` when the total length would leave 64 bits at some
    /// step of the merge.
    pub fn open_segments(segments: Vec<InvertedIndex>, flush_threshold: usize) -> (r: Option<Self>)
        requires
            forall|i: int| 0 <= i < segments@.len() ==> (#[trigger] segments@[i]).wf(),
        ensures
            r is Some <==> merges_fit(segments@),
            r matches Some(e) ==> {
                &&& e.wf()
                &&& e.live().docs() == merged_docs(docs_of(segments@))
                &&& e.live().counts_docs()
                &&& e.live().lengths_recorded()
                &&& e.live().lengths_summed()
                &&& (forall|i: int| 0 <= i < segments@.len() ==> (#[trigger] segments@[i]).ids_match())
                    ==> e.live().consistent()
                &&& (forall|i: int| 0 <= i < segments@.len() ==> (#[trigger] segments@[i]).postings_derived())
                    ==> e.live().postings_derived()
                &&& e.buffered().docs() == Map::<Seq<char>, DocumentView>::empty()
                &&& e.buffered().meta().total_docs == 0
                &&& e.is_persistent()
                &&& e.threshold() == flush_threshold
                &&& e.unflushed() == 0
                &&& e.segments() == segments@.len()
                &&& e.pending_deletes() == Set::<Seq<char>>::empty()
                &&& e.written_segments() == docs_of(segments@)
                &&& e.kept_log() == Seq::<LogEntry>::empty()
            },
    {
        let ghost segs = segments@;
        let n = segments.len();
        match merge_all(segments) {
            Some(index) => {
                assert(strings_view(Seq::<String>::empty()).to_set() =~= Set::<Seq<char>>::empty());
                proof {
                    lemma_disk_open(index.docs(), docs_of(segs));
                }
                let r = EngineState {
                    index,
                    buffered_index: InvertedIndex::new(),
                    persistent: true,
                    flush_threshold,
                    unflushed_docs: 0,
                    segment_count: n,
                    deleted_ids: Vec::new(),
                    disk_segments: Ghost(docs_of(segs)),
                    disk_log: Ghost(Seq::empty()),
                    logged_deletes: Ghost(Set::empty()),
                };
                assert(r.buffered_index.docs() == Map::<Seq<char>, DocumentView>::empty());
                Some(r)
            },
            None => None,
        }
    }

    /// Whether indexing this document keeps every count in range.
    pub fn can_add(&self, id: &str, title: &str, body: &str) -> (r: bool)
        requires
            self.wf(),
        ensures
            r == self.add_ok(id@, title@, body@),
    {
        if !self.index.can_add(id, title, body) {
            return false;
        }
        if self.persistent {
            self.buffered_index.can_add(id, title, body) && self.unflushed_docs < usize::MAX
        } else {
            true
        }
    }

    /// Whether deleting this document keeps every count in range.
    pub fn can_delete(&self, id: &str) -> (r: bool)
        requires
            self.wf(),
        ensures
            r == self.delete_ok(id@),
    {
        self.index.can_delete(id) && (!self.persistent || self.buffered_index.can_delete(id))
    }

    /// Index a document; for a persistent engine, also buffer it for the next segment.
    /// Returns whether a segment is now due: the threshold is set and reached.
    pub fn add_document(&mut self, id: &str, title: &str, body: &str) -> (flush_due: bool)
        requires
            old(self).wf(),
            old(self).add_ok(id@, title@, body@),
        ensures
            final(self).wf(),
            old(self).live().added(final(self).live(), id@, title@, body@),
            old(self).is_persistent() ==> old(self).buffered().added(final(self).buffered(), id@, title@, body@)
                && final(self).unflushed() == old(self).unflushed() + 1,
            !old(self).is_persistent() ==> final(self).buffered() == old(self).buffered()
                && final(self).unflushed() == old(self).unflushed(),
            final(self).is_persistent() == old(self).is_persistent(),
            final(self).threshold() == old(self).threshold(),
            final(self).segments() == old(self).segments(),
            flush_due == (final(self).is_persistent() && final(self).threshold() > 0
                && final(self).unflushed() >= final(self).threshold()),
            final(self).pending_deletes() == old(self).pending_deletes().remove(id@),
            final(self).written_segments() == old(self).written_segments(),
            final(self).kept_log() == old(self).kept_log().push(LogEntry::Add(id@, title@, body@)),
    {
        self.disk_log = Ghost(self.disk_log@.push(LogEntry::Add(id@, title@, body@)));
        self.logged_deletes = Ghost(self.logged_deletes@.remove(id@));
        remove_id(&mut self.deleted_ids, id);
        self.index.add_document(id, title, body);
        let due = if self.persistent {
            self.buffered_index.add_document(id, title, body);
            self.unflushed_docs = self.unflushed_docs + 1;
            self.flush_threshold > 0 && self.unflushed_docs >= self.flush_threshold
        } else {
            false
        };
        proof {
            if self.persistent {
                lemma_disk_add(
                    old(self).index.docs(),
                    old(self).disk_segments@,
                    old(self).buffered_index.docs(),
                    old(self).disk_log@,
                    old(self).logged_deletes@,
                    strings_view(old(self).deleted_ids@).to_set(),
                    id@,
                    title@,
                    body@,
                );
            }
        }
        due
    }

    /// Index a document if that keeps every count in range (`None` and no change
    /// otherwise); `Some` tells whether a segment is now due.
    pub fn try_add_document(&mut self, id: &str, title: &str, body: &str) -> (r: Option<bool>)
        requires
            old(self).wf(),
        ensures
            r is Some <==> old(self).add_ok(id@, title@, body@),
            r is None ==> *final(self) == *old(self),
            r matches Some(flush_due) ==> {
                &&& final(self).wf()
                &&& old(self).live().added(final(self).live(), id@, title@, body@)
                &&& old(self).is_persistent() ==> old(self).buffered().added(final(self).buffered(), id@, title@, body@)
                    && final(self).unflushed() == old(self).unflushed() + 1
                &&& !old(self).is_persistent() ==> final(self).buffered() == old(self).buffered()
                    && final(self).unflushed() == old(self).unflushed()
                &&& final(self).is_persistent() == old(self).is_persistent()
                &&& final(self).threshold() == old(self).threshold()
                &&& final(self).segments() == old(self).segments()
                &&& flush_due == (final(self).is_persistent() && final(self).threshold() > 0
                    && final(self).unflushed() >= final(self).threshold())
                &&& final(self).pending_deletes() == old(self).pending_deletes().remove(id@)
                &&& final(self).written_segments() == old(self).written_segments()
                &&& final(self).kept_log() == old(self).kept_log().push(LogEntry::Add(id@, title@, body@))
            },
    {
        if self.can_add(id, title, body) {
            Some(self.add_document(id, title, body))
        } else {
            None
        }
    }

    /// `after` is `self` with the record `rec` of the log applied to both indexes.
    pub open spec fn replays(&self, after: EngineState, rec: WalRecord) -> bool {
        &&& after.wf()
        &&& match rec {
            WalRecord::Add { id, title, body } => {
                &&& self.live().added(after.live(), id@, title@, body@)
                &&& self.buffered().added(after.buffered(), id@, title@, body@)
                &&& after.unflushed() == self.unflushed() + 1
                &&& after.pending_deletes() == self.pending_deletes().remove(id@)
            },
            WalRecord::Delete { id } => {
                &&& self.live().deleted(after.live(), id@)
                &&& self.buffered().deleted(after.buffered(), id@)
                &&& after.unflushed() == self.unflushed()
                &&& after.pending_deletes() == self.pending_deletes().insert(id@)
            },
        }
        &&& after.is_persistent() == self.is_persistent()
        &&& after.threshold() == self.threshold()
        &&& after.segments() == self.segments()
        &&& after.written_segments() == self.written_segments()
        &&& after.kept_log() == self.kept_log().push(record_view(rec))
    }

    /// Apply a record of the write-ahead log if that keeps every count in range;
    /// otherwise leave the state as it is. Returns whether the record was applied.
    pub fn try_replay(&mut self, rec: &WalRecord) -> (r: bool)
        requires
            old(self).wf(),
        ensures
            r == old(self).replay_ok(*rec),
            !r ==> *final(self) == *old(self),
            r ==> old(self).replays(*final(self), *rec),
            r ==> final(self).wf() && match *rec {
                WalRecord::Add { id, title, body } => {
                    &&& old(self).live().added(final(self).live(), id@, title@, body@)
                    &&& old(self).buffered().added(final(self).buffered(), id@, title@, body@)
                    &&& final(self).unflushed() == old(self).unflushed() + 1
                    &&& final(self).pending_deletes() == old(self).pending_deletes().remove(id@)
                },
                WalRecord::Delete { id } => {
                    &&& old(self).live().deleted(final(self).live(), id@)
                    &&& old(self).buffered().deleted(final(self).buffered(), id@)
                    &&& final(self).unflushed() == old(self).unflushed()
                    &&& final(self).pending_deletes() == old(self).pending_deletes().insert(id@)
                },
            },
            r ==> final(self).is_persistent() == old(self).is_persistent() && final(self).threshold()
                == old(self).threshold() && final(self).segments() == old(self).segments(),
    {
        let ok = match rec {
            WalRecord::Add { id, title, body } => {
                self.index.can_add(id.as_str(), title.as_str(), body.as_str())
                    && self.buffered_index.can_add(id.as_str(), title.as_str(), body.as_str())
                    && self.unflushed_docs < usize::MAX
            },
            WalRecord::Delete { id } => self.index.can_delete(id.as_str()) && self.buffered_index.can_delete(
                id.as_str(),
            ),
        };
        if ok {
            self.replay(rec);
        }
        ok
    }

    /// Replay the records `records` of the log in order, as reopening does, each while
    /// that keeps every count in range; returns how many were applied. Fewer than all
    /// means that the next one would overflow a count.
    pub fn replay_all(&mut self, records: &Vec<WalRecord>) -> (applied: usize)
        requires
            old(self).wf(),
        ensures
            final(self).wf(),
            applied <= records@.len(),
            applied < records@.len() ==> !final(self).replay_ok(records@[applied as int]),
            final(self).live().docs() == replay_docs(
                old(self).live().docs(),
                records@.map_values(|r: WalRecord| record_view(r)).take(applied as int),
            ),
            final(self).kept_log() == old(self).kept_log() + records@.map_values(|r: WalRecord| record_view(r)).take(
                applied as int,
            ),
            final(self).written_segments() == old(self).written_segments(),
            final(self).is_persistent() == old(self).is_persistent(),
            final(self).threshold() == old(self).threshold(),
            final(self).segments() == old(self).segments(),
            old(self).live().consistent() ==> final(self).live().consistent(),
            old(self).live().postings_derived() ==> final(self).live().postings_derived(),
            old(self).live().lengths_recorded() ==> final(self).live().lengths_recorded(),
            old(self).live().lengths_recorded() && old(self).live().lengths_summed() ==> final(self).live().lengths_summed(),
    {
        let ghost rv = records@.map_values(|r: WalRecord| record_view(r));
        let ghost d0 = old(self).live().docs();
        let ghost l0 = old(self).kept_log();
        let mut i: usize = 0;
        proof {
            assert(rv.take(0) =~= Seq::<LogEntry>::empty());
            assert(l0 + rv.take(0) =~= l0);
        }
        while i < records.len()
            invariant
                rv == records@.map_values(|r: WalRecord| record_view(r)),
                d0 == old(self).live().docs(),
                l0 == old(self).kept_log(),
                0 <= i <= records@.len(),
                self.wf(),
                self.live().docs() == replay_docs(d0, rv.take(i as int)),
                self.kept_log() == l0 + rv.take(i as int),
                self.written_segments() == old(self).written_segments(),
                self.is_persistent() == old(self).is_persistent(),
                self.threshold() == old(self).threshold(),
                self.segments() == old(self).segments(),
                old(self).live().consistent() ==> self.live().consistent(),
                old(self).live().postings_derived() ==> self.live().postings_derived(),
                old(self).live().lengths_recorded() ==> self.live().lengths_recorded(),
                old(self).live().lengths_recorded() && old(self).live().lengths_summed() ==> self.live().lengths_summed(),
            decreases records@.len() - i,
        {
            if !self.try_replay(&records[i]) {
                return i;
            }
            proof {
                assert(rv.take(i + 1).drop_last() =~= rv.take(i as int));
                assert(rv.take(i + 1).last() == record_view(records@[i as int]));
                assert(l0 + rv.take(i + 1) =~= (l0 + rv.take(i as int)).push(record_view(records@[i as int])));
            }
            i = i + 1;
        }
        i
    }

    /// Delete a document by ID. Returns `true` if the document existed.
    pub fn delete_document(&mut self, id: &str) -> (deleted: bool)
        requires
            old(self).wf(),
            old(self).delete_ok(id@),
        ensures
            final(self).wf(),
            deleted == old(self).live().docs().contains_key(id@),
            old(self).live().deleted(final(self).live(), id@),
            old(self).is_persistent() ==> old(self).buffered().deleted(final(self).buffered(), id@),
            !old(self).is_persistent() ==> final(self).buffered() == old(self).buffered(),
            final(self).is_persistent() == old(self).is_persistent(),
            final(self).threshold() == old(self).threshold(),
            final(self).unflushed() == old(self).unflushed(),
            final(self).segments() == old(self).segments(),
            old(self).is_persistent() ==> final(self).pending_deletes() == old(self).pending_deletes().insert(id@),
            !old(self).is_persistent() ==> final(self).pending_deletes() == old(self).pending_deletes(),
    {
        self.disk_log = Ghost(self.disk_log@.push(LogEntry::Delete(id@)));
        self.logged_deletes = Ghost(self.logged_deletes@.insert(id@));
        if self.persistent {
            self.buffered_index.delete_document(id);
            add_id(&mut self.deleted_ids, id);
        }
        let deleted = self.index.delete_document(id);
        proof {
            if self.persistent {
                lemma_disk_delete(
                    old(self).index.docs(),
                    old(self).disk_segments@,
                    old(self).buffered_index.docs(),
                    old(self).disk_log@,
                    old(self).logged_deletes@,
                    strings_view(old(self).deleted_ids@).to_set(),
                    id@,
                );
            }
        }
        deleted
    }

    /// Apply a record of the write-ahead log to both indexes.
    pub fn replay(&mut self, rec: &WalRecord)
        requires
            old(self).wf(),
            old(self).replay_ok(*rec),
        ensures
            final(self).wf(),
            match *rec {
                WalRecord::Add { id, title, body } => {
                    &&& old(self).live().added(final(self).live(), id@, title@, body@)
                    &&& old(self).buffered().added(final(self).buffered(), id@, title@, body@)
                    &&& final(self).unflushed() == old(self).unflushed() + 1
                    &&& final(self).pending_deletes() == old(self).pending_deletes().remove(id@)
                },
                WalRecord::Delete { id } => {
                    &&& old(self).live().deleted(final(self).live(), id@)
                    &&& old(self).buffered().deleted(final(self).buffered(), id@)
                    &&& final(self).unflushed() == old(self).unflushed()
                    &&& final(self).pending_deletes() == old(self).pending_deletes().insert(id@)
                },
            },
            final(self).is_persistent() == old(self).is_persistent(),
            final(self).threshold() == old(self).threshold(),
            final(self).segments() == old(self).segments(),
            final(self).written_segments() == old(self).written_segments(),
            final(self).kept_log() == old(self).kept_log().push(record_view(*rec)),
    {
        self.disk_log = Ghost(self.disk_log@.push(record_view(*rec)));
        match rec {
            WalRecord::Add { id, title, body } => {
                self.logged_deletes = Ghost(self.logged_deletes@.remove(id@));
                remove_id(&mut self.deleted_ids, id.as_str());
                self.index.add_document(id.as_str(), title.as_str(), body.as_str());
                self.buffered_index.add_document(id.as_str(), title.as_str(), body.as_str());
                self.unflushed_docs = self.unflushed_docs + 1;
                proof {
                    if self.persistent {
                        lemma_disk_add(
                            old(self).index.docs(),
                            old(self).disk_segments@,
                            old(self).buffered_index.docs(),
                            old(self).disk_log@,
                            old(self).logged_deletes@,
                            strings_view(old(self).deleted_ids@).to_set(),
                            id@,
                            title@,
                            body@,
                        );
                    }
                }
            },
            WalRecord::Delete { id } => {
                self.logged_deletes = Ghost(self.logged_deletes@.insert(id@));
                add_id(&mut self.deleted_ids, id.as_str());
                self.index.delete_document(id.as_str());
                self.buffered_index.delete_document(id.as_str());
                proof {
                    if self.persistent {
                        lemma_disk_delete(
                            old(self).index.docs(),
                            old(self).disk_segments@,
                            old(self).buffered_index.docs(),
                            old(self).disk_log@,
                            old(self).logged_deletes@,
                            strings_view(old(self).deleted_ids@).to_set(),
                            id@,
                        );
                    }
                }
            },
        }
    }

    /// The buffered documents to write as a new segment: none for an in-memory engine
    /// or an empty buffer.
    pub fn pending_segment(&self) -> (r: Option<&InvertedIndex>)
        ensures
            r is Some <==> self.is_persistent() && self.buffered().meta().total_docs != 0,
            r matches Some(b) ==> *b == self.buffered(),
    {
        if self.persistent && self.buffered_index.doc_count() != 0 {
            Some(&self.buffered_index)
        } else {
            None
        }
    }

    /// Record that the buffered documents were written as a new segment and the log
    /// truncated: the buffer starts empty again.
    pub fn segment_flushed(&mut self)
        requires
            old(self).wf(),
            old(self).segments() < usize::MAX,
        ensures
            final(self).wf(),
            final(self).live() == old(self).live(),
            final(self).buffered().postings() == Map::<Seq<char>, Seq<PostingView>>::empty(),
            final(self).buffered().docs() == Map::<Seq<char>, DocumentView>::empty(),
            final(self).buffered().meta().total_docs == 0,
            final(self).buffered().consistent(),
            final(self).unflushed() == 0,
            final(self).segments() == old(self).segments() + 1,
            final(self).is_persistent() == old(self).is_persistent(),
            final(self).threshold() == old(self).threshold(),
            final(self).pending_deletes() == old(self).pending_deletes(),
            final(self).written_segments() == old(self).written_segments().push(old(self).buffered().docs()),
            final(self).kept_log() == old(self).flush_log(),
    {
        self.disk_segments = Ghost(self.disk_segments@.push(self.buffered_index.docs()));
        self.disk_log = Ghost(delete_entries(strings_view(self.deleted_ids@)));
        self.logged_deletes = Ghost(strings_view(self.deleted_ids@).to_set());
        self.buffered_index = InvertedIndex::new();
        self.unflushed_docs = 0;
        self.segment_count = self.segment_count + 1;
        proof {
            if self.persistent {
                lemma_disk_flush(
                    old(self).index.docs(),
                    old(self).disk_segments@,
                    old(self).buffered_index.docs(),
                    old(self).disk_log@,
                    old(self).logged_deletes@,
                    strings_view(old(self).deleted_ids@).to_set(),
                    strings_view(old(self).deleted_ids@),
                );
                assert(self.buffered_index.docs() == Map::<Seq<char>, DocumentView>::empty());
            }
        }
    }

    /// Record that all segments were merged into one, with the pending deletions taken
    /// out of it (see `compact_segments`): no deletion is pending any more.
    pub fn compacted(&mut self)
        requires
            old(self).wf(),
        ensures
            final(self).wf(),
            final(self).live() == old(self).live(),
            final(self).buffered() == old(self).buffered(),
            final(self).unflushed() == old(self).unflushed(),
            final(self).segments() == 1,
            final(self).pending_deletes() == Set::<Seq<char>>::empty(),
            final(self).is_persistent() == old(self).is_persistent(),
            final(self).threshold() == old(self).threshold(),
            final(self).written_segments() == seq![
                merged_docs(old(self).written_segments()).remove_keys(old(self).pending_deletes()),
            ],
            final(self).kept_log() == old(self).kept_log(),
    {
        self.disk_segments = Ghost(
            Seq::empty().push(merged_docs(self.disk_segments@).remove_keys(strings_view(self.deleted_ids@).to_set())),
        );
        self.segment_count = 1;
        self.deleted_ids = Vec::new();
        assert(strings_view(self.deleted_ids@).to_set() =~= Set::<Seq<char>>::empty());
        proof {
            if self.persistent {
                lemma_disk_compact(
                    old(self).index.docs(),
                    old(self).disk_segments@,
                    old(self).buffered_index.docs(),
                    old(self).disk_log@,
                    old(self).logged_deletes@,
                    strings_view(old(self).deleted_ids@).to_set(),
                );
            }
        }
    }

    /// The segments `segments` merged oldest first into one, without the documents
    /// whose deletions are pending, as compaction writes it; `None` when the total
    /// length would leave 64 bits at some step of the merge.
    pub fn compacted_index(&self, segments: Vec<InvertedIndex>) -> (r: Option<InvertedIndex>)
        requires
            forall|i: int| 0 <= i < segments@.len() ==> (#[trigger] segments@[i]).wf(),
        ensures
            r is Some <==> merges_fit(segments@),
            r matches Some(x) ==> {
                &&& x.wf()
                &&& x.docs() == merged_docs(docs_of(segments@)).remove_keys(self.pending_deletes())
                &&& x.counts_docs()
                &&& x.lengths_recorded()
                &&& x.lengths_summed()
                &&& (forall|i: int| 0 <= i < segments@.len() ==> (#[trigger] segments@[i]).ids_match())
                    ==> x.consistent()
                &&& (forall|i: int| 0 <= i < segments@.len() ==> (#[trigger] segments@[i]).postings_derived())
                    ==> x.postings_derived()
            },
    {
        compact_segments(segments, &self.deleted_ids)
    }

    /// The records that the log holds once truncated at a flush: a deletion of each
    /// document whose deletion is pending.
    pub fn log_after_flush(&self) -> (r: Vec<WalRecord>)
        ensures
            r@.map_values(|x: WalRecord| record_view(x)) == self.flush_log(),
    {
        let ghost ids = strings_view(self.deleted_ids@);
        let mut r: Vec<WalRecord> = Vec::new();
        let mut i: usize = 0;
        while i < self.deleted_ids.len()
            invariant
                ids == strings_view(self.deleted_ids@),
                0 <= i <= self.deleted_ids@.len(),
                r@.map_values(|x: WalRecord| record_view(x)) == delete_entries(ids.take(i as int)),
            decreases self.deleted_ids@.len() - i,
        {
            let ghost before = r@;
            let rec = WalRecord::Delete { id: self.deleted_ids[i].clone() };
            assert(record_view(rec) == LogEntry::Delete(ids[i as int]));
            r.push(rec);
            proof {
                assert(r@ == before.push(rec));
                assert(ids.take(i + 1) =~= ids.take(i as int).push(ids[i as int]));
                assert(r@.map_values(|x: WalRecord| record_view(x)) =~= before.map_values(|x: WalRecord| record_view(x)).push(
                    record_view(rec),
                ));
                assert(delete_entries(ids.take(i + 1)) =~= delete_entries(ids.take(i as int)).push(
                    LogEntry::Delete(ids[i as int]),
                ));
            }
            i = i + 1;
        }
        assert(ids.take(self.deleted_ids@.len() as int) =~= ids);
        r
    }

    /// The candidate documents of a query against the live index, and the terms to
    /// score them with.
    pub fn search_candidates(&self, query: &str) -> (r: (Vec<String>, Vec<String>))
        requires
            self.wf(),
        ensures
            lists(r.0@, plan_ids(self.live().postings(), self.live().terms(), query_mode(query@))),
            strings_view(r.1@) == plan_terms(self.live().terms(), query_mode(query@)),
    {
        search_candidates(&self.index, query)
    }

    /// The ids whose deletions the log must keep when it is truncated.
    pub fn pending_delete_ids(&self) -> (r: &Vec<String>)
        ensures
            strings_view(r@).to_set() == self.pending_deletes(),
    {
        &self.deleted_ids
    }

    /// The live index.
    pub fn index(&self) -> (r: &InvertedIndex)
        ensures
            *r == self.live(),
    {
        &self.index
    }

    /// Retrieve a document by its ID.
    pub fn get_document(&self, id: &str) -> (r: Option<&Document>)
        requires
            self.wf(),
        ensures
            r is Some <==> self.live().docs().contains_key(id@),
            r matches Some(d) ==> d.deep_view() == self.live().docs()[id@],
    {
        self.index.get_document(id)
    }

    /// Return the total number of indexed documents.
    pub fn doc_count(&self) -> (n: u64)
        ensures
            n == self.live().meta().total_docs,
    {
        self.index.doc_count()
    }

    /// Return the number of committed segment files on disk.
    pub fn segment_count(&self) -> (n: usize)
        ensures
            n == self.segments(),
    {
        self.segment_count
    }

    /// Whether the engine writes segments and keeps a log.
    pub fn persistent(&self) -> (r: bool)
        ensures
            r == self.is_persistent(),
    {
        self.persistent
    }
}

/// What a record of the log says: index a document under an id with a title and body,
/// or delete the document with an id.
pub enum LogEntry {
    Add(Seq<char>, Seq<char>, Seq<char>),
    Delete(Seq<char>),
}

/// What the log record `r` says.
pub open spec fn record_view(r: WalRecord) -> LogEntry {
    match r {
        WalRecord::Add { id, title, body } => LogEntry::Add(id@, title@, body@),
        WalRecord::Delete { id } => LogEntry::Delete(id@),
    }
}

/// The log records that delete the documents `ids`, in order.
pub open spec fn delete_entries(ids: Seq<Seq<char>>) -> Seq<LogEntry> {
    ids.map_values(|id: Seq<char>| LogEntry::Delete(id))
}

/// The documents that replaying the log `log`, in order, leaves of `docs`.
pub open spec fn replay_docs(docs: Map<Seq<char>, DocumentView>, log: Seq<LogEntry>) -> Map<Seq<char>, DocumentView>
    decreases log.len(),
{
    if log.len() == 0 {
        docs
    } else {
        let d = replay_docs(docs, log.drop_last());
        match log.last() {
            LogEntry::Add(id, title, body) => d.insert(id, document_view(id, title, body)),
            LogEntry::Delete(id) => d.remove(id),
        }
    }
}

/// Replaying deletions of the documents `ids` takes them out.
proof fn lemma_replay_deletes(x: Map<Seq<char>, DocumentView>, ids: Seq<Seq<char>>)
    ensures
        replay_docs(x, delete_entries(ids)) == x.remove_keys(ids.to_set()),
    decreases ids.len(),
{
    if ids.len() == 0 {
        assert(ids.to_set() =~= Set::<Seq<char>>::empty());
        assert(x.remove_keys(ids.to_set()) =~= x);
    } else {
        let i0 = ids.drop_last();
        lemma_replay_deletes(x, i0);
        assert(delete_entries(ids).drop_last() =~= delete_entries(i0));
        assert(ids =~= i0.push(ids.last()));
        i0.lemma_push_to_set_commute(ids.last());
        assert(x.remove_keys(ids.to_set()) =~= x.remove_keys(i0.to_set()).remove(ids.last()));
    }
}

/// What the engine has written and logged accounts for its live documents `d`: the
/// segments `s`, the buffered documents `b` not yet written, the log `l`, the ids `q`
/// whose last record in the log is a deletion, and the pending deletions `p`. Replaying
/// the log over any documents adds the buffer and takes out `q`; the live documents are
/// the segments with the buffer added and `q` taken out; the buffer holds no id of `q`;
/// `p` lies within `q`; and no segment holds an id of `q` that is not pending.
pub open spec fn disk_accounts(
    d: Map<Seq<char>, DocumentView>,
    s: Seq<Map<Seq<char>, DocumentView>>,
    b: Map<Seq<char>, DocumentView>,
    l: Seq<LogEntry>,
    q: Set<Seq<char>>,
    p: Set<Seq<char>>,
) -> bool {
    &&& forall|x: Map<Seq<char>, DocumentView>| #[trigger] replay_docs(x, l) == x.union_prefer_right(b).remove_keys(q)
    &&& d == merged_docs(s).union_prefer_right(b).remove_keys(q)
    &&& forall|k: Seq<char>| b.contains_key(k) ==> !q.contains(k)
    &&& p.subset_of(q)
    &&& forall|k: Seq<char>| q.contains(k) && !p.contains(k) ==> !merged_docs(s).contains_key(k)
}

/// The documents of a single segment are its own.
proof fn lemma_merged_one(d: Map<Seq<char>, DocumentView>)
    ensures
        merged_docs(seq![d]) == d,
{
    let s = seq![d];
    assert(s.drop_last() =~= Seq::<Map<Seq<char>, DocumentView>>::empty());
    assert(merged_docs(s.drop_last()) == Map::<Seq<char>, DocumentView>::empty());
    assert(s.last() == d);
    assert(merged_docs(s) =~= d);
}

/// An engine opened over segments whose merged documents are `d` has them all, with an
/// empty log.
proof fn lemma_disk_open(d: Map<Seq<char>, DocumentView>, s: Seq<Map<Seq<char>, DocumentView>>)
    requires
        d == merged_docs(s),
    ensures
        disk_accounts(d, s, Map::empty(), seq![], Set::empty(), Set::empty()),
{
    assert forall|x: Map<Seq<char>, DocumentView>| #[trigger] replay_docs(x, seq![]) == x.union_prefer_right(
        Map::empty(),
    ).remove_keys(Set::empty()) by {
        assert(x.union_prefer_right(Map::empty()).remove_keys(Set::empty()) =~= x);
    }
    assert(d =~= merged_docs(s).union_prefer_right(Map::empty()).remove_keys(Set::empty()));
}

/// Logging and indexing a document keeps the account.
proof fn lemma_disk_add(
    d: Map<Seq<char>, DocumentView>,
    s: Seq<Map<Seq<char>, DocumentView>>,
    b: Map<Seq<char>, DocumentView>,
    l: Seq<LogEntry>,
    q: Set<Seq<char>>,
    p: Set<Seq<char>>,
    id: Seq<char>,
    title: Seq<char>,
    body: Seq<char>,
)
    requires
        disk_accounts(d, s, b, l, q, p),
    ensures
        disk_accounts(
            d.insert(id, document_view(id, title, body)),
            s,
            b.insert(id, document_view(id, title, body)),
            l.push(LogEntry::Add(id, title, body)),
            q.remove(id),
            p.remove(id),
        ),
{
    let dv = document_view(id, title, body);
    let l2 = l.push(LogEntry::Add(id, title, body));
    assert forall|x: Map<Seq<char>, DocumentView>| #[trigger] replay_docs(x, l2) == x.union_prefer_right(
        b.insert(id, dv),
    ).remove_keys(q.remove(id)) by {
        assert(l2.drop_last() =~= l);
        assert(replay_docs(x, l) == x.union_prefer_right(b).remove_keys(q));
        assert(x.union_prefer_right(b.insert(id, dv)).remove_keys(q.remove(id)) =~= x.union_prefer_right(b).remove_keys(
            q,
        ).insert(id, dv));
    }
    assert(d.insert(id, dv) =~= merged_docs(s).union_prefer_right(b.insert(id, dv)).remove_keys(q.remove(id)));
}

/// Logging and applying a deletion keeps the account.
proof fn lemma_disk_delete(
    d: Map<Seq<char>, DocumentView>,
    s: Seq<Map<Seq<char>, DocumentView>>,
    b: Map<Seq<char>, DocumentView>,
    l: Seq<LogEntry>,
    q: Set<Seq<char>>,
    p: Set<Seq<char>>,
    id: Seq<char>,
)
    requires
        disk_accounts(d, s, b, l, q, p),
    ensures
        disk_accounts(d.remove(id), s, b.remove(id), l.push(LogEntry::Delete(id)), q.insert(id), p.insert(id)),
{
    let l2 = l.push(LogEntry::Delete(id));
    assert forall|x: Map<Seq<char>, DocumentView>| #[trigger] replay_docs(x, l2) == x.union_prefer_right(
        b.remove(id),
    ).remove_keys(q.insert(id)) by {
        assert(l2.drop_last() =~= l);
        assert(replay_docs(x, l) == x.union_prefer_right(b).remove_keys(q));
        assert(x.union_prefer_right(b.remove(id)).remove_keys(q.insert(id)) =~= x.union_prefer_right(b).remove_keys(
            q,
        ).remove(id));
    }
    assert(d.remove(id) =~= merged_docs(s).union_prefer_right(b.remove(id)).remove_keys(q.insert(id)));
}

/// Writing the buffer as a segment and truncating the log to the pending deletions
/// `ids` keeps the account.
proof fn lemma_disk_flush(
    d: Map<Seq<char>, DocumentView>,
    s: Seq<Map<Seq<char>, DocumentView>>,
    b: Map<Seq<char>, DocumentView>,
    l: Seq<LogEntry>,
    q: Set<Seq<char>>,
    p: Set<Seq<char>>,
    ids: Seq<Seq<char>>,
)
    requires
        disk_accounts(d, s, b, l, q, p),
        ids.to_set() == p,
    ensures
        disk_accounts(d, s.push(b), Map::empty(), delete_entries(ids), p, p),
{
    let s2 = s.push(b);
    assert(s2.drop_last() =~= s);
    assert(merged_docs(s2) == merged_docs(s).union_prefer_right(b));
    assert forall|x: Map<Seq<char>, DocumentView>| #[trigger] replay_docs(x, delete_entries(ids)) == x.union_prefer_right(
        Map::empty(),
    ).remove_keys(p) by {
        lemma_replay_deletes(x, ids);
        assert(x.union_prefer_right(Map::empty()) =~= x);
    }
    assert(d =~= merged_docs(s2).union_prefer_right(Map::empty()).remove_keys(p));
}

/// Merging the segments into one without the pending deletions, which no longer pend,
/// keeps the account.
proof fn lemma_disk_compact(
    d: Map<Seq<char>, DocumentView>,
    s: Seq<Map<Seq<char>, DocumentView>>,
    b: Map<Seq<char>, DocumentView>,
    l: Seq<LogEntry>,
    q: Set<Seq<char>>,
    p: Set<Seq<char>>,
)
    requires
        disk_accounts(d, s, b, l, q, p),
    ensures
        disk_accounts(d, seq![merged_docs(s).remove_keys(p)], b, l, q, Set::empty()),
{
    let c = merged_docs(s).remove_keys(p);
    let s2 = seq![c];
    lemma_merged_one(c);
    assert(d =~= merged_docs(s2).union_prefer_right(b).remove_keys(q));
}

/// An engine whose writes account for it gives back its documents from what it wrote.
proof fn lemma_disk_restores(
    d: Map<Seq<char>, DocumentView>,
    s: Seq<Map<Seq<char>, DocumentView>>,
    b: Map<Seq<char>, DocumentView>,
    l: Seq<LogEntry>,
    q: Set<Seq<char>>,
    p: Set<Seq<char>>,
)
    requires
        disk_accounts(d, s, b, l, q, p),
    ensures
        d == replay_docs(merged_docs(s), l),
{
    assert(replay_docs(merged_docs(s), l) == merged_docs(s).union_prefer_right(b).remove_keys(q));
}

/// Replaying the first `k` records applies them to the live documents, and keeps the
/// live index's invariants where the first state has them.
proof fn lemma_recovery_prefix(docs: Map<Seq<char>, DocumentView>, log: Seq<WalRecord>, states: Seq<EngineState>, k: int)
    requires
        states.len() == log.len() + 1,
        states[0].live().docs() == docs,
        forall|i: int| #![trigger states[i]] 0 <= i < log.len() ==> states[i].replays(states[i + 1], log[i]),
        0 <= k <= log.len(),
    ensures
        states[k].live().docs() == replay_docs(docs, log.map_values(|r: WalRecord| record_view(r)).take(k)),
        states[0].live().consistent() ==> states[k].live().consistent(),
        states[0].live().postings_derived() ==> states[k].live().postings_derived(),
        states[0].live().lengths_recorded() ==> states[k].live().lengths_recorded(),
        states[0].live().lengths_recorded() && states[0].live().lengths_summed() ==> states[k].live().lengths_summed(),
    decreases k,
{
    let lv = log.map_values(|r: WalRecord| record_view(r));
    if k == 0 {
        assert(lv.take(0) =~= Seq::<LogEntry>::empty());
    } else {
        lemma_recovery_prefix(docs, log, states, k - 1);
        assert(states[k - 1].replays(states[k], log[k - 1]));
        assert(lv.take(k).drop_last() =~= lv.take(k - 1));
        assert(lv.take(k).last() == record_view(log[k - 1]));
    }
}

/// Reopening gives the merged segments with the log replayed: an engine opened over
/// the segments merged in order (see `merge_all`), with the log then replayed record by
/// record, holds the documents of the merged segments with the log applied to them,
/// and its live index keeps each invariant that the merged index has.
pub proof fn lemma_recovery(segments: Seq<InvertedIndex>, log: Seq<WalRecord>, states: Seq<EngineState>)
    requires
        states.len() == log.len() + 1,
        states[0].live().docs() == merged_docs(docs_of(segments)),
        forall|i: int| #![trigger states[i]] 0 <= i < log.len() ==> states[i].replays(states[i + 1], log[i]),
    ensures
        states.last().live().docs() == replay_docs(
            merged_docs(docs_of(segments)),
            log.map_values(|r: WalRecord| record_view(r)),
        ),
        states[0].live().consistent() ==> states.last().live().consistent(),
        states[0].live().postings_derived() ==> states.last().live().postings_derived(),
        states[0].live().lengths_recorded() ==> states.last().live().lengths_recorded(),
        states[0].live().lengths_recorded() && states[0].live().lengths_summed() ==> states.last().live().lengths_summed(),
{
    lemma_recovery_prefix(merged_docs(docs_of(segments)), log, states, log.len() as int);
    assert(log.map_values(|r: WalRecord| record_view(r)).take(log.len() as int) =~= log.map_values(
        |r: WalRecord| record_view(r),
    ));
}

/// Reopening restores what was acknowledged: when a persistent engine `before` stops,
/// an engine opened over the segments it wrote, merged in order, with the log it kept
/// then replayed record by record, has exactly the documents that `before` had.
pub proof fn lemma_reopen_restores(
    before: EngineState,
    segments: Seq<InvertedIndex>,
    log: Seq<WalRecord>,
    states: Seq<EngineState>,
)
    requires
        before.wf(),
        before.is_persistent(),
        docs_of(segments) == before.written_segments(),
        log.map_values(|r: WalRecord| record_view(r)) == before.kept_log(),
        states.len() == log.len() + 1,
        states[0].live().docs() == merged_docs(docs_of(segments)),
        forall|i: int| #![trigger states[i]] 0 <= i < log.len() ==> states[i].replays(states[i + 1], log[i]),
    ensures
        states.last().live().docs() == before.live().docs(),
{
    lemma_recovery(segments, log, states);
    before.lemma_restores();
}

/// In document `id`, the `k`-th position of the first of `terms` is followed by the
/// second term at the next position, the third at the one after, and so on.
pub open spec fn terms_follow(m: Map<Seq<char>, Seq<PostingView>>, terms: Seq<Seq<char>>, id: Seq<char>, k: int) -> bool {
    forall|i: int| 1 <= i < terms.len() ==> #[trigger] term_at_offset(m, terms, id, k, i)
}

/// In document `id`, the term `terms[i]` occurs `i` positions after the `k`-th position
/// of the first term.
pub open spec fn term_at_offset(m: Map<Seq<char>, Seq<PostingView>>, terms: Seq<Seq<char>>, id: Seq<char>, k: int, i: int) -> bool {
    exists|q: int|
        0 <= q < doc_positions(m, terms[i], id).len() && #[trigger] doc_positions(m, terms[i], id)[q]
            == doc_positions(m, terms[0], id)[k] + i
}

/// A phrase match may start at any occurrence of the first term: a document that has
/// every term of a phrase of two or more, and in which some position of the first term
/// is followed by each next term at the next positions, matches the phrase.
pub proof fn lemma_phrase_any_start(m: Map<Seq<char>, Seq<PostingView>>, terms: Seq<Seq<char>>, id: Seq<char>, k: int)
    requires
        terms.len() >= 2,
        forall|j: int| 0 <= j < terms.len() ==> #[trigger] m.contains_key(terms[j]) && term_ids(m, terms[j]).contains(id),
        0 <= k < doc_positions(m, terms[0], id).len(),
        terms_follow(m, terms, id, k),
    ensures
        phrase_ids(m, terms).contains(id),
{
    assert forall|i: int| 1 <= i < terms.len() implies #[trigger] has_position(
        doc_positions(m, terms[i], id),
        doc_positions(m, terms[0], id)[k] + i,
    ) by {
        assert(term_at_offset(m, terms, id, k, i));
        let q = choose|q: int|
            0 <= q < doc_positions(m, terms[i], id).len() && #[trigger] doc_positions(m, terms[i], id)[q]
                == doc_positions(m, terms[0], id)[k] + i;
    }
    assert(phrase_run(m, terms, id, k));
    assert(and_ids(m, terms).contains(id));
    assert(!exists|j: int| 0 <= j < terms.len() && !m.contains_key(#[trigger] terms[j]));
}

/// Only such documents match a phrase of two or more terms: a matching document has
/// every term, and some position of the first term is followed by each next term at
/// the next positions.
pub proof fn lemma_phrase_match_has_run(m: Map<Seq<char>, Seq<PostingView>>, terms: Seq<Seq<char>>, id: Seq<char>)
    requires
        terms.len() >= 2,
        phrase_ids(m, terms).contains(id),
    ensures
        forall|j: int| 0 <= j < terms.len() ==> #[trigger] term_ids(m, terms[j]).contains(id),
        exists|k: int| 0 <= k < doc_positions(m, terms[0], id).len() && #[trigger] terms_follow(m, terms, id, k),
{
    assert(!exists|j: int| 0 <= j < terms.len() && !m.contains_key(#[trigger] terms[j]));
    assert(phrase_at(m, terms, id));
    let k = choose|k: int| 0 <= k < doc_positions(m, terms[0], id).len() && #[trigger] phrase_run(m, terms, id, k);
    assert forall|i: int| 1 <= i < terms.len() implies #[trigger] term_at_offset(m, terms, id, k, i) by {
        let ps = doc_positions(m, terms[i], id);
        assert(has_position(ps, doc_positions(m, terms[0], id)[k] + i));
        let q = choose|q: int| 0 <= q < ps.len() && ps[q] as int == doc_positions(m, terms[0], id)[k] + i;
        assert(0 <= q < doc_positions(m, terms[i], id).len() && doc_positions(m, terms[i], id)[q]
            == doc_positions(m, terms[0], id)[k] + i);
    }
    assert(terms_follow(m, terms, id, k));
}

/// `s` holds no `c`.
proof fn lemma_last_index_absent(s: Seq<char>, c: char)
    requires
        forall|i: int| 0 <= i < s.len() ==> s[i] != c,
    ensures
        last_index_of(s, c) == -1,
    decreases s.len(),
{
    if s.len() > 0 {
        lemma_last_index_absent(s.drop_last(), c);
    }
}

/// Only the uppercase word `OR` makes a plain query an `OR` query: a plain query
/// (trimmed, not quoted, not ending in `*`, without `~`) in which each `OR` stands
/// inside a longer word, such as `salt or pepper` or `ORANGE`, asks for all of its
/// tokens.
pub proof fn lemma_lowercase_or_is_a_term(q: Seq<char>)
    requires
        trim(q).len() > 0,
        trim(q)[0] != '"',
        trim(q).last() != '*',
        forall|i: int| 0 <= i < trim(q).len() ==> trim(q)[i] != '~',
        forall|i: int|
            0 <= i && i + 2 <= trim(q).len() && #[trigger] trim(q)[i] == 'O' && trim(q)[i + 1] == 'R' ==> (i > 0
                && !spec_is_whitespace(trim(q)[i - 1])) || (i + 2 < trim(q).len() && !spec_is_whitespace(
                trim(q)[i + 2],
            )),
    ensures
        query_mode(q) == QueryModeView::Standard(tokens(trim(q)), false),
{
    let t = trim(q);
    lemma_last_index_absent(t, '~');
    assert(!has_or_word(t)) by {
        if has_or_word(t) {
            let i = choose|i: int| #[trigger] or_word_at(t, i);
            assert(t[i] == 'O');
        }
    }
}

/// The uppercase word `OR` makes a plain query an `OR` query: a plain query (trimmed,
/// not quoted, not ending in `*`, without `~`) with `OR` standing as a word between
/// whitespace asks for any of its terms.
pub proof fn lemma_or_word_makes_or_query(q: Seq<char>, i: int)
    requires
        trim(q).len() > 0,
        trim(q)[0] != '"',
        trim(q).last() != '*',
        forall|j: int| 0 <= j < trim(q).len() ==> trim(q)[j] != '~',
        0 <= i && i + 2 <= trim(q).len(),
        trim(q)[i] == 'O',
        trim(q)[i + 1] == 'R',
        i == 0 || spec_is_whitespace(trim(q)[i - 1]),
        i + 2 == trim(q).len() || spec_is_whitespace(trim(q)[i + 2]),
    ensures
        match query_mode(q) {
            QueryModeView::Standard(_, is_or) => is_or,
            _ => false,
        },
{
    let t = trim(q);
    lemma_last_index_absent(t, '~');
    assert(or_word_at(t, i));
}

/// A word ending in `*` asks for its prefix, however short: a query without whitespace
/// that ends in `*`, after something that lowercases to a non-empty string, asks for
/// the terms that start with that lowercased prefix.
pub proof fn lemma_prefix_any_length(q: Seq<char>, all_terms: Seq<Seq<char>>)
    requires
        q.len() > 0,
        q.last() == '*',
        forall|i: int| 0 <= i < q.len() ==> !spec_is_whitespace(#[trigger] q[i]),
        spec_to_lowercase(q.drop_last()).len() > 0,
    ensures
        query_mode(q) == QueryModeView::Prefix(spec_to_lowercase(q.drop_last())),
        plan_terms(all_terms, query_mode(q)) == terms_with_prefix(all_terms, spec_to_lowercase(q.drop_last())),
{
    assert(trim_start(q) == q);
    assert(trim_end(q) == q);
    assert(!has_whitespace(q));
}

} // verus!

