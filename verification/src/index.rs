use vstd::prelude::*;

use crate::analyzer::{strings_view, tokens, Analyzer};
use crate::lex::{
    lemma_lex_asymmetric, lemma_lex_irreflexive, lemma_lex_total, lemma_lex_transitive, lemma_prefix_block,
    lemma_prefix_not_after, lex_lt,
};
use crate::text::chars_of;
use crate::strmap::{
    entries_map, has_key, keys_sorted, lemma_entries_map_at, lemma_entries_map_push, lemma_sorted_entries_determined,
    StrMap,
};

verus! {

/// Unique identifier for a document (string-based to support API IDs like "abc-123").
pub type DocId = String;

/// A single posting entry: which document a term appeared in, how many times,
/// and at which positions.
///
/// Positions are 0-based token offsets within the combined title+body text.
/// They are used for phrase search (checking positional adjacency).
#[derive(Debug, Clone, PartialEq, Eq)]
pub struct Posting {
    pub doc_id: DocId,
    pub term_frequency: u32,
    pub positions: Vec<u32>,
}

/// The contents of a posting.
pub struct PostingView {
    pub doc_id: Seq<char>,
    pub term_frequency: u32,
    pub positions: Seq<u32>,
}

impl DeepView for Posting {
    type V = PostingView;

    open spec fn deep_view(&self) -> PostingView {
        PostingView {
            doc_id: self.doc_id@,
            term_frequency: self.term_frequency,
            positions: self.positions@,
        }
    }
}

/// A stored document with its title and body text.
#[derive(Debug, Clone, PartialEq, Eq)]
pub struct Document {
    pub id: DocId,
    pub title: String,
    pub body: String,
}

/// The contents of a document.
pub struct DocumentView {
    pub id: Seq<char>,
    pub title: Seq<char>,
    pub body: Seq<char>,
}

impl DeepView for Document {
    type V = DocumentView;

    open spec fn deep_view(&self) -> DocumentView {
        DocumentView { id: self.id@, title: self.title@, body: self.body@ }
    }
}

/// Metadata about the indexed corpus, needed for BM25 length normalization.
#[derive(Debug, Clone, PartialEq)]
pub struct IndexMetadata {
    /// Total number of documents indexed.
    pub total_docs: u64,
    /// Sum of all document lengths (in tokens).
    pub total_doc_length: u64,
    /// Length (in tokens) of each individual document.
    pub doc_lengths: StrMap<u32>,
}

impl IndexMetadata {
    /// Create empty metadata.
    pub fn new() -> (m: Self)
        ensures
            m.total_docs == 0,
            m.total_doc_length == 0,
            m.doc_lengths@ == Map::<Seq<char>, u32>::empty(),
            m.doc_lengths.wf(),
    {
        IndexMetadata { total_docs: 0, total_doc_length: 0, doc_lengths: StrMap::new() }
    }
}

impl Default for IndexMetadata {
    fn default() -> (m: Self)
        ensures
            m.total_docs == 0,
            m.total_doc_length == 0,
            m.doc_lengths@ == Map::<Seq<char>, u32>::empty(),
            m.doc_lengths.wf(),
    {
        IndexMetadata::new()
    }
}

// ---------------------------------------------------------------------------
// What indexing a document means
// ---------------------------------------------------------------------------
/// The tokens of a document: those of its title, then those of its body.
pub open spec fn doc_tokens(title: Seq<char>, body: Seq<char>) -> Seq<Seq<char>> {
    tokens(title) + tokens(body)
}

/// The positions, in increasing order, at which `t` occurs in `toks`.
pub open spec fn term_positions(toks: Seq<Seq<char>>, t: Seq<char>) -> Seq<u32>
    decreases toks.len(),
{
    if toks.len() == 0 {
        seq![]
    } else {
        let p = term_positions(toks.drop_last(), t);
        if toks.last() == t {
            p.push((toks.len() - 1) as u32)
        } else {
            p
        }
    }
}

/// The posting that a document with the tokens `toks` contributes for the term `t`.
pub open spec fn posting_for(id: Seq<char>, toks: Seq<Seq<char>>, t: Seq<char>) -> PostingView {
    PostingView {
        doc_id: id,
        term_frequency: term_positions(toks, t).len() as u32,
        positions: term_positions(toks, t),
    }
}

/// The postings of `ps` that belong to documents other than `id`.
pub open spec fn without_doc(ps: Seq<PostingView>, id: Seq<char>) -> Seq<PostingView> {
    ps.filter(|p: PostingView| p.doc_id != id)
}

/// The term dictionary with every posting of `id` taken out, and the terms left without
/// postings dropped.
pub open spec fn postings_without_doc(m: Map<Seq<char>, Seq<PostingView>>, id: Seq<char>) -> Map<
    Seq<char>,
    Seq<PostingView>,
> {
    Map::new(
        |k: Seq<char>| m.contains_key(k) && without_doc(m[k], id).len() > 0,
        |k: Seq<char>| without_doc(m[k], id),
    )
}

/// The postings list of `k` in `m`, empty where `k` has none.
pub open spec fn postings_or_empty(m: Map<Seq<char>, Seq<PostingView>>, k: Seq<char>) -> Seq<
    PostingView,
> {
    if m.contains_key(k) {
        m[k]
    } else {
        seq![]
    }
}

/// The term dictionary with the postings of a document with the tokens `toks`
/// appended, for each term in `terms`.
pub open spec fn postings_with_terms(
    m: Map<Seq<char>, Seq<PostingView>>,
    id: Seq<char>,
    toks: Seq<Seq<char>>,
    terms: Set<Seq<char>>,
) -> Map<Seq<char>, Seq<PostingView>> {
    Map::new(
        |k: Seq<char>| m.contains_key(k) || terms.contains(k),
        |k: Seq<char>|
            if terms.contains(k) {
                postings_or_empty(m, k).push(posting_for(id, toks, k))
            } else {
                m[k]
            },
    )
}

/// The term dictionary with the postings of a document with the tokens `toks` appended.
pub open spec fn postings_with_doc(
    m: Map<Seq<char>, Seq<PostingView>>,
    id: Seq<char>,
    toks: Seq<Seq<char>>,
) -> Map<Seq<char>, Seq<PostingView>> {
    postings_with_terms(m, id, toks, toks.to_set())
}


/// For each term of `toks`: how often it occurs, and where.
pub open spec fn term_table(toks: Seq<Seq<char>>) -> Map<Seq<char>, (u32, Seq<u32>)> {
    Map::new(
        |t: Seq<char>| toks.contains(t),
        |t: Seq<char>| (term_positions(toks, t).len() as u32, term_positions(toks, t)),
    )
}

/// A term occurs at no more positions than there are tokens, and at some position
/// exactly when it is one of the tokens.
pub proof fn lemma_term_positions(toks: Seq<Seq<char>>, t: Seq<char>)
    requires
        toks.len() <= u32::MAX,
    ensures
        term_positions(toks, t).len() <= toks.len(),
        term_positions(toks, t).len() > 0 <==> toks.contains(t),
        forall|j: int|
            0 <= j < term_positions(toks, t).len() ==> {
                let p = #[trigger] term_positions(toks, t)[j];
                p < toks.len() && toks[p as int] == t
            },
    decreases toks.len(),
{
    if toks.len() > 0 {
        let p = toks.drop_last();
        lemma_term_positions(p, t);
        if p.contains(t) {
            let w = choose|w: int| 0 <= w < p.len() && p[w] == t;
            assert(toks[w] == t);
        }
        if toks.contains(t) && toks.last() != t {
            let w = choose|w: int| 0 <= w < toks.len() && toks[w] == t;
            assert(p[w] == t);
        }
        if toks.last() == t {
            assert(toks[toks.len() - 1] == t);
        }
        let pp = term_positions(p, t);
        assert forall|j: int| 0 <= j < term_positions(toks, t).len() implies {
            let q = #[trigger] term_positions(toks, t)[j];
            q < toks.len() && toks[q as int] == t
        } by {
            if j < pp.len() {
                assert(term_positions(toks, t)[j] == pp[j]);
                let q = pp[j];
                assert(toks[q as int] == p[q as int]);
            } else {
                assert(term_positions(toks, t)[j] == (toks.len() - 1) as u32);
                assert(toks[toks.len() - 1] == toks.last());
            }
        }
    }
}

/// A vector of integers is its own deep view.
pub proof fn lemma_u32_vec_deep_view(v: Vec<u32>)
    ensures
        v.deep_view() == v@,
{
    assert(v.deep_view() =~= v@);
}

proof fn lemma_term_table_push(toks: Seq<Seq<char>>, x: Seq<char>)
    requires
        toks.len() < u32::MAX,
    ensures
        term_table(toks.push(x)) == term_table(toks).insert(
            x,
            (
                (term_positions(toks, x).len() + 1) as u32,
                term_positions(toks, x).push(toks.len() as u32),
            ),
        ),
{
    let t2 = toks.push(x);
    assert(t2.drop_last() =~= toks);
    assert(term_table(t2) =~= term_table(toks).insert(
        x,
        ((term_positions(toks, x).len() + 1) as u32, term_positions(toks, x).push(toks.len() as u32)),
    )) by {
        assert forall|t: Seq<char>| #[trigger] t2.contains(t) <==> (toks.contains(t) || t == x) by {
            if t2.contains(t) && t != x {
                let w = choose|w: int| 0 <= w < t2.len() && t2[w] == t;
                assert(toks[w] == t);
            }
            if toks.contains(t) {
                let w = choose|w: int| 0 <= w < toks.len() && toks[w] == t;
                assert(t2[w] == t);
            }
            if t == x {
                assert(t2[toks.len() as int] == t);
            }
        }
    }
}


/// The postings of `ps` that belong to documents outside `ids`.
pub open spec fn without_docs(ps: Seq<PostingView>, ids: Set<Seq<char>>) -> Seq<PostingView> {
    ps.filter(|p: PostingView| !ids.contains(p.doc_id))
}

/// The term dictionary with the postings of the documents `ids` taken out, and the
/// terms left without postings dropped.
pub open spec fn postings_without_docs(m: Map<Seq<char>, Seq<PostingView>>, ids: Set<Seq<char>>) -> Map<
    Seq<char>,
    Seq<PostingView>,
> {
    Map::new(
        |k: Seq<char>| m.contains_key(k) && without_docs(m[k], ids).len() > 0,
        |k: Seq<char>| without_docs(m[k], ids),
    )
}

/// The first index in `l` of a posting of the document `id`, or -1 when there is none.
pub open spec fn first_doc_index(l: Seq<PostingView>, id: Seq<char>) -> int
    decreases l.len(),
{
    if l.len() == 0 {
        -1
    } else {
        let f = first_doc_index(l.drop_last(), id);
        if f >= 0 {
            f
        } else if l.last().doc_id == id {
            l.len() - 1
        } else {
            -1
        }
    }
}

/// `l` with `p` replacing the first posting of the same document, or appended.
pub open spec fn upsert_posting(l: Seq<PostingView>, p: PostingView) -> Seq<PostingView> {
    let f = first_doc_index(l, p.doc_id);
    if f >= 0 {
        l.update(f, p)
    } else {
        l.push(p)
    }
}

/// `l` with each posting of `ps` upserted in turn.
pub open spec fn upsert_postings(l: Seq<PostingView>, ps: Seq<PostingView>) -> Seq<PostingView>
    decreases ps.len(),
{
    if ps.len() == 0 {
        l
    } else {
        upsert_posting(upsert_postings(l, ps.drop_last()), ps.last())
    }
}

/// The term dictionary `m` with the postings lists of `o` upserted into it, term by term.
pub open spec fn merged_postings(m: Map<Seq<char>, Seq<PostingView>>, o: Map<Seq<char>, Seq<PostingView>>) -> Map<
    Seq<char>,
    Seq<PostingView>,
> {
    Map::new(
        |k: Seq<char>| m.contains_key(k) || o.contains_key(k),
        |k: Seq<char>|
            if o.contains_key(k) {
                upsert_postings(postings_or_empty(m, k), o[k])
            } else {
                m[k]
            },
    )
}

/// The length recorded for a document: its token count, truncated to 32 bits.
pub open spec fn doc_length_of(d: DocumentView) -> u32 {
    ((tokens(d.title).len() + tokens(d.body).len()) % 0x1_0000_0000) as u32
}

/// The sum of the recorded lengths of the documents of `s`.
pub open spec fn sum_doc_lengths(s: Seq<(Seq<char>, DocumentView)>) -> int
    decreases s.len(),
{
    if s.len() == 0 {
        0
    } else {
        sum_doc_lengths(s.drop_last()) + doc_length_of(s.last().1)
    }
}

/// The recorded length of each document of `docs`.
pub open spec fn doc_lengths_of(docs: Map<Seq<char>, DocumentView>) -> Map<Seq<char>, u32> {
    Map::new(|k: Seq<char>| docs.contains_key(k), |k: Seq<char>| doc_length_of(docs[k]))
}

pub proof fn lemma_first_doc_index(l: Seq<PostingView>, id: Seq<char>)
    ensures
        -1 <= first_doc_index(l, id) < l.len(),
        first_doc_index(l, id) >= 0 ==> l[first_doc_index(l, id)].doc_id == id,
        forall|j: int| 0 <= j < l.len() && (first_doc_index(l, id) < 0 || j < first_doc_index(l, id))
            ==> (#[trigger] l[j]).doc_id != id,
    decreases l.len(),
{
    if l.len() > 0 {
        lemma_first_doc_index(l.drop_last(), id);
        assert forall|j: int| 0 <= j < l.len() && (first_doc_index(l, id) < 0 || j < first_doc_index(l, id))
            implies (#[trigger] l[j]).doc_id != id by {
            if j < l.len() - 1 {
                assert(l[j] == l.drop_last()[j]);
            }
        }
    }
}

proof fn lemma_without_docs_insert(ps: Seq<PostingView>, ids: Set<Seq<char>>, id: Seq<char>)
    ensures
        without_doc(without_docs(ps, ids), id) == without_docs(ps, ids.insert(id)),
    decreases ps.len(),
{
    reveal_with_fuel(Seq::filter, 1);
    if ps.len() > 0 {
        lemma_without_docs_insert(ps.drop_last(), ids, id);
        let w = without_docs(ps.drop_last(), ids);
        if !ids.contains(ps.last().doc_id) {
            assert(without_docs(ps, ids) == w.push(ps.last()));
            assert(w.push(ps.last()).drop_last() =~= w);
            assert(without_doc(w.push(ps.last()), id) =~= without_docs(ps, ids.insert(id)));
        } else {
            assert(without_docs(ps, ids) == w);
        }
    } else {
        assert(without_docs(ps, ids) =~= Seq::<PostingView>::empty());
    }
}


/// The term dictionary after the postings of the documents `ids` were taken out one
/// by one: unchanged when there are none, and otherwise with emptied terms dropped.
pub open spec fn strip_docs(m: Map<Seq<char>, Seq<PostingView>>, ids: Set<Seq<char>>) -> Map<
    Seq<char>,
    Seq<PostingView>,
> {
    if ids == Set::<Seq<char>>::empty() {
        m
    } else {
        postings_without_docs(m, ids)
    }
}

proof fn lemma_postings_without_doc_as_docs(m: Map<Seq<char>, Seq<PostingView>>, id: Seq<char>)
    ensures
        postings_without_doc(m, id) == postings_without_docs(m, Set::<Seq<char>>::empty().insert(id)),
{
    let ids = Set::<Seq<char>>::empty().insert(id);
    assert((|p: PostingView| p.doc_id != id) =~= (|p: PostingView| !ids.contains(p.doc_id)));
    assert(postings_without_doc(m, id) =~= postings_without_docs(m, ids));
}

proof fn lemma_postings_without_docs_insert(m: Map<Seq<char>, Seq<PostingView>>, ids: Set<Seq<char>>, id: Seq<char>)
    ensures
        postings_without_doc(postings_without_docs(m, ids), id) == postings_without_docs(m, ids.insert(id)),
{
    let a = postings_without_doc(postings_without_docs(m, ids), id);
    let b = postings_without_docs(m, ids.insert(id));
    assert forall|k: Seq<char>| m.contains_key(k) implies #[trigger] without_doc(without_docs(m[k], ids), id)
        == without_docs(m[k], ids.insert(id)) by {
        lemma_without_docs_insert(m[k], ids, id);
    }
    assert forall|k: Seq<char>| #[trigger] a.contains_key(k) <==> b.contains_key(k) by {
        if m.contains_key(k) {
            lemma_without_docs_insert(m[k], ids, id);
            if without_docs(m[k], ids).len() == 0 {
                assert(without_docs(m[k], ids) =~= Seq::<PostingView>::empty());
                assert(without_doc(Seq::<PostingView>::empty(), id) =~= Seq::<PostingView>::empty());
            }
        }
    }
    assert(a =~= b);
}

proof fn lemma_without_docs_empty(ps: Seq<PostingView>)
    ensures
        without_docs(ps, Set::empty()) == ps,
    decreases ps.len(),
{
    reveal_with_fuel(Seq::filter, 1);
    if ps.len() > 0 {
        lemma_without_docs_empty(ps.drop_last());
        assert(ps =~= ps.drop_last().push(ps.last()));
    } else {
        assert(without_docs(ps, Set::empty()) =~= ps);
    }
}

proof fn lemma_sum_doc_lengths_prefix(s: Seq<(Seq<char>, DocumentView)>, k: int)
    requires
        0 <= k <= s.len(),
    ensures
        sum_doc_lengths(s.take(k)) <= sum_doc_lengths(s),
        0 <= sum_doc_lengths(s.take(k)),
    decreases s.len() - k,
{
    if k < s.len() {
        lemma_sum_doc_lengths_prefix(s, k + 1);
        lemma_sum_doc_lengths_nonneg(s.take(k));
        assert(s.take(k + 1).drop_last() =~= s.take(k));
    } else {
        assert(s.take(k) =~= s);
        lemma_sum_doc_lengths_nonneg(s);
    }
}

/// Each document adds less than 2^32 to the total length.
proof fn lemma_sum_doc_lengths_bound(s: Seq<(Seq<char>, DocumentView)>)
    ensures
        sum_doc_lengths(s) <= s.len() * 0xffff_ffff,
    decreases s.len(),
{
    if s.len() > 0 {
        lemma_sum_doc_lengths_bound(s.drop_last());
    }
}

proof fn lemma_sum_doc_lengths_nonneg(s: Seq<(Seq<char>, DocumentView)>)
    ensures
        0 <= sum_doc_lengths(s),
    decreases s.len(),
{
    if s.len() > 0 {
        lemma_sum_doc_lengths_nonneg(s.drop_last());
    }
}

/// The terms of `ts` (in order) that start with `prefix`; all of them for an empty prefix.
pub open spec fn terms_with_prefix(ts: Seq<Seq<char>>, prefix: Seq<char>) -> Seq<Seq<char>> {
    ts.filter(|t: Seq<char>| prefix.is_prefix_of(t))
}

/// Indexing a document under `id` files, under each of its terms, a posting for `id`
/// last, counting how often the term occurs and at which token positions.
pub proof fn lemma_indexed_terms_found(
    m: Map<Seq<char>, Seq<PostingView>>,
    id: Seq<char>,
    toks: Seq<Seq<char>>,
    t: Seq<char>,
)
    requires
        toks.contains(t),
        toks.len() <= u32::MAX,
    ensures
        postings_with_doc(m, id, toks).contains_key(t),
        postings_with_doc(m, id, toks)[t].last() == posting_for(id, toks, t),
        posting_for(id, toks, t).term_frequency > 0,
        posting_for(id, toks, t).term_frequency == posting_for(id, toks, t).positions.len(),
        forall|j: int|
            0 <= j < posting_for(id, toks, t).positions.len() ==> toks[#[trigger] posting_for(
                id,
                toks,
                t,
            ).positions[j] as int] == t,
{
    lemma_term_positions(toks, t);
    assert(toks.to_set().contains(t));
    assert forall|j: int| 0 <= j < posting_for(id, toks, t).positions.len() implies toks[
        #[trigger] posting_for(id, toks, t).positions[j] as int] == t by {
        assert(term_positions(toks, t)[j] == posting_for(id, toks, t).positions[j]);
    }
}

/// Taking a document out leaves no posting of it under any term, and drops the terms
/// that only it contained.
pub proof fn lemma_removed_doc_gone(m: Map<Seq<char>, Seq<PostingView>>, id: Seq<char>)
    ensures
        forall|t: Seq<char>, j: int|
            #[trigger] postings_without_doc(m, id).contains_key(t) && 0 <= j
                < postings_without_doc(m, id)[t].len() ==> (#[trigger] postings_without_doc(
                m,
                id,
            )[t][j]).doc_id != id,
        forall|t: Seq<char>| #[trigger]
            postings_without_doc(m, id).contains_key(t) ==> postings_without_doc(m, id)[t].len() > 0,
{
    assert forall|t: Seq<char>, j: int|
        #[trigger] postings_without_doc(m, id).contains_key(t) && 0 <= j < postings_without_doc(
            m,
            id,
        )[t].len() implies (#[trigger] postings_without_doc(m, id)[t][j]).doc_id != id by {
        m[t].lemma_filter_pred(|p: PostingView| p.doc_id != id, j);
    }
}

/// Whether `s` starts with the characters `prefix`.
fn starts_with(s: &str, prefix: &Vec<char>) -> (r: bool)
    ensures
        r == prefix@.is_prefix_of(s@),
{
    let sc = chars_of(s);
    if prefix.len() > sc.len() {
        return false;
    }
    let mut i: usize = 0;
    while i < prefix.len()
        invariant
            sc@ == s@,
            prefix@.len() <= sc@.len(),
            0 <= i <= prefix@.len(),
            forall|j: int| 0 <= j < i ==> prefix@[j] == sc@[j],
        decreases prefix@.len() - i,
    {
        if prefix[i] != sc[i] {
            assert(s@.subrange(0, prefix@.len() as int)[i as int] == sc@[i as int]);
            return false;
        }
        i = i + 1;
    }
    assert(prefix@ =~= s@.subrange(0, prefix@.len() as int));
    true
}

/// A posting counts its positions, of which it has at least one, in increasing order.
pub open spec fn posting_ok(p: PostingView) -> bool {
    &&& p.positions.len() >= 1
    &&& p.term_frequency == p.positions.len()
    &&& forall|i: int, j: int| 0 <= i < j < p.positions.len() ==> p.positions[i] < p.positions[j]
}

/// Every posting of `l` is well formed and names a document of `docs`, each document
/// at most once.
pub open spec fn postings_of_docs(l: Seq<PostingView>, docs: Map<Seq<char>, DocumentView>) -> bool {
    &&& forall|i: int| 0 <= i < l.len() ==> docs.contains_key(#[trigger] l[i].doc_id) && posting_ok(l[i])
    &&& forall|i: int, j: int| 0 <= i < j < l.len() ==> (#[trigger] l[i]).doc_id != (#[trigger] l[j]).doc_id
}

/// The term dictionary describes the documents `docs`: no list is empty, and each list
/// holds well-formed postings of stored documents, one per document.
pub open spec fn postings_describe(m: Map<Seq<char>, Seq<PostingView>>, docs: Map<Seq<char>, DocumentView>) -> bool {
    forall|t: Seq<char>| #[trigger] m.contains_key(t) ==> m[t].len() > 0 && postings_of_docs(m[t], docs)
}

/// The positions at which a term occurs increase.
proof fn lemma_term_positions_increase(toks: Seq<Seq<char>>, t: Seq<char>)
    requires
        toks.len() <= u32::MAX,
    ensures
        forall|i: int, j: int|
            0 <= i < j < term_positions(toks, t).len() ==> term_positions(toks, t)[i] < term_positions(toks, t)[j],
    decreases toks.len(),
{
    if toks.len() > 0 {
        let p = toks.drop_last();
        lemma_term_positions_increase(p, t);
        lemma_term_positions(p, t);
    }
}

/// The posting that a document contributes for one of its terms is well formed.
proof fn lemma_posting_for_ok(id: Seq<char>, toks: Seq<Seq<char>>, t: Seq<char>)
    requires
        toks.contains(t),
        toks.len() <= u32::MAX,
    ensures
        posting_ok(posting_for(id, toks, t)),
{
    lemma_term_positions(toks, t);
    lemma_term_positions_increase(toks, t);
}

/// Taking the postings of `id` out of a list of postings of `docs` leaves postings of
/// the other documents, each an item of the list.
proof fn lemma_without_doc_of_docs(l: Seq<PostingView>, id: Seq<char>, docs: Map<Seq<char>, DocumentView>)
    requires
        postings_of_docs(l, docs),
    ensures
        postings_of_docs(without_doc(l, id), docs.remove(id)),
        forall|i: int| 0 <= i < without_doc(l, id).len() ==> l.contains(#[trigger] without_doc(l, id)[i]),
    decreases l.len(),
{
    reveal(Seq::filter);
    let w = without_doc(l, id);
    if l.len() > 0 {
        let d = l.drop_last();
        assert(postings_of_docs(d, docs)) by {
            assert forall|i: int, j: int| 0 <= i < j < d.len() implies (#[trigger] d[i]).doc_id != (#[trigger] d[j]).doc_id by {
                assert(d[i] == l[i] && d[j] == l[j]);
            }
            assert forall|i: int| 0 <= i < d.len() implies docs.contains_key(#[trigger] d[i].doc_id) && posting_ok(d[i]) by {
                assert(d[i] == l[i]);
            }
        }
        lemma_without_doc_of_docs(d, id, docs);
        let wd = without_doc(d, id);
        assert(w == (if l.last().doc_id != id { wd.push(l.last()) } else { wd }));
        assert forall|i: int| 0 <= i < wd.len() implies (#[trigger] wd[i]).doc_id != l.last().doc_id by {
            assert(d.contains(wd[i]));
            let k = choose|k: int| 0 <= k < d.len() && d[k] == wd[i];
            assert(l[k] == d[k]);
        }
        assert forall|i: int| 0 <= i < w.len() implies l.contains(#[trigger] w[i]) by {
            if i < wd.len() {
                assert(w[i] == wd[i]);
                assert(d.contains(wd[i]));
                let k = choose|k: int| 0 <= k < d.len() && d[k] == wd[i];
                assert(l[k] == d[k]);
            } else {
                assert(l[l.len() - 1] == l.last());
            }
        }
        assert forall|i: int| 0 <= i < w.len() implies docs.remove(id).contains_key(#[trigger] w[i].doc_id) && posting_ok(w[i]) by {
            if i < wd.len() {
                assert(w[i] == wd[i]);
            } else {
                assert(l[l.len() - 1] == l.last());
            }
        }
        assert forall|i: int, j: int| 0 <= i < j < w.len() implies (#[trigger] w[i]).doc_id != (#[trigger] w[j]).doc_id by {
            if j < wd.len() {
                assert(w[i] == wd[i] && w[j] == wd[j]);
            } else {
                assert(w[i] == wd[i]);
            }
        }
    } else {
        assert(w =~= Seq::<PostingView>::empty());
    }
}

/// Taking a document out of a dictionary that describes `docs` gives one that describes
/// the other documents.
pub proof fn lemma_removal_describes(m: Map<Seq<char>, Seq<PostingView>>, docs: Map<Seq<char>, DocumentView>, id: Seq<char>)
    requires
        postings_describe(m, docs),
    ensures
        postings_describe(postings_without_doc(m, id), docs.remove(id)),
{
    assert forall|t: Seq<char>| #[trigger] postings_without_doc(m, id).contains_key(t) implies postings_without_doc(m, id)[t].len() > 0
        && postings_of_docs(postings_without_doc(m, id)[t], docs.remove(id)) by {
        lemma_without_doc_of_docs(m[t], id, docs);
    }
}

/// Adding the postings of a new document `id` to a dictionary that describes `docs`
/// without it gives one that describes `docs` with it.
pub proof fn lemma_addition_describes(
    m: Map<Seq<char>, Seq<PostingView>>,
    docs: Map<Seq<char>, DocumentView>,
    id: Seq<char>,
    toks: Seq<Seq<char>>,
    d: DocumentView,
)
    requires
        postings_describe(m, docs),
        !docs.contains_key(id),
        toks.len() <= u32::MAX,
    ensures
        postings_describe(postings_with_doc(m, id, toks), docs.insert(id, d)),
{
    let r = postings_with_doc(m, id, toks);
    let nd = docs.insert(id, d);
    assert forall|t: Seq<char>| #[trigger] r.contains_key(t) implies r[t].len() > 0 && postings_of_docs(r[t], nd) by {
        if toks.to_set().contains(t) {
            let old_l = postings_or_empty(m, t);
            let p = posting_for(id, toks, t);
            assert(r[t] == old_l.push(p));
            lemma_posting_for_ok(id, toks, t);
            assert forall|i: int| 0 <= i < r[t].len() implies nd.contains_key(#[trigger] r[t][i].doc_id) && posting_ok(r[t][i]) by {
                if i < old_l.len() {
                    assert(r[t][i] == old_l[i]);
                    assert(docs.contains_key(old_l[i].doc_id));
                } else {
                    assert(r[t][i] == p);
                }
            }
            assert forall|i: int, j: int| 0 <= i < j < r[t].len() implies (#[trigger] r[t][i]).doc_id != (#[trigger] r[t][j]).doc_id by {
                assert(r[t][i] == old_l[i]);
                assert(docs.contains_key(old_l[i].doc_id));
                if j < old_l.len() {
                    assert(r[t][j] == old_l[j]);
                }
            }
        } else {
            assert(r[t] == m[t]);
            assert forall|i: int| 0 <= i < r[t].len() implies nd.contains_key(#[trigger] r[t][i].doc_id) && posting_ok(r[t][i]) by {
                assert(docs.contains_key(m[t][i].doc_id));
            }
        }
    }
}

/// Indexing a document (replacing any old version) keeps a dictionary that describes
/// the stored documents describing them.
pub proof fn lemma_indexing_describes(
    m: Map<Seq<char>, Seq<PostingView>>,
    docs: Map<Seq<char>, DocumentView>,
    id: Seq<char>,
    toks: Seq<Seq<char>>,
    d: DocumentView,
)
    requires
        postings_describe(m, docs),
        toks.len() <= u32::MAX,
    ensures
        postings_describe(
            postings_with_doc(
                if docs.contains_key(id) {
                    postings_without_doc(m, id)
                } else {
                    m
                },
                id,
                toks,
            ),
            docs.insert(id, d),
        ),
{
    let base = if docs.contains_key(id) {
        postings_without_doc(m, id)
    } else {
        m
    };
    if docs.contains_key(id) {
        lemma_removal_describes(m, docs, id);
    } else {
        assert(docs.remove(id) =~= docs);
    }
    lemma_addition_describes(base, docs.remove(id), id, toks, d);
    assert(docs.remove(id).insert(id, d) =~= docs.insert(id, d));
}

/// Deleting a document right after indexing it under a new id gives back the
/// postings, documents and metadata that the index had before.
pub proof fn lemma_add_then_delete_restores(
    before: InvertedIndex,
    mid: InvertedIndex,
    after: InvertedIndex,
    id: Seq<char>,
    title: Seq<char>,
    body: Seq<char>,
)
    requires
        before.consistent(),
        before.postings_ok(),
        !before.docs().contains_key(id),
        doc_tokens(title, body).len() <= u32::MAX,
        before.added(mid, id, title, body),
        mid.deleted(after, id),
    ensures
        after.postings() == before.postings(),
        after.docs() == before.docs(),
        after.meta().doc_lengths@ == before.meta().doc_lengths@,
        after.meta().total_docs == before.meta().total_docs,
        after.meta().total_doc_length == before.meta().total_doc_length,
{
    let p = before.postings();
    let toks = doc_tokens(title, body);
    let mp = postings_with_doc(p, id, toks);
    assert(mid.postings() == mp);
    assert(mid.docs().contains_key(id));
    let ap = postings_without_doc(mp, id);
    assert(after.postings() == ap);
    assert(ap =~= p) by {
        assert forall|k: Seq<char>| p.contains_key(k) implies #[trigger] ap.contains_key(k) && ap[k] == p[k] by {
            assert(p[k].len() > 0 && postings_of_docs(p[k], before.docs()));
            let f = |q: PostingView| q.doc_id != id;
            assert forall|i: int| 0 <= i < p[k].len() implies f(#[trigger] p[k][i]) by {
                assert(before.docs().contains_key(p[k][i].doc_id));
            }
            lemma_filter_all(p[k], f);
            if toks.to_set().contains(k) {
                let pk = posting_for(id, toks, k);
                assert(mp[k] == p[k].push(pk));
                reveal(Seq::filter);
                assert(p[k].push(pk).drop_last() =~= p[k]);
                assert(without_doc(mp[k], id) == without_doc(p[k], id));
            } else {
                assert(mp[k] == p[k]);
            }
        }
        assert forall|k: Seq<char>| #[trigger] ap.contains_key(k) implies p.contains_key(k) by {
            if !p.contains_key(k) {
                assert(toks.to_set().contains(k));
                let pk = posting_for(id, toks, k);
                assert(postings_or_empty(p, k) =~= Seq::<PostingView>::empty());
                assert(mp[k] =~= seq![pk]);
                reveal(Seq::filter);
                assert(seq![pk].drop_last() =~= Seq::<PostingView>::empty());
                assert(without_doc(Seq::<PostingView>::empty(), id) =~= Seq::<PostingView>::empty());
                assert(without_doc(mp[k], id).len() == 0);
            }
        }
    }
    assert(after.docs() =~= before.docs());
    assert(!before.meta().doc_lengths@.contains_key(id));
    assert(after.meta().doc_lengths@ =~= before.meta().doc_lengths@);
}

/// Taking the postings of the documents `ids` out of a list of postings of `docs`
/// leaves postings of the other documents, each an item of the list.
proof fn lemma_without_docs_of_docs(l: Seq<PostingView>, ids: Set<Seq<char>>, docs: Map<Seq<char>, DocumentView>)
    requires
        postings_of_docs(l, docs),
    ensures
        postings_of_docs(without_docs(l, ids), docs.remove_keys(ids)),
        forall|i: int| 0 <= i < without_docs(l, ids).len() ==> l.contains(#[trigger] without_docs(l, ids)[i]),
    decreases l.len(),
{
    reveal(Seq::filter);
    let w = without_docs(l, ids);
    if l.len() > 0 {
        let d = l.drop_last();
        assert(postings_of_docs(d, docs)) by {
            assert forall|i: int, j: int| 0 <= i < j < d.len() implies (#[trigger] d[i]).doc_id != (#[trigger] d[j]).doc_id by {
                assert(d[i] == l[i] && d[j] == l[j]);
            }
            assert forall|i: int| 0 <= i < d.len() implies docs.contains_key(#[trigger] d[i].doc_id) && posting_ok(d[i]) by {
                assert(d[i] == l[i]);
            }
        }
        lemma_without_docs_of_docs(d, ids, docs);
        let wd = without_docs(d, ids);
        assert(w == (if !ids.contains(l.last().doc_id) { wd.push(l.last()) } else { wd }));
        assert forall|i: int| 0 <= i < wd.len() implies (#[trigger] wd[i]).doc_id != l.last().doc_id by {
            assert(d.contains(wd[i]));
            let k = choose|k: int| 0 <= k < d.len() && d[k] == wd[i];
            assert(l[k] == d[k]);
        }
        assert forall|i: int| 0 <= i < w.len() implies l.contains(#[trigger] w[i]) by {
            if i < wd.len() {
                assert(w[i] == wd[i]);
                assert(d.contains(wd[i]));
                let k = choose|k: int| 0 <= k < d.len() && d[k] == wd[i];
                assert(l[k] == d[k]);
            } else {
                assert(l[l.len() - 1] == l.last());
            }
        }
        assert forall|i: int| 0 <= i < w.len() implies docs.remove_keys(ids).contains_key(#[trigger] w[i].doc_id)
            && posting_ok(w[i]) by {
            if i < wd.len() {
                assert(w[i] == wd[i]);
            } else {
                assert(l[l.len() - 1] == l.last());
            }
        }
        assert forall|i: int, j: int| 0 <= i < j < w.len() implies (#[trigger] w[i]).doc_id != (#[trigger] w[j]).doc_id by {
            if j < wd.len() {
                assert(w[i] == wd[i] && w[j] == wd[j]);
            } else {
                assert(w[i] == wd[i]);
            }
        }
    } else {
        assert(w =~= Seq::<PostingView>::empty());
    }
}

/// Upserting postings of documents that `l` does not hold, one per document, appends them.
proof fn lemma_upsert_new_postings(l: Seq<PostingView>, ps: Seq<PostingView>)
    requires
        forall|i: int, j: int| 0 <= i < l.len() && 0 <= j < ps.len() ==> (#[trigger] l[i]).doc_id != (#[trigger] ps[j]).doc_id,
        forall|i: int, j: int| 0 <= i < j < ps.len() ==> (#[trigger] ps[i]).doc_id != (#[trigger] ps[j]).doc_id,
    ensures
        upsert_postings(l, ps) == l + ps,
    decreases ps.len(),
{
    if ps.len() == 0 {
        assert(l + ps =~= l);
    } else {
        let d = ps.drop_last();
        lemma_upsert_new_postings(l, d);
        let x = ps.last();
        let ld = l + d;
        lemma_first_doc_index(ld, x.doc_id);
        if first_doc_index(ld, x.doc_id) >= 0 {
            let f = first_doc_index(ld, x.doc_id);
            if f < l.len() {
                assert(ld[f] == l[f]);
                assert(ps[ps.len() - 1] == x);
            } else {
                assert(ld[f] == d[f - l.len()]);
                assert(d[f - l.len()] == ps[f - l.len()]);
                assert(ps[ps.len() - 1] == x);
            }
        }
        assert(ld.push(x) =~= l + ps);
    }
}

/// Merging the postings of `other` into a dictionary stripped of the documents that
/// `other` replaces gives a dictionary that describes the merged documents.
pub proof fn lemma_merge_describes(
    m: Map<Seq<char>, Seq<PostingView>>,
    docs: Map<Seq<char>, DocumentView>,
    o: Map<Seq<char>, Seq<PostingView>>,
    odocs: Map<Seq<char>, DocumentView>,
)
    requires
        postings_describe(m, docs),
        postings_describe(o, odocs),
    ensures
        postings_describe(
            merged_postings(strip_docs(m, docs.dom().intersect(odocs.dom())), o),
            docs.union_prefer_right(odocs),
        ),
{
    let c = docs.dom().intersect(odocs.dom());
    let sm = strip_docs(m, c);
    let ad = docs.remove_keys(c);
    let u = docs.union_prefer_right(odocs);
    let r = merged_postings(sm, o);
    // the stripped dictionary describes the documents that `other` does not replace
    assert(postings_describe(sm, ad)) by {
        if c == Set::<Seq<char>>::empty() {
            assert(ad =~= docs);
        } else {
            assert forall|t: Seq<char>| #[trigger] sm.contains_key(t) implies sm[t].len() > 0 && postings_of_docs(sm[t], ad) by {
                lemma_without_docs_of_docs(m[t], c, docs);
            }
        }
    }
    assert forall|t: Seq<char>| #[trigger] r.contains_key(t) implies r[t].len() > 0 && postings_of_docs(r[t], u) by {
        if o.contains_key(t) {
            let l = postings_or_empty(sm, t);
            let ps = o[t];
            assert(postings_of_docs(l, ad)) by {
                if !sm.contains_key(t) {
                    assert(l =~= Seq::<PostingView>::empty());
                }
            }
            assert forall|i: int, j: int| 0 <= i < l.len() && 0 <= j < ps.len() implies (#[trigger] l[i]).doc_id != (#[trigger] ps[j]).doc_id by {
                assert(ad.contains_key(l[i].doc_id));
                assert(odocs.contains_key(ps[j].doc_id));
            }
            lemma_upsert_new_postings(l, ps);
            let lp = l + ps;
            assert(r[t] == lp);
            assert forall|i: int| 0 <= i < lp.len() implies u.contains_key(#[trigger] lp[i].doc_id) && posting_ok(lp[i]) by {
                if i < l.len() {
                    assert(lp[i] == l[i]);
                } else {
                    assert(lp[i] == ps[i - l.len()]);
                }
            }
            assert forall|i: int, j: int| 0 <= i < j < lp.len() implies (#[trigger] lp[i]).doc_id != (#[trigger] lp[j]).doc_id by {
                if j < l.len() {
                    assert(lp[i] == l[i] && lp[j] == l[j]);
                } else if i < l.len() {
                    assert(lp[i] == l[i] && lp[j] == ps[j - l.len()]);
                    assert(ad.contains_key(l[i].doc_id));
                    assert(odocs.contains_key(ps[j - l.len()].doc_id));
                } else {
                    assert(lp[i] == ps[i - l.len()] && lp[j] == ps[j - l.len()]);
                }
            }
        } else {
            assert(r[t] == sm[t]);
            assert forall|i: int| 0 <= i < r[t].len() implies u.contains_key(#[trigger] r[t][i].doc_id) && posting_ok(r[t][i]) by {
                assert(ad.contains_key(sm[t][i].doc_id));
            }
        }
    }
}

/// Filtering keeps exactly the items from `lo` up to `hi` when those are the items that
/// pass.
proof fn lemma_filter_block<A>(s: Seq<A>, f: spec_fn(A) -> bool, lo: int, hi: int)
    requires
        0 <= lo <= hi <= s.len(),
        forall|j: int| 0 <= j < s.len() ==> (f(#[trigger] s[j]) <==> lo <= j < hi),
    ensures
        s.filter(f) == s.subrange(lo, hi),
    decreases s.len(),
{
    reveal(Seq::filter);
    if s.len() == 0 {
        assert(s.subrange(lo, hi) =~= s);
    } else {
        let d = s.drop_last();
        let n = s.len() - 1;
        if hi == s.len() && lo < hi {
            assert forall|j: int| 0 <= j < d.len() implies (f(#[trigger] d[j]) <==> lo <= j < n) by {
                assert(d[j] == s[j]);
            }
            lemma_filter_block(d, f, lo, n);
            assert(f(s[n]));
            assert(s.subrange(lo, hi) =~= d.subrange(lo, n).push(s.last()));
        } else {
            let l2 = if lo > n { n } else { lo };
            let h2 = if hi > n { n } else { hi };
            assert forall|j: int| 0 <= j < d.len() implies (f(#[trigger] d[j]) <==> l2 <= j < h2) by {
                assert(d[j] == s[j]);
            }
            lemma_filter_block(d, f, l2, h2);
            assert(!f(s[n]));
            assert(s.subrange(lo, hi) =~= d.subrange(l2, h2));
        }
    }
}

/// Filtering by a predicate that holds of every item keeps every item.
proof fn lemma_filter_all<A>(s: Seq<A>, f: spec_fn(A) -> bool)
    requires
        forall|i: int| 0 <= i < s.len() ==> f(#[trigger] s[i]),
    ensures
        s.filter(f) == s,
    decreases s.len(),
{
    reveal(Seq::filter);
    if s.len() > 0 {
        lemma_filter_all(s.drop_last(), f);
        assert(s.drop_last().push(s.last()) =~= s);
    } else {
        assert(s.filter(f) =~= s);
    }
}

/// The tokens of a stored document.
pub open spec fn doc_toks(d: DocumentView) -> Seq<Seq<char>> {
    doc_tokens(d.title, d.body)
}

/// `p` is the posting that its document in `docs` gives for the term `t`, a term of it.
pub open spec fn derived_posting(p: PostingView, docs: Map<Seq<char>, DocumentView>, t: Seq<char>) -> bool {
    &&& p == posting_for(p.doc_id, doc_toks(docs[p.doc_id]), t)
    &&& doc_toks(docs[p.doc_id]).contains(t)
}

/// The postings list of `t` in `m` holds a posting of the document `id`.
pub open spec fn has_posting(m: Map<Seq<char>, Seq<PostingView>>, t: Seq<char>, id: Seq<char>) -> bool {
    &&& m.contains_key(t)
    &&& exists|i: int| 0 <= i < m[t].len() && (#[trigger] m[t][i]).doc_id == id
}

/// The term dictionary is the one that indexing the documents `docs` gives: it describes
/// them, each posting is the one that its document's tokens give for its term, and each
/// term of each document has a posting of that document.
pub open spec fn postings_derived(m: Map<Seq<char>, Seq<PostingView>>, docs: Map<Seq<char>, DocumentView>) -> bool {
    &&& postings_describe(m, docs)
    &&& forall|t: Seq<char>, i: int| m.contains_key(t) && 0 <= i < m[t].len() ==> derived_posting(#[trigger] m[t][i], docs, t)
    &&& forall|id: Seq<char>, t: Seq<char>| docs.contains_key(id) && #[trigger] doc_toks(docs[id]).contains(t) ==> has_posting(m, t, id)
}

/// Adding the postings of a new document to a dictionary derived from `docs` gives the
/// dictionary derived from `docs` with it.
proof fn lemma_addition_derived(
    m: Map<Seq<char>, Seq<PostingView>>,
    docs: Map<Seq<char>, DocumentView>,
    id: Seq<char>,
    toks: Seq<Seq<char>>,
    d: DocumentView,
)
    requires
        postings_derived(m, docs),
        !docs.contains_key(id),
        toks.len() <= u32::MAX,
        doc_toks(d) == toks,
    ensures
        postings_derived(postings_with_doc(m, id, toks), docs.insert(id, d)),
{
    lemma_addition_describes(m, docs, id, toks, d);
    let r = postings_with_doc(m, id, toks);
    let nd = docs.insert(id, d);
    assert forall|t: Seq<char>, i: int| r.contains_key(t) && 0 <= i < r[t].len() implies derived_posting(#[trigger] r[t][i], nd, t) by {
        if toks.to_set().contains(t) {
            let old_l = postings_or_empty(m, t);
            assert(r[t] == old_l.push(posting_for(id, toks, t)));
            if i < old_l.len() {
                assert(m.contains_key(t));
                assert(r[t][i] == m[t][i]);
                assert(derived_posting(m[t][i], docs, t));
                assert(docs.contains_key(m[t][i].doc_id));
            } else {
                assert(r[t][i] == posting_for(id, toks, t));
            }
        } else {
            assert(r[t] == m[t]);
            assert(derived_posting(m[t][i], docs, t));
            assert(docs.contains_key(m[t][i].doc_id));
        }
    }
    assert forall|x: Seq<char>, t: Seq<char>| nd.contains_key(x) && #[trigger] doc_toks(nd[x]).contains(t) implies has_posting(r, t, x) by {
        if x == id {
            assert(toks.to_set().contains(t));
            let old_l = postings_or_empty(m, t);
            assert(r[t] == old_l.push(posting_for(id, toks, t)));
            assert(r[t][old_l.len() as int].doc_id == id);
        } else {
            assert(doc_toks(docs[x]).contains(t));
            assert(has_posting(m, t, x));
            let i = choose|i: int| 0 <= i < m[t].len() && (#[trigger] m[t][i]).doc_id == x;
            if toks.to_set().contains(t) {
                assert(postings_or_empty(m, t) == m[t]);
                assert(r[t] == m[t].push(posting_for(id, toks, t)));
                assert(r[t][i] == m[t][i]);
            } else {
                assert(r[t] == m[t]);
            }
        }
    }
}

/// Taking a document out of a dictionary derived from `docs` gives the dictionary
/// derived from the other documents.
pub proof fn lemma_removal_derived(m: Map<Seq<char>, Seq<PostingView>>, docs: Map<Seq<char>, DocumentView>, id: Seq<char>)
    requires
        postings_derived(m, docs),
    ensures
        postings_derived(postings_without_doc(m, id), docs.remove(id)),
{
    lemma_removal_describes(m, docs, id);
    let r = postings_without_doc(m, id);
    let nd = docs.remove(id);
    assert forall|t: Seq<char>, i: int| r.contains_key(t) && 0 <= i < r[t].len() implies derived_posting(#[trigger] r[t][i], nd, t) by {
        lemma_without_doc_of_docs(m[t], id, docs);
        let w = without_doc(m[t], id);
        assert(r[t] == w);
        assert(m[t].contains(w[i]));
        let k = choose|k: int| 0 <= k < m[t].len() && m[t][k] == w[i];
        assert(derived_posting(m[t][k], docs, t));
        assert(nd.contains_key(w[i].doc_id));
    }
    assert forall|x: Seq<char>, t: Seq<char>| nd.contains_key(x) && #[trigger] doc_toks(nd[x]).contains(t) implies has_posting(r, t, x) by {
        assert(doc_toks(docs[x]).contains(t));
        assert(has_posting(m, t, x));
        let k = choose|k: int| 0 <= k < m[t].len() && (#[trigger] m[t][k]).doc_id == x;
        let f = |p: PostingView| p.doc_id != id;
        m[t].lemma_filter_contains(f, k);
        let w = without_doc(m[t], id);
        assert(w.contains(m[t][k]));
        let j = choose|j: int| 0 <= j < w.len() && w[j] == m[t][k];
        assert(r.contains_key(t));
        assert(r[t][j].doc_id == x);
    }
}

/// Indexing a document (replacing any old version) in a dictionary derived from `docs`
/// gives the dictionary derived from `docs` with the new version.
pub proof fn lemma_indexing_derived(
    m: Map<Seq<char>, Seq<PostingView>>,
    docs: Map<Seq<char>, DocumentView>,
    id: Seq<char>,
    d: DocumentView,
)
    requires
        postings_derived(m, docs),
        doc_toks(d).len() <= u32::MAX,
    ensures
        postings_derived(
            postings_with_doc(
                if docs.contains_key(id) {
                    postings_without_doc(m, id)
                } else {
                    m
                },
                id,
                doc_toks(d),
            ),
            docs.insert(id, d),
        ),
{
    let base = if docs.contains_key(id) {
        postings_without_doc(m, id)
    } else {
        m
    };
    if docs.contains_key(id) {
        lemma_removal_derived(m, docs, id);
    } else {
        assert(docs.remove(id) =~= docs);
    }
    lemma_addition_derived(base, docs.remove(id), id, doc_toks(d), d);
    assert(docs.remove(id).insert(id, d) =~= docs.insert(id, d));
}

/// Taking the documents `c` out of a dictionary derived from `docs` gives the
/// dictionary derived from the other documents.
proof fn lemma_strip_derived(m: Map<Seq<char>, Seq<PostingView>>, docs: Map<Seq<char>, DocumentView>, c: Set<Seq<char>>)
    requires
        postings_derived(m, docs),
    ensures
        postings_derived(strip_docs(m, c), docs.remove_keys(c)),
{
    if c == Set::<Seq<char>>::empty() {
        assert(docs.remove_keys(c) =~= docs);
    } else {
        let r = postings_without_docs(m, c);
        let nd = docs.remove_keys(c);
        assert forall|t: Seq<char>| #[trigger] r.contains_key(t) implies r[t].len() > 0 && postings_of_docs(r[t], nd) by {
            lemma_without_docs_of_docs(m[t], c, docs);
        }
        assert forall|t: Seq<char>, i: int| r.contains_key(t) && 0 <= i < r[t].len() implies derived_posting(#[trigger] r[t][i], nd, t) by {
            lemma_without_docs_of_docs(m[t], c, docs);
            let w = without_docs(m[t], c);
            assert(r[t] == w);
            assert(m[t].contains(w[i]));
            let k = choose|k: int| 0 <= k < m[t].len() && m[t][k] == w[i];
            assert(derived_posting(m[t][k], docs, t));
            assert(nd.contains_key(w[i].doc_id));
        }
        assert forall|x: Seq<char>, t: Seq<char>| nd.contains_key(x) && #[trigger] doc_toks(nd[x]).contains(t) implies has_posting(r, t, x) by {
            assert(doc_toks(docs[x]).contains(t));
            assert(has_posting(m, t, x));
            let k = choose|k: int| 0 <= k < m[t].len() && (#[trigger] m[t][k]).doc_id == x;
            let f = |p: PostingView| !c.contains(p.doc_id);
            m[t].lemma_filter_contains(f, k);
            let w = without_docs(m[t], c);
            assert(w.contains(m[t][k]));
            let j = choose|j: int| 0 <= j < w.len() && w[j] == m[t][k];
            assert(r.contains_key(t));
            assert(r[t][j].doc_id == x);
        }
    }
}

/// Merging a dictionary derived from `odocs` into one derived from `docs` gives the
/// dictionary derived from the merged documents.
pub proof fn lemma_merge_derived(
    m: Map<Seq<char>, Seq<PostingView>>,
    docs: Map<Seq<char>, DocumentView>,
    o: Map<Seq<char>, Seq<PostingView>>,
    odocs: Map<Seq<char>, DocumentView>,
)
    requires
        postings_derived(m, docs),
        postings_derived(o, odocs),
    ensures
        postings_derived(
            merged_postings(strip_docs(m, docs.dom().intersect(odocs.dom())), o),
            docs.union_prefer_right(odocs),
        ),
{
    let c = docs.dom().intersect(odocs.dom());
    let sm = strip_docs(m, c);
    let ad = docs.remove_keys(c);
    let u = docs.union_prefer_right(odocs);
    let r = merged_postings(sm, o);
    lemma_merge_describes(m, docs, o, odocs);
    lemma_strip_derived(m, docs, c);
    assert forall|t: Seq<char>| o.contains_key(t) implies #[trigger] r[t] == postings_or_empty(sm, t) + o[t] by {
        let l = postings_or_empty(sm, t);
        let ps = o[t];
        assert(postings_of_docs(l, ad)) by {
            if !sm.contains_key(t) {
                assert(l =~= Seq::<PostingView>::empty());
            }
        }
        assert forall|i: int, j: int| 0 <= i < l.len() && 0 <= j < ps.len() implies (#[trigger] l[i]).doc_id != (#[trigger] ps[j]).doc_id by {
            assert(ad.contains_key(l[i].doc_id));
            assert(odocs.contains_key(ps[j].doc_id));
        }
        lemma_upsert_new_postings(l, ps);
    }
    assert forall|t: Seq<char>, i: int| r.contains_key(t) && 0 <= i < r[t].len() implies derived_posting(#[trigger] r[t][i], u, t) by {
        let l = postings_or_empty(sm, t);
        if o.contains_key(t) && i >= l.len() {
            assert(r[t] == l + o[t]);
            let j = i - l.len();
            assert(r[t][i] == o[t][j]);
            assert(derived_posting(o[t][j], odocs, t));
            assert(odocs.contains_key(o[t][j].doc_id));
        } else {
            if o.contains_key(t) {
                assert(r[t] == l + o[t]);
            } else {
                assert(r[t] == sm[t]);
            }
            assert(sm.contains_key(t));
            assert(r[t][i] == sm[t][i]);
            assert(derived_posting(sm[t][i], ad, t));
            assert(ad.contains_key(sm[t][i].doc_id));
        }
    }
    assert forall|x: Seq<char>, t: Seq<char>| u.contains_key(x) && #[trigger] doc_toks(u[x]).contains(t) implies has_posting(r, t, x) by {
        if odocs.contains_key(x) {
            assert(has_posting(o, t, x));
            let j = choose|j: int| 0 <= j < o[t].len() && (#[trigger] o[t][j]).doc_id == x;
            let l = postings_or_empty(sm, t);
            assert(r[t] == l + o[t]);
            assert(r[t][l.len() + j] == o[t][j]);
        } else {
            assert(ad.contains_key(x));
            assert(doc_toks(ad[x]).contains(t));
            assert(has_posting(sm, t, x));
            let i = choose|i: int| 0 <= i < sm[t].len() && (#[trigger] sm[t][i]).doc_id == x;
            if o.contains_key(t) {
                assert(postings_or_empty(sm, t) == sm[t]);
                assert(r[t] == sm[t] + o[t]);
                assert(r[t][i] == sm[t][i]);
            } else {
                assert(r[t] == sm[t]);
            }
        }
    }
}

/// Each posting of the list of `t` in one dictionary derived from `docs` is in the list
/// of `t` in another.
proof fn lemma_derived_within(
    m1: Map<Seq<char>, Seq<PostingView>>,
    m2: Map<Seq<char>, Seq<PostingView>>,
    docs: Map<Seq<char>, DocumentView>,
    t: Seq<char>,
)
    requires
        postings_derived(m1, docs),
        postings_derived(m2, docs),
        m1.contains_key(t),
    ensures
        m2.contains_key(t),
        forall|x: PostingView| m1[t].contains(x) ==> m2[t].contains(x),
{
    assert(derived_posting(m1[t][0], docs, t));
    assert(docs.contains_key(m1[t][0].doc_id));
    assert(has_posting(m2, t, m1[t][0].doc_id));
    assert forall|x: PostingView| m1[t].contains(x) implies m2[t].contains(x) by {
        let i = choose|i: int| 0 <= i < m1[t].len() && m1[t][i] == x;
        assert(derived_posting(m1[t][i], docs, t));
        assert(docs.contains_key(x.doc_id));
        assert(has_posting(m2, t, x.doc_id));
        let j = choose|j: int| 0 <= j < m2[t].len() && (#[trigger] m2[t][j]).doc_id == x.doc_id;
        assert(derived_posting(m2[t][j], docs, t));
        assert(m2[t][j] == x);
    }
}

/// The documents decide the dictionary derived from them: two such dictionaries have
/// the same terms, and the same postings for each term.
pub proof fn lemma_derived_unique(
    m1: Map<Seq<char>, Seq<PostingView>>,
    m2: Map<Seq<char>, Seq<PostingView>>,
    docs: Map<Seq<char>, DocumentView>,
)
    requires
        postings_derived(m1, docs),
        postings_derived(m2, docs),
    ensures
        m1.dom() == m2.dom(),
        forall|t: Seq<char>| #[trigger] m1.contains_key(t) ==> m1[t].to_set() == m2[t].to_set(),
{
    assert forall|t: Seq<char>| #[trigger] m1.contains_key(t) == m2.contains_key(t) by {
        if m1.contains_key(t) {
            lemma_derived_within(m1, m2, docs, t);
        }
        if m2.contains_key(t) {
            lemma_derived_within(m2, m1, docs, t);
        }
    }
    assert(m1.dom() =~= m2.dom());
    assert forall|t: Seq<char>| #[trigger] m1.contains_key(t) implies m1[t].to_set() == m2[t].to_set() by {
        lemma_derived_within(m1, m2, docs, t);
        lemma_derived_within(m2, m1, docs, t);
        assert(m1[t].to_set() =~= m2[t].to_set());
    }
}

/// The last of sorted entries carries the greatest key, and the others make up the rest
/// of the map.
proof fn lemma_last_entry<V>(s: Seq<(Seq<char>, V)>)
    requires
        keys_sorted(s),
        s.len() > 0,
    ensures
        keys_sorted(s.drop_last()),
        entries_map(s) == entries_map(s.drop_last()).insert(s.last().0, s.last().1),
        forall|k: Seq<char>| #[trigger] entries_map(s.drop_last()).contains_key(k) ==> lex_lt(k, s.last().0),
{
    let s0 = s.drop_last();
    assert(keys_sorted(s0)) by {
        assert forall|i: int, j: int| 0 <= i < j < s0.len() implies lex_lt(#[trigger] s0[i].0, #[trigger] s0[j].0) by {
            assert(s0[i] == s[i] && s0[j] == s[j]);
        }
    }
    assert(s =~= s0.push((s.last().0, s.last().1)));
    lemma_entries_map_push(s0, s.last().0, s.last().1);
    assert forall|k: Seq<char>| #[trigger] entries_map(s0).contains_key(k) implies lex_lt(k, s.last().0) by {
        let a = choose|a: int| 0 <= a < s0.len() && #[trigger] s0[a].0 == k;
        assert(s[a] == s0[a]);
        assert(s[s.len() - 1] == s.last());
    }
}

/// Filing a document under `k` changes the total length of the sorted entries by its
/// length, less that of the version it replaces.
proof fn lemma_sum_insert(
    s: Seq<(Seq<char>, DocumentView)>,
    t: Seq<(Seq<char>, DocumentView)>,
    k: Seq<char>,
    d: DocumentView,
)
    requires
        keys_sorted(s),
        keys_sorted(t),
        entries_map(t) == entries_map(s).insert(k, d),
    ensures
        sum_doc_lengths(t) == sum_doc_lengths(s) + doc_length_of(d) - (if entries_map(s).contains_key(k) {
            doc_length_of(entries_map(s)[k]) as int
        } else {
            0int
        }),
    decreases s.len(),
{
    let m = entries_map(s);
    let n = entries_map(t);
    assert(n.contains_key(k));
    assert(t.len() > 0) by {
        if t.len() == 0 {
            assert(!has_key(t, k));
        }
    }
    lemma_last_entry(t);
    let t0 = t.drop_last();
    let x = t.last();
    lemma_entries_map_at(t, t.len() - 1);
    assert(t[t.len() - 1] == x);
    assert(entries_map(t0) == n.remove(x.0)) by {
        if entries_map(t0).contains_key(x.0) {
            lemma_lex_irreflexive(x.0);
        }
        assert(entries_map(t0) =~= entries_map(t0).insert(x.0, x.1).remove(x.0));
    }
    assert(sum_doc_lengths(t) == sum_doc_lengths(t0) + doc_length_of(x.1));
    assert(n[x.0] == x.1);
    if s.len() == 0 {
        assert(m =~= Map::<Seq<char>, DocumentView>::empty());
        assert(x.0 == k);
        assert(entries_map(t0) =~= Map::<Seq<char>, DocumentView>::empty());
        if t0.len() > 0 {
            lemma_entries_map_at(t0, 0);
        }
    } else {
        lemma_last_entry(s);
        let s0 = s.drop_last();
        let e = s.last();
        let ke = e.0;
        assert(sum_doc_lengths(s) == sum_doc_lengths(s0) + doc_length_of(e.1));
        if entries_map(s0).contains_key(ke) {
            lemma_lex_irreflexive(ke);
        }
        lemma_lex_total(ke, k);
        if ke == k {
            if x.0 != k {
                assert(entries_map(s0).contains_key(x.0));
                assert(lex_lt(x.0, ke));
                assert(entries_map(t0).contains_key(ke));
                assert(lex_lt(ke, x.0));
                lemma_lex_asymmetric(x.0, ke);
            }
            assert(entries_map(t0) =~= entries_map(s0));
            lemma_sorted_entries_determined(t0, s0);
        } else if lex_lt(ke, k) {
            if x.0 != k {
                assert(entries_map(t0).contains_key(k));
                assert(lex_lt(k, x.0));
                if x.0 == ke {
                    lemma_lex_asymmetric(ke, k);
                } else {
                    assert(entries_map(s0).contains_key(x.0));
                    assert(lex_lt(x.0, ke));
                    lemma_lex_transitive(x.0, ke, k);
                    lemma_lex_asymmetric(x.0, k);
                }
            }
            if m.contains_key(k) {
                assert(entries_map(s0).contains_key(k));
                assert(lex_lt(k, ke));
                lemma_lex_asymmetric(k, ke);
            }
            assert(entries_map(t0) =~= m);
            lemma_sorted_entries_determined(t0, s);
        } else {
            if x.0 != ke {
                assert(entries_map(t0).contains_key(ke));
                assert(lex_lt(ke, x.0));
                if x.0 == k {
                    lemma_lex_asymmetric(k, ke);
                } else {
                    assert(entries_map(s0).contains_key(x.0));
                    assert(lex_lt(x.0, ke));
                    lemma_lex_asymmetric(x.0, ke);
                }
            }
            assert(entries_map(t0) =~= entries_map(s0).insert(k, d));
            lemma_sum_insert(s0, t0, k, d);
        }
    }
}

/// Indexing a document keeps each stored length recorded and the total length summed.
proof fn lemma_indexing_lengths(s: InvertedIndex, a: InvertedIndex, id: Seq<char>, title: Seq<char>, body: Seq<char>)
    requires
        s.wf(),
        doc_tokens(title, body).len() <= u32::MAX,
        s.indexes_as(a, id, title, body),
    ensures
        s.lengths_recorded() ==> a.lengths_recorded(),
        s.lengths_recorded() && s.lengths_summed() ==> a.lengths_summed(),
{
    if s.lengths_recorded() {
        assert(a.meta().doc_lengths@ =~= doc_lengths_of(a.docs()));
        if s.lengths_summed() {
            s.lemma_doc_entries();
            a.lemma_doc_entries();
            lemma_sum_insert(s.doc_entries(), a.doc_entries(), id, document_view(id, title, body));
        }
    }
}

/// Deleting a document keeps each stored length recorded and the total length summed.
proof fn lemma_deletion_lengths(s: InvertedIndex, a: InvertedIndex, id: Seq<char>)
    requires
        s.wf(),
        s.deletes_as(a, id),
    ensures
        s.lengths_recorded() ==> a.lengths_recorded(),
        s.lengths_recorded() && s.lengths_summed() ==> a.lengths_summed(),
{
    if s.lengths_recorded() {
        s.lemma_doc_entries();
        a.lemma_doc_entries();
        if s.docs().contains_key(id) {
            assert(a.meta().doc_lengths@ =~= doc_lengths_of(a.docs()));
            assert(entries_map(s.doc_entries()) =~= entries_map(a.doc_entries()).insert(id, s.docs()[id]));
            lemma_sum_insert(a.doc_entries(), s.doc_entries(), id, s.docs()[id]);
        } else {
            assert(a.docs() =~= s.docs());
            lemma_sorted_entries_determined(a.doc_entries(), s.doc_entries());
        }
    }
}

/// Indexing the first `k` of `ids` one by one, each with its document in `other`,
/// stores `before`'s documents overridden by those `k`, keeps the dictionary derived
/// from the documents and the metadata consistent, and records each document's length.
proof fn lemma_indexing_each(
    before: InvertedIndex,
    other: InvertedIndex,
    states: Seq<InvertedIndex>,
    ids: Seq<Seq<char>>,
    k: int,
)
    requires
        before.wf(),
        before.consistent(),
        before.postings_derived(),
        before.lengths_recorded(),
        before.lengths_summed(),
        other.ids_match(),
        forall|x: Seq<char>| #[trigger] other.docs().contains_key(x) ==> doc_toks(other.docs()[x]).len() <= u32::MAX,
        ids.to_set() == other.docs().dom(),
        states.len() == ids.len() + 1,
        states[0] == before,
        forall|i: int|
            #![trigger states[i]]
            0 <= i < ids.len() ==> states[i].added(
                states[i + 1],
                ids[i],
                other.docs()[ids[i]].title,
                other.docs()[ids[i]].body,
            ),
        0 <= k <= ids.len(),
    ensures
        states[k].docs() == before.docs().union_prefer_right(other.docs().restrict(ids.take(k).to_set())),
        states[k].consistent(),
        states[k].postings_derived(),
        states[k].lengths_recorded(),
        states[k].wf(),
        states[k].lengths_summed(),
    decreases k,
{
    if k == 0 {
        assert(ids.take(0).to_set() =~= Set::<Seq<char>>::empty());
        assert(before.docs().union_prefer_right(other.docs().restrict(Set::<Seq<char>>::empty())) =~= before.docs());
    } else {
        lemma_indexing_each(before, other, states, ids, k - 1);
        let s = states[k - 1];
        let a = states[k];
        let id = ids[k - 1];
        let d = other.docs()[id];
        assert(s.added(a, id, d.title, d.body));
        assert(ids.to_set().contains(id)) by {
            assert(ids[k - 1] == id);
        }
        assert(other.docs().contains_key(id));
        assert(document_view(id, d.title, d.body) == d);
        let tk = ids.take(k);
        let tp = ids.take(k - 1);
        assert(tk.to_set() =~= tp.to_set().insert(id)) by {
            assert forall|x: Seq<char>| #[trigger] tk.contains(x) == (tp.contains(x) || x == id) by {
                if tk.contains(x) {
                    let j = choose|j: int| 0 <= j < tk.len() && tk[j] == x;
                    if j < k - 1 {
                        assert(tp[j] == x);
                    }
                }
                if tp.contains(x) {
                    let j = choose|j: int| 0 <= j < tp.len() && tp[j] == x;
                    assert(tk[j] == x);
                }
                if x == id {
                    assert(tk[k - 1] == x);
                }
            }
        }
        assert(a.docs() =~= before.docs().union_prefer_right(other.docs().restrict(ids.take(k).to_set())));
        assert(s.added(a, id, d.title, d.body));
    }
}

/// Merging `other` into `before` and indexing the documents of `other` into `before`
/// one by one, in any order that names each of them, end with the same documents, the
/// same terms, the same postings for each term, and the same metadata.
pub proof fn lemma_merge_matches_indexing(
    before: InvertedIndex,
    other: InvertedIndex,
    merged: InvertedIndex,
    states: Seq<InvertedIndex>,
    ids: Seq<Seq<char>>,
)
    requires
        before.wf(),
        before.consistent(),
        before.postings_derived(),
        before.lengths_recorded(),
        before.lengths_summed(),
        other.ids_match(),
        other.postings_derived(),
        forall|x: Seq<char>| #[trigger] other.docs().contains_key(x) ==> doc_toks(other.docs()[x]).len() <= u32::MAX,
        before.merges_into(merged, other),
        ids.to_set() == other.docs().dom(),
        states.len() == ids.len() + 1,
        states[0] == before,
        forall|i: int|
            #![trigger states[i]]
            0 <= i < ids.len() ==> states[i].added(
                states[i + 1],
                ids[i],
                other.docs()[ids[i]].title,
                other.docs()[ids[i]].body,
            ),
    ensures
        states.last().docs() == merged.docs(),
        states.last().postings().dom() == merged.postings().dom(),
        forall|t: Seq<char>| #[trigger] merged.postings().contains_key(t) ==> merged.postings()[t].to_set()
            == states.last().postings()[t].to_set(),
        states.last().meta().doc_lengths@ == merged.meta().doc_lengths@,
        states.last().meta().total_docs == merged.meta().total_docs,
        states.last().meta().total_doc_length == merged.meta().total_doc_length,
{
    let n = ids.len() as int;
    lemma_indexing_each(before, other, states, ids, n);
    assert(ids.take(n) =~= ids);
    assert(other.docs().restrict(ids.to_set()) =~= other.docs());
    let last = states[n];
    assert(last.docs() == merged.docs());
    lemma_merge_derived(before.postings(), before.docs(), other.postings(), other.docs());
    lemma_derived_unique(merged.postings(), last.postings(), merged.docs());
    last.lemma_doc_entries();
    merged.lemma_doc_entries();
    lemma_sorted_entries_determined(last.doc_entries(), merged.doc_entries());
}

/// The total recorded length of the documents `m` fits in 64 bits.
pub open spec fn lengths_fit(m: Map<Seq<char>, DocumentView>) -> bool {
    forall|s: Seq<(Seq<char>, DocumentView)>| keys_sorted(s) && #[trigger] entries_map(s) == m ==> sum_doc_lengths(s) <= u64::MAX
}

/// The documents of the indexes `segs` merged in order, later ones overriding earlier.
pub open spec fn merged_docs(segs: Seq<Map<Seq<char>, DocumentView>>) -> Map<Seq<char>, DocumentView>
    decreases segs.len(),
{
    if segs.len() == 0 {
        Map::empty()
    } else {
        merged_docs(segs.drop_last()).union_prefer_right(segs.last())
    }
}

/// The stored documents of each index of `segs`.
pub open spec fn docs_of(segs: Seq<InvertedIndex>) -> Seq<Map<Seq<char>, DocumentView>> {
    segs.map_values(|x: InvertedIndex| x.docs())
}

/// Merging the indexes `segs` one after another keeps the total length in 64 bits at
/// every step.
pub open spec fn merges_fit(segs: Seq<InvertedIndex>) -> bool {
    forall|i: int| 0 <= i < segs.len() ==> lengths_fit(#[trigger] merged_docs(docs_of(segs).take(i)).union_prefer_right(segs[i].docs()))
}

/// The total recorded length of sorted entries covers the length of each of them.
proof fn lemma_sum_covers(s: Seq<(Seq<char>, DocumentView)>, k: Seq<char>)
    requires
        keys_sorted(s),
        entries_map(s).contains_key(k),
    ensures
        sum_doc_lengths(s) >= doc_length_of(entries_map(s)[k]),
    decreases s.len(),
{
    assert(s.len() > 0) by {
        if s.len() == 0 {
            assert(!has_key(s, k));
        }
    }
    lemma_last_entry(s);
    let s0 = s.drop_last();
    lemma_sum_doc_lengths_nonneg(s0);
    if s.last().0 != k {
        lemma_sum_covers(s0, k);
    }
}

pub open spec fn document_view(id: Seq<char>, title: Seq<char>, body: Seq<char>) -> DocumentView {
    DocumentView { id, title, body }
}

/// An in-memory inverted index mapping terms to positional postings lists.
///
/// Each term maps to a `Vec<Posting>` containing the document ID, the number
/// of times the term appears in that document, and the positions where it
/// appears. Terms are kept sorted, enabling prefix range queries.
pub struct InvertedIndex {
    /// term → list of postings (doc_id + term_frequency + positions), sorted by term
    index: StrMap<Vec<Posting>>,
    /// doc_id → stored document (title + body)
    documents: StrMap<Document>,
    /// Corpus-level metadata for BM25 scoring.
    metadata: IndexMetadata,
}

impl Default for InvertedIndex {
    fn default() -> (r: Self)
        ensures
            r.wf(),
            r.postings() == Map::<Seq<char>, Seq<PostingView>>::empty(),
            r.docs() == Map::<Seq<char>, DocumentView>::empty(),
            r.meta().total_docs == 0,
            r.meta().total_doc_length == 0,
            r.meta().doc_lengths@ == Map::<Seq<char>, u32>::empty(),
    {
        InvertedIndex::new()
    }
}

impl InvertedIndex {
    /// The term dictionary: each term's postings.
    pub closed spec fn postings(&self) -> Map<Seq<char>, Seq<PostingView>> {
        self.index@
    }

    /// The terms, in sorted order.
    pub closed spec fn terms(&self) -> Seq<Seq<char>> {
        self.index.keys_view()
    }

    /// The stored documents, by id.
    pub closed spec fn docs(&self) -> Map<Seq<char>, DocumentView> {
        self.documents@
    }

    /// The corpus metadata.
    pub closed spec fn meta(&self) -> IndexMetadata {
        self.metadata
    }

    /// The term dictionary and the document store keep their keys sorted.
    pub closed spec fn wf(&self) -> bool {
        self.index.wf() && self.documents.wf() && self.metadata.doc_lengths.wf()
    }

    /// The term dictionary in sorted order.
    pub closed spec fn term_entries(&self) -> Seq<(Seq<char>, Seq<PostingView>)> {
        self.index.entries_view()
    }

    /// The terms are the keys of the term dictionary, in increasing order.
    pub proof fn lemma_terms(&self)
        requires
            self.wf(),
        ensures
            keys_sorted(self.term_entries()),
            entries_map(self.term_entries()) == self.postings(),
            self.terms() == self.term_entries().map_values(|e: (Seq<char>, Seq<PostingView>)| e.0),
    {
    }

    /// Create a new, empty inverted index.
    pub fn new() -> (r: Self)
        ensures
            r.wf(),
            r.postings() == Map::<Seq<char>, Seq<PostingView>>::empty(),
            r.docs() == Map::<Seq<char>, DocumentView>::empty(),
            r.meta().total_docs == 0,
            r.meta().total_doc_length == 0,
            r.meta().doc_lengths@ == Map::<Seq<char>, u32>::empty(),
            r.consistent(),
            r.postings_ok(),
            r.postings_derived(),
            r.lengths_recorded(),
            r.lengths_summed(),
    {
        let r = InvertedIndex { index: StrMap::new(), documents: StrMap::new(), metadata: IndexMetadata::new() };
        assert(r.meta().doc_lengths@.dom() =~= r.docs().dom());
        assert(r.meta().doc_lengths@ =~= doc_lengths_of(r.docs()));
        r
    }


    /// Every stored document is filed under its own id.
    pub open spec fn ids_match(&self) -> bool {
        forall|k: Seq<char>| #[trigger] self.docs().contains_key(k) ==> self.docs()[k].id == k
    }

    /// The metadata describes the stored documents: each document is filed under its
    /// own id, has one recorded length, and is counted once.
    pub open spec fn consistent(&self) -> bool {
        &&& self.ids_match()
        &&& self.meta().doc_lengths@.dom() == self.docs().dom()
        &&& self.meta().total_docs == self.docs().len()
    }

    /// The term dictionary describes the stored documents: no list is empty, and each
    /// posting names a stored document, once per list, with its frequency equal to its
    /// number of positions (at least one) and its positions increasing.
    pub open spec fn postings_ok(&self) -> bool {
        postings_describe(self.postings(), self.docs())
    }

    /// The term dictionary is the one that indexing the stored documents gives.
    pub open spec fn postings_derived(&self) -> bool {
        postings_derived(self.postings(), self.docs())
    }

    /// The recorded length of each stored document is its token count.
    pub open spec fn lengths_recorded(&self) -> bool {
        self.meta().doc_lengths@ == doc_lengths_of(self.docs())
    }

    /// The total length is the sum of the recorded lengths of the stored documents.
    pub open spec fn lengths_summed(&self) -> bool {
        self.meta().total_doc_length == sum_doc_lengths(self.doc_entries())
    }

    /// Whether indexing or deleting `id` takes a recorded length out of the metadata.
    pub open spec fn removes_length(&self, id: Seq<char>) -> bool {
        self.docs().contains_key(id) && self.meta().doc_lengths@.contains_key(id)
    }

    /// The document count once the old version of `id` is taken out.
    pub open spec fn docs_without(&self, id: Seq<char>) -> int {
        if self.removes_length(id) {
            self.meta().total_docs - 1
        } else {
            self.meta().total_docs as int
        }
    }

    /// The total length once the old version of `id` is taken out.
    pub open spec fn length_without(&self, id: Seq<char>) -> int {
        if self.removes_length(id) {
            self.meta().total_doc_length - self.meta().doc_lengths@[id]
        } else {
            self.meta().total_doc_length as int
        }
    }

    /// The term dictionary once the old version of `id` is taken out.
    pub open spec fn postings_without(&self, id: Seq<char>) -> Map<Seq<char>, Seq<PostingView>> {
        if self.docs().contains_key(id) {
            postings_without_doc(self.postings(), id)
        } else {
            self.postings()
        }
    }

    /// Taking the old version of `id` out of the metadata does not go below zero.
    pub open spec fn can_remove(&self, id: Seq<char>) -> bool {
        self.removes_length(id) ==> {
            &&& self.meta().total_docs >= 1
            &&& self.meta().total_doc_length >= self.meta().doc_lengths@[id]
        }
    }

    /// Indexing a document with this title and body under `id` keeps every count in
    /// range: the old version can be taken out, and the new counts fit.
    pub open spec fn add_allowed(&self, id: Seq<char>, title: Seq<char>, body: Seq<char>) -> bool {
        &&& doc_tokens(title, body).len() <= u32::MAX
        &&& self.can_remove(id)
        &&& self.docs_without(id) + 1 <= u64::MAX
        &&& self.length_without(id) + doc_tokens(title, body).len() <= u64::MAX
    }

    /// `after` holds the documents, postings and metadata that indexing the document
    /// `id` with this title and body into `self` gives.
    pub open spec fn indexes_as(&self, after: InvertedIndex, id: Seq<char>, title: Seq<char>, body: Seq<char>) -> bool {
        &&& after.wf()
        &&& after.postings() == postings_with_doc(self.postings_without(id), id, doc_tokens(title, body))
        &&& after.docs() == self.docs().insert(id, document_view(id, title, body))
        &&& after.meta().doc_lengths@ == self.meta().doc_lengths@.insert(
            id,
            doc_tokens(title, body).len() as u32,
        )
        &&& after.meta().total_docs == self.docs_without(id) + 1
        &&& after.meta().total_doc_length == self.length_without(id) + doc_tokens(title, body).len()
    }

    /// `after` is `self` with the document `id` indexed with this title and body, and
    /// it keeps each invariant that `self` has.
    pub open spec fn added(&self, after: InvertedIndex, id: Seq<char>, title: Seq<char>, body: Seq<char>) -> bool {
        &&& self.indexes_as(after, id, title, body)
        &&& self.consistent() ==> after.consistent()
        &&& self.postings_ok() ==> after.postings_ok()
        &&& self.postings_derived() ==> after.postings_derived()
        &&& self.lengths_recorded() ==> after.lengths_recorded()
        &&& self.lengths_recorded() && self.lengths_summed() ==> after.lengths_summed()
    }

    /// `after` holds the documents, postings and metadata that taking the document `id`
    /// out of `self` gives.
    pub open spec fn deletes_as(&self, after: InvertedIndex, id: Seq<char>) -> bool {
        &&& after.wf()
        &&& after.postings() == self.postings_without(id)
        &&& after.docs() == self.docs().remove(id)
        &&& self.docs().contains_key(id) ==> after.meta().doc_lengths@ == self.meta().doc_lengths@.remove(id)
        &&& !self.docs().contains_key(id) ==> after.meta().doc_lengths@ == self.meta().doc_lengths@
        &&& after.meta().total_docs == self.docs_without(id)
        &&& after.meta().total_doc_length == self.length_without(id)
    }

    /// `after` is `self` with the document `id` taken out, and it keeps each invariant
    /// that `self` has.
    pub open spec fn deleted(&self, after: InvertedIndex, id: Seq<char>) -> bool {
        &&& self.deletes_as(after, id)
        &&& self.consistent() ==> after.consistent()
        &&& self.postings_ok() ==> after.postings_ok()
        &&& self.postings_derived() ==> after.postings_derived()
        &&& self.lengths_recorded() ==> after.lengths_recorded()
        &&& self.lengths_recorded() && self.lengths_summed() ==> after.lengths_summed()
    }

    /// The total length of the documents of `self` overridden by those of `other` fits
    /// in 64 bits.
    pub open spec fn merge_in_range(&self, other: InvertedIndex) -> bool {
        lengths_fit(self.docs().union_prefer_right(other.docs()))
    }

    /// The metadata counts the stored documents.
    pub open spec fn counts_docs(&self) -> bool {
        self.meta().total_docs == self.docs().len()
    }

    /// `after` is `other` merged into `self`: the documents of `self` overridden by those
    /// of `other`, the postings of the replaced documents taken out and those of `other`
    /// added, the metadata recomputed from the merged documents, and each invariant that
    /// both indexes have kept.
    pub open spec fn merges_into(&self, after: InvertedIndex, other: InvertedIndex) -> bool {
        &&& after.wf()
        &&& after.docs() == self.docs().union_prefer_right(other.docs())
        &&& after.postings() == merged_postings(
            strip_docs(self.postings(), self.docs().dom().intersect(other.docs().dom())),
            other.postings(),
        )
        &&& after.meta().total_docs == after.docs().len()
        &&& after.lengths_recorded()
        &&& after.lengths_summed()
        &&& self.ids_match() && other.ids_match() ==> after.consistent()
        &&& self.postings_ok() && other.postings_ok() ==> after.postings_ok()
        &&& self.postings_derived() && other.postings_derived() ==> after.postings_derived()
    }

    /// The number of stored documents.
    pub fn stored_doc_count(&self) -> (n: usize)
        requires
            self.wf(),
        ensures
            n == self.docs().len(),
            self.docs().dom().finite(),
    {
        proof {
            self.lemma_doc_entries();
            crate::strmap::lemma_entries_map_len(self.doc_entries());
        }
        self.documents.len()
    }

    /// Whether taking the document `id` out keeps the counts in range.
    pub fn can_delete(&self, id: &str) -> (r: bool)
        requires
            self.wf(),
        ensures
            r == self.can_remove(id@),
    {
        if !self.documents.contains_key(id) {
            return true;
        }
        match self.metadata.doc_lengths.get(id) {
            Some(l) => self.metadata.total_docs >= 1 && self.metadata.total_doc_length >= *l as u64,
            None => true,
        }
    }

    /// Whether indexing this document under `id` keeps the counts in range.
    pub fn can_add(&self, id: &str, title: &str, body: &str) -> (r: bool)
        requires
            self.wf(),
        ensures
            r == self.add_allowed(id@, title@, body@),
    {
        let n_title = Analyzer::analyze(title).len();
        let n_body = Analyzer::analyze(body).len();
        proof {
            assert(doc_tokens(title@, body@).len() == n_title + n_body);
        }
        if n_title as u128 + n_body as u128 > u32::MAX as u128 {
            return false;
        }
        let n = (n_title + n_body) as u64;
        if !self.can_delete(id) {
            return false;
        }
        let removes = self.documents.contains_key(id) && self.metadata.doc_lengths.contains_key(id);
        let (docs, length) = if removes {
            let l = *self.metadata.doc_lengths.get(id).unwrap();
            (self.metadata.total_docs - 1, self.metadata.total_doc_length - l as u64)
        } else {
            (self.metadata.total_docs, self.metadata.total_doc_length)
        };
        docs < u64::MAX && length as u128 + n as u128 <= u64::MAX as u128
    }

    /// Index a document: analyze the combined title+body text, count term
    /// frequencies, record positions, and store postings.
    ///
    /// If a document with the same ID already exists, it will be overwritten.
    /// The old document's contributions are removed before re-indexing.
    pub fn add_document(&mut self, id: &str, title: &str, body: &str)
        requires
            old(self).wf(),
            doc_tokens(title@, body@).len() <= u32::MAX,
            old(self).can_remove(id@),
            old(self).docs_without(id@) + 1 <= u64::MAX,
            old(self).length_without(id@) + doc_tokens(title@, body@).len() <= u64::MAX,
        ensures
            final(self).wf(),
            final(self).postings() == postings_with_doc(
                old(self).postings_without(id@),
                id@,
                doc_tokens(title@, body@),
            ),
            final(self).docs() == old(self).docs().insert(id@, document_view(id@, title@, body@)),
            final(self).meta().doc_lengths@ == old(self).meta().doc_lengths@.insert(
                id@,
                doc_tokens(title@, body@).len() as u32,
            ),
            final(self).meta().total_docs == old(self).docs_without(id@) + 1,
            final(self).meta().total_doc_length == old(self).length_without(id@) + doc_tokens(
                title@,
                body@,
            ).len(),
            old(self).consistent() ==> final(self).consistent(),
            old(self).postings_ok() ==> final(self).postings_ok(),
            old(self).postings_derived() ==> final(self).postings_derived(),
            old(self).lengths_recorded() ==> final(self).lengths_recorded(),
            old(self).lengths_recorded() && old(self).lengths_summed() ==> final(self).lengths_summed(),
    {
        let doc_id = id.to_owned();
        let ghost dtoks = doc_tokens(title@, body@);

        // If updating an existing document, remove old data first
        if self.documents.contains_key(id) {
            self.remove_document_postings(id);
        }
        let ghost base = self.index@;
        assert(base == old(self).postings_without(id@));

        // Store the document
        self.documents.insert(
            doc_id.clone(),
            Document { id: doc_id.clone(), title: title.to_owned(), body: body.to_owned() },
        );

        // Title tokens get positions starting at 0, body tokens continue
        // from where the title left off.
        let mut all_tokens = Analyzer::analyze_with_positions(title, 0);
        let body_offset = all_tokens.len() as u32;
        let mut body_tokens = Analyzer::analyze_with_positions(body, body_offset);
        let doc_length = (all_tokens.len() + body_tokens.len()) as u32;
        let ghost title_len = all_tokens@.len();
        let ghost title_part = all_tokens@;
        let ghost body_part = body_tokens@;
        all_tokens.append(&mut body_tokens);
        let n = all_tokens.len();
        let ghost meta_before = self.metadata;
        let ghost docs_before = self.documents;
        proof {
            assert forall|k: int| 0 <= k < n implies (#[trigger] all_tokens@[k]).0@ == dtoks[k]
                && all_tokens@[k].1 == k by {
                if k < title_len {
                    assert(all_tokens@[k] == title_part[k]);
                } else {
                    assert(all_tokens@[k] == body_part[k - title_len]);
                }
            }
            assert(dtoks.take(0) =~= Seq::<Seq<char>>::empty());
            assert(term_table(dtoks.take(0)) =~= Map::<Seq<char>, (u32, Seq<u32>)>::empty());
        }

        // Collect term frequencies and positions within this document
        let mut term_data: StrMap<(u32, Vec<u32>)> = StrMap::new();
        let mut k: usize = 0;
        while k < n
            invariant
                n == dtoks.len(),
                n <= u32::MAX,
                0 <= k <= n,
                all_tokens@.len() == n,
                forall|j: int| 0 <= j < n ==> (#[trigger] all_tokens@[j]).0@ == dtoks[j] && all_tokens@[j].1 == j,
                term_data.wf(),
                term_data@ == term_table(dtoks.take(k as int)),
            decreases n - k,
        {
            let tok = &all_tokens[k].0;
            let pos = all_tokens[k].1;
            proof {
                assert(dtoks.take(k + 1) =~= dtoks.take(k as int).push(dtoks[k as int]));
                lemma_term_table_push(dtoks.take(k as int), dtoks[k as int]);
                lemma_term_positions(dtoks.take(k as int), dtoks[k as int]);
            }
            match term_data.remove(tok.as_str()) {
                Some((freq, positions)) => {
                    let mut positions = positions;
                    proof {
                        lemma_u32_vec_deep_view(positions);
                    }
                    positions.push(pos);
                    proof {
                        lemma_u32_vec_deep_view(positions);
                    }
                    term_data.insert(tok.clone(), (freq + 1, positions));
                },
                None => {
                    let mut positions: Vec<u32> = Vec::new();
                    positions.push(pos);
                    proof {
                        lemma_u32_vec_deep_view(positions);
                    }
                    term_data.insert(tok.clone(), (1, positions));
                    proof {
                        assert(term_positions(dtoks.take(k as int), dtoks[k as int]) =~= Seq::<u32>::empty());
                    }
                },
            }
            proof {
                assert(term_data@ =~= term_table(dtoks.take(k + 1)));
            }
            k = k + 1;
        }
        proof {
            assert(dtoks.take(n as int) =~= dtoks);
        }

        // Insert postings
        let ghost s = term_data.entries_view();
        let entries = term_data.into_entries();
        let ghost ent = entries@;
        let mut entries = crate::strmap::into_reversed(entries);
        let m = entries.len();
        let mut i: usize = 0;
        proof {
            assert(postings_with_terms(base, id@, dtoks, Set::empty()) =~= base);
        }
        while i < m
            invariant
                m == s.len(),
                keys_sorted(s),
                entries_map(s) == term_table(dtoks),
                0 <= i <= m,
                entries@.len() == m - i,
                forall|j: int|
                    0 <= j < m - i ==> {
                        let e = #[trigger] entries@[j];
                        (e.0@, e.1.deep_view()) == s[m - 1 - j]
                    },
                doc_id@ == id@,
                self.index.wf(),
                self.metadata == meta_before,
                self.documents == docs_before,
                self.index@ == postings_with_terms(
                    base,
                    id@,
                    dtoks,
                    Set::new(|t: Seq<char>| exists|j: int| 0 <= j < i && #[trigger] s[j].0 == t),
                ),
            decreases m - i,
        {
            let (term, (freq, positions)) = entries.pop().unwrap();
            proof {
                lemma_u32_vec_deep_view(positions);
            }
            let ghost done = Set::new(|t: Seq<char>| exists|j: int| 0 <= j < i && #[trigger] s[j].0 == t);
            let ghost done2 = Set::new(
                |t: Seq<char>| exists|j: int| 0 <= j < i + 1 && #[trigger] s[j].0 == t,
            );
            proof {
                crate::strmap::lemma_entries_map_at(s, i as int);
                assert(!done.contains(term@)) by {
                    if done.contains(term@) {
                        let j = choose|j: int| 0 <= j < i && #[trigger] s[j].0 == term@;
                        crate::strmap::lemma_sorted_key_unique(s, j, i as int);
                    }
                }
                assert(done2 =~= done.insert(term@)) by {
                    assert(s[i as int].0 == term@);
                }
            }
            let ghost idx_before = self.index@;
            let mut list = match self.index.remove(term.as_str()) {
                Some(l) => l,
                None => {
                    let l: Vec<Posting> = Vec::new();
                    assert(l.deep_view() =~= Seq::<PostingView>::empty());
                    l
                },
            };
            let ghost old_list = list.deep_view();
            assert(old_list == postings_or_empty(idx_before, term@));
            assert(postings_or_empty(idx_before, term@) == postings_or_empty(base, term@));
            list.push(Posting { doc_id: doc_id.clone(), term_frequency: freq, positions });
            proof {
                assert(list.deep_view() =~= old_list.push(posting_for(id@, dtoks, term@)));
            }
            self.index.insert(term, list);
            proof {
                assert(self.index@ =~= postings_with_terms(base, id@, dtoks, done2));
            }
            i = i + 1;
        }
        proof {
            let done = Set::new(|t: Seq<char>| exists|j: int| 0 <= j < m && #[trigger] s[j].0 == t);
            assert(done =~= dtoks.to_set()) by {
                assert forall|t: Seq<char>| done.contains(t) <==> #[trigger] dtoks.to_set().contains(t) by {
                    if done.contains(t) {
                        let j = choose|j: int| 0 <= j < m && #[trigger] s[j].0 == t;
                        crate::strmap::lemma_entries_map_at(s, j);
                    }
                    if dtoks.to_set().contains(t) {
                        assert(term_table(dtoks).contains_key(t));
                        let j = crate::strmap::key_index(s, t);
                        assert(s[j].0 == t);
                    }
                }
            }
        }

        // Update metadata
        self.metadata.total_docs = self.metadata.total_docs + 1;
        self.metadata.total_doc_length = self.metadata.total_doc_length + doc_length as u64;
        self.metadata.doc_lengths.insert(doc_id, doc_length);
        proof {
            assert(self.metadata.doc_lengths@ =~= old(self).meta().doc_lengths@.insert(
                id@,
                dtoks.len() as u32,
            ));
            if old(self).consistent() {
                old(self).lemma_doc_entries();
                crate::strmap::lemma_entries_map_len(old(self).doc_entries());
                assert(self.meta().doc_lengths@.dom() =~= self.docs().dom());
            }
            if old(self).postings_ok() {
                lemma_indexing_describes(
                    old(self).postings(),
                    old(self).docs(),
                    id@,
                    dtoks,
                    document_view(id@, title@, body@),
                );
            }
            if old(self).postings_derived() {
                lemma_indexing_derived(old(self).postings(), old(self).docs(), id@, document_view(id@, title@, body@));
            }
            assert(old(self).indexes_as(*self, id@, title@, body@));
            lemma_indexing_lengths(*old(self), *self, id@, title@, body@);
        }
    }

    /// Index a document if that keeps every count in range; otherwise leave the index
    /// as it is. Returns whether the document was indexed.
    pub fn try_add_document(&mut self, id: &str, title: &str, body: &str) -> (r: bool)
        requires
            old(self).wf(),
        ensures
            r == old(self).add_allowed(id@, title@, body@),
            r ==> old(self).added(*final(self), id@, title@, body@),
            !r ==> *final(self) == *old(self),
    {
        if self.can_add(id, title, body) {
            self.add_document(id, title, body);
            true
        } else {
            false
        }
    }

    /// Delete a document by ID. Returns `true` if the document existed.
    ///
    /// Removes the document from storage, all its postings from the index,
    /// and updates corpus metadata.
    pub fn delete_document(&mut self, id: &str) -> (deleted: bool)
        requires
            old(self).wf(),
            old(self).can_remove(id@),
        ensures
            final(self).wf(),
            deleted == old(self).docs().contains_key(id@),
            final(self).postings() == old(self).postings_without(id@),
            final(self).docs() == old(self).docs().remove(id@),
            deleted ==> final(self).meta().doc_lengths@ == old(self).meta().doc_lengths@.remove(id@),
            !deleted ==> final(self).meta().doc_lengths@ == old(self).meta().doc_lengths@,
            final(self).meta().total_docs == old(self).docs_without(id@),
            final(self).meta().total_doc_length == old(self).length_without(id@),
            old(self).consistent() ==> final(self).consistent(),
            old(self).postings_ok() ==> final(self).postings_ok(),
            old(self).postings_derived() ==> final(self).postings_derived(),
            old(self).lengths_recorded() ==> final(self).lengths_recorded(),
            old(self).lengths_recorded() && old(self).lengths_summed() ==> final(self).lengths_summed(),
    {
        proof {
            if old(self).postings_derived() {
                lemma_removal_derived(old(self).postings(), old(self).docs(), id@);
            }
            if old(self).postings_ok() {
                lemma_removal_describes(old(self).postings(), old(self).docs(), id@);
                if !old(self).docs().contains_key(id@) {
                    assert(old(self).docs().remove(id@) =~= old(self).docs());
                }
            }
            old(self).lemma_doc_entries();
            crate::strmap::lemma_entries_map_len(old(self).doc_entries());
        }
        if self.documents.remove(id).is_none() {
            assert(self.docs() =~= old(self).docs());
            proof {
                assert(old(self).deletes_as(*self, id@));
                lemma_deletion_lengths(*old(self), *self, id@);
            }
            return false;
        }
        self.remove_document_postings(id);
        proof {
            if old(self).consistent() {
                assert(self.meta().doc_lengths@.dom() =~= self.docs().dom());
            }
            assert(old(self).deletes_as(*self, id@));
            lemma_deletion_lengths(*old(self), *self, id@);
        }
        true
    }


    /// Get the postings list for a given term, if it exists.
    pub fn get_postings(&self, term: &str) -> (r: Option<&Vec<Posting>>)
        requires
            self.wf(),
        ensures
            r is Some <==> self.postings().contains_key(term@),
            r matches Some(ps) ==> ps.deep_view() == self.postings()[term@],
    {
        self.index.get(term)
    }

    /// Get the corpus metadata (total docs, doc lengths, etc.).
    pub fn get_metadata(&self) -> (m: &IndexMetadata)
        ensures
            *m == self.meta(),
            self.wf() ==> m.doc_lengths.wf(),
    {
        &self.metadata
    }

    /// Retrieve a stored document by ID.
    pub fn get_document(&self, id: &str) -> (r: Option<&Document>)
        requires
            self.wf(),
        ensures
            r is Some <==> self.docs().contains_key(id@),
            r matches Some(d) ==> d.deep_view() == self.docs()[id@],
    {
        self.documents.get(id)
    }

    /// Return the total number of indexed documents.
    pub fn doc_count(&self) -> (n: u64)
        ensures
            n == self.meta().total_docs,
    {
        self.metadata.total_docs
    }

    /// Return the total number of unique terms in the index.
    pub fn term_count(&self) -> (n: usize)
        requires
            self.wf(),
        ensures
            n == self.postings().dom().len(),
            n == self.terms().len(),
    {
        proof {
            crate::strmap::lemma_entries_map_len(self.index.entries_view());
        }
        self.index.len()
    }

    /// Return all unique terms in the index, in sorted order.
    ///
    /// Used by fuzzy search to brute-force scan for terms within a given
    /// edit distance.
    pub fn all_terms(&self) -> (r: Vec<&str>)
        ensures
            r@.map_values(|t: &str| t@) == self.terms(),
    {
        let mut r: Vec<&str> = Vec::new();
        let n = self.index.len();
        let ghost ts = self.terms();
        let mut i: usize = 0;
        while i < n
            invariant
                n == ts.len(),
                ts == self.terms(),
                0 <= i <= n,
                r@.len() == i,
                forall|j: int| 0 <= j < i ==> (#[trigger] r@[j])@ == ts[j],
            decreases n - i,
        {
            let k = self.index.key_at(i);
            assert(k@ == ts[i as int]);
            let ks = k.as_str();
            r.push(ks);
            i = i + 1;
        }
        assert(r@.map_values(|t: &str| t@) =~= ts);
        r
    }

    /// Return all terms in the index that start with the given prefix, in sorted order.
    ///
    /// The terms that start with `prefix` follow one another in the sorted dictionary,
    /// from the first term that does not sort before `prefix`: the lookup finds that
    /// term by binary search and reads on while the terms start with `prefix`.
    pub fn get_terms_with_prefix(&self, prefix: &str) -> (r: Vec<&str>)
        requires
            self.wf(),
        ensures
            r@.map_values(|t: &str| t@) == terms_with_prefix(self.terms(), prefix@),
    {
        let chars = chars_of(prefix);
        let mut r: Vec<&str> = Vec::new();
        let n = self.index.len();
        let ghost ts = self.terms();
        let ghost ev = self.index.entries_view();
        let lo = self.index.lower_bound(prefix);
        let mut i: usize = lo;
        proof {
            assert(ts.subrange(lo as int, lo as int) =~= Seq::<Seq<char>>::empty());
            assert(r@.map_values(|t: &str| t@) =~= Seq::<Seq<char>>::empty());
        }
        while i < n && starts_with(self.index.key_at(i).as_str(), &chars)
            invariant
                n == ts.len(),
                ts == self.terms(),
                ev == self.index.entries_view(),
                ts == ev.map_values(|e: (Seq<char>, Seq<PostingView>)| e.0),
                chars@ == prefix@,
                lo <= i <= n,
                r@.map_values(|t: &str| t@) == ts.subrange(lo as int, i as int),
                forall|j: int| lo <= j < i ==> prefix@.is_prefix_of(#[trigger] ts[j]),
            decreases n - i,
        {
            let k = self.index.key_at(i);
            assert(ts[i as int] == k@);
            let ks = k.as_str();
            let ghost before = r@;
            r.push(ks);
            proof {
                assert(r@ == before.push(ks));
                assert(r@.map_values(|t: &str| t@) =~= before.map_values(|t: &str| t@).push(ks@));
                assert(ts.subrange(lo as int, i + 1) =~= ts.subrange(lo as int, i as int).push(ts[i as int]));
            }
            i = i + 1;
        }
        proof {
            let f = |t: Seq<char>| prefix@.is_prefix_of(t);
            assert forall|j: int| 0 <= j < ts.len() implies (f(#[trigger] ts[j]) <==> lo <= j < i) by {
                assert(ts[j] == ev[j].0);
                if j < lo {
                    if prefix@.is_prefix_of(ts[j]) {
                        lemma_prefix_not_after(prefix@, ts[j]);
                    }
                } else if j >= i {
                    let k = ts[i as int];
                    assert(k == ev[i as int].0);
                    assert(!prefix@.is_prefix_of(k));
                    if j > i && prefix@.is_prefix_of(ts[j]) {
                        lemma_prefix_block(prefix@, k, ts[j]);
                        lemma_lex_asymmetric(k, ts[j]);
                    }
                }
            }
            lemma_filter_block(ts, f, lo as int, i as int);
        }
        r
    }

    /// Access the underlying term dictionary and postings.
    pub fn index(&self) -> (r: &StrMap<Vec<Posting>>)
        ensures
            r@ == self.postings(),
            self.wf() ==> r.wf(),
            r.keys_view() == self.terms(),
            r.entries_view() == self.term_entries(),
    {
        &self.index
    }

    /// Access the document store.
    pub fn documents(&self) -> (r: &StrMap<Document>)
        ensures
            r@ == self.docs(),
            self.wf() ==> r.wf(),
            r.entries_view() == self.doc_entries(),
    {
        &self.documents
    }

    /// Construct an index directly from its components (used during deserialization).
    pub fn from_parts(index: StrMap<Vec<Posting>>, documents: StrMap<Document>, metadata: IndexMetadata) -> (r:
        Self)
        requires
            index.wf(),
            documents.wf(),
            metadata.doc_lengths.wf(),
        ensures
            r.wf(),
            r.postings() == index@,
            r.terms() == index.keys_view(),
            r.docs() == documents@,
            r.meta() == metadata,
    {
        InvertedIndex { index, documents, metadata }
    }


    /// The stored documents, in id order.
    pub closed spec fn doc_entries(&self) -> Seq<(Seq<char>, DocumentView)> {
        self.documents.entries_view()
    }

    /// The stored documents are the entries, keyed by id, in increasing id order.
    pub proof fn lemma_doc_entries(&self)
        requires
            self.wf(),
        ensures
            keys_sorted(self.doc_entries()),
            entries_map(self.doc_entries()) == self.docs(),
    {
    }

    /// Whether merging `other` into this index keeps the total length in 64 bits: the
    /// recorded lengths of the merged documents are added up before anything changes.
    pub fn merge_fits(&self, other: &InvertedIndex) -> (r: bool)
        requires
            self.wf(),
            other.wf(),
        ensures
            r == self.merge_in_range(*other),
    {
        let ghost sd = self.doc_entries();
        let ghost od = other.doc_entries();
        proof {
            self.lemma_doc_entries();
            other.lemma_doc_entries();
        }
        let mut all: StrMap<&Document> = StrMap::new();
        let n = self.documents.len();
        let mut i: usize = 0;
        proof {
            assert(entries_map(sd.take(0)) =~= Map::<Seq<char>, DocumentView>::empty());
        }
        while i < n
            invariant
                n == sd.len(),
                sd == self.documents.entries_view(),
                keys_sorted(sd),
                0 <= i <= n,
                all.wf(),
                all@ == entries_map(sd.take(i as int)),
            decreases n - i,
        {
            let k = self.documents.key_at(i);
            let d = self.documents.value_at(i);
            proof {
                assert(sd.take(i + 1) =~= sd.take(i as int).push(sd[i as int]));
                assert(keys_sorted(sd.take(i + 1)));
                lemma_entries_map_push(sd.take(i as int), sd[i as int].0, sd[i as int].1);
            }
            all.insert(k.clone(), d);
            i = i + 1;
        }
        proof {
            assert(sd.take(n as int) =~= sd);
            assert(entries_map(od.take(0)) =~= Map::<Seq<char>, DocumentView>::empty());
            assert(self.docs().union_prefer_right(entries_map(od.take(0))) =~= self.docs());
        }
        let m = other.documents.len();
        let mut j: usize = 0;
        while j < m
            invariant
                m == od.len(),
                od == other.documents.entries_view(),
                keys_sorted(od),
                0 <= j <= m,
                all.wf(),
                all@ == self.docs().union_prefer_right(entries_map(od.take(j as int))),
            decreases m - j,
        {
            let k = other.documents.key_at(j);
            let d = other.documents.value_at(j);
            proof {
                assert(od.take(j + 1) =~= od.take(j as int).push(od[j as int]));
                assert(keys_sorted(od.take(j + 1)));
                lemma_entries_map_push(od.take(j as int), od[j as int].0, od[j as int].1);
            }
            all.insert(k.clone(), d);
            proof {
                assert(all@ =~= self.docs().union_prefer_right(entries_map(od.take(j + 1))));
            }
            j = j + 1;
        }
        let ghost fs = all.entries_view();
        proof {
            assert(od.take(m as int) =~= od);
            lemma_sum_doc_lengths_nonneg(fs);
        }
        let nf = all.len();
        let mut total: u128 = 0;
        let mut k: usize = 0;
        proof {
            assert(fs.take(0) =~= Seq::<(Seq<char>, DocumentView)>::empty());
        }
        while k < nf
            invariant
                nf == fs.len(),
                fs == all.entries_view(),
                0 <= k <= nf,
                total == sum_doc_lengths(fs.take(k as int)),
            decreases nf - k,
        {
            let doc = all.value_at(k);
            let a = Analyzer::analyze(doc.title.as_str()).len();
            let b = Analyzer::analyze(doc.body.as_str()).len();
            let dl: u64 = ((a as u64 % 0x1_0000_0000) + (b as u64 % 0x1_0000_0000)) % 0x1_0000_0000;
            proof {
                vstd::arithmetic::div_mod::lemma_add_mod_noop(a as int, b as int, 0x1_0000_0000);
                assert(dl == doc_length_of(fs[k as int].1));
                assert(fs.take(k + 1).drop_last() =~= fs.take(k as int));
                lemma_sum_doc_lengths_bound(fs.take(k as int));
            }
            total = total + dl as u128;
            k = k + 1;
        }
        proof {
            assert(fs.take(nf as int) =~= fs);
            assert forall|s: Seq<(Seq<char>, DocumentView)>|
                keys_sorted(s) && #[trigger] entries_map(s) == self.docs().union_prefer_right(other.docs())
                implies s == fs by {
                lemma_sorted_entries_determined(s, fs);
            }
        }
        total <= 0xffff_ffff_ffff_ffff
    }

    /// Merge `other` into this index if the total length of the merged documents fits in
    /// 64 bits; otherwise leave this index as it is. Returns whether it merged.
    pub fn try_merge_with(&mut self, other: InvertedIndex) -> (r: bool)
        requires
            old(self).wf(),
            other.wf(),
        ensures
            r == old(self).merge_in_range(other),
            r ==> old(self).merges_into(*final(self), other),
            !r ==> *final(self) == *old(self),
    {
        if self.merge_fits(&other) {
            self.merge_with(other);
            true
        } else {
            false
        }
    }

    /// Take the documents `ids` out, as compaction does with the documents deleted since
    /// they were written to a segment.
    pub fn prune_documents(&mut self, ids: &Vec<String>)
        requires
            old(self).wf(),
            old(self).counts_docs(),
            old(self).lengths_recorded(),
            old(self).lengths_summed(),
        ensures
            final(self).wf(),
            final(self).docs() == old(self).docs().remove_keys(strings_view(ids@).to_set()),
            final(self).postings() == strip_docs(
                old(self).postings(),
                old(self).docs().dom().intersect(strings_view(ids@).to_set()),
            ),
            final(self).counts_docs(),
            final(self).lengths_recorded(),
            final(self).lengths_summed(),
            old(self).consistent() ==> final(self).consistent(),
            old(self).postings_ok() ==> final(self).postings_ok(),
            old(self).postings_derived() ==> final(self).postings_derived(),
    {
        let ghost iv = strings_view(ids@);
        let ghost d0 = old(self).docs();
        let ghost p0 = old(self).postings();
        let mut i: usize = 0;
        proof {
            assert(iv.take(0).to_set() =~= Set::<Seq<char>>::empty());
            assert(d0.remove_keys(Set::<Seq<char>>::empty()) =~= d0);
            assert(d0.dom().intersect(Set::<Seq<char>>::empty()) =~= Set::<Seq<char>>::empty());
        }
        while i < ids.len()
            invariant
                0 <= i <= ids@.len(),
                iv == strings_view(ids@),
                d0 == old(self).docs(),
                p0 == old(self).postings(),
                self.wf(),
                self.counts_docs(),
                self.lengths_recorded(),
                self.lengths_summed(),
                self.docs() == d0.remove_keys(iv.take(i as int).to_set()),
                self.postings() == strip_docs(p0, d0.dom().intersect(iv.take(i as int).to_set())),
                old(self).consistent() ==> self.consistent(),
                old(self).postings_ok() ==> self.postings_ok(),
                old(self).postings_derived() ==> self.postings_derived(),
            decreases ids@.len() - i,
        {
            let id = ids[i].as_str();
            let ghost c = d0.dom().intersect(iv.take(i as int).to_set());
            let ghost tk = iv.take(i + 1);
            let ghost tp = iv.take(i as int);
            proof {
                assert(iv[i as int] == id@);
                self.lemma_doc_entries();
                crate::strmap::lemma_entries_map_len(self.doc_entries());
                if self.docs().contains_key(id@) {
                    lemma_sum_covers(self.doc_entries(), id@);
                }
                assert(tk.to_set() =~= tp.to_set().insert(id@)) by {
                    assert forall|x: Seq<char>| #[trigger] tk.contains(x) == (tp.contains(x) || x == id@) by {
                        if tk.contains(x) {
                            let j = choose|j: int| 0 <= j < tk.len() && tk[j] == x;
                            if j < i {
                                assert(tp[j] == x);
                            }
                        }
                        if tp.contains(x) {
                            let j = choose|j: int| 0 <= j < tp.len() && tp[j] == x;
                            assert(tk[j] == x);
                        }
                        if x == id@ {
                            assert(tk[i as int] == x);
                        }
                    }
                }
            }
            let ghost before = *self;
            self.delete_document(id);
            proof {
                let c2 = d0.dom().intersect(tk.to_set());
                assert(self.docs() =~= d0.remove_keys(tk.to_set()));
                if before.docs().contains_key(id@) {
                    assert(c2 =~= c.insert(id@));
                    assert(c2.contains(id@));
                    assert(c2 != Set::<Seq<char>>::empty());
                    assert(self.postings() == postings_without_doc(before.postings(), id@));
                    if c == Set::<Seq<char>>::empty() {
                        assert(before.postings() == p0);
                        lemma_postings_without_doc_as_docs(p0, id@);
                        assert(Set::<Seq<char>>::empty().insert(id@) =~= c2);
                    } else {
                        assert(before.postings() == postings_without_docs(p0, c));
                        lemma_postings_without_docs_insert(p0, c, id@);
                    }
                    assert(self.postings() == postings_without_docs(p0, c2));
                } else {
                    assert(c2 =~= c);
                }
                assert(self.meta().doc_lengths@.dom() =~= self.docs().dom());
            }
            i = i + 1;
        }
        proof {
            assert(iv.take(ids@.len() as int) =~= iv);
        }
    }

    /// Merge another inverted index into this one.
    ///
    /// Combines postings lists, documents, and recomputes corpus metadata from
    /// the merged documents.
    pub fn merge_with(&mut self, other: InvertedIndex)
        requires
            old(self).wf(),
            other.wf(),
            old(self).merge_in_range(other),
        ensures
            old(self).merges_into(*final(self), other),
    {
        let InvertedIndex { index: other_index, documents: other_documents, metadata: _ } = other;
        let ghost p0 = self.index@;
        let ghost d0 = self.documents@;
        let ghost os = other_documents.entries_view();
        let ghost od = other_documents@;
        let ents = other_documents.into_entries();
        let ghost ent = ents@;
        let mut ents = crate::strmap::into_reversed(ents);
        let n = ents.len();
        proof {
            assert forall|j: int| 0 <= j < n implies {
                let e = #[trigger] ents@[j];
                (e.0@, e.1.deep_view()) == os[n - 1 - j]
            } by {
                assert(ents@[j] == ent[n - 1 - j]);
                assert(os[n - 1 - j] == ent.map_values(|e: (String, Document)| (e.0@, e.1.deep_view()))[n - 1 - j]);
            }
            assert(entries_map(os.take(0)) =~= Map::<Seq<char>, DocumentView>::empty());
            assert(d0.union_prefer_right(Map::<Seq<char>, DocumentView>::empty()) =~= d0);
            let r0 = Set::new(|k: Seq<char>| d0.contains_key(k) && exists|j: int| 0 <= j < 0 && #[trigger] os[j].0 == k);
            assert(r0 =~= Set::empty());
        }
        let mut i: usize = 0;
        while i < n
            invariant
                keys_sorted(os),
                n == os.len(),
                entries_map(os) == od,
                0 <= i <= n,
                ents@.len() == n - i,
                forall|j: int|
                    0 <= j < n - i ==> {
                        let e = #[trigger] ents@[j];
                        (e.0@, e.1.deep_view()) == os[n - 1 - j]
                    },
                self.index.wf(),
                self.documents.wf(),
                self.metadata.doc_lengths.wf(),
                self.documents@ == d0.union_prefer_right(entries_map(os.take(i as int))),
                self.index@ == strip_docs(
                    p0,
                    Set::new(
                        |k: Seq<char>|
                            d0.contains_key(k) && exists|j: int| 0 <= j < i && #[trigger] os[j].0 == k,
                    ),
                ),
            decreases n - i,
        {
            let (doc_id, doc) = ents.pop().unwrap();
            let ghost r = Set::new(
                |k: Seq<char>| d0.contains_key(k) && exists|j: int| 0 <= j < i && #[trigger] os[j].0 == k,
            );
            let ghost r2 = Set::new(
                |k: Seq<char>| d0.contains_key(k) && exists|j: int| 0 <= j < i + 1 && #[trigger] os[j].0 == k,
            );
            proof {
                assert(os.take(i + 1) =~= os.take(i as int).push(os[i as int]));
                assert(keys_sorted(os.take(i + 1)));
                lemma_entries_map_push(os.take(i as int), os[i as int].0, os[i as int].1);
                if entries_map(os.take(i as int)).contains_key(doc_id@) {
                    let j = crate::strmap::key_index(os.take(i as int), doc_id@);
                    crate::strmap::lemma_sorted_key_unique(os, j, i as int);
                }
            }
            if self.documents.contains_key(doc_id.as_str()) {
                self.strip_postings(doc_id.as_str());
                proof {
                    assert(r2 =~= r.insert(doc_id@));
                    assert(r2 != Set::<Seq<char>>::empty()) by {
                        assert(r2.contains(doc_id@));
                    }
                    if r == Set::<Seq<char>>::empty() {
                        lemma_postings_without_doc_as_docs(p0, doc_id@);
                    } else {
                        lemma_postings_without_docs_insert(p0, r, doc_id@);
                    }
                }
            } else {
                proof {
                    assert(r2 =~= r);
                }
            }
            self.documents.insert(doc_id, doc);
            proof {
                assert(self.documents@ =~= d0.union_prefer_right(entries_map(os.take(i + 1))));
            }
            i = i + 1;
        }
        proof {
            assert(os.take(n as int) =~= os);
            let rn = Set::new(
                |k: Seq<char>| d0.contains_key(k) && exists|j: int| 0 <= j < n && #[trigger] os[j].0 == k,
            );
            assert(rn =~= d0.dom().intersect(od.dom())) by {
                assert forall|k: Seq<char>| #[trigger] rn.contains(k) <==> d0.dom().intersect(od.dom()).contains(k) by {
                    if od.contains_key(k) {
                        let j = crate::strmap::key_index(os, k);
                        assert(os[j].0 == k);
                    }
                    if rn.contains(k) {
                        let j = choose|j: int| 0 <= j < n && #[trigger] os[j].0 == k;
                        crate::strmap::lemma_entries_map_at(os, j);
                    }
                }
            }
        }

        // Upsert the other index's postings, term by term
        let ghost p1 = self.index@;
        let ghost d1 = self.documents;
        let ghost ts = other_index.entries_view();
        let tents = other_index.into_entries();
        let ghost tent = tents@;
        let mut tents = crate::strmap::into_reversed(tents);
        let m = tents.len();
        proof {
            assert forall|j: int| 0 <= j < m implies {
                let e = #[trigger] tents@[j];
                (e.0@, e.1.deep_view()) == ts[m - 1 - j]
            } by {
                assert(tents@[j] == tent[m - 1 - j]);
                assert(ts[m - 1 - j] == tent.map_values(|e: (String, Vec<Posting>)| (e.0@, e.1.deep_view()))[m - 1 - j]);
            }
            assert(entries_map(ts.take(0)) =~= Map::<Seq<char>, Seq<PostingView>>::empty());
            assert(merged_postings(p1, Map::<Seq<char>, Seq<PostingView>>::empty()) =~= p1);
        }
        let mut i: usize = 0;
        while i < m
            invariant
                keys_sorted(ts),
                m == ts.len(),
                0 <= i <= m,
                tents@.len() == m - i,
                forall|j: int|
                    0 <= j < m - i ==> {
                        let e = #[trigger] tents@[j];
                        (e.0@, e.1.deep_view()) == ts[m - 1 - j]
                    },
                self.index.wf(),
                self.documents == d1,
                self.index@ == merged_postings(p1, entries_map(ts.take(i as int))),
            decreases m - i,
        {
            let (term, plist) = tents.pop().unwrap();
            proof {
                assert(ts.take(i + 1) =~= ts.take(i as int).push(ts[i as int]));
                assert(keys_sorted(ts.take(i + 1)));
                lemma_entries_map_push(ts.take(i as int), ts[i as int].0, ts[i as int].1);
                if entries_map(ts.take(i as int)).contains_key(term@) {
                    let j = crate::strmap::key_index(ts.take(i as int), term@);
                    crate::strmap::lemma_sorted_key_unique(ts, j, i as int);
                }
            }
            let ghost idx_before = self.index@;
            let mut entry = match self.index.remove(term.as_str()) {
                Some(l) => l,
                None => {
                    let l: Vec<Posting> = Vec::new();
                    assert(l.deep_view() =~= Seq::<PostingView>::empty());
                    l
                },
            };
            let ghost start = entry.deep_view();
            assert(start == postings_or_empty(p1, term@));
            let ghost pl = plist.deep_view();
            let pn = plist.len();
            let ghost plv = plist@;
            let mut plist = crate::strmap::into_reversed(plist);
            let mut j: usize = 0;
            while j < pn
                invariant
                    pn == pl.len(),
                    pl == plv.map_values(|p: Posting| p.deep_view()),
                    0 <= j <= pn,
                    plist@.len() == pn - j,
                    forall|q: int| 0 <= q < pn - j ==> #[trigger] plist@[q] == plv[pn - 1 - q],
                    entry.deep_view() == upsert_postings(start, pl.take(j as int)),
                decreases pn - j,
            {
                let p = plist.pop().unwrap();
                let ghost before = entry.deep_view();
                proof {
                    assert(pl.take(j + 1).drop_last() =~= pl.take(j as int));
                    assert(p.deep_view() == pl[j as int]);
                    lemma_first_doc_index(before, p.doc_id@);
                }
                let mut q: usize = 0;
                while q < entry.len() && !(entry[q].doc_id == p.doc_id)
                    invariant
                        before == entry.deep_view(),
                        0 <= q <= before.len(),
                        forall|t: int| 0 <= t < q ==> (#[trigger] before[t]).doc_id != p.doc_id@,
                    decreases before.len() - q,
                {
                    q = q + 1;
                }
                if q < entry.len() {
                    proof {
                        assert(before[q as int] == entry@[q as int].deep_view());
                        assert(before[q as int].doc_id == p.doc_id@);
                        assert(first_doc_index(before, p.doc_id@) == q);
                    }
                    entry.set(q, p);
                    proof {
                        assert(entry.deep_view() =~= upsert_postings(start, pl.take(j + 1)));
                    }
                } else {
                    proof {
                        assert(first_doc_index(before, p.doc_id@) < 0);
                    }
                    entry.push(p);
                    proof {
                        assert(entry.deep_view() =~= upsert_postings(start, pl.take(j + 1)));
                    }
                }
                j = j + 1;
            }
            proof {
                assert(pl.take(pn as int) =~= pl);
            }
            self.index.insert(term, entry);
            proof {
                assert(self.index@ =~= merged_postings(p1, entries_map(ts.take(i + 1))));
            }
            i = i + 1;
        }
        proof {
            assert(ts.take(m as int) =~= ts);
        }

        // Recalculate metadata from documents
        let ghost fs = self.documents.entries_view();
        proof {
            lemma_sum_doc_lengths_nonneg(fs);
            crate::strmap::lemma_entries_map_len(fs);
        }
        let nd = self.documents.len();
        let mut total_docs: u64 = 0;
        let mut total_doc_length: u64 = 0;
        let mut doc_lengths: StrMap<u32> = StrMap::new();
        proof {
            assert(entries_map(fs.take(0)) =~= Map::<Seq<char>, DocumentView>::empty());
            assert(doc_lengths_of(entries_map(fs.take(0))) =~= Map::<Seq<char>, u32>::empty());
        }
        let mut k: usize = 0;
        while k < nd
            invariant
                nd == fs.len(),
                fs == self.documents.entries_view(),
                keys_sorted(fs),
                sum_doc_lengths(fs) <= u64::MAX,
                0 <= k <= nd,
                total_docs == k,
                total_doc_length == sum_doc_lengths(fs.take(k as int)),
                doc_lengths@ == doc_lengths_of(entries_map(fs.take(k as int))),
                doc_lengths.wf(),
            decreases nd - k,
        {
            let key = self.documents.key_at(k);
            let doc = self.documents.value_at(k);
            let a = Analyzer::analyze(doc.title.as_str()).len();
            let b = Analyzer::analyze(doc.body.as_str()).len();
            let dl: u64 = ((a as u64 % 0x1_0000_0000) + (b as u64 % 0x1_0000_0000)) % 0x1_0000_0000;
            let doc_length = dl as u32;
            proof {
                vstd::arithmetic::div_mod::lemma_add_mod_noop(a as int, b as int, 0x1_0000_0000);
                assert(doc_length == doc_length_of(fs[k as int].1));
                assert(fs.take(k + 1) =~= fs.take(k as int).push(fs[k as int]));
                assert(fs.take(k + 1).drop_last() =~= fs.take(k as int));
                lemma_sum_doc_lengths_prefix(fs, k + 1);
                assert(keys_sorted(fs.take(k + 1)));
                lemma_entries_map_push(fs.take(k as int), fs[k as int].0, fs[k as int].1);
            }
            total_docs = total_docs + 1;
            total_doc_length = total_doc_length + doc_length as u64;
            doc_lengths.insert(key.clone(), doc_length);
            proof {
                assert(doc_lengths@ =~= doc_lengths_of(entries_map(fs.take(k + 1))));
            }
            k = k + 1;
        }
        proof {
            assert(fs.take(nd as int) =~= fs);
        }
        self.metadata = IndexMetadata { total_docs, total_doc_length, doc_lengths };
        proof {
            if old(self).postings_ok() && other.postings_ok() {
                lemma_merge_describes(old(self).postings(), old(self).docs(), other.postings(), other.docs());
            }
            if old(self).postings_derived() && other.postings_derived() {
                lemma_merge_derived(old(self).postings(), old(self).docs(), other.postings(), other.docs());
            }
            if old(self).ids_match() && other.ids_match() {
                let u = old(self).docs().union_prefer_right(other.docs());
                assert(self.docs() == u);
                assert(self.meta().doc_lengths@.dom() =~= self.docs().dom());
                assert forall|k: Seq<char>| #[trigger] u.contains_key(k) implies u[k].id == k by {
                    if other.docs().contains_key(k) {
                        assert(u[k] == other.docs()[k]);
                    } else {
                        assert(u[k] == old(self).docs()[k]);
                    }
                }
            }
        }
    }

    /// Remove a document's postings and metadata (internal helper).
    fn remove_document_postings(&mut self, id: &str)
        requires
            old(self).wf(),
            old(self).meta().doc_lengths@.contains_key(id@) ==> {
                &&& old(self).meta().total_docs >= 1
                &&& old(self).meta().total_doc_length >= old(self).meta().doc_lengths@[id@]
            },
        ensures
            final(self).wf(),
            final(self).postings() == postings_without_doc(old(self).postings(), id@),
            final(self).docs() == old(self).docs(),
            final(self).meta().doc_lengths@ == old(self).meta().doc_lengths@.remove(id@),
            old(self).meta().doc_lengths@.contains_key(id@) ==> {
                &&& final(self).meta().total_docs == old(self).meta().total_docs - 1
                &&& final(self).meta().total_doc_length == old(self).meta().total_doc_length
                    - old(self).meta().doc_lengths@[id@]
            },
            !old(self).meta().doc_lengths@.contains_key(id@) ==> {
                &&& final(self).meta().total_docs == old(self).meta().total_docs
                &&& final(self).meta().total_doc_length == old(self).meta().total_doc_length
            },
    {
        self.strip_postings(id);
        match self.metadata.doc_lengths.get(id) {
            Some(l) => {
                let old_length = *l;
                self.metadata.doc_lengths.remove(id);
                self.metadata.total_doc_length = self.metadata.total_doc_length - old_length as u64;
                self.metadata.total_docs = self.metadata.total_docs - 1;
            },
            None => {
                proof {
                    assert(self.metadata.doc_lengths@ =~= old(self).meta().doc_lengths@.remove(id@));
                }
            },
        }
    }

    /// Take every posting of `id` out of the term dictionary, dropping terms left empty.
    fn strip_postings(&mut self, id: &str)
        requires
            old(self).wf(),
        ensures
            final(self).wf(),
            final(self).postings() == postings_without_doc(old(self).postings(), id@),
            final(self).docs() == old(self).docs(),
            final(self).meta() == old(self).meta(),
    {
        let id_s = id.to_owned();
        let mut old_index: StrMap<Vec<Posting>> = StrMap::new();
        std::mem::swap(&mut old_index, &mut self.index);
        let ghost s = old_index.entries_view();
        let entries = old_index.into_entries();
        let ghost ent = entries;
        let mut new_index: StrMap<Vec<Posting>> = StrMap::new();
        proof {
            assert(s.take(0) =~= Seq::<(Seq<char>, Seq<PostingView>)>::empty());
            assert(entries_map(s.take(0)) =~= Map::<Seq<char>, Seq<PostingView>>::empty());
            assert(postings_without_doc(entries_map(s.take(0)), id@) =~= Map::<
                Seq<char>,
                Seq<PostingView>,
            >::empty());
        }
        let mut i: usize = 0;
        let n = entries.len();
        let mut entries = crate::strmap::into_reversed(entries);
        assert forall|j: int| 0 <= j < n implies {
            let e = #[trigger] entries@[j];
            (e.0@, e.1.deep_view()) == s[n - 1 - j]
        } by {
            assert(entries@[j] == ent@[n - 1 - j]);
            assert(s[n - 1 - j] == ent@.map_values(|e: (String, Vec<Posting>)| (e.0@, e.1.deep_view()))[n - 1 - j]);
        }
        while i < n
            invariant
                id_s@ == id@,
                keys_sorted(s),
                n == s.len(),
                0 <= i <= n,
                entries@.len() == n - i,
                forall|j: int|
                    0 <= j < n - i ==> {
                        let e = #[trigger] entries@[j];
                        (e.0@, e.1.deep_view()) == s[n - 1 - j]
                    },
                new_index.wf(),
                new_index@ == postings_without_doc(entries_map(s.take(i as int)), id@),
                new_index.entries_view().len() > 0 ==> exists|j: int|
                    0 <= j < i && new_index.entries_view().last().0 == #[trigger] s[j].0,
            decreases n - i,
        {
            let (term, list) = entries.pop().unwrap();
            let ghost e = s[i as int];
            let mut kept: Vec<Posting> = Vec::new();
            let m = list.len();
            let ghost lv = list@;
            let mut list = crate::strmap::into_reversed(list);
            assert forall|j: int| 0 <= j < m implies (#[trigger] list@[j]).deep_view() == e.1[m - 1 - j] by {
                assert(list@[j] == lv[m - 1 - j]);
                assert(e.1 == lv.map_values(|p: Posting| p.deep_view()));
            }
            let mut k: usize = 0;
            while k < m
                invariant
                    id_s@ == id@,
                    m == e.1.len(),
                    0 <= k <= m,
                    list@.len() == m - k,
                    forall|j: int|
                        0 <= j < m - k ==> (#[trigger] list@[j]).deep_view() == e.1[m - 1 - j],
                    kept.deep_view() == without_doc(e.1.take(k as int), id@),
                decreases m - k,
            {
                let p = list.pop().unwrap();
                proof {
                    reveal_with_fuel(Seq::filter, 1);
                    assert(e.1.take(k + 1).drop_last() =~= e.1.take(k as int));
                }
                if !(p.doc_id == id_s) {
                    kept.push(p);
                    assert(kept.deep_view() =~= without_doc(e.1.take(k + 1), id@));
                } else {
                    assert(kept.deep_view() =~= without_doc(e.1.take(k + 1), id@));
                }
                k = k + 1;
            }
            proof {
                assert(e.1.take(m as int) =~= e.1);
                assert(s.take(i + 1) =~= s.take(i as int).push(e));
                assert(keys_sorted(s.take(i + 1)));
                lemma_entries_map_push(s.take(i as int), e.0, e.1);
                if entries_map(s.take(i as int)).contains_key(e.0) {
                    let j = crate::strmap::key_index(s.take(i as int), e.0);
                    assert(s[j].0 == e.0);
                    crate::lex::lemma_lex_irreflexive(e.0);
                }
            }
            if kept.len() > 0 {
                proof {
                    if new_index.entries_view().len() > 0 {
                        let j = choose|j: int|
                            0 <= j < i && new_index.entries_view().last().0 == #[trigger] s[j].0;
                        assert(crate::lex::lex_lt(s[j].0, s[i as int].0));
                    }
                }
                new_index.push_last(term, kept);
                proof {
                    assert(new_index@ =~= postings_without_doc(entries_map(s.take(i + 1)), id@));
                }
            } else {
                proof {
                    assert(kept.deep_view().len() == 0);
                    assert(new_index@ =~= postings_without_doc(entries_map(s.take(i + 1)), id@));
                }
            }
            i = i + 1;
        }
        proof {
            assert(s.take(n as int) =~= s);
        }
        self.index = new_index;
    }
}

/// Merge the indexes `segments` into a new index, oldest first, so that later ones
/// override earlier ones; `None` when the total length would leave 64 bits at some step.
#[verifier::loop_isolation(false)]
pub fn merge_all(segments: Vec<InvertedIndex>) -> (r: Option<InvertedIndex>)
    requires
        forall|i: int| 0 <= i < segments@.len() ==> (#[trigger] segments@[i]).wf(),
    ensures
        r is Some <==> merges_fit(segments@),
        r matches Some(x) ==> {
            &&& x.wf()
            &&& x.docs() == merged_docs(docs_of(segments@))
            &&& x.counts_docs()
            &&& x.lengths_recorded()
            &&& x.lengths_summed()
            &&& (forall|i: int| 0 <= i < segments@.len() ==> (#[trigger] segments@[i]).ids_match()) ==> x.consistent()
            &&& (forall|i: int| 0 <= i < segments@.len() ==> (#[trigger] segments@[i]).postings_ok()) ==> x.postings_ok()
            &&& (forall|i: int| 0 <= i < segments@.len() ==> (#[trigger] segments@[i]).postings_derived())
                ==> x.postings_derived()
        },
{
    let ghost segs = segments@;
    let ghost ds = docs_of(segs);
    let n = segments.len();
    let mut rev = crate::strmap::into_reversed(segments);
    let mut index = InvertedIndex::new();
    let mut i: usize = 0;
    proof {
        assert(ds.take(0) =~= Seq::<Map<Seq<char>, DocumentView>>::empty());
        index.lemma_doc_entries();
        crate::strmap::lemma_entries_map_len(index.doc_entries());
    }
    while i < n
        invariant
            n == segs.len(),
            ds == docs_of(segs),
            forall|j: int| 0 <= j < segs.len() ==> (#[trigger] segs[j]).wf(),
            0 <= i <= n,
            rev@.len() == n - i,
            forall|j: int| 0 <= j < n - i ==> #[trigger] rev@[j] == segs[n - 1 - j],
            index.wf(),
            index.docs() == merged_docs(ds.take(i as int)),
            index.counts_docs(),
            index.lengths_recorded(),
            index.lengths_summed(),
            (forall|j: int| 0 <= j < segs.len() ==> (#[trigger] segs[j]).ids_match()) ==> index.consistent(),
            (forall|j: int| 0 <= j < segs.len() ==> (#[trigger] segs[j]).postings_ok()) ==> index.postings_ok(),
            (forall|j: int| 0 <= j < segs.len() ==> (#[trigger] segs[j]).postings_derived()) ==> index.postings_derived(),
            forall|j: int| 0 <= j < i ==> lengths_fit(#[trigger] merged_docs(ds.take(j)).union_prefer_right(segs[j].docs())),
        decreases n - i,
    {
        let seg = rev.pop().unwrap();
        proof {
            assert(seg == segs[i as int]);
            assert(ds.take(i + 1).drop_last() =~= ds.take(i as int));
            assert(ds.take(i + 1).last() == segs[i as int].docs());
        }
        if !index.try_merge_with(seg) {
            proof {
                assert(!lengths_fit(merged_docs(docs_of(segs).take(i as int)).union_prefer_right(segs[i as int].docs())));
                assert(!merges_fit(segs));
                assert(segments@ == segs);
            }
            return None;
        }
        i = i + 1;
    }
    proof {
        assert(ds.take(n as int) =~= ds);
    }
    Some(index)
}

/// Merge the indexes `segments`, oldest first, and take the documents `deleted` out of
/// the result, as compaction does; `None` when the total length would leave 64 bits at
/// some step of the merge.
pub fn compact_segments(segments: Vec<InvertedIndex>, deleted: &Vec<String>) -> (r: Option<InvertedIndex>)
    requires
        forall|i: int| 0 <= i < segments@.len() ==> (#[trigger] segments@[i]).wf(),
    ensures
        r is Some <==> merges_fit(segments@),
        r matches Some(x) ==> {
            &&& x.wf()
            &&& x.docs() == merged_docs(docs_of(segments@)).remove_keys(strings_view(deleted@).to_set())
            &&& x.counts_docs()
            &&& x.lengths_recorded()
            &&& x.lengths_summed()
            &&& (forall|i: int| 0 <= i < segments@.len() ==> (#[trigger] segments@[i]).ids_match()) ==> x.consistent()
            &&& (forall|i: int| 0 <= i < segments@.len() ==> (#[trigger] segments@[i]).postings_ok()) ==> x.postings_ok()
            &&& (forall|i: int| 0 <= i < segments@.len() ==> (#[trigger] segments@[i]).postings_derived())
                ==> x.postings_derived()
        },
{
    match merge_all(segments) {
        Some(mut index) => {
            index.prune_documents(deleted);
            Some(index)
        },
        None => None,
    }
}

} // verus!

