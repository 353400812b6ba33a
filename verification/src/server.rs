//! The request and response bodies of the HTTP interface, and what the handlers
//! compute from them.
use vstd::prelude::*;

use crate::strmap::StrMap;

verus! {

/// POST /documents — request body.
#[derive(Debug, Clone)]
pub struct IndexDocumentRequest {
    pub id: String,
    pub title: String,
    pub body: String,
}

/// POST /documents — response body.
#[derive(Debug, Clone)]
pub struct IndexDocumentResponse {
    pub status: String,
    pub id: String,
}

/// GET /documents/:id — response body.
#[derive(Debug, Clone)]
pub struct GetDocumentResponse {
    pub id: String,
    pub title: String,
    pub body: String,
}

/// DELETE /documents/:id — response body.
#[derive(Debug, Clone)]
pub struct DeleteDocumentResponse {
    pub status: String,
    pub id: String,
}

/// GET /search — query parameters.
#[derive(Debug, Clone)]
pub struct SearchQueryParams {
    pub q: String,
    pub limit: Option<usize>,
}

/// Generic operation response.
#[derive(Debug, Clone)]
pub struct SimpleStatusResponse {
    pub status: String,
    pub details: Option<String>,
}

/// GET /indexes response.
#[derive(Debug, Clone)]
pub struct ListIndexesResponse {
    pub indexes: Vec<String>,
}

/// The hits a search returns when it names no limit.
pub const DEFAULT_HIT_LIMIT: usize = 10;

impl SearchQueryParams {
    /// How many hits to return: the limit asked for, or 10.
    pub fn hit_limit(&self) -> (r: usize)
        ensures
            r == match self.limit {
                Some(l) => l,
                None => DEFAULT_HIT_LIMIT,
            },
    {
        match self.limit {
            Some(l) => l,
            None => DEFAULT_HIT_LIMIT,
        }
    }
}

/// The first `limit` of the ranked results (all of them when there are fewer).
pub fn take_hits<T>(results: Vec<T>, limit: usize) -> (r: Vec<T>)
    ensures
        r@ == results@.take(if limit < results@.len() {
            limit as int
        } else {
            results@.len() as int
        }),
{
    let mut results = results;
    let ghost orig = results@;
    if limit < results.len() {
        results.truncate(limit);
    }
    assert(results@ =~= orig.take(if limit < orig.len() {
        limit as int
    } else {
        orig.len() as int
    }));
    results
}

/// The names of the indexes, each once, in increasing order.
pub fn sorted_names(names: Vec<String>) -> (r: Vec<String>)
    ensures
        crate::strmap::keys_sorted(r@.map_values(|s: String| (s@, ()))),
        r@.map_values(|s: String| s@).to_set() == names@.map_values(|s: String| s@).to_set(),
{
    let mut set: StrMap<()> = StrMap::new();
    let ghost orig = names@.map_values(|s: String| s@);
    let mut i: usize = 0;
    while i < names.len()
        invariant
            orig == names@.map_values(|s: String| s@),
            0 <= i <= names@.len(),
            set.wf(),
            set@.dom() == orig.take(i as int).to_set(),
        decreases names@.len() - i,
    {
        set.insert(names[i].clone(), ());
        proof {
            assert(orig.take(i + 1) =~= orig.take(i as int).push(orig[i as int]));
            orig.take(i as int).lemma_push_to_set_commute(orig[i as int]);
            assert(set@.dom() =~= orig.take(i + 1).to_set());
        }
        i = i + 1;
    }
    assert(orig.take(names@.len() as int) =~= orig);
    let ghost ev = set.entries_view();
    proof {
        crate::strmap::lemma_entries_map_len(ev);
    }
    let entries = set.into_entries();
    let mut r: Vec<String> = Vec::new();
    let mut k: usize = 0;
    while k < entries.len()
        invariant
            0 <= k <= entries@.len(),
            r@.map_values(|s: String| s@) == entries@.take(k as int).map_values(|e: (String, ())| e.0@),
        decreases entries@.len() - k,
    {
        let ghost before = r@;
        let name = entries[k].0.clone();
        r.push(name);
        proof {
            assert(r@.map_values(|s: String| s@) =~= before.map_values(|s: String| s@).push(name@));
            assert(entries@.take(k + 1).map_values(|e: (String, ())| e.0@) =~= entries@.take(
                k as int,
            ).map_values(|e: (String, ())| e.0@).push(entries@[k as int].0@));
        }
        k = k + 1;
    }
    proof {
        assert(entries@.take(entries@.len() as int) =~= entries@);
        let rv = r@.map_values(|s: String| (s@, ()));
        assert(rv =~= ev) by {
            assert forall|i: int| 0 <= i < rv.len() implies rv[i] == ev[i] by {
                assert(r@.map_values(|s: String| s@)[i] == entries@.map_values(|e: (String, ())| e.0@)[i]);
                assert(ev[i] == entries@.map_values(|e: (String, ())| (e.0@, e.1.deep_view()))[i]);
            }
        }
        let rs = r@.map_values(|s: String| s@);
        let es = ev.map_values(|e: (Seq<char>, ())| e.0);
        assert forall|i: int| 0 <= i < rs.len() implies #[trigger] rs[i] == es[i] by {
            assert(rv[i] == ev[i]);
        }
        assert(rs =~= es);
    }
    r
}

} // verus!
