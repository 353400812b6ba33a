use mini_elasticsearch::config::{
    default_data_dir, default_flush_threshold, default_host, default_merge_max_segments, default_port,
    default_result_limit, IndexConfig, ServerConfig,
};
use mini_elasticsearch::index::{compact_segments, IndexMetadata, InvertedIndex, Posting};
use mini_elasticsearch::strmap::StrMap;
use mini_elasticsearch::server::{sorted_names, take_hits, SearchQueryParams};

#[test]
fn config_defaults() {
    assert_eq!(default_host(), "0.0.0.0");
    assert_eq!(default_port(), 3000);
    assert_eq!(default_data_dir(), "data");
    assert_eq!(default_flush_threshold(), 1000);
    assert_eq!(default_merge_max_segments(), 10);
    assert_eq!(default_result_limit(), 10);
    let s = ServerConfig::default();
    assert_eq!((s.host.as_str(), s.port), ("0.0.0.0", 3000));
    let i = IndexConfig::default();
    assert_eq!(i.data_dir, "data");
    assert_eq!(i.flush_threshold, 1000);
}

#[test]
fn hit_limit_defaults_to_ten() {
    let p = SearchQueryParams { q: "ogre".to_string(), limit: None };
    assert_eq!(p.hit_limit(), 10);
    let p = SearchQueryParams { q: "ogre".to_string(), limit: Some(1) };
    assert_eq!(p.hit_limit(), 1);
}

#[test]
fn take_hits_truncates() {
    assert_eq!(take_hits(vec![3, 2, 1], 2), vec![3, 2]);
    assert_eq!(take_hits(vec![3, 2, 1], 10), vec![3, 2, 1]);
    assert_eq!(take_hits(Vec::<u8>::new(), 0), Vec::<u8>::new());
}

#[test]
fn index_names_are_sorted_once() {
    let names = vec!["movies".to_string(), "books".to_string(), "default".to_string(), "books".to_string()];
    assert_eq!(sorted_names(names), vec!["books", "default", "movies"]);
}

#[test]
fn terms_with_prefix_start_with_it() {
    let mut idx = InvertedIndex::new();
    idx.add_document("1", "", "ogre ogres ogrish ogs dragon og");
    let terms = idx.get_terms_with_prefix("ogr");
    assert_eq!(terms, vec!["ogre", "ogres", "ogrish"]);
    assert!(terms.iter().all(|t| t.starts_with("ogr")));
    assert_eq!(idx.get_terms_with_prefix("").len(), idx.term_count());
}

#[test]
fn metadata_stays_consistent_after_updates() {
    let mut idx = InvertedIndex::new();
    idx.add_document("a", "", "one two");
    idx.add_document("b", "", "three");
    idx.add_document("a", "", "four five six");
    idx.delete_document("b");
    assert_eq!(idx.doc_count(), 1);
    assert_eq!(idx.get_metadata().total_doc_length, 3);
    assert_eq!(idx.get_metadata().doc_lengths.get("a"), Some(&3));
    assert!(idx.get_metadata().doc_lengths.get("b").is_none());
    assert_eq!(idx.get_document("a").unwrap().id, "a");
}

#[test]
fn indexed_terms_record_frequency_and_positions() {
    let mut idx = InvertedIndex::new();
    idx.add_document("7", "ogre", "the ogre met the ogre");
    let p = &idx.get_postings("ogre").unwrap()[0];
    assert_eq!(p.doc_id, "7");
    assert_eq!(p.term_frequency, 3);
    assert_eq!(p.positions, vec![0, 2, 5]);
}

#[test]
fn deleting_removes_every_posting() {
    let mut idx = InvertedIndex::new();
    idx.add_document("1", "", "ogre bride");
    idx.add_document("2", "", "ogre");
    idx.delete_document("1");
    assert!(idx.get_postings("bride").is_none());
    assert!(idx.get_postings("ogre").unwrap().iter().all(|p| p.doc_id != "1"));
}

#[test]
fn merge_prefers_the_newer_document() {
    let mut a = InvertedIndex::new();
    a.add_document("1", "Title 1", "alpha beta");
    let mut b = InvertedIndex::new();
    b.add_document("1", "Title 1b", "gamma");
    b.add_document("2", "Title 2", "beta gamma");
    a.merge_with(b);
    assert_eq!(a.doc_count(), 2);
    assert_eq!(a.get_document("1").unwrap().title, "Title 1b");
    assert!(a.get_postings("alpha").is_none());
    assert_eq!(a.get_postings("gamma").unwrap().len(), 2);
    assert_eq!(a.get_metadata().total_doc_length, 7);
}

#[test]
fn try_add_indexes_the_document() {
    let mut idx = InvertedIndex::new();
    assert!(idx.try_add_document("1", "Title", "ogre"));
    assert!(idx.can_delete("1"));
    assert_eq!(idx.stored_doc_count(), 1);
    let other = InvertedIndex::new();
    assert!(idx.merge_fits(&other));
}

#[test]
fn prefix_ending_in_last_characters_finds_only_its_terms() {
    let mut terms: StrMap<Vec<Posting>> = StrMap::new();
    for t in ["a\u{D7FF}x", "a\u{E000}y", "\u{10FFFF}a"] {
        terms.insert(t.to_string(), vec![Posting { doc_id: "1".to_string(), term_frequency: 1, positions: vec![0] }]);
    }
    let idx = InvertedIndex::from_parts(terms, StrMap::new(), IndexMetadata::new());
    assert_eq!(idx.get_terms_with_prefix("a\u{D7FF}"), vec!["a\u{D7FF}x"]);
    assert_eq!(idx.get_terms_with_prefix("\u{10FFFF}"), vec!["\u{10FFFF}a"]);
}

fn sorted_postings(idx: &InvertedIndex, term: &str) -> Vec<Posting> {
    let mut ps = idx.get_postings(term).unwrap().clone();
    ps.sort_by(|a, b| a.doc_id.cmp(&b.doc_id));
    ps
}

#[test]
fn merge_matches_indexing_one_by_one() {
    let build_base = || {
        let mut a = InvertedIndex::new();
        a.add_document("1", "Title 1", "alpha beta alpha");
        a.add_document("3", "Title 3", "delta");
        a
    };
    let mut other = InvertedIndex::new();
    other.add_document("2", "Title 2", "beta gamma");
    other.add_document("1", "Title 1b", "gamma gamma");

    let mut merged = build_base();
    merged.merge_with(other);
    let mut indexed = build_base();
    indexed.add_document("2", "Title 2", "beta gamma");
    indexed.add_document("1", "Title 1b", "gamma gamma");

    assert_eq!(merged.all_terms(), indexed.all_terms());
    for t in indexed.all_terms() {
        assert_eq!(sorted_postings(&merged, t), sorted_postings(&indexed, t));
    }
    for id in ["1", "2", "3"] {
        assert_eq!(merged.get_document(id), indexed.get_document(id));
        assert_eq!(merged.get_metadata().doc_lengths.get(id), indexed.get_metadata().doc_lengths.get(id));
    }
    assert_eq!(merged.get_metadata().total_docs, indexed.get_metadata().total_docs);
    assert_eq!(merged.get_metadata().total_doc_length, indexed.get_metadata().total_doc_length);
    assert_eq!(merged.get_metadata(), indexed.get_metadata());
    let copy = merged.get_metadata().clone();
    assert_eq!(&copy, indexed.get_metadata());
}

#[test]
fn add_then_delete_restores_the_index() {
    let mut idx = InvertedIndex::new();
    idx.add_document("1", "Title", "ogre bride");
    let terms_before: Vec<String> = idx.all_terms().iter().map(|t| t.to_string()).collect();
    let postings_before = sorted_postings(&idx, "ogre");
    let total_before = idx.get_metadata().total_doc_length;
    idx.add_document("2", "Other", "ogre dragon");
    assert!(idx.delete_document("2"));
    let terms_after: Vec<String> = idx.all_terms().iter().map(|t| t.to_string()).collect();
    assert_eq!(terms_after, terms_before);
    assert_eq!(sorted_postings(&idx, "ogre"), postings_before);
    assert_eq!(idx.get_metadata().total_docs, 1);
    assert_eq!(idx.get_metadata().total_doc_length, total_before);
    assert!(idx.get_document("2").is_none());
}

#[test]
fn try_merge_with_merges_when_the_lengths_fit() {
    let mut a = InvertedIndex::new();
    a.add_document("1", "Title 1", "alpha beta");
    let mut b = InvertedIndex::new();
    b.add_document("2", "Title 2", "beta gamma");
    assert!(a.merge_fits(&b));
    assert!(a.try_merge_with(b));
    assert_eq!(a.doc_count(), 2);
    assert_eq!(a.get_postings("beta").unwrap().len(), 2);
    assert_eq!(a.get_metadata().total_doc_length, 8);
}

#[test]
fn compaction_prunes_deleted_documents() {
    let mut s1 = InvertedIndex::new();
    s1.add_document("1", "Title", "ogre bride");
    s1.add_document("2", "Title", "dragon");
    let mut s2 = InvertedIndex::new();
    s2.add_document("3", "Title", "ogre");
    let compacted = compact_segments(vec![s1, s2], &vec!["1".to_string(), "9".to_string()]).unwrap();
    assert_eq!(compacted.doc_count(), 2);
    assert!(compacted.get_document("1").is_none());
    assert!(compacted.get_postings("bride").is_none());
    assert_eq!(compacted.get_postings("ogre").unwrap().len(), 1);
    assert_eq!(compacted.get_metadata().doc_lengths.get("1"), None);
    assert_eq!(compacted.get_metadata().total_doc_length, 4);
}
