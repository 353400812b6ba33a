use mini_elasticsearch::engine::{
    and_doc_ids, or_doc_ids, parse_query, parse_standard, phrase_doc_ids, search_candidates, EngineState,
    QueryMode,
};
use mini_elasticsearch::index::InvertedIndex;
use mini_elasticsearch::storage::wal::WalRecord;

fn build_index() -> InvertedIndex {
    let mut idx = InvertedIndex::new();
    idx.add_document("1", "Ogre Story", "The ogre kidnapped the bride");
    idx.add_document("2", "Dragon Tale", "The dragon burned the village");
    idx.add_document("3", "Escape Story", "The bride escaped from the ogre");
    idx
}

fn strings(v: &[&str]) -> Vec<String> {
    v.iter().map(|s| s.to_string()).collect()
}

fn sorted(mut v: Vec<String>) -> Vec<String> {
    v.sort();
    v
}

#[test]
fn parse_plain_terms_requires_all() {
    assert_eq!(parse_query("ogre bride"), QueryMode::Standard(strings(&["ogre", "bride"]), false));
}

#[test]
fn parse_or_query() {
    assert_eq!(parse_query("ogre OR dragon"), QueryMode::Standard(strings(&["ogre", "dragon"]), true));
    assert_eq!(parse_query("ogre OR"), QueryMode::Standard(strings(&["ogre"]), true));
}

#[test]
fn parse_or_inside_a_word_is_a_plain_term() {
    assert_eq!(parse_query("ORACLE"), QueryMode::Standard(strings(&["oracle"]), false));
}

#[test]
fn parse_standard_splits_on_or() {
    assert_eq!(
        parse_standard("Ogre OR Dragon OR bride"),
        QueryMode::Standard(strings(&["ogre", "dragon", "bride"]), true)
    );
}

#[test]
fn parse_phrase_query() {
    assert_eq!(parse_query("\"ogre kidnapped\""), QueryMode::Phrase(strings(&["ogre", "kidnapped"])));
    assert_eq!(parse_query("  \"The Ogre\"  "), QueryMode::Phrase(strings(&["the", "ogre"])));
}

#[test]
fn parse_prefix_query() {
    assert_eq!(parse_query("OGR*"), QueryMode::Prefix("ogr".to_string()));
}

#[test]
fn parse_lone_star_is_plain() {
    assert_eq!(parse_query("*"), QueryMode::Standard(vec![], false));
}

#[test]
fn parse_fuzzy_queries() {
    assert_eq!(parse_query("ogr~1"), QueryMode::Fuzzy("ogr".to_string(), 1));
    assert_eq!(parse_query("ogr~"), QueryMode::Fuzzy("ogr".to_string(), 1));
    assert_eq!(parse_query("Ogre~+2"), QueryMode::Fuzzy("ogre".to_string(), 2));
}

#[test]
fn parse_fuzzy_with_bad_distance_is_plain() {
    assert_eq!(parse_query("ogr~x"), QueryMode::Standard(strings(&["ogr", "x"]), false));
    assert_eq!(
        parse_query("ogr~99999999999999999999999"),
        QueryMode::Standard(strings(&["ogr", "99999999999999999999999"]), false)
    );
}

#[test]
fn parse_empty_query() {
    assert_eq!(parse_query("   "), QueryMode::Standard(vec![], false));
}

#[test]
fn and_candidates() {
    let idx = build_index();
    assert_eq!(sorted(and_doc_ids(&idx, &strings(&["ogre", "bride"]))), strings(&["1", "3"]));
    assert!(and_doc_ids(&idx, &strings(&["ogre", "dragon"])).is_empty());
    assert!(and_doc_ids(&idx, &vec![]).is_empty());
}

#[test]
fn or_candidates() {
    let idx = build_index();
    assert_eq!(sorted(or_doc_ids(&idx, &strings(&["ogre", "dragon"]))), strings(&["1", "2", "3"]));
    assert_eq!(sorted(or_doc_ids(&idx, &strings(&["ogre", "wizard"]))), strings(&["1", "3"]));
}

#[test]
fn phrase_candidates() {
    let idx = build_index();
    assert_eq!(phrase_doc_ids(&idx, &strings(&["ogre", "kidnapped"])), strings(&["1"]));
    assert!(phrase_doc_ids(&idx, &strings(&["ogre", "bride"])).is_empty());
    assert!(phrase_doc_ids(&idx, &strings(&["wizard", "castle"])).is_empty());
    assert_eq!(sorted(phrase_doc_ids(&idx, &strings(&["ogre"]))), strings(&["1", "3"]));
}

#[test]
fn phrase_needs_adjacent_terms() {
    let mut idx = InvertedIndex::new();
    idx.add_document("1", "", "the quick brown fox");
    idx.add_document("2", "", "quick fox brown jumps");
    assert_eq!(phrase_doc_ids(&idx, &strings(&["quick", "brown"])), strings(&["1"]));
}

#[test]
fn search_candidates_for_each_kind_of_query() {
    let idx = build_index();
    let (ids, terms) = search_candidates(&idx, "ogr*");
    assert_eq!(sorted(ids), strings(&["1", "3"]));
    assert_eq!(terms, strings(&["ogre"]));

    let (ids, terms) = search_candidates(&idx, "ogr~1");
    assert_eq!(sorted(ids), strings(&["1", "3"]));
    assert_eq!(terms, strings(&["ogre"]));

    let (ids, _) = search_candidates(&idx, "xyzzy~1");
    assert!(ids.is_empty());

    let (ids, terms) = search_candidates(&idx, "\"ogre kidnapped\"");
    assert_eq!(ids, strings(&["1"]));
    assert_eq!(terms, strings(&["ogre", "kidnapped"]));

    let (ids, _) = search_candidates(&idx, "ogre OR wizard");
    assert_eq!(sorted(ids), strings(&["1", "3"]));

    let (ids, _) = search_candidates(&idx, "OGRE");
    assert_eq!(sorted(ids), strings(&["1", "3"]));

    let (ids, terms) = search_candidates(&idx, "");
    assert!(ids.is_empty());
    assert!(terms.is_empty());
}

#[test]
fn fuzzy_wider_distance_reaches_more_terms() {
    let mut idx = InvertedIndex::new();
    idx.add_document("1", "", "ogre castle");
    idx.add_document("2", "", "agree village");
    let (ids, _) = search_candidates(&idx, "ogre~1");
    assert_eq!(ids, strings(&["1"]));
    let (ids, _) = search_candidates(&idx, "ogre~2");
    assert_eq!(sorted(ids), strings(&["1", "2"]));
}

#[test]
fn in_memory_engine_never_flushes() {
    let mut e = EngineState::new();
    assert!(e.can_add("1", "t", "the ogre"));
    assert!(!e.add_document("1", "t", "the ogre"));
    assert!(e.pending_segment().is_none());
    assert_eq!(e.doc_count(), 1);
    assert_eq!(e.segment_count(), 0);
}

#[test]
fn persistent_engine_flushes_at_threshold() {
    let mut e = EngineState::open(InvertedIndex::new(), 0, 2);
    assert!(!e.add_document("1", "Doc 1", "first test document"));
    assert!(e.add_document("2", "Doc 2", "second test document"));
    assert_eq!(e.pending_segment().unwrap().doc_count(), 2);
    e.segment_flushed();
    assert!(e.pending_segment().is_none());
    assert_eq!(e.segment_count(), 1);
    assert_eq!(e.doc_count(), 2);
    e.compacted();
    assert_eq!(e.segment_count(), 1);
}

#[test]
fn replay_applies_log_records() {
    let mut e = EngineState::open(InvertedIndex::new(), 3, 100);
    e.replay(&WalRecord::Add { id: "1".to_string(), title: "Doc 1".to_string(), body: "Body 1".to_string() });
    e.replay(&WalRecord::Add { id: "2".to_string(), title: "Doc 2".to_string(), body: "Body 2".to_string() });
    e.replay(&WalRecord::Delete { id: "1".to_string() });
    assert_eq!(e.doc_count(), 1);
    assert!(e.get_document("1").is_none());
    assert_eq!(e.get_document("2").unwrap().title, "Doc 2");
    assert_eq!(e.pending_segment().unwrap().doc_count(), 1);
    assert_eq!(e.segment_count(), 3);
}

#[test]
fn delete_reports_whether_document_existed() {
    let mut e = EngineState::new();
    e.add_document("1", "Title", "The ogre kidnapped the bride");
    assert!(e.can_delete("1"));
    assert!(e.delete_document("1"));
    assert!(!e.delete_document("999"));
    let (ids, _) = e.search_candidates("ogre");
    assert!(ids.is_empty());
}

#[test]
fn try_add_reports_a_due_segment() {
    let mut e = EngineState::open(InvertedIndex::new(), 0, 1);
    assert_eq!(e.try_add_document("1", "Doc", "body text"), Some(true));
    let mut m = EngineState::new();
    assert_eq!(m.try_add_document("1", "Doc", "body text"), Some(false));
}

#[test]
fn try_replay_applies_records() {
    let mut e = EngineState::open(InvertedIndex::new(), 0, 0);
    assert!(e.try_replay(&WalRecord::Add { id: "a".to_string(), title: "A".to_string(), body: "x y".to_string() }));
    assert!(e.try_replay(&WalRecord::Delete { id: "zzz".to_string() }));
    assert_eq!(e.doc_count(), 1);
}
