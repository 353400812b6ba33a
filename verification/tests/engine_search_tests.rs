use mini_elasticsearch::engine::EngineState;
use mini_elasticsearch::index::{merge_all, InvertedIndex};
use mini_elasticsearch::storage::segment::{SegmentReader, SegmentWriter};
use mini_elasticsearch::storage::wal::WalRecord;

fn build_test_engine() -> EngineState {
    let mut engine = EngineState::new();
    engine.add_document("1", "Ogre Story", "The ogre kidnapped the bride");
    engine.add_document("2", "Dragon Tale", "The dragon burned the village");
    engine.add_document("3", "Escape Story", "The bride escaped from the ogre");
    engine
}

/// The documents that a query matches (ranking aside).
fn search(engine: &EngineState, query: &str) -> Vec<String> {
    engine.search_candidates(query).0
}

#[test]
fn test_search_single_term_returns_correct_docs() {
    let engine = build_test_engine();
    let doc_ids = search(&engine, "ogre");
    assert!(doc_ids.contains(&"1".to_string()));
    assert!(doc_ids.contains(&"3".to_string()));
    assert_eq!(doc_ids.len(), 2);
}

#[test]
fn test_and_search_multi_term() {
    let engine = build_test_engine();
    let doc_ids = search(&engine, "ogre bride");
    assert!(doc_ids.contains(&"1".to_string()));
    assert!(doc_ids.contains(&"3".to_string()));
    assert_eq!(doc_ids.len(), 2);
}

#[test]
fn test_and_search_no_match() {
    let engine = build_test_engine();
    assert!(search(&engine, "ogre dragon").is_empty());
}

#[test]
fn test_or_search() {
    let engine = build_test_engine();
    let doc_ids = search(&engine, "ogre OR dragon");
    assert!(doc_ids.contains(&"1".to_string()));
    assert!(doc_ids.contains(&"2".to_string()));
    assert!(doc_ids.contains(&"3".to_string()));
    assert_eq!(doc_ids.len(), 3);
}

#[test]
fn test_or_search_with_nonexistent_term() {
    let engine = build_test_engine();
    let doc_ids = search(&engine, "ogre OR wizard");
    assert!(doc_ids.contains(&"1".to_string()));
    assert!(doc_ids.contains(&"3".to_string()));
}

#[test]
fn engine_tests_test_search_no_results() {
    let engine = build_test_engine();
    assert!(search(&engine, "wizard").is_empty());
}

#[test]
fn test_empty_query() {
    let engine = build_test_engine();
    assert!(search(&engine, "").is_empty());
}

#[test]
fn engine_tests_test_get_document() {
    let engine = build_test_engine();
    let doc = engine.get_document("1").unwrap();
    assert_eq!(doc.title, "Ogre Story");
    assert_eq!(doc.body, "The ogre kidnapped the bride");
    assert!(engine.get_document("999").is_none());
}

#[test]
fn engine_tests_test_doc_count() {
    let engine = build_test_engine();
    assert_eq!(engine.doc_count(), 3);
}

#[test]
fn test_case_insensitive() {
    let engine = build_test_engine();
    let doc_ids = search(&engine, "OGRE");
    assert!(doc_ids.contains(&"1".to_string()));
    assert!(doc_ids.contains(&"3".to_string()));
}

#[test]
fn engine_tests_test_delete_document() {
    let mut engine = EngineState::new();
    engine.add_document("1", "Title", "The ogre kidnapped the bride");
    engine.add_document("2", "Title", "The dragon burned the village");
    assert!(engine.delete_document("1"));
    assert_eq!(engine.doc_count(), 1);
    assert!(engine.get_document("1").is_none());
    assert!(search(&engine, "ogre").is_empty());
}

#[test]
fn test_delete_nonexistent() {
    let engine = build_test_engine();
    let mut engine = engine;
    assert!(!engine.delete_document("999"));
}

#[test]
fn engine_tests_test_stats() {
    let engine = build_test_engine();
    let meta = engine.index().get_metadata();
    assert_eq!(meta.total_docs, 3);
    assert!(engine.index().term_count() > 0);
    assert!(meta.total_doc_length as f64 / meta.total_docs as f64 > 0.0);
}

#[test]
fn test_phrase_search_match() {
    let engine = build_test_engine();
    let doc_ids = search(&engine, "\"ogre kidnapped\"");
    assert!(doc_ids.contains(&"1".to_string()), "Doc 1 should match 'ogre kidnapped'");
    assert!(!doc_ids.contains(&"3".to_string()), "Doc 3 should not match — terms not adjacent");
}

#[test]
fn test_phrase_search_no_match() {
    let engine = build_test_engine();
    assert!(search(&engine, "\"ogre bride\"").is_empty(), "No doc has 'ogre' directly followed by 'bride'");
}

#[test]
fn test_phrase_search_single_term() {
    let engine = build_test_engine();
    assert_eq!(search(&engine, "\"ogre\"").len(), 2);
}

#[test]
fn test_phrase_search_adjacent_in_body() {
    let mut engine = EngineState::new();
    engine.add_document("1", "", "the quick brown fox");
    engine.add_document("2", "", "quick fox brown jumps");
    let doc_ids = search(&engine, "\"quick brown\"");
    assert!(doc_ids.contains(&"1".to_string()), "Doc 1 has 'quick brown' adjacent");
    assert!(!doc_ids.contains(&"2".to_string()), "Doc 2 has 'quick' then 'fox' then 'brown' — not adjacent");
}

#[test]
fn test_phrase_search_term_not_in_index() {
    let engine = build_test_engine();
    assert!(search(&engine, "\"wizard castle\"").is_empty());
}

#[test]
fn test_prefix_search_matches() {
    let engine = build_test_engine();
    let doc_ids = search(&engine, "ogr*");
    assert!(doc_ids.contains(&"1".to_string()));
    assert!(doc_ids.contains(&"3".to_string()));
}

#[test]
fn test_prefix_search_expands_multiple_terms() {
    let mut engine = EngineState::new();
    engine.add_document("1", "", "ogre castle");
    engine.add_document("2", "", "ogres village");
    engine.add_document("3", "", "dragon burned");
    let doc_ids = search(&engine, "ogr*");
    assert!(doc_ids.contains(&"1".to_string()));
    assert!(doc_ids.contains(&"2".to_string()));
    assert!(!doc_ids.contains(&"3".to_string()));
}

#[test]
fn test_prefix_search_no_match() {
    let engine = build_test_engine();
    assert!(search(&engine, "xyz*").is_empty());
}

#[test]
fn test_prefix_search_exact_match() {
    let engine = build_test_engine();
    assert!(!search(&engine, "ogre*").is_empty());
}

#[test]
fn test_fuzzy_search_distance_1() {
    let engine = build_test_engine();
    let doc_ids = search(&engine, "ogr~1");
    assert!(doc_ids.contains(&"1".to_string()));
    assert!(doc_ids.contains(&"3".to_string()));
}

#[test]
fn test_fuzzy_search_default_distance() {
    let engine = build_test_engine();
    let doc_ids = search(&engine, "ogr~");
    assert!(doc_ids.contains(&"1".to_string()));
    assert!(doc_ids.contains(&"3".to_string()));
}

#[test]
fn test_fuzzy_search_exact_match() {
    let engine = build_test_engine();
    let doc_ids = search(&engine, "ogre~0");
    assert!(doc_ids.contains(&"1".to_string()));
    assert!(doc_ids.contains(&"3".to_string()));
}

#[test]
fn test_fuzzy_search_no_match() {
    let engine = build_test_engine();
    assert!(search(&engine, "xyzzy~1").is_empty());
}

#[test]
fn test_fuzzy_search_wider_distance() {
    let mut engine = EngineState::new();
    engine.add_document("1", "", "ogre castle");
    engine.add_document("2", "", "agree village");
    let results_1 = search(&engine, "ogre~1");
    let results_2 = search(&engine, "ogre~2");
    assert!(results_2.len() >= results_1.len());
}

#[test]
fn or_is_a_word_not_a_substring() {
    let mut engine = EngineState::new();
    engine.add_document("1", "", "orange");
    engine.add_document("2", "", "apple");
    let mut doc_ids = search(&engine, "ORANGE OR apple");
    doc_ids.sort();
    assert_eq!(doc_ids, vec!["1".to_string(), "2".to_string()]);
}

#[test]
fn deletes_stay_pending_across_a_flush_until_the_id_is_indexed_again() {
    let mut engine = EngineState::open(mini_elasticsearch::index::InvertedIndex::new(), 0, 10);
    engine.add_document("1", "Title", "ogre");
    engine.segment_flushed();
    assert!(engine.delete_document("1"));
    engine.segment_flushed();
    assert_eq!(engine.pending_delete_ids(), &vec!["1".to_string()]);
    engine.add_document("1", "Title", "bride");
    assert!(engine.pending_delete_ids().is_empty());
}

#[test]
fn unicode_white_space_separates_or_words() {
    let engine = build_test_engine();
    let mut doc_ids = search(&engine, "\u{3000}ogre\u{2003}OR\u{00A0}dragon\u{2029}");
    doc_ids.sort();
    assert_eq!(doc_ids, vec!["1".to_string(), "2".to_string(), "3".to_string()]);
}

#[test]
fn replaying_the_log_restores_the_acknowledged_documents() {
    let mut seg1 = InvertedIndex::new();
    seg1.add_document("1", "Old", "ogre");
    seg1.add_document("2", "Two", "dragon");
    let mut seg2 = InvertedIndex::new();
    seg2.add_document("1", "New", "bride");
    let index = merge_all(vec![seg1, seg2]).unwrap();
    let mut engine = EngineState::open(index, 2, 100);
    let log = vec![
        WalRecord::Add { id: "3".to_string(), title: "Three".to_string(), body: "village".to_string() },
        WalRecord::Delete { id: "2".to_string() },
    ];
    for rec in &log {
        assert!(engine.try_replay(rec));
    }
    assert_eq!(engine.get_document("1").unwrap().title, "New");
    assert!(engine.get_document("2").is_none());
    assert_eq!(engine.get_document("3").unwrap().body, "village");
    assert_eq!(engine.doc_count(), 2);
    assert!(search(&engine, "ogre").is_empty());
    assert_eq!(search(&engine, "bride"), vec!["1".to_string()]);
}

/// A segment as a reopened engine reads it back from disk.
fn written(index: &InvertedIndex) -> InvertedIndex {
    SegmentReader::parse_from_bytes(&SegmentWriter::encode(index)).unwrap()
}

#[test]
fn reopening_restores_the_documents_after_flushes_deletes_and_compaction() {
    let mut engine = EngineState::open_segments(Vec::new(), 100).unwrap();
    let mut segments: Vec<InvertedIndex> = Vec::new();
    let mut log: Vec<WalRecord> = Vec::new();
    let add = |engine: &mut EngineState, log: &mut Vec<WalRecord>, id: &str, body: &str| {
        log.push(WalRecord::Add { id: id.to_string(), title: "T".to_string(), body: body.to_string() });
        engine.add_document(id, "T", body);
    };
    add(&mut engine, &mut log, "1", "ogre");
    add(&mut engine, &mut log, "2", "dragon");
    segments.push(written(engine.pending_segment().unwrap()));
    log = engine.log_after_flush();
    engine.segment_flushed();

    log.push(WalRecord::Delete { id: "1".to_string() });
    engine.delete_document("1");
    add(&mut engine, &mut log, "3", "bride");
    segments.push(written(engine.pending_segment().unwrap()));
    log = engine.log_after_flush();
    engine.segment_flushed();
    assert_eq!(log.len(), 1);

    let reopen = |segments: Vec<InvertedIndex>, log: &Vec<WalRecord>| {
        let mut e = EngineState::open_segments(segments, 100).unwrap();
        assert_eq!(e.replay_all(log), log.len());
        e
    };
    let copies: Vec<InvertedIndex> = segments.iter().map(written).collect();
    let reopened = reopen(copies, &log);
    assert!(reopened.get_document("1").is_none());
    assert_eq!(reopened.get_document("2"), engine.get_document("2"));
    assert_eq!(reopened.get_document("3"), engine.get_document("3"));
    assert_eq!(reopened.doc_count(), engine.doc_count());

    let compacted = engine.compacted_index(segments).unwrap();
    assert!(compacted.get_document("1").is_none());
    engine.compacted();
    assert!(engine.pending_delete_ids().is_empty());
    let reopened = reopen(vec![written(&compacted)], &log);
    assert!(reopened.get_document("1").is_none());
    assert_eq!(reopened.doc_count(), 2);
    assert_eq!(search(&reopened, "ogre"), Vec::<String>::new());
}
