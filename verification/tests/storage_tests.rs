use mini_elasticsearch::index::InvertedIndex;
use mini_elasticsearch::storage::segment::{SegmentError, SegmentReader, SegmentWriter, FORMAT_VERSION, MAGIC_BYTES};

fn two_doc_index() -> InvertedIndex {
    let mut index = InvertedIndex::new();
    index.add_document("1", "First Doc", "The ogre kidnapped the bride");
    index.add_document("2", "Second Doc", "The dragon burned the village");
    index
}

fn header(num_terms: u32, num_docs: u32, doc_store_offset: u64) -> Vec<u8> {
    let mut v = Vec::new();
    v.extend_from_slice(MAGIC_BYTES);
    v.extend_from_slice(&FORMAT_VERSION.to_le_bytes());
    v.extend_from_slice(&num_terms.to_le_bytes());
    v.extend_from_slice(&num_docs.to_le_bytes());
    v.extend_from_slice(&0u64.to_le_bytes());
    v.extend_from_slice(&40u64.to_le_bytes());
    v.extend_from_slice(&doc_store_offset.to_le_bytes());
    v
}

#[test]
fn segment_round_trip_keeps_documents_and_postings() {
    let index = two_doc_index();
    let bytes = SegmentWriter::encode(&index);
    let loaded = SegmentReader::parse_from_bytes(&bytes).expect("segment should parse");

    assert_eq!(loaded.doc_count(), 2);
    assert_eq!(loaded.get_document("1").unwrap().title, "First Doc");
    assert_eq!(loaded.get_document("2").unwrap().body, "The dragon burned the village");
    assert_eq!(loaded.all_terms(), index.all_terms());
    for term in index.all_terms() {
        assert_eq!(loaded.get_postings(term), index.get_postings(term));
    }
    let ogre = loaded.get_postings("ogre").unwrap();
    assert_eq!(ogre.len(), 1);
    assert_eq!(ogre[0].doc_id, "1");
    assert_eq!(ogre[0].positions, vec![3]);
    assert_eq!(loaded.get_metadata().total_doc_length, index.get_metadata().total_doc_length);
    assert_eq!(loaded.get_metadata().doc_lengths.get("2"), Some(&7));
}

#[test]
fn segment_header_layout() {
    let bytes = SegmentWriter::encode(&two_doc_index());
    assert_eq!(&bytes[0..4], b"MNSE");
    assert_eq!(u32::from_le_bytes(bytes[4..8].try_into().unwrap()), 1);
    assert_eq!(u32::from_le_bytes(bytes[12..16].try_into().unwrap()), 2);
    assert_eq!(u64::from_le_bytes(bytes[16..24].try_into().unwrap()), 14);
}

#[test]
fn empty_index_round_trip() {
    let bytes = SegmentWriter::encode(&InvertedIndex::new());
    assert_eq!(bytes.len(), 40);
    let loaded = SegmentReader::parse_from_bytes(&bytes).unwrap();
    assert_eq!(loaded.doc_count(), 0);
    assert_eq!(loaded.term_count(), 0);
}

#[test]
fn segment_too_short() {
    let r = SegmentReader::parse_from_bytes(b"MNSE");
    assert_eq!(r.err(), Some(SegmentError::HeaderTooShort));
}

#[test]
fn segment_invalid_magic() {
    let r = SegmentReader::parse_from_bytes(b"BADMAGICDATA123456789012345678901234567890");
    assert_eq!(r.err(), Some(SegmentError::BadMagic));
}

#[test]
fn segment_unsupported_version() {
    let mut bytes = header(0, 0, 40);
    bytes[4] = 2;
    let r = SegmentReader::parse_from_bytes(&bytes);
    assert_eq!(r.err(), Some(SegmentError::UnsupportedVersion(2)));
}

#[test]
fn segment_truncated_term_dictionary() {
    let bytes = header(1, 0, 40);
    assert_eq!(SegmentReader::parse_from_bytes(&bytes).err(), Some(SegmentError::EofInTermDict));
    let mut bytes = header(1, 0, 40);
    bytes.extend_from_slice(&5u16.to_le_bytes());
    bytes.extend_from_slice(b"ab");
    assert_eq!(SegmentReader::parse_from_bytes(&bytes).err(), Some(SegmentError::EofInTermEntry));
}

#[test]
fn segment_invalid_utf8_term() {
    let mut bytes = header(1, 0, 40);
    bytes.extend_from_slice(&1u16.to_le_bytes());
    bytes.push(0xff);
    bytes.extend_from_slice(&0u64.to_le_bytes());
    bytes.extend_from_slice(&0u32.to_le_bytes());
    assert_eq!(SegmentReader::parse_from_bytes(&bytes).err(), Some(SegmentError::InvalidUtf8));
}

#[test]
fn segment_postings_past_the_end() {
    let mut bytes = header(1, 0, 40);
    bytes.extend_from_slice(&1u16.to_le_bytes());
    bytes.push(b'a');
    bytes.extend_from_slice(&1000u64.to_le_bytes());
    bytes.extend_from_slice(&0u32.to_le_bytes());
    assert_eq!(SegmentReader::parse_from_bytes(&bytes).err(), Some(SegmentError::EofInPostingsHeader));
}

#[test]
fn segment_truncated_postings() {
    // one term "a" whose block (at offset 55) claims one posting
    let mut bytes = header(1, 0, 40);
    bytes.extend_from_slice(&1u16.to_le_bytes());
    bytes.push(b'a');
    bytes.extend_from_slice(&55u64.to_le_bytes());
    bytes.extend_from_slice(&0u32.to_le_bytes());
    assert_eq!(bytes.len(), 55);
    bytes.extend_from_slice(&1u32.to_le_bytes());
    let mut short = bytes.clone();
    assert_eq!(SegmentReader::parse_from_bytes(&short).err(), Some(SegmentError::EofInPostingDocIdLen));
    short.extend_from_slice(&3u16.to_le_bytes());
    short.push(b'x');
    assert_eq!(SegmentReader::parse_from_bytes(&short).err(), Some(SegmentError::EofInPostingHeader));
    bytes.extend_from_slice(&1u16.to_le_bytes());
    bytes.push(b'x');
    bytes.extend_from_slice(&1u32.to_le_bytes());
    bytes.extend_from_slice(&2u32.to_le_bytes());
    bytes.extend_from_slice(&0u32.to_le_bytes());
    assert_eq!(SegmentReader::parse_from_bytes(&bytes).err(), Some(SegmentError::EofInPostingPositions));
}

#[test]
fn segment_truncated_document_store() {
    let bytes = header(0, 1, 40);
    assert_eq!(SegmentReader::parse_from_bytes(&bytes).err(), Some(SegmentError::EofInDocStoreIdLen));
    let mut b = header(0, 1, 40);
    b.extend_from_slice(&1u16.to_le_bytes());
    b.push(b'1');
    assert_eq!(SegmentReader::parse_from_bytes(&b).err(), Some(SegmentError::EofInDocStoreHeader));
    b.extend_from_slice(&3u32.to_le_bytes());
    b.extend_from_slice(&9u16.to_le_bytes());
    b.extend_from_slice(b"Ti");
    assert_eq!(SegmentReader::parse_from_bytes(&b).err(), Some(SegmentError::EofInDocTitle));
    let mut c = header(0, 1, 40);
    c.extend_from_slice(&1u16.to_le_bytes());
    c.push(b'1');
    c.extend_from_slice(&3u32.to_le_bytes());
    c.extend_from_slice(&2u16.to_le_bytes());
    c.extend_from_slice(b"Ti");
    c.extend_from_slice(&10u32.to_le_bytes());
    c.extend_from_slice(b"abc");
    assert_eq!(SegmentReader::parse_from_bytes(&c).err(), Some(SegmentError::EofInDocBody));
}

#[test]
fn segment_error_kinds() {
    assert!(SegmentError::EofInDocBody.is_unexpected_eof());
    assert!(!SegmentError::BadMagic.is_unexpected_eof());
    assert!(!SegmentError::InvalidUtf8.is_unexpected_eof());
}

#[test]
fn segment_truncated_copy_is_rejected() {
    let bytes = SegmentWriter::encode(&two_doc_index());
    let cut = &bytes[..bytes.len() - 1];
    assert_eq!(SegmentReader::parse_from_bytes(cut).err(), Some(SegmentError::EofInDocBody));
}

#[test]
fn test_segment_write_and_read_roundtrip() {
    let mut index = InvertedIndex::new();
    index.add_document("1", "First Doc", "The ogre kidnapped the bride");
    index.add_document("2", "Second Doc", "The dragon burned the village");

    let bytes = SegmentWriter::encode(&index);
    assert!(!bytes.is_empty());

    let loaded = SegmentReader::parse_from_bytes(&bytes).expect("Failed to read segment");

    assert_eq!(loaded.doc_count(), 2);
    assert_eq!(loaded.get_document("1").unwrap().title, "First Doc");
    assert_eq!(loaded.get_document("2").unwrap().title, "Second Doc");

    let ogre_postings = loaded.get_postings("ogre").expect("ogre postings missing");
    assert_eq!(ogre_postings.len(), 1);
    assert_eq!(ogre_postings[0].doc_id, "1");
    assert!(!ogre_postings[0].positions.is_empty());
}
