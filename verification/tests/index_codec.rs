use fingertips::format::CodecError;
use fingertips::index::InMemoryIndex;
use fingertips::read::IndexFileReader;
use fingertips::text::tokenize;
use fingertips::write::write_index_to_buf;

fn hit(document_id: u32, positions: &[u32]) -> Vec<u8> {
    let mut out = document_id.to_le_bytes().to_vec();
    for p in positions {
        out.extend_from_slice(&p.to_le_bytes());
    }
    out
}

fn hits_of<'a>(index: &'a InMemoryIndex, term: &str) -> Option<&'a Vec<Vec<u8>>> {
    index.map.iter().find(|th| th.term == term).map(|th| &th.hits)
}

#[test]
fn tokenize_splits_lowercases_and_drops_separators() {
    let tokens = tokenize("Ab1 c,,d");
    assert_eq!(tokens, vec!["ab1".to_string(), "c".to_string(), "d".to_string()]);
}

#[test]
fn tokenize_empty_and_whitespace_only() {
    assert!(tokenize("").is_empty());
    assert!(tokenize(" \t\r\n  ").is_empty());
    assert!(tokenize(",.;:!?").is_empty());
}

#[test]
fn single_document_index_records_positions() {
    let index = InMemoryIndex::from_single_document(0, "the cat sat".to_string());
    assert_eq!(index.word_count, 3);
    assert_eq!(index.map.len(), 3);
    assert_eq!(hits_of(&index, "the"), Some(&vec![hit(0, &[0])]));
    assert_eq!(hits_of(&index, "cat"), Some(&vec![hit(0, &[1])]));
    assert_eq!(hits_of(&index, "sat"), Some(&vec![hit(0, &[2])]));
    assert_eq!(hits_of(&index, "dog"), None);
}

#[test]
fn single_document_repeated_term_extends_one_hit() {
    let index = InMemoryIndex::from_single_document(7, "do or do not".to_string());
    assert_eq!(index.word_count, 4);
    assert_eq!(hits_of(&index, "do"), Some(&vec![hit(7, &[0, 2])]));
    assert_eq!(hits_of(&index, "or"), Some(&vec![hit(7, &[1])]));
    assert_eq!(hits_of(&index, "not"), Some(&vec![hit(7, &[3])]));
}

#[test]
fn merge_unions_terms_and_adds_word_counts() {
    let mut a = InMemoryIndex::from_single_document(0, "the cat".to_string());
    let b = InMemoryIndex::from_single_document(1, "the dog".to_string());
    let wc_a = a.word_count;
    let wc_b = b.word_count;
    a.merge(b);
    assert_eq!(a.word_count, wc_a + wc_b);
    assert_eq!(a.map.len(), 3);
    assert_eq!(hits_of(&a, "the"), Some(&vec![hit(0, &[0]), hit(1, &[0])]));
    assert_eq!(hits_of(&a, "cat"), Some(&vec![hit(0, &[1])]));
    assert_eq!(hits_of(&a, "dog"), Some(&vec![hit(1, &[1])]));
}

#[test]
fn empty_index_reports_empty_until_merged() {
    let mut index = InMemoryIndex::new();
    assert!(index.is_empty());
    assert!(!index.is_large());
    index.merge(InMemoryIndex::from_single_document(0, "word".to_string()));
    assert!(!index.is_empty());
}

#[test]
fn segment_round_trip_sorted_terms_and_frequencies() {
    let mut index = InMemoryIndex::from_single_document(0, "bravo alpha bravo".to_string());
    index.merge(InMemoryIndex::from_single_document(1, "alpha".to_string()));
    let segment = write_index_to_buf(index).ok().unwrap();
    let mut reader = IndexFileReader::open(segment).ok().unwrap();
    let first = reader.peek().unwrap();
    assert_eq!(first.term, "alpha");
    assert_eq!(first.df, 2);
    assert_eq!(first.nbytes, 16);
    assert!(reader.is_at("alpha"));
    assert!(!reader.is_at("bravo"));
    let mut sink = fingertips::write::IndexFileWriter::new();
    reader.move_entry_to(&mut sink);
    let second = reader.peek().unwrap();
    assert_eq!(second.term, "bravo");
    assert_eq!(second.df, 1);
    assert_eq!(second.nbytes, 12);
    reader.move_entry_to(&mut sink);
    assert!(reader.peek().is_none());
    assert!(!reader.is_at("bravo"));
}

#[test]
fn open_rejects_truncated_data() {
    match IndexFileReader::open(vec![1, 2, 3]) {
        Err(CodecError::Truncated) => {}
        _ => panic!("a three-byte file has no header"),
    }
    let header_past_end = 99u64.to_le_bytes().to_vec();
    match IndexFileReader::open(header_past_end) {
        Err(CodecError::Truncated) => {}
        _ => panic!("the table offset points past the end"),
    }
}

#[test]
fn open_rejects_invalid_utf8_term() {
    let mut data = 8u64.to_le_bytes().to_vec();
    data.extend_from_slice(&0u64.to_le_bytes());
    data.extend_from_slice(&0u64.to_le_bytes());
    data.extend_from_slice(&1u32.to_le_bytes());
    data.extend_from_slice(&1u32.to_le_bytes());
    data.push(0xFF);
    match IndexFileReader::open(data) {
        Err(CodecError::InvalidUtf8) => {}
        _ => panic!("0xFF is not a UTF-8 term"),
    }
}

#[test]
fn open_rejects_postings_past_the_table() {
    let mut data = 8u64.to_le_bytes().to_vec();
    data.extend_from_slice(&0u64.to_le_bytes());
    data.extend_from_slice(&5u64.to_le_bytes());
    data.extend_from_slice(&1u32.to_le_bytes());
    data.extend_from_slice(&1u32.to_le_bytes());
    data.push(b'a');
    match IndexFileReader::open(data) {
        Err(CodecError::EntryTooLarge) => {}
        _ => panic!("five posting bytes cannot fit before the table"),
    }
}

#[test]
fn merge_in_either_order_gives_the_same_terms_and_frequencies() {
    let a = || InMemoryIndex::from_single_document(0, "the cat".to_string());
    let b = || InMemoryIndex::from_single_document(1, "the dog".to_string());
    let mut ab = a();
    ab.merge(b());
    let mut ba = b();
    ba.merge(a());
    assert_eq!(ab.word_count, ba.word_count);
    let mut ab_counts: Vec<(String, usize)> =
        ab.map.iter().map(|th| (th.term.clone(), th.hits.len())).collect();
    let mut ba_counts: Vec<(String, usize)> =
        ba.map.iter().map(|th| (th.term.clone(), th.hits.len())).collect();
    ab_counts.sort();
    ba_counts.sort();
    assert_eq!(ab_counts, ba_counts);
}
