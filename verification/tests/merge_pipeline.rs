use std::cell::Cell;

use fingertips::index::InMemoryIndex;
use fingertips::merge::{merge_stream, FileMerge, FinishError, NSTREAMS};
use fingertips::format::CodecError;
use fingertips::run::accumulate;
use fingertips::tmp::TmpDir;
use fingertips::write::write_index_to_buf;

fn segment_of(documents: &[(usize, &str)]) -> Vec<u8> {
    let mut index = InMemoryIndex::new();
    for (id, text) in documents {
        index.merge(InMemoryIndex::from_single_document(*id, text.to_string()));
    }
    write_index_to_buf(index).ok().unwrap()
}

/// Parses a segment's table of contents as (term, df, nbytes, posting bytes).
fn toc_of(data: &[u8]) -> Vec<(String, u32, u64, Vec<u8>)> {
    let toc_start = u64::from_le_bytes(data[0..8].try_into().unwrap()) as usize;
    let mut entries = Vec::new();
    let mut pos = toc_start;
    let mut main_pos = 8;
    while pos < data.len() {
        let nbytes = u64::from_le_bytes(data[pos + 8..pos + 16].try_into().unwrap());
        let df = u32::from_le_bytes(data[pos + 16..pos + 20].try_into().unwrap());
        let term_len = u32::from_le_bytes(data[pos + 20..pos + 24].try_into().unwrap()) as usize;
        let term = String::from_utf8(data[pos + 24..pos + 24 + term_len].to_vec()).unwrap();
        let bytes = data[main_pos..main_pos + nbytes as usize].to_vec();
        main_pos += nbytes as usize;
        entries.push((term, df, nbytes, bytes));
        pos += 24 + term_len;
    }
    entries
}

fn hit(document_id: u32, positions: &[u32]) -> Vec<u8> {
    let mut out = document_id.to_le_bytes().to_vec();
    for p in positions {
        out.extend_from_slice(&p.to_le_bytes());
    }
    out
}

#[test]
fn k_way_merge_combines_shared_terms() {
    let seg1 = segment_of(&[(0, "cat")]);
    let seg2 = segment_of(&[(1, "cat"), (2, "cat")]);
    let merged = merge_stream(vec![seg1, seg2]).ok().unwrap();
    let toc = toc_of(&merged);
    assert_eq!(toc.len(), 1);
    let (term, df, nbytes, _) = &toc[0];
    assert_eq!(term, "cat");
    assert_eq!(*df, 3);
    assert_eq!(*nbytes, 8 + 16);
}

#[test]
fn merge_reports_the_first_undecodable_input() {
    let good = segment_of(&[(0, "fine")]);
    match merge_stream(vec![good, vec![0, 1]]) {
        Err(CodecError::Truncated) => {}
        _ => panic!("the second input has no header"),
    }
}

#[test]
fn end_to_end_two_documents() {
    let a = InMemoryIndex::from_single_document(0, "the cat sat".to_string());
    let b = InMemoryIndex::from_single_document(1, "the dog sat".to_string());
    let seg_a = write_index_to_buf(a).ok().unwrap();
    let seg_b = write_index_to_buf(b).ok().unwrap();
    let merged = merge_stream(vec![seg_a, seg_b]).ok().unwrap();
    let toc = toc_of(&merged);
    let terms: Vec<&str> = toc.iter().map(|e| e.0.as_str()).collect();
    assert_eq!(terms, vec!["cat", "dog", "sat", "the"]);
    let by_term = |t: &str| toc.iter().find(|e| e.0 == t).unwrap().clone();
    assert_eq!(by_term("the").1, 2);
    assert_eq!(by_term("sat").1, 2);
    assert_eq!(by_term("cat").1, 1);
    assert_eq!(by_term("dog").1, 1);
    let mut the_bytes = hit(0, &[0]);
    the_bytes.extend_from_slice(&hit(1, &[0]));
    assert_eq!(by_term("the").3, the_bytes);
    let mut sat_bytes = hit(0, &[2]);
    sat_bytes.extend_from_slice(&hit(1, &[2]));
    assert_eq!(by_term("sat").3, sat_bytes);
    assert_eq!(by_term("cat").3, hit(0, &[1]));
    assert_eq!(by_term("dog").3, hit(1, &[1]));
}

#[test]
fn fan_in_merges_before_finish_and_leaves_one_file() {
    let calls = Cell::new(0u32);
    let merge_fn = |batch: Vec<String>| -> Result<String, ()> {
        if calls.get() == 0 {
            let expected: Vec<String> = (0..NSTREAMS).map(|i| format!("seg-{}", i)).collect();
            assert_eq!(batch, expected, "a filled level merges its full batch in arrival order");
        } else {
            assert_eq!(batch, vec!["merged-1".to_string(), "seg-8".to_string()]);
        }
        calls.set(calls.get() + 1);
        Ok(format!("merged-{}", calls.get()))
    };
    let mut m = FileMerge::new("out");
    for i in 0..NSTREAMS + 1 {
        m.add_file(format!("seg-{}", i), &merge_fn).unwrap();
    }
    assert!(calls.get() >= 1, "filling a level must trigger a merge before finish");
    let final_file = m.finish(&merge_fn).ok().unwrap();
    assert_eq!(final_file, "merged-2");
}

#[test]
fn finish_with_a_single_file_renames_it_unmerged() {
    let merge_fn = |_batch: Vec<String>| -> Result<String, ()> { panic!("no merge needed") };
    let mut m = FileMerge::new("out");
    m.add_file("only".to_string(), &merge_fn).unwrap();
    assert_eq!(m.merged_path(), "out/index.dat");
    let final_file = m.finish(&merge_fn).ok().unwrap();
    assert_eq!(final_file, "only");
}

#[test]
fn finish_without_input_reports_no_output() {
    let merge_fn = |_batch: Vec<String>| -> Result<String, ()> { panic!("nothing to merge") };
    let m = FileMerge::new("out");
    match m.finish(&merge_fn) {
        Err(FinishError::NoOutput) => {}
        _ => panic!("no segment was ever added"),
    }
}

#[test]
fn accumulate_sums_word_counts_without_flushing_small_indexes() {
    let mut acc = InMemoryIndex::new();
    let emitted = accumulate(&mut acc, InMemoryIndex::from_single_document(0, "one two".to_string()));
    assert!(emitted.is_none());
    assert_eq!(acc.word_count, 2);
    let emitted = accumulate(&mut acc, InMemoryIndex::from_single_document(1, "three".to_string()));
    assert!(emitted.is_none());
    assert_eq!(acc.word_count, 3);
}

#[test]
fn tmp_names_count_up_in_hex() {
    let mut tmp = TmpDir::new("scratch");
    assert_eq!(tmp.next_path(), "scratch/tmp00000001.dat");
    assert_eq!(tmp.next_path(), "scratch/tmp00000002.dat");
    for _ in 0..8 {
        tmp.next_path();
    }
    assert_eq!(tmp.next_path(), "scratch/tmp0000000b.dat");
}
