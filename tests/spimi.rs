use search_engine::spimi::smallest_current_term;
use search_engine::block::Block;
use search_engine::compressor::CompressionAlgorithm;
use search_engine::merge_writer::{MergeWriteError, SpimiMergeWriter};
use search_engine::posting::{merge_all_postings, vb_decode_posting_list, Posting};
use search_engine::spimi::{compare_bytes, Spmi, Term};

fn term(t: &str, doc_id: u32, positions: Vec<u32>) -> Term {
    Term { term: t.to_string(), posting: Posting::new(doc_id, positions) }
}

fn read_run(bytes: &[u8]) -> Vec<(String, Vec<Posting>)> {
    let count = u32::from_le_bytes(bytes[0..4].try_into().unwrap());
    let mut off = 4;
    let mut out = Vec::new();
    for _ in 0..count {
        let len = u32::from_le_bytes(bytes[off..off + 4].try_into().unwrap()) as usize;
        off += 4;
        let name = String::from_utf8(bytes[off..off + len].to_vec()).unwrap();
        off += len;
        let plen = u32::from_le_bytes(bytes[off..off + 4].try_into().unwrap()) as usize;
        off += 4;
        out.push((name, vb_decode_posting_list(&bytes[off..off + plen])));
        off += plen;
    }
    assert_eq!(off, bytes.len());
    out
}

#[test]
fn run_lists_terms_in_byte_order() {
    let mut spmi = Spmi::new("idx".to_string());
    let runs = spmi.single_pass_in_memory_indexing(vec![
        term("pear", 2, vec![0]),
        term("apple", 1, vec![3, 4]),
        term("pear", 1, vec![7]),
        term("Zebra", 3, vec![1]),
    ]);
    assert!(runs.is_empty());
    assert_eq!(spmi.size(), 3);
    let run = spmi.finish().unwrap();
    assert_eq!(spmi.size(), 0);
    let entries = read_run(&run);
    let names: Vec<&str> = entries.iter().map(|e| e.0.as_str()).collect();
    assert_eq!(names, vec!["Zebra", "apple", "pear"]);
    assert_eq!(entries[2].1, vec![Posting::new(1, vec![7]), Posting::new(2, vec![0])]);
    assert!(spmi.finish().is_none());
}

#[test]
fn two_runs_merge_into_one_posting_list_per_term() {
    let mut a = Spmi::new("idx".to_string());
    a.single_pass_in_memory_indexing(vec![term("apple", 1, vec![5, 10]), term("apple", 3, vec![8])]);
    let run_a = read_run(&a.finish().unwrap());
    let mut b = Spmi::new("idx".to_string());
    b.single_pass_in_memory_indexing(vec![term("apple", 5, vec![1]), term("banana", 2, vec![1])]);
    let run_b = read_run(&b.finish().unwrap());

    let mut names: Vec<String> = run_a.iter().chain(run_b.iter()).map(|e| e.0.clone()).collect();
    names.sort();
    names.dedup();
    assert_eq!(names, vec!["apple", "banana"]);
    let lists_for = |name: &str| -> Vec<Vec<Posting>> {
        run_a.iter().chain(run_b.iter()).filter(|e| e.0 == name).map(|e| e.1.clone()).collect()
    };
    let apple = merge_all_postings(lists_for("apple"));
    assert_eq!(
        apple,
        vec![Posting::new(1, vec![5, 10]), Posting::new(3, vec![8]), Posting::new(5, vec![1])]
    );
    assert_eq!(merge_all_postings(lists_for("banana")), vec![Posting::new(2, vec![1])]);
}

#[test]
fn dictionary_writes_a_run_when_full() {
    let mut spmi = Spmi::new("idx".to_string());
    let batch: Vec<Term> = (0..40001u32).map(|i| term(&format!("t{:06}", i), 1, vec![i])).collect();
    let runs = spmi.single_pass_in_memory_indexing(batch);
    assert_eq!(runs.len(), 1);
    assert_eq!(u32::from_le_bytes(runs[0][0..4].try_into().unwrap()), 40000);
    assert_eq!(spmi.size(), 1);
}

#[test]
fn compare_bytes_is_lexicographic() {
    assert!(compare_bytes(b"abc", b"abd") < 0);
    assert!(compare_bytes(b"ab", b"abc") < 0);
    assert!(compare_bytes(b"b", b"abc") > 0);
    assert_eq!(compare_bytes(b"same", b"same"), 0);
    assert_eq!(compare_bytes(b"", b""), 0);
}

fn postings(ids: &[u32]) -> Vec<Posting> {
    ids.iter().map(|&d| Posting::new(d, vec![d % 7, d % 7 + 3])).collect()
}

#[test]
fn merge_writer_pages_hold_each_terms_chunks() {
    let mut writer = SpimiMergeWriter::new(None, Some(1), true, CompressionAlgorithm::VarByte);
    let ids1: Vec<u32> = (1..=300).collect();
    let blocks1 = writer.add_term(1, postings(&ids1)).unwrap();
    let blocks2 = writer.add_term(2, postings(&[4, 9])).unwrap();
    writer.finish().unwrap();
    let pages = writer.take_buffered_bytes();
    assert_eq!(pages.len() % 1000, 0);
    assert!(blocks1.windows(2).all(|w| w[0] < w[1]));
    assert!(blocks2[0] >= *blocks1.last().unwrap());

    let mut seen = Vec::new();
    for &b in &blocks1 {
        let page = &pages[b as usize * 1000..(b as usize + 1) * 1000];
        let mut block = Block::new(b, Some(1));
        assert!(block.decode_from_bytes(page));
        let index = block.check_if_term_exists(1);
        assert!(index >= 0);
        for mut chunk in block.decode_chunks_for_term(1, index as usize, CompressionAlgorithm::VarByte) {
            chunk.decode_doc_ids();
            chunk.decode_doc_frequencies();
            for i in 0..chunk.doc_ids.len() {
                assert_eq!(chunk.get_posting_list(i), vec![chunk.doc_ids[i] % 7, chunk.doc_ids[i] % 7 + 3]);
            }
            seen.extend(chunk.doc_ids.clone());
        }
    }
    assert_eq!(seen, ids1);
}

#[test]
fn merge_writer_keeps_chunks_at_chunk_size() {
    let mut writer = SpimiMergeWriter::new(Some(2), None, false, CompressionAlgorithm::Simple9);
    let blocks = writer.add_term(7, postings(&[1, 2, 3, 4, 5])).unwrap();
    assert_eq!(blocks, vec![0]);
    writer.finish().unwrap();
    let pages = writer.take_buffered_bytes();
    assert_eq!(pages.len(), 64000);
    let mut block = Block::new(0, None);
    assert!(block.decode_from_bytes(&pages));
    let chunks = block.decode_chunks_for_term(7, 0, CompressionAlgorithm::Simple9);
    let sizes: Vec<u8> = chunks.iter().map(|c| c.no_of_postings).collect();
    assert_eq!(sizes, vec![2, 2, 1]);
    assert!(chunks.iter().all(|c| c.indexed_compressed_positions.is_empty()));
}

#[test]
fn merge_writer_reports_a_chunk_larger_than_a_block() {
    let mut writer = SpimiMergeWriter::new(None, Some(1), true, CompressionAlgorithm::VarByte);
    let big: Vec<Posting> =
        (1..=3u32).map(|d| Posting::new(d, (0..400u32).map(|i| i * 100_000).collect())).collect();
    assert_eq!(writer.add_term(1, big), Err(MergeWriteError::ChunkTooLarge));
}

#[test]
fn smallest_current_term_picks_runs_at_the_minimum() {
    let heads = vec![
        Some("pear".to_string()),
        None,
        Some("apple".to_string()),
        Some("apple".to_string()),
        Some("zoo".to_string()),
    ];
    let (term, at) = smallest_current_term(&heads).unwrap();
    assert_eq!(term, "apple");
    assert_eq!(at, vec![2, 3]);
    assert!(smallest_current_term(&vec![None, None]).is_none());
    assert!(smallest_current_term(&vec![]).is_none());
}

#[test]
fn add_term_record_writes_a_run_exactly_when_full() {
    let mut spmi = Spmi::new("idx".to_string());
    let mut written = None;
    for i in 0..40000u32 {
        let r = spmi.add_term_record(term(&format!("w{:05}", i), 1, vec![]));
        if i < 39999 {
            assert!(r.is_none());
        } else {
            written = r;
        }
    }
    let run = written.unwrap();
    assert_eq!(u32::from_le_bytes(run[0..4].try_into().unwrap()), 40000);
    assert_eq!(spmi.size(), 0);
    assert!(spmi.add_term_record(term("again", 2, vec![1])).is_none());
    assert_eq!(spmi.size(), 1);
}

#[test]
fn add_term_uses_consecutive_blocks_when_it_spills() {
    let mut writer = SpimiMergeWriter::new(Some(8), Some(1), true, CompressionAlgorithm::VarByte);
    writer.add_term(1, postings(&[2, 3])).unwrap();
    let start = writer.current_block_no;
    let ids1: Vec<u32> = (1..=400).collect();
    let ids = writer.add_term(2, postings(&ids1)).unwrap();
    assert!(ids.len() > 1);
    assert_eq!(ids[0], start);
    for (i, &b) in ids.iter().enumerate() {
        assert_eq!(b, ids[0] + i as u32);
    }
    writer.finish().unwrap();
    let pages = writer.take_buffered_bytes();
    let mut seen = Vec::new();
    for &b in &ids {
        let mut block = Block::new(b, Some(1));
        assert!(block.decode_from_bytes(&pages[b as usize * 1000..(b as usize + 1) * 1000]));
        let index = block.check_if_term_exists(2);
        assert!(index >= 0);
        for mut chunk in block.decode_chunks_for_term(2, index as usize, CompressionAlgorithm::VarByte) {
            chunk.decode_doc_ids();
            seen.extend(chunk.doc_ids.clone());
        }
    }
    assert_eq!(seen, ids1);
}
