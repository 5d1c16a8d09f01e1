use search_engine::compressor::{CompressionAlgorithm, Compressor};
use search_engine::directory::{BlockMaxIterator, ChunkBlockMax, TermDirectory};
use search_engine::merge_writer::{MergeWriteError, SpimiMergeWriter};
use search_engine::posting::Posting;
use search_engine::spimi::{Spmi, Term};
use search_engine_compressors::rice;

fn le(v: &mut Vec<u8>, x: u32) {
    v.extend_from_slice(&x.to_le_bytes());
}

fn sample_file() -> Vec<u8> {
    let mut b = Vec::new();
    for x in [3, 10, 2, 2] {
        le(&mut b, x);
    }
    for x in [5, 1.5f32.to_bits(), 0, 1, 40, 0.75f32.to_bits()] {
        le(&mut b, x);
    }
    for x in [1, 2.0f32.to_bits(), 2, 0] {
        le(&mut b, x);
    }
    for x in [3, 0, 1, 2] {
        le(&mut b, x);
    }
    le(&mut b, 2);
    for (t, id) in [("apple", 1u32), ("pear", 2)] {
        le(&mut b, t.len() as u32);
        b.extend_from_slice(t.as_bytes());
        le(&mut b, id);
    }
    b
}

#[test]
fn term_directory_parses_its_file() {
    let d = TermDirectory::parse_term_metadata(&sample_file()).unwrap();
    assert_eq!((d.no_of_blocks, d.no_of_docs, d.no_of_terms), (3, 10, 2));
    assert_eq!(d.get_term_id("apple"), 1);
    assert_eq!(d.get_term_id("pear"), 2);
    assert_eq!(d.get_term_id("plum"), 0);
    assert_eq!(d.get_block_ids(1), vec![0, 1]);
    assert_eq!(d.get_block_ids(2), vec![2]);
    assert_eq!(d.get_block_ids(3), Vec::<u32>::new());
    assert_eq!(d.get_term_frequency(1), 5);
    assert_eq!(f32::from_bits(d.get_max_term_score_bits(2)), 2.0);
    assert_eq!(
        d.get_chunk_block_max_metadata(1),
        &vec![ChunkBlockMax { chunk_last_doc_id: 40, chunk_max_score_bits: 0.75f32.to_bits() }]
    );
}

#[test]
fn term_directory_rejects_cut_files() {
    let b = sample_file();
    for cut in [0, 15, 20, 60, b.len() - 1] {
        assert!(TermDirectory::parse_term_metadata(&b[..cut]).is_none());
    }
    let mut bad = b.clone();
    let n = bad.len();
    bad[n - 6] = 0xff;
    assert!(TermDirectory::parse_term_metadata(&bad).is_none());
}

#[test]
fn term_directory_records_terms_in_order() {
    let mut d = TermDirectory::new();
    d.add_term_record(3, 0, vec![0, 1], vec![]);
    d.set_term_id("a".to_string(), 1);
    d.add_term_record(1, 0, vec![1], vec![]);
    d.set_term_id("b".to_string(), 2);
    assert_eq!(d.get_block_ids(1), vec![0, 1]);
    assert_eq!(d.get_block_ids(2), vec![1]);
    assert_eq!(d.get_term_id("b"), 2);
}

#[test]
fn rice_uses_the_integer_parameter() {
    let c = Compressor::new(CompressionAlgorithm::RiceCoding);
    let list = vec![4, 9, 12];
    assert_eq!(c.compress_list(&list), rice::compress(&list, Some(3)));
    assert_eq!(c.compress_list(&vec![]), rice::compress(&[], Some(0)));
}

#[test]
fn add_term_succeeds_when_chunks_fit() {
    let mut w = SpimiMergeWriter::new(Some(4), Some(1), true, CompressionAlgorithm::VarByte);
    let postings: Vec<Posting> = (1..=10u32).map(|d| Posting::new(d, vec![d])).collect();
    let ids = w.add_term(1, postings).unwrap();
    assert_eq!(ids, vec![0]);
    let big: Vec<Posting> = (1..=3u32).map(|d| Posting::new(d, (0..400u32).map(|i| i * 100_000).collect())).collect();
    assert_eq!(w.add_term(2, big), Err(MergeWriteError::ChunkTooLarge));
}

fn term(t: &str, doc_id: u32, positions: Vec<u32>) -> Term {
    Term { term: t.to_string(), posting: Posting::new(doc_id, positions) }
}

#[test]
fn spimi_batch_keeps_every_record() {
    let mut s = Spmi::new("idx".to_string());
    let runs = s.single_pass_in_memory_indexing(vec![
        term("apple", 1, vec![10, 20]),
        term("banana", 1, vec![15]),
        term("apple", 2, vec![5, 25, 35]),
        term("cherry", 3, vec![8]),
        term("banana", 2, vec![12, 22]),
    ]);
    assert!(runs.is_empty());
    assert_eq!(s.size(), 3);
    let run = s.finish().unwrap();
    assert_eq!(u32::from_le_bytes(run[0..4].try_into().unwrap()), 3);
    let mut off = 4;
    let mut seen = Vec::new();
    for _ in 0..3 {
        let l = u32::from_le_bytes(run[off..off + 4].try_into().unwrap()) as usize;
        let name = String::from_utf8(run[off + 4..off + 4 + l].to_vec()).unwrap();
        off += 4 + l;
        let pl = u32::from_le_bytes(run[off..off + 4].try_into().unwrap()) as usize;
        let postings = search_engine::posting::vb_decode_posting_list(&run[off + 4..off + 4 + pl]);
        off += 4 + pl;
        seen.push((name, postings.len()));
    }
    assert_eq!(
        seen,
        vec![("apple".to_string(), 2), ("banana".to_string(), 2), ("cherry".to_string(), 1)]
    );
}

#[test]
fn block_max_iterator_moves_to_the_covering_chunk() {
    let b = |d: u32, s: f32| ChunkBlockMax { chunk_last_doc_id: d, chunk_max_score_bits: s.to_bits() };
    let mut it = BlockMaxIterator::new(vec![b(10, 0.5), b(20, 0.8), b(30, 0.3), b(40, 0.9)]);
    assert_eq!(it.last(), 10);
    it.advance(15);
    assert_eq!(it.last(), 20);
    assert_eq!(f32::from_bits(it.score()), 0.8);
    it.advance(20);
    assert_eq!(it.last(), 20);
    it.advance(31);
    assert_eq!(it.last(), 40);
    assert_eq!(it.last_doc_id_of_term(), 40);
    assert!(it.in_range());
}
