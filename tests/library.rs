use search_engine::block::Block;
use search_engine::chunk::Chunk;
use search_engine::compressor::{CompressionAlgorithm, Compressor};
use search_engine::posting::{
    merge_all_postings, try_decode_posting_list, vb_decode_posting_list, vb_encode_posting_list,
    Posting,
};
use search_engine::types::{QueryAlgorithm, TermMetadata};

#[test]
fn var_byte_d_gap_scenario_round_trip() {
    let compressor = Compressor::new(CompressionAlgorithm::VarByte);
    let data = vec![1, 4, 6, 13, 89, 128, 681, 702, 3263, 3489];
    let bytes = compressor.compress_list_with_d_gaps(&data);
    assert_eq!(compressor.decompress_list_with_dgaps(&bytes), data);
}

#[test]
fn var_byte_bytes_are_seven_bit_groups() {
    let compressor = Compressor::new(CompressionAlgorithm::VarByte);
    assert_eq!(compressor.compress_list(&vec![300, 5]), vec![0xAC, 0x02, 0x05]);
    assert_eq!(compressor.decompress_list(&vec![0xAC, 0x02, 0x05]), vec![300, 5]);
}

#[test]
fn d_gap_bytes_differ_from_plain_bytes() {
    let compressor = Compressor::new(CompressionAlgorithm::VarByte);
    let data = vec![1000, 1001, 1002];
    let plain = compressor.compress_list(&data);
    let gaps = compressor.compress_list_with_d_gaps(&data);
    assert_eq!(gaps, compressor.compress_list(&vec![1000, 1, 1]));
    assert!(plain != gaps);
}

#[test]
fn simple9_and_simple16_read_back_a_prefix() {
    for alg in [CompressionAlgorithm::Simple9, CompressionAlgorithm::Simple16] {
        let compressor = Compressor::new(alg);
        let data = vec![3, 7, 1000, 2, 2, 90000];
        let bytes = compressor.compress_list(&data);
        assert_eq!(bytes.len() % 4, 0);
        let back = compressor.decompress_list(&bytes);
        assert_eq!(&back[..data.len()], &data[..]);
        assert!(back[data.len()..].iter().all(|&v| v == 0));
    }
}

#[test]
fn pfor_delta_d_gap_round_trip() {
    let compressor = Compressor::new(CompressionAlgorithm::PforDelta);
    let data: Vec<u32> = (1..=128).map(|i| i * 3).collect();
    let bytes = compressor.compress_list_with_d_gaps(&data);
    assert_eq!(compressor.decompress_list_with_dgaps(&bytes), data);
}

#[test]
fn pfor_delta_stops_at_first_zero() {
    let compressor = Compressor::new(CompressionAlgorithm::PforDelta);
    let bytes = compressor.compress_list(&vec![5, 6, 0, 7]);
    assert_eq!(compressor.decompress_list(&bytes), vec![5, 6]);
}

#[test]
fn rice_compresses_but_reads_back_nothing() {
    let compressor = Compressor::new(CompressionAlgorithm::RiceCoding);
    let bytes = compressor.compress_list(&vec![4, 9, 12]);
    assert!(!bytes.is_empty());
    assert_eq!(compressor.decompress_list(&bytes), Vec::<u32>::new());
}

#[test]
fn chunk_simple16_scenario() {
    let mut chunk = Chunk::new(1, CompressionAlgorithm::Simple16);
    for (d, f, p) in [
        (100, 3, vec![1, 5, 10]),
        (200, 2, vec![20, 25]),
        (300, 4, vec![30, 35, 40, 45]),
    ] {
        chunk.add_doc_id(d);
        chunk.add_doc_frequency(f);
        chunk.add_doc_positions(p);
    }
    let encoded = chunk.encode();
    let mut decoded = Chunk::new(1, CompressionAlgorithm::Simple16);
    assert!(decoded.decode(&encoded[4..]));
    assert_eq!(decoded.max_doc_id, 300);
    decoded.decode_doc_ids();
    decoded.decode_doc_frequencies();
    assert_eq!(decoded.doc_ids, vec![100, 200, 300]);
    assert_eq!(decoded.doc_frequencies, vec![3, 2, 4]);
    assert_eq!(decoded.get_posting_list(2), vec![30, 35, 40, 45]);
}

#[test]
fn full_chunk_uses_pfor_delta_and_round_trips() {
    let mut chunk = Chunk::new(7, CompressionAlgorithm::VarByte);
    for i in 0..128u32 {
        chunk.add_doc_id(10 + i * 2);
        chunk.add_doc_frequency(1 + i % 3);
    }
    let encoded = chunk.encode();
    let mut decoded = Chunk::new(7, CompressionAlgorithm::VarByte);
    assert!(decoded.decode(&encoded[4..]));
    assert_eq!(decoded.no_of_postings, 128);
    decoded.decode_doc_ids();
    decoded.decode_doc_frequencies();
    assert_eq!(decoded.doc_ids, chunk.doc_ids);
    assert_eq!(decoded.doc_frequencies, chunk.doc_frequencies);
}

#[test]
fn chunk_decode_rejects_cut_bytes() {
    let mut chunk = Chunk::new(1, CompressionAlgorithm::VarByte);
    chunk.add_doc_id(9);
    chunk.add_doc_frequency(1);
    chunk.add_doc_positions(vec![4]);
    let encoded = chunk.encode();
    let mut decoded = Chunk::new(1, CompressionAlgorithm::VarByte);
    assert!(!decoded.decode(&encoded[4..encoded.len() - 1]));
    assert!(!decoded.decode(&[]));
}

#[test]
fn merge_all_postings_orders_by_doc_id() {
    let lists = vec![
        vec![Posting::new(1, vec![5, 10]), Posting::new(3, vec![8])],
        vec![Posting::new(2, vec![1])],
        vec![],
        vec![Posting::new(5, vec![1])],
    ];
    let merged = merge_all_postings(lists);
    let ids: Vec<u32> = merged.iter().map(|p| p.doc_id).collect();
    assert_eq!(ids, vec![1, 2, 3, 5]);
    assert_eq!(merged[0].positions, vec![5, 10]);
}

#[test]
fn merge_all_postings_of_nothing_is_empty() {
    assert!(merge_all_postings(vec![]).is_empty());
    assert!(merge_all_postings(vec![vec![], vec![]]).is_empty());
}

#[test]
fn run_encoding_sorts_by_doc_id() {
    let postings = vec![Posting::new(9, vec![1]), Posting::new(4, vec![2, 3])];
    let bytes = vb_encode_posting_list(&postings);
    let decoded = vb_decode_posting_list(&bytes);
    assert_eq!(decoded, vec![Posting::new(4, vec![2, 3]), Posting::new(9, vec![1])]);
    assert_eq!(&bytes[0..4], &4u32.to_le_bytes());
}

#[test]
fn run_decoding_rejects_a_cut_record() {
    let bytes = vb_encode_posting_list(&vec![Posting::new(4, vec![2, 3])]);
    assert_eq!(try_decode_posting_list(&bytes[..bytes.len() - 2]), None);
    assert_eq!(try_decode_posting_list(&bytes[..5]), None);
    assert_eq!(try_decode_posting_list(&bytes).unwrap().len(), 1);
}

#[test]
fn block_page_round_trip() {
    let mut block = Block::new(3, None);
    assert_eq!(block.max_block_size, 64);
    assert_eq!(block.space_left(), 64000 - 4);
    block.add_term(5);
    block.add_chunk_bytes(vec![1, 2, 3]);
    block.add_term(8);
    block.add_chunk_bytes(vec![4, 5]);
    assert_eq!(block.space_left(), 64000 - 4 - 12 - 5);
    let mut page = Vec::new();
    block.encode(&mut page);
    assert_eq!(page.len(), 64000);
    let mut read = Block::new(3, None);
    assert!(read.decode_from_bytes(&page));
    assert_eq!(read.terms, vec![5, 8]);
    assert_eq!(read.term_offsets, vec![0, 3]);
    assert_eq!(read.no_of_terms, 2);
    assert_eq!(&read.chunk_bytes[..5], &[1, 2, 3, 4, 5]);
    assert!(read.chunk_bytes[5..].iter().all(|&b| b == 0));
}

#[test]
fn block_decode_rejects_a_short_page() {
    let mut block = Block::new(0, Some(1));
    assert!(!block.decode_from_bytes(&[1, 0, 0, 0, 7]));
    assert!(!block.decode_from_bytes(&[]));
}

#[test]
fn check_if_term_exists_binary_search() {
    let mut block = Block::new(0, Some(1));
    for t in [2, 4, 8, 16] {
        block.add_term(t);
    }
    assert_eq!(block.check_if_term_exists(8), 2);
    assert_eq!(block.check_if_term_exists(2), 0);
    assert_eq!(block.check_if_term_exists(5), -1);
    assert_eq!(block.check_if_term_exists(17), -1);
    block.reset();
    assert_eq!(block.check_if_term_exists(8), -1);
}

#[test]
fn decode_chunks_for_term_reads_each_terms_chunks() {
    let mut block = Block::new(0, None);
    let mut encoded_terms = Vec::new();
    for (term, ids) in [(1u32, vec![3u32, 9]), (2, vec![4, 5, 6])] {
        let mut chunk = Chunk::new(term, CompressionAlgorithm::VarByte);
        for &d in &ids {
            chunk.add_doc_id(d);
            chunk.add_doc_frequency(1);
        }
        block.add_term(term);
        block.add_chunk_bytes(chunk.encode());
        encoded_terms.push(ids);
    }
    let mut page = Vec::new();
    block.encode(&mut page);
    let mut read = Block::new(0, None);
    assert!(read.decode_from_bytes(&page));
    for (i, ids) in encoded_terms.iter().enumerate() {
        let term = (i + 1) as u32;
        let index = read.check_if_term_exists(term);
        assert_eq!(index, i as i64);
        let mut chunks = read.decode_chunks_for_term(term, i, CompressionAlgorithm::VarByte);
        assert_eq!(chunks.len(), 1);
        chunks[0].decode_doc_ids();
        assert_eq!(&chunks[0].doc_ids, ids);
    }
}

#[test]
fn get_chunk_for_doc_picks_first_covering_chunk() {
    let block = Block::new(0, None);
    let mut a = Chunk::new(1, CompressionAlgorithm::VarByte);
    a.add_doc_id(10);
    let mut b = Chunk::new(1, CompressionAlgorithm::VarByte);
    b.add_doc_id(20);
    let chunks = vec![a, b];
    assert_eq!(block.get_chunk_for_doc(15, &chunks).unwrap().max_doc_id, 20);
    assert_eq!(block.get_chunk_for_doc(5, &chunks).unwrap().max_doc_id, 10);
    assert!(block.get_chunk_for_doc(21, &chunks).is_none());
}

#[test]
fn query_algorithm_names() {
    assert_eq!(QueryAlgorithm::Wand.to_string(), "WAND");
    assert_eq!(QueryAlgorithm::BlockMaxWand.to_string(), "Block Max Wand (BMW)");
    assert_eq!(QueryAlgorithm::BlockMaxMaxScore.to_string(), "Block Max Max Score (BMMS)");
    assert_eq!(QueryAlgorithm::MaxScore.to_string(), "Max Score (MS)");
    assert_eq!(QueryAlgorithm::Boolean.to_string(), "Boolean");
}

#[test]
fn term_metadata_records_blocks() {
    let mut meta = TermMetadata { block_ids: vec![], term_frequency: 0 };
    meta.add_block_id(4);
    meta.add_block_id(5);
    meta.set_term_frequency(130);
    assert_eq!(meta.block_ids, vec![4, 5]);
    assert_eq!(meta.term_frequency, 130);
}

#[test]
fn block_setters_change_only_their_field() {
    let mut block = Block::new(1, Some(2));
    block.add_term(9);
    block.set_no_of_terms(3);
    block.set_block_id(7);
    assert_eq!(block.no_of_terms, 3);
    assert_eq!(block.block_id, 7);
    assert_eq!(block.terms, vec![9]);
    assert_eq!(block.space_left(), 2000 - 10);
}

#[test]
fn binary_merge_keeps_doc_ids_on_every_list() {
    let lists = vec![vec![1, 3, 5, 7, 9], vec![3, 4, 5, 9, 12], vec![0, 3, 9, 10]];
    assert_eq!(search_engine::intersect::binary_merge(&lists), vec![3, 9]);
    assert_eq!(search_engine::intersect::binary_merge(&vec![vec![2, 4]]), vec![2, 4]);
    assert!(search_engine::intersect::binary_merge(&vec![]).is_empty());
    assert!(search_engine::intersect::binary_merge(&vec![vec![1], vec![]]).is_empty());
    assert_eq!(search_engine::intersect::intersect_two(&vec![1, 2, 3], &vec![2, 3, 4]), vec![2, 3]);
}
