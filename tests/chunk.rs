use search_engine::chunk::Chunk;
use search_engine::compressor::CompressionAlgorithm;

#[test]
fn test_new_chunk_initialization() {
    let chunk = Chunk::new(42, CompressionAlgorithm::VarByte);

    assert_eq!(chunk.term, 42);
    assert_eq!(chunk.size_of_chunk, 9);
    assert_eq!(chunk.max_doc_id, 0);
    assert_eq!(chunk.no_of_postings, 0);
    assert!(chunk.doc_ids.is_empty());
    assert!(chunk.doc_frequencies.is_empty());
    assert!(chunk.doc_positions.is_empty());
}

#[test]
fn test_encode_decode_empty_chunk() {
    let mut chunk = Chunk::new(1, CompressionAlgorithm::VarByte);

    let encoded = chunk.encode();

    let mut decoded_chunk = Chunk::new(1, CompressionAlgorithm::VarByte);
    decoded_chunk.decode(&encoded[4..]); // Skip size_of_chunk bytes

    assert_eq!(decoded_chunk.no_of_postings, 0);
    assert_eq!(decoded_chunk.max_doc_id, 0);
}

#[test]
fn test_encode_decode_single_document() {
    let mut chunk = Chunk::new(1, CompressionAlgorithm::VarByte);

    chunk.add_doc_id(100);
    chunk.add_doc_frequency(5);
    chunk.add_doc_positions(vec![1, 5, 10, 15, 20]);
    chunk.set_max_doc_id(100);

    let encoded = chunk.encode();

    let mut decoded_chunk = Chunk::new(1, CompressionAlgorithm::VarByte);
    decoded_chunk.decode(&encoded[4..]);
    decoded_chunk.decode_doc_ids();
    decoded_chunk.decode_doc_frequencies();
    assert_eq!(decoded_chunk.no_of_postings, 1);
    assert_eq!(decoded_chunk.max_doc_id, 100);
    assert_eq!(decoded_chunk.doc_ids, vec![100]);
    assert_eq!(decoded_chunk.doc_frequencies, vec![5]);
    assert_eq!(decoded_chunk.get_posting_list(0), vec![1, 5, 10, 15, 20]);
}

#[test]
fn test_encode_decode_multiple_documents() {
    let mut chunk = Chunk::new(1, CompressionAlgorithm::Simple16);

    chunk.add_doc_id(100);
    chunk.add_doc_id(200);
    chunk.add_doc_id(300);

    chunk.add_doc_frequency(3);
    chunk.add_doc_frequency(2);
    chunk.add_doc_frequency(4);

    chunk.add_doc_positions(vec![1, 5, 10]);
    chunk.add_doc_positions(vec![20, 25]);
    chunk.add_doc_positions(vec![30, 35, 40, 45]);

    chunk.set_max_doc_id(300);

    let encoded = chunk.encode();

    let mut decoded_chunk = Chunk::new(1, CompressionAlgorithm::Simple16);
    decoded_chunk.decode(&encoded[4..]);

    assert_eq!(decoded_chunk.no_of_postings, 3);
    assert_eq!(decoded_chunk.max_doc_id, 300);
    decoded_chunk.decode_doc_frequencies();
    decoded_chunk.decode_doc_ids();
    assert_eq!(decoded_chunk.doc_ids, vec![100, 200, 300]);
    assert_eq!(decoded_chunk.doc_frequencies, vec![3, 2, 4]);
    assert_eq!(decoded_chunk.get_posting_list(0), vec![1, 5, 10]);
    assert_eq!(decoded_chunk.get_posting_list(1), vec![20, 25]);
    assert_eq!(decoded_chunk.get_posting_list(2), vec![30, 35, 40, 45]);
}

#[test]
fn test_encode_decode_no_positions() {
    let mut chunk = Chunk::new(1, CompressionAlgorithm::Simple9);

    chunk.add_doc_id(100);
    chunk.add_doc_id(200);
    chunk.add_doc_frequency(5);
    chunk.add_doc_frequency(3);
    chunk.set_max_doc_id(200);

    let encoded = chunk.encode();

    let mut decoded_chunk = Chunk::new(1, CompressionAlgorithm::Simple9);
    decoded_chunk.decode(&encoded[4..]);
    decoded_chunk.decode_doc_frequencies();
    decoded_chunk.decode_doc_ids();
    assert_eq!(decoded_chunk.no_of_postings, 2);
    assert_eq!(decoded_chunk.max_doc_id, 200);
    assert_eq!(decoded_chunk.doc_ids, vec![100, 200]);
    assert_eq!(decoded_chunk.doc_frequencies, vec![5, 3]);
    assert!(decoded_chunk.indexed_compressed_positions.is_empty());
}

#[test]
fn chunk_test_reset() {
    let mut chunk = Chunk::new(1, CompressionAlgorithm::VarByte);

    chunk.add_doc_id(100);
    chunk.add_doc_frequency(5);
    chunk.add_doc_positions(vec![1, 2, 3]);
    chunk.set_max_doc_id(100);

    chunk.reset();

    assert_eq!(chunk.size_of_chunk, 9);
    assert_eq!(chunk.max_doc_id, 0);
    assert_eq!(chunk.no_of_postings, 0);
    assert!(chunk.doc_ids.is_empty());
    assert!(chunk.doc_frequencies.is_empty());
    assert!(chunk.doc_positions.is_empty());
}

#[test]
fn test_size_of_chunk_calculation() {
    let mut chunk = Chunk::new(1, CompressionAlgorithm::VarByte);

    chunk.add_doc_id(100);
    chunk.add_doc_frequency(5);
    chunk.add_doc_positions(vec![1, 2, 3]);

    let encoded = chunk.encode();
    let size_from_bytes = u32::from_le_bytes(encoded[0..4].try_into().unwrap());

    // Size should be total length minus the 4 bytes for size field itself
    assert_eq!(size_from_bytes, (encoded.len() - 4) as u32);
    assert_eq!(chunk.size_of_chunk, (encoded.len() - 4) as u32);
}

#[test]
fn test_roundtrip_consistency() {
    let mut input = Chunk::new(1, CompressionAlgorithm::VarByte);

    // Add diverse data
    for i in 0..5 {
        input.add_doc_id((i + 1) * 100);
        input.add_doc_frequency(i + 1);
        let positions: Vec<u32> = (0..=i).map(|j| (j + 1) * 10).collect();
        input.add_doc_positions(positions);
    }
    input.set_max_doc_id(500);

    let encoded = input.encode();

    let mut decoded = Chunk::new(1, CompressionAlgorithm::VarByte);
    decoded.decode(&encoded[4..]);
    decoded.decode_doc_frequencies();
    decoded.decode_doc_ids();
    // Verify all data matches
    assert_eq!(decoded.no_of_postings, input.no_of_postings);
    assert_eq!(decoded.max_doc_id, input.max_doc_id);
    assert_eq!(decoded.doc_ids, input.doc_ids);
    assert_eq!(decoded.doc_frequencies, input.doc_frequencies);

    for i in 0..input.doc_positions.len() {
        assert_eq!(decoded.get_posting_list(i), input.doc_positions[i]);
    }
}
