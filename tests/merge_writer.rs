use search_engine::compressor::CompressionAlgorithm;
use search_engine::merge_writer::SpimiMergeWriter;
use search_engine::posting::Posting;

fn create_test_postings(doc_id: u32, positions: Vec<u32>) -> Posting {
    Posting { doc_id, positions }
}

#[test]
fn test_new_writer() {
    let writer = SpimiMergeWriter::new(None, None, true, CompressionAlgorithm::Simple16);

    assert_eq!(writer.current_block_no, 0);
    assert_eq!(writer.chunk_size, 128);
}

#[test]
fn test_new_writer_with_custom_block_size() {
    let writer =
        SpimiMergeWriter::new(Some(64), None, true, CompressionAlgorithm::Simple16);

    assert_eq!(writer.chunk_size, 64);
}

#[test]
fn test_add_single_term_small_postings() {
    let mut writer =
        SpimiMergeWriter::new(Some(64), None, true, CompressionAlgorithm::Simple16);

    let postings = vec![
        create_test_postings(10, vec![5, 10, 15]),
        create_test_postings(20, vec![3, 7]),
    ];

    let result = writer.add_term(1, postings);
    writer.finish().unwrap();
    assert!(result.is_ok());
}

#[test]
fn test_add_multiple_terms() {
    let mut writer =
        SpimiMergeWriter::new(Some(64), None, true, CompressionAlgorithm::Simple16);

    let postings1 = vec![create_test_postings(10, vec![1])];
    let postings2 = vec![create_test_postings(20, vec![2])];

    writer.add_term(1, postings1).unwrap();
    writer.add_term(2, postings2).unwrap();
    writer.finish().unwrap();

    // {
    //     let metadata1 = writer.get_term_metadata(1).unwrap();
    //     assert_eq!(metadata1.term_frequency, 1);
    //     assert!(metadata1.block_ids.len() > 0);
    // } // metadata1 reference dropped here

    // // Check metadata2
    // {
    //     let metadata2 = writer.get_term_metadata(2).unwrap();
    //     assert_eq!(metadata2.term_frequency, 1);
    //     assert!(metadata2.block_ids.len() > 0);
    // }
}

#[test]
fn test_term_with_many_postings() {
    let mut writer =
        SpimiMergeWriter::new(Some(64), None, true, CompressionAlgorithm::Simple16);

    // Create 150 postings to test chunk splitting (>128 postings per chunk)
    let mut postings = Vec::new();
    for i in 0..150 {
        postings.push(create_test_postings(i * 10, vec![1, 2]));
    }

    let result = writer.add_term(1, postings);
    assert!(result.is_ok());
    writer.finish().unwrap();

    // let metadata = writer.get_term_metadata(1).unwrap();
    // assert_eq!(metadata.term_frequency, 150);
}

#[test]
fn test_block_size_threshold_triggers_write() {
    let mut writer =
        SpimiMergeWriter::new(None, Some(1), true, CompressionAlgorithm::Simple16);

    let postings = vec![create_test_postings(10, vec![1, 2, 3, 4, 5])];

    writer.add_term(1, postings.clone()).unwrap();
    let block_no_after_first = writer.current_block_no;

    writer.add_term(2, postings).unwrap();
    writer.finish().unwrap();

    // Second term should trigger a new block due to small max_block_size
    assert!(writer.current_block_no >= block_no_after_first);
}

#[test]
fn test_empty_postings() {
    let mut writer =
        SpimiMergeWriter::new(None, Some(64), true, CompressionAlgorithm::Simple16);

    let postings = vec![];

    let result = writer.add_term(1, postings);
    assert!(result.is_ok());
    writer.finish().unwrap();

    // let metadata = writer.get_term_metadata(1).unwrap();
    // assert_eq!(metadata.term_frequency, 0);
}

#[test]
fn test_postings_with_empty_positions() {
    let mut writer =
        SpimiMergeWriter::new(None, Some(64), true, CompressionAlgorithm::Simple16);

    let postings = vec![
        create_test_postings(10, vec![]),
        create_test_postings(20, vec![]),
    ];

    let result = writer.add_term(1, postings);
    assert!(result.is_ok());
    writer.finish().unwrap();

    // let metadata = writer.get_term_metadata(1).unwrap();
    // assert_eq!(metadata.term_frequency, 2);
}

#[test]
fn test_postings_with_many_positions() {
    let mut writer =
        SpimiMergeWriter::new(None, Some(64), true, CompressionAlgorithm::Simple16);

    // Create a posting with many positions
    let positions: Vec<u32> = (0..100).map(|i| i * 10).collect();
    let postings = vec![create_test_postings(42, positions)];

    let result = writer.add_term(1, postings);
    assert!(result.is_ok());
    writer.finish().unwrap();

    // let metadata = writer.get_term_metadata(1).unwrap();
    // assert_eq!(metadata.term_frequency, 1);
}

#[test]
fn test_file_written_correctly() {
    let mut writer =
        SpimiMergeWriter::new(None, Some(64), true, CompressionAlgorithm::Simple16);

    let postings = vec![
        create_test_postings(10, vec![5, 10]),
        create_test_postings(20, vec![3]),
    ];

    writer.add_term(1, postings).unwrap();
    writer.finish().unwrap();
    let buffer = writer.take_buffered_bytes();

    // File should contain data
    assert!(buffer.len() > 0);

    // First 4 bytes should be number of terms (at least 1)
    let no_of_terms = u32::from_le_bytes([buffer[0], buffer[1], buffer[2], buffer[3]]);
    assert!(no_of_terms >= 1);
}

#[test]
fn test_multiple_terms_different_sizes() {
    let mut writer =
        SpimiMergeWriter::new(None, Some(64), true, CompressionAlgorithm::Simple16);

    // Term 1: Few postings
    writer
        .add_term(1, vec![create_test_postings(10, vec![1])])
        .unwrap();

    // Term 2: Many postings
    let many_postings: Vec<Posting> = (0..50)
        .map(|i| create_test_postings(i * 10, vec![1, 2]))
        .collect();
    writer.add_term(2, many_postings).unwrap();

    // Term 3: Postings with many positions
    writer
        .add_term(3, vec![create_test_postings(100, (0..50).collect())])
        .unwrap();

    // Term 4: Empty
    writer.add_term(4, vec![]).unwrap();

    // Term 5: Normal
    writer
        .add_term(
            5,
            vec![
                create_test_postings(200, vec![1, 2, 3]),
                create_test_postings(300, vec![4, 5, 6]),
            ],
        )
        .unwrap();
    writer.finish().unwrap();

    // assert_eq!(writer.get_term_metadata(1).unwrap().term_frequency, 1);
    // assert_eq!(writer.get_term_metadata(2).unwrap().term_frequency, 50);
    // assert_eq!(writer.get_term_metadata(3).unwrap().term_frequency, 1);
    // assert_eq!(writer.get_term_metadata(4).unwrap().term_frequency, 0);
    // assert_eq!(writer.get_term_metadata(5).unwrap().term_frequency, 2);
}

#[test]
fn spimi_merge_writer_test_large_doc_ids() {
    let mut writer =
        SpimiMergeWriter::new(None, Some(64), true, CompressionAlgorithm::VarByte);

    let postings = vec![
        create_test_postings(u32::MAX - 1000, vec![1]),
        create_test_postings(u32::MAX - 500, vec![2]),
        create_test_postings(u32::MAX - 1, vec![3]),
    ];

    let result = writer.add_term(1, postings);
    assert!(result.is_ok());
    writer.finish().unwrap();

    // let metadata = writer.get_term_metadata(1).unwrap();
    // assert_eq!(metadata.term_frequency, 3);
}

#[test]
fn test_chunk_boundary_128_postings() {
    let mut writer =
        SpimiMergeWriter::new(None, Some(128), true, CompressionAlgorithm::Simple16);

    // Exactly 128 postings - should fit in one chunk
    let postings: Vec<Posting> = (0..128).map(|i| create_test_postings(i, vec![1])).collect();

    let result = writer.add_term(1, postings);
    assert!(result.is_ok());
    writer.finish().unwrap();

    // let metadata = writer.get_term_metadata(1).unwrap();
    // assert_eq!(metadata.term_frequency, 128);
}

#[test]
fn test_chunk_boundary_129_postings() {
    let mut writer =
        SpimiMergeWriter::new(None, Some(128), true, CompressionAlgorithm::Simple16);

    // 129 postings - should create multiple chunks
    let postings: Vec<Posting> = (0..129).map(|i| create_test_postings(i, vec![1])).collect();

    let result = writer.add_term(1, postings);
    assert!(result.is_ok());
    writer.finish().unwrap();

    // let metadata = writer.get_term_metadata(1).unwrap();
    // assert_eq!(metadata.term_frequency, 129);
}
