use search_engine::compressor::{CompressionAlgorithm, Compressor};

#[test]
fn test_p_for_delta_compressor() {
    let compressor = Compressor::new(CompressionAlgorithm::PforDelta);
    let data = vec![1, 4, 6, 13, 7, 128, 68, 70, 326, 34];
    let bytes = compressor.compress_list(&data);
    let decoded = compressor.decompress_list(&bytes);
    assert_eq!(data, decoded);
}

#[test]
fn test_p_for_delta_compressor_with_d_gap() {
    let compressor = Compressor::new(CompressionAlgorithm::PforDelta);
    let data = vec![1, 4, 6, 13, 89, 128, 681, 702, 3263, 3489];
    let bytes = compressor.compress_list_with_d_gaps(&data);
    let decoded = compressor.decompress_list_with_dgaps(&bytes);
    assert_eq!(data, decoded);
}

#[test]
fn test_simple_9_compressor_with_d_gap() {
    let compressor = Compressor::new(CompressionAlgorithm::Simple9);
    let data = vec![1, 4, 6, 13, 89, 128, 681, 702, 3263, 3489];
    let bytes = compressor.compress_list(&data);
    let decoded = compressor.decompress_list(&bytes);
    assert_eq!(data, decoded);
}

#[test]
fn try_decompress_reports_undecodable_bytes() {
    let vb = Compressor::new(CompressionAlgorithm::VarByte);
    assert_eq!(vb.try_decompress_list(&vec![0x80; 6]), None);
    assert_eq!(vb.try_decompress_list(&vec![0xAC, 0x02, 0x05]), Some(vec![300, 5]));
    let s9 = Compressor::new(CompressionAlgorithm::Simple9);
    assert_eq!(s9.try_decompress_list(&vec![1, 2, 3]), None);
    assert_eq!(s9.try_decompress_list(&vec![9, 0, 0, 0]), None);
    let good = s9.compress_list(&vec![3, 4, 5]);
    assert_eq!(&s9.try_decompress_list(&good).unwrap()[..3], &[3, 4, 5]);
    let s16 = Compressor::new(CompressionAlgorithm::Simple16);
    assert_eq!(s16.try_decompress_list(&vec![0; 5]), None);
    let gaps = s16.compress_list_with_d_gaps(&vec![10, 20, 35]);
    assert_eq!(&s16.try_decompress_list_with_dgaps(&gaps).unwrap()[..3], &[10, 20, 35]);
    let pfor = Compressor::new(CompressionAlgorithm::PforDelta);
    assert_eq!(pfor.try_decompress_list(&pfor.compress_list(&vec![1, 2])), None);
}
