use search_engine::posting::{vb_decode_posting_list, vb_encode_posting_list, Posting};

#[test]
fn test_empty_posting_list() {
    let input: Vec<Posting> = Vec::new();
    let encoded = vb_encode_posting_list(&input);
    let decoded = vb_decode_posting_list(&encoded);

    assert_eq!(input, decoded);
    assert_eq!(encoded.len(), 0);
}

#[test]
fn test_single_posting_single_position() {
    let input = vec![Posting {
        doc_id: 42,
        positions: vec![10],
    }];
    let encoded = vb_encode_posting_list(&input);
    let decoded = vb_decode_posting_list(&encoded);

    assert_eq!(input, decoded);
}

#[test]
fn test_single_posting_multiple_positions() {
    let input = vec![Posting {
        doc_id: 100,
        positions: vec![5, 12, 25, 30],
    }];
    let encoded = vb_encode_posting_list(&input);
    let decoded = vb_decode_posting_list(&encoded);

    assert_eq!(input, decoded);
}

#[test]
fn test_single_posting_empty_positions() {
    let input = vec![Posting {
        doc_id: 15,
        positions: vec![],
    }];
    let encoded = vb_encode_posting_list(&input);
    let decoded = vb_decode_posting_list(&encoded);

    assert_eq!(input, decoded);
}

#[test]
fn test_multiple_postings_ascending_doc_ids() {
    let input = vec![
        Posting {
            doc_id: 10,
            positions: vec![1, 5],
        },
        Posting {
            doc_id: 25,
            positions: vec![2, 8, 12],
        },
        Posting {
            doc_id: 50,
            positions: vec![3],
        },
        Posting {
            doc_id: 100,
            positions: vec![1, 4, 7, 10],
        },
    ];
    let encoded = vb_encode_posting_list(&input);
    let decoded = vb_decode_posting_list(&encoded);

    assert_eq!(input, decoded);
}

#[test]
fn helper_test_large_doc_ids() {
    let input = vec![
        Posting {
            doc_id: 1000000,
            positions: vec![1],
        },
        Posting {
            doc_id: 2000000,
            positions: vec![5, 10],
        },
        Posting {
            doc_id: 4294967295,
            positions: vec![2],
        }, // Max u32
    ];
    let encoded = vb_encode_posting_list(&input);
    let decoded = vb_decode_posting_list(&encoded);

    assert_eq!(input, decoded);
}

#[test]
fn test_large_position_values() {
    let input = vec![Posting {
        doc_id: 1,
        positions: vec![1000000, 2000000, 4294967295],
    }];
    let encoded = vb_encode_posting_list(&input);
    let decoded = vb_decode_posting_list(&encoded);

    assert_eq!(input, decoded);
}

#[test]
fn test_many_positions() {
    let positions: Vec<u32> = (1..=1000).collect();
    let input = vec![Posting {
        doc_id: 42,
        positions,
    }];
    let encoded = vb_encode_posting_list(&input);
    let decoded = vb_decode_posting_list(&encoded);

    assert_eq!(input, decoded);
}

#[test]
fn test_consecutive_doc_ids() {
    let input = vec![
        Posting {
            doc_id: 1,
            positions: vec![1],
        },
        Posting {
            doc_id: 2,
            positions: vec![2],
        },
        Posting {
            doc_id: 3,
            positions: vec![3],
        },
        Posting {
            doc_id: 4,
            positions: vec![4],
        },
        Posting {
            doc_id: 5,
            positions: vec![5],
        },
    ];
    let encoded = vb_encode_posting_list(&input);
    let decoded = vb_decode_posting_list(&encoded);

    assert_eq!(input, decoded);
}

#[test]
fn test_mixed_position_counts() {
    let input = vec![
        Posting {
            doc_id: 5,
            positions: vec![],
        },
        Posting {
            doc_id: 10,
            positions: vec![1],
        },
        Posting {
            doc_id: 20,
            positions: vec![1, 2],
        },
        Posting {
            doc_id: 30,
            positions: vec![1, 2, 3],
        },
        Posting {
            doc_id: 40,
            positions: vec![],
        },
        Posting {
            doc_id: 50,
            positions: vec![10, 20, 30, 40, 50],
        },
    ];
    let encoded = vb_encode_posting_list(&input);
    let decoded = vb_decode_posting_list(&encoded);

    assert_eq!(input, decoded);
}

#[test]
fn test_large_doc_id_differences() {
    let input = vec![
        Posting {
            doc_id: 1,
            positions: vec![1],
        },
        Posting {
            doc_id: 1000000,
            positions: vec![2],
        },
        Posting {
            doc_id: 2000000,
            positions: vec![3],
        },
    ];
    let encoded = vb_encode_posting_list(&input);
    let decoded = vb_decode_posting_list(&encoded);

    assert_eq!(input, decoded);
}

#[test]
fn test_empty_bytes() {
    let empty_bytes: Vec<u8> = Vec::new();
    let decoded = vb_decode_posting_list(&empty_bytes);

    assert_eq!(decoded, Vec::<Posting>::new());
}
