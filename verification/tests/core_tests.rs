use spex::chunk::{chunks_bytes, Chunk};
use spex::hash::{hash_bytes, hash_file};
use spex::metadata::FileMeta;
use spex::reassemble::{check_file_hash, reassemble_and_verify, reassemble_chunks, ReassembleError};

#[test]
fn splits_data_into_chunks() {
    let data = b"hello world";
    let chunks = chunks_bytes(data, 5);

    assert_eq!(chunks.len(), 3);
    assert_eq!(chunks[0].data, b"hello");
    assert_eq!(chunks[1].data, b" worl");
    assert_eq!(chunks[2].data, b"d");
}

#[test]
fn metadata_matches_file() {
    let data = b"hello world";
    let chunk_size = 3;
    let chunks = chunks_bytes(data, chunk_size);

    let meta = FileMeta::new(data, chunk_size, &chunks);

    assert_eq!(meta.total_chunks, chunks.len() as u64);
    assert_eq!(meta.file_size, data.len() as u64);
}

#[test]
fn joins_data_from_chunks_in_correct_order() {
    let chunks = vec![
        Chunk { index: 2, data: b"world".to_vec() },
        Chunk { index: 0, data: b"hel".to_vec() },
        Chunk { index: 1, data: b"lo ".to_vec() },
    ];

    let result = reassemble_chunks(chunks).unwrap();

    assert_eq!(result, b"hello world");
}

#[test]
fn fails_on_empty_input() {
    let chunks = vec![];

    let result = reassemble_chunks(chunks);

    assert!(matches!(result, Err(ReassembleError::EmptyInput)));
}

#[test]
fn fails_when_chunk_is_missing() {
    let chunks = vec![
        Chunk { index: 0, data: b"hel".to_vec() },
        Chunk { index: 2, data: b"world".to_vec() },
    ];

    let result = reassemble_chunks(chunks);

    assert!(matches!(
        result,
        Err(ReassembleError::MissingChunk { expected: 1, found: 2 })
    ));
}

#[test]
fn fails_on_duplicate_chunk() {
    let chunks = vec![
        Chunk { index: 0, data: b"a".to_vec() },
        Chunk { index: 1, data: b"b".to_vec() },
        Chunk { index: 1, data: b"b".to_vec() },
    ];

    let result = reassemble_chunks(chunks);

    assert!(matches!(
        result,
        Err(ReassembleError::DuplicateChunk { index: 1 })
    ));
}

#[test]
fn fails_when_first_chunk_is_not_zero() {
    let chunks = vec![
        Chunk { index: 1, data: b"lo ".to_vec() },
        Chunk { index: 2, data: b"world".to_vec() },
    ];

    let result = reassemble_chunks(chunks);

    assert!(matches!(
        result,
        Err(ReassembleError::MissingChunk { expected: 0, found: 1 })
    ));
}

#[test]
fn verified_reassembly_succeeds_for_valid_file() {
    let data = b"hello world";
    let chunk_size = 3;
    let chunks = chunks_bytes(data, chunk_size);
    let meta = FileMeta::new(data, chunk_size, &chunks);

    let result = reassemble_and_verify(&meta, chunks).unwrap();

    assert_eq!(result, data);
}

#[test]
fn verified_reassembly_fails_on_corruption() {
    let data = b"hello world";
    let chunk_size = 3;
    let mut chunks = chunks_bytes(data, chunk_size);

    chunks[0].data[0] = b'X';

    let meta = FileMeta::new(data, chunk_size, &chunks_bytes(data, chunk_size));

    let result = reassemble_and_verify(&meta, chunks);

    assert!(matches!(result, Err(ReassembleError::FileHashMismatch)));
}

// ---- further cases ----

#[test]
fn chunking_exact_multiple_and_empty() {
    let chunks = chunks_bytes(b"abcdef", 3);
    assert_eq!(chunks.len(), 2);
    assert_eq!(chunks[0].index, 0);
    assert_eq!(chunks[1].index, 1);
    assert_eq!(chunks[1].data, b"def");
    assert!(chunks_bytes(b"", 4).is_empty());
    let one = chunks_bytes(b"xy", 10);
    assert_eq!(one.len(), 1);
    assert_eq!(one[0].data, b"xy");
}

#[test]
fn chunking_then_reassembly_round_trips() {
    let data: Vec<u8> = (0u8..=255).cycle().take(1000).collect();
    for size in [1usize, 7, 256, 999, 1000, 4096] {
        let chunks = chunks_bytes(&data, size);
        let joined: Vec<u8> = chunks.iter().flat_map(|c| c.data.clone()).collect();
        assert_eq!(joined, data);
        assert_eq!(reassemble_chunks(chunks).unwrap(), data);
    }
}

#[test]
fn reassembly_of_chunks_of_empty_data_is_empty_input() {
    let chunks = chunks_bytes(b"", 3);
    assert!(matches!(reassemble_chunks(chunks), Err(ReassembleError::EmptyInput)));
}

#[test]
fn reassembly_ignores_arrival_order() {
    let data = b"out of order delivery works";
    let mut chunks = chunks_bytes(data, 4);
    chunks.reverse();
    chunks.swap(1, 4);
    assert_eq!(reassemble_chunks(chunks).unwrap(), data);
}

#[test]
fn missing_reports_smallest_index_above_gap() {
    let chunks = vec![
        Chunk { index: 7, data: b"x".to_vec() },
        Chunk { index: 0, data: b"a".to_vec() },
        Chunk { index: 4, data: b"b".to_vec() },
    ];
    assert_eq!(
        reassemble_chunks(chunks),
        Err(ReassembleError::MissingChunk { expected: 1, found: 4 })
    );
}

#[test]
fn duplicate_reported_before_later_gap() {
    let chunks = vec![
        Chunk { index: 0, data: b"a".to_vec() },
        Chunk { index: 0, data: b"z".to_vec() },
        Chunk { index: 5, data: b"b".to_vec() },
    ];
    assert_eq!(reassemble_chunks(chunks), Err(ReassembleError::DuplicateChunk { index: 0 }));
}

#[test]
fn verified_reassembly_rejects_wrong_size() {
    let data = b"hello world";
    let chunks = chunks_bytes(data, 3);
    let mut meta = FileMeta::new(data, 3, &chunks);
    meta.file_size = 10;
    assert_eq!(reassemble_and_verify(&meta, chunks), Err(ReassembleError::FileHashMismatch));
}

#[test]
fn verified_reassembly_passes_reassembly_errors_through() {
    let data = b"hello world";
    let chunks = chunks_bytes(data, 3);
    let meta = FileMeta::new(data, 3, &chunks);
    let partial = vec![Chunk { index: 1, data: b"lo ".to_vec() }];
    assert_eq!(
        reassemble_and_verify(&meta, partial),
        Err(ReassembleError::MissingChunk { expected: 0, found: 1 })
    );
    assert_eq!(reassemble_and_verify(&meta, vec![]), Err(ReassembleError::EmptyInput));
}

#[test]
fn verified_reassembly_with_zero_chunk_size_reports_before_splitting() {
    let data = b"abc";
    let chunks = chunks_bytes(data, 1);
    let mut meta = FileMeta::new(data, 1, &chunks);
    meta.chunk_size = 0;
    meta.file_size = 4;
    assert_eq!(reassemble_and_verify(&meta, chunks), Err(ReassembleError::FileHashMismatch));
}

#[test]
fn sha256_of_known_input() {
    let h = hash_bytes(b"abc");
    let expected: [u8; 32] = [
        0xba, 0x78, 0x16, 0xbf, 0x8f, 0x01, 0xcf, 0xea, 0x41, 0x41, 0x40, 0xde, 0x5d, 0xae, 0x22, 0x23,
        0xb0, 0x03, 0x61, 0xa3, 0x96, 0x17, 0x7a, 0x9c, 0xb4, 0x10, 0xff, 0x61, 0xf2, 0x00, 0x15, 0xad,
    ];
    assert_eq!(h.0, expected);
    let empty = hash_bytes(b"");
    assert_eq!(empty.0[0], 0xe3);
    assert_eq!(empty.0[31], 0x55);
}

#[test]
fn file_hash_equals_hash_of_bytes_for_any_chunk_size() {
    let data = b"streaming protocol experiment";
    let whole = hash_bytes(data);
    for size in [1usize, 2, 5, 29, 100] {
        let chunks = chunks_bytes(data, size);
        assert!(hash_file(&chunks) == whole);
    }
    let meta = FileMeta::new(data, 5, &chunks_bytes(data, 5));
    assert!(meta.file_hash == whole);
}

#[test]
fn hash_equality_compares_all_bytes() {
    let a = spex::hash::Hash([7u8; 32]);
    let mut bytes = [7u8; 32];
    assert!(a == spex::hash::Hash(bytes));
    bytes[31] = 8;
    assert!(a != spex::hash::Hash(bytes));
    bytes[31] = 7;
    bytes[0] = 0;
    assert!(a != spex::hash::Hash(bytes));
}

#[test]
fn digest_check_compares_with_metadata() {
    let data = b"abc".to_vec();
    let meta = FileMeta::new(&data, 3, &chunks_bytes(&data, 3));
    let right = hash_bytes(&data);
    assert_eq!(check_file_hash(&meta, data.clone(), &right), Ok(data.clone()));
    let wrong = spex::hash::Hash([0u8; 32]);
    assert_eq!(check_file_hash(&meta, data, &wrong), Err(ReassembleError::FileHashMismatch));
}

#[test]
fn reassembles_many_chunks_in_reverse_order() {
    let data: Vec<u8> = (0u32..100_000).map(|i| (i % 251) as u8).collect();
    let mut chunks = chunks_bytes(&data, 7);
    chunks.reverse();
    assert_eq!(reassemble_chunks(chunks).unwrap(), data);
}
