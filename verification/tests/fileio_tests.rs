use explorer_core::error::AppError;
use explorer_core::fileio::{concat_chunks, decode_content, prepare_chunks, CHUNK_SIZE};

#[test]
fn test_small_content_round_trip() {
    let content = "hello".to_string();
    let chunks = prepare_chunks(&content, CHUNK_SIZE);
    assert_eq!(chunks.len(), 1);
    let bytes = concat_chunks(&chunks);
    assert_eq!(bytes, b"hello".to_vec());
    let read_back = decode_content(bytes, 5, CHUNK_SIZE).unwrap();
    assert_eq!(read_back, "hello");
}

#[test]
fn test_chunking_splits_and_preserves_bytes() {
    let content = "hello world".to_string();
    let chunks = prepare_chunks(&content, 4);
    assert_eq!(chunks.len(), 3);
    assert_eq!(chunks[0], b"hell".to_vec());
    assert_eq!(chunks[1], b"o wo".to_vec());
    assert_eq!(chunks[2], b"rld".to_vec());
    assert_eq!(concat_chunks(&chunks), b"hello world".to_vec());
}

#[test]
fn test_large_content_round_trip() {
    // Content larger than the chunk threshold: the write path cuts it
    // into full chunks plus a remainder and loses nothing.
    let content = "abcdefgh".repeat(300000);
    assert!(content.len() > CHUNK_SIZE);
    let chunks = prepare_chunks(&content, CHUNK_SIZE);
    assert_eq!(chunks.len(), 3);
    assert_eq!(chunks[0].len(), CHUNK_SIZE);
    assert_eq!(chunks[1].len(), CHUNK_SIZE);
    assert_eq!(chunks[2].len(), 2400000 - 2 * CHUNK_SIZE);
    let bytes = concat_chunks(&chunks);
    assert_eq!(bytes, content.as_bytes().to_vec());
}

#[test]
fn test_multibyte_content_round_trip() {
    let content = "naïve — käse ☃".to_string();
    let chunks = prepare_chunks(&content, CHUNK_SIZE);
    let bytes = concat_chunks(&chunks);
    let read_back = decode_content(bytes, content.as_bytes().len() as u64, CHUNK_SIZE).unwrap();
    assert_eq!(read_back, content);
}

#[test]
fn test_strict_decode_rejects_invalid_utf8() {
    let err = decode_content(vec![0x61, 0xFF, 0x62], 3, CHUNK_SIZE).unwrap_err();
    assert_eq!(err.error_type, "io");
}

#[test]
fn test_oversized_file_is_decoded_lossily() {
    // A file reported larger than the threshold: only the first chunk is
    // handed in, and malformed sequences are replaced rather than rejected.
    let first_chunk = vec![0x61, 0xFF, 0x62];
    let text = decode_content(first_chunk, (CHUNK_SIZE as u64) + 1, CHUNK_SIZE).unwrap();
    assert_eq!(text, "a\u{FFFD}b");
}

#[test]
fn test_oversized_valid_utf8_is_kept_exactly() {
    let first_chunk = b"plain text".to_vec();
    let text = decode_content(first_chunk, (CHUNK_SIZE as u64) * 2, CHUNK_SIZE).unwrap();
    assert_eq!(text, "plain text");
}

#[test]
fn test_error_kinds() {
    let io = AppError::io("disk gone".to_string());
    assert_eq!(io.error_type, "io");
    assert_eq!(io.message, "disk gone");
    let custom = AppError::from("Invalid path".to_string());
    assert_eq!(custom.error_type, "custom");
    assert_eq!(custom.message, "Invalid path");
}
