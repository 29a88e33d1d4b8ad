use base64::Engine;
use word_card::errors::UploadError;
use word_card::upload::{
    cancel_upload, delete_upload, finish_upload, session_bytes, start_upload, upload_chunk,
    upload_completed, UploadState, MAX_FILE_SIZE,
};

fn b64(data: &[u8]) -> String {
    base64::engine::general_purpose::STANDARD.encode(data)
}

#[test]
fn start_succeeds_only_with_matching_chunk_count() {
    let mut state = UploadState::new();
    assert_eq!(
        start_upload(&mut state, "u1", "list.csv", 10, 4, 2),
        Err(UploadError::ChunkCountMismatch)
    );
    assert_eq!(
        start_upload(&mut state, "u1", "list.csv", 10, 4, 4),
        Err(UploadError::ChunkCountMismatch)
    );
    assert_eq!(start_upload(&mut state, "u1", "list.csv", 10, 4, 3), Ok(()));
}

#[test]
fn start_validation_errors() {
    let mut state = UploadState::new();
    assert_eq!(
        start_upload(&mut state, "  ", "list.csv", 10, 4, 3),
        Err(UploadError::EmptyUploadId)
    );
    assert_eq!(
        start_upload(&mut state, "u1", "list.txt", 10, 4, 3),
        Err(UploadError::UnsupportedExtension)
    );
    assert_eq!(
        start_upload(&mut state, "u1", "list.csv", MAX_FILE_SIZE + 1, 4, (MAX_FILE_SIZE + 4) / 4),
        Err(UploadError::FileTooLarge)
    );
    assert_eq!(
        start_upload(&mut state, "u1", "list.csv", 10, 0, 3),
        Err(UploadError::ZeroChunkSize)
    );
    assert_eq!(start_upload(&mut state, "u1", "LIST.CSV", 10, 4, 3), Ok(()));
    assert_eq!(
        start_upload(&mut state, "u1", "list.csv", 10, 4, 3),
        Err(UploadError::SessionAlreadyExists)
    );
}

#[test]
fn scenario_chunked_upload_reassembles() {
    let data: &[u8] = b"0123456789";
    let mut state = UploadState::new();
    assert_eq!(start_upload(&mut state, "u1", "list.csv", 10, 4, 3), Ok(()));
    // chunks arrive out of order
    assert_eq!(upload_chunk(&mut state, "u1", 1, 3, "h1", &b64(&data[4..8])), Ok(()));
    assert_eq!(upload_chunk(&mut state, "u1", 2, 3, "h2", &b64(&data[8..10])), Ok(()));
    assert_eq!(upload_chunk(&mut state, "u1", 0, 3, "h0", &b64(&data[0..4])), Ok(()));
    assert_eq!(finish_upload(&mut state, "u1"), Ok(()));
    assert_eq!(upload_completed(&state, "u1"), Some(true));
    assert_eq!(session_bytes(&state, "u1").unwrap(), data.to_vec());
}

#[test]
fn scenario_wrong_last_chunk_length_rejected() {
    let data: &[u8] = b"0123456789";
    let mut state = UploadState::new();
    assert_eq!(start_upload(&mut state, "u1", "list.csv", 10, 4, 3), Ok(()));
    assert_eq!(upload_chunk(&mut state, "u1", 0, 3, "h0", &b64(&data[0..4])), Ok(()));
    assert_eq!(upload_chunk(&mut state, "u1", 1, 3, "h1", &b64(&data[4..8])), Ok(()));
    let before = session_bytes(&state, "u1").unwrap();
    assert_eq!(
        upload_chunk(&mut state, "u1", 2, 3, "h2", &b64(b"89AB")),
        Err(UploadError::ChunkLengthMismatch)
    );
    assert_eq!(session_bytes(&state, "u1").unwrap(), before);
    assert_eq!(finish_upload(&mut state, "u1"), Err(UploadError::UploadIncomplete));
}

#[test]
fn retry_with_same_fingerprint_is_a_noop() {
    let mut state = UploadState::new();
    assert_eq!(start_upload(&mut state, "u1", "list.csv", 4, 4, 1), Ok(()));
    assert_eq!(upload_chunk(&mut state, "u1", 0, 1, "h0", &b64(b"abcd")), Ok(()));
    let before = session_bytes(&state, "u1").unwrap();
    // a retry with the original fingerprint succeeds without even decoding
    assert_eq!(upload_chunk(&mut state, "u1", 0, 1, "h0", "!!! not base64 !!!"), Ok(()));
    assert_eq!(upload_chunk(&mut state, "u1", 0, 1, "h0", &b64(b"zzzz")), Ok(()));
    assert_eq!(session_bytes(&state, "u1").unwrap(), before);
    assert_eq!(before, b"abcd".to_vec());
}

#[test]
fn resend_with_different_fingerprint_is_a_conflict() {
    let mut state = UploadState::new();
    assert_eq!(start_upload(&mut state, "u1", "list.csv", 4, 4, 1), Ok(()));
    assert_eq!(upload_chunk(&mut state, "u1", 0, 1, "h0", &b64(b"abcd")), Ok(()));
    assert_eq!(
        upload_chunk(&mut state, "u1", 0, 1, "h-other", &b64(b"efgh")),
        Err(UploadError::FingerprintMismatch)
    );
    assert_eq!(session_bytes(&state, "u1").unwrap(), b"abcd".to_vec());
}

#[test]
fn finish_fails_on_any_gap() {
    let mut state = UploadState::new();
    assert_eq!(finish_upload(&mut state, "u1"), Err(UploadError::SessionNotFound));
    assert_eq!(start_upload(&mut state, "u1", "list.csv", 10, 4, 3), Ok(()));
    assert_eq!(finish_upload(&mut state, "u1"), Err(UploadError::UploadIncomplete));
    assert_eq!(upload_chunk(&mut state, "u1", 0, 3, "h0", &b64(b"0123")), Ok(()));
    assert_eq!(upload_chunk(&mut state, "u1", 2, 3, "h2", &b64(b"89")), Ok(()));
    assert_eq!(finish_upload(&mut state, "u1"), Err(UploadError::UploadIncomplete));
    assert_eq!(upload_chunk(&mut state, "u1", 1, 3, "h1", &b64(b"4567")), Ok(()));
    assert_eq!(finish_upload(&mut state, "u1"), Ok(()));
    // finishing a finished upload stays successful
    assert_eq!(finish_upload(&mut state, "u1"), Ok(()));
}

#[test]
fn chunk_state_errors() {
    let mut state = UploadState::new();
    assert_eq!(
        upload_chunk(&mut state, "nope", 0, 1, "h0", &b64(b"ab")),
        Err(UploadError::SessionNotFound)
    );
    assert_eq!(start_upload(&mut state, "u1", "list.csv", 4, 2, 2), Ok(()));
    assert_eq!(
        upload_chunk(&mut state, "u1", 0, 3, "h0", &b64(b"ab")),
        Err(UploadError::TotalChunksMismatch)
    );
    assert_eq!(
        upload_chunk(&mut state, "u1", 2, 2, "h2", &b64(b"ab")),
        Err(UploadError::ChunkIndexOutOfRange)
    );
    assert_eq!(
        upload_chunk(&mut state, "u1", 0, 2, "h0", "@@@"),
        Err(UploadError::ChunkNotBase64)
    );
    assert_eq!(upload_chunk(&mut state, "u1", 0, 2, "h0", &b64(b"ab")), Ok(()));
    assert_eq!(upload_chunk(&mut state, "u1", 1, 2, "h1", &b64(b"cd")), Ok(()));
    assert_eq!(finish_upload(&mut state, "u1"), Ok(()));
    assert_eq!(
        upload_chunk(&mut state, "u1", 0, 2, "h0", &b64(b"ab")),
        Err(UploadError::SessionCompleted)
    );
}

#[test]
fn cancel_and_delete_are_idempotent() {
    let mut state = UploadState::new();
    assert_eq!(cancel_upload(&mut state, "ghost"), Ok(()));
    assert_eq!(start_upload(&mut state, "u1", "list.csv", 4, 4, 1), Ok(()));
    assert!(upload_completed(&state, "u1").is_some());
    assert_eq!(cancel_upload(&mut state, "u1"), Ok(()));
    assert_eq!(upload_completed(&state, "u1"), None);
    assert_eq!(cancel_upload(&mut state, "u1"), Ok(()));
    assert_eq!(start_upload(&mut state, "u2", "list.csv", 4, 4, 1), Ok(()));
    assert_eq!(delete_upload(&mut state, "u2"), Ok(()));
    assert_eq!(upload_completed(&state, "u2"), None);
}

#[test]
fn empty_upload_finishes_without_chunks() {
    let mut state = UploadState::new();
    assert_eq!(start_upload(&mut state, "u1", "list.csv", 0, 4, 0), Ok(()));
    assert_eq!(finish_upload(&mut state, "u1"), Ok(()));
    assert_eq!(session_bytes(&state, "u1").unwrap(), Vec::<u8>::new());
}
