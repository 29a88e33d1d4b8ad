use base64::Engine;
use word_card::errors::UploadError;
use word_card::import::{import_four_rank_csv, ImportSummary};
use word_card::upload::{
    finish_upload, session_bytes, start_upload, upload_chunk, UploadState,
};
use word_card::word_store::WordStore;

fn b64(data: &[u8]) -> String {
    base64::engine::general_purpose::STANDARD.encode(data)
}

#[test]
fn single_chunk_smaller_than_chunk_size() {
    let mut state = UploadState::new();
    // three bytes, chunk size eight: one chunk of exactly three bytes
    assert_eq!(start_upload(&mut state, "u1", "a.csv", 3, 8, 1), Ok(()));
    assert_eq!(
        upload_chunk(&mut state, "u1", 0, 1, "h0", &b64(b"abcdefgh")),
        Err(UploadError::ChunkLengthMismatch)
    );
    assert_eq!(upload_chunk(&mut state, "u1", 0, 1, "h0", &b64(b"abc")), Ok(()));
    assert_eq!(finish_upload(&mut state, "u1"), Ok(()));
    assert_eq!(session_bytes(&state, "u1").unwrap(), b"abc".to_vec());
}

#[test]
fn exact_multiple_has_a_full_last_chunk() {
    let mut state = UploadState::new();
    assert_eq!(
        start_upload(&mut state, "u1", "a.csv", 8, 4, 3),
        Err(UploadError::ChunkCountMismatch)
    );
    assert_eq!(start_upload(&mut state, "u1", "a.csv", 8, 4, 2), Ok(()));
    assert_eq!(
        upload_chunk(&mut state, "u1", 1, 2, "h1", &b64(b"45")),
        Err(UploadError::ChunkLengthMismatch)
    );
    assert_eq!(upload_chunk(&mut state, "u1", 1, 2, "h1", &b64(b"4567")), Ok(()));
    assert_eq!(upload_chunk(&mut state, "u1", 0, 2, "h0", &b64(b"0123")), Ok(()));
    assert_eq!(finish_upload(&mut state, "u1"), Ok(()));
    assert_eq!(session_bytes(&state, "u1").unwrap(), b"01234567".to_vec());
}

#[test]
fn zero_chunk_session_accepts_no_chunk() {
    let mut state = UploadState::new();
    assert_eq!(start_upload(&mut state, "u1", "a.csv", 0, 4, 0), Ok(()));
    assert_eq!(
        upload_chunk(&mut state, "u1", 0, 0, "h0", &b64(b"")),
        Err(UploadError::ChunkIndexOutOfRange)
    );
}

#[test]
fn base64_with_stray_characters_is_rejected() {
    let mut state = UploadState::new();
    assert_eq!(start_upload(&mut state, "u1", "a.csv", 4, 4, 1), Ok(()));
    let good = b64(b"abcd");
    assert_eq!(
        upload_chunk(&mut state, "u1", 0, 1, "h0", &format!(" {good} ")),
        Err(UploadError::ChunkNotBase64)
    );
    assert_eq!(upload_chunk(&mut state, "u1", 0, 1, "h0", &good), Ok(()));
}

#[test]
fn column_order_does_not_matter() {
    let content = "phonetic,audio_us,word,part_of_speech_and_meanings,example_sentence,example_translation,audio_uk\n\
                   a,us.mp3,alpha,n.,e,t,uk.mp3";
    let mut store = WordStore::new();
    let summary = import_four_rank_csv(&mut store, content, None).unwrap();
    assert_eq!(summary, ImportSummary { total: 1, upserted: 1, skipped: 0 });
    let rec = store.get_record("alpha").unwrap();
    assert_eq!(rec.phonetic.as_deref(), Some("a"));
    assert_eq!(rec.audio_us.as_deref(), Some("us.mp3"));
    assert_eq!(rec.audio_uk.as_deref(), Some("uk.mp3"));
}

#[test]
fn windows_line_endings_are_handled() {
    let content = "word,phonetic,part_of_speech_and_meanings,example_sentence,example_translation,audio_uk,audio_us\r\n\
                   alpha,a,n.,e,t,u,v\r\nbeta,b,n.,e,t,u,v\r\n";
    let mut store = WordStore::new();
    let summary = import_four_rank_csv(&mut store, content, None).unwrap();
    assert_eq!(summary, ImportSummary { total: 2, upserted: 2, skipped: 0 });
    assert!(store.get_record("beta").is_some());
}
