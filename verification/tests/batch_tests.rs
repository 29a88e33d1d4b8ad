use base64::Engine;
use word_card::errors::ImportError;
use word_card::batch::import_uploaded_files;
use word_card::upload::{finish_upload, start_upload, upload_chunk, upload_completed, UploadState};
use word_card::word_store::WordStore;

const HEADER: &str =
    "word,phonetic,part_of_speech_and_meanings,example_sentence,example_translation,audio_uk,audio_us";

fn b64(data: &[u8]) -> String {
    base64::engine::general_purpose::STANDARD.encode(data)
}

fn upload_whole(state: &mut UploadState, id: &str, bytes: &[u8]) {
    let size = bytes.len() as u64;
    let chunk_size = 32u64;
    let total = if size == 0 { 0 } else { (size + chunk_size - 1) / chunk_size };
    start_upload(state, id, "list.csv", size, chunk_size, total).unwrap();
    for i in 0..total {
        let lo = (i * chunk_size) as usize;
        let hi = std::cmp::min(lo + chunk_size as usize, bytes.len());
        let hash = format!("h{i}");
        upload_chunk(state, id, i, total, &hash, &b64(&bytes[lo..hi])).unwrap();
    }
    finish_upload(state, id).unwrap();
}

#[test]
fn finished_uploads_are_imported_and_consumed() {
    let mut state = UploadState::new();
    let mut store = WordStore::new();
    let list = store.create_word_list("lesson one").unwrap();
    let content = format!("{HEADER}\nalpha,a,n.,e,t,u,v\nbeta,b,n.,e,t,u,v");
    upload_whole(&mut state, "u1", content.as_bytes());
    let ids = vec![String::from("u1")];
    let results = import_uploaded_files(&mut state, &mut store, &ids, list).unwrap();
    assert_eq!(results.len(), 1);
    assert_eq!(results[0].upload_id, "u1");
    assert_eq!(results[0].summary.total, 2);
    assert_eq!(results[0].summary.upserted, 2);
    assert_eq!(results[0].summary.skipped, 0);
    assert!(store.get_record("alpha").is_some());
    assert!(store.is_associated(list, "beta"));
    // the session was consumed
    assert_eq!(upload_completed(&state, "u1"), None);
}

#[test]
fn unfinished_upload_stops_the_batch() {
    let mut state = UploadState::new();
    let mut store = WordStore::new();
    let list = store.create_word_list("lesson").unwrap();
    start_upload(&mut state, "u1", "list.csv", 4, 4, 1).unwrap();
    upload_chunk(&mut state, "u1", 0, 1, "h0", &b64(b"wxyz")).unwrap();
    let ids = vec![String::from("u1")];
    let r = import_uploaded_files(&mut state, &mut store, &ids, list);
    assert!(matches!(r, Err(ImportError::UploadNotFinished)));
    // the failing session is kept
    assert_eq!(upload_completed(&state, "u1"), Some(false));
    assert_eq!(store.record_count(), 0);
}

#[test]
fn unknown_id_stops_the_batch() {
    let mut state = UploadState::new();
    let mut store = WordStore::new();
    let list = store.create_word_list("lesson").unwrap();
    let ids = vec![String::from("ghost")];
    let r = import_uploaded_files(&mut state, &mut store, &ids, list);
    assert!(matches!(r, Err(ImportError::SessionNotFound)));
}

#[test]
fn invalid_text_stops_the_batch() {
    let mut state = UploadState::new();
    let mut store = WordStore::new();
    let list = store.create_word_list("lesson").unwrap();
    upload_whole(&mut state, "u1", &[0xff, 0xfe, 0x00, 0x41]);
    let ids = vec![String::from("u1")];
    let r = import_uploaded_files(&mut state, &mut store, &ids, list);
    assert!(matches!(r, Err(ImportError::InvalidEncoding)));
    // nothing merged, session kept for the caller to cancel
    assert_eq!(store.record_count(), 0);
    assert_eq!(upload_completed(&state, "u1"), Some(true));
}

#[test]
fn batch_keeps_earlier_progress_when_a_later_id_fails() {
    let mut state = UploadState::new();
    let mut store = WordStore::new();
    let list = store.create_word_list("lesson").unwrap();
    let good = format!("{HEADER}\nalpha,a,n.,e,t,u,v");
    upload_whole(&mut state, "u1", good.as_bytes());
    start_upload(&mut state, "u2", "list.csv", 4, 4, 1).unwrap();
    let ids = vec![String::from("u1"), String::from("u2")];
    let r = import_uploaded_files(&mut state, &mut store, &ids, list);
    assert!(matches!(r, Err(ImportError::UploadNotFinished)));
    // the first id was imported and consumed; the second is untouched
    assert!(store.get_record("alpha").is_some());
    assert!(store.is_associated(list, "alpha"));
    assert_eq!(upload_completed(&state, "u1"), None);
    assert_eq!(upload_completed(&state, "u2"), Some(false));
}

#[test]
fn duplicate_id_in_one_batch_fails_after_first_import() {
    let mut state = UploadState::new();
    let mut store = WordStore::new();
    let list = store.create_word_list("lesson").unwrap();
    let good = format!("{HEADER}\nalpha,a,n.,e,t,u,v");
    upload_whole(&mut state, "u1", good.as_bytes());
    let ids = vec![String::from("u1"), String::from("u1")];
    let r = import_uploaded_files(&mut state, &mut store, &ids, list);
    assert!(matches!(r, Err(ImportError::SessionNotFound)));
    assert!(store.get_record("alpha").is_some());
}
