use word_card::errors::ImportError;
use word_card::import::{import_four_rank_csv, import_rows, validate_headers, ImportSummary};
use word_card::word_store::WordStore;

const HEADER: &str =
    "word,phonetic,part_of_speech_and_meanings,example_sentence,example_translation,audio_uk,audio_us";

fn row(word: &str, phonetic: &str) -> String {
    format!("{word},{phonetic},n. meaning,example,translation,uk.mp3,us.mp3")
}

#[test]
fn scenario_empty_key_among_valid_rows() {
    let mut content = String::from(HEADER);
    for i in 0..5 {
        content.push('\n');
        content.push_str(&row(&format!("word{i}"), "p"));
    }
    content.push('\n');
    content.push_str(&row("   ", "p")); // blank primary field
    for i in 5..9 {
        content.push('\n');
        content.push_str(&row(&format!("word{i}"), "p"));
    }
    let mut store = WordStore::new();
    let summary = import_four_rank_csv(&mut store, &content, None).unwrap();
    assert_eq!(summary, ImportSummary { total: 10, upserted: 9, skipped: 1 });
    assert_eq!(store.record_count(), 9);
}

#[test]
fn importing_twice_is_idempotent() {
    let content = format!("{HEADER}\n{}\n{}", row("alpha", "a"), row("beta", "b"));
    let mut store = WordStore::new();
    let first = import_four_rank_csv(&mut store, &content, None).unwrap();
    assert_eq!(first, ImportSummary { total: 2, upserted: 2, skipped: 0 });
    let alpha_before = store.get_record("alpha").unwrap().clone();
    let beta_before = store.get_record("beta").unwrap().clone();
    let second = import_four_rank_csv(&mut store, &content, None).unwrap();
    assert_eq!(second, ImportSummary { total: 2, upserted: 2, skipped: 0 });
    assert_eq!(store.record_count(), 2);
    assert_eq!(store.get_record("alpha").unwrap(), &alpha_before);
    assert_eq!(store.get_record("beta").unwrap(), &beta_before);
}

#[test]
fn import_against_missing_collection_changes_nothing() {
    let content = format!("{HEADER}\n{}", row("alpha", "a"));
    let mut store = WordStore::new();
    let r = import_four_rank_csv(&mut store, &content, Some(7));
    assert!(matches!(r, Err(ImportError::CollectionNotFound)));
    assert_eq!(store.record_count(), 0);
    assert!(store.get_record("alpha").is_none());
}

#[test]
fn missing_column_is_named_in_order() {
    let mut store = WordStore::new();
    let no_phonetic =
        "word,part_of_speech_and_meanings,example_sentence,example_translation,audio_uk,audio_us\nalpha,n.,e,t,u,v";
    let r = import_four_rank_csv(&mut store, no_phonetic, None);
    assert!(matches!(r, Err(ImportError::MissingColumn { ref name }) if name == "phonetic"));
    // with several columns missing, the first missing one is reported
    let r = import_four_rank_csv(&mut store, "phonetic\np", None);
    assert!(matches!(r, Err(ImportError::MissingColumn { ref name }) if name == "word"));
    let r = import_four_rank_csv(&mut store, "", None);
    assert!(matches!(r, Err(ImportError::MissingColumn { ref name }) if name == "word"));
    assert_eq!(store.record_count(), 0);
}

#[test]
fn header_fields_are_normalized() {
    let header = "\u{feff} word , phonetic ,part_of_speech_and_meanings,example_sentence,example_translation,audio_uk,audio_us";
    let content = format!("{header}\nalpha,a,n.,e,t,u,v");
    let mut store = WordStore::new();
    let summary = import_four_rank_csv(&mut store, &content, None).unwrap();
    assert_eq!(summary, ImportSummary { total: 1, upserted: 1, skipped: 0 });
    assert!(store.get_record("alpha").is_some());
}

#[test]
fn reimport_overwrites_secondary_fields() {
    let mut store = WordStore::new();
    let first = format!("{HEADER}\n{}", row("alpha", "one"));
    import_four_rank_csv(&mut store, &first, None).unwrap();
    assert_eq!(store.get_record("alpha").unwrap().phonetic.as_deref(), Some("one"));
    let second = format!("{HEADER}\n{}", row("alpha", "two"));
    import_four_rank_csv(&mut store, &second, None).unwrap();
    assert_eq!(store.record_count(), 1);
    assert_eq!(store.get_record("alpha").unwrap().phonetic.as_deref(), Some("two"));
}

#[test]
fn key_is_trimmed_and_empty_secondary_fields_are_absent() {
    let content = format!("{HEADER}\n  alpha  ,,n.,e,t,u,v");
    let mut store = WordStore::new();
    import_four_rank_csv(&mut store, &content, None).unwrap();
    let rec = store.get_record("alpha").unwrap();
    assert_eq!(rec.word, "alpha");
    assert_eq!(rec.phonetic, None);
    assert_eq!(rec.part_of_speech_and_meanings.as_deref(), Some("n."));
}

#[test]
fn quoted_fields_are_parsed() {
    let content = format!("{HEADER}\nalpha,\"a,b\",n.,\"say \"\"hi\"\"\",t,u,v");
    let mut store = WordStore::new();
    import_four_rank_csv(&mut store, &content, None).unwrap();
    let rec = store.get_record("alpha").unwrap();
    assert_eq!(rec.phonetic.as_deref(), Some("a,b"));
    assert_eq!(rec.example_sentence.as_deref(), Some("say \"hi\""));
}

#[test]
fn malformed_rows_are_skipped_not_fatal() {
    let mut rows: Vec<Vec<String>> = Vec::new();
    rows.push(HEADER.split(',').map(|s| s.to_string()).collect());
    rows.push(vec!["alpha".into(), "a".into()]); // too narrow
    rows.push(
        vec!["beta".into(), "b".into(), "n.".into(), "e".into(), "t".into(), "u".into(), "v".into()],
    );
    let mut store = WordStore::new();
    let summary = import_rows(&mut store, &rows, None).unwrap();
    assert_eq!(summary, ImportSummary { total: 2, upserted: 1, skipped: 1 });
    assert!(store.get_record("alpha").is_none());
    assert!(store.get_record("beta").is_some());
}

#[test]
fn imported_rows_are_tagged_into_the_collection() {
    let mut store = WordStore::new();
    let list = store.create_word_list("my list").unwrap();
    let content = format!("{HEADER}\n{}\n{}", row("alpha", "a"), row("beta", "b"));
    let summary = import_four_rank_csv(&mut store, &content, Some(list)).unwrap();
    assert_eq!(summary.upserted, 2);
    assert!(store.is_associated(list, "alpha"));
    assert!(store.is_associated(list, "beta"));
    assert!(!store.is_associated(list, "gamma"));
    // re-import does not duplicate the tagging and still succeeds
    let again = import_four_rank_csv(&mut store, &content, Some(list)).unwrap();
    assert_eq!(again.upserted, 2);
    assert!(store.is_associated(list, "alpha"));
}

#[test]
fn validate_headers_reports_first_missing() {
    let ok: Vec<String> = HEADER.split(',').map(|s| s.to_string()).collect();
    assert!(validate_headers(&ok).is_ok());
    let missing: Vec<String> = vec!["word".into(), "phonetic".into()];
    let r = validate_headers(&missing);
    assert!(
        matches!(r, Err(ImportError::MissingColumn { ref name }) if name == "part_of_speech_and_meanings")
    );
}
