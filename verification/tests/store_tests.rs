use word_card::calendar::{DailyStudyCount, StudyCalendarCache};
use word_card::errors::WordListError;
use word_card::import::import_four_rank_csv;
use word_card::word_store::WordStore;

const HEADER: &str =
    "word,phonetic,part_of_speech_and_meanings,example_sentence,example_translation,audio_uk,audio_us";

#[test]
fn word_lists_get_increasing_ids() {
    let mut store = WordStore::new();
    assert_eq!(store.create_word_list("first"), Ok(1));
    assert_eq!(store.create_word_list("second"), Ok(2));
    assert_eq!(store.create_word_list("  first  "), Err(WordListError::NameExists));
    assert_eq!(store.create_word_list("   "), Err(WordListError::EmptyName));
    assert_eq!(store.create_word_list("third"), Ok(3));
}

#[test]
fn active_list_selection() {
    let mut store = WordStore::new();
    let a = store.create_word_list("a").unwrap();
    assert_eq!(store.fetch_active_word_list_id(), Err(WordListError::NoActiveList));
    assert_eq!(store.set_active_word_list(0), Err(WordListError::ListNotFound));
    assert_eq!(store.set_active_word_list(99), Err(WordListError::ListNotFound));
    assert_eq!(store.set_active_word_list(a), Ok(()));
    assert_eq!(store.fetch_active_word_list_id(), Ok(a));
    assert_eq!(store.clear_active_word_list(), Ok(()));
    assert_eq!(store.fetch_active_word_list_id(), Err(WordListError::NoActiveList));
}

#[test]
fn delete_word_list_drops_associations_and_selection() {
    let mut store = WordStore::new();
    let a = store.create_word_list("a").unwrap();
    let b = store.create_word_list("b").unwrap();
    let content = format!("{HEADER}\nalpha,p,n.,e,t,u,v");
    import_four_rank_csv(&mut store, &content, Some(a)).unwrap();
    import_four_rank_csv(&mut store, &content, Some(b)).unwrap();
    store.set_active_word_list(a).unwrap();
    assert_eq!(store.delete_word_list(0), Err(WordListError::ListNotFound));
    assert_eq!(store.delete_word_list(42), Err(WordListError::ListNotFound));
    assert_eq!(store.delete_word_list(a), Ok(()));
    // the record survives, its tagging into the deleted list does not
    assert!(store.get_record("alpha").is_some());
    assert!(!store.is_associated(a, "alpha"));
    assert!(store.is_associated(b, "alpha"));
    assert_eq!(store.fetch_active_word_list_id(), Err(WordListError::NoActiveList));
    // deleted ids are not reused
    assert_eq!(store.create_word_list("c"), Ok(3));
}

#[test]
fn list_word_lists_orders_active_first_then_newest() {
    let mut store = WordStore::new();
    let a = store.create_word_list("a").unwrap();
    let b = store.create_word_list("b").unwrap();
    let c = store.create_word_list("c").unwrap();
    let content = format!("{HEADER}\nalpha,p,n.,e,t,u,v\nbeta,p,n.,e,t,u,v");
    import_four_rank_csv(&mut store, &content, Some(b)).unwrap();
    store.set_active_word_list(b).unwrap();
    let cards = store.list_word_lists();
    assert_eq!(cards.len(), 3);
    assert_eq!(cards[0].id, b);
    assert!(cards[0].is_active);
    assert_eq!(cards[0].name, "b");
    assert_eq!(cards[0].word_count, 2);
    assert_eq!(cards[1].id, c);
    assert_eq!(cards[2].id, a);
    assert!(!cards[1].is_active && !cards[2].is_active);
    assert_eq!(cards[1].word_count, 0);
    assert_eq!(cards[2].word_count, 0);
}

#[test]
fn calendar_cache_remembers_until_invalidated() {
    let mut cache = StudyCalendarCache::new();
    assert!(cache.get().is_none());
    let counts = vec![
        DailyStudyCount { date: String::from("2024-01-01"), word_count: 3 },
        DailyStudyCount { date: String::from("2024-01-02"), word_count: 5 },
    ];
    cache.set(counts.clone());
    assert_eq!(cache.get(), Some(&counts));
    cache.invalidate();
    assert!(cache.get().is_none());
    let cache = StudyCalendarCache::default();
    assert!(cache.get().is_none());
}
