use word_card::learning::{
    allocate_learning_session_for_list, decrement_proficiency, increment_proficiency,
    LearningStore,
};
use word_card::calendar::StudyCalendarCache;
use word_card::errors::LearningError;
use word_card::word_store::{WordRecord, WordStore};

const NOW: &str = "2024-01-01 10:00:00";

fn make_record(word: &str) -> WordRecord {
    WordRecord {
        word: word.to_string(),
        phonetic: None,
        part_of_speech_and_meanings: None,
        example_sentence: None,
        example_translation: None,
        audio_uk: None,
        audio_us: None,
    }
}

fn insert_word(store: &mut WordStore, word: &str) -> i64 {
    store.upsert(make_record(word));
    store.record_count() as i64
}

#[test]
fn proficiency_updates_are_bounded() {
    let mut store = WordStore::new();
    let mut learning = LearningStore::new();
    let word_id = insert_word(&mut store, "alpha");
    learning
        .ensure_learning_row(&store, word_id, NOW)
        .expect("Failed to ensure learning row");

    let progress = learning
        .increment_proficiency_for_word(&store, word_id, NOW)
        .expect("Failed to increment");
    assert_eq!(progress.proficiency_score, 1);

    let count = learning.read_learning_progress(word_id).unwrap().learn_count;
    learning.upsert_learning_row(word_id, 10, count);
    let progress = learning
        .increment_proficiency_for_word(&store, word_id, NOW)
        .expect("Failed to increment at max");
    assert_eq!(progress.proficiency_score, 10);

    let count = learning.read_learning_progress(word_id).unwrap().learn_count;
    learning.upsert_learning_row(word_id, 0, count);
    let progress = learning
        .decrement_proficiency_for_word(&store, word_id, NOW)
        .expect("Failed to decrement at min");
    assert_eq!(progress.proficiency_score, 0);
}

#[test]
fn session_allocation_respects_buckets_and_list() {
    let mut store = WordStore::new();
    let mut learning = LearningStore::new();
    let list_id = store.create_word_list("list-a").expect("Failed to create list");
    let other_list_id = store.create_word_list("list-b").expect("Failed to create list");

    let mut ids = Vec::new();
    for i in 0..50 {
        let word = format!("word_{i}");
        let word_id = insert_word(&mut store, &word);
        store.associate(list_id, &word);
        ids.push(word_id);
    }
    for i in 0..6 {
        let word = format!("other_{i}");
        insert_word(&mut store, &word);
        store.associate(other_list_id, &word);
    }

    for word_id in &ids[20..40] {
        learning.upsert_learning_row(*word_id, 2, 1);
    }
    for word_id in &ids[40..46] {
        learning.upsert_learning_row(*word_id, 5, 1);
    }
    for word_id in &ids[46..50] {
        learning.upsert_learning_row(*word_id, 9, 1);
    }

    let session = allocate_learning_session_for_list(&store, &learning, list_id)
        .expect("Failed to allocate session");
    assert_eq!(session.len(), 50);

    let mut unlearned = 0;
    let mut low = 0;
    let mut mid = 0;
    let mut high = 0;
    for word in session {
        let in_list = store.is_associated(list_id, &word.word);
        assert!(in_list);

        match learning.score_of(word.id) {
            None => unlearned += 1,
            Some(value) if value < 4 => low += 1,
            Some(value) if value <= 8 => mid += 1,
            Some(_) => high += 1,
        }
    }

    assert_eq!(unlearned, 20);
    assert_eq!(low, 20);
    assert_eq!(mid, 6);
    assert_eq!(high, 4);
}

#[test]
fn proficiency_wrappers_guard_ids_and_refresh_the_cache() {
    let mut store = WordStore::new();
    let mut learning = LearningStore::new();
    let mut cache = StudyCalendarCache::new();
    cache.set(Vec::new());
    assert_eq!(
        increment_proficiency(&mut learning, &store, &mut cache, 0, NOW),
        Err(LearningError::InvalidWordId)
    );
    assert_eq!(
        decrement_proficiency(&mut learning, &store, &mut cache, -3, NOW),
        Err(LearningError::InvalidWordId)
    );
    assert!(cache.get().is_some());
    assert_eq!(
        increment_proficiency(&mut learning, &store, &mut cache, 1, NOW),
        Err(LearningError::WordNotFound)
    );
    let word_id = insert_word(&mut store, "alpha");
    let progress =
        increment_proficiency(&mut learning, &store, &mut cache, word_id, NOW).unwrap();
    assert_eq!(progress.proficiency_score, 1);
    assert_eq!(progress.learn_count, 1);
    assert!(cache.get().is_none());
}

#[test]
fn allocation_fails_only_on_an_empty_list() {
    let mut store = WordStore::new();
    let learning = LearningStore::new();
    let list_id = store.create_word_list("empty").unwrap();
    assert_eq!(
        allocate_learning_session_for_list(&store, &learning, list_id),
        Err(LearningError::NoWordsAvailable)
    );
    let word = "alpha";
    insert_word(&mut store, word);
    store.associate(list_id, word);
    let session = allocate_learning_session_for_list(&store, &learning, list_id).unwrap();
    assert_eq!(session.len(), 1);
    assert_eq!(session[0].word, "alpha");
    assert_eq!(session[0].proficiency_score, 0);
}
