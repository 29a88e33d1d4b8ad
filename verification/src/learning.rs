//! Spaced-repetition bookkeeping: a proficiency score and study counter per
//! word, bounded between zero and the maximum score, and the allocation of
//! study sessions that mixes unlearned, weak, middling and strong words in
//! fixed proportions.
//!
//! Words are named by their numeric id: the position of their record in the
//! word store, counted from one. The moment a study event happens is not
//! the library's to know; callers pass the timestamp in.

use crate::calendar::StudyCalendarCache;
use crate::errors::LearningError;
use crate::word_store::WordStore;
use vstd::prelude::*;

verus! {

/// The highest proficiency score a word can reach.
pub const MAX_PROFICIENCY: i64 = 10;

/// One word's learning state.
pub struct LearningRow {
    pub word_id: i64,
    pub proficiency_score: i64,
    pub learn_count: i64,
    pub last_learned_at: Option<String>,
}

/// What a learning row looks like in contracts.
pub ghost struct LearningRowView {
    pub proficiency_score: int,
    pub learn_count: int,
    pub last_learned_at: Option<Seq<char>>,
}

impl View for LearningRow {
    type V = LearningRowView;

    open spec fn view(&self) -> LearningRowView {
        LearningRowView {
            proficiency_score: self.proficiency_score as int,
            learn_count: self.learn_count as int,
            last_learned_at: match self.last_learned_at {
                Some(s) => Some(s@),
                None => None,
            },
        }
    }
}

/// The study progress reported back to the caller.
#[derive(Clone, Debug, PartialEq, Eq, Structural, Copy)]
pub struct LearningProgress {
    pub word_id: i64,
    pub proficiency_score: i64,
    pub learn_count: i64,
}

struct StudyEvent {
    word_id: i64,
    learned_at: String,
}

/// The learning store: one row per studied word, and the study log.
pub struct LearningStore {
    rows: Vec<LearningRow>,
    study_log: Vec<StudyEvent>,
}

spec fn row_ids_unique(s: Seq<LearningRow>) -> bool {
    forall|i: int, j: int| 0 <= i < j < s.len() ==> #[trigger] s[i].word_id != #[trigger] s[j].word_id
}

spec fn lookup_row(s: Seq<LearningRow>, id: int) -> Option<LearningRowView>
    decreases s.len(),
{
    if s.len() == 0 {
        None
    } else if s[0].word_id == id {
        Some(s[0]@)
    } else {
        lookup_row(s.drop_first(), id)
    }
}

/// `lookup_row` finds a row exactly when some element carries the id, and
/// with unique ids it returns that element's view.
proof fn lemma_row_lookup_present(s: Seq<LearningRow>, id: int)
    ensures
        match lookup_row(s, id) {
            Some(v) => exists|i: int|
                0 <= i < s.len() && #[trigger] s[i].word_id == id && v == s[i]@,
            None => forall|i: int| 0 <= i < s.len() ==> #[trigger] s[i].word_id != id,
        },
    decreases s.len(),
{
    if s.len() > 0 && s[0].word_id != id {
        lemma_row_lookup_present(s.drop_first(), id);
        match lookup_row(s.drop_first(), id) {
            Some(v) => {
                let i = choose|i: int|
                    0 <= i < s.drop_first().len() && #[trigger] s.drop_first()[i].word_id == id
                        && v == s.drop_first()[i]@;
                assert(s[i + 1].word_id == id && v == s[i + 1]@);
            },
            None => {
                assert forall|i: int| 0 <= i < s.len() implies #[trigger] s[i].word_id != id by {
                    if i > 0 {
                        assert(s.drop_first()[i - 1] == s[i]);
                    }
                }
            },
        }
    }
}

/// With unique ids, an element carrying the id pins down the lookup result.
proof fn lemma_row_lookup_at(s: Seq<LearningRow>, i: int)
    requires
        row_ids_unique(s),
        0 <= i < s.len(),
    ensures
        lookup_row(s, s[i].word_id as int) == Some(s[i]@),
{
    let id = s[i].word_id as int;
    lemma_row_lookup_present(s, id);
    match lookup_row(s, id) {
        Some(v) => {
            let j = choose|j: int| 0 <= j < s.len() && #[trigger] s[j].word_id == id && v == s[j]@;
            if i < j {
                assert(s[i].word_id != s[j].word_id);
            } else if j < i {
                assert(s[j].word_id != s[i].word_id);
            }
        },
        None => {
            assert(s[i].word_id == id);
        },
    }
}

/// An in-place update at `m` that keeps the id maps that id to the new row
/// and leaves every other id alone.
proof fn lemma_row_lookup_update(s: Seq<LearningRow>, m: int, nr: LearningRow, id: int)
    requires
        row_ids_unique(s),
        0 <= m < s.len(),
        nr.word_id == s[m].word_id,
    ensures
        row_ids_unique(s.update(m, nr)),
        lookup_row(s.update(m, nr), id) == if id == s[m].word_id as int {
            Some(nr@)
        } else {
            lookup_row(s, id)
        },
{
    let post = s.update(m, nr);
    assert forall|i: int, j: int| 0 <= i < j < post.len() implies #[trigger] post[i].word_id
        != #[trigger] post[j].word_id by {
        assert(s[i].word_id != s[j].word_id);
    }
    if id == s[m].word_id as int {
        lemma_row_lookup_at(post, m);
    } else {
        lemma_row_lookup_present(s, id);
        match lookup_row(s, id) {
            Some(v) => {
                let i = choose|i: int|
                    0 <= i < s.len() && #[trigger] s[i].word_id == id && v == s[i]@;
                assert(post[i] == s[i]);
                lemma_row_lookup_at(post, i);
            },
            None => {
                lemma_row_lookup_present(post, id);
                match lookup_row(post, id) {
                    Some(w) => {
                        let i = choose|i: int|
                            0 <= i < post.len() && #[trigger] post[i].word_id == id && w
                                == post[i]@;
                        assert(s[i].word_id == id);
                        assert(false);
                    },
                    None => {},
                }
            },
        }
    }
}

impl LearningStore {
    /// The learning state of the word `id`, if it was ever studied or
    /// seeded.
    pub closed spec fn spec_row(&self, id: int) -> Option<LearningRowView> {
        lookup_row(self.rows@, id)
    }

    /// The study log: which word was studied, and when, in order.
    pub closed spec fn spec_log(&self) -> Seq<(int, Seq<char>)> {
        Seq::new(
            self.study_log@.len(),
            |i: int| (self.study_log@[i].word_id as int, self.study_log@[i].learned_at@),
        )
    }

    /// The store invariant: one row per word id.
    pub closed spec fn wf(&self) -> bool {
        row_ids_unique(self.rows@)
    }

    /// An empty learning store.
    pub fn new() -> (store: LearningStore)
        ensures
            store.wf(),
            forall|id: int| store.spec_row(id) is None,
            store.spec_log() == Seq::<(int, Seq<char>)>::empty(),
    {
        let store = LearningStore { rows: Vec::new(), study_log: Vec::new() };
        proof {
            assert forall|id: int| store.spec_row(id) is None by {
                lemma_row_lookup_present(store.rows@, id);
            }
            assert(store.spec_log() =~= Seq::<(int, Seq<char>)>::empty());
        }
        store
    }

    /// The index of the row for word `id`, if any.
    fn find_row(&self, word_id: i64) -> (r: Option<usize>)
        requires
            self.wf(),
        ensures
            match r {
                Some(i) => i < self.rows@.len() && self.rows@[i as int].word_id == word_id
                    && self.spec_row(word_id as int) == Some(self.rows@[i as int]@),
                None => self.spec_row(word_id as int) is None,
            },
    {
        let n = self.rows.len();
        let mut j: usize = 0;
        while j < n
            invariant
                j <= n,
                n == self.rows@.len(),
                self.wf(),
                forall|k: int| 0 <= k < j ==> #[trigger] self.rows@[k].word_id != word_id,
            decreases n - j,
        {
            if self.rows[j].word_id == word_id {
                proof {
                    lemma_row_lookup_at(self.rows@, j as int);
                }
                return Some(j);
            }
            j = j + 1;
        }
        proof {
            lemma_row_lookup_present(self.rows@, word_id as int);
        }
        None
    }

    /// Seed or overwrite the learning row of word `word_id` with the given
    /// score and counter, and no study timestamp.
    pub fn upsert_learning_row(&mut self, word_id: i64, proficiency_score: i64, learn_count: i64)
        requires
            old(self).wf(),
        ensures
            final(self).wf(),
            final(self).spec_row(word_id as int) == Some(
                (LearningRowView {
                    proficiency_score: proficiency_score as int,
                    learn_count: learn_count as int,
                    last_learned_at: None,
                }),
            ),
            forall|other: int|
                other != word_id ==> final(self).spec_row(other) == old(self).spec_row(other),
            final(self).spec_log() == old(self).spec_log(),
    {
        let row = LearningRow {
            word_id,
            proficiency_score,
            learn_count,
            last_learned_at: None,
        };
        let ghost pre = self.rows@;
        match self.find_row(word_id) {
            Some(i) => {
                proof {
                    lemma_row_lookup_update(pre, i as int, row, word_id as int);
                    assert forall|other: int| other != word_id implies lookup_row(
                        pre.update(i as int, row),
                        other,
                    ) == lookup_row(pre, other) by {
                        lemma_row_lookup_update(pre, i as int, row, other);
                    }
                }
                self.rows[i] = row;
            },
            None => {
                proof {
                    lemma_row_lookup_present(pre, word_id as int);
                    lemma_push_row(pre, row);
                }
                self.rows.push(row);
            },
        }
    }

    /// The recorded progress of word `word_id`; fails when the word was
    /// never studied or seeded.
    pub fn read_learning_progress(&self, word_id: i64) -> (r: Result<
        LearningProgress,
        LearningError,
    >)
        requires
            self.wf(),
        ensures
            match self.spec_row(word_id as int) {
                Some(row) => r matches Ok(p) && p.word_id == word_id && p.proficiency_score
                    == row.proficiency_score && p.learn_count == row.learn_count,
                None => r == Err::<LearningProgress, LearningError>(LearningError::WordNotFound),
            },
    {
        match self.find_row(word_id) {
            Some(i) => Ok(
                LearningProgress {
                    word_id,
                    proficiency_score: self.rows[i].proficiency_score,
                    learn_count: self.rows[i].learn_count,
                },
            ),
            None => Err(LearningError::WordNotFound),
        }
    }

    /// Append one study event to the log.
    pub fn record_study_event(&mut self, word_id: i64, now: &str)
        requires
            old(self).wf(),
        ensures
            final(self).wf(),
            final(self).spec_log() == old(self).spec_log().push((word_id as int, now@)),
            forall|id: int| final(self).spec_row(id) == old(self).spec_row(id),
    {
        self.study_log.push(StudyEvent { word_id, learned_at: now.to_owned() });
        proof {
            assert(self.rows@ == old(self).rows@);
            assert(self.spec_log() =~= old(self).spec_log().push((word_id as int, now@)));
        }
    }

    /// Make sure word `word_id` has a learning row: an existing row is kept
    /// as it is; a missing one is created at score zero when the word
    /// exists in the store, and refused otherwise.
    pub fn ensure_learning_row(&mut self, store: &WordStore, word_id: i64, now: &str) -> (r:
        Result<(), LearningError>)
        requires
            old(self).wf(),
        ensures
            final(self).wf(),
            old(self).spec_row(word_id as int) is Some ==> r == Ok::<(), LearningError>(())
                && *final(self) == *old(self),
            old(self).spec_row(word_id as int) is None && 1 <= word_id
                <= store.spec_num_records() ==> r == Ok::<(), LearningError>(()) && final(self).spec_row(word_id as int) == Some(
                (LearningRowView {
                    proficiency_score: 0,
                    learn_count: 0,
                    last_learned_at: Some(now@),
                }),
            ) && (forall|other: int|
                other != word_id ==> final(self).spec_row(other) == old(self).spec_row(other))
                && final(self).spec_log() == old(self).spec_log(),
            old(self).spec_row(word_id as int) is None && !(1 <= word_id
                <= store.spec_num_records()) ==> r == Err::<(), LearningError>(
                LearningError::WordNotFound,
            ) && *final(self) == *old(self),
    {
        if self.find_row(word_id).is_some() {
            return Ok(());
        }
        if word_id < 1 || word_id as u64 > store.record_count() as u64 {
            return Err(LearningError::WordNotFound);
        }
        let row = LearningRow {
            word_id,
            proficiency_score: 0,
            learn_count: 0,
            last_learned_at: Some(now.to_owned()),
        };
        let ghost pre = self.rows@;
        proof {
            lemma_row_lookup_present(pre, word_id as int);
            lemma_push_row(pre, row);
        }
        self.rows.push(row);
        Ok(())
    }

    /// Raise word `word_id`'s proficiency by one, up to the maximum, count
    /// the study, record the event, and report the new progress.
    pub fn increment_proficiency_for_word(
        &mut self,
        store: &WordStore,
        word_id: i64,
        now: &str,
    ) -> (r: Result<LearningProgress, LearningError>)
        requires
            old(self).wf(),
        ensures
            final(self).wf(),
            (old(self).spec_row(word_id as int) is None && !(1 <= word_id
                <= store.spec_num_records())) ==> r == Err::<LearningProgress, LearningError>(
                LearningError::WordNotFound,
            ) && *final(self) == *old(self),
            (old(self).spec_row(word_id as int) is Some || 1 <= word_id
                <= store.spec_num_records()) ==> {
                let before = (match old(self).spec_row(word_id as int) {
                    Some(row) => row,
                    None => LearningRowView {
                        proficiency_score: 0,
                        learn_count: 0,
                        last_learned_at: Some(now@),
                    },
                });
                let new_score = if before.proficiency_score >= MAX_PROFICIENCY {
                    MAX_PROFICIENCY as int
                } else {
                    before.proficiency_score + 1
                };
                let new_count = if before.learn_count >= i64::MAX {
                    i64::MAX as int
                } else {
                    before.learn_count + 1
                };
                &&& r matches Ok(p) && p.word_id == word_id && p.proficiency_score == new_score
                    && p.learn_count == new_count
                &&& final(self).spec_row(word_id as int) == Some(
                    (LearningRowView {
                        proficiency_score: new_score,
                        learn_count: new_count,
                        last_learned_at: Some(now@),
                    }),
                )
                &&& forall|other: int|
                    other != word_id ==> final(self).spec_row(other) == old(self).spec_row(other)
                &&& final(self).spec_log() == old(self).spec_log().push((word_id as int, now@))
            },
    {
        if let Err(e) = self.ensure_learning_row(store, word_id, now) {
            return Err(e);
        }
        let i = match self.find_row(word_id) {
            Some(i) => i,
            None => {
                proof {
                    assert(false);
                }
                return Err(LearningError::WordNotFound);
            },
        };
        let old_score = self.rows[i].proficiency_score;
        let old_count = self.rows[i].learn_count;
        let new_score = if old_score >= MAX_PROFICIENCY {
            MAX_PROFICIENCY
        } else {
            old_score + 1
        };
        let new_count = if old_count == i64::MAX {
            old_count
        } else {
            old_count + 1
        };
        let row = LearningRow {
            word_id,
            proficiency_score: new_score,
            learn_count: new_count,
            last_learned_at: Some(now.to_owned()),
        };
        let ghost pre = self.rows@;
        proof {
            lemma_row_lookup_update(pre, i as int, row, word_id as int);
            assert forall|other: int| other != word_id implies lookup_row(
                pre.update(i as int, row),
                other,
            ) == lookup_row(pre, other) by {
                lemma_row_lookup_update(pre, i as int, row, other);
            }
        }
        self.rows[i] = row;
        self.record_study_event(word_id, now);
        Ok(LearningProgress { word_id, proficiency_score: new_score, learn_count: new_count })
    }

    /// Lower word `word_id`'s proficiency by one, down to zero, record the
    /// event, and report the new progress. The study counter is not raised.
    pub fn decrement_proficiency_for_word(
        &mut self,
        store: &WordStore,
        word_id: i64,
        now: &str,
    ) -> (r: Result<LearningProgress, LearningError>)
        requires
            old(self).wf(),
        ensures
            final(self).wf(),
            (old(self).spec_row(word_id as int) is None && !(1 <= word_id
                <= store.spec_num_records())) ==> r == Err::<LearningProgress, LearningError>(
                LearningError::WordNotFound,
            ) && *final(self) == *old(self),
            (old(self).spec_row(word_id as int) is Some || 1 <= word_id
                <= store.spec_num_records()) ==> {
                let before = (match old(self).spec_row(word_id as int) {
                    Some(row) => row,
                    None => LearningRowView {
                        proficiency_score: 0,
                        learn_count: 0,
                        last_learned_at: Some(now@),
                    },
                });
                let new_score = if before.proficiency_score <= 0 {
                    0
                } else {
                    before.proficiency_score - 1
                };
                &&& r matches Ok(p) && p.word_id == word_id && p.proficiency_score == new_score
                    && p.learn_count == before.learn_count
                &&& final(self).spec_row(word_id as int) == Some(
                    (LearningRowView {
                        proficiency_score: new_score,
                        learn_count: before.learn_count,
                        last_learned_at: Some(now@),
                    }),
                )
                &&& forall|other: int|
                    other != word_id ==> final(self).spec_row(other) == old(self).spec_row(other)
                &&& final(self).spec_log() == old(self).spec_log().push((word_id as int, now@))
            },
    {
        if let Err(e) = self.ensure_learning_row(store, word_id, now) {
            return Err(e);
        }
        let i = match self.find_row(word_id) {
            Some(i) => i,
            None => {
                proof {
                    assert(false);
                }
                return Err(LearningError::WordNotFound);
            },
        };
        let old_score = self.rows[i].proficiency_score;
        let old_count = self.rows[i].learn_count;
        let new_score = if old_score <= 0 {
            0
        } else {
            old_score - 1
        };
        let row = LearningRow {
            word_id,
            proficiency_score: new_score,
            learn_count: old_count,
            last_learned_at: Some(now.to_owned()),
        };
        let ghost pre = self.rows@;
        proof {
            lemma_row_lookup_update(pre, i as int, row, word_id as int);
            assert forall|other: int| other != word_id implies lookup_row(
                pre.update(i as int, row),
                other,
            ) == lookup_row(pre, other) by {
                lemma_row_lookup_update(pre, i as int, row, other);
            }
        }
        self.rows[i] = row;
        self.record_study_event(word_id, now);
        Ok(LearningProgress { word_id, proficiency_score: new_score, learn_count: old_count })
    }
}

/// Appending a row with a fresh id adds exactly that id.
proof fn lemma_push_row(s: Seq<LearningRow>, nr: LearningRow)
    requires
        row_ids_unique(s),
        lookup_row(s, nr.word_id as int) is None,
    ensures
        row_ids_unique(s.push(nr)),
        lookup_row(s.push(nr), nr.word_id as int) == Some(nr@),
        forall|other: int|
            other != nr.word_id ==> lookup_row(s.push(nr), other) == lookup_row(s, other),
{
    let post = s.push(nr);
    lemma_row_lookup_present(s, nr.word_id as int);
    assert forall|i: int, j: int| 0 <= i < j < post.len() implies #[trigger] post[i].word_id
        != #[trigger] post[j].word_id by {
        if j == post.len() - 1 {
            assert(post[i] == s[i]);
        } else {
            assert(s[i].word_id != s[j].word_id);
        }
    }
    lemma_row_lookup_at(post, post.len() - 1);
    assert forall|other: int| other != nr.word_id implies lookup_row(post, other) == lookup_row(
        s,
        other,
    ) by {
        lemma_row_lookup_present(s, other);
        lemma_row_lookup_present(post, other);
        match lookup_row(s, other) {
            Some(v) => {
                let i = choose|i: int|
                    0 <= i < s.len() && #[trigger] s[i].word_id == other && v == s[i]@;
                assert(post[i] == s[i]);
                lemma_row_lookup_at(post, i);
            },
            None => {
                match lookup_row(post, other) {
                    Some(w) => {
                        let i = choose|i: int|
                            0 <= i < post.len() && #[trigger] post[i].word_id == other && w
                                == post[i]@;
                        assert(i < s.len());
                        assert(s[i].word_id == other);
                        assert(false);
                    },
                    None => {},
                }
            },
        }
    }
}

/// One word as handed to a study session: the record's fields and the
/// current proficiency score.
#[derive(Clone, Debug, PartialEq)]
pub struct LearningWord {
    pub id: i64,
    pub word: String,
    pub phonetic: Option<String>,
    pub part_of_speech_and_meanings: Option<String>,
    pub example_sentence: Option<String>,
    pub example_translation: Option<String>,
    pub audio_uk: Option<String>,
    pub audio_us: Option<String>,
    pub proficiency_score: i64,
}

/// What a session word looks like in contracts.
pub ghost struct LearningWordView {
    pub id: int,
    pub word: Seq<char>,
    pub phonetic: Option<Seq<char>>,
    pub part_of_speech_and_meanings: Option<Seq<char>>,
    pub example_sentence: Option<Seq<char>>,
    pub example_translation: Option<Seq<char>>,
    pub audio_uk: Option<Seq<char>>,
    pub audio_us: Option<Seq<char>>,
    pub proficiency_score: int,
}

impl View for LearningWord {
    type V = LearningWordView;

    open spec fn view(&self) -> LearningWordView {
        LearningWordView {
            id: self.id as int,
            word: self.word@,
            phonetic: crate::word_store::opt_str_view(self.phonetic),
            part_of_speech_and_meanings: crate::word_store::opt_str_view(
                self.part_of_speech_and_meanings,
            ),
            example_sentence: crate::word_store::opt_str_view(self.example_sentence),
            example_translation: crate::word_store::opt_str_view(self.example_translation),
            audio_uk: crate::word_store::opt_str_view(self.audio_uk),
            audio_us: crate::word_store::opt_str_view(self.audio_us),
            proficiency_score: self.proficiency_score as int,
        }
    }
}

/// The proficiency band a session draws from.
#[derive(Clone, Copy, Debug, PartialEq, Eq, Structural)]
pub enum Bucket {
    /// Words with no learning row yet.
    Unlearned,
    /// Studied words with a score below four.
    Low,
    /// Studied words with a score between four and eight.
    Mid,
    /// Studied words with a score between eight and the maximum.
    High,
    /// Any word of the list.
    Any,
}

/// Whether a word of the given learning state falls into a band.
pub open spec fn bucket_accepts(learning: LearningStore, word_id: int, bucket: Bucket) -> bool {
    match learning.spec_row(word_id) {
        None => bucket is Unlearned || bucket is Any,
        Some(row) => match bucket {
            Bucket::Unlearned => false,
            Bucket::Low => row.proficiency_score < 4,
            Bucket::Mid => 4 <= row.proficiency_score <= 8,
            Bucket::High => 8 <= row.proficiency_score <= 10,
            Bucket::Any => true,
        },
    }
}

/// Whether the record at position `i` is drawn: it must be tagged into the
/// list, fall into the band, and not be excluded.
pub open spec fn eligible_at(
    store: WordStore,
    learning: LearningStore,
    list: int,
    bucket: Bucket,
    excluded: Seq<i64>,
    i: int,
) -> bool {
    &&& store.assoc_set().contains((list, store.spec_word_at(i)))
    &&& bucket_accepts(learning, i + 1, bucket)
    &&& !excluded.contains((i + 1) as i64)
}

/// The positions of the eligible records among the first `upto`, in store
/// order.
pub open spec fn eligible_indices(
    store: WordStore,
    learning: LearningStore,
    list: int,
    bucket: Bucket,
    excluded: Seq<i64>,
    upto: int,
) -> Seq<int>
    decreases upto,
{
    if upto <= 0 {
        Seq::empty()
    } else {
        let prefix = eligible_indices(store, learning, list, bucket, excluded, upto - 1);
        if eligible_at(store, learning, list, bucket, excluded, upto - 1) {
            prefix.push(upto - 1)
        } else {
            prefix
        }
    }
}

/// Scanning further only extends the eligible list.
proof fn lemma_eligible_prefix(
    store: WordStore,
    learning: LearningStore,
    list: int,
    bucket: Bucket,
    excluded: Seq<i64>,
    a: int,
    b: int,
)
    requires
        0 <= a <= b,
    ensures
        eligible_indices(store, learning, list, bucket, excluded, a).len() <= eligible_indices(
            store,
            learning,
            list,
            bucket,
            excluded,
            b,
        ).len(),
        forall|k: int|
            0 <= k < eligible_indices(store, learning, list, bucket, excluded, a).len()
                ==> eligible_indices(store, learning, list, bucket, excluded, b)[k]
                == eligible_indices(store, learning, list, bucket, excluded, a)[k],
    decreases b,
{
    if a < b {
        lemma_eligible_prefix(store, learning, list, bucket, excluded, a, b - 1);
    }
}

/// The word the session shows for the record at position `i`: its fields
/// and its score, zero when it was never studied.
pub open spec fn spec_learning_word(
    store: WordStore,
    learning: LearningStore,
    i: int,
) -> LearningWordView {
    let rec = store.spec_record_at(i);
    LearningWordView {
        id: i + 1,
        word: rec.word,
        phonetic: rec.phonetic,
        part_of_speech_and_meanings: rec.part_of_speech_and_meanings,
        example_sentence: rec.example_sentence,
        example_translation: rec.example_translation,
        audio_uk: rec.audio_uk,
        audio_us: rec.audio_us,
        proficiency_score: match learning.spec_row(i + 1) {
            Some(row) => row.proficiency_score,
            None => 0,
        },
    }
}

/// What one bucket fetch returns: the first `limit` eligible positions.
pub open spec fn fetch_plan(
    store: WordStore,
    learning: LearningStore,
    list: int,
    bucket: Bucket,
    excluded: Seq<i64>,
    limit: int,
) -> Seq<int> {
    let elig = eligible_indices(
        store,
        learning,
        list,
        bucket,
        excluded,
        store.spec_num_records() as int,
    );
    if limit <= 0 {
        Seq::empty()
    } else if elig.len() <= limit {
        elig
    } else {
        elig.take(limit)
    }
}

impl LearningStore {
    /// The proficiency score recorded for `word_id`, if any.
    pub fn score_of(&self, word_id: i64) -> (r: Option<i64>)
        requires
            self.wf(),
        ensures
            match self.spec_row(word_id as int) {
                Some(row) => r matches Some(score) && score == row.proficiency_score,
                None => r is None,
            },
    {
        match self.find_row(word_id) {
            Some(i) => Some(self.rows[i].proficiency_score),
            None => None,
        }
    }
}

fn clone_opt_str(o: &Option<String>) -> (r: Option<String>)
    ensures
        crate::word_store::opt_str_view(r) == crate::word_store::opt_str_view(*o),
{
    match o {
        Some(s) => Some(s.clone()),
        None => None,
    }
}

fn contains_id(ids: &Vec<i64>, id: i64) -> (r: bool)
    ensures
        r == ids@.contains(id),
{
    let n = ids.len();
    let mut j: usize = 0;
    while j < n
        invariant
            j <= n,
            n == ids@.len(),
            forall|k: int| 0 <= k < j ==> ids@[k] != id,
        decreases n - j,
    {
        if ids[j] == id {
            return true;
        }
        j = j + 1;
    }
    false
}

fn bucket_accepts_exec(learning: &LearningStore, word_id: i64, bucket: Bucket) -> (r: bool)
    requires
        learning.wf(),
    ensures
        r == bucket_accepts(*learning, word_id as int, bucket),
{
    match learning.score_of(word_id) {
        None => matches!(bucket, Bucket::Unlearned) || matches!(bucket, Bucket::Any),
        Some(score) => match bucket {
            Bucket::Unlearned => false,
            Bucket::Low => score < 4,
            Bucket::Mid => 4 <= score && score <= 8,
            Bucket::High => 8 <= score && score <= 10,
            Bucket::Any => true,
        },
    }
}

/// The first `limit` words of the list that fall into the band and are not
/// excluded, in store order.
pub fn fetch_words_with_condition(
    store: &WordStore,
    learning: &LearningStore,
    word_list_id: i64,
    bucket: Bucket,
    exclude_ids: &Vec<i64>,
    limit: i64,
) -> (r: Vec<LearningWord>)
    requires
        store.wf(),
        learning.wf(),
        store.spec_num_records() <= i64::MAX,
    ensures
        ({
            let plan = fetch_plan(
                *store,
                *learning,
                word_list_id as int,
                bucket,
                exclude_ids@,
                limit as int,
            );
            &&& r@.len() == plan.len()
            &&& forall|k: int|
                0 <= k < plan.len() ==> #[trigger] r@[k]@ == spec_learning_word(
                    *store,
                    *learning,
                    plan[k],
                )
        }),
{
    let mut out: Vec<LearningWord> = Vec::new();
    if limit <= 0 {
        return out;
    }
    let ghost list = word_list_id as int;
    let ghost excluded = exclude_ids@;
    let n = store.record_count();
    let mut i: usize = 0;
    while i < n && (out.len() as u64) < (limit as u64)
        invariant
            i <= n,
            n == store.spec_num_records(),
            store.wf(),
            learning.wf(),
            n <= i64::MAX,
            0 < limit,
            list == word_list_id as int,
            excluded == exclude_ids@,
            out@.len() == ({
                let elig = eligible_indices(*store, *learning, list, bucket, excluded, i as int);
                if elig.len() <= limit as int {
                    elig.len()
                } else {
                    limit as nat
                }
            }),
            forall|k: int|
                0 <= k < out@.len() ==> #[trigger] out@[k]@ == spec_learning_word(
                    *store,
                    *learning,
                    eligible_indices(*store, *learning, list, bucket, excluded, i as int)[k],
                ),
        decreases n - i,
    {
        let ghost elig_pre = eligible_indices(*store, *learning, list, bucket, excluded, i as int);
        let rec = store.record_at(i);
        let word_id = (i + 1) as i64;
        let in_list = store.is_associated(word_list_id, rec.word.as_str());
        let in_bucket = bucket_accepts_exec(learning, word_id, bucket);
        let excluded_here = contains_id(exclude_ids, word_id);
        if in_list && in_bucket && !excluded_here {
            let score = match learning.score_of(word_id) {
                Some(score) => score,
                None => 0,
            };
            let word = LearningWord {
                id: word_id,
                word: rec.word.clone(),
                phonetic: clone_opt_str(&rec.phonetic),
                part_of_speech_and_meanings: clone_opt_str(&rec.part_of_speech_and_meanings),
                example_sentence: clone_opt_str(&rec.example_sentence),
                example_translation: clone_opt_str(&rec.example_translation),
                audio_uk: clone_opt_str(&rec.audio_uk),
                audio_us: clone_opt_str(&rec.audio_us),
                proficiency_score: score,
            };
            proof {
                assert(eligible_at(*store, *learning, list, bucket, excluded, i as int));
                assert(word@ == spec_learning_word(*store, *learning, i as int));
                assert(eligible_indices(*store, *learning, list, bucket, excluded, i as int + 1)
                    == elig_pre.push(i as int));
            }
            out.push(word);
        } else {
            proof {
                assert(!eligible_at(*store, *learning, list, bucket, excluded, i as int));
                assert(eligible_indices(*store, *learning, list, bucket, excluded, i as int + 1)
                    == elig_pre);
            }
        }
        i = i + 1;
    }
    proof {
        let elig_i = eligible_indices(*store, *learning, list, bucket, excluded, i as int);
        let elig_n = eligible_indices(*store, *learning, list, bucket, excluded, n as int);
        lemma_eligible_prefix(*store, *learning, list, bucket, excluded, i as int, n as int);
        if i < n {
            assert(out@.len() == limit as nat);
            assert(elig_i.len() >= limit as int);
            assert(elig_n.len() > limit as int || elig_n.len() == limit as int);
            assert(forall|k: int|
                0 <= k < out@.len() ==> elig_n[k] == elig_i[k]);
        }
    }
    out
}

/// How many words each band contributes to a session, and the session's
/// target size.
pub const QUOTA_UNLEARNED: i64 = 20;

pub const QUOTA_LOW: i64 = 20;

pub const QUOTA_MID: i64 = 6;

pub const QUOTA_HIGH: i64 = 4;

pub const SESSION_SIZE: i64 = 50;

/// The ids of a fetched batch, in order.
pub open spec fn ids_of(words: Seq<LearningWord>) -> Seq<i64> {
    Seq::new(words.len(), |k: int| words[k].id)
}

/// The ids the positions of a fetch plan stand for.
pub open spec fn plan_ids(plan: Seq<int>) -> Seq<i64> {
    Seq::new(plan.len(), |k: int| (plan[k] + 1) as i64)
}

/// Eligible positions lie in `[0, upto)`.
proof fn lemma_eligible_range(
    store: WordStore,
    learning: LearningStore,
    list: int,
    bucket: Bucket,
    excluded: Seq<i64>,
    upto: int,
)
    ensures
        forall|k: int|
            0 <= k < eligible_indices(store, learning, list, bucket, excluded, upto).len() ==> 0
                <= #[trigger] eligible_indices(store, learning, list, bucket, excluded, upto)[k]
                < upto,
    decreases upto,
{
    if upto > 0 {
        lemma_eligible_range(store, learning, list, bucket, excluded, upto - 1);
        let prev = eligible_indices(store, learning, list, bucket, excluded, upto - 1);
        let cur = eligible_indices(store, learning, list, bucket, excluded, upto);
        assert forall|k: int| 0 <= k < cur.len() implies 0 <= #[trigger] cur[k] < upto by {
            if k < prev.len() {
                assert(cur[k] == prev[k]);
            }
        }
    }
}

/// A fetch plan holds at most `limit` positions, each a valid record
/// position.
proof fn lemma_fetch_plan_bounds(
    store: WordStore,
    learning: LearningStore,
    list: int,
    bucket: Bucket,
    excluded: Seq<i64>,
    limit: int,
)
    ensures
        fetch_plan(store, learning, list, bucket, excluded, limit).len() <= (if limit <= 0 {
            0int
        } else {
            limit
        }),
        forall|k: int|
            0 <= k < fetch_plan(store, learning, list, bucket, excluded, limit).len() ==> 0
                <= #[trigger] fetch_plan(store, learning, list, bucket, excluded, limit)[k]
                < store.spec_num_records(),
{
    lemma_eligible_range(store, learning, list, bucket, excluded, store.spec_num_records() as int);
}

/// The whole study-session draw for a list: up to twenty unlearned words,
/// then up to twenty weak, six middling and four strong ones, each band
/// skipping words already drawn, and finally any words of the list that
/// fill the session up to its target size.
pub open spec fn session_plan(store: WordStore, learning: LearningStore, list: int) -> Seq<int> {
    let p1 = fetch_plan(
        store,
        learning,
        list,
        Bucket::Unlearned,
        Seq::empty(),
        QUOTA_UNLEARNED as int,
    );
    let e1 = plan_ids(p1);
    let p2 = fetch_plan(store, learning, list, Bucket::Low, e1, QUOTA_LOW as int);
    let e2 = e1 + plan_ids(p2);
    let p3 = fetch_plan(store, learning, list, Bucket::Mid, e2, QUOTA_MID as int);
    let e3 = e2 + plan_ids(p3);
    let p4 = fetch_plan(store, learning, list, Bucket::High, e3, QUOTA_HIGH as int);
    let e4 = e3 + plan_ids(p4);
    let p5 = fetch_plan(
        store,
        learning,
        list,
        Bucket::Any,
        e4,
        SESSION_SIZE - p1.len() - p2.len() - p3.len() - p4.len(),
    );
    p1 + p2 + p3 + p4 + p5
}

fn push_ids(ids: &mut Vec<i64>, words: &Vec<LearningWord>)
    ensures
        final(ids)@ == old(ids)@ + ids_of(words@),
{
    let n = words.len();
    let mut k: usize = 0;
    while k < n
        invariant
            k <= n,
            n == words@.len(),
            ids@ == old(ids)@ + Seq::new(k as nat, |t: int| words@[t].id),
        decreases n - k,
    {
        proof {
            assert(old(ids)@ + Seq::new(k as nat + 1, |t: int| words@[t].id) =~= (old(ids)@
                + Seq::new(k as nat, |t: int| words@[t].id)).push(words@[k as int].id));
        }
        ids.push(words[k].id);
        k = k + 1;
    }
    proof {
        assert(Seq::new(n as nat, |t: int| words@[t].id) =~= ids_of(words@));
    }
}

/// Draw a study session from the collection `word_list_id`: the banded
/// draw `session_plan` describes, failing only when it comes up empty.
pub fn allocate_learning_session_for_list(
    store: &WordStore,
    learning: &LearningStore,
    word_list_id: i64,
) -> (r: Result<Vec<LearningWord>, LearningError>)
    requires
        store.wf(),
        learning.wf(),
        store.spec_num_records() <= i64::MAX,
    ensures
        ({
            let plan = session_plan(*store, *learning, word_list_id as int);
            if plan.len() == 0 {
                r == Err::<Vec<LearningWord>, LearningError>(LearningError::NoWordsAvailable)
            } else {
                r matches Ok(words) && words@.len() == plan.len() && (forall|k: int|
                    0 <= k < plan.len() ==> #[trigger] words@[k]@ == spec_learning_word(
                        *store,
                        *learning,
                        plan[k],
                    ))
            }
        }),
{
    let ghost list = word_list_id as int;
    let mut selected: Vec<LearningWord> = Vec::new();
    let mut selected_ids: Vec<i64> = Vec::new();

    let ghost p1 = fetch_plan(
        *store,
        *learning,
        list,
        Bucket::Unlearned,
        Seq::empty(),
        QUOTA_UNLEARNED as int,
    );
    let mut batch = fetch_words_with_condition(
        store,
        learning,
        word_list_id,
        Bucket::Unlearned,
        &selected_ids,
        QUOTA_UNLEARNED,
    );
    proof {
        assert(selected_ids@ =~= Seq::<i64>::empty());
        lemma_fetch_plan_bounds(*store, *learning, list, Bucket::Unlearned, Seq::empty(),
            QUOTA_UNLEARNED as int);
        assert forall|k: int| 0 <= k < batch@.len() implies ids_of(batch@)[k] == plan_ids(
            p1,
        )[k] by {
            assert(batch@[k]@ == spec_learning_word(*store, *learning, p1[k]));
        }
        assert(ids_of(batch@) =~= plan_ids(p1));
    }
    let ghost b1 = batch@;
    push_ids(&mut selected_ids, &batch);
    selected.append(&mut batch);

    let ghost e1 = plan_ids(p1);
    let ghost p2 = fetch_plan(*store, *learning, list, Bucket::Low, e1, QUOTA_LOW as int);
    proof {
        assert(selected_ids@ =~= e1);
    }
    let mut batch = fetch_words_with_condition(
        store,
        learning,
        word_list_id,
        Bucket::Low,
        &selected_ids,
        QUOTA_LOW,
    );
    proof {
        lemma_fetch_plan_bounds(*store, *learning, list, Bucket::Low, e1, QUOTA_LOW as int);
        assert forall|k: int| 0 <= k < batch@.len() implies ids_of(batch@)[k] == plan_ids(
            p2,
        )[k] by {
            assert(batch@[k]@ == spec_learning_word(*store, *learning, p2[k]));
        }
        assert(ids_of(batch@) =~= plan_ids(p2));
    }
    let ghost b2 = batch@;
    push_ids(&mut selected_ids, &batch);
    selected.append(&mut batch);

    let ghost e2 = e1 + plan_ids(p2);
    let ghost p3 = fetch_plan(*store, *learning, list, Bucket::Mid, e2, QUOTA_MID as int);
    proof {
        assert(selected_ids@ =~= e2);
    }
    let mut batch = fetch_words_with_condition(
        store,
        learning,
        word_list_id,
        Bucket::Mid,
        &selected_ids,
        QUOTA_MID,
    );
    proof {
        lemma_fetch_plan_bounds(*store, *learning, list, Bucket::Mid, e2, QUOTA_MID as int);
        assert forall|k: int| 0 <= k < batch@.len() implies ids_of(batch@)[k] == plan_ids(
            p3,
        )[k] by {
            assert(batch@[k]@ == spec_learning_word(*store, *learning, p3[k]));
        }
        assert(ids_of(batch@) =~= plan_ids(p3));
    }
    let ghost b3 = batch@;
    push_ids(&mut selected_ids, &batch);
    selected.append(&mut batch);

    let ghost e3 = e2 + plan_ids(p3);
    let ghost p4 = fetch_plan(*store, *learning, list, Bucket::High, e3, QUOTA_HIGH as int);
    proof {
        assert(selected_ids@ =~= e3);
    }
    let mut batch = fetch_words_with_condition(
        store,
        learning,
        word_list_id,
        Bucket::High,
        &selected_ids,
        QUOTA_HIGH,
    );
    proof {
        lemma_fetch_plan_bounds(*store, *learning, list, Bucket::High, e3, QUOTA_HIGH as int);
        assert forall|k: int| 0 <= k < batch@.len() implies ids_of(batch@)[k] == plan_ids(
            p4,
        )[k] by {
            assert(batch@[k]@ == spec_learning_word(*store, *learning, p4[k]));
        }
        assert(ids_of(batch@) =~= plan_ids(p4));
    }
    let ghost b4 = batch@;
    push_ids(&mut selected_ids, &batch);
    selected.append(&mut batch);

    let ghost e4 = e3 + plan_ids(p4);
    let ghost p5 = fetch_plan(
        *store,
        *learning,
        list,
        Bucket::Any,
        e4,
        SESSION_SIZE - p1.len() - p2.len() - p3.len() - p4.len(),
    );
    proof {
        assert(selected_ids@ =~= e4);
        assert(selected@.len() == p1.len() + p2.len() + p3.len() + p4.len());
        assert(selected@.len() <= 50);
    }
    let ghost mut b5: Seq<LearningWord> = Seq::empty();
    let remaining = SESSION_SIZE - (selected.len() as i64);
    if remaining > 0 {
        let mut batch = fetch_words_with_condition(
            store,
            learning,
            word_list_id,
            Bucket::Any,
            &selected_ids,
            remaining,
        );
        proof {
            assert forall|k: int| 0 <= k < batch@.len() implies ids_of(batch@)[k] == plan_ids(
            p5,
        )[k] by {
            assert(batch@[k]@ == spec_learning_word(*store, *learning, p5[k]));
        }
        assert(ids_of(batch@) =~= plan_ids(p5));
        }
        proof {
            b5 = batch@;
        }
        selected.append(&mut batch);
    } else {
        proof {
            assert(p5 =~= Seq::<int>::empty());
        }
    }
    proof {
        let plan = session_plan(*store, *learning, list);
        assert(plan == p1 + p2 + p3 + p4 + p5);
        assert(selected@ == b1 + b2 + b3 + b4 + b5);
        assert(b5.len() == p5.len());
        assert(selected@.len() == plan.len());
        assert forall|k: int| 0 <= k < plan.len() implies #[trigger] selected@[k]@
            == spec_learning_word(*store, *learning, plan[k]) by {
            let n1 = b1.len() as int;
            let n2 = n1 + b2.len();
            let n3 = n2 + b3.len();
            let n4 = n3 + b4.len();
            if k < n1 {
                assert(selected@[k] == b1[k]);
                assert(b1[k]@ == spec_learning_word(*store, *learning, p1[k]));
                assert(plan[k] == p1[k]);
            } else if k < n2 {
                assert(selected@[k] == b2[k - n1]);
                assert(b2[k - n1]@ == spec_learning_word(*store, *learning, p2[k - n1]));
                assert(plan[k] == p2[k - n1]);
            } else if k < n3 {
                assert(selected@[k] == b3[k - n2]);
                assert(b3[k - n2]@ == spec_learning_word(*store, *learning, p3[k - n2]));
                assert(plan[k] == p3[k - n2]);
            } else if k < n4 {
                assert(selected@[k] == b4[k - n3]);
                assert(b4[k - n3]@ == spec_learning_word(*store, *learning, p4[k - n3]));
                assert(plan[k] == p4[k - n3]);
            } else {
                assert(selected@[k] == b5[k - n4]);
                assert(b5[k - n4]@ == spec_learning_word(*store, *learning, p5[k - n4]));
                assert(plan[k] == p5[k - n4]);
            }
        }
    }
    if selected.is_empty() {
        return Err(LearningError::NoWordsAvailable);
    }
    Ok(selected)
}

/// Draw a study session from the active collection.
pub fn allocate_learning_session(store: &WordStore, learning: &LearningStore) -> (r: Result<
    Vec<LearningWord>,
    LearningError,
>)
    requires
        store.wf(),
        learning.wf(),
        store.spec_num_records() <= i64::MAX,
    ensures
        ({
            match store.active_list_id() {
                Some(id) => if id > 0 {
                    let plan = session_plan(*store, *learning, id);
                    if plan.len() == 0 {
                        r == Err::<Vec<LearningWord>, LearningError>(
                            LearningError::NoWordsAvailable,
                        )
                    } else {
                        r matches Ok(words) && words@.len() == plan.len() && (forall|k: int|
                            0 <= k < plan.len() ==> #[trigger] words@[k]@ == spec_learning_word(
                                *store,
                                *learning,
                                plan[k],
                            ))
                    }
                } else {
                    r == Err::<Vec<LearningWord>, LearningError>(LearningError::NoActiveList)
                },
                None => r == Err::<Vec<LearningWord>, LearningError>(
                    LearningError::NoActiveList,
                ),
            }
        }),
{
    let id = match store.fetch_active_word_list_id() {
        Ok(id) => id,
        Err(_) => {
            return Err(LearningError::NoActiveList);
        },
    };
    allocate_learning_session_for_list(store, learning, id)
}

/// Raise a word's proficiency, refreshing the calendar cache's staleness:
/// the cache is dropped whenever the study log could have changed.
pub fn increment_proficiency(
    learning: &mut LearningStore,
    store: &WordStore,
    cache: &mut StudyCalendarCache,
    word_id: i64,
    now: &str,
) -> (r: Result<LearningProgress, LearningError>)
    requires
        old(learning).wf(),
    ensures
        final(learning).wf(),
        word_id <= 0 ==> r == Err::<LearningProgress, LearningError>(
            LearningError::InvalidWordId,
        ) && *final(learning) == *old(learning) && *final(cache) == *old(cache),
        r is Ok ==> final(cache).cached() is None,
{
    if word_id <= 0 {
        return Err(LearningError::InvalidWordId);
    }
    match learning.increment_proficiency_for_word(store, word_id, now) {
        Ok(p) => {
            cache.invalidate();
            Ok(p)
        },
        Err(e) => Err(e),
    }
}

/// Lower a word's proficiency, refreshing the calendar cache's staleness.
pub fn decrement_proficiency(
    learning: &mut LearningStore,
    store: &WordStore,
    cache: &mut StudyCalendarCache,
    word_id: i64,
    now: &str,
) -> (r: Result<LearningProgress, LearningError>)
    requires
        old(learning).wf(),
    ensures
        final(learning).wf(),
        word_id <= 0 ==> r == Err::<LearningProgress, LearningError>(
            LearningError::InvalidWordId,
        ) && *final(learning) == *old(learning) && *final(cache) == *old(cache),
        r is Ok ==> final(cache).cached() is None,
{
    if word_id <= 0 {
        return Err(LearningError::InvalidWordId);
    }
    match learning.decrement_proficiency_for_word(store, word_id, now) {
        Ok(p) => {
            cache.invalidate();
            Ok(p)
        },
        Err(e) => Err(e),
    }
}

} // verus!
