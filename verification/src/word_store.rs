//! The in-memory word store: records keyed by their unique word, named
//! collections ("word lists"), a many-to-many association between the two,
//! and the active-list selection. The import engine merges into this store;
//! a record's word is its primary key, so repeated upserts are idempotent.

use crate::chars::{str_eq, trimmed, trim_str};
use crate::errors::WordListError;
use vstd::prelude::*;

verus! {

/// One vocabulary record; `word` is the primary key.
#[derive(Clone, Debug, PartialEq)]
pub struct WordRecord {
    pub word: String,
    pub phonetic: Option<String>,
    pub part_of_speech_and_meanings: Option<String>,
    pub example_sentence: Option<String>,
    pub example_translation: Option<String>,
    pub audio_uk: Option<String>,
    pub audio_us: Option<String>,
}

/// What a record looks like in contracts.
pub ghost struct RecordView {
    pub word: Seq<char>,
    pub phonetic: Option<Seq<char>>,
    pub part_of_speech_and_meanings: Option<Seq<char>>,
    pub example_sentence: Option<Seq<char>>,
    pub example_translation: Option<Seq<char>>,
    pub audio_uk: Option<Seq<char>>,
    pub audio_us: Option<Seq<char>>,
}

/// The view of an optional text field.
pub open spec fn opt_str_view(o: Option<String>) -> Option<Seq<char>> {
    match o {
        Some(s) => Some(s@),
        None => None,
    }
}

impl View for WordRecord {
    type V = RecordView;

    open spec fn view(&self) -> RecordView {
        RecordView {
            word: self.word@,
            phonetic: opt_str_view(self.phonetic),
            part_of_speech_and_meanings: opt_str_view(self.part_of_speech_and_meanings),
            example_sentence: opt_str_view(self.example_sentence),
            example_translation: opt_str_view(self.example_translation),
            audio_uk: opt_str_view(self.audio_uk),
            audio_us: opt_str_view(self.audio_us),
        }
    }
}

/// One named collection.
#[derive(Clone, Debug, PartialEq)]
pub struct WordList {
    pub id: i64,
    pub name: String,
}

struct AssocPair {
    list_id: i64,
    word: String,
}

/// The store: records, collections, their association, and the active list.
pub struct WordStore {
    records: Vec<WordRecord>,
    collections: Vec<WordList>,
    assoc: Vec<AssocPair>,
    active_list: Option<i64>,
    next_list_id: i64,
}

spec fn map_of_records(s: Seq<WordRecord>) -> Map<Seq<char>, RecordView>
    decreases s.len(),
{
    if s.len() == 0 {
        Map::empty()
    } else {
        map_of_records(s.drop_last()).insert(s.last().word@, s.last()@)
    }
}

spec fn words_distinct(s: Seq<WordRecord>) -> bool {
    forall|i: int, j: int| 0 <= i < j < s.len() ==> #[trigger] s[i].word@ != #[trigger] s[j].word@
}

/// The record map holds a key exactly when some element carries the word.
proof fn lemma_records_dom(s: Seq<WordRecord>, w: Seq<char>)
    ensures
        map_of_records(s).dom().contains(w) <==> exists|i: int|
            0 <= i < s.len() && #[trigger] s[i].word@ == w,
    decreases s.len(),
{
    if s.len() > 0 {
        lemma_records_dom(s.drop_last(), w);
        if s.last().word@ == w {
            assert(s[s.len() - 1].word@ == w);
        } else {
            if map_of_records(s).dom().contains(w) {
                let i = choose|i: int|
                    0 <= i < s.drop_last().len() && #[trigger] s.drop_last()[i].word@ == w;
                assert(s[i].word@ == w);
            }
            if exists|i: int| 0 <= i < s.len() && #[trigger] s[i].word@ == w {
                let i = choose|i: int| 0 <= i < s.len() && #[trigger] s[i].word@ == w;
                assert(s.drop_last()[i].word@ == w);
            }
        }
    }
}

/// With distinct words, the map sends each element's word to its view.
proof fn lemma_records_at(s: Seq<WordRecord>, i: int)
    requires
        words_distinct(s),
        0 <= i < s.len(),
    ensures
        map_of_records(s).dom().contains(s[i].word@),
        map_of_records(s)[s[i].word@] == s[i]@,
    decreases s.len(),
{
    if i == s.len() - 1 {
    } else {
        assert forall|a: int, b: int|
            0 <= a < b < s.drop_last().len() implies #[trigger] s.drop_last()[a].word@
            != #[trigger] s.drop_last()[b].word@ by {
            assert(s[a].word@ != s[b].word@);
        }
        assert(s.drop_last()[i] == s[i]);
        lemma_records_at(s.drop_last(), i);
        assert(s[i].word@ != s[s.len() - 1].word@);
    }
}

/// Updating the element at `i` while keeping its word inserts the new view
/// under that word and touches nothing else.
proof fn lemma_records_update(s: Seq<WordRecord>, i: int, r: WordRecord)
    requires
        words_distinct(s),
        0 <= i < s.len(),
        r.word@ == s[i].word@,
    ensures
        words_distinct(s.update(i, r)),
        map_of_records(s.update(i, r)) == map_of_records(s).insert(r.word@, r@),
    decreases s.len(),
{
    let post = s.update(i, r);
    assert forall|a: int, b: int| 0 <= a < b < post.len() implies #[trigger] post[a].word@
        != #[trigger] post[b].word@ by {
        assert(s[a].word@ != s[b].word@);
    }
    if i == s.len() - 1 {
        assert(post.drop_last() =~= s.drop_last());
        assert(post.last() == r);
        assert(map_of_records(s.drop_last()).insert(s.last().word@, s.last()@).insert(r.word@, r@)
            =~= map_of_records(s.drop_last()).insert(r.word@, r@));
    } else {
        assert forall|a: int, b: int|
            0 <= a < b < s.drop_last().len() implies #[trigger] s.drop_last()[a].word@
            != #[trigger] s.drop_last()[b].word@ by {
            assert(s[a].word@ != s[b].word@);
        }
        assert(s.drop_last()[i] == s[i]);
        lemma_records_update(s.drop_last(), i, r);
        assert(post.drop_last() =~= s.drop_last().update(i, r));
        assert(post.last() == s.last());
        assert(r.word@ != s.last().word@);
        assert(map_of_records(s.drop_last()).insert(r.word@, r@).insert(s.last().word@, s.last()@)
            =~= map_of_records(s.drop_last()).insert(s.last().word@, s.last()@).insert(
            r.word@,
            r@,
        ));
    }
}

spec fn map_of_collections(s: Seq<WordList>) -> Map<int, Seq<char>>
    decreases s.len(),
{
    if s.len() == 0 {
        Map::empty()
    } else {
        map_of_collections(s.drop_last()).insert(s.last().id as int, s.last().name@)
    }
}

/// The collection map holds an id exactly when some element carries it.
proof fn lemma_collections_dom(s: Seq<WordList>, id: int)
    ensures
        map_of_collections(s).dom().contains(id) <==> exists|i: int|
            0 <= i < s.len() && #[trigger] s[i].id == id,
    decreases s.len(),
{
    if s.len() > 0 {
        lemma_collections_dom(s.drop_last(), id);
        if s.last().id == id {
            assert(s[s.len() - 1].id == id);
        } else {
            if map_of_collections(s).dom().contains(id) {
                let i = choose|i: int|
                    0 <= i < s.drop_last().len() && #[trigger] s.drop_last()[i].id == id;
                assert(s[i].id == id);
            }
            if exists|i: int| 0 <= i < s.len() && #[trigger] s[i].id == id {
                let i = choose|i: int| 0 <= i < s.len() && #[trigger] s[i].id == id;
                assert(s.drop_last()[i].id == id);
            }
        }
    }
}

spec fn set_of_assoc(s: Seq<AssocPair>) -> Set<(int, Seq<char>)>
    decreases s.len(),
{
    if s.len() == 0 {
        Set::empty()
    } else {
        set_of_assoc(s.drop_last()).insert((s.last().list_id as int, s.last().word@))
    }
}

/// The association set holds a pair exactly when some element carries it.
proof fn lemma_assoc_contains(s: Seq<AssocPair>, p: (int, Seq<char>))
    ensures
        set_of_assoc(s).contains(p) <==> exists|i: int|
            0 <= i < s.len() && (#[trigger] s[i].list_id as int, s[i].word@) == p,
    decreases s.len(),
{
    if s.len() > 0 {
        lemma_assoc_contains(s.drop_last(), p);
        if (s.last().list_id as int, s.last().word@) == p {
            assert((s[s.len() - 1].list_id as int, s[s.len() - 1].word@) == p);
        } else {
            if set_of_assoc(s).contains(p) {
                let i = choose|i: int|
                    0 <= i < s.drop_last().len() && (
                    #[trigger] s.drop_last()[i].list_id as int,
                    s.drop_last()[i].word@,
                    ) == p;
                assert((s[i].list_id as int, s[i].word@) == p);
            }
            if exists|i: int| 0 <= i < s.len() && (#[trigger] s[i].list_id as int, s[i].word@)
                == p {
                let i = choose|i: int|
                    0 <= i < s.len() && (#[trigger] s[i].list_id as int, s[i].word@) == p;
                assert((s.drop_last()[i].list_id as int, s.drop_last()[i].word@) == p);
            }
        }
    }
}

impl WordStore {
    /// The records, as a map from each word to its record.
    pub closed spec fn records_map(&self) -> Map<Seq<char>, RecordView> {
        map_of_records(self.records@)
    }

    /// The collections, as a map from each id to its name.
    pub closed spec fn collections_map(&self) -> Map<int, Seq<char>> {
        map_of_collections(self.collections@)
    }

    /// The record-to-collection association, as a set of (id, word) pairs.
    pub closed spec fn assoc_set(&self) -> Set<(int, Seq<char>)> {
        set_of_assoc(self.assoc@)
    }

    /// The active collection, if one is selected.
    pub closed spec fn active_list_id(&self) -> Option<int> {
        match self.active_list {
            Some(id) => Some(id as int),
            None => None,
        }
    }

    /// The id the next created collection will get.
    pub closed spec fn next_collection_id(&self) -> int {
        self.next_list_id as int
    }

    /// The store invariant: distinct words, collection ids strictly
    /// increasing and below the next id, distinct association pairs.
    pub closed spec fn wf(&self) -> bool {
        &&& words_distinct(self.records@)
        &&& forall|i: int, j: int|
            0 <= i < j < self.collections@.len() ==> #[trigger] self.collections@[i].id
                < #[trigger] self.collections@[j].id
        &&& forall|i: int|
            0 <= i < self.collections@.len() ==> 1 <= #[trigger] self.collections@[i].id
                < self.next_list_id
        &&& 1 <= self.next_list_id
        &&& forall|i: int, j: int|
            0 <= i < j < self.assoc@.len() ==> (#[trigger] self.assoc@[i].list_id as int,
            self.assoc@[i].word@) != (#[trigger] self.assoc@[j].list_id as int,
            self.assoc@[j].word@)
    }

    /// An empty store.
    pub fn new() -> (store: WordStore)
        ensures
            store.wf(),
            store.records_map() == Map::<Seq<char>, RecordView>::empty(),
            store.collections_map() == Map::<int, Seq<char>>::empty(),
            store.assoc_set() == Set::<(int, Seq<char>)>::empty(),
            store.active_list_id() is None,
            store.next_collection_id() == 1,
    {
        WordStore {
            records: Vec::new(),
            collections: Vec::new(),
            assoc: Vec::new(),
            active_list: None,
            next_list_id: 1,
        }
    }

    /// The index of the record keyed by `word`, if any.
    fn find_record(&self, word: &str) -> (r: Option<usize>)
        requires
            self.wf(),
        ensures
            match r {
                Some(i) => i < self.records@.len() && self.records@[i as int].word@ == word@
                    && self.records_map().dom().contains(word@) && self.records_map()[word@]
                    == self.records@[i as int]@,
                None => !self.records_map().dom().contains(word@),
            },
    {
        let n = self.records.len();
        let mut j: usize = 0;
        while j < n
            invariant
                j <= n,
                n == self.records@.len(),
                self.wf(),
                forall|k: int| 0 <= k < j ==> #[trigger] self.records@[k].word@ != word@,
            decreases n - j,
        {
            if str_eq(self.records[j].word.as_str(), word) {
                proof {
                    lemma_records_at(self.records@, j as int);
                }
                return Some(j);
            }
            j = j + 1;
        }
        proof {
            lemma_records_dom(self.records@, word@);
        }
        None
    }

    /// Insert the record if its word is new; otherwise replace every
    /// secondary field of the existing record (last write wins). The word is
    /// the key, so repeating the same upsert changes nothing further.
    pub fn upsert(&mut self, record: WordRecord)
        requires
            old(self).wf(),
        ensures
            final(self).wf(),
            final(self).records_map() == old(self).records_map().insert(record.word@, record@),
            final(self).collections_map() == old(self).collections_map(),
            final(self).assoc_set() == old(self).assoc_set(),
            final(self).active_list_id() == old(self).active_list_id(),
            final(self).next_collection_id() == old(self).next_collection_id(),
    {
        let ghost pre_records = self.records@;
        match self.find_record(record.word.as_str()) {
            Some(i) => {
                proof {
                    lemma_records_update(pre_records, i as int, record);
                }
                self.records[i] = record;
            },
            None => {
                proof {
                    lemma_records_dom(pre_records, record.word@);
                    assert(pre_records.push(record).drop_last() =~= pre_records);
                    assert forall|a: int, b: int|
                        0 <= a < b < pre_records.push(record).len() implies #[trigger] pre_records.push(
                        record,
                    )[a].word@ != #[trigger] pre_records.push(record)[b].word@ by {
                        if b < pre_records.len() {
                            assert(pre_records[a].word@ != pre_records[b].word@);
                        } else {
                            assert(pre_records[a].word@ == pre_records.push(record)[a].word@);
                        }
                    }
                }
                self.records.push(record);
            },
        }
    }

    /// Whether a collection with this id exists.
    pub fn collection_exists(&self, id: i64) -> (r: bool)
        requires
            self.wf(),
        ensures
            r == self.collections_map().dom().contains(id as int),
    {
        let n = self.collections.len();
        let mut j: usize = 0;
        while j < n
            invariant
                j <= n,
                n == self.collections@.len(),
                forall|k: int| 0 <= k < j ==> #[trigger] self.collections@[k].id != id,
            decreases n - j,
        {
            if self.collections[j].id == id {
                proof {
                    lemma_collections_dom(self.collections@, id as int);
                }
                return true;
            }
            j = j + 1;
        }
        proof {
            lemma_collections_dom(self.collections@, id as int);
        }
        false
    }

    /// Tag the record keyed by `word` into the collection `list_id`; an
    /// association that already exists is kept as it is, without error.
    pub fn associate(&mut self, list_id: i64, word: &str)
        requires
            old(self).wf(),
        ensures
            final(self).wf(),
            final(self).assoc_set() == old(self).assoc_set().insert((list_id as int, word@)),
            final(self).records_map() == old(self).records_map(),
            final(self).collections_map() == old(self).collections_map(),
            final(self).active_list_id() == old(self).active_list_id(),
            final(self).next_collection_id() == old(self).next_collection_id(),
    {
        let ghost pre_assoc = self.assoc@;
        let n = self.assoc.len();
        let mut j: usize = 0;
        while j < n
            invariant
                j <= n,
                *self == *old(self),
                old(self).wf(),
                n == self.assoc@.len(),
                forall|k: int|
                    0 <= k < j ==> (#[trigger] self.assoc@[k].list_id as int, self.assoc@[k].word@)
                        != (list_id as int, word@),
            decreases n - j,
        {
            if self.assoc[j].list_id == list_id && str_eq(self.assoc[j].word.as_str(), word) {
                proof {
                    lemma_assoc_contains(self.assoc@, (list_id as int, word@));
                    assert(self.assoc_set().insert((list_id as int, word@)) =~= self.assoc_set());
                }
                return ;
            }
            j = j + 1;
        }
        let pair = AssocPair { list_id, word: word.to_owned() };
        proof {
            lemma_assoc_contains(pre_assoc, (list_id as int, word@));
            assert(pre_assoc.push(pair).drop_last() =~= pre_assoc);
            assert forall|a: int, b: int|
                0 <= a < b < pre_assoc.push(pair).len() implies (#[trigger] pre_assoc.push(
                pair,
            )[a].list_id as int, pre_assoc.push(pair)[a].word@) != (#[trigger] pre_assoc.push(
                pair,
            )[b].list_id as int, pre_assoc.push(pair)[b].word@) by {
                if b < pre_assoc.len() {
                    assert((pre_assoc[a].list_id as int, pre_assoc[a].word@) != (
                    pre_assoc[b].list_id as int,
                    pre_assoc[b].word@,
                    ));
                }
            }
        }
        self.assoc.push(pair);
    }

    /// Create a collection under the trimmed `name` and return its id.
    /// Rejects an empty trimmed name and a name that already exists.
    pub fn create_word_list(&mut self, name: &str) -> (r: Result<i64, WordListError>)
        requires
            old(self).wf(),
            old(self).next_collection_id() < i64::MAX,
        ensures
            final(self).wf(),
            trimmed(name@).len() == 0 ==> r == Err::<i64, WordListError>(WordListError::EmptyName)
                && *final(self) == *old(self),
            trimmed(name@).len() > 0 && (exists|i: int|
                old(self).collections_map().dom().contains(i)
                    && old(self).collections_map()[i] == trimmed(name@)) ==> r == Err::<
                i64,
                WordListError,
            >(WordListError::NameExists) && *final(self) == *old(self),
            trimmed(name@).len() > 0 && !(exists|i: int|
                old(self).collections_map().dom().contains(i)
                    && old(self).collections_map()[i] == trimmed(name@)) ==> {
                &&& r == Ok::<i64, WordListError>(old(self).next_collection_id() as i64)
                &&& final(self).collections_map() == old(self).collections_map().insert(
                    old(self).next_collection_id(),
                    trimmed(name@),
                )
                &&& final(self).next_collection_id() == old(self).next_collection_id() + 1
                &&& final(self).records_map() == old(self).records_map()
                &&& final(self).assoc_set() == old(self).assoc_set()
                &&& final(self).active_list_id() == old(self).active_list_id()
            },
    {
        let t = trim_str(name);
        if t.as_str().is_empty() {
            return Err(WordListError::EmptyName);
        }
        let n = self.collections.len();
        let mut j: usize = 0;
        while j < n
            invariant
                j <= n,
                *self == *old(self),
                old(self).wf(),
                n == self.collections@.len(),
                t@ == trimmed(name@),
                trimmed(name@).len() > 0,
                forall|k: int| 0 <= k < j ==> #[trigger] self.collections@[k].name@ != t@,
            decreases n - j,
        {
            if str_eq(self.collections[j].name.as_str(), t.as_str()) {
                proof {
                    lemma_collections_at(self.collections@, j as int);
                    let witness = self.collections@[j as int].id as int;
                    assert(old(self).collections_map().dom().contains(witness)
                        && old(self).collections_map()[witness] == trimmed(name@));
                }
                return Err(WordListError::NameExists);
            }
            j = j + 1;
        }
        proof {
            assert forall|i: int|
                self.collections_map().dom().contains(i) implies self.collections_map()[i]
                != t@ by {
                lemma_collections_values(self.collections@, i);
            }
        }
        let id = self.next_list_id;
        let list = WordList { id, name: t };
        proof {
            let pre = self.collections@;
            assert(pre.push(list).drop_last() =~= pre);
        }
        self.collections.push(list);
        self.next_list_id = id + 1;
        Ok(id)
    }
}

impl WordStore {
    /// How many records the store holds.
    pub closed spec fn spec_num_records(&self) -> nat {
        self.records@.len()
    }

    /// How many records the store holds; one per distinct word.
    pub fn record_count(&self) -> (n: usize)
        ensures
            n == self.spec_num_records(),
    {
        self.records.len()
    }

    /// The record keyed by `word`, if one exists.
    pub fn get_record(&self, word: &str) -> (r: Option<&WordRecord>)
        requires
            self.wf(),
        ensures
            match r {
                Some(rec) => self.records_map().dom().contains(word@) && self.records_map()[word@]
                    == rec@ && rec.word@ == word@,
                None => !self.records_map().dom().contains(word@),
            },
    {
        match self.find_record(word) {
            Some(i) => Some(&self.records[i]),
            None => None,
        }
    }

    /// Whether the record keyed by `word` is tagged into collection
    /// `list_id`.
    pub fn is_associated(&self, list_id: i64, word: &str) -> (r: bool)
        requires
            self.wf(),
        ensures
            r == self.assoc_set().contains((list_id as int, word@)),
    {
        let n = self.assoc.len();
        let mut j: usize = 0;
        while j < n
            invariant
                j <= n,
                n == self.assoc@.len(),
                forall|k: int|
                    0 <= k < j ==> (#[trigger] self.assoc@[k].list_id as int, self.assoc@[k].word@)
                        != (list_id as int, word@),
            decreases n - j,
        {
            if self.assoc[j].list_id == list_id && str_eq(self.assoc[j].word.as_str(), word) {
                proof {
                    lemma_assoc_contains(self.assoc@, (list_id as int, word@));
                }
                return true;
            }
            j = j + 1;
        }
        proof {
            lemma_assoc_contains(self.assoc@, (list_id as int, word@));
        }
        false
    }

    /// Make `word_list_id` the active collection. Fails, changing nothing,
    /// when the id is not positive or names no collection.
    pub fn set_active_word_list(&mut self, word_list_id: i64) -> (r: Result<(), WordListError>)
        requires
            old(self).wf(),
        ensures
            final(self).wf(),
            (word_list_id <= 0 || !old(self).collections_map().dom().contains(word_list_id as int))
                ==> r == Err::<(), WordListError>(WordListError::ListNotFound) && *final(self)
                == *old(self),
            (word_list_id > 0 && old(self).collections_map().dom().contains(word_list_id as int))
                ==> {
                &&& r == Ok::<(), WordListError>(())
                &&& final(self).active_list_id() == Some(word_list_id as int)
                &&& final(self).records_map() == old(self).records_map()
                &&& final(self).collections_map() == old(self).collections_map()
                &&& final(self).assoc_set() == old(self).assoc_set()
                &&& final(self).next_collection_id() == old(self).next_collection_id()
            },
    {
        if word_list_id <= 0 {
            return Err(WordListError::ListNotFound);
        }
        if !self.collection_exists(word_list_id) {
            return Err(WordListError::ListNotFound);
        }
        self.active_list = Some(word_list_id);
        Ok(())
    }

    /// Clear the active-collection selection; never fails.
    pub fn clear_active_word_list(&mut self) -> (r: Result<(), WordListError>)
        requires
            old(self).wf(),
        ensures
            final(self).wf(),
            r is Ok,
            final(self).active_list_id() is None,
            final(self).records_map() == old(self).records_map(),
            final(self).collections_map() == old(self).collections_map(),
            final(self).assoc_set() == old(self).assoc_set(),
            final(self).next_collection_id() == old(self).next_collection_id(),
    {
        self.active_list = None;
        Ok(())
    }

    /// The active collection's id. Fails when none is selected or the
    /// stored selection is not positive.
    pub fn fetch_active_word_list_id(&self) -> (r: Result<i64, WordListError>)
        ensures
            match self.active_list_id() {
                Some(id) => if id > 0 {
                    r matches Ok(v) && v as int == id
                } else {
                    r == Err::<i64, WordListError>(WordListError::NoActiveList)
                },
                None => r == Err::<i64, WordListError>(WordListError::NoActiveList),
            },
    {
        match self.active_list {
            Some(id) => if id > 0 {
                Ok(id)
            } else {
                Err(WordListError::NoActiveList)
            },
            None => Err(WordListError::NoActiveList),
        }
    }
}

/// One collection as shown to the user: its id, name, how many records it
/// holds, and whether it is the active one.
#[derive(Clone, Debug, PartialEq)]
pub struct WordListCard {
    pub id: i64,
    pub name: String,
    pub word_count: u64,
    pub is_active: bool,
}

spec fn assoc_count(s: Seq<AssocPair>, id: int) -> int
    decreases s.len(),
{
    if s.len() == 0 {
        0
    } else {
        assoc_count(s.drop_last(), id) + if s.last().list_id == id {
            1int
        } else {
            0int
        }
    }
}

proof fn lemma_assoc_count_bounds(s: Seq<AssocPair>, id: int)
    ensures
        0 <= assoc_count(s, id) <= s.len(),
    decreases s.len(),
{
    if s.len() > 0 {
        lemma_assoc_count_bounds(s.drop_last(), id);
    }
}

/// Removing the element at `i` removes its id from the collection map and
/// keeps the ids strictly increasing.
proof fn lemma_collections_remove(s: Seq<WordList>, i: int)
    requires
        forall|a: int, b: int| 0 <= a < b < s.len() ==> #[trigger] s[a].id < #[trigger] s[b].id,
        0 <= i < s.len(),
    ensures
        forall|a: int, b: int|
            0 <= a < b < s.remove(i).len() ==> #[trigger] s.remove(i)[a].id
                < #[trigger] s.remove(i)[b].id,
        map_of_collections(s.remove(i)) == map_of_collections(s).remove(s[i].id as int),
    decreases s.len(),
{
    let post = s.remove(i);
    s.remove_ensures(i);
    assert forall|a: int, b: int| 0 <= a < b < post.len() implies #[trigger] post[a].id
        < #[trigger] post[b].id by {
        let pa = if a < i {
            a
        } else {
            a + 1
        };
        let pb = if b < i {
            b
        } else {
            b + 1
        };
        assert(post[a] == s[pa] && post[b] == s[pb]);
        assert(s[pa].id < s[pb].id);
    }
    if i == s.len() - 1 {
        assert(post =~= s.drop_last());
        lemma_collections_dom(s.drop_last(), s[i].id as int);
        assert(!map_of_collections(s.drop_last()).dom().contains(s[i].id as int));
        assert(map_of_collections(s.drop_last()).insert(s.last().id as int, s.last().name@).remove(
            s[i].id as int,
        ) =~= map_of_collections(s.drop_last()));
    } else {
        assert(post.drop_last() =~= s.drop_last().remove(i));
        assert(post.last() == s.last());
        lemma_collections_remove(s.drop_last(), i);
        assert(s.drop_last()[i] == s[i]);
        assert(s[i].id < s.last().id);
        assert(map_of_collections(s.drop_last()).remove(s[i].id as int).insert(
            s.last().id as int,
            s.last().name@,
        ) =~= map_of_collections(s.drop_last()).insert(s.last().id as int, s.last().name@).remove(
            s[i].id as int,
        ));
    }
}

impl WordStore {
    /// How many collections the store holds.
    pub closed spec fn spec_num_collections(&self) -> nat {
        self.collections@.len()
    }

    /// How many records are tagged into collection `id`.
    pub closed spec fn spec_assoc_count(&self, id: int) -> int {
        assoc_count(self.assoc@, id)
    }

    /// The word of the record at position `i`. Records are never removed,
    /// so positions are stable and `i + 1` serves as a numeric word id.
    pub closed spec fn spec_word_at(&self, i: int) -> Seq<char> {
        self.records@[i].word@
    }

    /// The record at position `i`.
    pub closed spec fn spec_record_at(&self, i: int) -> RecordView {
        self.records@[i]@
    }

    /// The record at position `i`.
    pub fn record_at(&self, i: usize) -> (r: &WordRecord)
        requires
            i < self.spec_num_records(),
        ensures
            r@ == self.spec_record_at(i as int),
            r.word@ == self.spec_word_at(i as int),
    {
        &self.records[i]
    }

    /// How many records are tagged into collection `id`, executed.
    fn count_assoc(&self, id: i64) -> (c: u64)
        ensures
            c == assoc_count(self.assoc@, id as int),
    {
        let n = self.assoc.len();
        let mut c: u64 = 0;
        let mut k: usize = 0;
        proof {
            assert(self.assoc@.take(0) =~= Seq::<AssocPair>::empty());
        }
        while k < n
            invariant
                k <= n,
                n == self.assoc@.len(),
                c == assoc_count(self.assoc@.take(k as int), id as int),
            decreases n - k,
        {
            proof {
                lemma_assoc_count_bounds(self.assoc@.take(k as int), id as int);
                assert(self.assoc@.take(k as int + 1).drop_last() =~= self.assoc@.take(k as int));
                assert(self.assoc@.take(k as int + 1).last() == self.assoc@[k as int]);
            }
            if self.assoc[k].list_id == id {
                c = c + 1;
            }
            k = k + 1;
        }
        proof {
            assert(self.assoc@.take(n as int) =~= self.assoc@);
        }
        c
    }

    /// One card per collection: its name, how many records it holds, and
    /// whether it is active — the active collection first, then the rest
    /// from newest to oldest.
    pub fn list_word_lists(&self) -> (r: Vec<WordListCard>)
        requires
            self.wf(),
        ensures
            r@.len() == self.spec_num_collections(),
            forall|k: int|
                0 <= k < r@.len() ==> {
                    let c = #[trigger] r@[k];
                    &&& self.collections_map().dom().contains(c.id as int)
                    &&& self.collections_map()[c.id as int] == c.name@
                    &&& c.word_count == self.spec_assoc_count(c.id as int)
                    &&& c.is_active == (self.active_list_id() == Some(c.id as int))
                },
            forall|k: int, l: int|
                0 <= k < l < r@.len() ==> #[trigger] r@[k].id != #[trigger] r@[l].id,
            forall|k: int, l: int|
                0 <= k < l < r@.len() ==> (#[trigger] r@[k].is_active || !(#[trigger] r@[l].is_active)),
            forall|k: int, l: int|
                0 <= k < l < r@.len() && #[trigger] r@[k].is_active == #[trigger] r@[l].is_active
                    ==> r@[k].id > r@[l].id,
    {
        let n = self.collections.len();
        let mut actives: Vec<WordListCard> = Vec::new();
        let mut others: Vec<WordListCard> = Vec::new();
        let mut k: usize = n;
        while k > 0
            invariant
                k <= n,
                n == self.collections@.len(),
                self.wf(),
                actives@.len() + others@.len() == n - k,
                forall|j: int|
                    0 <= j < actives@.len() ==> {
                        let c = #[trigger] actives@[j];
                        &&& self.collections_map().dom().contains(c.id as int)
                        &&& self.collections_map()[c.id as int] == c.name@
                        &&& c.word_count == self.spec_assoc_count(c.id as int)
                        &&& c.is_active
                        &&& self.active_list_id() == Some(c.id as int)
                        &&& exists|t: int|
                            k <= t < n && c.id == #[trigger] self.collections@[t].id
                    },
                forall|j: int|
                    0 <= j < others@.len() ==> {
                        let c = #[trigger] others@[j];
                        &&& self.collections_map().dom().contains(c.id as int)
                        &&& self.collections_map()[c.id as int] == c.name@
                        &&& c.word_count == self.spec_assoc_count(c.id as int)
                        &&& !c.is_active
                        &&& self.active_list_id() != Some(c.id as int)
                        &&& exists|t: int|
                            k <= t < n && c.id == #[trigger] self.collections@[t].id
                    },
                forall|j: int, l: int|
                    0 <= j < l < actives@.len() ==> #[trigger] actives@[j].id
                        > #[trigger] actives@[l].id,
                forall|j: int, l: int|
                    0 <= j < l < others@.len() ==> #[trigger] others@[j].id
                        > #[trigger] others@[l].id,
            decreases k,
        {
            k = k - 1;
            let wl = &self.collections[k];
            proof {
                lemma_collections_at(self.collections@, k as int);
            }
            let is_active = match self.active_list {
                Some(a) => a == wl.id,
                None => false,
            };
            let card = WordListCard {
                id: wl.id,
                name: wl.name.clone(),
                word_count: self.count_assoc(wl.id),
                is_active,
            };
            proof {
                assert forall|j: int| 0 <= j < actives@.len() implies #[trigger] actives@[j].id
                    > card.id by {
                    let t = choose|t: int|
                        k + 1 <= t < n && actives@[j].id == #[trigger] self.collections@[t].id;
                    assert(self.collections@[k as int].id < self.collections@[t].id);
                }
                assert forall|j: int| 0 <= j < others@.len() implies #[trigger] others@[j].id
                    > card.id by {
                    let t = choose|t: int|
                        k + 1 <= t < n && others@[j].id == #[trigger] self.collections@[t].id;
                    assert(self.collections@[k as int].id < self.collections@[t].id);
                }
            }
            if is_active {
                actives.push(card);
            } else {
                others.push(card);
            }
        }
        let mut out = actives;
        out.append(&mut others);
        out
    }

    /// Delete the collection `word_list_id`, every association into it, and
    /// the active-selection if it pointed there. Records themselves are
    /// kept. Fails, changing nothing, when the id is not positive or names
    /// no collection.
    pub fn delete_word_list(&mut self, word_list_id: i64) -> (r: Result<(), WordListError>)
        requires
            old(self).wf(),
        ensures
            final(self).wf(),
            (word_list_id <= 0 || !old(self).collections_map().dom().contains(word_list_id as int))
                ==> r == Err::<(), WordListError>(WordListError::ListNotFound) && *final(self)
                == *old(self),
            (word_list_id > 0 && old(self).collections_map().dom().contains(word_list_id as int))
                ==> {
                &&& r == Ok::<(), WordListError>(())
                &&& final(self).collections_map() == old(self).collections_map().remove(
                    word_list_id as int,
                )
                &&& final(self).assoc_set() == Set::new(
                    |p: (int, Seq<char>)|
                        old(self).assoc_set().contains(p) && p.0 != word_list_id as int,
                )
                &&& final(self).active_list_id() == (if old(self).active_list_id() == Some(
                    word_list_id as int,
                ) {
                    Option::<int>::None
                } else {
                    old(self).active_list_id()
                })
                &&& final(self).records_map() == old(self).records_map()
                &&& final(self).next_collection_id() == old(self).next_collection_id()
            },
    {
        if word_list_id <= 0 {
            return Err(WordListError::ListNotFound);
        }
        let n = self.collections.len();
        let mut found: Option<usize> = None;
        let mut j: usize = 0;
        while j < n && found.is_none()
            invariant
                j <= n,
                *self == *old(self),
                old(self).wf(),
                n == self.collections@.len(),
                match found {
                    Some(i) => i < n && self.collections@[i as int].id == word_list_id,
                    None => forall|k: int|
                        0 <= k < j ==> #[trigger] self.collections@[k].id != word_list_id,
                },
            decreases n - j,
        {
            if self.collections[j].id == word_list_id {
                found = Some(j);
            }
            j = j + 1;
        }
        let i = match found {
            None => {
                proof {
                    lemma_collections_dom(self.collections@, word_list_id as int);
                }
                return Err(WordListError::ListNotFound);
            },
            Some(i) => i,
        };
        proof {
            lemma_collections_dom(self.collections@, word_list_id as int);
            lemma_collections_remove(self.collections@, i as int);
        }
        let _ = self.collections.remove(i);
        let ghost pre_assoc = self.assoc@;
        let ghost collections_now = self.collections@;
        proof {
            assert(pre_assoc.take(pre_assoc.len() as int) =~= pre_assoc);
        }
        let mut kept: Vec<AssocPair> = Vec::new();
        loop
            invariant
                self.records@ == old(self).records@,
                self.collections@ == collections_now,
                self.active_list == old(self).active_list,
                self.next_list_id == old(self).next_list_id,
                old(self).wf(),
                self.assoc@.len() <= pre_assoc.len(),
                self.assoc@ == pre_assoc.take(self.assoc@.len() as int),
                forall|a: int, b: int|
                    0 <= a < b < pre_assoc.len() ==> (#[trigger] pre_assoc[a].list_id as int,
                    pre_assoc[a].word@) != (#[trigger] pre_assoc[b].list_id as int,
                    pre_assoc[b].word@),
                forall|p: (int, Seq<char>)|
                    #![trigger set_of_assoc(kept@).contains(p)]
                    set_of_assoc(kept@).contains(p) <==> (exists|t: int|
                        self.assoc@.len() <= t < pre_assoc.len() && (
                        #[trigger] pre_assoc[t].list_id as int,
                        pre_assoc[t].word@,
                        ) == p && p.0 != word_list_id),
                forall|a: int|
                    0 <= a < kept@.len() ==> exists|t: int|
                        self.assoc@.len() <= t < pre_assoc.len() && (
                        #[trigger] kept@[a].list_id as int,
                        kept@[a].word@,
                        ) == (pre_assoc[t].list_id as int, pre_assoc[t].word@),
                forall|a: int, b: int|
                    0 <= a < b < kept@.len() ==> (#[trigger] kept@[a].list_id as int,
                    kept@[a].word@) != (#[trigger] kept@[b].list_id as int, kept@[b].word@),
            ensures
                self.assoc@.len() == 0,
            decreases self.assoc@.len(),
        {
            if self.assoc.len() == 0 {
                break ;
            }
            let ghost m = self.assoc@.len() as int;
            let pair_opt = self.assoc.pop();
            let pair = pair_opt.unwrap();
            proof {
                assert(pair == pre_assoc.take(m)[m - 1]);
                assert(pair == pre_assoc[m - 1]);
                assert(self.assoc@ =~= pre_assoc.take(m - 1));
            }
            if pair.list_id != word_list_id {
                let ghost kept_pre = kept@;
                proof {
                    assert(kept_pre.push(pair).drop_last() =~= kept_pre);
                }
                kept.push(pair);
                proof {
                    assert forall|p: (int, Seq<char>)|
                        #![trigger set_of_assoc(kept@).contains(p)]
                        set_of_assoc(kept@).contains(p) <==> (exists|t: int|
                            m - 1 <= t < pre_assoc.len() && (#[trigger] pre_assoc[t].list_id as int,
                            pre_assoc[t].word@) == p && p.0 != word_list_id) by {
                        assert(set_of_assoc(kept@) == set_of_assoc(kept_pre).insert((
                            pair.list_id as int,
                            pair.word@,
                        )));
                        if set_of_assoc(kept@).contains(p) {
                            if p == (pre_assoc[m - 1].list_id as int, pre_assoc[m - 1].word@) {
                                assert((pre_assoc[m - 1].list_id as int, pre_assoc[m - 1].word@)
                                    == p && p.0 != word_list_id);
                            } else {
                                assert(set_of_assoc(kept_pre).contains(p));
                            }
                        }
                        if exists|t: int|
                            m - 1 <= t < pre_assoc.len() && (#[trigger] pre_assoc[t].list_id as int,
                            pre_assoc[t].word@) == p && p.0 != word_list_id {
                            let t = choose|t: int|
                                m - 1 <= t < pre_assoc.len() && (
                                #[trigger] pre_assoc[t].list_id as int,
                                pre_assoc[t].word@,
                                ) == p && p.0 != word_list_id;
                            if t == m - 1 {
                                assert(set_of_assoc(kept@).contains(p));
                            } else {
                                assert(set_of_assoc(kept_pre).contains(p));
                            }
                        }
                    }
                }
            } else {
                proof {
                    assert forall|p: (int, Seq<char>)|
                        #![trigger set_of_assoc(kept@).contains(p)]
                        set_of_assoc(kept@).contains(p) <==> (exists|t: int|
                            m - 1 <= t < pre_assoc.len() && (#[trigger] pre_assoc[t].list_id as int,
                            pre_assoc[t].word@) == p && p.0 != word_list_id) by {
                        if exists|t: int|
                            m - 1 <= t < pre_assoc.len() && (#[trigger] pre_assoc[t].list_id as int,
                            pre_assoc[t].word@) == p && p.0 != word_list_id {
                            let t = choose|t: int|
                                m - 1 <= t < pre_assoc.len() && (
                                #[trigger] pre_assoc[t].list_id as int,
                                pre_assoc[t].word@,
                                ) == p && p.0 != word_list_id;
                            assert(t != m - 1);
                        }
                    }
                }
            }
        }
        self.assoc = kept;
        proof {
            assert forall|p: (int, Seq<char>)|
                #![trigger self.assoc_set().contains(p)]
                self.assoc_set().contains(p) <==> (set_of_assoc(pre_assoc).contains(p) && p.0
                    != word_list_id) by {
                lemma_assoc_contains(pre_assoc, p);
            }
            assert(self.assoc_set() =~= Set::new(
                |p: (int, Seq<char>)|
                    set_of_assoc(pre_assoc).contains(p) && p.0 != word_list_id as int,
            ));
        }
        if let Some(active) = self.active_list {
            if active == word_list_id {
                self.active_list = None;
            }
        }
        Ok(())
    }
}

/// With every element in the map's domain, each element's id maps to its
/// name when ids are distinct; used through its value form below.
proof fn lemma_collections_at(s: Seq<WordList>, i: int)
    requires
        0 <= i < s.len(),
        forall|a: int, b: int| 0 <= a < b < s.len() ==> #[trigger] s[a].id < #[trigger] s[b].id,
    ensures
        map_of_collections(s).dom().contains(s[i].id as int),
        map_of_collections(s)[s[i].id as int] == s[i].name@,
    decreases s.len(),
{
    if i == s.len() - 1 {
    } else {
        assert(s.drop_last()[i] == s[i]);
        lemma_collections_at(s.drop_last(), i);
        assert(s[i].id < s[s.len() - 1].id);
    }
}

/// Every value of the collection map is the name of some element.
proof fn lemma_collections_values(s: Seq<WordList>, id: int)
    requires
        map_of_collections(s).dom().contains(id),
    ensures
        exists|i: int|
            0 <= i < s.len() && #[trigger] s[i].id == id && map_of_collections(s)[id]
                == s[i].name@,
    decreases s.len(),
{
    if s.len() > 0 {
        if s.last().id == id {
            assert(s[s.len() - 1].id == id && map_of_collections(s)[id] == s[s.len() - 1].name@);
        } else {
            lemma_collections_values(s.drop_last(), id);
            let i = choose|i: int|
                0 <= i < s.drop_last().len() && #[trigger] s.drop_last()[i].id == id
                    && map_of_collections(s.drop_last())[id] == s.drop_last()[i].name@;
            assert(s[i].id == id && map_of_collections(s)[id] == s[i].name@);
        }
    }
}

} // verus!
