//! The import/merge engine: it takes a parsed table of text fields — a
//! header row followed by data rows — validates the header against the
//! required column set, and merges each well-shaped row into the word store
//! as an idempotent upsert keyed by the trimmed `word` field, optionally
//! tagging every merged record into a target collection.
//!
//! Row-level problems (a row of the wrong width, an empty key) are counted
//! as skipped and never abort the file; the whole import is refused only
//! before any row is touched, so a refused import changes nothing.

use crate::chars::{normalize_field, normalized, str_eq, trimmed, trim_str};
use crate::errors::ImportError;
use crate::word_store::{opt_str_view, RecordView, WordRecord, WordStore};
use vstd::prelude::*;
use vstd::string::StringExecFns;

verus! {

/// The outcome of one import: rows seen, rows merged, rows skipped.
#[derive(Clone, Copy, Debug, PartialEq, Eq, Structural)]
pub struct ImportSummary {
    pub total: u64,
    pub upserted: u64,
    pub skipped: u64,
}

/// The columns every imported file must provide, in the order they are
/// checked.
pub open spec fn spec_required_headers() -> Seq<Seq<char>> {
    seq![
        "word"@,
        "phonetic"@,
        "part_of_speech_and_meanings"@,
        "example_sentence"@,
        "example_translation"@,
        "audio_uk"@,
        "audio_us"@,
    ]
}

/// Some header field normalizes to `name`.
pub open spec fn header_has(header: Seq<Seq<char>>, name: Seq<char>) -> bool {
    exists|j: int| 0 <= j < header.len() && normalized(#[trigger] header[j]) == name
}

pub open spec fn first_missing_from(header: Seq<Seq<char>>, r: int) -> Option<int>
    decreases 7 - r,
{
    if r < 0 || r >= 7 {
        None
    } else if !header_has(header, spec_required_headers()[r]) {
        Some(r)
    } else {
        first_missing_from(header, r + 1)
    }
}

/// The position in the required-column list of the first column the header
/// lacks, if any.
pub open spec fn first_missing_header(header: Seq<Seq<char>>) -> Option<int> {
    first_missing_from(header, 0)
}

/// A header that misses nothing has every required column.
proof fn lemma_all_required_present(header: Seq<Seq<char>>, r: int)
    requires
        0 <= r <= 7,
        first_missing_from(header, r) is None,
    ensures
        forall|k: int| r <= k < 7 ==> header_has(header, spec_required_headers()[k]),
    decreases 7 - r,
{
    if r < 7 {
        lemma_all_required_present(header, r + 1);
    }
}

/// The position of the first header field that normalizes to `name`,
/// scanning from `j`.
pub open spec fn col_index_from(header: Seq<Seq<char>>, name: Seq<char>, j: int) -> Option<int>
    decreases header.len() - j,
{
    if j < 0 || j >= header.len() {
        None
    } else if normalized(header[j]) == name {
        Some(j)
    } else {
        col_index_from(header, name, j + 1)
    }
}

/// The column a required name is read from: the first header field that
/// normalizes to it.
pub open spec fn col_index(header: Seq<Seq<char>>, name: Seq<char>) -> Option<int> {
    col_index_from(header, name, 0)
}

/// A name has a column exactly when some header field normalizes to it, and
/// the column found is in range and carries the name.
proof fn lemma_col_index_has(header: Seq<Seq<char>>, name: Seq<char>, j: int)
    requires
        0 <= j <= header.len(),
    ensures
        col_index_from(header, name, j) is Some <==> exists|k: int|
            j <= k < header.len() && normalized(#[trigger] header[k]) == name,
        col_index_from(header, name, j) matches Some(c) ==> j <= c < header.len() && normalized(
            header[c],
        ) == name,
    decreases header.len() - j,
{
    if j < header.len() {
        lemma_col_index_has(header, name, j + 1);
        if normalized(header[j]) == name {
        } else {
            if col_index_from(header, name, j) is Some {
                let k = choose|k: int|
                    j + 1 <= k < header.len() && normalized(#[trigger] header[k]) == name;
                assert(j <= k < header.len() && normalized(header[k]) == name);
            }
            if exists|k: int| j <= k < header.len() && normalized(#[trigger] header[k]) == name {
                let k = choose|k: int|
                    j <= k < header.len() && normalized(#[trigger] header[k]) == name;
                assert(j + 1 <= k < header.len() && normalized(header[k]) == name);
            }
        }
    }
}

/// Whether some header field normalizes to `name`.
fn header_contains(header: &Vec<String>, name: &str) -> (r: bool)
    ensures
        r == header_has(header.deep_view(), name@),
{
    let n = header.len();
    let mut j: usize = 0;
    while j < n
        invariant
            j <= n,
            n == header@.len(),
            forall|k: int| 0 <= k < j ==> normalized(#[trigger] header.deep_view()[k]) != name@,
        decreases n - j,
    {
        let field = normalize_field(header[j].as_str());
        if str_eq(field.as_str(), name) {
            proof {
                assert(normalized(header.deep_view()[j as int]) == name@);
            }
            return true;
        }
        j = j + 1;
    }
    false
}

/// The column `name` is read from, if any header field normalizes to it.
fn find_column(header: &Vec<String>, name: &str) -> (r: Option<usize>)
    ensures
        match r {
            Some(c) => col_index(header.deep_view(), name@) == Some(c as int) && c
                < header@.len(),
            None => col_index(header.deep_view(), name@) is None,
        },
{
    let ghost h = header.deep_view();
    let n = header.len();
    let mut j: usize = 0;
    while j < n
        invariant
            j <= n,
            n == header@.len(),
            h == header.deep_view(),
            col_index(h, name@) == col_index_from(h, name@, j as int),
        decreases n - j,
    {
        let field = normalize_field(header[j].as_str());
        if str_eq(field.as_str(), name) {
            proof {
                assert(normalized(h[j as int]) == name@);
            }
            return Some(j);
        }
        j = j + 1;
    }
    None
}

/// Check that the header provides every required column; the error names
/// the first missing one.
pub fn validate_headers(header: &Vec<String>) -> (r: Result<(), ImportError>)
    ensures
        match first_missing_header(header.deep_view()) {
            None => r is Ok,
            Some(k) => r matches Err(ImportError::MissingColumn { name }) && name@
                == spec_required_headers()[k],
        },
{
    let ghost h = header.deep_view();
    if !header_contains(header, "word") {
        return Err(ImportError::MissingColumn { name: String::from_str("word") });
    }
    proof {
        assert(first_missing_from(h, 0) == first_missing_from(h, 1));
    }
    if !header_contains(header, "phonetic") {
        return Err(ImportError::MissingColumn { name: String::from_str("phonetic") });
    }
    proof {
        assert(first_missing_from(h, 1) == first_missing_from(h, 2));
    }
    if !header_contains(header, "part_of_speech_and_meanings") {
        return Err(
            ImportError::MissingColumn {
                name: String::from_str("part_of_speech_and_meanings"),
            },
        );
    }
    proof {
        assert(first_missing_from(h, 2) == first_missing_from(h, 3));
    }
    if !header_contains(header, "example_sentence") {
        return Err(ImportError::MissingColumn { name: String::from_str("example_sentence") });
    }
    proof {
        assert(first_missing_from(h, 3) == first_missing_from(h, 4));
    }
    if !header_contains(header, "example_translation") {
        return Err(
            ImportError::MissingColumn { name: String::from_str("example_translation") },
        );
    }
    proof {
        assert(first_missing_from(h, 4) == first_missing_from(h, 5));
    }
    if !header_contains(header, "audio_uk") {
        return Err(ImportError::MissingColumn { name: String::from_str("audio_uk") });
    }
    proof {
        assert(first_missing_from(h, 5) == first_missing_from(h, 6));
    }
    if !header_contains(header, "audio_us") {
        return Err(ImportError::MissingColumn { name: String::from_str("audio_us") });
    }
    proof {
        assert(first_missing_from(h, 6) == first_missing_from(h, 7));
    }
    Ok(())
}

/// The value an optional column contributes to a record: the field's text,
/// or nothing when the column is absent or the field empty.
pub open spec fn field_at(row: Seq<Seq<char>>, col: Option<int>) -> Option<Seq<char>> {
    match col {
        Some(j) => if 0 <= j < row.len() && row[j].len() > 0 {
            Some(row[j])
        } else {
            None
        },
        None => None,
    }
}

/// The primary key a row carries: its `word` field, trimmed.
pub open spec fn row_key(header: Seq<Seq<char>>, row: Seq<Seq<char>>) -> Seq<char> {
    match col_index(header, "word"@) {
        Some(j) => if 0 <= j < row.len() {
            trimmed(row[j])
        } else {
            Seq::empty()
        },
        None => Seq::empty(),
    }
}

/// Whether a data row is merged: it must have exactly as many fields as the
/// header, and its trimmed key must be nonempty. Any other row is skipped.
pub open spec fn row_is_upsert(header: Seq<Seq<char>>, row: Seq<Seq<char>>) -> bool {
    &&& row.len() == header.len()
    &&& row_key(header, row).len() > 0
}

/// The record a merged row produces: the trimmed key and the six secondary
/// columns, each empty field standing for an absent value.
pub open spec fn row_record(header: Seq<Seq<char>>, row: Seq<Seq<char>>) -> RecordView {
    RecordView {
        word: row_key(header, row),
        phonetic: field_at(row, col_index(header, "phonetic"@)),
        part_of_speech_and_meanings: field_at(
            row,
            col_index(header, "part_of_speech_and_meanings"@),
        ),
        example_sentence: field_at(row, col_index(header, "example_sentence"@)),
        example_translation: field_at(row, col_index(header, "example_translation"@)),
        audio_uk: field_at(row, col_index(header, "audio_uk"@)),
        audio_us: field_at(row, col_index(header, "audio_us"@)),
    }
}

/// The record map after merging the first `k` data rows, in order.
pub open spec fn merged_records(
    m: Map<Seq<char>, RecordView>,
    header: Seq<Seq<char>>,
    rows: Seq<Seq<Seq<char>>>,
    k: int,
) -> Map<Seq<char>, RecordView>
    decreases k,
{
    if k <= 0 {
        m
    } else {
        let prev = merged_records(m, header, rows, k - 1);
        if row_is_upsert(header, rows[k - 1]) {
            prev.insert(row_key(header, rows[k - 1]), row_record(header, rows[k - 1]))
        } else {
            prev
        }
    }
}

/// The association set after merging the first `k` data rows into the
/// target collection, if one was given.
pub open spec fn merged_assoc(
    a: Set<(int, Seq<char>)>,
    header: Seq<Seq<char>>,
    rows: Seq<Seq<Seq<char>>>,
    k: int,
    list: Option<int>,
) -> Set<(int, Seq<char>)>
    decreases k,
{
    match list {
        None => a,
        Some(id) => {
            if k <= 0 {
                a
            } else {
                let prev = merged_assoc(a, header, rows, k - 1, list);
                if row_is_upsert(header, rows[k - 1]) {
                    prev.insert((id, row_key(header, rows[k - 1])))
                } else {
                    prev
                }
            }
        },
    }
}

/// How many of the first `k` data rows are merged.
pub open spec fn upsert_count(header: Seq<Seq<char>>, rows: Seq<Seq<Seq<char>>>, k: int) -> int
    decreases k,
{
    if k <= 0 {
        0
    } else {
        upsert_count(header, rows, k - 1) + if row_is_upsert(header, rows[k - 1]) {
            1int
        } else {
            0int
        }
    }
}

/// The header row of a parsed table: its first row, or no fields at all for
/// an empty table.
pub open spec fn import_header(table: Seq<Seq<Seq<char>>>) -> Seq<Seq<char>> {
    if table.len() == 0 {
        Seq::empty()
    } else {
        table[0]
    }
}

/// The data rows of a parsed table: everything after the header.
pub open spec fn import_data(table: Seq<Seq<Seq<char>>>) -> Seq<Seq<Seq<char>>> {
    if table.len() == 0 {
        Seq::empty()
    } else {
        table.skip(1)
    }
}

/// The view of the target-collection argument.
pub open spec fn opt_id_view(id: Option<i64>) -> Option<int> {
    match id {
        Some(id) => Some(id as int),
        None => None,
    }
}

/// The summary an accepted import reports: every data row counted, the
/// merged ones as upserted, the rest as skipped.
pub open spec fn import_summary_of(table: Seq<Seq<Seq<char>>>) -> ImportSummary {
    let header = import_header(table);
    let data = import_data(table);
    ImportSummary {
        total: data.len() as u64,
        upserted: upsert_count(header, data, data.len() as int) as u64,
        skipped: (data.len() - upsert_count(header, data, data.len() as int)) as u64,
    }
}

/// The value an optional column contributes for one row, as owned text.
fn field_value(row: &Vec<String>, col: usize) -> (r: Option<String>)
    requires
        col < row@.len(),
    ensures
        opt_str_view(r) == field_at(row.deep_view(), Some(col as int)),
{
    let s = &row[col];
    proof {
        assert(row.deep_view()[col as int] == row@[col as int]@);
    }
    if s.as_str().is_empty() {
        None
    } else {
        Some(s.clone())
    }
}

/// Merge a parsed table — a header row followed by data rows — into the
/// store. Refused, before any row is touched, when the target collection
/// does not exist or the header lacks a required column. Otherwise every
/// data row is counted: a row of the wrong width or with an empty trimmed
/// key is skipped, every other row is upserted under its key and, when a
/// target collection was given, tagged into it.
pub fn import_rows(
    store: &mut WordStore,
    rows: &Vec<Vec<String>>,
    word_list_id: Option<i64>,
) -> (r: Result<ImportSummary, ImportError>)
    requires
        old(store).wf(),
    ensures
        final(store).wf(),
        (word_list_id matches Some(id) && !old(store).collections_map().dom().contains(id as int))
            ==> r == Err::<ImportSummary, ImportError>(ImportError::CollectionNotFound) && *final(store) == *old(store),
        ({
            let table = rows.deep_view();
            (match word_list_id {
                Some(id) => old(store).collections_map().dom().contains(id as int),
                None => true,
            }) ==> match first_missing_header(import_header(table)) {
                Some(k) => (r matches Err(ImportError::MissingColumn { name }) && name@
                    == spec_required_headers()[k]) && *final(store) == *old(store),
                None => {
                    let header = import_header(table);
                    let data = import_data(table);
                    &&& r == Ok::<ImportSummary, ImportError>(import_summary_of(table))
                    &&& final(store).records_map() == merged_records(
                        old(store).records_map(),
                        header,
                        data,
                        data.len() as int,
                    )
                    &&& final(store).assoc_set() == merged_assoc(
                        old(store).assoc_set(),
                        header,
                        data,
                        data.len() as int,
                        opt_id_view(word_list_id),
                    )
                    &&& final(store).collections_map() == old(store).collections_map()
                    &&& final(store).active_list_id() == old(store).active_list_id()
                    &&& final(store).next_collection_id() == old(store).next_collection_id()
                },
            }
        }),
{
    if let Some(id) = word_list_id {
        if !store.collection_exists(id) {
            return Err(ImportError::CollectionNotFound);
        }
    }
    let ghost table = rows.deep_view();
    if rows.len() == 0 {
        proof {
            assert(import_header(table) =~= Seq::<Seq<char>>::empty());
            assert(!header_has(import_header(table), "word"@));
            assert(first_missing_header(import_header(table)) == Some(0int));
        }
        return Err(ImportError::MissingColumn { name: String::from_str("word") });
    }
    let header = &rows[0];
    let ghost h = header.deep_view();
    proof {
        assert(h == import_header(table));
    }
    if let Err(e) = validate_headers(header) {
        return Err(e);
    }
    proof {
        lemma_all_required_present(h, 0);
    }
    let word_col = required_column(header, "word");
    let phonetic_col = required_column(header, "phonetic");
    let meanings_col = required_column(header, "part_of_speech_and_meanings");
    let sentence_col = required_column(header, "example_sentence");
    let translation_col = required_column(header, "example_translation");
    let audio_uk_col = required_column(header, "audio_uk");
    let audio_us_col = required_column(header, "audio_us");
    let ghost data = import_data(table);
    let ghost records0 = store.records_map();
    let ghost assoc0 = store.assoc_set();
    let n = rows.len();
    let mut total: u64 = 0;
    let mut upserted: u64 = 0;
    let mut skipped: u64 = 0;
    let mut idx: usize = 1;
    while idx < n
        invariant
            1 <= idx <= n,
            n == rows@.len(),
            store.wf(),
            table == rows.deep_view(),
            h == import_header(table),
            data == import_data(table),
            data.len() == n - 1,
            header@ == rows@[0]@,
            word_col < header@.len(),
            phonetic_col < header@.len(),
            meanings_col < header@.len(),
            sentence_col < header@.len(),
            translation_col < header@.len(),
            audio_uk_col < header@.len(),
            audio_us_col < header@.len(),
            records0 == old(store).records_map(),
            assoc0 == old(store).assoc_set(),
            word_list_id matches Some(id) ==> old(store).collections_map().dom().contains(
                id as int,
            ),
            col_index(h, "word"@) == Some(word_col as int),
            col_index(h, "phonetic"@) == Some(phonetic_col as int),
            col_index(h, "part_of_speech_and_meanings"@) == Some(meanings_col as int),
            col_index(h, "example_sentence"@) == Some(sentence_col as int),
            col_index(h, "example_translation"@) == Some(translation_col as int),
            col_index(h, "audio_uk"@) == Some(audio_uk_col as int),
            col_index(h, "audio_us"@) == Some(audio_us_col as int),
            total == idx - 1,
            upserted == upsert_count(h, data, idx - 1),
            skipped == total - upserted,
            store.records_map() == merged_records(records0, h, data, idx - 1),
            store.assoc_set() == merged_assoc(assoc0, h, data, idx - 1, opt_id_view(word_list_id)),
            store.collections_map() == old(store).collections_map(),
            store.active_list_id() == old(store).active_list_id(),
            store.next_collection_id() == old(store).next_collection_id(),
        decreases n - idx,
    {
        proof {
            lemma_upsert_count_bounds(h, data, (idx - 1) as int);
            assert(data[idx - 1] == table[idx as int]);
            assert(table[idx as int] == rows@[idx as int].deep_view());
        }
        let row = &rows[idx];
        let ghost rowv = data[idx - 1];
        total = total + 1;
        if row.len() != header.len() {
            proof {
                assert(rowv.len() != h.len());
                assert(!row_is_upsert(h, rowv));
            }
            skipped = skipped + 1;
        } else {
            proof {
                assert(rowv.len() == h.len());
                assert(rowv[word_col as int] == row@[word_col as int]@);
            }
            let key = trim_str(row[word_col].as_str());
            if key.as_str().is_empty() {
                proof {
                    assert(row_key(h, rowv).len() == 0);
                    assert(!row_is_upsert(h, rowv));
                }
                skipped = skipped + 1;
            } else {
                let key_copy = key.clone();
                let record = WordRecord {
                    word: key,
                    phonetic: field_value(row, phonetic_col),
                    part_of_speech_and_meanings: field_value(row, meanings_col),
                    example_sentence: field_value(row, sentence_col),
                    example_translation: field_value(row, translation_col),
                    audio_uk: field_value(row, audio_uk_col),
                    audio_us: field_value(row, audio_us_col),
                };
                proof {
                    assert(row_is_upsert(h, rowv));
                    assert(record@ == row_record(h, rowv));
                }
                store.upsert(record);
                if let Some(id) = word_list_id {
                    store.associate(id, key_copy.as_str());
                }
                upserted = upserted + 1;
            }
        }
        proof {
            assert(merged_records(records0, h, data, idx as int) == store.records_map());
            assert(merged_assoc(assoc0, h, data, idx as int, opt_id_view(word_list_id))
                == store.assoc_set());
            assert(upsert_count(h, data, idx as int) == upserted);
        }
        idx = idx + 1;
    }
    proof {
        assert(idx == n);
        assert(import_summary_of(table) == (ImportSummary { total, upserted, skipped }));
    }
    Ok(ImportSummary { total, upserted, skipped })
}

/// The column a required name is read from; callable only when the header
/// has been validated to contain the name.
fn required_column(header: &Vec<String>, name: &str) -> (c: usize)
    requires
        header_has(header.deep_view(), name@),
    ensures
        col_index(header.deep_view(), name@) == Some(c as int),
        c < header@.len(),
{
    proof {
        lemma_col_index_has(header.deep_view(), name@, 0);
    }
    match find_column(header, name) {
        Some(c) => c,
        None => {
            proof {
                assert(false);
            }
            0
        },
    }
}

/// What csv's reader parses a text into: its records, each a sequence of
/// fields, quoting and escaping resolved.
pub uninterp spec fn csv_table(text: Seq<char>) -> Seq<Seq<Seq<char>>>;

/// Relies on csv's `Reader` (no header handling, variable record widths
/// allowed): it splits a text into records and fields as a function of the
/// text alone.
#[verifier::external_body]
fn parse_csv_text(content: &str) -> (rows: Vec<Vec<String>>)
    ensures
        rows.deep_view() == csv_table(content@),
{
    let mut rows: Vec<Vec<String>> = Vec::new();
    let mut reader = csv::ReaderBuilder::new().has_headers(false).flexible(true).from_reader(
        content.as_bytes(),
    );
    for record in reader.records() {
        if let Ok(record) = record {
            let mut fields: Vec<String> = Vec::new();
            for field in record.iter() {
                fields.push(field.to_string());
            }
            rows.push(fields);
        }
    }
    rows
}

/// Merge a delimited text into the store: leading byte-order marks are
/// stripped, the text is parsed as records, and the parsed table is merged
/// as `import_rows` describes — header validation first, then one
/// idempotent upsert per well-shaped row, each tagged into the target
/// collection when one was given.
pub fn import_four_rank_csv(
    store: &mut WordStore,
    csv_content: &str,
    word_list_id: Option<i64>,
) -> (r: Result<ImportSummary, ImportError>)
    requires
        old(store).wf(),
    ensures
        final(store).wf(),
        (word_list_id matches Some(id) && !old(store).collections_map().dom().contains(id as int))
            ==> r == Err::<ImportSummary, ImportError>(ImportError::CollectionNotFound),
        ({
            let table = csv_table(crate::chars::strip_boms(csv_content@));
            (match word_list_id {
                Some(id) => old(store).collections_map().dom().contains(id as int),
                None => true,
            }) ==> match first_missing_header(import_header(table)) {
                Some(k) => r matches Err(ImportError::MissingColumn { name }) && name@
                    == spec_required_headers()[k],
                None => {
                    let header = import_header(table);
                    let data = import_data(table);
                    &&& r == Ok::<ImportSummary, ImportError>(import_summary_of(table))
                    &&& final(store).records_map() == merged_records(
                        old(store).records_map(),
                        header,
                        data,
                        data.len() as int,
                    )
                    &&& final(store).assoc_set() == merged_assoc(
                        old(store).assoc_set(),
                        header,
                        data,
                        data.len() as int,
                        opt_id_view(word_list_id),
                    )
                },
            }
        }),
        r is Err ==> final(store).records_map() == old(store).records_map(),
        r is Err ==> final(store).assoc_set() == old(store).assoc_set(),
        final(store).collections_map() == old(store).collections_map(),
        final(store).active_list_id() == old(store).active_list_id(),
        final(store).next_collection_id() == old(store).next_collection_id(),
{
    let stripped = crate::chars::strip_boms_str(csv_content);
    let rows = parse_csv_text(stripped.as_str());
    import_rows(store, &rows, word_list_id)
}

/// No row is counted as merged more often than it occurs.
proof fn lemma_upsert_count_bounds(header: Seq<Seq<char>>, rows: Seq<Seq<Seq<char>>>, k: int)
    ensures
        0 <= upsert_count(header, rows, k),
        k >= 0 ==> upsert_count(header, rows, k) <= k,
    decreases k,
{
    if k > 0 {
        lemma_upsert_count_bounds(header, rows, k - 1);
    }
}

} // verus!
