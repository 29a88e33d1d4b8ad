//! The batch orchestrator: it drives finished uploads through the
//! import/merge engine, strictly in order, one id at a time. Each id must
//! name a finished session; its assembled bytes are decoded as UTF-8 text,
//! merged into the word store under the target collection, and only then is
//! the session dropped. A failing id aborts the remaining ids, keeping what
//! the earlier ids already merged: the batch is sequential, not atomic.

use crate::errors::ImportError;
use crate::import::{
    csv_table, first_missing_header, import_data, import_four_rank_csv, import_header,
    import_summary_of, merged_assoc, merged_records, spec_required_headers, ImportSummary,
};
use crate::chars::strip_boms;
use crate::upload::{
    cancel_upload, session_bytes, upload_completed, SessionView, UploadState,
};
use crate::word_store::{RecordView, WordStore};
use vstd::prelude::*;
use vstd::utf8::{decode_utf8, valid_utf8};

verus! {

/// The outcome one finished upload contributes to a batch import.
pub struct UploadImportResult {
    pub upload_id: String,
    pub summary: ImportSummary,
}

/// The parsed table a finished session holds: its assembled bytes decoded
/// as text, byte-order marks stripped, parsed as records.
pub open spec fn step_table(reg: UploadState, ids: Seq<Seq<char>>, i: int) -> Seq<Seq<Seq<char>>> {
    csv_table(strip_boms(decode_utf8(reg.spec_get(ids[i])->0.data)))
}

/// Whether the batch entry at `i` goes through: the id was not already
/// consumed earlier in the batch, names a finished session whose bytes are
/// valid text, the target collection exists, and the header is valid.
pub open spec fn batch_step_ok(
    reg: UploadState,
    collections: Map<int, Seq<char>>,
    ids: Seq<Seq<char>>,
    list: int,
    i: int,
) -> bool {
    &&& !(exists|t: int| 0 <= t < i && ids[t] == ids[i])
    &&& match reg.spec_get(ids[i]) {
        None => false,
        Some(sv) => {
            &&& sv.completed
            &&& valid_utf8(sv.data)
            &&& collections.dom().contains(list)
            &&& first_missing_header(import_header(step_table(reg, ids, i))) is None
        },
    }
}

/// The position of the first batch entry that fails, or the batch length
/// when every entry goes through, scanning from `i`.
pub open spec fn batch_progress_from(
    reg: UploadState,
    collections: Map<int, Seq<char>>,
    ids: Seq<Seq<char>>,
    list: int,
    i: int,
) -> int
    decreases ids.len() - i,
{
    if i < 0 || i >= ids.len() {
        ids.len() as int
    } else if batch_step_ok(reg, collections, ids, list, i) {
        batch_progress_from(reg, collections, ids, list, i + 1)
    } else {
        i
    }
}

/// The record map after merging the tables of the first `k` batch entries,
/// in order.
pub open spec fn batch_records(
    m: Map<Seq<char>, RecordView>,
    reg: UploadState,
    ids: Seq<Seq<char>>,
    k: int,
) -> Map<Seq<char>, RecordView>
    decreases k,
{
    if k <= 0 {
        m
    } else {
        let prev = batch_records(m, reg, ids, k - 1);
        let table = step_table(reg, ids, k - 1);
        merged_records(
            prev,
            import_header(table),
            import_data(table),
            import_data(table).len() as int,
        )
    }
}

/// The association set after merging the tables of the first `k` batch
/// entries into the target collection, in order.
pub open spec fn batch_assoc(
    a: Set<(int, Seq<char>)>,
    reg: UploadState,
    ids: Seq<Seq<char>>,
    k: int,
    list: int,
) -> Set<(int, Seq<char>)>
    decreases k,
{
    if k <= 0 {
        a
    } else {
        let prev = batch_assoc(a, reg, ids, k - 1, list);
        let table = step_table(reg, ids, k - 1);
        merged_assoc(
            prev,
            import_header(table),
            import_data(table),
            import_data(table).len() as int,
            Some(list),
        )
    }
}

/// Relies on `String::from_utf8`: it accepts exactly the byte sequences
/// that are valid UTF-8 and decodes them to the text they encode.
#[verifier::external_body]
fn utf8_string(bytes: &Vec<u8>) -> (r: Option<String>)
    ensures
        r is Some <==> valid_utf8(bytes@),
        r matches Some(s) ==> s@ == decode_utf8(bytes@),
{
    match String::from_utf8(bytes.clone()) {
        Ok(s) => Some(s),
        Err(_) => None,
    }
}

/// Import the finished uploads named by `upload_ids`, in order, into the
/// collection `word_list_id`. Each id that goes through is merged and its
/// session dropped; the first id that fails stops the batch with its error,
/// after the earlier ids have already been merged and dropped.
pub fn import_uploaded_files(
    state: &mut UploadState,
    store: &mut WordStore,
    upload_ids: &Vec<String>,
    word_list_id: i64,
) -> (r: Result<Vec<UploadImportResult>, ImportError>)
    requires
        old(state).wf(),
        old(store).wf(),
    ensures
        final(state).wf(),
        final(store).wf(),
        final(store).collections_map() == old(store).collections_map(),
        final(store).active_list_id() == old(store).active_list_id(),
        final(store).next_collection_id() == old(store).next_collection_id(),
        ({
            let ids = upload_ids.deep_view();
            let cols = old(store).collections_map();
            let p = batch_progress_from(*old(state), cols, ids, word_list_id as int, 0);
            &&& final(store).records_map() == batch_records(
                old(store).records_map(),
                *old(state),
                ids,
                p,
            )
            &&& final(store).assoc_set() == batch_assoc(
                old(store).assoc_set(),
                *old(state),
                ids,
                p,
                word_list_id as int,
            )
            &&& forall|id: Seq<char>|
                final(state).spec_get(id) == if (exists|t: int| 0 <= t < p && ids[t] == id) {
                    None
                } else {
                    old(state).spec_get(id)
                }
            &&& (p == ids.len() ==> (r matches Ok(results) && results@.len() == ids.len()
                && forall|i: int|
                    0 <= i < ids.len() ==> (#[trigger] results@[i]).upload_id@ == ids[i]
                        && results@[i].summary == import_summary_of(
                        step_table(*old(state), ids, i),
                    )))
            &&& (p < ids.len() ==> r is Err && {
                let id = ids[p];
                if (exists|t: int| 0 <= t < p && ids[t] == id) || old(state).spec_get(id)
                    is None {
                    r == Err::<Vec<UploadImportResult>, ImportError>(ImportError::SessionNotFound)
                } else if !old(state).spec_get(id)->0.completed {
                    r == Err::<Vec<UploadImportResult>, ImportError>(
                        ImportError::UploadNotFinished,
                    )
                } else if !valid_utf8(old(state).spec_get(id)->0.data) {
                    r == Err::<Vec<UploadImportResult>, ImportError>(ImportError::InvalidEncoding)
                } else if !cols.dom().contains(word_list_id as int) {
                    r == Err::<Vec<UploadImportResult>, ImportError>(
                        ImportError::CollectionNotFound,
                    )
                } else {
                    r matches Err(ImportError::MissingColumn { name }) && name@
                        == spec_required_headers()[first_missing_header(
                        import_header(step_table(*old(state), ids, p)),
                    )->0]
                }
            })
        }),
{
    let ghost reg0 = *old(state);
    let ghost store0 = *old(store);
    let ghost ids = upload_ids.deep_view();
    let ghost cols = old(store).collections_map();
    let ghost list = word_list_id as int;
    let n = upload_ids.len();
    let mut results: Vec<UploadImportResult> = Vec::new();
    let mut j: usize = 0;
    while j < n
        invariant
            j <= n,
            n == upload_ids@.len(),
            reg0 == *old(state),
            store0 == *old(store),
            ids == upload_ids.deep_view(),
            cols == store0.collections_map(),
            list == word_list_id as int,
            state.wf(),
            store.wf(),
            reg0.wf(),
            forall|t: int| 0 <= t < j ==> batch_step_ok(reg0, cols, ids, list, t),
            batch_progress_from(reg0, cols, ids, list, 0) == batch_progress_from(
                reg0,
                cols,
                ids,
                list,
                j as int,
            ),
            store.records_map() == batch_records(store0.records_map(), reg0, ids, j as int),
            store.assoc_set() == batch_assoc(store0.assoc_set(), reg0, ids, j as int, list),
            store.collections_map() == store0.collections_map(),
            store.active_list_id() == store0.active_list_id(),
            store.next_collection_id() == store0.next_collection_id(),
            forall|id: Seq<char>|
                state.spec_get(id) == if (exists|t: int| 0 <= t < j && ids[t] == id) {
                    None
                } else {
                    reg0.spec_get(id)
                },
            results@.len() == j,
            forall|i: int|
                0 <= i < j ==> (#[trigger] results@[i]).upload_id@ == ids[i]
                    && results@[i].summary == import_summary_of(step_table(reg0, ids, i)),
        decreases n - j,
    {
        proof {
            assert(ids[j as int] == upload_ids@[j as int]@);
        }
        let id_ref = &upload_ids[j];
        match upload_completed(state, id_ref.as_str()) {
            None => {
                return Err(ImportError::SessionNotFound);
            },
            Some(false) => {
                return Err(ImportError::UploadNotFinished);
            },
            Some(true) => {},
        }
        let bytes = match session_bytes(state, id_ref.as_str()) {
            None => {
                proof {
                    assert(false);
                }
                return Err(ImportError::SessionNotFound);
            },
            Some(bytes) => bytes,
        };
        let content = match utf8_string(&bytes) {
            None => {
                return Err(ImportError::InvalidEncoding);
            },
            Some(content) => content,
        };
        let ghost table = step_table(reg0, ids, j as int);
        let summary = match import_four_rank_csv(store, content.as_str(), Some(word_list_id)) {
            Err(e) => {
                return Err(e);
            },
            Ok(summary) => summary,
        };
        results.push(UploadImportResult { upload_id: id_ref.clone(), summary });
        let _ = cancel_upload(state, id_ref.as_str());
        proof {
            assert(batch_step_ok(reg0, cols, ids, list, j as int));
            assert(batch_records(store0.records_map(), reg0, ids, j as int + 1)
                == store.records_map());
            assert(batch_assoc(store0.assoc_set(), reg0, ids, j as int + 1, list)
                == store.assoc_set());
        }
        j = j + 1;
    }
    Ok(results)
}

} // verus!
