//! The laws the import/merge engine obeys, stated over the same fold
//! functions its operations are specified with.

use crate::import::{
    merged_assoc, merged_records, row_is_upsert, row_key, row_record, upsert_count,
};
use crate::word_store::RecordView;
use vstd::prelude::*;

verus! {

/// The position of the last merged row carrying `key` among the first `k`
/// data rows, or a negative value when no such row exists.
pub open spec fn last_upsert_of(
    header: Seq<Seq<char>>,
    rows: Seq<Seq<Seq<char>>>,
    k: int,
    key: Seq<char>,
) -> int
    decreases k,
{
    if k <= 0 {
        -1
    } else if row_is_upsert(header, rows[k - 1]) && row_key(header, rows[k - 1]) == key {
        k - 1
    } else {
        last_upsert_of(header, rows, k - 1, key)
    }
}

/// What the merge leaves under each key: the record of the last merged row
/// that carried the key, or whatever the initial map held when no merged
/// row carried it.
proof fn lemma_merged_records_char(
    m: Map<Seq<char>, RecordView>,
    header: Seq<Seq<char>>,
    rows: Seq<Seq<Seq<char>>>,
    k: int,
    key: Seq<char>,
)
    requires
        k >= 0,
    ensures
        ({
            let j = last_upsert_of(header, rows, k, key);
            let out = merged_records(m, header, rows, k);
            if j >= 0 {
                &&& j < k
                &&& row_is_upsert(header, rows[j])
                &&& row_key(header, rows[j]) == key
                &&& out.dom().contains(key)
                &&& out[key] == row_record(header, rows[j])
            } else {
                &&& (out.dom().contains(key) <==> m.dom().contains(key))
                &&& (m.dom().contains(key) ==> out[key] == m[key])
            }
        }),
    decreases k,
{
    if k > 0 {
        lemma_merged_records_char(m, header, rows, k - 1, key);
    }
}

/// What the merge adds to the association set: a pair is present exactly
/// when it was present before or some merged row carried its key.
proof fn lemma_merged_assoc_char(
    a: Set<(int, Seq<char>)>,
    header: Seq<Seq<char>>,
    rows: Seq<Seq<Seq<char>>>,
    k: int,
    list: Option<int>,
    p: (int, Seq<char>),
)
    requires
        k >= 0,
    ensures
        merged_assoc(a, header, rows, k, list).contains(p) <==> a.contains(p) || (list matches Some(
            id,
        ) && p.0 == id && last_upsert_of(header, rows, k, p.1) >= 0),
    decreases k,
{
    if k > 0 {
        lemma_merged_assoc_char(a, header, rows, k - 1, list, p);
    }
}

/// Re-importing the same table is idempotent: merging the data rows a
/// second time leaves the record map and the association set exactly as the
/// first merge left them, whatever the store held before.
pub proof fn lemma_reimport_idempotent(
    m: Map<Seq<char>, RecordView>,
    a: Set<(int, Seq<char>)>,
    header: Seq<Seq<char>>,
    rows: Seq<Seq<Seq<char>>>,
    k: int,
    list: Option<int>,
)
    requires
        k >= 0,
    ensures
        merged_records(merged_records(m, header, rows, k), header, rows, k) == merged_records(
            m,
            header,
            rows,
            k,
        ),
        merged_assoc(merged_assoc(a, header, rows, k, list), header, rows, k, list)
            == merged_assoc(a, header, rows, k, list),
{
    let m1 = merged_records(m, header, rows, k);
    let m2 = merged_records(m1, header, rows, k);
    assert forall|key: Seq<char>|
        #![trigger m2.dom().contains(key)]
        #![trigger m1.dom().contains(key)]
        (m2.dom().contains(key) <==> m1.dom().contains(key)) && (m1.dom().contains(key)
            ==> m2[key] == m1[key]) by {
        lemma_merged_records_char(m, header, rows, k, key);
        lemma_merged_records_char(m1, header, rows, k, key);
    }
    assert(m2 =~= m1);
    let a1 = merged_assoc(a, header, rows, k, list);
    let a2 = merged_assoc(a1, header, rows, k, list);
    assert forall|p: (int, Seq<char>)|
        #![trigger a2.contains(p)]
        #![trigger a1.contains(p)]
        a2.contains(p) <==> a1.contains(p) by {
        lemma_merged_assoc_char(a, header, rows, k, list, p);
        lemma_merged_assoc_char(a1, header, rows, k, list, p);
    }
    assert(a2 =~= a1);
}

/// A table whose every data row is well-shaped with a nonempty key is
/// merged in full: the upserted count equals the row count.
pub proof fn lemma_all_rows_merged(header: Seq<Seq<char>>, rows: Seq<Seq<Seq<char>>>, k: int)
    requires
        0 <= k <= rows.len(),
        forall|j: int| 0 <= j < k ==> row_is_upsert(header, #[trigger] rows[j]),
    ensures
        upsert_count(header, rows, k) == k,
    decreases k,
{
    if k > 0 {
        lemma_all_rows_merged(header, rows, k - 1);
    }
}

} // verus!
