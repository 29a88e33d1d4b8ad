//! The laws the upload registry obeys, stated over the same spec functions
//! its operations are specified with.

use crate::arith::{
    chunk_count_for, chunk_len_at, chunk_offset, lemma_chunk_count_bounds, lemma_chunk_len_at,
};
use crate::chars::trimmed;
use crate::errors::UploadError;
use crate::upload::{
    chunk_fresh_write, chunk_precheck, chunk_written, finish_upload_result,
    lemma_chunk_written_regions, start_upload_result, validate_file_result, write_chunk_result,
    SessionView, UploadState,
};
use vstd::prelude::*;

verus! {

/// For inputs that pass every other check, `start_upload` succeeds exactly
/// when the declared chunk count equals `size / chunk_size` rounded up; any
/// other declared count is rejected as a chunk-count mismatch.
pub proof fn lemma_start_upload_chunk_arithmetic(
    pre: UploadState,
    upload_id: Seq<char>,
    file_name: Seq<char>,
    size: u64,
    chunk_size: u64,
    total_chunks: u64,
)
    requires
        trimmed(upload_id).len() > 0,
        validate_file_result(file_name, size) is Ok,
        chunk_size > 0,
        pre.spec_get(upload_id) is None,
    ensures
        start_upload_result(pre, upload_id, file_name, size, chunk_size, total_chunks) is Ok
            <==> total_chunks == chunk_count_for(size as nat, chunk_size as nat),
        total_chunks != chunk_count_for(size as nat, chunk_size as nat)
            ==> start_upload_result(pre, upload_id, file_name, size, chunk_size, total_chunks)
            == Err::<(), UploadError>(UploadError::ChunkCountMismatch),
{
}

/// Re-sending a chunk with the fingerprint it was first accepted under is a
/// no-op: the write reports success but is not a fresh write, whatever
/// payload accompanies the retry — so the registry's contract leaves the
/// stored bytes and fingerprints unchanged.
pub proof fn lemma_chunk_retry_idempotent(
    sv: SessionView,
    chunk_index: u64,
    fingerprint: Seq<char>,
    payload: Seq<u8>,
)
    requires
        sv.wf(),
        !sv.completed,
        chunk_index < sv.total_chunks,
        sv.fingerprints.dom().contains(chunk_index as int),
        sv.fingerprints[chunk_index as int] == fingerprint,
    ensures
        write_chunk_result(Some(sv), chunk_index, sv.total_chunks as u64, fingerprint, payload)
            is Ok,
        !chunk_fresh_write(Some(sv), chunk_index, sv.total_chunks as u64, fingerprint, payload),
{
    lemma_chunk_count_bounds(sv.size, sv.chunk_size);
}

/// Re-sending a chunk with a different fingerprint than the one it was
/// accepted under is refused as a fingerprint conflict and is not a fresh
/// write — the originally stored bytes stay untouched.
pub proof fn lemma_chunk_conflict_rejected(
    sv: SessionView,
    chunk_index: u64,
    fingerprint: Seq<char>,
    payload: Seq<u8>,
)
    requires
        sv.wf(),
        !sv.completed,
        chunk_index < sv.total_chunks,
        sv.fingerprints.dom().contains(chunk_index as int),
        sv.fingerprints[chunk_index as int] != fingerprint,
    ensures
        write_chunk_result(Some(sv), chunk_index, sv.total_chunks as u64, fingerprint, payload)
            == Err::<(), UploadError>(UploadError::FingerprintMismatch),
        !chunk_fresh_write(Some(sv), chunk_index, sv.total_chunks as u64, fingerprint, payload),
{
    lemma_chunk_count_bounds(sv.size, sv.chunk_size);
    assert(chunk_precheck(Some(sv), chunk_index, sv.total_chunks as u64, fingerprint)
        == Err::<bool, UploadError>(UploadError::FingerprintMismatch));
}

/// `finish_upload` succeeds exactly when every chunk index in
/// `[0, total_chunks)` has been received; it fails on any gap.
pub proof fn lemma_finish_exactly_when_complete(sv: SessionView)
    ensures
        finish_upload_result(Some(sv)) is Ok <==> (forall|i: int|
            0 <= i < sv.total_chunks ==> sv.fingerprints.dom().contains(i)),
{
}

/// Where the first `k` chunk regions of a session's destination hold given
/// payloads, the destination's prefix up to the `k`th chunk boundary is
/// their concatenation.
proof fn lemma_reassembly_prefix(sv: SessionView, payloads: Seq<Seq<u8>>, k: int)
    requires
        sv.wf(),
        payloads.len() == sv.total_chunks,
        forall|i: int|
            0 <= i < sv.total_chunks ==> (#[trigger] payloads[i]).len() == chunk_len_at(
                sv.size,
                sv.chunk_size,
                i as nat,
            ),
        forall|i: int| 0 <= i < sv.total_chunks ==> sv.region(i) == payloads[i],
        0 <= k <= sv.total_chunks,
    ensures
        payloads.take(k).flatten() == sv.data.subrange(
            0,
            if k == sv.total_chunks {
                sv.size as int
            } else {
                chunk_offset(sv.chunk_size, k as nat)
            },
        ),
    decreases k,
{
    lemma_chunk_count_bounds(sv.size, sv.chunk_size);
    let end = |j: int|
        if j == sv.total_chunks {
            sv.size as int
        } else {
            chunk_offset(sv.chunk_size, j as nat)
        };
    if k == 0 {
        assert(payloads.take(0) =~= Seq::<Seq<u8>>::empty());
        if 0 == sv.total_chunks {
            assert(sv.size == 0);
        }
        assert(payloads.take(0).flatten() =~= sv.data.subrange(0, end(0)));
    } else {
        lemma_reassembly_prefix(sv, payloads, k - 1);
        lemma_chunk_len_at(sv.size, sv.chunk_size, (k - 1) as nat);
        assert(payloads.take(k) =~= payloads.take(k - 1).push(payloads[k - 1]));
        payloads.take(k - 1).lemma_flatten_push(payloads[k - 1]);
        assert(end(k - 1) == chunk_offset(sv.chunk_size, (k - 1) as nat));
        if k < sv.total_chunks {
            crate::arith::lemma_chunk_offset_step(sv.chunk_size, k as nat);
            assert(chunk_len_at(sv.size, sv.chunk_size, (k - 1) as nat) == sv.chunk_size);
        } else {
            assert(end(k) == sv.size);
            assert(chunk_offset(sv.chunk_size, (k - 1) as nat) + chunk_len_at(
                sv.size,
                sv.chunk_size,
                (k - 1) as nat,
            ) == sv.size);
        }
        assert(end(k) == end(k - 1) + chunk_len_at(sv.size, sv.chunk_size, (k - 1) as nat));
        assert(sv.region(k - 1) == payloads[k - 1]);
        assert(payloads.take(k).flatten() =~= sv.data.subrange(0, end(k)));
    }
}

/// The invariant behind reassembly: in a session whose every received
/// chunk's byte range holds that chunk's payload, accepting one more fresh
/// chunk preserves the property — so it holds after any order of arrivals.
pub proof fn lemma_write_preserves_regions(
    sv: SessionView,
    chunk_index: u64,
    fingerprint: Seq<char>,
    payloads: Seq<Seq<u8>>,
)
    requires
        sv.wf(),
        payloads.len() == sv.total_chunks,
        forall|i: int|
            0 <= i < sv.total_chunks ==> (#[trigger] payloads[i]).len() == chunk_len_at(
                sv.size,
                sv.chunk_size,
                i as nat,
            ),
        forall|i: int|
            sv.fingerprints.dom().contains(i) ==> #[trigger] sv.region(i) == payloads[i],
        chunk_index < sv.total_chunks,
    ensures
        chunk_written(sv, chunk_index, fingerprint, payloads[chunk_index as int]).wf(),
        forall|i: int|
            chunk_written(sv, chunk_index, fingerprint, payloads[chunk_index as int])
                .fingerprints.dom().contains(i) ==> #[trigger] chunk_written(
                sv,
                chunk_index,
                fingerprint,
                payloads[chunk_index as int],
            ).region(i) == payloads[i],
{
    lemma_chunk_len_at(sv.size, sv.chunk_size, chunk_index as nat);
    lemma_chunk_written_regions(sv, chunk_index, fingerprint, payloads[chunk_index as int]);
    let sw = chunk_written(sv, chunk_index, fingerprint, payloads[chunk_index as int]);
    assert forall|i: int| sw.fingerprints.dom().contains(i) implies #[trigger] sw.region(i)
        == payloads[i] by {
        if i != chunk_index {
            assert(sv.fingerprints.dom().contains(i));
            assert(sv.region(i) == payloads[i]);
        }
    }
}

/// Once such a session is complete, its destination is exactly the
/// payloads, concatenated in index order.
pub proof fn lemma_complete_session_reassembles(sv: SessionView, payloads: Seq<Seq<u8>>)
    requires
        sv.wf(),
        sv.complete(),
        payloads.len() == sv.total_chunks,
        forall|i: int|
            0 <= i < sv.total_chunks ==> (#[trigger] payloads[i]).len() == chunk_len_at(
                sv.size,
                sv.chunk_size,
                i as nat,
            ),
        forall|i: int|
            sv.fingerprints.dom().contains(i) ==> #[trigger] sv.region(i) == payloads[i],
    ensures
        sv.data == payloads.flatten(),
        sv.data.len() == sv.size,
{
    assert forall|i: int| 0 <= i < sv.total_chunks implies #[trigger] sv.region(i)
        == payloads[i] by {
        assert(sv.fingerprints.dom().contains(i));
    }
    lemma_reassembly(sv, payloads);
}

/// Reassembly correctness: when a session's destination holds, at every
/// chunk index, the payload accepted for that index, the destination bytes
/// are exactly the concatenation of the payloads in index order, and their
/// length is the declared size — whatever order the chunks arrived in.
pub proof fn lemma_reassembly(sv: SessionView, payloads: Seq<Seq<u8>>)
    requires
        sv.wf(),
        payloads.len() == sv.total_chunks,
        forall|i: int|
            0 <= i < sv.total_chunks ==> (#[trigger] payloads[i]).len() == chunk_len_at(
                sv.size,
                sv.chunk_size,
                i as nat,
            ),
        forall|i: int| 0 <= i < sv.total_chunks ==> sv.region(i) == payloads[i],
    ensures
        sv.data == payloads.flatten(),
        sv.data.len() == sv.size,
{
    lemma_reassembly_prefix(sv, payloads, sv.total_chunks as int);
    assert(payloads.take(sv.total_chunks as int) =~= payloads);
    assert(sv.data.subrange(0, sv.size as int) =~= sv.data);
}

} // verus!
