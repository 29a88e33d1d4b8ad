//! The resumable chunked-upload registry: the source of truth for which
//! sessions exist and which chunks each has received.
//!
//! A session is started with a declared size and chunk arithmetic, receives
//! chunks in any order at byte-precise offsets of its preallocated
//! destination, records a caller-supplied fingerprint per chunk so that a
//! retry can be told apart from a conflicting overwrite, and is finished
//! explicitly once every chunk is present. Cancellation drops a session and
//! its destination at any time.

use crate::arith::{
    chunk_count_for, chunk_len_at, chunk_offset, lemma_chunk_count_bounds, lemma_chunk_len_at,
};
use crate::buffer::ChunkBuffer;
use crate::chars::{ends_with_csv, has_csv_extension, str_eq, trimmed, trimmed_is_empty};
use crate::errors::UploadError;
use vstd::prelude::*;

verus! {

/// The largest declared size the registry accepts, in bytes.
pub const MAX_FILE_SIZE: u64 = 100 * 1024 * 1024;

/// One in-flight transfer.
pub struct UploadSession {
    upload_id: String,
    size: u64,
    chunk_size: u64,
    total_chunks: u64,
    /// One slot per chunk index; a slot holds the fingerprint under which
    /// that chunk was accepted.
    received: Vec<Option<String>>,
    data: ChunkBuffer,
    completed: bool,
}

/// What a session looks like in contracts.
pub ghost struct SessionView {
    pub size: nat,
    pub chunk_size: nat,
    pub total_chunks: nat,
    /// Maps each received chunk index to the fingerprint it was accepted
    /// under; the domain is exactly the set of received indices.
    pub fingerprints: Map<int, Seq<char>>,
    /// The destination bytes assembled so far.
    pub data: Seq<u8>,
    pub completed: bool,
}

impl SessionView {
    /// Every chunk index has been received.
    pub open spec fn complete(self) -> bool {
        forall|i: int| 0 <= i < self.total_chunks ==> self.fingerprints.dom().contains(i)
    }

    /// The shape every live session has: positive chunk size, size within
    /// the accepted maximum, the chunk count demanded by the size, a
    /// destination of exactly the declared size, received indices in range,
    /// and completion only with every chunk present.
    pub open spec fn wf(self) -> bool {
        &&& self.chunk_size > 0
        &&& self.size <= MAX_FILE_SIZE
        &&& self.total_chunks == chunk_count_for(self.size, self.chunk_size)
        &&& self.data.len() == self.size
        &&& forall|i: int| self.fingerprints.dom().contains(i) ==> 0 <= i < self.total_chunks
        &&& self.completed ==> self.complete()
    }

    /// The bytes of the chunk at `index` within the destination.
    pub open spec fn region(self, index: int) -> Seq<u8>
        recommends
            self.wf(),
            0 <= index < self.total_chunks,
    {
        self.data.subrange(
            chunk_offset(self.chunk_size, index as nat),
            chunk_offset(self.chunk_size, index as nat) + chunk_len_at(
                self.size,
                self.chunk_size,
                index as nat,
            ),
        )
    }
}

spec fn fingerprints_of(received: Seq<Option<String>>) -> Map<int, Seq<char>> {
    Map::new(|i: int| 0 <= i < received.len() && received[i] is Some, |i: int| received[i]->0@)
}

impl View for UploadSession {
    type V = SessionView;

    closed spec fn view(&self) -> SessionView {
        SessionView {
            size: self.size as nat,
            chunk_size: self.chunk_size as nat,
            total_chunks: self.total_chunks as nat,
            fingerprints: fingerprints_of(self.received@),
            data: self.data@,
            completed: self.completed,
        }
    }
}

impl UploadSession {
    spec fn inv(self) -> bool {
        &&& self.chunk_size > 0
        &&& self.size <= MAX_FILE_SIZE
        &&& self.total_chunks == chunk_count_for(self.size as nat, self.chunk_size as nat)
        &&& self.received@.len() == self.total_chunks
        &&& self.data@.len() == self.size
        &&& self.completed ==> forall|i: int|
            0 <= i < self.received@.len() ==> self.received@[i] is Some
    }

    proof fn lemma_inv_wf(self)
        requires
            self.inv(),
        ensures
            self@.wf(),
    {
        assert forall|i: int| self@.fingerprints.dom().contains(i) implies 0 <= i
            < self@.total_chunks by {}
    }
}

spec fn ids_unique(s: Seq<UploadSession>) -> bool {
    forall|i: int, j: int|
        0 <= i < j < s.len() ==> #[trigger] s[i].upload_id@ != #[trigger] s[j].upload_id@
}

spec fn lookup(s: Seq<UploadSession>, id: Seq<char>) -> Option<SessionView>
    decreases s.len(),
{
    if s.len() == 0 {
        None
    } else if s[0].upload_id@ == id {
        Some(s[0]@)
    } else {
        lookup(s.drop_first(), id)
    }
}

/// `lookup` finds a session exactly when some element carries the id, and
/// with unique ids it returns that element's view.
proof fn lemma_lookup_present(s: Seq<UploadSession>, id: Seq<char>)
    ensures
        match lookup(s, id) {
            Some(v) => exists|i: int|
                0 <= i < s.len() && #[trigger] s[i].upload_id@ == id && v == s[i]@,
            None => forall|i: int| 0 <= i < s.len() ==> #[trigger] s[i].upload_id@ != id,
        },
    decreases s.len(),
{
    if s.len() > 0 && s[0].upload_id@ != id {
        lemma_lookup_present(s.drop_first(), id);
        match lookup(s.drop_first(), id) {
            Some(v) => {
                let i = choose|i: int|
                    0 <= i < s.drop_first().len() && #[trigger] s.drop_first()[i].upload_id@ == id
                        && v == s.drop_first()[i]@;
                assert(s[i + 1].upload_id@ == id && v == s[i + 1]@);
            },
            None => {
                assert forall|i: int| 0 <= i < s.len() implies #[trigger] s[i].upload_id@
                    != id by {
                    if i > 0 {
                        assert(s.drop_first()[i - 1] == s[i]);
                    }
                }
            },
        }
    }
}

/// With unique ids, an element carrying the id pins down the lookup result.
proof fn lemma_lookup_at(s: Seq<UploadSession>, i: int)
    requires
        ids_unique(s),
        0 <= i < s.len(),
    ensures
        lookup(s, s[i].upload_id@) == Some(s[i]@),
{
    let id = s[i].upload_id@;
    lemma_lookup_present(s, id);
    match lookup(s, id) {
        Some(v) => {
            let j = choose|j: int|
                0 <= j < s.len() && #[trigger] s[j].upload_id@ == id && v == s[j]@;
            if i < j {
                assert(s[i].upload_id@ != s[j].upload_id@);
            } else if j < i {
                assert(s[j].upload_id@ != s[i].upload_id@);
            }
        },
        None => {
            assert(s[i].upload_id@ == id);
        },
    }
}

/// The registry: an in-memory table of live sessions.
pub struct UploadState {
    sessions: Vec<UploadSession>,
}

impl UploadState {
    /// The registry invariant: no two sessions share an id, and every
    /// session is well-formed.
    pub closed spec fn wf(&self) -> bool {
        &&& ids_unique(self.sessions@)
        &&& forall|i: int| 0 <= i < self.sessions@.len() ==> (#[trigger] self.sessions@[i]).inv()
    }

    /// The session registered under `id`, if any.
    pub closed spec fn spec_get(&self, id: Seq<char>) -> Option<SessionView> {
        lookup(self.sessions@, id)
    }

    /// Every registered session is well-formed.
    pub proof fn lemma_get_wf(&self, id: Seq<char>)
        requires
            self.wf(),
        ensures
            match self.spec_get(id) {
                Some(sv) => sv.wf(),
                None => true,
            },
    {
        lemma_lookup_present(self.sessions@, id);
        match lookup(self.sessions@, id) {
            Some(v) => {
                let i = choose|i: int|
                    0 <= i < self.sessions@.len() && #[trigger] self.sessions@[i].upload_id@ == id
                        && v == self.sessions@[i]@;
                self.sessions@[i].lemma_inv_wf();
            },
            None => {},
        }
    }

    /// An empty registry.
    pub fn new() -> (state: UploadState)
        ensures
            state.wf(),
            forall|id: Seq<char>| state.spec_get(id) is None,
    {
        let state = UploadState { sessions: Vec::new() };
        proof {
            assert forall|id: Seq<char>| state.spec_get(id) is None by {
                lemma_lookup_present(state.sessions@, id);
            }
        }
        state
    }

    /// The index of the session registered under `upload_id`, if any.
    fn find(&self, upload_id: &str) -> (r: Option<usize>)
        requires
            self.wf(),
        ensures
            match r {
                Some(i) => i < self.sessions@.len() && self.sessions@[i as int].upload_id@
                    == upload_id@ && self.spec_get(upload_id@) == Some(self.sessions@[i as int]@),
                None => self.spec_get(upload_id@) is None,
            },
    {
        let n = self.sessions.len();
        let mut j: usize = 0;
        while j < n
            invariant
                j <= n,
                n == self.sessions@.len(),
                self.wf(),
                forall|k: int| 0 <= k < j ==> #[trigger] self.sessions@[k].upload_id@ != upload_id@,
            decreases n - j,
        {
            if str_eq(self.sessions[j].upload_id.as_str(), upload_id) {
                proof {
                    lemma_lookup_at(self.sessions@, j as int);
                }
                return Some(j);
            }
            j = j + 1;
        }
        proof {
            lemma_lookup_present(self.sessions@, upload_id@);
            if self.spec_get(upload_id@) is Some {
                let i = choose|i: int|
                    0 <= i < self.sessions@.len() && #[trigger] self.sessions@[i].upload_id@
                        == upload_id@ && self.spec_get(upload_id@)->0 == self.sessions@[i]@;
                assert(false);
            }
        }
        None
    }
}

impl Default for UploadState {
    /// An empty registry.
    fn default() -> (state: UploadState)
        ensures
            state.wf(),
            forall|id: Seq<char>| state.spec_get(id) is None,
    {
        UploadState::new()
    }
}

/// The file-level validation `start_upload` applies: the name must end in
/// `.csv` (any letter case) and the size must be within the maximum.
pub open spec fn validate_file_result(file_name: Seq<char>, size: u64) -> Result<(), UploadError> {
    if !has_csv_extension(file_name) {
        Err(UploadError::UnsupportedExtension)
    } else if size > MAX_FILE_SIZE {
        Err(UploadError::FileTooLarge)
    } else {
        Ok(())
    }
}

/// Accept `file_name` and `size` exactly when the name carries the `.csv`
/// extension and the size does not exceed the maximum.
pub fn validate_file(file_name: &str, size: u64) -> (r: Result<(), UploadError>)
    ensures
        r == validate_file_result(file_name@, size),
{
    if !ends_with_csv(file_name) {
        return Err(UploadError::UnsupportedExtension);
    }
    if size > MAX_FILE_SIZE {
        return Err(UploadError::FileTooLarge);
    }
    Ok(())
}

/// The view of a session that has just been started: nothing received, a
/// zeroed destination of the declared size.
pub open spec fn fresh_session_view(size: nat, chunk_size: nat) -> SessionView {
    SessionView {
        size,
        chunk_size,
        total_chunks: chunk_count_for(size, chunk_size),
        fingerprints: Map::empty(),
        data: Seq::new(size, |i: int| 0u8),
        completed: false,
    }
}

/// Whether `start_upload` succeeds, and with which error it refuses,
/// checked in this order: empty id, file validation, zero chunk size, chunk
/// arithmetic, id already in use. It succeeds exactly when the declared
/// chunk count equals `size / chunk_size` rounded up and everything else is
/// in order.
pub open spec fn start_upload_result(
    pre: UploadState,
    upload_id: Seq<char>,
    file_name: Seq<char>,
    size: u64,
    chunk_size: u64,
    total_chunks: u64,
) -> Result<(), UploadError> {
    if trimmed(upload_id).len() == 0 {
        Err(UploadError::EmptyUploadId)
    } else if validate_file_result(file_name, size) is Err {
        validate_file_result(file_name, size)
    } else if chunk_size == 0 {
        Err(UploadError::ZeroChunkSize)
    } else if total_chunks != chunk_count_for(size as nat, chunk_size as nat) {
        Err(UploadError::ChunkCountMismatch)
    } else if pre.spec_get(upload_id) is Some {
        Err(UploadError::SessionAlreadyExists)
    } else {
        Ok(())
    }
}

/// Start a session under `upload_id`, preallocating a zeroed destination of
/// exactly `size` bytes. Succeeds exactly when the inputs validate, the
/// declared chunk count matches the size, and the id is free.
pub fn start_upload(
    state: &mut UploadState,
    upload_id: &str,
    file_name: &str,
    size: u64,
    chunk_size: u64,
    total_chunks: u64,
) -> (r: Result<(), UploadError>)
    requires
        old(state).wf(),
    ensures
        final(state).wf(),
        r == start_upload_result(*old(state), upload_id@, file_name@, size, chunk_size,
            total_chunks),
        r is Err ==> *final(state) == *old(state),
        r is Ok ==> final(state).spec_get(upload_id@) == Some(
            fresh_session_view(size as nat, chunk_size as nat),
        ),
        forall|other: Seq<char>|
            other != upload_id@ ==> final(state).spec_get(other) == old(state).spec_get(other),
    {
    if trimmed_is_empty(upload_id) {
        return Err(UploadError::EmptyUploadId);
    }
    if let Err(e) = validate_file(file_name, size) {
        return Err(e);
    }
    if chunk_size == 0 {
        return Err(UploadError::ZeroChunkSize);
    }
    let expected = size / chunk_size + (if size % chunk_size == 0 {
        0
    } else {
        1
    });
    if expected != total_chunks {
        return Err(UploadError::ChunkCountMismatch);
    }
    if state.find(upload_id).is_some() {
        return Err(UploadError::SessionAlreadyExists);
    }
    proof {
        lemma_chunk_count_bounds(size as nat, chunk_size as nat);
        assert(size as nat <= usize::MAX as nat);
        assert(total_chunks as nat <= usize::MAX as nat);
    }
    let data = ChunkBuffer::create(size as usize);
    let mut received: Vec<Option<String>> = Vec::new();
    let slots = total_chunks as usize;
    let mut k: usize = 0;
    while k < slots
        invariant
            k <= slots,
            received@.len() == k,
            forall|i: int| 0 <= i < k ==> received@[i] is None,
        decreases slots - k,
    {
        received.push(None);
        k = k + 1;
    }
    let session = UploadSession {
        upload_id: upload_id.to_owned(),
        size,
        chunk_size,
        total_chunks,
        received,
        data,
        completed: false,
    };
    proof {
        assert(session.inv());
        assert(session@.fingerprints =~= Map::<int, Seq<char>>::empty());
        assert(session@.data =~= Seq::new(size as nat, |i: int| 0u8));
        assert(session@ == fresh_session_view(size as nat, chunk_size as nat));
    }
    let ghost pre_sessions = state.sessions@;
    state.sessions.push(session);
    proof {
        let s = state.sessions@;
        assert forall|i: int, j: int| 0 <= i < j < s.len() implies #[trigger] s[i].upload_id@
            != #[trigger] s[j].upload_id@ by {
            if j == s.len() - 1 {
                lemma_lookup_present(pre_sessions, upload_id@);
            }
        }
        lemma_lookup_at(s, s.len() - 1);
        assert forall|other: Seq<char>| other != upload_id@ implies lookup(s, other) == lookup(
            pre_sessions,
            other,
        ) by {
            lemma_lookup_unchanged_extend(pre_sessions, s, other);
        }
    }
    Ok(())
}

/// What `base64::engine::general_purpose::STANDARD` decodes a text to, when
/// the text is valid standard base64.
pub uninterp spec fn base64_decoding(text: Seq<char>) -> Option<Seq<u8>>;

/// Relies on base64's `Engine::decode` with the `STANDARD` engine: it
/// returns the decoded bytes of a valid standard-base64 text and an error
/// otherwise, as a function of the text alone.
#[verifier::external_body]
fn decode_standard_base64(text: &str) -> (r: Option<Vec<u8>>)
    ensures
        r is Some <==> base64_decoding(text@) is Some,
        r matches Some(bytes) ==> bytes@ == base64_decoding(text@)->0,
{
    match base64::Engine::decode(&base64::engine::general_purpose::STANDARD, text) {
        Ok(bytes) => Some(bytes),
        Err(_) => None,
    }
}

/// The state checks a chunk passes before any byte is considered, in order:
/// the session must exist, must not be finished, must agree on the chunk
/// count, the index must be in range, and a re-sent index must carry the
/// fingerprint it was first accepted under. `Ok(true)` is a safe retry of an
/// already-accepted chunk; `Ok(false)` is a fresh index.
pub open spec fn chunk_precheck(
    session: Option<SessionView>,
    chunk_index: u64,
    total_chunks: u64,
    fingerprint: Seq<char>,
) -> Result<bool, UploadError> {
    match session {
        None => Err(UploadError::SessionNotFound),
        Some(sv) => {
            if sv.completed {
                Err(UploadError::SessionCompleted)
            } else if total_chunks != sv.total_chunks {
                Err(UploadError::TotalChunksMismatch)
            } else if chunk_index >= sv.total_chunks {
                Err(UploadError::ChunkIndexOutOfRange)
            } else if sv.fingerprints.dom().contains(chunk_index as int) {
                if sv.fingerprints[chunk_index as int] == fingerprint {
                    Ok(true)
                } else {
                    Err(UploadError::FingerprintMismatch)
                }
            } else {
                Ok(false)
            }
        },
    }
}

/// Whether a chunk write succeeds: the prechecks, then the payload length
/// demanded by the index.
pub open spec fn write_chunk_result(
    session: Option<SessionView>,
    chunk_index: u64,
    total_chunks: u64,
    fingerprint: Seq<char>,
    payload: Seq<u8>,
) -> Result<(), UploadError> {
    match chunk_precheck(session, chunk_index, total_chunks, fingerprint) {
        Err(e) => Err(e),
        Ok(true) => Ok(()),
        Ok(false) => {
            let sv = session->0;
            if payload.len() != chunk_len_at(sv.size, sv.chunk_size, chunk_index as nat) {
                Err(UploadError::ChunkLengthMismatch)
            } else {
                Ok(())
            }
        },
    }
}

/// The chunk write will accept a payload it has not seen before and record
/// it; a retry or a refusal leaves the session untouched.
pub open spec fn chunk_fresh_write(
    session: Option<SessionView>,
    chunk_index: u64,
    total_chunks: u64,
    fingerprint: Seq<char>,
    payload: Seq<u8>,
) -> bool {
    &&& chunk_precheck(session, chunk_index, total_chunks, fingerprint) == Ok::<
        bool,
        UploadError,
    >(false)
    &&& write_chunk_result(session, chunk_index, total_chunks, fingerprint, payload) is Ok
}

/// `data` with `payload` written over the range starting at `offset` and
/// every other byte unchanged.
pub open spec fn spliced(data: Seq<u8>, offset: int, payload: Seq<u8>) -> Seq<u8> {
    Seq::new(
        data.len(),
        |i: int|
            if offset <= i < offset + payload.len() {
                payload[i - offset]
            } else {
                data[i]
            },
    )
}

/// The session after a fresh chunk is accepted: the payload lands at its
/// index's offset and the fingerprint is recorded for that index.
pub open spec fn chunk_written(
    sv: SessionView,
    chunk_index: u64,
    fingerprint: Seq<char>,
    payload: Seq<u8>,
) -> SessionView {
    SessionView {
        fingerprints: sv.fingerprints.insert(chunk_index as int, fingerprint),
        data: spliced(sv.data, chunk_offset(sv.chunk_size, chunk_index as nat), payload),
        ..sv
    }
}

/// Accepting a fresh chunk fills exactly that chunk's byte range with the
/// payload and leaves every other chunk's range as it was.
pub proof fn lemma_chunk_written_regions(
    sv: SessionView,
    chunk_index: u64,
    fingerprint: Seq<char>,
    payload: Seq<u8>,
)
    requires
        sv.wf(),
        chunk_index < sv.total_chunks,
        payload.len() == chunk_len_at(sv.size, sv.chunk_size, chunk_index as nat),
    ensures
        chunk_written(sv, chunk_index, fingerprint, payload).wf(),
        chunk_written(sv, chunk_index, fingerprint, payload).region(chunk_index as int)
            == payload,
        forall|j: int|
            0 <= j < sv.total_chunks && j != chunk_index ==> chunk_written(
                sv,
                chunk_index,
                fingerprint,
                payload,
            ).region(j) == sv.region(j),
{
    let sw = chunk_written(sv, chunk_index, fingerprint, payload);
    let i = chunk_index as nat;
    lemma_chunk_len_at(sv.size, sv.chunk_size, i);
    assert(sw.region(chunk_index as int) =~= payload);
    assert forall|j: int| 0 <= j < sv.total_chunks && j != chunk_index implies sw.region(j)
        == sv.region(j) by {
        lemma_chunk_len_at(sv.size, sv.chunk_size, j as nat);
        if j < chunk_index {
            crate::arith::lemma_chunk_ranges_disjoint(sv.size, sv.chunk_size, j as nat, i);
        } else {
            crate::arith::lemma_chunk_ranges_disjoint(sv.size, sv.chunk_size, i, j as nat);
        }
        assert(sw.region(j) =~= sv.region(j));
    }
}

/// The session list after an in-place update at `m` that keeps the id: the
/// updated id maps to the new element, every other id is unaffected.
proof fn lemma_lookup_update(s: Seq<UploadSession>, m: int, ns: UploadSession, id: Seq<char>)
    requires
        ids_unique(s),
        0 <= m < s.len(),
        ns.upload_id@ == s[m].upload_id@,
    ensures
        ids_unique(s.update(m, ns)),
        lookup(s.update(m, ns), id) == if id == s[m].upload_id@ {
            Some(ns@)
        } else {
            lookup(s, id)
        },
{
    let post = s.update(m, ns);
    assert forall|i: int, j: int| 0 <= i < j < post.len() implies #[trigger] post[i].upload_id@
        != #[trigger] post[j].upload_id@ by {
        assert(s[i].upload_id@ != s[j].upload_id@);
    }
    if id == s[m].upload_id@ {
        lemma_lookup_at(post, m);
    } else {
        lemma_lookup_present(s, id);
        match lookup(s, id) {
            Some(v) => {
                let i = choose|i: int|
                    0 <= i < s.len() && #[trigger] s[i].upload_id@ == id && v == s[i]@;
                assert(post[i] == s[i]);
                lemma_lookup_at(post, i);
            },
            None => {
                lemma_lookup_present(post, id);
                match lookup(post, id) {
                    Some(w) => {
                        let i = choose|i: int|
                            0 <= i < post.len() && #[trigger] post[i].upload_id@ == id && w
                                == post[i]@;
                        assert(s[i].upload_id@ == id);
                        assert(false);
                    },
                    None => {},
                }
            },
        }
    }
}

/// The prechecks of `chunk_precheck`, executed against the registry.
fn chunk_precheck_exec(
    state: &UploadState,
    upload_id: &str,
    chunk_index: u64,
    total_chunks: u64,
    chunk_hash: &str,
) -> (r: Result<bool, UploadError>)
    requires
        state.wf(),
    ensures
        r == chunk_precheck(state.spec_get(upload_id@), chunk_index, total_chunks, chunk_hash@),
{
    let i = match state.find(upload_id) {
        None => {
            return Err(UploadError::SessionNotFound);
        },
        Some(i) => i,
    };
    let sess = &state.sessions[i];
    if sess.completed {
        return Err(UploadError::SessionCompleted);
    }
    if total_chunks != sess.total_chunks {
        return Err(UploadError::TotalChunksMismatch);
    }
    if chunk_index >= sess.total_chunks {
        return Err(UploadError::ChunkIndexOutOfRange);
    }
    let ci = chunk_index as usize;
    match &sess.received[ci] {
        Some(existing) => {
            if str_eq(existing.as_str(), chunk_hash) {
                Ok(true)
            } else {
                Err(UploadError::FingerprintMismatch)
            }
        },
        None => Ok(false),
    }
}

/// Write a chunk payload that has already been decoded to bytes. Succeeds
/// exactly when the session accepts the index, fingerprint and payload
/// length; a retry of an accepted chunk with its original fingerprint is a
/// success that changes nothing.
pub fn write_chunk(
    state: &mut UploadState,
    upload_id: &str,
    chunk_index: u64,
    total_chunks: u64,
    chunk_hash: &str,
    payload: &Vec<u8>,
) -> (r: Result<(), UploadError>)
    requires
        old(state).wf(),
    ensures
        final(state).wf(),
        r == write_chunk_result(old(state).spec_get(upload_id@), chunk_index, total_chunks,
            chunk_hash@, payload@),
        !chunk_fresh_write(old(state).spec_get(upload_id@), chunk_index, total_chunks,
            chunk_hash@, payload@) ==> *final(state) == *old(state),
        chunk_fresh_write(old(state).spec_get(upload_id@), chunk_index, total_chunks,
            chunk_hash@, payload@) ==> final(state).spec_get(upload_id@) == Some(
            chunk_written(old(state).spec_get(upload_id@)->0, chunk_index, chunk_hash@, payload@),
        ),
        forall|other: Seq<char>|
            other != upload_id@ ==> final(state).spec_get(other) == old(state).spec_get(other),
{
    match chunk_precheck_exec(state, upload_id, chunk_index, total_chunks, chunk_hash) {
        Err(e) => {
            return Err(e);
        },
        Ok(true) => {
            return Ok(());
        },
        Ok(false) => {},
    }
    let i = match state.find(upload_id) {
        None => {
            return Err(UploadError::SessionNotFound);
        },
        Some(i) => i,
    };
    let ghost pre_sessions = state.sessions@;
    let ghost sv = state.spec_get(upload_id@)->0;
    let size = state.sessions[i].size;
    let chunk_size = state.sessions[i].chunk_size;
    let session_total = state.sessions[i].total_chunks;
    proof {
        lemma_chunk_count_bounds(size as nat, chunk_size as nat);
        lemma_chunk_len_at(size as nat, chunk_size as nat, chunk_index as nat);
    }
    let expected_len: u64 = if chunk_index + 1 == session_total {
        size - chunk_size * (session_total - 1)
    } else {
        chunk_size
    };
    if payload.len() as u64 != expected_len {
        return Err(UploadError::ChunkLengthMismatch);
    }
    let offset = chunk_index * chunk_size;
    let ci = chunk_index as usize;
    let sess = &mut state.sessions[i];
    sess.data.write_at(offset as usize, payload);
    sess.received[ci] = Some(chunk_hash.to_owned());
    proof {
        assert(sess.inv());
        assert(sess@.fingerprints =~= sv.fingerprints.insert(chunk_index as int, chunk_hash@));
        assert(sess@.data =~= spliced(
            sv.data,
            chunk_offset(sv.chunk_size, chunk_index as nat),
            payload@,
        ));
        assert(sess@ == chunk_written(sv, chunk_index, chunk_hash@, payload@));
        lemma_lookup_update(pre_sessions, i as int, *sess, upload_id@);
        assert forall|other: Seq<char>| other != upload_id@ implies lookup(
            pre_sessions.update(i as int, *sess),
            other,
        ) == lookup(pre_sessions, other) by {
            lemma_lookup_update(pre_sessions, i as int, *sess, other);
        }
        assert forall|k: int|
            0 <= k < pre_sessions.update(i as int, *sess).len() implies (#[trigger] pre_sessions.update(
            i as int,
            *sess,
        )[k]).inv() by {
            if k != i {
                assert(pre_sessions[k].inv());
            }
        }
    }
    Ok(())
}

/// Receive one chunk as standard base64 text. The prechecks run first, so a
/// safe retry succeeds without decoding; a fresh chunk is decoded, checked
/// for the length its index demands, and written at its offset.
pub fn upload_chunk(
    state: &mut UploadState,
    upload_id: &str,
    chunk_index: u64,
    total_chunks: u64,
    chunk_hash: &str,
    chunk_data_base64: &str,
) -> (r: Result<(), UploadError>)
    requires
        old(state).wf(),
    ensures
        final(state).wf(),
        r == ({
            match chunk_precheck(old(state).spec_get(upload_id@), chunk_index, total_chunks,
                chunk_hash@) {
                Err(e) => Err(e),
                Ok(true) => Ok(()),
                Ok(false) => match base64_decoding(chunk_data_base64@) {
                    None => Err(UploadError::ChunkNotBase64),
                    Some(payload) => write_chunk_result(old(state).spec_get(upload_id@),
                        chunk_index, total_chunks, chunk_hash@, payload),
                },
            }
        }),
        ({
            match base64_decoding(chunk_data_base64@) {
                Some(payload) => {
                    if chunk_fresh_write(old(state).spec_get(upload_id@), chunk_index,
                        total_chunks, chunk_hash@, payload) {
                        &&& final(state).spec_get(upload_id@) == Some(
                            chunk_written(old(state).spec_get(upload_id@)->0, chunk_index,
                                chunk_hash@, payload),
                        )
                        &&& forall|other: Seq<char>|
                            other != upload_id@ ==> final(state).spec_get(other) == old(
                                state,
                            ).spec_get(other)
                    } else {
                        *final(state) == *old(state)
                    }
                },
                None => *final(state) == *old(state),
            }
        }),
{
    match chunk_precheck_exec(state, upload_id, chunk_index, total_chunks, chunk_hash) {
        Err(e) => Err(e),
        Ok(true) => Ok(()),
        Ok(false) => match decode_standard_base64(chunk_data_base64) {
            None => Err(UploadError::ChunkNotBase64),
            Some(bytes) => write_chunk(
                state,
                upload_id,
                chunk_index,
                total_chunks,
                chunk_hash,
                &bytes,
            ),
        },
    }
}

/// Whether `finish_upload` succeeds: exactly when the session exists and
/// every chunk index in `[0, total_chunks)` has been received.
pub open spec fn finish_upload_result(session: Option<SessionView>) -> Result<(), UploadError> {
    match session {
        None => Err(UploadError::SessionNotFound),
        Some(sv) => if !sv.complete() {
            Err(UploadError::UploadIncomplete)
        } else {
            Ok(())
        },
    }
}

/// Mark the session finished. Succeeds exactly when every chunk index has
/// been received; fails on any gap, changing nothing. A pure metadata
/// transition: the destination bytes are not touched.
pub fn finish_upload(state: &mut UploadState, upload_id: &str) -> (r: Result<(), UploadError>)
    requires
        old(state).wf(),
    ensures
        final(state).wf(),
        r == finish_upload_result(old(state).spec_get(upload_id@)),
        r is Err ==> *final(state) == *old(state),
        r is Ok ==> final(state).spec_get(upload_id@) == Some(
            (SessionView { completed: true, ..old(state).spec_get(upload_id@)->0 }),
        ),
        forall|other: Seq<char>|
            other != upload_id@ ==> final(state).spec_get(other) == old(state).spec_get(other),
{
    let i = match state.find(upload_id) {
        None => {
            return Err(UploadError::SessionNotFound);
        },
        Some(i) => i,
    };
    let ghost pre_sessions = state.sessions@;
    let ghost sv = state.spec_get(upload_id@)->0;
    let n = state.sessions[i].received.len();
    let mut k: usize = 0;
    while k < n
        invariant
            k <= n,
            *state == *old(state),
            old(state).wf(),
            i < state.sessions@.len(),
            n == state.sessions@[i as int].received@.len(),
            old(state).spec_get(upload_id@) == Some(state.sessions@[i as int]@),
            forall|t: int| 0 <= t < k ==> state.sessions@[i as int].received@[t] is Some,
        decreases n - k,
    {
        if state.sessions[i].received[k].is_none() {
            proof {
                let sess_at = state.sessions@[i as int];
                assert(sess_at.inv());
                assert(!sess_at@.fingerprints.dom().contains(k as int));
                assert(!sess_at@.complete());
            }
            return Err(UploadError::UploadIncomplete);
        }
        k = k + 1;
    }
    let sess = &mut state.sessions[i];
    sess.completed = true;
    proof {
        assert(sess.inv());
        assert(sess@.fingerprints =~= sv.fingerprints);
        assert(sess@ == (SessionView { completed: true, ..sv }));
        lemma_lookup_update(pre_sessions, i as int, *sess, upload_id@);
        assert forall|other: Seq<char>| other != upload_id@ implies lookup(
            pre_sessions.update(i as int, *sess),
            other,
        ) == lookup(pre_sessions, other) by {
            lemma_lookup_update(pre_sessions, i as int, *sess, other);
        }
        assert forall|t: int|
            0 <= t < pre_sessions.update(i as int, *sess).len() implies (#[trigger] pre_sessions.update(
            i as int,
            *sess,
        )[t]).inv() by {
            if t != i {
                assert(pre_sessions[t].inv());
            }
        }
    }
    Ok(())
}

/// The session list after removing the element at `m`: its id maps to
/// nothing, every other id is unaffected.
proof fn lemma_lookup_remove(s: Seq<UploadSession>, m: int, id: Seq<char>)
    requires
        ids_unique(s),
        0 <= m < s.len(),
    ensures
        ids_unique(s.remove(m)),
        lookup(s.remove(m), id) == if id == s[m].upload_id@ {
            None
        } else {
            lookup(s, id)
        },
{
    let post = s.remove(m);
    s.remove_ensures(m);
    assert forall|i: int, j: int| 0 <= i < j < post.len() implies #[trigger] post[i].upload_id@
        != #[trigger] post[j].upload_id@ by {
        let pi = if i < m {
            i
        } else {
            i + 1
        };
        let pj = if j < m {
            j
        } else {
            j + 1
        };
        assert(post[i] == s[pi] && post[j] == s[pj]);
        assert(s[pi].upload_id@ != s[pj].upload_id@);
    }
    lemma_lookup_present(post, id);
    if id == s[m].upload_id@ {
        match lookup(post, id) {
            Some(v) => {
                let i = choose|i: int|
                    0 <= i < post.len() && #[trigger] post[i].upload_id@ == id && v == post[i]@;
                let pi = if i < m {
                    i
                } else {
                    i + 1
                };
                assert(post[i] == s[pi]);
                assert(s[pi].upload_id@ == s[m].upload_id@ && pi != m);
                if pi < m {
                    assert(s[pi].upload_id@ != s[m].upload_id@);
                } else {
                    assert(s[m].upload_id@ != s[pi].upload_id@);
                }
                assert(false);
            },
            None => {},
        }
    } else {
        lemma_lookup_present(s, id);
        match lookup(s, id) {
            Some(v) => {
                let i = choose|i: int|
                    0 <= i < s.len() && #[trigger] s[i].upload_id@ == id && v == s[i]@;
                let qi = if i < m {
                    i
                } else {
                    i - 1
                };
                assert(post[qi] == s[i]);
                lemma_lookup_at(post, qi);
            },
            None => {
                match lookup(post, id) {
                    Some(w) => {
                        let i = choose|i: int|
                            0 <= i < post.len() && #[trigger] post[i].upload_id@ == id && w
                                == post[i]@;
                        let pi = if i < m {
                            i
                        } else {
                            i + 1
                        };
                        assert(post[i] == s[pi]);
                        assert(s[pi].upload_id@ == id);
                        assert(false);
                    },
                    None => {},
                }
            },
        }
    }
}

/// Drop the session under `upload_id` and its destination, if one exists.
/// Idempotent by design: it never fails, and an unknown id is a no-op.
pub fn cancel_upload(state: &mut UploadState, upload_id: &str) -> (r: Result<(), UploadError>)
    requires
        old(state).wf(),
    ensures
        final(state).wf(),
        r is Ok,
        final(state).spec_get(upload_id@) is None,
        forall|other: Seq<char>|
            other != upload_id@ ==> final(state).spec_get(other) == old(state).spec_get(other),
{
    let i = match state.find(upload_id) {
        None => {
            return Ok(());
        },
        Some(i) => i,
    };
    let ghost pre_sessions = state.sessions@;
    let _ = state.sessions.remove(i);
    proof {
        lemma_lookup_remove(pre_sessions, i as int, upload_id@);
        assert forall|other: Seq<char>| other != upload_id@ implies lookup(
            pre_sessions.remove(i as int),
            other,
        ) == lookup(pre_sessions, other) by {
            lemma_lookup_remove(pre_sessions, i as int, other);
        }
        pre_sessions.remove_ensures(i as int);
        assert forall|t: int|
            0 <= t < pre_sessions.remove(i as int).len() implies (#[trigger] pre_sessions.remove(
            i as int,
        )[t]).inv() by {
            let pt = if t < i {
                t
            } else {
                t + 1
            };
            assert(pre_sessions.remove(i as int)[t] == pre_sessions[pt]);
            assert(pre_sessions[pt].inv());
        }
    }
    Ok(())
}

/// Remove the upload under `upload_id`; the same operation as
/// `cancel_upload`.
pub fn delete_upload(state: &mut UploadState, upload_id: &str) -> (r: Result<(), UploadError>)
    requires
        old(state).wf(),
    ensures
        final(state).wf(),
        r is Ok,
        final(state).spec_get(upload_id@) is None,
        forall|other: Seq<char>|
            other != upload_id@ ==> final(state).spec_get(other) == old(state).spec_get(other),
{
    cancel_upload(state, upload_id)
}

/// The destination bytes assembled so far for the session under
/// `upload_id`, if one exists.
pub fn session_bytes(state: &UploadState, upload_id: &str) -> (r: Option<Vec<u8>>)
    requires
        state.wf(),
    ensures
        match state.spec_get(upload_id@) {
            Some(sv) => r matches Some(bytes) && bytes@ == sv.data,
            None => r is None,
        },
{
    let i = match state.find(upload_id) {
        None => {
            return None;
        },
        Some(i) => i,
    };
    let src = state.sessions[i].data.as_bytes();
    let n = src.len();
    let mut out: Vec<u8> = Vec::new();
    let mut k: usize = 0;
    while k < n
        invariant
            k <= n,
            n == src@.len(),
            out@ == src@.subrange(0, k as int),
        decreases n - k,
    {
        out.push(src[k]);
        proof {
            assert(out@ =~= src@.subrange(0, k as int + 1));
        }
        k = k + 1;
    }
    proof {
        assert(out@ =~= src@);
    }
    Some(out)
}

/// Whether the session under `upload_id` has been finished, if one exists.
pub fn upload_completed(state: &UploadState, upload_id: &str) -> (r: Option<bool>)
    requires
        state.wf(),
    ensures
        match state.spec_get(upload_id@) {
            Some(sv) => r == Some(sv.completed),
            None => r is None,
        },
{
    match state.find(upload_id) {
        None => None,
        Some(i) => Some(state.sessions[i].completed),
    }
}

/// Two session lists that agree on every element that carries `id` agree on
/// its lookup; specialised here to a list and an extension of it by one
/// element with a different id.
proof fn lemma_lookup_unchanged_extend(pre: Seq<UploadSession>, post: Seq<UploadSession>, id: Seq<char>)
    requires
        post.len() == pre.len() + 1,
        forall|i: int| 0 <= i < pre.len() ==> post[i] == pre[i],
        post[post.len() - 1].upload_id@ != id,
    ensures
        lookup(post, id) == lookup(pre, id),
    decreases pre.len(),
{
    if pre.len() == 0 {
        assert(post.len() == 1);
    } else {
        if pre[0].upload_id@ == id {
        } else {
            lemma_lookup_unchanged_extend(pre.drop_first(), post.drop_first(), id);
        }
    }
}

} // verus!
