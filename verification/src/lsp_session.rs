//! The documents that one language server is kept in step with: a bounded
//! registry that forgets the least recently active document first.
use vstd::prelude::*;

use crate::lsp::DocumentVersion;
use crate::lsp_ui::{diagnostic_uri_is_valid, published_uri_is_valid};
use crate::recency::{
    first_of, lemma_first, lemma_ordered_prefix, lemma_rank, lemma_rank_bound,
    lemma_rank_without, ordered_by, rank,
};
use crate::text::{copy_text, same_text};

verus! {

/// Maximum file-backed editor documents synchronized with one service.
pub const MAX_SYNCHRONIZED_DOCUMENTS: usize = 64;

/// Whether safety bounds have made a service-side view incomplete.
///
/// `Partial` is deliberately sticky for the life of a registry or cache. Once
/// an item has been evicted or a publication has been truncated, the owner
/// cannot prove that its view is complete until it clears state.
#[derive(Clone, Copy, Debug, PartialEq, Eq, Structural)]
pub enum RetentionStatus {
    Complete,
    Partial,
}

impl Default for RetentionStatus {
    fn default() -> (status: Self)
        ensures
            status == RetentionStatus::Complete,
    {
        RetentionStatus::Complete
    }
}

impl RetentionStatus {
    /// Whether something was lost.
    pub fn is_partial(self) -> (yes: bool)
        ensures
            yes == (self is Partial),
    {
        match self {
            RetentionStatus::Partial => true,
            RetentionStatus::Complete => false,
        }
    }
}

/// Synchronization metadata for one file-backed editor document.
#[derive(Debug, PartialEq, Eq)]
pub struct SynchronizedDocument {
    pub editor_id: u64,
    pub uri: String,
    pub version: DocumentVersion,
    pub state_id: u64,
    pub saved_state_id: Option<u64>,
    /// Monotonic document-local count of successful explicit saves.
    pub save_generation: u64,
    /// Registry-local recency. Larger values are more recent.
    pub activity_ordinal: u64,
}

/// The content of a [`SynchronizedDocument`].
#[verifier::ext_equal]
pub struct Entry {
    pub editor_id: u64,
    pub uri: Seq<char>,
    pub version: DocumentVersion,
    pub state_id: u64,
    pub saved_state_id: Option<u64>,
    pub save_generation: u64,
    pub activity: u64,
}

impl View for SynchronizedDocument {
    type V = Entry;

    open spec fn view(&self) -> Entry {
        Entry {
            editor_id: self.editor_id,
            uri: self.uri@,
            version: self.version,
            state_id: self.state_id,
            saved_state_id: self.saved_state_id,
            save_generation: self.save_generation,
            activity: self.activity_ordinal,
        }
    }
}

impl SynchronizedDocument {
    /// A document that was not active yet.
    pub fn new(
        editor_id: u64,
        uri: &str,
        version: DocumentVersion,
        state_id: u64,
        saved_state_id: Option<u64>,
        save_generation: u64,
    ) -> (document: Self)
        ensures
            document@ == (Entry {
                editor_id,
                uri: uri@,
                version,
                state_id,
                saved_state_id,
                save_generation,
                activity: 0,
            }),
    {
        SynchronizedDocument {
            editor_id,
            uri: copy_text(uri),
            version,
            state_id,
            saved_state_id,
            save_generation,
            activity_ordinal: 0,
        }
    }

    /// Monotonic registry-local recency. Larger values are more recent.
    pub fn activity_ordinal(&self) -> (ordinal: u64)
        ensures
            ordinal == self@.activity,
    {
        self.activity_ordinal
    }
}

/// Why a synchronized document could not be admitted.
#[derive(Clone, Copy, Debug, PartialEq, Eq, Structural)]
pub enum DocumentInsertError {
    NonFileUri,
    DuplicateEditorId,
    DuplicateUri,
}

/// The words for an admission error.
pub open spec fn insert_error_words(error: DocumentInsertError) -> Seq<char> {
    match error {
        DocumentInsertError::NonFileUri =>
            "synchronized documents require a bounded, control-free local file URI"@,
        DocumentInsertError::DuplicateEditorId => "editor id is already synchronized"@,
        DocumentInsertError::DuplicateUri => "document URI is already synchronized"@,
    }
}

impl DocumentInsertError {
    /// What the error says.
    pub fn describe(&self) -> (words: String)
        ensures
            words@ == insert_error_words(*self),
    {
        copy_text(
            match self {
                DocumentInsertError::NonFileUri =>
                    "synchronized documents require a bounded, control-free local file URI",
                DocumentInsertError::DuplicateEditorId => "editor id is already synchronized",
                DocumentInsertError::DuplicateUri => "document URI is already synchronized",
            },
        )
    }
}

/// Result of admitting a newly active synchronized document.
#[derive(Debug, PartialEq, Eq)]
pub struct DocumentInsertReport {
    /// Least-recently-active document removed to make room, if any. The caller
    /// should send `textDocument/didClose` for this document.
    pub evicted: Option<SynchronizedDocument>,
    /// Registry-wide completeness after this admission.
    pub retention: RetentionStatus,
}

impl DocumentInsertReport {
    /// Whether another document had to leave.
    pub fn evicted(&self) -> (yes: bool)
        ensures
            yes == (self.evicted is Some),
    {
        self.evicted.is_some()
    }

    /// Whether the registry is incomplete.
    pub fn is_partial(&self) -> (yes: bool)
        ensures
            yes == (self.retention is Partial),
    {
        self.retention.is_partial()
    }
}

/// The content of an optional document.
pub open spec fn entry_option(document: Option<SynchronizedDocument>) -> Option<Entry> {
    match document {
        Some(d) => Some(d@),
        None => None,
    }
}

/// The content of an optional reference to a document.
pub open spec fn entry_at(document: Option<&SynchronizedDocument>) -> Option<Entry> {
    match document {
        Some(d) => Some(d@),
        None => None,
    }
}

/// The contents of documents.
pub open spec fn entries_of(documents: Seq<SynchronizedDocument>) -> Seq<Entry> {
    documents.map_values(|document: SynchronizedDocument| document@)
}

/// Bounded synchronized-document registry for one language-server service.
#[derive(Debug)]
pub struct SynchronizedDocumentRegistry {
    pub documents: Vec<SynchronizedDocument>,
    pub active_editor_id: Option<u64>,
    pub next_activity_ordinal: u64,
    pub revision: u128,
    pub retention: RetentionStatus,
}

/// The content of a registry.
#[verifier::ext_equal]
pub struct RegistryState {
    pub documents: Seq<Entry>,
    pub active: Option<u64>,
    pub next: u64,
    pub revision: u128,
    pub retention: RetentionStatus,
}

impl View for SynchronizedDocumentRegistry {
    type V = RegistryState;

    open spec fn view(&self) -> RegistryState {
        RegistryState {
            documents: entries_of(self.documents@),
            active: self.active_editor_id,
            next: self.next_activity_ordinal,
            revision: self.revision,
            retention: self.retention,
        }
    }
}

/// Which of two documents was active longer ago; of two that were active at
/// the same time, the one with the smaller editor id.
pub open spec fn less_active() -> spec_fn(Entry, Entry) -> bool {
    |a: Entry, b: Entry|
        a.activity < b.activity || (a.activity == b.activity && a.editor_id < b.editor_id)
}

/// Whether no editor id and no URI occurs twice.
pub open spec fn distinct_documents(documents: Seq<Entry>) -> bool {
    &&& forall|i: int, j: int|
        0 <= i < j < documents.len() ==> (#[trigger] documents[i]).editor_id != (
        #[trigger] documents[j]).editor_id
    &&& forall|i: int, j: int|
        0 <= i < j < documents.len() ==> (#[trigger] documents[i]).uri != (
        #[trigger] documents[j]).uri
}

/// Whether the ordinals of documents start at one and no two are equal.
pub open spec fn ordinals_hold(documents: Seq<Entry>) -> bool {
    &&& forall|i: int| 0 <= i < documents.len() ==> 1 <= (#[trigger] documents[i]).activity
    &&& forall|i: int, j: int|
        0 <= i < j < documents.len() ==> (#[trigger] documents[i]).activity != (
        #[trigger] documents[j]).activity
}

/// Whether the document of an editor was active after all others.
pub open spec fn is_latest(documents: Seq<Entry>, editor_id: u64) -> bool {
    forall|i: int, j: int|
        0 <= i < documents.len() && 0 <= j < documents.len() && (
        #[trigger] documents[i]).editor_id == editor_id && (#[trigger] documents[j]).editor_id
            != editor_id ==> documents[j].activity < documents[i].activity
}

/// What always holds of a registry: it is bounded, its identities are distinct
/// and valid, so are its ordinals, the active editor is registered and the most
/// recent one, and the next ordinal is above all others.
pub open spec fn registry_holds(state: RegistryState) -> bool {
    &&& ordinals_hold(state.documents)
    &&& state.active matches Some(id) ==> is_latest(state.documents, id)
    &&& state.documents.len() <= MAX_SYNCHRONIZED_DOCUMENTS
    &&& distinct_documents(state.documents)
    &&& forall|i: int|
        0 <= i < state.documents.len() ==> published_uri_is_valid(
            (#[trigger] state.documents[i]).uri,
        )
    &&& forall|i: int|
        0 <= i < state.documents.len() ==> (#[trigger] state.documents[i]).activity < state.next
    &&& state.active matches Some(id) ==> editor_index(state.documents, id) < state.documents.len()
}

/// The index of the document of an editor, or the length where there is none.
pub open spec fn editor_index(documents: Seq<Entry>, editor_id: u64) -> int
    decreases documents.len(),
{
    if documents.len() == 0 {
        0
    } else if documents[0].editor_id == editor_id {
        0
    } else {
        1 + editor_index(documents.drop_first(), editor_id)
    }
}

/// The index of the document at a URI, or the length where there is none.
pub open spec fn uri_index(documents: Seq<Entry>, uri: Seq<char>) -> int
    decreases documents.len(),
{
    if documents.len() == 0 {
        0
    } else if documents[0].uri == uri {
        0
    } else {
        1 + uri_index(documents.drop_first(), uri)
    }
}

/// The item at an index, where there is one.
pub open spec fn at<T>(items: Seq<T>, index: int) -> Option<T> {
    if 0 <= index < items.len() {
        Some(items[index])
    } else {
        None
    }
}

/// The index of an editor's document, in other words: it is the first one.
pub proof fn lemma_editor_index(documents: Seq<Entry>, editor_id: u64)
    ensures
        0 <= editor_index(documents, editor_id) <= documents.len(),
        editor_index(documents, editor_id) < documents.len() ==> documents[editor_index(
            documents,
            editor_id,
        )].editor_id == editor_id,
        forall|k: int|
            0 <= k < editor_index(documents, editor_id) ==> (#[trigger] documents[k]).editor_id
                != editor_id,
    decreases documents.len(),
{
    if documents.len() > 0 && documents[0].editor_id != editor_id {
        let rest = documents.drop_first();
        lemma_editor_index(rest, editor_id);
        assert forall|k: int| 0 <= k < editor_index(documents, editor_id) implies (
        #[trigger] documents[k]).editor_id != editor_id by {
            if k > 0 {
                assert(rest[k - 1] == documents[k]);
            }
        }
    }
}

/// The index of a URI's document, in other words: it is the first one.
pub proof fn lemma_uri_index(documents: Seq<Entry>, uri: Seq<char>)
    ensures
        0 <= uri_index(documents, uri) <= documents.len(),
        uri_index(documents, uri) < documents.len() ==> documents[uri_index(documents, uri)].uri
            == uri,
        forall|k: int|
            0 <= k < uri_index(documents, uri) ==> (#[trigger] documents[k]).uri != uri,
    decreases documents.len(),
{
    if documents.len() > 0 && documents[0].uri != uri {
        let rest = documents.drop_first();
        lemma_uri_index(rest, uri);
        assert forall|k: int| 0 <= k < uri_index(documents, uri) implies (
        #[trigger] documents[k]).uri != uri by {
            if k > 0 {
                assert(rest[k - 1] == documents[k]);
            }
        }
    }
}

/// A number after one more event, which stays at the largest number.
pub open spec fn advanced(revision: u128) -> u128 {
    if revision == u128::MAX {
        revision
    } else {
        (revision + 1) as u128
    }
}

/// Documents whose ordinals are their ranks, from one on.
pub open spec fn rebased(documents: Seq<Entry>) -> Seq<Entry> {
    Seq::new(
        documents.len(),
        |i: int|
            Entry {
                activity: (rank(documents, less_active(), documents[i]) + 1) as u64,
                ..documents[i]
            },
    )
}

/// A registry whose next ordinal can be given out: ordinals start again from
/// the ranks where they have run out.
pub open spec fn ready(state: RegistryState) -> RegistryState {
    if state.next == 0 || state.next == u64::MAX {
        RegistryState {
            documents: rebased(state.documents),
            next: (state.documents.len() + 1) as u64,
            ..state
        }
    } else {
        state
    }
}

/// A registry after its next ordinal was given out.
pub open spec fn ticked(state: RegistryState) -> RegistryState {
    RegistryState { next: (ready(state).next + 1) as u64, ..ready(state) }
}

/// A registry without the document at an index.
pub open spec fn without_document(state: RegistryState, index: int) -> RegistryState {
    RegistryState {
        documents: state.documents.remove(index),
        active: if state.active == Some(state.documents[index].editor_id) {
            None
        } else {
            state.active
        },
        revision: advanced(state.revision),
        ..state
    }
}

/// Why a document is not admitted.
pub open spec fn admission_error(state: RegistryState, document: Entry) -> Option<
    DocumentInsertError,
> {
    if !published_uri_is_valid(document.uri) {
        Some(DocumentInsertError::NonFileUri)
    } else if editor_index(state.documents, document.editor_id) < state.documents.len() {
        Some(DocumentInsertError::DuplicateEditorId)
    } else if uri_index(state.documents, document.uri) < state.documents.len() {
        Some(DocumentInsertError::DuplicateUri)
    } else {
        None
    }
}

/// The document that leaves a full registry.
pub open spec fn leaving(state: RegistryState) -> Option<Entry> {
    if state.documents.len() >= MAX_SYNCHRONIZED_DOCUMENTS {
        Some(state.documents[first_of(state.documents, less_active())])
    } else {
        None
    }
}

/// A registry with room for one more document.
pub open spec fn with_room(state: RegistryState) -> RegistryState {
    if state.documents.len() >= MAX_SYNCHRONIZED_DOCUMENTS {
        RegistryState {
            retention: RetentionStatus::Partial,
            ..without_document(state, first_of(state.documents, less_active()))
        }
    } else {
        state
    }
}

/// A registry with one more document, which is the active one.
pub open spec fn admitted(state: RegistryState, document: Entry) -> RegistryState {
    let room = with_room(state);
    RegistryState {
        documents: ticked(room).documents.push(
            Entry { activity: ready(room).next, ..document },
        ),
        active: Some(document.editor_id),
        revision: advanced(room.revision),
        ..ticked(room)
    }
}

/// A registry after the revisions of a document were recorded.
pub open spec fn updated(
    state: RegistryState,
    index: int,
    version: DocumentVersion,
    state_id: u64,
    saved_state_id: Option<u64>,
    save_generation: u64,
) -> RegistryState {
    let document = Entry {
        version,
        state_id,
        saved_state_id,
        save_generation,
        ..state.documents[index]
    };
    if document == state.documents[index] {
        state
    } else {
        RegistryState {
            documents: state.documents.update(index, document),
            revision: advanced(state.revision),
            ..state
        }
    }
}

/// A registry after an editor got the focus.
pub open spec fn focused(state: RegistryState, index: int) -> RegistryState {
    let ready_state = ready(state);
    RegistryState {
        documents: ready_state.documents.update(
            index,
            Entry { activity: ready_state.next, ..ready_state.documents[index] },
        ),
        active: Some(state.documents[index].editor_id),
        ..ticked(state)
    }
}

/// A registry after it was cleared.
pub open spec fn cleared(state: RegistryState) -> RegistryState {
    RegistryState {
        documents: Seq::empty(),
        active: None,
        next: 1,
        revision: if state.documents.len() > 0 {
            advanced(state.revision)
        } else {
            state.revision
        },
        retention: RetentionStatus::Complete,
    }
}

/// Recency orders the documents of a registry.
pub proof fn lemma_activity_orders(documents: Seq<Entry>)
    requires
        distinct_documents(documents),
    ensures
        ordered_by(documents, less_active()),
{
    let before = less_active();
    assert forall|i: int, j: int|
        0 <= i < documents.len() && 0 <= j < documents.len() && i != j implies (before(
        #[trigger] documents[i],
        #[trigger] documents[j],
    ) || before(documents[j], documents[i])) by {
        if i < j {
            assert(documents[i].editor_id != documents[j].editor_id);
        } else {
            assert(documents[j].editor_id != documents[i].editor_id);
        }
    }
}

/// New ordinals keep the order of the documents.
pub proof fn law_rebase_keeps_order(documents: Seq<Entry>)
    requires
        distinct_documents(documents),
        documents.len() < u64::MAX,
    ensures
        rebased(documents).len() == documents.len(),
        forall|i: int|
            #![trigger rebased(documents)[i]]
            0 <= i < documents.len() ==> {
                &&& 1 <= rebased(documents)[i].activity <= documents.len()
                &&& rebased(documents)[i] == (Entry {
                    activity: rebased(documents)[i].activity,
                    ..documents[i]
                })
            },
        forall|i: int, j: int|
            #![trigger rebased(documents)[i], rebased(documents)[j]]
            0 <= i < documents.len() && 0 <= j < documents.len() ==> (less_active()(
                documents[i],
                documents[j],
            ) <==> rebased(documents)[i].activity < rebased(documents)[j].activity),
{
    let before = less_active();
    let ranked = rebased(documents);
    lemma_activity_orders(documents);
    assert forall|i: int| 0 <= i < documents.len() implies #[trigger] rank(
        documents,
        before,
        documents[i],
    ) < documents.len() by {
        lemma_member_rank(documents, i);
    }
    assert forall|i: int, j: int|
        #![trigger ranked[i], ranked[j]]
        0 <= i < documents.len() && 0 <= j < documents.len() implies (before(
        documents[i],
        documents[j],
    ) <==> ranked[i].activity < ranked[j].activity) by {
        assert(rank(documents, before, documents[i]) < documents.len());
        assert(rank(documents, before, documents[j]) < documents.len());
        if before(documents[i], documents[j]) {
            lemma_rank(documents, before, i, j);
        } else if i != j {
            assert(before(documents[j], documents[i]));
            lemma_rank(documents, before, j, i);
        }
    }
}

proof fn lemma_member_rank(documents: Seq<Entry>, i: int)
    requires
        distinct_documents(documents),
        0 <= i < documents.len(),
    ensures
        rank(documents, less_active(), documents[i]) < documents.len(),
{
    // A document does not come before itself, so one that all others precede
    // still has a rank below their number.
    let item = documents[i];
    let before = less_active();
    lemma_rank_without(documents, before, item, i);
}

/// What always holds still holds after ordinals start again.
pub proof fn lemma_ready(state: RegistryState)
    requires
        registry_holds(state),
    ensures
        registry_holds(ready(state)),
        0 < ready(state).next < u64::MAX,
        ready(state).documents.len() == state.documents.len(),
        forall|i: int|
            #![trigger ready(state).documents[i]]
            0 <= i < state.documents.len() ==> ready(state).documents[i] == (Entry {
                activity: ready(state).documents[i].activity,
                ..state.documents[i]
            }),
{
    if state.next == 0 || state.next == u64::MAX {
        law_rebase_keeps_order(state.documents);
        lemma_same_identities(state.documents, ready(state).documents);
        if let Some(id) = state.active {
            lemma_same_index(state.documents, ready(state).documents, id);
        }
    }
}

proof fn lemma_same_identities(documents: Seq<Entry>, changed: Seq<Entry>)
    requires
        distinct_documents(documents),
        changed.len() == documents.len(),
        forall|i: int|
            0 <= i < documents.len() ==> (#[trigger] changed[i]).editor_id
                == documents[i].editor_id && changed[i].uri == documents[i].uri,
    ensures
        distinct_documents(changed),
{
    assert forall|i: int, j: int| 0 <= i < j < changed.len() implies (
    #[trigger] changed[i]).editor_id != (#[trigger] changed[j]).editor_id by {
        assert(documents[i].editor_id != documents[j].editor_id);
    }
    assert forall|i: int, j: int| 0 <= i < j < changed.len() implies (#[trigger] changed[i]).uri
        != (#[trigger] changed[j]).uri by {
        assert(documents[i].uri != documents[j].uri);
    }
}

proof fn lemma_same_index(documents: Seq<Entry>, changed: Seq<Entry>, id: u64)
    requires
        changed.len() == documents.len(),
        forall|i: int|
            0 <= i < documents.len() ==> (#[trigger] changed[i]).editor_id
                == documents[i].editor_id,
    ensures
        editor_index(changed, id) == editor_index(documents, id),
    decreases documents.len(),
{
    if documents.len() > 0 {
        assert(changed[0].editor_id == documents[0].editor_id);
        if documents[0].editor_id != id {
            assert forall|i: int| 0 <= i < documents.drop_first().len() implies (
            #[trigger] changed.drop_first()[i]).editor_id
                == documents.drop_first()[i].editor_id by {
                assert(changed[i + 1].editor_id == documents[i + 1].editor_id);
            }
            lemma_same_index(documents.drop_first(), changed.drop_first(), id);
        }
    }
}

proof fn lemma_present(documents: Seq<Entry>, id: u64, i: int)
    requires
        0 <= i < documents.len(),
        documents[i].editor_id == id,
    ensures
        editor_index(documents, id) < documents.len(),
{
    lemma_editor_index(documents, id);
}

/// Removing a document keeps what always holds.
proof fn lemma_without_document(state: RegistryState, index: int)
    requires
        registry_holds(state),
        0 <= index < state.documents.len(),
    ensures
        registry_holds(without_document(state, index)),
{
    let old_documents = state.documents;
    let documents = old_documents.remove(index);
    assert forall|i: int| 0 <= i < documents.len() implies #[trigger] documents[i] == (if i < index {
        old_documents[i]
    } else {
        old_documents[i + 1]
    }) by {}
    assert forall|i: int, j: int| 0 <= i < j < documents.len() implies (
    #[trigger] documents[i]).editor_id != (#[trigger] documents[j]).editor_id && documents[i].uri
        != documents[j].uri by {
        let a = if i < index {
            i
        } else {
            i + 1
        };
        let b = if j < index {
            j
        } else {
            j + 1
        };
        assert(old_documents[a].editor_id != old_documents[b].editor_id);
        assert(old_documents[a].uri != old_documents[b].uri);
    }
    if let Some(id) = state.active {
        if id != old_documents[index].editor_id {
            lemma_editor_index(old_documents, id);
            let k = editor_index(old_documents, id);
            let moved = if k < index {
                k
            } else {
                k - 1
            };
            assert(documents[moved].editor_id == id);
            lemma_present(documents, id, moved);
        }
    }
}

/// Admitting a document keeps what always holds.
proof fn lemma_admitted(state: RegistryState, document: Entry)
    requires
        registry_holds(state),
        admission_error(state, document) is None,
    ensures
        registry_holds(admitted(state, document)),
        registry_holds(with_room(state)),
{
    lemma_activity_orders(state.documents);
    if state.documents.len() >= MAX_SYNCHRONIZED_DOCUMENTS {
        lemma_first(state.documents, less_active());
        lemma_without_document(state, first_of(state.documents, less_active()));
    }
    let room = with_room(state);
    assert(registry_holds(room));
    lemma_ready(room);
    lemma_editor_index(state.documents, document.editor_id);
    lemma_uri_index(state.documents, document.uri);
    let documents = admitted(state, document).documents;
    let n = documents.len() - 1;
    assert forall|i: int| 0 <= i < n implies (#[trigger] documents[i]).editor_id
        != document.editor_id && documents[i].uri != document.uri by {
        let before = ready(room).documents[i];
        assert(before.editor_id == room.documents[i].editor_id);
        if state.documents.len() >= MAX_SYNCHRONIZED_DOCUMENTS {
            let gone = first_of(state.documents, less_active());
            if i < gone {
                assert(room.documents[i] == state.documents[i]);
            } else {
                assert(room.documents[i] == state.documents[i + 1]);
            }
        } else {
            assert(room.documents[i] == state.documents[i]);
        }
    }
    assert forall|i: int, j: int| 0 <= i < j < documents.len() implies (
    #[trigger] documents[i]).editor_id != (#[trigger] documents[j]).editor_id && documents[i].uri
        != documents[j].uri by {
        if j < n {
            assert(documents[i] == ready(room).documents[i]);
            assert(documents[j] == ready(room).documents[j]);
        }
    }
    assert forall|i: int| 0 <= i < documents.len() implies published_uri_is_valid(
        (#[trigger] documents[i]).uri,
    ) by {
        if i < n {
            assert(documents[i] == ready(room).documents[i]);
        }
    }
    assert forall|i: int| 0 <= i < documents.len() implies (#[trigger] documents[i]).activity
        < admitted(state, document).next by {
        if i < n {
            assert(documents[i] == ready(room).documents[i]);
        }
    }
    assert(documents[n].editor_id == document.editor_id);
    lemma_present(documents, document.editor_id, n);
}

/// A change of everything but identity keeps what always holds, where recency
/// stays as it is or the document becomes the active one.
proof fn lemma_changed(
    state: RegistryState,
    index: int,
    document: Entry,
    next: u64,
    active: Option<u64>,
)
    requires
        registry_holds(state),
        0 <= index < state.documents.len(),
        document.editor_id == state.documents[index].editor_id,
        document.uri == state.documents[index].uri,
        1 <= document.activity < next,
        state.next <= next,
        (document.activity == state.documents[index].activity && active == state.active) || (
        state.next <= document.activity && active == Some(document.editor_id)),
    ensures
        registry_holds(
            RegistryState {
                documents: state.documents.update(index, document),
                next,
                active,
                ..state
            },
        ),
        editor_index(state.documents.update(index, document), document.editor_id)
            < state.documents.len(),
{
    let documents = state.documents.update(index, document);
    lemma_same_identities(state.documents, documents);
    if let Some(id) = state.active {
        lemma_same_index(state.documents, documents, id);
    }
    assert(documents[index].editor_id == document.editor_id);
    lemma_present(documents, document.editor_id, index);
    assert forall|i: int, j: int| 0 <= i < j < documents.len() implies (
    #[trigger] documents[i]).activity != (#[trigger] documents[j]).activity by {
        assert(state.documents[i].activity != state.documents[j].activity);
        assert(state.documents[i].activity < state.next);
        assert(state.documents[j].activity < state.next);
    }
    if let Some(id) = active {
        assert forall|i: int, j: int|
            0 <= i < documents.len() && 0 <= j < documents.len() && (
            #[trigger] documents[i]).editor_id == id && (#[trigger] documents[j]).editor_id
                != id implies documents[j].activity < documents[i].activity by {
            assert(state.documents[i].editor_id == documents[i].editor_id);
            assert(state.documents[j].editor_id == documents[j].editor_id);
            assert(state.documents[j].activity < state.next);
            if i != index && document.editor_id == id {
                assert(state.documents[i].editor_id != state.documents[index].editor_id);
            }
        }
    }
}

impl Default for SynchronizedDocumentRegistry {
    fn default() -> (registry: Self)
        ensures
            registry@ == (RegistryState {
                documents: Seq::empty(),
                active: None,
                next: 0,
                revision: 0,
                retention: RetentionStatus::Complete,
            }),
            registry_holds(registry@),
    {
        let documents: Vec<SynchronizedDocument> = Vec::new();
        assert(entries_of(documents@) =~= Seq::<Entry>::empty());
        SynchronizedDocumentRegistry {
            documents,
            active_editor_id: None,
            next_activity_ordinal: 0,
            revision: 0,
            retention: RetentionStatus::Complete,
        }
    }
}

impl SynchronizedDocumentRegistry {
    /// A registry without documents.
    pub fn new() -> (registry: Self)
        ensures
            registry@ == (RegistryState {
                documents: Seq::empty(),
                active: None,
                next: 1,
                revision: 0,
                retention: RetentionStatus::Complete,
            }),
            registry_holds(registry@),
    {
        let mut registry = SynchronizedDocumentRegistry::default();
        registry.next_activity_ordinal = 1;
        registry
    }

    /// The number of documents.
    pub fn len(&self) -> (n: usize)
        ensures
            n == self@.documents.len(),
    {
        self.documents.len()
    }

    /// Whether there is no document.
    pub fn is_empty(&self) -> (yes: bool)
        ensures
            yes == (self@.documents.len() == 0),
    {
        self.documents.len() == 0
    }

    /// Whether documents were lost since the registry was last cleared.
    pub fn retention_status(&self) -> (status: RetentionStatus)
        ensures
            status == self@.retention,
    {
        self.retention
    }

    /// Whether documents were lost since the registry was last cleared.
    pub fn is_partial(&self) -> (yes: bool)
        ensures
            yes == (self@.retention is Partial),
    {
        self.retention.is_partial()
    }

    /// Record that an eligible document could not be synchronized without
    /// forcing registry churn. Partial state remains sticky until
    /// [`Self::clear`].
    pub fn mark_partial(&mut self)
        ensures
            final(self)@ == (RegistryState { retention: RetentionStatus::Partial, ..old(self)@ }),
            registry_holds(old(self)@) ==> registry_holds(final(self)@),
    {
        self.retention = RetentionStatus::Partial;
    }

    /// The editor that has the focus.
    pub fn active_editor_id(&self) -> (id: Option<u64>)
        ensures
            id == self@.active,
    {
        self.active_editor_id
    }

    /// Changes whenever synchronized document identity or snapshot metadata
    /// changes. Focus and recency touches deliberately do not advance it.
    pub fn revision(&self) -> (revision: u128)
        ensures
            revision == self@.revision,
    {
        self.revision
    }

    /// The document of the editor that has the focus.
    pub fn active(&self) -> (document: Option<&SynchronizedDocument>)
        ensures
            entry_at(document) == (match self@.active {
                Some(id) => at(self@.documents, editor_index(self@.documents, id)),
                None => None,
            }),
    {
        match self.active_editor_id {
            Some(id) => self.get_by_editor_id(id),
            None => None,
        }
    }

    /// The documents, in the order of their admission.
    pub fn iter(&self) -> (documents: &[SynchronizedDocument])
        ensures
            entries_of(documents@) == self@.documents,
    {
        self.documents.as_slice()
    }

    fn position_of_editor(&self, editor_id: u64) -> (index: Option<usize>)
        ensures
            match index {
                Some(i) => i < self.documents@.len() && i == editor_index(
                    self@.documents,
                    editor_id,
                ),
                None => editor_index(self@.documents, editor_id) == self@.documents.len(),
            },
    {
        let mut i: usize = 0;
        proof {
            lemma_editor_index(self@.documents, editor_id);
        }
        while i < self.documents.len()
            invariant
                i <= self.documents@.len(),
                forall|k: int| 0 <= k < i ==> (#[trigger] self@.documents[k]).editor_id != editor_id,
                i <= editor_index(self@.documents, editor_id) <= self@.documents.len(),
                editor_index(self@.documents, editor_id) < self@.documents.len()
                    ==> self@.documents[editor_index(self@.documents, editor_id)].editor_id
                    == editor_id,
                forall|k: int|
                    0 <= k < editor_index(self@.documents, editor_id) ==> (
                    #[trigger] self@.documents[k]).editor_id != editor_id,
            decreases self.documents@.len() - i,
        {
            assert(self@.documents[i as int] == self.documents@[i as int]@);
            if self.documents[i].editor_id == editor_id {
                return Some(i);
            }
            i += 1;
        }
        None
    }

    fn position_of_uri(&self, uri: &str) -> (index: Option<usize>)
        ensures
            match index {
                Some(i) => i < self.documents@.len() && i == uri_index(self@.documents, uri@),
                None => uri_index(self@.documents, uri@) == self@.documents.len(),
            },
    {
        let mut i: usize = 0;
        proof {
            lemma_uri_index(self@.documents, uri@);
        }
        while i < self.documents.len()
            invariant
                i <= self.documents@.len(),
                forall|k: int| 0 <= k < i ==> (#[trigger] self@.documents[k]).uri != uri@,
                i <= uri_index(self@.documents, uri@) <= self@.documents.len(),
                uri_index(self@.documents, uri@) < self@.documents.len()
                    ==> self@.documents[uri_index(self@.documents, uri@)].uri == uri@,
                forall|k: int|
                    0 <= k < uri_index(self@.documents, uri@) ==> (
                    #[trigger] self@.documents[k]).uri != uri@,
            decreases self.documents@.len() - i,
        {
            assert(self@.documents[i as int] == self.documents@[i as int]@);
            if same_text(self.documents[i].uri.as_str(), uri) {
                return Some(i);
            }
            i += 1;
        }
        None
    }

    /// The document of an editor.
    pub fn get_by_editor_id(&self, editor_id: u64) -> (document: Option<&SynchronizedDocument>)
        ensures
            entry_at(document) == at(self@.documents, editor_index(self@.documents, editor_id)),
    {
        proof {
            lemma_editor_index(self@.documents, editor_id);
        }
        match self.position_of_editor(editor_id) {
            Some(i) => Some(&self.documents[i]),
            None => None,
        }
    }

    /// The document at a URI.
    pub fn get_by_uri(&self, uri: &str) -> (document: Option<&SynchronizedDocument>)
        ensures
            entry_at(document) == at(self@.documents, uri_index(self@.documents, uri@)),
    {
        proof {
            lemma_uri_index(self@.documents, uri@);
        }
        match self.position_of_uri(uri) {
            Some(i) => Some(&self.documents[i]),
            None => None,
        }
    }

    /// Admit a file-backed document and make it the active registry entry.
    ///
    /// Identity collisions are rejected without changing the registry. At
    /// capacity, the least-recently-active existing document is removed before
    /// the new active document is inserted, so the admission cannot evict
    /// itself.
    pub fn insert(&mut self, document: SynchronizedDocument) -> (result: Result<
        DocumentInsertReport,
        DocumentInsertError,
    >)
        requires
            registry_holds(old(self)@),
        ensures
            registry_holds(final(self)@),
            match result {
                Ok(report) => {
                    &&& admission_error(old(self)@, document@) is None
                    &&& final(self)@ == admitted(old(self)@, document@)
                    &&& entry_option(report.evicted) == leaving(old(self)@)
                    &&& report.retention == final(self)@.retention
                },
                Err(error) => {
                    &&& admission_error(old(self)@, document@) == Some(error)
                    &&& final(self)@ == old(self)@
                },
            },
    {
        if !diagnostic_uri_is_valid(document.uri.as_str()) {
            return Err(DocumentInsertError::NonFileUri);
        }
        if self.position_of_editor(document.editor_id).is_some() {
            return Err(DocumentInsertError::DuplicateEditorId);
        }
        if self.position_of_uri(document.uri.as_str()).is_some() {
            return Err(DocumentInsertError::DuplicateUri);
        }
        proof {
            lemma_admitted(self@, document@);
        }
        let ghost start = self@;
        let mut evicted: Option<SynchronizedDocument> = None;
        if self.documents.len() >= MAX_SYNCHRONIZED_DOCUMENTS {
            evicted = Some(self.remove_lru_document());
            self.retention = RetentionStatus::Partial;
        }
        assert(self@ =~= with_room(start));
        let mut document = document;
        let ghost room = self@;
        document.activity_ordinal = self.allocate_activity_ordinal();
        self.active_editor_id = Some(document.editor_id);
        let ghost before = self.documents@;
        self.documents.push(document);
        assert(entries_of(self.documents@) =~= entries_of(before).push(document@));
        self.revision = self.revision.saturating_add(1);
        assert(self@ =~= admitted(start, document@));
        Ok(DocumentInsertReport { evicted, retention: self.retention })
    }

    /// Update synchronization revisions without changing identity or recency.
    ///
    /// Activity is intentionally separate: frequent changes should not make a
    /// background document look user-active. Call [`Self::mark_active`] when
    /// editor focus changes.
    pub fn update(
        &mut self,
        editor_id: u64,
        version: DocumentVersion,
        state_id: u64,
        saved_state_id: Option<u64>,
        save_generation: u64,
    ) -> (known: bool)
        requires
            registry_holds(old(self)@),
        ensures
            registry_holds(final(self)@),
            known == (editor_index(old(self)@.documents, editor_id) < old(self)@.documents.len()),
            final(self)@ == (if known {
                updated(
                    old(self)@,
                    editor_index(old(self)@.documents, editor_id),
                    version,
                    state_id,
                    saved_state_id,
                    save_generation,
                )
            } else {
                old(self)@
            }),
    {
        let index = match self.position_of_editor(editor_id) {
            Some(index) => index,
            None => {
                return false;
            },
        };
        let ghost start = self@;
        let ghost before = self.documents@;
        let current = &self.documents[index];
        let same_saved = match (current.saved_state_id, saved_state_id) {
            (Some(a), Some(b)) => a == b,
            (None, None) => true,
            _ => false,
        };
        assert(start.documents[index as int] == before[index as int]@);
        if current.version != version || current.state_id != state_id || !same_saved
            || current.save_generation != save_generation {
            let document = &mut self.documents[index];
            document.version = version;
            document.state_id = state_id;
            document.saved_state_id = saved_state_id;
            document.save_generation = save_generation;
            self.revision = self.revision.saturating_add(1);
            proof {
                let changed = self.documents@[index as int]@;
                assert(entries_of(self.documents@) =~= start.documents.update(
                    index as int,
                    changed,
                ));
                lemma_changed(start, index as int, changed, start.next, start.active);
            }
        }
        true
    }

    /// Mark an existing synchronized editor as active and most recently used.
    pub fn mark_active(&mut self, editor_id: u64) -> (known: bool)
        requires
            registry_holds(old(self)@),
        ensures
            registry_holds(final(self)@),
            known == (editor_index(old(self)@.documents, editor_id) < old(self)@.documents.len()),
            final(self)@ == (if known {
                focused(old(self)@, editor_index(old(self)@.documents, editor_id))
            } else {
                old(self)@
            }),
    {
        let index = match self.position_of_editor(editor_id) {
            Some(index) => index,
            None => {
                return false;
            },
        };
        let ghost start = self@;
        proof {
            lemma_editor_index(start.documents, editor_id);
            lemma_ready(start);
        }
        let ordinal = self.allocate_activity_ordinal();
        let ghost before = self@;
        assert(before.documents[index as int].editor_id == editor_id);
        self.documents[index].activity_ordinal = ordinal;
        self.active_editor_id = Some(editor_id);
        proof {
            let changed = self.documents@[index as int]@;
            assert(entries_of(self.documents@) =~= before.documents.update(index as int, changed));
            lemma_changed(
                ready(start),
                index as int,
                changed,
                before.next,
                Some(editor_id),
            );
            assert(self@ =~= focused(start, index as int));
        }
        true
    }

    /// Forgets the document of an editor.
    pub fn remove_by_editor_id(&mut self, editor_id: u64) -> (document: Option<
        SynchronizedDocument,
    >)
        requires
            registry_holds(old(self)@),
        ensures
            registry_holds(final(self)@),
            ({
                let index = editor_index(old(self)@.documents, editor_id);
                &&& entry_option(document) == at(old(self)@.documents, index)
                &&& final(self)@ == (if index < old(self)@.documents.len() {
                    without_document(old(self)@, index)
                } else {
                    old(self)@
                })
            }),
    {
        proof {
            lemma_editor_index(self@.documents, editor_id);
        }
        match self.position_of_editor(editor_id) {
            Some(index) => Some(self.remove_at(index)),
            None => None,
        }
    }

    /// Forgets the document at a URI.
    pub fn remove_by_uri(&mut self, uri: &str) -> (document: Option<SynchronizedDocument>)
        requires
            registry_holds(old(self)@),
        ensures
            registry_holds(final(self)@),
            ({
                let index = uri_index(old(self)@.documents, uri@);
                &&& entry_option(document) == at(old(self)@.documents, index)
                &&& final(self)@ == (if index < old(self)@.documents.len() {
                    without_document(old(self)@, index)
                } else {
                    old(self)@
                })
            }),
    {
        proof {
            lemma_uri_index(self@.documents, uri@);
        }
        match self.position_of_uri(uri) {
            Some(index) => Some(self.remove_at(index)),
            None => None,
        }
    }

    /// Remove every document, reset activity numbering, and restore a complete
    /// empty view. Returned documents let the caller send bounded `didClose`
    /// notifications if the service is still alive.
    pub fn clear(&mut self) -> (documents: Vec<SynchronizedDocument>)
        ensures
            registry_holds(final(self)@),
            entries_of(documents@) == old(self)@.documents,
            final(self)@ == cleared(old(self)@),
    {
        self.active_editor_id = None;
        self.next_activity_ordinal = 1;
        self.retention = RetentionStatus::Complete;
        let mut documents: Vec<SynchronizedDocument> = Vec::new();
        std::mem::swap(&mut documents, &mut self.documents);
        if documents.len() > 0 {
            self.revision = self.revision.saturating_add(1);
        }
        assert(entries_of(self.documents@) =~= Seq::<Entry>::empty());
        documents
    }

    fn remove_lru_document(&mut self) -> (document: SynchronizedDocument)
        requires
            registry_holds(old(self)@),
            old(self)@.documents.len() > 0,
        ensures
            ({
                let index = first_of(old(self)@.documents, less_active());
                &&& 0 <= index < old(self)@.documents.len()
                &&& document@ == old(self)@.documents[index]
                &&& final(self)@ == without_document(old(self)@, index)
                &&& registry_holds(final(self)@)
            }),
    {
        let ghost documents = self@.documents;
        let mut oldest: usize = 0;
        let mut i: usize = 1;
        proof {
            lemma_activity_orders(documents);
            assert(documents.take(1).len() == 1);
        }
        while i < self.documents.len()
            invariant
                1 <= i <= self.documents@.len(),
                documents == self@.documents,
                ordered_by(documents, less_active()),
                oldest < i,
                oldest == first_of(documents.take(i as int), less_active()),
            decreases self.documents@.len() - i,
        {
            proof {
                lemma_ordered_prefix(documents, less_active(), i as int);
                lemma_first(documents.take(i as int), less_active());
                assert(documents.take(i + 1).drop_last() =~= documents.take(i as int));
                assert(documents[i as int] == self.documents@[i as int]@);
                assert(documents[oldest as int] == self.documents@[oldest as int]@);
            }
            let one = &self.documents[i];
            let other = &self.documents[oldest];
            if one.activity_ordinal < other.activity_ordinal || (one.activity_ordinal
                == other.activity_ordinal && one.editor_id < other.editor_id) {
                oldest = i;
            }
            i += 1;
        }
        assert(documents.take(i as int) =~= documents);
        self.remove_at(oldest)
    }

    fn remove_at(&mut self, index: usize) -> (document: SynchronizedDocument)
        requires
            registry_holds(old(self)@),
            index < old(self)@.documents.len(),
        ensures
            document@ == old(self)@.documents[index as int],
            final(self)@ == without_document(old(self)@, index as int),
            registry_holds(final(self)@),
    {
        let ghost start = self@;
        let ghost before = self.documents@;
        proof {
            lemma_without_document(start, index as int);
        }
        let document = self.documents.remove(index);
        assert(entries_of(self.documents@) =~= entries_of(before).remove(index as int));
        self.revision = self.revision.saturating_add(1);
        if let Some(id) = self.active_editor_id {
            if id == document.editor_id {
                self.active_editor_id = None;
            }
        }
        document
    }

    fn allocate_activity_ordinal(&mut self) -> (ordinal: u64)
        requires
            registry_holds(old(self)@),
        ensures
            ordinal == ready(old(self)@).next,
            final(self)@ == ticked(old(self)@),
    {
        proof {
            lemma_ready(self@);
        }
        if self.next_activity_ordinal == 0 || self.next_activity_ordinal == u64::MAX {
            self.rebase_activity_ordinals();
        }
        let ordinal = self.next_activity_ordinal;
        self.next_activity_ordinal = self.next_activity_ordinal.saturating_add(1);
        ordinal
    }

    fn rank_of(&self, index: usize) -> (count: u64)
        requires
            index < self.documents@.len(),
            self.documents@.len() <= MAX_SYNCHRONIZED_DOCUMENTS,
        ensures
            count == rank(self@.documents, less_active(), self@.documents[index as int]),
    {
        let ghost documents = self@.documents;
        let item = &self.documents[index];
        let mut count: u64 = 0;
        let mut i: usize = 0;
        assert(documents.take(0).len() == 0);
        while i < self.documents.len()
            invariant
                i <= self.documents@.len() <= MAX_SYNCHRONIZED_DOCUMENTS,
                documents == self@.documents,
                item@ == documents[index as int],
                count <= i,
                count == rank(documents.take(i as int), less_active(), item@),
            decreases self.documents@.len() - i,
        {
            proof {
                assert(documents.take(i + 1).drop_last() =~= documents.take(i as int));
                assert(documents.take(i + 1).last() == self.documents@[i as int]@);
            }
            let one = &self.documents[i];
            if one.activity_ordinal < item.activity_ordinal || (one.activity_ordinal
                == item.activity_ordinal && one.editor_id < item.editor_id) {
                count += 1;
            }
            i += 1;
        }
        assert(documents.take(i as int) =~= documents);
        count
    }

    fn rebase_activity_ordinals(&mut self)
        requires
            registry_holds(old(self)@),
        ensures
            final(self)@ == (RegistryState {
                documents: rebased(old(self)@.documents),
                next: (old(self)@.documents.len() + 1) as u64,
                ..old(self)@
            }),
    {
        let ghost start = self@;
        let ghost before = self.documents@;
        let mut ranks: Vec<u64> = Vec::new();
        let mut i: usize = 0;
        while i < self.documents.len()
            invariant
                i <= self.documents@.len() <= MAX_SYNCHRONIZED_DOCUMENTS,
                self@ == start,
                self.documents@ == before,
                ranks@.len() == i,
                forall|k: int|
                    0 <= k < i ==> #[trigger] ranks@[k] == rank(
                        start.documents,
                        less_active(),
                        start.documents[k],
                    ),
                forall|k: int| 0 <= k < i ==> #[trigger] ranks@[k] <= MAX_SYNCHRONIZED_DOCUMENTS,
            decreases self.documents@.len() - i,
        {
            let count = self.rank_of(i);
            proof {
                lemma_rank_bound(start.documents, less_active(), start.documents[i as int]);
            }
            ranks.push(count);
            i += 1;
        }
        let mut j: usize = 0;
        while j < self.documents.len()
            invariant
                j <= self.documents@.len() == before.len(),
                ranks@.len() == before.len() <= MAX_SYNCHRONIZED_DOCUMENTS,
                start.documents == entries_of(before),
                self@ == (RegistryState { documents: self@.documents, ..start }),
                forall|k: int|
                    0 <= k < before.len() ==> #[trigger] ranks@[k] == rank(
                        start.documents,
                        less_active(),
                        start.documents[k],
                    ),
                forall|k: int|
                    0 <= k < before.len() ==> #[trigger] ranks@[k] <= MAX_SYNCHRONIZED_DOCUMENTS,
                forall|k: int|
                    0 <= k < before.len() ==> (#[trigger] self.documents@[k])@ == (if k < j {
                        rebased(start.documents)[k]
                    } else {
                        start.documents[k]
                    }),
            decreases before.len() - j,
        {
            assert(self.documents@[j as int]@ == start.documents[j as int]);
            self.documents[j].activity_ordinal = ranks[j] + 1;
            j += 1;
        }
        self.next_activity_ordinal = self.documents.len() as u64 + 1;
        assert(entries_of(self.documents@) =~= rebased(start.documents));
    }
}

/// An admission at capacity removes the document that was active longest ago,
/// never the new one, and leaves every other document in place.
pub proof fn law_admission_evicts_the_least_active(state: RegistryState, document: Entry)
    requires
        registry_holds(state),
        admission_error(state, document) is None,
        state.documents.len() == MAX_SYNCHRONIZED_DOCUMENTS,
    ensures
        leaving(state) matches Some(gone) && {
            &&& state.documents.contains(gone)
            &&& gone.editor_id != document.editor_id
            &&& forall|i: int|
                0 <= i < state.documents.len() && state.documents[i] != gone ==> less_active()(
                    gone,
                    #[trigger] state.documents[i],
                )
            &&& forall|i: int|
                0 <= i < state.documents.len() && (
                #[trigger] state.documents[i]).editor_id != gone.editor_id ==> exists|j: int|
                    0 <= j < admitted(state, document).documents.len() && (
                    #[trigger] admitted(state, document).documents[j]).uri
                        == state.documents[i].uri
        },
        admitted(state, document).documents.len() == MAX_SYNCHRONIZED_DOCUMENTS,
        admitted(state, document).retention is Partial,
{
    let documents = state.documents;
    let index = first_of(documents, less_active());
    let gone = documents[index];
    lemma_activity_orders(documents);
    lemma_first(documents, less_active());
    lemma_admitted(state, document);
    lemma_editor_index(documents, document.editor_id);
    let room = with_room(state);
    lemma_ready(room);
    let after = admitted(state, document).documents;
    assert forall|i: int|
        0 <= i < documents.len() && (#[trigger] documents[i]).editor_id
            != gone.editor_id implies exists|j: int|
        0 <= j < after.len() && (#[trigger] after[j]).uri == documents[i].uri by {
        let j = if i < index {
            i
        } else {
            i - 1
        };
        assert(room.documents[j] == documents[i]);
        assert(ready(room).documents[j].uri == room.documents[j].uri);
        assert(after[j].uri == documents[i].uri);
    }
}

/// The document that was admitted or focused last is the most recent one.
pub proof fn law_focus_is_most_recent(state: RegistryState, index: int, other: int)
    requires
        registry_holds(state),
        0 <= index < state.documents.len(),
        0 <= other < state.documents.len(),
        other != index,
    ensures
        less_active()(
            focused(state, index).documents[other],
            focused(state, index).documents[index],
        ),
        focused(state, index).revision == state.revision,
{
    lemma_ready(state);
    assert(ready(state).documents[other].activity < ready(state).next);
}

/// A document that was admitted is found under its editor and under its URI,
/// and is the active one.
pub proof fn law_admitted_document_is_found(state: RegistryState, document: Entry)
    requires
        registry_holds(state),
        admission_error(state, document) is None,
    ensures
        ({
            let after = admitted(state, document);
            let entry = Entry { activity: ready(with_room(state)).next, ..document };
            &&& registry_holds(after)
            &&& at(after.documents, editor_index(after.documents, document.editor_id)) == Some(
                entry,
            )
            &&& at(after.documents, uri_index(after.documents, document.uri)) == Some(entry)
            &&& after.active == Some(document.editor_id)
        }),
{
    lemma_admitted(state, document);
    let after = admitted(state, document).documents;
    let last = after.len() - 1;
    lemma_editor_index(after, document.editor_id);
    lemma_uri_index(after, document.uri);
    let i = editor_index(after, document.editor_id);
    let j = uri_index(after, document.uri);
    assert(after[last].editor_id == document.editor_id && after[last].uri == document.uri);
    if i > last {
        assert(after[last].editor_id != document.editor_id);
    }
    if i < last {
        assert(after[i].editor_id != after[last].editor_id);
    }
    if j > last {
        assert(after[last].uri != document.uri);
    }
    if j < last {
        assert(after[j].uri != after[last].uri);
    }
}

/// The revision advances whenever a document comes, goes or gets new revisions,
/// and only then: neither focus nor an update that changes nothing advances it.
/// An update keeps identities and recency.
pub proof fn law_revision_follows_changes(
    state: RegistryState,
    document: Entry,
    index: int,
    version: DocumentVersion,
    state_id: u64,
    saved_state_id: Option<u64>,
    save_generation: u64,
)
    requires
        registry_holds(state),
        0 <= index < state.documents.len(),
        state.revision < u128::MAX,
    ensures
        admitted(state, document).revision > state.revision,
        without_document(state, index).revision > state.revision,
        cleared(state).revision > state.revision,
        focused(state, index).revision == state.revision,
        ({
            let after = updated(
                state,
                index,
                version,
                state_id,
                saved_state_id,
                save_generation,
            );
            let entry = after.documents[index];
            &&& after == state || after.revision > state.revision
            &&& entry.editor_id == state.documents[index].editor_id
            &&& entry.uri == state.documents[index].uri
            &&& entry.activity == state.documents[index].activity
            &&& entry.version == version
            &&& entry.save_generation == save_generation
        }),
{
}

/// The active editor has a document, and it was active after every other one.
pub proof fn law_active_document_is_latest(state: RegistryState)
    requires
        registry_holds(state),
    ensures
        state.active matches Some(id) ==> {
            let index = editor_index(state.documents, id);
            &&& 0 <= index < state.documents.len()
            &&& state.documents[index].editor_id == id
            &&& forall|i: int|
                0 <= i < state.documents.len() && i != index ==> (
                #[trigger] state.documents[i]).activity < state.documents[index].activity
        },
{
    if let Some(id) = state.active {
        lemma_editor_index(state.documents, id);
        let index = editor_index(state.documents, id);
        assert forall|i: int| 0 <= i < state.documents.len() && i != index implies (
        #[trigger] state.documents[i]).activity < state.documents[index].activity by {
            if i < index {
                assert(state.documents[i].editor_id != state.documents[index].editor_id);
            } else {
                assert(state.documents[index].editor_id != state.documents[i].editor_id);
            }
        }
    }
}

/// Only clearing makes a registry complete again.
pub proof fn law_partial_registry_stays_partial(
    state: RegistryState,
    document: Entry,
    index: int,
    version: DocumentVersion,
    state_id: u64,
    saved_state_id: Option<u64>,
    save_generation: u64,
)
    requires
        registry_holds(state),
        state.retention is Partial,
    ensures
        admitted(state, document).retention is Partial,
        without_document(state, index).retention is Partial,
        focused(state, index).retention is Partial,
        updated(
            state,
            index,
            version,
            state_id,
            saved_state_id,
            save_generation,
        ).retention is Partial,
        cleared(state).retention is Complete,
{
}

} // verus!
