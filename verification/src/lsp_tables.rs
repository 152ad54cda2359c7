//! Open documents by URI and outstanding requests by number.
use vstd::prelude::*;

use crate::lsp_command::{RequestScope, Scope};
use crate::lsp_types::{LspOperation, OpenDocumentState, RequestId};
use crate::text::same_text;

verus! {

/// Open documents by URI.
#[derive(Debug)]
pub struct DocumentTable {
    entries: Vec<(String, OpenDocumentState)>,
}

/// The documents of a list, where later entries win.
pub open spec fn documents_of(entries: Seq<(String, OpenDocumentState)>) -> Map<
    Seq<char>,
    OpenDocumentState,
>
    decreases entries.len(),
{
    if entries.len() == 0 {
        Map::empty()
    } else {
        documents_of(entries.drop_last()).insert(entries.last().0@, entries.last().1)
    }
}

/// Whether no URI occurs twice.
pub open spec fn distinct_uris(entries: Seq<(String, OpenDocumentState)>) -> bool {
    forall|i: int, j: int|
        0 <= i < j < entries.len() ==> (#[trigger] entries[i]).0@ != (#[trigger] entries[j]).0@
}

proof fn lemma_documents(entries: Seq<(String, OpenDocumentState)>)
    requires
        distinct_uris(entries),
    ensures
        documents_of(entries).dom().finite(),
        documents_of(entries).len() == entries.len(),
        forall|uri: Seq<char>| #[trigger]
            documents_of(entries).contains_key(uri) <==> exists|i: int|
                0 <= i < entries.len() && (#[trigger] entries[i]).0@ == uri,
        forall|i: int|
            0 <= i < entries.len() ==> documents_of(entries)[(#[trigger] entries[i]).0@]
                == entries[i].1,
    decreases entries.len(),
{
    if entries.len() > 0 {
        let rest = entries.drop_last();
        lemma_documents(rest);
        assert(!documents_of(rest).contains_key(entries.last().0@)) by {
            if documents_of(rest).contains_key(entries.last().0@) {
                let i = choose|i: int|
                    0 <= i < rest.len() && (#[trigger] rest[i]).0@ == entries.last().0@;
                assert(entries[i].0@ == entries[entries.len() - 1].0@);
            }
        }
        assert forall|uri: Seq<char>| #[trigger]
            documents_of(entries).contains_key(uri) <==> exists|i: int|
                0 <= i < entries.len() && (#[trigger] entries[i]).0@ == uri by {
            if documents_of(rest).contains_key(uri) {
                let i = choose|i: int| 0 <= i < rest.len() && (#[trigger] rest[i]).0@ == uri;
                assert(entries[i].0@ == uri);
            }
            if uri == entries.last().0@ {
                assert(entries[entries.len() - 1].0@ == uri);
            }
            if exists|i: int| 0 <= i < entries.len() && (#[trigger] entries[i]).0@ == uri {
                let i = choose|i: int| 0 <= i < entries.len() && (#[trigger] entries[i]).0@ == uri;
                if i < rest.len() {
                    assert(rest[i].0@ == uri);
                }
            }
        }
        assert forall|i: int| 0 <= i < entries.len() implies documents_of(entries)[(
        #[trigger] entries[i]).0@] == entries[i].1 by {
            if i < rest.len() {
                assert(rest[i] == entries[i]);
                assert(entries[i].0@ != entries[entries.len() - 1].0@);
            }
        }
    }
}

impl View for DocumentTable {
    type V = Map<Seq<char>, OpenDocumentState>;

    closed spec fn view(&self) -> Map<Seq<char>, OpenDocumentState> {
        documents_of(self.entries@)
    }
}

impl DocumentTable {
    #[verifier::type_invariant]
    spec fn distinct(self) -> bool {
        distinct_uris(self.entries@)
    }

    /// No open document.
    pub fn new() -> (table: Self)
        ensures
            table@ == Map::<Seq<char>, OpenDocumentState>::empty(),
    {
        DocumentTable { entries: Vec::new() }
    }

    /// The number of open documents.
    pub fn len(&self) -> (n: usize)
        ensures
            n == self@.len(),
            self@.dom().finite(),
    {
        proof {
            use_type_invariant(&*self);
            lemma_documents(self.entries@);
        }
        self.entries.len()
    }

    fn position(&self, uri: &str) -> (index: Option<usize>)
        ensures
            match index {
                Some(i) => i < self.entries@.len() && self.entries@[i as int].0@ == uri@
                    && self@.contains_key(uri@) && self@[uri@] == self.entries@[i as int].1,
                None => !self@.contains_key(uri@),
            },
    {
        proof {
            use_type_invariant(&*self);
            lemma_documents(self.entries@);
        }
        let mut i: usize = 0;
        while i < self.entries.len()
            invariant
                i <= self.entries@.len(),
                forall|k: int| 0 <= k < i ==> (#[trigger] self.entries@[k]).0@ != uri@,
                forall|u: Seq<char>| #[trigger]
                    self@.contains_key(u) <==> exists|k: int|
                        0 <= k < self.entries@.len() && (#[trigger] self.entries@[k]).0@ == u,
                forall|k: int|
                    0 <= k < self.entries@.len() ==> self@[(#[trigger] self.entries@[k]).0@]
                        == self.entries@[k].1,
            decreases self.entries@.len() - i,
        {
            if same_text(self.entries[i].0.as_str(), uri) {
                return Some(i);
            }
            i += 1;
        }
        None
    }

    /// What is known of the document at `uri`.
    pub fn get(&self, uri: &str) -> (state: Option<OpenDocumentState>)
        ensures
            state == (if self@.contains_key(uri@) {
                Some(self@[uri@])
            } else {
                None
            }),
    {
        match self.position(uri) {
            Some(i) => Some(self.entries[i].1),
            None => None,
        }
    }

    /// Whether the document at `uri` is open.
    pub fn contains_key(&self, uri: &str) -> (yes: bool)
        ensures
            yes == self@.contains_key(uri@),
    {
        self.position(uri).is_some()
    }

    /// Forgets the document at `uri`.
    pub fn remove(&mut self, uri: &str)
        ensures
            final(self)@ == old(self)@.remove(uri@),
    {
        let ghost before = self.entries@;
        proof {
            use_type_invariant(&*self);
            lemma_documents(before);
        }
        match self.position(uri) {
            Some(i) => {
                let mut entries: Vec<(String, OpenDocumentState)> = Vec::new();
                std::mem::swap(&mut entries, &mut self.entries);
                let _ = entries.remove(i);
                proof {
                    assert(entries@ =~= before.remove(i as int));
                    lemma_documents(entries@);
                    assert(documents_of(entries@) =~= documents_of(before).remove(uri@)) by {
                        assert forall|u: Seq<char>|
                            documents_of(entries@).contains_key(u) == documents_of(before).remove(
                                uri@,
                            ).contains_key(u) by {
                            if documents_of(entries@).contains_key(u) {
                                let k = choose|k: int|
                                    0 <= k < entries@.len() && (#[trigger] entries@[k]).0@ == u;
                                let m = if k < i {
                                    k
                                } else {
                                    k + 1
                                };
                                assert(before[m].0@ == u);
                                assert(before[m].0@ != before[i as int].0@);
                            }
                            if documents_of(before).contains_key(u) && u != uri@ {
                                let k = choose|k: int|
                                    0 <= k < before.len() && (#[trigger] before[k]).0@ == u;
                                let m = if k < i {
                                    k
                                } else {
                                    k - 1
                                };
                                assert(entries@[m].0@ == u);
                            }
                        }
                        assert forall|u: Seq<char>| documents_of(entries@).contains_key(u) implies
                            documents_of(entries@)[u] == documents_of(before)[u] by {
                            let k = choose|k: int|
                                0 <= k < entries@.len() && (#[trigger] entries@[k]).0@ == u;
                            let m = if k < i {
                                k
                            } else {
                                k + 1
                            };
                            assert(before[m] == entries@[k]);
                        }
                    }
                }
                self.entries = entries;
            },
            None => {
                assert(self@.remove(uri@) =~= self@);
            },
        }
    }

    /// Sets what is known of the document at `uri`.
    pub fn insert(&mut self, uri: String, state: OpenDocumentState)
        ensures
            final(self)@ == old(self)@.insert(uri@, state),
    {
        let ghost before = self@;
        self.remove(uri.as_str());
        let mut entries: Vec<(String, OpenDocumentState)> = Vec::new();
        proof {
            use_type_invariant(&*self);
            lemma_documents(self.entries@);
        }
        let ghost kept = self.entries@;
        std::mem::swap(&mut entries, &mut self.entries);
        entries.push((uri, state));
        proof {
            assert(entries@.drop_last() =~= kept);
            assert(!documents_of(kept).contains_key(uri@));
            assert forall|i: int, j: int| 0 <= i < j < entries@.len() implies (
            #[trigger] entries@[i]).0@ != (#[trigger] entries@[j]).0@ by {
                if j == entries@.len() - 1 {
                    assert(kept[i].0@ != uri@);
                } else {
                    assert(kept[i].0@ != kept[j].0@);
                }
            }
            assert(documents_of(entries@) =~= before.insert(uri@, state));
        }
        self.entries = entries;
    }
}

/// A request that was not answered yet.
#[derive(Debug)]
pub struct PendingRequest {
    pub operation: LspOperation,
    pub scope: Option<RequestScope>,
    pub cancel_requested: bool,
    /// False only for a shutdown accepted while initialize is still pending.
    /// Such a request is retained for correlation but must not reach the wire
    /// until the initialize response and `initialized` notification do.
    pub sent: bool,
}

/// The content of a [`PendingRequest`].
pub struct Pending {
    pub operation: LspOperation,
    pub scope: Option<Scope>,
    pub cancel_requested: bool,
    pub sent: bool,
}

/// The content of an optional scope.
pub open spec fn scope_option(scope: Option<RequestScope>) -> Option<Scope> {
    match scope {
        Some(s) => Some(s@),
        None => None,
    }
}

impl View for PendingRequest {
    type V = Pending;

    open spec fn view(&self) -> Pending {
        Pending {
            operation: self.operation,
            scope: scope_option(self.scope),
            cancel_requested: self.cancel_requested,
            sent: self.sent,
        }
    }
}

/// The index of request `id`.
pub open spec fn request_index(requests: Seq<(RequestId, Pending)>, id: RequestId) -> Option<int>
    decreases requests.len(),
{
    if requests.len() == 0 {
        None
    } else if requests.last().0 == id {
        Some(requests.len() - 1)
    } else {
        request_index(requests.drop_last(), id)
    }
}

/// Request `id`, if it is outstanding.
pub open spec fn request_of(requests: Seq<(RequestId, Pending)>, id: RequestId) -> Option<Pending> {
    match request_index(requests, id) {
        Some(i) => Some(requests[i].1),
        None => None,
    }
}

/// The requests without `id`.
pub open spec fn without_request(requests: Seq<(RequestId, Pending)>, id: RequestId) -> Seq<
    (RequestId, Pending),
> {
    match request_index(requests, id) {
        Some(i) => requests.remove(i),
        None => requests,
    }
}

/// The requests with `id` set to `request`; a new one comes last.
pub open spec fn with_request(
    requests: Seq<(RequestId, Pending)>,
    id: RequestId,
    request: Pending,
) -> Seq<(RequestId, Pending)> {
    match request_index(requests, id) {
        Some(i) => requests.update(i, (id, request)),
        None => requests.push((id, request)),
    }
}

/// Whether no request number occurs twice.
pub open spec fn distinct_requests(requests: Seq<(RequestId, Pending)>) -> bool {
    forall|i: int, j: int|
        0 <= i < j < requests.len() ==> (#[trigger] requests[i]).0 != (#[trigger] requests[j]).0
}

/// An index points at its request, and a missing request is nowhere.
pub proof fn lemma_request_index(requests: Seq<(RequestId, Pending)>, id: RequestId)
    ensures
        match request_index(requests, id) {
            Some(i) => 0 <= i && i < requests.len() && requests[i].0 == id && forall|k: int|
                i < k < requests.len() ==> (#[trigger] requests[k]).0 != id,
            None => forall|k: int| 0 <= k < requests.len() ==> (#[trigger] requests[k]).0 != id,
        },
    decreases requests.len(),
{
    if requests.len() > 0 && requests.last().0 != id {
        let rest = requests.drop_last();
        lemma_request_index(rest, id);
        match request_index(requests, id) {
            Some(i) => {
                assert(rest[i] == requests[i]);
                assert forall|k: int| i < k < requests.len() implies (#[trigger] requests[k]).0
                    != id by {
                    if k < rest.len() {
                        assert(rest[k] == requests[k]);
                    }
                }
            },
            None => {
                assert forall|k: int| 0 <= k < requests.len() implies (#[trigger] requests[k]).0
                    != id by {
                    if k < rest.len() {
                        assert(rest[k] == requests[k]);
                    }
                }
            },
        }
    }
}

/// Taking a request out of distinct ones leaves no trace of it and keeps the
/// others; setting one keeps the rest alone.
pub proof fn lemma_requests(requests: Seq<(RequestId, Pending)>, id: RequestId, request: Pending)
    requires
        distinct_requests(requests),
    ensures
        distinct_requests(without_request(requests, id)),
        request_of(without_request(requests, id), id) is None,
        distinct_requests(with_request(requests, id, request)),
        request_of(with_request(requests, id, request), id) == Some(request),
{
    lemma_request_index(requests, id);
    lemma_request_index(without_request(requests, id), id);
    let set = with_request(requests, id, request);
    lemma_request_index(set, id);
    match request_index(requests, id) {
        Some(i) => {
            let out = requests.remove(i);
            assert forall|k: int| 0 <= k < out.len() implies (#[trigger] out[k]).0 != id by {
                if k < i {
                    assert(requests[k].0 != requests[i].0);
                } else {
                    assert(requests[k + 1].0 != requests[i].0);
                }
            }
            assert forall|a: int, b: int| 0 <= a < b < out.len() implies (#[trigger] out[a]).0 != (
            #[trigger] out[b]).0 by {
                let x = if a < i {
                    a
                } else {
                    a + 1
                };
                let y = if b < i {
                    b
                } else {
                    b + 1
                };
                assert(requests[x].0 != requests[y].0);
            }
            assert forall|a: int, b: int| 0 <= a < b < set.len() implies (#[trigger] set[a]).0 != (
            #[trigger] set[b]).0 by {
                assert(requests[a].0 != requests[b].0);
            }
            assert(set[i].0 == id);
            if let Some(j) = request_index(set, id) {
                if j != i {
                    assert(set[j].0 == requests[j].0);
                    if j < i {
                        assert(requests[j].0 != requests[i].0);
                    } else {
                        assert(requests[i].0 != requests[j].0);
                    }
                }
            }
        },
        None => {
            assert(set.last() == (id, request));
        },
    }
}

/// Outstanding requests in the order in which they were made.
#[derive(Debug)]
pub struct PendingTable {
    entries: Vec<(RequestId, PendingRequest)>,
}

/// The contents of a list of requests.
pub open spec fn requests_of(entries: Seq<(RequestId, PendingRequest)>) -> Seq<
    (RequestId, Pending),
> {
    Seq::new(entries.len(), |i: int| (entries[i].0, entries[i].1@))
}

impl View for PendingTable {
    type V = Seq<(RequestId, Pending)>;

    closed spec fn view(&self) -> Seq<(RequestId, Pending)> {
        requests_of(self.entries@)
    }
}

impl PendingTable {
    /// No request.
    pub fn new() -> (table: Self)
        ensures
            table@ == Seq::<(RequestId, Pending)>::empty(),
    {
        let table = PendingTable { entries: Vec::new() };
        assert(table@ =~= Seq::<(RequestId, Pending)>::empty());
        table
    }

    /// The number of requests.
    pub fn len(&self) -> (n: usize)
        ensures
            n == self@.len(),
    {
        self.entries.len()
    }

    /// Whether there is no request.
    pub fn is_empty(&self) -> (yes: bool)
        ensures
            yes == (self@.len() == 0),
    {
        self.entries.len() == 0
    }

    fn position(&self, id: RequestId) -> (index: Option<usize>)
        ensures
            match (index, request_index(self@, id)) {
                (Some(i), Some(k)) => i == k && i < self.entries@.len(),
                (None, None) => true,
                _ => false,
            },
    {
        let mut i: usize = self.entries.len();
        assert(self@.take(i as int) =~= self@);
        while i > 0
            invariant
                i <= self.entries@.len() == self@.len(),
                self@ == requests_of(self.entries@),
                request_index(self@, id) == request_index(self@.take(i as int), id),
            decreases i,
        {
            proof {
                assert(self@.take(i as int).last() == self@[i - 1]);
                assert(self@.take(i as int).drop_last() =~= self@.take(i - 1));
            }
            if self.entries[i - 1].0 == id {
                return Some(i - 1);
            }
            i -= 1;
        }
        None
    }

    /// Request `id`.
    pub fn get(&self, id: RequestId) -> (request: Option<&PendingRequest>)
        ensures
            match (request, request_of(self@, id)) {
                (Some(found), Some(content)) => found@ == content,
                (None, None) => true,
                _ => false,
            },
    {
        match self.position(id) {
            Some(i) => Some(&self.entries[i].1),
            None => None,
        }
    }

    /// Takes request `id` out.
    pub fn remove(&mut self, id: RequestId) -> (request: Option<PendingRequest>)
        ensures
            final(self)@ == without_request(old(self)@, id),
            match (request, request_of(old(self)@, id)) {
                (Some(found), Some(content)) => found@ == content,
                (None, None) => true,
                _ => false,
            },
    {
        match self.position(id) {
            Some(i) => {
                let (_, request) = self.entries.remove(i);
                assert(self@ =~= old(self)@.remove(i as int));
                Some(request)
            },
            None => None,
        }
    }

    /// Sets request `id`.
    pub fn insert(&mut self, id: RequestId, request: PendingRequest)
        ensures
            final(self)@ == with_request(old(self)@, id, request@),
    {
        match self.position(id) {
            Some(i) => {
                let _ = self.entries.remove(i);
                self.entries.insert(i, (id, request));
                assert(self@ =~= old(self)@.update(i as int, (id, request@)));
            },
            None => {
                self.entries.push((id, request));
                assert(self@ =~= old(self)@.push((id, request@)));
            },
        }
    }

    /// Notes that the cancellation of request `id` was asked for.
    pub fn mark_cancelled(&mut self, id: RequestId)
        ensures
            final(self)@ == (match request_of(old(self)@, id) {
                Some(request) => with_request(
                    old(self)@,
                    id,
                    Pending { cancel_requested: true, ..request },
                ),
                None => old(self)@,
            }),
    {
        proof {
            lemma_request_index(self@, id);
        }
        match self.position(id) {
            Some(i) => {
                let (_, request) = self.entries.remove(i);
                let marked = PendingRequest {
                    operation: request.operation,
                    scope: request.scope,
                    cancel_requested: true,
                    sent: request.sent,
                };
                self.entries.insert(i, (id, marked));
                assert(self@ =~= old(self)@.update(i as int, (id, marked@)));
            },
            None => {},
        }
    }

    /// Notes that request `id` reached the wire.
    pub fn mark_sent(&mut self, id: RequestId)
        ensures
            final(self)@ == (match request_of(old(self)@, id) {
                Some(request) => with_request(
                    old(self)@,
                    id,
                    Pending { sent: true, ..request },
                ),
                None => old(self)@,
            }),
    {
        match self.position(id) {
            Some(i) => {
                let (_, request) = self.entries.remove(i);
                let marked = PendingRequest {
                    operation: request.operation,
                    scope: request.scope,
                    cancel_requested: request.cancel_requested,
                    sent: true,
                };
                self.entries.insert(i, (id, marked));
                assert(self@ =~= old(self)@.update(i as int, (id, marked@)));
            },
            None => {},
        }
    }

    /// Whether some request is the one that initializes the server.
    pub fn initializing(&self) -> (yes: bool)
        ensures
            yes == is_initializing(self@),
    {
        let mut i: usize = 0;
        while i < self.entries.len()
            invariant
                i <= self.entries@.len(),
                self@ == requests_of(self.entries@),
                forall|k: int|
                    0 <= k < i ==> (#[trigger] self@[k]).1.operation != LspOperation::Initialize,
            decreases self.entries@.len() - i,
        {
            if self.entries[i].1.operation == LspOperation::Initialize {
                assert(self@[i as int].1.operation == LspOperation::Initialize);
                return true;
            }
            i += 1;
        }
        false
    }

    /// The first shutdown that was not sent yet.
    pub fn deferred_shutdown(&self) -> (id: Option<RequestId>)
        ensures
            id == deferred_in(self@, 0),
    {
        let mut i: usize = 0;
        while i < self.entries.len()
            invariant
                i <= self.entries@.len(),
                self@ == requests_of(self.entries@),
                deferred_in(self@, 0) == deferred_in(self@, i as int),
            decreases self.entries@.len() - i,
        {
            if self.entries[i].1.operation == LspOperation::Shutdown && !self.entries[i].1.sent {
                return Some(self.entries[i].0);
            }
            i += 1;
        }
        None
    }
}

/// Whether some request is the one that initializes the server.
pub open spec fn is_initializing(requests: Seq<(RequestId, Pending)>) -> bool {
    exists|i: int|
        0 <= i < requests.len() && (#[trigger] requests[i]).1.operation == LspOperation::Initialize
}

/// The first shutdown from `i` on that was not sent yet.
pub open spec fn deferred_in(requests: Seq<(RequestId, Pending)>, i: int) -> Option<RequestId>
    decreases requests.len() - i,
{
    if !(0 <= i < requests.len()) {
        None
    } else if requests[i].1.operation == LspOperation::Shutdown && !requests[i].1.sent {
        Some(requests[i].0)
    } else {
        deferred_in(requests, i + 1)
    }
}

} // verus!
