//! The editor's side of one language-server session: what may be sent, which
//! documents are open in which version, and when the session ends.
use vstd::prelude::*;

use crate::file_uri::{file_uri, uri_of};
use crate::json::{
    json_of, lemma_list_of, lemma_members_from, list_of, members_from, object, object_of, ordered, pairs_of, with_member, Json,
    JsonObject, JsonValue,
};
use crate::lsp::{DocumentVersion, LspPosition};
use crate::lsp_command::{
    client_command_json_len, command_text, did_open_json_len, did_open_parts, joined, writable,
    ClientCommand, RequestScope, Scope,
};
use crate::lsp_protocol::{
    empty_object, position_value, request, request_message, text_position_params, LspPhase,
};
use crate::lsp_queue::{weighs, BudgetedQueue, EventSink, ProtocolInput, QueueState, SendError};
use crate::lsp_tables::DocumentTable;
use crate::lsp_types::{
    default_limits, json_option, normalized_shutdown_timeout, text_option, ClientError, DocumentIncarnation,
    LspClientError, LspClientLimits, LspEvent, LspOperation, OpenDocumentState, RequestId,
    DEFAULT_SHUTDOWN_TIMEOUT_MILLIS, EVENT_CONTROL_RESERVE, INPUT_CONTROL_RESERVE,
    MAX_SHUTDOWN_TIMEOUT_MILLIS,
};
use crate::paths::{component_views, copy_bytes, copy_list, display_path, lossy_text};
use crate::text::{byte_len, copy_text, decimal, same_text, utf8_len};

verus! {

/// What a client knows and has queued.
pub struct ClientState {
    pub input: QueueState<ProtocolInput>,
    pub phase: LspPhase,
    pub documents: Map<Seq<char>, OpenDocumentState>,
    pub next_document_incarnation: Option<DocumentIncarnation>,
    pub next_request_id: RequestId,
    pub limits: LspClientLimits,
}

/// Live handle for one language-server session.
#[derive(Debug)]
pub struct LspClient {
    pub input: BudgetedQueue<ProtocolInput>,
    pub events: EventSink,
    pub phase: LspPhase,
    pub documents: DocumentTable,
    pub next_document_incarnation: Option<DocumentIncarnation>,
    pub next_request_id: RequestId,
    pub limits: LspClientLimits,
    pub pid: u32,
}

impl View for LspClient {
    type V = ClientState;

    open spec fn view(&self) -> ClientState {
        ClientState {
            input: self.input@,
            phase: self.phase,
            documents: self.documents@,
            next_document_incarnation: self.next_document_incarnation,
            next_request_id: self.next_request_id,
            limits: self.limits,
        }
    }
}

/// Why a session in this phase takes no commands.
pub open spec fn readiness(phase: LspPhase) -> Option<ClientError> {
    match phase {
        LspPhase::Ready => None,
        LspPhase::Starting => Some(ClientError::NotReady),
        LspPhase::ShuttingDown => Some(ClientError::ShuttingDown),
        LspPhase::Stopped => Some(ClientError::Stopped),
    }
}

/// Why a version is not accepted.
pub open spec fn version_refusal(version: DocumentVersion) -> Option<ClientError> {
    if version.number > 2147483647 {
        Some(ClientError::VersionOutOfRange(version))
    } else {
        None
    }
}

/// Why a position is not accepted.
pub open spec fn position_refusal(position: LspPosition) -> Option<ClientError> {
    if position.line.index > 2147483647 || position.character.units > 2147483647 {
        Some(ClientError::PositionOutOfRange(position))
    } else {
        None
    }
}

/// Why a document of this size is not accepted.
pub open spec fn text_refusal(text: Seq<char>, max: usize) -> Option<ClientError> {
    if utf8_len(text) > max {
        Some(ClientError::DocumentTooLarge { bytes: utf8_len(text), max })
    } else {
        None
    }
}

/// The first reason of two.
pub open spec fn or_else(a: Option<ClientError>, b: Option<ClientError>) -> Option<ClientError> {
    match a {
        Some(_) => a,
        None => b,
    }
}

/// Why a command of this text is not accepted.
pub open spec fn size_refusal(command: ClientCommand, max: usize) -> Option<ClientError> {
    if writable(command) && utf8_len(command_text(command)) <= max {
        None
    } else {
        Some(ClientError::MessageTooLarge { max })
    }
}

/// Why a document is not opened, as far as that depends on no queue.
pub open spec fn open_refusal(
    state: ClientState,
    uri: Seq<char>,
    language_id: Seq<char>,
    version: DocumentVersion,
    text: Seq<char>,
) -> Option<ClientError> {
    if readiness(state.phase) is Some {
        readiness(state.phase)
    } else if version_refusal(version) is Some {
        version_refusal(version)
    } else if utf8_len(uri) > state.limits.max_document_uri_bytes {
        Some(
            ClientError::DocumentUriTooLarge {
                bytes: utf8_len(uri),
                max: state.limits.max_document_uri_bytes,
            },
        )
    } else if text_refusal(text, state.limits.max_document_bytes) is Some {
        text_refusal(text, state.limits.max_document_bytes)
    } else if utf8_len(joined(did_open_parts(uri, language_id, version, text)))
        > state.limits.max_message_bytes {
        Some(ClientError::MessageTooLarge { max: state.limits.max_message_bytes })
    } else if state.documents.contains_key(uri) {
        Some(ClientError::DocumentAlreadyOpen(uri))
    } else if state.documents.len() >= state.limits.max_open_documents {
        Some(ClientError::OpenDocumentLimitReached { max: state.limits.max_open_documents })
    } else if state.next_document_incarnation is None {
        Some(ClientError::DocumentIncarnationExhausted)
    } else {
        None
    }
}

/// The queue after an item of this weight was offered, or why it was refused.
pub open spec fn enqueued(
    queue: QueueState<ProtocolInput>,
    item: ProtocolInput,
    weight: usize,
) -> Result<QueueState<ProtocolInput>, ClientError> {
    if !queue.has_budget(weight) {
        Err(ClientError::QueueFull)
    } else if !queue.connected {
        Err(ClientError::Stopped)
    } else if !queue.has_slot() {
        Err(ClientError::QueueFull)
    } else {
        Ok(queue.pushed(item, weight, true))
    }
}

/// Whether a result is the described one.
pub open spec fn fails_with<T>(result: Result<T, LspClientError>, reason: ClientError) -> bool {
    result matches Err(error) && error@ == reason
}

/// Whether offering `command` in state `before` explains `result` and `after`,
/// where `changed` is the state that the command brings about, but for the
/// queue, and `kept` the state that a refusal leaves.
pub open spec fn offered<T>(
    before: ClientState,
    command: ClientCommand,
    result: Result<T, LspClientError>,
    after: ClientState,
    value: T,
    changed: ClientState,
    kept: ClientState,
) -> bool {
    exists|weight: usize| #[trigger]
        weighs(ProtocolInput::Command(command), before.input.max_bytes as usize, weight) && match (
            enqueued(before.input, ProtocolInput::Command(command), weight)
        ) {
            Ok(input) => result == Ok::<T, LspClientError>(value) && after == (ClientState {
                input,
                ..changed
            }),
            Err(reason) => fails_with(result, reason) && after == kept,
        }
}

/// Why a request about this version of a document is not accepted.
pub open spec fn version_check(
    state: ClientState,
    uri: Seq<char>,
    version: DocumentVersion,
) -> Option<ClientError> {
    if !state.documents.contains_key(uri) {
        Some(ClientError::DocumentNotOpen(uri))
    } else if state.documents[uri].version != version {
        Some(
            ClientError::StaleDocumentVersion {
                uri,
                attempted: version,
                current: state.documents[uri].version,
            },
        )
    } else {
        None
    }
}

/// Why a change is not accepted, as far as that depends on no queue.
pub open spec fn change_refusal(
    state: ClientState,
    uri: Seq<char>,
    version: DocumentVersion,
    text: Seq<char>,
    previous_end: Option<LspPosition>,
) -> Option<ClientError> {
    if readiness(state.phase) is Some {
        readiness(state.phase)
    } else if version_refusal(version) is Some {
        version_refusal(version)
    } else if previous_end matches Some(end) && position_refusal(end) is Some {
        position_refusal(previous_end->0)
    } else if !state.documents.contains_key(uri) {
        Some(ClientError::DocumentNotOpen(uri))
    } else if version.number <= state.documents[uri].version.number {
        Some(
            ClientError::StaleDocumentVersion {
                uri,
                attempted: version,
                current: state.documents[uri].version,
            },
        )
    } else {
        text_refusal(text, state.limits.max_document_bytes)
    }
}

/// Whether a command asks for this.
pub open spec fn asks(
    command: ClientCommand,
    id: RequestId,
    operation: LspOperation,
    method: Seq<char>,
    scope: Scope,
    params: Json,
) -> bool {
    command matches ClientCommand::Request {
        request_id,
        operation: asked,
        method: called,
        scope: about,
        params: with,
    } && request_id == id && asked == operation && called@ == method && about@ == scope && with@
        == params
}

/// Whether making a request in state `before` explains `result` and `after`. A
/// number that was given out stays used, also where the request is refused.
pub open spec fn requested(
    before: ClientState,
    result: Result<RequestId, LspClientError>,
    after: ClientState,
    operation: LspOperation,
    method: Seq<char>,
    scope: Scope,
    params: Json,
) -> bool {
    let id = before.next_request_id;
    let used = ClientState { next_request_id: (id + 1) as u64, ..before };
    if id == u64::MAX {
        fails_with(result, ClientError::RequestIdExhausted) && after == before
    } else {
        exists|command: ClientCommand| #[trigger]
            asks(command, id, operation, method, scope, params) && match size_refusal(
                command,
                before.limits.max_message_bytes,
            ) {
                Some(reason) => fails_with(result, reason) && after == used,
                None => offered(before, command, result, after, id, used, used),
            }
    }
}

/// Whether a request about a document explains `result` and `after`.
pub open spec fn requested_of_document(
    before: ClientState,
    result: Result<RequestId, LspClientError>,
    after: ClientState,
    operation: LspOperation,
    method: Seq<char>,
    uri: Seq<char>,
    version: DocumentVersion,
    params: Json,
) -> bool {
    match or_else(readiness(before.phase), version_check(before, uri, version)) {
        Some(reason) => fails_with(result, reason) && after == before,
        None => requested(
            before,
            result,
            after,
            operation,
            method,
            Scope::Document { uri, version, incarnation: before.documents[uri].incarnation },
            about_document(params, uri),
        ),
    }
}

/// Parameters with the document that they are about.
pub open spec fn about_document(params: Json, uri: Seq<char>) -> Json {
    match params {
        Json::Table(members) => Json::Table(
            with_member(members, "textDocument"@, object_of(seq![("uri"@, Json::Text(uri))])),
        ),
        _ => params,
    }
}

/// Checks the range of a version.
pub fn validate_version_range(version: DocumentVersion) -> (result: Result<(), LspClientError>)
    ensures
        match version_refusal(version) {
            Some(reason) => fails_with(result, reason),
            None => result is Ok,
        },
{
    if version.get() > 2147483647 {
        Err(LspClientError::VersionOutOfRange(version))
    } else {
        Ok(())
    }
}

/// Checks the range of a position.
pub fn validate_position_range(position: LspPosition) -> (result: Result<(), LspClientError>)
    ensures
        match position_refusal(position) {
            Some(reason) => fails_with(result, reason),
            None => result is Ok,
        },
{
    if position.line.get() > 2147483647 || position.character.get() > 2147483647 {
        Err(LspClientError::PositionOutOfRange(position))
    } else {
        Ok(())
    }
}

impl LspClient {
    /// Whether the queue is consistent.
    pub open spec fn valid(&self) -> bool {
        self.input.valid()
    }

    /// The session of a fresh process, to which `initialize` was sent as
    /// request 1.
    pub fn new(limits: LspClientLimits, pid: u32) -> (client: Self)
        ensures
            client.valid(),
            documents_hold(client@),
            client.events.queue.valid(),
            client.events.dropped == 0,
            client.pid == pid,
            client@.phase == LspPhase::Starting,
            client@.documents == Map::<Seq<char>, OpenDocumentState>::empty(),
            client@.next_document_incarnation == Some(DocumentIncarnation { number: 1 }),
            client@.next_request_id == 2,
            client@.limits == limits.normal(),
            client@.input.entries.len() == 0,
            client@.input.connected,
            client@.input.max_items == limits.normal().max_queued_commands,
            client@.input.max_bytes == limits.normal().max_queued_input_bytes,
            client@.input.slots == limits.normal().max_queued_commands + INPUT_CONTROL_RESERVE,
            client.events.queue@.max_items == limits.normal().max_queued_events,
            client.events.queue@.max_bytes == limits.normal().max_queued_event_bytes,
            client.events.queue@.slots == limits.normal().max_queued_events + EVENT_CONTROL_RESERVE,
            client.events.queue@.entries.len() == 0,
            client.events.queue@.connected,
    {
        let limits = limits.normalized();
        LspClient {
            input: BudgetedQueue::new(
                limits.max_queued_commands,
                limits.max_queued_input_bytes,
                INPUT_CONTROL_RESERVE,
            ),
            events: EventSink::new(
                BudgetedQueue::new(
                    limits.max_queued_events,
                    limits.max_queued_event_bytes,
                    EVENT_CONTROL_RESERVE,
                ),
            ),
            phase: LspPhase::Starting,
            documents: DocumentTable::new(),
            next_document_incarnation: Some(DocumentIncarnation::new(1)),
            next_request_id: 2,
            limits,
            pid,
        }
    }

    /// The process of the server.
    pub fn pid(&self) -> (pid: u32)
        ensures
            pid == self.pid,
    {
        self.pid
    }

    /// Whether the server is initialized.
    pub fn is_ready(&self) -> (yes: bool)
        ensures
            yes == (self@.phase == LspPhase::Ready),
    {
        self.phase == LspPhase::Ready
    }

    /// Whether the session is over.
    pub fn is_stopped(&self) -> (yes: bool)
        ensures
            yes == (self@.phase == LspPhase::Stopped),
    {
        self.phase == LspPhase::Stopped
    }

    /// Ends the session.
    pub fn mark_stopped(&mut self)
        ensures
            final(self)@ == (ClientState { phase: LspPhase::Stopped, ..old(self)@ }),
            final(self).input == old(self).input,
            final(self).events == old(self).events,
            final(self).pid == old(self).pid,
    {
        self.phase = LspPhase::Stopped;
    }

    /// The oldest event for the editor.
    pub fn try_recv_event(&mut self) -> (event: Option<LspEvent>)
        requires
            old(self).events.queue.valid(),
        ensures
            final(self).events.queue.valid(),
            final(self)@ == old(self)@,
            final(self).input == old(self).input,
            final(self).events.dropped == old(self).events.dropped,
            final(self).pid == old(self).pid,
            match event {
                Some(taken) => old(self).events.queue@.entries.len() > 0 && taken == old(
                    self,
                ).events.queue@.entries[0].item && final(self).events.queue@ == (QueueState {
                    entries: old(self).events.queue@.entries.drop_first(),
                    ..old(self).events.queue@
                }),
                None => old(self).events.queue@.entries.len() == 0 && final(self).events.queue@
                    == old(self).events.queue@,
            },
    {
        self.events.queue.recv()
    }

    fn ensure_ready(&self) -> (result: Result<(), LspClientError>)
        ensures
            match readiness(self@.phase) {
                Some(reason) => fails_with(result, reason),
                None => result is Ok,
            },
    {
        match self.phase {
            LspPhase::Ready => Ok(()),
            LspPhase::Starting => Err(LspClientError::NotReady),
            LspPhase::ShuttingDown => Err(LspClientError::ShuttingDown),
            LspPhase::Stopped => Err(LspClientError::Stopped),
        }
    }

    pub fn current_document_state(&self, uri: &str) -> (result: Result<
        OpenDocumentState,
        LspClientError,
    >)
        ensures
            if self@.documents.contains_key(uri@) {
                result == Ok::<OpenDocumentState, LspClientError>(self@.documents[uri@])
            } else {
                fails_with(result, ClientError::DocumentNotOpen(uri@))
            },
    {
        match self.documents.get(uri) {
            Some(state) => Ok(state),
            None => Err(LspClientError::DocumentNotOpen(copy_text(uri))),
        }
    }

    fn require_current_version(&self, uri: &str, version: DocumentVersion) -> (result: Result<
        OpenDocumentState,
        LspClientError,
    >)
        ensures
            match version_check(self@, uri@, version) {
                Some(reason) => fails_with(result, reason),
                None => result == Ok::<OpenDocumentState, LspClientError>(self@.documents[uri@]),
            },
    {
        let current = match self.current_document_state(uri) {
            Ok(current) => current,
            Err(error) => {
                return Err(error);
            },
        };
        if current.version == version {
            Ok(current)
        } else {
            Err(
                LspClientError::StaleDocumentVersion {
                    uri: copy_text(uri),
                    attempted: version,
                    current: current.version,
                },
            )
        }
    }

    fn validate_document_size(&self, text: &str) -> (result: Result<(), LspClientError>)
        ensures
            match text_refusal(text@, self@.limits.max_document_bytes) {
                Some(reason) => fails_with(result, reason),
                None => result is Ok,
            },
    {
        let bytes = byte_len(text);
        if bytes > self.limits.max_document_bytes {
            Err(LspClientError::DocumentTooLarge { bytes, max: self.limits.max_document_bytes })
        } else {
            Ok(())
        }
    }

    fn validate_outbound_command(&self, command: &ClientCommand) -> (result: Result<
        (),
        LspClientError,
    >)
        ensures
            match size_refusal(*command, self@.limits.max_message_bytes) {
                Some(reason) => fails_with(result, reason),
                None => result is Ok,
            },
    {
        match client_command_json_len(command, self.limits.max_message_bytes) {
            Ok(_) => Ok(()),
            Err(()) => Err(
                LspClientError::MessageTooLarge { max: self.limits.max_message_bytes },
            ),
        }
    }

    /// Offers a command to the queue.
    fn enqueue_command(&mut self, command: ClientCommand) -> (result: Result<(), LspClientError>)
        requires
            old(self).valid(),
        ensures
            final(self).valid(),
            final(self).events == old(self).events,
            final(self).pid == old(self).pid,
            offered(old(self)@, command, result, final(self)@, (), old(self)@, old(self)@),
    {
        let ghost before = self@;
        let ghost max_bytes = self.input@.max_bytes as usize;
        let sent = self.input.try_send(ProtocolInput::Command(command));
        proof {
            let weight = choose|weight: usize| #[trigger]
                weighs(ProtocolInput::Command(command), max_bytes, weight) && match sent {
                    Ok(()) => before.input.has_budget(weight) && before.input.connected
                        && before.input.has_slot() && self.input@ == before.input.pushed(
                        ProtocolInput::Command(command),
                        weight,
                        true,
                    ),
                    Err(SendError::Full(_)) => self.input@ == before.input && (
                    !before.input.has_budget(weight) || (before.input.connected
                        && !before.input.has_slot())),
                    Err(SendError::Disconnected(_)) => self.input@ == before.input
                        && before.input.has_budget(weight) && !before.input.connected,
                };
            assert(weighs(
                ProtocolInput::Command(command),
                before.input.max_bytes as usize,
                weight,
            ));
        }
        match sent {
            Ok(()) => Ok(()),
            Err(SendError::Full(_)) => Err(LspClientError::QueueFull),
            Err(SendError::Disconnected(_)) => Err(LspClientError::Stopped),
        }
    }

    /// Performs every deterministic `didOpen` check without changing document
    /// state or reserving a queue slot.
    pub fn validate_did_open(
        &self,
        uri: &str,
        language_id: &str,
        version: DocumentVersion,
        text: &str,
    ) -> (result: Result<(), LspClientError>)
        ensures
            match open_refusal(self@, uri@, language_id@, version, text@) {
                Some(reason) => fails_with(result, reason),
                None => result is Ok,
            },
    {
        match self.ensure_ready() {
            Ok(()) => {},
            Err(error) => {
                return Err(error);
            },
        }
        match validate_version_range(version) {
            Ok(()) => {},
            Err(error) => {
                return Err(error);
            },
        }
        let bytes = byte_len(uri);
        if bytes > self.limits.max_document_uri_bytes {
            return Err(
                LspClientError::DocumentUriTooLarge {
                    bytes,
                    max: self.limits.max_document_uri_bytes,
                },
            );
        }
        match self.validate_document_size(text) {
            Ok(()) => {},
            Err(error) => {
                return Err(error);
            },
        }
        match did_open_json_len(uri, language_id, version, text, self.limits.max_message_bytes) {
            Ok(_) => {},
            Err(()) => {
                return Err(LspClientError::MessageTooLarge { max: self.limits.max_message_bytes });
            },
        }
        if self.documents.contains_key(uri) {
            Err(LspClientError::DocumentAlreadyOpen(copy_text(uri)))
        } else if self.documents.len() >= self.limits.max_open_documents {
            Err(LspClientError::OpenDocumentLimitReached { max: self.limits.max_open_documents })
        } else if self.next_document_incarnation.is_none() {
            Err(LspClientError::DocumentIncarnationExhausted)
        } else {
            Ok(())
        }
    }

    /// Opens a document under a fresh identity.
    pub fn did_open(
        &mut self,
        uri: String,
        language_id: String,
        version: DocumentVersion,
        text: String,
    ) -> (result: Result<DocumentIncarnation, LspClientError>)
        requires
            old(self).valid(),
        ensures
            final(self).valid(),
            final(self).events == old(self).events,
            final(self).pid == old(self).pid,
            opened(old(self)@, result, final(self)@, uri, language_id, version, text),
    {
        match self.validate_did_open(uri.as_str(), language_id.as_str(), version, text.as_str()) {
            Ok(()) => {},
            Err(error) => {
                return Err(error);
            },
        }
        let incarnation = match self.next_document_incarnation {
            Some(incarnation) => incarnation,
            None => {
                return Err(LspClientError::DocumentIncarnationExhausted);
            },
        };
        let command = ClientCommand::DidOpen {
            uri: uri.clone(),
            language_id,
            version,
            incarnation,
            text,
        };
        match self.enqueue_command(command) {
            Ok(()) => {},
            Err(error) => {
                return Err(error);
            },
        }
        self.documents.insert(uri, OpenDocumentState::new(version, incarnation));
        self.next_document_incarnation = match incarnation.get().checked_add(1) {
            Some(number) => Some(DocumentIncarnation::new(number)),
            None => None,
        };
        Ok(incarnation)
    }

    fn did_change_with_replacement_range(
        &mut self,
        uri: String,
        version: DocumentVersion,
        text: String,
        previous_end: Option<LspPosition>,
    ) -> (result: Result<(), LspClientError>)
        requires
            old(self).valid(),
        ensures
            final(self).valid(),
            final(self).events == old(self).events,
            final(self).pid == old(self).pid,
            changed(old(self)@, result, final(self)@, uri, version, text, previous_end),
    {
        match self.ensure_ready() {
            Ok(()) => {},
            Err(error) => {
                return Err(error);
            },
        }
        match validate_version_range(version) {
            Ok(()) => {},
            Err(error) => {
                return Err(error);
            },
        }
        if let Some(end) = previous_end {
            match validate_position_range(end) {
                Ok(()) => {},
                Err(error) => {
                    return Err(error);
                },
            }
        }
        let current = match self.current_document_state(uri.as_str()) {
            Ok(current) => current,
            Err(error) => {
                return Err(error);
            },
        };
        if version.get() <= current.version.get() {
            return Err(
                LspClientError::StaleDocumentVersion {
                    uri,
                    attempted: version,
                    current: current.version,
                },
            );
        }
        match self.validate_document_size(text.as_str()) {
            Ok(()) => {},
            Err(error) => {
                return Err(error);
            },
        }
        let command = ClientCommand::DidChange { uri: uri.clone(), version, previous_end, text };
        match self.validate_outbound_command(&command) {
            Ok(()) => {},
            Err(error) => {
                return Err(error);
            },
        }
        match self.enqueue_command(command) {
            Ok(()) => {},
            Err(error) => {
                return Err(error);
            },
        }
        self.documents.insert(uri, OpenDocumentState::new(version, current.incarnation));
        Ok(())
    }

    /// Sends a full-content `didChange`; versions must increase monotonically.
    pub fn did_change(&mut self, uri: String, version: DocumentVersion, text: String) -> (result:
        Result<(), LspClientError>)
        requires
            old(self).valid(),
        ensures
            final(self).valid(),
            final(self).events == old(self).events,
            final(self).pid == old(self).pid,
            changed(old(self)@, result, final(self)@, uri, version, text, None),
    {
        self.did_change_with_replacement_range(uri, version, text, None)
    }

    /// Sends one incremental `didChange` whose range replaces the complete
    /// previous document, which ended at `previous_end`.
    pub fn did_change_full_document_replacement(
        &mut self,
        uri: String,
        version: DocumentVersion,
        previous_end: LspPosition,
        text: String,
    ) -> (result: Result<(), LspClientError>)
        requires
            old(self).valid(),
        ensures
            final(self).valid(),
            final(self).events == old(self).events,
            final(self).pid == old(self).pid,
            changed(old(self)@, result, final(self)@, uri, version, text, Some(previous_end)),
    {
        self.did_change_with_replacement_range(uri, version, text, Some(previous_end))
    }

    /// Says that a document was saved in its current version.
    pub fn did_save(&mut self, uri: String, version: DocumentVersion, text: Option<String>) -> (
    result: Result<(), LspClientError>)
        requires
            old(self).valid(),
        ensures
            final(self).valid(),
            final(self).events == old(self).events,
            final(self).pid == old(self).pid,
            ({
                let command = ClientCommand::DidSave { uri, text };
                let content = match text {
                    Some(saved) => text_refusal(saved@, old(self)@.limits.max_document_bytes),
                    None => None,
                };
                let refusal = or_else(
                    or_else(readiness(old(self)@.phase), version_check(old(self)@, uri@, version)),
                    or_else(content, size_refusal(command, old(self)@.limits.max_message_bytes)),
                );
                match refusal {
                    Some(reason) => fails_with(result, reason) && final(self)@ == old(self)@,
                    None => offered(
                        old(self)@,
                        command,
                        result,
                        final(self)@,
                        (),
                        old(self)@,
                        old(self)@,
                    ),
                }
            }),
    {
        match self.ensure_ready() {
            Ok(()) => {},
            Err(error) => {
                return Err(error);
            },
        }
        match self.require_current_version(uri.as_str(), version) {
            Ok(_) => {},
            Err(error) => {
                return Err(error);
            },
        }
        if let Some(saved) = &text {
            match self.validate_document_size(saved.as_str()) {
                Ok(()) => {},
                Err(error) => {
                    return Err(error);
                },
            }
        }
        self.send_command(ClientCommand::DidSave { uri, text })
    }

    /// Closes a document.
    pub fn did_close(&mut self, uri: String) -> (result: Result<(), LspClientError>)
        requires
            old(self).valid(),
        ensures
            final(self).valid(),
            final(self).events == old(self).events,
            final(self).pid == old(self).pid,
            closed_document(old(self)@, result, final(self)@, uri),
    {
        match self.ensure_ready() {
            Ok(()) => {},
            Err(error) => {
                return Err(error);
            },
        }
        match self.current_document_state(uri.as_str()) {
            Ok(_) => {},
            Err(error) => {
                return Err(error);
            },
        }
        let command = ClientCommand::DidClose { uri: uri.clone() };
        match self.validate_outbound_command(&command) {
            Ok(()) => {},
            Err(error) => {
                return Err(error);
            },
        }
        match self.enqueue_command(command) {
            Ok(()) => {},
            Err(error) => {
                return Err(error);
            },
        }
        self.documents.remove(uri.as_str());
        Ok(())
    }

    /// Checks the size of a command and offers it to the queue.
    fn send_command(&mut self, command: ClientCommand) -> (result: Result<(), LspClientError>)
        requires
            old(self).valid(),
        ensures
            final(self).valid(),
            final(self).events == old(self).events,
            final(self).pid == old(self).pid,
            match size_refusal(command, old(self)@.limits.max_message_bytes) {
                Some(reason) => fails_with(result, reason) && final(self)@ == old(self)@,
                None => offered(
                    old(self)@,
                    command,
                    result,
                    final(self)@,
                    (),
                    old(self)@,
                    old(self)@,
                ),
            },
    {
        match self.validate_outbound_command(&command) {
            Ok(()) => {},
            Err(error) => {
                return Err(error);
            },
        }
        self.enqueue_command(command)
    }

    fn allocate_request_id(&mut self) -> (result: Result<RequestId, LspClientError>)
        requires
            old(self).valid(),
        ensures
            final(self).valid(),
            final(self).events == old(self).events,
            final(self).pid == old(self).pid,
            if old(self)@.next_request_id == u64::MAX {
                fails_with(result, ClientError::RequestIdExhausted) && final(self)@ == old(self)@
            } else {
                result == Ok::<RequestId, LspClientError>(old(self)@.next_request_id) && final(self)@ == (ClientState {
                    next_request_id: (old(self)@.next_request_id + 1) as u64,
                    ..old(self)@
                })
            },
    {
        let id = self.next_request_id;
        match id.checked_add(1) {
            Some(next) => {
                self.next_request_id = next;
                Ok(id)
            },
            None => Err(LspClientError::RequestIdExhausted),
        }
    }

    /// Makes a request.
    fn send_request(
        &mut self,
        operation: LspOperation,
        method: &'static str,
        scope: RequestScope,
        params: JsonValue,
    ) -> (result: Result<RequestId, LspClientError>)
        requires
            old(self).valid(),
        ensures
            final(self).valid(),
            final(self).events == old(self).events,
            final(self).pid == old(self).pid,
            requested(
                old(self)@,
                result,
                final(self)@,
                operation,
                method@,
                scope@,
                params@,
            ),
    {
        let ghost before = self@;
        let id = match self.allocate_request_id() {
            Ok(id) => id,
            Err(error) => {
                return Err(error);
            },
        };
        let ghost used = self@;
        let command = ClientCommand::Request { request_id: id, operation, method, scope, params };
        assert(asks(command, id, operation, method@, scope@, params@));
        let sent = self.send_command(command);
        let result = match sent {
            Ok(()) => Ok(id),
            Err(error) => Err(error),
        };
        proof {
            if size_refusal(command, before.limits.max_message_bytes) is None {
                let weight = choose|weight: usize| #[trigger]
                    weighs(
                        ProtocolInput::Command(command),
                        used.input.max_bytes as usize,
                        weight,
                    ) && match enqueued(used.input, ProtocolInput::Command(command), weight) {
                        Ok(input) => sent == Ok::<(), LspClientError>(()) && self@ == (ClientState {
                            input,
                            ..used
                        }),
                        Err(reason) => fails_with(sent, reason) && self@ == used,
                    };
                assert(weighs(
                    ProtocolInput::Command(command),
                    before.input.max_bytes as usize,
                    weight,
                ));
                assert(offered(before, command, result, self@, id, used, used));
            }
        }
        result
    }

    /// Makes a request about a document.
    fn request_feature(
        &mut self,
        operation: LspOperation,
        method: &'static str,
        uri: String,
        version: DocumentVersion,
        params: JsonObject,
    ) -> (result: Result<RequestId, LspClientError>)
        requires
            old(self).valid(),
            ordered(params@),
        ensures
            final(self).valid(),
            final(self).events == old(self).events,
            final(self).pid == old(self).pid,
            requested_of_document(
                old(self)@,
                result,
                final(self)@,
                operation,
                method@,
                uri@,
                version,
                Json::Table(params@),
            ),
    {
        match self.ensure_ready() {
            Ok(()) => {},
            Err(error) => {
                return Err(error);
            },
        }
        let current = match self.require_current_version(uri.as_str(), version) {
            Ok(current) => current,
            Err(error) => {
                return Err(error);
            },
        };
        let entries = vec![("uri", JsonValue::String(uri.clone()))];
        assert(pairs_of(entries@) =~= seq![("uri"@, Json::Text(uri@))]);
        let about = params.with("textDocument", object(entries));
        self.send_request(
            operation,
            method,
            RequestScope::Document { uri, version, incarnation: current.incarnation },
            JsonValue::Object(about),
        )
    }

    /// Asks for completions at a position.
    pub fn request_completion(
        &mut self,
        uri: String,
        version: DocumentVersion,
        position: LspPosition,
    ) -> (result: Result<RequestId, LspClientError>)
        requires
            old(self).valid(),
        ensures
            final(self).valid(),
            final(self).events == old(self).events,
            final(self).pid == old(self).pid,
            requested_of_document(
                old(self)@,
                result,
                final(self)@,
                LspOperation::Completion,
                "textDocument/completion"@,
                uri@,
                version,
                at_position(position),
            ),
    {
        let params = position_object(position);
        self.request_feature(
            LspOperation::Completion,
            "textDocument/completion",
            uri,
            version,
            params,
        )
    }

    /// Asks what stands at a position.
    pub fn request_hover(&mut self, uri: String, version: DocumentVersion, position: LspPosition) -> (
    result: Result<RequestId, LspClientError>)
        requires
            old(self).valid(),
        ensures
            final(self).valid(),
            final(self).events == old(self).events,
            final(self).pid == old(self).pid,
            requested_of_document(
                old(self)@,
                result,
                final(self)@,
                LspOperation::Hover,
                "textDocument/hover"@,
                uri@,
                version,
                at_position(position),
            ),
    {
        let params = position_object(position);
        self.request_feature(LspOperation::Hover, "textDocument/hover", uri, version, params)
    }

    /// Asks for the definition of what stands at a position.
    pub fn request_definition(
        &mut self,
        uri: String,
        version: DocumentVersion,
        position: LspPosition,
    ) -> (result: Result<RequestId, LspClientError>)
        requires
            old(self).valid(),
        ensures
            final(self).valid(),
            final(self).events == old(self).events,
            final(self).pid == old(self).pid,
            requested_of_document(
                old(self)@,
                result,
                final(self)@,
                LspOperation::Definition,
                "textDocument/definition"@,
                uri@,
                version,
                at_position(position),
            ),
    {
        let params = position_object(position);
        self.request_feature(
            LspOperation::Definition,
            "textDocument/definition",
            uri,
            version,
            params,
        )
    }

    /// Asks for the references to what stands at a position.
    pub fn request_references(
        &mut self,
        uri: String,
        version: DocumentVersion,
        position: LspPosition,
        include_declaration: bool,
    ) -> (result: Result<RequestId, LspClientError>)
        requires
            old(self).valid(),
        ensures
            final(self).valid(),
            final(self).events == old(self).events,
            final(self).pid == old(self).pid,
            requested_of_document(
                old(self)@,
                result,
                final(self)@,
                LspOperation::References,
                "textDocument/references"@,
                uri@,
                version,
                object_of(
                    seq![
                        ("position"@, position_value(position)),
                        (
                            "context"@,
                            object_of(seq![("includeDeclaration"@, Json::Bool(include_declaration))]),
                        ),
                    ],
                ),
            ),
    {
        let entries = vec![("includeDeclaration", JsonValue::Bool(include_declaration))];
        assert(pairs_of(entries@) =~= seq![
            ("includeDeclaration"@, Json::Bool(include_declaration)),
        ]);
        let context = object(entries);
        let params = position_object(position).with("context", context);
        proof {
            let all = seq![("position"@, position_value(position)), ("context"@, context@)];
            assert(all.drop_last() =~= seq![("position"@, position_value(position))]);
        }
        self.request_feature(
            LspOperation::References,
            "textDocument/references",
            uri,
            version,
            params,
        )
    }

    /// Asks for the symbols of a document.
    pub fn request_document_symbols(&mut self, uri: String, version: DocumentVersion) -> (result:
        Result<RequestId, LspClientError>)
        requires
            old(self).valid(),
        ensures
            final(self).valid(),
            final(self).events == old(self).events,
            final(self).pid == old(self).pid,
            requested_of_document(
                old(self)@,
                result,
                final(self)@,
                LspOperation::DocumentSymbols,
                "textDocument/documentSymbol"@,
                uri@,
                version,
                object_of(Seq::empty()),
            ),
    {
        self.request_feature(
            LspOperation::DocumentSymbols,
            "textDocument/documentSymbol",
            uri,
            version,
            JsonObject::new(),
        )
    }

    /// Requests symbols across the initialized workspace. This request is not
    /// tied to an open text document and is therefore valid before `did_open`.
    pub fn request_workspace_symbols(&mut self, query: String) -> (result: Result<
        RequestId,
        LspClientError,
    >)
        requires
            old(self).valid(),
        ensures
            final(self).valid(),
            final(self).events == old(self).events,
            final(self).pid == old(self).pid,
            match readiness(old(self)@.phase) {
                Some(reason) => fails_with(result, reason) && final(self)@ == old(self)@,
                None => requested(
                    old(self)@,
                    result,
                    final(self)@,
                    LspOperation::WorkspaceSymbols,
                    "workspace/symbol"@,
                    Scope::Workspace,
                    object_of(seq![("query"@, Json::Text(query@))]),
                ),
            },
    {
        match self.ensure_ready() {
            Ok(()) => {},
            Err(error) => {
                return Err(error);
            },
        }
        let entries = vec![("query", JsonValue::String(query))];
        assert(pairs_of(entries@) =~= seq![("query"@, Json::Text(query@))]);
        self.send_request(
            LspOperation::WorkspaceSymbols,
            "workspace/symbol",
            RequestScope::Workspace,
            object(entries),
        )
    }

    /// Asks the server to cancel one still-pending request. Cancellation is
    /// advisory: the server must still send one terminal response.
    pub fn cancel_request(&mut self, request_id: RequestId) -> (result: Result<(), LspClientError>)
        requires
            old(self).valid(),
        ensures
            final(self).valid(),
            final(self).events == old(self).events,
            final(self).pid == old(self).pid,
            ({
                let command = ClientCommand::CancelRequest { request_id };
                match or_else(
                    readiness(old(self)@.phase),
                    size_refusal(command, old(self)@.limits.max_message_bytes),
                ) {
                    Some(reason) => fails_with(result, reason) && final(self)@ == old(self)@,
                    None => offered(
                        old(self)@,
                        command,
                        result,
                        final(self)@,
                        (),
                        old(self)@,
                        old(self)@,
                    ),
                }
            }),
    {
        match self.ensure_ready() {
            Ok(()) => {},
            Err(error) => {
                return Err(error);
            },
        }
        self.send_command(ClientCommand::CancelRequest { request_id })
    }

    /// Asks for the edits that format a document.
    pub fn request_formatting(
        &mut self,
        uri: String,
        version: DocumentVersion,
        tab_size: usize,
        insert_spaces: bool,
    ) -> (result: Result<RequestId, LspClientError>)
        requires
            old(self).valid(),
        ensures
            final(self).valid(),
            final(self).events == old(self).events,
            final(self).pid == old(self).pid,
            requested_of_document(
                old(self)@,
                result,
                final(self)@,
                LspOperation::Formatting,
                "textDocument/formatting"@,
                uri@,
                version,
                object_of(
                    seq![
                        (
                            "options"@,
                            object_of(
                                seq![
                                    ("tabSize"@, Json::Number(decimal(tab_size as nat))),
                                    ("insertSpaces"@, Json::Bool(insert_spaces)),
                                ],
                            ),
                        ),
                    ],
                ),
            ),
    {
        let entries = vec![
            ("tabSize", JsonValue::unsigned(tab_size as u64)),
            ("insertSpaces", JsonValue::Bool(insert_spaces)),
        ];
        assert(pairs_of(entries@) =~= seq![
            ("tabSize"@, Json::Number(decimal(tab_size as nat))),
            ("insertSpaces"@, Json::Bool(insert_spaces)),
        ]);
        let options = object(entries);
        let params = JsonObject::new().with("options", options);
        proof {
            let all = seq![("options"@, options@)];
            assert(all.drop_last() =~= Seq::<(Seq<char>, Json)>::empty());
            assert(members_from(all.drop_last()) =~= Seq::<(Seq<char>, Json)>::empty());
            assert(all.last() == ("options"@, options@));
            assert(Json::Table(params@) == object_of(all));
        }
        self.request_feature(
            LspOperation::Formatting,
            "textDocument/formatting",
            uri,
            version,
            params,
        )
    }

    /// Starts the LSP `shutdown` request. `exit` is sent only after its
    /// response.
    ///
    /// A refusal by the queue makes a ready session ready again. A starting
    /// session stays in shutdown: the response to `initialize` may meanwhile
    /// have been told not to publish readiness.
    pub fn shutdown(&mut self) -> (result: Result<(), LspClientError>)
        requires
            old(self).valid(),
        ensures
            final(self).valid(),
            final(self).events == old(self).events,
            final(self).pid == old(self).pid,
            shut_down(old(self)@, result, final(self)@),
    {
        match self.phase {
            LspPhase::Stopped => {
                return Err(LspClientError::Stopped);
            },
            LspPhase::ShuttingDown => {
                return Ok(());
            },
            _ => {},
        }
        let previous = self.phase;
        let request_id = match self.allocate_request_id() {
            Ok(request_id) => request_id,
            Err(error) => {
                return Err(error);
            },
        };
        self.phase = LspPhase::ShuttingDown;
        let command = ClientCommand::Shutdown { request_id };
        let sent = match self.validate_outbound_command(&command) {
            Ok(()) => match self.input.try_send_control(ProtocolInput::Command(command)) {
                Ok(()) => Ok(()),
                Err(SendError::Full(_)) => Err(LspClientError::QueueFull),
                Err(SendError::Disconnected(_)) => Err(LspClientError::Stopped),
            },
            Err(error) => Err(error),
        };
        if sent.is_err() && previous == LspPhase::Ready {
            self.phase = LspPhase::Ready;
        }
        sent
    }
}

/// Whether a shutdown in state `before` explains `result` and `after`.
pub open spec fn shut_down(
    before: ClientState,
    result: Result<(), LspClientError>,
    after: ClientState,
) -> bool {
    let id = before.next_request_id;
    let command = ClientCommand::Shutdown { request_id: id };
    let used = ClientState { next_request_id: (id + 1) as u64, ..before };
    let refusal = or_else(
        size_refusal(command, before.limits.max_message_bytes),
        if !before.input.connected {
            Some(ClientError::Stopped)
        } else if !before.input.has_slot() {
            Some(ClientError::QueueFull)
        } else {
            None
        },
    );
    match before.phase {
        LspPhase::Stopped => fails_with(result, ClientError::Stopped) && after == before,
        LspPhase::ShuttingDown => result is Ok && after == before,
        _ => if id == u64::MAX {
            fails_with(result, ClientError::RequestIdExhausted) && after == before
        } else {
            match refusal {
                Some(reason) => fails_with(result, reason) && after == (ClientState {
                    phase: if before.phase == LspPhase::Ready {
                        LspPhase::Ready
                    } else {
                        LspPhase::ShuttingDown
                    },
                    ..used
                }),
                None => result is Ok && after == (ClientState {
                    phase: LspPhase::ShuttingDown,
                    input: before.input.pushed(ProtocolInput::Command(command), 0, false),
                    ..used
                }),
            }
        },
    }
}

/// Whether opening a document explains `result` and `after`.
pub open spec fn opened(
    before: ClientState,
    result: Result<DocumentIncarnation, LspClientError>,
    after: ClientState,
    uri: String,
    language_id: String,
    version: DocumentVersion,
    text: String,
) -> bool {
    match open_refusal(before, uri@, language_id@, version, text@) {
        Some(reason) => fails_with(result, reason) && after == before,
        None => {
            let incarnation = before.next_document_incarnation->0;
            offered(
                before,
                ClientCommand::DidOpen { uri, language_id, version, incarnation, text },
                result,
                after,
                incarnation,
                (ClientState {
                    documents: before.documents.insert(
                        uri@,
                        OpenDocumentState { version, incarnation },
                    ),
                    next_document_incarnation: if incarnation.number < u64::MAX {
                        Some(DocumentIncarnation { number: (incarnation.number + 1) as u64 })
                    } else {
                        None
                    },
                    ..before
                }),
                before,
            )
        },
    }
}

/// Whether closing a document explains `result` and `after`.
pub open spec fn closed_document(
    before: ClientState,
    result: Result<(), LspClientError>,
    after: ClientState,
    uri: String,
) -> bool {
    let command = ClientCommand::DidClose { uri };
    let known = if before.documents.contains_key(uri@) {
        None
    } else {
        Some(ClientError::DocumentNotOpen(uri@))
    };
    match or_else(
        or_else(readiness(before.phase), known),
        size_refusal(command, before.limits.max_message_bytes),
    ) {
        Some(reason) => fails_with(result, reason) && after == before,
        None => offered(
            before,
            command,
            result,
            after,
            (),
            (ClientState { documents: before.documents.remove(uri@), ..before }),
            before,
        ),
    }
}

/// Whether a change explains `result` and `after`.
pub open spec fn changed(
    before: ClientState,
    result: Result<(), LspClientError>,
    after: ClientState,
    uri: String,
    version: DocumentVersion,
    text: String,
    previous_end: Option<LspPosition>,
) -> bool {
    let command = ClientCommand::DidChange { uri, version, previous_end, text };
    match or_else(
        change_refusal(before, uri@, version, text@, previous_end),
        size_refusal(command, before.limits.max_message_bytes),
    ) {
        Some(reason) => fails_with(result, reason) && after == before,
        None => offered(
            before,
            command,
            result,
            after,
            (),
            (ClientState {
                documents: before.documents.insert(
                    uri@,
                    OpenDocumentState {
                        version,
                        incarnation: before.documents[uri@].incarnation,
                    },
                ),
                ..before
            }),
            before,
        ),
    }
}

/// Whether an identity was given out before the next one is.
pub open spec fn given_out(
    incarnation: DocumentIncarnation,
    next: Option<DocumentIncarnation>,
) -> bool {
    next matches Some(coming) ==> incarnation.number < coming.number
}

/// Whether every open document has an identity of its own that was given out,
/// and no more documents are open than the limit allows.
pub open spec fn documents_hold(state: ClientState) -> bool {
    &&& state.documents.dom().finite()
    &&& state.documents.len() <= state.limits.max_open_documents
    &&& forall|uri: Seq<char>| #[trigger]
        state.documents.contains_key(uri) ==> given_out(
            state.documents[uri].incarnation,
            state.next_document_incarnation,
        )
    &&& forall|a: Seq<char>, b: Seq<char>|
        #![trigger state.documents.contains_key(a), state.documents.contains_key(b)]
        state.documents.contains_key(a) && state.documents.contains_key(b)
            && state.documents[a].incarnation == state.documents[b].incarnation ==> a == b
}

/// A document is opened under an identity that no document had before, whether
/// it is still open or not. Identities that were given out stay so.
pub proof fn law_identities_are_never_reused(
    before: ClientState,
    result: Result<DocumentIncarnation, LspClientError>,
    after: ClientState,
    uri: String,
    language_id: String,
    version: DocumentVersion,
    text: String,
)
    requires
        documents_hold(before),
        opened(before, result, after, uri, language_id, version, text),
    ensures
        documents_hold(after),
        result matches Ok(incarnation) ==> !given_out(incarnation, before.next_document_incarnation)
            && given_out(incarnation, after.next_document_incarnation) && after.documents[uri@] == (
        OpenDocumentState { version, incarnation }),
        result is Err ==> after == before,
        forall|earlier: DocumentIncarnation| #[trigger]
            given_out(earlier, before.next_document_incarnation) ==> given_out(
                earlier,
                after.next_document_incarnation,
            ),
{
}

/// An accepted change is of a document that is open, raises its version, keeps
/// its identity and touches no other document. A refused one changes nothing.
pub proof fn law_changes_raise_the_version(
    before: ClientState,
    result: Result<(), LspClientError>,
    after: ClientState,
    uri: String,
    version: DocumentVersion,
    text: String,
    previous_end: Option<LspPosition>,
)
    requires
        documents_hold(before),
        changed(before, result, after, uri, version, text, previous_end),
    ensures
        documents_hold(after),
        result is Ok ==> before.documents.contains_key(uri@) && before.documents[uri@].version.number
            < version.number && after.documents[uri@].version == version
            && after.documents[uri@].incarnation == before.documents[uri@].incarnation
            && after.documents.remove(uri@) == before.documents.remove(uri@),
        result is Err ==> after == before,
{
    if result is Ok {
        assert(after.documents.remove(uri@) =~= before.documents.remove(uri@));
    }
}

/// Closing a document frees its place and touches no other document. A refused
/// command changes nothing.
pub proof fn law_closing_frees_a_place(
    before: ClientState,
    result: Result<(), LspClientError>,
    after: ClientState,
    uri: String,
)
    requires
        documents_hold(before),
        closed_document(before, result, after, uri),
    ensures
        documents_hold(after),
        result is Ok ==> before.documents.contains_key(uri@) && after.documents
            == before.documents.remove(uri@) && after.documents.len() + 1 == before.documents.len(),
        result is Err ==> after == before,
{
}

/// A shutdown leaves a session that was stopped, or is shutting down, as it is,
/// and one that it was accepted of takes no more commands.
pub proof fn law_shutdown_never_regresses(
    before: ClientState,
    result: Result<(), LspClientError>,
    after: ClientState,
)
    requires
        shut_down(before, result, after),
    ensures
        before.phase == LspPhase::Stopped ==> after.phase == LspPhase::Stopped,
        before.phase == LspPhase::ShuttingDown ==> after.phase == LspPhase::ShuttingDown,
        result is Ok ==> readiness(after.phase) == Some(ClientError::ShuttingDown),
{
}

/// The parameters of a request about a position, but for the document.
pub open spec fn at_position(position: LspPosition) -> Json {
    object_of(seq![("position"@, position_value(position))])
}

fn position_object(position: LspPosition) -> (params: JsonObject)
    ensures
        Json::Table(params@) == at_position(position),
        ordered(params@),
{
    proof {
        lemma_members_from(seq![("position"@, position_value(position))]);
    }
    match text_position_params(position) {
        JsonValue::Object(params) => params,
        _ => JsonObject::new(),
    }
}

/// A member whose value is a truth value.
pub open spec fn flag(key: Seq<char>, value: bool) -> (Seq<char>, Json) {
    (key, Json::Bool(value))
}

/// The numbers from 1 to `n`.
pub open spec fn numbers_to(n: nat) -> Seq<Json> {
    Seq::new(n, |i: int| Json::Number(decimal((i + 1) as nat)))
}

/// What the client says it can do with documents.
pub open spec fn document_capabilities() -> Json {
    object_of(
        seq![
            (
                "synchronization"@,
                object_of(
                    seq![
                        flag("dynamicRegistration"@, false),
                        flag("willSave"@, false),
                        flag("willSaveWaitUntil"@, false),
                        flag("didSave"@, true),
                    ],
                ),
            ),
            ("publishDiagnostics"@, object_of(seq![flag("versionSupport"@, true)])),
            ("completion"@, object_of(Seq::empty())),
            ("hover"@, object_of(Seq::empty())),
            ("definition"@, object_of(Seq::empty())),
            ("references"@, object_of(Seq::empty())),
            (
                "documentSymbol"@,
                object_of(seq![flag("hierarchicalDocumentSymbolSupport"@, true)]),
            ),
            ("formatting"@, object_of(Seq::empty())),
        ],
    )
}

/// What the client says it can do with the workspace.
pub open spec fn workspace_capabilities() -> Json {
    object_of(
        seq![
            (
                "symbol"@,
                object_of(
                    seq![
                        flag("dynamicRegistration"@, false),
                        (
                            "symbolKind"@,
                            object_of(seq![("valueSet"@, Json::List(numbers_to(26)))]),
                        ),
                    ],
                ),
            ),
        ],
    )
}

/// The parameters of `initialize`, but for the options of the server.
pub open spec fn initialize_params(
    process_id: u32,
    version: Seq<char>,
    root_uri: Option<Seq<char>>,
) -> Seq<(Seq<char>, Json)> {
    seq![
        ("processId"@, Json::Number(decimal(process_id as nat))),
        (
            "clientInfo"@,
            object_of(
                seq![("name"@, Json::Text("wscrpt"@)), ("version"@, Json::Text(version))],
            ),
        ),
        (
            "rootUri"@,
            match root_uri {
                Some(uri) => Json::Text(uri),
                None => Json::Null,
            },
        ),
        (
            "capabilities"@,
            object_of(
                seq![
                    ("textDocument"@, document_capabilities()),
                    ("workspace"@, workspace_capabilities()),
                ],
            ),
        ),
        ("trace"@, Json::Text("off"@)),
    ]
}

/// The `initialize` request.
pub open spec fn initialize_message(
    process_id: u32,
    version: Seq<char>,
    root_uri: Option<Seq<char>>,
    options: Option<Json>,
) -> Json {
    let params = initialize_params(process_id, version, root_uri);
    request_message(
        1,
        "initialize"@,
        object_of(
            match options {
                Some(value) => params.push(("initializationOptions"@, value)),
                None => params,
            },
        ),
    )
}

/// An object with one member.
fn single(key: &str, value: JsonValue) -> (json: JsonValue)
    ensures
        json@ == object_of(seq![(key@, value@)]),
{
    let entries = vec![(key, value)];
    assert(pairs_of(entries@) =~= seq![(key@, value@)]);
    object(entries)
}

fn build_document_capabilities() -> (json: JsonValue)
    ensures
        json@ == document_capabilities(),
{
    let synchronization = vec![
        ("dynamicRegistration", JsonValue::Bool(false)),
        ("willSave", JsonValue::Bool(false)),
        ("willSaveWaitUntil", JsonValue::Bool(false)),
        ("didSave", JsonValue::Bool(true)),
    ];
    assert(pairs_of(synchronization@) =~= seq![
        flag("dynamicRegistration"@, false),
        flag("willSave"@, false),
        flag("willSaveWaitUntil"@, false),
        flag("didSave"@, true),
    ]);
    let synchronization = object(synchronization);
    let publish = single("versionSupport", JsonValue::Bool(true));
    let symbols = single("hierarchicalDocumentSymbolSupport", JsonValue::Bool(true));
    let entries = vec![
        ("synchronization", synchronization),
        ("publishDiagnostics", publish),
        ("completion", empty_object()),
        ("hover", empty_object()),
        ("definition", empty_object()),
        ("references", empty_object()),
        ("documentSymbol", symbols),
        ("formatting", empty_object()),
    ];
    assert(pairs_of(entries@) =~= seq![
        ("synchronization"@, synchronization@),
        ("publishDiagnostics"@, publish@),
        ("completion"@, object_of(Seq::empty())),
        ("hover"@, object_of(Seq::empty())),
        ("definition"@, object_of(Seq::empty())),
        ("references"@, object_of(Seq::empty())),
        ("documentSymbol"@, symbols@),
        ("formatting"@, object_of(Seq::empty())),
    ]);
    object(entries)
}

fn build_workspace_capabilities() -> (json: JsonValue)
    ensures
        json@ == workspace_capabilities(),
{
    let mut kinds: Vec<JsonValue> = Vec::new();
    let mut n: u64 = 0;
    while n < 26
        invariant
            n <= 26,
            kinds@.len() == n,
            forall|i: int|
                0 <= i < n ==> json_of(#[trigger] kinds@[i]) == Json::Number(
                    decimal((i + 1) as nat),
                ),
        decreases 26 - n,
    {
        kinds.push(JsonValue::unsigned(n + 1));
        n += 1;
    }
    proof {
        lemma_list_of(kinds@);
        assert(list_of(kinds@) =~= numbers_to(26));
    }
    let kind = single("valueSet", JsonValue::Array(kinds));
    let entries = vec![("dynamicRegistration", JsonValue::Bool(false)), ("symbolKind", kind)];
    assert(pairs_of(entries@) =~= seq![
        flag("dynamicRegistration"@, false),
        ("symbolKind"@, kind@),
    ]);
    single("symbol", object(entries))
}

/// Builds the `initialize` request for a process of this program.
pub fn initialize_request(
    process_id: u32,
    version: &str,
    root_uri: Option<String>,
    options: Option<JsonValue>,
) -> (message: JsonValue)
    ensures
        message@ == initialize_message(
            process_id,
            version@,
            text_option(root_uri),
            json_option(options),
        ),
{
    let client = vec![("name", JsonValue::text("wscrpt")), ("version", JsonValue::text(version))];
    assert(pairs_of(client@) =~= seq![
        ("name"@, Json::Text("wscrpt"@)),
        ("version"@, Json::Text(version@)),
    ]);
    let client = object(client);
    let capabilities = vec![
        ("textDocument", build_document_capabilities()),
        ("workspace", build_workspace_capabilities()),
    ];
    assert(pairs_of(capabilities@) =~= seq![
        ("textDocument"@, document_capabilities()),
        ("workspace"@, workspace_capabilities()),
    ]);
    let capabilities = object(capabilities);
    let ghost root = text_option(root_uri);
    let root_uri = match root_uri {
        Some(uri) => JsonValue::String(uri),
        None => JsonValue::Null,
    };
    let mut params = vec![
        ("processId", JsonValue::unsigned(process_id as u64)),
        ("clientInfo", client),
        ("rootUri", root_uri),
        ("capabilities", capabilities),
        ("trace", JsonValue::text("off")),
    ];
    assert(pairs_of(params@) =~= initialize_params(process_id, version@, root));
    let ghost before = params@;
    match options {
        Some(value) => {
            params.push(("initializationOptions", value));
            assert(pairs_of(params@) =~= pairs_of(before).push(
                ("initializationOptions"@, value@),
            ));
        },
        None => {},
    }
    request(1, "initialize", object(params))
}

/// Direct process configuration for one language server. Arguments and paths
/// are bytes.
#[derive(Debug)]
pub struct LspServerConfig {
    pub argv: Vec<Vec<u8>>,
    pub workspace_root: Vec<u8>,
    pub root_uri: Option<String>,
    pub initialization_options: Option<JsonValue>,
    pub limits: LspClientLimits,
    pub shutdown_timeout_millis: u64,
}

/// Whether some argument holds a NUL byte.
pub open spec fn any_nul(argv: Seq<Vec<u8>>) -> bool {
    exists|i: int| 0 <= i < argv.len() && (#[trigger] argv[i])@.contains(0)
}

/// Why a configuration is refused, where `root_is_directory` says what the
/// file system says of the workspace root.
pub open spec fn config_refusal(config: LspServerConfig, root_is_directory: bool) -> Option<
    ClientError,
> {
    if config.argv@.len() == 0 || config.argv@[0]@.len() == 0 {
        Some(ClientError::InvalidConfig("argv must contain a non-empty executable"@))
    } else if any_nul(config.argv@) {
        Some(ClientError::InvalidConfig("argv must not contain NUL bytes"@))
    } else if !root_is_directory {
        Some(
            ClientError::InvalidConfig(
                "workspace root is not a directory: "@ + lossy_text(config.workspace_root@),
            ),
        )
    } else {
        None
    }
}

impl Clone for LspServerConfig {
    fn clone(&self) -> (copy: Self)
        ensures
            component_views(copy.argv@) == component_views(self.argv@),
            copy.workspace_root@ == self.workspace_root@,
            text_option(copy.root_uri) == text_option(self.root_uri),
            json_option(copy.initialization_options) == json_option(self.initialization_options),
            copy.limits == self.limits,
            copy.shutdown_timeout_millis == self.shutdown_timeout_millis,
    {
        let root_uri = match &self.root_uri {
            Some(uri) => Some(uri.clone()),
            None => None,
        };
        let initialization_options = match &self.initialization_options {
            Some(options) => Some(options.clone()),
            None => None,
        };
        LspServerConfig {
            argv: copy_list(&self.argv),
            workspace_root: copy_bytes(self.workspace_root.as_slice()),
            root_uri,
            initialization_options,
            limits: self.limits,
            shutdown_timeout_millis: self.shutdown_timeout_millis,
        }
    }
}

/// The address of a workspace root after the root was normalized: one that was
/// the root's own address follows it, another one stays.
pub fn root_uri_after(root_uri: Option<String>, original: &str, normalized: &str) -> (uri: Option<
    String,
>)
    ensures
        text_option(uri) == (if text_option(root_uri) == Some(original@) {
            Some(normalized@)
        } else {
            text_option(root_uri)
        }),
{
    match root_uri {
        Some(uri) => if same_text(uri.as_str(), original) {
            Some(copy_text(normalized))
        } else {
            Some(uri)
        },
        None => None,
    }
}

impl LspServerConfig {
    /// The configuration for `argv` in the normalized directory
    /// `workspace_root`.
    pub fn new(argv: Vec<Vec<u8>>, workspace_root: Vec<u8>) -> (config: Self)
        ensures
            config.argv == argv,
            config.workspace_root == workspace_root,
            text_option(config.root_uri) == Some(uri_of(workspace_root@)),
            config.initialization_options is None,
            config.limits == default_limits(),
            config.shutdown_timeout_millis == DEFAULT_SHUTDOWN_TIMEOUT_MILLIS,
    {
        let root_uri = Some(file_uri(workspace_root.as_slice()));
        LspServerConfig {
            argv,
            workspace_root,
            root_uri,
            initialization_options: None,
            limits: LspClientLimits::default(),
            shutdown_timeout_millis: DEFAULT_SHUTDOWN_TIMEOUT_MILLIS,
        }
    }

    /// Sets the options that the server gets.
    pub fn with_initialization_options(self, options: JsonValue) -> (config: Self)
        ensures
            config == (LspServerConfig { initialization_options: Some(options), ..self }),
    {
        let mut config = self;
        config.initialization_options = Some(options);
        config
    }

    /// Sets the limits, each moved into its accepted range.
    pub fn with_limits(self, limits: LspClientLimits) -> (config: Self)
        ensures
            config == (LspServerConfig { limits: limits.normal(), ..self }),
    {
        let mut config = self;
        config.limits = limits.normalized();
        config
    }

    /// Sets how long to wait for a graceful stop.
    pub fn with_shutdown_timeout(self, millis: u64) -> (config: Self)
        ensures
            config == (LspServerConfig {
                shutdown_timeout_millis: if millis > MAX_SHUTDOWN_TIMEOUT_MILLIS {
                    MAX_SHUTDOWN_TIMEOUT_MILLIS
                } else {
                    millis
                },
                ..self
            }),
    {
        let mut config = self;
        config.shutdown_timeout_millis = normalized_shutdown_timeout(millis);
        config
    }

    /// Checks the configuration.
    pub fn validate(&self, root_is_directory: bool) -> (result: Result<(), LspClientError>)
        ensures
            match config_refusal(*self, root_is_directory) {
                Some(reason) => fails_with(result, reason),
                None => result is Ok,
            },
    {
        if self.argv.len() == 0 || self.argv[0].len() == 0 {
            return Err(
                LspClientError::InvalidConfig(copy_text("argv must contain a non-empty executable")),
            );
        }
        let mut i: usize = 0;
        while i < self.argv.len()
            invariant
                i <= self.argv@.len(),
                forall|k: int| 0 <= k < i ==> !(#[trigger] self.argv@[k])@.contains(0),
                self.argv@.len() > 0 && self.argv@[0]@.len() > 0,
            decreases self.argv@.len() - i,
        {
            let argument = &self.argv[i];
            let mut k: usize = 0;
            while k < argument.len()
                invariant
                    k <= argument@.len(),
                    i < self.argv@.len(),
                    *argument == self.argv@[i as int],
                    forall|m: int| 0 <= m < k ==> argument@[m] != 0,
                    self.argv@.len() > 0 && self.argv@[0]@.len() > 0,
                decreases argument@.len() - k,
            {
                if argument[k] == 0 {
                    assert(self.argv@[i as int]@.contains(0));
                    return Err(
                        LspClientError::InvalidConfig(copy_text("argv must not contain NUL bytes")),
                    );
                }
                k += 1;
            }
            i += 1;
        }
        if !root_is_directory {
            let mut message = copy_text("workspace root is not a directory: ");
            message.push_str(display_path(self.workspace_root.as_slice()).as_str());
            return Err(LspClientError::InvalidConfig(message));
        }
        Ok(())
    }
}

} // verus!
