//! What the language-server client hands to the editor, and its limits.
use vstd::prelude::*;

use crate::json::{list_of, Json, JsonValue};
use crate::json_parse::{debug_quoted, debug_text};
use crate::lsp::{DocumentVersion, LspPosition};
use crate::text::{decimal, push_decimal};

verus! {

pub const DEFAULT_MAX_HEADER_BYTES: usize = 8 * 1024;

pub const DEFAULT_MAX_MESSAGE_BYTES: usize = 8 * 1024 * 1024;

pub const DEFAULT_MAX_DOCUMENT_BYTES: usize = 16 * 1024 * 1024;

pub const DEFAULT_MAX_OPEN_DOCUMENTS: usize = 64;

pub const DEFAULT_MAX_DOCUMENT_URI_BYTES: usize = 16 * 1024;

pub const DEFAULT_MAX_STDERR_BYTES: usize = 64 * 1024;

pub const DEFAULT_MAX_QUEUED_COMMANDS: usize = 128;

pub const DEFAULT_MAX_QUEUED_EVENTS: usize = 256;

pub const DEFAULT_MAX_QUEUED_INPUT_BYTES: usize = 64 * 1024 * 1024;

pub const DEFAULT_MAX_QUEUED_EVENT_BYTES: usize = 64 * 1024 * 1024;

pub const DEFAULT_READ_CHUNK_BYTES: usize = 8 * 1024;

/// Milliseconds to wait for a graceful stop unless configured otherwise.
pub const DEFAULT_SHUTDOWN_TIMEOUT_MILLIS: u64 = 750;

/// Most milliseconds to wait for a graceful stop.
pub const MAX_SHUTDOWN_TIMEOUT_MILLIS: u64 = 1000;

pub const MAX_PENDING_REQUESTS: usize = 128;

pub const MAX_QUEUE_BYTES: usize = 512 * 1024 * 1024;

pub const MAX_OPEN_DOCUMENTS: usize = 4096;

pub const MAX_DOCUMENT_URI_BYTES: usize = 1024 * 1024;

pub const MAX_DIAGNOSTICS_ALIAS_URI_BYTES: usize = 16 * 1024;

pub const MAX_DIAGNOSTICS_ALIAS_PATH_COMPONENTS: usize = 256;

pub const INPUT_CONTROL_RESERVE: usize = 4;

pub const EVENT_CONTROL_RESERVE: usize = 1;

/// Resource bounds for one language-server process.
#[derive(Clone, Copy, Debug, PartialEq, Eq, Structural)]
pub struct LspClientLimits {
    pub max_header_bytes: usize,
    pub max_message_bytes: usize,
    pub max_document_bytes: usize,
    pub max_open_documents: usize,
    pub max_document_uri_bytes: usize,
    pub max_stderr_bytes: usize,
    pub max_queued_commands: usize,
    pub max_queued_events: usize,
    pub max_queued_input_bytes: usize,
    pub max_queued_event_bytes: usize,
    pub read_chunk_bytes: usize,
}

/// The limits of a session that sets none.
pub open spec fn default_limits() -> LspClientLimits {
    LspClientLimits {
        max_header_bytes: DEFAULT_MAX_HEADER_BYTES,
        max_message_bytes: DEFAULT_MAX_MESSAGE_BYTES,
        max_document_bytes: DEFAULT_MAX_DOCUMENT_BYTES,
        max_open_documents: DEFAULT_MAX_OPEN_DOCUMENTS,
        max_document_uri_bytes: DEFAULT_MAX_DOCUMENT_URI_BYTES,
        max_stderr_bytes: DEFAULT_MAX_STDERR_BYTES,
        max_queued_commands: DEFAULT_MAX_QUEUED_COMMANDS,
        max_queued_events: DEFAULT_MAX_QUEUED_EVENTS,
        max_queued_input_bytes: DEFAULT_MAX_QUEUED_INPUT_BYTES,
        max_queued_event_bytes: DEFAULT_MAX_QUEUED_EVENT_BYTES,
        read_chunk_bytes: DEFAULT_READ_CHUNK_BYTES,
    }
}

impl Default for LspClientLimits {
    fn default() -> (limits: Self)
        ensures
            limits == default_limits(),
    {
        LspClientLimits {
            max_header_bytes: DEFAULT_MAX_HEADER_BYTES,
            max_message_bytes: DEFAULT_MAX_MESSAGE_BYTES,
            max_document_bytes: DEFAULT_MAX_DOCUMENT_BYTES,
            max_open_documents: DEFAULT_MAX_OPEN_DOCUMENTS,
            max_document_uri_bytes: DEFAULT_MAX_DOCUMENT_URI_BYTES,
            max_stderr_bytes: DEFAULT_MAX_STDERR_BYTES,
            max_queued_commands: DEFAULT_MAX_QUEUED_COMMANDS,
            max_queued_events: DEFAULT_MAX_QUEUED_EVENTS,
            max_queued_input_bytes: DEFAULT_MAX_QUEUED_INPUT_BYTES,
            max_queued_event_bytes: DEFAULT_MAX_QUEUED_EVENT_BYTES,
            read_chunk_bytes: DEFAULT_READ_CHUNK_BYTES,
        }
    }
}

/// The value of `low..=high` that is nearest to `value`.
pub open spec fn clamped(value: usize, low: usize, high: usize) -> usize {
    if value < low {
        low
    } else if value > high {
        high
    } else {
        value
    }
}

/// Moves a value into `low..=high`.
fn clamp_to(value: usize, low: usize, high: usize) -> (result: usize)
    ensures
        result == clamped(value, low, high),
{
    if value < low {
        low
    } else if value > high {
        high
    } else {
        value
    }
}

impl LspClientLimits {
    /// These limits with each one moved into its accepted range.
    pub open spec fn normal(self) -> Self {
        LspClientLimits {
            max_header_bytes: clamped(self.max_header_bytes, 64, 65536),
            max_message_bytes: clamped(self.max_message_bytes, 1024, 67108864),
            max_document_bytes: clamped(self.max_document_bytes, 1024, 134217728),
            max_open_documents: clamped(self.max_open_documents, 1, MAX_OPEN_DOCUMENTS),
            max_document_uri_bytes: clamped(
                self.max_document_uri_bytes,
                64,
                MAX_DOCUMENT_URI_BYTES,
            ),
            max_stderr_bytes: clamped(self.max_stderr_bytes, 0, 16777216),
            max_queued_commands: clamped(self.max_queued_commands, 1, 4096),
            max_queued_events: clamped(self.max_queued_events, 1, 4096),
            max_queued_input_bytes: clamped(self.max_queued_input_bytes, 1024, MAX_QUEUE_BYTES),
            max_queued_event_bytes: clamped(self.max_queued_event_bytes, 1024, MAX_QUEUE_BYTES),
            read_chunk_bytes: clamped(self.read_chunk_bytes, 256, 65536),
        }
    }

    /// Moves each limit into its accepted range.
    pub fn normalized(self) -> (limits: Self)
        ensures
            limits == self.normal(),
    {
        LspClientLimits {
            max_header_bytes: clamp_to(self.max_header_bytes, 64, 65536),
            max_message_bytes: clamp_to(self.max_message_bytes, 1024, 67108864),
            max_document_bytes: clamp_to(self.max_document_bytes, 1024, 134217728),
            max_open_documents: clamp_to(self.max_open_documents, 1, MAX_OPEN_DOCUMENTS),
            max_document_uri_bytes: clamp_to(
                self.max_document_uri_bytes,
                64,
                MAX_DOCUMENT_URI_BYTES,
            ),
            max_stderr_bytes: clamp_to(self.max_stderr_bytes, 0, 16777216),
            max_queued_commands: clamp_to(self.max_queued_commands, 1, 4096),
            max_queued_events: clamp_to(self.max_queued_events, 1, 4096),
            max_queued_input_bytes: clamp_to(self.max_queued_input_bytes, 1024, MAX_QUEUE_BYTES),
            max_queued_event_bytes: clamp_to(self.max_queued_event_bytes, 1024, MAX_QUEUE_BYTES),
            read_chunk_bytes: clamp_to(self.read_chunk_bytes, 256, 65536),
        }
    }
}

/// Normalizing twice changes nothing more.
pub proof fn law_limits_normalize_once(limits: LspClientLimits)
    ensures
        limits.normal().normal() == limits.normal(),
{
}

/// Bounds a wait for a graceful stop.
pub fn normalized_shutdown_timeout(millis: u64) -> (bounded: u64)
    ensures
        bounded == (if millis > MAX_SHUTDOWN_TIMEOUT_MILLIS {
            MAX_SHUTDOWN_TIMEOUT_MILLIS
        } else {
            millis
        }),
{
    if millis > MAX_SHUTDOWN_TIMEOUT_MILLIS {
        MAX_SHUTDOWN_TIMEOUT_MILLIS
    } else {
        millis
    }
}

/// A zero-based UTF-16 LSP range.
#[derive(Clone, Copy, Debug, PartialEq, Eq, Structural)]
pub struct LspRange {
    pub start: LspPosition,
    pub end: LspPosition,
}

impl LspRange {
    /// The range from `start` to `end`.
    pub fn new(start: LspPosition, end: LspPosition) -> (range: Self)
        ensures
            range.start == start,
            range.end == end,
    {
        LspRange { start, end }
    }
}

pub type RequestId = u64;

/// Monotonic identity for one successful `didOpen` within an LSP client
/// session. A URI may reuse its document version after close/reopen, but it
/// never reuses this identity.
#[derive(Clone, Copy, Debug, PartialEq, Eq, PartialOrd, Ord, Hash, Structural)]
pub struct DocumentIncarnation {
    pub number: u64,
}

impl DocumentIncarnation {
    /// The identity with this number.
    pub fn new(number: u64) -> (incarnation: Self)
        ensures
            incarnation.number == number,
    {
        DocumentIncarnation { number }
    }

    /// The number of this identity.
    pub fn get(self) -> (number: u64)
        ensures
            number == self.number,
    {
        self.number
    }
}

/// What is known of an open document.
#[derive(Clone, Copy, Debug, PartialEq, Eq, Structural)]
pub struct OpenDocumentState {
    pub version: DocumentVersion,
    pub incarnation: DocumentIncarnation,
}

impl OpenDocumentState {
    /// A document opened as `incarnation`, now at `version`.
    pub fn new(version: DocumentVersion, incarnation: DocumentIncarnation) -> (state: Self)
        ensures
            state.version == version,
            state.incarnation == incarnation,
    {
        OpenDocumentState { version, incarnation }
    }
}

/// The operation associated with a correlated JSON-RPC request.
#[derive(Clone, Copy, Debug, PartialEq, Eq, Structural)]
pub enum LspOperation {
    Initialize,
    Completion,
    Hover,
    Definition,
    References,
    DocumentSymbols,
    WorkspaceSymbols,
    Formatting,
    Shutdown,
}

/// JSON-RPC error returned by the server.
#[derive(Clone, Debug, PartialEq, Eq)]
pub struct JsonRpcError {
    pub code: i64,
    pub message: String,
    pub data: Option<JsonValue>,
}

/// What a [`JsonRpcError`] says.
pub struct RpcError {
    pub code: i64,
    pub message: Seq<char>,
    pub data: Option<Json>,
}

/// The content of an optional value.
pub open spec fn json_option(value: Option<JsonValue>) -> Option<Json> {
    match value {
        Some(v) => Some(v@),
        None => None,
    }
}

/// The content of an optional text.
pub open spec fn text_option(value: Option<String>) -> Option<Seq<char>> {
    match value {
        Some(v) => Some(v@),
        None => None,
    }
}

impl View for JsonRpcError {
    type V = RpcError;

    open spec fn view(&self) -> RpcError {
        RpcError { code: self.code, message: self.message@, data: json_option(self.data) }
    }
}

/// Normalized static text-document synchronization advertised by the server.
///
/// `full` and `incremental` describe distinct wire shapes. A whole-document
/// replacement sent to an incremental server still requires an explicit range.
#[derive(Clone, Copy, Debug, PartialEq, Eq, Structural)]
pub struct TextDocumentSyncCapability {
    pub open_close: bool,
    pub full: bool,
    pub incremental: bool,
    pub save: bool,
    pub save_include_text: bool,
}

impl TextDocumentSyncCapability {
    /// Nothing is synchronized.
    pub open spec fn nothing() -> Self {
        TextDocumentSyncCapability {
            open_close: false,
            full: false,
            incremental: false,
            save: false,
            save_include_text: false,
        }
    }
}

impl Default for TextDocumentSyncCapability {
    fn default() -> (capability: Self)
        ensures
            capability == TextDocumentSyncCapability::nothing(),
    {
        TextDocumentSyncCapability {
            open_close: false,
            full: false,
            incremental: false,
            save: false,
            save_include_text: false,
        }
    }
}

/// Events emitted to the editor. Large feature payloads remain lossless JSON
/// because LSP response shapes vary by server and negotiated capability.
#[derive(Clone, Debug, PartialEq, Eq)]
pub enum LspEvent {
    Ready {
        capabilities: JsonValue,
        /// Whether the server advertised `workspaceSymbolProvider` as `true`
        /// or as an options object for this client session.
        workspace_symbols: bool,
        text_document_sync: TextDocumentSyncCapability,
    },
    Diagnostics {
        uri: String,
        /// Optional version supplied by the language server publication.
        version: Option<DocumentVersion>,
        /// Client version observed in protocol-input order immediately before
        /// this server frame was processed.
        observed_version: Option<DocumentVersion>,
        /// Open-document identity observed at the same protocol-order point as
        /// `observed_version`.
        observed_incarnation: Option<DocumentIncarnation>,
        diagnostics: Vec<JsonValue>,
    },
    /// A `publishDiagnostics` notification was structurally invalid and must
    /// not leave an older cache bucket looking current.
    DiagnosticsRejected {
        /// Present when the notification supplied a valid string URI before a
        /// later field failed validation.
        uri: Option<String>,
        reason: String,
    },
    Completion { request_id: RequestId, uri: String, version: DocumentVersion, result: JsonValue },
    Hover { request_id: RequestId, uri: String, version: DocumentVersion, result: JsonValue },
    Definition { request_id: RequestId, uri: String, version: DocumentVersion, result: JsonValue },
    References { request_id: RequestId, uri: String, version: DocumentVersion, result: JsonValue },
    DocumentSymbols {
        request_id: RequestId,
        uri: String,
        version: DocumentVersion,
        result: JsonValue,
    },
    WorkspaceSymbols { request_id: RequestId, result: JsonValue },
    Formatting { request_id: RequestId, uri: String, version: DocumentVersion, result: JsonValue },
    RequestFailed { request_id: RequestId, operation: LspOperation, error: JsonRpcError },
    StaleResponse {
        request_id: RequestId,
        operation: LspOperation,
        uri: String,
        requested_version: DocumentVersion,
        current_version: Option<DocumentVersion>,
    },
    StaleDiagnostics {
        uri: String,
        received_version: DocumentVersion,
        current_version: Option<DocumentVersion>,
    },
    ServerNotification { method: String, params: Option<JsonValue> },
    ServerRequestRejected { method: String },
    Stderr(Vec<u8>),
    StderrTruncated { limit: usize },
    ProtocolError(String),
    TransportError(String),
    EventsDropped { count: usize },
    ShutdownComplete,
    ServerClosed,
}

/// What an [`LspEvent`] says. The answers to requests about one document
/// differ only in the operation.
pub enum Event {
    Ready {
        capabilities: Json,
        workspace_symbols: bool,
        text_document_sync: TextDocumentSyncCapability,
    },
    Diagnostics {
        uri: Seq<char>,
        version: Option<DocumentVersion>,
        observed_version: Option<DocumentVersion>,
        observed_incarnation: Option<DocumentIncarnation>,
        diagnostics: Seq<Json>,
    },
    DiagnosticsRejected { uri: Option<Seq<char>>, reason: Seq<char> },
    Answer {
        operation: LspOperation,
        request_id: RequestId,
        uri: Seq<char>,
        version: DocumentVersion,
        result: Json,
    },
    WorkspaceSymbols { request_id: RequestId, result: Json },
    RequestFailed { request_id: RequestId, operation: LspOperation, error: RpcError },
    StaleResponse {
        request_id: RequestId,
        operation: LspOperation,
        uri: Seq<char>,
        requested_version: DocumentVersion,
        current_version: Option<DocumentVersion>,
    },
    StaleDiagnostics {
        uri: Seq<char>,
        received_version: DocumentVersion,
        current_version: Option<DocumentVersion>,
    },
    ServerNotification { method: Seq<char>, params: Option<Json> },
    ServerRequestRejected { method: Seq<char> },
    Stderr(Seq<u8>),
    StderrTruncated { limit: usize },
    ProtocolError(Seq<char>),
    TransportError(Seq<char>),
    EventsDropped { count: usize },
    ShutdownComplete,
    ServerClosed,
}

/// The content of an answer about one document.
pub open spec fn answer(
    operation: LspOperation,
    request_id: RequestId,
    uri: String,
    version: DocumentVersion,
    result: JsonValue,
) -> Event {
    Event::Answer { operation, request_id, uri: uri@, version, result: result@ }
}

impl View for LspEvent {
    type V = Event;

    open spec fn view(&self) -> Event {
        match *self {
            LspEvent::Ready { capabilities, workspace_symbols, text_document_sync } => Event::Ready {
                capabilities: capabilities@,
                workspace_symbols,
                text_document_sync,
            },
            LspEvent::Diagnostics {
                uri,
                version,
                observed_version,
                observed_incarnation,
                diagnostics,
            } => Event::Diagnostics {
                uri: uri@,
                version,
                observed_version,
                observed_incarnation,
                diagnostics: list_of(diagnostics@),
            },
            LspEvent::DiagnosticsRejected { uri, reason } => Event::DiagnosticsRejected {
                uri: text_option(uri),
                reason: reason@,
            },
            LspEvent::Completion { request_id, uri, version, result } => answer(
                LspOperation::Completion,
                request_id,
                uri,
                version,
                result,
            ),
            LspEvent::Hover { request_id, uri, version, result } => answer(
                LspOperation::Hover,
                request_id,
                uri,
                version,
                result,
            ),
            LspEvent::Definition { request_id, uri, version, result } => answer(
                LspOperation::Definition,
                request_id,
                uri,
                version,
                result,
            ),
            LspEvent::References { request_id, uri, version, result } => answer(
                LspOperation::References,
                request_id,
                uri,
                version,
                result,
            ),
            LspEvent::DocumentSymbols { request_id, uri, version, result } => answer(
                LspOperation::DocumentSymbols,
                request_id,
                uri,
                version,
                result,
            ),
            LspEvent::WorkspaceSymbols { request_id, result } => Event::WorkspaceSymbols {
                request_id,
                result: result@,
            },
            LspEvent::Formatting { request_id, uri, version, result } => answer(
                LspOperation::Formatting,
                request_id,
                uri,
                version,
                result,
            ),
            LspEvent::RequestFailed { request_id, operation, error } => Event::RequestFailed {
                request_id,
                operation,
                error: error@,
            },
            LspEvent::StaleResponse {
                request_id,
                operation,
                uri,
                requested_version,
                current_version,
            } => Event::StaleResponse {
                request_id,
                operation,
                uri: uri@,
                requested_version,
                current_version,
            },
            LspEvent::StaleDiagnostics { uri, received_version, current_version } =>
            Event::StaleDiagnostics { uri: uri@, received_version, current_version },
            LspEvent::ServerNotification { method, params } => Event::ServerNotification {
                method: method@,
                params: json_option(params),
            },
            LspEvent::ServerRequestRejected { method } => Event::ServerRequestRejected {
                method: method@,
            },
            LspEvent::Stderr(bytes) => Event::Stderr(bytes@),
            LspEvent::StderrTruncated { limit } => Event::StderrTruncated { limit },
            LspEvent::ProtocolError(message) => Event::ProtocolError(message@),
            LspEvent::TransportError(message) => Event::TransportError(message@),
            LspEvent::EventsDropped { count } => Event::EventsDropped { count },
            LspEvent::ShutdownComplete => Event::ShutdownComplete,
            LspEvent::ServerClosed => Event::ServerClosed,
        }
    }
}

/// Public API failure before a request reaches the language server.
#[derive(Clone, Debug, PartialEq, Eq)]
pub enum LspClientError {
    InvalidConfig(String),
    Spawn { executable: String, reason: String },
    NotReady,
    Stopped,
    ShuttingDown,
    QueueFull,
    RequestIdExhausted,
    DocumentIncarnationExhausted,
    DocumentAlreadyOpen(String),
    DocumentNotOpen(String),
    OpenDocumentLimitReached { max: usize },
    DocumentUriTooLarge { bytes: usize, max: usize },
    StaleDocumentVersion { uri: String, attempted: DocumentVersion, current: DocumentVersion },
    VersionOutOfRange(DocumentVersion),
    PositionOutOfRange(LspPosition),
    DocumentTooLarge { bytes: usize, max: usize },
    MessageTooLarge { max: usize },
}

/// What an [`LspClientError`] says.
pub enum ClientError {
    InvalidConfig(Seq<char>),
    Spawn { executable: Seq<char>, reason: Seq<char> },
    NotReady,
    Stopped,
    ShuttingDown,
    QueueFull,
    RequestIdExhausted,
    DocumentIncarnationExhausted,
    DocumentAlreadyOpen(Seq<char>),
    DocumentNotOpen(Seq<char>),
    OpenDocumentLimitReached { max: usize },
    DocumentUriTooLarge { bytes: nat, max: usize },
    StaleDocumentVersion { uri: Seq<char>, attempted: DocumentVersion, current: DocumentVersion },
    VersionOutOfRange(DocumentVersion),
    PositionOutOfRange(LspPosition),
    DocumentTooLarge { bytes: nat, max: usize },
    MessageTooLarge { max: usize },
}

impl View for LspClientError {
    type V = ClientError;

    open spec fn view(&self) -> ClientError {
        match *self {
            LspClientError::InvalidConfig(message) => ClientError::InvalidConfig(message@),
            LspClientError::Spawn { executable, reason } => ClientError::Spawn {
                executable: executable@,
                reason: reason@,
            },
            LspClientError::NotReady => ClientError::NotReady,
            LspClientError::Stopped => ClientError::Stopped,
            LspClientError::ShuttingDown => ClientError::ShuttingDown,
            LspClientError::QueueFull => ClientError::QueueFull,
            LspClientError::RequestIdExhausted => ClientError::RequestIdExhausted,
            LspClientError::DocumentIncarnationExhausted =>
            ClientError::DocumentIncarnationExhausted,
            LspClientError::DocumentAlreadyOpen(uri) => ClientError::DocumentAlreadyOpen(uri@),
            LspClientError::DocumentNotOpen(uri) => ClientError::DocumentNotOpen(uri@),
            LspClientError::OpenDocumentLimitReached { max } =>
            ClientError::OpenDocumentLimitReached { max },
            LspClientError::DocumentUriTooLarge { bytes, max } => ClientError::DocumentUriTooLarge {
                bytes: bytes as nat,
                max,
            },
            LspClientError::StaleDocumentVersion { uri, attempted, current } =>
            ClientError::StaleDocumentVersion { uri: uri@, attempted, current },
            LspClientError::VersionOutOfRange(version) => ClientError::VersionOutOfRange(version),
            LspClientError::PositionOutOfRange(position) => ClientError::PositionOutOfRange(
                position,
            ),
            LspClientError::DocumentTooLarge { bytes, max } => ClientError::DocumentTooLarge {
                bytes: bytes as nat,
                max,
            },
            LspClientError::MessageTooLarge { max } => ClientError::MessageTooLarge { max },
        }
    }
}

/// The sentence for an error.
pub open spec fn error_words(error: ClientError) -> Seq<char> {
    match error {
        ClientError::InvalidConfig(message) => "invalid LSP config: "@ + message,
        ClientError::Spawn { executable, reason } => "could not spawn language server "@
            + debug_text(executable) + ": "@ + reason,
        ClientError::NotReady => "language server has not initialized"@,
        ClientError::Stopped => "language server has stopped"@,
        ClientError::ShuttingDown => "language server is shutting down"@,
        ClientError::QueueFull => "language-server command queue is full"@,
        ClientError::RequestIdExhausted => "LSP request ID counter exhausted"@,
        ClientError::DocumentIncarnationExhausted => "LSP document-incarnation counter exhausted"@,
        ClientError::DocumentAlreadyOpen(uri) => "document is already open: "@ + uri,
        ClientError::DocumentNotOpen(uri) => "document is not open: "@ + uri,
        ClientError::OpenDocumentLimitReached { max } =>
        "language-server open-document limit reached ("@ + decimal(max as nat) + ")"@,
        ClientError::DocumentUriTooLarge { bytes, max } => "document URI is "@ + decimal(bytes)
            + " bytes; limit is "@ + decimal(max as nat),
        ClientError::StaleDocumentVersion { uri, attempted, current } => "stale version "@
            + decimal(attempted.number as nat) + " for "@ + uri + "; current version is "@
            + decimal(current.number as nat),
        ClientError::VersionOutOfRange(version) => "document version "@ + decimal(
            version.number as nat,
        ) + " exceeds LSP's signed 32-bit range"@,
        ClientError::PositionOutOfRange(position) => "LSP position "@ + decimal(
            position.line.index as nat,
        ) + ":"@ + decimal(position.character.units as nat)
            + " exceeds the protocol's signed 32-bit coordinate range"@,
        ClientError::DocumentTooLarge { bytes, max } => "document payload is "@ + decimal(bytes)
            + " bytes; limit is "@ + decimal(max as nat),
        ClientError::MessageTooLarge { max } => "outbound LSP message exceeds the "@ + decimal(
            max as nat,
        ) + "-byte limit"@,
    }
}

impl LspClientError {
    /// A sentence for the error.
    pub fn describe(&self) -> (text: String)
        ensures
            text@ == error_words(self@),
    {
        let mut text = String::new();
        match self {
            LspClientError::InvalidConfig(message) => {
                text.push_str("invalid LSP config: ");
                text.push_str(message.as_str());
            },
            LspClientError::Spawn { executable, reason } => {
                text.push_str("could not spawn language server ");
                text.push_str(debug_quoted(executable.as_str()).as_str());
                text.push_str(": ");
                text.push_str(reason.as_str());
            },
            LspClientError::NotReady => {
                text.push_str("language server has not initialized");
            },
            LspClientError::Stopped => {
                text.push_str("language server has stopped");
            },
            LspClientError::ShuttingDown => {
                text.push_str("language server is shutting down");
            },
            LspClientError::QueueFull => {
                text.push_str("language-server command queue is full");
            },
            LspClientError::RequestIdExhausted => {
                text.push_str("LSP request ID counter exhausted");
            },
            LspClientError::DocumentIncarnationExhausted => {
                text.push_str("LSP document-incarnation counter exhausted");
            },
            LspClientError::DocumentAlreadyOpen(uri) => {
                text.push_str("document is already open: ");
                text.push_str(uri.as_str());
            },
            LspClientError::DocumentNotOpen(uri) => {
                text.push_str("document is not open: ");
                text.push_str(uri.as_str());
            },
            LspClientError::OpenDocumentLimitReached { max } => {
                text.push_str("language-server open-document limit reached (");
                push_decimal(&mut text, *max as u64);
                text.push_str(")");
            },
            LspClientError::DocumentUriTooLarge { bytes, max } => {
                text.push_str("document URI is ");
                push_decimal(&mut text, *bytes as u64);
                text.push_str(" bytes; limit is ");
                push_decimal(&mut text, *max as u64);
            },
            LspClientError::StaleDocumentVersion { uri, attempted, current } => {
                text.push_str("stale version ");
                push_decimal(&mut text, attempted.number);
                text.push_str(" for ");
                text.push_str(uri.as_str());
                text.push_str("; current version is ");
                push_decimal(&mut text, current.number);
            },
            LspClientError::VersionOutOfRange(version) => {
                text.push_str("document version ");
                push_decimal(&mut text, version.number);
                text.push_str(" exceeds LSP's signed 32-bit range");
            },
            LspClientError::PositionOutOfRange(position) => {
                text.push_str("LSP position ");
                push_decimal(&mut text, position.line.index as u64);
                text.push_str(":");
                push_decimal(&mut text, position.character.units as u64);
                text.push_str(" exceeds the protocol's signed 32-bit coordinate range");
            },
            LspClientError::DocumentTooLarge { bytes, max } => {
                text.push_str("document payload is ");
                push_decimal(&mut text, *bytes as u64);
                text.push_str(" bytes; limit is ");
                push_decimal(&mut text, *max as u64);
            },
            LspClientError::MessageTooLarge { max } => {
                text.push_str("outbound LSP message exceeds the ");
                push_decimal(&mut text, *max as u64);
                text.push_str("-byte limit");
            },
        }
        assert(text@ =~= error_words(self@));
        text
    }
}

} // verus!
