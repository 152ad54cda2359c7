//! The decisions of the protocol loop: from what arrived and what is
//! outstanding to what is sent and what the editor is told.
//!
//! A plan lists what to do in order. Where a write fails, the rest of the plan
//! is dropped and the loop ends.
use vstd::prelude::*;

use crate::file_uri::{
    component_count, file_uri, file_uri_to_path, has_more_components, lexical,
    lexically_normalized_diagnostics_path, path_of, uri_of,
};
use crate::json::{
    lemma_without_other, lookup, member_of, member_unsigned, object, object_of, pairs_of,
    signed_of, text_value, unsigned_of, without_member, Json, JsonObject, JsonValue,
    MAX_JSON_DEPTH,
};
use crate::json_parse::{described, parsed};
use crate::json_write::{height, printed};
use crate::lsp::{DocumentVersion, LspPosition};
use crate::lsp_command::{
    client_command_json, command_text, message_json, writable, ClientCommand, RequestScope, Scope,
};
use crate::lsp_queue::{after_emit, weighs, EventSink, ProtocolInput};
use crate::lsp_tables::{
    deferred_in, distinct_requests, is_initializing, lemma_request_index, lemma_requests,
    request_index, request_of, with_request, without_request, DocumentTable, Pending,
    PendingRequest, PendingTable,
};
use crate::lsp_types::{
    json_option, text_option, Event, JsonRpcError, LspEvent, LspOperation, OpenDocumentState,
    RequestId, RpcError, TextDocumentSyncCapability, MAX_DIAGNOSTICS_ALIAS_PATH_COMPONENTS,
    MAX_DIAGNOSTICS_ALIAS_URI_BYTES, MAX_DOCUMENT_URI_BYTES, MAX_PENDING_REQUESTS,
};
use crate::text::{
    byte_len, copy_text, decimal, push_decimal, same_text, signed_decimal, utf8_len,
};

verus! {

/// The error code of a request for which no slot is left.
pub const PENDING_LIMIT_CODE: i64 = -32099;

/// The error code of a request whose response is malformed.
pub const INVALID_SERVER_RESPONSE_CODE: i64 = -32098;

/// Where a client is in its life.
#[derive(Clone, Copy, Debug, PartialEq, Eq, Structural)]
pub enum LspPhase {
    Starting,
    Ready,
    ShuttingDown,
    Stopped,
}

impl LspPhase {
    /// Becomes ready unless something else happened meanwhile.
    pub fn publish_ready(&mut self) -> (published: bool)
        ensures
            published == (*old(self) == LspPhase::Starting),
            *final(self) == (if *old(self) == LspPhase::Starting {
                LspPhase::Ready
            } else {
                *old(self)
            }),
    {
        if *self == LspPhase::Starting {
            *self = LspPhase::Ready;
            true
        } else {
            false
        }
    }
}

/// One thing to do.
#[derive(Debug)]
pub enum ProtocolAction {
    /// Tell the editor.
    Emit(LspEvent),
    /// Write one message. A failure ends the loop, and the editor is told of it
    /// where `report_failure` says so.
    Send { json: String, report_failure: bool },
    /// Become ready and tell the editor, unless a shutdown came first.
    PublishReady(LspEvent),
}

/// The content of a [`ProtocolAction`].
pub enum Action {
    Emit(Event),
    Send { json: Seq<char>, report_failure: bool },
    PublishReady(Event),
}

impl View for ProtocolAction {
    type V = Action;

    open spec fn view(&self) -> Action {
        match *self {
            ProtocolAction::Emit(event) => Action::Emit(event@),
            ProtocolAction::Send { json, report_failure } => Action::Send {
                json: json@,
                report_failure,
            },
            ProtocolAction::PublishReady(event) => Action::PublishReady(event@),
        }
    }
}

/// What to do, in order, and whether the loop goes on afterwards.
#[derive(Debug)]
pub struct ProtocolPlan {
    pub actions: Vec<ProtocolAction>,
    pub keep_running: bool,
}

/// The content of a [`ProtocolPlan`].
pub struct Plan {
    pub actions: Seq<Action>,
    pub keep_running: bool,
}

/// The contents of actions.
pub open spec fn actions_of(actions: Seq<ProtocolAction>) -> Seq<Action> {
    actions.map_values(|action: ProtocolAction| action@)
}

impl View for ProtocolPlan {
    type V = Plan;

    open spec fn view(&self) -> Plan {
        Plan { actions: actions_of(self.actions@), keep_running: self.keep_running }
    }
}

/// Nothing to do.
pub open spec fn nothing(keep_running: bool) -> Plan {
    Plan { actions: Seq::empty(), keep_running }
}

/// Tell the editor.
pub open spec fn tell(event: Event, keep_running: bool) -> Plan {
    Plan { actions: seq![Action::Emit(event)], keep_running }
}

/// One action before a plan.
pub open spec fn first(action: Action, rest: Plan) -> Plan {
    Plan { actions: seq![action] + rest.actions, keep_running: rest.keep_running }
}

/// The message of a transport failure, and the end of the loop.
pub open spec fn transport_failure(message: Seq<char>) -> Plan {
    tell(Event::TransportError(message), false)
}

/// The text of a message within the limit.
pub open spec fn message_text(message: Json, max: usize) -> Option<Seq<char>> {
    if height(message) <= MAX_JSON_DEPTH && utf8_len(printed(message)) <= max {
        Some(printed(message))
    } else {
        None
    }
}

/// What is said of a message that cannot be written.
pub open spec fn oversize_message(max: usize) -> Seq<char> {
    "outbound LSP message exceeds the "@ + decimal(max as nat) + "-byte or JSON-depth limit"@
}

/// What is said of a command that cannot be written.
pub open spec fn oversize_command(max: usize) -> Seq<char> {
    "outbound LSP message exceeds the "@ + decimal(max as nat) + "-byte limit"@
}

/// Send a message and go on with `rest`.
pub open spec fn send_then(message: Json, max: usize, rest: Plan) -> Plan {
    match message_text(message, max) {
        Some(json) => first(Action::Send { json, report_failure: true }, rest),
        None => transport_failure(oversize_message(max)),
    }
}

/// Send a command and go on with `rest`.
pub open spec fn command_then(command: ClientCommand, max: usize, rest: Plan) -> Plan {
    if writable(command) && utf8_len(command_text(command)) <= max {
        first(Action::Send { json: command_text(command), report_failure: true }, rest)
    } else {
        transport_failure(oversize_command(max))
    }
}

fn plan_nothing(keep_running: bool) -> (plan: ProtocolPlan)
    ensures
        plan@ == nothing(keep_running),
{
    let plan = ProtocolPlan { actions: Vec::new(), keep_running };
    assert(plan@.actions =~= nothing(keep_running).actions);
    plan
}

fn plan_tell(event: LspEvent, keep_running: bool) -> (plan: ProtocolPlan)
    ensures
        plan@ == tell(event@, keep_running),
{
    let plan = ProtocolPlan { actions: vec![ProtocolAction::Emit(event)], keep_running };
    assert(plan@.actions =~= tell(event@, keep_running).actions);
    plan
}

fn plan_first(action: ProtocolAction, rest: ProtocolPlan) -> (plan: ProtocolPlan)
    ensures
        plan@ == first(action@, rest@),
{
    let mut actions = rest.actions;
    actions.insert(0, action);
    let plan = ProtocolPlan { actions, keep_running: rest.keep_running };
    assert(plan@.actions =~= first(action@, rest@).actions);
    plan
}

fn plan_send(message: &JsonValue, max: usize, rest: ProtocolPlan) -> (plan: ProtocolPlan)
    ensures
        plan@ == send_then(message@, max, rest@),
{
    match message_json(message, max) {
        Some(json) => plan_first(ProtocolAction::Send { json, report_failure: true }, rest),
        None => {
            let mut words = copy_text("outbound LSP message exceeds the ");
            push_decimal(&mut words, max as u64);
            words.push_str("-byte or JSON-depth limit");
            plan_tell(LspEvent::TransportError(words), false)
        },
    }
}

fn plan_command(command: &ClientCommand, max: usize, rest: ProtocolPlan) -> (plan: ProtocolPlan)
    ensures
        plan@ == command_then(*command, max, rest@),
{
    match client_command_json(command, max) {
        Some(json) => plan_first(ProtocolAction::Send { json, report_failure: true }, rest),
        None => {
            let mut words = copy_text("outbound LSP message exceeds the ");
            push_decimal(&mut words, max as u64);
            words.push_str("-byte limit");
            plan_tell(LspEvent::TransportError(words), false)
        },
    }
}

/// A request message.
pub open spec fn request_message(id: RequestId, method: Seq<char>, params: Json) -> Json {
    object_of(
        seq![
            ("jsonrpc"@, Json::Text("2.0"@)),
            ("id"@, Json::Number(decimal(id as nat))),
            ("method"@, Json::Text(method)),
            ("params"@, params),
        ],
    )
}

/// A notification message.
pub open spec fn notification_message(method: Seq<char>, params: Json) -> Json {
    object_of(
        seq![
            ("jsonrpc"@, Json::Text("2.0"@)),
            ("method"@, Json::Text(method)),
            ("params"@, params),
        ],
    )
}

/// Builds a request message.
pub fn request(id: RequestId, method: &str, params: JsonValue) -> (message: JsonValue)
    ensures
        message@ == request_message(id, method@, params@),
{
    let entries = vec![
        ("jsonrpc", JsonValue::text("2.0")),
        ("id", JsonValue::unsigned(id)),
        ("method", JsonValue::text(method)),
        ("params", params),
    ];
    assert(pairs_of(entries@) =~= seq![
        ("jsonrpc"@, Json::Text("2.0"@)),
        ("id"@, Json::Number(decimal(id as nat))),
        ("method"@, Json::Text(method@)),
        ("params"@, params@),
    ]);
    object(entries)
}

/// Builds a notification message.
pub fn notification(method: &str, params: JsonValue) -> (message: JsonValue)
    ensures
        message@ == notification_message(method@, params@),
{
    let entries = vec![
        ("jsonrpc", JsonValue::text("2.0")),
        ("method", JsonValue::text(method)),
        ("params", params),
    ];
    assert(pairs_of(entries@) =~= seq![
        ("jsonrpc"@, Json::Text("2.0"@)),
        ("method"@, Json::Text(method@)),
        ("params"@, params@),
    ]);
    object(entries)
}

/// An object without members.
pub(crate) fn empty_object() -> (value: JsonValue)
    ensures
        value@ == object_of(Seq::empty()),
{
    let entries: Vec<(&str, JsonValue)> = Vec::new();
    assert(pairs_of(entries@) =~= Seq::<(Seq<char>, Json)>::empty());
    object(entries)
}

/// The JSON of a position.
pub open spec fn position_value(position: LspPosition) -> Json {
    object_of(
        seq![
            ("line"@, Json::Number(decimal(position.line.index as nat))),
            ("character"@, Json::Number(decimal(position.character.units as nat))),
        ],
    )
}

/// Builds the JSON of a position.
pub fn position_json(position: LspPosition) -> (value: JsonValue)
    ensures
        value@ == position_value(position),
{
    let entries = vec![
        ("line", JsonValue::unsigned(position.line.get() as u64)),
        ("character", JsonValue::unsigned(position.character.get() as u64)),
    ];
    assert(pairs_of(entries@) =~= seq![
        ("line"@, Json::Number(decimal(position.line.index as nat))),
        ("character"@, Json::Number(decimal(position.character.units as nat))),
    ]);
    object(entries)
}

/// The parameters of a request about a position, but for the document.
pub fn text_position_params(position: LspPosition) -> (value: JsonValue)
    ensures
        value@ == object_of(seq![("position"@, position_value(position))]),
{
    let entries = vec![("position", position_json(position))];
    assert(pairs_of(entries@) =~= seq![("position"@, position_value(position))]);
    object(entries)
}

/// The failure of a request for which no slot is left.
pub open spec fn pending_limit_event(request_id: RequestId, operation: LspOperation) -> Event {
    Event::RequestFailed {
        request_id,
        operation,
        error: RpcError {
            code: PENDING_LIMIT_CODE,
            message: "client pending-request limit (128) reached"@,
            data: None,
        },
    }
}

fn pending_limit(request_id: RequestId, operation: LspOperation) -> (event: LspEvent)
    ensures
        event@ == pending_limit_event(request_id, operation),
{
    LspEvent::RequestFailed {
        request_id,
        operation,
        error: JsonRpcError {
            code: PENDING_LIMIT_CODE,
            message: copy_text("client pending-request limit (128) reached"),
            data: None,
        },
    }
}

/// A document state for a URI.
pub open spec fn document_state(
    documents: Map<Seq<char>, OpenDocumentState>,
    uri: Seq<char>,
) -> Option<OpenDocumentState> {
    if documents.contains_key(uri) {
        Some(documents[uri])
    } else {
        None
    }
}

/// The version of a document state.
pub open spec fn version_of(state: Option<OpenDocumentState>) -> Option<DocumentVersion> {
    match state {
        Some(known) => Some(known.version),
        None => None,
    }
}

/// The identity of a document state.
pub open spec fn incarnation_of(state: Option<OpenDocumentState>) -> Option<
    crate::lsp_types::DocumentIncarnation,
> {
    match state {
        Some(known) => Some(known.incarnation),
        None => None,
    }
}

/// What the protocol loop knows.
pub struct Known {
    pub pending: Seq<(RequestId, Pending)>,
    pub documents: Map<Seq<char>, OpenDocumentState>,
}

/// What a command leads to.
pub open spec fn on_command(command: ClientCommand, known: Known, max: usize) -> (Known, Plan) {
    let send = command_then(command, max, nothing(true));
    match command {
        ClientCommand::DidOpen { uri, version, incarnation, .. } => (
            Known {
                documents: known.documents.insert(uri@, OpenDocumentState { version, incarnation }),
                ..known
            },
            send,
        ),
        ClientCommand::DidChange { uri, version, .. } => match document_state(
            known.documents,
            uri@,
        ) {
            Some(state) if version.number > state.version.number => (
                Known {
                    documents: known.documents.insert(
                        uri@,
                        OpenDocumentState { version, incarnation: state.incarnation },
                    ),
                    ..known
                },
                send,
            ),
            _ => (known, nothing(true)),
        },
        ClientCommand::DidClose { uri } => (
            Known { documents: known.documents.remove(uri@), ..known },
            send,
        ),
        ClientCommand::DidSave { .. } => (known, send),
        ClientCommand::Request { request_id, operation, scope, .. } => {
            let request = Pending {
                operation,
                scope: Some(scope@),
                cancel_requested: false,
                sent: true,
            };
            match scope@ {
                Scope::Document { uri, version, incarnation } if document_state(
                    known.documents,
                    uri,
                ) != Some(OpenDocumentState { version, incarnation }) => (
                    known,
                    tell(
                        Event::StaleResponse {
                            request_id,
                            operation,
                            uri,
                            requested_version: version,
                            current_version: version_of(document_state(known.documents, uri)),
                        },
                        true,
                    ),
                ),
                // One of the slots stays free for a graceful shutdown.
                _ => if known.pending.len() >= MAX_PENDING_REQUESTS - 1 {
                    (known, tell(pending_limit_event(request_id, operation), true))
                } else {
                    (
                        Known {
                            pending: with_request(known.pending, request_id, request),
                            ..known
                        },
                        send,
                    )
                },
            }
        },
        ClientCommand::CancelRequest { request_id } => match request_of(
            known.pending,
            request_id,
        ) {
            Some(request) if !request.cancel_requested && request.operation
                != LspOperation::Initialize && request.operation != LspOperation::Shutdown => (
                Known {
                    pending: with_request(
                        known.pending,
                        request_id,
                        Pending { cancel_requested: true, ..request },
                    ),
                    ..known
                },
                send,
            ),
            _ => (known, nothing(true)),
        },
        ClientCommand::Shutdown { request_id } => {
            let deferred = is_initializing(known.pending);
            if known.pending.len() >= MAX_PENDING_REQUESTS {
                (known, tell(pending_limit_event(request_id, LspOperation::Shutdown), false))
            } else {
                (
                    Known {
                        pending: with_request(
                            known.pending,
                            request_id,
                            Pending {
                                operation: LspOperation::Shutdown,
                                scope: None,
                                cancel_requested: false,
                                sent: !deferred,
                            },
                        ),
                        ..known
                    },
                    if deferred {
                        nothing(true)
                    } else {
                        send
                    },
                )
            }
        },
    }
}

/// What the protocol loop knows: outstanding requests, and documents as the
/// server was told of them.
#[derive(Debug)]
pub struct ProtocolState {
    pub pending: PendingTable,
    pub documents: DocumentTable,
}

impl View for ProtocolState {
    type V = Known;

    open spec fn view(&self) -> Known {
        Known { pending: self.pending@, documents: self.documents@ }
    }
}

impl ProtocolState {
    /// The state right after `initialize` was sent as request 1.
    pub fn new() -> (state: Self)
        ensures
            state@.pending == seq![
                (
                    1u64,
                    Pending {
                        operation: LspOperation::Initialize,
                        scope: None,
                        cancel_requested: false,
                        sent: true,
                    },
                ),
            ],
            state@.documents == Map::<Seq<char>, OpenDocumentState>::empty(),
            distinct_requests(state@.pending),
    {
        let mut pending = PendingTable::new();
        pending.insert(
            1,
            PendingRequest {
                operation: LspOperation::Initialize,
                scope: None,
                cancel_requested: false,
                sent: true,
            },
        );
        ProtocolState { pending, documents: DocumentTable::new() }
    }

    /// Takes a command from the editor.
    pub fn handle_client_command(&mut self, command: ClientCommand, max_message_bytes: usize) -> (
    plan: ProtocolPlan)
        ensures
            (final(self)@, plan@) == on_command(command, old(self)@, max_message_bytes),
    {
        match &command {
            ClientCommand::DidOpen { uri, version, incarnation, .. } => {
                self.documents.insert(uri.clone(), OpenDocumentState::new(*version, *incarnation));
            },
            ClientCommand::DidChange { uri, version, .. } => {
                match self.documents.get(uri.as_str()) {
                    Some(state) => {
                        if version.get() <= state.version.get() {
                            return plan_nothing(true);
                        }
                        self.documents.insert(
                            uri.clone(),
                            OpenDocumentState::new(*version, state.incarnation),
                        );
                    },
                    None => {
                        return plan_nothing(true);
                    },
                }
            },
            ClientCommand::DidClose { uri } => {
                self.documents.remove(uri.as_str());
            },
            ClientCommand::Request { request_id, operation, scope, .. } => {
                if let RequestScope::Document { uri, version, incarnation } = scope {
                    let current = self.documents.get(uri.as_str());
                    if current != Some(OpenDocumentState::new(*version, *incarnation)) {
                        let current_version = match current {
                            Some(state) => Some(state.version),
                            None => None,
                        };
                        return plan_tell(
                            LspEvent::StaleResponse {
                                request_id: *request_id,
                                operation: *operation,
                                uri: uri.clone(),
                                requested_version: *version,
                                current_version,
                            },
                            true,
                        );
                    }
                }
                // Keep one of the hard-bounded slots available for a graceful
                // shutdown even when a server stops answering feature requests.
                if self.pending.len() >= MAX_PENDING_REQUESTS - 1 {
                    return plan_tell(pending_limit(*request_id, *operation), true);
                }
                self.pending.insert(
                    *request_id,
                    PendingRequest {
                        operation: *operation,
                        scope: Some(scope.clone()),
                        cancel_requested: false,
                        sent: true,
                    },
                );
            },
            ClientCommand::CancelRequest { request_id } => {
                match self.pending.get(*request_id) {
                    Some(request) => {
                        if request.cancel_requested || request.operation == LspOperation::Initialize
                            || request.operation == LspOperation::Shutdown {
                            return plan_nothing(true);
                        }
                    },
                    None => {
                        return plan_nothing(true);
                    },
                }
                self.pending.mark_cancelled(*request_id);
            },
            ClientCommand::Shutdown { request_id } => {
                if self.pending.len() >= MAX_PENDING_REQUESTS {
                    return plan_tell(pending_limit(*request_id, LspOperation::Shutdown), false);
                }
                let deferred = self.pending.initializing();
                self.pending.insert(
                    *request_id,
                    PendingRequest {
                        operation: LspOperation::Shutdown,
                        scope: None,
                        cancel_requested: false,
                        sent: !deferred,
                    },
                );
                if deferred {
                    return plan_nothing(true);
                }
            },
            ClientCommand::DidSave { .. } => {},
        }
        plan_command(&command, max_message_bytes, plan_nothing(true))
    }
}

/// A malformed response for a known request is still terminal for that
/// request.
pub open spec fn correlated_failure(
    request_id: RequestId,
    operation: LspOperation,
    reason: Seq<char>,
    max: usize,
) -> Plan {
    first(
        Action::Emit(
            Event::RequestFailed {
                request_id,
                operation,
                error: RpcError {
                    code: INVALID_SERVER_RESPONSE_CODE,
                    message: "invalid language-server response: "@ + reason,
                    data: None,
                },
            },
        ),
        match operation {
            LspOperation::Initialize => nothing(false),
            LspOperation::Shutdown => send_then(
                notification_message("exit"@, Json::Null),
                max,
                nothing(false),
            ),
            _ => nothing(true),
        },
    )
}

/// Plans the failure of a request whose response is malformed.
pub fn handle_correlated_protocol_failure(
    request_id: RequestId,
    operation: LspOperation,
    reason: &str,
    max_message_bytes: usize,
) -> (plan: ProtocolPlan)
    ensures
        plan@ == correlated_failure(request_id, operation, reason@, max_message_bytes),
{
    let mut message = copy_text("invalid language-server response: ");
    message.push_str(reason);
    let event = LspEvent::RequestFailed {
        request_id,
        operation,
        error: JsonRpcError { code: INVALID_SERVER_RESPONSE_CODE, message, data: None },
    };
    let rest = match operation {
        LspOperation::Initialize => plan_nothing(false),
        LspOperation::Shutdown => plan_send(
            &notification("exit", JsonValue::Null),
            max_message_bytes,
            plan_nothing(false),
        ),
        _ => plan_nothing(true),
    };
    plan_first(ProtocolAction::Emit(event), rest)
}

/// The error object of a response.
pub open spec fn rpc_error_of(value: Json) -> Result<RpcError, Seq<char>> {
    match value {
        Json::Table(members) => match lookup(members, "code"@) {
            Some(code) if signed_of(code) is Some => match lookup(members, "message"@) {
                Some(Json::Text(message)) => Ok(
                    RpcError { code: signed_of(code)->0, message, data: lookup(members, "data"@) },
                ),
                _ => Err("JSON-RPC error is missing a message"@),
            },
            _ => Err("JSON-RPC error is missing an integer code"@),
        },
        _ => Err("JSON-RPC error must be an object"@),
    }
}

/// Reads the error object of a response.
pub fn parse_rpc_error(value: JsonValue) -> (error: Result<JsonRpcError, String>)
    ensures
        match (error, rpc_error_of(value@)) {
            (Ok(found), Ok(content)) => found@ == content,
            (Err(reason), Err(words)) => reason@ == words,
            _ => false,
        },
{
    let mut members = match value {
        JsonValue::Object(members) => members,
        _ => {
            return Err(copy_text("JSON-RPC error must be an object"));
        },
    };
    let ghost all = members@;
    proof {
        reveal_strlit("code");
        reveal_strlit("message");
        reveal_strlit("data");
        assert("code"@[0] != "data"@[0]);
        lemma_without_other(all, "code"@, "message"@);
        lemma_without_other(all, "code"@, "data"@);
        lemma_without_other(without_member(all, "code"@), "message"@, "data"@);
    }
    let code = match members.remove("code") {
        Some(code) => match code.as_i64() {
            Some(code) => code,
            None => {
                return Err(copy_text("JSON-RPC error is missing an integer code"));
            },
        },
        None => {
            return Err(copy_text("JSON-RPC error is missing an integer code"));
        },
    };
    let message = match members.remove("message") {
        Some(JsonValue::String(message)) => message,
        _ => {
            return Err(copy_text("JSON-RPC error is missing a message"));
        },
    };
    Ok(JsonRpcError { code, message, data: members.remove("data") })
}

/// Whether workspace symbols are offered: by `true` or by an options object.
pub open spec fn offers_workspace_symbols(capabilities: Json) -> bool {
    match member_of(capabilities, "workspaceSymbolProvider"@) {
        Some(Json::Bool(supported)) => supported,
        Some(Json::Table(_)) => true,
        _ => false,
    }
}

/// Reads whether workspace symbols are offered.
pub fn workspace_symbol_provider_supported(capabilities: &JsonValue) -> (yes: bool)
    ensures
        yes == offers_workspace_symbols(capabilities@),
{
    match capabilities.get("workspaceSymbolProvider") {
        Some(JsonValue::Bool(supported)) => *supported,
        Some(JsonValue::Object(_)) => true,
        _ => false,
    }
}

/// The synchronization that a server advertises. The legacy number only says
/// how changes are sent, so saving stays off there.
pub open spec fn sync_of(capabilities: Json) -> TextDocumentSyncCapability {
    let none = TextDocumentSyncCapability::nothing();
    match member_of(capabilities, "textDocumentSync"@) {
        Some(Json::Number(text)) => {
            let kind = unsigned_of(Json::Number(text));
            TextDocumentSyncCapability {
                open_close: kind == Some(1u64) || kind == Some(2u64),
                full: kind == Some(1u64),
                incremental: kind == Some(2u64),
                ..none
            }
        },
        Some(Json::Table(options)) => {
            let advertised = Json::Table(options);
            let change = member_unsigned(advertised, "change"@);
            TextDocumentSyncCapability {
                open_close: member_of(advertised, "openClose"@) == Some(Json::Bool(true)),
                full: change == Some(1u64),
                incremental: change == Some(2u64),
                save: match member_of(advertised, "save"@) {
                    Some(Json::Bool(save)) => save,
                    Some(Json::Table(_)) => true,
                    _ => false,
                },
                save_include_text: match member_of(advertised, "save"@) {
                    Some(Json::Table(save)) => lookup(save, "includeText"@) == Some(
                        Json::Bool(true),
                    ),
                    _ => false,
                },
            }
        },
        _ => none,
    }
}

fn is_true(value: Option<&JsonValue>) -> (yes: bool)
    ensures
        yes == (value matches Some(v) && v@ == Json::Bool(true)),
{
    match value {
        Some(JsonValue::Bool(flag)) => *flag,
        _ => false,
    }
}

/// Reads the synchronization that a server advertises.
pub fn parse_text_document_sync_capability(capabilities: &JsonValue) -> (sync:
    TextDocumentSyncCapability)
    ensures
        sync == sync_of(capabilities@),
{
    let advertised = match capabilities.get("textDocumentSync") {
        Some(advertised) => advertised,
        None => {
            return TextDocumentSyncCapability::default();
        },
    };
    match advertised {
        JsonValue::Number(_) => {
            let kind = advertised.as_u64();
            TextDocumentSyncCapability {
                open_close: kind == Some(1) || kind == Some(2),
                full: kind == Some(1),
                incremental: kind == Some(2),
                save: false,
                save_include_text: false,
            }
        },
        JsonValue::Object(options) => {
            let open_close = is_true(options.get("openClose"));
            let change = match options.get("change") {
                Some(change) => change.as_u64(),
                None => None,
            };
            let (save, save_include_text) = match options.get("save") {
                Some(JsonValue::Bool(flag)) => (*flag, false),
                Some(JsonValue::Object(save_options)) => (
                    true,
                    is_true(save_options.get("includeText")),
                ),
                _ => (false, false),
            };
            TextDocumentSyncCapability {
                open_close,
                full: change == Some(1),
                incremental: change == Some(2),
                save,
                save_include_text,
            }
        },
        _ => TextDocumentSyncCapability::default(),
    }
}

/// The identity under which a published URI is known: an open document keeps
/// its URI, and any other local file URI is spelled canonically.
pub open spec fn normalized_uri(
    uri: Seq<char>,
    documents: Map<Seq<char>, OpenDocumentState>,
) -> Result<Seq<char>, (Option<Seq<char>>, Seq<char>)> {
    if documents.contains_key(uri) {
        Ok(uri)
    } else if uri.len() == 0 {
        Err((Some(uri), "publishDiagnostics uri is empty"@))
    } else if utf8_len(uri) > MAX_DIAGNOSTICS_ALIAS_URI_BYTES {
        Err((None, "publishDiagnostics alias uri exceeds the 16384-byte safety limit"@))
    } else {
        match path_of(uri) {
            Err(reason) => Err(
                (
                    Some(uri),
                    "publishDiagnostics uri is not a valid local file URI: "@ + reason,
                ),
            ),
            Ok(path) => if component_count(path) > MAX_DIAGNOSTICS_ALIAS_PATH_COMPONENTS {
                Err(
                    (
                        Some(uri),
                        "publishDiagnostics alias path exceeds the 256-component safety limit"@,
                    ),
                )
            } else if utf8_len(uri_of(lexical(path))) > MAX_DOCUMENT_URI_BYTES {
                Err(
                    (
                        None,
                        "normalized publishDiagnostics uri exceeds the 1048576-byte safety limit"@,
                    ),
                )
            } else {
                Ok(uri_of(lexical(path)))
            },
        }
    }
}

/// Normalizes one bounded local diagnostics URI to the same identity emitted
/// for synchronized documents, without file system access.
pub fn normalize_diagnostics_uri(uri: String, documents: &DocumentTable) -> (normalized: Result<
    String,
    (Option<String>, String),
>)
    ensures
        match (normalized, normalized_uri(uri@, documents@)) {
            (Ok(found), Ok(expected)) => found@ == expected,
            (Err((at, reason)), Err((place, words))) => text_option(at) == place && reason@
                == words,
            _ => false,
        },
{
    if documents.contains_key(uri.as_str()) {
        return Ok(uri);
    }
    if uri.as_str().is_empty() {
        return Err((Some(uri), copy_text("publishDiagnostics uri is empty")));
    }
    if byte_len(uri.as_str()) > MAX_DIAGNOSTICS_ALIAS_URI_BYTES {
        return Err(
            (
                None,
                copy_text("publishDiagnostics alias uri exceeds the 16384-byte safety limit"),
            ),
        );
    }
    let path = match file_uri_to_path(uri.as_str()) {
        Ok(path) => path,
        Err(error) => {
            let mut reason = copy_text("publishDiagnostics uri is not a valid local file URI: ");
            reason.push_str(error.as_str());
            return Err((Some(uri), reason));
        },
    };
    if has_more_components(path.as_slice(), MAX_DIAGNOSTICS_ALIAS_PATH_COMPONENTS) {
        return Err(
            (
                Some(uri),
                copy_text("publishDiagnostics alias path exceeds the 256-component safety limit"),
            ),
        );
    }
    let canonical = file_uri(lexically_normalized_diagnostics_path(path.as_slice()).as_slice());
    if byte_len(canonical.as_str()) > MAX_DOCUMENT_URI_BYTES {
        return Err(
            (
                None,
                copy_text(
                    "normalized publishDiagnostics uri exceeds the 1048576-byte safety limit",
                ),
            ),
        );
    }
    Ok(canonical)
}

/// What a publication with a good URI and diagnostics leads to.
pub open spec fn publication_event(
    uri: Seq<char>,
    version: Option<DocumentVersion>,
    diagnostics: Seq<Json>,
    documents: Map<Seq<char>, OpenDocumentState>,
) -> Event {
    let current = document_state(documents, uri);
    match version {
        Some(received) if current is Some && version_of(current) != version =>
        Event::StaleDiagnostics {
            uri,
            received_version: received,
            current_version: version_of(current),
        },
        _ => Event::Diagnostics {
            uri,
            version,
            observed_version: version_of(current),
            observed_incarnation: incarnation_of(current),
            diagnostics,
        },
    }
}

/// What a `publishDiagnostics` notification leads to.
pub open spec fn diagnostics_event(
    params: Option<Json>,
    documents: Map<Seq<char>, OpenDocumentState>,
) -> Event {
    match params {
        Some(Json::Table(members)) => match lookup(members, "uri"@) {
            Some(Json::Text(uri)) => match normalized_uri(uri, documents) {
                Err((place, reason)) => Event::DiagnosticsRejected { uri: place, reason },
                Ok(known) => match lookup(members, "diagnostics"@) {
                    Some(Json::List(diagnostics)) => match lookup(members, "version"@) {
                        None => publication_event(known, None, diagnostics, documents),
                        Some(version) => match unsigned_of(version) {
                            Some(number) if number <= 2147483647 => publication_event(
                                known,
                                Some(DocumentVersion { number }),
                                diagnostics,
                                documents,
                            ),
                            _ => Event::DiagnosticsRejected {
                                uri: Some(known),
                                reason:
                                    "publishDiagnostics version must be an integer from 0 through 2147483647"@,
                            },
                        },
                    },
                    _ => Event::DiagnosticsRejected {
                        uri: Some(known),
                        reason: "publishDiagnostics is missing diagnostics array"@,
                    },
                },
            },
            _ => Event::DiagnosticsRejected {
                uri: None,
                reason: "publishDiagnostics is missing uri"@,
            },
        },
        _ => Event::DiagnosticsRejected {
            uri: None,
            reason: "publishDiagnostics params must be an object"@,
        },
    }
}

fn rejected(uri: Option<String>, reason: &str) -> (event: LspEvent)
    ensures
        event@ == (Event::DiagnosticsRejected { uri: text_option(uri), reason: reason@ }),
{
    LspEvent::DiagnosticsRejected { uri, reason: copy_text(reason) }
}

/// Reads a `publishDiagnostics` notification. The payload is moved, not copied.
pub fn handle_diagnostics(params: Option<JsonValue>, documents: &DocumentTable) -> (event: LspEvent)
    ensures
        event@ == diagnostics_event(json_option(params), documents@),
{
    let mut members = match params {
        Some(JsonValue::Object(members)) => members,
        _ => {
            return rejected(None, "publishDiagnostics params must be an object");
        },
    };
    let ghost all = members@;
    proof {
        reveal_strlit("uri");
        reveal_strlit("diagnostics");
        reveal_strlit("version");
        assert("uri"@.len() == 3 && "diagnostics"@.len() == 11 && "version"@.len() == 7);
        lemma_without_other(all, "uri"@, "diagnostics"@);
        lemma_without_other(all, "uri"@, "version"@);
        lemma_without_other(without_member(all, "uri"@), "diagnostics"@, "version"@);
    }
    let uri = match members.remove("uri") {
        Some(JsonValue::String(uri)) => uri,
        _ => {
            return rejected(None, "publishDiagnostics is missing uri");
        },
    };
    let uri = match normalize_diagnostics_uri(uri, documents) {
        Ok(uri) => uri,
        Err((uri, reason)) => {
            return LspEvent::DiagnosticsRejected { uri, reason };
        },
    };
    let diagnostics = match members.remove("diagnostics") {
        Some(JsonValue::Array(diagnostics)) => diagnostics,
        _ => {
            return rejected(Some(uri), "publishDiagnostics is missing diagnostics array");
        },
    };
    let version = match members.remove("version") {
        None => None,
        Some(version) => match version.as_u64() {
            Some(number) => {
                if number > 2147483647 {
                    return rejected(
                        Some(uri),
                        "publishDiagnostics version must be an integer from 0 through 2147483647",
                    );
                }
                Some(DocumentVersion::new(number))
            },
            None => {
                return rejected(
                    Some(uri),
                    "publishDiagnostics version must be an integer from 0 through 2147483647",
                );
            },
        },
    };
    let current = documents.get(uri.as_str());
    let (current_version, observed_incarnation) = match current {
        Some(state) => (Some(state.version), Some(state.incarnation)),
        None => (None, None),
    };
    if let Some(received_version) = version {
        if let Some(state) = current {
            if state.version != received_version {
                return LspEvent::StaleDiagnostics { uri, received_version, current_version };
            }
        }
    }
    LspEvent::Diagnostics {
        uri,
        version,
        observed_version: current_version,
        observed_incarnation,
        diagnostics,
    }
}

/// The refusal of a request that the server made.
pub open spec fn refusal(id: Json) -> Json {
    object_of(
        seq![
            ("jsonrpc"@, Json::Text("2.0"@)),
            ("id"@, id),
            (
                "error"@,
                object_of(
                    seq![
                        ("code"@, Json::Number(signed_decimal(-32601))),
                        ("message"@, Json::Text("method not supported by wscrpt"@)),
                    ],
                ),
            ),
        ],
    )
}

fn refuse(id: JsonValue) -> (message: JsonValue)
    ensures
        message@ == refusal(id@),
{
    let reason = vec![
        ("code", JsonValue::signed(-32601)),
        ("message", JsonValue::text("method not supported by wscrpt")),
    ];
    assert(pairs_of(reason@) =~= seq![
        ("code"@, Json::Number(signed_decimal(-32601))),
        ("message"@, Json::Text("method not supported by wscrpt"@)),
    ]);
    let error = object(reason);
    let entries = vec![("jsonrpc", JsonValue::text("2.0")), ("id", id), ("error", error)];
    assert(pairs_of(entries@) =~= seq![
        ("jsonrpc"@, Json::Text("2.0"@)),
        ("id"@, id@),
        ("error"@, error@),
    ]);
    object(entries)
}

/// The text of member `key`.
pub open spec fn text_member(members: Seq<(Seq<char>, Json)>, key: Seq<char>) -> Option<Seq<char>> {
    match lookup(members, key) {
        Some(value) => text_value(value),
        None => None,
    }
}

/// The request number of a response.
pub open spec fn response_id(members: Seq<(Seq<char>, Json)>) -> Option<RequestId> {
    match lookup(members, "id"@) {
        Some(id) => unsigned_of(id),
        None => None,
    }
}

/// The farewell after a shutdown that the server answered with an error: a
/// failure to write it is not reported.
pub open spec fn quiet_exit(max: usize) -> Plan {
    match message_text(notification_message("exit"@, Json::Null), max) {
        Some(json) => Plan {
            actions: seq![Action::Send { json, report_failure: false }],
            keep_running: false,
        },
        None => nothing(false),
    }
}

/// What an error response leads to.
pub open spec fn error_plan(
    error: Json,
    request_id: RequestId,
    operation: LspOperation,
    max: usize,
) -> Plan {
    match rpc_error_of(error) {
        Err(reason) => correlated_failure(request_id, operation, reason, max),
        Ok(error) => first(
            Action::Emit(Event::RequestFailed { request_id, operation, error }),
            if operation == LspOperation::Shutdown {
                quiet_exit(max)
            } else {
                nothing(operation != LspOperation::Initialize)
            },
        ),
    }
}

/// The capabilities in the result of `initialize`.
pub open spec fn capabilities_of(result: Json) -> Json {
    match member_of(result, "capabilities"@) {
        Some(capabilities) => capabilities,
        None => Json::Null,
    }
}

/// What the editor is told once the server is initialized.
pub open spec fn ready_event(result: Json) -> Event {
    let capabilities = capabilities_of(result);
    Event::Ready {
        capabilities,
        workspace_symbols: offers_workspace_symbols(capabilities),
        text_document_sync: sync_of(capabilities),
    }
}

/// What the result of `initialize` leads to: the server is told that it is
/// initialized, and a shutdown that waited for this goes out.
pub open spec fn initialized_plan(
    result: Json,
    pending: Seq<(RequestId, Pending)>,
    max: usize,
) -> (Seq<(RequestId, Pending)>, Plan) {
    let greeting = notification_message("initialized"@, object_of(Seq::empty()));
    let ready = Plan {
        actions: seq![Action::PublishReady(ready_event(result))],
        keep_running: true,
    };
    match deferred_in(pending, 0) {
        None => (pending, send_then(greeting, max, ready)),
        Some(id) => {
            let shutdown = ClientCommand::Shutdown { request_id: id };
            if message_text(greeting, max) is Some && utf8_len(command_text(shutdown)) <= max {
                (
                    match request_of(pending, id) {
                        Some(request) => with_request(
                            pending,
                            id,
                            Pending { sent: true, ..request },
                        ),
                        None => pending,
                    },
                    send_then(greeting, max, command_then(shutdown, max, ready)),
                )
            } else {
                (pending, send_then(greeting, max, command_then(shutdown, max, ready)))
            }
        },
    }
}

/// What the result of a request about one document leads to. It is stale unless
/// the document is still open as it was asked about.
pub open spec fn document_result(
    result: Json,
    request_id: RequestId,
    request: Pending,
    optimistic: Map<Seq<char>, OpenDocumentState>,
    max: usize,
) -> Plan {
    let operation = request.operation;
    match request.scope {
        Some(Scope::Document { uri, version, incarnation }) => {
            let current = document_state(optimistic, uri);
            if current != Some(OpenDocumentState { version, incarnation }) {
                tell(
                    Event::StaleResponse {
                        request_id,
                        operation,
                        uri,
                        requested_version: version,
                        current_version: version_of(current),
                    },
                    true,
                )
            } else {
                tell(Event::Answer { operation, request_id, uri, version, result }, true)
            }
        },
        _ => correlated_failure(
            request_id,
            operation,
            "document response "@ + decimal(request_id as nat)
                + " had a non-document request scope"@,
            max,
        ),
    }
}

/// What the response to a known request leads to, once that request is taken
/// out of `pending`.
pub open spec fn on_response(
    members: Seq<(Seq<char>, Json)>,
    request_id: RequestId,
    request: Pending,
    pending: Seq<(RequestId, Pending)>,
    optimistic: Map<Seq<char>, OpenDocumentState>,
    max: usize,
) -> (Seq<(RequestId, Pending)>, Plan) {
    let operation = request.operation;
    let result = lookup(members, "result"@);
    let error = lookup(members, "error"@);
    if !request.sent {
        (
            pending,
            correlated_failure(
                request_id,
                operation,
                "response arrived before the client sent its request"@,
                max,
            ),
        )
    } else {
        match (result, error) {
            (None, Some(error)) => (pending, error_plan(error, request_id, operation, max)),
            (Some(result), None) => match operation {
                LspOperation::Initialize => initialized_plan(result, pending, max),
                LspOperation::Shutdown => (
                    pending,
                    send_then(
                        notification_message("exit"@, Json::Null),
                        max,
                        tell(Event::ShutdownComplete, false),
                    ),
                ),
                LspOperation::WorkspaceSymbols => (
                    pending,
                    if request.scope == Some(Scope::Workspace) {
                        tell(Event::WorkspaceSymbols { request_id, result }, true)
                    } else {
                        correlated_failure(
                            request_id,
                            operation,
                            "workspace-symbol response "@ + decimal(request_id as nat)
                                + " had a non-workspace request scope"@,
                            max,
                        )
                    },
                ),
                _ => (pending, document_result(result, request_id, request, optimistic, max)),
            },
            _ => (
                pending,
                correlated_failure(
                    request_id,
                    operation,
                    "JSON-RPC response must contain exactly one of result or error"@,
                    max,
                ),
            ),
        }
    }
}

/// What a message object leads to.
pub open spec fn on_message(
    members: Seq<(Seq<char>, Json)>,
    known: Known,
    optimistic: Map<Seq<char>, OpenDocumentState>,
    max: usize,
) -> (Seq<(RequestId, Pending)>, Plan) {
    let pending = known.pending;
    if text_member(members, "jsonrpc"@) != Some("2.0"@) {
        let reason = "JSON-RPC message is missing jsonrpc=\"2.0\""@;
        let response_shaped = lookup(members, "result"@) is Some || lookup(members, "error"@) is Some;
        match response_id(members) {
            Some(id) if response_shaped && text_member(members, "method"@) is None && request_of(
                pending,
                id,
            ) is Some => (
                without_request(pending, id),
                correlated_failure(id, request_of(pending, id)->0.operation, reason, max),
            ),
            _ => (pending, tell(Event::ProtocolError(reason), true)),
        }
    } else {
        match text_member(members, "method"@) {
            Some(method) => (
                pending,
                match lookup(members, "id"@) {
                    Some(id) => send_then(
                        refusal(id),
                        max,
                        tell(Event::ServerRequestRejected { method }, true),
                    ),
                    None => tell(
                        if method == "textDocument/publishDiagnostics"@ {
                            diagnostics_event(lookup(members, "params"@), known.documents)
                        } else {
                            Event::ServerNotification { method, params: lookup(members, "params"@) }
                        },
                        true,
                    ),
                },
            ),
            None => match response_id(members) {
                None => (
                    pending,
                    tell(
                        Event::ProtocolError("JSON-RPC response has no numeric request ID"@),
                        true,
                    ),
                ),
                Some(id) => match request_of(pending, id) {
                    None => (
                        pending,
                        tell(
                            Event::ProtocolError(
                                "response for unknown request ID "@ + decimal(id as nat),
                            ),
                            true,
                        ),
                    ),
                    Some(request) => on_response(
                        members,
                        id,
                        request,
                        without_request(pending, id),
                        optimistic,
                        max,
                    ),
                },
            },
        }
    }
}

/// What a message of the server leads to.
pub open spec fn on_server_message(
    source: Seq<char>,
    known: Known,
    optimistic: Map<Seq<char>, OpenDocumentState>,
    max: usize,
) -> (Seq<(RequestId, Pending)>, Plan) {
    match parsed(source) {
        Ok(Json::Table(members)) => on_message(members, known, optimistic, max),
        Ok(_) => (
            known.pending,
            tell(Event::ProtocolError("JSON-RPC message must be an object"@), true),
        ),
        Err(fault) => (known.pending, tell(Event::ProtocolError(described(fault)), true)),
    }
}

/// The text of a member.
fn member_text_of(members: &JsonObject, key: &str) -> (text: Option<String>)
    ensures
        text_option(text) == text_member(members@, key@),
{
    match members.get(key) {
        Some(value) => match value.as_str() {
            Some(text) => Some(copy_text(text)),
            None => None,
        },
        None => None,
    }
}

/// The request number of a response.
fn response_number(members: &JsonObject) -> (id: Option<RequestId>)
    ensures
        id == response_id(members@),
{
    match members.get("id") {
        Some(id) => id.as_u64(),
        None => None,
    }
}

fn plan_error(
    error: JsonValue,
    request_id: RequestId,
    operation: LspOperation,
    max: usize,
) -> (plan: ProtocolPlan)
    ensures
        plan@ == error_plan(error@, request_id, operation, max),
{
    let error = match parse_rpc_error(error) {
        Ok(error) => error,
        Err(reason) => {
            return handle_correlated_protocol_failure(
                request_id,
                operation,
                reason.as_str(),
                max,
            );
        },
    };
    let rest = if operation == LspOperation::Shutdown {
        match message_json(&notification("exit", JsonValue::Null), max) {
            Some(json) => {
                let plan = ProtocolPlan {
                    actions: vec![ProtocolAction::Send { json, report_failure: false }],
                    keep_running: false,
                };
                assert(plan@.actions =~= quiet_exit(max).actions);
                plan
            },
            None => plan_nothing(false),
        }
    } else {
        plan_nothing(operation != LspOperation::Initialize)
    };
    plan_first(
        ProtocolAction::Emit(LspEvent::RequestFailed { request_id, operation, error }),
        rest,
    )
}

/// The event for the capabilities in a result.
fn ready(result: JsonValue) -> (event: LspEvent)
    ensures
        event@ == ready_event(result@),
{
    let capabilities = match result {
        JsonValue::Object(mut members) => match members.remove("capabilities") {
            Some(capabilities) => capabilities,
            None => JsonValue::Null,
        },
        _ => JsonValue::Null,
    };
    let workspace_symbols = workspace_symbol_provider_supported(&capabilities);
    let text_document_sync = parse_text_document_sync_capability(&capabilities);
    LspEvent::Ready { capabilities, workspace_symbols, text_document_sync }
}

/// The event for the answer about one document.
fn answered(
    operation: LspOperation,
    request_id: RequestId,
    uri: String,
    version: DocumentVersion,
    result: JsonValue,
) -> (event: LspEvent)
    requires
        operation != LspOperation::Initialize,
        operation != LspOperation::Shutdown,
        operation != LspOperation::WorkspaceSymbols,
    ensures
        event@ == (Event::Answer { operation, request_id, uri: uri@, version, result: result@ }),
{
    match operation {
        LspOperation::Completion => LspEvent::Completion { request_id, uri, version, result },
        LspOperation::Hover => LspEvent::Hover { request_id, uri, version, result },
        LspOperation::Definition => LspEvent::Definition { request_id, uri, version, result },
        LspOperation::References => LspEvent::References { request_id, uri, version, result },
        LspOperation::DocumentSymbols => LspEvent::DocumentSymbols {
            request_id,
            uri,
            version,
            result,
        },
        _ => LspEvent::Formatting { request_id, uri, version, result },
    }
}

fn plan_document_result(
    result: JsonValue,
    request_id: RequestId,
    request: PendingRequest,
    optimistic: &DocumentTable,
    max: usize,
) -> (plan: ProtocolPlan)
    requires
        request.operation != LspOperation::Initialize,
        request.operation != LspOperation::Shutdown,
        request.operation != LspOperation::WorkspaceSymbols,
    ensures
        plan@ == document_result(result@, request_id, request@, optimistic@, max),
{
    let operation = request.operation;
    match request.scope {
        Some(RequestScope::Document { uri, version, incarnation }) => {
            let current = optimistic.get(uri.as_str());
            if current != Some(OpenDocumentState::new(version, incarnation)) {
                let current_version = match current {
                    Some(state) => Some(state.version),
                    None => None,
                };
                return plan_tell(
                    LspEvent::StaleResponse {
                        request_id,
                        operation,
                        uri,
                        requested_version: version,
                        current_version,
                    },
                    true,
                );
            }
            plan_tell(answered(operation, request_id, uri, version, result), true)
        },
        _ => {
            let mut reason = copy_text("document response ");
            push_decimal(&mut reason, request_id);
            reason.push_str(" had a non-document request scope");
            handle_correlated_protocol_failure(request_id, operation, reason.as_str(), max)
        },
    }
}

impl ProtocolState {
    /// Goes on after `initialize` was answered.
    fn plan_initialized(&mut self, result: JsonValue, max: usize) -> (plan: ProtocolPlan)
        ensures
            final(self).documents == old(self).documents,
            (final(self).pending@, plan@) == initialized_plan(result@, old(self).pending@, max),
    {
        let greeting = notification("initialized", empty_object());
        let event = ready(result);
        let ready_plan = ProtocolPlan {
            actions: vec![ProtocolAction::PublishReady(event)],
            keep_running: true,
        };
        assert(ready_plan@.actions =~= seq![Action::PublishReady(event@)]);
        match self.pending.deferred_shutdown() {
            None => plan_send(&greeting, max, ready_plan),
            Some(id) => {
                let shutdown = ClientCommand::Shutdown { request_id: id };
                let fits = client_command_json(&shutdown, max).is_some();
                let greets = message_json(&greeting, max).is_some();
                let rest = plan_command(&shutdown, max, ready_plan);
                if fits && greets {
                    self.pending.mark_sent(id);
                }
                plan_send(&greeting, max, rest)
            },
        }
    }

    /// Goes on after a known request was answered.
    fn handle_response(
        &mut self,
        message: JsonObject,
        request_id: RequestId,
        request: PendingRequest,
        optimistic: &DocumentTable,
        max: usize,
    ) -> (plan: ProtocolPlan)
        ensures
            final(self).documents == old(self).documents,
            (final(self).pending@, plan@) == on_response(
                message@,
                request_id,
                request@,
                old(self).pending@,
                optimistic@,
                max,
            ),
    {
        let operation = request.operation;
        let mut message = message;
        if !request.sent {
            return handle_correlated_protocol_failure(
                request_id,
                operation,
                "response arrived before the client sent its request",
                max,
            );
        }
        if message.contains_key("result") == message.contains_key("error") {
            return handle_correlated_protocol_failure(
                request_id,
                operation,
                "JSON-RPC response must contain exactly one of result or error",
                max,
            );
        }
        if message.contains_key("error") {
            return match message.remove("error") {
                Some(error) => plan_error(error, request_id, operation, max),
                None => plan_nothing(true),
            };
        }
        let result = match message.remove("result") {
            Some(result) => result,
            None => JsonValue::Null,
        };
        match operation {
            LspOperation::Initialize => self.plan_initialized(result, max),
            LspOperation::Shutdown => plan_send(
                &notification("exit", JsonValue::Null),
                max,
                plan_tell(LspEvent::ShutdownComplete, false),
            ),
            LspOperation::WorkspaceSymbols => match request.scope {
                Some(RequestScope::Workspace) => plan_tell(
                    LspEvent::WorkspaceSymbols { request_id, result },
                    true,
                ),
                _ => {
                    let mut reason = copy_text("workspace-symbol response ");
                    push_decimal(&mut reason, request_id);
                    reason.push_str(" had a non-workspace request scope");
                    handle_correlated_protocol_failure(request_id, operation, reason.as_str(), max)
                },
            },
            _ => plan_document_result(result, request_id, request, optimistic, max),
        }
    }

    /// Takes a message object of the server.
    fn handle_message(&mut self, message: JsonObject, optimistic: &DocumentTable, max: usize) -> (
    plan: ProtocolPlan)
        ensures
            final(self).documents == old(self).documents,
            (final(self).pending@, plan@) == on_message(
                message@,
                old(self)@,
                optimistic@,
                max,
            ),
    {
        let mut message = message;
        let ghost all = message@;
        proof {
            reveal_strlit("params");
            reveal_strlit("id");
            assert("params"@.len() == 6 && "id"@.len() == 2);
            lemma_without_other(all, "params"@, "id"@);
        }
        let valid = match member_text_of(&message, "jsonrpc") {
            Some(version) => same_text(version.as_str(), "2.0"),
            None => false,
        };
        let method = member_text_of(&message, "method");
        if !valid {
            let reason = "JSON-RPC message is missing jsonrpc=\"2.0\"";
            let response_shaped = message.contains_key("result") || message.contains_key("error");
            if response_shaped && method.is_none() {
                if let Some(id) = response_number(&message) {
                    if let Some(request) = self.pending.remove(id) {
                        return handle_correlated_protocol_failure(
                            id,
                            request.operation,
                            reason,
                            max,
                        );
                    }
                }
            }
            return plan_tell(LspEvent::ProtocolError(copy_text(reason)), true);
        }
        if let Some(method) = method {
            let params = message.remove("params");
            if let Some(id) = message.remove("id") {
                return plan_send(
                    &refuse(id),
                    max,
                    plan_tell(LspEvent::ServerRequestRejected { method }, true),
                );
            }
            let event = if same_text(method.as_str(), "textDocument/publishDiagnostics") {
                handle_diagnostics(params, &self.documents)
            } else {
                LspEvent::ServerNotification { method, params }
            };
            return plan_tell(event, true);
        }
        let id = match response_number(&message) {
            Some(id) => id,
            None => {
                return plan_tell(
                    LspEvent::ProtocolError(
                        copy_text("JSON-RPC response has no numeric request ID"),
                    ),
                    true,
                );
            },
        };
        match self.pending.remove(id) {
            Some(request) => self.handle_response(message, id, request, optimistic, max),
            None => {
                let mut words = copy_text("response for unknown request ID ");
                push_decimal(&mut words, id);
                plan_tell(LspEvent::ProtocolError(words), true)
            },
        }
    }

    /// Takes a message of the server. `optimistic` holds the documents as the
    /// editor last changed them.
    pub fn handle_server_message(
        &mut self,
        source: &str,
        optimistic: &DocumentTable,
        max_message_bytes: usize,
    ) -> (plan: ProtocolPlan)
        ensures
            final(self)@.documents == old(self)@.documents,
            (final(self)@.pending, plan@) == on_server_message(
                source@,
                old(self)@,
                optimistic@,
                max_message_bytes,
            ),
    {
        match JsonValue::parse(source) {
            Ok(JsonValue::Object(message)) => self.handle_message(
                message,
                optimistic,
                max_message_bytes,
            ),
            Ok(_) => plan_tell(
                LspEvent::ProtocolError(copy_text("JSON-RPC message must be an object")),
                true,
            ),
            Err(error) => plan_tell(LspEvent::ProtocolError(error.describe()), true),
        }
    }
}

/// What an input leads to.
pub open spec fn on_input(
    input: ProtocolInput,
    known: Known,
    optimistic: Map<Seq<char>, OpenDocumentState>,
    max: usize,
) -> (Known, Plan) {
    match input {
        ProtocolInput::Command(command) => on_command(command, known, max),
        ProtocolInput::ServerMessage(message) => {
            let (pending, plan) = on_server_message(message@, known, optimistic, max);
            (Known { pending, ..known }, plan)
        },
        ProtocolInput::Stderr(bytes) => (known, tell(Event::Stderr(bytes@), true)),
        ProtocolInput::StderrTruncated { limit } => (
            known,
            tell(Event::StderrTruncated { limit }, true),
        ),
        ProtocolInput::TransportError(message) => (
            known,
            tell(Event::TransportError(message@), false),
        ),
        ProtocolInput::ServerClosed => (known, tell(Event::ServerClosed, false)),
        ProtocolInput::ForceStop => (known, nothing(false)),
    }
}

impl ProtocolState {
    /// Takes an input of the protocol loop.
    pub fn handle_protocol_input(
        &mut self,
        input: ProtocolInput,
        optimistic: &DocumentTable,
        max_message_bytes: usize,
    ) -> (plan: ProtocolPlan)
        ensures
            (final(self)@, plan@) == on_input(input, old(self)@, optimistic@, max_message_bytes),
    {
        match input {
            ProtocolInput::Command(command) => self.handle_client_command(
                command,
                max_message_bytes,
            ),
            ProtocolInput::ServerMessage(message) => self.handle_server_message(
                message.as_str(),
                optimistic,
                max_message_bytes,
            ),
            ProtocolInput::Stderr(bytes) => plan_tell(LspEvent::Stderr(bytes), true),
            ProtocolInput::StderrTruncated { limit } => plan_tell(
                LspEvent::StderrTruncated { limit },
                true,
            ),
            ProtocolInput::TransportError(message) => plan_tell(
                LspEvent::TransportError(message),
                false,
            ),
            ProtocolInput::ServerClosed => plan_tell(LspEvent::ServerClosed, false),
            ProtocolInput::ForceStop => plan_nothing(false),
        }
    }
}

/// Carries an action through: `written` says how the write went, where the
/// action is one. Returns whether the rest of the plan is carried out.
pub fn settle(
    action: ProtocolAction,
    written: Result<(), String>,
    phase: &mut LspPhase,
    events: &mut EventSink,
) -> (go_on: bool)
    requires
        old(events).queue.valid(),
    ensures
        final(events).queue.valid(),
        go_on == (action is Send ==> written is Ok),
        *final(phase) == (if action is PublishReady && *old(phase) == LspPhase::Starting {
            LspPhase::Ready
        } else {
            *old(phase)
        }),
        match settled_event(action, written, *old(phase)) {
            Some(told) => exists|event: LspEvent, weight: usize|
                event@ == told && #[trigger] weighs(
                    event,
                    old(events).queue@.max_bytes as usize,
                    weight,
                ) && (final(events).queue@, final(events).dropped) == after_emit(
                    old(events).queue@,
                    old(events).dropped,
                    event,
                    weight,
                ),
            None => *final(events) == *old(events),
        },
{
    match action {
        ProtocolAction::Emit(event) => {
            events.emit(event);
            true
        },
        ProtocolAction::Send { json: _, report_failure } => match written {
            Ok(()) => true,
            Err(message) => {
                if report_failure {
                    events.emit(LspEvent::TransportError(message));
                }
                false
            },
        },
        ProtocolAction::PublishReady(event) => {
            if phase.publish_ready() {
                events.emit(event);
            }
            true
        },
    }
}

/// What the editor is told when an action is carried through.
pub open spec fn settled_event(
    action: ProtocolAction,
    written: Result<(), String>,
    phase: LspPhase,
) -> Option<Event> {
    match action {
        ProtocolAction::Emit(event) => Some(event@),
        ProtocolAction::Send { json: _, report_failure } => match written {
            Err(message) if report_failure => Some(Event::TransportError(message@)),
            _ => None,
        },
        ProtocolAction::PublishReady(event) => if phase == LspPhase::Starting {
            Some(event@)
        } else {
            None
        },
    }
}

/// The number of outstanding requests stays within its cap, whatever arrives.
pub proof fn law_pending_requests_are_capped(
    input: ProtocolInput,
    known: Known,
    optimistic: Map<Seq<char>, OpenDocumentState>,
    max: usize,
)
    requires
        known.pending.len() <= MAX_PENDING_REQUESTS,
    ensures
        on_input(input, known, optimistic, max).0.pending.len() <= MAX_PENDING_REQUESTS,
{
    if let ProtocolInput::Command(command) = input {
        lemma_command_growth(command, known, max);
    }
    if let ProtocolInput::ServerMessage(message) = input {
        if let Ok(Json::Table(members)) = parsed(message@) {
            if let Some(id) = response_id(members) {
                lemma_request_index(known.pending, id);
                let rest = without_request(known.pending, id);
                if let Some(waiting) = deferred_in(rest, 0) {
                    lemma_request_index(rest, waiting);
                    lemma_deferred_is_pending(rest, 0);
                }
            }
        }
    }
}

/// No two outstanding requests have the same number, whatever arrives.
pub proof fn law_requests_stay_distinct(
    input: ProtocolInput,
    known: Known,
    optimistic: Map<Seq<char>, OpenDocumentState>,
    max: usize,
)
    requires
        distinct_requests(known.pending),
    ensures
        distinct_requests(on_input(input, known, optimistic, max).0.pending),
{
    if let ProtocolInput::Command(command) = input {
        match command {
            ClientCommand::Request { request_id, operation, scope, .. } => {
                lemma_requests(
                    known.pending,
                    request_id,
                    Pending {
                        operation,
                        scope: Some(scope@),
                        cancel_requested: false,
                        sent: true,
                    },
                );
            },
            ClientCommand::CancelRequest { request_id } => {
                if let Some(request) = request_of(known.pending, request_id) {
                    lemma_requests(
                        known.pending,
                        request_id,
                        Pending { cancel_requested: true, ..request },
                    );
                }
            },
            ClientCommand::Shutdown { request_id } => {
                lemma_requests(
                    known.pending,
                    request_id,
                    Pending {
                        operation: LspOperation::Shutdown,
                        scope: None,
                        cancel_requested: false,
                        sent: !is_initializing(known.pending),
                    },
                );
            },
            _ => {},
        }
    }
    if let ProtocolInput::ServerMessage(message) = input {
        if let Ok(Json::Table(members)) = parsed(message@) {
            if let Some(id) = response_id(members) {
                if let Some(request) = request_of(known.pending, id) {
                    lemma_requests(known.pending, id, request);
                    let rest = without_request(known.pending, id);
                    if let Some(waiting) = deferred_in(rest, 0) {
                        if let Some(shutdown) = request_of(rest, waiting) {
                            lemma_requests(rest, waiting, Pending { sent: true, ..shutdown });
                        }
                    }
                }
            }
        }
    }
}

/// A deferred shutdown is outstanding.
proof fn lemma_deferred_is_pending(requests: Seq<(RequestId, Pending)>, i: int)
    requires
        0 <= i,
    ensures
        match deferred_in(requests, i) {
            Some(id) => request_index(requests, id) is Some,
            None => true,
        },
    decreases requests.len() - i,
{
    if i < requests.len() {
        lemma_request_index(requests, requests[i].0);
        lemma_deferred_is_pending(requests, i + 1);
    }
}

/// Feature requests never take the slot that is kept for a shutdown.
pub proof fn law_shutdown_slot_stays_free(command: ClientCommand, known: Known, max: usize)
    requires
        known.pending.len() < MAX_PENDING_REQUESTS,
        !(command is Shutdown),
    ensures
        on_command(command, known, max).0.pending.len() < MAX_PENDING_REQUESTS,
{
    lemma_command_growth(command, known, max);
}

/// A command adds at most one request, and only a request or a shutdown does.
proof fn lemma_command_growth(command: ClientCommand, known: Known, max: usize)
    ensures
        ({
            let after = on_command(command, known, max).0.pending.len();
            match command {
                ClientCommand::Request { .. } => after == known.pending.len() || (after
                    == known.pending.len() + 1 && after < MAX_PENDING_REQUESTS),
                ClientCommand::Shutdown { .. } => after == known.pending.len() || (after
                    == known.pending.len() + 1 && after <= MAX_PENDING_REQUESTS),
                _ => after == known.pending.len(),
            }
        }),
{
    match command {
        ClientCommand::Request { request_id, .. } => {
            lemma_request_index(known.pending, request_id);
        },
        ClientCommand::Shutdown { request_id } => {
            lemma_request_index(known.pending, request_id);
        },
        ClientCommand::CancelRequest { request_id } => {
            lemma_request_index(known.pending, request_id);
        },
        _ => {},
    }
}

/// The cancellation of a request reaches the wire at most once, and it leaves
/// the request outstanding.
pub proof fn law_cancellation_is_sent_once(id: RequestId, known: Known, max: usize)
    requires
        distinct_requests(known.pending),
    ensures
        ({
            let cancel = ClientCommand::CancelRequest { request_id: id };
            let (after, _) = on_command(cancel, known, max);
            &&& on_command(cancel, after, max) == (after, nothing(true))
            &&& request_of(after.pending, id) is Some <==> request_of(known.pending, id) is Some
        }),
{
    if let Some(request) = request_of(known.pending, id) {
        lemma_requests(known.pending, id, Pending { cancel_requested: true, ..request });
    }
}

/// A response is terminal: once a message answered an outstanding request, that
/// request is no longer outstanding.
pub proof fn law_response_is_terminal(
    members: Seq<(Seq<char>, Json)>,
    known: Known,
    optimistic: Map<Seq<char>, OpenDocumentState>,
    max: usize,
)
    requires
        distinct_requests(known.pending),
        text_member(members, "jsonrpc"@) == Some("2.0"@),
        text_member(members, "method"@) is None,
        response_id(members) is Some,
    ensures
        request_of(on_message(members, known, optimistic, max).0, response_id(members)->0) is None,
{
    let id = response_id(members)->0;
    lemma_request_index(known.pending, id);
    if let Some(request) = request_of(known.pending, id) {
        let rest = without_request(known.pending, id);
        lemma_requests(known.pending, id, request);
        if let Some(waiting) = deferred_in(rest, 0) {
            lemma_deferred_is_pending(rest, 0);
            lemma_request_index(rest, waiting);
            lemma_request_index(rest, id);
            let marked = Pending { sent: true, ..request_of(rest, waiting)->0 };
            let set = with_request(rest, waiting, marked);
            lemma_request_index(set, id);
            assert forall|k: int| 0 <= k < set.len() implies (#[trigger] set[k]).0 == rest[k].0 by {}
            if let Some(k) = request_index(set, id) {
                assert(rest[k].0 == id);
            }
        }
    }
}

/// Whether an event is about a request.
pub open spec fn is_about(event: Event, id: RequestId) -> bool {
    match event {
        Event::Answer { request_id, .. } => request_id == id,
        Event::WorkspaceSymbols { request_id, .. } => request_id == id,
        Event::RequestFailed { request_id, .. } => request_id == id,
        Event::StaleResponse { request_id, .. } => request_id == id,
        _ => false,
    }
}

/// Every response to a feature request, however malformed, is told to the editor
/// in exactly one event about that request, and the session goes on.
pub proof fn law_every_response_is_told(
    members: Seq<(Seq<char>, Json)>,
    request_id: RequestId,
    request: Pending,
    pending: Seq<(RequestId, Pending)>,
    optimistic: Map<Seq<char>, OpenDocumentState>,
    max: usize,
)
    requires
        request.operation != LspOperation::Initialize,
        request.operation != LspOperation::Shutdown,
    ensures
        ({
            let (after, plan) = on_response(
                members,
                request_id,
                request,
                pending,
                optimistic,
                max,
            );
            &&& after == pending
            &&& plan.keep_running
            &&& plan.actions.len() == 1
            &&& plan.actions[0] matches Action::Emit(event) && is_about(event, request_id)
        }),
{
}

/// What a server says on its own is judged by the documents as the server knows
/// them at that point, not by changes that are still queued.
pub proof fn law_notifications_follow_the_protocol_order(
    members: Seq<(Seq<char>, Json)>,
    known: Known,
    a: Map<Seq<char>, OpenDocumentState>,
    b: Map<Seq<char>, OpenDocumentState>,
    max: usize,
)
    requires
        text_member(members, "method"@) is Some,
    ensures
        on_message(members, known, a, max) == on_message(members, known, b, max),
{
}

/// An answer about a document reaches the editor only while the document is
/// open in the version and incarnation that it was asked about.
pub proof fn law_answers_are_current(
    result: Json,
    request_id: RequestId,
    request: Pending,
    optimistic: Map<Seq<char>, OpenDocumentState>,
    max: usize,
)
    ensures
        ({
            let plan = document_result(result, request_id, request, optimistic, max);
            match request.scope {
                Some(Scope::Document { uri, version, incarnation }) => (plan.actions
                    == seq![
                    Action::Emit(
                        Event::Answer {
                            operation: request.operation,
                            request_id,
                            uri,
                            version,
                            result,
                        },
                    ),
                ]) <==> document_state(optimistic, uri) == Some(
                    OpenDocumentState { version, incarnation },
                ),
                _ => true,
            }
        }),
{
    if let Some(Scope::Document { uri, version, incarnation }) = request.scope {
        let plan = document_result(result, request_id, request, optimistic, max);
        let answer = seq![
            Action::Emit(
                Event::Answer { operation: request.operation, request_id, uri, version, result },
            ),
        ];
        if plan.actions == answer {
            assert(plan.actions[0] == answer[0]);
        }
    }
}

} // verus!
