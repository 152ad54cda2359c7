use wscrpt::json::{object, JsonValue, MAX_JSON_DEPTH};
use wscrpt::lsp::{DocumentVersion, Line, LspPosition, Utf16Offset};
use wscrpt::lsp_client::{initialize_request, LspServerConfig};
use wscrpt::lsp_command::{
    client_command_json, client_command_json_len, ClientCommand, RequestScope,
};
use wscrpt::lsp_frame::stream_overflowed;
use wscrpt::lsp_protocol::{
    handle_diagnostics, notification, position_json, settle, LspPhase, ProtocolAction,
    ProtocolPlan, ProtocolState, INVALID_SERVER_RESPONSE_CODE,
};
use wscrpt::lsp_queue::{
    BudgetedQueue, EventSink, ProtocolInput, QueueWeight, SendError,
    JSON_QUEUE_MEMORY_SAFETY_MULTIPLIER,
};
use wscrpt::lsp_tables::{DocumentTable, PendingRequest, PendingTable};
use wscrpt::lsp_types::{
    DocumentIncarnation, JsonRpcError, LspEvent, LspOperation, OpenDocumentState,
    DEFAULT_MAX_MESSAGE_BYTES, DEFAULT_MAX_QUEUED_EVENT_BYTES, DEFAULT_MAX_QUEUED_INPUT_BYTES,
    EVENT_CONTROL_RESERVE, INPUT_CONTROL_RESERVE, MAX_DIAGNOSTICS_ALIAS_PATH_COMPONENTS,
    MAX_PENDING_REQUESTS, MAX_QUEUE_BYTES,
};

fn position(line: usize, character: usize) -> LspPosition {
    LspPosition::new(Line::new(line), Utf16Offset::new(character))
}

fn state_of(version: u64, incarnation: u64) -> OpenDocumentState {
    OpenDocumentState::new(DocumentVersion::new(version), DocumentIncarnation::new(incarnation))
}

fn table(uri: &str, state: OpenDocumentState) -> DocumentTable {
    let mut documents = DocumentTable::new();
    documents.insert(uri.to_owned(), state);
    documents
}

/// The protocol loop with its transport in memory.
struct Loop {
    state: ProtocolState,
    optimistic: DocumentTable,
    phase: LspPhase,
    events: EventSink,
    sent: Vec<String>,
    max: usize,
}

impl Loop {
    fn new(max: usize) -> Self {
        Loop {
            state: ProtocolState { pending: PendingTable::new(), documents: DocumentTable::new() },
            optimistic: DocumentTable::new(),
            phase: LspPhase::Starting,
            events: EventSink::new(BudgetedQueue::new(16, DEFAULT_MAX_QUEUED_EVENT_BYTES, 0)),
            sent: Vec::new(),
            max,
        }
    }

    fn carry_out(&mut self, plan: ProtocolPlan) -> bool {
        for action in plan.actions {
            if let ProtocolAction::Send { json, .. } = &action {
                self.sent.push(json.clone());
            }
            assert!(settle(action, Ok(()), &mut self.phase, &mut self.events));
        }
        plan.keep_running
    }

    fn command(&mut self, command: ClientCommand) -> bool {
        let plan = self.state.handle_client_command(command, self.max);
        self.carry_out(plan)
    }

    fn message(&mut self, source: &str) -> bool {
        let plan = self.state.handle_server_message(source, &self.optimistic, self.max);
        self.carry_out(plan)
    }

    fn input(&mut self, input: ProtocolInput) -> bool {
        let plan = self.state.handle_protocol_input(input, &self.optimistic, self.max);
        self.carry_out(plan)
    }

    fn event(&mut self) -> LspEvent {
        self.events.queue.recv().unwrap()
    }

    fn quiet(&self) -> bool {
        self.events.queue.is_empty()
    }
}

fn pending(operation: LspOperation, scope: Option<RequestScope>) -> PendingRequest {
    PendingRequest { operation, scope, cancel_requested: false, sent: true }
}

fn symbols(request_id: u64, query: &str) -> ClientCommand {
    ClientCommand::Request {
        request_id,
        operation: LspOperation::WorkspaceSymbols,
        method: "workspace/symbol",
        scope: RequestScope::Workspace,
        params: object(vec![("query", JsonValue::text(query))]),
    }
}

fn publication(uri: &str, message: &str) -> String {
    notification(
        "textDocument/publishDiagnostics",
        object(vec![
            ("uri", JsonValue::text(uri)),
            (
                "diagnostics",
                JsonValue::Array(vec![object(vec![("message", JsonValue::text(message))])]),
            ),
        ]),
    )
    .to_json_string()
}

fn first_message(diagnostics: &[JsonValue]) -> Option<&str> {
    diagnostics[0].get("message").and_then(JsonValue::as_str)
}

#[test]
fn full_event_queue_reports_first_loss_without_a_later_event() {
    let filler = LspEvent::TransportError("ordinary queue filler".to_owned());
    let filler_weight = filler.queue_weight(MAX_QUEUE_BYTES);
    let mut queue = BudgetedQueue::new(1, filler_weight, EVENT_CONTROL_RESERVE);
    queue.try_send(filler).unwrap();

    let mut events = EventSink::new(queue);
    events.emit(LspEvent::ServerClosed);

    assert!(matches!(
        events.queue.recv().unwrap(),
        LspEvent::TransportError(message) if message == "ordinary queue filler"
    ));
    assert!(matches!(events.queue.recv().unwrap(), LspEvent::EventsDropped { count: 1 }));
    assert!(events.queue.recv().is_none());
}

#[test]
fn queue_weights_cover_command_payloads_stderr_and_json_expansion() {
    let baseline = ProtocolInput::Command(ClientCommand::CancelRequest { request_id: 1 })
        .queue_weight(MAX_QUEUE_BYTES);
    let text_bytes = 8 * 1024;
    let document = ProtocolInput::Command(ClientCommand::DidOpen {
        uri: "file:///large.rs".to_owned(),
        language_id: "rust".to_owned(),
        version: DocumentVersion::new(1),
        incarnation: DocumentIncarnation::new(1),
        text: "x".repeat(text_bytes),
    });
    assert!(document.queue_weight(MAX_QUEUE_BYTES) >= baseline + text_bytes);

    let incremental_change = ProtocolInput::Command(ClientCommand::DidChange {
        uri: "file:///large.rs".to_owned(),
        version: DocumentVersion::new(2),
        previous_end: Some(position(0, text_bytes)),
        text: "y".repeat(text_bytes),
    });
    assert!(incremental_change.queue_weight(MAX_QUEUE_BYTES) >= baseline + text_bytes);

    let request = ProtocolInput::Command(symbols(2, &"q".repeat(text_bytes)));
    assert!(request.queue_weight(MAX_QUEUE_BYTES) >= baseline + text_bytes);

    let stderr = ProtocolInput::Stderr(vec![0; text_bytes]);
    assert!(stderr.queue_weight(MAX_QUEUE_BYTES) >= text_bytes);

    let payload = "z".repeat(1_024);
    let payload_capacity = payload.capacity();
    let event =
        LspEvent::WorkspaceSymbols { request_id: 3, result: JsonValue::String(payload) };
    let expected_json_floor = std::mem::size_of::<JsonValue>()
        .saturating_add(payload_capacity)
        .saturating_mul(JSON_QUEUE_MEMORY_SAFETY_MULTIPLIER);
    assert!(
        event.queue_weight(MAX_QUEUE_BYTES)
            >= std::mem::size_of::<LspEvent>() + expected_json_floor
    );
}

#[test]
fn incremental_full_document_replacement_has_exact_range_and_size_preflight() {
    let command = ClientCommand::DidChange {
        uri: "file:///incremental.rs".to_owned(),
        version: DocumentVersion::new(2),
        previous_end: Some(position(7, 11)),
        text: "next\n\u{1}\"\\🦀".to_owned(),
    };
    let expected = "{\"jsonrpc\":\"2.0\",\"method\":\"textDocument/didChange\",\
        \"params\":{\"textDocument\":{\"uri\":\"file:///incremental.rs\",\
        \"version\":2},\"contentChanges\":[{\"range\":{\"start\":{\"line\":0,\
        \"character\":0},\"end\":{\"line\":7,\"character\":11}},\
        \"text\":\"next\\n\\u0001\\\"\\\\🦀\"}]}}";

    let exact = client_command_json_len(&command, MAX_QUEUE_BYTES).unwrap();
    assert_eq!(exact, expected.len());
    assert!(client_command_json_len(&command, exact).is_ok());
    assert!(client_command_json_len(&command, exact - 1).is_err());
    assert_eq!(client_command_json(&command, exact).unwrap(), expected);
}

#[test]
fn outbound_preflight_rejects_eight_to_sixteen_mib_and_escaped_expansion() {
    for text_bytes in [8, 12, 16].map(|mib: usize| mib * 1024 * 1024) {
        let command = ClientCommand::DidOpen {
            uri: "file:///large.rs".to_owned(),
            language_id: "rust".to_owned(),
            version: DocumentVersion::new(1),
            incarnation: DocumentIncarnation::new(1),
            text: "x".repeat(text_bytes),
        };
        assert_eq!(client_command_json_len(&command, DEFAULT_MAX_MESSAGE_BYTES), Err(()));
        let exact = client_command_json_len(&command, MAX_QUEUE_BYTES).unwrap();
        assert!(exact > DEFAULT_MAX_MESSAGE_BYTES);
        assert!(exact > text_bytes);
    }

    let source_bytes = 2 * 1024 * 1024;
    let command = ClientCommand::DidSave {
        uri: "file:///escape-heavy.rs".to_owned(),
        text: Some("\u{1}".repeat(source_bytes)),
    };
    assert_eq!(client_command_json_len(&command, DEFAULT_MAX_MESSAGE_BYTES), Err(()));
    let exact = client_command_json_len(&command, MAX_QUEUE_BYTES).unwrap();
    assert!(source_bytes < DEFAULT_MAX_MESSAGE_BYTES);
    assert!(exact > DEFAULT_MAX_MESSAGE_BYTES);

    let too_deep =
        (0..=MAX_JSON_DEPTH).fold(JsonValue::Null, |value, _| JsonValue::Array(vec![value]));
    let command = ClientCommand::Request {
        request_id: 1,
        operation: LspOperation::Formatting,
        method: "textDocument/formatting",
        scope: RequestScope::Workspace,
        params: too_deep,
    };
    assert_eq!(client_command_json_len(&command, MAX_QUEUE_BYTES), Err(()));
}

#[test]
fn diagnostics_payload_is_moved_and_oversize_event_is_reported_dropped() {
    let uri = "file:///large.rs".to_owned();
    let uri_pointer = uri.as_ptr();
    let documents = table("file:///large.rs", state_of(1, 1));
    let message = "diagnostic".repeat(1_024);
    let message_pointer = message.as_ptr();
    let params = object(vec![
        ("uri", JsonValue::String(uri)),
        ("version", JsonValue::unsigned(1)),
        (
            "diagnostics",
            JsonValue::Array(vec![object(vec![("message", JsonValue::String(message))])]),
        ),
    ]);
    let moved = handle_diagnostics(Some(params), &documents);
    let LspEvent::Diagnostics { uri, diagnostics, .. } = moved else {
        panic!("expected diagnostics event");
    };
    assert_eq!(uri.as_ptr(), uri_pointer);
    assert_eq!(first_message(&diagnostics).unwrap().as_ptr(), message_pointer);

    let marker_weight = LspEvent::EventsDropped { count: 1 }.queue_weight(MAX_QUEUE_BYTES);
    let mut events = EventSink::new(BudgetedQueue::new(4, marker_weight, 0));
    events.emit(LspEvent::Diagnostics {
        uri: "file:///large.rs".to_owned(),
        version: Some(DocumentVersion::new(1)),
        observed_version: Some(DocumentVersion::new(1)),
        observed_incarnation: Some(DocumentIncarnation::new(1)),
        diagnostics: vec![object(vec![("message", JsonValue::String("x".repeat(8 * 1024)))])],
    });
    assert!(matches!(events.queue.recv().unwrap(), LspEvent::EventsDropped { count: 1 }));
    assert!(events.queue.recv().is_none());
}

#[test]
fn diagnostics_normalize_local_uri_aliases_before_document_correlation() {
    let canonical_uri = "file:///tmp/wscrpt/diagnostic-target.rs";
    let alias_uri = "FiLe://LOCALHOST/tmp/wscrpt/./diagnostic%2Dtarget.rs";
    let version = DocumentVersion::new(9);
    let incarnation = DocumentIncarnation::new(3);
    let documents = table(canonical_uri, OpenDocumentState::new(version, incarnation));

    let event = handle_diagnostics(
        Some(object(vec![
            ("uri", JsonValue::text(alias_uri)),
            ("version", JsonValue::unsigned(version.get())),
            ("diagnostics", JsonValue::Array(Vec::new())),
        ])),
        &documents,
    );
    assert!(matches!(
        event,
        LspEvent::Diagnostics {
            uri,
            version: Some(received_version),
            observed_version: Some(observed_version),
            observed_incarnation: Some(observed_incarnation),
            ..
        } if uri == canonical_uri
            && received_version == version
            && observed_version == version
            && observed_incarnation == incarnation
    ));

    let event = handle_diagnostics(
        Some(object(vec![
            ("uri", JsonValue::text(alias_uri)),
            ("diagnostics", JsonValue::Null),
        ])),
        &documents,
    );
    assert!(matches!(
        event,
        LspEvent::DiagnosticsRejected { uri: Some(uri), reason }
            if uri == canonical_uri && reason.contains("diagnostics array")
    ));

    for invalid_uri in [
        "file://remote.invalid/tmp/diagnostic-target.rs",
        "file:///tmp/diagnostic-target.rs?query",
        "file:///tmp/diagnostic-target.rs#fragment",
        "file:///tmp/diagnostic%QQtarget.rs",
    ] {
        let event = handle_diagnostics(
            Some(object(vec![
                ("uri", JsonValue::text(invalid_uri)),
                ("diagnostics", JsonValue::Array(Vec::new())),
            ])),
            &documents,
        );
        assert!(matches!(
            event,
            LspEvent::DiagnosticsRejected { uri: Some(uri), reason }
                if uri == invalid_uri && reason.contains("valid local file URI")
        ));
    }
}

#[test]
fn diagnostics_exact_deleted_open_uri_correlates_and_component_bomb_rejects() {
    let canonical_uri = "file:///tmp/wscrpt/deleted-but-open.rs";
    let version = DocumentVersion::new(4);
    let incarnation = DocumentIncarnation::new(11);
    let documents = table(canonical_uri, OpenDocumentState::new(version, incarnation));

    let event = handle_diagnostics(
        Some(object(vec![
            ("uri", JsonValue::text(canonical_uri)),
            ("version", JsonValue::unsigned(version.get())),
            ("diagnostics", JsonValue::Array(Vec::new())),
        ])),
        &documents,
    );
    assert!(matches!(
        event,
        LspEvent::Diagnostics {
            uri,
            observed_version: Some(observed_version),
            observed_incarnation: Some(observed_incarnation),
            ..
        } if uri == canonical_uri
            && observed_version == version
            && observed_incarnation == incarnation
    ));

    let component_bomb = format!(
        "file:///{}missing.rs",
        "segment/".repeat(MAX_DIAGNOSTICS_ALIAS_PATH_COMPONENTS + 1)
    );
    let event = handle_diagnostics(
        Some(object(vec![
            ("uri", JsonValue::text(&component_bomb)),
            ("diagnostics", JsonValue::Array(Vec::new())),
        ])),
        &documents,
    );
    assert!(matches!(
        event,
        LspEvent::DiagnosticsRejected { uri: Some(uri), reason }
            if uri == component_bomb && reason.contains("component safety limit")
    ));
}

#[test]
fn reader_overflow_is_visible_and_control_slots_preserve_shutdown_progress() {
    let mut queue = BudgetedQueue::new(1, 128, INPUT_CONTROL_RESERVE);
    assert!(matches!(
        queue.try_send(ProtocolInput::ServerMessage("x".repeat(8 * 1024))),
        Err(SendError::Full(_))
    ));
    queue.try_send_control(stream_overflowed("stdout")).unwrap();
    assert!(matches!(
        queue.recv().unwrap(),
        ProtocolInput::TransportError(message) if message.contains("shared input queue limit")
    ));

    let normal = ProtocolInput::ServerMessage("ok".to_owned());
    let normal_weight = normal.queue_weight(MAX_QUEUE_BYTES);
    let mut queue = BudgetedQueue::new(1, normal_weight, 2);
    queue.try_send(normal).unwrap();
    queue
        .try_send_control(ProtocolInput::Command(ClientCommand::Shutdown { request_id: 7 }))
        .unwrap();
    queue.try_send_control(ProtocolInput::ForceStop).unwrap();
    assert!(matches!(queue.recv().unwrap(), ProtocolInput::ServerMessage(_)));
    assert!(matches!(
        queue.recv().unwrap(),
        ProtocolInput::Command(ClientCommand::Shutdown { request_id: 7 })
    ));
    assert!(matches!(queue.recv().unwrap(), ProtocolInput::ForceStop));
}

fn initialize() -> JsonValue {
    let config = LspServerConfig::new(vec![b"server".to_vec()], b"/tmp".to_vec());
    initialize_request(7, "0.1.0", config.root_uri, config.initialization_options)
}

#[test]
fn initialize_and_document_messages_are_strict_json_rpc() {
    let initialize = initialize();
    assert_eq!(initialize.get("jsonrpc").and_then(JsonValue::as_str), Some("2.0"));
    assert_eq!(initialize.get("id").and_then(JsonValue::as_u64), Some(1));
    assert_eq!(initialize.get("method").and_then(JsonValue::as_str), Some("initialize"));

    let unicode = notification(
        "textDocument/didChange",
        object(vec![("text", JsonValue::text("a🦀👩‍💻"))]),
    );
    let encoded = unicode.to_json_string();
    assert_eq!(JsonValue::parse(&encoded).unwrap(), unicode);
    assert!(encoded.len() > encoded.chars().count());
}

#[test]
fn initialize_advertises_bounded_workspace_symbol_support_without_resolve() {
    let initialize = initialize();
    let symbol = initialize
        .get("params")
        .and_then(|params| params.get("capabilities"))
        .and_then(|capabilities| capabilities.get("workspace"))
        .and_then(|workspace| workspace.get("symbol"))
        .expect("workspace symbol client capability");
    assert_eq!(symbol.get("dynamicRegistration"), Some(&JsonValue::Bool(false)));
    let Some(JsonValue::Array(kinds)) =
        symbol.get("symbolKind").and_then(|symbol_kind| symbol_kind.get("valueSet"))
    else {
        panic!("workspace symbol kinds must be advertised")
    };
    assert_eq!(kinds.len(), 26);
    assert_eq!(kinds.first().and_then(JsonValue::as_u64), Some(1));
    assert_eq!(kinds.last().and_then(JsonValue::as_u64), Some(26));
    assert!(!symbol.contains_key("resolveSupport"));
}

#[test]
fn initialize_does_not_advertise_removed_cross_file_mutation_workflows() {
    let initialize = initialize();
    let capabilities = initialize
        .get("params")
        .and_then(|params| params.get("capabilities"))
        .expect("client capabilities");
    let text_document = capabilities.get("textDocument").expect("text document capabilities");
    let workspace = capabilities.get("workspace").expect("workspace capabilities");
    assert!(!text_document.contains_key("rename"));
    assert!(!text_document.contains_key("codeAction"));
    assert!(!workspace.contains_key("workspaceEdit"));
}

#[test]
fn initialize_advertises_static_did_save_support() {
    let initialize = initialize();
    let synchronization = initialize
        .get("params")
        .and_then(|params| params.get("capabilities"))
        .and_then(|capabilities| capabilities.get("textDocument"))
        .and_then(|text_document| text_document.get("synchronization"))
        .expect("text document synchronization client capability");
    assert_eq!(
        synchronization,
        &object(vec![
            ("dynamicRegistration", JsonValue::Bool(false)),
            ("willSave", JsonValue::Bool(false)),
            ("willSaveWaitUntil", JsonValue::Bool(false)),
            ("didSave", JsonValue::Bool(true)),
        ])
    );
}

#[test]
fn ready_event_stores_workspace_symbol_capability() {
    for (provider, expected) in [
        (Some(JsonValue::Bool(true)), true),
        (Some(object(vec![])), true),
        (Some(JsonValue::Bool(false)), false),
        (None, false),
    ] {
        let capabilities = match provider {
            Some(provider) => object(vec![("workspaceSymbolProvider", provider)]),
            None => object(vec![]),
        };
        let response = object(vec![
            ("jsonrpc", JsonValue::text("2.0")),
            ("id", JsonValue::unsigned(1)),
            ("result", object(vec![("capabilities", capabilities)])),
        ])
        .to_json_string();
        let mut session = Loop::new(4096);
        session.state.pending.insert(1, pending(LspOperation::Initialize, None));
        assert!(session.message(&response));
        assert!(matches!(
            session.event(),
            LspEvent::Ready { workspace_symbols, .. } if workspace_symbols == expected
        ));
    }
}

#[test]
fn workspace_symbol_request_serializes_without_a_text_document() {
    let mut session = Loop::new(4096);
    assert!(session.command(symbols(7, "needle")));
    let request = JsonValue::parse(&session.sent[0]).unwrap();
    assert_eq!(request.get("method").and_then(JsonValue::as_str), Some("workspace/symbol"));
    assert_eq!(
        request.get("params").and_then(|params| params.get("query")).and_then(JsonValue::as_str),
        Some("needle")
    );
    assert!(!request.get("params").is_some_and(|params| params.contains_key("textDocument")));
    assert!(matches!(
        session.state.pending.get(7),
        Some(PendingRequest {
            operation: LspOperation::WorkspaceSymbols,
            scope: Some(RequestScope::Workspace),
            cancel_requested: false,
            sent: true,
        })
    ));
}

#[test]
fn cancellation_serializes_once_and_keeps_success_correlation() {
    let mut session = Loop::new(4096);
    assert!(session.command(symbols(7, "needle")));
    assert_eq!(session.sent.len(), 1);

    for _ in 0..2 {
        assert!(session.command(ClientCommand::CancelRequest { request_id: 7 }));
    }
    assert_eq!(session.sent.len(), 2);
    let cancel = JsonValue::parse(&session.sent[1]).unwrap();
    assert_eq!(cancel.get("method").and_then(JsonValue::as_str), Some("$/cancelRequest"));
    assert_eq!(
        cancel.get("params").and_then(|params| params.get("id")).and_then(JsonValue::as_u64),
        Some(7)
    );
    assert!(matches!(
        session.state.pending.get(7),
        Some(PendingRequest {
            operation: LspOperation::WorkspaceSymbols,
            scope: Some(RequestScope::Workspace),
            cancel_requested: true,
            sent: true,
        })
    ));

    assert!(session.message(r#"{"jsonrpc":"2.0","id":7,"result":[]}"#));
    assert!(session.state.pending.is_empty());
    assert!(matches!(session.event(), LspEvent::WorkspaceSymbols { request_id: 7, .. }));

    assert!(session.command(ClientCommand::CancelRequest { request_id: 7 }));
    assert_eq!(session.sent.len(), 2);
}

#[test]
fn malformed_error_for_known_response_emits_correlated_request_failure() {
    let mut session = Loop::new(4096);
    session
        .state
        .pending
        .insert(7, pending(LspOperation::WorkspaceSymbols, Some(RequestScope::Workspace)));

    assert!(
        session.message(r#"{"jsonrpc":"2.0","id":7,"error":{"code":"bad","message":false}}"#)
    );
    assert!(session.state.pending.is_empty());
    assert!(matches!(
        session.event(),
        LspEvent::RequestFailed {
            request_id: 7,
            operation: LspOperation::WorkspaceSymbols,
            error: JsonRpcError { code: INVALID_SERVER_RESPONSE_CODE, message, data: None },
        } if message.contains("missing an integer code")
    ));
    assert!(session.quiet());
}

#[test]
fn missing_or_invalid_jsonrpc_for_known_response_emits_correlated_request_failure() {
    for response in [
        r#"{"id":7,"result":[]}"#,
        r#"{"jsonrpc":"1.0","id":7,"result":[]}"#,
        r#"{"id":7,"method":null,"result":[]}"#,
        r#"{"jsonrpc":"1.0","id":7,"method":7,"error":{}}"#,
    ] {
        let mut session = Loop::new(4096);
        session
            .state
            .pending
            .insert(7, pending(LspOperation::WorkspaceSymbols, Some(RequestScope::Workspace)));

        assert!(session.message(response));
        assert!(session.state.pending.is_empty());
        assert!(matches!(
            session.event(),
            LspEvent::RequestFailed {
                request_id: 7,
                operation: LspOperation::WorkspaceSymbols,
                error: JsonRpcError { code: INVALID_SERVER_RESPONSE_CODE, message, data: None },
            } if message.contains("jsonrpc=\"2.0\"")
        ));
        assert!(session.quiet());
    }
}

#[test]
fn invalid_jsonrpc_for_unknown_response_remains_an_uncorrelated_protocol_error() {
    let mut session = Loop::new(4096);
    session.state.pending.insert(8, pending(LspOperation::Hover, None));

    assert!(session.message(r#"{"jsonrpc":"1.0","id":7,"result":null}"#));
    assert!(session.state.pending.get(8).is_some());
    assert!(matches!(
        session.event(),
        LspEvent::ProtocolError(message) if message.contains("jsonrpc=\"2.0\"")
    ));
    assert!(session.quiet());
}

#[test]
fn malformed_scope_for_known_response_emits_correlated_request_failure() {
    let malformed = [
        (
            8,
            pending(
                LspOperation::WorkspaceSymbols,
                Some(RequestScope::Document {
                    uri: "file:///wrong.rs".to_owned(),
                    version: DocumentVersion::new(1),
                    incarnation: DocumentIncarnation::new(1),
                }),
            ),
            LspOperation::WorkspaceSymbols,
            "non-workspace request scope",
        ),
        (
            9,
            pending(LspOperation::Hover, Some(RequestScope::Workspace)),
            LspOperation::Hover,
            "non-document request scope",
        ),
    ];

    for (request_id, request, expected_operation, expected_message) in malformed {
        let mut session = Loop::new(4096);
        session.state.pending.insert(request_id, request);
        let response = format!("{{\"jsonrpc\":\"2.0\",\"id\":{request_id},\"result\":null}}");

        assert!(session.message(&response));
        assert!(session.state.pending.is_empty());
        assert!(matches!(
            session.event(),
            LspEvent::RequestFailed {
                request_id: received_id,
                operation,
                error: JsonRpcError { code: INVALID_SERVER_RESPONSE_CODE, message, data: None },
            } if received_id == request_id
                && operation == expected_operation
                && message.contains(expected_message)
        ));
        assert!(session.quiet());
    }
}

#[test]
fn pending_requests_are_hard_capped_with_a_reserved_shutdown_slot() {
    let mut session = Loop::new(4096);
    for request_id in 1..MAX_PENDING_REQUESTS as u64 {
        assert!(session.command(symbols(request_id, "")));
    }
    assert_eq!(session.state.pending.len(), MAX_PENDING_REQUESTS - 1);
    let written_before_rejection = session.sent.len();
    assert!(session.command(symbols(10_000, "rejected")));
    assert_eq!(session.sent.len(), written_before_rejection);
    assert_eq!(session.state.pending.len(), MAX_PENDING_REQUESTS - 1);
    assert!(matches!(
        session.event(),
        LspEvent::RequestFailed {
            request_id: 10_000,
            operation: LspOperation::WorkspaceSymbols,
            ..
        }
    ));

    assert!(session.command(ClientCommand::Shutdown { request_id: 20_000 }));
    assert_eq!(session.state.pending.len(), MAX_PENDING_REQUESTS);
}

#[test]
fn diagnostics_capture_observed_state_and_emit_typed_malformed_rejections() {
    let incarnation = DocumentIncarnation::new(7);
    let mut documents = table("file:///a", state_of(2, 7));

    let event = handle_diagnostics(
        Some(object(vec![
            ("uri", JsonValue::text("file:///a")),
            ("diagnostics", JsonValue::Array(Vec::new())),
        ])),
        &documents,
    );
    documents.insert("file:///a".to_owned(), state_of(3, 7));
    assert!(matches!(
        event,
        LspEvent::Diagnostics {
            version: None,
            observed_version: Some(observed),
            observed_incarnation: Some(observed_incarnation),
            ..
        } if observed == DocumentVersion::new(2) && observed_incarnation == incarnation
    ));

    let malformed = [
        JsonValue::String("2".to_owned()),
        JsonValue::signed(-1),
        JsonValue::unsigned(i32::MAX as u64 + 1),
        JsonValue::parse("1.5").unwrap(),
        JsonValue::Null,
    ];
    for version in malformed {
        let event = handle_diagnostics(
            Some(object(vec![
                ("uri", JsonValue::text("file:///a")),
                ("version", version),
                ("diagnostics", JsonValue::Array(Vec::new())),
            ])),
            &documents,
        );
        assert!(matches!(
            event,
            LspEvent::DiagnosticsRejected { uri: Some(uri), reason }
                if uri == "file:///a" && reason.contains("publishDiagnostics version")
        ));
    }

    let event = handle_diagnostics(
        Some(object(vec![("uri", JsonValue::text("file:///recoverable"))])),
        &documents,
    );
    assert!(matches!(
        event,
        LspEvent::DiagnosticsRejected { uri: Some(uri), reason }
            if uri == "file:///recoverable" && reason.contains("diagnostics array")
    ));

    let event = handle_diagnostics(Some(JsonValue::Array(Vec::new())), &documents);
    assert!(matches!(
        event,
        LspEvent::DiagnosticsRejected { uri: None, reason }
            if reason.contains("params must be an object")
    ));

    documents.insert("file:///a".to_owned(), state_of(i32::MAX as u64, 7));
    let event = handle_diagnostics(
        Some(object(vec![
            ("uri", JsonValue::text("file:///a")),
            ("version", JsonValue::unsigned(i32::MAX as u64)),
            ("diagnostics", JsonValue::Array(Vec::new())),
        ])),
        &documents,
    );
    assert!(matches!(
        event,
        LspEvent::Diagnostics {
            version: Some(version),
            observed_version: Some(observed),
            observed_incarnation: Some(observed_incarnation),
            ..
        } if version == DocumentVersion::new(i32::MAX as u64)
            && observed == version
            && observed_incarnation == incarnation
    ));
}

#[test]
fn versionless_diagnostics_observe_protocol_input_order_not_optimistic_state() {
    let uri = "file:///ordered.rs";
    let version_one = DocumentVersion::new(1);
    let version_two = DocumentVersion::new(2);
    let incarnation = DocumentIncarnation::new(1);

    let mut queue = BudgetedQueue::new(4, DEFAULT_MAX_QUEUED_INPUT_BYTES, 0);
    queue.try_send(ProtocolInput::ServerMessage(publication(uri, "old"))).unwrap();
    queue
        .try_send(ProtocolInput::Command(ClientCommand::DidChange {
            uri: uri.to_owned(),
            version: version_two,
            previous_end: None,
            text: "fn changed() {}\n".to_owned(),
        }))
        .unwrap();
    queue.try_send(ProtocolInput::ServerMessage(publication(uri, "current"))).unwrap();

    let mut session = Loop::new(DEFAULT_MAX_MESSAGE_BYTES);
    session.optimistic = table(uri, state_of(2, 1));
    session.state.documents = table(uri, state_of(1, 1));

    assert!(session.input(queue.recv().unwrap()));
    let LspEvent::Diagnostics {
        version, observed_version, observed_incarnation, diagnostics, ..
    } = session.event()
    else {
        panic!("expected the old diagnostics publication")
    };
    assert_eq!(version, None);
    assert_eq!(observed_version, Some(version_one));
    assert_ne!(observed_version, Some(version_two));
    assert_eq!(observed_incarnation, Some(incarnation));
    assert_eq!(first_message(&diagnostics), Some("old"));

    assert!(session.input(queue.recv().unwrap()));
    assert_eq!(session.state.documents.get(uri), Some(state_of(2, 1)));
    assert!(session.quiet());

    assert!(session.input(queue.recv().unwrap()));
    assert!(matches!(
        session.event(),
        LspEvent::Diagnostics {
            version: None,
            observed_version: Some(observed),
            observed_incarnation: Some(observed_incarnation),
            diagnostics,
            ..
        } if observed == version_two
            && observed_incarnation == incarnation
            && first_message(&diagnostics) == Some("current")
    ));
}

#[test]
fn queued_diagnostics_keep_the_pre_close_incarnation_after_uri_reopen() {
    let uri = "file:///reopened.rs";
    let version = DocumentVersion::new(1);
    let first_incarnation = DocumentIncarnation::new(1);
    let second_incarnation = DocumentIncarnation::new(2);

    let mut queue = BudgetedQueue::new(8, DEFAULT_MAX_QUEUED_INPUT_BYTES, 0);
    queue
        .try_send(ProtocolInput::Command(ClientCommand::DidOpen {
            uri: uri.to_owned(),
            language_id: "rust".to_owned(),
            version,
            incarnation: first_incarnation,
            text: "fn first() {}\n".to_owned(),
        }))
        .unwrap();

    let mut session = Loop::new(DEFAULT_MAX_MESSAGE_BYTES);
    session.optimistic = table(uri, state_of(1, 1));
    assert!(session.input(queue.recv().unwrap()));
    assert_eq!(session.state.documents.get(uri), Some(state_of(1, 1)));

    queue.try_send(ProtocolInput::ServerMessage(publication(uri, "old"))).unwrap();
    queue
        .try_send(ProtocolInput::Command(ClientCommand::DidClose { uri: uri.to_owned() }))
        .unwrap();
    session.optimistic = table(uri, state_of(1, 2));
    queue
        .try_send(ProtocolInput::Command(ClientCommand::DidOpen {
            uri: uri.to_owned(),
            language_id: "rust".to_owned(),
            version,
            incarnation: second_incarnation,
            text: "fn second() {}\n".to_owned(),
        }))
        .unwrap();
    queue.try_send(ProtocolInput::ServerMessage(publication(uri, "current"))).unwrap();

    for _ in 0..4 {
        assert!(session.input(queue.recv().unwrap()));
    }
    assert_eq!(session.state.documents.get(uri), Some(state_of(1, 2)));

    assert!(matches!(
        session.event(),
        LspEvent::Diagnostics {
            observed_version: Some(observed_version),
            observed_incarnation: Some(observed_incarnation),
            diagnostics,
            ..
        } if observed_version == version
            && observed_incarnation == first_incarnation
            && observed_incarnation != second_incarnation
            && first_message(&diagnostics) == Some("old")
    ));
    assert!(matches!(
        session.event(),
        LspEvent::Diagnostics {
            observed_version: Some(observed_version),
            observed_incarnation: Some(observed_incarnation),
            diagnostics,
            ..
        } if observed_version == version
            && observed_incarnation == second_incarnation
            && first_message(&diagnostics) == Some("current")
    ));
}

#[test]
fn document_response_is_stale_after_same_uri_and_version_reopen() {
    let uri = "file:///request-reopen.rs";
    let version = DocumentVersion::new(1);
    let first_incarnation = DocumentIncarnation::new(11);
    let second_incarnation = DocumentIncarnation::new(12);
    let request_id = 77;

    let mut session = Loop::new(DEFAULT_MAX_MESSAGE_BYTES);
    session.optimistic = table(uri, OpenDocumentState::new(version, first_incarnation));
    session.state.documents = table(uri, OpenDocumentState::new(version, first_incarnation));
    assert!(session.input(ProtocolInput::Command(ClientCommand::Request {
        request_id,
        operation: LspOperation::Hover,
        method: "textDocument/hover",
        scope: RequestScope::Document {
            uri: uri.to_owned(),
            version,
            incarnation: first_incarnation,
        },
        params: object(vec![
            ("textDocument", object(vec![("uri", JsonValue::text(uri))])),
            ("position", position_json(position(0, 0))),
        ]),
    })));
    assert!(session.state.pending.get(request_id).is_some());

    session.optimistic = table(uri, OpenDocumentState::new(version, second_incarnation));
    let inputs = vec![
        ProtocolInput::Command(ClientCommand::DidClose { uri: uri.to_owned() }),
        ProtocolInput::Command(ClientCommand::DidOpen {
            uri: uri.to_owned(),
            language_id: "rust".to_owned(),
            version,
            incarnation: second_incarnation,
            text: "fn reopened() {}\n".to_owned(),
        }),
        ProtocolInput::ServerMessage(
            object(vec![
                ("jsonrpc", JsonValue::text("2.0")),
                ("id", JsonValue::unsigned(request_id)),
                ("result", object(vec![("contents", JsonValue::text("old hover"))])),
            ])
            .to_json_string(),
        ),
    ];
    for input in inputs {
        assert!(session.input(input));
    }
    assert!(session.state.pending.is_empty());
    assert!(matches!(
        session.event(),
        LspEvent::StaleResponse {
            request_id: stale_id,
            operation: LspOperation::Hover,
            uri: stale_uri,
            requested_version,
            current_version: Some(current_version),
        } if stale_id == request_id
            && stale_uri == uri
            && requested_version == version
            && current_version == version
    ));
    assert!(session.quiet());
}

#[test]
fn diagnostics_and_responses_are_rejected_after_document_version_advances() {
    let mut session = Loop::new(4096);
    session.state.documents = table("file:///a", state_of(2, 1));
    session.optimistic = table("file:///a", state_of(2, 1));

    let event = handle_diagnostics(
        Some(object(vec![
            ("uri", JsonValue::text("file:///a")),
            ("version", JsonValue::unsigned(1)),
            ("diagnostics", JsonValue::Array(Vec::new())),
        ])),
        &session.state.documents,
    );
    assert!(matches!(event, LspEvent::StaleDiagnostics { .. }));

    session.state.pending.insert(
        9,
        pending(
            LspOperation::Hover,
            Some(RequestScope::Document {
                uri: "file:///a".to_owned(),
                version: DocumentVersion::new(1),
                incarnation: DocumentIncarnation::new(1),
            }),
        ),
    );
    assert!(session.message(r#"{"jsonrpc":"2.0","id":9,"result":{"contents":"old"}}"#));
    assert!(matches!(session.event(), LspEvent::StaleResponse { request_id: 9, .. }));
}

#[test]
fn a_failed_write_ends_the_session_with_its_reason() {
    let mut session = Loop::new(4096);
    let plan = session.state.handle_client_command(symbols(7, "x"), 4096);
    let mut going = true;
    for action in plan.actions {
        going = going
            && settle(action, Err("broken pipe".to_owned()), &mut session.phase, &mut session.events);
    }
    assert!(!going);
    assert!(matches!(
        session.event(),
        LspEvent::TransportError(message) if message == "broken pipe"
    ));
}

#[test]
fn stderr_and_endings_are_told() {
    let mut session = Loop::new(4096);
    assert!(session.input(ProtocolInput::Stderr(vec![1, 2])));
    assert!(matches!(session.event(), LspEvent::Stderr(bytes) if bytes == [1, 2]));
    assert!(session.input(ProtocolInput::StderrTruncated { limit: 5 }));
    assert!(matches!(session.event(), LspEvent::StderrTruncated { limit: 5 }));
    assert!(!session.input(ProtocolInput::ServerClosed));
    assert!(matches!(session.event(), LspEvent::ServerClosed));
    assert!(!session.input(ProtocolInput::ForceStop));
    assert!(session.quiet());
}

#[test]
fn an_event_is_queued_by_its_weight() {
    let mut events = EventSink::new(BudgetedQueue::new(4, 100, 1));
    events.emit_weighed(LspEvent::ServerClosed, 60);
    events.emit_weighed(LspEvent::ShutdownComplete, 41);
    assert!(matches!(events.queue.recv(), Some(LspEvent::ServerClosed)));
    assert!(matches!(events.queue.recv(), Some(LspEvent::EventsDropped { count: 1 })));
    events.emit_weighed(LspEvent::ShutdownComplete, 100);
    assert!(matches!(events.queue.recv(), Some(LspEvent::ShutdownComplete)));
}
