use wscrpt::json::{object, JsonValue};
use wscrpt::lsp::{DocumentVersion, Line, LspPosition, Utf16Offset};
use wscrpt::lsp_client::{initialize_request, root_uri_after, LspClient, LspServerConfig};
use wscrpt::lsp_command::{
    client_command_json_len, did_open_json_len, message_json, ClientCommand, RequestScope,
};
use wscrpt::lsp_frame::{
    frame, output_ended, read_failed, stream_overflowed, write_client_command_json, FrameDecoder,
    FrameError,
};
use wscrpt::lsp_protocol::{
    parse_text_document_sync_capability, settle, text_position_params,
    workspace_symbol_provider_supported, LspPhase, ProtocolAction, ProtocolState,
};
use wscrpt::lsp_queue::{
    btree_queue_object_allocation_estimate, BudgetedQueue, ProtocolInput, QueueWeight, SendError,
    JSON_QUEUE_MEMORY_SAFETY_MULTIPLIER,
};
use wscrpt::lsp_types::{
    DocumentIncarnation, JsonRpcError, LspClientError, LspClientLimits, LspEvent, LspOperation,
    TextDocumentSyncCapability, DEFAULT_MAX_DOCUMENT_URI_BYTES, DEFAULT_MAX_MESSAGE_BYTES,
    DEFAULT_MAX_OPEN_DOCUMENTS, DEFAULT_MAX_QUEUED_EVENT_BYTES, DEFAULT_MAX_QUEUED_INPUT_BYTES,
    MAX_DOCUMENT_URI_BYTES, MAX_OPEN_DOCUMENTS, MAX_QUEUE_BYTES,
};

fn position(line: usize, character: usize) -> LspPosition {
    LspPosition::new(Line::new(line), Utf16Offset::new(character))
}

/// A session whose server is a function from one message to the replies.
struct Session {
    client: LspClient,
    state: ProtocolState,
    server: fn(&str) -> Vec<String>,
    sent: Vec<String>,
    answered: usize,
}

impl Session {
    fn start(server: fn(&str) -> Vec<String>) -> Self {
        let client = LspClient::new(LspClientLimits::default(), 7);
        let initialize = initialize_request(7, "0.1.0", None, None);
        let first = message_json(&initialize, client.limits.max_message_bytes).unwrap();
        Session { client, state: ProtocolState::new(), server, sent: vec![first], answered: 0 }
    }

    /// Carries out everything that is queued.
    fn run_queue(&mut self) {
        while let Some(input) = self.client.input.recv() {
            let max = self.client.limits.max_message_bytes;
            let plan = self.state.handle_protocol_input(input, &self.client.documents, max);
            for action in plan.actions {
                if let ProtocolAction::Send { json, .. } = &action {
                    self.sent.push(json.clone());
                }
                assert!(settle(
                    action,
                    Ok(()),
                    &mut self.client.phase,
                    &mut self.client.events
                ));
            }
            if !plan.keep_running {
                self.client.mark_stopped();
                return;
            }
        }
    }

    /// Lets the server answer what it was sent, until nothing is left to do.
    fn run(&mut self) {
        self.run_queue();
        while self.answered < self.sent.len() && !self.client.is_stopped() {
            let message = self.sent[self.answered].clone();
            self.answered += 1;
            for reply in (self.server)(&message) {
                self.client.input.try_send(ProtocolInput::ServerMessage(reply)).unwrap();
            }
            self.run_queue();
        }
    }

    fn events(&mut self) -> Vec<LspEvent> {
        let mut events = Vec::new();
        while let Some(event) = self.client.try_recv_event() {
            events.push(event);
        }
        events
    }
}

fn id_of(message: &str) -> u64 {
    JsonValue::parse(message).unwrap().get("id").and_then(JsonValue::as_u64).unwrap()
}

fn result(message: &str, result: &str) -> Vec<String> {
    vec![format!(r#"{{"jsonrpc":"2.0","id":{},"result":{result}}}"#, id_of(message))]
}

fn method_of(message: &str) -> String {
    JsonValue::parse(message)
        .unwrap()
        .get("method")
        .and_then(JsonValue::as_str)
        .unwrap_or("")
        .to_owned()
}

#[test]
fn queue_byte_limits_have_bounded_normalized_defaults() {
    let defaults = LspClientLimits::default();
    assert_eq!(
        defaults.max_queued_input_bytes,
        DEFAULT_MAX_QUEUED_INPUT_BYTES
    );
    assert_eq!(
        defaults.max_queued_event_bytes,
        DEFAULT_MAX_QUEUED_EVENT_BYTES
    );
    assert_eq!(defaults.max_open_documents, DEFAULT_MAX_OPEN_DOCUMENTS);
    assert_eq!(
        defaults.max_document_uri_bytes,
        DEFAULT_MAX_DOCUMENT_URI_BYTES
    );

    let low = LspClientLimits {
        max_queued_input_bytes: 0,
        max_queued_event_bytes: 1,
        max_open_documents: 0,
        max_document_uri_bytes: 0,
        ..defaults
    }
    .normalized();
    assert_eq!(low.max_queued_input_bytes, 1_024);
    assert_eq!(low.max_queued_event_bytes, 1_024);
    assert_eq!(low.max_open_documents, 1);
    assert_eq!(low.max_document_uri_bytes, 64);

    let high = LspClientLimits {
        max_queued_input_bytes: usize::MAX,
        max_queued_event_bytes: usize::MAX,
        max_open_documents: usize::MAX,
        max_document_uri_bytes: usize::MAX,
        ..defaults
    }
    .normalized();
    assert_eq!(high.max_queued_input_bytes, MAX_QUEUE_BYTES);
    assert_eq!(high.max_queued_event_bytes, MAX_QUEUE_BYTES);
    assert_eq!(high.max_open_documents, MAX_OPEN_DOCUMENTS);
    assert_eq!(high.max_document_uri_bytes, MAX_DOCUMENT_URI_BYTES);
}

#[test]
fn input_byte_budget_fills_before_count_and_releases_on_receive() {
    let make_message = || ProtocolInput::ServerMessage("x".repeat(512));
    let weight = make_message().queue_weight(MAX_QUEUE_BYTES);
    let mut queue = BudgetedQueue::new(8, weight * 2, 0);

    queue.try_send(make_message()).unwrap();
    queue.try_send(make_message()).unwrap();
    assert!(matches!(
        queue.try_send(make_message()),
        Err(SendError::Full(_))
    ));

    assert!(matches!(
        queue.recv().unwrap(),
        ProtocolInput::ServerMessage(message) if message.len() == 512
    ));
    queue.try_send(make_message()).unwrap();
}

#[test]
fn event_byte_budget_fills_before_count_and_releases_on_receive() {
    let make_event = || LspEvent::ServerNotification {
        method: "window/logMessage".to_owned(),
        params: Some(object(vec![("message", JsonValue::String("x".repeat(512)))])),
    };
    let weight = make_event().queue_weight(MAX_QUEUE_BYTES);
    let mut queue = BudgetedQueue::new(8, weight * 2, 0);

    queue.try_send(make_event()).unwrap();
    queue.try_send(make_event()).unwrap();
    assert!(matches!(
        queue.try_send(make_event()),
        Err(SendError::Full(_))
    ));

    assert!(matches!(
        queue.recv().unwrap(),
        LspEvent::ServerNotification { method, .. } if method == "window/logMessage"
    ));
    queue.try_send(make_event()).unwrap();
}

#[test]
fn nested_singleton_objects_charge_sparse_btree_nodes_and_hit_byte_budget() {
    let depth = 64_usize;
    let make_event = || LspEvent::WorkspaceSymbols {
        request_id: 9,
        result: (0..depth).fold(JsonValue::Null, |value, _| object(vec![("only", value)])),
    };
    let weight = make_event().queue_weight(MAX_QUEUE_BYTES);
    let sparse_node_floor = depth
        .saturating_mul(btree_queue_object_allocation_estimate(1))
        .saturating_mul(JSON_QUEUE_MEMORY_SAFETY_MULTIPLIER);
    assert!(weight >= sparse_node_floor);

    let eight_node_budget = 8_usize
        .saturating_mul(btree_queue_object_allocation_estimate(1))
        .saturating_mul(JSON_QUEUE_MEMORY_SAFETY_MULTIPLIER);
    assert_eq!(
        make_event().queue_weight(eight_node_budget),
        eight_node_budget + 1
    );

    let mut queue = BudgetedQueue::new(8, weight * 2, 0);
    queue.try_send(make_event()).unwrap();
    queue.try_send(make_event()).unwrap();
    assert!(matches!(
        queue.try_send(make_event()),
        Err(SendError::Full(_))
    ));
}

#[test]
fn public_event_retained_byte_estimate_matches_queue_accounting_without_consuming() {
    let payload = "z".repeat(4 * 1024);
    let payload_capacity = payload.capacity();
    let event = LspEvent::WorkspaceSymbols {
        request_id: 9,
        result: JsonValue::String(payload),
    };

    let estimated = event.estimated_retained_bytes();
    assert_eq!(estimated, event.queue_weight(MAX_QUEUE_BYTES));
    assert!(estimated <= MAX_QUEUE_BYTES.saturating_add(1));
    assert!(
        estimated
            >= std::mem::size_of::<LspEvent>()
                + payload_capacity.saturating_mul(JSON_QUEUE_MEMORY_SAFETY_MULTIPLIER)
    );
    assert!(matches!(
        &event,
        LspEvent::WorkspaceSymbols {
            request_id: 9,
            result: JsonValue::String(payload),
        } if payload.len() == 4 * 1024
    ));
}

#[test]
fn outbound_command_preflight_is_exact_at_the_byte_boundary_for_every_shape() {
    let commands = vec![
        ClientCommand::DidOpen {
            uri: "file:///a\"b.rs".to_owned(),
            language_id: "rust".to_owned(),
            version: DocumentVersion::new(1),
            incarnation: DocumentIncarnation::new(1),
            text: "line\n\u{1}\"\\🦀".to_owned(),
        },
        ClientCommand::DidChange {
            uri: "file:///a.rs".to_owned(),
            version: DocumentVersion::new(2),
            previous_end: None,
            text: "changed\r\n".to_owned(),
        },
        ClientCommand::DidChange {
            uri: "file:///incremental.rs".to_owned(),
            version: DocumentVersion::new(3),
            previous_end: Some(position(17, 29)),
            text: "replacement\n\u{1}\"\\🦀".to_owned(),
        },
        ClientCommand::DidSave {
            uri: "file:///a.rs".to_owned(),
            text: Some("saved\ttext".to_owned()),
        },
        ClientCommand::DidSave {
            uri: "file:///a.rs".to_owned(),
            text: None,
        },
        ClientCommand::DidClose {
            uri: "file:///a.rs".to_owned(),
        },
        ClientCommand::Request {
            request_id: u64::MAX,
            operation: LspOperation::WorkspaceSymbols,
            method: "workspace/symbol",
            scope: RequestScope::Workspace,
            params: object(vec![("query", JsonValue::text("q\n\"\\🦀"))]),
        },
        ClientCommand::CancelRequest {
            request_id: u64::MAX,
        },
        ClientCommand::Shutdown {
            request_id: u64::MAX,
        },
    ];

    for command in commands {
        let exact = client_command_json_len(&command, MAX_QUEUE_BYTES).unwrap();
        if let ClientCommand::DidOpen {
            uri,
            language_id,
            version,
            text,
            ..
        } = &command
        {
            assert_eq!(
                did_open_json_len(uri, language_id, *version, text, MAX_QUEUE_BYTES),
                Ok(exact)
            );
            assert_eq!(
                did_open_json_len(uri, language_id, *version, text, exact),
                Ok(exact)
            );
            assert_eq!(
                did_open_json_len(uri, language_id, *version, text, exact - 1),
                Err(())
            );
        }
        assert_eq!(client_command_json_len(&command, exact), Ok(exact));
        assert_eq!(client_command_json_len(&command, exact - 1), Err(()));

        let frame = write_client_command_json(&command, exact).unwrap();
        let frame = String::from_utf8(frame).unwrap();
        let (header, payload) = frame.split_once("\r\n\r\n").unwrap();
        assert_eq!(header, format!("Content-Length: {exact}"));
        assert_eq!(payload.len(), exact);
        JsonValue::parse(payload).unwrap();

        assert_eq!(
            write_client_command_json(&command, exact - 1).unwrap_err(),
            format!("outbound LSP message exceeds the {}-byte limit", exact - 1)
        );
    }
}

#[test]
fn workspace_symbol_capability_accepts_true_or_options_object_only() {
    assert!(workspace_symbol_provider_supported(&object(vec![(
        "workspaceSymbolProvider",
        JsonValue::Bool(true),
    )])));
    assert!(workspace_symbol_provider_supported(&object(vec![(
        "workspaceSymbolProvider",
        object(vec![("workDoneProgress", JsonValue::Bool(true))]),
    )])));
    assert!(!workspace_symbol_provider_supported(&object(vec![(
        "workspaceSymbolProvider",
        JsonValue::Bool(false),
    )])));
    assert!(!workspace_symbol_provider_supported(&object(vec![])));
    assert!(!workspace_symbol_provider_supported(&object(vec![(
        "workspaceSymbolProvider",
        JsonValue::Null,
    )])));
}

#[test]
fn text_document_sync_capability_normalizes_numeric_and_object_forms() {
    let normalized = |advertised| {
        parse_text_document_sync_capability(&object(vec![("textDocumentSync", advertised)]))
    };
    let unsupported = TextDocumentSyncCapability::default();

    assert_eq!(normalized(JsonValue::unsigned(0)), unsupported);
    assert_eq!(
        normalized(JsonValue::unsigned(1)),
        TextDocumentSyncCapability {
            open_close: true,
            full: true,
            incremental: false,
            save: false,
            save_include_text: false,
        }
    );
    assert_eq!(
        normalized(JsonValue::unsigned(2)),
        TextDocumentSyncCapability {
            open_close: true,
            full: false,
            incremental: true,
            save: false,
            save_include_text: false,
        }
    );
    assert_eq!(normalized(JsonValue::unsigned(3)), unsupported);
    assert_eq!(normalized(JsonValue::signed(-1)), unsupported);
    assert_eq!(
        normalized(object(vec![
            ("openClose", JsonValue::Bool(false)),
            ("change", JsonValue::unsigned(1)),
            ("save", JsonValue::Bool(false)),
        ])),
        TextDocumentSyncCapability {
            open_close: false,
            full: true,
            incremental: false,
            save: false,
            save_include_text: false,
        }
    );
    assert_eq!(
        normalized(object(vec![
            ("openClose", JsonValue::Bool(true)),
            ("change", JsonValue::unsigned(1)),
            ("save", object(vec![("includeText", JsonValue::Bool(true))])),
        ])),
        TextDocumentSyncCapability {
            open_close: true,
            full: true,
            incremental: false,
            save: true,
            save_include_text: true,
        }
    );
    assert_eq!(
        normalized(object(vec![
            ("openClose", JsonValue::Bool(true)),
            ("change", JsonValue::unsigned(2)),
            ("save", JsonValue::Bool(true)),
        ])),
        TextDocumentSyncCapability {
            open_close: true,
            full: false,
            incremental: true,
            save: true,
            save_include_text: false,
        }
    );
    assert_eq!(
        parse_text_document_sync_capability(&object(vec![])),
        unsupported
    );
    assert_eq!(
        normalized(object(vec![
            ("openClose", JsonValue::text("yes")),
            ("change", JsonValue::text("full")),
            ("save", JsonValue::Null),
        ])),
        unsupported
    );
}

#[test]
fn feature_request_params_use_utf16_positions() {
    let mut params = text_position_params(position(3, 7));
    if let JsonValue::Object(fields) = &mut params {
        fields.insert(
            "textDocument".to_owned(),
            object(vec![("uri", JsonValue::text("file:///a"))]),
        );
    }
    assert_eq!(
        params
            .get("position")
            .and_then(|position| position.get("line"))
            .and_then(JsonValue::as_u64),
        Some(3)
    );
    assert_eq!(
        params
            .get("position")
            .and_then(|position| position.get("character"))
            .and_then(JsonValue::as_u64),
        Some(7)
    );
}

fn plain_server(message: &str) -> Vec<String> {
    match method_of(message).as_str() {
        "initialize" => result(message, r#"{"capabilities":{}}"#),
        "shutdown" => result(message, "null"),
        _ => Vec::new(),
    }
}

#[test]
fn instant_shutdown_responses_never_regress_stopped_state() {
    for _ in 0..16 {
        let mut session = Session::start(plain_server);
        session.run();
        assert!(matches!(session.events()[..], [LspEvent::Ready { .. }]));
        session.client.shutdown().unwrap();
        session.run();
        assert!(matches!(session.events()[..], [LspEvent::ShutdownComplete]));
        assert!(session.client.is_stopped());
        assert_eq!(method_of(session.sent.last().unwrap()), "exit");
    }
}

#[test]
fn shutdown_during_initialize_waits_for_initialized_suppresses_ready_and_stops() {
    let mut session = Session::start(plain_server);
    session.client.shutdown().unwrap();
    session.run();
    let events = session.events();
    assert!(!events.iter().any(|event| matches!(event, LspEvent::Ready { .. })));
    assert!(events.iter().any(|event| matches!(event, LspEvent::ShutdownComplete)));
    assert!(session.client.is_stopped());
    let methods: Vec<String> = session.sent.iter().map(|message| method_of(message)).collect();
    assert_eq!(methods, ["initialize", "initialized", "shutdown", "exit"]);
}

#[test]
fn live_ready_event_normalizes_text_document_sync_options() {
    fn server(message: &str) -> Vec<String> {
        match method_of(message).as_str() {
            "initialize" => result(
                message,
                r#"{"capabilities":{"textDocumentSync":{"openClose":false,"change":1,"save":{"includeText":true}}}}"#,
            ),
            _ => plain_server(message),
        }
    }
    let mut session = Session::start(server);
    session.run();
    assert!(matches!(
        session.events()[..],
        [LspEvent::Ready {
            text_document_sync: TextDocumentSyncCapability {
                open_close: false,
                full: true,
                incremental: false,
                save: true,
                save_include_text: true,
            },
            ..
        }]
    ));
    session.client.shutdown().unwrap();
    session.run();
    assert!(matches!(session.events()[..], [LspEvent::ShutdownComplete]));
    assert!(session.client.is_stopped());
}

#[test]
fn live_workspace_symbols_need_no_open_document_and_correlate_errors_and_shutdown() {
    fn server(message: &str) -> Vec<String> {
        let query = JsonValue::parse(message)
            .unwrap()
            .get("params")
            .and_then(|params| params.get("query"))
            .and_then(JsonValue::as_str)
            .unwrap_or("")
            .to_owned();
        match (method_of(message).as_str(), query.as_str()) {
            ("initialize", _) => result(
                message,
                r#"{"capabilities":{"workspaceSymbolProvider":{"workDoneProgress":true}}}"#,
            ),
            ("workspace/symbol", "fail") => vec![format!(
                r#"{{"jsonrpc":"2.0","id":{},"error":{{"code":-32603,"message":"symbol failure"}}}}"#,
                id_of(message)
            )],
            ("workspace/symbol", "cancel") => Vec::new(),
            ("$/cancelRequest", _) => {
                let parsed = JsonValue::parse(message).unwrap();
                let id = parsed
                    .get("params")
                    .and_then(|params| params.get("id"))
                    .and_then(JsonValue::as_u64)
                    .unwrap();
                vec![format!(
                    r#"{{"jsonrpc":"2.0","id":{id},"error":{{"code":-32800,"message":"request cancelled"}}}}"#
                )]
            }
            ("workspace/symbol", _) => result(
                message,
                r#"[{"name":"Needle","kind":12,"location":{"uri":"file:///workspace/lib.rs","range":{"start":{"line":1,"character":2},"end":{"line":1,"character":8}}}}]"#,
            ),
            _ => plain_server(message),
        }
    }
    let mut session = Session::start(server);
    session.run();
    assert!(matches!(
        session.events()[..],
        [LspEvent::Ready { workspace_symbols: true, .. }]
    ));

    let uri = "file:///preflight.rs";
    let client = &mut session.client;
    let oversized_message = "x".repeat(DEFAULT_MAX_MESSAGE_BYTES);
    assert!(matches!(
        client.validate_did_open(uri, "rust", DocumentVersion::new(1), &oversized_message),
        Err(LspClientError::MessageTooLarge { max }) if max == DEFAULT_MAX_MESSAGE_BYTES
    ));
    assert!(matches!(
        client.current_document_state(uri),
        Err(LspClientError::DocumentNotOpen(not_open)) if not_open == uri
    ));
    assert!(matches!(
        client.did_open(
            uri.to_owned(),
            "rust".to_owned(),
            DocumentVersion::new(1),
            oversized_message,
        ),
        Err(LspClientError::MessageTooLarge { max }) if max == DEFAULT_MAX_MESSAGE_BYTES
    ));
    assert!(matches!(
        client.current_document_state(uri),
        Err(LspClientError::DocumentNotOpen(not_open)) if not_open == uri
    ));
    client
        .validate_did_open(uri, "rust", DocumentVersion::new(1), "fn live() {}\n")
        .unwrap();
    let first_incarnation = client
        .did_open(
            uri.to_owned(),
            "rust".to_owned(),
            DocumentVersion::new(1),
            "fn live() {}\n".to_owned(),
        )
        .unwrap();
    assert_eq!(first_incarnation.get(), 1);
    assert!(matches!(
        client.validate_did_open(uri, "rust", DocumentVersion::new(1), "fn live() {}\n"),
        Err(LspClientError::DocumentAlreadyOpen(open)) if open == uri
    ));
    assert!(matches!(
        client.did_change(
            uri.to_owned(),
            DocumentVersion::new(2),
            "x".repeat(DEFAULT_MAX_MESSAGE_BYTES),
        ),
        Err(LspClientError::MessageTooLarge { max }) if max == DEFAULT_MAX_MESSAGE_BYTES
    ));
    client
        .did_change(uri.to_owned(), DocumentVersion::new(2), "fn still_live() {}\n".to_owned())
        .unwrap();
    assert!(matches!(
        client.did_save(
            uri.to_owned(),
            DocumentVersion::new(2),
            Some("\u{1}".repeat(2 * 1024 * 1024)),
        ),
        Err(LspClientError::MessageTooLarge { max }) if max == DEFAULT_MAX_MESSAGE_BYTES
    ));
    client.did_save(uri.to_owned(), DocumentVersion::new(2), None).unwrap();
    client.did_close(uri.to_owned()).unwrap();
    let second_incarnation = client
        .did_open(
            uri.to_owned(),
            "rust".to_owned(),
            DocumentVersion::new(1),
            "fn reopened() {}\n".to_owned(),
        )
        .unwrap();
    assert!(second_incarnation > first_incarnation);
    assert_eq!(second_incarnation.get(), 2);
    client.did_close(uri.to_owned()).unwrap();

    client.next_document_incarnation = Some(DocumentIncarnation::new(u64::MAX));
    let final_incarnation = client
        .did_open(
            "file:///final-incarnation.rs".to_owned(),
            "rust".to_owned(),
            DocumentVersion::new(1),
            "fn final_open() {}\n".to_owned(),
        )
        .unwrap();
    assert_eq!(final_incarnation.get(), u64::MAX);
    client.did_close("file:///final-incarnation.rs".to_owned()).unwrap();
    assert!(matches!(
        client.validate_did_open(
            "file:///exhausted.rs",
            "rust",
            DocumentVersion::new(1),
            "fn exhausted() {}\n",
        ),
        Err(LspClientError::DocumentIncarnationExhausted)
    ));
    assert!(matches!(
        client.request_workspace_symbols("x".repeat(DEFAULT_MAX_MESSAGE_BYTES)),
        Err(LspClientError::MessageTooLarge { max }) if max == DEFAULT_MAX_MESSAGE_BYTES
    ));

    let success_id = client.request_workspace_symbols("needle".to_owned()).unwrap();
    session.run();
    assert!(matches!(
        &session.events()[..],
        [LspEvent::WorkspaceSymbols { request_id, result: JsonValue::Array(symbols) }]
            if *request_id == success_id && symbols.len() == 1
    ));

    let failure_id = session.client.request_workspace_symbols("fail".to_owned()).unwrap();
    session.run();
    assert!(matches!(
        &session.events()[..],
        [LspEvent::RequestFailed {
            request_id,
            operation: LspOperation::WorkspaceSymbols,
            error: JsonRpcError { code: -32603, .. },
        }] if *request_id == failure_id
    ));

    let cancelled_id = session.client.request_workspace_symbols("cancel".to_owned()).unwrap();
    session.client.cancel_request(cancelled_id).unwrap();
    session.run();
    assert!(matches!(
        &session.events()[..],
        [LspEvent::RequestFailed {
            request_id,
            operation: LspOperation::WorkspaceSymbols,
            error: JsonRpcError { code: -32800, .. },
        }] if *request_id == cancelled_id
    ));

    session.client.shutdown().unwrap();
    session.run();
    assert!(matches!(session.events()[..], [LspEvent::ShutdownComplete]));
    assert!(session.client.is_stopped());
}

#[test]
fn live_server_handshake_features_versions_and_shutdown() {
    fn server(message: &str) -> Vec<String> {
        match method_of(message).as_str() {
            "initialize" => result(message, r#"{"capabilities":{"hoverProvider":true}}"#),
            "textDocument/didOpen" => vec![
                r#"{"jsonrpc":"2.0","method":"textDocument/publishDiagnostics","params":{"uri":"file:///demo.rs","version":1,"diagnostics":[{"message":"demo"}]}}"#.to_owned(),
            ],
            "textDocument/completion" => result(message, r#"[{"label":"item"}]"#),
            "textDocument/hover" => result(message, r#"{"contents":"hover"}"#),
            "textDocument/definition" => result(message, "[]"),
            _ => plain_server(message),
        }
    }
    let mut session = Session::start(server);
    session.run();
    assert!(matches!(session.events()[..], [LspEvent::Ready { .. }]));

    let uri = "file:///demo.rs";
    session
        .client
        .did_open(
            uri.to_owned(),
            "rust".to_owned(),
            DocumentVersion::new(1),
            "fn main() {}\n".to_owned(),
        )
        .unwrap();
    session.run();
    assert!(matches!(
        &session.events()[..],
        [LspEvent::Diagnostics { diagnostics, .. }] if diagnostics.len() == 1
    ));

    let stale_id = session
        .client
        .request_completion(uri.to_owned(), DocumentVersion::new(1), position(0, 2))
        .unwrap();
    session
        .client
        .did_change(
            uri.to_owned(),
            DocumentVersion::new(2),
            "fn main() { let x = 1; }\n".to_owned(),
        )
        .unwrap();
    assert!(matches!(
        session.client.did_change(uri.to_owned(), DocumentVersion::new(1), "old".to_owned()),
        Err(LspClientError::StaleDocumentVersion { .. })
    ));
    session.run();
    assert!(matches!(
        &session.events()[..],
        [LspEvent::StaleResponse { request_id, .. }] if *request_id == stale_id
    ));

    let version = DocumentVersion::new(2);
    let completion =
        session.client.request_completion(uri.to_owned(), version, position(0, 4)).unwrap();
    let hover = session.client.request_hover(uri.to_owned(), version, position(0, 4)).unwrap();
    let definition =
        session.client.request_definition(uri.to_owned(), version, position(0, 4)).unwrap();
    session.run();
    let mut seen = Vec::new();
    for event in session.events() {
        match event {
            LspEvent::Completion { request_id, .. }
            | LspEvent::Hover { request_id, .. }
            | LspEvent::Definition { request_id, .. } => seen.push(request_id),
            other => panic!("unexpected {other:?}"),
        }
    }
    seen.sort_unstable();
    assert_eq!(seen, vec![completion, hover, definition]);

    session.client.did_save(uri.to_owned(), version, None).unwrap();
    session.client.shutdown().unwrap();
    session.run();
    assert!(matches!(session.events()[..], [LspEvent::ShutdownComplete]));
    assert!(session.client.is_stopped());
}

#[test]
fn a_client_that_is_not_ready_takes_no_commands() {
    let mut client = LspClient::new(LspClientLimits::default(), 1);
    let version = DocumentVersion::new(1);
    let uri = "file:///a.rs".to_owned();
    assert_eq!(client.did_close(uri.clone()), Err(LspClientError::NotReady));
    client.phase = LspPhase::ShuttingDown;
    assert_eq!(client.did_close(uri.clone()), Err(LspClientError::ShuttingDown));
    client.mark_stopped();
    assert_eq!(client.did_close(uri.clone()), Err(LspClientError::Stopped));
    assert_eq!(client.shutdown(), Err(LspClientError::Stopped));
    client.phase = LspPhase::Ready;
    assert_eq!(
        client.did_save(uri.clone(), version, None),
        Err(LspClientError::DocumentNotOpen(uri.clone()))
    );
    assert_eq!(
        client.request_hover(uri.clone(), version, position(0, 0)),
        Err(LspClientError::DocumentNotOpen(uri))
    );
    assert_eq!(LspClientError::NotReady.describe(), "language server has not initialized");
}

#[test]
fn configurations_without_a_program_or_directory_are_refused() {
    let config = LspServerConfig::new(Vec::new(), b"/work".to_vec());
    assert!(matches!(config.validate(true), Err(LspClientError::InvalidConfig(_))));
    let config = LspServerConfig::new(vec![b"server".to_vec()], b"/work".to_vec());
    assert!(matches!(config.validate(false), Err(LspClientError::InvalidConfig(_))));
    assert_eq!(config.validate(true), Ok(()));
}

#[test]
fn frames_are_decoded_however_they_are_cut() {
    let first = frame("{\"a\":\"é\"}");
    assert_eq!(first, "Content-Length: 10\r\n\r\n{\"a\":\"é\"}".as_bytes());
    let mut stream = first.clone();
    stream.extend_from_slice(b"X-Other: 1\r\ncontent-length:\t2 \r\n\r\n[]");
    for size in 1..stream.len() {
        let mut decoder = FrameDecoder::with_limits(64, 64);
        let mut messages = Vec::new();
        for chunk in stream.chunks(size) {
            messages.extend(decoder.push(chunk).unwrap());
        }
        assert_eq!(messages, ["{\"a\":\"é\"}", "[]"]);
        assert_eq!(decoder.pending_bytes(), 0);
    }
    let mut decoder = FrameDecoder::with_limits(64, 64);
    assert_eq!(decoder.push(b"Content-Len").unwrap(), Vec::<String>::new());
    assert_eq!(decoder.pending_bytes(), 11);
}

#[test]
fn malformed_frames_are_refused() {
    for (bytes, error) in [
        (&b"Content-Length 2\r\n\r\n[]"[..], FrameError::InvalidHeader),
        (b"Content-Length: x\r\n\r\n[]", FrameError::InvalidHeader),
        (b"Content-Length: 2\r\nContent-Length: 2\r\n\r\n[]", FrameError::InvalidHeader),
        (b"X: 2\r\n\r\n[]", FrameError::MissingContentLength),
        (b"Content-Length: 99\r\n\r\n", FrameError::MessageTooLarge),
        (b"Content-Length: 2\r\n\r\n\xff\xfe", FrameError::InvalidUtf8),
        (b"a header that goes on and on without any end, beyond all limits", FrameError::HeaderTooLarge),
    ] {
        let mut decoder = FrameDecoder::with_limits(48, 64);
        assert_eq!(decoder.push(bytes), Err(error));
    }
    assert_eq!(FrameError::InvalidUtf8.describe(), "LSP message is not valid UTF-8");
}

#[test]
fn reader_endings_are_put_into_words() {
    assert!(matches!(output_ended(0), ProtocolInput::ServerClosed));
    assert!(matches!(
        output_ended(3),
        ProtocolInput::TransportError(words)
            if words == "language-server stdout ended with 3 bytes of a partial frame"
    ));
    assert!(matches!(
        read_failed("stderr", "gone"),
        ProtocolInput::TransportError(words)
            if words == "language-server stderr read failed: gone"
    ));
    assert!(matches!(
        stream_overflowed("stdout"),
        ProtocolInput::TransportError(words)
            if words == "language-server stdout exceeded the shared input queue limit"
    ));
}

#[test]
fn live_incremental_change_replaces_previous_document_range_and_preserves_state_on_rejection() {
    fn server(message: &str) -> Vec<String> {
        match method_of(message).as_str() {
            "initialize" => result(message, r#"{"capabilities":{"textDocumentSync":2}}"#),
            _ => plain_server(message),
        }
    }
    let mut session = Session::start(server);
    session.run();
    assert!(matches!(
        session.events()[..],
        [LspEvent::Ready {
            text_document_sync: TextDocumentSyncCapability {
                open_close: true,
                full: false,
                incremental: true,
                save: false,
                save_include_text: false,
            },
            ..
        }]
    ));

    let uri = "file:///incremental.rs".to_owned();
    let client = &mut session.client;
    client
        .did_open(
            uri.clone(),
            "rust".to_owned(),
            DocumentVersion::new(1),
            "old\n🦀".to_owned(),
        )
        .unwrap();
    let invalid_end = position(i32::MAX as usize + 1, 0);
    assert!(matches!(
        client.did_change_full_document_replacement(
            uri.clone(),
            DocumentVersion::new(2),
            invalid_end,
            "must not advance".to_owned(),
        ),
        Err(LspClientError::PositionOutOfRange(position)) if position == invalid_end
    ));
    client
        .did_change_full_document_replacement(
            uri.clone(),
            DocumentVersion::new(2),
            position(1, 2),
            "new\n🦀".to_owned(),
        )
        .unwrap();
    client.did_close(uri).unwrap();
    client.shutdown().unwrap();
    session.run();
    assert!(matches!(session.events()[..], [LspEvent::ShutdownComplete]));
    assert!(session.client.is_stopped());

    let expected = "{\"jsonrpc\":\"2.0\",\"method\":\"textDocument/didChange\",\
        \"params\":{\"textDocument\":{\"uri\":\"file:///incremental.rs\",\
        \"version\":2},\"contentChanges\":[{\"range\":{\"start\":{\"line\":0,\
        \"character\":0},\"end\":{\"line\":1,\"character\":2}},\
        \"text\":\"new\\n🦀\"}]}}";
    assert!(session.sent.iter().any(|line| line == expected), "sent: {:?}", session.sent);
}

#[test]
fn live_open_document_and_uri_bounds_reject_before_maps_and_reuse_closed_slot() {
    let limits = LspClientLimits {
        max_open_documents: 2,
        max_document_uri_bytes: 64,
        ..LspClientLimits::default()
    };
    let mut session = Session::start(plain_server);
    session.client = LspClient::new(limits, 7);
    session.run();
    assert!(matches!(session.events()[..], [LspEvent::Ready { .. }]));

    fn open(
        client: &mut LspClient,
        uri: &str,
        text: &str,
    ) -> Result<DocumentIncarnation, LspClientError> {
        client.did_open(uri.to_owned(), "rust".to_owned(), DocumentVersion::new(1), text.to_owned())
    }

    let client = &mut session.client;
    let oversized_uri = format!("file:///{}", "x".repeat(64));
    assert!(matches!(
        open(client, &oversized_uri, "oversized"),
        Err(LspClientError::DocumentUriTooLarge { bytes, max }) if bytes == 72 && max == 64
    ));
    assert!(matches!(
        client.current_document_state(&oversized_uri),
        Err(LspClientError::DocumentNotOpen(_))
    ));

    let first_uri = "file:///first.rs";
    let second_uri = "file:///second.rs";
    let third_uri = "file:///third.rs";
    let first_incarnation = open(client, first_uri, "first").unwrap();
    let second_incarnation = open(client, second_uri, "second").unwrap();
    assert_eq!(first_incarnation.get(), 1);
    assert_eq!(second_incarnation.get(), 2);
    assert!(matches!(
        client.validate_did_open(third_uri, "rust", DocumentVersion::new(1), "third"),
        Err(LspClientError::OpenDocumentLimitReached { max: 2 })
    ));
    assert!(matches!(
        open(client, third_uri, "third"),
        Err(LspClientError::OpenDocumentLimitReached { max: 2 })
    ));
    assert!(matches!(
        open(client, first_uri, "duplicate"),
        Err(LspClientError::DocumentAlreadyOpen(uri)) if uri == first_uri
    ));

    client.did_close(first_uri.to_owned()).unwrap();
    let third_incarnation = open(client, third_uri, "third").unwrap();
    assert_eq!(third_incarnation.get(), 3);
    assert!(client.current_document_state(first_uri).is_err());
    assert_eq!(client.current_document_state(second_uri).unwrap().incarnation.get(), 2);
    assert_eq!(client.current_document_state(third_uri).unwrap().incarnation.get(), 3);
    client.did_close(second_uri.to_owned()).unwrap();
    client.did_close(third_uri.to_owned()).unwrap();
    assert!(client.current_document_state(third_uri).is_err());
    client.shutdown().unwrap();
    session.run();
    assert!(matches!(session.events()[..], [LspEvent::ShutdownComplete]));
    assert!(session.client.is_stopped());

    let document_messages: Vec<&String> = session
        .sent
        .iter()
        .filter(|line| {
            line.contains("\"method\":\"textDocument/didOpen\"")
                || line.contains("\"method\":\"textDocument/didClose\"")
        })
        .collect();
    assert_eq!(document_messages.len(), 6, "sent: {:?}", session.sent);
    assert!(document_messages[0].contains(first_uri));
    assert!(document_messages[1].contains(second_uri));
    assert!(document_messages[2].contains(first_uri));
    assert!(document_messages[3].contains(third_uri));
    assert!(document_messages[4].contains(second_uri));
    assert!(document_messages[5].contains(third_uri));
}

#[test]
fn configurations_are_built_step_by_step() {
    let options = object(vec![("check", JsonValue::Bool(true))]);
    let config = LspServerConfig::new(vec![b"server".to_vec()], b"/work".to_vec())
        .with_initialization_options(options.clone())
        .with_shutdown_timeout(5_000);
    assert_eq!(config.root_uri.as_deref(), Some("file:///work"));
    assert_eq!(config.initialization_options, Some(options));
    assert_eq!(config.shutdown_timeout_millis, 1_000);
    assert_eq!(config.limits, LspClientLimits::default());
}

#[test]
fn requests_about_a_document_name_it() {
    let mut session = Session::start(plain_server);
    session.run();
    assert!(session.client.is_ready());
    session.events();
    let uri = "file:///demo.rs".to_owned();
    let version = DocumentVersion::new(1);
    let client = &mut session.client;
    client.did_open(uri.clone(), "rust".to_owned(), version, "fn a() {}".to_owned()).unwrap();
    client.request_references(uri.clone(), version, position(0, 3), true).unwrap();
    client.request_document_symbols(uri.clone(), version).unwrap();
    client.request_formatting(uri, version, 4, true).unwrap();
    session.run();
    let sent = &session.sent[session.sent.len() - 3..];
    assert_eq!(
        sent[0],
        "{\"jsonrpc\":\"2.0\",\"id\":2,\"method\":\"textDocument/references\",\"params\":\
         {\"context\":{\"includeDeclaration\":true},\"position\":{\"character\":3,\"line\":0},\
         \"textDocument\":{\"uri\":\"file:///demo.rs\"}}}"
    );
    assert_eq!(
        sent[1],
        "{\"jsonrpc\":\"2.0\",\"id\":3,\"method\":\"textDocument/documentSymbol\",\"params\":\
         {\"textDocument\":{\"uri\":\"file:///demo.rs\"}}}"
    );
    assert_eq!(
        sent[2],
        "{\"jsonrpc\":\"2.0\",\"id\":4,\"method\":\"textDocument/formatting\",\"params\":\
         {\"options\":{\"insertSpaces\":true,\"tabSize\":4},\
         \"textDocument\":{\"uri\":\"file:///demo.rs\"}}}"
    );
}

#[test]
fn the_address_of_a_root_follows_it() {
    let uri = |text: &str| Some(text.to_owned());
    assert_eq!(root_uri_after(uri("file:///a"), "file:///a", "file:///b"), uri("file:///b"));
    assert_eq!(root_uri_after(uri("file:///c"), "file:///a", "file:///b"), uri("file:///c"));
    assert_eq!(root_uri_after(None, "file:///a", "file:///b"), None);
}
