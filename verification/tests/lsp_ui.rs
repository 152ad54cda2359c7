use wscrpt::file_uri::{file_uri, file_uri_to_path};
use wscrpt::json::JsonValue;
use wscrpt::lsp::{Line, LspPosition, Utf16Offset};
use wscrpt::lsp_edits::{apply_text_edits, TextEdit};
use wscrpt::lsp_types::LspRange;
use wscrpt::lsp_ui::{
    diagnostic_char_range, diagnostic_raw_within_bounds, parse_completion, parse_diagnostics,
    parse_document_symbols, parse_locations, parse_range, parse_text_edits,
    parse_workspace_symbol_kind, parse_workspace_symbols, render_hover, DiagnosticSeverity,
    WorkspaceSymbolKind, WorkspaceSymbolReport, MAX_DIAGNOSTICS_INSPECTED,
    MAX_DIAGNOSTICS_RETAINED, MAX_DIAGNOSTIC_MESSAGE_BYTES, MAX_DIAGNOSTIC_RAW_BYTES,
    MAX_DIAGNOSTIC_RAW_DEPTH, MAX_DIAGNOSTIC_RAW_NODES, MAX_DIAGNOSTIC_SOURCE_BYTES,
    MAX_DIAGNOSTIC_URI_BYTES, MAX_WORKSPACE_SYMBOLS, MAX_WORKSPACE_SYMBOL_URI_BYTES,
};

fn json(source: &str) -> JsonValue {
    JsonValue::parse(source).unwrap()
}

fn diagnostic_value(
    message: impl Into<String>,
    source: Option<String>,
    data: Option<JsonValue>,
) -> JsonValue {
    let JsonValue::Object(mut diagnostic) = json(
        r#"{
            "range":{"start":{"line":0,"character":1},"end":{"line":0,"character":3}},
            "severity":1,
            "message":"placeholder"
        }"#,
    ) else {
        unreachable!()
    };
    diagnostic.insert("message".to_owned(), JsonValue::String(message.into()));
    if let Some(source) = source {
        diagnostic.insert("source".to_owned(), JsonValue::String(source));
    }
    if let Some(data) = data {
        diagnostic.insert("data".to_owned(), data);
    }
    JsonValue::Object(diagnostic)
}

#[test]
fn file_uri_round_trips_distinct_non_utf8_unix_basenames() {
    let first = b"/tmp/non-utf8-\x80.rs".to_vec();
    let second = b"/tmp/non-utf8-\x81.rs".to_vec();
    let first_uri = file_uri(&first);
    let second_uri = file_uri(&second);

    assert_ne!(first, second);
    assert_ne!(first_uri, second_uri);
    assert!(first_uri.ends_with("non-utf8-%80.rs"));
    assert!(second_uri.ends_with("non-utf8-%81.rs"));
    assert_eq!(file_uri_to_path(&first_uri).unwrap(), first);
    assert_eq!(file_uri_to_path(&second_uri).unwrap(), second);
}

#[test]
fn file_uri_decoder_rejects_remote_hosts_bad_escapes_nul_and_controls() {
    for invalid_uri in [
        "https://example.test/a.rs",
        "file://remote/tmp/a.rs",
        "file:///tmp/truncated%",
        "file:///tmp/truncated%0",
        "file:///tmp/invalid%QQ.rs",
        "file:///tmp/raw\0.rs",
        "file:///tmp/encoded%00.rs",
        "file:///tmp/raw\u{1b}.rs",
        "file:///tmp/encoded%1B.rs",
        "file:///tmp/encoded%7F.rs",
        "file:///tmp/unicode%C2%85.rs",
    ] {
        assert!(file_uri_to_path(invalid_uri).is_err(), "{invalid_uri:?}");
    }
}

#[test]
fn file_uri_decoder_rejects_raw_query_and_fragment_but_preserves_encoded_bytes() {
    for invalid_uri in [
        "file:///tmp/name.rs?query",
        "file:///tmp/name.rs#fragment",
        "file://LOCALHOST/tmp/name?query#fragment",
    ] {
        assert!(file_uri_to_path(invalid_uri).is_err(), "{invalid_uri:?}");
    }

    assert_eq!(
        file_uri_to_path("file:///tmp/name%3Fquery%23fragment.rs").unwrap(),
        b"/tmp/name?query#fragment.rs".to_vec()
    );
    assert_eq!(
        file_uri_to_path("file://LOCALHOST/tmp/name%3fquery%23fragment.rs").unwrap(),
        b"/tmp/name?query#fragment.rs".to_vec()
    );
}

#[test]
fn file_uri_decoder_round_trips_ascii_case_insensitive_schemes() {
    for uri in [
        "FILE:///tmp/mixed%20scheme.rs",
        "FiLe://LOCALHOST/tmp/mixed%20scheme.rs",
        "fIlE://localhost/tmp/mixed%20scheme.rs",
    ] {
        let path = file_uri_to_path(uri).unwrap();
        assert_eq!(path, b"/tmp/mixed scheme.rs".to_vec());
        assert_eq!(file_uri(&path), "file:///tmp/mixed%20scheme.rs");
    }

    for invalid_uri in [
        "HTTPS:///tmp/a.rs",
        "FILE://remote/tmp/a.rs",
        "FiLe:///tmp/a.rs?query",
        "fIlE:///tmp/a.rs#fragment",
        "FILE:///tmp/a%1B.rs",
    ] {
        assert!(file_uri_to_path(invalid_uri).is_err(), "{invalid_uri:?}");
    }
}

#[test]
fn parses_diagnostics_and_unicode_ranges() {
    let values = match json(
        r#"[{"range":{"start":{"line":0,"character":1},"end":{"line":0,"character":3}},"severity":1,"source":"rustc","message":"bad"}]"#,
    ) {
        JsonValue::Array(values) => values,
        _ => unreachable!(),
    };
    let report = parse_diagnostics("file:///tmp/a.rs", &values);
    assert_eq!(report.inspected, 1);
    assert!(!report.truncated);
    assert_eq!(report.skipped_invalid, 0);
    assert_eq!(report.fields_truncated, 0);
    assert_eq!(report.raw_omitted, 0);
    assert_eq!(report.diagnostics[0].severity, DiagnosticSeverity::Error);
    assert_eq!(report.diagnostics[0].message, "bad");
    // UTF-16 column 3 is after the two-code-unit emoji.
    assert_eq!(
        diagnostic_char_range("a🪶b", &report.diagnostics[0]),
        Some(1..2)
    );
}

#[test]
fn diagnostics_bound_inspection_retention_and_invalid_counts() {
    let valid = diagnostic_value("valid", Some("test".to_owned()), None);

    let exact = parse_diagnostics(
        "file:///tmp/a.rs",
        &vec![valid.clone(); MAX_DIAGNOSTICS_RETAINED],
    );
    assert_eq!(exact.inspected, MAX_DIAGNOSTICS_RETAINED);
    assert_eq!(exact.diagnostics.len(), MAX_DIAGNOSTICS_RETAINED);
    assert!(!exact.truncated);
    assert_eq!(exact.skipped_invalid, 0);

    let retained_overflow = parse_diagnostics(
        "file:///tmp/a.rs",
        &vec![valid; MAX_DIAGNOSTICS_RETAINED + 1],
    );
    assert_eq!(retained_overflow.inspected, MAX_DIAGNOSTICS_RETAINED + 1);
    assert_eq!(
        retained_overflow.diagnostics.len(),
        MAX_DIAGNOSTICS_RETAINED
    );
    assert!(retained_overflow.truncated);
    assert_eq!(retained_overflow.skipped_invalid, 0);

    let inspection_overflow = parse_diagnostics(
        "file:///tmp/a.rs",
        &vec![JsonValue::Null; MAX_DIAGNOSTICS_INSPECTED + 1],
    );
    assert_eq!(inspection_overflow.inspected, MAX_DIAGNOSTICS_INSPECTED);
    assert!(inspection_overflow.truncated);
    assert_eq!(
        inspection_overflow.skipped_invalid,
        MAX_DIAGNOSTICS_INSPECTED
    );
    assert!(inspection_overflow.diagnostics.is_empty());
}

#[test]
fn diagnostics_reject_malformed_entries_but_preserve_severity_defaults() {
    let malformed = [
        JsonValue::Null,
        json(r#"{}"#),
        json(r#"{"message":"missing range"}"#),
        json(
            r#"{"range":{"start":{"line":0,"character":0},"end":{"line":0,"character":0}},"message":4}"#,
        ),
        json(
            r#"{"range":{"start":{"line":2147483648,"character":0},"end":{"line":2147483648,"character":0}},"message":"bad position"}"#,
        ),
    ];
    let mut unknown = diagnostic_value("unknown", None, None);
    let JsonValue::Object(fields) = &mut unknown else {
        unreachable!()
    };
    fields.insert("severity".to_owned(), JsonValue::signed(99));
    fields.insert("source".to_owned(), JsonValue::Null);
    let mut defaulted = diagnostic_value("defaulted", None, None);
    let JsonValue::Object(fields) = &mut defaulted else {
        unreachable!()
    };
    fields.remove("severity");

    let mut values = malformed.to_vec();
    values.extend([unknown, defaulted]);
    let report = parse_diagnostics("file:///tmp/a.rs", &values);
    assert_eq!(report.inspected, 7);
    assert_eq!(report.skipped_invalid, 5);
    assert_eq!(report.diagnostics.len(), 2);
    assert_eq!(
        report.diagnostics[0].severity,
        DiagnosticSeverity::Unknown(99)
    );
    assert_eq!(report.diagnostics[0].source, None);
    assert_eq!(
        report.diagnostics[1].severity,
        DiagnosticSeverity::Information
    );
}

#[test]
fn diagnostics_reject_inverted_ranges() {
    let values = [
        json(
            r#"{"range":{"start":{"line":2,"character":4},"end":{"line":2,"character":3}},"message":"same-line inverted"}"#,
        ),
        json(
            r#"{"range":{"start":{"line":3,"character":0},"end":{"line":2,"character":99}},"message":"cross-line inverted"}"#,
        ),
        json(
            r#"{"range":{"start":{"line":2,"character":4},"end":{"line":2,"character":4}},"message":"empty but valid"}"#,
        ),
    ];

    let report = parse_diagnostics("file:///tmp/a.rs", &values);
    assert_eq!(report.inspected, 3);
    assert_eq!(report.skipped_invalid, 2);
    assert_eq!(report.diagnostics.len(), 1);
    assert_eq!(report.diagnostics[0].message, "empty but valid");
}

#[test]
fn diagnostic_publication_uri_is_file_control_and_size_bounded() {
    let value = diagnostic_value("valid", None, None);
    let exact_uri = format!(
        "file:///{}",
        "a".repeat(MAX_DIAGNOSTIC_URI_BYTES - "file:///".len())
    );
    assert_eq!(exact_uri.len(), MAX_DIAGNOSTIC_URI_BYTES);
    assert_eq!(
        parse_diagnostics(&exact_uri, std::slice::from_ref(&value))
            .diagnostics
            .len(),
        1
    );

    for invalid_uri in [
        format!("{exact_uri}x"),
        "https://example.test/a.rs".to_owned(),
        "file://remote/tmp/a.rs".to_owned(),
        "file:///tmp/%QQ.rs".to_owned(),
        "file:///tmp/raw\u{1b}.rs".to_owned(),
        "file:///tmp/encoded%1B.rs".to_owned(),
    ] {
        let report = parse_diagnostics(&invalid_uri, std::slice::from_ref(&value));
        assert_eq!(report.inspected, 1, "{invalid_uri:?}");
        assert_eq!(report.skipped_invalid, 1, "{invalid_uri:?}");
        assert!(report.diagnostics.is_empty(), "{invalid_uri:?}");
    }
}

#[test]
fn diagnostic_fields_clip_at_utf8_boundaries_and_accept_exact_limits() {
    let exact_message = format!("{}🪶", "m".repeat(MAX_DIAGNOSTIC_MESSAGE_BYTES - 4));
    let exact_source = format!("{}é", "s".repeat(MAX_DIAGNOSTIC_SOURCE_BYTES - 2));
    let exact = parse_diagnostics(
        "file:///tmp/a.rs",
        &[diagnostic_value(
            exact_message.clone(),
            Some(exact_source.clone()),
            None,
        )],
    );
    assert_eq!(exact.fields_truncated, 0);
    assert_eq!(exact.diagnostics[0].message, exact_message);
    assert_eq!(
        exact.diagnostics[0].source.as_deref(),
        Some(exact_source.as_str())
    );

    let long_message = format!(
        "{}🪶discarded",
        "m".repeat(MAX_DIAGNOSTIC_MESSAGE_BYTES - 1)
    );
    let long_source = format!("{}édiscarded", "s".repeat(MAX_DIAGNOSTIC_SOURCE_BYTES - 1));
    let clipped = parse_diagnostics(
        "file:///tmp/a.rs",
        &[diagnostic_value(long_message, Some(long_source), None)],
    );
    assert_eq!(clipped.fields_truncated, 2);
    assert_eq!(
        clipped.diagnostics[0].message,
        "m".repeat(MAX_DIAGNOSTIC_MESSAGE_BYTES - 1)
    );
    assert_eq!(
        clipped.diagnostics[0].source.as_deref(),
        Some("s".repeat(MAX_DIAGNOSTIC_SOURCE_BYTES - 1).as_str())
    );
}

#[test]
fn diagnostic_raw_json_is_byte_node_and_depth_bounded_without_serializing() {
    let exact_bytes = JsonValue::String("x".repeat(MAX_DIAGNOSTIC_RAW_BYTES - 2));
    let oversized_bytes = JsonValue::String("x".repeat(MAX_DIAGNOSTIC_RAW_BYTES - 1));
    assert!(diagnostic_raw_within_bounds(&exact_bytes));
    assert!(!diagnostic_raw_within_bounds(&oversized_bytes));
    let exact_escaped = JsonValue::String("\"".repeat((MAX_DIAGNOSTIC_RAW_BYTES - 2) / 2));
    assert!(diagnostic_raw_within_bounds(&exact_escaped));

    let exact_nodes = JsonValue::Array(vec![
        JsonValue::Array(Vec::new());
        MAX_DIAGNOSTIC_RAW_NODES - 1
    ]);
    let excessive_nodes =
        JsonValue::Array(vec![JsonValue::Array(Vec::new()); MAX_DIAGNOSTIC_RAW_NODES]);
    assert!(diagnostic_raw_within_bounds(&exact_nodes));
    assert!(!diagnostic_raw_within_bounds(&excessive_nodes));

    let mut exact_depth = JsonValue::Null;
    for _ in 1..MAX_DIAGNOSTIC_RAW_DEPTH {
        exact_depth = JsonValue::Array(vec![exact_depth]);
    }
    assert!(diagnostic_raw_within_bounds(&exact_depth));
    let excessive_depth = JsonValue::Array(vec![exact_depth]);
    assert!(!diagnostic_raw_within_bounds(&excessive_depth));

    let report = parse_diagnostics(
        "file:///tmp/a.rs",
        &[diagnostic_value(
            "bounded message",
            None,
            Some(JsonValue::String("x".repeat(MAX_DIAGNOSTIC_RAW_BYTES))),
        )],
    );
    assert_eq!(report.raw_omitted, 1);
    assert_eq!(report.diagnostics[0].raw, JsonValue::Null);
}

#[test]
fn applies_multiple_unicode_edits_from_the_end() {
    let edits = vec![
        TextEdit {
            range: parse_range(&json(
                r#"{"start":{"line":0,"character":1},"end":{"line":0,"character":3}}"#,
            ))
            .unwrap(),
            new_text: "bird".to_owned(),
        },
        TextEdit {
            range: parse_range(&json(
                r#"{"start":{"line":0,"character":4},"end":{"line":0,"character":5}}"#,
            ))
            .unwrap(),
            new_text: "!".to_owned(),
        },
    ];
    assert_eq!(apply_text_edits("a🪶bc", &edits).unwrap(), "abirdb!");
}

#[test]
fn rejects_overlapping_and_out_of_bounds_edits() {
    let range = parse_range(&json(
        r#"{"start":{"line":0,"character":0},"end":{"line":0,"character":1}}"#,
    ))
    .unwrap();
    let edits = vec![
        TextEdit {
            range,
            new_text: "x".to_owned(),
        },
        TextEdit {
            range,
            new_text: "y".to_owned(),
        },
    ];
    assert!(apply_text_edits("ab", &edits).is_err());
    let out_of_bounds = TextEdit {
        range: parse_range(&json(
            r#"{"start":{"line":99,"character":0},"end":{"line":99,"character":1}}"#,
        ))
        .unwrap(),
        new_text: "x".to_owned(),
    };
    assert!(apply_text_edits("ab", &[out_of_bounds]).is_err());
}
#[test]
fn parses_symbol_information_and_range_bearing_workspace_symbols() {
    let report = parse_workspace_symbols(&json(
        r#"[
            {
                "name": "LegacyThing",
                "kind": 5,
                "deprecated": false,
                "containerName": "legacy::module",
                "location": {
                    "uri": "file:///tmp/legacy.rs",
                    "range": {
                        "start": {"line": 3, "character": 4},
                        "end": {"line": 3, "character": 15}
                    }
                }
            },
            {
                "name": "modern_thing",
                "kind": 12,
                "tags": [1],
                "containerName": "modern",
                "location": {
                    "uri": "file:///tmp/modern.rs",
                    "range": {
                        "start": {"line": 8, "character": 2},
                        "end": {"line": 9, "character": 0}
                    }
                },
                "data": {"serverToken": 17}
            }
        ]"#,
    ));

    assert!(!report.truncated);
    assert_eq!(report.skipped_invalid, 0);
    assert_eq!(report.symbols.len(), 2);
    assert_eq!(report.symbols[0].name, "LegacyThing");
    assert_eq!(
        report.symbols[0].container_name.as_deref(),
        Some("legacy::module")
    );
    assert_eq!(report.symbols[0].kind, WorkspaceSymbolKind::Class);
    assert_eq!(report.symbols[0].kind.label(), "Class");
    assert_eq!(report.symbols[0].location.range.start.line.get(), 3);
    assert_eq!(report.symbols[1].name, "modern_thing");
    assert_eq!(report.symbols[1].kind, WorkspaceSymbolKind::Function);
    assert_eq!(report.symbols[1].location.range.end.line.get(), 9);
}

#[test]
fn workspace_symbols_map_every_standard_kind_and_preserve_unknown_values() {
    let expected = [
        (WorkspaceSymbolKind::File, "File"),
        (WorkspaceSymbolKind::Module, "Module"),
        (WorkspaceSymbolKind::Namespace, "Namespace"),
        (WorkspaceSymbolKind::Package, "Package"),
        (WorkspaceSymbolKind::Class, "Class"),
        (WorkspaceSymbolKind::Method, "Method"),
        (WorkspaceSymbolKind::Property, "Property"),
        (WorkspaceSymbolKind::Field, "Field"),
        (WorkspaceSymbolKind::Constructor, "Constructor"),
        (WorkspaceSymbolKind::Enum, "Enum"),
        (WorkspaceSymbolKind::Interface, "Interface"),
        (WorkspaceSymbolKind::Function, "Function"),
        (WorkspaceSymbolKind::Variable, "Variable"),
        (WorkspaceSymbolKind::Constant, "Constant"),
        (WorkspaceSymbolKind::String, "String"),
        (WorkspaceSymbolKind::Number, "Number"),
        (WorkspaceSymbolKind::Boolean, "Boolean"),
        (WorkspaceSymbolKind::Array, "Array"),
        (WorkspaceSymbolKind::Object, "Object"),
        (WorkspaceSymbolKind::Key, "Key"),
        (WorkspaceSymbolKind::Null, "Null"),
        (WorkspaceSymbolKind::EnumMember, "Enum member"),
        (WorkspaceSymbolKind::Struct, "Struct"),
        (WorkspaceSymbolKind::Event, "Event"),
        (WorkspaceSymbolKind::Operator, "Operator"),
        (WorkspaceSymbolKind::TypeParameter, "Type parameter"),
    ];
    for (index, (kind, label)) in expected.into_iter().enumerate() {
        assert_eq!(parse_workspace_symbol_kind(index as i64 + 1), kind);
        assert_eq!(kind.label(), label);
    }

    let report = parse_workspace_symbols(&json(
        r#"[{
            "name": "future",
            "kind": 99,
            "location": {
                "uri": "file:///tmp/future.rs",
                "range": {
                    "start": {"line": 0, "character": 0},
                    "end": {"line": 0, "character": 1}
                }
            }
        }]"#,
    ));
    assert_eq!(report.symbols[0].kind, WorkspaceSymbolKind::Unknown(99));
    assert_eq!(report.symbols[0].kind.label(), "Unknown");
}

#[test]
fn workspace_symbols_treat_null_as_empty_and_report_invalid_top_level_data() {
    assert_eq!(
        parse_workspace_symbols(&JsonValue::Null),
        WorkspaceSymbolReport::default()
    );
    let invalid = parse_workspace_symbols(&json(r#"{"name":"not an array"}"#));
    assert!(invalid.symbols.is_empty());
    assert!(!invalid.truncated);
    assert_eq!(invalid.skipped_invalid, 1);
}

#[test]
fn workspace_symbols_skip_malformed_range_less_non_file_and_control_data() {
    let report = parse_workspace_symbols(&json(
        r#"[
            42,
            {},
            {"name":"missing kind","location":{}},
            {"name":"wrong kind","kind":"12","location":{}},
            {"name":"missing location","kind":12},
            {
                "name":"range-less",
                "kind":12,
                "location":{"uri":"file:///tmp/a.rs"}
            },
            {
                "name":"web URI",
                "kind":12,
                "location":{"uri":"https://example.test/a.rs","range":{"start":{"line":0,"character":0},"end":{"line":0,"character":1}}}
            },
            {
                "name":"remote file URI",
                "kind":12,
                "location":{"uri":"file://remote/tmp/a.rs","range":{"start":{"line":0,"character":0},"end":{"line":0,"character":1}}}
            },
            {
                "name":"bad escape",
                "kind":12,
                "location":{"uri":"file:///tmp/%QQ.rs","range":{"start":{"line":0,"character":0},"end":{"line":0,"character":1}}}
            },
            {
                "name":"backward range",
                "kind":12,
                "location":{"uri":"file:///tmp/a.rs","range":{"start":{"line":2,"character":0},"end":{"line":1,"character":9}}}
            },
            {
                "name":"bad\nname",
                "kind":12,
                "location":{"uri":"file:///tmp/a.rs","range":{"start":{"line":0,"character":0},"end":{"line":0,"character":1}}}
            },
            {
                "name":"bad container",
                "containerName":"terminal\u001battack",
                "kind":12,
                "location":{"uri":"file:///tmp/a.rs","range":{"start":{"line":0,"character":0},"end":{"line":0,"character":1}}}
            },
            {
                "name":"null container",
                "containerName":null,
                "kind":12,
                "location":{"uri":"file:///tmp/a.rs","range":{"start":{"line":0,"character":0},"end":{"line":0,"character":1}}}
            },
            {
                "name":"raw URI control",
                "kind":12,
                "location":{"uri":"file:///tmp/a\u001b.rs","range":{"start":{"line":0,"character":0},"end":{"line":0,"character":1}}}
            },
            {
                "name":"encoded URI control",
                "kind":12,
                "location":{"uri":"file:///tmp/a%1B.rs","range":{"start":{"line":0,"character":0},"end":{"line":0,"character":1}}}
            },
            {
                "name":"kept",
                "kind":12,
                "location":{"uri":"file:///tmp/kept.rs","range":{"start":{"line":0,"character":0},"end":{"line":0,"character":1}}}
            }
        ]"#,
    ));

    assert_eq!(report.skipped_invalid, 15);
    assert!(!report.truncated);
    assert_eq!(report.symbols.len(), 1);
    assert_eq!(report.symbols[0].name, "kept");
    assert!(
        report.symbols[0]
            .name
            .chars()
            .all(|character| !character.is_control())
    );
}

#[test]
fn workspace_symbols_decode_percent_uris_and_clip_fields_at_unicode_boundaries() {
    let name = format!("{}🪶discarded", "a".repeat(511));
    let container = format!("{}édiscarded", "b".repeat(510));
    let result = json(&format!(
        r#"[{{
            "name":"{name}",
            "containerName":"{container}",
            "kind":22,
            "location":{{
                "uri":"file:///tmp/a%20b%23c.rs",
                "range":{{
                    "start":{{"line":1,"character":2}},
                    "end":{{"line":1,"character":3}}
                }}
            }}
        }}]"#
    ));
    let report = parse_workspace_symbols(&result);

    assert!(report.truncated);
    assert_eq!(report.skipped_invalid, 0);
    assert_eq!(report.symbols.len(), 1);
    assert_eq!(report.symbols[0].name.len(), 511);
    assert_eq!(
        report.symbols[0].container_name.as_ref().unwrap().len(),
        512
    );
    assert!(
        report.symbols[0]
            .container_name
            .as_ref()
            .unwrap()
            .ends_with('é')
    );
    assert_eq!(report.symbols[0].kind, WorkspaceSymbolKind::EnumMember);
    assert_eq!(
        file_uri_to_path(&report.symbols[0].location.uri).unwrap(),
        b"/tmp/a b#c.rs".to_vec()
    );
}

#[test]
fn workspace_symbols_reject_oversized_file_uris_instead_of_clipping_them() {
    let uri = format!(
        "file:///tmp/{}.rs",
        "a".repeat(MAX_WORKSPACE_SYMBOL_URI_BYTES)
    );
    let result = json(&format!(
        r#"[{{
            "name":"too_far",
            "kind":12,
            "location":{{
                "uri":"{uri}",
                "range":{{
                    "start":{{"line":0,"character":0}},
                    "end":{{"line":0,"character":1}}
                }}
            }}
        }}]"#
    ));
    let report = parse_workspace_symbols(&result);

    assert!(report.symbols.is_empty());
    assert!(!report.truncated);
    assert_eq!(report.skipped_invalid, 1);
}

#[test]
fn workspace_symbols_inspect_at_most_4096_candidates() {
    let template = match json(
        r#"[{
            "name":"bounded",
            "kind":13,
            "location":{
                "uri":"file:///tmp/bounded.rs",
                "range":{
                    "start":{"line":0,"character":0},
                    "end":{"line":0,"character":1}
                }
            }
        }]"#,
    ) {
        JsonValue::Array(mut values) => values.remove(0),
        _ => unreachable!(),
    };
    let result = JsonValue::Array(vec![template; MAX_WORKSPACE_SYMBOLS + 1]);
    let report = parse_workspace_symbols(&result);

    assert_eq!(report.symbols.len(), MAX_WORKSPACE_SYMBOLS);
    assert!(report.truncated);
    assert_eq!(report.skipped_invalid, 0);
}

#[test]
fn workspace_symbols_enforce_the_lsp_uinteger_position_limit() {
    let accepted = parse_workspace_symbols(&json(
        r#"[{
            "name":"largest valid position",
            "kind":13,
            "location":{
                "uri":"file:///tmp/valid.rs",
                "range":{
                    "start":{"line":2147483647,"character":2147483647},
                    "end":{"line":2147483647,"character":2147483647}
                }
            }
        }]"#,
    ));
    assert_eq!(accepted.symbols.len(), 1);
    assert_eq!(accepted.skipped_invalid, 0);

    for invalid_range in [
        r#"{"start":{"line":2147483648,"character":0},"end":{"line":2147483648,"character":0}}"#,
        r#"{"start":{"line":0,"character":2147483648},"end":{"line":0,"character":2147483648}}"#,
        r#"{"start":{"line":18446744073709551615,"character":0},"end":{"line":18446744073709551615,"character":0}}"#,
    ] {
        let result = json(&format!(
            r#"[{{
                "name":"invalid position",
                "kind":13,
                "location":{{"uri":"file:///tmp/invalid.rs","range":{invalid_range}}}
            }}]"#
        ));
        let report = parse_workspace_symbols(&result);
        assert!(report.symbols.is_empty(), "accepted {invalid_range}");
        assert_eq!(report.skipped_invalid, 1);
    }
}

#[test]
fn parses_completion_location_hover_and_file_uri() {
    let completions = parse_completion(&json(
        r#"{"items":[{"label":"println!","detail":"macro","insertText":"println!($0)","insertTextFormat":2}]}"#,
    ));
    assert_eq!(completions[0].label, "println!");
    assert!(completions[0].is_snippet);

    let locations = parse_locations(&json(
        r#"[{"targetUri":"file:///tmp/a%20b.rs","targetSelectionRange":{"start":{"line":1,"character":2},"end":{"line":1,"character":3}}}]"#,
    ));
    assert_eq!(
        file_uri_to_path(&locations[0].uri).unwrap(),
        b"/tmp/a b.rs".to_vec()
    );
    assert_eq!(
        render_hover(&json(
            r#"{"contents":{"kind":"markdown","value":"**type**"}}"#
        )),
        Some("**type**".to_owned())
    );
}

#[test]
fn completion_text_edit_distinguishes_absent_valid_and_malformed_shapes() {
    let completions = parse_completion(&json(
        r#"[
            {"label":"plain","insertText":"plain()"},
            {
                "label":"replace",
                "textEdit":{
                    "range":{
                        "start":{"line":1,"character":2},
                        "end":{"line":1,"character":5}
                    },
                    "newText":"replacement"
                }
            },
            {"label":"missing range","insertText":"must not fall back","textEdit":{"newText":"bad"}},
            {
                "label":"invalid range",
                "insertText":"must not fall back",
                "textEdit":{
                    "range":{
                        "start":{"line":0,"character":0},
                        "end":{"line":0}
                    },
                    "newText":"bad"
                }
            }
        ]"#,
    ));

    assert_eq!(completions.len(), 2);
    assert_eq!(completions[0].label, "plain");
    assert_eq!(completions[0].insert_text, "plain()");
    assert_eq!(completions[0].text_edit, None);
    assert_eq!(completions[1].label, "replace");
    assert_eq!(completions[1].insert_text, "replacement");
    assert_eq!(
        completions[1].text_edit,
        Some(TextEdit {
            range: LspRange::new(
                LspPosition::new(Line::new(1), Utf16Offset::new(2)),
                LspPosition::new(Line::new(1), Utf16Offset::new(5)),
            ),
            new_text: "replacement".to_owned(),
        })
    );
}

#[test]
fn completion_insert_replace_edit_requires_both_valid_ranges() {
    let completions = parse_completion(&json(
        r#"[
            {
                "label":"valid",
                "textEdit":{
                    "insert":{
                        "start":{"line":2,"character":1},
                        "end":{"line":2,"character":3}
                    },
                    "replace":{
                        "start":{"line":2,"character":1},
                        "end":{"line":2,"character":6}
                    },
                    "newText":"valid edit"
                }
            },
            {
                "label":"missing insert",
                "textEdit":{
                    "replace":{
                        "start":{"line":0,"character":0},
                        "end":{"line":0,"character":1}
                    },
                    "newText":"bad"
                }
            },
            {
                "label":"invalid insert",
                "textEdit":{
                    "insert":{
                        "start":{"line":0,"character":0},
                        "end":{"line":2147483648,"character":1}
                    },
                    "replace":{
                        "start":{"line":0,"character":0},
                        "end":{"line":0,"character":1}
                    },
                    "newText":"bad"
                }
            },
            {
                "label":"different starts",
                "textEdit":{
                    "insert":{
                        "start":{"line":0,"character":1},
                        "end":{"line":0,"character":3}
                    },
                    "replace":{
                        "start":{"line":0,"character":0},
                        "end":{"line":0,"character":6}
                    },
                    "newText":"bad"
                }
            },
            {
                "label":"insert exceeds replace",
                "textEdit":{
                    "insert":{
                        "start":{"line":0,"character":1},
                        "end":{"line":0,"character":7}
                    },
                    "replace":{
                        "start":{"line":0,"character":1},
                        "end":{"line":0,"character":6}
                    },
                    "newText":"bad"
                }
            },
            {
                "label":"inverted insert",
                "textEdit":{
                    "insert":{
                        "start":{"line":0,"character":2},
                        "end":{"line":0,"character":1}
                    },
                    "replace":{
                        "start":{"line":0,"character":2},
                        "end":{"line":0,"character":6}
                    },
                    "newText":"bad"
                }
            }
        ]"#,
    ));

    assert_eq!(completions.len(), 1);
    assert_eq!(completions[0].label, "valid");
    assert_eq!(
        completions[0].text_edit.as_ref().unwrap().range,
        LspRange::new(
            LspPosition::new(Line::new(2), Utf16Offset::new(1)),
            LspPosition::new(Line::new(2), Utf16Offset::new(6)),
        )
    );
}

#[test]
fn completion_insert_text_rejects_present_non_string_values() {
    let completions = parse_completion(&json(
        r#"[
            {"label":"absent"},
            {"label":"string","insertText":"inserted"},
            {"label":"number","insertText":7},
            {"label":"null","insertText":null},
            {"label":"object","insertText":{}},
            {"label":"array","insertText":[]}
        ]"#,
    ));

    assert_eq!(
        completions
            .iter()
            .map(|item| (item.label.as_str(), item.insert_text.as_str()))
            .collect::<Vec<_>>(),
        vec![("absent", "absent"), ("string", "inserted")]
    );
}

#[test]
fn completion_insert_text_format_accepts_only_absent_plain_and_snippet() {
    let completions = parse_completion(&json(
        r#"[
            {"label":"absent"},
            {"label":"plain","insertTextFormat":1},
            {"label":"snippet","insertTextFormat":2},
            {"label":"zero","insertTextFormat":0},
            {"label":"future","insertTextFormat":3},
            {"label":"string","insertTextFormat":"2"},
            {"label":"null","insertTextFormat":null}
        ]"#,
    ));

    assert_eq!(
        completions
            .iter()
            .map(|item| (item.label.as_str(), item.is_snippet))
            .collect::<Vec<_>>(),
        vec![("absent", false), ("plain", false), ("snippet", true)]
    );
}
#[test]
fn document_symbols_are_listed_with_their_nesting() {
    let list = parse_document_symbols(
        &json(
            r#"[
                {"name":"outer","selectionRange":{"start":{"line":1,"character":0},"end":{"line":1,"character":5}},
                 "children":[
                    {"name":"inner","range":{"start":{"line":2,"character":0},"end":{"line":2,"character":1}},
                     "children":[{"name":"leaf","range":{"start":{"line":3,"character":0},"end":{"line":3,"character":1}}}]},
                    {"name":"unplaced","children":[{"name":"below","range":{"start":{"line":4,"character":0},"end":{"line":4,"character":1}}}]}
                 ]},
                {"kind":12},
                {"name":"elsewhere","location":{"uri":"file:///tmp/b.rs","range":{"start":{"line":9,"character":0},"end":{"line":9,"character":1}}}}
            ]"#,
        ),
        "file:///tmp/a.rs",
    );
    let shown: Vec<(&str, &str, usize)> = list
        .iter()
        .map(|(label, place)| (label.as_str(), place.uri.as_str(), place.range.start.line.get()))
        .collect();
    assert_eq!(
        shown,
        [
            ("outer", "file:///tmp/a.rs", 1),
            ("  inner", "file:///tmp/a.rs", 2),
            ("    leaf", "file:///tmp/a.rs", 3),
            ("    below", "file:///tmp/a.rs", 4),
            ("elsewhere", "file:///tmp/b.rs", 9),
        ]
    );
    assert!(parse_document_symbols(&JsonValue::Null, "file:///tmp/a.rs").is_empty());
}

#[test]
fn hover_contents_of_every_shape_are_joined() {
    assert_eq!(render_hover(&JsonValue::Null), None);
    assert_eq!(render_hover(&json(r#"{"contents":[]}"#)), None);
    assert_eq!(
        render_hover(&json(
            r#"{"contents":["plain",{"language":"rust","value":"fn f()"},{"value":"tail"},7]}"#
        )),
        Some("plain\n\n```rust\nfn f()\n```\n\ntail".to_owned())
    );
    assert_eq!(render_hover(&json(r#""bare""#)), Some("bare".to_owned()));
}

#[test]
fn text_edit_results_are_read_whole_or_not_at_all() {
    assert_eq!(parse_text_edits(&JsonValue::Null), Some(Vec::new()));
    let edit = r#"{"range":{"start":{"line":0,"character":0},"end":{"line":0,"character":1}},"newText":"x"}"#;
    assert_eq!(parse_text_edits(&json(&format!("[{edit}]"))).unwrap().len(), 1);
    assert_eq!(parse_text_edits(&json(&format!("[{edit},{{}}]"))), None);
    assert_eq!(parse_text_edits(&json("{}")), None);
}

#[test]
fn locations_come_in_both_shapes() {
    let range = r#"{"start":{"line":1,"character":2},"end":{"line":1,"character":3}}"#;
    let one = parse_locations(&json(&format!(r#"{{"uri":"file:///a.rs","range":{range}}}"#)));
    assert_eq!((one.len(), one[0].uri.as_str()), (1, "file:///a.rs"));
    let many = parse_locations(&json(&format!(
        r#"[{{"targetUri":"file:///b.rs","targetRange":{range}}},{{"uri":"file:///c.rs"}},3]"#
    )));
    assert_eq!((many.len(), many[0].uri.as_str()), (1, "file:///b.rs"));
    assert!(parse_locations(&JsonValue::Null).is_empty());
}

#[test]
fn the_order_of_a_batch_does_not_matter() {
    let edit = |start: usize, end: usize, text: &str| TextEdit {
        range: LspRange::new(
            LspPosition::new(Line::new(0), Utf16Offset::new(start)),
            LspPosition::new(Line::new(0), Utf16Offset::new(end)),
        ),
        new_text: text.to_owned(),
    };
    let forwards = [edit(0, 1, "x"), edit(2, 2, "-"), edit(3, 4, "")];
    let backwards = [edit(3, 4, ""), edit(0, 1, "x"), edit(2, 2, "-")];
    assert_eq!(apply_text_edits("abcd", &forwards).unwrap(), "xb-c");
    assert_eq!(apply_text_edits("abcd", &backwards).unwrap(), "xb-c");
    assert!(apply_text_edits("abcd", &[edit(1, 2, "x"), edit(1, 1, "y")]).is_err());
}
