use wscrpt::diagnostic_cache::{
    btree_object_allocation_estimate, diagnostic_heap_estimate, heap_estimate, DiagnosticCache,
    DiagnosticHeap, DiagnosticReplaceReport, MAX_DIAGNOSTICS_PER_URI,
    MAX_DIAGNOSTIC_RETAINED_BYTES, MAX_DIAGNOSTIC_URI_BUCKETS,
};
use wscrpt::file_uri::file_uri;
use wscrpt::json::{JsonObject, JsonValue};
use wscrpt::lsp::{DocumentVersion, Line, LspPosition, Utf16Offset};
use wscrpt::lsp_queue::HeapShape;
use wscrpt::lsp_session::{
    DocumentInsertError, RetentionStatus, SynchronizedDocument, SynchronizedDocumentRegistry,
    MAX_SYNCHRONIZED_DOCUMENTS,
};
use wscrpt::lsp_types::LspRange;
use wscrpt::lsp_ui::{
    Diagnostic, DiagnosticSeverity, MAX_DIAGNOSTIC_RAW_BYTES, MAX_DIAGNOSTIC_RAW_DEPTH,
    MAX_DIAGNOSTIC_RAW_NODES, MAX_DIAGNOSTIC_URI_BYTES,
};

fn document(editor_id: u64) -> SynchronizedDocument {
    SynchronizedDocument::new(
        editor_id,
        &format!("file:///workspace/{editor_id}.rs"),
        DocumentVersion::new(editor_id),
        editor_id * 10,
        Some(editor_id * 10),
        editor_id * 100,
    )
}

fn diagnostic(uri: &str, message: impl Into<String>) -> Diagnostic {
    Diagnostic {
        uri: uri.to_owned(),
        range: LspRange::new(
            LspPosition::new(Line::new(0), Utf16Offset::new(0)),
            LspPosition::new(Line::new(0), Utf16Offset::new(1)),
        ),
        severity: DiagnosticSeverity::Warning,
        message: message.into(),
        source: Some("test".to_owned()),
        raw: JsonValue::Null,
    }
}

fn nested_array(mut value: JsonValue, wrappers: usize) -> JsonValue {
    for _ in 0..wrappers {
        value = JsonValue::Array(vec![value]);
    }
    value
}

/// Sixty-three wrappers plus the terminal value put the leaf at depth 64.
fn depth_64_singleton_object() -> JsonValue {
    let mut value = JsonValue::Null;
    for _ in 1..MAX_DIAGNOSTIC_RAW_DEPTH {
        let mut object = JsonObject::new();
        object.insert("k".to_owned(), value);
        value = JsonValue::Object(object);
    }
    value
}

fn diagnostic_with_raw(uri: &str, raw: JsonValue) -> Diagnostic {
    let mut value = diagnostic(uri, "raw");
    value.raw = raw;
    value
}

#[test]
fn document_registry_inserts_looks_up_and_tracks_active_recency() {
    let mut registry = SynchronizedDocumentRegistry::new();
    let first = registry.insert(document(1)).unwrap();
    let first_ordinal = registry.get_by_editor_id(1).unwrap().activity_ordinal();
    let second = registry.insert(document(2)).unwrap();

    assert_eq!(first.retention, RetentionStatus::Complete);
    assert!(!first.evicted());
    assert_eq!(second.retention, RetentionStatus::Complete);
    assert_eq!(registry.len(), 2);
    assert_eq!(registry.active_editor_id(), Some(2));
    assert_eq!(registry.active().unwrap().editor_id, 2);
    assert_eq!(registry.active().unwrap().save_generation, 200);
    assert_eq!(
        registry
            .get_by_uri("file:///workspace/1.rs")
            .unwrap()
            .editor_id,
        1
    );
    assert!(registry.get_by_editor_id(2).unwrap().activity_ordinal() > first_ordinal);

    assert!(registry.mark_active(1));
    assert_eq!(registry.active_editor_id(), Some(1));
    assert!(
        registry.get_by_editor_id(1).unwrap().activity_ordinal()
            > registry.get_by_editor_id(2).unwrap().activity_ordinal()
    );
    assert!(!registry.mark_active(99));
    assert_eq!(registry.active_editor_id(), Some(1));
}

#[test]
fn document_registry_updates_revisions_without_changing_recency() {
    let mut registry = SynchronizedDocumentRegistry::new();
    registry.insert(document(7)).unwrap();
    let activity = registry.get_by_editor_id(7).unwrap().activity_ordinal();
    assert_eq!(registry.get_by_editor_id(7).unwrap().save_generation, 700);

    assert!(registry.update(7, DocumentVersion::new(19), 23, None, 701));
    let updated = registry.get_by_editor_id(7).unwrap();
    assert_eq!(updated.version, DocumentVersion::new(19));
    assert_eq!(updated.state_id, 23);
    assert_eq!(updated.saved_state_id, None);
    assert_eq!(updated.save_generation, 701);
    assert_eq!(updated.activity_ordinal(), activity);
    assert!(!registry.update(8, DocumentVersion::new(1), 1, Some(1), 1));
}

#[test]
fn document_registry_revision_advances_for_identity_and_metadata_mutations() {
    let mut registry = SynchronizedDocumentRegistry::new();
    assert_eq!(registry.revision(), 0);

    registry.insert(document(1)).unwrap();
    assert_eq!(registry.revision(), 1);

    assert!(registry.update(1, DocumentVersion::new(2), 11, Some(11), 101));
    assert_eq!(registry.revision(), 2);

    assert!(registry.remove_by_editor_id(1).is_some());
    assert_eq!(registry.revision(), 3);

    registry.insert(document(2)).unwrap();
    assert_eq!(registry.revision(), 4);
    assert_eq!(registry.clear().len(), 1);
    assert_eq!(registry.revision(), 5);
}

#[test]
fn document_registry_revision_ignores_activity_and_noop_updates() {
    let mut registry = SynchronizedDocumentRegistry::new();
    registry.insert(document(7)).unwrap();
    let revision = registry.revision();
    let document = registry.get_by_editor_id(7).unwrap();
    let version = document.version;
    let state_id = document.state_id;
    let saved_state_id = document.saved_state_id;
    let save_generation = document.save_generation;

    assert!(registry.mark_active(7));
    assert_eq!(registry.revision(), revision);

    assert!(registry.update(7, version, state_id, saved_state_id, save_generation,));
    assert_eq!(registry.revision(), revision);
}

#[test]
fn document_registry_rejects_identity_collisions_without_mutation() {
    let mut registry = SynchronizedDocumentRegistry::new();
    registry.insert(document(1)).unwrap();
    let active = registry.active_editor_id();

    assert_eq!(
        registry.insert(SynchronizedDocument::new(
            1,
            "file:///workspace/other.rs",
            DocumentVersion::new(1),
            1,
            None,
            0,
        )),
        Err(DocumentInsertError::DuplicateEditorId)
    );
    assert_eq!(
        registry.insert(SynchronizedDocument::new(
            2,
            "file:///workspace/1.rs",
            DocumentVersion::new(1),
            1,
            None,
            0,
        )),
        Err(DocumentInsertError::DuplicateUri)
    );
    assert_eq!(
        registry.insert(SynchronizedDocument::new(
            2,
            "untitled:2",
            DocumentVersion::new(1),
            1,
            None,
            0,
        )),
        Err(DocumentInsertError::NonFileUri)
    );
    assert_eq!(registry.len(), 1);
    assert_eq!(registry.active_editor_id(), active);
    assert_eq!(registry.retention_status(), RetentionStatus::Complete);
}

#[test]
fn registry_and_cache_require_bounded_control_free_local_file_uris() {
    let exact_uri = format!(
        "file:///{}",
        "a".repeat(MAX_DIAGNOSTIC_URI_BYTES - "file:///".len())
    );
    assert_eq!(exact_uri.len(), MAX_DIAGNOSTIC_URI_BYTES);

    let mut registry = SynchronizedDocumentRegistry::new();
    registry
        .insert(SynchronizedDocument::new(
            1,
            &exact_uri,
            DocumentVersion::new(1),
            1,
            None,
            0,
        ))
        .unwrap();
    assert_eq!(registry.len(), 1);

    let invalid_uris = [
        format!("{exact_uri}x"),
        "file:///tmp/raw\u{1b}.rs".to_owned(),
        "file:///tmp/encoded%1B.rs".to_owned(),
        "file://remote/tmp/a.rs".to_owned(),
        "file:///tmp/%QQ.rs".to_owned(),
        "https://example.test/a.rs".to_owned(),
    ];
    for (offset, invalid_uri) in invalid_uris.iter().enumerate() {
        assert_eq!(
            registry.insert(SynchronizedDocument::new(
                offset as u64 + 2,
                invalid_uri,
                DocumentVersion::new(1),
                1,
                None,
                0,
            )),
            Err(DocumentInsertError::NonFileUri),
            "{invalid_uri:?}"
        );
    }
    assert_eq!(registry.len(), 1);

    let mut cache = DiagnosticCache::new();
    let exact = cache.replace(
        exact_uri.clone(),
        vec![diagnostic(&exact_uri, "exact bound")],
    );
    assert_eq!(exact.retained, 1);
    assert!(!exact.is_partial());

    for invalid_uri in invalid_uris {
        let report = cache.replace(
            invalid_uri.clone(),
            vec![diagnostic(&invalid_uri, "invalid URI")],
        );
        assert_eq!(report.received, 1, "{invalid_uri:?}");
        assert_eq!(report.retained, 0, "{invalid_uri:?}");
        assert_eq!(report.dropped, 1, "{invalid_uri:?}");
        assert!(report.truncated, "{invalid_uri:?}");
        assert!(report.is_partial(), "{invalid_uri:?}");
    }
    assert_eq!(cache.len(), 1);
    assert!(cache.get(&exact_uri).is_some());

    let localhost = "file://localhost/tmp/local.rs";
    cache.clear();
    assert_eq!(
        cache
            .replace(
                localhost.to_owned(),
                vec![diagnostic(localhost, "local host")],
            )
            .retained,
        1
    );
}

#[test]
fn registry_and_cache_admit_distinct_non_utf8_unix_basenames() {
    let first_uri = file_uri(b"/workspace/non-utf8-\x80.rs");
    let second_uri = file_uri(b"/workspace/non-utf8-\x81.rs");
    assert_ne!(first_uri, second_uri);
    assert!(first_uri.len() <= MAX_DIAGNOSTIC_URI_BYTES);
    assert!(second_uri.len() <= MAX_DIAGNOSTIC_URI_BYTES);

    let mut registry = SynchronizedDocumentRegistry::new();
    for (editor_id, uri) in [(1, &first_uri), (2, &second_uri)] {
        let report = registry
            .insert(SynchronizedDocument::new(
                editor_id,
                uri,
                DocumentVersion::new(1),
                editor_id,
                Some(editor_id),
                editor_id,
            ))
            .unwrap();
        assert!(!report.evicted());
        assert!(!report.is_partial());
    }
    assert_eq!(registry.len(), 2);
    assert!(registry.get_by_uri(&first_uri).is_some());
    assert!(registry.get_by_uri(&second_uri).is_some());

    let mut cache = DiagnosticCache::new();
    for uri in [&first_uri, &second_uri] {
        let report = cache.replace(uri.clone(), vec![diagnostic(uri, "non-UTF-8 path")]);
        assert_eq!(report.retained, 1);
        assert!(!report.is_partial());
    }
    assert_eq!(cache.len(), 2);
    assert_eq!(cache.diagnostic_count(), 2);
    assert!(cache.get(&first_uri).is_some());
    assert!(cache.get(&second_uri).is_some());
}

#[test]
fn document_registry_evicts_the_deterministic_lru_before_new_admission() {
    let mut registry = SynchronizedDocumentRegistry::new();
    for editor_id in 1..=MAX_SYNCHRONIZED_DOCUMENTS as u64 {
        registry.insert(document(editor_id)).unwrap();
    }
    assert!(registry.mark_active(1));

    let report = registry.insert(document(65)).unwrap();

    assert_eq!(
        report.evicted.as_ref().map(|entry| entry.editor_id),
        Some(2)
    );
    assert!(report.is_partial());
    assert_eq!(registry.len(), MAX_SYNCHRONIZED_DOCUMENTS);
    assert!(registry.get_by_editor_id(1).is_some());
    assert!(registry.get_by_editor_id(2).is_none());
    assert!(registry.get_by_editor_id(65).is_some());
    assert_eq!(registry.active_editor_id(), Some(65));
}

#[test]
fn document_registry_remove_and_clear_reset_only_at_session_boundary() {
    let mut registry = SynchronizedDocumentRegistry::new();
    for editor_id in 1..=MAX_SYNCHRONIZED_DOCUMENTS as u64 + 1 {
        registry.insert(document(editor_id)).unwrap();
    }
    assert!(registry.is_partial());

    let active = registry.remove_by_editor_id(65).unwrap();
    assert_eq!(active.editor_id, 65);
    assert_eq!(registry.active_editor_id(), None);
    let by_uri = registry.remove_by_uri("file:///workspace/64.rs").unwrap();
    assert_eq!(by_uri.editor_id, 64);
    assert!(
        registry
            .remove_by_uri("file:///workspace/missing.rs")
            .is_none()
    );
    assert!(registry.is_partial());

    let remaining = registry.clear();
    assert_eq!(remaining.len(), MAX_SYNCHRONIZED_DOCUMENTS - 2);
    assert!(registry.is_empty());
    assert_eq!(registry.retention_status(), RetentionStatus::Complete);
    assert_eq!(registry.active_editor_id(), None);

    registry.insert(document(100)).unwrap();
    assert_eq!(registry.active().unwrap().activity_ordinal(), 1);
}

#[test]
fn explicit_partial_signals_are_sticky_until_each_service_store_is_cleared() {
    let mut registry = SynchronizedDocumentRegistry::new();
    registry.insert(document(1)).unwrap();
    assert_eq!(registry.retention_status(), RetentionStatus::Complete);

    registry.mark_partial();
    assert!(registry.is_partial());
    registry.remove_by_editor_id(1);
    registry.insert(document(2)).unwrap();
    assert!(registry.is_partial());

    registry.clear();
    assert_eq!(registry.retention_status(), RetentionStatus::Complete);

    let uri = "file:///workspace/parsed.rs";
    let mut cache = DiagnosticCache::new();
    cache.replace(uri.to_owned(), vec![diagnostic(uri, "retained")]);
    assert_eq!(cache.retention_status(), RetentionStatus::Complete);

    cache.mark_partial();
    assert!(cache.is_partial());
    cache.replace(uri.to_owned(), Vec::new());
    assert!(cache.is_partial());

    cache.clear();
    assert_eq!(cache.retention_status(), RetentionStatus::Complete);
}

#[test]
fn document_activity_clock_rebases_without_changing_lru_order() {
    let mut registry = SynchronizedDocumentRegistry::new();
    registry.insert(document(1)).unwrap();
    registry.insert(document(2)).unwrap();
    registry.next_activity_ordinal = u64::MAX;

    assert!(registry.mark_active(1));

    assert_eq!(registry.get_by_editor_id(2).unwrap().activity_ordinal(), 2);
    assert_eq!(registry.get_by_editor_id(1).unwrap().activity_ordinal(), 3);
    assert_eq!(registry.next_activity_ordinal, 4);
}

#[test]
fn diagnostic_cache_replaces_reads_marks_used_and_clears_empty_publication() {
    let mut cache = DiagnosticCache::new();
    let uri = "file:///workspace/main.rs";
    let report = cache.replace(uri.to_owned(), vec![diagnostic(uri, "first")]);

    assert_eq!(report.received, 1);
    assert_eq!(report.retained, 1);
    assert_eq!(report.dropped, 0);
    assert!(!report.truncated);
    assert!(!report.is_partial());
    assert_eq!(cache.get(uri).unwrap()[0].message, "first");
    assert!(cache.mark_used(uri));
    assert!(!cache.mark_used("file:///missing.rs"));

    let replacement = cache.replace(uri.to_owned(), vec![diagnostic(uri, "second")]);
    assert_eq!(replacement.retained, 1);
    assert_eq!(cache.diagnostic_count(), 1);
    assert_eq!(cache.get(uri).unwrap()[0].message, "second");

    let clear = cache.replace(uri.to_owned(), Vec::new());
    assert_eq!(clear.received, 0);
    assert_eq!(clear.retained, 0);
    assert!(cache.get(uri).is_none());
    assert!(cache.is_empty());
    assert_eq!(cache.retained_estimate_bytes(), 0);
}

#[test]
fn diagnostic_cache_caps_each_uri_and_reports_truncation() {
    let mut cache = DiagnosticCache::new();
    let uri = "file:///workspace/many.rs";
    let diagnostics = (0..MAX_DIAGNOSTICS_PER_URI + 3)
        .map(|index| diagnostic(uri, index.to_string()))
        .collect();

    let report = cache.replace(uri.to_owned(), diagnostics);

    assert_eq!(report.received, MAX_DIAGNOSTICS_PER_URI + 3);
    assert_eq!(report.retained, MAX_DIAGNOSTICS_PER_URI);
    assert_eq!(report.dropped, 3);
    assert!(report.truncated);
    assert!(report.is_partial());
    assert_eq!(cache.get(uri).unwrap().len(), MAX_DIAGNOSTICS_PER_URI);
    assert!(cache.retained_estimate_bytes() <= MAX_DIAGNOSTIC_RETAINED_BYTES);
}

#[test]
fn diagnostic_cache_rejects_cross_uri_entries_without_cloning() {
    let mut cache = DiagnosticCache::new();
    let uri = "file:///workspace/right.rs";
    let report = cache.replace(
        uri.to_owned(),
        vec![
            diagnostic("file:///workspace/wrong.rs", "wrong"),
            diagnostic(uri, "right"),
        ],
    );

    assert_eq!(report.received, 2);
    assert_eq!(report.retained, 1);
    assert_eq!(report.dropped, 1);
    assert!(report.truncated);
    assert_eq!(cache.get(uri).unwrap()[0].message, "right");
}

#[test]
fn diagnostic_cache_evicts_oldest_bucket_at_uri_limit_and_honors_touch() {
    let mut cache = DiagnosticCache::new();
    for index in 0..MAX_DIAGNOSTIC_URI_BUCKETS {
        let uri = format!("file:///workspace/{index}.rs");
        cache.replace(uri.clone(), vec![diagnostic(&uri, "warning")]);
    }
    assert!(cache.mark_used("file:///workspace/0.rs"));

    let newest = "file:///workspace/new.rs";
    let report = cache.replace(newest.to_owned(), vec![diagnostic(newest, "new")]);

    assert_eq!(report.evicted_buckets, 1);
    assert_eq!(report.evicted_diagnostics, 1);
    assert!(report.is_partial());
    assert_eq!(cache.len(), MAX_DIAGNOSTIC_URI_BUCKETS);
    assert!(cache.get("file:///workspace/0.rs").is_some());
    assert!(cache.get("file:///workspace/1.rs").is_none());
    assert!(cache.get(newest).is_some());
}

#[test]
fn diagnostic_cache_evicts_lru_buckets_to_hold_newest_within_byte_cap() {
    let mut cache = DiagnosticCache::new();
    let payload = "x".repeat(2 * 1024 * 1024);
    let mut last_report = DiagnosticReplaceReport::default();
    for index in 0..4 {
        let uri = format!("file:///workspace/large-{index}.rs");
        last_report = cache.replace(uri.clone(), vec![diagnostic(&uri, payload.clone())]);
    }

    assert_eq!(last_report.evicted_buckets, 1);
    assert_eq!(last_report.evicted_diagnostics, 1);
    assert!(last_report.is_partial());
    assert!(cache.get("file:///workspace/large-0.rs").is_none());
    assert!(cache.get("file:///workspace/large-3.rs").is_some());
    assert!(cache.retained_estimate_bytes() <= MAX_DIAGNOSTIC_RETAINED_BYTES);
}

#[test]
fn diagnostic_cache_drops_single_value_larger_than_aggregate_budget() {
    let mut cache = DiagnosticCache::new();
    let uri = "file:///workspace/oversized.rs";
    let report = cache.replace(
        uri.to_owned(),
        vec![diagnostic(
            uri,
            "x".repeat(MAX_DIAGNOSTIC_RETAINED_BYTES + 1),
        )],
    );

    assert_eq!(report.received, 1);
    assert_eq!(report.retained, 0);
    assert_eq!(report.dropped, 1);
    assert!(report.truncated);
    assert!(report.is_partial());
    assert!(cache.is_empty());
    assert_eq!(cache.retained_estimate_bytes(), 0);
}

#[test]
fn diagnostic_estimate_includes_nested_json_allocations() {
    let uri = "file:///workspace/raw.rs";
    let mut fields = JsonObject::new();
    fields.insert(
        "payload".to_owned(),
        JsonValue::String("x".repeat(MAX_DIAGNOSTIC_RETAINED_BYTES)),
    );
    let mut value = diagnostic(uri, "small");
    value.raw = JsonValue::Object(fields);
    let mut cache = DiagnosticCache::new();

    let report = cache.replace(uri.to_owned(), vec![value]);

    assert_eq!(report.retained, 0);
    assert_eq!(report.dropped, 1);
    assert!(report.truncated);
}

#[test]
fn diagnostic_cache_enforces_raw_json_byte_node_and_depth_ceilings() {
    let uri = "file:///workspace/raw-bounds.rs";
    let mut cache = DiagnosticCache::new();

    let exact_depth = diagnostic_with_raw(
        uri,
        nested_array(JsonValue::Null, MAX_DIAGNOSTIC_RAW_DEPTH.saturating_sub(1)),
    );
    assert_eq!(cache.replace(uri.to_owned(), vec![exact_depth]).retained, 1);

    let exact_nodes = diagnostic_with_raw(
        uri,
        JsonValue::Array(vec![
            JsonValue::Array(Vec::new());
            MAX_DIAGNOSTIC_RAW_NODES - 1
        ]),
    );
    assert_eq!(cache.replace(uri.to_owned(), vec![exact_nodes]).retained, 1);

    let exact_bytes = diagnostic_with_raw(
        uri,
        JsonValue::String("x".repeat(MAX_DIAGNOSTIC_RAW_BYTES - 2)),
    );
    assert_eq!(cache.replace(uri.to_owned(), vec![exact_bytes]).retained, 1);

    let oversized_values = [
        nested_array(JsonValue::Null, MAX_DIAGNOSTIC_RAW_DEPTH),
        JsonValue::Array(vec![JsonValue::Array(Vec::new()); MAX_DIAGNOSTIC_RAW_NODES]),
        JsonValue::String("x".repeat(MAX_DIAGNOSTIC_RAW_BYTES - 1)),
    ];
    for raw in oversized_values {
        cache.clear();
        let report = cache.replace(uri.to_owned(), vec![diagnostic_with_raw(uri, raw)]);
        assert_eq!(report.received, 1);
        assert_eq!(report.retained, 0);
        assert_eq!(report.dropped, 1);
        assert!(report.truncated);
        assert!(report.is_partial());
        assert!(cache.is_empty());
    }
}

#[test]
fn repeated_depth_64_singleton_objects_are_omitted_at_aggregate_cap() {
    let uri = "file:///workspace/deep-omission.rs";
    let sample = diagnostic_with_raw(uri, depth_64_singleton_object());
    let per_diagnostic = diagnostic_heap_estimate(&sample, MAX_DIAGNOSTIC_RETAINED_BYTES)
        .unwrap()
        .saturating_add(std::mem::size_of::<Diagnostic>());
    assert!(
        per_diagnostic >= (MAX_DIAGNOSTIC_RAW_DEPTH - 1) * btree_object_allocation_estimate(1)
    );
    let count = MAX_DIAGNOSTIC_RETAINED_BYTES
        .checked_div(per_diagnostic)
        .unwrap()
        .saturating_add(2)
        .min(MAX_DIAGNOSTICS_PER_URI);
    let diagnostics = (0..count)
        .map(|_| diagnostic_with_raw(uri, depth_64_singleton_object()))
        .collect();
    let mut cache = DiagnosticCache::new();

    let report = cache.replace(uri.to_owned(), diagnostics);

    assert_eq!(report.received, count);
    assert!(report.retained > 0);
    assert!(report.retained < report.received);
    assert_eq!(report.dropped, report.received - report.retained);
    assert!(report.truncated);
    assert!(report.is_partial());
    assert!(cache.retained_estimate_bytes() <= MAX_DIAGNOSTIC_RETAINED_BYTES);
}

#[test]
fn repeated_depth_64_singleton_objects_evict_old_bucket_for_newest() {
    let first_uri = "file:///workspace/deep-first.rs";
    let second_uri = "file:///workspace/deep-second.rs";
    let sample = diagnostic_with_raw(first_uri, depth_64_singleton_object());
    let per_diagnostic = diagnostic_heap_estimate(&sample, MAX_DIAGNOSTIC_RETAINED_BYTES)
        .unwrap()
        .saturating_add(std::mem::size_of::<Diagnostic>());
    let count = MAX_DIAGNOSTIC_RETAINED_BYTES
        .checked_div(per_diagnostic.saturating_mul(2))
        .unwrap()
        .saturating_add(2)
        .min(MAX_DIAGNOSTICS_PER_URI);
    let deep_diagnostics = |uri: &str| {
        (0..count)
            .map(|_| diagnostic_with_raw(uri, depth_64_singleton_object()))
            .collect()
    };
    let mut cache = DiagnosticCache::new();
    let first = cache.replace(first_uri.to_owned(), deep_diagnostics(first_uri));
    assert_eq!(first.retained, count);

    let second = cache.replace(second_uri.to_owned(), deep_diagnostics(second_uri));

    assert_eq!(second.retained, count);
    assert_eq!(second.evicted_buckets, 1);
    assert_eq!(second.evicted_diagnostics, count);
    assert!(second.is_partial());
    assert!(cache.get(first_uri).is_none());
    assert!(cache.get(second_uri).is_some());
    assert!(cache.retained_estimate_bytes() <= MAX_DIAGNOSTIC_RETAINED_BYTES);
}

#[test]
fn diagnostic_number_estimate_has_conservative_allocation_multiplier() {
    let uri = "file:///workspace/number.rs";
    let mut value = diagnostic(uri, "number");
    value.raw = JsonValue::signed(123_456_789);
    let scalar_heap = value
        .uri
        .capacity()
        .saturating_add(value.message.capacity())
        .saturating_add(value.source.as_ref().unwrap().capacity());

    let estimate = diagnostic_heap_estimate(&value, MAX_DIAGNOSTIC_RETAINED_BYTES).unwrap();

    assert!(estimate >= scalar_heap + "123456789".len() * 2);
}

#[test]
fn diagnostic_purge_preserves_partial_until_clear_resets_session() {
    let mut cache = DiagnosticCache::new();
    let uri = "file:///workspace/problem.rs";
    let diagnostics = (0..MAX_DIAGNOSTICS_PER_URI + 1)
        .map(|index| diagnostic(uri, index.to_string()))
        .collect();
    cache.replace(uri.to_owned(), diagnostics);
    assert!(cache.is_partial());

    assert!(cache.purge(uri));
    assert!(!cache.purge(uri));
    assert!(cache.is_empty());
    assert!(cache.is_partial());

    cache.clear();
    assert_eq!(cache.retention_status(), RetentionStatus::Complete);
    assert_eq!(cache.retained_estimate_bytes(), 0);
    assert_eq!(cache.diagnostic_count(), 0);
}

#[test]
fn diagnostic_activity_clock_rebases_and_keeps_oldest_deterministic() {
    let mut cache = DiagnosticCache::new();
    for index in 0..2 {
        let uri = format!("file:///workspace/{index}.rs");
        cache.replace(uri.clone(), vec![diagnostic(&uri, "warning")]);
    }
    cache.next_activity_ordinal = u64::MAX;

    assert!(cache.mark_used("file:///workspace/0.rs"));

    let zero = cache
        .buckets
        .iter()
        .find(|bucket| bucket.uri.ends_with("/0.rs"))
        .unwrap();
    let one = cache
        .buckets
        .iter()
        .find(|bucket| bucket.uri.ends_with("/1.rs"))
        .unwrap();
    assert_eq!(one.activity_ordinal, 2);
    assert_eq!(zero.activity_ordinal, 3);
    assert_eq!(cache.next_activity_ordinal, 4);
}

#[test]
fn insert_errors_say_why() {
    assert_eq!(
        DocumentInsertError::NonFileUri.describe(),
        "synchronized documents require a bounded, control-free local file URI"
    );
    assert_eq!(
        DocumentInsertError::DuplicateEditorId.describe(),
        "editor id is already synchronized"
    );
    assert_eq!(
        DocumentInsertError::DuplicateUri.describe(),
        "document URI is already synchronized"
    );
}

#[test]
fn registries_and_caches_made_by_default_start_their_clock_on_first_use() {
    let mut registry = SynchronizedDocumentRegistry::default();
    registry.insert(document(4)).unwrap();
    assert_eq!(registry.active().unwrap().activity_ordinal(), 1);
    assert_eq!(registry.iter().len(), 1);

    let uri = "file:///workspace/default.rs";
    let mut cache = DiagnosticCache::default();
    cache.replace(uri.to_owned(), vec![diagnostic(uri, "first")]);
    assert_eq!(cache.buckets[0].activity_ordinal, 1);
    let listed = cache.iter();
    assert_eq!(listed.len(), 1);
    assert_eq!(listed[0].0, uri);
    assert_eq!(listed[0].1[0].message, "first");
}

#[test]
fn evictions_leave_every_other_document_in_place() {
    let mut registry = SynchronizedDocumentRegistry::new();
    for editor_id in 1..=64 {
        registry.insert(document(editor_id)).unwrap();
    }
    assert!(registry.mark_active(1));
    let report = registry.insert(document(65)).unwrap();
    assert_eq!(report.evicted.unwrap().editor_id, 2);
    for editor_id in (3..=65).chain([1]) {
        assert!(registry.get_by_editor_id(editor_id).is_some(), "{editor_id}");
    }
}

#[test]
fn replacements_leave_other_uris_as_they_were() {
    let kept = "file:///workspace/kept.rs";
    let changed = "file:///workspace/changed.rs";
    let mut cache = DiagnosticCache::new();
    cache.replace(kept.to_owned(), vec![diagnostic(kept, "a"), diagnostic(kept, "b")]);
    cache.replace(changed.to_owned(), vec![diagnostic(changed, "c")]);
    cache.replace(changed.to_owned(), Vec::new());
    let messages: Vec<&str> =
        cache.get(kept).unwrap().iter().map(|entry| entry.message.as_str()).collect();
    assert_eq!(messages, ["a", "b"]);
    assert_eq!(cache.retention_status(), RetentionStatus::Complete);
}

#[test]
fn estimates_follow_the_capacities() {
    let mut value = diagnostic("file:///a.rs", "note");
    value.raw = JsonValue::Array(vec![JsonValue::Null]);
    let heap = DiagnosticHeap {
        uri: 20,
        message: 8,
        source: 4,
        raw: HeapShape::List(2, vec![HeapShape::Scalar]),
    };
    let expected = 32 + 2 * std::mem::size_of::<JsonValue>();
    assert_eq!(heap_estimate(&value, &heap, expected), Some(expected));
    assert_eq!(heap_estimate(&value, &heap, expected - 1), None);
}

#[test]
fn a_publication_is_kept_as_far_as_its_estimates_allow() {
    let uri = "file:///a.rs";
    let publication = vec![
        diagnostic(uri, "first"),
        diagnostic(uri, "without an estimate"),
        diagnostic(uri, "too large"),
        diagnostic(uri, "last"),
    ];
    let estimates =
        vec![Some(10), None, Some(MAX_DIAGNOSTIC_RETAINED_BYTES), Some(20)];
    let mut cache = DiagnosticCache::new();
    let report = cache.replace_estimated(uri.to_owned(), 100, publication, &estimates);
    assert_eq!((report.received, report.retained, report.dropped), (4, 2, 2));
    assert_eq!(report.retention, RetentionStatus::Partial);
    let kept: Vec<&str> =
        cache.get(uri).unwrap().iter().map(|item| item.message.as_str()).collect();
    assert_eq!(kept, ["first", "last"]);
    assert_eq!(
        cache.retained_estimate_bytes(),
        100 + 2 * std::mem::size_of::<Diagnostic>() + 30
    );
}
