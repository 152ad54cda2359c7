use wscrpt::recovery::{
    filename_has_journal_extension, generate_id, journal_id_from_filename, recovery_dir_from,
    temporary_name, validate_id, DirectoryEntry, IdParts, RecoveryError, RecoveryListing,
    RecoveryRecord, RecoveryScan, RecoveryStore, RecoveryWarning, ScanAction, MAX_ID_BYTES,
    MAX_RECOVERY_JOURNAL_BYTES, MAX_RECOVERY_LIST_BYTES, RECOVERY_FORMAT_VERSION,
};
use wscrpt::services::{
    recovery_snapshot, ServiceCoordinator, ServiceEvent, ServiceKind, ServiceTag,
};

fn dirty_record(root: &str) -> RecoveryRecord {
    RecoveryRecord {
        version: RECOVERY_FORMAT_VERSION,
        id: "r-test-buffer-01".to_owned(),
        workspace_root: root.as_bytes().to_vec(),
        original_path: Some(format!("{root}/notes/ideas.rs").into_bytes()),
        text: "fn café() {\n    println!(\"🪶\");\n}\n".to_owned(),
        cursor: 8,
        anchor: Some(3),
        revision: 9,
        saved_revision: Some(4),
        recorded_at_unix_millis: 123_456,
    }
}

fn parts(sequence: u64) -> IdParts {
    IdParts { seconds: 1_700_000_000, nanoseconds: 42, process: 7, sequence }
}

/// Scans journals that were read, or could not be, under their names.
fn list(
    store: &RecoveryStore,
    journals: Vec<(&str, u64, Result<RecoveryRecord, RecoveryError>)>,
) -> RecoveryListing {
    let mut scan = RecoveryScan::new(store);
    for (filename, size, result) in journals {
        let mut path = store.directory().to_vec();
        path.push(b'/');
        path.extend_from_slice(filename.as_bytes());
        let action = scan.entry(DirectoryEntry::Present {
            path: path.clone(),
            filename: filename.as_bytes().to_vec(),
            is_file: true,
        });
        match action {
            ScanAction::Stop => return scan.finish(),
            ScanAction::Skip => {}
            ScanAction::Inspect(id) => {
                assert_eq!(format!("{id}.toml"), filename);
                if scan.inspected(&path, Ok(size)).is_some() {
                    scan.loaded(&path, result);
                }
            }
        }
    }
    scan.finish()
}

#[test]
fn xdg_resolution_is_pure_and_uses_the_documented_fallback() {
    let xdg = b"/tmp/wscrpt-test-xdg".to_vec();
    let home = b"/tmp/wscrpt-test-home".to_vec();
    assert_eq!(
        recovery_dir_from(Some(xdg), Some(home.clone())).unwrap(),
        b"/tmp/wscrpt-test-xdg/wscrpt/recovery"
    );
    assert_eq!(
        recovery_dir_from(None, Some(home.clone())).unwrap(),
        b"/tmp/wscrpt-test-home/.local/state/wscrpt/recovery"
    );
    assert_eq!(
        recovery_dir_from(Some(b"relative/state".to_vec()), Some(home)).unwrap(),
        b"/tmp/wscrpt-test-home/.local/state/wscrpt/recovery"
    );
    assert!(matches!(
        recovery_dir_from(Some(Vec::new()), None),
        Err(RecoveryError::StateDirectoryUnavailable)
    ));
}

#[test]
fn generated_ids_are_unique_safe_filename_components() {
    let first = generate_id(parts(0));
    let second = generate_id(parts(1));
    assert_ne!(first, second);
    assert!(first.len() <= MAX_ID_BYTES);
    assert!(validate_id(&first).is_ok());
    assert!(first
        .bytes()
        .all(|byte| byte.is_ascii_alphanumeric() || matches!(byte, b'-' | b'_')));
}

#[test]
fn round_trip_list_load_and_remove_stays_inside_tempdir() {
    let store = RecoveryStore::new(b"/tmp/here/state/wscrpt/recovery".to_vec());
    let record = dirty_record("/tmp/here");

    let (path, text) = store.write(&record, Ok("encoded".to_owned())).unwrap();
    assert_eq!(path, b"/tmp/here/state/wscrpt/recovery/r-test-buffer-01.toml");
    assert!(path.starts_with(b"/tmp/here"));
    assert_eq!(text, "encoded\n");
    assert_eq!(store.journal_path(&record.id).unwrap(), path);
    let read = RecoveryStore::journal_text(&path, text.into_bytes(), 1024).unwrap();
    assert_eq!(read, "encoded\n");
    assert_eq!(RecoveryStore::accept(&record.id, record.clone()).unwrap(), record);
    assert_eq!(
        list(&store, vec![("r-test-buffer-01.toml", 7, Ok(record.clone()))]).records,
        vec![record]
    );
    assert!(list(&store, Vec::new()).records.is_empty());
}

#[test]
fn corrupt_journal_does_not_hide_valid_recovery_records() {
    let store = RecoveryStore::new(b"/tmp/journals".to_vec());
    let record = dirty_record("/tmp");
    let corrupt_path = b"/tmp/journals/r-corrupt.toml".to_vec();
    let corrupt =
        RecoveryError::Decode { path: corrupt_path.clone(), cause: "expected a value".to_owned() };

    let listing = list(
        &store,
        vec![
            ("r-corrupt.toml", 26, Err(corrupt)),
            ("r-test-buffer-01.toml", 300, Ok(record.clone())),
        ],
    );
    assert_eq!(listing.records, vec![record]);
    assert_eq!(listing.warnings.len(), 1);
    assert_eq!(listing.warnings[0].path, corrupt_path);
    assert!(listing.warnings[0].message.contains("decode"));
    assert!(!listing.is_clean());
}

#[test]
fn oversized_and_non_utf8_journals_are_skipped_with_warnings() {
    let store = RecoveryStore::new(b"/tmp/journals".to_vec());
    let record = dirty_record("/tmp");
    let oversized_path = b"/tmp/journals/r-oversized.toml".to_vec();
    let non_utf8_path = b"/tmp/journals/r-non-utf8.toml".to_vec();
    let oversized = RecoveryStore::check_journal_file(
        &oversized_path,
        true,
        MAX_RECOVERY_JOURNAL_BYTES + 1,
        MAX_RECOVERY_JOURNAL_BYTES,
    )
    .unwrap_err();
    assert!(matches!(oversized, RecoveryError::JournalTooLarge { .. }));
    let non_utf8 = RecoveryStore::journal_text(&non_utf8_path, vec![0xff, 0xfe], 1024).unwrap_err();
    assert!(matches!(non_utf8, RecoveryError::InvalidUtf8(_)));

    let listing = list(
        &store,
        vec![
            ("r-non-utf8.toml", 2, Err(non_utf8)),
            ("r-oversized.toml", MAX_RECOVERY_JOURNAL_BYTES + 1, Err(oversized)),
            ("r-test-buffer-01.toml", 300, Ok(record.clone())),
        ],
    );
    assert_eq!(listing.records, vec![record]);
    assert_eq!(listing.warnings.len(), 2);
    assert!(listing.warnings.iter().any(|warning| {
        warning.path == oversized_path && warning.message.contains("byte limit")
    }));
    assert!(listing
        .warnings
        .iter()
        .any(|warning| warning.path == non_utf8_path && warning.message.contains("UTF-8")));
}

#[test]
fn invalid_ids_and_clean_records_never_create_state() {
    let store = RecoveryStore::new(b"/tmp/journals".to_vec());
    let mut record = dirty_record("/tmp");

    record.id = "../../escape".to_owned();
    assert!(matches!(
        store.write(&record, Ok(String::new())),
        Err(RecoveryError::InvalidId(_))
    ));

    record.id = "safe-id".to_owned();
    record.saved_revision = Some(record.revision);
    assert!(matches!(
        store.write(&record, Ok(String::new())),
        Err(RecoveryError::InvalidRecord(_))
    ));
}

#[test]
fn character_offsets_are_checked_against_utf8_text() {
    let store = RecoveryStore::new(b"/tmp/journals".to_vec());
    let mut record = dirty_record("/tmp");
    record.text = "🪶".to_owned();
    record.cursor = 2;

    assert!(matches!(
        store.write(&record, Ok(String::new())),
        Err(RecoveryError::InvalidRecord(_))
    ));
}

#[test]
fn missing_directory_lists_empty_without_creating_it() {
    let store = RecoveryStore::new(b"/tmp/not-created".to_vec());
    assert!(list(&store, Vec::new()).is_clean());
    assert!(list(&store, Vec::new()).records.is_empty());
    assert_eq!(store.journal_path("safe-id").unwrap(), b"/tmp/not-created/safe-id.toml");
}

#[test]
fn records_are_listed_newest_first() {
    let store = RecoveryStore::new(b"/s".to_vec());
    let mut older = dirty_record("/w");
    older.id = "b".to_owned();
    let mut newer = dirty_record("/w");
    newer.id = "c".to_owned();
    newer.mark_recorded_now(200_000);
    let mut same = dirty_record("/w");
    same.id = "a".to_owned();
    let listing = list(
        &store,
        vec![
            ("b.toml", 1, Ok(older.clone())),
            ("c.toml", 1, Ok(newer.clone())),
            ("a.toml", 1, Ok(same.clone())),
        ],
    );
    assert_eq!(listing.records, vec![newer, same, older]);
}

#[test]
fn the_listing_has_a_byte_budget() {
    let store = RecoveryStore::new(b"/s".to_vec());
    let size = MAX_RECOVERY_JOURNAL_BYTES;
    let mut journals = Vec::new();
    for name in ["a.toml", "b.toml", "c.toml"] {
        let mut record = dirty_record("/w");
        record.id = name[..1].to_owned();
        journals.push((name, size, Ok(record)));
    }
    assert_eq!(MAX_RECOVERY_LIST_BYTES / size, 2);
    let listing = list(&store, journals);
    assert_eq!(listing.records.len(), 2);
    assert_eq!(listing.warnings.len(), 1);
}

#[test]
fn refused_records_say_why() {
    let mut record = dirty_record("/w");
    record.version = 2;
    assert_eq!(
        record.validate(),
        Err(RecoveryError::UnsupportedVersion { found: 2, supported: 1 })
    );
    assert!(matches!(
        RecoveryStore::accept("other", dirty_record("/w")),
        Err(RecoveryError::InvalidRecord(_))
    ));
    let path = b"/s/x.toml";
    assert!(matches!(
        RecoveryStore::check_journal_file(path, false, 1, 10),
        Err(RecoveryError::InvalidJournalFile(_))
    ));
    let store = RecoveryStore::new(b"/s".to_vec());
    assert_eq!(
        store.write(&dirty_record("/w"), Err("no".to_owned())),
        Err(RecoveryError::Encode("no".to_owned()))
    );
    assert!(matches!(
        RecoveryStore::from_env(None, None),
        Err(RecoveryError::StateDirectoryUnavailable)
    ));
    assert!(!RecoveryError::StateDirectoryUnavailable.describe().is_empty());
}

#[test]
fn filenames_carry_ids() {
    assert_eq!(journal_id_from_filename(b"safe-id.toml"), Some("safe-id".to_owned()));
    assert_eq!(journal_id_from_filename(b"../x.toml"), None);
    assert_eq!(journal_id_from_filename(b"safe-id.txt"), None);
    assert!(filename_has_journal_extension(b"not an id.toml"));
    assert!(!filename_has_journal_extension(b"plain"));
    let name = temporary_name("safe-id", 7, 3);
    assert!(name.contains("safe-id") && journal_id_from_filename(name.as_bytes()).is_none());
}

#[test]
fn a_restarted_service_outdates_its_old_events() {
    let mut services = ServiceCoordinator::new(5);
    let first = services.start(ServiceKind::Project);
    let second = services.start(ServiceKind::Project);
    assert_ne!(first, second);
    let stale: ServiceEvent<(), ()> = ServiceEvent::Project { tag: first, result: Ok(()) };
    let event: ServiceEvent<(), ()> = ServiceEvent::Project { tag: second, result: Ok(()) };
    assert!(!services.is_current(&stale));
    assert!(services.is_current(&event));
    assert_eq!(event.tag().generation, second.generation);
    let git: ServiceEvent<(), ()> =
        ServiceEvent::Git { tag: services.start(ServiceKind::Git), result: Ok(None) };
    assert_eq!(git.kind(), ServiceKind::Git);
    services.start(ServiceKind::Recovery);
    assert!(services.is_current(&git));
    assert!(services.is_current(&event));
    let foreign: ServiceEvent<(), ()> = ServiceEvent::Project {
        tag: ServiceTag { workspace_id: 6, generation: second.generation },
        result: Ok(()),
    };
    assert!(!services.is_current(&foreign));
    assert_eq!(services.start_all(), (3, 2, 2));
    services.cancel_all();
    assert!(!services.is_current(&git));
    assert!(!services.is_current(&event));
}

#[test]
fn a_recovery_snapshot_keeps_the_records_of_its_workspace() {
    let store = || RecoveryStore::new(b"/s".to_vec());
    let mut other = dirty_record("/elsewhere");
    other.id = "other".to_owned();
    let mut listing = RecoveryListing::default();
    listing.records = vec![dirty_record("/w"), other];
    let snapshot = recovery_snapshot(b"/w", Ok(store()), Ok(listing));
    assert_eq!(snapshot.listing.records, vec![dirty_record("/w")]);
    assert_eq!(snapshot.notice, None);

    for spelling in ["/w/", "//w", "/./w/.", "/w"] {
        let mut listing = RecoveryListing::default();
        listing.records = vec![dirty_record(spelling), dirty_record("/w/x"), dirty_record("w")];
        let snapshot = recovery_snapshot(b"/w", Ok(store()), Ok(listing.clone()));
        assert_eq!(snapshot.listing.records, vec![dirty_record(spelling)]);
    }

    let refused = || RecoveryError::StateDirectoryUnavailable;
    let snapshot = recovery_snapshot(b"/w", Ok(store()), Err(refused()));
    assert_eq!(
        snapshot.notice,
        Some(format!("Recovery scan unavailable: {}", refused().describe()))
    );
    let snapshot = recovery_snapshot(b"/w", Err(refused()), Err(refused()));
    assert!(snapshot.store.is_none());
    assert_eq!(snapshot.notice, Some(format!("Recovery unavailable: {}", refused().describe())));
}

#[test]
fn records_are_equal_by_the_components_of_their_paths() {
    assert_eq!(dirty_record("/w"), dirty_record("//w/"));
    assert_ne!(dirty_record("/w"), dirty_record("w"));
    let changes: [fn(&mut RecoveryRecord); 8] = [
        |record| record.version = 2,
        |record| record.id = "other".to_owned(),
        |record| record.original_path = None,
        |record| record.text = String::new(),
        |record| record.cursor = 9,
        |record| record.anchor = None,
        |record| record.saved_revision = None,
        |record| record.recorded_at_unix_millis = 1,
    ];
    for change in changes {
        let mut record = dirty_record("/w");
        change(&mut record);
        assert_ne!(record, dirty_record("/w"));
    }

    let store = |path: &str| RecoveryStore::new(path.as_bytes().to_vec());
    assert_eq!(store("/s"), store("/s/."));
    assert_ne!(store("/s"), store("/t"));

    let warning = |path: &str, message: &str| RecoveryWarning {
        path: path.as_bytes().to_vec(),
        message: message.to_owned(),
    };
    assert_eq!(warning("/s/a.toml", "bad"), warning("/s//a.toml", "bad"));
    assert_ne!(warning("/s/a.toml", "bad"), warning("/s/a.toml", "worse"));
}
