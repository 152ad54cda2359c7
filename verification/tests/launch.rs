use wscrpt::file_uri::{file_uri, file_uri_to_path, lexically_normalized_diagnostics_path};
use wscrpt::health::{
    command_candidates, command_exists, current_transport, health_report, HealthFacts,
};
use wscrpt::input_diagnostics::{
    describe_event, diagnostic_char, diagnostic_string, event_line, is_input_diagnostic_exit,
    InputEvent, KeyName, Modifiers,
};
use wscrpt::launch::{
    default_config_text, launch_paths, missing_root_notice, paints_now, poll_timeout,
    restored_buffers, restored_notice, restored_state, restored_top_line, EditorState,
    ViewportState,
};
use wscrpt::lsp_discover::{
    discover_language_servers, executable_candidates, known_language_servers, resolve_executable,
    suggested_config_snippets,
};
use wscrpt::onboarding::{
    mark_first_run_help_seen, onboarding_path, should_show_first_run_help, OnboardingFile,
};
use wscrpt::paths::{path_segments, same_path};

const NONE: Modifiers = Modifiers {
    shift: false,
    control: false,
    alt: false,
    super_key: false,
    hyper: false,
    meta: false,
};

fn key(code: KeyName, modifiers: Modifiers) -> InputEvent {
    InputEvent::Key {
        code,
        modifiers,
        kind: "Press".to_owned(),
        state: "KeyEventState(0x0)".to_owned(),
    }
}

#[test]
fn directory_becomes_workspace_root() {
    let (file, root) = launch_paths(Some(b"/tmp/dir".to_vec()), true, None).unwrap();
    assert!(file.is_none());
    assert_eq!(root.as_deref(), Some(&b"/tmp/dir"[..]));
}

#[test]
fn file_and_explicit_project_are_preserved() {
    let (file, root) =
        launch_paths(Some(b"src/main.rs".to_vec()), false, Some(b".".to_vec())).unwrap();
    assert_eq!(file, Some(b"src/main.rs".to_vec()));
    assert_eq!(root, Some(b".".to_vec()));
}

#[test]
fn health_command_probe_is_path_only_and_requires_an_executable_file() {
    let path = vec![b"/tmp/bin".to_vec()];
    assert_eq!(command_candidates("probe-tool", &path), vec![b"/tmp/bin/probe-tool".to_vec()]);
    assert!(!command_exists(&vec![false]));
    assert!(command_exists(&vec![false, true]));
    assert_eq!(
        command_candidates("/tmp/bin/probe-tool", &Vec::new()),
        vec![b"/tmp/bin/probe-tool".to_vec()]
    );
    assert!(command_candidates("", &path).is_empty());
}

#[test]
fn input_diagnostics_describe_keys_paste_and_exit_keys() {
    let control_g = key(KeyName::Char('g'), Modifiers { control: true, ..NONE });
    assert!(is_input_diagnostic_exit(&control_g));
    assert!(is_input_diagnostic_exit(&key(
        KeyName::Char('c'),
        Modifiers { control: true, shift: true, ..NONE },
    )));
    assert!(!is_input_diagnostic_exit(&key(KeyName::Esc, NONE)));

    assert_eq!(
        describe_event(&key(
            KeyName::Char('y'),
            Modifiers { control: true, alt: true, ..NONE },
        )),
        "key code=Char(y) modifiers=CONTROL|ALT kind=Press state=KeyEventState(0x0)"
    );
    assert_eq!(
        describe_event(&InputEvent::Paste("a\n\t🛠".to_owned())),
        "paste bytes=7 chars=4 text=a\\n\\t🛠"
    );
    assert_eq!(describe_event(&InputEvent::Resize(80, 24)), "resize cols=80 rows=24");
}

#[test]
fn session_restore_reopens_files_clamps_state_and_preserves_active_buffer() {
    let saved = EditorState {
        cursor: 99,
        anchor: Some(100),
        viewport: ViewportState { top_line: 99, top_wrap_char: 3, left_column: 7 },
    };
    // "one\n" has four characters and two lines, the last of them empty.
    assert_eq!(restored_top_line(99, 2), 1);
    let first = restored_state(saved, 4, 2, 4, 4);
    let second = EditorState {
        cursor: 2,
        anchor: Some(0),
        viewport: ViewportState { top_line: 0, top_wrap_char: 0, left_column: 0 },
    };
    let second = restored_state(second, 9, 3, 0, 2);

    let (active, skipped) = restored_buffers(&vec![Some(0), Some(1)], 1);
    assert_eq!(skipped, 0);
    assert_eq!(active, Some(1));
    assert_eq!(second.cursor, 2);
    assert_eq!(second.anchor, Some(0));
    assert_eq!(first.cursor, 4);
    assert_eq!(first.anchor, None);
    assert_eq!(first.viewport.top_line, 1);
    assert_eq!(first.viewport.top_wrap_char, 0);
    assert_eq!(first.viewport.left_column, 7);
}

#[test]
fn session_restore_skips_missing_files_without_creating_them() {
    let (active, skipped) = restored_buffers(&vec![None], 0);
    assert_eq!(skipped, 1);
    assert_eq!(active, None);
}

#[test]
fn resolve_executable_finds_sh_on_unix() {
    let path = vec![b"/usr/local/bin".to_vec(), b"/bin".to_vec()];
    assert_eq!(
        executable_candidates("sh", &path),
        vec![b"/usr/local/bin/sh".to_vec(), b"/bin/sh".to_vec()]
    );
    let resolved = resolve_executable("sh", &path, &vec![false, true]);
    assert!(resolved.is_some(), "expected sh on PATH");
    assert_eq!(resolved, Some(b"/bin/sh".to_vec()));
    assert_eq!(resolve_executable("sh", &path, &vec![false, false]), None);
}

#[test]
fn empty_command_is_rejected() {
    let path = vec![b"/bin".to_vec()];
    assert!(executable_candidates("", &path).is_empty());
    assert!(resolve_executable("", &path, &Vec::new()).is_none());
}

#[test]
fn missing_state_file_requests_first_run_help() {
    assert_eq!(
        onboarding_path(Some(b"/tmp/state".to_vec()), None).unwrap(),
        b"/tmp/state/wscrpt/onboarding.toml"
    );
    assert!(should_show_first_run_help(false, None));
    let saved = mark_first_run_help_seen(None).unwrap();
    assert!(!should_show_first_run_help(false, Some(saved)));
    assert!(!should_show_first_run_help(true, None));
    assert!(should_show_first_run_help(false, Some(OnboardingFile::default())));
    assert!(onboarding_path(None, None).is_err());
}

#[test]
fn known_servers_are_reported_where_they_resolve() {
    let known = known_language_servers();
    assert_eq!(known[0].argv0, "rust-analyzer");
    let mut resolved = vec![None; known.len()];
    resolved[0] = Some(b"/bin/rust-analyzer".to_vec());
    let found = discover_language_servers(&resolved);
    assert_eq!(found.len(), 1);
    assert_eq!(found[0].executable, b"/bin/rust-analyzer");
    resolved[0] = Some(b"/bin//rust-analyzer".to_vec());
    assert_eq!(discover_language_servers(&resolved), found);
    resolved[0] = Some(b"/usr/bin/rust-analyzer".to_vec());
    assert_ne!(discover_language_servers(&resolved), found);
    let snippets = suggested_config_snippets(&found);
    assert!(snippets.contains("rust-analyzer"));
    assert!(default_config_text(&snippets).contains(&snippets));
}

#[test]
fn restoring_is_put_into_words() {
    assert_eq!(restored_notice(b"/w", 0), ("Restored workspace /w".to_owned(), false));
    assert_eq!(
        restored_notice(b"/w", 2),
        ("Restored workspace /w; skipped 2 unavailable files".to_owned(), true)
    );
    assert!(missing_root_notice(b"/gone").contains("/gone"));
}

#[test]
fn frames_are_painted_no_faster_than_the_limit() {
    assert!(paints_now(true, 16_000));
    assert!(!paints_now(true, 15_999));
    assert!(!paints_now(false, 16_000));
    assert_eq!(poll_timeout(false, false, 0), 100_000);
    assert_eq!(poll_timeout(true, false, 0), 20_000);
    assert_eq!(poll_timeout(false, true, 6_000), 10_000);
}

#[test]
fn diagnostics_escape_and_cut_text() {
    assert_eq!(diagnostic_char('\\'), "\\\\");
    assert_eq!(diagnostic_char('\u{7}'), "\\u{0007}");
    assert_eq!(diagnostic_char('\u{85}'), "\\u{0085}");
    assert_eq!(diagnostic_string(&"x".repeat(81)), format!("{}...", "x".repeat(80)));
    assert_eq!(event_line(3, &InputEvent::FocusGained), "003 focus gained");
}

#[test]
fn health_is_reported_line_by_line() {
    let facts = HealthFacts {
        version: "0.1.0".to_owned(),
        term: None,
        lc_all: None,
        lc_ctype: None,
        lang: Some("C".to_owned()),
        mosh: false,
        ssh: true,
        tmux: false,
        git: true,
        rg: false,
        shell: None,
        config: None,
        session: Err("no state directory".to_owned()),
        discovered: Vec::new(),
        configured: None,
    };
    let report = health_report(&facts);
    assert!(report.contains("ssh"));
    assert!(report.contains("no state directory"));
    assert!(report.contains("warning=mosh and Unicode editing require a UTF-8 locale\n"));
    assert_eq!(current_transport(true, true), "mosh");
    assert_eq!(current_transport(false, true), "ssh");
    assert_eq!(current_transport(false, false), "local/unknown");
}

#[test]
fn file_uris_are_read_back() {
    let path = b"/a b/\xffz%.rs";
    let uri = file_uri(path);
    assert_eq!(uri, "file:///a%20b/%FFz%25.rs");
    assert_eq!(file_uri_to_path(&uri).unwrap(), path);
    assert!(file_uri_to_path("http://x/").is_err());
    assert!(file_uri_to_path("file:///a%2").is_err());
    assert_eq!(lexically_normalized_diagnostics_path(b"/a/./b/../c"), b"/a/c");
}

#[test]
fn file_uri_keeps_distinct_non_utf8_unix_path_identity() {
    let first = [b'/', b't', b'm', b'p', b'/', b'n', b'a', b'm', b'e', 0x80];
    let second = [b'/', b't', b'm', b'p', b'/', b'n', b'a', b'm', b'e', 0x81];
    let first_uri = file_uri(&first);
    let second_uri = file_uri(&second);
    assert_ne!(first_uri, second_uri);
    assert!(first_uri.ends_with("name%80"));
    assert!(second_uri.ends_with("name%81"));
    assert!(!first_uri.contains('\u{fffd}'));
    assert!(!second_uri.contains('\u{fffd}'));
}

#[test]
fn schemes_and_local_hosts_are_read_in_any_letter_case() {
    for uri in ["FILE:///a%20b", "file://LocalHost/a%20b", "File://localhost/a%20b"] {
        assert_eq!(file_uri_to_path(uri).unwrap(), b"/a b");
    }
    for uri in ["file://other/a", "file://localhost", "file:///a?b", "file:///a#b"] {
        assert!(file_uri_to_path(uri).is_err());
    }
}

#[test]
fn paths_are_compared_by_their_components() {
    assert_eq!(path_segments(b"/a//./b/../c/"), [&b"a"[..], b"b", b"..", b"c"]);
    assert!(same_path(b"/a/b/", b"/a//b"));
    assert!(same_path(b"a/./b", b"a/b"));
    assert!(!same_path(b"./a", b"a"));
    assert!(!same_path(b"/a", b"a"));
    assert!(!same_path(b"/a/../b", b"/b"));
    assert!(same_path(b"", b""));
}
