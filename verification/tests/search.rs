use wscrpt::pattern::PatternError;
use wscrpt::search::{
    bounded_preview, find_case_insensitive, increment_nonzero, looks_binary, start_search,
    FileRead, ScanStep, SearchGeneration, SearchMatch, SearchOutcome, SearchQuery,
    SearchRequestSender, SearchResult, SearchScanLimits, SearchStart, SearchToken,
    SearchWorkerDisconnected, MAX_MATCHES_TOTAL, MAX_PREVIEW_CHARS,
};

/// The files of a workspace, in the order of its index. `None` cannot be read.
struct Files(Vec<(&'static str, Option<Vec<u8>>)>);

impl Files {
    fn new() -> Self {
        Files(Vec::new())
    }

    fn write(&mut self, path: &'static str, contents: impl AsRef<[u8]>) {
        let contents = contents.as_ref().to_vec();
        match self.0.iter_mut().find(|(name, _)| *name == path) {
            Some(file) => file.1 = Some(contents),
            None => self.0.push((path, Some(contents))),
        }
        self.0.sort();
    }

    fn remove(&mut self, path: &'static str) {
        self.0.iter_mut().find(|(name, _)| *name == path).unwrap().1 = None;
    }
}

fn search_with_limits(
    files: &Files,
    query: &SearchQuery,
    cancelled: bool,
    limits: SearchScanLimits,
) -> SearchOutcome {
    let mut scan = match start_search(query, false, true, cancelled, limits) {
        SearchStart::Done(outcome) => return outcome,
        SearchStart::Scan(scan) => scan,
    };
    for (path, contents) in &files.0 {
        let read = match contents {
            None => FileRead::Failed,
            Some(bytes) if bytes.len() as u64 > scan.read_limit() => FileRead::TooLarge,
            Some(bytes) => FileRead::Bytes(bytes.clone()),
        };
        match scan.scan_file(path.as_bytes(), read, true, &|| cancelled) {
            ScanStep::Continue => {}
            ScanStep::Stop => return scan.finish(true, cancelled),
            ScanStep::Cancelled => return scan.abandon(),
        }
    }
    scan.finish(true, cancelled)
}

fn search_project_cancellable(
    files: &Files,
    query: &SearchQuery,
    token: &SearchToken,
    generation: &SearchGeneration,
) -> SearchOutcome {
    let cancelled = token.is_cancelled(generation);
    search_with_limits(files, query, cancelled, SearchScanLimits::default())
}

fn search_project(files: &Files, query: &SearchQuery) -> Vec<SearchMatch> {
    search_with_limits(files, query, false, SearchScanLimits::default()).matches
}

#[test]
fn unicode_positions_use_scalar_columns_and_original_byte_ranges() {
    let mut project = Files::new();
    let contents = "heading\nnaïve 🦀 Café and café\n世界\n";
    project.write("notes/Unicode.txt", contents);

    let matches = search_project(&project, &SearchQuery::new("CAFÉ"));
    assert_eq!(matches.len(), 2);
    let expected_start = contents.find("Café").unwrap();
    assert_eq!(matches[0].path, b"notes/Unicode.txt");
    assert_eq!(matches[0].line, 1);
    assert_eq!(matches[0].char_column, 8);
    assert_eq!(
        matches[0].byte_range,
        expected_start..expected_start + "Café".len()
    );
    assert_eq!(matches[0].preview, "naïve 🦀 Café and café");
}

#[test]
fn case_sensitive_option_is_literal() {
    let mut project = Files::new();
    project.write("case.txt", "Rust rust RUST\n");

    let exact = SearchQuery::new("Rust").with_case_sensitive(true);
    assert_eq!(search_project(&project, &exact).len(), 1);
    assert_eq!(search_project(&project, &SearchQuery::new("rust")).len(), 3);
}

#[test]
fn std_case_fold_handles_multi_scalar_unicode() {
    let mut project = Files::new();
    project.write("street.txt", "Straße STRASSE ΟΣ ος\n");

    let streets = search_project(&project, &SearchQuery::new("strasse"));
    assert_eq!(streets.len(), 2);
    assert_eq!(&"Straße STRASSE"[streets[0].byte_range.clone()], "Straße");

    let sigma = search_project(&project, &SearchQuery::new("ΟΣ"));
    assert_eq!(sigma.len(), 2);
}

#[test]
fn skips_binary_and_invalid_utf8_that_changed_after_indexing() {
    let mut project = Files::new();
    project.write("good.txt", "needle\n");
    project.write("binary.txt", "needle\n");
    project.write("invalid.txt", "needle\n");

    project.write("binary.txt", b"needle\0needle\n");
    project.write("invalid.txt", [b'n', b'e', 0xff, b'd', b'l', b'e']);
    let matches = search_project(&project, &SearchQuery::new("needle"));

    assert_eq!(matches.len(), 1);
    assert_eq!(matches[0].path, b"good.txt");
}

#[test]
fn per_file_total_and_hard_limits_are_enforced() {
    let mut project = Files::new();
    project.write("a.txt", "hit hit hit hit\n");
    project.write("b.txt", "hit hit hit hit\n");

    let matches = search_project(&project, &SearchQuery::new("hit").with_limits(2, 3));
    assert_eq!(matches.len(), 3);
    assert_eq!(matches.iter().filter(|found| found.path == b"a.txt").count(), 2);
    assert_eq!(matches.iter().filter(|found| found.path == b"b.txt").count(), 1);

    let query = SearchQuery {
        max_matches_per_file: usize::MAX,
        max_matches_total: usize::MAX,
        ..SearchQuery::new("hit")
    };
    assert!(search_project(&project, &query).len() <= MAX_MATCHES_TOTAL);
}

#[test]
fn occurrence_caps_report_only_genuinely_omitted_matches() {
    let mut exact = Files::new();
    exact.write("only.txt", "hit hit\n");
    let generations = SearchGeneration::new();
    let exact_outcome = search_project_cancellable(
        &exact,
        &SearchQuery::new("hit").with_case_sensitive(true).with_limits(2, 2),
        &generations.token(),
        &generations,
    );
    assert_eq!(exact_outcome.matches.len(), 2);
    assert!(!exact_outcome.truncated);

    let mut per_file = Files::new();
    per_file.write("only.txt", "hit hit hit\n");
    let per_file_outcome = search_project_cancellable(
        &per_file,
        &SearchQuery::new("hit").with_case_sensitive(true).with_limits(2, 10),
        &generations.token(),
        &generations,
    );
    assert_eq!(per_file_outcome.matches.len(), 2);
    assert!(per_file_outcome.truncated);

    let mut total = Files::new();
    total.write("a.txt", "hit hit\n");
    total.write("b.txt", "hit\n");
    let total_outcome = search_project_cancellable(
        &total,
        &SearchQuery::new("hit").with_case_sensitive(true).with_limits(10, 2),
        &generations.token(),
        &generations,
    );
    assert_eq!(total_outcome.matches.len(), 2);
    assert!(total_outcome.truncated);
}

#[test]
fn zero_occurrence_caps_probe_for_omitted_matches() {
    let mut matching = Files::new();
    matching.write("one.txt", "hit\n");
    let generations = SearchGeneration::new();
    for query in [
        SearchQuery::new("hit").with_case_sensitive(true).with_limits(0, 10),
        SearchQuery::new("hit").with_case_sensitive(true).with_limits(10, 0),
    ] {
        let outcome =
            search_project_cancellable(&matching, &query, &generations.token(), &generations);
        assert!(outcome.matches.is_empty());
        assert!(outcome.truncated);
    }

    let mut nonmatching = Files::new();
    nonmatching.write("one.txt", "miss\n");
    let outcome = search_project_cancellable(
        &nonmatching,
        &SearchQuery::new("hit").with_limits(0, 0),
        &generations.token(),
        &generations,
    );
    assert!(outcome.matches.is_empty());
    assert!(!outcome.truncated);
}

#[test]
fn indexed_file_read_failure_is_visible_as_partial_search() {
    let mut project = Files::new();
    project.write("gone.txt", "needle\n");
    project.remove("gone.txt");
    let generations = SearchGeneration::new();

    let outcome = search_project_cancellable(
        &project,
        &SearchQuery::new("needle"),
        &generations.token(),
        &generations,
    );

    assert!(outcome.matches.is_empty());
    assert!(outcome.truncated);
    assert!(!outcome.cancelled);
}

#[test]
fn byte_scan_limits_return_valid_partial_results_and_report_truncation() {
    let mut project = Files::new();
    project.write("a.txt", "needle\n");
    project.write("b.txt", "needle\n");

    let skipped = search_with_limits(
        &project,
        &SearchQuery::new("needle"),
        false,
        SearchScanLimits { file_bytes: 6, total_bytes: 100 },
    );
    assert!(skipped.matches.is_empty());
    assert!(skipped.truncated);
    assert!(!skipped.cancelled);

    let partial = search_with_limits(
        &project,
        &SearchQuery::new("needle"),
        false,
        SearchScanLimits { file_bytes: 100, total_bytes: 7 },
    );
    assert_eq!(partial.matches.len(), 1);
    assert_eq!(partial.matches[0].path, b"a.txt");
    assert!(partial.truncated);
    assert!(!partial.cancelled);

    let mut exact = Files::new();
    exact.write("a.txt", "needle\n");
    exact.write("z-empty.txt", "");
    let exact_outcome = search_with_limits(
        &exact,
        &SearchQuery::new("needle"),
        false,
        SearchScanLimits { file_bytes: 100, total_bytes: 7 },
    );
    assert_eq!(exact_outcome.matches.len(), 1);
    assert!(!exact_outcome.truncated);

    let mut disappeared = Files::new();
    disappeared.write("a-gone.txt", "indexed then removed\n");
    disappeared.write("b-fit.txt", "x");
    disappeared.remove("a-gone.txt");
    let continued = search_with_limits(
        &disappeared,
        &SearchQuery::new("x"),
        false,
        SearchScanLimits { file_bytes: 100, total_bytes: 1 },
    );
    assert_eq!(continued.matches.len(), 1);
    assert_eq!(continued.matches[0].path, b"b-fit.txt");
    assert!(continued.truncated);

    let mut aggregate = Files::new();
    aggregate.write("a-too-large.txt", "xx");
    aggregate.write("b-would-fit.txt", "x");
    let stopped = search_with_limits(
        &aggregate,
        &SearchQuery::new("x"),
        false,
        SearchScanLimits { file_bytes: 100, total_bytes: 1 },
    );
    assert!(stopped.matches.is_empty());
    assert!(stopped.truncated);
}

#[test]
fn a_superseded_generation_cancels_synchronous_search() {
    let mut project = Files::new();
    project.write("large.txt", "find me\n".repeat(10_000));
    let mut generations = SearchGeneration::new();
    let old = generations.next();
    let _new = generations.next();

    let outcome =
        search_project_cancellable(&project, &SearchQuery::new("find"), &old, &generations);
    assert!(outcome.cancelled);
    assert!(outcome.matches.is_empty());
}

#[test]
fn worker_results_have_ids_and_latest_receive_discards_stale_work() {
    let mut project = Files::new();
    project.write("many.txt", "old value\n".repeat(20_000));
    project.write("one.txt", "the newest needle\n");
    let mut worker = SearchRequestSender::new();

    let old_id = worker.send(SearchQuery::new("old value")).unwrap();
    let new_id = worker.send(SearchQuery::new("newest needle")).unwrap();
    assert!(new_id > old_id);

    let request = worker.take_newest().unwrap();
    let result = SearchResult {
        query_id: request.query_id,
        matches: search_project(&project, &request.query),
        truncated: false,
    };
    assert!(worker.take_newest().is_none());
    assert_eq!(result.query_id, new_id);
    assert_eq!(result.matches.len(), 1);
    assert_eq!(result.matches[0].path, b"one.txt");
    assert!(!result.is_stale(worker.latest_query_id().unwrap()));
    assert!(result.is_relevant(worker.latest_query_id()));
    assert!(worker.is_superseded(old_id));
}

#[test]
fn cancelling_a_worker_supersedes_even_an_already_completed_result_id() {
    let mut project = Files::new();
    project.write("one.txt", "needle\n");
    let mut worker = SearchRequestSender::new();
    let request_id = worker.send(SearchQuery::new("needle")).unwrap();
    let request = worker.take_newest().unwrap();
    let completed = SearchResult {
        query_id: request.query_id,
        matches: search_project(&project, &request.query),
        truncated: false,
    };
    assert_eq!(completed.query_id, request_id);

    worker.cancel();

    assert!(completed.is_stale(worker.latest_query_id().unwrap()));
}

#[test]
fn long_previews_remain_bounded_and_contain_the_match() {
    let mut project = Files::new();
    let line = format!("{}needle{}\n", "前".repeat(400), "後".repeat(400));
    project.write("long.txt", &line);

    let found = search_project(&project, &SearchQuery::new("needle"));
    assert_eq!(found.len(), 1);
    assert!(found[0].preview.contains("needle"));
    assert!(found[0].preview.chars().count() <= MAX_PREVIEW_CHARS + 2);
    assert_eq!(found[0].char_column, 400);
}

#[test]
fn expressions_are_searched_line_by_line_positions() {
    let mut project = Files::new();
    project.write("a.rs", "fn one() {}\r\nfn two() {}\n");
    let found = search_project(&project, &SearchQuery::new(r"re:fn \w+"));
    assert_eq!(found.len(), 2);
    assert_eq!((found[1].line, found[1].char_column), (1, 0));
    assert_eq!(found[0].preview, "fn one() {}");
    assert_eq!(found[1].byte_range, 13..19);
}

#[test]
fn a_query_that_cannot_be_compiled_finds_nothing() {
    let mut project = Files::new();
    project.write("a.txt", "(");
    let query = SearchQuery::new("re:(");
    assert!(matches!(query.compile_pattern(), Err(PatternError::InvalidRegex { .. })));
    let outcome = search_with_limits(&project, &query, false, SearchScanLimits::default());
    assert!(outcome.matches.is_empty());
    assert!(!outcome.cancelled);
    assert!(SearchQuery::new("").is_empty());
    assert_eq!(SearchQuery::new("x").with_limits(9_999, 9_999).limits(), (500, 5_000));
}

#[test]
fn small_helpers_have_exact_values() {
    let line: Vec<char> = "short line".chars().collect();
    assert_eq!(bounded_preview(&line, 6, 4), "short line");
    assert!(looks_binary(b"a\0b"));
    assert!(!looks_binary("text é\n".as_bytes()));
    assert_eq!(increment_nonzero(4), 5);
    assert_eq!(increment_nonzero(u64::MAX), 1);
    assert_eq!(
        find_case_insensitive("Ab aB", &['a', 'b'], 10, &|| false),
        Some(vec![0..2, 3..5])
    );
    assert_eq!(find_case_insensitive("Ab aB", &['a', 'b'], 1, &|| false), Some(vec![0..2]));
    assert_eq!(find_case_insensitive("Ab aB", &['a', 'b'], 1, &|| true), None);
}

#[test]
fn a_stopped_sender_refuses_requests() {
    let mut sender = SearchRequestSender::new();
    assert_eq!(sender.latest_query_id(), None);
    sender.stop();
    assert!(sender.is_stopped());
    assert!(matches!(sender.send(SearchQuery::new("x")), Err(SearchWorkerDisconnected)));
    assert_eq!(SearchWorkerDisconnected.describe(), "project search worker has stopped");
}

#[test]
fn anchored_expressions_match_only_where_a_line_starts() {
    let mut project = Files::new();
    project.write("a.txt", "aaa\naa\n");
    let found = search_project(&project, &SearchQuery::new("re:^a"));
    let starts: Vec<usize> = found.iter().map(|entry| entry.byte_range.start).collect();
    assert_eq!(starts, [0, 4]);
}

#[test]
fn tokens_stay_cancelled() {
    let mut generations = SearchGeneration::new();
    let first = generations.next();
    assert!(!first.is_cancelled(&generations));
    assert!(!generations.token().is_cancelled(&generations));
    generations.cancel();
    assert!(first.is_cancelled(&generations));
    let second = generations.next();
    assert!(first.is_cancelled(&generations));
    assert!(!second.is_cancelled(&generations));
    assert_eq!(generations.current(), 3);
}

#[test]
fn text_is_not_searched_once_cancelled() {
    let query = SearchQuery::new("a");
    let SearchStart::Scan(mut scan) =
        start_search(&query, false, true, false, SearchScanLimits::default())
    else {
        panic!("the search did not start")
    };
    let text = FileRead::Bytes(b"aaa".to_vec());
    assert_eq!(scan.scan_file(b"a.txt", text, true, &|| true), ScanStep::Cancelled);
    let binary = FileRead::Bytes(b"a\0".to_vec());
    assert_eq!(scan.scan_file(b"b.bin", binary, true, &|| true), ScanStep::Continue);
    let outcome = scan.abandon();
    assert_eq!(outcome.clone(), outcome);
    assert!(outcome.matches.is_empty());
}

#[test]
fn matches_are_equal_by_the_components_of_their_paths() {
    let found = |path: &str, end: usize| SearchMatch {
        path: path.as_bytes().to_vec(),
        line: 1,
        char_column: 2,
        byte_range: 3..end,
        preview: "a needle".to_owned(),
    };
    assert_eq!(found("src/a.rs", 9), found("src//a.rs", 9));
    assert_ne!(found("src/a.rs", 9), found("src/b.rs", 9));
    assert_ne!(found("src/a.rs", 9), found("src/a.rs", 8));
}
