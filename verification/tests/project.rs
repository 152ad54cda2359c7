use std::collections::{BTreeMap, BTreeSet};

use wscrpt::fuzzy::{fuzzy_path_score, fuzzy_path_score_normalized, trim};
use wscrpt::project::{
    check_read_size, equal_ignoring_case, invalid_utf8_bytes, is_ignored_directory,
    is_ignored_file, is_probably_text, CollectedFiles, EntrySeen, ProjectIndex, ProjectTreeEntry,
    ReadRefusal, Walk, WalkLimits, MAX_INDEXED_FILES, MAX_INDEXED_PATH_BYTES, MAX_TREE_ENTRIES,
    MAX_TREE_PATH_BYTES,
};
use wscrpt::quick_open::{
    bounded_path_search, compare_paths, PathOrdering, QuickOpenMatch, MAX_RESULTS,
};

/// A workspace in memory: the contents of its files and its directories.
struct Workspace {
    files: BTreeMap<String, Vec<u8>>,
    directories: BTreeSet<String>,
}

impl Workspace {
    fn new() -> Self {
        Workspace { files: BTreeMap::new(), directories: BTreeSet::new() }
    }

    fn create_dir_all(&mut self, relative: &str) {
        let mut path = String::new();
        for part in relative.split('/') {
            if !path.is_empty() {
                path.push('/');
            }
            path.push_str(part);
            self.directories.insert(path.clone());
        }
    }

    fn write(&mut self, relative: &str, contents: impl AsRef<[u8]>) {
        if let Some((parent, _)) = relative.rsplit_once('/') {
            self.create_dir_all(parent);
        }
        self.files.insert(relative.to_owned(), contents.as_ref().to_vec());
    }

    fn names_in(&self, directory: &str) -> Vec<Vec<u8>> {
        let parent = |path: &str| match path.rsplit_once('/') {
            Some((parent, name)) => (parent.to_owned(), name.to_owned()),
            None => (String::new(), path.to_owned()),
        };
        self.files
            .keys()
            .chain(self.directories.iter())
            .map(|path| parent(path))
            .filter(|(above, _)| above == directory)
            .map(|(_, name)| name.into_bytes())
            .collect()
    }

    fn walk(&self, limits: WalkLimits) -> Walk<()> {
        let mut walk = Walk::new((), limits);
        while let Some(directory) = walk.next_directory() {
            let path = String::from_utf8(directory.relative.clone()).unwrap();
            let mut names = self.names_in(&path);
            let complete = names.len() <= walk.remaining_entries();
            names.truncate(walk.remaining_entries());
            for name in walk.enter(names, complete) {
                let text = String::from_utf8(name.clone()).unwrap();
                let whole = if path.is_empty() { text } else { format!("{path}/{text}") };
                let seen = match self.files.get(&whole) {
                    Some(contents) => EntrySeen::File(Some(is_probably_text(contents))),
                    None => EntrySeen::Directory,
                };
                walk.visit(&directory, &name, seen, ());
            }
            walk.leave(complete);
        }
        walk
    }

    fn index(&self) -> ProjectIndex {
        ProjectIndex::build(b"/work".to_vec(), self.walk(WalkLimits::default()))
    }
}

fn collect_files_with_limits(workspace: &Workspace, limits: WalkLimits) -> CollectedFiles {
    workspace.walk(limits).finish()
}

fn bytes(paths: &[&str]) -> Vec<Vec<u8>> {
    paths.iter().map(|path| path.as_bytes().to_vec()).collect()
}

fn display_path(path: &[u8]) -> String {
    String::from_utf8_lossy(path).into_owned()
}

fn score(query: &str, candidate: &str) -> i64 {
    fuzzy_path_score(query, candidate).unwrap()
}

fn walk_limits(files: usize, entries: usize, depth: usize) -> WalkLimits {
    WalkLimits {
        files,
        indexed_path_bytes: MAX_INDEXED_PATH_BYTES,
        tree_entries: MAX_TREE_ENTRIES,
        tree_path_bytes: MAX_TREE_PATH_BYTES,
        entries,
        depth,
    }
}

fn exhaustive_path_search(paths: &[Vec<u8>], query: &str, limit: usize) -> Vec<QuickOpenMatch> {
    let limit = limit.min(MAX_RESULTS);
    if limit == 0 {
        return Vec::new();
    }
    let query: Vec<char> = trim(&query.chars().collect::<Vec<char>>());
    if query.is_empty() {
        return paths
            .iter()
            .take(limit)
            .cloned()
            .map(|path| QuickOpenMatch { path, score: 0 })
            .collect();
    }

    let query: Vec<char> = query.iter().flat_map(|c| c.to_lowercase()).collect();
    let mut matches: Vec<QuickOpenMatch> = paths
        .iter()
        .filter_map(|path| {
            fuzzy_path_score_normalized(&query, &display_path(path))
                .map(|score| QuickOpenMatch { path: path.clone(), score })
        })
        .collect();
    matches.sort_by(|left, right| {
        right.score.cmp(&left.score).then_with(|| match compare_paths(&left.path, &right.path) {
            PathOrdering::Before => std::cmp::Ordering::Less,
            PathOrdering::Same => std::cmp::Ordering::Equal,
            PathOrdering::Behind => std::cmp::Ordering::Greater,
        })
    });
    matches.truncate(limit);
    matches
}

#[test]
fn indexes_text_files_in_deterministic_order_and_ignores_dependencies() {
    let mut project = Workspace::new();
    project.write("README.md", "hello\n");
    project.write("src/zeta.rs", "fn zeta() {}\n");
    project.write("src/alpha.rs", "fn alpha() {}\n");
    project.write(".github/workflows/check.yml", "name: check\n");
    project.write(".git/config", "[core]\n");
    project.write("target/debug/generated.rs", "ignored\n");
    project.write("node_modules/pkg/index.js", "ignored\n");
    project.write("image.png", [0x89, b'P', b'N', b'G', 0, 1, 2]);

    let index = project.index();
    assert_eq!(
        index.files(),
        &bytes(&[
            ".github/workflows/check.yml",
            "README.md",
            "src/alpha.rs",
            "src/zeta.rs",
        ])
    );
}

#[test]
fn explorer_snapshot_includes_binary_files_and_empty_directories() {
    let mut project = Workspace::new();
    project.write("README.md", "hello\n");
    project.write("assets/image.png", [0x89, b'P', b'N', b'G', 0, 1]);
    project.create_dir_all("empty/nested");
    project.write("target/hidden.bin", [0, 1]);

    let index = project.index();
    let paths: Vec<(String, bool)> = index
        .tree_entries()
        .iter()
        .map(|entry| (display_path(&entry.path), entry.is_directory))
        .collect();

    assert_eq!(
        paths,
        [
            ("assets".to_owned(), true),
            ("assets/image.png".to_owned(), false),
            ("empty".to_owned(), true),
            ("empty/nested".to_owned(), true),
            ("README.md".to_owned(), false),
        ]
    );
    assert!(index.contains_tree_path(b"assets/image.png"));
    assert!(index.contains_tree_path(b"empty/nested"));
    assert!(!index.contains_tree_path(b"target"));
    assert!(!index.files().contains(&b"assets/image.png".to_vec()));
    assert!(!index.is_tree_truncated());

    let matches = index.search_tree_files("image", usize::MAX);
    assert_eq!(matches.len(), 1);
    assert_eq!(matches[0].path, b"assets/image.png");
    assert!(index
        .search_tree_files("", usize::MAX)
        .iter()
        .all(|matched| !index
            .tree_entries()
            .iter()
            .find(|entry| entry.path == matched.path)
            .unwrap()
            .is_directory));
}

#[test]
fn refresh_finds_new_files() {
    let mut project = Workspace::new();
    project.write("one.rs", "one\n");
    let mut index = project.index();
    project.write("two.rs", "two\n");
    index.refresh(project.walk(WalkLimits::default()));
    assert_eq!(index.len(), 2);
    assert!(!index.is_truncated());
}

#[test]
fn traversal_limits_are_deterministic_and_report_partial_indexes() {
    let mut project = Workspace::new();
    project.write("c.rs", "c\n");
    project.write("a.rs", "a\n");
    project.write("b.rs", "b\n");

    let collected = collect_files_with_limits(&project, walk_limits(2, 10, 10));
    assert_eq!(collected.files, bytes(&["a.rs", "b.rs"]));
    assert!(collected.truncated);
    assert!(collected.files.len() <= 2);
    assert!(collected.files.len() <= MAX_INDEXED_FILES);
    assert_eq!(collected.tree_entries.len(), 3);
    assert!(!collected.tree_truncated);

    project.write("deep/inside/file.rs", "deep\n");
    let depth_limited = collect_files_with_limits(&project, walk_limits(10, 20, 1));
    assert!(depth_limited.truncated);
    assert!(!depth_limited.files.contains(&b"deep/inside/file.rs".to_vec()));
    assert!(depth_limited.tree_truncated);
}

#[test]
fn text_and_tree_retention_caps_are_independent_and_byte_bounded() {
    let mut project = Workspace::new();
    project.write("a.rs", "a\n");
    project.write("b.rs", "b\n");
    project.write("c.rs", "c\n");

    let mut tree_count_limits = walk_limits(10, 10, 10);
    tree_count_limits.tree_entries = 2;
    let tree_count_limited = collect_files_with_limits(&project, tree_count_limits);
    assert_eq!(tree_count_limited.files.len(), 3);
    assert!(!tree_count_limited.truncated);
    assert_eq!(tree_count_limited.tree_entries.len(), 2);
    assert!(tree_count_limited.tree_truncated);

    let one_path_budget = "a.rs".len();
    let mut tree_byte_limits = walk_limits(10, 10, 10);
    tree_byte_limits.tree_path_bytes = one_path_budget;
    let tree_byte_limited = collect_files_with_limits(&project, tree_byte_limits);
    assert_eq!(tree_byte_limited.files.len(), 3);
    assert_eq!(tree_byte_limited.tree_entries.len(), 1);
    assert_eq!(tree_byte_limited.tree_entries[0].path, b"a.rs");
    assert!(tree_byte_limited.tree_truncated);

    let mut index_byte_limits = walk_limits(10, 10, 10);
    index_byte_limits.indexed_path_bytes = one_path_budget;
    let index_byte_limited = collect_files_with_limits(&project, index_byte_limits);
    assert_eq!(index_byte_limited.files, bytes(&["a.rs"]));
    assert!(index_byte_limited.truncated);
    assert_eq!(index_byte_limited.tree_entries.len(), 3);
    assert!(!index_byte_limited.tree_truncated);
}

#[test]
fn indexed_file_retention_never_exceeds_the_global_hard_cap() {
    let limits = WalkLimits {
        files: usize::MAX,
        indexed_path_bytes: usize::MAX,
        tree_entries: 0,
        tree_path_bytes: 0,
        entries: usize::MAX,
        depth: usize::MAX,
    };
    let mut walk = Walk::new((), limits);
    let root = walk.next_directory().unwrap();
    for index in 0..=MAX_INDEXED_FILES {
        let name = format!("file-{index:05}.rs");
        walk.visit(&root, name.as_bytes(), EntrySeen::File(Some(true)), ());
    }
    walk.leave(true);
    let collected = walk.finish();

    assert_eq!(collected.files.len(), MAX_INDEXED_FILES);
    assert!(collected.truncated);
    let path_bytes: usize = collected.files.iter().map(|path| path.len()).sum();
    assert!(path_bytes <= MAX_INDEXED_PATH_BYTES);
}

#[test]
fn accepts_empty_and_utf8_files_but_rejects_binary_controls() {
    let mut project = Workspace::new();
    project.write("empty.txt", []);
    project.write("unicode.txt", "naïve 世界\n");
    project.write("binary.bin", [1, 2, 3, 4, 5, 6]);

    let index = project.index();
    assert_eq!(index.files(), &bytes(&["empty.txt", "unicode.txt"]));
}

#[test]
fn tree_file_reads_are_snapshot_gated_and_byte_bounded() {
    let mut project = Workspace::new();
    project.write("assets/data.bin", [0, 1, 2, 3, 4, 5]);
    let index = project.index();

    assert_eq!(index.tree_read_limit(b"assets/data.bin", 6), Ok(6));
    assert_eq!(check_read_size(6, 6, 6), Ok(()));
    assert_eq!(index.tree_read_limit(b"assets/data.bin", 5), Ok(5));
    assert_eq!(check_read_size(6, 5, 5), Err(ReadRefusal::TooLarge { bytes: 6, limit: 5 }));
    assert_eq!(check_read_size(5, 6, 5), Err(ReadRefusal::Grew { limit: 5 }));
    assert_eq!(index.tree_read_limit(b"assets", 6), Err(ReadRefusal::IsDirectory));
    assert_eq!(index.tree_read_limit(b"missing.bin", 6), Err(ReadRefusal::NotInTree));
}

#[test]
fn indexed_file_reads_use_text_membership_not_the_independent_tree_snapshot() {
    let mut project = Workspace::new();
    project.write("src/value.txt", "trusted text\n");
    let mut limits = WalkLimits::default();
    limits.tree_entries = 0;
    let index = ProjectIndex::build(b"/work".to_vec(), project.walk(limits));
    assert!(index.is_tree_truncated());

    assert_eq!(index.indexed_read_limit(b"src/value.txt", 1024), Ok(1024));
    assert_eq!(check_read_size(13, 13, 1024), Ok(()));
    assert!(index.tree_read_limit(b"src/value.txt", 1024).is_err());
    assert_eq!(
        index.indexed_read_limit(b"src/not-indexed.txt", 1024),
        Err(ReadRefusal::NotIndexed)
    );
    assert_eq!(
        check_read_size(13, 4, index.indexed_read_limit(b"src/value.txt", 4).unwrap()),
        Err(ReadRefusal::TooLarge { bytes: 13, limit: 4 })
    );
}

#[test]
fn zero_entry_scan_limit_inspects_and_retains_no_workspace_entries() {
    let mut project = Workspace::new();
    project.write("a.rs", "a\n");
    let collected = collect_files_with_limits(&project, walk_limits(10, 0, 10));

    assert!(collected.files.is_empty());
    assert!(collected.tree_entries.is_empty());
    assert!(collected.truncated);
    assert!(collected.tree_truncated);
}

#[test]
fn lossy_colliding_non_utf8_paths_have_a_raw_deterministic_order() {
    let first = vec![b'a', 0x80, b'.', b'r', b's'];
    let second = vec![b'a', 0x81, b'.', b'r', b's'];

    assert_eq!(display_path(&first), display_path(&second));
    assert_eq!(compare_paths(&first, &second), PathOrdering::Before);

    let mut walk = Walk::new((), WalkLimits::default());
    let root = walk.next_directory().unwrap();
    let names = walk.enter(vec![second.clone(), first.clone()], true);
    assert_eq!(names, [first.clone(), second.clone()]);
    walk.visit(&root, &second, EntrySeen::File(Some(true)), ());
    walk.visit(&root, &first, EntrySeen::File(Some(true)), ());
    walk.leave(true);
    let index = ProjectIndex::build(b"/".to_vec(), walk);
    assert_eq!(index.files(), &[first.clone(), second.clone()]);
    let entries: Vec<Vec<u8>> =
        index.tree_entries().iter().map(|entry| entry.path.clone()).collect();
    assert_eq!(entries, [first.clone(), second.clone()]);
    let found: Vec<Vec<u8>> =
        index.search("a", MAX_RESULTS).into_iter().map(|matched| matched.path).collect();
    assert_eq!(found, [first, second]);
}

#[test]
fn fuzzy_matching_is_case_insensitive_and_requires_order() {
    assert!(fuzzy_path_score("PRJ", "src/project.rs").is_some());
    assert!(fuzzy_path_score("rés", "docs/RÉsumÉ.md").is_some());
    assert_eq!(fuzzy_path_score("zxy", "src/xyz.rs"), None);
}

#[test]
fn fuzzy_matching_rewards_consecutive_and_boundary_matches() {
    assert!(score("pro", "src/project.rs") > score("pro", "src/p_r_o.rs"));
    assert!(score("project", "src/project.rs") > score("project", "project/archive.rs"));
    assert!(score("main", "src/main.rs") > score("main", "src/domain_mainland.rs"));
}

#[test]
fn exact_path_filename_and_stem_receive_strong_bonuses() {
    assert!(score("src/main.rs", "src/main.rs") > score("src/main.rs", "old/src/main.rs"));
    assert!(score("main.rs", "src/main.rs") > score("main.rs", "src/main.rs.bak"));
    assert!(score("main", "src/main.rs") > score("main", "src/mainland.rs"));
}

#[test]
fn search_is_ranked_deterministic_and_bounded() {
    let mut project = Workspace::new();
    for index in 0..(MAX_RESULTS + 25) {
        project.write(&format!("src/item_{index:03}.rs"), "text\n");
    }
    project.write("item.rs", "best\n");

    let index = project.index();
    let results = index.search("item", usize::MAX);
    assert_eq!(results.len(), MAX_RESULTS);
    assert_eq!(results[0].path, b"item.rs");

    let tied = index.search("", 3);
    assert_eq!(tied.len(), 3);
    assert!(tied.windows(2).all(|pair| pair[0].path < pair[1].path));
    assert!(index.search("item", 0).is_empty());
    assert_eq!(index.quick_open("item").len(), 40);
}

#[test]
fn explorer_search_reports_omitted_matches_without_retaining_them() {
    let mut project = Workspace::new();
    for index in 0..(MAX_RESULTS + 25) {
        project.write(&format!("src/match_{index:03}.bin"), [0, 1, 2]);
    }
    let index = project.index();

    let results = index.search_tree_files_with_metadata("match", MAX_RESULTS);
    assert_eq!(results.matches.len(), MAX_RESULTS);
    assert!(results.has_more);

    let all = index.search_tree_files_with_metadata("does-not-exist", MAX_RESULTS);
    assert!(all.matches.is_empty());
    assert!(!all.has_more);
}

#[test]
fn bounded_top_k_search_matches_exhaustive_ranking() {
    let paths: Vec<Vec<u8>> = (0..500)
        .map(|index| {
            format!(
                "src/{}/item_{index:03}_{}.rs",
                if index % 3 == 0 { "deep" } else { "flat" },
                if index % 7 == 0 { "Main" } else { "helper" }
            )
            .into_bytes()
        })
        .collect();

    for query in ["", "item", "MAIN", "src/deep", "helper", "not-present"] {
        for limit in [0, 1, 7, MAX_RESULTS, usize::MAX] {
            assert_eq!(
                bounded_path_search(&paths, query, limit),
                exhaustive_path_search(&paths, query, limit),
                "query={query:?}, limit={limit}"
            );
        }
    }
}

#[test]
fn path_separators_are_normalized_for_matching() {
    assert_eq!(
        fuzzy_path_score("src/main", "src\\main.rs"),
        fuzzy_path_score("src/main", "src/main.rs")
    );
}

#[test]
fn a_failed_directory_or_entry_makes_the_walk_partial() {
    let mut walk = Walk::new((), WalkLimits::default());
    walk.next_directory().unwrap();
    walk.directory_failed();
    let collected = walk.finish();
    assert!(collected.truncated && collected.tree_truncated);

    let mut walk = Walk::new((), WalkLimits::default());
    let root = walk.next_directory().unwrap();
    walk.visit(&root, b"unread.txt", EntrySeen::File(None), ());
    walk.visit(&root, b"socket", EntrySeen::Other, ());
    let collected = walk.finish();
    assert!(collected.truncated && !collected.tree_truncated);
    assert_eq!(collected.tree_entries.len(), 1);
}

#[test]
fn names_and_samples_are_judged() {
    assert!(equal_ignoring_case(b"Node_Modules", b"node_modules"));
    assert!(is_ignored_directory(b".git"));
    assert!(!is_ignored_directory(b"src"));
    assert!(!is_ignored_file(b"main.rs"));
    assert_eq!(invalid_utf8_bytes(b"ok"), 0);
    assert_eq!(invalid_utf8_bytes(b"a\xffb\xfe"), 2);
    assert!(is_probably_text(b""));
    assert!(!is_probably_text(b"a\0"));
}

#[test]
fn refused_reads_are_put_into_words() {
    for refusal in [
        ReadRefusal::NotInTree,
        ReadRefusal::IsDirectory,
        ReadRefusal::NotIndexed,
        ReadRefusal::TooLarge { bytes: 6, limit: 5 },
    ] {
        assert!(refusal.describe(b"a/b.txt").contains("a/b.txt"));
    }
    let mut project = Workspace::new();
    project.write("a/b.txt", "x");
    let index = project.index();
    assert_eq!(index.absolute_path(b"a/b.txt"), b"/work/a/b.txt");
    assert_eq!(index.root(), b"/work");
    assert!(index.contains_tree_file(b"a/b.txt"));
    assert!(!index.contains_tree_file(b"a"));
    assert!(!index.is_empty());
}

#[test]
fn a_directory_is_opened_below_the_handle_of_its_parent() {
    let mut walk = Walk::new("root".to_owned(), WalkLimits::default());
    let root = walk.next_directory().unwrap();
    assert_eq!((root.handle.as_str(), &root.name), ("root", &None));
    walk.visit(&root, b"a", EntrySeen::Directory, "opened root".to_owned());
    walk.visit(&root, b"b", EntrySeen::Directory, "opened root".to_owned());
    walk.leave(true);
    let a = walk.next_directory().unwrap();
    assert_eq!((a.handle.as_str(), a.name.as_deref()), ("opened root", Some(&b"a"[..])));
    walk.visit(&a, b"c", EntrySeen::Directory, "opened a".to_owned());
    walk.leave(true);
    let c = walk.next_directory().unwrap();
    assert_eq!((c.handle.as_str(), c.relative.as_slice()), ("opened a", &b"a/c"[..]));
    walk.leave(true);
    let b = walk.next_directory().unwrap();
    assert_eq!((b.handle.as_str(), b.relative.as_slice()), ("opened root", &b"b"[..]));
    walk.leave(true);
    assert!(walk.next_directory().is_none());
}

#[test]
fn a_copied_index_is_equal() {
    let mut project = Workspace::new();
    project.write("src/a.rs", "a");
    let index = project.index();
    assert_eq!(index.clone(), index);
    project.write("src/b.rs", "b");
    assert_ne!(project.index(), index);
}

#[test]
fn entries_are_equal_by_the_components_of_their_paths() {
    let entry = |path: &str, is_directory: bool| ProjectTreeEntry {
        path: path.as_bytes().to_vec(),
        is_directory,
    };
    assert_eq!(entry("src/a.rs", false), entry("src//./a.rs", false));
    assert_ne!(entry("src/a.rs", false), entry("src/b.rs", false));
    assert_ne!(entry("src", true), entry("src", false));
    let ranked = |path: &str, score: i64| QuickOpenMatch { path: path.as_bytes().to_vec(), score };
    assert_eq!(ranked("src/a.rs", 3), ranked("src/a.rs/", 3));
    assert_ne!(ranked("src/a.rs", 3), ranked("./src/a.rs", 3));
    assert_ne!(ranked("src/a.rs", 3), ranked("src/a.rs", 4));
}
