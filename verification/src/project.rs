//! The snapshot of a workspace: which directories are walked, which entries are
//! kept, and what is read back from the snapshot.
use vstd::prelude::*;
use vstd::slice::slice_subrange;
use vstd::utf8::*;

use crate::order::{
    law_sorted_is_unique, sort, sort_unique, sorted_by, strictly_sorted, tells_apart, views, Order,
};
use crate::paths::{
    component_views, copy_bytes, copy_list, display_path, is_absolute, is_same_path, lossy_text,
    path_join, push_bytes, same_path,
};
use crate::quick_open::{
    bounded_path_search, bytes_before, compare_paths, is_bytes_before, lemma_bytes_order_total,
    lemma_bytes_order_transitive, lemma_path_order_total, lemma_path_order_transitive, path_before,
    path_views, ranked_of, search_results, BoundedSearchResults, PathOrder, PathOrdering,
    PathSearch, QuickOpenMatch, DEFAULT_RESULT_LIMIT,
};
use crate::search::{binary, looks_binary};
use crate::text::{
    decimal, lemma_text_order_total, lemma_text_order_transitive, order_of, push_decimal,
    text_before, TextOrder,
};

verus! {

/// Maximum number of text files retained in one workspace index.
pub const MAX_INDEXED_FILES: usize = 50_000;

/// Maximum aggregate encoded bytes retained by the text-file index paths.
pub const MAX_INDEXED_PATH_BYTES: usize = 32 * 1024 * 1024;

/// Maximum number of directories and regular files retained for the explorer.
pub const MAX_TREE_ENTRIES: usize = 100_000;

/// Maximum aggregate encoded bytes retained by explorer paths.
pub const MAX_TREE_PATH_BYTES: usize = 64 * 1024 * 1024;

/// Maximum bytes returned by one bounded explorer-file read.
pub const MAX_TREE_FILE_READ_BYTES: u64 = 64 * 1024 * 1024;

/// Maximum number of directory entries inspected while building an index.
pub const MAX_SCANNED_ENTRIES: usize = 200_000;

/// Maximum directory nesting traversed below the workspace root.
pub const MAX_DIRECTORY_DEPTH: usize = 64;

/// How much of a file is read to tell whether it is text.
pub const TEXT_SAMPLE_BYTES: u64 = 8 * 1024;

/// Longest path that is kept.
pub const MAX_RELATIVE_PATH_BYTES: usize = 4 * 1024;

/// Directories that are not walked.
pub open spec fn ignored_directories() -> Seq<&'static str> {
    seq![
        ".git",
        ".hg",
        ".svn",
        ".cache",
        ".gradle",
        ".idea",
        ".mypy_cache",
        ".next",
        ".nuxt",
        ".parcel-cache",
        ".pytest_cache",
        ".ruff_cache",
        ".turbo",
        ".venv",
        "__pycache__",
        "build",
        "coverage",
        "dist",
        "node_modules",
        "out",
        "target",
        "tmp",
        "vendor",
        "venv",
    ]
}

/// Files that are not kept.
pub open spec fn ignored_files() -> Seq<&'static str> {
    seq![".DS_Store", ".git"]
}

/// An ASCII letter in lowercase.
pub open spec fn ascii_lower(byte: u8) -> u8 {
    if 65 <= byte <= 90 {
        (byte + 32) as u8
    } else {
        byte
    }
}

/// Whether two byte strings differ at most in the case of ASCII letters.
pub open spec fn same_ignoring_case(a: Seq<u8>, b: Seq<u8>) -> bool {
    a.len() == b.len() && forall|i: int|
        0 <= i < a.len() ==> ascii_lower(#[trigger] a[i]) == ascii_lower(b[i])
}

/// Whether a name is on a list, whatever the case of its ASCII letters.
pub open spec fn listed(name: Seq<u8>, list: Seq<&'static str>) -> bool {
    exists|i: int|
        0 <= i < list.len() && same_ignoring_case(name, encode_utf8((#[trigger] list[i])@))
}

fn lower_of(byte: u8) -> (lower: u8)
    ensures
        lower == ascii_lower(byte),
{
    if 65 <= byte && byte <= 90 {
        byte + 32
    } else {
        byte
    }
}

pub fn equal_ignoring_case(a: &[u8], b: &[u8]) -> (same: bool)
    ensures
        same == same_ignoring_case(a@, b@),
{
    if a.len() != b.len() {
        return false;
    }
    let mut i: usize = 0;
    while i < a.len()
        invariant
            i <= a@.len() == b@.len(),
            forall|k: int| 0 <= k < i ==> ascii_lower(#[trigger] a@[k]) == ascii_lower(b@[k]),
        decreases a@.len() - i,
    {
        if lower_of(a[i]) != lower_of(b[i]) {
            return false;
        }
        i += 1;
    }
    true
}

fn is_listed(name: &[u8], list: &Vec<&'static str>) -> (yes: bool)
    ensures
        yes == listed(name@, list@),
{
    let mut i: usize = 0;
    while i < list.len()
        invariant
            i <= list@.len(),
            forall|k: int|
                0 <= k < i ==> !same_ignoring_case(name@, encode_utf8((#[trigger] list@[k])@)),
        decreases list@.len() - i,
    {
        if equal_ignoring_case(name, list[i].as_bytes()) {
            return true;
        }
        i += 1;
    }
    false
}

/// Whether a directory is not walked.
pub fn is_ignored_directory(name: &[u8]) -> (yes: bool)
    ensures
        yes == listed(name@, ignored_directories()),
{
    let list: Vec<&'static str> = vec![
        ".git",
        ".hg",
        ".svn",
        ".cache",
        ".gradle",
        ".idea",
        ".mypy_cache",
        ".next",
        ".nuxt",
        ".parcel-cache",
        ".pytest_cache",
        ".ruff_cache",
        ".turbo",
        ".venv",
        "__pycache__",
        "build",
        "coverage",
        "dist",
        "node_modules",
        "out",
        "target",
        "tmp",
        "vendor",
        "venv",
    ];
    assert(list@ =~= ignored_directories());
    is_listed(name, &list)
}

/// Whether a file is not kept.
pub fn is_ignored_file(name: &[u8]) -> (yes: bool)
    ensures
        yes == listed(name@, ignored_files()),
{
    let list: Vec<&'static str> = vec![".DS_Store", ".git"];
    assert(list@ =~= ignored_files());
    is_listed(name, &list)
}

/// One root-relative entry in the immutable workspace explorer snapshot.
#[derive(Debug, Eq)]
pub struct ProjectTreeEntry {
    /// Raw root-relative path. It may not be valid UTF-8.
    pub path: Vec<u8>,
    /// `true` for a directory and `false` for a regular file.
    pub is_directory: bool,
}

impl PartialEq for ProjectTreeEntry {
    fn eq(&self, other: &Self) -> (same: bool) {
        self.is_directory == other.is_directory && same_path(
            self.path.as_slice(),
            other.path.as_slice(),
        )
    }
}

impl vstd::std_specs::cmp::PartialEqSpecImpl for ProjectTreeEntry {
    open spec fn obeys_eq_spec() -> bool {
        true
    }

    open spec fn eq_spec(&self, other: &Self) -> bool {
        is_same_path(self@.path, other@.path) && self@.is_directory == other@.is_directory
    }
}

impl Clone for ProjectTreeEntry {
    fn clone(&self) -> (copy: Self)
        ensures
            copy@ == self@,
    {
        ProjectTreeEntry {
            path: copy_bytes(self.path.as_slice()),
            is_directory: self.is_directory,
        }
    }
}

/// The content of a [`ProjectTreeEntry`].
#[verifier::ext_equal]
pub struct TreeEntry {
    pub path: Seq<u8>,
    pub is_directory: bool,
}

impl View for ProjectTreeEntry {
    type V = TreeEntry;

    open spec fn view(&self) -> TreeEntry {
        TreeEntry { path: self.path@, is_directory: self.is_directory }
    }
}

/// The order of tree entries: by path, a directory before a file.
pub open spec fn entry_before(a: TreeEntry, b: TreeEntry) -> bool {
    path_before(a.path, b.path) || (a.path == b.path && a.is_directory && !b.is_directory)
}

/// The order of tree entries.
pub struct TreeOrder;

impl Order<ProjectTreeEntry> for TreeOrder {
    open spec fn before(a: TreeEntry, b: TreeEntry) -> bool {
        entry_before(a, b)
    }

    fn is_before(a: &ProjectTreeEntry, b: &ProjectTreeEntry) -> (yes: bool) {
        proof {
            lemma_path_order_total(a@.path, b@.path);
        }
        match compare_paths(a.path.as_slice(), b.path.as_slice()) {
            PathOrdering::Before => true,
            PathOrdering::Same => a.is_directory && !b.is_directory,
            PathOrdering::Behind => false,
        }
    }

    proof fn lemma_order(a: TreeEntry, b: TreeEntry, c: TreeEntry) {
        lemma_path_order_total(a.path, b.path);
        lemma_path_order_total(b.path, c.path);
        lemma_path_order_total(a.path, c.path);
        if path_before(c.path, a.path) && path_before(a.path, b.path) {
            lemma_path_order_transitive(c.path, a.path, b.path);
        }
    }
}

/// The order in which names of one directory are visited: as they are shown,
/// then by their bytes.
pub open spec fn name_before(a: Seq<u8>, b: Seq<u8>) -> bool {
    text_before(lossy_text(a), lossy_text(b)) || (lossy_text(a) == lossy_text(b) && bytes_before(
        a,
        b,
    ))
}

/// The order of names in one directory.
pub struct NameOrder;

impl Order<Vec<u8>> for NameOrder {
    open spec fn before(a: Seq<u8>, b: Seq<u8>) -> bool {
        name_before(a, b)
    }

    fn is_before(a: &Vec<u8>, b: &Vec<u8>) -> (yes: bool) {
        let x = display_path(a.as_slice());
        let y = display_path(b.as_slice());
        match order_of(x.as_str(), y.as_str()) {
            TextOrder::Before => true,
            TextOrder::Same => is_bytes_before(a.as_slice(), b.as_slice()),
            TextOrder::After => {
                proof {
                    lemma_text_order_total(lossy_text(a@), lossy_text(b@));
                }
                false
            },
        }
    }

    proof fn lemma_order(a: Seq<u8>, b: Seq<u8>, c: Seq<u8>) {
        let (x, y, z) = (lossy_text(a), lossy_text(b), lossy_text(c));
        lemma_text_order_total(x, y);
        lemma_text_order_total(y, z);
        lemma_text_order_total(x, z);
        lemma_bytes_order_total(a, b);
        lemma_bytes_order_total(b, c);
        lemma_bytes_order_total(a, c);
        if text_before(z, x) && text_before(x, y) {
            lemma_text_order_transitive(z, x, y);
        }
        if bytes_before(c, a) && bytes_before(a, b) {
            lemma_bytes_order_transitive(c, a, b);
        }
    }
}

/// Where bytes are not valid UTF-8.
#[verifier::external_type_specification]
#[verifier::external_body]
pub struct ExUtf8Error(std::str::Utf8Error);

/// What a `Utf8Error` says: how many bytes are valid, and how many belong to the
/// first invalid sequence, unless the input just ends.
pub uninterp spec fn fault_of(error: std::str::Utf8Error) -> (nat, Option<nat>);

/// What `std::str::from_utf8` reports of invalid bytes: how many are valid, and
/// how many belong to the first invalid sequence, unless the input just ends.
pub uninterp spec fn utf8_fault(bytes: Seq<u8>) -> (nat, Option<nat>);

/// `std::str::from_utf8`: it fails exactly where the bytes are not valid UTF-8.
/// The error says where: behind the longest prefix that is valid, where an
/// invalid sequence of one to three bytes stands, unless the input just ends.
#[verifier::external_body]
fn check_utf8(bytes: &[u8]) -> (result: Result<(), std::str::Utf8Error>)
    ensures
        match result {
            Ok(()) => valid_utf8(bytes@),
            Err(error) => {
                let (valid, length) = fault_of(error);
                &&& fault_of(error) == utf8_fault(bytes@)
                &&& valid < bytes@.len()
                &&& valid_utf8(bytes@.take(valid as int))
                &&& forall|k: int|
                    valid < k <= bytes@.len() ==> !valid_utf8(#[trigger] bytes@.take(k))
                &&& length matches Some(n) ==> 1 <= n <= 3 && valid + n <= bytes@.len()
            },
        },
{
    std::str::from_utf8(bytes).map(|_| ())
}

/// `Utf8Error::valid_up_to`: how many bytes are valid.
#[verifier::external_body]
fn valid_up_to(error: &std::str::Utf8Error) -> (valid: usize)
    ensures
        ({
            let (found, _) = fault_of(*error);
            valid == found
        }),
{
    error.valid_up_to()
}

/// `Utf8Error::error_len`: how long the invalid sequence is, unless the input
/// just ends.
#[verifier::external_body]
fn error_len(error: &std::str::Utf8Error) -> (length: Option<usize>)
    ensures
        ({
            let (_, found) = fault_of(*error);
            match length {
                Some(n) => found == Some(n as nat),
                None => found is None,
            }
        }),
{
    error.error_len()
}

/// How many bytes belong to no scalar value.
pub open spec fn invalid_bytes(bytes: Seq<u8>) -> nat
    decreases bytes.len(),
{
    if valid_utf8(bytes) {
        0
    } else {
        let (valid, length) = utf8_fault(bytes);
        match length {
            None => (bytes.len() - valid) as nat,
            Some(n) => if 0 < n && valid + n <= bytes.len() {
                n + invalid_bytes(bytes.skip((valid + n) as int))
            } else {
                0
            },
        }
    }
}

/// Computes [`invalid_bytes`].
pub fn invalid_utf8_bytes(bytes: &[u8]) -> (invalid: usize)
    ensures
        invalid == invalid_bytes(bytes@),
        invalid <= bytes@.len(),
{
    let mut offset: usize = 0;
    let mut invalid: usize = 0;
    let size: usize = bytes.len();
    assert(bytes@.skip(0) =~= bytes@);
    loop
        invariant
            offset <= size == bytes@.len(),
            invalid <= offset,
            invalid + invalid_bytes(bytes@.skip(offset as int)) == invalid_bytes(bytes@),
        decreases size - offset,
    {
        let rest = slice_subrange(bytes, offset, size);
        assert(rest@ =~= bytes@.skip(offset as int));
        assert(rest@.take(rest@.len() as int) =~= rest@);
        let error = match check_utf8(rest) {
            Ok(()) => {
                return invalid;
            },
            Err(error) => error,
        };
        let valid = valid_up_to(&error);
        match error_len(&error) {
            None => {
                return invalid + (size - offset - valid);
            },
            Some(length) => {
                assert(rest@.skip(valid + length) =~= bytes@.skip(offset + valid + length));
                invalid = invalid + length;
                offset = offset + valid + length;
            },
        }
    }
}

/// Whether a sample of a file is probably text: not binary, and at most one
/// percent invalid UTF-8, since a sample can end midway through a scalar value.
pub open spec fn probably_text(sample: Seq<u8>) -> bool {
    !binary(sample) && (valid_utf8(sample) || invalid_bytes(sample) * 100 <= sample.len())
}

/// Computes [`probably_text`].
pub fn is_probably_text(sample: &[u8]) -> (yes: bool)
    ensures
        yes == probably_text(sample@),
{
    if looks_binary(sample) {
        return false;
    }
    let invalid = invalid_utf8_bytes(sample);
    let size: usize = sample.len();
    match invalid.checked_mul(100) {
        Some(product) => product <= size,
        None => false,
    }
}

/// Bounds of a walk.
#[derive(Clone, Copy, Debug, PartialEq, Eq, Structural)]
pub struct WalkLimits {
    pub files: usize,
    pub indexed_path_bytes: usize,
    pub tree_entries: usize,
    pub tree_path_bytes: usize,
    pub entries: usize,
    pub depth: usize,
}

/// The bounds of a workspace index.
pub open spec fn largest_walk() -> WalkLimits {
    WalkLimits {
        files: MAX_INDEXED_FILES,
        indexed_path_bytes: MAX_INDEXED_PATH_BYTES,
        tree_entries: MAX_TREE_ENTRIES,
        tree_path_bytes: MAX_TREE_PATH_BYTES,
        entries: MAX_SCANNED_ENTRIES,
        depth: MAX_DIRECTORY_DEPTH,
    }
}

/// The smaller of two numbers.
pub open spec fn lower(a: usize, b: usize) -> usize {
    if a < b {
        a
    } else {
        b
    }
}

/// Bounds within the absolute ones.
pub open spec fn within_largest(limits: WalkLimits) -> WalkLimits {
    WalkLimits {
        files: lower(limits.files, MAX_INDEXED_FILES),
        indexed_path_bytes: lower(limits.indexed_path_bytes, MAX_INDEXED_PATH_BYTES),
        tree_entries: lower(limits.tree_entries, MAX_TREE_ENTRIES),
        tree_path_bytes: lower(limits.tree_path_bytes, MAX_TREE_PATH_BYTES),
        entries: lower(limits.entries, MAX_SCANNED_ENTRIES),
        depth: lower(limits.depth, MAX_DIRECTORY_DEPTH),
    }
}

impl Default for WalkLimits {
    fn default() -> (limits: Self)
        ensures
            limits == largest_walk(),
    {
        WalkLimits {
            files: MAX_INDEXED_FILES,
            indexed_path_bytes: MAX_INDEXED_PATH_BYTES,
            tree_entries: MAX_TREE_ENTRIES,
            tree_path_bytes: MAX_TREE_PATH_BYTES,
            entries: MAX_SCANNED_ENTRIES,
            depth: MAX_DIRECTORY_DEPTH,
        }
    }
}

fn lower_number(a: usize, b: usize) -> (n: usize)
    ensures
        n == lower(a, b),
{
    if a < b {
        a
    } else {
        b
    }
}

/// A directory that is to be walked. Its handle is that of its parent, in which
/// it has a name, or its own where it has none.
pub struct PendingDirectory<D> {
    pub handle: D,
    pub name: Option<Vec<u8>>,
    pub relative: Vec<u8>,
    pub depth: usize,
}

/// The content of a [`PendingDirectory`].
#[verifier::ext_equal]
pub struct Pending<D> {
    pub handle: D,
    pub name: Option<Seq<u8>>,
    pub relative: Seq<u8>,
    pub depth: usize,
}

impl<D> View for PendingDirectory<D> {
    type V = Pending<D>;

    open spec fn view(&self) -> Pending<D> {
        Pending {
            handle: self.handle,
            name: match self.name {
                Some(name) => Some(name@),
                None => None,
            },
            relative: self.relative@,
            depth: self.depth,
        }
    }
}

/// The contents of pending directories.
pub open spec fn pending_of<D>(list: Seq<PendingDirectory<D>>) -> Seq<Pending<D>> {
    list.map_values(|directory: PendingDirectory<D>| directory@)
}

/// The contents of tree entries.
pub open spec fn tree_of(entries: Seq<ProjectTreeEntry>) -> Seq<TreeEntry> {
    entries.map_values(|entry: ProjectTreeEntry| entry@)
}

/// What became of one directory entry.
#[derive(Clone, Copy, Debug, PartialEq, Eq, Structural)]
pub enum EntrySeen {
    /// Its kind could not be told, or a regular file could not be opened.
    Failed,
    /// It is a directory.
    Directory,
    /// It is a regular file: text, other data, or its start could not be read.
    File(Option<bool>),
    /// It is something else, such as a symbolic link.
    Other,
}

/// A walk under way: the caller opens and lists directories and hands over
/// what it found.
pub struct Walk<D> {
    limits: WalkLimits,
    files: Vec<Vec<u8>>,
    file_bytes: usize,
    tree: Vec<ProjectTreeEntry>,
    tree_bytes: usize,
    scanned: usize,
    truncated: bool,
    tree_truncated: bool,
    pending: Vec<PendingDirectory<D>>,
    children: Vec<PendingDirectory<D>>,
}

/// The content of a [`Walk`].
#[verifier::ext_equal]
pub struct WalkState<D> {
    pub limits: WalkLimits,
    pub files: Seq<Seq<u8>>,
    pub file_bytes: usize,
    pub tree: Seq<TreeEntry>,
    pub tree_bytes: usize,
    pub scanned: usize,
    pub truncated: bool,
    pub tree_truncated: bool,
    pub pending: Seq<Pending<D>>,
    pub children: Seq<Pending<D>>,
}

impl<D> View for Walk<D> {
    type V = WalkState<D>;

    closed spec fn view(&self) -> WalkState<D> {
        WalkState {
            limits: self.limits,
            files: path_views(self.files@),
            file_bytes: self.file_bytes,
            tree: tree_of(self.tree@),
            tree_bytes: self.tree_bytes,
            scanned: self.scanned,
            truncated: self.truncated,
            tree_truncated: self.tree_truncated,
            pending: pending_of(self.pending@),
            children: pending_of(self.children@),
        }
    }
}

/// The bytes of paths.
pub open spec fn bytes_of(paths: Seq<Seq<u8>>) -> nat
    decreases paths.len(),
{
    if paths.len() == 0 {
        0
    } else {
        bytes_of(paths.drop_last()) + paths.last().len()
    }
}

/// The paths of tree entries.
pub open spec fn tree_paths(entries: Seq<TreeEntry>) -> Seq<Seq<u8>> {
    entries.map_values(|entry: TreeEntry| entry.path)
}

/// What always holds of a walk: it stays within its bounds, and these within
/// the absolute ones.
pub open spec fn walk_holds<D>(state: WalkState<D>) -> bool {
    &&& state.limits == within_largest(state.limits)
    &&& state.files.len() <= state.limits.files
    &&& state.file_bytes == bytes_of(state.files)
    &&& state.file_bytes <= state.limits.indexed_path_bytes
    &&& state.tree.len() <= state.limits.tree_entries
    &&& state.tree_bytes == bytes_of(tree_paths(state.tree))
    &&& state.tree_bytes <= state.limits.tree_path_bytes
    &&& state.scanned <= state.limits.entries
    &&& forall|i: int|
        0 <= i < state.pending.len() ==> (#[trigger] state.pending[i]).depth <= state.limits.depth
    &&& forall|i: int|
        0 <= i < state.children.len() ==> (#[trigger] state.children[i]).depth
            <= state.limits.depth
}

/// A walk in which both snapshots are partial.
pub open spec fn partial<D>(state: WalkState<D>) -> WalkState<D> {
    WalkState { truncated: true, tree_truncated: true, ..state }
}

/// A walk with one more tree entry, or partial where there is no room for it.
pub open spec fn with_tree_entry<D>(state: WalkState<D>, entry: TreeEntry) -> WalkState<D> {
    if entry.path.len() > MAX_RELATIVE_PATH_BYTES || state.tree.len() >= state.limits.tree_entries
        || state.tree_bytes + entry.path.len() > state.limits.tree_path_bytes {
        WalkState { tree_truncated: true, ..state }
    } else {
        WalkState {
            tree: state.tree.push(entry),
            tree_bytes: (state.tree_bytes + entry.path.len()) as usize,
            ..state
        }
    }
}

/// A walk with one more text file, or partial where there is no room for it.
pub open spec fn with_file<D>(state: WalkState<D>, path: Seq<u8>) -> WalkState<D> {
    if path.len() > MAX_RELATIVE_PATH_BYTES || state.files.len() >= state.limits.files
        || state.file_bytes + path.len() > state.limits.indexed_path_bytes {
        WalkState { truncated: true, ..state }
    } else {
        WalkState {
            files: state.files.push(path),
            file_bytes: (state.file_bytes + path.len()) as usize,
            ..state
        }
    }
}

/// An entry of a directory that is to be walked into: it is opened through the
/// handle of the directory.
pub open spec fn child_of<D>(directory: Pending<D>, name: Seq<u8>, handle: D) -> Pending<D> {
    Pending {
        handle,
        name: Some(name),
        relative: path_join(directory.relative, name),
        depth: (directory.depth + 1) as usize,
    }
}

/// A walk after an entry of a directory was seen. The handle is that of the
/// directory: what is below it is opened through it.
pub open spec fn after_entry<D>(
    state: WalkState<D>,
    directory: Pending<D>,
    name: Seq<u8>,
    seen: EntrySeen,
    handle: D,
) -> WalkState<D> {
    let relative = path_join(directory.relative, name);
    match seen {
        EntrySeen::Failed => partial(state),
        EntrySeen::Directory => if listed(name, ignored_directories()) {
            state
        } else {
            let kept = with_tree_entry(
                state,
                TreeEntry { path: relative, is_directory: true },
            );
            if directory.depth >= state.limits.depth {
                partial(kept)
            } else {
                WalkState {
                    children: kept.children.push(child_of(directory, name, handle)),
                    ..kept
                }
            }
        },
        EntrySeen::File(text) => if listed(name, ignored_files()) {
            state
        } else {
            let kept = with_tree_entry(
                state,
                TreeEntry { path: relative, is_directory: false },
            );
            match text {
                Some(true) => with_file(kept, relative),
                Some(false) => kept,
                None => WalkState { truncated: true, ..kept },
            }
        },
        EntrySeen::Other => state,
    }
}

/// A walk after a directory was left: what it holds is walked next, in order,
/// or nothing at all where the directory was not listed completely.
pub open spec fn after_directory<D>(state: WalkState<D>, complete: bool) -> WalkState<D> {
    WalkState {
        pending: if complete {
            state.pending + state.children.reverse()
        } else {
            Seq::empty()
        },
        children: Seq::empty(),
        ..state
    }
}

/// What a walk collected.
#[derive(Debug)]
pub struct CollectedFiles {
    pub files: Vec<Vec<u8>>,
    pub tree_entries: Vec<ProjectTreeEntry>,
    pub truncated: bool,
    pub tree_truncated: bool,
}

/// Whether lists are sorted, with nothing twice.
pub open spec fn collected_holds(files: Seq<Seq<u8>>, tree: Seq<TreeEntry>) -> bool {
    &&& strictly_sorted::<Vec<u8>, PathOrder>(files)
    &&& strictly_sorted::<ProjectTreeEntry, TreeOrder>(tree)
    &&& files.len() <= MAX_INDEXED_FILES
    &&& tree.len() <= MAX_TREE_ENTRIES
}

proof fn lemma_paths_tell_apart()
    ensures
        tells_apart::<Vec<u8>, PathOrder>(),
        tells_apart::<ProjectTreeEntry, TreeOrder>(),
{
    assert forall|x: Seq<u8>, y: Seq<u8>|
        x == y || #[trigger] <PathOrder as Order<Vec<u8>>>::before(x, y)
            || <PathOrder as Order<Vec<u8>>>::before(y, x) by {
        lemma_path_order_total(x, y);
    }
    assert forall|x: TreeEntry, y: TreeEntry|
        x == y || #[trigger] <TreeOrder as Order<ProjectTreeEntry>>::before(x, y)
            || <TreeOrder as Order<ProjectTreeEntry>>::before(y, x) by {
        lemma_path_order_total(x.path, y.path);
    }
}

impl<D> Walk<D> {
    /// Starts at the root, which is open.
    pub fn new(root: D, limits: WalkLimits) -> (walk: Self)
        ensures
            walk_holds(walk@),
            walk@ == (WalkState {
                limits: within_largest(limits),
                files: Seq::empty(),
                file_bytes: 0,
                tree: Seq::empty(),
                tree_bytes: 0,
                scanned: 0,
                truncated: false,
                tree_truncated: false,
                pending: seq![
                    Pending { handle: root, name: None, relative: Seq::empty(), depth: 0 },
                ],
                children: Seq::empty(),
            }),
    {
        let bounds = WalkLimits {
            files: lower_number(limits.files, MAX_INDEXED_FILES),
            indexed_path_bytes: lower_number(limits.indexed_path_bytes, MAX_INDEXED_PATH_BYTES),
            tree_entries: lower_number(limits.tree_entries, MAX_TREE_ENTRIES),
            tree_path_bytes: lower_number(limits.tree_path_bytes, MAX_TREE_PATH_BYTES),
            entries: lower_number(limits.entries, MAX_SCANNED_ENTRIES),
            depth: lower_number(limits.depth, MAX_DIRECTORY_DEPTH),
        };
        let mut pending: Vec<PendingDirectory<D>> = Vec::new();
        let first = PendingDirectory { handle: root, name: None, relative: Vec::new(), depth: 0 };
        assert(first@ =~= Pending { handle: root, name: None, relative: Seq::empty(), depth: 0 });
        pending.push(first);
        let walk = Walk {
            limits: bounds,
            files: Vec::new(),
            file_bytes: 0,
            tree: Vec::new(),
            tree_bytes: 0,
            scanned: 0,
            truncated: false,
            tree_truncated: false,
            pending,
            children: Vec::new(),
        };
        proof {
            assert(walk@.files =~= Seq::<Seq<u8>>::empty());
            assert(walk@.tree =~= Seq::<TreeEntry>::empty());
            assert(walk@.children =~= Seq::<Pending<D>>::empty());
            assert(walk@.pending =~= seq![
                Pending { handle: root, name: None, relative: Seq::empty(), depth: 0 },
            ]);
            assert(tree_paths(walk@.tree) =~= Seq::<Seq<u8>>::empty());
        }
        walk
    }

    /// The directory that is walked next.
    pub fn next_directory(&mut self) -> (directory: Option<PendingDirectory<D>>)
        requires
            walk_holds(old(self)@),
        ensures
            walk_holds(final(self)@),
            match directory {
                Some(next) => {
                    &&& old(self)@.pending.len() > 0
                    &&& next@ == old(self)@.pending.last()
                    &&& final(self)@ == (WalkState {
                        pending: old(self)@.pending.drop_last(),
                        ..old(self)@
                    })
                },
                None => old(self)@.pending.len() == 0 && final(self)@ == old(self)@,
            },
    {
        let ghost before = self.pending@;
        let directory = self.pending.pop();
        proof {
            if directory is Some {
                assert(pending_of(self.pending@) =~= pending_of(before).drop_last());
                assert(pending_of(before).last() == before.last()@);
                assert forall|i: int| 0 <= i < self@.pending.len() implies (
                #[trigger] self@.pending[i]).depth <= self@.limits.depth by {
                    assert(self@.pending[i] == pending_of(before)[i]);
                }
            } else {
                assert(pending_of(before).len() == 0);
            }
        }
        directory
    }

    /// Notes that a directory could not be opened or listed.
    pub fn directory_failed(&mut self)
        requires
            walk_holds(old(self)@),
        ensures
            walk_holds(final(self)@),
            final(self)@ == partial(old(self)@),
    {
        self.truncated = true;
        self.tree_truncated = true;
    }

    /// How many entries may still be listed.
    pub fn remaining_entries(&self) -> (n: usize)
        requires
            walk_holds(self@),
        ensures
            n == self@.limits.entries - self@.scanned,
    {
        self.limits.entries - self.scanned
    }

    /// Takes the names in a directory, and gives them back in the order in
    /// which they are to be visited.
    pub fn enter(&mut self, names: Vec<Vec<u8>>, complete: bool) -> (ordered: Vec<Vec<u8>>)
        requires
            walk_holds(old(self)@),
            names@.len() <= old(self)@.limits.entries - old(self)@.scanned,
        ensures
            walk_holds(final(self)@),
            sorted_by::<Vec<u8>, NameOrder>(path_views(ordered@)),
            path_views(ordered@).to_multiset() == path_views(names@).to_multiset(),
            final(self)@ == (WalkState {
                scanned: (old(self)@.scanned + names@.len()) as usize,
                truncated: old(self)@.truncated || !complete,
                tree_truncated: old(self)@.tree_truncated || !complete,
                ..old(self)@
            }),
    {
        self.scanned = self.scanned + names.len();
        if !complete {
            self.truncated = true;
            self.tree_truncated = true;
        }
        proof {
            assert(views(names@) =~= path_views(names@));
        }
        let ordered = sort::<Vec<u8>, NameOrder>(names);
        assert(views(ordered@) =~= path_views(ordered@));
        ordered
    }

    fn retain_tree_entry(&mut self, relative: &Vec<u8>, is_directory: bool)
        requires
            walk_holds(old(self)@),
        ensures
            walk_holds(final(self)@),
            final(self)@ == with_tree_entry(
                old(self)@,
                TreeEntry { path: relative@, is_directory },
            ),
    {
        let ghost start = self@;
        let size: usize = relative.len();
        if size > MAX_RELATIVE_PATH_BYTES || self.tree.len() >= self.limits.tree_entries || size
            > self.limits.tree_path_bytes - self.tree_bytes {
            self.tree_truncated = true;
            return;
        }
        let ghost before = self.tree@;
        let entry = ProjectTreeEntry { path: copy_bytes(relative.as_slice()), is_directory };
        self.tree.push(entry);
        self.tree_bytes = self.tree_bytes + size;
        proof {
            assert(tree_of(self.tree@) =~= tree_of(before).push(entry@));
            let paths = tree_paths(start.tree);
            assert(tree_paths(self@.tree) =~= paths.push(relative@));
            assert(paths.push(relative@).drop_last() =~= paths);
        }
    }

    fn retain_indexed_file(&mut self, relative: Vec<u8>)
        requires
            walk_holds(old(self)@),
        ensures
            walk_holds(final(self)@),
            final(self)@ == with_file(old(self)@, relative@),
    {
        let ghost start = self@;
        let size: usize = relative.len();
        if size > MAX_RELATIVE_PATH_BYTES || self.files.len() >= self.limits.files || size
            > self.limits.indexed_path_bytes - self.file_bytes {
            self.truncated = true;
            return;
        }
        let ghost before = self.files@;
        self.files.push(relative);
        self.file_bytes = self.file_bytes + size;
        proof {
            assert(path_views(self.files@) =~= path_views(before).push(relative@));
            assert(start.files.push(relative@).drop_last() =~= start.files);
        }
    }

    /// Takes what became of one entry of a directory. The handle is that of the
    /// directory.
    pub fn visit(
        &mut self,
        directory: &PendingDirectory<D>,
        name: &[u8],
        seen: EntrySeen,
        handle: D,
    )
        requires
            walk_holds(old(self)@),
        ensures
            walk_holds(final(self)@),
            final(self)@ == after_entry(old(self)@, directory@, name@, seen, handle),
    {
        let mut relative = copy_bytes(directory.relative.as_slice());
        if relative.len() > 0 && relative[relative.len() - 1] != 47 {
            relative.push(47);
        }
        push_bytes(&mut relative, name);
        assert(relative@ =~= path_join(directory.relative@, name@));
        match seen {
            EntrySeen::Failed => {
                self.truncated = true;
                self.tree_truncated = true;
            },
            EntrySeen::Directory => {
                if !is_ignored_directory(name) {
                    self.retain_tree_entry(&relative, true);
                    if directory.depth >= self.limits.depth {
                        self.truncated = true;
                        self.tree_truncated = true;
                    } else {
                        let ghost before = self.children@;
                        let child = PendingDirectory {
                            handle,
                            name: Some(copy_bytes(name)),
                            relative,
                            depth: directory.depth + 1,
                        };
                        self.children.push(child);
                        proof {
                            assert(pending_of(self.children@) =~= pending_of(before).push(child@));
                            assert forall|i: int| 0 <= i < self@.children.len() implies (
                            #[trigger] self@.children[i]).depth <= self@.limits.depth by {
                                if i < before.len() {
                                    assert(self@.children[i] == pending_of(before)[i]);
                                }
                            }
                        }
                    }
                }
            },
            EntrySeen::File(text) => {
                if !is_ignored_file(name) {
                    self.retain_tree_entry(&relative, false);
                    match text {
                        Some(true) => {
                            self.retain_indexed_file(relative);
                        },
                        Some(false) => {},
                        None => {
                            self.truncated = true;
                        },
                    }
                }
            },
            EntrySeen::Other => {},
        }
    }

    /// Leaves a directory: the directories in it are walked next, in order. A
    /// directory that was not listed completely ends the walk.
    pub fn leave(&mut self, complete: bool)
        requires
            walk_holds(old(self)@),
        ensures
            walk_holds(final(self)@),
            final(self)@ == after_directory(old(self)@, complete),
    {
        let ghost start = self@;
        if !complete {
            self.pending = Vec::new();
            self.children = Vec::new();
            assert(pending_of(self.pending@) =~= Seq::<Pending<D>>::empty());
            assert(pending_of(self.children@) =~= Seq::<Pending<D>>::empty());
            return;
        }
        let ghost kept = self.pending@;
        let ghost all = self.children@;
        while self.children.len() > 0
            invariant
                start.pending == pending_of(kept),
                start.children == pending_of(all),
                self@.limits == start.limits,
                self@.files == start.files,
                self@.file_bytes == start.file_bytes,
                self@.tree == start.tree,
                self@.tree_bytes == start.tree_bytes,
                self@.scanned == start.scanned,
                self@.truncated == start.truncated,
                self@.tree_truncated == start.tree_truncated,
                self.children@.len() <= all.len(),
                self.children@ == all.take(self.children@.len() as int),
                self.pending@.len() == kept.len() + all.len() - self.children@.len(),
                forall|i: int| 0 <= i < kept.len() ==> #[trigger] self.pending@[i] == kept[i],
                forall|i: int|
                    kept.len() <= i < self.pending@.len() ==> #[trigger] self.pending@[i]
                        == all[all.len() - 1 - (i - kept.len())],
            decreases self.children@.len(),
        {
            let ghost n = self.children@.len();
            if let Some(child) = self.children.pop() {
                assert(child == all[n - 1]);
                self.pending.push(child);
                assert(self.children@ =~= all.take(n - 1));
            }
        }
        proof {
            assert(pending_of(self.children@) =~= Seq::<Pending<D>>::empty());
            assert(pending_of(self.pending@) =~= start.pending + start.children.reverse());
            assert forall|i: int| 0 <= i < self@.pending.len() implies (
            #[trigger] self@.pending[i]).depth <= self@.limits.depth by {
                if i < kept.len() {
                    assert(self@.pending[i] == start.pending[i]);
                } else {
                    assert(self@.pending[i] == start.children[all.len() - 1 - (i - kept.len())]);
                }
            }
        }
    }

    /// What was collected, sorted.
    pub fn finish(self) -> (collected: CollectedFiles)
        requires
            walk_holds(self@),
        ensures
            collected_holds(path_views(collected.files@), tree_of(collected.tree_entries@)),
            forall|path: Seq<u8>| #[trigger]
                path_views(collected.files@).contains(path) <==> self@.files.contains(path),
            forall|entry: TreeEntry| #[trigger]
                tree_of(collected.tree_entries@).contains(entry) <==> self@.tree.contains(entry),
            collected.files@.len() <= self@.files.len(),
            collected.tree_entries@.len() <= self@.tree.len(),
            collected.truncated == self@.truncated,
            collected.tree_truncated == self@.tree_truncated,
    {
        proof {
            lemma_paths_tell_apart();
            assert(views(self.files@) =~= path_views(self.files@));
            assert(views(self.tree@) =~= tree_of(self.tree@));
        }
        let files = sort_unique::<Vec<u8>, PathOrder>(self.files);
        let tree_entries = sort_unique::<ProjectTreeEntry, TreeOrder>(self.tree);
        proof {
            assert(views(files@) =~= path_views(files@));
            assert(views(tree_entries@) =~= tree_of(tree_entries@));
        }
        CollectedFiles {
            files,
            tree_entries,
            truncated: self.truncated,
            tree_truncated: self.tree_truncated,
        }
    }
}

/// A directory or file that is not ignored is in the explorer snapshot, or the
/// snapshot is partial; a text file is in the index, or the index is partial.
/// Nothing that was kept before is lost.
pub proof fn law_entries_are_kept_or_reported<D>(
    state: WalkState<D>,
    directory: Pending<D>,
    name: Seq<u8>,
    seen: EntrySeen,
    handle: D,
)
    ensures
        ({
            let after = after_entry(state, directory, name, seen, handle);
            let relative = path_join(directory.relative, name);
            &&& seen == EntrySeen::Directory && !listed(name, ignored_directories())
                ==> after.tree_truncated || after.tree.last() == (TreeEntry {
                path: relative,
                is_directory: true,
            })
            &&& seen is File && !listed(name, ignored_files()) ==> after.tree_truncated
                || after.tree.last() == (TreeEntry { path: relative, is_directory: false })
            &&& seen == EntrySeen::File(Some(true)) && !listed(name, ignored_files())
                ==> after.truncated || after.files.last() == relative
            &&& state.truncated ==> after.truncated
            &&& state.tree_truncated ==> after.tree_truncated
            &&& state.files.len() <= after.files.len() && after.files.take(
                state.files.len() as int,
            ) == state.files
            &&& state.tree.len() <= after.tree.len() && after.tree.take(state.tree.len() as int)
                == state.tree
        }),
{
    let after = after_entry(state, directory, name, seen, handle);
    assert(after.files.take(state.files.len() as int) =~= state.files);
    assert(after.tree.take(state.tree.len() as int) =~= state.tree);
}

/// The order in which a directory lists its names does not matter: the same
/// names are visited in the same order.
pub proof fn law_listing_order_does_not_matter(a: Seq<Seq<u8>>, b: Seq<Seq<u8>>)
    requires
        sorted_by::<Vec<u8>, NameOrder>(a),
        sorted_by::<Vec<u8>, NameOrder>(b),
        a.to_multiset() == b.to_multiset(),
    ensures
        a == b,
{
    assert forall|x: Seq<u8>, y: Seq<u8>|
        x == y || #[trigger] <NameOrder as Order<Vec<u8>>>::before(x, y)
            || <NameOrder as Order<Vec<u8>>>::before(y, x) by {
        lemma_text_order_total(lossy_text(x), lossy_text(y));
        lemma_bytes_order_total(x, y);
    }
    law_sorted_is_unique::<Vec<u8>, NameOrder>(a, b);
}

/// Why a file of the snapshot is not read.
#[derive(Clone, Debug, PartialEq, Eq)]
pub enum ReadRefusal {
    /// The explorer snapshot does not hold the path.
    NotInTree,
    /// The path is a directory.
    IsDirectory,
    /// The text index does not hold the path.
    NotIndexed,
    /// The file has so many bytes, more than the limit.
    TooLarge { bytes: u64, limit: u64 },
    /// The file grew beyond the limit while it was read.
    Grew { limit: u64 },
}

/// The words for a refusal.
pub open spec fn refusal_words(refusal: ReadRefusal, path: Seq<u8>) -> Seq<char> {
    match refusal {
        ReadRefusal::NotInTree => "path is not in the workspace-tree snapshot: "@ + lossy_text(
            path,
        ),
        ReadRefusal::IsDirectory => "workspace-tree path is a directory: "@ + lossy_text(path),
        ReadRefusal::NotIndexed => "path is not in the workspace text-index snapshot: "@
            + lossy_text(path),
        ReadRefusal::TooLarge { bytes, limit } => "workspace-tree file "@ + lossy_text(path)
            + " is "@ + decimal(bytes as nat) + " bytes; read limit is "@ + decimal(limit as nat)
            + " bytes"@,
        ReadRefusal::Grew { limit } => "workspace-tree file "@ + lossy_text(path)
            + " grew beyond the "@ + decimal(limit as nat) + " byte read limit"@,
    }
}

impl ReadRefusal {
    /// What the refusal says.
    pub fn describe(&self, path: &[u8]) -> (words: String)
        ensures
            words@ == refusal_words(*self, path@),
    {
        let shown = display_path(path);
        let mut words = String::new();
        match self {
            ReadRefusal::NotInTree => {
                words.push_str("path is not in the workspace-tree snapshot: ");
                words.push_str(shown.as_str());
            },
            ReadRefusal::IsDirectory => {
                words.push_str("workspace-tree path is a directory: ");
                words.push_str(shown.as_str());
            },
            ReadRefusal::NotIndexed => {
                words.push_str("path is not in the workspace text-index snapshot: ");
                words.push_str(shown.as_str());
            },
            ReadRefusal::TooLarge { bytes, limit } => {
                words.push_str("workspace-tree file ");
                words.push_str(shown.as_str());
                words.push_str(" is ");
                push_decimal(&mut words, *bytes);
                words.push_str(" bytes; read limit is ");
                push_decimal(&mut words, *limit);
                words.push_str(" bytes");
            },
            ReadRefusal::Grew { limit } => {
                words.push_str("workspace-tree file ");
                words.push_str(shown.as_str());
                words.push_str(" grew beyond the ");
                push_decimal(&mut words, *limit);
                words.push_str(" byte read limit");
            },
        }
        assert(words@ =~= refusal_words(*self, path@));
        words
    }
}

/// Whether a file of this size may be read; it may have grown since its size
/// was asked for.
pub fn check_read_size(announced: u64, read: u64, limit: u64) -> (result: Result<(), ReadRefusal>)
    ensures
        result == (if announced > limit {
            Err(ReadRefusal::TooLarge { bytes: announced, limit })
        } else if read > limit {
            Err(ReadRefusal::Grew { limit })
        } else {
            Ok(())
        }),
{
    if announced > limit {
        Err(ReadRefusal::TooLarge { bytes: announced, limit })
    } else if read > limit {
        Err(ReadRefusal::Grew { limit })
    } else {
        Ok(())
    }
}

/// A deterministic, bounded workspace snapshot below a project root.
///
/// Text-like regular files are retained separately for search. The tree view
/// also contains non-ignored directories and binary regular files, but never
/// symlinks or special files.
#[derive(Debug, Eq)]
pub struct ProjectIndex {
    root: Vec<u8>,
    files: Vec<Vec<u8>>,
    tree_entries: Vec<ProjectTreeEntry>,
    truncated: bool,
    tree_truncated: bool,
}

/// The content of a [`ProjectIndex`].
#[verifier::ext_equal]
pub struct Index {
    pub root: Seq<u8>,
    pub files: Seq<Seq<u8>>,
    pub tree: Seq<TreeEntry>,
    pub truncated: bool,
    pub tree_truncated: bool,
}

impl View for ProjectIndex {
    type V = Index;

    closed spec fn view(&self) -> Index {
        Index {
            root: self.root@,
            files: path_views(self.files@),
            tree: tree_of(self.tree_entries@),
            truncated: self.truncated,
            tree_truncated: self.tree_truncated,
        }
    }
}

/// Whether two lists hold the same paths.
pub open spec fn are_same_paths(a: Seq<Seq<u8>>, b: Seq<Seq<u8>>) -> bool {
    a.len() == b.len() && forall|i: int|
        0 <= i < a.len() ==> is_same_path(#[trigger] a[i], b[i])
}

/// Whether two lists hold the same entries.
pub open spec fn are_same_entries(a: Seq<TreeEntry>, b: Seq<TreeEntry>) -> bool {
    a.len() == b.len() && forall|i: int|
        0 <= i < a.len() ==> is_same_path((#[trigger] a[i]).path, b[i].path) && a[i].is_directory
            == b[i].is_directory
}

fn same_paths(a: &Vec<Vec<u8>>, b: &Vec<Vec<u8>>) -> (same: bool)
    ensures
        same == are_same_paths(path_views(a@), path_views(b@)),
{
    let ghost (p, q) = (path_views(a@), path_views(b@));
    if a.len() != b.len() {
        return false;
    }
    let mut i: usize = 0;
    while i < a.len()
        invariant
            i <= a@.len() == b@.len(),
            p == path_views(a@),
            q == path_views(b@),
            forall|k: int| 0 <= k < i ==> is_same_path(#[trigger] p[k], q[k]),
        decreases a@.len() - i,
    {
        assert(p[i as int] == a@[i as int]@ && q[i as int] == b@[i as int]@);
        if !same_path(a[i].as_slice(), b[i].as_slice()) {
            return false;
        }
        i += 1;
    }
    true
}

fn same_entries(a: &Vec<ProjectTreeEntry>, b: &Vec<ProjectTreeEntry>) -> (same: bool)
    ensures
        same == are_same_entries(tree_of(a@), tree_of(b@)),
{
    let ghost (p, q) = (tree_of(a@), tree_of(b@));
    if a.len() != b.len() {
        return false;
    }
    let mut i: usize = 0;
    while i < a.len()
        invariant
            i <= a@.len() == b@.len(),
            p == tree_of(a@),
            q == tree_of(b@),
            forall|k: int|
                0 <= k < i ==> is_same_path((#[trigger] p[k]).path, q[k].path) && p[k].is_directory
                    == q[k].is_directory,
        decreases a@.len() - i,
    {
        assert(p[i as int] == a@[i as int]@ && q[i as int] == b@[i as int]@);
        if a[i] != b[i] {
            return false;
        }
        i += 1;
    }
    true
}

impl PartialEq for ProjectIndex {
    fn eq(&self, other: &Self) -> (same: bool) {
        self.truncated == other.truncated && self.tree_truncated == other.tree_truncated
            && same_path(self.root.as_slice(), other.root.as_slice()) && same_paths(
            &self.files,
            &other.files,
        ) && same_entries(&self.tree_entries, &other.tree_entries)
    }
}

impl vstd::std_specs::cmp::PartialEqSpecImpl for ProjectIndex {
    open spec fn obeys_eq_spec() -> bool {
        true
    }

    open spec fn eq_spec(&self, other: &Self) -> bool {
        &&& is_same_path(self@.root, other@.root)
        &&& are_same_paths(self@.files, other@.files)
        &&& are_same_entries(self@.tree, other@.tree)
        &&& self@.truncated == other@.truncated
        &&& self@.tree_truncated == other@.tree_truncated
    }
}

/// Whether a snapshot holds what a walk collected, sorted, each path once.
pub open spec fn snapshot_of<D>(index: Index, root: Seq<u8>, walk: WalkState<D>) -> bool {
    &&& index.root == root
    &&& collected_holds(index.files, index.tree)
    &&& index.files.len() <= walk.files.len()
    &&& index.tree.len() <= walk.tree.len()
    &&& forall|path: Seq<u8>| #[trigger] index.files.contains(path) <==> walk.files.contains(path)
    &&& forall|entry: TreeEntry| #[trigger]
        index.tree.contains(entry) <==> walk.tree.contains(entry)
    &&& index.truncated == walk.truncated
    &&& index.tree_truncated == walk.tree_truncated
}

/// Whether a snapshot holds an entry for a path.
pub open spec fn has_entry(tree: Seq<TreeEntry>, path: Seq<u8>) -> bool {
    exists|i: int| 0 <= i < tree.len() && (#[trigger] tree[i]).path == path
}

/// Whether a snapshot holds a regular file at a path.
pub open spec fn has_file(tree: Seq<TreeEntry>, path: Seq<u8>) -> bool {
    tree.contains(TreeEntry { path, is_directory: false })
}

/// The paths of the regular files of a snapshot.
pub open spec fn file_paths(tree: Seq<TreeEntry>) -> Seq<Seq<u8>>
    decreases tree.len(),
{
    if tree.len() == 0 {
        Seq::empty()
    } else if tree.last().is_directory {
        file_paths(tree.drop_last())
    } else {
        file_paths(tree.drop_last()).push(tree.last().path)
    }
}

proof fn lemma_file_paths(tree: Seq<TreeEntry>)
    ensures
        file_paths(tree).len() <= tree.len(),
    decreases tree.len(),
{
    if tree.len() > 0 {
        lemma_file_paths(tree.drop_last());
    }
}

/// What a snapshot answers to a request to read one of its files: the limit.
pub open spec fn tree_read_limit_of(tree: Seq<TreeEntry>, path: Seq<u8>, max_bytes: u64) -> Result<
    u64,
    ReadRefusal,
> {
    if !has_entry(tree, path) {
        Err(ReadRefusal::NotInTree)
    } else if !has_file(tree, path) {
        Err(ReadRefusal::IsDirectory)
    } else {
        Ok(read_limit_of(max_bytes))
    }
}

/// A read limit within the absolute one.
pub open spec fn read_limit_of(max_bytes: u64) -> u64 {
    if max_bytes < MAX_TREE_FILE_READ_BYTES {
        max_bytes
    } else {
        MAX_TREE_FILE_READ_BYTES
    }
}

fn bounded_read_limit(max_bytes: u64) -> (limit: u64)
    ensures
        limit == read_limit_of(max_bytes),
{
    if max_bytes < MAX_TREE_FILE_READ_BYTES {
        max_bytes
    } else {
        MAX_TREE_FILE_READ_BYTES
    }
}

impl Clone for ProjectIndex {
    fn clone(&self) -> (copy: Self)
        ensures
            copy@ == self@,
    {
        let files = copy_list(&self.files);
        let tree_entries = self.tree_entries.clone();
        proof {
            use_type_invariant(self);
            assert(path_views(files@) =~= component_views(files@));
            assert(path_views(self.files@) =~= component_views(self.files@));
            assert forall|i: int| 0 <= i < self.tree_entries@.len() implies (
            #[trigger] tree_entries@[i])@ == self.tree_entries@[i]@ by {
                assert(cloned(self.tree_entries@[i], tree_entries@[i]));
            }
            assert(tree_of(tree_entries@) =~= tree_of(self.tree_entries@));
        }
        ProjectIndex {
            root: copy_bytes(self.root.as_slice()),
            files,
            tree_entries,
            truncated: self.truncated,
            tree_truncated: self.tree_truncated,
        }
    }
}

impl ProjectIndex {
    #[verifier::type_invariant]
    spec fn holds(self) -> bool {
        collected_holds(path_views(self.files@), tree_of(self.tree_entries@))
    }

    /// The snapshot that a finished walk of the root collected.
    pub fn build<D>(root: Vec<u8>, walk: Walk<D>) -> (index: Self)
        requires
            walk_holds(walk@),
        ensures
            snapshot_of(index@, root@, walk@),
    {
        let collected = walk.finish();
        ProjectIndex {
            root,
            files: collected.files,
            tree_entries: collected.tree_entries,
            truncated: collected.truncated,
            tree_truncated: collected.tree_truncated,
        }
    }

    /// Takes the snapshot of another walk of the same root.
    pub fn refresh<D>(&mut self, walk: Walk<D>)
        requires
            walk_holds(walk@),
        ensures
            snapshot_of(final(self)@, old(self)@.root, walk@),
    {
        let root = copy_bytes(self.root.as_slice());
        *self = ProjectIndex::build(root, walk);
    }

    /// The root.
    pub fn root(&self) -> (root: &[u8])
        ensures
            root@ == self@.root,
    {
        self.root.as_slice()
    }

    /// Returns relative paths in stable lexical order.
    pub fn files(&self) -> (files: &Vec<Vec<u8>>)
        ensures
            path_views(files@) == self@.files,
            strictly_sorted::<Vec<u8>, PathOrder>(self@.files),
    {
        proof {
            use_type_invariant(&*self);
        }
        &self.files
    }

    /// Returns directories and regular files in stable lexical order.
    ///
    /// This is a separately bounded snapshot for workspace navigation. Unlike
    /// [`Self::files`], it includes binary regular files and empty directories.
    pub fn tree_entries(&self) -> (entries: &Vec<ProjectTreeEntry>)
        ensures
            tree_of(entries@) == self@.tree,
            strictly_sorted::<ProjectTreeEntry, TreeOrder>(self@.tree),
    {
        proof {
            use_type_invariant(&*self);
        }
        &self.tree_entries
    }

    /// The first index whose path does not come before `relative`.
    fn tree_position(&self, relative: &[u8]) -> (at: usize)
        ensures
            at <= self@.tree.len() == self.tree_entries@.len(),
            forall|k: int| 0 <= k < at ==> path_before((#[trigger] self@.tree[k]).path, relative@),
            forall|k: int|
                at <= k < self@.tree.len() ==> !path_before(
                    (#[trigger] self@.tree[k]).path,
                    relative@,
                ),
    {
        proof {
            use_type_invariant(&*self);
        }
        let ghost tree = self@.tree;
        let mut low: usize = 0;
        let mut high: usize = self.tree_entries.len();
        while low < high
            invariant
                low <= high <= tree.len() == self.tree_entries@.len(),
                tree == tree_of(self.tree_entries@),
                strictly_sorted::<ProjectTreeEntry, TreeOrder>(tree),
                forall|k: int| 0 <= k < low ==> path_before((#[trigger] tree[k]).path, relative@),
                forall|k: int|
                    high <= k < tree.len() ==> !path_before((#[trigger] tree[k]).path, relative@),
            decreases high - low,
        {
            let middle: usize = low + (high - low) / 2;
            let entry = &self.tree_entries[middle];
            assert(tree[middle as int] == entry@);
            match compare_paths(entry.path.as_slice(), relative) {
                PathOrdering::Before => {
                    proof {
                        assert forall|k: int| 0 <= k < middle + 1 implies path_before(
                            (#[trigger] tree[k]).path,
                            relative@,
                        ) by {
                            if k < middle {
                                assert(entry_before(tree[k], tree[middle as int]));
                                if path_before(tree[k].path, tree[middle as int].path) {
                                    lemma_path_order_transitive(
                                        tree[k].path,
                                        tree[middle as int].path,
                                        relative@,
                                    );
                                }
                            }
                        }
                    }
                    low = middle + 1;
                },
                _ => {
                    proof {
                        lemma_path_order_total(entry@.path, relative@);
                        assert forall|k: int| middle <= k < tree.len() implies !path_before(
                            (#[trigger] tree[k]).path,
                            relative@,
                        ) by {
                            if k > middle {
                                assert(entry_before(tree[middle as int], tree[k]));
                                if path_before(tree[middle as int].path, tree[k].path)
                                    && path_before(tree[k].path, relative@) {
                                    lemma_path_order_transitive(
                                        tree[middle as int].path,
                                        tree[k].path,
                                        relative@,
                                    );
                                }
                            }
                        }
                    }
                    high = middle;
                },
            }
        }
        low
    }

    /// Whether the entry at an index has a path.
    fn path_is(&self, at: usize, relative: &[u8]) -> (yes: bool)
        ensures
            yes == (at < self@.tree.len() && self@.tree[at as int].path == relative@),
    {
        if at >= self.tree_entries.len() {
            return false;
        }
        assert(self@.tree[at as int] == self.tree_entries@[at as int]@);
        crate::paths::same_bytes(self.tree_entries[at].path.as_slice(), relative)
    }

    /// Checks the immutable explorer snapshot using its raw-path ordering.
    pub fn contains_tree_path(&self, relative: &[u8]) -> (yes: bool)
        ensures
            yes == has_entry(self@.tree, relative@),
    {
        let at = self.tree_position(relative);
        let yes = self.path_is(at, relative);
        proof {
            use_type_invariant(&*self);
            self.lemma_entry_at(at as int, relative@);
        }
        yes
    }

    proof fn lemma_entry_at(&self, at: int, path: Seq<u8>)
        requires
            collected_holds(self@.files, self@.tree),
            0 <= at <= self@.tree.len(),
            forall|k: int| 0 <= k < at ==> path_before((#[trigger] self@.tree[k]).path, path),
            forall|k: int|
                at <= k < self@.tree.len() ==> !path_before((#[trigger] self@.tree[k]).path, path),
        ensures
            has_entry(self@.tree, path) == (at < self@.tree.len() && self@.tree[at].path == path),
            has_file(self@.tree, path) == ((at < self@.tree.len() && self@.tree[at].path == path
                && !self@.tree[at].is_directory) || (at + 1 < self@.tree.len()
                && self@.tree[at + 1].path == path && !self@.tree[at + 1].is_directory)),
    {
        let tree = self@.tree;
        lemma_path_order_total(path, path);
        if has_entry(tree, path) {
            let i = choose|i: int| 0 <= i < tree.len() && (#[trigger] tree[i]).path == path;
            if i > at {
                assert(entry_before(tree[at], tree[i]));
                lemma_path_order_total(tree[at].path, path);
            }
        }
        if has_file(tree, path) {
            let file = TreeEntry { path, is_directory: false };
            let i = choose|i: int| 0 <= i < tree.len() && tree[i] == file;
            assert(tree[i].path == path);
            if i > at + 1 {
                assert(entry_before(tree[at], tree[i]));
                assert(entry_before(tree[at + 1], tree[i]));
                assert(entry_before(tree[at], tree[at + 1]));
                lemma_path_order_total(tree[at].path, path);
                lemma_path_order_total(tree[at + 1].path, path);
            }
        }
        let file = TreeEntry { path, is_directory: false };
        if at < tree.len() && tree[at].path == path && !tree[at].is_directory {
            assert(tree[at] == file);
        }
        if at + 1 < tree.len() && tree[at + 1].path == path && !tree[at + 1].is_directory {
            assert(tree[at + 1] == file);
        }
    }

    /// Checks whether the explorer snapshot contains a regular file at `relative`.
    pub fn contains_tree_file(&self, relative: &[u8]) -> (yes: bool)
        ensures
            yes == has_file(self@.tree, relative@),
    {
        let at = self.tree_position(relative);
        proof {
            use_type_invariant(&*self);
            self.lemma_entry_at(at as int, relative@);
        }
        if self.path_is(at, relative) {
            assert(self@.tree[at as int] == self.tree_entries@[at as int]@);
            if !self.tree_entries[at].is_directory {
                return true;
            }
            if self.path_is(at + 1, relative) {
                assert(self@.tree[at + 1] == self.tree_entries@[at + 1]@);
                return !self.tree_entries[at + 1].is_directory;
            }
            return false;
        }
        proof {
            if at + 1 < self@.tree.len() && self@.tree[at + 1].path == relative@ {
                assert(entry_before(self@.tree[at as int], self@.tree[at + 1]));
                lemma_path_order_total(self@.tree[at as int].path, relative@);
            }
        }
        false
    }

    /// The number of text files.
    pub fn len(&self) -> (n: usize)
        ensures
            n == self@.files.len(),
    {
        self.files.len()
    }

    /// Whether there is no text file.
    pub fn is_empty(&self) -> (yes: bool)
        ensures
            yes == (self@.files.len() == 0),
    {
        self.files.len() == 0
    }

    /// Whether the text-file index is partial because a safety bound was hit.
    pub fn is_truncated(&self) -> (yes: bool)
        ensures
            yes == self@.truncated,
    {
        self.truncated
    }

    /// Whether the workspace explorer snapshot is partial because a safety
    /// bound was hit.
    pub fn is_tree_truncated(&self) -> (yes: bool)
        ensures
            yes == self@.tree_truncated,
    {
        self.tree_truncated
    }

    /// Returns a root-relative path as an absolute project path.
    pub fn absolute_path(&self, relative: &[u8]) -> (path: Vec<u8>)
        ensures
            path@ == (if is_absolute(relative@) {
                relative@
            } else {
                path_join(self@.root, relative@)
            }),
    {
        if relative.len() > 0 && relative[0] == 47 {
            return copy_bytes(relative);
        }
        let mut path = copy_bytes(self.root.as_slice());
        if path.len() > 0 && path[path.len() - 1] != 47 {
            path.push(47);
        }
        push_bytes(&mut path, relative);
        assert(path@ =~= path_join(self@.root, relative@));
        path
    }

    /// Searches the index, clamping `limit` to the largest number of results.
    ///
    /// An empty query returns the first paths in deterministic index order.
    pub fn search(&self, query: &str, limit: usize) -> (matches: Vec<QuickOpenMatch>)
        ensures
            ranked_of(matches@) == search_results(self@.files, query@, limit).0,
    {
        bounded_path_search(&self.files, query, limit)
    }

    /// Searches with the UI-oriented default result bound.
    pub fn quick_open(&self, query: &str) -> (matches: Vec<QuickOpenMatch>)
        ensures
            ranked_of(matches@) == search_results(self@.files, query@, DEFAULT_RESULT_LIMIT).0,
    {
        self.search(query, DEFAULT_RESULT_LIMIT)
    }

    /// Searches all regular explorer entries, including binary files.
    ///
    /// Empty queries return the first regular files in deterministic tree order.
    pub fn search_tree_files(&self, query: &str, limit: usize) -> (matches: Vec<QuickOpenMatch>)
        ensures
            ranked_of(matches@) == search_results(file_paths(self@.tree), query@, limit).0,
    {
        self.search_tree_files_with_metadata(query, limit).matches
    }

    /// Searches regular explorer entries and reports result-limit truncation.
    pub fn search_tree_files_with_metadata(&self, query: &str, limit: usize) -> (results:
        BoundedSearchResults)
        ensures
            (ranked_of(results.matches@), results.has_more) == search_results(
                file_paths(self@.tree),
                query@,
                limit,
            ),
    {
        let ghost tree = self@.tree;
        let mut search = PathSearch::new(query, limit);
        let mut i: usize = 0;
        assert(tree.take(0) =~= Seq::<TreeEntry>::empty());
        while i < self.tree_entries.len()
            invariant
                i <= self.tree_entries@.len() == tree.len(),
                tree == tree_of(self.tree_entries@),
                search.follows(file_paths(tree.take(i as int)), query@, limit),
            decreases self.tree_entries@.len() - i,
        {
            let entry = &self.tree_entries[i];
            proof {
                assert(tree.take(i + 1).drop_last() =~= tree.take(i as int));
                assert(tree.take(i + 1).last() == entry@);
                lemma_file_paths(tree.take(i as int));
            }
            if !entry.is_directory {
                search.consider(
                    entry.path.as_slice(),
                    Ghost(file_paths(tree.take(i as int))),
                    Ghost(query@),
                    Ghost(limit),
                );
            }
            i += 1;
        }
        assert(tree.take(i as int) =~= tree);
        search.finish(Ghost(file_paths(tree)), Ghost(query@), Ghost(limit))
    }

    /// How much of an explorer file may be read, if it may be read at all.
    pub fn tree_read_limit(&self, relative: &[u8], max_bytes: u64) -> (result: Result<
        u64,
        ReadRefusal,
    >)
        ensures
            result == tree_read_limit_of(self@.tree, relative@, max_bytes),
    {
        if !self.contains_tree_path(relative) {
            return Err(ReadRefusal::NotInTree);
        }
        if !self.contains_tree_file(relative) {
            return Err(ReadRefusal::IsDirectory);
        }
        Ok(bounded_read_limit(max_bytes))
    }

    /// How much of an indexed text file may be read, if it may be read at all.
    pub fn indexed_read_limit(&self, relative: &[u8], max_bytes: u64) -> (result: Result<
        u64,
        ReadRefusal,
    >)
        ensures
            result == (if self@.files.contains(relative@) {
                Ok(read_limit_of(max_bytes))
            } else {
                Err(ReadRefusal::NotIndexed)
            }),
    {
        proof {
            use_type_invariant(&*self);
        }
        let ghost files = self@.files;
        let mut low: usize = 0;
        let mut high: usize = self.files.len();
        while low < high
            invariant
                low <= high <= files.len() == self.files@.len(),
                files == path_views(self.files@),
                strictly_sorted::<Vec<u8>, PathOrder>(files),
                forall|k: int| 0 <= k < low ==> path_before(#[trigger] files[k], relative@),
                forall|k: int|
                    high <= k < files.len() ==> path_before(relative@, #[trigger] files[k]),
            decreases high - low,
        {
            let middle: usize = low + (high - low) / 2;
            assert(files[middle as int] == self.files@[middle as int]@);
            match compare_paths(self.files[middle].as_slice(), relative) {
                PathOrdering::Same => {
                    assert(files.contains(relative@));
                    return Ok(bounded_read_limit(max_bytes));
                },
                PathOrdering::Before => {
                    proof {
                        assert forall|k: int| 0 <= k < middle + 1 implies path_before(
                            #[trigger] files[k],
                            relative@,
                        ) by {
                            if k < middle {
                                assert(path_before(files[k], files[middle as int]));
                                lemma_path_order_transitive(
                                    files[k],
                                    files[middle as int],
                                    relative@,
                                );
                            }
                        }
                    }
                    low = middle + 1;
                },
                PathOrdering::Behind => {
                    proof {
                        assert forall|k: int| middle <= k < files.len() implies path_before(
                            relative@,
                            #[trigger] files[k],
                        ) by {
                            if k > middle {
                                assert(path_before(files[middle as int], files[k]));
                                lemma_path_order_transitive(
                                    relative@,
                                    files[middle as int],
                                    files[k],
                                );
                            }
                        }
                    }
                    high = middle;
                },
            }
        }
        proof {
            lemma_path_order_total(relative@, relative@);
            if files.contains(relative@) {
                let k = choose|k: int| 0 <= k < files.len() && files[k] == relative@;
                assert(k < low || k >= high);
            }
        }
        Err(ReadRefusal::NotIndexed)
    }
}

} // verus!
