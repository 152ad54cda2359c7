//! What the workspace index promises: which files count as text, which entries
//! are kept, and in which order they are walked.
use vstd::prelude::*;
use vstd::utf8::*;

use crate::paths::{lossy_text, path_join};
use crate::project::{
    after_directory, after_entry, entry_before, file_paths, ignored_directories, ignored_files,
    invalid_bytes, listed, name_before, probably_text, read_limit_of, within_largest, EntrySeen,
    Pending, TreeEntry, WalkLimits, WalkState,
};
use crate::quick_open::{bytes_before, path_before};
use crate::search_laws::{law_binary_data_is_told_by_its_bytes, law_text_is_not_binary};
use crate::text::text_before;

verus! {

/// Text is always indexed: valid UTF-8 that holds no control characters other
/// than tabs and line breaks is probably text.
pub proof fn law_text_is_probably_text(sample: Seq<u8>)
    requires
        valid_utf8(sample),
        forall|i: int|
            0 <= i < sample.len() ==> {
                let byte = #[trigger] sample[i];
                byte == 9 || byte == 10 || byte == 13 || 32 <= byte <= 126 || 128 <= byte
            },
    ensures
        probably_text(sample),
{
    law_text_is_not_binary(sample);
}

/// A sample is probably text if and only if it holds no zero byte, at most one
/// control character in a hundred bytes, and at most one byte in a hundred that
/// belongs to no scalar value.
pub proof fn law_samples_are_judged_by_their_bytes(sample: Seq<u8>)
    ensures
        probably_text(sample) <==> {
            &&& !sample.contains(0u8)
            &&& 100 * sample.filter(
                |byte: u8| (byte < 32 && byte != 9 && byte != 10 && byte != 13) || byte == 127,
            ).len() <= sample.len()
            &&& 100 * invalid_bytes(sample) <= sample.len()
        },
        valid_utf8(sample) ==> invalid_bytes(sample) == 0,
{
    law_binary_data_is_told_by_its_bytes(sample);
}

/// A name is ignored for a directory or a file by these lists alone, whatever
/// the case of its ASCII letters.
pub proof fn law_ignored_names(name: Seq<u8>)
    ensures
        ({
            let low = |byte: u8|
                if 65 <= byte <= 90 {
                    byte + 32
                } else {
                    byte as int
                };
            let same = |text: Seq<u8>|
                name.len() == text.len() && forall|k: int|
                    0 <= k < name.len() ==> low(#[trigger] name[k]) == low(text[k]);
            let directories = seq![
                ".git",
                ".hg",
                ".svn",
                ".cache",
                ".gradle",
                ".idea",
                ".mypy_cache",
                ".next",
                ".nuxt",
                ".parcel-cache",
                ".pytest_cache",
                ".ruff_cache",
                ".turbo",
                ".venv",
                "__pycache__",
                "build",
                "coverage",
                "dist",
                "node_modules",
                "out",
                "target",
                "tmp",
                "vendor",
                "venv",
            ];
            let files = seq![".DS_Store", ".git"];
            &&& listed(name, ignored_directories()) <==> exists|i: int|
                0 <= i < directories.len() && same(encode_utf8((#[trigger] directories[i])@))
            &&& listed(name, ignored_files()) <==> exists|i: int|
                0 <= i < files.len() && same(encode_utf8((#[trigger] files[i])@))
        }),
{
    let low = |byte: u8|
        if 65 <= byte <= 90 {
            byte + 32
        } else {
            byte as int
        };
    let same = |text: Seq<u8>|
        name.len() == text.len() && forall|k: int|
            0 <= k < name.len() ==> low(#[trigger] name[k]) == low(text[k]);
    assert forall|text: Seq<u8>| #[trigger] same(text) <==> crate::project::same_ignoring_case(
        name,
        text,
    ) by {
        assert forall|byte: u8| #[trigger] low(byte) == crate::project::ascii_lower(byte) as int by {}
        if same(text) {
            assert forall|k: int| 0 <= k < name.len() implies crate::project::ascii_lower(
                #[trigger] name[k],
            ) == crate::project::ascii_lower(text[k]) by {
                assert(low(name[k]) == low(text[k]));
            }
        }
        if crate::project::same_ignoring_case(name, text) {
            assert forall|k: int| 0 <= k < name.len() implies low(#[trigger] name[k]) == low(
                text[k],
            ) by {
                assert(crate::project::ascii_lower(name[k]) == crate::project::ascii_lower(text[k]));
            }
        }
    }
    let directories = ignored_directories();
    let files = ignored_files();
    if listed(name, directories) {
        let i = choose|i: int|
            0 <= i < directories.len() && crate::project::same_ignoring_case(
                name,
                encode_utf8((#[trigger] directories[i])@),
            );
        assert(same(encode_utf8(directories[i]@)));
    }
    if listed(name, files) {
        let i = choose|i: int|
            0 <= i < files.len() && crate::project::same_ignoring_case(
                name,
                encode_utf8((#[trigger] files[i])@),
            );
        assert(same(encode_utf8(files[i]@)));
    }
}

/// An entry of a directory has the path of the directory, a slash and its name;
/// below the root it is the name alone.
pub proof fn law_entry_path(directory: Seq<u8>, name: Seq<u8>)
    ensures
        directory.len() == 0 ==> path_join(directory, name) == name,
        directory.len() > 0 && directory.last() != 47 ==> path_join(directory, name) == directory
            + seq![47u8] + name,
        directory.len() > 0 && directory.last() == 47 ==> path_join(directory, name) == directory
            + name,
{
    assert(directory.push(47) =~= directory + seq![47u8]);
    if directory.len() == 0 {
        assert(directory + name =~= name);
    }
}

/// Where there is room, an entry is kept as what it is: a directory in the tree
/// and among the directories to be walked, a text file in the tree and in the
/// index, and any other regular file in the tree alone. Nothing is reported as
/// left out then, unless the start of a file could not be read.
pub proof fn law_entries_are_kept_as_what_they_are<D>(
    state: WalkState<D>,
    directory: Pending<D>,
    name: Seq<u8>,
    seen: EntrySeen,
    handle: D,
)
    requires
        path_join(directory.relative, name).len() <= 4096,
        state.tree.len() < state.limits.tree_entries,
        state.tree_bytes + path_join(directory.relative, name).len() <= state.limits.tree_path_bytes,
        state.files.len() < state.limits.files,
        state.file_bytes + path_join(directory.relative, name).len()
            <= state.limits.indexed_path_bytes,
        directory.depth < state.limits.depth,
    ensures
        ({
            let after = after_entry(state, directory, name, seen, handle);
            let path = path_join(directory.relative, name);
            let ignored = match seen {
                EntrySeen::Directory => listed(name, ignored_directories()),
                EntrySeen::File(_) => listed(name, ignored_files()),
                EntrySeen::Other => true,
                EntrySeen::Failed => true,
            };
            let text = seen == EntrySeen::File(Some(true)) && !ignored;
            let folder = seen == EntrySeen::Directory && !ignored;
            &&& after.limits == state.limits
            &&& after.scanned == state.scanned
            &&& after.pending == state.pending
            &&& after.tree == if ignored {
                state.tree
            } else {
                state.tree.push(TreeEntry { path, is_directory: seen == EntrySeen::Directory })
            }
            &&& after.files == if text {
                state.files.push(path)
            } else {
                state.files
            }
            &&& after.children == if folder {
                state.children.push(
                    Pending {
                        handle,
                        name: Some(name),
                        relative: path,
                        depth: (directory.depth + 1) as usize,
                    },
                )
            } else {
                state.children
            }
            &&& after.truncated <==> state.truncated || seen == EntrySeen::Failed || (seen
                == EntrySeen::File(None) && !ignored)
            &&& after.tree_truncated <==> state.tree_truncated || seen == EntrySeen::Failed
        }),
{
}

/// Where there is no room for an entry, what is left out is reported, and
/// nothing else: the tree by the size of the tree, and the index by the size of
/// the index. A directory that lies too deep is kept, but not walked.
pub proof fn law_left_out_entries_are_reported<D>(
    state: WalkState<D>,
    directory: Pending<D>,
    name: Seq<u8>,
    seen: EntrySeen,
    handle: D,
)
    ensures
        ({
            let after = after_entry(state, directory, name, seen, handle);
            let path = path_join(directory.relative, name);
            let no_tree = path.len() > 4096 || state.tree.len() >= state.limits.tree_entries
                || state.tree_bytes + path.len() > state.limits.tree_path_bytes;
            let no_index = path.len() > 4096 || state.files.len() >= state.limits.files
                || state.file_bytes + path.len() > state.limits.indexed_path_bytes;
            &&& seen is File && !listed(name, ignored_files()) ==> {
                &&& after.tree_truncated <==> state.tree_truncated || no_tree
                &&& no_tree ==> after.tree == state.tree
                &&& seen == EntrySeen::File(Some(true)) ==> (after.truncated <==> state.truncated
                    || no_index)
                &&& seen == EntrySeen::File(Some(true)) && no_index ==> after.files == state.files
                &&& seen == EntrySeen::File(Some(false)) ==> after.truncated == state.truncated
                &&& seen != EntrySeen::File(Some(true)) ==> after.files == state.files
            }
            &&& seen == EntrySeen::Directory && !listed(name, ignored_directories()) ==> {
                &&& after.tree_truncated <==> state.tree_truncated || no_tree || directory.depth
                    >= state.limits.depth
                &&& after.truncated <==> state.truncated || directory.depth >= state.limits.depth
                &&& directory.depth >= state.limits.depth ==> after.children == state.children
                &&& directory.depth < state.limits.depth ==> after.children.len()
                    == state.children.len() + 1
                &&& after.files == state.files
            }
        }),
{
}

/// What a directory holds is walked before everything that was waiting, in the
/// order in which it was seen. A directory that was not listed completely ends
/// the walk.
pub proof fn law_children_are_walked_next<D>(state: WalkState<D>, k: int)
    requires
        0 <= k < state.children.len(),
    ensures
        ({
            let after = after_directory(state, true);
            &&& after.children.len() == 0
            &&& after.pending.len() == state.pending.len() + state.children.len()
            &&& after.pending[after.pending.len() - 1 - k] == state.children[k]
            &&& after.pending.take(state.pending.len() as int) == state.pending
            &&& after_directory(state, false).pending.len() == 0
            &&& after.files == state.files && after.tree == state.tree
            &&& after.truncated == state.truncated && after.tree_truncated == state.tree_truncated
        }),
{
    let after = after_directory(state, true);
    assert(after.pending.take(state.pending.len() as int) =~= state.pending);
}

/// A walk stays within fifty thousand text files, a hundred thousand entries,
/// two hundred thousand names and sixty-four levels, and a smaller bound stays
/// as it is.
pub proof fn law_walks_are_bounded(limits: WalkLimits)
    ensures
        within_largest(limits).files == vstd::math::min(limits.files as int, 50_000),
        within_largest(limits).tree_entries == vstd::math::min(limits.tree_entries as int, 100_000),
        within_largest(limits).entries == vstd::math::min(limits.entries as int, 200_000),
        within_largest(limits).depth == vstd::math::min(limits.depth as int, 64),
        within_largest(limits).indexed_path_bytes == vstd::math::min(
            limits.indexed_path_bytes as int,
            33_554_432,
        ),
        within_largest(limits).tree_path_bytes == vstd::math::min(
            limits.tree_path_bytes as int,
            67_108_864,
        ),
{
}

/// Names are visited in the order of their texts, and of their bytes where these
/// are the same; entries are in the order of their paths, a directory before a
/// file at the same path.
pub proof fn law_names_and_entries_are_ordered(a: Seq<u8>, b: Seq<u8>, x: bool, y: bool)
    ensures
        name_before(a, b) == if lossy_text(a) != lossy_text(b) {
            text_before(lossy_text(a), lossy_text(b))
        } else {
            bytes_before(a, b)
        },
        entry_before(
            TreeEntry { path: a, is_directory: x },
            TreeEntry { path: b, is_directory: y },
        ) <==> path_before(a, b) || (a == b && x && !y),
{
    crate::text::lemma_text_order_total(lossy_text(a), lossy_text(b));
}

proof fn lemma_file_paths_filter(tree: Seq<TreeEntry>)
    ensures
        file_paths(tree) == tree.filter(|entry: TreeEntry| !entry.is_directory).map_values(
            |entry: TreeEntry| entry.path,
        ),
    decreases tree.len(),
{
    reveal(Seq::filter);
    let kept = tree.filter(|entry: TreeEntry| !entry.is_directory);
    if tree.len() > 0 {
        lemma_file_paths_filter(tree.drop_last());
        let before = tree.drop_last().filter(|entry: TreeEntry| !entry.is_directory);
        if !tree.last().is_directory {
            assert(kept.map_values(|entry: TreeEntry| entry.path) =~= before.map_values(
                |entry: TreeEntry| entry.path,
            ).push(tree.last().path));
        }
    } else {
        assert(kept.map_values(|entry: TreeEntry| entry.path) =~= Seq::<Seq<u8>>::empty());
    }
}

/// The regular files of a tree are its entries that are no directories, in their
/// order.
pub proof fn law_file_paths_are_those_of_files(tree: Seq<TreeEntry>)
    ensures
        file_paths(tree) == tree.filter(|entry: TreeEntry| !entry.is_directory).map_values(
            |entry: TreeEntry| entry.path,
        ),
{
    lemma_file_paths_filter(tree);
}

/// No file is read beyond sixty-four mebibytes.
pub proof fn law_reads_are_bounded(max_bytes: u64)
    ensures
        read_limit_of(max_bytes) == vstd::math::min(max_bytes as int, 67_108_864),
{
}

} // verus!
