//! What a whole walk of a workspace gives.
use vstd::prelude::*;

use crate::paths::path_join;
use crate::project::{
    after_directory, after_entry, child_of, ignored_directories, ignored_files, listed, partial,
    snapshot_of, EntrySeen, Index, Pending, TreeEntry, WalkState,
};

verus! {

/// A file system as a walk sees it through handles: what opening a name below a
/// directory gives, what a directory holds, and what listing it gives when only
/// so many names may be listed.
#[verifier::reject_recursive_types(D)]
pub struct FileTree<D> {
    pub open: spec_fn(D, Seq<u8>) -> Option<D>,
    pub entries: spec_fn(D) -> Seq<(Seq<u8>, EntrySeen)>,
    pub listing: spec_fn(D, int) -> Option<(Seq<(Seq<u8>, EntrySeen)>, bool)>,
}

/// Whether listings are honest: they name what is there, at most as much as was
/// asked for, and all of it where they say so.
pub open spec fn tree_is_honest<D>(tree: FileTree<D>) -> bool {
    forall|directory: D, room: int|
        #![trigger (tree.listing)(directory, room)]
        match (tree.listing)(directory, room) {
            Some((shown, complete)) => {
                &&& shown.len() <= room
                &&& forall|i: int|
                    0 <= i < shown.len() ==> (tree.entries)(directory).contains(
                        #[trigger] shown[i],
                    )
                &&& complete ==> forall|i: int|
                    0 <= i < (tree.entries)(directory).len() ==> shown.contains(
                        #[trigger] (tree.entries)(directory)[i],
                    )
            },
            None => true,
        }
}

/// What a snapshot may hold of a path.
pub enum Wanted {
    /// A text file of the index.
    Text,
    /// An entry of the explorer: a directory or a file.
    Entry { is_directory: bool },
}

/// Whether an entry of a directory is wanted.
pub open spec fn is_wanted(wanted: Wanted, name: Seq<u8>, seen: EntrySeen) -> bool {
    match wanted {
        Wanted::Text => seen == EntrySeen::File(Some(true)) && !listed(name, ignored_files()),
        Wanted::Entry { is_directory: true } => walks_into(name, seen),
        Wanted::Entry { is_directory: false } => seen is File && !listed(name, ignored_files()),
    }
}

/// Whether a walk goes into an entry.
pub open spec fn walks_into(name: Seq<u8>, seen: EntrySeen) -> bool {
    seen == EntrySeen::Directory && !listed(name, ignored_directories())
}

/// Whether what is wanted stands at `path` below a directory whose own path is
/// `relative`, at most `levels` directories further down. Only directories that
/// are not ignored lead there, and no symbolic link does.
pub open spec fn stands_below<D>(
    tree: FileTree<D>,
    directory: D,
    relative: Seq<u8>,
    levels: nat,
    wanted: Wanted,
    path: Seq<u8>,
) -> bool
    decreases levels,
{
    exists|i: int|
        0 <= i < (tree.entries)(directory).len() && {
            let (name, seen) = #[trigger] (tree.entries)(directory)[i];
            ||| is_wanted(wanted, name, seen) && path == path_join(relative, name)
            ||| levels > 0 && walks_into(name, seen) && match (tree.open)(directory, name) {
                Some(child) => stands_below(
                    tree,
                    child,
                    path_join(relative, name),
                    (levels - 1) as nat,
                    wanted,
                    path,
                ),
                None => false,
            }
        }
}

/// Whether what is wanted stands anywhere below a directory.
pub open spec fn is_below<D>(
    tree: FileTree<D>,
    directory: D,
    relative: Seq<u8>,
    wanted: Wanted,
    path: Seq<u8>,
) -> bool {
    exists|levels: nat| #[trigger] stands_below(tree, directory, relative, levels, wanted, path)
}

/// The directory that is pending.
pub open spec fn opened<D>(tree: FileTree<D>, pending: Pending<D>) -> Option<D> {
    match pending.name {
        Some(name) => (tree.open)(pending.handle, name),
        None => Some(pending.handle),
    }
}

/// Whether what is wanted stands below a pending directory.
pub open spec fn is_pending<D>(
    tree: FileTree<D>,
    pending: Pending<D>,
    wanted: Wanted,
    path: Seq<u8>,
) -> bool {
    opened(tree, pending) matches Some(directory) && is_below(
        tree,
        directory,
        pending.relative,
        wanted,
        path,
    )
}

/// Whether a walk holds what is wanted.
pub open spec fn is_held<D>(state: WalkState<D>, wanted: Wanted, path: Seq<u8>) -> bool {
    match wanted {
        Wanted::Text => state.files.contains(path),
        Wanted::Entry { is_directory } => state.tree.contains(TreeEntry { path, is_directory }),
    }
}

/// Whether a walk says that it may lack some of what is wanted.
pub open spec fn may_lack<D>(state: WalkState<D>, wanted: Wanted) -> bool {
    match wanted {
        Wanted::Text => state.truncated,
        Wanted::Entry { .. } => state.tree_truncated,
    }
}

/// A walk after these entries of a directory were seen.
pub open spec fn after_entries<D>(
    state: WalkState<D>,
    directory: Pending<D>,
    entries: Seq<(Seq<u8>, EntrySeen)>,
    handle: D,
) -> WalkState<D>
    decreases entries.len(),
{
    if entries.len() == 0 {
        state
    } else {
        let (name, seen) = entries.last();
        after_entry(
            after_entries(state, directory, entries.drop_last(), handle),
            directory,
            name,
            seen,
            handle,
        )
    }
}

/// A walk after its next directory was walked.
pub open spec fn after_next<D>(state: WalkState<D>, tree: FileTree<D>) -> WalkState<D> {
    let directory = state.pending.last();
    let rest = WalkState { pending: state.pending.drop_last(), ..state };
    match opened(tree, directory) {
        None => partial(rest),
        Some(handle) => match (tree.listing)(handle, state.limits.entries - state.scanned) {
            None => partial(rest),
            Some((shown, complete)) => after_directory(
                after_entries(
                    WalkState {
                        scanned: (state.scanned + shown.len()) as usize,
                        truncated: state.truncated || !complete,
                        tree_truncated: state.tree_truncated || !complete,
                        ..rest
                    },
                    directory,
                    shown,
                    handle,
                ),
                complete,
            ),
        },
    }
}

/// A walk after as many directories.
pub open spec fn after_steps<D>(state: WalkState<D>, tree: FileTree<D>, steps: nat) -> WalkState<D>
    decreases steps,
{
    if steps == 0 {
        state
    } else {
        let before = after_steps(state, tree, (steps - 1) as nat);
        if before.pending.len() == 0 {
            before
        } else {
            after_next(before, tree)
        }
    }
}

/// What a walk of a tree has always done so far: what it holds stands below the
/// root, and what it does not hold is still to come, or may be lacking.
spec fn follows<D>(state: WalkState<D>, tree: FileTree<D>, root: D) -> bool {
    &&& state.children.len() == 0
    &&& forall|wanted: Wanted, path: Seq<u8>|
        is_held(state, wanted, path) ==> #[trigger] is_below(
            tree,
            root,
            Seq::empty(),
            wanted,
            path,
        )
    &&& forall|i: int, wanted: Wanted, path: Seq<u8>|
        #![trigger is_pending(tree, state.pending[i], wanted, path)]
        0 <= i < state.pending.len() && is_pending(tree, state.pending[i], wanted, path)
            ==> is_below(tree, root, Seq::empty(), wanted, path)
    &&& forall|wanted: Wanted, path: Seq<u8>| #[trigger]
        is_below(tree, root, Seq::empty(), wanted, path) ==> may_lack(state, wanted) || is_held(
            state,
            wanted,
            path,
        ) || exists|i: int|
            0 <= i < state.pending.len() && #[trigger] is_pending(
                tree,
                state.pending[i],
                wanted,
                path,
            )
}

/// What seeing entries does: nothing is lost, what is wanted is held, and what
/// is to be walked is remembered with the handle of its directory.
proof fn lemma_entries<D>(
    state: WalkState<D>,
    directory: Pending<D>,
    entries: Seq<(Seq<u8>, EntrySeen)>,
    handle: D,
)
    requires
        state.children.len() == 0,
    ensures
        ({
            let after = after_entries(state, directory, entries, handle);
            &&& after.pending == state.pending
            &&& after.limits == state.limits
            &&& after.scanned == state.scanned
            &&& state.truncated ==> after.truncated
            &&& state.tree_truncated ==> after.tree_truncated
            &&& forall|wanted: Wanted, path: Seq<u8>|
                is_held(state, wanted, path) ==> #[trigger] is_held(after, wanted, path)
            &&& forall|wanted: Wanted, path: Seq<u8>| #[trigger]
                is_held(after, wanted, path) ==> is_held(state, wanted, path) || exists|i: int|
                    0 <= i < entries.len() && is_wanted(
                        wanted,
                        (#[trigger] entries[i]).0,
                        entries[i].1,
                    ) && path == path_join(directory.relative, entries[i].0)
            &&& forall|i: int, wanted: Wanted|
                0 <= i < entries.len() && #[trigger] is_wanted(
                    wanted,
                    entries[i].0,
                    entries[i].1,
                ) ==> may_lack(after, wanted) || is_held(
                    after,
                    wanted,
                    path_join(directory.relative, entries[i].0),
                )
            &&& forall|i: int|
                0 <= i < entries.len() && walks_into((#[trigger] entries[i]).0, entries[i].1)
                    ==> (after.truncated && after.tree_truncated) || after.children.contains(
                    child_of(directory, entries[i].0, handle),
                )
            &&& forall|j: int|
                0 <= j < after.children.len() ==> comes_from(
                    #[trigger] after.children[j],
                    directory,
                    entries,
                    handle,
                )
        }),
    decreases entries.len(),
{
    if entries.len() > 0 {
        let front = entries.drop_last();
        lemma_entries(state, directory, front, handle);
        let before = after_entries(state, directory, front, handle);
        let after = after_entries(state, directory, entries, handle);
        let (name, seen) = entries.last();
        let last = entries.len() - 1;
        let relative = path_join(directory.relative, name);
        lemma_entry(before, directory, name, seen, handle);
        assert(entries[last] == (name, seen));
        assert forall|i: int| 0 <= i < last implies #[trigger] entries[i] == front[i] by {}
        assert forall|wanted: Wanted, path: Seq<u8>|
            is_held(state, wanted, path) implies #[trigger] is_held(after, wanted, path) by {
            assert(is_held(before, wanted, path));
        }
        assert forall|wanted: Wanted, path: Seq<u8>| #[trigger]
            is_held(after, wanted, path) implies is_held(state, wanted, path) || exists|i: int|
            0 <= i < entries.len() && is_wanted(
                wanted,
                (#[trigger] entries[i]).0,
                entries[i].1,
            ) && path == path_join(directory.relative, entries[i].0) by {
            if is_held(before, wanted, path) && !is_held(state, wanted, path) {
                let i = choose|i: int|
                    0 <= i < front.len() && is_wanted(wanted, (#[trigger] front[i]).0, front[i].1)
                        && path == path_join(directory.relative, front[i].0);
                assert(entries[i] == front[i]);
            }
        }
        assert forall|i: int, wanted: Wanted|
            0 <= i < entries.len() && #[trigger] is_wanted(
                wanted,
                entries[i].0,
                entries[i].1,
            ) implies may_lack(after, wanted) || is_held(
            after,
            wanted,
            path_join(directory.relative, entries[i].0),
        ) by {
            if i < last {
                assert(is_wanted(wanted, front[i].0, front[i].1));
            }
        }
        assert forall|i: int|
            0 <= i < entries.len() && walks_into(
                (#[trigger] entries[i]).0,
                entries[i].1,
            ) implies (after.truncated && after.tree_truncated) || after.children.contains(
            child_of(directory, entries[i].0, handle),
        ) by {
            if i < last {
                assert(entries[i] == front[i]);
            }
        }
        assert forall|j: int| 0 <= j < after.children.len() implies comes_from(
            #[trigger] after.children[j],
            directory,
            entries,
            handle,
        ) by {
            if j < before.children.len() {
                assert(after.children[j] == before.children[j]);
                let i = choose|i: int|
                    0 <= i < front.len() && walks_into((#[trigger] front[i]).0, front[i].1)
                        && before.children[j] == child_of(directory, front[i].0, handle);
                assert(entries[i] == front[i]);
            } else {
                assert(walks_into(entries[last].0, entries[last].1));
            }
        }
    }
}

/// Whether a pending directory is one of these entries.
spec fn comes_from<D>(
    child: Pending<D>,
    directory: Pending<D>,
    entries: Seq<(Seq<u8>, EntrySeen)>,
    handle: D,
) -> bool {
    exists|i: int|
        0 <= i < entries.len() && walks_into((#[trigger] entries[i]).0, entries[i].1) && child
            == child_of(directory, entries[i].0, handle)
}

/// What seeing one entry does.
proof fn lemma_entry<D>(
    state: WalkState<D>,
    directory: Pending<D>,
    name: Seq<u8>,
    seen: EntrySeen,
    handle: D,
)
    ensures
        ({
            let after = after_entry(state, directory, name, seen, handle);
            let relative = path_join(directory.relative, name);
            let child = child_of(directory, name, handle);
            &&& after.pending == state.pending
            &&& after.limits == state.limits
            &&& after.scanned == state.scanned
            &&& state.truncated ==> after.truncated
            &&& state.tree_truncated ==> after.tree_truncated
            &&& forall|wanted: Wanted, path: Seq<u8>|
                is_held(state, wanted, path) ==> #[trigger] is_held(after, wanted, path)
            &&& forall|wanted: Wanted, path: Seq<u8>| #[trigger]
                is_held(after, wanted, path) ==> is_held(state, wanted, path) || (is_wanted(
                    wanted,
                    name,
                    seen,
                ) && path == relative)
            &&& forall|wanted: Wanted| #[trigger]
                is_wanted(wanted, name, seen) ==> may_lack(after, wanted) || is_held(
                    after,
                    wanted,
                    relative,
                )
            &&& walks_into(name, seen) ==> (after.truncated && after.tree_truncated)
                || after.children == state.children.push(child)
            &&& after.children == state.children || (walks_into(name, seen) && after.children
                == state.children.push(child))
            &&& forall|pending: Pending<D>|
                state.children.contains(pending) ==> #[trigger] after.children.contains(pending)
            &&& after.children == state.children.push(child) ==> after.children.contains(child)
        }),
{
    let after = after_entry(state, directory, name, seen, handle);
    let relative = path_join(directory.relative, name);
    let child = child_of(directory, name, handle);
    let file = TreeEntry { path: relative, is_directory: false };
    let folder = TreeEntry { path: relative, is_directory: true };
    lemma_pushed(state.files, relative);
    lemma_pushed(state.tree, file);
    lemma_pushed(state.tree, folder);
    lemma_pushed(state.children, child);
    assert(after.files == state.files || after.files == state.files.push(relative));
    assert(after.tree == state.tree || after.tree == state.tree.push(file) || after.tree
        == state.tree.push(folder));
}

proof fn lemma_pushed<T>(items: Seq<T>, item: T)
    ensures
        forall|x: T| #[trigger] items.push(item).contains(x) <==> items.contains(x) || x == item,
{
    let longer = items.push(item);
    assert forall|x: T| #[trigger] longer.contains(x) <==> items.contains(x) || x == item by {
        if items.contains(x) {
            let i = choose|i: int| 0 <= i < items.len() && items[i] == x;
            assert(longer[i] == x);
        }
        if x == item {
            assert(longer[items.len() as int] == x);
        }
        if longer.contains(x) {
            let i = choose|i: int| 0 <= i < longer.len() && longer[i] == x;
            if i < items.len() {
                assert(items[i] == x);
            }
        }
    }
}

/// What stands below a directory is an entry of it, or stands below one that is
/// walked into; and the other way round.
proof fn lemma_below<D>(
    tree: FileTree<D>,
    directory: D,
    relative: Seq<u8>,
    wanted: Wanted,
    path: Seq<u8>,
)
    ensures
        is_below(tree, directory, relative, wanted, path) <==> exists|i: int|
            0 <= i < (tree.entries)(directory).len() && #[trigger] leads_to(
                tree,
                directory,
                relative,
                (tree.entries)(directory)[i],
                wanted,
                path,
            ),
{
    let entries = (tree.entries)(directory);
    if is_below(tree, directory, relative, wanted, path) {
        let levels = choose|levels: nat| #[trigger]
            stands_below(tree, directory, relative, levels, wanted, path);
        let i = choose|i: int|
            0 <= i < entries.len() && {
                let (name, seen) = #[trigger] entries[i];
                ||| is_wanted(wanted, name, seen) && path == path_join(relative, name)
                ||| levels > 0 && walks_into(name, seen) && match (tree.open)(directory, name) {
                    Some(child) => stands_below(
                        tree,
                        child,
                        path_join(relative, name),
                        (levels - 1) as nat,
                        wanted,
                        path,
                    ),
                    None => false,
                }
            };
        assert(leads_to(tree, directory, relative, entries[i], wanted, path));
    }
    if exists|i: int|
        0 <= i < entries.len() && #[trigger] leads_to(
            tree,
            directory,
            relative,
            entries[i],
            wanted,
            path,
        ) {
        let i = choose|i: int|
            0 <= i < entries.len() && #[trigger] leads_to(
                tree,
                directory,
                relative,
                entries[i],
                wanted,
                path,
            );
        let (name, seen) = entries[i];
        if is_wanted(wanted, name, seen) && path == path_join(relative, name) {
            assert(stands_below(tree, directory, relative, 0, wanted, path));
        } else {
            let child = (tree.open)(directory, name)->0;
            let levels = choose|levels: nat| #[trigger]
                stands_below(tree, child, path_join(relative, name), levels, wanted, path);
            assert(stands_below(tree, directory, relative, levels + 1, wanted, path));
        }
    }
}

/// Whether an entry of a directory is what is wanted, or that stands below it.
spec fn leads_to<D>(
    tree: FileTree<D>,
    directory: D,
    relative: Seq<u8>,
    entry: (Seq<u8>, EntrySeen),
    wanted: Wanted,
    path: Seq<u8>,
) -> bool {
    let (name, seen) = entry;
    ||| is_wanted(wanted, name, seen) && path == path_join(relative, name)
    ||| walks_into(name, seen) && match (tree.open)(directory, name) {
        Some(child) => is_below(tree, child, path_join(relative, name), wanted, path),
        None => false,
    }
}

/// Walking one more directory keeps what holds of a walk.
proof fn lemma_next<D>(state: WalkState<D>, tree: FileTree<D>, root: D)
    requires
        tree_is_honest(tree),
        follows(state, tree, root),
        state.pending.len() > 0,
    ensures
        follows(after_next(state, tree), tree, root),
{
    let directory = state.pending.last();
    let last = state.pending.len() - 1;
    let after = after_next(state, tree);
    let room = state.limits.entries - state.scanned;
    if opened(tree, directory) is Some && (tree.listing)(opened(tree, directory)->0, room) is Some {
        let handle = opened(tree, directory)->0;
        let (shown, complete) = (tree.listing)(handle, room)->0;
        let entries = (tree.entries)(handle);
        let entered = WalkState {
            pending: state.pending.drop_last(),
            scanned: (state.scanned + shown.len()) as usize,
            truncated: state.truncated || !complete,
            tree_truncated: state.tree_truncated || !complete,
            ..state
        };
        let seen_all = after_entries(entered, directory, shown, handle);
        lemma_entries(entered, directory, shown, handle);
        assert forall|wanted: Wanted, path: Seq<u8>|
            is_held(after, wanted, path) implies #[trigger] is_below(
            tree,
            root,
            Seq::empty(),
            wanted,
            path,
        ) by {
            assert(is_held(seen_all, wanted, path));
            if !is_held(entered, wanted, path) {
                let i = choose|i: int|
                    0 <= i < shown.len() && is_wanted(wanted, (#[trigger] shown[i]).0, shown[i].1)
                        && path == path_join(directory.relative, shown[i].0);
                assert(entries.contains(shown[i]));
                let k = choose|k: int| 0 <= k < entries.len() && entries[k] == shown[i];
                assert(leads_to(tree, handle, directory.relative, entries[k], wanted, path));
                lemma_below(tree, handle, directory.relative, wanted, path);
                assert(is_pending(tree, state.pending[last], wanted, path));
            } else {
                assert(is_held(state, wanted, path));
            }
        }
        assert forall|j: int, wanted: Wanted, path: Seq<u8>|
            #![trigger is_pending(tree, after.pending[j], wanted, path)]
            0 <= j < after.pending.len() && is_pending(
                tree,
                after.pending[j],
                wanted,
                path,
            ) implies is_below(tree, root, Seq::empty(), wanted, path) by {
            if j < last {
                assert(after.pending[j] == state.pending[j]);
                assert(is_pending(tree, state.pending[j], wanted, path));
            } else {
                let c = seen_all.children.len() - 1 - (j - last);
                assert(after.pending[j] == seen_all.children[c]);
                assert(comes_from(seen_all.children[c], directory, shown, handle));
                let i = choose|i: int|
                    0 <= i < shown.len() && walks_into((#[trigger] shown[i]).0, shown[i].1)
                        && seen_all.children[c] == child_of(directory, shown[i].0, handle);
                assert(entries.contains(shown[i]));
                let k = choose|k: int| 0 <= k < entries.len() && entries[k] == shown[i];
                assert(leads_to(tree, handle, directory.relative, entries[k], wanted, path));
                lemma_below(tree, handle, directory.relative, wanted, path);
                assert(is_pending(tree, state.pending[last], wanted, path));
            }
        }
        assert forall|wanted: Wanted, path: Seq<u8>| #[trigger]
            is_below(tree, root, Seq::empty(), wanted, path) implies may_lack(after, wanted)
            || is_held(after, wanted, path) || exists|j: int|
            0 <= j < after.pending.len() && #[trigger] is_pending(
                tree,
                after.pending[j],
                wanted,
                path,
            ) by {
            if !may_lack(after, wanted) && !is_held(after, wanted, path) {
                assert(!may_lack(state, wanted));
                assert(!is_held(state, wanted, path)) by {
                    if is_held(state, wanted, path) {
                        assert(is_held(entered, wanted, path));
                        assert(is_held(seen_all, wanted, path));
                    }
                }
                assert(complete);
                let i = choose|i: int|
                    0 <= i < state.pending.len() && #[trigger] is_pending(
                        tree,
                        state.pending[i],
                        wanted,
                        path,
                    );
                if i < last {
                    assert(after.pending[i] == state.pending[i]);
                    assert(is_pending(tree, after.pending[i], wanted, path));
                } else {
                    lemma_below(tree, handle, directory.relative, wanted, path);
                    let k = choose|k: int|
                        0 <= k < entries.len() && #[trigger] leads_to(
                            tree,
                            handle,
                            directory.relative,
                            entries[k],
                            wanted,
                            path,
                        );
                    assert(shown.contains(entries[k]));
                    let m = choose|m: int| 0 <= m < shown.len() && shown[m] == entries[k];
                    let (name, seen) = shown[m];
                    if is_wanted(wanted, name, seen) && path == path_join(
                        directory.relative,
                        name,
                    ) {
                        assert(is_wanted(wanted, shown[m].0, shown[m].1));
                        assert(is_held(seen_all, wanted, path));
                        assert(is_held(after, wanted, path));
                    } else {
                        let child = child_of(directory, name, handle);
                        assert(walks_into(shown[m].0, shown[m].1));
                        assert(seen_all.children.contains(child));
                        let c = choose|c: int|
                            0 <= c < seen_all.children.len() && seen_all.children[c] == child;
                        let j = last + (seen_all.children.len() - 1 - c);
                        assert(after.pending[j] == child);
                        assert(is_pending(tree, after.pending[j], wanted, path));
                    }
                }
            }
        }
    } else {
        assert(after == partial(WalkState { pending: state.pending.drop_last(), ..state }));
        assert forall|wanted: Wanted, path: Seq<u8>|
            is_held(after, wanted, path) implies #[trigger] is_below(
            tree,
            root,
            Seq::empty(),
            wanted,
            path,
        ) by {
            assert(is_held(state, wanted, path));
        }
        assert forall|j: int, wanted: Wanted, path: Seq<u8>|
            #![trigger is_pending(tree, after.pending[j], wanted, path)]
            0 <= j < after.pending.len() && is_pending(
                tree,
                after.pending[j],
                wanted,
                path,
            ) implies is_below(tree, root, Seq::empty(), wanted, path) by {
            assert(is_pending(tree, state.pending[j], wanted, path));
        }
    }
}

/// A whole walk holds only what stands below its root, reached through
/// directories that are not ignored; and where it does not say that it may lack
/// something, it holds all of that. This goes for the text files of the index
/// and for the entries of the explorer.
pub proof fn law_whole_walk<D>(
    start: WalkState<D>,
    tree: FileTree<D>,
    root: D,
    steps: nat,
    wanted: Wanted,
    path: Seq<u8>,
)
    requires
        tree_is_honest(tree),
        start.pending == seq![
            Pending { handle: root, name: None, relative: Seq::empty(), depth: 0 },
        ],
        start.children.len() == 0,
        start.files.len() == 0,
        start.tree.len() == 0,
        after_steps(start, tree, steps).pending.len() == 0,
    ensures
        ({
            let end = after_steps(start, tree, steps);
            let there = is_below(tree, root, Seq::empty(), wanted, path);
            &&& is_held(end, wanted, path) ==> there
            &&& !may_lack(end, wanted) ==> (is_held(end, wanted, path) <==> there)
        }),
{
    lemma_steps(start, tree, root, steps);
}

proof fn lemma_steps<D>(start: WalkState<D>, tree: FileTree<D>, root: D, steps: nat)
    requires
        tree_is_honest(tree),
        start.pending == seq![
            Pending { handle: root, name: None, relative: Seq::empty(), depth: 0 },
        ],
        start.children.len() == 0,
        start.files.len() == 0,
        start.tree.len() == 0,
    ensures
        follows(after_steps(start, tree, steps), tree, root),
    decreases steps,
{
    if steps == 0 {
        assert forall|wanted: Wanted, path: Seq<u8>| #[trigger]
            is_below(tree, root, Seq::empty(), wanted, path) implies exists|i: int|
            0 <= i < start.pending.len() && #[trigger] is_pending(
                tree,
                start.pending[i],
                wanted,
                path,
            ) by {
            assert(is_pending(tree, start.pending[0], wanted, path));
        }
    } else {
        lemma_steps(start, tree, root, (steps - 1) as nat);
        let before = after_steps(start, tree, (steps - 1) as nat);
        if before.pending.len() > 0 {
            lemma_next(before, tree, root);
        }
    }
}

/// The index that a whole walk gives holds only what stands below its root, and
/// all of it where it does not say that it is partial.
pub proof fn law_index_holds_the_tree<D>(
    index: Index,
    location: Seq<u8>,
    start: WalkState<D>,
    tree: FileTree<D>,
    root: D,
    steps: nat,
    path: Seq<u8>,
    is_directory: bool,
)
    requires
        tree_is_honest(tree),
        start.pending == seq![
            Pending { handle: root, name: None, relative: Seq::empty(), depth: 0 },
        ],
        start.children.len() == 0,
        start.files.len() == 0,
        start.tree.len() == 0,
        after_steps(start, tree, steps).pending.len() == 0,
        snapshot_of(index, location, after_steps(start, tree, steps)),
    ensures
        ({
            let text = is_below(tree, root, Seq::empty(), Wanted::Text, path);
            let entry = is_below(tree, root, Seq::empty(), Wanted::Entry { is_directory }, path);
            &&& index.files.contains(path) ==> text
            &&& !index.truncated ==> (index.files.contains(path) <==> text)
            &&& index.tree.contains(TreeEntry { path, is_directory }) ==> entry
            &&& !index.tree_truncated ==> (index.tree.contains(
                TreeEntry { path, is_directory },
            ) <==> entry)
        }),
{
    law_whole_walk(start, tree, root, steps, Wanted::Text, path);
    law_whole_walk(start, tree, root, steps, Wanted::Entry { is_directory }, path);
}

} // verus!
