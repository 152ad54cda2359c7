//! Which results of background services are still wanted.
//!
//! Every result carries a workspace identity and a per-service generation, so
//! an old scan can never replace a newer workspace snapshot.
use vstd::prelude::*;

use crate::paths::{is_same_path, same_path};
use crate::recovery::{
    recovery_words, snapshots_of, RecoveryError, RecoveryListing, RecoveryRecord, RecoveryStore,
    Snapshot,
};
use crate::search::{increment_nonzero, next_generation};
use crate::lsp_types::text_option;
use crate::text::copy_text;

verus! {

/// How many events may wait to be received.
pub const EVENT_CAPACITY: usize = 32;

/// Which start of a service a result belongs to.
#[derive(Clone, Copy, Debug, PartialEq, Eq, Structural)]
pub struct ServiceTag {
    pub workspace_id: u64,
    pub generation: u64,
}

/// A background service.
#[derive(Clone, Copy, Debug, PartialEq, Eq, Structural)]
pub enum ServiceKind {
    Project,
    Git,
    Recovery,
}

/// What the recovery service found.
#[derive(Debug)]
pub struct RecoverySnapshot {
    pub store: Option<RecoveryStore>,
    pub listing: RecoveryListing,
    pub notice: Option<String>,
}

/// A result of a background service.
#[derive(Debug)]
pub enum ServiceEvent<P, G> {
    Project { tag: ServiceTag, result: Result<P, String> },
    Git { tag: ServiceTag, result: Result<Option<G>, String> },
    Recovery { tag: ServiceTag, snapshot: RecoverySnapshot },
}

impl<P, G> ServiceEvent<P, G> {
    /// The tag of an event.
    pub open spec fn event_tag(self) -> ServiceTag {
        match self {
            ServiceEvent::Project { tag, .. } => tag,
            ServiceEvent::Git { tag, .. } => tag,
            ServiceEvent::Recovery { tag, .. } => tag,
        }
    }

    /// The service of an event.
    pub open spec fn event_kind(self) -> ServiceKind {
        match self {
            ServiceEvent::Project { .. } => ServiceKind::Project,
            ServiceEvent::Git { .. } => ServiceKind::Git,
            ServiceEvent::Recovery { .. } => ServiceKind::Recovery,
        }
    }

    /// Which start of a service the event belongs to.
    pub fn tag(&self) -> (tag: ServiceTag)
        ensures
            tag == self.event_tag(),
    {
        match self {
            ServiceEvent::Project { tag, .. } => *tag,
            ServiceEvent::Git { tag, .. } => *tag,
            ServiceEvent::Recovery { tag, .. } => *tag,
        }
    }

    /// Which service the event comes from.
    pub fn kind(&self) -> (kind: ServiceKind)
        ensures
            kind == self.event_kind(),
    {
        match self {
            ServiceEvent::Project { .. } => ServiceKind::Project,
            ServiceEvent::Git { .. } => ServiceKind::Git,
            ServiceEvent::Recovery { .. } => ServiceKind::Recovery,
        }
    }
}

/// The generations of the services of one workspace.
#[derive(Debug)]
pub struct ServiceCoordinator {
    workspace_id: u64,
    project_generation: u64,
    git_generation: u64,
    recovery_generation: u64,
}

/// The content of a [`ServiceCoordinator`].
pub struct Generations {
    pub workspace_id: u64,
    pub project: u64,
    pub git: u64,
    pub recovery: u64,
}

impl View for ServiceCoordinator {
    type V = Generations;

    closed spec fn view(&self) -> Generations {
        Generations {
            workspace_id: self.workspace_id,
            project: self.project_generation,
            git: self.git_generation,
            recovery: self.recovery_generation,
        }
    }
}

/// The current generation of a service.
pub open spec fn generation_of(generations: Generations, kind: ServiceKind) -> u64 {
    match kind {
        ServiceKind::Project => generations.project,
        ServiceKind::Git => generations.git,
        ServiceKind::Recovery => generations.recovery,
    }
}

/// Generations after a service was started again.
pub open spec fn restarted(generations: Generations, kind: ServiceKind) -> Generations {
    match kind {
        ServiceKind::Project => Generations {
            project: next_generation(generations.project),
            ..generations
        },
        ServiceKind::Git => Generations { git: next_generation(generations.git), ..generations },
        ServiceKind::Recovery => Generations {
            recovery: next_generation(generations.recovery),
            ..generations
        },
    }
}

/// Whether a tag is that of the last start of a service.
pub open spec fn is_current_tag(
    generations: Generations,
    kind: ServiceKind,
    tag: ServiceTag,
) -> bool {
    tag.workspace_id == generations.workspace_id && tag.generation == generation_of(
        generations,
        kind,
    )
}

impl ServiceCoordinator {
    /// For a workspace in which nothing was started yet.
    pub fn new(workspace_id: u64) -> (coordinator: Self)
        ensures
            coordinator@ == (Generations { workspace_id, project: 0, git: 0, recovery: 0 }),
    {
        ServiceCoordinator {
            workspace_id,
            project_generation: 0,
            git_generation: 0,
            recovery_generation: 0,
        }
    }

    /// Starts a service again. Results of its earlier starts are no longer
    /// current.
    pub fn start(&mut self, kind: ServiceKind) -> (tag: ServiceTag)
        ensures
            final(self)@ == restarted(old(self)@, kind),
            is_current_tag(final(self)@, kind, tag),
    {
        let generation = match kind {
            ServiceKind::Project => {
                self.project_generation = increment_nonzero(self.project_generation);
                self.project_generation
            },
            ServiceKind::Git => {
                self.git_generation = increment_nonzero(self.git_generation);
                self.git_generation
            },
            ServiceKind::Recovery => {
                self.recovery_generation = increment_nonzero(self.recovery_generation);
                self.recovery_generation
            },
        };
        ServiceTag { workspace_id: self.workspace_id, generation }
    }

    /// Starts every service; their generations.
    pub fn start_all(&mut self) -> (generations: (u64, u64, u64))
        ensures
            final(self)@ == restarted(
                restarted(restarted(old(self)@, ServiceKind::Project), ServiceKind::Git),
                ServiceKind::Recovery,
            ),
            generations == (final(self)@.project, final(self)@.git, final(self)@.recovery),
    {
        let project = self.start(ServiceKind::Project);
        let git = self.start(ServiceKind::Git);
        let recovery = self.start(ServiceKind::Recovery);
        (project.generation, git.generation, recovery.generation)
    }

    /// Whether an event belongs to the last start of its service.
    pub fn is_current<P, G>(&self, event: &ServiceEvent<P, G>) -> (yes: bool)
        ensures
            yes == is_current_tag(self@, event.event_kind(), event.event_tag()),
    {
        let tag = event.tag();
        let generation = match event.kind() {
            ServiceKind::Project => self.project_generation,
            ServiceKind::Git => self.git_generation,
            ServiceKind::Recovery => self.recovery_generation,
        };
        tag.workspace_id == self.workspace_id && tag.generation == generation
    }

    /// Makes every result so far outdated.
    pub fn cancel_all(&mut self)
        ensures
            final(self)@ == (Generations {
                workspace_id: old(self)@.workspace_id,
                project: next_generation(old(self)@.project),
                git: next_generation(old(self)@.git),
                recovery: next_generation(old(self)@.recovery),
            }),
    {
        self.project_generation = increment_nonzero(self.project_generation);
        self.git_generation = increment_nonzero(self.git_generation);
        self.recovery_generation = increment_nonzero(self.recovery_generation);
    }
}

/// Starting a service again outdates the result of the start before, and of no
/// other service.
pub proof fn law_restart_outdates_only_its_service(
    generations: Generations,
    kind: ServiceKind,
    other: ServiceKind,
    tag: ServiceTag,
)
    requires
        is_current_tag(generations, other, tag),
    ensures
        is_current_tag(restarted(generations, kind), other, tag) == (kind != other),
{
}

/// The records of one workspace, whose root may be spelled in another way.
pub open spec fn records_below(records: Seq<Snapshot>, root: Seq<u8>) -> Seq<Snapshot>
    decreases records.len(),
{
    if records.len() == 0 {
        Seq::empty()
    } else if is_same_path(records.last().workspace_root, root) {
        records_below(records.drop_last(), root).push(records.last())
    } else {
        records_below(records.drop_last(), root)
    }
}

/// Keeps the records of one workspace.
fn retain_workspace(records: Vec<RecoveryRecord>, root: &[u8]) -> (kept: Vec<RecoveryRecord>)
    ensures
        snapshots_of(kept@) == records_below(snapshots_of(records@), root@),
{
    let ghost all = snapshots_of(records@);
    let _size: usize = records.len();
    let mut rest = records;
    let mut stack: Vec<RecoveryRecord> = Vec::new();
    let ghost source = rest@;
    while rest.len() > 0
        invariant
            rest@.len() + stack@.len() == source.len(),
            forall|k: int| 0 <= k < rest@.len() ==> #[trigger] rest@[k] == source[k],
            forall|k: int|
                0 <= k < stack@.len() ==> #[trigger] stack@[k] == source[source.len() - 1 - k],
        decreases rest@.len(),
    {
        if let Some(record) = rest.pop() {
            stack.push(record);
        }
    }
    let mut kept: Vec<RecoveryRecord> = Vec::new();
    assert(snapshots_of(kept@) =~= Seq::<Snapshot>::empty());
    assert(all.take(0) =~= Seq::<Snapshot>::empty());
    while stack.len() > 0
        invariant
            stack@.len() <= source.len(),
            all == snapshots_of(source),
            forall|k: int|
                0 <= k < stack@.len() ==> #[trigger] stack@[k] == source[source.len() - 1 - k],
            snapshots_of(kept@) == records_below(all.take(source.len() - stack@.len()), root@),
        decreases stack@.len(),
    {
        let ghost i = source.len() - stack@.len();
        if let Some(record) = stack.pop() {
            proof {
                assert(record == source[i as int]);
                assert(all.take(i + 1).drop_last() =~= all.take(i as int));
                assert(all.take(i + 1).last() == record@);
            }
            if same_path(record.workspace_root.as_slice(), root) {
                let ghost before = kept@;
                kept.push(record);
                assert(snapshots_of(kept@) =~= snapshots_of(before).push(record@));
            }
        }
    }
    assert(all.take(source.len() as int) =~= all);
    kept
}

/// What the recovery service reports: the journals of the workspace, or a
/// notice on why there are none.
pub fn recovery_snapshot(
    root: &[u8],
    store: Result<RecoveryStore, RecoveryError>,
    listing: Result<RecoveryListing, RecoveryError>,
) -> (snapshot: RecoverySnapshot)
    ensures
        match (store, listing) {
            (Ok(found), Ok(list)) => {
                &&& snapshot.store == Some(found)
                &&& snapshots_of(snapshot.listing.records@) == records_below(
                    snapshots_of(list.records@),
                    root@,
                )
                &&& snapshot.listing.warnings@ == list.warnings@
                &&& snapshot.notice is None
            },
            (Ok(found), Err(error)) => {
                &&& snapshot.store == Some(found)
                &&& snapshot.listing.records@.len() == 0
                &&& snapshot.listing.warnings@.len() == 0
                &&& text_option(snapshot.notice) == Some(
                    "Recovery scan unavailable: "@ + recovery_words(error@),
                )
            },
            (Err(error), _) => {
                &&& snapshot.store is None
                &&& snapshot.listing.records@.len() == 0
                &&& snapshot.listing.warnings@.len() == 0
                &&& text_option(snapshot.notice) == Some(
                    "Recovery unavailable: "@ + recovery_words(error@),
                )
            },
        },
{
    match store {
        Ok(store) => match listing {
            Ok(listing) => {
                let records = retain_workspace(listing.records, root);
                RecoverySnapshot {
                    store: Some(store),
                    listing: RecoveryListing { records, warnings: listing.warnings },
                    notice: None,
                }
            },
            Err(error) => {
                let mut notice = copy_text("Recovery scan unavailable: ");
                notice.push_str(error.describe().as_str());
                RecoverySnapshot {
                    store: Some(store),
                    listing: RecoveryListing::default(),
                    notice: Some(notice),
                }
            },
        },
        Err(error) => {
            let mut notice = copy_text("Recovery unavailable: ");
            notice.push_str(error.describe().as_str());
            RecoverySnapshot {
                store: None,
                listing: RecoveryListing::default(),
                notice: Some(notice),
            }
        },
    }
}

} // verus!
