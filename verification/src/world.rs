//! A model of the world that an extraction acts on: a disk that holds
//! directories and files, and an archive that hands out bytes.
//!
//! The model exists to say what an extraction amounts to. It takes a path
//! for the list of its segments, and a disk for a map from paths to
//! entries. The place that a path's first segment is resolved against is
//! taken to exist.

use vstd::prelude::*;
use crate::engine::ActionView;
use crate::engine::EventView;
use crate::engine::ExtractionView;
use crate::path::PathView;

verus! {

/// What a disk holds at a path.
pub enum Entry {
    Directory,
    File(Seq<u8>),
}

/// A disk: the entries that exist, each at its path.
pub type Disk = Map<PathView, Entry>;

/// The world as an extraction meets it.
pub struct World {
    /// What is on disk.
    pub disk: Disk,
    /// The bytes that the archive hands out, by handle. A handle that the
    /// map does not hold cannot be read.
    pub archive: Map<u64, Seq<u8>>,
}

/// Whether `path` is `target` or one of the directories above it.
pub open spec fn leads_to(path: PathView, target: PathView) -> bool {
    1 <= path.len() && path.is_prefix_of(target)
}

/// The directories that have to exist for `target` to exist as a directory.
pub open spec fn directories_to(target: PathView) -> Disk {
    Map::new(|path: PathView| leads_to(path, target), |path: PathView| Entry::Directory)
}

/// Whether `target` and every directory above it can exist as a directory:
/// none of them is there as anything else.
pub open spec fn may_create_dir(disk: Disk, target: PathView) -> bool {
    forall|path: PathView| #[trigger]
        leads_to(path, target) && disk.contains_key(path) ==> disk[path] is Directory
}

/// Whether a file can be written at `path`: the directory that is to hold
/// it exists, and `path` itself is free or a file.
pub open spec fn may_write(disk: Disk, path: PathView) -> bool {
    &&& path.len() >= 1
    &&& path.len() >= 2 ==> disk.contains_key(path.drop_last()) && disk[path.drop_last()] is Directory
    &&& disk.contains_key(path) ==> disk[path] is File
}

impl World {
    /// How the world answers an action: the world after the action, and what
    /// is reported of it.
    pub open spec fn respond(self, action: ActionView) -> (World, EventView) {
        match action {
            ActionView::CreateDir { path } => if may_create_dir(self.disk, path) {
                (
                    World { disk: self.disk.union_prefer_right(directories_to(path)), ..self },
                    EventView::Completed,
                )
            } else {
                (self, EventView::Failed)
            },
            ActionView::ReadFile { handle } => if self.archive.contains_key(handle) {
                (self, EventView::Data(self.archive[handle]))
            } else {
                (self, EventView::Failed)
            },
            ActionView::WriteFile { path, data } => if may_write(self.disk, path) {
                (World { disk: self.disk.insert(path, Entry::File(data)), ..self }, EventView::Completed)
            } else {
                (self, EventView::Failed)
            },
            ActionView::Finished => (self, EventView::Completed),
            ActionView::Failed(_) => (self, EventView::Completed),
        }
    }
}

/// Runs an extraction against the world until it is over: each action that
/// the extraction asks for is answered by the world, and the answer is
/// reported back. Gives the state in which the extraction ended and the
/// world as it then is.
pub open spec fn drive(state: ExtractionView, world: World) -> (ExtractionView, World)
    decreases state.remaining_work(),
{
    if state.is_over() {
        (state, world)
    } else {
        let (next, event) = world.respond(state.action());
        drive(state.react(event), next)
    }
}

} // verus!
