//! What the steps of a plan do to the modelled world when an extraction
//! runs through them.

use vstd::prelude::*;
use crate::engine::ExtractError;
use crate::engine::ExtractionView;
use crate::path::PathView;
use crate::plan::StepView;
use crate::world::directories_to;
use crate::world::drive;
use crate::world::may_create_dir;
use crate::world::may_write;
use crate::world::Disk;
use crate::world::Entry;
use crate::world::World;

verus! {

/// The entries that a step puts on disk when it succeeds.
pub open spec fn entries_of(step: StepView, archive: Map<u64, Seq<u8>>) -> Disk {
    match step {
        StepView::CreateDir { path } => directories_to(path),
        StepView::WriteFile { path, handle } => map![path => Entry::File(archive[handle])],
    }
}

/// Whether a step succeeds in `world`.
pub open spec fn permitted(step: StepView, world: World) -> bool {
    match step {
        StepView::CreateDir { path } => may_create_dir(world.disk, path),
        StepView::WriteFile { path, handle } => world.archive.contains_key(handle) && may_write(
            world.disk,
            path,
        ),
    }
}

/// The error with which a step fails in `world`, if it fails.
pub open spec fn error_of(step: StepView, world: World) -> ExtractError {
    match step {
        StepView::CreateDir { .. } => ExtractError::Filesystem,
        StepView::WriteFile { handle, .. } => if world.archive.contains_key(handle) {
            ExtractError::Filesystem
        } else {
            ExtractError::ArchiveRead
        },
    }
}

/// The world after a step that succeeded in `world`.
pub open spec fn after_step(step: StepView, world: World) -> World {
    World { disk: world.disk.union_prefer_right(entries_of(step, world.archive)), ..world }
}

/// Everything that is on `before` is on `after` too, a directory where it
/// was a directory and a file where it was a file.
pub open spec fn keeps_kinds(before: Disk, after: Disk) -> bool {
    forall|path: PathView| #[trigger]
        before.contains_key(path) ==> after.contains_key(path) && (before[path] is Directory
            <==> after[path] is Directory)
}

/// Runs an extraction that has `steps` before it against the world.
pub open spec fn run(steps: Seq<StepView>, world: World) -> (ExtractionView, World) {
    drive(ExtractionView::Running { pending: steps, fetched: None }, world)
}

/// A run takes its first step if the world permits it, and goes on from
/// the world that the step leaves; else it fails there and then.
pub proof fn lemma_run_step(step: StepView, rest: Seq<StepView>, world: World)
    ensures
        run(seq![step] + rest, world) == if permitted(step, world) {
            run(rest, after_step(step, world))
        } else {
            (ExtractionView::Failed(error_of(step, world)), world)
        },
{
    let pending = seq![step] + rest;
    let state = ExtractionView::Running { pending, fetched: None };
    let failed = ExtractionView::Failed(error_of(step, world));
    assert(pending.drop_first() =~= rest);
    assert(drive(failed, world) == (failed, world));
    if let StepView::WriteFile { path, handle } = step {
        if world.archive.contains_key(handle) {
            // The read succeeds; the write that follows decides.
            let fetched = ExtractionView::Running { pending, fetched: Some(world.archive[handle]) };
            assert(drive(state, world) == drive(fetched, world));
            if may_write(world.disk, path) {
                assert(world.respond(fetched.action()).0.disk =~= after_step(step, world).disk);
            }
        }
    }
}

/// A run ends with everything done or with an error, and leaves the
/// archive as it was.
pub proof fn lemma_run_outcome(steps: Seq<StepView>, world: World)
    ensures
        run(steps, world).0 == ExtractionView::done() || run(steps, world).0 is Failed,
        run(steps, world).1.archive == world.archive,
    decreases steps.len(),
{
    if steps.len() > 0 {
        assert(steps =~= seq![steps[0]] + steps.drop_first());
        lemma_run_step(steps[0], steps.drop_first(), world);
        if permitted(steps[0], world) {
            lemma_run_outcome(steps.drop_first(), after_step(steps[0], world));
        }
    } else {
        assert(steps =~= Seq::empty());
    }
}

/// A run through two lists of steps, one after the other, is a run
/// through the first and, if that succeeds, a run through the second from
/// where the first ended.
pub proof fn lemma_run_concat(first: Seq<StepView>, second: Seq<StepView>, world: World)
    ensures
        run(first + second, world) == if run(first, world).0 == ExtractionView::done() {
            run(second, run(first, world).1)
        } else {
            run(first, world)
        },
    decreases first.len(),
{
    if first.len() == 0 {
        assert(first =~= Seq::empty());
    } else {
        let step = first[0];
        let rest = first.drop_first();
        assert(first =~= seq![step] + rest);
        assert(first + second =~= seq![step] + (rest + second));
        lemma_run_step(step, rest, world);
        lemma_run_step(step, rest + second, world);
        if permitted(step, world) {
            lemma_run_concat(rest, second, after_step(step, world));
        }
    }
}

/// A step that succeeds leaves what was on disk in place, kind by kind.
proof fn lemma_step_keeps_kinds(step: StepView, world: World)
    requires
        permitted(step, world),
    ensures
        keeps_kinds(world.disk, after_step(step, world).disk),
{
}

/// A run that succeeds leaves what was on disk in place, kind by kind.
pub proof fn lemma_run_keeps_kinds(steps: Seq<StepView>, world: World)
    requires
        run(steps, world).0 == ExtractionView::done(),
    ensures
        keeps_kinds(world.disk, run(steps, world).1.disk),
    decreases steps.len(),
{
    if steps.len() > 0 {
        let step = steps[0];
        let rest = steps.drop_first();
        assert(steps =~= seq![step] + rest);
        lemma_run_step(step, rest, world);
        lemma_step_keeps_kinds(step, world);
        lemma_run_keeps_kinds(rest, after_step(step, world));
    }
}

} // verus!
