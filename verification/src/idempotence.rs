//! Extracting twice: a second run over a disk that a first run left ends
//! as the first did and changes nothing.

use vstd::prelude::*;
use crate::effects::after_step;
use crate::effects::entries_of;
use crate::effects::keeps_kinds;
use crate::effects::lemma_run_concat;
use crate::effects::lemma_run_keeps_kinds;
use crate::effects::lemma_run_outcome;
use crate::effects::lemma_run_step;
use crate::effects::permitted;
use crate::effects::run;
use crate::engine::ExtractionView;
use crate::failure::lemma_failed_run_stops;
use crate::path::PathView;
use crate::plan::steps_of;
use crate::plan::StepView;
use crate::tree::DirectoryView;
use crate::world::drive;
use crate::world::leads_to;
use crate::world::Disk;
use crate::world::World;

verus! {

/// The two disks hold entries at the same paths, and directories at the
/// same paths.
pub open spec fn same_kinds(left: Disk, right: Disk) -> bool {
    keeps_kinds(left, right) && keeps_kinds(right, left)
}

/// The entries that a successful run through `steps` puts on disk: those
/// of each step, a later step's over an earlier step's.
pub open spec fn entries_of_all(steps: Seq<StepView>, archive: Map<u64, Seq<u8>>) -> Disk
    decreases steps.len(),
{
    if steps.len() == 0 {
        Map::empty()
    } else {
        entries_of(steps[0], archive).union_prefer_right(
            entries_of_all(steps.drop_first(), archive),
        )
    }
}

/// A run that succeeds adds the entries of its steps to the disk, and
/// does nothing else.
pub proof fn lemma_run_adds_entries(steps: Seq<StepView>, world: World)
    requires
        run(steps, world).0 == ExtractionView::done(),
    ensures
        run(steps, world).1 == (World {
            disk: world.disk.union_prefer_right(entries_of_all(steps, world.archive)),
            ..world
        }),
    decreases steps.len(),
{
    if steps.len() > 0 {
        let step = steps[0];
        let rest = steps.drop_first();
        assert(steps =~= seq![step] + rest);
        lemma_run_step(step, rest, world);
        lemma_run_adds_entries(rest, after_step(step, world));
    }
    assert(run(steps, world).1.disk =~= world.disk.union_prefer_right(
        entries_of_all(steps, world.archive),
    ));
}

/// Where a run from `world` succeeded and ended on the disk `end`, the
/// same run succeeds from any disk that holds what `end` holds, kind by
/// kind.
proof fn lemma_run_again(steps: Seq<StepView>, world: World, again: World, end: Disk)
    requires
        run(steps, world).0 == ExtractionView::done(),
        run(steps, world).1.disk == end,
        again.archive == world.archive,
        same_kinds(again.disk, end),
    ensures
        run(steps, again).0 == ExtractionView::done(),
    decreases steps.len(),
{
    if steps.len() > 0 {
        let step = steps[0];
        let rest = steps.drop_first();
        assert(steps =~= seq![step] + rest);
        lemma_run_step(step, rest, world);
        lemma_run_step(step, rest, again);
        let next = after_step(step, world);
        lemma_run_keeps_kinds(rest, next);
        assert(permitted(step, again)) by {
            match step {
                StepView::CreateDir { path: target } => {
                    assert forall|path: PathView| #[trigger]
                        leads_to(path, target) && again.disk.contains_key(
                            path,
                        ) implies again.disk[path] is Directory by {
                        assert(next.disk.contains_key(path));
                    }
                },
                StepView::WriteFile { path, handle } => {
                    assert(next.disk.contains_key(path));
                    if path.len() >= 2 {
                        assert(next.disk.contains_key(path.drop_last()));
                    }
                },
            }
        }
        let next_again = after_step(step, again);
        assert(same_kinds(next_again.disk, end)) by {
            assert forall|path: PathView| #[trigger]
                next_again.disk.contains_key(path) implies end.contains_key(path) && (
            next_again.disk[path] is Directory <==> end[path] is Directory) by {
                if entries_of(step, again.archive).contains_key(path) {
                    assert(next.disk.contains_key(path));
                }
            }
        }
        lemma_run_again(rest, next, next_again, end);
    }
}

/// A run that succeeded succeeds again from the world that it left, and
/// leaves that world as it is.
pub proof fn lemma_second_run_changes_nothing(steps: Seq<StepView>, world: World)
    requires
        run(steps, world).0 == ExtractionView::done(),
    ensures
        run(steps, run(steps, world).1) == run(steps, world),
{
    let first = run(steps, world).1;
    lemma_run_outcome(steps, world);
    lemma_run_again(steps, world, first, first.disk);
    lemma_run_adds_entries(steps, world);
    lemma_run_adds_entries(steps, first);
    let entries = entries_of_all(steps, world.archive);
    assert(first.disk.union_prefer_right(entries) =~= first.disk);
}

/// A run, whether it succeeds or fails, ends in the same way and leaves
/// the world as it is when it is made once more from the world that it
/// left.
pub proof fn lemma_second_run_ends_alike(steps: Seq<StepView>, world: World)
    ensures
        run(steps, run(steps, world).1) == run(steps, world),
{
    lemma_run_outcome(steps, world);
    if run(steps, world).0 is Failed {
        let index = lemma_failed_run_stops(steps, world);
        let sooner = steps.take(index);
        let later = seq![steps[index]] + steps.skip(index + 1);
        let reached = run(sooner, world).1;
        assert(steps =~= sooner + later);
        lemma_second_run_changes_nothing(sooner, world);
        lemma_run_concat(sooner, later, reached);
        lemma_run_step(steps[index], steps.skip(index + 1), reached);
    } else {
        lemma_second_run_changes_nothing(steps, world);
    }
}

/// Idempotence. Extracting a folder into the same place once more, with
/// the archive handing out the same bytes, ends as the first extraction
/// ended and leaves the disk exactly as the first extraction left it:
/// files are written over with what they hold, and nothing is added.
pub proof fn lemma_extracting_twice(target: PathView, folder: DirectoryView, world: World)
    ensures
        drive(
            ExtractionView::start(target, folder),
            drive(ExtractionView::start(target, folder), world).1,
        ) == drive(ExtractionView::start(target, folder), world),
{
    lemma_second_run_ends_alike(steps_of(target, folder), world);
}

} // verus!
