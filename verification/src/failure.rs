//! What a failure does: it ends the extraction where it happens, names
//! its kind, and leaves on disk whatever was done before.

use vstd::prelude::*;
use crate::effects::after_step;
use crate::effects::error_of;
use crate::effects::lemma_run_outcome;
use crate::effects::lemma_run_step;
use crate::effects::permitted;
use crate::effects::run;
use crate::engine::ActionView;
use crate::engine::EventView;
use crate::engine::ExtractError;
use crate::engine::ExtractionView;
use crate::path::PathView;
use crate::plan::steps_of;
use crate::plan::StepView;
use crate::tree::DirectoryView;
use crate::world::drive;
use crate::world::World;

verus! {

/// The kind of error tells what failed. An extraction that waits for a
/// file's bytes fails with `ArchiveRead` unless it is given bytes, and one
/// that waits for a directory or a write fails with `Filesystem` unless it
/// is told that the action was completed. Nothing else fails it.
pub proof fn lemma_error_kinds(state: ExtractionView, event: EventView)
    requires
        !state.is_over(),
    ensures
        state.action() is ReadFile ==> state.react(event) == if event is Data {
            ExtractionView::Running { pending: state->pending, fetched: Some(event->Data_0) }
        } else {
            ExtractionView::Failed(ExtractError::ArchiveRead)
        },
        !(state.action() is ReadFile) ==> state.react(event) == if event is Completed {
            ExtractionView::Running { pending: state->pending.drop_first(), fetched: None }
        } else {
            ExtractionView::Failed(ExtractError::Filesystem)
        },
{
}

/// An extraction that failed stays as it is, whatever is reported to it
/// afterwards, and asks for nothing but to be given up with its error.
pub proof fn lemma_failure_is_final(error: ExtractError, events: Seq<EventView>)
    ensures
        ExtractionView::Failed(error).after(events) == ExtractionView::Failed(error),
        ExtractionView::Failed(error).action() == ActionView::Failed(error),
    decreases events.len(),
{
    if events.len() > 0 {
        lemma_failure_is_final(error, events.drop_last());
    }
}

/// Whether a run through `steps` from `world` ends at the step at `index`:
/// the steps before it succeed, the step itself does not, and the run
/// ends with that step's error in the world that the steps before it left.
pub open spec fn stops_at(steps: Seq<StepView>, world: World, index: int) -> bool {
    &&& 0 <= index < steps.len()
    &&& run(steps.take(index), world).0 == ExtractionView::done()
    &&& !permitted(steps[index], run(steps.take(index), world).1)
    &&& run(steps, world) == (
        ExtractionView::Failed(error_of(steps[index], run(steps.take(index), world).1)),
        run(steps.take(index), world).1,
    )
}

/// A run that fails ends at one of its steps.
pub proof fn lemma_failed_run_stops(steps: Seq<StepView>, world: World) -> (index: int)
    requires
        run(steps, world).0 is Failed,
    ensures
        stops_at(steps, world, index),
    decreases steps.len(),
{
    if steps.len() == 0 {
        // Not so: a run through no steps does not fail.
        0
    } else {
        let step = steps[0];
        let rest = steps.drop_first();
        assert(steps =~= seq![step] + rest);
        lemma_run_step(step, rest, world);
        if permitted(step, world) {
            let next = after_step(step, world);
            let within = lemma_failed_run_stops(rest, next);
            assert(steps.take(within + 1) =~= seq![step] + rest.take(within));
            lemma_run_step(step, rest.take(within), world);
            within + 1
        } else {
            assert(steps.take(0) =~= Seq::empty());
            0
        }
    }
}

/// Failure isolation. An extraction that fails ends at the step that
/// failed: the disk is left exactly as the steps before that one made it,
/// so that everything created until then is still there, unchanged. The
/// error is `ArchiveRead` if and only if the bytes of that step's file
/// could not be had from the archive; every other failure is `Filesystem`.
pub proof fn lemma_failure_isolation(
    target: PathView,
    folder: DirectoryView,
    world: World,
) -> (index: int)
    requires
        drive(ExtractionView::start(target, folder), world).0 is Failed,
    ensures
        stops_at(steps_of(target, folder), world, index),
        ({
            let steps = steps_of(target, folder);
            let error = drive(ExtractionView::start(target, folder), world).0->Failed_0;
            error == ExtractError::ArchiveRead <==> steps[index] is WriteFile
                && !world.archive.contains_key(steps[index]->handle)
        }),
{
    let steps = steps_of(target, folder);
    let index = lemma_failed_run_stops(steps, world);
    lemma_run_outcome(steps.take(index), world);
    index
}

} // verus!
