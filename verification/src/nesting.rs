//! Where an extraction writes, and in which order: everything goes under
//! the directory that the extraction was started for, and a directory is
//! there before anything is put into it.

use vstd::prelude::*;
use crate::effects::after_step;
use crate::effects::entries_of;
use crate::effects::lemma_run_concat;
use crate::effects::lemma_run_keeps_kinds;
use crate::effects::lemma_run_step;
use crate::effects::permitted;
use crate::effects::run;
use crate::engine::root_target;
use crate::engine::ActionView;
use crate::engine::EventView;
use crate::engine::ExtractionView;
use crate::path::PathView;
use crate::plan::file_steps;
use crate::plan::folder_steps;
use crate::plan::steps_of;
use crate::plan::StepView;
use crate::tree::DirectoryView;
use crate::world::drive;
use crate::world::leads_to;
use crate::world::World;

verus! {

/// Whether `path` lies under the directory `target`, at any depth.
pub open spec fn below(path: PathView, target: PathView) -> bool {
    path.len() > target.len() && target.is_prefix_of(path)
}

/// Every step of `steps` creates `target` or something under it, and
/// writes only under it.
pub open spec fn confined_to(steps: Seq<StepView>, target: PathView) -> bool {
    forall|i: int|
        0 <= i < steps.len() ==> match #[trigger] steps[i] {
            StepView::CreateDir { path } => path == target || below(path, target),
            StepView::WriteFile { path, .. } => below(path, target),
        }
}

/// What is a sub-directory or lies under it lies under the directory, and
/// has the sub-directory's name where the directory's path ends.
pub proof fn lemma_below_child(path: PathView, target: PathView, name: Seq<char>)
    requires
        path == target.push(name) || below(path, target.push(name)),
    ensures
        below(path, target),
        path[target.len() as int] == name,
{
    let child = target.push(name);
    assert(child.is_prefix_of(path));
    assert(child =~= path.subrange(0, child.len() as int));
    assert(target =~= path.subrange(0, target.len() as int)) by {
        assert forall|k: int| 0 <= k < target.len() implies target[k] == path[k] by {
            assert(child[k] == path.subrange(0, child.len() as int)[k]);
        }
    }
    assert(child[target.len() as int] == path.subrange(0, child.len() as int)[target.len() as int]);
}

/// The steps that extract sub-folders of `target` touch only what lies
/// under `target`.
proof fn lemma_folder_steps_confined(target: PathView, folders: Seq<DirectoryView>)
    ensures
        forall|i: int|
            0 <= i < folder_steps(target, folders).len() ==> below(
                (#[trigger] folder_steps(target, folders)[i]).path(),
                target,
            ),
    decreases folders,
{
    if folders.len() > 0 {
        let last = folders.last();
        let child = target.push(last.name);
        let before = folder_steps(target, folders.drop_last());
        let inner = steps_of(child, last);
        lemma_folder_steps_confined(target, folders.drop_last());
        lemma_steps_confined(child, last);
        assert forall|i: int| 0 <= i < folder_steps(target, folders).len() implies below(
            (#[trigger] folder_steps(target, folders)[i]).path(),
            target,
        ) by {
            if i >= before.len() {
                let step = inner[i - before.len()];
                assert(folder_steps(target, folders)[i] == step);
                lemma_below_child(step.path(), target, last.name);
            } else {
                assert(folder_steps(target, folders)[i] == before[i]);
            }
        }
    }
}

/// The steps that extract a folder into `target` create `target` and
/// otherwise touch only what lies under it.
pub proof fn lemma_steps_confined(target: PathView, folder: DirectoryView)
    ensures
        confined_to(steps_of(target, folder), target),
    decreases folder,
{
    let steps = steps_of(target, folder);
    let files = file_steps(target, folder.files);
    let folders = folder_steps(target, folder.folders);
    lemma_folder_steps_confined(target, folder.folders);
    assert forall|i: int| 0 <= i < steps.len() implies match #[trigger] steps[i] {
        StepView::CreateDir { path } => path == target || below(path, target),
        StepView::WriteFile { path, .. } => below(path, target),
    } by {
        if i == 0 {
        } else if i < 1 + files.len() {
            let path = target.push(folder.files[i - 1].name);
            assert(steps[i] == files[i - 1]);
            assert(target =~= path.subrange(0, target.len() as int));
        } else {
            let step = folders[i - 1 - files.len()];
            assert(steps[i] == step);
            assert(below(step.path(), target));
        }
    }
}

/// Two directories that both lead to one place lie one above the other.
proof fn lemma_prefixes_line_up(path: PathView, target: PathView, place: PathView)
    requires
        leads_to(path, place),
        place == target || below(place, target),
    ensures
        leads_to(path, target) || below(path, target),
{
    assert(target =~= place.subrange(0, target.len() as int));
    assert(path =~= place.subrange(0, path.len() as int));
    if path.len() <= target.len() {
        assert(path =~= target.subrange(0, path.len() as int)) by {
            assert forall|k: int| 0 <= k < path.len() implies path[k] == target[k] by {
                assert(path[k] == place.subrange(0, path.len() as int)[k]);
                assert(target[k] == place.subrange(0, target.len() as int)[k]);
            }
        }
    } else {
        assert(target =~= path.subrange(0, target.len() as int)) by {
            assert forall|k: int| 0 <= k < target.len() implies path[k] == target[k] by {
                assert(path[k] == place.subrange(0, path.len() as int)[k]);
                assert(target[k] == place.subrange(0, target.len() as int)[k]);
            }
        }
    }
}

/// A run through steps that are confined to `target` leaves every other
/// place on disk as it was.
proof fn lemma_run_confined(steps: Seq<StepView>, target: PathView, world: World, path: PathView)
    requires
        confined_to(steps, target),
        !leads_to(path, target),
        !below(path, target),
    ensures
        run(steps, world).1.disk.contains_key(path) == world.disk.contains_key(path),
        world.disk.contains_key(path) ==> run(steps, world).1.disk[path] == world.disk[path],
    decreases steps.len(),
{
    if steps.len() > 0 {
        let step = steps[0];
        let rest = steps.drop_first();
        assert(steps =~= seq![step] + rest);
        lemma_run_step(step, rest, world);
        if permitted(step, world) {
            assert(!entries_of(step, world.archive).contains_key(path)) by {
                if leads_to(path, step.path()) {
                    lemma_prefixes_line_up(path, target, step.path());
                }
            }
            assert(confined_to(rest, target)) by {
                assert forall|i: int| 0 <= i < rest.len() implies match #[trigger] rest[i] {
                    StepView::CreateDir { path } => path == target || below(path, target),
                    StepView::WriteFile { path, .. } => below(path, target),
                } by {
                    assert(rest[i] == steps[i + 1]);
                }
            }
            lemma_run_confined(rest, target, after_step(step, world), path);
        }
    }
}

/// Confinement. An extraction, whether it succeeds or fails, changes
/// nothing on disk but the directory that it extracts into, what lies
/// under that directory, and the directories that lead to it. Whatever
/// else is on disk stays as it was, and nothing else appears.
pub proof fn lemma_extraction_is_confined(
    target: PathView,
    folder: DirectoryView,
    world: World,
    path: PathView,
)
    requires
        !leads_to(path, target),
        !below(path, target),
    ensures
        ({
            let disk = drive(ExtractionView::start(target, folder), world).1.disk;
            &&& disk.contains_key(path) == world.disk.contains_key(path)
            &&& world.disk.contains_key(path) ==> disk[path] == world.disk[path]
        }),
{
    lemma_steps_confined(target, folder);
    lemma_run_confined(steps_of(target, folder), target, world, path);
}

/// The extraction of `steps` has got to some point: it failed, or what is
/// pending is the rest of `steps` from some step on.
pub open spec fn progress_of(state: ExtractionView, steps: Seq<StepView>) -> bool {
    match state {
        ExtractionView::Failed(_) => true,
        ExtractionView::Running { pending, .. } => exists|done: int|
            0 <= done <= steps.len() && pending == #[trigger] steps.skip(done),
    }
}

/// Whatever is reported to an extraction, what it still has before it is
/// always the rest of its plan.
pub proof fn lemma_progress(steps: Seq<StepView>, events: Seq<EventView>)
    ensures
        progress_of(
            (ExtractionView::Running { pending: steps, fetched: None }).after(events),
            steps,
        ),
    decreases events.len(),
{
    let start = ExtractionView::Running { pending: steps, fetched: None };
    if events.len() == 0 {
        assert(steps == steps.skip(0));
    } else {
        lemma_progress(steps, events.drop_last());
        let before = start.after(events.drop_last());
        let after = before.react(events.last());
        match before {
            ExtractionView::Failed(_) => {},
            ExtractionView::Running { pending, fetched } => {
                let done = choose|done: int|
                    0 <= done <= steps.len() && pending == #[trigger] steps.skip(done);
                if after is Running {
                    if after->pending != pending {
                        assert(after->pending == pending.drop_first());
                        assert(pending.len() > 0);
                        assert(pending.drop_first() =~= steps.skip(done + 1));
                    }
                }
            },
        }
    }
}

/// Root nesting. An archive is extracted into the directory of its root
/// folder's name under the output directory: whatever has been reported so
/// far, the extraction asks for no directory and no file but there. No
/// file is ever written into the output directory itself.
pub proof fn lemma_root_nesting(output: PathView, root: DirectoryView, events: Seq<EventView>)
    ensures
        match ExtractionView::start(root_target(output, root), root).after(events).action() {
            ActionView::CreateDir { path } => {
                &&& below(path, output)
                &&& path[output.len() as int] == root.name
            },
            ActionView::WriteFile { path, .. } => {
                &&& below(path, output)
                &&& path[output.len() as int] == root.name
                &&& path.len() >= output.len() + 2
            },
            _ => true,
        },
{
    let target = root_target(output, root);
    let steps = steps_of(target, root);
    let state = ExtractionView::start(target, root).after(events);
    lemma_progress(steps, events);
    lemma_steps_confined(target, root);
    match state {
        ExtractionView::Failed(_) => {},
        ExtractionView::Running { pending, fetched } => {
            if pending.len() > 0 {
                let done = choose|done: int|
                    0 <= done <= steps.len() && pending == #[trigger] steps.skip(done);
                assert(pending[0] == steps[done]);
                lemma_below_child(steps[done].path(), output, root.name);
            }
        },
    }
}

/// Whether the step at `index` finds its directory made by an earlier
/// step of `steps`.
pub open spec fn parent_made_before(steps: Seq<StepView>, index: int) -> bool {
    exists|earlier: int|
        0 <= earlier < index && #[trigger] steps[earlier] == (StepView::CreateDir {
            path: steps[index].path().drop_last(),
        })
}

/// Each step that extracts sub-folders of `target` comes after the step
/// that creates its directory, unless that directory is `target` itself.
proof fn lemma_folder_steps_order(target: PathView, folders: Seq<DirectoryView>, index: int)
    requires
        0 <= index < folder_steps(target, folders).len(),
    ensures
        parent_made_before(folder_steps(target, folders), index) || folder_steps(
            target,
            folders,
        )[index].path().drop_last() == target,
    decreases folders,
{
    let steps = folder_steps(target, folders);
    let last = folders.last();
    let child = target.push(last.name);
    let before = folder_steps(target, folders.drop_last());
    let inner = steps_of(child, last);
    if index < before.len() {
        lemma_folder_steps_order(target, folders.drop_last(), index);
        assert(steps[index] == before[index]);
        if parent_made_before(before, index) {
            let earlier = choose|earlier: int|
                0 <= earlier < index && #[trigger] before[earlier] == (StepView::CreateDir {
                    path: before[index].path().drop_last(),
                });
            assert(steps[earlier] == before[earlier]);
        }
    } else {
        let within = index - before.len();
        assert(steps[index] == inner[within]);
        lemma_steps_order(child, last, within);
        if within == 0 {
            assert(child.drop_last() =~= target);
        } else {
            let earlier = choose|earlier: int|
                0 <= earlier < within && #[trigger] inner[earlier] == (StepView::CreateDir {
                    path: inner[within].path().drop_last(),
                });
            assert(steps[before.len() + earlier] == inner[earlier]);
        }
    }
}

/// Directory before children, in the plan. The first step of an
/// extraction creates the directory that it was started for. Every later
/// step, a file to write or a directory to create, comes after the step
/// that creates the directory it lies in.
pub proof fn lemma_steps_order(target: PathView, folder: DirectoryView, index: int)
    requires
        0 <= index < steps_of(target, folder).len(),
    ensures
        steps_of(target, folder)[0] == (StepView::CreateDir { path: target }),
        index > 0 ==> parent_made_before(steps_of(target, folder), index),
    decreases folder,
{
    let steps = steps_of(target, folder);
    let files = file_steps(target, folder.files);
    let folders = folder_steps(target, folder.folders);
    if index == 0 {
    } else if index < 1 + files.len() {
        assert(steps[index] == files[index - 1]);
        assert(steps[index].path().drop_last() =~= target);
        assert(steps[0] == (StepView::CreateDir { path: steps[index].path().drop_last() }));
    } else {
        let within = index - 1 - files.len();
        assert(steps[index] == folders[within]);
        lemma_folder_steps_order(target, folder.folders, within);
        if parent_made_before(folders, within) {
            let earlier = choose|earlier: int|
                0 <= earlier < within && #[trigger] folders[earlier] == (StepView::CreateDir {
                    path: folders[within].path().drop_last(),
                });
            assert(steps[1 + files.len() + earlier] == folders[earlier]);
        } else {
            assert(steps[0] == (StepView::CreateDir { path: steps[index].path().drop_last() }));
        }
    }
}

/// Directory before children, on disk. When the turn of a step comes, all
/// steps before it having succeeded, the directory that the step's file or
/// directory lies in exists: no step fails for want of it.
pub proof fn lemma_directory_before_children(
    target: PathView,
    folder: DirectoryView,
    world: World,
    index: int,
)
    requires
        0 < index < steps_of(target, folder).len(),
        run(steps_of(target, folder).take(index), world).0 == ExtractionView::done(),
    ensures
        ({
            let parent = steps_of(target, folder)[index].path().drop_last();
            let disk = run(steps_of(target, folder).take(index), world).1.disk;
            parent.len() >= 1 ==> disk.contains_key(parent) && disk[parent] is Directory
        }),
{
    let steps = steps_of(target, folder);
    let parent = steps[index].path().drop_last();
    lemma_steps_order(target, folder, index);
    let earlier = choose|earlier: int|
        0 <= earlier < index && #[trigger] steps[earlier] == (StepView::CreateDir { path: parent });
    let first = steps.take(earlier);
    let rest = steps.subrange(earlier + 1, index);
    assert(steps.take(index) =~= first + (seq![steps[earlier]] + rest));
    lemma_run_concat(first, seq![steps[earlier]] + rest, world);
    let reached = run(first, world).1;
    lemma_run_step(steps[earlier], rest, reached);
    let made = after_step(steps[earlier], reached);
    lemma_run_keeps_kinds(rest, made);
    if parent.len() >= 1 {
        assert(leads_to(parent, parent)) by {
            assert(parent =~= parent.subrange(0, parent.len() as int));
        }
        assert(made.disk.contains_key(parent));
    }
}

} // verus!
