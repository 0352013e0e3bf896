//! The plan of an extraction: every directory to create and every file to
//! write, in the order in which it has to happen.

use vstd::prelude::*;
use crate::path::OutputPath;
use crate::path::PathView;
use crate::tree::DirectoryNode;
use crate::tree::DirectoryView;
use crate::tree::FileView;

verus! {

/// One step of an extraction.
#[derive(Debug, PartialEq, Eq)]
pub enum Step {
    /// Make sure that `path` exists as a directory.
    CreateDir { path: OutputPath },
    /// Write the bytes that `handle` identifies to the file at `path`.
    WriteFile { path: OutputPath, handle: u64 },
}

/// What a [`Step`] stands for.
pub enum StepView {
    CreateDir { path: PathView },
    WriteFile { path: PathView, handle: u64 },
}

impl View for Step {
    type V = StepView;

    open spec fn view(&self) -> StepView {
        match *self {
            Step::CreateDir { path } => StepView::CreateDir { path: path@ },
            Step::WriteFile { path, handle } => StepView::WriteFile { path: path@, handle },
        }
    }
}

impl StepView {
    /// The path that the step creates or writes.
    pub open spec fn path(self) -> PathView {
        match self {
            StepView::CreateDir { path } => path,
            StepView::WriteFile { path, .. } => path,
        }
    }
}

/// The steps that a list of steps stands for.
pub open spec fn steps_view(steps: Seq<Step>) -> Seq<StepView> {
    Seq::new(steps.len(), |i: int| steps[i]@)
}

/// One write per file, each into the directory `target`, in the order of
/// `files`.
pub open spec fn file_steps(target: PathView, files: Seq<FileView>) -> Seq<StepView> {
    Seq::new(
        files.len(),
        |i: int| StepView::WriteFile { path: target.push(files[i].name), handle: files[i].handle },
    )
}

/// The steps for each of `folders` in turn, every one extracted into the
/// directory of its own name under `target`.
pub open spec fn folder_steps(target: PathView, folders: Seq<DirectoryView>) -> Seq<StepView>
    decreases folders,
{
    if folders.len() == 0 {
        Seq::empty()
    } else {
        folder_steps(target, folders.drop_last()) + steps_of(
            target.push(folders.last().name),
            folders.last(),
        )
    }
}

/// The steps that extract `folder` into the directory `target`: first the
/// directory itself, then the folder's files, then its sub-folders, each
/// of them in the same way.
pub open spec fn steps_of(target: PathView, folder: DirectoryView) -> Seq<StepView>
    decreases folder,
{
    seq![StepView::CreateDir { path: target }] + file_steps(target, folder.files) + folder_steps(
        target,
        folder.folders,
    )
}

/// Appends the steps that extract `folder` into `target` to `steps`.
fn append_steps(target: &OutputPath, folder: &DirectoryNode, steps: &mut Vec<Step>)
    ensures
        steps_view(final(steps)@) == steps_view(old(steps)@) + steps_of(target@, folder@),
    decreases folder,
{
    steps.push(Step::CreateDir { path: target.clone() });
    let ghost with_dir = steps_view(steps@);

    let mut i: usize = 0;
    while i < folder.files.len()
        invariant
            i <= folder.files.len(),
            steps_view(steps@) == with_dir + file_steps(target@, folder@.files.take(i as int)),
        decreases folder.files.len() - i,
    {
        let file = &folder.files[i];
        let ghost done = steps_view(steps@);
        steps.push(Step::WriteFile { path: target.join(file.name.as_str()), handle: file.handle });
        assert(steps_view(steps@) =~= done.push(steps@.last()@));
        i += 1;
    }
    let ghost with_files = steps_view(steps@);

    let mut j: usize = 0;
    while j < folder.folders.len()
        invariant
            j <= folder.folders.len(),
            steps_view(steps@) == with_files + folder_steps(target@, folder@.folders.take(j as int)),
        decreases folder.folders.len() - j,
    {
        let child = &folder.folders[j];
        let sub = target.join(child.name.as_str());
        append_steps(&sub, child, steps);
        assert(folder@.folders.take(j + 1).drop_last() =~= folder@.folders.take(j as int));
        j += 1;
    }
    assert(folder@.folders.take(j as int) =~= folder@.folders);
}

/// The steps that extract `folder` into the directory `target`.
pub fn plan(target: &OutputPath, folder: &DirectoryNode) -> (steps: Vec<Step>)
    ensures
        steps_view(steps@) == steps_of(target@, folder@),
{
    let mut steps: Vec<Step> = Vec::new();
    append_steps(target, folder, &mut steps);
    steps
}

} // verus!
