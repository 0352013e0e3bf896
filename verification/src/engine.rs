//! The extraction engine: a state machine that hands out one action at a
//! time and moves on when told how the action went.
//!
//! The engine never touches an archive or a filesystem. Its caller performs
//! each action and reports the outcome as an [`Event`]; the engine decides
//! what comes next, and stops for good at the first failure.

use vstd::prelude::*;
use crate::path::OutputPath;
use crate::path::PathView;
use crate::plan::plan;
use crate::plan::steps_of;
use crate::plan::steps_view;
use crate::plan::Step;
use crate::plan::StepView;
use crate::tree::DirectoryNode;
use crate::tree::DirectoryView;

verus! {

/// Why an extraction stopped before it was done.
#[derive(Debug, Clone, Copy, PartialEq, Eq, Structural)]
pub enum ExtractError {
    /// A directory could not be created or a file could not be written.
    Filesystem,
    /// The archive could not hand out the bytes of a file.
    ArchiveRead,
}

/// What the caller has to do next.
#[derive(Debug)]
pub enum Action<'a> {
    /// Make sure that `path` exists as a directory, creating every missing
    /// directory on the way; it is no failure if the directory is there.
    CreateDir { path: &'a OutputPath },
    /// Fetch the bytes that `handle` identifies from the archive.
    ReadFile { handle: u64 },
    /// Write `data` to the file at `path`, replacing what the file held.
    WriteFile { path: &'a OutputPath, data: &'a Vec<u8> },
    /// Nothing is left to do: the extraction succeeded.
    Finished,
    /// Nothing more will be done: the extraction failed.
    Failed(ExtractError),
}

/// What an [`Action`] stands for.
pub enum ActionView {
    CreateDir { path: PathView },
    ReadFile { handle: u64 },
    WriteFile { path: PathView, data: Seq<u8> },
    Finished,
    Failed(ExtractError),
}

impl<'a> View for Action<'a> {
    type V = ActionView;

    open spec fn view(&self) -> ActionView {
        match *self {
            Action::CreateDir { path } => ActionView::CreateDir { path: path@ },
            Action::ReadFile { handle } => ActionView::ReadFile { handle },
            Action::WriteFile { path, data } => ActionView::WriteFile { path: path@, data: data@ },
            Action::Finished => ActionView::Finished,
            Action::Failed(error) => ActionView::Failed(error),
        }
    }
}

/// How the action that was handed out last went.
#[derive(Debug)]
pub enum Event {
    /// The directory exists, or the file was written.
    Completed,
    /// The archive handed out these bytes.
    Data(Vec<u8>),
    /// The action could not be carried out.
    Failed,
}

/// What an [`Event`] stands for.
pub enum EventView {
    Completed,
    Data(Seq<u8>),
    Failed,
}

impl View for Event {
    type V = EventView;

    open spec fn view(&self) -> EventView {
        match *self {
            Event::Completed => EventView::Completed,
            Event::Data(data) => EventView::Data(data@),
            Event::Failed => EventView::Failed,
        }
    }
}

/// The state of an extraction, as the rules below see it.
pub enum ExtractionView {
    /// `pending` is still to be done, first step first. `fetched` holds the
    /// bytes that were read for the first pending step and not written yet.
    Running { pending: Seq<StepView>, fetched: Option<Seq<u8>> },
    /// The extraction was given up.
    Failed(ExtractError),
}

impl ExtractionView {
    /// The state in which `folder` is about to be extracted into `target`.
    pub open spec fn start(target: PathView, folder: DirectoryView) -> ExtractionView {
        ExtractionView::Running { pending: steps_of(target, folder), fetched: None }
    }

    /// The action that this state asks for.
    pub open spec fn action(self) -> ActionView {
        match self {
            ExtractionView::Failed(error) => ActionView::Failed(error),
            ExtractionView::Running { pending, fetched } => {
                if pending.len() == 0 {
                    ActionView::Finished
                } else {
                    match pending[0] {
                        StepView::CreateDir { path } => ActionView::CreateDir { path },
                        StepView::WriteFile { path, handle } => match fetched {
                            None => ActionView::ReadFile { handle },
                            Some(data) => ActionView::WriteFile { path, data },
                        },
                    }
                }
            },
        }
    }

    /// Whether nothing more will be asked for.
    pub open spec fn is_over(self) -> bool {
        self.action() is Finished || self.action() is Failed
    }

    /// The state in which everything was done.
    pub open spec fn done() -> ExtractionView {
        ExtractionView::Running { pending: Seq::empty(), fetched: None }
    }

    /// A bound on the number of actions that are still to come. Every
    /// report makes it smaller as long as the extraction is not over.
    pub open spec fn remaining_work(self) -> nat {
        match self {
            ExtractionView::Failed(_) => 0,
            ExtractionView::Running { pending, fetched } => if fetched is None {
                2 * pending.len() + 1
            } else {
                2 * pending.len()
            },
        }
    }

    /// The state after `event` was reported for the action that this state
    /// asks for.
    ///
    /// A directory that exists and a file that is written complete their
    /// step. Bytes that were read are kept for the write that follows. Any
    /// other report fails the extraction, with the kind of error that goes
    /// with the action. Once the extraction is over, nothing changes it.
    pub open spec fn react(self, event: EventView) -> ExtractionView {
        match self.action() {
            ActionView::Finished => self,
            ActionView::Failed(_) => self,
            ActionView::CreateDir { .. } => match event {
                EventView::Completed => ExtractionView::Running {
                    pending: self->pending.drop_first(),
                    fetched: None,
                },
                _ => ExtractionView::Failed(ExtractError::Filesystem),
            },
            ActionView::ReadFile { .. } => match event {
                EventView::Data(data) => ExtractionView::Running {
                    pending: self->pending,
                    fetched: Some(data),
                },
                _ => ExtractionView::Failed(ExtractError::ArchiveRead),
            },
            ActionView::WriteFile { .. } => match event {
                EventView::Completed => ExtractionView::Running {
                    pending: self->pending.drop_first(),
                    fetched: None,
                },
                _ => ExtractionView::Failed(ExtractError::Filesystem),
            },
        }
    }

    /// The state after the events were reported one after the other.
    pub open spec fn after(self, events: Seq<EventView>) -> ExtractionView
        decreases events.len(),
    {
        if events.len() == 0 {
            self
        } else {
            self.after(events.drop_last()).react(events.last())
        }
    }
}

/// The directory under `output` that the archive rooted at `root` is
/// extracted into: the output directory, then the root folder's own name.
pub open spec fn root_target(output: PathView, root: DirectoryView) -> PathView {
    output.push(root.name)
}

/// An extraction in progress.
#[derive(Debug)]
pub struct Extraction {
    steps: Vec<Step>,
    position: usize,
    fetched: Option<Vec<u8>>,
    failure: Option<ExtractError>,
}

impl View for Extraction {
    type V = ExtractionView;

    closed spec fn view(&self) -> ExtractionView {
        match self.failure {
            Some(error) => ExtractionView::Failed(error),
            None => ExtractionView::Running {
                pending: if self.position <= self.steps@.len() {
                    steps_view(self.steps@).skip(self.position as int)
                } else {
                    Seq::empty()
                },
                fetched: match self.fetched {
                    Some(data) => Some(data@),
                    None => None,
                },
            },
        }
    }
}

/// Starts the extraction of `folder` into the directory `target`.
///
/// The directory is created first, then the folder's files are read and
/// written one after the other, then each sub-folder is extracted in the
/// same way into the directory of its name under `target`.
pub fn extract(target: &OutputPath, folder: &DirectoryNode) -> (run: Extraction)
    ensures
        run@ == ExtractionView::start(target@, folder@),
{
    let steps = plan(target, folder);
    let run = Extraction { steps, position: 0, fetched: None, failure: None };
    assert(steps_view(run.steps@).skip(0) =~= steps_view(run.steps@));
    run
}

/// Starts the extraction of a whole archive into the output directory.
///
/// The archive's root folder gets a directory of its own name under
/// `output`; nothing is written into `output` itself.
pub fn extract_archive(output: &OutputPath, root: &DirectoryNode) -> (run: Extraction)
    ensures
        run@ == ExtractionView::start(root_target(output@, root@), root@),
{
    let target = output.join(root.name.as_str());
    extract(&target, root)
}

impl Extraction {
    /// The action that has to be performed now.
    pub fn action(&self) -> (action: Action<'_>)
        ensures
            action@ == self@.action(),
    {
        match self.failure {
            Some(error) => Action::Failed(error),
            None => {
                if self.position >= self.steps.len() {
                    Action::Finished
                } else {
                    match &self.steps[self.position] {
                        Step::CreateDir { path } => Action::CreateDir { path },
                        Step::WriteFile { path, handle } => match &self.fetched {
                            None => Action::ReadFile { handle: *handle },
                            Some(data) => Action::WriteFile { path, data },
                        },
                    }
                }
            },
        }
    }

    /// Whether the extraction is over, successfully or not.
    pub fn is_over(&self) -> (over: bool)
        ensures
            over == self@.is_over(),
    {
        self.failure.is_some() || self.position >= self.steps.len()
    }

    /// Takes note of how the action that [`Extraction::action`] returned
    /// went, and moves on.
    pub fn react(&mut self, event: Event)
        ensures
            final(self)@ == old(self)@.react(event@),
    {
        if self.failure.is_some() || self.position >= self.steps.len() {
            return ;
        }
        let reading = match &self.steps[self.position] {
            Step::CreateDir { .. } => false,
            Step::WriteFile { .. } => self.fetched.is_none(),
        };
        if reading {
            match event {
                Event::Data(data) => {
                    self.fetched = Some(data);
                },
                _ => {
                    self.failure = Some(ExtractError::ArchiveRead);
                },
            }
        } else {
            match event {
                Event::Completed => {
                    assert(steps_view(self.steps@).skip(self.position as int).drop_first()
                        =~= steps_view(self.steps@).skip(self.position + 1));
                    self.position = self.position + 1;
                    self.fetched = None;
                },
                _ => {
                    self.failure = Some(ExtractError::Filesystem);
                },
            }
        }
    }
}

} // verus!
