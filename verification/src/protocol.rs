//! What the copier asks of the file system and what it is told.

use vstd::prelude::*;
use crate::names::names_view;

verus! {

/// One operation on the file system. Each is about a single path, the same below
/// the source root and below the destination root.
#[derive(Clone, Copy, Debug, PartialEq, Eq, Structural)]
pub enum Operation {
    /// Is there anything at the path below the source root?
    ProbeSource,
    /// Is there anything at the path below the destination root?
    ProbeDestination,
    /// Create the directory at the path below the destination root, with every
    /// ancestor that is missing.
    CreateDirectories,
    /// List the entries of the directory at the path below the source root.
    ListSource,
    /// Is the path below the source root a directory?
    ProbeDirectory,
    /// Copy the bytes of the file at the path below the source root to the same path
    /// below the destination root, replacing a file that is there.
    CopyFile,
}

/// The operation that did not succeed.
#[derive(Clone, Copy, Debug, PartialEq, Eq, Structural)]
pub enum Cause {
    /// Nothing was found at a path that was to be copied.
    SourceMissing,
    /// A destination directory, or an ancestor of it, could not be created.
    DestinationCreateFailed,
    /// The entries of a source directory could not be listed; this is also what
    /// becomes of a source that exists and is no directory.
    SourceListFailed,
    /// The bytes of a file could not be copied.
    FileCopyFailed,
}

/// A failure as the outermost directory sees it: one of its own steps, or the copy
/// of one of its subdirectories.
#[derive(Clone, Copy, Debug, PartialEq, Eq, Structural)]
pub enum FailureKind {
    SourceMissing,
    DestinationCreateFailed,
    SourceListFailed,
    NestedCopyFailed,
    FileCopyFailed,
}

/// The view of a [`Failure`].
pub struct FailureView {
    pub cause: Cause,
    pub path: Seq<Seq<u8>>,
}

impl FailureView {
    /// The directory whose step failed is the root exactly when the path is empty,
    /// or holds one name and that name is a file's. Every other failure happened
    /// while a subdirectory was copied.
    pub open spec fn kind(self) -> FailureKind {
        match self.cause {
            Cause::SourceMissing => if self.path.len() == 0 {
                FailureKind::SourceMissing
            } else {
                FailureKind::NestedCopyFailed
            },
            Cause::DestinationCreateFailed => if self.path.len() == 0 {
                FailureKind::DestinationCreateFailed
            } else {
                FailureKind::NestedCopyFailed
            },
            Cause::SourceListFailed => if self.path.len() == 0 {
                FailureKind::SourceListFailed
            } else {
                FailureKind::NestedCopyFailed
            },
            Cause::FileCopyFailed => if self.path.len() <= 1 {
                FailureKind::FileCopyFailed
            } else {
                FailureKind::NestedCopyFailed
            },
        }
    }
}

/// Why a copy stopped, and at which path.
#[derive(Debug, PartialEq, Eq)]
pub struct Failure {
    pub cause: Cause,
    pub path: Vec<Vec<u8>>,
}

impl View for Failure {
    type V = FailureView;

    open spec fn view(&self) -> FailureView {
        FailureView { cause: self.cause, path: names_view(self.path) }
    }
}

impl Failure {
    /// The failure as the outermost directory sees it.
    pub fn kind(&self) -> (kind: FailureKind)
        ensures
            kind == self@.kind(),
    {
        let depth: usize = self.path.len();
        match self.cause {
            Cause::SourceMissing => if depth == 0 {
                FailureKind::SourceMissing
            } else {
                FailureKind::NestedCopyFailed
            },
            Cause::DestinationCreateFailed => if depth == 0 {
                FailureKind::DestinationCreateFailed
            } else {
                FailureKind::NestedCopyFailed
            },
            Cause::SourceListFailed => if depth == 0 {
                FailureKind::SourceListFailed
            } else {
                FailureKind::NestedCopyFailed
            },
            Cause::FileCopyFailed => if depth <= 1 {
                FailureKind::FileCopyFailed
            } else {
                FailureKind::NestedCopyFailed
            },
        }
    }
}

/// How a copy ended: the view of a `Result<(), Failure>`.
pub enum OutcomeView {
    /// In success: the whole tree was copied.
    Copied,
    /// In the failure given.
    Failed(FailureView),
}

/// The view of an outcome.
pub open spec fn outcome_view(outcome: Result<(), Failure>) -> OutcomeView {
    match outcome {
        Ok(_) => OutcomeView::Copied,
        Err(failure) => OutcomeView::Failed(failure@),
    }
}

/// The view of an [`Action`].
pub enum ActionView {
    Perform { operation: Operation, path: Seq<Seq<u8>> },
    Finish { outcome: OutcomeView },
}

/// What the copier asks for next.
#[derive(Debug, PartialEq, Eq)]
pub enum Action {
    /// Carry out the operation at the path and report how it went.
    Perform { operation: Operation, path: Vec<Vec<u8>> },
    /// Nothing is left to do: the copy has ended, in success or in the failure given.
    Finish { outcome: Result<(), Failure> },
}

impl View for Action {
    type V = ActionView;

    open spec fn view(&self) -> ActionView {
        match *self {
            Action::Perform { operation, path } => ActionView::Perform {
                operation,
                path: names_view(path),
            },
            Action::Finish { outcome } => ActionView::Finish { outcome: outcome_view(outcome) },
        }
    }
}

impl Action {
    /// The copy's result as a single flag: `None` while work is left, then
    /// `Some(true)` for a complete copy and `Some(false)` for any failure.
    pub fn verdict(&self) -> (verdict: Option<bool>)
        ensures
            verdict == match self@ {
                ActionView::Perform { .. } => None,
                ActionView::Finish { outcome } => Some(outcome is Copied),
            },
    {
        match self {
            Action::Perform { .. } => None,
            Action::Finish { outcome } => Some(outcome.is_ok()),
        }
    }
}

/// The view of an [`Event`].
pub enum EventView {
    Exists(bool),
    Created(bool),
    Listed(Seq<Seq<u8>>),
    ListFailed,
    IsDirectory(bool),
    Copied(bool),
}

/// How the operation that was asked for went.
#[derive(Debug, PartialEq, Eq)]
pub enum Event {
    /// The answer to `ProbeSource` and to `ProbeDestination`.
    Exists(bool),
    /// Whether `CreateDirectories` succeeded.
    Created(bool),
    /// The names that `ListSource` found, in the order in which they came.
    Listed(Vec<Vec<u8>>),
    /// `ListSource` did not succeed.
    ListFailed,
    /// The answer to `ProbeDirectory`.
    IsDirectory(bool),
    /// Whether `CopyFile` succeeded.
    Copied(bool),
}

impl View for Event {
    type V = EventView;

    open spec fn view(&self) -> EventView {
        match *self {
            Event::Exists(found) => EventView::Exists(found),
            Event::Created(done) => EventView::Created(done),
            Event::Listed(names) => EventView::Listed(names_view(names)),
            Event::ListFailed => EventView::ListFailed,
            Event::IsDirectory(yes) => EventView::IsDirectory(yes),
            Event::Copied(done) => EventView::Copied(done),
        }
    }
}

/// The event is an answer to the operation.
pub open spec fn answers(operation: Operation, event: EventView) -> bool {
    match operation {
        Operation::ProbeSource | Operation::ProbeDestination => event is Exists,
        Operation::CreateDirectories => event is Created,
        Operation::ListSource => event is Listed || event is ListFailed,
        Operation::ProbeDirectory => event is IsDirectory,
        Operation::CopyFile => event is Copied,
    }
}

} // verus!
