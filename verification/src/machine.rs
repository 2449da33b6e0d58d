//! The traversal as a state machine.
//!
//! A state holds one frame for every directory that is being walked, the outermost
//! first, and says which answer is awaited. Each frame keeps the names that the
//! directory listed and the index of the entry in hand, so the path in hand is read
//! off the frames: it is the entry in hand of each frame, in order. The frames are
//! the work list of a depth-first walk in pre-order.

use vstd::prelude::*;
use crate::protocol::{ActionView, Cause, EventView, FailureView, Operation, OutcomeView};

verus! {

/// A directory that is being walked.
pub struct Frame {
    /// The names it listed, in the order in which they came.
    pub entries: Seq<Seq<u8>>,
    /// The index of the entry in hand. The entries before it are done.
    pub next: int,
}

/// What a state waits for.
pub enum Status {
    /// The answer to the operation, which was asked for the path in hand.
    Awaiting(Operation),
    /// Nothing: the copy has ended.
    Finished(OutcomeView),
}

/// A state of the traversal.
pub struct State {
    pub frames: Seq<Frame>,
    pub status: Status,
}

/// The path in hand: the entry in hand of each frame, the outermost first.
pub open spec fn path_of(frames: Seq<Frame>) -> Seq<Seq<u8>> {
    Seq::new(frames.len(), |i: int| frames[i].entries[frames[i].next])
}

/// Every frame has an entry in hand.
pub open spec fn frames_wf(frames: Seq<Frame>) -> bool {
    forall|i: int|
        0 <= i < frames.len() ==> 0 <= (#[trigger] frames[i]).next < frames[i].entries.len()
}

/// The frames once the entry in hand is done: the innermost frame moves to its next
/// entry, and a frame whose entries are all done is dropped, which completes the
/// entry in hand of the frame around it.
pub open spec fn advance(frames: Seq<Frame>) -> Seq<Frame>
    decreases frames.len(),
{
    if frames.len() == 0 {
        frames
    } else if frames.last().next + 1 < frames.last().entries.len() {
        frames.drop_last().push(
            Frame { entries: frames.last().entries, next: frames.last().next + 1 },
        )
    } else {
        advance(frames.drop_last())
    }
}

impl State {
    /// Where every copy starts: at the root, asking whether the source is there.
    pub open spec fn init() -> State {
        State { frames: Seq::empty(), status: Status::Awaiting(Operation::ProbeSource) }
    }

    /// The path in hand.
    pub open spec fn path(self) -> Seq<Seq<u8>> {
        path_of(self.frames)
    }

    pub open spec fn wf(self) -> bool {
        &&& frames_wf(self.frames)
        &&& match self.status {
            Status::Awaiting(Operation::ProbeDirectory) | Status::Awaiting(Operation::CopyFile) =>
                self.frames.len() > 0,
            Status::Awaiting(_) => true,
            Status::Finished(OutcomeView::Copied) => self.frames.len() == 0,
            Status::Finished(OutcomeView::Failed(failure)) => {
                &&& failure.path == self.path()
                &&& failure.cause == Cause::FileCopyFailed ==> self.frames.len() > 0
            },
        }
    }

    /// What the state asks for.
    pub open spec fn action(self) -> ActionView {
        match self.status {
            Status::Awaiting(operation) => ActionView::Perform { operation, path: self.path() },
            Status::Finished(outcome) => ActionView::Finish { outcome },
        }
    }

    /// The same frames, waiting for the answer to another operation on the path in
    /// hand.
    pub open spec fn ask(self, operation: Operation) -> State {
        State { frames: self.frames, status: Status::Awaiting(operation) }
    }

    /// The copy stops where it stands. The frames stay as they are: they tell which
    /// entries were done when it stopped.
    pub open spec fn fail(self, cause: Cause) -> State {
        State {
            frames: self.frames,
            status: Status::Finished(OutcomeView::Failed(FailureView { cause, path: self.path() })),
        }
    }

    /// The directory `names` was listed for is entered: its first entry is in hand.
    pub open spec fn enter(self, names: Seq<Seq<u8>>) -> State {
        State {
            frames: self.frames.push(Frame { entries: names, next: 0 }),
            status: Status::Awaiting(Operation::ProbeDirectory),
        }
    }

    /// The entry in hand is done. The next entry in pre-order comes in hand, or,
    /// where none is left at any level, the copy ends in success.
    pub open spec fn settle(self) -> State {
        let frames = advance(self.frames);
        State {
            frames,
            status: if frames.len() == 0 {
                Status::Finished(OutcomeView::Copied)
            } else {
                Status::Awaiting(Operation::ProbeDirectory)
            },
        }
    }

    /// The state after an event. An event that does not answer the operation that
    /// was asked for changes nothing, and so does any event after the end.
    pub open spec fn next(self, event: EventView) -> State {
        match self.status {
            Status::Finished(_) => self,
            Status::Awaiting(operation) => match (operation, event) {
                (Operation::ProbeSource, EventView::Exists(found)) => if found {
                    self.ask(Operation::ProbeDestination)
                } else {
                    self.fail(Cause::SourceMissing)
                },
                (Operation::ProbeDestination, EventView::Exists(found)) => if found {
                    self.ask(Operation::ListSource)
                } else {
                    self.ask(Operation::CreateDirectories)
                },
                (Operation::CreateDirectories, EventView::Created(done)) => if done {
                    self.ask(Operation::ListSource)
                } else {
                    self.fail(Cause::DestinationCreateFailed)
                },
                (Operation::ListSource, EventView::Listed(names)) => if names.len() == 0 {
                    self.settle()
                } else {
                    self.enter(names)
                },
                (Operation::ListSource, EventView::ListFailed) => self.fail(
                    Cause::SourceListFailed,
                ),
                (Operation::ProbeDirectory, EventView::IsDirectory(yes)) => if yes {
                    self.ask(Operation::ProbeSource)
                } else {
                    self.ask(Operation::CopyFile)
                },
                (Operation::CopyFile, EventView::Copied(done)) => if done {
                    self.settle()
                } else {
                    self.fail(Cause::FileCopyFailed)
                },
                _ => self,
            },
        }
    }
}

/// Advancing keeps every frame that is left with an entry in hand.
pub proof fn lemma_advance_wf(frames: Seq<Frame>)
    requires
        frames_wf(frames),
    ensures
        frames_wf(advance(frames)),
        advance(frames).len() <= frames.len(),
    decreases frames.len(),
{
    if frames.len() == 0 {
    } else if frames.last().next + 1 < frames.last().entries.len() {
    } else {
        lemma_advance_wf(frames.drop_last());
    }
}

/// Every step leads from a well-formed state to a well-formed state.
pub proof fn lemma_next_wf(state: State, event: EventView)
    requires
        state.wf(),
    ensures
        state.next(event).wf(),
{
    lemma_advance_wf(state.frames);
    match state.status {
        Status::Awaiting(Operation::ListSource) => {
            if let EventView::Listed(names) = event {
                if names.len() > 0 {
                    let after = state.enter(names);
                    assert forall|i: int| 0 <= i < after.frames.len() implies 0 <= (
                    #[trigger] after.frames[i]).next < after.frames[i].entries.len() by {
                        if i < state.frames.len() {
                            assert(after.frames[i] == state.frames[i]);
                        }
                    }
                }
            }
        },
        _ => {},
    }
}

} // verus!
