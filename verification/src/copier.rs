//! The copier: the traversal in executable form.

use vstd::prelude::*;
use crate::machine::{advance, frames_wf, lemma_advance_wf, path_of, Frame, State, Status};
use crate::names::{copy_name, copy_names, names_view};
use crate::protocol::{outcome_view, Action, Cause, Event, Failure, Operation};

verus! {

/// A directory that is being walked: its names and the index of the entry in hand.
struct Level {
    entries: Vec<Vec<u8>>,
    next: usize,
}

impl View for Level {
    type V = Frame;

    closed spec fn view(&self) -> Frame {
        Frame { entries: names_view(self.entries), next: self.next as int }
    }
}

/// What the copier waits for.
enum Progress {
    Awaiting(Operation),
    Finished(Result<(), Failure>),
}

impl View for Progress {
    type V = Status;

    closed spec fn view(&self) -> Status {
        match *self {
            Progress::Awaiting(operation) => Status::Awaiting(operation),
            Progress::Finished(outcome) => Status::Finished(outcome_view(outcome)),
        }
    }
}

/// The frames that a list of levels stands for.
spec fn levels_view(levels: Vec<Level>) -> Seq<Frame> {
    levels@.map_values(|level: Level| level@)
}

/// Copies one directory tree onto another, one operation at a time.
///
/// A copier starts by asking for its first [`Action`]; whoever drives it carries the
/// operation out on the file system and hands the [`Event`] to [`Copier::step`],
/// which answers with the next action, until that action is `Finish`. The walk is
/// depth-first and in pre-order, entries are taken in the order in which each
/// directory listed them, and the first failure ends the copy at once: nothing more
/// is asked for, and what was written stays.
pub struct Copier {
    levels: Vec<Level>,
    progress: Progress,
}

impl View for Copier {
    type V = State;

    closed spec fn view(&self) -> State {
        State { frames: levels_view(self.levels), status: self.progress@ }
    }
}

/// The path in hand of a list of levels.
fn path_in_hand(levels: &Vec<Level>) -> (path: Vec<Vec<u8>>)
    requires
        frames_wf(levels_view(*levels)),
    ensures
        names_view(path) == path_of(levels_view(*levels)),
{
    let ghost frames = levels_view(*levels);
    let ghost whole = path_of(frames);
    let mut path: Vec<Vec<u8>> = Vec::new();
    let mut i: usize = 0;
    while i < levels.len()
        invariant
            i <= levels.len(),
            frames == levels_view(*levels),
            whole == path_of(frames),
            frames_wf(frames),
            names_view(path) == whole.take(i as int),
        decreases levels.len() - i,
    {
        let level = &levels[i];
        assert(frames[i as int] == level@);
        let name = copy_name(&level.entries[level.next]);
        let ghost before = path;
        path.push(name);
        i += 1;
        assert(names_view(path) == names_view(before).push(name@));
        assert(whole.take(i as int) == whole.take(i - 1).push(whole[i - 1]));
    }
    assert(whole.take(levels.len() as int) == whole);
    path
}

/// Moves the levels past the entry in hand. Returns whether a level is left.
fn advance_levels(levels: &mut Vec<Level>) -> (left: bool)
    requires
        frames_wf(levels_view(*old(levels))),
    ensures
        levels_view(*final(levels)) == advance(levels_view(*old(levels))),
        left == (final(levels).len() > 0),
{
    loop
        invariant
            frames_wf(levels_view(*levels)),
            advance(levels_view(*levels)) == advance(levels_view(*old(levels))),
        decreases levels.len(),
    {
        let ghost before = *levels;
        match levels.pop() {
            None => {
                return false;
            },
            Some(level) => {
                assert(levels_view(before)[before.len() - 1] == level@);
                assert(level@.next < level@.entries.len());
                assert(levels_view(*levels) == levels_view(before).drop_last());
                let count: usize = level.entries.len();
                if level.next + 1 < count {
                    let moved = Level { entries: level.entries, next: level.next + 1 };
                    let ghost rest = *levels;
                    levels.push(moved);
                    assert(levels_view(*levels) == levels_view(rest).push(moved@));
                    return true;
                }
            },
        }
    }
}

impl Copier {
    /// Every level has an entry in hand.
    #[verifier::type_invariant]
    spec fn levels_wf(&self) -> bool {
        frames_wf(levels_view(self.levels))
    }

    /// A copier at the start of a copy.
    pub fn new() -> (copier: Copier)
        ensures
            copier@ == State::init(),
    {
        let copier = Copier {
            levels: Vec::new(),
            progress: Progress::Awaiting(Operation::ProbeSource),
        };
        assert(levels_view(copier.levels) == Seq::<Frame>::empty());
        copier
    }

    /// What the copier asks for. It asks for the same until `step` is given an
    /// answer.
    pub fn action(&self) -> (action: Action)
        ensures
            action@ == self@.action(),
    {
        proof {
            use_type_invariant(self);
        }
        match &self.progress {
            Progress::Awaiting(operation) => Action::Perform {
                operation: *operation,
                path: path_in_hand(&self.levels),
            },
            Progress::Finished(Ok(_)) => Action::Finish { outcome: Ok(()) },
            Progress::Finished(Err(failure)) => Action::Finish {
                outcome: Err(Failure { cause: failure.cause, path: copy_names(&failure.path) }),
            },
        }
    }

    /// Stops the copy where it stands.
    fn fail(&mut self, cause: Cause)
        ensures
            final(self)@ == old(self)@.fail(cause),
    {
        proof {
            use_type_invariant(&*self);
        }
        let path = path_in_hand(&self.levels);
        self.progress = Progress::Finished(Err(Failure { cause, path }));
    }

    /// Takes the levels out, to work on them, and leaves none.
    fn take_levels(&mut self) -> (levels: Vec<Level>)
        ensures
            levels == old(self).levels,
            final(self).levels@.len() == 0,
            final(self).progress == old(self).progress,
    {
        let mut levels: Vec<Level> = Vec::new();
        assert(levels_view(levels) == Seq::<Frame>::empty());
        core::mem::swap(&mut self.levels, &mut levels);
        levels
    }

    /// Marks the entry in hand as done.
    fn settle(&mut self)
        ensures
            final(self)@ == old(self)@.settle(),
    {
        proof {
            use_type_invariant(&*self);
            lemma_advance_wf(self@.frames);
        }
        let mut levels = self.take_levels();
        let left = advance_levels(&mut levels);
        self.levels = levels;
        if left {
            self.progress = Progress::Awaiting(Operation::ProbeDirectory);
        } else {
            self.progress = Progress::Finished(Ok(()));
        }
    }

    /// Takes the answer to the action that was asked for, and gives the next action.
    ///
    /// An event that is no answer to that action changes nothing: the same action is
    /// asked for again. After the end every event is met with the same `Finish`.
    pub fn step(&mut self, event: Event) -> (action: Action)
        ensures
            final(self)@ == old(self)@.next(event@),
            action@ == final(self)@.action(),
    {
        proof {
            use_type_invariant(&*self);
        }
        let awaited: Option<Operation> = match &self.progress {
            Progress::Awaiting(operation) => Some(*operation),
            Progress::Finished(_) => None,
        };
        match (awaited, event) {
            (Some(Operation::ProbeSource), Event::Exists(found)) => {
                if found {
                    self.progress = Progress::Awaiting(Operation::ProbeDestination);
                } else {
                    self.fail(Cause::SourceMissing);
                }
            },
            (Some(Operation::ProbeDestination), Event::Exists(found)) => {
                if found {
                    self.progress = Progress::Awaiting(Operation::ListSource);
                } else {
                    self.progress = Progress::Awaiting(Operation::CreateDirectories);
                }
            },
            (Some(Operation::CreateDirectories), Event::Created(done)) => {
                if done {
                    self.progress = Progress::Awaiting(Operation::ListSource);
                } else {
                    self.fail(Cause::DestinationCreateFailed);
                }
            },
            (Some(Operation::ListSource), Event::Listed(names)) => {
                if names.len() == 0 {
                    self.settle();
                } else {
                    let level = Level { entries: names, next: 0 };
                    let mut levels = self.take_levels();
                    let ghost before = levels;
                    levels.push(level);
                    assert(levels_view(levels) == levels_view(before).push(level@));
                    self.levels = levels;
                    self.progress = Progress::Awaiting(Operation::ProbeDirectory);
                }
            },
            (Some(Operation::ListSource), Event::ListFailed) => {
                self.fail(Cause::SourceListFailed);
            },
            (Some(Operation::ProbeDirectory), Event::IsDirectory(yes)) => {
                if yes {
                    self.progress = Progress::Awaiting(Operation::ProbeSource);
                } else {
                    self.progress = Progress::Awaiting(Operation::CopyFile);
                }
            },
            (Some(Operation::CopyFile), Event::Copied(done)) => {
                if done {
                    self.settle();
                } else {
                    self.fail(Cause::FileCopyFailed);
                }
            },
            _ => {},
        }
        self.action()
    }
}

} // verus!
