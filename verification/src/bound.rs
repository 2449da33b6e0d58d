//! Why a copy ends: every step leaves less work.

use vstd::prelude::*;
use vstd::set_lib::lemma_len_subset;
use crate::machine::{advance, lemma_advance_wf, path_of, Frame, State, Status};
use crate::progress::{
    lemma_advance_fresh, lemma_advance_touches, lemma_enter_fresh, lemma_enter_touches,
    frames_list, lemma_leads_to_self, touched,
};
use crate::protocol::{EventView, Operation};
use crate::run::{is_run, lemma_run_inv, lemma_run_prefix, state_after};
use crate::safety::inv;
use crate::world::{lists, responds, tree_wf, Tree, World};

verus! {

/// The paths of the source that the traversal has not come to.
pub open spec fn unvisited(source: Tree, frames: Seq<Frame>) -> Set<Seq<Seq<u8>>> {
    source.dom().filter(|path: Seq<Seq<u8>>| !touched(frames, path))
}

/// How many answers the path in hand may still need before the traversal moves on,
/// counting the one awaited.
pub open spec fn rank(operation: Operation) -> nat {
    match operation {
        Operation::ProbeDirectory => 5,
        Operation::ProbeSource => 4,
        Operation::ProbeDestination => 3,
        Operation::CreateDirectories => 2,
        Operation::ListSource => 1,
        Operation::CopyFile => 1,
    }
}

/// A bound on the answers that a copy may still take: six for every path of the
/// source that is still to come, and those for the path in hand.
pub open spec fn work_left(source: Tree, state: State) -> nat {
    match state.status {
        Status::Finished(_) => 0,
        Status::Awaiting(operation) => 6 * unvisited(source, state.frames).len() + rank(operation),
    }
}

/// When a new path comes in hand, one path less is still to come.
proof fn lemma_one_less(source: Tree, before: Seq<Frame>, after: Seq<Frame>, fresh: Seq<Seq<u8>>)
    requires
        source.dom().finite(),
        source.contains_key(fresh),
        !touched(before, fresh),
        touched(after, fresh),
        forall|path: Seq<Seq<u8>>| touched(before, path) ==> #[trigger] touched(after, path),
    ensures
        unvisited(source, after).len() + 1 <= unvisited(source, before).len(),
{
    let old_set = unvisited(source, before);
    let new_set = unvisited(source, after);
    source.dom().lemma_len_filter(|path: Seq<Seq<u8>>| !touched(before, path));
    assert(old_set.contains(fresh));
    assert(new_set.subset_of(old_set.remove(fresh))) by {
        assert forall|path: Seq<Seq<u8>>| new_set.contains(path) implies old_set.remove(
            fresh,
        ).contains(path) by {
            assert(!touched(after, path));
        }
    }
    lemma_len_subset(new_set, old_set.remove(fresh));
}

/// Moving on to the next entry leaves less work, whatever was awaited.
proof fn lemma_settle_decreases(state: State, source: Tree, operation: Operation)
    requires
        state.wf(),
        frames_list(source, state.frames),
        source.dom().finite(),
        state.status == Status::Awaiting(operation),
    ensures
        work_left(source, state.settle()) < work_left(source, state),
{
    let frames = state.frames;
    let rest = advance(frames);
    if rest.len() > 0 {
        lemma_advance_wf(frames);
        lemma_advance_fresh(frames, source);
        lemma_leads_to_self(path_of(rest));
        assert forall|path: Seq<Seq<u8>>| touched(frames, path) implies #[trigger] touched(
            rest,
            path,
        ) by {
            lemma_advance_touches(frames, path);
        }
        lemma_one_less(source, frames, rest, path_of(rest));
    }
}

/// Entering a directory leaves less work.
proof fn lemma_enter_decreases(state: State, source: Tree, names: Seq<Seq<u8>>)
    requires
        state.wf(),
        frames_list(source, state.frames),
        source.dom().finite(),
        state.status == Status::Awaiting(Operation::ListSource),
        lists(source, state.path(), names),
        names.len() > 0,
    ensures
        work_left(source, state.enter(names)) < work_left(source, state),
{
    let frames = state.frames;
    let frame = Frame { entries: names, next: 0 };
    let inner = frames.push(frame);
    lemma_enter_fresh(frames, source, names);
    lemma_leads_to_self(path_of(inner));
    assert forall|path: Seq<Seq<u8>>| touched(frames, path) implies #[trigger] touched(
        inner,
        path,
    ) by {
        lemma_enter_touches(frames, frame, path);
    }
    lemma_one_less(source, frames, inner, path_of(inner));
}

/// Every step of a run on a finite source leaves less work.
pub proof fn lemma_work_decreases(
    state: State,
    world: World,
    event: EventView,
    after: World,
    start: Tree,
)
    requires
        inv(state, world, start),
        world.source.dom().finite(),
        responds(world, state.action(), event, after),
    ensures
        work_left(world.source, state.next(event)) < work_left(world.source, state),
{
    match (state.status, event) {
        (Status::Awaiting(Operation::ListSource), EventView::Listed(names)) => {
            if names.len() == 0 {
                lemma_settle_decreases(state, world.source, Operation::ListSource);
            } else {
                lemma_enter_decreases(state, world.source, names);
            }
        },
        (Status::Awaiting(Operation::CopyFile), EventView::Copied(true)) => {
            lemma_settle_decreases(state, world.source, Operation::CopyFile);
        },
        _ => {},
    }
}

/// The work left at the start is within six answers for every path of the source.
pub proof fn lemma_work_at_start(source: Tree)
    requires
        source.dom().finite(),
    ensures
        work_left(source, State::init()) <= 6 * source.dom().len() + 4,
{
    source.dom().lemma_len_filter(|path: Seq<Seq<u8>>| !touched(State::init().frames, path));
}

/// The answers that a run has taken and the work that it has left are together
/// within the work at the start.
pub proof fn lemma_run_work(worlds: Seq<World>, events: Seq<EventView>)
    requires
        is_run(worlds, events),
        tree_wf(worlds[0].source),
        tree_wf(worlds[0].dest),
        worlds[0].source.dom().finite(),
    ensures
        events.len() + work_left(worlds[0].source, state_after(events)) <= work_left(
            worlds[0].source,
            State::init(),
        ),
    decreases events.len(),
{
    if events.len() > 0 {
        lemma_run_prefix(worlds, events);
        lemma_run_work(worlds.drop_last(), events.drop_last());
        lemma_run_inv(worlds.drop_last(), events.drop_last());
        lemma_work_decreases(
            state_after(events.drop_last()),
            worlds.drop_last().last(),
            events.last(),
            worlds.last(),
            worlds[0].dest,
        );
    }
}

} // verus!
