//! Copies that nothing stands in the way of: no fault of the file system, and
//! nothing in the destination of another kind than what the source holds.

use vstd::prelude::*;
use crate::machine::{advance, frames_wf, path_of, Frame, State, Status};
use crate::names::leads_to;
use crate::progress::{
    frames_list, lemma_advance_fresh, lemma_enter_fresh, lemma_leads_to_self,
    lemma_leads_to_transitive, lemma_path_of_drop_last, lemma_path_of_push,
};
use crate::protocol::{EventView, Operation};
use crate::run::{is_faultless, is_run, lemma_run_inv, lemma_run_prefix, state_after};
use crate::safety::{inv, lemma_write_keeps, rest_untouched};
use crate::world::{
    can_copy, faultless, is_dir, is_file, lemma_ancestors_are_directories, lists,
    responds, same_at, tree_wf, Tree, World,
};

verus! {

/// Nothing in the destination is in the way: it holds no file where the source has
/// a directory, and no directory where the source has a file.
pub open spec fn unobstructed(source: Tree, dest: Tree) -> bool {
    forall|path: Seq<Seq<u8>>| #[trigger]
        source.contains_key(path) ==> {
            &&& is_dir(source, path) ==> !is_file(dest, path)
            &&& is_file(source, path) ==> !is_dir(dest, path)
        }
}

/// What holds at every point of a copy that nothing stands in the way of: it has
/// not failed, the directory of the entry in hand is in the destination, and what
/// was learnt of the path in hand is true.
pub open spec fn clear_fact(state: State, world: World, start: Tree) -> bool {
    let here = state.path();
    match state.status {
        Status::Finished(outcome) => outcome is Copied,
        Status::Awaiting(operation) => {
            &&& state.frames.len() > 0 ==> world.dest.contains_key(here.drop_last())
            &&& match operation {
                Operation::CreateDirectories => is_dir(world.source, here)
                    && !world.dest.contains_key(here),
                Operation::ProbeDirectory => same_at(world.dest, start, here),
                Operation::CopyFile => is_file(world.source, here) && same_at(
                    world.dest,
                    start,
                    here,
                ),
                _ => is_dir(world.source, here),
            }
        },
    }
}

/// Where the source has a directory, an unobstructed destination has one too, or
/// nothing.
proof fn lemma_no_file_in_the_way(state: State, world: World, start: Tree, path: Seq<Seq<u8>>)
    requires
        inv(state, world, start),
        unobstructed(world.source, start),
        is_dir(world.source, path),
    ensures
        !is_file(world.dest, path),
{
}

/// The directory of the entry that comes in hand leads to the directory of the entry
/// that was in hand.
proof fn lemma_advance_stays_inside(frames: Seq<Frame>)
    requires
        advance(frames).len() > 0,
    ensures
        frames.len() > 0,
        leads_to(path_of(advance(frames)).drop_last(), path_of(frames).drop_last()),
    decreases frames.len(),
{
    if frames.len() == 0 {
    } else if frames.last().next + 1 < frames.last().entries.len() {
        assert(path_of(advance(frames)).drop_last() =~= path_of(frames).drop_last());
        lemma_leads_to_self(path_of(frames).drop_last());
    } else {
        let outer = frames.drop_last();
        lemma_advance_stays_inside(outer);
        lemma_path_of_drop_last(frames);
        assert(leads_to(path_of(outer).drop_last(), path_of(outer))) by {
            assert(path_of(outer).take(path_of(outer).len() - 1) == path_of(outer).drop_last());
        }
        lemma_leads_to_transitive(
            path_of(advance(frames)).drop_last(),
            path_of(outer).drop_last(),
            path_of(outer),
        );
    }
}

/// After an entry is done, the copy has ended in success, or the next entry is in
/// hand: its directory is in the destination, and the destination holds at its path
/// what it held at the start.
proof fn lemma_settle_clear(state: State, world: World, start: Tree)
    requires
        frames_wf(state.frames),
        frames_list(world.source, state.frames),
        tree_wf(world.dest),
        rest_untouched(state.frames, world.dest, start),
        state.frames.len() > 0 ==> world.dest.contains_key(state.path().drop_last()),
    ensures
        clear_fact(state.settle(), world, start),
{
    let rest = advance(state.frames);
    if rest.len() > 0 {
        let fresh = path_of(rest);
        lemma_advance_fresh(state.frames, world.source);
        assert(same_at(world.dest, start, fresh));
        lemma_advance_stays_inside(state.frames);
        if fresh.drop_last() != state.path().drop_last() {
            lemma_ancestors_are_directories(
                world.dest,
                state.path().drop_last(),
                fresh.drop_last(),
            );
        }
    }
}

/// Every step of a copy that nothing stands in the way of keeps it so.
pub proof fn lemma_clear_step(
    state: State,
    world: World,
    event: EventView,
    after: World,
    start: Tree,
)
    requires
        clear_fact(state, world, start),
        inv(state, world, start),
        unobstructed(world.source, start),
        responds(world, state.action(), event, after),
        faultless(world, state.action(), event),
    ensures
        clear_fact(state.next(event), after, start),
{
    let here = state.path();
    let source = world.source;
    match state.status {
        Status::Awaiting(Operation::CreateDirectories) => {
            assert forall|prefix: Seq<Seq<u8>>| #[trigger]
                leads_to(prefix, here) && world.dest.contains_key(
                    prefix,
                ) implies world.dest[prefix] is Directory by {
                lemma_ancestors_are_directories(source, here, prefix);
                lemma_no_file_in_the_way(state, world, start, prefix);
            }
            lemma_leads_to_self(here);
        },
        Status::Awaiting(Operation::ListSource) => {
            if let EventView::Listed(names) = event {
                if names.len() == 0 {
                    lemma_settle_clear(state, world, start);
                } else {
                    let frame = Frame { entries: names, next: 0 };
                    lemma_enter_fresh(state.frames, source, names);
                    lemma_path_of_push(state.frames, frame);
                    assert(path_of(state.frames.push(frame)).drop_last() == here);
                    assert(same_at(world.dest, start, path_of(state.frames.push(frame))));
                }
            }
        },
        Status::Awaiting(Operation::ProbeDirectory) => {
            let top = state.frames.len() - 1;
            let frame = state.frames[top];
            assert(lists(source, here.take(top), frame.entries));
            assert(frame.entries.contains(frame.entries[frame.next]));
            assert(here.take(top).push(frame.entries[frame.next]) =~= here);
        },
        Status::Awaiting(Operation::CopyFile) => {
            let top = state.frames.len() - 1;
            assert(lists(source, here.take(top), state.frames[top].entries));
            assert(here.take(top) == here.drop_last());
            lemma_no_file_in_the_way(state, world, start, here.drop_last());
            assert(can_copy(world, here));
            lemma_write_keeps(state.frames, source, world.dest, start, source[here]->File_0);
            lemma_settle_clear(state, after, start);
        },
        _ => {},
    }
}

/// A copy that nothing stands in the way of has not failed, wherever it stands.
pub proof fn lemma_clear_run(worlds: Seq<World>, events: Seq<EventView>)
    requires
        is_run(worlds, events),
        is_faultless(worlds, events),
        tree_wf(worlds[0].source),
        tree_wf(worlds[0].dest),
        is_dir(worlds[0].source, Seq::empty()),
        unobstructed(worlds[0].source, worlds[0].dest),
    ensures
        clear_fact(state_after(events), worlds.last(), worlds[0].dest),
    decreases events.len(),
{
    if events.len() == 0 {
        assert(State::init().path() =~= Seq::empty());
    } else {
        lemma_run_prefix(worlds, events);
        lemma_clear_run(worlds.drop_last(), events.drop_last());
        lemma_run_inv(worlds.drop_last(), events.drop_last());
        lemma_clear_step(
            state_after(events.drop_last()),
            worlds.drop_last().last(),
            events.last(),
            worlds.last(),
            worlds[0].dest,
        );
    }
}

} // verus!
