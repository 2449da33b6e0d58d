//! What a copy does to the two trees.
//!
//! Each law speaks of runs: of a copier driven against any file system that
//! behaves as `responds` says. The copier's own contract ties it to the states that
//! the runs go through, so what is proved here holds of every use of
//! [`crate::copier::Copier`] on such a file system.

use vstd::prelude::*;
use crate::bound::{lemma_run_work, lemma_work_at_start};
use crate::clear::{lemma_clear_run, unobstructed};
use crate::machine::{State, Status};
use crate::names::leads_to;
use crate::progress::{settled, touched};
use crate::protocol::{
    ActionView, Cause, EventView, FailureKind, FailureView, Operation, OutcomeView,
};
use crate::run::{is_faultless, is_run, lemma_run_inv, lemma_run_prefix, state_after, step_ok};
use crate::safety::{covers, inv};
use crate::world::{
    agrees, can_copy, childless, creatable, faultless, is_dir, is_file,
    lemma_ancestors_are_directories, lists, mirrors, present, responds, same_at, tree_wf,
    with_directories, Tree, World,
};

verus! {

/// No file of the destination stands where the source has an empty directory.
pub open spec fn unshadowed(source: Tree, dest: Tree) -> bool {
    forall|path: Seq<Seq<u8>>|
        is_dir(source, path) && childless(source, path) ==> !#[trigger] is_file(dest, path)
}

/// A copy that ends in success leaves the destination a mirror of the source: every
/// file of the source is there with the same bytes, at the same path, and every
/// directory of the source is a directory there.
///
/// One kind of start is left out. Where the destination holds a file at the path of
/// an empty directory of the source, the copy finds something at that path, creates
/// nothing, lists no entries and ends in success, with the file still in the
/// directory's place.
pub proof fn law_success_mirrors(worlds: Seq<World>, events: Seq<EventView>)
    requires
        is_run(worlds, events),
        tree_wf(worlds[0].source),
        tree_wf(worlds[0].dest),
        unshadowed(worlds[0].source, worlds[0].dest),
        state_after(events).status == Status::Finished(OutcomeView::Copied),
    ensures
        worlds.last().source == worlds[0].source,
        mirrors(worlds.last().source, worlds.last().dest),
{
    lemma_run_inv(worlds, events);
    let source = worlds[0].source;
    let start = worlds[0].dest;
    let dest = worlds.last().dest;
    assert forall|path: Seq<Seq<u8>>| #[trigger] source.contains_key(path) implies agrees(
        source,
        dest,
        path,
    ) by {
        assert(present(source, dest, path));
        if is_dir(source, path) && is_file(dest, path) {
            assert(is_file(start, path));
            assert(!childless(source, path));
            let name = choose|name: Seq<u8>| source.contains_key(#[trigger] path.push(name));
            let child = path.push(name);
            assert(present(source, dest, child));
            assert(child.drop_last() == path);
            assert(is_dir(dest, child.drop_last()));
        }
    }
}

/// Whatever the destination held at the start, a copy that ends in success has put
/// every file of the source there with the same bytes, and has left something at the
/// path of every directory of the source. The source was a directory.
pub proof fn law_success_covers(worlds: Seq<World>, events: Seq<EventView>)
    requires
        is_run(worlds, events),
        tree_wf(worlds[0].source),
        tree_wf(worlds[0].dest),
        state_after(events).status == Status::Finished(OutcomeView::Copied),
    ensures
        worlds.last().source == worlds[0].source,
        covers(worlds.last().source, worlds.last().dest),
        is_dir(worlds.last().source, Seq::empty()),
{
    lemma_run_inv(worlds, events);
}

/// A source that is not there fails the copy at its first step, and nothing is
/// written: the copier asks whether the source exists, is told that it does not, and
/// ends.
pub proof fn law_missing_source_fails_closed(worlds: Seq<World>, events: Seq<EventView>)
    requires
        is_run(worlds, events),
        !worlds[0].source.contains_key(Seq::empty()),
        events.len() > 0,
    ensures
        events.len() == 1,
        worlds.last() == worlds[0],
        state_after(events).status == Status::Finished(
            OutcomeView::Failed(FailureView { cause: Cause::SourceMissing, path: Seq::empty() }),
        ),
        state_after(events).action() is Finish,
{
    let first = events.take(1);
    assert(step_ok(worlds, events, 0));
    assert(events.take(0) =~= Seq::empty());
    assert(state_after(events.take(0)) == State::init());
    assert(State::init().path() =~= Seq::empty());
    assert(events[0] == EventView::Exists(false));
    assert(worlds[1] == worlds[0]);
    assert(first.drop_last() =~= Seq::empty());
    assert(first.last() == events[0]);
    assert(state_after(first.drop_last()) == State::init());
    assert(state_after(first) == State::init().next(EventView::Exists(false)));
    if events.len() > 1 {
        assert(step_ok(worlds, events, 1));
    }
    assert(first =~= events);
}

/// A destination that is already there is no obstacle: told that something exists
/// at the destination path, the copier creates nothing and goes on to list the
/// source, whatever the directory already holds.
pub proof fn law_existing_destination_tolerated(state: State)
    requires
        state.status == Status::Awaiting(Operation::ProbeDestination),
    ensures
        state.next(EventView::Exists(true)) == state.ask(Operation::ListSource),
        state.next(EventView::Exists(true)).action() == (ActionView::Perform {
            operation: Operation::ListSource,
            path: state.path(),
        }),
{
}

/// The event tells that the operation did not succeed.
pub open spec fn reports_failure(operation: Operation, event: EventView) -> bool {
    match operation {
        Operation::ProbeSource => event == EventView::Exists(false),
        Operation::CreateDirectories => event == EventView::Created(false),
        Operation::ListSource => event is ListFailed,
        Operation::CopyFile => event == EventView::Copied(false),
        Operation::ProbeDestination | Operation::ProbeDirectory => false,
    }
}

/// The cause that a failed operation is reported under.
pub open spec fn cause_of(operation: Operation) -> Cause {
    match operation {
        Operation::ProbeSource => Cause::SourceMissing,
        Operation::CreateDirectories => Cause::DestinationCreateFailed,
        Operation::ListSource => Cause::SourceListFailed,
        _ => Cause::FileCopyFailed,
    }
}

/// The first failure ends the copy, however deep in the tree it happens: the copier
/// asks for nothing more, so the entries that were still to come at every level
/// around the failure are skipped. The failure names the path at which it happened,
/// and the frames stay as they were. Whatever the copier is told afterwards, it
/// stays ended.
pub proof fn law_failure_short_circuits(
    state: State,
    operation: Operation,
    event: EventView,
    later: EventView,
)
    requires
        state.status == Status::Awaiting(operation),
        reports_failure(operation, event),
    ensures
        state.next(event).frames == state.frames,
        state.next(event).status == Status::Finished(
            OutcomeView::Failed(FailureView { cause: cause_of(operation), path: state.path() }),
        ),
        state.next(event).action() == (ActionView::Finish {
            outcome: OutcomeView::Failed(
                FailureView { cause: cause_of(operation), path: state.path() },
            ),
        }),
        state.next(event).next(later) == state.next(event),
        state.path().len() > 1 ==> (FailureView {
            cause: cause_of(operation),
            path: state.path(),
        }).kind() == FailureKind::NestedCopyFailed,
{
}

/// A copy that stops leaves what it has done, and has written nowhere else.
///
/// Wherever a run stands, whatever of the source the traversal is done with is in
/// the destination: the entries that came before the entries in hand, with all that
/// lies below them. Unless the run has ended in success, every path that the
/// traversal has not come to holds in the destination what it held at the start: an
/// entry that was still to come is absent, if it was absent before.
pub proof fn law_partial_copy_stays(
    worlds: Seq<World>,
    events: Seq<EventView>,
    path: Seq<Seq<u8>>,
)
    requires
        is_run(worlds, events),
        tree_wf(worlds[0].source),
        tree_wf(worlds[0].dest),
    ensures
        worlds.last().source == worlds[0].source,
        worlds[0].source.contains_key(path) && settled(state_after(events).frames, path)
            ==> present(worlds[0].source, worlds.last().dest, path),
        state_after(events).status != Status::Finished(OutcomeView::Copied) && !touched(
            state_after(events).frames,
            path,
        ) ==> same_at(worlds.last().dest, worlds[0].dest, path),
{
    lemma_run_inv(worlds, events);
}

/// What holds at every point of a second copy: the copy has failed, or the
/// destination is still what the first copy left.
spec fn rerun_fact(state: State, world: World, start: World) -> bool {
    state.status matches Status::Finished(OutcomeView::Failed(_)) || {
        &&& world.dest == start.dest
        &&& (state.status == Status::Awaiting(Operation::ProbeDestination) || state.status
            == Status::Awaiting(Operation::CreateDirectories)) ==> world.source.contains_key(
            state.path(),
        )
    }
}

proof fn lemma_rerun_step(state: State, world: World, event: EventView, after: World, start: World)
    requires
        rerun_fact(state, world, start),
        inv(state, world, start.dest),
        world.source == start.source,
        covers(start.source, start.dest),
        responds(world, state.action(), event, after),
    ensures
        rerun_fact(state.next(event), after, start),
{
    let here = state.path();
    match state.status {
        Status::Awaiting(Operation::CreateDirectories) => {
            if event == EventView::Created(true) {
                assert(present(world.source, world.dest, here));
                assert forall|path: Seq<Seq<u8>>|
                    leads_to(path, here) implies world.dest.contains_key(path) by {
                    if path != here {
                        lemma_ancestors_are_directories(world.dest, here, path);
                    }
                }
                assert(with_directories(world.dest, here) =~= world.dest);
            }
        },
        Status::Awaiting(Operation::CopyFile) => {
            if event == EventView::Copied(true) {
                assert(present(world.source, world.dest, here));
                assert(world.dest.insert(here, world.source[here]) =~= world.dest);
            }
        },
        _ => {},
    }
}

proof fn lemma_rerun(worlds: Seq<World>, events: Seq<EventView>)
    requires
        is_run(worlds, events),
        tree_wf(worlds[0].source),
        tree_wf(worlds[0].dest),
        covers(worlds[0].source, worlds[0].dest),
    ensures
        rerun_fact(state_after(events), worlds.last(), worlds[0]),
    decreases events.len(),
{
    if events.len() > 0 {
        lemma_run_prefix(worlds, events);
        lemma_rerun(worlds.drop_last(), events.drop_last());
        lemma_run_inv(worlds.drop_last(), events.drop_last());
        lemma_rerun_step(
            state_after(events.drop_last()),
            worlds.drop_last().last(),
            events.last(),
            worlds.last(),
            worlds[0],
        );
    }
}

/// Copying again onto the result of a successful copy changes nothing: if the
/// second copy of the same source ends in success too, the destination holds
/// exactly what the first copy left.
pub proof fn law_rerun_keeps_destination(
    first_worlds: Seq<World>,
    first_events: Seq<EventView>,
    worlds: Seq<World>,
    events: Seq<EventView>,
)
    requires
        is_run(first_worlds, first_events),
        tree_wf(first_worlds[0].source),
        tree_wf(first_worlds[0].dest),
        state_after(first_events).status == Status::Finished(OutcomeView::Copied),
        is_run(worlds, events),
        worlds[0] == first_worlds.last(),
        state_after(events).status == Status::Finished(OutcomeView::Copied),
    ensures
        worlds.last() == first_worlds.last(),
{
    lemma_run_inv(first_worlds, first_events);
    lemma_rerun(worlds, events);
    lemma_run_inv(worlds, events);
}

/// What holds at every point of a second copy on a file system without faults.
spec fn sound_rerun_fact(state: State, world: World, start: World) -> bool {
    &&& world.dest == start.dest
    &&& match state.status {
        Status::Finished(outcome) => outcome is Copied,
        Status::Awaiting(Operation::CreateDirectories) => false,
        Status::Awaiting(Operation::CopyFile) => is_file(world.source, state.path()),
        Status::Awaiting(Operation::ProbeDirectory) => true,
        Status::Awaiting(_) => is_dir(world.source, state.path()),
    }
}

proof fn lemma_sound_rerun_step(
    state: State,
    world: World,
    event: EventView,
    after: World,
    start: World,
)
    requires
        sound_rerun_fact(state, world, start),
        inv(state, world, start.dest),
        world.source == start.source,
        covers(start.source, start.dest),
        responds(world, state.action(), event, after),
        faultless(world, state.action(), event),
    ensures
        sound_rerun_fact(state.next(event), after, start),
{
    let here = state.path();
    match state.status {
        Status::Awaiting(Operation::ProbeDestination) => {
            assert(present(world.source, world.dest, here));
        },
        Status::Awaiting(Operation::ProbeDirectory) => {
            let top = state.frames.len() - 1;
            let frame = state.frames[top];
            assert(lists(world.source, here.take(top), frame.entries));
            assert(frame.entries.contains(frame.entries[frame.next]));
            assert(here.take(top).push(frame.entries[frame.next]) =~= here);
        },
        Status::Awaiting(Operation::CopyFile) => {
            assert(present(world.source, world.dest, here));
            assert(is_dir(world.dest, here.drop_last()));
            assert(can_copy(world, here));
            assert(world.dest.insert(here, world.source[here]) =~= world.dest);
        },
        _ => {},
    }
}

proof fn lemma_sound_rerun(worlds: Seq<World>, events: Seq<EventView>)
    requires
        is_run(worlds, events),
        is_faultless(worlds, events),
        tree_wf(worlds[0].source),
        tree_wf(worlds[0].dest),
        covers(worlds[0].source, worlds[0].dest),
        is_dir(worlds[0].source, Seq::empty()),
    ensures
        sound_rerun_fact(state_after(events), worlds.last(), worlds[0]),
    decreases events.len(),
{
    if events.len() == 0 {
        assert(State::init().path() =~= Seq::empty());
    } else {
        lemma_run_prefix(worlds, events);
        lemma_sound_rerun(worlds.drop_last(), events.drop_last());
        lemma_run_inv(worlds.drop_last(), events.drop_last());
        lemma_sound_rerun_step(
            state_after(events.drop_last()),
            worlds.drop_last().last(),
            events.last(),
            worlds.last(),
            worlds[0],
        );
    }
}

/// On a file system without faults, copying again onto the result of a successful
/// copy cannot fail and writes nothing new: at every point of the second copy the
/// copier has not failed and the destination is what the first copy left. So when
/// the second copy ends, it ends in success.
pub proof fn law_rerun_succeeds(
    first_worlds: Seq<World>,
    first_events: Seq<EventView>,
    worlds: Seq<World>,
    events: Seq<EventView>,
)
    requires
        is_run(first_worlds, first_events),
        tree_wf(first_worlds[0].source),
        tree_wf(first_worlds[0].dest),
        state_after(first_events).status == Status::Finished(OutcomeView::Copied),
        is_run(worlds, events),
        is_faultless(worlds, events),
        worlds[0] == first_worlds.last(),
    ensures
        worlds.last() == first_worlds.last(),
        !(state_after(events).status matches Status::Finished(OutcomeView::Failed(_))),
        state_after(events).status is Finished ==> state_after(events).status == Status::Finished(
            OutcomeView::Copied,
        ),
{
    lemma_run_inv(first_worlds, first_events);
    lemma_sound_rerun(worlds, events);
    lemma_run_inv(worlds, events);
}

/// On a file system without faults, a copy that nothing stands in the way of cannot
/// fail: if the source is a directory, and the destination holds no file where the
/// source has a directory and no directory where the source has a file, then the
/// copier has not failed wherever the run stands, and when the copy ends, it ends in
/// success, with the destination a mirror of the source.
pub proof fn law_unobstructed_copy_succeeds(worlds: Seq<World>, events: Seq<EventView>)
    requires
        is_run(worlds, events),
        is_faultless(worlds, events),
        tree_wf(worlds[0].source),
        tree_wf(worlds[0].dest),
        is_dir(worlds[0].source, Seq::empty()),
        unobstructed(worlds[0].source, worlds[0].dest),
    ensures
        !(state_after(events).status matches Status::Finished(OutcomeView::Failed(_))),
        state_after(events).status is Finished ==> {
            &&& state_after(events).status == Status::Finished(OutcomeView::Copied)
            &&& mirrors(worlds[0].source, worlds.last().dest)
        },
{
    lemma_clear_run(worlds, events);
    if state_after(events).status is Finished {
        law_success_mirrors(worlds, events);
    }
}

/// A copy of a finite tree ends: no run takes more than six answers for every path
/// of the source, and four more.
pub proof fn law_copy_ends(worlds: Seq<World>, events: Seq<EventView>)
    requires
        is_run(worlds, events),
        tree_wf(worlds[0].source),
        tree_wf(worlds[0].dest),
        worlds[0].source.dom().finite(),
    ensures
        events.len() <= 6 * worlds[0].source.dom().len() + 4,
{
    lemma_run_work(worlds, events);
    lemma_work_at_start(worlds[0].source);
}

/// Every finite set can be listed, each member once.
proof fn lemma_listing(names: Set<Seq<u8>>) -> (listing: Seq<Seq<u8>>)
    requires
        names.finite(),
    ensures
        listing.no_duplicates(),
        forall|name: Seq<u8>| listing.contains(name) <==> names.contains(name),
    decreases names.len(),
{
    if names.len() == 0 {
        assert forall|name: Seq<u8>| !names.contains(name) by {
            if names.contains(name) {
                assert(names.remove(name).len() + 1 == names.len());
            }
        }
        Seq::empty()
    } else {
        let one = names.choose();
        let others = lemma_listing(names.remove(one));
        let listing = others.push(one);
        assert forall|name: Seq<u8>| listing.contains(name) <==> names.contains(name) by {
            if listing.contains(name) {
                let i = choose|i: int| 0 <= i < listing.len() && listing[i] == name;
                if i < others.len() {
                    assert(others.contains(name));
                }
            }
            if names.contains(name) {
                if name == one {
                    assert(listing[others.len() as int] == name);
                } else {
                    assert(others.contains(name));
                    let i = choose|i: int| 0 <= i < others.len() && others[i] == name;
                    assert(listing[i] == name);
                }
            }
        }
        assert forall|i: int, j: int|
            0 <= i < listing.len() && 0 <= j < listing.len() && i != j implies listing[i]
            != listing[j] by {
            if i == others.len() {
                assert(others.contains(listing[j]));
            } else if j == others.len() {
                assert(others.contains(listing[i]));
            }
        }
        listing
    }
}

/// A directory of a finite tree has a full listing.
proof fn lemma_directory_listing(source: Tree, path: Seq<Seq<u8>>) -> (listing: Seq<Seq<u8>>)
    requires
        source.dom().finite(),
        is_dir(source, path),
    ensures
        lists(source, path, listing),
{
    let inside = source.dom().filter(
        |other: Seq<Seq<u8>>| other.len() == path.len() + 1 && leads_to(path, other),
    );
    let names = inside.map(|other: Seq<Seq<u8>>| other.last());
    source.dom().lemma_len_filter(
        |other: Seq<Seq<u8>>| other.len() == path.len() + 1 && leads_to(path, other),
    );
    inside.lemma_map_finite(|other: Seq<Seq<u8>>| other.last());
    let listing = lemma_listing(names);
    assert forall|name: Seq<u8>| listing.contains(name) <==> source.contains_key(
        #[trigger] path.push(name),
    ) by {
        let child = path.push(name);
        if source.contains_key(child) {
            assert(child.take(path.len() as int) =~= path);
            assert(inside.contains(child));
            assert(child.last() == name);
            assert(names.contains(name));
        }
        if names.contains(name) {
            let other = choose|other: Seq<Seq<u8>>| inside.contains(other) && other.last() == name;
            assert(other =~= other.take(path.len() as int).push(other.last()));
        }
    }
    listing
}

/// A file system without faults is never at a loss for an answer: whatever a copier
/// asks for, on finite trees, some event answers it without fault.
pub proof fn law_faultless_answer_exists(state: State, world: World) -> (answer: (EventView, World))
    requires
        state.status is Awaiting,
        world.source.dom().finite(),
    ensures
        responds(world, state.action(), answer.0, answer.1),
        faultless(world, state.action(), answer.0),
{
    let here = state.path();
    match state.status->Awaiting_0 {
        Operation::ProbeSource => (EventView::Exists(world.source.contains_key(here)), world),
        Operation::ProbeDestination => (EventView::Exists(world.dest.contains_key(here)), world),
        Operation::CreateDirectories => if creatable(world.dest, here) {
            (
                EventView::Created(true),
                World { source: world.source, dest: with_directories(world.dest, here) },
            )
        } else {
            (EventView::Created(false), world)
        },
        Operation::ListSource => if is_dir(world.source, here) {
            (EventView::Listed(lemma_directory_listing(world.source, here)), world)
        } else {
            (EventView::ListFailed, world)
        },
        Operation::ProbeDirectory => (EventView::IsDirectory(is_dir(world.source, here)), world),
        Operation::CopyFile => if can_copy(world, here) {
            (
                EventView::Copied(true),
                World { source: world.source, dest: world.dest.insert(here, world.source[here]) },
            )
        } else {
            (EventView::Copied(false), world)
        },
    }
}

} // verus!
