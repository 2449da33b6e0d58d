//! What holds of the copier and the two trees at every point of a run.

use vstd::prelude::*;
use crate::machine::{
    advance, frames_wf, lemma_advance_wf, lemma_next_wf, path_of, Frame, State, Status,
};
use crate::names::leads_to;
use crate::progress::{
    entry_path, frames_list, lemma_advance_touches, lemma_enter_settles_nothing,
    lemma_enter_touches, lemma_in_hand_not_settled, lemma_leads_to_child, lemma_leads_to_self,
    lemma_leads_to_transitive, lemma_leave_settles, lemma_move_settles, lemma_path_of_drop_last,
    lemma_path_of_push, moved, settled, settled_by, touched,
};
use crate::protocol::{EventView, Operation, OutcomeView};
use crate::world::{
    can_copy, creatable, is_dir, is_file, lemma_ancestors_are_directories, lists, present,
    responds, same_at, tree_wf, with_directories, Node, Tree, World,
};

verus! {

/// Whatever of the source the traversal is done with is in the destination.
pub open spec fn settled_present(source: Tree, dest: Tree, frames: Seq<Frame>) -> bool {
    forall|path: Seq<Seq<u8>>|
        source.contains_key(path) && #[trigger] settled(frames, path) ==> present(
            source,
            dest,
            path,
        )
}

/// Everything below `root` in the source, and `root` itself, is in the destination.
pub open spec fn present_below(source: Tree, dest: Tree, root: Seq<Seq<u8>>) -> bool {
    forall|path: Seq<Seq<u8>>|
        source.contains_key(path) && #[trigger] leads_to(root, path) ==> present(
            source,
            dest,
            path,
        )
}

/// Everything in the source is in the destination.
pub open spec fn covers(source: Tree, dest: Tree) -> bool {
    forall|path: Seq<Seq<u8>>| #[trigger] source.contains_key(path) ==> present(source, dest, path)
}

/// A file in the destination is a copy of the source's, or was there at the start.
pub open spec fn files_known(source: Tree, dest: Tree, start: Tree) -> bool {
    forall|path: Seq<Seq<u8>>| #[trigger]
        is_file(dest, path) ==> is_file(source, path) || is_file(start, path)
}

/// Where the traversal has not come, the destination is as it was at the start.
pub open spec fn rest_untouched(frames: Seq<Frame>, dest: Tree, start: Tree) -> bool {
    forall|path: Seq<Seq<u8>>| !touched(frames, path) ==> #[trigger] same_at(dest, start, path)
}

/// The invariant of a run that began with `start` as its destination.
pub open spec fn inv(state: State, world: World, start: Tree) -> bool {
    &&& state.wf()
    &&& tree_wf(world.source)
    &&& tree_wf(world.dest)
    &&& frames_list(world.source, state.frames)
    &&& settled_present(world.source, world.dest, state.frames)
    &&& files_known(world.source, world.dest, start)
    &&& match state.status {
        Status::Finished(OutcomeView::Copied) => covers(world.source, world.dest) && is_dir(
            world.source,
            Seq::empty(),
        ),
        _ => rest_untouched(state.frames, world.dest, start),
    }
    &&& state.status == Status::Awaiting(Operation::ListSource) ==> world.dest.contains_key(
        state.path(),
    )
}

/// New directories on the way to the path in hand disturb nothing.
proof fn lemma_create_keeps(
    frames: Seq<Frame>,
    source: Tree,
    dest: Tree,
    start: Tree,
    made: Seq<Seq<u8>>,
)
    requires
        tree_wf(dest),
        creatable(dest, made),
        leads_to(made, path_of(frames)),
        settled_present(source, dest, frames),
        files_known(source, dest, start),
        rest_untouched(frames, dest, start),
    ensures
        tree_wf(with_directories(dest, made)),
        settled_present(source, with_directories(dest, made), frames),
        files_known(source, with_directories(dest, made), start),
        rest_untouched(frames, with_directories(dest, made), start),
        with_directories(dest, made).contains_key(made),
{
    let after = with_directories(dest, made);
    lemma_leads_to_self(made);
    assert forall|path: Seq<Seq<u8>>| #[trigger]
        after.contains_key(path) && path.len() > 0 implies is_dir(after, path.drop_last()) by {
        let parent = path.drop_last();
        if dest.contains_key(path) {
            assert(is_dir(dest, parent));
        } else {
            assert(leads_to(parent, path)) by {
                assert(path.take(parent.len() as int) == parent);
            }
            lemma_leads_to_transitive(parent, path, made);
        }
    }
    assert forall|path: Seq<Seq<u8>>|
        source.contains_key(path) && #[trigger] settled(frames, path) implies present(
        source,
        after,
        path,
    ) by {
        assert(present(source, dest, path));
    }
    assert forall|path: Seq<Seq<u8>>| #[trigger] is_file(after, path) implies is_file(source, path)
        || is_file(start, path) by {
        assert(is_file(dest, path));
    }
    assert forall|path: Seq<Seq<u8>>| !touched(frames, path) implies #[trigger] same_at(
        after,
        start,
        path,
    ) by {
        assert(same_at(dest, start, path));
        if leads_to(path, made) {
            lemma_leads_to_transitive(path, made, path_of(frames));
        }
    }
}

/// A file written at the path in hand disturbs nothing that is done.
pub proof fn lemma_write_keeps(
    frames: Seq<Frame>,
    source: Tree,
    dest: Tree,
    start: Tree,
    bytes: Seq<u8>,
)
    requires
        frames_wf(frames),
        frames_list(source, frames),
        tree_wf(dest),
        can_copy(World { source, dest }, path_of(frames)),
        settled_present(source, dest, frames),
        files_known(source, dest, start),
        rest_untouched(frames, dest, start),
    ensures
        tree_wf(dest.insert(path_of(frames), Node::File(bytes))),
        settled_present(source, dest.insert(path_of(frames), Node::File(bytes)), frames),
        files_known(source, dest.insert(path_of(frames), Node::File(bytes)), start),
        rest_untouched(frames, dest.insert(path_of(frames), Node::File(bytes)), start),
{
    let here = path_of(frames);
    let after = dest.insert(here, Node::File(bytes));
    lemma_leads_to_self(here);
    assert forall|path: Seq<Seq<u8>>| #[trigger]
        after.contains_key(path) && path.len() > 0 implies is_dir(after, path.drop_last()) by {
        if path != here {
            assert(is_dir(dest, path.drop_last()));
        }
    }
    assert forall|path: Seq<Seq<u8>>|
        source.contains_key(path) && #[trigger] settled(frames, path) implies present(
        source,
        after,
        path,
    ) by {
        assert(present(source, dest, path));
        if path == here {
            lemma_in_hand_not_settled(frames, source, path);
        }
    }
    assert forall|path: Seq<Seq<u8>>| #[trigger] is_file(after, path) implies is_file(source, path)
        || is_file(start, path) by {
        if path != here {
            assert(is_file(dest, path));
        }
    }
    assert forall|path: Seq<Seq<u8>>| !touched(frames, path) implies #[trigger] same_at(
        after,
        start,
        path,
    ) by {
        assert(same_at(dest, start, path));
    }
}

/// Entering a directory keeps what holds of the frames around it.
proof fn lemma_enter_keeps(
    frames: Seq<Frame>,
    source: Tree,
    dest: Tree,
    start: Tree,
    names: Seq<Seq<u8>>,
)
    requires
        frames_list(source, frames),
        lists(source, path_of(frames), names),
        settled_present(source, dest, frames),
        rest_untouched(frames, dest, start),
    ensures
        frames_list(source, frames.push(Frame { entries: names, next: 0 })),
        settled_present(source, dest, frames.push(Frame { entries: names, next: 0 })),
        rest_untouched(frames.push(Frame { entries: names, next: 0 }), dest, start),
{
    let frame = Frame { entries: names, next: 0 };
    let inner = frames.push(frame);
    let depth = frames.len() as int;
    lemma_path_of_push(frames, frame);
    assert(path_of(inner).take(depth) == path_of(frames));
    assert forall|i: int| 0 <= i < inner.len() implies lists(
        source,
        path_of(inner).take(i),
        (#[trigger] inner[i]).entries,
    ) by {
        if i < depth {
            assert(inner[i] == frames[i]);
            assert(path_of(inner).take(i) == path_of(frames).take(i));
        }
    }
    assert forall|path: Seq<Seq<u8>>|
        source.contains_key(path) && #[trigger] settled(inner, path) implies present(
        source,
        dest,
        path,
    ) by {
        lemma_enter_settles_nothing(frames, frame, path);
    }
    assert forall|path: Seq<Seq<u8>>| !touched(inner, path) implies #[trigger] same_at(
        dest,
        start,
        path,
    ) by {
        if touched(frames, path) {
            lemma_enter_touches(frames, frame, path);
        }
    }
}

/// Moving to the next entry of a directory, once the entry in hand is in the
/// destination with all that lies below it.
proof fn lemma_move_keeps(frames: Seq<Frame>, source: Tree, dest: Tree)
    requires
        frames.len() > 0,
        frames_list(source, frames),
        settled_present(source, dest, frames),
        present_below(source, dest, path_of(frames)),
    ensures
        frames_list(source, moved(frames)),
        settled_present(source, dest, moved(frames)),
{
    let rest = moved(frames);
    let here = path_of(frames);
    assert forall|i: int| 0 <= i < rest.len() implies lists(
        source,
        path_of(rest).take(i),
        (#[trigger] rest[i]).entries,
    ) by {
        assert(path_of(rest).take(i) =~= here.take(i));
        assert(rest[i].entries == frames[i].entries);
    }
    assert forall|path: Seq<Seq<u8>>|
        source.contains_key(path) && #[trigger] settled(rest, path) implies present(
        source,
        dest,
        path,
    ) by {
        lemma_move_settles(frames, path);
    }
}

/// Leaving a directory whose entries are all done: the directory itself is in the
/// destination then, with all that lies below it.
proof fn lemma_leave_keeps(frames: Seq<Frame>, source: Tree, dest: Tree)
    requires
        frames_wf(frames),
        frames.len() > 0,
        frames.last().next + 1 == frames.last().entries.len(),
        tree_wf(source),
        tree_wf(dest),
        frames_list(source, frames),
        settled_present(source, dest, frames),
        present_below(source, dest, path_of(frames)),
    ensures
        frames_list(source, frames.drop_last()),
        settled_present(source, dest, frames.drop_last()),
        present_below(source, dest, path_of(frames.drop_last())),
{
    let outer = frames.drop_last();
    let top = frames.len() - 1;
    let here = path_of(frames);
    let dir = path_of(outer);
    let entries = frames[top].entries;
    lemma_path_of_drop_last(frames);
    assert(dir == here.take(top));
    assert(here =~= entry_path(frames, top, frames[top].next));
    assert(lists(source, dir, entries));
    assert forall|i: int| 0 <= i < outer.len() implies lists(
        source,
        path_of(outer).take(i),
        (#[trigger] outer[i]).entries,
    ) by {
        assert(path_of(outer).take(i) =~= here.take(i));
        assert(outer[i] == frames[i]);
    }
    assert forall|path: Seq<Seq<u8>>|
        source.contains_key(path) && #[trigger] settled(outer, path) implies present(
        source,
        dest,
        path,
    ) by {
        lemma_leave_settles(frames, path);
    }
    // Every entry of the directory is in the destination, with what lies below it.
    assert forall|path: Seq<Seq<u8>>, j: int|
        source.contains_key(path) && 0 <= j < entries.len() && #[trigger] leads_to(
            dir.push(entries[j]),
            path,
        ) implies present(source, dest, path) by {
        if j == frames[top].next {
            assert(leads_to(here, path));
        } else {
            assert(settled_by(frames, path, top, j));
            assert(settled(frames, path));
        }
    }
    assert forall|path: Seq<Seq<u8>>|
        source.contains_key(path) && #[trigger] leads_to(dir, path) implies present(
        source,
        dest,
        path,
    ) by {
        if path == dir {
            let first = dir.push(entries[0]);
            assert(entries.contains(entries[0]));
            lemma_leads_to_self(first);
            assert(present(source, dest, first));
            assert(first.drop_last() == dir);
            assert(is_dir(dest, first.drop_last()));
        } else {
            lemma_leads_to_child(dir, path);
            let name = path[dir.len() as int];
            let child = dir.push(name);
            if child != path {
                lemma_ancestors_are_directories(source, path, child);
            }
            assert(entries.contains(name));
            let j = choose|j: int| 0 <= j < entries.len() && entries[j] == name;
            assert(leads_to(dir.push(entries[j]), path));
        }
    }
}

/// Once the entry in hand is in the destination with all that lies below it, the
/// frames can advance: what holds of the frames holds of those that are left, and if
/// none is left, the whole source is in the destination.
proof fn lemma_advance_keeps(frames: Seq<Frame>, source: Tree, dest: Tree)
    requires
        frames_wf(frames),
        tree_wf(source),
        tree_wf(dest),
        frames_list(source, frames),
        settled_present(source, dest, frames),
        present_below(source, dest, path_of(frames)),
    ensures
        frames_list(source, advance(frames)),
        settled_present(source, dest, advance(frames)),
        advance(frames).len() == 0 ==> covers(source, dest),
    decreases frames.len(),
{
    if frames.len() == 0 {
        assert forall|path: Seq<Seq<u8>>| #[trigger] source.contains_key(path) implies present(
            source,
            dest,
            path,
        ) by {
            assert(path.take(0) =~= path_of(frames));
            assert(leads_to(path_of(frames), path));
        }
    } else if frames.last().next + 1 < frames.last().entries.len() {
        lemma_move_keeps(frames, source, dest);
    } else {
        lemma_leave_keeps(frames, source, dest);
        lemma_advance_keeps(frames.drop_last(), source, dest);
    }
}

/// The root of the source is a directory as soon as one directory was listed.
proof fn lemma_root_listed(state: State, world: World)
    requires
        frames_list(world.source, state.frames),
        is_dir(world.source, state.path()),
    ensures
        is_dir(world.source, Seq::empty()),
{
    if state.frames.len() == 0 {
        assert(state.path() =~= Seq::empty());
    } else {
        assert(lists(world.source, state.path().take(0), state.frames[0].entries));
        assert(state.path().take(0) =~= Seq::empty());
    }
}

/// The invariant after the entry in hand was found to be in the destination with
/// all that lies below it.
proof fn lemma_settle_keeps(state: State, world: World, start: Tree)
    requires
        frames_wf(state.frames),
        tree_wf(world.source),
        tree_wf(world.dest),
        frames_list(world.source, state.frames),
        settled_present(world.source, world.dest, state.frames),
        files_known(world.source, world.dest, start),
        rest_untouched(state.frames, world.dest, start),
        present_below(world.source, world.dest, state.path()),
        is_dir(world.source, Seq::empty()),
    ensures
        inv(state.settle(), world, start),
{
    lemma_advance_wf(state.frames);
    lemma_advance_keeps(state.frames, world.source, world.dest);
    let rest = advance(state.frames);
    if rest.len() > 0 {
        assert forall|path: Seq<Seq<u8>>| !touched(rest, path) implies #[trigger] same_at(
            world.dest,
            start,
            path,
        ) by {
            if touched(state.frames, path) {
                lemma_advance_touches(state.frames, path);
            }
        }
    }
}

proof fn lemma_step_create(state: State, world: World, event: EventView, after: World, start: Tree)
    requires
        inv(state, world, start),
        state.status == Status::Awaiting(Operation::CreateDirectories),
        responds(world, state.action(), event, after),
    ensures
        inv(state.next(event), after, start),
{
    let here = state.path();
    lemma_leads_to_self(here);
    if event == EventView::Created(true) {
        lemma_create_keeps(state.frames, world.source, world.dest, start, here);
    } else if after.dest != world.dest {
        let made = choose|made: int|
            0 <= made < here.len() && creatable(world.dest, here.take(made)) && after.dest
                == #[trigger] with_directories(world.dest, here.take(made));
        assert(leads_to(here.take(made), here));
        lemma_create_keeps(state.frames, world.source, world.dest, start, here.take(made));
    }
}

proof fn lemma_step_list(state: State, world: World, event: EventView, after: World, start: Tree)
    requires
        inv(state, world, start),
        state.status == Status::Awaiting(Operation::ListSource),
        responds(world, state.action(), event, after),
    ensures
        inv(state.next(event), after, start),
{
    let here = state.path();
    lemma_next_wf(state, event);
    if let EventView::Listed(names) = event {
        if names.len() == 0 {
            lemma_root_listed(state, world);
            assert forall|path: Seq<Seq<u8>>|
                world.source.contains_key(path) && #[trigger] leads_to(here, path) implies present(
                world.source,
                world.dest,
                path,
            ) by {
                if path != here {
                    lemma_leads_to_child(here, path);
                    let child = here.push(path[here.len() as int]);
                    if child != path {
                        lemma_ancestors_are_directories(world.source, path, child);
                    }
                    assert(names.contains(path[here.len() as int]));
                }
            }
            lemma_settle_keeps(state, world, start);
        } else {
            lemma_enter_keeps(state.frames, world.source, world.dest, start, names);
        }
    }
}

proof fn lemma_step_copy(state: State, world: World, event: EventView, after: World, start: Tree)
    requires
        inv(state, world, start),
        state.status == Status::Awaiting(Operation::CopyFile),
        responds(world, state.action(), event, after),
    ensures
        inv(state.next(event), after, start),
{
    let here = state.path();
    lemma_next_wf(state, event);
    if event == EventView::Copied(true) {
        let bytes = world.source[here]->File_0;
        lemma_write_keeps(state.frames, world.source, world.dest, start, bytes);
        assert(lists(world.source, here.take(0), state.frames[0].entries));
        assert(here.take(0) =~= Seq::empty());
        assert forall|path: Seq<Seq<u8>>|
            world.source.contains_key(path) && #[trigger] leads_to(here, path) implies present(
            world.source,
            after.dest,
            path,
        ) by {
            if path != here {
                lemma_ancestors_are_directories(world.source, path, here);
            }
        }
        lemma_settle_keeps(state, after, start);
    } else if after.dest != world.dest {
        let bytes = choose|bytes: Seq<u8>|
            after.dest == #[trigger] world.dest.insert(here, Node::File(bytes));
        lemma_write_keeps(state.frames, world.source, world.dest, start, bytes);
    }
}

/// Every step of a run keeps the invariant.
pub proof fn lemma_inv_step(state: State, world: World, event: EventView, after: World, start: Tree)
    requires
        inv(state, world, start),
        responds(world, state.action(), event, after),
    ensures
        inv(state.next(event), after, start),
{
    match state.status {
        Status::Awaiting(Operation::CreateDirectories) => {
            lemma_step_create(state, world, event, after, start);
        },
        Status::Awaiting(Operation::ListSource) => {
            lemma_step_list(state, world, event, after, start);
        },
        Status::Awaiting(Operation::CopyFile) => {
            lemma_step_copy(state, world, event, after, start);
        },
        _ => {},
    }
}

/// The invariant holds at the start of a run, whatever the two trees hold.
pub proof fn lemma_inv_init(world: World)
    requires
        tree_wf(world.source),
        tree_wf(world.dest),
    ensures
        inv(State::init(), world, world.dest),
{
    assert forall|path: Seq<Seq<u8>>|
        world.source.contains_key(path) && #[trigger] settled(
            State::init().frames,
            path,
        ) implies present(world.source, world.dest, path) by {
        let (i, j) = choose|i: int, j: int| settled_by(State::init().frames, path, i, j);
    }
}

} // verus!
