//! How far a traversal has come: which paths it is done with, and which it has
//! reached.

use vstd::prelude::*;
use crate::machine::{advance, frames_wf, path_of, Frame};
use crate::names::leads_to;
use crate::world::{lists, Tree};

verus! {

/// The path of entry `j` of frame `i`.
pub open spec fn entry_path(frames: Seq<Frame>, i: int, j: int) -> Seq<Seq<u8>> {
    path_of(frames).take(i).push(frames[i].entries[j])
}

/// `path` is entry `j` of frame `i`, or lies below it, and that entry is done.
pub open spec fn settled_by(frames: Seq<Frame>, path: Seq<Seq<u8>>, i: int, j: int) -> bool {
    &&& 0 <= i < frames.len()
    &&& 0 <= j < frames[i].next
    &&& leads_to(entry_path(frames, i, j), path)
}

/// The traversal is done with `path`: it is an entry that came before the entry in
/// hand in some frame, or it lies below such an entry.
pub open spec fn settled(frames: Seq<Frame>, path: Seq<Seq<u8>>) -> bool {
    exists|i: int, j: int| settled_by(frames, path, i, j)
}

/// The traversal has come to `path`: it is done with it, or `path` is the path in
/// hand or on the way to it.
pub open spec fn touched(frames: Seq<Frame>, path: Seq<Seq<u8>>) -> bool {
    settled(frames, path) || leads_to(path, path_of(frames))
}

/// Each frame holds a full listing of its directory in the source.
pub open spec fn frames_list(source: Tree, frames: Seq<Frame>) -> bool {
    forall|i: int|
        0 <= i < frames.len() ==> lists(
            source,
            path_of(frames).take(i),
            (#[trigger] frames[i]).entries,
        )
}

/// The innermost frame with the entry in hand counted as done.
pub open spec fn moved(frames: Seq<Frame>) -> Seq<Frame> {
    frames.drop_last().push(
        Frame { entries: frames.last().entries, next: frames.last().next + 1 },
    )
}

pub proof fn lemma_leads_to_self(path: Seq<Seq<u8>>)
    ensures
        leads_to(path, path),
{
    assert(path.take(path.len() as int) == path);
}

pub proof fn lemma_leads_to_transitive(a: Seq<Seq<u8>>, b: Seq<Seq<u8>>, c: Seq<Seq<u8>>)
    requires
        leads_to(a, b),
        leads_to(b, c),
    ensures
        leads_to(a, c),
{
    assert(c.take(a.len() as int) =~= b.take(a.len() as int)) by {
        assert forall|m: int| 0 <= m < a.len() implies c.take(a.len() as int)[m] == b.take(
            a.len() as int,
        )[m] by {
            assert(c.take(b.len() as int)[m] == b[m]);
        }
    }
}

/// Two paths of one length lead to each other only if they are the same.
pub proof fn lemma_leads_to_same_length(a: Seq<Seq<u8>>, b: Seq<Seq<u8>>)
    requires
        leads_to(a, b),
        a.len() == b.len(),
    ensures
        a == b,
{
    assert(b.take(b.len() as int) == b);
}

/// What leads to a path leads on, one name further, unless it is the path.
pub proof fn lemma_leads_to_child(prefix: Seq<Seq<u8>>, path: Seq<Seq<u8>>)
    requires
        leads_to(prefix, path),
        prefix != path,
    ensures
        prefix.len() < path.len(),
        leads_to(prefix.push(path[prefix.len() as int]), path),
{
    if prefix.len() == path.len() {
        lemma_leads_to_same_length(prefix, path);
    }
    let child = prefix.push(path[prefix.len() as int]);
    assert(path.take(child.len() as int) =~= child) by {
        assert forall|m: int| 0 <= m < child.len() implies path.take(child.len() as int)[m]
            == child[m] by {
            if m < prefix.len() {
                assert(path.take(prefix.len() as int)[m] == prefix[m]);
            }
        }
    }
}

pub proof fn lemma_path_of_push(frames: Seq<Frame>, frame: Frame)
    ensures
        path_of(frames.push(frame)) == path_of(frames).push(frame.entries[frame.next]),
{
    assert(path_of(frames.push(frame)) =~= path_of(frames).push(frame.entries[frame.next]));
}

pub proof fn lemma_path_of_drop_last(frames: Seq<Frame>)
    requires
        frames.len() > 0,
    ensures
        path_of(frames.drop_last()) == path_of(frames).drop_last(),
{
    assert(path_of(frames.drop_last()) =~= path_of(frames).drop_last());
}

/// The name at depth `i` of a path that the path in hand leads to is the entry in
/// hand of frame `i`.
proof fn lemma_name_in_hand(frames: Seq<Frame>, path: Seq<Seq<u8>>, i: int)
    requires
        leads_to(path_of(frames), path),
        0 <= i < frames.len(),
    ensures
        path[i] == frames[i].entries[frames[i].next],
{
    assert(path.take(path_of(frames).len() as int)[i] == path_of(frames)[i]);
}

/// The name at depth `i` of a path that entry `j` of frame `i` leads to is that
/// entry, and the names before it are the entries in hand of the frames around.
proof fn lemma_name_of_entry(frames: Seq<Frame>, path: Seq<Seq<u8>>, i: int, j: int, m: int)
    requires
        0 <= i < frames.len(),
        leads_to(entry_path(frames, i, j), path),
        0 <= m <= i,
    ensures
        i < path.len(),
        path[m] == if m == i {
            frames[i].entries[j]
        } else {
            frames[m].entries[frames[m].next]
        },
{
    let entry = entry_path(frames, i, j);
    assert(path.take(entry.len() as int)[m] == entry[m]);
}

/// Nothing that the traversal is done with lies at or below the path in hand.
pub proof fn lemma_in_hand_not_settled(frames: Seq<Frame>, source: Tree, path: Seq<Seq<u8>>)
    requires
        frames_wf(frames),
        frames_list(source, frames),
        leads_to(path_of(frames), path),
    ensures
        !settled(frames, path),
{
    if settled(frames, path) {
        let (i, j) = choose|i: int, j: int| settled_by(frames, path, i, j);
        lemma_name_in_hand(frames, path, i);
        lemma_name_of_entry(frames, path, i, j, i);
        assert(frames[i].entries.no_duplicates());
    }
}

/// Entering a directory takes nothing back: what the traversal had come to, it has
/// still come to.
pub proof fn lemma_enter_touches(frames: Seq<Frame>, frame: Frame, path: Seq<Seq<u8>>)
    requires
        touched(frames, path),
    ensures
        touched(frames.push(frame), path),
{
    let inner = frames.push(frame);
    lemma_path_of_push(frames, frame);
    assert(path_of(inner).take(frames.len() as int) == path_of(frames));
    lemma_leads_to_self(path_of(frames));
    if settled(frames, path) {
        let (i, j) = choose|i: int, j: int| settled_by(frames, path, i, j);
        assert(inner[i] == frames[i]);
        assert(path_of(inner).take(i) == path_of(frames).take(i));
        assert(settled_by(inner, path, i, j));
    } else {
        lemma_leads_to_transitive(path, path_of(frames), path_of(inner));
    }
}

/// In a directory that was just entered, the traversal is done with nothing more
/// than before.
pub proof fn lemma_enter_settles_nothing(frames: Seq<Frame>, frame: Frame, path: Seq<Seq<u8>>)
    requires
        frame.next == 0,
        settled(frames.push(frame), path),
    ensures
        settled(frames, path),
{
    let inner = frames.push(frame);
    let (i, j) = choose|i: int, j: int| settled_by(inner, path, i, j);
    lemma_path_of_push(frames, frame);
    assert(inner[i] == frames[i]);
    assert(path_of(inner).take(i) == path_of(frames).take(i));
    assert(settled_by(frames, path, i, j));
}

/// Once the traversal moves to the next entry of the innermost directory, it is
/// done with the entry that was in hand and with all that lies below it.
pub proof fn lemma_move_touches(frames: Seq<Frame>, path: Seq<Seq<u8>>)
    requires
        frames_wf(frames),
        frames.len() > 0,
        touched(frames, path) || leads_to(path_of(frames), path),
    ensures
        touched(moved(frames), path),
{
    let rest = moved(frames);
    let top = frames.len() - 1;
    let here = path_of(frames);
    assert(here =~= entry_path(frames, top, frames[top].next));
    assert(path_of(rest).take(top) =~= here.take(top));
    assert(entry_path(rest, top, frames[top].next) == here);
    if settled(frames, path) {
        let (i, j) = choose|i: int, j: int| settled_by(frames, path, i, j);
        assert(path_of(rest).take(i) =~= here.take(i));
        assert(rest[i].entries == frames[i].entries);
        assert(entry_path(rest, i, j) == entry_path(frames, i, j));
        assert(settled_by(rest, path, i, j));
    } else if leads_to(here, path) {
        assert(settled_by(rest, path, top, frames[top].next));
    } else if path.len() == here.len() {
        lemma_leads_to_same_length(path, here);
        lemma_leads_to_self(here);
        assert(settled_by(rest, path, top, frames[top].next));
    } else {
        assert(path_of(rest).take(path.len() as int) =~= here.take(path.len() as int));
    }
}

/// What the traversal moves on to was done in the frames as they were, or lay at
/// or below the path in hand.
pub proof fn lemma_move_settles(frames: Seq<Frame>, path: Seq<Seq<u8>>)
    requires
        frames.len() > 0,
        settled(moved(frames), path),
    ensures
        settled(frames, path) || leads_to(path_of(frames), path),
{
    let rest = moved(frames);
    let top = frames.len() - 1;
    let here = path_of(frames);
    let (i, j) = choose|i: int, j: int| settled_by(rest, path, i, j);
    assert(here =~= entry_path(frames, top, frames[top].next));
    assert(path_of(rest).take(i) =~= here.take(i));
    assert(rest[i].entries == frames[i].entries);
    assert(entry_path(rest, i, j) == entry_path(frames, i, j));
    if !(i == top && j == frames[top].next) {
        assert(settled_by(frames, path, i, j));
    }
}

/// Leaving the innermost directory loses nothing: what the traversal had come to,
/// or what lay below the path in hand, it has come to in the frames around, or lies
/// below the directory that was left.
pub proof fn lemma_leave_touches(frames: Seq<Frame>, path: Seq<Seq<u8>>)
    requires
        frames.len() > 0,
        touched(frames, path) || leads_to(path_of(frames), path),
    ensures
        touched(frames.drop_last(), path) || leads_to(path_of(frames.drop_last()), path),
{
    let outer = frames.drop_last();
    let top = frames.len() - 1;
    let here = path_of(frames);
    let dir = path_of(outer);
    lemma_path_of_drop_last(frames);
    assert(leads_to(dir, here)) by {
        assert(here.take(dir.len() as int) =~= dir);
    }
    if settled(frames, path) {
        let (i, j) = choose|i: int, j: int| settled_by(frames, path, i, j);
        if i == top {
            let entry = entry_path(frames, i, j);
            assert(leads_to(dir, entry)) by {
                assert(entry.take(dir.len() as int) =~= dir);
            }
            lemma_leads_to_transitive(dir, entry, path);
        } else {
            assert(path_of(outer).take(i) =~= here.take(i));
            assert(outer[i] == frames[i]);
            assert(settled_by(outer, path, i, j));
        }
    } else if leads_to(here, path) {
        lemma_leads_to_transitive(dir, here, path);
    } else if path.len() == here.len() {
        lemma_leads_to_same_length(path, here);
    } else {
        assert(dir.take(path.len() as int) =~= here.take(path.len() as int));
    }
}

/// What the frames around are done with, the frames were done with.
pub proof fn lemma_leave_settles(frames: Seq<Frame>, path: Seq<Seq<u8>>)
    requires
        frames.len() > 0,
        settled(frames.drop_last(), path),
    ensures
        settled(frames, path),
{
    let outer = frames.drop_last();
    let (i, j) = choose|i: int, j: int| settled_by(outer, path, i, j);
    assert(path_of(outer).take(i) =~= path_of(frames).take(i));
    assert(outer[i] == frames[i]);
    assert(settled_by(frames, path, i, j));
}

/// Advancing loses nothing: what the traversal had come to, and what lay at or
/// below the path in hand, it has come to afterwards.
pub proof fn lemma_advance_touches(frames: Seq<Frame>, path: Seq<Seq<u8>>)
    requires
        frames_wf(frames),
        touched(frames, path) || leads_to(path_of(frames), path),
        advance(frames).len() > 0,
    ensures
        touched(advance(frames), path),
    decreases frames.len(),
{
    if frames.len() == 0 {
    } else if frames.last().next + 1 < frames.last().entries.len() {
        lemma_move_touches(frames, path);
    } else {
        lemma_leave_touches(frames, path);
        lemma_advance_touches(frames.drop_last(), path);
    }
}

/// The first entry of a directory that is entered is in the source, and the
/// traversal had not come to it.
pub proof fn lemma_enter_fresh(frames: Seq<Frame>, source: Tree, names: Seq<Seq<u8>>)
    requires
        frames_wf(frames),
        frames_list(source, frames),
        lists(source, path_of(frames), names),
        names.len() > 0,
    ensures
        source.contains_key(path_of(frames.push(Frame { entries: names, next: 0 }))),
        !touched(frames, path_of(frames.push(Frame { entries: names, next: 0 }))),
{
    let frame = Frame { entries: names, next: 0 };
    let first = path_of(frames.push(frame));
    lemma_path_of_push(frames, frame);
    assert(names.contains(names[0]));
    assert(leads_to(path_of(frames), first)) by {
        assert(first.take(path_of(frames).len() as int) =~= path_of(frames));
    }
    lemma_in_hand_not_settled(frames, source, first);
}

/// The entry that comes in hand when the frames advance is in the source, and the
/// traversal had not come to it: it was not done, nor on the way to the path in
/// hand, nor below it.
pub proof fn lemma_advance_fresh(frames: Seq<Frame>, source: Tree)
    requires
        frames_wf(frames),
        frames_list(source, frames),
        advance(frames).len() > 0,
    ensures
        source.contains_key(path_of(advance(frames))),
        !touched(frames, path_of(advance(frames))),
        !leads_to(path_of(frames), path_of(advance(frames))),
    decreases frames.len(),
{
    if frames.len() == 0 {
    } else if frames.last().next + 1 < frames.last().entries.len() {
        let rest = moved(frames);
        let top = frames.len() - 1;
        let here = path_of(frames);
        let fresh = path_of(rest);
        let entries = frames[top].entries;
        let next = frames[top].next;
        assert(lists(source, here.take(top), entries));
        assert(entries.no_duplicates());
        assert(entries.contains(entries[next + 1]));
        assert(fresh =~= here.take(top).push(entries[next + 1]));
        assert(fresh[top] != here[top]);
        if leads_to(here, fresh) {
            lemma_leads_to_same_length(here, fresh);
        }
        if leads_to(fresh, here) {
            lemma_leads_to_same_length(fresh, here);
        }
        if settled(frames, fresh) {
            let (i, j) = choose|i: int, j: int| settled_by(frames, fresh, i, j);
            lemma_name_of_entry(frames, fresh, i, j, i);
            assert(frames[i].entries.no_duplicates());
            if i < top {
                assert(fresh[i] == here.take(top)[i]);
            }
        }
    } else {
        let outer = frames.drop_last();
        assert forall|i: int| 0 <= i < outer.len() implies lists(
            source,
            path_of(outer).take(i),
            (#[trigger] outer[i]).entries,
        ) by {
            assert(path_of(outer).take(i) =~= path_of(frames).take(i));
            assert(outer[i] == frames[i]);
        }
        lemma_advance_fresh(outer, source);
        let fresh = path_of(advance(frames));
        if touched(frames, fresh) || leads_to(path_of(frames), fresh) {
            lemma_leave_touches(frames, fresh);
        }
    }
}

} // verus!
