//! A model of the two directory trees, and of what a file system may answer.
//!
//! A tree maps each path at which something exists to what is there. The source
//! tree and the destination tree are kept apart: the model is of a copy between two
//! places that do not overlap and that nothing else writes to meanwhile.
//!
//! `responds` says which events a file system may give for an action, and what the
//! trees hold afterwards. It allows for failure at any time: a probe may miss what
//! exists, and creating, listing and copying may fail for reasons that the trees do
//! not show. What it rules out is success that the trees cannot bear, such as
//! listing a file or writing below one.

use vstd::prelude::*;
use crate::names::leads_to;
use crate::protocol::{ActionView, EventView, Operation};

verus! {

/// What exists at a path.
pub enum Node {
    File(Seq<u8>),
    Directory,
}

/// A directory tree: what exists, by path from the root.
pub type Tree = Map<Seq<Seq<u8>>, Node>;

/// The source tree and the destination tree.
pub struct World {
    pub source: Tree,
    pub dest: Tree,
}

pub open spec fn is_dir(tree: Tree, path: Seq<Seq<u8>>) -> bool {
    tree.contains_key(path) && tree[path] is Directory
}

pub open spec fn is_file(tree: Tree, path: Seq<Seq<u8>>) -> bool {
    tree.contains_key(path) && tree[path] is File
}

/// Whatever exists below the root lies in a directory.
pub open spec fn tree_wf(tree: Tree) -> bool {
    forall|path: Seq<Seq<u8>>| #[trigger]
        tree.contains_key(path) && path.len() > 0 ==> is_dir(tree, path.drop_last())
}

/// The tree holds nothing inside the directory at `path`.
pub open spec fn childless(tree: Tree, path: Seq<Seq<u8>>) -> bool {
    forall|name: Seq<u8>| !tree.contains_key(#[trigger] path.push(name))
}

/// `names` is a full listing of the directory at `path`: every entry once.
pub open spec fn lists(tree: Tree, path: Seq<Seq<u8>>, names: Seq<Seq<u8>>) -> bool {
    &&& is_dir(tree, path)
    &&& names.no_duplicates()
    &&& forall|name: Seq<u8>|
        names.contains(name) <==> tree.contains_key(#[trigger] path.push(name))
}

/// No file stands where `path` or one of its ancestors would have to be a directory.
pub open spec fn creatable(tree: Tree, path: Seq<Seq<u8>>) -> bool {
    forall|prefix: Seq<Seq<u8>>| #[trigger]
        leads_to(prefix, path) && tree.contains_key(prefix) ==> tree[prefix] is Directory
}

/// The tree with a directory at `path` and at each of its ancestors where nothing
/// was; what was there stays.
pub open spec fn with_directories(tree: Tree, path: Seq<Seq<u8>>) -> Tree {
    Map::new(
        |other: Seq<Seq<u8>>| tree.contains_key(other) || leads_to(other, path),
        |other: Seq<Seq<u8>>| if tree.contains_key(other) { tree[other] } else { Node::Directory },
    )
}

/// The file at `path` in the source can be written to `path` in the destination: it
/// is a file, its place lies in a directory, and no directory is in its place.
pub open spec fn can_copy(world: World, path: Seq<Seq<u8>>) -> bool {
    &&& path.len() > 0
    &&& is_file(world.source, path)
    &&& is_dir(world.dest, path.drop_last())
    &&& !is_dir(world.dest, path)
}

/// What the destination may hold after `CreateDirectories` at `path`.
pub open spec fn created(dest: Tree, path: Seq<Seq<u8>>, done: bool, after: Tree) -> bool {
    if done {
        creatable(dest, path) && after == with_directories(dest, path)
    } else {
        // Some of the ancestors may have been made before it failed.
        ||| after == dest
        ||| exists|made: int|
            0 <= made < path.len() && creatable(dest, path.take(made)) && after
                == #[trigger] with_directories(dest, path.take(made))
    }
}

/// What the destination may hold after `CopyFile` at `path`.
pub open spec fn copied(world: World, path: Seq<Seq<u8>>, done: bool, after: Tree) -> bool {
    if done {
        can_copy(world, path) && after == world.dest.insert(path, world.source[path])
    } else {
        // The file may have been made, and written in part, before it failed.
        ||| after == world.dest
        ||| can_copy(world, path) && exists|bytes: Seq<u8>|
            after == #[trigger] world.dest.insert(path, Node::File(bytes))
    }
}

/// The file system may answer `action` with `event`, and then holds `after`.
///
/// The source is never written. Nothing answers `Finish`.
pub open spec fn responds(
    world: World,
    action: ActionView,
    event: EventView,
    after: World,
) -> bool {
    match action {
        ActionView::Finish { .. } => false,
        ActionView::Perform { operation, path } => after.source == world.source && match operation {
            Operation::ProbeSource => {
                &&& after.dest == world.dest
                &&& event matches EventView::Exists(found)
                &&& found ==> world.source.contains_key(path)
            },
            Operation::ProbeDestination => {
                &&& after.dest == world.dest
                &&& event matches EventView::Exists(found)
                &&& found ==> world.dest.contains_key(path)
            },
            Operation::CreateDirectories => {
                &&& event matches EventView::Created(done)
                &&& created(world.dest, path, done, after.dest)
            },
            Operation::ListSource => {
                &&& after.dest == world.dest
                &&& match event {
                    EventView::Listed(names) => lists(world.source, path, names),
                    EventView::ListFailed => true,
                    _ => false,
                }
            },
            Operation::ProbeDirectory => {
                &&& after.dest == world.dest
                &&& event matches EventView::IsDirectory(yes)
                &&& yes ==> is_dir(world.source, path)
            },
            Operation::CopyFile => {
                &&& event matches EventView::Copied(done)
                &&& copied(world, path, done, after.dest)
            },
        },
    }
}

/// The event is the one that a file system without faults gives: a probe tells what
/// is there, and nothing fails that the trees allow.
pub open spec fn faultless(world: World, action: ActionView, event: EventView) -> bool {
    match action {
        ActionView::Finish { .. } => true,
        ActionView::Perform { operation, path } => match operation {
            Operation::ProbeSource => event == EventView::Exists(
                world.source.contains_key(path),
            ),
            Operation::ProbeDestination => event == EventView::Exists(
                world.dest.contains_key(path),
            ),
            Operation::CreateDirectories => event == EventView::Created(false) ==> !creatable(
                world.dest,
                path,
            ),
            Operation::ListSource => event is ListFailed ==> !is_dir(world.source, path),
            Operation::ProbeDirectory => event == EventView::IsDirectory(
                is_dir(world.source, path),
            ),
            Operation::CopyFile => event == EventView::Copied(false) ==> !can_copy(world, path),
        },
    }
}

/// What the source holds at `path` is there in the destination: a file with the
/// same bytes, or, for a directory, something.
pub open spec fn present(source: Tree, dest: Tree, path: Seq<Seq<u8>>) -> bool {
    dest.contains_key(path) && (source[path] is File ==> dest[path] == source[path])
}

/// What the source holds at `path` is there in the destination, in kind and in
/// bytes.
pub open spec fn agrees(source: Tree, dest: Tree, path: Seq<Seq<u8>>) -> bool {
    dest.contains_key(path) && match source[path] {
        Node::File(bytes) => dest[path] == Node::File(bytes),
        Node::Directory => dest[path] is Directory,
    }
}

/// Every file of the source is in the destination with the same bytes, and every
/// directory of the source is a directory there.
pub open spec fn mirrors(source: Tree, dest: Tree) -> bool {
    forall|path: Seq<Seq<u8>>| #[trigger]
        source.contains_key(path) ==> agrees(source, dest, path)
}

/// The two trees hold the same at `path`: nothing, or the same thing.
pub open spec fn same_at(one: Tree, other: Tree, path: Seq<Seq<u8>>) -> bool {
    one.contains_key(path) == other.contains_key(path) && (one.contains_key(path) ==> one[path]
        == other[path])
}

/// Everything on the way to something that exists is a directory.
pub proof fn lemma_ancestors_are_directories(tree: Tree, path: Seq<Seq<u8>>, prefix: Seq<Seq<u8>>)
    requires
        tree_wf(tree),
        tree.contains_key(path),
        leads_to(prefix, path),
        prefix != path,
    ensures
        is_dir(tree, prefix),
    decreases path.len(),
{
    assert(path.len() > prefix.len()) by {
        if path.len() == prefix.len() {
            assert(path.take(prefix.len() as int) == path);
        }
    }
    let parent = path.drop_last();
    assert(is_dir(tree, parent));
    assert(parent.take(prefix.len() as int) == path.take(prefix.len() as int));
    if parent != prefix {
        lemma_ancestors_are_directories(tree, parent, prefix);
    }
}

} // verus!
