//! Whole copies, driven against a small file system in memory.

use pgfs::copier::Copier;
use pgfs::protocol::{Action, Cause, Event, Failure, FailureKind, Operation};
use std::collections::BTreeMap;

type Path = Vec<Vec<u8>>;

#[derive(Clone, Debug, PartialEq, Eq)]
enum Node {
    File(Vec<u8>),
    Directory,
}

/// Two trees, by path from their roots, and the operations that are made to fail.
#[derive(Clone, Debug, PartialEq, Eq)]
struct Disk {
    source: BTreeMap<Path, Node>,
    dest: BTreeMap<Path, Node>,
    refused: Vec<(Operation, Path)>,
    asked: Vec<(Operation, Path)>,
}

fn path(names: &[&str]) -> Path {
    names.iter().map(|name| name.as_bytes().to_vec()).collect()
}

fn file(bytes: &str) -> Node {
    Node::File(bytes.as_bytes().to_vec())
}

impl Disk {
    fn new() -> Disk {
        Disk {
            source: BTreeMap::new(),
            dest: BTreeMap::new(),
            refused: Vec::new(),
            asked: Vec::new(),
        }
    }

    fn source(mut self, names: &[&str], node: Node) -> Disk {
        self.source.insert(path(names), node);
        self
    }

    fn dest(mut self, names: &[&str], node: Node) -> Disk {
        self.dest.insert(path(names), node);
        self
    }

    fn refusing(mut self, operation: Operation, names: &[&str]) -> Disk {
        self.refused.push((operation, path(names)));
        self
    }

    fn create_directories(&mut self, at: &Path) -> bool {
        for depth in 0..=at.len() {
            if let Some(Node::File(_)) = self.dest.get(&at[..depth].to_vec()) {
                return false;
            }
        }
        for depth in 0..=at.len() {
            self.dest.entry(at[..depth].to_vec()).or_insert(Node::Directory);
        }
        true
    }

    fn list(&self, at: &Path) -> Event {
        if self.source.get(at) != Some(&Node::Directory) {
            return Event::ListFailed;
        }
        let mut names = Vec::new();
        for other in self.source.keys() {
            if other.len() == at.len() + 1 && other[..at.len()] == at[..] {
                names.push(other[at.len()].clone());
            }
        }
        Event::Listed(names)
    }

    fn copy_file(&mut self, at: &Path) -> bool {
        let bytes = match self.source.get(at) {
            Some(Node::File(bytes)) => bytes.clone(),
            _ => return false,
        };
        if at.is_empty() || self.dest.get(&at[..at.len() - 1].to_vec()) != Some(&Node::Directory) {
            return false;
        }
        if self.dest.get(at) == Some(&Node::Directory) {
            return false;
        }
        self.dest.insert(at.clone(), Node::File(bytes));
        true
    }

    fn perform(&mut self, operation: Operation, at: &Path) -> Event {
        self.asked.push((operation, at.clone()));
        let refused = self.refused.contains(&(operation, at.clone()));
        match operation {
            Operation::ProbeSource => Event::Exists(!refused && self.source.contains_key(at)),
            Operation::ProbeDestination => Event::Exists(!refused && self.dest.contains_key(at)),
            Operation::CreateDirectories => Event::Created(!refused && self.create_directories(at)),
            Operation::ListSource => {
                if refused {
                    Event::ListFailed
                } else {
                    self.list(at)
                }
            }
            Operation::ProbeDirectory => {
                Event::IsDirectory(!refused && self.source.get(at) == Some(&Node::Directory))
            }
            Operation::CopyFile => Event::Copied(!refused && self.copy_file(at)),
        }
    }

    fn copy(&mut self) -> Result<(), Failure> {
        let mut copier = Copier::new();
        let mut action = copier.action();
        loop {
            match action {
                Action::Finish { outcome } => return outcome,
                Action::Perform { operation, path } => {
                    let event = self.perform(operation, &path);
                    action = copier.step(event);
                }
            }
        }
    }
}

/// A source with `x.txt` and a subdirectory `b` that holds `y.txt`.
fn small_tree() -> Disk {
    Disk::new()
        .source(&[], Node::Directory)
        .source(&["x.txt"], file("hello"))
        .source(&["b"], Node::Directory)
        .source(&["b", "y.txt"], file("world"))
}

#[test]
fn test_pgfs_copy_dir() {
    let mut disk = Disk::new().source(&[], Node::Directory).source(&["test_file"], file(""));
    assert_eq!(disk.copy(), Ok(()));
    assert_eq!(disk.dest.get(&path(&[])), Some(&Node::Directory));
    assert_eq!(disk.dest.get(&path(&["test_file"])), Some(&file("")));
}

#[test]
fn copies_files_and_subdirectories_to_a_new_destination() {
    let mut disk = small_tree();
    assert_eq!(disk.copy(), Ok(()));
    assert_eq!(disk.dest.get(&path(&["x.txt"])), Some(&file("hello")));
    assert_eq!(disk.dest.get(&path(&["b", "y.txt"])), Some(&file("world")));
    assert_eq!(disk.dest, disk.source);
}

#[test]
fn missing_source_fails_and_creates_nothing() {
    let mut disk = Disk::new();
    let outcome = disk.copy();
    assert_eq!(outcome, Err(Failure { cause: Cause::SourceMissing, path: path(&[]) }));
    assert_eq!(outcome.unwrap_err().kind(), FailureKind::SourceMissing);
    assert!(disk.dest.is_empty());
    assert_eq!(disk.asked, vec![(Operation::ProbeSource, path(&[]))]);
}

#[test]
fn empty_source_onto_empty_destination_leaves_it_empty() {
    let mut disk = Disk::new().source(&[], Node::Directory).dest(&[], Node::Directory);
    assert_eq!(disk.copy(), Ok(()));
    assert_eq!(disk.dest.len(), 1);
    assert_eq!(disk.dest.get(&path(&[])), Some(&Node::Directory));
    assert!(!disk.asked.iter().any(|(operation, _)| *operation == Operation::CreateDirectories));
}

#[test]
fn file_in_the_destination_is_overwritten() {
    let mut disk = Disk::new()
        .source(&[], Node::Directory)
        .source(&["x.txt"], file("new"))
        .dest(&[], Node::Directory)
        .dest(&["x.txt"], file("old and longer"));
    assert_eq!(disk.copy(), Ok(()));
    assert_eq!(disk.dest.get(&path(&["x.txt"])), Some(&file("new")));
    assert_eq!(disk.dest.len(), 2);
}

#[test]
fn success_mirrors_a_deep_tree() {
    let mut disk = Disk::new()
        .source(&[], Node::Directory)
        .source(&["a"], Node::Directory)
        .source(&["a", "b"], Node::Directory)
        .source(&["a", "b", "c"], Node::Directory)
        .source(&["a", "b", "c", "deep.bin"], file("\u{0}\u{1}\u{2}"))
        .source(&["a", "b", "empty"], Node::Directory)
        .source(&["a", "one"], file("1"))
        .source(&["z"], file(""));
    assert_eq!(disk.copy(), Ok(()));
    for (at, node) in disk.source.iter() {
        assert_eq!(disk.dest.get(at), Some(node));
    }
    assert_eq!(disk.dest.len(), disk.source.len());
}

#[test]
fn second_copy_succeeds_and_changes_nothing() {
    let mut disk = small_tree();
    assert_eq!(disk.copy(), Ok(()));
    let after_first = disk.dest.clone();
    assert_eq!(disk.copy(), Ok(()));
    assert_eq!(disk.dest, after_first);
}

#[test]
fn second_copy_after_a_failure_completes_the_tree() {
    let mut disk = small_tree().refusing(Operation::CopyFile, &["x.txt"]);
    assert!(disk.copy().is_err());
    disk.refused.clear();
    assert_eq!(disk.copy(), Ok(()));
    assert_eq!(disk.dest, disk.source);
}

#[test]
fn existing_destination_is_kept_with_what_it_holds() {
    let mut disk = small_tree()
        .dest(&[], Node::Directory)
        .dest(&["other.txt"], file("mine"))
        .dest(&["b"], Node::Directory)
        .dest(&["b", "stale"], file("left over"));
    assert_eq!(disk.copy(), Ok(()));
    assert_eq!(disk.dest.get(&path(&["other.txt"])), Some(&file("mine")));
    assert_eq!(disk.dest.get(&path(&["b", "stale"])), Some(&file("left over")));
    assert_eq!(disk.dest.get(&path(&["x.txt"])), Some(&file("hello")));
    assert_eq!(disk.dest.get(&path(&["b", "y.txt"])), Some(&file("world")));
    assert!(!disk.asked.iter().any(|(operation, _)| *operation == Operation::CreateDirectories));
}

#[test]
fn nested_failure_stops_the_copy_and_keeps_what_was_done() {
    // Entries come in the order a, m, z; the file that fails lies in m.
    let mut disk = Disk::new()
        .source(&[], Node::Directory)
        .source(&["a"], file("first"))
        .source(&["m"], Node::Directory)
        .source(&["m", "early"], file("kept"))
        .source(&["m", "inner"], Node::Directory)
        .source(&["m", "inner", "locked"], file("secret"))
        .source(&["m", "inner", "next"], file("skipped"))
        .source(&["m", "late"], file("skipped"))
        .source(&["z"], file("skipped"))
        .refusing(Operation::CopyFile, &["m", "inner", "locked"]);
    let outcome = disk.copy();
    assert_eq!(
        outcome,
        Err(Failure { cause: Cause::FileCopyFailed, path: path(&["m", "inner", "locked"]) })
    );
    assert_eq!(outcome.unwrap_err().kind(), FailureKind::NestedCopyFailed);
    assert_eq!(disk.dest.get(&path(&["a"])), Some(&file("first")));
    assert_eq!(disk.dest.get(&path(&["m", "early"])), Some(&file("kept")));
    assert_eq!(disk.dest.get(&path(&["m", "inner"])), Some(&Node::Directory));
    assert_eq!(disk.dest.get(&path(&["m", "inner", "locked"])), None);
    assert_eq!(disk.dest.get(&path(&["m", "inner", "next"])), None);
    assert_eq!(disk.dest.get(&path(&["m", "late"])), None);
    assert_eq!(disk.dest.get(&path(&["z"])), None);
    assert_eq!(disk.asked.last(), Some(&(Operation::CopyFile, path(&["m", "inner", "locked"]))));
}

#[test]
fn file_copy_failure_at_the_top() {
    let mut disk = small_tree().refusing(Operation::CopyFile, &["x.txt"]);
    let outcome = disk.copy();
    assert_eq!(outcome, Err(Failure { cause: Cause::FileCopyFailed, path: path(&["x.txt"]) }));
    assert_eq!(outcome.unwrap_err().kind(), FailureKind::FileCopyFailed);
    // `b` came first and is complete; nothing came after `x.txt`.
    assert_eq!(disk.dest.get(&path(&["b", "y.txt"])), Some(&file("world")));
    assert_eq!(disk.dest.get(&path(&["x.txt"])), None);
}

#[test]
fn destination_that_cannot_be_created() {
    let mut disk = small_tree().refusing(Operation::CreateDirectories, &[]);
    let outcome = disk.copy();
    assert_eq!(outcome, Err(Failure { cause: Cause::DestinationCreateFailed, path: path(&[]) }));
    assert_eq!(outcome.unwrap_err().kind(), FailureKind::DestinationCreateFailed);
    assert!(disk.dest.is_empty());
    assert_eq!(
        disk.asked,
        vec![
            (Operation::ProbeSource, path(&[])),
            (Operation::ProbeDestination, path(&[])),
            (Operation::CreateDirectories, path(&[])),
        ]
    );
}

#[test]
fn nested_destination_that_cannot_be_created() {
    let mut disk = small_tree().refusing(Operation::CreateDirectories, &["b"]);
    let outcome = disk.copy();
    assert_eq!(outcome, Err(Failure { cause: Cause::DestinationCreateFailed, path: path(&["b"]) }));
    assert_eq!(outcome.unwrap_err().kind(), FailureKind::NestedCopyFailed);
    assert_eq!(disk.dest.get(&path(&[])), Some(&Node::Directory));
    assert_eq!(disk.dest.len(), 1);
}

#[test]
fn source_that_is_a_file_fails_at_the_listing() {
    let mut disk = Disk::new().source(&[], file("not a directory"));
    let outcome = disk.copy();
    assert_eq!(outcome, Err(Failure { cause: Cause::SourceListFailed, path: path(&[]) }));
    assert_eq!(outcome.unwrap_err().kind(), FailureKind::SourceListFailed);
    // The destination was made before the listing was tried, and stays.
    assert_eq!(disk.dest.get(&path(&[])), Some(&Node::Directory));
    assert_eq!(
        disk.asked,
        vec![
            (Operation::ProbeSource, path(&[])),
            (Operation::ProbeDestination, path(&[])),
            (Operation::CreateDirectories, path(&[])),
            (Operation::ListSource, path(&[])),
        ]
    );
}

#[test]
fn subdirectory_that_cannot_be_listed() {
    let mut disk = small_tree().refusing(Operation::ListSource, &["b"]);
    let outcome = disk.copy();
    assert_eq!(outcome, Err(Failure { cause: Cause::SourceListFailed, path: path(&["b"]) }));
    assert_eq!(outcome.unwrap_err().kind(), FailureKind::NestedCopyFailed);
    assert_eq!(disk.dest.get(&path(&["b"])), Some(&Node::Directory));
    assert_eq!(disk.dest.get(&path(&["x.txt"])), None);
}

#[test]
fn subdirectory_that_vanished_is_a_missing_source() {
    let mut disk = small_tree().refusing(Operation::ProbeSource, &["b"]);
    let outcome = disk.copy();
    assert_eq!(outcome, Err(Failure { cause: Cause::SourceMissing, path: path(&["b"]) }));
    assert_eq!(outcome.unwrap_err().kind(), FailureKind::NestedCopyFailed);
    assert_eq!(disk.dest.get(&path(&["b"])), None);
}

#[test]
fn file_in_the_way_of_a_directory_fails_the_copy() {
    let mut disk = small_tree().dest(&[], Node::Directory).dest(&["b"], file("in the way"));
    let outcome = disk.copy();
    assert_eq!(outcome, Err(Failure { cause: Cause::FileCopyFailed, path: path(&["b", "y.txt"]) }));
    assert_eq!(disk.dest.get(&path(&["b"])), Some(&file("in the way")));
}

#[test]
fn file_in_the_place_of_an_empty_directory_stays() {
    let mut disk = Disk::new()
        .source(&[], Node::Directory)
        .source(&["b"], Node::Directory)
        .dest(&[], Node::Directory)
        .dest(&["b"], file("in the way"));
    assert_eq!(disk.copy(), Ok(()));
    assert_eq!(disk.dest.get(&path(&["b"])), Some(&file("in the way")));
}

#[test]
fn copy_ends_within_six_answers_for_every_path() {
    let mut disk = small_tree();
    assert_eq!(disk.copy(), Ok(()));
    assert!(disk.asked.len() <= 6 * disk.source.len() + 4);
    let mut disk = small_tree().dest(&[], Node::Directory).dest(&["b"], Node::Directory);
    assert_eq!(disk.copy(), Ok(()));
    assert_eq!(disk.asked.len(), 11);
}

#[test]
fn walk_is_depth_first_in_listing_order() {
    let mut disk = small_tree();
    assert_eq!(disk.copy(), Ok(()));
    assert_eq!(
        disk.asked,
        vec![
            (Operation::ProbeSource, path(&[])),
            (Operation::ProbeDestination, path(&[])),
            (Operation::CreateDirectories, path(&[])),
            (Operation::ListSource, path(&[])),
            (Operation::ProbeDirectory, path(&["b"])),
            (Operation::ProbeSource, path(&["b"])),
            (Operation::ProbeDestination, path(&["b"])),
            (Operation::CreateDirectories, path(&["b"])),
            (Operation::ListSource, path(&["b"])),
            (Operation::ProbeDirectory, path(&["b", "y.txt"])),
            (Operation::CopyFile, path(&["b", "y.txt"])),
            (Operation::ProbeDirectory, path(&["x.txt"])),
            (Operation::CopyFile, path(&["x.txt"])),
        ]
    );
}
