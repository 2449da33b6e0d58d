//! The copier, one step at a time.

use pgfs::copier::Copier;
use pgfs::names::{copy_name, copy_names};
use pgfs::protocol::{Action, Cause, Event, Failure, FailureKind, Operation};

fn name(text: &str) -> Vec<u8> {
    text.as_bytes().to_vec()
}

fn path(names: &[&str]) -> Vec<Vec<u8>> {
    names.iter().map(|text| name(text)).collect()
}

fn perform(operation: Operation, names: &[&str]) -> Action {
    Action::Perform { operation, path: path(names) }
}

/// A copier that has entered the root and holds the listing given.
fn at_root_with(names: &[&str]) -> (Copier, Action) {
    let mut copier = Copier::new();
    copier.step(Event::Exists(true));
    copier.step(Event::Exists(true));
    let action = copier.step(Event::Listed(path(names)));
    (copier, action)
}

#[test]
fn starts_by_probing_the_source_root() {
    let copier = Copier::new();
    assert_eq!(copier.action(), perform(Operation::ProbeSource, &[]));
    assert_eq!(copier.action().verdict(), None);
}

#[test]
fn root_is_probed_created_and_listed() {
    let mut copier = Copier::new();
    assert_eq!(copier.step(Event::Exists(true)), perform(Operation::ProbeDestination, &[]));
    assert_eq!(copier.step(Event::Exists(false)), perform(Operation::CreateDirectories, &[]));
    assert_eq!(copier.step(Event::Created(true)), perform(Operation::ListSource, &[]));
    let done = copier.step(Event::Listed(Vec::new()));
    assert_eq!(done, Action::Finish { outcome: Ok(()) });
    assert_eq!(done.verdict(), Some(true));
}

#[test]
fn existing_destination_is_not_created() {
    let mut copier = Copier::new();
    copier.step(Event::Exists(true));
    assert_eq!(copier.step(Event::Exists(true)), perform(Operation::ListSource, &[]));
}

#[test]
fn entries_are_taken_in_the_order_listed() {
    let (mut copier, first) = at_root_with(&["zeta", "alpha", "mid"]);
    assert_eq!(first, perform(Operation::ProbeDirectory, &["zeta"]));
    assert_eq!(copier.step(Event::IsDirectory(false)), perform(Operation::CopyFile, &["zeta"]));
    assert_eq!(copier.step(Event::Copied(true)), perform(Operation::ProbeDirectory, &["alpha"]));
    assert_eq!(copier.step(Event::IsDirectory(false)), perform(Operation::CopyFile, &["alpha"]));
    assert_eq!(copier.step(Event::Copied(true)), perform(Operation::ProbeDirectory, &["mid"]));
    assert_eq!(copier.step(Event::IsDirectory(false)), perform(Operation::CopyFile, &["mid"]));
    assert_eq!(copier.step(Event::Copied(true)), Action::Finish { outcome: Ok(()) });
}

#[test]
fn subdirectory_is_walked_before_its_siblings() {
    let (mut copier, _) = at_root_with(&["sub", "after"]);
    assert_eq!(copier.step(Event::IsDirectory(true)), perform(Operation::ProbeSource, &["sub"]));
    assert_eq!(copier.step(Event::Exists(true)), perform(Operation::ProbeDestination, &["sub"]));
    assert_eq!(copier.step(Event::Exists(false)), perform(Operation::CreateDirectories, &["sub"]));
    assert_eq!(copier.step(Event::Created(true)), perform(Operation::ListSource, &["sub"]));
    assert_eq!(
        copier.step(Event::Listed(path(&["inner"]))),
        perform(Operation::ProbeDirectory, &["sub", "inner"])
    );
    assert_eq!(
        copier.step(Event::IsDirectory(false)),
        perform(Operation::CopyFile, &["sub", "inner"])
    );
    assert_eq!(copier.step(Event::Copied(true)), perform(Operation::ProbeDirectory, &["after"]));
    assert_eq!(copier.step(Event::IsDirectory(false)), perform(Operation::CopyFile, &["after"]));
    assert_eq!(copier.step(Event::Copied(true)), Action::Finish { outcome: Ok(()) });
}

#[test]
fn last_entries_of_nested_directories_end_the_copy_together() {
    let (mut copier, _) = at_root_with(&["a"]);
    copier.step(Event::IsDirectory(true));
    copier.step(Event::Exists(true));
    copier.step(Event::Exists(true));
    copier.step(Event::Listed(path(&["b"])));
    copier.step(Event::IsDirectory(true));
    copier.step(Event::Exists(true));
    copier.step(Event::Exists(true));
    assert_eq!(
        copier.step(Event::Listed(path(&["c"]))),
        perform(Operation::ProbeDirectory, &["a", "b", "c"])
    );
    copier.step(Event::IsDirectory(false));
    assert_eq!(copier.step(Event::Copied(true)), Action::Finish { outcome: Ok(()) });
}

#[test]
fn empty_subdirectory_is_done_once_listed() {
    let (mut copier, _) = at_root_with(&["empty", "file"]);
    copier.step(Event::IsDirectory(true));
    copier.step(Event::Exists(true));
    copier.step(Event::Exists(true));
    assert_eq!(
        copier.step(Event::Listed(Vec::new())),
        perform(Operation::ProbeDirectory, &["file"])
    );
}

#[test]
fn event_that_is_no_answer_changes_nothing() {
    let mut copier = Copier::new();
    let asked = perform(Operation::ProbeSource, &[]);
    assert_eq!(copier.step(Event::Copied(false)), asked);
    assert_eq!(copier.step(Event::Created(false)), asked);
    assert_eq!(copier.step(Event::ListFailed), asked);
    assert_eq!(copier.step(Event::Listed(path(&["x"]))), asked);
    assert_eq!(copier.step(Event::IsDirectory(true)), asked);
    assert_eq!(copier.step(Event::Exists(true)), perform(Operation::ProbeDestination, &[]));
    let (mut copier, asked) = at_root_with(&["x"]);
    assert_eq!(copier.step(Event::Exists(true)), asked);
    assert_eq!(copier.step(Event::Copied(true)), asked);
    copier.step(Event::IsDirectory(false));
    assert_eq!(copier.step(Event::IsDirectory(true)), perform(Operation::CopyFile, &["x"]));
}

#[test]
fn failure_ends_the_copy_for_good() {
    let (mut copier, _) = at_root_with(&["a", "b"]);
    copier.step(Event::IsDirectory(false));
    let failed = Action::Finish {
        outcome: Err(Failure { cause: Cause::FileCopyFailed, path: path(&["a"]) }),
    };
    assert_eq!(copier.step(Event::Copied(false)), failed);
    assert_eq!(copier.action(), failed);
    assert_eq!(copier.step(Event::Copied(true)), failed);
    assert_eq!(copier.step(Event::Exists(true)), failed);
    assert_eq!(failed.verdict(), Some(false));
}

#[test]
fn success_ends_the_copy_for_good() {
    let (mut copier, _) = at_root_with(&[]);
    let done = Action::Finish { outcome: Ok(()) };
    assert_eq!(copier.action(), done);
    assert_eq!(copier.step(Event::Exists(false)), done);
    assert_eq!(copier.step(Event::Listed(path(&["late"]))), done);
}

#[test]
fn each_failing_answer_has_its_cause() {
    let mut copier = Copier::new();
    assert_eq!(
        copier.step(Event::Exists(false)),
        Action::Finish { outcome: Err(Failure { cause: Cause::SourceMissing, path: path(&[]) }) }
    );
    let mut copier = Copier::new();
    copier.step(Event::Exists(true));
    copier.step(Event::Exists(false));
    assert_eq!(
        copier.step(Event::Created(false)),
        Action::Finish {
            outcome: Err(Failure { cause: Cause::DestinationCreateFailed, path: path(&[]) }),
        }
    );
    let mut copier = Copier::new();
    copier.step(Event::Exists(true));
    copier.step(Event::Exists(true));
    assert_eq!(
        copier.step(Event::ListFailed),
        Action::Finish { outcome: Err(Failure { cause: Cause::SourceListFailed, path: path(&[]) }) }
    );
    let (mut copier, _) = at_root_with(&["f"]);
    copier.step(Event::IsDirectory(false));
    assert_eq!(
        copier.step(Event::Copied(false)),
        Action::Finish {
            outcome: Err(Failure { cause: Cause::FileCopyFailed, path: path(&["f"]) }),
        }
    );
}

#[test]
fn kind_tells_the_root_from_what_lies_below() {
    let kind = |cause: Cause, names: &[&str]| Failure { cause, path: path(names) }.kind();
    assert_eq!(kind(Cause::SourceMissing, &[]), FailureKind::SourceMissing);
    assert_eq!(kind(Cause::SourceMissing, &["d"]), FailureKind::NestedCopyFailed);
    assert_eq!(kind(Cause::DestinationCreateFailed, &[]), FailureKind::DestinationCreateFailed);
    assert_eq!(kind(Cause::DestinationCreateFailed, &["d"]), FailureKind::NestedCopyFailed);
    assert_eq!(kind(Cause::SourceListFailed, &[]), FailureKind::SourceListFailed);
    assert_eq!(kind(Cause::SourceListFailed, &["d", "e"]), FailureKind::NestedCopyFailed);
    assert_eq!(kind(Cause::FileCopyFailed, &["f"]), FailureKind::FileCopyFailed);
    assert_eq!(kind(Cause::FileCopyFailed, &["d", "f"]), FailureKind::NestedCopyFailed);
}

#[test]
fn names_are_bytes_and_need_not_be_text() {
    let odd: Vec<u8> = vec![0xff, 0x00, 0x2e];
    let mut copier = Copier::new();
    copier.step(Event::Exists(true));
    copier.step(Event::Exists(true));
    assert_eq!(
        copier.step(Event::Listed(vec![odd.clone()])),
        Action::Perform { operation: Operation::ProbeDirectory, path: vec![odd.clone()] }
    );
}

#[test]
fn copies_of_names_are_equal_to_the_names() {
    assert_eq!(copy_name(&name("x.txt")), name("x.txt"));
    assert_eq!(copy_name(&Vec::new()), Vec::<u8>::new());
    assert_eq!(copy_names(&path(&["a", "", "c.d"])), path(&["a", "", "c.d"]));
    assert_eq!(copy_names(&Vec::new()), Vec::<Vec<u8>>::new());
}
