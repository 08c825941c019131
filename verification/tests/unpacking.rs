use libnar::de::{Archive, Entry, EntryKind};
use libnar::error::{Error, IoErrorKind};
use libnar::unpack::PathComponent::{CurDir, Normal, ParentDir, Prefix, RootDir};
use libnar::node::{DirEntry, Node};
use libnar::unpack::{has_escape, DirTimes, Event, Op, Step, Timestamp, Unpack};

const EPOCH: Timestamp = Timestamp { seconds: 0, nanos: 0 };

fn entry(name: &str, kind: EntryKind, canonicalize_mtime: bool, remove_xattrs: bool) -> Entry {
    let mut archive = Archive::new(Vec::new());
    archive.set_canonicalize_mtime(canonicalize_mtime);
    archive.set_remove_xattrs(remove_xattrs);
    Entry::new(name.to_string(), kind, &archive)
}

fn file(executable: bool) -> EntryKind {
    EntryKind::Regular { executable, data: b"data".to_vec() }
}

fn op(step: Step) -> Op {
    match step {
        Step::Do(op) => op,
        Step::Finished(r) => panic!("finished early: {:?}", r),
    }
}

#[test]
fn root_directory_with_every_setting() {
    let mut unpack = entry("", EntryKind::Directory, true, true).unpack_in("out").unwrap();
    assert!(matches!(op(unpack.step(Event::Start)), Op::CreateDir { path } if path == "out"));
    assert!(matches!(op(unpack.step(Event::Done)), Op::RemoveXattrs { path } if path == "out"));
    assert!(matches!(op(unpack.step(Event::Done)), Op::AccessTime { path } if path == "out"));
    let atime = Timestamp { seconds: 77, nanos: 5 };
    match op(unpack.step(Event::Time(atime))) {
        Op::SetTimes { path, atime: a, mtime } => {
            assert_eq!(path, "out");
            assert_eq!(a, atime);
            assert_eq!(mtime, EPOCH);
        }
        other => panic!("unexpected: {:?}", other),
    }
    assert!(matches!(unpack.step(Event::Done), Step::Finished(Ok(()))));
    assert!(matches!(unpack.step(Event::Done), Step::Finished(Err(Error::Io(IoErrorKind::Other)))));
}

#[test]
fn existing_directory_is_accepted() {
    let mut unpack = entry("", EntryKind::Directory, false, false).unpack_in("out").unwrap();
    op(unpack.step(Event::Start));
    assert!(matches!(op(unpack.step(Event::Failed(IoErrorKind::AlreadyExists))), Op::IsDir { path } if path == "out"));
    assert!(matches!(unpack.step(Event::Flag(true)), Step::Finished(Ok(()))));
}

#[test]
fn existing_file_in_place_of_a_directory_is_an_error() {
    let mut unpack = entry("", EntryKind::Directory, false, false).unpack_in("out").unwrap();
    op(unpack.step(Event::Start));
    op(unpack.step(Event::Failed(IoErrorKind::AlreadyExists)));
    match unpack.step(Event::Flag(false)) {
        Step::Finished(Err(Error::IoAt { inner, path })) => {
            assert_eq!(inner, IoErrorKind::AlreadyExists);
            assert_eq!(path, "out");
        }
        other => panic!("unexpected: {:?}", other),
    }
}

#[test]
fn failure_to_create_is_reported_with_the_path() {
    let mut unpack = entry("", EntryKind::Directory, true, true).unpack_in("out").unwrap();
    op(unpack.step(Event::Start));
    match unpack.step(Event::Failed(IoErrorKind::NotFound)) {
        Step::Finished(Err(Error::IoAt { inner, path })) => {
            assert_eq!(inner, IoErrorKind::NotFound);
            assert_eq!(path, "out");
        }
        other => panic!("unexpected: {:?}", other),
    }
}

#[test]
fn file_replaces_what_is_there() {
    let mut unpack = entry("bin/tool", file(true), false, false).unpack_in("out").unwrap();
    assert!(matches!(op(unpack.step(Event::Start)), Op::DirTimes { path } if path == "out/bin"));
    assert!(matches!(op(unpack.step(Event::Times(None))), Op::Exists { path } if path == "out/bin/tool"));
    assert!(matches!(op(unpack.step(Event::Flag(true))), Op::RemoveFile { path } if path == "out/bin/tool"));
    match op(unpack.step(Event::Done)) {
        Op::WriteFile { path, mode, data } => {
            assert_eq!(path, "out/bin/tool");
            assert_eq!(mode, 0o555);
            assert_eq!(data, b"data");
        }
        other => panic!("unexpected: {:?}", other),
    }
    assert!(matches!(unpack.step(Event::Done), Step::Finished(Ok(()))));
}

#[test]
fn plain_file_is_read_only() {
    let mut unpack = entry("a", file(false), false, false).unpack_in("out").unwrap();
    op(unpack.step(Event::Start));
    op(unpack.step(Event::Times(None)));
    assert!(matches!(op(unpack.step(Event::Flag(false))), Op::WriteFile { mode: 0o444, .. }));
    match unpack.step(Event::Failed(IoErrorKind::Other)) {
        Step::Finished(Err(Error::IoAt { inner: IoErrorKind::Other, path })) => assert_eq!(path, "out/a"),
        other => panic!("unexpected: {:?}", other),
    }
}

#[test]
fn symlink_replaces_even_a_dangling_link() {
    let kind = EntryKind::Symlink { target: "../elsewhere".to_string() };
    let mut unpack = entry("l", kind, false, false).unpack_in("out").unwrap();
    op(unpack.step(Event::Start));
    assert!(matches!(op(unpack.step(Event::Times(None))), Op::SymlinkExists { path } if path == "out/l"));
    assert!(matches!(op(unpack.step(Event::Flag(true))), Op::RemoveFile { path } if path == "out/l"));
    match op(unpack.step(Event::Done)) {
        Op::Symlink { target, path } => {
            assert_eq!(target, "../elsewhere");
            assert_eq!(path, "out/l");
        }
        other => panic!("unexpected: {:?}", other),
    }
    assert!(matches!(unpack.step(Event::Done), Step::Finished(Ok(()))));
}

#[test]
fn canonical_parent_gets_its_times_back() {
    let times = DirTimes { created: Some(EPOCH), accessed: Timestamp { seconds: 9, nanos: 1 } };
    let mut unpack = entry("a", file(false), false, false).unpack_in("out").unwrap();
    op(unpack.step(Event::Start));
    op(unpack.step(Event::Times(Some(times))));
    op(unpack.step(Event::Flag(false)));
    match op(unpack.step(Event::Done)) {
        Op::SetTimes { path, atime, mtime } => {
            assert_eq!(path, "out");
            assert_eq!(atime, times.accessed);
            assert_eq!(mtime, EPOCH);
        }
        other => panic!("unexpected: {:?}", other),
    }
    assert!(matches!(unpack.step(Event::Done), Step::Finished(Ok(()))));
}

#[test]
fn other_parents_are_left_alone() {
    for created in [None, Some(Timestamp { seconds: 0, nanos: 1 }), Some(Timestamp { seconds: 1, nanos: 0 })] {
        let times = DirTimes { created, accessed: EPOCH };
        let mut unpack = entry("a", file(false), false, false).unpack_in("out").unwrap();
        op(unpack.step(Event::Start));
        op(unpack.step(Event::Times(Some(times))));
        op(unpack.step(Event::Flag(false)));
        assert!(matches!(unpack.step(Event::Done), Step::Finished(Ok(()))));
    }
}

#[test]
fn failures_after_writing_are_plain_io_errors() {
    let mut unpack = entry("a", file(false), true, true).unpack_in("out").unwrap();
    op(unpack.step(Event::Start));
    op(unpack.step(Event::Times(None)));
    op(unpack.step(Event::Flag(false)));
    assert!(matches!(op(unpack.step(Event::Done)), Op::RemoveXattrs { .. }));
    assert!(matches!(unpack.step(Event::Failed(IoErrorKind::Other)), Step::Finished(Err(Error::Io(IoErrorKind::Other)))));

    let mut unpack = entry("a", file(false), true, false).unpack_in("out").unwrap();
    op(unpack.step(Event::Start));
    op(unpack.step(Event::Times(None)));
    op(unpack.step(Event::Flag(false)));
    assert!(matches!(op(unpack.step(Event::Done)), Op::AccessTime { .. }));
    assert!(matches!(
        unpack.step(Event::Failed(IoErrorKind::NotFound)),
        Step::Finished(Err(Error::Io(IoErrorKind::NotFound)))
    ));
}

#[test]
fn answer_that_was_not_asked_for_ends_unpacking() {
    let mut unpack = entry("", EntryKind::Directory, true, true).unpack_in("out").unwrap();
    assert!(matches!(unpack.step(Event::Done), Step::Finished(Err(Error::Io(IoErrorKind::Other)))));
    let mut unpack = entry("", EntryKind::Directory, true, true).unpack_in("out").unwrap();
    op(unpack.step(Event::Start));
    assert!(matches!(unpack.step(Event::Flag(true)), Step::Finished(Err(Error::Io(IoErrorKind::Other)))));
}

#[test]
fn escaping_destinations_are_refused() {
    for (name, dst) in [("", "/abs"), ("a", "/abs"), ("a", "../up"), ("", ".."), ("a", "x/../y")] {
        match entry(name, EntryKind::Directory, true, true).unpack_in(dst) {
            Err(Error::InvalidPathComponent { path }) => assert!(path.starts_with(dst)),
            other => panic!("unexpected: {:?}", other),
        }
    }
    for (name, dst) in [("../a", "out"), ("/etc/passwd", "out"), ("a/../../b", "out")] {
        assert!(matches!(
            entry(name, file(false), true, true).unpack_in(dst),
            Err(Error::InvalidPathComponent { .. })
        ));
    }
    for (name, dst) in [("", "out"), ("a/b", "out/deep"), ("a", "."), ("a", "./out")] {
        assert!(entry(name, file(false), true, true).unpack_in(dst).is_ok());
    }
}

#[test]
fn components_that_escape() {
    assert!(!has_escape(&vec![]));
    assert!(!has_escape(&vec![Normal, CurDir, Normal]));
    assert!(has_escape(&vec![RootDir, Normal]));
    assert!(has_escape(&vec![Normal, ParentDir]));
    assert!(has_escape(&vec![Prefix]));
    let e = entry("a", file(false), true, true);
    assert!(matches!(
        Unpack::new(&e, "p".to_string(), None, &vec![Normal, ParentDir]),
        Err(Error::InvalidPathComponent { path }) if path == "p"
    ));
    let mut unpack = Unpack::new(&e, "p/a".to_string(), Some("p".to_string()), &vec![Normal, Normal]).unwrap();
    assert!(matches!(op(unpack.step(Event::Start)), Op::DirTimes { path } if path == "p"));
    let root = entry("", file(false), true, true);
    let mut unpack = Unpack::new(&root, "p".to_string(), Some("".to_string()), &vec![Normal]).unwrap();
    assert!(matches!(op(unpack.step(Event::Start)), Op::Exists { path } if path == "p"));
}

fn small_tree() -> Vec<u8> {
    libnar::to_vec(&Node::Directory {
        entries: vec![
            DirEntry { name: "b".to_string(), node: Node::Symlink { target: "a".to_string() } },
            DirEntry { name: "a".to_string(), node: Node::Regular { executable: false, data: b"x".to_vec() } },
        ],
    })
    .unwrap()
}

#[test]
fn whole_archive_is_unpacked_entry_by_entry() {
    let mut archive = Archive::new(small_tree());
    archive.set_canonicalize_mtime(false);
    archive.set_remove_xattrs(false);
    let mut unpacker = archive.unpack("out").unwrap();
    assert!(matches!(op(unpacker.step(Event::Start)), Op::CreateDir { path } if path == "out"));
    assert!(matches!(op(unpacker.step(Event::Done)), Op::DirTimes { path } if path == "out"));
    assert!(matches!(op(unpacker.step(Event::Times(None))), Op::Exists { path } if path == "out/a"));
    assert!(matches!(op(unpacker.step(Event::Flag(false))), Op::WriteFile { path, .. } if path == "out/a"));
    assert!(matches!(op(unpacker.step(Event::Done)), Op::DirTimes { path } if path == "out"));
    assert!(matches!(op(unpacker.step(Event::Times(None))), Op::SymlinkExists { path } if path == "out/b"));
    assert!(matches!(op(unpacker.step(Event::Flag(false))), Op::Symlink { path, .. } if path == "out/b"));
    assert!(matches!(unpacker.step(Event::Done), Step::Finished(Ok(()))));
    assert!(matches!(unpacker.step(Event::Start), Step::Finished(Err(Error::Io(IoErrorKind::Other)))));
}

#[test]
fn whole_archive_stops_at_the_first_failure() {
    let mut archive = Archive::new(small_tree());
    let mut unpacker = archive.unpack("out").unwrap();
    op(unpacker.step(Event::Start));
    assert!(matches!(
        unpacker.step(Event::Failed(IoErrorKind::NotFound)),
        Step::Finished(Err(Error::IoAt { inner: IoErrorKind::NotFound, .. }))
    ));
    assert!(matches!(unpacker.step(Event::Start), Step::Finished(Err(Error::Io(IoErrorKind::Other)))));

    let mut bytes = small_tree();
    bytes.truncate(bytes.len() - 8);
    let mut archive = Archive::new(bytes);
    archive.set_canonicalize_mtime(false);
    archive.set_remove_xattrs(false);
    let mut unpacker = archive.unpack("out").unwrap();
    op(unpacker.step(Event::Start));
    op(unpacker.step(Event::Done));
    op(unpacker.step(Event::Times(None)));
    op(unpacker.step(Event::Flag(false)));
    op(unpacker.step(Event::Done));
    op(unpacker.step(Event::Times(None)));
    op(unpacker.step(Event::Flag(false)));
    assert!(matches!(unpacker.step(Event::Done), Step::Finished(Err(Error::Io(IoErrorKind::UnexpectedEof)))));
}

#[test]
fn whole_archive_refuses_what_entries_refuses() {
    let mut archive = Archive::new(vec![0u8; 16]);
    assert!(matches!(archive.unpack("out"), Err(Error::InvalidMagic)));
    assert!(matches!(archive.unpack("out"), Err(Error::GetEntriesAfterRead)));
    let mut archive = Archive::new(small_tree());
    let mut unpacker = archive.unpack("/abs").unwrap();
    assert!(matches!(unpacker.step(Event::Start), Step::Finished(Err(Error::InvalidPathComponent { .. }))));
    let mut archive = Archive::new(small_tree());
    let mut unpacker = archive.unpack("out").unwrap();
    assert!(matches!(unpacker.step(Event::Done), Step::Finished(Err(Error::Io(IoErrorKind::Other)))));
}
