use libnar::de::{Archive, Entry, EntryKind};
use libnar::error::{Error, IoErrorKind};
use libnar::frame::write_padded;
use libnar::node::Node;
use libnar::tag::Tag;
use libnar::to_vec;

fn stream(parts: &[&[u8]]) -> Vec<u8> {
    let mut bytes = Vec::new();
    for part in parts {
        write_padded(&mut bytes, part).unwrap();
    }
    bytes
}

fn drain(bytes: Vec<u8>) -> (Vec<Entry>, Option<Error>) {
    let mut archive = Archive::new(bytes);
    let mut entries = match archive.entries() {
        Ok(entries) => entries,
        Err(e) => return (Vec::new(), Some(e)),
    };
    let mut seen = Vec::new();
    while let Some(item) = entries.next() {
        match item {
            Ok(entry) => seen.push(entry),
            Err(e) => {
                assert!(entries.next().is_none());
                return (seen, Some(e));
            }
        }
    }
    assert!(entries.next().is_none());
    (seen, None)
}

fn regular_sample() -> Vec<u8> {
    to_vec(&Node::Regular { executable: false, data: b"lorem ipsum dolor sic amet\n".to_vec() }).unwrap()
}

fn dir_with_child_named(name: &[u8]) -> Vec<u8> {
    stream(&[
        b"nix-archive-1", b"(", b"type", b"directory", b"entry", b"(", b"name", name, b"node", b"(", b"type",
        b"symlink", b"target", b"x", b")", b")", b")",
    ])
}

#[test]
fn reads_regular_file() {
    let (seen, err) = drain(regular_sample());
    assert!(err.is_none());
    assert_eq!(seen.len(), 1);
    assert_eq!(seen[0].name(), "");
    assert!(seen[0].is_file());
    assert!(!seen[0].is_executable());
    assert!(!seen[0].is_dir());
    assert!(!seen[0].is_symlink());
    match seen[0].kind() {
        EntryKind::Regular { executable, data } => {
            assert!(!*executable);
            assert_eq!(data.as_slice(), b"lorem ipsum dolor sic amet\n");
        }
        _ => panic!("not a regular file"),
    }
}

#[test]
fn reads_executable_file() {
    let bytes = stream(&[b"nix-archive-1", b"(", b"type", b"regular", b"executable", b"", b"contents", b"#!", b")"]);
    let (seen, err) = drain(bytes);
    assert!(err.is_none());
    assert_eq!(seen.len(), 1);
    assert!(seen[0].is_executable());
    assert!(!seen[0].is_file());
}

#[test]
fn reads_symlink_target() {
    let bytes = to_vec(&Node::Symlink { target: "./foo".to_string() }).unwrap();
    let (seen, err) = drain(bytes);
    assert!(err.is_none());
    assert_eq!(seen.len(), 1);
    assert!(seen[0].is_symlink());
    match seen[0].kind() {
        EntryKind::Symlink { target } => assert_eq!(target, "./foo"),
        _ => panic!("not a symbolic link"),
    }
}

#[test]
fn padding_tamper_is_refused() {
    let sample = regular_sample();
    assert_eq!(sample.len(), 144);
    let padding: Vec<usize> = (21..24).chain(33..40).chain(52..56).chain(71..72).chain(123..128).chain(137..144).collect();
    for at in padding {
        let mut bytes = sample.clone();
        assert_eq!(bytes[at], 0);
        bytes[at] = 0x01;
        let (seen, err) = drain(bytes);
        assert!(seen.is_empty());
        assert!(matches!(err, Some(Error::BadPadding)), "padding byte {}", at);
    }
}

#[test]
fn wrong_magic_is_refused() {
    let bytes = stream(&[b"nix-archive-2", b"(", b"type", b"symlink", b"target", b"x", b")"]);
    let mut archive = Archive::new(bytes);
    assert!(matches!(archive.entries(), Err(Error::InvalidMagic)));
}

#[test]
fn short_input_is_an_io_error() {
    let sample = regular_sample();
    for len in [0usize, 5, 8, 20, 24, 30, 100, 143] {
        let (seen, err) = drain(sample[..len].to_vec());
        assert!(seen.is_empty());
        assert!(matches!(err, Some(Error::Io(IoErrorKind::UnexpectedEof))), "length {}", len);
    }
}

#[test]
fn short_read_counts_as_read() {
    let mut archive = Archive::new(vec![1, 2, 3, 4, 5]);
    assert!(matches!(archive.entries(), Err(Error::Io(IoErrorKind::UnexpectedEof))));
    assert!(matches!(archive.entries(), Err(Error::GetEntriesAfterRead)));
    assert_eq!(archive.into_inner(), vec![1, 2, 3, 4, 5]);
}

#[test]
fn huge_length_is_an_io_error() {
    let mut bytes = stream(&[b"nix-archive-1"]);
    bytes.extend_from_slice(&u64::MAX.to_le_bytes());
    bytes.extend_from_slice(&[0u8; 64]);
    let (seen, err) = drain(bytes);
    assert!(seen.is_empty());
    assert!(matches!(err, Some(Error::Io(IoErrorKind::UnexpectedEof))));
}

#[test]
fn empty_name_is_refused() {
    let (seen, err) = drain(dir_with_child_named(b""));
    assert_eq!(seen.len(), 1);
    assert!(seen[0].is_dir());
    assert!(matches!(err, Some(Error::InvalidDirEntryName(""))));
}

#[test]
fn dot_names_are_refused() {
    let (_, err) = drain(dir_with_child_named(b"."));
    assert!(matches!(err, Some(Error::InvalidDirEntryName("."))));
    let (_, err) = drain(dir_with_child_named(b".."));
    assert!(matches!(err, Some(Error::InvalidDirEntryName(".."))));
    let (_, err) = drain(dir_with_child_named(b"~"));
    assert!(matches!(err, Some(Error::InvalidDirEntryName("~"))));
}

#[test]
fn slash_in_name_is_refused() {
    for name in [&b"a/b"[..], b"/", b"/etc", b"x/"] {
        let (seen, err) = drain(dir_with_child_named(name));
        assert_eq!(seen.len(), 1);
        assert!(matches!(err, Some(Error::InvalidDirEntryChar('/'))));
    }
}

#[test]
fn other_names_are_accepted() {
    for name in [&b"..."[..], b"~a", b".hidden", b"a b", "\u{e9}t\u{e9}".as_bytes()] {
        let (seen, err) = drain(dir_with_child_named(name));
        assert!(err.is_none());
        assert_eq!(seen.len(), 2);
        assert_eq!(seen[1].name().as_bytes(), name);
    }
}

#[test]
fn missing_tags_are_reported() {
    let (_, err) = drain(stream(&[b"nix-archive-1", b"[", b"type", b"symlink", b"target", b"x", b")"]));
    assert!(matches!(err, Some(Error::MissingTag(Tag::Open))));
    let (_, err) = drain(stream(&[b"nix-archive-1", b"(", b"kind", b"symlink", b"target", b"x", b")"]));
    assert!(matches!(err, Some(Error::MissingTag(Tag::Type))));
    let (_, err) = drain(stream(&[b"nix-archive-1", b"(", b"type", b"symlink", b"goal", b"x", b")"]));
    assert!(matches!(err, Some(Error::MissingTag(Tag::Target))));
    let (_, err) = drain(stream(&[b"nix-archive-1", b"(", b"type", b"symlink", b"target", b"x", b"("]));
    assert!(matches!(err, Some(Error::MissingTag(Tag::Close))));
    let (_, err) = drain(stream(&[b"nix-archive-1", b"(", b"type", b"regular", b"content", b"x", b")"]));
    assert!(matches!(err, Some(Error::MissingTag(Tag::Contents))));
    let (_, err) = drain(stream(&[
        b"nix-archive-1", b"(", b"type", b"directory", b"entry", b"(", b"name", b"a", b"nod", b"(", b"type",
    ]));
    assert!(matches!(err, Some(Error::MissingTag(Tag::Node))));
    let (_, err) = drain(stream(&[b"nix-archive-1", b"(", b"type", b"directory", b"entry", b"(", b"nam", b"a"]));
    assert!(matches!(err, Some(Error::MissingTag(Tag::Name))));
}

#[test]
fn executable_without_empty_text_is_an_invalid_tag() {
    let (seen, err) = drain(stream(&[b"nix-archive-1", b"(", b"type", b"regular", b"executable", b"x", b"contents", b"", b")"]));
    assert!(seen.is_empty());
    assert!(matches!(err, Some(Error::InvalidTag(Tag::Executable))));
    let (_, err) = drain(stream(&[b"nix-archive-1", b"(", b"type", b"regular", b"executable"]));
    assert!(matches!(err, Some(Error::InvalidTag(Tag::Executable))));
}

#[test]
fn unknown_type_is_reported_with_its_text() {
    let (_, err) = drain(stream(&[b"nix-archive-1", b"(", b"type", b"socket", b")"]));
    match err {
        Some(Error::UnknownFileType(text)) => assert_eq!(text, "socket"),
        other => panic!("unexpected: {:?}", other),
    }
}

#[test]
fn text_that_is_not_utf8_is_refused() {
    let (_, err) = drain(stream(&[b"nix-archive-1", b"(", b"type", &[0xff, 0xfe], b")"]));
    assert!(matches!(err, Some(Error::Utf8(_))));
    let (seen, err) = drain(dir_with_child_named(&[0xc3, 0x28]));
    assert_eq!(seen.len(), 1);
    assert!(matches!(err, Some(Error::Utf8(_))));
}

#[test]
fn file_contents_need_not_be_utf8() {
    let bytes = to_vec(&Node::Regular { executable: false, data: vec![0xff, 0x00, 0xfe] }).unwrap();
    let (seen, err) = drain(bytes);
    assert!(err.is_none());
    match seen[0].kind() {
        EntryKind::Regular { data, .. } => assert_eq!(data, &vec![0xff, 0x00, 0xfe]),
        _ => panic!("not a regular file"),
    }
}

#[test]
fn stray_text_in_a_directory_is_refused() {
    let (seen, err) = drain(stream(&[b"nix-archive-1", b"(", b"type", b"directory", b"node"]));
    assert_eq!(seen.len(), 1);
    assert!(matches!(err, Some(Error::InvalidDirEntry)));
}

#[test]
fn entries_come_before_the_error_behind_them() {
    let bytes = stream(&[
        b"nix-archive-1", b"(", b"type", b"directory", b"entry", b"(", b"name", b"a", b"node", b"(", b"type",
        b"regular", b"contents", b"1", b")", b"]",
    ]);
    let mut archive = Archive::new(bytes);
    let mut entries = archive.entries().unwrap();
    assert!(entries.next().unwrap().unwrap().is_dir());
    let file = entries.next().unwrap().unwrap();
    assert_eq!(file.name(), "a");
    assert!(file.is_file());
    assert!(matches!(entries.next(), Some(Err(Error::MissingTag(Tag::Close)))));
    assert!(entries.next().is_none());
    assert!(entries.next().is_none());
}

#[test]
fn what_follows_the_root_is_not_read() {
    let mut bytes = regular_sample();
    bytes.extend_from_slice(b"trailing");
    let (seen, err) = drain(bytes);
    assert!(err.is_none());
    assert_eq!(seen.len(), 1);
}

#[test]
fn settings_go_from_archive_to_entries() {
    let mut archive = Archive::new(regular_sample());
    archive.set_canonicalize_mtime(false);
    let mut entries = archive.entries().unwrap();
    let mut entry = entries.next().unwrap().unwrap();
    assert_eq!(entry.settings(), (false, true));
    entry.set_remove_xattrs(false);
    entry.set_canonicalize_mtime(true);
    assert_eq!(entry.settings(), (true, false));

    let mut archive = Archive::new(regular_sample());
    archive.set_remove_xattrs(false);
    let mut entries = archive.entries().unwrap();
    assert_eq!(entries.next().unwrap().unwrap().settings(), (true, false));
}
