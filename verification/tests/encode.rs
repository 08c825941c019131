use libnar::de::{Archive, EntryKind};
use libnar::error::{Error, IoErrorKind};
use libnar::frame::{read_u64_le, write_padded, write_padded_from_reader, write_u64_le, write_zeros};
use libnar::node::{DirEntry, Node};
use libnar::ser::{encode_entry, sorted_indices, to_writer, write_tag, FileStat, FileType};
use libnar::tag::{Tag, UnknownTag};
use libnar::text::{bytes_eq, bytes_lt, str_eq};
use libnar::to_vec;

fn link(name: &str) -> DirEntry {
    DirEntry { name: name.to_string(), node: Node::Symlink { target: name.to_string() } }
}

fn names_of(bytes: Vec<u8>) -> Vec<String> {
    let mut archive = Archive::new(bytes);
    let mut entries = archive.entries().unwrap();
    let mut names = Vec::new();
    while let Some(entry) = entries.next() {
        names.push(entry.unwrap().name().to_string());
    }
    names
}

#[test]
fn children_are_written_in_byte_order() {
    let tree = Node::Directory { entries: vec![link("b"), link("aa"), link("a"), link("B"), link("\u{e9}"), link("~x")] };
    assert_eq!(names_of(to_vec(&tree).unwrap()), vec!["", "B", "a", "aa", "b", "~x", "\u{e9}"]);
}

#[test]
fn order_of_children_in_memory_does_not_matter() {
    let one = Node::Directory { entries: vec![link("x"), link("y"), link("z")] };
    let other = Node::Directory { entries: vec![link("z"), link("x"), link("y")] };
    assert_eq!(to_vec(&one).unwrap(), to_vec(&other).unwrap());
}

#[test]
fn encoding_twice_gives_the_same_bytes() {
    let tree = Node::Directory { entries: vec![link("q"), link("p")] };
    assert_eq!(to_vec(&tree).unwrap(), to_vec(&tree).unwrap());
}

#[test]
fn equal_names_keep_their_order() {
    let entries = vec![link("b"), link("a"), link("b"), link("a")];
    assert_eq!(sorted_indices(&entries), vec![1, 3, 0, 2]);
    assert_eq!(sorted_indices(&Vec::new()), Vec::<usize>::new());
}

#[test]
fn every_archive_is_a_whole_number_of_words() {
    for len in 0..40usize {
        let tree = Node::Directory {
            entries: vec![DirEntry {
                name: "n".repeat(len + 1),
                node: Node::Regular { executable: len % 2 == 0, data: vec![7u8; len] },
            }],
        };
        assert_eq!(to_vec(&tree).unwrap().len() % 8, 0);
    }
}

#[test]
fn empty_directory() {
    let bytes = to_vec(&Node::Directory { entries: Vec::new() }).unwrap();
    let mut expected = Vec::new();
    for part in [&b"nix-archive-1"[..], b"(", b"type", b"directory", b")"] {
        write_padded(&mut expected, part).unwrap();
    }
    assert_eq!(bytes, expected);
    assert_eq!(names_of(bytes), vec![""]);
}

#[test]
fn to_writer_appends() {
    let mut buffer = vec![9u8, 9, 9];
    let node = Node::Symlink { target: "t".to_string() };
    to_writer(&mut buffer, &node).unwrap();
    assert_eq!(&buffer[..3], &[9, 9, 9]);
    assert_eq!(&buffer[3..], to_vec(&node).unwrap().as_slice());

    let mut only_node = Vec::new();
    encode_entry(&mut only_node, &node).unwrap();
    assert_eq!(only_node.as_slice(), &buffer[3 + 24..]);
}

#[test]
fn empty_payload_is_eight_zero_bytes() {
    let mut buffer = Vec::new();
    write_padded(&mut buffer, b"").unwrap();
    assert_eq!(buffer, vec![0u8; 8]);
    let mut buffer = Vec::new();
    write_tag(&mut buffer, Tag::Empty);
    assert_eq!(buffer, vec![0u8; 8]);
}

#[test]
fn length_is_little_endian() {
    let mut buffer = Vec::new();
    write_u64_le(&mut buffer, 0x0102_0304_0506_0708);
    assert_eq!(buffer, vec![8, 7, 6, 5, 4, 3, 2, 1]);
    assert_eq!(read_u64_le(&buffer, 0), 0x0102_0304_0506_0708);
    let mut buffer = vec![0xaa];
    write_u64_le(&mut buffer, u64::MAX);
    assert_eq!(read_u64_le(&buffer, 1), u64::MAX);
    write_zeros(&mut buffer, 3);
    assert_eq!(buffer.len(), 12);
    assert_eq!(&buffer[9..], &[0, 0, 0]);

    let mut buffer = Vec::new();
    write_padded(&mut buffer, &vec![5u8; 300]).unwrap();
    assert_eq!(&buffer[..8], &[44, 1, 0, 0, 0, 0, 0, 0]);
    assert_eq!(buffer.len(), 8 + 300 + 4);
}

#[test]
fn announced_length_must_match() {
    let mut buffer = vec![1u8];
    let r = write_padded_from_reader(&mut buffer, b"abc", 4);
    assert!(matches!(r, Err(Error::Io(IoErrorKind::InvalidData))));
    assert_eq!(buffer, vec![1u8]);
    let r = write_padded_from_reader(&mut buffer, b"abc", 2);
    assert!(matches!(r, Err(Error::Io(IoErrorKind::InvalidData))));
    write_padded_from_reader(&mut buffer, b"abc", 3).unwrap();
    assert_eq!(buffer, vec![1, 3, 0, 0, 0, 0, 0, 0, 0, b'a', b'b', b'c', 0, 0, 0, 0, 0]);
}

#[test]
fn file_types_become_nodes() {
    let stat = |file_type, mode, len| FileStat { file_type, mode, len };
    assert!(matches!(stat(FileType::Directory, 0o755, 0).node_type(), Ok(Tag::Directory)));
    assert!(matches!(stat(FileType::File, 0o644, 0).node_type(), Ok(Tag::Regular)));
    assert!(matches!(stat(FileType::Symlink, 0o777, 0).node_type(), Ok(Tag::Symlink)));
    assert!(matches!(stat(FileType::Other, 0o644, 0).node_type(), Err(Error::Io(IoErrorKind::InvalidData))));
}

#[test]
fn any_execute_bit_makes_a_file_executable() {
    let stat = |mode| FileStat { file_type: FileType::File, mode, len: 2 };
    for mode in [0o100, 0o010, 0o001, 0o755, 0o111, 0o100644 | 0o100] {
        assert!(stat(mode).executable());
    }
    for mode in [0o644, 0o000, 0o666, 0o100644, 0o4000] {
        assert!(!stat(mode).executable());
    }
    match Node::regular(&stat(0o755), b"ab".to_vec()) {
        Ok(Node::Regular { executable, data }) => {
            assert!(executable);
            assert_eq!(data, b"ab");
        }
        _ => panic!("no regular node"),
    }
    assert!(matches!(Node::regular(&stat(0o644), b"ab".to_vec()), Ok(Node::Regular { executable: false, .. })));
    assert!(matches!(Node::regular(&stat(0o644), b"abc".to_vec()), Err(Error::Io(IoErrorKind::InvalidData))));
    assert!(matches!(Node::regular(&stat(0o644), b"a".to_vec()), Err(Error::Io(IoErrorKind::InvalidData))));
}

#[test]
fn tags_have_their_texts() {
    let all = [
        (Tag::Empty, ""),
        (Tag::Open, "("),
        (Tag::Close, ")"),
        (Tag::Type, "type"),
        (Tag::Regular, "regular"),
        (Tag::Symlink, "symlink"),
        (Tag::Directory, "directory"),
        (Tag::Entry, "entry"),
        (Tag::Contents, "contents"),
        (Tag::Executable, "executable"),
        (Tag::Target, "target"),
        (Tag::Name, "name"),
        (Tag::Node, "node"),
    ];
    for (tag, text) in all {
        assert_eq!(tag.into_str(), text);
        assert_eq!(Tag::lookup(text).unwrap(), tag);
        assert_eq!(text.parse::<Tag>().unwrap(), tag);
    }
    assert!(matches!(Tag::lookup("Type"), Err(UnknownTag)));
    assert!(matches!("nodes".parse::<Tag>(), Err(UnknownTag)));
    assert_eq!(Tag::from(EntryKind::Directory), Tag::Directory);
    assert_eq!(Tag::from(EntryKind::Regular { executable: true, data: Vec::new() }), Tag::Regular);
    assert_eq!(Tag::from(EntryKind::Symlink { target: String::new() }), Tag::Symlink);
}

#[test]
fn byte_strings_compare_byte_by_byte() {
    assert!(bytes_lt(b"", b"a"));
    assert!(!bytes_lt(b"", b""));
    assert!(!bytes_lt(b"a", b""));
    assert!(bytes_lt(b"a", b"aa"));
    assert!(bytes_lt(b"B", b"a"));
    assert!(bytes_lt(b"ab", b"b"));
    assert!(!bytes_lt(b"b", b"ab"));
    assert!(!bytes_lt(b"abc", b"abc"));
    assert!(bytes_lt(&[0x7f], &[0x80]));
    assert!(bytes_eq(b"abc", b"abc"));
    assert!(!bytes_eq(b"abc", b"abd"));
    assert!(!bytes_eq(b"abc", b"ab"));
    assert!(str_eq("\u{e9}", "\u{e9}"));
    assert!(!str_eq("e", "\u{e9}"));
}
