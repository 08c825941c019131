use libnar::de::Archive;
use libnar::error::Error;
use libnar::node::{DirEntry, Node};
use libnar::ser::to_vec;

fn file(name: &str, data: &[u8]) -> DirEntry {
    DirEntry { name: name.to_string(), node: Node::Regular { executable: false, data: data.to_vec() } }
}

#[test]
fn decodes_what_was_encoded() {
    let tree = Node::Directory {
        entries: vec![
            file("zeta", b"z"),
            DirEntry {
                name: "sub".to_string(),
                node: Node::Directory {
                    entries: vec![
                        file("b", b"bb"),
                        DirEntry { name: "a".to_string(), node: Node::Symlink { target: "../zeta".to_string() } },
                    ],
                },
            },
            DirEntry { name: "run".to_string(), node: Node::Regular { executable: true, data: b"#!/bin/sh\n".to_vec() } },
        ],
    };
    let bytes = to_vec(&tree).unwrap();
    assert_eq!(bytes.len() % 8, 0);
    let mut archive = Archive::new(bytes);
    let mut entries = archive.entries().unwrap();
    let mut seen = Vec::new();
    while let Some(entry) = entries.next() {
        let entry = entry.unwrap();
        seen.push((entry.name().to_string(), entry.is_dir(), entry.is_file(), entry.is_executable(), entry.is_symlink()));
    }
    assert_eq!(
        seen,
        vec![
            ("".to_string(), true, false, false, false),
            ("run".to_string(), false, false, true, false),
            ("sub".to_string(), true, false, false, false),
            ("sub/a".to_string(), false, false, false, true),
            ("sub/b".to_string(), false, true, false, false),
            ("zeta".to_string(), false, true, false, false),
        ]
    );
    assert!(entries.next().is_none());
}

#[test]
fn second_call_of_entries_is_refused() {
    let tree = Node::Regular { executable: false, data: b"x".to_vec() };
    let mut archive = Archive::new(to_vec(&tree).unwrap());
    {
        let mut entries = archive.entries().unwrap();
        assert!(entries.next().unwrap().is_ok());
    }
    assert!(matches!(archive.entries(), Err(Error::GetEntriesAfterRead)));
}

fn insert(root: &mut Node, path: &str, node: Node) {
    if path.is_empty() {
        *root = node;
        return;
    }
    let (first, rest) = match path.split_once('/') {
        Some((first, rest)) => (first, Some(rest)),
        None => (path, None),
    };
    let entries = match root {
        Node::Directory { entries } => entries,
        _ => panic!("{} is below something that is no directory", path),
    };
    match rest {
        None => entries.insert(0, DirEntry { name: first.to_string(), node }),
        Some(rest) => {
            let parent = entries.iter_mut().find(|e| e.name == first).unwrap();
            insert(&mut parent.node, rest, node);
        }
    }
}

fn rebuild(bytes: Vec<u8>) -> Node {
    let mut archive = Archive::new(bytes);
    let mut entries = archive.entries().unwrap();
    let mut root = Node::Directory { entries: Vec::new() };
    while let Some(entry) = entries.next() {
        let entry = entry.unwrap();
        let node = match entry.kind() {
            libnar::de::EntryKind::Directory => Node::Directory { entries: Vec::new() },
            libnar::de::EntryKind::Regular { executable, data } => {
                Node::Regular { executable: *executable, data: data.clone() }
            }
            libnar::de::EntryKind::Symlink { target } => Node::Symlink { target: target.clone() },
        };
        insert(&mut root, entry.name(), node);
    }
    root
}

#[test]
fn rebuilt_tree_has_the_same_archive() {
    let tree = Node::Directory {
        entries: vec![
            file("Cargo.toml", b"[package]\n"),
            DirEntry {
                name: "src".to_string(),
                node: Node::Directory {
                    entries: vec![
                        file("lib.rs", b"pub mod de;\npub mod ser;\n"),
                        file("de.rs", &[0u8; 1000]),
                        file("ser.rs", &[1u8; 17]),
                        DirEntry { name: "empty".to_string(), node: Node::Directory { entries: Vec::new() } },
                    ],
                },
            },
            DirEntry { name: "build.sh".to_string(), node: Node::Regular { executable: true, data: b"#!/bin/sh\n".to_vec() } },
            DirEntry { name: "latest".to_string(), node: Node::Symlink { target: "src/lib.rs".to_string() } },
        ],
    };
    let first = to_vec(&tree).unwrap();
    let second = to_vec(&rebuild(first.clone())).unwrap();
    assert_eq!(first, second);

    for leaf in [
        Node::Regular { executable: true, data: Vec::new() },
        Node::Symlink { target: String::new() },
        Node::Directory { entries: Vec::new() },
    ] {
        let first = to_vec(&leaf).unwrap();
        assert_eq!(to_vec(&rebuild(first.clone())).unwrap(), first);
    }
}
