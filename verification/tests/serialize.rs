use libnar::node::{DirEntry, Node};

#[test]
fn serializes_regular_file() {
    let node = Node::Regular { executable: false, data: "lorem ipsum dolor sic amet\n".as_bytes().to_vec() };

    let expected: Vec<u8> = std::iter::empty()
        .chain(
            13u64
                .to_le_bytes()
                .iter()
                .chain(b"nix-archive-1")
                .chain(&[0u8; 3]),
        )
        .chain(1u64.to_le_bytes().iter().chain(b"(").chain(&[0u8; 7]))
        .chain(4u64.to_le_bytes().iter().chain(b"type").chain(&[0u8; 4]))
        .chain(7u64.to_le_bytes().iter().chain(b"regular").chain(&[0u8; 1]))
        .chain(8u64.to_le_bytes().iter().chain(b"contents"))
        .chain(
            27u8.to_le_bytes()
                .iter()
                .chain(&[0u8; 7])
                .chain("lorem ipsum dolor sic amet\n".as_bytes())
                .chain(&[0u8; 5]),
        )
        .chain(1u64.to_le_bytes().iter().chain(b")").chain(&[0u8; 7]))
        .copied()
        .collect();

    let output = libnar::to_vec(&node).unwrap();
    assert_eq!(output, expected);
}

#[test]
fn serializes_executable_file() {
    let node = Node::Regular {
        executable: true,
        data: "#!/bin/sh\nset -euo pipefail\nexit 0\n".as_bytes().to_vec(),
    };

    let expected: Vec<u8> = std::iter::empty()
        .chain(
            13u64
                .to_le_bytes()
                .iter()
                .chain(b"nix-archive-1")
                .chain(&[0u8; 3]),
        )
        .chain(1u64.to_le_bytes().iter().chain(b"(").chain(&[0u8; 7]))
        .chain(4u64.to_le_bytes().iter().chain(b"type").chain(&[0u8; 4]))
        .chain(7u64.to_le_bytes().iter().chain(b"regular").chain(&[0u8; 1]))
        .chain(
            10u8.to_le_bytes()
                .iter()
                .chain(&[0u8; 7])
                .chain(b"executable")
                .chain(&[0u8; 5]),
        )
        .chain(0u8.to_le_bytes().iter().chain(b"").chain(&[0u8; 8]))
        .chain(8u64.to_le_bytes().iter().chain(b"contents"))
        .chain(
            35u8.to_le_bytes()
                .iter()
                .chain(&[0u8; 7])
                .chain("#!/bin/sh\nset -euo pipefail\nexit 0\n".as_bytes())
                .chain(&[0u8; 5]),
        )
        .chain(1u64.to_le_bytes().iter().chain(b")").chain(&[0u8; 7]))
        .copied()
        .collect();

    let output = libnar::to_vec(&node).unwrap();
    assert_eq!(output, expected);
}

#[test]
fn serializes_symlink() {
    let node = Node::Symlink { target: "./foo".to_string() };

    let expected: Vec<u8> = std::iter::empty()
        .chain(
            13u64
                .to_le_bytes()
                .iter()
                .chain(b"nix-archive-1")
                .chain(&[0u8; 3]),
        )
        .chain(1u64.to_le_bytes().iter().chain(b"(").chain(&[0u8; 7]))
        .chain(4u64.to_le_bytes().iter().chain(b"type").chain(&[0u8; 4]))
        .chain(7u64.to_le_bytes().iter().chain(b"symlink").chain(&[0u8; 1]))
        .chain(6u64.to_le_bytes().iter().chain(b"target").chain(&[0u8; 2]))
        .chain(5u64.to_le_bytes().iter().chain(b"./foo").chain(&[0u8; 3]))
        .chain(1u64.to_le_bytes().iter().chain(b")").chain(&[0u8; 7]))
        .copied()
        .collect();

    let output = libnar::to_vec(&node).unwrap();
    assert_eq!(output, expected);
}

#[test]
fn serializes_directory() {
    let node = Node::Directory {
        entries: vec![DirEntry {
            name: "subdir".to_string(),
            node: Node::Directory {
                entries: vec![DirEntry {
                    name: "file".to_string(),
                    node: Node::Regular { executable: false, data: "hello world".as_bytes().to_vec() },
                }],
            },
        }],
    };

    let expected: Vec<u8> = std::iter::empty()
        .chain(
            13u64
                .to_le_bytes()
                .iter()
                .chain(b"nix-archive-1")
                .chain(&[0u8; 3]),
        )
        .chain(1u64.to_le_bytes().iter().chain(b"(").chain(&[0u8; 7]))
        .chain(4u64.to_le_bytes().iter().chain(b"type").chain(&[0u8; 4]))
        .chain(
            9u64.to_le_bytes()
                .iter()
                .chain(b"directory")
                .chain(&[0u8; 7]),
        )
        .chain(5u64.to_le_bytes().iter().chain(b"entry").chain(&[0u8; 3]))
        .chain(1u64.to_le_bytes().iter().chain(b"(").chain(&[0u8; 7]))
        .chain(4u64.to_le_bytes().iter().chain(b"name").chain(&[0u8; 4]))
        .chain(6u64.to_le_bytes().iter().chain(b"subdir").chain(&[0u8; 2]))
        .chain(4u64.to_le_bytes().iter().chain(b"node").chain(&[0u8; 4]))
        .chain(1u64.to_le_bytes().iter().chain(b"(").chain(&[0u8; 7]))
        .chain(4u64.to_le_bytes().iter().chain(b"type").chain(&[0u8; 4]))
        .chain(
            9u64.to_le_bytes()
                .iter()
                .chain(b"directory")
                .chain(&[0u8; 7]),
        )
        .chain(5u64.to_le_bytes().iter().chain(b"entry").chain(&[0u8; 3]))
        .chain(1u64.to_le_bytes().iter().chain(b"(").chain(&[0u8; 7]))
        .chain(4u64.to_le_bytes().iter().chain(b"name").chain(&[0u8; 4]))
        .chain(4u64.to_le_bytes().iter().chain(b"file").chain(&[0u8; 4]))
        .chain(4u64.to_le_bytes().iter().chain(b"node").chain(&[0u8; 4]))
        .chain(1u64.to_le_bytes().iter().chain(b"(").chain(&[0u8; 7]))
        .chain(4u64.to_le_bytes().iter().chain(b"type").chain(&[0u8; 4]))
        .chain(7u64.to_le_bytes().iter().chain(b"regular").chain(&[0u8; 1]))
        .chain(8u64.to_le_bytes().iter().chain(b"contents"))
        .chain(
            11u64
                .to_le_bytes()
                .iter()
                .chain("hello world".as_bytes())
                .chain(&[0u8; 5]),
        )
        .chain(1u64.to_le_bytes().iter().chain(b")").chain(&[0u8; 7]))
        .chain(1u64.to_le_bytes().iter().chain(b")").chain(&[0u8; 7]))
        .chain(1u64.to_le_bytes().iter().chain(b")").chain(&[0u8; 7]))
        .chain(1u64.to_le_bytes().iter().chain(b")").chain(&[0u8; 7]))
        .chain(1u64.to_le_bytes().iter().chain(b")").chain(&[0u8; 7]))
        .copied()
        .collect();

    let output = libnar::to_vec(&node).unwrap();
    assert_eq!(output, expected);
}
