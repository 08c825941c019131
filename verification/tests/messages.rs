use libnar::error::{Error, IoErrorKind};
use libnar::tag::Tag;

#[test]
fn errors_say_what_went_wrong() {
    assert_eq!(Error::GetEntriesAfterRead.message(), "Cannot call `entries` unless reader is in position 0");
    assert_eq!(Error::InvalidMagic.message(), "Not a valid NAR archive");
    assert_eq!(Error::BadPadding.message(), "Bad archive padding");
    assert_eq!(Error::MissingTag(Tag::Contents).message(), "Missing `contents` tag");
    assert_eq!(Error::MissingTag(Tag::Close).message(), "Missing `)` tag");
    assert_eq!(Error::InvalidTag(Tag::Executable).message(), "Invalid `executable` tag");
    assert_eq!(Error::InvalidDirEntryName("").message(), "Entry name is empty");
    assert_eq!(Error::InvalidDirEntryName("..").message(), "Invalid name `..`");
    assert_eq!(Error::InvalidDirEntryChar('/').message(), "Invalid character in entry name: `/`");
    assert_eq!(Error::InvalidDirEntry.message(), "Invalid directory entry");
    assert_eq!(Error::UnknownFileType("fifo".to_string()).message(), "Unrecognized file type `fifo`");
    assert_eq!(
        Error::InvalidPathComponent { path: "../x".to_string() }.message(),
        "Invalid path component in ../x"
    );
    assert_eq!(Error::Io(IoErrorKind::UnexpectedEof).message(), "I/O error: unexpected end of file");
    assert_eq!(
        Error::IoAt { inner: IoErrorKind::AlreadyExists, path: "out/a".to_string() }.message(),
        "I/O error: entity already exists; while handling: out/a"
    );
    assert_eq!(IoErrorKind::NotFound.describe(), "entity not found");
    assert_eq!(IoErrorKind::InvalidData.describe(), "invalid data");
    assert_eq!(IoErrorKind::Other.describe(), "other error");
}

#[test]
fn utf8_errors_carry_their_own_words() {
    let inner = String::from_utf8(vec![0x61, 0xff]).unwrap_err();
    let expected = format!("Utf8 error: {}", inner);
    assert_eq!(Error::Utf8(inner).message(), expected);
    assert!(expected.len() > "Utf8 error: ".len());
}
