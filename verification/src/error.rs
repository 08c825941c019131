//! What can go wrong while an archive is written, read or unpacked.

use vstd::prelude::*;
use vstd::string::*;
use crate::tag::Tag;

verus! {

/// The error of `String::from_utf8` of std, which is carried along as it
/// is: nothing is known of what it holds.
#[verifier::external_type_specification]
#[verifier::external_body]
pub struct ExFromUtf8Error(std::string::FromUtf8Error);

/// The kinds of input/output failure that the library tells apart.
#[derive(Copy, Clone, Debug, PartialEq, Eq, Structural)]
pub enum IoErrorKind {
    /// The path does not exist.
    NotFound,
    /// Something already stands at the path.
    AlreadyExists,
    /// What was found cannot be archived, or is not as long as announced.
    InvalidData,
    /// The input ended inside a frame.
    UnexpectedEof,
    /// Any other failure of the operating system.
    Other,
}

/// An error of this library.
#[derive(Debug)]
#[non_exhaustive]
pub enum Error {
    GetEntriesAfterRead,
    InvalidMagic,
    BadPadding,
    MissingTag(Tag),
    InvalidTag(Tag),
    InvalidDirEntryName(&'static str),
    InvalidDirEntryChar(char),
    InvalidDirEntry,
    UnknownFileType(String),
    InvalidPathComponent { path: String },
    Io(IoErrorKind),
    IoAt { inner: IoErrorKind, path: String },
    Utf8(std::string::FromUtf8Error),
}

/// An error as a mathematical value.
pub enum ErrorView {
    GetEntriesAfterRead,
    InvalidMagic,
    BadPadding,
    MissingTag(Tag),
    InvalidTag(Tag),
    InvalidDirEntryName(Seq<char>),
    InvalidDirEntryChar(char),
    InvalidDirEntry,
    UnknownFileType(Seq<char>),
    InvalidPathComponent { path: Seq<char> },
    Io(IoErrorKind),
    IoAt { inner: IoErrorKind, path: Seq<char> },
    Utf8,
}

impl View for Error {
    type V = ErrorView;

    open spec fn view(&self) -> ErrorView {
        match *self {
            Error::GetEntriesAfterRead => ErrorView::GetEntriesAfterRead,
            Error::InvalidMagic => ErrorView::InvalidMagic,
            Error::BadPadding => ErrorView::BadPadding,
            Error::MissingTag(t) => ErrorView::MissingTag(t),
            Error::InvalidTag(t) => ErrorView::InvalidTag(t),
            Error::InvalidDirEntryName(n) => ErrorView::InvalidDirEntryName(n@),
            Error::InvalidDirEntryChar(c) => ErrorView::InvalidDirEntryChar(c),
            Error::InvalidDirEntry => ErrorView::InvalidDirEntry,
            Error::UnknownFileType(t) => ErrorView::UnknownFileType(t@),
            Error::InvalidPathComponent { path } => ErrorView::InvalidPathComponent { path: path@ },
            Error::Io(k) => ErrorView::Io(k),
            Error::IoAt { inner, path } => ErrorView::IoAt { inner, path: path@ },
            Error::Utf8(_) => ErrorView::Utf8,
        }
    }
}

impl IoErrorKind {
    /// The kind in words.
    pub open spec fn text(self) -> Seq<char> {
        match self {
            IoErrorKind::NotFound => "entity not found"@,
            IoErrorKind::AlreadyExists => "entity already exists"@,
            IoErrorKind::InvalidData => "invalid data"@,
            IoErrorKind::UnexpectedEof => "unexpected end of file"@,
            IoErrorKind::Other => "other error"@,
        }
    }

    /// The kind in words.
    pub fn describe(self) -> (s: &'static str)
        ensures
            s@ == self.text(),
    {
        match self {
            IoErrorKind::NotFound => "entity not found",
            IoErrorKind::AlreadyExists => "entity already exists",
            IoErrorKind::InvalidData => "invalid data",
            IoErrorKind::UnexpectedEof => "unexpected end of file",
            IoErrorKind::Other => "other error",
        }
    }
}

/// `to_string` of std on a `char`. It is taken on trust that it gives the
/// text that holds `c` alone.
#[verifier::external_body]
fn char_text(c: char) -> (r: String)
    ensures
        r@ == seq![c],
{
    c.to_string()
}

/// `to_string` of std on the error of `String::from_utf8`: what is wrong
/// with the bytes, in words. Nothing is claimed of those words.
#[verifier::external_body]
fn utf8_error_text(e: &std::string::FromUtf8Error) -> String {
    e.to_string()
}

impl ErrorView {
    /// The error in words, but for `Utf8`, whose words come with the error.
    pub open spec fn message(self) -> Seq<char> {
        match self {
            ErrorView::GetEntriesAfterRead => "Cannot call `entries` unless reader is in position 0"@,
            ErrorView::InvalidMagic => "Not a valid NAR archive"@,
            ErrorView::BadPadding => "Bad archive padding"@,
            ErrorView::MissingTag(t) => "Missing `"@ + t.text() + "` tag"@,
            ErrorView::InvalidTag(t) => "Invalid `"@ + t.text() + "` tag"@,
            ErrorView::InvalidDirEntryName(n) => if n.len() == 0 {
                "Entry name is empty"@
            } else {
                "Invalid name `"@ + n + "`"@
            },
            ErrorView::InvalidDirEntryChar(c) => "Invalid character in entry name: `"@ + seq![c]
                + "`"@,
            ErrorView::InvalidDirEntry => "Invalid directory entry"@,
            ErrorView::UnknownFileType(t) => "Unrecognized file type `"@ + t + "`"@,
            ErrorView::InvalidPathComponent { path } => "Invalid path component in "@ + path,
            ErrorView::Io(k) => "I/O error: "@ + k.text(),
            ErrorView::IoAt { inner, path } => "I/O error: "@ + inner.text()
                + "; while handling: "@ + path,
            ErrorView::Utf8 => "Utf8 error: "@,
        }
    }
}

impl Error {
    /// The error in words. For `Utf8` the words of the error itself follow
    /// the text that `message` gives.
    pub fn message(&self) -> (r: String)
        ensures
            !(self@ is Utf8) ==> r@ == self@.message(),
            self@ is Utf8 ==> exists|detail: Seq<char>| r@ == self@.message() + detail,
    {
        match self {
            Error::GetEntriesAfterRead => String::from_str(
                "Cannot call `entries` unless reader is in position 0",
            ),
            Error::InvalidMagic => String::from_str("Not a valid NAR archive"),
            Error::BadPadding => String::from_str("Bad archive padding"),
            Error::MissingTag(t) => String::from_str("Missing `").concat(t.into_str()).concat(
                "` tag",
            ),
            Error::InvalidTag(t) => String::from_str("Invalid `").concat(t.into_str()).concat(
                "` tag",
            ),
            Error::InvalidDirEntryName(n) => {
                if n.is_empty() {
                    String::from_str("Entry name is empty")
                } else {
                    String::from_str("Invalid name `").concat(n).concat("`")
                }
            },
            Error::InvalidDirEntryChar(c) => String::from_str(
                "Invalid character in entry name: `",
            ).concat(char_text(*c).as_str()).concat("`"),
            Error::InvalidDirEntry => String::from_str("Invalid directory entry"),
            Error::UnknownFileType(t) => String::from_str("Unrecognized file type `").concat(
                t.as_str(),
            ).concat("`"),
            Error::InvalidPathComponent { path } => String::from_str(
                "Invalid path component in ",
            ).concat(path.as_str()),
            Error::Io(k) => String::from_str("I/O error: ").concat(k.describe()),
            Error::IoAt { inner, path } => String::from_str("I/O error: ").concat(
                inner.describe(),
            ).concat("; while handling: ").concat(path.as_str()),
            Error::Utf8(e) => {
                let detail = utf8_error_text(e);
                let r = String::from_str("Utf8 error: ").concat(detail.as_str());
                assert(r@ == self@.message() + detail@);
                r
            },
        }
    }
}

} // verus!
