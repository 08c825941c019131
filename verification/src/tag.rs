//! The closed vocabulary of markers that structure an archive.

use vstd::prelude::*;
use vstd::utf8::*;
use crate::text::str_eq;

verus! {

/// The text that was looked up is not one of the markers.
#[derive(Debug)]
pub struct UnknownTag;

/// A marker of the archive grammar.
#[derive(Copy, Clone, Debug, PartialEq, Eq, Structural)]
#[non_exhaustive]
pub enum Tag {
    Empty,
    Open,
    Close,
    Type,
    Regular,
    Symlink,
    Directory,
    Entry,
    Contents,
    Executable,
    Target,
    Name,
    Node,
}

impl Tag {
    /// The marker's text.
    pub open spec fn text(self) -> Seq<char> {
        match self {
            Tag::Empty => seq![],
            Tag::Open => seq!['('],
            Tag::Close => seq![')'],
            Tag::Type => seq!['t', 'y', 'p', 'e'],
            Tag::Regular => seq!['r', 'e', 'g', 'u', 'l', 'a', 'r'],
            Tag::Symlink => seq!['s', 'y', 'm', 'l', 'i', 'n', 'k'],
            Tag::Directory => seq!['d', 'i', 'r', 'e', 'c', 't', 'o', 'r', 'y'],
            Tag::Entry => seq!['e', 'n', 't', 'r', 'y'],
            Tag::Contents => seq!['c', 'o', 'n', 't', 'e', 'n', 't', 's'],
            Tag::Executable => seq!['e', 'x', 'e', 'c', 'u', 't', 'a', 'b', 'l', 'e'],
            Tag::Target => seq!['t', 'a', 'r', 'g', 'e', 't'],
            Tag::Name => seq!['n', 'a', 'm', 'e'],
            Tag::Node => seq!['n', 'o', 'd', 'e'],
        }
    }

    /// The marker's bytes on the wire, before framing.
    pub open spec fn bytes(self) -> Seq<u8> {
        Seq::new(self.text().len(), |i: int| self.text()[i] as u8)
    }

    /// Every marker is ASCII, so its bytes are its UTF-8 encoding.
    pub proof fn lemma_bytes_are_utf8(self)
        ensures
            is_ascii_chars(self.text()),
            encode_utf8(self.text()) == self.bytes(),
            valid_utf8(self.bytes()),
            decode_utf8(self.bytes()) == self.text(),
    {
        let t = self.text();
        assert(is_ascii_chars(t));
        is_ascii_chars_encode_utf8(t);
        assert(encode_utf8(t) =~= self.bytes());
        encode_utf8_valid_utf8(t);
        encode_utf8_decode_utf8(t);
    }

    /// The marker's text.
    pub fn into_str(self) -> (s: &'static str)
        ensures
            s@ == self.text(),
    {
        proof {
            reveal_strlit("");
            reveal_strlit("(");
            reveal_strlit(")");
            reveal_strlit("type");
            reveal_strlit("regular");
            reveal_strlit("symlink");
            reveal_strlit("directory");
            reveal_strlit("entry");
            reveal_strlit("contents");
            reveal_strlit("executable");
            reveal_strlit("target");
            reveal_strlit("name");
            reveal_strlit("node");
        }
        let s = match self {
            Tag::Empty => "",
            Tag::Open => "(",
            Tag::Close => ")",
            Tag::Type => "type",
            Tag::Regular => "regular",
            Tag::Symlink => "symlink",
            Tag::Directory => "directory",
            Tag::Entry => "entry",
            Tag::Contents => "contents",
            Tag::Executable => "executable",
            Tag::Target => "target",
            Tag::Name => "name",
            Tag::Node => "node",
        };
        assert(s@ =~= self.text());
        s
    }
}

impl Tag {
    /// The marker whose text is `s`, if there is one.
    pub fn lookup(s: &str) -> (r: Result<Tag, UnknownTag>)
        ensures
            match r {
                Ok(tag) => tag.text() == s@,
                Err(_) => forall|tag: Tag| tag.text() != s@,
            },
    {
        if str_eq(s, Tag::Empty.into_str()) {
            Ok(Tag::Empty)
        } else if str_eq(s, Tag::Open.into_str()) {
            Ok(Tag::Open)
        } else if str_eq(s, Tag::Close.into_str()) {
            Ok(Tag::Close)
        } else if str_eq(s, Tag::Type.into_str()) {
            Ok(Tag::Type)
        } else if str_eq(s, Tag::Regular.into_str()) {
            Ok(Tag::Regular)
        } else if str_eq(s, Tag::Symlink.into_str()) {
            Ok(Tag::Symlink)
        } else if str_eq(s, Tag::Directory.into_str()) {
            Ok(Tag::Directory)
        } else if str_eq(s, Tag::Entry.into_str()) {
            Ok(Tag::Entry)
        } else if str_eq(s, Tag::Contents.into_str()) {
            Ok(Tag::Contents)
        } else if str_eq(s, Tag::Executable.into_str()) {
            Ok(Tag::Executable)
        } else if str_eq(s, Tag::Target.into_str()) {
            Ok(Tag::Target)
        } else if str_eq(s, Tag::Name.into_str()) {
            Ok(Tag::Name)
        } else if str_eq(s, Tag::Node.into_str()) {
            Ok(Tag::Node)
        } else {
            assert forall|tag: Tag| tag.text() != s@ by {
                match tag {
                    Tag::Empty => {},
                    Tag::Open => {},
                    Tag::Close => {},
                    Tag::Type => {},
                    Tag::Regular => {},
                    Tag::Symlink => {},
                    Tag::Directory => {},
                    Tag::Entry => {},
                    Tag::Contents => {},
                    Tag::Executable => {},
                    Tag::Target => {},
                    Tag::Name => {},
                    Tag::Node => {},
                }
            }
            Err(UnknownTag)
        }
    }
}

impl std::str::FromStr for Tag {
    type Err = UnknownTag;

    fn from_str(s: &str) -> (r: Result<Tag, UnknownTag>)
        ensures
            match r {
                Ok(tag) => tag.text() == s@,
                Err(_) => forall|tag: Tag| tag.text() != s@,
            },
    {
        Tag::lookup(s)
    }
}

} // verus!
