//! Reading an archive: the entries of its tree, one after the other.

use vstd::prelude::*;
use vstd::array::array_as_slice;
use vstd::slice::{slice_subrange, slice_to_vec};
use vstd::string::*;
use vstd::utf8::{decode_utf8, valid_utf8};
use crate::error::{Error, ErrorView, IoErrorKind};
use crate::frame::{
    frame_end, magic, pad_len, read_frame, read_u64_le, zeros, NIX_VERSION_MAGIC, PAD_LEN,
};
use crate::grammar::{
    archive_head, archive_trace, contents_trace, dir_trace, entry_head, expect, join,
    lemma_resume_empty, lemma_resume_enter, lemma_resume_pending, lemma_resume_step, name_error,
    node_head, node_trace, read_text, regular_trace, resume, symlink_trace, EntryKindView,
    EntryView, Trace,
};
use crate::tag::Tag;
use crate::text::{bytes_eq, str_eq};

verus! {

/// The bytes of an archive and how far they have been read.
#[derive(Debug)]
struct ArchiveInner {
    position: usize,
    reader: Vec<u8>,
}

/// An archive that is being read, with the settings that its entries take
/// along for unpacking.
#[derive(Debug)]
pub struct Archive {
    canonicalize_mtime: bool,
    remove_xattrs: bool,
    inner: ArchiveInner,
}

/// `String::from_utf8` of std. It is taken on trust that it gives the text
/// that `bytes` encode where they are valid UTF-8, and an error where they
/// are not.
#[verifier::external_body]
fn string_from_utf8(bytes: Vec<u8>) -> (r: Result<String, std::string::FromUtf8Error>)
    ensures
        r is Ok <==> valid_utf8(bytes@),
        r matches Ok(text) ==> text@ == decode_utf8(bytes@),
{
    String::from_utf8(bytes)
}

impl Archive {
    #[verifier::type_invariant]
    spec fn in_bounds(self) -> bool {
        self.inner.position <= self.inner.reader@.len()
    }

    /// The bytes of the archive.
    pub closed spec fn bytes(&self) -> Seq<u8> {
        self.inner.reader@
    }

    /// How many of the bytes have been read.
    pub closed spec fn position(&self) -> int {
        self.inner.position as int
    }

    /// Whether entries get their modification time set to the epoch when
    /// they are unpacked.
    pub closed spec fn canonicalize_mtime(&self) -> bool {
        self.canonicalize_mtime
    }

    /// Whether entries get their extended attributes removed when they are
    /// unpacked.
    pub closed spec fn remove_xattrs(&self) -> bool {
        self.remove_xattrs
    }

    /// `self` is `before` after some reading: the same bytes and settings,
    /// and a position that is no earlier.
    pub open spec fn reads_on(&self, before: &Archive) -> bool {
        &&& self.bytes() == before.bytes()
        &&& self.canonicalize_mtime() == before.canonicalize_mtime()
        &&& self.remove_xattrs() == before.remove_xattrs()
        &&& before.position() <= self.position() <= self.bytes().len()
    }

    /// An archive over `reader`, not yet read, with both settings on.
    pub fn new(reader: Vec<u8>) -> (archive: Self)
        ensures
            archive.bytes() == reader@,
            archive.position() == 0,
            archive.canonicalize_mtime(),
            archive.remove_xattrs(),
    {
        Archive {
            canonicalize_mtime: true,
            remove_xattrs: true,
            inner: ArchiveInner { position: 0, reader },
        }
    }

    /// The bytes that the archive was made over.
    pub fn into_inner(self) -> (reader: Vec<u8>)
        ensures
            reader@ == self.bytes(),
    {
        self.inner.reader
    }

    /// Sets whether unpacked entries get the epoch as modification time.
    pub fn set_canonicalize_mtime(&mut self, canonicalize: bool)
        ensures
            final(self).canonicalize_mtime() == canonicalize,
            final(self).remove_xattrs() == old(self).remove_xattrs(),
            final(self).bytes() == old(self).bytes(),
            final(self).position() == old(self).position(),
    {
        proof {
            use_type_invariant(&*self);
        }
        self.canonicalize_mtime = canonicalize;
    }

    /// Sets whether unpacked entries lose their extended attributes.
    pub fn set_remove_xattrs(&mut self, remove: bool)
        ensures
            final(self).remove_xattrs() == remove,
            final(self).canonicalize_mtime() == old(self).canonicalize_mtime(),
            final(self).bytes() == old(self).bytes(),
            final(self).position() == old(self).position(),
    {
        proof {
            use_type_invariant(&*self);
        }
        self.remove_xattrs = remove;
    }

    /// Begins to read the archive: reads the magic text and gives the
    /// entries of the tree that follows. An archive that has been read from
    /// before is refused with `GetEntriesAfterRead`; a first frame that
    /// cannot be read, or is not the magic text, counts as read.
    pub fn entries<'a>(&'a mut self) -> (r: Result<Entries<'a>, Error>)
        ensures
            old(self).position() != 0 ==> (r matches Err(e) && e@ == ErrorView::GetEntriesAfterRead),
            r is Err ==> final(self).reads_on(old(self)) && final(self).position() == (if old(self).position() != 0 {
                old(self).position()
            } else {
                frame_end(old(self).bytes(), 0)
            }),
            old(self).position() == 0 ==> match archive_head(old(self).bytes()) {
                Err(e) => r matches Err(x) && x@ == e,
                Ok(_) => {
                    &&& r matches Ok(entries)
                    &&& entries.remaining() == archive_trace(old(self).bytes())
                    &&& entries.canonicalize_mtime() == old(self).canonicalize_mtime()
                    &&& entries.remove_xattrs() == old(self).remove_xattrs()
                },
            },
    {
        proof {
            use_type_invariant(&*self);
        }
        if self.inner.position != 0 {
            return Err(Error::GetEntriesAfterRead);
        }
        let text = match self.read_bytes_padded() {
            Ok(text) => text,
            Err(e) => {
                return Err(e);
            },
        };
        if !bytes_eq(text.as_slice(), array_as_slice(&NIX_VERSION_MAGIC)) {
            return Err(Error::InvalidMagic);
        }
        Ok(
            Entries {
                archive: self,
                stack: Vec::new(),
                started: false,
                finished: false,
                pending_close: false,
            },
        )
    }

    /// Reads one frame and gives its payload. Fails with `UnexpectedEof`
    /// where the bytes end inside the frame, and with `BadPadding` where a
    /// padding byte is not zero. What was looked at counts as read either way.
    #[verifier::loop_isolation(false)]
    pub fn read_bytes_padded(&mut self) -> (r: Result<Vec<u8>, Error>)
        ensures
            final(self).reads_on(old(self)),
            final(self).position() == frame_end(old(self).bytes(), old(self).position()),
            match read_frame(old(self).bytes(), old(self).position()) {
                Ok((payload, next)) => r matches Ok(data) && data@ == payload && next
                    == final(self).position() && next >= old(self).position() + 8,
                Err(e) => r matches Err(x) && x@ == e,
            },
    {
        proof {
            use_type_invariant(&*self);
            reveal(read_frame);
        }
        let total: usize = self.inner.reader.len();
        let pos: usize = self.inner.position;
        if total - pos < 8 {
            self.inner.position = total;
            return Err(Error::Io(IoErrorKind::UnexpectedEof));
        }
        let len: u64 = read_u64_le(self.inner.reader.as_slice(), pos);
        let avail: usize = total - pos - 8;
        if len > avail as u64 {
            self.inner.position = total;
            return Err(Error::Io(IoErrorKind::UnexpectedEof));
        }
        let len: usize = len as usize;
        let remainder: usize = len % PAD_LEN;
        let padding: usize = if remainder > 0 {
            PAD_LEN - remainder
        } else {
            0
        };
        if padding > avail - len {
            self.inner.position = total;
            return Err(Error::Io(IoErrorKind::UnexpectedEof));
        }
        let start: usize = pos + 8;
        let end: usize = start + len + padding;
        self.inner.position = end;
        let mut i: usize = start + len;
        while i < end
            invariant
                start + len <= i <= end <= total,
                total == self.inner.reader@.len(),
                self.inner.reader@ == old(self).inner.reader@,
                self.inner.position == end,
                self.canonicalize_mtime == old(self).canonicalize_mtime,
                self.remove_xattrs == old(self).remove_xattrs,
                forall|j: int| start + len <= j < i ==> self.inner.reader@[j] == 0u8,
            decreases end - i,
        {
            if self.inner.reader[i] != 0 {
                proof {
                    let s = self.inner.reader@;
                    let pad = s.subrange(start + len, end as int);
                    assert(pad[i - (start + len)] == s[i as int]);
                    assert(zeros(pad_len(len as nat))[i - (start + len)] == 0u8);
                }
                return Err(Error::BadPadding);
            }
            i += 1;
        }
        proof {
            let s = self.inner.reader@;
            assert(s.subrange(start + len, end as int) =~= zeros(pad_len(len as nat)));
        }
        let data = slice_to_vec(slice_subrange(self.inner.reader.as_slice(), start, start + len));
        Ok(data)
    }

    /// Reads one frame whose payload has to be UTF-8, and gives the text.
    /// Fails as `read_bytes_padded` does, and with `Utf8` where the payload
    /// is no UTF-8.
    pub fn read_utf8_padded(&mut self) -> (r: Result<String, Error>)
        ensures
            final(self).reads_on(old(self)),
            final(self).position() == frame_end(old(self).bytes(), old(self).position()),
            match read_text(old(self).bytes(), old(self).position()) {
                Ok((text, next)) => r matches Ok(t) && t@ == text && next == final(self).position() && next >= old(self).position() + 8,
                Err(e) => r matches Err(x) && x@ == e,
            },
    {
        let bytes = match self.read_bytes_padded() {
            Ok(bytes) => bytes,
            Err(e) => {
                return Err(e);
            },
        };
        match string_from_utf8(bytes) {
            Ok(text) => Ok(text),
            Err(e) => Err(Error::Utf8(e)),
        }
    }

    /// Reads one framed text, which has to be `tag`. Fails as
    /// `read_utf8_padded` does, and with `MissingTag` for another text.
    pub fn expect_tag(&mut self, tag: Tag) -> (r: Result<(), Error>)
        ensures
            final(self).reads_on(old(self)),
            final(self).position() == frame_end(old(self).bytes(), old(self).position()),
            match expect(old(self).bytes(), old(self).position(), tag) {
                Ok(next) => r is Ok && next == final(self).position() && next >= old(self).position() + 8,
                Err(e) => r matches Err(x) && x@ == e,
            },
    {
        let text = match self.read_utf8_padded() {
            Ok(text) => text,
            Err(e) => {
                return Err(e);
            },
        };
        if str_eq(text.as_str(), tag.into_str()) {
            Ok(())
        } else {
            Err(Error::MissingTag(tag))
        }
    }
}

impl Archive {
    /// Reads the node that stands at `path`, up to where its entry is due: a
    /// file or a link wholly, a directory up to its first child. Fails with
    /// the error that the grammar gives for the bytes.
    pub fn parse_node(&mut self, path: String) -> (r: Result<Entry, Error>)
        ensures
            final(self).reads_on(old(self)),
            match r {
                Ok(entry) => {
                    &&& entry@.name == path@
                    &&& entry.canonicalize_mtime() == old(self).canonicalize_mtime()
                    &&& entry.remove_xattrs() == old(self).remove_xattrs()
                    &&& old(self).position() < final(self).position()
                    &&& node_trace(old(self).bytes(), old(self).position(), path@) == if entry@.kind is Directory {
                        dir_trace(old(self).bytes(), final(self).position(), path@).after(
                            seq![entry@],
                        )
                    } else {
                        Trace::leaf(entry@, final(self).position())
                    }
                },
                Err(e) => node_trace(old(self).bytes(), old(self).position(), path@) == Trace::fail(
                    e@,
                ),
            },
    {
        proof {
            reveal(node_trace);
        }
        let ft = match self.read_head() {
            Ok(ft) => ft,
            Err(e) => {
                return Err(e);
            },
        };
        if str_eq(ft.as_str(), Tag::Regular.into_str()) {
            self.parse_regular(path)
        } else if str_eq(ft.as_str(), Tag::Symlink.into_str()) {
            self.parse_symlink(path)
        } else if str_eq(ft.as_str(), Tag::Directory.into_str()) {
            Ok(Entry::new(path, EntryKind::Directory, self))
        } else {
            Err(Error::UnknownFileType(ft))
        }
    }

    /// Reads `(`, `type` and the text that names the node's type.
    fn read_head(&mut self) -> (r: Result<String, Error>)
        ensures
            final(self).reads_on(old(self)),
            match node_head(old(self).bytes(), old(self).position()) {
                Ok((text, next)) => r matches Ok(t) && t@ == text && next == final(
                    self).position() && next > old(self).position(),
                Err(e) => r matches Err(x) && x@ == e,
            },
    {
        match self.expect_tag(Tag::Open) {
            Ok(()) => {},
            Err(e) => {
                return Err(e);
            },
        }
        match self.expect_tag(Tag::Type) {
            Ok(()) => {},
            Err(e) => {
                return Err(e);
            },
        }
        self.read_utf8_padded()
    }

    /// Reads a regular file behind its type marker.
    fn parse_regular(&mut self, path: String) -> (r: Result<Entry, Error>)
        ensures
            final(self).reads_on(old(self)),
            match r {
                Ok(entry) => {
                    &&& entry@.name == path@
                    &&& entry@.kind is Regular
                    &&& entry.canonicalize_mtime() == old(self).canonicalize_mtime()
                    &&& entry.remove_xattrs() == old(self).remove_xattrs()
                    &&& regular_trace(old(self).bytes(), old(self).position(), path@)
                        == Trace::leaf(entry@, final(self).position())
                },
                Err(e) => regular_trace(old(self).bytes(), old(self).position(), path@)
                    == Trace::fail(e@),
            },
    {
        let ghost s = self.bytes();
        let mut executable = false;
        let mut la = LookAhead::new();
        match la.fetch_from(self) {
            Ok(()) => {},
            Err(e) => {
                return Err(e);
            },
        }
        if la.eat_tag(Tag::Executable) {
            executable = true;
            if self.expect_tag(Tag::Empty).is_err() {
                return Err(Error::InvalidTag(Tag::Executable));
            }
            match la.fetch_from(self) {
                Ok(()) => {},
                Err(e) => {
                    return Err(e);
                },
            }
        }
        let ghost second = la.slot()->0;
        let ghost at = self.position();
        match la.expect_tag(Tag::Contents) {
            Ok(()) => {},
            Err(e) => {
                return Err(e);
            },
        }
        let data = match self.read_bytes_padded() {
            Ok(data) => data,
            Err(e) => {
                return Err(e);
            },
        };
        match self.expect_tag(Tag::Close) {
            Ok(()) => {},
            Err(e) => {
                return Err(e);
            },
        }
        let entry = Entry::new(path, EntryKind::Regular { executable, data }, self);
        assert(contents_trace(s, second, at, path@, executable) == Trace::leaf(
            entry@,
            self.position(),
        ));
        Ok(entry)
    }

    /// Reads a symbolic link behind its type marker.
    fn parse_symlink(&mut self, path: String) -> (r: Result<Entry, Error>)
        ensures
            final(self).reads_on(old(self)),
            match r {
                Ok(entry) => {
                    &&& entry@.name == path@
                    &&& entry@.kind is Symlink
                    &&& entry.canonicalize_mtime() == old(self).canonicalize_mtime()
                    &&& entry.remove_xattrs() == old(self).remove_xattrs()
                    &&& symlink_trace(old(self).bytes(), old(self).position(), path@)
                        == Trace::leaf(entry@, final(self).position())
                },
                Err(e) => symlink_trace(old(self).bytes(), old(self).position(), path@)
                    == Trace::fail(e@),
            },
    {
        match self.expect_tag(Tag::Target) {
            Ok(()) => {},
            Err(e) => {
                return Err(e);
            },
        }
        let target = match self.read_utf8_padded() {
            Ok(target) => target,
            Err(e) => {
                return Err(e);
            },
        };
        match self.expect_tag(Tag::Close) {
            Ok(()) => {},
            Err(e) => {
                return Err(e);
            },
        }
        Ok(Entry::new(path, EntryKind::Symlink { target }, self))
    }
}

/// The entries of an archive, handed out one at a time while the archive is
/// read: every node before what is below it.
pub struct Entries<'a> {
    archive: &'a mut Archive,
    stack: Vec<String>,
    started: bool,
    finished: bool,
    pending_close: bool,
}

impl<'a> Entries<'a> {
    /// The paths of the directories that are open, outermost first.
    closed spec fn paths(&self) -> Seq<Seq<char>> {
        self.stack@.map_values(|p: String| p@)
    }

    /// What is still to come: the entries that `next` will hand out, in
    /// order, and the error that follows them, if any.
    pub closed spec fn remaining(&self) -> Trace {
        if self.finished {
            Trace::done(self.archive.position())
        } else if !self.started {
            node_trace(self.archive.bytes(), self.archive.position(), Seq::empty())
        } else {
            resume(self.archive.bytes(), self.archive.position(), self.paths(), self.pending_close)
        }
    }

    /// The setting that the entries take along.
    pub closed spec fn canonicalize_mtime(&self) -> bool {
        self.archive.canonicalize_mtime()
    }

    /// The setting that the entries take along.
    pub closed spec fn remove_xattrs(&self) -> bool {
        self.archive.remove_xattrs()
    }

    /// `self` is `before` after some reading: nothing but the position, the
    /// open directories and the pending `)` may differ.
    closed spec fn follows(&self, before: &Self) -> bool {
        &&& self.archive.bytes() == before.archive.bytes()
        &&& self.archive.canonicalize_mtime() == before.archive.canonicalize_mtime()
        &&& self.archive.remove_xattrs() == before.archive.remove_xattrs()
        &&& self.started == before.started
        &&& self.finished == before.finished
    }

    /// Hands out the next entry, or the error that reading ran into, or
    /// `None` where the tree has been read to its end. After an error and
    /// after `None`, `None` is all that comes.
    pub fn next(&mut self) -> (r: Option<Result<Entry, Error>>)
        ensures
            final(self).canonicalize_mtime() == old(self).canonicalize_mtime(),
            final(self).remove_xattrs() == old(self).remove_xattrs(),
            match r {
                None => {
                    &&& old(self).remaining().entries.len() == 0
                    &&& old(self).remaining().end is Ok
                    &&& final(self).remaining().entries.len() == 0
                    &&& final(self).remaining().end is Ok
                },
                Some(Ok(entry)) => {
                    &&& old(self).remaining().entries.len() > 0
                    &&& entry@ == old(self).remaining().entries[0]
                    &&& entry.canonicalize_mtime() == old(self).canonicalize_mtime()
                    &&& entry.remove_xattrs() == old(self).remove_xattrs()
                    &&& final(self).remaining() == old(self).remaining().rest()
                },
                Some(Err(e)) => {
                    &&& old(self).remaining() == Trace::fail(e@)
                    &&& final(self).remaining().entries.len() == 0
                    &&& final(self).remaining().end is Ok
                },
            },
    {
        if self.finished {
            return None;
        }
        if !self.started {
            return Some(self.start());
        }
        loop
            invariant
                self.started,
                !self.finished,
                self.follows(old(self)),
                self.remaining() == old(self).remaining(),
            decreases self.stack.len(),
        {
            proof {
                lemma_resume_empty(
                    self.archive.bytes(),
                    self.archive.position(),
                    self.pending_close,
                );
                if self.stack.len() == 0 {
                    assert(self.paths() =~= Seq::<Seq<char>>::empty());
                }
            }
            if self.stack.len() == 0 {
                self.finished = true;
                return None;
            }
            if self.pending_close {
                proof {
                    lemma_resume_pending(
                        self.archive.bytes(),
                        self.archive.position(),
                        self.paths(),
                    );
                }
                match self.archive.expect_tag(Tag::Close) {
                    Ok(()) => {
                        self.pending_close = false;
                    },
                    Err(e) => {
                        self.finished = true;
                        return Some(Err(e));
                    },
                }
            }
            match self.advance() {
                Some(r) => {
                    return Some(r);
                },
                None => {},
            }
        }
    }

    /// Reads the root node and hands out its entry.
    fn start(&mut self) -> (r: Result<Entry, Error>)
        requires
            !old(self).started,
            !old(self).finished,
        ensures
            final(self).archive.reads_on(old(self).archive),
            match r {
                Ok(entry) => {
                    &&& old(self).remaining().entries.len() > 0
                    &&& entry@ == old(self).remaining().entries[0]
                    &&& entry.canonicalize_mtime() == old(self).canonicalize_mtime()
                    &&& entry.remove_xattrs() == old(self).remove_xattrs()
                    &&& final(self).remaining() == old(self).remaining().rest()
                },
                Err(e) => {
                    &&& old(self).remaining() == Trace::fail(e@)
                    &&& final(self).finished
                },
            },
    {
        let ghost s = self.archive.bytes();
        self.started = true;
        self.pending_close = false;
        self.stack = Vec::new();
        match self.archive.parse_node(String::new()) {
            Ok(entry) => {
                if entry.is_dir() {
                    self.stack.push(String::new());
                    proof {
                        let pos = self.archive.position();
                        let dir = dir_trace(s, pos, Seq::empty());
                        lemma_resume_enter(s, pos, Seq::empty(), Seq::empty());
                        assert(self.paths() =~= Seq::<Seq<char>>::empty().push(Seq::empty()));
                        assert(dir.after(seq![entry@]).rest().entries =~= dir.entries);
                        assert(dir.entries + Seq::<EntryView>::empty() =~= dir.entries);
                        match dir.end {
                            Ok(at1) => {
                                lemma_resume_empty(s, at1, false);
                            },
                            Err(_) => {},
                        }
                    }
                } else {
                    proof {
                        let pos = self.archive.position();
                        assert(Trace::leaf(entry@, pos).rest().entries =~= Seq::<
                            EntryView,
                        >::empty());
                        assert(self.paths() =~= Seq::<Seq<char>>::empty());
                        lemma_resume_empty(s, pos, false);
                    }
                }
                Ok(entry)
            },
            Err(e) => {
                self.finished = true;
                Err(e)
            },
        }
    }

    /// Reads on in the innermost open directory: hands out its next child,
    /// or closes it and hands out nothing.
    fn advance(&mut self) -> (r: Option<Result<Entry, Error>>)
        requires
            old(self).started,
            !old(self).finished,
            !old(self).pending_close,
            old(self).stack@.len() > 0,
        ensures
            final(self).archive.reads_on(old(self).archive),
            final(self).started,
            match r {
                None => {
                    &&& !final(self).finished
                    &&& final(self).stack@.len() < old(self).stack@.len()
                    &&& final(self).remaining() == old(self).remaining()
                },
                Some(Ok(entry)) => {
                    &&& !final(self).finished
                    &&& old(self).remaining().entries.len() > 0
                    &&& entry@ == old(self).remaining().entries[0]
                    &&& entry.canonicalize_mtime() == old(self).canonicalize_mtime()
                    &&& entry.remove_xattrs() == old(self).remove_xattrs()
                    &&& final(self).remaining() == old(self).remaining().rest()
                },
                Some(Err(e)) => {
                    &&& final(self).finished
                    &&& old(self).remaining() == Trace::fail(e@)
                },
            },
    {
        let ghost s = self.archive.bytes();
        let ghost paths = self.paths();
        proof {
            lemma_resume_step(s, self.archive.position(), paths);
        }
        let marker = match self.archive.read_utf8_padded() {
            Ok(marker) => marker,
            Err(e) => {
                self.finished = true;
                return Some(Err(e));
            },
        };
        if str_eq(marker.as_str(), Tag::Entry.into_str()) {
            let name = match self.read_entry_head() {
                Ok(name) => name,
                Err(e) => {
                    self.finished = true;
                    return Some(Err(e));
                },
            };
            Some(self.enter(name))
        } else if str_eq(marker.as_str(), Tag::Close.into_str()) {
            self.stack.pop();
            if self.stack.len() > 0 {
                self.pending_close = true;
            }
            proof {
                assert(self.paths() =~= paths.drop_last());
            }
            None
        } else {
            self.finished = true;
            Some(Err(Error::InvalidDirEntry))
        }
    }

    /// Reads the node of the child `name` of the innermost open directory
    /// and hands out its entry.
    fn enter(&mut self, name: String) -> (r: Result<Entry, Error>)
        requires
            old(self).started,
            !old(self).finished,
            !old(self).pending_close,
            old(self).stack@.len() > 0,
        ensures
            final(self).archive.reads_on(old(self).archive),
            final(self).started,
            ({
                let child = node_trace(
                    old(self).archive.bytes(),
                    old(self).archive.position(),
                    join(old(self).paths().last(), name@),
                );
                let whole = match child.end {
                    Err(_) => child,
                    Ok(p) => resume(old(self).archive.bytes(), p, old(self).paths(), true).after(
                        child.entries,
                    ),
                };
                match r {
                    Ok(entry) => {
                        &&& !final(self).finished
                        &&& whole.entries.len() > 0
                        &&& entry@ == whole.entries[0]
                        &&& entry.canonicalize_mtime() == old(self).canonicalize_mtime()
                        &&& entry.remove_xattrs() == old(self).remove_xattrs()
                        &&& final(self).remaining() == whole.rest()
                    },
                    Err(e) => {
                        &&& final(self).finished
                        &&& whole == Trace::fail(e@)
                    },
                }
            }),
    {
        let ghost s = self.archive.bytes();
        let ghost paths = self.paths();
        let depth: usize = self.stack.len();
        let child = join_path(self.stack[depth - 1].as_str(), name.as_str());
        assert(child@ == join(paths.last(), name@));
        match self.archive.parse_node(child.clone()) {
            Ok(entry) => {
                let ghost body = self.archive.position();
                if entry.is_dir() {
                    self.stack.push(child);
                    proof {
                        let dir = dir_trace(s, body, child@);
                        lemma_resume_enter(s, body, paths, child@);
                        assert(self.paths() =~= paths.push(child@));
                        match dir.end {
                            Err(_) => {
                                assert(dir.after(seq![entry@]).rest().entries =~= dir.entries);
                            },
                            Ok(at3) => {
                                let tail = resume(s, at3, paths, true);
                                assert(tail.after(seq![entry@] + dir.entries).rest().entries
                                    =~= dir.entries + tail.entries);
                            },
                        }
                    }
                } else {
                    self.pending_close = true;
                    proof {
                        let tail = resume(s, body, paths, true);
                        assert(self.paths() == paths);
                        assert(tail.after(seq![entry@]).rest().entries =~= tail.entries);
                    }
                }
                Ok(entry)
            },
            Err(e) => {
                self.finished = true;
                Err(e)
            },
        }
    }

    /// Reads what follows the marker `entry` and gives the child's name.
    fn read_entry_head(&mut self) -> (r: Result<String, Error>)
        ensures
            final(self).archive.reads_on(old(self).archive),
            final(self).stack == old(self).stack,
            final(self).started == old(self).started,
            final(self).finished == old(self).finished,
            final(self).pending_close == old(self).pending_close,
            match entry_head(old(self).archive.bytes(), old(self).archive.position()) {
                Ok((name, next)) => r matches Ok(n) && n@ == name && next == final(
                    self).archive.position(),
                Err(e) => r matches Err(x) && x@ == e,
            },
    {
        match self.archive.expect_tag(Tag::Open) {
            Ok(()) => {},
            Err(e) => {
                return Err(e);
            },
        }
        match self.archive.expect_tag(Tag::Name) {
            Ok(()) => {},
            Err(e) => {
                return Err(e);
            },
        }
        let name = match self.archive.read_utf8_padded() {
            Ok(name) => name,
            Err(e) => {
                return Err(e);
            },
        };
        match check_name(name.as_str()) {
            Ok(()) => {},
            Err(e) => {
                return Err(e);
            },
        }
        match self.archive.expect_tag(Tag::Node) {
            Ok(()) => {},
            Err(e) => {
                return Err(e);
            },
        }
        Ok(name)
    }
}

/// `str::contains` of std with a `char` as the pattern. It is taken on
/// trust that it says whether `c` occurs in `text`.
#[verifier::external_body]
fn str_contains_char(text: &str, c: char) -> (r: bool)
    ensures
        r == text@.contains(c),
{
    text.contains(c)
}

/// Tests a name that was read as the name of a directory's child.
pub fn check_name(name: &str) -> (r: Result<(), Error>)
    ensures
        match name_error(name@) {
            None => r is Ok,
            Some(e) => r matches Err(x) && x@ == e,
        },
{
    proof {
        reveal_strlit("");
        reveal_strlit("~");
        reveal_strlit(".");
        reveal_strlit("..");
        assert(""@ =~= Seq::<char>::empty());
        assert("~"@ =~= seq!['~']);
        assert("."@ =~= seq!['.']);
        assert(".."@ =~= seq!['.', '.']);
    }
    if str_eq(name, "") {
        Err(Error::InvalidDirEntryName(""))
    } else if str_eq(name, "~") {
        Err(Error::InvalidDirEntryName("~"))
    } else if str_eq(name, ".") {
        Err(Error::InvalidDirEntryName("."))
    } else if str_eq(name, "..") {
        Err(Error::InvalidDirEntryName(".."))
    } else if str_contains_char(name, '/') {
        Err(Error::InvalidDirEntryChar('/'))
    } else {
        Ok(())
    }
}

/// The path of the child `name` of the directory at `path`.
pub fn join_path(path: &str, name: &str) -> (r: String)
    ensures
        r@ == join(path@, name@),
{
    if path.is_empty() {
        String::from_str(name)
    } else {
        proof {
            reveal_strlit("/");
            assert("/"@ =~= seq!['/']);
        }
        String::from_str(path).concat("/").concat(name)
    }
}

/// What an entry holds besides its path.
#[derive(Debug)]
pub enum EntryKind {
    Directory,
    Regular { executable: bool, data: Vec<u8> },
    Symlink { target: String },
}

impl EntryKind {
    /// A copy of `self`.
    pub fn duplicate(&self) -> (copy: EntryKind)
        ensures
            copy@ == self@,
    {
        match self {
            EntryKind::Directory => EntryKind::Directory,
            EntryKind::Regular { executable, data } => EntryKind::Regular {
                executable: *executable,
                data: slice_to_vec(data.as_slice()),
            },
            EntryKind::Symlink { target } => EntryKind::Symlink { target: target.clone() },
        }
    }
}

impl From<EntryKind> for Tag {
    fn from(kind: EntryKind) -> (tag: Tag) {
        match kind {
            EntryKind::Directory => Tag::Directory,
            EntryKind::Regular { .. } => Tag::Regular,
            EntryKind::Symlink { .. } => Tag::Symlink,
        }
    }
}

impl vstd::std_specs::convert::FromSpecImpl<EntryKind> for Tag {
    open spec fn obeys_from_spec() -> bool {
        true
    }

    /// The marker that names the type of a node with these contents.
    open spec fn from_spec(kind: EntryKind) -> Tag {
        match kind {
            EntryKind::Directory => Tag::Directory,
            EntryKind::Regular { .. } => Tag::Regular,
            EntryKind::Symlink { .. } => Tag::Symlink,
        }
    }
}

impl View for EntryKind {
    type V = EntryKindView;

    open spec fn view(&self) -> EntryKindView {
        match *self {
            EntryKind::Directory => EntryKindView::Directory,
            EntryKind::Regular { executable, data } => EntryKindView::Regular {
                executable,
                data: data@,
            },
            EntryKind::Symlink { target } => EntryKindView::Symlink { target: target@ },
        }
    }
}

/// One node of an archive's tree, as the reader hands it out: its path below
/// the root, what stands there, and the settings for unpacking it.
#[derive(Debug)]
pub struct Entry {
    name: String,
    kind: EntryKind,
    canonicalize_mtime: bool,
    remove_xattrs: bool,
}

impl View for Entry {
    type V = EntryView;

    closed spec fn view(&self) -> EntryView {
        EntryView { name: self.name@, kind: self.kind@ }
    }
}

impl Entry {
    /// Whether unpacking sets the modification time to the epoch.
    pub closed spec fn canonicalize_mtime(&self) -> bool {
        self.canonicalize_mtime
    }

    /// Whether unpacking removes the extended attributes.
    pub closed spec fn remove_xattrs(&self) -> bool {
        self.remove_xattrs
    }

    /// The entry at `name` that holds `kind`, with the settings of `archive`.
    pub fn new(name: String, kind: EntryKind, archive: &Archive) -> (entry: Self)
        ensures
            entry@ == (EntryView { name: name@, kind: kind@ }),
            entry.canonicalize_mtime() == archive.canonicalize_mtime(),
            entry.remove_xattrs() == archive.remove_xattrs(),
    {
        Entry {
            name,
            kind,
            canonicalize_mtime: archive.canonicalize_mtime,
            remove_xattrs: archive.remove_xattrs,
        }
    }

    /// The entry's path below the archive's root; empty for the root.
    pub fn name(&self) -> (name: &str)
        ensures
            name@ == self@.name,
    {
        self.name.as_str()
    }

    /// What the entry holds.
    pub fn kind(&self) -> (kind: &EntryKind)
        ensures
            kind@ == self@.kind,
    {
        &self.kind
    }

    /// The settings for unpacking the entry: whether the modification time
    /// is set to the epoch, and whether the extended attributes are removed.
    pub fn settings(&self) -> (r: (bool, bool))
        ensures
            r.0 == self.canonicalize_mtime(),
            r.1 == self.remove_xattrs(),
    {
        (self.canonicalize_mtime, self.remove_xattrs)
    }

    /// Whether the entry is a directory.
    pub fn is_dir(&self) -> (r: bool)
        ensures
            r == (self@.kind is Directory),
    {
        match &self.kind {
            EntryKind::Directory => true,
            _ => false,
        }
    }

    /// Whether the entry is a regular file that is executable.
    pub fn is_executable(&self) -> (r: bool)
        ensures
            r == (self@.kind matches EntryKindView::Regular { executable, .. } && executable),
    {
        match &self.kind {
            EntryKind::Regular { executable, .. } => *executable,
            _ => false,
        }
    }

    /// Whether the entry is a regular file that is not executable.
    pub fn is_file(&self) -> (r: bool)
        ensures
            r == (self@.kind matches EntryKindView::Regular { executable, .. } && !executable),
    {
        match &self.kind {
            EntryKind::Regular { executable, .. } => !*executable,
            _ => false,
        }
    }

    /// Whether the entry is a symbolic link.
    pub fn is_symlink(&self) -> (r: bool)
        ensures
            r == (self@.kind is Symlink),
    {
        match &self.kind {
            EntryKind::Symlink { .. } => true,
            _ => false,
        }
    }

    /// Sets whether unpacking sets the modification time to the epoch.
    pub fn set_canonicalize_mtime(&mut self, canonicalize: bool)
        ensures
            final(self).canonicalize_mtime() == canonicalize,
            final(self).remove_xattrs() == old(self).remove_xattrs(),
            final(self)@ == old(self)@,
    {
        self.canonicalize_mtime = canonicalize;
    }

    /// Sets whether unpacking removes the extended attributes.
    pub fn set_remove_xattrs(&mut self, remove: bool)
        ensures
            final(self).remove_xattrs() == remove,
            final(self).canonicalize_mtime() == old(self).canonicalize_mtime(),
            final(self)@ == old(self)@,
    {
        self.remove_xattrs = remove;
    }
}

/// One text that was read ahead of its use, or nothing.
#[derive(Debug)]
pub struct LookAhead(Option<String>);

impl Default for LookAhead {
    fn default() -> (la: Self)
        ensures
            la.slot() is None,
    {
        LookAhead(None)
    }
}

impl LookAhead {
    /// The text that is held, if any.
    pub closed spec fn slot(&self) -> Option<Seq<char>> {
        match self.0 {
            Some(text) => Some(text@),
            None => None,
        }
    }

    /// A look-ahead that holds nothing.
    pub fn new() -> (la: Self)
        ensures
            la.slot() is None,
    {
        LookAhead(None)
    }

    /// Reads the next text of `archive` into the empty slot. Where the read
    /// fails the slot stays empty.
    pub fn fetch_from(&mut self, archive: &mut Archive) -> (r: Result<(), Error>)
        requires
            old(self).slot() is None,
        ensures
            final(archive).reads_on(old(archive)),
            final(archive).position() == frame_end(old(archive).bytes(), old(archive).position()),
            match read_text(old(archive).bytes(), old(archive).position()) {
                Ok((text, next)) => r is Ok && final(self).slot() == Some(text) && next == final(archive).position() && next >= old(archive).position() + 8,
                Err(e) => r matches Err(x) && x@ == e && final(self).slot() is None,
            },
    {
        match archive.read_utf8_padded() {
            Ok(text) => {
                self.0 = Some(text);
                Ok(())
            },
            Err(e) => Err(e),
        }
    }

    /// Takes the held text where it is `tag`, and fails with `MissingTag`
    /// where it is another or none; the slot is then left as it was.
    pub fn expect_tag(&mut self, tag: Tag) -> (r: Result<(), Error>)
        ensures
            r is Ok <==> old(self).slot() == Some(tag.text()),
            r is Ok ==> final(self).slot() is None,
            r matches Err(e) ==> e@ == ErrorView::MissingTag(tag) && final(self).slot() == old(self).slot(),
    {
        if self.eat_tag(tag) {
            Ok(())
        } else {
            Err(Error::MissingTag(tag))
        }
    }

    /// Whether the held text is `tag`; if so it is taken, else the slot is
    /// left as it was.
    pub fn eat_tag(&mut self, tag: Tag) -> (eaten: bool)
        ensures
            eaten == (old(self).slot() == Some(tag.text())),
            eaten ==> final(self).slot() is None,
            !eaten ==> final(self).slot() == old(self).slot(),
    {
        if let Some(x) = self.0.take() {
            if str_eq(x.as_str(), tag.into_str()) {
                return true;
            }
            self.0 = Some(x);
        }
        false
    }
}

} // verus!
