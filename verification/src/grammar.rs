//! What a reader makes of a byte string: the entries it yields, in order,
//! and how it ends.

use vstd::prelude::*;
use vstd::utf8::*;
use crate::error::ErrorView;
use crate::frame::{magic, read_frame};
use crate::tag::Tag;

verus! {

/// What an entry holds besides its path.
pub enum EntryKindView {
    Directory,
    Regular { executable: bool, data: Seq<u8> },
    Symlink { target: Seq<char> },
}

/// An entry as a mathematical value: the path below the archive's root
/// (empty for the root itself) and what stands there.
pub struct EntryView {
    pub name: Seq<char>,
    pub kind: EntryKindView,
}

/// The entries that reading yields, and how reading ends: at a position, or
/// with an error once the entries have been handed out.
pub struct Trace {
    pub entries: Seq<EntryView>,
    pub end: Result<int, ErrorView>,
}

impl Trace {
    /// Nothing is yielded and reading fails with `e`.
    pub open spec fn fail(e: ErrorView) -> Trace {
        Trace { entries: Seq::empty(), end: Err(e) }
    }

    /// Nothing is yielded and reading stops at `pos`.
    pub open spec fn done(pos: int) -> Trace {
        Trace { entries: Seq::empty(), end: Ok(pos) }
    }

    /// One entry is yielded and reading stops at `pos`.
    pub open spec fn leaf(entry: EntryView, pos: int) -> Trace {
        Trace { entries: seq![entry], end: Ok(pos) }
    }

    /// `first`, then all of `self`.
    pub open spec fn after(self, first: Seq<EntryView>) -> Trace {
        Trace { entries: first + self.entries, end: self.end }
    }

    /// `self` without its first entry.
    pub open spec fn rest(self) -> Trace {
        Trace { entries: self.entries.skip(1), end: self.end }
    }
}

/// Reading one framed text at `pos`: the text and the position behind it, the
/// frame's own error, or `Utf8` where the payload is not UTF-8.
pub open spec fn read_text(s: Seq<u8>, pos: int) -> Result<(Seq<char>, int), ErrorView> {
    match read_frame(s, pos) {
        Err(e) => Err(e),
        Ok((payload, next)) => if valid_utf8(payload) {
            Ok((decode_utf8(payload), next))
        } else {
            Err(ErrorView::Utf8)
        },
    }
}

/// Reading one framed text at `pos` that has to be `tag`: the position behind
/// it, the error of the read, or `MissingTag`.
pub open spec fn expect(s: Seq<u8>, pos: int, tag: Tag) -> Result<int, ErrorView> {
    match read_text(s, pos) {
        Err(e) => Err(e),
        Ok((text, next)) => if text == tag.text() {
            Ok(next)
        } else {
            Err(ErrorView::MissingTag(tag))
        },
    }
}

/// Why `name` cannot name a directory's child, if it cannot: it is empty,
/// `~`, `.` or `..`, or holds a `/`.
pub open spec fn name_error(name: Seq<char>) -> Option<ErrorView> {
    if name == Seq::<char>::empty() {
        Some(ErrorView::InvalidDirEntryName(seq![]))
    } else if name == seq!['~'] {
        Some(ErrorView::InvalidDirEntryName(seq!['~']))
    } else if name == seq!['.'] {
        Some(ErrorView::InvalidDirEntryName(seq!['.']))
    } else if name == seq!['.', '.'] {
        Some(ErrorView::InvalidDirEntryName(seq!['.', '.']))
    } else if name.contains('/') {
        Some(ErrorView::InvalidDirEntryChar('/'))
    } else {
        None
    }
}

/// The path of the child `name` of the directory at `path`.
pub open spec fn join(path: Seq<char>, name: Seq<char>) -> Seq<char> {
    if path.len() == 0 {
        name
    } else {
        path + seq!['/'] + name
    }
}

/// Reading what follows the marker `entry`: `(`, `name`, the child's name,
/// which has to be valid, and `node`. Gives the name and the position of the
/// child's node.
pub open spec fn entry_head(s: Seq<u8>, pos: int) -> Result<(Seq<char>, int), ErrorView> {
    match expect(s, pos, Tag::Open) {
        Err(e) => Err(e),
        Ok(at1) => match expect(s, at1, Tag::Name) {
            Err(e) => Err(e),
            Ok(at2) => match read_text(s, at2) {
                Err(e) => Err(e),
                Ok((name, at3)) => match name_error(name) {
                    Some(e) => Err(e),
                    None => match expect(s, at3, Tag::Node) {
                        Err(e) => Err(e),
                        Ok(at4) => Ok((name, at4)),
                    },
                },
            },
        },
    }
}

/// Reading a regular file from its marker `contents` on, where `lookahead`
/// is the text that was read in that marker's place.
pub open spec fn contents_trace(
    s: Seq<u8>,
    lookahead: Seq<char>,
    pos: int,
    path: Seq<char>,
    executable: bool,
) -> Trace {
    if lookahead != Tag::Contents.text() {
        Trace::fail(ErrorView::MissingTag(Tag::Contents))
    } else {
        match read_frame(s, pos) {
            Err(e) => Trace::fail(e),
            Ok((data, at1)) => match expect(s, at1, Tag::Close) {
                Err(e) => Trace::fail(e),
                Ok(at2) => Trace::leaf(
                    EntryView { name: path, kind: EntryKindView::Regular { executable, data } },
                    at2,
                ),
            },
        }
    }
}

/// Reading a regular file behind its type marker. Whatever goes wrong with
/// the empty text behind `executable` is reported as `InvalidTag`.
pub open spec fn regular_trace(s: Seq<u8>, pos: int, path: Seq<char>) -> Trace {
    match read_text(s, pos) {
        Err(e) => Trace::fail(e),
        Ok((first, at1)) => if first == Tag::Executable.text() {
            match expect(s, at1, Tag::Empty) {
                Err(_) => Trace::fail(ErrorView::InvalidTag(Tag::Executable)),
                Ok(at2) => match read_text(s, at2) {
                    Err(e) => Trace::fail(e),
                    Ok((second, at3)) => contents_trace(s, second, at3, path, true),
                },
            }
        } else {
            contents_trace(s, first, at1, path, false)
        },
    }
}

/// Reading a symbolic link behind its type marker.
pub open spec fn symlink_trace(s: Seq<u8>, pos: int, path: Seq<char>) -> Trace {
    match expect(s, pos, Tag::Target) {
        Err(e) => Trace::fail(e),
        Ok(at1) => match read_text(s, at1) {
            Err(e) => Trace::fail(e),
            Ok((target, at2)) => match expect(s, at2, Tag::Close) {
                Err(e) => Trace::fail(e),
                Ok(at3) => Trace::leaf(
                    EntryView { name: path, kind: EntryKindView::Symlink { target } },
                    at3,
                ),
            },
        },
    }
}

/// Reading `(`, `type` and the type's text: the text and the position of
/// the node's body.
pub open spec fn node_head(s: Seq<u8>, pos: int) -> Result<(Seq<char>, int), ErrorView> {
    match expect(s, pos, Tag::Open) {
        Err(e) => Err(e),
        Ok(at1) => match expect(s, at1, Tag::Type) {
            Err(e) => Err(e),
            Ok(at2) => read_text(s, at2),
        },
    }
}

/// Reading the node at `pos`, which stands at `path`: the node itself first,
/// then, for a directory, all that is below it.
#[verifier::opaque]
pub open spec fn node_trace(s: Seq<u8>, pos: int, path: Seq<char>) -> Trace
    decreases s.len() - pos, 1int,
{
    proof {
        reveal(read_frame);
    }
    match node_head(s, pos) {
        Err(e) => Trace::fail(e),
        Ok((ty, body)) => if ty == Tag::Regular.text() {
            regular_trace(s, body, path)
        } else if ty == Tag::Symlink.text() {
            symlink_trace(s, body, path)
        } else if ty == Tag::Directory.text() {
            dir_trace(s, body, path).after(
                seq![EntryView { name: path, kind: EntryKindView::Directory }],
            )
        } else {
            Trace::fail(ErrorView::UnknownFileType(ty))
        },
    }
}

/// Reading the rest of the directory at `path` from `pos` on: child after
/// child, up to and with the `)` that closes the directory.
#[verifier::opaque]
pub open spec fn dir_trace(s: Seq<u8>, pos: int, path: Seq<char>) -> Trace
    decreases s.len() - pos, 0int,
{
    proof {
        reveal(read_frame);
    }
    match read_text(s, pos) {
        Err(e) => Trace::fail(e),
        Ok((marker, at1)) => if marker == Tag::Entry.text() {
            match entry_head(s, at1) {
                Err(e) => Trace::fail(e),
                Ok((name, at2)) => {
                    let child = node_trace(s, at2, join(path, name));
                    match child.end {
                        Err(_) => child,
                        // A node never ends before it begins (see
                        // `lemma_node_advances`); the test is what makes
                        // this definition well-founded.
                        Ok(at3) => if at2 <= at3 <= s.len() {
                            close_trace(s, at3, path).after(child.entries)
                        } else {
                            child
                        },
                    }
                },
            }
        } else if marker == Tag::Close.text() {
            Trace::done(at1)
        } else {
            Trace::fail(ErrorView::InvalidDirEntry)
        },
    }
}

/// Reading the `)` that closes a child of the directory at `path`, and then
/// the rest of that directory.
#[verifier::opaque]
pub open spec fn close_trace(s: Seq<u8>, pos: int, path: Seq<char>) -> Trace
    decreases s.len() - pos, 1int,
{
    proof {
        reveal(read_frame);
    }
    match expect(s, pos, Tag::Close) {
        Err(e) => Trace::fail(e),
        Ok(at1) => dir_trace(s, at1, path),
    }
}

/// Reading on where a child of the innermost open directory has just been
/// read (`pending_close`: its closing `)` is still to come) or where the next
/// child is due. `stack` holds the paths of the open directories, outermost
/// first; reading stops when the outermost one is closed.
#[verifier::opaque]
pub open spec fn resume(s: Seq<u8>, pos: int, stack: Seq<Seq<char>>, pending_close: bool) -> Trace
    decreases stack.len(), (if pending_close { 1int } else { 0int }),
{
    if stack.len() == 0 {
        Trace::done(pos)
    } else if pending_close {
        match expect(s, pos, Tag::Close) {
            Err(e) => Trace::fail(e),
            Ok(at1) => resume(s, at1, stack, false),
        }
    } else {
        let dir = dir_trace(s, pos, stack.last());
        match dir.end {
            Err(_) => dir,
            Ok(at1) => resume(s, at1, stack.drop_last(), stack.len() > 1).after(dir.entries),
        }
    }
}

/// Reading the frame that every archive begins with: the position behind
/// it, the frame's own error, or `InvalidMagic` for another payload.
pub open spec fn archive_head(s: Seq<u8>) -> Result<int, ErrorView> {
    match read_frame(s, 0) {
        Err(e) => Err(e),
        Ok((text, pos)) => if text == magic() {
            Ok(pos)
        } else {
            Err(ErrorView::InvalidMagic)
        },
    }
}

/// Reading a whole archive: the framed magic text, then the root node at the
/// empty path. What follows the root node is not looked at.
pub open spec fn archive_trace(s: Seq<u8>) -> Trace {
    match archive_head(s) {
        Err(e) => Trace::fail(e),
        Ok(pos) => node_trace(s, pos, Seq::empty()),
    }
}

/// A read that succeeds ends behind where it began, inside the bytes.
pub proof fn lemma_read_advances(s: Seq<u8>, pos: int)
    ensures
        read_frame(s, pos) matches Ok((_, p)) ==> pos + 8 <= p <= s.len(),
        read_text(s, pos) matches Ok((_, p)) ==> pos + 8 <= p <= s.len(),
        forall|tag: Tag| #[trigger] expect(s, pos, tag) matches Ok(p) ==> pos + 8 <= p <= s.len(),
        node_head(s, pos) matches Ok((_, p)) ==> pos + 24 <= p <= s.len(),
{
    reveal(read_frame);
}

/// The head of a child that reads well ends behind where it began, inside
/// the bytes.
pub proof fn lemma_entry_head_advances(s: Seq<u8>, pos: int)
    ensures
        entry_head(s, pos) matches Ok((_, p)) ==> pos + 32 <= p <= s.len(),
{
    reveal(read_frame);
}

/// A node that is read to its end ends behind where it began.
pub proof fn lemma_node_advances(s: Seq<u8>, pos: int, path: Seq<char>)
    ensures
        node_trace(s, pos, path).end matches Ok(p) ==> pos < p <= s.len(),
    decreases s.len() - pos, 1int,
{
    reveal(node_trace);
    reveal(dir_trace);
    lemma_read_advances(s, pos);
    match node_head(s, pos) {
        Ok((ty, body)) => {
            if ty == Tag::Regular.text() {
                lemma_leaf_advances(s, body, path);
            } else if ty == Tag::Symlink.text() {
                lemma_leaf_advances(s, body, path);
            } else if ty == Tag::Directory.text() {
                lemma_dir_advances(s, body, path);
            }
        },
        Err(_) => {},
    }
}

/// A file or a link that is read to its end ends behind where its body
/// began.
pub proof fn lemma_leaf_advances(s: Seq<u8>, pos: int, path: Seq<char>)
    ensures
        regular_trace(s, pos, path).end matches Ok(p) ==> pos < p <= s.len(),
        symlink_trace(s, pos, path).end matches Ok(p) ==> pos < p <= s.len(),
{
    reveal(read_frame);
}

/// The rest of a directory that is read to its end ends behind where it
/// began.
pub proof fn lemma_dir_advances(s: Seq<u8>, pos: int, path: Seq<char>)
    ensures
        dir_trace(s, pos, path).end matches Ok(p) ==> pos < p <= s.len(),
    decreases s.len() - pos, 0int,
{
    reveal(dir_trace);
    reveal(node_trace);
    reveal(close_trace);
    lemma_read_advances(s, pos);
    match read_text(s, pos) {
        Ok((marker, at1)) => {
            if marker == Tag::Entry.text() {
                lemma_entry_head_advances(s, at1);
                match entry_head(s, at1) {
                    Ok((name, at2)) => {
                        lemma_node_advances(s, at2, join(path, name));
                        let child = node_trace(s, at2, join(path, name));
                        match child.end {
                            Ok(at3) => {
                                lemma_close_advances(s, at3, path);
                            },
                            Err(_) => {},
                        }
                    },
                    Err(_) => {},
                }
            }
        },
        Err(_) => {},
    }
}

/// What follows a child in its directory, read to its end, ends behind
/// where it began.
pub proof fn lemma_close_advances(s: Seq<u8>, pos: int, path: Seq<char>)
    ensures
        close_trace(s, pos, path).end matches Ok(p) ==> pos < p <= s.len(),
    decreases s.len() - pos, 1int,
{
    reveal(close_trace);
    reveal(dir_trace);
    lemma_read_advances(s, pos);
    match expect(s, pos, Tag::Close) {
        Ok(at1) => {
            lemma_dir_advances(s, at1, path);
        },
        Err(_) => {},
    }
}

/// Wherever a node, a directory's next child or a closing `)` is due, a
/// frame whose padding is not zero ends reading with `BadPadding`, and
/// nothing is yielded.
pub proof fn lemma_bad_padding_ends_reading(
    s: Seq<u8>,
    pos: int,
    path: Seq<char>,
    stack: Seq<Seq<char>>,
    pending_close: bool,
)
    requires
        read_frame(s, pos) == Err::<(Seq<u8>, int), ErrorView>(ErrorView::BadPadding),
    ensures
        read_text(s, pos) == Err::<(Seq<char>, int), ErrorView>(ErrorView::BadPadding),
        forall|tag: Tag| #[trigger] expect(s, pos, tag) == Err::<int, ErrorView>(ErrorView::BadPadding),
        node_trace(s, pos, path) == Trace::fail(ErrorView::BadPadding),
        dir_trace(s, pos, path) == Trace::fail(ErrorView::BadPadding),
        close_trace(s, pos, path) == Trace::fail(ErrorView::BadPadding),
        symlink_trace(s, pos, path) == Trace::fail(ErrorView::BadPadding),
        regular_trace(s, pos, path) == Trace::fail(ErrorView::BadPadding),
        stack.len() > 0 ==> resume(s, pos, stack, pending_close) == Trace::fail(ErrorView::BadPadding),
        pos == 0 ==> archive_trace(s) == Trace::fail(ErrorView::BadPadding),
{
    reveal(node_trace);
    reveal(dir_trace);
    reveal(close_trace);
    reveal(resume);
}

/// A child whose name cannot name a child ends the reading of its
/// directory with the error that tells what is wrong with the name.
pub proof fn lemma_invalid_name(s: Seq<u8>, pos: int, path: Seq<char>, name: Seq<char>)
    requires
        read_text(s, pos) matches Ok((marker, at1)) && marker == Tag::Entry.text() && (expect(
            s,
            at1,
            Tag::Open,
        ) matches Ok(at2) && (expect(s, at2, Tag::Name) matches Ok(at3) && (read_text(s, at3) matches Ok(
            (text, _),
        ) && text == name))),
        name_error(name) is Some,
    ensures
        dir_trace(s, pos, path) == Trace::fail(name_error(name)->0),
        name.len() == 0 ==> name_error(name)->0 == ErrorView::InvalidDirEntryName(name),
        name == seq!['.'] ==> name_error(name)->0 == ErrorView::InvalidDirEntryName(name),
        name == seq!['.', '.'] ==> name_error(name)->0 == ErrorView::InvalidDirEntryName(name),
        name == seq!['~'] ==> name_error(name)->0 == ErrorView::InvalidDirEntryName(name),
        name.contains('/') ==> name_error(name)->0 == ErrorView::InvalidDirEntryChar('/'),
{
    reveal(dir_trace);
    if name.len() == 0 {
        assert(name =~= Seq::<char>::empty());
    }
    if name.contains('/') {
        assert(seq!['~'][0] == '~');
        assert(seq!['.'][0] == '.');
        assert(seq!['.', '.'][0] == '.' && seq!['.', '.'][1] == '.');
        let i = choose|i: int| 0 <= i < name.len() && name[i] == '/';
        assert(name[i] == '/');
    }
}

/// Reading on in a directory whose next child is due, by what stands at
/// `pos`: the directory's end, a child that is a file or a link, a child
/// that is a directory, or an error.
#[verifier::rlimit(60)]
#[verifier::spinoff_prover]
pub proof fn lemma_resume_step(s: Seq<u8>, pos: int, stack: Seq<Seq<char>>)
    requires
        stack.len() > 0,
    ensures
        resume(s, pos, stack, false) == match read_text(s, pos) {
            Err(e) => Trace::fail(e),
            Ok((marker, at1)) => if marker == Tag::Entry.text() {
                match entry_head(s, at1) {
                    Err(e) => Trace::fail(e),
                    Ok((name, at2)) => {
                        let child = node_trace(s, at2, join(stack.last(), name));
                        match child.end {
                            Err(_) => child,
                            Ok(at3) => resume(s, at3, stack, true).after(child.entries),
                        }
                    },
                }
            } else if marker == Tag::Close.text() {
                resume(s, at1, stack.drop_last(), stack.len() > 1)
            } else {
                Trace::fail(ErrorView::InvalidDirEntry)
            },
        },
{
    reveal(dir_trace);
    reveal(close_trace);
    reveal(resume);
    let top = stack.last();
    let below = stack.drop_last();
    let dir = dir_trace(s, pos, top);
    match read_text(s, pos) {
        Err(e) => {},
        Ok((marker, at1)) => {
            if marker == Tag::Entry.text() {
                match entry_head(s, at1) {
                    Err(e) => {},
                    Ok((name, at2)) => {
                        let child = node_trace(s, at2, join(top, name));
                        lemma_node_advances(s, at2, join(top, name));
                        match child.end {
                            Err(_) => {},
                            Ok(at3) => {
                                let close = close_trace(s, at3, top);
                                assert(dir == close.after(child.entries));
                                match expect(s, at3, Tag::Close) {
                                    Err(e) => {
                                        assert(resume(s, at3, stack, true) == Trace::fail(e));
                                    },
                                    Ok(at4) => {
                                        let rest = dir_trace(s, at4, top);
                                        assert(close == rest);
                                        assert(resume(s, at3, stack, true) == resume(
                                            s,
                                            at4,
                                            stack,
                                            false,
                                        ));
                                        match rest.end {
                                            Err(_) => {},
                                            Ok(at5) => {
                                                let tail = resume(s, at5, below, stack.len() > 1);
                                                assert(child.entries + (rest.entries
                                                    + tail.entries) =~= (child.entries
                                                    + rest.entries) + tail.entries);
                                            },
                                        }
                                    },
                                }
                            },
                        }
                    },
                }
            } else if marker == Tag::Close.text() {
                let tail = resume(s, at1, below, stack.len() > 1);
                assert(Seq::<EntryView>::empty() + tail.entries =~= tail.entries);
            }
        },
    }
}

/// Reading on in a directory that was just entered gives what is below it,
/// and then what follows the directory.
pub proof fn lemma_resume_enter(s: Seq<u8>, pos: int, stack: Seq<Seq<char>>, path: Seq<char>)
    ensures
        resume(s, pos, stack.push(path), false) == {
            let dir = dir_trace(s, pos, path);
            match dir.end {
                Err(_) => dir,
                Ok(at1) => resume(s, at1, stack, stack.len() > 0).after(dir.entries),
            }
        },
{
    reveal(resume);
    assert(stack.push(path).drop_last() =~= stack);
    assert(stack.push(path).last() == path);
}

/// Where no directory is open, nothing is left to read.
pub proof fn lemma_resume_empty(s: Seq<u8>, pos: int, pending_close: bool)
    ensures
        resume(s, pos, Seq::empty(), pending_close) == Trace::done(pos),
{
    reveal(resume);
}

/// Where the `)` of a child is still to come, it is read first.
pub proof fn lemma_resume_pending(s: Seq<u8>, pos: int, stack: Seq<Seq<char>>)
    requires
        stack.len() > 0,
    ensures
        resume(s, pos, stack, true) == match expect(s, pos, Tag::Close) {
            Err(e) => Trace::fail(e),
            Ok(at1) => resume(s, at1, stack, false),
        },
{
    reveal(resume);
}

} // verus!
