//! The tree that an archive holds, and its bytes on the wire.

use vstd::prelude::*;
use vstd::utf8::encode_utf8;
use crate::frame::{frame, lemma_frame_len};
use crate::frame::magic;
use crate::tag::Tag;
use crate::text::lex_lt;

verus! {

/// A tree as a mathematical value.
pub enum Tree {
    /// A regular file: whether it is executable, and its contents.
    Regular { executable: bool, data: Seq<u8> },
    /// A symbolic link and the path it points to.
    Symlink { target: Seq<char> },
    /// A directory and its children, in no particular order.
    Directory { entries: Seq<Child> },
}

/// A child of a directory as a mathematical value.
pub struct Child {
    pub name: Seq<char>,
    pub node: Tree,
}

/// A file, a symbolic link, or a directory with all that is below it.
#[derive(Debug)]
pub enum Node {
    /// A regular file: whether it is executable, and its contents.
    Regular { executable: bool, data: Vec<u8> },
    /// A symbolic link and the path it points to.
    Symlink { target: String },
    /// A directory and its children, in any order.
    Directory { entries: Vec<DirEntry> },
}

/// A child of a directory: its name and what stands there.
#[derive(Debug)]
pub struct DirEntry {
    pub name: String,
    pub node: Node,
}

impl View for Node {
    type V = Tree;

    open spec fn view(&self) -> Tree
        decreases self,
    {
        match self {
            Node::Regular { executable, data } => Tree::Regular {
                executable: *executable,
                data: data@,
            },
            Node::Symlink { target } => Tree::Symlink { target: target@ },
            Node::Directory { entries } => Tree::Directory {
                entries: Seq::new(
                    entries@.len(),
                    |i: int|
                        if 0 <= i < entries@.len() {
                            Child { name: entries@[i].name@, node: entries@[i].node@ }
                        } else {
                            arbitrary()
                        },
                ),
            },
        }
    }
}

/// The children of a directory as mathematical values.
pub open spec fn children_view(entries: Seq<DirEntry>) -> Seq<Child> {
    Seq::new(
        entries.len(),
        |i: int|
            if 0 <= i < entries.len() {
                Child { name: entries[i].name@, node: entries[i].node@ }
            } else {
                arbitrary()
            },
    )
}

/// The position at which `key` goes into `order`, a list of indices into
/// `keys` that is sorted by key: behind every index whose key is not
/// greater.
pub open spec fn insert_pos(keys: Seq<Seq<u8>>, order: Seq<int>, key: Seq<u8>) -> int
    decreases order.len(),
{
    if order.len() == 0 {
        0
    } else if lex_lt(key, keys[order.last()]) {
        insert_pos(keys, order.drop_last(), key)
    } else {
        order.len() as int
    }
}

/// The first `n` indices into `keys`, sorted by key in byte-lexicographic
/// order; of two equal keys the earlier index comes first.
pub open spec fn sorted_prefix(keys: Seq<Seq<u8>>, n: nat) -> Seq<int>
    decreases n,
{
    if n == 0 {
        Seq::empty()
    } else {
        let before = sorted_prefix(keys, (n - 1) as nat);
        before.insert(insert_pos(keys, before, keys[n - 1]), n - 1)
    }
}

/// The indices into `keys`, sorted by key.
pub open spec fn sorted_order(keys: Seq<Seq<u8>>) -> Seq<int> {
    sorted_prefix(keys, keys.len())
}

/// The names of `entries` as bytes, in the order of `entries`.
pub open spec fn names(entries: Seq<Child>) -> Seq<Seq<u8>> {
    Seq::new(entries.len(), |i: int| encode_utf8(entries[i].name))
}

/// A marker as it stands on the wire.
pub open spec fn token(tag: Tag) -> Seq<u8> {
    frame(tag.bytes())
}

/// The bytes of a node: `(`, `type`, what the node is and holds, and `)`.
/// The children of a directory stand in the order of their names.
#[verifier::opaque]
pub open spec fn encode_node(tree: Tree) -> Seq<u8>
    decreases tree, 1nat,
{
    token(Tag::Open) + token(Tag::Type) + encode_body(tree) + token(Tag::Close)
}

/// The bytes of a node between `type` and the closing `)`.
#[verifier::opaque]
pub open spec fn encode_body(tree: Tree) -> Seq<u8>
    decreases tree, 0nat,
{
    match tree {
        Tree::Regular { executable, data } => token(Tag::Regular) + (if executable {
            token(Tag::Executable) + token(Tag::Empty)
        } else {
            Seq::empty()
        }) + token(Tag::Contents) + frame(data),
        Tree::Symlink { target } => token(Tag::Symlink) + token(Tag::Target) + frame(
            encode_utf8(target),
        ),
        Tree::Directory { entries } => token(Tag::Directory) + encode_children(
            entries,
            sorted_order(names(entries)),
        ),
    }
}

/// The bytes of the children of a directory that `order` lists, in that
/// order.
#[verifier::opaque]
pub open spec fn encode_children(entries: Seq<Child>, order: Seq<int>) -> Seq<u8>
    decreases entries, order.len(),
{
    if order.len() == 0 {
        Seq::empty()
    } else {
        let i = order.last();
        encode_children(entries, order.drop_last()) + (if 0 <= i < entries.len() {
            encode_child(entries[i])
        } else {
            Seq::empty()
        })
    }
}

/// The bytes of one child: `entry`, `(`, `name`, the name, `node`, the
/// child's node, and `)`.
#[verifier::opaque]
pub open spec fn encode_child(child: Child) -> Seq<u8>
    decreases child, 1nat,
{
    token(Tag::Entry) + token(Tag::Open) + token(Tag::Name) + frame(encode_utf8(child.name))
        + token(Tag::Node) + encode_node(child.node) + token(Tag::Close)
}

/// The bytes of the archive of `tree`: the framed magic text and the root
/// node.
pub open spec fn encode(tree: Tree) -> Seq<u8> {
    frame(magic()) + encode_node(tree)
}

/// An archive is a whole number of eight-byte words.
pub proof fn lemma_encode_aligned(tree: Tree)
    ensures
        encode(tree).len() % 8 == 0,
{
    lemma_node_aligned(tree);
    lemma_frame_len(magic());
}

/// The bytes of a tree are a whole number of eight-byte words.
pub proof fn lemma_node_aligned(tree: Tree)
    ensures
        encode_node(tree).len() % 8 == 0,
    decreases tree, 0nat,
{
    reveal(encode_node);
    reveal(encode_body);
    reveal(encode_children);
    lemma_frame_len(Tag::Open.bytes());
    lemma_frame_len(Tag::Type.bytes());
    lemma_frame_len(Tag::Close.bytes());
    lemma_frame_len(Tag::Regular.bytes());
    lemma_frame_len(Tag::Symlink.bytes());
    lemma_frame_len(Tag::Directory.bytes());
    lemma_frame_len(Tag::Executable.bytes());
    lemma_frame_len(Tag::Empty.bytes());
    lemma_frame_len(Tag::Contents.bytes());
    lemma_frame_len(Tag::Target.bytes());
    match tree {
        Tree::Regular { executable, data } => {
            lemma_frame_len(data);
        },
        Tree::Symlink { target } => {
            lemma_frame_len(encode_utf8(target));
        },
        Tree::Directory { entries } => {
            lemma_children_aligned(entries, sorted_order(names(entries)));
        },
    }
}

/// The bytes of the listed children are a whole number of eight-byte
/// words.
pub proof fn lemma_children_aligned(entries: Seq<Child>, order: Seq<int>)
    ensures
        encode_children(entries, order).len() % 8 == 0,
    decreases entries, order.len(),
{
    reveal_with_fuel(encode_children, 2);
    reveal(encode_child);
    reveal(encode_node);
    if order.len() > 0 {
        lemma_children_aligned(entries, order.drop_last());
        let i = order.last();
        if 0 <= i < entries.len() {
            let child = entries[i];
            assert(encode_child(child).len() == token(Tag::Entry).len() + token(Tag::Open).len()
                + token(Tag::Name).len() + frame(encode_utf8(child.name)).len() + token(
                Tag::Node,
            ).len() + encode_node(child.node).len() + token(Tag::Close).len());
            lemma_frame_len(Tag::Entry.bytes());
            lemma_frame_len(Tag::Open.bytes());
            lemma_frame_len(Tag::Name.bytes());
            lemma_frame_len(Tag::Node.bytes());
            lemma_frame_len(Tag::Close.bytes());
            lemma_frame_len(encode_utf8(entries[i].name));
            lemma_node_aligned(entries[i].node);
        }
    }
}

} // verus!
