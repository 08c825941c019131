//! Writing an archive: a tree in, canonical bytes out.

use vstd::prelude::*;
use vstd::utf8::encode_utf8;
use vstd::array::array_as_slice;
use crate::error::{Error, ErrorView, IoErrorKind};
use crate::frame::{write_padded, write_padded_from_reader, NIX_VERSION_MAGIC};
use crate::node::{
    children_view, encode, encode_body, encode_child, encode_children, encode_node, insert_pos,
    names, sorted_order, sorted_prefix, token, Child, DirEntry, Node, Tree,
};
use crate::tag::Tag;
use crate::text::bytes_lt;

verus! {

/// What the file system says a path is, symbolic links not followed.
#[derive(Copy, Clone, Debug, PartialEq, Eq, Structural)]
pub enum FileType {
    Directory,
    File,
    Symlink,
    /// A device, a socket, a pipe: nothing that an archive can hold.
    Other,
}

/// What the file system says of a path: its type, its permission bits and
/// its length in bytes.
#[derive(Copy, Clone, Debug, PartialEq, Eq, Structural)]
pub struct FileStat {
    pub file_type: FileType,
    pub mode: u32,
    pub len: u64,
}

/// Whether a file with the permission bits `mode` counts as executable:
/// the owner, the group or anyone else may execute it.
pub open spec fn is_executable(mode: u32) -> bool {
    mode & 0o111 != 0
}

impl FileStat {
    /// The marker of the node that a path with this type becomes. What is
    /// neither directory, file nor link is refused with `InvalidData`.
    pub fn node_type(&self) -> (r: Result<Tag, Error>)
        ensures
            match self.file_type {
                FileType::Directory => r == Ok::<Tag, Error>(Tag::Directory),
                FileType::File => r == Ok::<Tag, Error>(Tag::Regular),
                FileType::Symlink => r == Ok::<Tag, Error>(Tag::Symlink),
                FileType::Other => r matches Err(e) && e@ == ErrorView::Io(
                    IoErrorKind::InvalidData,
                ),
            },
    {
        match self.file_type {
            FileType::Directory => Ok(Tag::Directory),
            FileType::File => Ok(Tag::Regular),
            FileType::Symlink => Ok(Tag::Symlink),
            FileType::Other => Err(Error::Io(IoErrorKind::InvalidData)),
        }
    }

    /// Whether a file with these permission bits counts as executable.
    pub fn executable(&self) -> (r: bool)
        ensures
            r == is_executable(self.mode),
    {
        self.mode & 0o111 != 0
    }
}

impl Node {
    /// The node of a regular file with contents `data`, of which the file
    /// system said `stat`. Contents that are not as long as the file
    /// system said are refused with `InvalidData`.
    pub fn regular(stat: &FileStat, data: Vec<u8>) -> (r: Result<Node, Error>)
        ensures
            r is Ok <==> data@.len() == stat.len,
            r matches Ok(node) ==> node@ == (Tree::Regular {
                executable: is_executable(stat.mode),
                data: data@,
            }),
            r matches Err(e) ==> e@ == ErrorView::Io(IoErrorKind::InvalidData),
    {
        if data.len() as u64 != stat.len {
            return Err(Error::Io(IoErrorKind::InvalidData));
        }
        Ok(Node::Regular { executable: stat.executable(), data })
    }
}

/// Writes a marker, framed.
pub fn write_tag(writer: &mut Vec<u8>, tag: Tag)
    ensures
        final(writer)@ == old(writer)@ + token(tag),
{
    proof {
        tag.lemma_bytes_are_utf8();
    }
    let _ = write_padded(writer, tag.into_str().as_bytes());
}

/// The indices of `entries` in the order of their names: byte by byte, and
/// of two equal names the earlier entry first.
pub fn sorted_indices(entries: &Vec<DirEntry>) -> (order: Vec<usize>)
    ensures
        order@.map_values(|i: usize| i as int) == sorted_order(names(children_view(entries@))),
        forall|k: int| 0 <= k < order@.len() ==> order@[k] < entries@.len(),
{
    let ghost keys = Seq::new(entries@.len(), |i: int| encode_utf8(entries@[i].name@));
    assert(keys =~= names(children_view(entries@)));
    let mut order: Vec<usize> = Vec::new();
    let mut n: usize = 0;
    while n < entries.len()
        invariant
            n <= entries@.len(),
            keys == Seq::new(entries@.len(), |i: int| encode_utf8(entries@[i].name@)),
            order@.map_values(|i: usize| i as int) == sorted_prefix(keys, n as nat),
            order@.len() == n,
            forall|k: int| 0 <= k < order@.len() ==> order@[k] < n,
        decreases entries@.len() - n,
    {
        let ghost before = order@.map_values(|i: usize| i as int);
        let key = entries[n].name.as_str().as_bytes();
        let mut p: usize = order.len();
        assert(before.take(p as int) =~= before);
        while p > 0 && bytes_lt(key, entries[order[p - 1]].name.as_str().as_bytes())
            invariant
                p <= order@.len(),
                n < entries@.len(),
                key@ == keys[n as int],
                before == order@.map_values(|i: usize| i as int),
                keys == Seq::new(entries@.len(), |i: int| encode_utf8(entries@[i].name@)),
                forall|k: int| 0 <= k < order@.len() ==> order@[k] < n,
                insert_pos(keys, before, key@) == insert_pos(keys, before.take(p as int), key@),
            decreases p,
        {
            proof {
                let cut = before.take(p as int);
                assert(cut.last() == order@[p - 1] as int);
                assert(cut.drop_last() =~= before.take(p - 1));
            }
            p -= 1;
        }
        proof {
            let cut = before.take(p as int);
            if p > 0 {
                assert(cut.last() == order@[p - 1] as int);
            }
            assert(insert_pos(keys, before, key@) == p);
        }
        order.insert(p, n);
        proof {
            assert(order@.map_values(|i: usize| i as int) =~= before.insert(p as int, n as int));
        }
        n += 1;
    }
    order
}

/// Writes one child of a directory: `entry`, `(`, `name`, the name, `node`,
/// the child's node, and `)`.
fn write_child(writer: &mut Vec<u8>, entry: &DirEntry)
    ensures
        final(writer)@ == old(writer)@ + encode_child(
            Child { name: entry.name@, node: entry.node@ },
        ),
    decreases entry,
{
    write_tag(writer, Tag::Entry);
    write_tag(writer, Tag::Open);
    write_tag(writer, Tag::Name);
    let _ = write_padded(writer, entry.name.as_str().as_bytes());
    write_tag(writer, Tag::Node);
    let _ = encode_entry(writer, &entry.node);
    write_tag(writer, Tag::Close);
    proof {
        reveal(encode_child);
        reveal(encode_node);
        assert(writer@ =~= old(writer)@ + encode_child(
            Child { name: entry.name@, node: entry.node@ },
        ));
    }
}

/// Writes the children of a directory in the order of their names.
fn write_children(writer: &mut Vec<u8>, entries: &Vec<DirEntry>)
    ensures
        final(writer)@ == old(writer)@ + encode_children(
            children_view(entries@),
            sorted_order(names(children_view(entries@))),
        ),
    decreases entries,
{
    let order = sorted_indices(entries);
    let ghost children = children_view(entries@);
    let ghost whole = order@.map_values(|i: usize| i as int);
    let mut k: usize = 0;
    proof {
        reveal_with_fuel(encode_children, 2);
            reveal(encode_child);
    }
    assert(whole.take(0) =~= Seq::<int>::empty());
    assert(writer@ + Seq::<u8>::empty() =~= writer@);
    while k < order.len()
        invariant
            k <= order@.len(),
            whole == order@.map_values(|i: usize| i as int),
            children == children_view(entries@),
            forall|j: int| 0 <= j < order@.len() ==> order@[j] < entries@.len(),
            writer@ == old(writer)@ + encode_children(children, whole.take(k as int)),
        decreases order@.len() - k,
    {
        let i: usize = order[k];
        let ghost before = writer@;
        write_child(writer, &entries[i]);
        proof {
            reveal_with_fuel(encode_children, 2);
            reveal(encode_child);
            let next = whole.take(k + 1);
            assert(next.drop_last() =~= whole.take(k as int));
            assert(next.last() == i as int);
            assert(writer@ =~= old(writer)@ + encode_children(children, next));
        }
        k += 1;
    }
    assert(whole.take(k as int) =~= whole);
}

/// Writes the node `node`: `(`, `type`, what it is and holds, and `)`; the
/// children of a directory in the order of their names. Writing to a buffer
/// in memory cannot fail.
pub fn encode_entry(writer: &mut Vec<u8>, node: &Node) -> (r: Result<(), Error>)
    ensures
        r is Ok,
        final(writer)@ == old(writer)@ + encode_node(node@),
    decreases node,
{
    proof {
        reveal(encode_node);
        reveal(encode_body);
        reveal(encode_children);
    }
    write_tag(writer, Tag::Open);
    write_tag(writer, Tag::Type);
    let ghost head = writer@;
    match node {
        Node::Directory { entries } => {
            write_tag(writer, Tag::Directory);
            assert(node@->entries =~= children_view(entries@));
            write_children(writer, entries);
        },
        Node::Regular { executable, data } => {
            write_tag(writer, Tag::Regular);
            if *executable {
                write_tag(writer, Tag::Executable);
                write_tag(writer, Tag::Empty);
            }
            write_tag(writer, Tag::Contents);
            let _ = write_padded_from_reader(writer, data.as_slice(), data.len() as u64);
        },
        Node::Symlink { target } => {
            write_tag(writer, Tag::Symlink);
            write_tag(writer, Tag::Target);
            let _ = write_padded(writer, target.as_str().as_bytes());
        },
    }
    assert(writer@ =~= head + encode_body(node@));
    write_tag(writer, Tag::Close);
    proof {
        assert(writer@ =~= old(writer)@ + encode_node(node@));
    }
    Ok(())
}

/// Writes the archive of `node`: the framed magic text, then the node.
pub fn to_writer(writer: &mut Vec<u8>, node: &Node) -> (r: Result<(), Error>)
    ensures
        r is Ok,
        final(writer)@ == old(writer)@ + encode(node@),
{
    let _ = write_padded(writer, array_as_slice(&NIX_VERSION_MAGIC));
    let _ = encode_entry(writer, node);
    assert(writer@ =~= old(writer)@ + encode(node@));
    Ok(())
}

/// The archive of `node`.
pub fn to_vec(node: &Node) -> (r: Result<Vec<u8>, Error>)
    ensures
        r matches Ok(bytes) && bytes@ == encode(node@),
{
    let mut buffer: Vec<u8> = Vec::new();
    let _ = to_writer(&mut buffer, node);
    assert(buffer@ =~= encode(node@));
    Ok(buffer)
}

} // verus!
