//! Reading what was written: the archive of a tree yields the tree's
//! nodes, every node before what is below it, children in the order of
//! their names.

use vstd::prelude::*;
use vstd::utf8::{encode_utf8, encode_utf8_decode_utf8, encode_utf8_valid_utf8};
use crate::error::ErrorView;
use crate::frame::{frame, lemma_read_frame, lemma_stands_at_split, magic, stands_at};
use crate::grammar::{
    archive_trace, close_trace, dir_trace, entry_head, expect, join, name_error, node_head,
    node_trace, read_text, regular_trace, symlink_trace, EntryKindView, EntryView, Trace,
};
use crate::node::{
    encode, encode_body, encode_child, encode_children, encode_node, names, sorted_order, token,
    Child, Tree,
};
use crate::order::lemma_sorted_order;
use crate::tag::Tag;

verus! {

/// The nodes of `tree`, which stands at `path`: the tree's own node first,
/// then, for a directory, its children in the order of their names, each
/// with all that is below it.
#[verifier::opaque]
pub open spec fn flatten(tree: Tree, path: Seq<char>) -> Seq<EntryView>
    decreases tree, 0nat,
{
    match tree {
        Tree::Regular { executable, data } => seq![
            EntryView { name: path, kind: EntryKindView::Regular { executable, data } },
        ],
        Tree::Symlink { target } => seq![
            EntryView { name: path, kind: EntryKindView::Symlink { target } },
        ],
        Tree::Directory { entries } => seq![
            EntryView { name: path, kind: EntryKindView::Directory },
        ] + flatten_children(entries, sorted_order(names(entries)), path),
    }
}

/// The nodes of the children of the directory at `path` that `order`
/// lists, in that order.
#[verifier::opaque]
pub open spec fn flatten_children(entries: Seq<Child>, order: Seq<int>, path: Seq<char>) -> Seq<
    EntryView,
>
    decreases entries, order.len(),
{
    if order.len() == 0 {
        Seq::empty()
    } else {
        let i = order.last();
        flatten_children(entries, order.drop_last(), path) + (if 0 <= i < entries.len() {
            flatten(entries[i].node, join(path, entries[i].name))
        } else {
            Seq::empty()
        })
    }
}

/// A tree that an archive can hold: every name can name a child, and every
/// length fits the 64 bits of a frame's length.
pub open spec fn well_formed(tree: Tree) -> bool
    decreases tree,
{
    match tree {
        Tree::Regular { executable, data } => data.len() <= u64::MAX,
        Tree::Symlink { target } => encode_utf8(target).len() <= u64::MAX,
        Tree::Directory { entries } => forall|i: int|
            0 <= i < entries.len() ==> {
                &&& name_error(#[trigger] entries[i].name) is None
                &&& encode_utf8(entries[i].name).len() <= u64::MAX
                &&& well_formed(entries[i].node)
            },
    }
}

/// Reading where a framed text stands gives the text.
pub proof fn lemma_read_text(s: Seq<u8>, pos: int, text: Seq<char>)
    requires
        stands_at(s, pos, frame(encode_utf8(text))),
        encode_utf8(text).len() <= u64::MAX,
    ensures
        read_text(s, pos) == Ok::<(Seq<char>, int), ErrorView>(
            (text, pos + frame(encode_utf8(text)).len()),
        ),
{
    lemma_read_frame(s, pos, encode_utf8(text));
    encode_utf8_valid_utf8(text);
    encode_utf8_decode_utf8(text);
}

/// Reading where a marker stands gives the marker.
pub proof fn lemma_read_token(s: Seq<u8>, pos: int, tag: Tag)
    requires
        stands_at(s, pos, token(tag)),
    ensures
        read_text(s, pos) == Ok::<(Seq<char>, int), ErrorView>(
            (tag.text(), pos + token(tag).len()),
        ),
        expect(s, pos, tag) == Ok::<int, ErrorView>(pos + token(tag).len()),
        token(tag).len() >= 8,
{
    tag.lemma_bytes_are_utf8();
    assert(tag.bytes().len() <= 10);
    lemma_read_text(s, pos, tag.text());
    lemma_read_frame(s, pos, tag.bytes());
}

/// The bytes of the children that a list names begin with those of the
/// first child in the list, and the same holds of their nodes.
pub proof fn lemma_children_front(entries: Seq<Child>, order: Seq<int>, path: Seq<char>)
    requires
        order.len() > 0,
        0 <= order[0] < entries.len(),
    ensures
        encode_children(entries, order) == encode_child(entries[order[0]]) + encode_children(
            entries,
            order.skip(1),
        ),
        flatten_children(entries, order, path) == flatten(
            entries[order[0]].node,
            join(path, entries[order[0]].name),
        ) + flatten_children(entries, order.skip(1), path),
    decreases order.len(),
{
    reveal_with_fuel(flatten_children, 3);
    reveal_with_fuel(encode_children, 3);
    reveal(flatten);
    reveal(encode_child);
    let first = encode_child(entries[order[0]]);
    let first_nodes = flatten(entries[order[0]].node, join(path, entries[order[0]].name));
    if order.len() == 1 {
        assert(order.drop_last() =~= Seq::<int>::empty());
        assert(order.skip(1) =~= Seq::<int>::empty());
        assert(encode_children(entries, order) =~= first + Seq::<u8>::empty());
        assert(flatten_children(entries, order, path) =~= first_nodes + Seq::<EntryView>::empty());
    } else {
        let shorter = order.drop_last();
        lemma_children_front(entries, shorter, path);
        assert(order.skip(1).drop_last() =~= shorter.skip(1));
        assert(order.skip(1).last() == order.last());
        assert(shorter[0] == order[0]);
        let i = order.last();
        let last = if 0 <= i < entries.len() {
            encode_child(entries[i])
        } else {
            Seq::empty()
        };
        let last_nodes = if 0 <= i < entries.len() {
            flatten(entries[i].node, join(path, entries[i].name))
        } else {
            Seq::empty()
        };
        assert(encode_children(entries, order) =~= first + (encode_children(
            entries,
            shorter.skip(1),
        ) + last));
        assert(flatten_children(entries, order, path) =~= first_nodes + (flatten_children(
            entries,
            shorter.skip(1),
            path,
        ) + last_nodes));
    }
}

/// Reading a regular file's body where it stands gives the file.
pub proof fn lemma_regular(s: Seq<u8>, pos: int, executable: bool, data: Seq<u8>, path: Seq<char>)
    requires
        data.len() <= u64::MAX,
        stands_at(
            s,
            pos,
            (if executable {
                token(Tag::Executable) + token(Tag::Empty)
            } else {
                Seq::empty()
            }) + token(Tag::Contents) + frame(data) + token(Tag::Close),
        ),
    ensures
        regular_trace(s, pos, path) == Trace::leaf(
            EntryView { name: path, kind: EntryKindView::Regular { executable, data } },
            pos + (if executable {
                token(Tag::Executable).len() + token(Tag::Empty).len()
            } else {
                0
            }) + token(Tag::Contents).len() + frame(data).len() + token(Tag::Close).len(),
        ),
{
    let flag = if executable {
        token(Tag::Executable) + token(Tag::Empty)
    } else {
        Seq::empty()
    };
    lemma_stands_at_split(s, pos, flag + token(Tag::Contents) + frame(data), token(Tag::Close));
    lemma_stands_at_split(s, pos, flag + token(Tag::Contents), frame(data));
    lemma_stands_at_split(s, pos, flag, token(Tag::Contents));
    let at1 = pos + flag.len();
    let at2 = at1 + token(Tag::Contents).len();
    let at3 = at2 + frame(data).len();
    lemma_read_token(s, at1, Tag::Contents);
    lemma_read_frame(s, at2, data);
    lemma_read_token(s, at3, Tag::Close);
    assert(Tag::Contents.text().len() == 8);
    assert(Tag::Executable.text().len() == 10);
    if executable {
        lemma_stands_at_split(s, pos, token(Tag::Executable), token(Tag::Empty));
        lemma_read_token(s, pos, Tag::Executable);
        lemma_read_token(s, pos + token(Tag::Executable).len(), Tag::Empty);
    }
}

/// Reading a symbolic link's body where it stands gives the link.
pub proof fn lemma_symlink(s: Seq<u8>, pos: int, target: Seq<char>, path: Seq<char>)
    requires
        encode_utf8(target).len() <= u64::MAX,
        stands_at(s, pos, token(Tag::Target) + frame(encode_utf8(target)) + token(Tag::Close)),
    ensures
        symlink_trace(s, pos, path) == Trace::leaf(
            EntryView { name: path, kind: EntryKindView::Symlink { target } },
            pos + token(Tag::Target).len() + frame(encode_utf8(target)).len() + token(
                Tag::Close,
            ).len(),
        ),
{
    let text = frame(encode_utf8(target));
    lemma_stands_at_split(s, pos, token(Tag::Target) + text, token(Tag::Close));
    lemma_stands_at_split(s, pos, token(Tag::Target), text);
    let at1 = pos + token(Tag::Target).len();
    let at2 = at1 + text.len();
    lemma_read_token(s, pos, Tag::Target);
    lemma_read_text(s, at1, target);
    lemma_read_token(s, at2, Tag::Close);
}

/// The bytes of a child up to its node: `entry`, `(`, `name`, the name and
/// `node`.
pub open spec fn child_head(name: Seq<char>) -> Seq<u8> {
    token(Tag::Entry) + token(Tag::Open) + token(Tag::Name) + frame(encode_utf8(name)) + token(
        Tag::Node,
    )
}

/// Reading where the head of a child stands gives the child's name and
/// ends where the child's node begins.
pub proof fn lemma_child_head(s: Seq<u8>, pos: int, name: Seq<char>)
    requires
        stands_at(s, pos, child_head(name)),
        name_error(name) is None,
        encode_utf8(name).len() <= u64::MAX,
    ensures
        read_text(s, pos) == Ok::<(Seq<char>, int), ErrorView>(
            (Tag::Entry.text(), pos + token(Tag::Entry).len()),
        ),
        entry_head(s, pos + token(Tag::Entry).len()) == Ok::<(Seq<char>, int), ErrorView>(
            (name, pos + child_head(name).len()),
        ),
        child_head(name).len() >= 8,
{
    let text = frame(encode_utf8(name));
    let a = token(Tag::Entry);
    let b = token(Tag::Open);
    let c = token(Tag::Name);
    let e = token(Tag::Node);
    lemma_stands_at_split(s, pos, a + b + c + text, e);
    lemma_stands_at_split(s, pos, a + b + c, text);
    lemma_stands_at_split(s, pos, a + b, c);
    lemma_stands_at_split(s, pos, a, b);
    let at1 = pos + a.len();
    let at2 = at1 + b.len();
    let at3 = at2 + c.len();
    let at4 = at3 + text.len();
    lemma_read_token(s, pos, Tag::Entry);
    lemma_read_token(s, at1, Tag::Open);
    lemma_read_token(s, at2, Tag::Name);
    lemma_read_text(s, at3, name);
    lemma_read_token(s, at4, Tag::Node);
}

/// Reading where the bytes of a tree stand gives the tree's nodes and ends
/// behind those bytes.
pub proof fn lemma_node(s: Seq<u8>, pos: int, tree: Tree, path: Seq<char>)
    requires
        stands_at(s, pos, encode_node(tree)),
        well_formed(tree),
    ensures
        node_trace(s, pos, path) == (Trace {
            entries: flatten(tree, path),
            end: Ok(pos + encode_node(tree).len()),
        }),
        encode_node(tree).len() >= 8,
    decreases tree, 0nat,
{
    reveal(encode_node);
    reveal(encode_body);
    reveal(encode_children);
    reveal(encode_child);
    reveal(flatten);
    reveal(flatten_children);
    reveal(node_trace);
    reveal(dir_trace);
    let open = token(Tag::Open);
    let ty = token(Tag::Type);
    let body = encode_body(tree);
    let close = token(Tag::Close);
    lemma_stands_at_split(s, pos, open + ty + body, close);
    lemma_stands_at_split(s, pos, open + ty, body);
    lemma_stands_at_split(s, pos, open, ty);
    let at1 = pos + open.len();
    let at2 = at1 + ty.len();
    let at3 = at2 + body.len();
    lemma_read_token(s, pos, Tag::Open);
    lemma_read_token(s, at1, Tag::Type);
    lemma_read_token(s, at3, Tag::Close);
    assert(Tag::Regular.text().len() == 7 && Tag::Regular.text()[0] == 'r');
    assert(Tag::Symlink.text().len() == 7 && Tag::Symlink.text()[0] == 's');
    assert(Tag::Directory.text().len() == 9);
    match tree {
        Tree::Regular { executable, data } => {
            let flag = if executable {
                token(Tag::Executable) + token(Tag::Empty)
            } else {
                Seq::empty()
            };
            let rest = flag + token(Tag::Contents) + frame(data);
            assert(body =~= token(Tag::Regular) + rest);
            lemma_stands_at_split(s, at2, token(Tag::Regular), rest);
            lemma_read_token(s, at2, Tag::Regular);
            let p = at2 + token(Tag::Regular).len();
            assert(s.subrange(p, p + (rest + close).len()) =~= rest + close);
            lemma_regular(s, p, executable, data, path);
            assert(node_head(s, pos) == Ok::<(Seq<char>, int), ErrorView>((Tag::Regular.text(), p)));
            assert(node_trace(s, pos, path) == (Trace {
                entries: flatten(tree, path),
                end: Ok(pos + encode_node(tree).len()),
            }));
        },
        Tree::Symlink { target } => {
            let rest = token(Tag::Target) + frame(encode_utf8(target));
            assert(body =~= token(Tag::Symlink) + rest);
            lemma_stands_at_split(s, at2, token(Tag::Symlink), rest);
            lemma_read_token(s, at2, Tag::Symlink);
            let p = at2 + token(Tag::Symlink).len();
            assert(s.subrange(p, p + (rest + close).len()) =~= rest + close);
            lemma_symlink(s, p, target, path);
            assert(node_head(s, pos) == Ok::<(Seq<char>, int), ErrorView>((Tag::Symlink.text(), p)));
            assert(node_trace(s, pos, path) == (Trace {
                entries: flatten(tree, path),
                end: Ok(pos + encode_node(tree).len()),
            }));
        },
        Tree::Directory { entries } => {
            let order = sorted_order(names(entries));
            let children = encode_children(entries, order);
            lemma_stands_at_split(s, at2, token(Tag::Directory), children);
            lemma_read_token(s, at2, Tag::Directory);
            let p = at2 + token(Tag::Directory).len();
            lemma_sorted_order(names(entries));
            lemma_dir(s, p, entries, order, path);
            assert(node_head(s, pos) == Ok::<(Seq<char>, int), ErrorView>((Tag::Directory.text(), p)));
            assert(node_trace(s, pos, path) == (Trace {
                entries: flatten(tree, path),
                end: Ok(pos + encode_node(tree).len()),
            }));
        },
    }
}

/// A directory whose next child reads well goes on behind that child.
pub proof fn lemma_dir_child(
    s: Seq<u8>,
    pos: int,
    path: Seq<char>,
    name: Seq<char>,
    at1: int,
    at2: int,
    at3: int,
    at4: int,
)
    requires
        read_text(s, pos) == Ok::<(Seq<char>, int), ErrorView>((Tag::Entry.text(), at1)),
        entry_head(s, at1) == Ok::<(Seq<char>, int), ErrorView>((name, at2)),
        node_trace(s, at2, join(path, name)).end == Ok::<int, ErrorView>(at3),
        at2 <= at3 <= s.len(),
        expect(s, at3, Tag::Close) == Ok::<int, ErrorView>(at4),
    ensures
        dir_trace(s, pos, path) == dir_trace(s, at4, path).after(
            node_trace(s, at2, join(path, name)).entries,
        ),
{
    reveal(dir_trace);
    reveal(close_trace);
    reveal(node_trace);
}

/// A directory ends where its closing `)` stands.
pub proof fn lemma_dir_end(s: Seq<u8>, pos: int, path: Seq<char>, at1: int)
    requires
        read_text(s, pos) == Ok::<(Seq<char>, int), ErrorView>((Tag::Close.text(), at1)),
    ensures
        dir_trace(s, pos, path) == Trace::done(at1),
{
    reveal(dir_trace);
    assert(Tag::Entry.text().len() == 5);
    assert(Tag::Close.text().len() == 1);
}

/// Reading where the bytes of the listed children of a directory stand,
/// with the directory's closing `)` behind them, gives the children's nodes
/// and ends behind the `)`.
pub proof fn lemma_dir(s: Seq<u8>, pos: int, entries: Seq<Child>, order: Seq<int>, path: Seq<char>)
    requires
        stands_at(s, pos, encode_children(entries, order)),
        stands_at(s, pos + encode_children(entries, order).len(), token(Tag::Close)),
        forall|k: int| 0 <= k < order.len() ==> 0 <= #[trigger] order[k] < entries.len(),
        well_formed(Tree::Directory { entries }),
    ensures
        dir_trace(s, pos, path) == (Trace {
            entries: flatten_children(entries, order, path),
            end: Ok(pos + encode_children(entries, order).len() + token(Tag::Close).len()),
        }),
    decreases entries, order.len(),
{
    if order.len() == 0 {
        assert(encode_children(entries, order).len() == 0 && flatten_children(
            entries,
            order,
            path,
        ).len() == 0) by {
            reveal(encode_children);
            reveal(flatten_children);
        }
        lemma_read_token(s, pos, Tag::Close);
        lemma_dir_end(s, pos, path, pos + token(Tag::Close).len());
        assert(flatten_children(entries, order, path) =~= Seq::<EntryView>::empty());
    } else {
        let i = order[0];
        let child = entries[i];
        let rest = order.skip(1);
        let child_path = join(path, child.name);
        lemma_children_front(entries, order, path);
        let first = encode_child(child);
        let others = encode_children(entries, rest);
        lemma_stands_at_split(s, pos, first, others);
        let head = child_head(child.name);
        let node = encode_node(child.node);
        assert(first == head + node + token(Tag::Close)) by {
            reveal(encode_child);
            reveal(encode_node);
            assert(first =~= head + node + token(Tag::Close));
        }
        lemma_stands_at_split(s, pos, head + node, token(Tag::Close));
        lemma_stands_at_split(s, pos, head, node);
        lemma_child_head(s, pos, child.name);
        let at1 = pos + token(Tag::Entry).len();
        let at2 = pos + head.len();
        lemma_node(s, at2, child.node, child_path);
        let at3 = at2 + node.len();
        lemma_read_token(s, at3, Tag::Close);
        let at4 = at3 + token(Tag::Close).len();
        assert(at4 == pos + first.len());
        assert forall|k: int| 0 <= k < rest.len() implies 0 <= #[trigger] rest[k]
            < entries.len() by {
            assert(rest[k] == order[k + 1]);
        }
        lemma_dir(s, at4, entries, rest, path);
        lemma_dir_child(s, pos, path, child.name, at1, at2, at3, at4);
    }
}

/// Reading the archive of a tree yields the tree's nodes, the tree's own
/// node at the empty path, and ends without an error at the archive's end.
pub proof fn lemma_decode_encode(tree: Tree)
    requires
        well_formed(tree),
    ensures
        archive_trace(encode(tree)) == (Trace {
            entries: flatten(tree, Seq::empty()),
            end: Ok(encode(tree).len() as int),
        }),
{
    let s = encode(tree);
    let head = frame(magic());
    assert(s.subrange(0, s.len() as int) =~= head + encode_node(tree));
    lemma_stands_at_split(s, 0, head, encode_node(tree));
    lemma_read_frame(s, 0, magic());
    lemma_node(s, head.len() as int, tree, Seq::empty());
}

} // verus!
