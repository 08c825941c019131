//! Padding that is not zero: an archive that is sound up to some frame's
//! payload, and whose padding behind that payload holds another byte than
//! zero, is refused with `BadPadding`.

use vstd::prelude::*;
use vstd::utf8::encode_utf8;
use crate::error::ErrorView;
use crate::frame::{
    frame, le_bytes, le_value, lemma_bad_padding, lemma_frame_len, lemma_le_bytes_len,
    lemma_le_roundtrip, lemma_stands_at_split, magic, pad_len, pow256, read_frame, stands_at,
};
use crate::node::{
    encode, encode_body, encode_child, encode_children, encode_node, names, sorted_order, token,
    Child, Tree,
};
use crate::grammar::{
    archive_trace, close_trace, dir_trace, expect, join, lemma_bad_padding_ends_reading,
    name_error, node_trace, read_text, regular_trace, symlink_trace, Trace,
};
use crate::roundtrip::{
    child_head, lemma_child_head, lemma_dir_child, lemma_node, lemma_read_text,
    lemma_read_token, well_formed,
};
use crate::tag::Tag;

verus! {

/// The payloads of the frames that make up the bytes of a tree, in order.
pub open spec fn payloads(tree: Tree) -> Seq<Seq<u8>>
    decreases tree, 1nat,
{
    seq![Tag::Open.bytes(), Tag::Type.bytes()] + body_payloads(tree) + seq![Tag::Close.bytes()]
}

/// The payloads of a node between `type` and the closing `)`.
pub open spec fn body_payloads(tree: Tree) -> Seq<Seq<u8>>
    decreases tree, 0nat,
{
    match tree {
        Tree::Regular { executable, data } => seq![Tag::Regular.bytes()] + (if executable {
            seq![Tag::Executable.bytes(), Tag::Empty.bytes()]
        } else {
            Seq::empty()
        }) + seq![Tag::Contents.bytes(), data],
        Tree::Symlink { target } => seq![
            Tag::Symlink.bytes(),
            Tag::Target.bytes(),
            encode_utf8(target),
        ],
        Tree::Directory { entries } => seq![Tag::Directory.bytes()] + children_payloads(
            entries,
            sorted_order(names(entries)),
        ),
    }
}

/// The payloads of the children of a directory that `order` lists.
pub open spec fn children_payloads(entries: Seq<Child>, order: Seq<int>) -> Seq<Seq<u8>>
    decreases entries, order.len(),
{
    if order.len() == 0 {
        Seq::empty()
    } else {
        let i = order.last();
        children_payloads(entries, order.drop_last()) + (if 0 <= i < entries.len() {
            child_payloads(entries[i])
        } else {
            Seq::empty()
        })
    }
}

/// The payloads of one child of a directory.
pub open spec fn child_payloads(child: Child) -> Seq<Seq<u8>>
    decreases child, 2nat,
{
    seq![
        Tag::Entry.bytes(),
        Tag::Open.bytes(),
        Tag::Name.bytes(),
        encode_utf8(child.name),
        Tag::Node.bytes(),
    ] + payloads(child.node) + seq![Tag::Close.bytes()]
}

/// The frames of the given payloads, one behind the other.
pub open spec fn wire(payloads: Seq<Seq<u8>>) -> Seq<u8>
    decreases payloads.len(),
{
    if payloads.len() == 0 {
        Seq::empty()
    } else {
        wire(payloads.drop_last()) + frame(payloads.last())
    }
}

/// The frames of two lists of payloads, one behind the other, are the
/// frames of the joined list.
pub proof fn lemma_wire_concat(a: Seq<Seq<u8>>, b: Seq<Seq<u8>>)
    ensures
        wire(a + b) == wire(a) + wire(b),
    decreases b.len(),
{
    if b.len() == 0 {
        assert(a + b =~= a);
        assert(wire(a) + wire(b) =~= wire(a));
    } else {
        lemma_wire_concat(a, b.drop_last());
        assert((a + b).drop_last() =~= a + b.drop_last());
        assert((a + b).last() == b.last());
        assert(wire(a + b) =~= wire(a) + (wire(b.drop_last()) + frame(b.last())));
    }
}

/// The frames of one payload, and of a payload before others.
pub proof fn lemma_wire_first(first: Seq<u8>, rest: Seq<Seq<u8>>)
    ensures
        wire(seq![first]) == frame(first),
        wire(seq![first] + rest) == frame(first) + wire(rest),
{
    assert(seq![first].drop_last() =~= Seq::<Seq<u8>>::empty());
    assert(wire(seq![first]) =~= frame(first)) by {
        reveal_with_fuel(wire, 2);
    }
    lemma_wire_concat(seq![first], rest);
}

/// The frames of a few payloads in a row.
pub proof fn lemma_wire_some(a: Seq<u8>, b: Seq<u8>, c: Seq<u8>, d: Seq<u8>, e: Seq<u8>)
    ensures
        wire(Seq::empty()) == Seq::<u8>::empty(),
        wire(seq![a, b]) == frame(a) + frame(b),
        wire(seq![a, b, c]) == frame(a) + frame(b) + frame(c),
        wire(seq![a, b, c, d, e]) == frame(a) + frame(b) + frame(c) + frame(d) + frame(e),
{
    lemma_wire_first(a, seq![b]);
    lemma_wire_first(b, Seq::empty());
    assert(seq![a, b] =~= seq![a] + seq![b]);
    lemma_wire_first(c, Seq::empty());
    lemma_wire_concat(seq![a, b], seq![c]);
    assert(seq![a, b, c] =~= seq![a, b] + seq![c]);
    lemma_wire_first(d, seq![e]);
    lemma_wire_first(e, Seq::empty());
    assert(seq![d, e] =~= seq![d] + seq![e]);
    lemma_wire_concat(seq![a, b, c], seq![d, e]);
    assert(seq![a, b, c, d, e] =~= seq![a, b, c] + seq![d, e]);
}

/// The bytes of a tree are the frames of its payloads.
pub proof fn lemma_node_is_wire(tree: Tree)
    ensures
        encode_node(tree) == wire(payloads(tree)),
        encode_body(tree) == wire(body_payloads(tree)),
    decreases tree, 0nat,
{
    reveal(encode_node);
    reveal(encode_body);
    reveal(encode_children);
    let e = Seq::<u8>::empty();
    lemma_wire_some(Tag::Open.bytes(), Tag::Type.bytes(), e, e, e);
    lemma_wire_first(Tag::Close.bytes(), Seq::empty());
    let body = body_payloads(tree);
    lemma_wire_concat(seq![Tag::Open.bytes(), Tag::Type.bytes()], body);
    lemma_wire_concat(
        seq![Tag::Open.bytes(), Tag::Type.bytes()] + body,
        seq![Tag::Close.bytes()],
    );
    match tree {
        Tree::Regular { executable, data } => {
            let flag = if executable {
                seq![Tag::Executable.bytes(), Tag::Empty.bytes()]
            } else {
                Seq::empty()
            };
            lemma_wire_some(Tag::Executable.bytes(), Tag::Empty.bytes(), e, e, e);
            lemma_wire_some(Tag::Contents.bytes(), data, e, e, e);
            lemma_wire_first(Tag::Regular.bytes(), flag);
            lemma_wire_concat(seq![Tag::Regular.bytes()] + flag, seq![Tag::Contents.bytes(), data]);
            assert(encode_body(tree) =~= wire(body));
        },
        Tree::Symlink { target } => {
            lemma_wire_some(Tag::Symlink.bytes(), Tag::Target.bytes(), encode_utf8(target), e, e);
        },
        Tree::Directory { entries } => {
            let order = sorted_order(names(entries));
            lemma_children_are_wire(entries, order);
            lemma_wire_first(Tag::Directory.bytes(), children_payloads(entries, order));
        },
    }
    assert(encode_node(tree) =~= wire(payloads(tree)));
}

/// The bytes of the listed children are the frames of their payloads.
pub proof fn lemma_children_are_wire(entries: Seq<Child>, order: Seq<int>)
    ensures
        encode_children(entries, order) == wire(children_payloads(entries, order)),
    decreases entries, order.len(),
{
    reveal_with_fuel(encode_children, 2);
    reveal(encode_child);
    reveal(encode_node);
    if order.len() == 0 {
        lemma_wire_some(Seq::empty(), Seq::empty(), Seq::empty(), Seq::empty(), Seq::empty());
    } else {
        lemma_children_are_wire(entries, order.drop_last());
        let i = order.last();
        let before = children_payloads(entries, order.drop_last());
        if 0 <= i < entries.len() {
            let child = entries[i];
            lemma_child_is_wire(child);
            lemma_wire_concat(before, child_payloads(child));
        } else {
            lemma_wire_concat(before, Seq::empty());
        }
    }
}

/// The bytes of a child are the frames of its payloads.
pub proof fn lemma_child_is_wire(child: Child)
    ensures
        encode_child(child) == wire(child_payloads(child)),
    decreases child, 1nat,
{
    reveal(encode_child);
    reveal(encode_node);
    let head = seq![
        Tag::Entry.bytes(),
        Tag::Open.bytes(),
        Tag::Name.bytes(),
        encode_utf8(child.name),
        Tag::Node.bytes(),
    ];
    lemma_node_is_wire(child.node);
    lemma_wire_some(
        Tag::Entry.bytes(),
        Tag::Open.bytes(),
        Tag::Name.bytes(),
        encode_utf8(child.name),
        Tag::Node.bytes(),
    );
    lemma_wire_first(Tag::Close.bytes(), Seq::empty());
    lemma_wire_concat(head, payloads(child.node));
    lemma_wire_concat(head + payloads(child.node), seq![Tag::Close.bytes()]);
    assert(encode_child(child) =~= wire(child_payloads(child)));
}

/// `s` holds at `pos` the frames of `payloads` before the `j`-th and the
/// length of the `j`-th, whose padding is not all zero.
pub open spec fn spoiled(s: Seq<u8>, pos: int, payloads: Seq<Seq<u8>>, j: int) -> bool {
    &&& 0 <= j < payloads.len()
    &&& stands_at(s, pos, wire(payloads.take(j)) + le_bytes(payloads[j].len(), 8))
    &&& read_frame(s, pos + wire(payloads.take(j)).len()) == Err::<(Seq<u8>, int), ErrorView>(
        ErrorView::BadPadding,
    )
}

/// Where the frame with bad padding is not the first, the first frame is
/// sound, and what is behind it holds the bad one.
pub proof fn lemma_spoiled_first(
    s: Seq<u8>,
    pos: int,
    first: Seq<u8>,
    rest: Seq<Seq<u8>>,
    j: int,
)
    requires
        spoiled(s, pos, seq![first] + rest, j),
    ensures
        j == 0 ==> read_frame(s, pos) == Err::<(Seq<u8>, int), ErrorView>(ErrorView::BadPadding)
            && stands_at(s, pos, le_bytes(first.len(), 8)),
        j > 0 ==> stands_at(s, pos, frame(first)) && spoiled(
            s,
            pos + frame(first).len(),
            rest,
            j - 1,
        ),
{
    let all = seq![first] + rest;
    if j == 0 {
        assert(all.take(0) =~= Seq::<Seq<u8>>::empty());
        assert(wire(all.take(0)) + le_bytes(first.len(), 8) =~= le_bytes(first.len(), 8));
    } else {
        assert(all.take(j) =~= seq![first] + rest.take(j - 1));
        lemma_wire_first(first, rest.take(j - 1));
        let size = le_bytes(rest[j - 1].len(), 8);
        assert(all[j] == rest[j - 1]);
        assert(wire(all.take(j)) + size =~= frame(first) + (wire(rest.take(j - 1)) + size));
        lemma_stands_at_split(s, pos, frame(first), wire(rest.take(j - 1)) + size);
    }
}

/// Where the frame with bad padding is in the second of two lists, the
/// first list is sound, and what is behind it holds the bad frame; where it
/// is in the first list, the second does not matter.
pub proof fn lemma_spoiled_split(s: Seq<u8>, pos: int, a: Seq<Seq<u8>>, b: Seq<Seq<u8>>, j: int)
    requires
        spoiled(s, pos, a + b, j),
    ensures
        j < a.len() ==> spoiled(s, pos, a, j),
        j >= a.len() ==> stands_at(s, pos, wire(a)) && spoiled(
            s,
            pos + wire(a).len(),
            b,
            j - a.len(),
        ),
{
    let all = a + b;
    if j < a.len() {
        assert(all.take(j) =~= a.take(j));
        assert(all[j] == a[j]);
    } else {
        let i = j - a.len();
        assert(all.take(j) =~= a + b.take(i));
        assert(all[j] == b[i]);
        lemma_wire_concat(a, b.take(i));
        let size = le_bytes(b[i].len(), 8);
        assert(wire(all.take(j)) + size =~= wire(a) + (wire(b.take(i)) + size));
        lemma_stands_at_split(s, pos, wire(a), wire(b.take(i)) + size);
    }
}

/// A frame of the right length whose padding is bad has padding: its
/// payload is no whole number of eight-byte words.
pub proof fn lemma_spoiled_has_padding(s: Seq<u8>, pos: int, payload: Seq<u8>)
    requires
        stands_at(s, pos, le_bytes(payload.len(), 8)),
        read_frame(s, pos) == Err::<(Seq<u8>, int), ErrorView>(ErrorView::BadPadding),
        payload.len() <= u64::MAX,
    ensures
        payload.len() % 8 != 0,
{
    reveal(read_frame);
    lemma_le_bytes_len(payload.len(), 8);
    assert(pow256(8) == 0x1_0000_0000_0000_0000) by {
        reveal_with_fuel(pow256, 9);
    }
    lemma_le_roundtrip(payload.len(), 8);
    let len = le_value(s.subrange(pos, pos + 8));
    assert(len == payload.len());
    if payload.len() % 8 == 0 {
        assert(s.subrange(pos + 8 + len, pos + 8 + len + 0) =~= crate::frame::zeros(0));
    }
}

/// What reading a marker gives where the marker is the first of a list of
/// payloads that holds a frame with bad padding: `BadPadding` where the
/// marker's own frame is the bad one; else the marker, and the bad frame
/// is in the rest of the list.
pub proof fn lemma_spoiled_token(s: Seq<u8>, pos: int, tag: Tag, rest: Seq<Seq<u8>>, j: int)
    requires
        spoiled(s, pos, seq![tag.bytes()] + rest, j),
    ensures
        j == 0 ==> read_frame(s, pos) == Err::<(Seq<u8>, int), ErrorView>(ErrorView::BadPadding)
            && tag != Tag::Empty,
        j > 0 ==> {
            &&& read_text(s, pos) == Ok::<(Seq<char>, int), ErrorView>(
                (tag.text(), pos + token(tag).len()),
            )
            &&& expect(s, pos, tag) == Ok::<int, ErrorView>(pos + token(tag).len())
            &&& spoiled(s, pos + token(tag).len(), rest, j - 1)
        },
{
    lemma_spoiled_first(s, pos, tag.bytes(), rest, j);
    if j == 0 {
        assert(tag.bytes().len() <= 10);
        lemma_spoiled_has_padding(s, pos, tag.bytes());
    } else {
        lemma_read_token(s, pos, tag);
    }
}

/// A regular file's body that holds a frame with bad padding is refused
/// with `BadPadding`.
pub proof fn lemma_regular_spoiled(
    s: Seq<u8>,
    pos: int,
    executable: bool,
    data: Seq<u8>,
    path: Seq<char>,
    j: int,
)
    requires
        data.len() <= u64::MAX,
        spoiled(
            s,
            pos,
            (if executable {
                seq![Tag::Executable.bytes(), Tag::Empty.bytes()]
            } else {
                Seq::empty()
            }) + seq![Tag::Contents.bytes(), data, Tag::Close.bytes()],
            j,
        ),
    ensures
        regular_trace(s, pos, path) == Trace::fail(ErrorView::BadPadding),
{
    let tail = seq![Tag::Contents.bytes(), data, Tag::Close.bytes()];
    let after_contents = seq![data, Tag::Close.bytes()];
    let last = seq![Tag::Close.bytes()];
    assert(tail =~= seq![Tag::Contents.bytes()] + after_contents);
    assert(after_contents =~= seq![data] + last);
    assert(last =~= seq![Tag::Close.bytes()] + Seq::<Seq<u8>>::empty());
    assert(Tag::Contents.text().len() == 8);
    assert(Tag::Executable.text().len() == 10);
    if executable {
        let flag = seq![Tag::Executable.bytes(), Tag::Empty.bytes()];
        assert(flag + tail =~= seq![Tag::Executable.bytes()] + (seq![Tag::Empty.bytes()] + tail));
        lemma_spoiled_token(s, pos, Tag::Executable, seq![Tag::Empty.bytes()] + tail, j);
        if j == 0 {
            lemma_bad_padding_ends_reading(s, pos, path, Seq::empty(), false);
        } else {
            let at1 = pos + token(Tag::Executable).len();
            lemma_spoiled_token(s, at1, Tag::Empty, tail, j - 1);
            lemma_contents_spoiled(s, at1 + token(Tag::Empty).len(), true, data, path, j - 2);
        }
    } else {
        assert(Seq::<Seq<u8>>::empty() + tail =~= tail);
        lemma_contents_spoiled(s, pos, false, data, path, j);
        match read_text(s, pos) {
            Ok((first, _)) => {
                assert(first != Tag::Executable.text());
            },
            Err(_) => {},
        }
    }
}

/// A regular file's body from `contents` on that holds a frame with bad
/// padding is refused with `BadPadding`: by the read that was to find
/// `contents` where that frame is the bad one, and else by what follows.
pub proof fn lemma_contents_spoiled(
    s: Seq<u8>,
    pos: int,
    executable: bool,
    data: Seq<u8>,
    path: Seq<char>,
    j: int,
)
    requires
        data.len() <= u64::MAX,
        spoiled(s, pos, seq![Tag::Contents.bytes(), data, Tag::Close.bytes()], j),
    ensures
        match read_text(s, pos) {
            Err(e) => e == ErrorView::BadPadding,
            Ok((first, at1)) => first == Tag::Contents.text() && crate::grammar::contents_trace(
                s,
                first,
                at1,
                path,
                executable,
            ) == Trace::fail(ErrorView::BadPadding),
        },
{
    let tail = seq![Tag::Contents.bytes(), data, Tag::Close.bytes()];
    let after_contents = seq![data, Tag::Close.bytes()];
    let last = seq![Tag::Close.bytes()];
    assert(tail =~= seq![Tag::Contents.bytes()] + after_contents);
    assert(after_contents =~= seq![data] + last);
    assert(last =~= seq![Tag::Close.bytes()] + Seq::<Seq<u8>>::empty());
    lemma_spoiled_token(s, pos, Tag::Contents, after_contents, j);
    if j == 0 {
        lemma_bad_padding_ends_reading(s, pos, path, Seq::empty(), false);
    } else {
        let at1 = pos + token(Tag::Contents).len();
        lemma_spoiled_first(s, at1, data, last, j - 1);
        if j > 1 {
            crate::frame::lemma_read_frame(s, at1, data);
            let at2 = at1 + frame(data).len();
            lemma_spoiled_token(s, at2, Tag::Close, Seq::empty(), j - 2);
            lemma_bad_padding_ends_reading(s, at2, path, Seq::empty(), false);
        }
    }
}

/// A symbolic link's body that holds a frame with bad padding is refused
/// with `BadPadding`.
pub proof fn lemma_symlink_spoiled(s: Seq<u8>, pos: int, target: Seq<char>, path: Seq<char>, j: int)
    requires
        encode_utf8(target).len() <= u64::MAX,
        spoiled(
            s,
            pos,
            seq![Tag::Target.bytes(), encode_utf8(target), Tag::Close.bytes()],
            j,
        ),
    ensures
        symlink_trace(s, pos, path) == Trace::fail(ErrorView::BadPadding),
{
    let text = encode_utf8(target);
    let all = seq![Tag::Target.bytes(), text, Tag::Close.bytes()];
    let last = seq![Tag::Close.bytes()];
    assert(all =~= seq![Tag::Target.bytes()] + (seq![text] + last));
    assert(last =~= seq![Tag::Close.bytes()] + Seq::<Seq<u8>>::empty());
    lemma_spoiled_token(s, pos, Tag::Target, seq![text] + last, j);
    if j == 0 {
        lemma_bad_padding_ends_reading(s, pos, path, Seq::empty(), false);
    } else {
        let at1 = pos + token(Tag::Target).len();
        lemma_spoiled_first(s, at1, text, last, j - 1);
        if j == 1 {
            lemma_bad_padding_ends_reading(s, at1, path, Seq::empty(), false);
        } else {
            lemma_read_text(s, at1, target);
            let at2 = at1 + frame(text).len();
            lemma_spoiled_token(s, at2, Tag::Close, Seq::empty(), j - 2);
            lemma_bad_padding_ends_reading(s, at2, path, Seq::empty(), false);
        }
    }
}

/// The payloads of the children that a list names begin with those of the
/// first child in the list.
pub proof fn lemma_children_payloads_front(entries: Seq<Child>, order: Seq<int>)
    requires
        order.len() > 0,
        0 <= order[0] < entries.len(),
    ensures
        children_payloads(entries, order) == child_payloads(entries[order[0]])
            + children_payloads(entries, order.skip(1)),
    decreases order.len(),
{
    let first = child_payloads(entries[order[0]]);
    if order.len() == 1 {
        assert(order.drop_last() =~= Seq::<int>::empty());
        assert(order.skip(1) =~= Seq::<int>::empty());
        assert(children_payloads(entries, order) =~= first + Seq::<Seq<u8>>::empty()) by {
            reveal_with_fuel(children_payloads, 2);
        }
    } else {
        let shorter = order.drop_last();
        lemma_children_payloads_front(entries, shorter);
        assert(order.skip(1).drop_last() =~= shorter.skip(1));
        assert(order.skip(1).last() == order.last());
        assert(shorter[0] == order[0]);
        let i = order.last();
        let last = if 0 <= i < entries.len() {
            child_payloads(entries[i])
        } else {
            Seq::empty()
        };
        assert(children_payloads(entries, order) =~= first + (children_payloads(
            entries,
            shorter.skip(1),
        ) + last));
    }
}

/// The head of a child that holds a frame with bad padding ends the
/// reading of the child's directory with `BadPadding`.
pub proof fn lemma_head_spoiled(s: Seq<u8>, pos: int, name: Seq<char>, path: Seq<char>, j: int)
    requires
        encode_utf8(name).len() <= u64::MAX,
        name_error(name) is None,
        spoiled(
            s,
            pos,
            seq![
                Tag::Entry.bytes(),
                Tag::Open.bytes(),
                Tag::Name.bytes(),
                encode_utf8(name),
                Tag::Node.bytes(),
            ],
            j,
        ),
    ensures
        dir_trace(s, pos, path) == Trace::fail(ErrorView::BadPadding),
{
    reveal(dir_trace);
    let text = encode_utf8(name);
    let all = seq![
        Tag::Entry.bytes(),
        Tag::Open.bytes(),
        Tag::Name.bytes(),
        text,
        Tag::Node.bytes(),
    ];
    let r1 = seq![Tag::Open.bytes(), Tag::Name.bytes(), text, Tag::Node.bytes()];
    let r2 = seq![Tag::Name.bytes(), text, Tag::Node.bytes()];
    let r3 = seq![text, Tag::Node.bytes()];
    let r4 = seq![Tag::Node.bytes()];
    assert(all =~= seq![Tag::Entry.bytes()] + r1);
    assert(r1 =~= seq![Tag::Open.bytes()] + r2);
    assert(r2 =~= seq![Tag::Name.bytes()] + r3);
    assert(r3 =~= seq![text] + r4);
    assert(r4 =~= seq![Tag::Node.bytes()] + Seq::<Seq<u8>>::empty());
    lemma_spoiled_token(s, pos, Tag::Entry, r1, j);
    if j == 0 {
        lemma_bad_padding_ends_reading(s, pos, path, Seq::empty(), false);
    } else {
        let at1 = pos + token(Tag::Entry).len();
        lemma_spoiled_token(s, at1, Tag::Open, r2, j - 1);
        if j == 1 {
            lemma_bad_padding_ends_reading(s, at1, path, Seq::empty(), false);
        } else {
            let at2 = at1 + token(Tag::Open).len();
            lemma_spoiled_token(s, at2, Tag::Name, r3, j - 2);
            if j == 2 {
                lemma_bad_padding_ends_reading(s, at2, path, Seq::empty(), false);
            } else {
                let at3 = at2 + token(Tag::Name).len();
                lemma_spoiled_first(s, at3, text, r4, j - 3);
                if j == 3 {
                    lemma_bad_padding_ends_reading(s, at3, path, Seq::empty(), false);
                } else {
                    lemma_read_text(s, at3, name);
                    let at4 = at3 + frame(text).len();
                    lemma_spoiled_token(s, at4, Tag::Node, Seq::empty(), j - 4);
                    lemma_bad_padding_ends_reading(s, at4, path, Seq::empty(), false);
                }
            }
        }
    }
}

/// The bytes of a tree that hold a frame with bad padding are refused
/// with `BadPadding`, once the nodes before that frame have been yielded.
pub proof fn lemma_node_spoiled(s: Seq<u8>, pos: int, tree: Tree, path: Seq<char>, j: int)
    requires
        well_formed(tree),
        spoiled(s, pos, payloads(tree), j),
    ensures
        node_trace(s, pos, path).end == Err::<int, ErrorView>(ErrorView::BadPadding),
    decreases tree, 0nat,
{
    reveal(node_trace);
    reveal(dir_trace);
    let body = body_payloads(tree);
    let last = seq![Tag::Close.bytes()];
    let r1 = seq![Tag::Type.bytes()] + (body + last);
    assert(payloads(tree) =~= seq![Tag::Open.bytes()] + r1);
    assert(Tag::Regular.text().len() == 7 && Tag::Regular.text()[0] == 'r');
    assert(Tag::Symlink.text().len() == 7 && Tag::Symlink.text()[0] == 's');
    assert(Tag::Directory.text().len() == 9);
    lemma_spoiled_token(s, pos, Tag::Open, r1, j);
    if j == 0 {
        lemma_bad_padding_ends_reading(s, pos, path, Seq::empty(), false);
    } else {
        let at1 = pos + token(Tag::Open).len();
        lemma_spoiled_token(s, at1, Tag::Type, body + last, j - 1);
        if j == 1 {
            lemma_bad_padding_ends_reading(s, at1, path, Seq::empty(), false);
        } else {
            let at2 = at1 + token(Tag::Type).len();
            match tree {
                Tree::Regular { executable, data } => {
                    let flag = if executable {
                        seq![Tag::Executable.bytes(), Tag::Empty.bytes()]
                    } else {
                        Seq::empty()
                    };
                    let rest = flag + seq![Tag::Contents.bytes(), data, Tag::Close.bytes()];
                    assert(body + last =~= seq![Tag::Regular.bytes()] + rest);
                    lemma_spoiled_token(s, at2, Tag::Regular, rest, j - 2);
                    if j == 2 {
                        lemma_bad_padding_ends_reading(s, at2, path, Seq::empty(), false);
                    } else {
                        lemma_regular_spoiled(
                            s,
                            at2 + token(Tag::Regular).len(),
                            executable,
                            data,
                            path,
                            j - 3,
                        );
                    }
                },
                Tree::Symlink { target } => {
                    let rest = seq![Tag::Target.bytes(), encode_utf8(target), Tag::Close.bytes()];
                    assert(body + last =~= seq![Tag::Symlink.bytes()] + rest);
                    lemma_spoiled_token(s, at2, Tag::Symlink, rest, j - 2);
                    if j == 2 {
                        lemma_bad_padding_ends_reading(s, at2, path, Seq::empty(), false);
                    } else {
                        lemma_symlink_spoiled(
                            s,
                            at2 + token(Tag::Symlink).len(),
                            target,
                            path,
                            j - 3,
                        );
                    }
                },
                Tree::Directory { entries } => {
                    let order = sorted_order(names(entries));
                    let rest = children_payloads(entries, order) + last;
                    assert(body + last =~= seq![Tag::Directory.bytes()] + rest);
                    lemma_spoiled_token(s, at2, Tag::Directory, rest, j - 2);
                    if j == 2 {
                        lemma_bad_padding_ends_reading(s, at2, path, Seq::empty(), false);
                    } else {
                        crate::order::lemma_sorted_order(names(entries));
                        lemma_dir_spoiled(
                            s,
                            at2 + token(Tag::Directory).len(),
                            entries,
                            order,
                            path,
                            j - 3,
                        );
                    }
                },
            }
        }
    }
}

/// The bytes of the listed children of a directory and of its closing `)`
/// that hold a frame with bad padding are refused with `BadPadding`, once
/// the nodes before that frame have been yielded.
pub proof fn lemma_dir_spoiled(
    s: Seq<u8>,
    pos: int,
    entries: Seq<Child>,
    order: Seq<int>,
    path: Seq<char>,
    j: int,
)
    requires
        well_formed(Tree::Directory { entries }),
        forall|k: int| 0 <= k < order.len() ==> 0 <= #[trigger] order[k] < entries.len(),
        spoiled(s, pos, children_payloads(entries, order) + seq![Tag::Close.bytes()], j),
    ensures
        dir_trace(s, pos, path).end == Err::<int, ErrorView>(ErrorView::BadPadding),
    decreases entries, order.len(),
{
    let last = seq![Tag::Close.bytes()];
    if order.len() == 0 {
        assert(children_payloads(entries, order) + last =~= seq![Tag::Close.bytes()]
            + Seq::<Seq<u8>>::empty());
        lemma_spoiled_token(s, pos, Tag::Close, Seq::empty(), j);
        lemma_bad_padding_ends_reading(s, pos, path, Seq::empty(), false);
    } else {
        let child = entries[order[0]];
        let rest = order.skip(1);
        let child_path = join(path, child.name);
        lemma_children_payloads_front(entries, order);
        let head = seq![
            Tag::Entry.bytes(),
            Tag::Open.bytes(),
            Tag::Name.bytes(),
            encode_utf8(child.name),
            Tag::Node.bytes(),
        ];
        let node = payloads(child.node);
        let others = children_payloads(entries, rest) + last;
        assert(children_payloads(entries, order) + last =~= head + (node + (last + others)));
        lemma_spoiled_split(s, pos, head, node + (last + others), j);
        if j < head.len() {
            lemma_head_spoiled(s, pos, child.name, path, j);
        } else {
            lemma_wire_some(
                Tag::Entry.bytes(),
                Tag::Open.bytes(),
                Tag::Name.bytes(),
                encode_utf8(child.name),
                Tag::Node.bytes(),
            );
            assert(wire(head) == child_head(child.name));
            lemma_child_head(s, pos, child.name);
            let at1 = pos + token(Tag::Entry).len();
            let at2 = pos + wire(head).len();
            let j2 = j - head.len();
            lemma_spoiled_split(s, at2, node, last + others, j2);
            if j2 < node.len() {
                lemma_node_spoiled(s, at2, child.node, child_path, j2);
                assert(dir_trace(s, pos, path) == node_trace(s, at2, child_path)) by {
                    reveal(dir_trace);
                    reveal(node_trace);
                    reveal(close_trace);
                }
            } else {
                lemma_node_is_wire(child.node);
                lemma_node(s, at2, child.node, child_path);
                let at3 = at2 + wire(node).len();
                let j3 = j2 - node.len();
                assert(last + others =~= seq![Tag::Close.bytes()] + others);
                lemma_spoiled_token(s, at3, Tag::Close, others, j3);
                if j3 == 0 {
                    lemma_bad_padding_ends_reading(s, at3, path, Seq::empty(), false);
                    assert(dir_trace(s, pos, path).end == close_trace(s, at3, path).end) by {
                        reveal(dir_trace);
                        reveal(node_trace);
                        reveal(close_trace);
                    }
                } else {
                    let at4 = at3 + token(Tag::Close).len();
                    assert forall|k: int| 0 <= k < rest.len() implies 0 <= #[trigger] rest[k]
                        < entries.len() by {
                        assert(rest[k] == order[k + 1]);
                    }
                    lemma_dir_spoiled(s, at4, entries, rest, path, j3 - 1);
                    lemma_dir_child(s, pos, path, child.name, at1, at2, at3, at4);
                }
            }
        }
    }
}

/// An archive that is sound up to the length of one of its frames, whose
/// padding is all there but not all zero, is refused with `BadPadding`:
/// reading yields the nodes before that frame and then fails. The frames
/// of an archive are that of the magic text and those of its tree.
pub proof fn lemma_bad_padding_is_refused(s: Seq<u8>, tree: Tree, j: int)
    requires
        well_formed(tree),
        spoiled(s, 0, seq![magic()] + payloads(tree), j),
    ensures
        archive_trace(s).end == Err::<int, ErrorView>(ErrorView::BadPadding),
        encode(tree) == wire(seq![magic()] + payloads(tree)),
{
    lemma_node_is_wire(tree);
    lemma_wire_first(magic(), payloads(tree));
    lemma_spoiled_first(s, 0, magic(), payloads(tree), j);
    if j == 0 {
        lemma_bad_padding_ends_reading(s, 0, Seq::empty(), Seq::empty(), false);
    } else {
        crate::frame::lemma_read_frame(s, 0, magic());
        lemma_node_spoiled(s, frame(magic()).len() as int, tree, Seq::empty(), j - 1);
    }
}

/// Every payload of a tree that an archive can hold fits the 64 bits of a
/// frame's length.
pub proof fn lemma_payloads_fit(tree: Tree)
    requires
        well_formed(tree),
    ensures
        forall|i: int| 0 <= i < payloads(tree).len() ==> (#[trigger] payloads(tree)[i]).len()
            <= u64::MAX,
    decreases tree, 0nat,
{
    let ps = payloads(tree);
    assert forall|i: int| 0 <= i < ps.len() implies (#[trigger] ps[i]).len() <= u64::MAX by {
        let body = body_payloads(tree);
        if 2 <= i < 2 + body.len() {
            assert(ps[i] == body[i - 2]);
            match tree {
                Tree::Regular { executable, data } => {},
                Tree::Symlink { target } => {},
                Tree::Directory { entries } => {
                    let order = sorted_order(names(entries));
                    crate::order::lemma_sorted_order(names(entries));
                    lemma_children_payloads_fit(entries, order);
                    if i > 2 {
                        assert(body[i - 2] == children_payloads(entries, order)[i - 3]);
                    }
                },
            }
        }
    }
}

/// Every payload of the listed children fits the 64 bits of a frame's
/// length.
pub proof fn lemma_children_payloads_fit(entries: Seq<Child>, order: Seq<int>)
    requires
        well_formed(Tree::Directory { entries }),
    ensures
        forall|i: int|
            0 <= i < children_payloads(entries, order).len() ==> (#[trigger] children_payloads(
                entries,
                order,
            )[i]).len() <= u64::MAX,
    decreases entries, order.len(),
{
    if order.len() > 0 {
        let before = children_payloads(entries, order.drop_last());
        lemma_children_payloads_fit(entries, order.drop_last());
        let k = order.last();
        if 0 <= k < entries.len() {
            let child = entries[k];
            assert(name_error(entries[k].name) is None);
            lemma_payloads_fit(child.node);
            let all = children_payloads(entries, order);
            let own = child_payloads(child);
            assert forall|i: int| 0 <= i < all.len() implies (#[trigger] all[i]).len()
                <= u64::MAX by {
                if i >= before.len() {
                    let m = i - before.len();
                    assert(all[i] == own[m]);
                    if 5 <= m < 5 + payloads(child.node).len() {
                        assert(own[m] == payloads(child.node)[m - 5]);
                    }
                } else {
                    assert(all[i] == before[i]);
                }
            }
        }
    }
}

/// The frames of a list of payloads are those before the `j`-th, the
/// `j`-th, and those behind it.
pub proof fn lemma_wire_at(payloads: Seq<Seq<u8>>, j: int)
    requires
        0 <= j < payloads.len(),
    ensures
        wire(payloads) == wire(payloads.take(j)) + frame(payloads[j]) + wire(payloads.skip(j + 1)),
{
    assert(payloads =~= payloads.take(j) + (seq![payloads[j]] + payloads.skip(j + 1)));
    lemma_wire_concat(payloads.take(j), seq![payloads[j]] + payloads.skip(j + 1));
    lemma_wire_first(payloads[j], payloads.skip(j + 1));
    assert(wire(payloads) =~= wire(payloads.take(j)) + frame(payloads[j]) + wire(
        payloads.skip(j + 1),
    ));
}

/// An archive in which one padding byte was set to another value than
/// zero is refused with `BadPadding`. The byte `k` is a padding byte of the
/// `j`-th frame: it lies behind the frame's eight length bytes and its
/// payload, and before the next frame.
pub proof fn lemma_tampered_padding_is_refused(tree: Tree, j: int, k: int, v: u8)
    requires
        well_formed(tree),
        v != 0,
        0 <= j < (seq![magic()] + payloads(tree)).len(),
        ({
            let all = seq![magic()] + payloads(tree);
            let payload_end = wire(all.take(j)).len() + 8 + all[j].len();
            payload_end <= k < payload_end + pad_len(all[j].len())
        }),
    ensures
        0 <= k < encode(tree).len(),
        encode(tree)[k] == 0,
        archive_trace(encode(tree).update(k, v)).end == Err::<int, ErrorView>(
            ErrorView::BadPadding,
        ),
{
    let all = seq![magic()] + payloads(tree);
    let good = encode(tree);
    let s = good.update(k, v);
    let before = wire(all.take(j));
    let payload = all[j];
    let len = payload.len();
    let start = before.len() as int;
    lemma_node_is_wire(tree);
    lemma_wire_first(magic(), payloads(tree));
    lemma_wire_at(all, j);
    lemma_payloads_fit(tree);
    if j > 0 {
        assert(all[j] == payloads(tree)[j - 1]);
    }
    lemma_frame_len(payload);
    lemma_le_bytes_len(len, 8);
    reveal(frame);
    let size = le_bytes(len, 8);
    let pad = crate::frame::zeros(pad_len(len));
    assert(good =~= before + (size + payload + pad) + wire(all.skip(j + 1)));
    assert(good[k] == pad[k - (start + 8 + len)]);
    assert(s.subrange(0, start + 8) =~= before + size);
    assert(s.subrange(start, start + 8) =~= size);
    assert(pow256(8) == 0x1_0000_0000_0000_0000) by {
        reveal_with_fuel(pow256, 9);
    }
    lemma_le_roundtrip(len, 8);
    lemma_bad_padding(s, start, k);
    lemma_bad_padding_is_refused(s, tree, j);
}

} // verus!
