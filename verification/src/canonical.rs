//! The archive of a tree does not depend on the order in which the
//! children of its directories are held.

use vstd::prelude::*;
use crate::node::{
    encode, encode_body, encode_child, encode_children, encode_node, names, sorted_order,
    sorted_prefix, Child, Tree,
};
use crate::order::{
    is_permutation, lemma_increasing_unique, lemma_sorted_order, lemma_sorted_prefix_complete,
    strictly_increasing,
};
use crate::text::lemma_utf8_injective;

verus! {

/// No two of `entries` have the same name.
pub open spec fn distinct_names(entries: Seq<Child>) -> bool {
    forall|i: int, j: int|
        0 <= i < j < entries.len() ==> (#[trigger] entries[i]).name != (#[trigger] entries[j]).name
}

/// `a` and `b` are the same tree: the same file, the same link, or
/// directories with as many children, no two children of one name, and for
/// each child of the one a child of the other with that name that is the
/// same tree in turn.
#[verifier::opaque]
pub open spec fn same_tree(a: Tree, b: Tree) -> bool
    decreases a,
{
    match (a, b) {
        (Tree::Regular { executable: e1, data: d1 }, Tree::Regular { executable: e2, data: d2 }) => {
            e1 == e2 && d1 == d2
        },
        (Tree::Symlink { target: t1 }, Tree::Symlink { target: t2 }) => t1 == t2,
        (Tree::Directory { entries: x }, Tree::Directory { entries: y }) => {
            &&& x.len() == y.len()
            &&& distinct_names(x)
            &&& distinct_names(y)
            &&& forall|i: int|
                0 <= i < x.len() ==> exists|j: int|
                    0 <= j < y.len() && (#[trigger] x[i]).name == (#[trigger] y[j]).name
                        && same_tree(x[i].node, y[j].node)
            &&& forall|j: int|
                0 <= j < y.len() ==> exists|i: int|
                    0 <= i < x.len() && (#[trigger] x[i]).name == (#[trigger] y[j]).name
        },
        _ => false,
    }
}

/// The names of the children in the order in which they are written.
pub open spec fn sorted_names(entries: Seq<Child>) -> Seq<Seq<u8>> {
    Seq::new(entries.len(), |a: int| names(entries)[sorted_order(names(entries))[a]])
}

/// The names of children of which no two have the same name are written
/// each once, every one strictly before the next.
pub proof fn lemma_sorted_names(entries: Seq<Child>)
    requires
        distinct_names(entries),
    ensures
        strictly_increasing(sorted_names(entries)),
        is_permutation(sorted_order(names(entries)), entries.len()),
        forall|i: int|
            0 <= i < entries.len() ==> sorted_names(entries).contains(
                #[trigger] names(entries)[i],
            ),
{
    let keys = names(entries);
    let order = sorted_order(keys);
    assert forall|i: int, j: int| 0 <= i < j < keys.len() implies keys[i] != keys[j] by {
        if keys[i] == keys[j] {
            lemma_utf8_injective(entries[i].name, entries[j].name);
        }
    }
    lemma_sorted_order(keys);
    assert forall|i: int| 0 <= i < entries.len() implies sorted_names(entries).contains(
        #[trigger] keys[i],
    ) by {
        lemma_sorted_prefix_complete(keys, keys.len(), i);
        let k = choose|k: int| 0 <= k < keys.len() && #[trigger] sorted_prefix(keys, keys.len())[k]
            == i;
        assert(sorted_names(entries)[k] == keys[i]);
    }
}

/// Directories that are the same tree have their children's names
/// written in the same order.
pub proof fn lemma_same_names(x: Seq<Child>, y: Seq<Child>)
    requires
        same_tree(Tree::Directory { entries: x }, Tree::Directory { entries: y }),
    ensures
        x.len() == y.len(),
        sorted_names(x) == sorted_names(y),
        is_permutation(sorted_order(names(x)), x.len()),
        is_permutation(sorted_order(names(y)), y.len()),
{
    reveal(same_tree);
    lemma_sorted_names(x);
    lemma_sorted_names(y);
    let ox = sorted_order(names(x));
    let oy = sorted_order(names(y));
    let nx = sorted_names(x);
    let ny = sorted_names(y);
    assert forall|p: int| 0 <= p < nx.len() implies ny.contains(#[trigger] nx[p]) by {
        let i = ox[p];
        let j = choose|j: int|
            0 <= j < y.len() && (#[trigger] x[i]).name == (#[trigger] y[j]).name && same_tree(
                x[i].node,
                y[j].node,
            );
        assert(names(y)[j] == nx[p]);
    }
    assert forall|q: int| 0 <= q < ny.len() implies nx.contains(#[trigger] ny[q]) by {
        let j = oy[q];
        let i = choose|i: int| 0 <= i < x.len() && (#[trigger] x[i]).name == (#[trigger] y[j]).name;
        assert(names(x)[i] == ny[q]);
    }
    lemma_increasing_unique(nx, ny);
}

/// Trees that are the same have the same bytes.
pub proof fn lemma_same_tree_same_bytes(a: Tree, b: Tree)
    requires
        same_tree(a, b),
    ensures
        encode_node(a) == encode_node(b),
        encode(a) == encode(b),
    decreases a, 0nat,
{
    match (a, b) {
        (Tree::Directory { entries: x }, Tree::Directory { entries: y }) => {
            lemma_same_names(x, y);
            lemma_same_children(x, y, x.len() as int);
            let ox = sorted_order(names(x));
            let oy = sorted_order(names(y));
            assert(ox.take(x.len() as int) =~= ox);
            assert(oy.take(y.len() as int) =~= oy);
            assert(encode_node(a) == encode_node(b)) by {
                reveal(encode_node);
                reveal(encode_body);
                reveal(encode_children);
            }
        },
        _ => {
            assert(a == b) by {
                reveal(same_tree);
            }
        },
    }
}

/// In two directories that are the same tree, children of one name are
/// the same tree.
pub proof fn lemma_same_child(x: Seq<Child>, y: Seq<Child>, i: int, k: int)
    requires
        same_tree(Tree::Directory { entries: x }, Tree::Directory { entries: y }),
        0 <= i < x.len(),
        0 <= k < y.len(),
        x[i].name == y[k].name,
    ensures
        same_tree(x[i].node, y[k].node),
{
    reveal(same_tree);
    let j = choose|j: int|
        0 <= j < y.len() && (#[trigger] x[i]).name == (#[trigger] y[j]).name && same_tree(
            x[i].node,
            y[j].node,
        );
    if j < k {
        assert(y[j].name != y[k].name);
    }
    if k < j {
        assert(y[k].name != y[j].name);
    }
}

/// Children of one name whose nodes have the same bytes have the same
/// bytes.
pub proof fn lemma_child_bytes(a: Child, b: Child)
    requires
        a.name == b.name,
        encode_node(a.node) == encode_node(b.node),
    ensures
        encode_child(a) == encode_child(b),
{
    reveal(encode_child);
    reveal(encode_node);
}

/// The first `m` children of two directories that are the same tree, in
/// the order in which they are written, have the same bytes.
pub proof fn lemma_same_children(x: Seq<Child>, y: Seq<Child>, m: int)
    requires
        same_tree(Tree::Directory { entries: x }, Tree::Directory { entries: y }),
        sorted_names(x) == sorted_names(y),
        is_permutation(sorted_order(names(x)), x.len()),
        is_permutation(sorted_order(names(y)), y.len()),
        0 <= m <= x.len(),
    ensures
        encode_children(x, sorted_order(names(x)).take(m)) == encode_children(
            y,
            sorted_order(names(y)).take(m),
        ),
    decreases x, m,
{
    let ox = sorted_order(names(x));
    let oy = sorted_order(names(y));
    assert(x.len() == y.len()) by {
        reveal(same_tree);
    }
    if m == 0 {
        assert(ox.take(0) =~= oy.take(0));
        reveal(encode_children);
    } else {
        lemma_same_children(x, y, m - 1);
        let i = ox[m - 1];
        let k = oy[m - 1];
        assert(sorted_names(x)[m - 1] == names(x)[i]);
        assert(sorted_names(y)[m - 1] == names(y)[k]);
        lemma_utf8_injective(x[i].name, y[k].name);
        lemma_same_child(x, y, i, k);
        lemma_same_tree_same_bytes(x[i].node, y[k].node);
        lemma_child_bytes(x[i], y[k]);
        lemma_children_step(x, ox, m);
        lemma_children_step(y, oy, m);
    }
}

/// The bytes of the first `m` listed children are those of the first
/// `m - 1` and then those of the `m`-th.
pub proof fn lemma_children_step(entries: Seq<Child>, order: Seq<int>, m: int)
    requires
        0 < m <= order.len(),
        0 <= order[m - 1] < entries.len(),
    ensures
        encode_children(entries, order.take(m)) == encode_children(entries, order.take(m - 1))
            + encode_child(entries[order[m - 1]]),
{
    reveal(encode_children);
    reveal(encode_child);
    assert(order.take(m).drop_last() =~= order.take(m - 1));
    assert(order.take(m).last() == order[m - 1]);
}

} // verus!
