//! The order of a directory's children: byte-lexicographic by name.

use vstd::prelude::*;
use crate::node::{insert_pos, sorted_order, sorted_prefix};
use crate::text::{lex_le, lex_lt};

verus! {

/// Of two byte strings either one comes before the other, or they are
/// equal; never two of these at once.
pub proof fn lemma_lex_total(a: Seq<u8>, b: Seq<u8>)
    ensures
        lex_lt(a, b) || lex_lt(b, a) || a == b,
        !(lex_lt(a, b) && lex_lt(b, a)),
        !lex_lt(a, a),
    decreases a.len(),
{
    if a.len() > 0 {
        lemma_lex_total(a.skip(1), a.skip(1));
    }
    if a.len() == 0 || b.len() == 0 {
        if a.len() == 0 && b.len() == 0 {
            assert(a =~= b);
        }
    } else if a[0] == b[0] {
        lemma_lex_total(a.skip(1), b.skip(1));
        if a.skip(1) == b.skip(1) {
            assert(a =~= seq![a[0]] + a.skip(1));
            assert(b =~= seq![b[0]] + b.skip(1));
        }
    }
}

/// What comes before something that comes before a third comes before the
/// third.
pub proof fn lemma_lex_transitive(a: Seq<u8>, b: Seq<u8>, c: Seq<u8>)
    requires
        lex_lt(a, b),
        lex_lt(b, c),
    ensures
        lex_lt(a, c),
    decreases a.len(),
{
    if a.len() > 0 && b.len() > 0 && c.len() > 0 && a[0] == b[0] && b[0] == c[0] {
        lemma_lex_transitive(a.skip(1), b.skip(1), c.skip(1));
    }
}

/// What does not come after something that does not come after a third
/// does not come after the third.
pub proof fn lemma_lex_le_transitive(a: Seq<u8>, b: Seq<u8>, c: Seq<u8>)
    requires
        lex_le(a, b),
        lex_le(b, c),
    ensures
        lex_le(a, c),
{
    lemma_lex_total(a, b);
    if lex_lt(c, a) {
        if a == b {
        } else {
            lemma_lex_transitive(c, a, b);
        }
    }
}

/// `order` lists indices into `keys` with no key before the one of an
/// earlier index.
pub open spec fn is_sorted(keys: Seq<Seq<u8>>, order: Seq<int>) -> bool {
    forall|a: int, b: int|
        0 <= a < b < order.len() ==> lex_le(keys[#[trigger] order[a]], keys[#[trigger] order[b]])
}

/// `order` lists every index below `n` once and nothing else.
pub open spec fn is_permutation(order: Seq<int>, n: nat) -> bool {
    &&& order.len() == n
    &&& forall|k: int| 0 <= k < order.len() ==> 0 <= #[trigger] order[k] < n
    &&& forall|a: int, b: int|
        0 <= a < b < order.len() ==> #[trigger] order[a] != #[trigger] order[b]
}

/// Where `insert_pos` points, every key before is no greater than `key`,
/// and `key` comes before every key behind.
pub proof fn lemma_insert_pos(keys: Seq<Seq<u8>>, order: Seq<int>, key: Seq<u8>)
    requires
        is_sorted(keys, order),
    ensures
        0 <= insert_pos(keys, order, key) <= order.len(),
        forall|k: int|
            0 <= k < insert_pos(keys, order, key) ==> lex_le(keys[#[trigger] order[k]], key),
        forall|k: int|
            insert_pos(keys, order, key) <= k < order.len() ==> lex_lt(
                key,
                keys[#[trigger] order[k]],
            ),
    decreases order.len(),
{
    if order.len() > 0 {
        let shorter = order.drop_last();
        assert forall|a: int, b: int| 0 <= a < b < shorter.len() implies lex_le(
            keys[#[trigger] shorter[a]],
            keys[#[trigger] shorter[b]],
        ) by {
            assert(shorter[a] == order[a] && shorter[b] == order[b]);
        }
        lemma_insert_pos(keys, shorter, key);
        let last = order.len() - 1;
        if lex_lt(key, keys[order.last()]) {
            let p = insert_pos(keys, shorter, key);
            assert forall|k: int| p <= k < order.len() implies lex_lt(
                key,
                keys[#[trigger] order[k]],
            ) by {
                if k < last {
                    assert(order[k] == shorter[k]);
                }
            }
            assert forall|k: int| 0 <= k < p implies lex_le(keys[#[trigger] order[k]], key) by {
                assert(order[k] == shorter[k]);
            }
        } else {
            assert forall|k: int| 0 <= k < order.len() implies lex_le(
                keys[#[trigger] order[k]],
                key,
            ) by {
                if k < last {
                    assert(lex_le(keys[order[k]], keys[order[last]]));
                    lemma_lex_le_transitive(keys[order[k]], keys[order[last]], key);
                }
            }
        }
    }
}

/// The sorted list of the first `n` indices lists each of them once, with
/// no key before the one of an earlier index in the list.
pub proof fn lemma_sorted_prefix(keys: Seq<Seq<u8>>, n: nat)
    requires
        n <= keys.len(),
    ensures
        is_permutation(sorted_prefix(keys, n), n),
        is_sorted(keys, sorted_prefix(keys, n)),
    decreases n,
{
    if n > 0 {
        let before = sorted_prefix(keys, (n - 1) as nat);
        lemma_sorted_prefix(keys, (n - 1) as nat);
        let key = keys[n - 1];
        let p = insert_pos(keys, before, key);
        lemma_insert_pos(keys, before, key);
        let after = before.insert(p, n - 1);
        assert(after == sorted_prefix(keys, n));
        assert forall|k: int| 0 <= k < after.len() implies 0 <= #[trigger] after[k] < n by {
            if k < p {
                assert(after[k] == before[k]);
            } else if k > p {
                assert(after[k] == before[k - 1]);
            }
        }
        assert forall|a: int, b: int| 0 <= a < b < after.len() implies #[trigger] after[a]
            != #[trigger] after[b] && lex_le(keys[after[a]], keys[after[b]]) by {
            let x = if a < p {
                a
            } else {
                a - 1
            };
            let y = if b < p {
                b
            } else {
                b - 1
            };
            if a != p {
                assert(after[a] == before[x]);
            }
            if b != p {
                assert(after[b] == before[y]);
            }
            if a == p {
                lemma_lex_total(key, keys[before[y]]);
            } else if b == p {
            } else {
                assert(x < y);
            }
        }
    }
}

/// The children of a directory are written in the order of their names:
/// each child once, and none before a child whose name comes earlier. Where
/// no two names are equal, every name comes strictly before the next.
pub proof fn lemma_sorted_order(keys: Seq<Seq<u8>>)
    ensures
        is_permutation(sorted_order(keys), keys.len()),
        is_sorted(keys, sorted_order(keys)),
        (forall|i: int, j: int| 0 <= i < j < keys.len() ==> keys[i] != keys[j]) ==> forall|
            a: int,
            b: int,
        |
            0 <= a < b < keys.len() ==> lex_lt(
                keys[#[trigger] sorted_order(keys)[a]],
                keys[#[trigger] sorted_order(keys)[b]],
            ),
{
    let order = sorted_order(keys);
    lemma_sorted_prefix(keys, keys.len());
    if forall|i: int, j: int| 0 <= i < j < keys.len() ==> keys[i] != keys[j] {
        assert forall|a: int, b: int| 0 <= a < b < keys.len() implies lex_lt(
            keys[#[trigger] order[a]],
            keys[#[trigger] order[b]],
        ) by {
            let i = order[a];
            let j = order[b];
            assert(i != j);
            assert(lex_le(keys[i], keys[j]));
            lemma_lex_total(keys[i], keys[j]);
            if i < j {
                assert(keys[i] != keys[j]);
            } else {
                assert(keys[j] != keys[i]);
            }
        }
    }
}

/// The sorted list of the first `n` indices holds every one of them.
pub proof fn lemma_sorted_prefix_complete(keys: Seq<Seq<u8>>, n: nat, i: int)
    requires
        n <= keys.len(),
        0 <= i < n,
    ensures
        exists|k: int| 0 <= k < n && #[trigger] sorted_prefix(keys, n)[k] == i,
    decreases n,
{
    let before = sorted_prefix(keys, (n - 1) as nat);
    lemma_sorted_prefix(keys, (n - 1) as nat);
    lemma_sorted_prefix(keys, n);
    let at = insert_pos(keys, before, keys[n - 1]);
    lemma_insert_pos(keys, before, keys[n - 1]);
    let after = sorted_prefix(keys, n);
    if i == n - 1 {
        assert(after[at] == i);
    } else {
        lemma_sorted_prefix_complete(keys, (n - 1) as nat, i);
        let k = choose|k: int| 0 <= k < n - 1 && #[trigger] before[k] == i;
        if k < at {
            assert(after[k] == i);
        } else {
            assert(after[k + 1] == i);
        }
    }
}

/// Every byte string of `keys` comes strictly before the next.
pub open spec fn strictly_increasing(keys: Seq<Seq<u8>>) -> bool {
    forall|a: int, b: int| 0 <= a < b < keys.len() ==> lex_lt(#[trigger] keys[a], #[trigger] keys[b])
}

/// Two strictly increasing lists of the same length, each holding every
/// member of the other, are the same list.
pub proof fn lemma_increasing_unique(x: Seq<Seq<u8>>, y: Seq<Seq<u8>>)
    requires
        x.len() == y.len(),
        strictly_increasing(x),
        strictly_increasing(y),
        forall|a: int| 0 <= a < x.len() ==> y.contains(#[trigger] x[a]),
        forall|b: int| 0 <= b < y.len() ==> x.contains(#[trigger] y[b]),
    ensures
        x == y,
    decreases x.len(),
{
    if x.len() == 0 {
        assert(x =~= y);
    } else {
        let n = x.len() - 1;
        let top_x = x[n];
        let top_y = y[n];
        assert(y.contains(top_x));
        assert(x.contains(top_y));
        let b = choose|b: int| 0 <= b < y.len() && y[b] == top_x;
        let a = choose|a: int| 0 <= a < x.len() && x[a] == top_y;
        lemma_lex_total(top_x, top_y);
        if b < n {
            assert(lex_lt(y[b], y[n]));
        }
        if a < n {
            assert(lex_lt(x[a], x[n]));
        }
        assert(top_x == top_y);
        let xs = x.drop_last();
        let ys = y.drop_last();
        assert forall|i: int| 0 <= i < xs.len() implies ys.contains(#[trigger] xs[i]) by {
            assert(xs[i] == x[i]);
            assert(y.contains(x[i]));
            let j = choose|j: int| 0 <= j < y.len() && y[j] == x[i];
            assert(lex_lt(x[i], x[n]));
            lemma_lex_total(x[i], top_x);
            assert(j != n);
            assert(ys[j] == xs[i]);
        }
        assert forall|j: int| 0 <= j < ys.len() implies xs.contains(#[trigger] ys[j]) by {
            assert(ys[j] == y[j]);
            assert(x.contains(y[j]));
            let i = choose|i: int| 0 <= i < x.len() && x[i] == y[j];
            assert(lex_lt(y[j], y[n]));
            lemma_lex_total(y[j], top_y);
            assert(i != n);
            assert(xs[i] == ys[j]);
        }
        assert(strictly_increasing(xs)) by {
            assert forall|a: int, b: int| 0 <= a < b < xs.len() implies lex_lt(
                #[trigger] xs[a],
                #[trigger] xs[b],
            ) by {
                assert(xs[a] == x[a] && xs[b] == x[b]);
            }
        }
        assert(strictly_increasing(ys)) by {
            assert forall|a: int, b: int| 0 <= a < b < ys.len() implies lex_lt(
                #[trigger] ys[a],
                #[trigger] ys[b],
            ) by {
                assert(ys[a] == y[a] && ys[b] == y[b]);
            }
        }
        lemma_increasing_unique(xs, ys);
        assert(x =~= xs.push(top_x));
        assert(y =~= ys.push(top_y));
    }
}

} // verus!
