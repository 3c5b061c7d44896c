//! How the leaves of a tree in document order relate to the leaf
//! navigation: the first leaf opens the list, and the leaf after each one,
//! as the navigation finds it, is the next one in the list.
use vstd::prelude::*;

use crate::direct::DirectContent;
use crate::forest::{ancestor_at, forest_linked};
use crate::id::ContentId;
use crate::nav::{
    depth_below, follow_first, follow_last, is_first_leaf, is_last_leaf, is_next_leaf, is_prev_leaf,
    leaves_of, leaves_of_list, leaves_under, nearest_with_next, nearest_with_prev, next_sibling,
    prev_sibling, Tree,
};

verus! {

/// Taking the first child `k + 1` times from `c` is taking it `k` times from
/// the first child of `c`.
proof fn lemma_follow_first_prepend(t: Tree, c: ContentId, k: nat)
    requires
        t[c].children.len() > 0,
    ensures
        follow_first(t, c, k + 1) == follow_first(t, t[c].children[0], k),
    decreases k,
{
    reveal_with_fuel(follow_first, 2);
    if k > 0 {
        lemma_follow_first_prepend(t, c, (k - 1) as nat);
    }
}

/// Taking the last child `k + 1` times from `c` is taking it `k` times from
/// the last child of `c`.
proof fn lemma_follow_last_prepend(t: Tree, c: ContentId, k: nat)
    requires
        t[c].children.len() > 0,
    ensures
        follow_last(t, c, k + 1) == follow_last(t, t[c].children.last(), k),
    decreases k,
{
    reveal_with_fuel(follow_last, 2);
    if k > 0 {
        lemma_follow_last_prepend(t, c, (k - 1) as nat);
    }
}

/// The children of a node reach one level less deep below them.
proof fn lemma_depth_child(t: Tree, c: ContentId, f: nat, i: int)
    requires
        forest_linked(t),
        t.contains_key(c),
        depth_below(t, c, f),
        0 <= i < t[c].children.len(),
    ensures
        f > 0,
        t.contains_key(t[c].children[i]),
        t[t[c].children[i]].parent == Some(c),
        depth_below(t, t[c].children[i], (f - 1) as nat),
{
    assert(ancestor_at(t, c, 0) == Some(c));
    let x = t[c].children[i];
    assert forall|y: ContentId, k: nat| #[trigger] ancestor_at(t, y, k) == Some(x) implies k < f - 1 by {
        crate::forest::lemma_ancestor_succ(t, y, k);
        assert(ancestor_at(t, y, k + 1) == Some(c));
    }
}

/// The list of leaves under a node opens with its first leaf.
proof fn lemma_leaves_first(t: Tree, c: ContentId, f: nat)
    requires
        forest_linked(t),
        t.contains_key(c),
        depth_below(t, c, f),
    ensures
        leaves_of(t, c, f).len() > 0,
        is_first_leaf(t, c, leaves_of(t, c, f)[0]),
    decreases f,
{
    assert(ancestor_at(t, c, 0) == Some(c));
    if t[c].children.len() == 0 {
        assert(follow_first(t, c, 0) == Some(c));
    } else {
        let cs = t[c].children;
        lemma_depth_child(t, c, f, 0);
        lemma_leaves_first(t, cs[0], (f - 1) as nat);
        let l0 = leaves_of(t, cs[0], (f - 1) as nat);
        assert(leaves_of(t, c, f) == leaves_of_list(t, cs, (f - 1) as nat));
        assert(leaves_of_list(t, cs, (f - 1) as nat) == l0 + leaves_of_list(t, cs.drop_first(), (f - 1) as nat));
        let k = choose|k: nat| follow_first(t, cs[0], k) == Some(l0[0]) && t[l0[0]].children.len() == 0;
        lemma_follow_first_prepend(t, c, k);
    }
}

/// The list of leaves under a node closes with its last leaf, reached by
/// taking last children `d` times; every node on the way up from it, below
/// the node, is the last child of its parent.
proof fn lemma_leaves_last(t: Tree, c: ContentId, f: nat) -> (d: nat)
    requires
        forest_linked(t),
        t.contains_key(c),
        depth_below(t, c, f),
    ensures
        leaves_of(t, c, f).len() > 0,
        follow_last(t, c, d) == Some(leaves_of(t, c, f).last()),
        t[leaves_of(t, c, f).last()].children.len() == 0,
        ancestor_at(t, leaves_of(t, c, f).last(), d) == Some(c),
        forall|j: nat| j < d ==> (#[trigger] ancestor_at(t, leaves_of(t, c, f).last(), j) matches Some(y)
            && next_sibling(t, y) is None),
    decreases f,
{
    assert(ancestor_at(t, c, 0) == Some(c));
    if t[c].children.len() == 0 {
        assert(follow_last(t, c, 0) == Some(c));
        0
    } else {
        let cs = t[c].children;
        let n = cs.len() - 1;
        lemma_depth_child(t, c, f, n);
        let lc = cs[n];
        let d1 = lemma_leaves_last(t, lc, (f - 1) as nat);
        let ll = leaves_of(t, lc, (f - 1) as nat);
        let a = ll.last();
        assert(cs =~= cs.drop_last() + seq![lc]);
        crate::nav::lemma_leaves_of_list_concat(t, cs.drop_last(), seq![lc], (f - 1) as nat);
        assert(seq![lc].drop_first() =~= Seq::<ContentId>::empty());
        assert(leaves_of_list(t, Seq::<ContentId>::empty(), (f - 1) as nat) == Seq::<ContentId>::empty());
        assert(leaves_of_list(t, seq![lc], (f - 1) as nat) =~= ll);
        assert(leaves_of(t, c, f) == leaves_of_list(t, cs, (f - 1) as nat));
        assert(leaves_of(t, c, f).last() == a);
        lemma_follow_last_prepend(t, c, d1);
        assert(cs.last() == lc);
        crate::forest::lemma_ancestor_succ(t, a, d1);
        assert(ancestor_at(t, a, d1 + 1) == Some(c));
        assert(next_sibling(t, lc) is None) by {
            crate::forest::lemma_index_of_unique(cs, lc, n);
        }
        assert forall|j: nat| j < d1 + 1 implies (#[trigger] ancestor_at(t, a, j) matches Some(y) && next_sibling(
            t,
            y,
        ) is None) by {
            if j < d1 {
            } else {
                assert(ancestor_at(t, a, j) == Some(lc));
            }
        }
        d1 + 1
    }
}

/// Consecutive leaves under a node: the navigation finds each one after
/// the other.
proof fn lemma_leaves_next(t: Tree, c: ContentId, f: nat)
    requires
        forest_linked(t),
        t.contains_key(c),
        depth_below(t, c, f),
    ensures
        forall|i: int| 0 <= i < leaves_of(t, c, f).len() - 1 ==> is_next_leaf(
            t,
            #[trigger] leaves_of(t, c, f)[i],
            Some(leaves_of(t, c, f)[i + 1]),
        ),
    decreases f, 0nat, 0nat,
{
    assert(ancestor_at(t, c, 0) == Some(c));
    if t[c].children.len() > 0 {
        let cs = t[c].children;
        assert(cs.skip(0) =~= cs);
        lemma_depth_child(t, c, f, 0);
        assert forall|i: int| 0 <= i < cs.len() implies depth_below(t, #[trigger] cs[i], (f - 1) as nat) by {
            lemma_depth_child(t, c, f, i);
        }
        lemma_list_next(t, c, 0, (f - 1) as nat);
        assert(leaves_of(t, c, f) == leaves_of_list(t, cs.skip(0), (f - 1) as nat));
    }
}

/// Consecutive leaves under the children of `p` from the `m`-th on: the
/// navigation finds each one after the other.
proof fn lemma_list_next(t: Tree, p: ContentId, m: int, g: nat)
    requires
        forest_linked(t),
        t.contains_key(p),
        0 <= m <= t[p].children.len(),
        forall|i: int| 0 <= i < t[p].children.len() ==> depth_below(t, #[trigger] t[p].children[i], g),
    ensures
        forall|i: int| 0 <= i < leaves_of_list(t, t[p].children.skip(m), g).len() - 1 ==> is_next_leaf(
            t,
            #[trigger] leaves_of_list(t, t[p].children.skip(m), g)[i],
            Some(leaves_of_list(t, t[p].children.skip(m), g)[i + 1]),
        ),
    decreases g, 1nat, t[p].children.len() - m,
{
    let all = t[p].children;
    let cs = all.skip(m);
    if cs.len() > 0 {
        let c0 = cs[0];
        assert(c0 == all[m]);
        assert(t.contains_key(c0));
        let head = leaves_of(t, c0, g);
        let rest_ids = all.skip(m + 1);
        assert(cs.drop_first() =~= rest_ids);
        let rest = leaves_of_list(t, rest_ids, g);
        let l = leaves_of_list(t, cs, g);
        assert(l == head + rest);
        lemma_leaves_next(t, c0, g);
        lemma_list_next(t, p, m + 1, g);
        lemma_leaves_first(t, c0, g);
        if rest_ids.len() > 0 {
            let c1 = rest_ids[0];
            assert(c1 == all[m + 1]);
            assert(t.contains_key(c1));
            lemma_leaves_first(t, c1, g);
            let d = lemma_leaves_last(t, c0, g);
            let r0 = leaves_of(t, c1, g);
            assert(rest == r0 + leaves_of_list(t, rest_ids.drop_first(), g));
            assert(rest[0] == r0[0]);
            assert(next_sibling(t, c0) == Some(c1)) by {
                assert(t[c0].parent == Some(p));
                crate::forest::lemma_index_of_unique(all, c0, m);
            }
            assert(nearest_with_next(t, head.last(), d, c0));
            assert(is_next_leaf(t, head.last(), Some(rest[0])));
        }
        assert forall|i: int| 0 <= i < l.len() - 1 implies is_next_leaf(t, #[trigger] l[i], Some(l[i + 1])) by {
            if i < head.len() - 1 {
                assert(l[i] == head[i]);
                assert(l[i + 1] == head[i + 1]);
            } else if i == head.len() - 1 {
                assert(l[i] == head.last());
                assert(l[i + 1] == rest[0]);
            } else {
                assert(l[i] == rest[i - head.len()]);
                assert(l[i + 1] == rest[i - head.len() + 1]);
            }
        }
    }
}

/// The last leaf under a node without parent has no leaf after it.
proof fn lemma_leaves_end(t: Tree, c: ContentId, f: nat)
    requires
        forest_linked(t),
        t.contains_key(c),
        t[c].parent is None,
        depth_below(t, c, f),
    ensures
        is_next_leaf(t, leaves_of(t, c, f).last(), None),
{
    let d = lemma_leaves_last(t, c, f);
    let a = leaves_of(t, c, f).last();
    assert forall|k: nat| #[trigger] ancestor_at(t, a, k) is Some implies next_sibling(t, ancestor_at(t, a, k).unwrap()) is None by {
        if k > d {
            crate::nav::lemma_ancestor_add(t, a, d, (k - d) as nat);
            assert(ancestor_at(t, c, (k - d) as nat) == None::<ContentId>);
        } else if k == d {
        }
    }
}

/// Once the walk down first children stops, it stays stopped.
proof fn lemma_follow_first_stops(t: Tree, s: ContentId, m: nat, n: nat)
    requires
        follow_first(t, s, m) is None,
        m <= n,
    ensures
        follow_first(t, s, n) is None,
    decreases n - m,
{
    if m < n {
        lemma_follow_first_stops(t, s, m, (n - 1) as nat);
    }
}

/// A node has one first leaf.
proof fn lemma_first_leaf_unique(t: Tree, s: ContentId, l1: ContentId, l2: ContentId)
    requires
        is_first_leaf(t, s, l1),
        is_first_leaf(t, s, l2),
    ensures
        l1 == l2,
{
    let m1 = choose|k: nat| follow_first(t, s, k) == Some(l1) && t[l1].children.len() == 0;
    let m2 = choose|k: nat| follow_first(t, s, k) == Some(l2) && t[l2].children.len() == 0;
    if m1 < m2 {
        assert(follow_first(t, s, m1 + 1) is None);
        lemma_follow_first_stops(t, s, m1 + 1, m2);
    } else if m2 < m1 {
        assert(follow_first(t, s, m2 + 1) is None);
        lemma_follow_first_stops(t, s, m2 + 1, m1);
    }
}

/// A leaf has one next leaf, or none.
pub proof fn lemma_next_leaf_unique(t: Tree, a: ContentId, r1: Option<ContentId>, r2: Option<ContentId>)
    requires
        is_next_leaf(t, a, r1),
        is_next_leaf(t, a, r2),
    ensures
        r1 == r2,
{
    match (r1, r2) {
        (Some(l1), Some(l2)) => {
            let (k1, x1) = choose|k: nat, x: ContentId| #[trigger] nearest_with_next(t, a, k, x) && is_first_leaf(t, next_sibling(t, x).unwrap(), l1);
            let (k2, x2) = choose|k: nat, x: ContentId| #[trigger] nearest_with_next(t, a, k, x) && is_first_leaf(t, next_sibling(t, x).unwrap(), l2);
            if k1 < k2 {
                assert(ancestor_at(t, a, k1) == Some(x1));
            } else if k2 < k1 {
                assert(ancestor_at(t, a, k2) == Some(x2));
            } else {
                lemma_first_leaf_unique(t, next_sibling(t, x1).unwrap(), l1, l2);
            }
        },
        (Some(l1), None) => {
            let (k1, x1) = choose|k: nat, x: ContentId| #[trigger] nearest_with_next(t, a, k, x) && is_first_leaf(t, next_sibling(t, x).unwrap(), l1);
            assert(ancestor_at(t, a, k1) == Some(x1));
        },
        (None, Some(l2)) => {
            let (k2, x2) = choose|k: nat, x: ContentId| #[trigger] nearest_with_next(t, a, k, x) && is_first_leaf(t, next_sibling(t, x).unwrap(), l2);
            assert(ancestor_at(t, a, k2) == Some(x2));
        },
        (None, None) => {},
    }
}

/// The first leaf under a node is reached by taking first children `d`
/// times; every node on the way up from it, below the node, is the first
/// child of its parent.
proof fn lemma_leaves_first_path(t: Tree, c: ContentId, f: nat) -> (d: nat)
    requires
        forest_linked(t),
        t.contains_key(c),
        depth_below(t, c, f),
    ensures
        leaves_of(t, c, f).len() > 0,
        follow_first(t, c, d) == Some(leaves_of(t, c, f)[0]),
        ancestor_at(t, leaves_of(t, c, f)[0], d) == Some(c),
        forall|j: nat| j < d ==> (#[trigger] ancestor_at(t, leaves_of(t, c, f)[0], j) matches Some(y)
            && prev_sibling(t, y) is None),
    decreases f,
{
    assert(ancestor_at(t, c, 0) == Some(c));
    if t[c].children.len() == 0 {
        assert(follow_first(t, c, 0) == Some(c));
        0
    } else {
        let cs = t[c].children;
        lemma_depth_child(t, c, f, 0);
        let fc = cs[0];
        let d1 = lemma_leaves_first_path(t, fc, (f - 1) as nat);
        let l0 = leaves_of(t, fc, (f - 1) as nat);
        let a = l0[0];
        assert(leaves_of(t, c, f) == leaves_of_list(t, cs, (f - 1) as nat));
        assert(leaves_of_list(t, cs, (f - 1) as nat) == l0 + leaves_of_list(t, cs.drop_first(), (f - 1) as nat));
        assert(leaves_of(t, c, f)[0] == a);
        lemma_follow_first_prepend(t, c, d1);
        crate::forest::lemma_ancestor_succ(t, a, d1);
        assert(ancestor_at(t, a, d1 + 1) == Some(c));
        assert(prev_sibling(t, fc) is None) by {
            crate::forest::lemma_index_of_unique(cs, fc, 0);
        }
        assert forall|j: nat| j < d1 + 1 implies (#[trigger] ancestor_at(t, a, j) matches Some(y) && prev_sibling(
            t,
            y,
        ) is None) by {
            if j == d1 {
                assert(ancestor_at(t, a, j) == Some(fc));
            }
        }
        d1 + 1
    }
}

/// Consecutive leaves under a node: the navigation finds each one before
/// the other.
proof fn lemma_leaves_prev(t: Tree, c: ContentId, f: nat)
    requires
        forest_linked(t),
        t.contains_key(c),
        depth_below(t, c, f),
    ensures
        forall|i: int| 0 <= i < leaves_of(t, c, f).len() - 1 ==> is_prev_leaf(
            t,
            #[trigger] leaves_of(t, c, f)[i + 1],
            Some(leaves_of(t, c, f)[i]),
        ),
    decreases f, 0nat, 0nat,
{
    assert(ancestor_at(t, c, 0) == Some(c));
    if t[c].children.len() > 0 {
        let cs = t[c].children;
        assert(cs.skip(0) =~= cs);
        lemma_depth_child(t, c, f, 0);
        assert forall|i: int| 0 <= i < cs.len() implies depth_below(t, #[trigger] cs[i], (f - 1) as nat) by {
            lemma_depth_child(t, c, f, i);
        }
        lemma_list_prev(t, c, 0, (f - 1) as nat);
        assert(leaves_of(t, c, f) == leaves_of_list(t, cs.skip(0), (f - 1) as nat));
    }
}

/// Consecutive leaves under the children of `p` from the `m`-th on: the
/// navigation finds each one before the other.
proof fn lemma_list_prev(t: Tree, p: ContentId, m: int, g: nat)
    requires
        forest_linked(t),
        t.contains_key(p),
        0 <= m <= t[p].children.len(),
        forall|i: int| 0 <= i < t[p].children.len() ==> depth_below(t, #[trigger] t[p].children[i], g),
    ensures
        forall|i: int| 0 <= i < leaves_of_list(t, t[p].children.skip(m), g).len() - 1 ==> is_prev_leaf(
            t,
            #[trigger] leaves_of_list(t, t[p].children.skip(m), g)[i + 1],
            Some(leaves_of_list(t, t[p].children.skip(m), g)[i]),
        ),
    decreases g, 1nat, t[p].children.len() - m,
{
    let all = t[p].children;
    let cs = all.skip(m);
    if cs.len() > 0 {
        let c0 = cs[0];
        assert(c0 == all[m]);
        assert(t.contains_key(c0));
        let head = leaves_of(t, c0, g);
        let rest_ids = all.skip(m + 1);
        assert(cs.drop_first() =~= rest_ids);
        let rest = leaves_of_list(t, rest_ids, g);
        let l = leaves_of_list(t, cs, g);
        assert(l == head + rest);
        lemma_leaves_prev(t, c0, g);
        lemma_list_prev(t, p, m + 1, g);
        let d0 = lemma_leaves_last(t, c0, g);
        if rest_ids.len() > 0 {
            let c1 = rest_ids[0];
            assert(c1 == all[m + 1]);
            assert(t.contains_key(c1));
            let d = lemma_leaves_first_path(t, c1, g);
            let r0 = leaves_of(t, c1, g);
            assert(rest == r0 + leaves_of_list(t, rest_ids.drop_first(), g));
            assert(rest[0] == r0[0]);
            assert(prev_sibling(t, c1) == Some(c0)) by {
                assert(t[c1].parent == Some(p));
                crate::forest::lemma_index_of_unique(all, c1, m + 1);
            }
            assert(nearest_with_prev(t, rest[0], d, c1));
            assert(is_last_leaf(t, c0, head.last()));
            assert(is_prev_leaf(t, rest[0], Some(head.last())));
        }
        assert forall|i: int| 0 <= i < l.len() - 1 implies is_prev_leaf(t, #[trigger] l[i + 1], Some(l[i])) by {
            if i < head.len() - 1 {
                assert(l[i] == head[i]);
                assert(l[i + 1] == head[i + 1]);
            } else if i == head.len() - 1 {
                assert(l[i] == head.last());
                assert(l[i + 1] == rest[0]);
            } else {
                assert(l[i] == rest[i - head.len()]);
                assert(l[i + 1] == rest[i - head.len() + 1]);
            }
        }
    }
}

/// The first leaf under a node without parent has no leaf before it.
proof fn lemma_leaves_start(t: Tree, c: ContentId, f: nat)
    requires
        forest_linked(t),
        t.contains_key(c),
        t[c].parent is None,
        depth_below(t, c, f),
    ensures
        is_prev_leaf(t, leaves_of(t, c, f)[0], None),
{
    let d = lemma_leaves_first_path(t, c, f);
    let a = leaves_of(t, c, f)[0];
    assert forall|k: nat| #[trigger] ancestor_at(t, a, k) is Some implies prev_sibling(t, ancestor_at(t, a, k).unwrap()) is None by {
        if k > d {
            crate::nav::lemma_ancestor_add(t, a, d, (k - d) as nat);
            assert(ancestor_at(t, c, (k - d) as nat) == None::<ContentId>);
        }
    }
}

/// Once the walk down last children stops, it stays stopped.
proof fn lemma_follow_last_stops(t: Tree, s: ContentId, m: nat, n: nat)
    requires
        follow_last(t, s, m) is None,
        m <= n,
    ensures
        follow_last(t, s, n) is None,
    decreases n - m,
{
    if m < n {
        lemma_follow_last_stops(t, s, m, (n - 1) as nat);
    }
}

/// A node has one last leaf.
proof fn lemma_last_leaf_unique(t: Tree, s: ContentId, l1: ContentId, l2: ContentId)
    requires
        is_last_leaf(t, s, l1),
        is_last_leaf(t, s, l2),
    ensures
        l1 == l2,
{
    let m1 = choose|k: nat| follow_last(t, s, k) == Some(l1) && t[l1].children.len() == 0;
    let m2 = choose|k: nat| follow_last(t, s, k) == Some(l2) && t[l2].children.len() == 0;
    if m1 < m2 {
        assert(follow_last(t, s, m1 + 1) is None);
        lemma_follow_last_stops(t, s, m1 + 1, m2);
    } else if m2 < m1 {
        assert(follow_last(t, s, m2 + 1) is None);
        lemma_follow_last_stops(t, s, m2 + 1, m1);
    }
}

/// A leaf has one previous leaf, or none.
pub proof fn lemma_prev_leaf_unique(t: Tree, a: ContentId, r1: Option<ContentId>, r2: Option<ContentId>)
    requires
        is_prev_leaf(t, a, r1),
        is_prev_leaf(t, a, r2),
    ensures
        r1 == r2,
{
    match (r1, r2) {
        (Some(l1), Some(l2)) => {
            let (k1, x1) = choose|k: nat, x: ContentId| #[trigger] nearest_with_prev(t, a, k, x) && is_last_leaf(t, prev_sibling(t, x).unwrap(), l1);
            let (k2, x2) = choose|k: nat, x: ContentId| #[trigger] nearest_with_prev(t, a, k, x) && is_last_leaf(t, prev_sibling(t, x).unwrap(), l2);
            if k1 < k2 {
                assert(ancestor_at(t, a, k1) == Some(x1));
            } else if k2 < k1 {
                assert(ancestor_at(t, a, k2) == Some(x2));
            } else {
                lemma_last_leaf_unique(t, prev_sibling(t, x1).unwrap(), l1, l2);
            }
        },
        (Some(l1), None) => {
            let (k1, x1) = choose|k: nat, x: ContentId| #[trigger] nearest_with_prev(t, a, k, x) && is_last_leaf(t, prev_sibling(t, x).unwrap(), l1);
            assert(ancestor_at(t, a, k1) == Some(x1));
        },
        (None, Some(l2)) => {
            let (k2, x2) = choose|k: nat, x: ContentId| #[trigger] nearest_with_prev(t, a, k, x) && is_last_leaf(t, prev_sibling(t, x).unwrap(), l2);
            assert(ancestor_at(t, a, k2) == Some(x2));
        },
        (None, None) => {},
    }
}

/// The leaf navigation walks the leaves of the document in order. When the
/// root has no parent, the list of leaves (see `leafs`) is not empty; the
/// first leaf of the root is its first element; after each element the
/// next-leaf navigation finds the following element, and after the last
/// one nothing; before each element the previous-leaf navigation finds the
/// preceding element, and before the first one nothing.
pub proof fn lemma_leaf_navigation(content: DirectContent)
    requires
        content.wf(),
        content@.contains_key(content.root_id()),
        content@[content.root_id()].parent is None,
    ensures
        ({
            let t = content@;
            let l = leaves_under(t, content.root_id());
            &&& l.len() > 0
            &&& forall|x: ContentId| #[trigger] is_first_leaf(t, content.root_id(), x) <==> x == l[0]
            &&& forall|i: int, r: Option<ContentId>|
                0 <= i < l.len() - 1 ==> (#[trigger] is_next_leaf(t, l[i], r) <==> r == Some(l[i + 1]))
            &&& forall|r: Option<ContentId>| #[trigger] is_next_leaf(t, l.last(), r) <==> r is None
            &&& forall|i: int, r: Option<ContentId>|
                0 < i < l.len() ==> (#[trigger] is_prev_leaf(t, l[i], r) <==> r == Some(l[i - 1]))
            &&& forall|r: Option<ContentId>| #[trigger] is_prev_leaf(t, l[0], r) <==> r is None
        }),
{
    let t = content@;
    let root = content.root_id();
    content.lemma_view_wf();
    let rank = content.ranks();
    let bound = content.rank_limit();
    crate::nav::lemma_leaves_under(t, rank, bound, root);
    let l = leaves_under(t, root);
    lemma_leaves_first(t, root, bound);
    lemma_leaves_next(t, root, bound);
    lemma_leaves_end(t, root, bound);
    lemma_leaves_prev(t, root, bound);
    lemma_leaves_start(t, root, bound);
    assert forall|x: ContentId| #[trigger] is_first_leaf(t, root, x) <==> x == l[0] by {
        if is_first_leaf(t, root, x) {
            lemma_first_leaf_unique(t, root, x, l[0]);
        }
    }
    assert forall|i: int, r: Option<ContentId>|
        0 <= i < l.len() - 1 implies (#[trigger] is_next_leaf(t, l[i], r) <==> r == Some(l[i + 1])) by {
        if is_next_leaf(t, l[i], r) {
            lemma_next_leaf_unique(t, l[i], r, Some(l[i + 1]));
        }
    }
    assert forall|r: Option<ContentId>| #[trigger] is_next_leaf(t, l.last(), r) <==> r is None by {
        if is_next_leaf(t, l.last(), r) {
            lemma_next_leaf_unique(t, l.last(), r, None);
        }
    }
    assert forall|i: int, r: Option<ContentId>|
        0 < i < l.len() implies (#[trigger] is_prev_leaf(t, l[i], r) <==> r == Some(l[i - 1])) by {
        assert(is_prev_leaf(t, l[(i - 1) + 1], Some(l[i - 1])));
        if is_prev_leaf(t, l[i], r) {
            lemma_prev_leaf_unique(t, l[i], r, Some(l[i - 1]));
        }
    }
    assert forall|r: Option<ContentId>| #[trigger] is_prev_leaf(t, l[0], r) <==> r is None by {
        if is_prev_leaf(t, l[0], r) {
            lemma_prev_leaf_unique(t, l[0], r, None);
        }
    }
}


/// Going up from the `k`-th ancestor of `a`, one reaches a node without a
/// parent: the top of the tree of `a`, `top` links above `a`.
proof fn lemma_top_ancestor(t: Tree, rank: Map<ContentId, nat>, bound: nat, a: ContentId, k: nat) -> (top: nat)
    requires
        forest_linked(t),
        crate::forest::forest_ranked(t, rank, bound),
        t.contains_key(a),
        ancestor_at(t, a, k) is Some,
    ensures
        ancestor_at(t, a, top) matches Some(x) && t.contains_key(x) && t[x].parent is None,
        top <= bound,
    decreases bound - k,
{
    let x = ancestor_at(t, a, k).unwrap();
    crate::forest::lemma_desc_rank(t, rank, bound, a, x, k);
    crate::nav::lemma_rank_depth(t, rank, bound, a, x, k);
    crate::forest::lemma_ancestor_succ(t, a, k);
    if t[x].parent is None {
        k
    } else {
        let p = t[x].parent.unwrap();
        crate::forest::lemma_desc_rank(t, rank, bound, a, p, k + 1);
        crate::nav::lemma_rank_depth(t, rank, bound, a, p, k + 1);
        lemma_top_ancestor(t, rank, bound, a, k + 1)
    }
}

/// A leaf lies in the list of leaves of the top of its tree: gives that
/// top and the leaf's place in the list.
proof fn lemma_leaf_place(content: DirectContent, a: ContentId) -> (r: (ContentId, int))
    requires
        content.wf(),
        content@.contains_key(a),
        content@[a].children.len() == 0,
    ensures
        content@.contains_key(r.0),
        content@[r.0].parent is None,
        depth_below(content@, r.0, content.rank_limit()),
        0 <= r.1 < leaves_of(content@, r.0, content.rank_limit()).len(),
        leaves_of(content@, r.0, content.rank_limit())[r.1] == a,
{
    let t = content@;
    content.lemma_view_wf();
    let rank = content.ranks();
    let bound = content.rank_limit();
    assert(ancestor_at(t, a, 0) == Some(a));
    let k = lemma_top_ancestor(t, rank, bound, a, 0);
    let top = ancestor_at(t, a, k).unwrap();
    crate::nav::lemma_leaves_under(t, rank, bound, top);
    crate::nav::lemma_leaf_listed(t, a, top, k, bound);
    let l = leaves_of(t, top, bound);
    let i = l.index_of(a);
    (top, i)
}

/// The two leaf navigations undo each other, in the tree of the root as in
/// a detached one: when `b` is the leaf after the leaf `a`, `a` is the leaf
/// before `b`; when `a` is the leaf before the leaf `b`, `b` is the leaf
/// after `a`.
pub proof fn lemma_leaf_steps_invert(content: DirectContent, a: ContentId, b: ContentId)
    requires
        content.wf(),
        content@.contains_key(a),
        content@.contains_key(b),
    ensures
        content@[a].children.len() == 0 && is_next_leaf(content@, a, Some(b)) ==> is_prev_leaf(content@, b, Some(a)),
        content@[b].children.len() == 0 && is_prev_leaf(content@, b, Some(a)) ==> is_next_leaf(content@, a, Some(b)),
{
    let t = content@;
    let f = content.rank_limit();
    content.lemma_view_wf();
    if t[a].children.len() == 0 && is_next_leaf(t, a, Some(b)) {
        let (top, i) = lemma_leaf_place(content, a);
        let l = leaves_of(t, top, f);
        lemma_leaves_end(t, top, f);
        if i == l.len() - 1 {
            lemma_next_leaf_unique(t, a, Some(b), None);
        }
        lemma_leaves_next(t, top, f);
        assert(is_next_leaf(t, l[i], Some(l[i + 1])));
        lemma_next_leaf_unique(t, a, Some(b), Some(l[i + 1]));
        lemma_leaves_prev(t, top, f);
        assert(is_prev_leaf(t, l[i + 1], Some(l[i])));
    }
    if t[b].children.len() == 0 && is_prev_leaf(t, b, Some(a)) {
        let (top, j) = lemma_leaf_place(content, b);
        let l = leaves_of(t, top, f);
        lemma_leaves_start(t, top, f);
        if j == 0 {
            lemma_prev_leaf_unique(t, b, Some(a), None);
        }
        lemma_leaves_prev(t, top, f);
        assert(is_prev_leaf(t, l[(j - 1) + 1], Some(l[j - 1])));
        lemma_prev_leaf_unique(t, b, Some(a), Some(l[j - 1]));
        lemma_leaves_next(t, top, f);
        assert(is_next_leaf(t, l[j - 1], Some(l[(j - 1) + 1])));
    }
}

} // verus!
