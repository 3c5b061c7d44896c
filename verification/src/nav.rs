//! Navigation in a content forest: siblings, ancestors and leaves in
//! document order.
use vstd::prelude::*;

use crate::forest::{ancestor_at, forest_linked, forest_ranked, is_desc_or_self, TreeNode};
use crate::id::ContentId;

verus! {

/// The content forest seen by the editing operations.
pub type Tree = Map<ContentId, TreeNode<ContentId>>;

pub open spec fn first_child(t: Tree, id: ContentId) -> Option<ContentId> {
    if t[id].children.len() > 0 {
        Some(t[id].children[0])
    } else {
        None
    }
}

pub open spec fn last_child(t: Tree, id: ContentId) -> Option<ContentId> {
    if t[id].children.len() > 0 {
        Some(t[id].children.last())
    } else {
        None
    }
}

/// The sibling just before `id` under its parent, if any.
pub open spec fn prev_sibling(t: Tree, id: ContentId) -> Option<ContentId> {
    match t[id].parent {
        None => None,
        Some(p) => {
            let cs = t[p].children;
            let k = cs.index_of(id);
            if k > 0 {
                Some(cs[k - 1])
            } else {
                None
            }
        },
    }
}

/// The sibling just after `id` under its parent, if any.
pub open spec fn next_sibling(t: Tree, id: ContentId) -> Option<ContentId> {
    match t[id].parent {
        None => None,
        Some(p) => {
            let cs = t[p].children;
            let k = cs.index_of(id);
            if k + 1 < cs.len() {
                Some(cs[k + 1])
            } else {
                None
            }
        },
    }
}

/// The node reached from `id` by taking the first child `k` times.
pub open spec fn follow_first(t: Tree, id: ContentId, k: nat) -> Option<ContentId>
    decreases k,
{
    if k == 0 {
        Some(id)
    } else {
        match follow_first(t, id, (k - 1) as nat) {
            Some(x) => first_child(t, x),
            None => None,
        }
    }
}

/// The node reached from `id` by taking the last child `k` times.
pub open spec fn follow_last(t: Tree, id: ContentId, k: nat) -> Option<ContentId>
    decreases k,
{
    if k == 0 {
        Some(id)
    } else {
        match follow_last(t, id, (k - 1) as nat) {
            Some(x) => last_child(t, x),
            None => None,
        }
    }
}

/// `leaf` is the first leaf under `id`: reached by always taking the first
/// child, and without children.
pub open spec fn is_first_leaf(t: Tree, id: ContentId, leaf: ContentId) -> bool {
    exists|k: nat| follow_first(t, id, k) == Some(leaf) && t[leaf].children.len() == 0
}

/// `leaf` is the last leaf under `id`: reached by always taking the last
/// child, and without children.
pub open spec fn is_last_leaf(t: Tree, id: ContentId, leaf: ContentId) -> bool {
    exists|k: nat| follow_last(t, id, k) == Some(leaf) && t[leaf].children.len() == 0
}

/// `r` lists the ancestors of `id`, from its parent up to the top of its
/// tree; `id` itself is not included.
pub open spec fn is_ancestor_list(t: Tree, id: ContentId, r: Seq<ContentId>) -> bool {
    &&& forall|i: int| 0 <= i < r.len() ==> ancestor_at(t, id, (i + 1) as nat) == Some(#[trigger] r[i])
    &&& ancestor_at(t, id, (r.len() + 1) as nat) is None
}

/// `id` or one of its ancestors, the `k`-th one up the chain (`k = 0`:
/// `id` itself), is the nearest one that has a sibling before it; `x` is
/// that node.
pub open spec fn nearest_with_prev(t: Tree, id: ContentId, k: nat, x: ContentId) -> bool {
    &&& ancestor_at(t, id, k) == Some(x)
    &&& prev_sibling(t, x) is Some
    &&& forall|j: nat| j < k ==> (#[trigger] ancestor_at(t, id, j) matches Some(y) && prev_sibling(t, y) is None)
}

/// Same as [`nearest_with_prev`], for a sibling after it.
pub open spec fn nearest_with_next(t: Tree, id: ContentId, k: nat, x: ContentId) -> bool {
    &&& ancestor_at(t, id, k) == Some(x)
    &&& next_sibling(t, x) is Some
    &&& forall|j: nat| j < k ==> (#[trigger] ancestor_at(t, id, j) matches Some(y) && next_sibling(t, y) is None)
}

/// The leaf that precedes `id` in document order: the last leaf of the
/// sibling before the nearest node, among `id` and its ancestors, that has
/// one; `None` when no such node exists (`id` is the very first leaf).
pub open spec fn is_prev_leaf(t: Tree, id: ContentId, r: Option<ContentId>) -> bool {
    match r {
        None => forall|k: nat| #[trigger] ancestor_at(t, id, k) matches Some(y) ==> prev_sibling(t, y) is None,
        Some(leaf) => exists|k: nat, x: ContentId| #[trigger] nearest_with_prev(t, id, k, x) && is_last_leaf(t, prev_sibling(t, x).unwrap(), leaf),
    }
}

/// The leaf that follows `id` in document order: the first leaf of the
/// sibling after the nearest node, among `id` and its ancestors, that has
/// one; `None` when no such node exists (`id` is the very last leaf).
pub open spec fn is_next_leaf(t: Tree, id: ContentId, r: Option<ContentId>) -> bool {
    match r {
        None => forall|k: nat| #[trigger] ancestor_at(t, id, k) matches Some(y) ==> next_sibling(t, y) is None,
        Some(leaf) => exists|k: nat, x: ContentId| #[trigger] nearest_with_next(t, id, k, x) && is_first_leaf(t, next_sibling(t, x).unwrap(), leaf),
    }
}

/// The leaves under `id`, in document order (left to right), with `fuel`
/// bounding the depth explored; any fuel above the depth of the subtree
/// gives the same sequence.
pub open spec fn leaves_of(t: Tree, id: ContentId, fuel: nat) -> Seq<ContentId>
    decreases fuel, 0nat, 0nat,
{
    if t[id].children.len() == 0 {
        seq![id]
    } else if fuel == 0 {
        seq![]
    } else {
        leaves_of_list(t, t[id].children, (fuel - 1) as nat)
    }
}

/// The leaves under each node of `cs`, concatenated in order.
pub open spec fn leaves_of_list(t: Tree, cs: Seq<ContentId>, fuel: nat) -> Seq<ContentId>
    decreases fuel, 1nat, cs.len(),
{
    if cs.len() == 0 {
        seq![]
    } else {
        leaves_of(t, cs[0], fuel) + leaves_of_list(t, cs.drop_first(), fuel)
    }
}

/// The leaves under a concatenation of nodes are the concatenated leaves.
pub proof fn lemma_leaves_of_list_concat(t: Tree, a: Seq<ContentId>, b: Seq<ContentId>, fuel: nat)
    ensures
        leaves_of_list(t, a + b, fuel) == leaves_of_list(t, a, fuel) + leaves_of_list(t, b, fuel),
    decreases a.len(),
{
    if a.len() == 0 {
        assert(a + b =~= b);
    } else {
        assert((a + b).drop_first() =~= a.drop_first() + b);
        lemma_leaves_of_list_concat(t, a.drop_first(), b, fuel);
    }
}

/// The leaves under the first `i + 1` nodes are those under the first `i`,
/// then those under node `i`.
pub proof fn lemma_leaves_of_list_step(t: Tree, cs: Seq<ContentId>, i: int, fuel: nat)
    requires
        0 <= i < cs.len(),
    ensures
        leaves_of_list(t, cs.take(i + 1), fuel) == leaves_of_list(t, cs.take(i), fuel) + leaves_of(
            t,
            cs[i],
            fuel,
        ),
{
    assert(cs.take(i + 1) =~= cs.take(i) + seq![cs[i]]);
    lemma_leaves_of_list_concat(t, cs.take(i), seq![cs[i]], fuel);
    assert(seq![cs[i]].drop_first() =~= Seq::<ContentId>::empty());
    assert(leaves_of_list(t, Seq::<ContentId>::empty(), fuel) == Seq::<ContentId>::empty());
    assert(leaves_of_list(t, seq![cs[i]], fuel) =~= leaves_of(t, cs[i], fuel));
}

/// Following `i + j` parent links is following `i`, then `j` more.
pub proof fn lemma_ancestor_add(t: Tree, a: ContentId, i: nat, j: nat)
    ensures
        ancestor_at(t, a, i + j) == (match ancestor_at(t, a, i) {
            Some(y) => ancestor_at(t, y, j),
            None => None,
        }),
    decreases i,
{
    if i > 0 && t.contains_key(a) {
        match t[a].parent {
            None => {},
            Some(q) => {
                lemma_ancestor_add(t, q, (i - 1) as nat, j);
                assert((i + j - 1) as nat == ((i - 1) as nat + j) as nat);
            },
        }
    }
}

/// Two nodes with the same parent whose subtrees share a node are the same
/// node: subtrees of distinct siblings are disjoint.
pub proof fn lemma_sibling_subtrees_disjoint(
    t: Tree,
    rank: Map<ContentId, nat>,
    bound: nat,
    x: ContentId,
    a: ContentId,
    b: ContentId,
    p: ContentId,
)
    requires
        forest_linked(t),
        forest_ranked(t, rank, bound),
        t.contains_key(a),
        t.contains_key(b),
        t[a].parent == Some(p),
        t[b].parent == Some(p),
        is_desc_or_self(t, x, a),
        is_desc_or_self(t, x, b),
    ensures
        a == b,
{
    let ka = choose|k: nat| ancestor_at(t, x, k) == Some(a);
    let kb = choose|k: nat| ancestor_at(t, x, k) == Some(b);
    crate::forest::lemma_ancestor_succ(t, x, ka);
    crate::forest::lemma_ancestor_succ(t, x, kb);
    assert(t.contains_key(p));
    if ka < kb {
        lemma_ancestor_add(t, x, ka + 1, (kb - ka) as nat);
        assert(ka + 1 + (kb - ka) as nat == kb + 1);
        crate::forest::lemma_desc_rank(t, rank, bound, p, p, (kb - ka) as nat);
    } else if kb < ka {
        lemma_ancestor_add(t, x, kb + 1, (ka - kb) as nat);
        assert(kb + 1 + (ka - kb) as nat == ka + 1);
        crate::forest::lemma_desc_rank(t, rank, bound, p, p, (ka - kb) as nat);
    }
}

/// The leaves under a node are distinct nodes of its subtree.
pub proof fn lemma_leaves_distinct(t: Tree, rank: Map<ContentId, nat>, bound: nat, id: ContentId, fuel: nat)
    requires
        forest_linked(t),
        forest_ranked(t, rank, bound),
        t.contains_key(id),
    ensures
        leaves_of(t, id, fuel).no_duplicates(),
        forall|i: int| 0 <= i < leaves_of(t, id, fuel).len() ==> t.contains_key(#[trigger] leaves_of(t, id, fuel)[i]) && is_desc_or_self(t, leaves_of(t, id, fuel)[i], id),
    decreases fuel, 0nat, 0nat,
{
    if t[id].children.len() == 0 {
        assert(ancestor_at(t, id, 0) == Some(id));
    } else if fuel > 0 {
        let cs = t[id].children;
        assert forall|i: int| 0 <= i < cs.len() implies t.contains_key(#[trigger] cs[i]) && t[cs[i]].parent == Some(id) by {}
        lemma_leaves_list_distinct(t, rank, bound, cs, id, (fuel - 1) as nat);
        let l = leaves_of(t, id, fuel);
        assert forall|i: int| 0 <= i < l.len() implies t.contains_key(#[trigger] l[i]) && is_desc_or_self(t, l[i], id) by {
            let j = choose|j: int| 0 <= j < cs.len() && is_desc_or_self(t, l[i], cs[j]);
            let k = choose|k: nat| ancestor_at(t, l[i], k) == Some(cs[j]);
            crate::forest::lemma_ancestor_succ(t, l[i], k);
            assert(ancestor_at(t, l[i], k + 1) == Some(id));
        }
    }
}

/// The leaves under a list of distinct siblings are distinct nodes, each
/// under one of them.
pub proof fn lemma_leaves_list_distinct(
    t: Tree,
    rank: Map<ContentId, nat>,
    bound: nat,
    cs: Seq<ContentId>,
    p: ContentId,
    fuel: nat,
)
    requires
        forest_linked(t),
        forest_ranked(t, rank, bound),
        cs.no_duplicates(),
        forall|i: int| 0 <= i < cs.len() ==> t.contains_key(#[trigger] cs[i]) && t[cs[i]].parent == Some(p),
    ensures
        leaves_of_list(t, cs, fuel).no_duplicates(),
        forall|i: int| 0 <= i < leaves_of_list(t, cs, fuel).len() ==> t.contains_key(#[trigger] leaves_of_list(t, cs, fuel)[i]) && exists|j: int| 0 <= j < cs.len() && is_desc_or_self(t, leaves_of_list(t, cs, fuel)[i], cs[j]),
    decreases fuel, 1nat, cs.len(),
{
    if cs.len() > 0 {
        let head = leaves_of(t, cs[0], fuel);
        let rest = leaves_of_list(t, cs.drop_first(), fuel);
        lemma_leaves_distinct(t, rank, bound, cs[0], fuel);
        assert(cs.drop_first().no_duplicates());
        lemma_leaves_list_distinct(t, rank, bound, cs.drop_first(), p, fuel);
        let l = leaves_of_list(t, cs, fuel);
        assert(l == head + rest);
        assert forall|i: int, j: int| 0 <= i < j < l.len() implies l[i] != l[j] by {
            if j < head.len() {
            } else if i >= head.len() {
                assert(l[i] == rest[i - head.len()]);
                assert(l[j] == rest[j - head.len()]);
            } else {
                assert(l[i] == head[i]);
                assert(l[j] == rest[j - head.len()]);
                if l[i] == l[j] {
                    let m = choose|m: int| 0 <= m < cs.drop_first().len() && is_desc_or_self(t, rest[j - head.len()], cs.drop_first()[m]);
                    lemma_sibling_subtrees_disjoint(t, rank, bound, l[i], cs[0], cs[m + 1], p);
                    assert(cs[0] == cs[m + 1]);
                }
            }
        }
        assert forall|i: int| 0 <= i < l.len() implies t.contains_key(#[trigger] l[i]) && exists|j: int| 0 <= j < cs.len() && is_desc_or_self(t, l[i], cs[j]) by {
            if i < head.len() {
                assert(l[i] == head[i]);
                assert(is_desc_or_self(t, l[i], cs[0]));
            } else {
                assert(l[i] == rest[i - head.len()]);
                let m = choose|m: int| 0 <= m < cs.drop_first().len() && is_desc_or_self(t, rest[i - head.len()], cs.drop_first()[m]);
                assert(is_desc_or_self(t, l[i], cs[m + 1]));
            }
        }
    }
}

/// The identifiers below `n`.
pub open spec fn ids_below(n: nat) -> Set<ContentId> {
    Set::new(|c: ContentId| c.0 < n)
}

/// There are `n` identifiers below `n`.
pub proof fn lemma_ids_below(n: nat)
    requires
        n <= u64::MAX + 1,
    ensures
        ids_below(n).finite(),
        ids_below(n).len() == n,
    decreases n,
{
    if n == 0 {
        assert(ids_below(n) =~= Set::<ContentId>::empty());
    } else {
        lemma_ids_below((n - 1) as nat);
        let last = ContentId((n - 1) as u64);
        assert(ids_below(n) =~= ids_below((n - 1) as nat).insert(last));
        assert(!ids_below((n - 1) as nat).contains(last));
    }
}

/// Distinct identifiers all below `n` are at most `n`.
pub proof fn lemma_distinct_ids_len(s: Seq<ContentId>, n: nat)
    requires
        n <= u64::MAX + 1,
        s.no_duplicates(),
        forall|i: int| 0 <= i < s.len() ==> (#[trigger] s[i]).0 < n,
    ensures
        s.len() <= n,
{
    lemma_ids_below(n);
    s.unique_seq_to_set();
    assert(s.to_set().subset_of(ids_below(n)));
    vstd::set_lib::lemma_len_subset(s.to_set(), ids_below(n));
}

/// Each parent link followed up from a node lowers the rank by at least one.
pub proof fn lemma_rank_depth(t: Tree, rank: Map<ContentId, nat>, bound: nat, a: ContentId, c: ContentId, k: nat)
    requires
        forest_linked(t),
        forest_ranked(t, rank, bound),
        t.contains_key(a),
        ancestor_at(t, a, k) == Some(c),
    ensures
        rank[c] + k <= rank[a],
    decreases k,
{
    if k > 0 {
        let p = t[a].parent.unwrap();
        assert(t.contains_key(p));
        lemma_rank_depth(t, rank, bound, p, c, (k - 1) as nat);
    }
}

/// The leaves under the nodes of `cs` include the leaves under each of them.
pub proof fn lemma_leaves_of_list_member(t: Tree, cs: Seq<ContentId>, m: int, fuel: nat, x: ContentId)
    requires
        0 <= m < cs.len(),
        leaves_of(t, cs[m], fuel).contains(x),
    ensures
        leaves_of_list(t, cs, fuel).contains(x),
{
    lemma_leaves_of_list_step(t, cs, m, fuel);
    assert(cs =~= cs.take(m + 1) + cs.skip(m + 1));
    lemma_leaves_of_list_concat(t, cs.take(m + 1), cs.skip(m + 1), fuel);
    let i = choose|i: int| 0 <= i < leaves_of(t, cs[m], fuel).len() && leaves_of(t, cs[m], fuel)[i] == x;
    let pre = leaves_of_list(t, cs.take(m), fuel);
    assert(leaves_of_list(t, cs, fuel)[pre.len() + i] == x);
}

/// A node without children `k` links below `id` is among the leaves under
/// `id`, when the fuel reaches that deep.
pub proof fn lemma_leaf_listed(t: Tree, x: ContentId, id: ContentId, k: nat, fuel: nat)
    requires
        forest_linked(t),
        t.contains_key(x),
        t[x].children.len() == 0,
        ancestor_at(t, x, k) == Some(id),
        k <= fuel,
    ensures
        leaves_of(t, id, fuel).contains(x),
    decreases k,
{
    if k == 0 {
        assert(leaves_of(t, id, fuel)[0] == x);
    } else {
        crate::forest::lemma_ancestor_succ(t, x, (k - 1) as nat);
        crate::forest::lemma_ancestor_in(t, x, (k - 1) as nat);
        let c = ancestor_at(t, x, (k - 1) as nat).unwrap();
        assert(t[c].parent == Some(id));
        assert(t.contains_key(id));
        let cs = t[id].children;
        assert(cs.contains(c));
        let m = choose|m: int| 0 <= m < cs.len() && cs[m] == c;
        lemma_leaf_listed(t, x, c, (k - 1) as nat, (fuel - 1) as nat);
        lemma_leaves_of_list_member(t, cs, m, (fuel - 1) as nat, x);
    }
}

/// Every node below `id` lies fewer than `f` parent links under it.
pub open spec fn depth_below(t: Tree, id: ContentId, f: nat) -> bool {
    forall|x: ContentId, k: nat| #[trigger] ancestor_at(t, x, k) == Some(id) ==> k < f
}

/// The leaves under `id`, in document order (left to right).
pub open spec fn leaves_under(t: Tree, id: ContentId) -> Seq<ContentId> {
    leaves_of(t, id, choose|f: nat| depth_below(t, id, f))
}

/// Any fuel that reaches every node below `id` lists the same leaves.
pub proof fn lemma_leaves_fuel(t: Tree, id: ContentId, f1: nat, f2: nat)
    requires
        forest_linked(t),
        t.contains_key(id),
        depth_below(t, id, f1),
        depth_below(t, id, f2),
    ensures
        leaves_of(t, id, f1) == leaves_of(t, id, f2),
    decreases f1, 0nat, 0nat,
{
    assert(ancestor_at(t, id, 0) == Some(id));
    if t[id].children.len() > 0 {
        let cs = t[id].children;
        assert forall|i: int| 0 <= i < cs.len() implies t.contains_key(#[trigger] cs[i])
            && depth_below(t, cs[i], (f1 - 1) as nat) && depth_below(t, cs[i], (f2 - 1) as nat) by {
            let c = cs[i];
            assert(t[c].parent == Some(id));
            assert forall|x: ContentId, k: nat| #[trigger] ancestor_at(t, x, k) == Some(c) implies k < f1 - 1 && k < f2 - 1 by {
                crate::forest::lemma_ancestor_succ(t, x, k);
                assert(ancestor_at(t, x, k + 1) == Some(id));
            }
        }
        lemma_leaves_list_fuel(t, cs, (f1 - 1) as nat, (f2 - 1) as nat);
    }
}

/// Fuels that reach every node below each node of `cs` list the same
/// leaves under them.
pub proof fn lemma_leaves_list_fuel(t: Tree, cs: Seq<ContentId>, g1: nat, g2: nat)
    requires
        forest_linked(t),
        forall|i: int| 0 <= i < cs.len() ==> t.contains_key(#[trigger] cs[i]) && depth_below(t, cs[i], g1)
            && depth_below(t, cs[i], g2),
    ensures
        leaves_of_list(t, cs, g1) == leaves_of_list(t, cs, g2),
    decreases g1, 1nat, cs.len(),
{
    if cs.len() > 0 {
        lemma_leaves_fuel(t, cs[0], g1, g2);
        assert forall|i: int| 0 <= i < cs.drop_first().len() implies t.contains_key(#[trigger] cs.drop_first()[i])
            && depth_below(t, cs.drop_first()[i], g1) && depth_below(t, cs.drop_first()[i], g2) by {
            assert(cs.drop_first()[i] == cs[i + 1]);
        }
        lemma_leaves_list_fuel(t, cs.drop_first(), g1, g2);
    }
}

/// In a ranked forest, the rank bound reaches every node below any node,
/// so the leaves under it are those listed with that fuel.
pub proof fn lemma_leaves_under(t: Tree, rank: Map<ContentId, nat>, bound: nat, id: ContentId)
    requires
        forest_linked(t),
        forest_ranked(t, rank, bound),
        t.contains_key(id),
    ensures
        depth_below(t, id, bound),
        leaves_under(t, id) == leaves_of(t, id, bound),
{
    assert forall|x: ContentId, k: nat| #[trigger] ancestor_at(t, x, k) == Some(id) implies k < bound by {
        if k > 0 && !t.contains_key(x) {
            assert(ancestor_at(t, x, k) == None::<ContentId>);
        }
        if t.contains_key(x) {
            lemma_rank_depth(t, rank, bound, x, id, k);
        }
    }
    assert(depth_below(t, id, bound));
    let f = choose|f: nat| depth_below(t, id, f);
    lemma_leaves_fuel(t, id, f, bound);
}

} // verus!
