//! The in-memory backend names its nodes twice: by arena node identifier
//! and by content identifier, through a bijective index. Renaming a forest
//! keyed by arena identifiers into one keyed by content identifiers commutes
//! with every forest operation; the lemmas here prove it.
use vstd::prelude::*;

use indextree::NodeId;

use crate::forest::{
    ancestor_at, forest_append, forest_detach, forest_insert_before, forest_linked,
    forest_remove_subtree, is_desc_or_self, lemma_index_of_unique, seq_without, with_children,
    with_parent, TreeNode,
};
use crate::id::ContentId;

verus! {

/// The content identifier of each arena node in `s`.
pub open spec fn rename_seq(s: Seq<NodeId>, inv: Map<NodeId, u64>) -> Seq<ContentId> {
    Seq::new(s.len(), |i: int| ContentId(inv[s[i]]))
}

/// A node whose links name arena nodes, with its links renamed.
pub open spec fn rename_node(t: TreeNode<NodeId>, inv: Map<NodeId, u64>) -> TreeNode<ContentId> {
    TreeNode {
        spec: t.spec,
        parent: match t.parent {
            Some(a) => Some(ContentId(inv[a])),
            None => None,
        },
        children: rename_seq(t.children, inv),
    }
}

/// The forest `m`, keyed by content identifier instead of arena identifier.
pub open spec fn rename_forest(
    m: Map<NodeId, TreeNode<NodeId>>,
    ids: Map<u64, NodeId>,
    inv: Map<NodeId, u64>,
) -> Map<ContentId, TreeNode<ContentId>> {
    Map::new(|c: ContentId| ids.contains_key(c.0), |c: ContentId| rename_node(m[ids[c.0]], inv))
}

/// `ids` and `inv` are inverse bijections between the identifiers of the
/// index and the live nodes of `m`.
pub open spec fn bijective(
    m: Map<NodeId, TreeNode<NodeId>>,
    ids: Map<u64, NodeId>,
    inv: Map<NodeId, u64>,
) -> bool {
    &&& forall|l: u64| #[trigger] ids.contains_key(l) ==> inv.contains_key(ids[l]) && inv[ids[l]] == l
    &&& forall|a: NodeId| #[trigger] inv.contains_key(a) ==> ids.contains_key(inv[a]) && ids[inv[a]] == a
    &&& forall|a: NodeId| #[trigger] m.contains_key(a) <==> inv.contains_key(a)
}

pub proof fn lemma_inv_injective(
    m: Map<NodeId, TreeNode<NodeId>>,
    ids: Map<u64, NodeId>,
    inv: Map<NodeId, u64>,
    a: NodeId,
    b: NodeId,
)
    requires
        bijective(m, ids, inv),
        m.contains_key(a),
        m.contains_key(b),
    ensures
        (ContentId(inv[a]) == ContentId(inv[b])) <==> (a == b),
{
    if inv[a] == inv[b] {
        assert(ids[inv[a]] == a);
        assert(ids[inv[b]] == b);
    }
}

/// Renaming keeps and reflects membership.
pub proof fn lemma_rename_seq_contains(
    m: Map<NodeId, TreeNode<NodeId>>,
    ids: Map<u64, NodeId>,
    inv: Map<NodeId, u64>,
    s: Seq<NodeId>,
    x: NodeId,
)
    requires
        bijective(m, ids, inv),
        forall|i: int| 0 <= i < s.len() ==> m.contains_key(#[trigger] s[i]),
        m.contains_key(x),
    ensures
        rename_seq(s, inv).contains(ContentId(inv[x])) <==> s.contains(x),
{
    let r = rename_seq(s, inv);
    if r.contains(ContentId(inv[x])) {
        let i = choose|i: int| 0 <= i < r.len() && r[i] == ContentId(inv[x]);
        lemma_inv_injective(m, ids, inv, s[i], x);
    }
    if s.contains(x) {
        let i = choose|i: int| 0 <= i < s.len() && s[i] == x;
        assert(r[i] == ContentId(inv[x]));
    }
}

pub proof fn lemma_rename_seq_no_dups(
    m: Map<NodeId, TreeNode<NodeId>>,
    ids: Map<u64, NodeId>,
    inv: Map<NodeId, u64>,
    s: Seq<NodeId>,
)
    requires
        bijective(m, ids, inv),
        forall|i: int| 0 <= i < s.len() ==> m.contains_key(#[trigger] s[i]),
        s.no_duplicates(),
    ensures
        rename_seq(s, inv).no_duplicates(),
{
    let r = rename_seq(s, inv);
    assert forall|i: int, j: int| 0 <= i < r.len() && 0 <= j < r.len() && i != j implies r[i]
        != r[j] by {
        lemma_inv_injective(m, ids, inv, s[i], s[j]);
    }
}

/// Renaming commutes with removing an element.
pub proof fn lemma_rename_seq_without(
    m: Map<NodeId, TreeNode<NodeId>>,
    ids: Map<u64, NodeId>,
    inv: Map<NodeId, u64>,
    s: Seq<NodeId>,
    x: NodeId,
)
    requires
        bijective(m, ids, inv),
        forall|i: int| 0 <= i < s.len() ==> m.contains_key(#[trigger] s[i]),
        m.contains_key(x),
        s.no_duplicates(),
    ensures
        rename_seq(seq_without(s, x), inv) == seq_without(rename_seq(s, inv), ContentId(inv[x])),
{
    let r = rename_seq(s, inv);
    lemma_rename_seq_contains(m, ids, inv, s, x);
    lemma_rename_seq_no_dups(m, ids, inv, s);
    if s.contains(x) {
        let k = s.index_of(x);
        lemma_index_of_unique(s, x, k);
        assert(r[k] == ContentId(inv[x]));
        lemma_index_of_unique(r, ContentId(inv[x]), k);
        assert(rename_seq(s.remove(k), inv) =~= r.remove(k));
    } else {
    }
}

/// Renaming commutes with inserting an element.
pub proof fn lemma_rename_seq_insert(s: Seq<NodeId>, inv: Map<NodeId, u64>, k: int, x: NodeId)
    requires
        0 <= k <= s.len(),
    ensures
        rename_seq(s.insert(k, x), inv) == rename_seq(s, inv).insert(k, ContentId(inv[x])),
        rename_seq(s.push(x), inv) == rename_seq(s, inv).push(ContentId(inv[x])),
{
    assert(rename_seq(s.insert(k, x), inv) =~= rename_seq(s, inv).insert(k, ContentId(inv[x])));
    assert(rename_seq(s.push(x), inv) =~= rename_seq(s, inv).push(ContentId(inv[x])));
}

/// Renaming commutes with looking an element up.
pub proof fn lemma_rename_seq_index_of(
    m: Map<NodeId, TreeNode<NodeId>>,
    ids: Map<u64, NodeId>,
    inv: Map<NodeId, u64>,
    s: Seq<NodeId>,
    x: NodeId,
)
    requires
        bijective(m, ids, inv),
        forall|i: int| 0 <= i < s.len() ==> m.contains_key(#[trigger] s[i]),
        s.no_duplicates(),
        s.contains(x),
    ensures
        rename_seq(s, inv).index_of(ContentId(inv[x])) == s.index_of(x),
        rename_seq(s, inv).contains(ContentId(inv[x])),
{
    let k = s.index_of(x);
    lemma_index_of_unique(s, x, k);
    lemma_rename_seq_no_dups(m, ids, inv, s);
    lemma_index_of_unique(rename_seq(s, inv), ContentId(inv[x]), k);
}

/// The content identifier of an arena node names it back.
pub proof fn lemma_rename_key(
    m: Map<NodeId, TreeNode<NodeId>>,
    ids: Map<u64, NodeId>,
    inv: Map<NodeId, u64>,
    a: NodeId,
)
    requires
        bijective(m, ids, inv),
        m.contains_key(a),
    ensures
        rename_forest(m, ids, inv).contains_key(ContentId(inv[a])),
        ids[ContentId(inv[a]).0] == a,
        rename_forest(m, ids, inv)[ContentId(inv[a])] == rename_node(m[a], inv),
{
}

/// Every link of a linked forest names a live node.
pub open spec fn links_inside(m: Map<NodeId, TreeNode<NodeId>>, t: TreeNode<NodeId>) -> bool {
    &&& (t.parent matches Some(p) ==> m.contains_key(p))
    &&& forall|i: int| 0 <= i < t.children.len() ==> m.contains_key(#[trigger] t.children[i])
}

pub proof fn lemma_links_inside(m: Map<NodeId, TreeNode<NodeId>>, a: NodeId)
    requires
        forest_linked(m),
        m.contains_key(a),
    ensures
        links_inside(m, m[a]),
{
    if m[a].parent is Some {
        let p = m[a].parent.unwrap();
        assert(m.contains_key(p));
    }
    assert forall|i: int| 0 <= i < m[a].children.len() implies m.contains_key(
        #[trigger] m[a].children[i],
    ) by {
        let c = m[a].children[i];
        assert(m.contains_key(c));
    }
}

/// Renaming commutes with detaching a node.
pub proof fn lemma_rename_detach(
    m: Map<NodeId, TreeNode<NodeId>>,
    ids: Map<u64, NodeId>,
    inv: Map<NodeId, u64>,
    n: NodeId,
)
    requires
        bijective(m, ids, inv),
        forest_linked(m),
        m.contains_key(n),
        m[n].parent != Some(n),
    ensures
        rename_forest(forest_detach(m, n), ids, inv) == forest_detach(
            rename_forest(m, ids, inv),
            ContentId(inv[n]),
        ),
{
    let v = rename_forest(m, ids, inv);
    let cn = ContentId(inv[n]);
    lemma_rename_key(m, ids, inv, n);
    lemma_links_inside(m, n);
    let lhs = rename_forest(forest_detach(m, n), ids, inv);
    let rhs = forest_detach(v, cn);
    match m[n].parent {
        None => {
            assert(lhs =~= rhs);
        },
        Some(q) => {
            let cq = ContentId(inv[q]);
            lemma_rename_key(m, ids, inv, q);
            lemma_links_inside(m, q);
            assert(v[cn].parent == Some(cq));
            lemma_rename_seq_without(m, ids, inv, m[q].children, n);
            lemma_inv_injective(m, ids, inv, q, n);
            assert forall|c: ContentId| #[trigger] lhs.contains_key(c) implies lhs[c] == rhs[c] by {
                let a = ids[c.0];
                assert(inv[a] == c.0);
                lemma_inv_injective(m, ids, inv, a, n);
                lemma_inv_injective(m, ids, inv, a, q);
            }
            assert(lhs =~= rhs);
        },
    }
}

/// Renaming commutes with appending a node under another.
pub proof fn lemma_rename_append(
    m: Map<NodeId, TreeNode<NodeId>>,
    ids: Map<u64, NodeId>,
    inv: Map<NodeId, u64>,
    p: NodeId,
    n: NodeId,
)
    requires
        bijective(m, ids, inv),
        forest_linked(m),
        m.contains_key(n),
        m.contains_key(p),
        p != n,
        m[n].parent != Some(n),
    ensures
        rename_forest(forest_append(m, p, n), ids, inv) == forest_append(
            rename_forest(m, ids, inv),
            ContentId(inv[p]),
            ContentId(inv[n]),
        ),
{
    let v = rename_forest(m, ids, inv);
    let cn = ContentId(inv[n]);
    let cp = ContentId(inv[p]);
    crate::forest::lemma_detach_linked(m, n);
    lemma_rename_detach(m, ids, inv, n);
    let d = forest_detach(m, n);
    assert(bijective(d, ids, inv));
    lemma_rename_key(d, ids, inv, n);
    lemma_rename_key(d, ids, inv, p);
    lemma_inv_injective(m, ids, inv, p, n);
    lemma_rename_seq_insert(d[p].children, inv, 0, n);
    let lhs = rename_forest(forest_append(m, p, n), ids, inv);
    let rhs = forest_append(v, cp, cn);
    assert forall|c: ContentId| #[trigger] lhs.contains_key(c) implies lhs[c] == rhs[c] by {
        let a = ids[c.0];
        assert(inv[a] == c.0);
        lemma_inv_injective(m, ids, inv, a, n);
        lemma_inv_injective(m, ids, inv, a, p);
    }
    assert(lhs =~= rhs);
}

/// Renaming commutes with inserting a node before another.
pub proof fn lemma_rename_insert_before(
    m: Map<NodeId, TreeNode<NodeId>>,
    ids: Map<u64, NodeId>,
    inv: Map<NodeId, u64>,
    at: NodeId,
    n: NodeId,
)
    requires
        bijective(m, ids, inv),
        forest_linked(m),
        m.contains_key(n),
        m.contains_key(at),
        at != n,
        m[at].parent is Some,
        m[at].parent != Some(n),
        m[n].parent != Some(n),
    ensures
        rename_forest(forest_insert_before(m, at, n), ids, inv) == forest_insert_before(
            rename_forest(m, ids, inv),
            ContentId(inv[at]),
            ContentId(inv[n]),
        ),
{
    let v = rename_forest(m, ids, inv);
    let cn = ContentId(inv[n]);
    let cat = ContentId(inv[at]);
    crate::forest::lemma_detach_linked(m, n);
    lemma_rename_detach(m, ids, inv, n);
    let d = forest_detach(m, n);
    assert(bijective(d, ids, inv));
    let p = d[at].parent.unwrap();
    assert(d[at].parent == m[at].parent);
    assert(d.contains_key(p));
    let cp = ContentId(inv[p]);
    lemma_rename_key(d, ids, inv, n);
    lemma_rename_key(d, ids, inv, p);
    lemma_rename_key(d, ids, inv, at);
    lemma_inv_injective(m, ids, inv, p, n);
    lemma_links_inside(d, p);
    assert(d[p].children.contains(at));
    lemma_rename_seq_index_of(d, ids, inv, d[p].children, at);
    let k = d[p].children.index_of(at);
    lemma_index_of_unique(d[p].children, at, k);
    lemma_rename_seq_insert(d[p].children, inv, k, n);
    let dv = forest_detach(v, cn);
    assert(dv[cat].parent == Some(cp));
    let lhs = rename_forest(forest_insert_before(m, at, n), ids, inv);
    let rhs = forest_insert_before(v, cat, cn);
    assert forall|c: ContentId| #[trigger] lhs.contains_key(c) implies lhs[c] == rhs[c] by {
        let a = ids[c.0];
        assert(inv[a] == c.0);
        lemma_inv_injective(m, ids, inv, a, n);
        lemma_inv_injective(m, ids, inv, a, p);
    }
    assert(lhs =~= rhs);
}

/// Renaming commutes with following parent links.
pub proof fn lemma_rename_ancestor_at(
    m: Map<NodeId, TreeNode<NodeId>>,
    ids: Map<u64, NodeId>,
    inv: Map<NodeId, u64>,
    a: NodeId,
    k: nat,
)
    requires
        bijective(m, ids, inv),
        forest_linked(m),
        m.contains_key(a),
    ensures
        ancestor_at(rename_forest(m, ids, inv), ContentId(inv[a]), k) == (match ancestor_at(
            m,
            a,
            k,
        ) {
            Some(x) => Some(ContentId(inv[x])),
            None => None,
        }),
        ancestor_at(m, a, k) matches Some(x) ==> m.contains_key(x),
    decreases k,
{
    lemma_rename_key(m, ids, inv, a);
    if k > 0 {
        match m[a].parent {
            None => {},
            Some(p) => {
                assert(m.contains_key(p));
                lemma_rename_ancestor_at(m, ids, inv, p, (k - 1) as nat);
            },
        }
    }
}

/// Renaming keeps the subtree relation.
pub proof fn lemma_rename_desc(
    m: Map<NodeId, TreeNode<NodeId>>,
    ids: Map<u64, NodeId>,
    inv: Map<NodeId, u64>,
    a: NodeId,
    c: NodeId,
)
    requires
        bijective(m, ids, inv),
        forest_linked(m),
        m.contains_key(a),
        m.contains_key(c),
    ensures
        is_desc_or_self(rename_forest(m, ids, inv), ContentId(inv[a]), ContentId(inv[c]))
            <==> is_desc_or_self(m, a, c),
{
    let v = rename_forest(m, ids, inv);
    if is_desc_or_self(m, a, c) {
        let k = choose|k: nat| ancestor_at(m, a, k) == Some(c);
        lemma_rename_ancestor_at(m, ids, inv, a, k);
    }
    if is_desc_or_self(v, ContentId(inv[a]), ContentId(inv[c])) {
        let k = choose|k: nat| ancestor_at(v, ContentId(inv[a]), k) == Some(ContentId(inv[c]));
        lemma_rename_ancestor_at(m, ids, inv, a, k);
        let x = ancestor_at(m, a, k).unwrap();
        lemma_inv_injective(m, ids, inv, x, c);
    }
}

/// Renaming commutes with removing a subtree, once the identifiers of the
/// removed nodes leave the index.
pub proof fn lemma_rename_remove_subtree(
    m: Map<NodeId, TreeNode<NodeId>>,
    ids: Map<u64, NodeId>,
    inv: Map<NodeId, u64>,
    c: NodeId,
    ids2: Map<u64, NodeId>,
    inv2: Map<NodeId, u64>,
)
    requires
        bijective(m, ids, inv),
        forest_linked(m),
        m.contains_key(c),
        m[c].parent != Some(c),
        ids2 == Map::new(
            |l: u64| ids.contains_key(l) && !is_desc_or_self(m, ids[l], c),
            |l: u64| ids[l],
        ),
        inv2 == Map::new(|a: NodeId| inv.contains_key(a) && !is_desc_or_self(m, a, c), |a: NodeId| inv[a]),
    ensures
        bijective(forest_remove_subtree(m, c), ids2, inv2),
        rename_forest(forest_remove_subtree(m, c), ids2, inv2) == forest_remove_subtree(
            rename_forest(m, ids, inv),
            ContentId(inv[c]),
        ),
{
    let v = rename_forest(m, ids, inv);
    let cc = ContentId(inv[c]);
    let r = forest_remove_subtree(m, c);
    crate::forest::lemma_remove_subtree_linked(m, c);
    crate::forest::lemma_detach_linked(m, c);
    lemma_rename_detach(m, ids, inv, c);
    let d = forest_detach(m, c);
    assert(bijective(r, ids2, inv2));
    let lhs = rename_forest(r, ids2, inv2);
    let rhs = forest_remove_subtree(v, cc);
    assert forall|x: ContentId| #[trigger] lhs.contains_key(x) <==> rhs.contains_key(x) by {
        if ids.contains_key(x.0) {
            let a = ids[x.0];
            assert(inv[a] == x.0);
            lemma_rename_desc(m, ids, inv, a, c);
        }
    }
    assert forall|x: ContentId| #[trigger] lhs.contains_key(x) implies lhs[x] == rhs[x] by {
        let a = ids[x.0];
        assert(inv[a] == x.0);
        lemma_rename_desc(m, ids, inv, a, c);
        lemma_links_inside(r, a);
        assert(r[a] == d[a]);
        let t = d[a];
        assert(rename_seq(t.children, inv2) =~= rename_seq(t.children, inv));
    }
    assert(lhs =~= rhs);
}

/// Renaming commutes with adding a fresh node under a fresh identifier.
pub proof fn lemma_rename_insert_fresh(
    m: Map<NodeId, TreeNode<NodeId>>,
    ids: Map<u64, NodeId>,
    inv: Map<NodeId, u64>,
    a: NodeId,
    l: u64,
    t: TreeNode<NodeId>,
)
    requires
        bijective(m, ids, inv),
        forest_linked(m),
        !m.contains_key(a),
        !ids.contains_key(l),
        t.parent is None,
        t.children.len() == 0,
    ensures
        bijective(m.insert(a, t), ids.insert(l, a), inv.insert(a, l)),
        rename_forest(m.insert(a, t), ids.insert(l, a), inv.insert(a, l)) == rename_forest(
            m,
            ids,
            inv,
        ).insert(ContentId(l), rename_node(t, inv)),
{
    let m2 = m.insert(a, t);
    let ids2 = ids.insert(l, a);
    let inv2 = inv.insert(a, l);
    assert(bijective(m2, ids2, inv2));
    let lhs = rename_forest(m2, ids2, inv2);
    let rhs = rename_forest(m, ids, inv).insert(ContentId(l), rename_node(t, inv));
    assert forall|x: ContentId| #[trigger] lhs.contains_key(x) implies lhs[x] == rhs[x] by {
        if x.0 != l {
            let b = ids[x.0];
            lemma_links_inside(m, b);
            assert(rename_seq(m[b].children, inv2) =~= rename_seq(m[b].children, inv));
        } else {
            assert(rename_seq(t.children, inv2) =~= rename_seq(t.children, inv));
        }
    }
    assert(lhs =~= rhs);
}

/// Renaming commutes with replacing the data of a node.
pub proof fn lemma_rename_set_spec(
    m: Map<NodeId, TreeNode<NodeId>>,
    ids: Map<u64, NodeId>,
    inv: Map<NodeId, u64>,
    a: NodeId,
    spec: crate::kind::NodeSpec,
)
    requires
        bijective(m, ids, inv),
        m.contains_key(a),
    ensures
        rename_forest(m.insert(a, crate::forest::with_spec(m[a], spec)), ids, inv) == rename_forest(
            m,
            ids,
            inv,
        ).insert(
            ContentId(inv[a]),
            crate::forest::with_spec(rename_forest(m, ids, inv)[ContentId(inv[a])], spec),
        ),
{
    lemma_rename_key(m, ids, inv, a);
    let lhs = rename_forest(m.insert(a, crate::forest::with_spec(m[a], spec)), ids, inv);
    let rhs = rename_forest(m, ids, inv).insert(
        ContentId(inv[a]),
        crate::forest::with_spec(rename_forest(m, ids, inv)[ContentId(inv[a])], spec),
    );
    assert forall|x: ContentId| #[trigger] lhs.contains_key(x) implies lhs[x] == rhs[x] by {
        let b = ids[x.0];
        assert(inv[b] == x.0);
        lemma_inv_injective(m, ids, inv, a, b);
    }
    assert(lhs =~= rhs);
}

} // verus!
