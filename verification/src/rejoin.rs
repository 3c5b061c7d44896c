//! Splitting a node and merging the new node back into the one it was cut
//! from leave the document as it was.
use vstd::prelude::*;

use crate::direct::DirectContent;
use crate::forest::{
    ancestor_at, forest_append_all, forest_detach, forest_insert_after, forest_linked,
    forest_remove_subtree, is_desc_or_self, lemma_ancestor_succ, lemma_index_of_unique,
    lemma_move_children, lemma_seq_insert, seq_without, with_children, with_parent, with_spec,
    TreeNode,
};
use crate::id::ContentId;
use crate::kind::{kind_of_spec, text_of_spec, ContentKind, NodeSpec};
use crate::nav::{prev_sibling, Tree};
use crate::write::{is_merge_of, merge_accepted, split_base, split_outcome};

verus! {

/// A node that is no node's parent has no descendant but itself.
proof fn lemma_parentless_subtree(m: Tree, c: ContentId, a: ContentId)
    requires
        forall|x: ContentId| #[trigger] m.contains_key(x) ==> m[x].parent != Some(c),
        is_desc_or_self(m, a, c),
    ensures
        a == c,
{
    let k = choose|k: nat| ancestor_at(m, a, k) == Some(c);
    if k > 0 {
        lemma_ancestor_succ(m, a, (k - 1) as nat);
        let x = ancestor_at(m, a, (k - 1) as nat).unwrap();
        assert(m.contains_key(x) && m[x].parent == Some(c));
    }
}

/// Placing a node without parent just after `id`, which has a parent `p`:
/// it enters the children of `p` right after `id` and gets `p` for parent.
proof fn lemma_insert_after_detached(b: Tree, id: ContentId, fresh: ContentId, p: ContentId)
    requires
        b.contains_key(id),
        b.contains_key(p),
        b.contains_key(fresh),
        b[id].parent == Some(p),
        b[fresh].parent is None,
        fresh != p,
        b[p].children.no_duplicates(),
        b[p].children.contains(id),
        !b[p].children.contains(fresh),
        forall|x: ContentId| #[trigger] b[p].children.contains(x) ==> b.contains_key(x) && b[x].parent == Some(p),
    ensures
        forest_insert_after(b, id, fresh) == b.insert(
            p,
            with_children(b[p], b[p].children.insert(b[p].children.index_of(id) + 1, fresh)),
        ).insert(fresh, with_parent(b[fresh], Some(p))),
{
    let cs = b[p].children;
    let k = cs.index_of(id);
    let want = b.insert(p, with_children(b[p], cs.insert(k + 1, fresh))).insert(
        fresh,
        with_parent(b[fresh], Some(p)),
    );
    assert(forest_detach(b, fresh) == b);
    if k + 1 < cs.len() {
        let next = cs[k + 1];
        assert(cs.contains(next));
        lemma_index_of_unique(cs, next, k + 1);
        assert(forest_insert_after(b, id, fresh) =~= want);
    } else {
        assert(cs.push(fresh) =~= cs.insert(k + 1, fresh));
        assert(forest_insert_after(b, id, fresh) =~= want);
    }
}

/// The facts about the tree before the split that both cases use: the
/// parent `p` of `id` lists `id` once and not `fresh`; `p` is neither `id`
/// nor `fresh`, and no node has `fresh` for parent.
proof fn lemma_before_split(before: DirectContent, id: ContentId, fresh: ContentId)
    requires
        before.wf(),
        before@.contains_key(id),
        before@[id].parent is Some,
        !before@.contains_key(fresh),
    ensures
        ({
            let t = before@;
            let p = t[id].parent.unwrap();
            &&& forest_linked(t)
            &&& t.contains_key(p)
            &&& p != id
            &&& p != fresh
            &&& t[p].children.no_duplicates()
            &&& t[p].children.contains(id)
            &&& !t[p].children.contains(fresh)
            &&& forall|x: ContentId| #[trigger] t.contains_key(x) ==> t[x].parent != Some(fresh)
            &&& forall|x: ContentId| #[trigger] t.contains_key(x) && t[x].parent is Some ==> t.contains_key(t[x].parent.unwrap())
        }),
{
    let t = before@;
    before.lemma_view_wf();
    let p = t[id].parent.unwrap();
    assert(before.ranks()[p] < before.ranks()[id]);
    assert(!t[p].children.contains(fresh)) by {
        if t[p].children.contains(fresh) {
            let i = choose|i: int| 0 <= i < t[p].children.len() && t[p].children[i] == fresh;
            assert(t.contains_key(t[p].children[i]));
        }
    }
}

/// Merging back the new node that a split of a node with a parent made
/// undoes the split: the new node follows the node it was cut from, the two
/// can be merged, and merging the new node into the node it was cut from
/// (directly with `merge_into`, or as its previous sibling with
/// `merge_with_prev`) gives back the tree as it was before the split. A text leaf then holds its whole text again;
/// any other node is back exactly as it was.
#[verifier::spinoff_prover]
pub proof fn lemma_split_then_merge(
    before: DirectContent,
    split: DirectContent,
    after: Tree,
    id: ContentId,
    at: usize,
    fresh: ContentId,
)
    requires
        before.wf(),
        split.wf(),
        before@.contains_key(id),
        before@[id].parent is Some,
        !before@.contains_key(fresh),
        split_outcome(before@, id, at as int, fresh, split@, true),
        (prev_sibling(split@, fresh) matches Some(prev) ==> is_merge_of(split@, prev, fresh, after)) || is_merge_of(
            split@,
            id,
            fresh,
            after,
        ),
    ensures
        prev_sibling(split@, fresh) == Some(id),
        merge_accepted(split@, id, fresh),
        kind_of_spec(before@[id].spec) == ContentKind::Plain ==> exists|s: NodeSpec|
            #![trigger with_spec(before@[id], s)]
            kind_of_spec(s) == ContentKind::Plain && text_of_spec(s) == text_of_spec(before@[id].spec) && after
                == before@.insert(id, with_spec(before@[id], s)),
        kind_of_spec(before@[id].spec) != ContentKind::Plain ==> after == before@,
{
    let t = before@;
    let m = split@;
    lemma_before_split(before, id, fresh);
    split.lemma_view_wf();
    let p = t[id].parent.unwrap();
    let cs = t[p].children;
    let k = cs.index_of(id);
    let cs2 = cs.insert(k + 1, fresh);
    lemma_seq_insert(cs, k + 1, fresh);
    assert(cs2[k + 1] == fresh);
    lemma_index_of_unique(cs2, fresh, k + 1);
    assert(cs2[k] == id);
    assert(seq_without(cs2, fresh) =~= cs) by {
        assert(cs2.contains(fresh));
    }
    let b = choose|b: Tree| #[trigger] split_base(t, id, at as int, fresh, b) && m == forest_insert_after(b, id, fresh);
    if kind_of_spec(t[id].spec) == ContentKind::Plain {
        let text = text_of_spec(t[id].spec);
        let cut = if at < text.len() { at as int } else { text.len() as int };
        let (head, tail) = choose|head: NodeSpec, tail: NodeSpec|
            kind_of_spec(head) == ContentKind::Plain && text_of_spec(head) == text.take(cut)
                && kind_of_spec(tail) == ContentKind::Plain && text_of_spec(tail) == text.skip(cut) && b
                == t.insert(id, with_spec(t[id], head)).insert(
                fresh,
                TreeNode { spec: tail, parent: None, children: Seq::empty() },
            );
        assert(b[p] == t[p]);
        lemma_insert_after_detached(b, id, fresh, p);
        assert(m[fresh].parent == Some(p));
        assert(m[p].children == cs2);
        assert(prev_sibling(m, fresh) == Some(id));
        assert(m[id].spec == head);
        assert(m[fresh].spec == tail);
        assert(merge_accepted(m, id, fresh));
        let s = choose|s: NodeSpec|
            kind_of_spec(s) == ContentKind::Plain && text_of_spec(s) == text_of_spec(m[id].spec) + text_of_spec(
                m[fresh].spec,
            ) && after == forest_remove_subtree(m.insert(id, with_spec(m[id], s)), fresh);
        assert(text.take(cut) + text.skip(cut) =~= text);
        let m2 = m.insert(id, with_spec(m[id], s));
        assert forall|a: ContentId| #[trigger] is_desc_or_self(m2, a, fresh) implies a == fresh by {
            lemma_parentless_subtree(m2, fresh, a);
        }
        assert(ancestor_at(m2, fresh, 0) == Some(fresh));
        let want = t.insert(id, with_spec(t[id], s));
        assert(after =~= want) by {
            assert forall|a: ContentId| #[trigger] after.contains_key(a) <==> want.contains_key(a) by {
                if a == fresh {
                    assert(is_desc_or_self(m2, fresh, fresh));
                }
            }
            assert forall|a: ContentId| #[trigger] after.contains_key(a) implies after[a] == want[a] by {
                if a == p {
                    assert(t[p] == with_children(with_children(t[p], cs2), cs));
                }
            }
        }
    } else {
        lemma_rejoin_container(before, split, after, id, at, fresh);
    }
}

/// The case of a node other than a text leaf: its children from the split
/// on, moved to the new node by the split, come back to it, after the
/// children it kept, and the new node goes.
#[verifier::spinoff_prover]
proof fn lemma_rejoin_container(
    before: DirectContent,
    split: DirectContent,
    after: Tree,
    id: ContentId,
    at: usize,
    fresh: ContentId,
)
    requires
        before.wf(),
        split.wf(),
        before@.contains_key(id),
        before@[id].parent is Some,
        kind_of_spec(before@[id].spec) != ContentKind::Plain,
        !before@.contains_key(fresh),
        split_outcome(before@, id, at as int, fresh, split@, true),
        (prev_sibling(split@, fresh) matches Some(prev) ==> is_merge_of(split@, prev, fresh, after)) || is_merge_of(
            split@,
            id,
            fresh,
            after,
        ),
    ensures
        prev_sibling(split@, fresh) == Some(id),
        merge_accepted(split@, id, fresh),
        after == before@,
{
    let t = before@;
    let m = split@;
    lemma_before_split(before, id, fresh);
    let p = t[id].parent.unwrap();
    let cs = t[p].children;
    let k = cs.index_of(id);
    let cs2 = cs.insert(k + 1, fresh);
    lemma_seq_insert(cs, k + 1, fresh);
    assert(cs2[k + 1] == fresh);
    lemma_index_of_unique(cs2, fresh, k + 1);
    assert(cs2[k] == id);
    assert(seq_without(cs2, fresh) =~= cs) by {
        assert(cs2.contains(fresh));
    }
    let b = choose|b: Tree| #[trigger] split_base(t, id, at as int, fresh, b) && m == forest_insert_after(b, id, fresh);
    let ch = t[id].children;
    let cut = if at < ch.len() { at as int } else { ch.len() as int };
    let pre = ch.take(cut);
    let xs = ch.skip(cut);
    let t0 = t.insert(fresh, TreeNode { spec: t[id].spec, parent: None, children: Seq::empty() });
    assert(b == forest_append_all(t0, fresh, xs));
    assert(pre + xs + Seq::<ContentId>::empty() =~= ch);
    assert(ch.no_duplicates());
    assert forall|x: ContentId| #[trigger] xs.contains(x) implies ch.contains(x) && t.contains_key(x)
        && t[x].parent == Some(id) by {
        let i = choose|i: int| 0 <= i < xs.len() && xs[i] == x;
        assert(ch[cut + i] == x);
    }
    assert(!xs.contains(id)) by {
        if xs.contains(id) {
            assert(before.ranks()[id] < before.ranks()[id]) by {
                before.lemma_view_wf();
            }
        }
    }
    assert(!xs.contains(p)) by {
        if xs.contains(p) {
            before.lemma_view_wf();
            assert(before.ranks()[id] < before.ranks()[p]);
            assert(before.ranks()[p] < before.ranks()[id]);
        }
    }
    lemma_move_children(t0, id, fresh, pre, xs, Seq::empty());
    assert(pre + Seq::<ContentId>::empty() =~= pre);
    assert(Seq::<ContentId>::empty() + xs =~= xs);
    assert(b[id] == with_children(t[id], pre));
    assert(b[fresh] == (TreeNode { spec: t[id].spec, parent: None, children: xs }));
    assert(t0.contains_key(p) && t0[p] == t[p]);
    assert(b[p] == t[p]);
    assert forall|x: ContentId| #[trigger] b[p].children.contains(x) implies b.contains_key(x)
        && b[x].parent == Some(p) by {
        let i = choose|i: int| 0 <= i < cs.len() && cs[i] == x;
        assert(t[p].children[i] == x);
        assert(t.contains_key(x) && t[x].parent == Some(p));
        assert(x != fresh);
        if x == id {
            assert(b[id].parent == Some(p));
        } else if xs.contains(x) {
            assert(t[x].parent == Some(id));
        } else {
            assert(t0.contains_key(x) && t0[x] == t[x]);
            assert(b[x] == t0[x]);
        }
    }
    lemma_insert_after_detached(b, id, fresh, p);
    assert(m[fresh].parent == Some(p));
    assert(m[p].children == cs2);
    assert(prev_sibling(m, fresh) == Some(id));
    assert(m[id].spec == t[id].spec);
    assert(m[fresh].spec == t[id].spec);
    assert(merge_accepted(m, id, fresh));
    assert(m[fresh].children == xs);
    assert(Seq::<ContentId>::empty() + xs + Seq::<ContentId>::empty() =~= xs);
    assert(xs.no_duplicates()) by {
        assert forall|a: int, c: int| 0 <= a < xs.len() && 0 <= c < xs.len() && a != c implies xs[a]
            != xs[c] by {
            assert(ch[cut + a] == xs[a]);
            assert(ch[cut + c] == xs[c]);
        }
    }
    lemma_move_children(m, fresh, id, Seq::empty(), xs, Seq::empty());
    let r = forest_append_all(m, id, xs);
    assert(pre + xs =~= ch);
    assert(r[id] == t[id]);
    assert(r[fresh].children.len() == 0);
    assert forall|x: ContentId| #[trigger] r.contains_key(x) implies r[x].parent != Some(fresh) by {
        if xs.contains(x) {
        } else if x == fresh {
        } else if x == id {
        } else if x == p {
        } else {
            assert(t.contains_key(x));
        }
    }
    assert forall|a: ContentId| #[trigger] is_desc_or_self(r, a, fresh) implies a == fresh by {
        lemma_parentless_subtree(r, fresh, a);
    }
    assert(ancestor_at(r, fresh, 0) == Some(fresh));
    assert(after =~= t) by {
        assert forall|a: ContentId| #[trigger] after.contains_key(a) <==> t.contains_key(a) by {
            if a == fresh {
                assert(is_desc_or_self(r, fresh, fresh));
            }
        }
        let d = forest_detach(r, fresh);
        assert(r[fresh].parent == Some(p));
        assert(d[p] == with_children(r[p], seq_without(r[p].children, fresh)));
        assert forall|a: ContentId| #[trigger] after.contains_key(a) implies after[a] == t[a] by {
            assert(a != fresh);
            assert(after[a] == d[a]);
            if a == p {
                assert(m.contains_key(p) && !xs.contains(p));
                assert(r[p] == m[p]);
                assert(m[p] == with_children(t[p], cs2));
                assert(t[p] == with_children(with_children(t[p], cs2), cs));
            } else if a == id {
                assert(d[a] == r[a]);
            } else if xs.contains(a) {
                assert(d[a] == r[a]);
                assert(r[a] == with_parent(m[a], Some(id)));
                assert(m[a] == b[a]);
                assert(b[a] == with_parent(t0[a], Some(fresh)));
                assert(t[a].parent == Some(id));
                assert(t[a] == with_parent(with_parent(t[a], Some(fresh)), Some(id)));
            } else {
                assert(d[a] == r[a]);
                assert(m.contains_key(a));
                assert(r[a] == m[a]);
                assert(m[a] == b[a]);
                assert(t0.contains_key(a));
                assert(b[a] == t0[a]);
            }
        }
    }
}

/// The shape of a split with the node placed: the new node `fresh` enters
/// the children of the parent `p` of `id` right after `id`; a text leaf
/// keeps its text before the cut and `fresh` gets the rest; any other node
/// keeps its children before the cut and `fresh`, of the same kind, gets
/// the others; the parent keeps its own parent and specification.
pub proof fn lemma_split_shape(before: DirectContent, split: Tree, id: ContentId, at: int, fresh: ContentId)
    requires
        0 <= at,
        before.wf(),
        before@.contains_key(id),
        before@[id].parent is Some,
        !before@.contains_key(fresh),
        split_outcome(before@, id, at, fresh, split, true),
    ensures
        ({
            let t = before@;
            let p = t[id].parent.unwrap();
            let cs = t[p].children;
            let k = cs.index_of(id);
            &&& t.contains_key(p)
            &&& cs.contains(id)
            &&& 0 <= k < cs.len()
            &&& cs[k] == id
            &&& cs.no_duplicates()
            &&& split.contains_key(id)
            &&& split.contains_key(p)
            &&& split.contains_key(fresh)
            &&& split[p].children == cs.insert(k + 1, fresh)
            &&& split[p].parent == t[p].parent
            &&& split[p].spec == t[p].spec
            &&& split[id].parent == Some(p)
            &&& split[fresh].parent == Some(p)
            &&& forall|x: ContentId| #[trigger] t.contains_key(x) && x != id ==> split.contains_key(x)
                && split[x].spec == t[x].spec
            &&& kind_of_spec(t[id].spec) == ContentKind::Plain ==> {
                let text = text_of_spec(t[id].spec);
                let cut = if at < text.len() { at } else { text.len() as int };
                &&& text_of_spec(split[id].spec) == text.take(cut)
                &&& text_of_spec(split[fresh].spec) == text.skip(cut)
            }
            &&& kind_of_spec(t[id].spec) != ContentKind::Plain ==> {
                let ch = t[id].children;
                let cut = if at < ch.len() { at } else { ch.len() as int };
                &&& split[id].children == ch.take(cut)
                &&& split[fresh].children == ch.skip(cut)
                &&& split[id].spec == t[id].spec
                &&& split[fresh].spec == t[id].spec
            }
        }),
{
    let t = before@;
    let m = split;
    lemma_before_split(before, id, fresh);
    let p = t[id].parent.unwrap();
    let cs = t[p].children;
    let k = cs.index_of(id);
    let cs2 = cs.insert(k + 1, fresh);
    lemma_seq_insert(cs, k + 1, fresh);
    let b = choose|b: Tree| #[trigger] split_base(t, id, at, fresh, b) && m == forest_insert_after(b, id, fresh);
    if kind_of_spec(t[id].spec) == ContentKind::Plain {
        let text = text_of_spec(t[id].spec);
        let cut = if at < text.len() { at } else { text.len() as int };
        let (head, tail) = choose|head: NodeSpec, tail: NodeSpec|
            kind_of_spec(head) == ContentKind::Plain && text_of_spec(head) == text.take(cut)
                && kind_of_spec(tail) == ContentKind::Plain && text_of_spec(tail) == text.skip(cut) && b
                == t.insert(id, with_spec(t[id], head)).insert(
                fresh,
                TreeNode { spec: tail, parent: None, children: Seq::empty() },
            );
        assert(b[p] == t[p]);
        lemma_insert_after_detached(b, id, fresh, p);
        assert forall|x: ContentId| #[trigger] t.contains_key(x) && x != id implies m.contains_key(x)
            && m[x].spec == t[x].spec by {
            assert(x != fresh);
        }
    } else {
        let ch = t[id].children;
        let cut = if at < ch.len() { at } else { ch.len() as int };
        let pre = ch.take(cut);
        let xs = ch.skip(cut);
        let t0 = t.insert(fresh, TreeNode { spec: t[id].spec, parent: None, children: Seq::empty() });
        assert(b == forest_append_all(t0, fresh, xs));
        assert(pre + xs + Seq::<ContentId>::empty() =~= ch);
        assert(ch.no_duplicates());
        assert forall|x: ContentId| #[trigger] xs.contains(x) implies ch.contains(x) && t.contains_key(x)
            && t[x].parent == Some(id) by {
            let i = choose|i: int| 0 <= i < xs.len() && xs[i] == x;
            assert(ch[cut + i] == x);
        }
        assert(!xs.contains(id)) by {
            if xs.contains(id) {
                assert(before.ranks()[id] < before.ranks()[id]) by {
                    before.lemma_view_wf();
                }
            }
        }
        assert(!xs.contains(p)) by {
            if xs.contains(p) {
                before.lemma_view_wf();
                assert(before.ranks()[id] < before.ranks()[p]);
                assert(before.ranks()[p] < before.ranks()[id]);
            }
        }
        lemma_move_children(t0, id, fresh, pre, xs, Seq::empty());
        assert(pre + Seq::<ContentId>::empty() =~= pre);
        assert(Seq::<ContentId>::empty() + xs =~= xs);
        assert(b[id] == with_children(t[id], pre));
        assert(b[fresh] == (TreeNode { spec: t[id].spec, parent: None, children: xs }));
        assert(t0.contains_key(p) && t0[p] == t[p]);
        assert(b[p] == t[p]);
        assert forall|x: ContentId| #[trigger] b[p].children.contains(x) implies b.contains_key(x)
            && b[x].parent == Some(p) by {
            let i = choose|i: int| 0 <= i < cs.len() && cs[i] == x;
            assert(t[p].children[i] == x);
            assert(t.contains_key(x) && t[x].parent == Some(p));
            assert(x != fresh);
            if x == id {
                assert(b[id].parent == Some(p));
            } else if xs.contains(x) {
                assert(t[x].parent == Some(id));
            } else {
                assert(t0.contains_key(x) && t0[x] == t[x]);
                assert(b[x] == t0[x]);
            }
        }
        lemma_insert_after_detached(b, id, fresh, p);
        assert forall|x: ContentId| #[trigger] t.contains_key(x) && x != id implies m.contains_key(x)
            && m[x].spec == t[x].spec by {
            assert(x != fresh);
            assert(t0.contains_key(x) && t0[x] == t[x]);
            if xs.contains(x) {
                assert(b[x] == with_parent(t0[x], Some(fresh)));
            } else {
                assert(b[x] == t0[x]);
            }
        }
    }
    assert(cs.contains(id));
    let i = choose|i: int| 0 <= i < cs.len() && cs[i] == id;
    lemma_index_of_unique(cs, id, i);
}

} // verus!
