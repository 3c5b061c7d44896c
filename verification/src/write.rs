//! Editing operations derived from the primitive writes of the in-memory
//! backend: creating and attaching nodes, inserting a sibling, merging and
//! splitting nodes, and repairing the nesting of the tree against the
//! grammar.
use vstd::prelude::*;
use vstd::string::*;

use crate::direct::DirectContent;
use crate::error::ContentError;
use crate::forest::{
    ancestor_at, forest_append, forest_append_all, forest_insert_after, forest_linked,
    forest_ranked, forest_remove_subtree, is_desc_or_self, seq_without, with_spec, TreeNode,
};
use crate::id::ContentId;
use crate::kind::{
    has_ascending_path, is_ascending_path, is_default_node, is_shortest_ascending_path, kind_of_spec,
    same_children_kinds, text_of_spec, ContentKind, NodeSpec,
};
use crate::nav::{leaves_of, leaves_under, next_sibling, prev_sibling, Tree};

verus! {

/// A node of kind `target` can take in the children of a node of kind
/// `source`: neither is a text node and both accept the same kinds of
/// children.
pub open spec fn merges_children(target: ContentKind, source: ContentKind) -> bool {
    &&& target != ContentKind::Plain
    &&& source != ContentKind::Plain
    &&& same_children_kinds(target, source)
}

/// `b` is the tree `t` once node `id` has been cut in two at `at` into
/// `id` and the fresh node `fresh`, before `fresh` is placed anywhere: a
/// text node keeps its first `at` characters and `fresh` gets the rest; any
/// other node keeps its first `at` children and `fresh`, of the same
/// specification, gets the others, in order. `at` is clamped to the length.
pub open spec fn split_base(t: Tree, id: ContentId, at: int, fresh: ContentId, b: Tree) -> bool {
    let spec = t[id].spec;
    if kind_of_spec(spec) == ContentKind::Plain {
        let text = text_of_spec(spec);
        let k = if at < text.len() { at } else { text.len() as int };
        exists|head: NodeSpec, tail: NodeSpec|
            kind_of_spec(head) == ContentKind::Plain && text_of_spec(head) == text.take(k)
                && kind_of_spec(tail) == ContentKind::Plain && text_of_spec(tail) == text.skip(k) && b
                == t.insert(id, with_spec(t[id], head)).insert(
                fresh,
                TreeNode { spec: tail, parent: None, children: Seq::empty() },
            )
    } else {
        let cs = t[id].children;
        let k = if at < cs.len() { at } else { cs.len() as int };
        b == forest_append_all(
            t.insert(fresh, TreeNode { spec: spec, parent: None, children: Seq::empty() }),
            fresh,
            cs.skip(k),
        )
    }
}

/// `after` is `t` once node `id` has been cut in two at `at` (see
/// [`split_base`]), the new part `fresh` then placed just after `id` when
/// `id` has a parent (`placed`), left detached otherwise.
pub open spec fn split_outcome(t: Tree, id: ContentId, at: int, fresh: ContentId, after: Tree, placed: bool) -> bool {
    exists|b: Tree|
        #[trigger] split_base(t, id, at, fresh, b) && if t[id].parent is Some {
            placed && after == forest_insert_after(b, id, fresh)
        } else {
            !placed && after == b
        }
}

/// Identifier of the `j`-th node created from the counter value `first`.
pub open spec fn wrapper_id(first: nat, j: nat) -> ContentId {
    ContentId((first + j) as u64)
}

/// `t` with node `d` nested, from the inside out, in `n` fresh nodes
/// numbered from `first`, each one the last child of the next; the
/// specification of each fresh node is the one it has in `specs`.
pub open spec fn wrapped(t: Tree, d: ContentId, n: nat, first: nat, specs: Tree) -> Tree
    decreases n,
{
    if n == 0 {
        t
    } else {
        let w = wrapper_id(first, (n - 1) as nat);
        let inner = if n == 1 { d } else { wrapper_id(first, (n - 2) as nat) };
        let prev = wrapped(t, d, (n - 1) as nat, first, specs);
        forest_append(
            prev.insert(w, TreeNode { spec: specs[w].spec, parent: None, children: Seq::empty() }),
            w,
            inner,
        )
    }
}

/// [`wrapped`] only reads the specifications of the fresh nodes.
pub proof fn lemma_wrapped_specs(t: Tree, d: ContentId, n: nat, first: nat, s1: Tree, s2: Tree)
    requires
        forall|j: nat| j < n ==> s1[wrapper_id(first, j)].spec == #[trigger] s2[wrapper_id(first, j)].spec,
    ensures
        wrapped(t, d, n, first, s1) == wrapped(t, d, n, first, s2),
    decreases n,
{
    if n > 0 {
        lemma_wrapped_specs(t, d, (n - 1) as nat, first, s1, s2);
        assert(s1[wrapper_id(first, (n - 1) as nat)].spec == s2[wrapper_id(first, (n - 1) as nat)].spec);
    }
}

/// `after` is `t` once a text node has been placed under `leaf` when
/// `leaf` is not a text node itself: an empty `Plain` node numbered `first`,
/// nested in the intermediate nodes that the grammar asks for (numbered
/// after it, with default attributes), the outermost one attached as the
/// last child of `leaf`; `used` identifiers were handed out. A text leaf is
/// left alone.
pub open spec fn plain_leaf_step(t: Tree, leaf: ContentId, first: nat, after: Tree, used: nat) -> bool {
    let lk = kind_of_spec(t[leaf].spec);
    if lk == ContentKind::Plain {
        after == t && used == 0
    } else {
        let plain = wrapper_id(first, 0);
        exists|p: Seq<ContentKind>|
            #[trigger] is_shortest_ascending_path(p.push(ContentKind::Plain), ContentKind::Plain, lk, Seq::empty()) && {
                let n = p.len();
                let top = if n == 0 { plain } else { wrapper_id(first + 1, (n - 1) as nat) };
                &&& used == n + 1
                &&& kind_of_spec(after[plain].spec) == ContentKind::Plain
                &&& text_of_spec(after[plain].spec).len() == 0
                &&& forall|j: nat| j < n ==> is_default_node(p[n - 1 - j], #[trigger] after[wrapper_id(first + 1, j)].spec)
                &&& after == forest_append(
                    wrapped(
                        t.insert(plain, TreeNode { spec: after[plain].spec, parent: None, children: Seq::empty() }),
                        plain,
                        n,
                        first + 1,
                        after,
                    ),
                    leaf,
                    top,
                )
            }
    }
}

/// `ts` and `ns` are the trees and counter values met while
/// [`plain_leaf_step`] is applied to each node of `leaves` in turn,
/// starting from `t` and `first`.
pub open spec fn plain_leaf_run(t: Tree, leaves: Seq<ContentId>, first: nat, ts: Seq<Tree>, ns: Seq<nat>) -> bool {
    &&& ts.len() == leaves.len() + 1
    &&& ns.len() == leaves.len() + 1
    &&& ts[0] == t
    &&& ns[0] == first
    &&& forall|i: int| 0 <= i < leaves.len() ==> #[trigger] ns[i] <= ns[i + 1]
    &&& forall|i: int| 0 <= i < leaves.len() ==> #[trigger] plain_leaf_step(ts[i], leaves[i], ns[i], ts[i + 1], (ns[i + 1] - ns[i]) as nat)
}

/// Inside [`wrapped`], `d` hangs under the first fresh node, each fresh node
/// under the next one, and the last one has no parent; every other node
/// keeps its parent, and no node disappears.
pub proof fn lemma_wrapped_parents(t: Tree, d: ContentId, n: nat, first: nat, specs: Tree)
    requires
        first + n <= u64::MAX + 1,
        d.0 < first,
    ensures
        forall|x: ContentId| #[trigger] t.contains_key(x) ==> wrapped(t, d, n, first, specs).contains_key(x),
        forall|j: nat| j < n ==> wrapped(t, d, n, first, specs).contains_key(#[trigger] wrapper_id(first, j)),
        n > 0 ==> wrapped(t, d, n, first, specs)[d].parent == Some(wrapper_id(first, 0)),
        forall|j: nat| 0 < j < n ==> wrapped(t, d, n, first, specs)[#[trigger] wrapper_id(first, (j - 1) as nat)].parent
            == Some(wrapper_id(first, j)),
        n > 0 ==> wrapped(t, d, n, first, specs)[wrapper_id(first, (n - 1) as nat)].parent is None,
        forall|x: ContentId| x != d && x.0 < first ==> #[trigger] wrapped(t, d, n, first, specs)[x].parent == t[x].parent,
    decreases n,
{
    if n > 0 {
        lemma_wrapped_parents(t, d, (n - 1) as nat, first, specs);
        let w = wrapper_id(first, (n - 1) as nat);
        let inner = if n == 1 { d } else { wrapper_id(first, (n - 2) as nat) };
        let prev = wrapped(t, d, (n - 1) as nat, first, specs);
        let ins = prev.insert(w, TreeNode { spec: specs[w].spec, parent: None, children: Seq::empty() });
        crate::forest::lemma_append_parent_of(ins, w, inner);
        assert(w != inner);
        assert forall|j: nat| 0 < j < n implies wrapped(t, d, n, first, specs)[#[trigger] wrapper_id(first, (j - 1) as nat)].parent
            == Some(wrapper_id(first, j)) by {
            if j < n - 1 {
                assert(wrapper_id(first, (j - 1) as nat) != inner);
                assert(wrapper_id(first, (j - 1) as nat) != w);
            }
        }
        assert forall|x: ContentId| x != d && x.0 < first implies #[trigger] wrapped(t, d, n, first, specs)[x].parent == t[x].parent by {
            assert(x != w);
            assert(x != inner);
        }
    }
}

/// The chain of parents from `c`: up through the fresh nodes numbered from
/// `first`, then to `parent`.
pub proof fn lemma_wrapper_chain(t: Tree, c: ContentId, first: nat, n: nat, parent: ContentId, j: nat)
    requires
        j <= n + 1,
        t.contains_key(c),
        forall|i: nat| i < n ==> t.contains_key(#[trigger] wrapper_id(first, i)),
        t[c].parent == (if n == 0 { Some(parent) } else { Some(wrapper_id(first, 0)) }),
        forall|i: nat| 0 < i < n ==> t[#[trigger] wrapper_id(first, (i - 1) as nat)].parent == Some(wrapper_id(first, i)),
        n > 0 ==> t[wrapper_id(first, (n - 1) as nat)].parent == Some(parent),
    ensures
        ancestor_at(t, c, j) == (if j == 0 {
            Some(c)
        } else if j <= n {
            Some(wrapper_id(first, (j - 1) as nat))
        } else {
            Some(parent)
        }),
    decreases j,
{
    if j > 0 {
        lemma_wrapper_chain(t, c, first, n, parent, (j - 1) as nat);
        crate::forest::lemma_ancestor_succ(t, c, (j - 1) as nat);
        if j >= 2 && j <= n {
            assert(t[wrapper_id(first, (j - 2) as nat)].parent == Some(wrapper_id(first, (j - 1) as nat)));
        }
    }
}

/// The tree once the node `c`, created under the counter value it holds,
/// has been nested in fresh nodes of the kinds `p` (outermost first,
/// numbered after `c`, with the specifications they have in `specs`) and the
/// outermost one attached last under `parent`.
pub open spec fn appended_tree(t: Tree, parent: ContentId, c: ContentId, p: Seq<ContentKind>, specs: Tree) -> Tree {
    let first = (c.0 + 1) as nat;
    let n = p.len();
    let top = if n == 0 { c } else { wrapper_id(first, (n - 1) as nat) };
    forest_append(
        wrapped(
            t.insert(c, TreeNode { spec: specs[c].spec, parent: None, children: Seq::empty() }),
            c,
            n,
            first,
            specs,
        ),
        parent,
        top,
    )
}

/// `after` (with counter `next`) is `t` once the node `c`, created just
/// before under the counter value it holds, has been nested in fresh nodes
/// of the kinds `p` (default attributes, outermost first, numbered after
/// `c`), the outermost attached last under `parent`, and every leaf of the
/// document then made a text node; `c` then lies `p.len() + 1` links below
/// `parent`, with those fresh nodes in between.
pub open spec fn content_appended(
    t: Tree,
    parent: ContentId,
    c: ContentId,
    root: ContentId,
    p: Seq<ContentKind>,
    after: Tree,
    next: nat,
) -> bool {
    let first = (c.0 + 1) as nat;
    let n = p.len();
    let m = appended_tree(t, parent, c, p, after);
    &&& forall|j: nat| j < n ==> is_default_node(p[n - 1 - j], #[trigger] after[wrapper_id(first, j)].spec)
    &&& exists|ts: Seq<Tree>, ns: Seq<nat>|
        #[trigger] plain_leaf_run(m, leaves_under(m, root), first + n, ts, ns) && ts.last() == after
            && ns.last() == next
    &&& forall|j: nat| j < n ==> ancestor_at(after, c, j + 1) == Some(#[trigger] wrapper_id(first, j))
    &&& ancestor_at(after, c, n + 1) == Some(parent)
}

/// What a merge of `source` into `target` leaves in place: no node
/// appears; every node but `target` keeps its specification, and `target`
/// its kind; every node whose parent was not `source` keeps its parent;
/// every node outside the subtree of `source` stays.
pub open spec fn merge_frame(t: Tree, target: ContentId, source: ContentId, after: Tree) -> bool {
    &&& forall|x: ContentId| #[trigger] after.contains_key(x) ==> t.contains_key(x)
    &&& forall|x: ContentId| #[trigger] after.contains_key(x) && x != target ==> after[x].spec == t[x].spec
    &&& forall|x: ContentId| #[trigger] after.contains_key(x) ==> kind_of_spec(after[x].spec) == kind_of_spec(t[x].spec)
    &&& forall|x: ContentId| #[trigger] after.contains_key(x) && t[x].parent != Some(source) ==> after[x].parent == t[x].parent
    &&& forall|x: ContentId| #[trigger] t.contains_key(x) && !is_desc_or_self(t, x, source) ==> after.contains_key(x)
}

/// Forests with the same nodes and the same parents have the same subtrees.
proof fn lemma_desc_same_chain(t: Tree, m: Tree, c: ContentId)
    requires
        m.dom() == t.dom(),
        forall|x: ContentId| #[trigger] m.contains_key(x) ==> m[x].parent == t[x].parent,
    ensures
        forall|x: ContentId| #[trigger] is_desc_or_self(m, x, c) == is_desc_or_self(t, x, c),
{
    assert forall|x: ContentId| #[trigger] is_desc_or_self(m, x, c) == is_desc_or_self(t, x, c) by {
        assert forall|j: nat| #[trigger] ancestor_at(t, x, j) is Some implies ({
            let y = ancestor_at(t, x, j).unwrap();
            t.contains_key(y) == m.contains_key(y) && (t.contains_key(y) ==> m[y].parent == t[y].parent)
        }) by {
            let y = ancestor_at(t, x, j).unwrap();
            assert(t.contains_key(y) == m.contains_key(y));
        }
        if is_desc_or_self(m, x, c) {
            let k = choose|k: nat| ancestor_at(m, x, k) == Some(c);
            crate::forest::lemma_chain_unchanged(t, m, x, k);
        }
        if is_desc_or_self(t, x, c) {
            let k = choose|k: nat| ancestor_at(t, x, k) == Some(c);
            crate::forest::lemma_chain_unchanged(t, m, x, k);
        }
    }
}

/// `source` can be merged into `target`: two text nodes, or two containers
/// whose children are interchangeable.
pub open spec fn merge_accepted(t: Tree, target: ContentId, source: ContentId) -> bool {
    let tk = kind_of_spec(t[target].spec);
    let sk = kind_of_spec(t[source].spec);
    (tk == ContentKind::Plain && sk == ContentKind::Plain) || merges_children(tk, sk)
}

/// `after` is the tree `t` once `source` has been merged into `target`:
/// for two text nodes, `target` holds the text of both and `source` is
/// gone; for two containers, the children of `source` follow those of
/// `target` and `source` is gone; otherwise nothing changed.
pub open spec fn is_merge_of(t: Tree, target: ContentId, source: ContentId, after: Tree) -> bool {
    let tk = kind_of_spec(t[target].spec);
    let sk = kind_of_spec(t[source].spec);
    if tk == ContentKind::Plain && sk == ContentKind::Plain {
        exists|s: NodeSpec|
            kind_of_spec(s) == ContentKind::Plain && text_of_spec(s) == text_of_spec(t[target].spec)
                + text_of_spec(t[source].spec) && after == forest_remove_subtree(
                t.insert(target, with_spec(t[target], s)),
                source,
            )
    } else if merges_children(tk, sk) {
        after == forest_remove_subtree(forest_append_all(t, target, t[source].children), source)
    } else {
        after == t
    }
}

impl DirectContent {
    /// Creates a detached node (without parent), to be attached later.
    pub fn create_node<N>(&mut self, spec: N) -> (id: ContentId) where NodeSpec: From<N>
        requires
            old(self).wf(),
            old(self).next_id() < u64::MAX,
        ensures
            final(self).wf(),
            !old(self)@.contains_key(id),
            id.0 == old(self).next_id(),
            final(self)@ == old(self)@.insert(
                id,
                TreeNode { spec: final(self)@[id].spec, parent: None, children: Seq::empty() },
            ),
            call_ensures(NodeSpec::from, (spec,), final(self)@[id].spec),
            final(self).root_id() == old(self).root_id(),
            final(self).next_id() == old(self).next_id() + 1,
    {
        let node = NodeSpec::from(spec);
        self.create_node_spec(node)
    }

    /// Attaches `child` as the last child of `parent`, without checking that
    /// the kinds fit.
    pub fn append_child_unchecked(&mut self, parent: ContentId, child: ContentId) -> (r: Result<
        (),
        ContentError,
    >)
        requires
            old(self).wf(),
            old(self)@.contains_key(parent),
            old(self)@.contains_key(child),
            !is_desc_or_self(old(self)@, parent, child),
        ensures
            final(self).wf(),
            r is Ok,
            final(self)@ == forest_append(old(self)@, parent, child),
            final(self).root_id() == old(self).root_id(),
            final(self).next_id() == old(self).next_id(),
    {
        let index = self.children_of(parent).len();
        self.insert_child_at(parent, index, child)
    }

    /// Inserts `sibling` just after `id`, as a child of the parent of `id`;
    /// fails when `id` has no parent.
    pub fn insert_sibling_after(&mut self, id: ContentId, sibling: ContentId) -> (r: Result<
        ContentId,
        ContentError,
    >)
        requires
            old(self).wf(),
            old(self)@.contains_key(id),
            old(self)@.contains_key(sibling),
            old(self)@[id].parent matches Some(p) ==> !is_desc_or_self(old(self)@, p, sibling),
            next_sibling(old(self)@, id) != Some(sibling),
        ensures
            final(self).wf(),
            final(self).root_id() == old(self).root_id(),
            final(self).next_id() == old(self).next_id(),
            old(self)@[id].parent is None ==> r == Err::<ContentId, ContentError>(
                ContentError::NoParent(id),
            ) && final(self)@ == old(self)@,
            old(self)@[id].parent is Some ==> r == Ok::<ContentId, ContentError>(sibling)
                && final(self)@ == forest_insert_after(old(self)@, id, sibling),
            forall|x: ContentId| #[trigger] final(self)@.contains_key(x) ==> final(self)@[x].spec == old(self)@[x].spec,
            old(self)@[id].parent is Some ==> final(self)@[sibling].parent == old(self)@[id].parent,
            forall|x: ContentId| #[trigger] final(self)@.contains_key(x) && x != sibling ==> final(self)@[x].parent == old(self)@[x].parent,
            final(self)@.dom() == old(self)@.dom(),
    {
        proof {
            self.lemma_view_wf();
        }
        let parent = match self.parent_of(id) {
            Some(p) => p,
            None => return Err(ContentError::NoParent(id)),
        };
        let siblings = self.children_of(parent);
        let index = self.position_in(parent, id, &siblings);
        let _ = self.insert_child_at(parent, index + 1, sibling);
        Ok(sibling)
    }

    /// Moves each node of `cs`, in order, to the end of the children of `to`.
    fn append_each(&mut self, to: ContentId, cs: &Vec<ContentId>)
        requires
            old(self).wf(),
            old(self)@.contains_key(to),
            forall|i: int| 0 <= i < cs@.len() ==> old(self)@.contains_key(#[trigger] cs@[i]),
            forall|i: int| 0 <= i < cs@.len() ==> !is_desc_or_self(old(self)@, to, #[trigger] cs@[i]),
        ensures
            final(self).wf(),
            final(self)@ == forest_append_all(old(self)@, to, cs@),
            final(self)@.dom() == old(self)@.dom(),
            forall|k: nat| #[trigger] ancestor_at(final(self)@, to, k) == ancestor_at(old(self)@, to, k),
            forall|x: ContentId| #[trigger] final(self)@.contains_key(x) && !cs@.contains(x)
                ==> final(self)@[x].parent == old(self)@[x].parent,
            forall|x: ContentId| #[trigger] final(self)@.contains_key(x) ==> final(self)@[x].spec == old(self)@[x].spec,
            cs@.no_duplicates() && (forall|i: int| 0 <= i < cs@.len() ==> old(self)@[#[trigger] cs@[i]].parent != Some(to))
                ==> final(self)@[to].children == old(self)@[to].children + cs@,
            final(self).root_id() == old(self).root_id(),
            final(self).next_id() == old(self).next_id(),
    {
        let ghost start = self@;
        let mut i: usize = 0;
        while i < cs.len()
            invariant
                self.wf(),
                i <= cs.len(),
                start.contains_key(to),
                forall|j: int| 0 <= j < cs@.len() ==> start.contains_key(#[trigger] cs@[j]),
                forall|j: int| 0 <= j < cs@.len() ==> !is_desc_or_self(start, to, #[trigger] cs@[j]),
                self@ == forest_append_all(start, to, cs@.take(i as int)),
                self@.dom() == start.dom(),
                forall|k: nat| #[trigger] ancestor_at(self@, to, k) == ancestor_at(start, to, k),
                forall|x: ContentId| #[trigger] self@.contains_key(x) && !cs@.take(i as int).contains(x)
                    ==> self@[x].parent == start[x].parent,
                forall|x: ContentId| #[trigger] self@.contains_key(x) ==> self@[x].spec == start[x].spec,
                cs@.no_duplicates() && (forall|j: int| 0 <= j < cs@.len() ==> start[#[trigger] cs@[j]].parent != Some(to))
                    ==> self@[to].children == start[to].children + cs@.take(i as int),
                self.root_id() == old(self).root_id(),
                self.next_id() == old(self).next_id(),
            decreases cs.len() - i,
        {
            let c = cs[i];
            let ghost before = self@;
            proof {
                self.lemma_view_wf();
                assert(!is_desc_or_self(before, to, c)) by {
                    if is_desc_or_self(before, to, c) {
                        let k = choose|k: nat| ancestor_at(before, to, k) == Some(c);
                        assert(ancestor_at(start, to, k) == Some(c));
                    }
                }
            }
            let _ = self.append_child_unchecked(to, c);
            proof {
                crate::forest::lemma_append_parents(before, to, c);
                crate::forest::lemma_append_all_push(start, to, cs@.take(i as int), c);
                assert(cs@.take(i as int).push(c) =~= cs@.take(i + 1));
                if cs@.no_duplicates() && (forall|j: int| 0 <= j < cs@.len() ==> start[#[trigger] cs@[j]].parent != Some(to)) {
                    assert(!cs@.take(i as int).contains(c)) by {
                        if cs@.take(i as int).contains(c) {
                            let j = choose|j: int| 0 <= j < i && cs@.take(i as int)[j] == c;
                            assert(cs@[j] == cs@[i as int]);
                        }
                    }
                    assert(before[c].parent == start[c].parent);
                    assert(c != to) by {
                        assert(ancestor_at(start, to, 0) == Some(to));
                    }
                    assert(self@[to].children =~= start[to].children + cs@.take(i + 1));
                }
                let after = self@;
                assert forall|x: ContentId| #[trigger] after.contains_key(x) && !cs@.take(i + 1).contains(x)
                    implies after[x].parent == start[x].parent by {
                    assert(cs@.take(i + 1)[i as int] == c);
                    assert(x != c);
                    if cs@.take(i as int).contains(x) {
                        let j = choose|j: int| 0 <= j < i && cs@.take(i as int)[j] == x;
                        assert(cs@.take(i + 1)[j] == x);
                    }
                }
                assert forall|k: nat| #[trigger] ancestor_at(after, to, k) == ancestor_at(start, to, k) by {
                    assert forall|j: nat| #[trigger] ancestor_at(before, to, j) is Some implies ({
                        let x = ancestor_at(before, to, j).unwrap();
                        before.contains_key(x) == after.contains_key(x) && (before.contains_key(x)
                            ==> after[x].parent == before[x].parent)
                    }) by {
                        if ancestor_at(before, to, j) == Some(c) {
                            assert(ancestor_at(start, to, j) == Some(c));
                        }
                    }
                    crate::forest::lemma_chain_unchanged(before, after, to, k);
                }
            }
            i = i + 1;
        }
        proof {
            assert(cs@.take(cs@.len() as int) =~= cs@);
        }
    }

    /// Merges `source` into `target`: two `Plain` nodes get their texts
    /// joined (that of `source` after that of `target`); two container nodes
    /// that accept the same kinds of children (such as a `Paragraph` and a
    /// `ListItem`) get the children of `source` moved after those of
    /// `target`, which keeps its own kind and attributes. `source` is then
    /// deleted. Any other pair is refused, and the tree is left unchanged.
    pub fn merge_into(&mut self, target: ContentId, source: ContentId) -> (r: Result<(), ContentError>)
        requires
            old(self).wf(),
            old(self)@.contains_key(target),
            old(self)@.contains_key(source),
            merges_children(kind_of_spec(old(self)@[target].spec), kind_of_spec(old(self)@[source].spec))
                ==> target == source || !is_desc_or_self(old(self)@, target, source),
        ensures
            final(self).wf(),
            final(self).root_id() == old(self).root_id(),
            final(self).next_id() == old(self).next_id(),
            is_merge_of(old(self)@, target, source, final(self)@),
            merge_frame(old(self)@, target, source, final(self)@),
            merges_children(kind_of_spec(old(self)@[target].spec), kind_of_spec(old(self)@[source].spec))
                && target != source ==> {
                &&& final(self)@.contains_key(target)
                &&& final(self)@[target].spec == old(self)@[target].spec
                &&& final(self)@[target].children == seq_without(old(self)@[target].children, source)
                    + old(self)@[source].children
            },
            merge_accepted(old(self)@, target, source) ==> r is Ok,
            !merge_accepted(old(self)@, target, source) ==> r == Err::<(), ContentError>(
                ContentError::IncompatibleMerge {
                    target: kind_of_spec(old(self)@[target].spec),
                    source: kind_of_spec(old(self)@[source].spec),
                },
            ),
    {
        let ghost t = self@;
        let target_kind = self.kind_of(target);
        let source_kind = self.kind_of(source);
        if target_kind == ContentKind::Plain && source_kind == ContentKind::Plain {
            let mut merged = self.text_of(target);
            let tail = self.text_of(source);
            merged.append(tail.as_str());
            let spec = NodeSpec::Plain(merged);
            let _ = self.set_spec(target, spec);
            let ghost m1 = self@;
            proof {
                self.lemma_view_wf();
            }
            let _ = self.remove_node(source);
            proof {
                assert(kind_of_spec(spec) == ContentKind::Plain);
                crate::forest::lemma_remove_subtree_linked(m1, source);
                assert(m1.dom() =~= t.dom());
                lemma_desc_same_chain(t, m1, source);
            }
            return Ok(());
        }
        if target_kind != ContentKind::Plain && source_kind != ContentKind::Plain
            && target_kind.allowed_children_match(source_kind) {
            let cs = self.children_of(source);
            proof {
                self.lemma_view_wf();
                assert forall|i: int| 0 <= i < cs@.len() implies !is_desc_or_self(t, target, #[trigger] cs@[i]) by {
                    let c = cs@[i];
                    assert(t[c].parent == Some(source));
                    if is_desc_or_self(t, target, c) {
                        let k = choose|k: nat| ancestor_at(t, target, k) == Some(c);
                        crate::forest::lemma_ancestor_succ(t, target, k);
                        assert(ancestor_at(t, target, k + 1) == Some(source));
                        assert(is_desc_or_self(t, target, source));
                        assert(target == source);
                        crate::forest::lemma_desc_rank(t, self.ranks(), self.rank_limit(), source, c, k);
                        assert(false);
                    }
                }
            }
            self.append_each(target, &cs);
            let ghost mid = self@;
            proof {
                self.lemma_view_wf();
            }
            let _ = self.remove_node(source);
            proof {
                crate::forest::lemma_remove_subtree_linked(mid, source);
                assert forall|x: ContentId| #[trigger] t.contains_key(x) && !is_desc_or_self(t, x, source)
                    implies self@.contains_key(x) by {
                    if is_desc_or_self(mid, x, source) {
                        let k = choose|k: nat| ancestor_at(mid, x, k) == Some(source);
                        assert forall|j: nat| #[trigger] ancestor_at(t, x, j) is Some implies ({
                            let y = ancestor_at(t, x, j).unwrap();
                            t.contains_key(y) == mid.contains_key(y) && (t.contains_key(y)
                                ==> mid[y].parent == t[y].parent)
                        }) by {
                            crate::forest::lemma_ancestor_in(t, x, j);
                            let y = ancestor_at(t, x, j).unwrap();
                            if cs@.contains(y) {
                                let i = choose|i: int| 0 <= i < cs@.len() && cs@[i] == y;
                                assert(t[y].parent == Some(source));
                                crate::forest::lemma_ancestor_succ(t, x, j);
                                assert(ancestor_at(t, x, j + 1) == Some(source));
                            }
                        }
                        crate::forest::lemma_chain_unchanged(t, mid, x, k);
                    }
                }
                assert forall|x: ContentId| #[trigger] self@.contains_key(x) && t[x].parent != Some(source)
                    implies self@[x].parent == t[x].parent by {
                    if cs@.contains(x) {
                        let i = choose|i: int| 0 <= i < cs@.len() && cs@[i] == x;
                        assert(t[x].parent == Some(source));
                    }
                }
                if target != source {
                    let tc = t[target].children;
                    assert forall|i: int| 0 <= i < cs@.len() implies t[#[trigger] cs@[i]].parent != Some(target) by {
                        assert(t[cs@[i]].parent == Some(source));
                    }
                    assert(mid[target].children == tc + cs@);
                    assert(!is_desc_or_self(mid, target, source)) by {
                        if is_desc_or_self(mid, target, source) {
                            let k = choose|k: nat| ancestor_at(mid, target, k) == Some(source);
                            assert(ancestor_at(t, target, k) == Some(source));
                        }
                    }
                    assert(!cs@.contains(source)) by {
                        if cs@.contains(source) {
                            let i = choose|i: int| 0 <= i < cs@.len() && cs@[i] == source;
                            assert(t[source].parent == Some(source));
                            assert(t[source].children.contains(source));
                            crate::forest::lemma_ancestor_one(t, source);
                            assert(ancestor_at(t, source, 1) == Some(source));
                            crate::forest::lemma_desc_rank(t, self.ranks(), self.rank_limit(), source, source, 1);
                        }
                    }
                    assert(mid[source].parent == t[source].parent);
                    assert((tc + cs@).no_duplicates()) by {
                        assert forall|a: int, b: int| 0 <= a < (tc + cs@).len() && 0 <= b < (tc + cs@).len() && a != b
                            implies (tc + cs@)[a] != (tc + cs@)[b] by {
                            if a < tc.len() && b >= tc.len() {
                                assert(t[tc[a]].parent == Some(target));
                                assert(t[cs@[b - tc.len()]].parent == Some(source));
                            } else if b < tc.len() && a >= tc.len() {
                                assert(t[tc[b]].parent == Some(target));
                                assert(t[cs@[a - tc.len()]].parent == Some(source));
                            }
                        }
                    }
                    if t[source].parent == Some(target) {
                        assert(tc.contains(source));
                        crate::forest::lemma_seq_without_concat(tc, cs@, source);
                    } else {
                        assert(!tc.contains(source)) by {
                            if tc.contains(source) {
                                let i = choose|i: int| 0 <= i < tc.len() && tc[i] == source;
                                assert(t[tc[i]].parent == Some(target));
                            }
                        }
                    }
                }
            }
            return Ok(());
        }
        Err(ContentError::IncompatibleMerge { target: target_kind, source: source_kind })
    }

    /// Merges `id` into its previous sibling (same parent), see
    /// [`DirectContent::merge_into`] for the kinds accepted. Returns the
    /// merged node, the previous sibling; `id` is deleted.
    pub fn merge_with_prev(&mut self, id: ContentId) -> (r: Result<ContentId, ContentError>)
        requires
            old(self).wf(),
            old(self)@.contains_key(id),
        ensures
            final(self).wf(),
            final(self).root_id() == old(self).root_id(),
            final(self).next_id() == old(self).next_id(),
            prev_sibling(old(self)@, id) is None ==> r == Err::<ContentId, ContentError>(
                ContentError::NoPreviousSibling(id),
            ) && final(self)@ == old(self)@,
            prev_sibling(old(self)@, id) matches Some(prev) ==> {
                &&& is_merge_of(old(self)@, prev, id, final(self)@)
                &&& merge_accepted(old(self)@, prev, id) ==> r == Ok::<ContentId, ContentError>(prev)
                &&& !merge_accepted(old(self)@, prev, id) ==> r == Err::<ContentId, ContentError>(
                    ContentError::IncompatibleMerge {
                        target: kind_of_spec(old(self)@[prev].spec),
                        source: kind_of_spec(old(self)@[id].spec),
                    },
                )
            },
    {
        let ghost t = self@;
        let prev = match self.prev_sibling_of(id) {
            Some(p) => p,
            None => return Err(ContentError::NoPreviousSibling(id)),
        };
        proof {
            self.lemma_view_wf();
            let p = t[id].parent.unwrap();
            let cs = t[p].children;
            let k = cs.index_of(id);
            assert(cs.contains(id));
            assert(t[prev].parent == Some(p));
            assert(prev != id) by {
                assert(cs[k - 1] == prev);
                assert(cs[k] == id);
            }
            if is_desc_or_self(t, prev, id) {
                let j = choose|j: nat| ancestor_at(t, prev, j) == Some(id);
                assert(j > 0);
                crate::forest::lemma_ancestor_step(t, prev, p, (j - 1) as nat);
                crate::forest::lemma_desc_rank(t, self.ranks(), self.rank_limit(), p, id, (j - 1) as nat);
                assert(false);
            }
        }
        match self.merge_into(prev, id) {
            Ok(()) => Ok(prev),
            Err(e) => Err(e),
        }
    }

    /// Splits `id` in two nodes of the same kind at `at`: a character index
    /// for a `Plain` node, a child index for any other node. The part from
    /// `at` on moves to a new node, inserted just after `id` as its sibling,
    /// whose identifier is returned. When `id` has no parent the split is
    /// done but the new node stays detached, and the call fails.
    pub fn split_node(&mut self, id: ContentId, at: usize) -> (r: Result<ContentId, ContentError>)
        requires
            old(self).wf(),
            old(self)@.contains_key(id),
            old(self).next_id() < u64::MAX,
        ensures
            final(self).wf(),
            final(self).root_id() == old(self).root_id(),
            final(self).next_id() == old(self).next_id() + 1,
            !old(self)@.contains_key(ContentId(old(self).next_id() as u64)),
            split_outcome(old(self)@, id, at as int, ContentId(old(self).next_id() as u64), final(self)@, r is Ok),
            r is Ok ==> r == Ok::<ContentId, ContentError>(ContentId(old(self).next_id() as u64)),
            r is Err ==> r == Err::<ContentId, ContentError>(ContentError::NoParent(id)),
            forall|x: ContentId| #[trigger] old(self)@.contains_key(x) ==> final(self)@.contains_key(x),
            forall|x: ContentId| #[trigger] old(self)@.contains_key(x) && x != id ==> final(self)@[x].spec == old(self)@[x].spec,
            r is Ok ==> final(self)@.contains_key(ContentId(old(self).next_id() as u64)) && !is_desc_or_self(
                final(self)@,
                id,
                ContentId(old(self).next_id() as u64),
            ),
    {
        let ghost t = self@;
        let ghost rk = self.ranks();
        let ghost rl = self.rank_limit();
        let ghost fresh = ContentId(self.next_id() as u64);
        proof {
            self.lemma_view_wf();
        }
        let spec = self.spec_of(id);
        let new_id = match spec {
            NodeSpec::Plain(text) => {
                let s = text.as_str();
                let len = s.unicode_len();
                let k = if at < len { at } else { len };
                let head = String::from_str(s.substring_char(0, k));
                let tail = String::from_str(s.substring_char(k, len));
                let head_spec = NodeSpec::Plain(head);
                let tail_spec = NodeSpec::Plain(tail);
                let _ = self.set_spec(id, head_spec);
                let new_id = self.create_node_spec(tail_spec);
                proof {
                    let b = self@;
                    assert forall|x: ContentId| #[trigger] t.contains_key(x) && t[x].parent != Some(id)
                        implies b.contains_key(x) && b[x].parent == t[x].parent by {}
                    assert(split_base(t, id, at as int, new_id, b)) by {
                        assert(text_of_spec(head_spec) == text_of_spec(t[id].spec).take(k as int));
                        assert(text_of_spec(tail_spec) == text_of_spec(t[id].spec).skip(k as int));
                    }
                    assert forall|x: ContentId| #[trigger] t.contains_key(x) && x != id implies b[x].spec == t[x].spec by {}
                }
                new_id
            },
            _ => {
                let new_id = self.create_node_spec(spec);
                let children = self.children_of(id);
                let mut moved: Vec<ContentId> = Vec::new();
                let mut j: usize = at;
                while j < children.len()
                    invariant
                        at <= j,
                        j <= children.len() || j == at,
                        at < children.len() ==> moved@ == children@.subrange(at as int, j as int),
                        at >= children.len() ==> moved@.len() == 0,
                    decreases children.len() - j,
                {
                    moved.push(children[j]);
                    j = j + 1;
                }
                let ghost t1 = self@;
                let ghost k: int = if at < children.len() { at as int } else { children.len() as int };
                proof {
                    assert(moved@ =~= children@.skip(k));
                    assert forall|i: int| 0 <= i < moved@.len() implies !is_desc_or_self(t1, new_id, #[trigger] moved@[i]) by {
                        let c = moved@[i];
                        assert(t.contains_key(c));
                        if is_desc_or_self(t1, new_id, c) {
                            let n = choose|n: nat| ancestor_at(t1, new_id, n) == Some(c);
                            if n > 0 {
                                assert(ancestor_at(t1, new_id, n) == None::<ContentId>);
                            }
                        }
                    }
                }
                self.append_each(new_id, &moved);
                proof {
                    let b = self@;
                    assert forall|x: ContentId| #[trigger] t.contains_key(x) && t[x].parent != Some(id)
                        implies b.contains_key(x) && b[x].parent == t[x].parent by {
                        assert(t1.contains_key(x));
                        if moved@.contains(x) {
                            let i = choose|i: int| 0 <= i < moved@.len() && moved@[i] == x;
                            assert(t[id].children[k + i] == x);
                        }
                    }
                    assert forall|x: ContentId| #[trigger] t.contains_key(x) && x != id implies b[x].spec == t[x].spec by {
                        assert(t1.contains_key(x));
                    }
                    assert(!moved@.contains(id)) by {
                        if moved@.contains(id) {
                            let i = choose|i: int| 0 <= i < moved@.len() && moved@[i] == id;
                            assert(t[id].children[k + i] == id);
                            assert(t[id].parent == Some(id));
                            assert(rk[id] < rk[id]);
                        }
                    }
                }
                new_id
            },
        };
        let ghost b = self@;
        proof {
            assert(split_base(t, id, at as int, new_id, b));
            assert(forall|x: ContentId| #[trigger] t.contains_key(x) && x != id ==> b[x].spec == t[x].spec);
            self.lemma_view_wf();
            assert(b[id].parent == t[id].parent);
            match t[id].parent {
                Some(p) => {
                    assert(next_sibling(b, id) != Some(new_id)) by {
                        let cs = b[p].children;
                        let kk = cs.index_of(id);
                        if kk + 1 < cs.len() {
                            assert(b[cs[kk + 1]].parent == Some(p));
                        }
                    }
                    assert(!is_desc_or_self(b, p, new_id)) by {
                        assert forall|j: nat| #[trigger] ancestor_at(t, p, j) is Some implies ({
                            let x = ancestor_at(t, p, j).unwrap();
                            t.contains_key(x) == b.contains_key(x) && (t.contains_key(x)
                                ==> b[x].parent == t[x].parent)
                        }) by {
                            crate::forest::lemma_ancestor_in(t, p, j);
                            let x = ancestor_at(t, p, j).unwrap();
                            assert(t.contains_key(x));
                            if x == id {
                                crate::forest::lemma_desc_rank(t, rk, rl, p, id, j);
                            }
                            if t[x].parent == Some(id) {
                                crate::forest::lemma_ancestor_succ(t, p, j);
                                crate::forest::lemma_desc_rank(t, rk, rl, p, id, j + 1);
                            }
                        }
                        if is_desc_or_self(b, p, new_id) {
                            let n = choose|n: nat| ancestor_at(b, p, n) == Some(new_id);
                            crate::forest::lemma_chain_unchanged(t, b, p, n);
                            crate::forest::lemma_ancestor_in(t, p, n);
                        }
                    }
                },
                None => {},
            }
        }
        let r = self.insert_sibling_after(id, new_id);
        proof {
            assert(new_id == fresh);
            assert(split_base(t, id, at as int, fresh, b));
            if r is Ok {
                let m = self@;
                let p = t[id].parent.unwrap();
                self.lemma_view_wf();
                assert(m[fresh].parent == Some(p));
                assert(m[id].parent == Some(p));
                if is_desc_or_self(m, id, fresh) {
                    let n = choose|n: nat| ancestor_at(m, id, n) == Some(fresh);
                    let rk2 = self.ranks();
                    let rl2 = self.rank_limit();
                    assert(n > 0);
                    crate::forest::lemma_ancestor_step(m, id, p, (n - 1) as nat);
                    assert(ancestor_at(m, p, (n - 1) as nat) == Some(fresh));
                    crate::forest::lemma_desc_rank(m, rk2, rl2, p, fresh, (n - 1) as nat);
                    assert(rk2[p] < rk2[fresh]);
                }
            }
        }
        r
    }

    /// Nests `descendant` in the missing intermediate nodes, created with
    /// default attributes, so that it can become a valid descendant of
    /// `target`, and returns the node to attach directly under `target`
    /// (`descendant` itself when nothing is missing). Fails when no chain of
    /// kinds leads from `descendant` up to `target`. The identifier counter
    /// must leave room for the nodes created: fewer than the kinds of the
    /// grammar.
    pub fn ensure_compatible_node_for(&mut self, target: ContentId, descendant: ContentId) -> (r: Result<
        ContentId,
        ContentError,
    >)
        requires
            old(self).wf(),
            old(self)@.contains_key(target),
            old(self)@.contains_key(descendant),
            old(self).next_id() + 9 <= u64::MAX,
        ensures
            final(self).wf(),
            final(self).root_id() == old(self).root_id(),
            ({
                let tk = kind_of_spec(old(self)@[target].spec);
                let dk = kind_of_spec(old(self)@[descendant].spec);
                let first = old(self).next_id();
                if !has_ascending_path(dk, tk, Seq::empty()) {
                    &&& r == Err::<ContentId, ContentError>(
                        ContentError::IncompatibleChild { child: dk, parent: tk },
                    )
                    &&& final(self)@ == old(self)@
                    &&& final(self).next_id() == first
                } else {
                    exists|p: Seq<ContentKind>|
                        #[trigger] is_shortest_ascending_path(p.push(dk), dk, tk, Seq::empty()) && {
                            &&& final(self).next_id() == first + p.len()
                            &&& final(self)@ == wrapped(old(self)@, descendant, p.len(), first, final(self)@)
                            &&& forall|j: nat|
                                j < p.len() ==> is_default_node(
                                    p[p.len() - 1 - j],
                                    #[trigger] final(self)@[wrapper_id(first, j)].spec,
                                )
                            &&& r == Ok::<ContentId, ContentError>(
                                if p.len() == 0 {
                                    descendant
                                } else {
                                    wrapper_id(first, (p.len() - 1) as nat)
                                },
                            )
                        }
                }
            }),
            forall|x: ContentId| #[trigger] old(self)@.contains_key(x) ==> final(self)@.contains_key(x)
                && final(self)@[x].spec == old(self)@[x].spec,
            forall|x: ContentId| #[trigger] old(self)@.contains_key(x) && x != descendant
                ==> final(self)@[x].parent == old(self)@[x].parent,
            forall|x: ContentId| #[trigger] old(self)@.contains_key(x) && old(self)@[descendant].parent != Some(x)
                ==> final(self)@[x].children == old(self)@[x].children,
            forall|x: ContentId| #[trigger] final(self)@.contains_key(x) && !old(self)@.contains_key(x)
                ==> final(self)@[x].children.len() > 0,
            r matches Ok(top) ==> final(self)@.contains_key(top) && (top == descendant || !old(self)@.contains_key(top))
                && final(self)@[top].parent == (if top == descendant { old(self)@[descendant].parent } else { None }),
            final(self).next_id() <= old(self).next_id() + 8,
            final(self).next_id() >= old(self).next_id(),
            forall|j: nat| j < final(self).next_id() - old(self).next_id() ==> final(self)@.contains_key(
                #[trigger] wrapper_id(old(self).next_id(), j),
            ),
    {
        let parent_kind = self.kind_of(target);
        let kind = self.kind_of(descendant);
        let path = match kind.correction_path(parent_kind) {
            Some(p) => p,
            None => {
                return Err(ContentError::IncompatibleChild { child: kind, parent: parent_kind });
            },
        };
        let ghost start = self@;
        let ghost first = self.next_id();
        proof {
            reveal(is_ascending_path);
            crate::kind::lemma_distinct_kinds_len(path@.push(kind));
            self.lemma_view_wf();
        }
        let n = path.len();
        let mut content_id = descendant;
        let mut i: usize = 0;
        while i < n
            invariant
                self.wf(),
                self.root_id() == old(self).root_id(),
                n == path@.len(),
                n <= 8,
                i <= n,
                first + 9 <= u64::MAX,
                self.next_id() == first + i,
                start.contains_key(descendant),
                forall|c: ContentId| #[trigger] start.contains_key(c) ==> c.0 < first,
                self@ == wrapped(start, descendant, i as nat, first, self@),
                forall|j: nat| j < i ==> is_default_node(path@[n - 1 - j], #[trigger] self@[wrapper_id(first, j)].spec),
                content_id == (if i == 0 { descendant } else { wrapper_id(first, (i - 1) as nat) }),
                self@.contains_key(content_id),
                i > 0 ==> self@[content_id].parent is None && !start.contains_key(content_id),
                i == 0 ==> self@ == start,
                forall|j: nat| j < i ==> self@.contains_key(#[trigger] wrapper_id(first, j)),
                forall|x: ContentId| #[trigger] start.contains_key(x) ==> self@.contains_key(x)
                    && self@[x].spec == start[x].spec,
                forall|x: ContentId| #[trigger] start.contains_key(x) && x != descendant
                    ==> self@[x].parent == start[x].parent,
                forall|x: ContentId| #[trigger] start.contains_key(x) && start[descendant].parent != Some(x)
                    ==> self@[x].children == start[x].children,
                forall|x: ContentId| #[trigger] self@.contains_key(x) && !start.contains_key(x)
                    ==> self@[x].children.len() > 0,
            decreases n - i,
        {
            let ghost prev = self@;
            let spec = path[n - 1 - i].new_default_node();
            let parent_id = self.create_node_spec(spec);
            let ghost t1 = self@;
            proof {
                assert(parent_id == wrapper_id(first, i as nat));
                if is_desc_or_self(t1, parent_id, content_id) {
                    let k = choose|k: nat| ancestor_at(t1, parent_id, k) == Some(content_id);
                    if k > 0 {
                        assert(ancestor_at(t1, parent_id, k) == None::<ContentId>);
                    }
                }
                self.lemma_view_wf();
            }
            let _ = self.append_child_unchecked(parent_id, content_id);
            proof {
                let t2 = self@;
                crate::forest::lemma_append_parents(t1, parent_id, content_id);
                assert(!start.contains_key(parent_id));
                assert forall|x: ContentId| #[trigger] start.contains_key(x) && start[descendant].parent != Some(x)
                    implies t2[x].children == start[x].children by {
                    assert(x != parent_id);
                    if x == content_id {
                    } else {
                        if i == 0 {
                            assert(t1[content_id].parent == start[descendant].parent);
                        }
                    }
                }
                assert forall|x: ContentId| #[trigger] t2.contains_key(x) && !start.contains_key(x)
                    implies t2[x].children.len() > 0 by {
                    if x != parent_id && x != content_id {
                        assert(t1.contains_key(x));
                    }
                }
                assert forall|j: nat| j < i + 1 implies is_default_node(path@[n - 1 - j], #[trigger] t2[wrapper_id(first, j)].spec) by {
                    if j < i {
                        assert(wrapper_id(first, j) != parent_id);
                    }
                }
                lemma_wrapped_specs(start, descendant, i as nat, first, prev, t2);
                assert forall|j: nat| j < i implies prev[wrapper_id(first, j)].spec == #[trigger] t2[wrapper_id(first, j)].spec by {
                    assert(wrapper_id(first, j) != parent_id);
                }
                assert(t2 == wrapped(start, descendant, (i + 1) as nat, first, t2)) by {
                    assert(prev.insert(parent_id, TreeNode { spec: t2[parent_id].spec, parent: None, children: Seq::empty() }) == t1);
                }
            }
            content_id = parent_id;
            i = i + 1;
        }
        Ok(content_id)
    }

    /// Makes every leaf of the document a `Plain` node, by placing an empty
    /// `Plain` node, nested as the grammar asks, under each leaf that is not
    /// one. The identifier counter must leave room for the nodes created:
    /// at most three for each leaf, and there are fewer leaves than
    /// identifiers already given (the bound asked keeps more than that).
    #[verifier::rlimit(60)]
    #[verifier::spinoff_prover]
    pub fn ensure_only_plain_leafs(&mut self) -> (r: Result<(), ContentError>)
        requires
            old(self).wf(),
            old(self)@.contains_key(old(self).root_id()),
            10 * (old(self).next_id() + 1) <= u64::MAX,
        ensures
            final(self).wf(),
            r is Ok,
            final(self).root_id() == old(self).root_id(),
            exists|ts: Seq<Tree>, ns: Seq<nat>|
                #[trigger] plain_leaf_run(
                    old(self)@,
                    leaves_under(old(self)@, old(self).root_id()),
                    old(self).next_id(),
                    ts,
                    ns,
                ) && ts.last() == final(self)@ && ns.last() == final(self).next_id(),
            forall|x: ContentId|
                #[trigger] final(self)@.contains_key(x) && is_desc_or_self(final(self)@, x, final(self).root_id())
                    && final(self)@[x].children.len() == 0 ==> kind_of_spec(final(self)@[x].spec) == ContentKind::Plain,
            forall|x: ContentId| #[trigger] old(self)@.contains_key(x) ==> final(self)@.contains_key(x)
                && final(self)@[x].spec == old(self)@[x].spec && final(self)@[x].parent == old(self)@[x].parent,
    {
        let ghost start = self@;
        let ghost first = self.next_id();
        let ghost rk = self.ranks();
        let ghost rl = self.rank_limit();
        let ghost root = self.root_id();
        let leaves = self.leafs();
        let ghost ls = leaves@;
        proof {
            self.lemma_view_wf();
            crate::nav::lemma_leaves_under(start, rk, rl, root);
            crate::nav::lemma_leaves_distinct(start, rk, rl, root, rl);
            crate::nav::lemma_distinct_ids_len(ls, first);
        }
        let ghost mut ts: Seq<Tree> = seq![start];
        let ghost mut ns: Seq<nat> = seq![first];
        let mut i: usize = 0;
        while i < leaves.len()
            invariant
                self.wf(),
                self.root_id() == root,
                i <= leaves.len(),
                leaves@ == ls,
                ls == leaves_of(start, root, rl),
                ls == leaves_under(start, root),
                forall|j: int| 0 <= j < ls.len() ==> start.contains_key(#[trigger] ls[j]),
                ls.len() <= first,
                10 * (first + 1) <= u64::MAX,
                forest_linked(start),
                forest_ranked(start, rk, rl),
                start.contains_key(root),
                forall|c: ContentId| #[trigger] start.contains_key(c) ==> c.0 < first,
                ts.len() == i + 1,
                ns.len() == i + 1,
                ts[0] == start,
                ns[0] == first,
                ts[i as int] == self@,
                ns[i as int] == self.next_id(),
                forall|j: int| 0 <= j < i ==> #[trigger] ns[j] <= ns[j + 1],
                forall|j: int| 0 <= j < i ==> #[trigger] plain_leaf_step(ts[j], ls[j], ns[j], ts[j + 1], (ns[j + 1] - ns[j]) as nat),
                self.next_id() <= first + 9 * i,
                self.next_id() >= first,
                forall|x: ContentId| #[trigger] start.contains_key(x) ==> self@.contains_key(x)
                    && self@[x].spec == start[x].spec && self@[x].parent == start[x].parent,
                forall|x: ContentId| #[trigger] start.contains_key(x) && start[x].children.len() > 0
                    ==> self@[x].children.len() > 0,
                forall|j: int| 0 <= j < i && kind_of_spec(start[#[trigger] ls[j]].spec) != ContentKind::Plain
                    ==> self@[ls[j]].children.len() > 0,
                forall|x: ContentId| #[trigger] self@.contains_key(x) && !start.contains_key(x)
                    ==> kind_of_spec(self@[x].spec) == ContentKind::Plain || self@[x].children.len() > 0,
            decreases leaves.len() - i,
        {
            let leaf = leaves[i];
            let ghost t0 = self@;
            let ghost n0 = self.next_id();
            proof {
                self.lemma_view_wf();
            }
            if self.kind_of(leaf) != ContentKind::Plain {
                let empty = NodeSpec::Plain(String::new());
                let plain_id = self.create_node_spec(empty);
                let ghost t1 = self@;
                proof {
                    crate::kind::lemma_plain_reaches(kind_of_spec(start[leaf].spec));
                }
                let top = match self.ensure_compatible_node_for(leaf, plain_id) {
                    Ok(top) => top,
                    Err(e) => {
                        proof {
                            assert(false);
                        }
                        return Err(e);
                    },
                };
                let ghost t2 = self@;
                proof {
                    self.lemma_view_wf();
                    assert(t1.contains_key(leaf));
                    assert(t2.contains_key(leaf));
                    assert(!is_desc_or_self(t2, leaf, top)) by {
                        assert forall|j: nat| #[trigger] ancestor_at(start, leaf, j) is Some implies ({
                            let x = ancestor_at(start, leaf, j).unwrap();
                            start.contains_key(x) == t2.contains_key(x) && (start.contains_key(x)
                                ==> t2[x].parent == start[x].parent)
                        }) by {
                            crate::forest::lemma_ancestor_in(start, leaf, j);
                            let x = ancestor_at(start, leaf, j).unwrap();
                            assert(t1.contains_key(x));
                            assert(x != plain_id);
                        }
                        if is_desc_or_self(t2, leaf, top) {
                            let n = choose|n: nat| ancestor_at(t2, leaf, n) == Some(top);
                            crate::forest::lemma_chain_unchanged(start, t2, leaf, n);
                            crate::forest::lemma_ancestor_in(start, leaf, n);
                            assert(top.0 < first);
                            assert(!t0.contains_key(top)) by {
                                if top != plain_id {
                                    assert(t2[top].children.len() > 0 || true);
                                }
                            }
                        }
                    }
                }
                let _ = self.append_child_unchecked(leaf, top);
                proof {
                    let t3 = self@;
                    let lk = kind_of_spec(start[leaf].spec);
                    crate::forest::lemma_append_parents(t2, leaf, top);
                    let p = choose|p: Seq<ContentKind>|
                        #[trigger] is_shortest_ascending_path(p.push(ContentKind::Plain), ContentKind::Plain, lk, Seq::empty())
                            && t2 == wrapped(t1, plain_id, p.len(), n0 + 1, t2)
                            && (forall|j: nat| j < p.len() ==> is_default_node(p[p.len() - 1 - j], #[trigger] t2[wrapper_id(n0 + 1, j)].spec))
                            && top == (if p.len() == 0 { plain_id } else { wrapper_id(n0 + 1, (p.len() - 1) as nat) })
                            && t2.contains_key(top) && self.next_id() == n0 + 1 + p.len();
                    assert(plain_id == wrapper_id(n0, 0));
                    assert forall|j: nat| j < p.len() implies t2[wrapper_id(n0 + 1, j)].spec == #[trigger] t3[wrapper_id(n0 + 1, j)].spec by {
                        assert(t2.contains_key(wrapper_id(n0 + 1, j)));
                    }
                    lemma_wrapped_specs(t1, plain_id, p.len(), n0 + 1, t2, t3);
                    assert(t0.insert(plain_id, TreeNode { spec: t3[plain_id].spec, parent: None, children: Seq::empty() }) == t1);
                    assert(plain_leaf_step(t0, leaf, n0, t3, (self.next_id() - n0) as nat));
                    assert(!start.contains_key(plain_id));
                    assert(!start.contains_key(top));
                    assert(t1[plain_id].parent is None);
                    assert(t2[top].parent is None);
                    assert forall|x: ContentId| #[trigger] start.contains_key(x) implies t3.contains_key(x)
                        && t3[x].spec == start[x].spec && t3[x].parent == start[x].parent by {
                        assert(t0.contains_key(x));
                        assert(x != plain_id);
                        assert(t1[x] == t0[x]);
                        assert(t1.contains_key(x));
                        assert(t2.contains_key(x));
                        assert(t2[x].parent == t1[x].parent);
                        assert(x != top);
                        assert(t3.contains_key(x));
                    }
                    assert(n0 <= self.next_id());
                    assert forall|x: ContentId| #[trigger] start.contains_key(x) && t0[x].children.len() > 0
                        implies t3[x].children.len() > 0 by {
                        assert(t1[x] == t0[x]);
                    }
                    assert forall|j: int| 0 <= j < i + 1 && kind_of_spec(start[#[trigger] ls[j]].spec) != ContentKind::Plain
                        implies t3[ls[j]].children.len() > 0 by {
                        if j < i {
                            assert(t0[ls[j]].children.len() > 0);
                        }
                    }
                    assert forall|x: ContentId| #[trigger] t3.contains_key(x) && !start.contains_key(x)
                        implies kind_of_spec(t3[x].spec) == ContentKind::Plain || t3[x].children.len() > 0 by {
                        if t1.contains_key(x) {
                            if x != plain_id {
                                assert(t1[x] == t0[x]);
                                assert(t0.contains_key(x));
                            }
                        }
                    }
                }
            } else {
                proof {
                    assert(plain_leaf_step(t0, leaf, n0, self@, (self.next_id() - n0) as nat));
                    assert forall|j: int| 0 <= j < i + 1 && kind_of_spec(start[#[trigger] ls[j]].spec) != ContentKind::Plain
                        implies self@[ls[j]].children.len() > 0 by {
                        if j < i {
                        }
                    }
                }
            }
            proof {
                let old_ts = ts;
                let old_ns = ns;
                ts = ts.push(self@);
                ns = ns.push(self.next_id());
                assert(ts[i as int] == t0);
                assert(ns[i as int] == n0);
                assert(plain_leaf_step(t0, leaf, n0, self@, (self.next_id() - n0) as nat));
                assert forall|j: int| 0 <= j < i + 1 implies #[trigger] ns[j] <= ns[j + 1] by {
                    if j < i {
                        assert(ns[j] == old_ns[j]);
                        assert(ns[j + 1] == old_ns[j + 1]);
                        assert(old_ns[j] <= old_ns[j + 1]);
                    }
                }
                assert forall|j: int| 0 <= j < i + 1 implies #[trigger] plain_leaf_step(ts[j], ls[j], ns[j], ts[j + 1], (ns[j + 1] - ns[j]) as nat) by {
                    if j < i {
                        assert(ts[j] == old_ts[j]);
                        assert(ts[j + 1] == old_ts[j + 1]);
                        assert(ns[j] == old_ns[j]);
                        assert(ns[j + 1] == old_ns[j + 1]);
                        assert(plain_leaf_step(old_ts[j], ls[j], old_ns[j], old_ts[j + 1], (old_ns[j + 1] - old_ns[j]) as nat));
                    } else {
                        assert(ls[j] == leaf);
                    }
                }
            }
            i = i + 1;
        }
        proof {
            let fin = self@;
            assert(plain_leaf_run(start, ls, first, ts, ns));
            assert forall|x: ContentId|
                #[trigger] fin.contains_key(x) && is_desc_or_self(fin, x, root)
                    && fin[x].children.len() == 0 implies kind_of_spec(fin[x].spec) == ContentKind::Plain by {
                if start.contains_key(x) {
                    let k = choose|k: nat| ancestor_at(fin, x, k) == Some(root);
                    assert forall|j: nat| #[trigger] ancestor_at(start, x, j) is Some implies ({
                        let y = ancestor_at(start, x, j).unwrap();
                        start.contains_key(y) == fin.contains_key(y) && (start.contains_key(y)
                            ==> fin[y].parent == start[y].parent)
                    }) by {
                        crate::forest::lemma_ancestor_in(start, x, j);
                    }
                    crate::forest::lemma_chain_unchanged(start, fin, x, k);
                    assert(start[x].children.len() == 0);
                    crate::nav::lemma_rank_depth(start, rk, rl, x, root, k);
                    crate::nav::lemma_leaf_listed(start, x, root, k, rl);
                    let j = choose|j: int| 0 <= j < ls.len() && ls[j] == x;
                    assert(kind_of_spec(start[ls[j]].spec) == ContentKind::Plain);
                }
            }
        }
        Ok(())
    }

    /// Attaches `child` as the last child of `parent`, then makes every leaf
    /// of the document a `Plain` node again (see
    /// [`DirectContent::ensure_only_plain_leafs`], whose room for new
    /// identifiers it asks for).
    pub fn append_child(&mut self, parent: ContentId, child: ContentId) -> (r: Result<(), ContentError>)
        requires
            old(self).wf(),
            old(self)@.contains_key(parent),
            old(self)@.contains_key(child),
            old(self)@.contains_key(old(self).root_id()),
            !is_desc_or_self(old(self)@, parent, child),
            10 * (old(self).next_id() + 1) <= u64::MAX,
        ensures
            final(self).wf(),
            r is Ok,
            final(self).root_id() == old(self).root_id(),
            ({
                let m = forest_append(old(self)@, parent, child);
                exists|ts: Seq<Tree>, ns: Seq<nat>|
                    #[trigger] plain_leaf_run(m, leaves_under(m, old(self).root_id()), old(self).next_id(), ts, ns)
                        && ts.last() == final(self)@ && ns.last() == final(self).next_id()
            }),
            forall|x: ContentId|
                #[trigger] final(self)@.contains_key(x) && is_desc_or_self(final(self)@, x, final(self).root_id())
                    && final(self)@[x].children.len() == 0 ==> kind_of_spec(final(self)@[x].spec) == ContentKind::Plain,
            forall|x: ContentId| #[trigger] old(self)@.contains_key(x) ==> final(self)@.contains_key(x)
                && final(self)@[x].spec == old(self)@[x].spec
                && final(self)@[x].parent == (if x == child { Some(parent) } else { old(self)@[x].parent }),
    {
        proof {
            self.lemma_view_wf();
            crate::forest::lemma_append_parents(self@, parent, child);
        }
        let _ = self.append_child_unchecked(parent, child);
        self.ensure_only_plain_leafs()
    }

    /// Creates a node from `spec`, attaches it under `parent` through the
    /// intermediate nodes that the grammar asks for (see
    /// [`DirectContent::ensure_compatible_node_for`]), makes every leaf a
    /// `Plain` node again, and returns the new node. When no chain of kinds
    /// leads from the new node up to `parent`, the node stays detached and
    /// the call fails. The identifier counter must leave room for the new
    /// node, the chain above it and the repair of the leaves.
    #[verifier::rlimit(100)]
    #[verifier::spinoff_prover]
    pub fn append_content<N>(&mut self, parent: ContentId, spec: N) -> (r: Result<ContentId, ContentError>) where NodeSpec: From<N>
        requires
            old(self).wf(),
            old(self)@.contains_key(parent),
            old(self)@.contains_key(old(self).root_id()),
            10 * (old(self).next_id() + 10) <= u64::MAX,
        ensures
            final(self).wf(),
            final(self).root_id() == old(self).root_id(),
            ({
                let c = ContentId(old(self).next_id() as u64);
                let ck = kind_of_spec(final(self)@[c].spec);
                let pk = kind_of_spec(old(self)@[parent].spec);
                &&& !old(self)@.contains_key(c)
                &&& final(self)@.contains_key(c)
                &&& call_ensures(NodeSpec::from, (spec,), final(self)@[c].spec)
                &&& !has_ascending_path(ck, pk, Seq::empty()) ==> {
                    &&& r == Err::<ContentId, ContentError>(ContentError::IncompatibleChild { child: ck, parent: pk })
                    &&& final(self)@ == old(self)@.insert(c, TreeNode { spec: final(self)@[c].spec, parent: None, children: Seq::empty() })
                    &&& final(self).next_id() == old(self).next_id() + 1
                }
                &&& has_ascending_path(ck, pk, Seq::empty()) ==> {
                    &&& r == Ok::<ContentId, ContentError>(c)
                    &&& exists|p: Seq<ContentKind>|
                        #[trigger] is_shortest_ascending_path(p.push(ck), ck, pk, Seq::empty())
                            && content_appended(old(self)@, parent, c, old(self).root_id(), p, final(self)@, final(self).next_id())
                    &&& forall|x: ContentId|
                        #[trigger] final(self)@.contains_key(x) && is_desc_or_self(final(self)@, x, final(self).root_id())
                            && final(self)@[x].children.len() == 0 ==> kind_of_spec(final(self)@[x].spec) == ContentKind::Plain
                }
            }),
    {
        let ghost t0 = self@;
        let ghost n0 = self.next_id();
        let ghost root = self.root_id();
        proof {
            self.lemma_view_wf();
        }
        let content_id = self.create_node(spec);
        let ghost t1 = self@;
        let ghost n1 = self.next_id();
        let compat_id = match self.ensure_compatible_node_for(parent, content_id) {
            Ok(id) => id,
            Err(e) => return Err(e),
        };
        let ghost t2 = self@;
        let ghost ck = kind_of_spec(t1[content_id].spec);
        let ghost pk = kind_of_spec(t0[parent].spec);
        let ghost p = choose|p: Seq<ContentKind>|
            #[trigger] is_shortest_ascending_path(p.push(ck), ck, pk, Seq::empty())
                && self.next_id() == n1 + p.len()
                && t2 == wrapped(t1, content_id, p.len(), n1, t2)
                && (forall|j: nat| j < p.len() ==> is_default_node(p[p.len() - 1 - j], #[trigger] t2[wrapper_id(n1, j)].spec))
                && compat_id == (if p.len() == 0 { content_id } else { wrapper_id(n1, (p.len() - 1) as nat) });
        proof {
            self.lemma_view_wf();
            assert(t1.contains_key(parent));
            assert(t2.contains_key(parent));
            assert(t1.contains_key(root));
            assert(t2.contains_key(root));
            assert(!t0.contains_key(compat_id));
            assert(!is_desc_or_self(t2, parent, compat_id)) by {
                assert forall|j: nat| #[trigger] ancestor_at(t0, parent, j) is Some implies ({
                    let x = ancestor_at(t0, parent, j).unwrap();
                    t0.contains_key(x) == t2.contains_key(x) && (t0.contains_key(x)
                        ==> t2[x].parent == t0[x].parent)
                }) by {
                    crate::forest::lemma_ancestor_in(t0, parent, j);
                    let x = ancestor_at(t0, parent, j).unwrap();
                    assert(t1.contains_key(x));
                    assert(x != content_id);
                }
                if is_desc_or_self(t2, parent, compat_id) {
                    let k = choose|k: nat| ancestor_at(t2, parent, k) == Some(compat_id);
                    crate::forest::lemma_chain_unchanged(t0, t2, parent, k);
                    crate::forest::lemma_ancestor_in(t0, parent, k);
                }
            }
        }
        let _ = self.append_child(parent, compat_id);
        proof {
            let t3 = self@;
            let n = p.len();
            lemma_wrapped_parents(t1, content_id, n, n1, t2);
            assert forall|j: nat| j < n implies t2[wrapper_id(n1, j)].spec == #[trigger] t3[wrapper_id(n1, j)].spec by {
                assert(t2.contains_key(wrapper_id(n1, j)));
            }
            lemma_wrapped_specs(t1, content_id, n, n1, t2, t3);
            assert(t0.insert(content_id, TreeNode { spec: t3[content_id].spec, parent: None, children: Seq::empty() }) == t1);
            assert forall|j: nat| j < n implies is_default_node(p[n - 1 - j], #[trigger] t3[wrapper_id(n1, j)].spec) by {
                assert(t2.contains_key(wrapper_id(n1, j)));
            }
            assert forall|i: nat| 0 < i < n implies t3[#[trigger] wrapper_id(n1, (i - 1) as nat)].parent == Some(wrapper_id(n1, i)) by {
                assert(t2.contains_key(wrapper_id(n1, (i - 1) as nat)));
                assert(wrapper_id(n1, (i - 1) as nat) != compat_id);
            }
            if n > 0 {
                assert(t2.contains_key(wrapper_id(n1, (n - 1) as nat)));
                assert(content_id != compat_id);
            }
            assert(t2.contains_key(content_id));
            if n == 0 {
                assert(compat_id == content_id);
                assert(t3[content_id].parent == Some(parent));
            } else {
                assert(t2[content_id].parent == Some(wrapper_id(n1, 0)));
                assert(t3[content_id].parent == Some(wrapper_id(n1, 0)));
            }
            assert forall|i: nat| i < n implies t3.contains_key(#[trigger] wrapper_id(n1, i)) by {
                assert(t2.contains_key(wrapper_id(n1, i)));
            }
            assert forall|j: nat| j < n implies ancestor_at(t3, content_id, j + 1) == Some(#[trigger] wrapper_id(n1, j)) by {
                lemma_wrapper_chain(t3, content_id, n1, n, parent, j + 1);
            }
            lemma_wrapper_chain(t3, content_id, n1, n, parent, n + 1);
            let top = if n == 0 { content_id } else { wrapper_id(n1, (n - 1) as nat) };
            let m = forest_append(
                wrapped(t0.insert(content_id, TreeNode { spec: t3[content_id].spec, parent: None, children: Seq::empty() }), content_id, n, n1, t3),
                parent,
                top,
            );
            assert(m == forest_append(t2, parent, compat_id));
            assert(appended_tree(t0, parent, content_id, p, t3) == forest_append(t2, parent, compat_id));
            assert(content_appended(t0, parent, content_id, root, p, t3, self.next_id()));
        }
        Ok(content_id)
    }
}

} // verus!
