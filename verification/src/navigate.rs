//! Navigation on the in-memory backend: siblings, ancestors and leaves in
//! document order, derived from the parent and children of each node.
use vstd::prelude::*;

use std::cmp::Ordering;

use crate::direct::{forest_wf, DirectContent};
use crate::forest::{ancestor_at, forest_linked, forest_ranked, lemma_index_of_unique};
use crate::id::ContentId;
use crate::nav::{
    first_child, follow_first, follow_last, is_ancestor_list, is_first_leaf, is_last_leaf,
    is_next_leaf, is_prev_leaf, last_child, leaves_of, leaves_of_list, leaves_under, lemma_leaves_of_list_step,
    nearest_with_next, nearest_with_prev, next_sibling, prev_sibling,
};

verus! {

impl DirectContent {
    pub fn first_child_of(&self, id: ContentId) -> (r: Option<ContentId>)
        requires
            self.wf(),
            self@.contains_key(id),
        ensures
            r == first_child(self@, id),
    {
        let children = self.children_of(id);
        if children.len() > 0 {
            Some(children[0])
        } else {
            None
        }
    }

    pub fn last_child_of(&self, id: ContentId) -> (r: Option<ContentId>)
        requires
            self.wf(),
            self@.contains_key(id),
        ensures
            r == last_child(self@, id),
    {
        let children = self.children_of(id);
        if children.len() > 0 {
            Some(children[children.len() - 1])
        } else {
            None
        }
    }

    /// Position of `id` among the children of its parent `parent`.
    pub(crate) fn position_in(&self, parent: ContentId, id: ContentId, siblings: &Vec<ContentId>) -> (k: usize)
        requires
            self.wf(),
            self@.contains_key(id),
            self@[id].parent == Some(parent),
            siblings@ == self@[parent].children,
        ensures
            k < siblings.len(),
            siblings@[k as int] == id,
            k == siblings@.index_of(id),
    {
        proof {
            self.lemma_view_wf();
            assert(self@.contains_key(parent));
            assert(self@[parent].children.contains(id));
            assert(self@[parent].children.no_duplicates());
        }
        let mut i: usize = 0;
        while i < siblings.len()
            invariant
                i <= siblings.len(),
                siblings@.no_duplicates(),
                siblings@.contains(id),
                forall|j: int| 0 <= j < i ==> siblings@[j] != id,
            decreases siblings.len() - i,
        {
            if siblings[i] == id {
                proof {
                    lemma_index_of_unique(siblings@, id, i as int);
                }
                return i;
            }
            i = i + 1;
        }
        proof {
            let j = choose|j: int| 0 <= j < siblings@.len() && siblings@[j] == id;
            assert(false);
        }
        0
    }

    pub fn prev_sibling_of(&self, id: ContentId) -> (r: Option<ContentId>)
        requires
            self.wf(),
            self@.contains_key(id),
        ensures
            r == prev_sibling(self@, id),
            r matches Some(s) ==> self@.contains_key(s),
    {
        proof {
            self.lemma_view_wf();
        }
        let parent = match self.parent_of(id) {
            Some(p) => p,
            None => return None,
        };
        let siblings = self.children_of(parent);
        let index = self.position_in(parent, id, &siblings);
        if index > 0 {
            Some(siblings[index - 1])
        } else {
            None
        }
    }

    pub fn next_sibling_of(&self, id: ContentId) -> (r: Option<ContentId>)
        requires
            self.wf(),
            self@.contains_key(id),
        ensures
            r == next_sibling(self@, id),
            r matches Some(s) ==> self@.contains_key(s),
    {
        proof {
            self.lemma_view_wf();
        }
        let parent = match self.parent_of(id) {
            Some(p) => p,
            None => return None,
        };
        let siblings = self.children_of(parent);
        let index = self.position_in(parent, id, &siblings);
        if index + 1 < siblings.len() {
            Some(siblings[index + 1])
        } else {
            None
        }
    }

    /// Ancestors of `id`, from its direct parent up to the top; `id` itself
    /// is not included.
    pub fn ancestors_of(&self, id: ContentId) -> (v: Vec<ContentId>)
        requires
            self.wf(),
            self@.contains_key(id),
        ensures
            is_ancestor_list(self@, id, v@),
            forall|i: int| 0 <= i < v@.len() ==> self@.contains_key(#[trigger] v@[i]),
    {
        proof {
            self.lemma_view_wf();
        }
        let mut ancestors: Vec<ContentId> = Vec::new();
        let mut current = id;
        loop
            invariant
                self.wf(),
                forest_wf(self@, self.ranks(), self.rank_limit()),
                self@.contains_key(current),
                ancestor_at(self@, id, ancestors@.len() as nat) == Some(current),
                forall|i: int| 0 <= i < ancestors@.len() ==> ancestor_at(self@, id, (i + 1) as nat) == Some(#[trigger] ancestors@[i]),
                forall|i: int| 0 <= i < ancestors@.len() ==> self@.contains_key(#[trigger] ancestors@[i]),
            ensures
                self@[current].parent is None,
            decreases self.ranks()[current],
        {
            proof {
                lemma_ancestor_next(self@, id, current, ancestors@.len() as nat);
            }
            let parent = match self.parent_of(current) {
                Some(p) => p,
                None => break,
            };
            ancestors.push(parent);
            current = parent;
        }
        proof {
            lemma_ancestor_next(self@, id, current, ancestors@.len() as nat);
        }
        ancestors
    }

    /// The first leaf under `id`: reached by always taking the first child.
    pub fn first_leaf_of(&self, id: ContentId) -> (r: ContentId)
        requires
            self.wf(),
            self@.contains_key(id),
        ensures
            is_first_leaf(self@, id, r),
            self@.contains_key(r),
    {
        proof {
            self.lemma_view_wf();
        }
        let mut current = id;
        let ghost mut k: nat = 0;
        loop
            invariant
                self.wf(),
                forest_wf(self@, self.ranks(), self.rank_limit()),
                self@.contains_key(current),
                follow_first(self@, id, k) == Some(current),
            ensures
                self@[current].children.len() == 0,
            decreases self.rank_limit() - self.ranks()[current],
        {
            let child = match self.first_child_of(current) {
                Some(c) => c,
                None => break,
            };
            proof {
                assert(self@[current].children[0] == child);
                assert(self@.contains_key(child));
                assert(self@[child].parent == Some(current));
                k = k + 1;
            }
            current = child;
        }
        proof {
            assert(follow_first(self@, id, k) == Some(current));
        }
        current
    }

    /// The last leaf under `id`: reached by always taking the last child.
    pub fn last_leaf_of(&self, id: ContentId) -> (r: ContentId)
        requires
            self.wf(),
            self@.contains_key(id),
        ensures
            is_last_leaf(self@, id, r),
            self@.contains_key(r),
    {
        proof {
            self.lemma_view_wf();
        }
        let mut current = id;
        let ghost mut k: nat = 0;
        loop
            invariant
                self.wf(),
                forest_wf(self@, self.ranks(), self.rank_limit()),
                self@.contains_key(current),
                follow_last(self@, id, k) == Some(current),
            ensures
                self@[current].children.len() == 0,
            decreases self.rank_limit() - self.ranks()[current],
        {
            let child = match self.last_child_of(current) {
                Some(c) => c,
                None => break,
            };
            proof {
                let cs = self@[current].children;
                assert(cs[cs.len() - 1] == child);
                assert(self@.contains_key(child));
                assert(self@[child].parent == Some(current));
                k = k + 1;
            }
            current = child;
        }
        proof {
            assert(follow_last(self@, id, k) == Some(current));
        }
        current
    }

    /// The node `id` itself (`k = 0`) or its `k`-th ancestor.
    fn up(&self, id: ContentId, ancestors: &Vec<ContentId>, k: usize) -> (n: ContentId)
        requires
            self.wf(),
            self@.contains_key(id),
            is_ancestor_list(self@, id, ancestors@),
            forall|i: int| 0 <= i < ancestors@.len() ==> self@.contains_key(#[trigger] ancestors@[i]),
            k <= ancestors.len(),
        ensures
            ancestor_at(self@, id, k as nat) == Some(n),
            self@.contains_key(n),
    {
        if k == 0 {
            id
        } else {
            let n = ancestors[k - 1];
            assert(ancestor_at(self@, id, ((k - 1) + 1) as nat) == Some(ancestors@[k - 1]));
            n
        }
    }

    /// The leaf that follows `id` in document order, `None` when `id` is the
    /// very last leaf.
    pub fn next_leaf_of(&self, id: ContentId) -> (r: Option<ContentId>)
        requires
            self.wf(),
            self@.contains_key(id),
        ensures
            is_next_leaf(self@, id, r),
            r matches Some(leaf) ==> self@.contains_key(leaf),
    {
        let ancestors = self.ancestors_of(id);
        let mut k: usize = 0;
        loop
            invariant
                self.wf(),
                self@.contains_key(id),
                is_ancestor_list(self@, id, ancestors@),
                forall|i: int| 0 <= i < ancestors@.len() ==> self@.contains_key(#[trigger] ancestors@[i]),
                k <= ancestors.len(),
                forall|j: nat| j < k ==> (#[trigger] ancestor_at(self@, id, j) matches Some(y) && next_sibling(self@, y) is None),
            ensures
                forall|j: nat| j <= ancestors.len() ==> (#[trigger] ancestor_at(self@, id, j) matches Some(y) && next_sibling(self@, y) is None),
            decreases ancestors.len() - k,
        {
            let node = self.up(id, &ancestors, k);
            match self.next_sibling_of(node) {
                Some(sibling) => {
                    let leaf = self.first_leaf_of(sibling);
                    proof {
                        assert(nearest_with_next(self@, id, k as nat, node));
                    }
                    return Some(leaf);
                },
                None => {},
            }
            if k >= ancestors.len() {
                break;
            }
            k = k + 1;
        }
        proof {
            lemma_no_ancestor_beyond(self@, id, (ancestors@.len() + 1) as nat);
        }
        None
    }

    /// The leaf that precedes `id` in document order, `None` when `id` is
    /// the very first leaf.
    pub fn prev_leaf_of(&self, id: ContentId) -> (r: Option<ContentId>)
        requires
            self.wf(),
            self@.contains_key(id),
        ensures
            is_prev_leaf(self@, id, r),
            r matches Some(leaf) ==> self@.contains_key(leaf),
    {
        let ancestors = self.ancestors_of(id);
        let mut k: usize = 0;
        loop
            invariant
                self.wf(),
                self@.contains_key(id),
                is_ancestor_list(self@, id, ancestors@),
                forall|i: int| 0 <= i < ancestors@.len() ==> self@.contains_key(#[trigger] ancestors@[i]),
                k <= ancestors.len(),
                forall|j: nat| j < k ==> (#[trigger] ancestor_at(self@, id, j) matches Some(y) && prev_sibling(self@, y) is None),
            ensures
                forall|j: nat| j <= ancestors.len() ==> (#[trigger] ancestor_at(self@, id, j) matches Some(y) && prev_sibling(self@, y) is None),
            decreases ancestors.len() - k,
        {
            let node = self.up(id, &ancestors, k);
            match self.prev_sibling_of(node) {
                Some(sibling) => {
                    let leaf = self.last_leaf_of(sibling);
                    proof {
                        assert(nearest_with_prev(self@, id, k as nat, node));
                    }
                    return Some(leaf);
                },
                None => {},
            }
            if k >= ancestors.len() {
                break;
            }
            k = k + 1;
        }
        proof {
            lemma_no_ancestor_beyond(self@, id, (ancestors@.len() + 1) as nat);
        }
        None
    }

    /// Appends the leaves under `id`, in document order, to `out`.
    fn collect_leaves(&self, id: ContentId, Ghost(fuel): Ghost<nat>, out: &mut Vec<ContentId>)
        requires
            self.wf(),
            self@.contains_key(id),
            fuel + self.ranks()[id] >= self.rank_limit(),
        ensures
            final(out)@ == old(out)@ + leaves_of(self@, id, fuel),
            forall|i: int| 0 <= i < final(out)@.len() && !(0 <= i < old(out)@.len()) ==> self@.contains_key(#[trigger] final(out)@[i]),
        decreases fuel,
    {
        proof {
            self.lemma_view_wf();
        }
        let children = self.children_of(id);
        if children.len() == 0 {
            out.push(id);
            proof {
                assert(out@ =~= old(out)@ + leaves_of(self@, id, fuel));
            }
            return;
        }
        let ghost start = out@;
        let mut i: usize = 0;
        while i < children.len()
            invariant
                self.wf(),
                forest_wf(self@, self.ranks(), self.rank_limit()),
                self@.contains_key(id),
                children@ == self@[id].children,
                fuel > 0,
                fuel + self.ranks()[id] >= self.rank_limit(),
                i <= children.len(),
                out@ == start + leaves_of_list(self@, children@.take(i as int), (fuel - 1) as nat),
                forall|j: int| start.len() <= j < out@.len() ==> self@.contains_key(#[trigger] out@[j]),
                start == old(out)@,
            decreases children.len() - i,
        {
            let child = children[i];
            proof {
                assert(self@.contains_key(child));
                assert(self@[child].parent == Some(id));
                lemma_leaves_of_list_step(self@, children@, i as int, (fuel - 1) as nat);
            }
            self.collect_leaves(child, Ghost((fuel - 1) as nat), out);
            i = i + 1;
        }
        proof {
            assert(children@.take(children@.len() as int) =~= children@);
        }
    }

    /// All the leaves of the document, in order.
    pub fn leafs(&self) -> (v: Vec<ContentId>)
        requires
            self.wf(),
            self@.contains_key(self.root_id()),
        ensures
            v@ == leaves_under(self@, self.root_id()),
            v@.no_duplicates(),
            forall|i: int| 0 <= i < v@.len() ==> self@.contains_key(#[trigger] v@[i]),
    {
        let mut out: Vec<ContentId> = Vec::new();
        self.collect_leaves(self.root(), Ghost(self.rank_limit()), &mut out);
        assert(out@ =~= leaves_of(self@, self.root_id(), self.rank_limit()));
        proof {
            self.lemma_view_wf();
            crate::nav::lemma_leaves_under(self@, self.ranks(), self.rank_limit(), self.root_id());
            crate::nav::lemma_leaves_distinct(self@, self.ranks(), self.rank_limit(), self.root_id(), self.rank_limit());
        }
        out
    }

    /// Compares the positions of two leaves in document order: `Less` when
    /// `lhs` comes first, `Greater` when `rhs` does, `None` when neither is
    /// a leaf of the document.
    pub fn leaf_order_of(&self, lhs: ContentId, rhs: ContentId) -> (r: Option<Ordering>)
        requires
            self.wf(),
            self@.contains_key(self.root_id()),
        ensures
            lhs == rhs ==> r == Some(Ordering::Equal),
            lhs != rhs ==> {
                let s = leaves_under(self@, self.root_id());
                &&& (r == Some(Ordering::Less) <==> comes_first(s, lhs, rhs))
                &&& (r == Some(Ordering::Greater) <==> comes_first(s, rhs, lhs))
                &&& (r is None <==> !s.contains(lhs) && !s.contains(rhs))
            },
            r == leaf_order(leaves_under(self@, self.root_id()), lhs, rhs),
    {
        if lhs == rhs {
            return Some(Ordering::Equal);
        }
        let leaves = self.leafs();
        let ghost s = leaves@;
        let mut i: usize = 0;
        while i < leaves.len()
            invariant
                i <= leaves.len(),
                leaves@ == s,
                s == leaves_under(self@, self.root_id()),
                lhs != rhs,
                forall|j: int| 0 <= j < i ==> s[j] != lhs && s[j] != rhs,
            decreases leaves.len() - i,
        {
            if leaves[i] == lhs {
                proof {
                    assert(comes_first(s, lhs, rhs));
                    if comes_first(s, rhs, lhs) {
                        let k = choose|k: int| 0 <= k < s.len() && s[k] == rhs && forall|j: int| 0 <= j < k ==> s[j] != lhs;
                        assert(k > i);
                    }
                }
                return Some(Ordering::Less);
            }
            if leaves[i] == rhs {
                proof {
                    assert(comes_first(s, rhs, lhs));
                    if comes_first(s, lhs, rhs) {
                        let k = choose|k: int| 0 <= k < s.len() && s[k] == lhs && forall|j: int| 0 <= j < k ==> s[j] != rhs;
                        assert(k > i);
                    }
                }
                return Some(Ordering::Greater);
            }
            i = i + 1;
        }
        proof {
            assert(!s.contains(lhs));
            assert(!s.contains(rhs));
        }
        None
    }
}

/// How `a` and `b` compare by their first occurrences in `s`: `Equal` when
/// they are the same node, `Less` when `a` occurs first, `Greater` when `b`
/// does, `None` when neither occurs.
pub open spec fn leaf_order(s: Seq<ContentId>, a: ContentId, b: ContentId) -> Option<Ordering> {
    if a == b {
        Some(Ordering::Equal)
    } else if comes_first(s, a, b) {
        Some(Ordering::Less)
    } else if comes_first(s, b, a) {
        Some(Ordering::Greater)
    } else {
        None
    }
}

/// The order of leaves is antisymmetric: `a` comes before `b` exactly when
/// `b` comes after `a`, they are equal both ways, and neither is found both
/// ways.
pub proof fn lemma_leaf_order_flip(s: Seq<ContentId>, a: ContentId, b: ContentId)
    ensures
        leaf_order(s, a, b) == Some(Ordering::Less) <==> leaf_order(s, b, a) == Some(Ordering::Greater),
        leaf_order(s, a, b) == Some(Ordering::Equal) <==> leaf_order(s, b, a) == Some(Ordering::Equal),
        leaf_order(s, a, b) is None <==> leaf_order(s, b, a) is None,
{
    if a != b && comes_first(s, a, b) && comes_first(s, b, a) {
        let i = choose|i: int| 0 <= i < s.len() && s[i] == a && forall|j: int| 0 <= j < i ==> s[j] != b;
        let k = choose|k: int| 0 <= k < s.len() && s[k] == b && forall|j: int| 0 <= j < k ==> s[j] != a;
        if i < k {
            assert(s[i] != a);
        } else if k < i {
            assert(s[k] != b);
        }
    }
}

/// Some occurrence of `a` in `s` comes before any occurrence of `b`.
pub open spec fn comes_first(s: Seq<ContentId>, a: ContentId, b: ContentId) -> bool {
    exists|i: int| 0 <= i < s.len() && s[i] == a && forall|j: int| 0 <= j < i ==> s[j] != b
}

/// Once the chain of parents has ended, it stays ended.
proof fn lemma_no_ancestor_beyond(t: crate::nav::Tree, id: ContentId, n: nat)
    requires
        ancestor_at(t, id, n) is None,
    ensures
        forall|k: nat| k >= n ==> #[trigger] ancestor_at(t, id, k) is None,
{
    assert forall|k: nat| k >= n implies #[trigger] ancestor_at(t, id, k) is None by {
        lemma_none_beyond(t, id, n, k);
    }
}

proof fn lemma_none_beyond(t: crate::nav::Tree, id: ContentId, n: nat, k: nat)
    requires
        ancestor_at(t, id, n) is None,
        k >= n,
    ensures
        ancestor_at(t, id, k) is None,
    decreases k - n,
{
    if k > n {
        lemma_none_beyond(t, id, n, (k - 1) as nat);
        crate::forest::lemma_ancestor_succ(t, id, (k - 1) as nat);
    }
}

/// One step up from the `k`-th ancestor.
proof fn lemma_ancestor_next(t: crate::nav::Tree, id: ContentId, current: ContentId, k: nat)
    requires
        ancestor_at(t, id, k) == Some(current),
        t.contains_key(current),
    ensures
        ancestor_at(t, id, k + 1) == t[current].parent,
{
    crate::forest::lemma_ancestor_succ(t, id, k);
}

} // verus!
