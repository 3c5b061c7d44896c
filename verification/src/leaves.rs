//! Walking the leaves of a document one at a time, in document order.
use vstd::prelude::*;

use crate::direct::DirectContent;
use crate::id::ContentId;
use crate::nav::{is_first_leaf, is_next_leaf, leaves_under};

verus! {

/// The leaves of a document, handed out one at a time in document order.
pub struct ContentLeafs<'a> {
    content: &'a DirectContent,
    current: Option<ContentId>,
}

impl<'a> ContentLeafs<'a> {
    /// The document walked.
    pub closed spec fn content(&self) -> DirectContent {
        *self.content
    }

    /// The leaf that the next call hands out, `None` once all were.
    pub closed spec fn current(&self) -> Option<ContentId> {
        self.current
    }

    /// The walk can go on: the document is consistent and the next leaf is
    /// one of its nodes.
    pub open spec fn wf(&self) -> bool {
        &&& self.content().wf()
        &&& self.current() matches Some(c) ==> self.content()@.contains_key(c)
    }

    /// A walk that starts at the first leaf of the document.
    pub fn new(content: &'a DirectContent) -> (r: Self)
        requires
            content.wf(),
            content@.contains_key(content.root_id()),
        ensures
            r.wf(),
            r.content() == *content,
            r.current() matches Some(leaf) && is_first_leaf(content@, content.root_id(), leaf),
    {
        let first = content.first_leaf_of(content.root());
        ContentLeafs { content, current: Some(first) }
    }

    /// Hands out the current leaf and moves on to the next one.
    pub fn next(&mut self) -> (r: Option<ContentId>)
        requires
            old(self).wf(),
        ensures
            final(self).wf(),
            r == old(self).current(),
            final(self).content() == old(self).content(),
            old(self).current() matches Some(c) ==> is_next_leaf(old(self).content()@, c, final(self).current()),
            old(self).current() is None ==> final(self).current() is None,
    {
        match self.current {
            Some(curr) => {
                self.current = self.content.next_leaf_of(curr);
                Some(curr)
            },
            None => None,
        }
    }
}

/// One step of [`lemma_walk_meets_each_leaf`], by induction on the number
/// of calls.
proof fn lemma_walk_step(t: crate::nav::Tree, l: Seq<ContentId>, steps: Seq<Option<ContentId>>, k: int)
    requires
        0 <= k < steps.len(),
        l.len() > 0,
        steps[0] == Some(l[0]),
        forall|i: int, r: Option<ContentId>|
            0 <= i < l.len() - 1 ==> (#[trigger] is_next_leaf(t, l[i], r) <==> r == Some(l[i + 1])),
        forall|r: Option<ContentId>| #[trigger] is_next_leaf(t, l.last(), r) <==> r is None,
        forall|j: int|
            0 <= j < steps.len() - 1 ==> (#[trigger] steps[j] matches Some(c) ==> is_next_leaf(t, c, steps[j + 1])),
        forall|j: int| 0 <= j < steps.len() - 1 ==> (#[trigger] steps[j] is None ==> steps[j + 1] is None),
    ensures
        steps[k] == (if k < l.len() { Some(l[k]) } else { None }),
    decreases k,
{
    if k > 0 {
        let p = k - 1;
        lemma_walk_step(t, l, steps, p);
        if p < l.len() - 1 {
            assert(is_next_leaf(t, l[p], steps[p + 1]));
        } else if p == l.len() - 1 {
            assert(is_next_leaf(t, l.last(), steps[p + 1]));
        } else {
            assert(steps[p] is None);
        }
    }
}

/// A walk over the leaves meets each leaf of the document once, in
/// document order, and then ends. `steps[k]` is what the walk holds after
/// `k` calls of `next`: it starts at the first leaf of the root (see
/// `new`), and each call moves on as `next` states. The root has no
/// parent, as the root of a document does.
pub proof fn lemma_walk_meets_each_leaf(content: DirectContent, steps: Seq<Option<ContentId>>)
    requires
        content.wf(),
        content@.contains_key(content.root_id()),
        content@[content.root_id()].parent is None,
        steps.len() > 0,
        steps[0] matches Some(f) && is_first_leaf(content@, content.root_id(), f),
        forall|k: int|
            0 <= k < steps.len() - 1 ==> (#[trigger] steps[k] matches Some(c) ==> is_next_leaf(content@, c, steps[k + 1])),
        forall|k: int| 0 <= k < steps.len() - 1 ==> (#[trigger] steps[k] is None ==> steps[k + 1] is None),
    ensures
        leaves_under(content@, content.root_id()).no_duplicates(),
        forall|k: int|
            0 <= k < steps.len() ==> #[trigger] steps[k] == (if k < leaves_under(content@, content.root_id()).len() {
                Some(leaves_under(content@, content.root_id())[k])
            } else {
                None
            }),
{
    let t = content@;
    let root = content.root_id();
    let l = leaves_under(t, root);
    crate::walk::lemma_leaf_navigation(content);
    content.lemma_view_wf();
    crate::nav::lemma_leaves_under(t, content.ranks(), content.rank_limit(), root);
    crate::nav::lemma_leaves_distinct(t, content.ranks(), content.rank_limit(), root, content.rank_limit());
    assert forall|k: int| 0 <= k < steps.len() implies #[trigger] steps[k] == (if k < l.len() {
        Some(l[k])
    } else {
        None
    }) by {
        lemma_walk_step(t, l, steps, k);
    }
}

} // verus!
