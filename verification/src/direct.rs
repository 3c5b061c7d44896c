//! In-memory backend: the content tree lives in local memory only, in an
//! `indextree` arena, with a `bimap` index from content identifiers to arena
//! nodes. Mutations take effect at once and are not shared with any peer.
use vstd::prelude::*;
use vstd::string::*;

use bimap::BiHashMap;
use indextree::{Arena, NodeId};

use crate::arena::{
    arena_append, arena_children, arena_data, arena_descendants, arena_detach,
    arena_insert_before, arena_new, arena_new_node, arena_nodes, arena_parent,
    arena_remove_subtree, arena_set_data, index_get_by_left, index_get_by_right, index_insert, index_left_values,
    index_new, index_pairs, index_remove_by_left,
};
use crate::error::ContentError;
use crate::forest::{
    ancestor_at, forest_append, forest_detach, forest_insert_before, forest_linked, forest_ranked,
    forest_remove_subtree, is_desc_or_self, with_spec, TreeNode,
};
use crate::id::ContentId;
use crate::kind::{kind_of_spec, text_of_spec, ContentKind, NodeSpec};
use crate::rename::{bijective, rename_forest, rename_node, rename_seq};
use crate::record::check_same_kind;

verus! {

/// The in-memory content tree.
pub struct DirectContent {
    arena: Arena<NodeSpec>,
    index: BiHashMap<u64, NodeId>,
    next_id: u64,
    root: ContentId,
    inverse: Ghost<Map<NodeId, u64>>,
    rank: Ghost<Map<NodeId, nat>>,
    rank_bound: Ghost<nat>,
}

impl View for DirectContent {
    type V = Map<ContentId, TreeNode<ContentId>>;

    /// Every node of the tree, attached or not, by identifier.
    closed spec fn view(&self) -> Self::V {
        rename_forest(arena_nodes(self.arena), index_pairs(self.index), self.inverse@)
    }
}

/// A forest where links are consistent and every parent chain ends.
pub open spec fn forest_wf(t: Map<ContentId, TreeNode<ContentId>>, rank: Map<ContentId, nat>, bound: nat) -> bool {
    &&& forest_linked(t)
    &&& forest_ranked(t, rank, bound)
}

impl Default for DirectContent {
    /// A document holding only its root: see [`DirectContent::new`].
    fn default() -> (r: Self)
        ensures
            r.wf(),
            r@ == Map::<ContentId, TreeNode<ContentId>>::empty().insert(
                r.root_id(),
                TreeNode { spec: NodeSpec::Root, parent: None, children: Seq::empty() },
            ),
            r.next_id() == 1,
            r.root_id() == ContentId(0),
    {
        Self::new()
    }
}

impl DirectContent {
    /// Internal consistency: index and arena describe the same nodes, links
    /// agree, parent chains are finite, identifiers come from the counter.
    pub closed spec fn wf(&self) -> bool {
        let m = arena_nodes(self.arena);
        let ids = index_pairs(self.index);
        &&& bijective(m, ids, self.inverse@)
        &&& forest_linked(m)
        &&& forest_ranked(m, self.rank@, self.rank_bound@)
        &&& forall|l: u64| #[trigger] ids.contains_key(l) ==> l < self.next_id
    }

    /// The identifier of the root node.
    pub closed spec fn root_id(&self) -> ContentId {
        self.root
    }

    /// The identifier the next created node will get.
    pub closed spec fn next_id(&self) -> nat {
        self.next_id as nat
    }

    /// A rank for each node, that strictly increases from parent to child.
    pub closed spec fn ranks(&self) -> Map<ContentId, nat> {
        Map::new(
            |c: ContentId| index_pairs(self.index).contains_key(c.0),
            |c: ContentId| self.rank@[index_pairs(self.index)[c.0]],
        )
    }

    /// A bound on every rank.
    pub closed spec fn rank_limit(&self) -> nat {
        self.rank_bound@
    }

    /// A well-formed tree is linked and ranked, and every identifier in it
    /// lies below the counter.
    pub proof fn lemma_view_wf(&self)
        requires
            self.wf(),
        ensures
            forest_wf(self@, self.ranks(), self.rank_limit()),
            forall|c: ContentId| #[trigger] self@.contains_key(c) ==> c.0 < self.next_id(),
    {
        let m = arena_nodes(self.arena);
        let ids = index_pairs(self.index);
        let inv = self.inverse@;
        let v = self@;
        assert forall|c: ContentId| #![trigger v[c].parent] v.contains_key(c) && v[c].parent is Some implies {
            let p = v[c].parent.unwrap();
            &&& v.contains_key(p)
            &&& v[p].children.contains(c)
        } by {
            let a = ids[c.0];
            assert(inv[a] == c.0);
            let pa = m[a].parent.unwrap();
            assert(m.contains_key(pa));
            assert(m[pa].children.contains(a));
            crate::rename::lemma_rename_key(m, ids, inv, pa);
            crate::rename::lemma_links_inside(m, pa);
            crate::rename::lemma_rename_seq_contains(m, ids, inv, m[pa].children, a);
        }
        assert forall|c: ContentId, i: int|
            #![trigger v[c].children[i]]
            v.contains_key(c) && 0 <= i < v[c].children.len() implies {
            let ch = v[c].children[i];
            &&& v.contains_key(ch)
            &&& v[ch].parent == Some(c)
        } by {
            let a = ids[c.0];
            assert(inv[a] == c.0);
            let x = m[a].children[i];
            assert(m.contains_key(x));
            assert(m[x].parent == Some(a));
            crate::rename::lemma_rename_key(m, ids, inv, x);
        }
        assert forall|c: ContentId| #[trigger] v.contains_key(c) implies v[c].children.no_duplicates() by {
            let a = ids[c.0];
            crate::rename::lemma_links_inside(m, a);
            crate::rename::lemma_rename_seq_no_dups(m, ids, inv, m[a].children);
        }
        let r = self.ranks();
        assert forall|c: ContentId| #[trigger] v.contains_key(c) implies r.contains_key(c) && r[c]
            < self.rank_limit() by {
            let a = ids[c.0];
            assert(m.contains_key(a));
        }
        assert forall|c: ContentId| #![trigger v[c].parent] v.contains_key(c) && v[c].parent is Some implies r[v[c].parent.unwrap()] < r[c] by {
            let a = ids[c.0];
            assert(inv[a] == c.0);
            let pa = m[a].parent.unwrap();
            assert(m.contains_key(pa));
            crate::rename::lemma_rename_key(m, ids, inv, pa);
        }
    }

    /// An empty tree: a single `Root` node, without children.
    pub fn new() -> (r: Self)
        ensures
            r.wf(),
            r@ == Map::<ContentId, TreeNode<ContentId>>::empty().insert(
                r.root_id(),
                TreeNode { spec: NodeSpec::Root, parent: None, children: Seq::empty() },
            ),
            r.next_id() == 1,
            r.root_id() == ContentId(0),
    {
        let mut arena = arena_new();
        let arena_id = arena_new_node(&mut arena, NodeSpec::Root);
        let mut index = index_new();
        index_insert(&mut index, 0, arena_id);
        let ghost inverse = Map::<NodeId, u64>::empty().insert(arena_id, 0u64);
        let ghost rank = Map::<NodeId, nat>::empty().insert(arena_id, 0nat);
        let r = DirectContent {
            arena,
            index,
            next_id: 1,
            root: ContentId(0),
            inverse: Ghost(inverse),
            rank: Ghost(rank),
            rank_bound: Ghost(1),
        };
        proof {
            let m = arena_nodes(r.arena);
            assert(m.dom() =~= set![arena_id]);
            assert(index_pairs(r.index).dom() =~= set![0u64]);
            assert(rename_seq(Seq::<NodeId>::empty(), inverse) =~= Seq::<ContentId>::empty());
            assert(r@ =~= Map::<ContentId, TreeNode<ContentId>>::empty().insert(
                ContentId(0),
                TreeNode { spec: NodeSpec::Root, parent: None, children: Seq::empty() },
            ));
        }
        r
    }

    pub fn root(&self) -> (r: ContentId)
        ensures
            r == self.root_id(),
    {
        self.root
    }

    /// The number the next created node will take.
    pub fn next_raw_id(&self) -> (n: u64)
        ensures
            n == self.next_id(),
    {
        self.next_id
    }

    fn arena_id_of(&self, id: ContentId) -> (a: NodeId)
        requires
            self.wf(),
            self@.contains_key(id),
        ensures
            a == index_pairs(self.index)[id.0],
            arena_nodes(self.arena).contains_key(a),
            self.inverse@[a] == id.0,
    {
        match index_get_by_left(&self.index, id.0) {
            Some(a) => a,
            None => {
                proof {
                    assert(false);
                }
                vstd::pervasive::unreached()
            },
        }
    }

    fn node_of(&self, id: ContentId) -> (n: &NodeSpec)
        requires
            self.wf(),
            self@.contains_key(id),
        ensures
            *n == self@[id].spec,
    {
        let a = self.arena_id_of(id);
        arena_data(&self.arena, a)
    }

    /// The content identifier of a live arena node.
    fn content_id_of(&self, a: NodeId) -> (c: ContentId)
        requires
            self.wf(),
            arena_nodes(self.arena).contains_key(a),
        ensures
            c == ContentId(self.inverse@[a]),
            self@.contains_key(c),
    {
        match index_get_by_right(&self.index, a) {
            Some(l) => {
                proof {
                    let ids = index_pairs(self.index);
                    assert(self.inverse@[ids[l]] == l);
                }
                ContentId(l)
            },
            None => {
                proof {
                    let ids = index_pairs(self.index);
                    let l = self.inverse@[a];
                    assert(ids.contains_key(l));
                    assert(false);
                }
                ContentId(0)
            },
        }
    }

    /// Whether the document holds a node `id`, attached or not.
    pub fn contains(&self, id: ContentId) -> (b: bool)
        requires
            self.wf(),
        ensures
            b == self@.contains_key(id),
    {
        index_get_by_left(&self.index, id.0).is_some()
    }

    /// The identifiers of all the nodes of the document, attached or not,
    /// each once, in no particular order.
    pub fn node_ids(&self) -> (v: Vec<ContentId>)
        requires
            self.wf(),
        ensures
            v@.no_duplicates(),
            forall|c: ContentId| #[trigger] v@.contains(c) <==> self@.contains_key(c),
    {
        let raw = index_left_values(&self.index);
        let mut v: Vec<ContentId> = Vec::new();
        let mut i: usize = 0;
        while i < raw.len()
            invariant
                0 <= i <= raw.len(),
                raw@.no_duplicates(),
                forall|l: u64| #[trigger] raw@.contains(l) <==> index_pairs(self.index).contains_key(l),
                v@.len() == i,
                forall|j: int| 0 <= j < i ==> #[trigger] v@[j] == ContentId(raw@[j]),
            decreases raw.len() - i,
        {
            v.push(ContentId(raw[i]));
            i = i + 1;
        }
        proof {
            assert forall|a: int, b: int| 0 <= a < b < v@.len() implies v@[a] != v@[b] by {
                assert(raw@[a] != raw@[b]);
            }
            assert forall|c: ContentId| #[trigger] v@.contains(c) <==> self@.contains_key(c) by {
                if v@.contains(c) {
                    let j = choose|j: int| 0 <= j < v@.len() && v@[j] == c;
                    assert(raw@.contains(raw@[j]));
                }
                if self@.contains_key(c) {
                    assert(raw@.contains(c.0));
                    let j = choose|j: int| 0 <= j < raw@.len() && raw@[j] == c.0;
                    assert(v@[j] == c);
                }
            }
        }
        v
    }

    pub fn kind_of(&self, id: ContentId) -> (k: ContentKind)
        requires
            self.wf(),
            self@.contains_key(id),
        ensures
            k == kind_of_spec(self@[id].spec),
    {
        self.node_of(id).kind()
    }

    /// Text carried by the node, empty when it is not a `Plain` node.
    pub fn text_of(&self, id: ContentId) -> (s: String)
        requires
            self.wf(),
            self@.contains_key(id),
        ensures
            s@ == text_of_spec(self@[id].spec),
    {
        match self.node_of(id) {
            NodeSpec::Plain(text) => text.clone(),
            _ => String::new(),
        }
    }

    /// Length of the node's text in characters (not bytes).
    pub fn len_of(&self, id: ContentId) -> (n: usize)
        requires
            self.wf(),
            self@.contains_key(id),
        ensures
            n == text_of_spec(self@[id].spec).len(),
    {
        self.node_of(id).len()
    }

    pub fn parent_of(&self, id: ContentId) -> (p: Option<ContentId>)
        requires
            self.wf(),
            self@.contains_key(id),
        ensures
            p == self@[id].parent,
    {
        let a = self.arena_id_of(id);
        proof {
            crate::rename::lemma_links_inside(arena_nodes(self.arena), a);
        }
        match arena_parent(&self.arena, a) {
            Some(pa) => Some(self.content_id_of(pa)),
            None => None,
        }
    }

    /// Direct children, in document order.
    pub fn children_of(&self, id: ContentId) -> (v: Vec<ContentId>)
        requires
            self.wf(),
            self@.contains_key(id),
        ensures
            v@ == self@[id].children,
    {
        let a = self.arena_id_of(id);
        let cs = arena_children(&self.arena, a);
        proof {
            crate::rename::lemma_links_inside(arena_nodes(self.arena), a);
        }
        let mut out: Vec<ContentId> = Vec::new();
        let mut i: usize = 0;
        while i < cs.len()
            invariant
                self.wf(),
                i <= cs.len(),
                cs@ == arena_nodes(self.arena)[a].children,
                forall|j: int| 0 <= j < cs.len() ==> arena_nodes(self.arena).contains_key(#[trigger] cs@[j]),
                out@ == rename_seq(cs@, self.inverse@).subrange(0, i as int),
            decreases cs.len() - i,
        {
            let c = self.content_id_of(cs[i]);
            out.push(c);
            i = i + 1;
            assert(out@ =~= rename_seq(cs@, self.inverse@).subrange(0, i as int));
        }
        assert(out@ =~= rename_seq(cs@, self.inverse@));
        out
    }

    /// Full specification of the node (formatting attributes, list marker,
    /// text...).
    pub fn spec_of(&self, id: ContentId) -> (s: NodeSpec)
        requires
            self.wf(),
            self@.contains_key(id),
        ensures
            s == self@[id].spec,
    {
        self.node_of(id).clone()
    }

    /// Replaces the specification of a node, its links unchanged.
    fn write_spec(&mut self, id: ContentId, spec: NodeSpec)
        requires
            old(self).wf(),
            old(self)@.contains_key(id),
        ensures
            final(self).wf(),
            final(self)@ == old(self)@.insert(id, with_spec(old(self)@[id], spec)),
            final(self).root_id() == old(self).root_id(),
            final(self).next_id() == old(self).next_id(),
    {
        let a = self.arena_id_of(id);
        let ghost m = arena_nodes(self.arena);
        let ghost ids = index_pairs(self.index);
        arena_set_data(&mut self.arena, a, spec);
        proof {
            crate::forest::lemma_set_spec_wf(m, a, spec, self.rank@, self.rank_bound@);
            crate::rename::lemma_rename_set_spec(m, ids, self.inverse@, a, spec);
            assert(arena_nodes(self.arena).dom() =~= m.dom());
        }
    }

    /// Creates a detached node (without parent), to be attached later.
    pub(crate) fn create_node_spec(&mut self, spec: NodeSpec) -> (id: ContentId)
        requires
            old(self).wf(),
            old(self).next_id() < u64::MAX,
        ensures
            final(self).wf(),
            !old(self)@.contains_key(id),
            id.0 == old(self).next_id(),
            final(self)@ == old(self)@.insert(
                id,
                TreeNode { spec: spec, parent: None, children: Seq::empty() },
            ),
            final(self).root_id() == old(self).root_id(),
            final(self).next_id() == old(self).next_id() + 1,
    {
        let ghost m = arena_nodes(self.arena);
        let ghost ids = index_pairs(self.index);
        let ghost inv = self.inverse@;
        let id = ContentId(self.next_id);
        let a = arena_new_node(&mut self.arena, spec);
        proof {
            assert(!inv.contains_key(a));
            assert forall|l: u64| #[trigger] ids.contains_key(l) implies ids[l] != a by {
                assert(inv.contains_key(ids[l]));
            }
        }
        index_insert(&mut self.index, id.0, a);
        self.next_id = self.next_id + 1;
        let ghost t = TreeNode { spec: spec, parent: None, children: Seq::<NodeId>::empty() };
        proof {
            crate::forest::lemma_insert_isolated_wf(m, a, t, self.rank@, self.rank_bound@);
            crate::rename::lemma_rename_insert_fresh(m, ids, inv, a, id.0, t);
            assert(rename_seq(Seq::<NodeId>::empty(), inv) =~= Seq::<ContentId>::empty());
            assert(rename_node(t, inv) == TreeNode {
                spec: spec,
                parent: None::<ContentId>,
                children: Seq::<ContentId>::empty(),
            });
        }
        self.inverse = Ghost(inv.insert(a, id.0));
        self.rank = Ghost(self.rank@.insert(a, 0));
        self.rank_bound = Ghost(self.rank_bound@ + 1);
        id
    }

    /// Inserts `child` under `parent` at position `index` (`0` = first child,
    /// the number of children = last), without checking that the kinds fit.
    /// `child` first leaves its current place, if any; the child that
    /// occupied position `index` is the one it is inserted before.
    pub fn insert_child_at(&mut self, parent: ContentId, index: usize, child: ContentId) -> (r: Result<
        (),
        ContentError,
    >)
        requires
            old(self).wf(),
            old(self)@.contains_key(parent),
            old(self)@.contains_key(child),
            !is_desc_or_self(old(self)@, parent, child),
            index < old(self)@[parent].children.len() ==> old(self)@[parent].children[index as int]
                != child,
        ensures
            final(self).wf(),
            r is Ok,
            final(self)@ == (if index < old(self)@[parent].children.len() {
                forest_insert_before(old(self)@, old(self)@[parent].children[index as int], child)
            } else {
                forest_append(old(self)@, parent, child)
            }),
            final(self)@.dom() == old(self)@.dom(),
            final(self)@[child].parent == Some(parent),
            forall|x: ContentId| #[trigger] final(self)@.contains_key(x) && x != child ==> final(self)@[x].parent == old(self)@[x].parent,
            final(self).root_id() == old(self).root_id(),
            final(self).next_id() == old(self).next_id(),
    {
        let pa = self.arena_id_of(parent);
        let ca = self.arena_id_of(child);
        let ghost m = arena_nodes(self.arena);
        let ghost ids = index_pairs(self.index);
        let ghost inv = self.inverse@;
        proof {
            self.lemma_view_wf();
            crate::rename::lemma_rename_desc(m, ids, inv, pa, ca);
            crate::rename::lemma_links_inside(m, pa);
            assert(ancestor_at(m, pa, 0) == Some(pa));
            assert(pa != ca);
            assert(ancestor_at(m, ca, 0) == Some(ca));
            if m[ca].parent == Some(ca) {
                assert(self.rank@[ca] < self.rank@[ca]);
            }
        }
        let siblings = arena_children(&self.arena, pa);
        if index < siblings.len() {
            let at = siblings[index];
            proof {
                assert(m[pa].children[index as int] == at);
                assert(m.contains_key(at));
                assert(m[at].parent == Some(pa));
                crate::rename::lemma_rename_key(m, ids, inv, at);
                assert(ContentId(inv[at]) == self@[parent].children[index as int]);
                crate::rename::lemma_inv_injective(m, ids, inv, at, ca);
                if is_desc_or_self(m, at, ca) {
                    let k = choose|k: nat| ancestor_at(m, at, k) == Some(ca);
                    assert(k != 0);
                    crate::forest::lemma_ancestor_step(m, at, pa, (k - 1) as nat);
                    assert(is_desc_or_self(m, pa, ca));
                }
            }
            arena_insert_before(&mut self.arena, at, ca);
            proof {
                crate::forest::lemma_insert_before_linked(m, at, ca);
                crate::rename::lemma_rename_insert_before(m, ids, inv, at, ca);
                let res = crate::forest::lemma_ranked_attach(
                    m,
                    arena_nodes(self.arena),
                    self.rank@,
                    self.rank_bound@,
                    ca,
                    pa,
                );
                self.rank = Ghost(res.0);
                self.rank_bound = Ghost(res.1);
            }
        } else {
            arena_append(&mut self.arena, pa, ca);
            proof {
                crate::forest::lemma_append_linked(m, pa, ca);
                crate::rename::lemma_rename_append(m, ids, inv, pa, ca);
                let res = crate::forest::lemma_ranked_attach(
                    m,
                    arena_nodes(self.arena),
                    self.rank@,
                    self.rank_bound@,
                    ca,
                    pa,
                );
                self.rank = Ghost(res.0);
                self.rank_bound = Ghost(res.1);
            }
        }
        Ok(())
    }

    /// Detaches `id` from its parent without deleting it: it becomes a node
    /// without parent, ready to be attached elsewhere. Does nothing when it
    /// has no parent.
    pub fn detach_unchecked(&mut self, id: ContentId) -> (r: Result<(), ContentError>)
        requires
            old(self).wf(),
            old(self)@.contains_key(id),
        ensures
            final(self).wf(),
            r is Ok,
            final(self)@ == forest_detach(old(self)@, id),
            final(self).root_id() == old(self).root_id(),
            final(self).next_id() == old(self).next_id(),
    {
        let a = self.arena_id_of(id);
        let ghost m = arena_nodes(self.arena);
        let ghost ids = index_pairs(self.index);
        let ghost inv = self.inverse@;
        proof {
            if m[a].parent == Some(a) {
                assert(self.rank@[a] < self.rank@[a]);
            }
        }
        arena_detach(&mut self.arena, a);
        proof {
            crate::forest::lemma_detach_linked(m, a);
            crate::rename::lemma_rename_detach(m, ids, inv, a);
            crate::forest::lemma_ranked_fewer_links(
                m,
                arena_nodes(self.arena),
                self.rank@,
                self.rank_bound@,
            );
        }
        Ok(())
    }

    /// Detaches `id` (if it has a parent), then deletes it for good along
    /// with all its descendants.
    pub fn remove_node(&mut self, id: ContentId) -> (r: Result<(), ContentError>)
        requires
            old(self).wf(),
            old(self)@.contains_key(id),
        ensures
            final(self).wf(),
            r is Ok,
            final(self)@ == forest_remove_subtree(old(self)@, id),
            final(self).root_id() == old(self).root_id(),
            final(self).next_id() == old(self).next_id(),
    {
        let a = self.arena_id_of(id);
        let ghost m = arena_nodes(self.arena);
        let ghost ids = index_pairs(self.index);
        let ghost inv = self.inverse@;
        proof {
            if m[a].parent == Some(a) {
                assert(self.rank@[a] < self.rank@[a]);
            }
        }
        let descendants = arena_descendants(&self.arena, a);
        let mut removed: Vec<u64> = Vec::new();
        let mut i: usize = 0;
        while i < descendants.len()
            invariant
                self.wf(),
                arena_nodes(self.arena) == m,
                index_pairs(self.index) == ids,
                self.inverse@ == inv,
                m.contains_key(a),
                i <= descendants.len(),
                forall|x: NodeId| descendants@.contains(x) <==> is_desc_or_self(m, x, a),
                removed@.len() == i,
                forall|j: int| 0 <= j < i ==> #[trigger] removed@[j] == inv[descendants@[j]],
            decreases descendants.len() - i,
        {
            let d = descendants[i];
            proof {
                assert(descendants@.contains(d));
                assert(is_desc_or_self(m, d, a));
                crate::forest::lemma_desc_in(m, d, a);
            }
            match index_get_by_right(&self.index, d) {
                Some(l) => {
                    proof {
                        assert(inv[ids[l]] == l);
                    }
                    removed.push(l);
                },
                None => {
                    proof {
                        assert(ids.contains_key(inv[d]));
                        assert(false);
                    }
                },
            }
            i = i + 1;
        }
        arena_remove_subtree(&mut self.arena, a);
        let ghost ids2 = Map::new(
            |l: u64| ids.contains_key(l) && !is_desc_or_self(m, ids[l], a),
            |l: u64| ids[l],
        );
        let ghost inv2 = Map::new(
            |x: NodeId| inv.contains_key(x) && !is_desc_or_self(m, x, a),
            |x: NodeId| inv[x],
        );
        proof {
            assert forall|l: u64| #[trigger] ids.contains_key(l) implies (removed@.contains(l) <==> is_desc_or_self(m, ids[l], a)) by {
                let x = ids[l];
                if removed@.contains(l) {
                    let j = choose|j: int| 0 <= j < removed@.len() && removed@[j] == l;
                    let dj = descendants@[j];
                    assert(descendants@.contains(dj));
                    crate::forest::lemma_desc_in(m, dj, a);
                    assert(ids[inv[dj]] == dj);
                }
                if is_desc_or_self(m, x, a) {
                    assert(descendants@.contains(x));
                    let j = choose|j: int| 0 <= j < descendants@.len() && descendants@[j] == x;
                    assert(removed@[j] == inv[x]);
                    assert(removed@.contains(l));
                }
            }
        }
        let ghost rank = self.rank@;
        let ghost bound = self.rank_bound@;
        let ghost next = self.next_id;
        let ghost root = self.root;
        let mut j: usize = 0;
        while j < removed.len()
            invariant
                j <= removed.len(),
                arena_nodes(self.arena) == forest_remove_subtree(m, a),
                self.inverse@ == inv,
                self.rank@ == rank,
                self.rank_bound@ == bound,
                self.next_id == next,
                self.root == root,
                forall|l: u64| #[trigger] ids.contains_key(l) ==> (removed@.contains(l) <==> is_desc_or_self(m, ids[l], a)),
                index_pairs(self.index) == Map::new(
                    |l: u64| ids.contains_key(l) && !removed@.subrange(0, j as int).contains(l),
                    |l: u64| ids[l],
                ),
            decreases removed.len() - j,
        {
            index_remove_by_left(&mut self.index, removed[j]);
            proof {
                let before = removed@.subrange(0, j as int);
                let after = removed@.subrange(0, j + 1);
                assert forall|l: u64| after.contains(l) <==> (before.contains(l) || l == removed@[j as int]) by {
                    if after.contains(l) {
                        let k = choose|k: int| 0 <= k < after.len() && after[k] == l;
                        if k < j {
                            assert(before[k] == l);
                        }
                    }
                    if before.contains(l) {
                        let k = choose|k: int| 0 <= k < before.len() && before[k] == l;
                        assert(after[k] == l);
                    }
                    if l == removed@[j as int] {
                        assert(after[j as int] == l);
                    }
                }
            }
            j = j + 1;
            proof {
                assert(index_pairs(self.index) =~= Map::new(
                    |l: u64| ids.contains_key(l) && !removed@.subrange(0, j as int).contains(l),
                    |l: u64| ids[l],
                ));
            }
        }
        proof {
            assert(removed@.subrange(0, removed@.len() as int) =~= removed@);
            assert(index_pairs(self.index) =~= ids2);
            crate::rename::lemma_rename_remove_subtree(m, ids, inv, a, ids2, inv2);
            crate::forest::lemma_remove_subtree_linked(m, a);
            crate::forest::lemma_ranked_fewer_links(
                m,
                arena_nodes(self.arena),
                self.rank@,
                self.rank_bound@,
            );
        }
        self.inverse = Ghost(inv2);
        Ok(())
    }

    /// Replaces the attributes of the node with those of `spec`, without
    /// touching its place in the tree. `spec` must be of the node's kind:
    /// otherwise nothing changes and the kinds are reported.
    pub fn set_spec(&mut self, id: ContentId, spec: NodeSpec) -> (r: Result<(), ContentError>)
        requires
            old(self).wf(),
            old(self)@.contains_key(id),
        ensures
            final(self).wf(),
            final(self).root_id() == old(self).root_id(),
            final(self).next_id() == old(self).next_id(),
            kind_of_spec(spec) == kind_of_spec(old(self)@[id].spec) ==> r is Ok && final(self)@
                == old(self)@.insert(id, with_spec(old(self)@[id], spec)),
            kind_of_spec(spec) != kind_of_spec(old(self)@[id].spec) ==> final(self)@ == old(self)@
                && r == Err::<(), ContentError>(
                ContentError::KindMismatch {
                    current: kind_of_spec(old(self)@[id].spec),
                    new: kind_of_spec(spec),
                },
            ),
    {
        let current_kind = self.kind_of(id);
        match check_same_kind(current_kind, &spec) {
            Err(e) => return Err(e),
            Ok(()) => {},
        }
        self.write_spec(id, spec);
        Ok(())
    }

    /// Inserts `value` into the text of a `Plain` node, before the character
    /// at `char_index` (at the end when the index lies past it). Does nothing
    /// on any other node.
    pub fn insert_text(&mut self, id: ContentId, char_index: usize, value: &str)
        requires
            old(self).wf(),
            old(self)@.contains_key(id),
        ensures
            final(self).wf(),
            final(self).root_id() == old(self).root_id(),
            final(self).next_id() == old(self).next_id(),
            is_text_edit(
                old(self)@,
                id,
                final(self)@,
                spliced_text(text_of_spec(old(self)@[id].spec), char_index as int, value@),
            ),
    {
        let updated = match self.node_of(id) {
            NodeSpec::Plain(text) => {
                let s = text.as_str();
                let len = s.unicode_len();
                let k = if char_index < len { char_index } else { len };
                let mut new_text = String::from_str(s.substring_char(0, k));
                new_text.append(value);
                new_text.append(s.substring_char(k, len));
                proof {
                    assert(new_text@ =~= spliced_text(s@, char_index as int, value@));
                }
                Some(new_text)
            },
            _ => None,
        };
        match updated {
            Some(new_text) => {
                self.write_spec(id, NodeSpec::Plain(new_text));
            },
            None => {},
        }
    }

    /// Removes `char_count` characters from the text of a `Plain` node,
    /// starting at `char_index` (fewer when the text ends first). Does
    /// nothing when the count is zero, when the index lies past the text, or
    /// on any other node.
    pub fn remove_text(&mut self, id: ContentId, char_index: usize, char_count: usize)
        requires
            old(self).wf(),
            old(self)@.contains_key(id),
        ensures
            final(self).wf(),
            final(self).root_id() == old(self).root_id(),
            final(self).next_id() == old(self).next_id(),
            is_text_edit(
                old(self)@,
                id,
                final(self)@,
                cut_text(text_of_spec(old(self)@[id].spec), char_index as int, char_count as int),
            ),
    {
        let updated = match self.node_of(id) {
            NodeSpec::Plain(text) => {
                let s = text.as_str();
                let len = s.unicode_len();
                if char_index >= len || char_count == 0 {
                    proof {
                        assert(self@.insert(id, with_spec(self@[id], self@[id].spec)) =~= self@);
                    }
                    None
                } else {
                    let end = if char_count < len - char_index { char_index + char_count } else { len };
                    let mut new_text = String::from_str(s.substring_char(0, char_index));
                    new_text.append(s.substring_char(end, len));
                    proof {
                        assert(new_text@ =~= cut_text(s@, char_index as int, char_count as int));
                    }
                    Some(new_text)
                }
            },
            _ => None,
        };
        match updated {
            Some(new_text) => {
                self.write_spec(id, NodeSpec::Plain(new_text));
            },
            None => {},
        }
    }
}

/// `value` inserted into `text` before the character at index `at`, or at
/// the end when `at` lies past it.
/// `after` is `t` with the text of node `id` replaced by `text` when it is a
/// text node, and `t` itself otherwise.
pub open spec fn is_text_edit(
    t: Map<ContentId, TreeNode<ContentId>>,
    id: ContentId,
    after: Map<ContentId, TreeNode<ContentId>>,
    text: Seq<char>,
) -> bool {
    if kind_of_spec(t[id].spec) == ContentKind::Plain {
        &&& after == t.insert(id, with_spec(t[id], after[id].spec))
        &&& kind_of_spec(after[id].spec) == ContentKind::Plain
        &&& text_of_spec(after[id].spec) == text
    } else {
        after == t
    }
}

/// `text` with `value` inserted before character `at` (at the end when `at`
/// lies past it).
pub open spec fn spliced_text(text: Seq<char>, at: int, value: Seq<char>) -> Seq<char> {
    let k = if at < text.len() { at } else { text.len() as int };
    text.take(k) + value + text.skip(k)
}

/// `text` without the `count` characters that start at index `at` (fewer
/// when the text ends first), or unchanged when `at` lies past its end or
/// `count` is zero.
pub open spec fn cut_text(text: Seq<char>, at: int, count: int) -> Seq<char> {
    if at >= text.len() || count == 0 {
        text
    } else {
        let end = if at + count < text.len() { at + count } else { text.len() as int };
        text.take(at) + text.skip(end)
    }
}

} // verus!
