//! The two collections behind the in-memory backend: an `indextree` arena
//! that holds the nodes and their links, and a `bimap` index between content
//! identifiers and arena node identifiers. Each is modelled by what it holds
//! and reached through small wrappers whose contracts state the effect of
//! the one call they make.
use vstd::prelude::*;

use bimap::BiHashMap;
use indextree::{Arena, NodeId};

use crate::forest::{
    forest_append, forest_detach, forest_insert_before, forest_remove_subtree, is_desc_or_self,
    with_spec, TreeNode,
};
use crate::kind::NodeSpec;

verus! {

#[verifier::external_type_specification]
#[verifier::external_body]
#[verifier::reject_recursive_types(T)]
pub struct ExArena<T>(Arena<T>);

#[verifier::external_type_specification]
#[verifier::external_body]
pub struct ExNodeId(NodeId);

#[verifier::external_type_specification]
#[verifier::external_body]
#[verifier::reject_recursive_types(L)]
#[verifier::reject_recursive_types(R)]
#[verifier::reject_recursive_types(LS)]
#[verifier::reject_recursive_types(RS)]
pub struct ExBiHashMap<L, R, LS, RS>(BiHashMap<L, R, LS, RS>);

/// The live nodes of an arena: for each node identifier, its data, its
/// parent and its children in order.
pub uninterp spec fn arena_nodes(arena: Arena<NodeSpec>) -> Map<NodeId, TreeNode<NodeId>>;

/// The pairs held by an index, from left value to right value.
pub uninterp spec fn index_pairs(index: BiHashMap<u64, NodeId>) -> Map<u64, NodeId>;

/// `indextree::Arena::new`: an arena without nodes.
#[verifier::external_body]
pub(crate) fn arena_new() -> (a: Arena<NodeSpec>)
    ensures
        arena_nodes(a).dom().is_empty(),
{
    Arena::new()
}

/// `indextree::Arena::new_node`: a new live node, detached and without
/// children, under an identifier that no live node has.
#[verifier::external_body]
pub(crate) fn arena_new_node(arena: &mut Arena<NodeSpec>, data: NodeSpec) -> (id: NodeId)
    ensures
        !arena_nodes(*old(arena)).contains_key(id),
        arena_nodes(*final(arena)) == arena_nodes(*old(arena)).insert(
            id,
            TreeNode { spec: data, parent: None, children: Seq::empty() },
        ),
{
    arena.new_node(data)
}

/// `indextree::Arena::get` then `Node::get`: the data of a live node.
#[verifier::external_body]
pub(crate) fn arena_data(arena: &Arena<NodeSpec>, id: NodeId) -> (d: &NodeSpec)
    requires
        arena_nodes(*arena).contains_key(id),
    ensures
        *d == arena_nodes(*arena)[id].spec,
{
    arena.get(id).unwrap().get()
}

/// `indextree::Arena::get_mut` then `Node::get_mut`: replaces the data of a
/// live node, its links unchanged.
#[verifier::external_body]
pub(crate) fn arena_set_data(arena: &mut Arena<NodeSpec>, id: NodeId, data: NodeSpec)
    requires
        arena_nodes(*old(arena)).contains_key(id),
    ensures
        arena_nodes(*final(arena)) == arena_nodes(*old(arena)).insert(
            id,
            with_spec(arena_nodes(*old(arena))[id], data),
        ),
{
    *arena.get_mut(id).unwrap().get_mut() = data;
}

/// `indextree::Arena::get` then `Node::parent`: the parent of a live node.
#[verifier::external_body]
pub(crate) fn arena_parent(arena: &Arena<NodeSpec>, id: NodeId) -> (p: Option<NodeId>)
    requires
        arena_nodes(*arena).contains_key(id),
    ensures
        p == arena_nodes(*arena)[id].parent,
{
    arena.get(id).unwrap().parent()
}

/// `indextree::NodeId::children`, collected: the children of a live node,
/// in order.
#[verifier::external_body]
pub(crate) fn arena_children(arena: &Arena<NodeSpec>, id: NodeId) -> (c: Vec<NodeId>)
    requires
        arena_nodes(*arena).contains_key(id),
    ensures
        c@ == arena_nodes(*arena)[id].children,
{
    id.children(arena).collect()
}

/// `indextree::NodeId::insert_before`: `new_sibling` leaves its place and
/// becomes the sibling that immediately precedes `at`. The call panics when
/// `new_sibling` is `at` or one of its ancestors; `at` must have a parent
/// here.
#[verifier::external_body]
pub(crate) fn arena_insert_before(arena: &mut Arena<NodeSpec>, at: NodeId, new_sibling: NodeId)
    requires
        arena_nodes(*old(arena)).contains_key(at),
        arena_nodes(*old(arena)).contains_key(new_sibling),
        arena_nodes(*old(arena))[at].parent is Some,
        !is_desc_or_self(arena_nodes(*old(arena)), at, new_sibling),
    ensures
        arena_nodes(*final(arena)) == forest_insert_before(arena_nodes(*old(arena)), at, new_sibling),
{
    at.insert_before(new_sibling, arena);
}

/// `indextree::NodeId::append`: `new_child` leaves its place and becomes the
/// last child of `parent`. The call panics when `new_child` is `parent` or
/// one of its ancestors.
#[verifier::external_body]
pub(crate) fn arena_append(arena: &mut Arena<NodeSpec>, parent: NodeId, new_child: NodeId)
    requires
        arena_nodes(*old(arena)).contains_key(parent),
        arena_nodes(*old(arena)).contains_key(new_child),
        !is_desc_or_self(arena_nodes(*old(arena)), parent, new_child),
    ensures
        arena_nodes(*final(arena)) == forest_append(arena_nodes(*old(arena)), parent, new_child),
{
    parent.append(new_child, arena);
}

/// `indextree::NodeId::detach`: the node leaves its parent, its children
/// stay with it.
#[verifier::external_body]
pub(crate) fn arena_detach(arena: &mut Arena<NodeSpec>, id: NodeId)
    requires
        arena_nodes(*old(arena)).contains_key(id),
    ensures
        arena_nodes(*final(arena)) == forest_detach(arena_nodes(*old(arena)), id),
{
    id.detach(arena);
}

/// `indextree::NodeId::descendants`, collected: the node and all its
/// descendants, each once. The call walks them in pre-order; that order is
/// not stated here.
#[verifier::external_body]
pub(crate) fn arena_descendants(arena: &Arena<NodeSpec>, id: NodeId) -> (d: Vec<NodeId>)
    requires
        arena_nodes(*arena).contains_key(id),
    ensures
        d@.no_duplicates(),
        forall|a: NodeId| d@.contains(a) <==> is_desc_or_self(arena_nodes(*arena), a, id),
{
    id.descendants(arena).collect()
}

/// `indextree::NodeId::remove_subtree`: the node leaves its parent, then it
/// and all its descendants are removed from the arena.
#[verifier::external_body]
pub(crate) fn arena_remove_subtree(arena: &mut Arena<NodeSpec>, id: NodeId)
    requires
        arena_nodes(*old(arena)).contains_key(id),
    ensures
        arena_nodes(*final(arena)) == forest_remove_subtree(arena_nodes(*old(arena)), id),
{
    id.remove_subtree(arena);
}

/// `bimap::BiHashMap::new`: an empty index.
#[verifier::external_body]
pub(crate) fn index_new() -> (b: BiHashMap<u64, NodeId>)
    ensures
        index_pairs(b).dom().is_empty(),
{
    BiHashMap::new()
}

/// `bimap::BiHashMap::insert`, for a left value and a right value that are
/// both absent from the index: the pair is added.
#[verifier::external_body]
pub(crate) fn index_insert(b: &mut BiHashMap<u64, NodeId>, left: u64, right: NodeId)
    requires
        !index_pairs(*old(b)).contains_key(left),
        forall|l: u64| #[trigger] index_pairs(*old(b)).contains_key(l) ==> index_pairs(*old(b))[l] != right,
    ensures
        index_pairs(*final(b)) == index_pairs(*old(b)).insert(left, right),
{
    b.insert(left, right);
}

/// `bimap::BiHashMap::get_by_left`: the right value paired with `left`.
#[verifier::external_body]
pub(crate) fn index_get_by_left(b: &BiHashMap<u64, NodeId>, left: u64) -> (r: Option<NodeId>)
    ensures
        r == (if index_pairs(*b).contains_key(left) {
            Some(index_pairs(*b)[left])
        } else {
            None
        }),
{
    b.get_by_left(&left).copied()
}

/// `bimap::BiHashMap::get_by_right`: the left value paired with `right`.
#[verifier::external_body]
pub(crate) fn index_get_by_right(b: &BiHashMap<u64, NodeId>, right: NodeId) -> (found: Option<u64>)
    ensures
        found is None ==> forall|k: u64| #[trigger] index_pairs(*b).contains_key(k) ==> index_pairs(*b)[k] != right,
        found matches Some(k) ==> index_pairs(*b).contains_key(k) && index_pairs(*b)[k] == right,
{
    b.get_by_right(&right).copied()
}

/// `bimap::BiHashMap::remove_by_left`: the pair whose left value is `left`
/// is removed.
#[verifier::external_body]
pub(crate) fn index_remove_by_left(b: &mut BiHashMap<u64, NodeId>, left: u64)
    ensures
        index_pairs(*final(b)) == index_pairs(*old(b)).remove(left),
{
    b.remove_by_left(&left);
}

/// `bimap::BiHashMap::left_values`: every left value of the map, each
/// once, in the order in which the map's hashing lays them out (which the
/// contract leaves open).
#[verifier::external_body]
pub(crate) fn index_left_values(b: &BiHashMap<u64, NodeId>) -> (r: Vec<u64>)
    ensures
        r@.no_duplicates(),
        forall|l: u64| #[trigger] r@.contains(l) <==> index_pairs(*b).contains_key(l),
{
    b.left_values().copied().collect()
}

} // verus!
