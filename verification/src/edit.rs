//! Editing a stored document through a snapshot: an operation runs on an
//! in-memory copy of the document, and what comes out is the list of node
//! records to write back and of nodes to delete. A backend that stores the
//! tree elsewhere (such as a shared document) reads a snapshot, asks for the
//! edits, and applies them.
use vstd::prelude::*;

use crate::direct::DirectContent;
use crate::error::ContentError;
use crate::forest::TreeNode;
use crate::id::ContentId;
use crate::forest::is_desc_or_self;
use crate::kind::{has_ascending_path, is_default_node, is_shortest_ascending_path, kind_of_spec, ContentKind, NodeSpec};
use crate::nav::{leaves_under, Tree};
use crate::write::{
    content_appended, is_merge_of, merge_accepted, merges_children, plain_leaf_run, split_outcome, wrapped,
    wrapper_id,
};

verus! {

/// One change to a stored tree.
#[derive(Debug)]
pub enum Edit {
    /// Node `id` now has this specification, parent and children; it is
    /// created when absent.
    Put { id: ContentId, spec: NodeSpec, parent: Option<ContentId>, children: Vec<ContentId> },
    /// Node `id` is deleted.
    Delete(ContentId),
}

/// `t` once `e` is applied.
pub open spec fn apply_edit(t: Tree, e: Edit) -> Tree {
    match e {
        Edit::Put { id, spec, parent, children } => t.insert(id, TreeNode { spec, parent, children: children@ }),
        Edit::Delete(id) => t.remove(id),
    }
}

/// `t` once the edits of `es` are applied, in order.
pub open spec fn apply_edits(t: Tree, es: Seq<Edit>) -> Tree
    decreases es.len(),
{
    if es.len() == 0 {
        t
    } else {
        apply_edit(apply_edits(t, es.drop_last()), es.last())
    }
}

/// A node as it was read from the snapshot.
struct Record {
    spec: NodeSpec,
    parent: Option<ContentId>,
    children: Vec<ContentId>,
}

spec fn record_is(r: Record, n: TreeNode<ContentId>) -> bool {
    r.spec == n.spec && r.parent == n.parent && r.children@ == n.children
}

/// `t` with the nodes of `s` as `a` has them.
spec fn overlaid(t: Tree, a: Tree, s: Seq<ContentId>) -> Tree {
    Map::new(|x: ContentId| t.contains_key(x) || s.contains(x), |x: ContentId| if s.contains(x) { a[x] } else { t[x] })
}

/// `a` with the nodes of `t` that are not in `a` and not in `s`.
spec fn pruned(t: Tree, a: Tree, s: Seq<ContentId>) -> Tree {
    Map::new(
        |x: ContentId| a.contains_key(x) || (t.contains_key(x) && !s.contains(x)),
        |x: ContentId| if a.contains_key(x) { a[x] } else { t[x] },
    )
}

proof fn lemma_push_contains(s: Seq<ContentId>, x: ContentId)
    ensures
        forall|y: ContentId| #[trigger] s.push(x).contains(y) <==> s.contains(y) || y == x,
{
    assert forall|y: ContentId| #[trigger] s.push(x).contains(y) <==> s.contains(y) || y == x by {
        if s.contains(y) {
            let j = choose|j: int| 0 <= j < s.len() && s[j] == y;
            assert(s.push(x)[j] == y);
        }
        if y == x {
            assert(s.push(x)[s.len() as int] == y);
        }
        if s.push(x).contains(y) && y != x {
            let j = choose|j: int| 0 <= j < s.len() + 1 && s.push(x)[j] == y;
            assert(s[j] == y);
        }
    }
}

proof fn lemma_apply_push(t: Tree, es: Seq<Edit>, e: Edit)
    ensures
        apply_edits(t, es.push(e)) == apply_edit(apply_edits(t, es), e),
{
    assert(es.push(e).drop_last() =~= es);
}

/// The position of `x` in `ids`, if it occurs.
fn position_of(ids: &Vec<ContentId>, x: ContentId) -> (r: Option<usize>)
    ensures
        r matches Some(j) ==> j < ids@.len() && ids@[j as int] == x,
        r is None ==> !ids@.contains(x),
{
    let mut j: usize = 0;
    while j < ids.len()
        invariant
            0 <= j <= ids@.len(),
            forall|k: int| 0 <= k < j ==> ids@[k] != x,
        decreases ids@.len() - j,
    {
        if ids[j] == x {
            return Some(j);
        }
        j = j + 1;
    }
    None
}

/// Whether two lists of identifiers are the same.
fn same_ids(a: &Vec<ContentId>, b: &Vec<ContentId>) -> (r: bool)
    ensures
        r == (a@ == b@),
{
    if a.len() != b.len() {
        return false;
    }
    let mut j: usize = 0;
    while j < a.len()
        invariant
            0 <= j <= a@.len(),
            a@.len() == b@.len(),
            forall|k: int| 0 <= k < j ==> a@[k] == b@[k],
        decreases a@.len() - j,
    {
        if a[j] != b[j] {
            return false;
        }
        j = j + 1;
    }
    assert(a@ =~= b@);
    true
}

/// Whether two specifications are known to be the same: decided for every
/// kind but text, whose nodes are always taken as changed.
fn same_spec(a: &NodeSpec, b: &NodeSpec) -> (r: bool)
    ensures
        r ==> *a == *b,
{
    match (a, b) {
        (NodeSpec::Root, NodeSpec::Root) => true,
        (NodeSpec::Paragraph(_), NodeSpec::Paragraph(_)) => true,
        (NodeSpec::Span(x), NodeSpec::Span(y)) => *x == *y,
        (NodeSpec::List(x), NodeSpec::List(y)) => *x == *y,
        (NodeSpec::ListItem(x), NodeSpec::ListItem(y)) => *x == *y,
        (NodeSpec::Table(_), NodeSpec::Table(_)) => true,
        (NodeSpec::Row(_), NodeSpec::Row(_)) => true,
        (NodeSpec::Cell(_), NodeSpec::Cell(_)) => true,
        _ => false,
    }
}

/// The records of the nodes `ids` of `c`, in the same order.
fn records_of(c: &DirectContent, ids: &Vec<ContentId>) -> (r: Vec<Record>)
    requires
        c.wf(),
        forall|i: int| 0 <= i < ids@.len() ==> c@.contains_key(#[trigger] ids@[i]),
    ensures
        r@.len() == ids@.len(),
        forall|i: int| 0 <= i < ids@.len() ==> record_is(#[trigger] r@[i], c@[ids@[i]]),
{
    let mut r: Vec<Record> = Vec::new();
    let mut i: usize = 0;
    while i < ids.len()
        invariant
            c.wf(),
            0 <= i <= ids@.len(),
            forall|k: int| 0 <= k < ids@.len() ==> c@.contains_key(#[trigger] ids@[k]),
            r@.len() == i,
            forall|k: int| 0 <= k < i ==> record_is(#[trigger] r@[k], c@[ids@[k]]),
        decreases ids@.len() - i,
    {
        let id = ids[i];
        assert(c@.contains_key(ids@[i as int]));
        r.push(Record { spec: c.spec_of(id), parent: c.parent_of(id), children: c.children_of(id) });
        i = i + 1;
    }
    r
}

/// The edits that turn the tree `t`, whose nodes `before_ids` have the
/// records `before`, into `after`: a record for each node that is new or
/// whose parent, children or (for the nodes of `respec`) specification
/// changed, then a deletion for each node that is gone.
fn edits_between(
    before_ids: &Vec<ContentId>,
    before: &Vec<Record>,
    Ghost(t): Ghost<Tree>,
    after: &DirectContent,
    respec: &Vec<ContentId>,
) -> (es: Vec<Edit>)
    requires
        after.wf(),
        forall|c: ContentId| #[trigger] before_ids@.contains(c) <==> t.contains_key(c),
        before@.len() == before_ids@.len(),
        forall|i: int| 0 <= i < before@.len() ==> record_is(#[trigger] before@[i], t[before_ids@[i]]),
        forall|x: ContentId|
            #[trigger] t.contains_key(x) && after@.contains_key(x) && !respec@.contains(x) ==> after@[x].spec == t[x].spec,
    ensures
        apply_edits(t, es@) == after@,
{
    let a = Ghost(after@);
    let ids_a = after.node_ids();
    let mut es: Vec<Edit> = Vec::new();
    let mut i: usize = 0;
    proof {
        assert(overlaid(t, a@, ids_a@.take(0)) =~= t);
    }
    while i < ids_a.len()
        invariant
            after.wf(),
            a@ == after@,
            0 <= i <= ids_a@.len(),
            forall|c: ContentId| #[trigger] ids_a@.contains(c) <==> a@.contains_key(c),
            forall|c: ContentId| #[trigger] before_ids@.contains(c) <==> t.contains_key(c),
            before@.len() == before_ids@.len(),
            forall|k: int| 0 <= k < before@.len() ==> record_is(#[trigger] before@[k], t[before_ids@[k]]),
            forall|x: ContentId|
                #[trigger] t.contains_key(x) && a@.contains_key(x) && !respec@.contains(x) ==> a@[x].spec == t[x].spec,
            apply_edits(t, es@) == overlaid(t, a@, ids_a@.take(i as int)),
        decreases ids_a@.len() - i,
    {
        let x = ids_a[i];
        assert(ids_a@.contains(x));
        let ghost cur = apply_edits(t, es@);
        let ghost next = overlaid(t, a@, ids_a@.take(i + 1));
        assert(ids_a@.take(i + 1) =~= ids_a@.take(i as int).push(x));
        proof {
            lemma_push_contains(ids_a@.take(i as int), x);
        }
        let spec = after.spec_of(x);
        let parent = after.parent_of(x);
        let children = after.children_of(x);
        let unchanged = match position_of(before_ids, x) {
            Some(j) => {
                let r = &before[j];
                let same_spec = match position_of(respec, x) {
                    Some(_) => same_spec(&r.spec, &spec),
                    None => true,
                };
                same_spec && r.parent == parent && same_ids(&r.children, &children)
            },
            None => false,
        };
        if unchanged {
            proof {
                let j = choose|j: int| 0 <= j < before_ids@.len() && before_ids@[j] == x;
                assert(before_ids@.contains(x));
                assert(t.contains_key(x));
                assert(t[x] == a@[x]);
                assert(cur =~= next);
            }
        } else {
            let ghost node = TreeNode { spec, parent, children: children@ };
            assert(node == a@[x]);
            let e = Edit::Put { id: x, spec, parent, children };
            proof {
                lemma_apply_push(t, es@, e);
                assert(cur.insert(x, node) =~= next);
            }
            es.push(e);
        }
        i = i + 1;
    }
    assert(ids_a@.take(ids_a@.len() as int) =~= ids_a@);
    let mut k: usize = 0;
    proof {
        assert(overlaid(t, a@, ids_a@) =~= pruned(t, a@, before_ids@.take(0)));
    }
    while k < before_ids.len()
        invariant
            after.wf(),
            a@ == after@,
            0 <= k <= before_ids@.len(),
            forall|c: ContentId| #[trigger] before_ids@.contains(c) <==> t.contains_key(c),
            apply_edits(t, es@) == pruned(t, a@, before_ids@.take(k as int)),
        decreases before_ids@.len() - k,
    {
        let x = before_ids[k];
        let ghost cur = apply_edits(t, es@);
        let ghost next = pruned(t, a@, before_ids@.take(k + 1));
        assert(before_ids@.take(k + 1) =~= before_ids@.take(k as int).push(x));
        proof {
            lemma_push_contains(before_ids@.take(k as int), x);
            assert(before_ids@.contains(x));
        }
        if after.contains(x) {
            assert(cur =~= next);
        } else {
            let e = Edit::Delete(x);
            proof {
                lemma_apply_push(t, es@, e);
                assert(cur.remove(x) =~= next);
            }
            es.push(e);
        }
        k = k + 1;
    }
    proof {
        assert(before_ids@.take(before_ids@.len() as int) =~= before_ids@);
        assert(pruned(t, a@, before_ids@) =~= a@);
    }
    es
}

/// The nodes of `c` and their records, before an operation changes it.
fn snapshot_records(c: &DirectContent) -> (r: (Vec<ContentId>, Vec<Record>))
    requires
        c.wf(),
    ensures
        forall|x: ContentId| #[trigger] r.0@.contains(x) <==> c@.contains_key(x),
        r.1@.len() == r.0@.len(),
        forall|i: int| 0 <= i < r.1@.len() ==> record_is(#[trigger] r.1@[i], c@[r.0@[i]]),
{
    let ids = c.node_ids();
    assert forall|i: int| 0 <= i < ids@.len() implies c@.contains_key(#[trigger] ids@[i]) by {
        assert(ids@.contains(ids@[i]));
    }
    let records = records_of(c, &ids);
    (ids, records)
}

/// The edits that merge `source` into `target` in the document of which
/// `snapshot` is a copy (see `DirectContent::merge_into`): on success,
/// the document once they are applied is the merge; a refused merge gives
/// the same error and no edit.
pub fn merge_into_edits(snapshot: DirectContent, target: ContentId, source: ContentId) -> (r: Result<
    Vec<Edit>,
    ContentError,
>)
    requires
        snapshot.wf(),
        snapshot@.contains_key(target),
        snapshot@.contains_key(source),
        merges_children(kind_of_spec(snapshot@[target].spec), kind_of_spec(snapshot@[source].spec))
            ==> target == source || !is_desc_or_self(snapshot@, target, source),
    ensures
        r is Ok <==> merge_accepted(snapshot@, target, source),
        r matches Ok(es) ==> is_merge_of(snapshot@, target, source, apply_edits(snapshot@, es@)),
        !merge_accepted(snapshot@, target, source) ==> r == Err::<Vec<Edit>, ContentError>(
            ContentError::IncompatibleMerge {
                target: kind_of_spec(snapshot@[target].spec),
                source: kind_of_spec(snapshot@[source].spec),
            },
        ),
{
    let ghost t = snapshot@;
    let (ids, records) = snapshot_records(&snapshot);
    let mut after = snapshot;
    match after.merge_into(target, source) {
        Ok(()) => {
            let mut respec: Vec<ContentId> = Vec::new();
            respec.push(target);
            proof {
                assert forall|x: ContentId| #[trigger] t.contains_key(x) && after@.contains_key(x) && !respec@.contains(
                    x,
                ) implies after@[x].spec == t[x].spec by {
                    assert(respec@[0] == target);
                }
            }
            Ok(edits_between(&ids, &records, Ghost(t), &after, &respec))
        },
        Err(e) => Err(e),
    }
}

/// The edits that cut node `id` in two at `at` in the document of which
/// `snapshot` is a copy (see `DirectContent::split_node`), with that
/// operation's result: the new node is numbered from the snapshot's
/// counter, and the edits hold the cut even when `id` has no parent.
pub fn split_node_edits(snapshot: DirectContent, id: ContentId, at: usize) -> (r: (
    Result<ContentId, ContentError>,
    Vec<Edit>,
))
    requires
        snapshot.wf(),
        snapshot@.contains_key(id),
        snapshot.next_id() < u64::MAX,
    ensures
        split_outcome(
            snapshot@,
            id,
            at as int,
            ContentId(snapshot.next_id() as u64),
            apply_edits(snapshot@, r.1@),
            r.0 is Ok,
        ),
        r.0 is Ok ==> r.0 == Ok::<ContentId, ContentError>(ContentId(snapshot.next_id() as u64)),
        r.0 is Err ==> r.0 == Err::<ContentId, ContentError>(ContentError::NoParent(id)),
{
    let ghost t = snapshot@;
    let (ids, records) = snapshot_records(&snapshot);
    let mut after = snapshot;
    let r = after.split_node(id, at);
    let mut respec: Vec<ContentId> = Vec::new();
    respec.push(id);
    proof {
        assert forall|x: ContentId| #[trigger] t.contains_key(x) && after@.contains_key(x) && !respec@.contains(x)
            implies after@[x].spec == t[x].spec by {
            assert(respec@[0] == id);
        }
    }
    let es = edits_between(&ids, &records, Ghost(t), &after, &respec);
    (r, es)
}

/// The edits that place, between `target` and `descendant`, the nodes of
/// the shortest chain of kinds that the grammar asks for, in the document
/// of which `snapshot` is a copy (see
/// `DirectContent::ensure_compatible_node_for`), with that operation's
/// result; new nodes are numbered from the snapshot's counter.
pub fn ensure_compatible_node_for_edits(snapshot: DirectContent, target: ContentId, descendant: ContentId) -> (r: (
    Result<ContentId, ContentError>,
    Vec<Edit>,
))
    requires
        snapshot.wf(),
        snapshot@.contains_key(target),
        snapshot@.contains_key(descendant),
        snapshot.next_id() + 9 <= u64::MAX,
    ensures
        ({
            let t = snapshot@;
            let after = apply_edits(t, r.1@);
            let tk = kind_of_spec(t[target].spec);
            let dk = kind_of_spec(t[descendant].spec);
            let first = snapshot.next_id();
            if !has_ascending_path(dk, tk, Seq::empty()) {
                &&& r.0 == Err::<ContentId, ContentError>(ContentError::IncompatibleChild { child: dk, parent: tk })
                &&& after == t
            } else {
                exists|p: Seq<ContentKind>|
                    #[trigger] is_shortest_ascending_path(p.push(dk), dk, tk, Seq::empty()) && {
                        &&& after == wrapped(t, descendant, p.len(), first, after)
                        &&& forall|j: nat|
                            j < p.len() ==> is_default_node(p[p.len() - 1 - j], #[trigger] after[wrapper_id(first, j)].spec)
                        &&& r.0 == Ok::<ContentId, ContentError>(
                            if p.len() == 0 {
                                descendant
                            } else {
                                wrapper_id(first, (p.len() - 1) as nat)
                            },
                        )
                    }
            }
        }),
{
    let ghost t = snapshot@;
    let (ids, records) = snapshot_records(&snapshot);
    let mut after = snapshot;
    let r = after.ensure_compatible_node_for(target, descendant);
    let respec: Vec<ContentId> = Vec::new();
    let es = edits_between(&ids, &records, Ghost(t), &after, &respec);
    (r, es)
}

/// The edits that make every leaf of the document of which `snapshot` is
/// a copy a `Plain` node (see `DirectContent::ensure_only_plain_leafs`);
/// new nodes are numbered from the snapshot's counter.
pub fn ensure_only_plain_leafs_edits(snapshot: DirectContent) -> (es: Vec<Edit>)
    requires
        snapshot.wf(),
        snapshot@.contains_key(snapshot.root_id()),
        10 * (snapshot.next_id() + 1) <= u64::MAX,
    ensures
        exists|ts: Seq<Tree>, ns: Seq<nat>|
            #[trigger] plain_leaf_run(
                snapshot@,
                leaves_under(snapshot@, snapshot.root_id()),
                snapshot.next_id(),
                ts,
                ns,
            ) && ts.last() == apply_edits(snapshot@, es@),
        forall|x: ContentId|
            #[trigger] apply_edits(snapshot@, es@).contains_key(x) && is_desc_or_self(
                apply_edits(snapshot@, es@),
                x,
                snapshot.root_id(),
            ) && apply_edits(snapshot@, es@)[x].children.len() == 0 ==> kind_of_spec(
                apply_edits(snapshot@, es@)[x].spec,
            ) == ContentKind::Plain,
{
    let ghost t = snapshot@;
    let (ids, records) = snapshot_records(&snapshot);
    let mut after = snapshot;
    let _ = after.ensure_only_plain_leafs();
    let respec: Vec<ContentId> = Vec::new();
    edits_between(&ids, &records, Ghost(t), &after, &respec)
}

/// The edits that create a node from `spec` and attach it under `parent`
/// in the document of which `snapshot` is a copy (see
/// `DirectContent::append_content`), with that operation's result; the new
/// node takes the snapshot's counter, the nodes made after it the next
/// values. A node whose text is among the snapshot's is written again.
pub fn append_content_edits<N>(snapshot: DirectContent, parent: ContentId, spec: N) -> (r: (
    Result<ContentId, ContentError>,
    Vec<Edit>,
)) where NodeSpec: From<N>
    requires
        snapshot.wf(),
        snapshot@.contains_key(parent),
        snapshot@.contains_key(snapshot.root_id()),
        10 * (snapshot.next_id() + 10) <= u64::MAX,
    ensures
        ({
            let t = snapshot@;
            let after = apply_edits(t, r.1@);
            let c = ContentId(snapshot.next_id() as u64);
            let ck = kind_of_spec(after[c].spec);
            let pk = kind_of_spec(t[parent].spec);
            &&& !t.contains_key(c)
            &&& after.contains_key(c)
            &&& call_ensures(NodeSpec::from, (spec,), after[c].spec)
            &&& !has_ascending_path(ck, pk, Seq::empty()) ==> {
                &&& r.0 == Err::<ContentId, ContentError>(ContentError::IncompatibleChild { child: ck, parent: pk })
                &&& after == t.insert(c, TreeNode { spec: after[c].spec, parent: None, children: Seq::empty() })
            }
            &&& has_ascending_path(ck, pk, Seq::empty()) ==> {
                &&& r.0 == Ok::<ContentId, ContentError>(c)
                &&& exists|p: Seq<ContentKind>, n: nat|
                    #![trigger content_appended(t, parent, c, snapshot.root_id(), p, after, n)]
                    is_shortest_ascending_path(p.push(ck), ck, pk, Seq::empty())
                        && content_appended(t, parent, c, snapshot.root_id(), p, after, n)
                &&& forall|x: ContentId|
                    #[trigger] after.contains_key(x) && is_desc_or_self(after, x, snapshot.root_id())
                        && after[x].children.len() == 0 ==> kind_of_spec(after[x].spec) == ContentKind::Plain
            }
        }),
{
    let ghost t = snapshot@;
    let (ids, records) = snapshot_records(&snapshot);
    let mut after = snapshot;
    let r = after.append_content(parent, spec);
    let respec = ids.clone();
    let es = edits_between(&ids, &records, Ghost(t), &after, &respec);
    (r, es)
}

} // verus!
