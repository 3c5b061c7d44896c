//! Merging two leaves that may sit in different blocks: the leaves are
//! merged, then their ancestors level by level, as long as they differ.
use vstd::prelude::*;

use crate::direct::DirectContent;
use crate::forest::{ancestor_at, forest_linked, forest_ranked, is_desc_or_self};
use crate::id::ContentId;
use crate::kind::kind_of_spec;
use crate::nav::Tree;
use crate::write::{is_merge_of, merge_accepted, merge_frame};

verus! {

/// The node `k` parent links above `n` (`n` itself for `k = 0`).
pub open spec fn level_node(t: Tree, n: ContentId, k: nat) -> ContentId {
    ancestor_at(t, n, k).unwrap()
}

/// After the merge at level `j`, the walk goes on to level `j + 1`: that
/// merge is accepted and the nodes one level up both exist and differ.
pub open spec fn level_continues(t: Tree, target: ContentId, source: ContentId, j: nat) -> bool {
    &&& merge_accepted(t, level_node(t, target, j), level_node(t, source, j))
    &&& ancestor_at(t, target, j + 1) is Some
    &&& ancestor_at(t, source, j + 1) is Some
    &&& ancestor_at(t, target, j + 1) != ancestor_at(t, source, j + 1)
}

/// The walk reaches level `k`.
pub open spec fn merge_reaches(t: Tree, target: ContentId, source: ContentId, k: nat) -> bool {
    forall|j: nat| j < k ==> #[trigger] level_continues(t, target, source, j)
}

/// At no level that the walk reaches with an accepted merge is the node on
/// the side of `target` inside the subtree of the node on the side of
/// `source`: no merge of the walk moves or deletes an ancestor of its own
/// target.
pub open spec fn merge_leaves_safe(t: Tree, target: ContentId, source: ContentId) -> bool {
    forall|k: nat|
        #[trigger] merge_reaches(t, target, source, k) && merge_accepted(
            t,
            level_node(t, target, k),
            level_node(t, source, k),
        ) && level_node(t, target, k) != level_node(t, source, k) ==> !is_desc_or_self(
            t,
            level_node(t, target, k),
            level_node(t, source, k),
        )
}

/// `ts` are the trees of the walk from `t`: each one is the previous one
/// after the merge of the next level (level 0: `source` into `target`;
/// level `j`: the `j`-th ancestor of `source` into that of `target`), and
/// the walk stops after the first level that does not continue.
pub open spec fn merge_leaves_run(t: Tree, target: ContentId, source: ContentId, ts: Seq<Tree>) -> bool {
    &&& ts.len() >= 2
    &&& ts[0] == t
    &&& forall|j: int|
        0 <= j < ts.len() - 1 ==> #[trigger] is_merge_of(
            ts[j],
            level_node(t, target, j as nat),
            level_node(t, source, j as nat),
            ts[j + 1],
        )
    &&& forall|j: int| 0 <= j < ts.len() - 2 ==> #[trigger] level_continues(t, target, source, j as nat)
    &&& !level_continues(t, target, source, (ts.len() - 2) as nat)
}

/// A node whose chain of parents stays clear of the subtree of `s` keeps
/// that chain through a merge of `s`.
proof fn lemma_chain_kept(b: Tree, b2: Tree, target: ContentId, s: ContentId, x: ContentId)
    requires
        forest_linked(b),
        b.contains_key(x),
        merge_frame(b, target, s, b2),
        forall|j: nat| #[trigger] ancestor_at(b, x, j) is Some ==> !is_desc_or_self(b, ancestor_at(b, x, j).unwrap(), s),
    ensures
        b2.contains_key(x),
        forall|i: nat| #[trigger] ancestor_at(b2, x, i) == ancestor_at(b, x, i),
{
    assert forall|j: nat| #[trigger] ancestor_at(b, x, j) is Some implies ({
        let y = ancestor_at(b, x, j).unwrap();
        b.contains_key(y) == b2.contains_key(y) && (b.contains_key(y) ==> b2[y].parent == b[y].parent)
    }) by {
        crate::forest::lemma_ancestor_in(b, x, j);
        let y = ancestor_at(b, x, j).unwrap();
        assert(!is_desc_or_self(b, y, s));
        assert(ancestor_at(b, y, 0) == Some(y));
        if b[y].parent == Some(s) {
            crate::forest::lemma_ancestor_one(b, y);
        }
    }
    assert(ancestor_at(b, x, 0) == Some(x));
    assert forall|i: nat| #[trigger] ancestor_at(b2, x, i) == ancestor_at(b, x, i) by {
        crate::forest::lemma_chain_unchanged(b, b2, x, i);
    }
}

/// The ancestors of a node outside the subtree of `s` lie outside it too.
proof fn lemma_above_outside(b: Tree, t: ContentId, tn: ContentId, s: ContentId)
    requires
        b.contains_key(t),
        b[t].parent == Some(tn),
        !is_desc_or_self(b, t, s),
    ensures
        forall|j: nat| #[trigger] ancestor_at(b, tn, j) is Some ==> !is_desc_or_self(b, ancestor_at(b, tn, j).unwrap(), s),
{
    assert forall|j: nat| #[trigger] ancestor_at(b, tn, j) is Some implies !is_desc_or_self(b, ancestor_at(b, tn, j).unwrap(), s) by {
        let y = ancestor_at(b, tn, j).unwrap();
        crate::forest::lemma_ancestor_step(b, t, tn, j);
        if is_desc_or_self(b, y, s) {
            let m = choose|m: nat| ancestor_at(b, y, m) == Some(s);
            crate::nav::lemma_ancestor_add(b, t, j + 1, m);
        }
    }
}

/// The strict ancestors of `s` lie outside its subtree.
proof fn lemma_strictly_above_outside(b: Tree, rank: Map<ContentId, nat>, bound: nat, s: ContentId, sn: ContentId)
    requires
        forest_linked(b),
        forest_ranked(b, rank, bound),
        b.contains_key(s),
        b[s].parent == Some(sn),
    ensures
        forall|j: nat| #[trigger] ancestor_at(b, sn, j) is Some ==> !is_desc_or_self(b, ancestor_at(b, sn, j).unwrap(), s),
{
    assert forall|j: nat| #[trigger] ancestor_at(b, sn, j) is Some implies !is_desc_or_self(b, ancestor_at(b, sn, j).unwrap(), s) by {
        let y = ancestor_at(b, sn, j).unwrap();
        crate::forest::lemma_ancestor_step(b, s, sn, j);
        if is_desc_or_self(b, y, s) {
            let m = choose|m: nat| ancestor_at(b, y, m) == Some(s);
            crate::nav::lemma_ancestor_add(b, s, j + 1, m);
            crate::forest::lemma_desc_rank(b, rank, bound, s, s, j + 1 + m);
        }
    }
}

/// Merges `source` into `target` (text or children, by kind), then merges
/// their ancestors level by level while they differ, so that two leaves
/// of different blocks (two paragraphs, say) merge without losing what
/// remains on either side. The walk stops at the first merge refused.
pub fn merge_leaves(body: &mut DirectContent, target: ContentId, source: ContentId)
    requires
        old(body).wf(),
        old(body)@.contains_key(target),
        old(body)@.contains_key(source),
        merge_leaves_safe(old(body)@, target, source),
    ensures
        final(body).wf(),
        final(body).root_id() == old(body).root_id(),
        final(body).next_id() == old(body).next_id(),
        exists|ts: Seq<Tree>| #[trigger] merge_leaves_run(old(body)@, target, source, ts) && ts.last() == final(body)@,
{
    let ghost t0 = body@;
    let ghost rk0 = body.ranks();
    let ghost rl0 = body.rank_limit();
    proof {
        body.lemma_view_wf();
        assert(ancestor_at(t0, target, 0) == Some(target));
        assert(ancestor_at(t0, source, 0) == Some(source));
    }
    let mut target_parent = body.parent_of(target);
    let mut source_parent = body.parent_of(source);
    proof {
        assert(merge_reaches(t0, target, source, 0));
    }
    let first = body.merge_into(target, source);
    let ghost mut ts: Seq<Tree> = seq![t0, body@];
    if first.is_err() {
        proof {
            assert(!level_continues(t0, target, source, 0));
            assert(merge_leaves_run(t0, target, source, ts));
        }
        return;
    }
    let ghost mut k: nat = 1;
    proof {
        let b = body@;
        assert(merge_accepted(t0, target, source));
        assert(level_node(t0, target, 0) == target);
        assert(level_node(t0, source, 0) == source);
        assert(merge_reaches(t0, target, source, 0));
        crate::forest::lemma_ancestor_one(t0, target);
        crate::forest::lemma_ancestor_one(t0, source);
        match target_parent {
            Some(tn) => {
                if target == source {
                    lemma_strictly_above_outside(t0, rk0, rl0, target, tn);
                } else {
                    lemma_above_outside(t0, target, tn, source);
                }
                lemma_chain_kept(t0, b, target, source, tn);
                assert forall|i: nat| #[trigger] ancestor_at(b, tn, i) == ancestor_at(t0, target, 1 + i) by {
                    crate::forest::lemma_ancestor_step(t0, target, tn, i);
                }
            },
            None => {},
        }
        match source_parent {
            Some(sn) => {
                lemma_strictly_above_outside(t0, rk0, rl0, source, sn);
                lemma_chain_kept(t0, b, target, source, sn);
                assert forall|i: nat| #[trigger] ancestor_at(b, sn, i) == ancestor_at(t0, source, 1 + i) by {
                    crate::forest::lemma_ancestor_step(t0, source, sn, i);
                }
            },
            None => {},
        }
    }
    loop
        invariant_except_break
            merge_accepted(t0, level_node(t0, target, (k - 1) as nat), level_node(t0, source, (k - 1) as nat)),
            target_parent matches Some(tk) ==> body@.contains_key(tk) && forall|i: nat|
                #[trigger] ancestor_at(body@, tk, i) == ancestor_at(t0, target, k + i),
            source_parent matches Some(sk) ==> body@.contains_key(sk) && forall|i: nat|
                #[trigger] ancestor_at(body@, sk, i) == ancestor_at(t0, source, k + i),
        invariant
            body.wf(),
            body.root_id() == old(body).root_id(),
            body.next_id() == old(body).next_id(),
            forest_linked(t0),
            forest_ranked(t0, rk0, rl0),
            t0.contains_key(target),
            t0.contains_key(source),
            merge_leaves_safe(t0, target, source),
            k >= 1,
            ts.len() == k + 1,
            ts[0] == t0,
            ts[k as int] == body@,
            target_parent == ancestor_at(t0, target, k),
            source_parent == ancestor_at(t0, source, k),
            forall|j: nat| j + 1 < k ==> #[trigger] level_continues(t0, target, source, j),
            forall|j: int|
                0 <= j < k ==> #[trigger] is_merge_of(
                    ts[j],
                    level_node(t0, target, j as nat),
                    level_node(t0, source, j as nat),
                    ts[j + 1],
                ),
            forall|x: ContentId| #[trigger] body@.contains_key(x) ==> t0.contains_key(x)
                && kind_of_spec(body@[x].spec) == kind_of_spec(t0[x].spec),
        ensures
            merge_leaves_run(t0, target, source, ts),
            ts.last() == body@,
        decreases rl0 - k,
    {
        let (t, s) = match (target_parent, source_parent) {
            (Some(t), Some(s)) => (t, s),
            _ => {
                proof {
                    assert(!level_continues(t0, target, source, (k - 1) as nat));
                }
                break;
            },
        };
        if t == s {
            proof {
                assert(!level_continues(t0, target, source, (k - 1) as nat));
            }
            break;
        }
        let ghost b = body@;
        let ghost rkb = body.ranks();
        let ghost rlb = body.rank_limit();
        proof {
            body.lemma_view_wf();
            crate::nav::lemma_rank_depth(t0, rk0, rl0, target, t, k);
            crate::forest::lemma_ancestor_one(b, t);
            crate::forest::lemma_ancestor_one(b, s);
            assert(ancestor_at(b, t, 0) == Some(t));
            assert(ancestor_at(b, s, 0) == Some(s));
            assert(merge_reaches(t0, target, source, k)) by {
                assert forall|j: nat| j < k implies #[trigger] level_continues(t0, target, source, j) by {
                    if j + 1 == k {
                        assert(ancestor_at(t0, target, k) == Some(t));
                    }
                }
            }
            assert(level_node(t0, target, k) == t);
            assert(level_node(t0, source, k) == s);
            assert(kind_of_spec(b[t].spec) == kind_of_spec(t0[t].spec));
            assert(kind_of_spec(b[s].spec) == kind_of_spec(t0[s].spec));
            assert(merge_accepted(b, t, s) == merge_accepted(t0, t, s));
            if merge_accepted(t0, t, s) {
                assert(!is_desc_or_self(t0, t, s));
                assert(!is_desc_or_self(b, t, s)) by {
                    if is_desc_or_self(b, t, s) {
                        let i = choose|i: nat| ancestor_at(b, t, i) == Some(s);
                        crate::nav::lemma_ancestor_add(t0, target, k, i);
                    }
                }
            }
        }
        target_parent = body.parent_of(t);
        source_parent = body.parent_of(s);
        let step = body.merge_into(t, s);
        let ghost old_ts = ts;
        let ghost old_k = k;
        proof {
            let b2 = body@;
            ts = ts.push(b2);
            k = k + 1;
            assert forall|j: int| 0 <= j < k implies #[trigger] is_merge_of(
                ts[j],
                level_node(t0, target, j as nat),
                level_node(t0, source, j as nat),
                ts[j + 1],
            ) by {
                if j < old_k {
                    assert(ts[j] == old_ts[j]);
                    assert(ts[j + 1] == old_ts[j + 1]);
                }
            }
            assert forall|j: nat| j + 1 < k implies #[trigger] level_continues(t0, target, source, j) by {
                if j + 1 == old_k {
                    assert(ancestor_at(t0, target, old_k) == Some(t));
                }
            }
            if merge_accepted(t0, t, s) {
                match target_parent {
                    Some(tn) => {
                        lemma_above_outside(b, t, tn, s);
                        lemma_chain_kept(b, b2, t, s, tn);
                        assert forall|i: nat| #[trigger] ancestor_at(b2, tn, i) == ancestor_at(t0, target, k + i) by {
                            crate::forest::lemma_ancestor_step(b, t, tn, i);
                            assert(ancestor_at(b, t, i + 1) == ancestor_at(t0, target, old_k + (i + 1)));
                        }
                    },
                    None => {},
                }
                match source_parent {
                    Some(sn) => {
                        lemma_strictly_above_outside(b, rkb, rlb, s, sn);
                        lemma_chain_kept(b, b2, t, s, sn);
                        assert forall|i: nat| #[trigger] ancestor_at(b2, sn, i) == ancestor_at(t0, source, k + i) by {
                            crate::forest::lemma_ancestor_step(b, s, sn, i);
                            assert(ancestor_at(b, s, i + 1) == ancestor_at(t0, source, old_k + (i + 1)));
                        }
                    },
                    None => {},
                }
            } else {
                assert(!level_continues(t0, target, source, old_k));
            }
        }
        if step.is_err() {
            break;
        }
    }
}

} // verus!
