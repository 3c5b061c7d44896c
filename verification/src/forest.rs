//! Mathematical model of a forest of content nodes, keyed by any identifier
//! type: each node carries its specification, its parent and the ordered
//! list of its children.
use vstd::prelude::*;

use crate::kind::NodeSpec;

verus! {

/// One node of a forest: its specification, its parent (if attached) and
/// its children in document order.
pub struct TreeNode<K> {
    pub spec: NodeSpec,
    pub parent: Option<K>,
    pub children: Seq<K>,
}

/// `s` without the first occurrence of `x` (unchanged when `x` is absent).
pub open spec fn seq_without<K>(s: Seq<K>, x: K) -> Seq<K> {
    if s.contains(x) {
        s.remove(s.index_of(x))
    } else {
        s
    }
}

/// The node `n` with another parent.
pub open spec fn with_parent<K>(t: TreeNode<K>, parent: Option<K>) -> TreeNode<K> {
    TreeNode { spec: t.spec, parent: parent, children: t.children }
}

/// The node `n` with other children.
pub open spec fn with_children<K>(t: TreeNode<K>, children: Seq<K>) -> TreeNode<K> {
    TreeNode { spec: t.spec, parent: t.parent, children: children }
}

/// The node `n` with another specification.
pub open spec fn with_spec<K>(t: TreeNode<K>, spec: NodeSpec) -> TreeNode<K> {
    TreeNode { spec: spec, parent: t.parent, children: t.children }
}

/// `n` detached from its parent: it leaves its parent's children and has no
/// parent any more; its own children stay with it.
pub open spec fn forest_detach<K>(m: Map<K, TreeNode<K>>, n: K) -> Map<K, TreeNode<K>> {
    match m[n].parent {
        None => m,
        Some(q) => {
            let m1 = m.insert(q, with_children(m[q], seq_without(m[q].children, n)));
            m1.insert(n, with_parent(m1[n], None))
        },
    }
}

/// `n` detached, then appended as the last child of `p`.
pub open spec fn forest_append<K>(m: Map<K, TreeNode<K>>, p: K, n: K) -> Map<K, TreeNode<K>> {
    let d = forest_detach(m, n);
    let d1 = d.insert(p, with_children(d[p], d[p].children.push(n)));
    d1.insert(n, with_parent(d1[n], Some(p)))
}

/// `n` detached, then inserted as the sibling that immediately precedes
/// `at` (which has a parent).
pub open spec fn forest_insert_before<K>(m: Map<K, TreeNode<K>>, at: K, n: K) -> Map<
    K,
    TreeNode<K>,
> {
    let d = forest_detach(m, n);
    let p = d[at].parent.unwrap();
    let cs = d[p].children;
    let d1 = d.insert(p, with_children(d[p], cs.insert(cs.index_of(at), n)));
    d1.insert(n, with_parent(d1[n], Some(p)))
}

/// `n` detached, then placed as the sibling that immediately follows `id`
/// (which has a parent): before the sibling that followed `id`, or last.
pub open spec fn forest_insert_after<K>(m: Map<K, TreeNode<K>>, id: K, n: K) -> Map<K, TreeNode<K>> {
    let p = m[id].parent.unwrap();
    let cs = m[p].children;
    let k = cs.index_of(id);
    if k + 1 < cs.len() {
        forest_insert_before(m, cs[k + 1], n)
    } else {
        forest_append(m, p, n)
    }
}

/// Each node of `cs`, in order, detached and appended as the last child of
/// `p`.
pub open spec fn forest_append_all<K>(m: Map<K, TreeNode<K>>, p: K, cs: Seq<K>) -> Map<K, TreeNode<K>>
    decreases cs.len(),
{
    if cs.len() == 0 {
        m
    } else {
        forest_append_all(forest_append(m, p, cs[0]), p, cs.drop_first())
    }
}

/// The node reached from `a` by following `k` parent links, if any.
pub open spec fn ancestor_at<K>(m: Map<K, TreeNode<K>>, a: K, k: nat) -> Option<K>
    decreases k,
{
    if k == 0 {
        Some(a)
    } else if !m.contains_key(a) {
        None
    } else {
        match m[a].parent {
            None => None,
            Some(p) => ancestor_at(m, p, (k - 1) as nat),
        }
    }
}

/// `a` is `c` or one of its descendants.
pub open spec fn is_desc_or_self<K>(m: Map<K, TreeNode<K>>, a: K, c: K) -> bool {
    exists|k: nat| ancestor_at(m, a, k) == Some(c)
}

/// `c` and all its descendants removed; `c` first leaves its parent.
pub open spec fn forest_remove_subtree<K>(m: Map<K, TreeNode<K>>, c: K) -> Map<K, TreeNode<K>> {
    let d = forest_detach(m, c);
    Map::new(|a: K| d.contains_key(a) && !is_desc_or_self(m, a, c), |a: K| d[a])
}

/// Parent and children links agree: a node lists exactly the nodes whose
/// parent it is, each once, and links stay inside the forest.
pub open spec fn forest_linked<K>(m: Map<K, TreeNode<K>>) -> bool {
    &&& forall|a: K|
        #![trigger m[a].parent]
        m.contains_key(a) && m[a].parent is Some ==> {
            let p = m[a].parent.unwrap();
            &&& m.contains_key(p)
            &&& m[p].children.contains(a)
        }
    &&& forall|a: K, i: int|
        #![trigger m[a].children[i]]
        m.contains_key(a) && 0 <= i < m[a].children.len() ==> {
            let c = m[a].children[i];
            &&& m.contains_key(c)
            &&& m[c].parent == Some(a)
        }
    &&& forall|a: K| #[trigger] m.contains_key(a) ==> m[a].children.no_duplicates()
}

/// `rank` strictly increases from a node to each of its children, and stays
/// below `bound`: every chain of parents is finite.
pub open spec fn forest_ranked<K>(m: Map<K, TreeNode<K>>, rank: Map<K, nat>, bound: nat) -> bool {
    &&& forall|a: K| #[trigger] m.contains_key(a) ==> rank.contains_key(a) && rank[a] < bound
    &&& forall|a: K|
        #![trigger m[a].parent]
        m.contains_key(a) && m[a].parent is Some ==> rank[m[a].parent.unwrap()] < rank[a]
}

/// In a sequence without duplicates, `index_of` finds the one position of
/// an element.
pub proof fn lemma_index_of_unique<K>(s: Seq<K>, x: K, i: int)
    requires
        s.no_duplicates(),
        0 <= i < s.len(),
        s[i] == x,
    ensures
        s.contains(x),
        s.index_of(x) == i,
{
    assert(s.contains(x));
    let j = s.index_of(x);
    assert(0 <= j < s.len() && s[j] == x);
}

/// Removing one element keeps a sequence free of duplicates, and removes
/// exactly that element.
pub proof fn lemma_seq_without<K>(s: Seq<K>, x: K)
    requires
        s.no_duplicates(),
    ensures
        seq_without(s, x).no_duplicates(),
        forall|y: K| #[trigger] seq_without(s, x).contains(y) <==> (s.contains(y) && y != x),
        s.contains(x) ==> seq_without(s, x).len() + 1 == s.len(),
{
    if s.contains(x) {
        let k = s.index_of(x);
        let r = s.remove(k);
        assert forall|a: int, b: int| 0 <= a < r.len() && 0 <= b < r.len() && a != b implies r[a]
            != r[b] by {
            let a1 = if a < k { a } else { a + 1 };
            let b1 = if b < k { b } else { b + 1 };
            assert(r[a] == s[a1]);
            assert(r[b] == s[b1]);
        }
        assert forall|y: K| #[trigger] r.contains(y) <==> (s.contains(y) && y != x) by {
            if r.contains(y) {
                let a = choose|a: int| 0 <= a < r.len() && r[a] == y;
                let a1 = if a < k { a } else { a + 1 };
                assert(s[a1] == y);
                assert(a1 != k);
            }
            if s.contains(y) && y != x {
                let a = choose|a: int| 0 <= a < s.len() && s[a] == y;
                assert(a != k);
                if a < k {
                    assert(r[a] == y);
                } else {
                    assert(r[a - 1] == y);
                }
            }
        }
    }
}

/// Inserting an element that is absent keeps a sequence free of
/// duplicates.
pub proof fn lemma_seq_insert<K>(s: Seq<K>, k: int, x: K)
    requires
        s.no_duplicates(),
        !s.contains(x),
        0 <= k <= s.len(),
    ensures
        s.insert(k, x).no_duplicates(),
        forall|y: K| #[trigger] s.insert(k, x).contains(y) <==> (s.contains(y) || y == x),
{
    let r = s.insert(k, x);
    assert forall|a: int, b: int| 0 <= a < r.len() && 0 <= b < r.len() && a != b implies r[a]
        != r[b] by {
        if a != k && b != k {
            let a1 = if a < k { a } else { a - 1 };
            let b1 = if b < k { b } else { b - 1 };
            assert(r[a] == s[a1]);
            assert(r[b] == s[b1]);
        } else if a == k {
            let b1 = if b < k { b } else { b - 1 };
            assert(r[b] == s[b1]);
        } else {
            let a1 = if a < k { a } else { a - 1 };
            assert(r[a] == s[a1]);
        }
    }
    assert forall|y: K| #[trigger] r.contains(y) <==> (s.contains(y) || y == x) by {
        if r.contains(y) {
            let a = choose|a: int| 0 <= a < r.len() && r[a] == y;
            if a != k {
                let a1 = if a < k { a } else { a - 1 };
                assert(s[a1] == y);
            }
        }
        if s.contains(y) {
            let a = choose|a: int| 0 <= a < s.len() && s[a] == y;
            if a < k {
                assert(r[a] == y);
            } else {
                assert(r[a + 1] == y);
            }
        }
        if y == x {
            assert(r[k] == y);
        }
    }
}

/// Appending an element that is absent keeps a sequence free of
/// duplicates.
pub proof fn lemma_seq_push<K>(s: Seq<K>, x: K)
    requires
        s.no_duplicates(),
        !s.contains(x),
    ensures
        s.push(x).no_duplicates(),
        forall|y: K| #[trigger] s.push(x).contains(y) <==> (s.contains(y) || y == x),
{
    lemma_seq_insert(s, s.len() as int, x);
    assert(s.push(x) =~= s.insert(s.len() as int, x));
}

/// Detaching a node keeps the links consistent; afterwards no node lists
/// it among its children.
pub proof fn lemma_detach_linked<K>(m: Map<K, TreeNode<K>>, n: K)
    requires
        forest_linked(m),
        m.contains_key(n),
        m[n].parent != Some(n),
    ensures
        forest_linked(forest_detach(m, n)),
        forest_detach(m, n).dom() == m.dom(),
        forest_detach(m, n)[n].parent is None,
        forest_detach(m, n)[n].spec == m[n].spec,
        forest_detach(m, n)[n].children == m[n].children,
        forall|a: K| #[trigger] forest_detach(m, n).contains_key(a) ==> !forest_detach(m, n)[a].children.contains(n),
        forall|a: K| #[trigger] forest_detach(m, n).contains_key(a) && a != n ==> forest_detach(m, n)[a].parent == m[a].parent,
        forall|a: K| #[trigger] forest_detach(m, n).contains_key(a) ==> forest_detach(m, n)[a].spec == m[a].spec,
{
    let d = forest_detach(m, n);
    match m[n].parent {
        None => {
            assert forall|a: K| #[trigger] d.contains_key(a) implies !d[a].children.contains(n) by {
                if d[a].children.contains(n) {
                    let i = choose|i: int| 0 <= i < d[a].children.len() && d[a].children[i] == n;
                    assert(m[a].children[i] == n);
                }
            }
        },
        Some(q) => {
            assert(m.contains_key(q));
            assert(m[q].children.contains(n));
            lemma_seq_without(m[q].children, n);
            assert(d.dom() =~= m.dom());
            assert forall|a: K| #![trigger d[a].parent] d.contains_key(a) && d[a].parent is Some implies {
                let p = d[a].parent.unwrap();
                &&& d.contains_key(p)
                &&& d[p].children.contains(a)
            } by {
                let p = d[a].parent.unwrap();
                assert(a != n);
                assert(m[a].parent == Some(p));
                assert(m[p].children.contains(a));
                if p == q {
                    assert(seq_without(m[q].children, n).contains(a));
                }
            }
            assert forall|a: K, i: int|
                #![trigger d[a].children[i]]
                d.contains_key(a) && 0 <= i < d[a].children.len() implies {
                let c = d[a].children[i];
                &&& d.contains_key(c)
                &&& d[c].parent == Some(a)
            } by {
                let c = d[a].children[i];
                if a == q {
                    assert(seq_without(m[q].children, n).contains(c));
                    let j = choose|j: int| 0 <= j < m[q].children.len() && m[q].children[j] == c;
                    assert(m[c].parent == Some(q));
                } else {
                    assert(m[a].children[i] == c);
                    assert(m[c].parent == Some(a));
                    if c == n {
                        assert(a == q);
                    }
                }
            }
            assert forall|a: K| #[trigger] d.contains_key(a) implies !d[a].children.contains(n) by {
                if a == q {
                } else if d[a].children.contains(n) {
                    let i = choose|i: int| 0 <= i < d[a].children.len() && d[a].children[i] == n;
                    assert(m[a].children[i] == n);
                    assert(m[n].parent == Some(a));
                }
            }
        },
    }
}

/// Appending a node under another keeps the links consistent.
pub proof fn lemma_append_linked<K>(m: Map<K, TreeNode<K>>, p: K, n: K)
    requires
        forest_linked(m),
        m.contains_key(n),
        m.contains_key(p),
        p != n,
        m[n].parent != Some(n),
    ensures
        forest_linked(forest_append(m, p, n)),
        forest_append(m, p, n).dom() == m.dom(),
        forest_append(m, p, n)[n].parent == Some(p),
        forall|x: K| #[trigger] forest_append(m, p, n).contains_key(x) ==> forest_append(m, p, n)[x].spec == m[x].spec,
        forall|x: K| #[trigger] forest_append(m, p, n).contains_key(x) && x != p && x != n && m[n].parent != Some(x)
            ==> forest_append(m, p, n)[x].children == m[x].children,
        forest_append(m, p, n)[p].children.len() > 0,
        m[n].parent != Some(p) && n != p ==> forest_append(m, p, n)[p].children == m[p].children.push(n),
        m[n].parent is None && n != p ==> forest_append(m, p, n)[n].children == m[n].children,
        forall|a: K| #[trigger] forest_append(m, p, n).contains_key(a) && a != n ==> forest_append(m, p, n)[a].parent == m[a].parent,
        forall|a: K| #[trigger] forest_append(m, p, n).contains_key(a) ==> forest_append(m, p, n)[a].spec == m[a].spec,
{
    lemma_detach_linked(m, n);
    let d = forest_detach(m, n);
    let cs = d[p].children;
    lemma_seq_push(cs, n);
    let r = forest_append(m, p, n);
    assert(r.dom() =~= m.dom());
    assert(r[p].children == cs.push(n));
    assert forall|a: K| #![trigger r[a].parent] r.contains_key(a) && r[a].parent is Some implies {
        let x = r[a].parent.unwrap();
        &&& r.contains_key(x)
        &&& r[x].children.contains(a)
    } by {
        let x = r[a].parent.unwrap();
        if a != n {
            assert(d[a].parent == Some(x));
            assert(d[x].children.contains(a));
            if x == p {
                assert(cs.push(n).contains(a));
            }
        }
    }
    assert forall|a: K, i: int|
        #![trigger r[a].children[i]]
        r.contains_key(a) && 0 <= i < r[a].children.len() implies {
        let c = r[a].children[i];
        &&& r.contains_key(c)
        &&& r[c].parent == Some(a)
    } by {
        let c = r[a].children[i];
        if a == p {
            if i < cs.len() {
                assert(cs[i] == c);
                assert(d[c].parent == Some(p));
                assert(c != n) by {
                    assert(!cs.contains(n));
                }
            }
        } else {
            assert(d[a].children[i] == c);
            assert(d[c].parent == Some(a));
            assert(c != n) by {
                assert(!d[a].children.contains(n));
            }
        }
    }
    assert forall|a: K| #[trigger] r.contains_key(a) implies r[a].children.no_duplicates() by {
        if a != p {
            assert(r[a].children == d[a].children);
        }
    }
}

/// Inserting a node before another one, which has a parent, keeps the
/// links consistent.
pub proof fn lemma_insert_before_linked<K>(m: Map<K, TreeNode<K>>, at: K, n: K)
    requires
        forest_linked(m),
        m.contains_key(n),
        m.contains_key(at),
        at != n,
        m[at].parent is Some,
        m[at].parent != Some(n),
        m[n].parent != Some(n),
    ensures
        forest_linked(forest_insert_before(m, at, n)),
        forest_insert_before(m, at, n).dom() == m.dom(),
        forest_insert_before(m, at, n)[n].parent == m[at].parent,
        forall|a: K| #[trigger] forest_insert_before(m, at, n).contains_key(a) && a != n ==> forest_insert_before(m, at, n)[a].parent == m[a].parent,
        forall|a: K| #[trigger] forest_insert_before(m, at, n).contains_key(a) ==> forest_insert_before(m, at, n)[a].spec == m[a].spec,
{
    lemma_detach_linked(m, n);
    let d = forest_detach(m, n);
    let p = d[at].parent.unwrap();
    assert(d[at].parent == m[at].parent);
    assert(p != n);
    let cs = d[p].children;
    assert(cs.contains(at));
    let k = cs.index_of(at);
    lemma_seq_insert(cs, k, n);
    let r = forest_insert_before(m, at, n);
    assert(r.dom() =~= m.dom());
    assert(r[p].children == cs.insert(k, n));
    assert forall|a: K| #![trigger r[a].parent] r.contains_key(a) && r[a].parent is Some implies {
        let x = r[a].parent.unwrap();
        &&& r.contains_key(x)
        &&& r[x].children.contains(a)
    } by {
        let x = r[a].parent.unwrap();
        if a != n {
            assert(d[a].parent == Some(x));
            assert(d[x].children.contains(a));
            if x == p {
                assert(cs.insert(k, n).contains(a));
            }
        }
    }
    assert forall|a: K, i: int|
        #![trigger r[a].children[i]]
        r.contains_key(a) && 0 <= i < r[a].children.len() implies {
        let c = r[a].children[i];
        &&& r.contains_key(c)
        &&& r[c].parent == Some(a)
    } by {
        let c = r[a].children[i];
        if a == p {
            assert(cs.insert(k, n).contains(c));
            if c != n {
                assert(cs.contains(c));
                let j = choose|j: int| 0 <= j < cs.len() && cs[j] == c;
                assert(d[c].parent == Some(p));
            }
        } else {
            assert(d[a].children[i] == c);
            assert(d[c].parent == Some(a));
            assert(c != n) by {
                assert(!d[a].children.contains(n));
            }
        }
    }
    assert forall|a: K| #[trigger] r.contains_key(a) implies r[a].children.no_duplicates() by {
        if a != p {
            assert(r[a].children == d[a].children);
        }
    }
}

/// Following one more parent link from a node is following the links from
/// its parent.
pub proof fn lemma_ancestor_step<K>(m: Map<K, TreeNode<K>>, a: K, p: K, k: nat)
    requires
        m.contains_key(a),
        m[a].parent == Some(p),
    ensures
        ancestor_at(m, a, k + 1) == ancestor_at(m, p, k),
{
}

/// Following one parent link leads to the parent.
pub proof fn lemma_ancestor_one<K>(m: Map<K, TreeNode<K>>, a: K)
    requires
        m.contains_key(a),
    ensures
        ancestor_at(m, a, 1) == m[a].parent,
{
    reveal_with_fuel(ancestor_at, 2);
}

/// Following `k + 1` parent links is following `k`, then one more.
pub proof fn lemma_ancestor_succ<K>(m: Map<K, TreeNode<K>>, a: K, k: nat)
    ensures
        ancestor_at(m, a, k + 1) == (match ancestor_at(m, a, k) {
            Some(x) => if m.contains_key(x) {
                m[x].parent
            } else {
                None
            },
            None => None,
        }),
    decreases k,
{
    reveal_with_fuel(ancestor_at, 2);
    if k > 0 && m.contains_key(a) {
        match m[a].parent {
            None => {},
            Some(p) => {
                lemma_ancestor_succ(m, p, (k - 1) as nat);
            },
        }
    }
}

/// The chain of parents of `a` is the same in `m2` as in `m` when every node
/// on it keeps its parent.
pub proof fn lemma_chain_unchanged<K>(m: Map<K, TreeNode<K>>, m2: Map<K, TreeNode<K>>, a: K, k: nat)
    requires
        forall|j: nat| #[trigger] ancestor_at(m, a, j) matches Some(x) ==> (m.contains_key(x) == m2.contains_key(x) && (m.contains_key(x) ==> m2[x].parent == m[x].parent)),
    ensures
        ancestor_at(m2, a, k) == ancestor_at(m, a, k),
    decreases k,
{
    if k > 0 {
        lemma_chain_unchanged(m, m2, a, (k - 1) as nat);
        lemma_ancestor_succ(m, a, (k - 1) as nat);
        lemma_ancestor_succ(m2, a, (k - 1) as nat);
        match ancestor_at(m, a, (k - 1) as nat) {
            Some(x) => {},
            None => {},
        }
    }
}

/// Taking an element out of a list without duplicates, where it occurs in
/// a first part, leaves the second part as it was.
pub proof fn lemma_seq_without_concat<K>(s: Seq<K>, u: Seq<K>, x: K)
    requires
        (s + u).no_duplicates(),
        s.contains(x),
    ensures
        seq_without(s + u, x) == seq_without(s, x) + u,
{
    let i = choose|i: int| 0 <= i < s.len() && s[i] == x;
    assert((s + u)[i] == x);
    lemma_index_of_unique(s + u, x, i);
    assert(s.no_duplicates()) by {
        assert forall|a: int, b: int| 0 <= a < s.len() && 0 <= b < s.len() && a != b implies s[a] != s[b] by {
            assert((s + u)[a] == s[a]);
            assert((s + u)[b] == s[b]);
        }
    }
    lemma_index_of_unique(s, x, i);
    assert(seq_without(s + u, x) =~= seq_without(s, x) + u);
}

/// Appending one more node at the end of the list is one more append.
pub proof fn lemma_append_all_push<K>(m: Map<K, TreeNode<K>>, p: K, s: Seq<K>, x: K)
    ensures
        forest_append_all(m, p, s.push(x)) == forest_append(forest_append_all(m, p, s), p, x),
    decreases s.len(),
{
    reveal_with_fuel(forest_append_all, 2);
    assert(s.push(x)[0] == if s.len() == 0 { x } else { s[0] });
    if s.len() == 0 {
        assert(s.push(x).drop_first() =~= Seq::<K>::empty());
    } else {
        assert(s.push(x).drop_first() =~= s.drop_first().push(x));
        lemma_append_all_push(forest_append(m, p, s[0]), p, s.drop_first(), x);
    }
}

/// Appending `n` under `p` gives `n` the parent `p` and leaves the parent of
/// every other node as it was; no node disappears.
pub proof fn lemma_append_parent_of<K>(m: Map<K, TreeNode<K>>, p: K, n: K)
    ensures
        forest_append(m, p, n).contains_key(n),
        forest_append(m, p, n)[n].parent == Some(p),
        forall|x: K| #[trigger] m.contains_key(x) ==> forest_append(m, p, n).contains_key(x),
        forall|x: K| x != n ==> #[trigger] forest_append(m, p, n)[x].parent == m[x].parent,
{
}

/// Appending `n` under `p` keeps the nodes, and the parent of every node
/// but `n`, which gets `p`.
pub proof fn lemma_append_parents<K>(m: Map<K, TreeNode<K>>, p: K, n: K)
    requires
        forest_linked(m),
        m.contains_key(p),
        m.contains_key(n),
    ensures
        forest_append(m, p, n).dom() == m.dom(),
        forest_append(m, p, n)[n].parent == Some(p),
        forall|x: K| #[trigger] forest_append(m, p, n).contains_key(x) ==> forest_append(m, p, n)[x].spec == m[x].spec,
        forall|x: K| #[trigger] forest_append(m, p, n).contains_key(x) && x != p && x != n && m[n].parent != Some(x)
            ==> forest_append(m, p, n)[x].children == m[x].children,
        forest_append(m, p, n)[p].children.len() > 0,
        m[n].parent is None && n != p ==> forest_append(m, p, n)[n].children == m[n].children,
        forall|x: K| #[trigger] forest_append(m, p, n).contains_key(x) && x != n ==> forest_append(m, p, n)[x].parent == m[x].parent,
{
    let d = forest_detach(m, n);
    match m[n].parent {
        None => {},
        Some(q) => {
            assert(m.contains_key(q));
        },
    }
    assert(d.dom() =~= m.dom());
    assert(forest_append(m, p, n).dom() =~= m.dom());
}

/// Ranks grow down the tree: a node in the subtree of `c` has at least the
/// rank of `c`, strictly more when it is not `c`.
pub proof fn lemma_desc_rank<K>(m: Map<K, TreeNode<K>>, rank: Map<K, nat>, bound: nat, a: K, c: K, k: nat)
    requires
        forest_linked(m),
        forest_ranked(m, rank, bound),
        m.contains_key(a),
        ancestor_at(m, a, k) == Some(c),
    ensures
        m.contains_key(c),
        rank[c] <= rank[a],
        k > 0 ==> rank[c] < rank[a],
    decreases k,
{
    if k > 0 {
        let p = m[a].parent.unwrap();
        assert(m.contains_key(p));
        lemma_desc_rank(m, rank, bound, p, c, (k - 1) as nat);
    }
}

/// Removing a subtree keeps the links consistent.
pub proof fn lemma_remove_subtree_linked<K>(m: Map<K, TreeNode<K>>, c: K)
    requires
        forest_linked(m),
        m.contains_key(c),
        m[c].parent != Some(c),
    ensures
        forest_linked(forest_remove_subtree(m, c)),
        forall|a: K| #[trigger] forest_remove_subtree(m, c).contains_key(a) <==> (m.contains_key(a) && !is_desc_or_self(m, a, c)),
        forall|a: K| #[trigger] forest_remove_subtree(m, c).contains_key(a) ==> forest_remove_subtree(m, c)[a].parent == m[a].parent && forest_remove_subtree(m, c)[a].spec == m[a].spec,
{
    lemma_detach_linked(m, c);
    let d = forest_detach(m, c);
    let r = forest_remove_subtree(m, c);
    assert(ancestor_at(m, c, 0) == Some(c));
    assert(is_desc_or_self(m, c, c));
    assert forall|a: K| #[trigger] r.contains_key(a) implies r[a].parent == m[a].parent && r[a].spec == m[a].spec by {
        assert(a != c);
    }
    assert forall|a: K| #![trigger r[a].parent] r.contains_key(a) && r[a].parent is Some implies {
        let x = r[a].parent.unwrap();
        &&& r.contains_key(x)
        &&& r[x].children.contains(a)
    } by {
        let x = r[a].parent.unwrap();
        assert(a != c);
        assert(d[a].parent == Some(x));
        assert(d.contains_key(x));
        if is_desc_or_self(m, x, c) {
            let k = choose|k: nat| ancestor_at(m, x, k) == Some(c);
            lemma_ancestor_step(m, a, x, k);
            assert(is_desc_or_self(m, a, c));
        }
    }
    assert forall|a: K, i: int|
        #![trigger r[a].children[i]]
        r.contains_key(a) && 0 <= i < r[a].children.len() implies {
        let ch = r[a].children[i];
        &&& r.contains_key(ch)
        &&& r[ch].parent == Some(a)
    } by {
        let ch = r[a].children[i];
        assert(d[a].children[i] == ch);
        assert(d[ch].parent == Some(a));
        assert(ch != c) by {
            assert(!d[a].children.contains(c));
        }
        assert(m[ch].parent == Some(a));
        if is_desc_or_self(m, ch, c) {
            let k = choose|k: nat| ancestor_at(m, ch, k) == Some(c);
            assert(k != 0);
            lemma_ancestor_step(m, ch, a, (k - 1) as nat);
            assert(is_desc_or_self(m, a, c));
        }
    }
    assert forall|a: K| #[trigger] r.contains_key(a) implies r[a].children.no_duplicates() by {
        assert(d.contains_key(a));
    }
}

/// Links that only disappear, or stay, keep a ranking valid.
pub proof fn lemma_ranked_fewer_links<K>(
    m: Map<K, TreeNode<K>>,
    r: Map<K, TreeNode<K>>,
    rank: Map<K, nat>,
    bound: nat,
)
    requires
        forest_ranked(m, rank, bound),
        forall|a: K| #[trigger] r.contains_key(a) ==> m.contains_key(a),
        forall|a: K| #[trigger] r.contains_key(a) && r[a].parent is Some ==> r[a].parent == m[a].parent,
    ensures
        forest_ranked(r, rank, bound),
{
    assert forall|a: K| #![trigger r[a].parent] r.contains_key(a) && r[a].parent is Some implies rank[r[a].parent.unwrap()] < rank[a] by {
        assert(m[a].parent is Some);
    }
}

/// Attaching a detached-then-reattached node `n` under `p` (which is not in
/// the subtree of `n`) keeps the forest ranked, once the ranks of the
/// subtree of `n` are raised above the rank of `p`.
pub proof fn lemma_ranked_attach<K>(
    m: Map<K, TreeNode<K>>,
    r: Map<K, TreeNode<K>>,
    rank: Map<K, nat>,
    bound: nat,
    n: K,
    p: K,
) -> (res: (Map<K, nat>, nat))
    requires
        forest_ranked(m, rank, bound),
        m.contains_key(n),
        m.contains_key(p),
        !is_desc_or_self(m, p, n),
        r.dom() == m.dom(),
        forest_linked(r),
        r[n].parent == Some(p),
        forall|a: K| #[trigger] r.contains_key(a) && a != n ==> r[a].parent == m[a].parent,
    ensures
        forest_ranked(r, res.0, res.1),
{
    let new_rank = Map::new(
        |a: K| m.contains_key(a),
        |a: K| if is_desc_or_self(m, a, n) { rank[a] + rank[p] + 1 } else { rank[a] },
    );
    let new_bound = bound + bound;
    assert forall|a: K| #[trigger] r.contains_key(a) implies new_rank.contains_key(a) && new_rank[a] < new_bound by {
        assert(rank[a] < bound);
        assert(rank[p] < bound);
    }
    assert forall|a: K| #![trigger r[a].parent] r.contains_key(a) && r[a].parent is Some implies new_rank[r[a].parent.unwrap()] < new_rank[a] by {
        let x = r[a].parent.unwrap();
        assert(r.contains_key(x));
        if a == n {
            assert(ancestor_at(m, n, 0) == Some(n));
            assert(is_desc_or_self(m, n, n));
        } else {
            assert(m[a].parent == Some(x));
            if is_desc_or_self(m, a, n) {
                let k = choose|k: nat| ancestor_at(m, a, k) == Some(n);
                assert(k != 0);
                lemma_ancestor_step(m, a, x, (k - 1) as nat);
                assert(is_desc_or_self(m, x, n));
            } else if is_desc_or_self(m, x, n) {
                let k = choose|k: nat| ancestor_at(m, x, k) == Some(n);
                lemma_ancestor_step(m, a, x, k);
                assert(is_desc_or_self(m, a, n));
            }
        }
    }
    (new_rank, new_bound)
}

/// Replacing the specification of a node keeps links and ranks.
pub proof fn lemma_set_spec_wf<K>(m: Map<K, TreeNode<K>>, a: K, spec: NodeSpec, rank: Map<K, nat>, bound: nat)
    requires
        forest_linked(m),
        forest_ranked(m, rank, bound),
        m.contains_key(a),
    ensures
        forest_linked(m.insert(a, with_spec(m[a], spec))),
        forest_ranked(m.insert(a, with_spec(m[a], spec)), rank, bound),
{
    let r = m.insert(a, with_spec(m[a], spec));
    assert(r.dom() =~= m.dom());
    assert forall|b: K| #![trigger r[b].parent] r.contains_key(b) && r[b].parent is Some implies {
        let p = r[b].parent.unwrap();
        &&& r.contains_key(p)
        &&& r[p].children.contains(b)
    } by {
        assert(m[b].parent == r[b].parent);
        let p = r[b].parent.unwrap();
        assert(m[p].children.contains(b));
    }
    assert forall|b: K, i: int|
        #![trigger r[b].children[i]]
        r.contains_key(b) && 0 <= i < r[b].children.len() implies {
        let c = r[b].children[i];
        &&& r.contains_key(c)
        &&& r[c].parent == Some(b)
    } by {
        assert(m[b].children[i] == r[b].children[i]);
        let c = r[b].children[i];
        assert(m[c].parent == Some(b));
    }
    assert forall|b: K| #[trigger] r.contains_key(b) implies r[b].children.no_duplicates() by {
        assert(m[b].children == r[b].children);
    }
    lemma_ranked_fewer_links(m, r, rank, bound);
}

/// Adding a node without links, under a fresh key, keeps links and ranks.
pub proof fn lemma_insert_isolated_wf<K>(m: Map<K, TreeNode<K>>, a: K, t: TreeNode<K>, rank: Map<K, nat>, bound: nat)
    requires
        forest_linked(m),
        forest_ranked(m, rank, bound),
        !m.contains_key(a),
        t.parent is None,
        t.children.len() == 0,
    ensures
        forest_linked(m.insert(a, t)),
        forest_ranked(m.insert(a, t), rank.insert(a, 0), bound + 1),
{
    let r = m.insert(a, t);
    assert forall|b: K| #![trigger r[b].parent] r.contains_key(b) && r[b].parent is Some implies {
        let p = r[b].parent.unwrap();
        &&& r.contains_key(p)
        &&& r[p].children.contains(b)
    } by {
        assert(b != a);
        let p = r[b].parent.unwrap();
        assert(m[b].parent == Some(p));
        assert(m.contains_key(p));
        assert(m[p].children.contains(b));
    }
    assert forall|b: K, i: int|
        #![trigger r[b].children[i]]
        r.contains_key(b) && 0 <= i < r[b].children.len() implies {
        let c = r[b].children[i];
        &&& r.contains_key(c)
        &&& r[c].parent == Some(b)
    } by {
        assert(b != a);
        assert(m[b].children[i] == r[b].children[i]);
        let c = r[b].children[i];
        assert(m.contains_key(c));
        assert(m[c].parent == Some(b));
    }
    assert forall|b: K| #[trigger] r.contains_key(b) implies r[b].children.no_duplicates() by {
        if b != a {
            assert(m[b].children == r[b].children);
        }
    }
    let rk = rank.insert(a, 0);
    assert forall|b: K| #![trigger r[b].parent] r.contains_key(b) && r[b].parent is Some implies rk[r[b].parent.unwrap()] < rk[b] by {
        assert(b != a);
        let p = r[b].parent.unwrap();
        assert(m[b].parent == Some(p));
        assert(m.contains_key(p));
    }
}

/// Every node on the chain of parents of a node of the forest is in the
/// forest.
pub proof fn lemma_ancestor_in<K>(m: Map<K, TreeNode<K>>, a: K, k: nat)
    requires
        forest_linked(m),
        m.contains_key(a),
    ensures
        ancestor_at(m, a, k) matches Some(x) ==> m.contains_key(x),
    decreases k,
{
    if k > 0 {
        match m[a].parent {
            None => {},
            Some(p) => {
                assert(m.contains_key(p));
                lemma_ancestor_in(m, p, (k - 1) as nat);
            },
        }
    }
}

/// A descendant of a node of the forest is in the forest.
pub proof fn lemma_desc_in<K>(m: Map<K, TreeNode<K>>, d: K, a: K)
    requires
        forest_linked(m),
        m.contains_key(a),
        is_desc_or_self(m, d, a),
    ensures
        m.contains_key(d),
{
    let k = choose|k: nat| ancestor_at(m, d, k) == Some(a);
    if !m.contains_key(d) {
        if k > 0 {
            assert(ancestor_at(m, d, k) == None::<K>);
        }
    }
}

/// Moving, one after the other, nodes `xs` that stand together among the
/// children of `from` to the end of the children of `to`: `from` keeps the
/// others, `to` gets `xs` after its own children, each of `xs` gets `to` for
/// parent, and nothing else changes.
pub proof fn lemma_move_children<K>(m: Map<K, TreeNode<K>>, from: K, to: K, pre: Seq<K>, xs: Seq<K>, post: Seq<K>)
    requires
        m.contains_key(from),
        m.contains_key(to),
        from != to,
        m[from].children == pre + xs + post,
        (pre + xs + post).no_duplicates(),
        !xs.contains(to),
        !xs.contains(from),
        forall|x: K| #[trigger] xs.contains(x) ==> m.contains_key(x) && m[x].parent == Some(from),
    ensures
        forest_append_all(m, to, xs).dom() == m.dom(),
        forest_append_all(m, to, xs)[from] == with_children(m[from], pre + post),
        forest_append_all(m, to, xs)[to] == with_children(m[to], m[to].children + xs),
        forall|x: K| #[trigger] xs.contains(x) ==> forest_append_all(m, to, xs)[x] == with_parent(m[x], Some(to)),
        forall|x: K|
            #[trigger] m.contains_key(x) && x != from && x != to && !xs.contains(x) ==> forest_append_all(m, to, xs)[x]
                == m[x],
    decreases xs.len(),
{
    if xs.len() == 0 {
        assert(pre + xs + post =~= pre + post);
        assert(m[to].children + xs =~= m[to].children);
        assert(forest_append_all(m, to, xs) == m);
    } else {
        let ys = xs.drop_last();
        let x = xs.last();
        assert(xs =~= ys.push(x));
        assert(xs.contains(x));
        assert forall|y: K| #[trigger] ys.contains(y) implies xs.contains(y) by {
            let i = choose|i: int| 0 <= i < ys.len() && ys[i] == y;
            assert(xs[i] == y);
        }
        let post2 = seq![x] + post;
        assert(pre + ys + post2 =~= pre + xs + post);
        lemma_move_children(m, from, to, pre, ys, post2);
        lemma_append_all_push(m, to, ys, x);
        let r1 = forest_append_all(m, to, ys);
        let whole = pre + xs + post;
        assert(!ys.contains(x)) by {
            if ys.contains(x) {
                let i = choose|i: int| 0 <= i < ys.len() && ys[i] == x;
                assert(whole[pre.len() + i] == x);
                assert(whole[(pre.len() + ys.len()) as int] == x);
            }
        }
        assert(r1[x] == m[x]);
        assert(r1[from].children == pre + post2);
        let s = pre + seq![x];
        assert(pre + post2 =~= s + post);
        assert(s[pre.len() as int] == x);
        assert(s.no_duplicates()) by {
            assert forall|a: int, b: int| 0 <= a < s.len() && 0 <= b < s.len() && a != b implies s[a] != s[b] by {
                assert(whole[if a < pre.len() { a } else { (pre.len() + ys.len()) as int }] == s[a]);
                assert(whole[if b < pre.len() { b } else { (pre.len() + ys.len()) as int }] == s[b]);
            }
        }
        assert((s + post).no_duplicates()) by {
            assert forall|a: int, b: int| 0 <= a < (s + post).len() && 0 <= b < (s + post).len() && a != b implies (s
                + post)[a] != (s + post)[b] by {
                let wa = if a < pre.len() { a } else if a == pre.len() { (pre.len() + ys.len()) as int } else { a + ys.len() };
                let wb = if b < pre.len() { b } else if b == pre.len() { (pre.len() + ys.len()) as int } else { b + ys.len() };
                assert(whole[wa] == (s + post)[a]);
                assert(whole[wb] == (s + post)[b]);
            }
        }
        lemma_seq_without_concat(s, post, x);
        lemma_index_of_unique(s, x, pre.len() as int);
        assert(seq_without(s, x) =~= pre);
        let r = forest_append(r1, to, x);
        assert(r[from] == with_children(m[from], pre + post));
        assert(r1[to].children.push(x) =~= m[to].children + xs);
        assert(r[to] == with_children(m[to], m[to].children + xs));
        assert(r.dom() =~= m.dom());
        assert forall|y: K| #[trigger] xs.contains(y) implies r[y] == with_parent(m[y], Some(to)) by {
            if y != x {
                let i = choose|i: int| 0 <= i < xs.len() && xs[i] == y;
                assert(ys[i] == y);
            }
        }
    }
}

} // verus!
