//! The hierarchy of user groups, as the administration page shows it.
use vstd::prelude::*;
use vstd::string::*;

use crate::record::same_text;

verus! {

/// A group of users: its identifier, the identifier of the group it
/// belongs to, if any, and its name.
#[derive(Debug)]
pub struct GroupRow {
    pub id: String,
    pub parent_id: Option<String>,
    pub name: String,
}

impl Clone for GroupRow {
    fn clone(&self) -> (r: Self)
        ensures
            r == *self,
    {
        GroupRow {
            id: self.id.clone(),
            parent_id: match &self.parent_id {
                Some(p) => Some(p.clone()),
                None => None,
            },
            name: self.name.clone(),
        }
    }
}

/// `a` comes before `b` in the order of their characters' code points
/// (which is the byte order of their UTF-8 writing).
pub open spec fn name_before(a: Seq<char>, b: Seq<char>) -> bool
    decreases a.len(),
{
    if b.len() == 0 {
        false
    } else if a.len() == 0 {
        true
    } else if a[0] != b[0] {
        a[0] < b[0]
    } else {
        name_before(a.drop_first(), b.drop_first())
    }
}

/// `g` belongs directly to the group `parent` (to no group for `None`).
pub open spec fn belongs_to(g: GroupRow, parent: Option<Seq<char>>) -> bool {
    match (g.parent_id, parent) {
        (None, None) => true,
        (Some(a), Some(b)) => a@ == b,
        _ => false,
    }
}

/// The groups of `groups` that belong directly to `parent`, in the order
/// of `groups`.
pub open spec fn members(groups: Seq<GroupRow>, parent: Option<Seq<char>>) -> Seq<GroupRow>
    decreases groups.len(),
{
    if groups.len() == 0 {
        Seq::empty()
    } else {
        let rest = members(groups.drop_last(), parent);
        if belongs_to(groups.last(), parent) {
            rest.push(groups.last())
        } else {
            rest
        }
    }
}

/// `x` inserted into `s` after every group whose name does not come after
/// its own.
pub open spec fn insert_by_name(s: Seq<GroupRow>, x: GroupRow) -> Seq<GroupRow>
    decreases s.len(),
{
    if s.len() > 0 && name_before(x.name@, s.last().name@) {
        insert_by_name(s.drop_last(), x).push(s.last())
    } else {
        s.push(x)
    }
}

/// `s` ordered by name, groups of the same name in their order in `s`.
pub open spec fn sort_by_name(s: Seq<GroupRow>) -> Seq<GroupRow>
    decreases s.len(),
{
    if s.len() == 0 {
        s
    } else {
        insert_by_name(sort_by_name(s.drop_last()), s.last())
    }
}

/// The groups that belong directly to `parent`, ordered by name.
pub open spec fn subgroups(groups: Seq<GroupRow>, parent: Option<Seq<char>>) -> Seq<GroupRow> {
    sort_by_name(members(groups, parent))
}

/// Each group of `cs` with its depth, each followed by its own subgroups,
/// one level deeper, to at most `levels` levels.
pub open spec fn flat_list(groups: Seq<GroupRow>, cs: Seq<GroupRow>, depth: nat, levels: nat) -> Seq<(GroupRow, nat)>
    decreases levels, cs.len(),
{
    if cs.len() == 0 || levels == 0 {
        Seq::empty()
    } else {
        seq![(cs[0], depth)] + flat_list(groups, subgroups(groups, Some(cs[0].id@)), depth + 1, (levels - 1) as nat)
            + flat_list(groups, cs.drop_first(), depth, levels)
    }
}

/// The hierarchy of `groups` in depth-first order, from the groups that
/// belong to no group, siblings ordered by name, each with its depth. A
/// chain of groups each in the next cannot be longer than the list
/// without going round, so the bound on levels cuts only such a loop.
pub open spec fn flattened(groups: Seq<GroupRow>) -> Seq<(GroupRow, nat)> {
    flat_list(groups, subgroups(groups, None), 0, groups.len() + 1)
}

/// The depths of a flattened list, as whole numbers.
pub open spec fn with_depths(out: Seq<(GroupRow, usize)>) -> Seq<(GroupRow, nat)> {
    out.map_values(|p: (GroupRow, usize)| (p.0, p.1 as nat))
}

/// Whether `a` comes before `b`: see [`name_before`].
fn name_is_before(a: &str, b: &str) -> (r: bool)
    ensures
        r == name_before(a@, b@),
{
    let na = a.unicode_len();
    let nb = b.unicode_len();
    let mut i: usize = 0;
    assert(a@.skip(0) =~= a@);
    assert(b@.skip(0) =~= b@);
    while i < na && i < nb && a.get_char(i) == b.get_char(i)
        invariant
            na == a@.len(),
            nb == b@.len(),
            i <= na,
            i <= nb,
            name_before(a@, b@) == name_before(a@.skip(i as int), b@.skip(i as int)),
        decreases na - i,
    {
        assert(a@.skip(i as int).drop_first() =~= a@.skip(i as int + 1));
        assert(b@.skip(i as int).drop_first() =~= b@.skip(i as int + 1));
        i = i + 1;
    }
    if i >= nb {
        false
    } else if i >= na {
        true
    } else {
        a.get_char(i) < b.get_char(i)
    }
}

/// Whether `g` belongs directly to `parent`.
fn is_member(g: &GroupRow, parent: &Option<String>) -> (r: bool)
    ensures
        r == belongs_to(*g, match parent {
            Some(p) => Some(p@),
            None => None,
        }),
{
    match (&g.parent_id, parent) {
        (None, None) => true,
        (Some(a), Some(b)) => same_text(a.as_str(), b.as_str()),
        _ => false,
    }
}

/// Inserts `x` into `v`: see [`insert_by_name`].
fn insert_sorted(v: &mut Vec<GroupRow>, x: GroupRow)
    ensures
        final(v)@ == insert_by_name(old(v)@, x),
{
    let mut pos = v.len();
    assert(v@.take(pos as int) =~= v@);
    assert(v@.skip(pos as int) =~= Seq::<GroupRow>::empty());
    while pos > 0 && name_is_before(x.name.as_str(), v[pos - 1].name.as_str())
        invariant
            pos <= v@.len(),
            v@ == old(v)@,
            insert_by_name(v@, x) == insert_by_name(v@.take(pos as int), x) + v@.skip(pos as int),
        decreases pos,
    {
        assert(v@.take(pos as int).drop_last() =~= v@.take(pos as int - 1));
        assert(v@.take(pos as int).last() == v@[pos as int - 1]);
        assert(v@.skip(pos as int - 1) =~= seq![v@[pos as int - 1]] + v@.skip(pos as int));
        pos = pos - 1;
    }
    proof {
        if pos == 0 {
            assert(v@.take(0) =~= Seq::<GroupRow>::empty());
        }
    }
    let ghost before = v@;
    v.insert(pos, x);
    assert(v@ =~= before.take(pos as int).push(x) + before.skip(pos as int));
}

/// The groups that belong directly to `parent`, ordered by name.
fn subgroups_of(groups: &Vec<GroupRow>, parent: &Option<String>) -> (cs: Vec<GroupRow>)
    ensures
        cs@ == subgroups(groups@, match parent {
            Some(p) => Some(p@),
            None => None,
        }),
{
    let ghost p = match parent {
        Some(p) => Some(p@),
        None => None::<Seq<char>>,
    };
    let mut cs: Vec<GroupRow> = Vec::new();
    let mut i: usize = 0;
    assert(groups@.take(0) =~= Seq::<GroupRow>::empty());
    while i < groups.len()
        invariant
            i <= groups@.len(),
            p == (match parent {
                Some(q) => Some(q@),
                None => None::<Seq<char>>,
            }),
            cs@ == sort_by_name(members(groups@.take(i as int), p)),
        decreases groups.len() - i,
    {
        proof {
            assert(groups@.take(i as int + 1).drop_last() =~= groups@.take(i as int));
            assert(groups@.take(i as int + 1).last() == groups@[i as int]);
        }
        let ghost m = members(groups@.take(i as int), p);
        if is_member(&groups[i], parent) {
            let g = groups[i].clone();
            proof {
                assert(members(groups@.take(i as int + 1), p) == m.push(g));
                assert(m.push(g).drop_last() =~= m);
                assert(sort_by_name(m.push(g)) == insert_by_name(sort_by_name(m), g));
            }
            insert_sorted(&mut cs, g);
        } else {
            assert(members(groups@.take(i as int + 1), p) == m);
        }
        i = i + 1;
    }
    assert(groups@.take(i as int) =~= groups@);
    cs
}

/// Appends to `out` the groups of `cs` from index `i` on, each with its
/// depth and followed by its own subgroups: see [`flat_list`].
fn flatten_from(
    groups: &Vec<GroupRow>,
    cs: &Vec<GroupRow>,
    i: usize,
    depth: usize,
    levels: usize,
    out: &mut Vec<(GroupRow, usize)>,
)
    requires
        i <= cs@.len(),
        depth + levels <= usize::MAX,
    ensures
        with_depths(final(out)@) == with_depths(old(out)@) + flat_list(groups@, cs@.skip(i as int), depth as nat, levels as nat),
    decreases levels, cs@.len() - i,
{
    if i >= cs.len() || levels == 0 {
        assert(with_depths(out@) =~= with_depths(out@) + flat_list(groups@, cs@.skip(i as int), depth as nat, levels as nat));
        return;
    }
    let ghost start = out@;
    let child = cs[i].clone();
    out.push((child, depth));
    let grand = subgroups_of(groups, &Some(cs[i].id.clone()));
    let ghost mid = out@;
    flatten_from(groups, &grand, 0, depth + 1, levels - 1, out);
    let ghost after_grand = out@;
    flatten_from(groups, cs, i + 1, depth, levels, out);
    proof {
        let s = cs@.skip(i as int);
        assert(s[0] == cs@[i as int]);
        assert(s.drop_first() =~= cs@.skip(i as int + 1));
        assert(grand@.skip(0) =~= grand@);
        assert(with_depths(mid) =~= with_depths(start) + seq![(cs@[i as int], depth as nat)]);
        assert(with_depths(out@) =~= with_depths(start) + flat_list(groups@, s, depth as nat, levels as nat));
    }
}

/// The hierarchy of the groups in depth-first order, each with its depth:
/// see [`flattened`].
pub fn flatten_tree(groups: Vec<GroupRow>) -> (r: Vec<(GroupRow, usize)>)
    requires
        groups@.len() < usize::MAX,
    ensures
        with_depths(r@) == flattened(groups@),
{
    let roots = subgroups_of(&groups, &None);
    let mut result: Vec<(GroupRow, usize)> = Vec::new();
    assert(roots@.skip(0) =~= roots@);
    flatten_from(&groups, &roots, 0, 0, groups.len() + 1, &mut result);
    assert(with_depths(Seq::<(GroupRow, usize)>::empty()) =~= Seq::<(GroupRow, nat)>::empty());
    result
}

/// `chain` goes up the hierarchy from its first group: each group of it is
/// one of `groups`, the parent of each is the next one, and the last one
/// belongs to no group.
pub open spec fn is_parent_chain(groups: Seq<GroupRow>, chain: Seq<GroupRow>) -> bool {
    &&& chain.len() > 0
    &&& forall|i: int| 0 <= i < chain.len() ==> groups.contains(#[trigger] chain[i])
    &&& forall|i: int|
        0 <= i < chain.len() - 1 ==> ((#[trigger] chain[i]).parent_id matches Some(p) && p@ == chain[i + 1].id@)
    &&& chain.last().parent_id is None
}

proof fn lemma_members_contains(groups: Seq<GroupRow>, x: GroupRow, parent: Option<Seq<char>>)
    requires
        groups.contains(x),
        belongs_to(x, parent),
    ensures
        members(groups, parent).contains(x),
    decreases groups.len(),
{
    if groups.last() == x {
        assert(members(groups, parent).last() == x);
    } else {
        let i = choose|i: int| 0 <= i < groups.len() && groups[i] == x;
        assert(groups.drop_last()[i] == x);
        lemma_members_contains(groups.drop_last(), x, parent);
        let rest = members(groups.drop_last(), parent);
        let j = choose|j: int| 0 <= j < rest.len() && rest[j] == x;
        if belongs_to(groups.last(), parent) {
            assert(rest.push(groups.last())[j] == x);
        }
    }
}

proof fn lemma_insert_contains(s: Seq<GroupRow>, y: GroupRow, z: GroupRow)
    requires
        s.contains(z) || z == y,
    ensures
        insert_by_name(s, y).contains(z),
    decreases s.len(),
{
    if s.len() > 0 && name_before(y.name@, s.last().name@) {
        if s.last() == z {
            assert(insert_by_name(s, y).last() == z);
        } else {
            if s.contains(z) {
                let i = choose|i: int| 0 <= i < s.len() && s[i] == z;
                assert(s.drop_last()[i] == z);
            }
            lemma_insert_contains(s.drop_last(), y, z);
            let r = insert_by_name(s.drop_last(), y);
            let j = choose|j: int| 0 <= j < r.len() && r[j] == z;
            assert(r.push(s.last())[j] == z);
        }
    } else {
        if z == y {
            assert(s.push(y)[s.len() as int] == z);
        } else {
            let i = choose|i: int| 0 <= i < s.len() && s[i] == z;
            assert(s.push(y)[i] == z);
        }
    }
}

proof fn lemma_sorted_contains(s: Seq<GroupRow>, x: GroupRow)
    requires
        s.contains(x),
    ensures
        sort_by_name(s).contains(x),
    decreases s.len(),
{
    if s.last() == x {
        lemma_insert_contains(sort_by_name(s.drop_last()), s.last(), x);
    } else {
        let i = choose|i: int| 0 <= i < s.len() && s[i] == x;
        assert(s.drop_last()[i] == x);
        lemma_sorted_contains(s.drop_last(), x);
        lemma_insert_contains(sort_by_name(s.drop_last()), s.last(), x);
    }
}

/// The `i`-th group of `cs` is listed at depth `depth`, and its own list of
/// subgroups, one level deeper, lies within the list of `cs`.
proof fn lemma_flat_includes(groups: Seq<GroupRow>, cs: Seq<GroupRow>, i: int, depth: nat, levels: nat)
    requires
        0 <= i < cs.len(),
        levels > 0,
    ensures
        flat_list(groups, cs, depth, levels).contains((cs[i], depth)),
        forall|z: (GroupRow, nat)|
            #[trigger] flat_list(groups, subgroups(groups, Some(cs[i].id@)), depth + 1, (levels - 1) as nat).contains(z)
                ==> flat_list(groups, cs, depth, levels).contains(z),
    decreases i,
{
    let sub = flat_list(groups, subgroups(groups, Some(cs[0].id@)), depth + 1, (levels - 1) as nat);
    let tail = flat_list(groups, cs.drop_first(), depth, levels);
    let all = flat_list(groups, cs, depth, levels);
    assert(all == seq![(cs[0], depth)] + sub + tail);
    if i == 0 {
        assert(all[0] == (cs[0], depth));
        assert forall|z: (GroupRow, nat)| #[trigger] sub.contains(z) implies all.contains(z) by {
            let j = choose|j: int| 0 <= j < sub.len() && sub[j] == z;
            assert(all[1 + j] == z);
        }
    } else {
        assert(cs.drop_first()[i - 1] == cs[i]);
        lemma_flat_includes(groups, cs.drop_first(), i - 1, depth, levels);
        assert forall|z: (GroupRow, nat)| #[trigger] tail.contains(z) implies all.contains(z) by {
            let j = choose|j: int| 0 <= j < tail.len() && tail[j] == z;
            assert(all[1 + sub.len() + j] == z);
        }
    }
}

/// The group at place `t` of a chain is listed at the depth of its number
/// of groups above it in the chain, and its subgroups' list lies within the
/// whole list, as long as the levels reach that deep.
proof fn lemma_chain_listed(groups: Seq<GroupRow>, chain: Seq<GroupRow>, t: int, levels: nat)
    requires
        is_parent_chain(groups, chain),
        0 <= t < chain.len(),
        levels > chain.len() - 1 - t,
    ensures
        flat_list(groups, subgroups(groups, None), 0, levels).contains((chain[t], (chain.len() - 1 - t) as nat)),
        forall|z: (GroupRow, nat)|
            #[trigger] flat_list(
                groups,
                subgroups(groups, Some(chain[t].id@)),
                (chain.len() - t) as nat,
                (levels - (chain.len() - t)) as nat,
            ).contains(z) ==> flat_list(groups, subgroups(groups, None), 0, levels).contains(z),
    decreases chain.len() - t,
{
    let top = flat_list(groups, subgroups(groups, None), 0, levels);
    let g = chain[t];
    assert(groups.contains(g));
    if t == chain.len() - 1 {
        lemma_members_contains(groups, g, None);
        lemma_sorted_contains(members(groups, None), g);
        let cs = subgroups(groups, None);
        let i = choose|i: int| 0 <= i < cs.len() && cs[i] == g;
        lemma_flat_includes(groups, cs, i, 0, levels);
    } else {
        lemma_chain_listed(groups, chain, t + 1, levels);
        let up = chain[t + 1];
        assert(belongs_to(g, Some(up.id@)));
        lemma_members_contains(groups, g, Some(up.id@));
        lemma_sorted_contains(members(groups, Some(up.id@)), g);
        let cs = subgroups(groups, Some(up.id@));
        let i = choose|i: int| 0 <= i < cs.len() && cs[i] == g;
        let d = (chain.len() - 1 - t) as nat;
        let l = (levels - d) as nat;
        lemma_flat_includes(groups, cs, i, d, l);
        assert forall|z: (GroupRow, nat)|
            #[trigger] flat_list(groups, subgroups(groups, Some(g.id@)), d + 1, (l - 1) as nat).contains(z)
                implies top.contains(z) by {
            assert(flat_list(groups, cs, d, l).contains(z));
        }
    }
}

/// Every group reached from a group of no group by a chain of parents
/// that does not go round is listed, at the depth of its number of
/// ancestors, however deep the hierarchy.
pub proof fn lemma_flattened_lists_every_group(groups: Seq<GroupRow>, chain: Seq<GroupRow>)
    requires
        is_parent_chain(groups, chain),
        chain.no_duplicates(),
    ensures
        flattened(groups).contains((chain[0], (chain.len() - 1) as nat)),
{
    broadcast use vstd::seq_lib::seq_to_set_is_finite;
    assert(chain.to_set().subset_of(groups.to_set())) by {
        assert forall|x: GroupRow| chain.to_set().contains(x) implies groups.to_set().contains(x) by {
            let i = choose|i: int| 0 <= i < chain.len() && chain[i] == x;
            assert(groups.contains(chain[i]));
        }
    }
    chain.unique_seq_to_set();
    groups.lemma_cardinality_of_set();
    vstd::set_lib::lemma_len_subset(chain.to_set(), groups.to_set());
    lemma_chain_listed(groups, chain, 0, (groups.len() + 1) as nat);
}

/// Some chain of parents of `n` groups goes up from `g` to a group of no
/// group (see [`is_parent_chain`]).
pub open spec fn has_chain(groups: Seq<GroupRow>, g: GroupRow, n: nat) -> bool {
    exists|chain: Seq<GroupRow>| #[trigger] is_parent_chain(groups, chain) && chain[0] == g && chain.len() == n
}

proof fn lemma_insert_from(s: Seq<GroupRow>, y: GroupRow, z: GroupRow)
    requires
        insert_by_name(s, y).contains(z),
    ensures
        s.contains(z) || z == y,
    decreases s.len(),
{
    let r = insert_by_name(s, y);
    let j = choose|j: int| 0 <= j < r.len() && r[j] == z;
    if s.len() > 0 && name_before(y.name@, s.last().name@) {
        let r0 = insert_by_name(s.drop_last(), y);
        if j < r0.len() {
            assert(r0[j] == z);
            lemma_insert_from(s.drop_last(), y, z);
            if s.drop_last().contains(z) {
                let i = choose|i: int| 0 <= i < s.drop_last().len() && s.drop_last()[i] == z;
                assert(s[i] == z);
            }
        } else {
            assert(s[s.len() - 1] == z);
        }
    } else {
        if j < s.len() {
            assert(s[j] == z);
        }
    }
}

proof fn lemma_sorted_from(s: Seq<GroupRow>, x: GroupRow)
    requires
        sort_by_name(s).contains(x),
    ensures
        s.contains(x),
    decreases s.len(),
{
    if s.len() > 0 {
        lemma_insert_from(sort_by_name(s.drop_last()), s.last(), x);
        if x != s.last() {
            lemma_sorted_from(s.drop_last(), x);
            let i = choose|i: int| 0 <= i < s.drop_last().len() && s.drop_last()[i] == x;
            assert(s[i] == x);
        } else {
            assert(s[s.len() - 1] == x);
        }
    }
}

proof fn lemma_members_from(groups: Seq<GroupRow>, x: GroupRow, parent: Option<Seq<char>>)
    requires
        members(groups, parent).contains(x),
    ensures
        groups.contains(x),
        belongs_to(x, parent),
    decreases groups.len(),
{
    let rest = members(groups.drop_last(), parent);
    if groups.len() > 0 {
        if belongs_to(groups.last(), parent) && x == groups.last() {
            assert(groups[groups.len() - 1] == x);
        } else {
            if belongs_to(groups.last(), parent) {
                let j = choose|j: int| 0 <= j < rest.push(groups.last()).len() && rest.push(groups.last())[j] == x;
                assert(rest[j] == x);
            }
            lemma_members_from(groups.drop_last(), x, parent);
            let i = choose|i: int| 0 <= i < groups.drop_last().len() && groups.drop_last()[i] == x;
            assert(groups[i] == x);
        }
    }
}

/// Every entry of the list of `cs` and of their subgroups has a chain of
/// parents as long as its depth plus one, when each group of `cs` has one
/// as long as `depth` plus one.
proof fn lemma_flat_chains(groups: Seq<GroupRow>, cs: Seq<GroupRow>, depth: nat, levels: nat)
    requires
        forall|j: int| 0 <= j < cs.len() ==> has_chain(groups, #[trigger] cs[j], depth + 1),
    ensures
        forall|z: (GroupRow, nat)|
            #[trigger] flat_list(groups, cs, depth, levels).contains(z) ==> has_chain(groups, z.0, z.1 + 1),
    decreases levels, cs.len(),
{
    if cs.len() > 0 && levels > 0 {
        let g = cs[0];
        let subs = subgroups(groups, Some(g.id@));
        assert(has_chain(groups, cs[0], depth + 1));
        let cg = choose|chain: Seq<GroupRow>| #[trigger] is_parent_chain(groups, chain) && chain[0] == g && chain.len()
            == depth + 1;
        assert forall|j: int| 0 <= j < subs.len() implies has_chain(groups, #[trigger] subs[j], depth + 2) by {
            let y = subs[j];
            assert(subs.contains(y));
            lemma_sorted_from(members(groups, Some(g.id@)), y);
            lemma_members_from(groups, y, Some(g.id@));
            let cy = seq![y] + cg;
            assert(cy[0] == y);
            assert forall|i: int| 0 <= i < cy.len() implies groups.contains(#[trigger] cy[i]) by {
                if i > 0 {
                    assert(cy[i] == cg[i - 1]);
                }
            }
            assert forall|i: int| 0 <= i < cy.len() - 1 implies ((#[trigger] cy[i]).parent_id matches Some(p) && p@
                == cy[i + 1].id@) by {
                if i > 0 {
                    assert(cy[i] == cg[i - 1]);
                    assert(cy[i + 1] == cg[i]);
                } else {
                    assert(cy[1] == cg[0]);
                }
            }
            assert(cy.last() == cg.last());
            assert(is_parent_chain(groups, cy));
        }
        lemma_flat_chains(groups, subs, depth + 1, (levels - 1) as nat);
        lemma_flat_chains(groups, cs.drop_first(), depth, levels);
        let sub = flat_list(groups, subs, depth + 1, (levels - 1) as nat);
        let tail = flat_list(groups, cs.drop_first(), depth, levels);
        let all = flat_list(groups, cs, depth, levels);
        assert(all == seq![(g, depth)] + sub + tail);
        assert forall|z: (GroupRow, nat)| #[trigger] all.contains(z) implies has_chain(groups, z.0, z.1 + 1) by {
            let j = choose|j: int| 0 <= j < all.len() && all[j] == z;
            if j == 0 {
            } else if j < 1 + sub.len() {
                assert(sub[j - 1] == z);
                assert(sub.contains(z));
            } else {
                assert(tail[j - 1 - sub.len()] == z);
                assert(tail.contains(z));
            }
        }
    }
}

/// Every group listed is one of the groups, and its depth is its number of
/// ancestors: some chain of parents from it to a group of no group has
/// one more group than its depth.
pub proof fn lemma_flattened_depths(groups: Seq<GroupRow>)
    ensures
        forall|z: (GroupRow, nat)| #[trigger] flattened(groups).contains(z) ==> groups.contains(z.0)
            && has_chain(groups, z.0, z.1 + 1),
{
    let cs = subgroups(groups, None);
    assert forall|j: int| 0 <= j < cs.len() implies has_chain(groups, #[trigger] cs[j], 1) by {
        let y = cs[j];
        assert(cs.contains(y));
        lemma_sorted_from(members(groups, None), y);
        lemma_members_from(groups, y, None);
        let c = seq![y];
        assert(is_parent_chain(groups, c));
    }
    lemma_flat_chains(groups, cs, 0, (groups.len() + 1) as nat);
    assert forall|z: (GroupRow, nat)| #[trigger] flattened(groups).contains(z) implies groups.contains(z.0) by {
        let c = choose|chain: Seq<GroupRow>| #[trigger] is_parent_chain(groups, chain) && chain[0] == z.0
            && chain.len() == z.1 + 1;
        assert(groups.contains(c[0]));
    }
}

/// No two groups share an identifier.
pub open spec fn ids_unique(groups: Seq<GroupRow>) -> bool {
    forall|i: int, j: int|
        0 <= i < groups.len() && 0 <= j < groups.len() && (#[trigger] groups[i]).id@ == (#[trigger] groups[j]).id@
            ==> i == j
}

/// With distinct identifiers, two groups of the list with the same
/// identifier are the same group.
proof fn lemma_same_id(groups: Seq<GroupRow>, x: GroupRow, y: GroupRow)
    requires
        ids_unique(groups),
        groups.contains(x),
        groups.contains(y),
        x.id@ == y.id@,
    ensures
        x == y,
{
    let i = choose|i: int| 0 <= i < groups.len() && groups[i] == x;
    let j = choose|j: int| 0 <= j < groups.len() && groups[j] == y;
    assert(groups[i].id@ == groups[j].id@);
}

/// With distinct identifiers, a group has one chain of parents at most.
proof fn lemma_chain_unique(groups: Seq<GroupRow>, c1: Seq<GroupRow>, c2: Seq<GroupRow>)
    requires
        ids_unique(groups),
        is_parent_chain(groups, c1),
        is_parent_chain(groups, c2),
        c1[0] == c2[0],
    ensures
        c1 == c2,
{
    let n = if c1.len() < c2.len() { c1.len() } else { c2.len() };
    assert forall|i: int| 0 <= i < n implies c1[i] == c2[i] by {
        lemma_chains_agree(groups, c1, c2, i);
    }
    if c1.len() < c2.len() {
        assert(c1[c1.len() - 1] == c2[c1.len() - 1]);
        assert(c2[c1.len() - 1].parent_id is Some);
    } else if c2.len() < c1.len() {
        assert(c1[c2.len() - 1] == c2[c2.len() - 1]);
        assert(c1[c2.len() - 1].parent_id is Some);
    }
    assert(c1 =~= c2);
}

proof fn lemma_chains_agree(groups: Seq<GroupRow>, c1: Seq<GroupRow>, c2: Seq<GroupRow>, i: int)
    requires
        ids_unique(groups),
        is_parent_chain(groups, c1),
        is_parent_chain(groups, c2),
        c1[0] == c2[0],
        0 <= i < c1.len(),
        i < c2.len(),
    ensures
        c1[i] == c2[i],
    decreases i,
{
    if i > 0 {
        lemma_chains_agree(groups, c1, c2, i - 1);
        assert(c1[i - 1].parent_id matches Some(p) && p@ == c1[i].id@);
        assert(c2[i - 1].parent_id matches Some(p) && p@ == c2[i].id@);
        assert(groups.contains(c1[i]));
        assert(groups.contains(c2[i]));
        lemma_same_id(groups, c1[i], c2[i]);
    }
}

/// Each entry of the list of `cs` lies at `depth` or deeper, and going up
/// its chain of parents to `depth` leads to one of `cs`.
proof fn lemma_flat_anchor(groups: Seq<GroupRow>, cs: Seq<GroupRow>, depth: nat, levels: nat)
    requires
        ids_unique(groups),
        forall|j: int| 0 <= j < cs.len() ==> has_chain(groups, #[trigger] cs[j], depth + 1),
    ensures
        forall|z: (GroupRow, nat)|
            #[trigger] flat_list(groups, cs, depth, levels).contains(z) ==> z.1 >= depth && exists|c: Seq<GroupRow>|
                #[trigger] is_parent_chain(groups, c) && c[0] == z.0 && c.len() == z.1 + 1 && cs.contains(
                    c[z.1 - depth],
                ),
    decreases levels, cs.len(),
{
    if cs.len() > 0 && levels > 0 {
        let g = cs[0];
        let subs = subgroups(groups, Some(g.id@));
        let cg = choose|chain: Seq<GroupRow>| #[trigger] is_parent_chain(groups, chain) && chain[0] == g && chain.len()
            == depth + 1;
        assert(has_chain(groups, cs[0], depth + 1));
        lemma_subs_chains(groups, g, cg, depth);
        lemma_flat_anchor(groups, subs, depth + 1, (levels - 1) as nat);
        lemma_flat_anchor(groups, cs.drop_first(), depth, levels);
        let sub = flat_list(groups, subs, depth + 1, (levels - 1) as nat);
        let tail = flat_list(groups, cs.drop_first(), depth, levels);
        let all = flat_list(groups, cs, depth, levels);
        assert(all == seq![(g, depth)] + sub + tail);
        assert forall|z: (GroupRow, nat)| #[trigger] all.contains(z) implies z.1 >= depth && exists|c: Seq<GroupRow>|
            #[trigger] is_parent_chain(groups, c) && c[0] == z.0 && c.len() == z.1 + 1 && cs.contains(c[z.1 - depth]) by {
            let j = choose|j: int| 0 <= j < all.len() && all[j] == z;
            if j == 0 {
                assert(cg[0] == g);
                assert(cs.contains(cg[z.1 - depth]));
            } else if j < 1 + sub.len() {
                assert(sub[j - 1] == z);
                assert(sub.contains(z));
                let c = choose|c: Seq<GroupRow>| #[trigger] is_parent_chain(groups, c) && c[0] == z.0 && c.len() == z.1
                    + 1 && subs.contains(c[z.1 - (depth + 1)]);
                lemma_sub_parent(groups, g, c, z.1 - (depth + 1));
                assert(cs.contains(c[z.1 - depth]));
            } else {
                assert(tail[j - 1 - sub.len()] == z);
                assert(tail.contains(z));
                let c = choose|c: Seq<GroupRow>| #[trigger] is_parent_chain(groups, c) && c[0] == z.0 && c.len() == z.1
                    + 1 && cs.drop_first().contains(c[z.1 - depth]);
                let k = choose|k: int| 0 <= k < cs.drop_first().len() && cs.drop_first()[k] == c[z.1 - depth];
                assert(cs[k + 1] == c[z.1 - depth]);
            }
        }
    }
}

/// The subgroups of `g` have a chain one longer than that of `g`.
proof fn lemma_subs_chains(groups: Seq<GroupRow>, g: GroupRow, cg: Seq<GroupRow>, depth: nat)
    requires
        is_parent_chain(groups, cg),
        cg[0] == g,
        cg.len() == depth + 1,
    ensures
        forall|j: int|
            0 <= j < subgroups(groups, Some(g.id@)).len() ==> has_chain(
                groups,
                #[trigger] subgroups(groups, Some(g.id@))[j],
                depth + 2,
            ),
{
    let subs = subgroups(groups, Some(g.id@));
    assert forall|j: int| 0 <= j < subs.len() implies has_chain(groups, #[trigger] subs[j], depth + 2) by {
        let y = subs[j];
        assert(subs.contains(y));
        lemma_sorted_from(members(groups, Some(g.id@)), y);
        lemma_members_from(groups, y, Some(g.id@));
        let cy = seq![y] + cg;
        assert(cy[0] == y);
        assert forall|i: int| 0 <= i < cy.len() implies groups.contains(#[trigger] cy[i]) by {
            if i > 0 {
                assert(cy[i] == cg[i - 1]);
            }
        }
        assert forall|i: int| 0 <= i < cy.len() - 1 implies ((#[trigger] cy[i]).parent_id matches Some(p) && p@
            == cy[i + 1].id@) by {
            if i > 0 {
                assert(cy[i] == cg[i - 1]);
                assert(cy[i + 1] == cg[i]);
            } else {
                assert(cy[1] == cg[0]);
            }
        }
        assert(cy.last() == cg.last());
        assert(is_parent_chain(groups, cy));
    }
}

/// In a chain, the group above a subgroup of `g` is `g`.
proof fn lemma_sub_parent(groups: Seq<GroupRow>, g: GroupRow, c: Seq<GroupRow>, k: int)
    requires
        ids_unique(groups),
        groups.contains(g),
        is_parent_chain(groups, c),
        0 <= k < c.len() - 1,
        subgroups(groups, Some(g.id@)).contains(c[k]),
    ensures
        c[k + 1] == g,
{
    lemma_sorted_from(members(groups, Some(g.id@)), c[k]);
    lemma_members_from(groups, c[k], Some(g.id@));
    assert(c[k].parent_id matches Some(p) && p@ == c[k + 1].id@);
    assert(groups.contains(c[k + 1]));
    lemma_same_id(groups, c[k + 1], g);
}

proof fn lemma_concat_distinct<A>(a: Seq<A>, b: Seq<A>)
    requires
        a.no_duplicates(),
        b.no_duplicates(),
        forall|x: A| a.contains(x) ==> !b.contains(x),
    ensures
        (a + b).no_duplicates(),
{
    let s = a + b;
    assert forall|i: int, j: int| 0 <= i < s.len() && 0 <= j < s.len() && i != j implies s[i] != s[j] by {
        if i < a.len() && j >= a.len() {
            assert(a.contains(s[i]));
            assert(b[j - a.len()] == s[j]);
        } else if j < a.len() && i >= a.len() {
            assert(a.contains(s[j]));
            assert(b[i - a.len()] == s[i]);
        } else if i >= a.len() && j >= a.len() {
            assert(b[i - a.len()] == s[i]);
            assert(b[j - a.len()] == s[j]);
        }
    }
}

proof fn lemma_members_distinct(groups: Seq<GroupRow>, parent: Option<Seq<char>>)
    requires
        groups.no_duplicates(),
    ensures
        members(groups, parent).no_duplicates(),
    decreases groups.len(),
{
    if groups.len() > 0 {
        let init = groups.drop_last();
        assert(init.no_duplicates());
        lemma_members_distinct(init, parent);
        if belongs_to(groups.last(), parent) {
            let m = members(init, parent);
            if m.contains(groups.last()) {
                lemma_members_from(init, groups.last(), parent);
                let i = choose|i: int| 0 <= i < init.len() && init[i] == groups.last();
                assert(groups[i] == groups[groups.len() - 1]);
            }
            assert(m.push(groups.last()) =~= m + seq![groups.last()]);
            lemma_concat_distinct(m, seq![groups.last()]);
        }
    }
}

proof fn lemma_insert_distinct(s: Seq<GroupRow>, y: GroupRow)
    requires
        s.no_duplicates(),
        !s.contains(y),
    ensures
        insert_by_name(s, y).no_duplicates(),
    decreases s.len(),
{
    if s.len() > 0 && name_before(y.name@, s.last().name@) {
        let init = s.drop_last();
        if init.contains(y) {
            let i = choose|i: int| 0 <= i < init.len() && init[i] == y;
            assert(s[i] == y);
        }
        lemma_insert_distinct(init, y);
        let r = insert_by_name(init, y);
        if r.contains(s.last()) {
            lemma_insert_from(init, y, s.last());
            if init.contains(s.last()) {
                let i = choose|i: int| 0 <= i < init.len() && init[i] == s.last();
                assert(s[i] == s[s.len() - 1]);
            }
            assert(s.contains(s.last()));
        }
        assert(r.push(s.last()) =~= r + seq![s.last()]);
        lemma_concat_distinct(r, seq![s.last()]);
    } else {
        assert(s.push(y) =~= s + seq![y]);
        lemma_concat_distinct(s, seq![y]);
    }
}

proof fn lemma_sorted_distinct(s: Seq<GroupRow>)
    requires
        s.no_duplicates(),
    ensures
        sort_by_name(s).no_duplicates(),
    decreases s.len(),
{
    if s.len() > 0 {
        let init = s.drop_last();
        lemma_sorted_distinct(init);
        if sort_by_name(init).contains(s.last()) {
            lemma_sorted_from(init, s.last());
            let i = choose|i: int| 0 <= i < init.len() && init[i] == s.last();
            assert(s[i] == s[s.len() - 1]);
        }
        lemma_insert_distinct(sort_by_name(init), s.last());
    }
}

proof fn lemma_subgroups_distinct(groups: Seq<GroupRow>, parent: Option<Seq<char>>)
    requires
        ids_unique(groups),
    ensures
        subgroups(groups, parent).no_duplicates(),
{
    assert(groups.no_duplicates()) by {
        assert forall|i: int, j: int| 0 <= i < groups.len() && 0 <= j < groups.len() && i != j implies groups[i]
            != groups[j] by {
            if groups[i] == groups[j] {
                assert(groups[i].id@ == groups[j].id@);
            }
        }
    }
    lemma_members_distinct(groups, parent);
    lemma_sorted_distinct(members(groups, parent));
}

/// No entry of the list of `cs` is repeated, when identifiers are distinct.
proof fn lemma_flat_distinct(groups: Seq<GroupRow>, cs: Seq<GroupRow>, depth: nat, levels: nat)
    requires
        ids_unique(groups),
        cs.no_duplicates(),
        forall|j: int| 0 <= j < cs.len() ==> has_chain(groups, #[trigger] cs[j], depth + 1),
    ensures
        flat_list(groups, cs, depth, levels).no_duplicates(),
    decreases levels, cs.len(),
{
    if cs.len() > 0 && levels > 0 {
        let g = cs[0];
        let subs = subgroups(groups, Some(g.id@));
        let cg = choose|chain: Seq<GroupRow>| #[trigger] is_parent_chain(groups, chain) && chain[0] == g && chain.len()
            == depth + 1;
        assert(has_chain(groups, cs[0], depth + 1));
        assert(groups.contains(cg[0]));
        lemma_subs_chains(groups, g, cg, depth);
        lemma_subgroups_distinct(groups, Some(g.id@));
        lemma_flat_distinct(groups, subs, depth + 1, (levels - 1) as nat);
        let rest = cs.drop_first();
        assert(rest.no_duplicates()) by {
            assert forall|i: int, j: int| 0 <= i < rest.len() && 0 <= j < rest.len() && i != j implies rest[i]
                != rest[j] by {
                assert(rest[i] == cs[i + 1] && rest[j] == cs[j + 1]);
            }
        }
        assert(!rest.contains(g)) by {
            if rest.contains(g) {
                let k = choose|k: int| 0 <= k < rest.len() && rest[k] == g;
                assert(cs[k + 1] == cs[0]);
            }
        }
        lemma_flat_distinct(groups, rest, depth, levels);
        lemma_flat_anchor(groups, subs, depth + 1, (levels - 1) as nat);
        lemma_flat_anchor(groups, rest, depth, levels);
        let sub = flat_list(groups, subs, depth + 1, (levels - 1) as nat);
        let tail = flat_list(groups, rest, depth, levels);
        let head = seq![(g, depth)];
        assert(flat_list(groups, cs, depth, levels) == head + sub + tail);
        assert forall|z: (GroupRow, nat)| head.contains(z) implies !sub.contains(z) by {
            assert(z == (g, depth));
        }
        lemma_concat_distinct(head, sub);
        assert forall|z: (GroupRow, nat)| (head + sub).contains(z) implies !tail.contains(z) by {
            if tail.contains(z) {
                let c2 = choose|c: Seq<GroupRow>| #[trigger] is_parent_chain(groups, c) && c[0] == z.0 && c.len() == z.1
                    + 1 && rest.contains(c[z.1 - depth]);
                let i = choose|i: int| 0 <= i < (head + sub).len() && (head + sub)[i] == z;
                if i == 0 {
                    assert(z == (g, depth));
                    lemma_chain_unique(groups, cg, c2);
                    assert(c2[0] == g);
                } else {
                    assert(sub[i - 1] == z);
                    assert(sub.contains(z));
                    let c1 = choose|c: Seq<GroupRow>| #[trigger] is_parent_chain(groups, c) && c[0] == z.0 && c.len()
                        == z.1 + 1 && subs.contains(c[z.1 - (depth + 1)]);
                    lemma_sub_parent(groups, g, c1, z.1 - (depth + 1));
                    lemma_chain_unique(groups, c1, c2);
                }
            }
        }
        lemma_concat_distinct(head + sub, tail);
    }
}

/// With distinct identifiers, each group is listed once at most: the list
/// repeats no entry, and a group listed twice would have two depths,
/// which its one chain of parents rules out.
pub proof fn lemma_flattened_lists_once(groups: Seq<GroupRow>)
    requires
        ids_unique(groups),
    ensures
        flattened(groups).no_duplicates(),
        forall|i: int, j: int|
            0 <= i < flattened(groups).len() && 0 <= j < flattened(groups).len() && (#[trigger] flattened(groups)[i]).0
                == (#[trigger] flattened(groups)[j]).0 ==> i == j,
{
    let cs = subgroups(groups, None);
    assert forall|j: int| 0 <= j < cs.len() implies has_chain(groups, #[trigger] cs[j], 1) by {
        let y = cs[j];
        assert(cs.contains(y));
        lemma_sorted_from(members(groups, None), y);
        lemma_members_from(groups, y, None);
        assert(is_parent_chain(groups, seq![y]));
    }
    lemma_subgroups_distinct(groups, None);
    lemma_flat_distinct(groups, cs, 0, (groups.len() + 1) as nat);
    lemma_flattened_depths(groups);
    let f = flattened(groups);
    assert forall|i: int, j: int|
        0 <= i < f.len() && 0 <= j < f.len() && (#[trigger] f[i]).0 == (#[trigger] f[j]).0 implies i == j by {
        assert(f.contains(f[i]));
        assert(f.contains(f[j]));
        let c1 = choose|c: Seq<GroupRow>| #[trigger] is_parent_chain(groups, c) && c[0] == f[i].0 && c.len() == f[i].1 + 1;
        let c2 = choose|c: Seq<GroupRow>| #[trigger] is_parent_chain(groups, c) && c[0] == f[j].0 && c.len() == f[j].1 + 1;
        lemma_chain_unique(groups, c1, c2);
        assert(f[i] == f[j]);
    }
}

} // verus!
