//! The membership of a replica group: stable, or in transition between two
//! memberships whose majorities must then both agree.
use crate::consensus::messages::{copy_nodes, NodeId};
use std::collections::{HashMap, HashSet};
use vstd::prelude::*;

verus! {

broadcast use vstd::std_specs::hash::group_hash_axioms;

/// The replicas that take part in elections and commits.
#[derive(Debug)]
pub enum ConfigState {
    Stable(Vec<NodeId>),
    Joint { old: Vec<NodeId>, new: Vec<NodeId> },
}

/// A membership as a mathematical value.
#[verifier::ext_equal]
pub enum ConfigView {
    Stable(Seq<NodeId>),
    Joint { old: Seq<NodeId>, new: Seq<NodeId> },
}

impl View for ConfigState {
    type V = ConfigView;

    open spec fn view(&self) -> ConfigView {
        match self {
            ConfigState::Stable(nodes) => ConfigView::Stable(nodes@),
            ConfigState::Joint { old, new } => ConfigView::Joint { old: old@, new: new@ },
        }
    }
}

impl Clone for ConfigState {
    fn clone(&self) -> (r: Self)
        ensures
            r@ == self@,
    {
        match self {
            ConfigState::Stable(nodes) => ConfigState::Stable(copy_nodes(nodes.as_slice())),
            ConfigState::Joint { old, new } => ConfigState::Joint {
                old: copy_nodes(old.as_slice()),
                new: copy_nodes(new.as_slice()),
            },
        }
    }
}

// ----------------------------------------------------------------------
// Majorities
// ----------------------------------------------------------------------
/// How many places of the list hold a member of `s`.
pub open spec fn count_in(nodes: Seq<NodeId>, s: Set<NodeId>) -> nat
    decreases nodes.len(),
{
    if nodes.len() == 0 {
        0
    } else {
        count_in(nodes.drop_last(), s) + (if s.contains(nodes.last()) {
            1nat
        } else {
            0nat
        })
    }
}

/// More than half of the list's places hold a member of `s`.
pub open spec fn majority(nodes: Seq<NodeId>, s: Set<NodeId>) -> bool {
    count_in(nodes, s) > nodes.len() / 2
}

impl ConfigView {
    /// `s` holds a majority of the membership, or of both memberships while
    /// it changes.
    pub open spec fn quorum(self, s: Set<NodeId>) -> bool {
        match self {
            ConfigView::Stable(nodes) => majority(nodes, s),
            ConfigView::Joint { old, new } => majority(old, s) && majority(new, s),
        }
    }

    /// `n` is a member.
    pub open spec fn has(self, n: NodeId) -> bool {
        match self {
            ConfigView::Stable(nodes) => nodes.contains(n),
            ConfigView::Joint { old, new } => old.contains(n) || new.contains(n),
        }
    }

    /// The members as a list: a stable membership as it was given, the members
    /// of a changing one in ascending order.
    pub open spec fn all_nodes(self) -> Seq<NodeId> {
        match self {
            ConfigView::Stable(nodes) => nodes,
            ConfigView::Joint { old, new } => ascending(old.to_set().union(new.to_set())),
        }
    }
}

/// The replicas known to hold the log up to `index`: those that confirmed it,
/// and the leader itself, whose log ends at `last_log_idx`.
pub open spec fn holders(
    match_index: Map<NodeId, u64>,
    self_id: NodeId,
    last_log_idx: u64,
    index: u64,
) -> Set<NodeId> {
    Set::new(
        |n: NodeId|
            if n == self_id {
                last_log_idx >= index
            } else if match_index.dom().contains(n) {
                match_index[n] >= index
            } else {
                index == 0
            },
    )
}

/// Each member of the list is smaller than the next.
pub open spec fn strictly_ascending(s: Seq<NodeId>) -> bool {
    forall|i: int, j: int| 0 <= i < j < s.len() ==> s[i] < s[j]
}

/// The members of a set in ascending order.
pub open spec fn ascending(s: Set<NodeId>) -> Seq<NodeId> {
    choose|l: Seq<NodeId>| strictly_ascending(l) && l.to_set() == s
}

/// There is only one ascending list of the members of a set.
pub proof fn lemma_ascending_unique(a: Seq<NodeId>, b: Seq<NodeId>)
    requires
        strictly_ascending(a),
        strictly_ascending(b),
        forall|x: NodeId| a.contains(x) == b.contains(x),
    ensures
        a == b,
    decreases a.len(),
{
    if a.len() == 0 {
        if b.len() > 0 {
            assert(b.contains(b[0]));
        }
        assert(a =~= b);
    } else {
        assert(a.contains(a.last()));
        assert(b.len() > 0);
        let i = choose|i: int| 0 <= i < b.len() && b[i] == a.last();
        let j = choose|j: int| 0 <= j < a.len() && a[j] == b.last();
        assert(b.contains(b.last()));
        assert(a.last() == b.last());
        let x = a.drop_last();
        let y = b.drop_last();
        assert forall|n: NodeId| x.contains(n) == y.contains(n) by {
            if x.contains(n) {
                let k = choose|k: int| 0 <= k < x.len() && x[k] == n;
                assert(a[k] == n && n != a.last());
                assert(a.contains(n));
                let m = choose|m: int| 0 <= m < b.len() && b[m] == n;
                assert(y[m] == n);
            }
            if y.contains(n) {
                let k = choose|k: int| 0 <= k < y.len() && y[k] == n;
                assert(b[k] == n && n != b.last());
                assert(b.contains(n));
                let m = choose|m: int| 0 <= m < a.len() && a[m] == n;
                assert(x[m] == n);
            }
        }
        lemma_ascending_unique(x, y);
        assert(a =~= x.push(a.last()));
        assert(b =~= y.push(b.last()));
    }
}

/// The ascending list that a function built is the one that is meant.
pub proof fn lemma_is_ascending(l: Seq<NodeId>, s: Set<NodeId>)
    requires
        strictly_ascending(l),
        forall|n: NodeId| l.contains(n) == s.contains(n),
    ensures
        ascending(s) == l,
{
    assert(l.to_set() =~= s);
    let a = ascending(s);
    assert(strictly_ascending(a) && a.to_set() == s);
    assert forall|x: NodeId| a.contains(x) == l.contains(x) by {
        assert(a.to_set().contains(x) == a.contains(x));
    }
    lemma_ascending_unique(a, l);
}

/// How many members of an ascending list are smaller than `x`.
spec fn smaller(l: Seq<NodeId>, x: NodeId) -> int
    decreases l.len(),
{
    if l.len() == 0 || l.last() < x {
        l.len() as int
    } else {
        smaller(l.drop_last(), x)
    }
}

proof fn lemma_smaller(l: Seq<NodeId>, x: NodeId)
    requires
        strictly_ascending(l),
    ensures
        0 <= smaller(l, x) <= l.len(),
        forall|i: int| 0 <= i < smaller(l, x) ==> l[i] < x,
        forall|i: int| smaller(l, x) <= i < l.len() ==> l[i] >= x,
    decreases l.len(),
{
    if l.len() > 0 && l.last() >= x {
        let front = l.drop_last();
        lemma_smaller(front, x);
        assert forall|i: int| 0 <= i < smaller(l, x) implies l[i] < x by {
            assert(front[i] == l[i]);
        }
        assert forall|i: int| smaller(l, x) <= i < l.len() implies l[i] >= x by {
            if i < front.len() {
                assert(front[i] == l[i]);
            }
        }
    }
}

/// The members of a finite set can be listed in ascending order, and
/// [`ascending`] is that list.
pub proof fn lemma_ascending(s: Set<NodeId>)
    requires
        s.finite(),
    ensures
        strictly_ascending(ascending(s)),
        ascending(s).to_set() == s,
    decreases s.len(),
{
    if s.len() == 0 {
        let none = Seq::<NodeId>::empty();
        assert(none.to_set() =~= s);
        assert(strictly_ascending(none) && none.to_set() == s);
    } else {
        let x = s.choose();
        let rest = s.remove(x);
        lemma_ascending(rest);
        let l = ascending(rest);
        lemma_smaller(l, x);
        let p = smaller(l, x);
        let all = l.insert(p, x);
        assert forall|n: NodeId| #[trigger] l.contains(n) == rest.contains(n) by {
            assert(l.to_set().contains(n) == l.contains(n));
        }
        assert forall|i: int| p <= i < l.len() implies l[i] > x by {
            assert(l.contains(l[i]));
        }
        assert forall|i: int, j: int| 0 <= i < j < all.len() implies all[i] < all[j] by {
            if j < p {
                assert(all[i] == l[i] && all[j] == l[j]);
            } else if j == p {
                assert(all[i] == l[i]);
            } else {
                assert(all[j] == l[j - 1]);
                if i < p {
                    assert(all[i] == l[i]);
                } else if i > p {
                    assert(all[i] == l[i - 1]);
                }
            }
        }
        assert forall|n: NodeId| #[trigger] all.to_set().contains(n) == s.contains(n) by {
            if all.contains(n) {
                let i = choose|i: int| 0 <= i < all.len() && all[i] == n;
                if i < p {
                    assert(l[i] == n);
                    assert(l.contains(n));
                } else if i > p {
                    assert(l[i - 1] == n);
                    assert(l.contains(n));
                }
            }
            if s.contains(n) {
                if n == x {
                    assert(all[p] == n);
                } else {
                    assert(l.contains(n));
                    let i = choose|i: int| 0 <= i < l.len() && l[i] == n;
                    if i < p {
                        assert(all[i] == n);
                    } else {
                        assert(all[i + 1] == n);
                    }
                }
            }
        }
        assert(all.to_set() =~= s);
        assert(strictly_ascending(all) && all.to_set() == s);
    }
}

/// Inserts `x` into an ascending list, unless it is there already.
fn insert_ascending(list: &mut Vec<NodeId>, x: NodeId)
    requires
        strictly_ascending(old(list)@),
    ensures
        strictly_ascending(final(list)@),
        forall|n: NodeId| final(list)@.contains(n) == (old(list)@.contains(n) || n == x),
{
    let mut i: usize = 0;
    while i < list.len() && list[i] < x
        invariant
            i <= list@.len(),
            list@ == old(list)@,
            strictly_ascending(list@),
            forall|j: int| 0 <= j < i ==> list@[j] < x,
        decreases list@.len() - i,
    {
        i = i + 1;
    }
    let ghost before = list@;
    if i < list.len() && list[i] == x {
        assert(before.contains(x));
        return;
    }
    list.insert(i, x);
    let ghost after = list@;
    proof {
        assert(after == before.insert(i as int, x));
        assert(before == old(list)@);
        assert forall|n: NodeId| #[trigger] after.contains(n) == (before.contains(n) || n == x) by {
            if before.contains(n) {
                let k = choose|k: int| 0 <= k < before.len() && before[k] == n;
                if k < i {
                    assert(after[k] == n);
                } else {
                    assert(after[k + 1] == n);
                }
            }
            if n == x {
                assert(after[i as int] == x);
            }
            if after.contains(n) && n != x {
                let k = choose|k: int| 0 <= k < after.len() && after[k] == n;
                if k < i {
                    assert(before[k] == n);
                } else {
                    assert(before[k - 1] == n);
                }
            }
        }
    }
}

/// How many places of the list hold a vote or this replica.
fn count_votes(nodes: &[NodeId], votes: &HashSet<NodeId>, self_id: NodeId) -> (r: usize)
    ensures
        r == count_in(nodes@, votes@.insert(self_id)),
        r <= nodes@.len(),
{
    let mut count: usize = 0;
    let mut i: usize = 0;
    while i < nodes.len()
        invariant
            i <= nodes@.len(),
            count <= i,
            count == count_in(nodes@.take(i as int), votes@.insert(self_id)),
        decreases nodes@.len() - i,
    {
        let n: NodeId = nodes[i];
        assert(nodes@.take(i + 1).drop_last() =~= nodes@.take(i as int));
        if votes.contains(&n) || n == self_id {
            count = count + 1;
        }
        i = i + 1;
    }
    assert(nodes@.take(i as int) =~= nodes@);
    count
}

/// How many places of the list hold a replica that has the log up to `index`.
fn count_holders(
    nodes: &[NodeId],
    match_index: &HashMap<NodeId, u64>,
    self_id: NodeId,
    last_log_idx: u64,
    index: u64,
) -> (r: usize)
    ensures
        r == count_in(nodes@, holders(match_index@, self_id, last_log_idx, index)),
        r <= nodes@.len(),
{
    let ghost held = holders(match_index@, self_id, last_log_idx, index);
    let mut count: usize = 0;
    let mut i: usize = 0;
    while i < nodes.len()
        invariant
            i <= nodes@.len(),
            count <= i,
            held == holders(match_index@, self_id, last_log_idx, index),
            count == count_in(nodes@.take(i as int), held),
        decreases nodes@.len() - i,
    {
        let n: NodeId = nodes[i];
        assert(nodes@.take(i + 1).drop_last() =~= nodes@.take(i as int));
        let matched: u64 = if n == self_id {
            last_log_idx
        } else {
            match match_index.get(&n) {
                Some(m) => *m,
                None => 0,
            }
        };
        if matched >= index {
            count = count + 1;
        }
        i = i + 1;
    }
    assert(nodes@.take(i as int) =~= nodes@);
    count
}

impl ConfigState {
    /// The members as a list: a stable membership as it was given, the members
    /// of a changing one in ascending order.
    pub fn all_nodes(&self) -> (r: Vec<NodeId>)
        ensures
            r@ == self@.all_nodes(),
            forall|n: NodeId| r@.contains(n) == self@.has(n),
            self@ is Joint ==> strictly_ascending(r@),
    {
        match self {
            ConfigState::Stable(nodes) => copy_nodes(nodes.as_slice()),
            ConfigState::Joint { old, new } => {
                let mut list: Vec<NodeId> = Vec::new();
                let mut i: usize = 0;
                while i < old.len()
                    invariant
                        i <= old@.len(),
                        strictly_ascending(list@),
                        forall|n: NodeId|
                            list@.contains(n) == old@.take(i as int).contains(n),
                    decreases old@.len() - i,
                {
                    insert_ascending(&mut list, old[i]);
                    proof {
                        lemma_take_contains(old@, i as int);
                    }
                    i = i + 1;
                }
                assert(old@.take(i as int) =~= old@);
                let mut j: usize = 0;
                while j < new.len()
                    invariant
                        j <= new@.len(),
                        strictly_ascending(list@),
                        forall|n: NodeId|
                            list@.contains(n) == (old@.contains(n) || new@.take(
                                j as int,
                            ).contains(n)),
                    decreases new@.len() - j,
                {
                    insert_ascending(&mut list, new[j]);
                    proof {
                        lemma_take_contains(new@, j as int);
                    }
                    j = j + 1;
                }
                assert(new@.take(j as int) =~= new@);
                proof {
                    lemma_is_ascending(list@, old@.to_set().union(new@.to_set()));
                }
                list
            },
        }
    }

    /// Whether the votes, together with this replica's own, are a majority of
    /// the membership, or of both memberships while it changes.
    pub fn is_quorum(&self, votes: &HashSet<NodeId>, self_id: NodeId) -> (r: bool)
        ensures
            r == self@.quorum(votes@.insert(self_id)),
    {
        match self {
            ConfigState::Stable(nodes) => {
                let count: usize = count_votes(nodes.as_slice(), votes, self_id);
                count > nodes.len() / 2
            },
            ConfigState::Joint { old, new } => {
                let count_old: usize = count_votes(old.as_slice(), votes, self_id);
                let count_new: usize = count_votes(new.as_slice(), votes, self_id);
                count_old > old.len() / 2 && count_new > new.len() / 2
            },
        }
    }

    /// Whether enough replicas hold the log up to `index` for it to be
    /// committed.
    pub fn can_commit(
        &self,
        match_index: &HashMap<NodeId, u64>,
        self_id: NodeId,
        last_log_idx: u64,
        index: u64,
    ) -> (r: bool)
        ensures
            r == self@.quorum(holders(match_index@, self_id, last_log_idx, index)),
    {
        match self {
            ConfigState::Stable(nodes) => {
                let count: usize = count_holders(
                    nodes.as_slice(),
                    match_index,
                    self_id,
                    last_log_idx,
                    index,
                );
                count > nodes.len() / 2
            },
            ConfigState::Joint { old, new } => {
                let count_old: usize = count_holders(
                    old.as_slice(),
                    match_index,
                    self_id,
                    last_log_idx,
                    index,
                );
                let count_new: usize = count_holders(
                    new.as_slice(),
                    match_index,
                    self_id,
                    last_log_idx,
                    index,
                );
                count_old > old.len() / 2 && count_new > new.len() / 2
            },
        }
    }
}

/// A longer initial part of a list has one more member.
pub proof fn lemma_take_contains(s: Seq<NodeId>, i: int)
    requires
        0 <= i < s.len(),
    ensures
        forall|n: NodeId| s.take(i + 1).contains(n) == (s.take(i).contains(n) || n == s[i]),
{
    let longer = s.take(i + 1);
    let shorter = s.take(i);
    assert forall|n: NodeId| longer.contains(n) == (shorter.contains(n) || n == s[i]) by {
        if shorter.contains(n) {
            let k = choose|k: int| 0 <= k < shorter.len() && shorter[k] == n;
            assert(longer[k] == n);
        }
        if n == s[i] {
            assert(longer[i] == n);
        }
        if longer.contains(n) && n != s[i] {
            let k = choose|k: int| 0 <= k < longer.len() && longer[k] == n;
            assert(shorter[k] == n);
        }
    }
}

// ----------------------------------------------------------------------
// Laws
// ----------------------------------------------------------------------
/// The places of a list that hold members of two sets are counted twice, once
/// for each.
proof fn lemma_count_overlap(nodes: Seq<NodeId>, a: Set<NodeId>, b: Set<NodeId>)
    ensures
        count_in(nodes, a) + count_in(nodes, b) <= nodes.len() + count_in(nodes, a.intersect(b)),
        count_in(nodes, a) <= nodes.len(),
    decreases nodes.len(),
{
    if nodes.len() > 0 {
        lemma_count_overlap(nodes.drop_last(), a, b);
    }
}

/// Where places are counted, there is one that holds a counted member.
proof fn lemma_count_witness(nodes: Seq<NodeId>, s: Set<NodeId>) -> (n: NodeId)
    requires
        count_in(nodes, s) > 0,
    ensures
        s.contains(n),
        nodes.contains(n),
    decreases nodes.len(),
{
    if s.contains(nodes.last()) {
        assert(nodes[nodes.len() - 1] == nodes.last());
        nodes.last()
    } else {
        let n = lemma_count_witness(nodes.drop_last(), s);
        let k = choose|k: int| 0 <= k < nodes.drop_last().len() && nodes.drop_last()[k] == n;
        assert(nodes[k] == n);
        n
    }
}

/// Two majorities of the same list have a member in common.
pub proof fn lemma_majorities_meet(nodes: Seq<NodeId>, a: Set<NodeId>, b: Set<NodeId>) -> (n:
    NodeId)
    requires
        majority(nodes, a),
        majority(nodes, b),
    ensures
        nodes.contains(n),
        a.contains(n),
        b.contains(n),
{
    lemma_count_overlap(nodes, a, b);
    lemma_count_witness(nodes, a.intersect(b))
}

/// Two memberships that may be in force at the same time: they are the same,
/// or one is the transition that leaves or enters the other.
pub open spec fn adjacent(a: ConfigView, b: ConfigView) -> bool {
    ||| a == b
    ||| match (a, b) {
        (ConfigView::Stable(s), ConfigView::Joint { old, new }) => s == old || s == new,
        (ConfigView::Joint { old, new }, ConfigView::Stable(s)) => s == old || s == new,
        (
            ConfigView::Joint { old: o1, new: n1 },
            ConfigView::Joint { old: o2, new: n2 },
        ) => o1 == o2 || n1 == n2 || o1 == n2 || n1 == o2,
        (ConfigView::Stable(s), ConfigView::Stable(t)) => s == t,
    }
}

/// Quorums of two memberships of which one is the transition from or to the
/// other have a member in common: while the membership changes, no two
/// disjoint groups of replicas can each make a decision.
pub proof fn lemma_quorums_meet(
    c: ConfigView,
    d: ConfigView,
    a: Set<NodeId>,
    b: Set<NodeId>,
) -> (n: NodeId)
    requires
        adjacent(c, d),
        c.quorum(a),
        d.quorum(b),
    ensures
        c.has(n),
        d.has(n),
        a.contains(n),
        b.contains(n),
{
    match (c, d) {
        (ConfigView::Stable(s), ConfigView::Stable(t)) => lemma_majorities_meet(s, a, b),
        (ConfigView::Stable(s), ConfigView::Joint { old, new }) => lemma_majorities_meet(s, a, b),
        (ConfigView::Joint { old, new }, ConfigView::Stable(s)) => lemma_majorities_meet(s, a, b),
        (ConfigView::Joint { old: o1, new: n1 }, ConfigView::Joint { old: o2, new: n2 }) => {
            if o1 == o2 || o1 == n2 {
                lemma_majorities_meet(o1, a, b)
            } else {
                lemma_majorities_meet(n1, a, b)
            }
        },
    }
}

/// A larger set of votes still is a quorum.
pub proof fn lemma_quorum_grows(c: ConfigView, a: Set<NodeId>, b: Set<NodeId>)
    requires
        c.quorum(a),
        a.subset_of(b),
    ensures
        c.quorum(b),
{
    match c {
        ConfigView::Stable(nodes) => lemma_count_grows(nodes, a, b),
        ConfigView::Joint { old, new } => {
            lemma_count_grows(old, a, b);
            lemma_count_grows(new, a, b);
        },
    }
}

proof fn lemma_count_grows(nodes: Seq<NodeId>, a: Set<NodeId>, b: Set<NodeId>)
    requires
        a.subset_of(b),
    ensures
        count_in(nodes, a) <= count_in(nodes, b),
    decreases nodes.len(),
{
    if nodes.len() > 0 {
        lemma_count_grows(nodes.drop_last(), a, b);
    }
}

/// The members of a quorum that belong to the membership are a quorum already.
pub proof fn lemma_quorum_of_members(c: ConfigView, a: Set<NodeId>)
    requires
        c.quorum(a),
    ensures
        c.quorum(a.filter(|n: NodeId| c.has(n))),
{
    let m = |n: NodeId| c.has(n);
    match c {
        ConfigView::Stable(nodes) => lemma_count_members(nodes, a, m),
        ConfigView::Joint { old, new } => {
            lemma_count_members(old, a, m);
            lemma_count_members(new, a, m);
        },
    }
}

proof fn lemma_count_members(nodes: Seq<NodeId>, a: Set<NodeId>, m: spec_fn(NodeId) -> bool)
    requires
        forall|n: NodeId| #[trigger] nodes.contains(n) ==> m(n),
    ensures
        count_in(nodes, a) == count_in(nodes, a.filter(m)),
    decreases nodes.len(),
{
    if nodes.len() > 0 {
        assert(nodes.contains(nodes[nodes.len() - 1]));
        assert forall|n: NodeId| #[trigger] nodes.drop_last().contains(n) implies m(n) by {
            let k = choose|k: int| 0 <= k < nodes.drop_last().len() && nodes.drop_last()[k] == n;
            assert(nodes[k] == n);
            assert(nodes.contains(n));
        }
        lemma_count_members(nodes.drop_last(), a, m);
    }
}

} // verus!
