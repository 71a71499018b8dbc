//! The state of one replica, and the questions asked of its log.
use crate::consensus::config;
use crate::consensus::config::{ConfigState, ConfigView};
use crate::consensus::messages;
use crate::consensus::messages::{
    copy_entries, copy_nodes, EntryPayload, EntryView, LogEntry, NodeId, PayloadView,
};
use crate::consensus::wire;
use crate::consensus::wire::decode_payload;
use std::collections::{HashMap, HashSet};
use vstd::prelude::*;

verus! {

broadcast use vstd::std_specs::hash::group_hash_axioms;

/// What a replica is doing.
#[derive(Debug, Clone, Copy, PartialEq, Eq, Structural)]
pub enum Role {
    Follower,
    Candidate,
    Leader,
}

/// The state of one replica. The log holds the entries behind the snapshot.
pub struct RaftState {
    pub current_term: u64,
    pub voted_for: Option<NodeId>,
    pub log: Vec<LogEntry>,
    pub last_snapshot_index: u64,
    pub last_snapshot_term: u64,
    pub last_snapshot_data: Vec<u8>,
    pub config: ConfigState,
    pub snapshot_config: ConfigState,
    pub commit_index: u64,
    pub last_applied: u64,
    pub role: Role,
    pub next_index: HashMap<NodeId, u64>,
    pub match_index: HashMap<NodeId, u64>,
    pub votes_received: HashSet<NodeId>,
    pub election_timeout: u64,
    pub election_elapsed: u64,
    pub heartbeat_timeout: u64,
    pub heartbeat_elapsed: u64,
}

/// The state of one replica as a mathematical value.
#[verifier::ext_equal]
pub struct RaftView {
    pub current_term: u64,
    pub voted_for: Option<NodeId>,
    pub log: Seq<EntryView>,
    pub last_snapshot_index: u64,
    pub last_snapshot_term: u64,
    pub last_snapshot_data: Seq<u8>,
    pub config: ConfigView,
    pub snapshot_config: ConfigView,
    pub commit_index: u64,
    pub last_applied: u64,
    pub role: Role,
    pub next_index: Map<NodeId, u64>,
    pub match_index: Map<NodeId, u64>,
    pub votes_received: Set<NodeId>,
    pub election_timeout: u64,
    pub election_elapsed: u64,
    pub heartbeat_timeout: u64,
    pub heartbeat_elapsed: u64,
}

impl View for RaftState {
    type V = RaftView;

    open spec fn view(&self) -> RaftView {
        RaftView {
            current_term: self.current_term,
            voted_for: self.voted_for,
            log: messages::entry_views(self.log@),
            last_snapshot_index: self.last_snapshot_index,
            last_snapshot_term: self.last_snapshot_term,
            last_snapshot_data: self.last_snapshot_data@,
            config: self.config@,
            snapshot_config: self.snapshot_config@,
            commit_index: self.commit_index,
            last_applied: self.last_applied,
            role: self.role,
            next_index: self.next_index@,
            match_index: self.match_index@,
            votes_received: self.votes_received@,
            election_timeout: self.election_timeout,
            election_elapsed: self.election_elapsed,
            heartbeat_timeout: self.heartbeat_timeout,
            heartbeat_elapsed: self.heartbeat_elapsed,
        }
    }
}

/// The membership that the last membership entry of the log sets, or `base`
/// where the log holds none.
pub open spec fn latest_config(base: ConfigView, log: Seq<EntryView>) -> ConfigView
    decreases log.len(),
{
    if log.len() == 0 {
        base
    } else {
        match wire::dec_payload(log.last().data) {
            Some(PayloadView::ConfigJoint { old, new }) => ConfigView::Joint { old, new },
            Some(PayloadView::ConfigStable(nodes)) => ConfigView::Stable(nodes),
            _ => latest_config(base, log.drop_last()),
        }
    }
}

/// The entries in front of the first one whose index is above `index`.
pub open spec fn entries_upto(log: Seq<EntryView>, index: u64) -> Seq<EntryView>
    decreases log.len(),
{
    if log.len() == 0 || log[0].index > index {
        Seq::empty()
    } else {
        seq![log[0]] + entries_upto(log.drop_first(), index)
    }
}

/// The members in ascending order, with their repetitions.
pub open spec fn sorted_nodes(s: Seq<NodeId>) -> Seq<NodeId> {
    s.sort_by(|a: NodeId, b: NodeId| a <= b)
}

impl RaftView {
    /// The log entry with the given index, going by its place in the log.
    pub open spec fn entry_at(self, index: int) -> Option<EntryView> {
        let pos = index - self.last_snapshot_index - 1;
        if 0 <= pos < self.log.len() {
            Some(self.log[pos])
        } else {
            None
        }
    }

    /// The term of the entry with the given index, or zero where it is unknown.
    pub open spec fn term_at(self, index: int) -> u64 {
        if index == 0 {
            0
        } else if index == self.last_snapshot_index {
            self.last_snapshot_term
        } else {
            match self.entry_at(index) {
                Some(e) => e.term,
                None => 0,
            }
        }
    }

    /// The index of the last entry, or of the snapshot where the log is empty.
    pub open spec fn last_log_index(self) -> u64 {
        if self.log.len() == 0 {
            self.last_snapshot_index
        } else {
            self.log.last().index
        }
    }

    /// The term of the last entry.
    pub open spec fn last_log_term(self) -> u64 {
        self.term_at(self.last_log_index() as int)
    }

    /// The entries whose places in the log are those of the indexes from `lo`
    /// to `hi`.
    pub open spec fn entries_between(self, lo: int, hi: int) -> Seq<EntryView> {
        let snap = self.last_snapshot_index as int;
        let from = if lo <= snap {
            0
        } else {
            lo - snap - 1
        };
        let to = if hi - snap < self.log.len() {
            hi - snap
        } else {
            self.log.len() as int
        };
        if from < to {
            self.log.subrange(from, to)
        } else {
            Seq::empty()
        }
    }

    /// The membership in force: that of the last membership entry.
    pub open spec fn active_config(self) -> ConfigView {
        latest_config(self.snapshot_config, self.log)
    }

    /// The membership in force at the given index.
    pub open spec fn config_at(self, index: u64) -> ConfigView {
        latest_config(self.snapshot_config, entries_upto(self.log, index))
    }

    /// A new replica that knows `peers`.
    pub open spec fn fresh(id: NodeId, peers: Seq<NodeId>) -> RaftView {
        let nodes = sorted_nodes(peers.push(id));
        RaftView {
            current_term: 0,
            voted_for: None,
            log: Seq::empty(),
            last_snapshot_index: 0,
            last_snapshot_term: 0,
            last_snapshot_data: Seq::empty(),
            config: ConfigView::Stable(nodes),
            snapshot_config: ConfigView::Stable(nodes),
            commit_index: 0,
            last_applied: 0,
            role: Role::Follower,
            next_index: Map::new(|n: NodeId| peers.contains(n), |n: NodeId| 1u64),
            match_index: Map::new(|n: NodeId| peers.contains(n), |n: NodeId| 0u64),
            votes_received: Set::empty(),
            election_timeout: 15,
            election_elapsed: 0,
            heartbeat_timeout: 5,
            heartbeat_elapsed: 0,
        }
    }
}

/// The members in ascending order, with their repetitions.
pub fn sort_nodes(v: &[NodeId]) -> (r: Vec<NodeId>)
    ensures
        r@ == sorted_nodes(v@),
{
    broadcast use vstd::seq_lib::group_to_multiset_ensures;

    let mut out: Vec<NodeId> = Vec::new();
    let mut done: usize = 0;
    assert(v@.take(0) =~= Seq::<NodeId>::empty());
    while done < v.len()
        invariant
            done <= v@.len(),
            out@.to_multiset() == v@.take(done as int).to_multiset(),
            forall|i: int, j: int| 0 <= i < j < out@.len() ==> out@[i] <= out@[j],
        decreases v@.len() - done,
    {
        let x: NodeId = v[done];
        let mut i: usize = 0;
        while i < out.len() && out[i] < x
            invariant
                i <= out@.len(),
                forall|j: int| 0 <= j < i ==> out@[j] < x,
            decreases out@.len() - i,
        {
            i = i + 1;
        }
        let ghost before = out@;
        out.insert(i, x);
        proof {
            vstd::seq_lib::to_multiset_insert(before, i as int, x);
            vstd::seq_lib::to_multiset_build(v@.take(done as int), x);
            assert(v@.take(done + 1) =~= v@.take(done as int).push(x));
        }
        done = done + 1;
    }
    proof {
        let leq = |a: NodeId, b: NodeId| a <= b;
        assert(v@.take(done as int) =~= v@);
        assert(vstd::relations::sorted_by(out@, leq));
        v@.lemma_sort_by_ensures(leq);
        vstd::seq_lib::lemma_sorted_unique(out@, v@.sort_by(leq), leq);
    }
    out
}

/// An optional log entry as a mathematical value.
pub open spec fn entry_ref_view(e: Option<&LogEntry>) -> Option<EntryView> {
    match e {
        Some(e) => Some(e@),
        None => None,
    }
}

impl RaftState {
    /// The state of a new replica.
    pub fn new(id: NodeId, peers: &[NodeId]) -> (r: Self)
        ensures
            r@ == RaftView::fresh(id, peers@),
    {
        let mut next_index: HashMap<NodeId, u64> = HashMap::new();
        let mut match_index: HashMap<NodeId, u64> = HashMap::new();
        let mut i: usize = 0;
        while i < peers.len()
            invariant
                i <= peers@.len(),
                forall|n: NodeId|
                    next_index@.dom().contains(n) == peers@.take(i as int).contains(n),
                forall|n: NodeId|
                    match_index@.dom().contains(n) == peers@.take(i as int).contains(n),
                forall|n: NodeId| next_index@.dom().contains(n) ==> next_index@[n] == 1,
                forall|n: NodeId| match_index@.dom().contains(n) ==> match_index@[n] == 0,
            decreases peers@.len() - i,
        {
            next_index.insert(peers[i], 1);
            match_index.insert(peers[i], 0);
            proof {
                config::lemma_take_contains(peers@, i as int);
            }
            i = i + 1;
        }
        assert(peers@.take(i as int) =~= peers@);
        let mut unsorted: Vec<NodeId> = copy_nodes(peers);
        unsorted.push(id);
        let nodes = sort_nodes(unsorted.as_slice());
        let snapshot_nodes = copy_nodes(nodes.as_slice());
        let r = RaftState {
            current_term: 0,
            voted_for: None,
            log: Vec::new(),
            last_snapshot_index: 0,
            last_snapshot_term: 0,
            last_snapshot_data: Vec::new(),
            config: ConfigState::Stable(nodes),
            snapshot_config: ConfigState::Stable(snapshot_nodes),
            commit_index: 0,
            last_applied: 0,
            role: Role::Follower,
            next_index,
            match_index,
            votes_received: HashSet::new(),
            election_timeout: 15,
            election_elapsed: 0,
            heartbeat_timeout: 5,
            heartbeat_elapsed: 0,
        };
        proof {
            let fresh = RaftView::fresh(id, peers@);
            assert(r@.next_index =~= fresh.next_index);
            assert(r@.match_index =~= fresh.match_index);
            assert(r@.log =~= fresh.log);
            assert(r@ =~= fresh);
        }
        r
    }

    /// The log entry with the given index.
    pub fn get_entry(&self, index: u64) -> (r: Option<&LogEntry>)
        ensures
            entry_ref_view(r) == self@.entry_at(index as int),
    {
        if index <= self.last_snapshot_index {
            None
        } else {
            let pos: u64 = index - self.last_snapshot_index - 1;
            if pos < self.log.len() as u64 {
                Some(&self.log[pos as usize])
            } else {
                None
            }
        }
    }

    /// The term of the entry with the given index, or zero where it is unknown.
    pub fn get_term(&self, index: u64) -> (r: u64)
        ensures
            r == self@.term_at(index as int),
    {
        if index == 0 {
            0
        } else if index == self.last_snapshot_index {
            self.last_snapshot_term
        } else {
            match self.get_entry(index) {
                Some(e) => e.term,
                None => 0,
            }
        }
    }

    /// The index of the last entry, or of the snapshot where the log is empty.
    pub fn last_log_index(&self) -> (r: u64)
        ensures
            r == self@.last_log_index(),
    {
        if self.log.len() == 0 {
            self.last_snapshot_index
        } else {
            self.log[self.log.len() - 1].index
        }
    }

    /// The term of the last entry.
    pub fn last_log_term(&self) -> (r: u64)
        ensures
            r == self@.last_log_term(),
    {
        let last_idx: u64 = self.last_log_index();
        self.get_term(last_idx)
    }

    /// The entries with the indexes from `lo` to `hi`.
    pub fn entries_between(&self, lo: u64, hi: u64) -> (r: Vec<LogEntry>)
        ensures
            messages::entry_views(r@) == self@.entries_between(lo as int, hi as int),
    {
        let snap: u64 = self.last_snapshot_index;
        let from: u64 = if lo <= snap {
            0
        } else {
            lo - snap - 1
        };
        let len: u64 = self.log.len() as u64;
        let to: u64 = if hi <= snap {
            0
        } else if hi - snap < len {
            hi - snap
        } else {
            len
        };
        if from < to {
            copy_entries(self.log.as_slice(), from as usize, to as usize)
        } else {
            let none: Vec<LogEntry> = Vec::new();
            assert(messages::entry_views(none@) =~= Seq::empty());
            none
        }
    }

    /// Takes over the membership of the last membership entry of the log.
    pub fn update_active_config(&mut self)
        ensures
            final(self)@ == (RaftView { config: old(self)@.active_config(), ..old(self)@ }),
    {
        let n: usize = self.log.len();
        self.config = self.config_of_first(n);
        proof {
            assert(old(self)@.log.take(n as int) =~= old(self)@.log);
        }
    }

    /// The membership that the first `n` entries leave in force.
    fn config_of_first(&self, n: usize) -> (r: ConfigState)
        requires
            n <= self.log@.len(),
        ensures
            r@ == latest_config(self@.snapshot_config, self@.log.take(n as int)),
    {
        let mut i: usize = n;
        while i > 0
            invariant
                i <= n <= self.log@.len(),
                latest_config(self@.snapshot_config, self@.log.take(n as int)) == latest_config(
                    self@.snapshot_config,
                    self@.log.take(i as int),
                ),
            decreases i,
        {
            let ghost part = self@.log.take(i as int);
            assert(part.last() == self.log@[i - 1]@);
            assert(part.drop_last() =~= self@.log.take(i - 1));
            match decode_payload(self.log[i - 1].data.as_slice()) {
                Some(EntryPayload::ConfigJoint { old: old_nodes, new: new_nodes }) => {
                    return ConfigState::Joint { old: old_nodes, new: new_nodes };
                },
                Some(EntryPayload::ConfigStable(nodes)) => {
                    return ConfigState::Stable(nodes);
                },
                _ => {},
            }
            i = i - 1;
        }
        self.snapshot_config.clone()
    }

    /// The membership in force at the given index.
    pub fn config_at(&self, index: u64) -> (r: ConfigState)
        ensures
            r@ == self@.config_at(index),
    {
        let mut n: usize = 0;
        let ghost log = self@.log;
        assert(log.skip(0) =~= log);
        assert(log.take(0) + entries_upto(log.skip(0), index) =~= entries_upto(log, index));
        while n < self.log.len() && self.log[n].index <= index
            invariant
                n <= self.log@.len(),
                log == self@.log,
                entries_upto(log, index) == log.take(n as int) + entries_upto(
                    log.skip(n as int),
                    index,
                ),
            decreases self.log@.len() - n,
        {
            proof {
                let rest = log.skip(n as int);
                assert(rest[0] == self.log@[n as int]@);
                assert(rest.drop_first() =~= log.skip(n + 1));
                assert(log.take(n as int) + (seq![rest[0]] + entries_upto(rest.drop_first(), index))
                    =~= log.take(n + 1) + entries_upto(log.skip(n + 1), index));
            }
            n = n + 1;
        }
        proof {
            if n < log.len() {
                assert(log.skip(n as int)[0] == self.log@[n as int]@);
            }
            assert(entries_upto(log, index) =~= log.take(n as int));
        }
        self.config_of_first(n)
    }
}

// ----------------------------------------------------------------------
// Memberships
// ----------------------------------------------------------------------
/// The membership that an entry sets, if it sets one.
pub open spec fn membership_of(e: EntryView) -> Option<ConfigView> {
    match wire::dec_payload(e.data) {
        Some(PayloadView::ConfigJoint { old, new }) => Some(ConfigView::Joint { old, new }),
        Some(PayloadView::ConfigStable(nodes)) => Some(ConfigView::Stable(nodes)),
        _ => None,
    }
}

/// The indexes of the entries ascend.
pub open spec fn numbered(log: Seq<EntryView>) -> bool {
    forall|i: int, j: int|
        0 <= i < j < log.len() ==> (#[trigger] log[i]).index < (#[trigger] log[j]).index
}

/// The entry at place `k` is the last with an index up to `index` that sets a
/// membership.
pub open spec fn is_last_change(log: Seq<EntryView>, index: u64, k: int) -> bool {
    &&& 0 <= k < log.len()
    &&& log[k].index <= index
    &&& membership_of(log[k]) is Some
    &&& forall|j: int|
        k < j < log.len() && (#[trigger] log[j]).index <= index ==> membership_of(log[j]) is None
}

/// The entries up to an index are the first ones of the log.
proof fn lemma_entries_upto(log: Seq<EntryView>, index: u64) -> (n: int)
    requires
        numbered(log),
    ensures
        0 <= n <= log.len(),
        entries_upto(log, index) == log.take(n),
        forall|i: int| 0 <= i < log.len() ==> ((#[trigger] log[i]).index <= index <==> i < n),
    decreases log.len(),
{
    if log.len() == 0 || log[0].index > index {
        assert(log.take(0) =~= Seq::empty());
        0
    } else {
        let rest = log.drop_first();
        assert forall|i: int, j: int| 0 <= i < j < rest.len() implies (#[trigger] rest[i]).index < (
        #[trigger] rest[j]).index by {
            assert(rest[i] == log[i + 1] && rest[j] == log[j + 1]);
        }
        let n = lemma_entries_upto(rest, index);
        assert(log.take(n + 1) =~= seq![log[0]] + rest.take(n));
        assert forall|i: int| 0 <= i < log.len() implies ((#[trigger] log[i]).index <= index <==> i
            < n + 1) by {
            if i > 0 {
                assert(log[i] == rest[i - 1]);
            }
        }
        n + 1
    }
}

/// Entries that set no membership leave it as it is.
proof fn lemma_latest_stays(base: ConfigView, log: Seq<EntryView>, a: int, b: int)
    requires
        0 <= a <= b <= log.len(),
        forall|i: int| a <= i < b ==> membership_of(#[trigger] log[i]) is None,
    ensures
        latest_config(base, log.take(a)) == latest_config(base, log.take(b)),
    decreases b - a,
{
    if a < b {
        lemma_latest_stays(base, log, a, b - 1);
        assert(log.take(b).drop_last() =~= log.take(b - 1));
        assert(membership_of(log[b - 1]) is None);
    }
}

/// The membership in force at an index is the one that the last entry up to it sets
/// that sets any, and else that of the snapshot.
pub proof fn lemma_config_at(s: RaftView, index: u64)
    requires
        numbered(s.log),
    ensures
        forall|k: int| #[trigger]
            is_last_change(s.log, index, k) ==> s.config_at(index) == membership_of(s.log[k])->0,
        (forall|k: int|
            0 <= k < s.log.len() && (#[trigger] s.log[k]).index <= index ==> membership_of(
                s.log[k],
            ) is None) ==> s.config_at(index) == s.snapshot_config,
{
    let log = s.log;
    let base = s.snapshot_config;
    let n = lemma_entries_upto(log, index);
    assert forall|k: int| #[trigger] is_last_change(log, index, k) implies s.config_at(index)
        == membership_of(log[k])->0 by {
        assert(k < n);
        lemma_latest_stays(base, log, k + 1, n);
        assert(log.take(k + 1).last() == log[k]);
    }
    if forall|k: int|
        0 <= k < log.len() && (#[trigger] log[k]).index <= index ==> membership_of(log[k]) is None {
        lemma_latest_stays(base, log, 0, n);
        assert(log.take(0) =~= Seq::empty());
    }
}

/// The membership stays the same between the entries that set one.
pub proof fn lemma_config_stays(s: RaftView, i: u64, j: u64)
    requires
        numbered(s.log),
        i <= j,
        forall|k: int|
            0 <= k < s.log.len() && i < (#[trigger] s.log[k]).index <= j ==> membership_of(
                s.log[k],
            ) is None,
    ensures
        s.config_at(i) == s.config_at(j),
{
    let a = lemma_entries_upto(s.log, i);
    let b = lemma_entries_upto(s.log, j);
    if b < a {
        assert(s.log[b].index <= i);
    }
    assert forall|k: int| a <= k < b implies membership_of(#[trigger] s.log[k]) is None by {
        assert(i < s.log[k].index <= j);
    }
    lemma_latest_stays(s.snapshot_config, s.log, a, b);
}

/// The membership in force is the one at the end of the log.
pub proof fn lemma_config_at_end(s: RaftView)
    ensures
        s.active_config() == s.config_at(u64::MAX),
{
    lemma_all_entries(s.log);
}

proof fn lemma_all_entries(log: Seq<EntryView>)
    ensures
        entries_upto(log, u64::MAX) == log,
    decreases log.len(),
{
    if log.len() > 0 {
        lemma_all_entries(log.drop_first());
        assert(log =~= seq![log[0]] + log.drop_first());
    } else {
        assert(log =~= Seq::empty());
    }
}

} // verus!
