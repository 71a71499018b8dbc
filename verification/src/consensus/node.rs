//! A replica: it takes events, one after the other, and says what to do.
use crate::bytes;
use crate::consensus::config;
use crate::consensus::config::ConfigState;
use crate::consensus::messages;
use crate::consensus::messages::{
    copy_nodes, AppendEntriesReq, AppendEntriesResp, EntryPayload, InstallSnapshotReq,
    InstallSnapshotResp, LogEntry, NodeId, PayloadView, RequestVoteReq, RequestVoteResp,
};
use crate::consensus::persist;
use crate::consensus::persist::{
    collect_entries, persist_log_entry, persist_log_len, persist_term_and_vote, recover_log,
    rewrite_wal,
};
use crate::consensus::state;
use crate::consensus::state::{RaftState, RaftView, Role};
use crate::consensus::transition;
use crate::consensus::transition::{ActionView, EventView, Me, Rejection};
use crate::consensus::wire;
use crate::consensus::wire::{decode_payload, encode_payload, encode_snapshot, Snapshot};
use crate::random;
use crate::storage::wal;
use crate::storage::wal::WalRecord;
use std::collections::HashMap;
use vstd::prelude::*;

verus! {

broadcast use vstd::std_specs::hash::group_hash_axioms;

/// What can happen to a replica.
#[allow(inconsistent_fields)]
#[derive(Debug)]
pub enum Event {
    Tick,
    RequestVote { req: RequestVoteReq },
    AppendEntries { req: AppendEntriesReq },
    InstallSnapshot { req: InstallSnapshotReq },
    RequestVoteResponse { peer: NodeId, term: u64, resp: RequestVoteResp },
    AppendEntriesResponse {
        peer: NodeId,
        term: u64,
        resp: AppendEntriesResp,
        sent_prev_index: u64,
        sent_count: usize,
    },
    InstallSnapshotResponse { peer: NodeId, term: u64, resp: InstallSnapshotResp },
    Propose { data: Vec<u8> },
    ProposeConfigChange { new_nodes: Vec<NodeId> },
    ProposeConfigStable { new_nodes: Vec<NodeId> },
    Shutdown,
}

impl View for Event {
    type V = EventView;

    open spec fn view(&self) -> EventView {
        match self {
            Event::Tick => EventView::Tick,
            Event::RequestVote { req } => EventView::RequestVote { req: *req },
            Event::AppendEntries { req } => EventView::AppendEntries { req: req@ },
            Event::InstallSnapshot { req } => EventView::InstallSnapshot { req: req@ },
            Event::RequestVoteResponse { peer, term, resp } => EventView::RequestVoteResponse {
                peer: *peer,
                term: *term,
                resp: *resp,
            },
            Event::AppendEntriesResponse { peer, term, resp, sent_prev_index, sent_count } =>
                EventView::AppendEntriesResponse {
                peer: *peer,
                term: *term,
                resp: *resp,
                sent_prev_index: *sent_prev_index,
                sent_count: *sent_count,
            },
            Event::InstallSnapshotResponse { peer, term, resp } =>
                EventView::InstallSnapshotResponse { peer: *peer, term: *term, resp: *resp },
            Event::Propose { data } => EventView::Propose { data: data@ },
            Event::ProposeConfigChange { new_nodes } => EventView::ProposeConfigChange {
                new_nodes: new_nodes@,
            },
            Event::ProposeConfigStable { new_nodes } => EventView::ProposeConfigStable {
                new_nodes: new_nodes@,
            },
            Event::Shutdown => EventView::Shutdown,
        }
    }
}

/// What a replica wants done, in this order.
#[allow(inconsistent_fields)]
#[derive(Debug)]
pub enum Action {
    /// Append the records to the log file.
    Persist(Vec<WalRecord>),
    /// Replace the log file by one with these records.
    RewriteLog(Vec<WalRecord>),
    /// Replace the snapshot file.
    SaveSnapshot(Vec<u8>),
    SendRequestVote { to: NodeId, req: RequestVoteReq },
    SendAppendEntries { to: NodeId, req: AppendEntriesReq },
    SendInstallSnapshot { to: NodeId, req: InstallSnapshotReq },
    ReplyRequestVote(RequestVoteResp),
    ReplyAppendEntries(AppendEntriesResp),
    ReplyInstallSnapshot(InstallSnapshotResp),
    ReplyPropose(Result<u64, Rejection>),
    ReplyConfigChange(Result<(), Rejection>),
    /// Apply the command to the state machine.
    Apply(Vec<u8>),
    /// Hand the replica the event that proposes this membership.
    ProposeStable(Vec<NodeId>),
}

impl View for Action {
    type V = ActionView;

    open spec fn view(&self) -> ActionView {
        match self {
            Action::Persist(rs) => ActionView::Persist(wal::record_views(rs@)),
            Action::RewriteLog(rs) => ActionView::RewriteLog(wal::record_views(rs@)),
            Action::SaveSnapshot(b) => ActionView::SaveSnapshot(b@),
            Action::SendRequestVote { to, req } => ActionView::SendRequestVote {
                to: *to,
                req: *req,
            },
            Action::SendAppendEntries { to, req } => ActionView::SendAppendEntries {
                to: *to,
                req: req@,
            },
            Action::SendInstallSnapshot { to, req } => ActionView::SendInstallSnapshot {
                to: *to,
                req: req@,
            },
            Action::ReplyRequestVote(r) => ActionView::ReplyRequestVote(*r),
            Action::ReplyAppendEntries(r) => ActionView::ReplyAppendEntries(*r),
            Action::ReplyInstallSnapshot(r) => ActionView::ReplyInstallSnapshot(*r),
            Action::ReplyPropose(r) => ActionView::ReplyPropose(*r),
            Action::ReplyConfigChange(r) => ActionView::ReplyConfigChange(*r),
            Action::Apply(b) => ActionView::Apply(b@),
            Action::ProposeStable(nodes) => ActionView::ProposeStable(nodes@),
        }
    }
}

/// Actions as mathematical values.
pub open spec fn action_views(v: Seq<Action>) -> Seq<ActionView> {
    v.map_values(|a: Action| a@)
}

/// Who a replica is.
pub struct HandleEventCtx<'a> {
    pub shard_id: u32,
    pub id: NodeId,
    pub peers: &'a [NodeId],
}

impl<'a> View for HandleEventCtx<'a> {
    type V = Me;

    open spec fn view(&self) -> Me {
        Me { shard_id: self.shard_id, id: self.id, peers: self.peers@ }
    }
}

fn act(out: &mut Vec<Action>, a: Action)
    ensures
        action_views(final(out)@) == action_views(old(out)@).push(a@),
{
    let ghost view = a@;
    let ghost before = action_views(out@);
    out.push(a);
    assert(action_views(out@) =~= before.push(view));
}

/// Sets the value of every replica of the list other than `id`.
fn set_for_others(m: &mut HashMap<NodeId, u64>, nodes: &[NodeId], id: NodeId, value: u64)
    ensures
        forall|n: NodeId|
            #![trigger final(m)@.dom().contains(n)]
            final(m)@.dom().contains(n) == (old(m)@.dom().contains(n) || (nodes@.contains(n) && n
                != id)),
        forall|n: NodeId|
            final(m)@.dom().contains(n) ==> #[trigger] final(m)@[n] == (if nodes@.contains(n) && n
                != id {
                value
            } else {
                old(m)@[n]
            }),
{
    let mut i: usize = 0;
    while i < nodes.len()
        invariant
            i <= nodes@.len(),
            forall|n: NodeId|
                #![trigger m@.dom().contains(n)]
                m@.dom().contains(n) == (old(m)@.dom().contains(n) || (nodes@.take(
                    i as int,
                ).contains(n) && n != id)),
            forall|n: NodeId|
                m@.dom().contains(n) ==> #[trigger] m@[n] == (if nodes@.take(i as int).contains(n)
                    && n != id {
                    value
                } else {
                    old(m)@[n]
                }),
        decreases nodes@.len() - i,
    {
        let peer: NodeId = nodes[i];
        proof {
            config::lemma_take_contains(nodes@, i as int);
        }
        if peer != id {
            m.insert(peer, value);
        }
        i = i + 1;
    }
    assert(nodes@.take(i as int) =~= nodes@);
}

/// Sets the value of every replica of the list other than `id` that has none.
fn add_for_others(m: &mut HashMap<NodeId, u64>, nodes: &[NodeId], id: NodeId, value: u64)
    ensures
        forall|n: NodeId|
            #![trigger final(m)@.dom().contains(n)]
            final(m)@.dom().contains(n) == (old(m)@.dom().contains(n) || (nodes@.contains(n) && n
                != id)),
        forall|n: NodeId|
            final(m)@.dom().contains(n) ==> #[trigger] final(m)@[n] == (if old(m)@.dom().contains(
                n,
            ) {
                old(m)@[n]
            } else {
                value
            }),
{
    let mut i: usize = 0;
    while i < nodes.len()
        invariant
            i <= nodes@.len(),
            forall|n: NodeId|
                #![trigger m@.dom().contains(n)]
                m@.dom().contains(n) == (old(m)@.dom().contains(n) || (nodes@.take(
                    i as int,
                ).contains(n) && n != id)),
            forall|n: NodeId|
                m@.dom().contains(n) ==> #[trigger] m@[n] == (if old(m)@.dom().contains(n) {
                    old(m)@[n]
                } else {
                    value
                }),
        decreases nodes@.len() - i,
    {
        let peer: NodeId = nodes[i];
        proof {
            config::lemma_take_contains(nodes@, i as int);
        }
        if peer != id && !m.contains_key(&peer) {
            m.insert(peer, value);
        }
        i = i + 1;
    }
    assert(nodes@.take(i as int) =~= nodes@);
}

impl RaftState {
    fn act_persist_vote(&self, out: &mut Vec<Action>)
        ensures
            action_views(final(out)@) == action_views(old(out)@).push(
                transition::persist_vote(self@),
            ),
    {
        let mut records: Vec<WalRecord> = Vec::new();
        persist_term_and_vote(&mut records, self.current_term, self.voted_for);
        assert(wal::record_views(records@) =~= persist::vote_records(
            self@.current_term,
            self@.voted_for,
        ));
        act(out, Action::Persist(records));
    }

    fn act_persist_vote_if(&self, needed: bool, out: &mut Vec<Action>)
        ensures
            action_views(final(out)@) == action_views(old(out)@) + transition::persist_vote_if(
                needed,
                self@,
            ),
    {
        if needed {
            self.act_persist_vote(out);
        }
        assert(action_views(out@) =~= action_views(old(out)@) + transition::persist_vote_if(
            needed,
            self@,
        ));
    }

    /// The entries that `peer` lacks, or the snapshot where the log no longer
    /// holds them.
    fn send_append_entries_to_peer(&self, ctx: &HandleEventCtx, peer: NodeId) -> (r: Action)
        ensures
            r@ == transition::replicate_to(self@, ctx@, peer),
    {
        let next: u64 = match self.next_index.get(&peer) {
            Some(n) => *n,
            None => 1,
        };
        if next <= self.last_snapshot_index {
            Action::SendInstallSnapshot {
                to: peer,
                req: InstallSnapshotReq {
                    shard_id: ctx.shard_id,
                    term: self.current_term,
                    leader_id: ctx.id,
                    last_included_index: self.last_snapshot_index,
                    last_included_term: self.last_snapshot_term,
                    offset: 0,
                    data: bytes::copy_bytes(self.last_snapshot_data.as_slice()),
                    done: true,
                },
            }
        } else {
            let prev_log_index: u64 = next - 1;
            Action::SendAppendEntries {
                to: peer,
                req: AppendEntriesReq {
                    shard_id: ctx.shard_id,
                    term: self.current_term,
                    leader_id: ctx.id,
                    prev_log_index,
                    prev_log_term: self.get_term(prev_log_index),
                    entries: self.entries_between(next, self.last_log_index()),
                    leader_commit: self.commit_index,
                },
            }
        }
    }

    /// One replication message to each other member.
    fn broadcast_append_entries(&self, ctx: &HandleEventCtx, out: &mut Vec<Action>)
        ensures
            action_views(final(out)@) == action_views(old(out)@) + transition::broadcast(
                self@,
                ctx@,
            ),
    {
        let all = self.config.all_nodes();
        let ghost start = action_views(out@);
        assert(start =~= start + transition::replicate_to_all(self@, ctx@, all@.take(0)));
        let mut i: usize = 0;
        while i < all.len()
            invariant
                i <= all@.len(),
                action_views(out@) == start + transition::replicate_to_all(
                    self@,
                    ctx@,
                    all@.take(i as int),
                ),
            decreases all@.len() - i,
        {
            let peer: NodeId = all[i];
            proof {
                assert(all@.take(i + 1).drop_last() =~= all@.take(i as int));
                assert(all@.take(i + 1).last() == peer);
            }
            if peer != ctx.id {
                let a = self.send_append_entries_to_peer(ctx, peer);
                act(out, a);
            }
            proof {
                assert(action_views(out@) =~= start + transition::replicate_to_all(
                    self@,
                    ctx@,
                    all@.take(i + 1),
                ));
            }
            i = i + 1;
        }
        assert(all@.take(i as int) =~= all@);
    }

    /// One request for a vote to each other member.
    fn ask_for_votes(&self, ctx: &HandleEventCtx, out: &mut Vec<Action>)
        ensures
            action_views(final(out)@) == action_views(old(out)@) + transition::ask_all(
                self@,
                ctx@,
                self@.config.all_nodes(),
            ),
    {
        let all = self.config.all_nodes();
        let req = RequestVoteReq {
            shard_id: ctx.shard_id,
            term: self.current_term,
            candidate_id: ctx.id,
            last_log_index: self.last_log_index(),
            last_log_term: self.last_log_term(),
        };
        let ghost start = action_views(out@);
        assert(start =~= start + transition::ask_all(self@, ctx@, all@.take(0)));
        let mut i: usize = 0;
        while i < all.len()
            invariant
                i <= all@.len(),
                req == transition::vote_request(self@, ctx@),
                action_views(out@) == start + transition::ask_all(
                    self@,
                    ctx@,
                    all@.take(i as int),
                ),
            decreases all@.len() - i,
        {
            let peer: NodeId = all[i];
            proof {
                assert(all@.take(i + 1).drop_last() =~= all@.take(i as int));
                assert(all@.take(i + 1).last() == peer);
            }
            if peer != ctx.id {
                act(out, Action::SendRequestVote { to: peer, req });
            }
            proof {
                assert(action_views(out@) =~= start + transition::ask_all(
                    self@,
                    ctx@,
                    all@.take(i + 1),
                ));
            }
            i = i + 1;
        }
        assert(all@.take(i as int) =~= all@);
    }

    /// The replica takes over as leader.
    fn become_leader(&mut self, id: NodeId)
        requires
            old(self)@.last_log_index() < u64::MAX,
        ensures
            final(self)@ == transition::lead(old(self)@, id),
    {
        let last_idx: u64 = self.last_log_index();
        let all = self.config.all_nodes();
        self.role = Role::Leader;
        set_for_others(&mut self.next_index, all.as_slice(), id, last_idx + 1);
        set_for_others(&mut self.match_index, all.as_slice(), id, 0);
        proof {
            let l = transition::lead(old(self)@, id);
            assert(self@.next_index =~= l.next_index);
            assert(self@.match_index =~= l.match_index);
            assert(self@ =~= l);
        }
    }

    /// The replica adopts a newer term as a follower that has not voted.
    fn adopt_term(&mut self, term: u64)
        ensures
            final(self)@ == transition::adopt_term(old(self)@, term),
    {
        if term > self.current_term {
            self.current_term = term;
            self.voted_for = None;
            self.role = Role::Follower;
        }
    }

    /// Applies what is committed and has not been applied.
    fn apply_committed(&mut self, out: &mut Vec<Action>)
        requires
            old(self)@.last_applied < u64::MAX,
        ensures
            final(self)@ == transition::caught_up(old(self)@),
            action_views(final(out)@) == action_views(old(out)@) + transition::apply_commands(
                transition::unapplied(old(self)@),
            ),
    {
        let to_apply = self.entries_between(self.last_applied + 1, self.commit_index);
        let ghost pending = transition::unapplied(self@);
        let ghost start = action_views(out@);
        assert(start =~= start + transition::apply_commands(pending.take(0)));
        let mut i: usize = 0;
        while i < to_apply.len()
            invariant
                i <= to_apply@.len(),
                messages::entry_views(to_apply@) == pending,
                action_views(out@) == start + transition::apply_commands(pending.take(i as int)),
            decreases to_apply@.len() - i,
        {
            proof {
                assert(pending.take(i + 1).drop_last() =~= pending.take(i as int));
                assert(pending.take(i + 1).last() == to_apply@[i as int]@);
            }
            match decode_payload(to_apply[i].data.as_slice()) {
                Some(EntryPayload::Command(cmd)) => {
                    act(out, Action::Apply(cmd));
                },
                _ => {},
            }
            proof {
                assert(action_views(out@) =~= start + transition::apply_commands(
                    pending.take(i + 1),
                ));
            }
            i = i + 1;
        }
        assert(pending.take(i as int) =~= pending);
        if to_apply.len() > 0 {
            let end: u64 = self.commit_index - self.last_snapshot_index;
            if end < self.log.len() as u64 {
                self.last_applied = self.commit_index;
            } else {
                self.last_applied = self.last_snapshot_index + self.log.len() as u64;
            }
        }
    }
}

// ----------------------------------------------------------------------
// Events
// ----------------------------------------------------------------------
impl RaftState {
    /// Whether an election starts with the next tick.
    pub fn is_election_due(&self) -> (r: bool)
        requires
            self@.role != Role::Leader ==> self@.election_elapsed < u64::MAX,
        ensures
            r == transition::election_due(self@),
    {
        self.role != Role::Leader && self.election_elapsed + 1 >= self.election_timeout
    }

    fn on_tick(&mut self, ctx: &HandleEventCtx, timeout: u64, out: &mut Vec<Action>)
        requires
            transition::in_range(old(self)@, ctx@, EventView::Tick, false),
        ensures
            (final(self)@, action_views(final(out)@)) == ({
                let (s, actions) = transition::on_tick(old(self)@, ctx@, timeout);
                (s, action_views(old(out)@) + actions)
            }),
    {
        reveal(transition::on_tick);
        let ghost start = action_views(out@);
        if self.role == Role::Leader {
            self.heartbeat_elapsed = self.heartbeat_elapsed + 1;
            if self.heartbeat_elapsed >= self.heartbeat_timeout {
                self.heartbeat_elapsed = 0;
                self.broadcast_append_entries(ctx, out);
            }
        } else if !self.is_election_due() {
            self.election_elapsed = self.election_elapsed + 1;
        } else {
            self.election_elapsed = 0;
            self.role = Role::Candidate;
            self.current_term = self.current_term + 1;
            self.voted_for = Some(ctx.id);
            self.election_timeout = timeout;
            self.act_persist_vote(out);
            self.votes_received.clear();
            self.votes_received.insert(ctx.id);
            let ghost c = transition::candidacy(old(self)@, ctx@, timeout);
            assert(self@ =~= c);
            assert(c.votes_received.insert(ctx.id) =~= Set::empty().insert(ctx.id));
            if self.config.is_quorum(&self.votes_received, ctx.id) {
                self.become_leader(ctx.id);
                self.broadcast_append_entries(ctx, out);
            } else {
                self.ask_for_votes(ctx, out);
            }
        }
        assert(action_views(out@) =~= start + transition::on_tick(old(self)@, ctx@, timeout).1);
    }

    fn on_request_vote(&mut self, req: &RequestVoteReq, out: &mut Vec<Action>)
        ensures
            (final(self)@, action_views(final(out)@)) == ({
                let (s, actions) = transition::on_request_vote(old(self)@, *req);
                (s, action_views(old(out)@) + actions)
            }),
    {
        reveal(transition::on_request_vote);
        let ghost start = action_views(out@);
        let mut stepped_down: bool = req.term > self.current_term;
        self.adopt_term(req.term);
        let mut vote_granted: bool = false;
        let may_vote: bool = match self.voted_for {
            None => true,
            Some(n) => n == req.candidate_id,
        };
        if req.term == self.current_term && may_vote {
            let last_log_idx: u64 = self.last_log_index();
            let last_log_t: u64 = self.last_log_term();
            let log_ok: bool = req.last_log_term > last_log_t || (req.last_log_term == last_log_t
                && req.last_log_index >= last_log_idx);
            if log_ok {
                vote_granted = true;
                self.voted_for = Some(req.candidate_id);
                self.election_elapsed = 0;
                stepped_down = true;
            }
        }
        self.act_persist_vote_if(stepped_down, out);
        act(
            out,
            Action::ReplyRequestVote(RequestVoteResp { term: self.current_term, vote_granted }),
        );
        assert(action_views(out@) =~= start + transition::on_request_vote(old(self)@, *req).1);
    }

    fn on_vote_reply(
        &mut self,
        ctx: &HandleEventCtx,
        peer: NodeId,
        term: u64,
        resp: RequestVoteResp,
        out: &mut Vec<Action>,
    )
        requires
            transition::in_range(
                old(self)@,
                ctx@,
                (EventView::RequestVoteResponse { peer, term, resp }),
                false,
            ),
        ensures
            (final(self)@, action_views(final(out)@)) == ({
                let (s, actions) = transition::on_vote_reply(old(self)@, ctx@, peer, term, resp);
                (s, action_views(old(out)@) + actions)
            }),
    {
        reveal(transition::on_vote_reply);
        let ghost start = action_views(out@);
        let ghost result = transition::on_vote_reply(self@, ctx@, peer, term, resp);
        if term != self.current_term || self.role != Role::Candidate {
            assert(start + result.1 =~= start);
            return;
        }
        if resp.term > self.current_term {
            self.adopt_term(resp.term);
            self.act_persist_vote(out);
            assert(action_views(out@) =~= start + result.1);
            return;
        }
        if resp.vote_granted {
            self.votes_received.insert(peer);
            if self.config.is_quorum(&self.votes_received, ctx.id) {
                self.become_leader(ctx.id);
                self.heartbeat_elapsed = 0;
                self.broadcast_append_entries(ctx, out);
            }
        }
        assert(action_views(out@) =~= start + result.1);
    }

    fn follow(&mut self)
        ensures
            final(self)@ == transition::follow(old(self)@),
    {
        if self.role == Role::Candidate {
            self.role = Role::Follower;
        }
        self.election_elapsed = 0;
    }

    fn take_entries(&mut self, entries: &[LogEntry]) -> (r: Vec<WalRecord>)
        requires
            forall|i: int|
                0 <= i < entries@.len() ==> transition::no_clash(
                    old(self)@,
                    #[trigger] messages::entry_views(entries@)[i],
                ),
        ensures
            final(self)@ == transition::take_entries(
                old(self)@,
                messages::entry_views(entries@),
            ),
            wal::record_views(r@) == transition::absorb_all_records(
                old(self)@,
                messages::entry_views(entries@),
            ),
    {
        let ghost s = self@;
        let ghost es = messages::entry_views(entries@);
        let mut records: Vec<WalRecord> = Vec::new();
        let mut i: usize = 0;
        assert(wal::record_views(records@) =~= transition::absorb_all_records(s, es.take(0)));
        while i < entries.len()
            invariant
                i <= entries@.len(),
                es == messages::entry_views(entries@),
                forall|j: int|
                    0 <= j < entries@.len() ==> transition::no_clash(s, #[trigger] es[j]),
                self@ == transition::absorb_all(s, es.take(i as int)),
                self@ == (RaftView { log: self@.log, ..s }),
                wal::record_views(records@) == transition::absorb_all_records(
                    s,
                    es.take(i as int),
                ),
            decreases entries@.len() - i,
        {
            let entry = &entries[i];
            let ghost t = self@;
            let ghost old_records = wal::record_views(records@);
            proof {
                assert(es.take(i + 1).drop_last() =~= es.take(i as int));
                assert(es.take(i + 1).last() == entry@);
                assert(transition::no_clash(s, es[i as int]));
            }
            let existing_term: u64 = self.get_term(entry.index);
            if entry.index < self.last_snapshot_index {
                assert(self@ == t);
            } else if existing_term != 0 {
                if existing_term != entry.term {
                    let pos: u64 = entry.index - self.last_snapshot_index - 1;
                    self.log.truncate(pos as usize);
                    assert(self@.log =~= t.log.take(pos as int));
                    persist_log_len(&mut records, self.last_log_index());
                    let ghost cut = self@.log;
                    self.log.push(entry.clone());
                    assert(self@.log =~= cut.push(entry@));
                    persist_log_entry(&mut records, entry);
                }
            } else {
                self.log.push(entry.clone());
                assert(self@.log =~= t.log.push(entry@));
                persist_log_entry(&mut records, entry);
            }
            proof {
                assert(self@ =~= transition::absorb_entry(t, entry@));
                assert(wal::record_views(records@) =~= old_records + transition::absorb_records(
                    t,
                    entry@,
                ));
            }
            i = i + 1;
        }
        assert(es.take(i as int) =~= es);
        assert(wal::record_views(records@).len() == records@.len());
        if records.len() > 0 {
            self.update_active_config();
        }
        records
    }

    fn on_append_entries(&mut self, ctx: &HandleEventCtx, req: &AppendEntriesReq, out: &mut Vec<
        Action,
    >)
        requires
            transition::in_range(
                old(self)@,
                ctx@,
                (EventView::AppendEntries { req: req@ }),
                false,
            ),
        ensures
            (final(self)@, action_views(final(out)@)) == ({
                let (s, actions) = transition::on_append_entries(old(self)@, req@);
                (s, action_views(old(out)@) + actions)
            }),
    {
        reveal(transition::on_append_entries);
        let ghost start = action_views(out@);
        let ghost result = transition::on_append_entries(self@, req@);
        let mut stepped_down: bool = req.term > self.current_term;
        self.adopt_term(req.term);
        if req.term < self.current_term {
            act(
                out,
                Action::ReplyAppendEntries(
                    AppendEntriesResp {
                        term: self.current_term,
                        success: false,
                        match_index: self.last_log_index(),
                    },
                ),
            );
            assert(action_views(out@) =~= start + result.1);
            return;
        }
        if self.role == Role::Candidate {
            stepped_down = true;
        }
        self.follow();
        let ghost u = self@;
        let last_idx: u64 = self.last_log_index();
        let log_match: bool = if req.prev_log_index > last_idx {
            false
        } else if req.prev_log_index < self.last_snapshot_index {
            true
        } else {
            self.get_term(req.prev_log_index) == req.prev_log_term
        };
        if !log_match {
            act(
                out,
                Action::ReplyAppendEntries(
                    AppendEntriesResp {
                        term: self.current_term,
                        success: false,
                        match_index: last_idx,
                    },
                ),
            );
            self.act_persist_vote_if(stepped_down, out);
            assert(action_views(out@) =~= start + result.1);
            return;
        }
        let records = self.take_entries(req.entries.as_slice());
        assert(wal::record_views(records@).len() == records@.len());
        let ghost w = self@;
        if records.len() > 0 {
            act(out, Action::Persist(records));
        }
        let news: bool = req.leader_commit > self.commit_index;
        proof {
            lemma_take_entries_frame(u, req@.entries);
        }
        if news {
            let last: u64 = self.last_log_index();
            self.commit_index = if req.leader_commit <= last {
                req.leader_commit
            } else {
                last
            };
        }
        let ghost x = self@;
        assert(x =~= transition::learn_commit(w, req@.leader_commit));
        self.act_persist_vote_if(stepped_down, out);
        if news {
            self.apply_committed(out);
        }
        act(
            out,
            Action::ReplyAppendEntries(
                AppendEntriesResp {
                    term: self.current_term,
                    success: true,
                    match_index: self.last_log_index(),
                },
            ),
        );
        assert(action_views(out@) =~= start + result.1);
    }

    fn act_save_snapshot(&self, out: &mut Vec<Action>)
        ensures
            action_views(final(out)@) == action_views(old(out)@) + transition::save_snapshot(
                self@,
            ),
    {
        let file = encode_snapshot(
            self.last_snapshot_index,
            self.last_snapshot_term,
            &self.snapshot_config,
            self.last_snapshot_data.as_slice(),
        );
        act(out, Action::SaveSnapshot(file));
        let records = rewrite_wal(self);
        act(out, Action::RewriteLog(records));
        assert(action_views(out@) =~= action_views(old(out)@) + transition::save_snapshot(self@));
    }

    /// Whether the snapshot is to be handed to the state machine.
    pub fn wants_snapshot(&self, req: &InstallSnapshotReq) -> (r: bool)
        ensures
            r == transition::offers_news(self@, req@),
    {
        req.term >= self.current_term && req.last_included_index > self.last_snapshot_index
    }

    fn on_install_snapshot(
        &mut self,
        ctx: &HandleEventCtx,
        req: &InstallSnapshotReq,
        restored: bool,
        out: &mut Vec<Action>,
    )
        requires
            transition::in_range(
                old(self)@,
                ctx@,
                (EventView::InstallSnapshot { req: req@ }),
                restored,
            ),
        ensures
            (final(self)@, action_views(final(out)@)) == ({
                let (s, actions) = transition::on_install_snapshot(
                    old(self)@,
                    ctx@,
                    req@,
                    restored,
                );
                (s, action_views(old(out)@) + actions)
            }),
    {
        reveal(transition::on_install_snapshot);
        let ghost start = action_views(out@);
        let ghost result = transition::on_install_snapshot(self@, ctx@, req@, restored);
        let installs: bool = self.wants_snapshot(req) && restored;
        let mut stepped_down: bool = req.term > self.current_term;
        self.adopt_term(req.term);
        if req.term < self.current_term {
            act(
                out,
                Action::ReplyInstallSnapshot(InstallSnapshotResp { term: self.current_term }),
            );
            assert(action_views(out@) =~= start + result.1);
            return;
        }
        if self.role == Role::Candidate {
            stepped_down = true;
        }
        self.follow();
        if installs {
            let rest = self.entries_between(req.last_included_index + 1, self.last_log_index());
            self.log = rest;
            self.last_snapshot_index = req.last_included_index;
            self.last_snapshot_term = req.last_included_term;
            self.last_snapshot_data = bytes::copy_bytes(req.data.as_slice());
            self.snapshot_config = ConfigState::Stable(copy_nodes(ctx.peers));
            if self.commit_index < req.last_included_index {
                self.commit_index = req.last_included_index;
            }
            if self.last_applied < req.last_included_index {
                self.last_applied = req.last_included_index;
            }
            self.update_active_config();
            self.act_save_snapshot(out);
        }
        self.act_persist_vote_if(stepped_down, out);
        act(out, Action::ReplyInstallSnapshot(InstallSnapshotResp { term: self.current_term }));
        assert(action_views(out@) =~= start + result.1);
    }

    fn on_snapshot_reply(
        &mut self,
        ctx: &HandleEventCtx,
        peer: NodeId,
        term: u64,
        resp: InstallSnapshotResp,
        out: &mut Vec<Action>,
    )
        requires
            transition::in_range(
                old(self)@,
                ctx@,
                (EventView::InstallSnapshotResponse { peer, term, resp }),
                false,
            ),
        ensures
            (final(self)@, action_views(final(out)@)) == ({
                let (s, actions) = transition::on_snapshot_reply(old(self)@, peer, term, resp);
                (s, action_views(old(out)@) + actions)
            }),
    {
        reveal(transition::on_snapshot_reply);
        let ghost start = action_views(out@);
        let ghost result = transition::on_snapshot_reply(self@, peer, term, resp);
        if term != self.current_term || self.role != Role::Leader {
            assert(start + result.1 =~= start);
            return;
        }
        if resp.term > self.current_term {
            self.adopt_term(resp.term);
            self.act_persist_vote(out);
            assert(action_views(out@) =~= start + result.1);
            return;
        }
        self.match_index.insert(peer, self.last_snapshot_index);
        self.next_index.insert(peer, self.last_snapshot_index + 1);
        assert(action_views(out@) =~= start + result.1);
    }

    /// The last index that can be committed, or the commit index itself.
    fn find_commit_point(&self, id: NodeId) -> (r: u64)
        requires
            self@.commit_index < u64::MAX,
        ensures
            r == transition::commit_point(
                self@,
                id,
                self@.commit_index as int,
                self@.last_log_index() as int,
            ) || (r == self@.commit_index && self@.last_log_index() <= self@.commit_index),
    {
        let last_idx: u64 = self.last_log_index();
        let from: u64 = self.commit_index;
        let mut idx: u64 = last_idx;
        while idx > from
            invariant
                last_idx == self@.last_log_index(),
                from == self@.commit_index,
                idx <= last_idx,
                idx >= from || last_idx <= from,
                transition::commit_point(self@, id, from as int, last_idx as int)
                    == transition::commit_point(self@, id, from as int, idx as int),
            decreases idx,
        {
            if self.get_term(idx) == self.current_term && self.config.can_commit(
                &self.match_index,
                id,
                last_idx,
                idx,
            ) {
                return idx;
            }
            idx = idx - 1;
        }
        from
    }

    fn act_finish_change(&self, out: &mut Vec<Action>)
        ensures
            action_views(final(out)@) == action_views(old(out)@) + transition::finish_change(
                self@,
            ),
    {
        let committed = self.config_at(self.commit_index);
        match committed {
            ConfigState::Joint { old: _, new: new_nodes } => {
                match &self.config {
                    ConfigState::Joint { .. } => {
                        act(out, Action::ProposeStable(new_nodes));
                    },
                    ConfigState::Stable(_) => {},
                }
            },
            ConfigState::Stable(_) => {},
        }
        assert(action_views(out@) =~= action_views(old(out)@) + transition::finish_change(self@));
    }

    fn on_append_reply(
        &mut self,
        ctx: &HandleEventCtx,
        peer: NodeId,
        term: u64,
        resp: AppendEntriesResp,
        sent_prev_index: u64,
        sent_count: usize,
        out: &mut Vec<Action>,
    )
        requires
            transition::in_range(
                old(self)@,
                ctx@,
                (EventView::AppendEntriesResponse {
                    peer,
                    term,
                    resp,
                    sent_prev_index,
                    sent_count,
                }),
                false,
            ),
        ensures
            (final(self)@, action_views(final(out)@)) == ({
                let (s, actions) = transition::on_append_reply(
                    old(self)@,
                    ctx@,
                    peer,
                    term,
                    resp,
                    sent_prev_index as int + sent_count as int,
                );
                (s, action_views(old(out)@) + actions)
            }),
    {
        reveal(transition::on_append_reply);
        let ghost start = action_views(out@);
        let ghost matched = sent_prev_index as int + sent_count as int;
        let ghost result = transition::on_append_reply(self@, ctx@, peer, term, resp, matched);
        if term != self.current_term || self.role != Role::Leader {
            assert(start + result.1 =~= start);
            return;
        }
        if resp.term > self.current_term {
            self.adopt_term(resp.term);
            self.act_persist_vote(out);
            assert(action_views(out@) =~= start + result.1);
            return;
        }
        if resp.success {
            let match_idx: u64 = sent_prev_index + sent_count as u64;
            let known: u64 = match self.match_index.get(&peer) {
                Some(m) => *m,
                None => 0,
            };
            if match_idx > known {
                self.match_index.insert(peer, match_idx);
                self.next_index.insert(peer, match_idx + 1);
            }
            assert(self@ =~= transition::record_match(old(self)@, peer, matched));
            let point: u64 = self.find_commit_point(ctx.id);
            if point > self.commit_index {
                self.commit_index = point;
                self.apply_committed(out);
            }
        } else {
            let next: u64 = match self.next_index.get(&peer) {
                Some(n) => *n,
                None => 1,
            };
            if next > 1 {
                self.next_index.insert(peer, next - 1);
                let a = self.send_append_entries_to_peer(ctx, peer);
                act(out, a);
            }
        }
        self.act_finish_change(out);
        assert(action_views(out@) =~= start + result.1);
    }

    /// Appends an entry of this replica's own to the log.
    fn append_own(&mut self, payload: EntryPayload, out: &mut Vec<Action>) -> (r: u64)
        requires
            old(self)@.last_log_index() < u64::MAX,
        ensures
            final(self)@ == transition::append_own(old(self)@, payload@),
            r == transition::own_entry(old(self)@, payload@).index,
            action_views(final(out)@) == action_views(old(out)@).push(
                ActionView::Persist(
                    persist::entry_records(transition::own_entry(old(self)@, payload@)),
                ),
            ),
    {
        let index: u64 = self.last_log_index() + 1;
        let entry = LogEntry { term: self.current_term, index, data: encode_payload(&payload) };
        let mut records: Vec<WalRecord> = Vec::new();
        persist_log_entry(&mut records, &entry);
        assert(wal::record_views(records@) =~= persist::entry_records(entry@));
        let ghost view = entry@;
        self.log.push(entry);
        assert(self@.log =~= old(self)@.log.push(view));
        act(out, Action::Persist(records));
        index
    }

    fn on_propose(&mut self, ctx: &HandleEventCtx, data: Vec<u8>, out: &mut Vec<Action>)
        requires
            transition::in_range(old(self)@, ctx@, (EventView::Propose { data: data@ }), false),
        ensures
            (final(self)@, action_views(final(out)@)) == ({
                let (s, actions) = transition::on_propose(old(self)@, ctx@, data@);
                (s, action_views(old(out)@) + actions)
            }),
    {
        reveal(transition::on_propose);
        let ghost start = action_views(out@);
        let ghost result = transition::on_propose(self@, ctx@, data@);
        if self.role != Role::Leader {
            act(out, Action::ReplyPropose(Err(Rejection::NotLeader)));
            assert(action_views(out@) =~= start + result.1);
            return;
        }
        let index: u64 = self.append_own(EntryPayload::Command(data), out);
        act(out, Action::ReplyPropose(Ok(index)));
        self.broadcast_append_entries(ctx, out);
        assert(action_views(out@) =~= start + result.1);
    }

    fn on_config_change(&mut self, ctx: &HandleEventCtx, new_nodes: Vec<NodeId>, out: &mut Vec<
        Action,
    >)
        requires
            transition::in_range(
                old(self)@,
                ctx@,
                (EventView::ProposeConfigChange { new_nodes: new_nodes@ }),
                false,
            ),
        ensures
            (final(self)@, action_views(final(out)@)) == ({
                let (s, actions) = transition::on_config_change(old(self)@, ctx@, new_nodes@);
                (s, action_views(old(out)@) + actions)
            }),
    {
        reveal(transition::on_config_change);
        let ghost start = action_views(out@);
        let ghost result = transition::on_config_change(self@, ctx@, new_nodes@);
        let ghost s = self@;
        let ghost wanted = new_nodes@;
        if self.role != Role::Leader {
            act(out, Action::ReplyConfigChange(Err(Rejection::NotLeader)));
            assert(action_views(out@) =~= start + result.1);
            return;
        }
        let old_nodes = match &self.config {
            ConfigState::Joint { .. } => {
                act(out, Action::ReplyConfigChange(Err(Rejection::ChangeInProgress)));
                assert(action_views(out@) =~= start + result.1);
                return;
            },
            ConfigState::Stable(nodes) => copy_nodes(nodes.as_slice()),
        };
        let ghost payload = PayloadView::ConfigJoint { old: old_nodes@, new: new_nodes@ };
        let old_count: usize = old_nodes.len();
        let new_count: usize = new_nodes.len();
        assert(old_count <= u64::MAX && new_count <= u64::MAX);
        let index: u64 = self.append_own(
            EntryPayload::ConfigJoint { old: old_nodes, new: new_nodes },
            out,
        );
        let ghost t = self@;
        self.update_active_config();
        proof {
            assert(t.log.last().data == wire::enc_payload(payload));
            wire::lemma_payload_round_trip(payload);
            assert(self@.config == t.active_config());
            assert(self@.config is Joint);
        }
        let all = self.config.all_nodes();
        if has_other(all.as_slice(), ctx.id) {
            proof {
                let n = choose|n: NodeId| n != ctx.id && #[trigger] all@.contains(n);
                assert(self@.config.has(n));
                assert(transition::other_member(s.config, wanted, ctx@.id, n));
                assert(transition::has_other_member(s.config, wanted, ctx@.id));
            }
            let next: u64 = index + 1;
            add_for_others(&mut self.next_index, all.as_slice(), ctx.id, next);
            add_for_others(&mut self.match_index, all.as_slice(), ctx.id, 0);
        }
        assert(self@.next_index =~= result.0.next_index);
        assert(self@.match_index =~= result.0.match_index);
        assert(self@ =~= result.0);
        act(out, Action::ReplyConfigChange(Ok(())));
        self.broadcast_append_entries(ctx, out);
        assert(action_views(out@) =~= start + result.1);
    }

    fn on_config_stable(&mut self, ctx: &HandleEventCtx, new_nodes: Vec<NodeId>, out: &mut Vec<
        Action,
    >)
        requires
            transition::in_range(
                old(self)@,
                ctx@,
                (EventView::ProposeConfigStable { new_nodes: new_nodes@ }),
                false,
            ),
        ensures
            (final(self)@, action_views(final(out)@)) == ({
                let (s, actions) = transition::on_config_stable(old(self)@, ctx@, new_nodes@);
                (s, action_views(old(out)@) + actions)
            }),
    {
        reveal(transition::on_config_stable);
        let ghost start = action_views(out@);
        let ghost result = transition::on_config_stable(self@, ctx@, new_nodes@);
        if self.role != Role::Leader {
            act(out, Action::ReplyConfigChange(Err(Rejection::NotLeader)));
            assert(action_views(out@) =~= start + result.1);
            return;
        }
        match &self.config {
            ConfigState::Joint { .. } => {},
            ConfigState::Stable(_) => {
                assert(start + result.1 =~= start);
                return;
            },
        }
        self.append_own(EntryPayload::ConfigStable(new_nodes), out);
        self.update_active_config();
        act(out, Action::ReplyConfigChange(Ok(())));
        self.broadcast_append_entries(ctx, out);
        assert(action_views(out@) =~= start + result.1);
    }

    /// Takes one event and says what to do. `timeout` is the election timeout
    /// to use if an election starts; `restored` says whether the state machine
    /// took the snapshot, where [`RaftState::wants_snapshot`] asks for it.
    pub fn step(&mut self, ctx: &HandleEventCtx, event: Event, timeout: u64, restored: bool) -> (r:
        Vec<Action>)
        requires
            transition::in_range(old(self)@, ctx@, event@, restored),
        ensures
            (final(self)@, action_views(r@)) == transition::step(
                old(self)@,
                ctx@,
                event@,
                timeout,
                restored,
            ),
    {
        let mut out: Vec<Action> = Vec::new();
        let ghost none = action_views(out@);
        let ghost result = transition::step(self@, ctx@, event@, timeout, restored);
        assert(none + result.1 =~= result.1);
        match event {
            Event::Tick => self.on_tick(ctx, timeout, &mut out),
            Event::RequestVote { req } => self.on_request_vote(&req, &mut out),
            Event::AppendEntries { req } => self.on_append_entries(ctx, &req, &mut out),
            Event::InstallSnapshot { req } => self.on_install_snapshot(
                ctx,
                &req,
                restored,
                &mut out,
            ),
            Event::RequestVoteResponse { peer, term, resp } => self.on_vote_reply(
                ctx,
                peer,
                term,
                resp,
                &mut out,
            ),
            Event::AppendEntriesResponse { peer, term, resp, sent_prev_index, sent_count } =>
                self.on_append_reply(ctx, peer, term, resp, sent_prev_index, sent_count, &mut out),
            Event::InstallSnapshotResponse { peer, term, resp } => self.on_snapshot_reply(
                ctx,
                peer,
                term,
                resp,
                &mut out,
            ),
            Event::Propose { data } => self.on_propose(ctx, data, &mut out),
            Event::ProposeConfigChange { new_nodes } => self.on_config_change(
                ctx,
                new_nodes,
                &mut out,
            ),
            Event::ProposeConfigStable { new_nodes } => self.on_config_stable(
                ctx,
                new_nodes,
                &mut out,
            ),
            Event::Shutdown => {},
        }
        out
    }

    /// Whether there is anything to take a snapshot of.
    pub fn is_snapshot_due(&self) -> (r: bool)
        ensures
            r == (self@.last_applied > self@.last_snapshot_index),
    {
        self.last_applied > self.last_snapshot_index
    }

    /// Takes a snapshot, given the state machine's data.
    pub fn take_snapshot(&mut self, data: Vec<u8>) -> (r: Vec<Action>)
        requires
            old(self)@.last_applied < u64::MAX,
        ensures
            (final(self)@, action_views(r@)) == transition::snapshot_step(old(self)@, data@),
    {
        let mut out: Vec<Action> = Vec::new();
        assert(action_views(out@) =~= Seq::empty());
        if !self.is_snapshot_due() {
            return out;
        }
        let last_included_index: u64 = self.last_applied;
        let last_included_term: u64 = self.get_term(last_included_index);
        let rest = self.entries_between(last_included_index + 1, self.last_log_index());
        self.snapshot_config = self.config_at(last_included_index);
        self.last_snapshot_index = last_included_index;
        self.last_snapshot_term = last_included_term;
        self.last_snapshot_data = data;
        self.log = rest;
        self.act_save_snapshot(&mut out);
        assert(action_views(out@) =~= transition::snapshot_step(old(self)@, data@).1);
        out
    }
}

// ----------------------------------------------------------------------
// Replicas
// ----------------------------------------------------------------------
/// The state that a restarted replica takes up, from its snapshot and from
/// what its log file adds up to.
pub open spec fn restarted(
    id: NodeId,
    peers: Seq<NodeId>,
    snapshot: wire::SnapshotImage,
    d: persist::Durable,
    timeout: u64,
) -> RaftView {
    let s = RaftView {
        current_term: d.term,
        voted_for: d.vote,
        log: persist::entries_of(d.entries, snapshot.index + 1, d.log_len as int),
        last_snapshot_index: snapshot.index,
        last_snapshot_term: snapshot.term,
        last_snapshot_data: snapshot.payload,
        snapshot_config: snapshot.config,
        commit_index: snapshot.index,
        last_applied: snapshot.index,
        election_timeout: timeout,
        ..RaftView::fresh(id, peers)
    };
    RaftView { config: s.active_config(), ..s }
}

/// The members that a replica assumes before it knows any membership.
pub fn default_nodes(id: NodeId, peers: &[NodeId]) -> (r: Vec<NodeId>)
    ensures
        r@ == state::sorted_nodes(peers@.push(id)),
{
    let mut unsorted: Vec<NodeId> = copy_nodes(peers);
    unsorted.push(id);
    state::sort_nodes(unsorted.as_slice())
}

/// The snapshot to restore before a replica starts, from its file if it has
/// one.
pub fn load_snapshot(id: NodeId, peers: &[NodeId], file: Option<&[u8]>) -> (r: Snapshot)
    requires
        file matches Some(b) ==> wire::snapshot_readable(b@),
    ensures
        r@ == wire::snapshot_of(
            (match file {
                Some(b) => b@,
                None => Seq::empty(),
            }),
            state::sorted_nodes(peers@.push(id)),
        ),
{
    let nodes = default_nodes(id, peers);
    match file {
        Some(b) => wire::decode_snapshot(b, nodes),
        None => Snapshot {
            index: 0,
            term: 0,
            config: ConfigState::Stable(nodes),
            payload: Vec::new(),
        },
    }
}

/// A replica of one shard.
pub struct RaftNode {
    pub shard_id: u32,
    pub id: NodeId,
    pub peers: Vec<NodeId>,
    pub state: RaftState,
    pub rng: rand::rngs::StdRng,
}

impl RaftNode {
    /// Who this replica is.
    pub open spec fn me(self) -> Me {
        Me { shard_id: self.shard_id, id: self.id, peers: self.peers@ }
    }

    /// Starts a replica from its snapshot and its log file. Also says to what
    /// length the file is to be cut, so that new records follow the last whole
    /// one.
    pub fn new(
        shard_id: u32,
        id: NodeId,
        peers: Vec<NodeId>,
        snapshot: Snapshot,
        log_file: &[u8],
    ) -> (r: (RaftNode, usize))
        requires
            snapshot@.index < u64::MAX,
        ensures
            r.0.me() == (Me { shard_id, id, peers: peers@ }),
            r.0.state@ == restarted(
                id,
                peers@,
                snapshot@,
                persist::durable(wal::recovered(log_file@)),
                r.0.state@.election_timeout,
            ),
            15 <= r.0.state@.election_timeout < 30,
            r.1 == wal::recovered_len(log_file@),
    {
        let (records, valid_len) = wal::replay(log_file);
        let found = recover_log(records.as_slice());
        let mut state = RaftState::new(id, peers.as_slice());
        state.current_term = found.term;
        state.voted_for = found.vote;
        state.log = collect_entries(&found.entries, snapshot.index + 1, found.log_len);
        state.last_snapshot_index = snapshot.index;
        state.last_snapshot_term = snapshot.term;
        state.commit_index = snapshot.index;
        state.last_applied = snapshot.index;
        state.snapshot_config = snapshot.config;
        state.last_snapshot_data = snapshot.payload;
        state.update_active_config();
        let mut rng = random::seeded(id);
        state.election_timeout = random::draw_between(&mut rng, 15, 30);
        (RaftNode { shard_id, id, peers, state, rng }, valid_len)
    }

    /// Takes one event and says what to do. `restored` says whether the state
    /// machine took the snapshot, where [`RaftState::wants_snapshot`] asks for
    /// it. An election that starts draws a new timeout.
    pub fn handle_event(&mut self, event: Event, restored: bool) -> (r: Vec<Action>)
        requires
            transition::in_range(old(self).state@, old(self).me(), event@, restored),
        ensures
            final(self).me() == old(self).me(),
            (final(self).state@, action_views(r@)) == transition::step(
                old(self).state@,
                old(self).me(),
                event@,
                final(self).state@.election_timeout,
                restored,
            ),
            event@ is Tick && transition::election_due(old(self).state@) ==> 15
                <= final(self).state@.election_timeout < 30,
    {
        reveal(transition::on_tick);
        let draws: bool = match &event {
            Event::Tick => self.state.is_election_due(),
            _ => false,
        };
        let timeout: u64 = if draws {
            random::draw_between(&mut self.rng, 15, 30)
        } else {
            0
        };
        let ctx = HandleEventCtx {
            shard_id: self.shard_id,
            id: self.id,
            peers: self.peers.as_slice(),
        };
        self.state.step(&ctx, event, timeout, restored)
    }
}

impl Rejection {
    /// What is reported to the proposer.
    pub fn message(&self) -> (r: String)
        ensures
            r@ == (match self {
                Rejection::NotLeader => "Not leader"@,
                Rejection::ChangeInProgress => "Configuration change already in progress"@,
            }),
    {
        match self {
            Rejection::NotLeader => "Not leader".to_owned(),
            Rejection::ChangeInProgress => "Configuration change already in progress".to_owned(),
        }
    }
}

/// Whether the list names a replica other than `id`.
fn has_other(nodes: &[NodeId], id: NodeId) -> (r: bool)
    ensures
        r == (exists|n: NodeId| n != id && #[trigger] nodes@.contains(n)),
{
    let mut i: usize = 0;
    while i < nodes.len()
        invariant
            i <= nodes@.len(),
            forall|j: int| 0 <= j < i ==> nodes@[j] == id,
        decreases nodes@.len() - i,
    {
        if nodes[i] != id {
            assert(nodes@.contains(nodes@[i as int]));
            return true;
        }
        i = i + 1;
    }
    false
}

/// Taking entries changes the log and the membership, and nothing else.
pub proof fn lemma_take_entries_frame(s: RaftView, entries: Seq<messages::EntryView>)
    ensures
        transition::take_entries(s, entries) == (RaftView {
            log: transition::take_entries(s, entries).log,
            config: transition::take_entries(s, entries).config,
            ..s
        }),
{
    lemma_absorb_all_frame(s, entries);
}

/// Absorbing entries changes the log and nothing else.
pub proof fn lemma_absorb_all_frame(s: RaftView, entries: Seq<messages::EntryView>)
    ensures
        transition::absorb_all(s, entries) == (RaftView {
            log: transition::absorb_all(s, entries).log,
            ..s
        }),
    decreases entries.len(),
{
    if entries.len() > 0 {
        lemma_absorb_all_frame(s, entries.drop_last());
    }
}

} // verus!
