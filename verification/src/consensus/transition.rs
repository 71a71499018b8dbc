//! What each event does to a replica and what the replica then does: the
//! rules of the protocol as mathematical functions.
use crate::consensus::config;
use crate::consensus::config::ConfigView;
use crate::consensus::messages::{
    AppendEntriesResp, AppendView, EntryView, InstallSnapshotResp, NodeId, PayloadView,
    RequestVoteReq, RequestVoteResp, SnapshotView,
};
use crate::consensus::persist;
use crate::consensus::state::{RaftView, Role};
use crate::consensus::wire;
use crate::consensus::wire::SnapshotImage;
use crate::storage::wal::RecordView;
use vstd::prelude::*;

verus! {

/// Why a proposal is refused.
#[derive(Debug, Clone, Copy, PartialEq, Eq, Structural)]
pub enum Rejection {
    NotLeader,
    ChangeInProgress,
}

/// Who a replica is.
#[verifier::ext_equal]
pub struct Me {
    pub shard_id: u32,
    pub id: NodeId,
    pub peers: Seq<NodeId>,
}

/// An event as a mathematical value.
#[allow(inconsistent_fields)]
#[verifier::ext_equal]
pub enum EventView {
    Tick,
    RequestVote { req: RequestVoteReq },
    AppendEntries { req: AppendView },
    InstallSnapshot { req: SnapshotView },
    RequestVoteResponse { peer: NodeId, term: u64, resp: RequestVoteResp },
    AppendEntriesResponse {
        peer: NodeId,
        term: u64,
        resp: AppendEntriesResp,
        sent_prev_index: u64,
        sent_count: usize,
    },
    InstallSnapshotResponse { peer: NodeId, term: u64, resp: InstallSnapshotResp },
    Propose { data: Seq<u8> },
    ProposeConfigChange { new_nodes: Seq<NodeId> },
    ProposeConfigStable { new_nodes: Seq<NodeId> },
    Shutdown,
}

/// Something that a replica does, as a mathematical value.
#[allow(inconsistent_fields)]
#[verifier::ext_equal]
pub enum ActionView {
    Persist(Seq<RecordView>),
    RewriteLog(Seq<RecordView>),
    SaveSnapshot(Seq<u8>),
    SendRequestVote { to: NodeId, req: RequestVoteReq },
    SendAppendEntries { to: NodeId, req: AppendView },
    SendInstallSnapshot { to: NodeId, req: SnapshotView },
    ReplyRequestVote(RequestVoteResp),
    ReplyAppendEntries(AppendEntriesResp),
    ReplyInstallSnapshot(InstallSnapshotResp),
    ReplyPropose(Result<u64, Rejection>),
    ReplyConfigChange(Result<(), Rejection>),
    Apply(Seq<u8>),
    ProposeStable(Seq<NodeId>),
}

pub type Outcome = (RaftView, Seq<ActionView>);

/// What an event leads to. `timeout` is the election timeout that is drawn if
/// an election starts; `restored` says whether the state machine took a
/// snapshot that was offered to it.
pub open spec fn step(
    s: RaftView,
    me: Me,
    e: EventView,
    timeout: u64,
    restored: bool,
) -> Outcome {
    match e {
        EventView::Tick => on_tick(s, me, timeout),
        EventView::RequestVote { req } => on_request_vote(s, req),
        EventView::AppendEntries { req } => on_append_entries(s, req),
        EventView::InstallSnapshot { req } => on_install_snapshot(s, me, req, restored),
        EventView::RequestVoteResponse { peer, term, resp } => on_vote_reply(
            s,
            me,
            peer,
            term,
            resp,
        ),
        EventView::AppendEntriesResponse { peer, term, resp, sent_prev_index, sent_count } =>
            on_append_reply(s, me, peer, term, resp, sent_prev_index as int + sent_count as int),
        EventView::InstallSnapshotResponse { peer, term, resp } => on_snapshot_reply(
            s,
            peer,
            term,
            resp,
        ),
        EventView::Propose { data } => on_propose(s, me, data),
        EventView::ProposeConfigChange { new_nodes } => on_config_change(s, me, new_nodes),
        EventView::ProposeConfigStable { new_nodes } => on_config_stable(s, me, new_nodes),
        EventView::Shutdown => (s, Seq::empty()),
    }
}

// ----------------------------------------------------------------------
// Building blocks
// ----------------------------------------------------------------------
/// The replica makes its term and vote durable.
pub open spec fn persist_vote(s: RaftView) -> ActionView {
    ActionView::Persist(persist::vote_records(s.current_term, s.voted_for))
}

/// The replica makes its term and vote durable, if `needed`.
pub open spec fn persist_vote_if(needed: bool, s: RaftView) -> Seq<ActionView> {
    if needed {
        seq![persist_vote(s)]
    } else {
        Seq::empty()
    }
}

/// The replica adopts a newer term as a follower that has not voted.
pub open spec fn adopt_term(s: RaftView, term: u64) -> RaftView {
    if term > s.current_term {
        RaftView { current_term: term, voted_for: None, role: Role::Follower, ..s }
    } else {
        s
    }
}

/// The index of the next entry to send to `peer`.
pub open spec fn next_for(s: RaftView, peer: NodeId) -> u64 {
    if s.next_index.dom().contains(peer) {
        s.next_index[peer]
    } else {
        1
    }
}

/// The entries that `peer` lacks, or the snapshot where the log no longer
/// holds them.
pub open spec fn replicate_to(s: RaftView, me: Me, peer: NodeId) -> ActionView {
    let next = next_for(s, peer);
    if next <= s.last_snapshot_index {
        ActionView::SendInstallSnapshot {
            to: peer,
            req: SnapshotView {
                shard_id: me.shard_id,
                term: s.current_term,
                leader_id: me.id,
                last_included_index: s.last_snapshot_index,
                last_included_term: s.last_snapshot_term,
                offset: 0,
                data: s.last_snapshot_data,
                done: true,
            },
        }
    } else {
        ActionView::SendAppendEntries {
            to: peer,
            req: AppendView {
                shard_id: me.shard_id,
                term: s.current_term,
                leader_id: me.id,
                prev_log_index: (next - 1) as u64,
                prev_log_term: s.term_at(next - 1),
                entries: s.entries_between(next as int, s.last_log_index() as int),
                leader_commit: s.commit_index,
            },
        }
    }
}

/// One replication message to each replica of the list but this one.
pub open spec fn replicate_to_all(s: RaftView, me: Me, nodes: Seq<NodeId>) -> Seq<ActionView>
    decreases nodes.len(),
{
    if nodes.len() == 0 {
        Seq::empty()
    } else {
        let front = replicate_to_all(s, me, nodes.drop_last());
        if nodes.last() == me.id {
            front
        } else {
            front.push(replicate_to(s, me, nodes.last()))
        }
    }
}

/// One replication message to each other member.
pub open spec fn broadcast(s: RaftView, me: Me) -> Seq<ActionView> {
    replicate_to_all(s, me, s.config.all_nodes())
}

/// The request for a vote that a candidate sends.
pub open spec fn vote_request(s: RaftView, me: Me) -> RequestVoteReq {
    RequestVoteReq {
        shard_id: me.shard_id,
        term: s.current_term,
        candidate_id: me.id,
        last_log_index: s.last_log_index(),
        last_log_term: s.last_log_term(),
    }
}

/// One request for a vote to each replica of the list but this one.
pub open spec fn ask_all(s: RaftView, me: Me, nodes: Seq<NodeId>) -> Seq<ActionView>
    decreases nodes.len(),
{
    if nodes.len() == 0 {
        Seq::empty()
    } else {
        let front = ask_all(s, me, nodes.drop_last());
        if nodes.last() == me.id {
            front
        } else {
            front.push(
                ActionView::SendRequestVote { to: nodes.last(), req: vote_request(s, me) },
            )
        }
    }
}

/// `m` with `value` for every member other than `id`.
pub open spec fn set_for_others(
    m: Map<NodeId, u64>,
    c: ConfigView,
    id: NodeId,
    value: u64,
) -> Map<NodeId, u64> {
    Map::new(
        |n: NodeId| m.dom().contains(n) || (c.has(n) && n != id),
        |n: NodeId|
            if c.has(n) && n != id {
                value
            } else {
                m[n]
            },
    )
}

/// `m` with `value` for every member other than `id` that it lacks.
pub open spec fn add_for_others(
    m: Map<NodeId, u64>,
    c: ConfigView,
    id: NodeId,
    value: u64,
) -> Map<NodeId, u64> {
    Map::new(
        |n: NodeId| m.dom().contains(n) || (c.has(n) && n != id),
        |n: NodeId|
            if m.dom().contains(n) {
                m[n]
            } else {
                value
            },
    )
}

/// The replica takes over as leader.
pub open spec fn lead(s: RaftView, id: NodeId) -> RaftView {
    RaftView {
        role: Role::Leader,
        next_index: set_for_others(
            s.next_index,
            s.config,
            id,
            (s.last_log_index() + 1) as u64,
        ),
        match_index: set_for_others(s.match_index, s.config, id, 0),
        ..s
    }
}

/// The committed entries that have not been applied.
pub open spec fn unapplied(s: RaftView) -> Seq<EntryView> {
    s.entries_between(s.last_applied + 1, s.commit_index as int)
}

/// The commands among the entries are applied, in order.
pub open spec fn apply_commands(entries: Seq<EntryView>) -> Seq<ActionView>
    decreases entries.len(),
{
    if entries.len() == 0 {
        Seq::empty()
    } else {
        let front = apply_commands(entries.drop_last());
        match wire::dec_payload(entries.last().data) {
            Some(PayloadView::Command(cmd)) => front.push(ActionView::Apply(cmd)),
            _ => front,
        }
    }
}

/// Everything committed has been applied.
pub open spec fn caught_up(s: RaftView) -> RaftView {
    let end = s.last_snapshot_index + s.log.len();
    RaftView {
        last_applied: if unapplied(s).len() == 0 {
            s.last_applied
        } else if s.commit_index < end {
            s.commit_index
        } else {
            end as u64
        },
        ..s
    }
}

/// The replica appends an entry of its own to the log.
pub open spec fn append_own(s: RaftView, payload: PayloadView) -> RaftView {
    RaftView { log: s.log.push(own_entry(s, payload)), ..s }
}

/// The next entry of a leader's log.
pub open spec fn own_entry(s: RaftView, payload: PayloadView) -> EntryView {
    EntryView {
        term: s.current_term,
        index: (s.last_log_index() + 1) as u64,
        data: wire::enc_payload(payload),
    }
}

// ----------------------------------------------------------------------
// Time
// ----------------------------------------------------------------------
/// The election timeout runs out with the next tick.
pub open spec fn election_due(s: RaftView) -> bool {
    s.role != Role::Leader && s.election_elapsed + 1 >= s.election_timeout
}

/// The replica asks for votes in a new term, with its own vote.
pub open spec fn candidacy(s: RaftView, me: Me, timeout: u64) -> RaftView {
    RaftView {
        role: Role::Candidate,
        current_term: (s.current_term + 1) as u64,
        voted_for: Some(me.id),
        votes_received: Set::empty().insert(me.id),
        election_timeout: timeout,
        election_elapsed: 0,
        ..s
    }
}

/// What the passing of time leads to.
#[verifier::opaque]
pub open spec fn on_tick(s: RaftView, me: Me, timeout: u64) -> Outcome {
    if s.role == Role::Leader {
        let t = RaftView { heartbeat_elapsed: (s.heartbeat_elapsed + 1) as u64, ..s };
        if t.heartbeat_elapsed >= t.heartbeat_timeout {
            let u = RaftView { heartbeat_elapsed: 0, ..t };
            (u, broadcast(u, me))
        } else {
            (t, Seq::empty())
        }
    } else if !election_due(s) {
        (RaftView { election_elapsed: (s.election_elapsed + 1) as u64, ..s }, Seq::empty())
    } else {
        let c = candidacy(s, me, timeout);
        if c.config.quorum(c.votes_received.insert(me.id)) {
            let l = lead(c, me.id);
            (l, seq![persist_vote(c)] + broadcast(l, me))
        } else {
            (c, seq![persist_vote(c)] + ask_all(c, me, c.config.all_nodes()))
        }
    }
}

// ----------------------------------------------------------------------
// Elections
// ----------------------------------------------------------------------
/// The candidate's log is at least as long and recent as this replica's.
pub open spec fn up_to_date(s: RaftView, req: RequestVoteReq) -> bool {
    req.last_log_term > s.last_log_term() || (req.last_log_term == s.last_log_term()
        && req.last_log_index >= s.last_log_index())
}

/// The replica gives the candidate its vote.
pub open spec fn grants(s: RaftView, req: RequestVoteReq) -> bool {
    &&& req.term == s.current_term
    &&& s.voted_for is None || s.voted_for == Some(req.candidate_id)
    &&& up_to_date(s, req)
}

/// What a request for a vote leads to.
#[verifier::opaque]
pub open spec fn on_request_vote(s: RaftView, req: RequestVoteReq) -> Outcome {
    let t = adopt_term(s, req.term);
    let u = if grants(t, req) {
        RaftView { voted_for: Some(req.candidate_id), election_elapsed: 0, ..t }
    } else {
        t
    };
    (
        u,
        persist_vote_if(req.term > s.current_term || grants(t, req), u).push(
            ActionView::ReplyRequestVote(
                RequestVoteResp { term: u.current_term, vote_granted: grants(t, req) },
            ),
        ),
    )
}

/// What the answer to a request for a vote leads to.
#[verifier::opaque]
pub open spec fn on_vote_reply(
    s: RaftView,
    me: Me,
    peer: NodeId,
    term: u64,
    resp: RequestVoteResp,
) -> Outcome {
    if term != s.current_term || s.role != Role::Candidate {
        (s, Seq::empty())
    } else if resp.term > s.current_term {
        let t = adopt_term(s, resp.term);
        (t, seq![persist_vote(t)])
    } else if !resp.vote_granted {
        (s, Seq::empty())
    } else {
        let t = RaftView { votes_received: s.votes_received.insert(peer), ..s };
        if t.config.quorum(t.votes_received.insert(me.id)) {
            let l = RaftView { heartbeat_elapsed: 0, ..lead(t, me.id) };
            (l, broadcast(l, me))
        } else {
            (t, Seq::empty())
        }
    }
}

// ----------------------------------------------------------------------
// Replication
// ----------------------------------------------------------------------
/// A replica that hears from a leader of its term follows it.
pub open spec fn follow(s: RaftView) -> RaftView {
    RaftView {
        role: if s.role == Role::Candidate {
            Role::Follower
        } else {
            s.role
        },
        election_elapsed: 0,
        ..s
    }
}

/// The log holds the entry that the new entries follow.
pub open spec fn log_matches(s: RaftView, req: AppendView) -> bool {
    &&& req.prev_log_index <= s.last_log_index()
    &&& req.prev_log_index < s.last_snapshot_index || s.term_at(req.prev_log_index as int)
        == req.prev_log_term
}

/// The log after one received entry: one that the snapshot covers is not taken, an
/// entry that is there already stays, one of another term goes, with all that follow
/// it.
pub open spec fn absorb_entry(s: RaftView, e: EntryView) -> RaftView {
    let known = s.term_at(e.index as int);
    if e.index < s.last_snapshot_index {
        s
    } else if known == 0 {
        RaftView { log: s.log.push(e), ..s }
    } else if known == e.term {
        s
    } else {
        RaftView { log: s.log.take(e.index - s.last_snapshot_index - 1).push(e), ..s }
    }
}

/// What one received entry makes durable.
pub open spec fn absorb_records(s: RaftView, e: EntryView) -> Seq<RecordView> {
    let known = s.term_at(e.index as int);
    if e.index < s.last_snapshot_index {
        Seq::empty()
    } else if known == 0 {
        persist::entry_records(e)
    } else if known == e.term {
        Seq::empty()
    } else {
        let cut = RaftView { log: s.log.take(e.index - s.last_snapshot_index - 1), ..s };
        persist::log_len_records(cut.last_log_index()) + persist::entry_records(e)
    }
}

/// The log after the received entries.
pub open spec fn absorb_all(s: RaftView, entries: Seq<EntryView>) -> RaftView
    decreases entries.len(),
{
    if entries.len() == 0 {
        s
    } else {
        absorb_entry(absorb_all(s, entries.drop_last()), entries.last())
    }
}

/// What the received entries make durable.
pub open spec fn absorb_all_records(s: RaftView, entries: Seq<EntryView>) -> Seq<RecordView>
    decreases entries.len(),
{
    if entries.len() == 0 {
        Seq::empty()
    } else {
        absorb_all_records(s, entries.drop_last()) + absorb_records(
            absorb_all(s, entries.drop_last()),
            entries.last(),
        )
    }
}

/// The replica after it has taken the entries, and its membership with them.
pub open spec fn take_entries(s: RaftView, entries: Seq<EntryView>) -> RaftView {
    let t = absorb_all(s, entries);
    if absorb_all_records(s, entries).len() > 0 {
        RaftView { config: t.active_config(), ..t }
    } else {
        t
    }
}

/// The smaller of two numbers.
pub open spec fn min_u64(a: u64, b: u64) -> u64 {
    if a <= b {
        a
    } else {
        b
    }
}

/// The larger of two numbers.
pub open spec fn max_u64(a: u64, b: u64) -> u64 {
    if a >= b {
        a
    } else {
        b
    }
}

/// The replica learns how far the leader has committed.
pub open spec fn learn_commit(s: RaftView, leader_commit: u64) -> RaftView {
    if leader_commit > s.commit_index {
        RaftView { commit_index: min_u64(leader_commit, s.last_log_index()), ..s }
    } else {
        s
    }
}

/// What a leader's entries lead to.
#[verifier::opaque]
pub open spec fn on_append_entries(s: RaftView, req: AppendView) -> Outcome {
    let t = adopt_term(s, req.term);
    if req.term < t.current_term {
        (
            t,
            seq![
                ActionView::ReplyAppendEntries(
                    AppendEntriesResp {
                        term: t.current_term,
                        success: false,
                        match_index: t.last_log_index(),
                    },
                ),
            ],
        )
    } else {
        let stepped_down = req.term > s.current_term || s.role == Role::Candidate;
        let u = follow(t);
        if !log_matches(u, req) {
            (
                u,
                seq![
                    ActionView::ReplyAppendEntries(
                        AppendEntriesResp {
                            term: u.current_term,
                            success: false,
                            match_index: u.last_log_index(),
                        },
                    ),
                ] + persist_vote_if(stepped_down, u),
            )
        } else {
            let records = absorb_all_records(u, req.entries);
            let w = take_entries(u, req.entries);
            let x = learn_commit(w, req.leader_commit);
            let news = req.leader_commit > w.commit_index;
            let y = if news {
                caught_up(x)
            } else {
                x
            };
            (
                y,
                (if records.len() > 0 {
                    seq![ActionView::Persist(records)]
                } else {
                    Seq::empty()
                }) + persist_vote_if(stepped_down, x) + (if news {
                    apply_commands(unapplied(x))
                } else {
                    Seq::empty()
                }) + seq![
                    ActionView::ReplyAppendEntries(
                        AppendEntriesResp {
                            term: y.current_term,
                            success: true,
                            match_index: y.last_log_index(),
                        },
                    ),
                ],
            )
        }
    }
}

/// The entry with the given index is of this term, and enough replicas hold it.
pub open spec fn committable(s: RaftView, id: NodeId, index: int) -> bool {
    &&& s.term_at(index) == s.current_term
    &&& s.config.quorum(
        config::holders(s.match_index, id, s.last_log_index(), index as u64),
    )
}

/// The last index above `from`, and not above `to`, that can be committed, or
/// `from` if there is none.
pub open spec fn commit_point(s: RaftView, id: NodeId, from: int, to: int) -> int
    decreases to - from,
{
    if to <= from {
        from
    } else if committable(s, id, to) {
        to
    } else {
        commit_point(s, id, from, to - 1)
    }
}

/// The index up to which `peer` is known to hold the log.
pub open spec fn match_for(s: RaftView, peer: NodeId) -> u64 {
    if s.match_index.dom().contains(peer) {
        s.match_index[peer]
    } else {
        0
    }
}

/// `peer` is known to hold the log up to `matched`.
pub open spec fn record_match(s: RaftView, peer: NodeId, matched: int) -> RaftView {
    if matched > match_for(s, peer) {
        RaftView {
            match_index: s.match_index.insert(peer, matched as u64),
            next_index: s.next_index.insert(peer, (matched + 1) as u64),
            ..s
        }
    } else {
        s
    }
}

/// A leader whose transition is committed leaves it for the new membership.
pub open spec fn finish_change(s: RaftView) -> Seq<ActionView> {
    match (s.config_at(s.commit_index), s.config) {
        (ConfigView::Joint { new, .. }, ConfigView::Joint { .. }) => seq![
            ActionView::ProposeStable(new),
        ],
        _ => Seq::empty(),
    }
}

/// What the answer to an append leads to, if the peer then holds the log up to `matched`.
#[verifier::opaque]
pub open spec fn on_append_reply(
    s: RaftView,
    me: Me,
    peer: NodeId,
    term: u64,
    resp: AppendEntriesResp,
    matched: int,
) -> Outcome {
    if term != s.current_term || s.role != Role::Leader {
        (s, Seq::empty())
    } else if resp.term > s.current_term {
        let t = adopt_term(s, resp.term);
        (t, seq![persist_vote(t)])
    } else if resp.success {
        let t = record_match(s, peer, matched);
        let c = commit_point(t, me.id, t.commit_index as int, t.last_log_index() as int);
        if c > t.commit_index {
            let u = RaftView { commit_index: c as u64, ..t };
            let v = caught_up(u);
            (v, apply_commands(unapplied(u)) + finish_change(v))
        } else {
            (t, finish_change(t))
        }
    } else {
        let next = next_for(s, peer);
        if next > 1 {
            let t = RaftView { next_index: s.next_index.insert(peer, (next - 1) as u64), ..s };
            (t, seq![replicate_to(t, me, peer)] + finish_change(t))
        } else {
            (s, finish_change(s))
        }
    }
}

// ----------------------------------------------------------------------
// Snapshots
// ----------------------------------------------------------------------
/// The snapshot is newer than this replica's.
pub open spec fn offers_news(s: RaftView, req: SnapshotView) -> bool {
    req.term >= s.current_term && req.last_included_index > s.last_snapshot_index
}

/// The entries that follow the one with the given index.
pub open spec fn entries_after(s: RaftView, index: u64) -> Seq<EntryView> {
    s.entries_between(index + 1, s.last_log_index() as int)
}

/// The replica after it has taken over a leader's snapshot: what follows it in the
/// log stays.
pub open spec fn install(s: RaftView, me: Me, req: SnapshotView) -> RaftView {
    let t = RaftView {
        log: entries_after(s, req.last_included_index),
        last_snapshot_index: req.last_included_index,
        last_snapshot_term: req.last_included_term,
        last_snapshot_data: req.data,
        snapshot_config: ConfigView::Stable(me.peers),
        commit_index: max_u64(s.commit_index, req.last_included_index),
        last_applied: max_u64(s.last_applied, req.last_included_index),
        ..s
    };
    RaftView { config: t.active_config(), ..t }
}

/// The replica makes its snapshot durable, and the log behind it.
pub open spec fn save_snapshot(s: RaftView) -> Seq<ActionView> {
    seq![
        ActionView::SaveSnapshot(
            wire::snapshot_bytes(
                SnapshotImage {
                    index: s.last_snapshot_index,
                    term: s.last_snapshot_term,
                    config: s.snapshot_config,
                    payload: s.last_snapshot_data,
                },
            ),
        ),
        ActionView::RewriteLog(persist::state_records(s)),
    ]
}

/// What a leader's snapshot leads to.
#[verifier::opaque]
pub open spec fn on_install_snapshot(
    s: RaftView,
    me: Me,
    req: SnapshotView,
    restored: bool,
) -> Outcome {
    let t = adopt_term(s, req.term);
    if req.term < t.current_term {
        (
            t,
            seq![ActionView::ReplyInstallSnapshot(InstallSnapshotResp { term: t.current_term })],
        )
    } else {
        let stepped_down = req.term > s.current_term || s.role == Role::Candidate;
        let u = follow(t);
        let installs = offers_news(s, req) && restored;
        let w = if installs {
            install(u, me, req)
        } else {
            u
        };
        (
            w,
            (if installs {
                save_snapshot(w)
            } else {
                Seq::empty()
            }) + persist_vote_if(stepped_down, w) + seq![
                ActionView::ReplyInstallSnapshot(InstallSnapshotResp { term: w.current_term }),
            ],
        )
    }
}

/// What the answer to a snapshot leads to.
#[verifier::opaque]
pub open spec fn on_snapshot_reply(
    s: RaftView,
    peer: NodeId,
    term: u64,
    resp: InstallSnapshotResp,
) -> Outcome {
    if term != s.current_term || s.role != Role::Leader {
        (s, Seq::empty())
    } else if resp.term > s.current_term {
        let t = adopt_term(s, resp.term);
        (t, seq![persist_vote(t)])
    } else {
        (
            RaftView {
                match_index: s.match_index.insert(peer, s.last_snapshot_index),
                next_index: s.next_index.insert(peer, (s.last_snapshot_index + 1) as u64),
                ..s
            },
            Seq::empty(),
        )
    }
}

/// What taking a snapshot leads to, given the state machine's data: it covers what
/// was applied, and what follows in the log stays.
pub open spec fn snapshot_step(s: RaftView, data: Seq<u8>) -> Outcome {
    if s.last_applied <= s.last_snapshot_index {
        (s, Seq::empty())
    } else {
        let t = RaftView {
            log: entries_after(s, s.last_applied),
            last_snapshot_index: s.last_applied,
            last_snapshot_term: s.term_at(s.last_applied as int),
            last_snapshot_data: data,
            snapshot_config: s.config_at(s.last_applied),
            ..s
        };
        (t, save_snapshot(t))
    }
}

// ----------------------------------------------------------------------
// Proposals
// ----------------------------------------------------------------------
/// What a proposed command leads to.
#[verifier::opaque]
pub open spec fn on_propose(s: RaftView, me: Me, data: Seq<u8>) -> Outcome {
    if s.role != Role::Leader {
        (s, seq![ActionView::ReplyPropose(Err(Rejection::NotLeader))])
    } else {
        let e = own_entry(s, PayloadView::Command(data));
        let t = append_own(s, PayloadView::Command(data));
        (
            t,
            seq![
                ActionView::Persist(persist::entry_records(e)),
                ActionView::ReplyPropose(Ok(e.index)),
            ] + broadcast(t, me),
        )
    }
}

/// What a proposed change of the membership leads to.
#[verifier::opaque]
pub open spec fn on_config_change(s: RaftView, me: Me, new_nodes: Seq<NodeId>) -> Outcome {
    if s.role != Role::Leader {
        (s, seq![ActionView::ReplyConfigChange(Err(Rejection::NotLeader))])
    } else {
        match s.config {
            ConfigView::Joint { .. } => (
                s,
                seq![ActionView::ReplyConfigChange(Err(Rejection::ChangeInProgress))],
            ),
            ConfigView::Stable(old_nodes) => {
                let payload = PayloadView::ConfigJoint { old: old_nodes, new: new_nodes };
                let t = append_own(s, payload);
                let c = t.active_config();
                let u = RaftView {
                    config: c,
                    next_index: add_for_others(
                        s.next_index,
                        c,
                        me.id,
                        (t.last_log_index() + 1) as u64,
                    ),
                    match_index: add_for_others(s.match_index, c, me.id, 0),
                    ..t
                };
                (
                    u,
                    seq![
                        ActionView::Persist(persist::entry_records(own_entry(s, payload))),
                        ActionView::ReplyConfigChange(Ok(())),
                    ] + broadcast(u, me),
                )
            },
        }
    }
}

/// What the end of a change of the membership leads to.
#[verifier::opaque]
pub open spec fn on_config_stable(s: RaftView, me: Me, new_nodes: Seq<NodeId>) -> Outcome {
    if s.role != Role::Leader {
        (s, seq![ActionView::ReplyConfigChange(Err(Rejection::NotLeader))])
    } else if s.config is Stable {
        (s, Seq::empty())
    } else {
        let payload = PayloadView::ConfigStable(new_nodes);
        let t = append_own(s, payload);
        let u = RaftView { config: t.active_config(), ..t };
        (
            u,
            seq![
                ActionView::Persist(persist::entry_records(own_entry(s, payload))),
                ActionView::ReplyConfigChange(Ok(())),
            ] + broadcast(u, me),
        )
    }
}

// ----------------------------------------------------------------------
// Bounds
// ----------------------------------------------------------------------
/// The counters that the event moves stay within 64 bits, and no received
/// entry contradicts the snapshot.
pub open spec fn in_range(s: RaftView, me: Me, e: EventView, restored: bool) -> bool {
    match e {
        EventView::Tick => if s.role == Role::Leader {
            s.heartbeat_elapsed < u64::MAX
        } else {
            &&& s.election_elapsed < u64::MAX
            &&& election_due(s) ==> s.current_term < u64::MAX
            &&& election_due(s) && s.config.quorum(Set::empty().insert(me.id))
                ==> s.last_log_index() < u64::MAX
        },
        EventView::AppendEntries { req } => {
            let u = follow(adopt_term(s, req.term));
            req.term >= s.current_term && log_matches(u, req) ==> {
                &&& forall|i: int|
                    0 <= i < req.entries.len() ==> no_clash(s, #[trigger] req.entries[i])
                &&& req.leader_commit > s.commit_index ==> s.last_applied < u64::MAX
            }
        },
        EventView::InstallSnapshot { req } => offers_news(s, req) && restored
            ==> req.last_included_index < u64::MAX,
        EventView::RequestVoteResponse { peer, term, resp } => {
            let votes = s.votes_received.insert(peer).insert(me.id);
            term == s.current_term && s.role == Role::Candidate && resp.term <= s.current_term
                && resp.vote_granted && s.config.quorum(votes) ==> s.last_log_index() < u64::MAX
        },
        EventView::AppendEntriesResponse { peer, term, resp, sent_prev_index, sent_count } => {
            term == s.current_term && s.role == Role::Leader && resp.term <= s.current_term
                && resp.success ==> {
                let matched = sent_prev_index + sent_count;
                let t = record_match(s, peer, matched);
                let end = t.last_log_index() as int;
                &&& matched <= u64::MAX
                &&& matched > match_for(s, peer) ==> matched < u64::MAX
                &&& s.commit_index < u64::MAX
                &&& commit_point(t, me.id, s.commit_index as int, end) > s.commit_index
                    ==> s.last_applied < u64::MAX
            }
        },
        EventView::InstallSnapshotResponse { peer, term, resp } => {
            term == s.current_term && s.role == Role::Leader && resp.term <= s.current_term
                ==> s.last_snapshot_index < u64::MAX
        },
        EventView::Propose { data } => s.role == Role::Leader ==> s.last_log_index() < u64::MAX,
        EventView::ProposeConfigChange { new_nodes } => s.role == Role::Leader && s.config is Stable
            ==> {
            &&& s.last_log_index() < u64::MAX
            &&& has_other_member(s.config, new_nodes, me.id) ==> s.last_log_index() < u64::MAX
                - 1
        },
        EventView::ProposeConfigStable { new_nodes } => s.role == Role::Leader && s.config is Joint
            ==> s.last_log_index() < u64::MAX,
        _ => true,
    }
}

/// `n` is a member, now or in the membership to come, and not `id`.
pub open spec fn other_member(
    c: ConfigView,
    new_nodes: Seq<NodeId>,
    id: NodeId,
    n: NodeId,
) -> bool {
    n != id && (c.has(n) || new_nodes.contains(n))
}

/// There is a member other than `id`, now or in the membership to come.
pub open spec fn has_other_member(c: ConfigView, new_nodes: Seq<NodeId>, id: NodeId) -> bool {
    exists|n: NodeId| other_member(c, new_nodes, id, n)
}

/// The entry is not in the snapshot's place with another term.
pub open spec fn no_clash(s: RaftView, e: EntryView) -> bool {
    e.index == s.last_snapshot_index && e.index != 0 && s.last_snapshot_term != 0 ==> e.term
        == s.last_snapshot_term
}

} // verus!
