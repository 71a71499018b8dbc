//! A group of replicas and the messages between them, as a mathematical value.
//!
//! Messages may be lost, delayed, delivered in any order and more than once:
//! those that were sent stay, and any of them may be delivered at any time. Replicas
//! may go down and come back. The membership does not change, and no snapshots are
//! taken: [`crate::consensus::snapshots`] has groups whose replicas take them, and
//! [`crate::consensus::election`] those whose members change.
use crate::consensus::config::ConfigView;
use crate::consensus::messages::{
    AppendEntriesResp, AppendView, EntryView, NodeId, RequestVoteReq, RequestVoteResp,
};
use crate::consensus::state::{RaftView, Role};
use crate::consensus::transition;
use crate::consensus::transition::{ActionView, EventView, Me};
use vstd::prelude::*;

verus! {

/// A message on its way.
#[allow(inconsistent_fields)]
#[verifier::ext_equal]
pub enum Mail {
    VoteReq { to: NodeId, req: RequestVoteReq },
    VoteRep { to: NodeId, peer: NodeId, term: u64, resp: RequestVoteResp },
    AppendReq { to: NodeId, req: AppendView },
    AppendRep {
        to: NodeId,
        peer: NodeId,
        term: u64,
        resp: AppendEntriesResp,
        prev: u64,
        count: nat,
    },
}

/// The replicas, and all messages that were ever sent.
#[verifier::ext_equal]
pub ghost struct Cluster {
    pub nodes: Map<NodeId, RaftView>,
    pub mail: Set<Mail>,
}

/// What happens to a replica.
#[verifier::ext_equal]
pub enum Cause {
    /// Time passes.
    Tick,
    /// A command is proposed.
    Propose(Seq<u8>),
    /// A message is delivered.
    Deliver(Mail),
}

/// A replica is told of what happens as an event.
pub open spec fn event_of(c: Cause) -> EventView {
    match c {
        Cause::Tick => EventView::Tick,
        Cause::Propose(data) => EventView::Propose { data },
        Cause::Deliver(Mail::VoteReq { to, req }) => EventView::RequestVote { req },
        Cause::Deliver(Mail::VoteRep { to, peer, term, resp }) => EventView::RequestVoteResponse {
            peer,
            term,
            resp,
        },
        Cause::Deliver(Mail::AppendReq { to, req }) => EventView::AppendEntries { req },
        Cause::Deliver(Mail::AppendRep { to, peer, term, resp, prev, count }) =>
            EventView::AppendEntriesResponse {
            peer,
            term,
            resp,
            sent_prev_index: prev,
            sent_count: count as usize,
        },
    }
}

/// The message that an action of replica `i` sends, if it sends one. An answer
/// goes back to where the request came from, and says what it answers.
pub open spec fn mail_of(i: NodeId, c: Cause, a: ActionView) -> Option<Mail> {
    match a {
        ActionView::SendRequestVote { to, req } => Some(Mail::VoteReq { to, req }),
        ActionView::SendAppendEntries { to, req } => Some(Mail::AppendReq { to, req }),
        ActionView::ReplyRequestVote(resp) => match c {
            Cause::Deliver(Mail::VoteReq { to, req }) => Some(
                Mail::VoteRep { to: req.candidate_id, peer: i, term: req.term, resp },
            ),
            _ => None,
        },
        ActionView::ReplyAppendEntries(resp) => match c {
            Cause::Deliver(Mail::AppendReq { to, req }) => Some(
                Mail::AppendRep {
                    to: req.leader_id,
                    peer: i,
                    term: req.term,
                    resp,
                    prev: req.prev_log_index,
                    count: req.entries.len(),
                },
            ),
            _ => None,
        },
        _ => None,
    }
}

/// The messages with those that the actions send.
pub open spec fn with_mail(mail: Set<Mail>, i: NodeId, c: Cause, acts: Seq<ActionView>) -> Set<Mail>
    decreases acts.len(),
{
    if acts.len() == 0 {
        mail
    } else {
        let rest = with_mail(mail, i, c, acts.drop_last());
        match mail_of(i, c, acts.last()) {
            Some(m) => rest.insert(m),
            None => rest,
        }
    }
}

/// A message that is delivered was sent to the replica; lengths can be written as
/// numbers.
pub open spec fn can_happen(c: Cluster, i: NodeId, cause: Cause) -> bool {
    match cause {
        Cause::Deliver(m) => c.mail.contains(m) && match m {
            Mail::VoteReq { to, .. } => to == i,
            Mail::VoteRep { to, .. } => to == i,
            Mail::AppendReq { to, .. } => to == i,
            Mail::AppendRep { to, count, .. } => to == i && count <= usize::MAX,
        },
        Cause::Propose(data) => data.len() <= u64::MAX,
        Cause::Tick => true,
    }
}

/// From one state of the group to the next: something happens to a replica, it
/// does what the protocol says, and its messages are sent.
pub open spec fn steps(
    c: Cluster,
    i: NodeId,
    me: Me,
    cause: Cause,
    timeout: u64,
    d: Cluster,
) -> bool {
    let out = transition::step(c.nodes[i], me, event_of(cause), timeout, false);
    &&& c.nodes.contains_key(i)
    &&& me.id == i
    &&& can_happen(c, i, cause)
    &&& transition::in_range(c.nodes[i], me, event_of(cause), false)
    &&& d.nodes == c.nodes.insert(i, out.0)
    &&& d.mail == with_mail(c.mail, i, cause, out.1)
}

/// A replica that went down comes back: as a follower, with the term, the vote, the
/// log and the snapshot that it had, and with no more applied than it had.
pub open spec fn comes_back(s: RaftView, t: RaftView) -> bool {
    &&& t.current_term == s.current_term
    &&& t.voted_for == s.voted_for
    &&& t.log == s.log
    &&& t.last_snapshot_index == s.last_snapshot_index
    &&& t.last_snapshot_term == s.last_snapshot_term
    &&& t.config == s.config
    &&& t.snapshot_config == s.snapshot_config
    &&& s.last_snapshot_index <= t.commit_index <= s.last_applied
    &&& t.last_applied == t.commit_index
    &&& t.role == Role::Follower
}

/// From one state of the group to the next: a replica is started again.
pub open spec fn restarts(c: Cluster, i: NodeId, d: Cluster) -> bool {
    &&& c.nodes.contains_key(i)
    &&& comes_back(c.nodes[i], d.nodes[i])
    &&& d.nodes == c.nodes.insert(i, d.nodes[i])
    &&& d.mail == c.mail
}

/// Some step leads from one state to the next.
pub open spec fn follows(c: Cluster, d: Cluster) -> bool {
    ||| exists|i: NodeId, me: Me, cause: Cause, timeout: u64| #[trigger]
        steps(c, i, me, cause, timeout, d)
    ||| exists|i: NodeId| #[trigger] restarts(c, i, d)
}

/// A replica that was just started.
pub open spec fn is_new(s: RaftView, cfg: ConfigView) -> bool {
    &&& s.current_term == 0
    &&& s.voted_for is None
    &&& s.log.len() == 0
    &&& s.last_snapshot_index == 0
    &&& s.config == cfg
    &&& s.snapshot_config == cfg
    &&& s.commit_index == 0
    &&& s.last_applied == 0
    &&& s.role == Role::Follower
}

/// A group of replicas that were just started, all with the same membership.
pub open spec fn starts(c: Cluster, cfg: ConfigView) -> bool {
    &&& cfg is Stable
    &&& c.mail == Set::<Mail>::empty()
    &&& forall|n: NodeId| cfg.has(n) ==> #[trigger] c.nodes.contains_key(n)
    &&& forall|n: NodeId| #[trigger] c.nodes.contains_key(n) ==> is_new(c.nodes[n], cfg)
}

/// What a group goes through: it is started, and then step follows step.
pub open spec fn is_run(run: Seq<Cluster>, cfg: ConfigView) -> bool {
    &&& run.len() > 0
    &&& starts(run[0], cfg)
    &&& forall|k: int| 0 <= k && k + 1 < run.len() ==> #[trigger] follows(run[k], run[k + 1])
}

/// Replica `n` leads in a term.
pub open spec fn leads(c: Cluster, n: NodeId, term: u64) -> bool {
    c.nodes.contains_key(n) && c.nodes[n].role == Role::Leader && c.nodes[n].current_term == term
}

/// Replica `n` has applied the log up to an index, at which this entry stands.
pub open spec fn has_applied(c: Cluster, n: NodeId, index: int, e: EntryView) -> bool {
    &&& c.nodes.contains_key(n)
    &&& 1 <= index <= c.nodes[n].last_applied
    &&& index <= c.nodes[n].log.len()
    &&& c.nodes[n].log[index - 1] == e
}

} // verus!
