//! What replicas do for each other: whom they ask and tell, when they give their vote,
//! and when entries are taken and committed.
use crate::consensus::config;
use crate::consensus::config::ConfigView;
use crate::consensus::messages::{
    AppendEntriesResp, AppendView, EntryView, NodeId, PayloadView, RequestVoteReq,
    RequestVoteResp, SnapshotView,
};
use crate::consensus::node;
use crate::consensus::state::{RaftView, Role};
use crate::consensus::transition;
use crate::consensus::transition::{ActionView, Me, Rejection};
use crate::consensus::wire;
use vstd::prelude::*;

verus! {

// ----------------------------------------------------------------------
// Majorities
// ----------------------------------------------------------------------
/// A majority of a list is more than half of its places.
pub proof fn lemma_majority_is_more_than_half(nodes: Seq<NodeId>, s: Set<NodeId>)
    ensures
        config::majority(nodes, s) <==> 2 * nodes.filter(|n: NodeId| s.contains(n)).len()
            > nodes.len(),
{
    lemma_count_is_filter(nodes, s);
}

proof fn lemma_count_is_filter(nodes: Seq<NodeId>, s: Set<NodeId>)
    ensures
        config::count_in(nodes, s) == nodes.filter(|n: NodeId| s.contains(n)).len(),
    decreases nodes.len(),
{
    reveal(Seq::filter);
    if nodes.len() > 0 {
        lemma_count_is_filter(nodes.drop_last(), s);
    }
}

/// A quorum is more than half of the members; while they change, more than half of the
/// old ones and more than half of the new ones.
pub proof fn lemma_quorum_is_more_than_half(c: ConfigView, s: Set<NodeId>)
    ensures
        c matches ConfigView::Stable(nodes) ==> (c.quorum(s) <==> 2 * nodes.filter(
            |n: NodeId| s.contains(n),
        ).len() > nodes.len()),
        c matches ConfigView::Joint { old, new } ==> (c.quorum(s) <==> 2 * old.filter(
            |n: NodeId| s.contains(n),
        ).len() > old.len() && 2 * new.filter(|n: NodeId| s.contains(n)).len() > new.len()),
{
    match c {
        ConfigView::Stable(nodes) => {
            lemma_count_is_filter(nodes, s);
        },
        ConfigView::Joint { old, new } => {
            lemma_count_is_filter(old, s);
            lemma_count_is_filter(new, s);
        },
    }
}

proof fn lemma_all_nodes(c: ConfigView, n: NodeId)
    ensures
        c.all_nodes().contains(n) <==> c.has(n),
{
    match c {
        ConfigView::Stable(nodes) => {},
        ConfigView::Joint { old, new } => {
            let both = old.to_set().union(new.to_set());
            config::lemma_ascending(both);
            assert(c.all_nodes().to_set().contains(n) <==> both.contains(n));
        },
    }
}

// ----------------------------------------------------------------------
// Messages to all
// ----------------------------------------------------------------------
proof fn lemma_replicate_to_all(s: RaftView, me: Me, nodes: Seq<NodeId>, peer: NodeId)
    ensures
        nodes.contains(peer) && peer != me.id ==> transition::replicate_to_all(
            s,
            me,
            nodes,
        ).contains(transition::replicate_to(s, me, peer)),
        forall|i: int|
            0 <= i < transition::replicate_to_all(s, me, nodes).len() ==> exists|p: NodeId|
                nodes.contains(p) && p != me.id && #[trigger] transition::replicate_to_all(
                    s,
                    me,
                    nodes,
                )[i] == #[trigger] transition::replicate_to(s, me, p),
    decreases nodes.len(),
{
    if nodes.len() > 0 {
        let front = nodes.drop_last();
        let x = nodes.last();
        lemma_replicate_to_all(s, me, front, peer);
        let a = transition::replicate_to_all(s, me, front);
        let b = transition::replicate_to_all(s, me, nodes);
        assert(nodes[nodes.len() - 1] == x);
        if nodes.contains(peer) && peer != me.id {
            if peer == x {
                assert(b[a.len() as int] == transition::replicate_to(s, me, peer));
            } else {
                let i = choose|i: int| 0 <= i < nodes.len() && nodes[i] == peer;
                assert(front[i] == peer);
                let k = choose|k: int|
                    0 <= k < a.len() && a[k] == transition::replicate_to(s, me, peer);
                assert(b[k] == a[k]);
            }
        }
        assert forall|i: int| 0 <= i < b.len() implies exists|p: NodeId|
            nodes.contains(p) && p != me.id && #[trigger] b[i]
                == #[trigger] transition::replicate_to(s, me, p) by {
            if i < a.len() {
                assert(a[i] == b[i]);
                let p = choose|p: NodeId|
                    front.contains(p) && p != me.id && a[i] == #[trigger] transition::replicate_to(
                        s,
                        me,
                        p,
                    );
                let k = choose|k: int| 0 <= k < front.len() && front[k] == p;
                assert(nodes[k] == p);
            } else {
                assert(b[i] == transition::replicate_to(s, me, x));
            }
        }
    }
}

/// The action sends to another member what that member needs.
pub open spec fn tells_a_member(s: RaftView, me: Me, a: ActionView) -> bool {
    exists|p: NodeId|
        s.config.has(p) && p != me.id && a == #[trigger] transition::replicate_to(s, me, p)
}

/// A leader's round goes to each member but itself, and to nobody else.
pub proof fn lemma_every_member_is_told(s: RaftView, me: Me, peer: NodeId)
    ensures
        s.config.has(peer) && peer != me.id ==> transition::broadcast(s, me).contains(
            transition::replicate_to(s, me, peer),
        ),
        forall|i: int|
            0 <= i < transition::broadcast(s, me).len() ==> tells_a_member(
                s,
                me,
                #[trigger] transition::broadcast(s, me)[i],
            ),
{
    lemma_replicate_to_all(s, me, s.config.all_nodes(), peer);
    lemma_all_nodes(s.config, peer);
    let b = transition::broadcast(s, me);
    assert forall|i: int| 0 <= i < b.len() implies tells_a_member(s, me, #[trigger] b[i]) by {
        let p = choose|p: NodeId|
            s.config.all_nodes().contains(p) && p != me.id && b[i]
                == #[trigger] transition::replicate_to(s, me, p);
        lemma_all_nodes(s.config, p);
    }
}

proof fn lemma_ask_all(s: RaftView, me: Me, nodes: Seq<NodeId>, peer: NodeId)
    ensures
        nodes.contains(peer) && peer != me.id ==> transition::ask_all(s, me, nodes).contains(
            ActionView::SendRequestVote { to: peer, req: transition::vote_request(s, me) },
        ),
    decreases nodes.len(),
{
    if nodes.len() > 0 && nodes.contains(peer) && peer != me.id {
        let front = nodes.drop_last();
        let x = nodes.last();
        lemma_ask_all(s, me, front, peer);
        let a = transition::ask_all(s, me, front);
        let b = transition::ask_all(s, me, nodes);
        let m = ActionView::SendRequestVote { to: peer, req: transition::vote_request(s, me) };
        if peer == x {
            assert(b[a.len() as int] == m);
        } else {
            let i = choose|i: int| 0 <= i < nodes.len() && nodes[i] == peer;
            assert(front[i] == peer);
            let k = choose|k: int| 0 <= k < a.len() && a[k] == m;
            assert(b[k] == a[k]);
        }
    }
}

/// A replica's indexes count up from its snapshot.
pub open spec fn counts(s: RaftView) -> bool {
    &&& s.last_snapshot_index + s.log.len() <= u64::MAX
    &&& forall|k: int|
        0 <= k < s.log.len() ==> (#[trigger] s.log[k]).index == s.last_snapshot_index + k + 1
}

/// What a leader sends to a member: the entries from the next one that it is to get on
/// to the end of the log, with the index and the term of the one before them; or the
/// snapshot, where that covers the next one.
pub proof fn lemma_message_has_what_is_missing(s: RaftView, me: Me, peer: NodeId, next: u64)
    requires
        counts(s),
        s.next_index.contains_key(peer),
        s.next_index[peer] == next,
    ensures
        next <= s.last_snapshot_index ==> transition::replicate_to(s, me, peer) == (
        ActionView::SendInstallSnapshot {
            to: peer,
            req: SnapshotView {
                shard_id: me.shard_id,
                term: s.current_term,
                leader_id: me.id,
                last_included_index: s.last_snapshot_index,
                last_included_term: s.last_snapshot_term,
                offset: 0,
                data: s.last_snapshot_data,
                done: true,
            },
        }),
        s.last_snapshot_index < next <= s.last_snapshot_index + s.log.len() + 1
            ==> transition::replicate_to(s, me, peer) == (ActionView::SendAppendEntries {
            to: peer,
            req: AppendView {
                shard_id: me.shard_id,
                term: s.current_term,
                leader_id: me.id,
                prev_log_index: (next - 1) as u64,
                prev_log_term: s.term_at(next - 1),
                entries: s.log.skip(next - s.last_snapshot_index - 1),
                leader_commit: s.commit_index,
            },
        }),
{
    if s.log.len() > 0 {
        assert(s.log[s.log.len() - 1].index == s.last_snapshot_index + s.log.len());
    }
    if s.last_snapshot_index < next <= s.last_snapshot_index + s.log.len() + 1 {
        assert(s.entries_between(next as int, s.last_log_index() as int) =~= s.log.skip(
            next - s.last_snapshot_index - 1,
        ));
    }
}

// ----------------------------------------------------------------------
// Time
// ----------------------------------------------------------------------
/// A leader lets every other member hear from it as often as its heartbeat says, and
/// stays as it is.
pub proof fn lemma_leader_is_heard(s: RaftView, me: Me, timeout: u64, peer: NodeId)
    requires
        s.role == Role::Leader,
        s.heartbeat_elapsed < u64::MAX,
    ensures
        ({
            let out = transition::on_tick(s, me, timeout);
            &&& out.0.role == Role::Leader
            &&& out.0 == (RaftView { heartbeat_elapsed: out.0.heartbeat_elapsed, ..s })
            &&& s.heartbeat_elapsed + 1 >= s.heartbeat_timeout ==> out.0.heartbeat_elapsed == 0
                && (s.config.has(peer) && peer != me.id ==> out.1.contains(
                transition::replicate_to(s, me, peer),
            ))
            &&& s.heartbeat_elapsed + 1 < s.heartbeat_timeout ==> out.0.heartbeat_elapsed
                == s.heartbeat_elapsed + 1 && out.1.len() == 0
        }),
{
    reveal(transition::on_tick);
    let t = RaftView { heartbeat_elapsed: (s.heartbeat_elapsed + 1) as u64, ..s };
    let u = RaftView { heartbeat_elapsed: 0, ..t };
    lemma_every_member_is_told(u, me, peer);
    assert(transition::replicate_to(u, me, peer) == transition::replicate_to(s, me, peer));
}

/// A replica that has heard from no leader until its time ran out stands for the next
/// term: it votes for itself, makes that durable before anything else, and asks every
/// other member for its vote, with where its own log ends; alone it leads at once.
/// Before its time runs out it only counts.
pub proof fn lemma_silence_starts_an_election(s: RaftView, me: Me, timeout: u64, peer: NodeId)
    requires
        s.role != Role::Leader,
        s.current_term < u64::MAX,
        s.election_elapsed < u64::MAX,
    ensures
        ({
            let out = transition::on_tick(s, me, timeout);
            let due = s.election_elapsed + 1 >= s.election_timeout;
            let alone = s.config.quorum(Set::empty().insert(me.id));
            &&& due ==> out.0.current_term == s.current_term + 1 && out.0.voted_for == Some(me.id)
                && out.1.len() > 0 && out.1[0] is Persist && out.0.log == s.log
                && out.0.election_timeout == timeout && out.0.election_elapsed == 0
            &&& due && !alone ==> out.0.role == Role::Candidate && out.0.votes_received
                =~= Set::empty().insert(me.id) && (s.config.has(peer) && peer != me.id
                ==> out.1.contains(
                ActionView::SendRequestVote {
                    to: peer,
                    req: RequestVoteReq {
                        shard_id: me.shard_id,
                        term: (s.current_term + 1) as u64,
                        candidate_id: me.id,
                        last_log_index: s.last_log_index(),
                        last_log_term: s.last_log_term(),
                    },
                },
            ))
            &&& due && alone ==> out.0.role == Role::Leader
            &&& !due ==> out.1.len() == 0 && out.0 == (RaftView {
                election_elapsed: (s.election_elapsed + 1) as u64,
                ..s
            })
        }),
{
    reveal(transition::on_tick);
    let c = transition::candidacy(s, me, timeout);
    assert(c.votes_received.insert(me.id) =~= Set::empty().insert(me.id));
    lemma_ask_all(c, me, c.config.all_nodes(), peer);
    lemma_all_nodes(c.config, peer);
    let p = seq![transition::persist_vote(c)];
    let q = transition::ask_all(c, me, c.config.all_nodes());
    let m = ActionView::SendRequestVote { to: peer, req: transition::vote_request(c, me) };
    if s.config.has(peer) && peer != me.id {
        let k = choose|k: int| 0 <= k < q.len() && q[k] == m;
        assert((p + q)[k + 1] == m);
    }
}

// ----------------------------------------------------------------------
// Votes
// ----------------------------------------------------------------------
/// The log that ends with an entry of this term at this index is at least as recent and
/// as long as the replica's.
pub open spec fn is_recent(s: RaftView, term: u64, index: u64) -> bool {
    term > s.last_log_term() || (term == s.last_log_term() && index >= s.last_log_index())
}

/// A vote is given to a candidate of a term that is not over, whose log is at least as
/// recent and long, by a replica that has given it to no other in that term: to no other
/// candidate, and to each such one. It is noted, and the time to wait begins anew. The
/// answer says whether it was given, and in what term the replica is.
pub proof fn lemma_when_a_vote_is_given(s: RaftView, req: RequestVoteReq)
    ensures
        ({
            let out = transition::on_request_vote(s, req);
            let free = req.term > s.current_term || s.voted_for is None || s.voted_for == Some(
                req.candidate_id,
            );
            let given = req.term >= s.current_term && free && is_recent(
                s,
                req.last_log_term,
                req.last_log_index,
            );
            &&& out.1.len() > 0
            &&& out.1.last() == ActionView::ReplyRequestVote(
                RequestVoteResp {
                    term: if req.term > s.current_term {
                        req.term
                    } else {
                        s.current_term
                    },
                    vote_granted: given,
                },
            )
            &&& given ==> out.0.voted_for == Some(req.candidate_id) && out.0.election_elapsed == 0
                && out.0.current_term == req.term && out.1[0] is Persist
            &&& !given && req.term <= s.current_term ==> out.0 == s
            &&& !given && req.term > s.current_term ==> out.0.voted_for is None
                && out.0.current_term == req.term && out.0.role == Role::Follower && out.1[0] is Persist
            &&& out.0.log == s.log
        }),
{
    reveal(transition::on_request_vote);
}

/// A candidate that gets a vote counts it, and leads once it has the votes of a quorum,
/// with its own among them: it then takes every other member to need what follows its
/// log, and tells them all. A refusal changes nothing, unless it names a later term.
pub proof fn lemma_votes_make_a_leader(
    s: RaftView,
    me: Me,
    peer: NodeId,
    resp: RequestVoteResp,
    other: NodeId,
)
    requires
        s.role == Role::Candidate,
        s.last_log_index() < u64::MAX,
    ensures
        ({
            let out = transition::on_vote_reply(s, me, peer, s.current_term, resp);
            let votes = s.votes_received.insert(peer).insert(me.id);
            &&& resp.term <= s.current_term && resp.vote_granted && s.config.quorum(votes)
                ==> out.0.role == Role::Leader && out.0.current_term == s.current_term
                && out.0.log == s.log && (s.config.has(other) && other != me.id
                ==> out.0.next_index.contains_key(other) && out.0.next_index[other]
                == s.last_log_index() + 1 && out.0.match_index.contains_key(other)
                && out.0.match_index[other] == 0 && out.1.contains(
                transition::replicate_to(out.0, me, other),
            ))
            &&& resp.term <= s.current_term && resp.vote_granted && !s.config.quorum(votes)
                ==> out.0.role == Role::Candidate && out.0.votes_received
                == s.votes_received.insert(peer) && out.1.len() == 0
            &&& resp.term <= s.current_term && !resp.vote_granted ==> out.0 == s && out.1.len() == 0
            &&& resp.term > s.current_term ==> out.0.role == Role::Follower && out.0.current_term
                == resp.term && out.0.voted_for is None && out.1.len() == 1 && out.1[0] is Persist
        }),
{
    reveal(transition::on_vote_reply);
    let t = RaftView { votes_received: s.votes_received.insert(peer), ..s };
    let l = RaftView { heartbeat_elapsed: 0, ..transition::lead(t, me.id) };
    lemma_every_member_is_told(l, me, other);
}

// ----------------------------------------------------------------------
// Entries
// ----------------------------------------------------------------------
proof fn lemma_absorbed(s: RaftView, es: Seq<EntryView>, prev: int, i: int)
    requires
        counts(s),
        s.last_snapshot_index <= prev <= s.last_snapshot_index + s.log.len(),
        s.last_snapshot_term > 0 || s.last_snapshot_index == 0,
        prev + es.len() <= u64::MAX,
        forall|k: int|
            0 <= k < es.len() ==> (#[trigger] es[k]).index == prev + k + 1 && es[k].term > 0,
        forall|k: int| 0 <= k < s.log.len() ==> (#[trigger] s.log[k]).term > 0,
    ensures
        ({
            let t = transition::absorb_all(s, es);
            &&& counts(t)
            &&& t.last_snapshot_index == s.last_snapshot_index
            &&& t.last_snapshot_term == s.last_snapshot_term
            &&& forall|k: int| 0 <= k < t.log.len() ==> (#[trigger] t.log[k]).term > 0
            &&& prev + es.len() <= t.last_snapshot_index + t.log.len()
            &&& 0 <= i < es.len() ==> t.term_at(prev + i + 1) == es[i].term && (s.term_at(
                prev + i + 1,
            ) != es[i].term ==> t.entry_at(prev + i + 1) == Some(es[i]))
            &&& prev <= i + s.last_snapshot_index ==> true
            &&& forall|k: int|
                0 <= k < prev - s.last_snapshot_index ==> #[trigger] t.log[k] == s.log[k]
        }),
    decreases es.len(),
{
    if es.len() > 0 {
        let front = es.drop_last();
        let e = es.last();
        assert forall|k: int| 0 <= k < front.len() implies (#[trigger] front[k]).index == prev + k
            + 1 && front[k].term > 0 by {
            assert(front[k] == es[k]);
        }
        lemma_absorbed(s, front, prev, i);
        let u = transition::absorb_all(s, front);
        let t = transition::absorb_all(s, es);
        assert(es[es.len() - 1] == e);
        let pos = e.index - s.last_snapshot_index - 1;
        assert(pos == prev + front.len() - s.last_snapshot_index);
        if pos < u.log.len() {
            assert(u.entry_at(e.index as int) == Some(u.log[pos]));
            assert(u.log[pos].term > 0);
        }
        if 0 <= i < front.len() {
            assert(front[i] == es[i]);
            let at = prev + i - s.last_snapshot_index;
            assert(u.entry_at(prev + i + 1) == Some(u.log[at]));
            assert(t.log[at] == u.log[at]);
        }
        assert(t.log[pos].term == e.term);
        assert forall|k: int| 0 <= k < t.log.len() implies (#[trigger] t.log[k]).index
            == t.last_snapshot_index + k + 1 && t.log[k].term > 0 by {
            if k < u.log.len() && k != pos {
                assert(t.log[k] == u.log[k]);
            }
        }
        if i == front.len() && s.term_at(prev + i + 1) != e.term && u.term_at(prev + i + 1)
            == e.term {
            lemma_unabsorbed_stays(s, front, prev, pos);
        }
    }
}

proof fn lemma_unabsorbed_stays(s: RaftView, es: Seq<EntryView>, prev: int, pos: int)
    requires
        counts(s),
        s.last_snapshot_index <= prev <= s.last_snapshot_index + s.log.len(),
        s.last_snapshot_term > 0 || s.last_snapshot_index == 0,
        prev + es.len() <= u64::MAX,
        forall|k: int|
            0 <= k < es.len() ==> (#[trigger] es[k]).index == prev + k + 1 && es[k].term > 0,
        forall|k: int| 0 <= k < s.log.len() ==> (#[trigger] s.log[k]).term > 0,
        pos >= prev + es.len() - s.last_snapshot_index,
    ensures
        pos < transition::absorb_all(s, es).log.len() ==> pos < s.log.len()
            && transition::absorb_all(s, es).log[pos] == s.log[pos],
    decreases es.len(),
{
    if es.len() > 0 {
        let front = es.drop_last();
        assert forall|k: int| 0 <= k < front.len() implies (#[trigger] front[k]).index == prev + k
            + 1 && front[k].term > 0 by {
            assert(front[k] == es[k]);
        }
        lemma_unabsorbed_stays(s, front, prev, pos);
        lemma_absorbed(s, front, prev, 0);
        let u = transition::absorb_all(s, front);
        let e = es.last();
        assert(es[es.len() - 1] == e);
        let at = e.index - s.last_snapshot_index - 1;
        if at < u.log.len() {
            assert(u.entry_at(e.index as int) == Some(u.log[at]));
            assert(u.log[at].term > 0);
        }
    }
}

/// A follower takes a leader's entries if and only if the leader's term is not over and
/// its own log holds the entry before them, with the same term. It then holds every
/// one of them, has all that was before them as it was, says so, and knows of no more
/// committed than the leader has told it or than it holds.
pub proof fn lemma_taken_entries_are_held(s: RaftView, req: AppendView, i: int)
    requires
        counts(s),
        s.last_snapshot_index <= req.prev_log_index,
        s.last_snapshot_term > 0 || s.last_snapshot_index == 0,
        req.prev_log_index + req.entries.len() <= u64::MAX,
        forall|k: int|
            0 <= k < req.entries.len() ==> (#[trigger] req.entries[k]).index == req.prev_log_index
                + k + 1 && req.entries[k].term > 0,
        forall|k: int| 0 <= k < s.log.len() ==> (#[trigger] s.log[k]).term > 0,
        0 <= i < req.entries.len(),
    ensures
        ({
            let out = transition::on_append_entries(s, req);
            let taken = req.term >= s.current_term && req.prev_log_index <= s.last_snapshot_index
                + s.log.len() && s.term_at(req.prev_log_index as int) == req.prev_log_term;
            &&& taken ==> out.1.len() > 0 && (out.1.last() matches ActionView::ReplyAppendEntries(r)
                && r.success && r.term == req.term && r.match_index == out.0.last_log_index())
            &&& !taken ==> out.0.log == s.log && out.1.len() > 0 && exists|r: AppendEntriesResp|
                #[trigger]
                out.1.contains(ActionView::ReplyAppendEntries(r)) && !r.success
            &&& taken ==> out.0.term_at(req.prev_log_index + i + 1) == req.entries[i].term
                && out.0.last_log_index() >= req.prev_log_index + req.entries.len() && (s.term_at(
                req.prev_log_index + i + 1,
            ) != req.entries[i].term ==> out.0.entry_at(req.prev_log_index + i + 1) == Some(
                req.entries[i],
            ))
            &&& taken ==> forall|k: int|
                0 <= k < req.prev_log_index - s.last_snapshot_index ==> #[trigger] out.0.log[k]
                    == s.log[k]
            &&& taken ==> out.0.commit_index == if req.leader_commit <= s.commit_index {
                s.commit_index
            } else if req.leader_commit <= out.0.last_log_index() {
                req.leader_commit
            } else {
                out.0.last_log_index()
            }
            &&& req.term >= s.current_term ==> out.0.current_term == req.term
                && out.0.election_elapsed == 0 && out.0.role != Role::Candidate
        }),
{
    reveal(transition::on_append_entries);
    let t = transition::adopt_term(s, req.term);
    let u = transition::follow(t);
    if s.log.len() > 0 {
        assert(s.log[s.log.len() - 1].index == s.last_snapshot_index + s.log.len());
    }
    assert(u.last_log_index() == s.last_snapshot_index + s.log.len());
    assert(u.term_at(req.prev_log_index as int) == s.term_at(req.prev_log_index as int));
    let out = transition::on_append_entries(s, req);
    if req.term < s.current_term || !transition::log_matches(u, req) {
        assert(out.1[0] is ReplyAppendEntries);
        assert(out.1.contains(out.1[0]));
    } else {
        lemma_absorbed(u, req.entries, req.prev_log_index as int, i);
        node::lemma_take_entries_frame(u, req.entries);
        let w = transition::take_entries(u, req.entries);
        let v = transition::absorb_all(u, req.entries);
        assert(w.log == v.log && out.0.log == v.log);
        assert(v.log[v.log.len() - 1].index == v.last_snapshot_index + v.log.len());
        assert(u.term_at(req.prev_log_index + i + 1) == s.term_at(req.prev_log_index + i + 1));
        assert(out.0.term_at(req.prev_log_index + i + 1) == v.term_at(req.prev_log_index + i + 1));
    }
}

/// The number at the end of a committed log does not pass what can be committed.
proof fn lemma_commit_point(s: RaftView, id: NodeId, from: int, to: int, index: int)
    requires
        from <= index <= to,
        index > from ==> transition::committable(s, id, index),
    ensures
        from <= index <= transition::commit_point(s, id, from, to) <= to,
        transition::commit_point(s, id, from, to) > from ==> transition::committable(
            s,
            id,
            transition::commit_point(s, id, from, to),
        ),
    decreases to - from,
{
    if to > from && !transition::committable(s, id, to) {
        lemma_commit_point(s, id, from, to - 1, index);
    }
}

/// The members that hold the log up to an index as far as a leader knows.
pub open spec fn known_holders(s: RaftView, id: NodeId, index: u64) -> Set<NodeId> {
    Set::new(
        |n: NodeId|
            (n == id && index <= s.last_log_index()) || (n != id && s.match_index.contains_key(n)
                && s.match_index[n] >= index),
    )
}

/// When a member tells a leader that it has taken entries, the leader notes how far it
/// then holds the log, and goes on behind that. An entry of the leader's own term that
/// more than half then hold is committed, and with it all before; and nothing is that
/// fewer hold.
pub proof fn lemma_majority_commits(
    s: RaftView,
    me: Me,
    peer: NodeId,
    resp: AppendEntriesResp,
    matched: int,
    index: u64,
)
    requires
        s.role == Role::Leader,
        resp.success,
        resp.term <= s.current_term,
        0 <= matched < u64::MAX,
        counts(s),
        s.commit_index <= s.last_log_index(),
        0 < index,
    ensures
        ({
            let t = transition::on_append_reply(s, me, peer, s.current_term, resp, matched).0;
            let had = if s.match_index.contains_key(peer) {
                s.match_index[peer] as int
            } else {
                0
            };
            &&& matched > had ==> t.match_index == s.match_index.insert(peer, matched as u64)
                && t.next_index == s.next_index.insert(peer, (matched + 1) as u64)
            &&& matched <= had ==> t.match_index == s.match_index && t.next_index == s.next_index
            &&& s.commit_index < index <= s.last_log_index() && s.term_at(index as int)
                == s.current_term && s.config.quorum(known_holders(t, me.id, index))
                ==> t.commit_index >= index
            &&& t.commit_index > s.commit_index ==> t.commit_index <= s.last_log_index()
                && s.term_at(t.commit_index as int) == s.current_term && s.config.quorum(
                known_holders(t, me.id, t.commit_index),
            )
            &&& t.commit_index >= s.commit_index
            &&& t.log == s.log && t.role == Role::Leader && t.current_term == s.current_term
        }),
{
    reveal(transition::on_append_reply);
    let r = transition::record_match(s, peer, matched);
    let end = r.last_log_index() as int;
    let c = transition::commit_point(r, me.id, r.commit_index as int, end);
    let out = transition::on_append_reply(s, me, peer, s.current_term, resp, matched);
    assert(end == s.last_log_index());
    assert forall|i: u64| i > 0 implies #[trigger] known_holders(out.0, me.id, i)
        =~= config::holders(r.match_index, me.id, r.last_log_index(), i) by {}
    lemma_commit_point(r, me.id, r.commit_index as int, end, r.commit_index as int);
    if s.commit_index < index <= s.last_log_index() && s.term_at(index as int) == s.current_term
        && s.config.quorum(known_holders(out.0, me.id, index)) {
        assert(r.term_at(index as int) == s.term_at(index as int));
        assert(known_holders(out.0, me.id, index) == config::holders(
            r.match_index,
            me.id,
            r.last_log_index(),
            index,
        ));
        lemma_commit_point(r, me.id, r.commit_index as int, end, index as int);
    }
    if c > r.commit_index {
        assert(r.term_at(c) == s.term_at(c));
        assert(known_holders(out.0, me.id, c as u64) == config::holders(
            r.match_index,
            me.id,
            r.last_log_index(),
            c as u64,
        ));
    }
}

/// When a member lacks the entry before those that it was sent, the leader goes one
/// back and sends to it again.
pub proof fn lemma_leader_goes_back(
    s: RaftView,
    me: Me,
    peer: NodeId,
    resp: AppendEntriesResp,
    matched: int,
)
    requires
        s.role == Role::Leader,
        !resp.success,
        resp.term <= s.current_term,
        s.next_index.contains_key(peer),
        s.next_index[peer] > 1,
    ensures
        ({
            let out = transition::on_append_reply(s, me, peer, s.current_term, resp, matched);
            &&& out.0.next_index == s.next_index.insert(peer, (s.next_index[peer] - 1) as u64)
            &&& out.0 == (RaftView { next_index: out.0.next_index, ..s })
            &&& out.1.contains(transition::replicate_to(out.0, me, peer))
        }),
{
    reveal(transition::on_append_reply);
    let out = transition::on_append_reply(s, me, peer, s.current_term, resp, matched);
    assert(out.1[0] == transition::replicate_to(out.0, me, peer));
}

/// A leader takes a proposed command as the next entry of its log, in its term, makes
/// it durable before it answers with its index, and sends it to every other member.
/// Another replica refuses it.
pub proof fn lemma_proposal_is_taken(s: RaftView, me: Me, data: Seq<u8>, peer: NodeId)
    requires
        counts(s),
        s.last_snapshot_index + s.log.len() < u64::MAX,
        data.len() <= u64::MAX,
    ensures
        ({
            let out = transition::on_propose(s, me, data);
            let e = out.0.log.last();
            &&& s.role == Role::Leader ==> out.0.log == s.log.push(e) && e.term == s.current_term
                && e.index == s.last_snapshot_index + s.log.len() + 1 && wire::dec_payload(e.data)
                == Some(PayloadView::Command(data)) && out.1.len() >= 2 && out.1[0] is Persist
                && out.1[1] == ActionView::ReplyPropose(Ok(e.index)) && (s.config.has(peer) && peer
                != me.id ==> out.1.contains(transition::replicate_to(out.0, me, peer)))
            &&& s.role != Role::Leader ==> out == (
                s,
                seq![ActionView::ReplyPropose(Err(Rejection::NotLeader))],
            )
        }),
{
    reveal(transition::on_propose);
    if s.log.len() > 0 {
        assert(s.log[s.log.len() - 1].index == s.last_snapshot_index + s.log.len());
    }
    wire::lemma_payload_round_trip(PayloadView::Command(data));
    let t = transition::append_own(s, PayloadView::Command(data));
    lemma_every_member_is_told(t, me, peer);
    let out = transition::on_propose(s, me, data);
    let b = transition::broadcast(t, me);
    if s.role == Role::Leader && s.config.has(peer) && peer != me.id {
        let k = choose|k: int| 0 <= k < b.len() && b[k] == transition::replicate_to(t, me, peer);
        assert(out.1[k + 2] == b[k]);
    }
}

// ----------------------------------------------------------------------
// Changes of the membership
// ----------------------------------------------------------------------
/// A leader begins a change of the membership with an entry that names the old and the
/// new members, and goes by both from then on; it begins none while one is under way.
/// Another replica refuses.
pub proof fn lemma_change_begins(s: RaftView, me: Me, new_nodes: Seq<NodeId>)
    requires
        counts(s),
        s.last_snapshot_index + s.log.len() < u64::MAX,
        new_nodes.len() <= u64::MAX,
        s.config matches ConfigView::Stable(old) ==> old.len() <= u64::MAX,
    ensures
        ({
            let out = transition::on_config_change(s, me, new_nodes);
            let e = out.0.log.last();
            &&& s.role != Role::Leader ==> out == (
                s,
                seq![ActionView::ReplyConfigChange(Err(Rejection::NotLeader))],
            )
            &&& s.role == Role::Leader && s.config is Joint ==> out == (
                s,
                seq![ActionView::ReplyConfigChange(Err(Rejection::ChangeInProgress))],
            )
            &&& s.role == Role::Leader ==> (s.config matches ConfigView::Stable(old)
                ==> out.0.config == (ConfigView::Joint { old, new: new_nodes }) && out.0.log
                == s.log.push(e) && wire::dec_payload(e.data) == Some(
                PayloadView::ConfigJoint { old, new: new_nodes },
            ) && e.term == s.current_term && e.index == s.last_snapshot_index + s.log.len() + 1
                && out.1.len() >= 2 && out.1[0] is Persist && out.1[1]
                == ActionView::ReplyConfigChange(Ok(())))
        }),
{
    reveal(transition::on_config_change);
    if s.log.len() > 0 {
        assert(s.log[s.log.len() - 1].index == s.last_snapshot_index + s.log.len());
    }
    match s.config {
        ConfigView::Stable(old) => {
            wire::lemma_payload_round_trip(PayloadView::ConfigJoint { old, new: new_nodes });
        },
        ConfigView::Joint { .. } => {},
    }
}

/// Every member of the old and of the new membership hears of a change that begins.
pub proof fn lemma_change_is_told(s: RaftView, me: Me, new_nodes: Seq<NodeId>, peer: NodeId)
    requires
        counts(s),
        s.last_snapshot_index + s.log.len() < u64::MAX,
        new_nodes.len() <= u64::MAX,
        s.config matches ConfigView::Stable(old) && old.len() <= u64::MAX && (old.contains(peer)
            || new_nodes.contains(peer)),
        s.role == Role::Leader,
        peer != me.id,
    ensures
        ({
            let out = transition::on_config_change(s, me, new_nodes);
            out.1.contains(transition::replicate_to(out.0, me, peer))
        }),
{
    lemma_change_begins(s, me, new_nodes);
    reveal(transition::on_config_change);
    let out = transition::on_config_change(s, me, new_nodes);
    lemma_every_member_is_told(out.0, me, peer);
    let b = transition::broadcast(out.0, me);
    let k = choose|k: int| 0 <= k < b.len() && b[k] == transition::replicate_to(out.0, me, peer);
    assert(out.1[k + 2] == b[k]);
}

/// A leader takes a member that is new to it to need what follows its log then, and
/// knows of nothing that this member holds; of the others it knows what it knew.
pub proof fn lemma_new_members_are_followed(
    s: RaftView,
    me: Me,
    new_nodes: Seq<NodeId>,
    peer: NodeId,
)
    requires
        counts(s),
        s.last_snapshot_index + s.log.len() < u64::MAX - 1,
        new_nodes.len() <= u64::MAX,
        s.config matches ConfigView::Stable(old) && old.len() <= u64::MAX,
        s.role == Role::Leader,
        peer != me.id,
    ensures
        ({
            let t = transition::on_config_change(s, me, new_nodes).0;
            &&& new_nodes.contains(peer) && !s.next_index.contains_key(peer)
                ==> t.next_index.contains_key(peer) && t.next_index[peer] == s.last_snapshot_index
                + s.log.len() + 2
            &&& new_nodes.contains(peer) && !s.match_index.contains_key(peer)
                ==> t.match_index.contains_key(peer) && t.match_index[peer] == 0
            &&& s.next_index.contains_key(peer) ==> t.next_index.contains_key(peer)
                && t.next_index[peer] == s.next_index[peer]
            &&& s.match_index.contains_key(peer) ==> t.match_index.contains_key(peer)
                && t.match_index[peer] == s.match_index[peer]
        }),
{
    lemma_change_begins(s, me, new_nodes);
    reveal(transition::on_config_change);
}

/// A leader ends a change with an entry that names the new members, and goes by these
/// alone from then on; where none is under way it does nothing.
pub proof fn lemma_change_ends(s: RaftView, me: Me, new_nodes: Seq<NodeId>)
    requires
        counts(s),
        s.last_snapshot_index + s.log.len() < u64::MAX,
        new_nodes.len() <= u64::MAX,
        s.role == Role::Leader,
    ensures
        ({
            let out = transition::on_config_stable(s, me, new_nodes);
            let e = out.0.log.last();
            &&& s.config is Stable ==> out.0 == s && out.1.len() == 0
            &&& s.config is Joint ==> out.0.config == ConfigView::Stable(new_nodes) && out.0.log
                == s.log.push(e) && wire::dec_payload(e.data) == Some(
                PayloadView::ConfigStable(new_nodes),
            ) && e.term == s.current_term && out.1.len() >= 2 && out.1[0] is Persist
        }),
{
    reveal(transition::on_config_stable);
    wire::lemma_payload_round_trip(PayloadView::ConfigStable(new_nodes));
}

/// A leader goes on to the new members once the entry that began the change is
/// committed, and not before.
pub proof fn lemma_change_goes_on(s: RaftView)
    ensures
        s.config is Stable ==> transition::finish_change(s).len() == 0,
        s.config_at(s.commit_index) is Stable ==> transition::finish_change(s).len() == 0,
        s.config is Joint ==> (s.config_at(s.commit_index) matches ConfigView::Joint { old, new }
            ==> transition::finish_change(s) == seq![ActionView::ProposeStable(new)]),
{
}

// ----------------------------------------------------------------------
// Snapshots
// ----------------------------------------------------------------------
/// A snapshot covers just what was applied, and nothing of the log behind that is lost;
/// it is made durable before the log is cut. Where nothing was applied since the last
/// one, none is taken.
pub proof fn lemma_snapshot_covers_what_was_applied(s: RaftView, data: Seq<u8>)
    requires
        counts(s),
        s.last_applied <= s.last_snapshot_index + s.log.len(),
    ensures
        ({
            let out = transition::snapshot_step(s, data);
            &&& s.last_applied <= s.last_snapshot_index ==> out.0 == s && out.1.len() == 0
            &&& s.last_applied > s.last_snapshot_index ==> out.0.last_snapshot_index
                == s.last_applied && out.0.last_snapshot_term == s.term_at(s.last_applied as int)
                && out.0.last_snapshot_data == data && out.0.log == s.log.skip(
                s.last_applied - s.last_snapshot_index,
            ) && out.0.last_applied == s.last_applied && out.0.commit_index == s.commit_index
                && out.1.len() == 2 && out.1[0] is SaveSnapshot && out.1[1] is RewriteLog
        }),
{
    if s.log.len() > 0 {
        assert(s.log[s.log.len() - 1].index == s.last_snapshot_index + s.log.len());
    }
    if s.last_applied > s.last_snapshot_index {
        assert(transition::entries_after(s, s.last_applied) =~= s.log.skip(
            s.last_applied - s.last_snapshot_index,
        ));
    }
}

/// A replica takes a leader's snapshot over if and only if the leader's term is not over,
/// the snapshot goes further than its own and its state machine could take it: what the
/// snapshot covers then counts as committed and applied, and is made durable; the log
/// behind it stays. It answers with its term in any case.
pub proof fn lemma_snapshot_is_taken_over(
    s: RaftView,
    me: Me,
    req: SnapshotView,
    restored: bool,
)
    ensures
        ({
            let out = transition::on_install_snapshot(s, me, req, restored);
            let taken = req.term >= s.current_term && req.last_included_index
                > s.last_snapshot_index && restored;
            &&& taken ==> out.0.last_snapshot_index == req.last_included_index
                && out.0.last_snapshot_term == req.last_included_term && out.0.last_snapshot_data
                == req.data && out.0.commit_index >= req.last_included_index
                && out.0.last_applied >= req.last_included_index && out.0.commit_index
                >= s.commit_index && out.0.last_applied >= s.last_applied && out.1.len() > 1
                && out.1[0] is SaveSnapshot && out.1[1] is RewriteLog
            &&& taken && s.commit_index >= req.last_included_index ==> out.0.commit_index
                == s.commit_index
            &&& !taken ==> out.0.log == s.log && out.0.last_snapshot_index
                == s.last_snapshot_index && out.0.commit_index == s.commit_index
                && out.0.last_applied == s.last_applied
            &&& req.term < s.current_term ==> out.0 == s
            &&& req.term >= s.current_term ==> out.0.current_term == req.term && out.0.role
                != Role::Candidate && out.0.election_elapsed == 0
            &&& out.1.len() > 0
            &&& out.1.last() matches ActionView::ReplyInstallSnapshot(r) && r.term
                == out.0.current_term
        }),
{
    reveal(transition::on_install_snapshot);
}

/// A leader takes a member that has its snapshot to need what follows it.
pub proof fn lemma_snapshot_reply(
    s: RaftView,
    peer: NodeId,
    resp: crate::consensus::messages::InstallSnapshotResp,
)
    requires
        s.role == Role::Leader,
        resp.term <= s.current_term,
        s.last_snapshot_index < u64::MAX,
    ensures
        ({
            let t = transition::on_snapshot_reply(s, peer, s.current_term, resp).0;
            &&& t.match_index == s.match_index.insert(peer, s.last_snapshot_index)
            &&& t.next_index == s.next_index.insert(peer, (s.last_snapshot_index + 1) as u64)
            &&& t.log == s.log && t.role == Role::Leader
        }),
{
    reveal(transition::on_snapshot_reply);
}

} // verus!
