//! Why no two replicas can be elected in one term, also while the membership
//! changes.
use crate::consensus::config;
use crate::consensus::config::ConfigView;
use crate::consensus::messages::{NodeId, RequestVoteReq, RequestVoteResp};
use crate::consensus::node;
use crate::consensus::state::{RaftView, Role};
use crate::consensus::transition;
use crate::consensus::transition::{ActionView, EventView, Me};
use vstd::prelude::*;

verus! {

/// No event takes a replica back to an earlier term, or makes it vote twice in one.
pub proof fn lemma_vote_is_kept(s: RaftView, me: Me, e: EventView, timeout: u64, restored: bool)
    requires
        s.current_term < u64::MAX,
    ensures
        ({
            let t = transition::step(s, me, e, timeout, restored).0;
            &&& t.current_term >= s.current_term
            &&& t.current_term == s.current_term && s.voted_for is Some ==> t.voted_for
                == s.voted_for
        }),
{
    reveal(transition::on_tick);
    reveal(transition::on_request_vote);
    reveal(transition::on_vote_reply);
    reveal(transition::on_append_entries);
    reveal(transition::on_append_reply);
    reveal(transition::on_install_snapshot);
    reveal(transition::on_snapshot_reply);
    reveal(transition::on_propose);
    reveal(transition::on_config_change);
    reveal(transition::on_config_stable);
    if let EventView::AppendEntries { req } = e {
        let u = transition::follow(transition::adopt_term(s, req.term));
        node::lemma_take_entries_frame(u, req.entries);
    }
}

/// What a replica goes through: it starts in a state, and handles event after event,
/// each with the timeout that it drew and with whether a snapshot could be restored.
pub open spec fn is_life(
    me: Me,
    events: Seq<(EventView, u64, bool)>,
    states: Seq<RaftView>,
) -> bool {
    &&& states.len() == events.len() + 1
    &&& forall|k: int|
        0 <= k < events.len() ==> (#[trigger] states[k]).current_term < u64::MAX && states[k + 1]
            == transition::step(states[k], me, events[k].0, events[k].1, events[k].2).0
}

/// Event `k` asks for a vote in a term, for a candidate, and the replica grants it.
pub open spec fn grants(
    me: Me,
    events: Seq<(EventView, u64, bool)>,
    states: Seq<RaftView>,
    k: int,
    term: u64,
    candidate: NodeId,
) -> bool {
    let acts = transition::step(states[k], me, events[k].0, events[k].1, events[k].2).1;
    &&& 0 <= k < events.len()
    &&& events[k].0 matches EventView::RequestVote { req } && req.term == term
        && req.candidate_id == candidate
    &&& exists|a: int| 0 <= a < acts.len() && gives_vote(#[trigger] acts[a])
}

proof fn lemma_later_term(
    me: Me,
    events: Seq<(EventView, u64, bool)>,
    states: Seq<RaftView>,
    k: int,
    l: int,
)
    requires
        is_life(me, events, states),
        0 <= k <= l < states.len(),
    ensures
        states[l].current_term >= states[k].current_term,
        states[l].current_term == states[k].current_term && states[k].voted_for is Some
            ==> states[l].voted_for == states[k].voted_for,
    decreases l - k,
{
    if k < l {
        lemma_later_term(me, events, states, k, l - 1);
        let e = events[l - 1];
        lemma_vote_is_kept(states[l - 1], me, e.0, e.1, e.2);
        assert(states[l - 1 + 1] == states[l]);
    }
}

/// A replica grants its vote in a term to one candidate at most, whatever it is told
/// in between.
pub proof fn lemma_one_vote_a_term(
    me: Me,
    events: Seq<(EventView, u64, bool)>,
    states: Seq<RaftView>,
    k: int,
    l: int,
    term: u64,
    a: NodeId,
    b: NodeId,
)
    requires
        is_life(me, events, states),
        grants(me, events, states, k, term, a),
        grants(me, events, states, l, term, b),
    ensures
        a == b,
{
    lemma_vote_sent(states[k], events[k].0->RequestVote_req);
    lemma_vote_sent(states[l], events[l].0->RequestVote_req);
    if k <= l {
        lemma_later_term(me, events, states, k + 1, l + 1);
    } else {
        lemma_later_term(me, events, states, l + 1, k + 1);
    }
}

/// Where each replica votes for one candidate in a term, two candidates with enough
/// votes are the same: also where one counts by the membership before or after a
/// change and the other by the transition between them.
pub proof fn lemma_one_winner(
    c: ConfigView,
    d: ConfigView,
    votes: Map<NodeId, NodeId>,
    a: NodeId,
    b: NodeId,
)
    requires
        config::adjacent(c, d),
        c.quorum(Set::new(|n: NodeId| votes.contains_key(n) && votes[n] == a)),
        d.quorum(Set::new(|n: NodeId| votes.contains_key(n) && votes[n] == b)),
    ensures
        a == b,
{
    let _ = config::lemma_quorums_meet(
        c,
        d,
        Set::new(|n: NodeId| votes.contains_key(n) && votes[n] == a),
        Set::new(|n: NodeId| votes.contains_key(n) && votes[n] == b),
    );
}

// ----------------------------------------------------------------------
// Groups that change
// ----------------------------------------------------------------------
/// A vote that a replica gave.
#[verifier::ext_equal]
pub ghost struct Ballot {
    pub voter: NodeId,
    pub term: u64,
    pub candidate: NodeId,
}

/// Replicas that come and go, and every vote that one of them has sent to another.
#[verifier::ext_equal]
pub ghost struct Group {
    pub nodes: Map<NodeId, RaftView>,
    pub sent: Set<Ballot>,
}

/// The action gives a vote away.
pub open spec fn gives_vote(a: ActionView) -> bool {
    a matches ActionView::ReplyRequestVote(resp) && resp.vote_granted
}

/// The vote that replica `i` sends when it answers.
pub open spec fn vote_sent(i: NodeId, e: EventView, acts: Seq<ActionView>) -> Set<Ballot> {
    match e {
        EventView::RequestVote { req } => if exists|k: int|
            0 <= k < acts.len() && gives_vote(#[trigger] acts[k]) {
            Set::empty().insert(
                Ballot { voter: i, term: req.term, candidate: req.candidate_id },
            )
        } else {
            Set::empty()
        },
        _ => Set::empty(),
    }
}

/// A vote that replica `i` hears of was sent to it.
pub open spec fn can_be_told(g: Group, i: NodeId, e: EventView) -> bool {
    match e {
        EventView::RequestVoteResponse { peer, term, resp } => resp.vote_granted
            ==> g.sent.contains(Ballot { voter: peer, term, candidate: i }),
        _ => true,
    }
}

/// From one state of the group to the next: a replica is told of something, true or
/// not, and does what the protocol says.
pub open spec fn is_told(
    g: Group,
    i: NodeId,
    me: Me,
    e: EventView,
    timeout: u64,
    restored: bool,
    h: Group,
) -> bool {
    let out = transition::step(g.nodes[i], me, e, timeout, restored);
    &&& g.nodes.contains_key(i)
    &&& me.id == i
    &&& can_be_told(g, i, e)
    &&& transition::in_range(g.nodes[i], me, e, restored)
    &&& h.nodes == g.nodes.insert(i, out.0)
    &&& h.sent == g.sent.union(vote_sent(i, e, out.1))
}

/// From one state of the group to the next: a replica takes a snapshot.
pub open spec fn takes_snapshot(g: Group, i: NodeId, data: Seq<u8>, h: Group) -> bool {
    &&& g.nodes.contains_key(i)
    &&& h.nodes == g.nodes.insert(i, transition::snapshot_step(g.nodes[i], data).0)
    &&& h.sent == g.sent
}

/// From one state of the group to the next: a replica is started again, with the
/// term and the vote that it had.
pub open spec fn is_restarted(g: Group, i: NodeId, h: Group) -> bool {
    &&& g.nodes.contains_key(i)
    &&& h.nodes == g.nodes.insert(i, h.nodes[i])
    &&& h.nodes[i].current_term == g.nodes[i].current_term
    &&& h.nodes[i].voted_for == g.nodes[i].voted_for
    &&& h.nodes[i].role == Role::Follower
    &&& h.sent == g.sent
}

/// A replica that has done nothing yet.
pub open spec fn is_idle(s: RaftView) -> bool {
    s.voted_for is None && s.role == Role::Follower
}

/// From one state of the group to the next: a new replica comes in.
pub open spec fn comes_in(g: Group, i: NodeId, h: Group) -> bool {
    &&& !g.nodes.contains_key(i)
    &&& h.nodes == g.nodes.insert(i, h.nodes[i])
    &&& is_idle(h.nodes[i])
    &&& h.sent == g.sent
}

/// Some step leads from one state to the next.
pub open spec fn goes_on(g: Group, h: Group) -> bool {
    ||| exists|i: NodeId, me: Me, e: EventView, timeout: u64, restored: bool| #[trigger]
        is_told(g, i, me, e, timeout, restored, h)
    ||| exists|i: NodeId, data: Seq<u8>| #[trigger] takes_snapshot(g, i, data, h)
    ||| exists|i: NodeId| #[trigger] is_restarted(g, i, h)
    ||| exists|i: NodeId| #[trigger] comes_in(g, i, h)
}

/// What a group goes through: no replica has done anything yet, and then step
/// follows step. Members change as the replicas are told, snapshots are taken and
/// sent, and replicas go down and come back.
pub open spec fn is_course(run: Seq<Group>) -> bool {
    &&& run.len() > 0
    &&& run[0].sent == Set::<Ballot>::empty()
    &&& forall|n: NodeId| #[trigger] run[0].nodes.contains_key(n) ==> is_idle(run[0].nodes[n])
    &&& forall|k: int| 0 <= k && k + 1 < run.len() ==> #[trigger] goes_on(run[k], run[k + 1])
}

/// Replica `n` leads in a term.
pub open spec fn heads(g: Group, n: NodeId, term: u64) -> bool {
    g.nodes.contains_key(n) && g.nodes[n].role == Role::Leader && g.nodes[n].current_term == term
}

/// Replica `n` becomes the leader of a term with step `k`.
pub open spec fn elected_at(run: Seq<Group>, k: int, n: NodeId, term: u64) -> bool {
    0 <= k && k + 1 < run.len() && !heads(run[k], n, term) && heads(run[k + 1], n, term)
}

/// The membership by which the votes of an election are counted.
pub open spec fn counted_by(run: Seq<Group>, k: int, n: NodeId) -> ConfigView {
    run[k].nodes[n].config
}

/// Who voted for whom in which term.
type Votes = Map<(NodeId, u64), NodeId>;

/// Those that voted for `n` in a term.
spec fn voters(votes: Votes, term: u64, n: NodeId) -> Set<NodeId> {
    Set::new(|v: NodeId| votes.contains_key((v, term)) && votes[(v, term)] == n)
}

/// What was voted is what the replica knows of its term, and it has not voted in a
/// later one; a candidate has the votes that it counts, its own among them.
spec fn node_fits(votes: Votes, n: NodeId, s: RaftView) -> bool {
    &&& forall|t: u64| t > s.current_term ==> !#[trigger] votes.contains_key((n, t))
    &&& s.voted_for is None ==> !votes.contains_key((n, s.current_term))
    &&& s.voted_for matches Some(v) ==> votes.contains_key((n, s.current_term)) && votes[(
        n,
        s.current_term,
    )] == v
    &&& s.role == Role::Leader ==> s.voted_for == Some(n)
    &&& s.role == Role::Candidate ==> {
        &&& s.voted_for == Some(n)
        &&& s.votes_received.subset_of(voters(votes, s.current_term, n))
    }
}

spec fn group_fits(votes: Votes, g: Group) -> bool {
    &&& forall|n: NodeId| #[trigger] g.nodes.contains_key(n) ==> node_fits(votes, n, g.nodes[n])
    &&& forall|n: NodeId, t: u64| #[trigger] votes.contains_key((n, t)) ==> g.nodes.contains_key(n)
    &&& forall|b: Ballot| #[trigger]
        g.sent.contains(b) ==> votes.contains_key((b.voter, b.term)) && votes[(b.voter, b.term)]
            == b.candidate
}

/// Nothing that was voted is taken back.
spec fn more_votes(votes: Votes, more: Votes) -> bool {
    forall|n: NodeId, t: u64| #[trigger]
        votes.contains_key((n, t)) ==> more.contains_key((n, t)) && more[(n, t)] == votes[(n, t)]
}

/// The answer to a request of this replica gives it a vote.
spec fn is_vote_for(s: RaftView, e: EventView) -> bool {
    e matches EventView::RequestVoteResponse { peer, term, resp } && resp.vote_granted && term
        == s.current_term && s.role == Role::Candidate
}

/// How a replica becomes a candidate, goes on to be one, and becomes the leader.
spec fn stands_fairly(s: RaftView, id: NodeId, e: EventView, t: RaftView) -> bool {
    let told = is_vote_for(s, e);
    let heard = e->RequestVoteResponse_peer;
    let stands = t.current_term > s.current_term && t.voted_for == Some(id);
    let same = t.current_term == s.current_term && t.voted_for == s.voted_for;
    &&& t.current_term >= s.current_term
    &&& t.current_term == s.current_term && s.voted_for is Some ==> t.voted_for == s.voted_for
    &&& t.role == Role::Candidate ==> {
        ||| same && s.role == Role::Candidate && t.votes_received == s.votes_received
        ||| same && told && t.votes_received == s.votes_received.insert(heard)
        ||| stands && t.votes_received == Set::empty().insert(id)
    }
    &&& t.role == Role::Leader ==> {
        ||| same && s.role == Role::Leader
        ||| same && told && s.config.quorum(s.votes_received.insert(heard).insert(id))
        ||| stands && s.config.quorum(Set::empty().insert(id))
    }
}

proof fn lemma_tick_stands_fairly(s: RaftView, me: Me, timeout: u64)
    requires
        transition::in_range(s, me, EventView::Tick, false),
    ensures
        stands_fairly(s, me.id, EventView::Tick, transition::on_tick(s, me, timeout).0),
{
    reveal(transition::on_tick);
    let own = Set::empty().insert(me.id);
    assert(own.insert(me.id) =~= own);
}

proof fn lemma_reply_stands_fairly(
    s: RaftView,
    me: Me,
    peer: NodeId,
    term: u64,
    resp: RequestVoteResp,
)
    ensures
        stands_fairly(
            s,
            me.id,
            EventView::RequestVoteResponse { peer, term, resp },
            transition::on_vote_reply(s, me, peer, term, resp).0,
        ),
{
    reveal(transition::on_vote_reply);
}

/// What is neither time nor a vote makes nobody a candidate or a leader.
proof fn lemma_stays_in_role(s: RaftView, me: Me, e: EventView, timeout: u64, restored: bool)
    requires
        e !is Tick,
        e !is RequestVoteResponse,
    ensures
        ({
            let t = transition::step(s, me, e, timeout, restored).0;
            &&& t.current_term >= s.current_term
            &&& t.current_term == s.current_term && s.voted_for is Some ==> t.voted_for
                == s.voted_for
            &&& t.role == s.role || t.role == Role::Follower
            &&& t.role != Role::Follower ==> t.current_term == s.current_term
            &&& t.votes_received == s.votes_received
        }),
{
    reveal(transition::on_request_vote);
    reveal(transition::on_append_entries);
    reveal(transition::on_append_reply);
    reveal(transition::on_install_snapshot);
    reveal(transition::on_snapshot_reply);
    reveal(transition::on_propose);
    reveal(transition::on_config_change);
    reveal(transition::on_config_stable);
    if let EventView::AppendEntries { req } = e {
        let u = transition::follow(transition::adopt_term(s, req.term));
        node::lemma_take_entries_frame(u, req.entries);
    }
}

proof fn lemma_standing(s: RaftView, me: Me, e: EventView, timeout: u64, restored: bool)
    requires
        transition::in_range(s, me, e, restored),
        s.role == Role::Candidate ==> s.voted_for is Some,
        s.role == Role::Leader ==> s.voted_for is Some,
    ensures
        stands_fairly(s, me.id, e, transition::step(s, me, e, timeout, restored).0),
{
    match e {
        EventView::Tick => lemma_tick_stands_fairly(s, me, timeout),
        EventView::RequestVoteResponse { peer, term, resp } => lemma_reply_stands_fairly(
            s,
            me,
            peer,
            term,
            resp,
        ),
        _ => lemma_stays_in_role(s, me, e, timeout, restored),
    }
}

/// A vote that is sent is the one that the replica has given.
proof fn lemma_vote_sent(s: RaftView, req: RequestVoteReq)
    ensures
        ({
            let out = transition::on_request_vote(s, req);
            forall|k: int|
                0 <= k < out.1.len() && gives_vote(#[trigger] out.1[k]) ==> out.0.current_term
                    == req.term && out.0.voted_for == Some(req.candidate_id)
        }),
{
    reveal(transition::on_request_vote);
}

/// The votes with the one that a replica has given in its term.
spec fn with_vote_of(votes: Votes, i: NodeId, t: RaftView) -> Votes {
    match t.voted_for {
        Some(v) => votes.insert((i, t.current_term), v),
        None => votes,
    }
}

/// What a replica is told leaves the group in order.
proof fn lemma_told(
    g: Group,
    i: NodeId,
    me: Me,
    e: EventView,
    timeout: u64,
    restored: bool,
    h: Group,
    votes: Votes,
) -> (more: Votes)
    requires
        is_told(g, i, me, e, timeout, restored, h),
        group_fits(votes, g),
    ensures
        group_fits(more, h),
        more_votes(votes, more),
        forall|n: NodeId, t: u64|
            #![trigger heads(h, n, t)]
            heads(h, n, t) && !heads(g, n, t) ==> g.nodes.contains_key(n)
                && g.nodes[n].config.quorum(voters(more, t, n)),
{
    let s = g.nodes[i];
    let out = transition::step(s, me, e, timeout, restored);
    let t = out.0;
    lemma_standing(s, me, e, timeout, restored);
    assert(node_fits(votes, i, s));
    let more = with_vote_of(votes, i, t);
    assert(more_votes(votes, more));
    assert forall|n: NodeId, x: u64| voters(votes, x, n).subset_of(#[trigger] voters(more, x, n)) by {
    }
    if let EventView::RequestVoteResponse { peer, term, resp } = e {
        if resp.vote_granted {
            assert(g.sent.contains(Ballot { voter: peer, term, candidate: i }));
        }
    }
    assert(node_fits(more, i, t));
    assert forall|n: NodeId| #[trigger] h.nodes.contains_key(n) implies node_fits(
        more,
        n,
        h.nodes[n],
    ) by {
        if n != i {
            assert(node_fits(votes, n, g.nodes[n]));
            assert(voters(votes, g.nodes[n].current_term, n).subset_of(
                voters(more, g.nodes[n].current_term, n),
            ));
        }
    }
    assert forall|b: Ballot| #[trigger] h.sent.contains(b) implies more.contains_key(
        (b.voter, b.term),
    ) && more[(b.voter, b.term)] == b.candidate by {
        if !g.sent.contains(b) {
            assert(vote_sent(i, e, out.1).contains(b));
            lemma_vote_sent(s, e->RequestVote_req);
        }
    }
    assert forall|n: NodeId, x: u64|
        #![trigger heads(h, n, x)]
        heads(h, n, x) && !heads(g, n, x) implies g.nodes.contains_key(n)
        && g.nodes[n].config.quorum(voters(more, x, n)) by {
        assert(n == i);
        if t.current_term > s.current_term {
            config::lemma_quorum_grows(
                s.config,
                Set::empty().insert(me.id),
                voters(more, x, n),
            );
        } else {
            let heard = e->RequestVoteResponse_peer;
            let counted = s.votes_received.insert(heard).insert(me.id);
            assert(counted.subset_of(voters(more, x, n)));
            config::lemma_quorum_grows(s.config, counted, voters(more, x, n));
        }
    }
    more
}

/// Any step leaves the group in order.
proof fn lemma_goes_on(g: Group, h: Group, votes: Votes) -> (more: Votes)
    requires
        goes_on(g, h),
        group_fits(votes, g),
    ensures
        group_fits(more, h),
        more_votes(votes, more),
        forall|n: NodeId, t: u64|
            #![trigger heads(h, n, t)]
            heads(h, n, t) && !heads(g, n, t) ==> g.nodes.contains_key(n)
                && g.nodes[n].config.quorum(voters(more, t, n)),
{
    if exists|i: NodeId, me: Me, e: EventView, timeout: u64, restored: bool| #[trigger]
        is_told(g, i, me, e, timeout, restored, h) {
        let (i, me, e, timeout, restored): (NodeId, Me, EventView, u64, bool) = choose|
            i: NodeId,
            me: Me,
            e: EventView,
            timeout: u64,
            restored: bool,
        | #[trigger] is_told(g, i, me, e, timeout, restored, h);
        lemma_told(g, i, me, e, timeout, restored, h, votes)
    } else {
        assert forall|n: NodeId| #[trigger] h.nodes.contains_key(n) implies node_fits(
            votes,
            n,
            h.nodes[n],
        ) by {
            if g.nodes.contains_key(n) {
                assert(node_fits(votes, n, g.nodes[n]));
            }
        }
        votes
    }
}

/// Up to any point of what a group goes through, whoever was elected had enough
/// votes, and nobody has voted twice.
proof fn lemma_course(run: Seq<Group>, k: int) -> (votes: Votes)
    requires
        is_course(run),
        0 <= k < run.len(),
    ensures
        group_fits(votes, run[k]),
        forall|l: int, n: NodeId, t: u64|
            l < k && #[trigger] elected_at(run, l, n, t) ==> counted_by(run, l, n).quorum(
                voters(votes, t, n),
            ),
    decreases k,
{
    if k == 0 {
        let none: Votes = Map::empty();
        assert(group_fits(none, run[0]));
        none
    } else {
        let votes = lemma_course(run, k - 1);
        assert(goes_on(run[k - 1], run[k - 1 + 1]));
        let more = lemma_goes_on(run[k - 1], run[k], votes);
        assert forall|l: int, n: NodeId, t: u64|
            l < k && #[trigger] elected_at(run, l, n, t) implies counted_by(run, l, n).quorum(
            voters(more, t, n),
        ) by {
            if l < k - 1 {
                assert(voters(votes, t, n).subset_of(voters(more, t, n)));
                config::lemma_quorum_grows(
                    counted_by(run, l, n),
                    voters(votes, t, n),
                    voters(more, t, n),
                );
            } else {
                assert(heads(run[k], n, t));
            }
        }
        more
    }
}

/// Of two elections in one term that are counted by the same membership, or by one
/// and the transition from or to it, the winner is the same: however the members
/// change, whatever snapshots are taken, and whenever replicas go down and come back.
pub proof fn lemma_one_election(run: Seq<Group>, k: int, l: int, i: NodeId, j: NodeId, term: u64)
    requires
        is_course(run),
        elected_at(run, k, i, term),
        elected_at(run, l, j, term),
        config::adjacent(counted_by(run, k, i), counted_by(run, l, j)),
    ensures
        i == j,
{
    let votes = lemma_course(run, run.len() - 1);
    let _ = config::lemma_quorums_meet(
        counted_by(run, k, i),
        counted_by(run, l, j),
        voters(votes, term, i),
        voters(votes, term, j),
    );
}

/// Whoever leads was elected.
pub proof fn lemma_leaders_were_elected(run: Seq<Group>, k: int, n: NodeId, term: u64) -> (j: int)
    requires
        is_course(run),
        0 <= k < run.len(),
        heads(run[k], n, term),
    ensures
        j < k,
        elected_at(run, j, n, term),
    decreases k,
{
    if k == 0 {
        assert(is_idle(run[0].nodes[n]));
        0
    } else if heads(run[k - 1], n, term) {
        lemma_leaders_were_elected(run, k - 1, n, term)
    } else {
        assert(run[k - 1 + 1] == run[k]);
        k - 1
    }
}

/// A replica that is elected was there before.
pub(crate) proof fn lemma_elected_was_there(run: Seq<Group>, k: int, n: NodeId, term: u64)
    requires
        is_course(run),
        elected_at(run, k, n, term),
    ensures
        run[k].nodes.contains_key(n),
{
    assert(goes_on(run[k], run[k + 1]));
}

/// No two replicas ever lead in the same term, at whatever times, while members
/// change one transition at a time: where the elections of the term are counted by
/// memberships of which one is the other, or a transition from or to it.
pub proof fn lemma_one_leader_while_members_change(
    run: Seq<Group>,
    a: int,
    b: int,
    i: NodeId,
    j: NodeId,
    term: u64,
)
    requires
        is_course(run),
        0 <= a < run.len(),
        0 <= b < run.len(),
        heads(run[a], i, term),
        heads(run[b], j, term),
        forall|k: int, l: int, n: NodeId, m: NodeId|
            #![trigger elected_at(run, k, n, term), elected_at(run, l, m, term)]
            elected_at(run, k, n, term) && elected_at(run, l, m, term) ==> config::adjacent(
                counted_by(run, k, n),
                counted_by(run, l, m),
            ),
    ensures
        i == j,
{
    let k = lemma_leaders_were_elected(run, a, i, term);
    let l = lemma_leaders_were_elected(run, b, j, term);
    lemma_one_election(run, k, l, i, j, term);
}

} // verus!
