//! Why replicas never disagree: what holds of a group in every state that it can
//! reach.
use crate::consensus::cluster;
use crate::consensus::cluster::{Cause, Cluster, Mail};
use crate::consensus::config;
use crate::consensus::config::ConfigView;
use crate::consensus::messages::{AppendView, EntryView, NodeId, PayloadView, RequestVoteReq};
use crate::consensus::node;
use crate::consensus::persist;
use crate::consensus::state;
use crate::consensus::state::{RaftView, Role};
use crate::consensus::transition;
use crate::consensus::transition::{ActionView, Me};
use crate::consensus::wire;
use vstd::prelude::*;

verus! {

// ----------------------------------------------------------------------
// Logs
// ----------------------------------------------------------------------
/// The entry does not change the membership.
pub open spec fn plain(e: EntryView) -> bool {
    match wire::dec_payload(e.data) {
        Some(PayloadView::ConfigJoint { .. }) => false,
        Some(PayloadView::ConfigStable(_)) => false,
        _ => true,
    }
}

/// A log as replicas have them: indexes count up from one, terms do not go back
/// and are none above `max`.
pub open spec fn log_wf(log: Seq<EntryView>, max: u64) -> bool {
    &&& log.len() <= u64::MAX
    &&& forall|k: int|
        0 <= k < log.len() ==> (#[trigger] log[k]).index == k + 1 && 1 <= log[k].term <= max
            && plain(log[k])
    &&& forall|a: int, b: int|
        0 <= a < b < log.len() ==> (#[trigger] log[a]).term <= (#[trigger] log[b]).term
}

/// Two logs hold the same first `k` entries.
pub open spec fn agree(a: Seq<EntryView>, b: Seq<EntryView>, k: int) -> bool {
    &&& 0 <= k <= a.len()
    &&& k <= b.len()
    &&& a.take(k) == b.take(k)
}

/// The term of the last entry.
pub open spec fn last_term(log: Seq<EntryView>) -> u64 {
    if log.len() == 0 {
        0
    } else {
        log.last().term
    }
}

/// The first log is at least as recent and long as the second.
pub open spec fn newer(a: Seq<EntryView>, b: Seq<EntryView>) -> bool {
    last_term(a) > last_term(b) || (last_term(a) == last_term(b) && a.len() >= b.len())
}

pub(crate) proof fn lemma_agree_less(a: Seq<EntryView>, b: Seq<EntryView>, k: int, j: int)
    requires
        agree(a, b, k),
        0 <= j <= k,
    ensures
        agree(a, b, j),
{
    assert(a.take(j) =~= a.take(k).take(j));
    assert(b.take(j) =~= b.take(k).take(j));
}

pub(crate) proof fn lemma_agree_at(a: Seq<EntryView>, b: Seq<EntryView>, k: int, p: int)
    requires
        agree(a, b, k),
        0 <= p < k,
    ensures
        a[p] == b[p],
{
    assert(a.take(k)[p] == b.take(k)[p]);
}

proof fn lemma_agree_trans(a: Seq<EntryView>, b: Seq<EntryView>, c: Seq<EntryView>, k: int)
    requires
        agree(a, b, k),
        agree(b, c, k),
    ensures
        agree(a, c, k),
        agree(c, a, k),
{
}

proof fn lemma_take_agrees(a: Seq<EntryView>, m: int, k: int)
    requires
        0 <= k <= m <= a.len(),
    ensures
        agree(a.take(m), a, k),
{
    assert(a.take(m).take(k) =~= a.take(k));
}

proof fn lemma_take_wf(log: Seq<EntryView>, max: u64, m: int)
    requires
        log_wf(log, max),
        0 <= m <= log.len(),
    ensures
        log_wf(log.take(m), max),
{
    let t = log.take(m);
    assert forall|k: int| 0 <= k < t.len() implies (#[trigger] t[k]).index == k + 1 && 1 <= t[k].term
        <= max && plain(t[k]) by {
        assert(t[k] == log[k]);
    }
    assert forall|a: int, b: int| 0 <= a < b < t.len() implies (#[trigger] t[a]).term <= (
    #[trigger] t[b]).term by {
        assert(t[a] == log[a] && t[b] == log[b]);
    }
}

/// A membership that no entry changes.
pub(crate) proof fn lemma_plain_config(base: ConfigView, log: Seq<EntryView>)
    requires
        forall|k: int| 0 <= k < log.len() ==> plain(#[trigger] log[k]),
    ensures
        state::latest_config(base, log) == base,
    decreases log.len(),
{
    if log.len() > 0 {
        assert(plain(log[log.len() - 1]));
        assert forall|k: int| 0 <= k < log.drop_last().len() implies plain(
            #[trigger] log.drop_last()[k],
        ) by {
            assert(log.drop_last()[k] == log[k]);
        }
        lemma_plain_config(base, log.drop_last());
    }
}

/// What a replica says of its log, where it has no snapshot.
proof fn lemma_log_facts(s: RaftView, max: u64)
    requires
        s.last_snapshot_index == 0,
        log_wf(s.log, max),
    ensures
        s.last_log_index() == s.log.len(),
        s.last_log_term() == last_term(s.log),
        forall|k: int| 1 <= k <= s.log.len() ==> #[trigger] s.term_at(k) == s.log[k - 1].term,
        forall|k: int| k > s.log.len() ==> #[trigger] s.term_at(k) == 0,
        s.term_at(0) == 0,
{
    if s.log.len() > 0 {
        assert(s.log[s.log.len() - 1].index == s.log.len());
        assert(s.term_at(s.log.len() as int) == s.log[s.log.len() - 1].term);
    }
}

// ----------------------------------------------------------------------
// What has happened
// ----------------------------------------------------------------------
/// What a group has gone through so far: who voted for whom in which term, with
/// what log; with what log who stood for election; who was elected, and what the
/// log of that leader has grown to; who has confirmed how much of it; and what was
/// committed.
pub ghost struct History {
    pub votes: Map<(NodeId, u64), NodeId>,
    pub vote_log: Map<(NodeId, u64), Seq<EntryView>>,
    pub stand_log: Map<(NodeId, u64), Seq<EntryView>>,
    pub leaders: Map<u64, NodeId>,
    pub lead_log: Map<u64, Seq<EntryView>>,
    pub confirmed: Map<(NodeId, u64), nat>,
    pub commits: Set<(u64, nat)>,
}

/// Every entry of the log was made by the leader of its term, and everything in
/// front of it is as that leader had it.
pub open spec fn rooted(h: History, log: Seq<EntryView>) -> bool {
    forall|p: int| 0 <= p < log.len() ==> is_rooted(h, log, p, (#[trigger] log[p]).term)
}

pub open spec fn is_rooted(h: History, log: Seq<EntryView>, p: int, t: u64) -> bool {
    h.lead_log.contains_key(t) && agree(log, h.lead_log[t], p + 1)
}

/// How far a replica has confirmed the log of the leader of a term.
pub open spec fn confirmed_to(h: History, n: NodeId, t: u64) -> nat {
    if h.confirmed.contains_key((n, t)) {
        h.confirmed[(n, t)]
    } else {
        0
    }
}

/// The replica has had the first `k` entries of the leader of the term: it has
/// confirmed them, or was that leader.
pub open spec fn had(h: History, n: NodeId, t: u64, k: nat) -> bool {
    ||| h.leaders.contains_key(t) && h.leaders[t] == n && k <= h.lead_log[t].len()
    ||| k <= confirmed_to(h, n, t)
}

/// The leader of the term made the `k`th entry of its log itself.
pub open spec fn own(h: History, t: u64, k: nat) -> bool {
    h.lead_log.contains_key(t) && 1 <= k <= h.lead_log[t].len() && h.lead_log[t][k - 1].term == t
}

/// The replica has had the entries, or may still come to.
pub open spec fn may_have(nodes: Map<NodeId, RaftView>, h: History, n: NodeId, t: u64, k: nat) -> bool {
    had(h, n, t, k) || nodes[n].current_term <= t
}

/// All of these replicas have had the entries, or may still come to.
pub open spec fn all_may_have(
    nodes: Map<NodeId, RaftView>,
    h: History,
    q: Set<NodeId>,
    t: u64,
    k: nat,
) -> bool {
    forall|n: NodeId| #[trigger] q.contains(n) ==> may_have(nodes, h, n, t, k)
}

/// The first `k` entries of the leader of the term were or may still be committed.
pub open spec fn open_to(
    cfg: ConfigView,
    nodes: Map<NodeId, RaftView>,
    h: History,
    t: u64,
    k: nat,
) -> bool {
    exists|q: Set<NodeId>| #[trigger] all_may_have(nodes, h, q, t, k) && cfg.quorum(q)
}

/// All of these replicas voted for the candidate.
pub open spec fn all_voted(h: History, q: Set<NodeId>, t: u64, i: NodeId) -> bool {
    forall|n: NodeId| #[trigger]
        q.contains(n) ==> h.votes.contains_key((n, t)) && h.votes[(n, t)] == i
}

/// Enough replicas voted for the candidate.
pub open spec fn elected(cfg: ConfigView, h: History, t: u64, i: NodeId) -> bool {
    exists|q: Set<NodeId>| #[trigger] all_voted(h, q, t, i) && cfg.quorum(q)
}

/// All of these replicas have had the entries.
pub open spec fn all_had(h: History, q: Set<NodeId>, t: u64, k: nat) -> bool {
    forall|n: NodeId| #[trigger] q.contains(n) ==> had(h, n, t, k)
}

/// Enough replicas have had the entries.
pub open spec fn chosen(cfg: ConfigView, h: History, t: u64, k: nat) -> bool {
    exists|q: Set<NodeId>| #[trigger] all_had(h, q, t, k) && cfg.quorum(q)
}

/// The first `c` entries of the log were committed in a term that is none above
/// `max`.
pub open spec fn committed(h: History, log: Seq<EntryView>, c: int, max: u64) -> bool {
    exists|t: u64, k: nat| #[trigger]
        h.commits.contains((t, k)) && c <= k && t <= max && agree(log, h.lead_log[t], c)
}

// ----------------------------------------------------------------------
// What always holds
// ----------------------------------------------------------------------
/// A replica's state agrees with what has happened.
pub open spec fn node_ok(cfg: ConfigView, h: History, n: NodeId, s: RaftView) -> bool {
    &&& base_ok(cfg, h, n, s)
    &&& s.role == Role::Candidate ==> stands_ok(h, n, s)
    &&& s.role == Role::Leader ==> leads_ok(cfg, h, n, s)
    &&& s.commit_index > 0 ==> committed(h, s.log, s.commit_index as int, s.current_term)
    &&& s.last_applied <= s.commit_index
}

pub open spec fn base_ok(cfg: ConfigView, h: History, n: NodeId, s: RaftView) -> bool {
    &&& s.last_snapshot_index == 0
    &&& s.config == cfg
    &&& s.snapshot_config == cfg
    &&& log_wf(s.log, s.current_term)
    &&& rooted(h, s.log)
    &&& match s.voted_for {
        Some(c) => h.votes.contains_key((n, s.current_term)) && h.votes[(n, s.current_term)] == c,
        None => !h.votes.contains_key((n, s.current_term)),
    }
    &&& forall|t: u64| t > s.current_term ==> !#[trigger] h.votes.contains_key((n, t))
    &&& forall|t: u64| t > s.current_term ==> !#[trigger] h.stand_log.contains_key((n, t))
    &&& forall|t: u64| #[trigger]
        h.leaders.contains_key(t) && h.leaders[t] == n ==> t < s.current_term || (t
            == s.current_term && s.role != Role::Candidate)
    &&& forall|t: u64| #[trigger] confirmed_to(h, n, t) > 0 ==> t <= s.current_term
}

pub open spec fn stands_ok(h: History, n: NodeId, s: RaftView) -> bool {
    &&& s.voted_for == Some(n)
    &&& h.stand_log.contains_key((n, s.current_term))
    &&& h.stand_log[(n, s.current_term)] == s.log
    &&& all_voted(h, s.votes_received, s.current_term, n)
}

pub open spec fn leads_ok(cfg: ConfigView, h: History, n: NodeId, s: RaftView) -> bool {
    &&& s.voted_for == Some(n)
    &&& h.leaders.contains_key(s.current_term)
    &&& h.leaders[s.current_term] == n
    &&& h.lead_log[s.current_term] == s.log
    &&& forall|p: NodeId|
        cfg.has(p) && p != n ==> 1 <= #[trigger] transition::next_for(s, p) <= s.log.len() + 1
    &&& forall|p: NodeId|
        cfg.has(p) && p != n ==> #[trigger] transition::match_for(s, p) <= confirmed_to(
            h,
            p,
            s.current_term,
        )
}

/// A message agrees with what has happened.
pub open spec fn mail_ok(cfg: ConfigView, h: History, m: Mail) -> bool {
    match m {
        Mail::VoteReq { to, req } => stands_in(h, req),
        Mail::VoteRep { to, peer, term, resp } => resp.vote_granted ==> resp.term == term
            && h.votes.contains_key((peer, term)) && h.votes[(peer, term)] == to,
        Mail::AppendReq { to, req } => cfg.has(to) && to != req.leader_id && append_ok(h, req),
        Mail::AppendRep { to, peer, term, resp, prev, count } => {
            &&& cfg.has(peer)
            &&& h.leaders.contains_key(term)
            &&& h.leaders[term] == to
            &&& to != peer
            &&& resp.success ==> prev + count <= confirmed_to(h, peer, term)
        },
    }
}

/// A request for a vote says how long and recent the candidate's log is.
pub open spec fn stands_in(h: History, req: RequestVoteReq) -> bool {
    &&& h.stand_log.contains_key((req.candidate_id, req.term))
    &&& req.last_log_index == h.stand_log[(req.candidate_id, req.term)].len()
    &&& req.last_log_term == last_term(h.stand_log[(req.candidate_id, req.term)])
}

/// Entries that are sent are entries of their leader's log.
pub open spec fn append_ok(h: History, req: AppendView) -> bool {
    let log = h.lead_log[req.term];
    let prev = req.prev_log_index as int;
    let end = prev + req.entries.len();
    &&& h.leaders.contains_key(req.term)
    &&& h.leaders[req.term] == req.leader_id
    &&& end <= log.len()
    &&& req.entries == log.subrange(prev, end)
    &&& req.prev_log_term == (if prev == 0 {
        0
    } else {
        log[prev - 1].term
    })
    &&& req.leader_commit <= end
    &&& req.leader_commit > 0 ==> committed(h, log, req.leader_commit as int, req.term)
}

/// What has happened is consistent.
pub open spec fn history_ok(cfg: ConfigView, nodes: Map<NodeId, RaftView>, h: History) -> bool {
    &&& forall|t: u64| #[trigger] h.lead_log.contains_key(t) <==> h.leaders.contains_key(t)
    &&& forall|t: u64| #[trigger] h.leaders.contains_key(t) ==> leader_ok(cfg, nodes, h, t)
    &&& forall|n: NodeId, t: u64| #[trigger] h.votes.contains_key((n, t)) ==> vote_ok(nodes, h, n, t)
    &&& forall|n: NodeId, t: u64| #[trigger]
        h.stand_log.contains_key((n, t)) ==> t >= 1 && log_wf(h.stand_log[(n, t)], (t - 1) as u64)
            && rooted(h, h.stand_log[(n, t)])
    &&& forall|n: NodeId, t: u64| #[trigger]
        confirmed_to(h, n, t) > 0 ==> h.leaders.contains_key(t) && confirmed_to(h, n, t)
            <= h.lead_log[t].len() && nodes.contains_key(n)
    &&& forall|t: u64, k: nat| #[trigger]
        h.commits.contains((t, k)) ==> own(h, t, k) && chosen(cfg, h, t, k)
}

pub open spec fn leader_ok(cfg: ConfigView, nodes: Map<NodeId, RaftView>, h: History, t: u64) -> bool {
    &&& h.lead_log.contains_key(t)
    &&& log_wf(h.lead_log[t], t)
    &&& rooted(h, h.lead_log[t])
    &&& elected(cfg, h, t, h.leaders[t])
    &&& nodes.contains_key(h.leaders[t])
}

pub open spec fn vote_ok(nodes: Map<NodeId, RaftView>, h: History, n: NodeId, t: u64) -> bool {
    let i = h.votes[(n, t)];
    &&& nodes.contains_key(n)
    &&& h.vote_log.contains_key((n, t))
    &&& h.stand_log.contains_key((i, t))
    &&& newer(h.stand_log[(i, t)], h.vote_log[(n, t)])
    &&& t >= 1
    &&& log_wf(h.vote_log[(n, t)], t)
    &&& rooted(h, h.vote_log[(n, t)])
}

/// Leaders of later terms have what may be committed.
pub open spec fn kept_by_leaders(cfg: ConfigView, nodes: Map<NodeId, RaftView>, h: History) -> bool {
    forall|t: u64, k: nat, u: u64|
        #![trigger own(h, t, k), h.leaders.contains_key(u)]
        own(h, t, k) && h.leaders.contains_key(u) && t < u && open_to(cfg, nodes, h, t, k)
            ==> agree(h.lead_log[u], h.lead_log[t], k as int)
}

/// Replicas that have had what may be committed still have it.
pub open spec fn kept_by_nodes(cfg: ConfigView, nodes: Map<NodeId, RaftView>, h: History) -> bool {
    forall|t: u64, k: nat, n: NodeId|
        #![trigger own(h, t, k), had(h, n, t, k)]
        own(h, t, k) && had(h, n, t, k) && nodes.contains_key(n) && open_to(cfg, nodes, h, t, k)
            ==> agree(nodes[n].log, h.lead_log[t], k as int)
}

/// And they had it when they voted in later terms.
pub open spec fn kept_by_voters(cfg: ConfigView, nodes: Map<NodeId, RaftView>, h: History) -> bool {
    forall|t: u64, k: nat, n: NodeId, u: u64|
        #![trigger own(h, t, k), had(h, n, t, k), h.votes.contains_key((n, u))]
        own(h, t, k) && had(h, n, t, k) && h.votes.contains_key((n, u)) && t < u && open_to(
            cfg,
            nodes,
            h,
            t,
            k,
        ) ==> agree(h.vote_log[(n, u)], h.lead_log[t], k as int)
}

/// What holds of a group in every state that it can reach, given what has happened.
pub open spec fn inv(cfg: ConfigView, c: Cluster, h: History) -> bool {
    &&& forall|n: NodeId| cfg.has(n) ==> #[trigger] c.nodes.contains_key(n)
    &&& forall|n: NodeId| #[trigger] c.nodes.contains_key(n) ==> node_ok(cfg, h, n, c.nodes[n])
    &&& forall|m: Mail| #[trigger] c.mail.contains(m) ==> mail_ok(cfg, h, m)
    &&& history_ok(cfg, c.nodes, h)
    &&& kept_by_leaders(cfg, c.nodes, h)
    &&& kept_by_nodes(cfg, c.nodes, h)
    &&& kept_by_voters(cfg, c.nodes, h)
}

/// More has happened, and nothing else than had happened before.
pub open spec fn extends(h: History, g: History) -> bool {
    &&& forall|n: NodeId, t: u64| #[trigger]
        h.votes.contains_key((n, t)) ==> g.votes.contains_key((n, t)) && g.votes[(n, t)]
            == h.votes[(n, t)] && g.vote_log.contains_key((n, t)) == h.vote_log.contains_key(
            (n, t),
        ) && g.vote_log[(n, t)] == h.vote_log[(n, t)]
    &&& forall|n: NodeId, t: u64| #[trigger]
        h.stand_log.contains_key((n, t)) ==> g.stand_log.contains_key((n, t)) && g.stand_log[(
            n,
            t,
        )] == h.stand_log[(n, t)]
    &&& forall|t: u64| #[trigger]
        h.leaders.contains_key(t) ==> g.leaders.contains_key(t) && g.leaders[t] == h.leaders[t]
    &&& forall|t: u64| #[trigger]
        h.lead_log.contains_key(t) ==> g.lead_log.contains_key(t) && agree(
            g.lead_log[t],
            h.lead_log[t],
            h.lead_log[t].len() as int,
        )
    &&& forall|n: NodeId, t: u64| #[trigger] confirmed_to(h, n, t) <= confirmed_to(g, n, t)
    &&& forall|t: u64, k: nat| #[trigger]
        h.commits.contains((t, k)) ==> g.commits.contains((t, k))
}

// ----------------------------------------------------------------------
// What stays true as more happens
// ----------------------------------------------------------------------
proof fn lemma_lead_agrees(h: History, g: History, log: Seq<EntryView>, t: u64, k: int)
    requires
        extends(h, g),
        h.lead_log.contains_key(t),
        agree(log, h.lead_log[t], k),
    ensures
        g.lead_log.contains_key(t),
        agree(log, g.lead_log[t], k),
{
    lemma_agree_less(g.lead_log[t], h.lead_log[t], h.lead_log[t].len() as int, k);
}

proof fn lemma_rooted_grows(h: History, g: History, log: Seq<EntryView>)
    requires
        extends(h, g),
        rooted(h, log),
    ensures
        rooted(g, log),
{
    assert forall|p: int| 0 <= p < log.len() implies is_rooted(g, log, p, (#[trigger] log[p]).term) by {
        assert(is_rooted(h, log, p, log[p].term));
        lemma_lead_agrees(h, g, log, log[p].term, p + 1);
    }
}

proof fn lemma_had_grows(h: History, g: History, n: NodeId, t: u64, k: nat)
    requires
        extends(h, g),
        forall|t: u64| #[trigger] h.lead_log.contains_key(t) <==> h.leaders.contains_key(t),
        had(h, n, t, k),
    ensures
        had(g, n, t, k),
{
    if h.leaders.contains_key(t) && h.leaders[t] == n && k <= h.lead_log[t].len() {
        assert(h.lead_log.contains_key(t));
    } else {
        assert(confirmed_to(h, n, t) <= confirmed_to(g, n, t));
    }
}

proof fn lemma_own_grows(h: History, g: History, t: u64, k: nat)
    requires
        extends(h, g),
        own(h, t, k),
    ensures
        own(g, t, k),
        agree(g.lead_log[t], h.lead_log[t], k as int),
{
    lemma_agree_less(g.lead_log[t], h.lead_log[t], h.lead_log[t].len() as int, k as int);
    lemma_agree_at(g.lead_log[t], h.lead_log[t], k as int, k - 1);
}

pub(crate) proof fn lemma_committed_grows(h: History, g: History, log: Seq<EntryView>, c: int, max: u64, top: u64)
    requires
        extends(h, g),
        forall|t: u64, k: nat| #[trigger] h.commits.contains((t, k)) ==> own(h, t, k),
        committed(h, log, c, max),
        max <= top,
    ensures
        committed(g, log, c, top),
{
    let (t, k) = choose|t: u64, k: nat| #[trigger]
        h.commits.contains((t, k)) && c <= k && t <= max && agree(log, h.lead_log[t], c);
    assert(own(h, t, k));
    lemma_lead_agrees(h, g, log, t, c);
    assert(g.commits.contains((t, k)));
}

proof fn lemma_all_voted_grows(h: History, g: History, q: Set<NodeId>, t: u64, i: NodeId)
    requires
        extends(h, g),
        all_voted(h, q, t, i),
    ensures
        all_voted(g, q, t, i),
{
    assert forall|n: NodeId| #[trigger] q.contains(n) implies g.votes.contains_key((n, t))
        && g.votes[(n, t)] == i by {
        assert(h.votes.contains_key((n, t)));
    }
}

proof fn lemma_elected_grows(cfg: ConfigView, h: History, g: History, t: u64, i: NodeId)
    requires
        extends(h, g),
        elected(cfg, h, t, i),
    ensures
        elected(cfg, g, t, i),
{
    let q = choose|q: Set<NodeId>| #[trigger] all_voted(h, q, t, i) && cfg.quorum(q);
    lemma_all_voted_grows(h, g, q, t, i);
}

proof fn lemma_chosen_grows(cfg: ConfigView, h: History, g: History, t: u64, k: nat)
    requires
        extends(h, g),
        forall|t: u64| #[trigger] h.lead_log.contains_key(t) <==> h.leaders.contains_key(t),
        chosen(cfg, h, t, k),
    ensures
        chosen(cfg, g, t, k),
{
    let q = choose|q: Set<NodeId>| #[trigger] all_had(h, q, t, k) && cfg.quorum(q);
    assert forall|n: NodeId| #[trigger] q.contains(n) implies had(g, n, t, k) by {
        lemma_had_grows(h, g, n, t, k);
    }
    assert(all_had(g, q, t, k));
}

proof fn lemma_mail_grows(cfg: ConfigView, nodes: Map<NodeId, RaftView>, h: History, g: History, m: Mail)
    requires
        extends(h, g),
        history_ok(cfg, nodes, h),
        mail_ok(cfg, h, m),
    ensures
        mail_ok(cfg, g, m),
{
    match m {
        Mail::VoteReq { to, req } => {
            assert(h.stand_log.contains_key((req.candidate_id, req.term)));
        },
        Mail::VoteRep { to, peer, term, resp } => {
            if resp.vote_granted {
                assert(h.votes.contains_key((peer, term)));
            }
        },
        Mail::AppendReq { to, req } => {
            assert(h.leaders.contains_key(req.term));
            assert(h.lead_log.contains_key(req.term));
            let a = h.lead_log[req.term];
            let b = g.lead_log[req.term];
            let prev = req.prev_log_index as int;
            let end = prev + req.entries.len();
            assert(agree(b, a, a.len() as int));
            assert(b.subrange(prev, end) =~= a.subrange(prev, end)) by {
                assert forall|x: int| prev <= x < end implies a[x] == b[x] by {
                    lemma_agree_at(b, a, a.len() as int, x);
                }
            }
            if prev > 0 {
                lemma_agree_at(b, a, a.len() as int, prev - 1);
            }
            if req.leader_commit > 0 {
                let lc = req.leader_commit as int;
                let (t, k) = choose|t: u64, k: nat| #[trigger]
                    h.commits.contains((t, k)) && lc <= k && t <= req.term && agree(
                        a,
                        h.lead_log[t],
                        lc,
                    );
                assert(own(h, t, k));
                lemma_lead_agrees(h, g, a, t, lc);
                lemma_agree_less(b, a, a.len() as int, lc);
                lemma_agree_trans(b, a, g.lead_log[t], lc);
                assert(g.commits.contains((t, k)));
            }
        },
        Mail::AppendRep { to, peer, term, resp, prev, count } => {
            assert(h.leaders.contains_key(term));
            assert(confirmed_to(h, peer, term) <= confirmed_to(g, peer, term));
        },
    }
}

/// More has happened, but only to replica `i`.
pub open spec fn only(h: History, g: History, i: NodeId) -> bool {
    &&& extends(h, g)
    &&& forall|n: NodeId, t: u64| #[trigger]
        g.votes.contains_key((n, t)) && n != i ==> h.votes.contains_key((n, t))
    &&& forall|n: NodeId, t: u64| #[trigger]
        g.stand_log.contains_key((n, t)) && n != i ==> h.stand_log.contains_key((n, t))
    &&& forall|n: NodeId, t: u64|
        n != i ==> #[trigger] confirmed_to(g, n, t) == confirmed_to(h, n, t)
    &&& forall|t: u64| #[trigger]
        g.leaders.contains_key(t) && g.leaders[t] != i ==> h.leaders.contains_key(t)
            && g.lead_log[t] == h.lead_log[t]
}

proof fn lemma_node_stays(
    cfg: ConfigView,
    nodes: Map<NodeId, RaftView>,
    h: History,
    g: History,
    i: NodeId,
    n: NodeId,
    s: RaftView,
)
    requires
        only(h, g, i),
        history_ok(cfg, nodes, h),
        n != i,
        node_ok(cfg, h, n, s),
    ensures
        node_ok(cfg, g, n, s),
{
    lemma_rooted_grows(h, g, s.log);
    if s.voted_for is Some {
        assert(h.votes.contains_key((n, s.current_term)));
    }
    assert forall|t: u64| #[trigger]
        g.leaders.contains_key(t) && g.leaders[t] == n implies t < s.current_term || (t
        == s.current_term && s.role != Role::Candidate) by {
        assert(h.leaders.contains_key(t));
    }
    assert forall|t: u64| #[trigger] confirmed_to(g, n, t) > 0 implies t <= s.current_term by {
        assert(confirmed_to(h, n, t) > 0);
    }
    if s.role == Role::Candidate {
        assert(h.stand_log.contains_key((n, s.current_term)));
        lemma_all_voted_grows(h, g, s.votes_received, s.current_term, n);
    }
    if s.role == Role::Leader {
        assert(h.leaders.contains_key(s.current_term));
        assert(g.leaders.contains_key(s.current_term));
        assert forall|p: NodeId| cfg.has(p) && p != n implies #[trigger] transition::match_for(s, p)
            <= confirmed_to(g, p, s.current_term) by {
            assert(confirmed_to(h, p, s.current_term) <= confirmed_to(g, p, s.current_term));
        }
    }
    if s.commit_index > 0 {
        lemma_committed_grows(
            h,
            g,
            s.log,
            s.commit_index as int,
            s.current_term,
            s.current_term,
        );
    }
}

/// Replica `i` has become `s`.
pub open spec fn with_node(c: Cluster, i: NodeId, s: RaftView) -> Cluster {
    Cluster { nodes: c.nodes.insert(i, s), mail: c.mail }
}

/// What replica `i` newly has had is of a term that is none below its own.
pub open spec fn new_had_is_late(nodes: Map<NodeId, RaftView>, h: History, g: History, i: NodeId) -> bool {
    forall|t: u64, k: nat| #[trigger]
        had(g, i, t, k) && !had(h, i, t, k) ==> nodes[i].current_term <= t
}

/// What may still be committed could be before.
proof fn lemma_open_before(
    cfg: ConfigView,
    nodes: Map<NodeId, RaftView>,
    h: History,
    g: History,
    i: NodeId,
    s: RaftView,
    t: u64,
    k: nat,
)
    requires
        only(h, g, i),
        new_had_is_late(nodes, h, g, i),
        s.current_term >= nodes[i].current_term,
        open_to(cfg, nodes.insert(i, s), g, t, k),
    ensures
        open_to(cfg, nodes, h, t, k),
{
    let after = nodes.insert(i, s);
    let q = choose|q: Set<NodeId>| #[trigger] all_may_have(after, g, q, t, k) && cfg.quorum(q);
    assert forall|n: NodeId| #[trigger] q.contains(n) implies may_have(nodes, h, n, t, k) by {
        assert(may_have(after, g, n, t, k));
        if n == i {
            if had(g, i, t, k) && !had(h, i, t, k) {
                assert(nodes[i].current_term <= t);
            }
        } else if had(g, n, t, k) {
            assert(confirmed_to(g, n, t) == confirmed_to(h, n, t));
        }
    }
    assert(all_may_have(nodes, h, q, t, k));
}

/// A replica has had nothing new.
pub(crate) proof fn lemma_nothing_new(cfg: ConfigView, nodes: Map<NodeId, RaftView>, h: History, i: NodeId)
    ensures
        only(h, h, i),
        new_had_is_late(nodes, h, h, i),
        extends(h, h),
{
    assert forall|t: u64| #[trigger] h.lead_log.contains_key(t) implies agree(
        h.lead_log[t],
        h.lead_log[t],
        h.lead_log[t].len() as int,
    ) by {}
}

/// The parts of the history that speak of the replicas only ask that they are there.
proof fn lemma_history_nodes(
    cfg: ConfigView,
    nodes: Map<NodeId, RaftView>,
    h: History,
    i: NodeId,
    s: RaftView,
)
    requires
        history_ok(cfg, nodes, h),
        nodes.contains_key(i),
    ensures
        history_ok(cfg, nodes.insert(i, s), h),
{
    let after = nodes.insert(i, s);
    assert forall|t: u64| #[trigger] h.leaders.contains_key(t) implies leader_ok(cfg, after, h, t) by {
        assert(leader_ok(cfg, nodes, h, t));
    }
    assert forall|n: NodeId, t: u64| #[trigger] h.votes.contains_key((n, t)) implies vote_ok(
        after,
        h,
        n,
        t,
    ) by {
        assert(vote_ok(nodes, h, n, t));
    }
}

/// All that speaks of single replicas and messages holds after a change of one.
proof fn lemma_inv_parts(
    cfg: ConfigView,
    c: Cluster,
    h: History,
    g: History,
    i: NodeId,
    s: RaftView,
)
    requires
        inv(cfg, c, h),
        only(h, g, i),
        c.nodes.contains_key(i),
        node_ok(cfg, g, i, s),
    ensures
        forall|n: NodeId|
            cfg.has(n) ==> #[trigger] with_node(c, i, s).nodes.contains_key(n),
        forall|n: NodeId| #[trigger]
            with_node(c, i, s).nodes.contains_key(n) ==> node_ok(
                cfg,
                g,
                n,
                with_node(c, i, s).nodes[n],
            ),
        forall|m: Mail| #[trigger] with_node(c, i, s).mail.contains(m) ==> mail_ok(cfg, g, m),
{
    let d = with_node(c, i, s);
    assert forall|n: NodeId| cfg.has(n) implies #[trigger] d.nodes.contains_key(n) by {
        assert(c.nodes.contains_key(n));
    }
    assert forall|n: NodeId| #[trigger] d.nodes.contains_key(n) implies node_ok(
        cfg,
        g,
        n,
        d.nodes[n],
    ) by {
        if n != i {
            assert(c.nodes.contains_key(n));
            lemma_node_stays(cfg, c.nodes, h, g, i, n, c.nodes[n]);
        }
    }
    assert forall|m: Mail| #[trigger] d.mail.contains(m) implies mail_ok(cfg, g, m) by {
        assert(c.mail.contains(m));
        lemma_mail_grows(cfg, c.nodes, h, g, m);
    }
}

// ----------------------------------------------------------------------
// Single changes
// ----------------------------------------------------------------------
/// A replica changes without its log changing or its term going back.
proof fn lemma_change(cfg: ConfigView, c: Cluster, h: History, i: NodeId, s: RaftView)
    requires
        inv(cfg, c, h),
        c.nodes.contains_key(i),
        s.log == c.nodes[i].log,
        s.current_term >= c.nodes[i].current_term,
        node_ok(cfg, h, i, s),
    ensures
        inv(cfg, with_node(c, i, s), h),
{
    let d = with_node(c, i, s);
    lemma_nothing_new(cfg, c.nodes, h, i);
    lemma_inv_parts(cfg, c, h, h, i, s);
    lemma_history_nodes(cfg, c.nodes, h, i, s);
    assert forall|t: u64, k: nat, u: u64|
        #![trigger own(h, t, k), h.leaders.contains_key(u)]
        own(h, t, k) && h.leaders.contains_key(u) && t < u && open_to(cfg, d.nodes, h, t, k) implies agree(
        h.lead_log[u],
        h.lead_log[t],
        k as int,
    ) by {
        lemma_open_before(cfg, c.nodes, h, h, i, s, t, k);
    }
    assert forall|t: u64, k: nat, n: NodeId|
        #![trigger own(h, t, k), had(h, n, t, k)]
        own(h, t, k) && had(h, n, t, k) && d.nodes.contains_key(n) && open_to(
            cfg,
            d.nodes,
            h,
            t,
            k,
        ) implies agree(d.nodes[n].log, h.lead_log[t], k as int) by {
        lemma_open_before(cfg, c.nodes, h, h, i, s, t, k);
    }
    assert forall|t: u64, k: nat, n: NodeId, u: u64|
        #![trigger own(h, t, k), had(h, n, t, k), h.votes.contains_key((n, u))]
        own(h, t, k) && had(h, n, t, k) && h.votes.contains_key((n, u)) && t < u && open_to(
            cfg,
            d.nodes,
            h,
            t,
            k,
        ) implies agree(h.vote_log[(n, u)], h.lead_log[t], k as int) by {
        lemma_open_before(cfg, c.nodes, h, h, i, s, t, k);
    }
}

/// A message is sent.
proof fn lemma_send(cfg: ConfigView, c: Cluster, h: History, m: Mail)
    requires
        inv(cfg, c, h),
        mail_ok(cfg, h, m),
    ensures
        inv(cfg, Cluster { nodes: c.nodes, mail: c.mail.insert(m) }, h),
{
}

/// What has happened, and a vote of replica `i`.
pub open spec fn with_vote(h: History, i: NodeId, t: u64, cand: NodeId, log: Seq<EntryView>) -> History {
    History {
        votes: h.votes.insert((i, t), cand),
        vote_log: h.vote_log.insert((i, t), log),
        ..h
    }
}

proof fn lemma_vote_extends(h: History, i: NodeId, t: u64, cand: NodeId, log: Seq<EntryView>)
    requires
        !h.votes.contains_key((i, t)),
    ensures
        only(h, with_vote(h, i, t, cand, log), i),
        forall|n: NodeId, u: u64, k: nat| #[trigger]
            had(with_vote(h, i, t, cand, log), n, u, k) == had(h, n, u, k),
        forall|u: u64, k: nat| #[trigger]
            own(with_vote(h, i, t, cand, log), u, k) == own(h, u, k),
{
    let g = with_vote(h, i, t, cand, log);
    assert forall|n: NodeId, u: u64| #[trigger] confirmed_to(h, n, u) == confirmed_to(g, n, u) by {}
    assert forall|n: NodeId, u: u64| #[trigger] h.votes.contains_key((n, u)) implies g.votes.contains_key(
        (n, u),
    ) && g.votes[(n, u)] == h.votes[(n, u)] && g.vote_log.contains_key((n, u))
        == h.vote_log.contains_key((n, u)) && g.vote_log[(n, u)] == h.vote_log[(n, u)] by {
        assert((n, u) != (i, t));
    }
}

/// A replica votes.
proof fn lemma_voted(
    cfg: ConfigView,
    c: Cluster,
    h: History,
    i: NodeId,
    s: RaftView,
    cand: NodeId,
)
    requires
        inv(cfg, c, h),
        c.nodes.contains_key(i),
        s.log == c.nodes[i].log,
        s.current_term == c.nodes[i].current_term,
        s.current_term >= 1,
        c.nodes[i].voted_for is None,
        h.stand_log.contains_key((cand, s.current_term)),
        newer(h.stand_log[(cand, s.current_term)], s.log),
        node_ok(cfg, with_vote(h, i, s.current_term, cand, s.log), i, s),
    ensures
        inv(cfg, with_node(c, i, s), with_vote(h, i, s.current_term, cand, s.log)),
        extends(h, with_vote(h, i, s.current_term, cand, s.log)),
{
    let t0 = s.current_term;
    let g = with_vote(h, i, t0, cand, s.log);
    let d = with_node(c, i, s);
    lemma_vote_extends(h, i, t0, cand, s.log);
    lemma_inv_parts(cfg, c, h, g, i, s);
    lemma_history_nodes(cfg, c.nodes, h, i, s);
    // The history.
    assert forall|t: u64| #[trigger] g.leaders.contains_key(t) implies leader_ok(cfg, d.nodes, g, t) by {
        assert(leader_ok(cfg, d.nodes, h, t));
        lemma_rooted_grows(h, g, h.lead_log[t]);
        lemma_elected_grows(cfg, h, g, t, h.leaders[t]);
    }
    assert forall|n: NodeId, t: u64| #[trigger] g.votes.contains_key((n, t)) implies vote_ok(
        d.nodes,
        g,
        n,
        t,
    ) by {
        if (n, t) != (i, t0) {
            assert(h.votes.contains_key((n, t)));
            assert(vote_ok(d.nodes, h, n, t));
            lemma_rooted_grows(h, g, h.vote_log[(n, t)]);
        } else {
            lemma_rooted_grows(h, g, s.log);
        }
    }
    assert forall|n: NodeId, t: u64| #[trigger] g.stand_log.contains_key((n, t)) implies t >= 1
        && log_wf(g.stand_log[(n, t)], (t - 1) as u64) && rooted(g, g.stand_log[(n, t)]) by {
        assert(h.stand_log.contains_key((n, t)));
        lemma_rooted_grows(h, g, h.stand_log[(n, t)]);
    }
    assert forall|n: NodeId, t: u64| #[trigger] confirmed_to(g, n, t) > 0 implies g.leaders.contains_key(
        t,
    ) && confirmed_to(g, n, t) <= g.lead_log[t].len() && d.nodes.contains_key(n) by {
        assert(confirmed_to(h, n, t) > 0);
    }
    assert forall|t: u64, k: nat| #[trigger] g.commits.contains((t, k)) implies own(g, t, k)
        && chosen(cfg, g, t, k) by {
        assert(h.commits.contains((t, k)));
        lemma_own_grows(h, g, t, k);
        lemma_chosen_grows(cfg, h, g, t, k);
    }
    // What is kept.
    assert(new_had_is_late(c.nodes, h, g, i));
    assert forall|t: u64, k: nat, u: u64|
        #![trigger own(g, t, k), g.leaders.contains_key(u)]
        own(g, t, k) && g.leaders.contains_key(u) && t < u && open_to(cfg, d.nodes, g, t, k) implies agree(
        g.lead_log[u],
        g.lead_log[t],
        k as int,
    ) by {
        lemma_open_before(cfg, c.nodes, h, g, i, s, t, k);
        assert(own(h, t, k) && h.leaders.contains_key(u));
    }
    assert forall|t: u64, k: nat, n: NodeId|
        #![trigger own(g, t, k), had(g, n, t, k)]
        own(g, t, k) && had(g, n, t, k) && d.nodes.contains_key(n) && open_to(
            cfg,
            d.nodes,
            g,
            t,
            k,
        ) implies agree(d.nodes[n].log, g.lead_log[t], k as int) by {
        lemma_open_before(cfg, c.nodes, h, g, i, s, t, k);
        assert(own(h, t, k) && had(h, n, t, k));
    }
    assert forall|t: u64, k: nat, n: NodeId, u: u64|
        #![trigger own(g, t, k), had(g, n, t, k), g.votes.contains_key((n, u))]
        own(g, t, k) && had(g, n, t, k) && g.votes.contains_key((n, u)) && t < u && open_to(
            cfg,
            d.nodes,
            g,
            t,
            k,
        ) implies agree(g.vote_log[(n, u)], g.lead_log[t], k as int) by {
        lemma_open_before(cfg, c.nodes, h, g, i, s, t, k);
        assert(own(h, t, k) && had(h, n, t, k));
        if (n, u) != (i, t0) {
            assert(h.votes.contains_key((n, u)));
        } else {
            assert(agree(c.nodes[i].log, h.lead_log[t], k as int));
        }
    }
}

/// What has happened, and a candidacy of replica `i`.
pub open spec fn with_stand(h: History, i: NodeId, t: u64, log: Seq<EntryView>) -> History {
    History { stand_log: h.stand_log.insert((i, t), log), ..h }
}

/// A replica enters a later term to stand for election.
proof fn lemma_stands(cfg: ConfigView, c: Cluster, h: History, i: NodeId, s: RaftView)
    requires
        inv(cfg, c, h),
        c.nodes.contains_key(i),
        s.log == c.nodes[i].log,
        s.current_term > c.nodes[i].current_term,
        node_ok(cfg, with_stand(h, i, s.current_term, s.log), i, s),
    ensures
        inv(cfg, with_node(c, i, s), with_stand(h, i, s.current_term, s.log)),
        extends(h, with_stand(h, i, s.current_term, s.log)),
{
    let t0 = s.current_term;
    let g = with_stand(h, i, t0, s.log);
    let d = with_node(c, i, s);
    assert(node_ok(cfg, h, i, c.nodes[i]));
    assert(!h.stand_log.contains_key((i, t0)));
    assert forall|n: NodeId, u: u64| #[trigger] confirmed_to(h, n, u) == confirmed_to(g, n, u) by {}
    assert forall|n: NodeId, u: u64, k: nat| #[trigger] had(g, n, u, k) == had(h, n, u, k) by {
        assert(confirmed_to(h, n, u) == confirmed_to(g, n, u));
    }
    assert forall|u: u64, k: nat| #[trigger] own(g, u, k) == own(h, u, k) by {}
    assert forall|n: NodeId, u: u64| #[trigger] h.stand_log.contains_key((n, u)) implies g.stand_log.contains_key(
        (n, u),
    ) && g.stand_log[(n, u)] == h.stand_log[(n, u)] by {
        assert((n, u) != (i, t0));
    }
    assert(only(h, g, i));
    lemma_inv_parts(cfg, c, h, g, i, s);
    lemma_history_nodes(cfg, c.nodes, h, i, s);
    assert forall|t: u64| #[trigger] g.leaders.contains_key(t) implies leader_ok(cfg, d.nodes, g, t) by {
        assert(leader_ok(cfg, d.nodes, h, t));
        lemma_rooted_grows(h, g, h.lead_log[t]);
        lemma_elected_grows(cfg, h, g, t, h.leaders[t]);
    }
    assert forall|n: NodeId, t: u64| #[trigger] g.votes.contains_key((n, t)) implies vote_ok(
        d.nodes,
        g,
        n,
        t,
    ) by {
        assert(h.votes.contains_key((n, t)));
        assert(vote_ok(d.nodes, h, n, t));
        assert(h.stand_log.contains_key((h.votes[(n, t)], t)));
        lemma_rooted_grows(h, g, h.vote_log[(n, t)]);
    }
    assert forall|n: NodeId, t: u64| #[trigger] g.stand_log.contains_key((n, t)) implies t >= 1
        && log_wf(g.stand_log[(n, t)], (t - 1) as u64) && rooted(g, g.stand_log[(n, t)]) by {
        if (n, t) != (i, t0) {
            assert(h.stand_log.contains_key((n, t)));
            lemma_rooted_grows(h, g, h.stand_log[(n, t)]);
        } else {
            let old = c.nodes[i];
            assert forall|k: int| 0 <= k < s.log.len() implies (#[trigger] s.log[k]).index == k + 1
                && 1 <= s.log[k].term <= (t - 1) as u64 && plain(s.log[k]) by {
                assert(s.log[k].term <= old.current_term);
            }
            lemma_rooted_grows(h, g, s.log);
        }
    }
    assert forall|n: NodeId, t: u64| #[trigger] confirmed_to(g, n, t) > 0 implies g.leaders.contains_key(
        t,
    ) && confirmed_to(g, n, t) <= g.lead_log[t].len() && d.nodes.contains_key(n) by {
        assert(confirmed_to(h, n, t) > 0);
    }
    assert forall|t: u64, k: nat| #[trigger] g.commits.contains((t, k)) implies own(g, t, k)
        && chosen(cfg, g, t, k) by {
        assert(h.commits.contains((t, k)));
        lemma_own_grows(h, g, t, k);
        lemma_chosen_grows(cfg, h, g, t, k);
    }
    assert(new_had_is_late(c.nodes, h, g, i));
    assert forall|t: u64, k: nat, u: u64|
        #![trigger own(g, t, k), g.leaders.contains_key(u)]
        own(g, t, k) && g.leaders.contains_key(u) && t < u && open_to(cfg, d.nodes, g, t, k) implies agree(
        g.lead_log[u],
        g.lead_log[t],
        k as int,
    ) by {
        lemma_open_before(cfg, c.nodes, h, g, i, s, t, k);
        assert(own(h, t, k) && h.leaders.contains_key(u));
    }
    assert forall|t: u64, k: nat, n: NodeId|
        #![trigger own(g, t, k), had(g, n, t, k)]
        own(g, t, k) && had(g, n, t, k) && d.nodes.contains_key(n) && open_to(
            cfg,
            d.nodes,
            g,
            t,
            k,
        ) implies agree(d.nodes[n].log, g.lead_log[t], k as int) by {
        lemma_open_before(cfg, c.nodes, h, g, i, s, t, k);
        assert(own(h, t, k) && had(h, n, t, k));
    }
    assert forall|t: u64, k: nat, n: NodeId, u: u64|
        #![trigger own(g, t, k), had(g, n, t, k), g.votes.contains_key((n, u))]
        own(g, t, k) && had(g, n, t, k) && g.votes.contains_key((n, u)) && t < u && open_to(
            cfg,
            d.nodes,
            g,
            t,
            k,
        ) implies agree(g.vote_log[(n, u)], g.lead_log[t], k as int) by {
        lemma_open_before(cfg, c.nodes, h, g, i, s, t, k);
        assert(own(h, t, k) && had(h, n, t, k) && h.votes.contains_key((n, u)));
    }
}

/// What has happened, and the election of replica `i`.
pub open spec fn with_leader(h: History, i: NodeId, t: u64, log: Seq<EntryView>) -> History {
    History { leaders: h.leaders.insert(t, i), lead_log: h.lead_log.insert(t, log), ..h }
}

/// Nobody else was elected in the term.
proof fn lemma_not_elected_yet(
    cfg: ConfigView,
    c: Cluster,
    h: History,
    i: NodeId,
    q: Set<NodeId>,
)
    requires
        inv(cfg, c, h),
        c.nodes.contains_key(i),
        c.nodes[i].role == Role::Candidate,
        all_voted(h, q, c.nodes[i].current_term, i),
        cfg.quorum(q),
    ensures
        !h.leaders.contains_key(c.nodes[i].current_term),
{
    let t = c.nodes[i].current_term;
    if h.leaders.contains_key(t) {
        let j = h.leaders[t];
        assert(leader_ok(cfg, c.nodes, h, t));
        let p = choose|p: Set<NodeId>| #[trigger] all_voted(h, p, t, j) && cfg.quorum(p);
        let n = config::lemma_quorums_meet(cfg, cfg, q, p);
        assert(q.contains(n) && p.contains(n));
        assert(i == j);
        assert(node_ok(cfg, h, i, c.nodes[i]));
    }
}

/// A log that stood for election and won the vote of a replica has what that
/// replica had that may be committed.
proof fn lemma_winner_has(
    cfg: ConfigView,
    c: Cluster,
    h: History,
    i: NodeId,
    n: NodeId,
    u: u64,
    t: u64,
    k: nat,
)
    requires
        inv(cfg, c, h),
        h.votes.contains_key((n, u)),
        h.votes[(n, u)] == i,
        t < u,
        own(h, t, k),
        had(h, n, t, k),
        open_to(cfg, c.nodes, h, t, k),
    ensures
        agree(h.stand_log[(i, u)], h.lead_log[t], k as int),
{
    assert(vote_ok(c.nodes, h, n, u));
    let v = h.vote_log[(n, u)];
    let a = h.stand_log[(i, u)];
    assert(h.stand_log.contains_key((i, u)));
    assert(agree(v, h.lead_log[t], k as int));
    assert(h.leaders.contains_key(t)) by {
        assert(h.lead_log.contains_key(t));
    }
    assert(leader_ok(cfg, c.nodes, h, t));
    let lead = h.lead_log[t];
    lemma_agree_at(v, lead, k as int, k - 1);
    let vl = v.len() - 1;
    assert(v[k - 1].term == t);
    assert(last_term(v) == v[vl].term);
    assert(t <= last_term(v)) by {
        if k - 1 < vl {
            assert(v[k - 1].term <= v[vl].term);
        }
    }
    let al = a.len() - 1;
    assert(a.len() > 0) by {
        assert(last_term(a) >= last_term(v));
    }
    let tau = a[al].term;
    assert(is_rooted(h, a, al, tau));
    if last_term(a) == last_term(v) {
        assert(is_rooted(h, v, vl, v[vl].term));
        lemma_agree_less(v, h.lead_log[tau], vl + 1, k as int);
        lemma_agree_less(a, h.lead_log[tau], al + 1, k as int);
        lemma_agree_trans(a, h.lead_log[tau], v, k as int);
        lemma_agree_trans(a, v, lead, k as int);
    } else {
        assert(tau > t);
        assert(h.leaders.contains_key(tau));
        assert(agree(h.lead_log[tau], lead, k as int));
        if a.len() < k {
            // The last entry would be one of the earlier leader's.
            lemma_agree_at(a, h.lead_log[tau], al + 1, al);
            lemma_agree_at(h.lead_log[tau], lead, k as int, al);
            assert(lead[al].term <= t);
        }
        lemma_agree_less(a, h.lead_log[tau], al + 1, k as int);
        lemma_agree_trans(a, h.lead_log[tau], lead, k as int);
    }
}

/// A candidate is elected.
proof fn lemma_wins(
    cfg: ConfigView,
    c: Cluster,
    h: History,
    i: NodeId,
    s: RaftView,
    q: Set<NodeId>,
)
    requires
        inv(cfg, c, h),
        c.nodes.contains_key(i),
        c.nodes[i].role == Role::Candidate,
        all_voted(h, q, c.nodes[i].current_term, i),
        cfg.quorum(q),
        s.log == c.nodes[i].log,
        s.current_term == c.nodes[i].current_term,
        node_ok(cfg, with_leader(h, i, s.current_term, s.log), i, s),
    ensures
        inv(cfg, with_node(c, i, s), with_leader(h, i, s.current_term, s.log)),
        extends(h, with_leader(h, i, s.current_term, s.log)),
{
    let t0 = s.current_term;
    let g = with_leader(h, i, t0, s.log);
    let d = with_node(c, i, s);
    let old = c.nodes[i];
    assert(node_ok(cfg, h, i, old));
    lemma_not_elected_yet(cfg, c, h, i, q);
    assert(!h.lead_log.contains_key(t0));
    assert(h.stand_log.contains_key((i, t0)) && h.stand_log[(i, t0)] == s.log);
    assert forall|n: NodeId, u: u64| #[trigger] confirmed_to(h, n, u) == confirmed_to(g, n, u) by {}
    assert forall|t: u64| #[trigger] h.lead_log.contains_key(t) implies g.lead_log.contains_key(t)
        && agree(g.lead_log[t], h.lead_log[t], h.lead_log[t].len() as int) by {}
    assert(only(h, g, i));
    lemma_inv_parts(cfg, c, h, g, i, s);
    lemma_history_nodes(cfg, c.nodes, h, i, s);
    // Nothing of the new leader's log is its own yet.
    assert forall|k: nat| !own(g, t0, k) by {
        if own(g, t0, k) {
            assert(s.log[k - 1].term <= (t0 - 1) as u64);
        }
    }
    assert forall|t: u64, k: nat| #[trigger] own(g, t, k) implies own(h, t, k) && t != t0 by {
        assert(t != t0);
    }
    assert forall|n: NodeId, t: u64, k: nat| #[trigger] had(g, n, t, k) && t != t0 implies had(
        h,
        n,
        t,
        k,
    ) by {
        assert(confirmed_to(h, n, t) == confirmed_to(g, n, t));
    }
    assert(new_had_is_late(c.nodes, h, g, i)) by {
        assert forall|t: u64, k: nat| #[trigger] had(g, i, t, k) && !had(h, i, t, k) implies c.nodes[i].current_term
            <= t by {}
    }
    assert forall|t: u64| #[trigger] g.leaders.contains_key(t) implies leader_ok(cfg, d.nodes, g, t) by {
        if t == t0 {
            lemma_rooted_grows(h, g, s.log);
            lemma_all_voted_grows(h, g, q, t0, i);
        } else {
            assert(leader_ok(cfg, d.nodes, h, t));
            lemma_rooted_grows(h, g, h.lead_log[t]);
            lemma_elected_grows(cfg, h, g, t, h.leaders[t]);
        }
    }
    assert forall|n: NodeId, t: u64| #[trigger] g.votes.contains_key((n, t)) implies vote_ok(
        d.nodes,
        g,
        n,
        t,
    ) by {
        assert(h.votes.contains_key((n, t)));
        assert(vote_ok(d.nodes, h, n, t));
        lemma_rooted_grows(h, g, h.vote_log[(n, t)]);
    }
    assert forall|n: NodeId, t: u64| #[trigger] g.stand_log.contains_key((n, t)) implies t >= 1
        && log_wf(g.stand_log[(n, t)], (t - 1) as u64) && rooted(g, g.stand_log[(n, t)]) by {
        assert(h.stand_log.contains_key((n, t)));
        lemma_rooted_grows(h, g, h.stand_log[(n, t)]);
    }
    assert forall|n: NodeId, t: u64| #[trigger] confirmed_to(g, n, t) > 0 implies g.leaders.contains_key(
        t,
    ) && confirmed_to(g, n, t) <= g.lead_log[t].len() && d.nodes.contains_key(n) by {
        assert(confirmed_to(h, n, t) > 0);
        assert(h.leaders.contains_key(t));
    }
    assert forall|t: u64, k: nat| #[trigger] g.commits.contains((t, k)) implies own(g, t, k)
        && chosen(cfg, g, t, k) by {
        assert(h.commits.contains((t, k)));
        lemma_own_grows(h, g, t, k);
        lemma_chosen_grows(cfg, h, g, t, k);
    }
    assert forall|t: u64, k: nat, u: u64|
        #![trigger own(g, t, k), g.leaders.contains_key(u)]
        own(g, t, k) && g.leaders.contains_key(u) && t < u && open_to(cfg, d.nodes, g, t, k) implies agree(
        g.lead_log[u],
        g.lead_log[t],
        k as int,
    ) by {
        assert(own(h, t, k));
        lemma_open_before(cfg, c.nodes, h, g, i, s, t, k);
        if u == t0 {
            let p = choose|p: Set<NodeId>| #[trigger]
                all_may_have(c.nodes, h, p, t, k) && cfg.quorum(p);
            let n = config::lemma_quorums_meet(cfg, cfg, q, p);
            assert(q.contains(n) && p.contains(n));
            assert(h.votes.contains_key((n, t0)) && h.votes[(n, t0)] == i);
            assert(c.nodes.contains_key(n));
            assert(node_ok(cfg, h, n, c.nodes[n]));
            assert(c.nodes[n].current_term >= t0);
            assert(may_have(c.nodes, h, n, t, k));
            lemma_winner_has(cfg, c, h, i, n, t0, t, k);
        } else {
            assert(h.leaders.contains_key(u));
        }
    }
    assert forall|t: u64, k: nat, n: NodeId|
        #![trigger own(g, t, k), had(g, n, t, k)]
        own(g, t, k) && had(g, n, t, k) && d.nodes.contains_key(n) && open_to(
            cfg,
            d.nodes,
            g,
            t,
            k,
        ) implies agree(d.nodes[n].log, g.lead_log[t], k as int) by {
        assert(own(h, t, k) && had(h, n, t, k));
        lemma_open_before(cfg, c.nodes, h, g, i, s, t, k);
    }
    assert forall|t: u64, k: nat, n: NodeId, u: u64|
        #![trigger own(g, t, k), had(g, n, t, k), g.votes.contains_key((n, u))]
        own(g, t, k) && had(g, n, t, k) && g.votes.contains_key((n, u)) && t < u && open_to(
            cfg,
            d.nodes,
            g,
            t,
            k,
        ) implies agree(g.vote_log[(n, u)], g.lead_log[t], k as int) by {
        assert(own(h, t, k) && had(h, n, t, k) && h.votes.contains_key((n, u)));
        lemma_open_before(cfg, c.nodes, h, g, i, s, t, k);
    }
}

/// What has happened, and the growth of a leader's log.
pub open spec fn with_log(h: History, t: u64, log: Seq<EntryView>) -> History {
    History { lead_log: h.lead_log.insert(t, log), ..h }
}

/// A leader puts an entry of its own at the end of its log.
proof fn lemma_appends(cfg: ConfigView, c: Cluster, h: History, i: NodeId, s: RaftView, e: EntryView)
    requires
        inv(cfg, c, h),
        c.nodes.contains_key(i),
        c.nodes[i].role == Role::Leader,
        s.current_term == c.nodes[i].current_term,
        s.log == c.nodes[i].log.push(e),
        log_wf(s.log, s.current_term),
        e.term == s.current_term,
        node_ok(cfg, with_log(h, s.current_term, s.log), i, s),
    ensures
        inv(cfg, with_node(c, i, s), with_log(h, s.current_term, s.log)),
        extends(h, with_log(h, s.current_term, s.log)),
{
    let t0 = s.current_term;
    let old = c.nodes[i];
    let g = with_log(h, t0, s.log);
    let d = with_node(c, i, s);
    assert(node_ok(cfg, h, i, old));
    assert(h.leaders.contains_key(t0) && h.leaders[t0] == i && h.lead_log[t0] == old.log);
    assert(leader_ok(cfg, c.nodes, h, t0));
    assert forall|n: NodeId, u: u64| #[trigger] confirmed_to(h, n, u) == confirmed_to(g, n, u) by {}
    assert forall|t: u64| #[trigger] h.lead_log.contains_key(t) implies g.lead_log.contains_key(t)
        && agree(g.lead_log[t], h.lead_log[t], h.lead_log[t].len() as int) by {
        if t == t0 {
            assert(s.log.take(old.log.len() as int) =~= old.log);
            assert(old.log.take(old.log.len() as int) =~= old.log);
        }
    }
    assert(only(h, g, i)) by {
        assert forall|t: u64| #[trigger] g.leaders.contains_key(t) && g.leaders[t] != i implies h.leaders.contains_key(
            t,
        ) && g.lead_log[t] == h.lead_log[t] by {
            assert(t != t0);
        }
    }
    lemma_inv_parts(cfg, c, h, g, i, s);
    lemma_history_nodes(cfg, c.nodes, h, i, s);
    let last = s.log.len() as nat;
    assert forall|n: NodeId, t: u64, k: nat| #[trigger] had(g, n, t, k) && !had(h, n, t, k) implies n
        == i && t == t0 && k == last by {
        assert(confirmed_to(h, n, t) == confirmed_to(g, n, t));
    }
    assert forall|t: u64, k: nat| #[trigger] own(g, t, k) && !(t == t0 && k == last) implies own(
        h,
        t,
        k,
    ) by {
        if t == t0 {
            assert(s.log[k - 1] == old.log[k - 1]);
        }
    }
    assert(new_had_is_late(c.nodes, h, g, i)) by {
        assert forall|t: u64, k: nat| #[trigger] had(g, i, t, k) && !had(h, i, t, k) implies c.nodes[i].current_term
            <= t by {}
    }
    assert forall|t: u64| #[trigger] g.leaders.contains_key(t) implies leader_ok(cfg, d.nodes, g, t) by {
        assert(leader_ok(cfg, d.nodes, h, t));
        lemma_elected_grows(cfg, h, g, t, h.leaders[t]);
        if t == t0 {
            assert(rooted(g, s.log));
        } else {
            lemma_rooted_grows(h, g, h.lead_log[t]);
        }
    }
    assert forall|n: NodeId, t: u64| #[trigger] g.votes.contains_key((n, t)) implies vote_ok(
        d.nodes,
        g,
        n,
        t,
    ) by {
        assert(h.votes.contains_key((n, t)));
        assert(vote_ok(d.nodes, h, n, t));
        lemma_rooted_grows(h, g, h.vote_log[(n, t)]);
    }
    assert forall|n: NodeId, t: u64| #[trigger] g.stand_log.contains_key((n, t)) implies t >= 1
        && log_wf(g.stand_log[(n, t)], (t - 1) as u64) && rooted(g, g.stand_log[(n, t)]) by {
        assert(h.stand_log.contains_key((n, t)));
        lemma_rooted_grows(h, g, h.stand_log[(n, t)]);
    }
    assert forall|n: NodeId, t: u64| #[trigger] confirmed_to(g, n, t) > 0 implies g.leaders.contains_key(
        t,
    ) && confirmed_to(g, n, t) <= g.lead_log[t].len() && d.nodes.contains_key(n) by {
        assert(confirmed_to(h, n, t) > 0);
    }
    assert forall|t: u64, k: nat| #[trigger] g.commits.contains((t, k)) implies own(g, t, k)
        && chosen(cfg, g, t, k) by {
        assert(h.commits.contains((t, k)));
        lemma_own_grows(h, g, t, k);
        lemma_chosen_grows(cfg, h, g, t, k);
    }
    assert forall|t: u64, k: nat, u: u64|
        #![trigger own(g, t, k), g.leaders.contains_key(u)]
        own(g, t, k) && g.leaders.contains_key(u) && t < u && open_to(cfg, d.nodes, g, t, k) implies agree(
        g.lead_log[u],
        g.lead_log[t],
        k as int,
    ) by {
        assert(h.leaders.contains_key(u));
        if t == t0 && k == last {
            // Too few replicas can still come to have the new entry.
            let p = choose|p: Set<NodeId>| #[trigger]
                all_may_have(d.nodes, g, p, t, k) && cfg.quorum(p);
            assert(leader_ok(cfg, c.nodes, h, u));
            let q = choose|q: Set<NodeId>| #[trigger]
                all_voted(h, q, u, h.leaders[u]) && cfg.quorum(q);
            let n = config::lemma_quorums_meet(cfg, cfg, q, p);
            assert(q.contains(n) && p.contains(n));
            assert(h.votes.contains_key((n, u)));
            assert(c.nodes.contains_key(n));
            assert(node_ok(cfg, h, n, c.nodes[n]));
            assert(c.nodes[n].current_term >= u);
            assert(may_have(d.nodes, g, n, t, k));
            assert(had(g, n, t, k));
            if n != i {
                assert(had(h, n, t, k));
                assert(confirmed_to(h, n, t) > 0);
            }
            assert(false);
        } else {
            assert(own(h, t, k));
            lemma_open_before(cfg, c.nodes, h, g, i, s, t, k);
            assert(agree(h.lead_log[u], h.lead_log[t], k as int));
            lemma_lead_agrees(h, g, h.lead_log[u], t, k as int);
            lemma_agree_less(g.lead_log[u], h.lead_log[u], h.lead_log[u].len() as int, k as int);
            lemma_agree_trans(g.lead_log[u], h.lead_log[u], g.lead_log[t], k as int);
        }
    }
    assert forall|t: u64, k: nat, n: NodeId|
        #![trigger own(g, t, k), had(g, n, t, k)]
        own(g, t, k) && had(g, n, t, k) && d.nodes.contains_key(n) && open_to(
            cfg,
            d.nodes,
            g,
            t,
            k,
        ) implies agree(d.nodes[n].log, g.lead_log[t], k as int) by {
        if t == t0 && k == last {
            if n != i {
                assert(had(h, n, t, k));
                assert(confirmed_to(h, n, t) > 0);
            }
        } else {
            assert(own(h, t, k) && had(h, n, t, k));
            lemma_open_before(cfg, c.nodes, h, g, i, s, t, k);
            assert(agree(c.nodes[n].log, h.lead_log[t], k as int));
            lemma_lead_agrees(h, g, c.nodes[n].log, t, k as int);
            if n == i {
                assert(s.log.take(k as int) =~= old.log.take(k as int));
            }
        }
    }
    assert forall|t: u64, k: nat, n: NodeId, u: u64|
        #![trigger own(g, t, k), had(g, n, t, k), g.votes.contains_key((n, u))]
        own(g, t, k) && had(g, n, t, k) && g.votes.contains_key((n, u)) && t < u && open_to(
            cfg,
            d.nodes,
            g,
            t,
            k,
        ) implies agree(g.vote_log[(n, u)], g.lead_log[t], k as int) by {
        assert(h.votes.contains_key((n, u)));
        if t == t0 && k == last {
            if n != i {
                assert(had(h, n, t, k));
                assert(confirmed_to(h, n, t) > 0);
            }
            assert(false);
        } else {
            assert(own(h, t, k) && had(h, n, t, k));
            lemma_open_before(cfg, c.nodes, h, g, i, s, t, k);
            lemma_lead_agrees(h, g, h.vote_log[(n, u)], t, k as int);
        }
    }
}

/// What has happened, and what replica `i` has confirmed.
pub open spec fn with_confirmed(h: History, i: NodeId, t: u64, m: nat) -> History {
    History {
        confirmed: h.confirmed.insert(
            (i, t),
            if m > confirmed_to(h, i, t) {
                m
            } else {
                confirmed_to(h, i, t)
            },
        ),
        ..h
    }
}

proof fn lemma_confirmed_extends(h: History, i: NodeId, t: u64, m: nat)
    ensures
        only(h, with_confirmed(h, i, t, m), i),
        forall|n: NodeId, u: u64, k: nat| #[trigger]
            had(with_confirmed(h, i, t, m), n, u, k) && !had(h, n, u, k) ==> n == i && u == t && k
                <= m,
        forall|u: u64, k: nat| #[trigger] own(with_confirmed(h, i, t, m), u, k) == own(h, u, k),
        confirmed_to(with_confirmed(h, i, t, m), i, t) >= m,
        forall|n: NodeId, u: u64|
            (n, u) != (i, t) ==> #[trigger] confirmed_to(with_confirmed(h, i, t, m), n, u)
                == confirmed_to(h, n, u),
{
    let g = with_confirmed(h, i, t, m);
    assert forall|n: NodeId, u: u64| #[trigger] confirmed_to(h, n, u) <= confirmed_to(g, n, u) by {}
    assert forall|n: NodeId, u: u64| n != i implies #[trigger] confirmed_to(g, n, u) == confirmed_to(
        h,
        n,
        u,
    ) by {}
}

/// A replica takes in entries of the leader of its term, and confirms them.
proof fn lemma_takes_in(cfg: ConfigView, c: Cluster, h: History, i: NodeId, s: RaftView, m: nat)
    requires
        inv(cfg, c, h),
        c.nodes.contains_key(i),
        s.current_term == c.nodes[i].current_term,
        h.leaders.contains_key(s.current_term),
        h.leaders[s.current_term] != i,
        agree(s.log, h.lead_log[s.current_term], m as int),
        forall|x: int| #[trigger]
            agree(c.nodes[i].log, h.lead_log[s.current_term], x) ==> agree(
                s.log,
                h.lead_log[s.current_term],
                x,
            ),
        node_ok(cfg, with_confirmed(h, i, s.current_term, m), i, s),
    ensures
        inv(cfg, with_node(c, i, s), with_confirmed(h, i, s.current_term, m)),
        extends(h, with_confirmed(h, i, s.current_term, m)),
{
    let t0 = s.current_term;
    let old = c.nodes[i];
    let lead = h.lead_log[t0];
    let g = with_confirmed(h, i, t0, m);
    let d = with_node(c, i, s);
    assert(node_ok(cfg, h, i, old));
    assert(leader_ok(cfg, c.nodes, h, t0));
    lemma_confirmed_extends(h, i, t0, m);
    lemma_inv_parts(cfg, c, h, g, i, s);
    lemma_history_nodes(cfg, c.nodes, h, i, s);
    assert(new_had_is_late(c.nodes, h, g, i)) by {
        assert forall|t: u64, k: nat| #[trigger] had(g, i, t, k) && !had(h, i, t, k) implies c.nodes[i].current_term
            <= t by {}
    }
    assert forall|t: u64| #[trigger] g.leaders.contains_key(t) implies leader_ok(cfg, d.nodes, g, t) by {
        assert(leader_ok(cfg, d.nodes, h, t));
        lemma_rooted_grows(h, g, h.lead_log[t]);
        lemma_elected_grows(cfg, h, g, t, h.leaders[t]);
    }
    assert forall|n: NodeId, t: u64| #[trigger] g.votes.contains_key((n, t)) implies vote_ok(
        d.nodes,
        g,
        n,
        t,
    ) by {
        assert(h.votes.contains_key((n, t)));
        assert(vote_ok(d.nodes, h, n, t));
        lemma_rooted_grows(h, g, h.vote_log[(n, t)]);
    }
    assert forall|n: NodeId, t: u64| #[trigger] g.stand_log.contains_key((n, t)) implies t >= 1
        && log_wf(g.stand_log[(n, t)], (t - 1) as u64) && rooted(g, g.stand_log[(n, t)]) by {
        assert(h.stand_log.contains_key((n, t)));
        lemma_rooted_grows(h, g, h.stand_log[(n, t)]);
    }
    assert forall|n: NodeId, t: u64| #[trigger] confirmed_to(g, n, t) > 0 implies g.leaders.contains_key(
        t,
    ) && confirmed_to(g, n, t) <= g.lead_log[t].len() && d.nodes.contains_key(n) by {
        if (n, t) != (i, t0) {
            assert(confirmed_to(h, n, t) > 0);
        } else if confirmed_to(h, i, t0) > 0 {
        }
    }
    assert forall|t: u64, k: nat| #[trigger] g.commits.contains((t, k)) implies own(g, t, k)
        && chosen(cfg, g, t, k) by {
        assert(h.commits.contains((t, k)));
        lemma_own_grows(h, g, t, k);
        lemma_chosen_grows(cfg, h, g, t, k);
    }
    assert forall|t: u64, k: nat, u: u64|
        #![trigger own(g, t, k), g.leaders.contains_key(u)]
        own(g, t, k) && g.leaders.contains_key(u) && t < u && open_to(cfg, d.nodes, g, t, k) implies agree(
        g.lead_log[u],
        g.lead_log[t],
        k as int,
    ) by {
        lemma_open_before(cfg, c.nodes, h, g, i, s, t, k);
        assert(own(h, t, k) && h.leaders.contains_key(u));
    }
    assert forall|t: u64, k: nat, n: NodeId|
        #![trigger own(g, t, k), had(g, n, t, k)]
        own(g, t, k) && had(g, n, t, k) && d.nodes.contains_key(n) && open_to(
            cfg,
            d.nodes,
            g,
            t,
            k,
        ) implies agree(d.nodes[n].log, g.lead_log[t], k as int) by {
        lemma_open_before(cfg, c.nodes, h, g, i, s, t, k);
        assert(own(h, t, k));
        if !had(h, n, t, k) {
            lemma_agree_less(s.log, lead, m as int, k as int);
        } else if n == i {
            assert(agree(old.log, h.lead_log[t], k as int));
            assert(t <= t0) by {
                if k <= confirmed_to(h, i, t) {
                    assert(confirmed_to(h, i, t) > 0);
                }
            }
            if t < t0 {
                assert(agree(lead, h.lead_log[t], k as int));
                lemma_agree_trans(lead, h.lead_log[t], old.log, k as int);
                assert(agree(s.log, lead, k as int));
                lemma_agree_trans(s.log, lead, h.lead_log[t], k as int);
            }
        }
    }
    assert forall|t: u64, k: nat, n: NodeId, u: u64|
        #![trigger own(g, t, k), had(g, n, t, k), g.votes.contains_key((n, u))]
        own(g, t, k) && had(g, n, t, k) && g.votes.contains_key((n, u)) && t < u && open_to(
            cfg,
            d.nodes,
            g,
            t,
            k,
        ) implies agree(g.vote_log[(n, u)], g.lead_log[t], k as int) by {
        lemma_open_before(cfg, c.nodes, h, g, i, s, t, k);
        assert(own(h, t, k) && h.votes.contains_key((n, u)));
        if !had(h, n, t, k) {
            assert(u > old.current_term);
        }
    }
}

/// What has happened, and a commit.
pub open spec fn with_commit(h: History, t: u64, k: nat) -> History {
    History { commits: h.commits.insert((t, k)), ..h }
}

/// Entries are committed.
proof fn lemma_commits(cfg: ConfigView, c: Cluster, h: History, i: NodeId, t0: u64, k0: nat)
    requires
        inv(cfg, c, h),
        c.nodes.contains_key(i),
        own(h, t0, k0),
        chosen(cfg, h, t0, k0),
    ensures
        inv(cfg, c, with_commit(h, t0, k0)),
        extends(h, with_commit(h, t0, k0)),
{
    let g = with_commit(h, t0, k0);
    assert forall|n: NodeId, u: u64| #[trigger] confirmed_to(h, n, u) == confirmed_to(g, n, u) by {}
    assert forall|n: NodeId, u: u64, k: nat| #[trigger] had(g, n, u, k) == had(h, n, u, k) by {
        assert(confirmed_to(h, n, u) == confirmed_to(g, n, u));
    }
    assert forall|u: u64, k: nat| #[trigger] own(g, u, k) == own(h, u, k) by {}
    assert forall|t: u64| #[trigger] h.lead_log.contains_key(t) implies agree(
        g.lead_log[t],
        h.lead_log[t],
        h.lead_log[t].len() as int,
    ) by {}
    assert(extends(h, g));
    let s = c.nodes[i];
    assert(c.nodes.insert(i, s) =~= c.nodes);
    let other = if i == 0 {
        1u64
    } else {
        0u64
    };
    assert forall|n: NodeId| #[trigger] c.nodes.contains_key(n) implies node_ok(
        cfg,
        g,
        n,
        c.nodes[n],
    ) by {
        let away = if n == i {
            other
        } else {
            i
        };
        assert(only(h, g, away)) by {
            assert forall|x: NodeId, t: u64| x != away implies #[trigger] confirmed_to(g, x, t)
                == confirmed_to(h, x, t) by {}
        }
        lemma_node_stays(cfg, c.nodes, h, g, away, n, c.nodes[n]);
    }
    assert forall|m: Mail| #[trigger] c.mail.contains(m) implies mail_ok(cfg, g, m) by {
        lemma_mail_grows(cfg, c.nodes, h, g, m);
    }
    assert forall|t: u64| #[trigger] g.leaders.contains_key(t) implies leader_ok(cfg, c.nodes, g, t) by {
        assert(leader_ok(cfg, c.nodes, h, t));
        lemma_rooted_grows(h, g, h.lead_log[t]);
        lemma_elected_grows(cfg, h, g, t, h.leaders[t]);
    }
    assert forall|n: NodeId, t: u64| #[trigger] g.votes.contains_key((n, t)) implies vote_ok(
        c.nodes,
        g,
        n,
        t,
    ) by {
        assert(vote_ok(c.nodes, h, n, t));
        lemma_rooted_grows(h, g, h.vote_log[(n, t)]);
    }
    assert forall|n: NodeId, t: u64| #[trigger] g.stand_log.contains_key((n, t)) implies t >= 1
        && log_wf(g.stand_log[(n, t)], (t - 1) as u64) && rooted(g, g.stand_log[(n, t)]) by {
        assert(h.stand_log.contains_key((n, t)));
        lemma_rooted_grows(h, g, h.stand_log[(n, t)]);
    }
    assert forall|n: NodeId, t: u64| #[trigger] confirmed_to(g, n, t) > 0 implies g.leaders.contains_key(
        t,
    ) && confirmed_to(g, n, t) <= g.lead_log[t].len() && c.nodes.contains_key(n) by {
        assert(confirmed_to(h, n, t) > 0);
    }
    assert forall|t: u64, k: nat| #[trigger] g.commits.contains((t, k)) implies own(g, t, k)
        && chosen(cfg, g, t, k) by {
        if (t, k) != (t0, k0) {
            assert(h.commits.contains((t, k)));
        }
        lemma_own_grows(h, g, t, k);
        lemma_chosen_grows(cfg, h, g, t, k);
    }
    assert forall|t: u64, k: nat| #[trigger] open_to(cfg, c.nodes, g, t, k) implies open_to(
        cfg,
        c.nodes,
        h,
        t,
        k,
    ) by {
        let q = choose|q: Set<NodeId>| #[trigger] all_may_have(c.nodes, g, q, t, k) && cfg.quorum(q);
        assert forall|n: NodeId| #[trigger] q.contains(n) implies may_have(c.nodes, h, n, t, k) by {
            assert(may_have(c.nodes, g, n, t, k));
            assert(had(g, n, t, k) == had(h, n, t, k));
        }
        assert(all_may_have(c.nodes, h, q, t, k));
    }
    assert forall|t: u64, k: nat, u: u64|
        #![trigger own(g, t, k), g.leaders.contains_key(u)]
        own(g, t, k) && g.leaders.contains_key(u) && t < u && open_to(cfg, c.nodes, g, t, k) implies agree(
        g.lead_log[u],
        g.lead_log[t],
        k as int,
    ) by {
        assert(own(h, t, k) && h.leaders.contains_key(u));
    }
    assert forall|t: u64, k: nat, n: NodeId|
        #![trigger own(g, t, k), had(g, n, t, k)]
        own(g, t, k) && had(g, n, t, k) && c.nodes.contains_key(n) && open_to(
            cfg,
            c.nodes,
            g,
            t,
            k,
        ) implies agree(c.nodes[n].log, g.lead_log[t], k as int) by {
        assert(own(h, t, k) && had(h, n, t, k));
    }
    assert forall|t: u64, k: nat, n: NodeId, u: u64|
        #![trigger own(g, t, k), had(g, n, t, k), g.votes.contains_key((n, u))]
        own(g, t, k) && had(g, n, t, k) && g.votes.contains_key((n, u)) && t < u && open_to(
            cfg,
            c.nodes,
            g,
            t,
            k,
        ) implies agree(g.vote_log[(n, u)], g.lead_log[t], k as int) by {
        assert(own(h, t, k) && had(h, n, t, k) && h.votes.contains_key((n, u)));
    }
}

// ----------------------------------------------------------------------
// Taking in entries
// ----------------------------------------------------------------------
proof fn lemma_rooted_take(h: History, log: Seq<EntryView>, m: int)
    requires
        rooted(h, log),
        0 <= m <= log.len(),
    ensures
        rooted(h, log.take(m)),
{
    let t = log.take(m);
    assert forall|p: int| 0 <= p < t.len() implies is_rooted(h, t, p, (#[trigger] t[p]).term) by {
        assert(is_rooted(h, log, p, log[p].term));
        lemma_take_agrees(log, m, p + 1);
        lemma_agree_trans(t, log, h.lead_log[log[p].term], p + 1);
    }
}

/// Logs that have an entry of the same term at the same place agree up to it.
pub(crate) proof fn lemma_same_term(h: History, a: Seq<EntryView>, b: Seq<EntryView>, p: int)
    requires
        rooted(h, a),
        rooted(h, b),
        0 <= p < a.len(),
        p < b.len(),
        a[p].term == b[p].term,
    ensures
        agree(a, b, p + 1),
{
    assert(is_rooted(h, a, p, a[p].term));
    assert(is_rooted(h, b, p, b[p].term));
    let l = h.lead_log[a[p].term];
    lemma_agree_trans(b, l, a, p + 1);
}

/// How a log is after it took in entries of a leader's log.
pub open spec fn taken(
    before: Seq<EntryView>,
    after: Seq<EntryView>,
    lead: Seq<EntryView>,
    m: int,
) -> bool {
    &&& agree(after, lead, m)
    &&& after == before || after == lead.take(m)
    &&& forall|x: int| #[trigger] agree(before, lead, x) ==> agree(after, lead, x)
}

proof fn lemma_absorbs(
    h: History,
    u: RaftView,
    max: u64,
    lead: Seq<EntryView>,
    prev: int,
    entries: Seq<EntryView>,
)
    requires
        u.last_snapshot_index == 0,
        log_wf(u.log, max),
        log_wf(lead, max),
        rooted(h, u.log),
        rooted(h, lead),
        0 <= prev,
        prev + entries.len() <= lead.len(),
        entries == lead.subrange(prev, prev + entries.len()),
        agree(u.log, lead, prev),
    ensures
        taken(
            u.log,
            transition::absorb_all(u, entries).log,
            lead,
            prev + entries.len(),
        ),
        transition::absorb_all(u, entries) == (RaftView {
            log: transition::absorb_all(u, entries).log,
            ..u
        }),
    decreases entries.len(),
{
    let end = prev + entries.len();
    if entries.len() > 0 {
        let front = entries.drop_last();
        assert(front =~= lead.subrange(prev, prev + front.len()));
        lemma_absorbs(h, u, max, lead, prev, front);
        let s = transition::absorb_all(u, front);
        let e = entries.last();
        let at = end - 1;
        assert(e == lead[at]);
        assert(e.index == end);
        assert(log_wf(s.log, max) && rooted(h, s.log)) by {
            if s.log != u.log {
                lemma_take_wf(lead, max, at);
                lemma_rooted_take(h, lead, at);
            }
        }
        lemma_log_facts(s, max);
        let t = transition::absorb_all(u, entries);
        assert(t == transition::absorb_entry(s, e));
        assert(agree(s.log, lead, at));
        let known = s.term_at(e.index as int);
        if known == 0 {
            assert(s.log.len() <= at) by {
                if s.log.len() > at {
                    assert(s.term_at(end) == s.log[end - 1].term);
                }
            }
            assert(s.log.take(at) =~= s.log);
            assert(t.log =~= lead.take(end));
            assert forall|x: int| #[trigger] agree(u.log, lead, x) implies agree(t.log, lead, x) by {
                assert(agree(s.log, lead, x));
                lemma_take_agrees(lead, end, x);
            }
        } else if known == e.term {
            assert(end <= s.log.len());
            assert(s.log[at].term == lead[at].term);
            lemma_same_term(h, s.log, lead, at);
            assert(t.log == s.log);
            if s.log == lead.take(at) && s.log != u.log {
                assert(s.log.len() == at);
            }
        } else {
            assert(end <= s.log.len());
            assert(s.log == u.log) by {
                if s.log != u.log {
                    assert(s.log.len() == at);
                }
            }
            assert(e.index - s.last_snapshot_index - 1 == at);
            assert(s.log.take(at) == lead.take(at));
            assert(t.log =~= lead.take(end));
            assert forall|x: int| #[trigger] agree(u.log, lead, x) implies agree(t.log, lead, x) by {
                if x > at {
                    lemma_agree_at(u.log, lead, x, at);
                    assert(s.term_at(end) == s.log[end - 1].term);
                    assert(false);
                }
                lemma_take_agrees(lead, end, x);
            }
        }
        lemma_take_agrees(lead, end, end);
        assert(lead.take(end).take(end) =~= lead.take(end));
    } else {
        assert(transition::absorb_all(u, entries) == u);
    }
}

// ----------------------------------------------------------------------
// Sending
// ----------------------------------------------------------------------
/// What an action sends agrees with what has happened.
pub open spec fn act_ok(cfg: ConfigView, h: History, i: NodeId, cause: Cause, a: ActionView) -> bool {
    match cluster::mail_of(i, cause, a) {
        Some(m) => mail_ok(cfg, h, m),
        None => true,
    }
}

pub open spec fn acts_ok(
    cfg: ConfigView,
    h: History,
    i: NodeId,
    cause: Cause,
    acts: Seq<ActionView>,
) -> bool {
    forall|k: int| 0 <= k < acts.len() ==> act_ok(cfg, h, i, cause, #[trigger] acts[k])
}

/// The group after replica `i` has become `s` and has done these things.
pub open spec fn after(
    c: Cluster,
    i: NodeId,
    cause: Cause,
    out: (RaftView, Seq<ActionView>),
) -> Cluster {
    Cluster {
        nodes: c.nodes.insert(i, out.0),
        mail: cluster::with_mail(c.mail, i, cause, out.1),
    }
}

proof fn lemma_sends(
    cfg: ConfigView,
    c: Cluster,
    h: History,
    i: NodeId,
    cause: Cause,
    acts: Seq<ActionView>,
)
    requires
        inv(cfg, c, h),
        acts_ok(cfg, h, i, cause, acts),
    ensures
        inv(
            cfg,
            Cluster { nodes: c.nodes, mail: cluster::with_mail(c.mail, i, cause, acts) },
            h,
        ),
    decreases acts.len(),
{
    if acts.len() > 0 {
        let front = acts.drop_last();
        assert forall|k: int| 0 <= k < front.len() implies act_ok(
            cfg,
            h,
            i,
            cause,
            #[trigger] front[k],
        ) by {
            assert(front[k] == acts[k]);
        }
        lemma_sends(cfg, c, h, i, cause, front);
        let d = Cluster { nodes: c.nodes, mail: cluster::with_mail(c.mail, i, cause, front) };
        assert(act_ok(cfg, h, i, cause, acts[acts.len() - 1]));
        match cluster::mail_of(i, cause, acts.last()) {
            Some(m) => lemma_send(cfg, d, h, m),
            None => {},
        }
    }
}

/// The group after a change of replica `i` and what it then does.
proof fn lemma_lands(
    cfg: ConfigView,
    c: Cluster,
    g: History,
    i: NodeId,
    cause: Cause,
    out: (RaftView, Seq<ActionView>),
)
    requires
        inv(cfg, with_node(c, i, out.0), g),
        acts_ok(cfg, g, i, cause, out.1),
    ensures
        inv(cfg, after(c, i, cause, out), g),
{
    lemma_sends(cfg, with_node(c, i, out.0), g, i, cause, out.1);
}

proof fn lemma_acts_joined(
    cfg: ConfigView,
    h: History,
    i: NodeId,
    cause: Cause,
    a: Seq<ActionView>,
    b: Seq<ActionView>,
)
    requires
        acts_ok(cfg, h, i, cause, a),
        acts_ok(cfg, h, i, cause, b),
    ensures
        acts_ok(cfg, h, i, cause, a + b),
{
    let acts = a + b;
    assert forall|k: int| 0 <= k < acts.len() implies act_ok(
        cfg,
        h,
        i,
        cause,
        #[trigger] acts[k],
    ) by {
        if k < a.len() {
            assert(acts[k] == a[k]);
        } else {
            assert(acts[k] == b[k - a.len()]);
        }
    }
}

/// What is applied is not sent.
proof fn lemma_applying_sends_nothing(
    cfg: ConfigView,
    h: History,
    i: NodeId,
    cause: Cause,
    entries: Seq<EntryView>,
)
    ensures
        acts_ok(cfg, h, i, cause, transition::apply_commands(entries)),
    decreases entries.len(),
{
    if entries.len() > 0 {
        lemma_applying_sends_nothing(cfg, h, i, cause, entries.drop_last());
        let front = transition::apply_commands(entries.drop_last());
        let acts = transition::apply_commands(entries);
        assert forall|k: int| 0 <= k < acts.len() implies act_ok(
            cfg,
            h,
            i,
            cause,
            #[trigger] acts[k],
        ) by {
            if k < front.len() {
                assert(acts[k] == front[k]);
            }
        }
    }
}

/// A candidate asks for votes with the log that it stands with.
proof fn lemma_asks(
    cfg: ConfigView,
    h: History,
    me: Me,
    cause: Cause,
    s: RaftView,
    nodes: Seq<NodeId>,
)
    requires
        node_ok(cfg, h, me.id, s),
        s.role == Role::Candidate,
    ensures
        acts_ok(cfg, h, me.id, cause, transition::ask_all(s, me, nodes)),
    decreases nodes.len(),
{
    if nodes.len() > 0 {
        lemma_asks(cfg, h, me, cause, s, nodes.drop_last());
        lemma_log_facts(s, s.current_term);
        let front = transition::ask_all(s, me, nodes.drop_last());
        let acts = transition::ask_all(s, me, nodes);
        assert forall|k: int| 0 <= k < acts.len() implies act_ok(
            cfg,
            h,
            me.id,
            cause,
            #[trigger] acts[k],
        ) by {
            if k < front.len() {
                assert(acts[k] == front[k]);
            }
        }
    }
}

/// A leader sends entries of its log.
proof fn lemma_replicates(cfg: ConfigView, h: History, me: Me, cause: Cause, s: RaftView, peer: NodeId)
    requires
        node_ok(cfg, h, me.id, s),
        s.role == Role::Leader,
        cfg.has(peer),
        peer != me.id,
    ensures
        act_ok(cfg, h, me.id, cause, transition::replicate_to(s, me, peer)),
{
    lemma_log_facts(s, s.current_term);
    let next = transition::next_for(s, peer);
    assert(1 <= next <= s.log.len() + 1);
    let prev = next - 1;
    let sent = s.entries_between(next as int, s.last_log_index() as int);
    assert(sent =~= s.log.subrange(prev, s.log.len() as int));
    assert(prev + sent.len() == s.log.len());
    if prev > 0 {
        assert(s.term_at(prev) == s.log[prev - 1].term);
    }
}

proof fn lemma_broadcasts(
    cfg: ConfigView,
    h: History,
    me: Me,
    cause: Cause,
    s: RaftView,
    nodes: Seq<NodeId>,
)
    requires
        node_ok(cfg, h, me.id, s),
        s.role == Role::Leader,
        forall|k: int| 0 <= k < nodes.len() ==> cfg.has(#[trigger] nodes[k]),
    ensures
        acts_ok(cfg, h, me.id, cause, transition::replicate_to_all(s, me, nodes)),
    decreases nodes.len(),
{
    if nodes.len() > 0 {
        let shorter = nodes.drop_last();
        assert forall|k: int| 0 <= k < shorter.len() implies cfg.has(#[trigger] shorter[k]) by {
            assert(shorter[k] == nodes[k]);
        }
        lemma_broadcasts(cfg, h, me, cause, s, shorter);
        assert(cfg.has(nodes[nodes.len() - 1]));
        let front = transition::replicate_to_all(s, me, shorter);
        let acts = transition::replicate_to_all(s, me, nodes);
        if nodes.last() != me.id {
            lemma_replicates(cfg, h, me, cause, s, nodes.last());
        }
        assert forall|k: int| 0 <= k < acts.len() implies act_ok(
            cfg,
            h,
            me.id,
            cause,
            #[trigger] acts[k],
        ) by {
            if k < front.len() {
                assert(acts[k] == front[k]);
            }
        }
    }
}

/// A leader sends to the members.
proof fn lemma_broadcast_ok(cfg: ConfigView, h: History, me: Me, cause: Cause, s: RaftView)
    requires
        cfg is Stable,
        node_ok(cfg, h, me.id, s),
        s.role == Role::Leader,
    ensures
        acts_ok(cfg, h, me.id, cause, transition::broadcast(s, me)),
{
    let nodes = s.config.all_nodes();
    assert forall|k: int| 0 <= k < nodes.len() implies cfg.has(#[trigger] nodes[k]) by {
        assert(nodes.contains(nodes[k]));
    }
    lemma_broadcasts(cfg, h, me, cause, s, nodes);
}

pub(crate) proof fn lemma_extends_trans(h: History, g: History, f: History)
    requires
        extends(h, g),
        extends(g, f),
    ensures
        extends(h, f),
{
    assert forall|n: NodeId, t: u64| #[trigger] h.votes.contains_key((n, t)) implies f.votes.contains_key(
        (n, t),
    ) && f.votes[(n, t)] == h.votes[(n, t)] && f.vote_log.contains_key((n, t))
        == h.vote_log.contains_key((n, t)) && f.vote_log[(n, t)] == h.vote_log[(n, t)] by {
        assert(g.votes.contains_key((n, t)));
    }
    assert forall|n: NodeId, t: u64| #[trigger] h.stand_log.contains_key((n, t)) implies f.stand_log.contains_key(
        (n, t),
    ) && f.stand_log[(n, t)] == h.stand_log[(n, t)] by {
        assert(g.stand_log.contains_key((n, t)));
    }
    assert forall|t: u64| #[trigger] h.lead_log.contains_key(t) implies f.lead_log.contains_key(t)
        && agree(f.lead_log[t], h.lead_log[t], h.lead_log[t].len() as int) by {
        let k = h.lead_log[t].len() as int;
        assert(g.lead_log.contains_key(t));
        lemma_agree_less(f.lead_log[t], g.lead_log[t], g.lead_log[t].len() as int, k);
        lemma_agree_trans(f.lead_log[t], g.lead_log[t], h.lead_log[t], k);
    }
    assert forall|n: NodeId, t: u64| #[trigger] confirmed_to(h, n, t) <= confirmed_to(f, n, t) by {
        assert(confirmed_to(h, n, t) <= confirmed_to(g, n, t));
        assert(confirmed_to(g, n, t) <= confirmed_to(f, n, t));
    }
    assert forall|t: u64, k: nat| #[trigger] h.commits.contains((t, k)) implies f.commits.contains((t, k)) by {
        assert(g.commits.contains((t, k)));
    }
}

// ----------------------------------------------------------------------
// Time
// ----------------------------------------------------------------------
/// The replica stays in order when it adopts a later term.
proof fn lemma_adopts(cfg: ConfigView, h: History, n: NodeId, s: RaftView, term: u64)
    requires
        node_ok(cfg, h, n, s),
        forall|t: u64, k: nat| #[trigger] h.commits.contains((t, k)) ==> own(h, t, k),
    ensures
        node_ok(cfg, h, n, transition::adopt_term(s, term)),
        transition::adopt_term(s, term).log == s.log,
        transition::adopt_term(s, term).current_term >= s.current_term,
{
    let t = transition::adopt_term(s, term);
    if term > s.current_term {
        assert(log_wf(t.log, term)) by {
            assert forall|k: int| 0 <= k < s.log.len() implies (#[trigger] s.log[k]).index == k + 1
                && 1 <= s.log[k].term <= term && plain(s.log[k]) by {}
        }
        assert(!h.votes.contains_key((n, term)));
        if s.commit_index > 0 {
            lemma_nothing_new(cfg, Map::empty(), h, n);
            lemma_committed_grows(h, h, s.log, s.commit_index as int, s.current_term, term);
        }
    }
}

/// A candidate with enough votes leads.
proof fn lemma_takes_over(
    cfg: ConfigView,
    c: Cluster,
    h: History,
    i: NodeId,
    s: RaftView,
    q: Set<NodeId>,
)
    requires
        inv(cfg, c, h),
        c.nodes.contains_key(i),
        c.nodes[i].role == Role::Candidate,
        all_voted(h, q, c.nodes[i].current_term, i),
        cfg.quorum(q),
        c.nodes[i].log.len() < u64::MAX,
        s == (RaftView {
            heartbeat_elapsed: s.heartbeat_elapsed,
            votes_received: s.votes_received,
            ..transition::lead(c.nodes[i], i)
        }),
    ensures
        inv(cfg, with_node(c, i, s), with_leader(h, i, s.current_term, s.log)),
        extends(h, with_leader(h, i, s.current_term, s.log)),
        node_ok(cfg, with_leader(h, i, s.current_term, s.log), i, s),
        s.role == Role::Leader,
{
    let old = c.nodes[i];
    let t = s.current_term;
    let g = with_leader(h, i, t, s.log);
    assert(node_ok(cfg, h, i, old));
    lemma_log_facts(old, old.current_term);
    lemma_not_elected_yet(cfg, c, h, i, q);
    assert(!h.lead_log.contains_key(t));
    assert forall|n: NodeId, u: u64| #[trigger] confirmed_to(h, n, u) == confirmed_to(g, n, u) by {}
    assert(extends(h, g)) by {
        assert forall|u: u64| #[trigger] h.lead_log.contains_key(u) implies g.lead_log.contains_key(u)
            && agree(g.lead_log[u], h.lead_log[u], h.lead_log[u].len() as int) by {}
    }
    lemma_rooted_grows(h, g, s.log);
    assert forall|u: u64| #[trigger] confirmed_to(g, i, u) > 0 implies u <= t by {
        assert(confirmed_to(h, i, u) > 0);
    }
    assert forall|p: NodeId| cfg.has(p) && p != i implies 1 <= #[trigger] transition::next_for(s, p)
        <= s.log.len() + 1 by {}
    assert forall|p: NodeId| cfg.has(p) && p != i implies #[trigger] transition::match_for(s, p)
        <= confirmed_to(g, p, t) by {
        assert(transition::match_for(s, p) == 0);
    }
    if s.commit_index > 0 {
        lemma_committed_grows(h, g, s.log, s.commit_index as int, t, t);
    }
    lemma_wins(cfg, c, h, i, s, q);
}

/// A replica stands for election, and votes for itself.
proof fn lemma_stands_up(cfg: ConfigView, c: Cluster, h: History, me: Me, timeout: u64) -> (g:
    History)
    requires
        inv(cfg, c, h),
        c.nodes.contains_key(me.id),
        c.nodes[me.id].current_term < u64::MAX,
    ensures
        inv(cfg, with_node(c, me.id, transition::candidacy(c.nodes[me.id], me, timeout)), g),
        extends(h, g),
{
    let i = me.id;
    let s = c.nodes[i];
    let t = (s.current_term + 1) as u64;
    assert(node_ok(cfg, h, i, s));
    let a = transition::adopt_term(s, t);
    lemma_adopts(cfg, h, i, s, t);
    let g = with_stand(h, i, t, s.log);
    assert forall|n: NodeId, u: u64| #[trigger] confirmed_to(h, n, u) == confirmed_to(g, n, u) by {}
    assert(extends(h, g)) by {
        assert forall|u: u64| #[trigger] h.lead_log.contains_key(u) implies agree(
            g.lead_log[u],
            h.lead_log[u],
            h.lead_log[u].len() as int,
        ) by {}
    }
    lemma_rooted_grows(h, g, s.log);
    if s.commit_index > 0 {
        lemma_committed_grows(h, g, s.log, s.commit_index as int, s.current_term, t);
    }
    assert(node_ok(cfg, g, i, a)) by {
        assert forall|u: u64| #[trigger] confirmed_to(g, i, u) > 0 implies u <= t by {
            assert(confirmed_to(h, i, u) > 0);
        }
    }
    lemma_stands(cfg, c, h, i, a);
    let d = with_node(c, i, a);
    let b = transition::candidacy(s, me, timeout);
    let f = with_vote(g, i, t, i, s.log);
    lemma_vote_extends(g, i, t, i, s.log);
    lemma_rooted_grows(g, f, s.log);
    if s.commit_index > 0 {
        lemma_committed_grows(g, f, s.log, s.commit_index as int, t, t);
    }
    assert(node_ok(cfg, f, i, b)) by {
        assert forall|u: u64| #[trigger] confirmed_to(f, i, u) > 0 implies u <= t by {
            assert(confirmed_to(h, i, u) > 0);
        }
    }
    lemma_voted(cfg, d, g, i, b, i);
    assert(with_node(d, i, b) =~= with_node(c, i, b));
    lemma_extends_trans(h, g, f);
    f
}

proof fn lemma_tick(
    cfg: ConfigView,
    c: Cluster,
    h: History,
    me: Me,
    timeout: u64,
) -> (g: History)
    requires
        cfg is Stable,
        inv(cfg, c, h),
        c.nodes.contains_key(me.id),
        transition::in_range(c.nodes[me.id], me, transition::EventView::Tick, false),
    ensures
        inv(
            cfg,
            after(c, me.id, Cause::Tick, transition::on_tick(c.nodes[me.id], me, timeout)),
            g,
        ),
        extends(h, g),
{
    reveal(transition::on_tick);
    let i = me.id;
    let s = c.nodes[i];
    let cause = Cause::Tick;
    let out = transition::on_tick(s, me, timeout);
    assert(node_ok(cfg, h, i, s));
    lemma_nothing_new(cfg, c.nodes, h, i);
    lemma_log_facts(s, s.current_term);
    if s.role == Role::Leader {
        assert(node_ok(cfg, h, i, out.0)) by {
            assert forall|p: NodeId| cfg.has(p) && p != i implies 1
                <= #[trigger] transition::next_for(out.0, p) <= s.log.len() + 1 by {
                assert(transition::next_for(s, p) == transition::next_for(out.0, p));
            }
            assert forall|p: NodeId| cfg.has(p) && p != i implies #[trigger] transition::match_for(
                out.0,
                p,
            ) <= confirmed_to(h, p, s.current_term) by {
                assert(transition::match_for(s, p) == transition::match_for(out.0, p));
            }
        }
        lemma_change(cfg, c, h, i, out.0);
        if out.1.len() > 0 {
            lemma_broadcast_ok(cfg, h, me, cause, out.0);
        }
        lemma_lands(cfg, c, h, i, cause, out);
        h
    } else if !transition::election_due(s) {
        lemma_change(cfg, c, h, i, out.0);
        lemma_lands(cfg, c, h, i, cause, out);
        h
    } else {
        let b = transition::candidacy(s, me, timeout);
        let g = lemma_stands_up(cfg, c, h, me, timeout);
        let d = with_node(c, i, b);
        assert(d.nodes.contains_key(i));
        assert(node_ok(cfg, g, i, b));
        let votes = b.votes_received.insert(i);
        assert(votes =~= b.votes_received);
        let kept = seq![transition::persist_vote(b)];
        if b.config.quorum(votes) {
            let l = transition::lead(b, i);
            let f = with_leader(g, i, l.current_term, l.log);
            lemma_takes_over(cfg, d, g, i, l, votes);
            assert(with_node(d, i, l) =~= with_node(c, i, l));
            lemma_broadcast_ok(cfg, f, me, cause, l);
            lemma_acts_joined(cfg, f, i, cause, kept, transition::broadcast(l, me));
            lemma_lands(cfg, c, f, i, cause, out);
            lemma_extends_trans(h, g, f);
            f
        } else {
            let asks = transition::ask_all(b, me, b.config.all_nodes());
            lemma_asks(cfg, g, me, cause, b, b.config.all_nodes());
            lemma_acts_joined(cfg, g, i, cause, kept, asks);
            lemma_lands(cfg, c, g, i, cause, out);
            g
        }
    }
}

// ----------------------------------------------------------------------
// Elections
// ----------------------------------------------------------------------
proof fn lemma_vote_asked(
    cfg: ConfigView,
    c: Cluster,
    h: History,
    i: NodeId,
    req: RequestVoteReq,
) -> (g: History)
    requires
        inv(cfg, c, h),
        c.nodes.contains_key(i),
        stands_in(h, req),
    ensures
        inv(
            cfg,
            after(
                c,
                i,
                Cause::Deliver(Mail::VoteReq { to: i, req }),
                transition::on_request_vote(c.nodes[i], req),
            ),
            g,
        ),
        extends(h, g),
{
    reveal(transition::on_request_vote);
    let cause = Cause::Deliver(Mail::VoteReq { to: i, req });
    let s = c.nodes[i];
    let out = transition::on_request_vote(s, req);
    assert(node_ok(cfg, h, i, s));
    lemma_nothing_new(cfg, c.nodes, h, i);
    let t = transition::adopt_term(s, req.term);
    lemma_adopts(cfg, h, i, s, req.term);
    lemma_change(cfg, c, h, i, t);
    lemma_log_facts(t, t.current_term);
    let d = with_node(c, i, t);
    let u = out.0;
    if !transition::grants(t, req) {
        lemma_lands(cfg, c, h, i, cause, out);
        h
    } else if t.voted_for is Some {
        assert(h.votes.contains_key((i, req.term)));
        if u.role == Role::Leader {
            assert forall|p: NodeId| cfg.has(p) && p != i implies 1
                <= #[trigger] transition::next_for(u, p) <= u.log.len() + 1 by {
                assert(transition::next_for(t, p) == transition::next_for(u, p));
            }
            assert forall|p: NodeId| cfg.has(p) && p != i implies #[trigger] transition::match_for(
                u,
                p,
            ) <= confirmed_to(h, p, u.current_term) by {
                assert(transition::match_for(t, p) == transition::match_for(u, p));
            }
        }
        lemma_change(cfg, d, h, i, u);
        assert(with_node(d, i, u) =~= with_node(c, i, u));
        lemma_lands(cfg, c, h, i, cause, out);
        h
    } else {
        let cand = req.candidate_id;
        let g = with_vote(h, i, u.current_term, cand, u.log);
        lemma_vote_extends(h, i, u.current_term, cand, u.log);
        lemma_rooted_grows(h, g, u.log);
        if u.commit_index > 0 {
            lemma_committed_grows(
                h,
                g,
                u.log,
                u.commit_index as int,
                u.current_term,
                u.current_term,
            );
        }
        assert(node_ok(cfg, g, i, u)) by {
            assert forall|x: u64| #[trigger] confirmed_to(g, i, x) > 0 implies x <= u.current_term by {
                assert(confirmed_to(h, i, x) > 0);
            }
        }
        assert(h.stand_log.contains_key((cand, u.current_term)));
        lemma_voted(cfg, d, h, i, u, cand);
        assert(with_node(d, i, u) =~= with_node(c, i, u));
        lemma_lands(cfg, c, g, i, cause, out);
        g
    }
}

proof fn lemma_vote_answered(
    cfg: ConfigView,
    c: Cluster,
    h: History,
    me: Me,
    cause: Cause,
) -> (g: History)
    requires
        cfg is Stable,
        inv(cfg, c, h),
        c.nodes.contains_key(me.id),
        cause matches Cause::Deliver(Mail::VoteRep { to, peer, term, resp }) && to == me.id
            && mail_ok(cfg, h, cause->Deliver_0),
        transition::in_range(c.nodes[me.id], me, cluster::event_of(cause), false),
    ensures
        inv(
            cfg,
            after(
                c,
                me.id,
                cause,
                transition::step(c.nodes[me.id], me, cluster::event_of(cause), 0, false),
            ),
            g,
        ),
        extends(h, g),
{
    reveal(transition::on_vote_reply);
    let i = me.id;
    let s = c.nodes[i];
    assert(node_ok(cfg, h, i, s));
    lemma_nothing_new(cfg, c.nodes, h, i);
    lemma_log_facts(s, s.current_term);
    match cause {
        Cause::Deliver(Mail::VoteRep { to, peer, term, resp }) => {
            let out = transition::on_vote_reply(s, me, peer, term, resp);
            assert(c.nodes.insert(i, s) =~= c.nodes);
            if term != s.current_term || s.role != Role::Candidate {
                lemma_lands(cfg, c, h, i, cause, out);
                h
            } else if resp.term > s.current_term {
                lemma_adopts(cfg, h, i, s, resp.term);
                lemma_change(cfg, c, h, i, out.0);
                lemma_lands(cfg, c, h, i, cause, out);
                h
            } else if !resp.vote_granted {
                lemma_lands(cfg, c, h, i, cause, out);
                h
            } else {
                let t = RaftView { votes_received: s.votes_received.insert(peer), ..s };
                let votes = t.votes_received.insert(i);
                assert(h.votes.contains_key((i, term)));
                if t.config.quorum(votes) {
                    lemma_takes_over(cfg, c, h, i, out.0, votes);
                    let f = with_leader(h, i, out.0.current_term, out.0.log);
                    lemma_broadcast_ok(cfg, f, me, cause, out.0);
                    lemma_lands(cfg, c, f, i, cause, out);
                    f
                } else {
                    lemma_change(cfg, c, h, i, t);
                    lemma_lands(cfg, c, h, i, cause, out);
                    h
                }
            }
        },
        _ => h,
    }
}

// ----------------------------------------------------------------------
// Replication
// ----------------------------------------------------------------------
/// What was committed may be.
proof fn lemma_chosen_is_open(
    cfg: ConfigView,
    nodes: Map<NodeId, RaftView>,
    h: History,
    t: u64,
    k: nat,
)
    requires
        chosen(cfg, h, t, k),
    ensures
        open_to(cfg, nodes, h, t, k),
{
    let q = choose|q: Set<NodeId>| #[trigger] all_had(h, q, t, k) && cfg.quorum(q);
    assert forall|n: NodeId| #[trigger] q.contains(n) implies may_have(nodes, h, n, t, k) by {
        assert(had(h, n, t, k));
    }
    assert(all_may_have(nodes, h, q, t, k));
}

/// What was committed by one term was committed by a later one.
pub(crate) proof fn lemma_raised(h: History, log: Seq<EntryView>, c: int, max: u64, top: u64)
    requires
        committed(h, log, c, max),
        max <= top,
    ensures
        committed(h, log, c, top),
{
    let (t, k) = choose|t: u64, k: nat| #[trigger]
        h.commits.contains((t, k)) && c <= k && t <= max && agree(log, h.lead_log[t], c);
    assert(h.commits.contains((t, k)));
}

/// Leaders of the term and of later terms have what was committed.
pub(crate) proof fn lemma_leader_has_committed(
    cfg: ConfigView,
    c: Cluster,
    h: History,
    log: Seq<EntryView>,
    k: int,
    u: u64,
)
    requires
        inv(cfg, c, h),
        h.leaders.contains_key(u),
        committed(h, log, k, u),
    ensures
        agree(log, h.lead_log[u], k),
{
    let (t, m) = choose|t: u64, m: nat| #[trigger]
        h.commits.contains((t, m)) && k <= m && t <= u && agree(log, h.lead_log[t], k);
    assert(own(h, t, m) && chosen(cfg, h, t, m));
    if t < u {
        lemma_chosen_is_open(cfg, c.nodes, h, t, m);
        assert(agree(h.lead_log[u], h.lead_log[t], m as int));
        lemma_agree_less(h.lead_log[u], h.lead_log[t], m as int, k);
        lemma_agree_trans(log, h.lead_log[t], h.lead_log[u], k);
    }
}

/// What replica `s` is after it took in the entries of the request, up to its
/// knowledge of what is committed.
proof fn lemma_takes_entries(
    cfg: ConfigView,
    c: Cluster,
    h: History,
    i: NodeId,
    req: AppendView,
)
    requires
        inv(cfg, c, h),
        c.nodes.contains_key(i),
        append_ok(h, req),
        cfg.has(i),
        i != req.leader_id,
        c.nodes[i].current_term == req.term,
        c.nodes[i].role == Role::Follower,
        transition::log_matches(c.nodes[i], req),
    ensures
        ({
            let s = c.nodes[i];
            let w = transition::take_entries(s, req.entries);
            let m = (req.prev_log_index + req.entries.len()) as nat;
            let g = with_confirmed(h, i, req.term, m);
            &&& inv(cfg, with_node(c, i, w), g)
            &&& extends(h, g)
            &&& agree(w.log, h.lead_log[req.term], m as int)
            &&& confirmed_to(g, i, req.term) >= m
            &&& w.commit_index == s.commit_index
            &&& w.current_term == s.current_term
        }),
{
    let s = c.nodes[i];
    let t = req.term;
    let lead = h.lead_log[t];
    let prev = req.prev_log_index as int;
    let m = (req.prev_log_index + req.entries.len()) as nat;
    let g = with_confirmed(h, i, t, m);
    let w = transition::take_entries(s, req.entries);
    assert(node_ok(cfg, h, i, s));
    assert(leader_ok(cfg, c.nodes, h, t));
    lemma_log_facts(s, t);
    assert(agree(s.log, lead, prev)) by {
        if prev > 0 {
            assert(s.term_at(prev) == s.log[prev - 1].term);
            lemma_same_term(h, s.log, lead, prev - 1);
        } else {
            assert(s.log.take(0) =~= lead.take(0));
        }
    }
    lemma_absorbs(h, s, t, lead, prev, req.entries);
    assert(log_wf(w.log, t) && rooted(h, w.log)) by {
        if w.log != s.log {
            lemma_take_wf(lead, t, m as int);
            lemma_rooted_take(h, lead, m as int);
        }
    }
    lemma_plain_config(cfg, w.log);
    assert(w == (RaftView { log: w.log, ..s }));
    lemma_confirmed_extends(h, i, t, m);
    lemma_rooted_grows(h, g, w.log);
    if s.commit_index > 0 {
        let k = s.commit_index as int;
        lemma_leader_has_committed(cfg, c, h, s.log, k, t);
        assert(agree(w.log, lead, k));
        let (x, y) = choose|x: u64, y: nat| #[trigger]
            h.commits.contains((x, y)) && k <= y && x <= t && agree(s.log, h.lead_log[x], k);
        lemma_agree_trans(w.log, lead, s.log, k);
        lemma_agree_trans(w.log, s.log, h.lead_log[x], k);
        assert(g.commits.contains((x, y)));
    }
    assert(node_ok(cfg, g, i, w)) by {
        if s.voted_for is Some {
            assert(h.votes.contains_key((i, t)));
        }
        assert forall|x: u64| #[trigger] confirmed_to(g, i, x) > 0 implies x <= t by {
            if x != t {
                assert(confirmed_to(h, i, x) > 0);
            }
        }
    }
    lemma_takes_in(cfg, c, h, i, w, m);
}

/// A replica that took in entries of the leader learns what is committed.
proof fn lemma_learns(
    cfg: ConfigView,
    h: History,
    g: History,
    i: NodeId,
    w: RaftView,
    req: AppendView,
    y: RaftView,
)
    requires
        append_ok(h, req),
        node_ok(cfg, g, i, w),
        g == with_confirmed(h, i, req.term, (req.prev_log_index + req.entries.len()) as nat),
        w.current_term == req.term,
        w.role == Role::Follower,
        agree(w.log, h.lead_log[req.term], req.prev_log_index + req.entries.len()),
        y == (if req.leader_commit > w.commit_index {
            transition::caught_up(transition::learn_commit(w, req.leader_commit))
        } else {
            transition::learn_commit(w, req.leader_commit)
        }),
    ensures
        node_ok(cfg, g, i, y),
        y.log == w.log,
        y.current_term == w.current_term,
{
    let m = req.prev_log_index + req.entries.len();
    lemma_log_facts(w, w.current_term);
    if req.leader_commit > w.commit_index {
        let k = req.leader_commit as int;
        let lead = h.lead_log[req.term];
        lemma_agree_less(w.log, lead, m, k);
        let (a, b) = choose|a: u64, b: nat| #[trigger]
            h.commits.contains((a, b)) && k <= b && a <= req.term && agree(lead, h.lead_log[a], k);
        lemma_agree_trans(w.log, lead, h.lead_log[a], k);
        assert(g.commits.contains((a, b)));
        assert(committed(g, w.log, k, req.term));
        assert(y.commit_index == k);
    }
}

/// A replica that took in entries of the leader sends only its answer.
proof fn lemma_taken_acts(
    cfg: ConfigView,
    g: History,
    i: NodeId,
    req: AppendView,
    s: RaftView,
)
    requires
        ({
            let u = transition::follow(transition::adopt_term(s, req.term));
            req.term >= s.current_term && transition::log_matches(u, req)
        }),
        mail_ok(cfg, g, Mail::AppendReq { to: i, req }),
        confirmed_to(g, i, req.term) >= req.prev_log_index + req.entries.len(),
    ensures
        acts_ok(
            cfg,
            g,
            i,
            Cause::Deliver(Mail::AppendReq { to: i, req }),
            transition::on_append_entries(s, req).1,
        ),
{
    reveal(transition::on_append_entries);
    let cause = Cause::Deliver(Mail::AppendReq { to: i, req });
    let acts = transition::on_append_entries(s, req).1;
    let u = transition::follow(transition::adopt_term(s, req.term));
    let w = transition::take_entries(u, req.entries);
    let x = transition::learn_commit(w, req.leader_commit);
    let records = transition::absorb_all_records(u, req.entries);
    let stepped_down = req.term > s.current_term || s.role == Role::Candidate;
    let a = if records.len() > 0 {
        seq![ActionView::Persist(records)]
    } else {
        Seq::empty()
    };
    let b = transition::persist_vote_if(stepped_down, x);
    let applied = if req.leader_commit > w.commit_index {
        transition::apply_commands(transition::unapplied(x))
    } else {
        Seq::empty()
    };
    let reply = seq![acts.last()];
    lemma_applying_sends_nothing(cfg, g, i, cause, transition::unapplied(x));
    lemma_acts_joined(cfg, g, i, cause, a, b);
    lemma_acts_joined(cfg, g, i, cause, a + b, applied);
    assert(act_ok(cfg, g, i, cause, reply[0]));
    lemma_acts_joined(cfg, g, i, cause, a + b + applied, reply);
    assert(acts =~= a + b + applied + reply);
}

#[verifier::spinoff_prover]
#[verifier::rlimit(40)]
proof fn lemma_append_asked(
    cfg: ConfigView,
    c: Cluster,
    h: History,
    i: NodeId,
    req: AppendView,
) -> (g: History)
    requires
        inv(cfg, c, h),
        c.nodes.contains_key(i),
        mail_ok(cfg, h, Mail::AppendReq { to: i, req }),
    ensures
        inv(
            cfg,
            after(
                c,
                i,
                Cause::Deliver(Mail::AppendReq { to: i, req }),
                transition::on_append_entries(c.nodes[i], req),
            ),
            g,
        ),
        extends(h, g),
{
    let cause = Cause::Deliver(Mail::AppendReq { to: i, req });
    let s = c.nodes[i];
    let out = transition::on_append_entries(s, req);
    assert(node_ok(cfg, h, i, s));
    lemma_nothing_new(cfg, c.nodes, h, i);
    let t = transition::adopt_term(s, req.term);
    lemma_adopts(cfg, h, i, s, req.term);
    if req.term < t.current_term {
        lemma_change(cfg, c, h, i, t);
        assert(out.0 == t && acts_ok(cfg, h, i, cause, out.1)) by {
            reveal(transition::on_append_entries);
        }
        lemma_lands(cfg, c, h, i, cause, out);
        h
    } else {
        let u = transition::follow(t);
        assert(t.role != Role::Leader) by {
            if t.role == Role::Leader {
                assert(h.leaders[t.current_term] == i);
            }
        }
        lemma_change(cfg, c, h, i, u);
        let d = with_node(c, i, u);
        if !transition::log_matches(u, req) {
            assert(out.0 == u && acts_ok(cfg, h, i, cause, out.1)) by {
                reveal(transition::on_append_entries);
            }
            lemma_lands(cfg, c, h, i, cause, out);
            h
        } else {
            lemma_takes_entries(cfg, d, h, i, req);
            let w = transition::take_entries(u, req.entries);
            let m = (req.prev_log_index + req.entries.len()) as nat;
            let g = with_confirmed(h, i, req.term, m);
            let e = with_node(d, i, w);
            assert(e.nodes.contains_key(i));
            assert(node_ok(cfg, g, i, w));
            assert(out.0 == (if req.leader_commit > w.commit_index {
                transition::caught_up(transition::learn_commit(w, req.leader_commit))
            } else {
                transition::learn_commit(w, req.leader_commit)
            })) by {
                reveal(transition::on_append_entries);
            }
            assert(w.role == Role::Follower) by {
                node::lemma_absorb_all_frame(u, req.entries);
            }
            lemma_learns(cfg, h, g, i, w, req, out.0);
            lemma_change(cfg, e, g, i, out.0);
            assert(with_node(e, i, out.0) =~= with_node(c, i, out.0));
            lemma_mail_grows(cfg, c.nodes, h, g, Mail::AppendReq { to: i, req });
            lemma_taken_acts(cfg, g, i, req, s);
            lemma_lands(cfg, c, g, i, cause, out);
            g
        }
    }
}

proof fn lemma_commit_point(s: RaftView, id: NodeId, from: int, to: int)
    ensures
        ({
            let c = transition::commit_point(s, id, from, to);
            c > from ==> c <= to && transition::committable(s, id, c)
        }),
    decreases to - from,
{
    if to > from && !transition::committable(s, id, to) {
        lemma_commit_point(s, id, from, to - 1);
    }
}

/// What a leader commits is held by enough replicas.
proof fn lemma_commits_chosen(cfg: ConfigView, h: History, i: NodeId, s: RaftView, k: nat)
    requires
        node_ok(cfg, h, i, s),
        s.role == Role::Leader,
        1 <= k <= s.log.len(),
        transition::committable(s, i, k as int),
    ensures
        own(h, s.current_term, k),
        chosen(cfg, h, s.current_term, k),
{
    lemma_log_facts(s, s.current_term);
    let t = s.current_term;
    let all = config::holders(s.match_index, i, s.last_log_index(), k as u64);
    let q = all.filter(|n: NodeId| cfg.has(n));
    config::lemma_quorum_of_members(cfg, all);
    assert(s.term_at(k as int) == s.log[k - 1].term);
    assert forall|n: NodeId| #[trigger] q.contains(n) implies had(h, n, t, k) by {
        if n != i {
            assert(transition::match_for(s, n) <= confirmed_to(h, n, t));
        }
    }
    assert(all_had(h, q, t, k));
}

proof fn lemma_append_answered(
    cfg: ConfigView,
    c: Cluster,
    h: History,
    me: Me,
    cause: Cause,
) -> (g: History)
    requires
        cfg is Stable,
        inv(cfg, c, h),
        c.nodes.contains_key(me.id),
        cause matches Cause::Deliver(Mail::AppendRep { to, peer, term, resp, prev, count }) && to
            == me.id && count <= usize::MAX && mail_ok(cfg, h, cause->Deliver_0),
        transition::in_range(c.nodes[me.id], me, cluster::event_of(cause), false),
    ensures
        inv(
            cfg,
            after(
                c,
                me.id,
                cause,
                transition::step(c.nodes[me.id], me, cluster::event_of(cause), 0, false),
            ),
            g,
        ),
        extends(h, g),
{
    reveal(transition::on_append_reply);
    let i = me.id;
    let s = c.nodes[i];
    assert(node_ok(cfg, h, i, s));
    lemma_nothing_new(cfg, c.nodes, h, i);
    lemma_log_facts(s, s.current_term);
    match cause {
        Cause::Deliver(Mail::AppendRep { to, peer, term, resp, prev, count }) => {
            let matched = prev as int + count as int;
            let out = transition::on_append_reply(s, me, peer, term, resp, matched);
            assert(c.nodes.insert(i, s) =~= c.nodes);
            if term != s.current_term || s.role != Role::Leader {
                lemma_lands(cfg, c, h, i, cause, out);
                h
            } else if resp.term > s.current_term {
                lemma_adopts(cfg, h, i, s, resp.term);
                lemma_change(cfg, c, h, i, out.0);
                lemma_lands(cfg, c, h, i, cause, out);
                h
            } else if resp.success {
                let t = transition::record_match(s, peer, matched);
                assert(node_ok(cfg, h, i, t)) by {
                    assert(confirmed_to(h, peer, term) <= s.log.len()) by {
                        if confirmed_to(h, peer, term) > 0 {
                        }
                    }
                    assert forall|p: NodeId| cfg.has(p) && p != i implies 1
                        <= #[trigger] transition::next_for(t, p) <= s.log.len() + 1 by {
                        if p != peer {
                            assert(transition::next_for(s, p) == transition::next_for(t, p));
                        } else {
                            assert(1 <= transition::next_for(s, p) <= s.log.len() + 1);
                        }
                    }
                    assert forall|p: NodeId| cfg.has(p) && p != i implies #[trigger] transition::match_for(
                        t,
                        p,
                    ) <= confirmed_to(h, p, s.current_term) by {
                        if p != peer {
                            assert(transition::match_for(s, p) == transition::match_for(t, p));
                        } else {
                            assert(transition::match_for(s, p) <= confirmed_to(
                                h,
                                p,
                                s.current_term,
                            ));
                        }
                    }
                }
                lemma_change(cfg, c, h, i, t);
                let d = with_node(c, i, t);
                lemma_log_facts(t, t.current_term);
                let k = transition::commit_point(
                    t,
                    i,
                    t.commit_index as int,
                    t.last_log_index() as int,
                );
                lemma_commit_point(t, i, t.commit_index as int, t.last_log_index() as int);
                if k > t.commit_index {
                    let u = RaftView { commit_index: k as u64, ..t };
                    let v = out.0;
                    lemma_commits_chosen(cfg, h, i, t, k as nat);
                    let g = with_commit(h, t.current_term, k as nat);
                    lemma_commits(cfg, d, h, i, t.current_term, k as nat);
                    assert(d.nodes.contains_key(i));
                    assert(node_ok(cfg, g, i, t));
                    assert(committed(g, v.log, k, v.current_term)) by {
                        assert(g.commits.contains((t.current_term, k as nat)));
                        assert(g.lead_log[t.current_term] == t.log);
                    }
                    assert(node_ok(cfg, g, i, v)) by {
                        assert forall|p: NodeId| cfg.has(p) && p != i implies 1
                            <= #[trigger] transition::next_for(v, p) <= s.log.len() + 1 by {
                            assert(transition::next_for(t, p) == transition::next_for(v, p));
                        }
                        assert forall|p: NodeId| cfg.has(p) && p != i implies #[trigger] transition::match_for(
                            v,
                            p,
                        ) <= confirmed_to(g, p, s.current_term) by {
                            assert(transition::match_for(t, p) == transition::match_for(v, p));
                        }
                    }
                    lemma_change(cfg, d, g, i, v);
                    assert(with_node(d, i, v) =~= with_node(c, i, v));
                    lemma_applying_sends_nothing(cfg, g, i, cause, transition::unapplied(u));
                    lemma_acts_joined(
                        cfg,
                        g,
                        i,
                        cause,
                        transition::apply_commands(transition::unapplied(u)),
                        transition::finish_change(v),
                    );
                    lemma_lands(cfg, c, g, i, cause, out);
                    g
                } else {
                    lemma_lands(cfg, c, h, i, cause, out);
                    h
                }
            } else {
                let next = transition::next_for(s, peer);
                if next > 1 {
                    let t = out.0;
                    assert(node_ok(cfg, h, i, t)) by {
                        assert forall|p: NodeId| cfg.has(p) && p != i implies 1
                            <= #[trigger] transition::next_for(t, p) <= s.log.len() + 1 by {
                            assert(1 <= transition::next_for(s, p) <= s.log.len() + 1);
                        }
                        assert forall|p: NodeId| cfg.has(p) && p != i implies #[trigger] transition::match_for(
                            t,
                            p,
                        ) <= confirmed_to(h, p, s.current_term) by {
                            assert(transition::match_for(s, p) == transition::match_for(t, p));
                        }
                    }
                    lemma_change(cfg, c, h, i, t);
                    lemma_replicates(cfg, h, me, cause, t, peer);
                    let sent = seq![transition::replicate_to(t, me, peer)];
                    lemma_acts_joined(cfg, h, i, cause, sent, transition::finish_change(t));
                    lemma_lands(cfg, c, h, i, cause, out);
                    h
                } else {
                    lemma_lands(cfg, c, h, i, cause, out);
                    h
                }
            }
        },
        _ => h,
    }
}

proof fn lemma_proposed(
    cfg: ConfigView,
    c: Cluster,
    h: History,
    me: Me,
    data: Seq<u8>,
) -> (g: History)
    requires
        cfg is Stable,
        inv(cfg, c, h),
        c.nodes.contains_key(me.id),
        data.len() <= u64::MAX,
        transition::in_range(
            c.nodes[me.id],
            me,
            transition::EventView::Propose { data },
            false,
        ),
    ensures
        inv(
            cfg,
            after(
                c,
                me.id,
                Cause::Propose(data),
                transition::on_propose(c.nodes[me.id], me, data),
            ),
            g,
        ),
        extends(h, g),
{
    reveal(transition::on_propose);
    let i = me.id;
    let s = c.nodes[i];
    let cause = Cause::Propose(data);
    let out = transition::on_propose(s, me, data);
    assert(node_ok(cfg, h, i, s));
    lemma_nothing_new(cfg, c.nodes, h, i);
    lemma_log_facts(s, s.current_term);
    if s.role != Role::Leader {
        assert(c.nodes.insert(i, s) =~= c.nodes);
        lemma_lands(cfg, c, h, i, cause, out);
        h
    } else {
        let t0 = s.current_term;
        let t = out.0;
        let payload = PayloadView::Command(data);
        let e = transition::own_entry(s, payload);
        wire::lemma_payload_round_trip(payload);
        assert(plain(e));
        assert(leader_ok(cfg, c.nodes, h, t0));
        assert(t0 >= 1) by {
            assert(h.votes.contains_key((i, t0)));
            assert(vote_ok(c.nodes, h, i, t0));
        }
        assert(log_wf(t.log, t0)) by {
            assert forall|k: int| 0 <= k < t.log.len() implies (#[trigger] t.log[k]).index == k + 1
                && 1 <= t.log[k].term <= t0 && plain(t.log[k]) by {
                if k < s.log.len() {
                    assert(t.log[k] == s.log[k]);
                }
            }
            assert forall|a: int, b: int| 0 <= a < b < t.log.len() implies (#[trigger] t.log[a]).term
                <= (#[trigger] t.log[b]).term by {
                assert(t.log[a] == s.log[a]);
                if b < s.log.len() {
                    assert(t.log[b] == s.log[b]);
                }
            }
        }
        let g = with_log(h, t0, t.log);
        let n = s.log.len() as int;
        assert forall|x: NodeId, u: u64| #[trigger] confirmed_to(h, x, u) == confirmed_to(g, x, u) by {}
        assert(extends(h, g)) by {
            assert forall|u: u64| #[trigger] h.lead_log.contains_key(u) implies g.lead_log.contains_key(
                u,
            ) && agree(g.lead_log[u], h.lead_log[u], h.lead_log[u].len() as int) by {
                if u == t0 {
                    assert(t.log.take(n) =~= s.log.take(n));
                }
            }
        }
        assert(rooted(g, t.log)) by {
            assert forall|p: int| 0 <= p < t.log.len() implies is_rooted(
                g,
                t.log,
                p,
                (#[trigger] t.log[p]).term,
            ) by {
                if p < n {
                    assert(t.log[p] == s.log[p]);
                    let u = s.log[p].term;
                    assert(is_rooted(h, s.log, p, u));
                    if u != t0 {
                        assert(t.log.take(p + 1) =~= s.log.take(p + 1));
                    }
                }
            }
        }
        assert(node_ok(cfg, g, i, t)) by {
            assert(h.votes.contains_key((i, t0)));
            assert forall|x: u64| #[trigger] confirmed_to(g, i, x) > 0 implies x <= t0 by {
                assert(confirmed_to(h, i, x) > 0);
            }
            assert forall|p: NodeId| cfg.has(p) && p != i implies 1 <= #[trigger] transition::next_for(
                t,
                p,
            ) <= t.log.len() + 1 by {
                assert(transition::next_for(s, p) == transition::next_for(t, p));
            }
            assert forall|p: NodeId| cfg.has(p) && p != i implies #[trigger] transition::match_for(
                t,
                p,
            ) <= confirmed_to(g, p, t0) by {
                assert(transition::match_for(s, p) == transition::match_for(t, p));
            }
            if s.commit_index > 0 {
                let k = s.commit_index as int;
                lemma_committed_grows(h, g, s.log, k, t0, t0);
                let (a, b) = choose|a: u64, b: nat| #[trigger]
                    g.commits.contains((a, b)) && k <= b && a <= t0 && agree(
                        s.log,
                        g.lead_log[a],
                        k,
                    );
                assert(t.log.take(k) =~= s.log.take(k));
                assert(agree(t.log, g.lead_log[a], k));
                assert(g.commits.contains((a, b)));
            }
        }
        lemma_appends(cfg, c, h, i, t, e);
        lemma_broadcast_ok(cfg, g, me, cause, t);
        let first = seq![
            ActionView::Persist(persist::entry_records(e)),
            ActionView::ReplyPropose(Ok(e.index)),
        ];
        lemma_acts_joined(cfg, g, i, cause, first, transition::broadcast(t, me));
        lemma_lands(cfg, c, g, i, cause, out);
        g
    }
}

// ----------------------------------------------------------------------
// Runs
// ----------------------------------------------------------------------
/// What holds goes on to hold, whatever happens.
pub(crate) proof fn lemma_step(cfg: ConfigView, c: Cluster, h: History, d: Cluster) -> (g: History)
    requires
        cfg is Stable,
        inv(cfg, c, h),
        cluster::follows(c, d),
    ensures
        inv(cfg, d, g),
        extends(h, g),
{
    if exists|i: NodeId| #[trigger] cluster::restarts(c, i, d) {
        let i = choose|i: NodeId| #[trigger] cluster::restarts(c, i, d);
        let s = c.nodes[i];
        let t = d.nodes[i];
        assert(node_ok(cfg, h, i, s));
        if t.commit_index > 0 {
            let (u, k) = choose|u: u64, k: nat| #[trigger]
                h.commits.contains((u, k)) && s.commit_index <= k && u <= s.current_term && agree(
                    s.log,
                    h.lead_log[u],
                    s.commit_index as int,
                );
            lemma_agree_less(s.log, h.lead_log[u], s.commit_index as int, t.commit_index as int);
            assert(committed(h, t.log, t.commit_index as int, t.current_term));
        }
        lemma_nothing_new(cfg, c.nodes, h, i);
        lemma_change(cfg, c, h, i, t);
        assert(d =~= with_node(c, i, d.nodes[i]));
        h
    } else {
        let (i, me, cause, timeout) = choose|i: NodeId, me: Me, cause: Cause, timeout: u64|
            #[trigger] cluster::steps(c, i, me, cause, timeout, d);
        let out = transition::step(c.nodes[i], me, cluster::event_of(cause), timeout, false);
        assert(d =~= after(c, i, cause, out));
        match cause {
            Cause::Tick => lemma_tick(cfg, c, h, me, timeout),
            Cause::Propose(data) => lemma_proposed(cfg, c, h, me, data),
            Cause::Deliver(m) => {
                assert(mail_ok(cfg, h, m));
                match m {
                    Mail::VoteReq { to, req } => lemma_vote_asked(cfg, c, h, i, req),
                    Mail::VoteRep { to, peer, term, resp } => lemma_vote_answered(
                        cfg,
                        c,
                        h,
                        me,
                        cause,
                    ),
                    Mail::AppendReq { to, req } => lemma_append_asked(cfg, c, h, i, req),
                    Mail::AppendRep { to, peer, term, resp, prev, count } => lemma_append_answered(
                        cfg,
                        c,
                        h,
                        me,
                        cause,
                    ),
                }
            },
        }
    }
}

/// Nothing has happened yet.
pub open spec fn no_history() -> History {
    History {
        votes: Map::empty(),
        vote_log: Map::empty(),
        stand_log: Map::empty(),
        leaders: Map::empty(),
        lead_log: Map::empty(),
        confirmed: Map::empty(),
        commits: Set::empty(),
    }
}

pub(crate) proof fn lemma_starts(cfg: ConfigView, c: Cluster)
    requires
        cluster::starts(c, cfg),
    ensures
        inv(cfg, c, no_history()),
{
    let h = no_history();
    assert forall|n: NodeId, t: u64| #[trigger] confirmed_to(h, n, t) == 0 by {}
    assert forall|t: u64, k: nat| !#[trigger] own(h, t, k) by {}
    assert forall|n: NodeId| #[trigger] c.nodes.contains_key(n) implies node_ok(
        cfg,
        h,
        n,
        c.nodes[n],
    ) by {
        assert(cluster::is_new(c.nodes[n], cfg));
    }
}

/// What has happened in a run at two times, of which the second is not earlier.
pub(crate) proof fn lemma_run(run: Seq<Cluster>, cfg: ConfigView, a: int, b: int) -> (r: (History, History))
    requires
        cluster::is_run(run, cfg),
        0 <= a <= b < run.len(),
    ensures
        inv(cfg, run[a], r.0),
        inv(cfg, run[b], r.1),
        extends(r.0, r.1),
    decreases b,
{
    if b == 0 {
        lemma_starts(cfg, run[0]);
        lemma_nothing_new(cfg, run[0].nodes, no_history(), 0);
        (no_history(), no_history())
    } else {
        let k = b - 1;
        assert(cluster::follows(run[k], run[k + 1]));
        if a == b {
            let (x, y) = lemma_run(run, cfg, k, k);
            let g = lemma_step(cfg, run[k], y, run[b]);
            lemma_nothing_new(cfg, run[b].nodes, g, 0);
            (g, g)
        } else {
            let (x, y) = lemma_run(run, cfg, a, k);
            let g = lemma_step(cfg, run[k], y, run[b]);
            lemma_extends_trans(x, y, g);
            (x, g)
        }
    }
}

proof fn lemma_one_leader_in_order(
    run: Seq<Cluster>,
    cfg: ConfigView,
    a: int,
    b: int,
    n: NodeId,
    m: NodeId,
    term: u64,
)
    requires
        cluster::is_run(run, cfg),
        0 <= a <= b < run.len(),
        cluster::leads(run[a], n, term),
        cluster::leads(run[b], m, term),
    ensures
        n == m,
{
    let (h, g) = lemma_run(run, cfg, a, b);
    assert(node_ok(cfg, h, n, run[a].nodes[n]));
    assert(node_ok(cfg, g, m, run[b].nodes[m]));
    assert(h.leaders.contains_key(term));
}

/// No two replicas ever lead in the same term, at whatever times.
pub proof fn lemma_one_leader_a_term(
    run: Seq<Cluster>,
    cfg: ConfigView,
    a: int,
    b: int,
    n: NodeId,
    m: NodeId,
    term: u64,
)
    requires
        cluster::is_run(run, cfg),
        0 <= a < run.len(),
        0 <= b < run.len(),
        cluster::leads(run[a], n, term),
        cluster::leads(run[b], m, term),
    ensures
        n == m,
{
    if a <= b {
        lemma_one_leader_in_order(run, cfg, a, b, n, m, term);
    } else {
        lemma_one_leader_in_order(run, cfg, b, a, m, n, term);
    }
}

/// Where the logs of two replicas hold entries of the same term at the same index,
/// they are the same up to it.
pub proof fn lemma_logs_match(
    run: Seq<Cluster>,
    cfg: ConfigView,
    at: int,
    n: NodeId,
    m: NodeId,
    index: int,
)
    requires
        cluster::is_run(run, cfg),
        0 <= at < run.len(),
        run[at].nodes.contains_key(n),
        run[at].nodes.contains_key(m),
        1 <= index <= run[at].nodes[n].log.len(),
        index <= run[at].nodes[m].log.len(),
        run[at].nodes[n].log[index - 1].term == run[at].nodes[m].log[index - 1].term,
    ensures
        run[at].nodes[n].log.take(index) == run[at].nodes[m].log.take(index),
{
    let (h, g) = lemma_run(run, cfg, at, at);
    assert(node_ok(cfg, h, n, run[at].nodes[n]));
    assert(node_ok(cfg, h, m, run[at].nodes[m]));
    lemma_same_term(h, run[at].nodes[n].log, run[at].nodes[m].log, index - 1);
}

/// A leader has every entry that some replica knew to be committed in an earlier
/// term or in its own, at the same place.
pub proof fn lemma_leaders_are_complete(
    run: Seq<Cluster>,
    cfg: ConfigView,
    a: int,
    b: int,
    n: NodeId,
    m: NodeId,
    term: u64,
)
    requires
        cluster::is_run(run, cfg),
        0 <= a <= b < run.len(),
        run[a].nodes.contains_key(n),
        run[a].nodes[n].current_term <= term,
        cluster::leads(run[b], m, term),
    ensures
        run[a].nodes[n].commit_index <= run[a].nodes[n].log.len(),
        run[a].nodes[n].commit_index <= run[b].nodes[m].log.len(),
        run[b].nodes[m].log.take(run[a].nodes[n].commit_index as int)
            == run[a].nodes[n].log.take(run[a].nodes[n].commit_index as int),
{
    let (h, g) = lemma_run(run, cfg, a, b);
    let s = run[a].nodes[n];
    let l = run[b].nodes[m];
    assert(node_ok(cfg, h, n, s));
    assert(node_ok(cfg, g, m, l));
    let k = s.commit_index as int;
    if k > 0 {
        lemma_committed_grows(h, g, s.log, k, s.current_term, term);
        lemma_leader_has_committed(cfg, run[b], g, s.log, k, term);
    } else {
        assert(l.log.take(0) =~= s.log.take(0));
    }
}

/// Of two places up to which logs were committed, the earlier leader's agree with
/// the later leader's.
pub(crate) proof fn lemma_commits_agree(
    cfg: ConfigView,
    c: Cluster,
    h: History,
    a: Seq<EntryView>,
    b: Seq<EntryView>,
    j: int,
    k: int,
    x: u64,
    y: u64,
)
    requires
        inv(cfg, c, h),
        committed(h, a, j, x),
        committed(h, b, k, y),
        j <= k,
    ensures
        agree(a, b, j),
{
    let (t, p) = choose|t: u64, p: nat| #[trigger]
        h.commits.contains((t, p)) && j <= p && t <= x && agree(a, h.lead_log[t], j);
    let (u, q) = choose|u: u64, q: nat| #[trigger]
        h.commits.contains((u, q)) && k <= q && u <= y && agree(b, h.lead_log[u], k);
    assert(own(h, t, p) && chosen(cfg, h, t, p));
    assert(own(h, u, q) && chosen(cfg, h, u, q));
    lemma_chosen_is_open(cfg, c.nodes, h, t, p);
    lemma_chosen_is_open(cfg, c.nodes, h, u, q);
    lemma_agree_less(b, h.lead_log[u], k, j);
    assert(agree(h.lead_log[t], h.lead_log[u], j)) by {
        assert(h.lead_log.contains_key(t) && h.lead_log.contains_key(u));
        if t < u {
            assert(agree(h.lead_log[u], h.lead_log[t], p as int));
            lemma_agree_less(h.lead_log[u], h.lead_log[t], p as int, j);
        } else if u < t {
            assert(agree(h.lead_log[t], h.lead_log[u], q as int));
            lemma_agree_less(h.lead_log[t], h.lead_log[u], q as int, j);
        }
    }
    lemma_agree_trans(a, h.lead_log[t], h.lead_log[u], j);
    lemma_agree_trans(a, h.lead_log[u], b, j);
}

proof fn lemma_applied_in_order(
    run: Seq<Cluster>,
    cfg: ConfigView,
    a: int,
    b: int,
    n: NodeId,
    m: NodeId,
    index: int,
    e: EntryView,
    f: EntryView,
)
    requires
        cluster::is_run(run, cfg),
        0 <= a <= b < run.len(),
        cluster::has_applied(run[a], n, index, e),
        cluster::has_applied(run[b], m, index, f),
    ensures
        e == f,
{
    let (h, g) = lemma_run(run, cfg, a, b);
    let s = run[a].nodes[n];
    let l = run[b].nodes[m];
    assert(node_ok(cfg, h, n, s));
    assert(node_ok(cfg, g, m, l));
    let j = s.commit_index as int;
    let k = l.commit_index as int;
    lemma_committed_grows(h, g, s.log, j, s.current_term, s.current_term);
    if j <= k {
        lemma_commits_agree(cfg, run[b], g, s.log, l.log, j, k, s.current_term, l.current_term);
        lemma_agree_at(s.log, l.log, j, index - 1);
    } else {
        lemma_commits_agree(cfg, run[b], g, l.log, s.log, k, j, l.current_term, s.current_term);
        lemma_agree_at(l.log, s.log, k, index - 1);
    }
}

/// No two replicas ever apply different entries at the same index, at whatever
/// times.
pub proof fn lemma_same_entries_applied(
    run: Seq<Cluster>,
    cfg: ConfigView,
    a: int,
    b: int,
    n: NodeId,
    m: NodeId,
    index: int,
    e: EntryView,
    f: EntryView,
)
    requires
        cluster::is_run(run, cfg),
        0 <= a < run.len(),
        0 <= b < run.len(),
        cluster::has_applied(run[a], n, index, e),
        cluster::has_applied(run[b], m, index, f),
    ensures
        e == f,
{
    if a <= b {
        lemma_applied_in_order(run, cfg, a, b, n, m, index, e, f);
    } else {
        lemma_applied_in_order(run, cfg, b, a, m, n, index, f, e);
    }
}

} // verus!
