//! The laws of a group whose replicas take snapshots.
//!
//! A replica that has taken snapshots goes on as if it still had its whole log: what
//! it lacks was committed, and every later leader has it. The membership does not
//! change, and no snapshot is taken over from another replica.
use crate::consensus::cluster;
use crate::consensus::cluster::{Cause, Cluster, Mail};
use crate::consensus::config::ConfigView;
use crate::consensus::messages::{
    AppendEntriesResp, AppendView, EntryView, NodeId, RequestVoteReq, RequestVoteResp,
};
use crate::consensus::safety;
use crate::consensus::safety::History;
use crate::consensus::state;
use crate::consensus::state::{RaftView, Role};
use crate::consensus::transition;
use crate::consensus::transition::{ActionView, EventView, Me};
use vstd::prelude::*;

verus! {

/// From one state of the group to the next: a replica takes a snapshot.
pub open spec fn saves(c: Cluster, i: NodeId, data: Seq<u8>, d: Cluster) -> bool {
    &&& c.nodes.contains_key(i)
    &&& d.nodes == c.nodes.insert(i, transition::snapshot_step(c.nodes[i], data).0)
    &&& d.mail == c.mail
}

/// Some step leads from one state to the next.
pub open spec fn goes_on(c: Cluster, d: Cluster) -> bool {
    ||| cluster::follows(c, d)
    ||| exists|i: NodeId, data: Seq<u8>| #[trigger] saves(c, i, data, d)
}

/// What a group goes through whose replicas take snapshots: it is started, and then
/// step follows step.
pub open spec fn is_long_run(run: Seq<Cluster>, cfg: ConfigView) -> bool {
    &&& run.len() > 0
    &&& cluster::starts(run[0], cfg)
    &&& forall|k: int| 0 <= k && k + 1 < run.len() ==> #[trigger] goes_on(run[k], run[k + 1])
}

// ----------------------------------------------------------------------
// Whole logs
// ----------------------------------------------------------------------
/// Replica `t` is what `s` is that never took a snapshot, but for the entries that
/// its snapshot covers.
spec fn shrunk(s: RaftView, t: RaftView) -> bool {
    let k = t.last_snapshot_index as int;
    &&& s.last_snapshot_index == 0
    &&& k <= s.last_applied
    &&& k <= s.log.len()
    &&& t.log == s.log.skip(k)
    &&& k > 0 ==> t.last_snapshot_term == s.log[k - 1].term
    &&& t == (RaftView {
        log: t.log,
        last_snapshot_index: t.last_snapshot_index,
        last_snapshot_term: t.last_snapshot_term,
        last_snapshot_data: t.last_snapshot_data,
        ..s
    })
}

/// The indexes of a log count up from one.
spec fn counts(s: RaftView) -> bool {
    &&& s.log.len() <= u64::MAX
    &&& forall|k: int| 0 <= k < s.log.len() ==> (#[trigger] s.log[k]).index == k + 1
}

/// What a replica says of its log, where its snapshot does not cover it.
proof fn lemma_shrunk(s: RaftView, t: RaftView)
    requires
        shrunk(s, t),
        counts(s),
    ensures
        t.last_log_index() == s.last_log_index(),
        s.last_log_index() == s.log.len(),
        t.last_log_term() == s.last_log_term(),
        forall|i: int| i >= t.last_snapshot_index ==> #[trigger] t.term_at(i) == s.term_at(i),
        forall|lo: int, hi: int|
            lo > t.last_snapshot_index ==> #[trigger] t.entries_between(lo, hi)
                == s.entries_between(lo, hi),
        t.last_snapshot_index + t.log.len() == s.log.len(),
{
    let k = t.last_snapshot_index as int;
    if s.log.len() > 0 {
        assert(s.log.last().index == s.log.len());
        if t.log.len() > 0 {
            assert(t.log.last() == s.log.last());
        }
    }
    assert forall|i: int| i >= k implies #[trigger] t.term_at(i) == s.term_at(i) by {
        let pos = i - k - 1;
        if 0 <= pos < t.log.len() {
            assert(t.log[pos] == s.log[i - 1]);
        }
        if i == k && k > 0 {
            assert(s.entry_at(k) == Some(s.log[k - 1]));
        }
    }
    assert forall|lo: int, hi: int| lo > k implies #[trigger] t.entries_between(lo, hi)
        == s.entries_between(lo, hi) by {
        assert(t.entries_between(lo, hi) =~= s.entries_between(lo, hi));
    }
}

/// The action sends a message of the kind that arrives.
spec fn sends(a: ActionView) -> bool {
    a is SendRequestVote || a is SendAppendEntries || a is ReplyRequestVote
        || a is ReplyAppendEntries
}

/// What the second does not send the first one does not send either.
spec fn sends_no_more(few: Seq<ActionView>, many: Seq<ActionView>) -> bool {
    forall|a: ActionView| few.contains(a) && sends(a) ==> #[trigger] many.contains(a)
}

proof fn lemma_mail_sent(mail: Set<Mail>, i: NodeId, c: Cause, acts: Seq<ActionView>, m: Mail)
    ensures
        cluster::with_mail(mail, i, c, acts).contains(m) <==> mail.contains(m) || exists|
            a: ActionView,
        | #[trigger]
            acts.contains(a) && cluster::mail_of(i, c, a) == Some(m),
    decreases acts.len(),
{
    if acts.len() > 0 {
        let front = acts.drop_last();
        lemma_mail_sent(mail, i, c, front, m);
        let last = acts.last();
        assert(acts.contains(last)) by {
            assert(acts[acts.len() - 1] == last);
        }
        assert forall|a: ActionView| #[trigger] front.contains(a) implies acts.contains(a) by {
            let j = choose|j: int| 0 <= j < front.len() && front[j] == a;
            assert(acts[j] == a);
        }
        assert forall|a: ActionView| #[trigger] acts.contains(a) implies a == last
            || front.contains(a) by {
            let j = choose|j: int| 0 <= j < acts.len() && acts[j] == a;
            if j < front.len() {
                assert(front[j] == a);
            }
        }
    }
}

proof fn lemma_less_mail(
    few: Set<Mail>,
    many: Set<Mail>,
    i: NodeId,
    c: Cause,
    a: Seq<ActionView>,
    b: Seq<ActionView>,
)
    requires
        few.subset_of(many),
        sends_no_more(a, b),
    ensures
        cluster::with_mail(few, i, c, a).subset_of(cluster::with_mail(many, i, c, b)),
{
    assert forall|m: Mail| #[trigger] cluster::with_mail(few, i, c, a).contains(m) implies
        cluster::with_mail(many, i, c, b).contains(m) by {
        lemma_mail_sent(few, i, c, a, m);
        lemma_mail_sent(many, i, c, b, m);
        if !few.contains(m) {
            let x = choose|x: ActionView| #[trigger]
                a.contains(x) && cluster::mail_of(i, c, x) == Some(m);
            assert(sends(x));
            assert(b.contains(x));
        }
    }
}

proof fn lemma_joined(
    a: Seq<ActionView>,
    b: Seq<ActionView>,
    c: Seq<ActionView>,
    d: Seq<ActionView>,
)
    requires
        sends_no_more(a, c),
        sends_no_more(b, d),
    ensures
        sends_no_more(a + b, c + d),
{
    assert forall|x: ActionView| (a + b).contains(x) && sends(x) implies #[trigger] (c
        + d).contains(x) by {
        let j = choose|j: int| 0 <= j < (a + b).len() && (a + b)[j] == x;
        if j < a.len() {
            assert(a[j] == x);
            assert(a.contains(x) && c.contains(x));
            let p = choose|p: int| 0 <= p < c.len() && c[p] == x;
            assert((c + d)[p] == x);
        } else {
            assert(b[j - a.len()] == x);
            assert(b.contains(x) && d.contains(x));
            let p = choose|p: int| 0 <= p < d.len() && d[p] == x;
            assert((c + d)[c.len() + p] == x);
        }
    }
}

proof fn lemma_sends_as_much(a: Seq<ActionView>)
    ensures
        sends_no_more(a, a),
{
}

/// What sends nothing sends no more than anything.
proof fn lemma_sends_nothing(a: Seq<ActionView>, b: Seq<ActionView>)
    requires
        forall|k: int| 0 <= k < a.len() ==> !sends(#[trigger] a[k]),
    ensures
        sends_no_more(a, b),
{
}

proof fn lemma_replicates(s: RaftView, t: RaftView, me: Me, nodes: Seq<NodeId>)
    requires
        shrunk(s, t),
        counts(s),
    ensures
        sends_no_more(
            transition::replicate_to_all(t, me, nodes),
            transition::replicate_to_all(s, me, nodes),
        ),
    decreases nodes.len(),
{
    if nodes.len() > 0 {
        let n = nodes.last();
        let front = nodes.drop_last();
        lemma_replicates(s, t, me, front);
        lemma_shrunk(s, t);
        if n != me.id {
            let a = transition::replicate_to_all(t, me, front);
            let c = transition::replicate_to_all(s, me, front);
            let x = transition::replicate_to(t, me, n);
            let y = transition::replicate_to(s, me, n);
            assert(transition::next_for(t, n) == transition::next_for(s, n));
            assert(sends(x) ==> x == y);
            assert(a.push(x) =~= a + seq![x]);
            assert(c.push(y) =~= c + seq![y]);
            assert(sends_no_more(seq![x], seq![y])) by {
                assert(seq![y][0] == y);
                assert forall|z: ActionView| seq![x].contains(z) && sends(z) implies #[trigger] seq![
                    y,
                ].contains(z) by {
                    assert(z == x);
                }
            }
            lemma_joined(a, seq![x], c, seq![y]);
        }
    }
}

proof fn lemma_asks(s: RaftView, t: RaftView, me: Me, nodes: Seq<NodeId>)
    requires
        shrunk(s, t),
        counts(s),
    ensures
        transition::ask_all(t, me, nodes) == transition::ask_all(s, me, nodes),
    decreases nodes.len(),
{
    if nodes.len() > 0 {
        lemma_asks(s, t, me, nodes.drop_last());
        lemma_shrunk(s, t);
    }
}

/// A replica with a snapshot does what it would do without.
spec fn does_the_same(a: transition::Outcome, b: transition::Outcome) -> bool {
    shrunk(a.0, b.0) && sends_no_more(b.1, a.1)
}

proof fn lemma_tick(s: RaftView, t: RaftView, me: Me, timeout: u64)
    requires
        shrunk(s, t),
        counts(s),
    ensures
        does_the_same(transition::on_tick(s, me, timeout), transition::on_tick(t, me, timeout)),
{
    reveal(transition::on_tick);
    lemma_shrunk(s, t);
    let a = transition::on_tick(s, me, timeout);
    let b = transition::on_tick(t, me, timeout);
    assert(shrunk(a.0, b.0));
    lemma_replicates(a.0, b.0, me, s.config.all_nodes());
    lemma_asks(a.0, b.0, me, s.config.all_nodes());
    let p = seq![transition::persist_vote(transition::candidacy(s, me, timeout))];
    let q = seq![transition::persist_vote(transition::candidacy(t, me, timeout))];
    assert(p == q);
    lemma_sends_as_much(p);
    lemma_joined(
        q,
        transition::broadcast(b.0, me),
        p,
        transition::broadcast(a.0, me),
    );
}

proof fn lemma_vote(s: RaftView, t: RaftView, req: RequestVoteReq)
    requires
        shrunk(s, t),
        counts(s),
    ensures
        does_the_same(transition::on_request_vote(s, req), transition::on_request_vote(t, req)),
{
    reveal(transition::on_request_vote);
    lemma_shrunk(s, t);
    let x = transition::adopt_term(s, req.term);
    let y = transition::adopt_term(t, req.term);
    lemma_shrunk(x, y);
    let a = transition::on_request_vote(s, req);
    let b = transition::on_request_vote(t, req);
    assert(shrunk(a.0, b.0));
    assert(a.1 =~= b.1);
}

proof fn lemma_voted(
    s: RaftView,
    t: RaftView,
    me: Me,
    peer: NodeId,
    term: u64,
    resp: RequestVoteResp,
)
    requires
        shrunk(s, t),
        counts(s),
    ensures
        does_the_same(
            transition::on_vote_reply(s, me, peer, term, resp),
            transition::on_vote_reply(t, me, peer, term, resp),
        ),
{
    reveal(transition::on_vote_reply);
    lemma_shrunk(s, t);
    let a = transition::on_vote_reply(s, me, peer, term, resp);
    let b = transition::on_vote_reply(t, me, peer, term, resp);
    assert(shrunk(a.0, b.0));
    lemma_replicates(a.0, b.0, me, s.config.all_nodes());
    if a.1.len() > 0 && resp.term > s.current_term {
        assert(a.1 =~= b.1);
    }
}

proof fn lemma_proposed(s: RaftView, t: RaftView, me: Me, data: Seq<u8>)
    requires
        shrunk(s, t),
        counts(s),
        s.role == Role::Leader ==> s.log.len() < u64::MAX,
    ensures
        does_the_same(transition::on_propose(s, me, data), transition::on_propose(t, me, data)),
{
    reveal(transition::on_propose);
    lemma_shrunk(s, t);
    let a = transition::on_propose(s, me, data);
    let b = transition::on_propose(t, me, data);
    if s.role == Role::Leader {
        assert(b.0.log =~= a.0.log.skip(t.last_snapshot_index as int));
        assert(shrunk(a.0, b.0));
        assert(counts(a.0));
        lemma_replicates(a.0, b.0, me, s.config.all_nodes());
        let p = a.1.take(2);
        let q = b.1.take(2);
        assert(p =~= q);
        assert(a.1 =~= p + transition::broadcast(a.0, me));
        assert(b.1 =~= q + transition::broadcast(b.0, me));
        lemma_joined(q, transition::broadcast(b.0, me), p, transition::broadcast(a.0, me));
    }
}

proof fn lemma_same_commit_point(s: RaftView, t: RaftView, id: NodeId, from: int, to: int)
    requires
        shrunk(s, t),
        counts(s),
        from >= t.last_snapshot_index,
    ensures
        transition::commit_point(s, id, from, to) == transition::commit_point(t, id, from, to),
    decreases to - from,
{
    lemma_shrunk(s, t);
    if to > from {
        lemma_same_commit_point(s, t, id, from, to - 1);
    }
}

proof fn lemma_commands_are_not_sent(entries: Seq<EntryView>)
    ensures
        forall|k: int|
            0 <= k < transition::apply_commands(entries).len() ==> !sends(
                #[trigger] transition::apply_commands(entries)[k],
            ),
    decreases entries.len(),
{
    if entries.len() > 0 {
        let front = transition::apply_commands(entries.drop_last());
        let all = transition::apply_commands(entries);
        lemma_commands_are_not_sent(entries.drop_last());
        assert forall|k: int| 0 <= k < all.len() implies !sends(#[trigger] all[k]) by {
            if k < front.len() {
                assert(all[k] == front[k]);
            }
        }
    }
}

proof fn lemma_answered(
    s: RaftView,
    t: RaftView,
    me: Me,
    peer: NodeId,
    term: u64,
    resp: AppendEntriesResp,
    matched: int,
)
    requires
        shrunk(s, t),
        counts(s),
        s.last_applied <= s.commit_index,
    ensures
        does_the_same(
            transition::on_append_reply(s, me, peer, term, resp, matched),
            transition::on_append_reply(t, me, peer, term, resp, matched),
        ),
{
    reveal(transition::on_append_reply);
    lemma_shrunk(s, t);
    let a = transition::on_append_reply(s, me, peer, term, resp, matched);
    let b = transition::on_append_reply(t, me, peer, term, resp, matched);
    if term != s.current_term || s.role != Role::Leader {
    } else if resp.term > s.current_term {
        assert(a.1 =~= b.1);
    } else if resp.success {
        let x = transition::record_match(s, peer, matched);
        let y = transition::record_match(t, peer, matched);
        assert(shrunk(x, y) && counts(x));
        lemma_shrunk(x, y);
        lemma_same_commit_point(x, y, me.id, x.commit_index as int, x.last_log_index() as int);
        let c = transition::commit_point(x, me.id, x.commit_index as int, x.last_log_index() as int);
        let u = RaftView { commit_index: c as u64, ..x };
        let v = RaftView { commit_index: c as u64, ..y };
        assert(shrunk(u, v) && counts(u));
        lemma_shrunk(u, v);
        assert(transition::unapplied(u) == transition::unapplied(v));
        lemma_commands_are_not_sent(transition::unapplied(v));
        lemma_sends_nothing(b.1, a.1);
    } else {
        let next = transition::next_for(s, peer);
        if next > 1 {
            assert(shrunk(a.0, b.0) && counts(a.0));
            lemma_shrunk(a.0, b.0);
            let x = transition::replicate_to(a.0, me, peer);
            let y = transition::replicate_to(b.0, me, peer);
            assert(sends(y) ==> x == y);
            assert(a.1[0] == x && b.1[0] == y);
            assert forall|z: ActionView| b.1.contains(z) && sends(z) implies #[trigger] a.1.contains(
                z,
            ) by {
                let j = choose|j: int| 0 <= j < b.1.len() && b.1[j] == z;
                if j > 0 {
                    assert(!sends(z));
                }
            }
        } else {
            lemma_sends_nothing(b.1, a.1);
        }
    }
}

// ----------------------------------------------------------------------
// Entries that arrive
// ----------------------------------------------------------------------
/// The entries that the snapshot covers are those that the replica had.
spec fn known_below(s: RaftView, k: int, entries: Seq<EntryView>) -> bool {
    forall|j: int|
        0 <= j < entries.len() ==> (#[trigger] entries[j]).index >= 1 && entries[j].term >= 1 && (
        entries[j].index <= k ==> entries[j] == s.log[entries[j].index - 1])
}

proof fn lemma_absorbs(s: RaftView, t: RaftView, entries: Seq<EntryView>)
    requires
        shrunk(s, t),
        known_below(s, t.last_snapshot_index as int, entries),
    ensures
        ({
            let a = transition::absorb_all(s, entries);
            let b = transition::absorb_all(t, entries);
            let k = t.last_snapshot_index as int;
            &&& k <= a.log.len()
            &&& a.log.take(k) == s.log.take(k)
            &&& b.log == a.log.skip(k)
            &&& a == (RaftView { log: a.log, ..s })
            &&& b == (RaftView { log: b.log, ..t })
        }),
    decreases entries.len(),
{
    if entries.len() > 0 {
        let front = entries.drop_last();
        let e = entries.last();
        let k = t.last_snapshot_index as int;
        assert(known_below(s, k, front)) by {
            assert forall|j: int| 0 <= j < front.len() implies (#[trigger] front[j]).index >= 1
                && front[j].term >= 1 && (front[j].index <= k ==> front[j] == s.log[front[j].index
                - 1]) by {
                assert(front[j] == entries[j]);
            }
        }
        lemma_absorbs(s, t, front);
        let a = transition::absorb_all(s, front);
        let b = transition::absorb_all(t, front);
        let c = transition::absorb_all(s, entries);
        let d = transition::absorb_all(t, entries);
        assert(entries[entries.len() - 1] == e);
        let i = e.index as int;
        if i <= k {
            assert(a.log.take(k)[i - 1] == s.log.take(k)[i - 1]);
            assert(a.log[i - 1] == e);
            assert(a.term_at(i) == e.term);
            assert(c == a);
            if i == k {
                assert(b.term_at(i) == e.term);
            }
            assert(d == b);
        } else {
            let pos = i - k - 1;
            assert(a.term_at(i) == b.term_at(i)) by {
                if pos < b.log.len() {
                    assert(b.log[pos] == a.log[i - 1]);
                }
            }
            assert(d.log =~= c.log.skip(k));
            assert(c.log.take(k) =~= a.log.take(k));
        }
    }
}

/// The entries are entries of a leader's log, from behind the one that is named on.
spec fn is_part(lead: Seq<EntryView>, req: AppendView) -> bool {
    let prev = req.prev_log_index as int;
    &&& forall|k: int|
        0 <= k < lead.len() ==> (#[trigger] lead[k]).index == k + 1 && lead[k].term >= 1
    &&& prev + req.entries.len() <= lead.len()
    &&& req.entries == lead.subrange(prev, prev + req.entries.len())
    &&& req.prev_log_term == (if prev == 0 {
        0
    } else {
        lead[prev - 1].term
    })
}

proof fn lemma_matches(lead: Seq<EntryView>, u: RaftView, v: RaftView, req: AppendView)
    requires
        shrunk(u, v),
        counts(u),
        is_part(lead, req),
        safety::agree(u.log, lead, v.last_snapshot_index as int),
    ensures
        transition::log_matches(u, req) == transition::log_matches(v, req),
{
    lemma_shrunk(u, v);
    let k = v.last_snapshot_index as int;
    let prev = req.prev_log_index as int;
    if prev < k {
        if prev > 0 {
            safety::lemma_agree_at(u.log, lead, k, prev - 1);
            assert(u.entry_at(prev) == Some(u.log[prev - 1]));
        }
        assert(u.term_at(prev) == req.prev_log_term);
    }
}

proof fn lemma_takes(
    cfg: ConfigView,
    lead: Seq<EntryView>,
    u: RaftView,
    v: RaftView,
    req: AppendView,
)
    requires
        shrunk(u, v),
        is_part(lead, req),
        safety::agree(u.log, lead, v.last_snapshot_index as int),
        u.config == cfg,
        u.snapshot_config == cfg,
        forall|k: int|
            0 <= k < transition::take_entries(u, req.entries).log.len() ==> safety::plain(
                #[trigger] transition::take_entries(u, req.entries).log[k],
            ),
    ensures
        shrunk(
            transition::take_entries(u, req.entries),
            transition::take_entries(v, req.entries),
        ),
        transition::take_entries(u, req.entries).last_applied == u.last_applied,
        transition::take_entries(u, req.entries).commit_index == u.commit_index,
{
    let k = v.last_snapshot_index as int;
    let prev = req.prev_log_index as int;
    let es = req.entries;
    assert(known_below(u, k, es)) by {
        assert forall|j: int| 0 <= j < es.len() implies (#[trigger] es[j]).index >= 1
            && es[j].term >= 1 && (es[j].index <= k ==> es[j] == u.log[es[j].index - 1]) by {
            assert(es[j] == lead[prev + j]);
            if prev + j + 1 <= k {
                safety::lemma_agree_at(u.log, lead, k, prev + j);
            }
        }
    }
    lemma_absorbs(u, v, es);
    let p = transition::absorb_all(u, es);
    let q = transition::absorb_all(v, es);
    let w = transition::take_entries(u, es);
    assert(w.log == p.log);
    assert forall|j: int| 0 <= j < p.log.len() implies safety::plain(#[trigger] p.log[j]) by {
        assert(p.log[j] == w.log[j]);
    }
    assert forall|j: int| 0 <= j < q.log.len() implies safety::plain(#[trigger] q.log[j]) by {
        assert(q.log[j] == w.log[k + j]);
    }
    safety::lemma_plain_config(cfg, p.log);
    safety::lemma_plain_config(cfg, q.log);
    if k > 0 {
        assert(p.log.take(k)[k - 1] == u.log.take(k)[k - 1]);
    }
}

proof fn lemma_learns(w: RaftView, z: RaftView, leader_commit: u64)
    requires
        shrunk(w, z),
        counts(w),
    ensures
        ({
            let f = transition::learn_commit(w, leader_commit);
            let g = transition::learn_commit(z, leader_commit);
            &&& shrunk(f, g)
            &&& counts(f)
            &&& transition::unapplied(f) == transition::unapplied(g)
            &&& w.last_applied <= w.commit_index && leader_commit > w.commit_index ==> shrunk(
                transition::caught_up(f),
                transition::caught_up(g),
            )
        }),
{
    lemma_shrunk(w, z);
    let f = transition::learn_commit(w, leader_commit);
    let g = transition::learn_commit(z, leader_commit);
    assert(shrunk(f, g));
    lemma_shrunk(f, g);
}

/// The replica has what is in front of the entries that arrive, and its snapshot
/// covers nothing that they would change.
proof fn lemma_appended(
    cfg: ConfigView,
    lead: Seq<EntryView>,
    s: RaftView,
    t: RaftView,
    req: AppendView,
)
    requires
        shrunk(s, t),
        counts(s),
        s.config == cfg,
        s.snapshot_config == cfg,
        s.last_applied <= s.commit_index,
        is_part(lead, req),
        req.term >= s.current_term ==> safety::agree(s.log, lead, t.last_snapshot_index as int),
        counts(transition::on_append_entries(s, req).0),
        forall|k: int|
            0 <= k < transition::on_append_entries(s, req).0.log.len() ==> safety::plain(
                #[trigger] transition::on_append_entries(s, req).0.log[k],
            ),
    ensures
        does_the_same(
            transition::on_append_entries(s, req),
            transition::on_append_entries(t, req),
        ),
{
    reveal(transition::on_append_entries);
    lemma_shrunk(s, t);
    let a = transition::on_append_entries(s, req);
    let b = transition::on_append_entries(t, req);
    let x = transition::adopt_term(s, req.term);
    let y = transition::adopt_term(t, req.term);
    assert(shrunk(x, y));
    if req.term < x.current_term {
        assert(a.1 =~= b.1);
    } else {
        let u = transition::follow(x);
        let v = transition::follow(y);
        assert(shrunk(u, v) && counts(u));
        lemma_shrunk(u, v);
        lemma_matches(lead, u, v, req);
        if !transition::log_matches(u, req) {
            assert(a.1 =~= b.1);
        } else {
            let w = transition::take_entries(u, req.entries);
            let z = transition::take_entries(v, req.entries);
            assert(a.0.log == w.log);
            lemma_takes(cfg, lead, u, v, req);
            assert(counts(w));
            lemma_learns(w, z, req.leader_commit);
            assert(shrunk(a.0, b.0));
            lemma_shrunk(a.0, b.0);
            let g = transition::learn_commit(z, req.leader_commit);
            lemma_commands_are_not_sent(transition::unapplied(g));
            assert(a.1.last() == b.1.last());
            assert(a.1[a.1.len() - 1] == a.1.last());
            let records = transition::absorb_all_records(v, req.entries);
            let stepped_down = req.term > t.current_term || t.role == Role::Candidate;
            let first = if records.len() > 0 {
                seq![ActionView::Persist(records)]
            } else {
                Seq::empty()
            };
            let second = transition::persist_vote_if(stepped_down, g);
            let third = if req.leader_commit > z.commit_index {
                transition::apply_commands(transition::unapplied(g))
            } else {
                Seq::empty()
            };
            assert(b.1 =~= first + second + third + seq![b.1.last()]);
            assert forall|r: ActionView| b.1.contains(r) && sends(r) implies #[trigger] a.1.contains(
                r,
            ) by {
                let j = choose|j: int| 0 <= j < b.1.len() && b.1[j] == r;
                if j < first.len() {
                    assert(b.1[j] == first[j]);
                } else if j < first.len() + second.len() {
                    assert(b.1[j] == second[j - first.len()]);
                } else if j < first.len() + second.len() + third.len() {
                    assert(b.1[j] == third[j - first.len() - second.len()]);
                }
                assert(j == b.1.len() - 1);
            }
        }
    }
}

// ----------------------------------------------------------------------
// Groups
// ----------------------------------------------------------------------
/// The second group is what the first one is whose replicas never took snapshots.
spec fn group_shrunk(c: Cluster, d: Cluster) -> bool {
    &&& forall|n: NodeId| #[trigger] d.nodes.contains_key(n) == c.nodes.contains_key(n)
    &&& forall|n: NodeId| #[trigger]
        d.nodes.contains_key(n) ==> shrunk(c.nodes[n], d.nodes[n])
    &&& d.mail.subset_of(c.mail)
}

/// What is known of the log of a replica that never took snapshots.
proof fn lemma_whole(cfg: ConfigView, h: History, n: NodeId, s: RaftView)
    requires
        safety::node_ok(cfg, h, n, s),
    ensures
        counts(s),
        s.last_applied <= s.commit_index <= s.log.len(),
        s.config == cfg,
        s.snapshot_config == cfg,
        forall|k: int| 0 <= k < s.log.len() ==> safety::plain(#[trigger] s.log[k]),
{
}

/// A replica can be told what it could be told if it had its whole log.
proof fn lemma_in_range(s: RaftView, t: RaftView, me: Me, e: EventView)
    requires
        shrunk(s, t),
        counts(s),
        s.last_applied <= s.commit_index,
        transition::in_range(t, me, e, false),
        !(e is InstallSnapshot),
        !(e is InstallSnapshotResponse),
        !(e is ProposeConfigChange),
        !(e is ProposeConfigStable),
    ensures
        transition::in_range(s, me, e, false),
{
    lemma_shrunk(s, t);
}

proof fn lemma_upto_plain(cfg: ConfigView, log: Seq<EntryView>, index: u64)
    requires
        forall|k: int| 0 <= k < log.len() ==> safety::plain(#[trigger] log[k]),
    ensures
        forall|k: int|
            0 <= k < state::entries_upto(log, index).len() ==> safety::plain(
                #[trigger] state::entries_upto(log, index)[k],
            ),
    decreases log.len(),
{
    if log.len() > 0 && log[0].index <= index {
        let rest = log.drop_first();
        assert forall|k: int| 0 <= k < rest.len() implies safety::plain(#[trigger] rest[k]) by {
            assert(rest[k] == log[k + 1]);
        }
        lemma_upto_plain(cfg, rest, index);
        let all = state::entries_upto(log, index);
        let tail = state::entries_upto(rest, index);
        assert forall|k: int| 0 <= k < all.len() implies safety::plain(#[trigger] all[k]) by {
            if k > 0 {
                assert(all[k] == tail[k - 1]);
            }
        }
    }
}

/// A replica that takes a snapshot stays what it is.
proof fn lemma_saved(cfg: ConfigView, h: History, n: NodeId, s: RaftView, t: RaftView, data: Seq<u8>)
    requires
        safety::node_ok(cfg, h, n, s),
        shrunk(s, t),
    ensures
        shrunk(s, transition::snapshot_step(t, data).0),
{
    lemma_whole(cfg, h, n, s);
    lemma_shrunk(s, t);
    let u = transition::snapshot_step(t, data).0;
    if t.last_applied > t.last_snapshot_index {
        let k = t.last_snapshot_index as int;
        let j = t.last_applied as int;
        assert(u.log =~= s.log.skip(j));
        assert(t.log[j - k - 1] == s.log[j - 1]);
        assert forall|i: int| 0 <= i < t.log.len() implies safety::plain(#[trigger] t.log[i]) by {
            assert(t.log[i] == s.log[k + i]);
        }
        lemma_upto_plain(cfg, t.log, t.last_applied);
        safety::lemma_plain_config(cfg, state::entries_upto(t.log, t.last_applied));
    }
}

/// What happens to a replica happens to it as if it had its whole log.
proof fn lemma_event(
    cfg: ConfigView,
    c: Cluster,
    h: History,
    g: History,
    i: NodeId,
    t: RaftView,
    me: Me,
    cause: Cause,
    timeout: u64,
)
    requires
        safety::inv(cfg, c, h),
        c.nodes.contains_key(i),
        shrunk(c.nodes[i], t),
        cluster::can_happen(c, i, cause),
        transition::in_range(t, me, cluster::event_of(cause), false),
        safety::node_ok(
            cfg,
            g,
            i,
            transition::step(c.nodes[i], me, cluster::event_of(cause), timeout, false).0,
        ),
    ensures
        does_the_same(
            transition::step(c.nodes[i], me, cluster::event_of(cause), timeout, false),
            transition::step(t, me, cluster::event_of(cause), timeout, false),
        ),
{
    let s = c.nodes[i];
    assert(safety::node_ok(cfg, h, i, s));
    lemma_whole(cfg, h, i, s);
    lemma_shrunk(s, t);
    lemma_whole(
        cfg,
        g,
        i,
        transition::step(s, me, cluster::event_of(cause), timeout, false).0,
    );
    match cause {
        Cause::Tick => lemma_tick(s, t, me, timeout),
        Cause::Propose(data) => lemma_proposed(s, t, me, data),
        Cause::Deliver(m) => {
            assert(safety::mail_ok(cfg, h, m));
            match m {
                Mail::VoteReq { to, req } => lemma_vote(s, t, req),
                Mail::VoteRep { to, peer, term, resp } => lemma_voted(s, t, me, peer, term, resp),
                Mail::AppendReq { to, req } => {
                    let lead = h.lead_log[req.term];
                    assert(safety::append_ok(h, req));
                    assert(safety::leader_ok(cfg, c.nodes, h, req.term));
                    assert(is_part(lead, req));
                    let k = t.last_snapshot_index as int;
                    if req.term >= s.current_term {
                        if k > 0 {
                            let n = s.commit_index as int;
                            assert(safety::committed(h, s.log, n, s.current_term));
                            safety::lemma_raised(h, s.log, n, s.current_term, req.term);
                            safety::lemma_leader_has_committed(cfg, c, h, s.log, n, req.term);
                            safety::lemma_agree_less(s.log, lead, n, k);
                        } else {
                            assert(s.log.take(0) =~= lead.take(0));
                        }
                    }
                    lemma_appended(cfg, lead, s, t, req);
                },
                Mail::AppendRep { to, peer, term, resp, prev, count } => lemma_answered(
                    s,
                    t,
                    me,
                    peer,
                    term,
                    resp,
                    prev as int + (count as usize) as int,
                ),
            }
        },
    }
}

/// Any step of a group whose replicas take snapshots is a step of the group whose
/// replicas do not, or none.
proof fn lemma_long_step(cfg: ConfigView, c: Cluster, h: History, d: Cluster, f: Cluster) -> (r: (
    Cluster,
    History,
))
    requires
        cfg is Stable,
        safety::inv(cfg, c, h),
        group_shrunk(c, d),
        goes_on(d, f),
    ensures
        safety::inv(cfg, r.0, r.1),
        safety::extends(h, r.1),
        group_shrunk(r.0, f),
{
    if exists|i: NodeId, data: Seq<u8>| #[trigger] saves(d, i, data, f) {
        let (i, data) = choose|i: NodeId, data: Seq<u8>| #[trigger] saves(d, i, data, f);
        assert(d.nodes.contains_key(i) == c.nodes.contains_key(i));
        lemma_saved(cfg, h, i, c.nodes[i], d.nodes[i], data);
        safety::lemma_nothing_new(cfg, c.nodes, h, i);
        (c, h)
    } else if exists|i: NodeId| #[trigger] cluster::restarts(d, i, f) {
        let i = choose|i: NodeId| #[trigger] cluster::restarts(d, i, f);
        assert(d.nodes.contains_key(i) == c.nodes.contains_key(i));
        let s = c.nodes[i];
        assert(safety::node_ok(cfg, h, i, s));
        let u = RaftView {
            log: s.log,
            last_snapshot_index: 0,
            last_snapshot_term: s.last_snapshot_term,
            last_snapshot_data: s.last_snapshot_data,
            ..f.nodes[i]
        };
        let e = Cluster { nodes: c.nodes.insert(i, u), mail: c.mail };
        assert(shrunk(u, f.nodes[i]));
        assert(e.nodes[i] == u);
        assert(cluster::restarts(c, i, e));
        let g = safety::lemma_step(cfg, c, h, e);
        (e, g)
    } else {
        let (i, me, cause, timeout): (NodeId, Me, Cause, u64) = choose|
            i: NodeId,
            me: Me,
            cause: Cause,
            timeout: u64,
        | #[trigger] cluster::steps(d, i, me, cause, timeout, f);
        assert(d.nodes.contains_key(i) == c.nodes.contains_key(i));
        let s = c.nodes[i];
        let t = d.nodes[i];
        assert(safety::node_ok(cfg, h, i, s));
        lemma_whole(cfg, h, i, s);
        let event = cluster::event_of(cause);
        lemma_in_range(s, t, me, event);
        let a = transition::step(s, me, event, timeout, false);
        let b = transition::step(t, me, event, timeout, false);
        let e = Cluster {
            nodes: c.nodes.insert(i, a.0),
            mail: cluster::with_mail(c.mail, i, cause, a.1),
        };
        assert(cluster::steps(c, i, me, cause, timeout, e));
        let g = safety::lemma_step(cfg, c, h, e);
        assert(e.nodes.contains_key(i));
        lemma_event(cfg, c, h, g, i, t, me, cause, timeout);
        lemma_less_mail(d.mail, c.mail, i, cause, b.1, a.1);
        (e, g)
    }
}

/// What has happened in a long run at two times, of which the second is not earlier.
proof fn lemma_long_run(run: Seq<Cluster>, cfg: ConfigView, a: int, b: int) -> (r: (
    (Cluster, History),
    (Cluster, History),
))
    requires
        is_long_run(run, cfg),
        0 <= a <= b < run.len(),
    ensures
        safety::inv(cfg, r.0.0, r.0.1),
        safety::inv(cfg, r.1.0, r.1.1),
        safety::extends(r.0.1, r.1.1),
        group_shrunk(r.0.0, run[a]),
        group_shrunk(r.1.0, run[b]),
    decreases b,
{
    if b == 0 {
        let c = run[0];
        safety::lemma_starts(cfg, c);
        safety::lemma_nothing_new(cfg, c.nodes, safety::no_history(), 0);
        assert forall|n: NodeId| #[trigger] c.nodes.contains_key(n) implies shrunk(
            c.nodes[n],
            c.nodes[n],
        ) by {
            assert(cluster::is_new(c.nodes[n], cfg));
            assert(c.nodes[n].log =~= c.nodes[n].log.skip(0));
        }
        ((c, safety::no_history()), (c, safety::no_history()))
    } else {
        let k = b - 1;
        assert(goes_on(run[k], run[k + 1]));
        if a == b {
            let (x, y) = lemma_long_run(run, cfg, k, k);
            let z = lemma_long_step(cfg, y.0, y.1, run[k], run[b]);
            safety::lemma_nothing_new(cfg, z.0.nodes, z.1, 0);
            (z, z)
        } else {
            let (x, y) = lemma_long_run(run, cfg, a, k);
            let z = lemma_long_step(cfg, y.0, y.1, run[k], run[b]);
            safety::lemma_extends_trans(x.1, y.1, z.1);
            (x, z)
        }
    }
}

// ----------------------------------------------------------------------
// Laws
// ----------------------------------------------------------------------
/// Replica `n` holds this entry at an index.
pub open spec fn holds(c: Cluster, n: NodeId, index: int, e: EntryView) -> bool {
    c.nodes.contains_key(n) && 1 <= index && c.nodes[n].entry_at(index) == Some(e)
}

/// Replica `n` has applied the log up to an index, at which it holds this entry.
pub open spec fn has_applied(c: Cluster, n: NodeId, index: int, e: EntryView) -> bool {
    holds(c, n, index, e) && index <= c.nodes[n].last_applied
}

/// What a replica holds it would hold if it had its whole log.
proof fn lemma_holds(c: Cluster, d: Cluster, n: NodeId, index: int, e: EntryView)
    requires
        group_shrunk(c, d),
        holds(d, n, index, e),
    ensures
        c.nodes.contains_key(n),
        1 <= index <= c.nodes[n].log.len(),
        c.nodes[n].log[index - 1] == e,
{
    assert(d.nodes.contains_key(n) == c.nodes.contains_key(n));
    assert(shrunk(c.nodes[n], d.nodes[n]));
}

/// No two replicas ever lead in the same term, at whatever times, also where replicas
/// take snapshots.
pub proof fn lemma_one_leader_a_term(
    run: Seq<Cluster>,
    cfg: ConfigView,
    a: int,
    b: int,
    n: NodeId,
    m: NodeId,
    term: u64,
)
    requires
        is_long_run(run, cfg),
        0 <= a < run.len(),
        0 <= b < run.len(),
        cluster::leads(run[a], n, term),
        cluster::leads(run[b], m, term),
    ensures
        n == m,
{
    let (first, last, i, j) = if a <= b {
        (a, b, n, m)
    } else {
        (b, a, m, n)
    };
    let (x, y) = lemma_long_run(run, cfg, first, last);
    assert(run[first].nodes.contains_key(i) == x.0.nodes.contains_key(i));
    assert(run[last].nodes.contains_key(j) == y.0.nodes.contains_key(j));
    assert(safety::node_ok(cfg, x.1, i, x.0.nodes[i]));
    assert(safety::node_ok(cfg, y.1, j, y.0.nodes[j]));
    assert(x.1.leaders.contains_key(term));
}

/// Where two replicas hold entries of the same term at the same index, whatever both
/// hold up to it is the same, also where they take snapshots.
pub proof fn lemma_logs_match(
    run: Seq<Cluster>,
    cfg: ConfigView,
    at: int,
    n: NodeId,
    m: NodeId,
    index: int,
    e: EntryView,
    f: EntryView,
    i: int,
    x: EntryView,
    y: EntryView,
)
    requires
        is_long_run(run, cfg),
        0 <= at < run.len(),
        holds(run[at], n, index, e),
        holds(run[at], m, index, f),
        e.term == f.term,
        i <= index,
        holds(run[at], n, i, x),
        holds(run[at], m, i, y),
    ensures
        x == y,
{
    let (p, q) = lemma_long_run(run, cfg, at, at);
    let (c, h) = q;
    lemma_holds(c, run[at], n, index, e);
    lemma_holds(c, run[at], m, index, f);
    lemma_holds(c, run[at], n, i, x);
    lemma_holds(c, run[at], m, i, y);
    assert(safety::node_ok(cfg, h, n, c.nodes[n]));
    assert(safety::node_ok(cfg, h, m, c.nodes[m]));
    safety::lemma_same_term(h, c.nodes[n].log, c.nodes[m].log, index - 1);
    safety::lemma_agree_at(c.nodes[n].log, c.nodes[m].log, index, i - 1);
}

/// What some replica holds and knew to be committed, a leader of that or a later term
/// holds at the same index, or its snapshot covers it.
pub proof fn lemma_leaders_are_complete(
    run: Seq<Cluster>,
    cfg: ConfigView,
    a: int,
    b: int,
    n: NodeId,
    m: NodeId,
    term: u64,
    index: int,
    e: EntryView,
)
    requires
        is_long_run(run, cfg),
        0 <= a <= b < run.len(),
        holds(run[a], n, index, e),
        index <= run[a].nodes[n].commit_index,
        run[a].nodes[n].current_term <= term,
        cluster::leads(run[b], m, term),
    ensures
        index <= run[b].nodes[m].last_snapshot_index || holds(run[b], m, index, e),
{
    let (x, y) = lemma_long_run(run, cfg, a, b);
    lemma_holds(x.0, run[a], n, index, e);
    let s = x.0.nodes[n];
    assert(run[b].nodes.contains_key(m) == y.0.nodes.contains_key(m));
    let l = y.0.nodes[m];
    assert(shrunk(s, run[a].nodes[n]));
    assert(shrunk(l, run[b].nodes[m]));
    assert(safety::node_ok(cfg, x.1, n, s));
    assert(safety::node_ok(cfg, y.1, m, l));
    let k = s.commit_index as int;
    safety::lemma_committed_grows(x.1, y.1, s.log, k, s.current_term, term);
    safety::lemma_leader_has_committed(cfg, y.0, y.1, s.log, k, term);
    safety::lemma_agree_at(s.log, l.log, k, index - 1);
}

/// No two replicas ever apply different entries at the same index, at whatever times,
/// also where they take snapshots.
pub proof fn lemma_same_entries_applied(
    run: Seq<Cluster>,
    cfg: ConfigView,
    a: int,
    b: int,
    n: NodeId,
    m: NodeId,
    index: int,
    e: EntryView,
    f: EntryView,
)
    requires
        is_long_run(run, cfg),
        0 <= a < run.len(),
        0 <= b < run.len(),
        has_applied(run[a], n, index, e),
        has_applied(run[b], m, index, f),
    ensures
        e == f,
{
    if a <= b {
        lemma_applied_in_order(run, cfg, a, b, n, m, index, e, f);
    } else {
        lemma_applied_in_order(run, cfg, b, a, m, n, index, f, e);
    }
}

proof fn lemma_applied_in_order(
    run: Seq<Cluster>,
    cfg: ConfigView,
    a: int,
    b: int,
    n: NodeId,
    m: NodeId,
    index: int,
    e: EntryView,
    f: EntryView,
)
    requires
        is_long_run(run, cfg),
        0 <= a <= b < run.len(),
        has_applied(run[a], n, index, e),
        has_applied(run[b], m, index, f),
    ensures
        e == f,
{
    let (x, y) = lemma_long_run(run, cfg, a, b);
    lemma_holds(x.0, run[a], n, index, e);
    lemma_holds(y.0, run[b], m, index, f);
    let s = x.0.nodes[n];
    let l = y.0.nodes[m];
    assert(shrunk(s, run[a].nodes[n]));
    assert(shrunk(l, run[b].nodes[m]));
    assert(safety::node_ok(cfg, x.1, n, s));
    assert(safety::node_ok(cfg, y.1, m, l));
    let j = s.commit_index as int;
    let k = l.commit_index as int;
    safety::lemma_committed_grows(x.1, y.1, s.log, j, s.current_term, s.current_term);
    if j <= k {
        safety::lemma_commits_agree(cfg, y.0, y.1, s.log, l.log, j, k, s.current_term, l.current_term);
        safety::lemma_agree_at(s.log, l.log, j, index - 1);
    } else {
        safety::lemma_commits_agree(cfg, y.0, y.1, l.log, s.log, k, j, l.current_term, s.current_term);
        safety::lemma_agree_at(l.log, s.log, k, index - 1);
    }
}

} // verus!
