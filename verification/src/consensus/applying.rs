//! What replicas apply: the commands of their logs, each once and in order.
use crate::consensus::cluster;
use crate::consensus::cluster::{Cause, Cluster};
use crate::consensus::config::ConfigView;
use crate::consensus::messages::{EntryView, NodeId, PayloadView};
use crate::consensus::node;
use crate::consensus::safety;
use crate::consensus::state::RaftView;
use crate::consensus::transition;
use crate::consensus::transition::{ActionView, EventView, Me};
use crate::consensus::wire;
use vstd::prelude::*;

verus! {

/// The commands that are applied, in the order of the actions.
pub open spec fn applied_in(acts: Seq<ActionView>) -> Seq<Seq<u8>> {
    acts.filter(|a: ActionView| a is Apply).map_values(|a: ActionView| a->Apply_0)
}

/// The entry holds a command.
pub open spec fn is_command(e: EntryView) -> bool {
    wire::dec_payload(e.data) matches Some(PayloadView::Command(_))
}

/// The commands that entries hold, in the order of the entries.
pub open spec fn commands(entries: Seq<EntryView>) -> Seq<Seq<u8>> {
    entries.filter(|e: EntryView| is_command(e)).map_values(
        |e: EntryView| wire::dec_payload(e.data)->0->Command_0,
    )
}

// ----------------------------------------------------------------------
// Lists
// ----------------------------------------------------------------------
proof fn lemma_applied_push(acts: Seq<ActionView>, a: ActionView)
    ensures
        applied_in(acts.push(a)) == if a is Apply {
            applied_in(acts).push(a->Apply_0)
        } else {
            applied_in(acts)
        },
{
    reveal(Seq::filter);
    assert(acts.push(a).drop_last() =~= acts);
    let pick = |a: ActionView| a is Apply;
    let cmd = |a: ActionView| a->Apply_0;
    if a is Apply {
        assert(acts.filter(pick).push(a).map_values(cmd) =~= acts.filter(pick).map_values(cmd).push(
            a->Apply_0,
        ));
    }
}

proof fn lemma_applied_none(acts: Seq<ActionView>)
    requires
        forall|i: int| 0 <= i < acts.len() ==> !((#[trigger] acts[i]) is Apply),
    ensures
        applied_in(acts) == Seq::<Seq<u8>>::empty(),
    decreases acts.len(),
{
    if acts.len() > 0 {
        let front = acts.drop_last();
        lemma_applied_none(front);
        lemma_applied_push(front, acts.last());
        assert(front.push(acts.last()) =~= acts);
    } else {
        reveal(Seq::filter);
        assert(applied_in(acts) =~= Seq::empty());
    }
}

proof fn lemma_applied_add(a: Seq<ActionView>, b: Seq<ActionView>)
    ensures
        applied_in(a + b) == applied_in(a) + applied_in(b),
    decreases b.len(),
{
    if b.len() > 0 {
        let front = b.drop_last();
        lemma_applied_add(a, front);
        lemma_applied_push(a + front, b.last());
        lemma_applied_push(front, b.last());
        assert((a + front).push(b.last()) =~= a + b);
        assert(front.push(b.last()) =~= b);
        assert(applied_in(a + b) =~= applied_in(a) + applied_in(b));
    } else {
        lemma_applied_none(b);
        assert(a + b =~= a);
        assert(applied_in(a + b) =~= applied_in(a) + applied_in(b));
    }
}

proof fn lemma_commands_push(es: Seq<EntryView>, e: EntryView)
    ensures
        commands(es.push(e)) == if is_command(e) {
            commands(es).push(wire::dec_payload(e.data)->0->Command_0)
        } else {
            commands(es)
        },
{
    reveal(Seq::filter);
    assert(es.push(e).drop_last() =~= es);
    let pick = |e: EntryView| is_command(e);
    let cmd = |e: EntryView| wire::dec_payload(e.data)->0->Command_0;
    if is_command(e) {
        assert(es.filter(pick).push(e).map_values(cmd) =~= es.filter(pick).map_values(cmd).push(
            wire::dec_payload(e.data)->0->Command_0,
        ));
    }
}

proof fn lemma_no_commands()
    ensures
        commands(Seq::empty()) == Seq::<Seq<u8>>::empty(),
{
    reveal(Seq::filter);
    assert(commands(Seq::empty()) =~= Seq::empty());
}

proof fn lemma_commands_add(a: Seq<EntryView>, b: Seq<EntryView>)
    ensures
        commands(a + b) == commands(a) + commands(b),
    decreases b.len(),
{
    if b.len() > 0 {
        let front = b.drop_last();
        lemma_commands_add(a, front);
        lemma_commands_push(a + front, b.last());
        lemma_commands_push(front, b.last());
        assert((a + front).push(b.last()) =~= a + b);
        assert(front.push(b.last()) =~= b);
        assert(commands(a + b) =~= commands(a) + commands(b));
    } else {
        lemma_no_commands();
        assert(b =~= Seq::empty());
        assert(a + b =~= a);
        assert(commands(a + b) =~= commands(a) + commands(b));
    }
}

/// Entries that are applied together are applied in their order: their commands, each
/// once, and nothing else.
pub proof fn lemma_entries_are_applied_in_order(es: Seq<EntryView>)
    ensures
        applied_in(transition::apply_commands(es)) == commands(es),
        applied_in(transition::apply_commands(es)).len() == transition::apply_commands(es).len(),
    decreases es.len(),
{
    if es.len() > 0 {
        let front = es.drop_last();
        lemma_entries_are_applied_in_order(front);
        lemma_commands_push(front, es.last());
        assert(front.push(es.last()) =~= es);
        if is_command(es.last()) {
            lemma_applied_push(
                transition::apply_commands(front),
                ActionView::Apply(wire::dec_payload(es.last().data)->0->Command_0),
            );
        }
    } else {
        lemma_no_commands();
        assert(es =~= Seq::empty());
        lemma_applied_none(transition::apply_commands(es));
    }
}

// ----------------------------------------------------------------------
// One step
// ----------------------------------------------------------------------
proof fn lemma_messages_apply_nothing(s: RaftView, me: Me, nodes: Seq<NodeId>)
    ensures
        applied_in(transition::replicate_to_all(s, me, nodes)) == Seq::<Seq<u8>>::empty(),
        applied_in(transition::ask_all(s, me, nodes)) == Seq::<Seq<u8>>::empty(),
    decreases nodes.len(),
{
    if nodes.len() > 0 {
        let front = nodes.drop_last();
        lemma_messages_apply_nothing(s, me, front);
        lemma_applied_push(
            transition::replicate_to_all(s, me, front),
            transition::replicate_to(s, me, nodes.last()),
        );
        lemma_applied_push(
            transition::ask_all(s, me, front),
            ActionView::SendRequestVote {
                to: nodes.last(),
                req: transition::vote_request(s, me),
            },
        );
    } else {
        lemma_applied_none(transition::replicate_to_all(s, me, nodes));
        lemma_applied_none(transition::ask_all(s, me, nodes));
    }
}

/// The commands of the log from one index to another, the first not counted.
pub open spec fn commands_from_to(t: RaftView, from: int, to: int) -> Seq<Seq<u8>> {
    commands(t.log.subrange(from - t.last_snapshot_index, to - t.last_snapshot_index))
}

/// What a step applies is the commands of the entries from the one behind the last that
/// was applied before up to the last that is applied then.
pub open spec fn applies_what_is_new(s: RaftView, t: RaftView, acts: Seq<ActionView>) -> bool {
    &&& t.last_applied >= s.last_applied
    &&& t.last_applied == s.last_applied ==> applied_in(acts) == Seq::<Seq<u8>>::empty()
    &&& t.last_applied > s.last_applied ==> t.last_applied - t.last_snapshot_index <= t.log.len()
        && applied_in(acts) == commands_from_to(t, s.last_applied as int, t.last_applied as int)
}

proof fn lemma_catching_up(x: RaftView)
    requires
        x.last_snapshot_index <= x.last_applied,
        x.last_snapshot_index + x.log.len() <= u64::MAX,
    ensures
        applies_what_is_new(
            x,
            transition::caught_up(x),
            transition::apply_commands(transition::unapplied(x)),
        ),
        x.last_applied < x.commit_index && x.commit_index <= x.last_snapshot_index + x.log.len()
            ==> transition::caught_up(x).last_applied == x.commit_index,
{
    let es = transition::unapplied(x);
    lemma_entries_are_applied_in_order(es);
    if es.len() == 0 {
        lemma_no_commands();
        assert(es =~= Seq::empty());
    }
}

/// A step applies the commands of the entries that are new among the applied ones, each
/// once and in the order of the log: from behind what was applied before up to what is
/// applied then. A snapshot that is taken over applies none of them one by one.
pub proof fn lemma_step_applies_in_order(
    s: RaftView,
    me: Me,
    e: EventView,
    timeout: u64,
    restored: bool,
)
    requires
        s.last_snapshot_index <= s.last_applied,
        transition::step(s, me, e, timeout, restored).0.last_snapshot_index
            + transition::step(s, me, e, timeout, restored).0.log.len() <= u64::MAX,
    ensures
        ({
            let out = transition::step(s, me, e, timeout, restored);
            &&& !(e is InstallSnapshot) ==> applies_what_is_new(s, out.0, out.1)
                && out.0.last_snapshot_index == s.last_snapshot_index
            &&& e is InstallSnapshot ==> applied_in(out.1) == Seq::<Seq<u8>>::empty()
        }),
{
    match e {
        EventView::Tick => {
            reveal(transition::on_tick);
            let t = RaftView {
                heartbeat_elapsed: 0,
                ..(RaftView { heartbeat_elapsed: (s.heartbeat_elapsed + 1) as u64, ..s })
            };
            lemma_messages_apply_nothing(t, me, t.config.all_nodes());
            let c = transition::candidacy(s, me, timeout);
            let l = transition::lead(c, me.id);
            let p = seq![transition::persist_vote(c)];
            lemma_applied_none(p);
            lemma_applied_none(Seq::empty());
            lemma_messages_apply_nothing(c, me, c.config.all_nodes());
            lemma_messages_apply_nothing(l, me, l.config.all_nodes());
            lemma_applied_add(p, transition::broadcast(l, me));
            lemma_applied_add(p, transition::ask_all(c, me, c.config.all_nodes()));
            assert(applied_in(transition::step(s, me, e, timeout, restored).1) =~= Seq::empty());
        },
        EventView::RequestVote { req } => {
            reveal(transition::on_request_vote);
            lemma_applied_none(transition::on_request_vote(s, req).1);
        },
        EventView::AppendEntries { req } => {
            lemma_append_applies(s, req);
        },
        EventView::InstallSnapshot { req } => {
            reveal(transition::on_install_snapshot);
            lemma_applied_none(transition::on_install_snapshot(s, me, req, restored).1);
        },
        EventView::RequestVoteResponse { peer, term, resp } => {
            reveal(transition::on_vote_reply);
            let t = RaftView { votes_received: s.votes_received.insert(peer), ..s };
            let l = RaftView { heartbeat_elapsed: 0, ..transition::lead(t, me.id) };
            lemma_messages_apply_nothing(l, me, l.config.all_nodes());
            let a = transition::adopt_term(s, resp.term);
            lemma_applied_none(seq![transition::persist_vote(a)]);
            lemma_applied_none(Seq::empty());
        },
        EventView::AppendEntriesResponse { peer, term, resp, sent_prev_index, sent_count } => {
            reveal(transition::on_append_reply);
            lemma_reply_applies(
                s,
                me,
                peer,
                term,
                resp,
                sent_prev_index as int + sent_count as int,
            );
        },
        EventView::InstallSnapshotResponse { peer, term, resp } => {
            reveal(transition::on_snapshot_reply);
            lemma_applied_none(transition::on_snapshot_reply(s, peer, term, resp).1);
        },
        EventView::Propose { data } => {
            reveal(transition::on_propose);
            let t = transition::append_own(s, PayloadView::Command(data));
            lemma_messages_apply_nothing(t, me, t.config.all_nodes());
            let acts = transition::on_propose(s, me, data).1;
            if acts.len() >= 2 {
                lemma_applied_none(acts.take(2));
                lemma_applied_add(acts.take(2), transition::broadcast(t, me));
                assert(acts =~= acts.take(2) + transition::broadcast(t, me));
                assert(applied_in(acts) =~= Seq::empty());
            } else {
                lemma_applied_none(acts);
            }
        },
        EventView::ProposeConfigChange { new_nodes } => {
            reveal(transition::on_config_change);
            let out = transition::on_config_change(s, me, new_nodes);
            let u = out.0;
            lemma_messages_apply_nothing(u, me, u.config.all_nodes());
            if out.1.len() >= 2 {
                lemma_applied_none(out.1.take(2));
                lemma_applied_add(out.1.take(2), transition::broadcast(u, me));
                assert(out.1 =~= out.1.take(2) + transition::broadcast(u, me));
                assert(applied_in(out.1) =~= Seq::empty());
            } else {
                lemma_applied_none(out.1);
            }
        },
        EventView::ProposeConfigStable { new_nodes } => {
            reveal(transition::on_config_stable);
            let out = transition::on_config_stable(s, me, new_nodes);
            let u = out.0;
            lemma_messages_apply_nothing(u, me, u.config.all_nodes());
            if out.1.len() >= 2 {
                lemma_applied_none(out.1.take(2));
                lemma_applied_add(out.1.take(2), transition::broadcast(u, me));
                assert(out.1 =~= out.1.take(2) + transition::broadcast(u, me));
                assert(applied_in(out.1) =~= Seq::empty());
            } else {
                lemma_applied_none(out.1);
            }
        },
        EventView::Shutdown => {
            lemma_applied_none(Seq::empty());
        },
    }
}

proof fn lemma_append_applies(s: RaftView, req: crate::consensus::messages::AppendView)
    requires
        s.last_snapshot_index <= s.last_applied,
        transition::on_append_entries(s, req).0.last_snapshot_index
            + transition::on_append_entries(s, req).0.log.len() <= u64::MAX,
    ensures
        applies_what_is_new(
            s,
            transition::on_append_entries(s, req).0,
            transition::on_append_entries(s, req).1,
        ),
        transition::on_append_entries(s, req).0.last_snapshot_index == s.last_snapshot_index,
{
    reveal(transition::on_append_entries);
    let t = transition::adopt_term(s, req.term);
    let u = transition::follow(t);
    let acts = transition::on_append_entries(s, req).1;
    if req.term < t.current_term || !transition::log_matches(u, req) {
        lemma_applied_none(acts);
    } else {
        let w = transition::take_entries(u, req.entries);
        node::lemma_take_entries_frame(u, req.entries);
        let x = transition::learn_commit(w, req.leader_commit);
        let news = req.leader_commit > w.commit_index;
        let a = if news {
            transition::apply_commands(transition::unapplied(x))
        } else {
            Seq::empty()
        };
        let n = acts.len() - 1 - a.len();
        let front = acts.take(n);
        let back = seq![acts.last()];
        assert(acts =~= front + a + back);
        lemma_applied_none(front);
        lemma_applied_none(back);
        lemma_applied_none(Seq::empty());
        lemma_applied_add(front + a, back);
        lemma_applied_add(front, a);
        assert(applied_in(acts) =~= applied_in(a));
        if news {
            lemma_catching_up(x);
        }
    }
}

proof fn lemma_reply_applies(
    s: RaftView,
    me: Me,
    peer: NodeId,
    term: u64,
    resp: crate::consensus::messages::AppendEntriesResp,
    matched: int,
)
    requires
        s.last_snapshot_index <= s.last_applied,
        s.last_snapshot_index + s.log.len() <= u64::MAX,
    ensures
        applies_what_is_new(
            s,
            transition::on_append_reply(s, me, peer, term, resp, matched).0,
            transition::on_append_reply(s, me, peer, term, resp, matched).1,
        ),
        transition::on_append_reply(s, me, peer, term, resp, matched).0.last_snapshot_index
            == s.last_snapshot_index,
        transition::on_append_reply(s, me, peer, term, resp, matched).0.log == s.log,
{
    reveal(transition::on_append_reply);
    let out = transition::on_append_reply(s, me, peer, term, resp, matched);
    let t = transition::record_match(s, peer, matched);
    let c = transition::commit_point(t, me.id, t.commit_index as int, t.last_log_index() as int);
    if term == s.current_term && s.role == crate::consensus::state::Role::Leader && resp.term
        <= s.current_term && resp.success && c > t.commit_index {
        let u = RaftView { commit_index: c as u64, ..t };
        let v = transition::caught_up(u);
        lemma_catching_up(u);
        lemma_applied_none(transition::finish_change(v));
        lemma_applied_add(
            transition::apply_commands(transition::unapplied(u)),
            transition::finish_change(v),
        );
        assert(applied_in(out.1) =~= applied_in(
            transition::apply_commands(transition::unapplied(u)),
        ));
    } else {
        lemma_applied_none(out.1);
    }
}

// ----------------------------------------------------------------------
// A whole run
// ----------------------------------------------------------------------
/// What happens to which replica.
pub ghost struct Happening {
    pub node: NodeId,
    pub me: Me,
    pub cause: Cause,
    pub timeout: u64,
}

/// What a group goes through in which no replica goes down, with what happens.
pub open spec fn is_story(run: Seq<Cluster>, cfg: ConfigView, hs: Seq<Happening>) -> bool {
    &&& run.len() == hs.len() + 1
    &&& cluster::starts(run[0], cfg)
    &&& forall|k: int|
        0 <= k < hs.len() ==> cluster::steps(
            run[k],
            (#[trigger] hs[k]).node,
            hs[k].me,
            hs[k].cause,
            hs[k].timeout,
            run[k + 1],
        )
}

/// All that a replica has applied in the first `k` steps, one after the other.
pub open spec fn all_applied(
    run: Seq<Cluster>,
    hs: Seq<Happening>,
    n: NodeId,
    k: int,
) -> Seq<Seq<u8>>
    decreases k,
{
    if k <= 0 {
        Seq::empty()
    } else {
        let before = all_applied(run, hs, n, k - 1);
        let h = hs[k - 1];
        if h.node == n {
            before + applied_in(
                transition::step(
                    run[k - 1].nodes[n],
                    h.me,
                    cluster::event_of(h.cause),
                    h.timeout,
                    false,
                ).1,
            )
        } else {
            before
        }
    }
}

proof fn lemma_story_is_run(run: Seq<Cluster>, cfg: ConfigView, hs: Seq<Happening>)
    requires
        is_story(run, cfg, hs),
    ensures
        cluster::is_run(run, cfg),
{
    assert forall|k: int| 0 <= k && k + 1 < run.len() implies #[trigger] cluster::follows(
        run[k],
        run[k + 1],
    ) by {
        let h = hs[k];
        assert(cluster::steps(run[k], h.node, h.me, h.cause, h.timeout, run[k + 1]));
    }
}

/// At every time, what a replica has applied since it was started is the commands of
/// its log up to the last applied index: each once, and in the order of the log.
pub proof fn lemma_replica_applies_its_log(
    run: Seq<Cluster>,
    cfg: ConfigView,
    hs: Seq<Happening>,
    n: NodeId,
    k: int,
)
    requires
        is_story(run, cfg, hs),
        0 <= k < run.len(),
        run[k].nodes.contains_key(n),
    ensures
        run[k].nodes[n].last_applied <= run[k].nodes[n].log.len(),
        all_applied(run, hs, n, k) == commands(
            run[k].nodes[n].log.take(run[k].nodes[n].last_applied as int),
        ),
    decreases k,
{
    lemma_story_is_run(run, cfg, hs);
    let t = run[k].nodes[n];
    let (g, h) = safety::lemma_run(run, cfg, k, k);
    assert(safety::node_ok(cfg, h, n, t));
    assert(t.last_applied <= t.log.len());
    if k == 0 {
        assert(t.log.take(0) =~= Seq::empty());
        lemma_no_commands();
    } else {
        let hap = hs[k - 1];
        assert(cluster::steps(
            run[k - 1],
            hap.node,
            hap.me,
            hap.cause,
            hap.timeout,
            run[k - 1 + 1],
        ));
        let s = run[k - 1].nodes[n];
        lemma_replica_applies_its_log(run, cfg, hs, n, k - 1);
        if hap.node == n {
            let (g1, h1) = safety::lemma_run(run, cfg, k - 1, k - 1);
            assert(safety::node_ok(cfg, h1, n, s));
            let e = cluster::event_of(hap.cause);
            let out = transition::step(s, hap.me, e, hap.timeout, false);
            assert(out.0 == t);
            lemma_step_applies_in_order(s, hap.me, e, hap.timeout, false);
            let a = s.last_applied as int;
            let b = t.last_applied as int;
            assert(s.log.take(a) =~= t.log.take(a)) by {
                assert forall|i: int| 0 <= i < a implies s.log[i] == t.log[i] by {
                    assert(cluster::has_applied(run[k - 1], n, i + 1, s.log[i]));
                    assert(cluster::has_applied(run[k], n, i + 1, t.log[i]));
                    safety::lemma_same_entries_applied(
                        run,
                        cfg,
                        k - 1,
                        k,
                        n,
                        n,
                        i + 1,
                        s.log[i],
                        t.log[i],
                    );
                }
            }
            if b > a {
                assert(t.log.take(b) =~= t.log.take(a) + t.log.subrange(a, b));
                lemma_commands_add(t.log.take(a), t.log.subrange(a, b));
            } else {
                assert(all_applied(run, hs, n, k) =~= all_applied(run, hs, n, k - 1));
            }
        } else {
            assert(run[k].nodes[n] == s);
        }
    }
}

} // verus!
