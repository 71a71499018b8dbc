//! One leader a term while the members change: derived from the memberships that the
//! logs hold.
use crate::consensus::config;
use crate::consensus::config::ConfigView;
use crate::consensus::election;
use crate::consensus::election::{Ballot, Group};
use crate::consensus::messages::{EntryView, NodeId, PayloadView};
use crate::consensus::node;
use crate::consensus::state;
use crate::consensus::state::RaftView;
use crate::consensus::transition;
use crate::consensus::transition::{EventView, Me};
use crate::consensus::wire;
use vstd::prelude::*;

verus! {

/// The membership is `part`, or a transition that leaves or enters it.
pub open spec fn shares(c: ConfigView, part: Seq<NodeId>) -> bool {
    match c {
        ConfigView::Stable(nodes) => nodes == part,
        ConfigView::Joint { old, new } => old == part || new == part,
    }
}

/// An entry that changes the membership changes it to one that shares `part`.
pub open spec fn entry_shares(e: EntryView, part: Seq<NodeId>) -> bool {
    match wire::dec_payload(e.data) {
        Some(PayloadView::ConfigJoint { old, new }) => old == part || new == part,
        Some(PayloadView::ConfigStable(nodes)) => nodes == part,
        _ => true,
    }
}

/// All entries that change the membership change it to one that shares `part`.
pub open spec fn log_shares(log: Seq<EntryView>, part: Seq<NodeId>) -> bool {
    forall|k: int| 0 <= k < log.len() ==> entry_shares(#[trigger] log[k], part)
}

/// All memberships that a replica knows of share `part`.
pub open spec fn node_shares(s: RaftView, part: Seq<NodeId>) -> bool {
    &&& shares(s.config, part)
    &&& shares(s.snapshot_config, part)
    &&& log_shares(s.log, part)
}

/// The entry stood in the log of a replica at some time up to step `k`.
pub open spec fn was_logged(run: Seq<Group>, k: int, e: EntryView) -> bool {
    exists|j: int, n: NodeId|
        0 <= j <= k && run[j].nodes.contains_key(n) && (#[trigger] run[j].nodes[n]).log.contains(e)
}

/// What a replica is told leaves the memberships within those that share `part`:
/// entries that it is sent were logged, a change that ends, ends in `part`, and a
/// snapshot is taken over only where that leads to `part`.
pub open spec fn is_within(run: Seq<Group>, k: int, part: Seq<NodeId>, me: Me, e: EventView) -> bool {
    match e {
        EventView::AppendEntries { req } => forall|j: int|
            0 <= j < req.entries.len() ==> was_logged(run, k, #[trigger] req.entries[j]),
        EventView::InstallSnapshot { .. } => me.peers == part,
        EventView::ProposeConfigStable { new_nodes } => new_nodes == part,
        EventView::ProposeConfigChange { new_nodes } => new_nodes.len() <= u64::MAX,
        EventView::Propose { data } => data.len() <= u64::MAX,
        _ => true,
    }
}

/// A replica that comes back has the log and the memberships that it had.
pub open spec fn is_whole(s: RaftView, t: RaftView) -> bool {
    t.log == s.log && t.snapshot_config == s.snapshot_config && t.config == t.active_config()
}

/// Step `k` is one of a group whose memberships share `part`: something that leaves
/// them so is told to a replica, or one takes a snapshot, is started again, or comes in
/// with a membership that shares `part`.
pub open spec fn goes_on_within(run: Seq<Group>, k: int, part: Seq<NodeId>) -> bool {
    let g = run[k];
    let h = run[k + 1];
    ||| exists|i: NodeId, me: Me, e: EventView, timeout: u64, restored: bool| #[trigger]
        election::is_told(g, i, me, e, timeout, restored, h) && is_within(run, k, part, me, e)
    ||| exists|i: NodeId, data: Seq<u8>| #[trigger] election::takes_snapshot(g, i, data, h)
    ||| exists|i: NodeId| #[trigger]
        election::is_restarted(g, i, h) && is_whole(g.nodes[i], h.nodes[i])
    ||| exists|i: NodeId| #[trigger]
        election::comes_in(g, i, h) && node_shares(h.nodes[i], part)
}

/// What a group goes through while its memberships share `part`: it starts so, and
/// step follows step.
pub open spec fn is_change(run: Seq<Group>, part: Seq<NodeId>) -> bool {
    &&& run.len() > 0
    &&& part.len() <= u64::MAX
    &&& run[0].sent == Set::<Ballot>::empty()
    &&& forall|n: NodeId| #[trigger]
        run[0].nodes.contains_key(n) ==> election::is_idle(run[0].nodes[n]) && node_shares(
            run[0].nodes[n],
            part,
        )
    &&& forall|k: int| 0 <= k && k + 1 < run.len() ==> #[trigger] goes_on_within(run, k, part)
}

proof fn lemma_latest_shares(base: ConfigView, log: Seq<EntryView>, part: Seq<NodeId>)
    requires
        shares(base, part),
        log_shares(log, part),
    ensures
        shares(state::latest_config(base, log), part),
    decreases log.len(),
{
    if log.len() > 0 {
        assert(entry_shares(log[log.len() - 1], part));
        assert forall|k: int| 0 <= k < log.drop_last().len() implies entry_shares(
            #[trigger] log.drop_last()[k],
            part,
        ) by {
            assert(log.drop_last()[k] == log[k]);
        }
        lemma_latest_shares(base, log.drop_last(), part);
    }
}

proof fn lemma_upto_shares(log: Seq<EntryView>, index: u64, part: Seq<NodeId>)
    requires
        log_shares(log, part),
    ensures
        log_shares(state::entries_upto(log, index), part),
    decreases log.len(),
{
    if log.len() > 0 && log[0].index <= index {
        let rest = log.drop_first();
        assert forall|k: int| 0 <= k < rest.len() implies entry_shares(#[trigger] rest[k], part) by {
            assert(rest[k] == log[k + 1]);
        }
        lemma_upto_shares(rest, index, part);
        let out = state::entries_upto(log, index);
        let tail = state::entries_upto(rest, index);
        assert forall|k: int| 0 <= k < out.len() implies entry_shares(#[trigger] out[k], part) by {
            if k == 0 {
                assert(out[0] == log[0]);
            } else {
                assert(out[k] == tail[k - 1]);
            }
        }
    }
}

proof fn lemma_part_shares(s: RaftView, lo: int, hi: int, part: Seq<NodeId>)
    requires
        log_shares(s.log, part),
    ensures
        log_shares(s.entries_between(lo, hi), part),
{
    let out = s.entries_between(lo, hi);
    let snap = s.last_snapshot_index as int;
    let from = if lo <= snap {
        0
    } else {
        lo - snap - 1
    };
    assert forall|k: int| 0 <= k < out.len() implies entry_shares(#[trigger] out[k], part) by {
        assert(out[k] == s.log[from + k]);
    }
}

proof fn lemma_absorbed_shares(s: RaftView, entries: Seq<EntryView>, part: Seq<NodeId>)
    requires
        log_shares(s.log, part),
        log_shares(entries, part),
        forall|i: int| 0 <= i < entries.len() ==> transition::no_clash(s, #[trigger] entries[i]),
    ensures
        log_shares(transition::absorb_all(s, entries).log, part),
    decreases entries.len(),
{
    if entries.len() > 0 {
        let front = entries.drop_last();
        let e = entries[entries.len() - 1];
        assert forall|k: int| 0 <= k < front.len() implies entry_shares(#[trigger] front[k], part)
            && transition::no_clash(s, front[k]) by {
            assert(front[k] == entries[k]);
        }
        lemma_absorbed_shares(s, front, part);
        node::lemma_absorb_all_frame(s, front);
        assert(transition::no_clash(s, e));
        let t = transition::absorb_all(s, front);
        let u = transition::absorb_all(s, entries);
        assert(entry_shares(e, part));
        assert forall|k: int| 0 <= k < u.log.len() implies entry_shares(#[trigger] u.log[k], part) by {
            if u.log[k] != e {
                if k < t.log.len() {
                    assert(entry_shares(t.log[k], part));
                }
            }
        }
    }
}

proof fn lemma_pushed_shares(log: Seq<EntryView>, e: EntryView, part: Seq<NodeId>)
    requires
        log_shares(log, part),
        entry_shares(e, part),
    ensures
        log_shares(log.push(e), part),
{
    assert forall|k: int| 0 <= k < log.push(e).len() implies entry_shares(
        #[trigger] log.push(e)[k],
        part,
    ) by {
        if k < log.len() {
            assert(log.push(e)[k] == log[k]);
        }
    }
}

/// What a replica is told leaves the memberships that it knows of within those that
/// share `part`.
proof fn lemma_told_shares(
    s: RaftView,
    me: Me,
    e: EventView,
    timeout: u64,
    restored: bool,
    part: Seq<NodeId>,
)
    requires
        node_shares(s, part),
        part.len() <= u64::MAX,
        transition::in_range(s, me, e, restored),
        match e {
            EventView::AppendEntries { req } => log_shares(req.entries, part),
            EventView::InstallSnapshot { .. } => me.peers == part,
            EventView::ProposeConfigStable { new_nodes } => new_nodes == part,
            EventView::ProposeConfigChange { new_nodes } => new_nodes.len() <= u64::MAX,
            EventView::Propose { data } => data.len() <= u64::MAX,
            _ => true,
        },
    ensures
        node_shares(transition::step(s, me, e, timeout, restored).0, part),
{
    match e {
        EventView::Tick => {
            reveal(transition::on_tick);
        },
        EventView::RequestVote { req } => {
            reveal(transition::on_request_vote);
        },
        EventView::AppendEntries { req } => {
            reveal(transition::on_append_entries);
            let u = transition::follow(transition::adopt_term(s, req.term));
            node::lemma_take_entries_frame(u, req.entries);
            node::lemma_absorb_all_frame(u, req.entries);
            if req.term >= s.current_term && transition::log_matches(u, req) {
                assert forall|i: int|
                    0 <= i < req.entries.len() implies transition::no_clash(
                    u,
                    #[trigger] req.entries[i],
                ) by {
                    assert(transition::no_clash(s, req.entries[i]));
                }
                lemma_absorbed_shares(u, req.entries, part);
                let t = transition::absorb_all(u, req.entries);
                lemma_latest_shares(t.snapshot_config, t.log, part);
            }
        },
        EventView::InstallSnapshot { req } => {
            reveal(transition::on_install_snapshot);
            let u = transition::follow(transition::adopt_term(s, req.term));
            let t = transition::install(u, me, req);
            lemma_part_shares(u, req.last_included_index + 1, u.last_log_index() as int, part);
            lemma_latest_shares(t.snapshot_config, t.log, part);
        },
        EventView::RequestVoteResponse { peer, term, resp } => {
            reveal(transition::on_vote_reply);
        },
        EventView::AppendEntriesResponse { peer, term, resp, sent_prev_index, sent_count } => {
            reveal(transition::on_append_reply);
        },
        EventView::InstallSnapshotResponse { peer, term, resp } => {
            reveal(transition::on_snapshot_reply);
        },
        EventView::Propose { data } => {
            reveal(transition::on_propose);
            let p = PayloadView::Command(data);
            wire::lemma_payload_round_trip(p);
            lemma_pushed_shares(s.log, transition::own_entry(s, p), part);
        },
        EventView::ProposeConfigChange { new_nodes } => {
            reveal(transition::on_config_change);
            if let ConfigView::Stable(old) = s.config {
                let p = PayloadView::ConfigJoint { old, new: new_nodes };
                wire::lemma_payload_round_trip(p);
                lemma_pushed_shares(s.log, transition::own_entry(s, p), part);
                let t = transition::append_own(s, p);
                lemma_latest_shares(t.snapshot_config, t.log, part);
            }
        },
        EventView::ProposeConfigStable { new_nodes } => {
            reveal(transition::on_config_stable);
            let p = PayloadView::ConfigStable(new_nodes);
            wire::lemma_payload_round_trip(p);
            lemma_pushed_shares(s.log, transition::own_entry(s, p), part);
            let t = transition::append_own(s, p);
            lemma_latest_shares(t.snapshot_config, t.log, part);
        },
        EventView::Shutdown => {},
    }
}

proof fn lemma_snapshot_shares(s: RaftView, data: Seq<u8>, part: Seq<NodeId>)
    requires
        node_shares(s, part),
    ensures
        node_shares(transition::snapshot_step(s, data).0, part),
{
    lemma_part_shares(s, s.last_applied + 1, s.last_log_index() as int, part);
    lemma_upto_shares(s.log, s.last_applied, part);
    lemma_latest_shares(s.snapshot_config, state::entries_upto(s.log, s.last_applied), part);
}

/// All memberships that any replica ever knows of share `part`.
pub proof fn lemma_all_share(run: Seq<Group>, part: Seq<NodeId>, k: int)
    requires
        is_change(run, part),
        0 <= k < run.len(),
    ensures
        forall|j: int, n: NodeId|
            0 <= j <= k && run[j].nodes.contains_key(n) ==> node_shares(
                #[trigger] run[j].nodes[n],
                part,
            ),
    decreases k,
{
    if k > 0 {
        lemma_all_share(run, part, k - 1);
        let g = run[k - 1];
        let h = run[k];
        assert(goes_on_within(run, k - 1, part));
        assert(run[k - 1 + 1] == h);
        assert forall|n: NodeId| #[trigger] h.nodes.contains_key(n) implies node_shares(
            h.nodes[n],
            part,
        ) by {
            if g.nodes.contains_key(n) {
                assert(node_shares(run[k - 1].nodes[n], part));
            }
            lemma_step_shares(run, part, k - 1, n);
        }
    }
}

proof fn lemma_step_shares(run: Seq<Group>, part: Seq<NodeId>, k: int, n: NodeId)
    requires
        part.len() <= u64::MAX,
        0 <= k,
        k + 1 < run.len(),
        goes_on_within(run, k, part),
        forall|j: int, m: NodeId|
            0 <= j <= k && run[j].nodes.contains_key(m) ==> node_shares(
                #[trigger] run[j].nodes[m],
                part,
            ),
        run[k + 1].nodes.contains_key(n),
    ensures
        node_shares(run[k + 1].nodes[n], part),
{
    let g = run[k];
    let h = run[k + 1];
    if g.nodes.contains_key(n) {
        assert(node_shares(run[k].nodes[n], part));
    }
    if exists|i: NodeId, me: Me, e: EventView, timeout: u64, restored: bool| #[trigger]
        election::is_told(g, i, me, e, timeout, restored, h) && is_within(run, k, part, me, e) {
        let (i, me, e, timeout, restored) = choose|
            i: NodeId,
            me: Me,
            e: EventView,
            timeout: u64,
            restored: bool,
        | #[trigger]
            election::is_told(g, i, me, e, timeout, restored, h) && is_within(run, k, part, me, e);
        if n == i {
            if let EventView::AppendEntries { req } = e {
                assert forall|j: int| 0 <= j < req.entries.len() implies entry_shares(
                    #[trigger] req.entries[j],
                    part,
                ) by {
                    let x = req.entries[j];
                    assert(was_logged(run, k, x));
                    let (a, m) = choose|a: int, m: NodeId|
                        0 <= a <= k && run[a].nodes.contains_key(m) && (
                        #[trigger] run[a].nodes[m]).log.contains(x);
                    assert(node_shares(run[a].nodes[m], part));
                    let log = run[a].nodes[m].log;
                    let p = choose|p: int| 0 <= p < log.len() && log[p] == x;
                    assert(entry_shares(log[p], part));
                }
            }
            lemma_told_shares(g.nodes[i], me, e, timeout, restored, part);
        }
    } else if exists|i: NodeId, data: Seq<u8>| #[trigger] election::takes_snapshot(g, i, data, h) {
        let (i, data) = choose|i: NodeId, data: Seq<u8>| #[trigger]
            election::takes_snapshot(g, i, data, h);
        if n == i {
            lemma_snapshot_shares(g.nodes[i], data, part);
        }
    } else if exists|i: NodeId| #[trigger]
        election::is_restarted(g, i, h) && is_whole(g.nodes[i], h.nodes[i]) {
        let i = choose|i: NodeId| #[trigger]
            election::is_restarted(g, i, h) && is_whole(g.nodes[i], h.nodes[i]);
        if n == i {
            lemma_latest_shares(h.nodes[i].snapshot_config, h.nodes[i].log, part);
        }
    }
}

/// No two replicas ever lead in the same term, at whatever times, while the group is on
/// its way out of a membership, or into one: where all memberships that are proposed
/// share that one. Members are added and removed, changes are begun, given up and begun
/// again, and which memberships elections are counted by follows from the logs.
pub proof fn lemma_one_leader_in_a_change(
    run: Seq<Group>,
    part: Seq<NodeId>,
    a: int,
    b: int,
    i: NodeId,
    j: NodeId,
    term: u64,
)
    requires
        is_change(run, part),
        0 <= a < run.len(),
        0 <= b < run.len(),
        election::heads(run[a], i, term),
        election::heads(run[b], j, term),
    ensures
        i == j,
{
    assert forall|k: int| 0 <= k && k + 1 < run.len() implies #[trigger] election::goes_on(
        run[k],
        run[k + 1],
    ) by {
        assert(goes_on_within(run, k, part));
    }
    assert(election::is_course(run));
    lemma_all_share(run, part, run.len() - 1);
    let k = election::lemma_leaders_were_elected(run, a, i, term);
    let l = election::lemma_leaders_were_elected(run, b, j, term);
    election::lemma_elected_was_there(run, k, i, term);
    election::lemma_elected_was_there(run, l, j, term);
    assert(node_shares(run[k].nodes[i], part));
    assert(node_shares(run[l].nodes[j], part));
    assert(config::adjacent(
        election::counted_by(run, k, i),
        election::counted_by(run, l, j),
    ));
    election::lemma_one_election(run, k, l, i, j, term);
}

} // verus!
