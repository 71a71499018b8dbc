//! What becomes of messages, in terms of who sent them when and who is cut off.
use crate::consensus::messages::NodeId;
use crate::sharding::network;
use crate::sharding::network::{ChaosNetwork, Fate, NetworkPayload, Outcome, PendingMsg};
use crate::sharding::routing::ShardId;
use vstd::prelude::*;

verus! {

/// Nodes are cut off from each other both ways.
pub proof fn lemma_cut_off_is_mutual(parts: Seq<(NodeId, NodeId)>, a: NodeId, b: NodeId)
    ensures
        network::cut_off(parts, a, b) <==> network::cut_off(parts, b, a),
        parts.contains((a, b)) ==> network::cut_off(parts, a, b),
        !parts.contains((a, b)) && !parts.contains((b, a)) ==> !network::cut_off(parts, a, b),
{
}

/// The message names a shard.
pub open spec fn is_about(p: NetworkPayload, shard: u32) -> bool {
    match p {
        NetworkPayload::RequestVote(req) => req.shard_id == shard,
        NetworkPayload::AppendEntries(req) => req.shard_id == shard,
        NetworkPayload::InstallSnapshot(req) => req.shard_id == shard,
    }
}

/// Every message that was sent either goes on its way, to be due when its delay is over,
/// or is dropped: where chance lost it, or where the two nodes are cut off.
pub proof fn lemma_sent_messages(
    parts: Seq<(NodeId, NodeId)>,
    now: u64,
    msgs: Seq<PendingMsg>,
    fates: Seq<Fate>,
    i: int,
)
    requires
        fates.len() == msgs.len(),
        0 <= i < msgs.len(),
    ensures
        ({
            let on = network::admitted(parts, now, msgs, fates);
            let off = network::dropped(parts, msgs, fates);
            let apart = parts.contains((msgs[i].from, msgs[i].to)) || parts.contains(
                (msgs[i].to, msgs[i].from),
            );
            &&& on.len() + off.len() == msgs.len()
            &&& apart || fates[i] is Lost ==> off.contains(msgs[i])
            &&& !apart && (fates[i] matches Fate::Delayed(d) && now + d <= u64::MAX)
                ==> on.contains(((now + fates[i]->Delayed_0) as u64, msgs[i]))
        }),
    decreases msgs.len(),
{
    let on = network::admitted(parts, now, msgs, fates);
    let off = network::dropped(parts, msgs, fates);
    let a = network::admitted(parts, now, msgs.drop_last(), fates.drop_last());
    let b = network::dropped(parts, msgs.drop_last(), fates.drop_last());
    let n = msgs.len() - 1;
    if i < n {
        lemma_sent_messages(parts, now, msgs.drop_last(), fates.drop_last(), i);
        let m = msgs[i];
        let apart = parts.contains((m.from, m.to)) || parts.contains((m.to, m.from));
        if apart || fates[i] is Lost {
            let k = choose|k: int| 0 <= k < b.len() && b[k] == m;
            assert(off[k] == m);
        } else if now + fates[i]->Delayed_0 <= u64::MAX {
            let x = ((now + fates[i]->Delayed_0) as u64, m);
            let k = choose|k: int| 0 <= k < a.len() && a[k] == x;
            assert(on[k] == x);
        }
    } else {
        if n > 0 {
            lemma_sent_messages(parts, now, msgs.drop_last(), fates.drop_last(), 0);
        }
        let m = msgs[n];
        let apart = parts.contains((m.from, m.to)) || parts.contains((m.to, m.from));
        if apart || fates[i] is Lost {
            assert(off[b.len() as int] == m);
        } else {
            assert(on[a.len() as int] == ((now + fates[i]->Delayed_0) as u64, m));
        }
    }
}

proof fn lemma_admitted_from(
    parts: Seq<(NodeId, NodeId)>,
    now: u64,
    msgs: Seq<PendingMsg>,
    fates: Seq<Fate>,
    k: int,
) -> (i: int)
    requires
        fates.len() == msgs.len(),
        0 <= k < network::admitted(parts, now, msgs, fates).len(),
    ensures
        0 <= i < msgs.len(),
        network::admitted(parts, now, msgs, fates)[k].1 == msgs[i],
        fates[i] is Delayed,
        network::admitted(parts, now, msgs, fates)[k].0 == (now + fates[i]->Delayed_0) as u64,
        !network::cut_off(parts, msgs[i].from, msgs[i].to),
    decreases msgs.len(),
{
    let a = network::admitted(parts, now, msgs.drop_last(), fates.drop_last());
    if k < a.len() {
        lemma_admitted_from(parts, now, msgs.drop_last(), fates.drop_last(), k)
    } else {
        msgs.len() - 1
    }
}

/// A message that is due reaches its node, times out where the two are cut off then, or
/// is refused where the node does not hold its shard.
pub proof fn lemma_what_becomes_of_a_message(
    parts: Seq<(NodeId, NodeId)>,
    hosts: Seq<(NodeId, ShardId)>,
    m: PendingMsg,
    shard: u32,
)
    requires
        is_about(m.payload, shard),
    ensures
        ({
            let o = network::outcome(parts, hosts, m);
            let apart = parts.contains((m.from, m.to)) || parts.contains((m.to, m.from));
            &&& o == Outcome::TimedOut(m) <==> apart
            &&& o == Outcome::Delivered(m) <==> !apart && hosts.contains((m.to, ShardId(shard)))
            &&& o == Outcome::Refused(m) <==> !apart && !hosts.contains((m.to, ShardId(shard)))
        }),
{
}

/// Of the messages on their way those that are due are dealt with, each once and in
/// their order; the others stay on their way.
pub proof fn lemma_due_messages(
    parts: Seq<(NodeId, NodeId)>,
    hosts: Seq<(NodeId, ShardId)>,
    now: u64,
    delayed: Seq<(u64, PendingMsg)>,
)
    ensures
        network::outcomes(parts, hosts, now, delayed) == delayed.filter(
            |d: (u64, PendingMsg)| d.0 <= now,
        ).map_values(|d: (u64, PendingMsg)| network::outcome(parts, hosts, d.1)),
        network::still_delayed(now, delayed) == delayed.filter(|d: (u64, PendingMsg)| d.0 > now),
        network::outcomes(parts, hosts, now, delayed).len() + network::still_delayed(
            now,
            delayed,
        ).len() == delayed.len(),
    decreases delayed.len(),
{
    reveal(Seq::filter);
    let due = |d: (u64, PendingMsg)| d.0 <= now;
    let out = |d: (u64, PendingMsg)| network::outcome(parts, hosts, d.1);
    if delayed.len() > 0 {
        let front = delayed.drop_last();
        lemma_due_messages(parts, hosts, now, front);
        if delayed.last().0 <= now {
            assert(front.filter(due).push(delayed.last()).map_values(out) =~= front.filter(
                due,
            ).map_values(out).push(out(delayed.last())));
        }
    } else {
        assert(network::outcomes(parts, hosts, now, delayed) =~= delayed.filter(due).map_values(
            out,
        ));
    }
}

proof fn lemma_outcome_of(
    parts: Seq<(NodeId, NodeId)>,
    hosts: Seq<(NodeId, ShardId)>,
    now: u64,
    delayed: Seq<(u64, PendingMsg)>,
    k: int,
) -> (i: int)
    requires
        0 <= k < network::outcomes(parts, hosts, now, delayed).len(),
    ensures
        0 <= i < delayed.len(),
        delayed[i].0 <= now,
        network::outcomes(parts, hosts, now, delayed)[k] == network::outcome(
            parts,
            hosts,
            delayed[i].1,
        ),
    decreases delayed.len(),
{
    let a = network::outcomes(parts, hosts, now, delayed.drop_last());
    if k < a.len() {
        lemma_outcome_of(parts, hosts, now, delayed.drop_last(), k)
    } else {
        delayed.len() - 1
    }
}

proof fn lemma_outcome_is_there(
    parts: Seq<(NodeId, NodeId)>,
    hosts: Seq<(NodeId, ShardId)>,
    now: u64,
    delayed: Seq<(u64, PendingMsg)>,
    i: int,
)
    requires
        0 <= i < delayed.len(),
        delayed[i].0 <= now,
    ensures
        network::outcomes(parts, hosts, now, delayed).contains(
            network::outcome(parts, hosts, delayed[i].1),
        ),
    decreases delayed.len(),
{
    let a = network::outcomes(parts, hosts, now, delayed.drop_last());
    let b = network::outcomes(parts, hosts, now, delayed);
    let o = network::outcome(parts, hosts, delayed[i].1);
    if i < delayed.len() - 1 {
        lemma_outcome_is_there(parts, hosts, now, delayed.drop_last(), i);
        let k = choose|k: int| 0 <= k < a.len() && a[k] == o;
        assert(b[k] == o);
    } else {
        assert(b[a.len() as int] == o);
    }
}

/// Nothing reaches a node that was not sent to it, nothing that was sent from a node
/// that it is cut off from, and nothing for a shard that it does not hold.
pub proof fn lemma_only_what_was_sent_arrives(
    before: ChaosNetwork,
    hosts: Seq<(NodeId, ShardId)>,
    fates: Seq<Fate>,
    after: ChaosNetwork,
    lost: Seq<PendingMsg>,
    due: Seq<Outcome>,
    k: int,
)
    requires
        network::ticked(before, hosts, fates, after, lost, due),
        0 <= k < due.len(),
        due[k] is Delivered,
    ensures
        ({
            let m = due[k]->Delivered_0;
            &&& before.pending_msgs@.contains(m) || exists|t: u64|
                #[trigger] before.delayed_msgs@.contains((t, m)) && t <= before.virtual_time + 1
            &&& !before.partitions@.contains((m.from, m.to)) && !before.partitions@.contains(
                (m.to, m.from),
            )
            &&& hosts.contains((m.to, network::shard_of_payload(m.payload)))
        }),
{
    let parts = before.partitions@;
    let now = (before.virtual_time + 1) as u64;
    let on = network::admitted(parts, before.virtual_time, before.pending_msgs@, fates);
    let moving = before.delayed_msgs@ + on;
    let i = lemma_outcome_of(parts, hosts, now, moving, k);
    let m = due[k]->Delivered_0;
    assert(moving[i].1 == m);
    if i < before.delayed_msgs@.len() {
        assert(before.delayed_msgs@[i] == (moving[i].0, m));
        assert(before.delayed_msgs@.contains((moving[i].0, m)));
        assert(now <= before.virtual_time + 1 || before.virtual_time == u64::MAX);
    } else {
        let j = lemma_admitted_from(
            parts,
            before.virtual_time,
            before.pending_msgs@,
            fates,
            i - before.delayed_msgs@.len(),
        );
        assert(before.pending_msgs@[j] == m);
    }
}

/// On a network that loses nothing and delays nothing every message reaches its node at
/// once, unless the two are cut off from each other or the node does not hold the shard.
pub proof fn lemma_good_network_delivers(
    before: ChaosNetwork,
    hosts: Seq<(NodeId, ShardId)>,
    fates: Seq<Fate>,
    after: ChaosNetwork,
    lost: Seq<PendingMsg>,
    due: Seq<Outcome>,
    i: int,
)
    requires
        network::ticked(before, hosts, fates, after, lost, due),
        before.loss_numerator == 0,
        before.min_delay >= before.end_delay,
        before.virtual_time < u64::MAX,
        0 <= i < before.pending_msgs@.len(),
        ({
            let m = before.pending_msgs@[i];
            &&& !before.partitions@.contains((m.from, m.to)) && !before.partitions@.contains(
                (m.to, m.from),
            )
            &&& hosts.contains((m.to, network::shard_of_payload(m.payload)))
        }),
    ensures
        due.contains(Outcome::Delivered(before.pending_msgs@[i])),
{
    let parts = before.partitions@;
    let now = (before.virtual_time + 1) as u64;
    let m = before.pending_msgs@[i];
    let on = network::admitted(parts, before.virtual_time, before.pending_msgs@, fates);
    let moving = before.delayed_msgs@ + on;
    assert(network::fate_ok(fates[i], before.min_delay, before.end_delay) && !(fates[i] is Lost));
    assert(fates[i] == Fate::Delayed(0));
    lemma_sent_messages(parts, before.virtual_time, before.pending_msgs@, fates, i);
    let k = choose|k: int| 0 <= k < on.len() && on[k] == (before.virtual_time, m);
    let at = before.delayed_msgs@.len() + k;
    assert(moving[at] == on[k]);
    lemma_outcome_is_there(parts, hosts, now, moving, at);
}

/// A message that is on its way and due reaches its node now, unless the two are cut off
/// from each other or the node does not hold the shard; one that is not due stays.
pub proof fn lemma_delayed_message_arrives(
    before: ChaosNetwork,
    hosts: Seq<(NodeId, ShardId)>,
    fates: Seq<Fate>,
    after: ChaosNetwork,
    lost: Seq<PendingMsg>,
    due: Seq<Outcome>,
    i: int,
)
    requires
        network::ticked(before, hosts, fates, after, lost, due),
        before.virtual_time < u64::MAX,
        0 <= i < before.delayed_msgs@.len(),
    ensures
        ({
            let t = before.delayed_msgs@[i].0;
            let m = before.delayed_msgs@[i].1;
            let apart = before.partitions@.contains((m.from, m.to)) || before.partitions@.contains(
                (m.to, m.from),
            );
            &&& t <= before.virtual_time + 1 && !apart && hosts.contains(
                (m.to, network::shard_of_payload(m.payload)),
            ) ==> due.contains(Outcome::Delivered(m))
            &&& t <= before.virtual_time + 1 && apart ==> due.contains(Outcome::TimedOut(m))
            &&& t > before.virtual_time + 1 ==> after.delayed_msgs@.contains((t, m))
        }),
{
    let parts = before.partitions@;
    let now = (before.virtual_time + 1) as u64;
    let on = network::admitted(parts, before.virtual_time, before.pending_msgs@, fates);
    let moving = before.delayed_msgs@ + on;
    assert(moving[i] == before.delayed_msgs@[i]);
    if moving[i].0 <= now {
        lemma_outcome_is_there(parts, hosts, now, moving, i);
    } else {
        lemma_stays(now, moving, i);
    }
}

proof fn lemma_stays(now: u64, delayed: Seq<(u64, PendingMsg)>, i: int)
    requires
        0 <= i < delayed.len(),
        delayed[i].0 > now,
    ensures
        network::still_delayed(now, delayed).contains(delayed[i]),
    decreases delayed.len(),
{
    let a = network::still_delayed(now, delayed.drop_last());
    let b = network::still_delayed(now, delayed);
    if i < delayed.len() - 1 {
        lemma_stays(now, delayed.drop_last(), i);
        let k = choose|k: int| 0 <= k < a.len() && a[k] == delayed[i];
        assert(b[k] == delayed[i]);
    } else {
        assert(b[a.len() as int] == delayed[i]);
    }
}

} // verus!
