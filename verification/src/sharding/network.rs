//! A network for trials: messages are lost, delayed and cut off.
use crate::consensus::messages::{
    AppendEntriesReq, AppendEntriesResp, InstallSnapshotReq, InstallSnapshotResp, NodeId,
    RequestVoteReq, RequestVoteResp, TransportError,
};
use crate::random;
use crate::sharding::routing::ShardId;
use vstd::prelude::*;

verus! {

/// A message between replicas.
#[derive(Debug)]
pub enum NetworkPayload {
    RequestVote(RequestVoteReq),
    AppendEntries(AppendEntriesReq),
    InstallSnapshot(InstallSnapshotReq),
}

/// An answer to a message.
#[derive(Debug)]
pub enum NetworkResponse {
    RequestVote(RequestVoteResp),
    AppendEntries(AppendEntriesResp),
    InstallSnapshot(InstallSnapshotResp),
}

/// A message on its way. The ticket tells the sender which answer is whose.
#[derive(Debug)]
pub struct PendingMsg {
    pub from: NodeId,
    pub to: NodeId,
    pub payload: NetworkPayload,
    pub ticket: u64,
}

/// What becomes of a message that is due.
#[derive(Debug)]
pub enum Outcome {
    /// It reaches the replica.
    Delivered(PendingMsg),
    /// The two nodes are cut off from each other.
    TimedOut(PendingMsg),
    /// The node does not hold the shard.
    Refused(PendingMsg),
}

/// The shard that a message is about.
pub open spec fn shard_of_payload(p: NetworkPayload) -> ShardId {
    match p {
        NetworkPayload::RequestVote(req) => ShardId(req.shard_id),
        NetworkPayload::AppendEntries(req) => ShardId(req.shard_id),
        NetworkPayload::InstallSnapshot(req) => ShardId(req.shard_id),
    }
}

impl NetworkPayload {
    /// The shard that the message is about.
    pub fn shard_id(&self) -> (r: ShardId)
        ensures
            r == shard_of_payload(*self),
    {
        match self {
            NetworkPayload::RequestVote(req) => ShardId(req.shard_id),
            NetworkPayload::AppendEntries(req) => ShardId(req.shard_id),
            NetworkPayload::InstallSnapshot(req) => ShardId(req.shard_id),
        }
    }
}

// ----------------------------------------------------------------------
// Answers
// ----------------------------------------------------------------------
/// The answer to a request for a vote; another kind of answer is an error.
pub fn expect_vote(r: Result<NetworkResponse, TransportError>) -> (v: Result<
    RequestVoteResp,
    TransportError,
>)
    ensures
        match r {
            Ok(NetworkResponse::RequestVote(resp)) => v == Ok::<RequestVoteResp, TransportError>(
                resp,
            ),
            Ok(_) => v matches Err(TransportError::Other(m)) && m@ == "Invalid response type"@,
            Err(e) => v == Err::<RequestVoteResp, TransportError>(e),
        },
{
    match r {
        Ok(NetworkResponse::RequestVote(resp)) => Ok(resp),
        Ok(_) => Err(TransportError::Other("Invalid response type".to_owned())),
        Err(e) => Err(e),
    }
}

/// The answer to an append; another kind of answer is an error.
pub fn expect_append(r: Result<NetworkResponse, TransportError>) -> (v: Result<
    AppendEntriesResp,
    TransportError,
>)
    ensures
        match r {
            Ok(NetworkResponse::AppendEntries(resp)) => v == Ok::<
                AppendEntriesResp,
                TransportError,
            >(resp),
            Ok(_) => v matches Err(TransportError::Other(m)) && m@ == "Invalid response type"@,
            Err(e) => v == Err::<AppendEntriesResp, TransportError>(e),
        },
{
    match r {
        Ok(NetworkResponse::AppendEntries(resp)) => Ok(resp),
        Ok(_) => Err(TransportError::Other("Invalid response type".to_owned())),
        Err(e) => Err(e),
    }
}

/// The answer to a snapshot; another kind of answer is an error.
pub fn expect_snapshot(r: Result<NetworkResponse, TransportError>) -> (v: Result<
    InstallSnapshotResp,
    TransportError,
>)
    ensures
        match r {
            Ok(NetworkResponse::InstallSnapshot(resp)) => v == Ok::<
                InstallSnapshotResp,
                TransportError,
            >(resp),
            Ok(_) => v matches Err(TransportError::Other(m)) && m@ == "Invalid response type"@,
            Err(e) => v == Err::<InstallSnapshotResp, TransportError>(e),
        },
{
    match r {
        Ok(NetworkResponse::InstallSnapshot(resp)) => Ok(resp),
        Ok(_) => Err(TransportError::Other("Invalid response type".to_owned())),
        Err(e) => Err(e),
    }
}

// ----------------------------------------------------------------------
// The network
// ----------------------------------------------------------------------
/// The network: which nodes are cut off from each other, what was sent, what is
/// on its way and until when, the chance that a message is lost, and how long
/// messages take.
pub struct ChaosNetwork {
    pub partitions: Vec<(NodeId, NodeId)>,
    pub pending_msgs: Vec<PendingMsg>,
    pub delayed_msgs: Vec<(u64, PendingMsg)>,
    pub loss_numerator: u32,
    pub loss_denominator: u32,
    pub min_delay: u64,
    pub end_delay: u64,
    pub virtual_time: u64,
    pub rng: rand::rngs::StdRng,
}

/// The two nodes are cut off from each other.
pub open spec fn cut_off(parts: Seq<(NodeId, NodeId)>, a: NodeId, b: NodeId) -> bool {
    parts.contains((a, b)) || parts.contains((b, a))
}

/// What chance makes of a message.
pub enum Fate {
    Lost,
    Delayed(u64),
}

/// Delays are in the range, and nothing where the range is empty.
pub open spec fn fate_ok(f: Fate, min_delay: u64, end_delay: u64) -> bool {
    f matches Fate::Delayed(d) ==> if min_delay < end_delay {
        min_delay <= d < end_delay
    } else {
        d == 0
    }
}

/// The messages that go on their way, and when they are due.
pub open spec fn admitted(
    parts: Seq<(NodeId, NodeId)>,
    now: u64,
    msgs: Seq<PendingMsg>,
    fates: Seq<Fate>,
) -> Seq<(u64, PendingMsg)>
    decreases msgs.len(),
{
    if msgs.len() == 0 {
        Seq::empty()
    } else {
        let front = admitted(parts, now, msgs.drop_last(), fates.drop_last());
        let m = msgs.last();
        match fates.last() {
            Fate::Delayed(d) if !cut_off(parts, m.from, m.to) => front.push(
                ((now + d) as u64, m),
            ),
            _ => front,
        }
    }
}

/// The messages that do not go on their way.
pub open spec fn dropped(
    parts: Seq<(NodeId, NodeId)>,
    msgs: Seq<PendingMsg>,
    fates: Seq<Fate>,
) -> Seq<PendingMsg>
    decreases msgs.len(),
{
    if msgs.len() == 0 {
        Seq::empty()
    } else {
        let front = dropped(parts, msgs.drop_last(), fates.drop_last());
        let m = msgs.last();
        if cut_off(parts, m.from, m.to) || fates.last() is Lost {
            front.push(m)
        } else {
            front
        }
    }
}

/// What becomes of a message that is due.
pub open spec fn outcome(
    parts: Seq<(NodeId, NodeId)>,
    hosts: Seq<(NodeId, ShardId)>,
    m: PendingMsg,
) -> Outcome {
    if cut_off(parts, m.from, m.to) {
        Outcome::TimedOut(m)
    } else if hosts.contains((m.to, shard_of_payload(m.payload))) {
        Outcome::Delivered(m)
    } else {
        Outcome::Refused(m)
    }
}

/// What becomes of the messages that are due, in the order in which they went
/// on their way.
pub open spec fn outcomes(
    parts: Seq<(NodeId, NodeId)>,
    hosts: Seq<(NodeId, ShardId)>,
    now: u64,
    delayed: Seq<(u64, PendingMsg)>,
) -> Seq<Outcome>
    decreases delayed.len(),
{
    if delayed.len() == 0 {
        Seq::empty()
    } else {
        let front = outcomes(parts, hosts, now, delayed.drop_last());
        if delayed.last().0 <= now {
            front.push(outcome(parts, hosts, delayed.last().1))
        } else {
            front
        }
    }
}

/// The messages that are not due yet.
pub open spec fn still_delayed(now: u64, delayed: Seq<(u64, PendingMsg)>) -> Seq<(u64, PendingMsg)>
    decreases delayed.len(),
{
    if delayed.len() == 0 {
        Seq::empty()
    } else {
        let front = still_delayed(now, delayed.drop_last());
        if delayed.last().0 <= now {
            front
        } else {
            front.push(delayed.last())
        }
    }
}

/// One step of time: from the sent messages `pending` and those on their way
/// before, given what chance made of the sent ones, to those on their way
/// after, the ones that were dropped, and what became of the ones that are due.
pub open spec fn ticked(
    before: ChaosNetwork,
    hosts: Seq<(NodeId, ShardId)>,
    fates: Seq<Fate>,
    after: ChaosNetwork,
    lost: Seq<PendingMsg>,
    due: Seq<Outcome>,
) -> bool {
    let parts = before.partitions@;
    let now = (before.virtual_time + 1) as u64;
    let moving = before.delayed_msgs@ + admitted(
        parts,
        before.virtual_time,
        before.pending_msgs@,
        fates,
    );
    &&& fates.len() == before.pending_msgs@.len()
    &&& forall|i: int|
        0 <= i < fates.len() ==> fate_ok(
            #[trigger] fates[i],
            before.min_delay,
            before.end_delay,
        ) && (before.loss_numerator == 0 ==> !(fates[i] is Lost)) && (before.loss_numerator
            == before.loss_denominator ==> fates[i] is Lost)
    &&& after.virtual_time == now
    &&& after.partitions == before.partitions
    &&& after.pending_msgs@.len() == 0
    &&& after.delayed_msgs@ == still_delayed(now, moving)
    &&& after.loss_numerator == before.loss_numerator
    &&& after.loss_denominator == before.loss_denominator
    &&& after.min_delay == before.min_delay
    &&& after.end_delay == before.end_delay
    &&& lost == dropped(parts, before.pending_msgs@, fates)
    &&& due == outcomes(parts, hosts, now, moving)
}

fn has_pair(v: &[(NodeId, NodeId)], a: NodeId, b: NodeId) -> (r: bool)
    ensures
        r == v@.contains((a, b)),
{
    let mut i: usize = 0;
    while i < v.len()
        invariant
            i <= v@.len(),
            forall|k: int| 0 <= k < i ==> v@[k] != (a, b),
        decreases v@.len() - i,
    {
        if v[i].0 == a && v[i].1 == b {
            assert(v@[i as int] == (a, b));
            return true;
        }
        i = i + 1;
    }
    false
}

fn has_host(v: &[(NodeId, ShardId)], a: NodeId, s: ShardId) -> (r: bool)
    ensures
        r == v@.contains((a, s)),
{
    let mut i: usize = 0;
    while i < v.len()
        invariant
            i <= v@.len(),
            forall|k: int| 0 <= k < i ==> v@[k] != (a, s),
        decreases v@.len() - i,
    {
        if v[i].0 == a && v[i].1 == s {
            assert(v@[i as int] == (a, s));
            return true;
        }
        i = i + 1;
    }
    false
}

impl ChaosNetwork {
    /// The chance of a loss is a chance, and times do not run over.
    pub open spec fn wf(&self) -> bool {
        &&& self.loss_numerator <= self.loss_denominator
        &&& self.loss_denominator > 0
    }

    /// A network that loses nothing, delays nothing and cuts nobody off.
    pub fn new(seed: u64) -> (r: Self)
        ensures
            r.wf(),
            r.partitions@.len() == 0,
            r.pending_msgs@.len() == 0,
            r.delayed_msgs@.len() == 0,
            r.loss_numerator == 0,
            r.min_delay == 0,
            r.end_delay == 1,
            r.virtual_time == 0,
    {
        ChaosNetwork {
            partitions: Vec::new(),
            pending_msgs: Vec::new(),
            delayed_msgs: Vec::new(),
            loss_numerator: 0,
            loss_denominator: 1,
            min_delay: 0,
            end_delay: 1,
            virtual_time: 0,
            rng: random::seeded(seed),
        }
    }

    /// Cuts two nodes off from each other.
    pub fn set_partition(&mut self, node1: NodeId, node2: NodeId)
        ensures
            *final(self) == (ChaosNetwork { partitions: final(self).partitions, ..*old(self) }),
            forall|a: NodeId, b: NodeId| #[trigger]
                cut_off(final(self).partitions@, a, b) <==> cut_off(old(self).partitions@, a, b)
                    || (a == node1 && b == node2) || (a == node2 && b == node1),
    {
        let ghost before = self.partitions@;
        self.partitions.push((node1, node2));
        self.partitions.push((node2, node1));
        proof {
            let after = self.partitions@;
            let n = before.len() as int;
            assert(after[n] == (node1, node2));
            assert(after[n + 1] == (node2, node1));
            assert forall|p: (NodeId, NodeId)| #[trigger] after.contains(p) <==> before.contains(p)
                || p == (node1, node2) || p == (node2, node1) by {
                if before.contains(p) {
                    let i = choose|i: int| 0 <= i < n && before[i] == p;
                    assert(after[i] == p);
                }
                if after.contains(p) {
                    let i = choose|i: int| 0 <= i < after.len() && after[i] == p;
                    if i < n {
                        assert(before[i] == p);
                    }
                }
            }
            assert forall|a: NodeId, b: NodeId| #[trigger] cut_off(after, a, b) <==> cut_off(
                before,
                a,
                b,
            ) || (a == node1 && b == node2) || (a == node2 && b == node1) by {
                assert(after.contains((a, b)) <==> before.contains((a, b)) || (a, b) == (
                    node1,
                    node2,
                ) || (a, b) == (node2, node1));
            }
        }
    }

    /// Lets all nodes reach each other.
    pub fn heal_partitions(&mut self)
        ensures
            *final(self) == (ChaosNetwork { partitions: final(self).partitions, ..*old(self) }),
            final(self).partitions@.len() == 0,
    {
        self.partitions = Vec::new();
    }

    /// Sends a message.
    pub fn enqueue(&mut self, msg: PendingMsg)
        ensures
            *final(self) == (ChaosNetwork { pending_msgs: final(self).pending_msgs, ..*old(self) }),
            final(self).pending_msgs@ == old(self).pending_msgs@.push(msg),
    {
        self.pending_msgs.push(msg);
    }

    /// Whether two nodes are cut off from each other.
    fn is_cut_off(&self, a: NodeId, b: NodeId) -> (r: bool)
        ensures
            r == cut_off(self.partitions@, a, b),
    {
        has_pair(self.partitions.as_slice(), a, b) || has_pair(self.partitions.as_slice(), b, a)
    }

    /// What chance makes of a message.
    fn draw_fate(&mut self) -> (r: Option<u64>)
        requires
            old(self).wf(),
        ensures
            *final(self) == (ChaosNetwork { rng: final(self).rng, ..*old(self) }),
            old(self).loss_numerator == 0 ==> r is Some,
            old(self).loss_numerator == old(self).loss_denominator ==> r is None,
            r matches Some(d) ==> fate_ok(
                Fate::Delayed(d),
                old(self).min_delay,
                old(self).end_delay,
            ),
    {
        if random::draw_ratio(&mut self.rng, self.loss_numerator, self.loss_denominator) {
            return None;
        }
        if self.end_delay > self.min_delay {
            let d: u64 = random::draw_between(&mut self.rng, self.min_delay, self.end_delay);
            Some(d)
        } else {
            Some(0)
        }
    }

    /// Puts the sent messages on their way, but for those that are lost or
    /// cut off; those are handed back.
    fn send_off(&mut self) -> (r: (Vec<PendingMsg>, Ghost<Seq<Fate>>))
        requires
            old(self).wf(),
            old(self).virtual_time + old(self).end_delay <= u64::MAX,
        ensures
            *final(self) == (ChaosNetwork {
                pending_msgs: final(self).pending_msgs,
                delayed_msgs: final(self).delayed_msgs,
                rng: final(self).rng,
                ..*old(self)
            }),
            final(self).pending_msgs@.len() == 0,
            r.1@.len() == old(self).pending_msgs@.len(),
            forall|i: int|
                0 <= i < r.1@.len() ==> fate_ok(
                    #[trigger] r.1@[i],
                    old(self).min_delay,
                    old(self).end_delay,
                ) && (old(self).loss_numerator == 0 ==> !(r.1@[i] is Lost)) && (
                old(self).loss_numerator == old(self).loss_denominator ==> r.1@[i] is Lost),
            final(self).delayed_msgs@ == old(self).delayed_msgs@ + admitted(
                old(self).partitions@,
                old(self).virtual_time,
                old(self).pending_msgs@,
                r.1@,
            ),
            r.0@ == dropped(old(self).partitions@, old(self).pending_msgs@, r.1@),
    {
        let ghost s = *self;
        let ghost all = self.pending_msgs@;
        let ghost parts = self.partitions@;
        let ghost mut fates = Seq::<Fate>::empty();
        let ghost mut done: int = 0;
        let mut rest: Vec<PendingMsg> = Vec::new();
        std::mem::swap(&mut rest, &mut self.pending_msgs);
        let mut lost: Vec<PendingMsg> = Vec::new();
        proof {
            assert(all.take(0) =~= Seq::empty());
            assert(all.skip(0) =~= all);
            assert(s.delayed_msgs@ + Seq::<(u64, PendingMsg)>::empty() =~= s.delayed_msgs@);
        }
        while rest.len() > 0
            invariant
                s == *old(self),
                s.wf(),
                s.virtual_time + s.end_delay <= u64::MAX,
                all == s.pending_msgs@,
                parts == s.partitions@,
                0 <= done <= all.len(),
                rest@ == all.skip(done),
                fates.len() == done,
                *self == (ChaosNetwork {
                    pending_msgs: self.pending_msgs,
                    delayed_msgs: self.delayed_msgs,
                    rng: self.rng,
                    ..s
                }),
                self.pending_msgs@.len() == 0,
                forall|i: int|
                    0 <= i < fates.len() ==> fate_ok(
                        #[trigger] fates[i],
                        s.min_delay,
                        s.end_delay,
                    ) && (s.loss_numerator == 0 ==> !(fates[i] is Lost)) && (s.loss_numerator
                        == s.loss_denominator ==> fates[i] is Lost),
                self.delayed_msgs@ == s.delayed_msgs@ + admitted(
                    parts,
                    s.virtual_time,
                    all.take(done),
                    fates,
                ),
                lost@ == dropped(parts, all.take(done), fates),
            decreases rest@.len(),
        {
            let msg = rest.remove(0);
            proof {
                assert(all.skip(done)[0] == msg);
                assert(all.take(done + 1).drop_last() =~= all.take(done));
                assert(all.take(done + 1).last() == msg);
                assert(all.skip(done).remove(0) =~= all.skip(done + 1));
            }
            let ghost delayed = self.delayed_msgs@;
            if self.is_cut_off(msg.from, msg.to) {
                let ghost fate = if s.loss_numerator == s.loss_denominator {
                    Fate::Lost
                } else if s.min_delay < s.end_delay {
                    Fate::Delayed(s.min_delay)
                } else {
                    Fate::Delayed(0)
                };
                proof {
                    assert(fates.push(fate).drop_last() =~= fates);
                    fates = fates.push(fate);
                }
                lost.push(msg);
            } else {
                match self.draw_fate() {
                    None => {
                        proof {
                            assert(fates.push(Fate::Lost).drop_last() =~= fates);
                            fates = fates.push(Fate::Lost);
                        }
                        lost.push(msg);
                    },
                    Some(d) => {
                        proof {
                            assert(fates.push(Fate::Delayed(d)).drop_last() =~= fates);
                            fates = fates.push(Fate::Delayed(d));
                        }
                        let at: u64 = self.virtual_time + d;
                        self.delayed_msgs.push((at, msg));
                        proof {
                            assert(self.delayed_msgs@ =~= s.delayed_msgs@ + admitted(
                                parts,
                                s.virtual_time,
                                all.take(done + 1),
                                fates,
                            ));
                        }
                    },
                }
            }
            proof {
                done = done + 1;
            }
        }
        assert(all.take(done) =~= all);
        (lost, Ghost(fates))
    }

    /// Takes the messages that are due off the way.
    fn deliver(&mut self, hosts: &[(NodeId, ShardId)]) -> (r: Vec<Outcome>)
        ensures
            *final(self) == (ChaosNetwork { delayed_msgs: final(self).delayed_msgs, ..*old(self) }),
            final(self).delayed_msgs@ == still_delayed(
                old(self).virtual_time,
                old(self).delayed_msgs@,
            ),
            r@ == outcomes(
                old(self).partitions@,
                hosts@,
                old(self).virtual_time,
                old(self).delayed_msgs@,
            ),
    {
        let ghost s = *self;
        let ghost all = self.delayed_msgs@;
        let ghost now = self.virtual_time;
        let ghost mut done: int = 0;
        let mut rest: Vec<(u64, PendingMsg)> = Vec::new();
        std::mem::swap(&mut rest, &mut self.delayed_msgs);
        let mut due: Vec<Outcome> = Vec::new();
        proof {
            assert(all.take(0) =~= Seq::empty());
            assert(all.skip(0) =~= all);
        }
        while rest.len() > 0
            invariant
                s == *old(self),
                all == s.delayed_msgs@,
                now == s.virtual_time,
                0 <= done <= all.len(),
                rest@ == all.skip(done),
                *self == (ChaosNetwork { delayed_msgs: self.delayed_msgs, ..s }),
                self.delayed_msgs@ == still_delayed(now, all.take(done)),
                due@ == outcomes(s.partitions@, hosts@, now, all.take(done)),
            decreases rest@.len(),
        {
            let (at, msg) = rest.remove(0);
            proof {
                assert(all.skip(done)[0] == (at, msg));
                assert(all.take(done + 1).drop_last() =~= all.take(done));
                assert(all.take(done + 1).last() == (at, msg));
                assert(all.skip(done).remove(0) =~= all.skip(done + 1));
            }
            if at <= self.virtual_time {
                if self.is_cut_off(msg.from, msg.to) {
                    due.push(Outcome::TimedOut(msg));
                } else if has_host(hosts, msg.to, msg.payload.shard_id()) {
                    due.push(Outcome::Delivered(msg));
                } else {
                    due.push(Outcome::Refused(msg));
                }
            } else {
                self.delayed_msgs.push((at, msg));
            }
            proof {
                done = done + 1;
            }
        }
        assert(all.take(done) =~= all);
        due
    }

    /// One step of time: hands back the messages that were dropped, and what
    /// became of those that are due. `hosts` says which nodes hold which shards.
    pub fn tick(&mut self, hosts: &[(NodeId, ShardId)]) -> (r: (Vec<PendingMsg>, Vec<Outcome>))
        requires
            old(self).wf(),
            old(self).virtual_time + old(self).end_delay <= u64::MAX,
            old(self).virtual_time < u64::MAX,
        ensures
            final(self).wf(),
            exists|fates: Seq<Fate>|
                #[trigger] ticked(*old(self), hosts@, fates, *final(self), r.0@, r.1@),
    {
        let (lost, fates) = self.send_off();
        self.virtual_time = self.virtual_time + 1;
        let due = self.deliver(hosts);
        let r = (lost, due);
        assert(ticked(*old(self), hosts@, fates@, *self, r.0@, r.1@));
        r
    }
}

} // verus!
