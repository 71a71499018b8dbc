use rand::{Rng, SeedableRng};
use std::collections::BTreeMap;
use std::collections::{HashMap, HashSet};
use strata::consensus::config::ConfigState;
use strata::consensus::messages::{
    copy_entries, copy_nodes, AppendEntriesReq, AppendEntriesResp, EntryPayload,
    InstallSnapshotReq, InstallSnapshotResp, LogEntry, NodeId, RequestVoteReq, RequestVoteResp,
    StateMachineError, TransportError,
};
use strata::consensus::node::{
    default_nodes, load_snapshot, Action, Event, HandleEventCtx, RaftNode,
};
use strata::consensus::persist::{
    collect_entries, make_entry_key, persist_log_entry, persist_log_len, persist_term_and_vote,
    recover_log, rewrite_wal,
};
use strata::consensus::state::{sort_nodes, RaftState, Role};
use strata::consensus::transition::Rejection;
use strata::consensus::wire::{
    decode_config, decode_entry, decode_payload, decode_snapshot, decode_vote, encode_config,
    encode_entry, encode_payload, encode_snapshot, encode_vote, is_snapshot_readable,
};
use strata::sharding::network::{
    expect_append, expect_snapshot, expect_vote, ChaosNetwork, NetworkPayload, NetworkResponse,
    Outcome, PendingMsg,
};
use strata::sharding::routing::ShardId;
use strata::storage::wal::{encode_records, replay, WalRecord};

/// A replica with its files and its state machine.
struct Host {
    node: RaftNode,
    log_file: Vec<u8>,
    snapshot_file: Option<Vec<u8>>,
    db: BTreeMap<String, String>,
    accepted: Vec<u64>,
    changed: bool,
}

impl Host {
    fn new(node: RaftNode) -> Self {
        Host {
            node,
            log_file: vec![],
            snapshot_file: None,
            db: BTreeMap::new(),
            accepted: vec![],
            changed: false,
        }
    }
}

/// What a message asked, as its answer must say it.
enum Asked {
    Vote { peer: NodeId, term: u64 },
    Append { peer: NodeId, term: u64, prev: u64, count: usize },
    Snapshot { peer: NodeId, term: u64 },
}

struct TestCluster {
    hosts: BTreeMap<NodeId, Host>,
    network: ChaosNetwork,
    asked: HashMap<u64, (NodeId, Asked)>,
    next_ticket: u64,
}

fn start(id: NodeId, peers: Vec<NodeId>, snapshot_file: Option<&[u8]>, log_file: &[u8]) -> (RaftNode, usize) {
    let snapshot = load_snapshot(id, &peers, snapshot_file);
    RaftNode::new(0, id, peers, snapshot, log_file)
}

impl TestCluster {
    fn new(size: u64, seed: u64) -> Self {
        let mut hosts = BTreeMap::new();
        for id in 1..=size {
            let peers: Vec<NodeId> = (1..=size).filter(|p| *p != id).collect();
            let (node, _) = start(id, peers, None, &[]);
            hosts.insert(id, Host::new(node));
        }
        TestCluster { hosts, network: ChaosNetwork::new(seed), asked: HashMap::new(), next_ticket: 1 }
    }

    fn send(&mut self, from: NodeId, to: NodeId, payload: NetworkPayload, asked: Asked) {
        let ticket = self.next_ticket;
        self.next_ticket += 1;
        self.asked.insert(ticket, (from, asked));
        self.network.enqueue(PendingMsg { from, to, payload, ticket });
    }

    /// Does what the replica wants, and hands back its answer.
    fn carry_out(&mut self, id: NodeId, actions: Vec<Action>) -> Option<NetworkResponse> {
        let mut reply = None;
        for a in actions {
            match a {
                Action::Persist(rs) => self.hosts.get_mut(&id).unwrap().log_file.extend(encode_records(&rs)),
                Action::RewriteLog(rs) => self.hosts.get_mut(&id).unwrap().log_file = encode_records(&rs),
                Action::SaveSnapshot(b) => self.hosts.get_mut(&id).unwrap().snapshot_file = Some(b),
                Action::SendRequestVote { to, req } => {
                    self.send(id, to, NetworkPayload::RequestVote(req), Asked::Vote { peer: to, term: req.term })
                }
                Action::SendAppendEntries { to, req } => {
                    let asked = Asked::Append {
                        peer: to,
                        term: req.term,
                        prev: req.prev_log_index,
                        count: req.entries.len(),
                    };
                    self.send(id, to, NetworkPayload::AppendEntries(req), asked)
                }
                Action::SendInstallSnapshot { to, req } => {
                    let asked = Asked::Snapshot { peer: to, term: req.term };
                    self.send(id, to, NetworkPayload::InstallSnapshot(req), asked)
                }
                Action::ReplyRequestVote(r) => reply = Some(NetworkResponse::RequestVote(r)),
                Action::ReplyAppendEntries(r) => reply = Some(NetworkResponse::AppendEntries(r)),
                Action::ReplyInstallSnapshot(r) => reply = Some(NetworkResponse::InstallSnapshot(r)),
                Action::ReplyPropose(r) => {
                    if let Ok(index) = r {
                        self.hosts.get_mut(&id).unwrap().accepted.push(index);
                    }
                }
                Action::ReplyConfigChange(r) => self.hosts.get_mut(&id).unwrap().changed = r.is_ok(),
                Action::Apply(cmd) => {
                    let text = String::from_utf8(cmd).unwrap();
                    let (k, v) = text.split_once(',').unwrap();
                    self.hosts.get_mut(&id).unwrap().db.insert(k.to_string(), v.to_string());
                }
                Action::ProposeStable(nodes) => {
                    self.event(id, Event::ProposeConfigStable { new_nodes: nodes });
                }
            }
        }
        reply
    }

    fn event(&mut self, id: NodeId, e: Event) -> Option<NetworkResponse> {
        let actions = self.hosts.get_mut(&id).unwrap().node.handle_event(e, false);
        self.carry_out(id, actions)
    }

    fn tick(&mut self) {
        let places: Vec<(NodeId, ShardId)> = self.hosts.keys().map(|id| (*id, ShardId(0))).collect();
        let ids: Vec<NodeId> = self.hosts.keys().copied().collect();
        for id in ids {
            self.event(id, Event::Tick);
        }
        let (_, due) = self.network.tick(&places);
        for outcome in due {
            if let Outcome::Delivered(msg) = outcome {
                let event = match msg.payload {
                    NetworkPayload::RequestVote(req) => Event::RequestVote { req },
                    NetworkPayload::AppendEntries(req) => Event::AppendEntries { req },
                    NetworkPayload::InstallSnapshot(req) => Event::InstallSnapshot { req },
                };
                let reply = self.event(msg.to, event).unwrap();
                let (asker, asked) = self.asked.remove(&msg.ticket).unwrap();
                let answer = match asked {
                    Asked::Vote { peer, term } => Event::RequestVoteResponse {
                        peer,
                        term,
                        resp: expect_vote(Ok(reply)).unwrap(),
                    },
                    Asked::Append { peer, term, prev, count } => Event::AppendEntriesResponse {
                        peer,
                        term,
                        resp: expect_append(Ok(reply)).unwrap(),
                        sent_prev_index: prev,
                        sent_count: count,
                    },
                    Asked::Snapshot { peer, term } => Event::InstallSnapshotResponse {
                        peer,
                        term,
                        resp: expect_snapshot(Ok(reply)).unwrap(),
                    },
                };
                self.event(asker, answer);
            }
        }
    }

    fn tick_n(&mut self, n: usize) {
        for _ in 0..n {
            self.tick();
        }
    }

    fn find_leader(&self) -> Option<NodeId> {
        self.hosts.iter().find(|(_, h)| h.node.state.role == Role::Leader).map(|(id, _)| *id)
    }

    fn partition_group(&mut self, group: &[NodeId]) {
        let ids: Vec<NodeId> = self.hosts.keys().copied().collect();
        for a in &ids {
            for b in &ids {
                if a != b && group.contains(a) != group.contains(b) {
                    self.network.set_partition(*a, *b);
                }
            }
        }
    }

    fn propose(&mut self, id: NodeId, data: &[u8]) {
        self.event(id, Event::Propose { data: data.to_vec() });
    }

    fn restart(&mut self, id: NodeId) {
        let h = self.hosts.get_mut(&id).unwrap();
        let peers = copy_nodes(&h.node.peers);
        let (node, len) = start(id, peers, h.snapshot_file.as_deref(), &h.log_file);
        h.log_file.truncate(len);
        h.node = node;
    }
}

#[test]
fn test_election_converges_no_partition() {
    let mut cluster = TestCluster::new(3, 42);
    cluster.tick_n(150);
    let leader = cluster.find_leader();
    assert!(leader.is_some(), "No leader was elected");
    let leader_count = cluster.hosts.values().filter(|h| h.node.state.role == Role::Leader).count();
    assert_eq!(leader_count, 1, "Expected exactly one leader");
}

#[test]
fn test_election_converges_after_partition_heals() {
    let mut cluster = TestCluster::new(3, 101);
    cluster.tick_n(100);
    let l1 = cluster.find_leader().expect("Initial election failed");
    cluster.partition_group(&[l1]);
    cluster.tick_n(150);
    cluster.network.heal_partitions();
    cluster.tick_n(150);
    assert!(cluster.find_leader().is_some(), "Expected a leader after partition heals");
}

#[test]
fn test_no_two_leaders_same_term() {
    for seed in 0..105 {
        let mut cluster = TestCluster::new(5, seed);
        cluster.network.loss_numerator = 1;
        cluster.network.loss_denominator = 20;
        cluster.network.min_delay = 1;
        cluster.network.end_delay = 5;
        cluster.partition_group(&[1, 2]);
        for _ in 0..80 {
            cluster.tick();
            let mut terms_with_leaders = HashMap::new();
            for (id, h) in &cluster.hosts {
                if h.node.state.role == Role::Leader {
                    if let Some(other_id) = terms_with_leaders.get(&h.node.state.current_term) {
                        panic!(
                            "Seed {}: Node {} and Node {} both leaders in term {}",
                            seed, id, other_id, h.node.state.current_term
                        );
                    }
                    terms_with_leaders.insert(h.node.state.current_term, *id);
                }
            }
        }
        cluster.network.loss_numerator = 0;
        cluster.network.min_delay = 0;
        cluster.network.end_delay = 1;
        cluster.network.heal_partitions();
        cluster.tick_n(100);
        assert!(
            cluster.find_leader().is_some(),
            "Seed {}: Expected cluster to heal and elect a leader",
            seed
        );
    }
}

#[test]
fn test_committed_entries_survive_minority_failure() {
    let mut cluster = TestCluster::new(3, 202);
    cluster.tick_n(100);
    let l1 = cluster.find_leader().expect("Election failed");
    cluster.propose(l1, b"x,10");
    cluster.tick_n(50);
    assert_eq!(cluster.hosts[&l1].db.get("x").map(|s| s.as_str()), Some("10"));
    let disconnected = *cluster.hosts.keys().find(|id| **id != l1).unwrap();
    cluster.partition_group(&[disconnected]);
    cluster.propose(l1, b"y,20");
    cluster.tick_n(50);
    assert_eq!(cluster.hosts[&l1].db.get("y").map(|s| s.as_str()), Some("20"));
    cluster.network.heal_partitions();
    cluster.tick_n(100);
    assert_eq!(cluster.hosts[&disconnected].db.get("x").map(|s| s.as_str()), Some("10"));
    assert_eq!(cluster.hosts[&disconnected].db.get("y").map(|s| s.as_str()), Some("20"));
}

#[test]
fn test_log_matching_property() {
    let mut cluster = TestCluster::new(5, 303);
    cluster.tick_n(100);
    let mut rng = rand::rngs::StdRng::seed_from_u64(303);
    for i in 0..10 {
        if let Some(l) = cluster.find_leader() {
            cluster.propose(l, format!("k_{},v_{}", i, i).as_bytes());
        }
        if rng.gen_bool(0.4) {
            cluster.partition_group(&[1, 2]);
        } else {
            cluster.network.heal_partitions();
        }
        cluster.tick_n(30);
    }
    cluster.network.heal_partitions();
    cluster.tick_n(150);
    for (id1, h1) in &cluster.hosts {
        for (id2, h2) in &cluster.hosts {
            let (log1, log2) = (&h1.node.state.log, &h2.node.state.log);
            for idx in 0..log1.len().min(log2.len()) {
                if log1[idx].index == log2[idx].index && log1[idx].term == log2[idx].term {
                    for k in 0..=idx {
                        assert_eq!(
                            log1[k].term, log2[k].term,
                            "Log mismatch between node {} and {} at index {}",
                            id1, id2, log1[k].index
                        );
                        assert_eq!(
                            log1[k].data, log2[k].data,
                            "Log mismatch data between node {} and {} at index {}",
                            id1, id2, log1[k].index
                        );
                    }
                }
            }
        }
    }
}

#[test]
fn test_linearizability_after_chaos() {
    for seed in 0..105 {
        let mut cluster = TestCluster::new(3, seed);
        cluster.tick_n(100);
        let mut ref_model: HashMap<String, String> = HashMap::new();
        let mut rng = rand::rngs::StdRng::seed_from_u64(seed);
        for step in 0..5 {
            let key = format!("step_{}", step);
            let val = format!("val_{}", rng.gen::<u32>());
            if let Some(l) = cluster.find_leader() {
                let before = cluster.hosts[&l].accepted.len();
                cluster.propose(l, format!("{},{}", key, val).as_bytes());
                cluster.tick_n(10);
                let h = &cluster.hosts[&l];
                if h.accepted.len() > before && h.node.state.last_applied >= h.accepted[before] {
                    ref_model.insert(key, val);
                }
            }
            if rng.gen_bool(0.5) {
                cluster.partition_group(&[1]);
            } else {
                cluster.network.heal_partitions();
            }
            cluster.tick_n(20);
        }
        cluster.network.heal_partitions();
        cluster.tick_n(200);
        let first_node_db = cluster.hosts[&1].db.clone();
        for (id, h) in &cluster.hosts {
            assert_eq!(
                first_node_db, h.db,
                "State machine divergence between nodes on seed {}",
                seed
            );
            for (k, v) in &ref_model {
                assert_eq!(
                    h.db.get(k),
                    Some(v),
                    "Reference value mismatch on seed {} for node {}",
                    seed, id
                );
            }
        }
    }
}

#[test]
fn replicas_come_back_with_what_they_had() {
    let mut cluster = TestCluster::new(3, 7);
    cluster.tick_n(100);
    let l = cluster.find_leader().unwrap();
    for i in 0..5 {
        cluster.propose(l, format!("k{},v{}", i, i).as_bytes());
        cluster.tick_n(5);
    }
    let before: Vec<(u64, Option<NodeId>, usize)> = cluster
        .hosts
        .values()
        .map(|h| (h.node.state.current_term, h.node.state.voted_for, h.node.state.log.len()))
        .collect();
    for id in 1..=3 {
        cluster.restart(id);
    }
    let after: Vec<(u64, Option<NodeId>, usize)> = cluster
        .hosts
        .values()
        .map(|h| (h.node.state.current_term, h.node.state.voted_for, h.node.state.log.len()))
        .collect();
    assert_eq!(before, after);
    assert!(cluster.hosts.values().all(|h| h.node.state.role == Role::Follower));
    cluster.tick_n(150);
    let l = cluster.find_leader().unwrap();
    cluster.propose(l, b"last,one");
    cluster.tick_n(50);
    for h in cluster.hosts.values() {
        assert_eq!(h.db.len(), 6);
        assert_eq!(h.db["k4"], "v4");
    }
}

#[test]
fn test_joint_consensus_membership_change_no_split_brain() {
    let mut cluster = TestCluster::new(3, 42);
    cluster.tick_n(100);
    let leader = cluster.find_leader().unwrap();

    let (node, _) = start(4, vec![1, 2, 3], None, &[]);
    cluster.hosts.insert(4, Host::new(node));
    cluster.event(leader, Event::ProposeConfigChange { new_nodes: vec![2, 3, 4] });
    cluster.tick_n(100);
    assert!(cluster.hosts[&leader].changed);
    for id in [2, 3, 4] {
        let config = &cluster.hosts[&id].node.state.config;
        assert!(matches!(config, ConfigState::Stable(nodes) if *nodes == vec![2, 3, 4]));
    }
}

#[test]
fn a_membership_changes_through_both() {
    let mut cluster = TestCluster::new(3, 5);
    cluster.tick_n(100);
    let l = cluster.find_leader().unwrap();
    cluster.event(l, Event::ProposeConfigChange { new_nodes: vec![1, 2, 3, 4] });
    assert!(matches!(cluster.hosts[&l].node.state.config, ConfigState::Joint { .. }));
    let refused = cluster
        .hosts
        .get_mut(&l)
        .unwrap()
        .node
        .handle_event(Event::ProposeConfigChange { new_nodes: vec![1] }, false);
    assert!(matches!(refused[0], Action::ReplyConfigChange(Err(Rejection::ChangeInProgress))));
    cluster.tick_n(60);
    assert!(matches!(&cluster.hosts[&l].node.state.config, ConfigState::Stable(n) if n.len() == 4));
}

#[test]
fn a_snapshot_is_taken_and_read_back() {
    let mut cluster = TestCluster::new(3, 9);
    cluster.tick_n(100);
    let l = cluster.find_leader().unwrap();
    for i in 0..4 {
        cluster.propose(l, format!("k{},v{}", i, i).as_bytes());
    }
    cluster.tick_n(50);
    let due = cluster.hosts[&l].node.state.is_snapshot_due();
    assert!(due);
    let actions = cluster.hosts.get_mut(&l).unwrap().node.state.take_snapshot(b"image".to_vec());
    cluster.carry_out(l, actions);
    let h = &cluster.hosts[&l];
    assert_eq!(h.node.state.last_snapshot_index, h.node.state.last_applied);
    assert!(h.node.state.log.is_empty());
    let term = h.node.state.last_snapshot_term;
    let index = h.node.state.last_snapshot_index;
    assert!(cluster.hosts.get_mut(&l).unwrap().node.state.take_snapshot(vec![]).is_empty());
    cluster.restart(l);
    let s = &cluster.hosts[&l].node.state;
    assert_eq!((s.last_snapshot_index, s.last_snapshot_term), (index, term));
    assert_eq!(s.last_snapshot_data, b"image".to_vec());
    assert_eq!(s.last_applied, index);
}

#[test]
fn a_snapshot_keeps_what_was_not_applied() {
    let (mut node, _) = start(2, vec![1, 3], None, &[]);
    node.handle_event(append(1, (0, 0), vec![entry(1, 1), entry(1, 2), entry(1, 3)], 1), false);
    assert_eq!(node.state.last_applied, 1);
    let actions = node.state.take_snapshot(b"image".to_vec());
    assert_eq!(node.state.last_snapshot_index, 1);
    assert_eq!(node.state.log.len(), 2);
    assert_eq!(node.state.get_entry(2).unwrap().index, 2);
    assert_eq!(node.state.get_entry(3).unwrap().index, 3);
    assert!(node.state.get_entry(1).is_none());
    assert_eq!(node.state.last_log_index(), 3);

    let (mut snapshot_file, mut log_file) = (Vec::new(), Vec::new());
    for a in actions {
        match a {
            Action::SaveSnapshot(b) => snapshot_file = b,
            Action::RewriteLog(rs) => log_file = encode_records(&rs),
            _ => {}
        }
    }
    let (again, _) = start(2, vec![1, 3], Some(&snapshot_file), &log_file);
    let indexes: Vec<u64> = again.state.log.iter().map(|e| e.index).collect();
    assert_eq!(indexes, vec![2, 3]);
    assert_eq!(again.state.current_term, 1);
}

#[test]
fn a_snapshot_that_comes_keeps_what_follows_it() {
    let (mut node, _) = start(2, vec![1, 3], None, &[]);
    let entries = (1..=4).map(|i| entry(1, i)).collect();
    node.handle_event(append(1, (0, 0), entries, 0), false);
    let req = InstallSnapshotReq {
        shard_id: 0,
        term: 1,
        leader_id: 1,
        last_included_index: 2,
        last_included_term: 1,
        offset: 0,
        data: b"all".to_vec(),
        done: true,
    };
    node.handle_event(Event::InstallSnapshot { req }, true);
    let indexes: Vec<u64> = node.state.log.iter().map(|e| e.index).collect();
    assert_eq!(indexes, vec![3, 4]);
    assert_eq!(node.state.get_entry(3).unwrap().index, 3);
    assert_eq!(node.state.last_log_index(), 4);
    assert_eq!(node.state.last_applied, 2);
}

#[test]
fn a_follower_takes_over_a_snapshot() {
    let (mut node, _) = start(2, vec![1, 3], None, &[]);
    let req = InstallSnapshotReq {
        shard_id: 0,
        term: 3,
        leader_id: 1,
        last_included_index: 8,
        last_included_term: 2,
        offset: 0,
        data: b"all".to_vec(),
        done: true,
    };
    assert!(node.state.wants_snapshot(&req));
    let actions = node.handle_event(Event::InstallSnapshot { req: req.clone() }, true);
    assert!(matches!(
        actions.last(),
        Some(Action::ReplyInstallSnapshot(InstallSnapshotResp { term: 3 }))
    ));
    assert_eq!(node.state.last_snapshot_index, 8);
    assert_eq!(node.state.commit_index, 8);
    assert!(!node.state.wants_snapshot(&req));
}

fn vote(term: u64, candidate_id: NodeId, last_log_index: u64, last_log_term: u64) -> Event {
    Event::RequestVote {
        req: RequestVoteReq { shard_id: 0, term, candidate_id, last_log_index, last_log_term },
    }
}

fn granted(actions: &[Action]) -> (u64, bool) {
    match actions.last() {
        Some(Action::ReplyRequestVote(r)) => (r.term, r.vote_granted),
        other => panic!("no answer: {:?}", other),
    }
}

#[test]
fn a_replica_votes_once_a_term() {
    let (mut node, _) = start(1, vec![2, 3], None, &[]);
    assert_eq!(granted(&node.handle_event(vote(4, 2, 0, 0), false)), (4, true));
    assert_eq!(granted(&node.handle_event(vote(4, 3, 9, 3), false)), (4, false));
    assert_eq!(granted(&node.handle_event(vote(4, 2, 0, 0), false)), (4, true));
    assert_eq!(granted(&node.handle_event(vote(3, 3, 9, 3), false)), (4, false));
    assert_eq!(granted(&node.handle_event(vote(5, 3, 0, 0), false)), (5, true));
}

#[test]
fn a_replica_votes_only_for_logs_as_recent_as_its_own() {
    let (mut node, _) = start(1, vec![2, 3], None, &[]);
    let entry = LogEntry { term: 2, index: 1, data: vec![] };
    let req = AppendEntriesReq {
        shard_id: 0,
        term: 2,
        leader_id: 2,
        prev_log_index: 0,
        prev_log_term: 0,
        entries: vec![entry],
        leader_commit: 0,
    };
    node.handle_event(Event::AppendEntries { req }, false);
    assert_eq!(node.state.last_log_term(), 2);
    assert_eq!(granted(&node.handle_event(vote(3, 3, 5, 1), false)), (3, false));
    assert_eq!(granted(&node.handle_event(vote(3, 3, 0, 2), false)), (3, false));
    assert_eq!(granted(&node.handle_event(vote(3, 3, 1, 2), false)), (3, true));
}

fn append(term: u64, prev: (u64, u64), entries: Vec<LogEntry>, leader_commit: u64) -> Event {
    Event::AppendEntries {
        req: AppendEntriesReq {
            shard_id: 0,
            term,
            leader_id: 2,
            prev_log_index: prev.0,
            prev_log_term: prev.1,
            entries,
            leader_commit,
        },
    }
}

fn entry(term: u64, index: u64) -> LogEntry {
    LogEntry { term, index, data: vec![term as u8, index as u8] }
}

fn accepted(actions: &[Action]) -> AppendEntriesResp {
    let mut found = None;
    for a in actions {
        if let Action::ReplyAppendEntries(r) = a {
            found = Some(*r);
        }
    }
    found.unwrap()
}

#[test]
fn conflicting_entries_are_replaced() {
    let (mut node, _) = start(1, vec![2, 3], None, &[]);
    let r = accepted(&node.handle_event(
        append(1, (0, 0), vec![entry(1, 1), entry(1, 2), entry(1, 3)], 0),
        false,
    ));
    assert!(r.success && r.match_index == 3);
    let r = accepted(&node.handle_event(append(2, (1, 1), vec![entry(2, 2)], 2), false));
    assert!(r.success && r.match_index == 2);
    let terms: Vec<u64> = node.state.log.iter().map(|e| e.term).collect();
    assert_eq!(terms, vec![1, 2]);
    assert_eq!(node.state.commit_index, 2);
    assert_eq!(node.state.last_applied, 2);
    let r = accepted(&node.handle_event(append(2, (5, 2), vec![], 2), false));
    assert!(!r.success && r.match_index == 2);
    let r = accepted(&node.handle_event(append(1, (0, 0), vec![], 0), false));
    assert!(!r.success && r.term == 2);
}

#[test]
fn only_a_leader_takes_proposals() {
    let (mut node, _) = start(1, vec![2, 3], None, &[]);
    let actions = node.handle_event(Event::Propose { data: b"x".to_vec() }, false);
    assert!(matches!(actions[0], Action::ReplyPropose(Err(Rejection::NotLeader))));
    assert_eq!(Rejection::NotLeader.message(), "Not leader");
    let (mut single, _) = start(1, vec![], None, &[]);
    while !single.state.is_election_due() {
        single.handle_event(Event::Tick, false);
    }
    single.handle_event(Event::Tick, false);
    assert!(single.state.role == Role::Leader);
    let actions = single.handle_event(Event::Propose { data: b"x".to_vec() }, false);
    assert!(actions.iter().any(|a| matches!(a, Action::ReplyPropose(Ok(1)))));
    assert!(single.handle_event(Event::Shutdown, false).is_empty());
}

#[test]
fn a_step_needs_no_replica_around_it() {
    let mut state = RaftState::new(1, &[2]);
    let peers = vec![2];
    let ctx = HandleEventCtx { shard_id: 0, id: 1, peers: &peers };
    let actions = state.step(&ctx, vote(1, 2, 0, 0), 20, false);
    assert_eq!(granted(&actions), (1, true));
    assert_eq!(state.voted_for, Some(2));
    assert_eq!(state.get_term(0), 0);
    assert!(state.get_entry(1).is_none());
    assert_eq!(state.entries_between(1, 5).len(), 0);
}

#[test]
fn quorums_count_both_memberships() {
    let stable = ConfigState::Stable(vec![1, 2, 3]);
    let votes: HashSet<NodeId> = [1, 2].into_iter().collect();
    assert!(stable.is_quorum(&votes, 1));
    let one: HashSet<NodeId> = HashSet::new();
    assert!(!stable.is_quorum(&one, 1));
    let joint = ConfigState::Joint { old: vec![1, 2, 3], new: vec![3, 4, 5] };
    assert!(!joint.is_quorum(&votes, 1));
    let both: HashSet<NodeId> = [1, 2, 3, 4].into_iter().collect();
    assert!(joint.is_quorum(&both, 1));
    assert_eq!(joint.all_nodes(), vec![1, 2, 3, 4, 5]);
    let crossed = ConfigState::Joint { old: vec![5, 1, 5], new: vec![3, 1] };
    assert_eq!(crossed.all_nodes(), vec![1, 3, 5]);
    let matched: HashMap<NodeId, u64> = [(2, 5), (3, 4)].into_iter().collect();
    assert!(stable.can_commit(&matched, 1, 7, 5));
    assert!(!stable.can_commit(&matched, 1, 7, 6));
}

#[test]
fn payloads_entries_votes_and_memberships_are_read_back() {
    for p in [
        EntryPayload::Command(vec![1, 2, 3]),
        EntryPayload::ConfigJoint { old: vec![1], new: vec![2, 3] },
        EntryPayload::ConfigStable(vec![4]),
    ] {
        let b = encode_payload(&p);
        assert_eq!(format!("{:?}", decode_payload(&b).unwrap()), format!("{:?}", p));
    }
    assert!(decode_payload(&[9, 0, 0, 0]).is_none());
    assert_eq!(encode_payload(&EntryPayload::Command(vec![7])), vec![0, 0, 0, 0, 1, 0, 0, 0, 0, 0, 0, 0, 7]);
    let e = entry(3, 9);
    let r = decode_entry(&encode_entry(&e)).unwrap();
    assert_eq!((r.term, r.index, r.data), (3, 9, e.data));
    assert_eq!(decode_vote(&encode_vote(Some(6))), Some(Some(6)));
    assert_eq!(decode_vote(&encode_vote(None)), Some(None));
    assert_eq!(encode_vote(Some(1)), vec![1, 1, 0, 0, 0, 0, 0, 0, 0]);
    let c = ConfigState::Joint { old: vec![1], new: vec![2] };
    assert_eq!(format!("{:?}", decode_config(&encode_config(&c)).unwrap()), format!("{:?}", c));
    let s = encode_snapshot(4, 2, &c, b"rest");
    assert!(is_snapshot_readable(&s));
    let back = decode_snapshot(&s, vec![]);
    assert_eq!((back.index, back.term, back.payload), (4, 2, b"rest".to_vec()));
}

#[test]
fn a_log_file_adds_up() {
    let mut rs: Vec<WalRecord> = Vec::new();
    persist_term_and_vote(&mut rs, 3, Some(2));
    persist_log_entry(&mut rs, &entry(1, 1));
    persist_log_entry(&mut rs, &entry(1, 2));
    persist_log_len(&mut rs, 1);
    persist_log_entry(&mut rs, &entry(3, 2));
    let (back, len) = replay(&encode_records(&rs));
    assert_eq!(len, encode_records(&rs).len());
    let found = recover_log(&back);
    assert_eq!((found.term, found.vote, found.log_len), (3, Some(2), 2));
    let log = collect_entries(&found.entries, 1, 2);
    assert_eq!(log.iter().map(|e| e.term).collect::<Vec<u64>>(), vec![1, 3]);
    assert_eq!(make_entry_key(7), b"entry_00000000000000000007".to_vec());
    let mut state = RaftState::new(1, &[2]);
    state.current_term = 3;
    state.log = log;
    let again = recover_log(&rewrite_wal(&state));
    assert_eq!((again.term, again.vote, again.log_len), (3, None, 2));
}

#[test]
fn lists_are_copied_and_sorted() {
    assert_eq!(sort_nodes(&[3, 1, 2]), vec![1, 2, 3]);
    assert_eq!(default_nodes(2, &[3, 1]), vec![1, 2, 3]);
    let part = copy_entries(&[entry(1, 1), entry(1, 2), entry(1, 3)], 1, 3);
    assert_eq!(part.iter().map(|e| e.index).collect::<Vec<u64>>(), vec![2, 3]);
}

#[test]
fn errors_have_messages() {
    assert_eq!(TransportError::ConnectionRefused.message(), "Connection refused");
    assert_eq!(TransportError::Timeout.message(), "Timeout");
    assert_eq!(TransportError::Other("x".to_string()).message(), "Transport error: x");
    assert_eq!(TransportError::Serialization("x".to_string()).message(), "Serialization error: x");
    assert_eq!(StateMachineError::ApplyFailed("x".to_string()).message(), "Apply failed: x");
    assert_eq!(StateMachineError::SnapshotFailed("x".to_string()).message(), "Snapshot failed: x");
    assert_eq!(StateMachineError::RestoreFailed("x".to_string()).message(), "Restore failed: x");
}

#[test]
fn answers_of_another_kind_are_errors() {
    let r = NetworkResponse::RequestVote(RequestVoteResp { term: 1, vote_granted: true });
    assert!(expect_append(Ok(r)).is_err());
    assert!(matches!(expect_vote(Err(TransportError::Timeout)), Err(TransportError::Timeout)));
    let r = NetworkResponse::InstallSnapshot(InstallSnapshotResp { term: 4 });
    assert_eq!(expect_snapshot(Ok(r)).unwrap().term, 4);
}

#[test]
fn messages_to_nobody_are_refused_and_cut_off_ones_time_out() {
    let mut network = ChaosNetwork::new(1);
    let ask = |from: NodeId, to: NodeId, ticket: u64| PendingMsg {
        from,
        to,
        payload: NetworkPayload::RequestVote(RequestVoteReq {
            shard_id: 0,
            term: 1,
            candidate_id: from,
            last_log_index: 0,
            last_log_term: 0,
        }),
        ticket,
    };
    network.set_partition(1, 2);
    network.enqueue(ask(1, 2, 10));
    network.enqueue(ask(1, 3, 11));
    network.enqueue(ask(3, 1, 12));
    let (dropped, due) = network.tick(&[(1, ShardId(0)), (2, ShardId(0))]);
    assert_eq!(dropped.iter().map(|m| m.ticket).collect::<Vec<u64>>(), vec![10]);
    assert!(due.iter().any(|o| matches!(o, Outcome::Refused(m) if m.ticket == 11)));
    assert!(due.iter().any(|o| matches!(o, Outcome::Delivered(m) if m.ticket == 12)));
    network.heal_partitions();
    network.enqueue(ask(1, 2, 13));
    let (dropped, due) = network.tick(&[(2, ShardId(0))]);
    assert!(dropped.is_empty());
    assert!(matches!(&due[0], Outcome::Delivered(m) if m.ticket == 13));
}

#[test]
fn a_membership_holds_until_the_next_change() {
    let (mut node, _) = start(2, vec![1, 3], None, &[]);
    let change = |index, p: EntryPayload| LogEntry { term: 1, index, data: encode_payload(&p) };
    let plain = |index| change(index, EntryPayload::Command(vec![index as u8]));
    let joint = EntryPayload::ConfigJoint { old: vec![1, 2, 3], new: vec![1, 2, 4] };
    let entries = vec![
        plain(1),
        change(2, joint),
        plain(3),
        change(4, EntryPayload::ConfigStable(vec![1, 2, 4])),
        plain(5),
    ];
    node.handle_event(append(1, (0, 0), entries, 0), false);
    let shown: Vec<String> = (0..=9).map(|i| format!("{:?}", node.state.config_at(i))).collect();
    let first = format!("{:?}", ConfigState::Stable(vec![1, 2, 3]));
    let both = format!("{:?}", ConfigState::Joint { old: vec![1, 2, 3], new: vec![1, 2, 4] });
    let last = format!("{:?}", ConfigState::Stable(vec![1, 2, 4]));
    assert_eq!(shown[..2], [first.clone(), first]);
    assert_eq!(shown[2..4], [both.clone(), both]);
    assert!(shown[4..].iter().all(|s| *s == last));
    assert_eq!(format!("{:?}", node.state.config), last);
}

#[test]
fn entries_that_a_snapshot_covers_are_not_taken_again() {
    let (mut node, _) = start(2, vec![1, 3], None, &[]);
    let entries = || (1..=3).map(|i| entry(1, i)).collect::<Vec<LogEntry>>();
    node.handle_event(append(1, (0, 0), entries(), 2), false);
    node.state.take_snapshot(b"image".to_vec());
    assert_eq!(node.state.last_snapshot_index, 2);
    for again in [entries(), vec![entry(1, 1)], vec![]] {
        let actions = node.handle_event(append(1, (0, 0), again, 2), false);
        assert!(accepted(&actions).success);
        let indexes: Vec<u64> = node.state.log.iter().map(|e| e.index).collect();
        assert_eq!(indexes, vec![3]);
    }
    node.handle_event(append(1, (1, 1), vec![entry(1, 2), entry(1, 3), entry(1, 4)], 2), false);
    let indexes: Vec<u64> = node.state.log.iter().map(|e| e.index).collect();
    assert_eq!(indexes, vec![3, 4]);
}

#[test]
fn replicas_that_take_snapshots_apply_the_same() {
    for seed in 0..10 {
        let mut cluster = TestCluster::new(3, seed);
        let mut rng = rand::rngs::StdRng::seed_from_u64(seed);
        let mut applied: HashMap<u64, (u64, Vec<u8>)> = HashMap::new();
        for i in 0..300 {
            cluster.tick();
            if i % 7 == 0 {
                if let Some(l) = cluster.find_leader() {
                    cluster.propose(l, format!("k{},v{}", i % 5, i).as_bytes());
                }
            }
            for h in cluster.hosts.values() {
                let state = &h.node.state;
                for index in 1..=state.last_applied {
                    if let Some(e) = state.get_entry(index) {
                        assert_eq!(e.index, index);
                        let first = applied.entry(index).or_insert((e.term, e.data.clone()));
                        assert_eq!(*first, (e.term, e.data.clone()));
                    }
                }
            }
            let id = rng.gen_range(1..=3u64);
            if rng.gen_bool(0.1) && cluster.hosts[&id].node.state.role == Role::Follower {
                let actions =
                    cluster.hosts.get_mut(&id).unwrap().node.state.take_snapshot(b"image".to_vec());
                cluster.carry_out(id, actions);
            }
        }
        cluster.tick_n(50);
        assert!(applied.len() > 10);
        assert!(cluster.hosts.values().any(|h| h.node.state.last_snapshot_index > 0));
        let first = cluster.hosts[&1].db.clone();
        assert!(cluster.hosts.values().all(|h| h.db == first));
    }
}

#[test]
fn a_candidate_in_a_transition_needs_both_memberships() {
    let (mut node, _) = start(1, vec![2, 3], None, &[]);
    let joint = EntryPayload::ConfigJoint { old: vec![1, 2, 3], new: vec![1, 4, 5] };
    let e = LogEntry { term: 1, index: 1, data: encode_payload(&joint) };
    node.handle_event(append(1, (0, 0), vec![e], 0), false);
    while node.state.role != Role::Candidate {
        node.handle_event(Event::Tick, false);
    }
    let term = node.state.current_term;
    let vote = |peer| Event::RequestVoteResponse {
        peer,
        term,
        resp: RequestVoteResp { term, vote_granted: true },
    };
    node.handle_event(vote(2), false);
    node.handle_event(vote(3), false);
    assert_eq!(node.state.role, Role::Candidate);
    node.handle_event(vote(4), false);
    assert_eq!(node.state.role, Role::Leader);
    assert_eq!(node.state.current_term, term);
}
