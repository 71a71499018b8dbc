use std::collections::HashMap;
use strata::sharding::commands::{
    commit_key, data_key, error_key, lock_key, rollback_key, write_key, LockInfo, PrewriteError,
    ShardCommand,
};
use strata::sharding::machine::{find_conflict, find_lock, ShardStateMachine};
use strata::sharding::records::{
    decode_command, decode_commit, decode_conflict, decode_lock, decode_ts, decode_value,
    encode_command, encode_commit, encode_conflict, encode_lock, encode_ts, encode_value,
};
use strata::sharding::routing::{RangeRoute, RoutingTable, ShardId, ShardRouter};
use strata::storage::engine::Storage;
use strata::storage::error::StorageError;
use strata::storage::lsm::LsmStorage;
use strata::storage::timestamp::HlcTimestamp;
use strata::txn::coordinator::{
    apply_progress, apply_timeout, get_leader_node, get_storage_node, leader_progress,
    mutation_keys, ActiveTxns, Mutation, Prewrite, PrewriteAction, Progress, ReplicaStatus,
    LOCK_TTL,
};
use strata::txn::error::TxnError;
use strata::txn::read::{ReadAction, TxnRead};

type Machine = ShardStateMachine<fn(usize) -> (usize, usize)>;

fn size(n: usize) -> (usize, usize) {
    (n * 10 + 8, 7)
}

fn latest() -> HlcTimestamp {
    HlcTimestamp { physical: u64::MAX, logical: u32::MAX }
}

fn at(physical: u64) -> HlcTimestamp {
    HlcTimestamp { physical, logical: 0 }
}

fn machine(id: u32) -> Machine {
    machine_of(id, 1 << 20)
}

/// A shard whose recent writes become a table once they have grown so large.
fn machine_of(id: u32, max_memtable_size: usize) -> Machine {
    let levels = (0..7).map(|_| Vec::new()).collect();
    let sizing: fn(usize) -> (usize, usize) = size;
    let storage = LsmStorage::open(b"db".to_vec(), 1, levels, vec![], &[], max_memtable_size, sizing);
    ShardStateMachine::open(ShardId(id), storage, &None, &None)
}

/// Shards, and a coordinator that is carried out at once.
struct World {
    table: RoutingTable,
    shards: HashMap<u32, Machine>,
    active: ActiveTxns,
    clock: u64,
}

fn route(start: &[u8], end: &[u8], shard: u32) -> RangeRoute {
    RangeRoute {
        start_key: start.to_vec(),
        end_key: end.to_vec(),
        shard_id: ShardId(shard),
        raft_group: vec![1, 2, 3],
    }
}

impl World {
    fn new() -> Self {
        let mut table = RoutingTable::new();
        table.routes = vec![route(b"a", b"f", 1), route(b"f", b"p", 2), route(b"p", b"", 3)];
        let shards = [1, 2, 3].into_iter().map(|i| (i, machine(i))).collect();
        World { table, shards, active: ActiveTxns::new(), clock: 100 }
    }

    fn now(&mut self) -> HlcTimestamp {
        self.clock += 1;
        at(self.clock)
    }

    fn propose(&mut self, key: &[u8], c: ShardCommand) {
        let shard = self.table.shard_for_key(key);
        let bytes = encode_command(&c);
        let m = self.shards.get_mut(&shard.0).unwrap();
        m.apply(&mut self.table, &bytes).unwrap();
    }

    fn propose_all(&mut self, cs: Vec<ShardCommand>) {
        for c in cs {
            let key = match &c {
                ShardCommand::TxnCommit { key, .. } => key.clone(),
                ShardCommand::TxnRollback { key, .. } => key.clone(),
                other => panic!("{:?}", other),
            };
            self.propose(&key, c);
        }
    }

    fn read(&self, shard_key: &[u8], query: &[u8], as_of: HlcTimestamp) -> Option<Vec<u8>> {
        let shard = self.table.shard_for_key(shard_key);
        self.shards[&shard.0].storage.as_ref().unwrap().get_at(query, as_of)
    }

    fn prewrite(&mut self, ts: HlcTimestamp, ms: Vec<Mutation>) -> Result<(), TxnError> {
        let keys = mutation_keys(&ms);
        let (mut phase, mut action) = Prewrite::new(ts, ms);
        loop {
            action = match action {
                PrewriteAction::Propose { key, command } => {
                    self.propose(&key, command);
                    phase.on_value(None)
                }
                PrewriteAction::Get { shard_key, query } => {
                    let v = self.read(&shard_key, &query, latest());
                    phase.on_value(v)
                }
                PrewriteAction::Finished => {
                    self.active.insert(ts, keys);
                    return Ok(());
                }
                PrewriteAction::Failed { error, rollbacks } => {
                    self.propose_all(rollbacks);
                    return Err(error);
                }
            };
        }
    }

    fn commit(&mut self, start: HlcTimestamp, commit: HlcTimestamp) -> Result<(), TxnError> {
        let first = self.active.begin_commit(start, commit)?;
        self.propose(&first.primary, first.command);
        let decision = self.read(&first.primary, &first.decision_key, latest());
        let rest = self.active.finish_commit(start, commit, decision)?;
        self.propose_all(rest);
        Ok(())
    }

    fn abort(&mut self, start: HlcTimestamp) {
        let cs = self.active.abort(start, &[]);
        self.propose_all(cs);
    }

    /// Reads at most so many times; nothing if the lock stays.
    fn get(&mut self, key: &[u8], as_of: HlcTimestamp, now: u64) -> Option<Option<Vec<u8>>> {
        let (mut read, mut action) = TxnRead::new(key, as_of);
        for _ in 0..20 {
            action = match action {
                ReadAction::Get { shard_key, query, as_of } => {
                    let v = self.read(&shard_key, &query, as_of);
                    read.on_value(v, now)
                }
                ReadAction::RollForward(c) => {
                    self.propose_all(vec![c]);
                    read.again()
                }
                ReadAction::RollBack { primary, secondary } => {
                    self.propose_all(vec![primary, secondary]);
                    read.again()
                }
                ReadAction::Wait => return None,
                ReadAction::Done(v) => return Some(v),
            };
        }
        panic!("the read does not end");
    }
}

fn put(k: &[u8], v: &[u8]) -> Mutation {
    Mutation::Put(k.to_vec(), v.to_vec())
}

#[test]
fn test_cross_shard_txn_atomic_commit() {
    let mut w = World::new();
    let start_ts = w.now();
    w.prewrite(
        start_ts,
        vec![put(b"apple", b"red"), put(b"lemon", b"yellow"), put(b"zebra", b"stripes")],
    )
    .unwrap();
    let commit_ts = w.now();
    w.commit(start_ts, commit_ts).unwrap();
    let now = w.clock;
    assert_eq!(w.get(b"apple", commit_ts, now), Some(Some(b"red".to_vec())));
    assert_eq!(w.get(b"lemon", commit_ts, now), Some(Some(b"yellow".to_vec())));
    assert_eq!(w.get(b"zebra", commit_ts, now), Some(Some(b"stripes".to_vec())));
    assert_eq!(w.get(b"apple", start_ts, now), Some(None));

    let start_ts2 = w.now();
    w.prewrite(start_ts2, vec![put(b"apple", b"green"), put(b"lemon", b"sour")]).unwrap();
    w.abort(start_ts2);
    let later = w.now();
    assert_eq!(w.get(b"apple", later, now), Some(Some(b"red".to_vec())));
    assert_eq!(w.get(b"lemon", later, now), Some(Some(b"yellow".to_vec())));
}

#[test]
fn a_commit_is_read_where_every_write_becomes_a_table() {
    let mut w = World::new();
    for (id, shard) in w.shards.iter_mut() {
        *shard = machine_of(*id, 1);
    }
    let start = w.now();
    w.prewrite(start, vec![put(b"apple", b"red"), put(b"zebra", b"stripes")]).unwrap();
    let other = w.now();
    assert!(w.prewrite(other, vec![put(b"apple", b"green")]).is_err());
    let commit = w.now();
    w.commit(start, commit).unwrap();
    let now = w.clock;
    assert_eq!(w.get(b"apple", commit, now), Some(Some(b"red".to_vec())));
    assert_eq!(w.get(b"zebra", commit, now), Some(Some(b"stripes".to_vec())));
    assert_eq!(w.get(b"apple", start, now), Some(None));
    let next = w.now();
    w.prewrite(next, vec![put(b"apple", b"brown")]).unwrap();
    w.abort(next);
    let later = w.now();
    assert_eq!(w.get(b"apple", later, now), Some(Some(b"red".to_vec())));
}

#[test]
fn test_write_write_conflict_detected() {
    let mut w = World::new();
    let start_ts1 = w.now();
    let start_ts2 = w.now();
    w.prewrite(start_ts1, vec![put(b"apple", b"red")]).unwrap();
    let res = w.prewrite(start_ts2, vec![put(b"apple", b"green")]);
    assert!(res.is_err());
    assert!(matches!(res.unwrap_err(), TxnError::LockConflict { .. }));
    w.abort(start_ts1);

    let start_ts3 = w.now();
    w.prewrite(start_ts3, vec![put(b"apple", b"yellow")]).unwrap();
    let commit_ts3 = w.now();
    w.commit(start_ts3, commit_ts3).unwrap();
    let res2 = w.prewrite(start_ts2, vec![put(b"apple", b"green")]);
    assert!(res2.is_err());
    assert!(matches!(res2.unwrap_err(), TxnError::WriteConflict { .. }));
}

#[test]
fn test_read_encounters_lock_resolves_correctly() {
    let mut w = World::new();
    let start_ts1 = w.now();
    w.prewrite(start_ts1, vec![put(b"apple", b"red")]).unwrap();
    let reader_ts = w.now();
    let now = w.clock;
    assert_eq!(w.get(b"apple", reader_ts, now), None);
    let commit_ts1 = w.now();
    w.commit(start_ts1, commit_ts1).unwrap();
    assert_eq!(w.get(b"apple", reader_ts, now), Some(None));
    let reader_ts2 = w.now();
    assert_eq!(w.get(b"apple", reader_ts2, now), Some(Some(b"red".to_vec())));
}

#[test]
fn test_txn_survives_coordinator_crash_mid_commit() {
    let mut w = World::new();
    let start_ts = w.now();
    w.prewrite(start_ts, vec![put(b"apple", b"red"), put(b"lemon", b"yellow")]).unwrap();
    let commit_ts = w.now();
    w.propose(
        b"apple",
        ShardCommand::TxnCommit {
            key: b"apple".to_vec(),
            start_ts,
            commit_ts,
            is_primary: true,
        },
    );
    let read_ts = at(2000);
    assert_eq!(w.get(b"lemon", read_ts, 2000), Some(Some(b"yellow".to_vec())));
    assert_eq!(w.read(b"lemon", &lock_key(b"lemon"), latest()), None);
}

#[test]
fn a_transaction_that_never_commits_is_rolled_back_by_readers() {
    let mut w = World::new();
    let start_ts = w.now();
    w.prewrite(start_ts, vec![put(b"apple", b"red"), put(b"lemon", b"yellow")]).unwrap();
    assert_eq!(w.get(b"lemon", at(3000), 100 + LOCK_TTL), None);
    assert_eq!(w.get(b"lemon", at(3000), 3000), Some(None));
    assert_eq!(w.get(b"apple", at(3000), 3000), Some(None));
    assert!(matches!(w.commit(start_ts, at(3001)), Err(TxnError::Aborted)));
    assert!(w.read(b"lemon", &rollback_key(b"lemon", start_ts), latest()).is_some());
}

#[test]
fn a_read_sees_what_was_committed_by_its_time() {
    let mut w = World::new();
    let start1 = w.now();
    w.prewrite(start1, vec![put(b"apple", b"red")]).unwrap();
    let commit1 = w.now();
    w.commit(start1, commit1).unwrap();
    let between = w.now();
    let start2 = w.now();
    w.prewrite(start2, vec![put(b"apple", b"green")]).unwrap();
    let now = w.clock;
    assert_eq!(w.get(b"apple", between, now), Some(Some(b"red".to_vec())));
    assert_eq!(w.get(b"apple", start2, now), None);
    let commit2 = w.now();
    w.commit(start2, commit2).unwrap();
    assert_eq!(w.get(b"apple", start2, now), Some(Some(b"red".to_vec())));
    assert_eq!(w.get(b"apple", commit2, now), Some(Some(b"green".to_vec())));
}

#[test]
fn a_deletion_commits_as_nothing() {
    let mut w = World::new();
    let t1 = w.now();
    w.prewrite(t1, vec![put(b"apple", b"red")]).unwrap();
    let c1 = w.now();
    w.commit(t1, c1).unwrap();
    let t2 = w.now();
    w.prewrite(t2, vec![Mutation::Delete(b"apple".to_vec())]).unwrap();
    let c2 = w.now();
    w.commit(t2, c2).unwrap();
    let now = w.clock;
    assert_eq!(w.get(b"apple", c1, now), Some(Some(b"red".to_vec())));
    assert_eq!(w.get(b"apple", c2, now), Some(None));
}

#[test]
fn a_failed_first_phase_frees_what_it_locked() {
    let mut w = World::new();
    let t1 = w.now();
    w.prewrite(t1, vec![put(b"lemon", b"yellow")]).unwrap();
    let t2 = w.now();
    let refused = w.prewrite(t2, vec![put(b"apple", b"red"), put(b"lemon", b"green")]);
    match refused {
        Err(TxnError::LockConflict { key, primary, lock_ts }) => {
            assert_eq!(key, b"lemon".to_vec());
            assert_eq!(primary, b"lemon".to_vec());
            assert_eq!(lock_ts, t1);
        }
        other => panic!("{:?}", other),
    }
    let m = &w.shards[&1];
    assert!(find_lock(m.storage.as_ref().unwrap(), b"apple").is_none());
    let lock = find_lock(w.shards[&2].storage.as_ref().unwrap(), b"lemon").unwrap();
    assert_eq!((lock.ts, lock.ttl), (t1, LOCK_TTL));
    let conflict = find_conflict(w.shards[&2].storage.as_ref().unwrap(), b"lemon", t2);
    assert!(matches!(conflict, Some(PrewriteError::LockConflict { .. })));
}

#[test]
fn transactions_that_are_not_known_cannot_commit() {
    let mut active = ActiveTxns::new();
    assert!(matches!(active.begin_commit(at(1), at(2)), Err(TxnError::Other(_))));
    active.insert(at(1), vec![b"k".to_vec(), b"l".to_vec()]);
    assert_eq!(active.get(at(1)).unwrap().len(), 2);
    assert!(matches!(active.finish_commit(at(1), at(2), None), Err(TxnError::Aborted)));
    let rest = active.finish_commit(at(1), at(2), Some(vec![])).unwrap();
    assert!(matches!(&rest[..], [ShardCommand::TxnCommit { is_primary: false, .. }]));
    assert!(active.get(at(1)).is_none());
    let cs = active.abort(at(9), &[put(b"m", b"n")]);
    assert!(matches!(&cs[..], [ShardCommand::TxnRollback { .. }]));
    assert!(active.remove(at(9)).is_none());
}

#[test]
fn keys_of_the_kinds_differ() {
    assert_eq!(lock_key(b"k"), b"lk".to_vec());
    assert_eq!(data_key(b"k"), b"dk".to_vec());
    assert_eq!(write_key(b"k"), b"wk".to_vec());
    let ts = HlcTimestamp { physical: 1, logical: 2 };
    let tail = [0u8, 0, 0, 0, 0, 0, 0, 1, 0, 0, 0, 2];
    assert_eq!(commit_key(b"k", ts), [b"ck", &tail[..]].concat());
    assert_eq!(error_key(b"k", ts), [b"ek", &tail[..]].concat());
    assert_eq!(rollback_key(b"k", ts), [b"rk", &tail[..]].concat());
}

#[test]
fn records_are_read_back() {
    let l = LockInfo { primary: b"p".to_vec(), ts: at(7), ttl: 9 };
    let r = decode_lock(&encode_lock(&l)).unwrap();
    assert_eq!((r.primary, r.ts, r.ttl), (b"p".to_vec(), at(7), 9));
    assert_eq!(decode_commit(&encode_commit(at(1), at(2))), Some((at(1), at(2))));
    assert_eq!(decode_ts(&encode_ts(at(3))), Some(at(3)));
    assert_eq!(decode_value(&encode_value(&Some(vec![1]))), Some(Some(vec![1])));
    assert_eq!(decode_value(&encode_value(&None)), Some(None));
    let c = PrewriteError::LockConflict { primary: b"p".to_vec(), ts: at(4) };
    assert!(matches!(
        decode_conflict(&encode_conflict(&c)),
        Some(PrewriteError::LockConflict { ts, .. }) if ts == at(4)
    ));
    let w = PrewriteError::WriteConflict(at(5));
    assert!(matches!(decode_conflict(&encode_conflict(&w)), Some(PrewriteError::WriteConflict(t)) if t == at(5)));
    assert!(decode_lock(&[1]).is_none());
    assert!(decode_command(&[200, 0, 0, 0]).is_none());
    let cmd = ShardCommand::TxnRollback { key: b"k".to_vec(), start_ts: at(1) };
    assert_eq!(format!("{:?}", decode_command(&encode_command(&cmd)).unwrap()), format!("{:?}", cmd));
}

#[test]
fn a_command_is_written_as_its_number_and_its_fields() {
    let c = ShardCommand::Delete { key: b"k".to_vec(), ts: HlcTimestamp { physical: 5, logical: 6 } };
    let mut want = vec![1u8, 0, 0, 0];
    want.extend(1u64.to_le_bytes());
    want.push(b'k');
    want.extend(5u64.to_le_bytes());
    want.extend(6u32.to_le_bytes());
    assert_eq!(encode_command(&c), want);
}

#[test]
fn leaders_and_storages_are_found_in_the_group() {
    let status = |node: u64, is_leader: bool, has_storage: bool| ReplicaStatus {
        node,
        is_leader,
        has_machine: true,
        has_storage,
    };
    let known = [status(1, false, true), status(2, true, true), status(3, true, true)];
    assert_eq!(get_leader_node(ShardId(1), &[1, 2, 3], &known).unwrap(), 2);
    assert!(get_leader_node(ShardId(1), &[1], &known).is_err());
    assert_eq!(get_storage_node(ShardId(1), &[1, 2], &known).unwrap(), 2);
    assert_eq!(get_storage_node(ShardId(1), &[1], &known).unwrap(), 1);
    assert!(get_storage_node(ShardId(1), &[9], &known).is_err());
}

#[test]
fn waiting_has_an_end() {
    assert_eq!(leader_progress(true, 0), Progress::Ready);
    assert_eq!(leader_progress(false, 0), Progress::Sleep);
    assert_eq!(leader_progress(false, 100), Progress::GiveUp);
    assert_eq!(apply_progress(5, 5, 0), Progress::Ready);
    assert_eq!(apply_progress(4, 5, 0), Progress::Sleep);
    assert_eq!(apply_progress(4, 5, 200), Progress::GiveUp);
    assert!(matches!(apply_timeout(), TxnError::Other(_)));
}

#[test]
fn errors_are_put_in_words() {
    assert_eq!(TxnError::Aborted.message(), "Transaction aborted");
    let e = TxnError::WriteConflict { key: vec![107], conflict_ts: at(3) };
    let words = "Write conflict on key [107], conflict_ts: 3:0";
    assert_eq!(e.message(), words);
    let e = TxnError::Storage(StorageError::InvalidKey);
    assert!(e.message().starts_with("Storage error"));
}

#[test]
fn a_storage_is_used_through_its_trait() {
    let mut m = machine(1);
    let s = m.storage.as_mut().unwrap();
    s.put(b"k", b"v", at(1)).unwrap();
    s.delete(b"k", at(2)).unwrap();
    assert_eq!(s.get(b"k", at(1)).unwrap(), Some(b"v".to_vec()));
    assert_eq!(s.get(b"k", at(2)).unwrap(), None);
}
