//! Running a transaction: locking its keys, then committing them or rolling
//! them back.
//!
//! The coordinator decides what is to be proposed to which shard and what is to
//! be read back; proposing, reading and waiting are done around it.
use crate::bytes;
use crate::consensus::messages::NodeId;
use crate::sharding::commands;
use crate::sharding::commands::{
    commit_key, error_key, lock_key, CommandView, ConflictView, PrewriteError, ShardCommand,
};
use crate::sharding::machine;
use crate::sharding::records;
use crate::sharding::routing::ShardId;
use crate::storage::timestamp::HlcTimestamp;
use crate::text;
use crate::txn::error::{ErrorView, TxnError};
use vstd::prelude::*;

verus! {

/// A change that a transaction makes.
#[derive(Debug)]
pub enum Mutation {
    Put(Vec<u8>, Vec<u8>),
    Delete(Vec<u8>),
}

#[verifier::ext_equal]
pub enum MutationView {
    Put(Seq<u8>, Seq<u8>),
    Delete(Seq<u8>),
}

impl View for Mutation {
    type V = MutationView;

    open spec fn view(&self) -> MutationView {
        match self {
            Mutation::Put(k, v) => MutationView::Put(k@, v@),
            Mutation::Delete(k) => MutationView::Delete(k@),
        }
    }
}

impl MutationView {
    pub open spec fn key(self) -> Seq<u8> {
        match self {
            MutationView::Put(k, _) => k,
            MutationView::Delete(k) => k,
        }
    }

    pub open spec fn value(self) -> Option<Seq<u8>> {
        match self {
            MutationView::Put(_, v) => Some(v),
            MutationView::Delete(_) => None,
        }
    }
}

impl Mutation {
    /// The key that is changed.
    pub fn key(&self) -> (r: &Vec<u8>)
        ensures
            r@ == self@.key(),
    {
        match self {
            Mutation::Put(k, _) => k,
            Mutation::Delete(k) => k,
        }
    }

    /// The value that is written; none for a deletion.
    pub fn value(&self) -> (r: Option<Vec<u8>>)
        ensures
            bytes::value_view(r) == self@.value(),
    {
        match self {
            Mutation::Put(_, v) => Some(bytes::copy_bytes(v.as_slice())),
            Mutation::Delete(_) => None,
        }
    }
}

pub open spec fn mutation_views(v: Seq<Mutation>) -> Seq<MutationView> {
    v.map_values(|m: Mutation| m@)
}

/// The keys that are changed.
pub open spec fn keys_of(ms: Seq<MutationView>) -> Seq<Seq<u8>> {
    ms.map_values(|m: MutationView| m.key())
}

/// The keys that are changed.
pub fn mutation_keys(ms: &[Mutation]) -> (r: Vec<Vec<u8>>)
    ensures
        bytes::views(r@) == keys_of(mutation_views(ms@)),
{
    let ghost want = keys_of(mutation_views(ms@));
    let mut r: Vec<Vec<u8>> = Vec::new();
    let mut i: usize = 0;
    while i < ms.len()
        invariant
            i <= ms@.len(),
            want == keys_of(mutation_views(ms@)),
            r@.len() == i,
            forall|k: int| 0 <= k < i ==> (#[trigger] r@[k])@ == want[k],
        decreases ms@.len() - i,
    {
        r.push(bytes::copy_bytes(ms[i].key().as_slice()));
        i = i + 1;
    }
    assert(bytes::views(r@) =~= want);
    r
}

/// Runs transactions in two phases.
pub trait TransactionCoordinator {
    fn begin(&mut self) -> HlcTimestamp;

    fn prewrite(&mut self, txn_ts: HlcTimestamp, mutations: &[Mutation]) -> Result<(), TxnError>;

    fn commit(&mut self, txn_ts: HlcTimestamp, commit_ts: HlcTimestamp) -> Result<(), TxnError>;

    fn abort(&mut self, txn_ts: HlcTimestamp) -> Result<(), TxnError>;
}

// ----------------------------------------------------------------------
// The transactions under way
// ----------------------------------------------------------------------
/// The transactions under way, with the keys that they change.
pub struct ActiveTxns {
    entries: Vec<(HlcTimestamp, Vec<Vec<u8>>)>,
}

/// The keys of the last entry of a transaction.
spec fn find_entry(es: Seq<(HlcTimestamp, Vec<Vec<u8>>)>, ts: HlcTimestamp) -> Option<Seq<Seq<u8>>>
    decreases es.len(),
{
    if es.len() == 0 {
        None
    } else if es.last().0 == ts {
        Some(bytes::views(es.last().1@))
    } else {
        find_entry(es.drop_last(), ts)
    }
}

/// Keys that may be missing, as a mathematical value.
pub open spec fn keys_view(k: Option<Vec<Vec<u8>>>) -> Option<Seq<Seq<u8>>> {
    match k {
        Some(k) => Some(bytes::views(k@)),
        None => None,
    }
}

fn copy_keys(ks: &[Vec<u8>]) -> (r: Vec<Vec<u8>>)
    ensures
        bytes::views(r@) == bytes::views(ks@),
{
    let mut r: Vec<Vec<u8>> = Vec::new();
    let mut i: usize = 0;
    while i < ks.len()
        invariant
            i <= ks@.len(),
            r@.len() == i,
            forall|k: int| 0 <= k < i ==> (#[trigger] r@[k])@ == ks@[k]@,
        decreases ks@.len() - i,
    {
        r.push(bytes::copy_bytes(ks[i].as_slice()));
        i = i + 1;
    }
    assert(bytes::views(r@) =~= bytes::views(ks@));
    r
}

impl ActiveTxns {
    /// The keys of a transaction under way.
    pub closed spec fn keys(&self, ts: HlcTimestamp) -> Option<Seq<Seq<u8>>> {
        find_entry(self.entries@, ts)
    }

    /// No transactions.
    pub fn new() -> (r: Self)
        ensures
            forall|ts: HlcTimestamp| #[trigger] r.keys(ts) is None,
    {
        ActiveTxns { entries: Vec::new() }
    }

    /// Notes a transaction's keys.
    pub fn insert(&mut self, ts: HlcTimestamp, keys: Vec<Vec<u8>>)
        ensures
            forall|t: HlcTimestamp| #[trigger]
                final(self).keys(t) == if t == ts {
                    Some(bytes::views(keys@))
                } else {
                    old(self).keys(t)
                },
    {
        let ghost before = self.entries@;
        self.entries.push((ts, keys));
        assert(self.entries@.drop_last() =~= before);
    }

    /// A copy of a transaction's keys.
    pub fn get(&self, ts: HlcTimestamp) -> (r: Option<Vec<Vec<u8>>>)
        ensures
            keys_view(r) == self.keys(ts),
    {
        let ghost all = self.entries@;
        let mut i: usize = self.entries.len();
        assert(all.take(i as int) =~= all);
        while i > 0
            invariant
                i <= self.entries@.len(),
                all == self.entries@,
                find_entry(all, ts) == find_entry(all.take(i as int), ts),
            decreases i,
        {
            proof {
                assert(all.take(i as int).last() == all[i - 1]);
                assert(all.take(i as int).drop_last() =~= all.take(i - 1));
            }
            if self.entries[i - 1].0 == ts {
                return Some(copy_keys(self.entries[i - 1].1.as_slice()));
            }
            i = i - 1;
        }
        None
    }

    /// Forgets a transaction, and gives its keys.
    pub fn remove(&mut self, ts: HlcTimestamp) -> (r: Option<Vec<Vec<u8>>>)
        ensures
            keys_view(r) == old(self).keys(ts),
            forall|t: HlcTimestamp| #[trigger]
                final(self).keys(t) == if t == ts {
                    None
                } else {
                    old(self).keys(t)
                },
    {
        let r = self.get(ts);
        let ghost all = self.entries@;
        let ghost mut done: int = 0;
        let mut rest: Vec<(HlcTimestamp, Vec<Vec<u8>>)> = Vec::new();
        std::mem::swap(&mut rest, &mut self.entries);
        assert(all.skip(0) =~= all);
        assert(all.take(0) =~= Seq::empty());
        while rest.len() > 0
            invariant
                0 <= done <= all.len(),
                rest@ == all.skip(done),
                forall|t: HlcTimestamp| #[trigger]
                    find_entry(self.entries@, t) == if t == ts {
                        None
                    } else {
                        find_entry(all.take(done), t)
                    },
            decreases rest@.len(),
        {
            let e = rest.remove(0);
            proof {
                assert(all.skip(done)[0] == e);
                assert(all.take(done + 1).drop_last() =~= all.take(done));
                assert(all.take(done + 1).last() == e);
                assert(all.skip(done).remove(0) =~= all.skip(done + 1));
            }
            let ghost before = self.entries@;
            if e.0 != ts {
                self.entries.push(e);
                assert(self.entries@.drop_last() =~= before);
            }
            proof {
                assert forall|t: HlcTimestamp| #[trigger] find_entry(self.entries@, t) == if t
                    == ts {
                    None
                } else {
                    find_entry(all.take(done + 1), t)
                } by {
                    assert(find_entry(before, t) == if t == ts {
                        None
                    } else {
                        find_entry(all.take(done), t)
                    });
                }
                done = done + 1;
            }
        }
        assert(all.take(done) =~= all);
        r
    }
}

// ----------------------------------------------------------------------
// The first phase
// ----------------------------------------------------------------------
/// How long a lock is held before others may settle it, in milliseconds.
pub const LOCK_TTL: u64 = 1000;

/// What was asked last.
#[derive(Debug, Clone, Copy, PartialEq, Eq, Structural)]
pub enum PrewriteStage {
    /// The command was proposed.
    Proposed,
    /// The lock was asked for.
    Lock,
    /// The refusal was asked for.
    Refusal,
}

/// What the first phase asks for next.
#[derive(Debug)]
pub enum PrewriteAction {
    /// Propose the command to the shard of the key.
    Propose { key: Vec<u8>, command: ShardCommand },
    /// Read the latest version of `query` from the shard of `shard_key`.
    Get { shard_key: Vec<u8>, query: Vec<u8> },
    /// All keys are locked.
    Finished,
    /// A key could not be locked; the rollbacks are to be proposed, whatever
    /// comes of them.
    Failed { error: TxnError, rollbacks: Vec<ShardCommand> },
}

#[verifier::ext_equal]
pub enum PrewriteActionView {
    Propose { key: Seq<u8>, command: CommandView },
    Get { shard_key: Seq<u8>, query: Seq<u8> },
    Finished,
    Failed { error: ErrorView, rollbacks: Seq<CommandView> },
}

pub open spec fn command_views(v: Seq<ShardCommand>) -> Seq<CommandView> {
    v.map_values(|c: ShardCommand| c@)
}

impl View for PrewriteAction {
    type V = PrewriteActionView;

    open spec fn view(&self) -> PrewriteActionView {
        match self {
            PrewriteAction::Propose { key, command } => PrewriteActionView::Propose {
                key: key@,
                command: command@,
            },
            PrewriteAction::Get { shard_key, query } => PrewriteActionView::Get {
                shard_key: shard_key@,
                query: query@,
            },
            PrewriteAction::Finished => PrewriteActionView::Finished,
            PrewriteAction::Failed { error, rollbacks } => PrewriteActionView::Failed {
                error: error@,
                rollbacks: command_views(rollbacks@),
            },
        }
    }
}

/// The first phase of a transaction: its keys are locked one after the other,
/// the first one, which is its primary key, before the others.
pub struct Prewrite {
    pub txn_ts: HlcTimestamp,
    pub mutations: Vec<Mutation>,
    pub at: usize,
    pub stage: PrewriteStage,
}

/// The first phase as a mathematical value.
#[verifier::ext_equal]
pub struct PrewriteView {
    pub txn_ts: HlcTimestamp,
    pub mutations: Seq<MutationView>,
    pub at: int,
    pub stage: PrewriteStage,
}

impl View for Prewrite {
    type V = PrewriteView;

    open spec fn view(&self) -> PrewriteView {
        PrewriteView {
            txn_ts: self.txn_ts,
            mutations: mutation_views(self.mutations@),
            at: self.at as int,
            stage: self.stage,
        }
    }
}

/// The rollbacks of a transaction's keys.
pub open spec fn rollbacks_of(keys: Seq<Seq<u8>>, start_ts: HlcTimestamp) -> Seq<CommandView> {
    keys.map_values(|k: Seq<u8>| CommandView::TxnRollback { key: k, start_ts })
}

impl PrewriteView {
    pub open spec fn wf(self) -> bool {
        0 <= self.at < self.mutations.len()
    }

    /// The key that is being locked.
    pub open spec fn key(self) -> Seq<u8> {
        self.mutations[self.at].key()
    }

    /// The proposal to lock the key.
    pub open spec fn proposal(self) -> PrewriteActionView {
        PrewriteActionView::Propose {
            key: self.key(),
            command: CommandView::TxnPrewrite {
                key: self.key(),
                value: self.mutations[self.at].value(),
                primary: self.mutations[0].key(),
                start_ts: self.txn_ts,
                ttl: LOCK_TTL,
            },
        }
    }

    /// A key could not be locked: where others were locked before, all are
    /// rolled back.
    pub open spec fn failed(self, error: ErrorView) -> PrewriteActionView {
        PrewriteActionView::Failed {
            error,
            rollbacks: if self.at == 0 {
                Seq::empty()
            } else {
                rollbacks_of(keys_of(self.mutations), self.txn_ts)
            },
        }
    }

    /// What was read says that the transaction has locked the key.
    pub open spec fn locked(self, value: Option<Seq<u8>>) -> bool {
        match value {
            Some(b) => match records::dec_lock(b) {
                Some(l) => l.ts == self.txn_ts,
                None => false,
            },
            None => false,
        }
    }

    /// Why the key could not be locked.
    pub open spec fn refusal(self, value: Option<Seq<u8>>) -> ErrorView {
        match value {
            Some(b) => match records::dec_conflict(b) {
                Some(ConflictView::WriteConflict(ts)) => ErrorView::WriteConflict {
                    key: self.key(),
                    conflict_ts: ts,
                },
                Some(ConflictView::LockConflict { primary, ts }) => ErrorView::LockConflict {
                    key: self.key(),
                    primary,
                    lock_ts: ts,
                },
                None => ErrorView::Aborted,
            },
            None => ErrorView::Aborted,
        }
    }

    /// What follows a proposal that was executed, or a read.
    pub open spec fn step(self, value: Option<Seq<u8>>) -> (PrewriteView, PrewriteActionView) {
        match self.stage {
            PrewriteStage::Proposed => (
                PrewriteView { stage: PrewriteStage::Lock, ..self },
                PrewriteActionView::Get {
                    shard_key: self.key(),
                    query: commands::tagged(commands::LOCK_TAG, self.key()),
                },
            ),
            PrewriteStage::Lock => if self.locked(value) {
                if self.at + 1 < self.mutations.len() {
                    let next = PrewriteView {
                        at: self.at + 1,
                        stage: PrewriteStage::Proposed,
                        ..self
                    };
                    (next, next.proposal())
                } else {
                    (self, PrewriteActionView::Finished)
                }
            } else {
                (
                    PrewriteView { stage: PrewriteStage::Refusal, ..self },
                    PrewriteActionView::Get {
                        shard_key: self.key(),
                        query: commands::tagged_at(commands::ERROR_TAG, self.key(), self.txn_ts),
                    },
                )
            },
            PrewriteStage::Refusal => (self, self.failed(self.refusal(value))),
        }
    }
}

/// The rollbacks of a transaction's keys.
pub fn rollback_commands(keys: &[Vec<u8>], start_ts: HlcTimestamp) -> (r: Vec<ShardCommand>)
    ensures
        command_views(r@) == rollbacks_of(bytes::views(keys@), start_ts),
{
    let ghost want = rollbacks_of(bytes::views(keys@), start_ts);
    let mut r: Vec<ShardCommand> = Vec::new();
    let mut i: usize = 0;
    while i < keys.len()
        invariant
            i <= keys@.len(),
            want == rollbacks_of(bytes::views(keys@), start_ts),
            r@.len() == i,
            forall|k: int| 0 <= k < i ==> (#[trigger] r@[k])@ == want[k],
        decreases keys@.len() - i,
    {
        r.push(
            ShardCommand::TxnRollback { key: bytes::copy_bytes(keys[i].as_slice()), start_ts },
        );
        i = i + 1;
    }
    assert(command_views(r@) =~= want);
    r
}

impl Prewrite {
    /// Begins the first phase of a transaction that changes anything.
    pub fn new(txn_ts: HlcTimestamp, mutations: Vec<Mutation>) -> (r: (Self, PrewriteAction))
        requires
            mutations@.len() > 0,
        ensures
            r.0@ == (PrewriteView {
                txn_ts,
                mutations: mutation_views(mutations@),
                at: 0,
                stage: PrewriteStage::Proposed,
            }),
            r.0@.wf(),
            r.1@ == r.0@.proposal(),
    {
        let p = Prewrite { txn_ts, mutations, at: 0, stage: PrewriteStage::Proposed };
        let first = p.propose();
        (p, first)
    }

    fn propose(&self) -> (r: PrewriteAction)
        requires
            self@.wf(),
        ensures
            r@ == self@.proposal(),
    {
        let m = &self.mutations[self.at];
        let command = ShardCommand::TxnPrewrite {
            key: bytes::copy_bytes(m.key().as_slice()),
            value: m.value(),
            primary: bytes::copy_bytes(self.mutations[0].key().as_slice()),
            start_ts: self.txn_ts,
            ttl: LOCK_TTL,
        };
        PrewriteAction::Propose { key: bytes::copy_bytes(m.key().as_slice()), command }
    }

    /// What is to be done when a proposal or a read has failed.
    pub fn on_error(&self, error: TxnError) -> (r: PrewriteAction)
        requires
            self@.wf(),
        ensures
            r@ == self@.failed(error@),
    {
        if self.at == 0 {
            let rollbacks: Vec<ShardCommand> = Vec::new();
            assert(command_views(rollbacks@) =~= Seq::empty());
            return PrewriteAction::Failed { error, rollbacks };
        }
        let keys = mutation_keys(self.mutations.as_slice());
        let rollbacks = rollback_commands(keys.as_slice(), self.txn_ts);
        PrewriteAction::Failed { error, rollbacks }
    }

    /// Goes on behind a proposal that was executed (then there is no value), or
    /// with what was read.
    pub fn on_value(&mut self, value: Option<Vec<u8>>) -> (r: PrewriteAction)
        requires
            old(self)@.wf(),
        ensures
            (final(self)@, r@) == old(self)@.step(bytes::value_view(value)),
            final(self)@.wf(),
    {
        let key = bytes::copy_bytes(self.mutations[self.at].key().as_slice());
        match self.stage {
            PrewriteStage::Proposed => {
                self.stage = PrewriteStage::Lock;
                let query = lock_key(key.as_slice());
                PrewriteAction::Get { shard_key: key, query }
            },
            PrewriteStage::Lock => {
                let locked: bool = match &value {
                    Some(b) => match records::decode_lock(b.as_slice()) {
                        Some(l) => l.ts == self.txn_ts,
                        None => false,
                    },
                    None => false,
                };
                if locked {
                    if self.mutations.len() - self.at > 1 {
                        self.at = self.at + 1;
                        self.stage = PrewriteStage::Proposed;
                        self.propose()
                    } else {
                        PrewriteAction::Finished
                    }
                } else {
                    self.stage = PrewriteStage::Refusal;
                    let query = error_key(key.as_slice(), self.txn_ts);
                    PrewriteAction::Get { shard_key: key, query }
                }
            },
            PrewriteStage::Refusal => {
                let error = match &value {
                    Some(b) => match records::decode_conflict(b.as_slice()) {
                        Some(PrewriteError::WriteConflict(ts)) => TxnError::WriteConflict {
                            key,
                            conflict_ts: ts,
                        },
                        Some(PrewriteError::LockConflict { primary, ts }) => {
                            TxnError::LockConflict { key, primary, lock_ts: ts }
                        },
                        None => TxnError::Aborted,
                    },
                    None => TxnError::Aborted,
                };
                self.on_error(error)
            },
        }
    }
}

// ----------------------------------------------------------------------
// The second phase
// ----------------------------------------------------------------------
/// The commit of one key.
pub open spec fn commit_of(
    key: Seq<u8>,
    start_ts: HlcTimestamp,
    commit_ts: HlcTimestamp,
    is_primary: bool,
) -> CommandView {
    CommandView::TxnCommit { key, start_ts, commit_ts, is_primary }
}

/// The commit of the primary key.
pub open spec fn first_commit(
    keys: Seq<Seq<u8>>,
    start_ts: HlcTimestamp,
    commit_ts: HlcTimestamp,
) -> CommandView {
    commit_of(keys[0], start_ts, commit_ts, true)
}

/// The commits of the other keys, in their order.
pub open spec fn other_commits(
    keys: Seq<Seq<u8>>,
    start_ts: HlcTimestamp,
    commit_ts: HlcTimestamp,
) -> Seq<CommandView> {
    keys.skip(1).map_values(|k: Seq<u8>| commit_of(k, start_ts, commit_ts, false))
}

/// What is to be done first to commit.
#[derive(Debug)]
pub struct CommitStart {
    /// The primary key.
    pub primary: Vec<u8>,
    /// What is to be proposed to its shard.
    pub command: ShardCommand,
    /// What is to be read from its shard behind that.
    pub decision_key: Vec<u8>,
}

impl ActiveTxns {
    /// Begins the second phase: the primary key is committed first.
    pub fn begin_commit(&self, txn_ts: HlcTimestamp, commit_ts: HlcTimestamp) -> (r: Result<
        CommitStart,
        TxnError,
    >)
        ensures
            match self.keys(txn_ts) {
                Some(ks) if ks.len() > 0 => r matches Ok(c) && c.primary@ == ks[0] && c.command@
                    == first_commit(ks, txn_ts, commit_ts) && c.decision_key@
                    == commands::tagged_at(commands::COMMIT_TAG, ks[0], txn_ts),
                _ => r matches Err(e) && e@ == ErrorView::Other(
                    "Transaction not found or has no mutations"@,
                ),
            },
    {
        match self.get(txn_ts) {
            Some(ks) => {
                if ks.len() > 0 {
                    assert(bytes::views(ks@)[0] == ks@[0]@);
                    let command = ShardCommand::TxnCommit {
                        key: bytes::copy_bytes(ks[0].as_slice()),
                        start_ts: txn_ts,
                        commit_ts,
                        is_primary: true,
                    };
                    let decision_key = commit_key(ks[0].as_slice(), txn_ts);
                    return Ok(
                        CommitStart {
                            primary: bytes::copy_bytes(ks[0].as_slice()),
                            command,
                            decision_key,
                        },
                    );
                }
                assert(bytes::views(ks@).len() == 0);
                Err(TxnError::Other("Transaction not found or has no mutations".to_owned()))
            },
            None => Err(TxnError::Other("Transaction not found or has no mutations".to_owned())),
        }
    }

    /// Goes on when the primary key was proposed: where it holds the decision
    /// to commit, the other keys are committed and the transaction is done;
    /// else it is aborted.
    pub fn finish_commit(
        &mut self,
        txn_ts: HlcTimestamp,
        commit_ts: HlcTimestamp,
        decision: Option<Vec<u8>>,
    ) -> (r: Result<Vec<ShardCommand>, TxnError>)
        ensures
            match (decision, old(self).keys(txn_ts)) {
                (Some(_), Some(ks)) if ks.len() > 0 => r matches Ok(cs) && command_views(cs@)
                    == other_commits(ks, txn_ts, commit_ts),
                _ => r matches Err(e) && e@ == ErrorView::Aborted,
            },
            forall|t: HlcTimestamp| #[trigger]
                final(self).keys(t) == if t == txn_ts && r is Ok {
                    None
                } else {
                    old(self).keys(t)
                },
    {
        if decision.is_none() {
            return Err(TxnError::Aborted);
        }
        match self.get(txn_ts) {
            Some(ks) => {
                if ks.len() == 0 {
                    assert(bytes::views(ks@).len() == 0);
                    return Err(TxnError::Aborted);
                }
                let ghost keys = bytes::views(ks@);
                let ghost want = keys.skip(1).map_values(
                    |k: Seq<u8>| commit_of(k, txn_ts, commit_ts, false),
                );
                let mut cs: Vec<ShardCommand> = Vec::new();
                let mut i: usize = 1;
                while i < ks.len()
                    invariant
                        1 <= i <= ks@.len(),
                        keys == bytes::views(ks@),
                        want == keys.skip(1).map_values(
                            |k: Seq<u8>| commit_of(k, txn_ts, commit_ts, false),
                        ),
                        cs@.len() == i - 1,
                        forall|k: int| 0 <= k < i - 1 ==> (#[trigger] cs@[k])@ == want[k],
                    decreases ks@.len() - i,
                {
                    assert(keys.skip(1)[i - 1] == ks@[i as int]@);
                    cs.push(
                        ShardCommand::TxnCommit {
                            key: bytes::copy_bytes(ks[i].as_slice()),
                            start_ts: txn_ts,
                            commit_ts,
                            is_primary: false,
                        },
                    );
                    i = i + 1;
                }
                assert(command_views(cs@) =~= want);
                let _ = self.remove(txn_ts);
                Ok(cs)
            },
            None => Err(TxnError::Aborted),
        }
    }

    /// Gives a transaction up: the rollbacks of its keys are to be proposed,
    /// whatever comes of them. The keys are those that were noted, or else
    /// those of the given changes.
    pub fn abort(&mut self, txn_ts: HlcTimestamp, mutations: &[Mutation]) -> (r: Vec<ShardCommand>)
        ensures
            command_views(r@) == rollbacks_of(
                match old(self).keys(txn_ts) {
                    Some(ks) => ks,
                    None => keys_of(mutation_views(mutations@)),
                },
                txn_ts,
            ),
            forall|t: HlcTimestamp| #[trigger]
                final(self).keys(t) == if t == txn_ts {
                    None
                } else {
                    old(self).keys(t)
                },
    {
        let keys = match self.remove(txn_ts) {
            Some(ks) => ks,
            None => mutation_keys(mutations),
        };
        rollback_commands(keys.as_slice(), txn_ts)
    }
}

// ----------------------------------------------------------------------
// Finding a replica
// ----------------------------------------------------------------------
/// What is known of a replica of a shard on a node.
#[derive(Debug, Clone, Copy, PartialEq, Eq, Structural)]
pub struct ReplicaStatus {
    pub node: NodeId,
    /// It leads its group.
    pub is_leader: bool,
    /// Its state machine is there.
    pub has_machine: bool,
    /// Its state machine has storage.
    pub has_storage: bool,
}

/// The status of a node's replica, if the node holds one.
pub open spec fn status_of(known: Seq<ReplicaStatus>, node: NodeId) -> Option<ReplicaStatus>
    decreases known.len(),
{
    if known.len() == 0 {
        None
    } else if known[0].node == node {
        Some(known[0])
    } else {
        status_of(known.drop_first(), node)
    }
}

/// The first node of the group whose replica leads.
pub open spec fn first_leader(group: Seq<NodeId>, known: Seq<ReplicaStatus>) -> Option<NodeId>
    decreases group.len(),
{
    if group.len() == 0 {
        None
    } else {
        match status_of(known, group[0]) {
            Some(s) if s.is_leader => Some(group[0]),
            _ => first_leader(group.drop_first(), known),
        }
    }
}

/// The first node of the group whose replica leads and has its state machine.
pub open spec fn first_leading_machine(group: Seq<NodeId>, known: Seq<ReplicaStatus>) -> Option<
    NodeId,
>
    decreases group.len(),
{
    if group.len() == 0 {
        None
    } else {
        match status_of(known, group[0]) {
            Some(s) if s.is_leader && s.has_machine => Some(group[0]),
            _ => first_leading_machine(group.drop_first(), known),
        }
    }
}

/// The first node of the group whose state machine has storage.
pub open spec fn first_with_storage(group: Seq<NodeId>, known: Seq<ReplicaStatus>) -> Option<
    NodeId,
>
    decreases group.len(),
{
    if group.len() == 0 {
        None
    } else {
        match status_of(known, group[0]) {
            Some(s) if s.has_machine && s.has_storage => Some(group[0]),
            _ => first_with_storage(group.drop_first(), known),
        }
    }
}

/// A shard in words.
pub open spec fn shard_text(shard: ShardId) -> Seq<char> {
    "ShardId("@ + text::number(shard.0 as nat) + ")"@
}

/// A complaint about a shard.
fn about_shard(what: &str, shard: ShardId) -> (r: TxnError)
    ensures
        r@ == ErrorView::Other(what@ + shard_text(shard)),
{
    let mut s: String = what.to_owned();
    text::push_text(&mut s, "ShardId(");
    text::push_number(&mut s, shard.0 as u64);
    text::push_text(&mut s, ")");
    assert(s@ =~= what@ + shard_text(shard));
    TxnError::Other(s)
}

fn find_status(known: &[ReplicaStatus], node: NodeId) -> (r: Option<ReplicaStatus>)
    ensures
        r == status_of(known@, node),
{
    let mut i: usize = 0;
    assert(known@.skip(0) =~= known@);
    while i < known.len()
        invariant
            i <= known@.len(),
            status_of(known@, node) == status_of(known@.skip(i as int), node),
        decreases known@.len() - i,
    {
        proof {
            assert(known@.skip(i as int)[0] == known@[i as int]);
            assert(known@.skip(i as int).drop_first() =~= known@.skip(i + 1));
        }
        if known[i].node == node {
            return Some(known[i]);
        }
        i = i + 1;
    }
    None
}

/// The node whose replica leads the shard's group.
pub fn get_leader_node(shard: ShardId, group: &[NodeId], known: &[ReplicaStatus]) -> (r: Result<
    NodeId,
    TxnError,
>)
    ensures
        group@.len() == 0 ==> (r matches Err(e) && e@ == ErrorView::Other(
            "No raft group for shard "@ + shard_text(shard),
        )),
        group@.len() > 0 ==> match first_leader(group@, known@) {
            Some(n) => r == Ok::<NodeId, TxnError>(n),
            None => r matches Err(e) && e@ == ErrorView::Other(
                "No leader found for shard "@ + shard_text(shard),
            ),
        },
{
    if group.len() == 0 {
        return Err(about_shard("No raft group for shard ", shard));
    }
    let mut i: usize = 0;
    assert(group@.skip(0) =~= group@);
    while i < group.len()
        invariant
            i <= group@.len(),
            group@.len() > 0,
            first_leader(group@, known@) == first_leader(group@.skip(i as int), known@),
        decreases group@.len() - i,
    {
        proof {
            assert(group@.skip(i as int)[0] == group@[i as int]);
            assert(group@.skip(i as int).drop_first() =~= group@.skip(i + 1));
        }
        let leads: bool = match find_status(known, group[i]) {
            Some(s) => s.is_leader,
            None => false,
        };
        if leads {
            return Ok(group[i]);
        }
        i = i + 1;
    }
    Err(about_shard("No leader found for shard ", shard))
}

/// The node whose storage is read: that of a leading replica, or else of any
/// replica that has storage.
pub fn get_storage_node(shard: ShardId, group: &[NodeId], known: &[ReplicaStatus]) -> (r: Result<
    NodeId,
    TxnError,
>)
    ensures
        group@.len() == 0 ==> (r matches Err(e) && e@ == ErrorView::Other(
            "No raft group for shard "@ + shard_text(shard),
        )),
        group@.len() > 0 ==> match (
            first_leading_machine(group@, known@),
            first_with_storage(group@, known@),
        ) {
            (Some(n), _) => r == Ok::<NodeId, TxnError>(n),
            (None, Some(n)) => r == Ok::<NodeId, TxnError>(n),
            (None, None) => r matches Err(e) && e@ == ErrorView::Other(
                "No storage found for shard "@ + shard_text(shard),
            ),
        },
{
    if group.len() == 0 {
        return Err(about_shard("No raft group for shard ", shard));
    }
    let mut fallback: Option<NodeId> = None;
    let mut i: usize = 0;
    assert(group@.skip(0) =~= group@);
    while i < group.len()
        invariant
            i <= group@.len(),
            group@.len() > 0,
            first_leading_machine(group@, known@) == first_leading_machine(
                group@.skip(i as int),
                known@,
            ),
            first_with_storage(group@, known@) == (match fallback {
                Some(n) => Some(n),
                None => first_with_storage(group@.skip(i as int), known@),
            }),
        decreases group@.len() - i,
    {
        proof {
            assert(group@.skip(i as int)[0] == group@[i as int]);
            assert(group@.skip(i as int).drop_first() =~= group@.skip(i + 1));
        }
        if let Some(s) = find_status(known, group[i]) {
            if s.is_leader && s.has_machine {
                return Ok(group[i]);
            }
            if s.has_machine && s.has_storage && fallback.is_none() {
                fallback = Some(group[i]);
            }
        }
        i = i + 1;
    }
    match fallback {
        Some(n) => Ok(n),
        None => Err(about_shard("No storage found for shard ", shard)),
    }
}

// ----------------------------------------------------------------------
// Waiting
// ----------------------------------------------------------------------
/// How often a leader is looked for before giving up.
pub const LEADER_RETRIES: u32 = 100;

/// How often it is looked whether a proposal was applied before giving up.
pub const APPLY_RETRIES: u32 = 200;

/// Whether to go on, to wait, or to give up.
#[derive(Debug, Clone, Copy, PartialEq, Eq, Structural)]
pub enum Progress {
    Ready,
    Sleep,
    GiveUp,
}

/// Whether there is a leader to propose to.
pub fn leader_progress(found: bool, retries: u32) -> (r: Progress)
    ensures
        r == if found {
            Progress::Ready
        } else if retries >= LEADER_RETRIES {
            Progress::GiveUp
        } else {
            Progress::Sleep
        },
{
    if found {
        Progress::Ready
    } else if retries >= LEADER_RETRIES {
        Progress::GiveUp
    } else {
        Progress::Sleep
    }
}

/// Whether the proposal at `index` was applied.
pub fn apply_progress(last_applied: u64, index: u64, retries: u32) -> (r: Progress)
    ensures
        r == if last_applied >= index {
            Progress::Ready
        } else if retries >= APPLY_RETRIES {
            Progress::GiveUp
        } else {
            Progress::Sleep
        },
{
    if last_applied >= index {
        Progress::Ready
    } else if retries >= APPLY_RETRIES {
        Progress::GiveUp
    } else {
        Progress::Sleep
    }
}

/// What is reported where a proposal was not applied in time.
pub fn apply_timeout() -> (r: TxnError)
    ensures
        r@ == ErrorView::Other("Timeout waiting for proposal to be applied"@),
{
    TxnError::Other("Timeout waiting for proposal to be applied".to_owned())
}

} // verus!
