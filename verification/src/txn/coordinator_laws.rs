//! What a coordinator and a reader do for a transaction, in terms of its changes and
//! of what they were told.
use crate::consensus::messages::NodeId;
use crate::sharding::commands;
use crate::sharding::commands::{CommandView, ConflictView, LockView};
use crate::sharding::records;
use crate::storage::timestamp::HlcTimestamp;
use crate::txn::atomicity;
use crate::txn::atomicity::Board;
use crate::txn::coordinator;
use crate::txn::coordinator::{
    MutationView, PrewriteActionView, PrewriteStage, PrewriteView, ReplicaStatus,
};
use crate::txn::error::ErrorView;
use crate::txn::read;
use crate::txn::read::{ReadActionView, StageView};
use vstd::prelude::*;

verus! {

// ----------------------------------------------------------------------
// A first phase that fails
// ----------------------------------------------------------------------
/// When the first phase fails behind its first key, the reason is reported and each key
/// that the transaction changes is rolled back; nothing else is.
pub proof fn lemma_failure_rolls_every_key_back(p: PrewriteView, error: ErrorView, j: int)
    requires
        p.wf(),
        p.at > 0,
        0 <= j < p.mutations.len(),
    ensures
        p.failed(error) is Failed,
        p.failed(error)->error == error,
        p.failed(error)->rollbacks.contains(
            CommandView::TxnRollback {
                key: match p.mutations[j] {
                    MutationView::Put(k, _) => k,
                    MutationView::Delete(k) => k,
                },
                start_ts: p.txn_ts,
            },
        ),
        forall|i: int|
            0 <= i < p.failed(error)->rollbacks.len() ==> exists|m: int|
                0 <= m < p.mutations.len() && (#[trigger] p.failed(error)->rollbacks[i]) == (
                CommandView::TxnRollback {
                    key: (#[trigger] p.mutations[m]).key(),
                    start_ts: p.txn_ts,
                }),
{
    let back = p.failed(error)->rollbacks;
    assert(back[j] == (CommandView::TxnRollback {
        key: p.mutations[j].key(),
        start_ts: p.txn_ts,
    }));
    assert forall|i: int| 0 <= i < back.len() implies exists|m: int|
        0 <= m < p.mutations.len() && (#[trigger] back[i]) == (CommandView::TxnRollback {
            key: (#[trigger] p.mutations[m]).key(),
            start_ts: p.txn_ts,
        }) by {
        assert(back[i] == (CommandView::TxnRollback {
            key: p.mutations[i].key(),
            start_ts: p.txn_ts,
        }));
    }
}

proof fn lemma_freed_stays_free(
    boards: Seq<Board>,
    cs: Seq<CommandView>,
    key: Seq<u8>,
    start: HlcTimestamp,
    i: int,
    n: int,
)
    requires
        boards.len() == cs.len() + 1,
        forall|k: int|
            0 <= k < cs.len() ==> (#[trigger] cs[k]) is TxnRollback && atomicity::carried_out(
                boards[k],
                cs[k],
                boards[k + 1],
            ),
        0 <= i < n <= cs.len(),
        cs[i] == (CommandView::TxnRollback { key, start_ts: start }),
    ensures
        !(boards[n].locks.contains_key(key) && boards[n].locks[key].ts == start),
    decreases n,
{
    assert(cs[n - 1] is TxnRollback);
    if n > i + 1 {
        lemma_freed_stays_free(boards, cs, key, start, i, n - 1);
    }
}

/// When the rollbacks of a first phase that failed are carried out one after the other,
/// no key that the transaction changes is locked for it any more.
pub proof fn lemma_failure_leaves_no_lock(
    p: PrewriteView,
    error: ErrorView,
    boards: Seq<Board>,
    j: int,
)
    requires
        p.wf(),
        p.at > 0,
        boards.len() == p.failed(error)->rollbacks.len() + 1,
        forall|k: int|
            0 <= k < p.failed(error)->rollbacks.len() ==> atomicity::carried_out(
                boards[k],
                #[trigger] p.failed(error)->rollbacks[k],
                boards[k + 1],
            ),
        0 <= j < p.mutations.len(),
    ensures
        !(boards.last().locks.contains_key(p.mutations[j].key())
            && boards.last().locks[p.mutations[j].key()].ts == p.txn_ts),
{
    let back = p.failed(error)->rollbacks;
    lemma_failure_rolls_every_key_back(p, error, j);
    let i = choose|i: int|
        0 <= i < back.len() && back[i] == (CommandView::TxnRollback {
            key: p.mutations[j].key(),
            start_ts: p.txn_ts,
        });
    lemma_freed_stays_free(boards, back, p.mutations[j].key(), p.txn_ts, i, back.len() as int);
}

/// A transaction that is given up has each of its keys rolled back, and no other.
pub proof fn lemma_rollbacks_are_of_the_keys(keys: Seq<Seq<u8>>, start: HlcTimestamp, j: int)
    requires
        0 <= j < keys.len(),
    ensures
        coordinator::rollbacks_of(keys, start).len() == keys.len(),
        coordinator::rollbacks_of(keys, start)[j] == (CommandView::TxnRollback {
            key: keys[j],
            start_ts: start,
        }),
{
}

/// A transaction's keys are those of its changes, in their order.
pub proof fn lemma_keys_are_of_the_changes(ms: Seq<MutationView>, j: int)
    requires
        0 <= j < ms.len(),
    ensures
        coordinator::keys_of(ms).len() == ms.len(),
        ms[j] matches MutationView::Put(k, v) ==> coordinator::keys_of(ms)[j] == k
            && ms[j].value() == Some(v),
        ms[j] matches MutationView::Delete(k) ==> coordinator::keys_of(ms)[j] == k
            && ms[j].value() is None,
{
}

// ----------------------------------------------------------------------
// A first phase that goes on
// ----------------------------------------------------------------------
/// What was read is a lock of the transaction.
pub open spec fn is_own_lock(value: Option<Seq<u8>>, start: HlcTimestamp) -> bool {
    value is Some && (records::dec_lock(value->0) matches Some(l) && l.ts == start)
}

/// States of a first phase, each from the one before with what was told.
pub open spec fn is_first_phase(
    ps: Seq<PrewriteView>,
    told: Seq<Option<Seq<u8>>>,
    start: HlcTimestamp,
    ms: Seq<MutationView>,
) -> bool {
    &&& ms.len() > 0
    &&& ps.len() == told.len() + 1
    &&& ps[0] == (PrewriteView {
        txn_ts: start,
        mutations: ms,
        at: 0,
        stage: PrewriteStage::Proposed,
    })
    &&& forall|i: int| 0 <= i < told.len() ==> #[trigger] ps[i + 1] == ps[i].step(told[i]).0
}

proof fn lemma_first_phase_so_far(
    ps: Seq<PrewriteView>,
    told: Seq<Option<Seq<u8>>>,
    start: HlcTimestamp,
    ms: Seq<MutationView>,
    n: int,
    j: int,
)
    requires
        is_first_phase(ps, told, start, ms),
        0 <= n < ps.len(),
    ensures
        ps[n].wf(),
        ps[n].txn_ts == start,
        ps[n].mutations == ms,
        0 <= j < ps[n].at ==> exists|i: int|
            0 <= i < n && #[trigger] ps[i].at == j && ps[i].stage == PrewriteStage::Lock
                && is_own_lock(told[i], start),
        ps[n].stage == PrewriteStage::Lock ==> 0 < n && ps[n - 1].at == ps[n].at && ps[n - 1].stage
            == PrewriteStage::Proposed || 0 < n && ps[n - 1] == ps[n],
    decreases n,
{
    if n > 0 {
        lemma_first_phase_so_far(ps, told, start, ms, n - 1, j);
        assert(ps[(n - 1) + 1] == ps[n - 1].step(told[n - 1]).0);
        if 0 <= j < ps[n].at {
            if j < ps[n - 1].at {
                let i = choose|i: int|
                    0 <= i < n - 1 && #[trigger] ps[i].at == j && ps[i].stage
                        == PrewriteStage::Lock && is_own_lock(told[i], start);
                assert(ps[i].at == j);
            } else {
                assert(ps[n - 1].at == j && is_own_lock(told[n - 1], start));
            }
        }
    }
}

/// The first phase says that all keys are locked only when a lock of the transaction
/// was read on each of them.
pub proof fn lemma_first_phase_sees_every_lock(
    ps: Seq<PrewriteView>,
    told: Seq<Option<Seq<u8>>>,
    start: HlcTimestamp,
    ms: Seq<MutationView>,
    value: Option<Seq<u8>>,
    j: int,
)
    requires
        is_first_phase(ps, told, start, ms),
        ps.last().step(value).1 is Finished,
        0 <= j < ms.len(),
    ensures
        exists|i: int|
            0 <= i < ps.len() && (#[trigger] ps[i]).at == j && ps[i].stage == PrewriteStage::Lock
                && is_own_lock(told.push(value)[i], start),
{
    let n = ps.len() - 1;
    lemma_first_phase_so_far(ps, told, start, ms, n, j);
    if j < ps[n].at {
        let i = choose|i: int|
            0 <= i < n && #[trigger] ps[i].at == j && ps[i].stage == PrewriteStage::Lock
                && is_own_lock(told[i], start);
        assert(ps[i].at == j && is_own_lock(told.push(value)[i], start));
    } else {
        assert(ps[n].at == j && is_own_lock(told.push(value)[n], start));
    }
}

/// A step of the first phase: once a proposal was executed, the lock on its key is
/// read; with the transaction's lock there, the next key's change is proposed, on
/// behalf of the first key, or all are locked; with no such lock there, the refusal is
/// read, and what it says is reported.
pub proof fn lemma_first_phase_step(p: PrewriteView, value: Option<Seq<u8>>)
    requires
        p.wf(),
    ensures
        p.stage == PrewriteStage::Proposed ==> p.step(value).1 == (PrewriteActionView::Get {
            shard_key: p.mutations[p.at].key(),
            query: commands::tagged(commands::LOCK_TAG, p.mutations[p.at].key()),
        }) && p.step(value).0 == (PrewriteView { stage: PrewriteStage::Lock, ..p }),
        p.stage == PrewriteStage::Lock && is_own_lock(value, p.txn_ts) && p.at + 1
            == p.mutations.len() ==> p.step(value).1 is Finished,
        p.stage == PrewriteStage::Lock && is_own_lock(value, p.txn_ts) && p.at + 1
            < p.mutations.len() ==> p.step(value).0.at == p.at + 1 && p.step(value).1 == (
        PrewriteActionView::Propose {
            key: p.mutations[p.at + 1].key(),
            command: CommandView::TxnPrewrite {
                key: p.mutations[p.at + 1].key(),
                value: match p.mutations[p.at + 1] {
                    MutationView::Put(_, v) => Some(v),
                    MutationView::Delete(_) => None,
                },
                primary: p.mutations[0].key(),
                start_ts: p.txn_ts,
                ttl: 1000,
            },
        }),
        p.stage == PrewriteStage::Lock && !is_own_lock(value, p.txn_ts) ==> p.step(value).1 == (
        PrewriteActionView::Get {
            shard_key: p.mutations[p.at].key(),
            query: commands::tagged_at(
                commands::ERROR_TAG,
                p.mutations[p.at].key(),
                p.txn_ts,
            ),
        }) && p.step(value).0.at == p.at,
        p.stage == PrewriteStage::Refusal ==> p.step(value).1 is Failed,
        p.stage == PrewriteStage::Refusal && value is Some ==> match records::dec_conflict(
            value->0,
        ) {
            Some(ConflictView::WriteConflict(ts)) => p.step(value).1->error == (
            ErrorView::WriteConflict { key: p.mutations[p.at].key(), conflict_ts: ts }),
            Some(ConflictView::LockConflict { primary, ts }) => p.step(value).1->error == (
            ErrorView::LockConflict { key: p.mutations[p.at].key(), primary, lock_ts: ts }),
            None => p.step(value).1->error is Aborted,
        },
        p.stage == PrewriteStage::Refusal && value is None ==> p.step(value).1->error is Aborted,
        p.step(value).1 matches PrewriteActionView::Failed { error, rollbacks } ==> p.step(value).1
            == p.failed(error),
{
}

/// Where the first key cannot be locked there is nothing to be rolled back.
pub proof fn lemma_first_failure_rolls_nothing_back(p: PrewriteView, error: ErrorView)
    requires
        p.at == 0,
    ensures
        p.failed(error) == (PrewriteActionView::Failed {
            error,
            rollbacks: Seq::<CommandView>::empty(),
        }),
{
}

// ----------------------------------------------------------------------
// The second phase
// ----------------------------------------------------------------------
/// A transaction commits its first key as the primary one, and before all others; each
/// other key is committed behind it, at the same time, and none is left out.
pub proof fn lemma_every_key_is_committed(
    keys: Seq<Seq<u8>>,
    start: HlcTimestamp,
    commit: HlcTimestamp,
    j: int,
)
    requires
        0 <= j < keys.len(),
    ensures
        ({
            let all = seq![coordinator::first_commit(keys, start, commit)]
                + coordinator::other_commits(keys, start, commit);
            &&& all.len() == keys.len()
            &&& all[j] == (CommandView::TxnCommit {
                key: keys[j],
                start_ts: start,
                commit_ts: commit,
                is_primary: j == 0,
            })
        }),
{
    if j > 0 {
        assert(keys.skip(1)[j - 1] == keys[j]);
    }
}

proof fn lemma_committed_stays_committed(
    boards: Seq<Board>,
    cs: Seq<CommandView>,
    key: Seq<u8>,
    start: HlcTimestamp,
    commit: HlcTimestamp,
    n: int,
)
    requires
        boards.len() == cs.len() + 1,
        forall|k: int|
            0 <= k < cs.len() ==> (#[trigger] cs[k]) is TxnCommit && atomicity::carried_out(
                boards[k],
                cs[k],
                boards[k + 1],
            ),
        0 <= n <= cs.len(),
        forall|k: int|
            0 <= k < cs.len() && (#[trigger] cs[k])->TxnCommit_key == key ==> cs[k]
                == coordinator::commit_of(key, start, commit, k == 0),
        atomicity::holds(boards[0], key, start) || boards[0].commits.contains(
            (key, start, commit),
        ),
    ensures
        atomicity::holds(boards[n], key, start) || boards[n].commits.contains(
            (key, start, commit),
        ),
        forall|k: int|
            0 <= k < n && (#[trigger] cs[k])->TxnCommit_key == key ==> boards[n].commits.contains(
                (key, start, commit),
            ),
    decreases n,
{
    if n > 0 {
        lemma_committed_stays_committed(boards, cs, key, start, commit, n - 1);
        assert(cs[n - 1] is TxnCommit);
    }
}

/// When a transaction holds the locks of its keys and its commits are carried out one
/// after the other, each of its keys has committed.
pub proof fn lemma_second_phase_commits_every_key(
    keys: Seq<Seq<u8>>,
    start: HlcTimestamp,
    commit: HlcTimestamp,
    boards: Seq<Board>,
    j: int,
)
    requires
        keys.no_duplicates(),
        0 <= j < keys.len(),
        atomicity::holds(boards[0], keys[j], start),
        boards.len() == keys.len() + 1,
        forall|k: int|
            0 <= k < keys.len() ==> atomicity::carried_out(
                boards[k],
                (seq![coordinator::first_commit(keys, start, commit)]
                    + coordinator::other_commits(keys, start, commit))[k],
                #[trigger] boards[k + 1],
            ),
    ensures
        boards.last().commits.contains((keys[j], start, commit)),
{
    let cs = seq![coordinator::first_commit(keys, start, commit)] + coordinator::other_commits(
        keys,
        start,
        commit,
    );
    lemma_every_key_is_committed(keys, start, commit, j);
    assert forall|k: int| 0 <= k < cs.len() implies (#[trigger] cs[k]) is TxnCommit
        && atomicity::carried_out(boards[k], cs[k], boards[k + 1]) && (cs[k]->TxnCommit_key
        == keys[j] ==> cs[k] == coordinator::commit_of(keys[j], start, commit, k == 0)) by {
        lemma_every_key_is_committed(keys, start, commit, k);
        assert(atomicity::carried_out(boards[k], cs[k], boards[k + 1]));
    }
    lemma_committed_stays_committed(
        boards,
        cs,
        keys[j],
        start,
        commit,
        cs.len() as int,
    );
    assert(cs[j]->TxnCommit_key == keys[j]);
}

// ----------------------------------------------------------------------
// Finding a replica
// ----------------------------------------------------------------------
/// What is known of a node is what the first entry on it says; nothing is known where
/// there is none.
pub proof fn lemma_status_is_the_first(known: Seq<ReplicaStatus>, node: NodeId)
    ensures
        coordinator::status_of(known, node) is None <==> forall|i: int|
            0 <= i < known.len() ==> (#[trigger] known[i]).node != node,
        coordinator::status_of(known, node) matches Some(s) ==> exists|i: int|
            0 <= i < known.len() && (#[trigger] known[i]) == s && s.node == node && forall|j: int|
                0 <= j < i ==> (#[trigger] known[j]).node != node,
    decreases known.len(),
{
    if known.len() > 0 {
        let rest = known.drop_first();
        if known[0].node != node {
            lemma_status_is_the_first(rest, node);
            if coordinator::status_of(rest, node) is None {
                assert forall|i: int| 0 <= i < known.len() implies (#[trigger] known[i]).node
                    != node by {
                    if i > 0 {
                        assert(rest[i - 1] == known[i]);
                    }
                }
            } else {
                let s = coordinator::status_of(rest, node)->0;
                let i = choose|i: int|
                    0 <= i < rest.len() && (#[trigger] rest[i]) == s && s.node == node && forall|
                        j: int,
                    |
                        0 <= j < i ==> (#[trigger] rest[j]).node != node;
                assert(known[i + 1] == s);
                assert forall|j: int| 0 <= j < i + 1 implies (#[trigger] known[j]).node
                    != node by {
                    if j > 0 {
                        assert(rest[j - 1] == known[j]);
                    }
                }
            }
        } else {
            assert(known[0] == coordinator::status_of(known, node)->0);
        }
    }
}

/// A leader that is found is in the group and is known to lead, and none before it in
/// the group is; none is found only where none in the group is known to lead.
pub proof fn lemma_leader_leads(group: Seq<NodeId>, known: Seq<ReplicaStatus>)
    ensures
        coordinator::first_leader(group, known) matches Some(n) ==> exists|i: int|
            0 <= i < group.len() && #[trigger] group[i] == n && leads(known, n) && forall|j: int|
                0 <= j < i ==> !leads(known, #[trigger] group[j]),
        coordinator::first_leader(group, known) is None ==> forall|i: int|
            0 <= i < group.len() ==> !leads(known, #[trigger] group[i]),
    decreases group.len(),
{
    if group.len() > 0 && !leads(known, group[0]) {
        let rest = group.drop_first();
        lemma_leader_leads(rest, known);
        assert forall|i: int| 1 <= i < group.len() implies #[trigger] group[i] == rest[i - 1] by {}
        if coordinator::first_leader(rest, known) is Some {
            let n = coordinator::first_leader(rest, known)->0;
            let i = choose|i: int|
                0 <= i < rest.len() && #[trigger] rest[i] == n && leads(known, n) && forall|j: int|
                    0 <= j < i ==> !leads(known, #[trigger] rest[j]);
            assert(group[i + 1] == n);
            assert forall|j: int| 0 <= j < i + 1 implies !leads(known, #[trigger] group[j]) by {
                if j > 0 {
                    assert(rest[j - 1] == group[j]);
                }
            }
        }
    } else if group.len() > 0 {
        assert(group[0] == coordinator::first_leader(group, known)->0);
    }
}

/// The node is known to lead.
pub open spec fn leads(known: Seq<ReplicaStatus>, n: NodeId) -> bool {
    coordinator::status_of(known, n) matches Some(s) && s.is_leader
}

/// Storage is read on a node of the group: one that leads and has its state machine,
/// or one that has storage; none is found only where no node of the group is either.
pub proof fn lemma_storage_is_there(group: Seq<NodeId>, known: Seq<ReplicaStatus>)
    ensures
        coordinator::first_leading_machine(group, known) matches Some(n) ==> group.contains(n)
            && leads(known, n) && coordinator::status_of(known, n)->0.has_machine,
        coordinator::first_leading_machine(group, known) is None ==> forall|i: int|
            0 <= i < group.len() ==> !(leads(known, #[trigger] group[i])
                && coordinator::status_of(known, group[i])->0.has_machine),
        coordinator::first_with_storage(group, known) matches Some(n) ==> group.contains(n)
            && coordinator::status_of(known, n) is Some && coordinator::status_of(
            known,
            n,
        )->0.has_machine && coordinator::status_of(known, n)->0.has_storage,
        coordinator::first_with_storage(group, known) is None ==> forall|i: int|
            0 <= i < group.len() ==> !(coordinator::status_of(known, #[trigger] group[i]) is Some
                && coordinator::status_of(known, group[i])->0.has_machine
                && coordinator::status_of(known, group[i])->0.has_storage),
    decreases group.len(),
{
    if group.len() > 0 {
        let rest = group.drop_first();
        lemma_storage_is_there(rest, known);
        assert forall|i: int| 1 <= i < group.len() implies #[trigger] group[i] == rest[i - 1] by {}
        assert forall|n: NodeId| #[trigger] rest.contains(n) implies group.contains(n) by {
            let i = choose|i: int| 0 <= i < rest.len() && rest[i] == n;
            assert(group[i + 1] == n);
        }
        assert(group.contains(group[0]));
    }
}

// ----------------------------------------------------------------------
// Reading
// ----------------------------------------------------------------------
/// A read begins with the lock on its key. Only a lock from a transaction that started
/// at or before the time that is read holds it up: it waits as long as the lock's time
/// runs, and looks for the decision at the lock's primary key when that has run out.
/// Where no such lock is there the last commit by that time is read.
pub proof fn lemma_only_earlier_locks_hold_a_read_up(
    key: Seq<u8>,
    as_of: HlcTimestamp,
    value: Option<Seq<u8>>,
    now: u64,
)
    ensures
        read::ask_lock(key) == (ReadActionView::Get {
            shard_key: key,
            query: commands::tagged(commands::LOCK_TAG, key),
            as_of: HlcTimestamp { physical: u64::MAX, logical: u32::MAX },
        }),
        ({
            let l = records::dec_lock(value->0)->0;
            let held_up = value is Some && records::dec_lock(value->0) is Some && (l.ts.physical
                < as_of.physical || (l.ts.physical == as_of.physical && l.ts.logical
                <= as_of.logical));
            let r = read::read_step(StageView::Lock, key, as_of, value, now);
            &&& r.1 is Wait <==> held_up && now <= l.ts.physical + l.ttl
            &&& held_up && now > l.ts.physical + l.ttl ==> r.0 == StageView::Primary(l) && r.1 == (
            ReadActionView::Get {
                shard_key: l.primary,
                query: commands::tagged_at(commands::COMMIT_TAG, l.primary, l.ts),
                as_of: HlcTimestamp { physical: u64::MAX, logical: u32::MAX },
            })
            &&& !held_up ==> r.0 == StageView::Write && r.1 == (ReadActionView::Get {
                shard_key: key,
                query: commands::tagged(commands::WRITE_TAG, key),
                as_of,
            })
        }),
{
}

/// A stale lock is settled as its transaction was decided: where the primary key holds
/// a commit time the key is committed at that time, and nothing is rolled back; where
/// it holds none the primary key and the key are rolled back.
pub proof fn lemma_lock_is_settled_as_decided(
    key: Seq<u8>,
    as_of: HlcTimestamp,
    l: LockView,
    value: Option<Seq<u8>>,
    now: u64,
)
    ensures
        ({
            let r = read::read_step(StageView::Primary(l), key, as_of, value, now);
            let decided = value is Some && records::dec_one_ts(value->0) is Some;
            &&& r.0 == StageView::Lock
            &&& decided ==> r.1 == ReadActionView::RollForward(
                CommandView::TxnCommit {
                    key,
                    start_ts: l.ts,
                    commit_ts: records::dec_one_ts(value->0)->0,
                    is_primary: false,
                },
            )
            &&& !decided ==> r.1 == (ReadActionView::RollBack {
                primary: CommandView::TxnRollback { key: l.primary, start_ts: l.ts },
                secondary: CommandView::TxnRollback { key, start_ts: l.ts },
            })
        }),
{
}

/// With a commit found the value is read at the time at which its transaction started,
/// and what is stored there is what was read; without one nothing was.
pub proof fn lemma_read_follows_the_commit(
    key: Seq<u8>,
    as_of: HlcTimestamp,
    value: Option<Seq<u8>>,
    now: u64,
)
    ensures
        ({
            let r = read::read_step(StageView::Write, key, as_of, value, now);
            let found = value is Some && records::dec_commit(value->0) is Some;
            &&& found ==> r.0 == StageView::Data && r.1 == (ReadActionView::Get {
                shard_key: key,
                query: commands::tagged(commands::DATA_TAG, key),
                as_of: (records::dec_commit(value->0)->0).0,
            })
            &&& !found ==> r.1 == ReadActionView::Done(None)
        }),
        ({
            let r = read::read_step(StageView::Data, key, as_of, value, now);
            r.1 == ReadActionView::Done(
                if value is Some && records::dec_one_value(value->0) is Some {
                    records::dec_one_value(value->0)->0
                } else {
                    None
                },
            )
        }),
{
}

} // verus!
