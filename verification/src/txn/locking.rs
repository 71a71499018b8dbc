//! What the two phases of a transaction do to a key, as a shard stores it.
use crate::sharding::commands;
use crate::sharding::commands::{CommandView, LockView};
use crate::sharding::machine;
use crate::sharding::records;
use crate::storage::key;
use crate::storage::lsm_laws;
use crate::storage::lsm_model::LsmView;
use crate::storage::timestamp;
use crate::storage::timestamp::HlcTimestamp;
use crate::txn::read;
use crate::txn::read::{ReadActionView, StageView};
use vstd::prelude::*;

verus! {

/// The engine goes from `s` to `t` by what a command writes; on the way recent writes
/// may become tables.
pub open spec fn applies<F: Fn(usize) -> (usize, usize)>(
    f: F,
    s: LsmView,
    c: CommandView,
    t: LsmView,
) -> bool {
    machine::executed(f, s, c, t, Seq::empty())
}

/// The version of just this stored key and time is not there twice among the recent
/// writes and those of the command.
pub open spec fn is_told_apart(
    s: LsmView,
    c: CommandView,
    stored: Seq<u8>,
    at: HlcTimestamp,
) -> bool {
    lsm_laws::told_apart(s, machine::writes_of(s, c), stored, at)
}

/// That of a key's lock and of its last commit at the end of time is not.
pub open spec fn marks_told_apart(s: LsmView, c: CommandView, key: Seq<u8>) -> bool {
    &&& is_told_apart(s, c, commands::tagged(commands::LOCK_TAG, key), machine::max_ts())
    &&& is_told_apart(s, c, commands::tagged(commands::WRITE_TAG, key), machine::max_ts())
}

/// None of the recent writes of a key's lock, value and last commit is later than
/// `ts`.
pub open spec fn is_behind(s: LsmView, key: Seq<u8>, ts: HlcTimestamp) -> bool {
    &&& key::sorted(s.active)
    &&& s.levels.len() > 0
    &&& lsm_laws::none_later(s, commands::tagged(commands::LOCK_TAG, key), ts)
    &&& lsm_laws::none_later(s, commands::tagged(commands::DATA_TAG, key), ts)
    &&& lsm_laws::none_later(s, commands::tagged(commands::WRITE_TAG, key), ts)
}

/// When a transaction that has this primary key committed, if it has.
pub open spec fn decision(s: LsmView, key: Seq<u8>, start: HlcTimestamp) -> Option<HlcTimestamp> {
    match s.get(commands::tagged_at(commands::COMMIT_TAG, key, start), machine::max_ts()) {
        Some(b) => records::dec_one_ts(b),
        None => None,
    }
}

proof fn lemma_latest(ts: HlcTimestamp)
    ensures
        timestamp::ts_le(ts, machine::max_ts()),
{
}

/// What a first phase is told.
pub open spec fn prewrite(
    key: Seq<u8>,
    value: Option<Seq<u8>>,
    primary: Seq<u8>,
    start: HlcTimestamp,
    ttl: u64,
) -> CommandView {
    CommandView::TxnPrewrite { key, value, primary, start_ts: start, ttl }
}

/// What a second phase is told.
pub open spec fn commit_of(
    key: Seq<u8>,
    start: HlcTimestamp,
    commit: HlcTimestamp,
    is_primary: bool,
) -> CommandView {
    CommandView::TxnCommit { key, start_ts: start, commit_ts: commit, is_primary }
}

/// What each read finds after the first phase has locked a free key.
proof fn lemma_first_phase_shows<F: Fn(usize) -> (usize, usize)>(
    f: F,
    s: LsmView,
    key: Seq<u8>,
    value: Option<Seq<u8>>,
    primary: Seq<u8>,
    start: HlcTimestamp,
    ttl: u64,
    t: LsmView,
    stored: Seq<u8>,
    at: HlcTimestamp,
)
    requires
        applies(f, s, prewrite(key, value, primary, start, ttl), t),
        machine::conflict(s, key, start) is None,
        is_behind(s, key, start),
        is_told_apart(s, prewrite(key, value, primary, start, ttl), stored, at),
    ensures
        t.get(stored, at) == if stored == commands::tagged(commands::LOCK_TAG, key)
            && timestamp::ts_le(start, at) {
            Some(records::enc_lock(LockView { primary, ts: start, ttl }))
        } else if stored == commands::tagged(commands::DATA_TAG, key) && timestamp::ts_le(
            start,
            at,
        ) {
            Some(records::enc_value(value))
        } else {
            s.get(stored, at)
        },
{
    let lk = commands::tagged(commands::LOCK_TAG, key);
    let dk = commands::tagged(commands::DATA_TAG, key);
    let rs = machine::writes_of(s, prewrite(key, value, primary, start, ttl));
    assert(lk[0] != dk[0]);
    assert(rs.len() == 2 && rs[0].key == lk && rs[1].key == dk);
    lsm_laws::lemma_after_writes_are_read(f, s, rs, t, stored, at);
    if stored == lk && timestamp::ts_le(start, at) {
        assert(lsm_laws::reaches(rs[0], stored, at));
    } else if stored == dk && timestamp::ts_le(start, at) {
        assert(lsm_laws::reaches(rs[1], stored, at));
    } else {
        assert forall|i: int| 0 <= i < rs.len() implies !lsm_laws::reaches(
            #[trigger] rs[i],
            stored,
            at,
        ) by {}
    }
}

/// What each read finds after the second phase, where the transaction holds the lock.
proof fn lemma_second_phase_shows<F: Fn(usize) -> (usize, usize)>(
    f: F,
    s: LsmView,
    key: Seq<u8>,
    start: HlcTimestamp,
    commit: HlcTimestamp,
    is_primary: bool,
    t: LsmView,
    stored: Seq<u8>,
    at: HlcTimestamp,
)
    requires
        applies(f, s, commit_of(key, start, commit, is_primary), t),
        machine::held_lock(s, key) matches Some(l) && l.ts == start,
        is_behind(s, key, commit),
        lsm_laws::none_later(s, commands::tagged_at(commands::COMMIT_TAG, key, start), commit),
        is_told_apart(s, commit_of(key, start, commit, is_primary), stored, at),
    ensures
        t.get(stored, at) == if !timestamp::ts_le(commit, at) {
            s.get(stored, at)
        } else if stored == commands::tagged(commands::LOCK_TAG, key) {
            None
        } else if stored == commands::tagged(commands::WRITE_TAG, key) {
            Some(records::enc_commit(start, commit))
        } else if stored == commands::tagged_at(commands::COMMIT_TAG, key, start) && is_primary {
            Some(records::enc_ts(commit))
        } else {
            s.get(stored, at)
        },
{
    let lk = commands::tagged(commands::LOCK_TAG, key);
    let wk = commands::tagged(commands::WRITE_TAG, key);
    let ck = commands::tagged_at(commands::COMMIT_TAG, key, start);
    let rs = machine::writes_of(s, commit_of(key, start, commit, is_primary));
    assert(lk[0] != wk[0] && ck[0] != lk[0] && ck[0] != wk[0]);
    assert(rs[0].key == lk && rs[1].key == wk);
    assert(is_primary ==> rs.len() == 3 && rs[2].key == ck);
    assert(!is_primary ==> rs.len() == 2);
    lsm_laws::lemma_after_writes_are_read(f, s, rs, t, stored, at);
    if timestamp::ts_le(commit, at) && stored == lk {
        assert(lsm_laws::reaches(rs[0], stored, at));
    } else if timestamp::ts_le(commit, at) && stored == wk {
        assert(lsm_laws::reaches(rs[1], stored, at));
    } else if timestamp::ts_le(commit, at) && stored == ck && is_primary {
        assert(lsm_laws::reaches(rs[2], stored, at));
    } else {
        assert forall|i: int| 0 <= i < rs.len() implies !lsm_laws::reaches(
            #[trigger] rs[i],
            stored,
            at,
        ) by {}
    }
}

/// A key that is free is locked by the first phase, for the transaction alone, and
/// its new value stands behind the lock; all else is as it was.
pub proof fn lemma_first_phase_locks<F: Fn(usize) -> (usize, usize)>(
    f: F,
    s: LsmView,
    key: Seq<u8>,
    value: Option<Seq<u8>>,
    primary: Seq<u8>,
    start: HlcTimestamp,
    ttl: u64,
    t: LsmView,
    other: Seq<u8>,
    as_of: HlcTimestamp,
)
    requires
        applies(f, s, prewrite(key, value, primary, start, ttl), t),
        machine::conflict(s, key, start) is None,
        is_behind(s, key, start),
        marks_told_apart(s, prewrite(key, value, primary, start, ttl), key),
        is_told_apart(
            s,
            prewrite(key, value, primary, start, ttl),
            commands::tagged(commands::DATA_TAG, key),
            start,
        ),
        is_told_apart(s, prewrite(key, value, primary, start, ttl), other, as_of),
        primary.len() <= u64::MAX,
    ensures
        machine::held_lock(t, key) == Some(LockView { primary, ts: start, ttl }),
        t.get(commands::tagged(commands::DATA_TAG, key), start) == Some(records::enc_value(value)),
        machine::last_commit(t, key) == machine::last_commit(s, key),
        other != commands::tagged(commands::LOCK_TAG, key) && other != commands::tagged(
            commands::DATA_TAG,
            key,
        ) ==> t.get(other, as_of) == s.get(other, as_of),
{
    let lk = commands::tagged(commands::LOCK_TAG, key);
    let dk = commands::tagged(commands::DATA_TAG, key);
    let wk = commands::tagged(commands::WRITE_TAG, key);
    let latest = machine::max_ts();
    assert(lk[0] != dk[0] && wk[0] != lk[0] && wk[0] != dk[0]);
    lemma_latest(start);
    records::lemma_lock_round_trip(LockView { primary, ts: start, ttl });
    lemma_first_phase_shows(f, s, key, value, primary, start, ttl, t, lk, latest);
    lemma_first_phase_shows(f, s, key, value, primary, start, ttl, t, dk, start);
    lemma_first_phase_shows(f, s, key, value, primary, start, ttl, t, wk, latest);
    lemma_first_phase_shows(f, s, key, value, primary, start, ttl, t, other, as_of);
}

/// A key that another transaction has locked stays locked for it: the first phase
/// writes only why it was refused.
pub proof fn lemma_locks_exclude<F: Fn(usize) -> (usize, usize)>(
    f: F,
    s: LsmView,
    key: Seq<u8>,
    value: Option<Seq<u8>>,
    primary: Seq<u8>,
    start: HlcTimestamp,
    ttl: u64,
    t: LsmView,
    other: Seq<u8>,
    as_of: HlcTimestamp,
)
    requires
        applies(f, s, prewrite(key, value, primary, start, ttl), t),
        machine::held_lock(s, key) is Some,
        key::sorted(s.active),
        s.levels.len() > 0,
        lsm_laws::none_later(s, commands::tagged_at(commands::ERROR_TAG, key, start), start),
        marks_told_apart(s, prewrite(key, value, primary, start, ttl), key),
        is_told_apart(s, prewrite(key, value, primary, start, ttl), other, as_of),
    ensures
        machine::held_lock(t, key) == machine::held_lock(s, key),
        other != commands::tagged_at(commands::ERROR_TAG, key, start) ==> t.get(other, as_of)
            == s.get(other, as_of),
{
    let ek = commands::tagged_at(commands::ERROR_TAG, key, start);
    let lk = commands::tagged(commands::LOCK_TAG, key);
    let rs = machine::writes_of(s, prewrite(key, value, primary, start, ttl));
    assert(machine::conflict(s, key, start) is Some);
    assert(rs.len() == 1 && rs[0].key == ek);
    assert(ek[0] != lk[0]);
    lsm_laws::lemma_after_writes_are_read(f, s, rs, t, lk, machine::max_ts());
    lsm_laws::lemma_after_writes_are_read(f, s, rs, t, other, as_of);
    assert(!lsm_laws::reaches(rs[0], lk, machine::max_ts()));
}

/// Where the transaction holds the lock, the second phase sets the key free and
/// notes the commit, and on the primary key the decision.
pub proof fn lemma_second_phase_commits<F: Fn(usize) -> (usize, usize)>(
    f: F,
    s: LsmView,
    key: Seq<u8>,
    start: HlcTimestamp,
    commit: HlcTimestamp,
    is_primary: bool,
    t: LsmView,
)
    requires
        applies(f, s, commit_of(key, start, commit, is_primary), t),
        machine::held_lock(s, key) matches Some(l) && l.ts == start,
        is_behind(s, key, commit),
        lsm_laws::none_later(s, commands::tagged_at(commands::COMMIT_TAG, key, start), commit),
        marks_told_apart(s, commit_of(key, start, commit, is_primary), key),
        is_told_apart(
            s,
            commit_of(key, start, commit, is_primary),
            commands::tagged_at(commands::COMMIT_TAG, key, start),
            machine::max_ts(),
        ),
    ensures
        machine::held_lock(t, key) is None,
        machine::last_commit(t, key) == Some((start, commit)),
        decision(t, key, start) == if is_primary {
            Some(commit)
        } else {
            decision(s, key, start)
        },
{
    let lk = commands::tagged(commands::LOCK_TAG, key);
    let wk = commands::tagged(commands::WRITE_TAG, key);
    let ck = commands::tagged_at(commands::COMMIT_TAG, key, start);
    let latest = machine::max_ts();
    assert(lk[0] != wk[0] && ck[0] != lk[0] && ck[0] != wk[0]);
    lemma_latest(commit);
    records::lemma_commit_round_trip(start, commit);
    records::lemma_commit_round_trip(commit, commit);
    lemma_second_phase_shows(f, s, key, start, commit, is_primary, t, lk, latest);
    lemma_second_phase_shows(f, s, key, start, commit, is_primary, t, wk, latest);
    lemma_second_phase_shows(f, s, key, start, commit, is_primary, t, ck, latest);
}

/// Where the transaction does not hold the lock, the second phase changes nothing.
pub proof fn lemma_second_phase_needs_the_lock<F: Fn(usize) -> (usize, usize)>(
    f: F,
    s: LsmView,
    key: Seq<u8>,
    start: HlcTimestamp,
    commit: HlcTimestamp,
    is_primary: bool,
    t: LsmView,
)
    requires
        applies(f, s, commit_of(key, start, commit, is_primary), t),
        !(machine::held_lock(s, key) matches Some(l) && l.ts == start),
    ensures
        t == s,
{
}

/// A rollback sets the key free where the transaction holds the lock, and leaves the
/// lock of another; commits and decisions stay.
pub proof fn lemma_rollback_frees<F: Fn(usize) -> (usize, usize)>(
    f: F,
    s: LsmView,
    key: Seq<u8>,
    start: HlcTimestamp,
    t: LsmView,
    at: HlcTimestamp,
)
    requires
        applies(f, s, (CommandView::TxnRollback { key, start_ts: start }), t),
        is_behind(s, key, start),
        lsm_laws::none_later(s, commands::tagged_at(commands::ROLLBACK_TAG, key, start), start),
        marks_told_apart(s, (CommandView::TxnRollback { key, start_ts: start }), key),
        is_told_apart(
            s,
            (CommandView::TxnRollback { key, start_ts: start }),
            commands::tagged_at(commands::COMMIT_TAG, key, at),
            machine::max_ts(),
        ),
    ensures
        machine::held_lock(t, key) == match machine::held_lock(s, key) {
            Some(l) if l.ts == start => None,
            l => l,
        },
        machine::last_commit(t, key) == machine::last_commit(s, key),
        decision(t, key, at) == decision(s, key, at),
{
    let lk = commands::tagged(commands::LOCK_TAG, key);
    let wk = commands::tagged(commands::WRITE_TAG, key);
    let rk = commands::tagged_at(commands::ROLLBACK_TAG, key, start);
    let ck = commands::tagged_at(commands::COMMIT_TAG, key, at);
    let latest = machine::max_ts();
    let rs = machine::writes_of(s, CommandView::TxnRollback { key, start_ts: start });
    assert(lk[0] != wk[0] && ck[0] != lk[0] && rk[0] != lk[0] && rk[0] != wk[0] && ck[0] != rk[0]
        && ck[0] != wk[0]);
    lemma_latest(start);
    let holds = machine::held_lock(s, key) matches Some(l) && l.ts == start;
    if holds {
        assert(rs.len() == 2 && rs[0].key == lk && rs[0].is_delete && rs[1].key == rk);
    } else {
        assert(rs.len() == 1 && rs[0].key == rk);
    }
    lsm_laws::lemma_after_writes_are_read(f, s, rs, t, lk, latest);
    lsm_laws::lemma_after_writes_are_read(f, s, rs, t, wk, latest);
    lsm_laws::lemma_after_writes_are_read(f, s, rs, t, ck, latest);
    if holds {
        assert(lsm_laws::reaches(rs[0], lk, latest));
    }
    assert forall|i: int| 0 <= i < rs.len() implies !lsm_laws::reaches(#[trigger] rs[i], wk, latest)
        && !lsm_laws::reaches(rs[i], ck, latest) && (!holds ==> !lsm_laws::reaches(
        rs[i],
        lk,
        latest,
    )) by {}
}

// ----------------------------------------------------------------------
// What reads see of a transaction
// ----------------------------------------------------------------------
/// No lock stands in the way of a read of the key at `as_of`.
pub open spec fn is_open(s: LsmView, key: Seq<u8>, as_of: HlcTimestamp) -> bool {
    read::blocking_lock(
        s.get(commands::tagged(commands::LOCK_TAG, key), machine::max_ts()),
        as_of,
    ) is None
}

/// The commit of the key that a read at `as_of` goes by, if there is one.
pub open spec fn seen_commit(s: LsmView, key: Seq<u8>, as_of: HlcTimestamp) -> Option<
    (HlcTimestamp, HlcTimestamp),
> {
    match s.get(commands::tagged(commands::WRITE_TAG, key), as_of) {
        Some(b) => records::dec_commit(b),
        None => None,
    }
}

/// What a read of the key at `as_of` ends with, once no lock stands in its way.
pub open spec fn answer(s: LsmView, key: Seq<u8>, as_of: HlcTimestamp) -> Option<Seq<u8>> {
    let found = s.get(commands::tagged(commands::WRITE_TAG, key), as_of);
    match read::read_step(StageView::Write, key, as_of, found, 0).1 {
        ReadActionView::Get { query, as_of: at, .. } => read::stored_value(s.get(query, at)),
        ReadActionView::Done(v) => v,
        _ => None,
    }
}

/// The recent writes after the first phase are not later than a time that they were
/// not later than before, and that the transaction started before.
proof fn lemma_first_phase_behind<F: Fn(usize) -> (usize, usize)>(
    f: F,
    s: LsmView,
    key: Seq<u8>,
    value: Option<Seq<u8>>,
    primary: Seq<u8>,
    start: HlcTimestamp,
    ttl: u64,
    t: LsmView,
    ts: HlcTimestamp,
)
    requires
        applies(f, s, prewrite(key, value, primary, start, ttl), t),
        machine::conflict(s, key, start) is None,
        is_behind(s, key, start),
        timestamp::ts_le(start, ts),
        lsm_laws::none_later(s, commands::tagged_at(commands::COMMIT_TAG, key, start), ts),
    ensures
        is_behind(t, key, ts),
        lsm_laws::none_later(t, commands::tagged_at(commands::COMMIT_TAG, key, start), ts),
{
    let lk = commands::tagged(commands::LOCK_TAG, key);
    let dk = commands::tagged(commands::DATA_TAG, key);
    let wk = commands::tagged(commands::WRITE_TAG, key);
    let ck = commands::tagged_at(commands::COMMIT_TAG, key, start);
    let rs = machine::writes_of(s, prewrite(key, value, primary, start, ttl));
    assert(rs.len() == 2 && rs[0].ts == start && rs[1].ts == start);
    assert forall|k: Seq<u8>| #[trigger] lsm_laws::up_to(rs, k, ts) by {
        assert forall|i: int| 0 <= i < rs.len() implies (#[trigger] rs[i]).key != k
            || timestamp::ts_le(rs[i].ts, ts) by {}
    }
    lsm_laws::lemma_after_writes_recent(f, s, rs, t, lk, ts);
    lsm_laws::lemma_after_writes_recent(f, s, rs, t, dk, ts);
    lsm_laws::lemma_after_writes_recent(f, s, rs, t, wk, ts);
    lsm_laws::lemma_after_writes_recent(f, s, rs, t, ck, ts);
    assert(lsm_laws::up_to(rs, lk, ts) && lsm_laws::up_to(rs, dk, ts) && lsm_laws::up_to(rs, wk, ts)
        && lsm_laws::up_to(rs, ck, ts));
}

/// What a transaction has not committed is not read: a read at or after its start
/// meets its lock, and one before its start gives what it gave, where the commit
/// that it goes by is one of a transaction that started earlier.
pub proof fn lemma_unfinished_is_not_read<F: Fn(usize) -> (usize, usize)>(
    f: F,
    s: LsmView,
    key: Seq<u8>,
    value: Option<Seq<u8>>,
    primary: Seq<u8>,
    start: HlcTimestamp,
    ttl: u64,
    t: LsmView,
    as_of: HlcTimestamp,
)
    requires
        applies(f, s, prewrite(key, value, primary, start, ttl), t),
        machine::conflict(s, key, start) is None,
        is_behind(s, key, start),
        primary.len() <= u64::MAX,
        seen_commit(s, key, as_of) matches Some((earlier, _)) ==> timestamp::ts_lt(earlier, start)
            && is_told_apart(
            s,
            prewrite(key, value, primary, start, ttl),
            commands::tagged(commands::DATA_TAG, key),
            earlier,
        ),
        marks_told_apart(s, prewrite(key, value, primary, start, ttl), key),
        is_told_apart(
            s,
            prewrite(key, value, primary, start, ttl),
            commands::tagged(commands::WRITE_TAG, key),
            as_of,
        ),
    ensures
        is_open(t, key, as_of) <==> timestamp::ts_lt(as_of, start),
        answer(t, key, as_of) == answer(s, key, as_of),
{
    let lk = commands::tagged(commands::LOCK_TAG, key);
    let dk = commands::tagged(commands::DATA_TAG, key);
    let wk = commands::tagged(commands::WRITE_TAG, key);
    assert(lk[0] != dk[0] && wk[0] != lk[0] && wk[0] != dk[0]);
    lemma_latest(start);
    records::lemma_lock_round_trip(LockView { primary, ts: start, ttl });
    lemma_first_phase_shows(f, s, key, value, primary, start, ttl, t, lk, machine::max_ts());
    lemma_first_phase_shows(f, s, key, value, primary, start, ttl, t, wk, as_of);
    if let Some((earlier, _)) = seen_commit(s, key, as_of) {
        lemma_first_phase_shows(f, s, key, value, primary, start, ttl, t, dk, earlier);
    }
}

/// The version of just this stored key and time is not there twice among the recent
/// writes and those of the first phase, nor after it with those of the second.
pub open spec fn both_tell_apart(
    s: LsmView,
    first: CommandView,
    t: LsmView,
    second: CommandView,
    stored: Seq<u8>,
    at: HlcTimestamp,
) -> bool {
    is_told_apart(s, first, stored, at) && is_told_apart(t, second, stored, at)
}

/// A transaction that has locked a free key and has committed it is read at and
/// after its commit: no lock stands in the way, and the read gives what it wrote. A
/// read before its commit gives what it gave before the transaction, where the
/// commit that it goes by is one of a transaction that started earlier.
pub proof fn lemma_commit_is_read<F: Fn(usize) -> (usize, usize)>(
    f: F,
    s: LsmView,
    key: Seq<u8>,
    value: Option<Seq<u8>>,
    primary: Seq<u8>,
    start: HlcTimestamp,
    ttl: u64,
    commit: HlcTimestamp,
    is_primary: bool,
    t: LsmView,
    u: LsmView,
    as_of: HlcTimestamp,
)
    requires
        applies(f, s, prewrite(key, value, primary, start, ttl), t),
        applies(f, t, commit_of(key, start, commit, is_primary), u),
        machine::conflict(s, key, start) is None,
        is_behind(s, key, start),
        timestamp::ts_le(start, commit),
        lsm_laws::none_later(s, commands::tagged_at(commands::COMMIT_TAG, key, start), commit),
        primary.len() <= u64::MAX,
        value matches Some(v) ==> v.len() <= u64::MAX,
        ({
            let first = prewrite(key, value, primary, start, ttl);
            let second = commit_of(key, start, commit, is_primary);
            let lk = commands::tagged(commands::LOCK_TAG, key);
            let dk = commands::tagged(commands::DATA_TAG, key);
            let wk = commands::tagged(commands::WRITE_TAG, key);
            &&& both_tell_apart(s, first, t, second, lk, machine::max_ts())
            &&& both_tell_apart(s, first, t, second, wk, as_of)
            &&& timestamp::ts_le(commit, as_of) ==> both_tell_apart(s, first, t, second, dk, start)
            &&& timestamp::ts_lt(as_of, commit) ==> (seen_commit(s, key, as_of) matches Some(
                (earlier, _),
            ) ==> timestamp::ts_lt(earlier, start) && both_tell_apart(
                s,
                first,
                t,
                second,
                dk,
                earlier,
            ))
        }),
    ensures
        is_open(u, key, as_of),
        answer(u, key, as_of) == if timestamp::ts_le(commit, as_of) {
            value
        } else {
            answer(s, key, as_of)
        },
{
    let lk = commands::tagged(commands::LOCK_TAG, key);
    let dk = commands::tagged(commands::DATA_TAG, key);
    let wk = commands::tagged(commands::WRITE_TAG, key);
    let ck = commands::tagged_at(commands::COMMIT_TAG, key, start);
    assert(lk[0] != dk[0] && wk[0] != lk[0] && wk[0] != dk[0] && ck[0] != lk[0] && ck[0] != dk[0]
        && ck[0] != wk[0]);
    lemma_latest(commit);
    lemma_latest(start);
    records::lemma_lock_round_trip(LockView { primary, ts: start, ttl });
    lemma_first_phase_shows(f, s, key, value, primary, start, ttl, t, lk, machine::max_ts());
    lemma_first_phase_shows(f, s, key, value, primary, start, ttl, t, wk, as_of);
    lemma_first_phase_behind(f, s, key, value, primary, start, ttl, t, commit);
    lemma_second_phase_shows(f, t, key, start, commit, is_primary, u, lk, machine::max_ts());
    lemma_second_phase_shows(f, t, key, start, commit, is_primary, u, wk, as_of);
    if timestamp::ts_le(commit, as_of) {
        records::lemma_commit_round_trip(start, commit);
        records::lemma_value_round_trip(value, Seq::empty());
        assert(records::enc_value(value) + Seq::<u8>::empty() =~= records::enc_value(value));
        lemma_first_phase_shows(f, s, key, value, primary, start, ttl, t, dk, start);
        lemma_second_phase_shows(f, t, key, start, commit, is_primary, u, dk, start);
    } else {
        if let Some((earlier, _)) = seen_commit(s, key, as_of) {
            lemma_first_phase_shows(f, s, key, value, primary, start, ttl, t, dk, earlier);
            lemma_second_phase_shows(f, t, key, start, commit, is_primary, u, dk, earlier);
        }
    }
}

} // verus!
