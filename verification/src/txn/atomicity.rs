//! Why a transaction commits on all of its keys or on none.
//!
//! Keys, locks and transactions are seen here over all shards, as mathematical
//! values. Coordinators and readers may act in any order. A rollback is only
//! carried out while the transaction has no decision to commit, and on a key other
//! than the primary one only when the primary key is no longer locked for it.
use crate::sharding::commands::{CommandView, LockView};
use crate::sharding::records;
use crate::storage::timestamp::HlcTimestamp;
use crate::txn::coordinator;
use crate::txn::read;
use crate::txn::read::ReadActionView;
use vstd::prelude::*;

verus! {

/// A transaction: its keys, the primary one first, and how many of them its
/// coordinator has seen locked.
pub ghost struct Txn {
    pub keys: Seq<Seq<u8>>,
    pub at: nat,
}

/// What all shards hold: the locks; which keys committed for which transaction,
/// and when; and at primary keys the decisions to commit. Transactions are known
/// by the times at which they started.
pub ghost struct Board {
    pub txns: Map<HlcTimestamp, Txn>,
    pub locks: Map<Seq<u8>, LockView>,
    pub commits: Set<(Seq<u8>, HlcTimestamp, HlcTimestamp)>,
    pub decisions: Map<(Seq<u8>, HlcTimestamp), HlcTimestamp>,
}

/// The key is locked for the transaction.
pub open spec fn holds(b: Board, key: Seq<u8>, start: HlcTimestamp) -> bool {
    b.locks.contains_key(key) && b.locks[key].ts == start
}

// ----------------------------------------------------------------------
// Commands
// ----------------------------------------------------------------------
/// A shard carries out a command. The first phase may be refused on a key that is
/// free, where another transaction has committed since.
pub open spec fn carried_out(b: Board, c: CommandView, d: Board) -> bool {
    match c {
        CommandView::TxnPrewrite { key, value, primary, start_ts, ttl } => {
            ||| d == b
            ||| !b.locks.contains_key(key) && d == (Board {
                locks: b.locks.insert(key, LockView { primary, ts: start_ts, ttl }),
                ..b
            })
        },
        CommandView::TxnCommit { key, start_ts, commit_ts, is_primary } => if holds(
            b,
            key,
            start_ts,
        ) {
            d == (Board {
                locks: b.locks.remove(key),
                commits: b.commits.insert((key, start_ts, commit_ts)),
                decisions: if is_primary {
                    b.decisions.insert((key, start_ts), commit_ts)
                } else {
                    b.decisions
                },
                ..b
            })
        } else {
            d == b
        },
        CommandView::TxnRollback { key, start_ts } => if holds(b, key, start_ts) {
            d == (Board { locks: b.locks.remove(key), ..b })
        } else {
            d == b
        },
        _ => d == b,
    }
}

/// The bytes that a read of a decision finds.
pub open spec fn decision_bytes(b: Board, primary: Seq<u8>, start: HlcTimestamp) -> Option<
    Seq<u8>,
> {
    if b.decisions.contains_key((primary, start)) {
        Some(records::enc_ts(b.decisions[(primary, start)]))
    } else {
        None
    }
}

// ----------------------------------------------------------------------
// Steps
// ----------------------------------------------------------------------
/// What coordinators and readers do.
pub ghost enum Act {
    /// A transaction with these keys begins.
    Begin { start: HlcTimestamp, keys: Seq<Seq<u8>> },
    /// The coordinator has the next key locked.
    Lock { start: HlcTimestamp, value: Option<Seq<u8>> },
    /// The coordinator sees that the next key is locked.
    See { start: HlcTimestamp },
    /// The coordinator has seen all keys locked, and commits the primary key.
    Decide { start: HlcTimestamp, commit: HlcTimestamp },
    /// The coordinator has seen the decision, and commits another key.
    Commit { start: HlcTimestamp, place: int },
    /// A reader that found the decision of a lock settles the key.
    Settle { key: Seq<u8> },
    /// A coordinator or a reader has a key rolled back.
    RollBack { start: HlcTimestamp, key: Seq<u8> },
}

/// What is done leads from one state to the next.
pub open spec fn leads(b: Board, a: Act, d: Board) -> bool {
    match a {
        Act::Begin { start, keys } => {
            &&& !b.txns.contains_key(start)
            &&& keys.len() > 0
            &&& keys.no_duplicates()
            &&& d == (Board { txns: b.txns.insert(start, Txn { keys, at: 0 }), ..b })
        },
        Act::Lock { start, value } => {
            let t = b.txns[start];
            &&& b.txns.contains_key(start)
            &&& t.at < t.keys.len()
            &&& carried_out(
                b,
                CommandView::TxnPrewrite {
                    key: t.keys[t.at as int],
                    value,
                    primary: t.keys[0],
                    start_ts: start,
                    ttl: coordinator::LOCK_TTL,
                },
                d,
            )
        },
        Act::See { start } => {
            let t = b.txns[start];
            &&& b.txns.contains_key(start)
            &&& t.at < t.keys.len()
            &&& holds(b, t.keys[t.at as int], start)
            &&& d == (Board {
                txns: b.txns.insert(start, Txn { keys: t.keys, at: t.at + 1 }),
                ..b
            })
        },
        Act::Decide { start, commit } => {
            let t = b.txns[start];
            &&& b.txns.contains_key(start)
            &&& t.at == t.keys.len()
            &&& carried_out(b, coordinator::commit_of(t.keys[0], start, commit, true), d)
        },
        Act::Commit { start, place } => {
            let t = b.txns[start];
            &&& b.txns.contains_key(start)
            &&& 0 < place < t.keys.len()
            &&& b.decisions.contains_key((t.keys[0], start))
            &&& carried_out(
                b,
                coordinator::commit_of(
                    t.keys[place],
                    start,
                    b.decisions[(t.keys[0], start)],
                    false,
                ),
                d,
            )
        },
        Act::Settle { key } => {
            let l = b.locks[key];
            &&& b.locks.contains_key(key)
            &&& match read::settle(key, l, decision_bytes(b, l.primary, l.ts)) {
                ReadActionView::RollForward(c) => carried_out(b, c, d),
                _ => d == b,
            }
        },
        Act::RollBack { start, key } => {
            let t = b.txns[start];
            &&& b.txns.contains_key(start)
            &&& t.keys.contains(key)
            &&& !b.decisions.contains_key((t.keys[0], start))
            &&& key != t.keys[0] ==> !holds(b, t.keys[0], start)
            &&& carried_out(b, CommandView::TxnRollback { key, start_ts: start }, d)
        },
    }
}

/// Something leads from one state to the next.
pub open spec fn follows(b: Board, d: Board) -> bool {
    exists|a: Act| #[trigger] leads(b, a, d)
}

/// Nothing is there yet.
pub open spec fn is_clear(b: Board) -> bool {
    &&& b.txns == Map::<HlcTimestamp, Txn>::empty()
    &&& b.locks == Map::<Seq<u8>, LockView>::empty()
    &&& b.commits == Set::<(Seq<u8>, HlcTimestamp, HlcTimestamp)>::empty()
    &&& b.decisions == Map::<(Seq<u8>, HlcTimestamp), HlcTimestamp>::empty()
}

/// What the shards go through: nothing is there, and then one thing is done after
/// the other.
pub open spec fn is_run(run: Seq<Board>) -> bool {
    &&& run.len() > 0
    &&& is_clear(run[0])
    &&& forall|k: int| 0 <= k && k + 1 < run.len() ==> #[trigger] follows(run[k], run[k + 1])
}

// ----------------------------------------------------------------------
// What always holds
// ----------------------------------------------------------------------
/// The key has committed for the transaction at this time, or is still locked for
/// it.
pub open spec fn is_settled(b: Board, key: Seq<u8>, start: HlcTimestamp, commit: HlcTimestamp) -> bool {
    b.commits.contains((key, start, commit)) || holds(b, key, start)
}

pub open spec fn txn_ok(b: Board, start: HlcTimestamp) -> bool {
    let t = b.txns[start];
    let p = t.keys[0];
    &&& t.keys.len() > 0
    &&& t.keys.no_duplicates()
    &&& t.at <= t.keys.len()
    &&& b.decisions.contains_key((p, start)) ==> {
        &&& t.at == t.keys.len()
        &&& !holds(b, p, start)
        &&& forall|j: int|
            0 <= j < t.keys.len() ==> is_settled(
                b,
                #[trigger] t.keys[j],
                start,
                b.decisions[(p, start)],
            )
    }
    &&& holds(b, p, start) ==> forall|j: int|
        0 <= j < t.at ==> holds(b, #[trigger] t.keys[j], start)
}

pub open spec fn lock_ok(b: Board, key: Seq<u8>) -> bool {
    let l = b.locks[key];
    &&& b.txns.contains_key(l.ts)
    &&& b.txns[l.ts].keys.contains(key)
    &&& l.primary == b.txns[l.ts].keys[0]
}

pub open spec fn commit_ok(b: Board, key: Seq<u8>, start: HlcTimestamp, commit: HlcTimestamp) -> bool {
    let t = b.txns[start];
    &&& b.txns.contains_key(start)
    &&& b.decisions.contains_key((t.keys[0], start))
    &&& b.decisions[(t.keys[0], start)] == commit
}

/// What holds in every state that the shards can reach.
pub open spec fn inv(b: Board) -> bool {
    &&& forall|s: HlcTimestamp| #[trigger] b.txns.contains_key(s) ==> txn_ok(b, s)
    &&& forall|k: Seq<u8>| #[trigger] b.locks.contains_key(k) ==> lock_ok(b, k)
    &&& forall|k: Seq<u8>, s: HlcTimestamp, c: HlcTimestamp| #[trigger]
        b.commits.contains((k, s, c)) ==> commit_ok(b, k, s, c)
    &&& forall|k: Seq<u8>, s: HlcTimestamp| #[trigger]
        b.decisions.contains_key((k, s)) ==> b.txns.contains_key(s) && b.txns[s].keys[0] == k
}

proof fn lemma_begins(b: Board, start: HlcTimestamp, keys: Seq<Seq<u8>>, d: Board)
    requires
        inv(b),
        leads(b, Act::Begin { start, keys }, d),
    ensures
        inv(d),
{
    assert forall|s: HlcTimestamp| #[trigger] d.txns.contains_key(s) implies txn_ok(d, s) by {
        if s != start {
            assert(txn_ok(b, s));
            let t = b.txns[s];
            if holds(d, t.keys[0], s) {
                assert forall|j: int| 0 <= j < t.at implies holds(d, #[trigger] t.keys[j], s) by {
                    assert(holds(b, t.keys[j], s));
                }
            }
            if b.decisions.contains_key((t.keys[0], s)) {
                let c = b.decisions[(t.keys[0], s)];
                assert forall|j: int| 0 <= j < t.keys.len() implies is_settled(
                    d,
                    #[trigger] t.keys[j],
                    s,
                    c,
                ) by {
                    assert(is_settled(b, t.keys[j], s, c));
                }
            }
        } else {
            if d.decisions.contains_key((keys[0], s)) {
                assert(b.txns.contains_key(s));
            }
        }
    }
    assert forall|k: Seq<u8>| #[trigger] d.locks.contains_key(k) implies lock_ok(d, k) by {
        assert(lock_ok(b, k));
    }
    assert forall|k: Seq<u8>, s: HlcTimestamp, c: HlcTimestamp| #[trigger]
        d.commits.contains((k, s, c)) implies commit_ok(d, k, s, c) by {
        assert(commit_ok(b, k, s, c));
    }
    assert forall|k: Seq<u8>, s: HlcTimestamp| #[trigger] d.decisions.contains_key((k, s)) implies d.txns.contains_key(
        s,
    ) && d.txns[s].keys[0] == k by {
        assert(b.decisions.contains_key((k, s)));
    }
}

/// Of another transaction nothing changes.
proof fn lemma_others_stay(b: Board, d: Board, s: HlcTimestamp)
    requires
        txn_ok(b, s),
        d.txns[s] == b.txns[s],
        forall|k: Seq<u8>| #[trigger] holds(d, k, s) == holds(b, k, s),
        forall|k: Seq<u8>, c: HlcTimestamp| #[trigger]
            b.commits.contains((k, s, c)) ==> d.commits.contains((k, s, c)),
        d.decisions.contains_key((b.txns[s].keys[0], s)) == b.decisions.contains_key(
            (b.txns[s].keys[0], s),
        ),
        d.decisions[(b.txns[s].keys[0], s)] == b.decisions[(b.txns[s].keys[0], s)],
    ensures
        txn_ok(d, s),
{
    let t = b.txns[s];
    if holds(d, t.keys[0], s) {
        assert(holds(b, t.keys[0], s));
        assert forall|j: int| 0 <= j < t.at implies holds(d, #[trigger] t.keys[j], s) by {
            assert(holds(b, t.keys[j], s));
        }
    }
    if b.decisions.contains_key((t.keys[0], s)) {
        assert(holds(d, t.keys[0], s) == holds(b, t.keys[0], s));
        let c = b.decisions[(t.keys[0], s)];
        assert forall|j: int| 0 <= j < t.keys.len() implies is_settled(
            d,
            #[trigger] t.keys[j],
            s,
            c,
        ) by {
            assert(is_settled(b, t.keys[j], s, c));
            assert(holds(d, t.keys[j], s) == holds(b, t.keys[j], s));
        }
    }
}

proof fn lemma_locked(b: Board, start: HlcTimestamp, value: Option<Seq<u8>>, d: Board)
    requires
        inv(b),
        leads(b, Act::Lock { start, value }, d),
    ensures
        inv(d),
{
    let t = b.txns[start];
    let key = t.keys[t.at as int];
    assert(txn_ok(b, start));
    if d != b {
        assert forall|s: HlcTimestamp| #[trigger] d.txns.contains_key(s) implies txn_ok(d, s) by {
            assert(txn_ok(b, s));
            if s != start {
                assert forall|k: Seq<u8>| #[trigger] holds(d, k, s) == holds(b, k, s) by {}
                lemma_others_stay(b, d, s);
            } else {
                if holds(d, t.keys[0], s) && t.at > 0 {
                    assert(key != t.keys[0]);
                    assert(holds(b, t.keys[0], s));
                    assert forall|j: int| 0 <= j < t.at implies holds(d, #[trigger] t.keys[j], s) by {
                        assert(holds(b, t.keys[j], s));
                    }
                }
            }
        }
        assert forall|k: Seq<u8>| #[trigger] d.locks.contains_key(k) implies lock_ok(d, k) by {
            if k != key {
                assert(lock_ok(b, k));
            }
        }
        assert forall|k: Seq<u8>, s: HlcTimestamp, c: HlcTimestamp| #[trigger]
            d.commits.contains((k, s, c)) implies commit_ok(d, k, s, c) by {
            assert(commit_ok(b, k, s, c));
        }
    }
}

proof fn lemma_seen(b: Board, start: HlcTimestamp, d: Board)
    requires
        inv(b),
        leads(b, Act::See { start }, d),
    ensures
        inv(d),
{
    let t = b.txns[start];
    assert(txn_ok(b, start));
    assert forall|s: HlcTimestamp| #[trigger] d.txns.contains_key(s) implies txn_ok(d, s) by {
        assert(txn_ok(b, s));
        if s != start {
            assert forall|k: Seq<u8>| #[trigger] holds(d, k, s) == holds(b, k, s) by {}
            lemma_others_stay(b, d, s);
        } else {
            if holds(d, t.keys[0], s) {
                assert(holds(b, t.keys[0], s));
                assert forall|j: int| 0 <= j < t.at + 1 implies holds(d, #[trigger] t.keys[j], s) by {
                    if j < t.at {
                        assert(holds(b, t.keys[j], s));
                    }
                }
            }
        }
    }
    assert forall|k: Seq<u8>| #[trigger] d.locks.contains_key(k) implies lock_ok(d, k) by {
        assert(lock_ok(b, k));
    }
    assert forall|k: Seq<u8>, s: HlcTimestamp, c: HlcTimestamp| #[trigger]
        d.commits.contains((k, s, c)) implies commit_ok(d, k, s, c) by {
        assert(commit_ok(b, k, s, c));
    }
}

proof fn lemma_decided(b: Board, start: HlcTimestamp, commit: HlcTimestamp, d: Board)
    requires
        inv(b),
        leads(b, Act::Decide { start, commit }, d),
    ensures
        inv(d),
{
    let t = b.txns[start];
    let p = t.keys[0];
    assert(txn_ok(b, start));
    if holds(b, p, start) {
        assert(!b.decisions.contains_key((p, start)));
        assert forall|s: HlcTimestamp| #[trigger] d.txns.contains_key(s) implies txn_ok(d, s) by {
            assert(txn_ok(b, s));
            if s != start {
                assert forall|k: Seq<u8>| #[trigger] holds(d, k, s) == holds(b, k, s) by {}
                lemma_others_stay(b, d, s);
            } else {
                assert forall|j: int| 0 <= j < t.keys.len() implies is_settled(
                    d,
                    #[trigger] t.keys[j],
                    s,
                    commit,
                ) by {
                    assert(holds(b, t.keys[j], s));
                }
            }
        }
        assert forall|k: Seq<u8>| #[trigger] d.locks.contains_key(k) implies lock_ok(d, k) by {
            assert(lock_ok(b, k));
        }
        assert forall|k: Seq<u8>, s: HlcTimestamp, c: HlcTimestamp| #[trigger]
            d.commits.contains((k, s, c)) implies commit_ok(d, k, s, c) by {
            if (k, s, c) != (p, start, commit) {
                assert(b.commits.contains((k, s, c)));
                assert(commit_ok(b, k, s, c));
            }
        }
        assert forall|k: Seq<u8>, s: HlcTimestamp| #[trigger] d.decisions.contains_key((k, s)) implies d.txns.contains_key(
            s,
        ) && d.txns[s].keys[0] == k by {
            if (k, s) != (p, start) {
                assert(b.decisions.contains_key((k, s)));
            }
        }
    }
}

/// A key other than the primary one is committed as was decided.
proof fn lemma_committed(b: Board, start: HlcTimestamp, key: Seq<u8>, commit: HlcTimestamp, d: Board)
    requires
        inv(b),
        b.txns.contains_key(start),
        b.decisions.contains_key((b.txns[start].keys[0], start)),
        b.decisions[(b.txns[start].keys[0], start)] == commit,
        carried_out(b, coordinator::commit_of(key, start, commit, false), d),
    ensures
        inv(d),
{
    let t = b.txns[start];
    assert(txn_ok(b, start));
    if holds(b, key, start) {
        assert(key != t.keys[0]);
        assert forall|s: HlcTimestamp| #[trigger] d.txns.contains_key(s) implies txn_ok(d, s) by {
            assert(txn_ok(b, s));
            if s != start {
                assert forall|k: Seq<u8>| #[trigger] holds(d, k, s) == holds(b, k, s) by {}
                lemma_others_stay(b, d, s);
            } else {
                assert forall|j: int| 0 <= j < t.keys.len() implies is_settled(
                    d,
                    #[trigger] t.keys[j],
                    s,
                    commit,
                ) by {
                    assert(is_settled(b, t.keys[j], s, commit));
                }
            }
        }
        assert forall|k: Seq<u8>| #[trigger] d.locks.contains_key(k) implies lock_ok(d, k) by {
            assert(lock_ok(b, k));
        }
        assert forall|k: Seq<u8>, s: HlcTimestamp, c: HlcTimestamp| #[trigger]
            d.commits.contains((k, s, c)) implies commit_ok(d, k, s, c) by {
            if (k, s, c) != (key, start, commit) {
                assert(b.commits.contains((k, s, c)));
                assert(commit_ok(b, k, s, c));
            }
        }
    }
}

proof fn lemma_rolled_back(b: Board, start: HlcTimestamp, key: Seq<u8>, d: Board)
    requires
        inv(b),
        leads(b, Act::RollBack { start, key }, d),
    ensures
        inv(d),
{
    let t = b.txns[start];
    assert(txn_ok(b, start));
    if holds(b, key, start) {
        assert forall|s: HlcTimestamp| #[trigger] d.txns.contains_key(s) implies txn_ok(d, s) by {
            assert(txn_ok(b, s));
            if s != start {
                assert forall|k: Seq<u8>| #[trigger] holds(d, k, s) == holds(b, k, s) by {}
                lemma_others_stay(b, d, s);
            }
        }
        assert forall|k: Seq<u8>| #[trigger] d.locks.contains_key(k) implies lock_ok(d, k) by {
            assert(lock_ok(b, k));
        }
        assert forall|k: Seq<u8>, s: HlcTimestamp, c: HlcTimestamp| #[trigger]
            d.commits.contains((k, s, c)) implies commit_ok(d, k, s, c) by {
            assert(commit_ok(b, k, s, c));
        }
    }
}

proof fn lemma_step(b: Board, d: Board)
    requires
        inv(b),
        follows(b, d),
    ensures
        inv(d),
{
    let a = choose|a: Act| #[trigger] leads(b, a, d);
    match a {
        Act::Begin { start, keys } => lemma_begins(b, start, keys, d),
        Act::Lock { start, value } => lemma_locked(b, start, value, d),
        Act::See { start } => lemma_seen(b, start, d),
        Act::Decide { start, commit } => lemma_decided(b, start, commit, d),
        Act::Commit { start, place } => {
            let t = b.txns[start];
            lemma_committed(b, start, t.keys[place], b.decisions[(t.keys[0], start)], d);
        },
        Act::Settle { key } => {
            let l = b.locks[key];
            assert(lock_ok(b, key));
            if b.decisions.contains_key((l.primary, l.ts)) {
                let c = b.decisions[(l.primary, l.ts)];
                records::lemma_commit_round_trip(c, c);
                lemma_committed(b, l.ts, key, c, d);
            }
        },
        Act::RollBack { start, key } => lemma_rolled_back(b, start, key, d),
    }
}

proof fn lemma_reached(run: Seq<Board>, at: int)
    requires
        is_run(run),
        0 <= at < run.len(),
    ensures
        inv(run[at]),
    decreases at,
{
    if at > 0 {
        let k = at - 1;
        lemma_reached(run, k);
        assert(follows(run[k], run[k + 1]));
        lemma_step(run[k], run[at]);
    }
}

/// No transaction is partly visible: where one of its keys has committed, each of
/// its keys has committed at the same time, or is locked, and whoever finds the lock
/// is led by it to the decision and commits the key at that time.
pub proof fn lemma_transactions_are_atomic(
    run: Seq<Board>,
    at: int,
    start: HlcTimestamp,
    commit: HlcTimestamp,
    key: Seq<u8>,
    other: Seq<u8>,
)
    requires
        is_run(run),
        0 <= at < run.len(),
        run[at].commits.contains((key, start, commit)),
        run[at].txns.contains_key(start),
        run[at].txns[start].keys.contains(other),
    ensures
        ({
            let b = run[at];
            ||| b.commits.contains((other, start, commit))
            ||| {
                let l = b.locks[other];
                &&& b.locks.contains_key(other)
                &&& l.ts == start
                &&& read::settle(other, l, decision_bytes(b, l.primary, start))
                    == ReadActionView::RollForward(
                    coordinator::commit_of(other, start, commit, false),
                )
            }
        }),
{
    lemma_reached(run, at);
    let b = run[at];
    let t = b.txns[start];
    assert(commit_ok(b, key, start, commit));
    assert(txn_ok(b, start));
    let j = choose|j: int| 0 <= j < t.keys.len() && t.keys[j] == other;
    assert(is_settled(b, t.keys[j], start, commit));
    if holds(b, other, start) {
        assert(lock_ok(b, other));
        records::lemma_commit_round_trip(commit, commit);
    }
}

/// A transaction commits at one time only.
pub proof fn lemma_one_commit_time(
    run: Seq<Board>,
    at: int,
    start: HlcTimestamp,
    key: Seq<u8>,
    commit: HlcTimestamp,
    other: Seq<u8>,
    other_commit: HlcTimestamp,
)
    requires
        is_run(run),
        0 <= at < run.len(),
        run[at].commits.contains((key, start, commit)),
        run[at].commits.contains((other, start, other_commit)),
    ensures
        commit == other_commit,
{
    lemma_reached(run, at);
    assert(commit_ok(run[at], key, start, commit));
    assert(commit_ok(run[at], other, start, other_commit));
}

} // verus!
