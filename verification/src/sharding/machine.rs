//! The state machine of a shard: what each command does to its storage.
use crate::bytes;
use crate::consensus::messages::StateMachineError;
use crate::sharding::commands;
use crate::sharding::commands::{
    commit_key, data_key, error_key, lock_key, rollback_key, write_key, CommandView, ConflictView,
    LockInfo, LockView, MetaCommand, MetaView, PrewriteError, ShardCommand,
};
use crate::sharding::lists;
use crate::sharding::records;
use crate::sharding::routing;
use crate::sharding::routing::{RouteView, RoutingTable, ShardId};
use crate::storage::key;
use crate::storage::lsm::LsmStorage;
use crate::storage::lsm_model;
use crate::storage::lsm_model::LsmView;
use crate::storage::scan;
use crate::storage::timestamp;
use crate::storage::timestamp::HlcTimestamp;
use crate::storage::wal::RecordView;
use vstd::prelude::*;

verus! {

/// Data that leaves a shard for another one.
#[derive(Debug)]
pub enum Export {
    /// The upper part of the keys, for a new shard.
    Split { to: ShardId, data: Vec<u8> },
    /// All keys, for the shard that takes this one in.
    Merge { to: ShardId, data: Vec<u8> },
}

#[verifier::ext_equal]
pub enum ExportView {
    Split { to: ShardId, data: Seq<u8> },
    Merge { to: ShardId, data: Seq<u8> },
}

impl View for Export {
    type V = ExportView;

    open spec fn view(&self) -> ExportView {
        match self {
            Export::Split { to, data } => ExportView::Split { to: *to, data: data@ },
            Export::Merge { to, data } => ExportView::Merge { to: *to, data: data@ },
        }
    }
}

pub open spec fn export_views(v: Seq<Export>) -> Seq<ExportView> {
    v.map_values(|e: Export| e@)
}

/// The latest timestamp.
pub open spec fn max_ts() -> HlcTimestamp {
    HlcTimestamp { physical: u64::MAX, logical: u32::MAX }
}

fn latest() -> (r: HlcTimestamp)
    ensures
        r == max_ts(),
{
    HlcTimestamp { physical: u64::MAX, logical: u32::MAX }
}

// ----------------------------------------------------------------------
// What commands write
// ----------------------------------------------------------------------
/// A put as a record.
pub open spec fn put_of(key: Seq<u8>, value: Seq<u8>, ts: HlcTimestamp) -> RecordView {
    RecordView { is_delete: false, key, value, ts }
}

/// A deletion as a record.
pub open spec fn delete_of(key: Seq<u8>, ts: HlcTimestamp) -> RecordView {
    RecordView { is_delete: true, key, value: Seq::empty(), ts }
}

/// The lock on a key, if there is one.
pub open spec fn held_lock(s: LsmView, key: Seq<u8>) -> Option<LockView> {
    match s.get(commands::tagged(commands::LOCK_TAG, key), max_ts()) {
        Some(b) => records::dec_lock(b),
        None => None,
    }
}

/// The last commit of a key, if there is one: when that transaction started,
/// and when it committed.
pub open spec fn last_commit(s: LsmView, key: Seq<u8>) -> Option<(HlcTimestamp, HlcTimestamp)> {
    match s.get(commands::tagged(commands::WRITE_TAG, key), max_ts()) {
        Some(b) => records::dec_commit(b),
        None => None,
    }
}

/// Why a transaction that started at `start` cannot lock the key: another one
/// has committed since, or holds the lock.
pub open spec fn conflict(s: LsmView, key: Seq<u8>, start: HlcTimestamp) -> Option<ConflictView> {
    match last_commit(s, key) {
        Some((_, commit)) if timestamp::ts_le(start, commit) => Some(
            ConflictView::WriteConflict(commit),
        ),
        _ => match held_lock(s, key) {
            Some(l) => Some(ConflictView::LockConflict { primary: l.primary, ts: l.ts }),
            None => None,
        },
    }
}

/// What the first phase writes: the refusal, or the lock and the value.
pub open spec fn prewrite_writes(
    s: LsmView,
    key: Seq<u8>,
    value: Option<Seq<u8>>,
    primary: Seq<u8>,
    start_ts: HlcTimestamp,
    ttl: u64,
) -> Seq<RecordView> {
    match conflict(s, key, start_ts) {
        Some(c) => seq![
            put_of(
                commands::tagged_at(commands::ERROR_TAG, key, start_ts),
                records::enc_conflict(c),
                start_ts,
            ),
        ],
        None => seq![
            put_of(
                commands::tagged(commands::LOCK_TAG, key),
                records::enc_lock(LockView { primary, ts: start_ts, ttl }),
                start_ts,
            ),
            put_of(
                commands::tagged(commands::DATA_TAG, key),
                records::enc_value(value),
                start_ts,
            ),
        ],
    }
}

/// What the second phase writes where the transaction holds the lock: the lock
/// goes, the commit comes, and on the primary key the decision; else nothing.
pub open spec fn commit_writes(
    s: LsmView,
    key: Seq<u8>,
    start_ts: HlcTimestamp,
    commit_ts: HlcTimestamp,
    is_primary: bool,
) -> Seq<RecordView> {
    match held_lock(s, key) {
        Some(l) if l.ts == start_ts => {
            let done = seq![
                delete_of(commands::tagged(commands::LOCK_TAG, key), commit_ts),
                put_of(
                    commands::tagged(commands::WRITE_TAG, key),
                    records::enc_commit(start_ts, commit_ts),
                    commit_ts,
                ),
            ];
            if is_primary {
                done.push(
                    put_of(
                        commands::tagged_at(commands::COMMIT_TAG, key, start_ts),
                        records::enc_ts(commit_ts),
                        commit_ts,
                    ),
                )
            } else {
                done
            }
        },
        _ => Seq::empty(),
    }
}

/// What a rollback writes: the transaction's lock goes, and it is noted that
/// it was rolled back.
pub open spec fn rollback_writes(s: LsmView, key: Seq<u8>, start_ts: HlcTimestamp) -> Seq<
    RecordView,
> {
    let note = put_of(
        commands::tagged_at(commands::ROLLBACK_TAG, key, start_ts),
        Seq::empty(),
        start_ts,
    );
    match held_lock(s, key) {
        Some(l) if l.ts == start_ts => seq![
            delete_of(commands::tagged(commands::LOCK_TAG, key), start_ts),
            note,
        ],
        _ => seq![note],
    }
}

/// The deletions of what a scan has shown.
pub open spec fn deletions(hits: Seq<(Seq<u8>, Seq<u8>)>) -> Seq<RecordView> {
    hits.map_values(|h: (Seq<u8>, Seq<u8>)| delete_of(h.0, max_ts()))
}

/// What a command other than a split or a merge writes.
pub open spec fn writes_of(s: LsmView, c: CommandView) -> Seq<RecordView> {
    match c {
        CommandView::Put { key, value, ts } => seq![put_of(key, value, ts)],
        CommandView::Delete { key, ts } => seq![delete_of(key, ts)],
        CommandView::TxnPrewrite { key, value, primary, start_ts, ttl } => prewrite_writes(
            s,
            key,
            value,
            primary,
            start_ts,
            ttl,
        ),
        CommandView::TxnCommit { key, start_ts, commit_ts, is_primary } => commit_writes(
            s,
            key,
            start_ts,
            commit_ts,
            is_primary,
        ),
        CommandView::TxnRollback { key, start_ts } => rollback_writes(s, key, start_ts),
        _ => Seq::empty(),
    }
}

/// What a command answers: a put its value, the others nothing.
pub open spec fn reply_of(c: CommandView) -> Seq<u8> {
    match c {
        CommandView::Put { value, .. } => value,
        _ => Seq::empty(),
    }
}

/// What a command does: from the state `s` to `t`, and with which data for
/// other shards.
pub open spec fn executed<F: Fn(usize) -> (usize, usize)>(
    f: F,
    s: LsmView,
    c: CommandView,
    t: LsmView,
    out: Seq<ExportView>,
) -> bool {
    match c {
        CommandView::Split { new_shard_id, split_key } => exists|hits: Seq<(Seq<u8>, Seq<u8>)>|
            #![trigger deletions(hits)]
            scan::is_scan(hits, s.runs(), split_key, Seq::empty(), max_ts())
                && lsm_model::after_writes(f, s, deletions(hits), t) && out == seq![
                ExportView::Split { to: new_shard_id, data: lists::enc_pairs(hits) },
            ],
        CommandView::Merge { target_shard_id } => t == s && exists|
            hits: Seq<(Seq<u8>, Seq<u8>)>,
        |
            #![trigger lists::enc_pairs(hits)]
            scan::is_scan(hits, s.runs(), Seq::empty(), Seq::empty(), max_ts()) && out == seq![
                ExportView::Merge { to: target_shard_id, data: lists::enc_pairs(hits) },
            ],
        _ => lsm_model::after_writes(f, s, writes_of(s, c), t) && out == Seq::<
            ExportView,
        >::empty(),
    }
}

/// There is room for what a command writes: its text is not too long for the
/// fields of the files, and the recent writes are not too many.
pub open spec fn has_room(s: LsmView, c: CommandView, len: nat) -> bool {
    &&& len < 0xffff_ff00
    &&& s.active.len() + 3 < 0x1_0000_0000
    &&& match c {
        CommandView::Split { split_key, .. } => split_fits(s, split_key),
        _ => true,
    }
}

/// There is room for the deletions of a split.
pub open spec fn split_fits(s: LsmView, split_key: Seq<u8>) -> bool {
    forall|hits: Seq<(Seq<u8>, Seq<u8>)>| #[trigger]
        scan::is_scan(hits, s.runs(), split_key, Seq::empty(), max_ts()) ==> s.active.len()
            + hits.len() < 0x1_0000_0000
}

/// The byte strings of a command are not longer than its text.
proof fn lemma_command_lens(b: Seq<u8>)
    ensures
        match records::dec_command(b) {
            Some(CommandView::Put { key, value, .. }) => key.len() < b.len() && value.len()
                < b.len(),
            Some(CommandView::Delete { key, .. }) => key.len() < b.len(),
            Some(CommandView::Split { split_key, .. }) => split_key.len() < b.len(),
            Some(CommandView::Merge { .. }) => true,
            Some(CommandView::TxnPrewrite { key, value, primary, .. }) => key.len() < b.len()
                && primary.len() < b.len() && (value matches Some(v) ==> v.len() < b.len()),
            Some(CommandView::TxnCommit { key, .. }) => key.len() < b.len(),
            Some(CommandView::TxnRollback { key, .. }) => key.len() < b.len(),
            None => true,
        },
{
}

// ----------------------------------------------------------------------
// The commands
// ----------------------------------------------------------------------
/// The lock on a key, if there is one.
pub fn find_lock<F: Fn(usize) -> (usize, usize)>(storage: &LsmStorage<F>, key: &[u8]) -> (r: Option<
    LockInfo,
>)
    requires
        storage.wf(),
    ensures
        records::lock_view(r) == held_lock(storage@, key@),
        r matches Some(l) ==> l.primary@.len() + 28 < 0x1_0000_0000,
{
    let lk = lock_key(key);
    proof {
        storage.lemma_wf();
        lsm_model::lemma_get_fits(storage@, lk@, max_ts());
    }
    match storage.get_at(lk.as_slice(), latest()) {
        Some(b) => records::decode_lock(b.as_slice()),
        None => None,
    }
}

/// Why a transaction cannot lock a key.
pub fn find_conflict<F: Fn(usize) -> (usize, usize)>(
    storage: &LsmStorage<F>,
    key: &[u8],
    start_ts: HlcTimestamp,
) -> (r: Option<PrewriteError>)
    requires
        storage.wf(),
    ensures
        records::conflict_view(r) == conflict(storage@, key@, start_ts),
        r matches Some(c) ==> records::enc_conflict(c@).len() < 0x1_0000_0000,
{
    broadcast use crate::bytes::lemma_le_bytes_len;

    let wk = write_key(key);
    if let Some(b) = storage.get_at(wk.as_slice(), latest()) {
        if let Some((_, commit)) = records::decode_commit(b.as_slice()) {
            if start_ts.is_at_or_before(&commit) {
                return Some(PrewriteError::WriteConflict(commit));
            }
        }
    }
    match find_lock(storage, key) {
        Some(l) => Some(PrewriteError::LockConflict { primary: l.primary, ts: l.ts }),
        None => None,
    }
}

/// Makes one write more.
fn write_one<F: Fn(usize) -> (usize, usize)>(
    storage: &mut LsmStorage<F>,
    is_delete: bool,
    key: &[u8],
    value: &[u8],
    ts: HlcTimestamp,
    start: Ghost<LsmView>,
    done: Ghost<Seq<RecordView>>,
)
    requires
        old(storage).wf(),
        key@.len() < 0x1_0000_0000,
        value@.len() < 0x1_0000_0000,
        is_delete ==> value@.len() == 0,
        old(storage)@.active.len() < 0xffff_ffff,
        lsm_model::after_writes(old(storage).sizing(), start@, done@, old(storage)@),
    ensures
        final(storage).wf(),
        final(storage).sizing() == old(storage).sizing(),
        final(storage)@.active.len() <= old(storage)@.active.len() + 1,
        lsm_model::after_writes(
            old(storage).sizing(),
            start@,
            done@.push(RecordView { is_delete, key: key@, value: value@, ts }),
            final(storage)@,
        ),
{
    let ghost r = RecordView { is_delete, key: key@, value: value@, ts };
    let ghost before = storage@;
    let ghost f = storage.sizing();
    proof {
        key::lemma_place(before.active, key::KeyView { user: key@, ts });
    }
    if is_delete {
        storage.delete_at(key, ts);
        assert(r.value =~= Seq::empty());
    } else {
        storage.put_at(key, value, ts);
    }
    proof {
        lsm_model::lemma_after_writes_push(f, start@, done@, before, r, storage@);
    }
}

fn prewrite<F: Fn(usize) -> (usize, usize)>(
    storage: &mut LsmStorage<F>,
    key: &[u8],
    value: &Option<Vec<u8>>,
    primary: Vec<u8>,
    start_ts: HlcTimestamp,
    ttl: u64,
)
    requires
        old(storage).wf(),
        key@.len() < 0xffff_ff00,
        primary@.len() < 0xffff_ff00,
        bytes::value_view(*value) matches Some(v) ==> v.len() < 0xffff_ff00,
        old(storage)@.active.len() + 3 < 0x1_0000_0000,
    ensures
        final(storage).wf(),
        final(storage).sizing() == old(storage).sizing(),
        lsm_model::after_writes(
            old(storage).sizing(),
            old(storage)@,
            prewrite_writes(
                old(storage)@,
                key@,
                bytes::value_view(*value),
                primary@,
                start_ts,
                ttl,
            ),
            final(storage)@,
        ),
{
    broadcast use crate::bytes::lemma_le_bytes_len;

    let ghost s = storage@;
    let ghost none = Seq::<RecordView>::empty();
    if let Some(c) = find_conflict(&*storage, key, start_ts) {
        let ek = error_key(key, start_ts);
        let b = records::encode_conflict(&c);
        let ghost r = put_of(ek@, b@, start_ts);
        write_one(storage, false, ek.as_slice(), b.as_slice(), start_ts, Ghost(s), Ghost(none));
        assert(none.push(r) =~= seq![r]);
        return;
    }
    let lk = lock_key(key);
    let lock = LockInfo { primary, ts: start_ts, ttl };
    let b = records::encode_lock(&lock);
    let ghost r1 = put_of(lk@, b@, start_ts);
    write_one(storage, false, lk.as_slice(), b.as_slice(), start_ts, Ghost(s), Ghost(none));
    let dk = data_key(key);
    let v = records::encode_value(value);
    let ghost r2 = put_of(dk@, v@, start_ts);
    write_one(
        storage,
        false,
        dk.as_slice(),
        v.as_slice(),
        start_ts,
        Ghost(s),
        Ghost(none.push(r1)),
    );
    assert(none.push(r1).push(r2) =~= seq![r1, r2]);
}

fn commit<F: Fn(usize) -> (usize, usize)>(
    storage: &mut LsmStorage<F>,
    key: &[u8],
    start_ts: HlcTimestamp,
    commit_ts: HlcTimestamp,
    is_primary: bool,
)
    requires
        old(storage).wf(),
        key@.len() < 0xffff_ff00,
        old(storage)@.active.len() + 3 < 0x1_0000_0000,
    ensures
        final(storage).wf(),
        final(storage).sizing() == old(storage).sizing(),
        lsm_model::after_writes(
            old(storage).sizing(),
            old(storage)@,
            commit_writes(old(storage)@, key@, start_ts, commit_ts, is_primary),
            final(storage)@,
        ),
{
    broadcast use crate::bytes::lemma_le_bytes_len;

    let ghost s = storage@;
    let ghost none = Seq::<RecordView>::empty();
    let mine: bool = match find_lock(&*storage, key) {
        Some(l) => l.ts == start_ts,
        None => false,
    };
    if !mine {
        return;
    }
    let empty: Vec<u8> = Vec::new();
    let lk = lock_key(key);
    let ghost r1 = delete_of(lk@, commit_ts);
    write_one(storage, true, lk.as_slice(), empty.as_slice(), commit_ts, Ghost(s), Ghost(none));
    assert(empty@ =~= r1.value);
    let wk = write_key(key);
    let b = records::encode_commit(start_ts, commit_ts);
    let ghost r2 = put_of(wk@, b@, commit_ts);
    write_one(
        storage,
        false,
        wk.as_slice(),
        b.as_slice(),
        commit_ts,
        Ghost(s),
        Ghost(none.push(r1)),
    );
    assert(none.push(r1).push(r2) =~= seq![r1, r2]);
    if is_primary {
        let ck = commit_key(key, start_ts);
        let v = records::encode_ts(commit_ts);
        write_one(
            storage,
            false,
            ck.as_slice(),
            v.as_slice(),
            commit_ts,
            Ghost(s),
            Ghost(none.push(r1).push(r2)),
        );
    }
}

fn rollback<F: Fn(usize) -> (usize, usize)>(
    storage: &mut LsmStorage<F>,
    key: &[u8],
    start_ts: HlcTimestamp,
)
    requires
        old(storage).wf(),
        key@.len() < 0xffff_ff00,
        old(storage)@.active.len() + 3 < 0x1_0000_0000,
    ensures
        final(storage).wf(),
        final(storage).sizing() == old(storage).sizing(),
        lsm_model::after_writes(
            old(storage).sizing(),
            old(storage)@,
            rollback_writes(old(storage)@, key@, start_ts),
            final(storage)@,
        ),
{
    broadcast use crate::bytes::lemma_le_bytes_len;

    let ghost s = storage@;
    let ghost none = Seq::<RecordView>::empty();
    let mine: bool = match find_lock(&*storage, key) {
        Some(l) => l.ts == start_ts,
        None => false,
    };
    let empty: Vec<u8> = Vec::new();
    let ghost mut done = none;
    if mine {
        let lk = lock_key(key);
        let ghost r1 = delete_of(lk@, start_ts);
        write_one(storage, true, lk.as_slice(), empty.as_slice(), start_ts, Ghost(s), Ghost(none));
        assert(empty@ =~= r1.value);
        proof {
            done = done.push(r1);
        }
    }
    let rk = rollback_key(key, start_ts);
    let ghost note = put_of(rk@, Seq::empty(), start_ts);
    assert(empty@ =~= note.value);
    write_one(storage, false, rk.as_slice(), empty.as_slice(), start_ts, Ghost(s), Ghost(done));
    assert(done.push(note) =~= rollback_writes(s, key@, start_ts));
}

/// Takes the keys from `split_key` on out of the storage.
fn split<F: Fn(usize) -> (usize, usize)>(
    storage: &mut LsmStorage<F>,
    split_key: &[u8],
) -> (r: Vec<u8>)
    requires
        old(storage).wf(),
        split_fits(old(storage)@, split_key@),
    ensures
        final(storage).wf(),
        final(storage).sizing() == old(storage).sizing(),
        exists|hits: Seq<(Seq<u8>, Seq<u8>)>|
            #![trigger deletions(hits)]
            scan::is_scan(hits, old(storage)@.runs(), split_key@, Seq::empty(), max_ts())
                && lsm_model::after_writes(
                old(storage).sizing(),
                old(storage)@,
                deletions(hits),
                final(storage)@,
            ) && r@ == lists::enc_pairs(hits),
{
    let ghost s = storage@;
    let none: Vec<u8> = Vec::new();
    let found = storage.scan_at(split_key, none.as_slice(), latest());
    let ghost hits = scan::pair_views(found@);
    let ghost all = deletions(hits);
    proof {
        assert(none@ =~= Seq::empty());
        storage.lemma_wf();
        lsm_model::lemma_scan_fits(s, hits, split_key@, Seq::empty(), max_ts());
        assert(scan::is_scan(hits, s.runs(), split_key@, Seq::empty(), max_ts()));
        assert(all.take(0) =~= Seq::empty());
    }
    let mut i: usize = 0;
    while i < found.len()
        invariant
            i <= found@.len(),
            hits == scan::pair_views(found@),
            all == deletions(hits),
            none@.len() == 0,
            storage.wf(),
            storage.sizing() == old(storage).sizing(),
            s.active.len() + hits.len() < 0x1_0000_0000,
            storage@.active.len() <= s.active.len() + i,
            forall|k: int| 0 <= k < hits.len() ==> (#[trigger] hits[k]).0.len() < 0x1_0000_0000,
            lsm_model::after_writes(storage.sizing(), s, all.take(i as int), storage@),
        decreases found@.len() - i,
    {
        proof {
            assert(hits[i as int] == (found@[i as int].0@, found@[i as int].1@));
            assert(all[i as int] == delete_of(hits[i as int].0, max_ts()));
            assert(all.take(i + 1) =~= all.take(i as int).push(all[i as int]));
            assert(none@ =~= all[i as int].value);
        }
        write_one(
            storage,
            true,
            found[i].0.as_slice(),
            none.as_slice(),
            latest(),
            Ghost(s),
            Ghost(all.take(i as int)),
        );
        i = i + 1;
    }
    assert(all.take(i as int) =~= all);
    lists::encode_pairs(found.as_slice())
}

/// All keys and values that the storage has now.
fn dump<F: Fn(usize) -> (usize, usize)>(storage: &LsmStorage<F>) -> (r: Vec<u8>)
    requires
        storage.wf(),
    ensures
        is_dump(r@, storage@),
{
    let none: Vec<u8> = Vec::new();
    let found = storage.scan_at(none.as_slice(), none.as_slice(), latest());
    proof {
        assert(none@ =~= Seq::empty());
        let hits = scan::pair_views(found@);
        assert(scan::is_scan(hits, storage@.runs(), Seq::empty(), Seq::empty(), max_ts()));
    }
    lists::encode_pairs(found.as_slice())
}

// ----------------------------------------------------------------------
// The machine
// ----------------------------------------------------------------------
/// The state machine of a shard. Shard zero holds the routing table, which its
/// node shares out, and has no storage.
pub struct ShardStateMachine<F> {
    pub shard_id: ShardId,
    pub storage: Option<LsmStorage<F>>,
    pub exports: Vec<Export>,
}

/// The bytes are those of all keys and values that a read of the state gives.
pub open spec fn is_dump(b: Seq<u8>, s: LsmView) -> bool {
    exists|hits: Seq<(Seq<u8>, Seq<u8>)>|
        #![trigger lists::enc_pairs(hits)]
        scan::is_scan(hits, s.runs(), Seq::empty(), Seq::empty(), max_ts()) && b
            == lists::enc_pairs(hits)
}

/// The routing table after a command.
pub open spec fn table_after(routes: Seq<RouteView>, c: MetaView) -> Seq<RouteView> {
    match c {
        MetaView::UpdateRoute(r) => routing::updated(routes, r),
        MetaView::RemoveRoute(s) => routing::without(routes, s),
    }
}

/// Puts of keys and values that come with a shard.
pub open spec fn initial_puts(ps: Seq<(Seq<u8>, Seq<u8>)>) -> Seq<RecordView> {
    ps.map_values(
        |p: (Seq<u8>, Seq<u8>)| put_of(p.0, p.1, HlcTimestamp { physical: 0, logical: 0 }),
    )
}

/// The keys and values that wait for a shard: none where nothing waits, or what
/// waits cannot be read.
pub open spec fn waiting_pairs(file: Option<Seq<u8>>) -> Seq<(Seq<u8>, Seq<u8>)> {
    match file {
        Some(b) => match lists::dec_pairs(b) {
            Some(ps) => ps,
            None => Seq::empty(),
        },
        None => Seq::empty(),
    }
}

/// The keys and values that a shard starts with: those of a split, and behind them
/// those of the shards that it takes in.
pub open spec fn seed_pairs(split: Option<Seq<u8>>, merge: Option<Seq<u8>>) -> Seq<
    (Seq<u8>, Seq<u8>),
> {
    waiting_pairs(split) + waiting_pairs(merge)
}

/// What waits for a shard once the data of another one has come: a split is the
/// start of a shard, and a shard that is taken in comes behind those that wait.
pub open spec fn landed(waiting: Option<Seq<u8>>, e: ExportView) -> Seq<u8> {
    match e {
        ExportView::Split { data, .. } => data,
        ExportView::Merge { data, .. } => lists::enc_pairs(
            waiting_pairs(waiting) + waiting_pairs(Some(data)),
        ),
    }
}

fn read_waiting(file: &Option<Vec<u8>>) -> (r: Vec<(Vec<u8>, Vec<u8>)>)
    ensures
        scan::pair_views(r@) == waiting_pairs(bytes::value_view(*file)),
{
    if let Some(b) = file {
        if let Some(ps) = lists::decode_pairs(b.as_slice()) {
            return ps;
        }
    }
    let none: Vec<(Vec<u8>, Vec<u8>)> = Vec::new();
    assert(scan::pair_views(none@) =~= Seq::empty());
    none
}

impl Export {
    /// The file that waits for the other shard once this data has come, given the
    /// one that waits already.
    pub fn land(self, waiting: &Option<Vec<u8>>) -> (r: Vec<u8>)
        ensures
            r@ == landed(bytes::value_view(*waiting), self@),
    {
        match self {
            Export::Split { data, .. } => data,
            Export::Merge { data, .. } => {
                let mut all = read_waiting(waiting);
                let mut more = read_waiting(&Some(data));
                let ghost before = all@;
                let ghost behind = more@;
                all.append(&mut more);
                assert(scan::pair_views(all@) =~= scan::pair_views(before) + scan::pair_views(
                    behind,
                ));
                lists::encode_pairs(all.as_slice())
            },
        }
    }
}

/// There is room for the keys and values.
pub open spec fn pairs_fit(s: LsmView, ps: Seq<(Seq<u8>, Seq<u8>)>) -> bool {
    &&& s.active.len() + ps.len() < 0x1_0000_0000
    &&& forall|i: int|
        0 <= i < ps.len() ==> (#[trigger] ps[i]).0.len() < 0x1_0000_0000 && ps[i].1.len()
            < 0x1_0000_0000
}

fn put_all<F: Fn(usize) -> (usize, usize)>(
    storage: &mut LsmStorage<F>,
    ps: &[(Vec<u8>, Vec<u8>)],
)
    requires
        old(storage).wf(),
        pairs_fit(old(storage)@, scan::pair_views(ps@)),
    ensures
        final(storage).wf(),
        final(storage).sizing() == old(storage).sizing(),
        lsm_model::after_writes(
            old(storage).sizing(),
            old(storage)@,
            initial_puts(scan::pair_views(ps@)),
            final(storage)@,
        ),
{
    let ghost s = storage@;
    let ghost pairs = scan::pair_views(ps@);
    let ghost all = initial_puts(pairs);
    let mut i: usize = 0;
    assert(all.take(0) =~= Seq::empty());
    while i < ps.len()
        invariant
            i <= ps@.len(),
            pairs == scan::pair_views(ps@),
            all == initial_puts(pairs),
            pairs_fit(s, pairs),
            storage.wf(),
            storage.sizing() == old(storage).sizing(),
            storage@.active.len() <= s.active.len() + i,
            lsm_model::after_writes(storage.sizing(), s, all.take(i as int), storage@),
        decreases ps@.len() - i,
    {
        proof {
            assert(pairs[i as int] == (ps@[i as int].0@, ps@[i as int].1@));
            assert(all.take(i + 1) =~= all.take(i as int).push(all[i as int]));
        }
        write_one(
            storage,
            false,
            ps[i].0.as_slice(),
            ps[i].1.as_slice(),
            HlcTimestamp::zero(),
            Ghost(s),
            Ghost(all.take(i as int)),
        );
        i = i + 1;
    }
    assert(all.take(i as int) =~= all);
}

impl<F: Fn(usize) -> (usize, usize)> ShardStateMachine<F> {
    pub open spec fn wf(&self) -> bool {
        self.storage matches Some(s) ==> s.wf()
    }

    /// There is room for what the command writes.
    pub open spec fn ready_for(&self, command: Seq<u8>) -> bool {
        self.shard_id.0 != 0 ==> (self.storage matches Some(s) ==> (records::dec_command(
            command,
        ) matches Some(c) ==> has_room(s@, c, command.len())))
    }

    /// Whether there is room for what the command writes.
    pub fn is_ready_for(&self, command: &[u8]) -> (r: bool)
        requires
            self.wf(),
        ensures
            r == self.ready_for(command@),
    {
        if self.shard_id.0 == 0 {
            return true;
        }
        let storage = match &self.storage {
            Some(s) => s,
            None => return true,
        };
        let c = match records::decode_command(command) {
            Some(c) => c,
            None => return true,
        };
        let recent: u64 = storage.recent_count() as u64;
        if command.len() >= 0xffff_ff00 || recent >= 0xffff_fffd {
            return false;
        }
        match c {
            ShardCommand::Split { split_key, .. } => {
                let none: Vec<u8> = Vec::new();
                let found = storage.scan_at(split_key.as_slice(), none.as_slice(), latest());
                proof {
                    assert(none@ =~= Seq::empty());
                    let s = storage@;
                    let mine = scan::pair_views(found@);
                    assert forall|hits: Seq<(Seq<u8>, Seq<u8>)>| #[trigger]
                        scan::is_scan(
                            hits,
                            s.runs(),
                            split_key@,
                            Seq::empty(),
                            max_ts(),
                        ) implies hits == mine by {
                        scan::lemma_scan_unique(
                            hits,
                            mine,
                            s.runs(),
                            split_key@,
                            Seq::empty(),
                            max_ts(),
                        );
                    }
                    assert(scan::is_scan(mine, s.runs(), split_key@, Seq::empty(), max_ts()));
                }
                (found.len() as u64) < 0x1_0000_0000 - recent
            },
            _ => true,
        }
    }

    /// The machine of a shard over its storage, with the data that came for it
    /// from a split and from a merge.
    pub fn open(
        shard_id: ShardId,
        storage: LsmStorage<F>,
        split_file: &Option<Vec<u8>>,
        merge_file: &Option<Vec<u8>>,
    ) -> (r: Self)
        requires
            storage.wf(),
            pairs_fit(
                storage@,
                seed_pairs(bytes::value_view(*split_file), bytes::value_view(*merge_file)),
            ),
        ensures
            r.wf(),
            r.shard_id == shard_id,
            export_views(r.exports@) == Seq::<ExportView>::empty(),
            shard_id.0 == 0 ==> r.storage is None,
            shard_id.0 != 0 ==> (r.storage matches Some(s) && s.sizing() == storage.sizing()
                && lsm_model::after_writes(
                storage.sizing(),
                storage@,
                initial_puts(
                    seed_pairs(bytes::value_view(*split_file), bytes::value_view(*merge_file)),
                ),
                s@,
            )),
    {
        let exports: Vec<Export> = Vec::new();
        assert(export_views(exports@) =~= Seq::empty());
        if shard_id.0 == 0 {
            return ShardStateMachine { shard_id, storage: None, exports };
        }
        let mut seed = read_waiting(split_file);
        let mut more = read_waiting(merge_file);
        let ghost first = seed@;
        let ghost second = more@;
        seed.append(&mut more);
        assert(scan::pair_views(seed@) =~= scan::pair_views(first) + scan::pair_views(second));
        let mut store = storage;
        put_all(&mut store, seed.as_slice());
        ShardStateMachine { shard_id, storage: Some(store), exports }
    }

    /// Queues data for another shard.
    fn export(&mut self, e: Export)
        ensures
            final(self).shard_id == old(self).shard_id,
            final(self).storage == old(self).storage,
            export_views(final(self).exports@) == export_views(old(self).exports@) + seq![e@],
    {
        let ghost before = export_views(self.exports@);
        let ghost view = e@;
        self.exports.push(e);
        assert(export_views(self.exports@) =~= before + seq![view]);
    }
}

/// Executes a command that writes, and no more.
fn execute_writes<F: Fn(usize) -> (usize, usize)>(
    storage: &mut LsmStorage<F>,
    cmd: ShardCommand,
    len: Ghost<Seq<u8>>,
) -> (r: Vec<u8>)
    requires
        old(storage).wf(),
        records::dec_command(len@) == Some(cmd@),
        has_room(old(storage)@, cmd@, len@.len()),
        !(cmd is Split),
        !(cmd is Merge),
    ensures
        final(storage).wf(),
        final(storage).sizing() == old(storage).sizing(),
        lsm_model::after_writes(
            old(storage).sizing(),
            old(storage)@,
            writes_of(old(storage)@, cmd@),
            final(storage)@,
        ),
        r@ == reply_of(cmd@),
{
    let ghost s = storage@;
    let ghost none = Seq::<RecordView>::empty();
    let empty: Vec<u8> = Vec::new();
    proof {
        lemma_command_lens(len@);
        assert(empty@ =~= Seq::empty());
    }
    match cmd {
        ShardCommand::Put { key, value, ts } => {
            let ghost r = put_of(key@, value@, ts);
            write_one(
                storage,
                false,
                key.as_slice(),
                value.as_slice(),
                ts,
                Ghost(s),
                Ghost(none),
            );
            assert(none.push(r) =~= seq![r]);
            value
        },
        ShardCommand::Delete { key, ts } => {
            let ghost r = delete_of(key@, ts);
            write_one(storage, true, key.as_slice(), empty.as_slice(), ts, Ghost(s), Ghost(none));
            assert(none.push(r) =~= seq![r]);
            empty
        },
        ShardCommand::TxnPrewrite { key, value, primary, start_ts, ttl } => {
            prewrite(storage, key.as_slice(), &value, primary, start_ts, ttl);
            empty
        },
        ShardCommand::TxnCommit { key, start_ts, commit_ts, is_primary } => {
            commit(storage, key.as_slice(), start_ts, commit_ts, is_primary);
            empty
        },
        ShardCommand::TxnRollback { key, start_ts } => {
            rollback(storage, key.as_slice(), start_ts);
            empty
        },
        _ => empty,
    }
}

impl<F: Fn(usize) -> (usize, usize)> ShardStateMachine<F> {
    /// Executes a command on the storage.
    fn execute(&mut self, cmd: ShardCommand, len: Ghost<Seq<u8>>) -> (r: Vec<u8>)
        requires
            old(self).wf(),
            old(self).storage is Some,
            records::dec_command(len@) == Some(cmd@),
            has_room(old(self).storage->0@, cmd@, len@.len()),
        ensures
            final(self).wf(),
            final(self).shard_id == old(self).shard_id,
            final(self).storage matches Some(t) && t.sizing() == old(self).storage->0.sizing() && (
            exists|out: Seq<ExportView>|
                #[trigger] executed(
                    t.sizing(),
                    old(self).storage->0@,
                    cmd@,
                    t@,
                    out,
                ) && export_views(final(self).exports@) == export_views(old(self).exports@) + out),
            r@ == reply_of(cmd@),
    {
        let mut store = self.storage.take().unwrap();
        let ghost s = store@;
        let ghost f = store.sizing();
        let ghost c = cmd@;
        let ghost before = export_views(self.exports@);
        match cmd {
            ShardCommand::Split { new_shard_id, split_key } => {
                let data = split(&mut store, split_key.as_slice());
                let ghost hits = choose|hits: Seq<(Seq<u8>, Seq<u8>)>|
                    #![trigger deletions(hits)]
                    scan::is_scan(hits, s.runs(), split_key@, Seq::empty(), max_ts())
                        && lsm_model::after_writes(f, s, deletions(hits), store@) && data@
                        == lists::enc_pairs(hits);
                let e = Export::Split { to: new_shard_id, data };
                let ghost out = seq![e@];
                self.export(e);
                self.storage = Some(store);
                proof {
                    assert(scan::is_scan(hits, s.runs(), split_key@, Seq::empty(), max_ts())
                        && lsm_model::after_writes(f, s, deletions(hits), store@) && out == seq![
                        ExportView::Split { to: new_shard_id, data: lists::enc_pairs(hits) },
                    ]);
                    assert(executed(f, s, c, store@, out));
                }
                Vec::new()
            },
            ShardCommand::Merge { target_shard_id } => {
                let data = dump(&store);
                let ghost hits = choose|hits: Seq<(Seq<u8>, Seq<u8>)>|
                    #![trigger lists::enc_pairs(hits)]
                    scan::is_scan(hits, s.runs(), Seq::empty(), Seq::empty(), max_ts()) && data@
                        == lists::enc_pairs(hits);
                let e = Export::Merge { to: target_shard_id, data };
                let ghost out = seq![e@];
                self.export(e);
                self.storage = Some(store);
                proof {
                    assert(scan::is_scan(hits, s.runs(), Seq::empty(), Seq::empty(), max_ts())
                        && out == seq![
                        ExportView::Merge { to: target_shard_id, data: lists::enc_pairs(hits) },
                    ]);
                    assert(executed(f, s, c, store@, out));
                }
                Vec::new()
            },
            other => {
                let r = execute_writes(&mut store, other, len);
                self.storage = Some(store);
                proof {
                    let out = Seq::<ExportView>::empty();
                    assert(executed(f, s, c, store@, out));
                    assert(before + out =~= before);
                }
                r
            },
        }
    }

    /// Applies a command from the log.
    pub fn apply(&mut self, table: &mut RoutingTable, command: &[u8]) -> (r: Result<
        Vec<u8>,
        StateMachineError,
    >)
        requires
            old(self).wf(),
            old(self).ready_for(command@),
        ensures
            final(self).wf(),
            final(self).shard_id == old(self).shard_id,
            old(self).shard_id.0 == 0 ==> {
                &&& *final(self) == *old(self)
                &&& match lists::dec_meta(command@) {
                    Some(c) => final(table)@ == table_after(old(table)@, c) && (r matches Ok(v)
                        && v@.len() == 0),
                    None => *final(table) == *old(table) && r matches Err(
                        StateMachineError::ApplyFailed(_),
                    ),
                }
            },
            old(self).shard_id.0 != 0 ==> {
                &&& *final(table) == *old(table)
                &&& match (records::dec_command(command@), old(self).storage) {
                    (None, _) => *final(self) == *old(self) && r matches Err(
                        StateMachineError::ApplyFailed(_),
                    ),
                    (Some(_), None) => *final(self) == *old(self) && (r matches Err(
                        StateMachineError::ApplyFailed(m),
                    ) && m@ == "Storage not initialized"@),
                    (Some(c), Some(s)) => {
                        &&& final(self).storage matches Some(t) && t.sizing() == s.sizing() && (
                        exists|out: Seq<ExportView>|
                            #[trigger] executed(s.sizing(), s@, c, t@, out) && export_views(
                                final(self).exports@,
                            ) == export_views(old(self).exports@) + out)
                        &&& r matches Ok(v) && v@ == reply_of(c)
                    },
                }
            },
    {
        if self.shard_id.0 == 0 {
            match lists::decode_meta(command) {
                Some(MetaCommand::UpdateRoute(route)) => {
                    table.update_route(route);
                    Ok(Vec::new())
                },
                Some(MetaCommand::RemoveRoute(shard)) => {
                    table.remove_route(shard);
                    Ok(Vec::new())
                },
                None => Err(StateMachineError::ApplyFailed("malformed command".to_owned())),
            }
        } else {
            match records::decode_command(command) {
                Some(cmd) => {
                    if self.storage.is_none() {
                        return Err(
                            StateMachineError::ApplyFailed("Storage not initialized".to_owned()),
                        );
                    }
                    Ok(self.execute(cmd, Ghost(command@)))
                },
                None => Err(StateMachineError::ApplyFailed("malformed command".to_owned())),
            }
        }
    }

    /// The state as bytes: of shard zero the routing table, of the others all
    /// keys and values.
    pub fn snapshot(&self, table: &RoutingTable) -> (r: Vec<u8>)
        requires
            self.wf(),
        ensures
            self.shard_id.0 == 0 ==> r@ == lists::enc_table(table@),
            self.shard_id.0 != 0 ==> match self.storage {
                Some(s) => is_dump(r@, s@),
                None => r@.len() == 0,
            },
    {
        if self.shard_id.0 == 0 {
            lists::encode_table(table)
        } else {
            match &self.storage {
                Some(s) => dump(s),
                None => Vec::new(),
            }
        }
    }

    /// Replaces the state by that of a snapshot: the routing table, or all keys
    /// and values, which go into the fresh storage.
    pub fn restore(
        &mut self,
        table: &mut RoutingTable,
        snapshot: &[u8],
        fresh: LsmStorage<F>,
    ) -> (r: Result<(), StateMachineError>)
        requires
            old(self).wf(),
            fresh.wf(),
            old(self).shard_id.0 != 0 ==> (lists::dec_pairs(snapshot@) matches Some(ps)
                ==> pairs_fit(fresh@, ps)),
        ensures
            final(self).wf(),
            final(self).shard_id == old(self).shard_id,
            final(self).exports == old(self).exports,
            old(self).shard_id.0 == 0 ==> {
                &&& *final(self) == *old(self)
                &&& match lists::dec_table(snapshot@) {
                    Some(rs) => r is Ok && final(table)@ == rs,
                    None => *final(table) == *old(table) && r matches Err(
                        StateMachineError::RestoreFailed(_),
                    ),
                }
            },
            old(self).shard_id.0 != 0 ==> {
                &&& *final(table) == *old(table)
                &&& match lists::dec_pairs(snapshot@) {
                    Some(ps) => r is Ok && (final(self).storage matches Some(t) && t.sizing()
                        == fresh.sizing() && lsm_model::after_writes(
                        fresh.sizing(),
                        fresh@,
                        initial_puts(ps),
                        t@,
                    )),
                    None => *final(self) == *old(self) && r matches Err(
                        StateMachineError::RestoreFailed(_),
                    ),
                }
            },
    {
        if self.shard_id.0 == 0 {
            match lists::decode_table(snapshot) {
                Some(t) => {
                    *table = t;
                    Ok(())
                },
                None => Err(StateMachineError::RestoreFailed("malformed snapshot".to_owned())),
            }
        } else {
            match lists::decode_pairs(snapshot) {
                Some(ps) => {
                    let mut store = fresh;
                    put_all(&mut store, ps.as_slice());
                    self.storage = Some(store);
                    Ok(())
                },
                None => Err(StateMachineError::RestoreFailed("malformed snapshot".to_owned())),
            }
        }
    }
}

} // verus!
