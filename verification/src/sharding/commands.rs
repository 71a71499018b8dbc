//! The commands that shards execute, and the keys of transactions' records.
use crate::bytes;
use crate::sharding::routing::{RangeRoute, RouteView, ShardId};
use crate::storage::timestamp;
use crate::storage::timestamp::HlcTimestamp;
use vstd::prelude::*;

verus! {

/// A command of the shard that holds the routing table.
#[derive(Debug)]
pub enum MetaCommand {
    UpdateRoute(RangeRoute),
    RemoveRoute(ShardId),
}

/// A lock of a transaction on a key.
#[derive(Debug)]
pub struct LockInfo {
    pub primary: Vec<u8>,
    pub ts: HlcTimestamp,
    pub ttl: u64,
}

/// Why a key could not be locked.
#[derive(Debug)]
pub enum PrewriteError {
    WriteConflict(HlcTimestamp),
    LockConflict { primary: Vec<u8>, ts: HlcTimestamp },
}

/// A command of a shard.
#[derive(Debug)]
#[allow(inconsistent_fields)]
pub enum ShardCommand {
    Put { key: Vec<u8>, value: Vec<u8>, ts: HlcTimestamp },
    Delete { key: Vec<u8>, ts: HlcTimestamp },
    Split { new_shard_id: ShardId, split_key: Vec<u8> },
    Merge { target_shard_id: ShardId },
    TxnPrewrite {
        key: Vec<u8>,
        value: Option<Vec<u8>>,
        primary: Vec<u8>,
        start_ts: HlcTimestamp,
        ttl: u64,
    },
    TxnCommit { key: Vec<u8>, start_ts: HlcTimestamp, commit_ts: HlcTimestamp, is_primary: bool },
    TxnRollback { key: Vec<u8>, start_ts: HlcTimestamp },
}

// ----------------------------------------------------------------------
// Mathematical values
// ----------------------------------------------------------------------
#[verifier::ext_equal]
pub enum MetaView {
    UpdateRoute(RouteView),
    RemoveRoute(ShardId),
}

#[verifier::ext_equal]
pub struct LockView {
    pub primary: Seq<u8>,
    pub ts: HlcTimestamp,
    pub ttl: u64,
}

#[verifier::ext_equal]
pub enum ConflictView {
    WriteConflict(HlcTimestamp),
    LockConflict { primary: Seq<u8>, ts: HlcTimestamp },
}

#[verifier::ext_equal]
#[allow(inconsistent_fields)]
pub enum CommandView {
    Put { key: Seq<u8>, value: Seq<u8>, ts: HlcTimestamp },
    Delete { key: Seq<u8>, ts: HlcTimestamp },
    Split { new_shard_id: ShardId, split_key: Seq<u8> },
    Merge { target_shard_id: ShardId },
    TxnPrewrite {
        key: Seq<u8>,
        value: Option<Seq<u8>>,
        primary: Seq<u8>,
        start_ts: HlcTimestamp,
        ttl: u64,
    },
    TxnCommit { key: Seq<u8>, start_ts: HlcTimestamp, commit_ts: HlcTimestamp, is_primary: bool },
    TxnRollback { key: Seq<u8>, start_ts: HlcTimestamp },
}

impl View for MetaCommand {
    type V = MetaView;

    open spec fn view(&self) -> MetaView {
        match self {
            MetaCommand::UpdateRoute(r) => MetaView::UpdateRoute(r@),
            MetaCommand::RemoveRoute(s) => MetaView::RemoveRoute(*s),
        }
    }
}

impl View for LockInfo {
    type V = LockView;

    open spec fn view(&self) -> LockView {
        LockView { primary: self.primary@, ts: self.ts, ttl: self.ttl }
    }
}

impl View for PrewriteError {
    type V = ConflictView;

    open spec fn view(&self) -> ConflictView {
        match self {
            PrewriteError::WriteConflict(ts) => ConflictView::WriteConflict(*ts),
            PrewriteError::LockConflict { primary, ts } => ConflictView::LockConflict {
                primary: primary@,
                ts: *ts,
            },
        }
    }
}

impl View for ShardCommand {
    type V = CommandView;

    open spec fn view(&self) -> CommandView {
        match self {
            ShardCommand::Put { key, value, ts } => CommandView::Put {
                key: key@,
                value: value@,
                ts: *ts,
            },
            ShardCommand::Delete { key, ts } => CommandView::Delete { key: key@, ts: *ts },
            ShardCommand::Split { new_shard_id, split_key } => CommandView::Split {
                new_shard_id: *new_shard_id,
                split_key: split_key@,
            },
            ShardCommand::Merge { target_shard_id } => CommandView::Merge {
                target_shard_id: *target_shard_id,
            },
            ShardCommand::TxnPrewrite { key, value, primary, start_ts, ttl } => {
                CommandView::TxnPrewrite {
                    key: key@,
                    value: bytes::value_view(*value),
                    primary: primary@,
                    start_ts: *start_ts,
                    ttl: *ttl,
                }
            },
            ShardCommand::TxnCommit { key, start_ts, commit_ts, is_primary } => {
                CommandView::TxnCommit {
                    key: key@,
                    start_ts: *start_ts,
                    commit_ts: *commit_ts,
                    is_primary: *is_primary,
                }
            },
            ShardCommand::TxnRollback { key, start_ts } => CommandView::TxnRollback {
                key: key@,
                start_ts: *start_ts,
            },
        }
    }
}

// ----------------------------------------------------------------------
// Keys
// ----------------------------------------------------------------------
/// `l`, before the keys of locks.
pub const LOCK_TAG: u8 = 108;

/// `d`, before the keys of values.
pub const DATA_TAG: u8 = 100;

/// `w`, before the keys of commits.
pub const WRITE_TAG: u8 = 119;

/// `e`, before the keys of refusals.
pub const ERROR_TAG: u8 = 101;

/// `c`, before the keys of decisions to commit.
pub const COMMIT_TAG: u8 = 99;

/// `r`, before the keys of rollbacks.
pub const ROLLBACK_TAG: u8 = 114;

/// A key behind the letter of its kind.
pub open spec fn tagged(tag: u8, key: Seq<u8>) -> Seq<u8> {
    seq![tag] + key
}

/// A key behind the letter of its kind, and the start of a transaction, most
/// significant byte first.
pub open spec fn tagged_at(tag: u8, key: Seq<u8>, ts: HlcTimestamp) -> Seq<u8> {
    seq![tag] + key + bytes::be_bytes(ts.physical as nat, 8) + bytes::be_bytes(
        ts.logical as nat,
        4,
    )
}

fn tag_key(tag: u8, key: &[u8]) -> (r: Vec<u8>)
    ensures
        r@ == tagged(tag, key@),
{
    let mut k: Vec<u8> = Vec::new();
    k.push(tag);
    bytes::append_bytes(&mut k, key);
    assert(k@ =~= tagged(tag, key@));
    k
}

fn tag_key_at(tag: u8, key: &[u8], ts: HlcTimestamp) -> (r: Vec<u8>)
    ensures
        r@ == tagged_at(tag, key@, ts),
{
    let mut k = tag_key(tag, key);
    bytes::push_be(&mut k, ts.physical, 8);
    bytes::push_be(&mut k, ts.logical as u64, 4);
    k
}

/// Where the lock on a key is kept.
pub fn lock_key(key: &[u8]) -> (r: Vec<u8>)
    ensures
        r@ == tagged(LOCK_TAG, key@),
{
    tag_key(LOCK_TAG, key)
}

/// Where the values of a key are kept.
pub fn data_key(key: &[u8]) -> (r: Vec<u8>)
    ensures
        r@ == tagged(DATA_TAG, key@),
{
    tag_key(DATA_TAG, key)
}

/// Where the commits of a key are kept.
pub fn write_key(key: &[u8]) -> (r: Vec<u8>)
    ensures
        r@ == tagged(WRITE_TAG, key@),
{
    tag_key(WRITE_TAG, key)
}

/// Where it is kept why a transaction could not lock a key.
pub fn error_key(key: &[u8], start_ts: HlcTimestamp) -> (r: Vec<u8>)
    ensures
        r@ == tagged_at(ERROR_TAG, key@, start_ts),
{
    tag_key_at(ERROR_TAG, key, start_ts)
}

/// Where it is kept that a transaction has committed.
pub fn commit_key(key: &[u8], start_ts: HlcTimestamp) -> (r: Vec<u8>)
    ensures
        r@ == tagged_at(COMMIT_TAG, key@, start_ts),
{
    tag_key_at(COMMIT_TAG, key, start_ts)
}

/// Where it is kept that a transaction was rolled back.
pub fn rollback_key(key: &[u8], start_ts: HlcTimestamp) -> (r: Vec<u8>)
    ensures
        r@ == tagged_at(ROLLBACK_TAG, key@, start_ts),
{
    tag_key_at(ROLLBACK_TAG, key, start_ts)
}

/// Keys of different kinds are different, and so are those of different keys.
pub proof fn lemma_tagged_distinct(tag1: u8, key1: Seq<u8>, tag2: u8, key2: Seq<u8>)
    ensures
        tagged(tag1, key1) == tagged(tag2, key2) <==> tag1 == tag2 && key1 == key2,
{
    assert(tagged(tag1, key1)[0] == tag1);
    assert(tagged(tag2, key2)[0] == tag2);
    assert(tagged(tag1, key1).skip(1) =~= key1);
    assert(tagged(tag2, key2).skip(1) =~= key2);
}

/// The keys of a transaction's records tell kinds, keys and transactions apart.
pub proof fn lemma_tagged_at_distinct(
    tag1: u8,
    key1: Seq<u8>,
    ts1: HlcTimestamp,
    tag2: u8,
    key2: Seq<u8>,
    ts2: HlcTimestamp,
)
    ensures
        tagged_at(tag1, key1, ts1) == tagged_at(tag2, key2, ts2) <==> tag1 == tag2 && key1 == key2
            && ts1 == ts2,
{
    broadcast use crate::bytes::lemma_le_bytes_len;

    let a = tagged_at(tag1, key1, ts1);
    let b = tagged_at(tag2, key2, ts2);
    if a == b {
        let p1 = bytes::be_bytes(ts1.physical as nat, 8);
        let p2 = bytes::be_bytes(ts2.physical as nat, 8);
        let l1 = bytes::be_bytes(ts1.logical as nat, 4);
        let l2 = bytes::be_bytes(ts2.logical as nat, 4);
        let n = key1.len() as int;
        assert(p1.len() == 8 && p2.len() == 8 && l1.len() == 4 && l2.len() == 4);
        assert(a.len() == 1 + key1.len() + 12);
        assert(b.len() == 1 + key2.len() + 12);
        assert(a[0] == tag1 && b[0] == tag2);
        assert(a.subrange(1, n + 1) =~= key1);
        assert(b.subrange(1, n + 1) =~= key2);
        assert(a.subrange(n + 1, n + 9) =~= p1);
        assert(b.subrange(n + 1, n + 9) =~= p2);
        assert(a.subrange(n + 9, n + 13) =~= l1);
        assert(b.subrange(n + 9, n + 13) =~= l2);
        bytes::lemma_pow256();
        bytes::lemma_be_injective(ts1.physical as nat, ts2.physical as nat, 8);
        bytes::lemma_be_injective(ts1.logical as nat, ts2.logical as nat, 4);
    }
}

/// The keys of one kind that a key has are in the order of their times, and all
/// equally long.
pub proof fn lemma_tagged_at_ordered(tag: u8, key: Seq<u8>, ts1: HlcTimestamp, ts2: HlcTimestamp)
    ensures
        bytes::lex_lt(tagged_at(tag, key, ts1), tagged_at(tag, key, ts2)) <==> timestamp::ts_lt(
            ts1,
            ts2,
        ),
        tagged_at(tag, key, ts1).len() == key.len() + 13,
{
    broadcast use crate::bytes::lemma_le_bytes_len;

    let front = seq![tag] + key;
    let p1 = bytes::be_bytes(ts1.physical as nat, 8);
    let p2 = bytes::be_bytes(ts2.physical as nat, 8);
    let l1 = bytes::be_bytes(ts1.logical as nat, 4);
    let l2 = bytes::be_bytes(ts2.logical as nat, 4);
    bytes::lemma_pow256();
    bytes::lemma_be_ordered(ts1.physical as nat, ts2.physical as nat, 8);
    bytes::lemma_be_ordered(ts1.logical as nat, ts2.logical as nat, 4);
    bytes::lemma_lex_irreflexive(front);
    assert(tagged_at(tag, key, ts1) =~= front + (p1 + l1));
    assert(tagged_at(tag, key, ts2) =~= front + (p2 + l2));
    bytes::lemma_lex_concat(front, p1 + l1, front, p2 + l2);
    bytes::lemma_lex_concat(p1, l1, p2, l2);
    if p1 == p2 {
        bytes::lemma_be_injective(ts1.physical as nat, ts2.physical as nat, 8);
    }
}

} // verus!
