//! How commands, locks and commits are written as bytes.
use crate::bytes;
use crate::codec;
use crate::sharding::commands::{
    CommandView, ConflictView, LockInfo, LockView, PrewriteError, ShardCommand,
};
use crate::sharding::routing::ShardId;
use crate::storage::timestamp::HlcTimestamp;
use vstd::prelude::*;

verus! {

// ----------------------------------------------------------------------
// Timestamps, flags and optional byte strings
// ----------------------------------------------------------------------
/// The bytes of a timestamp.
pub open spec fn enc_ts(ts: HlcTimestamp) -> Seq<u8> {
    codec::enc_u64(ts.physical) + codec::enc_u32(ts.logical)
}

/// A timestamp, and what follows it.
pub open spec fn dec_ts(b: Seq<u8>) -> Option<(HlcTimestamp, Seq<u8>)> {
    match codec::dec_u64(b) {
        Some((physical, rest)) => match codec::dec_u32(rest) {
            Some((logical, after)) => Some((HlcTimestamp { physical, logical }, after)),
            None => None,
        },
        None => None,
    }
}

/// The bytes of a flag.
pub open spec fn enc_bool(x: bool) -> Seq<u8> {
    codec::enc_u8(
        if x {
            1
        } else {
            0
        },
    )
}

/// A flag, and what follows it; other bytes than zero and one are none.
pub open spec fn dec_bool(b: Seq<u8>) -> Option<(bool, Seq<u8>)> {
    match codec::dec_u8(b) {
        Some((0u8, rest)) => Some((false, rest)),
        Some((1u8, rest)) => Some((true, rest)),
        _ => None,
    }
}

/// The bytes of an optional byte string.
pub open spec fn enc_value(v: Option<Seq<u8>>) -> Seq<u8> {
    match v {
        None => codec::enc_u8(0),
        Some(x) => codec::enc_u8(1) + codec::enc_bytes(x),
    }
}

/// An optional byte string, and what follows it.
pub open spec fn dec_value(b: Seq<u8>) -> Option<(Option<Seq<u8>>, Seq<u8>)> {
    match codec::dec_u8(b) {
        Some((0u8, rest)) => Some((None, rest)),
        Some((1u8, rest)) => match codec::dec_bytes(rest) {
            Some((x, after)) => Some((Some(x), after)),
            None => None,
        },
        _ => None,
    }
}

pub fn put_ts(out: &mut Vec<u8>, ts: HlcTimestamp)
    ensures
        final(out)@ == old(out)@ + enc_ts(ts),
{
    codec::put_u64(out, ts.physical);
    codec::put_u32(out, ts.logical);
    assert(out@ =~= old(out)@ + enc_ts(ts));
}

pub fn put_value(out: &mut Vec<u8>, v: &Option<Vec<u8>>)
    ensures
        final(out)@ == old(out)@ + enc_value(bytes::value_view(*v)),
{
    match v {
        None => codec::put_u8(out, 0),
        Some(x) => {
            codec::put_u8(out, 1);
            codec::put_bytes(out, x.as_slice());
        },
    }
    assert(out@ =~= old(out)@ + enc_value(bytes::value_view(*v)));
}

pub fn put_bool(out: &mut Vec<u8>, x: bool)
    ensures
        final(out)@ == old(out)@ + enc_bool(x),
{
    if x {
        codec::put_u8(out, 1);
    } else {
        codec::put_u8(out, 0);
    }
}

/// Reads a timestamp at `at`; it ends twelve bytes further.
pub fn get_ts(b: &[u8], at: usize) -> (r: Option<HlcTimestamp>)
    requires
        at <= b@.len(),
    ensures
        dec_ts(b@.skip(at as int)) == (match r {
            Some(x) => Some((x, b@.skip(at + 12))),
            None => None,
        }),
        r is Some ==> at + 12 <= b@.len() <= usize::MAX,
{
    match codec::get_u64(b, at) {
        Some(physical) => match codec::get_u32(b, at + 8) {
            Some(logical) => Some(HlcTimestamp { physical, logical }),
            None => None,
        },
        None => None,
    }
}

/// Reads a flag at `at`; it ends one byte further.
pub fn get_bool(b: &[u8], at: usize) -> (r: Option<bool>)
    requires
        at <= b@.len(),
    ensures
        dec_bool(b@.skip(at as int)) == (match r {
            Some(x) => Some((x, b@.skip(at + 1))),
            None => None,
        }),
        r is Some ==> at + 1 <= b@.len() <= usize::MAX,
{
    match codec::get_u8(b, at) {
        Some(x) => if x == 0 {
            Some(false)
        } else if x == 1 {
            Some(true)
        } else {
            None
        },
        None => None,
    }
}

/// Reads an optional byte string at `at`, with the place where it ends.
pub fn get_value(b: &[u8], at: usize) -> (r: Option<(Option<Vec<u8>>, usize)>)
    requires
        at <= b@.len(),
    ensures
        dec_value(b@.skip(at as int)) == (match r {
            Some((v, end)) => Some((bytes::value_view(v), b@.skip(end as int))),
            None => None,
        }),
        r matches Some((_, end)) ==> end <= b@.len(),
{
    match codec::get_u8(b, at) {
        Some(x) => if x == 0 {
            Some((None, at + 1))
        } else if x == 1 {
            match codec::get_bytes(b, at + 1) {
                Some(v) => {
                    let end: usize = at + 9 + v.len();
                    Some((Some(v), end))
                },
                None => None,
            }
        } else {
            None
        },
        None => None,
    }
}

proof fn lemma_ts_round_trip(ts: HlcTimestamp, rest: Seq<u8>)
    ensures
        dec_ts(enc_ts(ts) + rest) == Some((ts, rest)),
{
    codec::lemma_u64_round_trip(ts.physical, codec::enc_u32(ts.logical) + rest);
    codec::lemma_u32_round_trip(ts.logical, rest);
    assert(enc_ts(ts) + rest =~= codec::enc_u64(ts.physical) + (codec::enc_u32(ts.logical) + rest));
}

proof fn lemma_bool_round_trip(x: bool, rest: Seq<u8>)
    ensures
        dec_bool(enc_bool(x) + rest) == Some((x, rest)),
{
    codec::lemma_u8_round_trip(
        if x {
            1
        } else {
            0
        },
        rest,
    );
}

/// An optional byte string that was written is read back.
pub proof fn lemma_value_round_trip(v: Option<Seq<u8>>, rest: Seq<u8>)
    requires
        v matches Some(x) ==> x.len() <= u64::MAX,
    ensures
        dec_value(enc_value(v) + rest) == Some((v, rest)),
{
    match v {
        None => codec::lemma_u8_round_trip(0, rest),
        Some(x) => {
            codec::lemma_u8_round_trip(1, codec::enc_bytes(x) + rest);
            codec::lemma_bytes_round_trip(x, rest);
            assert(enc_value(v) + rest =~= codec::enc_u8(1) + (codec::enc_bytes(x) + rest));
        },
    }
}

// ----------------------------------------------------------------------
// Locks, commits and refusals
// ----------------------------------------------------------------------
/// The bytes of a lock.
pub open spec fn enc_lock(l: LockView) -> Seq<u8> {
    codec::enc_bytes(l.primary) + enc_ts(l.ts) + codec::enc_u64(l.ttl)
}

/// The lock that bytes hold, if they hold one.
pub open spec fn dec_lock(b: Seq<u8>) -> Option<LockView> {
    match codec::dec_bytes(b) {
        Some((primary, rest)) => match dec_ts(rest) {
            Some((ts, after)) => match codec::dec_u64(after) {
                Some((ttl, _)) => Some(LockView { primary, ts, ttl }),
                None => None,
            },
            None => None,
        },
        None => None,
    }
}

/// The bytes of a commit: when the transaction started, and when it committed.
pub open spec fn enc_commit(start: HlcTimestamp, commit: HlcTimestamp) -> Seq<u8> {
    enc_ts(start) + enc_ts(commit)
}

/// The commit that bytes hold, if they hold one.
pub open spec fn dec_commit(b: Seq<u8>) -> Option<(HlcTimestamp, HlcTimestamp)> {
    match dec_ts(b) {
        Some((start, rest)) => match dec_ts(rest) {
            Some((commit, _)) => Some((start, commit)),
            None => None,
        },
        None => None,
    }
}

/// The timestamp that bytes hold, if they hold one.
pub open spec fn dec_one_ts(b: Seq<u8>) -> Option<HlcTimestamp> {
    match dec_ts(b) {
        Some((ts, _)) => Some(ts),
        None => None,
    }
}

/// The value that bytes hold, if they hold one.
pub open spec fn dec_one_value(b: Seq<u8>) -> Option<Option<Seq<u8>>> {
    match dec_value(b) {
        Some((v, _)) => Some(v),
        None => None,
    }
}

/// The bytes of a refusal.
pub open spec fn enc_conflict(e: ConflictView) -> Seq<u8> {
    match e {
        ConflictView::WriteConflict(ts) => codec::enc_u32(0) + enc_ts(ts),
        ConflictView::LockConflict { primary, ts } => codec::enc_u32(1) + codec::enc_bytes(primary)
            + enc_ts(ts),
    }
}

/// The refusal that bytes hold, if they hold one.
pub open spec fn dec_conflict(b: Seq<u8>) -> Option<ConflictView> {
    match codec::dec_u32(b) {
        Some((0u32, rest)) => match dec_ts(rest) {
            Some((ts, _)) => Some(ConflictView::WriteConflict(ts)),
            None => None,
        },
        Some((1u32, rest)) => match codec::dec_bytes(rest) {
            Some((primary, after)) => match dec_ts(after) {
                Some((ts, _)) => Some(ConflictView::LockConflict { primary, ts }),
                None => None,
            },
            None => None,
        },
        _ => None,
    }
}

pub fn encode_lock(l: &LockInfo) -> (r: Vec<u8>)
    ensures
        r@ == enc_lock(l@),
{
    let mut out: Vec<u8> = Vec::new();
    codec::put_bytes(&mut out, l.primary.as_slice());
    put_ts(&mut out, l.ts);
    codec::put_u64(&mut out, l.ttl);
    assert(out@ =~= enc_lock(l@));
    out
}

pub open spec fn lock_view(l: Option<LockInfo>) -> Option<LockView> {
    match l {
        Some(l) => Some(l@),
        None => None,
    }
}

pub fn decode_lock(b: &[u8]) -> (r: Option<LockInfo>)
    ensures
        lock_view(r) == dec_lock(b@),
{
    assert(b@.skip(0) =~= b@);
    let primary = match codec::get_bytes(b, 0) {
        Some(p) => p,
        None => return None,
    };
    let at: usize = 8 + primary.len();
    match get_ts(b, at) {
        Some(ts) => match codec::get_u64(b, at + 12) {
            Some(ttl) => Some(LockInfo { primary, ts, ttl }),
            None => None,
        },
        None => None,
    }
}

pub fn encode_commit(start: HlcTimestamp, commit: HlcTimestamp) -> (r: Vec<u8>)
    ensures
        r@ == enc_commit(start, commit),
{
    let mut out: Vec<u8> = Vec::new();
    put_ts(&mut out, start);
    put_ts(&mut out, commit);
    assert(out@ =~= enc_commit(start, commit));
    out
}

pub fn decode_commit(b: &[u8]) -> (r: Option<(HlcTimestamp, HlcTimestamp)>)
    ensures
        r == dec_commit(b@),
{
    assert(b@.skip(0) =~= b@);
    match get_ts(b, 0) {
        Some(start) => match get_ts(b, 12) {
            Some(commit) => Some((start, commit)),
            None => None,
        },
        None => None,
    }
}

pub fn encode_ts(ts: HlcTimestamp) -> (r: Vec<u8>)
    ensures
        r@ == enc_ts(ts),
{
    let mut out: Vec<u8> = Vec::new();
    put_ts(&mut out, ts);
    assert(out@ =~= enc_ts(ts));
    out
}

pub fn decode_ts(b: &[u8]) -> (r: Option<HlcTimestamp>)
    ensures
        r == dec_one_ts(b@),
{
    assert(b@.skip(0) =~= b@);
    get_ts(b, 0)
}

pub fn encode_value(v: &Option<Vec<u8>>) -> (r: Vec<u8>)
    ensures
        r@ == enc_value(bytes::value_view(*v)),
{
    let mut out: Vec<u8> = Vec::new();
    put_value(&mut out, v);
    assert(out@ =~= enc_value(bytes::value_view(*v)));
    out
}

pub open spec fn one_value_view(v: Option<Option<Vec<u8>>>) -> Option<Option<Seq<u8>>> {
    match v {
        Some(x) => Some(bytes::value_view(x)),
        None => None,
    }
}

pub fn decode_value(b: &[u8]) -> (r: Option<Option<Vec<u8>>>)
    ensures
        one_value_view(r) == dec_one_value(b@),
{
    assert(b@.skip(0) =~= b@);
    match get_value(b, 0) {
        Some((v, _)) => Some(v),
        None => None,
    }
}

pub fn encode_conflict(e: &PrewriteError) -> (r: Vec<u8>)
    ensures
        r@ == enc_conflict(e@),
{
    let mut out: Vec<u8> = Vec::new();
    match e {
        PrewriteError::WriteConflict(ts) => {
            codec::put_u32(&mut out, 0);
            put_ts(&mut out, *ts);
        },
        PrewriteError::LockConflict { primary, ts } => {
            codec::put_u32(&mut out, 1);
            codec::put_bytes(&mut out, primary.as_slice());
            put_ts(&mut out, *ts);
        },
    }
    assert(out@ =~= enc_conflict(e@));
    out
}

pub open spec fn conflict_view(e: Option<PrewriteError>) -> Option<ConflictView> {
    match e {
        Some(e) => Some(e@),
        None => None,
    }
}

pub fn decode_conflict(b: &[u8]) -> (r: Option<PrewriteError>)
    ensures
        conflict_view(r) == dec_conflict(b@),
{
    assert(b@.skip(0) =~= b@);
    let tag: u32 = match codec::get_u32(b, 0) {
        Some(t) => t,
        None => return None,
    };
    if tag == 0 {
        match get_ts(b, 4) {
            Some(ts) => Some(PrewriteError::WriteConflict(ts)),
            None => None,
        }
    } else if tag == 1 {
        match codec::get_bytes(b, 4) {
            Some(primary) => {
                let at: usize = 12 + primary.len();
                match get_ts(b, at) {
                    Some(ts) => Some(PrewriteError::LockConflict { primary, ts }),
                    None => None,
                }
            },
            None => None,
        }
    } else {
        None
    }
}

/// A lock that was written is read back.
pub proof fn lemma_lock_round_trip(l: LockView)
    requires
        l.primary.len() <= u64::MAX,
    ensures
        dec_lock(enc_lock(l)) == Some(l),
{
    let e = Seq::<u8>::empty();
    let last = codec::enc_u64(l.ttl);
    codec::lemma_bytes_round_trip(l.primary, enc_ts(l.ts) + last);
    lemma_ts_round_trip(l.ts, last);
    codec::lemma_u64_round_trip(l.ttl, e);
    assert(last + e =~= last);
    assert(enc_lock(l) =~= codec::enc_bytes(l.primary) + (enc_ts(l.ts) + last));
}

/// A commit that was written is read back.
pub proof fn lemma_commit_round_trip(start: HlcTimestamp, commit: HlcTimestamp)
    ensures
        dec_commit(enc_commit(start, commit)) == Some((start, commit)),
        dec_one_ts(enc_ts(start)) == Some(start),
{
    let e = Seq::<u8>::empty();
    lemma_ts_round_trip(start, enc_ts(commit));
    lemma_ts_round_trip(commit, e);
    lemma_ts_round_trip(start, e);
    assert(enc_ts(commit) + e =~= enc_ts(commit));
    assert(enc_ts(start) + e =~= enc_ts(start));
}

/// A refusal that was written is read back.
pub proof fn lemma_conflict_round_trip(c: ConflictView)
    requires
        c matches ConflictView::LockConflict { primary, .. } ==> primary.len() <= u64::MAX,
    ensures
        dec_conflict(enc_conflict(c)) == Some(c),
{
    let e = Seq::<u8>::empty();
    match c {
        ConflictView::WriteConflict(ts) => {
            codec::lemma_u32_round_trip(0, enc_ts(ts));
            lemma_ts_round_trip(ts, e);
            assert(enc_ts(ts) + e =~= enc_ts(ts));
        },
        ConflictView::LockConflict { primary, ts } => {
            codec::lemma_u32_round_trip(1, codec::enc_bytes(primary) + enc_ts(ts));
            codec::lemma_bytes_round_trip(primary, enc_ts(ts));
            lemma_ts_round_trip(ts, e);
            assert(enc_ts(ts) + e =~= enc_ts(ts));
            assert(enc_conflict(c) =~= codec::enc_u32(1) + (codec::enc_bytes(primary) + enc_ts(
                ts,
            )));
        },
    }
}

// ----------------------------------------------------------------------
// Commands of a shard
// ----------------------------------------------------------------------
/// The bytes of a command.
pub open spec fn enc_command(c: CommandView) -> Seq<u8> {
    match c {
        CommandView::Put { key, value, ts } => codec::enc_u32(0) + codec::enc_bytes(key)
            + codec::enc_bytes(value) + enc_ts(ts),
        CommandView::Delete { key, ts } => codec::enc_u32(1) + codec::enc_bytes(key) + enc_ts(ts),
        CommandView::Split { new_shard_id, split_key } => codec::enc_u32(2) + codec::enc_u32(
            new_shard_id.0,
        ) + codec::enc_bytes(split_key),
        CommandView::Merge { target_shard_id } => codec::enc_u32(3) + codec::enc_u32(
            target_shard_id.0,
        ),
        CommandView::TxnPrewrite { key, value, primary, start_ts, ttl } => codec::enc_u32(4)
            + codec::enc_bytes(key) + enc_value(value) + codec::enc_bytes(primary) + enc_ts(
            start_ts,
        ) + codec::enc_u64(ttl),
        CommandView::TxnCommit { key, start_ts, commit_ts, is_primary } => codec::enc_u32(5)
            + codec::enc_bytes(key) + enc_ts(start_ts) + enc_ts(commit_ts) + enc_bool(is_primary),
        CommandView::TxnRollback { key, start_ts } => codec::enc_u32(6) + codec::enc_bytes(key)
            + enc_ts(start_ts),
    }
}

/// A write of a value, behind its number.
pub open spec fn dec_put(b: Seq<u8>) -> Option<CommandView> {
    match codec::dec_bytes(b) {
        Some((key, b1)) => match codec::dec_bytes(b1) {
            Some((value, b2)) => match dec_ts(b2) {
                Some((ts, _)) => Some(CommandView::Put { key, value, ts }),
                None => None,
            },
            None => None,
        },
        None => None,
    }
}

/// A key and a timestamp.
pub open spec fn dec_key_ts(b: Seq<u8>) -> Option<(Seq<u8>, HlcTimestamp)> {
    match codec::dec_bytes(b) {
        Some((key, b1)) => match dec_ts(b1) {
            Some((ts, _)) => Some((key, ts)),
            None => None,
        },
        None => None,
    }
}

/// A split, behind its number.
pub open spec fn dec_split(b: Seq<u8>) -> Option<CommandView> {
    match codec::dec_u32(b) {
        Some((id, b1)) => match codec::dec_bytes(b1) {
            Some((split_key, _)) => Some(
                CommandView::Split { new_shard_id: ShardId(id), split_key },
            ),
            None => None,
        },
        None => None,
    }
}

/// The first phase of a transaction, behind its number.
pub open spec fn dec_prewrite(b: Seq<u8>) -> Option<CommandView> {
    match codec::dec_bytes(b) {
        Some((key, b1)) => match dec_value(b1) {
            Some((value, b2)) => match codec::dec_bytes(b2) {
                Some((primary, b3)) => match dec_ts(b3) {
                    Some((start_ts, b4)) => match codec::dec_u64(b4) {
                        Some((ttl, _)) => Some(
                            CommandView::TxnPrewrite { key, value, primary, start_ts, ttl },
                        ),
                        None => None,
                    },
                    None => None,
                },
                None => None,
            },
            None => None,
        },
        None => None,
    }
}

/// The second phase of a transaction, behind its number.
pub open spec fn dec_txn_commit(b: Seq<u8>) -> Option<CommandView> {
    match codec::dec_bytes(b) {
        Some((key, b1)) => match dec_ts(b1) {
            Some((start_ts, b2)) => match dec_ts(b2) {
                Some((commit_ts, b3)) => match dec_bool(b3) {
                    Some((is_primary, _)) => Some(
                        CommandView::TxnCommit { key, start_ts, commit_ts, is_primary },
                    ),
                    None => None,
                },
                None => None,
            },
            None => None,
        },
        None => None,
    }
}

/// The command that bytes hold, if they hold one.
pub open spec fn dec_command(b: Seq<u8>) -> Option<CommandView> {
    match codec::dec_u32(b) {
        Some((0u32, rest)) => dec_put(rest),
        Some((1u32, rest)) => match dec_key_ts(rest) {
            Some((key, ts)) => Some(CommandView::Delete { key, ts }),
            None => None,
        },
        Some((2u32, rest)) => dec_split(rest),
        Some((3u32, rest)) => match codec::dec_u32(rest) {
            Some((id, _)) => Some(CommandView::Merge { target_shard_id: ShardId(id) }),
            None => None,
        },
        Some((4u32, rest)) => dec_prewrite(rest),
        Some((5u32, rest)) => dec_txn_commit(rest),
        Some((6u32, rest)) => match dec_key_ts(rest) {
            Some((key, start_ts)) => Some(CommandView::TxnRollback { key, start_ts }),
            None => None,
        },
        _ => None,
    }
}

pub fn encode_command(c: &ShardCommand) -> (r: Vec<u8>)
    ensures
        r@ == enc_command(c@),
{
    let mut out: Vec<u8> = Vec::new();
    match c {
        ShardCommand::Put { key, value, ts } => {
            codec::put_u32(&mut out, 0);
            codec::put_bytes(&mut out, key.as_slice());
            codec::put_bytes(&mut out, value.as_slice());
            put_ts(&mut out, *ts);
        },
        ShardCommand::Delete { key, ts } => {
            codec::put_u32(&mut out, 1);
            codec::put_bytes(&mut out, key.as_slice());
            put_ts(&mut out, *ts);
        },
        ShardCommand::Split { new_shard_id, split_key } => {
            codec::put_u32(&mut out, 2);
            codec::put_u32(&mut out, new_shard_id.0);
            codec::put_bytes(&mut out, split_key.as_slice());
        },
        ShardCommand::Merge { target_shard_id } => {
            codec::put_u32(&mut out, 3);
            codec::put_u32(&mut out, target_shard_id.0);
        },
        ShardCommand::TxnPrewrite { key, value, primary, start_ts, ttl } => {
            codec::put_u32(&mut out, 4);
            codec::put_bytes(&mut out, key.as_slice());
            put_value(&mut out, value);
            codec::put_bytes(&mut out, primary.as_slice());
            put_ts(&mut out, *start_ts);
            codec::put_u64(&mut out, *ttl);
        },
        ShardCommand::TxnCommit { key, start_ts, commit_ts, is_primary } => {
            codec::put_u32(&mut out, 5);
            codec::put_bytes(&mut out, key.as_slice());
            put_ts(&mut out, *start_ts);
            put_ts(&mut out, *commit_ts);
            put_bool(&mut out, *is_primary);
        },
        ShardCommand::TxnRollback { key, start_ts } => {
            codec::put_u32(&mut out, 6);
            codec::put_bytes(&mut out, key.as_slice());
            put_ts(&mut out, *start_ts);
        },
    }
    assert(out@ =~= enc_command(c@));
    out
}

fn get_key_ts(b: &[u8], at: usize) -> (r: Option<(Vec<u8>, HlcTimestamp)>)
    requires
        at <= b@.len(),
    ensures
        dec_key_ts(b@.skip(at as int)) == (match r {
            Some((key, ts)) => Some((key@, ts)),
            None => None,
        }),
{
    match codec::get_bytes(b, at) {
        Some(key) => {
            let end: usize = at + 8 + key.len();
            match get_ts(b, end) {
                Some(ts) => Some((key, ts)),
                None => None,
            }
        },
        None => None,
    }
}

pub open spec fn command_view(c: Option<ShardCommand>) -> Option<CommandView> {
    match c {
        Some(c) => Some(c@),
        None => None,
    }
}

fn get_put(b: &[u8], at: usize) -> (r: Option<ShardCommand>)
    requires
        at <= b@.len(),
    ensures
        command_view(r) == dec_put(b@.skip(at as int)),
{
    let key = match codec::get_bytes(b, at) {
        Some(k) => k,
        None => return None,
    };
    let at1: usize = at + 8 + key.len();
    let value = match codec::get_bytes(b, at1) {
        Some(v) => v,
        None => return None,
    };
    let at2: usize = at1 + 8 + value.len();
    match get_ts(b, at2) {
        Some(ts) => Some(ShardCommand::Put { key, value, ts }),
        None => None,
    }
}

fn get_prewrite(b: &[u8], at: usize) -> (r: Option<ShardCommand>)
    requires
        at <= b@.len(),
    ensures
        command_view(r) == dec_prewrite(b@.skip(at as int)),
{
    let key = match codec::get_bytes(b, at) {
        Some(k) => k,
        None => return None,
    };
    let at1: usize = at + 8 + key.len();
    let (value, at2) = match get_value(b, at1) {
        Some(v) => v,
        None => return None,
    };
    let primary = match codec::get_bytes(b, at2) {
        Some(k) => k,
        None => return None,
    };
    let at3: usize = at2 + 8 + primary.len();
    let start_ts = match get_ts(b, at3) {
        Some(ts) => ts,
        None => return None,
    };
    match codec::get_u64(b, at3 + 12) {
        Some(ttl) => Some(ShardCommand::TxnPrewrite { key, value, primary, start_ts, ttl }),
        None => None,
    }
}

fn get_txn_commit(b: &[u8], at: usize) -> (r: Option<ShardCommand>)
    requires
        at <= b@.len(),
    ensures
        command_view(r) == dec_txn_commit(b@.skip(at as int)),
{
    let key = match codec::get_bytes(b, at) {
        Some(k) => k,
        None => return None,
    };
    let at1: usize = at + 8 + key.len();
    let start_ts = match get_ts(b, at1) {
        Some(ts) => ts,
        None => return None,
    };
    let commit_ts = match get_ts(b, at1 + 12) {
        Some(ts) => ts,
        None => return None,
    };
    match get_bool(b, at1 + 24) {
        Some(is_primary) => Some(ShardCommand::TxnCommit { key, start_ts, commit_ts, is_primary }),
        None => None,
    }
}

/// The command that bytes hold, if they hold one.
pub fn decode_command(b: &[u8]) -> (r: Option<ShardCommand>)
    ensures
        command_view(r) == dec_command(b@),
{
    assert(b@.skip(0) =~= b@);
    let tag: u32 = match codec::get_u32(b, 0) {
        Some(t) => t,
        None => return None,
    };
    if tag == 0 {
        get_put(b, 4)
    } else if tag == 1 {
        match get_key_ts(b, 4) {
            Some((key, ts)) => Some(ShardCommand::Delete { key, ts }),
            None => None,
        }
    } else if tag == 2 {
        match codec::get_u32(b, 4) {
            Some(id) => match codec::get_bytes(b, 8) {
                Some(split_key) => Some(
                    ShardCommand::Split { new_shard_id: ShardId(id), split_key },
                ),
                None => None,
            },
            None => None,
        }
    } else if tag == 3 {
        match codec::get_u32(b, 4) {
            Some(id) => Some(ShardCommand::Merge { target_shard_id: ShardId(id) }),
            None => None,
        }
    } else if tag == 4 {
        get_prewrite(b, 4)
    } else if tag == 5 {
        get_txn_commit(b, 4)
    } else if tag == 6 {
        match get_key_ts(b, 4) {
            Some((key, start_ts)) => Some(ShardCommand::TxnRollback { key, start_ts }),
            None => None,
        }
    } else {
        None
    }
}

/// The byte strings of a command are not longer than their length fields can
/// say.
pub open spec fn command_fits(c: CommandView) -> bool {
    match c {
        CommandView::Put { key, value, .. } => key.len() <= u64::MAX && value.len() <= u64::MAX,
        CommandView::Delete { key, .. } => key.len() <= u64::MAX,
        CommandView::Split { split_key, .. } => split_key.len() <= u64::MAX,
        CommandView::Merge { .. } => true,
        CommandView::TxnPrewrite { key, value, primary, .. } => key.len() <= u64::MAX
            && primary.len() <= u64::MAX && (value matches Some(v) ==> v.len() <= u64::MAX),
        CommandView::TxnCommit { key, .. } => key.len() <= u64::MAX,
        CommandView::TxnRollback { key, .. } => key.len() <= u64::MAX,
    }
}

proof fn lemma_key_ts_round_trip(key: Seq<u8>, ts: HlcTimestamp)
    requires
        key.len() <= u64::MAX,
    ensures
        dec_key_ts(codec::enc_bytes(key) + enc_ts(ts)) == Some((key, ts)),
{
    let e = Seq::<u8>::empty();
    codec::lemma_bytes_round_trip(key, enc_ts(ts));
    lemma_ts_round_trip(ts, e);
    assert(enc_ts(ts) + e =~= enc_ts(ts));
}

/// A command that was written is read back.
#[verifier::spinoff_prover]
#[verifier::rlimit(60)]
pub proof fn lemma_command_round_trip(c: CommandView)
    requires
        command_fits(c),
    ensures
        dec_command(enc_command(c)) == Some(c),
{
    let e = Seq::<u8>::empty();
    match c {
        CommandView::Put { key, value, ts } => {
            let t2 = enc_ts(ts);
            let t1 = codec::enc_bytes(value) + t2;
            let t0 = codec::enc_bytes(key) + t1;
            assert(enc_command(c) =~= codec::enc_u32(0) + t0);
            codec::lemma_u32_round_trip(0, t0);
            codec::lemma_bytes_round_trip(key, t1);
            codec::lemma_bytes_round_trip(value, t2);
            lemma_ts_round_trip(ts, e);
            assert(t2 + e =~= t2);
        },
        CommandView::Delete { key, ts } => {
            let t0 = codec::enc_bytes(key) + enc_ts(ts);
            assert(enc_command(c) =~= codec::enc_u32(1) + t0);
            codec::lemma_u32_round_trip(1, t0);
            lemma_key_ts_round_trip(key, ts);
        },
        CommandView::Split { new_shard_id, split_key } => {
            let t1 = codec::enc_bytes(split_key);
            let t0 = codec::enc_u32(new_shard_id.0) + t1;
            assert(enc_command(c) =~= codec::enc_u32(2) + t0);
            codec::lemma_u32_round_trip(2, t0);
            codec::lemma_u32_round_trip(new_shard_id.0, t1);
            codec::lemma_bytes_round_trip(split_key, e);
            assert(t1 + e =~= t1);
        },
        CommandView::Merge { target_shard_id } => {
            let t0 = codec::enc_u32(target_shard_id.0);
            codec::lemma_u32_round_trip(3, t0);
            codec::lemma_u32_round_trip(target_shard_id.0, e);
            assert(t0 + e =~= t0);
        },
        CommandView::TxnPrewrite { key, value, primary, start_ts, ttl } => {
            let t4 = codec::enc_u64(ttl);
            let t3 = enc_ts(start_ts) + t4;
            let t2 = codec::enc_bytes(primary) + t3;
            let t1 = enc_value(value) + t2;
            let t0 = codec::enc_bytes(key) + t1;
            assert(enc_command(c) =~= codec::enc_u32(4) + t0);
            codec::lemma_u32_round_trip(4, t0);
            codec::lemma_bytes_round_trip(key, t1);
            lemma_value_round_trip(value, t2);
            codec::lemma_bytes_round_trip(primary, t3);
            lemma_ts_round_trip(start_ts, t4);
            codec::lemma_u64_round_trip(ttl, e);
            assert(t4 + e =~= t4);
        },
        CommandView::TxnCommit { key, start_ts, commit_ts, is_primary } => {
            let t3 = enc_bool(is_primary);
            let t2 = enc_ts(commit_ts) + t3;
            let t1 = enc_ts(start_ts) + t2;
            let t0 = codec::enc_bytes(key) + t1;
            assert(enc_command(c) =~= codec::enc_u32(5) + t0);
            codec::lemma_u32_round_trip(5, t0);
            codec::lemma_bytes_round_trip(key, t1);
            lemma_ts_round_trip(start_ts, t2);
            lemma_ts_round_trip(commit_ts, t3);
            lemma_bool_round_trip(is_primary, e);
            assert(t3 + e =~= t3);
        },
        CommandView::TxnRollback { key, start_ts } => {
            let t0 = codec::enc_bytes(key) + enc_ts(start_ts);
            assert(enc_command(c) =~= codec::enc_u32(6) + t0);
            codec::lemma_u32_round_trip(6, t0);
            lemma_key_ts_round_trip(key, start_ts);
        },
    }
}

} // verus!
