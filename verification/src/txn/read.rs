//! Reading a key at a point in time, past the locks of other transactions.
use crate::bytes;
use crate::sharding::commands;
use crate::sharding::commands::{
    commit_key, data_key, lock_key, write_key, CommandView, LockInfo, LockView, ShardCommand,
};
use crate::sharding::machine;
use crate::sharding::records;
use crate::storage::timestamp;
use crate::storage::timestamp::HlcTimestamp;
use vstd::prelude::*;

verus! {

/// Where a read stands.
#[derive(Debug)]
pub enum ReadStage {
    /// The lock on the key was asked for.
    Lock,
    /// The lock is stale, and the decision at its primary key was asked for.
    Primary(LockInfo),
    /// The last commit was asked for.
    Write,
    /// The value was asked for.
    Data,
}

#[verifier::ext_equal]
pub enum StageView {
    Lock,
    Primary(LockView),
    Write,
    Data,
}

impl View for ReadStage {
    type V = StageView;

    open spec fn view(&self) -> StageView {
        match self {
            ReadStage::Lock => StageView::Lock,
            ReadStage::Primary(l) => StageView::Primary(l@),
            ReadStage::Write => StageView::Write,
            ReadStage::Data => StageView::Data,
        }
    }
}

/// What a read asks for next.
#[derive(Debug)]
pub enum ReadAction {
    /// Read `query` at `as_of` from the storage of the shard of `shard_key`.
    Get { shard_key: Vec<u8>, query: Vec<u8>, as_of: HlcTimestamp },
    /// The lock's transaction has committed: commit the key too, then begin
    /// again.
    RollForward(ShardCommand),
    /// The lock's transaction has not committed: roll back its primary key and
    /// the key, then begin again.
    RollBack { primary: ShardCommand, secondary: ShardCommand },
    /// The lock is held: wait, then begin again.
    Wait,
    /// This is what was read.
    Done(Option<Vec<u8>>),
}

#[verifier::ext_equal]
pub enum ReadActionView {
    Get { shard_key: Seq<u8>, query: Seq<u8>, as_of: HlcTimestamp },
    RollForward(CommandView),
    RollBack { primary: CommandView, secondary: CommandView },
    Wait,
    Done(Option<Seq<u8>>),
}

impl View for ReadAction {
    type V = ReadActionView;

    open spec fn view(&self) -> ReadActionView {
        match self {
            ReadAction::Get { shard_key, query, as_of } => ReadActionView::Get {
                shard_key: shard_key@,
                query: query@,
                as_of: *as_of,
            },
            ReadAction::RollForward(c) => ReadActionView::RollForward(c@),
            ReadAction::RollBack { primary, secondary } => ReadActionView::RollBack {
                primary: primary@,
                secondary: secondary@,
            },
            ReadAction::Wait => ReadActionView::Wait,
            ReadAction::Done(v) => ReadActionView::Done(bytes::value_view(*v)),
        }
    }
}

/// The first question: is there a lock on the key?
pub open spec fn ask_lock(key: Seq<u8>) -> ReadActionView {
    ReadActionView::Get {
        shard_key: key,
        query: commands::tagged(commands::LOCK_TAG, key),
        as_of: machine::max_ts(),
    }
}

/// The lock that stands in the way of a read at `as_of`, if there is one.
pub open spec fn blocking_lock(value: Option<Seq<u8>>, as_of: HlcTimestamp) -> Option<LockView> {
    match value {
        Some(b) => match records::dec_lock(b) {
            Some(l) if timestamp::ts_le(l.ts, as_of) => Some(l),
            _ => None,
        },
        None => None,
    }
}

/// The time of a lock has run out.
pub open spec fn is_stale(l: LockView, now: u64) -> bool {
    now > l.ts.physical + l.ttl
}

/// What a read does next, given what was read for the last question and what
/// the clock shows.
pub open spec fn read_step(
    stage: StageView,
    key: Seq<u8>,
    as_of: HlcTimestamp,
    value: Option<Seq<u8>>,
    now: u64,
) -> (StageView, ReadActionView) {
    match stage {
        StageView::Lock => match blocking_lock(value, as_of) {
            Some(l) => if is_stale(l, now) {
                (
                    StageView::Primary(l),
                    ReadActionView::Get {
                        shard_key: l.primary,
                        query: commands::tagged_at(commands::COMMIT_TAG, l.primary, l.ts),
                        as_of: machine::max_ts(),
                    },
                )
            } else {
                (StageView::Lock, ReadActionView::Wait)
            },
            None => (
                StageView::Write,
                ReadActionView::Get {
                    shard_key: key,
                    query: commands::tagged(commands::WRITE_TAG, key),
                    as_of,
                },
            ),
        },
        StageView::Primary(l) => (StageView::Lock, settle(key, l, value)),
        StageView::Write => match value {
            Some(b) => match records::dec_commit(b) {
                Some((start, _)) => (
                    StageView::Data,
                    ReadActionView::Get {
                        shard_key: key,
                        query: commands::tagged(commands::DATA_TAG, key),
                        as_of: start,
                    },
                ),
                None => (StageView::Write, ReadActionView::Done(None)),
            },
            None => (StageView::Write, ReadActionView::Done(None)),
        },
        StageView::Data => (StageView::Data, ReadActionView::Done(stored_value(value))),
    }
}

/// What to do about a stale lock: where the primary key holds the decision to
/// commit, commit this key too; else roll both back.
pub open spec fn settle(key: Seq<u8>, l: LockView, decision: Option<Seq<u8>>) -> ReadActionView {
    let back = ReadActionView::RollBack {
        primary: CommandView::TxnRollback { key: l.primary, start_ts: l.ts },
        secondary: CommandView::TxnRollback { key, start_ts: l.ts },
    };
    match decision {
        Some(b) => match records::dec_one_ts(b) {
            Some(commit_ts) => ReadActionView::RollForward(
                CommandView::TxnCommit { key, start_ts: l.ts, commit_ts, is_primary: false },
            ),
            None => back,
        },
        None => back,
    }
}

/// The value that a transaction wrote.
pub open spec fn stored_value(value: Option<Seq<u8>>) -> Option<Seq<u8>> {
    match value {
        Some(b) => match records::dec_one_value(b) {
            Some(v) => v,
            None => None,
        },
        None => None,
    }
}

fn latest() -> (r: HlcTimestamp)
    ensures
        r == machine::max_ts(),
{
    HlcTimestamp { physical: u64::MAX, logical: u32::MAX }
}

/// A read of a key at a point in time.
#[derive(Debug)]
pub struct TxnRead {
    pub key: Vec<u8>,
    pub as_of: HlcTimestamp,
    pub stage: ReadStage,
}

impl TxnRead {
    /// A read that has asked for the lock.
    pub fn new(key: &[u8], as_of: HlcTimestamp) -> (r: (Self, ReadAction))
        ensures
            r.0.key@ == key@,
            r.0.as_of == as_of,
            r.0.stage@ == StageView::Lock,
            r.1@ == ask_lock(key@),
    {
        let read = TxnRead { key: bytes::copy_bytes(key), as_of, stage: ReadStage::Lock };
        let first = read.again();
        (read, first)
    }

    /// Asks for the lock, at the beginning and after a lock was settled or
    /// waited for.
    pub fn again(&self) -> (r: ReadAction)
        ensures
            r@ == ask_lock(self.key@),
    {
        ReadAction::Get {
            shard_key: bytes::copy_bytes(self.key.as_slice()),
            query: lock_key(self.key.as_slice()),
            as_of: latest(),
        }
    }

    /// What to do about the lock that was found.
    fn on_lock(&mut self, value: Option<Vec<u8>>, now: u64) -> (r: ReadAction)
        requires
            old(self).stage@ == StageView::Lock,
        ensures
            final(self).key == old(self).key,
            final(self).as_of == old(self).as_of,
            (final(self).stage@, r@) == read_step(
                StageView::Lock,
                old(self).key@,
                old(self).as_of,
                bytes::value_view(value),
                now,
            ),
    {
        if let Some(b) = value {
            if let Some(l) = records::decode_lock(b.as_slice()) {
                if l.ts.is_at_or_before(&self.as_of) {
                    if now > l.ts.physical && now - l.ts.physical > l.ttl {
                        let r = ReadAction::Get {
                            shard_key: bytes::copy_bytes(l.primary.as_slice()),
                            query: commit_key(l.primary.as_slice(), l.ts),
                            as_of: latest(),
                        };
                        self.stage = ReadStage::Primary(l);
                        return r;
                    }
                    return ReadAction::Wait;
                }
            }
        }
        self.stage = ReadStage::Write;
        ReadAction::Get {
            shard_key: bytes::copy_bytes(self.key.as_slice()),
            query: write_key(self.key.as_slice()),
            as_of: self.as_of,
        }
    }

    /// What to do about a stale lock, given the decision at its primary key.
    fn on_decision(&self, l: LockInfo, value: Option<Vec<u8>>) -> (r: ReadAction)
        ensures
            r@ == settle(self.key@, l@, bytes::value_view(value)),
    {
        if let Some(b) = value {
            if let Some(commit_ts) = records::decode_ts(b.as_slice()) {
                return ReadAction::RollForward(
                    ShardCommand::TxnCommit {
                        key: bytes::copy_bytes(self.key.as_slice()),
                        start_ts: l.ts,
                        commit_ts,
                        is_primary: false,
                    },
                );
            }
        }
        ReadAction::RollBack {
            primary: ShardCommand::TxnRollback { key: l.primary, start_ts: l.ts },
            secondary: ShardCommand::TxnRollback {
                key: bytes::copy_bytes(self.key.as_slice()),
                start_ts: l.ts,
            },
        }
    }

    /// Goes on with what was read for the last question.
    pub fn on_value(&mut self, value: Option<Vec<u8>>, now: u64) -> (r: ReadAction)
        ensures
            final(self).key == old(self).key,
            final(self).as_of == old(self).as_of,
            (final(self).stage@, r@) == read_step(
                old(self).stage@,
                old(self).key@,
                old(self).as_of,
                bytes::value_view(value),
                now,
            ),
    {
        let mut stage = ReadStage::Lock;
        std::mem::swap(&mut stage, &mut self.stage);
        match stage {
            ReadStage::Lock => self.on_lock(value, now),
            ReadStage::Primary(l) => self.on_decision(l, value),
            ReadStage::Write => {
                self.stage = ReadStage::Write;
                if let Some(b) = value {
                    if let Some((start, _)) = records::decode_commit(b.as_slice()) {
                        self.stage = ReadStage::Data;
                        return ReadAction::Get {
                            shard_key: bytes::copy_bytes(self.key.as_slice()),
                            query: data_key(self.key.as_slice()),
                            as_of: start,
                        };
                    }
                }
                ReadAction::Done(None)
            },
            ReadStage::Data => {
                self.stage = ReadStage::Data;
                if let Some(b) = value {
                    if let Some(v) = records::decode_value(b.as_slice()) {
                        return ReadAction::Done(v);
                    }
                }
                ReadAction::Done(None)
            },
        }
    }
}

} // verus!
