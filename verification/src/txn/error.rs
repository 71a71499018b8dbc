//! Why a transaction could not go on.
use crate::storage::error;
use crate::storage::error::StorageError;
use crate::storage::timestamp::HlcTimestamp;
use crate::text;
use vstd::prelude::*;

verus! {

/// Why a transaction could not go on.
#[derive(Debug)]
pub enum TxnError {
    LockConflict { key: Vec<u8>, primary: Vec<u8>, lock_ts: HlcTimestamp },
    WriteConflict { key: Vec<u8>, conflict_ts: HlcTimestamp },
    Aborted,
    Storage(StorageError),
    Other(String),
}

#[verifier::ext_equal]
pub enum ErrorView {
    LockConflict { key: Seq<u8>, primary: Seq<u8>, lock_ts: HlcTimestamp },
    WriteConflict { key: Seq<u8>, conflict_ts: HlcTimestamp },
    Aborted,
    Storage(StorageError),
    Other(Seq<char>),
}

impl View for TxnError {
    type V = ErrorView;

    open spec fn view(&self) -> ErrorView {
        match self {
            TxnError::LockConflict { key, primary, lock_ts } => ErrorView::LockConflict {
                key: key@,
                primary: primary@,
                lock_ts: *lock_ts,
            },
            TxnError::WriteConflict { key, conflict_ts } => ErrorView::WriteConflict {
                key: key@,
                conflict_ts: *conflict_ts,
            },
            TxnError::Aborted => ErrorView::Aborted,
            TxnError::Storage(e) => ErrorView::Storage(*e),
            TxnError::Other(m) => ErrorView::Other(m@),
        }
    }
}

/// A timestamp in words.
pub open spec fn ts_text(ts: HlcTimestamp) -> Seq<char> {
    text::number(ts.physical as nat) + ":"@ + text::number(ts.logical as nat)
}

/// Appends a timestamp.
pub fn push_ts(out: &mut String, ts: HlcTimestamp)
    ensures
        final(out)@ == old(out)@ + ts_text(ts),
{
    text::push_number(out, ts.physical);
    text::push_text(out, ":");
    text::push_number(out, ts.logical as u64);
    assert(out@ =~= old(out)@ + ts_text(ts));
}

/// What a transaction error says.
pub open spec fn txn_message(e: TxnError) -> Seq<char> {
    match e {
        TxnError::LockConflict { key, primary, lock_ts } => "Lock conflict on key "@
            + text::byte_list(key@) + ", primary keys "@ + text::byte_list(primary@)
            + ", lock_ts: "@ + ts_text(lock_ts),
        TxnError::WriteConflict { key, conflict_ts } => "Write conflict on key "@
            + text::byte_list(key@) + ", conflict_ts: "@ + ts_text(conflict_ts),
        TxnError::Aborted => "Transaction aborted"@,
        TxnError::Storage(e) => "Storage error: "@ + error::storage_message(e),
        TxnError::Other(m) => "Txn error: "@ + m@,
    }
}

impl TxnError {
    /// The error in words.
    pub fn message(&self) -> (r: String)
        ensures
            r@ == txn_message(*self),
    {
        match self {
            TxnError::LockConflict { key, primary, lock_ts } => {
                let mut s: String = "Lock conflict on key ".to_owned();
                text::push_bytes(&mut s, key.as_slice());
                text::push_text(&mut s, ", primary keys ");
                text::push_bytes(&mut s, primary.as_slice());
                text::push_text(&mut s, ", lock_ts: ");
                push_ts(&mut s, *lock_ts);
                s
            },
            TxnError::WriteConflict { key, conflict_ts } => {
                let mut s: String = "Write conflict on key ".to_owned();
                text::push_bytes(&mut s, key.as_slice());
                text::push_text(&mut s, ", conflict_ts: ");
                push_ts(&mut s, *conflict_ts);
                s
            },
            TxnError::Aborted => "Transaction aborted".to_owned(),
            TxnError::Storage(e) => {
                let mut s: String = "Storage error: ".to_owned();
                let m = e.message();
                text::push_text(&mut s, m.as_str());
                s
            },
            TxnError::Other(m) => {
                let mut s: String = "Txn error: ".to_owned();
                text::push_text(&mut s, m.as_str());
                s
            },
        }
    }
}

} // verus!
