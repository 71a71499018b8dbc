//! What a storage engine can be asked for.
use crate::bytes;
use crate::storage::error::StorageError;
use crate::storage::lsm::LsmStorage;
use crate::storage::lsm_model;
use crate::storage::lsm_model::LsmView;
use crate::storage::reader::TableView;
use crate::storage::scan;

use crate::storage::timestamp::HlcTimestamp;
use crate::storage::wal::RecordView;
use vstd::prelude::*;

verus! {

/// A store of values under keys, each with the time at which it was written.
pub trait Storage {
    /// The store is in order.
    spec fn sound(&self) -> bool;

    /// The store has room for a value of this length under a key of this length.
    spec fn takes(&self, key: nat, value: nat) -> bool;

    fn put(&mut self, key: &[u8], value: &[u8], ts: HlcTimestamp) -> Result<(), StorageError>
        requires
            old(self).sound(),
            old(self).takes(key@.len(), value@.len()),
    ;

    fn get(&self, key: &[u8], as_of: HlcTimestamp) -> Result<Option<Vec<u8>>, StorageError>
        requires
            self.sound(),
    ;

    fn delete(&mut self, key: &[u8], ts: HlcTimestamp) -> Result<(), StorageError>
        requires
            old(self).sound(),
            old(self).takes(key@.len(), 0),
    ;

    fn scan(&self, start: &[u8], end: &[u8], as_of: HlcTimestamp) -> Result<
        Vec<(Vec<u8>, Vec<u8>)>,
        StorageError,
    >
        requires
            self.sound(),
    ;

    fn gc_versions_older_than(&mut self, ts: HlcTimestamp) -> Result<(), StorageError>
        requires
            old(self).sound(),
    ;

    fn flush(&mut self) -> Result<(), StorageError>
        requires
            old(self).sound(),
    ;
}

impl<F: Fn(usize) -> (usize, usize)> Storage for LsmStorage<F> {
    open spec fn sound(&self) -> bool {
        self.wf()
    }

    open spec fn takes(&self, key: nat, value: nat) -> bool {
        key < 0x1_0000_0000 && value < 0x1_0000_0000 && self@.active.len() < 0xffff_ffff
    }

    fn put(&mut self, key: &[u8], value: &[u8], ts: HlcTimestamp) -> (r: Result<(), StorageError>)
        ensures
            r is Ok,
            final(self).wf(),
            final(self).sizing() == old(self).sizing(),
            lsm_model::after_put(
                old(self).sizing(),
                old(self)@,
                RecordView { is_delete: false, key: key@, value: value@, ts },
                final(self)@,
            ),
    {
        self.put_at(key, value, ts);
        Ok(())
    }

    fn get(&self, key: &[u8], as_of: HlcTimestamp) -> (r: Result<Option<Vec<u8>>, StorageError>)
        ensures
            r matches Ok(v) && bytes::value_view(v) == self@.get(key@, as_of),
    {
        Ok(self.get_at(key, as_of))
    }

    fn delete(&mut self, key: &[u8], ts: HlcTimestamp) -> (r: Result<(), StorageError>)
        ensures
            r is Ok,
            final(self).wf(),
            final(self).sizing() == old(self).sizing(),
            final(self)@ == old(self)@.written(
                RecordView { is_delete: true, key: key@, value: Seq::empty(), ts },
            ),
    {
        self.delete_at(key, ts);
        Ok(())
    }

    fn scan(&self, start: &[u8], end: &[u8], as_of: HlcTimestamp) -> (r: Result<
        Vec<(Vec<u8>, Vec<u8>)>,
        StorageError,
    >)
        ensures
            r matches Ok(v) && scan::is_scan(
                scan::pair_views(v@),
                self@.runs(),
                start@,
                end@,
                as_of,
            ),
    {
        Ok(self.scan_at(start, end, as_of))
    }

    fn gc_versions_older_than(&mut self, ts: HlcTimestamp) -> (r: Result<(), StorageError>)
        ensures
            r is Ok,
            final(self).wf(),
            final(self).sizing() == old(self).sizing(),
            exists|mid: LsmView|
                #![trigger lsm_model::after_compaction(old(self).sizing(), mid, 1, ts, final(self)@)]
                lsm_model::after_compaction(
                    old(self).sizing(),
                    (LsmView { watermark: ts, ..old(self)@ }),
                    0,
                    ts,
                    mid,
                ) && lsm_model::after_compaction(old(self).sizing(), mid, 1, ts, final(self)@),
    {
        self.compact_below(ts);
        Ok(())
    }

    fn flush(&mut self) -> (r: Result<(), StorageError>)
        ensures
            r is Ok,
            final(self).wf(),
            final(self).sizing() == old(self).sizing(),
            exists|t: TableView|
                #![trigger old(self)@.flushed(t)]
                lsm_model::built(old(self).sizing(), t, old(self)@.active) && final(self)@
                    == old(self)@.flushed(t),
    {
        self.flush_active();
        Ok(())
    }
}

} // verus!
