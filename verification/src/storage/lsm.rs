//! The storage engine: a table of recent writes over levels of tables on disk.
//!
//! The engine keeps its files' contents in memory and does no input or output
//! of its own: what is to be written to disk waits in a queue, in order.
use crate::bytes;
use crate::decimal;
use crate::storage::block;
use crate::storage::compaction;
use crate::storage::compaction_laws;
use crate::storage::key;
use crate::storage::key::{MemKey, Version};
use crate::storage::lsm_model;
use crate::storage::lsm_model::{DiskOp, DiskOpView, LsmView, Slot, Table, MAX_FILE_SIZE};
use crate::storage::manifest;
use crate::storage::memtable;
use crate::storage::memtable::MemTable;
use crate::storage::reader;
use crate::storage::reader::{scan_sstable, SsTableReader, TableView};
use crate::storage::roundtrip;
use crate::storage::scan;
use crate::storage::sstable;
use crate::storage::sstable::SsTableWriter;
use crate::storage::timestamp::HlcTimestamp;
use crate::storage::wal;
use crate::storage::wal::{RecordView, WalRecord};
use vstd::prelude::*;

verus! {

/// Closes a writer, and opens the table that it made.
fn close_table<F: Fn(usize) -> (usize, usize)>(
    sizing: &F,
    w: SsTableWriter,
    run: Ghost<Seq<Version>>,
) -> (r: (SsTableReader, Vec<u8>))
    requires
        lsm_model::sizing_ok(*sizing),
        w.wf(),
        w@ == sstable::draft_of(run@),
        lsm_model::storable(run@),
    ensures
        lsm_model::built(*sizing, r.0@, run@),
        r.1@ == r.0@.data,
{
    proof {
        roundtrip::lemma_draft(run@);
    }
    let n: usize = w.key_count();
    let shape: (usize, usize) = sizing(n);
    let file = w.finish(shape.0, shape.1);
    let len: usize = file.len();
    let copy = bytes::copy_bytes(file.as_slice());
    let ghost blocks = sstable::blocks_of(run@);
    let ghost (bits, k) = choose|bits: Seq<u8>, k: nat|
        #![trigger sstable::table_bytes(w@.closed().blocks, bits, k)]
        sstable::filter_for(bits, k, sstable::users(w@.run()), shape.0, shape.1) && file@
            == sstable::table_bytes(w@.closed().blocks, bits, k);
    proof {
        assert(sstable::filter_for(bits, k, sstable::users(run@), shape.0, shape.1) && file@
            == sstable::table_bytes(blocks, bits, k));
        lsm_model::lemma_block_count(blocks);
        lsm_model::lemma_blocks_fit(blocks);
        assert(roundtrip::table_fits(blocks, bits, k));
        roundtrip::lemma_table_round_trip(run@, bits, k, shape.0, shape.1);
    }
    match SsTableReader::open(copy) {
        Ok(reader) => (reader, file),
        Err(_) => {
            assert(false);
            vstd::pervasive::unreached()
        },
    }
}

/// Makes a table of versions.
fn make_table<F: Fn(usize) -> (usize, usize)>(
    sizing: &F,
    versions: &[(MemKey, Option<Vec<u8>>)],
) -> (r: (SsTableReader, Vec<u8>))
    requires
        lsm_model::sizing_ok(*sizing),
        lsm_model::storable(key::version_views(versions@)),
    ensures
        lsm_model::built(*sizing, r.0@, key::version_views(versions@)),
        r.1@ == r.0@.data,
{
    let ghost run = key::version_views(versions@);
    let mut w = SsTableWriter::new();
    let mut i: usize = 0;
    assert(run.take(0) =~= Seq::empty());
    while i < versions.len()
        invariant
            i <= versions@.len(),
            run == key::version_views(versions@),
            w.wf(),
            w@ == sstable::draft_of(run.take(i as int)),
        decreases versions@.len() - i,
    {
        w.add(&versions[i].0, &versions[i].1);
        proof {
            assert(run.take(i + 1).drop_last() =~= run.take(i as int));
            assert(run.take(i + 1).last() == key::version_view(versions@[i as int]));
        }
        i = i + 1;
    }
    assert(run.take(i as int) =~= run);
    close_table(sizing, w, Ghost(run))
}

/// The storage engine.
pub struct LsmStorage<F> {
    dir: Vec<u8>,
    active: MemTable,
    levels: Vec<Vec<Table>>,
    next_file_id: u64,
    watermark: HlcTimestamp,
    max_memtable_size: usize,
    sizing: F,
    pending: Vec<DiskOp>,
}

impl<F> View for LsmStorage<F> {
    type V = LsmView;

    closed spec fn view(&self) -> LsmView {
        LsmView {
            dir: self.dir@,
            active: self.active@,
            active_bytes: self.active.bytes_written(),
            levels: lsm_model::level_slots(self.levels@),
            next_file_id: self.next_file_id,
            watermark: self.watermark,
            max_memtable_size: self.max_memtable_size,
            pending: lsm_model::op_views(self.pending@),
        }
    }
}

fn op(out: &mut Vec<DiskOp>, o: DiskOp)
    ensures
        lsm_model::op_views(final(out)@) == lsm_model::op_views(old(out)@).push(o@),
{
    let ghost before = lsm_model::op_views(out@);
    let ghost view = o@;
    out.push(o);
    assert(lsm_model::op_views(out@) =~= before.push(view));
}

/// The path of a table's file.
pub fn make_table_path(dir: &[u8], id: u64) -> (r: Vec<u8>)
    ensures
        r@ == lsm_model::table_path(dir@, id),
{
    let mut r = bytes::copy_bytes(dir);
    decimal::push_decimal(&mut r, id);
    let suffix = vec![46u8, 115, 115, 116];
    assert(suffix@ =~= lsm_model::table_suffix());
    bytes::append_bytes(&mut r, suffix.as_slice());
    r
}

/// The path of a frozen log.
pub fn make_frozen_path(dir: &[u8], id: u64) -> (r: Vec<u8>)
    ensures
        r@ == lsm_model::frozen_path(dir@, id),
{
    let mut r = bytes::copy_bytes(dir);
    let prefix = vec![119u8, 97, 108, 95, 105, 109, 109, 95];
    assert(prefix@ =~= lsm_model::frozen_prefix());
    bytes::append_bytes(&mut r, prefix.as_slice());
    decimal::push_decimal(&mut r, id);
    let suffix = vec![46u8, 108, 111, 103];
    assert(suffix@ =~= lsm_model::log_suffix());
    bytes::append_bytes(&mut r, suffix.as_slice());
    r
}

/// The bytes of the manifest for the given tables.
fn make_manifest(next_file_id: u64, levels: &[Vec<Table>]) -> (r: DiskOp)
    ensures
        r@ == DiskOpView::WriteManifest(
            manifest::manifest_bytes(
                next_file_id,
                lsm_model::paths_of(lsm_model::level_slots(levels@)),
            ),
        ),
{
    let ghost want = lsm_model::paths_of(lsm_model::level_slots(levels@));
    let mut paths: Vec<Vec<Vec<u8>>> = Vec::new();
    let mut i: usize = 0;
    while i < levels.len()
        invariant
            i <= levels@.len(),
            want == lsm_model::paths_of(lsm_model::level_slots(levels@)),
            paths@.len() == i,
            forall|j: int| 0 <= j < i ==> bytes::views((#[trigger] paths@[j])@) == want[j],
        decreases levels@.len() - i,
    {
        let level = &levels[i];
        let mut row: Vec<Vec<u8>> = Vec::new();
        let mut j: usize = 0;
        while j < level.len()
            invariant
                j <= level@.len(),
                row@.len() == j,
                forall|k: int| 0 <= k < j ==> (#[trigger] row@[k])@ == level@[k].path@,
            decreases level@.len() - j,
        {
            row.push(bytes::copy_bytes(level[j].path.as_slice()));
            j = j + 1;
        }
        proof {
            assert(want[i as int] == lsm_model::slots(level@).map_values(|s: Slot| s.path));
            assert(bytes::views(row@) =~= want[i as int]);
        }
        paths.push(row);
        i = i + 1;
    }
    proof {
        assert forall|j: int| 0 <= j < paths@.len() implies manifest::level_views(paths@)[j]
            == want[j] by {
            assert(manifest::level_views(paths@)[j] == bytes::views(paths@[j]@));
        }
        assert(manifest::level_views(paths@) =~= want);
    }
    DiskOp::WriteManifest(manifest::write_manifest(next_file_id, paths.as_slice()))
}

/// The memory table that logged operations leave.
fn replay_table(records: Vec<WalRecord>) -> (r: MemTable)
    ensures
        r.wf(),
        r@ == lsm_model::replayed(wal::record_views(records@)),
{
    let ghost all = wal::record_views(records@);
    let mut mem = MemTable::new();
    let mut i: usize = 0;
    assert(all.take(0) =~= Seq::empty());
    while i < records.len()
        invariant
            i <= records@.len(),
            all == wal::record_views(records@),
            mem.wf(),
            mem@ == lsm_model::replayed(all.take(i as int)),
        decreases records@.len() - i,
    {
        let rec = &records[i];
        proof {
            assert(all.take(i + 1).drop_last() =~= all.take(i as int));
            assert(all.take(i + 1).last() == rec@);
        }
        if rec.is_delete {
            mem.delete(bytes::copy_bytes(rec.key.as_slice()), rec.ts);
        } else {
            mem.put(
                bytes::copy_bytes(rec.key.as_slice()),
                bytes::copy_bytes(rec.value.as_slice()),
                rec.ts,
            );
        }
        i = i + 1;
    }
    assert(all.take(i as int) =~= all);
    mem
}

impl<F: Fn(usize) -> (usize, usize)> LsmStorage<F> {
    /// The sizing of the tables' filters.
    pub closed spec fn sizing(&self) -> F {
        self.sizing
    }

    /// The tables agree with their versions, and the recent writes can become
    /// a table.
    pub closed spec fn wf(&self) -> bool {
        &&& self.active.wf()
        &&& lsm_model::sizing_ok(self.sizing)
        &&& self@.levels.len() >= 7
        &&& lsm_model::tables_ok(self@.levels)
        &&& lsm_model::storable(self@.active)
    }

    /// What a well-formed engine's state is like.
    pub proof fn lemma_wf(&self)
        requires
            self.wf(),
        ensures
            lsm_model::sizing_ok(self.sizing()),
            self@.levels.len() >= 7,
            lsm_model::tables_ok(self@.levels),
            lsm_model::storable(self@.active),
    {
    }

    /// How many recent writes have not become a table.
    pub fn recent_count(&self) -> (r: usize)
        requires
            self.wf(),
        ensures
            r == self@.active.len(),
    {
        self.active.len()
    }

    /// Puts a table in front of the top level.
    fn push_top(&mut self, path: Vec<u8>, reader: SsTableReader)
        requires
            old(self)@.levels.len() >= 7,
            lsm_model::tables_ok(old(self)@.levels),
            reader@.ok(),
        ensures
            final(self).active == old(self).active,
            final(self).sizing == old(self).sizing,
            lsm_model::tables_ok(final(self)@.levels),
            final(self)@ == (LsmView {
                levels: old(self)@.levels.update(
                    0,
                    seq![Slot { path: path@, table: reader@ }] + old(self)@.levels[0],
                ),
                ..old(self)@
            }),
    {
        let ghost before = self@.levels;
        let ghost top = self.levels@[0]@;
        let table = Table { path, reader };
        let ghost slot = table@;
        self.levels[0].insert(0, table);
        proof {
            let after = self@.levels;
            assert(lsm_model::slots(self.levels@[0]@) =~= seq![slot] + lsm_model::slots(top));
            assert(after =~= before.update(0, seq![slot] + before[0]));
            assert forall|i: int, j: int|
                0 <= i < after.len() && 0 <= j < after[i].len() implies (
            #[trigger] after[i][j]).table.ok() by {
                if i == 0 {
                    if j > 0 {
                        assert(after[0][j] == before[0][j - 1]);
                    }
                } else {
                    assert(after[i][j] == before[i][j]);
                }
            }
        }
    }

    /// Turns a recovered log into a table.
    fn adopt(&mut self, records: Vec<WalRecord>, clean_up: DiskOp) -> (t: Ghost<TableView>)
        requires
            old(self).wf(),
            old(self)@.next_file_id < u64::MAX,
            forall|i: int|
                0 <= i < records@.len() ==> wal::fits(
                    #[trigger] wal::record_views(records@)[i],
                ),
            records@.len() < 0x1_0000_0000,
        ensures
            final(self).wf(),
            final(self).sizing() == old(self).sizing(),
            lsm_model::built(
                old(self).sizing(),
                t@,
                lsm_model::replayed(wal::record_views(records@)),
            ),
            final(self)@ == old(self)@.with_recovered(t@, clean_up@),
    {
        proof {
            lsm_model::lemma_replayed(wal::record_views(records@));
        }
        let mem = replay_table(records);
        let versions = mem.iter_all();
        let (reader, file) = make_table(&self.sizing, versions.as_slice());
        let ghost t = reader@;
        let path = make_table_path(self.dir.as_slice(), self.next_file_id);
        let copy = bytes::copy_bytes(path.as_slice());
        op(&mut self.pending, DiskOp::WriteTable { path: copy, file });
        op(&mut self.pending, clean_up);
        self.next_file_id = self.next_file_id + 1;
        let ghost mid = self@;
        self.push_top(path, reader);
        proof {
            assert(self@ =~= old(self)@.with_recovered(t, clean_up@));
        }
        Ghost(t)
    }

    /// Opens the engine: its tables as the manifest lists them, the frozen logs
    /// with their paths, and the active log. Each frozen log becomes a table, and so
    /// does the active one if it holds anything.
    pub fn open(
        dir: Vec<u8>,
        next_file_id: u64,
        levels: Vec<Vec<Table>>,
        frozen: Vec<(Vec<u8>, Vec<u8>)>,
        active_log: &[u8],
        max_memtable_size: usize,
        sizing: F,
    ) -> (r: Self)
        requires
            lsm_model::sizing_ok(sizing),
            levels@.len() >= 7,
            lsm_model::tables_ok(lsm_model::level_slots(levels@)),
            next_file_id + frozen@.len() + 1 < u64::MAX,
            forall|i: int|
                0 <= i < frozen@.len() ==> wal::recovered((#[trigger] frozen@[i]).1@).len()
                    < 0x1_0000_0000,
            wal::recovered(active_log@).len() < 0x1_0000_0000,
        ensures
            r.wf(),
            r.sizing() == sizing,
            exists|made: Seq<TableView>|
                #![trigger lsm_model::made_of(sizing, scan::pair_views(frozen@), active_log@, made)]
                lsm_model::made_of(sizing, scan::pair_views(frozen@), active_log@, made) && r@
                    == (LsmView {
                    dir: dir@,
                    active: Seq::empty(),
                    active_bytes: 0,
                    levels: lsm_model::level_slots(levels@),
                    next_file_id,
                    watermark: HlcTimestamp { physical: 0, logical: 0 },
                    max_memtable_size,
                    pending: Seq::empty(),
                }).recovered(scan::pair_views(frozen@), active_log@, made),
    {
        let ghost logs = scan::pair_views(frozen@);
        let mut s = LsmStorage {
            dir,
            active: MemTable::new(),
            levels,
            next_file_id,
            watermark: HlcTimestamp::zero(),
            max_memtable_size,
            sizing,
            pending: Vec::new(),
        };
        let ghost base = s@;
        assert(lsm_model::op_views(s.pending@) =~= Seq::empty());
        let ghost mut made = Seq::<TableView>::empty();
        let mut i: usize = 0;
        assert(logs.take(0) =~= Seq::empty());
        while i < frozen.len()
            invariant
                i <= frozen@.len(),
                logs == scan::pair_views(frozen@),
                s.wf(),
                s.sizing() == sizing,
                made.len() == i,
                s@ == base.with_frozen(logs.take(i as int), made),
                s@.next_file_id == next_file_id + i,
                next_file_id + frozen@.len() + 1 < u64::MAX,
                forall|j: int|
                    0 <= j < frozen@.len() ==> wal::recovered((#[trigger] frozen@[j]).1@).len()
                        < 0x1_0000_0000,
                forall|j: int|
                    0 <= j < i ==> lsm_model::built(
                        sizing,
                        #[trigger] made[j],
                        lsm_model::replayed(wal::recovered(logs[j].1)),
                    ),
            decreases frozen@.len() - i,
        {
            assert(logs[i as int] == (frozen@[i as int].0@, frozen@[i as int].1@));
            let (records, _) = wal::replay(frozen[i].1.as_slice());
            proof {
                lsm_model::lemma_recovered_fits(frozen@[i as int].1@);
                assert(wal::record_views(records@).len() == records@.len());
                assert(wal::recovered(frozen@[i as int].1@).len() < 0x1_0000_0000);
            }
            let path = bytes::copy_bytes(frozen[i].0.as_slice());
            let t = s.adopt(records, DiskOp::Remove(path));
            proof {
                let more = made.push(t@);
                let now = logs.take(i + 1);
                assert(now.drop_last() =~= logs.take(i as int));
                assert(now.last() == logs[i as int]);
                lemma_with_frozen_prefix(base, logs.take(i as int), made, more);
                assert(more[i as int] == t@);
                assert forall|j: int| 0 <= j < i + 1 implies lsm_model::built(
                    sizing,
                    #[trigger] more[j],
                    lsm_model::replayed(wal::recovered(logs[j].1)),
                ) by {
                    if j < i {
                        assert(more[j] == made[j]);
                    }
                }
                made = more;
            }
            i = i + 1;
        }
        assert(logs.take(i as int) =~= logs);
        let (records, _) = wal::replay(active_log);
        proof {
            lsm_model::lemma_recovered_fits(active_log@);
            assert(wal::record_views(records@).len() == records@.len());
        }
        let ghost mid = s@;
        if records.len() > 0 {
            let t = s.adopt(records, DiskOp::ResetLog);
            proof {
                let more = made.push(t@);
                lemma_with_frozen_prefix(base, logs, made, more);
                assert forall|j: int| 0 <= j < i implies lsm_model::built(
                    sizing,
                    #[trigger] more[j],
                    lsm_model::replayed(wal::recovered(logs[j].1)),
                ) by {
                    assert(more[j] == made[j]);
                }
                assert(more[logs.len() as int] == t@);
                made = more;
            }
        }
        if s.next_file_id > next_file_id {
            let m = make_manifest(s.next_file_id, s.levels.as_slice());
            op(&mut s.pending, m);
        }
        proof {
            assert(lsm_model::made_of(sizing, logs, active_log@, made));
            assert(s@ =~= base.recovered(logs, active_log@, made));
        }
        s
    }
}

/// Only the first tables matter for the first logs.
proof fn lemma_with_frozen_prefix(
    s: LsmView,
    logs: Seq<(Seq<u8>, Seq<u8>)>,
    a: Seq<TableView>,
    b: Seq<TableView>,
)
    requires
        logs.len() <= a.len(),
        a.len() <= b.len(),
        forall|i: int| 0 <= i < a.len() ==> a[i] == b[i],
    ensures
        s.with_frozen(logs, a) == s.with_frozen(logs, b),
    decreases logs.len(),
{
    if logs.len() > 0 {
        lemma_with_frozen_prefix(s, logs.drop_last(), a, b);
        assert(a[logs.len() - 1] == b[logs.len() - 1]);
    }
}

impl<F: Fn(usize) -> (usize, usize)> LsmStorage<F> {
    /// Turns the recent writes into the first table of the top level.
    pub fn flush_active(&mut self)
        requires
            old(self).wf(),
        ensures
            final(self).wf(),
            final(self).sizing() == old(self).sizing(),
            exists|t: TableView|
                #![trigger old(self)@.flushed(t)]
                lsm_model::built(old(self).sizing(), t, old(self)@.active) && final(self)@
                    == old(self)@.flushed(t),
    {
        let ghost before = self@;
        let id: u64 = self.next_file_id;
        let frozen = make_frozen_path(self.dir.as_slice(), id);
        op(&mut self.pending, DiskOp::FreezeLog(bytes::copy_bytes(frozen.as_slice())));
        self.next_file_id = id.wrapping_add(1);
        let m = make_manifest(self.next_file_id, self.levels.as_slice());
        op(&mut self.pending, m);
        let versions = self.active.iter_all();
        let (reader, file) = make_table(&self.sizing, versions.as_slice());
        let ghost t = reader@;
        let path = make_table_path(self.dir.as_slice(), id);
        op(
            &mut self.pending,
            DiskOp::WriteTable { path: bytes::copy_bytes(path.as_slice()), file },
        );
        self.push_top(path, reader);
        self.active = MemTable::new();
        let m = make_manifest(self.next_file_id, self.levels.as_slice());
        op(&mut self.pending, m);
        op(&mut self.pending, DiskOp::Remove(frozen));
        proof {
            assert(self@ =~= before.flushed(t));
        }
    }

    /// Writes a version of a key; when the recent writes have grown to the
    /// size that was set, they become a table.
    pub fn put_at(&mut self, key: &[u8], value: &[u8], ts: HlcTimestamp)
        requires
            old(self).wf(),
            key@.len() < 0x1_0000_0000,
            value@.len() < 0x1_0000_0000,
            old(self)@.active.len() < 0xffff_ffff,
        ensures
            final(self).wf(),
            final(self).sizing() == old(self).sizing(),
            lsm_model::after_put(
                old(self).sizing(),
                old(self)@,
                RecordView { is_delete: false, key: key@, value: value@, ts },
                final(self)@,
            ),
    {
        let ghost r = RecordView { is_delete: false, key: key@, value: value@, ts };
        let ghost before = self@;
        proof {
            lsm_model::lemma_write_storable(before.active, key@, Some(value@), ts);
        }
        op(&mut self.pending, DiskOp::AppendLog(wal::encode_record(false, key, value, ts)));
        self.active.put(bytes::copy_bytes(key), bytes::copy_bytes(value), ts);
        assert(self@ =~= before.written(r));
        if self.active.size() >= self.max_memtable_size {
            self.flush_active();
        }
    }

    /// Writes a deletion of a key.
    pub fn delete_at(&mut self, key: &[u8], ts: HlcTimestamp)
        requires
            old(self).wf(),
            key@.len() < 0x1_0000_0000,
            old(self)@.active.len() < 0xffff_ffff,
        ensures
            final(self).wf(),
            final(self).sizing() == old(self).sizing(),
            final(self)@ == old(self)@.written(
                RecordView { is_delete: true, key: key@, value: Seq::empty(), ts },
            ),
    {
        let ghost before = self@;
        proof {
            lsm_model::lemma_write_storable(before.active, key@, None, ts);
        }
        let none: Vec<u8> = Vec::new();
        op(
            &mut self.pending,
            DiskOp::AppendLog(wal::encode_record(true, key, none.as_slice(), ts)),
        );
        self.active.delete(bytes::copy_bytes(key), ts);
        proof {
            let r = RecordView { is_delete: true, key: key@, value: Seq::empty(), ts };
            assert(none@ =~= r.value);
            assert(self@ =~= before.written(r));
        }
    }

    /// What a read of `key` at `as_of` returns.
    pub fn get_at(&self, key: &[u8], as_of: HlcTimestamp) -> (r: Option<Vec<u8>>)
        requires
            self.wf(),
        ensures
            bytes::value_view(r) == self@.get(key@, as_of),
    {
        if let Some(v) = self.active.get(key, as_of) {
            return v;
        }
        let ghost all = self@.levels;
        let mut i: usize = 0;
        assert(all.skip(0) =~= all);
        while i < self.levels.len()
            invariant
                self.wf(),
                all == self@.levels,
                i <= self.levels@.len(),
                self@.lookup(key@, as_of) == lsm_model::lookup_levels(
                    all.skip(i as int),
                    key@,
                    as_of,
                ),
            decreases self.levels@.len() - i,
        {
            let level = &self.levels[i];
            let ghost slots = all[i as int];
            proof {
                assert(all.skip(i as int)[0] == slots);
                assert(all.skip(i as int).drop_first() =~= all.skip(i + 1));
                assert(slots.skip(0) =~= slots);
            }
            let mut j: usize = 0;
            while j < level.len()
                invariant
                    self.wf(),
                    all == self@.levels,
                    i < self.levels@.len(),
                    level == &self.levels@[i as int],
                    slots == all[i as int],
                    slots == lsm_model::slots(level@),
                    j <= level@.len(),
                    self@.lookup(key@, as_of) == (match lsm_model::lookup_level(
                        slots.skip(j as int),
                        key@,
                        as_of,
                    ) {
                        Some(v) => Some(v),
                        None => lsm_model::lookup_levels(all.skip(i + 1), key@, as_of),
                    }),
                decreases level@.len() - j,
            {
                proof {
                    assert(slots.skip(j as int)[0] == slots[j as int]);
                    assert(slots.skip(j as int).drop_first() =~= slots.skip(j + 1));
                    assert(all[i as int][j as int].table.ok());
                }
                if let Some(v) = level[j].reader.get(key, as_of) {
                    return v;
                }
                j = j + 1;
            }
            i = i + 1;
        }
        None
    }

    /// In key order, the keys from `start` up to, not including, `end` that
    /// have a value at `as_of`, with their values; an empty `end` is no bound.
    pub fn scan_at(&self, start: &[u8], end: &[u8], as_of: HlcTimestamp) -> (r: Vec<
        (Vec<u8>, Vec<u8>),
    >)
        requires
            self.wf(),
        ensures
            scan::is_scan(scan::pair_views(r@), self@.runs(), start@, end@, as_of),
    {
        let ghost all = self@.levels;
        let ghost runs = self@.runs();
        let mut lists: Vec<Vec<(Vec<u8>, Option<Vec<u8>>)>> = Vec::new();
        lists.push(self.active.scan(start, end, as_of));
        let mut i: usize = 0;
        proof {
            assert(all.take(0) =~= Seq::empty());
            assert(scan::list_views(lists@) =~= scan::scans_of(
                seq![self@.active] + lsm_model::table_runs(all.take(0)),
                start@,
                end@,
                as_of,
            ));
        }
        while i < self.levels.len()
            invariant
                self.wf(),
                all == self@.levels,
                i <= self.levels@.len(),
                scan::list_views(lists@) == scan::scans_of(
                    seq![self@.active] + lsm_model::table_runs(all.take(i as int)),
                    start@,
                    end@,
                    as_of,
                ),
            decreases self.levels@.len() - i,
        {
            let level = &self.levels[i];
            let ghost slots = all[i as int];
            let ghost done = seq![self@.active] + lsm_model::table_runs(all.take(i as int));
            proof {
                assert(slots.take(0) =~= Seq::empty());
                assert(done + lsm_model::slot_runs(slots.take(0)) =~= done);
            }
            let mut j: usize = 0;
            while j < level.len()
                invariant
                    self.wf(),
                    all == self@.levels,
                    i < self.levels@.len(),
                    level == &self.levels@[i as int],
                    slots == all[i as int],
                    slots == lsm_model::slots(level@),
                    j <= level@.len(),
                    scan::list_views(lists@) == scan::scans_of(
                        done + lsm_model::slot_runs(slots.take(j as int)),
                        start@,
                        end@,
                        as_of,
                    ),
                decreases level@.len() - j,
            {
                let reader = &level[j].reader;
                let ghost before = scan::list_views(lists@);
                proof {
                    assert(all[i as int][j as int].table.ok());
                    assert(slots.take(j + 1) =~= slots.take(j as int).push(slots[j as int]));
                }
                let wanted: bool = i == 0 || ((start.len() == 0 || !bytes::bytes_lt(
                    reader.max_key.user_key.as_slice(),
                    start,
                )) && (end.len() == 0 || bytes::bytes_lt(reader.min_key.user_key.as_slice(), end)));
                let list = if wanted {
                    scan_sstable(reader, start, end, as_of)
                } else {
                    proof {
                        lemma_scan_outside(reader@, start@, end@, as_of);
                    }
                    Vec::new()
                };
                let ghost hits = key::hit_views(list@);
                assert(hits =~= key::scanned(reader@.run(), start@, end@, as_of));
                lists.push(list);
                proof {
                    assert(scan::list_views(lists@) =~= before.push(hits));
                    let was = done + lsm_model::slot_runs(slots.take(j as int));
                    let now = done + lsm_model::slot_runs(slots.take(j + 1));
                    assert(now =~= was.push(reader@.run()));
                    assert(scan::scans_of(now, start@, end@, as_of) =~= scan::scans_of(
                        was,
                        start@,
                        end@,
                        as_of,
                    ).push(hits));
                }
                j = j + 1;
            }
            proof {
                assert(slots.take(j as int) =~= slots);
                lsm_model::lemma_table_runs_push(all, i as int);
                assert(done + lsm_model::slot_runs(slots) =~= seq![self@.active]
                    + lsm_model::table_runs(all.take(i + 1)));
            }
            i = i + 1;
        }
        proof {
            assert(all.take(i as int) =~= all);
            self.active.lemma_sorted();
            lsm_model::lemma_runs_sorted(self@);
            scan::lemma_scans_read(runs, start@, end@, as_of, Seq::empty());
        }
        let merged = scan::merge_scans(lists.as_slice());
        proof {
            scan::lemma_merged_is_scan(scan::pair_views(merged@), runs, start@, end@, as_of);
        }
        merged
    }

    /// Hands out what is to be done on disk, in order.
    pub fn take_pending(&mut self) -> (r: Vec<DiskOp>)
        ensures
            lsm_model::op_views(r@) == old(self)@.pending,
            final(self)@ == (LsmView { pending: Seq::empty(), ..old(self)@ }),
            final(self).sizing() == old(self).sizing(),
            old(self).wf() ==> final(self).wf(),
    {
        let mut r: Vec<DiskOp> = Vec::new();
        std::mem::swap(&mut r, &mut self.pending);
        assert(lsm_model::op_views(self.pending@) =~= Seq::empty());
        assert(self@ =~= (LsmView { pending: Seq::empty(), ..old(self)@ }));
        r
    }
}

/// A table whose range lies outside the bounds shows nothing.
proof fn lemma_scan_outside(t: TableView, start: Seq<u8>, end: Seq<u8>, as_of: HlcTimestamp)
    requires
        t.ok(),
        (start.len() > 0 && bytes::lex_lt(t.max.user, start)) || (end.len() > 0 && !bytes::lex_lt(
            t.min.user,
            end,
        )),
    ensures
        key::scanned(t.run(), start, end, as_of) == Seq::<key::Hit>::empty(),
{
    let run = t.run();
    let n = run.len() as int;
    assert forall|i: int| 0 <= i < n implies !#[trigger] key::shown(run, i, start, end, as_of) by {
        bytes::lemma_lex_total(run[i].key.user, run[0].key.user);
        bytes::lemma_lex_total(run[i].key.user, run[n - 1].key.user);
        if 0 < i {
            assert(!key::key_lt(run[i].key, run[0].key));
        }
        if i < n - 1 {
            assert(!key::key_lt(run[n - 1].key, run[i].key));
        }
        if start.len() > 0 && bytes::lex_lt(t.max.user, start) {
            if run[i].key.user != run[n - 1].key.user {
                bytes::lemma_lex_transitive(run[i].key.user, run[n - 1].key.user, start);
            }
        } else if bytes::lex_lt(run[i].key.user, end) {
            if run[i].key.user != run[0].key.user {
                bytes::lemma_lex_transitive(run[0].key.user, run[i].key.user, end);
            }
        }
    }
    key::lemma_scan_skips(run, 0, n, start, end, as_of);
}

// ----------------------------------------------------------------------
// Compaction
// ----------------------------------------------------------------------
/// The least first user key of the tables.
fn find_least_min(ts: &[Table]) -> (r: Vec<u8>)
    requires
        ts@.len() > 0,
    ensures
        r@ == lsm_model::least_min(lsm_model::slots(ts@)),
{
    let ghost all = lsm_model::slots(ts@);
    let mut m: usize = 0;
    let mut i: usize = 1;
    assert(all.take(1)[0] == all[0]);
    while i < ts.len()
        invariant
            1 <= i <= ts@.len(),
            m < ts@.len(),
            all == lsm_model::slots(ts@),
            all[m as int].table.min.user == lsm_model::least_min(all.take(i as int)),
        decreases ts@.len() - i,
    {
        proof {
            assert(all.take(i + 1).drop_last() =~= all.take(i as int));
            assert(all.take(i + 1).last() == all[i as int]);
        }
        if bytes::bytes_lt(
            ts[i].reader.min_key.user_key.as_slice(),
            ts[m].reader.min_key.user_key.as_slice(),
        ) {
            m = i;
        }
        i = i + 1;
    }
    assert(all.take(i as int) =~= all);
    bytes::copy_bytes(ts[m].reader.min_key.user_key.as_slice())
}

/// The greatest last user key of the tables.
fn find_greatest_max(ts: &[Table]) -> (r: Vec<u8>)
    requires
        ts@.len() > 0,
    ensures
        r@ == lsm_model::greatest_max(lsm_model::slots(ts@)),
{
    let ghost all = lsm_model::slots(ts@);
    let mut m: usize = 0;
    let mut i: usize = 1;
    assert(all.take(1)[0] == all[0]);
    while i < ts.len()
        invariant
            1 <= i <= ts@.len(),
            m < ts@.len(),
            all == lsm_model::slots(ts@),
            all[m as int].table.max.user == lsm_model::greatest_max(all.take(i as int)),
        decreases ts@.len() - i,
    {
        proof {
            assert(all.take(i + 1).drop_last() =~= all.take(i as int));
            assert(all.take(i + 1).last() == all[i as int]);
        }
        if bytes::bytes_lt(
            ts[m].reader.max_key.user_key.as_slice(),
            ts[i].reader.max_key.user_key.as_slice(),
        ) {
            m = i;
        }
        i = i + 1;
    }
    assert(all.take(i as int) =~= all);
    bytes::copy_bytes(ts[m].reader.max_key.user_key.as_slice())
}

/// The places of the tables whose range meets that of the inputs.
fn find_overlapping(inputs: &[Table], below: &[Table]) -> (r: Vec<usize>)
    requires
        inputs@.len() > 0,
    ensures
        forall|k: int| 0 <= k < r@.len() ==> (#[trigger] r@[k]) < below@.len(),
        r@.map_values(|p: usize| below@[p as int]@) == lsm_model::overlapping(
            lsm_model::slots(inputs@),
            lsm_model::slots(below@),
        ),
{
    let min = find_least_min(inputs);
    let max = find_greatest_max(inputs);
    let ghost ins = lsm_model::slots(inputs@);
    let ghost all = lsm_model::slots(below@);
    let ghost pick = |s: Slot|
        lsm_model::overlaps(s, lsm_model::least_min(ins), lsm_model::greatest_max(ins));
    let ghost at = |p: usize| below@[p as int]@;
    let mut r: Vec<usize> = Vec::new();
    let mut i: usize = 0;
    proof {
        reveal(Seq::filter);
        assert(all.take(0) =~= Seq::empty());
        assert(r@.map_values(at) =~= Seq::empty());
    }
    while i < below.len()
        invariant
            i <= below@.len(),
            min@ == lsm_model::least_min(ins),
            max@ == lsm_model::greatest_max(ins),
            all == lsm_model::slots(below@),
            pick == (|s: Slot|
                lsm_model::overlaps(s, lsm_model::least_min(ins), lsm_model::greatest_max(ins))),
            at == (|p: usize| below@[p as int]@),
            forall|k: int| 0 <= k < r@.len() ==> (#[trigger] r@[k]) < below@.len(),
            r@.map_values(at) == all.take(i as int).filter(pick),
        decreases below@.len() - i,
    {
        let ghost before = r@.map_values(at);
        proof {
            reveal(Seq::filter);
            assert(all.take(i + 1).drop_last() =~= all.take(i as int));
            assert(all.take(i + 1).last() == all[i as int]);
        }
        let t = &below[i].reader;
        let apart: bool = bytes::bytes_lt(t.max_key.user_key.as_slice(), min.as_slice())
            || bytes::bytes_lt(max.as_slice(), t.min_key.user_key.as_slice());
        if !apart {
            r.push(i);
            assert(r@.map_values(at) =~= before.push(all[i as int]));
        }
        i = i + 1;
    }
    assert(all.take(i as int) =~= all);
    r
}

/// Puts a table in its place by its first user key, behind its equals.
fn insert_by_min(ts: &mut Vec<Table>, t: Table)
    ensures
        lsm_model::slots(final(ts)@) == lsm_model::insert_by_min(lsm_model::slots(old(ts)@), t@),
{
    let ghost all = lsm_model::slots(ts@);
    let ghost slot = t@;
    let mut p: usize = ts.len();
    while p > 0 && bytes::bytes_lt(
        t.reader.min_key.user_key.as_slice(),
        ts[p - 1].reader.min_key.user_key.as_slice(),
    )
        invariant
            p <= ts@.len(),
            all == lsm_model::slots(ts@),
            slot == t@,
            forall|i: int|
                p <= i < all.len() ==> bytes::lex_lt(
                    slot.table.min.user,
                    (#[trigger] all[i]).table.min.user,
                ),
        decreases p,
    {
        assert(all[p - 1] == ts@[p - 1]@);
        p = p - 1;
    }
    proof {
        if p > 0 {
            assert(all[p - 1] == ts@[p - 1]@);
        }
        lsm_model::lemma_insert_by_min(all, slot, p as int);
    }
    ts.insert(p, t);
    assert(lsm_model::slots(ts@) =~= all.insert(p as int, slot));
}

/// Whether one of the paths is this one.
fn has_path(paths: &[Vec<u8>], path: &[u8], ts: Ghost<Seq<Slot>>) -> (r: bool)
    requires
        paths@.len() == ts@.len(),
        forall|i: int| 0 <= i < paths@.len() ==> (#[trigger] paths@[i])@ == ts@[i].path,
    ensures
        r == lsm_model::names_path(ts@, path@),
{
    let mut i: usize = 0;
    while i < paths.len()
        invariant
            i <= paths@.len(),
            paths@.len() == ts@.len(),
            forall|k: int| 0 <= k < paths@.len() ==> (#[trigger] paths@[k])@ == ts@[k].path,
            forall|k: int| 0 <= k < i ==> (#[trigger] ts@[k]).path != path@,
        decreases paths@.len() - i,
    {
        if bytes::bytes_eq(paths[i].as_slice(), path) {
            assert(ts@[i as int].path == path@);
            return true;
        }
        i = i + 1;
    }
    false
}

/// The tables that a compaction merges: the inputs, and those that they meet.
fn gather<'a>(inputs: &'a [Table], below: &'a [Table], picked: &[usize]) -> (r: (
    Vec<&'a SsTableReader>,
    Vec<Vec<u8>>,
))
    requires
        forall|k: int| 0 <= k < picked@.len() ==> (#[trigger] picked@[k]) < below@.len(),
    ensures
        ({
            let all = lsm_model::slots(inputs@) + picked@.map_values(
                |p: usize| below@[p as int]@,
            );
            &&& r.0@.len() == all.len()
            &&& r.1@.len() == all.len()
            &&& forall|k: int| 0 <= k < all.len() ==> (#[trigger] r.0@[k])@ == all[k].table
            &&& forall|k: int| 0 <= k < all.len() ==> (#[trigger] r.1@[k])@ == all[k].path
        }),
{
    let ghost all = lsm_model::slots(inputs@) + picked@.map_values(|p: usize| below@[p as int]@);
    let mut readers: Vec<&'a SsTableReader> = Vec::new();
    let mut paths: Vec<Vec<u8>> = Vec::new();
    let mut i: usize = 0;
    while i < inputs.len()
        invariant
            i <= inputs@.len(),
            all == lsm_model::slots(inputs@) + picked@.map_values(|p: usize| below@[p as int]@),
            readers@.len() == i,
            paths@.len() == i,
            forall|k: int| 0 <= k < i ==> (#[trigger] readers@[k])@ == all[k].table,
            forall|k: int| 0 <= k < i ==> (#[trigger] paths@[k])@ == all[k].path,
        decreases inputs@.len() - i,
    {
        assert(all[i as int] == inputs@[i as int]@);
        readers.push(&inputs[i].reader);
        paths.push(bytes::copy_bytes(inputs[i].path.as_slice()));
        i = i + 1;
    }
    let mut j: usize = 0;
    while j < picked.len()
        invariant
            j <= picked@.len(),
            i == inputs@.len(),
            forall|k: int| 0 <= k < picked@.len() ==> (#[trigger] picked@[k]) < below@.len(),
            all == lsm_model::slots(inputs@) + picked@.map_values(|p: usize| below@[p as int]@),
            readers@.len() == i + j,
            paths@.len() == i + j,
            forall|k: int| 0 <= k < i + j ==> (#[trigger] readers@[k])@ == all[k].table,
            forall|k: int| 0 <= k < i + j ==> (#[trigger] paths@[k])@ == all[k].path,
        decreases picked@.len() - j,
    {
        let p: usize = picked[j];
        assert(all[i + j] == below@[p as int]@);
        readers.push(&below[p].reader);
        paths.push(bytes::copy_bytes(below[p].path.as_slice()));
        j = j + 1;
    }
    (readers, paths)
}

/// The tables below that stay, in their order.
fn keep_rest(below: Vec<Table>, gone: &[Vec<u8>], over: Ghost<Seq<Slot>>) -> (r: Vec<Table>)
    requires
        gone@.len() == over@.len(),
        forall|i: int| 0 <= i < gone@.len() ==> (#[trigger] gone@[i])@ == over@[i].path,
    ensures
        lsm_model::slots(r@) == lsm_model::slots(below@).filter(
            |s: Slot| !lsm_model::names_path(over@, s.path),
        ),
{
    let ghost all = lsm_model::slots(below@);
    let ghost stays = |s: Slot| !lsm_model::names_path(over@, s.path);
    let ghost mut done: int = 0;
    let mut rest = below;
    let mut r: Vec<Table> = Vec::new();
    proof {
        reveal(Seq::filter);
        assert(all.take(0) =~= Seq::empty());
        assert(lsm_model::slots(r@) =~= Seq::empty());
        assert(all.skip(0) =~= all);
    }
    while rest.len() > 0
        invariant
            0 <= done <= all.len(),
            lsm_model::slots(rest@) == all.skip(done),
            stays == (|s: Slot| !lsm_model::names_path(over@, s.path)),
            gone@.len() == over@.len(),
            forall|i: int| 0 <= i < gone@.len() ==> (#[trigger] gone@[i])@ == over@[i].path,
            lsm_model::slots(r@) == all.take(done).filter(stays),
        decreases rest@.len(),
    {
        let ghost before = lsm_model::slots(r@);
        let ghost was = rest@;
        let t = rest.remove(0);
        proof {
            reveal(Seq::filter);
            assert(lsm_model::slots(was).len() == all.len() - done);
            assert(lsm_model::slots(was)[0] == all.skip(done)[0]);
            assert(all[done] == t@);
            assert(all.take(done + 1).drop_last() =~= all.take(done));
            assert(all.take(done + 1).last() == t@);
            assert(lsm_model::slots(rest@) =~= lsm_model::slots(was).skip(1));
            assert(all.skip(done).skip(1) =~= all.skip(done + 1));
        }
        let ghost slot = t@;
        if !has_path(gone, t.path.as_slice(), over) {
            r.push(t);
            assert(lsm_model::slots(r@) =~= before.push(slot));
        }
        proof {
            done = done + 1;
        }
    }
    assert(all.take(done) =~= all) by {
        assert(lsm_model::slots(rest@).len() == 0);
    }
    r
}

/// Tables in the order of their first user keys.
fn sort_by_min(ts: Vec<Table>) -> (r: Vec<Table>)
    ensures
        lsm_model::slots(r@) == lsm_model::sorted_by_min(lsm_model::slots(ts@)),
{
    let ghost all = lsm_model::slots(ts@);
    let ghost mut done: int = 0;
    let mut rest = ts;
    let mut r: Vec<Table> = Vec::new();
    proof {
        assert(all.take(0) =~= Seq::empty());
        assert(lsm_model::slots(r@) =~= Seq::empty());
        assert(all.skip(0) =~= all);
    }
    while rest.len() > 0
        invariant
            0 <= done <= all.len(),
            lsm_model::slots(rest@) == all.skip(done),
            lsm_model::slots(r@) == lsm_model::sorted_by_min(all.take(done)),
        decreases rest@.len(),
    {
        let ghost was = rest@;
        let t = rest.remove(0);
        proof {
            assert(lsm_model::slots(was).len() == all.len() - done);
            assert(lsm_model::slots(was)[0] == all.skip(done)[0]);
            assert(all[done] == t@);
            assert(all.take(done + 1).drop_last() =~= all.take(done));
            assert(all.take(done + 1).last() == t@);
            assert(lsm_model::slots(rest@) =~= lsm_model::slots(was).skip(1));
            assert(all.skip(done).skip(1) =~= all.skip(done + 1));
        }
        insert_by_min(&mut r, t);
        proof {
            done = done + 1;
        }
    }
    assert(all.take(done) =~= all) by {
        assert(lsm_model::slots(rest@).len() == 0);
    }
    r
}

impl<F: Fn(usize) -> (usize, usize)> LsmStorage<F> {
    /// Closes a writer, and gives its table a file number.
    fn close_one(&mut self, w: SsTableWriter, run: Ghost<Seq<Version>>) -> (r: Table)
        requires
            lsm_model::sizing_ok(old(self).sizing),
            w.wf(),
            w@ == sstable::draft_of(run@),
            lsm_model::storable(run@),
        ensures
            final(self).sizing == old(self).sizing,
            final(self).active == old(self).active,
            final(self).levels == old(self).levels,
            lsm_model::built(old(self).sizing, r@.table, run@),
            r@.path == lsm_model::table_path(old(self)@.dir, old(self)@.next_file_id),
            final(self)@ == (LsmView {
                next_file_id: lsm_model::next_id(old(self)@.next_file_id),
                pending: old(self)@.pending.push(
                    DiskOpView::WriteTable { path: r@.path, file: r@.table.data },
                ),
                ..old(self)@
            }),
    {
        let (reader, file) = close_table(&self.sizing, w, run);
        let path = make_table_path(self.dir.as_slice(), self.next_file_id);
        let copy = bytes::copy_bytes(path.as_slice());
        self.next_file_id = self.next_file_id.wrapping_add(1);
        op(&mut self.pending, DiskOp::WriteTable { path: copy, file });
        Table { path, reader }
    }

    /// Closes the writers, and gives their tables file numbers.
    fn close_all(&mut self, writers: Vec<SsTableWriter>, runs: Ghost<Seq<Seq<Version>>>) -> (r: (
        Vec<Table>,
        Ghost<Seq<TableView>>,
    ))
        requires
            lsm_model::sizing_ok(old(self).sizing),
            compaction::writers_hold(writers@, runs@),
            forall|i: int| 0 <= i < runs@.len() ==> lsm_model::storable(#[trigger] runs@[i]),
        ensures
            final(self).sizing == old(self).sizing,
            final(self).active == old(self).active,
            final(self).levels == old(self).levels,
            r.1@.len() == runs@.len(),
            forall|i: int|
                0 <= i < runs@.len() ==> lsm_model::built(
                    old(self).sizing,
                    #[trigger] r.1@[i],
                    runs@[i],
                ),
            ({
                let s = old(self)@;
                let fresh = lsm_model::new_slots(s.dir, s.next_file_id, r.1@);
                &&& lsm_model::slots(r.0@) == fresh
                &&& final(self)@ == (LsmView {
                    next_file_id: lsm_model::id_after(s.next_file_id, r.1@.len()),
                    pending: s.pending + lsm_model::write_ops(fresh),
                    ..s
                })
            }),
    {
        let ghost s = self@;
        let ghost n = runs@.len();
        let ghost mut made = Seq::<TableView>::empty();
        let mut rest = writers;
        let mut tables: Vec<Table> = Vec::new();
        proof {
            assert(lsm_model::slots(tables@) =~= Seq::empty());
            assert(s.pending + lsm_model::write_ops(Seq::empty()) =~= s.pending);
        }
        while rest.len() > 0
            invariant
                s == old(self)@,
                n == runs@.len(),
                rest@.len() + made.len() == n,
                forall|i: int|
                    0 <= i < rest@.len() ==> (#[trigger] rest@[i]).wf() && rest@[i]@
                        == sstable::draft_of(runs@[i + made.len()]),
                forall|i: int| 0 <= i < n ==> lsm_model::storable(#[trigger] runs@[i]),
                forall|i: int|
                    0 <= i < made.len() ==> lsm_model::built(
                        old(self).sizing,
                        #[trigger] made[i],
                        runs@[i],
                    ),
                lsm_model::sizing_ok(self.sizing),
                self.sizing == old(self).sizing,
                self.active == old(self).active,
                self.levels == old(self).levels,
                lsm_model::slots(tables@) == lsm_model::new_slots(s.dir, s.next_file_id, made),
                self@ == (LsmView {
                    next_file_id: lsm_model::id_after(s.next_file_id, made.len()),
                    pending: s.pending + lsm_model::write_ops(lsm_model::slots(tables@)),
                    ..s
                }),
            decreases rest@.len(),
        {
            let ghost was = rest@;
            let ghost slots = lsm_model::slots(tables@);
            let ghost k = made.len() as int;
            let w = rest.remove(0);
            proof {
                assert(w == was[0]);
                assert forall|i: int| 0 <= i < rest@.len() implies (#[trigger] rest@[i]).wf()
                    && rest@[i]@ == sstable::draft_of(runs@[i + k + 1]) by {
                    assert(rest@[i] == was[i + 1]);
                }
                assert(lsm_model::storable(runs@[k]));
            }
            let table = self.close_one(w, Ghost(runs@[k]));
            let ghost slot = table@;
            let ghost t = slot.table;
            tables.push(table);
            proof {
                let more = made.push(t);
                assert(lsm_model::slots(tables@) =~= slots.push(slot));
                assert(more.drop_last() =~= made);
                assert(more.last() == t);
                assert(lsm_model::id_after(s.next_file_id, (more.len() - 1) as nat)
                    == lsm_model::id_after(s.next_file_id, made.len()));
                assert(s.pending + lsm_model::write_ops(slots.push(slot)) =~= (s.pending
                    + lsm_model::write_ops(slots)).push(
                    DiskOpView::WriteTable { path: slot.path, file: slot.table.data },
                ));
                assert forall|i: int| 0 <= i < more.len() implies lsm_model::built(
                    old(self).sizing,
                    #[trigger] more[i],
                    runs@[i],
                ) by {
                    if i < k {
                        assert(more[i] == made[i]);
                    }
                }
                made = more;
            }
        }
        (tables, Ghost(made))
    }

    /// Queues the removal of files.
    fn remove_all(&mut self, paths: Vec<Vec<u8>>, ts: Ghost<Seq<Slot>>)
        requires
            paths@.len() == ts@.len(),
            forall|i: int| 0 <= i < paths@.len() ==> (#[trigger] paths@[i])@ == ts@[i].path,
        ensures
            final(self).sizing == old(self).sizing,
            final(self).active == old(self).active,
            final(self)@ == (LsmView {
                pending: old(self)@.pending + lsm_model::remove_ops(ts@),
                ..old(self)@
            }),
    {
        let ghost s = self@;
        let mut i: usize = 0;
        assert(s.pending + lsm_model::remove_ops(ts@.take(0)) =~= s.pending);
        while i < paths.len()
            invariant
                s == old(self)@,
                i <= paths@.len(),
                paths@.len() == ts@.len(),
                forall|k: int| 0 <= k < paths@.len() ==> (#[trigger] paths@[k])@ == ts@[k].path,
                self.sizing == old(self).sizing,
                self.active == old(self).active,
                self@ == (LsmView {
                    pending: s.pending + lsm_model::remove_ops(ts@.take(i as int)),
                    ..s
                }),
            decreases paths@.len() - i,
        {
            op(&mut self.pending, DiskOp::Remove(bytes::copy_bytes(paths[i].as_slice())));
            proof {
                assert(s.pending + lsm_model::remove_ops(ts@.take(i + 1)) =~= (s.pending
                    + lsm_model::remove_ops(ts@.take(i as int))).push(
                    DiskOpView::Remove(ts@[i as int].path),
                ));
            }
            i = i + 1;
        }
        assert(ts@.take(i as int) =~= ts@);
    }
}

/// The paths from a place on.
fn copy_from(paths: &[Vec<u8>], from: usize) -> (r: Vec<Vec<u8>>)
    requires
        from <= paths@.len(),
    ensures
        r@.len() == paths@.len() - from,
        forall|k: int| 0 <= k < r@.len() ==> (#[trigger] r@[k])@ == paths@[k + from]@,
{
    let mut r: Vec<Vec<u8>> = Vec::new();
    let mut i: usize = from;
    while i < paths.len()
        invariant
            from <= i <= paths@.len(),
            r@.len() == i - from,
            forall|k: int| 0 <= k < r@.len() ==> (#[trigger] r@[k])@ == paths@[k + from]@,
        decreases paths@.len() - i,
    {
        r.push(bytes::copy_bytes(paths[i].as_slice()));
        i = i + 1;
    }
    r
}

/// The tables of both, in their order.
fn join_tables(a: Vec<Table>, b: Vec<Table>) -> (r: Vec<Table>)
    ensures
        lsm_model::slots(r@) == lsm_model::slots(a@) + lsm_model::slots(b@),
{
    let ghost all = lsm_model::slots(a@) + lsm_model::slots(b@);
    let mut r = a;
    let mut rest = b;
    r.append(&mut rest);
    assert(lsm_model::slots(r@) =~= all);
    r
}

/// Merges the tables of a compaction.
fn merge_tables(
    inputs: &[Table],
    below: &[Table],
    picked: &[usize],
    watermark: HlcTimestamp,
    is_last_level: bool,
    s: Ghost<LsmView>,
    level: Ghost<int>,
) -> (r: (Vec<SsTableWriter>, Vec<Vec<u8>>))
    requires
        lsm_model::tables_ok(s@.levels),
        0 <= level@ < 6,
        s@.levels.len() >= 7,
        is_last_level == (level@ + 1 == 6),
        lsm_model::slots(inputs@) == s@.levels[level@],
        forall|k: int| 0 <= k < picked@.len() ==> (#[trigger] picked@[k]) < below@.len(),
        picked@.map_values(|p: usize| below@[p as int]@) == lsm_model::overlapping(
            s@.levels[level@],
            s@.levels[level@ + 1],
        ),
    ensures
        compaction::writers_hold(r.0@, s@.new_runs(level@, watermark)),
        forall|i: int|
            0 <= i < s@.new_runs(level@, watermark).len() ==> lsm_model::storable(
                #[trigger] s@.new_runs(level@, watermark)[i],
            ),
        r.1@.len() == s@.merged_tables(level@).len(),
        forall|k: int|
            0 <= k < r.1@.len() ==> (#[trigger] r.1@[k])@ == s@.merged_tables(level@)[k].path,
{
    let ghost merged = s@.merged_tables(level@);
    let (readers, paths) = gather(inputs, below, picked);
    let ghost runs = lsm_model::slot_runs(merged);
    proof {
        lemma_merged_tables(s@, level@);
        assert forall|k: int| 0 <= k < readers@.len() implies (#[trigger] readers@[k])@.ok() by {
            assert(merged[k].table.ok());
        }
        assert(compaction::runs_of(readers@) =~= runs);
        lsm_model::lemma_new_runs_storable(runs, watermark, is_last_level);
    }
    let writers = compaction::compact_files(
        readers.as_slice(),
        watermark,
        is_last_level,
        MAX_FILE_SIZE,
    );
    (writers, paths)
}

impl<F: Fn(usize) -> (usize, usize)> LsmStorage<F> {
    /// Takes the tables of a level, and of the one below.
    fn take_levels(&mut self, level: usize) -> (r: (Vec<Table>, Vec<Table>))
        requires
            level < 6,
            old(self)@.levels.len() >= 7,
        ensures
            final(self).sizing == old(self).sizing,
            final(self).active == old(self).active,
            lsm_model::slots(r.0@) == old(self)@.levels[level as int],
            lsm_model::slots(r.1@) == old(self)@.levels[level + 1],
            final(self)@ == (LsmView {
                levels: old(self)@.levels.update(level as int, Seq::empty()).update(
                    level + 1,
                    Seq::empty(),
                ),
                ..old(self)@
            }),
    {
        let ghost s = self@;
        let inputs = self.take_level(level);
        let below = self.take_level(level + 1);
        assert(s.levels.update(level as int, Seq::empty())[level + 1] == s.levels[level + 1]);
        (inputs, below)
    }

    /// Takes the tables of a level.
    fn take_level(&mut self, level: usize) -> (r: Vec<Table>)
        requires
            level < old(self)@.levels.len(),
        ensures
            final(self).sizing == old(self).sizing,
            final(self).active == old(self).active,
            lsm_model::slots(r@) == old(self)@.levels[level as int],
            final(self)@ == (LsmView {
                levels: old(self)@.levels.update(level as int, Seq::empty()),
                ..old(self)@
            }),
    {
        let ghost s = self@;
        let ghost whole = self.levels@;
        let mut taken: Vec<Table> = Vec::new();
        assert(lsm_model::slots(taken@) =~= Seq::empty());
        let ghost none = taken;
        std::mem::swap(&mut taken, &mut self.levels[level]);
        proof {
            assert(self.levels@ =~= whole.update(level as int, none));
            assert(lsm_model::level_slots(self.levels@) =~= s.levels.update(
                level as int,
                Seq::empty(),
            ));
        }
        taken
    }

    /// Sets the tables of a level.
    fn put_level(&mut self, level: usize, tables: Vec<Table>)
        requires
            level < old(self)@.levels.len(),
        ensures
            final(self).sizing == old(self).sizing,
            final(self).active == old(self).active,
            final(self)@ == (LsmView {
                levels: old(self)@.levels.update(level as int, lsm_model::slots(tables@)),
                ..old(self)@
            }),
    {
        let ghost s = self@;
        self.levels.set(level, tables);
        proof {
            assert(lsm_model::level_slots(self.levels@) =~= s.levels.update(
                level as int,
                lsm_model::slots(tables@),
            ));
        }
    }
}

/// Where the tables agree with their versions, so do those that move.
proof fn lemma_compacted_ok(
    s: LsmView,
    level: int,
    made: Seq<TableView>,
)
    requires
        lsm_model::tables_ok(s.levels),
        0 <= level < 6,
        s.levels.len() >= 7,
        forall|i: int| 0 <= i < made.len() ==> (#[trigger] made[i]).ok(),
    ensures
        lsm_model::tables_ok(s.compacted(level, made).levels),
        s.compacted(level, made).levels.len() == s.levels.len(),
{
    let over = lsm_model::overlapping(s.levels[level], s.levels[level + 1]);
    let fresh = lsm_model::new_slots(s.dir, s.next_file_id, made);
    let stays = |t: Slot| !lsm_model::names_path(over, t.path);
    let below = s.levels[level + 1];
    let stay = below.filter(stays);
    lsm_model::lemma_new_slots(s.dir, s.next_file_id, made);
    let all = stay + fresh;
    assert forall|i: int| 0 <= i < all.len() implies (#[trigger] all[i]).table.ok() by {
        if i < stay.len() {
            lsm_model::lemma_filter_from(below, stays, i);
            let q = choose|q: int| 0 <= q < below.len() && below[q] == stay[i];
            assert(s.levels[level + 1][q].table.ok());
        } else {
            assert(all[i] == fresh[i - stay.len()]);
        }
    }
    lsm_model::lemma_sorted_by_min_ok(all);
    let after = s.compacted(level, made).levels;
    assert forall|i: int, j: int| 0 <= i < after.len() && 0 <= j < after[i].len() implies (
    #[trigger] after[i][j]).table.ok() by {
        if i != level && i != level + 1 {
            assert(after[i][j] == s.levels[i][j]);
        }
    }
}

impl<F: Fn(usize) -> (usize, usize)> LsmStorage<F> {
    /// Merges a level into the one below, dropping what no read at or above
    /// the watermark can need.
    pub fn trigger_compaction(&mut self, level: usize, watermark: HlcTimestamp)
        requires
            old(self).wf(),
        ensures
            final(self).wf(),
            final(self).sizing() == old(self).sizing(),
            lsm_model::after_compaction(
                old(self).sizing(),
                old(self)@,
                level as int,
                watermark,
                final(self)@,
            ),
    {
        if level >= 6 {
            return;
        }
        if self.levels[level].len() == 0 {
            return;
        }
        let ghost s = self@;
        let ghost top = s.levels[level as int];
        let ghost low = s.levels[level + 1];
        let ghost over = lsm_model::overlapping(top, low);
        let ghost merged = s.merged_tables(level as int);
        let (inputs, below) = self.take_levels(level);
        let picked = find_overlapping(inputs.as_slice(), below.as_slice());
        let (writers, paths) = merge_tables(
            inputs.as_slice(),
            below.as_slice(),
            picked.as_slice(),
            watermark,
            level + 1 == 6,
            Ghost(s),
            Ghost(level as int),
        );
        let (fresh, made) = self.close_all(writers, Ghost(s.new_runs(level as int, watermark)));
        let gone = copy_from(paths.as_slice(), inputs.len());
        let ghost fresh_slots = lsm_model::slots(fresh@);
        proof {
            assert forall|k: int| 0 <= k < gone@.len() implies (#[trigger] gone@[k])@
                == over[k].path by {
                assert(merged[k + top.len()] == over[k]);
            }
        }
        let stay = keep_rest(below, gone.as_slice(), Ghost(over));
        let sorted = sort_by_min(join_tables(stay, fresh));
        self.put_level(level + 1, sorted);
        let m = make_manifest(self.next_file_id, self.levels.as_slice());
        op(&mut self.pending, m);
        self.remove_all(paths, Ghost(merged));
        proof {
            lemma_compacted_ok(s, level as int, made@);
            let done = s.compacted(level as int, made@);
            assert(self@.levels =~= done.levels);
            assert(self@ =~= done);
        }
    }

    /// Lets versions go that no read at or above `ts` can need.
    pub fn compact_below(&mut self, ts: HlcTimestamp)
        requires
            old(self).wf(),
        ensures
            final(self).wf(),
            final(self).sizing() == old(self).sizing(),
            exists|mid: LsmView|
                #![trigger lsm_model::after_compaction(old(self).sizing(), mid, 1, ts, final(self)@)]
                lsm_model::after_compaction(
                    old(self).sizing(),
                    (LsmView { watermark: ts, ..old(self)@ }),
                    0,
                    ts,
                    mid,
                ) && lsm_model::after_compaction(old(self).sizing(), mid, 1, ts, final(self)@),
    {
        let ghost start = LsmView { watermark: ts, ..self@ };
        self.watermark = ts;
        assert(self@ =~= start);
        self.trigger_compaction(0, ts);
        let ghost mid = self@;
        self.trigger_compaction(1, ts);
        proof {
            assert(lsm_model::after_compaction(old(self).sizing(), mid, 1, ts, self@));
        }
    }
}

/// The runs that a compaction merges are in order, and fit.
proof fn lemma_merged_tables(s: LsmView, level: int)
    requires
        lsm_model::tables_ok(s.levels),
        0 <= level < 6,
        s.levels.len() >= 7,
    ensures
        forall|k: int|
            0 <= k < s.merged_tables(level).len() ==> (#[trigger] s.merged_tables(
                level,
            )[k]).table.ok(),
        compaction_laws::all_sorted(lsm_model::slot_runs(s.merged_tables(level))),
        forall|i: int, j: int|
            0 <= i < s.merged_tables(level).len() && 0 <= j < lsm_model::slot_runs(
                s.merged_tables(level),
            )[i].len() ==> block::version_fits(
                #[trigger] lsm_model::slot_runs(s.merged_tables(level))[i][j],
            ),
{
    let top = s.levels[level];
    let low = s.levels[level + 1];
    let over = lsm_model::overlapping(top, low);
    let merged = s.merged_tables(level);
    let pick = |t: Slot|
        lsm_model::overlaps(t, lsm_model::least_min(top), lsm_model::greatest_max(top));
    assert forall|k: int| 0 <= k < merged.len() implies (#[trigger] merged[k]).table.ok() by {
        if k < top.len() {
            assert(s.levels[level][k].table.ok());
        } else {
            lsm_model::lemma_filter_from(low, pick, k - top.len());
            let q = choose|q: int| 0 <= q < low.len() && low[q] == over[k - top.len()];
            assert(s.levels[level + 1][q].table.ok());
        }
    }
    let runs = lsm_model::slot_runs(merged);
    assert forall|i: int| 0 <= i < runs.len() implies key::sorted(#[trigger] runs[i]) by {
        assert(merged[i].table.ok());
    }
    assert forall|i: int, j: int| 0 <= i < merged.len() && 0 <= j < runs[i].len() implies block::version_fits(
        #[trigger] runs[i][j],
    ) by {
        lsm_model::lemma_table_versions_fit(merged[i].table);
        assert(runs[i] == merged[i].table.run());
    }
}

} // verus!
