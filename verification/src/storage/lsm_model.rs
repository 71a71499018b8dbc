//! The storage engine's state as a mathematical value, and what each operation
//! does to it.
use crate::bytes;
use crate::decimal;
use crate::storage::block;
use crate::storage::compaction;
use crate::storage::compaction_laws;
use crate::storage::key;
use crate::storage::key::Version;
use crate::storage::manifest;
use crate::storage::memtable;
use crate::storage::reader;
use crate::storage::reader::{SsTableReader, TableView};
use crate::storage::roundtrip;
use crate::storage::scan;
use crate::storage::sstable;
use crate::storage::timestamp::HlcTimestamp;
use crate::storage::wal;
use crate::storage::wal::RecordView;
use vstd::prelude::*;

verus! {

/// New tables are about this large.
pub const MAX_FILE_SIZE: usize = 2097152;

/// A table and the path of its file.
pub struct Table {
    pub path: Vec<u8>,
    pub reader: SsTableReader,
}

/// A table as a mathematical value.
#[verifier::ext_equal]
pub struct Slot {
    pub path: Seq<u8>,
    pub table: TableView,
}

impl View for Table {
    type V = Slot;

    open spec fn view(&self) -> Slot {
        Slot { path: self.path@, table: self.reader@ }
    }
}

pub open spec fn slots(v: Seq<Table>) -> Seq<Slot> {
    v.map_values(|t: Table| t@)
}

/// Something to be done on disk.
#[derive(Debug)]
pub enum DiskOp {
    /// Append to the active log.
    AppendLog(Vec<u8>),
    /// Rename the active log to this path, and start an empty one.
    FreezeLog(Vec<u8>),
    /// Replace the active log by an empty one.
    ResetLog,
    /// Write a table's file.
    WriteTable { path: Vec<u8>, file: Vec<u8> },
    /// Replace the manifest.
    WriteManifest(Vec<u8>),
    /// Remove a file.
    Remove(Vec<u8>),
}

#[verifier::ext_equal]
pub enum DiskOpView {
    AppendLog(Seq<u8>),
    FreezeLog(Seq<u8>),
    ResetLog,
    WriteTable { path: Seq<u8>, file: Seq<u8> },
    WriteManifest(Seq<u8>),
    Remove(Seq<u8>),
}

impl View for DiskOp {
    type V = DiskOpView;

    open spec fn view(&self) -> DiskOpView {
        match self {
            DiskOp::AppendLog(b) => DiskOpView::AppendLog(b@),
            DiskOp::FreezeLog(p) => DiskOpView::FreezeLog(p@),
            DiskOp::ResetLog => DiskOpView::ResetLog,
            DiskOp::WriteTable { path, file } => DiskOpView::WriteTable {
                path: path@,
                file: file@,
            },
            DiskOp::WriteManifest(b) => DiskOpView::WriteManifest(b@),
            DiskOp::Remove(p) => DiskOpView::Remove(p@),
        }
    }
}

pub open spec fn op_views(v: Seq<DiskOp>) -> Seq<DiskOpView> {
    v.map_values(|o: DiskOp| o@)
}

/// The engine's state as a mathematical value.
#[verifier::ext_equal]
pub struct LsmView {
    pub dir: Seq<u8>,
    pub active: Seq<Version>,
    pub active_bytes: usize,
    pub levels: Seq<Seq<Slot>>,
    pub next_file_id: u64,
    pub watermark: HlcTimestamp,
    pub max_memtable_size: usize,
    pub pending: Seq<DiskOpView>,
}

/// `.sst`
pub open spec fn table_suffix() -> Seq<u8> {
    seq![46u8, 115, 115, 116]
}

/// `wal_imm_`
pub open spec fn frozen_prefix() -> Seq<u8> {
    seq![119u8, 97, 108, 95, 105, 109, 109, 95]
}

/// `.log`
pub open spec fn log_suffix() -> Seq<u8> {
    seq![46u8, 108, 111, 103]
}

/// The path of a table's file.
pub open spec fn table_path(dir: Seq<u8>, id: u64) -> Seq<u8> {
    dir + decimal::decimal(id as nat) + table_suffix()
}

/// The path of a frozen log.
pub open spec fn frozen_path(dir: Seq<u8>, id: u64) -> Seq<u8> {
    dir + frozen_prefix() + decimal::decimal(id as nat) + log_suffix()
}

/// The paths of the tables of each level.
pub open spec fn paths_of(levels: Seq<Seq<Slot>>) -> Seq<Seq<Seq<u8>>> {
    levels.map_values(|l: Seq<Slot>| l.map_values(|s: Slot| s.path))
}

/// The manifest of a state.
pub open spec fn manifest_of(s: LsmView) -> DiskOpView {
    DiskOpView::WriteManifest(manifest::manifest_bytes(s.next_file_id, paths_of(s.levels)))
}

/// The number behind a file number; numbers wrap around.
pub open spec fn next_id(id: u64) -> u64 {
    id.wrapping_add(1)
}

/// A sizing says how many bits and hashes the filter for a number of keys has;
/// it always gives it some bits.
pub open spec fn sizing_ok<F: Fn(usize) -> (usize, usize)>(f: F) -> bool {
    &&& forall|n: usize| #[trigger] call_requires(f, (n,))
    &&& forall|n: usize, r: (usize, usize)| #[trigger]
        call_ensures(f, (n,), r) ==> 0 < r.0 <= usize::MAX - 8
}

/// The table is the one that a writer makes of the run, with a filter of the
/// size that the sizing says.
pub open spec fn built<F: Fn(usize) -> (usize, usize)>(
    f: F,
    t: TableView,
    run: Seq<Version>,
) -> bool {
    &&& t.ok()
    &&& t.run() == run
    &&& exists|shape: (usize, usize), bits: Seq<u8>, k: nat|
        #![trigger sstable::filter_for(bits, k, sstable::users(run), shape.0, shape.1)]
        call_ensures(f, (sstable::users(run).len() as usize,), shape) && sstable::filter_for(
            bits,
            k,
            sstable::users(run),
            shape.0,
            shape.1,
        ) && t == roundtrip::table_of(sstable::blocks_of(run), bits, k)
}

/// A run that can become a table: in order, and within the sizes that the
/// file's fields can say.
pub open spec fn storable(run: Seq<Version>) -> bool {
    &&& key::sorted(run)
    &&& run.len() < 0x1_0000_0000
    &&& forall|i: int| 0 <= i < run.len() ==> block::version_fits(#[trigger] run[i])
}

/// A run is cut into at most as many blocks as it has versions.
pub proof fn lemma_block_count(blocks: Seq<Seq<Version>>)
    requires
        forall|i: int| 0 <= i < blocks.len() ==> (#[trigger] blocks[i]).len() > 0,
    ensures
        blocks.len() <= sstable::join(blocks).len(),
    decreases blocks.len(),
{
    if blocks.len() > 0 {
        assert(blocks[blocks.len() - 1].len() > 0);
        assert forall|i: int| 0 <= i < blocks.drop_last().len() implies (
        #[trigger] blocks.drop_last()[i]).len() > 0 by {
            assert(blocks.drop_last()[i] == blocks[i]);
        }
        lemma_block_count(blocks.drop_last());
    }
}

/// The versions of a block are versions of the run.
pub proof fn lemma_blocks_fit(blocks: Seq<Seq<Version>>)
    requires
        forall|p: int|
            0 <= p < sstable::join(blocks).len() ==> block::version_fits(
                #[trigger] sstable::join(blocks)[p],
            ),
    ensures
        forall|i: int, j: int|
            0 <= i < blocks.len() && 0 <= j < blocks[i].len() ==> block::version_fits(
                #[trigger] blocks[i][j],
            ),
    decreases blocks.len(),
{
    if blocks.len() > 0 {
        let front = blocks.drop_last();
        let run = sstable::join(blocks);
        assert forall|p: int| 0 <= p < sstable::join(front).len() implies block::version_fits(
            #[trigger] sstable::join(front)[p],
        ) by {
            assert(sstable::join(front)[p] == run[p]);
        }
        lemma_blocks_fit(front);
        assert forall|i: int, j: int|
            0 <= i < blocks.len() && 0 <= j < blocks[i].len() implies block::version_fits(
            #[trigger] blocks[i][j],
        ) by {
            if i < front.len() {
                assert(blocks[i][j] == front[i][j]);
            } else {
                assert(blocks[i][j] == run[sstable::join(front).len() + j]);
            }
        }
    }
}

proof fn lemma_users_count(run: Seq<Version>)
    ensures
        sstable::users(run).len() <= run.len(),
    decreases run.len(),
{
    if run.len() > 0 {
        lemma_users_count(run.drop_last());
    }
}

pub open spec fn level_slots(v: Seq<Vec<Table>>) -> Seq<Seq<Slot>> {
    v.map_values(|l: Vec<Table>| slots(l@))
}

/// Every table of every level agrees with its versions.
pub open spec fn tables_ok(levels: Seq<Seq<Slot>>) -> bool {
    forall|i: int, j: int|
        0 <= i < levels.len() && 0 <= j < levels[i].len() ==> (#[trigger] levels[i][j]).table.ok()
}

// ----------------------------------------------------------------------
// Reads
// ----------------------------------------------------------------------
/// What a read finds in the tables of a level: the first that has something
/// decides.
pub open spec fn lookup_level(ts: Seq<Slot>, key: Seq<u8>, as_of: HlcTimestamp) -> Option<
    Option<Seq<u8>>,
>
    decreases ts.len(),
{
    if ts.len() == 0 {
        None
    } else {
        match reader::lookup(ts[0].table, key, as_of) {
            Some(v) => Some(v),
            None => lookup_level(ts.drop_first(), key, as_of),
        }
    }
}

/// What a read finds in the levels, from the top down.
pub open spec fn lookup_levels(levels: Seq<Seq<Slot>>, key: Seq<u8>, as_of: HlcTimestamp) -> Option<
    Option<Seq<u8>>,
>
    decreases levels.len(),
{
    if levels.len() == 0 {
        None
    } else {
        match lookup_level(levels[0], key, as_of) {
            Some(v) => Some(v),
            None => lookup_levels(levels.drop_first(), key, as_of),
        }
    }
}

/// The runs of the tables, from the top level down.
pub open spec fn table_runs(levels: Seq<Seq<Slot>>) -> Seq<Seq<Version>>
    decreases levels.len(),
{
    if levels.len() == 0 {
        Seq::empty()
    } else {
        slot_runs(levels[0]) + table_runs(levels.drop_first())
    }
}

/// The runs of tables.
pub open spec fn slot_runs(ts: Seq<Slot>) -> Seq<Seq<Version>> {
    ts.map_values(|s: Slot| s.table.run())
}

/// The runs of one level more.
pub proof fn lemma_table_runs_push(levels: Seq<Seq<Slot>>, i: int)
    requires
        0 <= i < levels.len(),
    ensures
        table_runs(levels.take(i + 1)) == table_runs(levels.take(i)) + slot_runs(levels[i]),
    decreases i,
{
    if i == 0 {
        assert(levels.take(1).drop_first() =~= Seq::empty());
        assert(levels.take(0) =~= Seq::empty());
        reveal_with_fuel(table_runs, 2);
        assert(slot_runs(levels[0]) + Seq::<Seq<Version>>::empty() =~= Seq::<
            Seq<Version>,
        >::empty() + slot_runs(levels[0]));
    } else {
        let rest = levels.drop_first();
        lemma_table_runs_push(rest, i - 1);
        assert(levels.take(i + 1).drop_first() =~= rest.take(i));
        assert(levels.take(i).drop_first() =~= rest.take(i - 1));
        assert(slot_runs(levels[0]) + (table_runs(rest.take(i - 1)) + slot_runs(levels[i]))
            =~= slot_runs(levels[0]) + table_runs(rest.take(i - 1)) + slot_runs(levels[i]));
    }
}

proof fn lemma_table_runs_sorted(levels: Seq<Seq<Slot>>)
    requires
        tables_ok(levels),
    ensures
        compaction_laws::all_sorted(table_runs(levels)),
    decreases levels.len(),
{
    if levels.len() > 0 {
        let rest = levels.drop_first();
        assert forall|i: int, j: int| 0 <= i < rest.len() && 0 <= j < rest[i].len() implies (
        #[trigger] rest[i][j]).table.ok() by {
            assert(rest[i][j] == levels[i + 1][j]);
        }
        lemma_table_runs_sorted(rest);
        let top = slot_runs(levels[0]);
        assert forall|i: int| 0 <= i < table_runs(levels).len() implies key::sorted(
            #[trigger] table_runs(levels)[i],
        ) by {
            if i < top.len() {
                assert(levels[0][i].table.ok());
            } else {
                assert(table_runs(levels)[i] == table_runs(rest)[i - top.len()]);
            }
        }
    }
}

/// All runs are in order.
pub proof fn lemma_runs_sorted(s: LsmView)
    requires
        key::sorted(s.active),
        tables_ok(s.levels),
    ensures
        compaction_laws::all_sorted(s.runs()),
{
    lemma_table_runs_sorted(s.levels);
    assert forall|i: int| 0 <= i < s.runs().len() implies key::sorted(#[trigger] s.runs()[i]) by {
        if i > 0 {
            assert(s.runs()[i] == table_runs(s.levels)[i - 1]);
        }
    }
}

impl LsmView {
    /// What a read finds: in the recent writes, or else in the tables.
    pub open spec fn lookup(self, key: Seq<u8>, as_of: HlcTimestamp) -> Option<Option<Seq<u8>>> {
        match key::visible(self.active, key, as_of) {
            Some(v) => Some(v),
            None => lookup_levels(self.levels, key, as_of),
        }
    }

    /// What a read returns.
    pub open spec fn get(self, key: Seq<u8>, as_of: HlcTimestamp) -> Option<Seq<u8>> {
        compaction_laws::read(self.lookup(key, as_of))
    }

    /// All runs, in the order in which they are searched.
    pub open spec fn runs(self) -> Seq<Seq<Version>> {
        seq![self.active] + table_runs(self.levels)
    }
}

// ----------------------------------------------------------------------
// Writes
// ----------------------------------------------------------------------
impl LsmView {
    /// One more version among the recent writes, and in the log.
    pub open spec fn written(self, r: RecordView) -> LsmView {
        LsmView {
            active: memtable::with_write(
                self.active,
                r.key,
                if r.is_delete {
                    None
                } else {
                    Some(r.value)
                },
                r.ts,
            ),
            active_bytes: if r.is_delete {
                self.active_bytes.wrapping_add(r.key.len() as usize)
            } else {
                self.active_bytes.wrapping_add(r.key.len() as usize).wrapping_add(
                    r.value.len() as usize,
                )
            },
            pending: self.pending.push(DiskOpView::AppendLog(wal::record_bytes(r))),
            ..self
        }
    }

    /// The recent writes have become the first table of the top level.
    pub open spec fn flushed(self, t: TableView) -> LsmView {
        let frozen = frozen_path(self.dir, self.next_file_id);
        let path = table_path(self.dir, self.next_file_id);
        let started = LsmView { next_file_id: next_id(self.next_file_id), ..self };
        let done = LsmView {
            active: Seq::empty(),
            active_bytes: 0,
            levels: self.levels.update(0, seq![Slot { path, table: t }] + self.levels[0]),
            ..started
        };
        LsmView {
            pending: self.pending + seq![
                DiskOpView::FreezeLog(frozen),
                manifest_of(started),
                DiskOpView::WriteTable { path, file: t.data },
                manifest_of(done),
                DiskOpView::Remove(frozen),
            ],
            ..done
        }
    }
}

/// The state after a put: the write, and a flush if the recent writes have
/// grown to the size that was set.
pub open spec fn after_put<F: Fn(usize) -> (usize, usize)>(
    f: F,
    s: LsmView,
    r: RecordView,
    t: LsmView,
) -> bool {
    let w = s.written(r);
    if w.active_bytes >= s.max_memtable_size {
        exists|made: TableView|
            #![trigger w.flushed(made)]
            built(f, made, w.active) && t == w.flushed(made)
    } else {
        t == w
    }
}

/// The state after a write: a deletion, or a put.
pub open spec fn after_write<F: Fn(usize) -> (usize, usize)>(
    f: F,
    s: LsmView,
    r: RecordView,
    t: LsmView,
) -> bool {
    if r.is_delete {
        t == s.written(r)
    } else {
        after_put(f, s, r, t)
    }
}

/// The state after several writes, one after the other.
pub open spec fn after_writes<F: Fn(usize) -> (usize, usize)>(
    f: F,
    s: LsmView,
    rs: Seq<RecordView>,
    t: LsmView,
) -> bool
    decreases rs.len(),
{
    if rs.len() == 0 {
        t == s
    } else {
        exists|mid: LsmView|
            after_writes(f, s, rs.drop_last(), mid) && #[trigger] after_write(
                f,
                mid,
                rs.last(),
                t,
            )
    }
}

/// One write more.
pub proof fn lemma_after_writes_push<F: Fn(usize) -> (usize, usize)>(
    f: F,
    s: LsmView,
    rs: Seq<RecordView>,
    mid: LsmView,
    r: RecordView,
    t: LsmView,
)
    requires
        after_writes(f, s, rs, mid),
        after_write(f, mid, r, t),
    ensures
        after_writes(f, s, rs.push(r), t),
{
    let all = rs.push(r);
    assert(all.drop_last() =~= rs);
    assert(after_writes(f, s, all.drop_last(), mid) && after_write(f, mid, all.last(), t));
}

// ----------------------------------------------------------------------
// Compaction
// ----------------------------------------------------------------------
/// The least first user key of the tables.
pub open spec fn least_min(ts: Seq<Slot>) -> Seq<u8>
    decreases ts.len(),
{
    if ts.len() <= 1 {
        ts[0].table.min.user
    } else {
        let m = least_min(ts.drop_last());
        if bytes::lex_lt(ts.last().table.min.user, m) {
            ts.last().table.min.user
        } else {
            m
        }
    }
}

/// The greatest last user key of the tables.
pub open spec fn greatest_max(ts: Seq<Slot>) -> Seq<u8>
    decreases ts.len(),
{
    if ts.len() <= 1 {
        ts[0].table.max.user
    } else {
        let m = greatest_max(ts.drop_last());
        if bytes::lex_lt(m, ts.last().table.max.user) {
            ts.last().table.max.user
        } else {
            m
        }
    }
}

/// The table has keys between `min` and `max`, going by its range.
pub open spec fn overlaps(s: Slot, min: Seq<u8>, max: Seq<u8>) -> bool {
    !(bytes::lex_lt(s.table.max.user, min) || bytes::lex_lt(max, s.table.min.user))
}

/// The tables of the level below that a compaction takes in.
pub open spec fn overlapping(inputs: Seq<Slot>, below: Seq<Slot>) -> Seq<Slot> {
    below.filter(|s: Slot| overlaps(s, least_min(inputs), greatest_max(inputs)))
}

/// The paths of the tables hold this one.
pub open spec fn names_path(ts: Seq<Slot>, path: Seq<u8>) -> bool {
    exists|i: int| 0 <= i < ts.len() && (#[trigger] ts[i]).path == path
}

/// A table put in its place by its first user key, behind its equals.
pub open spec fn insert_by_min(ts: Seq<Slot>, s: Slot) -> Seq<Slot>
    decreases ts.len(),
{
    if ts.len() > 0 && bytes::lex_lt(s.table.min.user, ts.last().table.min.user) {
        insert_by_min(ts.drop_last(), s).push(ts.last())
    } else {
        ts.push(s)
    }
}

/// Tables in the order of their first user keys; equals keep their order.
pub open spec fn sorted_by_min(ts: Seq<Slot>) -> Seq<Slot>
    decreases ts.len(),
{
    if ts.len() == 0 {
        Seq::empty()
    } else {
        insert_by_min(sorted_by_min(ts.drop_last()), ts.last())
    }
}

/// New tables, with paths of consecutive file numbers.
pub open spec fn new_slots(dir: Seq<u8>, id: u64, made: Seq<TableView>) -> Seq<Slot>
    decreases made.len(),
{
    if made.len() == 0 {
        Seq::empty()
    } else {
        new_slots(dir, id, made.drop_last()).push(
            Slot {
                path: table_path(dir, id_after(id, (made.len() - 1) as nat)),
                table: made.last(),
            },
        )
    }
}

/// The file number `n` steps behind `id`.
pub open spec fn id_after(id: u64, n: nat) -> u64
    decreases n,
{
    if n == 0 {
        id
    } else {
        next_id(id_after(id, (n - 1) as nat))
    }
}

/// The files of tables are written.
pub open spec fn write_ops(ts: Seq<Slot>) -> Seq<DiskOpView> {
    ts.map_values(|s: Slot| DiskOpView::WriteTable { path: s.path, file: s.table.data })
}

/// The files of tables are removed.
pub open spec fn remove_ops(ts: Seq<Slot>) -> Seq<DiskOpView> {
    ts.map_values(|s: Slot| DiskOpView::Remove(s.path))
}

impl LsmView {
    /// There is something to compact.
    pub open spec fn compacts(self, level: int) -> bool {
        0 <= level < 6 && self.levels[level].len() > 0
    }

    /// The tables that a compaction of the level merges.
    pub open spec fn merged_tables(self, level: int) -> Seq<Slot> {
        self.levels[level] + overlapping(self.levels[level], self.levels[level + 1])
    }

    /// The runs of the tables that a compaction of the level makes.
    pub open spec fn new_runs(self, level: int, watermark: HlcTimestamp) -> Seq<Seq<Version>> {
        compaction::compacted(
            slot_runs(self.merged_tables(level)),
            watermark,
            level + 1 == 6,
            MAX_FILE_SIZE,
        )
    }

    /// The level has moved down into the next one.
    pub open spec fn compacted(self, level: int, made: Seq<TableView>) -> LsmView {
        let over = overlapping(self.levels[level], self.levels[level + 1]);
        let fresh = new_slots(self.dir, self.next_file_id, made);
        let stay = self.levels[level + 1].filter(|s: Slot| !names_path(over, s.path));
        let done = LsmView {
            levels: self.levels.update(level, Seq::empty()).update(
                level + 1,
                sorted_by_min(stay + fresh),
            ),
            next_file_id: id_after(self.next_file_id, made.len()),
            ..self
        };
        LsmView {
            pending: self.pending + write_ops(fresh) + seq![manifest_of(done)] + remove_ops(
                self.merged_tables(level),
            ),
            ..done
        }
    }
}

/// The state after a compaction of a level, if there was anything to compact.
pub open spec fn after_compaction<F: Fn(usize) -> (usize, usize)>(
    f: F,
    s: LsmView,
    level: int,
    watermark: HlcTimestamp,
    t: LsmView,
) -> bool {
    if s.compacts(level) {
        let runs = s.new_runs(level, watermark);
        exists|made: Seq<TableView>|
            #![trigger s.compacted(level, made)]
            made.len() == runs.len() && (forall|i: int|
                0 <= i < made.len() ==> built(f, #[trigger] made[i], runs[i])) && t
                == s.compacted(level, made)
    } else {
        t == s
    }
}

/// The versions of a block have lengths that fit its fields.
pub proof fn lemma_block_versions_fit(b: Seq<u8>)
    ensures
        forall|i: int|
            0 <= i < block::block_versions(b).len() ==> block::version_fits(
                #[trigger] block::block_versions(b)[i],
            ),
    decreases b.len(),
{
    if b.len() > 0 && block::entry_ok(b) {
        let rest = block::after_entry(b);
        lemma_block_versions_fit(rest);
        bytes::lemma_pow256();
        bytes::lemma_le_value_bound(b.subrange(13, 17));
        bytes::lemma_le_value_bound(b.subrange(17, 21));
        let vs = block::block_versions(b);
        assert forall|i: int| 0 <= i < vs.len() implies block::version_fits(#[trigger] vs[i]) by {
            if i > 0 {
                assert(vs[i] == block::block_versions(rest)[i - 1]);
            }
        }
    }
}

/// The versions of a table have lengths that fit its fields.
pub proof fn lemma_table_versions_fit(t: TableView)
    ensures
        forall|p: int| 0 <= p < t.run().len() ==> block::version_fits(#[trigger] t.run()[p]),
{
    let blocks = t.blocks();
    assert forall|i: int, j: int|
        0 <= i < blocks.len() && 0 <= j < blocks[i].len() implies block::version_fits(
        #[trigger] blocks[i][j],
    ) by {
        lemma_block_versions_fit(t.block_data(i));
    }
    lemma_join_all_fit(blocks);
}

proof fn lemma_join_all_fit(blocks: Seq<Seq<Version>>)
    requires
        forall|i: int, j: int|
            0 <= i < blocks.len() && 0 <= j < blocks[i].len() ==> block::version_fits(
                #[trigger] blocks[i][j],
            ),
    ensures
        forall|p: int|
            0 <= p < sstable::join(blocks).len() ==> block::version_fits(
                #[trigger] sstable::join(blocks)[p],
            ),
    decreases blocks.len(),
{
    if blocks.len() > 0 {
        let front = blocks.drop_last();
        let n = blocks.len() - 1;
        assert forall|i: int, j: int|
            0 <= i < front.len() && 0 <= j < front[i].len() implies block::version_fits(
            #[trigger] front[i][j],
        ) by {
            assert(front[i][j] == blocks[i][j]);
        }
        lemma_join_all_fit(front);
        let run = sstable::join(blocks);
        assert forall|p: int| 0 <= p < run.len() implies block::version_fits(#[trigger] run[p]) by {
            let m = sstable::join(front).len();
            if p < m {
                assert(run[p] == sstable::join(front)[p]);
            } else {
                assert(run[p] == blocks[n][p - m]);
            }
        }
    }
}

/// The versions of a merge are versions of the runs.
proof fn lemma_merge_fits(runs: Seq<Seq<Version>>)
    requires
        forall|i: int, j: int|
            0 <= i < runs.len() && 0 <= j < runs[i].len() ==> block::version_fits(
                #[trigger] runs[i][j],
            ),
    ensures
        forall|p: int|
            0 <= p < compaction::merge(runs).len() ==> block::version_fits(
                #[trigger] compaction::merge(runs)[p],
            ),
    decreases compaction::total(runs),
{
    compaction::lemma_min_head(runs, runs.len() as int);
    if let Some(i) = compaction::min_head(runs, runs.len() as int) {
        let rest = compaction::advance(runs, i);
        compaction::lemma_total_advance(runs, i);
        assert forall|a: int, b: int|
            0 <= a < rest.len() && 0 <= b < rest[a].len() implies block::version_fits(
            #[trigger] rest[a][b],
        ) by {
            if a == i {
                assert(rest[a][b] == runs[i][b + 1]);
            } else {
                assert(rest[a][b] == runs[a][b]);
            }
        }
        lemma_merge_fits(rest);
        let m = compaction::merge(runs);
        assert forall|p: int| 0 <= p < m.len() implies block::version_fits(#[trigger] m[p]) by {
            if p > 0 {
                assert(m[p] == compaction::merge(rest)[p - 1]);
            } else {
                assert(m[0] == runs[i][0]);
            }
        }
    }
}

/// What survives is in order, and made of versions of the run.
proof fn lemma_survivors_storable(
    run: Seq<Version>,
    n: int,
    watermark: HlcTimestamp,
    last: bool,
)
    requires
        key::sorted(run),
        0 <= n <= run.len(),
        forall|p: int| 0 <= p < run.len() ==> block::version_fits(#[trigger] run[p]),
    ensures
        ({
            let left = compaction::survivors(run, n, watermark, last);
            &&& key::sorted(left)
            &&& forall|p: int| 0 <= p < left.len() ==> block::version_fits(#[trigger] left[p])
            &&& forall|p: int|
                0 <= p < left.len() ==> exists|q: int|
                    0 <= q < n && #[trigger] run[q] == #[trigger] left[p]
        }),
    decreases n,
{
    if n > 0 {
        lemma_survivors_storable(run, n - 1, watermark, last);
        let front = compaction::survivors(run, n - 1, watermark, last);
        let left = compaction::survivors(run, n, watermark, last);
        assert forall|p: int| 0 <= p < left.len() implies exists|q: int|
            0 <= q < n && #[trigger] run[q] == #[trigger] left[p] by {
            if p < front.len() {
                assert(left[p] == front[p]);
                let q = choose|q: int| 0 <= q < n - 1 && #[trigger] run[q] == front[p];
                assert(run[q] == left[p]);
            } else {
                assert(run[n - 1] == left[p]);
            }
        }
        assert forall|i: int, j: int| 0 <= i < j < left.len() implies !key::key_lt(
            left[j].key,
            left[i].key,
        ) by {
            assert(left[i] == front[i]);
            if j < front.len() {
                assert(left[j] == front[j]);
            } else {
                let q = choose|q: int| 0 <= q < n - 1 && #[trigger] run[q] == front[i];
                assert(!key::key_lt(run[n - 1].key, run[q].key));
            }
        }
        assert forall|p: int| 0 <= p < left.len() implies block::version_fits(#[trigger] left[p]) by {
            if p < front.len() {
                assert(left[p] == front[p]);
            }
        }
    }
}

/// A block has at least 21 bytes for each version.
proof fn lemma_block_bytes_min(run: Seq<Version>)
    ensures
        block::block_bytes(run).len() >= 21 * run.len(),
    decreases run.len(),
{
    broadcast use crate::bytes::lemma_le_bytes_len;

    if run.len() > 0 {
        lemma_block_bytes_min(run.drop_last());
        assert(block::entry_bytes(run.last()).len() >= 21);
    }
}

/// The tables that a run is cut into are small.
proof fn lemma_cut_small(run: Seq<Version>)
    ensures
        ({
            let c = compaction::cut_of(run, MAX_FILE_SIZE);
            &&& block::block_bytes(c.open).len() < MAX_FILE_SIZE
            &&& forall|i: int| 0 <= i < c.files.len() ==> (#[trigger] c.files[i]).len() < 0x1_0000_0000
        }),
    decreases run.len(),
{
    let c = compaction::cut_of(run, MAX_FILE_SIZE);
    if run.len() > 0 {
        lemma_cut_small(run.drop_last());
        let before = compaction::cut_of(run.drop_last(), MAX_FILE_SIZE);
        lemma_block_bytes_min(before.open);
        let open = before.open.push(run.last());
        assert(open.len() < 0x1_0000_0000);
        assert forall|i: int| 0 <= i < c.files.len() implies (#[trigger] c.files[i]).len()
            < 0x1_0000_0000 by {
            if i < before.files.len() {
                assert(c.files[i] == before.files[i]);
            }
        }
        assert(block::block_bytes(Seq::<Version>::empty()).len() == 0);
    }
}

/// The runs that compaction makes can become tables.
pub proof fn lemma_new_runs_storable(
    runs: Seq<Seq<Version>>,
    watermark: HlcTimestamp,
    last: bool,
)
    requires
        compaction_laws::all_sorted(runs),
        forall|i: int, j: int|
            0 <= i < runs.len() && 0 <= j < runs[i].len() ==> block::version_fits(
                #[trigger] runs[i][j],
            ),
    ensures
        forall|i: int|
            0 <= i < compaction::compacted(runs, watermark, last, MAX_FILE_SIZE).len()
                ==> storable(
                #[trigger] compaction::compacted(runs, watermark, last, MAX_FILE_SIZE)[i],
            ),
{
    let m = compaction::merge(runs);
    compaction_laws::lemma_merge_sorted(runs);
    lemma_merge_fits(runs);
    let left = compaction::survivors(m, m.len() as int, watermark, last);
    lemma_survivors_storable(m, m.len() as int, watermark, last);
    let c = compaction::cut_of(left, MAX_FILE_SIZE);
    compaction_laws::lemma_cut_joins(left, MAX_FILE_SIZE);
    lemma_cut_small(left);
    lemma_block_bytes_min(c.open);
    let files = c.all();
    assert forall|i: int| 0 <= i < files.len() implies storable(#[trigger] files[i]) by {
        let run = files[i];
        if i < c.files.len() {
            assert(files[i] == c.files[i]);
        } else {
            assert(files[i] == c.open);
        }
        assert forall|a: int, b: int| 0 <= a < b < run.len() implies !key::key_lt(
            run[b].key,
            run[a].key,
        ) by {
            reader::lemma_join_at(files, i, a);
            reader::lemma_join_at(files, i, b);
            let s = reader::start_of(files, i);
            assert(left[s + a] == run[a] && left[s + b] == run[b]);
        }
        assert forall|a: int| 0 <= a < run.len() implies block::version_fits(#[trigger] run[a]) by {
            reader::lemma_join_at(files, i, a);
            assert(left[reader::start_of(files, i) + a] == run[a]);
        }
    }
}

// ----------------------------------------------------------------------
// Recovery
// ----------------------------------------------------------------------
/// The versions that logged operations leave.
pub open spec fn replayed(rs: Seq<RecordView>) -> Seq<Version>
    decreases rs.len(),
{
    if rs.len() == 0 {
        Seq::empty()
    } else {
        let r = rs.last();
        memtable::with_write(
            replayed(rs.drop_last()),
            r.key,
            if r.is_delete {
                None
            } else {
                Some(r.value)
            },
            r.ts,
        )
    }
}

impl LsmView {
    /// A recovered table has become the first of the top level.
    pub open spec fn with_recovered(self, t: TableView, clean_up: DiskOpView) -> LsmView {
        let path = table_path(self.dir, self.next_file_id);
        LsmView {
            levels: self.levels.update(0, seq![Slot { path, table: t }] + self.levels[0]),
            next_file_id: next_id(self.next_file_id),
            pending: self.pending + seq![
                DiskOpView::WriteTable { path, file: t.data },
                clean_up,
            ],
            ..self
        }
    }

    /// The frozen logs, with their paths, have become tables.
    pub open spec fn with_frozen(self, logs: Seq<(Seq<u8>, Seq<u8>)>, made: Seq<TableView>) -> LsmView
        decreases logs.len(),
    {
        if logs.len() == 0 {
            self
        } else {
            self.with_frozen(logs.drop_last(), made).with_recovered(
                made[logs.len() - 1],
                DiskOpView::Remove(logs.last().0),
            )
        }
    }

    /// The logs have become tables, and the manifest says so.
    pub open spec fn recovered(
        self,
        logs: Seq<(Seq<u8>, Seq<u8>)>,
        active_log: Seq<u8>,
        made: Seq<TableView>,
    ) -> LsmView {
        let s = self.with_frozen(logs, made);
        let t = if wal::recovered(active_log).len() > 0 {
            s.with_recovered(made[logs.len() as int], DiskOpView::ResetLog)
        } else {
            s
        };
        if t.next_file_id > self.next_file_id {
            LsmView { pending: t.pending.push(manifest_of(t)), ..t }
        } else {
            t
        }
    }
}

/// The tables are those of the frozen logs, and of the active one if it holds
/// anything.
pub open spec fn made_of<F: Fn(usize) -> (usize, usize)>(
    f: F,
    logs: Seq<(Seq<u8>, Seq<u8>)>,
    active_log: Seq<u8>,
    made: Seq<TableView>,
) -> bool {
    let n = logs.len();
    &&& made.len() == n + (if wal::recovered(active_log).len() > 0 {
        1nat
    } else {
        0nat
    })
    &&& forall|i: int|
        0 <= i < n ==> built(f, #[trigger] made[i], replayed(wal::recovered(logs[i].1)))
    &&& made.len() > n ==> built(f, made[n as int], replayed(wal::recovered(active_log)))
}

/// Logged operations leave one version each, in key order.
pub proof fn lemma_replayed(rs: Seq<RecordView>)
    requires
        forall|i: int| 0 <= i < rs.len() ==> wal::fits(#[trigger] rs[i]),
    ensures
        key::sorted(replayed(rs)),
        replayed(rs).len() == rs.len(),
        forall|i: int|
            0 <= i < replayed(rs).len() ==> block::version_fits(#[trigger] replayed(rs)[i]),
    decreases rs.len(),
{
    if rs.len() > 0 {
        let front = rs.drop_last();
        assert forall|i: int| 0 <= i < front.len() implies wal::fits(#[trigger] front[i]) by {
            assert(front[i] == rs[i]);
        }
        lemma_replayed(front);
        let r = rs[rs.len() - 1];
        assert(wal::fits(r));
        let value = if r.is_delete {
            None
        } else {
            Some(r.value)
        };
        lemma_write_storable(replayed(front), r.key, value, r.ts);
    }
}

/// A write keeps the run in order and adds a version that fits.
pub proof fn lemma_write_storable(
    run: Seq<Version>,
    key: Seq<u8>,
    value: Option<Seq<u8>>,
    ts: HlcTimestamp,
)
    requires
        key::sorted(run),
        forall|i: int| 0 <= i < run.len() ==> block::version_fits(#[trigger] run[i]),
        key.len() < 0x1_0000_0000,
        value matches Some(v) ==> v.len() < 0x1_0000_0000,
    ensures
        key::sorted(memtable::with_write(run, key, value, ts)),
        memtable::with_write(run, key, value, ts).len() == run.len() + 1,
        forall|i: int|
            0 <= i < run.len() + 1 ==> block::version_fits(
                #[trigger] memtable::with_write(run, key, value, ts)[i],
            ),
{
    let k = key::KeyView { user: key, ts };
    let v = Version { key: k, value };
    let p = key::place(run, k);
    key::lemma_place(run, k);
    key::lemma_insert_sorted(run, v);
    let out = memtable::with_write(run, key, value, ts);
    assert forall|i: int| 0 <= i < run.len() + 1 implies block::version_fits(#[trigger] out[i]) by {
        if i < p {
            assert(out[i] == run[i]);
        } else if i > p {
            assert(out[i] == run[i - 1]);
        } else {
            assert(out[i] == v);
        }
    }
}

/// The records of a log have lengths that fit its fields.
pub proof fn lemma_recovered_fits(b: Seq<u8>)
    ensures
        forall|i: int| 0 <= i < wal::recovered(b).len() ==> wal::fits(#[trigger] wal::recovered(b)[i]),
    decreases b.len(),
{
    if wal::whole_record(b) {
        let rest = b.skip(wal::record_len(b) as int);
        lemma_recovered_fits(rest);
        bytes::lemma_pow256();
        bytes::lemma_le_value_bound(b.subrange(13, 17));
        bytes::lemma_le_value_bound(b.subrange(17, 21));
        let rs = wal::recovered(b);
        assert forall|i: int| 0 <= i < rs.len() implies wal::fits(#[trigger] rs[i]) by {
            if i > 0 {
                assert(rs[i] == wal::recovered(rest)[i - 1]);
            }
        }
    }
}

/// A table's place by its first user key.
pub proof fn lemma_insert_by_min(ts: Seq<Slot>, s: Slot, p: int)
    requires
        0 <= p <= ts.len(),
        p > 0 ==> !bytes::lex_lt(s.table.min.user, ts[p - 1].table.min.user),
        forall|i: int|
            p <= i < ts.len() ==> bytes::lex_lt(
                s.table.min.user,
                (#[trigger] ts[i]).table.min.user,
            ),
    ensures
        insert_by_min(ts, s) == ts.insert(p, s),
    decreases ts.len(),
{
    if p < ts.len() {
        assert(ts.last() == ts[ts.len() - 1]);
        let front = ts.drop_last();
        assert forall|i: int| p <= i < front.len() implies bytes::lex_lt(
            s.table.min.user,
            (#[trigger] front[i]).table.min.user,
        ) by {
            assert(front[i] == ts[i]);
        }
        lemma_insert_by_min(front, s, p);
        assert(front.insert(p, s).push(ts.last()) =~= ts.insert(p, s));
    } else {
        assert(ts.insert(p, s) =~= ts.push(s));
    }
}

/// What a filter keeps was there.
pub proof fn lemma_filter_from(ts: Seq<Slot>, pick: spec_fn(Slot) -> bool, i: int)
    requires
        0 <= i < ts.filter(pick).len(),
    ensures
        exists|q: int| 0 <= q < ts.len() && ts[q] == ts.filter(pick)[i],
    decreases ts.len(),
{
    reveal(Seq::filter);
    if ts.len() > 0 {
        let front = ts.drop_last();
        if i < front.filter(pick).len() {
            lemma_filter_from(front, pick, i);
            let q = choose|q: int| 0 <= q < front.len() && front[q] == front.filter(pick)[i];
            assert(ts[q] == ts.filter(pick)[i]);
        } else {
            assert(ts[ts.len() - 1] == ts.filter(pick)[i]);
        }
    }
}

/// New tables are the ones that were made.
pub proof fn lemma_new_slots(dir: Seq<u8>, id: u64, made: Seq<TableView>)
    ensures
        new_slots(dir, id, made).len() == made.len(),
        forall|i: int|
            0 <= i < made.len() ==> (#[trigger] new_slots(dir, id, made)[i]).table == made[i],
    decreases made.len(),
{
    if made.len() > 0 {
        lemma_new_slots(dir, id, made.drop_last());
        assert forall|i: int| 0 <= i < made.len() implies (#[trigger] new_slots(
            dir,
            id,
            made,
        )[i]).table == made[i] by {
            if i < made.len() - 1 {
                assert(new_slots(dir, id, made)[i] == new_slots(dir, id, made.drop_last())[i]);
            }
        }
    }
}

/// Inserting adds the one table.
proof fn lemma_insert_by_min_ok(ts: Seq<Slot>, s: Slot)
    requires
        s.table.ok(),
        forall|i: int| 0 <= i < ts.len() ==> (#[trigger] ts[i]).table.ok(),
    ensures
        forall|i: int|
            0 <= i < insert_by_min(ts, s).len() ==> (#[trigger] insert_by_min(ts, s)[i]).table.ok(),
    decreases ts.len(),
{
    if ts.len() > 0 && bytes::lex_lt(s.table.min.user, ts.last().table.min.user) {
        let front = ts.drop_last();
        assert forall|i: int| 0 <= i < front.len() implies (#[trigger] front[i]).table.ok() by {
            assert(front[i] == ts[i]);
        }
        assert(ts.last() == ts[ts.len() - 1]);
        lemma_insert_by_min_ok(front, s);
        let out = insert_by_min(ts, s);
        assert forall|i: int| 0 <= i < out.len() implies (#[trigger] out[i]).table.ok() by {
            if i < out.len() - 1 {
                assert(out[i] == insert_by_min(front, s)[i]);
            }
        }
    } else {
        let out = insert_by_min(ts, s);
        assert forall|i: int| 0 <= i < out.len() implies (#[trigger] out[i]).table.ok() by {
            if i < ts.len() {
                assert(out[i] == ts[i]);
            }
        }
    }
}

/// Sorting keeps the tables.
pub proof fn lemma_sorted_by_min_ok(ts: Seq<Slot>)
    requires
        forall|i: int| 0 <= i < ts.len() ==> (#[trigger] ts[i]).table.ok(),
    ensures
        forall|i: int|
            0 <= i < sorted_by_min(ts).len() ==> (#[trigger] sorted_by_min(ts)[i]).table.ok(),
    decreases ts.len(),
{
    if ts.len() > 0 {
        let front = ts.drop_last();
        assert forall|i: int| 0 <= i < front.len() implies (#[trigger] front[i]).table.ok() by {
            assert(front[i] == ts[i]);
        }
        assert(ts.last() == ts[ts.len() - 1]);
        lemma_sorted_by_min_ok(front);
        lemma_insert_by_min_ok(sorted_by_min(front), ts.last());
    }
}

// ----------------------------------------------------------------------
// Sizes
// ----------------------------------------------------------------------
proof fn lemma_visible_fits(run: Seq<Version>, key: Seq<u8>, as_of: HlcTimestamp)
    requires
        forall|i: int| 0 <= i < run.len() ==> block::version_fits(#[trigger] run[i]),
    ensures
        key::visible(run, key, as_of) matches Some(Some(v)) ==> v.len() < 0x1_0000_0000,
        key::visible(run, key, as_of) is Some ==> key.len() < 0x1_0000_0000,
{
    key::lemma_first_match(run, key, as_of);
    let i = key::first_match(run, key, as_of);
    if i < run.len() {
        assert(block::version_fits(run[i]));
    }
}

proof fn lemma_lookup_fits(t: TableView, key: Seq<u8>, as_of: HlcTimestamp)
    ensures
        reader::lookup(t, key, as_of) matches Some(Some(v)) ==> v.len() < 0x1_0000_0000,
{
    assert forall|i: int| true implies (#[trigger] reader::lookup_block(
        t,
        i,
        key,
        as_of,
    ) matches Some(Some(v)) ==> v.len() < 0x1_0000_0000) by {
        lemma_block_versions_fit(t.block_data(i));
        lemma_visible_fits(t.block(i), key, as_of);
    }
}

proof fn lemma_lookup_level_fits(ts: Seq<Slot>, key: Seq<u8>, as_of: HlcTimestamp)
    ensures
        lookup_level(ts, key, as_of) matches Some(Some(v)) ==> v.len() < 0x1_0000_0000,
    decreases ts.len(),
{
    if ts.len() > 0 {
        lemma_lookup_fits(ts[0].table, key, as_of);
        lemma_lookup_level_fits(ts.drop_first(), key, as_of);
    }
}

proof fn lemma_lookup_levels_fits(levels: Seq<Seq<Slot>>, key: Seq<u8>, as_of: HlcTimestamp)
    ensures
        lookup_levels(levels, key, as_of) matches Some(Some(v)) ==> v.len() < 0x1_0000_0000,
    decreases levels.len(),
{
    if levels.len() > 0 {
        lemma_lookup_level_fits(levels[0], key, as_of);
        lemma_lookup_levels_fits(levels.drop_first(), key, as_of);
    }
}

/// A value that a read returns fits the fields of the files.
pub proof fn lemma_get_fits(s: LsmView, key: Seq<u8>, as_of: HlcTimestamp)
    requires
        storable(s.active),
    ensures
        s.get(key, as_of) matches Some(v) ==> v.len() < 0x1_0000_0000,
{
    lemma_visible_fits(s.active, key, as_of);
    lemma_lookup_levels_fits(s.levels, key, as_of);
}

proof fn lemma_table_runs_fit(levels: Seq<Seq<Slot>>)
    ensures
        forall|i: int, j: int|
            0 <= i < table_runs(levels).len() && 0 <= j < table_runs(levels)[i].len()
                ==> block::version_fits(#[trigger] table_runs(levels)[i][j]),
    decreases levels.len(),
{
    if levels.len() > 0 {
        let rest = levels.drop_first();
        lemma_table_runs_fit(rest);
        let top = slot_runs(levels[0]);
        let runs = table_runs(levels);
        assert forall|i: int, j: int| 0 <= i < runs.len() && 0 <= j < runs[i].len() implies block::version_fits(
            #[trigger] runs[i][j],
        ) by {
            if i < top.len() {
                lemma_table_versions_fit(levels[0][i].table);
                assert(runs[i] == levels[0][i].table.run());
            } else {
                assert(runs[i] == table_runs(rest)[i - top.len()]);
                assert(block::version_fits(table_runs(rest)[i - top.len()][j]));
            }
        }
    }
}

proof fn lemma_first_visible_fits(runs: Seq<Seq<Version>>, key: Seq<u8>, as_of: HlcTimestamp)
    requires
        forall|i: int, j: int|
            0 <= i < runs.len() && 0 <= j < runs[i].len() ==> block::version_fits(
                #[trigger] runs[i][j],
            ),
    ensures
        compaction_laws::first_visible(runs, key, as_of) is Some ==> key.len() < 0x1_0000_0000,
        compaction_laws::first_visible(runs, key, as_of) matches Some(Some(v)) ==> v.len()
            < 0x1_0000_0000,
    decreases runs.len(),
{
    if runs.len() > 0 {
        let first = runs[0];
        assert forall|j: int| 0 <= j < first.len() implies block::version_fits(
            #[trigger] first[j],
        ) by {
            assert(runs[0][j] == first[j]);
        }
        lemma_visible_fits(first, key, as_of);
        let rest = runs.drop_first();
        assert forall|i: int, j: int| 0 <= i < rest.len() && 0 <= j < rest[i].len() implies block::version_fits(
            #[trigger] rest[i][j],
        ) by {
            assert(rest[i][j] == runs[i + 1][j]);
        }
        lemma_first_visible_fits(rest, key, as_of);
    }
}

/// The keys and values that a scan shows fit the fields of the files.
pub proof fn lemma_scan_fits(
    s: LsmView,
    hits: Seq<(Seq<u8>, Seq<u8>)>,
    start: Seq<u8>,
    end: Seq<u8>,
    as_of: HlcTimestamp,
)
    requires
        storable(s.active),
        scan::is_scan(hits, s.runs(), start, end, as_of),
    ensures
        forall|i: int|
            0 <= i < hits.len() ==> (#[trigger] hits[i]).0.len() < 0x1_0000_0000 && hits[i].1.len()
                < 0x1_0000_0000,
{
    lemma_table_runs_fit(s.levels);
    let runs = s.runs();
    assert forall|i: int, j: int| 0 <= i < runs.len() && 0 <= j < runs[i].len() implies block::version_fits(
        #[trigger] runs[i][j],
    ) by {
        if i > 0 {
            assert(runs[i] == table_runs(s.levels)[i - 1]);
            assert(block::version_fits(table_runs(s.levels)[i - 1][j]));
        } else {
            assert(runs[0] == s.active);
        }
    }
    assert forall|i: int| 0 <= i < hits.len() implies (#[trigger] hits[i]).0.len() < 0x1_0000_0000
        && hits[i].1.len() < 0x1_0000_0000 by {
        let (k, v) = hits[i];
        assert(hits.contains((k, v)));
        lemma_first_visible_fits(runs, k, as_of);
    }
}

} // verus!
