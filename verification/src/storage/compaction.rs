//! Compaction: runs are merged in key order, versions that no reader can need
//! any more are dropped, and the rest is cut into tables.
use crate::bytes;
use crate::storage::block;
use crate::storage::key;
use crate::storage::key::{KeyView, MemKey, Version};
use crate::storage::reader;
use crate::storage::reader::SsTableReader;
use crate::storage::sstable;
use crate::storage::sstable::SsTableWriter;
use crate::storage::timestamp;
use crate::storage::timestamp::HlcTimestamp;
use vstd::prelude::*;

verus! {

// ----------------------------------------------------------------------
// One table after the other
// ----------------------------------------------------------------------
/// The versions of the blocks come one block after the other.
proof fn lemma_join_concat(a: Seq<Seq<Version>>, b: Seq<Seq<Version>>)
    ensures
        sstable::join(a + b) == sstable::join(a) + sstable::join(b),
    decreases b.len(),
{
    if b.len() == 0 {
        assert(a + b =~= a);
        assert(sstable::join(a) + sstable::join(b) =~= sstable::join(a));
    } else {
        lemma_join_concat(a, b.drop_last());
        assert((a + b).drop_last() =~= a + b.drop_last());
        assert(sstable::join(a + b) =~= sstable::join(a) + sstable::join(b));
    }
}

/// The versions from block `i` on are those of block `i` and those behind it.
proof fn lemma_join_skip(blocks: Seq<Seq<Version>>, i: int)
    requires
        0 <= i < blocks.len(),
    ensures
        sstable::join(blocks.skip(i)) == blocks[i] + sstable::join(blocks.skip(i + 1)),
{
    let one = seq![blocks[i]];
    assert(blocks.skip(i) =~= one + blocks.skip(i + 1));
    lemma_join_concat(one, blocks.skip(i + 1));
    assert(one.drop_last() =~= Seq::empty());
    assert(sstable::join(one.drop_last()) =~= Seq::empty());
    assert(sstable::join(one) =~= blocks[i]);
}

/// Goes through the versions of a table, block by block.
pub struct SsTableIterator<'a> {
    reader: &'a SsTableReader,
    block_idx: usize,
    entries: Vec<(MemKey, Option<Vec<u8>>)>,
    entry_idx: usize,
}

/// A version that an iterator gave, as a mathematical value.
pub open spec fn item_view(e: Option<(MemKey, Option<Vec<u8>>)>) -> Option<Version> {
    match e {
        Some(v) => Some(key::version_view(v)),
        None => None,
    }
}

/// The first version of a run.
pub open spec fn head_of(run: Seq<Version>) -> Option<Version> {
    if run.len() == 0 {
        None
    } else {
        Some(run[0])
    }
}

/// A run without its first version.
pub open spec fn tail_of(run: Seq<Version>) -> Seq<Version> {
    if run.len() == 0 {
        run
    } else {
        run.drop_first()
    }
}

impl<'a> View for SsTableIterator<'a> {
    type V = Seq<Version>;

    /// The versions that are still to come.
    closed spec fn view(&self) -> Seq<Version> {
        key::version_views(self.entries@).skip(self.entry_idx as int) + sstable::join(
            self.reader@.blocks().skip(self.block_idx as int),
        )
    }
}

impl<'a> SsTableIterator<'a> {
    pub closed spec fn wf(&self) -> bool {
        &&& self.reader@.ok()
        &&& self.block_idx <= self.reader@.index.len()
        &&& self.entry_idx <= self.entries@.len()
    }

    /// Starts at the first version of a table.
    pub fn new(reader: &'a SsTableReader) -> (r: Self)
        requires
            reader@.ok(),
        ensures
            r.wf(),
            r@ == reader@.run(),
    {
        let mut iter = SsTableIterator { reader, block_idx: 0, entries: Vec::new(), entry_idx: 0 };
        proof {
            assert(reader@.blocks().skip(0) =~= reader@.blocks());
            assert(iter@ =~= reader@.run());
        }
        iter.load_next_block();
        iter
    }

    /// Loads the next block, once the loaded one is used up.
    fn load_next_block(&mut self)
        requires
            old(self).wf(),
            old(self).entry_idx == old(self).entries@.len(),
        ensures
            final(self).wf(),
            final(self)@ == old(self)@,
            final(self)@.len() > 0 ==> final(self).entry_idx < final(self).entries@.len(),
            final(self)@.len() == 0 ==> final(self).entries@.len() == 0,
    {
        let ghost blocks = self.reader@.blocks();
        let ghost i = self.block_idx as int;
        assert(self.reader.index@.len() == self.reader@.index.len());
        if self.block_idx >= self.reader.index.len() {
            self.entries.clear();
            self.entry_idx = 0;
            proof {
                assert(blocks.skip(i) =~= Seq::empty());
                assert(sstable::join(blocks.skip(i)) =~= Seq::empty());
                assert(self@ =~= Seq::empty());
                assert(old(self)@ =~= Seq::empty());
            }
            return;
        }
        self.entries = self.reader.read_block_entries(self.block_idx);
        self.entry_idx = 0;
        self.block_idx = self.block_idx + 1;
        proof {
            lemma_join_skip(blocks, i);
            assert(blocks[i] == self.reader@.block(i));
            assert(key::version_views(self.entries@).skip(0) =~= blocks[i]);
            assert(self@ =~= old(self)@);
            assert(key::version_views(self.entries@).len() == self.entries@.len());
        }
    }

    /// The next version.
    pub fn next(&mut self) -> (r: Option<(MemKey, Option<Vec<u8>>)>)
        requires
            old(self).wf(),
        ensures
            final(self).wf(),
            item_view(r) == head_of(old(self)@),
            final(self)@ == tail_of(old(self)@),
    {
        if self.entry_idx >= self.entries.len() {
            self.load_next_block();
            if self.entries.len() == 0 {
                assert(self@ =~= Seq::empty());
                return None;
            }
        }
        let ghost all = key::version_views(self.entries@);
        let ghost i = self.entry_idx as int;
        let item = key::copy_version(&self.entries[self.entry_idx]);
        self.entry_idx = self.entry_idx + 1;
        proof {
            assert(all[i] == key::version_view(item));
            assert(all.skip(i) =~= seq![all[i]] + all.skip(i + 1));
            assert(self@ =~= old(self)@.drop_first());
        }
        Some(item)
    }
}

// ----------------------------------------------------------------------
// Several tables at once
// ----------------------------------------------------------------------
/// Among the first `n` runs, the one whose first version comes first; the
/// earliest of equals.
pub open spec fn min_head(runs: Seq<Seq<Version>>, n: int) -> Option<int>
    decreases n,
{
    if n <= 0 {
        None
    } else {
        let i = n - 1;
        match min_head(runs, n - 1) {
            None => if runs[i].len() > 0 {
                Some(i)
            } else {
                None
            },
            Some(m) => if runs[i].len() > 0 && key::key_lt(runs[i][0].key, runs[m][0].key) {
                Some(i)
            } else {
                Some(m)
            },
        }
    }
}

/// The number of versions in the runs.
pub open spec fn total(runs: Seq<Seq<Version>>) -> nat
    decreases runs.len(),
{
    if runs.len() == 0 {
        0
    } else {
        total(runs.drop_last()) + runs.last().len()
    }
}

/// The runs without the first version of run `i`.
pub open spec fn advance(runs: Seq<Seq<Version>>, i: int) -> Seq<Seq<Version>> {
    runs.update(i, runs[i].drop_first())
}

/// The merge of the runs: always the version that comes first, from the
/// earliest run that has it.
pub open spec fn merge(runs: Seq<Seq<Version>>) -> Seq<Version>
    decreases total(runs),
{
    match min_head(runs, runs.len() as int) {
        Some(i) => {
            proof {
                lemma_min_head(runs, runs.len() as int);
                lemma_total_advance(runs, i);
            }
            seq![runs[i][0]] + merge(advance(runs, i))
        },
        None => Seq::empty(),
    }
}

/// What the chosen run is.
pub proof fn lemma_min_head(runs: Seq<Seq<Version>>, n: int)
    requires
        0 <= n <= runs.len(),
    ensures
        match min_head(runs, n) {
            Some(i) => {
                &&& 0 <= i < n
                &&& runs[i].len() > 0
                &&& forall|j: int|
                    0 <= j < n && (#[trigger] runs[j]).len() > 0 ==> !key::key_lt(
                        runs[j][0].key,
                        runs[i][0].key,
                    )
                &&& forall|j: int|
                    0 <= j < i && (#[trigger] runs[j]).len() > 0 ==> key::key_lt(
                        runs[i][0].key,
                        runs[j][0].key,
                    )
            },
            None => forall|j: int| 0 <= j < n ==> (#[trigger] runs[j]).len() == 0,
        },
    decreases n,
{
    if n > 0 {
        lemma_min_head(runs, n - 1);
        let k = n - 1;
        if let Some(m) = min_head(runs, n - 1) {
            if runs[k].len() > 0 && key::key_lt(runs[k][0].key, runs[m][0].key) {
                key::lemma_key_lt_asymmetric(runs[k][0].key, runs[m][0].key);
                assert forall|j: int| 0 <= j < k && (#[trigger] runs[j]).len() > 0 implies key::key_lt(
                    runs[k][0].key,
                    runs[j][0].key,
                ) && !key::key_lt(runs[j][0].key, runs[k][0].key) by {
                    key::lemma_key_lt_total(runs[m][0].key, runs[j][0].key);
                    if runs[m][0].key != runs[j][0].key {
                        key::lemma_key_lt_transitive(
                            runs[k][0].key,
                            runs[m][0].key,
                            runs[j][0].key,
                        );
                    }
                    key::lemma_key_lt_asymmetric(runs[k][0].key, runs[j][0].key);
                }
                lemma_not_before_itself(runs[k][0].key);
            }
        } else if runs[k].len() > 0 {
            lemma_not_before_itself(runs[k][0].key);
        }
    }
}

proof fn lemma_not_before_itself(k: KeyView)
    ensures
        !key::key_lt(k, k),
{
    bytes::lemma_lex_irreflexive(k.user);
}

/// Taking a version from a run leaves one less.
pub proof fn lemma_total_advance(runs: Seq<Seq<Version>>, i: int)
    requires
        0 <= i < runs.len(),
        runs[i].len() > 0,
    ensures
        total(advance(runs, i)) == total(runs) - 1,
    decreases runs.len(),
{
    let out = advance(runs, i);
    if i == runs.len() - 1 {
        assert(out.drop_last() =~= runs.drop_last());
    } else {
        lemma_total_advance(runs.drop_last(), i);
        assert(out.drop_last() =~= advance(runs.drop_last(), i));
    }
}

/// Goes through the versions of several tables in key order.
pub struct MergeIterator<'a> {
    iters: Vec<SsTableIterator<'a>>,
    current: Vec<Option<(MemKey, Option<Vec<u8>>)>>,
}

spec fn pending(cur: Option<(MemKey, Option<Vec<u8>>)>, rest: Seq<Version>) -> Seq<Version> {
    match cur {
        Some(v) => seq![key::version_view(v)] + rest,
        None => Seq::empty(),
    }
}

impl<'a> View for MergeIterator<'a> {
    type V = Seq<Seq<Version>>;

    /// The versions of each table that are still to come.
    closed spec fn view(&self) -> Seq<Seq<Version>> {
        Seq::new(self.iters@.len(), |i: int| pending(self.current@[i], self.iters@[i]@))
    }
}

impl<'a> MergeIterator<'a> {
    pub closed spec fn wf(&self) -> bool {
        &&& self.current@.len() == self.iters@.len()
        &&& forall|i: int| 0 <= i < self.iters@.len() ==> (#[trigger] self.iters@[i]).wf()
        &&& forall|i: int|
            0 <= i < self.iters@.len() && (#[trigger] self.current@[i]) is None
                ==> self.iters@[i]@.len() == 0
    }

    /// Starts at the first version of each table.
    pub fn new(tables: &[&'a SsTableReader]) -> (r: Self)
        requires
            forall|i: int| 0 <= i < tables@.len() ==> (#[trigger] tables@[i])@.ok(),
        ensures
            r.wf(),
            r@ == runs_of(tables@),
    {
        let mut iters: Vec<SsTableIterator<'a>> = Vec::new();
        let mut current: Vec<Option<(MemKey, Option<Vec<u8>>)>> = Vec::new();
        let mut i: usize = 0;
        while i < tables.len()
            invariant
                i <= tables@.len(),
                iters@.len() == i,
                current@.len() == i,
                forall|j: int| 0 <= j < tables@.len() ==> (#[trigger] tables@[j])@.ok(),
                forall|j: int| 0 <= j < i ==> (#[trigger] iters@[j]).wf(),
                forall|j: int|
                    0 <= j < i && (#[trigger] current@[j]) is None ==> iters@[j]@.len() == 0,
                forall|j: int|
                    0 <= j < i ==> pending(#[trigger] current@[j], iters@[j]@)
                        == tables@[j]@.run(),
            decreases tables@.len() - i,
        {
            assert(tables@[i as int]@.ok());
            let mut iter = SsTableIterator::new(tables[i]);
            let ghost run = iter@;
            let first = iter.next();
            assert(pending(first, iter@) =~= run);
            iters.push(iter);
            current.push(first);
            i = i + 1;
        }
        let r = MergeIterator { iters, current };
        proof {
            assert forall|j: int| 0 <= j < r@.len() implies r@[j] == runs_of(tables@)[j] by {
                assert(r@[j] == pending(r.current@[j], r.iters@[j]@));
            }
            assert(r@ =~= runs_of(tables@));
        }
        r
    }

    /// The next version in key order.
    pub fn next_entry(&mut self) -> (r: Option<(MemKey, Option<Vec<u8>>)>)
        requires
            old(self).wf(),
        ensures
            final(self).wf(),
            match min_head(old(self)@, old(self)@.len() as int) {
                Some(i) => item_view(r) == Some(old(self)@[i][0]) && final(self)@ == advance(
                    old(self)@,
                    i,
                ),
                None => r is None && final(self)@ == old(self)@,
            },
    {
        let ghost runs = self@;
        let mut min_idx: Option<usize> = None;
        let mut i: usize = 0;
        while i < self.current.len()
            invariant
                i <= self.current@.len(),
                self.wf(),
                runs == self@,
                match min_head(runs, i as int) {
                    Some(m) => min_idx is Some && min_idx->0 == m && m < i,
                    None => min_idx is None,
                },
            decreases self.current@.len() - i,
        {
            proof {
                assert(runs[i as int] == pending(self.current@[i as int], self.iters@[i as int]@));
                lemma_min_head(runs, i as int);
                if let Some(m) = min_head(runs, i as int) {
                    assert(runs[m] == pending(self.current@[m], self.iters@[m]@));
                }
            }
            match &self.current[i] {
                Some(val) => {
                    match min_idx {
                        Some(m) => {
                            match &self.current[m] {
                                Some(min_val) => {
                                    if val.0.is_before(&min_val.0) {
                                        min_idx = Some(i);
                                    }
                                },
                                None => {},
                            }
                        },
                        None => {
                            min_idx = Some(i);
                        },
                    }
                },
                None => {},
            }
            i = i + 1;
        }
        match min_idx {
            Some(m) => {
                proof {
                    lemma_min_head(runs, runs.len() as int);
                    assert(runs[m as int] == pending(
                        self.current@[m as int],
                        self.iters@[m as int]@,
                    ));
                }
                let ghost rest = self.iters@[m as int]@;
                let ghost old_iters = self.iters@;
                let ghost old_current = self.current@;
                let next = self.iters[m].next();
                let result = self.current[m].take();
                self.current.set(m, next);
                proof {
                    assert(pending(next, self.iters@[m as int]@) =~= rest);
                    assert(runs[m as int].drop_first() =~= rest);
                    assert forall|j: int| 0 <= j < runs.len() implies self@[j] == advance(
                        runs,
                        m as int,
                    )[j] by {
                        assert(self@[j] == pending(self.current@[j], self.iters@[j]@));
                        if j != m {
                            assert(runs[j] == pending(old_current[j], old_iters[j]@));
                        }
                    }
                    assert(self@ =~= advance(runs, m as int));
                }
                result
            },
            None => None,
        }
    }
}

/// The runs of the tables.
pub open spec fn runs_of(tables: Seq<&SsTableReader>) -> Seq<Seq<Version>> {
    tables.map_values(|t: &SsTableReader| t@.run())
}

// ----------------------------------------------------------------------
// What is kept
// ----------------------------------------------------------------------
/// Among the versions of its user key directly in front of version `i` there
/// is one that is not newer than the watermark.
pub open spec fn shadowed(run: Seq<Version>, i: int, watermark: HlcTimestamp) -> bool
    decreases i,
{
    i > 0 && run[i - 1].key.user == run[i].key.user && (timestamp::ts_le(
        run[i - 1].key.ts,
        watermark,
    ) || shadowed(run, i - 1, watermark))
}

/// Version `i` is kept: it is not older than the watermark, or it is the one
/// that a read at the watermark sees. A deletion that only hides older versions
/// goes from the last level.
pub open spec fn kept(
    run: Seq<Version>,
    i: int,
    watermark: HlcTimestamp,
    is_last_level: bool,
) -> bool {
    !timestamp::ts_lt(run[i].key.ts, watermark) || (!shadowed(run, i, watermark) && !(
    run[i].value is None && is_last_level))
}

/// The versions among the first `n` that are kept.
pub open spec fn survivors(
    run: Seq<Version>,
    n: int,
    watermark: HlcTimestamp,
    is_last_level: bool,
) -> Seq<Version>
    decreases n,
{
    if n <= 0 {
        Seq::empty()
    } else {
        let front = survivors(run, n - 1, watermark, is_last_level);
        if kept(run, n - 1, watermark, is_last_level) {
            front.push(run[n - 1])
        } else {
            front
        }
    }
}

/// Tables that are being filled: closed ones, and the open one.
#[verifier::ext_equal]
pub struct Cut {
    pub files: Seq<Seq<Version>>,
    pub open: Seq<Version>,
}

impl Cut {
    /// One more version; the table is closed when it has reached its size.
    pub open spec fn plus(self, v: Version, max_file_size: usize) -> Cut {
        let open = self.open.push(v);
        if block::block_bytes(open).len() >= max_file_size {
            Cut { files: self.files.push(open), open: Seq::empty() }
        } else {
            Cut { files: self.files, open }
        }
    }

    /// All tables, the open one with them unless it is empty.
    pub open spec fn all(self) -> Seq<Seq<Version>> {
        if self.open.len() == 0 {
            self.files
        } else {
            self.files.push(self.open)
        }
    }
}

pub open spec fn cut_of(run: Seq<Version>, max_file_size: usize) -> Cut
    decreases run.len(),
{
    if run.len() == 0 {
        Cut { files: Seq::empty(), open: Seq::empty() }
    } else {
        cut_of(run.drop_last(), max_file_size).plus(run.last(), max_file_size)
    }
}

/// The runs of the tables that compaction makes of the given ones.
pub open spec fn compacted(
    runs: Seq<Seq<Version>>,
    watermark: HlcTimestamp,
    is_last_level: bool,
    max_file_size: usize,
) -> Seq<Seq<Version>> {
    let merged = merge(runs);
    cut_of(
        survivors(merged, merged.len() as int, watermark, is_last_level),
        max_file_size,
    ).all()
}

/// The writers hold these runs.
pub open spec fn writers_hold(ws: Seq<SsTableWriter>, runs: Seq<Seq<Version>>) -> bool {
    &&& ws.len() == runs.len()
    &&& forall|i: int|
        0 <= i < ws.len() ==> (#[trigger] ws[i]).wf() && ws[i]@ == sstable::draft_of(runs[i])
}

/// The merged versions up to here, and the merge of what is left.
proof fn lemma_merge_step(done: Seq<Version>, runs: Seq<Seq<Version>>, whole: Seq<Version>)
    requires
        whole == done + merge(runs),
    ensures
        match min_head(runs, runs.len() as int) {
            Some(i) => whole == done.push(runs[i][0]) + merge(advance(runs, i)),
            None => whole == done,
        },
{
    match min_head(runs, runs.len() as int) {
        Some(i) => {
            assert(merge(runs) == seq![runs[i][0]] + merge(advance(runs, i)));
            assert(done + merge(runs) =~= done.push(runs[i][0]) + merge(advance(runs, i)));
        },
        None => {
            assert(merge(runs) =~= Seq::empty());
            assert(done + merge(runs) =~= done);
        },
    }
}

/// Merges the tables, drops what no reader at or above the watermark can need,
/// and fills new tables of about the given size.
pub fn compact_files(
    tables: &[&SsTableReader],
    watermark: HlcTimestamp,
    is_last_level: bool,
    max_file_size: usize,
) -> (r: Vec<SsTableWriter>)
    requires
        forall|i: int| 0 <= i < tables@.len() ==> (#[trigger] tables@[i])@.ok(),
    ensures
        writers_hold(
            r@,
            compacted(runs_of(tables@), watermark, is_last_level, max_file_size),
        ),
{
    let ghost whole = merge(runs_of(tables@));
    let mut iter = MergeIterator::new(tables);
    let mut outputs: Vec<SsTableWriter> = Vec::new();
    let mut writer: SsTableWriter = SsTableWriter::new();
    let mut last_user_key: Option<Vec<u8>> = None;
    let mut has_version_le_watermark: bool = false;
    let ghost mut done = Seq::<Version>::empty();
    let ghost mut cut = Cut { files: Seq::empty(), open: Seq::empty() };
    assert(whole =~= done + merge(iter@));
    assert(survivors(whole, 0, watermark, is_last_level) =~= Seq::empty());
    loop
        invariant_except_break
            whole == done + merge(iter@),
        invariant
            iter.wf(),
            done.is_prefix_of(whole),
            whole == merge(runs_of(tables@)),
            cut == cut_of(
                survivors(whole, done.len() as int, watermark, is_last_level),
                max_file_size,
            ),
            writers_hold(outputs@, cut.files),
            writer.wf(),
            writer@ == sstable::draft_of(cut.open),
            bytes::value_view(last_user_key) == (if done.len() == 0 {
                None
            } else {
                Some(done.last().key.user)
            }),
            done.len() > 0 ==> has_version_le_watermark == (timestamp::ts_le(
                done.last().key.ts,
                watermark,
            ) || shadowed(whole, done.len() - 1, watermark)),
        ensures
            done == whole,
        decreases merge(iter@).len(),
    {
        let ghost runs = iter@;
        proof {
            lemma_merge_step(done, runs, whole);
        }
        match iter.next_entry() {
            None => {
                break;
            },
            Some((k, value)) => {
                let ghost v = Version { key: k@, value: bytes::value_view(value) };
                let ghost n = done.len() as int;
                proof {
                    assert(merge(runs).len() == 1 + merge(iter@).len());
                    assert(whole[n] == v);
                }
                let is_new_key: bool = match &last_user_key {
                    None => true,
                    Some(last) => !bytes::bytes_eq(last.as_slice(), k.user_key.as_slice()),
                };
                if is_new_key {
                    last_user_key = Some(bytes::copy_bytes(k.user_key.as_slice()));
                    has_version_le_watermark = false;
                }
                assert(has_version_le_watermark == shadowed(whole, n, watermark)) by {
                    if n > 0 {
                        assert(whole[n - 1] == done.last());
                    }
                }
                let old_version: bool = k.ts.is_before(&watermark);
                let keep: bool = if !old_version {
                    if k.ts == watermark {
                        has_version_le_watermark = true;
                    }
                    true
                } else if !has_version_le_watermark {
                    has_version_le_watermark = true;
                    !(value.is_none() && is_last_level)
                } else {
                    false
                };
                assert(keep == kept(whole, n, watermark, is_last_level));
                let ghost before = survivors(whole, n, watermark, is_last_level);
                if keep {
                    writer.add(&k, &value);
                    let ghost open = cut.open.push(v);
                    proof {
                        assert(open.drop_last() =~= cut.open);
                        assert(writer@ == sstable::draft_of(open));
                        assert(before.push(v).drop_last() =~= before);
                        lemma_draft_len(open);
                        cut = cut.plus(v, max_file_size);
                    }
                    if writer.data_len() >= max_file_size as u128 {
                        let full = writer;
                        let ghost filed = outputs@;
                        outputs.push(full);
                        writer = SsTableWriter::new();
                        assert(writers_hold(outputs@, cut.files));
                    }
                }
                proof {
                    done = done.push(v);
                    assert(done.is_prefix_of(whole));
                }
            },
        }
    }
    let ghost rest = cut.open;
    if !writer.is_empty() {
        outputs.push(writer);
    }
    proof {
        lemma_draft_len(rest);
        assert(writers_hold(outputs@, cut.all()));
    }
    outputs
}

/// The bytes of a draft are those of its run.
proof fn lemma_draft_len(run: Seq<Version>)
    ensures
        sstable::data_bytes(sstable::draft_of(run).blocks).len() + block::block_bytes(
            sstable::draft_of(run).open,
        ).len() == block::block_bytes(run).len(),
        (sstable::draft_of(run).run().len() == 0) == (run.len() == 0),
{
    crate::storage::roundtrip::lemma_draft(run);
    let d = sstable::draft_of(run);
    lemma_data_len(d.blocks);
    lemma_block_bytes_concat(sstable::join(d.blocks), d.open);
}

proof fn lemma_data_len(blocks: Seq<Seq<Version>>)
    ensures
        sstable::data_bytes(blocks) == block::block_bytes(sstable::join(blocks)),
    decreases blocks.len(),
{
    if blocks.len() > 0 {
        lemma_data_len(blocks.drop_last());
        lemma_block_bytes_concat(sstable::join(blocks.drop_last()), blocks.last());
    }
}

proof fn lemma_block_bytes_concat(a: Seq<Version>, b: Seq<Version>)
    ensures
        block::block_bytes(a + b) == block::block_bytes(a) + block::block_bytes(b),
    decreases b.len(),
{
    if b.len() == 0 {
        assert(a + b =~= a);
        assert(block::block_bytes(a) + block::block_bytes(b) =~= block::block_bytes(a));
    } else {
        lemma_block_bytes_concat(a, b.drop_last());
        assert((a + b).drop_last() =~= a + b.drop_last());
        assert(block::block_bytes(a + b) =~= block::block_bytes(a) + block::block_bytes(b));
    }
}

} // verus!
