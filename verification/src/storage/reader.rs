//! Reading a table.
use crate::bytes;
use crate::storage::block;
use crate::storage::bloom;
use crate::storage::bloom::BloomFilter;
use crate::storage::key;
use crate::storage::key::{KeyView, MemKey, Version};
use crate::storage::memtable;
use crate::storage::sstable;
use crate::storage::sstable::{IndexEntry, IndexView, TableError};
use crate::storage::timestamp;
use crate::storage::timestamp::HlcTimestamp;
use crate::storage::wal;
use vstd::prelude::*;

verus! {

broadcast use crate::bytes::lemma_le_bytes_len;

/// A table: its file, and what the file says of itself.
#[verifier::ext_equal]
pub struct TableView {
    pub data: Seq<u8>,
    pub index: Seq<IndexView>,
    pub bits: Seq<u8>,
    pub k: nat,
    pub min: KeyView,
    pub max: KeyView,
}

// ----------------------------------------------------------------------
// Parsing
// ----------------------------------------------------------------------
/// The eight-byte number at `at`.
pub open spec fn u64_at(b: Seq<u8>, at: int) -> nat {
    bytes::le_value(b.subrange(at, at + 8))
}

/// A key of the range at `at`, and where it ends.
pub open spec fn parse_range_key(b: Seq<u8>, at: int) -> Option<(KeyView, int)> {
    let end = at + 4 + wal::u32_at(b, at) as int;
    if at + 4 <= b.len() && end + 12 <= b.len() {
        Some(
            (
                KeyView {
                    user: b.subrange(at + 4, end),
                    ts: HlcTimestamp {
                        physical: u64_at(b, end) as u64,
                        logical: wal::u32_at(b, end + 8) as u32,
                    },
                },
                end + 12,
            ),
        )
    } else {
        None
    }
}

/// An index entry at `at`, and where it ends.
pub open spec fn parse_index_entry(b: Seq<u8>, at: int) -> Option<(IndexView, int)> {
    let end = at + 32 + wal::u32_at(b, at + 28) as int;
    if at + 32 <= b.len() && end <= b.len() {
        Some(
            (
                IndexView {
                    first: KeyView {
                        user: b.subrange(at + 32, end),
                        ts: HlcTimestamp {
                            physical: u64_at(b, at + 16) as u64,
                            logical: wal::u32_at(b, at + 24) as u32,
                        },
                    },
                    offset: u64_at(b, at) as u64,
                    size: u64_at(b, at + 8) as u64,
                },
                end,
            ),
        )
    } else {
        None
    }
}

/// `n` index entries from `at` on, and where they end.
pub open spec fn parse_index(b: Seq<u8>, at: int, n: nat) -> Option<(Seq<IndexView>, int)>
    decreases n,
{
    if n == 0 {
        Some((Seq::empty(), at))
    } else {
        match parse_index(b, at, (n - 1) as nat) {
            Some((es, p)) => match parse_index_entry(b, p) {
                Some((e, q)) => Some((es.push(e), q)),
                None => None,
            },
            None => None,
        }
    }
}

/// What a table file says of itself, given the footer's offsets.
pub open spec fn parse_parts(
    b: Seq<u8>,
    index_at: int,
    bits_at: int,
    bits_len: int,
    meta_at: int,
) -> Result<TableView, TableError> {
    match parse_range_key(b, meta_at) {
        Some((min, max_at)) => match parse_range_key(b, max_at) {
            Some((max, k_at)) => if k_at + 4 <= b.len() && bits_at + bits_len <= b.len() && index_at
                + 4 <= b.len() {
                match parse_index(b, index_at + 4, wal::u32_at(b, index_at)) {
                    Some((index, _)) => Ok(
                        TableView {
                            data: b,
                            index,
                            bits: b.subrange(bits_at, bits_at + bits_len),
                            k: wal::u32_at(b, k_at),
                            min,
                            max,
                        },
                    ),
                    None => Err(TableError::Truncated),
                }
            } else {
                Err(TableError::Truncated)
            },
            None => Err(TableError::Truncated),
        },
        None => Err(TableError::Truncated),
    }
}

/// What a table file says of itself.
pub open spec fn parse_table(b: Seq<u8>) -> Result<TableView, TableError> {
    let f = b.len() - 48;
    if f < 0 {
        Err(TableError::TooSmall)
    } else if b.subrange(f + 40, f + 48) != sstable::magic() {
        Err(TableError::BadMagic)
    } else {
        parse_parts(
            b,
            u64_at(b, f) as int,
            u64_at(b, f + 16) as int,
            u64_at(b, f + 24) as int,
            u64_at(b, f + 32) as int,
        )
    }
}

// ----------------------------------------------------------------------
// Contents
// ----------------------------------------------------------------------
impl TableView {
    /// Block `i` lies within the file.
    pub open spec fn in_file(self, i: int) -> bool {
        self.index[i].offset + self.index[i].size <= self.data.len()
    }

    /// The bytes of block `i`.
    pub open spec fn block_data(self, i: int) -> Seq<u8> {
        self.data.subrange(
            self.index[i].offset as int,
            self.index[i].offset + self.index[i].size,
        )
    }

    /// The versions in block `i`.
    pub open spec fn block(self, i: int) -> Seq<Version> {
        block::block_versions(self.block_data(i))
    }

    pub open spec fn blocks(self) -> Seq<Seq<Version>> {
        Seq::new(self.index.len(), |i: int| self.block(i))
    }

    /// All versions in the table.
    pub open spec fn run(self) -> Seq<Version> {
        sstable::join(self.blocks())
    }

    /// Every block that the index names can be read.
    pub open spec fn readable(self) -> bool {
        &&& self.bits.len() * 8 <= usize::MAX
        &&& forall|i: int|
            0 <= i < self.index.len() ==> #[trigger] self.in_file(i) && block::block_ok(
                self.block_data(i),
            )
    }

    /// The table is what a writer makes of a sorted run: the index, the filter
    /// and the range agree with the versions.
    pub open spec fn ok(self) -> bool {
        &&& self.readable()
        &&& key::sorted(self.run())
        &&& forall|i: int|
            0 <= i < self.index.len() ==> (#[trigger] self.block(i)).len() > 0
                && self.index[i].first == self.block(i)[0].key
        &&& self.min == sstable::min_key_of(self.run())
        &&& self.max == sstable::max_key_of(self.run())
        &&& forall|p: int|
            0 <= p < self.run().len() ==> bloom::may_hold(
                self.bits,
                self.k as int,
                (#[trigger] self.run()[p]).key.user,
            )
    }
}

/// The number of leading index entries that do not come behind the key.
pub open spec fn leading(index: Seq<IndexView>, target: KeyView) -> int
    decreases index.len(),
{
    if index.len() == 0 || key::key_lt(target, index[0].first) {
        0
    } else {
        1 + leading(index.drop_first(), target)
    }
}

/// What a read finds in block `i`; a block whose first user key is above the
/// key is not read.
pub open spec fn lookup_block(t: TableView, i: int, key: Seq<u8>, as_of: HlcTimestamp) -> Option<
    Option<Seq<u8>>,
> {
    if i < t.index.len() && !bytes::lex_lt(key, t.index[i].first.user) {
        key::visible(t.block(i), key, as_of)
    } else {
        None
    }
}

/// What a read finds in a table: nothing where the filter or the range of keys
/// rules the key out, else what the last block that can hold the version has,
/// or the block behind it.
pub open spec fn lookup(t: TableView, key: Seq<u8>, as_of: HlcTimestamp) -> Option<
    Option<Seq<u8>>,
> {
    if !bloom::may_hold(t.bits, t.k as int, key) {
        None
    } else if bytes::lex_lt(key, t.min.user) || bytes::lex_lt(t.max.user, key) {
        None
    } else {
        let lead = leading(t.index, KeyView { user: key, ts: as_of });
        let first = if lead == 0 {
            0
        } else {
            lead - 1
        };
        match lookup_block(t, first, key, as_of) {
            Some(v) => Some(v),
            None => lookup_block(t, first + 1, key, as_of),
        }
    }
}

// ----------------------------------------------------------------------
// Reading
// ----------------------------------------------------------------------
/// A table that was opened.
pub struct SsTableReader {
    pub data: Vec<u8>,
    pub index: Vec<IndexEntry>,
    pub bloom: BloomFilter,
    pub min_key: MemKey,
    pub max_key: MemKey,
}

impl View for SsTableReader {
    type V = TableView;

    open spec fn view(&self) -> TableView {
        TableView {
            data: self.data@,
            index: sstable::index_views(self.index@),
            bits: self.bloom.bits@,
            k: self.bloom.k as nat,
            min: self.min_key@,
            max: self.max_key@,
        }
    }
}

/// Whether `n` bytes from `at` on lie within `len` bytes.
fn within(at: u64, n: u64, len: usize) -> (r: bool)
    ensures
        r == (at + n <= len),
{
    at <= len as u64 && n <= len as u64 - at
}

fn read_range_key(b: &[u8], at: u64) -> (r: Option<(MemKey, u64)>)
    ensures
        parse_range_key(b@, at as int) == (match r {
            Some((k, end)) => Some((k@, end as int)),
            None => None,
        }),
{
    if !within(at, 4, b.len()) {
        return None;
    }
    let start: usize = at as usize;
    let key_len: u64 = bytes::read_le_u32(b, start) as u64;
    if !within(at + 4, key_len + 12, b.len()) {
        return None;
    }
    let end: usize = start + 4 + key_len as usize;
    let k = MemKey {
        user_key: bytes::copy_range(b, start + 4, end),
        ts: HlcTimestamp {
            physical: bytes::read_le_u64(b, end),
            logical: bytes::read_le_u32(b, end + 8),
        },
    };
    Some((k, end as u64 + 12))
}

fn read_index_entry(b: &[u8], at: u64) -> (r: Option<(IndexEntry, u64)>)
    ensures
        parse_index_entry(b@, at as int) == (match r {
            Some((e, end)) => Some((e@, end as int)),
            None => None,
        }),
        r matches Some((_, end)) ==> end <= b@.len(),
{
    if !within(at, 32, b.len()) {
        return None;
    }
    let start: usize = at as usize;
    let key_len: u64 = bytes::read_le_u32(b, start + 28) as u64;
    if !within(at + 32, key_len, b.len()) {
        return None;
    }
    let end: usize = start + 32 + key_len as usize;
    let e = IndexEntry {
        first_key: MemKey {
            user_key: bytes::copy_range(b, start + 32, end),
            ts: HlcTimestamp {
                physical: bytes::read_le_u64(b, start + 16),
                logical: bytes::read_le_u32(b, start + 24),
            },
        },
        offset: bytes::read_le_u64(b, start),
        size: bytes::read_le_u64(b, start + 8),
    };
    Some((e, end as u64))
}

proof fn lemma_parse_index_none(b: Seq<u8>, at: int, n: nat, m: nat)
    requires
        n <= m,
        parse_index(b, at, n) is None,
    ensures
        parse_index(b, at, m) is None,
    decreases m,
{
    if n < m {
        lemma_parse_index_none(b, at, n, (m - 1) as nat);
    }
}

fn read_index(b: &[u8], at: u64, n: u32) -> (r: Option<Vec<IndexEntry>>)
    requires
        at <= b@.len(),
    ensures
        match parse_index(b@, at as int, n as nat) {
            Some((es, _)) => r is Some && sstable::index_views(r->0@) == es,
            None => r is None,
        },
{
    let mut index: Vec<IndexEntry> = Vec::new();
    let mut pos: u64 = at;
    let mut i: u32 = 0;
    assert(sstable::index_views(index@) =~= Seq::empty());
    while i < n
        invariant
            i <= n,
            pos <= b@.len(),
            parse_index(b@, at as int, i as nat) == Some(
                (sstable::index_views(index@), pos as int),
            ),
        decreases n - i,
    {
        match read_index_entry(b, pos) {
            Some((e, end)) => {
                let ghost before = sstable::index_views(index@);
                let ghost view = e@;
                index.push(e);
                assert(sstable::index_views(index@) =~= before.push(view));
                pos = end;
            },
            None => {
                proof {
                    assert(parse_index(b@, at as int, (i + 1) as nat) is None);
                    lemma_parse_index_none(b@, at as int, (i + 1) as nat, n as nat);
                }
                return None;
            },
        }
        i = i + 1;
    }
    Some(index)
}

/// An opened table as a mathematical value.
pub open spec fn opened_view(r: Result<SsTableReader, TableError>) -> Result<
    TableView,
    TableError,
> {
    match r {
        Ok(t) => Ok(t@),
        Err(e) => Err(e),
    }
}

impl SsTableReader {
    /// Opens a table, given its file.
    pub fn open(data: Vec<u8>) -> (r: Result<SsTableReader, TableError>)
        ensures
            opened_view(r) == parse_table(data@),
    {
        let b = data.as_slice();
        let len: usize = b.len();
        if len < 48 {
            return Err(TableError::TooSmall);
        }
        let footer: usize = len - 48;
        let end = vstd::slice::slice_subrange(b, footer + 40, len);
        let expected = vec![83u8, 84, 82, 65, 84, 65, 83, 49];
        assert(expected@ =~= sstable::magic());
        if !bytes::bytes_eq(end, expected.as_slice()) {
            return Err(TableError::BadMagic);
        }
        let index_offset: u64 = bytes::read_le_u64(b, footer);
        let bloom_offset: u64 = bytes::read_le_u64(b, footer + 16);
        let bloom_size: u64 = bytes::read_le_u64(b, footer + 24);
        let meta_offset: u64 = bytes::read_le_u64(b, footer + 32);
        let (min_key, max_at) = match read_range_key(b, meta_offset) {
            Some(x) => x,
            None => return Err(TableError::Truncated),
        };
        let (max_key, k_at) = match read_range_key(b, max_at) {
            Some(x) => x,
            None => return Err(TableError::Truncated),
        };
        if !within(k_at, 4, len) || !within(bloom_offset, bloom_size, len) || !within(
            index_offset,
            4,
            len,
        ) {
            return Err(TableError::Truncated);
        }
        let k: u32 = bytes::read_le_u32(b, k_at as usize);
        let bits = bytes::copy_range(
            b,
            bloom_offset as usize,
            (bloom_offset + bloom_size) as usize,
        );
        let n: u32 = bytes::read_le_u32(b, index_offset as usize);
        let index = match read_index(b, index_offset + 4, n) {
            Some(x) => x,
            None => return Err(TableError::Truncated),
        };
        Ok(
            SsTableReader {
                data,
                index,
                bloom: BloomFilter { bits, k: k as usize },
                min_key,
                max_key,
            },
        )
    }

    /// Whether every block that the index names can be read.
    pub fn is_readable(&self) -> (r: bool)
        ensures
            r == self@.readable(),
    {
        if self.bloom.bits.len() > usize::MAX / 8 {
            return false;
        }
        let mut i: usize = 0;
        while i < self.index.len()
            invariant
                i <= self.index@.len(),
                forall|j: int|
                    0 <= j < i ==> #[trigger] self@.in_file(j) && block::block_ok(
                        self@.block_data(j),
                    ),
            decreases self.index@.len() - i,
        {
            let e = &self.index[i];
            assert(self@.index[i as int] == e@);
            if !within(e.offset, e.size, self.data.len()) {
                assert(!self@.in_file(i as int));
                return false;
            }
            let part = vstd::slice::slice_subrange(
                self.data.as_slice(),
                e.offset as usize,
                (e.offset + e.size) as usize,
            );
            assert(part@ == self@.block_data(i as int));
            if !block::is_block(part) {
                assert(self@.in_file(i as int));
                return false;
            }
            assert forall|j: int| 0 <= j < i + 1 implies #[trigger] self@.in_file(j)
                && block::block_ok(self@.block_data(j)) by {
                if j == i {
                    assert(self@.in_file(i as int));
                }
            }
            i = i + 1;
        }
        proof {
            assert(self@.bits.len() * 8 <= usize::MAX);
            assert(self@.index.len() == i);
            assert(self@.readable());
        }
        true
    }

    /// The versions in one block.
    pub fn read_block_entries(&self, i: usize) -> (r: Vec<(MemKey, Option<Vec<u8>>)>)
        requires
            self@.readable(),
            i < self@.index.len(),
        ensures
            key::version_views(r@) == self@.block(i as int),
    {
        let e = &self.index[i];
        assert(self@.index[i as int] == e@);
        assert(self@.in_file(i as int));
        let len: usize = self.data.len();
        let part = vstd::slice::slice_subrange(
            self.data.as_slice(),
            e.offset as usize,
            (e.offset + e.size) as usize,
        );
        assert(part@ == self@.block_data(i as int));
        block::read_versions(part)
    }

    /// What a read of `key` at `as_of` finds in one block.
    pub fn get_from_block(&self, i: usize, key: &[u8], as_of: HlcTimestamp) -> (r: Option<
        Option<Vec<u8>>,
    >)
        requires
            self@.readable(),
            i < self@.index.len(),
        ensures
            memtable::found_view(r) == key::visible(self@.block(i as int), key@, as_of),
    {
        let e = &self.index[i];
        assert(self@.index[i as int] == e@);
        assert(self@.in_file(i as int));
        let len: usize = self.data.len();
        let part = vstd::slice::slice_subrange(
            self.data.as_slice(),
            e.offset as usize,
            (e.offset + e.size) as usize,
        );
        assert(part@ == self@.block_data(i as int));
        block::find_in_block(part, key, as_of)
    }

    fn lookup_block(&self, i: usize, key: &[u8], as_of: HlcTimestamp) -> (r: Option<
        Option<Vec<u8>>,
    >)
        requires
            self@.readable(),
        ensures
            memtable::found_view(r) == lookup_block(self@, i as int, key@, as_of),
    {
        if i < self.index.len() && !bytes::bytes_lt(
            key,
            self.index[i].first_key.user_key.as_slice(),
        ) {
            self.get_from_block(i, key, as_of)
        } else {
            None
        }
    }

    /// What a read of `key` at `as_of` finds in the table.
    pub fn get(&self, key: &[u8], as_of: HlcTimestamp) -> (r: Option<Option<Vec<u8>>>)
        requires
            self@.readable(),
        ensures
            memtable::found_view(r) == lookup(self@, key@, as_of),
    {
        if !self.bloom.contains(key) {
            return None;
        }
        if bytes::bytes_lt(key, self.min_key.user_key.as_slice()) || bytes::bytes_lt(
            self.max_key.user_key.as_slice(),
            key,
        ) {
            return None;
        }
        let target = MemKey { user_key: bytes::copy_bytes(key), ts: as_of };
        let ghost t = target@;
        let ghost index = self@.index;
        let mut lead: usize = 0;
        assert(index.skip(0) =~= index);
        while lead < self.index.len() && !target.is_before(&self.index[lead].first_key)
            invariant
                lead <= self.index@.len(),
                target@ == t,
                index == self@.index,
                leading(index, t) == lead + leading(index.skip(lead as int), t),
            decreases self.index@.len() - lead,
        {
            assert(index.skip(lead as int)[0] == self.index@[lead as int]@);
            assert(index.skip(lead as int).drop_first() =~= index.skip(lead + 1));
            lead = lead + 1;
        }
        proof {
            if lead < index.len() {
                assert(index.skip(lead as int)[0] == self.index@[lead as int]@);
            }
            assert(leading(index, t) == lead);
        }
        let first: usize = if lead == 0 {
            0
        } else {
            lead - 1
        };
        assert(t == KeyView { user: key@, ts: as_of });
        match self.lookup_block(first, key, as_of) {
            Some(v) => Some(v),
            None => self.lookup_block(first + 1, key, as_of),
        }
    }

    /// All versions in the table.
    pub fn entries(&self) -> (r: Vec<(MemKey, Option<Vec<u8>>)>)
        requires
            self@.readable(),
        ensures
            key::version_views(r@) == self@.run(),
    {
        let ghost blocks = self@.blocks();
        let mut out: Vec<(MemKey, Option<Vec<u8>>)> = Vec::new();
        let mut i: usize = 0;
        assert(key::version_views(out@) =~= sstable::join(blocks.take(0)));
        while i < self.index.len()
            invariant
                i <= self.index@.len(),
                self@.readable(),
                blocks == self@.blocks(),
                key::version_views(out@) == sstable::join(blocks.take(i as int)),
            decreases self.index@.len() - i,
        {
            let mut part = self.read_block_entries(i);
            let ghost before = key::version_views(out@);
            let ghost more = key::version_views(part@);
            out.append(&mut part);
            proof {
                assert(key::version_views(out@) =~= before + more);
                assert(blocks.take(i + 1).drop_last() =~= blocks.take(i as int));
                assert(blocks.take(i + 1).last() == self@.block(i as int));
            }
            i = i + 1;
        }
        assert(blocks.take(i as int) =~= blocks);
        out
    }

    /// Whether the index, the filter and the range agree with the versions,
    /// and the versions are in order.
    pub fn is_consistent(&self) -> (r: bool)
        ensures
            r == self@.ok(),
    {
        if !self.is_readable() {
            return false;
        }
        let versions = self.entries();
        let ghost run = self@.run();
        let mut p: usize = 0;
        while p < versions.len()
            invariant
                p <= versions@.len(),
                self@.readable(),
                run == self@.run(),
                run == key::version_views(versions@),
                forall|i: int, j: int|
                    0 <= i < j < p ==> !key::key_lt(run[j].key, run[i].key),
                forall|i: int|
                    0 <= i < p ==> bloom::may_hold(
                        self@.bits,
                        self@.k as int,
                        (#[trigger] run[i]).key.user,
                    ),
            decreases versions@.len() - p,
        {
            assert(run[p as int] == key::version_view(versions@[p as int]));
            if !self.bloom.contains(versions[p].0.user_key.as_slice()) {
                assert(!bloom::may_hold(self@.bits, self@.k as int, self@.run()[p as int].key.user));
                return false;
            }
            if p > 0 {
                assert(run[p - 1] == key::version_view(versions@[p - 1]));
                if versions[p].0.is_before(&versions[p - 1].0) {
                    return false;
                }
                proof {
                    assert forall|i: int| 0 <= i < p implies !key::key_lt(
                        run[p as int].key,
                        run[i].key,
                    ) by {
                        if i < p - 1 {
                            key::lemma_key_ge_transitive(
                                run[i].key,
                                run[p - 1].key,
                                run[p as int].key,
                            );
                        }
                    }
                }
            }
            p = p + 1;
        }
        let mut i: usize = 0;
        while i < self.index.len()
            invariant
                i <= self.index@.len(),
                self@.readable(),
                forall|j: int|
                    0 <= j < i ==> (#[trigger] self@.block(j)).len() > 0 && self@.index[j].first
                        == self@.block(j)[0].key,
            decreases self.index@.len() - i,
        {
            let part = self.read_block_entries(i);
            assert(key::version_views(part@).len() == part@.len());
            assert(self@.index[i as int] == self.index@[i as int]@);
            if part.len() == 0 {
                assert(self@.block(i as int).len() == 0);
                return false;
            }
            assert(self@.block(i as int)[0] == key::version_view(part@[0]));
            if !same_key(&self.index[i].first_key, &part[0].0) {
                assert(self@.index[i as int].first != self@.block(i as int)[0].key);
                return false;
            }
            i = i + 1;
        }
        if versions.len() == 0 {
            let zero = MemKey { user_key: Vec::new(), ts: HlcTimestamp::zero() };
            assert(zero@ =~= sstable::zero_key());
            same_key(&self.min_key, &zero) && same_key(&self.max_key, &zero)
        } else {
            let n: usize = versions.len();
            assert(run[0] == key::version_view(versions@[0]));
            assert(run.last() == key::version_view(versions@[n - 1]));
            same_key(&self.min_key, &versions[0].0) && same_key(&self.max_key, &versions[n - 1].0)
        }
    }
}

fn same_key(a: &MemKey, b: &MemKey) -> (r: bool)
    ensures
        r == (a@ == b@),
{
    bytes::bytes_eq(a.user_key.as_slice(), b.user_key.as_slice()) && a.ts == b.ts
}

// ----------------------------------------------------------------------
// Laws
// ----------------------------------------------------------------------
/// No two versions in the run have the same key and time.
pub open spec fn distinct_keys(run: Seq<Version>) -> bool {
    forall|i: int, j: int| 0 <= i < j < run.len() ==> run[i].key != run[j].key
}

/// The run does not hold the version twice.
pub open spec fn once(run: Seq<Version>, k: KeyView) -> bool {
    forall|i: int, j: int|
        0 <= i < j < run.len() ==> !((#[trigger] run[i]).key == k && (#[trigger] run[j]).key == k)
}

/// The first block in which a read finds something decides.
pub open spec fn visible_in_blocks(
    blocks: Seq<Seq<Version>>,
    key: Seq<u8>,
    as_of: HlcTimestamp,
) -> Option<Option<Seq<u8>>>
    decreases blocks.len(),
{
    if blocks.len() == 0 {
        None
    } else {
        match visible_in_blocks(blocks.drop_last(), key, as_of) {
            Some(v) => Some(v),
            None => key::visible(blocks.last(), key, as_of),
        }
    }
}

/// A read of two runs, one behind the other.
pub proof fn lemma_visible_concat(
    a: Seq<Version>,
    b: Seq<Version>,
    key: Seq<u8>,
    as_of: HlcTimestamp,
)
    ensures
        key::visible(a + b, key, as_of) == (match key::visible(a, key, as_of) {
            Some(v) => Some(v),
            None => key::visible(b, key, as_of),
        }),
{
    key::lemma_first_match(a, key, as_of);
    key::lemma_first_match(b, key, as_of);
    let f = key::first_match(a, key, as_of);
    let g = key::first_match(b, key, as_of);
    let whole = a + b;
    if f < a.len() {
        assert forall|i: int| 0 <= i < f implies !key::matches_at(#[trigger] whole[i], key, as_of) by {
            assert(whole[i] == a[i]);
        }
        key::lemma_first_match_unique(whole, key, as_of, f);
    } else {
        let p = a.len() + g;
        assert forall|i: int| 0 <= i < p implies !key::matches_at(#[trigger] whole[i], key, as_of) by {
            if i < a.len() {
                assert(whole[i] == a[i]);
            } else {
                assert(whole[i] == b[i - a.len()]);
            }
        }
        key::lemma_first_match_unique(whole, key, as_of, p);
    }
}

proof fn lemma_visible_join(blocks: Seq<Seq<Version>>, key: Seq<u8>, as_of: HlcTimestamp)
    ensures
        key::visible(sstable::join(blocks), key, as_of) == visible_in_blocks(blocks, key, as_of),
    decreases blocks.len(),
{
    if blocks.len() == 0 {
        key::lemma_first_match(sstable::join(blocks), key, as_of);
    } else {
        lemma_visible_join(blocks.drop_last(), key, as_of);
        lemma_visible_concat(sstable::join(blocks.drop_last()), blocks.last(), key, as_of);
    }
}

/// Where the versions of block `i` stand in the run.
pub open spec fn start_of(blocks: Seq<Seq<Version>>, i: int) -> int {
    sstable::join(blocks.take(i)).len() as int
}

/// A version of a block is the one at its place in the run.
pub proof fn lemma_join_at(blocks: Seq<Seq<Version>>, i: int, j: int)
    requires
        0 <= i < blocks.len(),
        0 <= j < blocks[i].len(),
    ensures
        0 <= start_of(blocks, i) + j < sstable::join(blocks).len(),
        sstable::join(blocks)[start_of(blocks, i) + j] == blocks[i][j],
        start_of(blocks, i) + blocks[i].len() <= sstable::join(blocks).len(),
        forall|m: int|
            i < m < blocks.len() ==> start_of(blocks, i) + blocks[i].len() <= #[trigger] start_of(
                blocks,
                m,
            ),
    decreases blocks.len(),
{
    let front = blocks.drop_last();
    if i == blocks.len() - 1 {
        assert(blocks.take(i) =~= front);
    } else {
        lemma_join_at(front, i, j);
        assert(front.take(i) =~= blocks.take(i));
        assert forall|m: int| i < m < blocks.len() implies start_of(blocks, i) + blocks[i].len()
            <= #[trigger] start_of(blocks, m) by {
            if m < front.len() {
                assert(front.take(m) =~= blocks.take(m));
                assert(start_of(front, m) == start_of(blocks, m));
            } else {
                assert(blocks.take(m) =~= front);
            }
        }
    }
}

/// What the number of leading blocks tells of each of them.
proof fn lemma_leading(index: Seq<IndexView>, target: KeyView)
    ensures
        0 <= leading(index, target) <= index.len(),
        forall|i: int|
            0 <= i < leading(index, target) ==> !key::key_lt(target, #[trigger] index[i].first),
        leading(index, target) < index.len() ==> key::key_lt(
            target,
            index[leading(index, target)].first,
        ),
    decreases index.len(),
{
    if index.len() > 0 && !key::key_lt(target, index[0].first) {
        let rest = index.drop_first();
        lemma_leading(rest, target);
        assert forall|i: int| 0 <= i < leading(index, target) implies !key::key_lt(
            target,
            #[trigger] index[i].first,
        ) by {
            if i > 0 {
                assert(rest[i - 1] == index[i]);
            }
        }
    }
}

/// A version that a read finds does not come before the key of the read.
proof fn lemma_match_is_behind(v: Version, key: Seq<u8>, as_of: HlcTimestamp)
    requires
        key::matches_at(v, key, as_of),
    ensures
        !key::key_lt(v.key, KeyView { user: key, ts: as_of }),
{
    bytes::lemma_lex_irreflexive(key);
}

/// A block in which nothing matches shows nothing.
proof fn lemma_nothing_visible(run: Seq<Version>, key: Seq<u8>, as_of: HlcTimestamp)
    requires
        forall|j: int| 0 <= j < run.len() ==> !key::matches_at(#[trigger] run[j], key, as_of),
    ensures
        key::visible(run, key, as_of) is None,
{
    key::lemma_first_match(run, key, as_of);
}

/// Only the first of the blocks from `from` on in which something is found
/// matters where the blocks in front show nothing.
proof fn lemma_visible_from(
    blocks: Seq<Seq<Version>>,
    key: Seq<u8>,
    as_of: HlcTimestamp,
    from: int,
)
    requires
        0 <= from < blocks.len(),
        forall|i: int|
            0 <= i < from ==> key::visible(#[trigger] blocks[i], key, as_of) is None,
        forall|i: int|
            from + 1 < i < blocks.len() ==> key::visible(#[trigger] blocks[i], key, as_of) is Some
                ==> key::visible(blocks[from + 1], key, as_of) is Some,
    ensures
        visible_in_blocks(blocks, key, as_of) == (match key::visible(blocks[from], key, as_of) {
            Some(v) => Some(v),
            None => if from + 1 < blocks.len() {
                key::visible(blocks[from + 1], key, as_of)
            } else {
                None
            },
        }),
    decreases blocks.len(),
{
    let front = blocks.drop_last();
    if from + 1 < blocks.len() {
        assert forall|i: int| 0 <= i < from implies key::visible(
            #[trigger] front[i],
            key,
            as_of,
        ) is None by {
            assert(front[i] == blocks[i]);
        }
        assert forall|i: int|
            from + 1 < i < front.len() && key::visible(#[trigger] front[i], key, as_of) is Some
            implies key::visible(front[from + 1], key, as_of) is Some by {
            assert(front[i] == blocks[i]);
            assert(front[from + 1] == blocks[from + 1]);
        }
        lemma_visible_from(front, key, as_of, from);
        assert(front[from] == blocks[from]);
        if from + 1 < front.len() {
            assert(front[from + 1] == blocks[from + 1]);
            assert(blocks.last() == blocks[blocks.len() - 1]);
        }
    } else {
        lemma_none_in_blocks(front, key, as_of);
    }
}

proof fn lemma_none_in_blocks(blocks: Seq<Seq<Version>>, key: Seq<u8>, as_of: HlcTimestamp)
    requires
        forall|i: int|
            0 <= i < blocks.len() ==> key::visible(#[trigger] blocks[i], key, as_of) is None,
    ensures
        visible_in_blocks(blocks, key, as_of) is None,
    decreases blocks.len(),
{
    if blocks.len() > 0 {
        assert forall|i: int| 0 <= i < blocks.drop_last().len() implies key::visible(
            #[trigger] blocks.drop_last()[i],
            key,
            as_of,
        ) is None by {
            assert(blocks.drop_last()[i] == blocks[i]);
        }
        lemma_none_in_blocks(blocks.drop_last(), key, as_of);
        assert(blocks.last() == blocks[blocks.len() - 1]);
    }
}

/// In a table that agrees with its versions, a read finds what it would find
/// by going through all of them, where the version of just that key and time is not
/// there twice: the filter, the range, the index and the choice of two blocks lose
/// nothing.
pub proof fn lemma_lookup_reads_run(t: TableView, key: Seq<u8>, as_of: HlcTimestamp)
    requires
        t.ok(),
        once(t.run(), KeyView { user: key, ts: as_of }),
    ensures
        lookup(t, key, as_of) == key::visible(t.run(), key, as_of),
{
    let target = KeyView { user: key, ts: as_of };
    let run = t.run();
    let blocks = t.blocks();
    key::lemma_first_match(run, key, as_of);
    let f = key::first_match(run, key, as_of);
    if !bloom::may_hold(t.bits, t.k as int, key) {
        if f < run.len() {
            assert(bloom::may_hold(t.bits, t.k as int, run[f].key.user));
        }
    } else if bytes::lex_lt(key, t.min.user) || bytes::lex_lt(t.max.user, key) {
        if f < run.len() {
            let n = run.len() - 1;
            bytes::lemma_lex_irreflexive(key);
            if f > 0 {
                assert(!key::key_lt(run[f].key, run[0].key));
            }
            if f < n {
                assert(!key::key_lt(run[n].key, run[f].key));
            }
            bytes::lemma_lex_total(key, run[0].key.user);
            bytes::lemma_lex_total(key, run[n].key.user);
            if bytes::lex_lt(key, run[0].key.user) {
                bytes::lemma_lex_asymmetric(key, run[0].key.user);
            }
            if bytes::lex_lt(run[n].key.user, key) {
                bytes::lemma_lex_asymmetric(run[n].key.user, key);
            }
        }
    } else {
        let lead = leading(t.index, target);
        lemma_leading(t.index, target);
        lemma_visible_join(blocks, key, as_of);
        let first = if lead == 0 {
            0
        } else {
            lead - 1
        };
        if t.index.len() == 0 {
            assert(blocks.len() == 0);
        } else {
            lemma_lookup_blocks(t, key, as_of, first);
        }
    }
}

proof fn lemma_lookup_blocks(t: TableView, key: Seq<u8>, as_of: HlcTimestamp, first: int)
    requires
        t.ok(),
        once(t.run(), KeyView { user: key, ts: as_of }),
        t.index.len() > 0,
        ({
            let lead = leading(t.index, KeyView { user: key, ts: as_of });
            first == (if lead == 0 {
                0
            } else {
                lead - 1
            })
        }),
    ensures
        visible_in_blocks(t.blocks(), key, as_of) == (match lookup_block(t, first, key, as_of) {
            Some(v) => Some(v),
            None => lookup_block(t, first + 1, key, as_of),
        }),
{
    let target = KeyView { user: key, ts: as_of };
    let run = t.run();
    let blocks = t.blocks();
    let lead = leading(t.index, target);
    lemma_leading(t.index, target);
    assert forall|i: int| 0 <= i < blocks.len() implies (#[trigger] blocks[i]).len() > 0
        && t.index[i].first == blocks[i][0].key by {
        assert(blocks[i] == t.block(i));
    }
    // Blocks in front of the first one that is read show nothing.
    assert forall|i: int| 0 <= i < first implies key::visible(
        #[trigger] blocks[i],
        key,
        as_of,
    ) is None by {
        assert forall|j: int| 0 <= j < blocks[i].len() implies !key::matches_at(
            #[trigger] blocks[i][j],
            key,
            as_of,
        ) by {
            lemma_join_at(blocks, i, j);
            lemma_join_at(blocks, first, 0);
            let p = start_of(blocks, i) + j;
            let q = start_of(blocks, first);
            assert(p < q);
            assert(!key::key_lt(run[q].key, run[p].key));
            assert(!(run[p].key == target && run[q].key == target));
            key::lemma_key_lt_total(run[p].key, run[q].key);
            assert(!key::key_lt(target, t.index[first].first));
            key::lemma_key_lt_total(target, run[q].key);
            if run[q].key != target && run[p].key != run[q].key {
                key::lemma_key_lt_transitive(run[p].key, run[q].key, target);
            }
            if key::matches_at(blocks[i][j], key, as_of) {
                lemma_match_is_behind(blocks[i][j], key, as_of);
            }
        }
        lemma_nothing_visible(blocks[i], key, as_of);
    }
    // A match behind the second block means that the second block starts with one.
    assert forall|i: int|
        first + 1 < i < blocks.len() && key::visible(#[trigger] blocks[i], key, as_of) is Some
        implies key::visible(blocks[first + 1], key, as_of) is Some by {
        let m = first + 1;
        key::lemma_first_match(blocks[i], key, as_of);
        let j = key::first_match(blocks[i], key, as_of);
        lemma_join_at(blocks, i, j);
        lemma_join_at(blocks, m, 0);
        let p = start_of(blocks, i) + j;
        let q = start_of(blocks, m);
        assert(!key::key_lt(run[p].key, run[q].key));
        if lead > 0 {
            assert(key::key_lt(target, t.index[m].first));
        } else {
            lemma_join_at(blocks, 0, 0);
            assert(key::key_lt(target, t.index[0].first));
            let z = start_of(blocks, 0);
            assert(!key::key_lt(run[q].key, run[z].key));
            key::lemma_key_lt_total(run[z].key, run[q].key);
            if run[z].key != run[q].key {
                key::lemma_key_lt_transitive(target, run[z].key, run[q].key);
            }
        }
        let head = blocks[m][0];
        assert(key::key_lt(target, head.key));
        bytes::lemma_lex_total(head.key.user, key);
        if bytes::lex_lt(key, head.key.user) {
            assert(key::key_lt(run[p].key, run[q].key));
        }
        assert(key::matches_at(head, key, as_of));
        key::lemma_first_match(blocks[m], key, as_of);
    }
    lemma_visible_from(blocks, key, as_of, first);
    // A block whose first user key is above the key shows nothing.
    assert forall|i: int|
        0 <= i < blocks.len() && bytes::lex_lt(key, t.index[i].first.user) implies key::visible(
        #[trigger] blocks[i],
        key,
        as_of,
    ) is None by {
        assert forall|j: int| 0 <= j < blocks[i].len() implies !key::matches_at(
            #[trigger] blocks[i][j],
            key,
            as_of,
        ) by {
            if j > 0 {
                lemma_join_at(blocks, i, j);
                lemma_join_at(blocks, i, 0);
                assert(!key::key_lt(run[start_of(blocks, i) + j].key, run[start_of(blocks, i)].key));
            }
            bytes::lemma_lex_irreflexive(key);
        }
        lemma_nothing_visible(blocks[i], key, as_of);
    }
    assert(blocks[first] == t.block(first));
    if first + 1 < blocks.len() {
        assert(blocks[first + 1] == t.block(first + 1));
    }
}

/// What a scan of the table shows.
pub fn scan_sstable(reader: &SsTableReader, start: &[u8], end: &[u8], as_of: HlcTimestamp) -> (r:
    Vec<(Vec<u8>, Option<Vec<u8>>)>)
    requires
        reader@.readable(),
        key::sorted(reader@.run()),
    ensures
        key::hit_views(r@) == key::scanned(reader@.run(), start@, end@, as_of),
{
    let versions = reader.entries();
    key::scan_versions(versions.as_slice(), start, end, as_of)
}

} // verus!
