//! Sorted tables on disk: blocks of versions, a sparse index, a Bloom filter,
//! the range of keys, and a footer that says where each of them stands.
use crate::bytes;
use crate::storage::block;
use crate::storage::bloom;
use crate::storage::bloom::BloomFilter;
use crate::storage::key;
use crate::storage::key::{KeyView, MemKey, Version};
use crate::storage::timestamp::HlcTimestamp;
use vstd::prelude::*;

verus! {

broadcast use crate::bytes::lemma_le_bytes_len;

/// A block is closed once it has this many bytes.
pub const TARGET_BLOCK_SIZE: usize = 4096;

/// `STRATAS1`
pub open spec fn magic() -> Seq<u8> {
    seq![83u8, 84, 82, 65, 84, 65, 83, 49]
}

/// Where a block stands, and its first key.
#[derive(Debug)]
pub struct IndexEntry {
    pub first_key: MemKey,
    pub offset: u64,
    pub size: u64,
}

#[verifier::ext_equal]
pub struct IndexView {
    pub first: KeyView,
    pub offset: u64,
    pub size: u64,
}

impl View for IndexEntry {
    type V = IndexView;

    open spec fn view(&self) -> IndexView {
        IndexView { first: self.first_key@, offset: self.offset, size: self.size }
    }
}

pub open spec fn index_views(v: Seq<IndexEntry>) -> Seq<IndexView> {
    v.map_values(|e: IndexEntry| e@)
}

/// Why a file is not a table.
#[derive(Debug, Clone, Copy, PartialEq, Eq, Structural)]
pub enum TableError {
    /// The file is too small for a footer.
    TooSmall,
    /// The footer does not end as a table's does.
    BadMagic,
    /// Something that the footer points to is not all there.
    Truncated,
}

// ----------------------------------------------------------------------
// The file
// ----------------------------------------------------------------------
/// All versions of the blocks, in order.
pub open spec fn join(blocks: Seq<Seq<Version>>) -> Seq<Version>
    decreases blocks.len(),
{
    if blocks.len() == 0 {
        Seq::empty()
    } else {
        join(blocks.drop_last()) + blocks.last()
    }
}

/// The blocks as they stand in the file.
pub open spec fn data_bytes(blocks: Seq<Seq<Version>>) -> Seq<u8>
    decreases blocks.len(),
{
    if blocks.len() == 0 {
        Seq::empty()
    } else {
        data_bytes(blocks.drop_last()) + block::block_bytes(blocks.last())
    }
}

/// The sparse index: one entry for each block.
pub open spec fn index_of(blocks: Seq<Seq<Version>>) -> Seq<IndexView>
    decreases blocks.len(),
{
    if blocks.len() == 0 {
        Seq::empty()
    } else {
        index_of(blocks.drop_last()).push(
            IndexView {
                first: blocks.last()[0].key,
                offset: data_bytes(blocks.drop_last()).len() as u64,
                size: block::block_bytes(blocks.last()).len() as u64,
            },
        )
    }
}

/// An index entry in the file.
pub open spec fn index_entry_bytes(e: IndexView) -> Seq<u8> {
    bytes::le_bytes(e.offset as nat, 8) + bytes::le_bytes(e.size as nat, 8) + bytes::le_bytes(
        e.first.ts.physical as nat,
        8,
    ) + bytes::le_bytes(e.first.ts.logical as nat, 4) + bytes::le_bytes(e.first.user.len(), 4)
        + e.first.user
}

pub open spec fn index_items(es: Seq<IndexView>) -> Seq<u8>
    decreases es.len(),
{
    if es.len() == 0 {
        Seq::empty()
    } else {
        index_items(es.drop_last()) + index_entry_bytes(es.last())
    }
}

/// The index in the file.
pub open spec fn index_bytes(es: Seq<IndexView>) -> Seq<u8> {
    bytes::le_bytes(es.len(), 4) + index_items(es)
}

/// A key of the range in the file.
pub open spec fn range_key_bytes(k: KeyView) -> Seq<u8> {
    bytes::le_bytes(k.user.len(), 4) + k.user + bytes::le_bytes(k.ts.physical as nat, 8)
        + bytes::le_bytes(k.ts.logical as nat, 4)
}

/// The key that stands for the range of an empty table.
pub open spec fn zero_key() -> KeyView {
    KeyView { user: Seq::empty(), ts: HlcTimestamp { physical: 0, logical: 0 } }
}

/// The first key of a run.
pub open spec fn min_key_of(run: Seq<Version>) -> KeyView {
    if run.len() == 0 {
        zero_key()
    } else {
        run[0].key
    }
}

/// The last key of a run.
pub open spec fn max_key_of(run: Seq<Version>) -> KeyView {
    if run.len() == 0 {
        zero_key()
    } else {
        run.last().key
    }
}

/// The range of keys and the filter's number of hashes in the file.
pub open spec fn meta_bytes(min: KeyView, max: KeyView, k: nat) -> Seq<u8> {
    range_key_bytes(min) + range_key_bytes(max) + bytes::le_bytes(k, 4)
}

/// The footer: where the index, the filter and the range stand.
pub open spec fn footer_bytes(data: nat, index: nat, bits: nat) -> Seq<u8> {
    bytes::le_bytes(data, 8) + bytes::le_bytes(index, 8) + bytes::le_bytes(data + index, 8)
        + bytes::le_bytes(bits, 8) + bytes::le_bytes(data + index + bits, 8) + magic()
}

/// A whole table file.
pub open spec fn table_bytes(blocks: Seq<Seq<Version>>, bits: Seq<u8>, k: nat) -> Seq<u8> {
    let data = data_bytes(blocks);
    let index = index_bytes(index_of(blocks));
    let run = join(blocks);
    data + index + bits + meta_bytes(min_key_of(run), max_key_of(run), k) + footer_bytes(
        data.len(),
        index.len(),
        bits.len(),
    )
}

/// The user keys of a run, each once, in the order in which they first occur.
pub open spec fn users(run: Seq<Version>) -> Seq<Seq<u8>>
    decreases run.len(),
{
    if run.len() == 0 {
        Seq::empty()
    } else {
        let front = users(run.drop_last());
        if front.contains(run.last().key.user) {
            front
        } else {
            front.push(run.last().key.user)
        }
    }
}

/// The filter is one for the user keys, of the size that was asked for.
pub open spec fn filter_for(
    bits: Seq<u8>,
    k: nat,
    keys: Seq<Seq<u8>>,
    num_bits: usize,
    num_hashes: usize,
) -> bool {
    &&& bloom::filter_of(bits, keys, k as int)
    &&& keys.len() == 0 ==> bits.len() == 0 && k == 0
    &&& keys.len() > 0 ==> bits.len() == (num_bits + 7) / 8
    &&& keys.len() > 0 ==> k == (if num_hashes < 1 {
        1
    } else if num_hashes > 30 {
        30
    } else {
        num_hashes as nat
    })
}

// ----------------------------------------------------------------------
// Writing
// ----------------------------------------------------------------------
/// The versions written so far: in closed blocks, and in the open one.
#[verifier::ext_equal]
pub struct Draft {
    pub blocks: Seq<Seq<Version>>,
    pub open: Seq<Version>,
}

impl Draft {
    /// Everything written so far.
    pub open spec fn run(self) -> Seq<Version> {
        join(self.blocks) + self.open
    }

    /// The open block is closed, unless it is empty.
    pub open spec fn closed(self) -> Draft {
        if self.open.len() == 0 {
            self
        } else {
            Draft { blocks: self.blocks.push(self.open), open: Seq::empty() }
        }
    }

    /// One more version is written; the block is closed when it is full.
    pub open spec fn plus(self, v: Version) -> Draft {
        let d = Draft { blocks: self.blocks, open: self.open.push(v) };
        if block::block_bytes(d.open).len() >= TARGET_BLOCK_SIZE {
            d.closed()
        } else {
            d
        }
    }
}

/// The draft of a whole run.
pub open spec fn draft_of(run: Seq<Version>) -> Draft
    decreases run.len(),
{
    if run.len() == 0 {
        Draft { blocks: Seq::empty(), open: Seq::empty() }
    } else {
        draft_of(run.drop_last()).plus(run.last())
    }
}

/// The blocks into which a run is cut.
pub open spec fn blocks_of(run: Seq<Version>) -> Seq<Seq<Version>> {
    draft_of(run).closed().blocks
}

/// Writes a table.
pub struct SsTableWriter {
    out: Vec<u8>,
    index: Vec<IndexEntry>,
    current_block: Vec<u8>,
    block_first_key: Option<MemKey>,
    keys: Vec<Vec<u8>>,
    sorted: bool,
    min_key: Option<MemKey>,
    max_key: Option<MemKey>,
    draft: Ghost<Draft>,
}

spec fn key_view(k: Option<MemKey>) -> Option<KeyView> {
    match k {
        Some(k) => Some(k@),
        None => None,
    }
}

impl View for SsTableWriter {
    type V = Draft;

    closed spec fn view(&self) -> Draft {
        self.draft@
    }
}

proof fn lemma_join_push(blocks: Seq<Seq<Version>>, b: Seq<Version>)
    ensures
        join(blocks.push(b)) == join(blocks) + b,
        data_bytes(blocks.push(b)) == data_bytes(blocks) + block::block_bytes(b),
        index_of(blocks.push(b)) == index_of(blocks).push(
            IndexView {
                first: b[0].key,
                offset: data_bytes(blocks).len() as u64,
                size: block::block_bytes(b).len() as u64,
            },
        ),
{
    assert(blocks.push(b).drop_last() =~= blocks);
}

proof fn lemma_users_push(run: Seq<Version>, v: Version)
    ensures
        users(run.push(v)) == (if users(run).contains(v.key.user) {
            users(run)
        } else {
            users(run).push(v.key.user)
        }),
{
    assert(run.push(v).drop_last() =~= run);
}

proof fn lemma_block_bytes_push(run: Seq<Version>, v: Version)
    ensures
        block::block_bytes(run.push(v)) == block::block_bytes(run) + block::entry_bytes(v),
{
    assert(run.push(v).drop_last() =~= run);
}

/// Whether the list holds the key.
fn holds_key(keys: &[Vec<u8>], k: &[u8]) -> (r: bool)
    ensures
        r == bytes::views(keys@).contains(k@),
{
    let ghost all = bytes::views(keys@);
    let mut i: usize = keys.len();
    while i > 0
        invariant
            i <= keys@.len(),
            all == bytes::views(keys@),
            forall|j: int| i <= j < keys@.len() ==> all[j] != k@,
        decreases i,
    {
        i = i - 1;
        if bytes::bytes_eq(keys[i].as_slice(), k) {
            assert(all[i as int] == k@);
            return true;
        }
        assert(all[i as int] != k@);
    }
    false
}

/// The last of the keys comes behind all others.
spec fn last_is_greatest(keys: Seq<Seq<u8>>) -> bool {
    forall|i: int| 0 <= i < keys.len() - 1 ==> bytes::lex_lt(#[trigger] keys[i], keys.last())
}

/// Whether the key comes behind all of the list, given whether its last one does.
fn comes_last(keys: &[Vec<u8>], sorted: bool, k: &[u8]) -> (r: bool)
    requires
        sorted ==> last_is_greatest(bytes::views(keys@)),
    ensures
        r ==> sorted && !bytes::views(keys@).contains(k@) && last_is_greatest(
            bytes::views(keys@).push(k@),
        ),
{
    let ghost all = bytes::views(keys@);
    if !sorted {
        return false;
    }
    if keys.len() == 0 {
        return true;
    }
    let last = keys[keys.len() - 1].as_slice();
    if !bytes::bytes_lt(last, k) {
        return false;
    }
    proof {
        assert(all.last() == last@);
        assert forall|i: int| 0 <= i < all.len() implies bytes::lex_lt(#[trigger] all[i], k@) by {
            if i < all.len() - 1 {
                bytes::lemma_lex_transitive(all[i], all.last(), k@);
            }
        }
        if all.contains(k@) {
            bytes::lemma_lex_irreflexive(k@);
        }
    }
    true
}

fn copy_key(k: &Option<MemKey>) -> (r: Option<MemKey>)
    ensures
        key_view(r) == key_view(*k),
{
    match k {
        Some(k) => Some(k.clone()),
        None => None,
    }
}

impl SsTableWriter {
    /// The buffers hold what the draft says.
    pub closed spec fn wf(&self) -> bool {
        let d = self.draft@;
        let run = d.run();
        &&& self.out@ == data_bytes(d.blocks)
        &&& self.current_block@ == block::block_bytes(d.open)
        &&& self.sorted ==> last_is_greatest(bytes::views(self.keys@))
        &&& index_views(self.index@) == index_of(d.blocks)
        &&& key_view(self.block_first_key) == (if d.open.len() == 0 {
            None
        } else {
            Some(d.open[0].key)
        })
        &&& bytes::views(self.keys@) == users(run)
        &&& key_view(self.min_key) == (if run.len() == 0 {
            None
        } else {
            Some(run[0].key)
        })
        &&& key_view(self.max_key) == (if run.len() == 0 {
            None
        } else {
            Some(run.last().key)
        })
    }

    /// An empty table.
    pub fn new() -> (r: Self)
        ensures
            r.wf(),
            r@ == (Draft { blocks: Seq::empty(), open: Seq::empty() }),
    {
        let ghost d = Draft { blocks: Seq::empty(), open: Seq::empty() };
        let r = SsTableWriter {
            out: Vec::new(),
            index: Vec::new(),
            current_block: Vec::new(),
            block_first_key: None,
            keys: Vec::new(),
            sorted: true,
            min_key: None,
            max_key: None,
            draft: Ghost(d),
        };
        proof {
            assert(d.run() =~= Seq::empty());
            assert(r.out@ =~= data_bytes(d.blocks));
            assert(r.current_block@ =~= block::block_bytes(d.open));
            assert(index_views(r.index@) =~= index_of(d.blocks));
            assert(bytes::views(r.keys@) =~= users(d.run()));
        }
        r
    }

    /// Writes one more version.
    pub fn add(&mut self, k: &MemKey, value: &Option<Vec<u8>>)
        requires
            old(self).wf(),
        ensures
            final(self).wf(),
            final(self)@ == old(self)@.plus(
                Version { key: k@, value: bytes::value_view(*value) },
            ),
    {
        let ghost d = self.draft@;
        let ghost v = Version { key: k@, value: bytes::value_view(*value) };
        let ghost e = Draft { blocks: d.blocks, open: d.open.push(v) };
        proof {
            assert(e.run() =~= d.run().push(v));
            lemma_users_push(d.run(), v);
            lemma_block_bytes_push(d.open, v);
        }
        if self.min_key.is_none() {
            self.min_key = Some(k.clone());
        }
        self.max_key = Some(k.clone());
        let behind = comes_last(self.keys.as_slice(), self.sorted, k.user_key.as_slice());
        if behind || !holds_key(self.keys.as_slice(), k.user_key.as_slice()) {
            self.sorted = behind;
            let ghost before = bytes::views(self.keys@);
            self.keys.push(bytes::copy_bytes(k.user_key.as_slice()));
            assert(bytes::views(self.keys@) =~= before.push(k@.user));
        }
        if self.block_first_key.is_none() {
            self.block_first_key = Some(k.clone());
        }
        block::push_entry(&mut self.current_block, k, value);
        proof {
            self.draft@ = e;
        }
        if self.current_block.len() >= TARGET_BLOCK_SIZE {
            self.flush_block();
        }
    }

    /// Closes the open block, unless it is empty.
    fn flush_block(&mut self)
        requires
            old(self).wf(),
        ensures
            final(self).wf(),
            final(self)@ == old(self)@.closed(),
    {
        let ghost d = self.draft@;
        if self.current_block.len() == 0 {
            proof {
                lemma_block_is_empty(d.open);
            }
            return;
        }
        assert(d.open.len() > 0);
        let size: u64 = self.current_block.len() as u64;
        let offset: u64 = self.out.len() as u64;
        match copy_key(&self.block_first_key) {
            Some(first_key) => {
                let ghost before = index_views(self.index@);
                let entry = IndexEntry { first_key, offset, size };
                let ghost view = entry@;
                self.index.push(entry);
                assert(index_views(self.index@) =~= before.push(view));
            },
            None => {
                assert(false);
            },
        }
        bytes::append_bytes(&mut self.out, self.current_block.as_slice());
        self.current_block.clear();
        self.block_first_key = None;
        proof {
            let e = d.closed();
            lemma_join_push(d.blocks, d.open);
            assert(e.run() =~= d.run());
            self.draft@ = e;
            assert(self.current_block@ =~= block::block_bytes(e.open));
        }
    }

    /// The number of bytes of versions written so far.
    pub fn data_len(&self) -> (r: u128)
        requires
            self.wf(),
        ensures
            r == data_bytes(self@.blocks).len() + block::block_bytes(self@.open).len(),
    {
        self.out.len() as u128 + self.current_block.len() as u128
    }

    /// Whether nothing has been written yet.
    pub fn is_empty(&self) -> (r: bool)
        requires
            self.wf(),
        ensures
            r == (self@.run().len() == 0),
    {
        self.min_key.is_none()
    }

    /// The number of user keys written so far.
    pub fn key_count(&self) -> (r: usize)
        requires
            self.wf(),
        ensures
            r == users(self@.run()).len(),
    {
        assert(bytes::views(self.keys@).len() == self.keys@.len());
        self.keys.len()
    }

    /// Closes the table: its file, with a Bloom filter of the given size.
    #[verifier::spinoff_prover]
    #[verifier::rlimit(60)]
    pub fn finish(self, num_bits: usize, num_hashes: usize) -> (r: Vec<u8>)
        requires
            self.wf(),
            users(self@.run()).len() > 0 ==> 0 < num_bits <= usize::MAX - 8,
        ensures
            exists|bits: Seq<u8>, k: nat|
                #![trigger table_bytes(self@.closed().blocks, bits, k)]
                filter_for(bits, k, users(self@.run()), num_bits, num_hashes) && r@ == table_bytes(
                    self@.closed().blocks,
                    bits,
                    k,
                ),
    {
        let mut w = self;
        w.flush_block();
        let ghost blocks = w.draft@.blocks;
        let ghost run = join(blocks);
        proof {
            assert(w.draft@.run() =~= run);
            if self@.open.len() > 0 {
                lemma_join_push(self@.blocks, self@.open);
                assert(self@.run() =~= run);
            }
        }
        let bloom = BloomFilter::new(w.keys.as_slice(), num_bits, num_hashes);
        proof {
            assert(bytes::views(w.keys@).len() == w.keys@.len());
        }
        let index_offset: u64 = w.out.len() as u64;
        let index_buf = encode_index(w.index.as_slice());
        let index_size: u64 = index_buf.len() as u64;
        let mut out: Vec<u8> = w.out;
        bytes::append_bytes(&mut out, index_buf.as_slice());
        let bloom_offset: u64 = out.len() as u64;
        bytes::append_bytes(&mut out, bloom.bits.as_slice());
        let bloom_size: u64 = bloom.bits.len() as u64;
        let meta_offset: u64 = out.len() as u64;
        push_range_key(&mut out, &w.min_key);
        push_range_key(&mut out, &w.max_key);
        bytes::push_le(&mut out, bloom.k as u64, 4);
        bytes::push_le(&mut out, index_offset, 8);
        bytes::push_le(&mut out, index_size, 8);
        bytes::push_le(&mut out, bloom_offset, 8);
        bytes::push_le(&mut out, bloom_size, 8);
        bytes::push_le(&mut out, meta_offset, 8);
        let end = magic_bytes();
        bytes::append_bytes(&mut out, end.as_slice());
        proof {
            let bits = bloom.bits@;
            let k = bloom.k as nat;
            assert(filter_for(bits, k, users(self@.run()), num_bits, num_hashes));
            assert(out@ =~= table_bytes(blocks, bits, k));
        }
        out
    }
}

proof fn lemma_block_is_empty(run: Seq<Version>)
    requires
        block::block_bytes(run).len() == 0,
    ensures
        run.len() == 0,
{
    if run.len() > 0 {
        assert(block::entry_bytes(run.last()).len() >= 21);
    }
}

fn magic_bytes() -> (r: Vec<u8>)
    ensures
        r@ == magic(),
{
    let r = vec![83u8, 84, 82, 65, 84, 65, 83, 49];
    assert(r@ =~= magic());
    r
}

/// The index in the file.
fn encode_index(index: &[IndexEntry]) -> (r: Vec<u8>)
    ensures
        r@ == index_bytes(index_views(index@)),
{
    let ghost all = index_views(index@);
    let mut out: Vec<u8> = Vec::new();
    bytes::push_le(&mut out, index.len() as u64, 4);
    let ghost head = bytes::le_bytes(all.len(), 4);
    assert(out@ =~= head + index_items(all.take(0)));
    let mut i: usize = 0;
    while i < index.len()
        invariant
            i <= index@.len(),
            all == index_views(index@),
            out@ == head + index_items(all.take(i as int)),
        decreases index@.len() - i,
    {
        let e = &index[i];
        let ghost before = out@;
        bytes::push_le(&mut out, e.offset, 8);
        bytes::push_le(&mut out, e.size, 8);
        bytes::push_le(&mut out, e.first_key.ts.physical, 8);
        bytes::push_le(&mut out, e.first_key.ts.logical as u64, 4);
        bytes::push_le(&mut out, e.first_key.user_key.len() as u64, 4);
        bytes::append_bytes(&mut out, e.first_key.user_key.as_slice());
        proof {
            assert(out@ =~= before + index_entry_bytes(e@));
            assert(all.take(i + 1).drop_last() =~= all.take(i as int));
            assert(all.take(i + 1).last() == e@);
            assert(out@ =~= head + index_items(all.take(i + 1)));
        }
        i = i + 1;
    }
    assert(all.take(i as int) =~= all);
    out
}

/// Appends a key of the range.
fn push_range_key(out: &mut Vec<u8>, k: &Option<MemKey>)
    ensures
        final(out)@ == old(out)@ + range_key_bytes(
            (match key_view(*k) {
                Some(v) => v,
                None => zero_key(),
            }),
        ),
{
    let ghost start = out@;
    match k {
        Some(k) => {
            bytes::push_le(out, k.user_key.len() as u64, 4);
            bytes::append_bytes(out, k.user_key.as_slice());
            bytes::push_le(out, k.ts.physical, 8);
            bytes::push_le(out, k.ts.logical as u64, 4);
            assert(out@ =~= start + range_key_bytes(k@));
        },
        None => {
            bytes::push_le(out, 0, 4);
            bytes::push_le(out, 0, 8);
            bytes::push_le(out, 0, 4);
            assert(out@ =~= start + range_key_bytes(zero_key()));
        },
    }
}

} // verus!
