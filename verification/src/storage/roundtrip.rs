//! What was written to a table is read back from it.
use crate::bytes;
use crate::storage::block;
use crate::storage::bloom;
use crate::storage::key;
use crate::storage::key::{KeyView, Version};
use crate::storage::lsm_model;
use crate::storage::reader;
use crate::storage::reader::TableView;
use crate::storage::sstable;
use crate::storage::sstable::{Draft, IndexView};
use crate::storage::timestamp::HlcTimestamp;
use crate::storage::wal;
use vstd::prelude::*;

verus! {

broadcast use crate::bytes::lemma_le_bytes_len;

/// `part` stands in `b` from `at` on.
pub open spec fn holds(b: Seq<u8>, at: int, part: Seq<u8>) -> bool {
    0 <= at && at + part.len() <= b.len() && b.subrange(at, at + part.len() as int) == part
}

/// A part of what stands there stands there too.
proof fn lemma_holds_part(b: Seq<u8>, at: int, x: Seq<u8>, y: Seq<u8>, z: Seq<u8>)
    requires
        holds(b, at, x + y + z),
    ensures
        holds(b, at + x.len(), y),
{
    let whole = x + y + z;
    assert(b.subrange(at + x.len(), at + x.len() + y.len() as int) =~= whole.subrange(
        x.len() as int,
        x.len() + y.len() as int,
    ));
    assert(whole.subrange(x.len() as int, x.len() + y.len() as int) =~= y);
}

proof fn lemma_u32_at(b: Seq<u8>, at: int, x: nat)
    requires
        holds(b, at, bytes::le_bytes(x, 4)),
        x < 0x1_0000_0000,
    ensures
        wal::u32_at(b, at) == x,
{
    bytes::lemma_pow256();
    bytes::lemma_le_round_trip(x, 4);
}

proof fn lemma_u64_at(b: Seq<u8>, at: int, x: nat)
    requires
        holds(b, at, bytes::le_bytes(x, 8)),
        x <= u64::MAX,
    ensures
        reader::u64_at(b, at) == x,
{
    bytes::lemma_pow256();
    bytes::lemma_le_round_trip(x, 8);
}

proof fn lemma_range_key(b: Seq<u8>, at: int, k: KeyView)
    requires
        holds(b, at, sstable::range_key_bytes(k)),
        k.user.len() < 0x1_0000_0000,
    ensures
        reader::parse_range_key(b, at) == Some((k, at + sstable::range_key_bytes(k).len())),
{
    let n = k.user.len() as int;
    let e = Seq::<u8>::empty();
    let a1 = bytes::le_bytes(k.user.len(), 4);
    let a3 = bytes::le_bytes(k.ts.physical as nat, 8);
    let a4 = bytes::le_bytes(k.ts.logical as nat, 4);
    let whole = sstable::range_key_bytes(k);
    assert(whole =~= e + a1 + (k.user + a3 + a4));
    lemma_holds_part(b, at, e, a1, k.user + a3 + a4);
    assert(whole =~= a1 + k.user + (a3 + a4));
    lemma_holds_part(b, at, a1, k.user, a3 + a4);
    assert(whole =~= (a1 + k.user) + a3 + a4);
    lemma_holds_part(b, at, a1 + k.user, a3, a4);
    assert(whole =~= (a1 + k.user + a3) + a4 + e);
    lemma_holds_part(b, at, a1 + k.user + a3, a4, e);
    lemma_u32_at(b, at, k.user.len());
    lemma_u64_at(b, at + 4 + n, k.ts.physical as nat);
    lemma_u32_at(b, at + 12 + n, k.ts.logical as nat);
}

proof fn lemma_index_entry(b: Seq<u8>, at: int, x: IndexView)
    requires
        holds(b, at, sstable::index_entry_bytes(x)),
        x.first.user.len() < 0x1_0000_0000,
    ensures
        reader::parse_index_entry(b, at) == Some((x, at + sstable::index_entry_bytes(x).len())),
{
    let e = Seq::<u8>::empty();
    let user = x.first.user;
    let a1 = bytes::le_bytes(x.offset as nat, 8);
    let a2 = bytes::le_bytes(x.size as nat, 8);
    let a3 = bytes::le_bytes(x.first.ts.physical as nat, 8);
    let a4 = bytes::le_bytes(x.first.ts.logical as nat, 4);
    let a5 = bytes::le_bytes(user.len(), 4);
    let whole = sstable::index_entry_bytes(x);
    assert(whole =~= e + a1 + (a2 + a3 + a4 + a5 + user));
    lemma_holds_part(b, at, e, a1, a2 + a3 + a4 + a5 + user);
    assert(whole =~= a1 + a2 + (a3 + a4 + a5 + user));
    lemma_holds_part(b, at, a1, a2, a3 + a4 + a5 + user);
    assert(whole =~= (a1 + a2) + a3 + (a4 + a5 + user));
    lemma_holds_part(b, at, a1 + a2, a3, a4 + a5 + user);
    assert(whole =~= (a1 + a2 + a3) + a4 + (a5 + user));
    lemma_holds_part(b, at, a1 + a2 + a3, a4, a5 + user);
    assert(whole =~= (a1 + a2 + a3 + a4) + a5 + user);
    lemma_holds_part(b, at, a1 + a2 + a3 + a4, a5, user);
    assert(whole =~= (a1 + a2 + a3 + a4 + a5) + user + e);
    lemma_holds_part(b, at, a1 + a2 + a3 + a4 + a5, user, e);
    lemma_u64_at(b, at, x.offset as nat);
    lemma_u64_at(b, at + 8, x.size as nat);
    lemma_u64_at(b, at + 16, x.first.ts.physical as nat);
    lemma_u32_at(b, at + 24, x.first.ts.logical as nat);
    lemma_u32_at(b, at + 28, user.len());
}

proof fn lemma_index_items(b: Seq<u8>, at: int, es: Seq<IndexView>)
    requires
        holds(b, at, sstable::index_items(es)),
        forall|i: int| 0 <= i < es.len() ==> (#[trigger] es[i]).first.user.len() < 0x1_0000_0000,
    ensures
        reader::parse_index(b, at, es.len()) == Some((es, at + sstable::index_items(es).len())),
    decreases es.len(),
{
    if es.len() == 0 {
        assert(es =~= Seq::empty());
    } else {
        let e = Seq::<u8>::empty();
        let front = sstable::index_items(es.drop_last());
        let last = sstable::index_entry_bytes(es.last());
        let whole = sstable::index_items(es);
        assert(whole =~= e + front + last);
        lemma_holds_part(b, at, e, front, last);
        assert(whole =~= front + last + e);
        lemma_holds_part(b, at, front, last, e);
        assert forall|i: int| 0 <= i < es.drop_last().len() implies (
        #[trigger] es.drop_last()[i]).first.user.len() < 0x1_0000_0000 by {
            assert(es.drop_last()[i] == es[i]);
        }
        lemma_index_items(b, at, es.drop_last());
        assert(es.last() == es[es.len() - 1]);
        lemma_index_entry(b, at + front.len(), es.last());
        assert(es.drop_last().push(es.last()) =~= es);
    }
}

/// Where a block stands in the file, and what the index says of it.
proof fn lemma_block_in_data(blocks: Seq<Seq<Version>>, i: int)
    requires
        0 <= i < blocks.len(),
    ensures
        sstable::index_of(blocks).len() == blocks.len(),
        sstable::index_of(blocks)[i] == (IndexView {
            first: blocks[i][0].key,
            offset: sstable::data_bytes(blocks.take(i)).len() as u64,
            size: block::block_bytes(blocks[i]).len() as u64,
        }),
        holds(
            sstable::data_bytes(blocks),
            sstable::data_bytes(blocks.take(i)).len() as int,
            block::block_bytes(blocks[i]),
        ),
    decreases blocks.len(),
{
    let front = blocks.drop_last();
    let data = sstable::data_bytes(blocks);
    if i == blocks.len() - 1 {
        assert(blocks.take(i) =~= front);
        lemma_index_len(front);
        let part = block::block_bytes(blocks[i]);
        let at = sstable::data_bytes(front).len() as int;
        assert(data.subrange(at, at + part.len() as int) =~= part);
    } else {
        lemma_block_in_data(front, i);
        assert(front.take(i) =~= blocks.take(i));
        assert(front[i] == blocks[i]);
        let part = block::block_bytes(blocks[i]);
        let at = sstable::data_bytes(blocks.take(i)).len() as int;
        assert(data.subrange(at, at + part.len() as int) =~= sstable::data_bytes(front).subrange(
            at,
            at + part.len() as int,
        ));
    }
}

proof fn lemma_index_len(blocks: Seq<Seq<Version>>)
    ensures
        sstable::index_of(blocks).len() == blocks.len(),
    decreases blocks.len(),
{
    if blocks.len() > 0 {
        lemma_index_len(blocks.drop_last());
    }
}

/// The sizes of a table fit the fields of its file.
pub open spec fn table_fits(blocks: Seq<Seq<Version>>, bits: Seq<u8>, k: nat) -> bool {
    &&& sstable::table_bytes(blocks, bits, k).len() <= u64::MAX
    &&& blocks.len() < 0x1_0000_0000
    &&& k < 0x1_0000_0000
    &&& forall|i: int|
        0 <= i < blocks.len() ==> (#[trigger] blocks[i]).len() > 0 && forall|j: int|
            0 <= j < blocks[i].len() ==> block::version_fits(#[trigger] blocks[i][j])
}

/// The table that a file stands for.
pub open spec fn table_of(blocks: Seq<Seq<Version>>, bits: Seq<u8>, k: nat) -> TableView {
    TableView {
        data: sstable::table_bytes(blocks, bits, k),
        index: sstable::index_of(blocks),
        bits,
        k,
        min: sstable::min_key_of(sstable::join(blocks)),
        max: sstable::max_key_of(sstable::join(blocks)),
    }
}

proof fn lemma_join_fits(blocks: Seq<Seq<Version>>)
    requires
        forall|i: int|
            0 <= i < blocks.len() ==> (#[trigger] blocks[i]).len() > 0 && forall|j: int|
                0 <= j < blocks[i].len() ==> block::version_fits(#[trigger] blocks[i][j]),
    ensures
        forall|p: int|
            0 <= p < sstable::join(blocks).len() ==> block::version_fits(
                #[trigger] sstable::join(blocks)[p],
            ),
    decreases blocks.len(),
{
    if blocks.len() > 0 {
        let front = blocks.drop_last();
        assert forall|i: int| 0 <= i < front.len() implies (#[trigger] front[i]).len() > 0
            && forall|j: int|
            0 <= j < front[i].len() ==> block::version_fits(#[trigger] front[i][j]) by {
            assert(front[i] == blocks[i]);
        }
        lemma_join_fits(front);
        let last = blocks[blocks.len() - 1];
        assert(blocks.last() == last);
        assert forall|p: int| 0 <= p < sstable::join(blocks).len() implies block::version_fits(
            #[trigger] sstable::join(blocks)[p],
        ) by {
            let n = sstable::join(front).len();
            if p < n {
                assert(sstable::join(blocks)[p] == sstable::join(front)[p]);
            } else {
                assert(sstable::join(blocks)[p] == last[p - n]);
            }
        }
    }
}

/// The footer of a file is read back.
proof fn lemma_footer(b: Seq<u8>, f: int, data: nat, index: nat, bits: nat)
    requires
        holds(b, f, sstable::footer_bytes(data, index, bits)),
        data + index + bits <= u64::MAX,
    ensures
        b.subrange(f + 40, f + 48) == sstable::magic(),
        reader::u64_at(b, f) == data,
        reader::u64_at(b, f + 16) == data + index,
        reader::u64_at(b, f + 24) == bits,
        reader::u64_at(b, f + 32) == data + index + bits,
{
    let e = Seq::<u8>::empty();
    let foot = sstable::footer_bytes(data, index, bits);
    let f1 = bytes::le_bytes(data, 8);
    let f2 = bytes::le_bytes(index, 8);
    let f3 = bytes::le_bytes(data + index, 8);
    let f4 = bytes::le_bytes(bits, 8);
    let f5 = bytes::le_bytes(data + index + bits, 8);
    let f6 = sstable::magic();
    assert(foot =~= e + f1 + (f2 + f3 + f4 + f5 + f6));
    lemma_holds_part(b, f, e, f1, f2 + f3 + f4 + f5 + f6);
    assert(foot =~= (f1 + f2) + f3 + (f4 + f5 + f6));
    lemma_holds_part(b, f, f1 + f2, f3, f4 + f5 + f6);
    assert(foot =~= (f1 + f2 + f3) + f4 + (f5 + f6));
    lemma_holds_part(b, f, f1 + f2 + f3, f4, f5 + f6);
    assert(foot =~= (f1 + f2 + f3 + f4) + f5 + f6);
    lemma_holds_part(b, f, f1 + f2 + f3 + f4, f5, f6);
    assert(foot =~= (f1 + f2 + f3 + f4 + f5) + f6 + e);
    lemma_holds_part(b, f, f1 + f2 + f3 + f4 + f5, f6, e);
    lemma_u64_at(b, f, data);
    lemma_u64_at(b, f + 16, data + index);
    lemma_u64_at(b, f + 24, bits);
    lemma_u64_at(b, f + 32, data + index + bits);
}

/// The range of keys and the number of hashes are read back.
proof fn lemma_meta(b: Seq<u8>, at: int, min: KeyView, max: KeyView, k: nat)
    requires
        holds(b, at, sstable::meta_bytes(min, max, k)),
        min.user.len() < 0x1_0000_0000,
        max.user.len() < 0x1_0000_0000,
        k < 0x1_0000_0000,
    ensures
        ({
            let max_at = at + sstable::range_key_bytes(min).len();
            let k_at = max_at + sstable::range_key_bytes(max).len();
            &&& reader::parse_range_key(b, at) == Some((min, max_at))
            &&& reader::parse_range_key(b, max_at) == Some((max, k_at))
            &&& k_at + 4 <= b.len()
            &&& wal::u32_at(b, k_at) == k
        }),
{
    let e = Seq::<u8>::empty();
    let m = sstable::meta_bytes(min, max, k);
    let m1 = sstable::range_key_bytes(min);
    let m2 = sstable::range_key_bytes(max);
    let m3 = bytes::le_bytes(k, 4);
    assert(m =~= e + m1 + (m2 + m3));
    lemma_holds_part(b, at, e, m1, m2 + m3);
    assert(m =~= m1 + m2 + m3);
    lemma_holds_part(b, at, m1, m2, m3);
    assert(m =~= (m1 + m2) + m3 + e);
    lemma_holds_part(b, at, m1 + m2, m3, e);
    lemma_range_key(b, at, min);
    lemma_range_key(b, at + m1.len(), max);
    lemma_u32_at(b, at + m1.len() + m2.len(), k);
}

/// The index is read back.
proof fn lemma_index(b: Seq<u8>, at: int, es: Seq<IndexView>)
    requires
        holds(b, at, sstable::index_bytes(es)),
        es.len() < 0x1_0000_0000,
        forall|i: int| 0 <= i < es.len() ==> (#[trigger] es[i]).first.user.len() < 0x1_0000_0000,
    ensures
        at + 4 <= b.len(),
        wal::u32_at(b, at) == es.len(),
        reader::parse_index(b, at + 4, es.len()) matches Some((parsed, _)) && parsed == es,
{
    let e = Seq::<u8>::empty();
    let x = sstable::index_bytes(es);
    let x1 = bytes::le_bytes(es.len(), 4);
    let x2 = sstable::index_items(es);
    assert(x =~= e + x1 + x2);
    lemma_holds_part(b, at, e, x1, x2);
    assert(x =~= x1 + x2 + e);
    lemma_holds_part(b, at, x1, x2, e);
    lemma_u32_at(b, at, es.len());
    lemma_index_items(b, at + 4, es);
}

/// The five parts of a file stand one behind the other.
proof fn lemma_five_parts(d: Seq<u8>, x: Seq<u8>, bits: Seq<u8>, m: Seq<u8>, foot: Seq<u8>)
    ensures
        ({
            let b = d + x + bits + m + foot;
            &&& holds(b, d.len() as int, x)
            &&& holds(b, (d.len() + x.len()) as int, bits)
            &&& holds(b, (d.len() + x.len() + bits.len()) as int, m)
            &&& holds(b, (d.len() + x.len() + bits.len() + m.len()) as int, foot)
        }),
{
    let e = Seq::<u8>::empty();
    let b = d + x + bits + m + foot;
    assert(holds(b, 0, b)) by {
        assert(b.subrange(0, b.len() as int) =~= b);
    }
    assert(b =~= d + x + (bits + m + foot));
    lemma_holds_part(b, 0, d, x, bits + m + foot);
    assert(b =~= (d + x) + bits + (m + foot));
    lemma_holds_part(b, 0, d + x, bits, m + foot);
    assert(b =~= (d + x + bits) + m + foot);
    lemma_holds_part(b, 0, d + x + bits, m, foot);
    assert(b =~= (d + x + bits + m) + foot + e);
    lemma_holds_part(b, 0, d + x + bits + m, foot, e);
}

/// Opening a file that was written gives the table that was meant.
pub proof fn lemma_table_opens(blocks: Seq<Seq<Version>>, bits: Seq<u8>, k: nat)
    requires
        table_fits(blocks, bits, k),
    ensures
        reader::parse_table(sstable::table_bytes(blocks, bits, k)) == Ok::<
            TableView,
            sstable::TableError,
        >(table_of(blocks, bits, k)),
{
    let b = sstable::table_bytes(blocks, bits, k);
    let run = sstable::join(blocks);
    let d = sstable::data_bytes(blocks);
    let es = sstable::index_of(blocks);
    let x = sstable::index_bytes(es);
    let min = sstable::min_key_of(run);
    let max = sstable::max_key_of(run);
    let m = sstable::meta_bytes(min, max, k);
    let foot = sstable::footer_bytes(d.len(), x.len(), bits.len());
    let f = b.len() - 48;
    lemma_five_parts(d, x, bits, m, foot);
    assert(foot.len() == 48);
    lemma_footer(b, f, d.len(), x.len(), bits.len());
    lemma_join_fits(blocks);
    if run.len() > 0 {
        assert(block::version_fits(run[0]));
        assert(block::version_fits(run[run.len() - 1]));
    }
    lemma_meta(b, (d.len() + x.len() + bits.len()) as int, min, max, k);
    lemma_index_len(blocks);
    assert forall|i: int| 0 <= i < es.len() implies (#[trigger] es[i]).first.user.len()
        < 0x1_0000_0000 by {
        lemma_block_in_data(blocks, i);
        assert(blocks[i].len() > 0);
        assert(block::version_fits(blocks[i][0]));
    }
    lemma_index(b, d.len() as int, es);
    assert(reader::parse_table(b) == reader::parse_parts(
        b,
        d.len() as int,
        (d.len() + x.len()) as int,
        bits.len() as int,
        (d.len() + x.len() + bits.len()) as int,
    ));
}

/// The table that was opened holds the blocks that were written.
pub proof fn lemma_table_blocks(blocks: Seq<Seq<Version>>, bits: Seq<u8>, k: nat)
    requires
        table_fits(blocks, bits, k),
        bits.len() * 8 <= usize::MAX,
    ensures
        table_of(blocks, bits, k).readable(),
        table_of(blocks, bits, k).blocks() == blocks,
        table_of(blocks, bits, k).run() == sstable::join(blocks),
{
    let t = table_of(blocks, bits, k);
    let b = t.data;
    let d = sstable::data_bytes(blocks);
    lemma_index_len(blocks);
    assert forall|i: int| 0 <= i < t.index.len() implies #[trigger] t.in_file(i) && block::block_ok(
        t.block_data(i),
    ) && t.block(i) == blocks[i] by {
        lemma_block_in_data(blocks, i);
        let at = sstable::data_bytes(blocks.take(i)).len() as int;
        let part = block::block_bytes(blocks[i]);
        assert(d.len() <= b.len());
        assert(b.subrange(at, at + part.len() as int) =~= d.subrange(at, at + part.len() as int));
        assert(t.block_data(i) == part);
        assert(blocks[i].len() > 0);
        let e = Seq::<u8>::empty();
        assert forall|j: int| 0 <= j < blocks[i].len() implies block::version_fits(
            #[trigger] blocks[i][j],
        ) by {}
        block::lemma_block_round_trip(blocks[i], e);
        assert(part + e =~= part);
        assert(blocks[i] + block::block_versions(e) =~= blocks[i]);
    }
    assert(t.blocks().len() == blocks.len());
    assert forall|i: int| 0 <= i < blocks.len() implies t.blocks()[i] == blocks[i] by {
        assert(t.in_file(i));
    }
    assert(t.blocks() =~= blocks);
}

/// A run is cut into blocks, none of them empty, without loss.
pub proof fn lemma_draft(run: Seq<Version>)
    ensures
        sstable::draft_of(run).run() == run,
        sstable::join(sstable::blocks_of(run)) == run,
        forall|i: int|
            0 <= i < sstable::blocks_of(run).len() ==> (
            #[trigger] sstable::blocks_of(run)[i]).len() > 0,
        forall|i: int|
            0 <= i < sstable::draft_of(run).blocks.len() ==> (
            #[trigger] sstable::draft_of(run).blocks[i]).len() > 0,
    decreases run.len(),
{
    let d = sstable::draft_of(run);
    if run.len() == 0 {
        assert(d.run() =~= run);
    } else {
        let v = run.last();
        let front = sstable::draft_of(run.drop_last());
        lemma_draft(run.drop_last());
        let more = Draft { blocks: front.blocks, open: front.open.push(v) };
        assert(more.run() =~= front.run().push(v));
        assert(run =~= run.drop_last().push(v));
        lemma_closed(more);
    }
    lemma_closed(d);
    assert(sstable::blocks_of(run) == d.closed().blocks);
    assert(d.closed().run() =~= sstable::join(d.closed().blocks));
}

proof fn lemma_closed(d: Draft)
    requires
        forall|i: int| 0 <= i < d.blocks.len() ==> (#[trigger] d.blocks[i]).len() > 0,
    ensures
        d.closed().run() == d.run(),
        d.closed().open.len() == 0,
        forall|i: int|
            0 <= i < d.closed().blocks.len() ==> (#[trigger] d.closed().blocks[i]).len() > 0,
{
    if d.open.len() > 0 {
        assert(d.blocks.push(d.open).drop_last() =~= d.blocks);
        assert(d.closed().run() =~= d.run());
    }
}

/// All user keys of a run are in its list of user keys.
pub proof fn lemma_users_complete(run: Seq<Version>, p: int)
    requires
        0 <= p < run.len(),
    ensures
        sstable::users(run).contains(run[p].key.user),
        sstable::users(run).len() > 0,
    decreases run.len(),
{
    let front = sstable::users(run.drop_last());
    let user = run.last().key.user;
    if p == run.len() - 1 {
        if !front.contains(user) {
            assert(sstable::users(run)[front.len() as int] == user);
        }
    } else {
        lemma_users_complete(run.drop_last(), p);
        let w = choose|w: int| 0 <= w < front.len() && front[w] == run[p].key.user;
        assert(sstable::users(run)[w] == run[p].key.user);
    }
}

/// What was written is what is read: the file of a sorted run, with a filter
/// for its user keys, opens as a table that holds that run and agrees with it.
pub proof fn lemma_table_round_trip(
    run: Seq<Version>,
    bits: Seq<u8>,
    k: nat,
    num_bits: usize,
    num_hashes: usize,
)
    requires
        key::sorted(run),
        table_fits(sstable::blocks_of(run), bits, k),
        bits.len() * 8 <= usize::MAX,
        sstable::filter_for(bits, k, sstable::users(run), num_bits, num_hashes),
        num_bits > 0,
    ensures
        reader::parse_table(sstable::table_bytes(sstable::blocks_of(run), bits, k)) == Ok::<
            TableView,
            sstable::TableError,
        >(table_of(sstable::blocks_of(run), bits, k)),
        table_of(sstable::blocks_of(run), bits, k).ok(),
        table_of(sstable::blocks_of(run), bits, k).run() == run,
{
    let blocks = sstable::blocks_of(run);
    let t = table_of(blocks, bits, k);
    lemma_draft(run);
    lemma_table_opens(blocks, bits, k);
    lemma_table_blocks(blocks, bits, k);
    lemma_index_len(blocks);
    assert forall|i: int| 0 <= i < t.index.len() implies (#[trigger] t.block(i)).len() > 0
        && t.index[i].first == t.block(i)[0].key by {
        lemma_block_in_data(blocks, i);
        assert(t.blocks()[i] == blocks[i]);
        assert(blocks[i].len() > 0);
    }
    assert forall|p: int| 0 <= p < t.run().len() implies bloom::may_hold(
        t.bits,
        t.k as int,
        (#[trigger] t.run()[p]).key.user,
    ) by {
        lemma_users_complete(run, p);
        let keys = sstable::users(run);
        let w = choose|w: int| 0 <= w < keys.len() && keys[w] == run[p].key.user;
        bloom::lemma_no_false_negatives(bits, keys, k as int, w);
    }
}

/// The file is what a writer makes of the run.
pub open spec fn is_file_of(
    file: Seq<u8>,
    run: Seq<Version>,
    num_bits: usize,
    num_hashes: usize,
) -> bool {
    exists|bits: Seq<u8>, k: nat|
        #![trigger sstable::table_bytes(sstable::blocks_of(run), bits, k)]
        sstable::filter_for(bits, k, sstable::users(run), num_bits, num_hashes) && file
            == sstable::table_bytes(sstable::blocks_of(run), bits, k)
}

/// The file that a writer makes of a sorted run opens as a table. Its range is the
/// run's first and last key, its blocks one behind the other are the run, its index
/// names the first key of each block, its filter holds every key of the run, and what
/// is read in it at a time is what is read in the run, where the version of just that
/// time is not there twice.
pub proof fn lemma_written_table_is_read(
    run: Seq<Version>,
    file: Seq<u8>,
    num_bits: usize,
    num_hashes: usize,
    key: Seq<u8>,
    as_of: HlcTimestamp,
)
    requires
        lsm_model::storable(run),
        file.len() <= u64::MAX,
        0 < num_bits <= usize::MAX - 8,
        is_file_of(file, run, num_bits, num_hashes),
    ensures
        reader::parse_table(file) matches Ok(t) && {
            &&& t.min == sstable::min_key_of(run)
            &&& t.max == sstable::max_key_of(run)
            &&& sstable::join(t.blocks()) == run
            &&& t.index.len() == t.blocks().len()
            &&& forall|i: int|
                0 <= i < t.index.len() ==> t.blocks()[i].len() > 0 && (
                #[trigger] t.index[i]).first == t.blocks()[i][0].key
            &&& forall|p: int|
                0 <= p < run.len() ==> bloom::may_hold(
                    t.bits,
                    t.k as int,
                    (#[trigger] run[p]).key.user,
                )
            &&& reader::once(run, KeyView { user: key, ts: as_of }) ==> reader::lookup(
                t,
                key,
                as_of,
            ) == key::visible(run, key, as_of)
        },
{
    let blocks = sstable::blocks_of(run);
    let (bits, k) = choose|bits: Seq<u8>, k: nat|
        #![trigger sstable::table_bytes(sstable::blocks_of(run), bits, k)]
        sstable::filter_for(bits, k, sstable::users(run), num_bits, num_hashes) && file
            == sstable::table_bytes(sstable::blocks_of(run), bits, k);
    lemma_draft(run);
    lsm_model::lemma_block_count(blocks);
    lsm_model::lemma_blocks_fit(blocks);
    assert(bits.len() * 8 <= usize::MAX);
    assert(table_fits(blocks, bits, k));
    lemma_table_round_trip(run, bits, k, num_bits, num_hashes);
    let t = table_of(blocks, bits, k);
    assert forall|i: int| 0 <= i < t.index.len() implies t.blocks()[i].len() > 0 && (
    #[trigger] t.index[i]).first == t.blocks()[i][0].key by {
        assert(t.block(i).len() > 0);
    }
    if reader::once(run, KeyView { user: key, ts: as_of }) {
        reader::lemma_lookup_reads_run(t, key, as_of);
    }
}

} // verus!
