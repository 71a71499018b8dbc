//! Blocks of a table: versions one after the other.
use crate::bytes;
use crate::storage::key;
use crate::storage::key::{KeyView, MemKey, Version};
use crate::storage::timestamp::HlcTimestamp;
use crate::storage::wal;
use crate::storage::wal::RecordView;
use vstd::prelude::*;

verus! {

broadcast use crate::bytes::lemma_le_bytes_len;

/// A version as an operation: a value that was written, or a deletion.
pub open spec fn record_of(v: Version) -> RecordView {
    RecordView {
        is_delete: v.value is None,
        key: v.key.user,
        value: match v.value {
            Some(b) => b,
            None => Seq::empty(),
        },
        ts: v.key.ts,
    }
}

/// The bytes of a version in a block: kind, time, lengths, key and value.
pub open spec fn entry_bytes(v: Version) -> Seq<u8> {
    wal::body_bytes(record_of(v))
}

/// The bytes of a block.
pub open spec fn block_bytes(run: Seq<Version>) -> Seq<u8>
    decreases run.len(),
{
    if run.len() == 0 {
        Seq::empty()
    } else {
        block_bytes(run.drop_last()) + entry_bytes(run.last())
    }
}

/// The length of the entry at the front of `b`, going by its header.
pub open spec fn entry_len(b: Seq<u8>) -> int {
    21 + wal::u32_at(b, 13) as int + wal::u32_at(b, 17) as int
}

/// The front of `b` is an entry. A deletion's value length says nothing.
pub open spec fn entry_ok(b: Seq<u8>) -> bool {
    &&& b.len() >= 21
    &&& b.len() >= 21 + wal::u32_at(b, 13)
    &&& b[0] == 1 || b.len() >= entry_len(b)
}

/// The version at the front of `b`.
pub open spec fn front_version(b: Seq<u8>) -> Version {
    let k = wal::u32_at(b, 13) as int;
    Version {
        key: key::KeyView {
            user: b.subrange(21, 21 + k),
            ts: HlcTimestamp {
                physical: bytes::le_value(b.subrange(1, 9)) as u64,
                logical: wal::u32_at(b, 9) as u32,
            },
        },
        value: if b[0] == 1 {
            None
        } else {
            Some(b.subrange(21 + k, entry_len(b)))
        },
    }
}

/// What follows the entry at the front of `b`.
pub open spec fn after_entry(b: Seq<u8>) -> Seq<u8> {
    if entry_len(b) <= b.len() {
        b.skip(entry_len(b))
    } else {
        Seq::empty()
    }
}

/// The bytes are whole entries.
pub open spec fn block_ok(b: Seq<u8>) -> bool
    decreases b.len(),
{
    b.len() == 0 || (entry_ok(b) && block_ok(after_entry(b)))
}

/// The versions in a block.
pub open spec fn block_versions(b: Seq<u8>) -> Seq<Version>
    decreases b.len(),
{
    if b.len() == 0 || !entry_ok(b) {
        Seq::empty()
    } else {
        seq![front_version(b)] + block_versions(after_entry(b))
    }
}

/// Appends a version to a block.
pub fn push_entry(out: &mut Vec<u8>, k: &MemKey, value: &Option<Vec<u8>>)
    ensures
        final(out)@ == old(out)@ + entry_bytes(
            Version { key: k@, value: bytes::value_view(*value) },
        ),
{
    let user = k.user_key.as_slice();
    let ghost v = Version { key: k@, value: bytes::value_view(*value) };
    let ghost start = out@;
    match value {
        Some(b) => {
            out.push(0);
            bytes::push_le(out, k.ts.physical, 8);
            bytes::push_le(out, k.ts.logical as u64, 4);
            bytes::push_le(out, user.len() as u64, 4);
            bytes::push_le(out, b.len() as u64, 4);
            assert(out@ =~= start + wal::header_bytes(record_of(v)));
            bytes::append_bytes(out, user);
            bytes::append_bytes(out, b.as_slice());
        },
        None => {
            out.push(1);
            bytes::push_le(out, k.ts.physical, 8);
            bytes::push_le(out, k.ts.logical as u64, 4);
            bytes::push_le(out, user.len() as u64, 4);
            bytes::push_le(out, 0, 4);
            assert(out@ =~= start + wal::header_bytes(record_of(v)));
            bytes::append_bytes(out, user);
        },
    }
    assert(out@ =~= start + entry_bytes(v));
}

/// Whether the bytes are whole entries.
pub fn is_block(b: &[u8]) -> (r: bool)
    ensures
        r == block_ok(b@),
{
    let mut offset: usize = 0;
    assert(b@.skip(0) =~= b@);
    while offset < b.len()
        invariant
            offset <= b@.len(),
            block_ok(b@) == block_ok(b@.skip(offset as int)),
        decreases b@.len() - offset,
    {
        let rest = vstd::slice::slice_subrange(b, offset, b.len());
        assert(rest@ =~= b@.skip(offset as int));
        if rest.len() < 21 {
            return false;
        }
        let key_len: u64 = bytes::read_le_u32(rest, 13) as u64;
        let val_len: u64 = bytes::read_le_u32(rest, 17) as u64;
        let len: u64 = rest.len() as u64;
        if len < 21 + key_len || (rest[0] != 1 && len < 21 + key_len + val_len) {
            return false;
        }
        if 21 + key_len + val_len >= len {
            assert(after_entry(rest@) =~= Seq::empty());
            assert(block_ok(after_entry(rest@)));
            return true;
        }
        let size: usize = (21 + key_len + val_len) as usize;
        assert(rest@.skip(size as int) =~= b@.skip(offset + size));
        offset = offset + size;
    }
    true
}

/// The versions in a block.
pub fn read_versions(b: &[u8]) -> (r: Vec<(MemKey, Option<Vec<u8>>)>)
    requires
        block_ok(b@),
    ensures
        key::version_views(r@) == block_versions(b@),
{
    let mut out: Vec<(MemKey, Option<Vec<u8>>)> = Vec::new();
    let mut offset: usize = 0;
    assert(b@.skip(0) =~= b@);
    assert(key::version_views(out@) + block_versions(b@) =~= block_versions(b@));
    while offset < b.len()
        invariant
            offset <= b@.len(),
            block_ok(b@.skip(offset as int)),
            block_versions(b@) == key::version_views(out@) + block_versions(
                b@.skip(offset as int),
            ),
        decreases b@.len() - offset,
    {
        let rest = vstd::slice::slice_subrange(b, offset, b.len());
        assert(rest@ =~= b@.skip(offset as int));
        let len: u64 = rest.len() as u64;
        let key_len: u64 = bytes::read_le_u32(rest, 13) as u64;
        let val_len: u64 = bytes::read_le_u32(rest, 17) as u64;
        let key_end: usize = (21 + key_len) as usize;
        let k = MemKey {
            user_key: bytes::copy_range(rest, 21, key_end),
            ts: HlcTimestamp {
                physical: bytes::read_le_u64(rest, 1),
                logical: bytes::read_le_u32(rest, 9),
            },
        };
        let value: Option<Vec<u8>> = if rest[0] == 1 {
            None
        } else {
            Some(bytes::copy_range(rest, key_end, key_end + val_len as usize))
        };
        let ghost before = key::version_views(out@);
        let item = (k, value);
        let ghost view = key::version_view(item);
        assert(view == front_version(rest@));
        out.push(item);
        assert(key::version_views(out@) =~= before.push(view));
        assert(before + (seq![view] + block_versions(after_entry(rest@))) =~= before.push(view)
            + block_versions(after_entry(rest@)));
        if 21 + key_len + val_len >= len {
            assert(after_entry(rest@) =~= Seq::empty());
            assert(b@.skip(b@.len() as int) =~= Seq::empty());
            offset = b.len();
        } else {
            let size: usize = (21 + key_len + val_len) as usize;
            assert(rest@.skip(size as int) =~= b@.skip(offset + size));
            offset = offset + size;
        }
    }
    assert(b@.skip(offset as int) =~= Seq::empty());
    assert(block_versions(b@.skip(offset as int)) =~= Seq::empty());
    out
}

/// What a read of `k` at `as_of` finds in a block.
pub fn find_in_block(b: &[u8], k: &[u8], as_of: HlcTimestamp) -> (r: Option<Option<Vec<u8>>>)
    requires
        block_ok(b@),
    ensures
        crate::storage::memtable::found_view(r) == key::visible(block_versions(b@), k@, as_of),
{
    let mut offset: usize = 0;
    assert(b@.skip(0) =~= b@);
    while offset < b.len()
        invariant
            offset <= b@.len(),
            block_ok(b@.skip(offset as int)),
            key::visible(block_versions(b@), k@, as_of) == key::visible(
                block_versions(b@.skip(offset as int)),
                k@,
                as_of,
            ),
        decreases b@.len() - offset,
    {
        let rest = vstd::slice::slice_subrange(b, offset, b.len());
        assert(rest@ =~= b@.skip(offset as int));
        let ghost run = block_versions(rest@);
        let ghost front = front_version(rest@);
        let ghost behind = block_versions(after_entry(rest@));
        assert(run.drop_first() =~= behind);
        let len: u64 = rest.len() as u64;
        let key_len: u64 = bytes::read_le_u32(rest, 13) as u64;
        let val_len: u64 = bytes::read_le_u32(rest, 17) as u64;
        let key_end: usize = (21 + key_len) as usize;
        let user = vstd::slice::slice_subrange(rest, 21, key_end);
        let ts = HlcTimestamp {
            physical: bytes::read_le_u64(rest, 1),
            logical: bytes::read_le_u32(rest, 9),
        };
        assert(front.key == KeyView { user: user@, ts });
        if bytes::bytes_eq(user, k) && ts.is_at_or_before(&as_of) {
            assert(key::matches_at(run[0], k@, as_of));
            return if rest[0] == 1 {
                Some(None)
            } else {
                Some(Some(bytes::copy_range(rest, key_end, key_end + val_len as usize)))
            };
        }
        assert(!key::matches_at(run[0], k@, as_of));
        proof {
            key::lemma_first_match(behind, k@, as_of);
            let i = key::first_match(behind, k@, as_of);
            assert(key::first_match(run, k@, as_of) == 1 + i);
            if i < behind.len() {
                assert(run[1 + i] == behind[i]);
            }
        }
        if 21 + key_len + val_len >= len {
            assert(after_entry(rest@) =~= Seq::empty());
            assert(b@.skip(b@.len() as int) =~= Seq::empty());
            offset = b.len();
        } else {
            let size: usize = (21 + key_len + val_len) as usize;
            assert(rest@.skip(size as int) =~= b@.skip(offset + size));
            offset = offset + size;
        }
    }
    assert(b@.skip(offset as int) =~= Seq::empty());
    None
}

// ----------------------------------------------------------------------
// Round trip
// ----------------------------------------------------------------------
/// The lengths of a version fit the four bytes that each takes in the file.
pub open spec fn version_fits(v: Version) -> bool {
    wal::fits(record_of(v))
}

proof fn lemma_entry_front(v: Version, tail: Seq<u8>)
    requires
        version_fits(v),
    ensures
        entry_ok(entry_bytes(v) + tail),
        front_version(entry_bytes(v) + tail) == v,
        after_entry(entry_bytes(v) + tail) == tail,
        entry_bytes(v).len() >= 21,
{
    let r = record_of(v);
    let b = entry_bytes(v) + tail;
    bytes::lemma_pow256();
    bytes::lemma_le_round_trip(r.key.len(), 4);
    bytes::lemma_le_round_trip(r.value.len(), 4);
    bytes::lemma_le_round_trip(r.ts.physical as nat, 8);
    bytes::lemma_le_round_trip(r.ts.logical as nat, 4);
    let k = r.key.len() as int;
    let n = r.value.len() as int;
    assert(b.subrange(13, 17) =~= bytes::le_bytes(r.key.len(), 4));
    assert(b.subrange(17, 21) =~= bytes::le_bytes(r.value.len(), 4));
    assert(b.subrange(1, 9) =~= bytes::le_bytes(r.ts.physical as nat, 8));
    assert(b.subrange(9, 13) =~= bytes::le_bytes(r.ts.logical as nat, 4));
    assert(b.subrange(21, 21 + k) =~= r.key);
    assert(b.subrange(21 + k, 21 + k + n) =~= r.value);
    assert(b.skip(21 + k + n) =~= tail);
}

/// The versions that were written to a block are read back, and all of it is
/// whole entries.
pub proof fn lemma_block_round_trip(run: Seq<Version>, tail: Seq<u8>)
    requires
        forall|i: int| 0 <= i < run.len() ==> version_fits(#[trigger] run[i]),
        block_ok(tail),
    ensures
        block_ok(block_bytes(run) + tail),
        block_versions(block_bytes(run) + tail) == run + block_versions(tail),
    decreases run.len(),
{
    if run.len() == 0 {
        assert(block_bytes(run) + tail =~= tail);
        assert(run + block_versions(tail) =~= block_versions(tail));
    } else {
        let v = run.last();
        let b = entry_bytes(v) + tail;
        lemma_entry_front(v, tail);
        lemma_block_round_trip(run.drop_last(), b);
        assert(block_bytes(run) + tail =~= block_bytes(run.drop_last()) + b);
        assert(run.drop_last() + (seq![v] + block_versions(tail)) =~= run + block_versions(tail));
    }
}

} // verus!
