//! The write-ahead log: records with a checksum, one after the other, and the
//! recovery that stops at the first damaged or unfinished one.
use crate::bytes;
use crate::checksum;
use crate::storage::timestamp::HlcTimestamp;
use vstd::prelude::*;

verus! {

broadcast use crate::bytes::lemma_le_bytes_len;

/// One logged operation.
#[derive(Debug)]
pub struct WalRecord {
    pub is_delete: bool,
    pub key: Vec<u8>,
    pub value: Vec<u8>,
    pub ts: HlcTimestamp,
}

/// A logged operation as a mathematical value.
#[verifier::ext_equal]
pub struct RecordView {
    pub is_delete: bool,
    pub key: Seq<u8>,
    pub value: Seq<u8>,
    pub ts: HlcTimestamp,
}

impl View for WalRecord {
    type V = RecordView;

    open spec fn view(&self) -> RecordView {
        RecordView {
            is_delete: self.is_delete,
            key: self.key@,
            value: self.value@,
            ts: self.ts,
        }
    }
}

/// A list of logged operations as mathematical values.
pub open spec fn record_views(v: Seq<WalRecord>) -> Seq<RecordView> {
    v.map_values(|r: WalRecord| r@)
}

/// The first 21 bytes of a record: the kind, the timestamp and the two lengths.
pub open spec fn header_bytes(r: RecordView) -> Seq<u8> {
    seq![if r.is_delete { 1u8 } else { 0u8 }] + bytes::le_bytes(r.ts.physical as nat, 8)
        + bytes::le_bytes(r.ts.logical as nat, 4) + bytes::le_bytes(r.key.len(), 4)
        + bytes::le_bytes(r.value.len(), 4)
}

/// What the checksum of a record covers.
pub open spec fn body_bytes(r: RecordView) -> Seq<u8> {
    header_bytes(r) + r.key + r.value
}

/// A record as it stands in the file.
pub open spec fn record_bytes(r: RecordView) -> Seq<u8> {
    body_bytes(r) + bytes::le_bytes(checksum::crc32(body_bytes(r)) as nat, 4)
}

/// Records as they stand in the file, one after the other.
pub open spec fn log_bytes(rs: Seq<RecordView>) -> Seq<u8>
    decreases rs.len(),
{
    if rs.len() == 0 {
        Seq::empty()
    } else {
        record_bytes(rs[0]) + log_bytes(rs.drop_first())
    }
}

/// The four-byte number at `at`.
pub open spec fn u32_at(b: Seq<u8>, at: int) -> nat {
    bytes::le_value(b.subrange(at, at + 4))
}

/// The number of bytes of the record that starts at the front of `b`, going by
/// its header.
pub open spec fn record_len(b: Seq<u8>) -> nat {
    21 + u32_at(b, 13) + u32_at(b, 17) + 4
}

/// The front of `b` is a whole record with the right checksum.
pub open spec fn whole_record(b: Seq<u8>) -> bool {
    &&& b.len() >= 21
    &&& b.len() >= record_len(b)
    &&& u32_at(b, record_len(b) - 4) == checksum::crc32(b.take(record_len(b) - 4)) as nat
}

/// The record at the front of `b`.
pub open spec fn front_record(b: Seq<u8>) -> RecordView {
    let k = u32_at(b, 13);
    RecordView {
        is_delete: b[0] == 1,
        key: b.subrange(21, 21 + k as int),
        value: b.subrange(21 + k as int, record_len(b) - 4),
        ts: HlcTimestamp {
            physical: bytes::le_value(b.subrange(1, 9)) as u64,
            logical: u32_at(b, 9) as u32,
        },
    }
}

/// The records that can be recovered from the front of `b`: all up to the
/// first one that is cut short or damaged.
pub open spec fn recovered(b: Seq<u8>) -> Seq<RecordView>
    decreases b.len(),
{
    if whole_record(b) {
        seq![front_record(b)] + recovered(b.skip(record_len(b) as int))
    } else {
        Seq::empty()
    }
}

/// The number of bytes that those records take up.
pub open spec fn recovered_len(b: Seq<u8>) -> nat
    decreases b.len(),
{
    if whole_record(b) {
        record_len(b) + recovered_len(b.skip(record_len(b) as int))
    } else {
        0
    }
}

/// The bytes to append to the log for one operation.
pub fn encode_record(is_delete: bool, key: &[u8], value: &[u8], ts: HlcTimestamp) -> (r: Vec<u8>)
    ensures
        r@ == record_bytes(RecordView { is_delete, key: key@, value: value@, ts }),
{
    let mut record: Vec<u8> = Vec::new();
    if is_delete {
        record.push(1);
    } else {
        record.push(0);
    }
    bytes::push_le(&mut record, ts.physical, 8);
    bytes::push_le(&mut record, ts.logical as u64, 4);
    bytes::push_le(&mut record, key.len() as u64, 4);
    bytes::push_le(&mut record, value.len() as u64, 4);
    let ghost view = RecordView { is_delete, key: key@, value: value@, ts };
    assert(record@ =~= header_bytes(view));
    bytes::append_bytes(&mut record, key);
    bytes::append_bytes(&mut record, value);
    let crc: u32 = checksum::crc32_of(record.as_slice());
    bytes::push_le(&mut record, crc as u64, 4);
    record
}

/// The bytes to append to the log for several operations.
pub fn encode_records(records: &[WalRecord]) -> (r: Vec<u8>)
    ensures
        r@ == log_bytes(record_views(records@)),
{
    let mut out: Vec<u8> = Vec::new();
    let mut i: usize = 0;
    let ghost all = record_views(records@);
    assert(all.take(0) =~= Seq::empty());
    while i < records.len()
        invariant
            i <= records@.len(),
            all == record_views(records@),
            out@ == log_bytes(all.take(i as int)),
        decreases records@.len() - i,
    {
        let rec = &records[i];
        let part = encode_record(rec.is_delete, rec.key.as_slice(), rec.value.as_slice(), rec.ts);
        bytes::append_bytes(&mut out, part.as_slice());
        proof {
            lemma_log_bytes_push(all.take(i as int), all[i as int]);
            assert(all.take(i + 1) =~= all.take(i as int).push(all[i as int]));
        }
        i = i + 1;
    }
    assert(all.take(i as int) =~= all);
    out
}

/// Appending a record to the log appends its bytes to the file.
pub proof fn lemma_log_bytes_push(rs: Seq<RecordView>, r: RecordView)
    ensures
        log_bytes(rs.push(r)) == log_bytes(rs) + record_bytes(r),
    decreases rs.len(),
{
    if rs.len() == 0 {
        assert(rs.push(r).drop_first() =~= rs);
        assert(log_bytes(rs) =~= Seq::empty());
        assert(log_bytes(rs.push(r)) =~= record_bytes(r));
    } else {
        lemma_log_bytes_push(rs.drop_first(), r);
        assert(rs.push(r).drop_first() =~= rs.drop_first().push(r));
        assert(log_bytes(rs.push(r)) =~= log_bytes(rs) + record_bytes(r));
    }
}

/// Reads a log file: the records up to the first one that is cut short or
/// damaged, and the length to which the file is then cut.
pub fn replay(file: &[u8]) -> (r: (Vec<WalRecord>, usize))
    ensures
        record_views(r.0@) == recovered(file@),
        r.1 == recovered_len(file@),
        r.1 <= file@.len(),
{
    let mut records: Vec<WalRecord> = Vec::new();
    let mut offset: usize = 0;
    assert(file@.skip(0) =~= file@);
    while offset < file.len()
        invariant_except_break
            recovered(file@) == record_views(records@) + recovered(file@.skip(offset as int)),
            recovered_len(file@) == offset + recovered_len(file@.skip(offset as int)),
        invariant
            offset <= file@.len(),
        ensures
            recovered(file@) == record_views(records@),
            recovered_len(file@) == offset,
        decreases file@.len() - offset,
    {
        let rest = vstd::slice::slice_subrange(file, offset, file.len());
        assert(rest@ =~= file@.skip(offset as int));
        if rest.len() < 21 {
            break;
        }
        let key_len: u64 = bytes::read_le_u32(rest, 13) as u64;
        let val_len: u64 = bytes::read_le_u32(rest, 17) as u64;
        if (rest.len() as u64) < 21 + key_len + val_len + 4 {
            break;
        }
        let key_end: usize = 21 + key_len as usize;
        let val_end: usize = key_end + val_len as usize;
        assert(record_len(rest@) == val_end + 4);
        let body = vstd::slice::slice_subrange(rest, 0, val_end);
        assert(body@ =~= rest@.take(val_end as int));
        let stored: u32 = bytes::read_le_u32(rest, val_end);
        let computed: u32 = checksum::crc32_of(body);
        if stored != computed {
            break;
        }
        let rec = WalRecord {
            is_delete: rest[0] == 1,
            key: bytes::copy_range(rest, 21, key_end),
            value: bytes::copy_range(rest, key_end, val_end),
            ts: HlcTimestamp {
                physical: bytes::read_le_u64(rest, 1),
                logical: bytes::read_le_u32(rest, 9),
            },
        };
        let ghost before = record_views(records@);
        assert(rec@ == front_record(rest@));
        let ghost view = rec@;
        records.push(rec);
        let size: usize = val_end + 4;
        proof {
            assert(record_views(records@) =~= before.push(view));
            assert(rest@.skip(size as int) =~= file@.skip(offset + size));
            assert(before + (seq![view] + recovered(rest@.skip(size as int))) =~= before.push(view)
                + recovered(file@.skip(offset + size)));
        }
        offset = offset + size;
    }
    (records, offset)
}

// ----------------------------------------------------------------------
// Laws
// ----------------------------------------------------------------------
/// The lengths of a record fit the four bytes that each takes in the file.
pub open spec fn fits(r: RecordView) -> bool {
    r.key.len() < 0x1_0000_0000 && r.value.len() < 0x1_0000_0000
}

/// The header of a written record says how long the record is.
proof fn lemma_record_front(r: RecordView, tail: Seq<u8>)
    requires
        fits(r),
    ensures
        record_len(record_bytes(r) + tail) == record_bytes(r).len(),
        record_bytes(r).len() == 25 + r.key.len() + r.value.len(),
        u32_at(record_bytes(r) + tail, 13) == r.key.len(),
        u32_at(record_bytes(r) + tail, 17) == r.value.len(),
{
    let b = record_bytes(r) + tail;
    bytes::lemma_pow256();
    bytes::lemma_le_round_trip(r.key.len(), 4);
    bytes::lemma_le_round_trip(r.value.len(), 4);
    assert(b.subrange(13, 17) =~= bytes::le_bytes(r.key.len(), 4));
    assert(b.subrange(17, 21) =~= bytes::le_bytes(r.value.len(), 4));
}

/// A written record is whole, whatever follows it, and reads as it was written.
pub proof fn lemma_record_round_trip(r: RecordView, tail: Seq<u8>)
    requires
        fits(r),
    ensures
        whole_record(record_bytes(r) + tail),
        front_record(record_bytes(r) + tail) == r,
        (record_bytes(r) + tail).skip(record_len(record_bytes(r) + tail) as int) == tail,
{
    let b = record_bytes(r) + tail;
    lemma_record_front(r, tail);
    bytes::lemma_pow256();
    let n = record_bytes(r).len() as int;
    let crc = checksum::crc32(body_bytes(r)) as nat;
    bytes::lemma_le_round_trip(crc, 4);
    bytes::lemma_le_round_trip(r.ts.physical as nat, 8);
    bytes::lemma_le_round_trip(r.ts.logical as nat, 4);
    assert(b.take(n - 4) =~= body_bytes(r));
    assert(b.subrange(n - 4, n) =~= bytes::le_bytes(crc, 4));
    assert(b.subrange(1, 9) =~= bytes::le_bytes(r.ts.physical as nat, 8));
    assert(b.subrange(9, 13) =~= bytes::le_bytes(r.ts.logical as nat, 4));
    assert(b.subrange(21, 21 + r.key.len() as int) =~= r.key);
    assert(b.subrange(21 + r.key.len() as int, n - 4) =~= r.value);
    assert(b.skip(n) =~= tail);
}

/// What was logged is recovered, in order, up to what follows it in the file.
pub proof fn lemma_recovery_of_log(rs: Seq<RecordView>, tail: Seq<u8>)
    requires
        forall|i: int| 0 <= i < rs.len() ==> fits(#[trigger] rs[i]),
    ensures
        recovered(log_bytes(rs) + tail) == rs + recovered(tail),
        recovered_len(log_bytes(rs) + tail) == log_bytes(rs).len() + recovered_len(tail),
    decreases rs.len(),
{
    if rs.len() == 0 {
        assert(log_bytes(rs) + tail =~= tail);
        assert(rs + recovered(tail) =~= recovered(tail));
    } else {
        let rest = log_bytes(rs.drop_first()) + tail;
        let b = log_bytes(rs) + tail;
        assert(b =~= record_bytes(rs[0]) + rest);
        assert forall|i: int| 0 <= i < rs.drop_first().len() implies fits(
            #[trigger] rs.drop_first()[i],
        ) by {
            assert(rs.drop_first()[i] == rs[i + 1]);
        }
        lemma_recovery_of_log(rs.drop_first(), tail);
        lemma_record_round_trip(rs[0], rest);
        lemma_record_front(rs[0], rest);
        assert(rs + recovered(tail) =~= seq![rs[0]] + (rs.drop_first() + recovered(tail)));
    }
}

/// How many of the records end at or before a place of their log.
pub open spec fn whole_before(rs: Seq<RecordView>, cut: int) -> int
    decreases rs.len(),
{
    if rs.len() == 0 || record_bytes(rs[0]).len() > cut {
        0
    } else {
        1 + whole_before(rs.drop_first(), cut - record_bytes(rs[0]).len())
    }
}

/// The records that end before a place are as many as fit in front of it.
pub proof fn lemma_whole_before(rs: Seq<RecordView>, cut: int)
    requires
        cut >= 0,
    ensures
        0 <= whole_before(rs, cut) <= rs.len(),
        log_bytes(rs.take(whole_before(rs, cut))).len() <= cut,
        whole_before(rs, cut) < rs.len() ==> log_bytes(
            rs.take(whole_before(rs, cut) + 1),
        ).len() > cut,
    decreases rs.len(),
{
    let n = whole_before(rs, cut);
    if rs.len() == 0 {
    } else if record_bytes(rs[0]).len() > cut {
        assert(rs.take(1).drop_first() =~= Seq::empty());
        assert(log_bytes(Seq::<RecordView>::empty()) =~= Seq::empty());
        assert(log_bytes(rs.take(1)) =~= record_bytes(rs[0]));
    } else {
        let rest = rs.drop_first();
        lemma_whole_before(rest, cut - record_bytes(rs[0]).len());
        assert(rs.take(n).drop_first() =~= rest.take(n - 1));
        if n < rs.len() {
            assert(rs.take(n + 1).drop_first() =~= rest.take(n));
        }
    }
}

/// A log file that was cut anywhere gives back every record that is whole in it, and
/// nothing else.
pub proof fn lemma_recovery_of_cut_log(rs: Seq<RecordView>, cut: nat)
    requires
        forall|i: int| 0 <= i < rs.len() ==> fits(#[trigger] rs[i]),
        cut <= log_bytes(rs).len(),
    ensures
        recovered(log_bytes(rs).take(cut as int)) == rs.take(whole_before(rs, cut as int)),
    decreases rs.len(),
{
    let b = log_bytes(rs).take(cut as int);
    if rs.len() > 0 {
        let n = record_bytes(rs[0]).len();
        let rest = log_bytes(rs.drop_first());
        lemma_record_front(rs[0], rest);
        if cut < n {
            if b.len() >= 21 {
                let whole = record_bytes(rs[0]) + rest;
                assert(b.subrange(13, 17) =~= whole.subrange(13, 17));
                assert(b.subrange(17, 21) =~= whole.subrange(17, 21));
            }
            assert(!whole_record(b));
            assert(rs.take(0) =~= Seq::empty());
        } else {
            let after = rest.take(cut - n);
            assert(b =~= record_bytes(rs[0]) + after);
            lemma_record_round_trip(rs[0], after);
            assert forall|i: int| 0 <= i < rs.drop_first().len() implies fits(
                #[trigger] rs.drop_first()[i],
            ) by {
                assert(rs.drop_first()[i] == rs[i + 1]);
            }
            lemma_recovery_of_cut_log(rs.drop_first(), (cut - n) as nat);
            let m = whole_before(rs.drop_first(), cut - n);
            lemma_whole_before(rs.drop_first(), cut - n);
            assert(rs.take(m + 1) =~= seq![rs[0]] + rs.drop_first().take(m));
        }
    } else {
        assert(b =~= Seq::empty());
        assert(!whole_record(b));
        assert(rs.take(0) =~= Seq::empty());
    }
}

/// Recovery leaves a file from which the same records are recovered again, and
/// all of it is used.
pub proof fn lemma_recovery_is_stable(b: Seq<u8>)
    ensures
        recovered_len(b) <= b.len(),
        recovered(b.take(recovered_len(b) as int)) == recovered(b),
        recovered_len(b.take(recovered_len(b) as int)) == recovered_len(b),
    decreases b.len(),
{
    if whole_record(b) {
        let n = record_len(b) as int;
        let rest = b.skip(n);
        lemma_recovery_is_stable(rest);
        let c = b.take(recovered_len(b) as int);
        assert(c.subrange(13, 17) =~= b.subrange(13, 17));
        assert(c.subrange(17, 21) =~= b.subrange(17, 21));
        assert(c.subrange(n - 4, n) =~= b.subrange(n - 4, n));
        assert(c.take(n - 4) =~= b.take(n - 4));
        assert(c.subrange(1, 9) =~= b.subrange(1, 9));
        assert(c.subrange(9, 13) =~= b.subrange(9, 13));
        let k = u32_at(b, 13) as int;
        assert(c.subrange(21, 21 + k) =~= b.subrange(21, 21 + k));
        assert(c.subrange(21 + k, n - 4) =~= b.subrange(21 + k, n - 4));
        assert(c.skip(n) =~= rest.take(recovered_len(rest) as int));
    } else {
        let c = b.take(0);
        assert(!whole_record(c));
    }
}

} // verus!
