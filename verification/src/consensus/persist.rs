//! What a replica writes to its log file, and what it reads back after a
//! restart.
use crate::bytes;
use crate::consensus::messages;
use crate::consensus::messages::{EntryView, LogEntry, NodeId};
use crate::consensus::state::{RaftState, RaftView};
use crate::consensus::wire;
use crate::consensus::wire::{decode_entry, decode_vote, encode_entry, encode_vote};
use crate::decimal;
use crate::storage::timestamp::HlcTimestamp;
use crate::storage::wal;
use crate::storage::wal::{RecordView, WalRecord};
use std::collections::HashMap;
use vstd::prelude::*;

verus! {

broadcast use vstd::std_specs::hash::group_hash_axioms;

// ----------------------------------------------------------------------
// Keys
// ----------------------------------------------------------------------
/// `term`
pub open spec fn term_key() -> Seq<u8> {
    seq![116u8, 101, 114, 109]
}

/// `vote`
pub open spec fn vote_key() -> Seq<u8> {
    seq![118u8, 111, 116, 101]
}

/// `log_len`
pub open spec fn log_len_key() -> Seq<u8> {
    seq![108u8, 111, 103, 95, 108, 101, 110]
}

/// `entry_`
pub open spec fn entry_prefix() -> Seq<u8> {
    seq![101u8, 110, 116, 114, 121, 95]
}

/// The key of a log entry: the prefix and the index in twenty digits.
pub open spec fn entry_key(index: u64) -> Seq<u8> {
    entry_prefix() + decimal::digits(index as nat, 20)
}

fn make_term_key() -> (r: Vec<u8>)
    ensures
        r@ == term_key(),
{
    let r = vec![116u8, 101, 114, 109];
    assert(r@ =~= term_key());
    r
}

fn make_vote_key() -> (r: Vec<u8>)
    ensures
        r@ == vote_key(),
{
    let r = vec![118u8, 111, 116, 101];
    assert(r@ =~= vote_key());
    r
}

fn make_log_len_key() -> (r: Vec<u8>)
    ensures
        r@ == log_len_key(),
{
    let r = vec![108u8, 111, 103, 95, 108, 101, 110];
    assert(r@ =~= log_len_key());
    r
}

fn make_entry_prefix() -> (r: Vec<u8>)
    ensures
        r@ == entry_prefix(),
{
    let r = vec![101u8, 110, 116, 114, 121, 95];
    assert(r@ =~= entry_prefix());
    r
}

/// The key of a log entry.
pub fn make_entry_key(index: u64) -> (r: Vec<u8>)
    ensures
        r@ == entry_key(index),
{
    let mut reversed: Vec<u8> = Vec::new();
    let mut rest: u64 = index;
    let mut n: usize = 0;
    assert(decimal::digits(index as nat, 20) =~= decimal::digits(rest as nat, 20) + reversed@.reverse());
    while n < 20
        invariant
            n <= 20,
            decimal::digits(index as nat, 20) == decimal::digits(rest as nat, (20 - n) as nat) + reversed@.reverse(),
            reversed@.len() == n,
        decreases 20 - n,
    {
        let ghost before = reversed@;
        let d: u8 = 48 + (rest % 10) as u8;
        reversed.push(d);
        proof {
            assert(reversed@.reverse() =~= seq![d] + before.reverse());
            assert(decimal::digits(rest as nat, (20 - n) as nat) + before.reverse() =~= decimal::digits(
                (rest / 10) as nat,
                (20 - n - 1) as nat,
            ) + reversed@.reverse());
        }
        rest = rest / 10;
        n = n + 1;
    }
    let ghost tail = reversed@.reverse();
    assert(decimal::digits(index as nat, 20) =~= tail);
    let mut out = make_entry_prefix();
    let ghost prefix = out@;
    assert(tail.take(0) =~= Seq::empty());
    let mut i: usize = 20;
    while i > 0
        invariant
            i <= 20,
            reversed@.len() == 20,
            tail == reversed@.reverse(),
            out@ == prefix + tail.take(20 - i),
        decreases i,
    {
        i = i - 1;
        out.push(reversed[i]);
        assert(tail.take(20 - i) =~= tail.take(20 - i - 1).push(reversed@[i as int]));
    }
    assert(tail.take(20) =~= tail);
    out
}

/// The key of a log entry is none of the fixed keys, and says the entry's
/// index.
pub proof fn lemma_entry_key(index: u64)
    ensures
        entry_prefix().is_prefix_of(entry_key(index)),
        decimal::parsed_index(entry_key(index).skip(6)) == Some(index),
        entry_key(index) != term_key(),
        entry_key(index) != vote_key(),
        entry_key(index) != log_len_key(),
{
    reveal_with_fuel(decimal::pow10, 21);
    decimal::lemma_digits_value(index as nat, 20);
    let k = entry_key(index);
    assert(k.skip(6) =~= decimal::digits(index as nat, 20));
    assert(k[0] == 101);
}

// ----------------------------------------------------------------------
// Records
// ----------------------------------------------------------------------
/// A record of the replica's log file. The file carries no timestamps.
pub open spec fn raft_record(key: Seq<u8>, value: Seq<u8>) -> RecordView {
    RecordView {
        is_delete: false,
        key,
        value,
        ts: HlcTimestamp { physical: 0, logical: 0 },
    }
}

/// The records that make the term and the vote durable.
pub open spec fn vote_records(term: u64, vote: Option<NodeId>) -> Seq<RecordView> {
    seq![
        raft_record(term_key(), bytes::le_bytes(term as nat, 8)),
        raft_record(vote_key(), wire::enc_vote(vote)),
    ]
}

/// The record that makes the end of the log durable.
pub open spec fn log_len_records(len: u64) -> Seq<RecordView> {
    seq![raft_record(log_len_key(), bytes::le_bytes(len as nat, 8))]
}

/// The record that holds a log entry.
pub open spec fn entry_record(e: EntryView) -> RecordView {
    raft_record(entry_key(e.index), wire::enc_entry(e))
}

/// The records that make a new log entry durable.
pub open spec fn entry_records(e: EntryView) -> Seq<RecordView> {
    seq![entry_record(e)] + log_len_records(e.index)
}

/// The records of the log entries.
pub open spec fn all_entry_records(log: Seq<EntryView>) -> Seq<RecordView> {
    log.map_values(|e: EntryView| entry_record(e))
}

/// The records of a whole log file for the given state.
pub open spec fn state_records(s: RaftView) -> Seq<RecordView> {
    vote_records(s.current_term, s.voted_for) + all_entry_records(s.log) + log_len_records(
        s.last_log_index(),
    )
}

fn make_record(key: Vec<u8>, value: Vec<u8>) -> (r: WalRecord)
    ensures
        r@ == raft_record(key@, value@),
{
    WalRecord { is_delete: false, key, value, ts: HlcTimestamp::zero() }
}

fn le_u64(x: u64) -> (r: Vec<u8>)
    ensures
        r@ == bytes::le_bytes(x as nat, 8),
{
    let mut r: Vec<u8> = Vec::new();
    bytes::push_le(&mut r, x, 8);
    assert(r@ =~= bytes::le_bytes(x as nat, 8));
    r
}

/// Appends the records that make the term and the vote durable.
pub fn persist_term_and_vote(out: &mut Vec<WalRecord>, term: u64, vote: Option<NodeId>)
    ensures
        wal::record_views(final(out)@) == wal::record_views(old(out)@) + vote_records(term, vote),
{
    let ghost start = wal::record_views(out@);
    let a = make_record(make_term_key(), le_u64(term));
    let b = make_record(make_vote_key(), encode_vote(vote));
    let ghost va = a@;
    let ghost vb = b@;
    out.push(a);
    out.push(b);
    assert(wal::record_views(out@) =~= start.push(va).push(vb));
    assert(start.push(va).push(vb) =~= start + vote_records(term, vote));
}

/// Appends the record that makes the end of the log durable.
pub fn persist_log_len(out: &mut Vec<WalRecord>, new_len: u64)
    ensures
        wal::record_views(final(out)@) == wal::record_views(old(out)@) + log_len_records(new_len),
{
    let ghost start = wal::record_views(out@);
    let a = make_record(make_log_len_key(), le_u64(new_len));
    let ghost va = a@;
    out.push(a);
    assert(wal::record_views(out@) =~= start.push(va));
    assert(start.push(va) =~= start + log_len_records(new_len));
}

/// Appends the records that make a new log entry durable.
pub fn persist_log_entry(out: &mut Vec<WalRecord>, entry: &LogEntry)
    ensures
        wal::record_views(final(out)@) == wal::record_views(old(out)@) + entry_records(entry@),
{
    let ghost start = wal::record_views(out@);
    let a = make_record(make_entry_key(entry.index), encode_entry(entry));
    let ghost va = a@;
    out.push(a);
    assert(wal::record_views(out@) =~= start.push(va));
    persist_log_len(out, entry.index);
    assert(wal::record_views(out@) =~= start + entry_records(entry@));
}

/// The records of a whole log file for the given state.
pub fn rewrite_wal(state: &RaftState) -> (r: Vec<WalRecord>)
    ensures
        wal::record_views(r@) == state_records(state@),
{
    let mut out: Vec<WalRecord> = Vec::new();
    persist_term_and_vote(&mut out, state.current_term, state.voted_for);
    let ghost head = vote_records(state.current_term, state.voted_for);
    let ghost all = all_entry_records(state@.log);
    assert(wal::record_views(out@) =~= head + all.take(0));
    let mut i: usize = 0;
    while i < state.log.len()
        invariant
            i <= state.log@.len(),
            all == all_entry_records(state@.log),
            wal::record_views(out@) == head + all.take(i as int),
        decreases state.log@.len() - i,
    {
        let entry = &state.log[i];
        let ghost before = wal::record_views(out@);
        let rec = make_record(make_entry_key(entry.index), encode_entry(entry));
        let ghost view = rec@;
        out.push(rec);
        proof {
            assert(wal::record_views(out@) =~= before.push(view));
            assert(all[i as int] == view);
            assert(head + all.take(i + 1) =~= (head + all.take(i as int)).push(view));
        }
        i = i + 1;
    }
    assert(all.take(i as int) =~= all);
    persist_log_len(&mut out, state.last_log_index());
    out
}

// ----------------------------------------------------------------------
// Recovery
// ----------------------------------------------------------------------
/// What the records of a log file add up to.
#[verifier::ext_equal]
pub struct Durable {
    pub term: u64,
    pub vote: Option<NodeId>,
    pub log_len: u64,
    pub entries: Map<u64, EntryView>,
}

/// What an empty log file stands for.
pub open spec fn nothing_durable() -> Durable {
    Durable { term: 0, vote: None, log_len: 0, entries: Map::empty() }
}

/// What one more record changes.
pub open spec fn absorb_record(d: Durable, r: RecordView) -> Durable {
    if r.key == term_key() {
        if !r.is_delete && r.value.len() == 8 {
            Durable { term: bytes::le_value(r.value) as u64, ..d }
        } else {
            d
        }
    } else if r.key == vote_key() {
        if r.is_delete {
            Durable { vote: None, ..d }
        } else {
            match wire::dec_vote(r.value) {
                Some(v) => Durable { vote: v, ..d },
                None => d,
            }
        }
    } else if r.key == log_len_key() {
        if !r.is_delete && r.value.len() == 8 {
            Durable { log_len: bytes::le_value(r.value) as u64, ..d }
        } else {
            d
        }
    } else if entry_prefix().is_prefix_of(r.key) {
        match decimal::parsed_index(r.key.skip(6)) {
            Some(index) => if r.is_delete {
                Durable { entries: d.entries.remove(index), ..d }
            } else {
                match wire::dec_entry(r.value) {
                    Some(e) => Durable { entries: d.entries.insert(index, e), ..d },
                    None => d,
                }
            },
            None => d,
        }
    } else {
        d
    }
}

/// What the records of a log file add up to.
pub open spec fn durable(rs: Seq<RecordView>) -> Durable
    decreases rs.len(),
{
    if rs.len() == 0 {
        nothing_durable()
    } else {
        absorb_record(durable(rs.drop_last()), rs.last())
    }
}

/// The entries with the indexes from `lo` to `hi` that are there.
pub open spec fn entries_of(entries: Map<u64, EntryView>, lo: int, hi: int) -> Seq<EntryView>
    decreases hi - lo + 1,
{
    if hi < lo {
        Seq::empty()
    } else {
        let front = entries_of(entries, lo, hi - 1);
        if 0 <= hi <= u64::MAX && entries.dom().contains(hi as u64) {
            front.push(entries[hi as u64])
        } else {
            front
        }
    }
}

/// What was read back from a log file.
pub struct RecoveredLog {
    pub term: u64,
    pub vote: Option<NodeId>,
    pub log_len: u64,
    pub entries: HashMap<u64, LogEntry>,
}

impl View for RecoveredLog {
    type V = Durable;

    open spec fn view(&self) -> Durable {
        Durable {
            term: self.term,
            vote: self.vote,
            log_len: self.log_len,
            entries: self.entries@.map_values(|e: LogEntry| e@),
        }
    }
}

fn absorb(acc: &mut RecoveredLog, r: &WalRecord)
    ensures
        final(acc)@ == absorb_record(old(acc)@, r@),
{
    let term_k = make_term_key();
    let vote_k = make_vote_key();
    let len_k = make_log_len_key();
    let prefix = make_entry_prefix();
    let key = r.key.as_slice();
    let value = r.value.as_slice();
    if bytes::bytes_eq(key, term_k.as_slice()) {
        if !r.is_delete && value.len() == 8 {
            acc.term = bytes::read_le_u64(value, 0);
            assert(value@.subrange(0, 8) =~= value@);
        }
    } else if bytes::bytes_eq(key, vote_k.as_slice()) {
        if r.is_delete {
            acc.vote = None;
        } else {
            match decode_vote(value) {
                Some(v) => {
                    acc.vote = v;
                },
                None => {},
            }
        }
    } else if bytes::bytes_eq(key, len_k.as_slice()) {
        if !r.is_delete && value.len() == 8 {
            acc.log_len = bytes::read_le_u64(value, 0);
            assert(value@.subrange(0, 8) =~= value@);
        }
    } else if bytes::starts_with(key, prefix.as_slice()) {
        let tail = vstd::slice::slice_subrange(key, 6, key.len());
        assert(tail@ =~= r.key@.skip(6));
        match decimal::parse_index(tail) {
            Some(index) => {
                if r.is_delete {
                    acc.entries.remove(&index);
                    assert(acc@.entries =~= old(acc)@.entries.remove(index));
                } else {
                    match decode_entry(value) {
                        Some(e) => {
                            let ghost view = e@;
                            acc.entries.insert(index, e);
                            assert(acc@.entries =~= old(acc)@.entries.insert(index, view));
                        },
                        None => {},
                    }
                }
            },
            None => {},
        }
    }
}

/// Adds up the records of a log file.
pub fn recover_log(records: &[WalRecord]) -> (r: RecoveredLog)
    ensures
        r@ == durable(wal::record_views(records@)),
{
    let mut acc = RecoveredLog { term: 0, vote: None, log_len: 0, entries: HashMap::new() };
    assert(acc@.entries =~= Map::empty());
    let ghost all = wal::record_views(records@);
    assert(all.take(0) =~= Seq::empty());
    let mut i: usize = 0;
    while i < records.len()
        invariant
            i <= records@.len(),
            all == wal::record_views(records@),
            acc@ == durable(all.take(i as int)),
        decreases records@.len() - i,
    {
        absorb(&mut acc, &records[i]);
        assert(all.take(i + 1).drop_last() =~= all.take(i as int));
        assert(all.take(i + 1).last() == records@[i as int]@);
        i = i + 1;
    }
    assert(all.take(i as int) =~= all);
    acc
}

/// The entries with the indexes from `lo` to `hi` that are there.
pub fn collect_entries(entries: &HashMap<u64, LogEntry>, lo: u64, hi: u64) -> (r: Vec<LogEntry>)
    ensures
        messages::entry_views(r@) == entries_of(
            entries@.map_values(|e: LogEntry| e@),
            lo as int,
            hi as int,
        ),
{
    let ghost m = entries@.map_values(|e: LogEntry| e@);
    let mut out: Vec<LogEntry> = Vec::new();
    assert(messages::entry_views(out@) =~= entries_of(m, lo as int, lo - 1));
    let mut next: u64 = lo;
    let mut more: bool = lo <= hi;
    while more
        invariant
            m == entries@.map_values(|e: LogEntry| e@),
            more ==> lo <= next <= hi,
            more ==> messages::entry_views(out@) == entries_of(m, lo as int, next - 1),
            !more ==> messages::entry_views(out@) == entries_of(m, lo as int, hi as int),
        decreases (if more { hi - next + 1 } else { 0 }),
    {
        match entries.get(&next) {
            Some(e) => {
                let copy = e.clone();
                let ghost before = messages::entry_views(out@);
                let ghost view = copy@;
                out.push(copy);
                assert(messages::entry_views(out@) =~= before.push(view));
            },
            None => {},
        }
        if next == hi {
            more = false;
        } else {
            next = next + 1;
        }
    }
    out
}

} // verus!
