//! How log entries, memberships, votes and snapshots are written as bytes.
use crate::bytes;
use crate::codec;
use crate::consensus::config::{ConfigState, ConfigView};
use crate::consensus::messages::{EntryPayload, EntryView, LogEntry, NodeId, PayloadView};
use vstd::prelude::*;

verus! {

/// The bytes of a log entry's payload.
pub open spec fn enc_payload(p: PayloadView) -> Seq<u8> {
    match p {
        PayloadView::Command(data) => codec::enc_u32(0) + codec::enc_bytes(data),
        PayloadView::ConfigJoint { old, new } => codec::enc_u32(1) + codec::enc_u64s(old)
            + codec::enc_u64s(new),
        PayloadView::ConfigStable(nodes) => codec::enc_u32(2) + codec::enc_u64s(nodes),
    }
}

/// The payload that the bytes of a log entry hold, if they hold one.
pub open spec fn dec_payload(b: Seq<u8>) -> Option<PayloadView> {
    match codec::dec_u32(b) {
        Some((0u32, rest)) => match codec::dec_bytes(rest) {
            Some((data, _)) => Some(PayloadView::Command(data)),
            None => None,
        },
        Some((1u32, rest)) => match codec::dec_u64s(rest) {
            Some((old, after)) => match codec::dec_u64s(after) {
                Some((new, _)) => Some(PayloadView::ConfigJoint { old, new }),
                None => None,
            },
            None => None,
        },
        Some((2u32, rest)) => match codec::dec_u64s(rest) {
            Some((nodes, _)) => Some(PayloadView::ConfigStable(nodes)),
            None => None,
        },
        _ => None,
    }
}

/// The bytes of a log entry's payload.
pub fn encode_payload(p: &EntryPayload) -> (r: Vec<u8>)
    ensures
        r@ == enc_payload(p@),
{
    let mut out: Vec<u8> = Vec::new();
    match p {
        EntryPayload::Command(data) => {
            codec::put_u32(&mut out, 0);
            codec::put_bytes(&mut out, data.as_slice());
        },
        EntryPayload::ConfigJoint { old, new } => {
            codec::put_u32(&mut out, 1);
            codec::put_u64s(&mut out, old.as_slice());
            codec::put_u64s(&mut out, new.as_slice());
        },
        EntryPayload::ConfigStable(nodes) => {
            codec::put_u32(&mut out, 2);
            codec::put_u64s(&mut out, nodes.as_slice());
        },
    }
    assert(out@ =~= enc_payload(p@));
    out
}

/// An optional payload as a mathematical value.
pub open spec fn payload_view(p: Option<EntryPayload>) -> Option<PayloadView> {
    match p {
        Some(p) => Some(p@),
        None => None,
    }
}

/// The payload that the bytes of a log entry hold, if they hold one.
pub fn decode_payload(b: &[u8]) -> (r: Option<EntryPayload>)
    ensures
        payload_view(r) == dec_payload(b@),
{
    assert(b@.skip(0) =~= b@);
    let tag: u32 = match codec::get_u32(b, 0) {
        Some(t) => t,
        None => return None,
    };
    if tag == 0 {
        match codec::get_bytes(b, 4) {
            Some(data) => Some(EntryPayload::Command(data)),
            None => None,
        }
    } else if tag == 1 {
        match codec::get_u64s(b, 4) {
            Some((old_nodes, end)) => match codec::get_u64s(b, end) {
                Some((new_nodes, _)) => Some(
                    EntryPayload::ConfigJoint { old: old_nodes, new: new_nodes },
                ),
                None => None,
            },
            None => None,
        }
    } else if tag == 2 {
        match codec::get_u64s(b, 4) {
            Some((nodes, _)) => Some(EntryPayload::ConfigStable(nodes)),
            None => None,
        }
    } else {
        None
    }
}

/// The lists of a payload are not longer than their length fields can say.
pub open spec fn payload_fits(p: PayloadView) -> bool {
    match p {
        PayloadView::Command(data) => data.len() <= u64::MAX,
        PayloadView::ConfigJoint { old, new } => old.len() <= u64::MAX && new.len() <= u64::MAX,
        PayloadView::ConfigStable(nodes) => nodes.len() <= u64::MAX,
    }
}

/// A payload that was written is read back.
pub proof fn lemma_payload_round_trip(p: PayloadView)
    requires
        payload_fits(p),
    ensures
        dec_payload(enc_payload(p)) == Some(p),
{
    let e = Seq::<u8>::empty();
    match p {
        PayloadView::Command(data) => {
            codec::lemma_u32_round_trip(0, codec::enc_bytes(data));
            codec::lemma_bytes_round_trip(data, e);
            assert(codec::enc_bytes(data) + e =~= codec::enc_bytes(data));
        },
        PayloadView::ConfigJoint { old, new } => {
            let tail = codec::enc_u64s(old) + codec::enc_u64s(new);
            codec::lemma_u32_round_trip(1, tail);
            assert(enc_payload(p) =~= codec::enc_u32(1) + tail);
            codec::lemma_u64s_round_trip(old, codec::enc_u64s(new));
            codec::lemma_u64s_round_trip(new, e);
            assert(codec::enc_u64s(new) + e =~= codec::enc_u64s(new));
        },
        PayloadView::ConfigStable(nodes) => {
            codec::lemma_u32_round_trip(2, codec::enc_u64s(nodes));
            codec::lemma_u64s_round_trip(nodes, e);
            assert(codec::enc_u64s(nodes) + e =~= codec::enc_u64s(nodes));
        },
    }
}

// ----------------------------------------------------------------------
// Log entries
// ----------------------------------------------------------------------
/// The bytes of a log entry.
pub open spec fn enc_entry(e: EntryView) -> Seq<u8> {
    codec::enc_u64(e.term) + codec::enc_u64(e.index) + codec::enc_bytes(e.data)
}

/// The log entry that bytes hold, if they hold one.
pub open spec fn dec_entry(b: Seq<u8>) -> Option<EntryView> {
    match codec::dec_u64(b) {
        Some((term, rest)) => match codec::dec_u64(rest) {
            Some((index, after)) => match codec::dec_bytes(after) {
                Some((data, _)) => Some(EntryView { term, index, data }),
                None => None,
            },
            None => None,
        },
        None => None,
    }
}

/// The bytes of a log entry.
pub fn encode_entry(e: &LogEntry) -> (r: Vec<u8>)
    ensures
        r@ == enc_entry(e@),
{
    let mut out: Vec<u8> = Vec::new();
    codec::put_u64(&mut out, e.term);
    codec::put_u64(&mut out, e.index);
    codec::put_bytes(&mut out, e.data.as_slice());
    assert(out@ =~= enc_entry(e@));
    out
}

/// An optional log entry as a mathematical value.
pub open spec fn entry_view(e: Option<LogEntry>) -> Option<EntryView> {
    match e {
        Some(e) => Some(e@),
        None => None,
    }
}

/// The log entry that bytes hold, if they hold one.
pub fn decode_entry(b: &[u8]) -> (r: Option<LogEntry>)
    ensures
        entry_view(r) == dec_entry(b@),
{
    assert(b@.skip(0) =~= b@);
    let term: u64 = match codec::get_u64(b, 0) {
        Some(t) => t,
        None => return None,
    };
    let index: u64 = match codec::get_u64(b, 8) {
        Some(t) => t,
        None => return None,
    };
    match codec::get_bytes(b, 16) {
        Some(data) => Some(LogEntry { term, index, data }),
        None => None,
    }
}

/// A log entry that was written is read back.
pub proof fn lemma_entry_round_trip(e: EntryView)
    requires
        e.data.len() <= u64::MAX,
    ensures
        dec_entry(enc_entry(e)) == Some(e),
{
    let none = Seq::<u8>::empty();
    let tail = codec::enc_u64(e.index) + codec::enc_bytes(e.data);
    assert(enc_entry(e) =~= codec::enc_u64(e.term) + tail);
    codec::lemma_u64_round_trip(e.term, tail);
    codec::lemma_u64_round_trip(e.index, codec::enc_bytes(e.data));
    codec::lemma_bytes_round_trip(e.data, none);
    assert(codec::enc_bytes(e.data) + none =~= codec::enc_bytes(e.data));
}

// ----------------------------------------------------------------------
// Votes
// ----------------------------------------------------------------------
/// The bytes of a vote.
pub open spec fn enc_vote(v: Option<NodeId>) -> Seq<u8> {
    match v {
        None => codec::enc_u8(0),
        Some(n) => codec::enc_u8(1) + codec::enc_u64(n),
    }
}

/// The vote that bytes hold, if they hold one.
pub open spec fn dec_vote(b: Seq<u8>) -> Option<Option<NodeId>> {
    match codec::dec_u8(b) {
        Some((0u8, _)) => Some(None),
        Some((1u8, rest)) => match codec::dec_u64(rest) {
            Some((n, _)) => Some(Some(n)),
            None => None,
        },
        _ => None,
    }
}

/// The bytes of a vote.
pub fn encode_vote(v: Option<NodeId>) -> (r: Vec<u8>)
    ensures
        r@ == enc_vote(v),
{
    let mut out: Vec<u8> = Vec::new();
    match v {
        None => codec::put_u8(&mut out, 0),
        Some(n) => {
            codec::put_u8(&mut out, 1);
            codec::put_u64(&mut out, n);
        },
    }
    assert(out@ =~= enc_vote(v));
    out
}

/// The vote that bytes hold, if they hold one.
pub fn decode_vote(b: &[u8]) -> (r: Option<Option<NodeId>>)
    ensures
        r == dec_vote(b@),
{
    assert(b@.skip(0) =~= b@);
    let tag: u8 = match codec::get_u8(b, 0) {
        Some(t) => t,
        None => return None,
    };
    if tag == 0 {
        Some(None)
    } else if tag == 1 {
        match codec::get_u64(b, 1) {
            Some(n) => Some(Some(n)),
            None => None,
        }
    } else {
        None
    }
}

/// A vote that was written is read back.
pub proof fn lemma_vote_round_trip(v: Option<NodeId>)
    ensures
        dec_vote(enc_vote(v)) == Some(v),
{
    let none = Seq::<u8>::empty();
    match v {
        None => {
            codec::lemma_u8_round_trip(0, none);
            assert(codec::enc_u8(0) + none =~= codec::enc_u8(0));
        },
        Some(n) => {
            codec::lemma_u8_round_trip(1, codec::enc_u64(n));
            codec::lemma_u64_round_trip(n, none);
            assert(codec::enc_u64(n) + none =~= codec::enc_u64(n));
        },
    }
}

// ----------------------------------------------------------------------
// Memberships and snapshots
// ----------------------------------------------------------------------
/// The bytes of a membership.
pub open spec fn enc_config(c: ConfigView) -> Seq<u8> {
    match c {
        ConfigView::Stable(nodes) => codec::enc_u32(0) + codec::enc_u64s(nodes),
        ConfigView::Joint { old, new } => codec::enc_u32(1) + codec::enc_u64s(old)
            + codec::enc_u64s(new),
    }
}

/// The membership that bytes hold, if they hold one.
pub open spec fn dec_config(b: Seq<u8>) -> Option<ConfigView> {
    match codec::dec_u32(b) {
        Some((0u32, rest)) => match codec::dec_u64s(rest) {
            Some((nodes, _)) => Some(ConfigView::Stable(nodes)),
            None => None,
        },
        Some((1u32, rest)) => match codec::dec_u64s(rest) {
            Some((old, after)) => match codec::dec_u64s(after) {
                Some((new, _)) => Some(ConfigView::Joint { old, new }),
                None => None,
            },
            None => None,
        },
        _ => None,
    }
}

/// The bytes of a membership.
pub fn encode_config(c: &ConfigState) -> (r: Vec<u8>)
    ensures
        r@ == enc_config(c@),
{
    let mut out: Vec<u8> = Vec::new();
    match c {
        ConfigState::Stable(nodes) => {
            codec::put_u32(&mut out, 0);
            codec::put_u64s(&mut out, nodes.as_slice());
        },
        ConfigState::Joint { old, new } => {
            codec::put_u32(&mut out, 1);
            codec::put_u64s(&mut out, old.as_slice());
            codec::put_u64s(&mut out, new.as_slice());
        },
    }
    assert(out@ =~= enc_config(c@));
    out
}

/// An optional membership as a mathematical value.
pub open spec fn config_view(c: Option<ConfigState>) -> Option<ConfigView> {
    match c {
        Some(c) => Some(c@),
        None => None,
    }
}

/// The membership that bytes hold, if they hold one.
pub fn decode_config(b: &[u8]) -> (r: Option<ConfigState>)
    ensures
        config_view(r) == dec_config(b@),
{
    assert(b@.skip(0) =~= b@);
    let tag: u32 = match codec::get_u32(b, 0) {
        Some(t) => t,
        None => return None,
    };
    if tag == 0 {
        match codec::get_u64s(b, 4) {
            Some((nodes, _)) => Some(ConfigState::Stable(nodes)),
            None => None,
        }
    } else if tag == 1 {
        match codec::get_u64s(b, 4) {
            Some((old_nodes, end)) => match codec::get_u64s(b, end) {
                Some((new_nodes, _)) => Some(
                    ConfigState::Joint { old: old_nodes, new: new_nodes },
                ),
                None => None,
            },
            None => None,
        }
    } else {
        None
    }
}

/// The lists of a membership are not longer than their length fields can say.
pub open spec fn config_fits(c: ConfigView) -> bool {
    match c {
        ConfigView::Stable(nodes) => nodes.len() <= u64::MAX,
        ConfigView::Joint { old, new } => old.len() <= u64::MAX && new.len() <= u64::MAX,
    }
}

/// A membership that was written is read back.
pub proof fn lemma_config_round_trip(c: ConfigView)
    requires
        config_fits(c),
    ensures
        dec_config(enc_config(c)) == Some(c),
{
    let e = Seq::<u8>::empty();
    match c {
        ConfigView::Stable(nodes) => {
            codec::lemma_u32_round_trip(0, codec::enc_u64s(nodes));
            codec::lemma_u64s_round_trip(nodes, e);
            assert(codec::enc_u64s(nodes) + e =~= codec::enc_u64s(nodes));
        },
        ConfigView::Joint { old, new } => {
            let tail = codec::enc_u64s(old) + codec::enc_u64s(new);
            codec::lemma_u32_round_trip(1, tail);
            assert(enc_config(c) =~= codec::enc_u32(1) + tail);
            codec::lemma_u64s_round_trip(old, codec::enc_u64s(new));
            codec::lemma_u64s_round_trip(new, e);
            assert(codec::enc_u64s(new) + e =~= codec::enc_u64s(new));
        },
    }
}

/// A snapshot of the state machine, with the log position it stands for and
/// the membership at that position.
#[derive(Debug)]
pub struct Snapshot {
    pub index: u64,
    pub term: u64,
    pub config: ConfigState,
    pub payload: Vec<u8>,
}

/// A snapshot as a mathematical value.
#[verifier::ext_equal]
pub struct SnapshotImage {
    pub index: u64,
    pub term: u64,
    pub config: ConfigView,
    pub payload: Seq<u8>,
}

impl View for Snapshot {
    type V = SnapshotImage;

    open spec fn view(&self) -> SnapshotImage {
        SnapshotImage {
            index: self.index,
            term: self.term,
            config: self.config@,
            payload: self.payload@,
        }
    }
}

/// A snapshot as it stands in its file.
pub open spec fn snapshot_bytes(s: SnapshotImage) -> Seq<u8> {
    bytes::le_bytes(s.index as nat, 8) + bytes::le_bytes(s.term as nat, 8) + bytes::le_bytes(
        enc_config(s.config).len(),
        4,
    ) + enc_config(s.config) + s.payload
}

/// The length of the membership in a snapshot file.
pub open spec fn snapshot_config_len(b: Seq<u8>) -> nat {
    bytes::le_value(b.subrange(16, 20))
}

/// A snapshot file that is too short for a header, or whose membership can be
/// read.
pub open spec fn snapshot_readable(b: Seq<u8>) -> bool {
    b.len() >= 20 ==> {
        &&& 20 + snapshot_config_len(b) <= b.len()
        &&& dec_config(b.subrange(20, 20 + snapshot_config_len(b) as int)) is Some
    }
}

/// What a snapshot file says. A file that is too short for a header stands for
/// the empty snapshot of a group with the given members.
pub open spec fn snapshot_of(b: Seq<u8>, default_nodes: Seq<NodeId>) -> SnapshotImage {
    if b.len() >= 20 {
        let end = 20 + snapshot_config_len(b) as int;
        SnapshotImage {
            index: bytes::le_value(b.subrange(0, 8)) as u64,
            term: bytes::le_value(b.subrange(8, 16)) as u64,
            config: dec_config(b.subrange(20, end))->0,
            payload: b.skip(end),
        }
    } else {
        SnapshotImage {
            index: 0,
            term: 0,
            config: ConfigView::Stable(default_nodes),
            payload: Seq::empty(),
        }
    }
}

/// The bytes of a snapshot file.
pub fn encode_snapshot(index: u64, term: u64, config: &ConfigState, payload: &[u8]) -> (r: Vec<u8>)
    ensures
        r@ == snapshot_bytes(SnapshotImage { index, term, config: config@, payload: payload@ }),
{
    let config_bytes = encode_config(config);
    let mut out: Vec<u8> = Vec::new();
    bytes::push_le(&mut out, index, 8);
    bytes::push_le(&mut out, term, 8);
    bytes::push_le(&mut out, config_bytes.len() as u64, 4);
    bytes::append_bytes(&mut out, config_bytes.as_slice());
    bytes::append_bytes(&mut out, payload);
    assert(out@ =~= snapshot_bytes(
        SnapshotImage { index, term, config: config@, payload: payload@ },
    ));
    out
}

/// Whether a snapshot file can be read.
pub fn is_snapshot_readable(b: &[u8]) -> (r: bool)
    ensures
        r == snapshot_readable(b@),
{
    if b.len() < 20 {
        return true;
    }
    let config_len: u64 = bytes::read_le_u32(b, 16) as u64;
    if 20 + config_len > b.len() as u64 {
        return false;
    }
    let part = vstd::slice::slice_subrange(b, 20, 20 + config_len as usize);
    decode_config(part).is_some()
}

/// Reads a snapshot file. A file that is too short for a header stands for the
/// empty snapshot of a group with the given members.
pub fn decode_snapshot(b: &[u8], default_nodes: Vec<NodeId>) -> (r: Snapshot)
    requires
        snapshot_readable(b@),
    ensures
        r@ == snapshot_of(b@, default_nodes@),
{
    if b.len() < 20 {
        return Snapshot {
            index: 0,
            term: 0,
            config: ConfigState::Stable(default_nodes),
            payload: Vec::new(),
        };
    }
    let end: usize = 20 + bytes::read_le_u32(b, 16) as usize;
    let part = vstd::slice::slice_subrange(b, 20, end);
    let config = match decode_config(part) {
        Some(c) => c,
        None => ConfigState::Stable(default_nodes),
    };
    let payload = bytes::copy_range(b, end, b.len());
    assert(payload@ =~= b@.skip(end as int));
    Snapshot {
        index: bytes::read_le_u64(b, 0),
        term: bytes::read_le_u64(b, 8),
        config,
        payload,
    }
}

/// A snapshot that was written is read back.
pub proof fn lemma_snapshot_round_trip(s: SnapshotImage, default_nodes: Seq<NodeId>)
    requires
        config_fits(s.config),
        enc_config(s.config).len() < 0x1_0000_0000,
    ensures
        snapshot_readable(snapshot_bytes(s)),
        snapshot_of(snapshot_bytes(s), default_nodes) == s,
{
    broadcast use crate::bytes::lemma_le_bytes_len;

    let b = snapshot_bytes(s);
    let c = enc_config(s.config);
    bytes::lemma_pow256();
    bytes::lemma_le_round_trip(s.index as nat, 8);
    bytes::lemma_le_round_trip(s.term as nat, 8);
    bytes::lemma_le_round_trip(c.len(), 4);
    lemma_config_round_trip(s.config);
    assert(b.subrange(0, 8) =~= bytes::le_bytes(s.index as nat, 8));
    assert(b.subrange(8, 16) =~= bytes::le_bytes(s.term as nat, 8));
    assert(b.subrange(16, 20) =~= bytes::le_bytes(c.len(), 4));
    assert(b.subrange(20, 20 + c.len() as int) =~= c);
    assert(b.skip(20 + c.len() as int) =~= s.payload);
}

} // verus!
