//! The messages that replicas exchange, and the entries of their logs.
use crate::bytes;
use crate::text;
use vstd::prelude::*;

verus! {

pub type NodeId = u64;

/// A candidate asks for a vote.
#[derive(Debug, Clone, Copy, PartialEq, Eq, Structural)]
pub struct RequestVoteReq {
    pub shard_id: u32,
    pub term: u64,
    pub candidate_id: NodeId,
    pub last_log_index: u64,
    pub last_log_term: u64,
}

/// The answer to a request for a vote.
#[derive(Debug, Clone, Copy, PartialEq, Eq, Structural)]
pub struct RequestVoteResp {
    pub term: u64,
    pub vote_granted: bool,
}

/// One entry of a replicated log.
#[derive(Debug)]
pub struct LogEntry {
    pub term: u64,
    pub index: u64,
    pub data: Vec<u8>,
}

/// A leader sends entries that follow the entry at `prev_log_index`.
#[derive(Debug)]
pub struct AppendEntriesReq {
    pub shard_id: u32,
    pub term: u64,
    pub leader_id: NodeId,
    pub prev_log_index: u64,
    pub prev_log_term: u64,
    pub entries: Vec<LogEntry>,
    pub leader_commit: u64,
}

/// The answer to an append.
#[derive(Debug, Clone, Copy, PartialEq, Eq, Structural)]
pub struct AppendEntriesResp {
    pub term: u64,
    pub success: bool,
    pub match_index: u64,
}

/// A leader sends its snapshot.
#[derive(Debug)]
pub struct InstallSnapshotReq {
    pub shard_id: u32,
    pub term: u64,
    pub leader_id: NodeId,
    pub last_included_index: u64,
    pub last_included_term: u64,
    pub offset: u64,
    pub data: Vec<u8>,
    pub done: bool,
}

/// The answer to a snapshot.
#[derive(Debug, Clone, Copy, PartialEq, Eq, Structural)]
pub struct InstallSnapshotResp {
    pub term: u64,
}

/// Why a message could not be delivered.
#[derive(Debug)]
pub enum TransportError {
    ConnectionRefused,
    Timeout,
    Serialization(String),
    Other(String),
}

/// Why a state machine could not do what was asked of it.
#[derive(Debug)]
pub enum StateMachineError {
    ApplyFailed(String),
    SnapshotFailed(String),
    RestoreFailed(String),
}

/// What a transport error says.
pub open spec fn transport_message(e: TransportError) -> Seq<char> {
    match e {
        TransportError::ConnectionRefused => "Connection refused"@,
        TransportError::Timeout => "Timeout"@,
        TransportError::Serialization(m) => "Serialization error: "@ + m@,
        TransportError::Other(m) => "Transport error: "@ + m@,
    }
}

impl TransportError {
    /// The error in words.
    pub fn message(&self) -> (r: String)
        ensures
            r@ == transport_message(*self),
    {
        match self {
            TransportError::ConnectionRefused => "Connection refused".to_owned(),
            TransportError::Timeout => "Timeout".to_owned(),
            TransportError::Serialization(m) => {
                let mut s: String = "Serialization error: ".to_owned();
                text::push_text(&mut s, m.as_str());
                s
            },
            TransportError::Other(m) => {
                let mut s: String = "Transport error: ".to_owned();
                text::push_text(&mut s, m.as_str());
                s
            },
        }
    }
}

/// What a state machine error says.
pub open spec fn machine_message(e: StateMachineError) -> Seq<char> {
    match e {
        StateMachineError::ApplyFailed(m) => "Apply failed: "@ + m@,
        StateMachineError::SnapshotFailed(m) => "Snapshot failed: "@ + m@,
        StateMachineError::RestoreFailed(m) => "Restore failed: "@ + m@,
    }
}

impl StateMachineError {
    /// The error in words.
    pub fn message(&self) -> (r: String)
        ensures
            r@ == machine_message(*self),
    {
        match self {
            StateMachineError::ApplyFailed(m) => {
                let mut s: String = "Apply failed: ".to_owned();
                text::push_text(&mut s, m.as_str());
                s
            },
            StateMachineError::SnapshotFailed(m) => {
                let mut s: String = "Snapshot failed: ".to_owned();
                text::push_text(&mut s, m.as_str());
                s
            },
            StateMachineError::RestoreFailed(m) => {
                let mut s: String = "Restore failed: ".to_owned();
                text::push_text(&mut s, m.as_str());
                s
            },
        }
    }
}

/// What carries messages to other replicas and brings their answers.
pub trait RaftTransport {
    fn send_request_vote(&self, to: NodeId, req: RequestVoteReq) -> Result<
        RequestVoteResp,
        TransportError,
    >;

    fn send_append_entries(&self, to: NodeId, req: AppendEntriesReq) -> Result<
        AppendEntriesResp,
        TransportError,
    >;

    fn send_install_snapshot(&self, to: NodeId, req: InstallSnapshotReq) -> Result<
        InstallSnapshotResp,
        TransportError,
    >;
}

/// What carries out the commands that a group has agreed on.
pub trait StateMachine {
    fn apply(&mut self, command: &[u8]) -> Result<Vec<u8>, StateMachineError>;

    fn snapshot(&self) -> Result<Vec<u8>, StateMachineError>;

    fn restore(&mut self, snapshot: &[u8]) -> Result<(), StateMachineError>;
}

/// What a committed log entry holds.
#[derive(Debug)]
pub enum EntryPayload {
    Command(Vec<u8>),
    ConfigJoint { old: Vec<NodeId>, new: Vec<NodeId> },
    ConfigStable(Vec<NodeId>),
}

// ----------------------------------------------------------------------
// Mathematical values
// ----------------------------------------------------------------------
#[verifier::ext_equal]
pub struct EntryView {
    pub term: u64,
    pub index: u64,
    pub data: Seq<u8>,
}

#[verifier::ext_equal]
pub struct AppendView {
    pub shard_id: u32,
    pub term: u64,
    pub leader_id: NodeId,
    pub prev_log_index: u64,
    pub prev_log_term: u64,
    pub entries: Seq<EntryView>,
    pub leader_commit: u64,
}

#[verifier::ext_equal]
pub struct SnapshotView {
    pub shard_id: u32,
    pub term: u64,
    pub leader_id: NodeId,
    pub last_included_index: u64,
    pub last_included_term: u64,
    pub offset: u64,
    pub data: Seq<u8>,
    pub done: bool,
}

#[verifier::ext_equal]
pub enum PayloadView {
    Command(Seq<u8>),
    ConfigJoint { old: Seq<NodeId>, new: Seq<NodeId> },
    ConfigStable(Seq<NodeId>),
}

impl View for LogEntry {
    type V = EntryView;

    open spec fn view(&self) -> EntryView {
        EntryView { term: self.term, index: self.index, data: self.data@ }
    }
}

/// Log entries as mathematical values.
pub open spec fn entry_views(v: Seq<LogEntry>) -> Seq<EntryView> {
    v.map_values(|e: LogEntry| e@)
}

impl View for AppendEntriesReq {
    type V = AppendView;

    open spec fn view(&self) -> AppendView {
        AppendView {
            shard_id: self.shard_id,
            term: self.term,
            leader_id: self.leader_id,
            prev_log_index: self.prev_log_index,
            prev_log_term: self.prev_log_term,
            entries: entry_views(self.entries@),
            leader_commit: self.leader_commit,
        }
    }
}

impl View for InstallSnapshotReq {
    type V = SnapshotView;

    open spec fn view(&self) -> SnapshotView {
        SnapshotView {
            shard_id: self.shard_id,
            term: self.term,
            leader_id: self.leader_id,
            last_included_index: self.last_included_index,
            last_included_term: self.last_included_term,
            offset: self.offset,
            data: self.data@,
            done: self.done,
        }
    }
}

impl View for EntryPayload {
    type V = PayloadView;

    open spec fn view(&self) -> PayloadView {
        match self {
            EntryPayload::Command(data) => PayloadView::Command(data@),
            EntryPayload::ConfigJoint { old, new } => PayloadView::ConfigJoint {
                old: old@,
                new: new@,
            },
            EntryPayload::ConfigStable(nodes) => PayloadView::ConfigStable(nodes@),
        }
    }
}

impl Clone for LogEntry {
    fn clone(&self) -> (r: Self)
        ensures
            r@ == self@,
    {
        LogEntry {
            term: self.term,
            index: self.index,
            data: bytes::copy_bytes(self.data.as_slice()),
        }
    }
}

/// An owned copy of the log entries from `from` up to, not including, `to`.
pub fn copy_entries(v: &[LogEntry], from: usize, to: usize) -> (r: Vec<LogEntry>)
    requires
        from <= to <= v@.len(),
    ensures
        entry_views(r@) == entry_views(v@).subrange(from as int, to as int),
{
    let mut r: Vec<LogEntry> = Vec::new();
    let mut i: usize = from;
    while i < to
        invariant
            from <= i <= to,
            to <= v@.len(),
            entry_views(r@) == entry_views(v@).subrange(from as int, i as int),
        decreases to - i,
    {
        let ghost before = entry_views(r@);
        let e = v[i].clone();
        r.push(e);
        assert(entry_views(r@) =~= before.push(e@));
        assert(entry_views(v@).subrange(from as int, i + 1) =~= before.push(v@[i as int]@));
        i = i + 1;
    }
    r
}

impl Clone for AppendEntriesReq {
    fn clone(&self) -> (r: Self)
        ensures
            r@ == self@,
    {
        let r = AppendEntriesReq {
            shard_id: self.shard_id,
            term: self.term,
            leader_id: self.leader_id,
            prev_log_index: self.prev_log_index,
            prev_log_term: self.prev_log_term,
            entries: copy_entries(self.entries.as_slice(), 0, self.entries.len()),
            leader_commit: self.leader_commit,
        };
        assert(r@.entries =~= self@.entries);
        r
    }
}

impl Clone for InstallSnapshotReq {
    fn clone(&self) -> (r: Self)
        ensures
            r@ == self@,
    {
        InstallSnapshotReq {
            shard_id: self.shard_id,
            term: self.term,
            leader_id: self.leader_id,
            last_included_index: self.last_included_index,
            last_included_term: self.last_included_term,
            offset: self.offset,
            data: bytes::copy_bytes(self.data.as_slice()),
            done: self.done,
        }
    }
}

/// An owned copy of a list of replicas.
pub fn copy_nodes(v: &[NodeId]) -> (r: Vec<NodeId>)
    ensures
        r@ == v@,
{
    let mut r: Vec<NodeId> = Vec::new();
    let mut i: usize = 0;
    while i < v.len()
        invariant
            i <= v@.len(),
            r@ == v@.take(i as int),
        decreases v@.len() - i,
    {
        r.push(v[i]);
        assert(v@.take(i + 1) =~= v@.take(i as int).push(v@[i as int]));
        i = i + 1;
    }
    assert(r@ =~= v@);
    r
}

impl Clone for EntryPayload {
    fn clone(&self) -> (r: Self)
        ensures
            r@ == self@,
    {
        match self {
            EntryPayload::Command(data) => EntryPayload::Command(
                bytes::copy_bytes(data.as_slice()),
            ),
            EntryPayload::ConfigJoint { old, new } => EntryPayload::ConfigJoint {
                old: copy_nodes(old.as_slice()),
                new: copy_nodes(new.as_slice()),
            },
            EntryPayload::ConfigStable(nodes) => EntryPayload::ConfigStable(
                copy_nodes(nodes.as_slice()),
            ),
        }
    }
}

} // verus!
