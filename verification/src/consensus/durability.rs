//! Why a replica that is started again takes up where it left off: its log file
//! always adds up to its term, its vote and its log.
use crate::bytes;
use crate::consensus::cluster;
use crate::consensus::config::ConfigView;
use crate::consensus::messages::{AppendView, EntryView, NodeId, PayloadView, SnapshotView};
use crate::consensus::node;
use crate::consensus::persist;
use crate::consensus::persist::Durable;
use crate::consensus::state::{RaftView, Role};
use crate::consensus::transition;
use crate::consensus::transition::{ActionView, EventView, Me, Outcome};
use crate::consensus::wire;
use crate::consensus::wire::SnapshotImage;
use crate::storage::wal::RecordView;
use vstd::prelude::*;

verus! {

// ----------------------------------------------------------------------
// What is written
// ----------------------------------------------------------------------
/// The records of the log file after a replica has done these things.
pub open spec fn written(file: Seq<RecordView>, acts: Seq<ActionView>) -> Seq<RecordView>
    decreases acts.len(),
{
    if acts.len() == 0 {
        file
    } else {
        let before = written(file, acts.drop_last());
        match acts.last() {
            ActionView::Persist(rs) => before + rs,
            ActionView::RewriteLog(rs) => rs,
            _ => before,
        }
    }
}

/// None of the actions writes to the log file.
pub open spec fn quiet(acts: Seq<ActionView>) -> bool {
    forall|k: int| 0 <= k < acts.len() ==> !((#[trigger] acts[k]) is Persist) && !(acts[k] is RewriteLog)
}

/// The log's entries stand at the places of their indexes, and can be written.
pub open spec fn in_place(s: RaftView) -> bool {
    forall|k: int|
        0 <= k < s.log.len() ==> (#[trigger] s.log[k]).index == s.last_snapshot_index + k + 1
            && s.log[k].term >= 1 && s.log[k].data.len() <= u64::MAX
}

/// What a log file adds up to is the term, the vote and the log of the replica.
pub open spec fn mirrors(d: Durable, s: RaftView) -> bool {
    &&& d.term == s.current_term
    &&& d.vote == s.voted_for
    &&& d.log_len == s.last_log_index()
    &&& forall|k: int|
        0 <= k < s.log.len() ==> d.entries.contains_key((#[trigger] s.log[k]).index)
            && d.entries[s.log[k].index] == s.log[k]
}

/// Where the entry has the index at which the snapshot ends, it has its term too.
pub open spec fn ends_snapshot(s: RaftView, e: EntryView) -> bool {
    e.index == s.last_snapshot_index ==> e.term == s.last_snapshot_term
}

/// Entries that are numbered one by one from behind `prev` on, and can be written; the
/// one that ends the snapshot has the snapshot's term.
pub open spec fn are_regular(s: RaftView, prev: int, entries: Seq<EntryView>) -> bool {
    forall|k: int|
        0 <= k < entries.len() ==> (#[trigger] entries[k]).index == prev + k + 1
            && entries[k].term >= 1 && entries[k].data.len() <= u64::MAX && ends_snapshot(
            s,
            entries[k],
        )
}

/// An event whose entries are regular, and can be written.
pub open spec fn is_regular(s: RaftView, e: EventView) -> bool {
    match e {
        EventView::Tick => s.current_term < u64::MAX,
        EventView::AppendEntries { req } => are_regular(
            s,
            req.prev_log_index as int,
            req.entries,
        ),
        EventView::Propose { data } => can_append(s, PayloadView::Command(data)),
        EventView::ProposeConfigChange { new_nodes } => match s.config {
            ConfigView::Stable(old) => can_append(
                s,
                PayloadView::ConfigJoint { old, new: new_nodes },
            ),
            _ => true,
        },
        EventView::ProposeConfigStable { new_nodes } => can_append(
            s,
            PayloadView::ConfigStable(new_nodes),
        ),
        _ => true,
    }
}

/// A leader has a term, and its entry can be written.
pub open spec fn can_append(s: RaftView, p: PayloadView) -> bool {
    s.role == Role::Leader ==> s.current_term >= 1 && wire::enc_payload(p).len() <= u64::MAX
        && s.last_log_index() < u64::MAX
}

// ----------------------------------------------------------------------
// Records
// ----------------------------------------------------------------------
proof fn lemma_durable_one(file: Seq<RecordView>, r: RecordView)
    ensures
        persist::durable(file.push(r)) == persist::absorb_record(persist::durable(file), r),
{
    assert(file.push(r).drop_last() =~= file);
}

proof fn lemma_durable_vote(file: Seq<RecordView>, term: u64, vote: Option<NodeId>)
    ensures
        persist::durable(file + persist::vote_records(term, vote)) == (Durable {
            term,
            vote,
            ..persist::durable(file)
        }),
{
    let a = persist::raft_record(persist::term_key(), bytes::le_bytes(term as nat, 8));
    let b = persist::raft_record(persist::vote_key(), wire::enc_vote(vote));
    assert(file + persist::vote_records(term, vote) =~= file.push(a).push(b));
    lemma_durable_one(file, a);
    lemma_durable_one(file.push(a), b);
    bytes::lemma_le_bytes_len(term as nat, 8);
    bytes::lemma_pow256();
    bytes::lemma_le_round_trip(term as nat, 8);
    wire::lemma_vote_round_trip(vote);
    assert(persist::term_key()[0] != persist::vote_key()[0]);
}

proof fn lemma_durable_len(file: Seq<RecordView>, len: u64)
    ensures
        persist::durable(file + persist::log_len_records(len)) == (Durable {
            log_len: len,
            ..persist::durable(file)
        }),
{
    let a = persist::raft_record(persist::log_len_key(), bytes::le_bytes(len as nat, 8));
    assert(file + persist::log_len_records(len) =~= file.push(a));
    lemma_durable_one(file, a);
    bytes::lemma_le_bytes_len(len as nat, 8);
    bytes::lemma_pow256();
    bytes::lemma_le_round_trip(len as nat, 8);
    assert(persist::log_len_key()[0] != persist::vote_key()[0]);
    assert(persist::log_len_key()[0] != persist::term_key()[0]);
}

proof fn lemma_durable_entry(file: Seq<RecordView>, e: EntryView)
    requires
        e.data.len() <= u64::MAX,
    ensures
        persist::durable(file.push(persist::entry_record(e))) == (Durable {
            entries: persist::durable(file).entries.insert(e.index, e),
            ..persist::durable(file)
        }),
        persist::durable(file + persist::entry_records(e)) == (Durable {
            entries: persist::durable(file).entries.insert(e.index, e),
            log_len: e.index,
            ..persist::durable(file)
        }),
{
    let r = persist::entry_record(e);
    lemma_durable_one(file, r);
    persist::lemma_entry_key(e.index);
    wire::lemma_entry_round_trip(e);
    assert(file + persist::entry_records(e) =~= file.push(r) + persist::log_len_records(e.index));
    lemma_durable_len(file.push(r), e.index);
}

proof fn lemma_last_index(s: RaftView)
    requires
        in_place(s),
    ensures
        s.last_log_index() == s.last_snapshot_index + s.log.len(),
        forall|k: int|
            s.last_snapshot_index < k <= s.last_snapshot_index + s.log.len() ==> (
            #[trigger] s.term_at(k)) == s.log[k - s.last_snapshot_index - 1].term,
        forall|k: int|
            k > s.last_snapshot_index + s.log.len() ==> #[trigger] s.term_at(k) == 0,
{
    if s.log.len() > 0 {
        assert(s.log[s.log.len() - 1].index == s.last_snapshot_index + s.log.len());
    }
}

/// What is recovered from a log file that mirrors the replica is its log.
proof fn lemma_recovered_log(d: Durable, s: RaftView, n: nat)
    requires
        in_place(s),
        mirrors(d, s),
        n <= s.log.len(),
    ensures
        persist::entries_of(
            d.entries,
            s.last_snapshot_index + 1,
            s.last_snapshot_index + n,
        ) == s.log.take(n as int),
    decreases n,
{
    if n > 0 {
        lemma_recovered_log(d, s, (n - 1) as nat);
        assert(s.log[n - 1].index == s.last_snapshot_index + n);
        assert(s.log.take(n as int) =~= s.log.take(n - 1).push(s.log[n - 1]));
    } else {
        assert(s.log.take(0) =~= Seq::empty());
    }
}

// ----------------------------------------------------------------------
// Single changes
// ----------------------------------------------------------------------
/// A replica makes an entry durable that it puts at the end of its log.
proof fn lemma_pushed(file: Seq<RecordView>, s: RaftView, e: EntryView)
    requires
        in_place(s),
        mirrors(persist::durable(file), s),
        e.index == s.last_log_index() + 1,
        e.term >= 1,
        e.data.len() <= u64::MAX,
    ensures
        in_place(RaftView { log: s.log.push(e), ..s }),
        mirrors(
            persist::durable(file + persist::entry_records(e)),
            RaftView { log: s.log.push(e), ..s },
        ),
{
    let t = RaftView { log: s.log.push(e), ..s };
    let d = persist::durable(file);
    lemma_last_index(s);
    lemma_durable_entry(file, e);
    assert forall|k: int| 0 <= k < t.log.len() implies (#[trigger] t.log[k]).index
        == t.last_snapshot_index + k + 1 && t.log[k].term >= 1 && t.log[k].data.len()
        <= u64::MAX by {
        if k < s.log.len() {
            assert(t.log[k] == s.log[k]);
        }
    }
    let f = persist::durable(file + persist::entry_records(e));
    assert forall|k: int| 0 <= k < t.log.len() implies f.entries.contains_key(
        (#[trigger] t.log[k]).index,
    ) && f.entries[t.log[k].index] == t.log[k] by {
        if k < s.log.len() {
            assert(t.log[k] == s.log[k]);
            assert(d.entries.contains_key(s.log[k].index));
        }
    }
}

/// A replica makes it durable that it cuts its log.
proof fn lemma_cut(file: Seq<RecordView>, s: RaftView, n: int)
    requires
        in_place(s),
        mirrors(persist::durable(file), s),
        0 <= n <= s.log.len(),
    ensures
        ({
            let t = RaftView { log: s.log.take(n), ..s };
            &&& in_place(t)
            &&& mirrors(
                persist::durable(file + persist::log_len_records(t.last_log_index())),
                t,
            )
        }),
{
    let t = RaftView { log: s.log.take(n), ..s };
    let d = persist::durable(file);
    lemma_durable_len(file, t.last_log_index());
    assert forall|k: int| 0 <= k < t.log.len() implies (#[trigger] t.log[k]).index
        == t.last_snapshot_index + k + 1 && t.log[k].term >= 1 && t.log[k].data.len()
        <= u64::MAX by {
        assert(t.log[k] == s.log[k]);
    }
    assert forall|k: int| 0 <= k < t.log.len() implies d.entries.contains_key(
        (#[trigger] t.log[k]).index,
    ) && d.entries[t.log[k].index] == t.log[k] by {
        assert(t.log[k] == s.log[k]);
    }
}

/// A replica makes the entries durable that it takes in.
proof fn lemma_absorbed(
    file: Seq<RecordView>,
    s: RaftView,
    prev: int,
    entries: Seq<EntryView>,
)
    requires
        in_place(s),
        mirrors(persist::durable(file), s),
        0 <= prev <= s.last_log_index(),
        are_regular(s, prev, entries),
    ensures
        in_place(transition::absorb_all(s, entries)),
        mirrors(
            persist::durable(file + transition::absorb_all_records(s, entries)),
            transition::absorb_all(s, entries),
        ),
        transition::absorb_all(s, entries).last_log_index() >= prev + entries.len(),
    decreases entries.len(),
{
    if entries.len() == 0 {
        assert(file + transition::absorb_all_records(s, entries) =~= file);
    } else {
        let front = entries.drop_last();
        assert(are_regular(s, prev, front)) by {
            assert forall|k: int| 0 <= k < front.len() implies (#[trigger] front[k]).index == prev
                + k + 1 && front[k].term >= 1 && front[k].data.len() <= u64::MAX && ends_snapshot(
                s,
                front[k],
            ) by {
                assert(front[k] == entries[k]);
            }
        }
        lemma_absorbed(file, s, prev, front);
        node::lemma_absorb_all_frame(s, front);
        let t = transition::absorb_all(s, front);
        let e = entries[entries.len() - 1];
        assert(e.index == prev + entries.len());
        let so_far = file + transition::absorb_all_records(s, front);
        assert(file + transition::absorb_all_records(s, entries) =~= so_far
            + transition::absorb_records(t, e));
        lemma_last_index(t);
        let known = t.term_at(e.index as int);
        let pos = e.index - t.last_snapshot_index - 1;
        assert(ends_snapshot(s, e));
        if e.index <= t.last_snapshot_index {
            assert(so_far + Seq::<RecordView>::empty() =~= so_far);
        } else if known == 0 {
            assert(t.log.len() == pos) by {
                if t.log.len() > pos {
                    assert(t.term_at(e.index as int) == t.log[pos].term);
                }
            }
            lemma_pushed(so_far, t, e);
        } else if known == e.term {
            assert(so_far + Seq::<RecordView>::empty() =~= so_far);
        } else {
            let cut = RaftView { log: t.log.take(pos), ..t };
            lemma_cut(so_far, t, pos);
            lemma_last_index(cut);
            let cut_file = so_far + persist::log_len_records(cut.last_log_index());
            lemma_pushed(cut_file, cut, e);
            assert(so_far + transition::absorb_records(t, e) =~= cut_file + persist::entry_records(
                e,
            ));
        }
        lemma_last_index(transition::absorb_all(s, entries));
    }
}

/// A log file that is written anew mirrors the replica.
proof fn lemma_rewritten(s: RaftView)
    requires
        in_place(s),
    ensures
        mirrors(persist::durable(persist::state_records(s)), s),
{
    let head = persist::vote_records(s.current_term, s.voted_for);
    let none = Seq::<RecordView>::empty();
    assert(none + head =~= head);
    lemma_durable_vote(none, s.current_term, s.voted_for);
    lemma_rewritten_entries(s, head, s.log.len());
    let all = persist::all_entry_records(s.log);
    assert(all.take(s.log.len() as int) =~= all);
    lemma_durable_len(head + all, s.last_log_index());
    let d = persist::durable(head + all);
    let f = persist::durable(persist::state_records(s));
    assert forall|k: int| 0 <= k < s.log.len() implies f.entries.contains_key(
        (#[trigger] s.log[k]).index,
    ) && f.entries[s.log[k].index] == s.log[k] by {}
}

proof fn lemma_rewritten_entries(s: RaftView, head: Seq<RecordView>, n: nat)
    requires
        in_place(s),
        n <= s.log.len(),
    ensures
        ({
            let d = persist::durable(head + persist::all_entry_records(s.log).take(n as int));
            &&& d.term == persist::durable(head).term
            &&& d.vote == persist::durable(head).vote
            &&& forall|k: int|
                0 <= k < n ==> d.entries.contains_key((#[trigger] s.log[k]).index)
                    && d.entries[s.log[k].index] == s.log[k]
        }),
    decreases n,
{
    let all = persist::all_entry_records(s.log);
    if n == 0 {
        assert(head + all.take(0) =~= head);
    } else {
        lemma_rewritten_entries(s, head, (n - 1) as nat);
        let before = head + all.take(n - 1);
        let e = s.log[n - 1];
        assert(head + all.take(n as int) =~= before.push(persist::entry_record(e)));
        lemma_durable_entry(before, e);
        let d = persist::durable(head + all.take(n as int));
        assert forall|k: int| 0 <= k < n implies d.entries.contains_key((#[trigger] s.log[k]).index)
            && d.entries[s.log[k].index] == s.log[k] by {
            if k < n - 1 {
                assert(s.log[k].index != e.index);
            }
        }
    }
}

// ----------------------------------------------------------------------
// Actions
// ----------------------------------------------------------------------
proof fn lemma_written_joined(file: Seq<RecordView>, a: Seq<ActionView>, b: Seq<ActionView>)
    ensures
        written(file, a + b) == written(written(file, a), b),
    decreases b.len(),
{
    if b.len() == 0 {
        assert(a + b =~= a);
    } else {
        lemma_written_joined(file, a, b.drop_last());
        assert((a + b).drop_last() =~= a + b.drop_last());
    }
}

proof fn lemma_quiet(file: Seq<RecordView>, acts: Seq<ActionView>)
    requires
        quiet(acts),
    ensures
        written(file, acts) == file,
    decreases acts.len(),
{
    if acts.len() > 0 {
        assert(!(acts[acts.len() - 1] is Persist) && !(acts[acts.len() - 1] is RewriteLog));
        assert forall|k: int| 0 <= k < acts.drop_last().len() implies !((
        #[trigger] acts.drop_last()[k]) is Persist) && !(acts.drop_last()[k] is RewriteLog) by {
            assert(acts.drop_last()[k] == acts[k]);
        }
        lemma_quiet(file, acts.drop_last());
    }
}

proof fn lemma_one_written(file: Seq<RecordView>, rs: Seq<RecordView>)
    ensures
        written(file, seq![ActionView::Persist(rs)]) == file + rs,
{
    let acts = seq![ActionView::Persist(rs)];
    assert(acts.drop_last() =~= Seq::empty());
    assert(written(file, acts.drop_last()) == file);
}

proof fn lemma_asking_is_quiet(s: RaftView, me: Me, nodes: Seq<NodeId>)
    ensures
        quiet(transition::ask_all(s, me, nodes)),
    decreases nodes.len(),
{
    if nodes.len() > 0 {
        lemma_asking_is_quiet(s, me, nodes.drop_last());
        let front = transition::ask_all(s, me, nodes.drop_last());
        let acts = transition::ask_all(s, me, nodes);
        assert forall|k: int| 0 <= k < acts.len() implies !((#[trigger] acts[k]) is Persist) && !(
        acts[k] is RewriteLog) by {
            if k < front.len() {
                assert(acts[k] == front[k]);
            }
        }
    }
}

proof fn lemma_sending_is_quiet(s: RaftView, me: Me, nodes: Seq<NodeId>)
    ensures
        quiet(transition::replicate_to_all(s, me, nodes)),
    decreases nodes.len(),
{
    if nodes.len() > 0 {
        lemma_sending_is_quiet(s, me, nodes.drop_last());
        let front = transition::replicate_to_all(s, me, nodes.drop_last());
        let acts = transition::replicate_to_all(s, me, nodes);
        assert forall|k: int| 0 <= k < acts.len() implies !((#[trigger] acts[k]) is Persist) && !(
        acts[k] is RewriteLog) by {
            if k < front.len() {
                assert(acts[k] == front[k]);
            }
        }
    }
}

proof fn lemma_applying_is_quiet(entries: Seq<EntryView>)
    ensures
        quiet(transition::apply_commands(entries)),
    decreases entries.len(),
{
    if entries.len() > 0 {
        lemma_applying_is_quiet(entries.drop_last());
        let front = transition::apply_commands(entries.drop_last());
        let acts = transition::apply_commands(entries);
        assert forall|k: int| 0 <= k < acts.len() implies !((#[trigger] acts[k]) is Persist) && !(
        acts[k] is RewriteLog) by {
            if k < front.len() {
                assert(acts[k] == front[k]);
            }
        }
    }
}

/// The file mirrors the replica after what it wrote.
pub open spec fn lands(file: Seq<RecordView>, out: Outcome) -> bool {
    in_place(out.0) && mirrors(persist::durable(written(file, out.1)), out.0)
}

/// A replica writes its term and vote, and then does what writes nothing.
proof fn lemma_vote_written(
    file: Seq<RecordView>,
    s: RaftView,
    t: RaftView,
    first: Seq<ActionView>,
    rest: Seq<ActionView>,
)
    requires
        in_place(s),
        mirrors(persist::durable(file), s),
        quiet(rest),
        t.log == s.log,
        t.last_snapshot_index == s.last_snapshot_index,
        first == seq![transition::persist_vote(t)] || (first == Seq::<ActionView>::empty()
            && t.current_term == s.current_term && t.voted_for == s.voted_for),
    ensures
        lands(file, (t, first + rest)),
{
    lemma_written_joined(file, first, rest);
    let rs = persist::vote_records(t.current_term, t.voted_for);
    if first.len() > 0 {
        lemma_one_written(file, rs);
        lemma_durable_vote(file, t.current_term, t.voted_for);
        lemma_quiet(file + rs, rest);
        assert(persist::durable(file + rs).entries == persist::durable(file).entries);
    } else {
        lemma_quiet(file, rest);
    }
}

/// A leader writes an entry of its own.
proof fn lemma_own_written(
    file: Seq<RecordView>,
    s: RaftView,
    p: PayloadView,
    out: Outcome,
    reply: ActionView,
    rest: Seq<ActionView>,
)
    requires
        in_place(s),
        mirrors(persist::durable(file), s),
        s.role == Role::Leader,
        can_append(s, p),
        quiet(rest),
        !(reply is Persist) && !(reply is RewriteLog),
        out.0.log == s.log.push(transition::own_entry(s, p)),
        out.0.current_term == s.current_term,
        out.0.voted_for == s.voted_for,
        out.0.last_snapshot_index == s.last_snapshot_index,
        out.1 == seq![
            ActionView::Persist(persist::entry_records(transition::own_entry(s, p))),
            reply,
        ] + rest,
    ensures
        lands(file, out),
{
    let e = transition::own_entry(s, p);
    lemma_pushed(file, s, e);
    let rs = persist::entry_records(e);
    let a = seq![ActionView::Persist(rs)];
    let b = seq![reply] + rest;
    assert(out.1 =~= a + b);
    lemma_written_joined(file, a, b);
    lemma_one_written(file, rs);
    assert(quiet(b)) by {
        assert forall|k: int| 0 <= k < b.len() implies !((#[trigger] b[k]) is Persist) && !(
        b[k] is RewriteLog) by {
            if k > 0 {
                assert(b[k] == rest[k - 1]);
            }
        }
    }
    lemma_quiet(file + rs, b);
    let t = RaftView { log: s.log.push(e), ..s };
    assert(mirrors(persist::durable(file + rs), t));
    assert forall|k: int| 0 <= k < out.0.log.len() implies (#[trigger] out.0.log[k]).index
        == out.0.last_snapshot_index + k + 1 && out.0.log[k].term >= 1 && out.0.log[k].data.len()
        <= u64::MAX by {
        assert(out.0.log[k] == t.log[k]);
    }
}

proof fn lemma_tick_written(file: Seq<RecordView>, s: RaftView, me: Me, timeout: u64)
    requires
        in_place(s),
        mirrors(persist::durable(file), s),
        s.current_term < u64::MAX,
    ensures
        lands(file, transition::on_tick(s, me, timeout)),
{
    reveal(transition::on_tick);
    let out = transition::on_tick(s, me, timeout);
    let none = Seq::<ActionView>::empty();
    lemma_sending_is_quiet(out.0, me, out.0.config.all_nodes());
    lemma_asking_is_quiet(out.0, me, out.0.config.all_nodes());
    if s.role == Role::Leader || !transition::election_due(s) {
        lemma_vote_written(file, s, out.0, none, out.1);
        assert(none + out.1 =~= out.1);
    } else {
        let c = transition::candidacy(s, me, timeout);
        let first = seq![transition::persist_vote(c)];
        assert(transition::persist_vote(c) == transition::persist_vote(out.0));
        if c.config.quorum(c.votes_received.insert(me.id)) {
            lemma_vote_written(file, s, out.0, first, transition::broadcast(out.0, me));
        } else {
            lemma_vote_written(
                file,
                s,
                out.0,
                first,
                transition::ask_all(c, me, c.config.all_nodes()),
            );
        }
    }
}

proof fn lemma_append_written(
    file: Seq<RecordView>,
    s: RaftView,
    req: AppendView,
)
    requires
        in_place(s),
        mirrors(persist::durable(file), s),
        is_regular(s, EventView::AppendEntries { req }),
    ensures
        lands(file, transition::on_append_entries(s, req)),
{
    reveal(transition::on_append_entries);
    let out = transition::on_append_entries(s, req);
    let none = Seq::<ActionView>::empty();
    let t = transition::adopt_term(s, req.term);
    if req.term < t.current_term {
        lemma_vote_written(file, s, out.0, none, out.1);
        assert(none + out.1 =~= out.1);
    } else {
        let stepped_down = req.term > s.current_term || s.role == Role::Candidate;
        let u = transition::follow(t);
        if !transition::log_matches(u, req) {
            let reply = seq![out.1[0]];
            let kept = transition::persist_vote_if(stepped_down, u);
            assert(quiet(reply));
            lemma_quiet(file, reply);
            lemma_written_joined(file, reply, kept);
            lemma_vote_written(file, s, u, kept, none);
            assert(kept + none =~= kept);
        } else {
            let records = transition::absorb_all_records(u, req.entries);
            let w = transition::take_entries(u, req.entries);
            node::lemma_take_entries_frame(u, req.entries);
            let x = transition::learn_commit(w, req.leader_commit);
            let news = req.leader_commit > w.commit_index;
            let a = if records.len() > 0 {
                seq![ActionView::Persist(records)]
            } else {
                none
            };
            let b = transition::persist_vote_if(stepped_down, x);
            let applied = if news {
                transition::apply_commands(transition::unapplied(x))
            } else {
                none
            };
            let reply = seq![out.1.last()];
            assert(out.1 =~= a + (b + (applied + reply)));
            lemma_applying_is_quiet(transition::unapplied(x));
            assert(quiet(applied + reply)) by {
                let acts = applied + reply;
                assert forall|k: int| 0 <= k < acts.len() implies !((#[trigger] acts[k]) is Persist)
                    && !(acts[k] is RewriteLog) by {
                    if k < applied.len() {
                        assert(acts[k] == applied[k]);
                    }
                }
            }
            // The entries are taken in as the replica was, the vote follows.
            let v = RaftView { current_term: s.current_term, voted_for: s.voted_for, ..u };
            assert(mirrors(persist::durable(file), v) && in_place(v));
            assert(v.last_log_index() == u.last_log_index());
            lemma_same_records(u, v, req.entries);
            assert(are_regular(v, req.prev_log_index as int, req.entries));
            lemma_absorbed(file, v, req.prev_log_index as int, req.entries);
            assert(written(file, a) == file + records) by {
                if records.len() > 0 {
                    lemma_one_written(file, records);
                } else {
                    assert(file + records =~= file);
                }
            }
            let mid = transition::absorb_all(v, req.entries);
            node::lemma_absorb_all_frame(v, req.entries);
            lemma_written_joined(file, a, b + (applied + reply));
            lemma_vote_written(file + records, mid, out.0, b, applied + reply);
        }
    }
}

/// What is taken in of entries depends on the log alone.
proof fn lemma_same_records(u: RaftView, v: RaftView, entries: Seq<EntryView>)
    requires
        u.log == v.log,
        u.last_snapshot_index == v.last_snapshot_index,
        u.last_snapshot_term == v.last_snapshot_term,
    ensures
        transition::absorb_all(u, entries).log == transition::absorb_all(v, entries).log,
        transition::absorb_all_records(u, entries) == transition::absorb_all_records(v, entries),
    decreases entries.len(),
{
    if entries.len() > 0 {
        let front = entries.drop_last();
        lemma_same_records(u, v, front);
        node::lemma_absorb_all_frame(u, front);
        node::lemma_absorb_all_frame(v, front);
        let a = transition::absorb_all(u, front);
        let b = transition::absorb_all(v, front);
        let e = entries.last();
        assert(a.term_at(e.index as int) == b.term_at(e.index as int));
    }
}

/// The entries that follow an index are those that stood behind it, in their order.
proof fn lemma_entries_after(s: RaftView, index: u64)
    requires
        in_place(s),
        s.last_snapshot_index <= index,
    ensures
        ({
            let rest = transition::entries_after(s, index);
            &&& rest.len() == if index < s.last_log_index() {
                s.last_log_index() - index
            } else {
                0
            }
            &&& forall|k: int|
                0 <= k < rest.len() ==> (#[trigger] rest[k]).index == index + k + 1 && rest[k]
                    == s.log[index - s.last_snapshot_index + k]
        }),
{
    lemma_last_index(s);
    let rest = transition::entries_after(s, index);
    assert forall|k: int| 0 <= k < rest.len() implies (#[trigger] rest[k]).index == index + k + 1
        && rest[k] == s.log[index - s.last_snapshot_index + k] by {
        assert(s.log[index - s.last_snapshot_index + k].index == index + k + 1);
    }
}

/// A snapshot that is saved leaves a log file that mirrors the replica.
proof fn lemma_saved(file: Seq<RecordView>, s: RaftView)
    requires
        in_place(s),
    ensures
        written(file, transition::save_snapshot(s)) == persist::state_records(s),
        mirrors(persist::durable(persist::state_records(s)), s),
{
    let saved = transition::save_snapshot(s);
    lemma_rewritten(s);
    assert(saved.drop_last() =~= seq![saved[0]]);
}

/// A snapshot takes away what it covers and nothing else: every later entry stays
/// where it is, and the log ends where it did.
pub proof fn lemma_snapshot_keeps_later_entries(s: RaftView, data: Seq<u8>)
    requires
        in_place(s),
    ensures
        ({
            let t = transition::snapshot_step(s, data).0;
            &&& forall|i: int| i > s.last_applied ==> #[trigger] t.entry_at(i) == s.entry_at(i)
            &&& s.last_applied <= s.last_log_index() ==> t.last_log_index() == s.last_log_index()
            &&& in_place(t)
        }),
{
    lemma_last_index(s);
    if s.last_applied > s.last_snapshot_index {
        lemma_entries_after(s, s.last_applied);
    }
}

/// A leader's snapshot, too, takes away what it covers and nothing else.
pub proof fn lemma_installing_keeps_later_entries(s: RaftView, me: Me, req: SnapshotView)
    requires
        in_place(s),
        s.last_snapshot_index <= req.last_included_index,
    ensures
        ({
            let t = transition::install(s, me, req);
            &&& forall|i: int|
                i > req.last_included_index ==> #[trigger] t.entry_at(i) == s.entry_at(i)
            &&& req.last_included_index <= s.last_log_index() ==> t.last_log_index()
                == s.last_log_index()
            &&& in_place(t)
        }),
{
    lemma_last_index(s);
    lemma_entries_after(s, req.last_included_index);
}

/// A replica that takes a snapshot goes on with a log file that adds up to its term,
/// its vote and its log.
pub proof fn lemma_snapshot_is_durable(file: Seq<RecordView>, s: RaftView, data: Seq<u8>)
    requires
        in_place(s),
        mirrors(persist::durable(file), s),
    ensures
        ({
            let out = transition::snapshot_step(s, data);
            mirrors(persist::durable(written(file, out.1)), out.0)
        }),
{
    let out = transition::snapshot_step(s, data);
    lemma_snapshot_keeps_later_entries(s, data);
    if s.last_applied > s.last_snapshot_index {
        lemma_saved(file, out.0);
    }
}

proof fn lemma_snapshot_written(
    file: Seq<RecordView>,
    s: RaftView,
    me: Me,
    req: SnapshotView,
    restored: bool,
)
    requires
        in_place(s),
        mirrors(persist::durable(file), s),
    ensures
        lands(file, transition::on_install_snapshot(s, me, req, restored)),
{
    reveal(transition::on_install_snapshot);
    let out = transition::on_install_snapshot(s, me, req, restored);
    let none = Seq::<ActionView>::empty();
    let t = transition::adopt_term(s, req.term);
    lemma_last_index(s);
    if req.term < t.current_term {
        lemma_vote_written(file, s, out.0, none, out.1);
        assert(none + out.1 =~= out.1);
    } else {
        let stepped_down = req.term > s.current_term || s.role == Role::Candidate;
        let u = transition::follow(t);
        let w = out.0;
        let kept = transition::persist_vote_if(stepped_down, w);
        let reply = seq![out.1.last()];
        assert(quiet(reply));
        if transition::offers_news(s, req) && restored {
            let saved = transition::save_snapshot(w);
            lemma_entries_after(u, req.last_included_index);
            lemma_saved(file, w);
            assert(out.1 =~= saved + (kept + reply));
            lemma_written_joined(file, saved, kept + reply);
            lemma_vote_written(persist::state_records(w), w, w, kept, reply);
        } else {
            assert(out.1 =~= kept + reply);
            lemma_vote_written(file, s, w, kept, reply);
        }
    }
}

/// Whatever happens to a replica, its log file goes on to add up to its term, its
/// vote and its log, once what the replica makes durable is written.
pub proof fn lemma_state_is_durable(
    file: Seq<RecordView>,
    s: RaftView,
    me: Me,
    e: EventView,
    timeout: u64,
    restored: bool,
)
    requires
        in_place(s),
        mirrors(persist::durable(file), s),
        is_regular(s, e),
    ensures
        ({
            let out = transition::step(s, me, e, timeout, restored);
            &&& in_place(out.0)
            &&& mirrors(persist::durable(written(file, out.1)), out.0)
        }),
{
    let out = transition::step(s, me, e, timeout, restored);
    let none = Seq::<ActionView>::empty();
    match e {
        EventView::Tick => lemma_tick_written(file, s, me, timeout),
        EventView::RequestVote { req } => {
            reveal(transition::on_request_vote);
            let t = transition::adopt_term(s, req.term);
            let needed = req.term > s.current_term || transition::grants(t, req);
            let kept = transition::persist_vote_if(needed, out.0);
            assert(out.1 =~= kept + seq![out.1.last()]);
            lemma_vote_written(file, s, out.0, kept, seq![out.1.last()]);
        },
        EventView::AppendEntries { req } => lemma_append_written(file, s, req),
        EventView::InstallSnapshot { req } => lemma_snapshot_written(file, s, me, req, restored),
        EventView::RequestVoteResponse { peer, term, resp } => {
            reveal(transition::on_vote_reply);
            lemma_sending_is_quiet(out.0, me, out.0.config.all_nodes());
            if out.0.current_term != s.current_term {
                lemma_vote_written(file, s, out.0, out.1, none);
                assert(out.1 + none =~= out.1);
            } else {
                lemma_vote_written(file, s, out.0, none, out.1);
                assert(none + out.1 =~= out.1);
            }
        },
        EventView::AppendEntriesResponse { peer, term, resp, sent_prev_index, sent_count } => {
            reveal(transition::on_append_reply);
            if out.0.current_term != s.current_term {
                lemma_vote_written(file, s, out.0, out.1, none);
                assert(out.1 + none =~= out.1);
            } else {
                let t = transition::record_match(s, peer, sent_prev_index as int + sent_count as int);
                let c = transition::commit_point(
                    t,
                    me.id,
                    t.commit_index as int,
                    t.last_log_index() as int,
                );
                lemma_applying_is_quiet(
                    transition::unapplied(RaftView { commit_index: c as u64, ..t }),
                );
                assert(quiet(out.1));
                lemma_vote_written(file, s, out.0, none, out.1);
                assert(none + out.1 =~= out.1);
            }
        },
        EventView::InstallSnapshotResponse { peer, term, resp } => {
            reveal(transition::on_snapshot_reply);
            if out.0.current_term != s.current_term {
                lemma_vote_written(file, s, out.0, out.1, none);
                assert(out.1 + none =~= out.1);
            } else {
                lemma_vote_written(file, s, out.0, none, out.1);
                assert(none + out.1 =~= out.1);
            }
        },
        EventView::Propose { data } => {
            reveal(transition::on_propose);
            if s.role == Role::Leader {
                lemma_sending_is_quiet(out.0, me, out.0.config.all_nodes());
                lemma_own_written(
                    file,
                    s,
                    PayloadView::Command(data),
                    out,
                    out.1[1],
                    transition::broadcast(out.0, me),
                );
            } else {
                lemma_vote_written(file, s, out.0, none, out.1);
                assert(none + out.1 =~= out.1);
            }
        },
        EventView::ProposeConfigChange { new_nodes } => {
            reveal(transition::on_config_change);
            match s.config {
                ConfigView::Stable(old) if s.role == Role::Leader => {
                    lemma_sending_is_quiet(out.0, me, out.0.config.all_nodes());
                    lemma_own_written(
                        file,
                        s,
                        PayloadView::ConfigJoint { old, new: new_nodes },
                        out,
                        out.1[1],
                        transition::broadcast(out.0, me),
                    );
                },
                _ => {
                    lemma_vote_written(file, s, out.0, none, out.1);
                    assert(none + out.1 =~= out.1);
                },
            }
        },
        EventView::ProposeConfigStable { new_nodes } => {
            reveal(transition::on_config_stable);
            if s.role == Role::Leader && !(s.config is Stable) {
                lemma_sending_is_quiet(out.0, me, out.0.config.all_nodes());
                lemma_own_written(
                    file,
                    s,
                    PayloadView::ConfigStable(new_nodes),
                    out,
                    out.1[1],
                    transition::broadcast(out.0, me),
                );
            } else {
                lemma_vote_written(file, s, out.0, none, out.1);
                assert(none + out.1 =~= out.1);
            }
        },
        EventView::Shutdown => {
            lemma_vote_written(file, s, out.0, none, out.1);
            assert(none + out.1 =~= out.1);
        },
    }
}

/// A replica that is started from its snapshot and from a log file that mirrors it
/// comes back with the term, the vote and the log that it had, and with nothing
/// applied but what its snapshot covers.
pub proof fn lemma_restart_comes_back(
    file: Seq<RecordView>,
    s: RaftView,
    id: NodeId,
    peers: Seq<NodeId>,
    snapshot: SnapshotImage,
    timeout: u64,
)
    requires
        in_place(s),
        mirrors(persist::durable(file), s),
        s.config == s.active_config(),
        s.last_snapshot_index <= s.last_applied,
        snapshot.index == s.last_snapshot_index,
        snapshot.term == s.last_snapshot_term,
        snapshot.config == s.snapshot_config,
    ensures
        ({
            let t = node::restarted(id, peers, snapshot, persist::durable(file), timeout);
            cluster::comes_back(s, t) && t.last_applied == s.last_snapshot_index
        }),
{
    let d = persist::durable(file);
    lemma_last_index(s);
    lemma_recovered_log(d, s, s.log.len());
    assert(s.log.take(s.log.len() as int) =~= s.log);
}

} // verus!
