//! What reads give, whatever was done to the engine in between.
use crate::bytes;
use crate::storage::compaction;
use crate::storage::compaction_laws;
use crate::storage::key;
use crate::storage::key::Version;
use crate::storage::lsm_model;
use crate::storage::lsm_model::{LsmView, Slot};
use crate::storage::reader;
use crate::storage::reader::TableView;
use crate::storage::scan;
use crate::storage::sstable;
use crate::storage::timestamp;
use crate::storage::timestamp::HlcTimestamp;
use crate::storage::wal;
use crate::storage::wal::RecordView;
use vstd::prelude::*;

verus! {

/// The first that found something.
pub open spec fn either(a: Option<Option<Seq<u8>>>, b: Option<Option<Seq<u8>>>) -> Option<
    Option<Seq<u8>>,
> {
    match a {
        Some(v) => Some(v),
        None => b,
    }
}

/// Every table agrees with its versions, and holds none twice.
pub open spec fn sound(ts: Seq<Slot>) -> bool {
    forall|i: int|
        0 <= i < ts.len() ==> (#[trigger] ts[i]).table.ok() && reader::distinct_keys(
            ts[i].table.run(),
        )
}

/// Every table agrees with its versions, and does not hold the version of just this
/// key and time twice.
pub open spec fn clear(ts: Seq<Slot>, key: Seq<u8>, as_of: HlcTimestamp) -> bool {
    forall|i: int|
        0 <= i < ts.len() ==> (#[trigger] ts[i]).table.ok() && reader::once(
            ts[i].table.run(),
            key::KeyView { user: key, ts: as_of },
        )
}

/// A level that holds no version twice does not hold a given one twice.
pub proof fn lemma_sound_is_clear(ts: Seq<Slot>, key: Seq<u8>, as_of: HlcTimestamp)
    requires
        sound(ts),
    ensures
        clear(ts, key, as_of),
{
}

/// What a read finds in a table.
pub open spec fn seen(s: Slot, key: Seq<u8>, as_of: HlcTimestamp) -> Option<Option<Seq<u8>>> {
    key::visible(s.table.run(), key, as_of)
}

// ----------------------------------------------------------------------
// Reading several runs
// ----------------------------------------------------------------------
proof fn lemma_first_visible_concat(
    a: Seq<Seq<Version>>,
    b: Seq<Seq<Version>>,
    key: Seq<u8>,
    as_of: HlcTimestamp,
)
    ensures
        compaction_laws::first_visible(a + b, key, as_of) == either(
            compaction_laws::first_visible(a, key, as_of),
            compaction_laws::first_visible(b, key, as_of),
        ),
    decreases a.len(),
{
    if a.len() == 0 {
        assert(a + b =~= b);
    } else {
        lemma_first_visible_concat(a.drop_first(), b, key, as_of);
        assert((a + b).drop_first() =~= a.drop_first() + b);
    }
}

proof fn lemma_one(run: Seq<Version>, key: Seq<u8>, as_of: HlcTimestamp)
    ensures
        compaction_laws::first_visible(seq![run], key, as_of) == key::visible(run, key, as_of),
{
    assert(seq![run].drop_first() =~= Seq::empty());
    reveal_with_fuel(compaction_laws::first_visible, 2);
}

/// One more run behind the others.
proof fn lemma_first_visible_push(
    a: Seq<Seq<Version>>,
    run: Seq<Version>,
    key: Seq<u8>,
    as_of: HlcTimestamp,
)
    ensures
        compaction_laws::first_visible(a.push(run), key, as_of) == either(
            compaction_laws::first_visible(a, key, as_of),
            key::visible(run, key, as_of),
        ),
{
    lemma_one(run, key, as_of);
    lemma_first_visible_concat(a, seq![run], key, as_of);
    assert(a + seq![run] =~= a.push(run));
}

/// Runs one behind the other read as the one run that they make up.
proof fn lemma_first_visible_join(pieces: Seq<Seq<Version>>, key: Seq<u8>, as_of: HlcTimestamp)
    ensures
        compaction_laws::first_visible(pieces, key, as_of) == key::visible(
            sstable::join(pieces),
            key,
            as_of,
        ),
    decreases pieces.len(),
{
    if pieces.len() == 0 {
        assert(sstable::join(pieces) =~= Seq::empty());
    } else {
        let front = pieces.drop_last();
        lemma_first_visible_join(front, key, as_of);
        lemma_first_visible_push(front, pieces.last(), key, as_of);
        assert(front.push(pieces.last()) =~= pieces);
        reader::lemma_visible_concat(sstable::join(front), pieces.last(), key, as_of);
    }
}

proof fn lemma_level_reads(ts: Seq<Slot>, key: Seq<u8>, as_of: HlcTimestamp)
    requires
        clear(ts, key, as_of),
    ensures
        lsm_model::lookup_level(ts, key, as_of) == compaction_laws::first_visible(
            lsm_model::slot_runs(ts),
            key,
            as_of,
        ),
    decreases ts.len(),
{
    if ts.len() > 0 {
        reader::lemma_lookup_reads_run(ts[0].table, key, as_of);
        let rest = ts.drop_first();
        assert forall|i: int| 0 <= i < rest.len() implies (#[trigger] rest[i]).table.ok()
            && reader::once(rest[i].table.run(), key::KeyView { user: key, ts: as_of }) by {
            assert(rest[i] == ts[i + 1]);
        }
        lemma_level_reads(rest, key, as_of);
        assert(lsm_model::slot_runs(ts).drop_first() =~= lsm_model::slot_runs(rest));
    }
}

proof fn lemma_levels_read(levels: Seq<Seq<Slot>>, key: Seq<u8>, as_of: HlcTimestamp)
    requires
        forall|i: int| 0 <= i < levels.len() ==> clear(#[trigger] levels[i], key, as_of),
    ensures
        lsm_model::lookup_levels(levels, key, as_of) == compaction_laws::first_visible(
            lsm_model::table_runs(levels),
            key,
            as_of,
        ),
    decreases levels.len(),
{
    if levels.len() > 0 {
        lemma_level_reads(levels[0], key, as_of);
        let rest = levels.drop_first();
        assert forall|i: int| 0 <= i < rest.len() implies clear(#[trigger] rest[i], key, as_of) by {
            assert(rest[i] == levels[i + 1]);
        }
        lemma_levels_read(rest, key, as_of);
        lemma_first_visible_concat(
            lsm_model::slot_runs(levels[0]),
            lsm_model::table_runs(rest),
            key,
            as_of,
        );
    }
}

/// A read gives what the first run that has something of the key has: the recent
/// writes come first, and after them the tables from the top level down. No table
/// holds the version of just that key and time twice.
pub proof fn lemma_get_reads_runs(s: LsmView, key: Seq<u8>, as_of: HlcTimestamp)
    requires
        forall|i: int| 0 <= i < s.levels.len() ==> clear(#[trigger] s.levels[i], key, as_of),
    ensures
        s.get(key, as_of) == compaction_laws::read(
            compaction_laws::first_visible(s.runs(), key, as_of),
        ),
{
    lemma_levels_read(s.levels, key, as_of);
    lemma_one(s.active, key, as_of);
    lemma_first_visible_concat(
        seq![s.active],
        lsm_model::table_runs(s.levels),
        key,
        as_of,
    );
}

// ----------------------------------------------------------------------
// Writing
// ----------------------------------------------------------------------
/// A read at or after the time of a write gives what was written, where no newer
/// version of the key was written before; all other reads give what they gave.
pub proof fn lemma_write_is_read(s: LsmView, r: RecordView, key: Seq<u8>, as_of: HlcTimestamp)
    requires
        key::sorted(s.active),
        forall|i: int|
            0 <= i < s.active.len() && (#[trigger] s.active[i]).key.user == r.key
                ==> timestamp::ts_le(s.active[i].key.ts, r.ts),
    ensures
        s.written(r).get(key, as_of) == if key == r.key && timestamp::ts_le(r.ts, as_of) {
            if r.is_delete {
                None
            } else {
                Some(r.value)
            }
        } else {
            s.get(key, as_of)
        },
{
    let value = if r.is_delete {
        None
    } else {
        Some(r.value)
    };
    let v = Version { key: key::KeyView { user: r.key, ts: r.ts }, value };
    key::lemma_write_then_read(s.active, v, key, as_of);
}

/// The engine after these writes, before it puts any of them away in a table.
pub open spec fn wrote(s: LsmView, rs: Seq<RecordView>) -> LsmView
    decreases rs.len(),
{
    if rs.len() == 0 {
        s
    } else {
        wrote(s, rs.drop_last()).written(rs.last())
    }
}

/// None of the recent writes of the key is later than `ts`.
pub open spec fn none_later(s: LsmView, key: Seq<u8>, ts: HlcTimestamp) -> bool {
    forall|i: int|
        0 <= i < s.active.len() && (#[trigger] s.active[i]).key.user == key
            ==> timestamp::ts_le(s.active[i].key.ts, ts)
}

/// A write that is not later, or of another key, leaves none later.
pub proof fn lemma_written_apart(s: LsmView, r: RecordView, key: Seq<u8>, ts: HlcTimestamp)
    requires
        key::sorted(s.active),
        none_later(s, key, ts),
        key != r.key || timestamp::ts_le(r.ts, ts),
    ensures
        key::sorted(s.written(r).active),
        none_later(s.written(r), key, ts),
{
    let value = if r.is_delete {
        None
    } else {
        Some(r.value)
    };
    let v = Version { key: key::KeyView { user: r.key, ts: r.ts }, value };
    let p = key::place(s.active, v.key);
    key::lemma_insert_sorted(s.active, v);
    key::lemma_place(s.active, v.key);
    let after = s.written(r).active;
    assert(after == s.active.insert(p, v));
    assert forall|i: int| 0 <= i < after.len() && (#[trigger] after[i]).key.user == key implies timestamp::ts_le(
        after[i].key.ts,
        ts,
    ) by {
        if i < p {
            assert(after[i] == s.active[i]);
        } else if i > p {
            assert(after[i] == s.active[i - 1]);
        }
    }
}

/// A write is of this version.
pub open spec fn is_of(r: RecordView, k: key::KeyView) -> bool {
    r.key == k.user && r.ts == k.ts
}

/// The run does not hold the version.
pub open spec fn absent(run: Seq<Version>, k: key::KeyView) -> bool {
    forall|i: int| 0 <= i < run.len() ==> (#[trigger] run[i]).key != k
}

/// Among the recent writes and the new ones the version is not there twice.
pub open spec fn told_apart(s: LsmView, rs: Seq<RecordView>, key: Seq<u8>, as_of: HlcTimestamp) -> bool {
    let k = key::KeyView { user: key, ts: as_of };
    &&& reader::once(s.active, k)
    &&& forall|i: int| 0 <= i < rs.len() && is_of(#[trigger] rs[i], k) ==> absent(s.active, k)
    &&& forall|i: int, j: int|
        0 <= i < j < rs.len() ==> !(is_of(#[trigger] rs[i], k) && is_of(#[trigger] rs[j], k))
}

/// What a write adds to the recent ones.
proof fn lemma_written_versions(s: LsmView, r: RecordView, k: key::KeyView)
    ensures
        reader::once(s.active, k) && (is_of(r, k) ==> absent(s.active, k)) ==> reader::once(
            s.written(r).active,
            k,
        ),
        absent(s.active, k) && !is_of(r, k) ==> absent(s.written(r).active, k),
{
    let value = if r.is_delete {
        None
    } else {
        Some(r.value)
    };
    let v = Version { key: key::KeyView { user: r.key, ts: r.ts }, value };
    let p = key::place(s.active, v.key);
    key::lemma_place(s.active, v.key);
    let after = s.written(r).active;
    assert(after == s.active.insert(p, v));
    assert forall|i: int| 0 <= i < after.len() implies (#[trigger] after[i]) == if i < p {
        s.active[i]
    } else if i == p {
        v
    } else {
        s.active[i - 1]
    } by {}
    if reader::once(s.active, k) && (is_of(r, k) ==> absent(s.active, k)) {
        assert forall|i: int, j: int| 0 <= i < j < after.len() implies !((#[trigger] after[i]).key
            == k && (#[trigger] after[j]).key == k) by {
            let a = if i < p {
                i
            } else {
                i - 1
            };
            let b = if j < p {
                j
            } else {
                j - 1
            };
            if i != p && j != p {
                assert(!(s.active[a].key == k && s.active[b].key == k));
            } else if i == p {
                assert(after[j] == s.active[b]);
            } else {
                assert(after[i] == s.active[a]);
            }
        }
    }
}

/// One write, also where the recent writes then become a table: it is read at and
/// after its time, where no newer version of the key was written before; all other
/// reads give what they gave.
pub proof fn lemma_after_write_is_read<F: Fn(usize) -> (usize, usize)>(
    f: F,
    s: LsmView,
    r: RecordView,
    t: LsmView,
    key: Seq<u8>,
    as_of: HlcTimestamp,
)
    requires
        lsm_model::after_write(f, s, r, t),
        key::sorted(s.active),
        s.levels.len() > 0,
        none_later(s, r.key, r.ts),
        reader::once(s.written(r).active, key::KeyView { user: key, ts: as_of }),
    ensures
        t.get(key, as_of) == if key == r.key && timestamp::ts_le(r.ts, as_of) {
            if r.is_delete {
                None
            } else {
                Some(r.value)
            }
        } else {
            s.get(key, as_of)
        },
{
    let w = s.written(r);
    lemma_write_is_read(s, r, key, as_of);
    if t != w {
        let made = choose|made: TableView|
            #![trigger w.flushed(made)]
            lsm_model::built(f, made, w.active) && t == w.flushed(made);
        lemma_flush_keeps_reads(w, made, key, as_of);
    }
}

/// After a write the recent ones are there with the write, or have become a table.
proof fn lemma_after_write_active<F: Fn(usize) -> (usize, usize)>(
    f: F,
    s: LsmView,
    r: RecordView,
    t: LsmView,
)
    requires
        lsm_model::after_write(f, s, r, t),
        s.levels.len() > 0,
    ensures
        t.active == s.written(r).active || t.active == Seq::<Version>::empty(),
        t.levels.len() == s.levels.len(),
{
    let w = s.written(r);
    if t != w {
        let made = choose|made: TableView|
            #![trigger w.flushed(made)]
            lsm_model::built(f, made, w.active) && t == w.flushed(made);
        assert(t.active == Seq::<Version>::empty());
    }
}

/// What a write leaves among the recent ones.
pub(crate) proof fn lemma_after_write_recent<F: Fn(usize) -> (usize, usize)>(
    f: F,
    s: LsmView,
    r: RecordView,
    t: LsmView,
    k: key::KeyView,
)
    requires
        lsm_model::after_write(f, s, r, t),
        key::sorted(s.active),
        s.levels.len() > 0,
    ensures
        key::sorted(t.active),
        t.levels.len() == s.levels.len(),
        reader::once(s.active, k) && (is_of(r, k) ==> absent(s.active, k)) ==> reader::once(
            t.active,
            k,
        ),
        absent(s.active, k) && !is_of(r, k) ==> absent(t.active, k),
        none_later(s, k.user, k.ts) && (r.key != k.user || timestamp::ts_le(r.ts, k.ts))
            ==> none_later(t, k.user, k.ts),
{
    lemma_after_write_active(f, s, r, t);
    let v = Version {
        key: key::KeyView { user: r.key, ts: r.ts },
        value: if r.is_delete {
            None
        } else {
            Some(r.value)
        },
    };
    key::lemma_insert_sorted(s.active, v);
    assert(s.written(r).active == s.active.insert(key::place(s.active, v.key), v));
    lemma_written_versions(s, r, k);
    if none_later(s, k.user, k.ts) && (r.key != k.user || timestamp::ts_le(r.ts, k.ts)) {
        lemma_written_apart(s, r, k.user, k.ts);
    }
}

/// None of the writes is of the version.
pub open spec fn none_of(rs: Seq<RecordView>, k: key::KeyView) -> bool {
    forall|i: int| 0 <= i < rs.len() ==> !is_of(#[trigger] rs[i], k)
}

/// The writes of the key are not later than `ts`.
pub open spec fn up_to(rs: Seq<RecordView>, key: Seq<u8>, ts: HlcTimestamp) -> bool {
    forall|i: int|
        0 <= i < rs.len() ==> (#[trigger] rs[i]).key != key || timestamp::ts_le(rs[i].ts, ts)
}

/// What holds of writes holds of all but the last.
proof fn lemma_all_but_last(s: LsmView, rs: Seq<RecordView>, key: Seq<u8>, ts: HlcTimestamp)
    requires
        rs.len() > 0,
    ensures
        ({
            let most = rs.drop_last();
            let r = rs.last();
            let k = key::KeyView { user: key, ts };
            &&& told_apart(s, rs, key, ts) ==> told_apart(s, most, key, ts) && (is_of(r, k)
                ==> none_of(most, k) && absent(s.active, k))
            &&& none_of(rs, k) ==> none_of(most, k) && !is_of(r, k)
            &&& up_to(rs, key, ts) ==> up_to(most, key, ts) && (r.key != key || timestamp::ts_le(
                r.ts,
                ts,
            ))
        }),
{
    let most = rs.drop_last();
    let r = rs[rs.len() - 1];
    let k = key::KeyView { user: key, ts };
    assert forall|i: int| 0 <= i < most.len() implies #[trigger] most[i] == rs[i] by {}
    if told_apart(s, rs, key, ts) && is_of(r, k) {
        assert forall|i: int| 0 <= i < most.len() implies !is_of(#[trigger] most[i], k) by {
            assert(!(is_of(rs[i], k) && is_of(rs[rs.len() - 1], k)));
        }
    }
}

/// What writes leave among the recent ones, also where some of these become tables:
/// they stay in order, a version that is not there twice with the writes is not there
/// twice after them, and writes that are not later leave none later.
pub proof fn lemma_after_writes_recent<F: Fn(usize) -> (usize, usize)>(
    f: F,
    s: LsmView,
    rs: Seq<RecordView>,
    t: LsmView,
    key: Seq<u8>,
    ts: HlcTimestamp,
)
    requires
        lsm_model::after_writes(f, s, rs, t),
        key::sorted(s.active),
        s.levels.len() > 0,
    ensures
        key::sorted(t.active),
        t.levels.len() == s.levels.len(),
        told_apart(s, rs, key, ts) ==> reader::once(t.active, (key::KeyView { user: key, ts })),
        absent(s.active, (key::KeyView { user: key, ts })) && none_of(
            rs,
            (key::KeyView { user: key, ts }),
        ) ==> absent(t.active, (key::KeyView { user: key, ts })),
        none_later(s, key, ts) && up_to(rs, key, ts) ==> none_later(t, key, ts),
    decreases rs.len(),
{
    if rs.len() > 0 {
        let most = rs.drop_last();
        let r = rs.last();
        let k = key::KeyView { user: key, ts };
        let mid = choose|mid: LsmView|
            lsm_model::after_writes(f, s, most, mid) && #[trigger] lsm_model::after_write(
                f,
                mid,
                r,
                t,
            );
        lemma_after_writes_recent(f, s, most, mid, key, ts);
        lemma_all_but_last(s, rs, key, ts);
        lemma_after_write_recent(f, mid, r, t, k);
    }
}

/// The read is of one of the writes, at or after its time.
pub open spec fn reaches(r: RecordView, key: Seq<u8>, as_of: HlcTimestamp) -> bool {
    r.key == key && timestamp::ts_le(r.ts, as_of)
}

/// Writes of different keys, also where recent writes become tables between them, are
/// read at and after their times, where no newer versions of these keys were written
/// before; all other reads give what they gave. The version of just the key and time
/// of the read is not there twice.
pub proof fn lemma_after_writes_are_read<F: Fn(usize) -> (usize, usize)>(
    f: F,
    s: LsmView,
    rs: Seq<RecordView>,
    t: LsmView,
    key: Seq<u8>,
    as_of: HlcTimestamp,
)
    requires
        lsm_model::after_writes(f, s, rs, t),
        key::sorted(s.active),
        s.levels.len() > 0,
        forall|i: int| 0 <= i < rs.len() ==> none_later(s, (#[trigger] rs[i]).key, rs[i].ts),
        forall|i: int, j: int|
            0 <= i < j < rs.len() ==> (#[trigger] rs[i]).key != (#[trigger] rs[j]).key,
        told_apart(s, rs, key, as_of),
    ensures
        forall|i: int|
            0 <= i < rs.len() && reaches(#[trigger] rs[i], key, as_of) ==> t.get(key, as_of)
                == if rs[i].is_delete {
                None
            } else {
                Some(rs[i].value)
            },
        (forall|i: int| 0 <= i < rs.len() ==> !reaches(#[trigger] rs[i], key, as_of)) ==> t.get(
            key,
            as_of,
        ) == s.get(key, as_of),
    decreases rs.len(),
{
    if rs.len() > 0 {
        let most = rs.drop_last();
        let r = rs[rs.len() - 1];
        let k = key::KeyView { user: key, ts: as_of };
        let mid = choose|mid: LsmView|
            lsm_model::after_writes(f, s, most, mid) && #[trigger] lsm_model::after_write(
                f,
                mid,
                r,
                t,
            );
        assert forall|i: int| 0 <= i < most.len() implies none_later(
            s,
            (#[trigger] most[i]).key,
            most[i].ts,
        ) && most[i].key != r.key by {
            assert(most[i] == rs[i]);
        }
        lemma_all_but_last(s, rs, key, as_of);
        lemma_after_writes_are_read(f, s, most, mid, key, as_of);
        lemma_after_writes_recent(f, s, most, mid, key, as_of);
        lemma_after_writes_recent(f, s, most, mid, r.key, r.ts);
        assert(up_to(most, r.key, r.ts));
        assert(none_later(s, rs[rs.len() - 1].key, rs[rs.len() - 1].ts));
        lemma_written_versions(mid, r, k);
        lemma_after_write_is_read(f, mid, r, t, key, as_of);
        assert forall|i: int| 0 <= i < rs.len() && reaches(#[trigger] rs[i], key, as_of) implies t.get(
            key,
            as_of,
        ) == if rs[i].is_delete {
            None
        } else {
            Some(rs[i].value)
        } by {
            if i < most.len() {
                assert(most[i] == rs[i]);
            }
        }
        if forall|i: int| 0 <= i < rs.len() ==> !reaches(#[trigger] rs[i], key, as_of) {
            assert forall|i: int| 0 <= i < most.len() implies !reaches(
                #[trigger] most[i],
                key,
                as_of,
            ) by {
                assert(most[i] == rs[i]);
            }
            assert(!reaches(rs[rs.len() - 1], key, as_of));
        }
    }
}

/// Deletions of different keys are read: they leave the recent writes where they are.
/// All other keys read as they did.
pub proof fn lemma_deletions_are_read<F: Fn(usize) -> (usize, usize)>(
    f: F,
    s: LsmView,
    rs: Seq<RecordView>,
    t: LsmView,
    key: Seq<u8>,
    as_of: HlcTimestamp,
)
    requires
        lsm_model::after_writes(f, s, rs, t),
        s.levels.len() > 0,
        key::sorted(s.active),
        forall|i: int|
            0 <= i < rs.len() ==> (#[trigger] rs[i]).is_delete && none_later(s, rs[i].key, rs[i].ts),
        forall|i: int, j: int|
            0 <= i < j < rs.len() ==> (#[trigger] rs[i]).key != (#[trigger] rs[j]).key,
    ensures
        (exists|i: int| 0 <= i < rs.len() && reaches(#[trigger] rs[i], key, as_of)) ==> t.get(
            key,
            as_of,
        ) is None,
        (forall|i: int| 0 <= i < rs.len() ==> !reaches(#[trigger] rs[i], key, as_of)) ==> t.get(
            key,
            as_of,
        ) == s.get(key, as_of),
    decreases rs.len(),
{
    if rs.len() > 0 {
        let most = rs.drop_last();
        let r = rs[rs.len() - 1];
        let mid = choose|mid: LsmView|
            lsm_model::after_writes(f, s, most, mid) && #[trigger] lsm_model::after_write(
                f,
                mid,
                r,
                t,
            );
        assert forall|i: int| 0 <= i < most.len() implies (#[trigger] most[i]).is_delete
            && none_later(s, most[i].key, most[i].ts) && most[i].key != r.key by {
            assert(most[i] == rs[i]);
        }
        lemma_deletions_are_read(f, s, most, mid, key, as_of);
        lemma_after_writes_recent(f, s, most, mid, r.key, r.ts);
        assert(up_to(most, r.key, r.ts));
        lemma_write_is_read(mid, r, key, as_of);
        assert(r.is_delete);
        if exists|i: int| 0 <= i < rs.len() && reaches(#[trigger] rs[i], key, as_of) {
            let i = choose|i: int| 0 <= i < rs.len() && reaches(#[trigger] rs[i], key, as_of);
            if i < most.len() {
                assert(reaches(most[i], key, as_of));
            }
        } else {
            assert forall|i: int| 0 <= i < most.len() implies !reaches(
                #[trigger] most[i],
                key,
                as_of,
            ) by {
                assert(most[i] == rs[i]);
            }
            assert(!reaches(rs[rs.len() - 1], key, as_of));
        }
    }
}

/// Reads give the same after the recent writes have become a table, where the version
/// of just that key and time is not among them twice.
pub proof fn lemma_flush_keeps_reads(s: LsmView, t: TableView, key: Seq<u8>, as_of: HlcTimestamp)
    requires
        s.levels.len() > 0,
        reader::once(s.active, key::KeyView { user: key, ts: as_of }),
        t.ok(),
        t.run() == s.active,
    ensures
        s.flushed(t).get(key, as_of) == s.get(key, as_of),
{
    let done = s.flushed(t);
    reader::lemma_lookup_reads_run(t, key, as_of);
    key::lemma_first_match(done.active, key, as_of);
    let top = done.levels[0];
    assert(top.drop_first() =~= s.levels[0]);
    assert(done.levels.drop_first() =~= s.levels.drop_first());
}

// ----------------------------------------------------------------------
// Recovery
// ----------------------------------------------------------------------
/// What is left of an engine that is closed: its tables.
pub open spec fn bare(s: LsmView) -> LsmView {
    LsmView {
        dir: s.dir,
        active: Seq::empty(),
        active_bytes: 0,
        levels: s.levels,
        next_file_id: s.next_file_id,
        watermark: HlcTimestamp { physical: 0, logical: 0 },
        max_memtable_size: s.max_memtable_size,
        pending: Seq::empty(),
    }
}

/// The engine as it is opened again over its tables, frozen logs with their paths, and
/// a log.
pub open spec fn reopened(
    s: LsmView,
    logs: Seq<(Seq<u8>, Seq<u8>)>,
    log: Seq<u8>,
    made: Seq<TableView>,
) -> LsmView {
    bare(s).recovered(logs, log, made)
}

/// Writes on an engine without recent ones leave the versions that their log does.
pub(crate) proof fn lemma_wrote_is_replayed(s: LsmView, rs: Seq<RecordView>)
    requires
        s.active.len() == 0,
    ensures
        wrote(s, rs).active == lsm_model::replayed(rs),
        wrote(s, rs).levels == s.levels,
        wrote(s, rs).dir == s.dir,
        wrote(s, rs).next_file_id == s.next_file_id,
    decreases rs.len(),
{
    if rs.len() > 0 {
        lemma_wrote_is_replayed(s, rs.drop_last());
    } else {
        assert(s.active =~= Seq::empty());
    }
}

/// No version is written twice.
pub open spec fn writes_differ(rs: Seq<RecordView>) -> bool {
    forall|i: int, j: int|
        0 <= i < j < rs.len() ==> (#[trigger] rs[i]).key != (#[trigger] rs[j]).key || rs[i].ts
            != rs[j].ts
}

/// What the log of different versions leaves holds no version twice, and only
/// versions that were logged.
pub(crate) proof fn lemma_replayed_differ(rs: Seq<RecordView>)
    requires
        writes_differ(rs),
    ensures
        reader::distinct_keys(lsm_model::replayed(rs)),
        forall|p: int|
            0 <= p < lsm_model::replayed(rs).len() ==> exists|i: int|
                0 <= i < rs.len() && (#[trigger] rs[i]).key == (
                #[trigger] lsm_model::replayed(rs)[p]).key.user && rs[i].ts
                    == lsm_model::replayed(rs)[p].key.ts,
    decreases rs.len(),
{
    if rs.len() > 0 {
        let front = rs.drop_last();
        let r = rs[rs.len() - 1];
        assert forall|i: int, j: int| 0 <= i < j < front.len() implies (#[trigger] front[i]).key
            != (#[trigger] front[j]).key || front[i].ts != front[j].ts by {
            assert(front[i] == rs[i] && front[j] == rs[j]);
        }
        lemma_replayed_differ(front);
        let before = lsm_model::replayed(front);
        let after = lsm_model::replayed(rs);
        let k = key::KeyView { user: r.key, ts: r.ts };
        let p = key::place(before, k);
        key::lemma_place(before, k);
        assert forall|q: int| 0 <= q < before.len() implies (#[trigger] before[q]).key != k by {
            let i = choose|i: int|
                0 <= i < front.len() && (#[trigger] front[i]).key == before[q].key.user
                    && front[i].ts == before[q].key.ts;
            assert(front[i] == rs[i]);
        }
        assert(after[p].key == k);
        assert forall|q: int| 0 <= q < after.len() implies exists|i: int|
            0 <= i < rs.len() && (#[trigger] rs[i]).key == (#[trigger] after[q]).key.user
                && rs[i].ts == after[q].key.ts by {
            if q == p {
                assert(rs[rs.len() - 1].key == after[q].key.user);
            } else {
                let o = if q < p {
                    q
                } else {
                    q - 1
                };
                assert(after[q] == before[o]);
                let i = choose|i: int|
                    0 <= i < front.len() && (#[trigger] front[i]).key == before[o].key.user
                        && front[i].ts == before[o].key.ts;
                assert(front[i] == rs[i]);
            }
        }
        assert forall|a: int, b: int| 0 <= a < b < after.len() implies after[a].key
            != after[b].key by {
            if a < p {
                assert(after[a] == before[a]);
            } else if a > p {
                assert(after[a] == before[a - 1]);
            }
            if b < p {
                assert(after[b] == before[b]);
            } else if b > p {
                assert(after[b] == before[b - 1]);
            }
        }
    }
}

/// A crash loses no write that is whole in the log: an engine that is opened again
/// over its tables and its log, cut anywhere, reads as it did after the last of them,
/// as if the others had never been. No version was written twice.
pub proof fn lemma_crash_loses_nothing<F: Fn(usize) -> (usize, usize)>(
    f: F,
    s: LsmView,
    rs: Seq<RecordView>,
    cut: nat,
    made: Seq<TableView>,
    key: Seq<u8>,
    as_of: HlcTimestamp,
)
    requires
        s.active.len() == 0,
        s.levels.len() > 0,
        forall|i: int| 0 <= i < rs.len() ==> wal::fits(#[trigger] rs[i]),
        writes_differ(rs),
        cut <= wal::log_bytes(rs).len(),
        lsm_model::made_of(f, Seq::empty(), wal::log_bytes(rs).take(cut as int), made),
    ensures
        reopened(s, Seq::empty(), wal::log_bytes(rs).take(cut as int), made).get(key, as_of)
            == wrote(s, rs.take(wal::whole_before(rs, cut as int))).get(key, as_of),
{
    let log = wal::log_bytes(rs).take(cut as int);
    let n = wal::whole_before(rs, cut as int);
    wal::lemma_recovery_of_cut_log(rs, cut);
    wal::lemma_whole_before(rs, cut as int);
    let kept = rs.take(n);
    assert forall|i: int, j: int| 0 <= i < j < kept.len() implies (#[trigger] kept[i]).key != (
    #[trigger] kept[j]).key || kept[i].ts != kept[j].ts by {
        assert(kept[i] == rs[i] && kept[j] == rs[j]);
    }
    let w = wrote(s, kept);
    let u = reopened(s, Seq::empty(), log, made);
    lemma_wrote_is_replayed(s, kept);
    lemma_replayed_differ(kept);
    if kept.len() > 0 {
        let t = made[0];
        assert(lsm_model::built(f, t, w.active));
        lemma_flush_keeps_reads(w, t, key, as_of);
        assert(u.levels == w.flushed(t).levels);
        assert(u.active == w.flushed(t).active);
    } else {
        assert(u.active =~= w.active);
    }
}

// ----------------------------------------------------------------------
// Scans
// ----------------------------------------------------------------------
/// A scan shows, in the order of their keys and each key once, just the keys in its
/// range that a read finds, with what the read gives. No table holds a version of
/// just that time twice.
pub proof fn lemma_scan_agrees_with_get(
    s: LsmView,
    hits: Seq<(Seq<u8>, Seq<u8>)>,
    start: Seq<u8>,
    end: Seq<u8>,
    as_of: HlcTimestamp,
)
    requires
        forall|i: int, k: Seq<u8>|
            0 <= i < s.levels.len() ==> #[trigger] clear(s.levels[i], k, as_of),
        scan::is_scan(hits, s.runs(), start, end, as_of),
    ensures
        forall|i: int, j: int|
            0 <= i < j < hits.len() ==> bytes::lex_lt(
                (#[trigger] hits[i]).0,
                (#[trigger] hits[j]).0,
            ),
        forall|k: Seq<u8>, v: Seq<u8>| #[trigger]
            hits.contains((k, v)) <==> key::in_bounds(k, start, end) && s.get(k, as_of) == Some(v),
{
    assert forall|k: Seq<u8>, v: Seq<u8>| #[trigger] hits.contains((k, v)) <==> key::in_bounds(
        k,
        start,
        end,
    ) && s.get(k, as_of) == Some(v) by {
        lemma_get_reads_runs(s, k, as_of);
    }
}

// ----------------------------------------------------------------------
// Compaction
// ----------------------------------------------------------------------
/// No version stands in two of the runs.
pub open spec fn separate(runs: Seq<Seq<Version>>) -> bool {
    forall|i: int, j: int, p: int, q: int|
        #![trigger runs[i][p], runs[j][q]]
        0 <= i < j < runs.len() && 0 <= p < runs[i].len() && 0 <= q < runs[j].len()
            ==> runs[i][p].key != runs[j][q].key
}

/// No run holds a version twice.
pub open spec fn all_distinct(runs: Seq<Seq<Version>>) -> bool {
    forall|i: int| 0 <= i < runs.len() ==> reader::distinct_keys(#[trigger] runs[i])
}

/// Some version of the key is in the run.
pub open spec fn has_key(run: Seq<Version>, key: Seq<u8>) -> bool {
    exists|p: int| 0 <= p < run.len() && (#[trigger] run[p]).key.user == key
}

/// Of each key all versions are in one of the tables.
pub open spec fn parted(ts: Seq<Slot>) -> bool {
    forall|i: int, j: int, key: Seq<u8>|
        0 <= i < j < ts.len() && #[trigger] has_key(ts[i].table.run(), key)
            && #[trigger] has_key(ts[j].table.run(), key) ==> false
}

/// No two tables have one path.
pub open spec fn paths_differ(ts: Seq<Slot>) -> bool {
    forall|i: int, j: int|
        0 <= i < j < ts.len() ==> (#[trigger] ts[i]).path != (#[trigger] ts[j]).path
}

/// A level can be compacted without a read noticing: its tables and those below
/// hold no version twice, tables that are searched first hold the newer versions,
/// and below each key is in one table.
pub open spec fn orderly(s: LsmView, level: int) -> bool {
    &&& s.levels.len() == 7
    &&& sound(s.levels[level])
    &&& sound(s.levels[level + 1])
    &&& parted(s.levels[level + 1])
    &&& paths_differ(s.levels[level + 1])
    &&& compaction_laws::newest_first(lsm_model::slot_runs(s.merged_tables(level)))
    &&& separate(lsm_model::slot_runs(s.merged_tables(level)))
}

proof fn lemma_advance_separate(runs: Seq<Seq<Version>>, i: int)
    requires
        0 <= i < runs.len(),
        runs[i].len() > 0,
        separate(runs),
        all_distinct(runs),
    ensures
        separate(compaction::advance(runs, i)),
        all_distinct(compaction::advance(runs, i)),
{
    let out = compaction::advance(runs, i);
    assert forall|a: int, b: int, p: int, q: int|
        #![trigger out[a][p], out[b][q]]
        0 <= a < b < out.len() && 0 <= p < out[a].len() && 0 <= q < out[b].len() implies out[a][p].key
        != out[b][q].key by {
        let p2 = if a == i {
            p + 1
        } else {
            p
        };
        let q2 = if b == i {
            q + 1
        } else {
            q
        };
        assert(out[a][p] == runs[a][p2]);
        assert(out[b][q] == runs[b][q2]);
    }
    assert forall|j: int| 0 <= j < out.len() implies reader::distinct_keys(#[trigger] out[j]) by {
        assert(reader::distinct_keys(runs[j]));
        if j == i {
            assert forall|p: int, q: int| 0 <= p < q < out[j].len() implies out[j][p].key
                != out[j][q].key by {
                assert(out[j][p] == runs[i][p + 1]);
                assert(out[j][q] == runs[i][q + 1]);
            }
        }
    }
}

/// Each version of a merge is a version of one of the runs.
proof fn lemma_merge_from(runs: Seq<Seq<Version>>, x: int)
    requires
        0 <= x < compaction::merge(runs).len(),
    ensures
        exists|i: int, p: int|
            0 <= i < runs.len() && 0 <= p < runs[i].len() && #[trigger] runs[i][p]
                == compaction::merge(runs)[x],
    decreases compaction::total(runs),
{
    compaction::lemma_min_head(runs, runs.len() as int);
    match compaction::min_head(runs, runs.len() as int) {
        None => {},
        Some(i) => {
            let rest = compaction::advance(runs, i);
            let m = compaction::merge(runs);
            assert(m == seq![runs[i][0]] + compaction::merge(rest));
            if x == 0 {
                assert(runs[i][0] == m[x]);
            } else {
                compaction::lemma_total_advance(runs, i);
                lemma_merge_from(rest, x - 1);
                let (j, p) = choose|j: int, p: int|
                    0 <= j < rest.len() && 0 <= p < rest[j].len() && #[trigger] rest[j][p]
                        == compaction::merge(rest)[x - 1];
                if j == i {
                    assert(runs[i][p + 1] == m[x]);
                } else {
                    assert(runs[j][p] == m[x]);
                }
            }
        },
    }
}

/// A merge holds no version twice.
proof fn lemma_merge_distinct(runs: Seq<Seq<Version>>)
    requires
        separate(runs),
        all_distinct(runs),
    ensures
        reader::distinct_keys(compaction::merge(runs)),
    decreases compaction::total(runs),
{
    compaction::lemma_min_head(runs, runs.len() as int);
    match compaction::min_head(runs, runs.len() as int) {
        None => {},
        Some(i) => {
            let rest = compaction::advance(runs, i);
            let m = compaction::merge(runs);
            let tail = compaction::merge(rest);
            assert(m == seq![runs[i][0]] + tail);
            compaction::lemma_total_advance(runs, i);
            lemma_advance_separate(runs, i);
            lemma_merge_distinct(rest);
            assert forall|a: int, b: int| 0 <= a < b < m.len() implies m[a].key != m[b].key by {
                assert(m[b] == tail[b - 1]);
                if a == 0 {
                    lemma_merge_from(rest, b - 1);
                    let (j, p) = choose|j: int, p: int|
                        0 <= j < rest.len() && 0 <= p < rest[j].len() && #[trigger] rest[j][p]
                            == tail[b - 1];
                    if j == i {
                        assert(reader::distinct_keys(runs[i]));
                        assert(rest[j][p] == runs[i][p + 1]);
                        assert(runs[i][0].key != runs[i][p + 1].key);
                    } else {
                        assert(rest[j][p] == runs[j][p]);
                        if j < i {
                            assert(runs[j][p].key != runs[i][0].key);
                        } else {
                            assert(runs[i][0].key != runs[j][p].key);
                        }
                    }
                } else {
                    assert(m[a] == tail[a - 1]);
                }
            }
        },
    }
}

proof fn lemma_survivors_from(
    run: Seq<Version>,
    n: int,
    watermark: HlcTimestamp,
    last: bool,
    x: int,
)
    requires
        0 <= n <= run.len(),
        0 <= x < compaction::survivors(run, n, watermark, last).len(),
    ensures
        exists|i: int|
            0 <= i < n && #[trigger] run[i] == compaction::survivors(run, n, watermark, last)[x],
    decreases n,
{
    if n > 0 {
        let front = compaction::survivors(run, n - 1, watermark, last);
        let all = compaction::survivors(run, n, watermark, last);
        if x < front.len() {
            lemma_survivors_from(run, n - 1, watermark, last, x);
            assert(all[x] == front[x]);
        } else {
            assert(run[n - 1] == all[x]);
        }
    }
}

proof fn lemma_survivors_distinct(run: Seq<Version>, n: int, watermark: HlcTimestamp, last: bool)
    requires
        0 <= n <= run.len(),
        reader::distinct_keys(run),
    ensures
        reader::distinct_keys(compaction::survivors(run, n, watermark, last)),
    decreases n,
{
    if n > 0 {
        lemma_survivors_distinct(run, n - 1, watermark, last);
        let front = compaction::survivors(run, n - 1, watermark, last);
        let all = compaction::survivors(run, n, watermark, last);
        assert forall|a: int, b: int| 0 <= a < b < all.len() implies all[a].key != all[b].key by {
            if b == front.len() {
                lemma_survivors_from(run, n - 1, watermark, last, a);
                let i = choose|i: int| 0 <= i < n - 1 && #[trigger] run[i] == front[a];
                assert(run[i].key != run[n - 1].key);
            }
        }
    }
}

/// Where a version of a piece stands in what the pieces make up.
proof fn lemma_join_at(pieces: Seq<Seq<Version>>, i: int, p: int) -> (q: int)
    requires
        0 <= i < pieces.len(),
        0 <= p < pieces[i].len(),
    ensures
        0 <= q < sstable::join(pieces).len(),
        sstable::join(pieces)[q] == pieces[i][p],
        q == sstable::join(pieces.take(i)).len() + p,
    decreases pieces.len(),
{
    let front = pieces.drop_last();
    if i == pieces.len() - 1 {
        assert(pieces.take(i) =~= front);
        sstable::join(front).len() + p
    } else {
        let q = lemma_join_at(front, i, p);
        assert(front.take(i) =~= pieces.take(i));
        q
    }
}

proof fn lemma_join_grows(pieces: Seq<Seq<Version>>, i: int, j: int)
    requires
        0 <= i <= j <= pieces.len(),
    ensures
        sstable::join(pieces.take(i)).len() <= sstable::join(pieces.take(j)).len(),
        i < j ==> sstable::join(pieces.take(i)).len() + pieces[i].len() <= sstable::join(
            pieces.take(j),
        ).len(),
    decreases j - i,
{
    if i < j {
        lemma_join_grows(pieces, i, j - 1);
        assert(pieces.take(j).drop_last() =~= pieces.take(j - 1));
        if i == j - 1 {
            assert(pieces.take(j).last() == pieces[i]);
        }
    }
}

/// Of pieces of a sorted run the later ones hold nothing that comes before what is
/// in the earlier ones.
proof fn lemma_pieces_ascend(pieces: Seq<Seq<Version>>, i: int, p: int, j: int, q: int)
    requires
        key::sorted(sstable::join(pieces)),
        0 <= i < j < pieces.len(),
        0 <= p < pieces[i].len(),
        0 <= q < pieces[j].len(),
    ensures
        !key::key_lt(pieces[j][q].key, pieces[i][p].key),
{
    let a = lemma_join_at(pieces, i, p);
    let b = lemma_join_at(pieces, j, q);
    lemma_join_grows(pieces, i, j);
    assert(a < b);
}

proof fn lemma_pieces_distinct(pieces: Seq<Seq<Version>>)
    requires
        reader::distinct_keys(sstable::join(pieces)),
    ensures
        all_distinct(pieces),
{
    assert forall|i: int| 0 <= i < pieces.len() implies reader::distinct_keys(
        #[trigger] pieces[i],
    ) by {
        assert forall|p: int, q: int| 0 <= p < q < pieces[i].len() implies pieces[i][p].key
            != pieces[i][q].key by {
            let a = lemma_join_at(pieces, i, p);
            let b = lemma_join_at(pieces, i, q);
            assert(sstable::join(pieces)[a].key != sstable::join(pieces)[b].key);
        }
    }
}

/// A run without the key shows nothing of it.
proof fn lemma_not_seen(run: Seq<Version>, key: Seq<u8>, as_of: HlcTimestamp)
    requires
        !has_key(run, key),
    ensures
        key::visible(run, key, as_of) is None,
{
    key::lemma_first_match(run, key, as_of);
    let f = key::first_match(run, key, as_of);
    if f < run.len() {
        assert(run[f].key.user == key);
    }
}

/// Only tables that show something matter.
proof fn lemma_filter_reads(
    ts: Seq<Slot>,
    pick: spec_fn(Slot) -> bool,
    key: Seq<u8>,
    as_of: HlcTimestamp,
)
    requires
        forall|i: int|
            0 <= i < ts.len() && !pick(#[trigger] ts[i]) ==> seen(ts[i], key, as_of) is None,
    ensures
        compaction_laws::first_visible(lsm_model::slot_runs(ts.filter(pick)), key, as_of)
            == compaction_laws::first_visible(lsm_model::slot_runs(ts), key, as_of),
    decreases ts.len(),
{
    reveal(Seq::filter);
    if ts.len() > 0 {
        let front = ts.drop_last();
        let last = ts.last();
        assert forall|i: int| 0 <= i < front.len() && !pick(#[trigger] front[i]) implies seen(
            front[i],
            key,
            as_of,
        ) is None by {
            assert(front[i] == ts[i]);
        }
        lemma_filter_reads(front, pick, key, as_of);
        assert(last == ts[ts.len() - 1]);
        lemma_first_visible_push(lsm_model::slot_runs(front), last.table.run(), key, as_of);
        assert(lsm_model::slot_runs(front).push(last.table.run()) =~= lsm_model::slot_runs(ts));
        if pick(last) {
            let kept = front.filter(pick);
            lemma_first_visible_push(lsm_model::slot_runs(kept), last.table.run(), key, as_of);
            assert(lsm_model::slot_runs(kept).push(last.table.run()) =~= lsm_model::slot_runs(
                kept.push(last),
            ));
        }
    }
}

/// Tables none of which shows anything show nothing.
proof fn lemma_none_seen(ts: Seq<Slot>, key: Seq<u8>, as_of: HlcTimestamp)
    requires
        forall|i: int| 0 <= i < ts.len() ==> seen(#[trigger] ts[i], key, as_of) is None,
    ensures
        compaction_laws::first_visible(lsm_model::slot_runs(ts), key, as_of) is None,
    decreases ts.len(),
{
    if ts.len() > 0 {
        let front = ts.drop_last();
        assert forall|i: int| 0 <= i < front.len() implies seen(
            #[trigger] front[i],
            key,
            as_of,
        ) is None by {
            assert(front[i] == ts[i]);
        }
        lemma_none_seen(front, key, as_of);
        assert(seen(ts[ts.len() - 1], key, as_of) is None);
        lemma_first_visible_push(lsm_model::slot_runs(front), ts.last().table.run(), key, as_of);
        assert(lsm_model::slot_runs(front).push(ts.last().table.run()) =~= lsm_model::slot_runs(
            ts,
        ));
    }
}

/// The tables that show something of the key stand in the order of their first
/// user keys.
pub open spec fn seen_ascend(ts: Seq<Slot>, key: Seq<u8>, as_of: HlcTimestamp) -> bool {
    forall|i: int, j: int|
        0 <= i < j < ts.len() && seen(#[trigger] ts[i], key, as_of) is Some && seen(
            #[trigger] ts[j],
            key,
            as_of,
        ) is Some ==> !bytes::lex_lt(ts[j].table.min.user, ts[i].table.min.user)
}

/// Tables are in the order of their first user keys.
pub open spec fn mins_ascend(ts: Seq<Slot>) -> bool {
    forall|i: int, j: int|
        0 <= i < j < ts.len() ==> !bytes::lex_lt(
            (#[trigger] ts[j]).table.min.user,
            (#[trigger] ts[i]).table.min.user,
        )
}

proof fn lemma_lex_ge_transitive(a: Seq<u8>, b: Seq<u8>, c: Seq<u8>)
    requires
        !bytes::lex_lt(b, a),
        !bytes::lex_lt(c, b),
    ensures
        !bytes::lex_lt(c, a),
{
    bytes::lemma_lex_total(a, b);
    if bytes::lex_lt(c, a) && a != b {
        bytes::lemma_lex_transitive(c, a, b);
    }
}

/// Where a table is put by its first user key, and what that does to reads.
proof fn lemma_insert_reads(ts: Seq<Slot>, s: Slot, key: Seq<u8>, as_of: HlcTimestamp)
    requires
        mins_ascend(ts),
        seen(s, key, as_of) is Some ==> forall|i: int|
            0 <= i < ts.len() && seen(#[trigger] ts[i], key, as_of) is Some ==> !bytes::lex_lt(
                s.table.min.user,
                ts[i].table.min.user,
            ),
    ensures
        mins_ascend(lsm_model::insert_by_min(ts, s)),
        compaction_laws::first_visible(
            lsm_model::slot_runs(lsm_model::insert_by_min(ts, s)),
            key,
            as_of,
        ) == either(
            compaction_laws::first_visible(lsm_model::slot_runs(ts), key, as_of),
            seen(s, key, as_of),
        ),
        lsm_model::insert_by_min(ts, s).len() == ts.len() + 1,
        forall|i: int|
            0 <= i < lsm_model::insert_by_min(ts, s).len() ==> (#[trigger] lsm_model::insert_by_min(
                ts,
                s,
            )[i]) == s || ts.contains(lsm_model::insert_by_min(ts, s)[i]),
    decreases ts.len(),
{
    let out = lsm_model::insert_by_min(ts, s);
    if ts.len() > 0 && bytes::lex_lt(s.table.min.user, ts.last().table.min.user) {
        let front = ts.drop_last();
        let last = ts.last();
        assert forall|i: int, j: int| 0 <= i < j < front.len() implies !bytes::lex_lt(
            (#[trigger] front[j]).table.min.user,
            (#[trigger] front[i]).table.min.user,
        ) by {
            assert(front[i] == ts[i] && front[j] == ts[j]);
        }
        if seen(s, key, as_of) is Some {
            assert forall|i: int|
                0 <= i < front.len() && seen(#[trigger] front[i], key, as_of) is Some implies !bytes::lex_lt(
                s.table.min.user,
                front[i].table.min.user,
            ) by {
                assert(front[i] == ts[i]);
            }
        }
        lemma_insert_reads(front, s, key, as_of);
        let inner = lsm_model::insert_by_min(front, s);
        assert(last == ts[ts.len() - 1]);
        if seen(s, key, as_of) is Some {
            assert(seen(last, key, as_of) is None);
        }
        lemma_first_visible_push(lsm_model::slot_runs(inner), last.table.run(), key, as_of);
        assert(lsm_model::slot_runs(inner).push(last.table.run()) =~= lsm_model::slot_runs(out));
        lemma_first_visible_push(lsm_model::slot_runs(front), last.table.run(), key, as_of);
        assert(lsm_model::slot_runs(front).push(last.table.run()) =~= lsm_model::slot_runs(ts));
        assert forall|i: int| 0 <= i < out.len() implies (#[trigger] out[i]) == s || ts.contains(
            out[i],
        ) by {
            if i < inner.len() {
                assert(out[i] == inner[i]);
                if out[i] != s {
                    let k = choose|k: int| 0 <= k < front.len() && front[k] == inner[i];
                    assert(ts[k] == out[i]);
                }
            }
        }
        assert forall|i: int, j: int| 0 <= i < j < out.len() implies !bytes::lex_lt(
            (#[trigger] out[j]).table.min.user,
            (#[trigger] out[i]).table.min.user,
        ) by {
            if j < inner.len() {
                assert(inner[i] == out[i] && inner[j] == out[j]);
            } else {
                assert(out[j] == last);
                if inner[i] == s {
                    bytes::lemma_lex_asymmetric(s.table.min.user, last.table.min.user);
                } else {
                    let k = choose|k: int| 0 <= k < front.len() && front[k] == inner[i];
                    assert(ts[k] == out[i]);
                    assert(!bytes::lex_lt(ts[ts.len() - 1].table.min.user, ts[k].table.min.user));
                }
            }
        }
    } else {
        lemma_first_visible_push(lsm_model::slot_runs(ts), s.table.run(), key, as_of);
        assert(lsm_model::slot_runs(ts).push(s.table.run()) =~= lsm_model::slot_runs(out));
        assert forall|i: int| 0 <= i < out.len() implies (#[trigger] out[i]) == s || ts.contains(
            out[i],
        ) by {
            if i < ts.len() {
                assert(ts[i] == out[i]);
            }
        }
        assert forall|i: int, j: int| 0 <= i < j < out.len() implies !bytes::lex_lt(
            (#[trigger] out[j]).table.min.user,
            (#[trigger] out[i]).table.min.user,
        ) by {
            if j == ts.len() {
                let n = ts.len() - 1;
                assert(!bytes::lex_lt(s.table.min.user, ts[n].table.min.user));
                if i < n {
                    assert(!bytes::lex_lt(ts[n].table.min.user, ts[i].table.min.user));
                    lemma_lex_ge_transitive(
                        ts[i].table.min.user,
                        ts[n].table.min.user,
                        s.table.min.user,
                    );
                }
            } else {
                assert(out[i] == ts[i] && out[j] == ts[j]);
            }
        }
    }
}

/// Putting tables in the order of their first user keys changes no read, where
/// those that show something were in that order.
proof fn lemma_sort_reads(ts: Seq<Slot>, key: Seq<u8>, as_of: HlcTimestamp)
    requires
        seen_ascend(ts, key, as_of),
    ensures
        mins_ascend(lsm_model::sorted_by_min(ts)),
        compaction_laws::first_visible(
            lsm_model::slot_runs(lsm_model::sorted_by_min(ts)),
            key,
            as_of,
        ) == compaction_laws::first_visible(lsm_model::slot_runs(ts), key, as_of),
        forall|i: int|
            0 <= i < lsm_model::sorted_by_min(ts).len() ==> ts.contains(
                #[trigger] lsm_model::sorted_by_min(ts)[i],
            ),
    decreases ts.len(),
{
    if ts.len() > 0 {
        let front = ts.drop_last();
        let last = ts.last();
        assert forall|i: int, j: int|
            0 <= i < j < front.len() && seen(#[trigger] front[i], key, as_of) is Some && seen(
                #[trigger] front[j],
                key,
                as_of,
            ) is Some implies !bytes::lex_lt(
            front[j].table.min.user,
            front[i].table.min.user,
        ) by {
            assert(front[i] == ts[i] && front[j] == ts[j]);
        }
        lemma_sort_reads(front, key, as_of);
        let sorted = lsm_model::sorted_by_min(front);
        if seen(last, key, as_of) is Some {
            assert forall|i: int|
                0 <= i < sorted.len() && seen(#[trigger] sorted[i], key, as_of) is Some implies !bytes::lex_lt(
                last.table.min.user,
                sorted[i].table.min.user,
            ) by {
                assert(front.contains(sorted[i]));
                let k = choose|k: int| 0 <= k < front.len() && front[k] == sorted[i];
                assert(ts[k] == sorted[i]);
                assert(last == ts[ts.len() - 1]);
            }
        }
        lemma_insert_reads(sorted, last, key, as_of);
        lemma_first_visible_push(lsm_model::slot_runs(front), last.table.run(), key, as_of);
        assert(lsm_model::slot_runs(front).push(last.table.run()) =~= lsm_model::slot_runs(ts));
        let out = lsm_model::sorted_by_min(ts);
        assert forall|i: int| 0 <= i < out.len() implies ts.contains(#[trigger] out[i]) by {
            if out[i] == last {
                assert(ts[ts.len() - 1] == out[i]);
            } else {
                assert(sorted.contains(out[i]));
                let k = choose|k: int| 0 <= k < sorted.len() && sorted[k] == out[i];
                assert(front.contains(sorted[k]));
                let q = choose|q: int| 0 <= q < front.len() && front[q] == sorted[k];
                assert(ts[q] == out[i]);
            }
        }
    } else {
        assert(lsm_model::sorted_by_min(ts) =~= ts);
    }
}

pub(crate) proof fn lemma_filter_picks(ts: Seq<Slot>, pick: spec_fn(Slot) -> bool, i: int)
    requires
        0 <= i < ts.filter(pick).len(),
    ensures
        pick(ts.filter(pick)[i]),
    decreases ts.len(),
{
    reveal(Seq::filter);
    if ts.len() > 0 {
        let front = ts.drop_last();
        if i < front.filter(pick).len() {
            lemma_filter_picks(front, pick, i);
        }
    }
}

pub(crate) proof fn lemma_filter_has(ts: Seq<Slot>, pick: spec_fn(Slot) -> bool, j: int) -> (i: int)
    requires
        0 <= j < ts.len(),
        pick(ts[j]),
    ensures
        0 <= i < ts.filter(pick).len(),
        ts.filter(pick)[i] == ts[j],
    decreases ts.len(),
{
    reveal(Seq::filter);
    let front = ts.drop_last();
    if j == ts.len() - 1 {
        ts.filter(pick).len() - 1
    } else {
        assert(front[j] == ts[j]);
        lemma_filter_has(front, pick, j)
    }
}

pub(crate) proof fn lemma_filter_order(ts: Seq<Slot>, pick: spec_fn(Slot) -> bool, i: int, j: int) -> (r: (
    int,
    int,
))
    requires
        0 <= i < j < ts.filter(pick).len(),
    ensures
        0 <= r.0 < r.1 < ts.len(),
        ts[r.0] == ts.filter(pick)[i],
        ts[r.1] == ts.filter(pick)[j],
    decreases ts.len(),
{
    reveal(Seq::filter);
    let front = ts.drop_last();
    if j < front.filter(pick).len() {
        lemma_filter_order(front, pick, i, j)
    } else {
        lsm_model::lemma_filter_from(front, pick, i);
        let a = choose|a: int| 0 <= a < front.len() && front[a] == front.filter(pick)[i];
        (a, ts.len() - 1)
    }
}

proof fn lemma_levels_split(levels: Seq<Seq<Slot>>, n: int, key: Seq<u8>, as_of: HlcTimestamp)
    requires
        0 <= n <= levels.len(),
    ensures
        lsm_model::lookup_levels(levels, key, as_of) == either(
            lsm_model::lookup_levels(levels.take(n), key, as_of),
            lsm_model::lookup_levels(levels.skip(n), key, as_of),
        ),
    decreases n,
{
    if n == 0 {
        assert(levels.skip(0) =~= levels);
    } else {
        let rest = levels.drop_first();
        lemma_levels_split(rest, n - 1, key, as_of);
        assert(levels.take(n).drop_first() =~= rest.take(n - 1));
        assert(levels.skip(n) =~= rest.skip(n - 1));
        assert(levels.take(n)[0] == levels[0]);
    }
}

proof fn lemma_least_min(ts: Seq<Slot>, i: int)
    requires
        0 <= i < ts.len(),
    ensures
        !bytes::lex_lt(ts[i].table.min.user, lsm_model::least_min(ts)),
        !bytes::lex_lt(lsm_model::greatest_max(ts), ts[i].table.max.user),
    decreases ts.len(),
{
    if ts.len() == 1 {
        bytes::lemma_lex_irreflexive(ts[0].table.min.user);
        bytes::lemma_lex_irreflexive(ts[0].table.max.user);
    } else {
        let front = ts.drop_last();
        let last = ts.last().table;
        let m = lsm_model::least_min(front);
        let g = lsm_model::greatest_max(front);
        if i < ts.len() - 1 {
            lemma_least_min(front, i);
            assert(front[i] == ts[i]);
            if bytes::lex_lt(last.min.user, m) {
                bytes::lemma_lex_asymmetric(last.min.user, m);
                lemma_lex_ge_transitive(last.min.user, m, ts[i].table.min.user);
            }
            if bytes::lex_lt(g, last.max.user) {
                bytes::lemma_lex_asymmetric(g, last.max.user);
                lemma_lex_ge_transitive(ts[i].table.max.user, g, last.max.user);
            }
        } else {
            bytes::lemma_lex_irreflexive(last.min.user);
            bytes::lemma_lex_irreflexive(last.max.user);
        }
    }
}

/// The keys of a table lie within its range.
proof fn lemma_in_table_range(t: TableView, key: Seq<u8>)
    requires
        t.ok(),
        has_key(t.run(), key),
    ensures
        !bytes::lex_lt(key, t.min.user),
        !bytes::lex_lt(t.max.user, key),
{
    let run = t.run();
    let p = choose|p: int| 0 <= p < run.len() && (#[trigger] run[p]).key.user == key;
    let n = run.len() - 1;
    bytes::lemma_lex_irreflexive(key);
    if p > 0 {
        assert(!key::key_lt(run[p].key, run[0].key));
    }
    if p < n {
        assert(!key::key_lt(run[n].key, run[p].key));
    }
}

/// A table below that has a key which a table of the level has is merged with it.
pub(crate) proof fn lemma_shared_key_overlaps(inputs: Seq<Slot>, s: Slot, i: int, key: Seq<u8>)
    requires
        0 <= i < inputs.len(),
        inputs[i].table.ok(),
        s.table.ok(),
        has_key(inputs[i].table.run(), key),
        has_key(s.table.run(), key),
    ensures
        lsm_model::overlaps(
            s,
            lsm_model::least_min(inputs),
            lsm_model::greatest_max(inputs),
        ),
{
    lemma_least_min(inputs, i);
    lemma_in_table_range(inputs[i].table, key);
    lemma_in_table_range(s.table, key);
    let low = lsm_model::least_min(inputs);
    let high = lsm_model::greatest_max(inputs);
    lemma_lex_ge_transitive(low, inputs[i].table.min.user, key);
    lemma_lex_ge_transitive(low, key, s.table.max.user);
    lemma_lex_ge_transitive(key, inputs[i].table.max.user, high);
    lemma_lex_ge_transitive(s.table.min.user, key, high);
}

/// The tables that a compaction makes, as far as reads go.
pub open spec fn made_from(made: Seq<TableView>, runs: Seq<Seq<Version>>) -> bool {
    &&& made.len() == runs.len()
    &&& forall|i: int|
        0 <= i < made.len() ==> (#[trigger] made[i]).ok() && made[i].run() == runs[i]
}

proof fn lemma_cut_pieces(run: Seq<Version>, max_file_size: usize, i: int)
    requires
        0 <= i < compaction::cut_of(run, max_file_size).all().len(),
    ensures
        compaction::cut_of(run, max_file_size).all()[i].len() > 0,
        i < compaction::cut_of(run, max_file_size).files.len() ==> compaction::cut_of(
            run,
            max_file_size,
        ).files[i].len() > 0,
    decreases run.len(),
{
    let c = compaction::cut_of(run, max_file_size);
    if run.len() > 0 {
        let before = compaction::cut_of(run.drop_last(), max_file_size);
        if i < before.files.len() {
            lemma_cut_pieces(run.drop_last(), max_file_size, i);
            assert(c.files[i] == before.files[i]);
        }
    }
}

/// The merged versions come from the tables that were merged.
pub(crate) proof fn lemma_new_runs_versions(
    runs: Seq<Seq<Version>>,
    watermark: HlcTimestamp,
    last: bool,
    max_file_size: usize,
    i: int,
    p: int,
) -> (at: (int, int))
    requires
        0 <= i < compaction::compacted(runs, watermark, last, max_file_size).len(),
        0 <= p < compaction::compacted(runs, watermark, last, max_file_size)[i].len(),
    ensures
        0 <= at.0 < runs.len(),
        0 <= at.1 < runs[at.0].len(),
        runs[at.0][at.1] == compaction::compacted(runs, watermark, last, max_file_size)[i][p],
{
    let pieces = compaction::compacted(runs, watermark, last, max_file_size);
    let m = compaction::merge(runs);
    let left = compaction::survivors(m, m.len() as int, watermark, last);
    compaction_laws::lemma_cut_joins(left, max_file_size);
    let q = lemma_join_at(pieces, i, p);
    lemma_survivors_from(m, m.len() as int, watermark, last, q);
    let x = choose|x: int| 0 <= x < m.len() && #[trigger] m[x] == left[q];
    lemma_merge_from(runs, x);
    choose|j: int, y: int|
        0 <= j < runs.len() && 0 <= y < runs[j].len() && #[trigger] runs[j][y] == m[x]
}

/// The keys of the new tables are keys of the tables that were merged.
proof fn lemma_new_runs_from(
    runs: Seq<Seq<Version>>,
    watermark: HlcTimestamp,
    last: bool,
    max_file_size: usize,
    key: Seq<u8>,
    i: int,
)
    requires
        0 <= i < compaction::compacted(runs, watermark, last, max_file_size).len(),
        has_key(compaction::compacted(runs, watermark, last, max_file_size)[i], key),
    ensures
        exists|j: int| 0 <= j < runs.len() && has_key(#[trigger] runs[j], key),
{
    let pieces = compaction::compacted(runs, watermark, last, max_file_size);
    let p = choose|p: int| 0 <= p < pieces[i].len() && (#[trigger] pieces[i][p]).key.user == key;
    let at = lemma_new_runs_versions(runs, watermark, last, max_file_size, i, p);
    assert(runs[at.0][at.1].key.user == key);
    assert(has_key(runs[at.0], key));
}

pub(crate) proof fn lemma_new_runs_distinct(
    runs: Seq<Seq<Version>>,
    watermark: HlcTimestamp,
    last: bool,
    max_file_size: usize,
)
    requires
        compaction_laws::all_sorted(runs),
        separate(runs),
        all_distinct(runs),
    ensures
        all_distinct(compaction::compacted(runs, watermark, last, max_file_size)),
        key::sorted(
            sstable::join(compaction::compacted(runs, watermark, last, max_file_size)),
        ),
{
    let m = compaction::merge(runs);
    let left = compaction::survivors(m, m.len() as int, watermark, last);
    compaction_laws::lemma_merge_sorted(runs);
    lemma_merge_distinct(runs);
    lemma_survivors_distinct(m, m.len() as int, watermark, last);
    compaction_laws::lemma_cut_joins(left, max_file_size);
    lemma_pieces_distinct(compaction::compacted(runs, watermark, last, max_file_size));
    lemma_survivors_sorted(m, m.len() as int, watermark, last);
}

proof fn lemma_survivors_sorted(run: Seq<Version>, n: int, watermark: HlcTimestamp, last: bool)
    requires
        0 <= n <= run.len(),
        key::sorted(run),
    ensures
        key::sorted(compaction::survivors(run, n, watermark, last)),
    decreases n,
{
    if n > 0 {
        lemma_survivors_sorted(run, n - 1, watermark, last);
        let front = compaction::survivors(run, n - 1, watermark, last);
        let all = compaction::survivors(run, n, watermark, last);
        assert forall|a: int, b: int| 0 <= a < b < all.len() implies !key::key_lt(
            all[b].key,
            all[a].key,
        ) by {
            if b == front.len() {
                lemma_survivors_from(run, n - 1, watermark, last, a);
                let i = choose|i: int| 0 <= i < n - 1 && #[trigger] run[i] == front[a];
                assert(!key::key_lt(run[n - 1].key, run[i].key));
            }
        }
    }
}

/// The tables below that a compaction leaves are those that it does not merge.
pub(crate) proof fn lemma_stay(below: Seq<Slot>, inputs: Seq<Slot>, j: int)
    requires
        paths_differ(below),
        0 <= j < below.len(),
    ensures
        lsm_model::names_path(lsm_model::overlapping(inputs, below), below[j].path)
            == lsm_model::overlaps(
            below[j],
            lsm_model::least_min(inputs),
            lsm_model::greatest_max(inputs),
        ),
{
    let pick = |s: Slot|
        lsm_model::overlaps(s, lsm_model::least_min(inputs), lsm_model::greatest_max(inputs));
    let over = lsm_model::overlapping(inputs, below);
    assert(over == below.filter(pick));
    if pick(below[j]) {
        let i = lemma_filter_has(below, pick, j);
        assert(over[i].path == below[j].path);
    }
    if lsm_model::names_path(over, below[j].path) {
        let i = choose|i: int| 0 <= i < over.len() && (#[trigger] over[i]).path == below[j].path;
        lsm_model::lemma_filter_from(below, pick, i);
        lemma_filter_picks(below, pick, i);
        let q = choose|q: int| 0 <= q < below.len() && below[q] == below.filter(pick)[i];
        if q < j {
            assert(below[q].path != below[j].path);
        } else if j < q {
            assert(below[j].path != below[q].path);
        }
    }
}

/// What the level below shows after a compaction, for a read that finds nothing in
/// the tables that stay.
proof fn lemma_merged_level_reads(
    stay: Seq<Slot>,
    fresh: Seq<Slot>,
    pieces: Seq<Seq<Version>>,
    key: Seq<u8>,
    as_of: HlcTimestamp,
)
    requires
        lsm_model::slot_runs(fresh) == pieces,
        forall|i: int|
            0 <= i < fresh.len() ==> (#[trigger] fresh[i]).table.ok() && pieces[i].len() > 0,
        key::sorted(sstable::join(pieces)),
        forall|i: int| 0 <= i < stay.len() ==> seen(#[trigger] stay[i], key, as_of) is None,
    ensures
        compaction_laws::first_visible(
            lsm_model::slot_runs(lsm_model::sorted_by_min(stay + fresh)),
            key,
            as_of,
        ) == key::visible(sstable::join(pieces), key, as_of),
{
    let all = stay + fresh;
    assert forall|i: int, j: int|
        0 <= i < j < all.len() && seen(#[trigger] all[i], key, as_of) is Some && seen(
            #[trigger] all[j],
            key,
            as_of,
        ) is Some implies !bytes::lex_lt(all[j].table.min.user, all[i].table.min.user) by {
        if i < stay.len() {
            assert(all[i] == stay[i]);
        } else {
            let a = i - stay.len();
            let b = j - stay.len();
            assert(all[i] == fresh[a] && all[j] == fresh[b]);
            assert(pieces[a] == fresh[a].table.run() && pieces[b] == fresh[b].table.run());
            lemma_pieces_ascend(pieces, a, 0, b, 0);
            bytes::lemma_lex_irreflexive(pieces[a][0].key.user);
        }
    }
    lemma_sort_reads(all, key, as_of);
    lemma_none_seen(stay, key, as_of);
    lemma_first_visible_concat(
        lsm_model::slot_runs(stay),
        lsm_model::slot_runs(fresh),
        key,
        as_of,
    );
    assert(lsm_model::slot_runs(all) =~= lsm_model::slot_runs(stay) + lsm_model::slot_runs(fresh));
    lemma_first_visible_join(pieces, key, as_of);
}

/// What the level below shows after a compaction, for a read that finds nothing in
/// the new tables.
proof fn lemma_kept_level_reads(
    below: Seq<Slot>,
    pick: spec_fn(Slot) -> bool,
    fresh: Seq<Slot>,
    key: Seq<u8>,
    as_of: HlcTimestamp,
)
    requires
        parted(below),
        forall|i: int|
            0 <= i < below.len() && !pick(#[trigger] below[i]) ==> seen(below[i], key, as_of) is None,
        forall|i: int| 0 <= i < fresh.len() ==> seen(#[trigger] fresh[i], key, as_of) is None,
    ensures
        compaction_laws::first_visible(
            lsm_model::slot_runs(lsm_model::sorted_by_min(below.filter(pick) + fresh)),
            key,
            as_of,
        ) == compaction_laws::first_visible(lsm_model::slot_runs(below), key, as_of),
{
    let stay = below.filter(pick);
    let all = stay + fresh;
    assert forall|i: int, j: int|
        0 <= i < j < all.len() && seen(#[trigger] all[i], key, as_of) is Some && seen(
            #[trigger] all[j],
            key,
            as_of,
        ) is Some implies !bytes::lex_lt(all[j].table.min.user, all[i].table.min.user) by {
        if j >= stay.len() {
            assert(all[j] == fresh[j - stay.len()]);
        } else {
            assert(all[i] == stay[i] && all[j] == stay[j]);
            let (a, b) = lemma_filter_order(below, pick, i, j);
            if !has_key(below[a].table.run(), key) {
                lemma_not_seen(below[a].table.run(), key, as_of);
            }
            if !has_key(below[b].table.run(), key) {
                lemma_not_seen(below[b].table.run(), key, as_of);
            }
            assert(has_key(below[a].table.run(), key) && has_key(below[b].table.run(), key));
        }
    }
    lemma_sort_reads(all, key, as_of);
    lemma_none_seen(fresh, key, as_of);
    lemma_first_visible_concat(
        lsm_model::slot_runs(stay),
        lsm_model::slot_runs(fresh),
        key,
        as_of,
    );
    assert(lsm_model::slot_runs(all) =~= lsm_model::slot_runs(stay) + lsm_model::slot_runs(fresh));
    lemma_filter_reads(below, pick, key, as_of);
}

/// What is found in a level and the one below is found below after a compaction;
/// from the last level deletions may have gone.
proof fn lemma_pair_reads(
    inputs: Seq<Slot>,
    below: Seq<Slot>,
    fresh: Seq<Slot>,
    watermark: HlcTimestamp,
    last: bool,
    key: Seq<u8>,
    as_of: HlcTimestamp,
)
    requires
        inputs.len() > 0,
        sound(inputs),
        sound(below),
        parted(below),
        paths_differ(below),
        timestamp::ts_le(watermark, as_of),
        ({
            let runs = lsm_model::slot_runs(
                inputs + lsm_model::overlapping(inputs, below),
            );
            &&& compaction_laws::newest_first(runs)
            &&& separate(runs)
            &&& made_from(
                Seq::new(fresh.len(), |i: int| fresh[i].table),
                compaction::compacted(runs, watermark, last, lsm_model::MAX_FILE_SIZE),
            )
        }),
    ensures
        ({
            let stay = below.filter(
                |s: Slot|
                    !lsm_model::names_path(lsm_model::overlapping(inputs, below), s.path),
            );
            let before = either(
                lsm_model::lookup_level(inputs, key, as_of),
                lsm_model::lookup_level(below, key, as_of),
            );
            let after = lsm_model::lookup_level(
                lsm_model::sorted_by_min(stay + fresh),
                key,
                as_of,
            );
            &&& compaction_laws::read(after) == compaction_laws::read(before)
            &&& !last ==> after == before
        }),
{
    let over = lsm_model::overlapping(inputs, below);
    let merged = inputs + over;
    let runs = lsm_model::slot_runs(merged);
    let pieces = compaction::compacted(runs, watermark, last, lsm_model::MAX_FILE_SIZE);
    let low = lsm_model::least_min(inputs);
    let high = lsm_model::greatest_max(inputs);
    let hit = |s: Slot| lsm_model::overlaps(s, low, high);
    let left = |s: Slot| !lsm_model::names_path(over, s.path);
    let stay = below.filter(left);
    assert(over == below.filter(hit));
    let made = Seq::new(fresh.len(), |i: int| fresh[i].table);
    // The merged tables are sound.
    assert forall|i: int| 0 <= i < over.len() implies (#[trigger] over[i]).table.ok()
        && reader::distinct_keys(over[i].table.run()) by {
        lsm_model::lemma_filter_from(below, hit, i);
    }
    assert forall|i: int| 0 <= i < runs.len() implies key::sorted(#[trigger] runs[i])
        && reader::distinct_keys(runs[i]) by {
        if i < inputs.len() {
            assert(merged[i] == inputs[i]);
        } else {
            assert(merged[i] == over[i - inputs.len()]);
        }
        assert(runs[i] == merged[i].table.run());
    }
    lemma_new_runs_distinct(runs, watermark, last, lsm_model::MAX_FILE_SIZE);
    assert forall|i: int| 0 <= i < fresh.len() implies (#[trigger] fresh[i]).table.ok()
        && pieces[i].len() > 0 && fresh[i].table.run() == pieces[i] && reader::distinct_keys(
        fresh[i].table.run(),
    ) by {
        assert(made[i].ok() && made[i].run() == pieces[i]);
        let m = compaction::merge(runs);
        lemma_cut_pieces(
            compaction::survivors(m, m.len() as int, watermark, last),
            lsm_model::MAX_FILE_SIZE,
            i,
        );
        assert(reader::distinct_keys(pieces[i]));
    }
    assert(lsm_model::slot_runs(fresh) =~= pieces);
    // So are those of the new level.
    let all = lsm_model::sorted_by_min(stay + fresh);
    lemma_sorted_sound(below, left, fresh);
    lemma_sound_is_clear(all, key, as_of);
    lemma_sound_is_clear(inputs, key, as_of);
    lemma_sound_is_clear(below, key, as_of);
    lemma_level_reads(all, key, as_of);
    lemma_level_reads(inputs, key, as_of);
    lemma_level_reads(below, key, as_of);
    assert forall|j: int| 0 <= j < below.len() implies left(#[trigger] below[j]) == !hit(
        below[j],
    ) by {
        lemma_stay(below, inputs, j);
    }
    let elsewhere = exists|j: int| 0 <= j < runs.len() && has_key(#[trigger] runs[j], key);
    if elsewhere {
        // What stays has nothing of the key.
        let j = choose|j: int| 0 <= j < runs.len() && has_key(#[trigger] runs[j], key);
        assert forall|i: int| 0 <= i < below.len() && !hit(#[trigger] below[i]) implies seen(
            below[i],
            key,
            as_of,
        ) is None by {
            if has_key(below[i].table.run(), key) {
                assert(runs[j] == merged[j].table.run());
                if j < inputs.len() {
                    assert(merged[j] == inputs[j]);
                    lemma_shared_key_overlaps(inputs, below[i], j, key);
                } else {
                    let o = j - inputs.len();
                    assert(merged[j] == over[o]);
                    lsm_model::lemma_filter_from(below, hit, o);
                    lemma_filter_picks(below, hit, o);
                    let q = choose|q: int| 0 <= q < below.len() && below[q] == over[o];
                    assert(q != i);
                    assert(has_key(below[q].table.run(), key));
                    if q < i {
                        assert(has_key(below[q].table.run(), key) && has_key(
                            below[i].table.run(),
                            key,
                        ));
                    } else {
                        assert(has_key(below[i].table.run(), key) && has_key(
                            below[q].table.run(),
                            key,
                        ));
                    }
                }
            }
            lemma_not_seen(below[i].table.run(), key, as_of);
        }
        assert forall|i: int| 0 <= i < stay.len() implies seen(
            #[trigger] stay[i],
            key,
            as_of,
        ) is None by {
            lsm_model::lemma_filter_from(below, left, i);
            lemma_filter_picks(below, left, i);
            let q = choose|q: int| 0 <= q < below.len() && below[q] == stay[i];
            assert(left(below[q]));
        }
        lemma_merged_level_reads(stay, fresh, pieces, key, as_of);
        lemma_filter_reads(below, hit, key, as_of);
        lemma_first_visible_concat(
            lsm_model::slot_runs(inputs),
            lsm_model::slot_runs(over),
            key,
            as_of,
        );
        assert(runs =~= lsm_model::slot_runs(inputs) + lsm_model::slot_runs(over));
        compaction_laws::lemma_compaction_keeps_reads(
            runs,
            watermark,
            last,
            lsm_model::MAX_FILE_SIZE,
            key,
            as_of,
        );
    } else {
        assert forall|i: int| 0 <= i < inputs.len() implies seen(
            #[trigger] inputs[i],
            key,
            as_of,
        ) is None by {
            assert(merged[i] == inputs[i]);
            assert(runs[i] == merged[i].table.run());
            lemma_not_seen(inputs[i].table.run(), key, as_of);
        }
        lemma_none_seen(inputs, key, as_of);
        assert forall|i: int| 0 <= i < below.len() && !left(#[trigger] below[i]) implies seen(
            below[i],
            key,
            as_of,
        ) is None by {
            assert(hit(below[i]));
            let o = lemma_filter_has(below, hit, i);
            assert(merged[inputs.len() + o] == over[o]);
            assert(runs[inputs.len() + o] == merged[inputs.len() + o].table.run());
            lemma_not_seen(below[i].table.run(), key, as_of);
        }
        assert forall|i: int| 0 <= i < fresh.len() implies seen(
            #[trigger] fresh[i],
            key,
            as_of,
        ) is None by {
            if has_key(pieces[i], key) {
                lemma_new_runs_from(
                    runs,
                    watermark,
                    last,
                    lsm_model::MAX_FILE_SIZE,
                    key,
                    i,
                );
            }
            lemma_not_seen(pieces[i], key, as_of);
        }
        lemma_kept_level_reads(below, left, fresh, key, as_of);
    }
}

pub(crate) proof fn lemma_sorted_sound(below: Seq<Slot>, left: spec_fn(Slot) -> bool, fresh: Seq<Slot>)
    requires
        sound(below),
        sound(fresh),
    ensures
        sound(lsm_model::sorted_by_min(below.filter(left) + fresh)),
{
    let stay = below.filter(left);
    let ts = stay + fresh;
    let all = lsm_model::sorted_by_min(ts);
    lemma_sorted_from(ts);
    assert forall|i: int| 0 <= i < all.len() implies (#[trigger] all[i]).table.ok()
        && reader::distinct_keys(all[i].table.run()) by {
        assert(ts.contains(all[i]));
        let k = choose|k: int| 0 <= k < ts.len() && ts[k] == all[i];
        if k < stay.len() {
            assert(ts[k] == stay[k]);
            lsm_model::lemma_filter_from(below, left, k);
        } else {
            assert(ts[k] == fresh[k - stay.len()]);
        }
    }
}

pub(crate) proof fn lemma_insert_from(ts: Seq<Slot>, s: Slot)
    ensures
        forall|i: int|
            0 <= i < lsm_model::insert_by_min(ts, s).len() ==> (#[trigger] lsm_model::insert_by_min(
                ts,
                s,
            )[i]) == s || ts.contains(lsm_model::insert_by_min(ts, s)[i]),
    decreases ts.len(),
{
    let out = lsm_model::insert_by_min(ts, s);
    if ts.len() > 0 && bytes::lex_lt(s.table.min.user, ts.last().table.min.user) {
        let front = ts.drop_last();
        lemma_insert_from(front, s);
        let inner = lsm_model::insert_by_min(front, s);
        assert forall|i: int| 0 <= i < out.len() implies (#[trigger] out[i]) == s || ts.contains(
            out[i],
        ) by {
            if i < inner.len() {
                assert(out[i] == inner[i]);
                if out[i] != s {
                    let k = choose|k: int| 0 <= k < front.len() && front[k] == inner[i];
                    assert(ts[k] == out[i]);
                }
            } else {
                assert(ts[ts.len() - 1] == out[i]);
            }
        }
    } else {
        assert forall|i: int| 0 <= i < out.len() implies (#[trigger] out[i]) == s || ts.contains(
            out[i],
        ) by {
            if i < ts.len() {
                assert(ts[i] == out[i]);
            }
        }
    }
}

pub(crate) proof fn lemma_sorted_from(ts: Seq<Slot>)
    ensures
        forall|i: int|
            0 <= i < lsm_model::sorted_by_min(ts).len() ==> ts.contains(
                #[trigger] lsm_model::sorted_by_min(ts)[i],
            ),
    decreases ts.len(),
{
    if ts.len() > 0 {
        let front = ts.drop_last();
        let last = ts.last();
        lemma_sorted_from(front);
        let sorted = lsm_model::sorted_by_min(front);
        lemma_insert_from(sorted, last);
        let out = lsm_model::sorted_by_min(ts);
        assert forall|i: int| 0 <= i < out.len() implies ts.contains(#[trigger] out[i]) by {
            if out[i] == last {
                assert(ts[ts.len() - 1] == out[i]);
            } else {
                let k = choose|k: int| 0 <= k < sorted.len() && sorted[k] == out[i];
                assert(front.contains(sorted[k]));
                let q = choose|q: int| 0 <= q < front.len() && front[q] == sorted[k];
                assert(ts[q] == out[i]);
            }
        }
    }
}

/// A compaction changes no read at or after its watermark, where the tables that it
/// works on are in order.
#[verifier::spinoff_prover]
#[verifier::rlimit(60)]
pub proof fn lemma_compaction_is_not_noticed<F: Fn(usize) -> (usize, usize)>(
    f: F,
    s: LsmView,
    level: int,
    watermark: HlcTimestamp,
    t: LsmView,
    key: Seq<u8>,
    as_of: HlcTimestamp,
)
    requires
        lsm_model::after_compaction(f, s, level, watermark, t),
        s.compacts(level) ==> orderly(s, level),
        timestamp::ts_le(watermark, as_of),
    ensures
        t.get(key, as_of) == s.get(key, as_of),
{
    if s.compacts(level) {
        let runs = s.new_runs(level, watermark);
        let made = choose|made: Seq<TableView>|
            #![trigger s.compacted(level, made)]
            made.len() == runs.len() && (forall|i: int|
                0 <= i < made.len() ==> lsm_model::built(f, #[trigger] made[i], runs[i])) && t
                == s.compacted(level, made);
        let inputs = s.levels[level];
        let below = s.levels[level + 1];
        let over = lsm_model::overlapping(inputs, below);
        let fresh = lsm_model::new_slots(s.dir, s.next_file_id, made);
        lsm_model::lemma_new_slots(s.dir, s.next_file_id, made);
        assert(Seq::new(fresh.len(), |i: int| fresh[i].table) =~= made);
        assert forall|i: int| 0 <= i < made.len() implies (#[trigger] made[i]).ok()
            && made[i].run() == runs[i] by {
            assert(lsm_model::built(f, made[i], runs[i]));
        }
        lemma_pair_reads(inputs, below, fresh, watermark, level + 1 == 6, key, as_of);
        let stay = below.filter(|x: Slot| !lsm_model::names_path(over, x.path));
        let new_below = lsm_model::sorted_by_min(stay + fresh);
        lemma_levels_split(s.levels, level, key, as_of);
        lemma_levels_split(t.levels, level, key, as_of);
        assert(t.levels[level] =~= Seq::empty());
        assert(t.levels[level + 1] == new_below);
        assert(s.levels.take(level) =~= t.levels.take(level));
        let a = s.levels.skip(level);
        let b = t.levels.skip(level);
        assert(a[0] == inputs && a.drop_first()[0] == below);
        assert(b[0] == t.levels[level] && b.drop_first()[0] == new_below);
        assert(a.drop_first().drop_first() =~= b.drop_first().drop_first());
        reveal_with_fuel(lsm_model::lookup_levels, 3);
        if level + 1 == 6 {
            assert(a.drop_first().drop_first().len() == 0);
        }
    }
}

} // verus!
