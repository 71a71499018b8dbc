//! What a crash leaves of writes, also of those that were about to become a table.
use crate::storage::key;
use crate::storage::key::Version;
use crate::storage::lsm_laws;
use crate::storage::lsm_model;
use crate::storage::lsm_model::{DiskOpView, LsmView};
use crate::storage::reader;
use crate::storage::reader::TableView;
use crate::storage::timestamp;
use crate::storage::timestamp::HlcTimestamp;
use crate::storage::wal;
use crate::storage::wal::RecordView;
use vstd::prelude::*;

verus! {

/// What a read gives after these writes, if it gave `before` in front of them and of
/// each key the later write has the later time.
pub open spec fn latest(
    rs: Seq<RecordView>,
    key: Seq<u8>,
    as_of: HlcTimestamp,
    before: Option<Seq<u8>>,
) -> Option<Seq<u8>>
    decreases rs.len(),
{
    if rs.len() == 0 {
        before
    } else if lsm_laws::reaches(rs.last(), key, as_of) {
        if rs.last().is_delete {
            None
        } else {
            Some(rs.last().value)
        }
    } else {
        latest(rs.drop_last(), key, as_of, before)
    }
}

/// Of two writes of a key the later one has the later time.
pub open spec fn times_rise(rs: Seq<RecordView>) -> bool {
    forall|i: int, j: int|
        0 <= i < j < rs.len() && (#[trigger] rs[i]).key == (#[trigger] rs[j]).key
            ==> timestamp::ts_lt(rs[i].ts, rs[j].ts)
}

pub(crate) proof fn lemma_part_rises(rs: Seq<RecordView>, a: int, b: int)
    requires
        times_rise(rs),
        0 <= a <= b <= rs.len(),
    ensures
        times_rise(rs.subrange(a, b)),
{
    let part = rs.subrange(a, b);
    assert forall|i: int, j: int|
        0 <= i < j < part.len() && (#[trigger] part[i]).key == (#[trigger] part[j]).key implies timestamp::ts_lt(
        part[i].ts,
        part[j].ts,
    ) by {
        assert(part[i] == rs[a + i] && part[j] == rs[a + j]);
    }
}

proof fn lemma_latest_joined(
    a: Seq<RecordView>,
    b: Seq<RecordView>,
    key: Seq<u8>,
    as_of: HlcTimestamp,
    before: Option<Seq<u8>>,
)
    ensures
        latest(a + b, key, as_of, before) == latest(b, key, as_of, latest(a, key, as_of, before)),
    decreases b.len(),
{
    if b.len() == 0 {
        assert(a + b =~= a);
    } else {
        lemma_latest_joined(a, b.drop_last(), key, as_of, before);
        assert((a + b).drop_last() =~= a + b.drop_last());
    }
}

/// Writes that are repeated change nothing more.
proof fn lemma_latest_again(
    rs: Seq<RecordView>,
    key: Seq<u8>,
    as_of: HlcTimestamp,
    x: Option<Seq<u8>>,
    y: Option<Seq<u8>>,
)
    requires
        y == latest(rs, key, as_of, x),
    ensures
        latest(rs, key, as_of, y) == y,
{
    lemma_latest_of(rs, key, as_of, x, y);
}

/// Either the writes decide, or what was there before does.
proof fn lemma_latest_of(
    rs: Seq<RecordView>,
    key: Seq<u8>,
    as_of: HlcTimestamp,
    x: Option<Seq<u8>>,
    y: Option<Seq<u8>>,
)
    ensures
        latest(rs, key, as_of, x) == latest(rs, key, as_of, y) || (latest(rs, key, as_of, x) == x
            && latest(rs, key, as_of, y) == y),
    decreases rs.len(),
{
    if rs.len() > 0 && !lsm_laws::reaches(rs.last(), key, as_of) {
        lemma_latest_of(rs.drop_last(), key, as_of, x, y);
    }
}

/// Writes on an engine without recent ones are read in the order of their times.
proof fn lemma_wrote_latest(s: LsmView, rs: Seq<RecordView>, key: Seq<u8>, as_of: HlcTimestamp)
    requires
        s.active.len() == 0,
        times_rise(rs),
    ensures
        lsm_laws::wrote(s, rs).get(key, as_of) == latest(rs, key, as_of, s.get(key, as_of)),
        key::sorted(lsm_laws::wrote(s, rs).active),
        lsm_laws::writes_differ(rs),
    decreases rs.len(),
{
    if rs.len() > 0 {
        let most = rs.drop_last();
        let r = rs[rs.len() - 1];
        lemma_part_rises(rs, 0, rs.len() - 1);
        assert(rs.subrange(0, rs.len() - 1) =~= most);
        lemma_wrote_latest(s, most, key, as_of);
        let w = lsm_laws::wrote(s, most);
        lsm_laws::lemma_wrote_is_replayed(s, most);
        lsm_laws::lemma_replayed_differ(most);
        assert forall|i: int|
            0 <= i < w.active.len() && (#[trigger] w.active[i]).key.user == r.key implies timestamp::ts_le(
            w.active[i].key.ts,
            r.ts,
        ) by {
            let j = choose|j: int|
                0 <= j < most.len() && (#[trigger] most[j]).key == lsm_model::replayed(
                    most,
                )[i].key.user && most[j].ts == lsm_model::replayed(most)[i].key.ts;
            assert(most[j] == rs[j]);
            assert(timestamp::ts_lt(rs[j].ts, rs[rs.len() - 1].ts));
        }
        lsm_laws::lemma_write_is_read(w, r, key, as_of);
        let v = Version {
            key: key::KeyView { user: r.key, ts: r.ts },
            value: if r.is_delete {
                None
            } else {
                Some(r.value)
            },
        };
        key::lemma_insert_sorted(w.active, v);
    } else {
        assert(s.active =~= Seq::empty());
    }
}

/// A log that has become a table is read as its writes were.
proof fn lemma_log_is_read(
    s: LsmView,
    rs: Seq<RecordView>,
    t: TableView,
    clean_up: DiskOpView,
    key: Seq<u8>,
    as_of: HlcTimestamp,
)
    requires
        s.active.len() == 0,
        s.levels.len() > 0,
        times_rise(rs),
        t.ok(),
        t.run() == lsm_model::replayed(rs),
    ensures
        s.with_recovered(t, clean_up).get(key, as_of) == latest(rs, key, as_of, s.get(key, as_of)),
        s.with_recovered(t, clean_up).active.len() == 0,
        s.with_recovered(t, clean_up).levels.len() == s.levels.len(),
{
    let w = lsm_laws::wrote(s, rs);
    let u = s.with_recovered(t, clean_up);
    lemma_wrote_latest(s, rs, key, as_of);
    lsm_laws::lemma_wrote_is_replayed(s, rs);
    lsm_laws::lemma_replayed_differ(rs);
    assert(reader::once(w.active, key::KeyView { user: key, ts: as_of }));
    lsm_laws::lemma_flush_keeps_reads(w, t, key, as_of);
    assert(u.levels == w.flushed(t).levels);
    assert(u.active =~= w.flushed(t).active);
}

/// The records of logs, one behind the other.
pub open spec fn joined(logs: Seq<(Seq<u8>, Seq<RecordView>)>) -> Seq<RecordView>
    decreases logs.len(),
{
    if logs.len() == 0 {
        Seq::empty()
    } else {
        joined(logs.drop_last()) + logs.last().1
    }
}

/// Frozen logs as they stand in their files, each with its path.
pub open spec fn files_of(logs: Seq<(Seq<u8>, Seq<RecordView>)>) -> Seq<(Seq<u8>, Seq<u8>)> {
    logs.map_values(|l: (Seq<u8>, Seq<RecordView>)| (l.0, wal::log_bytes(l.1)))
}

/// The records can be written down.
pub open spec fn all_fit(rs: Seq<RecordView>) -> bool {
    forall|i: int| 0 <= i < rs.len() ==> wal::fits(#[trigger] rs[i])
}

/// A log that was not cut gives back all its records.
pub(crate) proof fn lemma_whole_log(rs: Seq<RecordView>)
    requires
        all_fit(rs),
    ensures
        wal::recovered(wal::log_bytes(rs)) == rs,
{
    wal::lemma_recovery_of_log(rs, Seq::empty());
    assert(wal::log_bytes(rs) + Seq::<u8>::empty() =~= wal::log_bytes(rs));
    assert(wal::recovered(Seq::<u8>::empty()) =~= Seq::empty());
    assert(rs + Seq::<RecordView>::empty() =~= rs);
}

proof fn lemma_frozen_are_read<F: Fn(usize) -> (usize, usize)>(
    f: F,
    s: LsmView,
    logs: Seq<(Seq<u8>, Seq<RecordView>)>,
    made: Seq<TableView>,
    key: Seq<u8>,
    as_of: HlcTimestamp,
)
    requires
        s.active.len() == 0,
        s.levels.len() > 0,
        times_rise(joined(logs)),
        all_fit(joined(logs)),
        logs.len() <= made.len(),
        forall|i: int|
            0 <= i < logs.len() ==> lsm_model::built(
                f,
                #[trigger] made[i],
                lsm_model::replayed(wal::recovered(files_of(logs)[i].1)),
            ),
    ensures
        s.with_frozen(files_of(logs), made).get(key, as_of) == latest(
            joined(logs),
            key,
            as_of,
            s.get(key, as_of),
        ),
        s.with_frozen(files_of(logs), made).active.len() == 0,
        s.with_frozen(files_of(logs), made).levels.len() == s.levels.len(),
    decreases logs.len(),
{
    if logs.len() > 0 {
        let most = logs.drop_last();
        let rs = logs.last().1;
        let n = joined(most).len() as int;
        let all = joined(logs);
        lemma_part_rises(all, 0, n);
        lemma_part_rises(all, n, all.len() as int);
        assert(all.subrange(0, n) =~= joined(most));
        assert(all.subrange(n, all.len() as int) =~= rs);
        assert forall|i: int| 0 <= i < joined(most).len() implies wal::fits(
            #[trigger] joined(most)[i],
        ) by {
            assert(joined(most)[i] == all[i]);
        }
        assert forall|i: int| 0 <= i < rs.len() implies wal::fits(#[trigger] rs[i]) by {
            assert(rs[i] == all[n + i]);
        }
        assert(files_of(logs).drop_last() =~= files_of(most));
        assert forall|i: int| 0 <= i < most.len() implies lsm_model::built(
            f,
            #[trigger] made[i],
            lsm_model::replayed(wal::recovered(files_of(most)[i].1)),
        ) by {
            assert(files_of(most)[i] == files_of(logs)[i]);
        }
        lemma_frozen_are_read(f, s, most, made, key, as_of);
        let m = s.with_frozen(files_of(most), made);
        let t = made[logs.len() - 1];
        assert(lsm_model::built(
            f,
            t,
            lsm_model::replayed(wal::recovered(files_of(logs)[logs.len() - 1].1)),
        ));
        lemma_whole_log(rs);
        assert(wal::recovered(files_of(logs)[logs.len() - 1].1) == rs);
        lemma_log_is_read(m, rs, t, DiskOpView::Remove(files_of(logs).last().0), key, as_of);
        lemma_latest_joined(joined(most), rs, key, as_of, s.get(key, as_of));
    }
}

/// A crash loses no write that is whole in a log, also where it comes while recent
/// writes become a table and their log is frozen: an engine that is opened again over
/// its tables, the frozen logs in the order in which they were frozen, and its log,
/// cut anywhere, reads as it did after the last write that is whole, as if the others
/// had never been. Of each key the later write has the later time.
#[verifier::spinoff_prover]
#[verifier::rlimit(60)]
pub proof fn lemma_crash_loses_no_frozen_write<F: Fn(usize) -> (usize, usize)>(
    f: F,
    s: LsmView,
    logs: Seq<(Seq<u8>, Seq<RecordView>)>,
    rs: Seq<RecordView>,
    cut: nat,
    made: Seq<TableView>,
    key: Seq<u8>,
    as_of: HlcTimestamp,
)
    requires
        s.active.len() == 0,
        s.levels.len() > 0,
        all_fit(joined(logs) + rs),
        times_rise(joined(logs) + rs),
        cut <= wal::log_bytes(rs).len(),
        lsm_model::made_of(f, files_of(logs), wal::log_bytes(rs).take(cut as int), made),
    ensures
        lsm_laws::reopened(s, files_of(logs), wal::log_bytes(rs).take(cut as int), made).get(
            key,
            as_of,
        ) == lsm_laws::wrote(s, joined(logs) + rs.take(wal::whole_before(rs, cut as int))).get(
            key,
            as_of,
        ),
{
    let log = wal::log_bytes(rs).take(cut as int);
    let old = joined(logs);
    let all = old + rs;
    let n = wal::whole_before(rs, cut as int);
    assert forall|i: int| 0 <= i < rs.len() implies wal::fits(#[trigger] rs[i]) by {
        assert(rs[i] == all[old.len() + i]);
    }
    assert forall|i: int| 0 <= i < old.len() implies wal::fits(#[trigger] old[i]) by {
        assert(old[i] == all[i]);
    }
    wal::lemma_recovery_of_cut_log(rs, cut);
    wal::lemma_whole_before(rs, cut as int);
    let kept = rs.take(n);
    lemma_part_rises(all, 0, old.len() as int);
    lemma_part_rises(all, old.len() as int, old.len() + n);
    lemma_part_rises(all, 0, old.len() + n);
    assert(all.subrange(0, old.len() as int) =~= old);
    assert(all.subrange(old.len() as int, old.len() + n) =~= kept);
    assert(all.subrange(0, old.len() + n) =~= old + kept);
    let base = lsm_laws::bare(s);
    assert(base.active =~= s.active);
    assert(base.get(key, as_of) == s.get(key, as_of));
    lemma_frozen_are_read(f, base, logs, made, key, as_of);
    let m = base.with_frozen(files_of(logs), made);
    if kept.len() > 0 {
        let t = made[logs.len() as int];
        assert(lsm_model::built(f, t, lsm_model::replayed(kept)));
        lemma_log_is_read(m, kept, t, DiskOpView::ResetLog, key, as_of);
    }
    lemma_latest_joined(old, kept, key, as_of, s.get(key, as_of));
    lemma_wrote_latest(s, old + kept, key, as_of);
}

/// Where a crash comes after the manifest has listed the new table and before its
/// frozen log was removed, the log becomes one more table, and reads give what they
/// gave before the crash.
pub proof fn lemma_crash_behind_a_flush<F: Fn(usize) -> (usize, usize)>(
    f: F,
    s: LsmView,
    rs: Seq<RecordView>,
    t: TableView,
    path: Seq<u8>,
    made: Seq<TableView>,
    key: Seq<u8>,
    as_of: HlcTimestamp,
)
    requires
        s.active.len() == 0,
        s.levels.len() > 0,
        all_fit(rs),
        times_rise(rs),
        lsm_model::built(f, t, lsm_laws::wrote(s, rs).active),
        lsm_model::made_of(f, seq![(path, wal::log_bytes(rs))], Seq::empty(), made),
    ensures
        lsm_laws::reopened(
            lsm_laws::wrote(s, rs).flushed(t),
            seq![(path, wal::log_bytes(rs))],
            Seq::empty(),
            made,
        ).get(key, as_of) == lsm_laws::wrote(s, rs).get(key, as_of),
{
    let w = lsm_laws::wrote(s, rs);
    let d = w.flushed(t);
    let logs = seq![(path, rs)];
    let none = Seq::<RecordView>::empty();
    lemma_wrote_latest(s, rs, key, as_of);
    lsm_laws::lemma_wrote_is_replayed(s, rs);
    lsm_laws::lemma_replayed_differ(rs);
    assert(reader::once(w.active, key::KeyView { user: key, ts: as_of }));
    lsm_laws::lemma_flush_keeps_reads(w, t, key, as_of);
    assert(logs.drop_last() =~= Seq::empty());
    assert(joined(logs.drop_last()) =~= none);
    assert(joined(logs) =~= rs);
    assert(joined(logs) + none =~= rs);
    assert(files_of(logs) =~= seq![(path, wal::log_bytes(rs))]);
    assert(wal::log_bytes(none) =~= Seq::empty());
    assert(wal::log_bytes(none).take(0) =~= Seq::empty());
    assert(d.active.len() == 0);
    assert(d.levels.len() > 0);
    lemma_crash_loses_no_frozen_write(f, d, logs, none, 0, made, key, as_of);
    wal::lemma_whole_before(none, 0);
    assert(none.take(wal::whole_before(none, 0)) =~= none);
    lemma_wrote_latest(d, rs, key, as_of);
    lemma_latest_again(rs, key, as_of, s.get(key, as_of), w.get(key, as_of));
}

} // verus!
