//! How an engine's versions are arranged: what is searched first is newer, and each
//! operation keeps it so.
use crate::bytes;
use crate::decimal;
use crate::storage::compaction_laws;
use crate::storage::key;
use crate::storage::key::Version;
use crate::storage::lsm_laws;
use crate::storage::lsm_model;
use crate::storage::lsm_model::{DiskOpView, LsmView, Slot};
use crate::storage::reader;
use crate::storage::reader::TableView;
use crate::storage::recovery_laws;
use crate::storage::timestamp;
use crate::storage::timestamp::HlcTimestamp;
use crate::storage::wal;
use crate::storage::wal::RecordView;
use vstd::prelude::*;

verus! {

/// The versions of a key in the first run are all newer than those in the second.
pub open spec fn newer(a: Seq<Version>, b: Seq<Version>) -> bool {
    forall|p: int, q: int|
        #![trigger a[p], b[q]]
        0 <= p < a.len() && 0 <= q < b.len() && a[p].key.user == b[q].key.user
            ==> timestamp::ts_lt(b[q].key.ts, a[p].key.ts)
}

/// Two tables have different paths, and no key in common.
pub open spec fn apart(a: Slot, b: Slot) -> bool {
    &&& a.path != b.path
    &&& forall|key: Seq<u8>|
        !(#[trigger] lsm_laws::has_key(a.table.run(), key) && #[trigger] lsm_laws::has_key(
            b.table.run(),
            key,
        ))
}

/// Any two of the tables are apart.
pub open spec fn all_apart(ts: Seq<Slot>) -> bool {
    forall|i: int, j: int|
        0 <= i < j < ts.len() ==> apart(#[trigger] ts[i], #[trigger] ts[j])
}

/// A table's path is one of a file number below `next`.
pub open spec fn named(s: Slot, dir: Seq<u8>, next: int) -> bool {
    exists|id: u64| id < next && s.path == #[trigger] lsm_model::table_path(dir, id)
}

/// Tables that are searched first are newer.
pub open spec fn stacked(levels: Seq<Seq<Slot>>) -> bool {
    forall|i: int, j: int, k: int, l: int|
        #![trigger levels[i][j], levels[k][l]]
        0 <= i < levels.len() && 0 <= j < levels[i].len() && 0 <= k < levels.len() && 0 <= l
            < levels[k].len() && (i < k || (i == k && j < l)) ==> newer(
            levels[i][j].table.run(),
            levels[k][l].table.run(),
        )
}

/// The recent writes are newer than all tables.
pub open spec fn on_top(active: Seq<Version>, levels: Seq<Seq<Slot>>) -> bool {
    forall|i: int, j: int|
        0 <= i < levels.len() && 0 <= j < levels[i].len() ==> newer(
            active,
            (#[trigger] levels[i][j]).table.run(),
        )
}

/// All tables have paths of file numbers that were given.
pub open spec fn all_named(levels: Seq<Seq<Slot>>, dir: Seq<u8>, next: int) -> bool {
    forall|i: int, j: int|
        0 <= i < levels.len() && 0 <= j < levels[i].len() ==> named(
            #[trigger] levels[i][j],
            dir,
            next,
        )
}

/// An engine in order: no version stands twice, what is searched first is newer, and
/// below the top level each key is in one table, each table in a file of its own.
pub open spec fn arranged(s: LsmView) -> bool {
    &&& s.levels.len() == 7
    &&& key::sorted(s.active)
    &&& reader::distinct_keys(s.active)
    &&& on_top(s.active, s.levels)
    &&& forall|i: int| 0 <= i < 7 ==> lsm_laws::sound(#[trigger] s.levels[i])
    &&& stacked(s.levels)
    &&& forall|i: int| 1 <= i < 7 ==> all_apart(#[trigger] s.levels[i])
    &&& all_named(s.levels, s.dir, s.next_file_id as int)
}

/// All versions of the write's key in the run are older than the write.
pub open spec fn behind(run: Seq<Version>, r: RecordView) -> bool {
    forall|p: int|
        0 <= p < run.len() && (#[trigger] run[p]).key.user == r.key ==> timestamp::ts_lt(
            run[p].key.ts,
            r.ts,
        )
}

/// The write is later than all that the engine holds of its key.
pub open spec fn is_latest(s: LsmView, r: RecordView) -> bool {
    &&& behind(s.active, r)
    &&& forall|i: int, j: int|
        0 <= i < s.levels.len() && 0 <= j < s.levels[i].len() ==> behind(
            (#[trigger] s.levels[i][j]).table.run(),
            r,
        )
}

/// The writes are later than all that the engine holds of their keys, and of each key
/// the later write has the later time.
pub open spec fn are_latest(s: LsmView, rs: Seq<RecordView>) -> bool {
    &&& recovery_laws::times_rise(rs)
    &&& forall|i: int| 0 <= i < rs.len() ==> is_latest(s, #[trigger] rs[i])
}

/// An engine without any versions is in order.
pub proof fn lemma_empty_is_arranged(s: LsmView)
    requires
        s.active.len() == 0,
        s.levels.len() == 7,
        forall|i: int| 0 <= i < 7 ==> (#[trigger] s.levels[i]).len() == 0,
    ensures
        arranged(s),
{
}

// ----------------------------------------------------------------------
// What an engine in order allows
// ----------------------------------------------------------------------
/// In an engine in order every level can be compacted without a read noticing, and no
/// table holds a version twice, so that scans agree with reads.
pub proof fn lemma_arranged_is_orderly(s: LsmView, level: int)
    requires
        arranged(s),
        0 <= level < 6,
    ensures
        lsm_laws::orderly(s, level),
        forall|i: int, k: Seq<u8>, as_of: HlcTimestamp|
            0 <= i < s.levels.len() ==> #[trigger] lsm_laws::clear(s.levels[i], k, as_of),
{
    let inputs = s.levels[level];
    let below = s.levels[level + 1];
    let over = lsm_model::overlapping(inputs, below);
    let hit = |x: Slot|
        lsm_model::overlaps(x, lsm_model::least_min(inputs), lsm_model::greatest_max(inputs));
    assert(over == below.filter(hit));
    let merged = s.merged_tables(level);
    let runs = lsm_model::slot_runs(merged);
    assert(all_apart(below));
    assert forall|i: int, j: int| 0 <= i < j < runs.len() implies newer(
        #[trigger] runs[i],
        #[trigger] runs[j],
    ) by {
        let n = inputs.len();
        if j < n {
            assert(newer(s.levels[level][i].table.run(), s.levels[level][j].table.run()));
        } else {
            lsm_model::lemma_filter_from(below, hit, j - n);
            let q = choose|q: int| 0 <= q < below.len() && below[q] == below.filter(hit)[j - n];
            if i < n {
                assert(newer(s.levels[level][i].table.run(), s.levels[level + 1][q].table.run()));
            } else {
                let at = lsm_laws::lemma_filter_order(below, hit, i - n, j - n);
                assert(newer(
                    s.levels[level + 1][at.0].table.run(),
                    s.levels[level + 1][at.1].table.run(),
                ));
            }
        }
    }
    assert(compaction_laws::newest_first(runs)) by {
        assert forall|i: int, j: int, p: int, q: int|
            #![trigger runs[i][p], runs[j][q]]
            0 <= i < j < runs.len() && 0 <= p < runs[i].len() && 0 <= q < runs[j].len()
                && runs[i][p].key.user == runs[j][q].key.user implies timestamp::ts_le(
            runs[j][q].key.ts,
            runs[i][p].key.ts,
        ) by {
            assert(newer(runs[i], runs[j]));
        }
    }
    assert(lsm_laws::separate(runs)) by {
        assert forall|i: int, j: int, p: int, q: int|
            #![trigger runs[i][p], runs[j][q]]
            0 <= i < j < runs.len() && 0 <= p < runs[i].len() && 0 <= q
                < runs[j].len() implies runs[i][p].key != runs[j][q].key by {
            assert(newer(runs[i], runs[j]));
        }
    }
    assert forall|i: int, j: int, key: Seq<u8>|
        0 <= i < j < below.len() && #[trigger] lsm_laws::has_key(below[i].table.run(), key)
            && #[trigger] lsm_laws::has_key(below[j].table.run(), key) implies false by {
        assert(apart(below[i], below[j]));
    }
    assert forall|i: int, j: int| 0 <= i < j < below.len() implies (#[trigger] below[i]).path != (
    #[trigger] below[j]).path by {
        assert(apart(below[i], below[j]));
    }
    assert forall|i: int, k: Seq<u8>, as_of: HlcTimestamp|
        0 <= i < s.levels.len() implies #[trigger] lsm_laws::clear(s.levels[i], k, as_of) by {
        lsm_laws::lemma_sound_is_clear(s.levels[i], k, as_of);
    }
}

// ----------------------------------------------------------------------
// Writes
// ----------------------------------------------------------------------
/// A write that is later than all that is there of its key keeps the order.
pub proof fn lemma_write_keeps_order(s: LsmView, r: RecordView)
    requires
        arranged(s),
        is_latest(s, r),
    ensures
        arranged(s.written(r)),
{
    let w = s.written(r);
    let k = key::KeyView { user: r.key, ts: r.ts };
    let v = Version {
        key: k,
        value: if r.is_delete {
            None
        } else {
            Some(r.value)
        },
    };
    let p = key::place(s.active, k);
    key::lemma_place(s.active, k);
    key::lemma_insert_sorted(s.active, v);
    assert(w.active == s.active.insert(p, v));
    lemma_insert_new(s.active, p, v);
    assert forall|i: int, j: int| 0 <= i < s.levels.len() && 0 <= j < s.levels[i].len() implies newer(
        w.active,
        (#[trigger] s.levels[i][j]).table.run(),
    ) by {
        let run = s.levels[i][j].table.run();
        assert(newer(s.active, run) && behind(run, r));
        assert forall|a: int, b: int|
            #![trigger w.active[a], run[b]]
            0 <= a < w.active.len() && 0 <= b < run.len() && w.active[a].key.user
                == run[b].key.user implies timestamp::ts_lt(run[b].key.ts, w.active[a].key.ts) by {
            if a < p {
                assert(w.active[a] == s.active[a]);
            } else if a > p {
                assert(w.active[a] == s.active[a - 1]);
            }
        }
    }
}

/// A write that is later stays so behind an earlier one.
proof fn lemma_stays_latest(s: LsmView, r: RecordView, x: RecordView)
    requires
        is_latest(s, x),
        r.key == x.key ==> timestamp::ts_lt(r.ts, x.ts),
    ensures
        is_latest(s.written(r), x),
{
    let w = s.written(r);
    let k = key::KeyView { user: r.key, ts: r.ts };
    let p = key::place(s.active, k);
    key::lemma_place(s.active, k);
    assert forall|a: int|
        0 <= a < w.active.len() && (#[trigger] w.active[a]).key.user == x.key implies timestamp::ts_lt(
        w.active[a].key.ts,
        x.ts,
    ) by {
        if a < p {
            assert(w.active[a] == s.active[a]);
        } else if a > p {
            assert(w.active[a] == s.active[a - 1]);
        }
    }
}

/// The recent writes become the newest table.
proof fn lemma_table_on_top(s: LsmView, t: TableView, u: LsmView)
    requires
        arranged(s),
        s.next_file_id < u64::MAX,
        t.ok(),
        t.run() == s.active,
        u.dir == s.dir,
        u.active.len() == 0,
        u.next_file_id == s.next_file_id + 1,
        u.levels == s.levels.update(
            0,
            seq![Slot { path: lsm_model::table_path(s.dir, s.next_file_id), table: t }]
                + s.levels[0],
        ),
    ensures
        arranged(u),
        forall|x: RecordView| #[trigger] is_latest(s, x) ==> is_latest(u, x),
{
    let top = Slot { path: lsm_model::table_path(s.dir, s.next_file_id), table: t };
    assert(u.levels[0] == seq![top] + s.levels[0]);
    assert forall|i: int, j: int|
        0 <= i < u.levels.len() && 0 <= j < u.levels[i].len() implies #[trigger] u.levels[i][j]
        == (if i > 0 {
        s.levels[i][j]
    } else if j == 0 {
        top
    } else {
        s.levels[0][j - 1]
    }) by {}
    assert(on_top(u.active, u.levels));
    assert forall|i: int| 0 <= i < 7 implies lsm_laws::sound(#[trigger] u.levels[i]) by {
        assert(lsm_laws::sound(s.levels[i]));
        if i == 0 {
            assert forall|j: int| 0 <= j < u.levels[0].len() implies (
            #[trigger] u.levels[0][j]).table.ok() && reader::distinct_keys(
                u.levels[0][j].table.run(),
            ) by {
                if j > 0 {
                    assert(u.levels[0][j] == s.levels[0][j - 1]);
                }
            }
        } else {
            assert(u.levels[i] == s.levels[i]);
        }
    }
    assert(stacked(u.levels)) by {
        assert forall|i: int, j: int, k: int, l: int|
            #![trigger u.levels[i][j], u.levels[k][l]]
            0 <= i < u.levels.len() && 0 <= j < u.levels[i].len() && 0 <= k < u.levels.len() && 0
                <= l < u.levels[k].len() && (i < k || (i == k && j < l)) implies newer(
            u.levels[i][j].table.run(),
            u.levels[k][l].table.run(),
        ) by {
            let b = if k == 0 {
                l - 1
            } else {
                l
            };
            assert(u.levels[k][l] == s.levels[k][b]);
            if i == 0 && j == 0 {
                assert(newer(s.active, s.levels[k][b].table.run()));
            } else {
                let a = if i == 0 {
                    j - 1
                } else {
                    j
                };
                assert(u.levels[i][j] == s.levels[i][a]);
                assert(newer(s.levels[i][a].table.run(), s.levels[k][b].table.run()));
            }
        }
    }
    assert forall|i: int| 1 <= i < 7 implies all_apart(#[trigger] u.levels[i]) by {
        assert(all_apart(s.levels[i]));
    }
    assert(all_named(u.levels, u.dir, u.next_file_id as int)) by {
        assert forall|i: int, j: int|
            0 <= i < u.levels.len() && 0 <= j < u.levels[i].len() implies named(
            #[trigger] u.levels[i][j],
            u.dir,
            u.next_file_id as int,
        ) by {
            if i == 0 && j == 0 {
                assert(top.path == lsm_model::table_path(u.dir, s.next_file_id));
            } else {
                let a = if i == 0 {
                    j - 1
                } else {
                    j
                };
                assert(named(s.levels[i][a], s.dir, s.next_file_id as int));
                let id = choose|id: u64|
                    id < s.next_file_id && s.levels[i][a].path == #[trigger] lsm_model::table_path(
                        s.dir,
                        id,
                    );
                assert(u.levels[i][j].path == lsm_model::table_path(u.dir, id));
            }
        }
    }
    assert forall|x: RecordView| #[trigger] is_latest(s, x) implies is_latest(u, x) by {
        assert forall|i: int, j: int|
            0 <= i < u.levels.len() && 0 <= j < u.levels[i].len() implies behind(
            (#[trigger] u.levels[i][j]).table.run(),
            x,
        ) by {
            if i > 0 || j > 0 {
                let a = if i == 0 {
                    j - 1
                } else {
                    j
                };
                assert(behind(s.levels[i][a].table.run(), x));
            }
        }
    }
}

/// A flush keeps the order.
pub proof fn lemma_flush_keeps_order(s: LsmView, t: TableView)
    requires
        arranged(s),
        s.next_file_id < u64::MAX,
        t.ok(),
        t.run() == s.active,
    ensures
        arranged(s.flushed(t)),
        forall|x: RecordView| #[trigger] is_latest(s, x) ==> is_latest(s.flushed(t), x),
{
    lemma_table_on_top(s, t, s.flushed(t));
}

proof fn lemma_after_write_order<F: Fn(usize) -> (usize, usize)>(
    f: F,
    s: LsmView,
    r: RecordView,
    t: LsmView,
)
    requires
        arranged(s),
        is_latest(s, r),
        s.next_file_id < u64::MAX,
        lsm_model::after_write(f, s, r, t),
    ensures
        arranged(t),
        t.next_file_id <= s.next_file_id + 1,
        forall|x: RecordView| #[trigger]
            is_latest(s, x) && (r.key == x.key ==> timestamp::ts_lt(r.ts, x.ts)) ==> is_latest(t, x),
{
    let w = s.written(r);
    lemma_write_keeps_order(s, r);
    assert forall|x: RecordView| #[trigger]
        is_latest(s, x) && (r.key == x.key ==> timestamp::ts_lt(r.ts, x.ts)) implies is_latest(
        w,
        x,
    ) by {
        lemma_stays_latest(s, r, x);
    }
    if !r.is_delete && w.active_bytes >= s.max_memtable_size {
        let made = choose|made: TableView|
            #![trigger w.flushed(made)]
            lsm_model::built(f, made, w.active) && t == w.flushed(made);
        lemma_flush_keeps_order(w, made);
    }
}

/// Writes that are later than all that is there of their keys keep the order, also
/// where the recent ones become tables in between. File numbers do not run out.
pub proof fn lemma_writes_keep_order<F: Fn(usize) -> (usize, usize)>(
    f: F,
    s: LsmView,
    rs: Seq<RecordView>,
    t: LsmView,
)
    requires
        arranged(s),
        are_latest(s, rs),
        s.next_file_id + rs.len() <= u64::MAX,
        lsm_model::after_writes(f, s, rs, t),
    ensures
        arranged(t),
        t.next_file_id <= s.next_file_id + rs.len(),
        forall|x: RecordView| #[trigger]
            is_latest(s, x) && (forall|i: int|
                0 <= i < rs.len() && (#[trigger] rs[i]).key == x.key ==> timestamp::ts_lt(
                    rs[i].ts,
                    x.ts,
                )) ==> is_latest(t, x),
    decreases rs.len(),
{
    if rs.len() > 0 {
        let most = rs.drop_last();
        let r = rs[rs.len() - 1];
        let mid = choose|mid: LsmView|
            lsm_model::after_writes(f, s, most, mid) && #[trigger] lsm_model::after_write(
                f,
                mid,
                rs.last(),
                t,
            );
        recovery_laws::lemma_part_rises(rs, 0, rs.len() - 1);
        assert(rs.subrange(0, rs.len() - 1) =~= most);
        assert forall|i: int| 0 <= i < most.len() implies is_latest(s, #[trigger] most[i]) by {
            assert(most[i] == rs[i]);
        }
        lemma_writes_keep_order(f, s, most, mid);
        assert(is_latest(s, r));
        assert forall|i: int|
            0 <= i < most.len() && (#[trigger] most[i]).key == r.key implies timestamp::ts_lt(
            most[i].ts,
            r.ts,
        ) by {
            assert(most[i] == rs[i]);
        }
        assert(is_latest(mid, r));
        lemma_after_write_order(f, mid, r, t);
        assert forall|x: RecordView| #[trigger]
            is_latest(s, x) && (forall|i: int|
                0 <= i < rs.len() && (#[trigger] rs[i]).key == x.key ==> timestamp::ts_lt(
                    rs[i].ts,
                    x.ts,
                )) implies is_latest(t, x) by {
            assert forall|i: int|
                0 <= i < most.len() && (#[trigger] most[i]).key == x.key implies timestamp::ts_lt(
                most[i].ts,
                x.ts,
            ) by {
                assert(most[i] == rs[i]);
            }
            assert(is_latest(mid, x));
        }
    }
}

// ----------------------------------------------------------------------
// Different versions
// ----------------------------------------------------------------------
/// No table holds a version twice, nor do the recent writes.
pub open spec fn all_differ(s: LsmView) -> bool {
    &&& key::sorted(s.active)
    &&& reader::distinct_keys(s.active)
    &&& forall|i: int| 0 <= i < s.levels.len() ==> lsm_laws::sound(#[trigger] s.levels[i])
}

/// The writes are of versions that are not among the recent ones, and of different
/// ones.
pub open spec fn are_new(s: LsmView, rs: Seq<RecordView>) -> bool {
    &&& lsm_laws::writes_differ(rs)
    &&& forall|i: int|
        0 <= i < rs.len() ==> lsm_laws::absent(
            s.active,
            key::KeyView { user: (#[trigger] rs[i]).key, ts: rs[i].ts },
        )
}

/// Where no version is there twice, scans agree with reads.
pub proof fn lemma_different_is_clear(s: LsmView)
    requires
        all_differ(s),
    ensures
        forall|i: int, k: Seq<u8>, as_of: HlcTimestamp|
            0 <= i < s.levels.len() ==> #[trigger] lsm_laws::clear(s.levels[i], k, as_of),
{
    assert forall|i: int, k: Seq<u8>, as_of: HlcTimestamp|
        0 <= i < s.levels.len() implies #[trigger] lsm_laws::clear(s.levels[i], k, as_of) by {
        lsm_laws::lemma_sound_is_clear(s.levels[i], k, as_of);
    }
}

proof fn lemma_write_differs<F: Fn(usize) -> (usize, usize)>(
    f: F,
    s: LsmView,
    r: RecordView,
    t: LsmView,
)
    requires
        all_differ(s),
        s.levels.len() > 0,
        lsm_laws::absent(s.active, (key::KeyView { user: r.key, ts: r.ts })),
        lsm_model::after_write(f, s, r, t),
    ensures
        all_differ(t),
        t.levels.len() == s.levels.len(),
        forall|k: key::KeyView| #[trigger]
            lsm_laws::absent(s.active, k) && !lsm_laws::is_of(r, k) ==> lsm_laws::absent(
                t.active,
                k,
            ),
{
    let w = s.written(r);
    let v = key::KeyView { user: r.key, ts: r.ts };
    lsm_laws::lemma_after_write_recent(f, s, r, t, v);
    assert forall|k: key::KeyView| #[trigger]
        lsm_laws::absent(s.active, k) && !lsm_laws::is_of(r, k) implies lsm_laws::absent(
        t.active,
        k,
    ) by {
        lsm_laws::lemma_after_write_recent(f, s, r, t, k);
    }
    let p = key::place(s.active, v);
    let value = Version {
        key: v,
        value: if r.is_delete {
            None
        } else {
            Some(r.value)
        },
    };
    key::lemma_place(s.active, v);
    key::lemma_insert_sorted(s.active, value);
    assert(w.active == s.active.insert(p, value));
    lemma_insert_new(s.active, p, value);
    if t != w {
        let made = choose|made: TableView|
            #![trigger w.flushed(made)]
            lsm_model::built(f, made, w.active) && t == w.flushed(made);
        assert forall|i: int| 0 <= i < t.levels.len() implies lsm_laws::sound(
            #[trigger] t.levels[i],
        ) by {
            assert(lsm_laws::sound(s.levels[i]));
            assert forall|j: int| 0 <= j < t.levels[i].len() implies (
            #[trigger] t.levels[i][j]).table.ok() && reader::distinct_keys(
                t.levels[i][j].table.run(),
            ) by {
                if i > 0 {
                    assert(t.levels[i][j] == s.levels[i][j]);
                } else if j > 0 {
                    assert(t.levels[0][j] == s.levels[0][j - 1]);
                } else {
                    assert(t.levels[0][0].table == made);
                }
            }
        }
    }
}

proof fn lemma_insert_new(run: Seq<Version>, p: int, v: Version)
    requires
        0 <= p <= run.len(),
        reader::distinct_keys(run),
        lsm_laws::absent(run, v.key),
    ensures
        reader::distinct_keys(run.insert(p, v)),
{
    let out = run.insert(p, v);
    assert forall|i: int, j: int| 0 <= i < j < out.len() implies out[i].key != out[j].key by {
        let a = if i < p {
            i
        } else {
            i - 1
        };
        let b = if j < p {
            j
        } else {
            j - 1
        };
        if i == p {
            assert(out[j] == run[b]);
        } else if j == p {
            assert(out[i] == run[a]);
        } else {
            assert(out[i] == run[a] && out[j] == run[b]);
        }
    }
}

/// Writes of different versions, in whatever order of their times, leave no version
/// twice, also where the recent ones become tables in between.
pub proof fn lemma_different_writes_differ<F: Fn(usize) -> (usize, usize)>(
    f: F,
    s: LsmView,
    rs: Seq<RecordView>,
    t: LsmView,
)
    requires
        all_differ(s),
        s.levels.len() > 0,
        are_new(s, rs),
        lsm_model::after_writes(f, s, rs, t),
    ensures
        all_differ(t),
        t.levels.len() == s.levels.len(),
        forall|k: key::KeyView| #[trigger]
            lsm_laws::absent(s.active, k) && lsm_laws::none_of(rs, k) ==> lsm_laws::absent(
                t.active,
                k,
            ),
    decreases rs.len(),
{
    if rs.len() > 0 {
        let most = rs.drop_last();
        let r = rs[rs.len() - 1];
        let mid = choose|mid: LsmView|
            lsm_model::after_writes(f, s, most, mid) && #[trigger] lsm_model::after_write(
                f,
                mid,
                rs.last(),
                t,
            );
        assert forall|i: int, j: int| 0 <= i < j < most.len() implies (#[trigger] most[i]).key != (
        #[trigger] most[j]).key || most[i].ts != most[j].ts by {
            assert(most[i] == rs[i] && most[j] == rs[j]);
        }
        assert forall|i: int| 0 <= i < most.len() implies lsm_laws::absent(
            s.active,
            key::KeyView { user: (#[trigger] most[i]).key, ts: most[i].ts },
        ) by {
            assert(most[i] == rs[i]);
        }
        lemma_different_writes_differ(f, s, most, mid);
        let v = key::KeyView { user: r.key, ts: r.ts };
        assert(lsm_laws::absent(s.active, v));
        assert forall|i: int| 0 <= i < most.len() implies !lsm_laws::is_of(
            #[trigger] most[i],
            v,
        ) by {
            assert(most[i] == rs[i]);
        }
        lemma_write_differs(f, mid, r, t);
        assert forall|k: key::KeyView| #[trigger]
            lsm_laws::absent(s.active, k) && lsm_laws::none_of(rs, k) implies lsm_laws::absent(
            t.active,
            k,
        ) by {
            assert forall|i: int| 0 <= i < most.len() implies !lsm_laws::is_of(
                #[trigger] most[i],
                k,
            ) by {
                assert(most[i] == rs[i]);
            }
            assert(lsm_laws::absent(mid.active, k));
            assert(!lsm_laws::is_of(rs[rs.len() - 1], k));
        }
    }
}

// ----------------------------------------------------------------------
// Opening again
// ----------------------------------------------------------------------
proof fn lemma_wrote_order(s: LsmView, rs: Seq<RecordView>)
    requires
        arranged(s),
        are_latest(s, rs),
    ensures
        arranged(lsm_laws::wrote(s, rs)),
        forall|x: RecordView| #[trigger]
            is_latest(s, x) && (forall|i: int|
                0 <= i < rs.len() && (#[trigger] rs[i]).key == x.key ==> timestamp::ts_lt(
                    rs[i].ts,
                    x.ts,
                )) ==> is_latest(lsm_laws::wrote(s, rs), x),
    decreases rs.len(),
{
    if rs.len() > 0 {
        let most = rs.drop_last();
        let r = rs[rs.len() - 1];
        let mid = lsm_laws::wrote(s, most);
        recovery_laws::lemma_part_rises(rs, 0, rs.len() - 1);
        assert(rs.subrange(0, rs.len() - 1) =~= most);
        assert forall|i: int| 0 <= i < most.len() implies is_latest(s, #[trigger] most[i]) by {
            assert(most[i] == rs[i]);
        }
        lemma_wrote_order(s, most);
        assert(is_latest(s, r));
        assert forall|i: int|
            0 <= i < most.len() && (#[trigger] most[i]).key == r.key implies timestamp::ts_lt(
            most[i].ts,
            r.ts,
        ) by {
            assert(most[i] == rs[i]);
        }
        assert(is_latest(mid, r));
        lemma_write_keeps_order(mid, r);
        assert forall|x: RecordView| #[trigger]
            is_latest(s, x) && (forall|i: int|
                0 <= i < rs.len() && (#[trigger] rs[i]).key == x.key ==> timestamp::ts_lt(
                    rs[i].ts,
                    x.ts,
                )) implies is_latest(lsm_laws::wrote(s, rs), x) by {
            assert forall|i: int|
                0 <= i < most.len() && (#[trigger] most[i]).key == x.key implies timestamp::ts_lt(
                most[i].ts,
                x.ts,
            ) by {
                assert(most[i] == rs[i]);
            }
            assert(is_latest(mid, x));
            lemma_stays_latest(mid, r, x);
        }
    }
}

proof fn lemma_log_order(s: LsmView, rs: Seq<RecordView>, t: TableView, clean_up: DiskOpView)
    requires
        arranged(s),
        s.active.len() == 0,
        are_latest(s, rs),
        s.next_file_id < u64::MAX,
        t.ok(),
        t.run() == lsm_model::replayed(rs),
    ensures
        arranged(s.with_recovered(t, clean_up)),
        forall|x: RecordView| #[trigger]
            is_latest(s, x) && (forall|i: int|
                0 <= i < rs.len() && (#[trigger] rs[i]).key == x.key ==> timestamp::ts_lt(
                    rs[i].ts,
                    x.ts,
                )) ==> is_latest(s.with_recovered(t, clean_up), x),
{
    let w = lsm_laws::wrote(s, rs);
    lemma_wrote_order(s, rs);
    lsm_laws::lemma_wrote_is_replayed(s, rs);
    lemma_table_on_top(w, t, s.with_recovered(t, clean_up));
}

proof fn lemma_frozen_order<F: Fn(usize) -> (usize, usize)>(
    f: F,
    s: LsmView,
    logs: Seq<(Seq<u8>, Seq<RecordView>)>,
    made: Seq<TableView>,
)
    requires
        arranged(s),
        s.active.len() == 0,
        are_latest(s, recovery_laws::joined(logs)),
        recovery_laws::all_fit(recovery_laws::joined(logs)),
        s.next_file_id + logs.len() <= u64::MAX,
        logs.len() <= made.len(),
        forall|i: int|
            0 <= i < logs.len() ==> lsm_model::built(
                f,
                #[trigger] made[i],
                lsm_model::replayed(wal::recovered(recovery_laws::files_of(logs)[i].1)),
            ),
    ensures
        arranged(s.with_frozen(recovery_laws::files_of(logs), made)),
        s.with_frozen(recovery_laws::files_of(logs), made).active.len() == 0,
        s.with_frozen(recovery_laws::files_of(logs), made).next_file_id == s.next_file_id
            + logs.len(),
        forall|x: RecordView| #[trigger]
            is_latest(s, x) && (forall|i: int|
                0 <= i < recovery_laws::joined(logs).len() && (#[trigger] recovery_laws::joined(
                    logs,
                )[i]).key == x.key ==> timestamp::ts_lt(recovery_laws::joined(logs)[i].ts, x.ts))
                ==> is_latest(s.with_frozen(recovery_laws::files_of(logs), made), x),
    decreases logs.len(),
{
    if logs.len() > 0 {
        let most = logs.drop_last();
        let rs = logs.last().1;
        let before = recovery_laws::joined(most);
        let n = before.len() as int;
        let all = recovery_laws::joined(logs);
        let files = recovery_laws::files_of(logs);
        recovery_laws::lemma_part_rises(all, 0, n);
        recovery_laws::lemma_part_rises(all, n, all.len() as int);
        assert(all.subrange(0, n) =~= before);
        assert(all.subrange(n, all.len() as int) =~= rs);
        assert forall|i: int| 0 <= i < before.len() implies wal::fits(#[trigger] before[i])
            && is_latest(s, before[i]) by {
            assert(before[i] == all[i]);
        }
        assert forall|i: int| 0 <= i < rs.len() implies wal::fits(#[trigger] rs[i]) && is_latest(
            s,
            rs[i],
        ) by {
            assert(rs[i] == all[n + i]);
        }
        assert(files.drop_last() =~= recovery_laws::files_of(most));
        assert forall|i: int| 0 <= i < most.len() implies lsm_model::built(
            f,
            #[trigger] made[i],
            lsm_model::replayed(wal::recovered(recovery_laws::files_of(most)[i].1)),
        ) by {
            assert(recovery_laws::files_of(most)[i] == files[i]);
        }
        lemma_frozen_order(f, s, most, made);
        let m = s.with_frozen(recovery_laws::files_of(most), made);
        let t = made[logs.len() - 1];
        assert(lsm_model::built(
            f,
            t,
            lsm_model::replayed(wal::recovered(files[logs.len() - 1].1)),
        ));
        recovery_laws::lemma_whole_log(rs);
        assert forall|i: int| 0 <= i < rs.len() implies is_latest(m, #[trigger] rs[i]) by {
            let x = rs[i];
            assert(is_latest(s, x));
            assert forall|j: int|
                0 <= j < before.len() && (#[trigger] before[j]).key == x.key implies timestamp::ts_lt(
                before[j].ts,
                x.ts,
            ) by {
                assert(before[j] == all[j] && x == all[n + i]);
            }
        }
        lemma_log_order(m, rs, t, DiskOpView::Remove(files.last().0));
        assert forall|x: RecordView| #[trigger]
            is_latest(s, x) && (forall|i: int|
                0 <= i < all.len() && (#[trigger] all[i]).key == x.key ==> timestamp::ts_lt(
                    all[i].ts,
                    x.ts,
                )) implies is_latest(s.with_frozen(files, made), x) by {
            assert forall|j: int|
                0 <= j < before.len() && (#[trigger] before[j]).key == x.key implies timestamp::ts_lt(
                before[j].ts,
                x.ts,
            ) by {
                assert(before[j] == all[j]);
            }
            assert forall|j: int|
                0 <= j < rs.len() && (#[trigger] rs[j]).key == x.key implies timestamp::ts_lt(
                rs[j].ts,
                x.ts,
            ) by {
                assert(rs[j] == all[n + j]);
            }
            assert(is_latest(m, x));
        }
    }
}

/// An engine that is opened again over its tables, its frozen logs and its log, cut
/// anywhere, is in order if its tables are and the logged writes are later than what
/// they hold.
#[verifier::spinoff_prover]
#[verifier::rlimit(60)]
pub proof fn lemma_reopening_keeps_order<F: Fn(usize) -> (usize, usize)>(
    f: F,
    s: LsmView,
    logs: Seq<(Seq<u8>, Seq<RecordView>)>,
    rs: Seq<RecordView>,
    cut: nat,
    made: Seq<TableView>,
)
    requires
        arranged(s),
        s.active.len() == 0,
        are_latest(s, recovery_laws::joined(logs) + rs),
        recovery_laws::all_fit(recovery_laws::joined(logs) + rs),
        s.next_file_id + logs.len() < u64::MAX,
        cut <= wal::log_bytes(rs).len(),
        lsm_model::made_of(
            f,
            recovery_laws::files_of(logs),
            wal::log_bytes(rs).take(cut as int),
            made,
        ),
    ensures
        arranged(
            lsm_laws::reopened(
                s,
                recovery_laws::files_of(logs),
                wal::log_bytes(rs).take(cut as int),
                made,
            ),
        ),
{
    let before = recovery_laws::joined(logs);
    let all = before + rs;
    let k = before.len() as int;
    let n = wal::whole_before(rs, cut as int);
    assert forall|i: int| 0 <= i < rs.len() implies wal::fits(#[trigger] rs[i]) && is_latest(
        s,
        rs[i],
    ) by {
        assert(rs[i] == all[k + i]);
    }
    assert forall|i: int| 0 <= i < before.len() implies wal::fits(#[trigger] before[i])
        && is_latest(s, before[i]) by {
        assert(before[i] == all[i]);
    }
    wal::lemma_recovery_of_cut_log(rs, cut);
    wal::lemma_whole_before(rs, cut as int);
    let kept = rs.take(n);
    recovery_laws::lemma_part_rises(all, 0, k);
    recovery_laws::lemma_part_rises(all, k, k + n);
    assert(all.subrange(0, k) =~= before);
    assert(all.subrange(k, k + n) =~= kept);
    let base = lsm_laws::bare(s);
    assert(base.active =~= s.active);
    assert(arranged(base));
    assert forall|x: RecordView| #[trigger] is_latest(s, x) implies is_latest(base, x) by {}
    assert forall|i: int| 0 <= i < before.len() implies is_latest(base, #[trigger] before[i]) by {
        assert(is_latest(s, before[i]));
    }
    lemma_frozen_order(f, base, logs, made);
    let m = base.with_frozen(recovery_laws::files_of(logs), made);
    if kept.len() > 0 {
        let t = made[logs.len() as int];
        assert(lsm_model::built(f, t, lsm_model::replayed(kept)));
        assert forall|i: int| 0 <= i < kept.len() implies is_latest(m, #[trigger] kept[i]) by {
            let x = kept[i];
            assert(x == rs[i]);
            assert(is_latest(s, x));
            assert(is_latest(base, x));
            assert forall|j: int|
                0 <= j < before.len() && (#[trigger] before[j]).key == x.key implies timestamp::ts_lt(
                before[j].ts,
                x.ts,
            ) by {
                assert(before[j] == all[j] && x == all[k + i]);
            }
        }
        lemma_log_order(m, kept, t, DiskOpView::ResetLog);
    }
}

// ----------------------------------------------------------------------
// Compaction
// ----------------------------------------------------------------------
/// Of each key all versions are in one of the runs: no table was cut between two
/// versions of a key.
pub open spec fn keys_whole(runs: Seq<Seq<Version>>) -> bool {
    forall|i: int, j: int, key: Seq<u8>|
        0 <= i < j < runs.len() && #[trigger] lsm_laws::has_key(runs[i], key)
            && #[trigger] lsm_laws::has_key(runs[j], key) ==> false
}

/// A version that is in the level or in the one below.
pub open spec fn is_from(s: LsmView, level: int, v: Version) -> bool {
    exists|i: int, j: int, y: int|
        #![trigger s.levels[i][j].table.run()[y]]
        level <= i <= level + 1 && 0 <= j < s.levels[i].len() && 0 <= y
            < s.levels[i][j].table.run().len() && s.levels[i][j].table.run()[y] == v
}

/// All versions of the run are in the level or in the one below.
pub open spec fn drawn(s: LsmView, level: int, run: Seq<Version>) -> bool {
    forall|p: int| 0 <= p < run.len() ==> is_from(s, level, #[trigger] run[p])
}

proof fn lemma_new_runs_drawn(s: LsmView, level: int, watermark: HlcTimestamp, i: int)
    requires
        s.levels.len() == 7,
        0 <= level < 6,
        0 <= i < s.new_runs(level, watermark).len(),
    ensures
        drawn(s, level, s.new_runs(level, watermark)[i]),
{
    let run = s.new_runs(level, watermark)[i];
    let merged = s.merged_tables(level);
    assert forall|p: int| 0 <= p < run.len() implies is_from(s, level, #[trigger] run[p]) by {
        let at = lsm_laws::lemma_new_runs_versions(
            lsm_model::slot_runs(merged),
            watermark,
            level + 1 == 6,
            lsm_model::MAX_FILE_SIZE,
            i,
            p,
        );
        let place = lemma_merged_slot(s, level, at.0);
        assert(s.levels[place.0][place.1].table.run()[at.1] == run[p]);
    }
}

/// The tables that are merged are tables of the level, or such of the one below as
/// overlap it.
proof fn lemma_merged_slot(s: LsmView, level: int, a: int) -> (at: (int, int))
    requires
        s.levels.len() == 7,
        0 <= level < 6,
        0 <= a < s.merged_tables(level).len(),
    ensures
        level <= at.0 <= level + 1,
        0 <= at.1 < s.levels[at.0].len(),
        s.levels[at.0][at.1] == s.merged_tables(level)[a],
        at.0 == level + 1 ==> lsm_model::overlaps(
            s.levels[at.0][at.1],
            lsm_model::least_min(s.levels[level]),
            lsm_model::greatest_max(s.levels[level]),
        ),
{
    let inputs = s.levels[level];
    let below = s.levels[level + 1];
    let hit = |x: Slot|
        lsm_model::overlaps(x, lsm_model::least_min(inputs), lsm_model::greatest_max(inputs));
    assert(lsm_model::overlapping(inputs, below) == below.filter(hit));
    if a < inputs.len() {
        (level, a)
    } else {
        let b = a - inputs.len();
        lsm_model::lemma_filter_from(below, hit, b);
        lsm_laws::lemma_filter_picks(below, hit, b);
        let q = choose|q: int| 0 <= q < below.len() && below[q] == below.filter(hit)[b];
        (level + 1, q)
    }
}

proof fn lemma_drawn_order(s: LsmView, level: int, run: Seq<Version>)
    requires
        arranged(s),
        0 <= level < 6,
        drawn(s, level, run),
    ensures
        newer(s.active, run),
        forall|i: int, j: int|
            0 <= i < level && 0 <= j < s.levels[i].len() ==> newer(
                (#[trigger] s.levels[i][j]).table.run(),
                run,
            ),
        forall|k: int, l: int|
            level + 1 < k < 7 && 0 <= l < s.levels[k].len() ==> newer(
                run,
                (#[trigger] s.levels[k][l]).table.run(),
            ),
        forall|x: RecordView| #[trigger] is_latest(s, x) ==> behind(run, x),
{
    assert forall|p: int, q: int|
        #![trigger s.active[p], run[q]]
        0 <= p < s.active.len() && 0 <= q < run.len() && s.active[p].key.user
            == run[q].key.user implies timestamp::ts_lt(run[q].key.ts, s.active[p].key.ts) by {
        let (a, b, y) = lemma_place_of(s, level, run[q]);
        assert(newer(s.active, s.levels[a][b].table.run()));
    }
    assert forall|i: int, j: int| 0 <= i < level && 0 <= j < s.levels[i].len() implies newer(
        (#[trigger] s.levels[i][j]).table.run(),
        run,
    ) by {
        let up = s.levels[i][j].table.run();
        assert forall|p: int, q: int|
            #![trigger up[p], run[q]]
            0 <= p < up.len() && 0 <= q < run.len() && up[p].key.user
                == run[q].key.user implies timestamp::ts_lt(run[q].key.ts, up[p].key.ts) by {
            let (a, b, y) = lemma_place_of(s, level, run[q]);
            assert(newer(up, s.levels[a][b].table.run()));
        }
    }
    assert forall|k: int, l: int| level + 1 < k < 7 && 0 <= l < s.levels[k].len() implies newer(
        run,
        (#[trigger] s.levels[k][l]).table.run(),
    ) by {
        let low = s.levels[k][l].table.run();
        assert forall|p: int, q: int|
            #![trigger run[p], low[q]]
            0 <= p < run.len() && 0 <= q < low.len() && run[p].key.user
                == low[q].key.user implies timestamp::ts_lt(low[q].key.ts, run[p].key.ts) by {
            let (a, b, y) = lemma_place_of(s, level, run[p]);
            assert(newer(s.levels[a][b].table.run(), low));
        }
    }
    assert forall|x: RecordView| #[trigger] is_latest(s, x) implies behind(run, x) by {
        assert forall|p: int|
            0 <= p < run.len() && (#[trigger] run[p]).key.user == x.key implies timestamp::ts_lt(
            run[p].key.ts,
            x.ts,
        ) by {
            let (a, b, y) = lemma_place_of(s, level, run[p]);
            assert(behind(s.levels[a][b].table.run(), x));
        }
    }
}

proof fn lemma_place_of(s: LsmView, level: int, v: Version) -> (at: (int, int, int))
    requires
        is_from(s, level, v),
    ensures
        level <= at.0 <= level + 1,
        0 <= at.1 < s.levels[at.0].len(),
        0 <= at.2 < s.levels[at.0][at.1].table.run().len(),
        s.levels[at.0][at.1].table.run()[at.2] == v,
{
    choose|i: int, j: int, y: int|
        #![trigger s.levels[i][j].table.run()[y]]
        level <= i <= level + 1 && 0 <= j < s.levels[i].len() && 0 <= y
            < s.levels[i][j].table.run().len() && s.levels[i][j].table.run()[y] == v
}

pub(crate) proof fn lemma_id_after(id: u64, n: nat)
    requires
        id + n <= u64::MAX,
    ensures
        lsm_model::id_after(id, n) == id + n,
    decreases n,
{
    if n > 0 {
        lemma_id_after(id, (n - 1) as nat);
    }
}

pub(crate) proof fn lemma_new_paths(dir: Seq<u8>, id: u64, made: Seq<TableView>, i: int)
    requires
        id + made.len() <= u64::MAX,
        0 <= i < made.len(),
    ensures
        lsm_model::new_slots(dir, id, made).len() == made.len(),
        lsm_model::new_slots(dir, id, made)[i].path == lsm_model::table_path(dir, (id + i) as u64),
    decreases made.len(),
{
    lsm_model::lemma_new_slots(dir, id, made);
    lsm_model::lemma_new_slots(dir, id, made.drop_last());
    if i < made.len() - 1 {
        lemma_new_paths(dir, id, made.drop_last(), i);
    } else {
        lemma_id_after(id, i as nat);
    }
}

/// Different file numbers give different paths.
pub proof fn lemma_paths_tell_apart(dir: Seq<u8>, a: u64, b: u64)
    requires
        a != b,
    ensures
        lsm_model::table_path(dir, a) != lsm_model::table_path(dir, b),
{
    let x = decimal::decimal(a as nat);
    let y = decimal::decimal(b as nat);
    let p = lsm_model::table_path(dir, a);
    let q = lsm_model::table_path(dir, b);
    decimal::lemma_decimal(a as nat);
    decimal::lemma_decimal(b as nat);
    assert(p.subrange(dir.len() as int, p.len() - 4) =~= x);
    assert(q.subrange(dir.len() as int, q.len() - 4) =~= y);
}

proof fn lemma_insert_apart(ts: Seq<Slot>, s: Slot)
    requires
        all_apart(ts),
        forall|i: int| 0 <= i < ts.len() ==> apart(#[trigger] ts[i], s),
    ensures
        all_apart(lsm_model::insert_by_min(ts, s)),
    decreases ts.len(),
{
    let out = lsm_model::insert_by_min(ts, s);
    if ts.len() > 0 && bytes::lex_lt(s.table.min.user, ts.last().table.min.user) {
        let front = ts.drop_last();
        let last = ts[ts.len() - 1];
        assert forall|i: int, j: int| 0 <= i < j < front.len() implies apart(
            #[trigger] front[i],
            #[trigger] front[j],
        ) by {
            assert(front[i] == ts[i] && front[j] == ts[j]);
        }
        assert forall|i: int| 0 <= i < front.len() implies apart(#[trigger] front[i], s) by {
            assert(front[i] == ts[i]);
        }
        lemma_insert_apart(front, s);
        let inner = lsm_model::insert_by_min(front, s);
        lsm_laws::lemma_insert_from(front, s);
        assert forall|i: int, j: int| 0 <= i < j < out.len() implies apart(
            #[trigger] out[i],
            #[trigger] out[j],
        ) by {
            assert(out[i] == inner[i]);
            if j < inner.len() {
                assert(out[j] == inner[j]);
            } else {
                assert(out[j] == last);
                assert(apart(last, s));
                if inner[i] != s {
                    let k = choose|k: int| 0 <= k < front.len() && front[k] == inner[i];
                    assert(apart(ts[k], ts[ts.len() - 1]));
                }
            }
        }
    } else {
        assert forall|i: int, j: int| 0 <= i < j < out.len() implies apart(
            #[trigger] out[i],
            #[trigger] out[j],
        ) by {
            assert(out[i] == ts[i]);
            if j < ts.len() {
                assert(out[j] == ts[j]);
            }
        }
    }
}

proof fn lemma_sorted_apart(ts: Seq<Slot>)
    requires
        all_apart(ts),
    ensures
        all_apart(lsm_model::sorted_by_min(ts)),
    decreases ts.len(),
{
    if ts.len() > 0 {
        let front = ts.drop_last();
        let last = ts[ts.len() - 1];
        assert forall|i: int, j: int| 0 <= i < j < front.len() implies apart(
            #[trigger] front[i],
            #[trigger] front[j],
        ) by {
            assert(front[i] == ts[i] && front[j] == ts[j]);
        }
        lemma_sorted_apart(front);
        let sorted = lsm_model::sorted_by_min(front);
        lsm_laws::lemma_sorted_from(front);
        assert forall|i: int| 0 <= i < sorted.len() implies apart(#[trigger] sorted[i], last) by {
            assert(front.contains(sorted[i]));
            let k = choose|k: int| 0 <= k < front.len() && front[k] == sorted[i];
            assert(apart(ts[k], ts[ts.len() - 1]));
        }
        lemma_insert_apart(sorted, last);
    }
}

/// A table below that stays has no key in common with the new ones.
proof fn lemma_stays_apart(s: LsmView, level: int, watermark: HlcTimestamp, q: int, i: int)
    requires
        arranged(s),
        s.compacts(level),
        0 <= q < s.levels[level + 1].len(),
        !lsm_model::names_path(
            lsm_model::overlapping(s.levels[level], s.levels[level + 1]),
            s.levels[level + 1][q].path,
        ),
        0 <= i < s.new_runs(level, watermark).len(),
    ensures
        forall|key: Seq<u8>|
            !(#[trigger] lsm_laws::has_key(s.levels[level + 1][q].table.run(), key)
                && #[trigger] lsm_laws::has_key(s.new_runs(level, watermark)[i], key)),
{
    let inputs = s.levels[level];
    let below = s.levels[level + 1];
    let kept = below[q].table.run();
    let run = s.new_runs(level, watermark)[i];
    lemma_arranged_is_orderly(s, level);
    lsm_laws::lemma_stay(below, inputs, q);
    assert(lsm_laws::sound(inputs) && lsm_laws::sound(below));
    assert forall|key: Seq<u8>|
        !(#[trigger] lsm_laws::has_key(kept, key) && #[trigger] lsm_laws::has_key(run, key)) by {
        if lsm_laws::has_key(kept, key) && lsm_laws::has_key(run, key) {
            let p = choose|p: int| 0 <= p < run.len() && (#[trigger] run[p]).key.user == key;
            let at = lsm_laws::lemma_new_runs_versions(
                lsm_model::slot_runs(s.merged_tables(level)),
                watermark,
                level + 1 == 6,
                lsm_model::MAX_FILE_SIZE,
                i,
                p,
            );
            let place = lemma_merged_slot(s, level, at.0);
            let from = s.levels[place.0][place.1];
            assert(from.table.run()[at.1].key.user == key);
            assert(lsm_laws::has_key(from.table.run(), key));
            if place.0 == level {
                lsm_laws::lemma_shared_key_overlaps(inputs, below[q], place.1, key);
            } else {
                assert(place.1 != q);
                assert(all_apart(below));
                if place.1 < q {
                    assert(apart(below[place.1], below[q]));
                } else {
                    assert(apart(below[q], below[place.1]));
                }
            }
        }
    }
}

/// The tables that stay below and the new ones are apart.
proof fn lemma_new_level_apart(
    s: LsmView,
    level: int,
    watermark: HlcTimestamp,
    made: Seq<TableView>,
    stay: Seq<Slot>,
    fresh: Seq<Slot>,
)
    requires
        arranged(s),
        s.compacts(level),
        keys_whole(s.new_runs(level, watermark)),
        s.next_file_id + made.len() <= u64::MAX,
        lsm_laws::made_from(made, s.new_runs(level, watermark)),
        stay == s.levels[level + 1].filter(
            |x: Slot|
                !lsm_model::names_path(
                    lsm_model::overlapping(s.levels[level], s.levels[level + 1]),
                    x.path,
                ),
        ),
        fresh == lsm_model::new_slots(s.dir, s.next_file_id, made),
    ensures
        all_apart(stay + fresh),
{
    let inputs = s.levels[level];
    let below = s.levels[level + 1];
    let over = lsm_model::overlapping(inputs, below);
    let left = |x: Slot| !lsm_model::names_path(over, x.path);
    let ts = stay + fresh;
    let pieces = s.new_runs(level, watermark);
    assert(stay =~= below.filter(left));
    assert(all_apart(below));
    lemma_arranged_is_orderly(s, level);
    lsm_model::lemma_new_slots(s.dir, s.next_file_id, made);
    assert forall|i: int, j: int| 0 <= i < j < ts.len() implies apart(
        #[trigger] ts[i],
        #[trigger] ts[j],
    ) by {
        let n = stay.len() as int;
        if j < n {
            let at = lsm_laws::lemma_filter_order(below, left, i, j);
            assert(apart(below[at.0], below[at.1]));
        } else if i < n {
            lsm_model::lemma_filter_from(below, left, i);
            lsm_laws::lemma_filter_picks(below, left, i);
            let q = choose|q: int| 0 <= q < below.len() && below[q] == below.filter(left)[i];
            lemma_new_paths(s.dir, s.next_file_id, made, j - n);
            assert(named(s.levels[level + 1][q], s.dir, s.next_file_id as int));
            let id = choose|id: u64|
                id < s.next_file_id && below[q].path == #[trigger] lsm_model::table_path(
                    s.dir,
                    id,
                );
            lemma_paths_tell_apart(s.dir, id, (s.next_file_id + (j - n)) as u64);
            assert(made[j - n].run() == pieces[j - n]);
            lemma_stays_apart(s, level, watermark, q, j - n);
        } else {
            lemma_new_paths(s.dir, s.next_file_id, made, i - n);
            lemma_new_paths(s.dir, s.next_file_id, made, j - n);
            lemma_paths_tell_apart(
                s.dir,
                (s.next_file_id + (i - n)) as u64,
                (s.next_file_id + (j - n)) as u64,
            );
            assert(made[i - n].run() == pieces[i - n] && made[j - n].run() == pieces[j - n]);
        }
    }
}

/// A compaction that cuts no table between two versions of a key keeps the order, and
/// a write that is later than all that is there stays so. File numbers do not run out.
#[verifier::spinoff_prover]
#[verifier::rlimit(60)]
pub proof fn lemma_compaction_keeps_order<F: Fn(usize) -> (usize, usize)>(
    f: F,
    s: LsmView,
    level: int,
    watermark: HlcTimestamp,
    t: LsmView,
)
    requires
        arranged(s),
        lsm_model::after_compaction(f, s, level, watermark, t),
        s.compacts(level) ==> keys_whole(s.new_runs(level, watermark)) && s.next_file_id
            + s.new_runs(level, watermark).len() <= u64::MAX,
    ensures
        arranged(t),
        forall|x: RecordView| #[trigger] is_latest(s, x) ==> is_latest(t, x),
{
    if s.compacts(level) {
        let runs = s.new_runs(level, watermark);
        let made = choose|made: Seq<TableView>|
            #![trigger s.compacted(level, made)]
            made.len() == runs.len() && (forall|i: int|
                0 <= i < made.len() ==> lsm_model::built(f, #[trigger] made[i], runs[i])) && t
                == s.compacted(level, made);
        assert forall|i: int| 0 <= i < made.len() implies (#[trigger] made[i]).ok()
            && made[i].run() == runs[i] by {
            assert(lsm_model::built(f, made[i], runs[i]));
        }
        lemma_id_after(s.next_file_id, made.len());
        lemma_moved_down(s, level, watermark, made, t);
    }
}

/// In an engine in order no compaction is noticed by a read at or after its watermark.
pub proof fn lemma_arranged_reads_stay<F: Fn(usize) -> (usize, usize)>(
    f: F,
    s: LsmView,
    level: int,
    watermark: HlcTimestamp,
    t: LsmView,
    key: Seq<u8>,
    as_of: HlcTimestamp,
)
    requires
        arranged(s),
        lsm_model::after_compaction(f, s, level, watermark, t),
        timestamp::ts_le(watermark, as_of),
    ensures
        t.get(key, as_of) == s.get(key, as_of),
{
    if s.compacts(level) {
        lemma_arranged_is_orderly(s, level);
    }
    lsm_laws::lemma_compaction_is_not_noticed(f, s, level, watermark, t, key, as_of);
}

/// The level has moved down into the next one.
proof fn lemma_moved_down(
    s: LsmView,
    level: int,
    watermark: HlcTimestamp,
    made: Seq<TableView>,
    t: LsmView,
)
    requires
        arranged(s),
        s.compacts(level),
        keys_whole(s.new_runs(level, watermark)),
        s.next_file_id + made.len() <= u64::MAX,
        lsm_laws::made_from(made, s.new_runs(level, watermark)),
        t.dir == s.dir,
        t.active == s.active,
        t.next_file_id == s.next_file_id + made.len(),
        t.levels == s.compacted(level, made).levels,
    ensures
        arranged(t),
        forall|x: RecordView| #[trigger] is_latest(s, x) ==> is_latest(t, x),
{
    let below = s.levels[level + 1];
    let over = lsm_model::overlapping(s.levels[level], below);
    let fresh = lsm_model::new_slots(s.dir, s.next_file_id, made);
    let left = |x: Slot| !lsm_model::names_path(over, x.path);
    let stay = below.filter(left);
    let all = lsm_model::sorted_by_min(stay + fresh);
    assert(t.levels[level] =~= Seq::empty());
    assert(t.levels[level + 1] == all);
    lemma_new_level_apart(s, level, watermark, made, stay, fresh);
    lemma_sorted_apart(stay + fresh);
    lemma_new_level_slots(s, level, watermark, made, stay, fresh);
    assert forall|i: int, j: int|
        0 <= i < 7 && i != level && i != level + 1 && 0 <= j
            < t.levels[i].len() implies #[trigger] t.levels[i][j] == s.levels[i][j] by {}
    assert(on_top(t.active, t.levels)) by {
        assert forall|i: int, j: int| 0 <= i < 7 && 0 <= j < t.levels[i].len() implies newer(
            t.active,
            (#[trigger] t.levels[i][j]).table.run(),
        ) by {
            if i == level + 1 {
                lemma_drawn_order(s, level, all[j].table.run());
            } else {
                assert(newer(s.active, s.levels[i][j].table.run()));
            }
        }
    }
    assert forall|i: int| 0 <= i < 7 implies lsm_laws::sound(#[trigger] t.levels[i]) by {
        assert(lsm_laws::sound(s.levels[i]));
    }
    assert forall|i: int| 1 <= i < 7 implies all_apart(#[trigger] t.levels[i]) by {
        assert(all_apart(s.levels[i]));
    }
    assert(stacked(t.levels)) by {
        assert forall|i: int, j: int, k: int, l: int|
            #![trigger t.levels[i][j], t.levels[k][l]]
            0 <= i < t.levels.len() && 0 <= j < t.levels[i].len() && 0 <= k < t.levels.len() && 0
                <= l < t.levels[k].len() && (i < k || (i == k && j < l)) implies newer(
            t.levels[i][j].table.run(),
            t.levels[k][l].table.run(),
        ) by {
            if i == level + 1 && k == level + 1 {
                assert(apart(all[j], all[l]));
                lemma_apart_newer(all[j], all[l]);
            } else if i == level + 1 {
                lemma_drawn_order(s, level, all[j].table.run());
                assert(t.levels[k][l] == s.levels[k][l]);
            } else if k == level + 1 {
                lemma_drawn_order(s, level, all[l].table.run());
                assert(t.levels[i][j] == s.levels[i][j]);
            } else {
                assert(newer(s.levels[i][j].table.run(), s.levels[k][l].table.run()));
            }
        }
    }
    assert(all_named(t.levels, t.dir, t.next_file_id as int)) by {
        assert forall|i: int, j: int| 0 <= i < 7 && 0 <= j < t.levels[i].len() implies named(
            #[trigger] t.levels[i][j],
            t.dir,
            t.next_file_id as int,
        ) by {
            if i != level + 1 {
                lemma_still_named(
                    s.levels[i][j],
                    s.dir,
                    s.next_file_id as int,
                    t.next_file_id as int,
                );
            }
        }
    }
    assert forall|x: RecordView| #[trigger] is_latest(s, x) implies is_latest(t, x) by {
        assert forall|i: int, j: int| 0 <= i < 7 && 0 <= j < t.levels[i].len() implies behind(
            (#[trigger] t.levels[i][j]).table.run(),
            x,
        ) by {
            if i == level + 1 {
                lemma_drawn_order(s, level, all[j].table.run());
            } else {
                assert(behind(s.levels[i][j].table.run(), x));
            }
        }
    }
}

proof fn lemma_apart_newer(a: Slot, b: Slot)
    requires
        apart(a, b),
    ensures
        newer(a.table.run(), b.table.run()),
{
    let x = a.table.run();
    let y = b.table.run();
    assert forall|p: int, q: int|
        #![trigger x[p], y[q]]
        0 <= p < x.len() && 0 <= q < y.len() && x[p].key.user
            == y[q].key.user implies timestamp::ts_lt(y[q].key.ts, x[p].key.ts) by {
        assert(lsm_laws::has_key(x, x[p].key.user));
        assert(lsm_laws::has_key(y, x[p].key.user));
    }
}

proof fn lemma_still_named(s: Slot, dir: Seq<u8>, a: int, b: int)
    requires
        named(s, dir, a),
        a <= b,
    ensures
        named(s, dir, b),
{
    let id = choose|id: u64| id < a && s.path == #[trigger] lsm_model::table_path(dir, id);
    assert(s.path == lsm_model::table_path(dir, id));
}

/// The tables of the new level agree with their versions, which were there before, and
/// have paths of file numbers that were given.
proof fn lemma_new_level_slots(
    s: LsmView,
    level: int,
    watermark: HlcTimestamp,
    made: Seq<TableView>,
    stay: Seq<Slot>,
    fresh: Seq<Slot>,
)
    requires
        arranged(s),
        s.compacts(level),
        s.next_file_id + made.len() <= u64::MAX,
        lsm_laws::made_from(made, s.new_runs(level, watermark)),
        stay == s.levels[level + 1].filter(
            |x: Slot|
                !lsm_model::names_path(
                    lsm_model::overlapping(s.levels[level], s.levels[level + 1]),
                    x.path,
                ),
        ),
        fresh == lsm_model::new_slots(s.dir, s.next_file_id, made),
    ensures
        lsm_laws::sound(lsm_model::sorted_by_min(stay + fresh)),
        forall|j: int|
            0 <= j < lsm_model::sorted_by_min(stay + fresh).len() ==> drawn(
                s,
                level,
                (#[trigger] lsm_model::sorted_by_min(stay + fresh)[j]).table.run(),
            ) && named(
                lsm_model::sorted_by_min(stay + fresh)[j],
                s.dir,
                s.next_file_id + made.len(),
            ),
{
    let inputs = s.levels[level];
    let below = s.levels[level + 1];
    let over = lsm_model::overlapping(inputs, below);
    let left = |x: Slot| !lsm_model::names_path(over, x.path);
    let ts = stay + fresh;
    let all = lsm_model::sorted_by_min(ts);
    let pieces = s.new_runs(level, watermark);
    let merged = lsm_model::slot_runs(s.merged_tables(level));
    assert(stay =~= below.filter(left));
    lemma_arranged_is_orderly(s, level);
    assert(lsm_laws::sound(inputs) && lsm_laws::sound(below));
    assert forall|i: int| 0 <= i < merged.len() implies key::sorted(#[trigger] merged[i])
        && reader::distinct_keys(merged[i]) by {
        let place = lemma_merged_slot(s, level, i);
        assert(lsm_laws::sound(s.levels[place.0]));
        assert(merged[i] == s.levels[place.0][place.1].table.run());
    }
    lsm_laws::lemma_new_runs_distinct(
        merged,
        watermark,
        level + 1 == 6,
        lsm_model::MAX_FILE_SIZE,
    );
    lsm_model::lemma_new_slots(s.dir, s.next_file_id, made);
    assert forall|i: int| 0 <= i < fresh.len() implies (#[trigger] fresh[i]).table.ok()
        && reader::distinct_keys(fresh[i].table.run()) by {
        assert(made[i].ok() && made[i].run() == pieces[i]);
        assert(reader::distinct_keys(pieces[i]));
    }
    lsm_laws::lemma_sorted_sound(below, left, fresh);
    lsm_laws::lemma_sorted_from(ts);
    assert forall|j: int| 0 <= j < all.len() implies drawn(
        s,
        level,
        (#[trigger] all[j]).table.run(),
    ) && named(all[j], s.dir, s.next_file_id + made.len()) by {
        assert(ts.contains(all[j]));
        let k = choose|k: int| 0 <= k < ts.len() && ts[k] == all[j];
        if k < stay.len() {
            lsm_model::lemma_filter_from(below, left, k);
            let q = choose|q: int| 0 <= q < below.len() && below[q] == below.filter(left)[k];
            let run = below[q].table.run();
            assert(all[j] == s.levels[level + 1][q]);
            assert forall|p: int| 0 <= p < run.len() implies is_from(
                s,
                level,
                #[trigger] run[p],
            ) by {
                assert(s.levels[level + 1][q].table.run()[p] == run[p]);
            }
            lemma_still_named(
                s.levels[level + 1][q],
                s.dir,
                s.next_file_id as int,
                s.next_file_id + made.len(),
            );
        } else {
            let i = k - stay.len();
            assert(made[i].run() == pieces[i]);
            lemma_new_runs_drawn(s, level, watermark, i);
            lemma_new_paths(s.dir, s.next_file_id, made, i);
            assert(all[j].path == lsm_model::table_path(s.dir, (s.next_file_id + i) as u64));
        }
    }
}

} // verus!
